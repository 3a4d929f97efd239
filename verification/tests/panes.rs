use file_commander::app::{settle_paste, ClipboardOp, ClipboardState, FileManagerApp};
use file_commander::fs::{copy_entry_dest, copy_step, fits_directory, CopyStep, FileItem};
use file_commander::pane::{Activation, Pane};
use file_commander::path::FsPath;

fn p(s: &str) -> FsPath {
    FsPath::from_text(s)
}

fn item(dir: &str, name: &str, is_dir: bool, size: u64) -> FileItem {
    FileItem {
        name: name.to_string(),
        path: p(dir).join_str(name),
        is_dir,
        size,
        modified: "2024-05-06 07:08".to_string(),
    }
}

fn home_listing() -> Vec<FileItem> {
    vec![item("/home/u", "docs", true, 4096), item("/home/u", "notes.txt", false, 1536)]
}

fn home_pane() -> Pane {
    Pane::new("Left Pane", p("/home/u"), Ok(home_listing()))
}

#[test]
fn new_pane_shows_its_listing() {
    let pane = home_pane();
    assert_eq!(pane.current_path_text(), "/home/u");
    assert_eq!(pane.items().len(), 2);
    assert_eq!(pane.error_msg(), None);
    assert_eq!(pane.selected_item(), None);
    assert_eq!(pane.renaming_item(), None);
    assert_eq!(pane.open_with_item(), None);
    assert!(pane.needs_apps());
}

#[test]
fn new_pane_with_failed_listing_shows_error() {
    let pane = Pane::new("Right Pane", p("/root"), Err("Permission denied (os error 13)".to_string()));
    assert!(pane.items().is_empty());
    assert_eq!(pane.error_msg(), Some("Permission denied (os error 13)".to_string()));
}

#[test]
fn refresh_replaces_items_and_clears_error() {
    let mut pane = Pane::new("Left Pane", p("/home/u"), Err("gone".to_string()));
    pane.refresh(Ok(home_listing()));
    assert_eq!(pane.items().len(), 2);
    assert_eq!(pane.error_msg(), None);
    pane.refresh(Err("No such file or directory (os error 2)".to_string()));
    assert!(pane.items().is_empty());
    assert_eq!(pane.error_msg(), Some("No such file or directory (os error 2)".to_string()));
}

#[test]
fn refresh_keeps_selection_and_path() {
    let mut pane = home_pane();
    pane.select(1);
    pane.refresh(Ok(Vec::new()));
    assert_eq!(pane.selected_item(), Some(p("/home/u/notes.txt")));
    assert_eq!(pane.current_path_text(), "/home/u");
}

#[test]
fn labels_show_icon_name_size_and_time() {
    let pane = home_pane();
    assert_eq!(pane.item_label(0), "\u{1F4C1} docs  |    |  2024-05-06 07:08");
    assert_eq!(pane.item_label(1), "\u{1F4C4} notes.txt  |  1.50 KB  |  2024-05-06 07:08");
}

#[test]
fn up_goes_to_the_parent() {
    let mut pane = home_pane();
    let up = pane.up_target().unwrap();
    assert_eq!(up.to_text(), "/home");
    pane.enter(up, Ok(vec![item("/home", "u", true, 0)]));
    assert_eq!(pane.current_path_text(), "/home");
    assert_eq!(pane.items().len(), 1);
    let root = Pane::new("Left Pane", p("/"), Ok(Vec::new()));
    assert!(root.up_target().is_none());
}

#[test]
fn click_selects_and_double_click_activates() {
    let mut pane = home_pane();
    assert!(!pane.is_selected(1));
    pane.select(1);
    assert!(pane.is_selected(1));
    assert!(!pane.is_selected(0));
    assert_eq!(pane.selected_text(), Some("/home/u/notes.txt".to_string()));
    match pane.activate(0) {
        Activation::Enter(q) => assert_eq!(q, p("/home/u/docs")),
        Activation::Open(_) => panic!("a directory is entered"),
    }
    match pane.activate(1) {
        Activation::Open(q) => assert_eq!(q, p("/home/u/notes.txt")),
        Activation::Enter(_) => panic!("a file is opened"),
    }
}

#[test]
fn delete_outcomes() {
    let mut pane = home_pane();
    pane.select(1);
    pane.delete_failed("trash unavailable");
    assert_eq!(pane.error_msg(), Some("Delete failed: trash unavailable".to_string()));
    assert_eq!(pane.selected_item(), Some(p("/home/u/notes.txt")));
    pane.delete_done(Ok(vec![item("/home/u", "docs", true, 4096)]));
    assert_eq!(pane.selected_item(), None);
    assert_eq!(pane.error_msg(), None);
    assert_eq!(pane.items().len(), 1);
}

#[test]
fn clipboard_cut_and_copy() {
    let pane = home_pane();
    let mut clipboard: Option<ClipboardState> = None;
    pane.clip_item(1, ClipboardOp::Cut, &mut clipboard);
    assert_eq!(clipboard, Some(ClipboardState { op: ClipboardOp::Cut, path: p("/home/u/notes.txt") }));
    pane.clip_item(0, ClipboardOp::Copy, &mut clipboard);
    assert_eq!(clipboard, Some(ClipboardState { op: ClipboardOp::Copy, path: p("/home/u/docs") }));
}

#[test]
fn paste_plans_a_transfer_into_the_shown_directory() {
    let other = Pane::new("Right Pane", p("/tmp"), Ok(Vec::new()));
    let clipboard = Some(ClipboardState { op: ClipboardOp::Cut, path: p("/home/u/notes.txt") });
    let t = other.plan_paste(&clipboard).unwrap();
    assert_eq!(t.op, ClipboardOp::Cut);
    assert_eq!(t.source, p("/home/u/notes.txt"));
    assert_eq!(t.dest, p("/tmp/notes.txt"));
    assert!(other.plan_paste(&None).is_none());
}

#[test]
fn cut_is_used_up_by_a_successful_move_only() {
    let state = || Some(ClipboardState { op: ClipboardOp::Cut, path: p("/a/x") });
    let mut c = state();
    settle_paste(&mut c, ClipboardOp::Cut, false);
    assert_eq!(c, state());
    settle_paste(&mut c, ClipboardOp::Cut, true);
    assert_eq!(c, None);
    let mut c = Some(ClipboardState { op: ClipboardOp::Copy, path: p("/a/x") });
    settle_paste(&mut c, ClipboardOp::Copy, true);
    assert_eq!(c, Some(ClipboardState { op: ClipboardOp::Copy, path: p("/a/x") }));
}

#[test]
fn drop_onto_own_directory_is_ignored() {
    let pane = home_pane();
    assert_eq!(pane.drop_target(&p("/home/u/notes.txt")), None);
    assert_eq!(pane.drop_target(&p("/tmp/notes.txt")), Some(p("/home/u/notes.txt")));
    assert_eq!(pane.destination_for(&p("/tmp/notes.txt")), p("/home/u/notes.txt"));
}

#[test]
fn new_folder_goes_into_the_shown_directory() {
    assert_eq!(home_pane().new_folder_path().to_text(), "/home/u/New Folder");
}

#[test]
fn rename_dialog_flow() {
    let mut pane = home_pane();
    assert!(pane.rename_target().is_none());
    pane.start_rename(1);
    assert_eq!(pane.renaming_item(), Some(p("/home/u/notes.txt")));
    assert_eq!(pane.rename_buffer(), "notes.txt");
    assert_eq!(pane.rename_prompt(), Some("Rename 'notes.txt' to:".to_string()));
    pane.set_rename_buffer("todo.md".to_string());
    let (from, to) = pane.rename_target().unwrap();
    assert_eq!(from, p("/home/u/notes.txt"));
    assert_eq!(to, p("/home/u/todo.md"));
    pane.rename_failed("exists");
    assert_eq!(pane.error_msg(), Some("Rename failed: exists".to_string()));
    assert!(pane.renaming_item().is_some());
    pane.rename_done(Ok(home_listing()));
    assert_eq!(pane.renaming_item(), None);
    assert_eq!(pane.error_msg(), None);
    pane.start_rename(0);
    pane.cancel_rename();
    assert_eq!(pane.renaming_item(), None);
}

#[test]
fn rename_text_is_read_as_a_path() {
    let mut pane = home_pane();
    pane.start_rename(1);
    pane.set_rename_buffer("/etc/x".to_string());
    assert_eq!(pane.rename_target().unwrap().1, p("/etc/x"));
    pane.set_rename_buffer("sub/x".to_string());
    assert_eq!(pane.rename_target().unwrap().1, p("/home/u/sub/x"));
    pane.set_rename_buffer("x/".to_string());
    assert_eq!(pane.rename_target().unwrap().1.to_text(), "/home/u/x/");
}

#[test]
fn open_with_flow() {
    let mut pane = home_pane();
    pane.start_open_with(1);
    assert_eq!(pane.open_with_item(), Some(p("/home/u/notes.txt")));
    assert_eq!(pane.open_with_prompt(), Some("Open 'notes.txt' with:".to_string()));
    assert!(pane.needs_apps());
    pane.load_apps(vec![
        p("/Applications/TextEdit.app"),
        p("/Applications/Safari.app"),
        p("/Applications/readme.txt"),
        p("/System/Applications/Mail.app"),
        p("/Applications/.app"),
    ]);
    assert!(!pane.needs_apps());
    assert_eq!(pane.app_labels(), vec!["Safari", "TextEdit", "Mail"]);
    pane.edit_open_with_filter("SAF".to_string(), true);
    assert_eq!(pane.open_with_buffer(), "SAF");
    assert_eq!(pane.app_labels(), vec!["Safari"]);
    pane.edit_open_with_filter("ext".to_string(), true);
    assert_eq!(pane.app_labels(), vec!["TextEdit"]);
    pane.edit_open_with_filter(".APP".to_string(), true);
    assert_eq!(pane.app_labels(), vec!["Safari", "TextEdit", "Mail"]);
    pane.edit_open_with_filter("zzz".to_string(), true);
    assert!(pane.app_labels().is_empty());
    pane.edit_open_with_filter("".to_string(), true);
    assert_eq!(pane.app_labels(), vec!["Safari", "TextEdit", "Mail"]);
    assert_eq!(pane.app_path(2), p("/System/Applications/Mail.app"));
    pane.open_with_finished(Err("no such application".to_string()));
    assert_eq!(pane.open_with_item(), None);
    assert_eq!(pane.error_msg(), Some("Open failed: no such application".to_string()));
    pane.start_open_with(0);
    pane.open_with_finished(Ok(()));
    assert_eq!(pane.open_with_item(), None);
    pane.start_open_with(0);
    pane.cancel_open_with();
    assert_eq!(pane.open_with_item(), None);
}

#[test]
fn filter_follows_each_reported_edit() {
    let mut pane = home_pane();
    pane.load_apps(vec![p("/Applications/Safari.app"), p("/Applications/Mail.app")]);
    pane.edit_open_with_filter("mail".to_string(), true);
    assert_eq!(pane.app_labels(), vec!["Mail"]);
    pane.start_open_with(0);
    // the text is empty again but the offer stays until the field reports an edit
    assert_eq!(pane.app_labels(), vec!["Mail"]);
    pane.edit_open_with_filter("".to_string(), false);
    assert_eq!(pane.app_labels(), vec!["Mail"]);
    // a Backspace in the empty field is an edit: every application is offered
    pane.edit_open_with_filter("".to_string(), true);
    assert_eq!(pane.app_labels(), vec!["Mail", "Safari"]);
    pane.edit_open_with_filter("s".to_string(), true);
    assert_eq!(pane.app_labels(), vec!["Safari"]);
}

#[test]
fn app_starts_with_both_panes_on_one_path() {
    let start = FileManagerApp::start_path(Some(p("/home/u")), Some(p("/tmp")));
    assert_eq!(start, p("/home/u"));
    assert_eq!(FileManagerApp::start_path(None, Some(p("/tmp"))), p("/tmp"));
    assert_eq!(FileManagerApp::start_path(None, None), FsPath::empty());
    let mut app = FileManagerApp::new(start, Ok(home_listing()), Err("busy".to_string()));
    assert!(app.clipboard().is_none());
    let (left, right, clipboard) = app.parts_mut();
    assert_eq!(left.items().len(), 2);
    assert_eq!(right.error_msg(), Some("busy".to_string()));
    assert_eq!(left.current_path(), right.current_path());
    left.clip_item(1, ClipboardOp::Copy, clipboard);
    let t = right.plan_paste(clipboard).unwrap();
    assert_eq!(t.dest, p("/home/u/notes.txt"));
    assert!(app.clipboard().is_some());
}

#[test]
fn header_shows_the_path_text_as_given() {
    let pane = Pane::new("Left Pane", p("/home/u/"), Ok(vec![item("/home/u/", "docs", true, 0)]));
    assert_eq!(pane.current_path_text(), "/home/u/");
    assert_eq!(pane.items()[0].path.to_text(), "/home/u/docs");
}

#[test]
fn empty_filter_offers_every_application() {
    let mut pane = home_pane();
    pane.load_apps(vec![p("/Applications/Safari.app"), p("/Applications/Mail.app")]);
    pane.edit_open_with_filter("zzz".to_string(), true);
    assert!(pane.app_labels().is_empty());
    pane.edit_open_with_filter("".to_string(), true);
    assert_eq!(pane.app_labels(), vec!["Mail", "Safari"]);
}

#[test]
fn listing_fit_checks_order_and_directory() {
    assert!(fits_directory(&p("/home/u"), &home_listing()));
    assert!(fits_directory(&p("/home/u/"), &home_listing()));
    let mut reversed = home_listing();
    reversed.reverse();
    assert!(!fits_directory(&p("/home/u"), &reversed));
    assert!(!fits_directory(&p("/tmp"), &home_listing()));
    assert!(fits_directory(&p("/tmp"), &Vec::new()));
}

#[test]
fn copy_steps() {
    assert_eq!(copy_step(false, true), CopyStep::CopyFile);
    assert_eq!(copy_step(false, false), CopyStep::CopyFile);
    assert_eq!(copy_step(true, true), CopyStep::EntriesOnly);
    assert_eq!(copy_step(true, false), CopyStep::CreateDirThenEntries);
    assert_eq!(copy_entry_dest(&p("/backup/docs"), &"a.txt".to_string()).to_text(), "/backup/docs/a.txt");
}
