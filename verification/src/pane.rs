//! One pane of the window: the directory it shows, its listing, the
//! selection, and the rename and open-with dialogs. Each method takes the
//! outcome of the file-system work that led to it and says what the pane
//! holds afterwards.
use vstd::prelude::*;
use crate::app::{clipboard_view, ClipboardOp, ClipboardState, ClipboardView, Transfer};
use crate::fs::{
    format_size, item_views, listing_fits, size_hundredths, size_text, FileItem, ItemView,
};
use crate::order::{lemma_filter_all, lemma_map_push};
use crate::path::{
    denoting, lemma_child_parent, lemma_stem_and_extension, lemma_file_name_plain, lemma_join_component, lemma_parent_child,
    lemma_parse_well_formed, extension_of, file_name_of, file_stem_of, join_text, name_or_empty,
    name_text, parent_of,
    parse_path, path_texts, path_views, paths_sorted, sort_paths, std_parent, FsPath, PathView,
};
use crate::text::{
    append_str, chars_of, concat_str, contains_chars, contains_run, decimal, lowercase, lowercase_chars,
    string_of,
};

verus! {

broadcast use vstd::seq_lib::group_seq_properties;

/// What a pane holds.
pub struct PaneView {
    pub current_path: Seq<char>,
    pub items: Seq<ItemView>,
    pub selected_item: Option<Seq<char>>,
    pub error_msg: Option<Seq<char>>,
    pub renaming_item: Option<Seq<char>>,
    pub rename_buffer: Seq<char>,
    pub open_with_item: Option<Seq<char>>,
    pub open_with_buffer: Seq<char>,
    pub available_apps: Seq<Seq<char>>,
    pub filtered_apps: Seq<Seq<char>>,
}

/// A pane.
pub struct Pane {
    current_path: FsPath,
    items: Vec<FileItem>,
    selected_item: Option<FsPath>,
    error_msg: Option<String>,
    renaming_item: Option<FsPath>,
    rename_buffer: String,
    open_with_item: Option<FsPath>,
    open_with_buffer: String,
    available_apps: Vec<FsPath>,
    filtered_apps: Vec<FsPath>,
}

pub open spec fn opt_path(o: Option<FsPath>) -> Option<Seq<char>> {
    match o {
        Some(p) => Some(p@),
        None => None,
    }
}

pub open spec fn opt_text(o: Option<String>) -> Option<Seq<char>> {
    match o {
        Some(s) => Some(s@),
        None => None,
    }
}

impl View for Pane {
    type V = PaneView;

    closed spec fn view(&self) -> PaneView {
        PaneView {
            current_path: self.current_path@,
            items: item_views(self.items@),
            selected_item: opt_path(self.selected_item),
            error_msg: opt_text(self.error_msg),
            renaming_item: opt_path(self.renaming_item),
            rename_buffer: self.rename_buffer@,
            open_with_item: opt_path(self.open_with_item),
            open_with_buffer: self.open_with_buffer@,
            available_apps: path_texts(self.available_apps@),
            filtered_apps: path_texts(self.filtered_apps@),
        }
    }
}

/// A listing as it was read: its entries, or the error that stopped it.
pub open spec fn listing_view(l: Result<Vec<FileItem>, String>) -> Result<Seq<ItemView>, Seq<char>> {
    match l {
        Ok(v) => Ok(item_views(v@)),
        Err(e) => Err(e@),
    }
}

/// A listing read for `dir`, as a pane takes it: when it could be read, its
/// entries are in listing order and lie directly in `dir`.
pub open spec fn listing_ok(dir: Seq<char>, l: Result<Vec<FileItem>, String>) -> bool {
    l matches Ok(v) ==> listing_fits(dir, item_views(v@))
}

/// A fresh pane on `path`, before its first listing.
pub open spec fn initial_pane(path: Seq<char>) -> PaneView {
    PaneView {
        current_path: path,
        items: Seq::empty(),
        selected_item: None,
        error_msg: None,
        renaming_item: None,
        rename_buffer: Seq::empty(),
        open_with_item: None,
        open_with_buffer: Seq::empty(),
        available_apps: Seq::empty(),
        filtered_apps: Seq::empty(),
    }
}

/// The pane after a listing of its directory: the entries replace the old
/// ones and clear the error; a failed listing empties the entries and shows
/// its error. Nothing else changes.
pub open spec fn refreshed(v: PaneView, l: Result<Seq<ItemView>, Seq<char>>) -> PaneView {
    match l {
        Ok(items) => PaneView { items: items, error_msg: None, ..v },
        Err(e) => PaneView { items: Seq::empty(), error_msg: Some(e), ..v },
    }
}

/// The folder icon for directories, the page icon for files.
pub open spec fn icon(is_dir: bool) -> char {
    if is_dir {
        '\u{1F4C1}'
    } else {
        '\u{1F4C4}'
    }
}

pub open spec fn column_sep() -> Seq<char> {
    seq![' ', ' ', '|', ' ', ' ']
}

/// The row shown for an entry: icon, name, size (blank for directories) and
/// modification time, separated by bars.
pub open spec fn label_text(v: ItemView) -> Seq<char> {
    seq![icon(v.is_dir), ' '] + v.name + column_sep() + (if v.is_dir {
        Seq::empty()
    } else {
        size_text(v.size as nat)
    }) + column_sep() + v.modified
}

/// `prefix`, the file name of `p` in single quotes, then `suffix`.
pub open spec fn prompt_text(prefix: Seq<char>, p: Seq<char>, suffix: Seq<char>) -> Seq<char> {
    prefix + seq!['\''] + name_or_empty(p) + seq!['\''] + suffix
}

/// The application `p` is offered for the typed `filter`: its file name,
/// lowercased, holds the lowercased filter.
pub open spec fn app_matches(p: Seq<char>, filter: Seq<char>) -> bool {
    contains_run(lowercase(name_or_empty(p)), lowercase(filter))
}

pub open spec fn app_filter(filter: Seq<char>) -> spec_fn(Seq<char>) -> bool {
    |p: Seq<char>| app_matches(p, filter)
}

/// An application bundle: its extension is `app`.
pub open spec fn is_app_bundle(p: Seq<char>) -> bool {
    extension_of(parse_path(p)) == Some(seq!['a', 'p', 'p'])
}

pub open spec fn app_bundle_filter() -> spec_fn(Seq<char>) -> bool {
    |p: Seq<char>| is_app_bundle(p)
}

/// The button text for an application: its file stem, or nothing.
pub open spec fn app_label(p: Seq<char>) -> Seq<char> {
    match file_stem_of(parse_path(p)) {
        Some(s) => s,
        None => Seq::empty(),
    }
}

/// An application's button text is its file name with the last extension
/// taken off once: followed by a dot and that extension it is the whole file
/// name (`Python 3.12` for `Python 3.12.app`); without an extension it is
/// the file name; without a file name it is empty.
pub proof fn lemma_app_label_is_stem(p: Seq<char>)
    ensures
        match (file_name_of(parse_path(p)), extension_of(parse_path(p))) {
            (Some(name), Some(ext)) => app_label(p) + seq!['.'] + ext == name,
            (Some(name), None) => app_label(p) == name,
            (None, _) => app_label(p).len() == 0,
        },
{
    lemma_stem_and_extension(parse_path(p));
}

/// The columns of a listing row: the icon and name, then the size column,
/// then the time. A file's size column is the size text of its size, which
/// is never blank (`0 B` for an empty file); a directory's is blank.
pub proof fn lemma_row_size_column(v: ItemView)
    ensures
        size_text(0) == seq!['0', ' ', 'B'],
        size_text(v.size as nat).len() > 0,
        ({
            let k: int = (2 + v.name.len() + column_sep().len()) as int;
            let t = size_text(v.size as nat);
            let row = label_text(v);
            &&& row.subrange(0, k) == seq![icon(v.is_dir), ' '] + v.name + column_sep()
            &&& !v.is_dir ==> row.subrange(k, k + t.len() as int) == t && row.subrange(
                k + t.len() as int,
                row.len() as int,
            ) == column_sep() + v.modified
            &&& v.is_dir ==> row.subrange(k, row.len() as int) == column_sep() + v.modified
        }),
{
    let t = size_text(v.size as nat);
    if v.size != 0 {
        let h = size_hundredths(v.size as nat);
        assert(decimal(h / 100).len() > 0);
        assert(t.len() > 0);
    }
    let k: int = (2 + v.name.len() + column_sep().len()) as int;
    let head = seq![icon(v.is_dir), ' '] + v.name + column_sep();
    let tail = column_sep() + v.modified;
    assert(head.len() == k);
    if v.is_dir {
        assert(label_text(v) =~= head + tail);
        assert(label_text(v).subrange(0, k) =~= head);
        assert(label_text(v).subrange(k, label_text(v).len() as int) =~= tail);
    } else {
        assert(label_text(v) =~= head + t + tail);
        assert(label_text(v).subrange(0, k) =~= head);
        assert(label_text(v).subrange(k, k + t.len() as int) =~= t);
        assert(label_text(v).subrange(k + t.len() as int, label_text(v).len() as int) =~= tail);
    }
}

/// What double-clicking an entry does.
pub enum Activation {
    /// Show this directory in the pane.
    Enter(FsPath),
    /// Open this file with its default application.
    Open(FsPath),
}

fn clone_opt(o: &Option<FsPath>) -> (r: Option<FsPath>)
    ensures
        opt_path(r) == opt_path(*o),
{
    match o {
        Some(p) => Some(p.clone()),
        None => None,
    }
}

impl Pane {
    /// The entries shown are a listing of the directory shown.
    #[verifier::type_invariant]
    spec fn inv(self) -> bool {
        listing_fits(self.current_path@, item_views(self.items@))
    }

    /// A pane on `path` showing `listing`, the listing read for `path`.
    pub fn new(_title: &str, path: FsPath, listing: Result<Vec<FileItem>, String>) -> (r: Pane)
        requires
            listing_ok(path@, listing),
        ensures
            r@ == refreshed(initial_pane(path@), listing_view(listing)),
    {
        let mut pane = Pane {
            current_path: path,
            items: Vec::new(),
            selected_item: None,
            error_msg: None,
            renaming_item: None,
            rename_buffer: String::new(),
            open_with_item: None,
            open_with_buffer: String::new(),
            available_apps: Vec::new(),
            filtered_apps: Vec::new(),
        };
        assert(item_views(pane.items@) =~= Seq::<ItemView>::empty());
        assert(path_texts(pane.available_apps@) =~= Seq::<Seq<char>>::empty());
        assert(path_texts(pane.filtered_apps@) =~= Seq::<Seq<char>>::empty());
        pane.refresh(listing);
        pane
    }

    /// Takes in `listing`, the listing read again for the current directory.
    pub fn refresh(&mut self, listing: Result<Vec<FileItem>, String>)
        requires
            listing_ok(old(self)@.current_path, listing),
        ensures
            final(self)@ == refreshed(old(self)@, listing_view(listing)),
    {
        proof {
            use_type_invariant(&*self);
        }
        match listing {
            Ok(items) => {
                self.items = items;
                self.error_msg = None;
            },
            Err(e) => {
                self.error_msg = Some(e);
                self.items = Vec::new();
                assert(item_views(self.items@) =~= Seq::<ItemView>::empty());
            },
        }
    }

    /// The directory shown.
    pub fn current_path(&self) -> (r: &FsPath)
        ensures
            r@ == self@.current_path,
    {
        &self.current_path
    }

    /// The text of the directory shown, for the header.
    pub fn current_path_text(&self) -> (r: String)
        ensures
            r@ == self@.current_path,
    {
        self.current_path.to_text()
    }

    /// The entries shown.
    pub fn items(&self) -> (r: &Vec<FileItem>)
        ensures
            item_views(r@) == self@.items,
            listing_fits(self@.current_path, item_views(r@)),
    {
        proof {
            use_type_invariant(self);
        }
        &self.items
    }

    /// The error shown, if any.
    pub fn error_msg(&self) -> (r: Option<String>)
        ensures
            opt_text(r) == self@.error_msg,
    {
        match &self.error_msg {
            Some(e) => Some(e.clone()),
            None => None,
        }
    }

    /// The directory "Up" leads to: the parent of the one shown.
    pub fn up_target(&self) -> (r: Option<FsPath>)
        ensures
            opt_path(r) == std_parent(self@.current_path),
            r is Some <==> parent_of(parse_path(self@.current_path)) is Some,
            r matches Some(q) ==> parse_path(q@) == parent_of(parse_path(self@.current_path))->0,
    {
        self.current_path.parent()
    }

    /// Shows the directory `path`, with `listing`, the listing read for it.
    pub fn enter(&mut self, path: FsPath, listing: Result<Vec<FileItem>, String>)
        requires
            listing_ok(path@, listing),
        ensures
            final(self)@ == refreshed(
                (PaneView { current_path: path@, ..old(self)@ }),
                listing_view(listing),
            ),
    {
        proof {
            use_type_invariant(&*self);
        }
        self.items = Vec::new();
        assert(item_views(self.items@) =~= Seq::<ItemView>::empty());
        self.current_path = path;
        self.refresh(listing);
    }

    /// The selected entry's path, if any.
    pub fn selected_item(&self) -> (r: Option<FsPath>)
        ensures
            opt_path(r) == self@.selected_item,
    {
        clone_opt(&self.selected_item)
    }

    /// The selected entry's path as text, for the system clipboard.
    pub fn selected_text(&self) -> (r: Option<String>)
        ensures
            match self@.selected_item {
                Some(p) => r is Some && r->0@ == p,
                None => r is None,
            },
    {
        match &self.selected_item {
            Some(p) => Some(p.to_text()),
            None => None,
        }
    }

    /// Moving the selected entry to the trash failed with `err`.
    pub fn delete_failed(&mut self, err: &str)
        ensures
            final(self)@ == (PaneView { error_msg: Some("Delete failed: "@ + err@), ..old(self)@ }),
    {
        proof {
            use_type_invariant(&*self);
        }
        self.error_msg = Some(concat_str("Delete failed: ", err));
    }

    /// The selected entry went to the trash; `listing` is the directory read again.
    pub fn delete_done(&mut self, listing: Result<Vec<FileItem>, String>)
        requires
            listing_ok(old(self)@.current_path, listing),
        ensures
            final(self)@ == (PaneView {
                selected_item: None,
                ..refreshed(old(self)@, listing_view(listing))
            }),
    {
        proof {
            use_type_invariant(&*self);
        }
        self.refresh(listing);
        self.selected_item = None;
    }

    /// The row text for entry `index`.
    pub fn item_label(&self, index: usize) -> (r: String)
        requires
            index < self@.items.len(),
        ensures
            r@ == label_text(self@.items[index as int]),
    {
        let item = &self.items[index];
        let mut out: Vec<char> = Vec::new();
        out.push(if item.is_dir {
            '\u{1F4C1}'
        } else {
            '\u{1F4C4}'
        });
        out.push(' ');
        append_str(&mut out, item.name.as_str());
        append_str(&mut out, "  |  ");
        if !item.is_dir {
            let size = format_size(item.size);
            append_str(&mut out, size.as_str());
        }
        append_str(&mut out, "  |  ");
        append_str(&mut out, item.modified.as_str());
        proof {
            reveal_strlit("  |  ");
            assert("  |  "@ =~= column_sep());
        }
        assert(out@ =~= label_text(self@.items[index as int]));
        string_of(&out)
    }

    /// Whether entry `index` is the selected one.
    pub fn is_selected(&self, index: usize) -> (r: bool)
        requires
            index < self@.items.len(),
        ensures
            r == (self@.selected_item matches Some(s) && parse_path(s) == parse_path(
                self@.items[index as int].path,
            )),
    {
        match &self.selected_item {
            Some(p) => self.items[index].path.same_as(p),
            None => false,
        }
    }

    /// Selects entry `index` (a single click).
    pub fn select(&mut self, index: usize)
        requires
            index < old(self)@.items.len(),
        ensures
            final(self)@ == (PaneView {
                selected_item: Some(old(self)@.items[index as int].path),
                ..old(self)@
            }),
    {
        proof {
            use_type_invariant(&*self);
        }
        let p = self.items[index].path.clone();
        self.selected_item = Some(p);
    }

    /// What double-clicking entry `index` does: enter a directory, open a file.
    pub fn activate(&self, index: usize) -> (r: Activation)
        requires
            index < self@.items.len(),
        ensures
            match r {
                Activation::Enter(p) => self@.items[index as int].is_dir && p@
                    == self@.items[index as int].path,
                Activation::Open(p) => !self@.items[index as int].is_dir && p@
                    == self@.items[index as int].path,
            },
    {
        let item = &self.items[index];
        if item.is_dir {
            Activation::Enter(item.path.clone())
        } else {
            Activation::Open(item.path.clone())
        }
    }

    /// Puts entry `index` on the clipboard for the operation `op`.
    pub fn clip_item(&self, index: usize, op: ClipboardOp, clipboard: &mut Option<ClipboardState>)
        requires
            index < self@.items.len(),
        ensures
            clipboard_view(*final(clipboard)) == Some(
                ClipboardView { op: op, path: self@.items[index as int].path },
            ),
    {
        *clipboard = Some(ClipboardState { op, path: self.items[index].path.clone() });
    }

    /// Opens the rename dialog for entry `index`, the name as the text to edit.
    pub fn start_rename(&mut self, index: usize)
        requires
            index < old(self)@.items.len(),
        ensures
            final(self)@ == (PaneView {
                renaming_item: Some(old(self)@.items[index as int].path),
                rename_buffer: old(self)@.items[index as int].name,
                ..old(self)@
            }),
    {
        proof {
            use_type_invariant(&*self);
        }
        let p = self.items[index].path.clone();
        let n = self.items[index].name.clone();
        self.renaming_item = Some(p);
        self.rename_buffer = n;
    }

    /// Opens the open-with dialog for entry `index` with an empty filter text.
    pub fn start_open_with(&mut self, index: usize)
        requires
            index < old(self)@.items.len(),
        ensures
            final(self)@ == (PaneView {
                open_with_item: Some(old(self)@.items[index as int].path),
                open_with_buffer: Seq::empty(),
                ..old(self)@
            }),
    {
        proof {
            use_type_invariant(&*self);
        }
        let p = self.items[index].path.clone();
        self.open_with_item = Some(p);
        self.open_with_buffer = String::new();
    }

    /// Where a path with a file name lands when pasted or dropped into the
    /// directory shown: that directory, then the file name.
    pub fn destination_for(&self, source: &FsPath) -> (r: FsPath)
        requires
            file_name_of(parse_path(source@)) is Some,
        ensures
            r@ == join_text(self@.current_path, file_name_of(parse_path(source@))->0),
    {
        match source.file_name() {
            Some(n) => self.current_path.join_str(n.as_str()),
            None => self.current_path.clone(),
        }
    }

    /// The paste of the clipboard into the directory shown, if it holds a path.
    pub fn plan_paste(&self, clipboard: &Option<ClipboardState>) -> (r: Option<Transfer>)
        requires
            match clipboard_view(*clipboard) {
                Some(c) => file_name_of(parse_path(c.path)) is Some,
                None => true,
            },
        ensures
            match clipboard_view(*clipboard) {
                Some(c) => r is Some && r->0.op == c.op && r->0.source@ == c.path && r->0.dest@
                    == join_text(self@.current_path, file_name_of(parse_path(c.path))->0),
                None => r is None,
            },
    {
        match clipboard {
            Some(c) => Some(
                Transfer {
                    op: c.op,
                    source: c.path.clone(),
                    dest: self.destination_for(&c.path),
                },
            ),
            None => None,
        }
    }

    /// Where a path dragged from a pane lands when dropped here; none when it
    /// would land on itself, that is when it is already in the directory shown.
    pub fn drop_target(&self, source: &FsPath) -> (r: Option<FsPath>)
        requires
            file_name_of(parse_path(source@)) is Some,
        ensures
            ({
                let dest = join_text(self@.current_path, file_name_of(parse_path(source@))->0);
                &&& parse_path(dest) == parse_path(source@) ==> r is None
                &&& parse_path(dest) != parse_path(source@) ==> r is Some && r->0@ == dest
            }),
    {
        let dest = self.destination_for(source);
        if dest.same_as(source) {
            None
        } else {
            Some(dest)
        }
    }

    /// Where "New Folder" creates its directory.
    pub fn new_folder_path(&self) -> (r: FsPath)
        ensures
            r@ == join_text(self@.current_path, "New Folder"@),
    {
        self.current_path.join_str("New Folder")
    }

    /// The entry being renamed, if the rename dialog is open.
    pub fn renaming_item(&self) -> (r: Option<FsPath>)
        ensures
            opt_path(r) == self@.renaming_item,
    {
        clone_opt(&self.renaming_item)
    }

    /// The text in the rename dialog.
    pub fn rename_buffer(&self) -> (r: String)
        ensures
            r@ == self@.rename_buffer,
    {
        self.rename_buffer.clone()
    }

    /// The user edited the rename text to `text`.
    pub fn set_rename_buffer(&mut self, text: String)
        ensures
            final(self)@ == (PaneView { rename_buffer: text@, ..old(self)@ }),
    {
        proof {
            use_type_invariant(&*self);
        }
        self.rename_buffer = text;
    }

    /// The rename dialog's question, `Rename '<name>' to:`.
    pub fn rename_prompt(&self) -> (r: Option<String>)
        ensures
            match self@.renaming_item {
                Some(p) => r is Some && r->0@ == prompt_text("Rename "@, p, " to:"@),
                None => r is None,
            },
    {
        match &self.renaming_item {
            Some(p) => Some(prompt(p, "Rename ", " to:")),
            None => None,
        }
    }

    /// The move the rename dialog asks for: the entry, and the text read as a
    /// path inside the entry's directory.
    pub fn rename_target(&self) -> (r: Option<(FsPath, FsPath)>)
        requires
            match self@.renaming_item {
                Some(p) => parent_of(parse_path(p)) is Some,
                None => true,
            },
        ensures
            match self@.renaming_item {
                Some(p) => r matches Some((from, to)) && from@ == p && to@ == join_text(
                    std_parent(p)->0,
                    self@.rename_buffer,
                ),
                None => r is None,
            },
    {
        match &self.renaming_item {
            Some(p) => match p.parent() {
                Some(dir) => Some((p.clone(), dir.join_str(self.rename_buffer.as_str()))),
                None => None,
            },
            None => None,
        }
    }

    /// The rename failed with `err`; the dialog stays open.
    pub fn rename_failed(&mut self, err: &str)
        ensures
            final(self)@ == (PaneView { error_msg: Some("Rename failed: "@ + err@), ..old(self)@ }),
    {
        proof {
            use_type_invariant(&*self);
        }
        self.error_msg = Some(concat_str("Rename failed: ", err));
    }

    /// The rename succeeded; the dialog closes and `listing` is the directory
    /// read again.
    pub fn rename_done(&mut self, listing: Result<Vec<FileItem>, String>)
        requires
            listing_ok(old(self)@.current_path, listing),
        ensures
            final(self)@ == (PaneView {
                renaming_item: None,
                ..refreshed(old(self)@, listing_view(listing))
            }),
    {
        proof {
            use_type_invariant(&*self);
        }
        self.renaming_item = None;
        self.refresh(listing);
    }

    /// The rename dialog was cancelled or closed.
    pub fn cancel_rename(&mut self)
        ensures
            final(self)@ == (PaneView { renaming_item: None, ..old(self)@ }),
    {
        proof {
            use_type_invariant(&*self);
        }
        self.renaming_item = None;
    }

    /// The entry the open-with dialog is for, if it is open.
    pub fn open_with_item(&self) -> (r: Option<FsPath>)
        ensures
            opt_path(r) == self@.open_with_item,
    {
        clone_opt(&self.open_with_item)
    }

    /// Whether the applications still have to be looked for (none known yet).
    pub fn needs_apps(&self) -> (r: bool)
        ensures
            r == (self@.available_apps.len() == 0),
    {
        self.available_apps.len() == 0
    }

    /// Takes in `found`, the entries of the application folders: the
    /// application bundles among them, in `Path` order, become the known
    /// applications, and all of them are offered.
    pub fn load_apps(&mut self, found: Vec<FsPath>)
        ensures
            final(self)@.available_apps.to_multiset() == path_texts(found@).filter(
                app_bundle_filter(),
            ).to_multiset(),
            paths_sorted(path_views(final(self)@.available_apps)),
            forall|k: PathView|
                #[trigger] final(self)@.available_apps.filter(denoting(k)) == path_texts(found@).filter(
                    app_bundle_filter(),
                ).filter(denoting(k)),
            final(self)@.filtered_apps == final(self)@.available_apps,
            final(self)@ == (PaneView {
                available_apps: final(self)@.available_apps,
                filtered_apps: final(self)@.filtered_apps,
                ..old(self)@
            }),
    {
        proof {
            use_type_invariant(&*self);
        }
        let ghost pf = app_bundle_filter();
        let ghost fv = path_texts(found@);
        let mut apps: Vec<FsPath> = Vec::new();
        let n = found.len();
        for i in 0..n
            invariant
                n == found.len(),
                pf == app_bundle_filter(),
                fv == path_texts(found@),
                path_texts(apps@) == fv.take(i as int).filter(pf),
        {
            let ext = found[i].extension();
            let is_app = match &ext {
                Some(e) => {
                    let cs = chars_of(e.as_str());
                    let m = cs.len() == 3 && cs[0] == 'a' && cs[1] == 'p' && cs[2] == 'p';
                    assert(m == (e@ == seq!['a', 'p', 'p'])) by {
                        if cs@.len() == 3 && cs@[0] == 'a' && cs@[1] == 'p' && cs@[2] == 'p' {
                            assert(cs@ =~= seq!['a', 'p', 'p']);
                        }
                    }
                    m
                },
                None => false,
            };
            proof {
                assert(fv.take(i + 1) =~= fv.take(i as int).push(fv[i as int]));
                fv.take(i as int).lemma_filter_push(fv[i as int], pf);
            }
            if is_app {
                let ghost before = apps@;
                let p = found[i].clone();
                apps.push(p);
                proof {
                    lemma_map_push(before, p, |q: FsPath| q@);
                }
            }
        }
        assert(fv.take(n as int) =~= fv);
        let sorted = sort_paths(apps);
        self.filtered_apps = clone_paths(&sorted);
        self.available_apps = sorted;
    }

    /// The open-with dialog's question, `Open '<name>' with:`.
    pub fn open_with_prompt(&self) -> (r: Option<String>)
        ensures
            match self@.open_with_item {
                Some(p) => r is Some && r->0@ == prompt_text("Open "@, p, " with:"@),
                None => r is None,
            },
    {
        match &self.open_with_item {
            Some(p) => Some(prompt(p, "Open ", " with:")),
            None => None,
        }
    }

    /// The filter text in the open-with dialog.
    pub fn open_with_buffer(&self) -> (r: String)
        ensures
            r@ == self@.open_with_buffer,
    {
        self.open_with_buffer.clone()
    }

    /// The filter text now reads `text`; `edited` tells whether the text field
    /// reported an edit. On an edit the offered applications become those of
    /// the known ones whose name holds the text, ignoring case, in the same
    /// order; an empty text offers them all. Without one the offer stays.
    pub fn edit_open_with_filter(&mut self, text: String, edited: bool)
        ensures
            edited && text@.len() == 0 ==> final(self)@.filtered_apps == old(self)@.available_apps,
            final(self)@ == (PaneView {
                open_with_buffer: text@,
                filtered_apps: if edited {
                    old(self)@.available_apps.filter(app_filter(text@))
                } else {
                    old(self)@.filtered_apps
                },
                ..old(self)@
            }),
    {
        proof {
            use_type_invariant(&*self);
        }
        if edited {
            let filter = lowercase_chars(text.as_str());
            let ghost pf = app_filter(text@);
            let ghost avail = path_texts(self.available_apps@);
            let mut kept: Vec<FsPath> = Vec::new();
            let n = self.available_apps.len();
            for i in 0..n
                invariant
                    n == self.available_apps.len(),
                    avail == path_texts(self.available_apps@),
                    filter@ == lowercase(text@),
                    pf == app_filter(text@),
                    path_texts(kept@) == avail.take(i as int).filter(pf),
            {
                let name = name_text(&self.available_apps[i]);
                let lname = lowercase_chars(name.as_str());
                let m = contains_chars(&lname, &filter);
                proof {
                    assert(avail.take(i + 1) =~= avail.take(i as int).push(avail[i as int]));
                    avail.take(i as int).lemma_filter_push(avail[i as int], pf);
                }
                if m {
                    let ghost before = kept@;
                    let p = self.available_apps[i].clone();
                    kept.push(p);
                    proof {
                        lemma_map_push(before, p, |q: FsPath| q@);
                    }
                }
            }
            assert(avail.take(n as int) =~= avail);
            proof {
                if text@.len() == 0 {
                    assert forall|i: int| 0 <= i < avail.len() implies #[trigger] pf(avail[i]) by {
                        let hay = lowercase(name_or_empty(avail[i]));
                        assert(hay.subrange(0, 0) =~= lowercase(text@));
                    }
                    lemma_filter_all(avail, pf);
                }
            }
            self.filtered_apps = kept;
        }
        self.open_with_buffer = text;
    }

    /// The button texts of the offered applications.
    pub fn app_labels(&self) -> (r: Vec<String>)
        ensures
            r@.len() == self@.filtered_apps.len(),
            forall|i: int| 0 <= i < r@.len() ==> #[trigger] r@[i]@ == app_label(self@.filtered_apps[i]),
    {
        let mut r: Vec<String> = Vec::new();
        let n = self.filtered_apps.len();
        for i in 0..n
            invariant
                n == self.filtered_apps.len(),
                r@.len() == i,
                forall|k: int| 0 <= k < i ==> #[trigger] r@[k]@ == app_label(path_texts(self.filtered_apps@)[k]),
        {
            let label = match self.filtered_apps[i].file_stem() {
                Some(s) => s,
                None => String::new(),
            };
            r.push(label);
        }
        r
    }

    /// The offered application at `index`.
    pub fn app_path(&self, index: usize) -> (r: FsPath)
        requires
            index < self@.filtered_apps.len(),
        ensures
            r@ == self@.filtered_apps[index as int],
    {
        self.filtered_apps[index].clone()
    }

    /// An application was chosen and launched with `result`; the dialog closes,
    /// showing the error if the launch failed.
    pub fn open_with_finished(&mut self, result: Result<(), String>)
        ensures
            final(self)@ == (PaneView {
                open_with_item: None,
                error_msg: match result {
                    Ok(_) => old(self)@.error_msg,
                    Err(e) => Some("Open failed: "@ + e@),
                },
                ..old(self)@
            }),
    {
        proof {
            use_type_invariant(&*self);
        }
        if let Err(e) = result {
            self.error_msg = Some(concat_str("Open failed: ", e.as_str()));
        }
        self.open_with_item = None;
    }

    /// The open-with dialog was cancelled or closed.
    pub fn cancel_open_with(&mut self)
        ensures
            final(self)@ == (PaneView { open_with_item: None, ..old(self)@ }),
    {
        proof {
            use_type_invariant(&*self);
        }
        self.open_with_item = None;
    }
}

fn prompt(p: &FsPath, prefix: &str, suffix: &str) -> (r: String)
    ensures
        r@ == prompt_text(prefix@, p@, suffix@),
{
    let mut out: Vec<char> = Vec::new();
    append_str(&mut out, prefix);
    out.push('\'');
    let name = name_text(p);
    append_str(&mut out, name.as_str());
    out.push('\'');
    append_str(&mut out, suffix);
    assert(out@ =~= prompt_text(prefix@, p@, suffix@));
    string_of(&out)
}

fn clone_paths(v: &Vec<FsPath>) -> (r: Vec<FsPath>)
    ensures
        path_texts(r@) == path_texts(v@),
{
    let mut r: Vec<FsPath> = Vec::new();
    for i in 0..v.len()
        invariant
            path_texts(r@) == path_texts(v@).take(i as int),
    {
        let ghost before = r@;
        let p = v[i].clone();
        r.push(p);
        proof {
            lemma_map_push(before, p, |q: FsPath| q@);
        }
        assert(path_texts(r@) =~= path_texts(v@).take(i + 1));
    }
    assert(path_texts(v@).take(v.len() as int) =~= path_texts(v@));
    r
}

/// What is pasted or dropped into a directory keeps its file name and lands
/// directly in that directory.
pub proof fn lemma_destination_keeps_name(current: Seq<char>, source: Seq<char>)
    requires
        file_name_of(parse_path(source)) is Some,
    ensures
        ({
            let dest = parse_path(join_text(current, file_name_of(parse_path(source))->0));
            &&& parent_of(dest) == Some(parse_path(current))
            &&& file_name_of(dest) == file_name_of(parse_path(source))
        }),
{
    let name = file_name_of(parse_path(source))->0;
    lemma_parse_well_formed(source);
    lemma_file_name_plain(parse_path(source));
    lemma_join_component(current, name);
    lemma_child_parent(parse_path(current), name);
}

/// A dragged path is dropped onto itself, and so ignored, exactly when it
/// already lies directly in the directory shown.
pub proof fn lemma_drop_onto_itself(current: Seq<char>, source: Seq<char>)
    requires
        file_name_of(parse_path(source)) is Some,
    ensures
        (parse_path(join_text(current, file_name_of(parse_path(source))->0)) == parse_path(source))
            <==> (parent_of(parse_path(source)) == Some(parse_path(current))),
{
    lemma_parse_well_formed(source);
    lemma_file_name_plain(parse_path(source));
    lemma_destination_keeps_name(current, source);
    lemma_parent_child(parse_path(source));
    lemma_join_component(current, file_name_of(parse_path(source))->0);
}

} // verus!
