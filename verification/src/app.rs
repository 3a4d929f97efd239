//! The two-pane window: its panes, the clipboard they share, and where it starts.
use vstd::prelude::*;
use crate::fs::FileItem;
use crate::pane::{initial_pane, listing_ok, listing_view, refreshed, Pane, PaneView};
use crate::path::FsPath;

verus! {

/// What pasting the clipboard will do with its path.
#[derive(Clone, Copy, Debug, PartialEq, Eq, Structural)]
pub enum ClipboardOp {
    Copy,
    Cut,
}

/// A path put on the clipboard by Cut or Copy.
#[derive(Debug, PartialEq, Eq)]
pub struct ClipboardState {
    pub op: ClipboardOp,
    pub path: FsPath,
}

/// What the clipboard holds.
pub struct ClipboardView {
    pub op: ClipboardOp,
    pub path: Seq<char>,
}

impl View for ClipboardState {
    type V = ClipboardView;

    open spec fn view(&self) -> ClipboardView {
        ClipboardView { op: self.op, path: self.path@ }
    }
}

impl Clone for ClipboardState {
    fn clone(&self) -> (r: Self)
        ensures
            r@ == self@,
    {
        ClipboardState { op: self.op, path: self.path.clone() }
    }
}

pub open spec fn clipboard_view(c: Option<ClipboardState>) -> Option<ClipboardView> {
    match c {
        Some(s) => Some(s@),
        None => None,
    }
}

/// A planned paste: the clipboard's operation, its path, and where it goes.
pub struct Transfer {
    pub op: ClipboardOp,
    pub source: FsPath,
    pub dest: FsPath,
}

/// The clipboard after a paste: a cut that moved its path is used up; a copy,
/// or a move that failed, stays to be pasted again.
pub open spec fn settled(clip: Option<ClipboardView>, op: ClipboardOp, succeeded: bool) -> Option<
    ClipboardView,
> {
    if op == ClipboardOp::Cut && succeeded {
        None
    } else {
        clip
    }
}

/// A paste uses up the clipboard only when it was a Cut and it succeeded:
/// after a Copy, successful or not, and after any failed paste, the
/// clipboard is as it was.
pub proof fn lemma_paste_settles_clipboard(clip: Option<ClipboardView>, op: ClipboardOp, succeeded: bool)
    ensures
        op == ClipboardOp::Copy ==> settled(clip, op, succeeded) == clip,
        !succeeded ==> settled(clip, op, succeeded) == clip,
        op == ClipboardOp::Cut && succeeded ==> settled(clip, op, succeeded) is None,
{
}

/// Settles the clipboard once the paste `op` has been tried.
pub fn settle_paste(clipboard: &mut Option<ClipboardState>, op: ClipboardOp, succeeded: bool)
    ensures
        clipboard_view(*final(clipboard)) == settled(clipboard_view(*old(clipboard)), op, succeeded),
{
    if op == ClipboardOp::Cut && succeeded {
        *clipboard = None;
    }
}

/// The window: a left and a right pane over one shared clipboard.
pub struct FileManagerApp {
    left_pane: Pane,
    right_pane: Pane,
    clipboard: Option<ClipboardState>,
}

/// What the window holds.
pub struct AppView {
    pub left_pane: PaneView,
    pub right_pane: PaneView,
    pub clipboard: Option<ClipboardView>,
}

impl View for FileManagerApp {
    type V = AppView;

    closed spec fn view(&self) -> AppView {
        AppView {
            left_pane: self.left_pane@,
            right_pane: self.right_pane@,
            clipboard: clipboard_view(self.clipboard),
        }
    }
}

/// Where both panes start: the home directory, else the current directory,
/// else the empty path.
pub open spec fn start_path_of(home: Option<Seq<char>>, cwd: Option<Seq<char>>) -> Seq<char> {
    match home {
        Some(h) => h,
        None => match cwd {
            Some(c) => c,
            None => Seq::empty(),
        },
    }
}

pub open spec fn opt_path_view(o: Option<FsPath>) -> Option<Seq<char>> {
    match o {
        Some(p) => Some(p@),
        None => None,
    }
}

impl FileManagerApp {
    /// The path the panes start in, from the home directory and the current
    /// directory as far as they could be found.
    pub fn start_path(home: Option<FsPath>, cwd: Option<FsPath>) -> (r: FsPath)
        ensures
            r@ == start_path_of(opt_path_view(home), opt_path_view(cwd)),
    {
        match home {
            Some(h) => h,
            None => match cwd {
                Some(c) => c,
                None => FsPath::empty(),
            },
        }
    }

    /// A window whose panes both show `default_path`, each with a listing
    /// read for it, and an empty clipboard.
    pub fn new(
        default_path: FsPath,
        left_listing: Result<Vec<FileItem>, String>,
        right_listing: Result<Vec<FileItem>, String>,
    ) -> (r: FileManagerApp)
        requires
            listing_ok(default_path@, left_listing),
            listing_ok(default_path@, right_listing),
        ensures
            r@.left_pane == refreshed(initial_pane(default_path@), listing_view(left_listing)),
            r@.right_pane == refreshed(initial_pane(default_path@), listing_view(right_listing)),
            r@.clipboard is None,
    {
        let left_pane = Pane::new("Left Pane", default_path.clone(), left_listing);
        let right_pane = Pane::new("Right Pane", default_path, right_listing);
        FileManagerApp { left_pane, right_pane, clipboard: None }
    }

    /// The left pane, the right pane and the clipboard, to work on together.
    pub fn parts_mut(&mut self) -> (r: (&mut Pane, &mut Pane, &mut Option<ClipboardState>))
        ensures
            r.0@ == old(self)@.left_pane,
            r.1@ == old(self)@.right_pane,
            clipboard_view(*r.2) == old(self)@.clipboard,
            final(self)@ == (AppView {
                left_pane: final(r.0)@,
                right_pane: final(r.1)@,
                clipboard: clipboard_view(*final(r.2)),
            }),
    {
        (&mut self.left_pane, &mut self.right_pane, &mut self.clipboard)
    }

    /// The clipboard.
    pub fn clipboard(&self) -> (r: &Option<ClipboardState>)
        ensures
            clipboard_view(*r) == self@.clipboard,
    {
        &self.clipboard
    }
}

} // verus!
