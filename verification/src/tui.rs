//! The state of the terminal front end: which pane has the focus, how far
//! the diff is scrolled, how the file pane lists the files, which of its
//! directories and sections are open and which row the cursor is on, and how
//! keys change them and the session.
use vstd::prelude::*;

use crate::engine::{FileChange, ReviewAction};
use crate::file_tree::{
    dir_path_set, directory_paths, has_file_row, lemma_expanded_tree_shows_every_file,
    lemma_visible_rows_name_listed_files, line_totals, names_listed_file, parent_dir,
    parent_dir_path, row_views, shows_file, totals_fit, visible_file_rows, visible_rows,
    FileTreeRow, RowView,
};
use crate::session::{PersistRequest, RequestView, ReviewSession, SessionView};
use crate::strset::{distinct_strs, str_set, strs_contain, strs_insert, strs_remove};

verus! {

/// The pane that keys act on.
#[derive(Clone, Copy, Debug, PartialEq, Eq, Structural)]
pub enum FocusPane {
    Files,
    Diff,
    Findings,
}

pub open spec fn next_focus_of(focus: FocusPane) -> FocusPane {
    match focus {
        FocusPane::Files => FocusPane::Diff,
        FocusPane::Diff => FocusPane::Findings,
        FocusPane::Findings => FocusPane::Files,
    }
}

pub open spec fn previous_focus_of(focus: FocusPane) -> FocusPane {
    match focus {
        FocusPane::Files => FocusPane::Findings,
        FocusPane::Diff => FocusPane::Files,
        FocusPane::Findings => FocusPane::Diff,
    }
}

/// The pane after this one: files, diff, findings, and round again.
pub fn next_focus(focus: FocusPane) -> (r: FocusPane)
    ensures
        r == next_focus_of(focus),
{
    match focus {
        FocusPane::Files => FocusPane::Diff,
        FocusPane::Diff => FocusPane::Findings,
        FocusPane::Findings => FocusPane::Files,
    }
}

/// The pane before this one.
pub fn previous_focus(focus: FocusPane) -> (r: FocusPane)
    ensures
        r == previous_focus_of(focus),
{
    match focus {
        FocusPane::Files => FocusPane::Findings,
        FocusPane::Diff => FocusPane::Files,
        FocusPane::Findings => FocusPane::Diff,
    }
}

/// How the file pane lists the files.
#[derive(Clone, Copy, Debug, PartialEq, Eq, Structural)]
pub enum TreeMode {
    /// One tree of all the changed files.
    Full,
    /// The files still to review and the reviewed files, each in a tree
    /// under a heading of its own.
    ByReview,
}

/// The state of the terminal front end.
/// The width the files pane starts with.
pub const FILES_PANE_WIDTH: u16 = 28;

/// The width the review pane starts with.
pub const REVIEW_PANE_WIDTH: u16 = 34;

/// The narrowest the diff pane is made while there is room for it.
pub const MIN_DIFF_WIDTH: u16 = 42;

/// The narrowest a dragged side pane is made.
pub const MIN_SIDE_WIDTH: u16 = 12;

/// A vertical line between two panes that the mouse can drag.
#[derive(Clone, Copy, Debug, PartialEq, Eq, Structural)]
pub enum Separator {
    /// Between the files pane and the diff pane.
    FilesDiff,
    /// Between the diff pane and the review pane.
    DiffReview,
}

/// What the left mouse button does over the panes; a column counts from the
/// left edge of the panes.
#[derive(Clone, Copy, Debug, PartialEq, Eq, Structural)]
pub enum Mouse {
    Press(u16),
    Drag(u16),
    Release,
}

pub open spec fn at_most(a: int, b: int) -> int {
    if a < b {
        a
    } else {
        b
    }
}

/// The widths of the files, diff and review panes across `total` columns:
/// a hidden pane takes none, the side panes take their widths as far as the
/// diff pane keeps its minimum, and the diff pane takes the rest.
pub open spec fn shown_widths(v: TuiView, total: nat) -> (nat, nat, nat) {
    let side: int = if total > MIN_DIFF_WIDTH { total - MIN_DIFF_WIDTH } else { 0 };
    let f: int = if v.files_pane_shown { at_most(v.files_width as int, side) } else { 0 };
    let r: int = if v.review_pane_shown { at_most(v.review_width as int, side - f) } else { 0 };
    (f as nat, (total - f - r) as nat, r as nat)
}

/// The separator drawn at `column`: each one is the border column on either
/// side of it, and a pane that takes no columns has none.
pub open spec fn separator_at(widths: (nat, nat, nat), column: u16) -> Option<Separator> {
    let (f, d, r) = widths;
    if f > 0 && (column + 1 == f || column == f) {
        Some(Separator::FilesDiff)
    } else if r > 0 && (column + 1 == f + d || column == f + d) {
        Some(Separator::DiffReview)
    } else {
        None
    }
}

/// The width a dragged side pane takes when the mouse asks for `want`
/// columns and the diff pane leaves it `room`: as asked, but no more than the
/// room and no less than the side minimum.
pub open spec fn dragged_width(want: int, room: int) -> u16 {
    let w = at_most(want, room);
    if w < MIN_SIDE_WIDTH {
        MIN_SIDE_WIDTH
    } else {
        w as u16
    }
}

/// The state after a mouse event over panes `total` columns wide: a press
/// on a separator takes hold of it, a drag moves the one held so that it
/// follows the mouse, and a release lets go.
pub open spec fn mouse_step(v: TuiView, total: u16, event: Mouse) -> TuiView {
    let (f, d, r) = shown_widths(v, total as nat);
    match event {
        Mouse::Press(column) => TuiView { dragging: separator_at((f, d, r), column), ..v },
        Mouse::Drag(column) => match v.dragging {
            Some(Separator::FilesDiff) => TuiView {
                files_width: dragged_width(column + 1, total - MIN_DIFF_WIDTH - r),
                ..v
            },
            Some(Separator::DiffReview) => TuiView {
                review_width: dragged_width(total - column, total - MIN_DIFF_WIDTH - f),
                ..v
            },
            None => v,
        },
        Mouse::Release => TuiView { dragging: None, ..v },
    }
}

fn dragged_side_width(want: i64, room: i64) -> (w: u16)
    requires
        -0x20000 < want < 0x20000,
        -0x20000 < room < 0x10000,
    ensures
        w == dragged_width(want as int, room as int),
{
    let w: i64 = if want < room { want } else { room };
    if w < MIN_SIDE_WIDTH as i64 {
        MIN_SIDE_WIDTH
    } else {
        w as u16
    }
}

pub struct TuiState {
    focus: FocusPane,
    diff_scroll: u16,
    expanded_dirs: Vec<String>,
    file_cursor: usize,
    files_pane_shown: bool,
    review_pane_shown: bool,
    mode: TreeMode,
    to_review_open: bool,
    reviewed_open: bool,
    files_width: u16,
    review_width: u16,
    dragging: Option<Separator>,
}

pub struct TuiView {
    pub focus: FocusPane,
    pub diff_scroll: u16,
    pub expanded: Set<Seq<char>>,
    pub file_cursor: nat,
    pub files_pane_shown: bool,
    pub review_pane_shown: bool,
    pub mode: TreeMode,
    pub to_review_open: bool,
    pub reviewed_open: bool,
    pub files_width: u16,
    pub review_width: u16,
    pub dragging: Option<Separator>,
}

impl View for TuiState {
    type V = TuiView;

    closed spec fn view(&self) -> TuiView {
        TuiView {
            focus: self.focus,
            diff_scroll: self.diff_scroll,
            expanded: str_set(self.expanded_dirs@),
            file_cursor: self.file_cursor as nat,
            files_pane_shown: self.files_pane_shown,
            review_pane_shown: self.review_pane_shown,
            mode: self.mode,
            to_review_open: self.to_review_open,
            reviewed_open: self.reviewed_open,
            files_width: self.files_width,
            review_width: self.review_width,
            dragging: self.dragging,
        }
    }
}

/// The row is the directory at `path`.
pub open spec fn shows_dir(r: RowView, path: Seq<char>) -> bool {
    match r {
        RowView::Directory { path: p, .. } => p == path,
        _ => false,
    }
}

/// The first row that shows the file `index`, if any.
pub open spec fn file_row_position(rows: Seq<RowView>, index: nat) -> Option<nat>
    decreases rows.len(),
{
    if rows.len() == 0 {
        None
    } else if shows_file(rows[0], index) {
        Some(0)
    } else {
        match file_row_position(rows.drop_first(), index) {
            Some(k) => Some(k + 1),
            None => None,
        }
    }
}

/// The first row from `from` on and before `to` that is the directory at
/// `path`, if any.
pub open spec fn dir_row_between(rows: Seq<RowView>, path: Seq<char>, from: int, to: int) -> Option<nat>
    decreases to - from,
{
    if from < 0 || from >= to || from >= rows.len() {
        None
    } else if shows_dir(rows[from], path) {
        Some(from as nat)
    } else {
        dir_row_between(rows, path, from + 1, to)
    }
}

/// The positions, in order, of those of the first `k` files whose reviewed
/// state is `reviewed`.
pub open spec fn section_indices(s: SessionView, reviewed: bool, k: int) -> Seq<usize>
    decreases k,
{
    if k <= 0 {
        seq![]
    } else {
        let r = section_indices(s, reviewed, k - 1);
        if s.is_reviewed((k - 1) as nat) == reviewed {
            r.push((k - 1) as usize)
        } else {
            r
        }
    }
}

/// The files at the positions `idx`.
pub open spec fn section_files(files: Seq<FileChange>, idx: Seq<usize>) -> Seq<FileChange> {
    idx.map_values(|i: usize| files[i as int])
}

/// A row of a section's tree, its file named by its position among all the
/// files rather than among the section's.
pub open spec fn in_section(r: RowView, idx: Seq<usize>) -> RowView {
    match r {
        RowView::File { index, path, name, depth } => RowView::File {
            index: idx[index as int] as nat,
            path,
            name,
            depth,
        },
        _ => r,
    }
}

/// The heading of the files still to review (or of the reviewed files) and,
/// when it is open, the tree of those files.
pub open spec fn section_rows(s: SessionView, ex: Set<Seq<char>>, reviewed: bool, open: bool) -> Seq<RowView> {
    let idx = section_indices(s, reviewed, s.files.len() as int);
    seq![RowView::Section { reviewed, expanded: open, file_count: idx.len() }] + if open {
        visible_rows(section_files(s.files, idx), ex).map_values(|r: RowView| in_section(r, idx))
    } else {
        seq![]
    }
}

/// The rows of the file pane.
pub open spec fn pane_rows_of(v: TuiView, s: SessionView) -> Seq<RowView> {
    match v.mode {
        TreeMode::Full => visible_rows(s.files, v.expanded),
        TreeMode::ByReview => section_rows(s, v.expanded, false, v.to_review_open) + section_rows(
            s,
            v.expanded,
            true,
            v.reviewed_open,
        ),
    }
}

/// Where the section of the reviewed files starts.
pub open spec fn reviewed_start(v: TuiView, s: SessionView) -> nat {
    section_rows(s, v.expanded, false, v.to_review_open).len()
}

/// The cursor lies among the reviewed files.
pub open spec fn cursor_in_reviewed(v: TuiView, s: SessionView) -> bool {
    v.mode == TreeMode::ByReview && v.file_cursor >= reviewed_start(v, s)
}

pub open spec fn with_section(v: TuiView, reviewed: bool, open: bool) -> TuiView {
    if reviewed {
        TuiView { reviewed_open: open, ..v }
    } else {
        TuiView { to_review_open: open, ..v }
    }
}

/// The row of the directory at `path` in the same part of the pane as the
/// cursor: the whole tree, or the section that the cursor lies in.
pub open spec fn parent_row(w: TuiView, s: SessionView, in_reviewed: bool, path: Seq<char>) -> Option<nat> {
    let rows = pane_rows_of(w, s);
    match w.mode {
        TreeMode::Full => dir_row_between(rows, path, 0, rows.len() as int),
        TreeMode::ByReview => if in_reviewed {
            dir_row_between(rows, path, reviewed_start(w, s) as int, rows.len() as int)
        } else {
            dir_row_between(rows, path, 0, reviewed_start(w, s) as int)
        },
    }
}

/// The diff scroll that keeps the selected diff line in view: with no
/// selected line the diff scrolls back to the top; with no room nothing
/// changes; otherwise the view scrolls just enough to show the line, two
/// lines below the top of the pane's text, and stops at `u16::MAX`.
pub open spec fn scrolled(scroll: u16, height: u16, selected: Option<usize>) -> u16 {
    match selected {
        None => 0,
        Some(sel) => {
            let visible: int = if height >= 1 {
                height - 1
            } else {
                0
            };
            if visible == 0 {
                scroll
            } else {
                let line: int = sel as int + 2;
                let next: int = if line < scroll {
                    line
                } else if line >= scroll + visible {
                    line + 1 - visible
                } else {
                    scroll as int
                };
                if next > 65535 {
                    65535u16
                } else {
                    next as u16
                }
            }
        },
    }
}

/// The selected diff line, when there is one.
pub open spec fn selected_line(s: SessionView) -> Option<usize> {
    if s.selected_diff_line < s.diff_view().len() {
        Some(s.selected_diff_line as usize)
    } else {
        None
    }
}

/// What a key stands for in the terminal front end.
#[derive(Clone, Copy, Debug, PartialEq, Eq, Structural)]
pub enum Key {
    /// `q` or escape.
    Quit,
    /// Tab.
    Tab,
    /// Left arrow or `h`.
    Left,
    /// Right arrow or `l`.
    Right,
    /// Enter or space.
    Activate,
    /// `n` or `]`.
    NextChange,
    /// `p` or `[`.
    PreviousChange,
    /// Down arrow or `j`.
    Down,
    /// Up arrow or `k`.
    Up,
    /// `r`: toggles whether the selected file is reviewed.
    ToggleReviewed,
    /// `f`: hides or shows the files pane.
    ToggleFilesPane,
    /// `R`: hides or shows the review pane.
    ToggleReviewPane,
    /// `1`: lists all the files in one tree.
    FullTree,
    /// `2`: lists the files to review and the reviewed files apart.
    ReviewTree,
    /// `e`: opens the file under the cursor in the editor.
    Edit,
    /// Any other key.
    Other,
}

pub open spec fn step_session(s: SessionView, action: ReviewAction) -> SessionView {
    s.step(action).0
}

/// What handling a key leaves for the front end to do.
pub enum KeyOutcome {
    /// Nothing: draw again and wait for the next key.
    Continue,
    /// Leave the front end.
    Quit,
    /// Store this reviewed-state change, then hand the outcome to
    /// `ReviewSession::finish_persist`.
    Store(PersistRequest),
    /// Open the file at this path, relative to the repository, in the
    /// editor.
    Edit(String),
}

pub enum OutcomeView {
    Continue,
    Quit,
    Store(RequestView),
    Edit(Seq<char>),
}

pub open spec fn outcome_view(o: KeyOutcome) -> OutcomeView {
    match o {
        KeyOutcome::Continue => OutcomeView::Continue,
        KeyOutcome::Quit => OutcomeView::Quit,
        KeyOutcome::Store(r) => OutcomeView::Store(r@),
        KeyOutcome::Edit(p) => OutcomeView::Edit(p@),
    }
}

/// `e` on the file pane: the path of the file under the cursor, when the
/// cursor is on a file row.
pub open spec fn edit_of(v: TuiView, s: SessionView) -> OutcomeView {
    let rows = pane_rows_of(v, s);
    if v.file_cursor < rows.len() {
        match rows[v.file_cursor as int] {
            RowView::File { path, .. } => OutcomeView::Edit(path),
            _ => OutcomeView::Continue,
        }
    } else {
        OutcomeView::Continue
    }
}

/// `1` or `2`: the pane lists the files in the given way, the cursor kept
/// on a row.
pub open spec fn with_mode(v: TuiView, s: SessionView, mode: TreeMode) -> TuiView {
    let w = TuiView { mode, ..v };
    with_cursor(w, clamped(v.file_cursor, pane_rows_of(w, s).len()))
}

/// What a key does: the state, the session, and what is left for the front
/// end to do.
pub open spec fn key_step(v: TuiView, s: SessionView, key: Key) -> (TuiView, SessionView, OutcomeView) {
    let go = OutcomeView::Continue;
    match key {
        Key::Quit => (v, s, OutcomeView::Quit),
        Key::Tab => (TuiView { focus: next_focus_of(v.focus), ..v }, s, go),
        Key::Left => if v.focus == FocusPane::Files {
            (collapse_of(v, s), s, go)
        } else {
            (TuiView { focus: previous_focus_of(v.focus), ..v }, s, go)
        },
        Key::Right => if v.focus == FocusPane::Files {
            (expand_of(v, s).0, expand_of(v, s).1, go)
        } else {
            (TuiView { focus: next_focus_of(v.focus), ..v }, s, go)
        },
        Key::Activate => if v.focus == FocusPane::Files {
            (toggle_of(v, s).0, toggle_of(v, s).1, go)
        } else {
            (v, s, go)
        },
        Key::NextChange => (
            TuiView { focus: FocusPane::Diff, ..v },
            step_session(s, ReviewAction::NextDiffChange),
            go,
        ),
        Key::PreviousChange => (
            TuiView { focus: FocusPane::Diff, ..v },
            step_session(s, ReviewAction::PreviousDiffChange),
            go,
        ),
        Key::Down => match v.focus {
            FocusPane::Files => (move_of(v, s, 1).0, move_of(v, s, 1).1, go),
            FocusPane::Diff => (v, step_session(s, ReviewAction::NextDiffChange), go),
            FocusPane::Findings => (v, step_session(s, ReviewAction::NextFinding), go),
        },
        Key::Up => match v.focus {
            FocusPane::Files => (move_of(v, s, -1).0, move_of(v, s, -1).1, go),
            FocusPane::Diff => (v, step_session(s, ReviewAction::PreviousDiffChange), go),
            FocusPane::Findings => (v, step_session(s, ReviewAction::PreviousFinding), go),
        },
        Key::ToggleReviewed => {
            let (next, request) = s.step(ReviewAction::ToggleSelectedFileReviewed);
            (
                v,
                next,
                match request {
                    Some(r) => OutcomeView::Store(r),
                    None => go,
                },
            )
        },
        Key::ToggleFilesPane => (TuiView { files_pane_shown: !v.files_pane_shown, ..v }, s, go),
        Key::ToggleReviewPane => (TuiView { review_pane_shown: !v.review_pane_shown, ..v }, s, go),
        Key::FullTree => (with_mode(v, s, TreeMode::Full), s, go),
        Key::ReviewTree => (with_mode(v, s, TreeMode::ByReview), s, go),
        Key::Edit => (v, s, edit_of(v, s)),
        Key::Other => (v, s, go),
    }
}

/// A cursor kept on one of `count` rows.
pub open spec fn clamped(cursor: nat, count: nat) -> nat {
    if count == 0 {
        0
    } else if cursor >= count {
        (count - 1) as nat
    } else {
        cursor
    }
}

/// The cursor moved by `delta` rows and kept on one of `count` rows.
pub open spec fn moved(cursor: nat, count: nat, delta: int) -> nat {
    if count == 0 {
        0
    } else {
        let from = if cursor < count - 1 {
            cursor as int
        } else {
            count - 1
        };
        let to = from + delta;
        if to < 0 {
            0
        } else if to > count - 1 {
            (count - 1) as nat
        } else {
            to as nat
        }
    }
}

/// Choosing a row selects its file; other rows change nothing.
pub open spec fn select_row(s: SessionView, r: RowView) -> SessionView {
    match r {
        RowView::File { index, .. } => s.select_file(index),
        _ => s,
    }
}

pub open spec fn with_cursor(v: TuiView, cursor: nat) -> TuiView {
    TuiView { file_cursor: cursor, ..v }
}

pub open spec fn with_expanded(v: TuiView, expanded: Set<Seq<char>>) -> TuiView {
    TuiView { expanded, ..v }
}

/// Collapsing the directory a path lies in moves the cursor to that
/// directory's row; a path right at the top of a section closes the section
/// and moves the cursor to its heading.
pub open spec fn collapse_parent_of(v: TuiView, s: SessionView, path: Seq<char>) -> TuiView {
    let in_reviewed = cursor_in_reviewed(v, s);
    match parent_dir(path) {
        None => match v.mode {
            TreeMode::Full => v,
            TreeMode::ByReview => {
                let w = with_section(v, in_reviewed, false);
                with_cursor(
                    w,
                    if in_reviewed {
                        reviewed_start(w, s)
                    } else {
                        0
                    },
                )
            },
        },
        Some(parent) => {
            let w = with_expanded(v, v.expanded.remove(parent));
            match parent_row(w, s, in_reviewed, parent) {
                Some(k) => with_cursor(w, k),
                None => w,
            }
        },
    }
}

/// Enter or space on the file pane: a directory or section row is expanded
/// or collapsed (the cursor kept on a row), a file row selects its file.
pub open spec fn toggle_of(v: TuiView, s: SessionView) -> (TuiView, SessionView) {
    let rows = pane_rows_of(v, s);
    if v.file_cursor >= rows.len() {
        (v, s)
    } else {
        match rows[v.file_cursor as int] {
            RowView::Directory { path, expanded, .. } => {
                let w = with_expanded(
                    v,
                    if expanded {
                        v.expanded.remove(path)
                    } else {
                        v.expanded.insert(path)
                    },
                );
                (with_cursor(w, clamped(v.file_cursor, pane_rows_of(w, s).len())), s)
            },
            RowView::File { index, .. } => (v, s.select_file(index)),
            RowView::Section { reviewed, expanded, .. } => {
                let w = with_section(v, reviewed, !expanded);
                (with_cursor(w, clamped(v.file_cursor, pane_rows_of(w, s).len())), s)
            },
        }
    }
}

/// Right on the file pane: a directory or section row is expanded, a file
/// row selects its file.
pub open spec fn expand_of(v: TuiView, s: SessionView) -> (TuiView, SessionView) {
    let rows = pane_rows_of(v, s);
    if v.file_cursor >= rows.len() {
        (v, s)
    } else {
        match rows[v.file_cursor as int] {
            RowView::Directory { path, .. } => (with_expanded(v, v.expanded.insert(path)), s),
            RowView::File { index, .. } => (v, s.select_file(index)),
            RowView::Section { reviewed, .. } => (with_section(v, reviewed, true), s),
        }
    }
}

/// Left on the file pane: an expanded directory or section row is
/// collapsed, otherwise the directory (or section) the row lies in is
/// collapsed and the cursor moves to it; then the cursor is kept on a row.
pub open spec fn collapse_of(v: TuiView, s: SessionView) -> TuiView {
    let rows = pane_rows_of(v, s);
    if v.file_cursor >= rows.len() {
        v
    } else {
        let w = match rows[v.file_cursor as int] {
            RowView::Directory { path, expanded, .. } => if expanded {
                with_expanded(v, v.expanded.remove(path))
            } else {
                collapse_parent_of(v, s, path)
            },
            RowView::File { path, .. } => collapse_parent_of(v, s, path),
            RowView::Section { reviewed, expanded, .. } => if expanded {
                with_section(v, reviewed, false)
            } else {
                v
            },
        };
        with_cursor(w, clamped(w.file_cursor, pane_rows_of(w, s).len()))
    }
}

/// Up or down on the file pane: the cursor moves and a file row under it
/// selects its file.
pub open spec fn move_of(v: TuiView, s: SessionView, delta: int) -> (TuiView, SessionView) {
    let rows = pane_rows_of(v, s);
    if rows.len() == 0 {
        (with_cursor(v, 0), s)
    } else {
        let c = moved(v.file_cursor, rows.len(), delta);
        (with_cursor(v, c), select_row(s, rows[c as int]))
    }
}

fn find_file_row(rows: &Vec<FileTreeRow>, index: usize) -> (r: Option<usize>)
    ensures
        match r {
            Some(k) => file_row_position(row_views(rows@), index as nat) == Some(k as nat),
            None => file_row_position(row_views(rows@), index as nat) is None,
        },
{
    let ghost all = row_views(rows@);
    let mut k: usize = 0;
    assert(all.skip(0) =~= all);
    while k < rows.len()
        invariant
            k <= rows@.len(),
            all == row_views(rows@),
            file_row_position(all, index as nat) == match file_row_position(all.skip(k as int), index as nat) {
                Some(j) => Some((j + k) as nat),
                None => None::<nat>,
            },
        decreases rows@.len() - k,
    {
        assert(all.skip(k as int)[0] == rows@[k as int]@);
        assert(all.skip(k as int).drop_first() =~= all.skip(k + 1));
        match &rows[k] {
            FileTreeRow::File { index: i, .. } => {
                if *i == index {
                    return Some(k);
                }
            },
            _ => {},
        }
        k = k + 1;
    }
    None
}

proof fn lemma_line_totals_push(files: Seq<FileChange>, f: FileChange, k: int)
    requires
        0 <= k <= files.len(),
    ensures
        line_totals(files.push(f), k) == line_totals(files, k),
    decreases k,
{
    if k > 0 {
        lemma_line_totals_push(files, f, k - 1);
        assert(files.push(f)[k - 1] == files[k - 1]);
    }
}

/// The line counts of a section's files add up to no more than those of
/// all the files.
proof fn lemma_section_totals(s: SessionView, reviewed: bool, k: int)
    requires
        0 <= k <= s.files.len(),
        s.files.len() <= usize::MAX,
    ensures
        ({
            let sub = section_files(s.files, section_indices(s, reviewed, k));
            &&& sub.len() == section_indices(s, reviewed, k).len()
            &&& line_totals(sub, sub.len() as int).0 <= line_totals(s.files, k).0
            &&& line_totals(sub, sub.len() as int).1 <= line_totals(s.files, k).1
        }),
    decreases k,
{
    if k > 0 {
        lemma_section_totals(s, reviewed, k - 1);
        let prev = section_indices(s, reviewed, k - 1);
        let sub = section_files(s.files, prev);
        if s.is_reviewed((k - 1) as nat) == reviewed {
            let f = s.files[k - 1];
            assert(section_files(s.files, prev.push((k - 1) as usize)) =~= sub.push(f));
            lemma_line_totals_push(sub, f, sub.len() as int);
        }
    }
}

/// A copy of a changed file.
fn copy_change(f: &FileChange) -> (r: FileChange)
    ensures
        r == *f,
{
    FileChange {
        path: f.path.clone(),
        status: f.status.clone(),
        additions: f.additions,
        deletions: f.deletions,
    }
}

/// Appends the heading of the files still to review (or of the reviewed
/// files) and, when the section is open, the tree of those files.
fn push_section(
    session: &ReviewSession,
    expanded: &Vec<String>,
    reviewed: bool,
    open: bool,
    rows: &mut Vec<FileTreeRow>,
)
    requires
        totals_fit(session@.files),
    ensures
        row_views(final(rows)@) == row_views(old(rows)@) + section_rows(
            session@,
            str_set(expanded@),
            reviewed,
            open,
        ),
{
    let files = session.files();
    let ghost s = session@;
    let mut idx: Vec<usize> = Vec::new();
    let mut sub: Vec<FileChange> = Vec::new();
    let mut i: usize = 0;
    while i < files.len()
        invariant
            i <= files@.len(),
            files@ == s.files,
            s == session@,
            idx@ == section_indices(s, reviewed, i as int),
            sub@ == section_files(s.files, idx@),
        decreases files@.len() - i,
    {
        if session.is_file_reviewed(i) == reviewed {
            idx.push(i);
            sub.push(copy_change(&files[i]));
            assert(sub@ =~= section_files(s.files, idx@));
        }
        i = i + 1;
    }
    let ghost ex = str_set(expanded@);
    let ghost before = row_views(rows@);
    let ghost heading = RowView::Section { reviewed, expanded: open, file_count: idx@.len() };
    rows.push(FileTreeRow::Section { reviewed, expanded: open, file_count: idx.len() });
    assert(row_views(rows@) =~= before + seq![heading]);
    if open {
        proof {
            lemma_section_totals(s, reviewed, s.files.len() as int);
        }
        let inner = visible_file_rows(sub.as_slice(), expanded);
        let ghost tree = visible_rows(sub@, ex);
        proof {
            lemma_visible_rows_name_listed_files(sub@, ex);
        }
        let mut k: usize = 0;
        while k < inner.len()
            invariant
                k <= inner@.len(),
                row_views(inner@) == tree,
                tree == visible_rows(sub@, ex),
                sub@.len() == idx@.len(),
                forall|q: int| 0 <= q < tree.len() ==> names_listed_file(#[trigger] tree[q], sub@.len()),
                row_views(rows@) == before + seq![heading] + tree.take(k as int).map_values(
                    |r: RowView| in_section(r, idx@),
                ),
            decreases inner@.len() - k,
        {
            assert(tree[k as int] == inner@[k as int]@);
            let row = match &inner[k] {
                FileTreeRow::File { index, path, name, depth } => {
                    assert(names_listed_file(tree[k as int], sub@.len()));
                    FileTreeRow::File { index: idx[*index], path: path.clone(), name: name.clone(), depth: *depth }
                },
                FileTreeRow::Directory { path, name, depth, expanded, file_count, additions, deletions } => {
                    FileTreeRow::Directory {
                        path: path.clone(),
                        name: name.clone(),
                        depth: *depth,
                        expanded: *expanded,
                        file_count: *file_count,
                        additions: *additions,
                        deletions: *deletions,
                    }
                },
                FileTreeRow::Section { reviewed, expanded, file_count } => FileTreeRow::Section {
                    reviewed: *reviewed,
                    expanded: *expanded,
                    file_count: *file_count,
                },
            };
            assert(row@ == in_section(tree[k as int], idx@));
            let ghost prev = row_views(rows@);
            rows.push(row);
            assert(row_views(rows@) =~= prev.push(row@));
            assert(tree.take(k + 1).map_values(|r: RowView| in_section(r, idx@)) =~= tree.take(
                k as int,
            ).map_values(|r: RowView| in_section(r, idx@)).push(in_section(tree[k as int], idx@)));
            k = k + 1;
        }
        assert(tree.take(k as int) =~= tree);
    }
    assert(section_rows(s, ex, reviewed, open) =~= seq![heading] + if open {
        visible_rows(sub@, ex).map_values(|r: RowView| in_section(r, idx@))
    } else {
        seq![]
    });
}

/// The first row from `from` on and before `to` that is the directory at
/// `path`.
fn find_dir_row_between(rows: &Vec<FileTreeRow>, path: &String, from: usize, to: usize) -> (r: Option<usize>)
    ensures
        match r {
            Some(k) => dir_row_between(row_views(rows@), path@, from as int, to as int) == Some(k as nat),
            None => dir_row_between(row_views(rows@), path@, from as int, to as int) is None,
        },
{
    let ghost all = row_views(rows@);
    let mut k: usize = from;
    while k < to && k < rows.len()
        invariant
            from <= k,
            all == row_views(rows@),
            dir_row_between(all, path@, from as int, to as int) == dir_row_between(all, path@, k as int, to as int),
        decreases to - k,
    {
        assert(all[k as int] == rows@[k as int]@);
        match &rows[k] {
            FileTreeRow::Directory { path: p, .. } => {
                if *p == *path {
                    return Some(k);
                }
            },
            _ => {},
        }
        k = k + 1;
    }
    None
}

impl TuiState {
    #[verifier::type_invariant]
    spec fn inv(self) -> bool {
        distinct_strs(self.expanded_dirs@)
    }

    /// The state when the front end starts: the file pane has the focus and
    /// lists all the files in one tree, every directory is expanded and the
    /// cursor is on the selected file.
    pub fn new(session: &ReviewSession) -> (s: Self)
        requires
            totals_fit(session@.files),
        ensures
            s@ == (TuiView {
                focus: FocusPane::Files,
                diff_scroll: 0,
                expanded: dir_path_set(session@.files),
                file_cursor: match file_row_position(
                    visible_rows(session@.files, dir_path_set(session@.files)),
                    session@.selected_file,
                ) {
                    Some(k) => k,
                    None => 0,
                },
                files_pane_shown: true,
                review_pane_shown: true,
                mode: TreeMode::Full,
                to_review_open: true,
                reviewed_open: true,
                files_width: FILES_PANE_WIDTH,
                review_width: REVIEW_PANE_WIDTH,
                dragging: None,
            }),
    {
        let expanded_dirs = directory_paths(session.files());
        let rows = visible_file_rows(session.files(), &expanded_dirs);
        let file_cursor = match find_file_row(&rows, session.selected_file_index()) {
            Some(k) => k,
            None => 0,
        };
        TuiState {
            focus: FocusPane::Files,
            diff_scroll: 0,
            expanded_dirs,
            file_cursor,
            files_pane_shown: true,
            review_pane_shown: true,
            mode: TreeMode::Full,
            to_review_open: true,
            reviewed_open: true,
            files_width: FILES_PANE_WIDTH,
            review_width: REVIEW_PANE_WIDTH,
            dragging: None,
        }
    }

    /// Whether the files pane is shown.
    pub fn files_pane_shown(&self) -> (r: bool)
        ensures
            r == self@.files_pane_shown,
    {
        self.files_pane_shown
    }

    /// Whether the review pane is shown.
    pub fn review_pane_shown(&self) -> (r: bool)
        ensures
            r == self@.review_pane_shown,
    {
        self.review_pane_shown
    }

    /// How the file pane lists the files.
    pub fn mode(&self) -> (r: TreeMode)
        ensures
            r == self@.mode,
    {
        self.mode
    }

    pub fn focus(&self) -> (r: FocusPane)
        ensures
            r == self@.focus,
    {
        self.focus
    }

    pub fn diff_scroll(&self) -> (r: u16)
        ensures
            r == self@.diff_scroll,
    {
        self.diff_scroll
    }

    pub fn file_cursor(&self) -> (r: usize)
        ensures
            r == self@.file_cursor,
    {
        self.file_cursor
    }

    /// The width the files pane asks for.
    pub fn files_width(&self) -> (r: u16)
        ensures
            r == self@.files_width,
    {
        self.files_width
    }

    /// The width the review pane asks for.
    pub fn review_width(&self) -> (r: u16)
        ensures
            r == self@.review_width,
    {
        self.review_width
    }

    /// The separator the mouse holds, if any.
    pub fn dragging(&self) -> (r: Option<Separator>)
        ensures
            r == self@.dragging,
    {
        self.dragging
    }

    /// The widths of the files, diff and review panes across `total` columns.
    pub fn pane_widths(&self, total: u16) -> (r: (u16, u16, u16))
        ensures
            (r.0 as nat, r.1 as nat, r.2 as nat) == shown_widths(self@, total as nat),
    {
        let side: u16 = if total > MIN_DIFF_WIDTH { total - MIN_DIFF_WIDTH } else { 0 };
        let f: u16 = if !self.files_pane_shown {
            0
        } else if self.files_width < side {
            self.files_width
        } else {
            side
        };
        let r: u16 = if !self.review_pane_shown {
            0
        } else if self.review_width < side - f {
            self.review_width
        } else {
            side - f
        };
        (f, total - f - r, r)
    }

    /// Takes a mouse event over panes `total` columns wide.
    pub fn handle_mouse(&mut self, event: Mouse, total: u16)
        ensures
            final(self)@ == mouse_step(old(self)@, total, event),
    {
        proof {
            use_type_invariant(&*self);
        }
        let (f, d, r) = self.pane_widths(total);
        match event {
            Mouse::Press(column) => {
                let c: u32 = column as u32;
                let left: u32 = f as u32;
                let right: u32 = f as u32 + d as u32;
                self.dragging = if f > 0 && (c + 1 == left || c == left) {
                    Some(Separator::FilesDiff)
                } else if r > 0 && (c + 1 == right || c == right) {
                    Some(Separator::DiffReview)
                } else {
                    None
                };
            },
            Mouse::Drag(column) => match self.dragging {
                Some(Separator::FilesDiff) => {
                    let room: i64 = total as i64 - MIN_DIFF_WIDTH as i64 - r as i64;
                    self.files_width = dragged_side_width(column as i64 + 1, room);
                },
                Some(Separator::DiffReview) => {
                    let room: i64 = total as i64 - MIN_DIFF_WIDTH as i64 - f as i64;
                    self.review_width = dragged_side_width(total as i64 - column as i64, room);
                },
                None => {},
            },
            Mouse::Release => {
                self.dragging = None;
            },
        }
    }

    /// The paths of the expanded directories.
    pub fn expanded_dirs(&self) -> (r: &Vec<String>)
        ensures
            str_set(r@) == self@.expanded,
    {
        &self.expanded_dirs
    }

    /// The rows of the file pane.
    pub fn pane_rows(&self, session: &ReviewSession) -> (r: Vec<FileTreeRow>)
        requires
            totals_fit(session@.files),
        ensures
            row_views(r@) == pane_rows_of(self@, session@),
    {
        match self.mode {
            TreeMode::Full => visible_file_rows(session.files(), &self.expanded_dirs),
            TreeMode::ByReview => {
                let mut rows: Vec<FileTreeRow> = Vec::new();
                assert(row_views(rows@) =~= seq![]);
                push_section(session, &self.expanded_dirs, false, self.to_review_open, &mut rows);
                push_section(session, &self.expanded_dirs, true, self.reviewed_open, &mut rows);
                rows
            },
        }
    }

    /// Where the section of the reviewed files starts.
    fn reviewed_start(&self, session: &ReviewSession) -> (r: usize)
        requires
            totals_fit(session@.files),
        ensures
            r == reviewed_start(self@, session@),
    {
        let mut rows: Vec<FileTreeRow> = Vec::new();
        assert(row_views(rows@) =~= seq![]);
        push_section(session, &self.expanded_dirs, false, self.to_review_open, &mut rows);
        rows.len()
    }

    /// Keeps the cursor on one of `row_count` rows.
    pub fn clamp_file_cursor(&mut self, row_count: usize)
        ensures
            final(self)@ == with_cursor(old(self)@, clamped(old(self)@.file_cursor, row_count as nat)),
    {
        proof {
            use_type_invariant(&*self);
        }
        if row_count == 0 {
            self.file_cursor = 0;
        } else if self.file_cursor >= row_count {
            self.file_cursor = row_count - 1;
        }
    }

    fn expand_dir(&mut self, path: &String)
        ensures
            final(self)@ == with_expanded(old(self)@, old(self)@.expanded.insert(path@)),
    {
        proof {
            use_type_invariant(&*self);
        }
        let mut dirs: Vec<String> = Vec::new();
        core::mem::swap(&mut dirs, &mut self.expanded_dirs);
        strs_insert(&mut dirs, path.clone());
        self.expanded_dirs = dirs;
    }

    fn collapse_dir(&mut self, path: &String)
        ensures
            final(self)@ == with_expanded(old(self)@, old(self)@.expanded.remove(path@)),
    {
        proof {
            use_type_invariant(&*self);
        }
        let mut dirs: Vec<String> = Vec::new();
        core::mem::swap(&mut dirs, &mut self.expanded_dirs);
        strs_remove(&mut dirs, path);
        self.expanded_dirs = dirs;
    }

    fn set_section(&mut self, reviewed: bool, open: bool)
        ensures
            final(self)@ == with_section(old(self)@, reviewed, open),
    {
        proof {
            use_type_invariant(&*self);
        }
        if reviewed {
            self.reviewed_open = open;
        } else {
            self.to_review_open = open;
        }
    }

    fn set_cursor(&mut self, cursor: usize)
        ensures
            final(self)@ == with_cursor(old(self)@, cursor as nat),
    {
        proof {
            use_type_invariant(&*self);
        }
        self.file_cursor = cursor;
    }

    fn set_focus(&mut self, focus: FocusPane)
        ensures
            final(self)@ == (TuiView { focus, ..old(self)@ }),
    {
        proof {
            use_type_invariant(&*self);
        }
        self.focus = focus;
    }

    /// Lists the files in the given way, the cursor kept on a row.
    pub fn set_mode(&mut self, session: &ReviewSession, mode: TreeMode)
        requires
            totals_fit(session@.files),
        ensures
            final(self)@ == with_mode(old(self)@, session@, mode),
    {
        proof {
            use_type_invariant(&*self);
        }
        self.mode = mode;
        let count = self.pane_rows(session).len();
        self.clamp_file_cursor(count);
    }

    /// Moves the cursor by `delta` rows and selects the file under it.
    pub fn move_file_cursor(&mut self, session: &mut ReviewSession, delta: isize)
        requires
            totals_fit(old(session)@.files),
        ensures
            (final(self)@, final(session)@) == move_of(old(self)@, old(session)@, delta as int),
    {
        let rows = self.pane_rows(session);
        if rows.len() == 0 {
            self.set_cursor(0);
            return;
        }
        let max_index = rows.len() - 1;
        let from: usize = if self.file_cursor < max_index {
            self.file_cursor
        } else {
            max_index
        };
        let to: i128 = from as i128 + delta as i128;
        let next: usize = if to < 0 {
            0
        } else if to > max_index as i128 {
            max_index
        } else {
            to as usize
        };
        self.set_cursor(next);
        match &rows[next] {
            FileTreeRow::File { index, .. } => {
                session.apply(ReviewAction::SelectFile(*index));
            },
            _ => {},
        }
    }

    fn collapse_parent_directory(&mut self, session: &ReviewSession, path: &String)
        requires
            totals_fit(session@.files),
        ensures
            final(self)@ == collapse_parent_of(old(self)@, session@, path@),
    {
        let start = self.reviewed_start(session);
        let in_reviewed = self.mode == TreeMode::ByReview && self.file_cursor >= start;
        match parent_dir_path(path.as_str()) {
            None => {
                if self.mode == TreeMode::ByReview {
                    self.set_section(in_reviewed, false);
                    if in_reviewed {
                        let begin = self.reviewed_start(session);
                        self.set_cursor(begin);
                    } else {
                        self.set_cursor(0);
                    }
                }
            },
            Some(parent) => {
                self.collapse_dir(&parent);
                let rows = self.pane_rows(session);
                let found = if self.mode == TreeMode::Full {
                    find_dir_row_between(&rows, &parent, 0, rows.len())
                } else {
                    let split = self.reviewed_start(session);
                    if in_reviewed {
                        find_dir_row_between(&rows, &parent, split, rows.len())
                    } else {
                        find_dir_row_between(&rows, &parent, 0, split)
                    }
                };
                match found {
                    Some(k) => self.set_cursor(k),
                    None => {},
                }
            },
        }
    }

    /// Enter or space on the file pane: expands or collapses the directory
    /// or section under the cursor, or selects the file under it.
    pub fn toggle_file_tree_row(&mut self, session: &mut ReviewSession)
        requires
            totals_fit(old(session)@.files),
        ensures
            (final(self)@, final(session)@) == toggle_of(old(self)@, old(session)@),
    {
        let rows = self.pane_rows(session);
        if self.file_cursor >= rows.len() {
            return;
        }
        match &rows[self.file_cursor] {
            FileTreeRow::Directory { path, expanded, .. } => {
                if *expanded {
                    self.collapse_dir(path);
                } else {
                    self.expand_dir(path);
                }
                let count = self.pane_rows(session).len();
                self.clamp_file_cursor(count);
            },
            FileTreeRow::File { index, .. } => {
                session.apply(ReviewAction::SelectFile(*index));
            },
            FileTreeRow::Section { reviewed, expanded, .. } => {
                self.set_section(*reviewed, !*expanded);
                let count = self.pane_rows(session).len();
                self.clamp_file_cursor(count);
            },
        }
    }

    /// Right on the file pane: expands the directory or section under the
    /// cursor, or selects the file under it.
    pub fn expand_file_tree_row(&mut self, session: &mut ReviewSession)
        requires
            totals_fit(old(session)@.files),
        ensures
            (final(self)@, final(session)@) == expand_of(old(self)@, old(session)@),
    {
        let rows = self.pane_rows(session);
        if self.file_cursor >= rows.len() {
            return;
        }
        match &rows[self.file_cursor] {
            FileTreeRow::Directory { path, .. } => {
                self.expand_dir(path);
            },
            FileTreeRow::File { index, .. } => {
                session.apply(ReviewAction::SelectFile(*index));
            },
            FileTreeRow::Section { reviewed, .. } => {
                self.set_section(*reviewed, true);
            },
        }
    }

    /// Left on the file pane: collapses the directory or section under the
    /// cursor, or the one it lies in.
    pub fn collapse_file_tree_row(&mut self, session: &ReviewSession)
        requires
            totals_fit(session@.files),
        ensures
            final(self)@ == collapse_of(old(self)@, session@),
    {
        let rows = self.pane_rows(session);
        if self.file_cursor >= rows.len() {
            return;
        }
        match &rows[self.file_cursor] {
            FileTreeRow::Directory { path, expanded, .. } => {
                if *expanded {
                    self.collapse_dir(path);
                } else {
                    self.collapse_parent_directory(session, path);
                }
            },
            FileTreeRow::File { path, .. } => {
                self.collapse_parent_directory(session, path);
            },
            FileTreeRow::Section { reviewed, expanded, .. } => {
                if *expanded {
                    self.set_section(*reviewed, false);
                }
            },
        }
        let count = self.pane_rows(session).len();
        self.clamp_file_cursor(count);
    }

    /// Scrolls the diff so that the selected diff line shows in a pane of
    /// `height` rows (one of them its title).
    pub fn ensure_selected_diff_visible(&mut self, height: u16, session: &ReviewSession)
        ensures
            final(self)@ == (TuiView {
                diff_scroll: scrolled(old(self)@.diff_scroll, height, selected_line(session@)),
                ..old(self)@
            }),
    {
        proof {
            use_type_invariant(&*self);
        }
        let selected = match session.selected_diff_line_index() {
            Some(i) => i,
            None => {
                self.diff_scroll = 0;
                return;
            },
        };
        let visible: u128 = if height >= 1 {
            (height - 1) as u128
        } else {
            0
        };
        if visible == 0 {
            return;
        }
        let line: u128 = selected as u128 + 2;
        let current: u128 = self.diff_scroll as u128;
        let next: u128 = if line < current {
            line
        } else if line >= current + visible {
            line + 1 - visible
        } else {
            current
        };
        self.diff_scroll = if next > 65535 {
            65535u16
        } else {
            next as u16
        };
    }

    /// The path of the file under the cursor, when the cursor is on a file
    /// row.
    fn file_under_cursor(&self, session: &ReviewSession) -> (r: KeyOutcome)
        requires
            totals_fit(session@.files),
        ensures
            outcome_view(r) == edit_of(self@, session@),
    {
        let rows = self.pane_rows(session);
        if self.file_cursor < rows.len() {
            match &rows[self.file_cursor] {
                FileTreeRow::File { path, .. } => KeyOutcome::Edit(path.clone()),
                _ => KeyOutcome::Continue,
            }
        } else {
            KeyOutcome::Continue
        }
    }

    /// Handles a key: moves the focus, the file tree cursor or the session's
    /// selection, shows or hides a pane, changes how the file pane lists the
    /// files, and says what is left to do.
    pub fn handle_key(&mut self, session: &mut ReviewSession, key: Key) -> (r: KeyOutcome)
        requires
            totals_fit(old(session)@.files),
        ensures
            (final(self)@, final(session)@, outcome_view(r)) == key_step(old(self)@, old(session)@, key),
    {
        match key {
            Key::Quit => KeyOutcome::Quit,
            Key::Tab => {
                let f = next_focus(self.focus);
                self.set_focus(f);
                KeyOutcome::Continue
            },
            Key::Left => {
                if self.focus == FocusPane::Files {
                    self.collapse_file_tree_row(session);
                } else {
                    let f = previous_focus(self.focus);
                    self.set_focus(f);
                }
                KeyOutcome::Continue
            },
            Key::Right => {
                if self.focus == FocusPane::Files {
                    self.expand_file_tree_row(session);
                } else {
                    let f = next_focus(self.focus);
                    self.set_focus(f);
                }
                KeyOutcome::Continue
            },
            Key::Activate => {
                if self.focus == FocusPane::Files {
                    self.toggle_file_tree_row(session);
                }
                KeyOutcome::Continue
            },
            Key::NextChange => {
                session.apply(ReviewAction::NextDiffChange);
                self.set_focus(FocusPane::Diff);
                KeyOutcome::Continue
            },
            Key::PreviousChange => {
                session.apply(ReviewAction::PreviousDiffChange);
                self.set_focus(FocusPane::Diff);
                KeyOutcome::Continue
            },
            Key::Down => {
                match self.focus {
                    FocusPane::Files => self.move_file_cursor(session, 1),
                    FocusPane::Diff => {
                        session.apply(ReviewAction::NextDiffChange);
                    },
                    FocusPane::Findings => {
                        session.apply(ReviewAction::NextFinding);
                    },
                }
                KeyOutcome::Continue
            },
            Key::Up => {
                match self.focus {
                    FocusPane::Files => self.move_file_cursor(session, -1),
                    FocusPane::Diff => {
                        session.apply(ReviewAction::PreviousDiffChange);
                    },
                    FocusPane::Findings => {
                        session.apply(ReviewAction::PreviousFinding);
                    },
                }
                KeyOutcome::Continue
            },
            Key::ToggleReviewed => match session.apply(ReviewAction::ToggleSelectedFileReviewed) {
                Some(request) => KeyOutcome::Store(request),
                None => KeyOutcome::Continue,
            },
            Key::ToggleFilesPane => {
                proof {
                    use_type_invariant(&*self);
                }
                self.files_pane_shown = !self.files_pane_shown;
                KeyOutcome::Continue
            },
            Key::ToggleReviewPane => {
                proof {
                    use_type_invariant(&*self);
                }
                self.review_pane_shown = !self.review_pane_shown;
                KeyOutcome::Continue
            },
            Key::FullTree => {
                self.set_mode(session, TreeMode::Full);
                KeyOutcome::Continue
            },
            Key::ReviewTree => {
                self.set_mode(session, TreeMode::ByReview);
                KeyOutcome::Continue
            },
            Key::Edit => self.file_under_cursor(session),
            Key::Other => KeyOutcome::Continue,
        }
    }
}

proof fn lemma_file_row_position(rows: Seq<RowView>, index: nat)
    ensures
        has_file_row(rows, index) ==> file_row_position(rows, index) is Some,
        file_row_position(rows, index) matches Some(k) ==> k < rows.len() && shows_file(
            rows[k as int],
            index,
        ),
    decreases rows.len(),
{
    if rows.len() > 0 {
        lemma_file_row_position(rows.drop_first(), index);
        if has_file_row(rows, index) && !shows_file(rows[0], index) {
            let k = choose|k: int| 0 <= k < rows.len() && #[trigger] shows_file(rows[k], index);
            assert(shows_file(rows.drop_first()[k - 1], index));
        }
        match file_row_position(rows.drop_first(), index) {
            Some(k) => {
                assert(rows[k as int + 1] == rows.drop_first()[k as int]);
            },
            None => {},
        }
    }
}

/// When the terminal front end starts with a file selected, the cursor is
/// on that file's row.
pub proof fn lemma_start_cursor_on_selected_file(s: SessionView)
    requires
        s.selected_file < s.files.len(),
        s.files.len() <= usize::MAX,
    ensures
        ({
            let rows = visible_rows(s.files, dir_path_set(s.files));
            match file_row_position(rows, s.selected_file) {
                Some(k) => k < rows.len() && shows_file(rows[k as int], s.selected_file),
                None => false,
            }
        }),
{
    let rows = visible_rows(s.files, dir_path_set(s.files));
    lemma_expanded_tree_shows_every_file(s.files, s.selected_file as int);
    lemma_file_row_position(rows, s.selected_file);
}

proof fn lemma_section_indices_hold(s: SessionView, reviewed: bool, k: int, i: usize)
    requires
        0 <= k <= s.files.len(),
        s.files.len() <= usize::MAX,
    ensures
        section_indices(s, reviewed, k).contains(i) <==> (i < k && s.is_reviewed(i as nat) == reviewed),
    decreases k,
{
    if k > 0 {
        lemma_section_indices_hold(s, reviewed, k - 1, i);
        let prev = section_indices(s, reviewed, k - 1);
        if s.is_reviewed((k - 1) as nat) == reviewed {
            let next = prev.push((k - 1) as usize);
            if next.contains(i) && i != (k - 1) as usize {
                let j = choose|j: int| 0 <= j < next.len() && next[j] == i;
                assert(prev[j] == i);
            }
            if prev.contains(i) {
                let j = choose|j: int| 0 <= j < prev.len() && prev[j] == i;
                assert(next[j] == i);
            }
            if i == (k - 1) as usize {
                assert(next[prev.len() as int] == i);
            }
        }
    }
}

/// The file pane that sets the files to review apart from the reviewed ones
/// lists each file under exactly one heading: under "reviewed" when it is
/// reviewed, under "to review" otherwise.
pub proof fn lemma_sections_part_files(s: SessionView, i: usize)
    requires
        s.files.len() <= usize::MAX,
    ensures
        section_indices(s, false, s.files.len() as int).contains(i) <==> (i < s.files.len()
            && !s.is_reviewed(i as nat)),
        section_indices(s, true, s.files.len() as int).contains(i) <==> (i < s.files.len()
            && s.is_reviewed(i as nat)),
{
    lemma_section_indices_hold(s, false, s.files.len() as int, i);
    lemma_section_indices_hold(s, true, s.files.len() as int, i);
}

} // verus!
