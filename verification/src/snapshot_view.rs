//! The state and texts of the repository snapshot window: the selected
//! file, the collapsed directories, the diff focus and data-flow toggles,
//! and what the diff pane says.
use vstd::prelude::*;

use crate::git::diff::{marked, line_views, DiffLine};
use crate::git::snapshot::FileChange;
use crate::strset::{distinct_strs, str_set, strs_contain, strs_insert, strs_remove};
use crate::text::{concat, decimal, decimal_string, has_prefix};
use crate::views::stats_label;

verus! {

/// What the body of the diff pane shows.
pub enum DiffBody {
    /// The selected file's diff lines.
    Lines,
    /// A note with a title and a text.
    Empty { title: String, text: String },
}

/// The texts of the diff pane.
pub struct DiffViewText {
    pub subtitle: String,
    pub summary: String,
    pub body: DiffBody,
}

/// The summary line of the diff pane: the load error, or the selected
/// file's status and counts.
pub open spec fn snapshot_summary_text(load_error: Option<Seq<char>>, file: Option<FileChange>) -> Seq<char> {
    match load_error {
        Some(e) => e,
        None => match file {
            Some(f) => f.status@ + "  +"@ + decimal(f.additions as nat) + "  -"@ + decimal(f.deletions as nat),
            None => "No diff selected"@,
        },
    }
}

/// Whether a file has diff lines to show.
pub open spec fn has_lines(file: FileChange) -> bool {
    match file.diff_lines {
        Some(lines) => lines@.len() > 0,
        None => false,
    }
}

pub open spec fn opt_text(o: Option<String>) -> Option<Seq<char>> {
    match o {
        Some(s) => Some(s@),
        None => None,
    }
}

/// The texts of the diff pane: the selected file's path, the summary line,
/// and its diff lines or a note: that it has no textual diff, that the
/// repository could not be loaded, or that no file is selected.
pub fn snapshot_diff_view(load_error: &Option<String>, selected: Option<&FileChange>) -> (r: DiffViewText)
    ensures
        r.subtitle@ == (match selected {
            Some(f) => f.path@,
            None => "No file selected"@,
        }),
        r.summary@ == snapshot_summary_text(opt_text(*load_error), match selected {
            Some(f) => Some(*f),
            None => None,
        }),
        match selected {
            Some(f) => if has_lines(*f) {
                r.body is Lines
            } else {
                r.body matches DiffBody::Empty { title, text } && title@ == "No textual diff available"@
                    && text@ == "This file may be binary or only have metadata changes."@
            },
            None => match load_error {
                Some(e) => r.body matches DiffBody::Empty { title, text } && title@ == "Unable to load repository"@
                    && text@ == e@,
                None => r.body matches DiffBody::Empty { title, text } && title@ == "No diff selected"@
                    && text@ == "Pick a file from the left panel to inspect the real git diff."@,
            },
        },
{
    let subtitle = match selected {
        Some(f) => f.path.clone(),
        None => "No file selected".to_owned(),
    };
    let summary = match load_error {
        Some(e) => e.clone(),
        None => match selected {
            Some(f) => {
                let a = concat(f.status.as_str(), "  +");
                let ad = decimal_string(f.additions);
                let b = concat(a.as_str(), ad.as_str());
                let c = concat(b.as_str(), "  -");
                let dd = decimal_string(f.deletions);
                concat(c.as_str(), dd.as_str())
            },
            None => "No diff selected".to_owned(),
        },
    };
    let body = match selected {
        Some(f) => {
            let shows = match &f.diff_lines {
                Some(lines) => lines.len() > 0,
                None => false,
            };
            if shows {
                DiffBody::Lines
            } else {
                DiffBody::Empty {
                    title: "No textual diff available".to_owned(),
                    text: "This file may be binary or only have metadata changes.".to_owned(),
                }
            }
        },
        None => match load_error {
            Some(e) => DiffBody::Empty { title: "Unable to load repository".to_owned(), text: e.clone() },
            None => DiffBody::Empty {
                title: "No diff selected".to_owned(),
                text: "Pick a file from the left panel to inspect the real git diff.".to_owned(),
            },
        },
    };
    DiffViewText { subtitle, summary, body }
}

/// The label of the button that focuses the diff or restores the layout.
pub fn focus_toggle_label(diff_focus_mode: bool) -> (r: String)
    ensures
        r@ == (if diff_focus_mode {
            "Restore Layout"@
        } else {
            "Focus Diff"@
        }),
{
    if diff_focus_mode {
        "Restore Layout".to_owned()
    } else {
        "Focus Diff".to_owned()
    }
}

/// A file whose data flow can be drawn: a Rust source file.
pub open spec fn is_rust_path(path: Seq<char>) -> bool {
    path.len() >= 3 && path.skip(path.len() - 3) == ".rs"@
}

pub fn is_rust_source(path: &str) -> (r: bool)
    ensures
        r == is_rust_path(path@),
{
    let cs = crate::text::chars_of(path);
    let n = cs.len();
    if n < 3 {
        return false;
    }
    let tail = vstd::slice::slice_subrange(cs.as_slice(), n - 3, n);
    let ext = crate::text::chars_of(".rs");
    assert(tail@ =~= path@.skip(n - 3));
    crate::text::chars_equal(tail, ext.as_slice())
}

/// The diff shown when loading a file's diff failed: the error, marked.
pub fn error_diff(error: String) -> (r: Vec<DiffLine>)
    ensures
        line_views(r@) == seq![marked(error@)],
{
    let prefix = ">".to_owned();
    proof {
        reveal_strlit(">");
        assert(prefix@ =~= seq!['>']);
    }
    let mut r: Vec<DiffLine> = Vec::new();
    r.push(DiffLine { prefix, number: String::new(), content: error });
    assert(line_views(r@) =~= seq![marked(r@[0].content@)]);
    r
}

/// The selected file's diff has to be loaded: it exists and has none yet.
pub fn needs_diff(files: &[FileChange], selected: usize) -> (r: bool)
    ensures
        r == (selected < files@.len() && files@[selected as int].diff_lines is None),
{
    selected < files.len() && files[selected].diff_lines.is_none()
}

/// A set with `p` added when it lacks it and taken out when it has it.
pub open spec fn toggled(s: Set<Seq<char>>, p: Seq<char>) -> Set<Seq<char>> {
    if s.contains(p) {
        s.remove(p)
    } else {
        s.insert(p)
    }
}

/// The state of the snapshot window.
pub struct SnapshotView {
    selected_file: usize,
    diff_focus_mode: bool,
    collapsed_dirs: Vec<String>,
    show_data_flow: bool,
}

pub struct SnapshotViewState {
    pub selected_file: nat,
    pub diff_focus_mode: bool,
    pub collapsed: Set<Seq<char>>,
    pub show_data_flow: bool,
}

impl View for SnapshotView {
    type V = SnapshotViewState;

    closed spec fn view(&self) -> SnapshotViewState {
        SnapshotViewState {
            selected_file: self.selected_file as nat,
            diff_focus_mode: self.diff_focus_mode,
            collapsed: str_set(self.collapsed_dirs@),
            show_data_flow: self.show_data_flow,
        }
    }
}

impl SnapshotView {
    #[verifier::type_invariant]
    spec fn inv(self) -> bool {
        distinct_strs(self.collapsed_dirs@)
    }

    /// The first file selected, the full layout, nothing collapsed, the
    /// diff shown.
    pub fn new() -> (s: Self)
        ensures
            s@ == (SnapshotViewState {
                selected_file: 0,
                diff_focus_mode: false,
                collapsed: Set::empty(),
                show_data_flow: false,
            }),
    {
        let s = SnapshotView {
            selected_file: 0,
            diff_focus_mode: false,
            collapsed_dirs: Vec::new(),
            show_data_flow: false,
        };
        assert(crate::strset::str_seqs(s.collapsed_dirs@) =~= seq![]);
        assert(str_set(s.collapsed_dirs@) =~= Set::empty());
        s
    }

    pub fn selected_file(&self) -> (r: usize)
        ensures
            r == self@.selected_file,
    {
        self.selected_file
    }

    pub fn diff_focus_mode(&self) -> (r: bool)
        ensures
            r == self@.diff_focus_mode,
    {
        self.diff_focus_mode
    }

    pub fn show_data_flow(&self) -> (r: bool)
        ensures
            r == self@.show_data_flow,
    {
        self.show_data_flow
    }

    /// Whether the directory at `path` is collapsed.
    pub fn is_collapsed(&self, path: &String) -> (r: bool)
        ensures
            r == self@.collapsed.contains(path@),
    {
        strs_contain(&self.collapsed_dirs, path)
    }

    /// Selects the file `index` when there is one among `file_count`; `true`
    /// when it did.
    pub fn set_selected_file(&mut self, index: usize, file_count: usize) -> (r: bool)
        ensures
            r == (index < file_count),
            final(self)@ == (if index < file_count {
                SnapshotViewState { selected_file: index as nat, ..old(self)@ }
            } else {
                old(self)@
            }),
    {
        proof {
            use_type_invariant(&*self);
        }
        if index < file_count {
            self.selected_file = index;
            true
        } else {
            false
        }
    }

    pub fn toggle_diff_focus_mode(&mut self)
        ensures
            final(self)@ == (SnapshotViewState { diff_focus_mode: !old(self)@.diff_focus_mode, ..old(self)@ }),
    {
        proof {
            use_type_invariant(&*self);
        }
        self.diff_focus_mode = !self.diff_focus_mode;
    }

    pub fn toggle_data_flow(&mut self)
        ensures
            final(self)@ == (SnapshotViewState { show_data_flow: !old(self)@.show_data_flow, ..old(self)@ }),
    {
        proof {
            use_type_invariant(&*self);
        }
        self.show_data_flow = !self.show_data_flow;
    }

    /// Shows the diff rather than the data flow.
    pub fn show_diff(&mut self)
        ensures
            final(self)@ == (SnapshotViewState { show_data_flow: false, ..old(self)@ }),
    {
        proof {
            use_type_invariant(&*self);
        }
        self.show_data_flow = false;
    }

    /// Collapses the directory at `path`, or expands it when it is collapsed.
    pub fn toggle_directory(&mut self, path: String)
        ensures
            final(self)@ == (SnapshotViewState { collapsed: toggled(old(self)@.collapsed, path@), ..old(self)@ }),
    {
        proof {
            use_type_invariant(&*self);
        }
        let mut dirs: Vec<String> = Vec::new();
        core::mem::swap(&mut dirs, &mut self.collapsed_dirs);
        if strs_contain(&dirs, &path) {
            strs_remove(&mut dirs, &path);
        } else {
            strs_insert(&mut dirs, path);
        }
        self.collapsed_dirs = dirs;
    }
}

} // verus!
