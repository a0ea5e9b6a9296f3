//! The review session: the changed files with their diffs, the findings, the
//! reviewed-file state and what is selected, and the actions that change them.
use vstd::prelude::*;

use crate::engine::{
    block_starts, change_range, diff_change_indices, diff_hash, diff_hash_text, diff_stats,
    display_status, display_status_text, first_diff_change_index, line_views,
    selected_diff_change_range, count_prefixed, DiffLine, EntryView, FileChange, Finding,
    LineView, ReviewAction, StatusEntry,
};
use crate::strset::{distinct_strs, lemma_str_set_push, str_set, strs_contain, strs_insert, strs_remove};
use crate::text::{concat, decimal, decimal_string};
use crate::analysis::syntax::text_is;

verus! {

/// What a session needs to store reviewed state: the review key and the
/// diff hash of each file.
#[derive(Clone, Debug, PartialEq, Eq)]
pub struct PersistenceContext {
    pub review_key: String,
    pub file_hashes: Vec<String>,
}

pub struct PersistenceView {
    pub review_key: Seq<char>,
    pub file_hashes: Seq<Seq<char>>,
}

impl View for PersistenceContext {
    type V = PersistenceView;

    open spec fn view(&self) -> PersistenceView {
        PersistenceView {
            review_key: self.review_key@,
            file_hashes: self.file_hashes@.map_values(|h: String| h@),
        }
    }
}

/// A reviewed-state change that has to be stored before the session takes it.
#[derive(Clone, Debug, PartialEq, Eq)]
pub struct PersistRequest {
    pub review_key: String,
    pub path: String,
    pub diff_hash: String,
    pub reviewed: bool,
}

pub struct RequestView {
    pub review_key: Seq<char>,
    pub path: Seq<char>,
    pub diff_hash: Seq<char>,
    pub reviewed: bool,
}

impl View for PersistRequest {
    type V = RequestView;

    open spec fn view(&self) -> RequestView {
        RequestView {
            review_key: self.review_key@,
            path: self.path@,
            diff_hash: self.diff_hash@,
            reviewed: self.reviewed,
        }
    }
}

pub open spec fn request_view(r: Option<PersistRequest>) -> Option<RequestView> {
    match r {
        Some(q) => Some(q@),
        None => None,
    }
}

/// The state of a review session.
#[derive(Debug, PartialEq, Eq)]
pub struct ReviewSession {
    selected_file: usize,
    selected_finding: usize,
    selected_diff_line: usize,
    repo_label: String,
    review_label: String,
    backend_label: String,
    review_summary: String,
    files: Vec<FileChange>,
    diffs: Vec<Vec<DiffLine>>,
    findings: Vec<Finding>,
    reviewed_files: Vec<String>,
    persistence: Option<PersistenceContext>,
}

/// The abstract state of a review session.
pub struct SessionView {
    pub selected_file: nat,
    pub selected_finding: nat,
    pub selected_diff_line: nat,
    pub repo_label: Seq<char>,
    pub review_label: Seq<char>,
    pub backend_label: Seq<char>,
    pub review_summary: Seq<char>,
    pub files: Seq<FileChange>,
    pub diffs: Seq<Seq<LineView>>,
    pub findings: Seq<Finding>,
    pub reviewed: Set<Seq<char>>,
    pub persistence: Option<PersistenceView>,
}

impl View for ReviewSession {
    type V = SessionView;

    closed spec fn view(&self) -> SessionView {
        SessionView {
            selected_file: self.selected_file as nat,
            selected_finding: self.selected_finding as nat,
            selected_diff_line: self.selected_diff_line as nat,
            repo_label: self.repo_label@,
            review_label: self.review_label@,
            backend_label: self.backend_label@,
            review_summary: self.review_summary@,
            files: self.files@,
            diffs: self.diffs@.map_values(|d: Vec<DiffLine>| line_views(d@)),
            findings: self.findings@,
            reviewed: str_set(self.reviewed_files@),
            persistence: match self.persistence {
                Some(p) => Some(p@),
                None => None,
            },
        }
    }
}

/// The first block start after `v`.
pub open spec fn first_greater(s: Seq<nat>, v: nat) -> Option<nat>
    decreases s.len(),
{
    if s.len() == 0 {
        None
    } else if s[0] > v {
        Some(s[0])
    } else {
        first_greater(s.drop_first(), v)
    }
}

/// The last block start before `v`.
pub open spec fn last_less(s: Seq<nat>, v: nat) -> Option<nat>
    decreases s.len(),
{
    if s.len() == 0 {
        None
    } else if s.last() < v {
        Some(s.last())
    } else {
        last_less(s.drop_last(), v)
    }
}

/// The position of `v` in `s`.
pub open spec fn position_of(s: Seq<nat>, v: nat) -> Option<nat>
    decreases s.len(),
{
    if s.len() == 0 {
        None
    } else if s[0] == v {
        Some(0)
    } else {
        match position_of(s.drop_first(), v) {
            Some(p) => Some(p + 1),
            None => None,
        }
    }
}

/// The index of the first file with the given path.
pub open spec fn file_position(files: Seq<FileChange>, path: Seq<char>) -> Option<nat>
    decreases files.len(),
{
    if files.len() == 0 {
        None
    } else if files[0].path@ == path {
        Some(0)
    } else {
        match file_position(files.drop_first(), path) {
            Some(p) => Some(p + 1),
            None => None,
        }
    }
}

/// The number of files whose path is in `reviewed`.
pub open spec fn count_reviewed(files: Seq<FileChange>, reviewed: Set<Seq<char>>) -> nat
    decreases files.len(),
{
    if files.len() == 0 {
        0
    } else {
        count_reviewed(files.drop_last(), reviewed) + if reviewed.contains(files.last().path@) {
            1nat
        } else {
            0nat
        }
    }
}

/// The index after `current` in a list of `len` items, wrapping to the first.
pub open spec fn next_in(current: nat, len: nat) -> nat {
    if len == 0 {
        0
    } else {
        (current + 1) % len
    }
}

/// The index before `current` in a list of `len` items, wrapping to the last.
pub open spec fn previous_in(current: nat, len: nat) -> nat {
    if len == 0 {
        0
    } else if current == 0 {
        (len - 1) as nat
    } else {
        (current - 1) as nat
    }
}

pub open spec fn first_change_or_zero(d: Seq<LineView>) -> nat {
    if block_starts(d).len() > 0 {
        block_starts(d)[0]
    } else {
        0
    }
}

impl SessionView {
    /// The selection points at a file and a finding when there are any, and
    /// every file has its diff.
    pub open spec fn wf(self) -> bool {
        &&& self.files.len() == self.diffs.len()
        &&& (self.selected_file == 0 || self.selected_file < self.files.len())
        &&& (self.selected_finding == 0 || self.selected_finding < self.findings.len())
    }

    /// The diff lines of the selected file.
    pub open spec fn diff_view(self) -> Seq<LineView> {
        if self.selected_file < self.diffs.len() {
            self.diffs[self.selected_file as int]
        } else {
            seq![]
        }
    }

    pub open spec fn is_reviewed(self, index: nat) -> bool {
        index < self.files.len() && self.reviewed.contains(self.files[index as int].path@)
    }

    pub open spec fn reviewed_count(self) -> nat {
        count_reviewed(self.files, self.reviewed)
    }

    pub open spec fn pending_count(self) -> nat {
        if self.files.len() >= self.reviewed_count() {
            (self.files.len() - self.reviewed_count()) as nat
        } else {
            0
        }
    }

    /// Selecting a file that exists also resets the finding and moves to its
    /// first block of changed lines.
    pub open spec fn select_file(self, index: nat) -> SessionView {
        if index < self.files.len() {
            let moved = SessionView { selected_file: index, selected_finding: 0, ..self };
            SessionView { selected_diff_line: first_change_or_zero(moved.diff_view()), ..moved }
        } else {
            self
        }
    }

    pub open spec fn select_finding(self, index: nat) -> SessionView {
        if index < self.findings.len() {
            SessionView { selected_finding: index, ..self }
        } else {
            self
        }
    }

    /// Moves to the next block of changed lines, wrapping to the first.
    pub open spec fn next_change(self) -> SessionView {
        let starts = block_starts(self.diff_view());
        let line = if starts.len() == 0 {
            0
        } else {
            match first_greater(starts, self.selected_diff_line) {
                Some(i) => i,
                None => starts[0],
            }
        };
        SessionView { selected_diff_line: line, ..self }
    }

    /// Moves to the previous block of changed lines, wrapping to the last.
    pub open spec fn previous_change(self) -> SessionView {
        let starts = block_starts(self.diff_view());
        let line = if starts.len() == 0 {
            0
        } else {
            match last_less(starts, self.selected_diff_line) {
                Some(i) => i,
                None => starts.last(),
            }
        };
        SessionView { selected_diff_line: line, ..self }
    }

    /// The session with `path` marked reviewed or not.
    pub open spec fn with_reviewed(self, path: Seq<char>, reviewed: bool) -> SessionView {
        SessionView {
            reviewed: if reviewed {
                self.reviewed.insert(path)
            } else {
                self.reviewed.remove(path)
            },
            ..self
        }
    }

    /// What has to be stored to mark `path` reviewed or not: nothing without
    /// persistence or without a stored hash for the file.
    pub open spec fn persist_request(self, path: Seq<char>, reviewed: bool) -> Option<RequestView> {
        match self.persistence {
            None => None,
            Some(p) => match file_position(self.files, path) {
                None => None,
                Some(i) => if i < p.file_hashes.len() {
                    Some(
                        RequestView {
                            review_key: p.review_key,
                            path,
                            diff_hash: p.file_hashes[i as int],
                            reviewed,
                        },
                    )
                } else {
                    None
                },
            },
        }
    }

    /// Toggling the selected file's reviewed state: done at once when there
    /// is nothing to store, else handed out as a request and left for now.
    pub open spec fn toggle_reviewed(self) -> (SessionView, Option<RequestView>) {
        if self.selected_file < self.files.len() {
            let path = self.files[self.selected_file as int].path@;
            let reviewed = !self.reviewed.contains(path);
            match self.persist_request(path, reviewed) {
                None => (self.with_reviewed(path, reviewed), None),
                Some(q) => (self, Some(q)),
            }
        } else {
            (self, None)
        }
    }

    /// The effect of an action on the session, and what it asks to store.
    pub open spec fn step(self, action: ReviewAction) -> (SessionView, Option<RequestView>) {
        match action {
            ReviewAction::SelectFile(i) => (self.select_file(i as nat), None),
            ReviewAction::SelectFinding(i) => (self.select_finding(i as nat), None),
            ReviewAction::ToggleSelectedFileReviewed => self.toggle_reviewed(),
            ReviewAction::NextDiffChange => (self.next_change(), None),
            ReviewAction::PreviousDiffChange => (self.previous_change(), None),
            ReviewAction::NextFile => (
                self.select_file(next_in(self.selected_file, self.files.len())),
                None,
            ),
            ReviewAction::PreviousFile => (
                self.select_file(previous_in(self.selected_file, self.files.len())),
                None,
            ),
            ReviewAction::NextFinding => (
                self.select_finding(next_in(self.selected_finding, self.findings.len())),
                None,
            ),
            ReviewAction::PreviousFinding => (
                self.select_finding(previous_in(self.selected_finding, self.findings.len())),
                None,
            ),
        }
    }

    /// The session once a stored change has come back: on success the
    /// change is taken, on failure the summary reports the error.
    pub open spec fn finish(self, request: RequestView, outcome: Result<(), Seq<char>>) -> SessionView {
        match outcome {
            Ok(()) => self.with_reviewed(request.path, request.reviewed),
            Err(e) => SessionView {
                review_summary: "Failed to persist reviewed state: "@ + e,
                ..self
            },
        }
    }
}


/// The summary shown after loading the changed files of a repository.
pub open spec fn loaded_summary_text(count: nat) -> Seq<char> {
    if count == 0 {
        "Working tree is clean. No changed files to review."@
    } else {
        "Loaded "@ + decimal(count) + " changed files from Git. AI findings are not wired yet."@
    }
}

fn loaded_summary(count: usize) -> (r: String)
    ensures
        r@ == loaded_summary_text(count as nat),
{
    if count == 0 {
        "Working tree is clean. No changed files to review.".to_owned()
    } else {
        let n = decimal_string(count);
        let a = concat("Loaded ", n.as_str());
        concat(a.as_str(), " changed files from Git. AI findings are not wired yet.")
    }
}

/// The changed files of a review: each status entry with its display
/// status and the added and removed line counts of its diff.
pub open spec fn file_changes_spec(entries: Seq<EntryView>, diffs: Seq<Seq<LineView>>, files: Seq<FileChange>) -> bool {
    &&& files.len() == entries.len()
    &&& forall|i: int| 0 <= i < files.len() ==> {
        &&& #[trigger] files[i].path@ == entries[i].path
        &&& files[i].status@ == display_status_text(entries[i].status)
        &&& files[i].additions == count_prefixed(diffs[i], seq!['+'])
        &&& files[i].deletions == count_prefixed(diffs[i], seq!['-'])
    }
}

/// Builds the changed files from the status entries and their diffs.
pub fn build_file_changes(entries: Vec<StatusEntry>, diffs: &Vec<Vec<DiffLine>>) -> (files: Vec<FileChange>)
    requires
        entries.len() == diffs.len(),
    ensures
        file_changes_spec(
            entries@.map_values(|x: StatusEntry| EntryView { status: x.status@, path: x.path@ }),
            diffs@.map_values(|d: Vec<DiffLine>| line_views(d@)),
            files@,
        ),
{
    let ghost ev = entries@.map_values(|x: StatusEntry| EntryView { status: x.status@, path: x.path@ });
    let ghost dv = diffs@.map_values(|d: Vec<DiffLine>| line_views(d@));
    let mut files: Vec<FileChange> = Vec::new();
    let mut i: usize = 0;
    for entry in it: entries
        invariant
            it.seq() == entries@,
            i == it.index(),
            i <= diffs.len(),
            entries.len() == diffs.len(),
            ev == entries@.map_values(|x: StatusEntry| EntryView { status: x.status@, path: x.path@ }),
            dv == diffs@.map_values(|d: Vec<DiffLine>| line_views(d@)),
            files.len() == i,
            forall|k: int| 0 <= k < i ==> {
                &&& #[trigger] files@[k].path@ == ev[k].path
                &&& files@[k].status@ == display_status_text(ev[k].status)
                &&& files@[k].additions == count_prefixed(dv[k], seq!['+'])
                &&& files@[k].deletions == count_prefixed(dv[k], seq!['-'])
            },
    {
        let (additions, deletions) = diff_stats(diffs[i].as_slice());
        let status = display_status(entry.status.as_str());
        assert(entry == entries@[i as int]);
        assert(ev[i as int] == EntryView { status: entry.status@, path: entry.path@ });
        assert(dv[i as int] == line_views(diffs@[i as int]@));
        let ghost before = files@;
        files.push(FileChange { path: entry.path, status, additions, deletions });
        assert(forall|k: int| 0 <= k < i ==> files@[k] == before[k]);
        i = i + 1;
    }
    files
}

/// Some stored row marks the file at `path` with the diff hash `hash`
/// reviewed under the review key `key`.
pub open spec fn stored_reviewed(rows: Seq<(String, String, String)>, key: Seq<char>, path: Seq<char>, hash: Seq<char>) -> bool {
    exists|k: int|
        0 <= k < rows.len() && (#[trigger] rows[k]).0@ == key && rows[k].1@ == path && rows[k].2@ == hash
}

/// Whether each file is reviewed, from the stored rows of review key, path
/// and diff hash: a file is reviewed when a row has the session's key, its
/// path and the hash of its current diff, so a file whose diff changed is no
/// longer reviewed.
pub fn reviewed_flags(
    review_key: &str,
    files: &[FileChange],
    hashes: &[String],
    rows: &[(String, String, String)],
) -> (flags: Vec<bool>)
    requires
        hashes@.len() == files@.len(),
    ensures
        flags@.len() == files@.len(),
        forall|i: int|
            0 <= i < files@.len() ==> (#[trigger] flags@[i] <==> stored_reviewed(
                rows@,
                review_key@,
                files@[i].path@,
                hashes@[i]@,
            )),
{
    let mut flags: Vec<bool> = Vec::new();
    let mut i: usize = 0;
    while i < files.len()
        invariant
            i <= files@.len(),
            hashes@.len() == files@.len(),
            flags@.len() == i,
            forall|q: int|
                0 <= q < i ==> (#[trigger] flags@[q] <==> stored_reviewed(
                    rows@,
                    review_key@,
                    files@[q].path@,
                    hashes@[q]@,
                )),
        decreases files@.len() - i,
    {
        let path = files[i].path.as_str();
        let hash = hashes[i].as_str();
        let mut found = false;
        let mut k: usize = 0;
        while k < rows.len()
            invariant
                k <= rows@.len(),
                path@ == files@[i as int].path@,
                hash@ == hashes@[i as int]@,
                found ==> stored_reviewed(rows@, review_key@, path@, hash@),
                !found ==> forall|m: int|
                    0 <= m < k ==> !((#[trigger] rows@[m]).0@ == review_key@ && rows@[m].1@ == path@
                        && rows@[m].2@ == hash@),
            decreases rows@.len() - k,
        {
            let row = &rows[k];
            if text_is(row.0.as_str(), review_key) && text_is(row.1.as_str(), path) && text_is(
                row.2.as_str(),
                hash,
            ) {
                found = true;
                assert(rows@[k as int] == *row);
            }
            k = k + 1;
        }
        let ghost before = flags@;
        flags.push(found);
        assert forall|q: int|
            0 <= q < i + 1 implies (#[trigger] flags@[q] <==> stored_reviewed(
                rows@,
                review_key@,
                files@[q].path@,
                hashes@[q]@,
            )) by {
            if q < i {
                assert(flags@[q] == before[q]);
            }
        }
        i = i + 1;
    }
    flags
}

/// The hash of each file's diff.
pub fn diff_hashes(diffs: &Vec<Vec<DiffLine>>) -> (hashes: Vec<String>)
    ensures
        hashes.len() == diffs.len(),
        forall|i: int| 0 <= i < diffs.len() ==> #[trigger] hashes@[i]@ == diff_hash_text(line_views(diffs@[i]@)),
{
    let mut hashes: Vec<String> = Vec::new();
    let mut i: usize = 0;
    while i < diffs.len()
        invariant
            i <= diffs.len(),
            hashes.len() == i,
            forall|k: int| 0 <= k < i ==> #[trigger] hashes@[k]@ == diff_hash_text(line_views(diffs@[k]@)),
        decreases diffs.len() - i,
    {
        hashes.push(diff_hash(diffs[i].as_slice()));
        i = i + 1;
    }
    hashes
}

impl ReviewSession {
    #[verifier::type_invariant]
    spec fn inv(self) -> bool {
        &&& self@.wf()
        &&& distinct_strs(self.reviewed_files@)
    }

    fn first_change_of(diffs: &Vec<Vec<DiffLine>>) -> (r: usize)
        ensures
            r == (if diffs.len() > 0 {
                first_change_or_zero(line_views(diffs@[0]@))
            } else {
                0
            }),
    {
        if diffs.len() == 0 {
            return 0;
        }
        match first_diff_change_index(diffs[0].as_slice()) {
            Some(i) => i,
            None => 0,
        }
    }

    /// A session over the given files and diffs, with the given reviewed
    /// paths, selecting the first file and its first block of changes.
    pub fn from_parts(
        repo_label: String,
        review_label: String,
        backend_label: String,
        review_summary: String,
        files: Vec<FileChange>,
        diffs: Vec<Vec<DiffLine>>,
        findings: Vec<Finding>,
        reviewed: Vec<String>,
        persistence: Option<PersistenceContext>,
    ) -> (s: Self)
        requires
            files.len() == diffs.len(),
        ensures
            s@.selected_file == 0,
            s@.selected_finding == 0,
            s@.selected_diff_line == (if diffs.len() > 0 {
                first_change_or_zero(line_views(diffs@[0]@))
            } else {
                0
            }),
            s@.repo_label == repo_label@,
            s@.review_label == review_label@,
            s@.backend_label == backend_label@,
            s@.review_summary == review_summary@,
            s@.files == files@,
            s@.diffs == diffs@.map_values(|d: Vec<DiffLine>| line_views(d@)),
            s@.findings == findings@,
            s@.reviewed == str_set(reviewed@),
            s@.persistence == (match persistence {
                Some(p) => Some(p@),
                None => None,
            }),
    {
        let mut set: Vec<String> = Vec::new();
        assert(str_set(set@) =~= Set::empty());
        let mut i: usize = 0;
        while i < reviewed.len()
            invariant
                i <= reviewed.len(),
                distinct_strs(set@),
                str_set(set@) == str_set(reviewed@.take(i as int)),
            decreases reviewed.len() - i,
        {
            strs_insert(&mut set, reviewed[i].clone());
            proof {
                let a = reviewed@.take(i as int);
                let b = reviewed@.take(i + 1);
                assert(b =~= a.push(reviewed@[i as int]));
                lemma_str_set_push(a, reviewed@[i as int]);
            }
            i = i + 1;
        }
        assert(reviewed@.take(i as int) =~= reviewed@);
        let selected_diff_line = Self::first_change_of(&diffs);
        ReviewSession {
            selected_file: 0,
            selected_finding: 0,
            selected_diff_line,
            repo_label,
            review_label,
            backend_label,
            review_summary,
            files,
            diffs,
            findings,
            reviewed_files: set,
            persistence,
        }
    }

    /// The session of a repository's changes: no findings yet, the given
    /// files and diffs, the review key with each diff's hash for storing
    /// reviewed state, and the files flagged in `reviewed` marked reviewed.
    pub fn from_repository(
        repo_label: String,
        review_label: String,
        review_key: String,
        files: Vec<FileChange>,
        diffs: Vec<Vec<DiffLine>>,
        reviewed: Vec<bool>,
    ) -> (s: Self)
        requires
            files.len() == diffs.len(),
            reviewed.len() == files.len(),
        ensures
            s@.selected_file == 0,
            s@.selected_finding == 0,
            s@.selected_diff_line == (if diffs.len() > 0 {
                first_change_or_zero(line_views(diffs@[0]@))
            } else {
                0
            }),
            s@.repo_label == repo_label@,
            s@.review_label == review_label@,
            s@.backend_label == "not configured"@,
            s@.review_summary == loaded_summary_text(files.len() as nat),
            s@.files == files@,
            s@.diffs == diffs@.map_values(|d: Vec<DiffLine>| line_views(d@)),
            s@.findings.len() == 0,
            forall|p: Seq<char>| #[trigger] s@.reviewed.contains(p) <==> exists|i: int|
                0 <= i < files.len() && reviewed@[i] && #[trigger] files@[i].path@ == p,
            s@.persistence == Some(PersistenceView {
                review_key: review_key@,
                file_hashes: Seq::new(diffs.len() as nat, |i: int| diff_hash_text(line_views(diffs@[i]@))),
            }),
    {
        let file_hashes = diff_hashes(&diffs);
        let mut paths: Vec<String> = Vec::new();
        let mut i: usize = 0;
        while i < files.len()
            invariant
                i <= files.len(),
                reviewed.len() == files.len(),
                forall|p: Seq<char>| #[trigger] str_set(paths@).contains(p) <==> exists|k: int|
                    0 <= k < i && reviewed@[k] && #[trigger] files@[k].path@ == p,
            decreases files.len() - i,
        {
            if reviewed[i] {
                let ghost before = paths@;
                paths.push(files[i].path.clone());
                proof {
                    let sb = before.map_values(|s: String| s@);
                    let sa = paths@.map_values(|s: String| s@);
                    assert(sa =~= sb.push(files@[i as int].path@));
                    assert forall|p: Seq<char>| #[trigger] str_set(paths@).contains(p) <==> exists|k: int|
                        0 <= k < i + 1 && reviewed@[k] && #[trigger] files@[k].path@ == p by {
                        if sa.contains(p) {
                            let k = choose|k: int| 0 <= k < sa.len() && sa[k] == p;
                            if k < sb.len() {
                                assert(sb[k] == p);
                                assert(str_set(before).contains(p));
                            } else {
                                assert(files@[i as int].path@ == p);
                            }
                        }
                        if exists|k: int| 0 <= k < i + 1 && reviewed@[k] && #[trigger] files@[k].path@ == p {
                            let k = choose|k: int| 0 <= k < i + 1 && reviewed@[k] && #[trigger] files@[k].path@ == p;
                            if k < i {
                                assert(str_set(before).contains(p));
                                let j = choose|j: int| 0 <= j < sb.len() && sb[j] == p;
                                assert(sa[j] == p);
                            } else {
                                assert(sa[sb.len() as int] == p);
                            }
                        }
                    }
                }
            } else {
                assert forall|p: Seq<char>| #[trigger] str_set(paths@).contains(p) <==> exists|k: int|
                    0 <= k < i + 1 && reviewed@[k] && #[trigger] files@[k].path@ == p by {
                    if exists|k: int| 0 <= k < i + 1 && reviewed@[k] && #[trigger] files@[k].path@ == p {
                        let k = choose|k: int| 0 <= k < i + 1 && reviewed@[k] && #[trigger] files@[k].path@ == p;
                        assert(k < i);
                    }
                }
            }
            i = i + 1;
        }
        let summary = loaded_summary(files.len());
        let persistence = PersistenceContext { review_key, file_hashes };
        assert(persistence@.file_hashes =~= Seq::new(diffs.len() as nat, |i: int| diff_hash_text(line_views(diffs@[i]@))));
        Self::from_parts(
            repo_label,
            review_label,
            "not configured".to_owned(),
            summary,
            files,
            diffs,
            Vec::new(),
            paths,
            Some(persistence),
        )
    }

    pub fn repo_label(&self) -> (r: &str)
        ensures
            r@ == self@.repo_label,
    {
        self.repo_label.as_str()
    }

    pub fn review_label(&self) -> (r: &str)
        ensures
            r@ == self@.review_label,
    {
        self.review_label.as_str()
    }

    pub fn backend_label(&self) -> (r: &str)
        ensures
            r@ == self@.backend_label,
    {
        self.backend_label.as_str()
    }

    pub fn review_summary(&self) -> (r: &str)
        ensures
            r@ == self@.review_summary,
    {
        self.review_summary.as_str()
    }

    pub fn files(&self) -> (r: &[FileChange])
        ensures
            r@ == self@.files,
    {
        self.files.as_slice()
    }

    pub fn findings(&self) -> (r: &[Finding])
        ensures
            r@ == self@.findings,
    {
        self.findings.as_slice()
    }

    pub fn selected_file_index(&self) -> (r: usize)
        ensures
            r == self@.selected_file,
            r == 0 || r < self@.files.len(),
    {
        proof {
            use_type_invariant(&*self);
        }
        self.selected_file
    }

    pub fn selected_finding_index(&self) -> (r: usize)
        ensures
            r == self@.selected_finding,
            r == 0 || r < self@.findings.len(),
    {
        proof {
            use_type_invariant(&*self);
        }
        self.selected_finding
    }

    /// The selected file, when there is one.
    pub fn selected_file(&self) -> (r: Option<&FileChange>)
        ensures
            r == (if self@.selected_file < self@.files.len() {
                Some(&self@.files[self@.selected_file as int])
            } else {
                None
            }),
    {
        if self.selected_file < self.files.len() {
            Some(&self.files[self.selected_file])
        } else {
            None
        }
    }

    /// The selected finding, when there is one.
    pub fn selected_finding(&self) -> (r: Option<&Finding>)
        ensures
            r == (if self@.selected_finding < self@.findings.len() {
                Some(&self@.findings[self@.selected_finding as int])
            } else {
                None
            }),
    {
        if self.selected_finding < self.findings.len() {
            Some(&self.findings[self.selected_finding])
        } else {
            None
        }
    }

    /// The diff lines of the selected file.
    pub fn diff_lines(&self) -> (r: &[DiffLine])
        ensures
            line_views(r@) == self@.diff_view(),
    {
        if self.selected_file < self.diffs.len() {
            let d = self.diffs[self.selected_file].as_slice();
            assert(self@.diffs[self.selected_file as int] == line_views(d@));
            d
        } else {
            let empty: &[DiffLine] = &[];
            assert(line_views(empty@) =~= seq![]);
            empty
        }
    }

    /// Whether the file at `index` is marked reviewed.
    pub fn is_file_reviewed(&self, index: usize) -> (r: bool)
        ensures
            r == self@.is_reviewed(index as nat),
    {
        if index < self.files.len() {
            strs_contain(&self.reviewed_files, &self.files[index].path)
        } else {
            false
        }
    }

    /// The number of files marked reviewed.
    pub fn reviewed_file_count(&self) -> (r: usize)
        ensures
            r == self@.reviewed_count(),
            r <= self@.files.len(),
    {
        let mut count: usize = 0;
        let mut i: usize = 0;
        while i < self.files.len()
            invariant
                i <= self.files.len(),
                count == count_reviewed(self.files@.take(i as int), str_set(self.reviewed_files@)),
                count <= i,
            decreases self.files.len() - i,
        {
            assert(self.files@.take(i + 1).drop_last() =~= self.files@.take(i as int));
            if strs_contain(&self.reviewed_files, &self.files[i].path) {
                count = count + 1;
            }
            i = i + 1;
        }
        assert(self.files@.take(i as int) =~= self.files@);
        count
    }

    /// The number of files not marked reviewed.
    pub fn pending_file_count(&self) -> (r: usize)
        ensures
            r == self@.pending_count(),
    {
        let reviewed = self.reviewed_file_count();
        if self.files.len() >= reviewed {
            self.files.len() - reviewed
        } else {
            0
        }
    }

    /// The selected diff line, when it is a line of the selected diff.
    pub fn selected_diff_line_index(&self) -> (r: Option<usize>)
        ensures
            r == (if self@.selected_diff_line < self@.diff_view().len() {
                Some(self@.selected_diff_line as usize)
            } else {
                None
            }),
    {
        if self.selected_diff_line < self.diff_lines().len() {
            Some(self.selected_diff_line)
        } else {
            None
        }
    }

    /// The position (from one) of the selected block of changed lines among
    /// all the blocks of the selected diff, and their number.
    pub fn selected_diff_change_position(&self) -> (r: Option<(usize, usize)>)
        ensures
            r == (match position_of(block_starts(self@.diff_view()), self@.selected_diff_line) {
                Some(p) => Some(((p + 1) as usize, block_starts(self@.diff_view()).len() as usize)),
                None => None,
            }),
    {
        let indices = diff_change_indices(self.diff_lines());
        let ghost starts = block_starts(self@.diff_view());
        let ghost iv = indices@.map_values(|x: usize| x as nat);
        assert(iv == starts);
        let mut k: usize = 0;
        assert(iv.skip(0) =~= iv);
        while k < indices.len()
            invariant
                k <= indices.len(),
                iv == indices@.map_values(|x: usize| x as nat),
                iv == block_starts(self@.diff_view()),
                iv.len() == indices.len(),
                forall|j: int| 0 <= j < k ==> iv[j] != self.selected_diff_line,
                position_of(iv, self.selected_diff_line as nat) == (match position_of(iv.skip(k as int), self.selected_diff_line as nat) {
                    Some(p) => Some((p + k) as nat),
                    None => None::<nat>,
                }),
            decreases indices.len() - k,
        {
            assert(iv.skip(k as int).drop_first() =~= iv.skip(k + 1));
            assert(iv.skip(k as int)[0] == indices@[k as int] as nat);
            if indices[k] == self.selected_diff_line {
                return Some((k + 1, indices.len()));
            }
            k = k + 1;
        }
        None
    }

    /// The range of the block of changed lines around the selected line.
    pub fn selected_diff_change_range(&self) -> (r: Option<core::ops::Range<usize>>)
        ensures
            match r {
                Some(range) => change_range(self@.diff_view(), self@.selected_diff_line as int)
                    == Some((range.start as int, range.end as int)),
                None => change_range(self@.diff_view(), self@.selected_diff_line as int) is None,
            },
    {
        selected_diff_change_range(self.diff_lines(), self.selected_diff_line)
    }

    fn next_index(&self, current: usize, len: usize) -> (r: usize)
        requires
            len == 0 || current < len,
        ensures
            r == next_in(current as nat, len as nat),
    {
        if len == 0 {
            0
        } else {
            (current + 1) % len
        }
    }

    fn previous_index(&self, current: usize, len: usize) -> (r: usize)
        ensures
            r == previous_in(current as nat, len as nat),
    {
        if len == 0 {
            0
        } else if current == 0 {
            len - 1
        } else {
            current - 1
        }
    }

    fn select_file(&mut self, index: usize)
        ensures
            final(self)@ == old(self)@.select_file(index as nat),
    {
        proof {
            use_type_invariant(&*self);
        }
        if index < self.files.len() {
            let line = match first_diff_change_index(self.diffs[index].as_slice()) {
                Some(i) => i,
                None => 0,
            };
            assert(old(self)@.select_file(index as nat).selected_diff_line == line);
            self.selected_file = index;
            self.selected_finding = 0;
            self.selected_diff_line = line;
        }
    }

    fn select_finding(&mut self, index: usize)
        ensures
            final(self)@ == old(self)@.select_finding(index as nat),
    {
        proof {
            use_type_invariant(&*self);
        }
        if index < self.findings.len() {
            self.selected_finding = index;
        }
    }

    fn next_diff_change(&mut self)
        ensures
            final(self)@ == old(self)@.next_change(),
    {
        proof {
            use_type_invariant(&*self);
        }
        let indices = diff_change_indices(self.diff_lines());
        let ghost iv = indices@.map_values(|x: usize| x as nat);
        if indices.len() == 0 {
            self.selected_diff_line = 0;
            return ;
        }
        assert(iv[0] == indices@[0] as nat);
        let sel = self.selected_diff_line;
        let mut k: usize = 0;
        assert(iv.skip(0) =~= iv);
        while k < indices.len()
            invariant
                k <= indices.len(),
                indices.len() > 0,
                iv == indices@.map_values(|x: usize| x as nat),
                iv == block_starts(old(self)@.diff_view()),
                self@ == old(self)@,
                self.inv(),
                sel == self.selected_diff_line,
                first_greater(iv, sel as nat) == first_greater(iv.skip(k as int), sel as nat),
            decreases indices.len() - k,
        {
            assert(iv.skip(k as int).drop_first() =~= iv.skip(k + 1));
            assert(iv.skip(k as int)[0] == indices@[k as int] as nat);
            if indices[k] > sel {
                self.selected_diff_line = indices[k];
                return ;
            }
            k = k + 1;
        }
        self.selected_diff_line = indices[0];
    }

    fn previous_diff_change(&mut self)
        ensures
            final(self)@ == old(self)@.previous_change(),
    {
        proof {
            use_type_invariant(&*self);
        }
        let indices = diff_change_indices(self.diff_lines());
        let ghost iv = indices@.map_values(|x: usize| x as nat);
        if indices.len() == 0 {
            self.selected_diff_line = 0;
            return ;
        }
        assert(iv.last() == indices@[indices.len() - 1] as nat);
        let sel = self.selected_diff_line;
        let mut k: usize = indices.len();
        assert(iv.take(k as int) =~= iv);
        while k > 0
            invariant
                k <= indices.len(),
                indices.len() > 0,
                iv == indices@.map_values(|x: usize| x as nat),
                iv == block_starts(old(self)@.diff_view()),
                self@ == old(self)@,
                self.inv(),
                sel == self.selected_diff_line,
                last_less(iv, sel as nat) == last_less(iv.take(k as int), sel as nat),
            decreases k,
        {
            assert(iv.take(k as int).drop_last() =~= iv.take(k - 1));
            assert(iv.take(k as int).last() == indices@[k - 1] as nat);
            if indices[k - 1] < sel {
                self.selected_diff_line = indices[k - 1];
                return ;
            }
            k = k - 1;
        }
        self.selected_diff_line = indices[indices.len() - 1];
    }

    /// What storing `path`'s new reviewed state needs, if anything.
    fn persist_file_reviewed(&self, path: &String, reviewed: bool) -> (r: Option<PersistRequest>)
        ensures
            request_view(r) == self@.persist_request(path@, reviewed),
    {
        let persistence = match &self.persistence {
            None => return None,
            Some(p) => p,
        };
        let mut i: usize = 0;
        let ghost fs = self@.files;
        assert(fs.skip(0) =~= fs);
        while i < self.files.len()
            invariant
                i <= self.files.len(),
                fs == self.files@,
                self@.persistence == Some(persistence@),
                file_position(fs, path@) == (match file_position(fs.skip(i as int), path@) {
                    Some(p) => Some((p + i) as nat),
                    None => None::<nat>,
                }),
            decreases self.files.len() - i,
        {
            assert(fs.skip(i as int).drop_first() =~= fs.skip(i + 1));
            assert(fs.skip(i as int)[0] == self.files@[i as int]);
            if self.files[i].path == *path {
                if i < persistence.file_hashes.len() {
                    assert(persistence@.file_hashes[i as int] == persistence.file_hashes@[i as int]@);
                    return Some(PersistRequest {
                        review_key: persistence.review_key.clone(),
                        path: path.clone(),
                        diff_hash: persistence.file_hashes[i].clone(),
                        reviewed,
                    });
                } else {
                    return None;
                }
            }
            i = i + 1;
        }
        None
    }

    fn set_reviewed(&mut self, path: &String, reviewed: bool)
        ensures
            final(self)@ == old(self)@.with_reviewed(path@, reviewed),
    {
        proof {
            use_type_invariant(&*self);
        }
        let mut set: Vec<String> = Vec::new();
        core::mem::swap(&mut set, &mut self.reviewed_files);
        if reviewed {
            strs_insert(&mut set, path.clone());
        } else {
            strs_remove(&mut set, path);
        }
        self.reviewed_files = set;
    }

    fn toggle_selected_file_reviewed(&mut self) -> (r: Option<PersistRequest>)
        ensures
            (final(self)@, request_view(r)) == old(self)@.toggle_reviewed(),
    {
        if self.selected_file >= self.files.len() {
            return None;
        }
        let path = self.files[self.selected_file].path.clone();
        let reviewed = !strs_contain(&self.reviewed_files, &path);
        match self.persist_file_reviewed(&path, reviewed) {
            Some(request) => Some(request),
            None => {
                self.set_reviewed(&path, reviewed);
                None
            },
        }
    }

    /// Carries out an action.  Toggling the reviewed state of a file whose
    /// state is stored returns the change to store and leaves the session as
    /// it is until `finish_persist` reports how storing went.
    pub fn apply(&mut self, action: ReviewAction) -> (r: Option<PersistRequest>)
        ensures
            (final(self)@, request_view(r)) == old(self)@.step(action),
    {
        proof {
            use_type_invariant(&*self);
        }
        match action {
            ReviewAction::SelectFile(index) => {
                self.select_file(index);
                None
            },
            ReviewAction::SelectFinding(index) => {
                self.select_finding(index);
                None
            },
            ReviewAction::ToggleSelectedFileReviewed => self.toggle_selected_file_reviewed(),
            ReviewAction::NextDiffChange => {
                self.next_diff_change();
                None
            },
            ReviewAction::PreviousDiffChange => {
                self.previous_diff_change();
                None
            },
            ReviewAction::NextFile => {
                let i = self.next_index(self.selected_file, self.files.len());
                self.select_file(i);
                None
            },
            ReviewAction::PreviousFile => {
                let i = self.previous_index(self.selected_file, self.files.len());
                self.select_file(i);
                None
            },
            ReviewAction::NextFinding => {
                let i = self.next_index(self.selected_finding, self.findings.len());
                self.select_finding(i);
                None
            },
            ReviewAction::PreviousFinding => {
                let i = self.previous_index(self.selected_finding, self.findings.len());
                self.select_finding(i);
                None
            },
        }
    }

    /// Takes the outcome of storing a requested reviewed-state change: the
    /// change is made on success, and the summary reports a failure.
    pub fn finish_persist(&mut self, request: &PersistRequest, outcome: Result<(), String>)
        ensures
            final(self)@ == old(self)@.finish(
                request@,
                match outcome {
                    Ok(()) => Ok(()),
                    Err(e) => Err(e@),
                },
            ),
    {
        proof {
            use_type_invariant(&*self);
        }
        match outcome {
            Ok(()) => self.set_reviewed(&request.path, request.reviewed),
            Err(error) => {
                self.review_summary = concat("Failed to persist reviewed state: ", error.as_str());
            },
        }
    }

    /// The session shown when loading failed: no files, and the error as summary.
    pub fn from_error(error: String) -> (s: Self)
        ensures
            s@.selected_file == 0,
            s@.selected_finding == 0,
            s@.selected_diff_line == 0,
            s@.repo_label == "unknown repo"@,
            s@.review_label == "load error"@,
            s@.backend_label == "not configured"@,
            s@.review_summary == error@,
            s@.files.len() == 0,
            s@.diffs.len() == 0,
            s@.findings.len() == 0,
            s@.reviewed == Set::<Seq<char>>::empty(),
            s@.persistence is None,
    {
        let s = ReviewSession {
            selected_file: 0,
            selected_finding: 0,
            selected_diff_line: 0,
            repo_label: "unknown repo".to_owned(),
            review_label: "load error".to_owned(),
            backend_label: "not configured".to_owned(),
            review_summary: error,
            files: Vec::new(),
            diffs: Vec::new(),
            findings: Vec::new(),
            reviewed_files: Vec::new(),
            persistence: None,
        };
        assert(s@.reviewed =~= Set::<Seq<char>>::empty());
        assert(s@.diffs =~= seq![]);
        s
    }
}

} // verus!
