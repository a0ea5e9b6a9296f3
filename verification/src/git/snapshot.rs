//! The changed files of a repository snapshot: what to review (the working
//! tree or the last commit), per-file line counts from `--numstat` output,
//! and how each file's diff is loaded.
use vstd::prelude::*;

use crate::engine::{lossy_string, utf8_lossy, LineView};
use crate::git::diff::{fallback_diff_for_status, fallback_rows, holds_zero, read_view, line_views, parse_unified_diff, snapshot_diff_readable, snapshot_rows, DiffLine};
use crate::git::status::{
    parse_name_status, parse_porcelain_status, name_status_entry, porcelain_cuttable,
    porcelain_entry, StatusEntry, StatusView, arrow,
};
use crate::order::{lemma_stably_sorted_unique, stable_order, stably_sorted};
use crate::text::{
    char_seqs, chars_of, is_blank, last_piece, last_piece_of, parse_unsigned, parse_usize,
    split_fields, split_lines, string_from_chars, text_fields, text_lines, trim_chars, trimmed,
};
use vstd::string::StringSliceAdditionalSpecFns;
use vstd::utf8::encode_utf8;

verus! {

/// A changed file of the snapshot, with its diff once loaded.
#[derive(Clone, Debug, PartialEq, Eq)]
pub struct FileChange {
    pub path: String,
    pub status: String,
    pub additions: usize,
    pub deletions: usize,
    pub untracked: bool,
    pub diff_lines: Option<Vec<DiffLine>>,
}

/// A changed file without its diff, as characters.
pub struct ChangeView {
    pub path: Seq<char>,
    pub status: Seq<char>,
    pub additions: nat,
    pub deletions: nat,
    pub untracked: bool,
}

pub open spec fn change_view(f: FileChange) -> ChangeView {
    ChangeView {
        path: f.path@,
        status: f.status@,
        additions: f.additions as nat,
        deletions: f.deletions as nat,
        untracked: f.untracked,
    }
}

pub open spec fn change_views(v: Seq<FileChange>) -> Seq<ChangeView> {
    v.map_values(|f: FileChange| change_view(f))
}

/// What a snapshot reviews.
#[derive(Clone, Copy, Debug, PartialEq, Eq, Structural)]
pub enum ReviewMode {
    WorkingTree { has_head: bool },
    LastCommit { has_parent: bool },
    Empty,
}

/// The changed files of a repository and what they are changes of.
#[derive(Clone, Debug, PartialEq, Eq)]
pub struct RepoSnapshot {
    pub root: String,
    pub review_mode: ReviewMode,
    pub files: Vec<FileChange>,
    pub load_error: Option<String>,
}

/// Which changes to review.
#[derive(Clone, Copy, Debug, PartialEq, Eq, Structural)]
pub enum SnapshotKind {
    /// The working tree has changes: review them.
    WorkingTree,
    /// The working tree is clean and there is a commit: review the last one.
    LastCommit,
    /// Nothing to review.
    Empty,
}

pub open spec fn snapshot_kind_of(status_output: Seq<char>, has_head: bool) -> SnapshotKind {
    if trimmed(status_output).len() > 0 {
        SnapshotKind::WorkingTree
    } else if has_head {
        SnapshotKind::LastCommit
    } else {
        SnapshotKind::Empty
    }
}

/// Chooses what to review from the porcelain status output and whether
/// `HEAD` exists.
pub fn snapshot_kind(status_output: &str, has_head: bool) -> (r: SnapshotKind)
    ensures
        r == snapshot_kind_of(status_output@, has_head),
{
    if !is_blank(status_output) {
        SnapshotKind::WorkingTree
    } else if has_head {
        SnapshotKind::LastCommit
    } else {
        SnapshotKind::Empty
    }
}

/// The number of commits from the output of `git rev-list --count`; one
/// when it cannot be read.
pub open spec fn commit_count_of(output: Seq<char>) -> nat {
    match parse_unsigned(trimmed(output)) {
        Some(n) => n,
        None => 1,
    }
}

pub fn commit_count(output: &str) -> (r: usize)
    ensures
        r == commit_count_of(output@),
{
    let cs = chars_of(output);
    let t = trim_chars(cs.as_slice());
    match parse_usize(t.as_slice()) {
        Some(n) => n,
        None => 1,
    }
}

pub open spec fn texts(v: Seq<String>) -> Seq<Seq<char>> {
    v.map_values(|s: String| s@)
}

pub open spec fn str_texts(parts: Seq<&str>) -> Seq<Seq<char>> {
    parts.map_values(|p: &str| p@)
}

fn strings(parts: &[&str]) -> (r: Vec<String>)
    ensures
        texts(r@) == str_texts(parts@),
{
    let mut r: Vec<String> = Vec::new();
    let mut i: usize = 0;
    while i < parts.len()
        invariant
            i <= parts.len(),
            r@.len() == i,
            forall|j: int| 0 <= j < i ==> #[trigger] r@[j]@ == parts@[j]@,
        decreases parts.len() - i,
    {
        r.push(parts[i].to_owned());
        i = i + 1;
    }
    assert(texts(r@) =~= str_texts(parts@));
    r
}

/// The arguments of `git diff` that count the lines of each changed file of
/// the working tree: against `HEAD`, or the index when there is no commit.
pub open spec fn worktree_numstat_args_of(has_head: bool) -> Seq<Seq<char>> {
    if has_head {
        seq!["diff"@, "--no-ext-diff"@, "--find-renames"@, "--numstat"@, "HEAD"@]
    } else {
        seq!["diff"@, "--no-ext-diff"@, "--find-renames"@, "--cached"@, "--numstat"@]
    }
}

pub fn worktree_numstat_args(has_head: bool) -> (r: Vec<String>)
    ensures
        texts(r@) == worktree_numstat_args_of(has_head),
{
    if has_head {
        let a = ["diff", "--no-ext-diff", "--find-renames", "--numstat", "HEAD"];
        let r = strings(&a);
        assert(str_texts(a@) =~= worktree_numstat_args_of(has_head));
        r
    } else {
        let a = ["diff", "--no-ext-diff", "--find-renames", "--cached", "--numstat"];
        let r = strings(&a);
        assert(str_texts(a@) =~= worktree_numstat_args_of(has_head));
        r
    }
}

/// The arguments of `git show` that count the lines of each file of the
/// last commit (`--root` for a first commit).
pub open spec fn last_commit_numstat_args_of(has_parent: bool) -> Seq<Seq<char>> {
    if has_parent {
        seq!["show"@, "--format="@, "--numstat"@, "HEAD"@]
    } else {
        seq!["show"@, "--format="@, "--numstat"@, "--root"@, "HEAD"@]
    }
}

pub fn last_commit_numstat_args(has_parent: bool) -> (r: Vec<String>)
    ensures
        texts(r@) == last_commit_numstat_args_of(has_parent),
{
    if has_parent {
        let a = ["show", "--format=", "--numstat", "HEAD"];
        let r = strings(&a);
        assert(str_texts(a@) =~= last_commit_numstat_args_of(has_parent));
        r
    } else {
        let a = ["show", "--format=", "--numstat", "--root", "HEAD"];
        let r = strings(&a);
        assert(str_texts(a@) =~= last_commit_numstat_args_of(has_parent));
        r
    }
}

/// The arguments of `git show` that list the files of the last commit.
pub open spec fn last_commit_name_status_args_of(has_parent: bool) -> Seq<Seq<char>> {
    if has_parent {
        seq!["show"@, "--format="@, "--name-status"@, "HEAD"@]
    } else {
        seq!["show"@, "--format="@, "--name-status"@, "--root"@, "HEAD"@]
    }
}

pub fn last_commit_name_status_args(has_parent: bool) -> (r: Vec<String>)
    ensures
        texts(r@) == last_commit_name_status_args_of(has_parent),
{
    if has_parent {
        let a = ["show", "--format=", "--name-status", "HEAD"];
        let r = strings(&a);
        assert(str_texts(a@) =~= last_commit_name_status_args_of(has_parent));
        r
    } else {
        let a = ["show", "--format=", "--name-status", "--root", "HEAD"];
        let r = strings(&a);
        assert(str_texts(a@) =~= last_commit_name_status_args_of(has_parent));
        r
    }
}

/// Added and removed line counts of a path.
#[derive(Clone, Debug, PartialEq, Eq)]
pub struct NumStat {
    pub path: String,
    pub additions: usize,
    pub deletions: usize,
}

/// The line counts that a list of distinct paths holds.
pub open spec fn stats_map(v: Seq<NumStat>) -> Map<Seq<char>, (nat, nat)>
    decreases v.len(),
{
    if v.len() == 0 {
        Map::empty()
    } else {
        stats_map(v.drop_last()).insert(
            v.last().path@,
            (v.last().additions as nat, v.last().deletions as nat),
        )
    }
}

pub open spec fn distinct_paths(v: Seq<NumStat>) -> bool {
    forall|i: int, j: int| 0 <= i < j < v.len() ==> #[trigger] v[i].path@ != #[trigger] v[j].path@
}

proof fn lemma_stats_map_index(v: Seq<NumStat>)
    requires
        distinct_paths(v),
    ensures
        forall|i: int|
            0 <= i < v.len() ==> #[trigger] stats_map(v).contains_key(v[i].path@) && stats_map(
                v,
            )[v[i].path@] == (v[i].additions as nat, v[i].deletions as nat),
        forall|p: Seq<char>|
            #[trigger] stats_map(v).contains_key(p) ==> exists|i: int|
                0 <= i < v.len() && #[trigger] v[i].path@ == p,
    decreases v.len(),
{
    if v.len() > 0 {
        let w = v.drop_last();
        let n = v.len() - 1;
        assert(distinct_paths(w)) by {
            assert forall|i: int, j: int| 0 <= i < j < w.len() implies #[trigger] w[i].path@
                != #[trigger] w[j].path@ by {
                assert(w[i] == v[i] && w[j] == v[j]);
            }
        }
        lemma_stats_map_index(w);
        assert(stats_map(v) == stats_map(w).insert(
            v[n].path@,
            (v[n].additions as nat, v[n].deletions as nat),
        ));
        assert forall|i: int| 0 <= i < v.len() implies #[trigger] stats_map(v).contains_key(
            v[i].path@,
        ) && stats_map(v)[v[i].path@] == (v[i].additions as nat, v[i].deletions as nat) by {
            if i < n {
                assert(w[i] == v[i]);
                assert(stats_map(w).contains_key(w[i].path@));
                assert(v[i].path@ != v[n].path@);
            }
        }
        assert forall|p: Seq<char>| #[trigger] stats_map(v).contains_key(p) implies exists|i: int|
            0 <= i < v.len() && #[trigger] v[i].path@ == p by {
            if p == v[n].path@ {
                assert(v[n].path@ == p);
            } else {
                assert(stats_map(w).contains_key(p));
                let i = choose|i: int| 0 <= i < w.len() && #[trigger] w[i].path@ == p;
                assert(v[i] == w[i]);
            }
        }
    }
}

proof fn lemma_stats_map_ext(a: Seq<NumStat>, b: Seq<NumStat>, m: Map<Seq<char>, (nat, nat)>)
    requires
        distinct_paths(b),
        forall|i: int|
            0 <= i < b.len() ==> #[trigger] m.contains_key(b[i].path@) && m[b[i].path@] == (
                b[i].additions as nat,
                b[i].deletions as nat,
            ),
        forall|p: Seq<char>| #[trigger] m.contains_key(p) ==> exists|i: int| 0 <= i < b.len() && #[trigger] b[i].path@ == p,
    ensures
        stats_map(b) == m,
{
    lemma_stats_map_index(b);
    assert(stats_map(b) =~= m) by {
        assert forall|p: Seq<char>| #[trigger] stats_map(b).contains_key(p) <==> m.contains_key(p) by {
            if m.contains_key(p) {
                let i = choose|i: int| 0 <= i < b.len() && #[trigger] b[i].path@ == p;
            }
            if stats_map(b).contains_key(p) {
                let i = choose|i: int| 0 <= i < b.len() && #[trigger] b[i].path@ == p;
            }
        }
        assert forall|p: Seq<char>| #[trigger] stats_map(b).contains_key(p) implies stats_map(b)[p] == m[p] by {
            let i = choose|i: int| 0 <= i < b.len() && #[trigger] b[i].path@ == p;
        }
    }
}

/// Setting the counts of a path that a list holds.
proof fn lemma_stats_update(old: Seq<NumStat>, new: Seq<NumStat>, k: int)
    requires
        distinct_paths(old),
        0 <= k < old.len(),
        new.len() == old.len(),
        new[k].path@ == old[k].path@,
        forall|j: int| 0 <= j < old.len() && j != k ==> #[trigger] new[j] == old[j],
    ensures
        distinct_paths(new),
        stats_map(new) == stats_map(old).insert(
            new[k].path@,
            (new[k].additions as nat, new[k].deletions as nat),
        ),
{
    lemma_stats_map_index(old);
    let m = stats_map(old);
    let target = m.insert(new[k].path@, (new[k].additions as nat, new[k].deletions as nat));
    assert(distinct_paths(new)) by {
        assert forall|x: int, y: int| 0 <= x < y < new.len() implies #[trigger] new[x].path@
            != #[trigger] new[y].path@ by {
            if x != k {
                assert(new[x] == old[x]);
            }
            if y != k {
                assert(new[y] == old[y]);
            }
        }
    }
    assert forall|j: int| 0 <= j < new.len() implies #[trigger] target.contains_key(new[j].path@)
        && target[new[j].path@] == (new[j].additions as nat, new[j].deletions as nat) by {
        if j != k {
            assert(new[j] == old[j]);
            assert(old[j].path@ != old[k].path@);
            assert(m.contains_key(old[j].path@));
        }
    }
    assert forall|p: Seq<char>| #[trigger] target.contains_key(p) implies exists|j: int|
        0 <= j < new.len() && #[trigger] new[j].path@ == p by {
        if p == new[k].path@ {
            assert(new[k].path@ == p);
        } else {
            assert(m.contains_key(p));
            let j = choose|j: int| 0 <= j < old.len() && #[trigger] old[j].path@ == p;
            assert(new[j] == old[j]);
        }
    }
    lemma_stats_map_ext(new, new, target);
}

/// Appending the counts of a path that a list does not hold.
proof fn lemma_stats_push(old: Seq<NumStat>, s: NumStat)
    requires
        distinct_paths(old),
        forall|j: int| 0 <= j < old.len() ==> #[trigger] old[j].path@ != s.path@,
    ensures
        distinct_paths(old.push(s)),
        stats_map(old.push(s)) == stats_map(old).insert(s.path@, (s.additions as nat, s.deletions as nat)),
        !stats_map(old).contains_key(s.path@),
{
    let new = old.push(s);
    assert(new.drop_last() =~= old);
    lemma_stats_map_index(old);
    if stats_map(old).contains_key(s.path@) {
        let j = choose|j: int| 0 <= j < old.len() && #[trigger] old[j].path@ == s.path@;
        assert(old[j].path@ != s.path@);
    }
    assert(distinct_paths(new)) by {
        assert forall|x: int, y: int| 0 <= x < y < new.len() implies #[trigger] new[x].path@
            != #[trigger] new[y].path@ by {
            assert(new[x] == old[x]);
            if y < old.len() {
                assert(new[y] == old[y]);
            }
        }
    }
}

pub open spec fn count_of(value: Seq<char>) -> nat {
    match parse_unsigned(value) {
        Some(n) => n,
        None => 0,
    }
}

/// The path and line counts of a line of `--numstat` output: tab fields
/// added, removed and path (the part after the last ` -> ` for renames);
/// counts that are not numbers (binary files) are zero; lines without a
/// path give none.
pub open spec fn numstat_line(line: Seq<char>) -> Option<(Seq<char>, (nat, nat))> {
    let f = text_fields(line, '\t');
    let additions = f[0];
    let deletions = if f.len() > 1 {
        f[1]
    } else {
        seq![]
    };
    let path = trimmed(
        if f.len() > 2 {
            f[2]
        } else {
            seq![]
        },
    );
    if path.len() == 0 {
        None
    } else {
        Some((last_piece(path, arrow()), (count_of(additions), count_of(deletions))))
    }
}

/// Adds up the line counts of each path over lines of `--numstat` output.
pub open spec fn numstat_fold(lines: Seq<Seq<char>>, m: Map<Seq<char>, (nat, nat)>) -> Map<
    Seq<char>,
    (nat, nat),
>
    decreases lines.len(),
{
    if lines.len() == 0 {
        m
    } else {
        let next = match numstat_line(lines[0]) {
            None => m,
            Some((p, (a, d))) => m.insert(
                p,
                if m.contains_key(p) {
                    (m[p].0 + a, m[p].1 + d)
                } else {
                    (a, d)
                },
            ),
        };
        numstat_fold(lines.drop_first(), next)
    }
}

/// The sums of `numstat_fold` stay within `usize`.
pub open spec fn numstat_fits(lines: Seq<Seq<char>>, m: Map<Seq<char>, (nat, nat)>) -> bool
    decreases lines.len(),
{
    if lines.len() == 0 {
        true
    } else {
        match numstat_line(lines[0]) {
            None => numstat_fits(lines.drop_first(), m),
            Some((p, (a, d))) => {
                let v = if m.contains_key(p) {
                    (m[p].0 + a, m[p].1 + d)
                } else {
                    (a, d)
                };
                v.0 <= usize::MAX && v.1 <= usize::MAX && numstat_fits(
                    lines.drop_first(),
                    m.insert(p, v),
                )
            },
        }
    }
}

fn count_value(v: &[char]) -> (r: usize)
    ensures
        r == count_of(v@),
{
    match parse_usize(v) {
        Some(n) => n,
        None => 0,
    }
}

fn arrow_text() -> (r: Vec<char>)
    ensures
        r@ == arrow(),
{
    let mut v: Vec<char> = Vec::new();
    v.push(' ');
    v.push('-');
    v.push('>');
    v.push(' ');
    assert(v@ =~= arrow());
    v
}

fn read_numstat_line(line: &[char]) -> (r: Option<(Vec<char>, usize, usize)>)
    ensures
        match r {
            Some((p, a, d)) => numstat_line(line@) == Some((p@, (a as nat, d as nat))),
            None => numstat_line(line@) is None,
        },
{
    let fields = split_fields(line, '\t');
    let ghost f = char_seqs(fields@);
    assert(f[0] == fields@[0]@);
    let empty: Vec<char> = Vec::new();
    let additions = count_value(fields[0].as_slice());
    let deletions = if fields.len() > 1 {
        assert(f[1] == fields@[1]@);
        count_value(fields[1].as_slice())
    } else {
        count_value(empty.as_slice())
    };
    let path = if fields.len() > 2 {
        assert(f[2] == fields@[2]@);
        trim_chars(fields[2].as_slice())
    } else {
        trim_chars(empty.as_slice())
    };
    assert(empty@ =~= seq![]);
    if path.len() == 0 {
        None
    } else {
        let a = arrow_text();
        Some((last_piece_of(path.as_slice(), a.as_slice()), additions, deletions))
    }
}

/// Reads `--numstat` output into line counts per path, summing the counts
/// of a path that occurs more than once; `None` when a sum does not fit in
/// `usize`.
pub fn parse_numstat_output(output: &str) -> (r: Option<Vec<NumStat>>)
    ensures
        match r {
            Some(stats) => {
                &&& numstat_fits(text_lines(output@), Map::empty())
                &&& distinct_paths(stats@)
                &&& stats_map(stats@) == numstat_fold(text_lines(output@), Map::empty())
            },
            None => !numstat_fits(text_lines(output@), Map::empty()),
        },
{
    let cs = chars_of(output);
    let lines = split_lines(cs.as_slice());
    let ghost all = char_seqs(lines@);
    let mut stats: Vec<NumStat> = Vec::new();
    let mut i: usize = 0;
    assert(all.skip(0) =~= all);
    assert(stats_map(stats@) =~= Map::empty());
    while i < lines.len()
        invariant
            i <= lines.len(),
            all == char_seqs(lines@),
            all == text_lines(output@),
            distinct_paths(stats@),
            numstat_fold(all.skip(i as int), stats_map(stats@)) == numstat_fold(all, Map::empty()),
            numstat_fits(all, Map::empty()) == numstat_fits(all.skip(i as int), stats_map(stats@)),
        decreases lines.len() - i,
    {
        let ghost rest = all.skip(i as int);
        assert(rest.drop_first() =~= all.skip(i + 1));
        assert(rest[0] == lines@[i as int]@);
        proof {
            lemma_stats_map_index(stats@);
        }
        match read_numstat_line(lines[i].as_slice()) {
            None => {},
            Some((path_chars, additions, deletions)) => {
                let path = string_from_chars(path_chars.as_slice());
                let ghost m = stats_map(stats@);
                let mut k: usize = 0;
                while k < stats.len()
                    invariant
                        k <= stats.len(),
                        forall|j: int| 0 <= j < k ==> stats@[j].path@ != path@,
                    ensures
                        k <= stats.len(),
                        forall|j: int| 0 <= j < k ==> stats@[j].path@ != path@,
                        k < stats.len() ==> stats@[k as int].path@ == path@,
                    decreases stats.len() - k,
                {
                    if stats[k].path == path {
                        break;
                    }
                    k = k + 1;
                }
                if k < stats.len() && stats[k].path == path {
                    let ghost old_stats = stats@;
                    let na = match stats[k].additions.checked_add(additions) {
                        Some(v) => v,
                        None => return None,
                    };
                    let nd = match stats[k].deletions.checked_add(deletions) {
                        Some(v) => v,
                        None => return None,
                    };
                    let ghost p = path@;
                    stats.set(k, NumStat { path, additions: na, deletions: nd });
                    proof {
                        lemma_stats_update(old_stats, stats@, k as int);
                    }
                } else {
                    let ghost old_stats = stats@;
                    let s = NumStat { path, additions, deletions };
                    stats.push(s);
                    proof {
                        lemma_stats_push(old_stats, s);
                    }
                }
            },
        }
        i = i + 1;
    }
    assert(all.skip(i as int) =~= seq![]);
    Some(stats)
}

/// Every line of `git status --porcelain` output can be cut as reading it
/// does.
pub open spec fn porcelain_output_cuttable(output: Seq<char>) -> bool {
    forall|i: int|
        0 <= i < text_lines(output).len() ==> porcelain_cuttable(
            encode_utf8(#[trigger] text_lines(output)[i]),
        )
}

/// The entries of the status lines, in order, skipping lines that give none.
pub open spec fn porcelain_entries_of(lines: Seq<Seq<char>>) -> Seq<StatusView>
    decreases lines.len(),
{
    if lines.len() == 0 {
        seq![]
    } else {
        let rest = porcelain_entries_of(lines.drop_last());
        match porcelain_entry(encode_utf8(lines.last())) {
            Some(e) => rest.push(e),
            None => rest,
        }
    }
}

pub open spec fn status_views(v: Seq<StatusEntry>) -> Seq<StatusView> {
    v.map_values(|e: StatusEntry| e@)
}

/// The entries of `git status --porcelain=v1` output; `None` when a line
/// cannot be cut after its second and third bytes.
pub fn porcelain_entries(output: &str) -> (r: Option<Vec<StatusEntry>>)
    ensures
        match r {
            Some(v) => porcelain_output_cuttable(output@) && status_views(v@) == porcelain_entries_of(
                text_lines(output@),
            ),
            None => !porcelain_output_cuttable(output@),
        },
{
    let cs = chars_of(output);
    let lines = split_lines(cs.as_slice());
    let ghost all = char_seqs(lines@);
    let mut entries: Vec<StatusEntry> = Vec::new();
    let mut i: usize = 0;
    while i < lines.len()
        invariant
            i <= lines.len(),
            all == char_seqs(lines@),
            all == text_lines(output@),
            forall|j: int| 0 <= j < i ==> porcelain_cuttable(encode_utf8(#[trigger] all[j])),
            status_views(entries@) == porcelain_entries_of(all.take(i as int)),
        decreases lines.len() - i,
    {
        let line = string_from_chars(lines[i].as_slice());
        assert(all[i as int] == line@);
        let text = line.as_str();
        proof {
            assert(text.spec_bytes() == encode_utf8(line@)) by {
                broadcast use vstd::utf8::encode_utf8_decode_utf8;
            }
        }
        assert(text@ == all[i as int]);
        let cuttable = text.as_bytes().len() < 4 || (text.is_char_boundary(2) && text.is_char_boundary(3));
        assert(cuttable == porcelain_cuttable(encode_utf8(text@)));
        if !cuttable {
            assert(!porcelain_cuttable(encode_utf8(all[i as int])));
            return None;
        }
        let ghost before = entries@;
        assert(all.take(i + 1).drop_last() =~= all.take(i as int));
        assert(all.take(i + 1).last() == all[i as int]);
        match parse_porcelain_status(text) {
            Some(e) => {
                entries.push(e);
                assert(status_views(entries@) =~= status_views(before).push(e@));
            },
            None => {},
        }
        i = i + 1;
    }
    assert(all.take(i as int) =~= all);
    Some(entries)
}

/// The line counts of an untracked file from its bytes (`None` when it could
/// not be read): none for unreadable files and files holding a zero byte,
/// else its number of text lines as added lines.
pub open spec fn untracked_counts_of(read: Option<Seq<u8>>) -> (nat, nat) {
    match read {
        None => (0, 0),
        Some(b) => if b.contains(0u8) {
            (0, 0)
        } else {
            (text_lines(utf8_lossy(b)).len(), 0)
        },
    }
}

/// Counts the lines of an untracked file from the result of reading it.
pub fn count_untracked_file_stats(read: Option<Vec<u8>>) -> (r: (usize, usize))
    ensures
        (r.0 as nat, r.1 as nat) == untracked_counts_of(
            match read {
                Some(b) => Some(b@),
                None => None,
            },
        ),
{
    match read {
        None => (0, 0),
        Some(bytes) => {
            if holds_zero(bytes.as_slice()) {
                (0, 0)
            } else {
                let contents = lossy_string(bytes.as_slice());
                let cs = chars_of(contents.as_str());
                let lines = split_lines(cs.as_slice());
                assert(char_seqs(lines@).len() == lines.len());
                (lines.len(), 0)
            }
        },
    }
}

pub open spec fn change_paths(v: Seq<ChangeView>) -> Seq<Seq<char>> {
    v.map_values(|c: ChangeView| c.path)
}

pub open spec fn reordered(rows: Seq<ChangeView>, perm: Seq<usize>) -> Seq<ChangeView> {
    Seq::new(perm.len(), |k: int| rows[perm[k] as int])
}

/// `out` is `rows` sorted by path, rows with equal paths in their order.
pub open spec fn sorted_by_path(rows: Seq<ChangeView>, out: Seq<ChangeView>) -> bool {
    exists|perm: Seq<usize>| #[trigger]
        stably_sorted(change_paths(rows), perm) && out == reordered(rows, perm)
}

/// Sorting changes by path gives one result: two lists that both sort the
/// same changes stably by path are equal.
pub proof fn lemma_sorted_by_path_unique(rows: Seq<ChangeView>, a: Seq<ChangeView>, b: Seq<ChangeView>)
    requires
        sorted_by_path(rows, a),
        sorted_by_path(rows, b),
    ensures
        a == b,
{
    let p = choose|perm: Seq<usize>| #[trigger]
        stably_sorted(change_paths(rows), perm) && a == reordered(rows, perm);
    let q = choose|perm: Seq<usize>| #[trigger]
        stably_sorted(change_paths(rows), perm) && b == reordered(rows, perm);
    lemma_stably_sorted_unique(change_paths(rows), p, q);
}

/// The changes sorted by path (a stable sort), without diffs.
fn sort_changes(files: &Vec<FileChange>) -> (r: Vec<FileChange>)
    ensures
        sorted_by_path(change_views(files@), change_views(r@)),
        forall|k: int| 0 <= k < r@.len() ==> (#[trigger] r@[k]).diff_lines is None,
{
    let ghost rows = change_views(files@);
    let mut keys: Vec<Vec<char>> = Vec::new();
    let mut i: usize = 0;
    while i < files.len()
        invariant
            i <= files.len(),
            rows == change_views(files@),
            char_seqs(keys@) == change_paths(rows).take(i as int),
        decreases files.len() - i,
    {
        let key = chars_of(files[i].path.as_str());
        assert(key@ == rows[i as int].path);
        let ghost before = keys@;
        keys.push(key);
        assert(char_seqs(keys@) =~= char_seqs(before).push(key@));
        assert(char_seqs(keys@) =~= change_paths(rows).take(i + 1));
        i = i + 1;
    }
    assert(change_paths(rows).take(i as int) =~= change_paths(rows));
    let perm = stable_order(&keys);
    let mut out: Vec<FileChange> = Vec::new();
    let mut k: usize = 0;
    while k < perm.len()
        invariant
            k <= perm.len(),
            rows == change_views(files@),
            stably_sorted(change_paths(rows), perm@),
            change_views(out@) == reordered(rows, perm@).take(k as int),
            forall|j: int| 0 <= j < out@.len() ==> (#[trigger] out@[j]).diff_lines is None,
        decreases perm.len() - k,
    {
        let idx = perm[k];
        assert(perm@[k as int] < rows.len());
        let f = &files[idx];
        let c = FileChange {
            path: f.path.clone(),
            status: f.status.clone(),
            additions: f.additions,
            deletions: f.deletions,
            untracked: f.untracked,
            diff_lines: None,
        };
        let ghost before = out@;
        out.push(c);
        assert(change_views(out@) =~= reordered(rows, perm@).take(k + 1)) by {
            assert(change_views(out@) =~= change_views(before).push(change_view(c)));
        }
        k = k + 1;
    }
    assert(reordered(rows, perm@).take(k as int) =~= reordered(rows, perm@));
    assert(stably_sorted(change_paths(rows), perm@) && change_views(out@) == reordered(rows, perm@));
    out
}

pub open spec fn count_views(v: Seq<(usize, usize)>) -> Seq<(nat, nat)> {
    v.map_values(|c: (usize, usize)| (c.0 as nat, c.1 as nat))
}

/// The changes of the working tree in status order: each entry takes the
/// line counts of its path from `stats` and removes them there, so a later
/// entry of the same path does not take them again; an entry whose path has
/// none takes its count from `counts` when it is untracked, else zero.
pub open spec fn worktree_rows(
    entries: Seq<StatusView>,
    stats: Map<Seq<char>, (nat, nat)>,
    counts: Seq<(nat, nat)>,
) -> Seq<ChangeView>
    decreases entries.len(),
{
    if entries.len() == 0 {
        seq![]
    } else {
        let e = entries[0];
        let c = if stats.contains_key(e.path) {
            stats[e.path]
        } else if e.untracked {
            counts[0]
        } else {
            (0, 0)
        };
        seq![
            ChangeView {
                path: e.path,
                status: e.status,
                additions: c.0,
                deletions: c.1,
                untracked: e.untracked,
            },
        ] + worktree_rows(entries.drop_first(), stats.remove(e.path), counts.drop_first())
    }
}

/// The position of `path` among the paths of `stats`, if it is there.
fn find_stat(stats: &Vec<NumStat>, path: &String) -> (r: Option<usize>)
    requires
        distinct_paths(stats@),
    ensures
        match r {
            Some(k) => k < stats@.len() && stats@[k as int].path@ == path@,
            None => forall|j: int| 0 <= j < stats@.len() ==> #[trigger] stats@[j].path@ != path@,
        },
{
    let mut k: usize = 0;
    while k < stats.len()
        invariant
            k <= stats.len(),
            forall|j: int| 0 <= j < k ==> #[trigger] stats@[j].path@ != path@,
        decreases stats.len() - k,
    {
        if stats[k].path == *path {
            return Some(k);
        }
        k = k + 1;
    }
    None
}

/// The changed files of the working tree from its status entries, the line
/// counts of `git diff --numstat` and, for each entry, the counts of the
/// file when it is untracked; sorted by path.
pub fn worktree_changes(
    entries: &Vec<StatusEntry>,
    stats: &Vec<NumStat>,
    untracked_counts: &Vec<(usize, usize)>,
) -> (r: Vec<FileChange>)
    requires
        distinct_paths(stats@),
        untracked_counts@.len() == entries@.len(),
    ensures
        sorted_by_path(
            worktree_rows(status_views(entries@), stats_map(stats@), count_views(untracked_counts@)),
            change_views(r@),
        ),
        forall|k: int| 0 <= k < r@.len() ==> (#[trigger] r@[k]).diff_lines is None,
{
    let ghost es = status_views(entries@);
    let ghost cs = count_views(untracked_counts@);
    let ghost full = worktree_rows(es, stats_map(stats@), cs);
    let ghost mut m = stats_map(stats@);
    proof {
        lemma_stats_map_index(stats@);
    }
    let mut used: Vec<bool> = Vec::new();
    let mut z: usize = 0;
    while z < stats.len()
        invariant
            z <= stats.len(),
            used@.len() == z,
            forall|j: int| 0 <= j < z ==> !#[trigger] used@[j],
        decreases stats.len() - z,
    {
        used.push(false);
        z = z + 1;
    }
    assert forall|j: int| 0 <= j < stats@.len() implies m.contains_key(#[trigger] stats@[j].path@)
        && m[stats@[j].path@] == (stats@[j].additions as nat, stats@[j].deletions as nat) by {
        assert(stats_map(stats@).contains_key(stats@[j].path@));
    }
    assert forall|p: Seq<char>| #[trigger] m.contains_key(p) implies exists|j: int|
        0 <= j < stats@.len() && !used@[j] && #[trigger] stats@[j].path@ == p by {
        assert(stats_map(stats@).contains_key(p));
        let j = choose|j: int| 0 <= j < stats@.len() && #[trigger] stats@[j].path@ == p;
        assert(!used@[j]);
    }
    let mut files: Vec<FileChange> = Vec::new();
    let mut i: usize = 0;
    assert(es.skip(0) =~= es);
    assert(cs.skip(0) =~= cs);
    assert(change_views(files@) =~= seq![]);
    while i < entries.len()
        invariant
            i <= entries.len(),
            es == status_views(entries@),
            cs == count_views(untracked_counts@),
            untracked_counts@.len() == entries@.len(),
            distinct_paths(stats@),
            used@.len() == stats@.len(),
            full == worktree_rows(es, stats_map(stats@), cs),
            change_views(files@) + worktree_rows(es.skip(i as int), m, cs.skip(i as int)) == full,
            forall|j: int|
                0 <= j < stats@.len() ==> (!#[trigger] used@[j] ==> m.contains_key(stats@[j].path@)
                    && m[stats@[j].path@] == (stats@[j].additions as nat, stats@[j].deletions as nat)),
            forall|j: int|
                0 <= j < stats@.len() ==> (#[trigger] used@[j] ==> !m.contains_key(stats@[j].path@)),
            forall|p: Seq<char>|
                #[trigger] m.contains_key(p) ==> exists|j: int|
                    0 <= j < stats@.len() && !used@[j] && #[trigger] stats@[j].path@ == p,
        decreases entries.len() - i,
    {
        let e = &entries[i];
        let ghost ev = e@;
        let ghost rest = es.skip(i as int);
        assert(rest[0] == ev);
        assert(rest.drop_first() =~= es.skip(i + 1));
        assert(cs.skip(i as int)[0] == cs[i as int]);
        assert(cs.skip(i as int).drop_first() =~= cs.skip(i + 1));
        let ghost m0 = m;
        let found = find_stat(stats, &e.path);
        let (additions, deletions) = match found {
            Some(k) => {
                if !used[k] {
                    let c = (stats[k].additions, stats[k].deletions);
                    used.set(k, true);
                    proof {
                        m = m.remove(ev.path);
                        assert forall|j: int| 0 <= j < stats@.len() && j != k implies stats@[j].path@
                            != ev.path by {
                            assert(stats@[j].path@ != stats@[k as int].path@);
                        }
                    }
                    c
                } else {
                    assert(!m.contains_key(ev.path));
                    if e.untracked {
                        untracked_counts[i]
                    } else {
                        (0, 0)
                    }
                }
            },
            None => {
                assert(!m.contains_key(ev.path)) by {
                    if m.contains_key(ev.path) {
                        let j = choose|j: int|
                            0 <= j < stats@.len() && !used@[j] && #[trigger] stats@[j].path@ == ev.path;
                    }
                }
                if e.untracked {
                    untracked_counts[i]
                } else {
                    (0, 0)
                }
            },
        };
        proof {
            if !m0.contains_key(ev.path) {
                assert(m0.remove(ev.path) =~= m0);
                assert(m == m0);
            }
        }
        let c = FileChange {
            path: e.path.clone(),
            status: e.status.clone(),
            additions,
            deletions,
            untracked: e.untracked,
            diff_lines: None,
        };
        let ghost before = files@;
        files.push(c);
        assert(change_views(files@) =~= change_views(before).push(change_view(c)));
        assert(worktree_rows(rest, m0, cs.skip(i as int)) == seq![change_view(c)] + worktree_rows(
            es.skip(i + 1),
            m,
            cs.skip(i + 1),
        ));
        assert(change_views(files@) + worktree_rows(es.skip(i + 1), m, cs.skip(i + 1)) =~= change_views(
            before,
        ) + worktree_rows(rest, m0, cs.skip(i as int)));
        i = i + 1;
    }
    assert(es.skip(i as int) =~= seq![]);
    assert(change_views(files@) =~= full);
    sort_changes(&files)
}

/// The changes of the last commit in `--name-status` order: each line that
/// gives an entry gives a change with the line counts of its path in
/// `stats`, zero when it has none.
pub open spec fn commit_rows(lines: Seq<Seq<char>>, stats: Map<Seq<char>, (nat, nat)>) -> Seq<
    ChangeView,
>
    decreases lines.len(),
{
    if lines.len() == 0 {
        seq![]
    } else {
        let rest = commit_rows(lines.drop_first(), stats);
        match name_status_entry(lines[0]) {
            None => rest,
            Some(e) => {
                let c = if stats.contains_key(e.path) {
                    stats[e.path]
                } else {
                    (0, 0)
                };
                seq![
                    ChangeView {
                        path: e.path,
                        status: e.status,
                        additions: c.0,
                        deletions: c.1,
                        untracked: false,
                    },
                ] + rest
            },
        }
    }
}

/// The changed files of the last commit from `git show --name-status`
/// output and the line counts of `git show --numstat`; sorted by path.
pub fn last_commit_changes(name_status_output: &str, stats: &Vec<NumStat>) -> (r: Vec<FileChange>)
    requires
        distinct_paths(stats@),
    ensures
        sorted_by_path(
            commit_rows(text_lines(name_status_output@), stats_map(stats@)),
            change_views(r@),
        ),
        forall|k: int| 0 <= k < r@.len() ==> (#[trigger] r@[k]).diff_lines is None,
{
    proof {
        lemma_stats_map_index(stats@);
        assert forall|j: int| 0 <= j < stats@.len() implies stats_map(stats@)[#[trigger] stats@[j].path@]
            == (stats@[j].additions as nat, stats@[j].deletions as nat) by {
            assert(stats_map(stats@).contains_key(stats@[j].path@));
        }
    }
    let cs = chars_of(name_status_output);
    let lines = split_lines(cs.as_slice());
    let ghost all = char_seqs(lines@);
    let ghost full = commit_rows(all, stats_map(stats@));
    let mut files: Vec<FileChange> = Vec::new();
    let mut i: usize = 0;
    assert(all.skip(0) =~= all);
    assert(change_views(files@) =~= seq![]);
    while i < lines.len()
        invariant
            i <= lines.len(),
            all == char_seqs(lines@),
            all == text_lines(name_status_output@),
            distinct_paths(stats@),
            full == commit_rows(all, stats_map(stats@)),
            change_views(files@) + commit_rows(all.skip(i as int), stats_map(stats@)) == full,
            forall|j: int|
                0 <= j < stats@.len() ==> #[trigger] stats_map(stats@).contains_key(stats@[j].path@) && stats_map(stats@)[stats@[j].path@]
                    == (stats@[j].additions as nat, stats@[j].deletions as nat),
            forall|p: Seq<char>|
                #[trigger] stats_map(stats@).contains_key(p) ==> exists|j: int|
                    0 <= j < stats@.len() && #[trigger] stats@[j].path@ == p,
        decreases lines.len() - i,
    {
        let line = string_from_chars(lines[i].as_slice());
        assert(all[i as int] == line@);
        let ghost rest = all.skip(i as int);
        assert(rest[0] == line@);
        assert(rest.drop_first() =~= all.skip(i + 1));
        let ghost before = files@;
        match parse_name_status(line.as_str()) {
            None => {},
            Some(e) => {
                let (additions, deletions) = match find_stat(stats, &e.path) {
                    Some(k) => (stats[k].additions, stats[k].deletions),
                    None => {
                        assert(!stats_map(stats@).contains_key(e.path@)) by {
                            if stats_map(stats@).contains_key(e.path@) {
                                let j = choose|j: int|
                                    0 <= j < stats@.len() && #[trigger] stats@[j].path@ == e.path@;
                            }
                        }
                        (0, 0)
                    },
                };
                let c = FileChange {
                    path: e.path,
                    status: e.status,
                    additions,
                    deletions,
                    untracked: false,
                    diff_lines: None,
                };
                files.push(c);
                assert(change_views(files@) =~= change_views(before).push(change_view(c)));
            },
        }
        assert(change_views(files@) + commit_rows(all.skip(i + 1), stats_map(stats@)) =~= change_views(before)
            + commit_rows(rest, stats_map(stats@)));
        i = i + 1;
    }
    assert(all.skip(i as int) =~= seq![]);
    assert(change_views(files@) =~= full);
    sort_changes(&files)
}

/// Where the diff of a changed file comes from.
pub enum DiffSource {
    /// The file is untracked: read it and show it as added.
    UntrackedFile,
    /// Run git with `args`; when that fails and `retry` is there, run git
    /// with `retry` instead.
    Git { args: Vec<String>, retry: Option<Vec<String>> },
    /// There is nothing to diff against.
    NoDiff,
}

/// The arguments of `git diff` for a file's staged changes.
pub open spec fn cached_diff_args(path: Seq<char>) -> Seq<Seq<char>> {
    seq!["diff"@, "--no-ext-diff"@, "--find-renames"@, "--cached"@, "--unified=3"@, "--"@, path]
}

/// The git arguments that give a file's diff in a review mode with commits.
pub open spec fn diff_args_of(mode: ReviewMode, path: Seq<char>) -> Seq<Seq<char>> {
    match mode {
        ReviewMode::WorkingTree { has_head } => if has_head {
            seq!["diff"@, "--no-ext-diff"@, "--find-renames"@, "--unified=3"@, "HEAD"@, "--"@, path]
        } else {
            cached_diff_args(path)
        },
        ReviewMode::LastCommit { has_parent } => if has_parent {
            seq!["show"@, "--format="@, "--unified=3"@, "HEAD"@, "--"@, path]
        } else {
            seq!["show"@, "--format="@, "--unified=3"@, "--root"@, "HEAD"@, "--"@, path]
        },
        ReviewMode::Empty => seq![],
    }
}

fn args_with_path(parts: &[&str], path: &str) -> (r: Vec<String>)
    ensures
        texts(r@) == str_texts(parts@).push(path@),
{
    let mut r = strings(parts);
    let ghost before = r@;
    r.push(path.to_owned());
    assert(texts(r@) =~= texts(before).push(path@));
    r
}

/// Where the diff of a file comes from: untracked files are read, the
/// working tree is diffed against `HEAD` (against the index when that
/// fails or there is no commit), the last commit is shown, and an empty
/// snapshot has no diff.
pub fn diff_source(mode: ReviewMode, path: &str, untracked: bool) -> (r: DiffSource)
    ensures
        match r {
            DiffSource::UntrackedFile => untracked,
            DiffSource::Git { args, retry } => {
                &&& !untracked
                &&& !(mode is Empty)
                &&& texts(args@) == diff_args_of(mode, path@)
                &&& match retry {
                    Some(a) => mode == (ReviewMode::WorkingTree { has_head: true }) && texts(a@)
                        == cached_diff_args(path@),
                    None => mode != (ReviewMode::WorkingTree { has_head: true }),
                }
            },
            DiffSource::NoDiff => !untracked && mode is Empty,
        },
{
    if untracked {
        return DiffSource::UntrackedFile;
    }
    match mode {
        ReviewMode::WorkingTree { has_head } => {
            let cached = ["diff", "--no-ext-diff", "--find-renames", "--cached", "--unified=3", "--"];
            let cached_args = args_with_path(&cached, path);
            assert(str_texts(cached@).push(path@) =~= cached_diff_args(path@));
            if has_head {
                let a = ["diff", "--no-ext-diff", "--find-renames", "--unified=3", "HEAD", "--"];
                let args = args_with_path(&a, path);
                assert(str_texts(a@).push(path@) =~= diff_args_of(mode, path@));
                DiffSource::Git { args, retry: Some(cached_args) }
            } else {
                DiffSource::Git { args: cached_args, retry: None }
            }
        },
        ReviewMode::LastCommit { has_parent } => {
            if has_parent {
                let a = ["show", "--format=", "--unified=3", "HEAD", "--"];
                let args = args_with_path(&a, path);
                assert(str_texts(a@).push(path@) =~= diff_args_of(mode, path@));
                DiffSource::Git { args, retry: None }
            } else {
                let a = ["show", "--format=", "--unified=3", "--root", "HEAD", "--"];
                let args = args_with_path(&a, path);
                assert(str_texts(a@).push(path@) =~= diff_args_of(mode, path@));
                DiffSource::Git { args, retry: None }
            }
        },
        ReviewMode::Empty => DiffSource::NoDiff,
    }
}

/// The lines shown for a tracked file from the text of its diff: the parsed
/// diff, or when the text is blank the fallback for its status.
pub open spec fn tracked_file_rows(
    entry: StatusView,
    diff: Seq<char>,
    added_file: Option<Result<Seq<u8>, Seq<char>>>,
) -> Seq<LineView> {
    if trimmed(diff).len() == 0 {
        fallback_rows(entry, added_file)
    } else {
        snapshot_rows(text_lines(diff), 0, 0)
    }
}

/// The diff lines of a tracked file from the output of git (empty when
/// there was nothing to diff against); `added_file` is the result of reading
/// the file, needed for an added file whose diff is blank.
pub fn diff_lines_from_output(
    entry: &StatusEntry,
    diff: &str,
    added_file: Option<Result<Vec<u8>, String>>,
) -> (r: Vec<DiffLine>)
    requires
        trimmed(diff@).len() == 0 ==> (entry.status@ == seq!['A'] ==> added_file is Some),
        trimmed(diff@).len() > 0 ==> snapshot_diff_readable(text_lines(diff@), 0, 0),
    ensures
        line_views(r@) == tracked_file_rows(entry@, diff@, read_view(added_file)),
{
    if is_blank(diff) {
        fallback_diff_for_status(entry, added_file)
    } else {
        parse_unified_diff(diff)
    }
}

} // verus!
