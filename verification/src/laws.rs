//! Properties of the review engine that relate several operations or hold of
//! every session state.
use vstd::prelude::*;

use crate::engine::{
    block_begin, block_end, block_starts, block_starts_from, change_range, count_prefixed,
    diff_rows, is_changed, starts_block, untracked_rows, LineView, ReviewAction,
};
use crate::session::{
    count_reviewed, first_change_or_zero, first_greater, last_less, next_in, position_of,
    previous_in, RequestView, SessionView,
};
use crate::engine::hunk_starts;
use crate::tui::{key_step, FocusPane, Key, TuiView};
use crate::text::{decimal, has_prefix, text_lines};
use vstd::utf8::{decode_utf8, valid_utf8};

verus! {

pub open spec fn strictly_increasing(s: Seq<nat>) -> bool {
    forall|a: int, b: int| 0 <= a < b < s.len() ==> s[a] < s[b]
}

proof fn lemma_block_starts_from(d: Seq<LineView>, i: int)
    requires
        0 <= i,
    ensures
        strictly_increasing(block_starts_from(d, i)),
        forall|k: int|
            0 <= k < block_starts_from(d, i).len() ==> i <= #[trigger] block_starts_from(d, i)[k]
                < d.len() && starts_block(d, block_starts_from(d, i)[k] as int),
        forall|j: int| i <= j < d.len() && starts_block(d, j) ==> block_starts_from(d, i).contains(j as nat),
    decreases d.len() - i,
{
    if i < d.len() {
        lemma_block_starts_from(d, i + 1);
        let rest = block_starts_from(d, i + 1);
        if starts_block(d, i) {
            let all = seq![i as nat] + rest;
            assert(block_starts_from(d, i) == all);
            assert forall|a: int, b: int| 0 <= a < b < all.len() implies all[a] < all[b] by {
                if a > 0 {
                    assert(all[a] == rest[a - 1]);
                }
                assert(all[b] == rest[b - 1]);
            }
            assert forall|k: int| 0 <= k < all.len() implies i <= #[trigger] all[k] < d.len()
                && starts_block(d, all[k] as int) by {
                if k > 0 {
                    assert(all[k] == rest[k - 1]);
                }
            }
            assert forall|j: int| i <= j < d.len() && starts_block(d, j) implies all.contains(j as nat) by {
                if j == i {
                    assert(all[0] == j);
                } else {
                    assert(rest.contains(j as nat));
                    let k = choose|k: int| 0 <= k < rest.len() && rest[k] == j as nat;
                    assert(all[k + 1] == j as nat);
                }
            }
        }
    }
}

/// The block starts of a diff come in increasing order, are the lines that
/// start a block of changed lines, and include every such line.
pub proof fn lemma_block_starts(d: Seq<LineView>)
    ensures
        strictly_increasing(block_starts(d)),
        forall|k: int|
            0 <= k < block_starts(d).len() ==> #[trigger] block_starts(d)[k] < d.len() && starts_block(
                d,
                block_starts(d)[k] as int,
            ),
        forall|j: int| 0 <= j < d.len() && starts_block(d, j) ==> block_starts(d).contains(j as nat),
{
    lemma_block_starts_from(d, 0);
}

proof fn lemma_first_greater_at(s: Seq<nat>, j: int)
    requires
        strictly_increasing(s),
        0 <= j < s.len(),
    ensures
        first_greater(s, s[j]) == (if j + 1 < s.len() {
            Some(s[j + 1])
        } else {
            None
        }),
    decreases s.len(),
{
    let t = s.drop_first();
    assert(strictly_increasing(t)) by {
        assert forall|a: int, b: int| 0 <= a < b < t.len() implies t[a] < t[b] by {
            assert(t[a] == s[a + 1] && t[b] == s[b + 1]);
        }
    }
    if j == 0 {
        if s.len() > 1 {
            assert(t[0] == s[1]);
            assert(t[0] > s[0]);
            assert(first_greater(t, s[0]) == Some(t[0]));
        } else {
            assert(t.len() == 0);
        }
    } else {
        assert(s[0] < s[j]);
        assert(t[j - 1] == s[j]);
        lemma_first_greater_at(t, j - 1);
        assert(first_greater(s, s[j]) == first_greater(t, s[j]));
        if j + 1 < s.len() {
            assert(t[j] == s[j + 1]);
        }
    }
}

proof fn lemma_last_less_at(s: Seq<nat>, j: int)
    requires
        strictly_increasing(s),
        0 <= j < s.len(),
    ensures
        last_less(s, s[j]) == (if j > 0 {
            Some(s[j - 1])
        } else {
            None
        }),
    decreases s.len(),
{
    let t = s.drop_last();
    assert(strictly_increasing(t)) by {
        assert forall|a: int, b: int| 0 <= a < b < t.len() implies t[a] < t[b] by {
            assert(t[a] == s[a] && t[b] == s[b]);
        }
    }
    if j == s.len() - 1 {
        if s.len() > 1 {
            assert(t.last() == s[j - 1]);
            assert(t.last() < s[j]);
            assert(last_less(t, s[j]) == Some(t.last()));
        } else {
            assert(t.len() == 0);
        }
    } else {
        assert(s.last() > s[j]);
        assert(t[j] == s[j]);
        lemma_last_less_at(t, j);
        assert(last_less(s, s[j]) == last_less(t, s[j]));
        if j > 0 {
            assert(t[j - 1] == s[j - 1]);
        }
    }
}

proof fn lemma_first_greater_member(s: Seq<nat>, v: nat)
    ensures
        first_greater(s, v) matches Some(x) ==> s.contains(x),
    decreases s.len(),
{
    if s.len() > 0 {
        if s[0] <= v {
            lemma_first_greater_member(s.drop_first(), v);
            if let Some(x) = first_greater(s.drop_first(), v) {
                let k = choose|k: int| 0 <= k < s.drop_first().len() && s.drop_first()[k] == x;
                assert(s[k + 1] == x);
            }
        }
    }
}

proof fn lemma_last_less_member(s: Seq<nat>, v: nat)
    ensures
        last_less(s, v) matches Some(x) ==> s.contains(x),
    decreases s.len(),
{
    if s.len() > 0 {
        if s.last() >= v {
            lemma_last_less_member(s.drop_last(), v);
            if let Some(x) = last_less(s.drop_last(), v) {
                let k = choose|k: int| 0 <= k < s.drop_last().len() && s.drop_last()[k] == x;
                assert(s[k] == x);
            }
        }
    }
}

/// Every action keeps a well-formed session well-formed, and so does taking
/// the outcome of a stored change.
pub proof fn lemma_step_keeps_wf(m: SessionView, action: ReviewAction)
    requires
        m.wf(),
    ensures
        m.step(action).0.wf(),
{
}

/// Taking the outcome of a stored change keeps a session well-formed.
pub proof fn lemma_finish_keeps_wf(m: SessionView, request: RequestView, outcome: Result<(), Seq<char>>)
    requires
        m.wf(),
    ensures
        m.finish(request, outcome).wf(),
{
}

/// Selecting an existing file selects it, resets the selected finding and
/// moves the diff selection to the file's first block of changed lines.
pub proof fn lemma_select_file_resets_selection(m: SessionView, index: usize)
    requires
        m.wf(),
        index < m.files.len(),
    ensures
        m.step(ReviewAction::SelectFile(index)).0.selected_file == index,
        m.step(ReviewAction::SelectFile(index)).0.selected_finding == 0,
        m.step(ReviewAction::SelectFile(index)).0.selected_diff_line == first_change_or_zero(
            m.diffs[index as int],
        ),
        m.step(ReviewAction::SelectFile(index)).0.files == m.files,
        m.step(ReviewAction::SelectFile(index)).0.reviewed == m.reviewed,
{
}

/// File navigation wraps: going back from the first file selects the last,
/// going on from the last selects the first, and going back then on returns
/// to the file that was selected.
pub proof fn lemma_file_navigation_wraps(m: SessionView)
    requires
        m.wf(),
        m.files.len() > 0,
    ensures
        m.selected_file == 0 ==> m.step(ReviewAction::PreviousFile).0.selected_file
            == m.files.len() - 1,
        m.selected_file == m.files.len() - 1 ==> m.step(ReviewAction::NextFile).0.selected_file
            == 0,
        m.step(ReviewAction::PreviousFile).0.step(ReviewAction::NextFile).0.selected_file
            == m.selected_file,
        m.step(ReviewAction::NextFile).0.step(ReviewAction::PreviousFile).0.selected_file
            == m.selected_file,
{
    let n = m.files.len();
    let p = m.step(ReviewAction::PreviousFile).0;
    let q = m.step(ReviewAction::NextFile).0;
    assert(previous_in(m.selected_file, n) < n);
    assert(next_in(m.selected_file, n) < n) by {
        assert((m.selected_file + 1) % n < n);
    }
    lemma_wrap(m.selected_file, n);
    assert(p.files.len() == n);
    assert(q.files.len() == n);
    lemma_wrap(p.selected_file, n);
}

proof fn lemma_wrap(x: nat, n: nat)
    requires
        x < n,
    ensures
        x + 1 < n ==> (x + 1) % n == x + 1,
        x + 1 == n ==> (x + 1) % n == 0,
{
    if x + 1 < n {
        vstd::arithmetic::div_mod::lemma_small_mod((x + 1) as nat, n);
    } else {
        vstd::arithmetic::div_mod::lemma_mod_self_0(n as int);
    }
}

/// The number of reviewed files and of files still to review add up to the
/// number of files.
pub proof fn lemma_file_counts_add_up(m: SessionView)
    ensures
        m.reviewed_count() <= m.files.len(),
        m.reviewed_count() + m.pending_count() == m.files.len(),
{
    lemma_count_reviewed_bound(m.files, m.reviewed);
}

proof fn lemma_count_reviewed_bound(files: Seq<crate::engine::FileChange>, reviewed: Set<Seq<char>>)
    ensures
        count_reviewed(files, reviewed) <= files.len(),
    decreases files.len(),
{
    if files.len() > 0 {
        lemma_count_reviewed_bound(files.drop_last(), reviewed);
    }
}

/// Toggling the selected file's reviewed state, when nothing has to be
/// stored for it, flips whether that file counts as reviewed.
pub proof fn lemma_toggle_flips_selected(m: SessionView)
    requires
        m.wf(),
        m.selected_file < m.files.len(),
        m.step(ReviewAction::ToggleSelectedFileReviewed).1 is None,
    ensures
        m.step(ReviewAction::ToggleSelectedFileReviewed).0.is_reviewed(m.selected_file) == !m.is_reviewed(
            m.selected_file,
        ),
{
}

/// Toggling the selected file's reviewed state twice, when nothing has to
/// be stored, gives back the reviewed files as they were.
pub proof fn lemma_toggle_twice_restores(m: SessionView)
    requires
        m.wf(),
        m.step(ReviewAction::ToggleSelectedFileReviewed).1 is None,
        m.step(ReviewAction::ToggleSelectedFileReviewed).0.step(
            ReviewAction::ToggleSelectedFileReviewed,
        ).1 is None,
    ensures
        m.step(ReviewAction::ToggleSelectedFileReviewed).0.step(
            ReviewAction::ToggleSelectedFileReviewed,
        ).0 == m,
{
    let m1 = m.step(ReviewAction::ToggleSelectedFileReviewed).0;
    let m2 = m1.step(ReviewAction::ToggleSelectedFileReviewed).0;
    if m.selected_file < m.files.len() {
        let p = m.files[m.selected_file as int].path@;
        if m.reviewed.contains(p) {
            assert(m2.reviewed =~= m.reviewed);
        } else {
            assert(m2.reviewed =~= m.reviewed);
        }
    }
}

/// Toggling the selected file's reviewed state twice through stored
/// changes, both stored without error, gives back the reviewed files as
/// they were.
pub proof fn lemma_stored_toggle_twice_restores(m: SessionView)
    requires
        m.wf(),
        m.step(ReviewAction::ToggleSelectedFileReviewed).1 is Some,
    ensures
        ({
            let r1 = m.step(ReviewAction::ToggleSelectedFileReviewed).1->0;
            let m1 = m.finish(r1, Ok(()));
            m1.step(ReviewAction::ToggleSelectedFileReviewed).1 is Some && {
                let r2 = m1.step(ReviewAction::ToggleSelectedFileReviewed).1->0;
                m1.finish(r2, Ok(())) == m
            }
        }),
{
    let r1 = m.step(ReviewAction::ToggleSelectedFileReviewed).1->0;
    let m1 = m.finish(r1, Ok(()));
    let p = m.files[m.selected_file as int].path@;
    assert(m1.persist_request(p, !m1.reviewed.contains(p)) is Some);
    let r2 = m1.step(ReviewAction::ToggleSelectedFileReviewed).1->0;
    let m2 = m1.finish(r2, Ok(()));
    assert(m2.reviewed =~= m.reviewed);
}

/// Moving to the next block of changed lines, or the previous one, lands on
/// the start of a block when the diff has one.
pub proof fn lemma_change_navigation_lands_on_block(m: SessionView)
    requires
        block_starts(m.diff_view()).len() > 0,
    ensures
        block_starts(m.diff_view()).contains(m.step(ReviewAction::NextDiffChange).0.selected_diff_line),
        block_starts(m.diff_view()).contains(m.step(ReviewAction::PreviousDiffChange).0.selected_diff_line),
{
    let s = block_starts(m.diff_view());
    lemma_first_greater_member(s, m.selected_diff_line);
    lemma_last_less_member(s, m.selected_diff_line);
    assert(s[0] == s[0]);
    assert(s[s.len() - 1] == s.last());
}

/// Block navigation wraps, and from the start of a block, moving to the
/// next block and back (or back and on) returns to that block.
pub proof fn lemma_change_navigation_round_trip(m: SessionView)
    requires
        block_starts(m.diff_view()).contains(m.selected_diff_line),
    ensures
        m.step(ReviewAction::NextDiffChange).0.step(ReviewAction::PreviousDiffChange).0.selected_diff_line
            == m.selected_diff_line,
        m.step(ReviewAction::PreviousDiffChange).0.step(ReviewAction::NextDiffChange).0.selected_diff_line
            == m.selected_diff_line,
        m.selected_diff_line == block_starts(m.diff_view()).last() ==> m.step(
            ReviewAction::NextDiffChange,
        ).0.selected_diff_line == block_starts(m.diff_view())[0],
        m.selected_diff_line == block_starts(m.diff_view())[0] ==> m.step(
            ReviewAction::PreviousDiffChange,
        ).0.selected_diff_line == block_starts(m.diff_view()).last(),
{
    let d = m.diff_view();
    let s = block_starts(d);
    lemma_block_starts(d);
    let j = choose|j: int| 0 <= j < s.len() && s[j] == m.selected_diff_line;
    lemma_first_greater_at(s, j);
    lemma_last_less_at(s, j);
    let n = m.step(ReviewAction::NextDiffChange).0;
    let jn = if j + 1 < s.len() { j + 1 } else { 0 };
    assert(n.selected_diff_line == s[jn]);
    assert(n.diff_view() == d);
    lemma_last_less_at(s, jn);
    if j + 1 >= s.len() {
        assert(j == s.len() - 1);
        if s.len() > 1 {
            assert(s[0] < s[j]);
        }
    }
    let p = m.step(ReviewAction::PreviousDiffChange).0;
    let jp = if j > 0 { j - 1 } else { s.len() - 1 };
    assert(p.selected_diff_line == s[jp]);
    assert(p.diff_view() == d);
    lemma_first_greater_at(s, jp);
    if j == 0 && s.len() > 1 {
        assert(s[jp] > s[0]);
    }
    if j > 0 {
        assert(s[j - 1] < s[j]);
    }
    if s.len() == 1 {
        assert(j == 0);
    }
}

proof fn lemma_block_begin(d: Seq<LineView>, i: int)
    requires
        0 <= i < d.len(),
    ensures
        0 <= block_begin(d, i) <= i,
        forall|k: int| block_begin(d, i) <= k < i ==> is_changed(#[trigger] d[k]),
        block_begin(d, i) == 0 || !is_changed(d[block_begin(d, i) - 1]),
    decreases i,
{
    if i > 0 && is_changed(d[i - 1]) {
        lemma_block_begin(d, i - 1);
    }
}

proof fn lemma_block_end(d: Seq<LineView>, i: int)
    requires
        0 <= i < d.len(),
    ensures
        i < block_end(d, i) <= d.len(),
        forall|k: int| i < k < block_end(d, i) ==> is_changed(#[trigger] d[k]),
        block_end(d, i) == d.len() || !is_changed(d[block_end(d, i)]),
    decreases d.len() - i,
{
    if i + 1 < d.len() && is_changed(d[i + 1]) {
        lemma_block_end(d, i + 1);
    }
}

/// The range of the selected block of changed lines holds the selected line,
/// holds only changed lines, and is bounded by unchanged lines or the ends
/// of the diff.
pub proof fn lemma_change_range_is_block(d: Seq<LineView>, sel: int)
    requires
        change_range(d, sel) is Some,
    ensures
        ({
            let (start, end) = change_range(d, sel)->0;
            &&& 0 <= start <= sel < end <= d.len()
            &&& forall|k: int| start <= k < end ==> is_changed(#[trigger] d[k])
            &&& (start == 0 || !is_changed(d[start - 1]))
            &&& (end == d.len() || !is_changed(d[end]))
        }),
{
    lemma_block_begin(d, sel);
    lemma_block_end(d, sel);
}

proof fn lemma_diff_rows_len(lines: Seq<Seq<char>>, old: nat, new: nat)
    ensures
        diff_rows(lines, old, new).len() == lines.len(),
    decreases lines.len(),
{
    if lines.len() > 0 {
        let l = lines[0];
        let rest = lines.drop_first();
        lemma_diff_rows_len(rest, old, new);
        lemma_diff_rows_len(rest, old, new + 1);
        lemma_diff_rows_len(rest, old + 1, new);
        lemma_diff_rows_len(rest, old + 1, new + 1);
        match crate::engine::hunk_starts(l) {
            Some((o, n)) => lemma_diff_rows_len(rest, o, n),
            None => {},
        }
    }
}

/// Parsing a unified diff shows one line per line of its text.
pub proof fn lemma_parsed_diff_keeps_lines(text: Seq<char>)
    requires
        text_lines(text).len() > 0,
    ensures
        crate::engine::parsed_diff(text).len() == text_lines(text).len(),
{
    lemma_diff_rows_len(text_lines(text), 0, 0);
}

proof fn lemma_count_added_tail(n: nat, lines: Seq<Seq<char>>)
    requires
        n == lines.len(),
    ensures
        count_prefixed(
            Seq::new(
                n,
                |k: int| LineView { prefix: seq!['+'], number: crate::text::decimal((k + 1) as nat), content: lines[k] },
            ),
            seq!['+'],
        ) == n,
        count_prefixed(
            Seq::new(
                n,
                |k: int| LineView { prefix: seq!['+'], number: crate::text::decimal((k + 1) as nat), content: lines[k] },
            ),
            seq!['-'],
        ) == 0,
    decreases n,
{
    let t = Seq::new(
        n,
        |k: int| LineView { prefix: seq!['+'], number: crate::text::decimal((k + 1) as nat), content: lines[k] },
    );
    if n > 0 {
        let lines2 = lines.drop_last();
        let t2 = Seq::new(
            (n - 1) as nat,
            |k: int| LineView { prefix: seq!['+'], number: crate::text::decimal((k + 1) as nat), content: lines2[k] },
        );
        assert(t.drop_last() =~= t2);
        lemma_count_added_tail((n - 1) as nat, lines2);
        assert(seq!['+'][0] != seq!['-'][0]);
    }
}

proof fn lemma_count_prefixed_concat(a: Seq<LineView>, b: Seq<LineView>, p: Seq<char>)
    ensures
        count_prefixed(a + b, p) == count_prefixed(a, p) + count_prefixed(b, p),
    decreases b.len(),
{
    if b.len() == 0 {
        assert(a + b =~= a);
    } else {
        assert((a + b).drop_last() =~= a + b.drop_last());
        lemma_count_prefixed_concat(a, b.drop_last(), p);
    }
}

/// The diff of an untracked text file adds each of its lines and removes
/// none.
pub proof fn lemma_untracked_counts(path: Seq<char>, bytes: Seq<u8>)
    requires
        !bytes.contains(0u8),
        valid_utf8(bytes),
    ensures
        count_prefixed(untracked_rows(path, Some(bytes)), seq!['+']) == text_lines(decode_utf8(bytes)).len(),
        count_prefixed(untracked_rows(path, Some(bytes)), seq!['-']) == 0,
{
    let lines = text_lines(decode_utf8(bytes));
    let rows = untracked_rows(path, Some(bytes));
    let head = rows.take(5);
    let tail = rows.skip(5);
    assert(rows =~= head + tail);
    lemma_count_added_tail(lines.len(), lines);
    assert(tail =~= Seq::new(
        lines.len(),
        |k: int| LineView { prefix: seq!['+'], number: crate::text::decimal((k + 1) as nat), content: lines[k] },
    ));
    lemma_count_prefixed_concat(head, tail, seq!['+']);
    lemma_count_prefixed_concat(head, tail, seq!['-']);
    reveal_with_fuel(count_prefixed, 6);
    assert(seq![' '][0] != seq!['+'][0]);
    assert(seq![' '][0] != seq!['-'][0]);
    assert(seq!['@', '@'].len() != seq!['+'].len());
}

/// The line a selected file starts on is its first changed line, or line 0
/// when it has none.
pub proof fn lemma_first_change_is_first_changed_line(d: Seq<LineView>)
    ensures
        (exists|j: int| 0 <= j < d.len() && #[trigger] is_changed(d[j])) ==> {
            let f = first_change_or_zero(d) as int;
            &&& 0 <= f < d.len()
            &&& is_changed(d[f])
            &&& forall|j: int| 0 <= j < f ==> !#[trigger] is_changed(d[j])
        },
        (forall|j: int| 0 <= j < d.len() ==> !#[trigger] is_changed(d[j])) ==> first_change_or_zero(d) == 0,
{
    lemma_block_starts(d);
    let s = block_starts(d);
    if exists|j: int| 0 <= j < d.len() && #[trigger] is_changed(d[j]) {
        let j = choose|j: int| 0 <= j < d.len() && #[trigger] is_changed(d[j]);
        let j0 = lemma_least_changed(d, j);
        assert(starts_block(d, j0));
        assert(s.contains(j0 as nat));
        let k = choose|k: int| 0 <= k < s.len() && s[k] == j0 as nat;
        assert(s.len() > 0);
        let f = s[0] as int;
        assert(starts_block(d, f));
        if k > 0 {
            assert(s[0] < s[k]);
        }
        assert(f <= j0);
        assert(f >= j0) by {
            if f < j0 {
                assert(is_changed(d[f]));
            }
        }
    } else {
        if s.len() > 0 {
            assert(starts_block(d, s[0] as int));
            assert(is_changed(d[s[0] as int]));
        }
    }
}

/// The least changed line at or before a changed line `j`.
proof fn lemma_least_changed(d: Seq<LineView>, j: int) -> (j0: int)
    requires
        0 <= j < d.len(),
        is_changed(d[j]),
    ensures
        0 <= j0 <= j,
        is_changed(d[j0]),
        forall|q: int| 0 <= q < j0 ==> !#[trigger] is_changed(d[q]),
    decreases j,
{
    if exists|q: int| 0 <= q < j && #[trigger] is_changed(d[q]) {
        let q = choose|q: int| 0 <= q < j && #[trigger] is_changed(d[q]);
        lemma_least_changed(d, q)
    } else {
        j
    }
}

/// Selecting a file that is not there changes nothing.
pub proof fn lemma_select_missing_file(m: SessionView, index: usize)
    requires
        index >= m.files.len(),
    ensures
        m.step(ReviewAction::SelectFile(index)) == (m, None::<RequestView>),
{
}

/// The session with another finding selected.
pub open spec fn with_finding(m: SessionView, finding: nat) -> SessionView {
    SessionView { selected_finding: finding, ..m }
}

/// Selecting a finding selects it when it is there and changes nothing
/// else; going on or back among the findings wraps round them, and does
/// nothing when there are none.
pub proof fn lemma_finding_navigation(m: SessionView, index: usize)
    ensures
        m.step(ReviewAction::SelectFinding(index)).0 == (if index < m.findings.len() {
            with_finding(m, index as nat)
        } else {
            m
        }),
        m.findings.len() == 0 ==> m.step(ReviewAction::NextFinding).0 == m,
        m.findings.len() == 0 ==> m.step(ReviewAction::PreviousFinding).0 == m,
        m.wf() && m.findings.len() > 0 ==> m.step(ReviewAction::NextFinding).0 == with_finding(
            m,
            (m.selected_finding + 1) % m.findings.len(),
        ),
        m.wf() && m.findings.len() > 0 ==> m.step(ReviewAction::PreviousFinding).0 == with_finding(
            m,
            (if m.selected_finding == 0 {
                m.findings.len() - 1
            } else {
                m.selected_finding - 1
            }) as nat,
        ),
{
    if m.wf() && m.findings.len() > 0 {
        let n = m.findings.len();
        assert((m.selected_finding + 1) % n < n);
    }
}

/// No action changes the files, their diffs, the findings or the labels of
/// the review; with no files, toggling the reviewed state does nothing.
pub proof fn lemma_step_keeps_content(m: SessionView, action: ReviewAction)
    ensures
        m.step(action).0.files == m.files,
        m.step(action).0.diffs == m.diffs,
        m.step(action).0.findings == m.findings,
        m.step(action).0.repo_label == m.repo_label,
        m.step(action).0.review_label == m.review_label,
        m.step(action).0.backend_label == m.backend_label,
        m.files.len() == 0 ==> m.step(ReviewAction::ToggleSelectedFileReviewed) == (m, None::<RequestView>),
{
}

/// The positions of the reviewed files among the first `k`.
pub open spec fn reviewed_positions(m: SessionView, k: int) -> Set<int> {
    Set::new(|i: int| 0 <= i < k && m.is_reviewed(i as nat))
}

proof fn lemma_reviewed_positions(m: SessionView, k: int)
    requires
        0 <= k <= m.files.len(),
    ensures
        reviewed_positions(m, k).finite(),
        reviewed_positions(m, k).len() == count_reviewed(m.files.take(k), m.reviewed),
    decreases k,
{
    if k == 0 {
        assert(reviewed_positions(m, k) =~= Set::empty());
    } else {
        lemma_reviewed_positions(m, k - 1);
        let prev = reviewed_positions(m, k - 1);
        assert(m.files.take(k).drop_last() =~= m.files.take(k - 1));
        assert(m.files.take(k).last() == m.files[k - 1]);
        if m.is_reviewed((k - 1) as nat) {
            assert(reviewed_positions(m, k) =~= prev.insert(k - 1));
            assert(!prev.contains(k - 1));
        } else {
            assert(reviewed_positions(m, k) =~= prev);
        }
    }
}

/// The number of reviewed files is the number of positions whose file is
/// reviewed.
pub proof fn lemma_reviewed_count_is_cardinality(m: SessionView)
    ensures
        reviewed_positions(m, m.files.len() as int).finite(),
        m.reviewed_count() == reviewed_positions(m, m.files.len() as int).len(),
{
    lemma_reviewed_positions(m, m.files.len() as int);
    assert(m.files.take(m.files.len() as int) =~= m.files);
}

proof fn lemma_position_of_contains(s: Seq<nat>, v: nat)
    ensures
        position_of(s, v) matches Some(p) ==> p < s.len() && s[p as int] == v,
    decreases s.len(),
{
    if s.len() > 0 && s[0] != v {
        lemma_position_of_contains(s.drop_first(), v);
    }
}

/// When the selected line has a position among the block starts, the
/// selected block of changed lines begins at that line.
pub proof fn lemma_change_position_starts_range(d: Seq<LineView>, sel: nat)
    requires
        position_of(block_starts(d), sel) is Some,
    ensures
        (change_range(d, sel as int) matches Some((b, e)) && b == sel && sel < e),
{
    lemma_block_starts(d);
    lemma_position_of_contains(block_starts(d), sel);
    let p = position_of(block_starts(d), sel).unwrap();
    assert(starts_block(d, block_starts(d)[p as int] as int));
    lemma_block_end_after(d, sel as int);
}

proof fn lemma_block_end_after(d: Seq<LineView>, i: int)
    ensures
        block_end(d, i) > i,
    decreases d.len() - i,
{
    if !(i + 1 >= d.len() || !is_changed(d[i + 1])) {
        lemma_block_end_after(d, i + 1);
    }
}

/// The diff a review loads for a file is never empty: a tracked file shows
/// its parsed diff or a note, an untracked file its lines or a note.
pub proof fn lemma_loaded_diffs_not_empty(path: Seq<char>, contents: Option<Seq<u8>>, cached: Seq<char>, working: Seq<char>)
    ensures
        crate::engine::tracked_rows(cached, working).len() > 0,
        untracked_rows(path, contents).len() > 0,
{
}

/// Something that happens to a review session: an action, or the outcome of
/// storing a change that an action requested.
pub enum SessionEvent {
    Apply(ReviewAction),
    Finish(RequestView, Result<(), Seq<char>>),
}

/// The session after one event.
pub open spec fn after_event(m: SessionView, event: SessionEvent) -> SessionView {
    match event {
        SessionEvent::Apply(action) => m.step(action).0,
        SessionEvent::Finish(request, outcome) => m.finish(request, outcome),
    }
}

/// The session after each of `events` in turn.
pub open spec fn after_events(m: SessionView, events: Seq<SessionEvent>) -> SessionView
    decreases events.len(),
{
    if events.len() == 0 {
        m
    } else {
        after_events(after_event(m, events[0]), events.drop_first())
    }
}

/// Whatever actions are carried out and whatever becomes of the changes they
/// ask to store, a session keeps its files and their diffs, and the diff it
/// shows is the diff of the selected file; when every file's diff has lines
/// (as every diff a review loads does), the diff shown is empty exactly when
/// there are no files.
pub proof fn lemma_events_keep_loaded_diffs(m: SessionView, events: Seq<SessionEvent>)
    requires
        m.wf(),
        forall|i: int| 0 <= i < m.diffs.len() ==> #[trigger] m.diffs[i].len() > 0,
    ensures
        after_events(m, events).wf(),
        after_events(m, events).files == m.files,
        after_events(m, events).diffs == m.diffs,
        m.files.len() > 0 ==> after_events(m, events).selected_file < m.files.len(),
        m.files.len() > 0 ==> after_events(m, events).diff_view()
            == m.diffs[after_events(m, events).selected_file as int],
        after_events(m, events).diff_view().len() == 0 <==> m.files.len() == 0,
    decreases events.len(),
{
    if events.len() == 0 {
        if m.files.len() > 0 {
            assert(m.diffs[m.selected_file as int].len() > 0);
        }
    } else {
        let next = after_event(m, events[0]);
        match events[0] {
            SessionEvent::Apply(action) => {
                lemma_step_keeps_wf(m, action);
                lemma_step_keeps_content(m, action);
            },
            SessionEvent::Finish(request, outcome) => {
                lemma_finish_keeps_wf(m, request, outcome);
            },
        }
        assert(next.files == m.files && next.diffs == m.diffs);
        lemma_events_keep_loaded_diffs(next, events.drop_first());
    }
}


/// A line of a hunk that takes a line of the old file: a removed line or a
/// context line.
pub open spec fn takes_old_line(l: Seq<char>) -> bool {
    (has_prefix(l, seq!['-']) && !has_prefix(l, seq!['-', '-', '-'])) || has_prefix(l, seq![' '])
}

/// A line of a hunk that takes a line of the new file: an added line or a
/// context line.
pub open spec fn takes_new_line(l: Seq<char>) -> bool {
    (has_prefix(l, seq!['+']) && !has_prefix(l, seq!['+', '+', '+'])) || has_prefix(l, seq![' '])
}

/// How many of `lines` take a line of the old file.
pub open spec fn old_side_count(lines: Seq<Seq<char>>) -> nat
    decreases lines.len(),
{
    if lines.len() == 0 {
        0
    } else {
        (if takes_old_line(lines[0]) { 1nat } else { 0nat }) + old_side_count(lines.drop_first())
    }
}

/// How many of `lines` take a line of the new file.
pub open spec fn new_side_count(lines: Seq<Seq<char>>) -> nat
    decreases lines.len(),
{
    if lines.len() == 0 {
        0
    } else {
        (if takes_new_line(lines[0]) { 1nat } else { 0nat }) + new_side_count(lines.drop_first())
    }
}

proof fn lemma_first_char(l: Seq<char>)
    ensures
        forall|c: char| #[trigger] has_prefix(l, seq![c]) <==> (l.len() > 0 && l[0] == c),
        has_prefix(l, seq!['@', '@']) ==> l[0] == '@',
        has_prefix(l, seq!['+', '+', '+']) ==> l[0] == '+',
        has_prefix(l, seq!['-', '-', '-']) ==> l[0] == '-',
{
    if l.len() > 0 {
        assert(l.take(1) =~= seq![l[0]]);
    }
    if has_prefix(l, seq!['@', '@']) {
        assert(l.take(2)[0] == l[0]);
    }
    if has_prefix(l, seq!['+', '+', '+']) {
        assert(l.take(3)[0] == l[0]);
    }
    if has_prefix(l, seq!['-', '-', '-']) {
        assert(l.take(3)[0] == l[0]);
    }
}

/// One line of a diff read: its row, then the rows of the rest from the
/// numbers it leaves.
proof fn lemma_diff_rows_step(lines: Seq<Seq<char>>, old: nat, new: nat) -> (next: (nat, nat))
    requires
        lines.len() > 0,
    ensures
        diff_rows(lines, old, new) == seq![diff_rows(lines, old, new)[0]] + diff_rows(
            lines.drop_first(),
            next.0,
            next.1,
        ),
        has_prefix(lines[0], seq!['@', '@']) && hunk_starts(lines[0]) is Some ==> next
            == hunk_starts(lines[0])->0,
        !has_prefix(lines[0], seq!['@', '@']) ==> next == (
            old + if takes_old_line(lines[0]) { 1nat } else { 0nat },
            new + if takes_new_line(lines[0]) { 1nat } else { 0nat },
        ),
{
    let l = lines[0];
    lemma_first_char(l);
    assert(has_prefix(l, seq!['+']) == (l.len() > 0 && l[0] == '+'));
    assert(has_prefix(l, seq!['-']) == (l.len() > 0 && l[0] == '-'));
    assert(has_prefix(l, seq![' ']) == (l.len() > 0 && l[0] == ' '));
    if has_prefix(l, seq!['@', '@']) {
        match hunk_starts(l) {
            Some(p) => p,
            None => (old, new),
        }
    } else if has_prefix(l, seq!['+']) && !has_prefix(l, seq!['+', '+', '+']) {
        (old, new + 1)
    } else if has_prefix(l, seq!['-']) && !has_prefix(l, seq!['-', '-', '-']) {
        (old + 1, new)
    } else if has_prefix(l, seq![' ']) {
        (old + 1, new + 1)
    } else {
        (old, new)
    }
}

/// Within a hunk (no header among the first `j + 1` lines), the row of line
/// `j` counts the old and new lines before it from `old` and `new`.
proof fn lemma_rows_within_hunk(lines: Seq<Seq<char>>, old: nat, new: nat, j: int)
    requires
        0 <= j < lines.len(),
        forall|i: int| 0 <= i <= j ==> !has_prefix(#[trigger] lines[i], seq!['@', '@']),
    ensures
        has_prefix(lines[j], seq!['-']) && !has_prefix(lines[j], seq!['-', '-', '-'])
            ==> diff_rows(lines, old, new)[j] == (LineView {
            prefix: seq!['-'],
            number: decimal(old + old_side_count(lines.take(j))),
            content: lines[j].drop_first(),
        }),
        has_prefix(lines[j], seq!['+']) && !has_prefix(lines[j], seq!['+', '+', '+'])
            ==> diff_rows(lines, old, new)[j] == (LineView {
            prefix: seq!['+'],
            number: decimal(new + new_side_count(lines.take(j))),
            content: lines[j].drop_first(),
        }),
        has_prefix(lines[j], seq![' ']) ==> diff_rows(lines, old, new)[j] == (LineView {
            prefix: seq![' '],
            number: decimal(new + new_side_count(lines.take(j))),
            content: lines[j].drop_first(),
        }),
    decreases j,
{
    assert(!has_prefix(lines[0], seq!['@', '@']));
    lemma_first_char(lines[j]);
    assert(has_prefix(lines[j], seq!['+']) == (lines[j].len() > 0 && lines[j][0] == '+'));
    assert(has_prefix(lines[j], seq!['-']) == (lines[j].len() > 0 && lines[j][0] == '-'));
    assert(has_prefix(lines[j], seq![' ']) == (lines[j].len() > 0 && lines[j][0] == ' '));
    let next = lemma_diff_rows_step(lines, old, new);
    let rest = lines.drop_first();
    lemma_diff_rows_len(rest, next.0, next.1);
    if j == 0 {
        assert(lines.take(0) =~= Seq::<Seq<char>>::empty());
    } else {
        assert forall|i: int| 0 <= i <= j - 1 implies !has_prefix(#[trigger] rest[i], seq!['@', '@']) by {
            assert(rest[i] == lines[i + 1]);
        }
        lemma_rows_within_hunk(rest, next.0, next.1, j - 1);
        assert(lines.take(j).drop_first() =~= rest.take(j - 1));
        assert(lines.take(j)[0] == lines[0]);
        assert(rest[j - 1] == lines[j]);
    }
}

/// In the rows of a unified diff, a removed line shows its line number in
/// the old file and an added or context line its number in the new file:
/// the start of its hunk on that side plus the lines of that side before it
/// in the hunk. So consecutive removed lines show consecutive numbers.
pub proof fn lemma_hunk_line_numbers(lines: Seq<Seq<char>>, old: nat, new: nat, h: int, k: int)
    requires
        0 <= h < k < lines.len(),
        has_prefix(lines[h], seq!['@', '@']),
        hunk_starts(lines[h]) is Some,
        forall|j: int| h < j <= k ==> !has_prefix(#[trigger] lines[j], seq!['@', '@']),
    ensures
        diff_rows(lines, old, new).len() == lines.len(),
        diff_rows(lines, old, new)[h] == (LineView {
            prefix: seq!['@', '@'],
            number: decimal((hunk_starts(lines[h])->0).1),
            content: lines[h],
        }),
        has_prefix(lines[k], seq!['-']) && !has_prefix(lines[k], seq!['-', '-', '-'])
            ==> diff_rows(lines, old, new)[k] == (LineView {
            prefix: seq!['-'],
            number: decimal((hunk_starts(lines[h])->0).0 + old_side_count(lines.subrange(h + 1, k))),
            content: lines[k].drop_first(),
        }),
        has_prefix(lines[k], seq!['+']) && !has_prefix(lines[k], seq!['+', '+', '+'])
            ==> diff_rows(lines, old, new)[k] == (LineView {
            prefix: seq!['+'],
            number: decimal((hunk_starts(lines[h])->0).1 + new_side_count(lines.subrange(h + 1, k))),
            content: lines[k].drop_first(),
        }),
        has_prefix(lines[k], seq![' ']) ==> diff_rows(lines, old, new)[k] == (LineView {
            prefix: seq![' '],
            number: decimal((hunk_starts(lines[h])->0).1 + new_side_count(lines.subrange(h + 1, k))),
            content: lines[k].drop_first(),
        }),
    decreases h,
{
    lemma_diff_rows_len(lines, old, new);
    let next = lemma_diff_rows_step(lines, old, new);
    let rest = lines.drop_first();
    lemma_diff_rows_len(rest, next.0, next.1);
    if h == 0 {
        assert forall|i: int| 0 <= i <= k - 1 implies !has_prefix(#[trigger] rest[i], seq!['@', '@']) by {
            assert(rest[i] == lines[i + 1]);
        }
        lemma_rows_within_hunk(rest, next.0, next.1, k - 1);
        assert(lines.subrange(1, k) =~= rest.take(k - 1));
        assert(rest[k - 1] == lines[k]);
    } else {
        assert forall|j: int| h - 1 < j <= k - 1 implies !has_prefix(#[trigger] rest[j], seq!['@', '@']) by {
            assert(rest[j] == lines[j + 1]);
        }
        assert(rest[h - 1] == lines[h]);
        assert(rest[k - 1] == lines[k]);
        lemma_hunk_line_numbers(rest, next.0, next.1, h - 1, k - 1);
        assert(lines.subrange(h + 1, k) =~= rest.subrange(h, k - 1));
    }
}


/// With the diff pane focused, Down and Up (`j` and `k`) move between the
/// blocks of changed lines of the selected file: from the start of a block,
/// Down selects the start of the next block and Up the start of the one
/// before, wrapping round at the ends; the panes and everything else in the
/// session stay as they were.
pub proof fn lemma_diff_pane_keys_move_between_blocks(v: TuiView, s: SessionView, j: int)
    requires
        v.focus == FocusPane::Diff,
        0 <= j < block_starts(s.diff_view()).len(),
        s.selected_diff_line == block_starts(s.diff_view())[j],
    ensures
        ({
            let starts = block_starts(s.diff_view());
            let up = key_step(v, s, Key::Up);
            &&& up.0 == v
            &&& up.1 == SessionView { selected_diff_line: up.1.selected_diff_line, ..s }
            &&& j > 0 ==> up.1.selected_diff_line == starts[j - 1] && up.1.selected_diff_line
                < s.selected_diff_line
            &&& j == 0 ==> up.1.selected_diff_line == starts.last()
        }),
        ({
            let starts = block_starts(s.diff_view());
            let down = key_step(v, s, Key::Down);
            &&& down.0 == v
            &&& down.1 == SessionView { selected_diff_line: down.1.selected_diff_line, ..s }
            &&& j + 1 < starts.len() ==> down.1.selected_diff_line == starts[j + 1]
                && down.1.selected_diff_line > s.selected_diff_line
            &&& j + 1 == starts.len() ==> down.1.selected_diff_line == starts[0]
        }),
{
    let starts = block_starts(s.diff_view());
    lemma_block_starts(s.diff_view());
    lemma_first_greater_at(starts, j);
    lemma_last_less_at(starts, j);
    assert(starts[starts.len() - 1] == starts.last());
}


/// With the findings pane focused, Down selects the next finding and Up the
/// one before, wrapping round at the ends; nothing else changes.
pub proof fn lemma_findings_pane_keys_move_between_findings(v: TuiView, s: SessionView)
    requires
        v.focus == FocusPane::Findings,
        s.selected_finding < s.findings.len(),
    ensures
        key_step(v, s, Key::Down).0 == v,
        key_step(v, s, Key::Up).0 == v,
        key_step(v, s, Key::Down).1 == with_finding(
            s,
            if s.selected_finding + 1 < s.findings.len() { (s.selected_finding + 1) as nat } else { 0 },
        ),
        key_step(v, s, Key::Up).1 == with_finding(
            s,
            if s.selected_finding > 0 { (s.selected_finding - 1) as nat } else { (s.findings.len() - 1) as nat },
        ),
{
    lemma_wrap(s.selected_finding, s.findings.len());
}

} // verus!
