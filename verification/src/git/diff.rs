//! Diff lines of the repository snapshot view: hunk headers number both
//! sides, metadata lines are marked with `>`.
use vstd::prelude::*;

use crate::engine::{lossy_string, utf8_lossy, LineView};
use crate::git::status::{StatusEntry, StatusView};
use crate::text::{
    begins_with1, begins_with2, char_seqs, chars_after_first, chars_of, concat, decimal,
    decimal_string, first_field, first_field_of, has_prefix, parse_unsigned, parse_usize,
    split_lines, split_words, starts_with, string_from_chars, text_lines, text_words,
};

verus! {

/// One displayed line of a file diff.
#[derive(Clone, Debug, PartialEq, Eq)]
pub struct DiffLine {
    pub prefix: String,
    pub number: String,
    pub content: String,
}

impl View for DiffLine {
    type V = LineView;

    open spec fn view(&self) -> LineView {
        LineView { prefix: self.prefix@, number: self.number@, content: self.content@ }
    }
}

pub open spec fn line_views(d: Seq<DiffLine>) -> Seq<LineView> {
    d.map_values(|l: DiffLine| l@)
}

/// A line shown as it is, marked with `>` and without a number.
pub open spec fn marked(content: Seq<char>) -> LineView {
    LineView { prefix: seq!['>'], number: seq![], content }
}

fn marked_line(content: String) -> (line: DiffLine)
    ensures
        line@ == marked(content@),
{
    let prefix = ">".to_owned();
    proof {
        reveal_strlit(">");
        assert(prefix@ =~= seq!['>']);
    }
    DiffLine { prefix, number: String::new(), content }
}

/// `<old>:<new>`
pub open spec fn pair_number(old: nat, new: nat) -> Seq<char> {
    decimal(old) + seq![':'] + decimal(new)
}

fn pair_string(old: usize, new: usize) -> (r: String)
    ensures
        r@ == pair_number(old as nat, new as nat),
{
    let a = decimal_string(old);
    let colon = ":".to_owned();
    proof {
        reveal_strlit(":");
        assert(colon@ =~= seq![':']);
    }
    let b = concat(a.as_str(), colon.as_str());
    let c = decimal_string(new);
    concat(b.as_str(), c.as_str())
}

/// The start of a hunk range such as `-12,2`: the number after its first
/// character and before the first comma, or zero.
pub open spec fn hunk_start(range: Seq<char>) -> nat {
    match parse_unsigned(first_field(range.drop_first(), ',')) {
        Some(v) => v,
        None => 0,
    }
}

/// The old and new start lines of a hunk header, zero where missing.
pub open spec fn hunk_header_starts(header: Seq<char>) -> (nat, nat) {
    let w = text_words(header);
    let old = if w.len() > 1 {
        w[1]
    } else {
        seq!['-', '0', ',', '0']
    };
    let new = if w.len() > 2 {
        w[2]
    } else {
        seq!['+', '0', ',', '0']
    };
    (hunk_start(old), hunk_start(new))
}

/// The ranges of a hunk header can be cut after their first character:
/// they begin with a single-byte character.
pub open spec fn header_cuttable(header: Seq<char>) -> bool {
    let w = text_words(header);
    &&& (w.len() > 1 ==> w[1][0] < '\u{80}')
    &&& (w.len() > 2 ==> w[2][0] < '\u{80}')
}

fn hunk_start_of(range: &[char]) -> (r: usize)
    requires
        range.len() >= 1,
    ensures
        r == hunk_start(range@),
{
    let rest = &range[1..range.len()];
    assert(rest@ =~= range@.drop_first());
    let field = first_field_of(rest, ',');
    match parse_usize(field.as_slice()) {
        Some(v) => v,
        None => 0,
    }
}

/// Reads the old and new start lines of a hunk header.
pub fn parse_hunk_header(header: &[char]) -> (r: (usize, usize))
    ensures
        (r.0 as nat, r.1 as nat) == hunk_header_starts(header@),
{
    let words = split_words(header);
    let ghost w = char_seqs(words@);
    assert(w.len() == words.len());
    let old = if words.len() > 1 {
        assert(w[1] == words@[1]@);
        assert(w[1].len() > 0) by {
            lemma_words_nonempty(header@);
        }
        hunk_start_of(words[1].as_slice())
    } else {
        let mut d: Vec<char> = Vec::new();
        d.push('-');
        d.push('0');
        d.push(',');
        d.push('0');
        assert(d@ =~= seq!['-', '0', ',', '0']);
        hunk_start_of(d.as_slice())
    };
    let new = if words.len() > 2 {
        assert(w[2] == words@[2]@);
        assert(w[2].len() > 0) by {
            lemma_words_nonempty(header@);
        }
        hunk_start_of(words[2].as_slice())
    } else {
        let mut d: Vec<char> = Vec::new();
        d.push('+');
        d.push('0');
        d.push(',');
        d.push('0');
        assert(d@ =~= seq!['+', '0', ',', '0']);
        hunk_start_of(d.as_slice())
    };
    (old, new)
}

proof fn lemma_words_from_nonempty(rest: Seq<char>, cur: Seq<char>)
    ensures
        forall|k: int|
            0 <= k < crate::text::words_from(rest, cur).len() ==> #[trigger] crate::text::words_from(
                rest,
                cur,
            )[k].len() > 0,
    decreases rest.len(),
{
    let all = crate::text::words_from(rest, cur);
    if rest.len() == 0 {
        if cur.len() > 0 {
            assert(all =~= seq![cur]);
        } else {
            assert(all.len() == 0);
        }
    } else if crate::text::is_ws(rest[0]) {
        lemma_words_from_nonempty(rest.drop_first(), seq![]);
        let tail = crate::text::words_from(rest.drop_first(), seq![]);
        if cur.len() > 0 {
            assert(all =~= seq![cur] + tail);
            assert forall|k: int| 0 <= k < all.len() implies #[trigger] all[k].len() > 0 by {
                if k > 0 {
                    assert(all[k] == tail[k - 1]);
                }
            }
        } else {
            assert(all =~= tail);
        }
    } else {
        lemma_words_from_nonempty(rest.drop_first(), cur.push(rest[0]));
        assert(all == crate::text::words_from(rest.drop_first(), cur.push(rest[0])));
    }
}

/// Every word of a text has at least one character.
pub proof fn lemma_words_nonempty(s: Seq<char>)
    ensures
        forall|k: int| 0 <= k < text_words(s).len() ==> #[trigger] text_words(s)[k].len() > 0,
{
    lemma_words_from_nonempty(s, seq![]);
}

/// Lines of a diff that carry metadata rather than content.
pub open spec fn is_metadata(l: Seq<char>) -> bool {
    ||| has_prefix(l, "diff --git"@)
    ||| has_prefix(l, "index "@)
    ||| has_prefix(l, "--- "@)
    ||| has_prefix(l, "+++ "@)
    ||| has_prefix(l, "new file mode "@)
    ||| has_prefix(l, "deleted file mode "@)
    ||| has_prefix(l, "similarity index "@)
    ||| has_prefix(l, "rename from "@)
    ||| has_prefix(l, "rename to "@)
    ||| has_prefix(l, "Binary files "@)
}

fn has_text_prefix(l: &[char], p: &str) -> (r: bool)
    ensures
        r == has_prefix(l@, p@),
{
    let pc = chars_of(p);
    starts_with(l, pc.as_slice())
}

/// Whether a diff line carries metadata.
pub fn is_diff_metadata(l: &[char]) -> (r: bool)
    ensures
        r == is_metadata(l@),
{
    has_text_prefix(l, "diff --git") || has_text_prefix(l, "index ") || has_text_prefix(l, "--- ")
        || has_text_prefix(l, "+++ ") || has_text_prefix(l, "new file mode ") || has_text_prefix(
        l,
        "deleted file mode ",
    ) || has_text_prefix(l, "similarity index ") || has_text_prefix(l, "rename from ")
        || has_text_prefix(l, "rename to ") || has_text_prefix(l, "Binary files ")
}

/// The displayed lines of a unified diff from the old and new line numbers
/// `old`, `new` on: hunk headers reset both and show both, metadata lines
/// are marked, added lines carry the new number, removed lines the old one,
/// context lines both, and other lines are marked.
pub open spec fn snapshot_rows(lines: Seq<Seq<char>>, old: nat, new: nat) -> Seq<LineView>
    decreases lines.len(),
{
    if lines.len() == 0 {
        seq![]
    } else {
        let l = lines[0];
        let rest = lines.drop_first();
        if has_prefix(l, seq!['@', '@']) {
            let (o, n) = hunk_header_starts(l);
            seq![LineView { prefix: seq!['@', '@'], number: pair_number(o, n), content: l }]
                + snapshot_rows(rest, o, n)
        } else if is_metadata(l) {
            seq![marked(l)] + snapshot_rows(rest, old, new)
        } else if has_prefix(l, seq!['+']) {
            seq![LineView { prefix: seq!['+'], number: decimal(new), content: l.drop_first() }]
                + snapshot_rows(rest, old, new + 1)
        } else if has_prefix(l, seq!['-']) {
            seq![LineView { prefix: seq!['-'], number: decimal(old), content: l.drop_first() }]
                + snapshot_rows(rest, old + 1, new)
        } else if has_prefix(l, seq![' ']) {
            seq![LineView { prefix: seq![' '], number: pair_number(old, new), content: l.drop_first() }]
                + snapshot_rows(rest, old + 1, new + 1)
        } else {
            seq![marked(l)] + snapshot_rows(rest, old, new)
        }
    }
}

/// The line numbers of `snapshot_rows` stay within `usize`, and hunk headers
/// can be read.
pub open spec fn snapshot_diff_readable(lines: Seq<Seq<char>>, old: nat, new: nat) -> bool
    decreases lines.len(),
{
    if lines.len() == 0 {
        true
    } else {
        let l = lines[0];
        let rest = lines.drop_first();
        if has_prefix(l, seq!['@', '@']) {
            let (o, n) = hunk_header_starts(l);
            header_cuttable(l) && snapshot_diff_readable(rest, o, n)
        } else if is_metadata(l) {
            snapshot_diff_readable(rest, old, new)
        } else if has_prefix(l, seq!['+']) {
            new < usize::MAX && snapshot_diff_readable(rest, old, new + 1)
        } else if has_prefix(l, seq!['-']) {
            old < usize::MAX && snapshot_diff_readable(rest, old + 1, new)
        } else if has_prefix(l, seq![' ']) {
            old < usize::MAX && new < usize::MAX && snapshot_diff_readable(rest, old + 1, new + 1)
        } else {
            snapshot_diff_readable(rest, old, new)
        }
    }
}

fn prefixed_line(prefix: char, number: String, content: String) -> (line: DiffLine)
    ensures
        line@ == (LineView { prefix: seq![prefix], number: number@, content: content@ }),
{
    let mut v: Vec<char> = Vec::new();
    v.push(prefix);
    assert(v@ =~= seq![prefix]);
    DiffLine { prefix: string_from_chars(v.as_slice()), number, content }
}

/// Parses unified diff text into displayed lines (see `snapshot_rows`).
pub fn parse_unified_diff(diff: &str) -> (lines: Vec<DiffLine>)
    requires
        snapshot_diff_readable(text_lines(diff@), 0, 0),
    ensures
        line_views(lines@) == snapshot_rows(text_lines(diff@), 0, 0),
{
    let cs = chars_of(diff);
    let raw = split_lines(cs.as_slice());
    let ghost all = char_seqs(raw@);
    let mut lines: Vec<DiffLine> = Vec::new();
    let mut old_line: usize = 0;
    let mut new_line: usize = 0;
    let mut i: usize = 0;
    assert(all.skip(0) =~= all);
    assert(line_views(lines@) =~= seq![]);
    while i < raw.len()
        invariant
            i <= raw.len(),
            all == char_seqs(raw@),
            all == text_lines(diff@),
            line_views(lines@) + snapshot_rows(all.skip(i as int), old_line as nat, new_line as nat)
                == snapshot_rows(all, 0, 0),
            snapshot_diff_readable(all.skip(i as int), old_line as nat, new_line as nat),
        decreases raw.len() - i,
    {
        let l = raw[i].as_slice();
        assert(all[i as int] == l@);
        let ghost rest = all.skip(i as int);
        assert(rest.drop_first() =~= all.skip(i + 1));
        assert(rest[0] == l@);
        let ghost before = line_views(lines@);
        let ghost o0 = old_line as nat;
        let ghost n0 = new_line as nat;
        let line;
        if begins_with2(l, '@', '@') {
            let (o, n) = parse_hunk_header(l);
            old_line = o;
            new_line = n;
            let prefix = "@@".to_owned();
            proof {
                reveal_strlit("@@");
                assert(prefix@ =~= seq!['@', '@']);
            }
            line = DiffLine { prefix, number: pair_string(o, n), content: string_from_chars(l) };
        } else if is_diff_metadata(l) {
            line = marked_line(string_from_chars(l));
        } else if begins_with1(l, '+') {
            line = prefixed_line('+', decimal_string(new_line), chars_after_first(l));
            new_line = new_line + 1;
        } else if begins_with1(l, '-') {
            line = prefixed_line('-', decimal_string(old_line), chars_after_first(l));
            old_line = old_line + 1;
        } else if begins_with1(l, ' ') {
            line = prefixed_line(' ', pair_string(old_line, new_line), chars_after_first(l));
            old_line = old_line + 1;
            new_line = new_line + 1;
        } else {
            line = marked_line(string_from_chars(l));
        }
        lines.push(line);
        assert(line_views(lines@) =~= before.push(line@));
        assert(snapshot_rows(rest, o0, n0) == seq![line@] + snapshot_rows(
            all.skip(i + 1),
            old_line as nat,
            new_line as nat,
        ));
        assert(line_views(lines@) + snapshot_rows(all.skip(i + 1), old_line as nat, new_line as nat)
            =~= before + snapshot_rows(rest, o0, n0));
        i = i + 1;
    }
    assert(all.skip(i as int) =~= seq![]);
    assert(line_views(lines@) =~= snapshot_rows(all, 0, 0));
    lines
}


/// The lines shown for an untracked file from reading it (`Err` with the
/// error text when reading failed): a new-file header, then a note for a
/// file holding a zero byte, else a hunk adding each of its text lines, or a
/// note that it is empty.
pub open spec fn untracked_snapshot_rows(path: Seq<char>, read: Result<Seq<u8>, Seq<char>>) -> Seq<LineView> {
    match read {
        Err(e) => seq![marked("Unable to read "@ + path + ": "@ + e)],
        Ok(bytes) => {
            let head = seq![
                marked("diff --git a/"@ + path + " b/"@ + path),
                marked("new file mode 100644"@),
                marked("--- /dev/null"@),
                marked("+++ b/"@ + path),
            ];
            if bytes.contains(0u8) {
                head.push(marked("Binary or non-text file preview unavailable."@))
            } else {
                let lines = text_lines(utf8_lossy(bytes));
                let hunk = LineView {
                    prefix: seq!['@', '@'],
                    number: if lines.len() == 0 {
                        seq![]
                    } else {
                        seq!['1']
                    },
                    content: "@@ -0,0 +1,"@ + decimal(lines.len()) + " @@"@,
                };
                if lines.len() == 0 {
                    head.push(hunk).push(marked("Empty file"@))
                } else {
                    head.push(hunk) + Seq::new(
                        lines.len(),
                        |k: int| LineView { prefix: seq!['+'], number: decimal((k + 1) as nat), content: lines[k] },
                    )
                }
            }
        },
    }
}

pub(crate) fn holds_zero(bytes: &[u8]) -> (r: bool)
    ensures
        r == bytes@.contains(0u8),
{
    let mut i: usize = 0;
    while i < bytes.len()
        invariant
            i <= bytes.len(),
            forall|k: int| 0 <= k < i ==> bytes@[k] != 0u8,
        decreases bytes.len() - i,
    {
        if bytes[i] == 0 {
            assert(bytes@[i as int] == 0u8);
            return true;
        }
        i = i + 1;
    }
    false
}

/// The diff lines of an untracked file, from the result of reading it.
pub fn build_untracked_diff(relative_path: &str, read: Result<Vec<u8>, String>) -> (diff: Vec<DiffLine>)
    ensures
        line_views(diff@) == untracked_snapshot_rows(
            relative_path@,
            match read {
                Ok(b) => Ok(b@),
                Err(e) => Err(e@),
            },
        ),
{
    let mut diff: Vec<DiffLine> = Vec::new();
    let bytes = match read {
        Err(error) => {
            let a = concat("Unable to read ", relative_path);
            let b = concat(a.as_str(), ": ");
            diff.push(marked_line(concat(b.as_str(), error.as_str())));
            assert(line_views(diff@) =~= seq![marked("Unable to read "@ + relative_path@ + ": "@ + error@)]);
            return diff;
        },
        Ok(b) => b,
    };
    let a = concat("diff --git a/", relative_path);
    let b = concat(a.as_str(), " b/");
    diff.push(marked_line(concat(b.as_str(), relative_path)));
    diff.push(marked_line("new file mode 100644".to_owned()));
    diff.push(marked_line("--- /dev/null".to_owned()));
    diff.push(marked_line(concat("+++ b/", relative_path)));
    let ghost head = line_views(diff@);
    assert(head =~= seq![
        marked("diff --git a/"@ + relative_path@ + " b/"@ + relative_path@),
        marked("new file mode 100644"@),
        marked("--- /dev/null"@),
        marked("+++ b/"@ + relative_path@),
    ]);
    if holds_zero(bytes.as_slice()) {
        diff.push(marked_line("Binary or non-text file preview unavailable.".to_owned()));
        assert(line_views(diff@) =~= head.push(marked("Binary or non-text file preview unavailable."@)));
        return diff;
    }
    let contents = lossy_string(bytes.as_slice());
    let cs = chars_of(contents.as_str());
    let lines = split_lines(cs.as_slice());
    let ghost lv = char_seqs(lines@);
    assert(lv.len() == lines.len());
    let count_text = decimal_string(lines.len());
    let c1 = concat("@@ -0,0 +1,", count_text.as_str());
    let hunk_text = concat(c1.as_str(), " @@");
    let number = if lines.len() == 0 {
        String::new()
    } else {
        let one = "1".to_owned();
        proof {
            reveal_strlit("1");
            assert(one@ =~= seq!['1']);
        }
        one
    };
    let prefix = "@@".to_owned();
    proof {
        reveal_strlit("@@");
        assert(prefix@ =~= seq!['@', '@']);
    }
    diff.push(DiffLine { prefix, number, content: hunk_text });
    if lines.len() == 0 {
        diff.push(marked_line("Empty file".to_owned()));
        return diff;
    }
    let ghost start = line_views(diff@);
    let mut k: usize = 0;
    while k < lines.len()
        invariant
            k <= lines.len(),
            lv == char_seqs(lines@),
            line_views(diff@) == start + Seq::new(
                k as nat,
                |j: int| LineView { prefix: seq!['+'], number: decimal((j + 1) as nat), content: lv[j] },
            ),
        decreases lines.len() - k,
    {
        let line = prefixed_line('+', decimal_string(k + 1), string_from_chars(lines[k].as_slice()));
        assert(lv[k as int] == lines@[k as int]@);
        let ghost before = line_views(diff@);
        diff.push(line);
        assert(line_views(diff@) =~= before.push(line@));
        assert(line_views(diff@) =~= start + Seq::new(
            (k + 1) as nat,
            |j: int| LineView { prefix: seq!['+'], number: decimal((j + 1) as nat), content: lv[j] },
        ));
        k = k + 1;
    }
    diff
}

/// The ranges of a hunk header can be cut after their first character.
fn header_cut_ok(header: &[char]) -> (r: bool)
    ensures
        r == header_cuttable(header@),
{
    let words = split_words(header);
    let ghost w = char_seqs(words@);
    assert(w.len() == words.len());
    proof {
        lemma_words_nonempty(header@);
    }
    if words.len() > 1 {
        assert(w[1] == words@[1]@);
        if words[1][0] >= '\u{80}' {
            return false;
        }
    }
    if words.len() > 2 {
        assert(w[2] == words@[2]@);
        if words[2][0] >= '\u{80}' {
            return false;
        }
    }
    true
}

/// Whether `parse_unified_diff` can read a text: its hunk headers can be cut
/// and its line numbers stay within `usize`.
pub fn unified_diff_readable(diff: &str) -> (r: bool)
    ensures
        r == snapshot_diff_readable(text_lines(diff@), 0, 0),
{
    let cs = chars_of(diff);
    let raw = split_lines(cs.as_slice());
    let ghost all = char_seqs(raw@);
    let mut old_line: usize = 0;
    let mut new_line: usize = 0;
    let mut i: usize = 0;
    assert(all.skip(0) =~= all);
    while i < raw.len()
        invariant
            i <= raw.len(),
            all == char_seqs(raw@),
            all == text_lines(diff@),
            snapshot_diff_readable(all, 0, 0) == snapshot_diff_readable(
                all.skip(i as int),
                old_line as nat,
                new_line as nat,
            ),
        decreases raw.len() - i,
    {
        let l = raw[i].as_slice();
        assert(all[i as int] == l@);
        let ghost rest = all.skip(i as int);
        assert(rest.drop_first() =~= all.skip(i + 1));
        assert(rest[0] == l@);
        if begins_with2(l, '@', '@') {
            if !header_cut_ok(l) {
                return false;
            }
            let (o, n) = parse_hunk_header(l);
            old_line = o;
            new_line = n;
        } else if is_diff_metadata(l) {
        } else if begins_with1(l, '+') {
            if new_line == usize::MAX {
                return false;
            }
            new_line = new_line + 1;
        } else if begins_with1(l, '-') {
            if old_line == usize::MAX {
                return false;
            }
            old_line = old_line + 1;
        } else if begins_with1(l, ' ') {
            if old_line == usize::MAX || new_line == usize::MAX {
                return false;
            }
            old_line = old_line + 1;
            new_line = new_line + 1;
        }
        i = i + 1;
    }
    assert(all.skip(i as int) =~= seq![]);
    true
}

/// The lines shown for a change whose diff is empty: an added file is shown
/// as an untracked one from reading it, a deleted file by its header, any
/// other change by a note.
pub open spec fn fallback_rows(
    entry: StatusView,
    added_file: Option<Result<Seq<u8>, Seq<char>>>,
) -> Seq<LineView> {
    if entry.status == seq!['A'] {
        untracked_snapshot_rows(entry.path, added_file.unwrap())
    } else if entry.status == seq!['D'] {
        seq![
            marked("diff --git a/"@ + entry.path + " b/"@ + entry.path),
            marked("deleted file "@ + entry.path),
        ]
    } else {
        seq![marked("No textual diff available for this change."@)]
    }
}

pub open spec fn read_view(read: Option<Result<Vec<u8>, String>>) -> Option<Result<Seq<u8>, Seq<char>>> {
    match read {
        Some(Ok(b)) => Some(Ok(b@)),
        Some(Err(e)) => Some(Err(e@)),
        None => None,
    }
}

/// The lines shown for a change without a textual diff; `added_file` is the
/// result of reading the file, needed for an added one.
pub fn fallback_diff_for_status(
    entry: &StatusEntry,
    added_file: Option<Result<Vec<u8>, String>>,
) -> (r: Vec<DiffLine>)
    requires
        entry.status@ == seq!['A'] ==> added_file is Some,
    ensures
        line_views(r@) == fallback_rows(entry@, read_view(added_file)),
{
    let added = "A".to_owned();
    let deleted = "D".to_owned();
    proof {
        reveal_strlit("A");
        reveal_strlit("D");
        assert(added@ =~= seq!['A']);
        assert(deleted@ =~= seq!['D']);
    }
    if entry.status == added {
        match added_file {
            Some(read) => build_untracked_diff(entry.path.as_str(), read),
            None => Vec::new(),
        }
    } else if entry.status == deleted {
        let mut r: Vec<DiffLine> = Vec::new();
        let a = concat("diff --git a/", entry.path.as_str());
        let b = concat(a.as_str(), " b/");
        r.push(marked_line(concat(b.as_str(), entry.path.as_str())));
        r.push(marked_line(concat("deleted file ", entry.path.as_str())));
        assert(line_views(r@) =~= fallback_rows(entry@, read_view(added_file)));
        r
    } else {
        let mut r: Vec<DiffLine> = Vec::new();
        r.push(marked_line("No textual diff available for this change.".to_owned()));
        assert(line_views(r@) =~= fallback_rows(entry@, read_view(added_file)));
        r
    }
}


/// One line of a snapshot diff read: its row, then the rows of the rest
/// from the numbers it leaves.
proof fn lemma_snapshot_rows_step(lines: Seq<Seq<char>>, old: nat, new: nat) -> (next: (nat, nat))
    requires
        lines.len() > 0,
    ensures
        snapshot_rows(lines, old, new) == seq![snapshot_rows(lines, old, new)[0]] + snapshot_rows(
            lines.drop_first(),
            next.0,
            next.1,
        ),
        has_prefix(lines[0], seq!['@', '@']) ==> next == hunk_header_starts(lines[0]),
        !has_prefix(lines[0], seq!['@', '@']) ==> next == (
            old + if takes_old_side(lines[0]) { 1nat } else { 0nat },
            new + if takes_new_side(lines[0]) { 1nat } else { 0nat },
        ),
{
    let l = lines[0];
    lemma_first_char(l);
    if has_prefix(l, seq!['@', '@']) {
        hunk_header_starts(l)
    } else if is_metadata(l) {
        (old, new)
    } else if has_prefix(l, seq!['+']) {
        (old, new + 1)
    } else if has_prefix(l, seq!['-']) {
        (old + 1, new)
    } else if has_prefix(l, seq![' ']) {
        (old + 1, new + 1)
    } else {
        (old, new)
    }
}

proof fn lemma_snapshot_rows_len(lines: Seq<Seq<char>>, old: nat, new: nat)
    ensures
        snapshot_rows(lines, old, new).len() == lines.len(),
    decreases lines.len(),
{
    if lines.len() > 0 {
        let next = lemma_snapshot_rows_step(lines, old, new);
        lemma_snapshot_rows_len(lines.drop_first(), next.0, next.1);
    }
}

/// The file header lines of a diff, `--- ` and `+++ `, are shown as they
/// are, marked with `>` and without a number, wherever they stand: never as
/// a removed or an added line.
pub proof fn lemma_file_headers_are_marked(lines: Seq<Seq<char>>, old: nat, new: nat, i: int)
    requires
        0 <= i < lines.len(),
        has_prefix(lines[i], "--- "@) || has_prefix(lines[i], "+++ "@),
    ensures
        snapshot_rows(lines, old, new).len() == lines.len(),
        snapshot_rows(lines, old, new)[i] == (LineView {
            prefix: seq!['>'],
            number: seq![],
            content: lines[i],
        }),
    decreases i,
{
    lemma_snapshot_rows_len(lines, old, new);
    let next = lemma_snapshot_rows_step(lines, old, new);
    lemma_snapshot_rows_len(lines.drop_first(), next.0, next.1);
    if i == 0 {
        let l = lines[0];
        reveal_strlit("--- ");
        reveal_strlit("+++ ");
        assert(l.take(4)[0] == l[0]);
        if has_prefix(l, seq!['@', '@']) {
            assert(l.take(2)[0] == l[0]);
        }
    } else {
        assert(lines.drop_first()[i - 1] == lines[i]);
        lemma_file_headers_are_marked(lines.drop_first(), next.0, next.1, i - 1);
    }
}


/// A line of a hunk that takes a line of the old file: a removed or a
/// context line that is not metadata.
pub open spec fn takes_old_side(l: Seq<char>) -> bool {
    !is_metadata(l) && (has_prefix(l, seq!['-']) || has_prefix(l, seq![' ']))
}

/// A line of a hunk that takes a line of the new file: an added or a
/// context line that is not metadata.
pub open spec fn takes_new_side(l: Seq<char>) -> bool {
    !is_metadata(l) && (has_prefix(l, seq!['+']) || has_prefix(l, seq![' ']))
}

/// How many of `lines` take a line of the old file.
pub open spec fn old_side_lines(lines: Seq<Seq<char>>) -> nat
    decreases lines.len(),
{
    if lines.len() == 0 {
        0
    } else {
        (if takes_old_side(lines[0]) { 1nat } else { 0nat }) + old_side_lines(lines.drop_first())
    }
}

/// How many of `lines` take a line of the new file.
pub open spec fn new_side_lines(lines: Seq<Seq<char>>) -> nat
    decreases lines.len(),
{
    if lines.len() == 0 {
        0
    } else {
        (if takes_new_side(lines[0]) { 1nat } else { 0nat }) + new_side_lines(lines.drop_first())
    }
}

proof fn lemma_first_char(l: Seq<char>)
    ensures
        forall|c: char| #[trigger] has_prefix(l, seq![c]) <==> (l.len() > 0 && l[0] == c),
        has_prefix(l, seq!['@', '@']) ==> l[0] == '@',
{
    assert forall|c: char| #[trigger] has_prefix(l, seq![c]) <==> (l.len() > 0 && l[0] == c) by {
        if l.len() > 0 {
            assert(l.take(1) =~= seq![l[0]]);
            assert(seq![c][0] == c);
        }
    }
    if has_prefix(l, seq!['@', '@']) {
        assert(l.take(2)[0] == l[0]);
    }
}

proof fn lemma_snapshot_within_hunk(lines: Seq<Seq<char>>, old: nat, new: nat, j: int)
    requires
        0 <= j < lines.len(),
        forall|i: int| 0 <= i <= j ==> !has_prefix(#[trigger] lines[i], seq!['@', '@']),
        !is_metadata(lines[j]),
    ensures
        has_prefix(lines[j], seq!['-']) ==> snapshot_rows(lines, old, new)[j] == (LineView {
            prefix: seq!['-'],
            number: decimal(old + old_side_lines(lines.take(j))),
            content: lines[j].drop_first(),
        }),
        has_prefix(lines[j], seq!['+']) ==> snapshot_rows(lines, old, new)[j] == (LineView {
            prefix: seq!['+'],
            number: decimal(new + new_side_lines(lines.take(j))),
            content: lines[j].drop_first(),
        }),
        has_prefix(lines[j], seq![' ']) ==> snapshot_rows(lines, old, new)[j] == (LineView {
            prefix: seq![' '],
            number: decimal(old + old_side_lines(lines.take(j))) + seq![':'] + decimal(
                new + new_side_lines(lines.take(j)),
            ),
            content: lines[j].drop_first(),
        }),
    decreases j,
{
    assert(!has_prefix(lines[0], seq!['@', '@']));
    lemma_first_char(lines[j]);
    assert(has_prefix(lines[j], seq!['+']) == (lines[j].len() > 0 && lines[j][0] == '+'));
    assert(has_prefix(lines[j], seq!['-']) == (lines[j].len() > 0 && lines[j][0] == '-'));
    assert(has_prefix(lines[j], seq![' ']) == (lines[j].len() > 0 && lines[j][0] == ' '));
    let next = lemma_snapshot_rows_step(lines, old, new);
    let rest = lines.drop_first();
    lemma_snapshot_rows_len(rest, next.0, next.1);
    if j == 0 {
        assert(lines.take(0) =~= Seq::<Seq<char>>::empty());
    } else {
        assert forall|i: int| 0 <= i <= j - 1 implies !has_prefix(#[trigger] rest[i], seq!['@', '@']) by {
            assert(rest[i] == lines[i + 1]);
        }
        assert(rest[j - 1] == lines[j]);
        lemma_snapshot_within_hunk(rest, next.0, next.1, j - 1);
        assert(lines.take(j).drop_first() =~= rest.take(j - 1));
        assert(lines.take(j)[0] == lines[0]);
    }
}

/// In the rows of a snapshot diff, a hunk header shows its old and new
/// starts as `old:new`; after it, a removed line shows its line number in
/// the old file, an added line its number in the new file and a context
/// line both: the hunk's start on each side plus the lines of that side
/// before it in the hunk. Metadata lines take no line of either file.
pub proof fn lemma_snapshot_line_numbers(lines: Seq<Seq<char>>, old: nat, new: nat, h: int, k: int)
    requires
        0 <= h < k < lines.len(),
        has_prefix(lines[h], seq!['@', '@']),
        forall|j: int| h < j <= k ==> !has_prefix(#[trigger] lines[j], seq!['@', '@']),
        !is_metadata(lines[k]),
    ensures
        snapshot_rows(lines, old, new).len() == lines.len(),
        snapshot_rows(lines, old, new)[h] == (LineView {
            prefix: seq!['@', '@'],
            number: decimal(hunk_header_starts(lines[h]).0) + seq![':'] + decimal(hunk_header_starts(lines[h]).1),
            content: lines[h],
        }),
        has_prefix(lines[k], seq!['-']) ==> snapshot_rows(lines, old, new)[k] == (LineView {
            prefix: seq!['-'],
            number: decimal(hunk_header_starts(lines[h]).0 + old_side_lines(lines.subrange(h + 1, k))),
            content: lines[k].drop_first(),
        }),
        has_prefix(lines[k], seq!['+']) ==> snapshot_rows(lines, old, new)[k] == (LineView {
            prefix: seq!['+'],
            number: decimal(hunk_header_starts(lines[h]).1 + new_side_lines(lines.subrange(h + 1, k))),
            content: lines[k].drop_first(),
        }),
        has_prefix(lines[k], seq![' ']) ==> snapshot_rows(lines, old, new)[k] == (LineView {
            prefix: seq![' '],
            number: decimal(hunk_header_starts(lines[h]).0 + old_side_lines(lines.subrange(h + 1, k)))
                + seq![':'] + decimal(hunk_header_starts(lines[h]).1 + new_side_lines(lines.subrange(h + 1, k))),
            content: lines[k].drop_first(),
        }),
    decreases h,
{
    lemma_snapshot_rows_len(lines, old, new);
    let next = lemma_snapshot_rows_step(lines, old, new);
    let rest = lines.drop_first();
    lemma_snapshot_rows_len(rest, next.0, next.1);
    if h == 0 {
        assert forall|i: int| 0 <= i <= k - 1 implies !has_prefix(#[trigger] rest[i], seq!['@', '@']) by {
            assert(rest[i] == lines[i + 1]);
        }
        assert(rest[k - 1] == lines[k]);
        lemma_snapshot_within_hunk(rest, next.0, next.1, k - 1);
        assert(lines.subrange(1, k) =~= rest.take(k - 1));
    } else {
        assert forall|j: int| h - 1 < j <= k - 1 implies !has_prefix(#[trigger] rest[j], seq!['@', '@']) by {
            assert(rest[j] == lines[j + 1]);
        }
        assert(rest[h - 1] == lines[h]);
        assert(rest[k - 1] == lines[k]);
        lemma_snapshot_line_numbers(rest, next.0, next.1, h - 1, k - 1);
        assert(lines.subrange(h + 1, k) =~= rest.subrange(h, k - 1));
    }
}

} // verus!
