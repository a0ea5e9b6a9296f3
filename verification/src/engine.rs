//! The shared review engine: changed files, parsed diff lines, findings, the
//! reviewed-file state and the selection that the front ends navigate.
use vstd::prelude::*;

use crate::text::{
    begins_with1, begins_with2, begins_with3, char_seqs, chars_after_first, chars_of, decimal,
    decimal_string, first_field, contains_char, concat, is_blank, trim_string, trim_chars, trimmed, first_field_of, has_prefix, parse_unsigned, parse_usize,
    split_lines, split_words, string_from_chars, text_lines, text_words, hex_chars, hex_digits,
};
use vstd::utf8::{decode_utf8, encode_utf8, valid_utf8};

verus! {

/// A changed file of the review.
#[derive(Clone, Debug, PartialEq, Eq)]
pub struct FileChange {
    pub path: String,
    pub status: String,
    pub additions: usize,
    pub deletions: usize,
}

/// A review finding shown in the review pane.
#[derive(Clone, Debug, PartialEq, Eq)]
pub struct Finding {
    pub severity: String,
    pub title: String,
    pub summary: String,
    pub line: String,
}

/// One displayed line of a file diff.
#[derive(Clone, Debug, PartialEq, Eq)]
pub struct DiffLine {
    pub prefix: String,
    pub number: String,
    pub content: String,
}

/// The characters of a diff line's three fields.
pub struct LineView {
    pub prefix: Seq<char>,
    pub number: Seq<char>,
    pub content: Seq<char>,
}

impl View for DiffLine {
    type V = LineView;

    open spec fn view(&self) -> LineView {
        LineView { prefix: self.prefix@, number: self.number@, content: self.content@ }
    }
}

pub open spec fn line_views(d: Seq<DiffLine>) -> Seq<LineView> {
    d.map_values(|l: DiffLine| l@)
}

/// What a user of a review session can do.
#[derive(Clone, Copy, Debug, PartialEq, Eq, Structural)]
pub enum ReviewAction {
    SelectFile(usize),
    SelectFinding(usize),
    ToggleSelectedFileReviewed,
    NextDiffChange,
    PreviousDiffChange,
    NextFile,
    PreviousFile,
    NextFinding,
    PreviousFinding,
}

pub open spec fn no_diff_message() -> Seq<char> {
    "No textual diff available for this file."@
}

/// A line shown as it is, with a blank prefix and no line number.
pub open spec fn plain_view(content: Seq<char>) -> LineView {
    LineView { prefix: seq![' '], number: seq![], content }
}

/// A diff line with a blank prefix, no line number and the given content.
pub fn plain_diff_line(content: String) -> (line: DiffLine)
    ensures
        line@ == plain_view(content@),
{
    let prefix = " ".to_owned();
    proof {
        reveal_strlit(" ");
        assert(prefix@ =~= seq![' ']);
    }
    DiffLine { prefix, number: String::new(), content }
}

pub open spec fn is_hunk_line(l: Seq<char>) -> bool {
    has_prefix(l, seq!['@', '@'])
}

pub open spec fn is_added_line(l: Seq<char>) -> bool {
    has_prefix(l, seq!['+']) && !has_prefix(l, seq!['+', '+', '+'])
}

pub open spec fn is_removed_line(l: Seq<char>) -> bool {
    has_prefix(l, seq!['-']) && !has_prefix(l, seq!['-', '-', '-'])
}

pub open spec fn is_context_line(l: Seq<char>) -> bool {
    has_prefix(l, seq![' '])
}

/// The start of a hunk range such as `12,2`: the number before the first comma.
pub open spec fn range_start(range: Seq<char>) -> Option<nat> {
    parse_unsigned(first_field(range, ','))
}

/// The old and new start lines of a hunk header `@@ -a,b +c,d @@ ...`: its
/// second and third words, after their `-` and `+`.
pub open spec fn hunk_starts(header: Seq<char>) -> Option<(nat, nat)> {
    let words = text_words(header);
    if words.len() >= 3 && has_prefix(words[1], seq!['-']) && has_prefix(words[2], seq!['+'])
        && range_start(words[1].drop_first()) is Some && range_start(words[2].drop_first()) is Some {
        Some((range_start(words[1].drop_first())->0, range_start(words[2].drop_first())->0))
    } else {
        None
    }
}

pub fn parse_range_start(range: &[char]) -> (r: Option<usize>)
    ensures
        match r {
            Some(v) => range_start(range@) == Some(v as nat),
            None => range_start(range@) is None,
        },
{
    let field = first_field_of(range, ',');
    parse_usize(field.as_slice())
}

/// Reads the old and new start lines of a hunk header.
pub fn parse_hunk_header(header: &str) -> (r: Option<(usize, usize)>)
    ensures
        match r {
            Some((o, n)) => hunk_starts(header@) == Some((o as nat, n as nat)),
            None => hunk_starts(header@) is None,
        },
{
    let cs = chars_of(header);
    hunk_header_of(cs.as_slice())
}

fn hunk_header_of(cs: &[char]) -> (r: Option<(usize, usize)>)
    ensures
        match r {
            Some((o, n)) => hunk_starts(cs@) == Some((o as nat, n as nat)),
            None => hunk_starts(cs@) is None,
        },
{
    let words = split_words(cs);
    assert(char_seqs(words@).len() == words@.len());
    if words.len() < 3 {
        return None;
    }
    let old_range = &words[1];
    let new_range = &words[2];
    assert(char_seqs(words@)[1] == old_range@);
    assert(char_seqs(words@)[2] == new_range@);
    if !begins_with1(old_range.as_slice(), '-') || !begins_with1(new_range.as_slice(), '+') {
        return None;
    }
    let old_rest = &old_range.as_slice()[1..old_range.len()];
    let new_rest = &new_range.as_slice()[1..new_range.len()];
    assert(old_rest@ =~= old_range@.drop_first());
    assert(new_rest@ =~= new_range@.drop_first());
    match parse_range_start(old_rest) {
        None => None,
        Some(o) => match parse_range_start(new_rest) {
            None => None,
            Some(n) => Some((o, n)),
        },
    }
}

/// The displayed lines of a unified diff, from the old and new line numbers
/// `old` and `new` on: hunk headers reset both numbers, added lines carry the
/// new number, removed lines the old one, context lines the new one, and any
/// other line is shown as it is.
pub open spec fn diff_rows(lines: Seq<Seq<char>>, old: nat, new: nat) -> Seq<LineView>
    decreases lines.len(),
{
    if lines.len() == 0 {
        seq![]
    } else {
        let l = lines[0];
        let rest = lines.drop_first();
        if is_hunk_line(l) {
            let (o, n) = match hunk_starts(l) {
                Some(p) => p,
                None => (old, new),
            };
            seq![LineView { prefix: seq!['@', '@'], number: decimal(n), content: l }] + diff_rows(
                rest,
                o,
                n,
            )
        } else if is_added_line(l) {
            seq![LineView { prefix: seq!['+'], number: decimal(new), content: l.drop_first() }]
                + diff_rows(rest, old, new + 1)
        } else if is_removed_line(l) {
            seq![LineView { prefix: seq!['-'], number: decimal(old), content: l.drop_first() }]
                + diff_rows(rest, old + 1, new)
        } else if is_context_line(l) {
            seq![LineView { prefix: seq![' '], number: decimal(new), content: l.drop_first() }]
                + diff_rows(rest, old + 1, new + 1)
        } else {
            seq![plain_view(l)] + diff_rows(rest, old, new)
        }
    }
}

/// The line counters of `diff_rows` never pass `usize::MAX`.
pub open spec fn counters_fit(lines: Seq<Seq<char>>, old: nat, new: nat) -> bool
    decreases lines.len(),
{
    if lines.len() == 0 {
        true
    } else {
        let l = lines[0];
        let rest = lines.drop_first();
        if is_hunk_line(l) {
            let (o, n) = match hunk_starts(l) {
                Some(p) => p,
                None => (old, new),
            };
            counters_fit(rest, o, n)
        } else if is_added_line(l) {
            new < usize::MAX && counters_fit(rest, old, new + 1)
        } else if is_removed_line(l) {
            old < usize::MAX && counters_fit(rest, old + 1, new)
        } else if is_context_line(l) {
            old < usize::MAX && new < usize::MAX && counters_fit(rest, old + 1, new + 1)
        } else {
            counters_fit(rest, old, new)
        }
    }
}

/// The displayed lines of a unified diff text; a text without lines shows
/// one line saying that there is no textual diff.
pub open spec fn parsed_diff(text: Seq<char>) -> Seq<LineView> {
    let rows = diff_rows(text_lines(text), 0, 0);
    if rows.len() == 0 {
        seq![plain_view(no_diff_message())]
    } else {
        rows
    }
}

/// Whether the line numbers of a unified diff text fit in `usize`, which
/// `parse_unified_diff` needs.
pub fn unified_diff_fits(diff: &str) -> (r: bool)
    ensures
        r == counters_fit(text_lines(diff@), 0, 0),
{
    let cs = chars_of(diff);
    let raw = split_lines(cs.as_slice());
    let ghost all = char_seqs(raw@);
    let mut old_line: usize = 0;
    let mut new_line: usize = 0;
    let mut i: usize = 0;
    assert(all.skip(0) =~= all);
    while i < raw.len()
        invariant
            i <= raw.len(),
            all == char_seqs(raw@),
            all == text_lines(diff@),
            counters_fit(all.skip(i as int), old_line as nat, new_line as nat) == counters_fit(
                all,
                0,
                0,
            ),
        decreases raw.len() - i,
    {
        let l = raw[i].as_slice();
        assert(all[i as int] == l@);
        assert(all.skip(i as int).drop_first() =~= all.skip(i + 1));
        assert(all.skip(i as int)[0] == l@);
        if begins_with2(l, '@', '@') {
            match hunk_header_of(l) {
                Some((o, n)) => {
                    old_line = o;
                    new_line = n;
                },
                None => {},
            }
        } else if begins_with1(l, '+') && !begins_with3(l, '+', '+', '+') {
            if new_line == usize::MAX {
                return false;
            }
            new_line = new_line + 1;
        } else if begins_with1(l, '-') && !begins_with3(l, '-', '-', '-') {
            if old_line == usize::MAX {
                return false;
            }
            old_line = old_line + 1;
        } else if begins_with1(l, ' ') {
            if old_line == usize::MAX || new_line == usize::MAX {
                return false;
            }
            old_line = old_line + 1;
            new_line = new_line + 1;
        }
        i = i + 1;
    }
    true
}

fn numbered_line(prefix: String, number: usize, content: String) -> (line: DiffLine)
    ensures
        line@ == (LineView { prefix: prefix@, number: decimal(number as nat), content: content@ }),
{
    DiffLine { prefix, number: decimal_string(number), content }
}

/// Parses unified diff text into displayed lines (see `parsed_diff`).
pub fn parse_unified_diff(diff: &str) -> (lines: Vec<DiffLine>)
    requires
        counters_fit(text_lines(diff@), 0, 0),
    ensures
        line_views(lines@) == parsed_diff(diff@),
{
    let cs = chars_of(diff);
    let raw = split_lines(cs.as_slice());
    let ghost all = char_seqs(raw@);
    let mut lines: Vec<DiffLine> = Vec::new();
    let mut old_line: usize = 0;
    let mut new_line: usize = 0;
    let mut i: usize = 0;
    assert(all.skip(0) =~= all);
    assert(line_views(lines@) =~= seq![]);
    while i < raw.len()
        invariant
            i <= raw.len(),
            all == char_seqs(raw@),
            all == text_lines(diff@),
            line_views(lines@) + diff_rows(all.skip(i as int), old_line as nat, new_line as nat)
                == diff_rows(all, 0, 0),
            counters_fit(all.skip(i as int), old_line as nat, new_line as nat),
        decreases raw.len() - i,
    {
        let l = raw[i].as_slice();
        assert(all[i as int] == l@);
        let ghost rest = all.skip(i as int);
        assert(rest.drop_first() =~= all.skip(i + 1));
        assert(rest[0] == l@);
        let ghost before = line_views(lines@);
        let ghost o0 = old_line as nat;
        let ghost n0 = new_line as nat;
        let line;
        if begins_with2(l, '@', '@') {
            match hunk_header_of(l) {
                Some((o, n)) => {
                    old_line = o;
                    new_line = n;
                },
                None => {},
            }
            let prefix = "@@".to_owned();
            proof {
                reveal_strlit("@@");
                assert(prefix@ =~= seq!['@', '@']);
            }
            line = numbered_line(prefix, new_line, string_from_chars(l));
        } else if begins_with1(l, '+') && !begins_with3(l, '+', '+', '+') {
            let prefix = "+".to_owned();
            proof {
                reveal_strlit("+");
                assert(prefix@ =~= seq!['+']);
            }
            line = numbered_line(prefix, new_line, chars_after_first(l));
            new_line = new_line + 1;
        } else if begins_with1(l, '-') && !begins_with3(l, '-', '-', '-') {
            let prefix = "-".to_owned();
            proof {
                reveal_strlit("-");
                assert(prefix@ =~= seq!['-']);
            }
            line = numbered_line(prefix, old_line, chars_after_first(l));
            old_line = old_line + 1;
        } else if begins_with1(l, ' ') {
            let prefix = " ".to_owned();
            proof {
                reveal_strlit(" ");
                assert(prefix@ =~= seq![' ']);
            }
            line = numbered_line(prefix, new_line, chars_after_first(l));
            old_line = old_line + 1;
            new_line = new_line + 1;
        } else {
            line = plain_diff_line(string_from_chars(l));
        }
        lines.push(line);
        assert(line_views(lines@) =~= before.push(line@));
        assert(diff_rows(rest, o0, n0) == seq![line@] + diff_rows(
            all.skip(i + 1),
            old_line as nat,
            new_line as nat,
        ));
        assert(line_views(lines@) + diff_rows(all.skip(i + 1), old_line as nat, new_line as nat)
            =~= before + diff_rows(rest, o0, n0));
        i = i + 1;
    }
    assert(all.skip(i as int) =~= seq![]);
    assert(line_views(lines@) =~= diff_rows(all, 0, 0));
    if lines.len() == 0 {
        let mut one: Vec<DiffLine> = Vec::new();
        one.push(plain_diff_line("No textual diff available for this file.".to_owned()));
        assert(line_views(one@) =~= seq![plain_view(no_diff_message())]);
        one
    } else {
        lines
    }
}


/// Whether a string is the single character `c`.
pub fn is_single_char(s: &String, c: char) -> (r: bool)
    ensures
        r == (s@ == seq![c]),
{
    let cs = chars_of(s.as_str());
    let r = cs.len() == 1 && cs[0] == c;
    proof {
        if cs.len() == 1 {
            assert(cs@ =~= seq![cs@[0]]);
            assert(seq![c][0] == c);
        }
    }
    r
}

/// Number of lines whose prefix is `p`.
pub open spec fn count_prefixed(d: Seq<LineView>, p: Seq<char>) -> nat
    decreases d.len(),
{
    if d.len() == 0 {
        0
    } else {
        count_prefixed(d.drop_last(), p) + if d.last().prefix == p {
            1nat
        } else {
            0nat
        }
    }
}

proof fn lemma_count_prefixed_bound(d: Seq<LineView>, p: Seq<char>)
    ensures
        count_prefixed(d, p) <= d.len(),
    decreases d.len(),
{
    if d.len() > 0 {
        lemma_count_prefixed_bound(d.drop_last(), p);
    }
}

/// The numbers of added and removed lines of a diff.
pub fn diff_stats(diff: &[DiffLine]) -> (r: (usize, usize))
    ensures
        r.0 == count_prefixed(line_views(diff@), seq!['+']),
        r.1 == count_prefixed(line_views(diff@), seq!['-']),
{
    let mut additions: usize = 0;
    let mut deletions: usize = 0;
    let mut i: usize = 0;
    while i < diff.len()
        invariant
            i <= diff.len(),
            additions == count_prefixed(line_views(diff@.take(i as int)), seq!['+']),
            deletions == count_prefixed(line_views(diff@.take(i as int)), seq!['-']),
        decreases diff.len() - i,
    {
        let ghost prev = line_views(diff@.take(i as int));
        let ghost next = line_views(diff@.take(i + 1));
        assert(next.drop_last() =~= prev);
        assert(next.last() == diff@[i as int]@);
        proof {
            lemma_count_prefixed_bound(prev, seq!['+']);
            lemma_count_prefixed_bound(prev, seq!['-']);
        }
        if is_single_char(&diff[i].prefix, '+') {
            assert(seq!['+'][0] != seq!['-'][0]);
            additions = additions + 1;
        } else if is_single_char(&diff[i].prefix, '-') {
            deletions = deletions + 1;
        }
        i = i + 1;
    }
    assert(diff@.take(i as int) =~= diff@);
    (additions, deletions)
}

/// One step of 64-bit FNV-1a hashing.
pub open spec fn fnv_step(h: u64, b: u8) -> u64 {
    (h ^ (b as u64)).wrapping_mul(0x100000001b3u64)
}

/// 64-bit FNV-1a hashing of `bytes`, starting from the state `h`.
pub open spec fn fnv1a(h: u64, bytes: Seq<u8>) -> u64
    decreases bytes.len(),
{
    if bytes.len() == 0 {
        h
    } else {
        fnv1a(fnv_step(h, bytes[0]), bytes.drop_first())
    }
}

proof fn lemma_fnv1a_concat(h: u64, a: Seq<u8>, b: Seq<u8>)
    ensures
        fnv1a(h, a + b) == fnv1a(fnv1a(h, a), b),
    decreases a.len(),
{
    if a.len() > 0 {
        assert((a + b).drop_first() =~= a.drop_first() + b);
        lemma_fnv1a_concat(fnv_step(h, a[0]), a.drop_first(), b);
    } else {
        assert(a + b =~= b);
    }
}

/// Feeds `bytes` into the FNV-1a state `hash`.
pub fn hash_bytes(hash: &mut u64, bytes: &[u8])
    ensures
        *final(hash) == fnv1a(*old(hash), bytes@),
{
    let ghost h0 = *hash;
    let mut i: usize = 0;
    assert(bytes@.skip(0) =~= bytes@);
    while i < bytes.len()
        invariant
            i <= bytes.len(),
            fnv1a(h0, bytes@) == fnv1a(*hash, bytes@.skip(i as int)),
        decreases bytes.len() - i,
    {
        assert(bytes@.skip(i as int).drop_first() =~= bytes@.skip(i + 1));
        let b = bytes[i];
        *hash = (*hash ^ (b as u64)).wrapping_mul(0x100000001b3u64);
        i = i + 1;
    }
    assert(bytes@.skip(i as int) =~= seq![]);
}

/// The bytes that the hash of a diff line covers: its three fields in UTF-8,
/// separated by a zero byte and closed by `0xff`.
pub open spec fn line_bytes(l: LineView) -> Seq<u8> {
    encode_utf8(l.prefix) + seq![0u8] + encode_utf8(l.number) + seq![0u8] + encode_utf8(l.content)
        + seq![0xffu8]
}

pub open spec fn diff_bytes(d: Seq<LineView>) -> Seq<u8>
    decreases d.len(),
{
    if d.len() == 0 {
        seq![]
    } else {
        diff_bytes(d.drop_last()) + line_bytes(d.last())
    }
}

pub open spec fn fnv_offset() -> u64 {
    0xcbf29ce484222325u64
}

/// The hash of a file diff: FNV-1a over its lines' bytes, as sixteen lower
/// case hexadecimal digits.
pub open spec fn diff_hash_text(d: Seq<LineView>) -> Seq<char> {
    hex_digits(fnv1a(fnv_offset(), diff_bytes(d)) as nat, 16)
}

/// The hash that keys a file's reviewed state to its diff.
pub fn diff_hash(diff: &[DiffLine]) -> (r: String)
    ensures
        r@ == diff_hash_text(line_views(diff@)),
{
    let mut hash: u64 = 0xcbf29ce484222325u64;
    let mut i: usize = 0;
    let zero: [u8; 1] = [0u8];
    let end: [u8; 1] = [0xffu8];
    assert(zero@ =~= seq![0u8]);
    assert(end@ =~= seq![0xffu8]);
    while i < diff.len()
        invariant
            i <= diff.len(),
            zero@ == seq![0u8],
            end@ == seq![0xffu8],
            hash == fnv1a(fnv_offset(), diff_bytes(line_views(diff@.take(i as int)))),
        decreases diff.len() - i,
    {
        let ghost prev = line_views(diff@.take(i as int));
        let ghost next = line_views(diff@.take(i + 1));
        assert(next.drop_last() =~= prev);
        assert(next.last() == diff@[i as int]@);
        let line = &diff[i];
        let ghost l = line@;
        let ghost h_start = hash;
        hash_bytes(&mut hash, line.prefix.as_str().as_bytes());
        hash_bytes(&mut hash, zero.as_slice());
        hash_bytes(&mut hash, line.number.as_str().as_bytes());
        hash_bytes(&mut hash, zero.as_slice());
        hash_bytes(&mut hash, line.content.as_str().as_bytes());
        hash_bytes(&mut hash, end.as_slice());
        proof {
            let p = encode_utf8(l.prefix);
            let n = encode_utf8(l.number);
            let c = encode_utf8(l.content);
            let z = seq![0u8];
            let e = seq![0xffu8];
            lemma_fnv1a_concat(h_start, p, z);
            lemma_fnv1a_concat(h_start, p + z, n);
            lemma_fnv1a_concat(h_start, p + z + n, z);
            lemma_fnv1a_concat(h_start, p + z + n + z, c);
            lemma_fnv1a_concat(h_start, p + z + n + z + c, e);
            lemma_fnv1a_concat(fnv_offset(), diff_bytes(prev), line_bytes(l));
        }
        i = i + 1;
    }
    assert(diff@.take(i as int) =~= diff@);
    let digits = hex_chars(hash, 16);
    string_from_chars(digits.as_slice())
}

/// Whether a diff line is an added or removed line.
pub open spec fn is_changed(l: LineView) -> bool {
    l.prefix == seq!['+'] || l.prefix == seq!['-']
}

pub fn is_changed_line(line: &DiffLine) -> (r: bool)
    ensures
        r == is_changed(line@),
{
    is_single_char(&line.prefix, '+') || is_single_char(&line.prefix, '-')
}

/// Line `i` starts a block of changed lines.
pub open spec fn starts_block(d: Seq<LineView>, i: int) -> bool {
    is_changed(d[i]) && (i == 0 || !is_changed(d[i - 1]))
}

/// The indices from `i` on at which a block of changed lines starts, in order.
pub open spec fn block_starts_from(d: Seq<LineView>, i: int) -> Seq<nat>
    decreases d.len() - i,
{
    if i < 0 || i >= d.len() {
        seq![]
    } else if starts_block(d, i) {
        seq![i as nat] + block_starts_from(d, i + 1)
    } else {
        block_starts_from(d, i + 1)
    }
}

/// The indices at which blocks of changed lines start, in order.
pub open spec fn block_starts(d: Seq<LineView>) -> Seq<nat> {
    block_starts_from(d, 0)
}

/// Indices of the first line of each block of changed lines.
pub fn diff_change_indices(diff: &[DiffLine]) -> (r: Vec<usize>)
    ensures
        r@.map_values(|x: usize| x as nat) == block_starts(line_views(diff@)),
{
    let ghost d = line_views(diff@);
    let mut r: Vec<usize> = Vec::new();
    let mut i: usize = 0;
    let mut prev_changed = false;
    assert(r@.map_values(|x: usize| x as nat) =~= seq![]);
    while i < diff.len()
        invariant
            i <= diff.len(),
            d == line_views(diff@),
            prev_changed == (i > 0 && is_changed(d[i - 1])),
            r@.map_values(|x: usize| x as nat) + block_starts_from(d, i as int) == block_starts(d),
        decreases diff.len() - i,
    {
        let changed = is_changed_line(&diff[i]);
        assert(d[i as int] == diff@[i as int]@);
        let ghost before = r@.map_values(|x: usize| x as nat);
        if changed && !prev_changed {
            r.push(i);
            assert(r@.map_values(|x: usize| x as nat) =~= before.push(i as nat));
            assert(before.push(i as nat) + block_starts_from(d, i + 1) =~= before + (seq![
                i as nat,
            ] + block_starts_from(d, i + 1)));
        }
        prev_changed = changed;
        i = i + 1;
    }
    r
}

/// The index of the first line of the first block of changed lines.
pub fn first_diff_change_index(diff: &[DiffLine]) -> (r: Option<usize>)
    ensures
        match r {
            Some(i) => block_starts(line_views(diff@)).len() > 0 && block_starts(
                line_views(diff@),
            )[0] == i,
            None => block_starts(line_views(diff@)).len() == 0,
        },
{
    let indices = diff_change_indices(diff);
    assert(indices@.map_values(|x: usize| x as nat).len() == indices.len());
    if indices.len() > 0 {
        assert(indices@.map_values(|x: usize| x as nat)[0] == indices@[0] as nat);
        Some(indices[0])
    } else {
        None
    }
}

/// The first line of the block of changed lines that holds line `i`.
pub open spec fn block_begin(d: Seq<LineView>, i: int) -> int
    decreases i,
{
    if i <= 0 || !is_changed(d[i - 1]) {
        i
    } else {
        block_begin(d, i - 1)
    }
}

/// One past the last line of the block of changed lines that holds line `i`.
pub open spec fn block_end(d: Seq<LineView>, i: int) -> int
    decreases d.len() - i,
{
    if i + 1 >= d.len() || !is_changed(d[i + 1]) {
        i + 1
    } else {
        block_end(d, i + 1)
    }
}

/// The range of lines of the block of changed lines that holds line `sel`,
/// when that line is a changed line.
pub open spec fn change_range(d: Seq<LineView>, sel: int) -> Option<(int, int)> {
    if 0 <= sel < d.len() && is_changed(d[sel]) {
        Some((block_begin(d, sel), block_end(d, sel)))
    } else {
        None
    }
}

/// The block of changed lines around the selected line.
pub fn selected_diff_change_range(diff: &[DiffLine], selected_diff_line: usize) -> (r: Option<
    core::ops::Range<usize>,
>)
    ensures
        match r {
            Some(range) => change_range(line_views(diff@), selected_diff_line as int) == Some(
                (range.start as int, range.end as int),
            ),
            None => change_range(line_views(diff@), selected_diff_line as int) is None,
        },
{
    let ghost d = line_views(diff@);
    if selected_diff_line >= diff.len() || !is_changed_line(&diff[selected_diff_line]) {
        return None;
    }
    let mut start = selected_diff_line;
    while start > 0 && is_changed_line(&diff[start - 1])
        invariant
            start <= selected_diff_line < diff.len(),
            d == line_views(diff@),
            block_begin(d, start as int) == block_begin(d, selected_diff_line as int),
        decreases start,
    {
        assert(d[start - 1] == diff@[start - 1]@);
        start = start - 1;
    }
    if start > 0 {
        assert(d[start - 1] == diff@[start - 1]@);
    }
    let mut end = selected_diff_line + 1;
    while end < diff.len() && is_changed_line(&diff[end])
        invariant
            selected_diff_line < end <= diff.len(),
            d == line_views(diff@),
            block_end(d, end - 1) == block_end(d, selected_diff_line as int),
        decreases diff.len() - end,
    {
        assert(d[end as int] == diff@[end as int]@);
        end = end + 1;
    }
    if end < diff.len() {
        assert(d[end as int] == diff@[end as int]@);
    }
    Some(start..end)
}


/// The one-letter status shown for a Git porcelain status code.
pub open spec fn display_status_text(status: Seq<char>) -> Seq<char> {
    if status == seq!['?', '?'] || status.contains('A') {
        seq!['A']
    } else if status.contains('D') {
        seq!['D']
    } else if status.contains('R') {
        seq!['R']
    } else if status.contains('C') {
        seq!['C']
    } else if status.contains('U') {
        seq!['U']
    } else if status.contains('M') {
        seq!['M']
    } else {
        trimmed(status)
    }
}

fn single_char_string(c: char) -> (r: String)
    ensures
        r@ == seq![c],
{
    let mut v: Vec<char> = Vec::new();
    v.push(c);
    assert(v@ =~= seq![c]);
    string_from_chars(v.as_slice())
}

/// The one-letter status shown for a Git porcelain status code.
pub fn display_status(status: &str) -> (r: String)
    ensures
        r@ == display_status_text(status@),
{
    let cs = chars_of(status);
    let untracked = cs.len() == 2 && cs[0] == '?' && cs[1] == '?';
    proof {
        if cs.len() == 2 {
            assert(cs@ =~= seq![cs@[0], cs@[1]]);
            assert(seq!['?', '?'][0] == '?' && seq!['?', '?'][1] == '?');
        }
        assert(seq!['?', '?'].len() == 2);
    }
    if untracked || contains_char(cs.as_slice(), 'A') {
        single_char_string('A')
    } else if contains_char(cs.as_slice(), 'D') {
        single_char_string('D')
    } else if contains_char(cs.as_slice(), 'R') {
        single_char_string('R')
    } else if contains_char(cs.as_slice(), 'C') {
        single_char_string('C')
    } else if contains_char(cs.as_slice(), 'U') {
        single_char_string('U')
    } else if contains_char(cs.as_slice(), 'M') {
        single_char_string('M')
    } else {
        let t = trim_chars(cs.as_slice());
        string_from_chars(t.as_slice())
    }
}

/// A changed path as `git status --porcelain` reports it.
#[derive(Clone, Debug, PartialEq, Eq)]
pub struct StatusEntry {
    pub status: String,
    pub path: String,
}

/// How a status record of `git status --porcelain -z` is read.
#[derive(Clone, Copy, Debug, PartialEq, Eq, Structural)]
pub enum StatusRecordKind {
    /// An ignored path (`!!`): skipped.
    Ignored,
    /// A path of its own.
    Single,
    /// A rename or copy: the record after it holds the original path.
    Paired,
}

pub open spec fn status_record_kind_of(status: Seq<char>) -> StatusRecordKind {
    if status == seq!['!', '!'] {
        StatusRecordKind::Ignored
    } else if status.contains('R') || status.contains('C') {
        StatusRecordKind::Paired
    } else {
        StatusRecordKind::Single
    }
}

/// Classifies the two-letter status of a porcelain record.
pub fn status_record_kind(status: &str) -> (r: StatusRecordKind)
    ensures
        r == status_record_kind_of(status@),
{
    let cs = chars_of(status);
    let ignored = cs.len() == 2 && cs[0] == '!' && cs[1] == '!';
    proof {
        if cs.len() == 2 {
            assert(cs@ =~= seq![cs@[0], cs@[1]]);
            assert(seq!['!', '!'][0] == '!' && seq!['!', '!'][1] == '!');
        }
        assert(seq!['!', '!'].len() == 2);
    }
    if ignored {
        StatusRecordKind::Ignored
    } else if contains_char(cs.as_slice(), 'R') || contains_char(cs.as_slice(), 'C') {
        StatusRecordKind::Paired
    } else {
        StatusRecordKind::Single
    }
}

/// The text that `String::from_utf8_lossy` makes of some bytes.
pub uninterp spec fn utf8_lossy(bytes: Seq<u8>) -> Seq<char>;

/// Decodes bytes as UTF-8, replacing invalid sequences
/// (`String::from_utf8_lossy`).  Trusted: the result is `utf8_lossy` of
/// the bytes, and valid UTF-8 is decoded unchanged.
#[verifier::external_body]
pub(crate) fn lossy_string(bytes: &[u8]) -> (s: String)
    ensures
        s@ == utf8_lossy(bytes@),
        valid_utf8(bytes@) ==> s@ == decode_utf8(bytes@),
{
    String::from_utf8_lossy(bytes).into_owned()
}

/// Decodes bytes as UTF-8 (`std::str::from_utf8`).  Trusted: `None` exactly
/// when the bytes are not valid UTF-8, and otherwise their decoding.
#[verifier::external_body]
pub(crate) fn decode_utf8_text(bytes: &[u8]) -> (s: Option<String>)
    ensures
        s is Some <==> valid_utf8(bytes@),
        s matches Some(t) ==> t@ == decode_utf8(bytes@),
{
    std::str::from_utf8(bytes).ok().map(|text| text.to_owned())
}

/// The non-empty NUL-separated records of some bytes (`split(|b| b == 0)`
/// without the empty pieces).
pub open spec fn nul_records_from(rest: Seq<u8>, cur: Seq<u8>) -> Seq<Seq<u8>>
    decreases rest.len(),
{
    if rest.len() == 0 {
        if cur.len() > 0 {
            seq![cur]
        } else {
            seq![]
        }
    } else if rest[0] == 0 {
        (if cur.len() > 0 {
            seq![cur]
        } else {
            seq![]
        }) + nul_records_from(rest.drop_first(), seq![])
    } else {
        nul_records_from(rest.drop_first(), cur.push(rest[0]))
    }
}

pub open spec fn nul_records(b: Seq<u8>) -> Seq<Seq<u8>> {
    nul_records_from(b, seq![])
}

pub open spec fn byte_seqs(v: Seq<Vec<u8>>) -> Seq<Seq<u8>> {
    v.map_values(|r: Vec<u8>| r@)
}

fn split_nul_records(b: &[u8]) -> (records: Vec<Vec<u8>>)
    ensures
        byte_seqs(records@) == nul_records(b@),
{
    let mut records: Vec<Vec<u8>> = Vec::new();
    let mut cur: Vec<u8> = Vec::new();
    let mut i: usize = 0;
    assert(b@.skip(0) =~= b@);
    assert(cur@ =~= seq![]);
    assert(byte_seqs(records@) + nul_records_from(b@, cur@) =~= nul_records_from(b@, seq![]));
    while i < b.len()
        invariant
            i <= b.len(),
            byte_seqs(records@) + nul_records_from(b@.skip(i as int), cur@) == nul_records(b@),
        decreases b.len() - i,
    {
        let ghost rest = b@.skip(i as int);
        assert(rest.drop_first() =~= b@.skip(i + 1));
        let c = b[i];
        let ghost before = cur@;
        if c == 0 {
            if cur.len() > 0 {
                records.push(cur);
                cur = Vec::new();
                assert(byte_seqs(records@) =~= byte_seqs(records@.drop_last()) + seq![before]);
                assert(byte_seqs(records@) + nul_records_from(b@.skip(i + 1), cur@) =~= byte_seqs(
                    records@.drop_last(),
                ) + (seq![before] + nul_records_from(b@.skip(i + 1), seq![])));
            } else {
                assert(before =~= seq![]);
                assert(nul_records_from(rest, before) =~= nul_records_from(
                    b@.skip(i + 1),
                    seq![],
                ));
            }
        } else {
            cur.push(c);
            assert(nul_records_from(rest, before) == nul_records_from(b@.skip(i + 1), cur@));
        }
        i = i + 1;
    }
    assert(b@.skip(i as int) =~= seq![]);
    if cur.len() > 0 {
        let ghost before = cur@;
        records.push(cur);
        assert(byte_seqs(records@) =~= byte_seqs(records@.drop_last()) + seq![before]);
    }
    records
}

/// A status entry as characters.
pub struct EntryView {
    pub status: Seq<char>,
    pub path: Seq<char>,
}

pub open spec fn entry_views(e: Seq<StatusEntry>) -> Seq<EntryView> {
    e.map_values(|x: StatusEntry| EntryView { status: x.status@, path: x.path@ })
}

/// The entries read from the records at index `i` on: records shorter than
/// four bytes and ignored paths are skipped, the status is the first two
/// bytes and the path what follows the third, and a rename or copy also
/// consumes the next record.
pub open spec fn status_entries_from(records: Seq<Seq<u8>>, i: int) -> Seq<EntryView>
    decreases records.len() + 1 - i,
{
    if i < 0 || i >= records.len() {
        seq![]
    } else {
        let r = records[i];
        if r.len() < 4 {
            status_entries_from(records, i + 1)
        } else {
            let status = utf8_lossy(r.take(2));
            match status_record_kind_of(status) {
                StatusRecordKind::Ignored => status_entries_from(records, i + 1),
                StatusRecordKind::Single => seq![
                    EntryView { status, path: utf8_lossy(r.skip(3)) },
                ] + status_entries_from(records, i + 1),
                StatusRecordKind::Paired => seq![
                    EntryView { status, path: utf8_lossy(r.skip(3)) },
                ] + status_entries_from(records, i + 2),
            }
        }
    }
}

/// Reads the output of `git status --porcelain=v1 -z -uall`.
pub fn git_status_entries(output: &[u8]) -> (entries: Vec<StatusEntry>)
    ensures
        entry_views(entries@) == status_entries_from(nul_records(output@), 0),
{
    let records = split_nul_records(output);
    let ghost all = byte_seqs(records@);
    let mut entries: Vec<StatusEntry> = Vec::new();
    let mut index: usize = 0;
    assert(entry_views(entries@) =~= seq![]);
    while index < records.len()
        invariant
            all == byte_seqs(records@),
            all == nul_records(output@),
            entry_views(entries@) + status_entries_from(all, index as int)
                == status_entries_from(all, 0),
        decreases records.len() - index,
    {
        let record = records[index].as_slice();
        assert(all[index as int] == record@);
        let ghost before = entry_views(entries@);
        if record.len() < 4 {
            index = index + 1;
        } else {
            let head = &record[0..2];
            let tail = &record[3..record.len()];
            assert(head@ =~= record@.take(2));
            assert(tail@ =~= record@.skip(3));
            let status = lossy_string(head);
            let kind = status_record_kind(status.as_str());
            match kind {
                StatusRecordKind::Ignored => {
                    index = index + 1;
                },
                _ => {
                    let path = lossy_string(tail);
                    let ghost e = EntryView { status: status@, path: path@ };
                    entries.push(StatusEntry { status, path });
                    assert(entry_views(entries@) =~= before.push(e));
                    assert(before.push(e) + status_entries_from(
                        all,
                        if kind == StatusRecordKind::Paired {
                            index + 2
                        } else {
                            index + 1
                        },
                    ) =~= before + (seq![e] + status_entries_from(
                        all,
                        if kind == StatusRecordKind::Paired {
                            index + 2
                        } else {
                            index + 1
                        },
                    )));
                    if kind == StatusRecordKind::Paired {
                        if index + 1 < records.len() {
                            index = index + 2;
                        } else {
                            assert(status_entries_from(all, index + 2) .len() == 0);
                            assert(status_entries_from(all, index + 1) .len() == 0);
                            index = index + 1;
                        }
                    } else {
                        index = index + 1;
                    }
                },
            }
        }
    }
    assert(status_entries_from(all, index as int) .len() == 0);
    assert(entry_views(entries@) =~= status_entries_from(all, 0));
    entries
}


/// A status entry is of an untracked file (`??`): its diff is read from
/// the file itself rather than from git.
pub fn is_untracked_status(status: &str) -> (r: bool)
    ensures
        r == (status@ == "??"@),
{
    crate::analysis::syntax::text_is(status, "??")
}

/// `diff --git a/<path> b/<path>`
pub open spec fn git_header_text(path: Seq<char>) -> Seq<char> {
    "diff --git a/"@ + path + " b/"@ + path
}

fn git_header(path: &str) -> (r: String)
    ensures
        r@ == git_header_text(path@),
{
    let a = concat("diff --git a/", path);
    let b = concat(a.as_str(), " b/");
    concat(b.as_str(), path)
}

/// The lines shown for an untracked file, given its bytes (`None` when it
/// could not be read): a new-file diff of its text lines, or a note when it
/// cannot be read, holds a zero byte, or is not UTF-8.
pub open spec fn untracked_rows(path: Seq<char>, contents: Option<Seq<u8>>) -> Seq<LineView> {
    match contents {
        None => seq![plain_view("Unable to read untracked file."@)],
        Some(bytes) => if bytes.contains(0u8) {
            seq![
                plain_view(git_header_text(path)),
                plain_view("new binary file; content omitted"@),
            ]
        } else if !valid_utf8(bytes) {
            seq![
                plain_view(git_header_text(path)),
                plain_view("new non-UTF-8 file; content omitted"@),
            ]
        } else {
            let lines = text_lines(decode_utf8(bytes));
            seq![
                plain_view(git_header_text(path)),
                plain_view("new file"@),
                plain_view("--- /dev/null"@),
                plain_view("+++ b/"@ + path),
                LineView {
                    prefix: seq!['@', '@'],
                    number: seq!['1'],
                    content: "@@ -0,0 +1,"@ + decimal(lines.len()) + " @@"@,
                },
            ] + Seq::new(
                lines.len(),
                |k: int| LineView { prefix: seq!['+'], number: decimal((k + 1) as nat), content: lines[k] },
            )
        },
    }
}

fn contains_zero(bytes: &[u8]) -> (r: bool)
    ensures
        r == bytes@.contains(0u8),
{
    let mut i: usize = 0;
    while i < bytes.len()
        invariant
            i <= bytes.len(),
            forall|k: int| 0 <= k < i ==> bytes@[k] != 0u8,
        decreases bytes.len() - i,
    {
        if bytes[i] == 0 {
            assert(bytes@[i as int] == 0u8);
            return true;
        }
        i = i + 1;
    }
    false
}

/// The diff lines of an untracked file, from its bytes (`None` when the
/// file could not be read).
pub fn untracked_file_diff(path: &str, contents: Option<&[u8]>) -> (diff: Vec<DiffLine>)
    ensures
        line_views(diff@) == untracked_rows(
            path@,
            match contents {
                Some(b) => Some(b@),
                None => None,
            },
        ),
{
    let mut diff: Vec<DiffLine> = Vec::new();
    let bytes = match contents {
        None => {
            diff.push(plain_diff_line("Unable to read untracked file.".to_owned()));
            assert(line_views(diff@) =~= seq![plain_view("Unable to read untracked file."@)]);
            return diff;
        },
        Some(b) => b,
    };
    if contains_zero(bytes) {
        diff.push(plain_diff_line(git_header(path)));
        diff.push(plain_diff_line("new binary file; content omitted".to_owned()));
        assert(line_views(diff@) =~= untracked_rows(path@, Some(bytes@)));
        return diff;
    }
    let text = match decode_utf8_text(bytes) {
        None => {
            diff.push(plain_diff_line(git_header(path)));
            diff.push(plain_diff_line("new non-UTF-8 file; content omitted".to_owned()));
            assert(line_views(diff@) =~= untracked_rows(path@, Some(bytes@)));
            return diff;
        },
        Some(t) => t,
    };
    let cs = chars_of(text.as_str());
    let content_lines = split_lines(cs.as_slice());
    let ghost lines = char_seqs(content_lines@);
    assert(lines == text_lines(decode_utf8(bytes@)));
    diff.push(plain_diff_line(git_header(path)));
    diff.push(plain_diff_line("new file".to_owned()));
    diff.push(plain_diff_line("--- /dev/null".to_owned()));
    diff.push(plain_diff_line(concat("+++ b/", path)));
    let count_text = decimal_string(content_lines.len());
    let a = concat("@@ -0,0 +1,", count_text.as_str());
    let hunk = concat(a.as_str(), " @@");
    let prefix = "@@".to_owned();
    let one = "1".to_owned();
    proof {
        reveal_strlit("@@");
        reveal_strlit("1");
        assert(prefix@ =~= seq!['@', '@']);
        assert(one@ =~= seq!['1']);
    }
    diff.push(DiffLine { prefix, number: one, content: hunk });
    let ghost head = line_views(diff@);
    let mut k: usize = 0;
    while k < content_lines.len()
        invariant
            k <= content_lines.len(),
            lines == char_seqs(content_lines@),
            head.len() == 5,
            line_views(diff@) == head + Seq::new(
                k as nat,
                |j: int| LineView { prefix: seq!['+'], number: decimal((j + 1) as nat), content: lines[j] },
            ),
        decreases content_lines.len() - k,
    {
        let plus = "+".to_owned();
        proof {
            reveal_strlit("+");
            assert(plus@ =~= seq!['+']);
        }
        let line = DiffLine {
            prefix: plus,
            number: decimal_string(k + 1),
            content: string_from_chars(content_lines[k].as_slice()),
        };
        assert(lines[k as int] == content_lines@[k as int]@);
        let ghost before = line_views(diff@);
        diff.push(line);
        assert(line_views(diff@) =~= before.push(line@));
        assert(line_views(diff@) =~= head + Seq::new(
            (k + 1) as nat,
            |j: int| LineView { prefix: seq!['+'], number: decimal((j + 1) as nat), content: lines[j] },
        ));
        k = k + 1;
    }
    assert(line_views(diff@) =~= untracked_rows(path@, Some(bytes@)));
    diff
}

/// The text of a tracked file's diff: its staged diff, then its unstaged
/// diff (after a line break when the staged part does not end with one);
/// blank parts are left out.
pub open spec fn combined_diff_text(cached: Seq<char>, working: Seq<char>) -> Seq<char> {
    let first = if trimmed(cached).len() > 0 {
        cached
    } else {
        seq![]
    };
    if trimmed(working).len() > 0 {
        if first.len() > 0 && first.last() != '\n' {
            first + seq!['\n'] + working
        } else {
            first + working
        }
    } else {
        first
    }
}

/// The lines shown for a tracked file, from its staged and unstaged diffs.
pub open spec fn tracked_rows(cached: Seq<char>, working: Seq<char>) -> Seq<LineView> {
    let combined = combined_diff_text(cached, working);
    if trimmed(combined).len() == 0 {
        seq![plain_view(no_diff_message())]
    } else {
        parsed_diff(combined)
    }
}

/// Joins the staged and unstaged diff texts of a file.
pub fn combined_diff(cached: &str, working: &str) -> (r: String)
    ensures
        r@ == combined_diff_text(cached@, working@),
{
    let mut combined = String::new();
    if !is_blank(cached) {
        combined = cached.to_owned();
    }
    if !is_blank(working) {
        let cs = chars_of(combined.as_str());
        if cs.len() > 0 && cs[cs.len() - 1] != '\n' {
            let nl = "\n".to_owned();
            proof {
                reveal_strlit("\n");
                assert(nl@ =~= seq!['\n']);
            }
            combined = concat(combined.as_str(), nl.as_str());
        }
        combined = concat(combined.as_str(), working);
    }
    combined
}

/// The diff lines of a tracked file, from the outputs of `git diff --cached`
/// and `git diff` for it.
pub fn tracked_file_diff(cached: &str, working: &str) -> (diff: Vec<DiffLine>)
    requires
        counters_fit(text_lines(combined_diff_text(cached@, working@)), 0, 0),
    ensures
        line_views(diff@) == tracked_rows(cached@, working@),
{
    let combined = combined_diff(cached, working);
    if is_blank(combined.as_str()) {
        let mut one: Vec<DiffLine> = Vec::new();
        one.push(plain_diff_line("No textual diff available for this file.".to_owned()));
        assert(line_views(one@) =~= seq![plain_view(no_diff_message())]);
        one
    } else {
        parse_unified_diff(combined.as_str())
    }
}

/// The label of the review: the current branch's working tree, or just the
/// working tree when there is no branch name.
pub open spec fn review_label_text(branch: Option<Seq<char>>) -> Seq<char> {
    match branch {
        Some(b) => if trimmed(b).len() > 0 {
            trimmed(b) + " working tree"@
        } else {
            "working tree"@
        },
        None => "working tree"@,
    }
}

/// The review label from the output of `git branch --show-current` (`None`
/// when the command failed).
pub fn review_label(branch: Option<&str>) -> (r: String)
    ensures
        r@ == review_label_text(
            match branch {
                Some(b) => Some(b@),
                None => None,
            },
        ),
{
    match branch {
        Some(b) => if !is_blank(b) {
            let t = trim_string(b);
            concat(t.as_str(), " working tree")
        } else {
            "working tree".to_owned()
        },
        None => "working tree".to_owned(),
    }
}

/// The key under which reviewed files are stored: the branch, else the
/// detached head commit, else the bare working tree.
pub open spec fn review_key_text(branch: Option<Seq<char>>, head: Option<Seq<char>>) -> Seq<
    char,
> {
    match branch {
        Some(b) if trimmed(b).len() > 0 => "branch:"@ + trimmed(b),
        _ => match head {
            Some(h) => "detached:"@ + trimmed(h),
            None => "working-tree"@,
        },
    }
}

/// The review key from the outputs of `git branch --show-current` and
/// `git rev-parse HEAD` (`None` where the command failed).
pub fn review_key(branch: Option<&str>, head: Option<&str>) -> (r: String)
    ensures
        r@ == review_key_text(
            match branch {
                Some(b) => Some(b@),
                None => None,
            },
            match head {
                Some(h) => Some(h@),
                None => None,
            },
        ),
{
    if let Some(b) = branch {
        if !is_blank(b) {
            let t = trim_string(b);
            return concat("branch:", t.as_str());
        }
    }
    match head {
        Some(h) => {
            let t = trim_string(h);
            concat("detached:", t.as_str())
        },
        None => "working-tree".to_owned(),
    }
}

/// The message of a failed Git command: the command, and what it wrote to
/// standard error when that is not blank.
pub open spec fn git_failure_text(command: Seq<char>, stderr: Seq<char>) -> Seq<char> {
    if trimmed(stderr).len() == 0 {
        "git command failed: "@ + command
    } else {
        "git command failed: "@ + command + ": "@ + trimmed(stderr)
    }
}

pub fn git_failure_message(command: &str, stderr: &str) -> (r: String)
    ensures
        r@ == git_failure_text(command@, stderr@),
{
    let head = concat("git command failed: ", command);
    if is_blank(stderr) {
        head
    } else {
        let a = concat(head.as_str(), ": ");
        let t = trim_string(stderr);
        concat(a.as_str(), t.as_str())
    }
}

} // verus!

pub use crate::session::{PersistRequest, PersistenceContext, ReviewSession};
