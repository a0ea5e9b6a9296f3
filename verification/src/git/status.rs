//! Status lines of `git status --porcelain` and `git show --name-status`.
use vstd::prelude::*;

use crate::text::{
    char_seqs, chars_of, last_piece, last_piece_of, split_fields, string_from_chars, text_fields,
    trim_chars, trimmed,
};
use vstd::string::StringSliceAdditionalSpecFns;
use vstd::utf8::{decode_utf8, encode_utf8, is_char_boundary};

verus! {

/// A changed path with its summarized status.
#[derive(Clone, Debug, PartialEq, Eq)]
pub struct StatusEntry {
    pub path: String,
    pub status: String,
    pub untracked: bool,
}

pub struct StatusView {
    pub path: Seq<char>,
    pub status: Seq<char>,
    pub untracked: bool,
}

impl View for StatusEntry {
    type V = StatusView;

    open spec fn view(&self) -> StatusView {
        StatusView { path: self.path@, status: self.status@, untracked: self.untracked }
    }
}

/// The letter of the first status code in `s` that means added, deleted,
/// renamed (copies count as renames), unmerged or modified; modified when
/// there is none.
pub open spec fn first_status_letter(s: Seq<char>) -> Seq<char>
    decreases s.len(),
{
    if s.len() == 0 {
        seq!['M']
    } else if s[0] == 'A' {
        seq!['A']
    } else if s[0] == 'D' {
        seq!['D']
    } else if s[0] == 'R' || s[0] == 'C' {
        seq!['R']
    } else if s[0] == 'U' {
        seq!['U']
    } else if s[0] == 'M' {
        seq!['M']
    } else {
        first_status_letter(s.drop_first())
    }
}

/// The one-letter status of a raw status code: untracked files count as added.
pub open spec fn summarized_status(raw: Seq<char>) -> Seq<char> {
    if raw == seq!['?', '?'] {
        seq!['A']
    } else {
        first_status_letter(raw)
    }
}

fn letter(c: char) -> (r: String)
    ensures
        r@ == seq![c],
{
    let mut v: Vec<char> = Vec::new();
    v.push(c);
    assert(v@ =~= seq![c]);
    string_from_chars(v.as_slice())
}

fn is_two(cs: &[char], a: char, b: char) -> (r: bool)
    ensures
        r == (cs@ == seq![a, b]),
{
    let r = cs.len() == 2 && cs[0] == a && cs[1] == b;
    proof {
        if cs.len() == 2 {
            assert(cs@ =~= seq![cs@[0], cs@[1]]);
        }
        assert(seq![a, b].len() == 2 && seq![a, b][0] == a && seq![a, b][1] == b);
    }
    r
}

/// Summarizes a raw status code as one letter.
pub fn summarize_status(raw_status: &str) -> (r: String)
    ensures
        r@ == summarized_status(raw_status@),
{
    let cs = chars_of(raw_status);
    if is_two(cs.as_slice(), '?', '?') {
        return letter('A');
    }
    let mut i: usize = 0;
    assert(cs@.skip(0) =~= cs@);
    while i < cs.len()
        invariant
            i <= cs.len(),
            cs@ == raw_status@,
            cs@ != seq!['?', '?'],
            first_status_letter(cs@.skip(i as int)) == first_status_letter(cs@),
        decreases cs.len() - i,
    {
        assert(cs@.skip(i as int).drop_first() =~= cs@.skip(i + 1));
        let c = cs[i];
        if c == 'A' {
            return letter('A');
        } else if c == 'D' {
            return letter('D');
        } else if c == 'R' || c == 'C' {
            return letter('R');
        } else if c == 'U' {
            return letter('U');
        } else if c == 'M' {
            return letter('M');
        }
        i = i + 1;
    }
    assert(cs@.skip(i as int) =~= seq![]);
    letter('M')
}

pub open spec fn arrow() -> Seq<char> {
    seq![' ', '-', '>', ' ']
}

/// The entry of a line of `git status --porcelain` output, by its UTF-8
/// bytes: lines shorter than four bytes and ignored paths give none; the
/// status is the first two bytes, the path what follows the third, trimmed,
/// and for renames the part after the last ` -> `.
pub open spec fn porcelain_entry(bytes: Seq<u8>) -> Option<StatusView> {
    if bytes.len() < 4 {
        None
    } else {
        let raw = decode_utf8(bytes.take(2));
        if raw == seq!['!', '!'] {
            None
        } else {
            Some(
                StatusView {
                    path: last_piece(trimmed(decode_utf8(bytes.skip(3))), arrow()),
                    status: summarized_status(raw),
                    untracked: raw == seq!['?', '?'],
                },
            )
        }
    }
}

/// The line can be cut after its second and third bytes, as reading a
/// porcelain status line does.
pub open spec fn porcelain_cuttable(bytes: Seq<u8>) -> bool {
    bytes.len() < 4 || (is_char_boundary(bytes, 2) && is_char_boundary(bytes, 3))
}

fn arrow_chars() -> (r: Vec<char>)
    ensures
        r@ == arrow(),
{
    let mut v: Vec<char> = Vec::new();
    v.push(' ');
    v.push('-');
    v.push('>');
    v.push(' ');
    assert(v@ =~= arrow());
    v
}

/// Reads a line of `git status --porcelain=v1` output.
pub fn parse_porcelain_status(line: &str) -> (r: Option<StatusEntry>)
    requires
        porcelain_cuttable(encode_utf8(line@)),
    ensures
        match r {
            Some(e) => porcelain_entry(encode_utf8(line@)) == Some(e@),
            None => porcelain_entry(encode_utf8(line@)) is None,
        },
{
    broadcast use vstd::utf8::encode_utf8_decode_utf8;

    let ghost bytes = encode_utf8(line@);
    assert(line.spec_bytes() == bytes);
    if line.as_bytes().len() < 4 {
        return None;
    }
    let (head, _) = line.split_at(2);
    let (_, tail) = line.split_at(3);
    assert(head@ == decode_utf8(bytes.take(2))) by {
        assert(encode_utf8(head@) =~= bytes.subrange(0, 2));
        assert(bytes.take(2) =~= bytes.subrange(0, 2));
    }
    assert(tail@ == decode_utf8(bytes.skip(3))) by {
        assert(encode_utf8(tail@) =~= bytes.subrange(3, bytes.len() as int));
        assert(bytes.skip(3) =~= bytes.subrange(3, bytes.len() as int));
    }
    let raw = chars_of(head);
    if is_two(raw.as_slice(), '!', '!') {
        return None;
    }
    let tail_chars = chars_of(tail);
    let trimmed_tail = trim_chars(tail_chars.as_slice());
    let arrow_v = arrow_chars();
    let path = last_piece_of(trimmed_tail.as_slice(), arrow_v.as_slice());
    let untracked = is_two(raw.as_slice(), '?', '?');
    Some(
        StatusEntry {
            path: string_from_chars(path.as_slice()),
            status: summarize_status(head),
            untracked,
        },
    )
}

/// The entry of a line of `git show --name-status` output: its first tab
/// field is the status and its last one the path, both trimmed; a line
/// without a tab gives none.
pub open spec fn name_status_entry(line: Seq<char>) -> Option<StatusView> {
    let fields = text_fields(line, '\t');
    if fields.len() < 2 {
        None
    } else {
        Some(
            StatusView {
                path: trimmed(fields.last()),
                status: summarized_status(trimmed(fields[0])),
                untracked: false,
            },
        )
    }
}

/// Reads a line of `git show --name-status` output.
pub fn parse_name_status(line: &str) -> (r: Option<StatusEntry>)
    ensures
        match r {
            Some(e) => name_status_entry(line@) == Some(e@),
            None => name_status_entry(line@) is None,
        },
{
    let cs = chars_of(line);
    let fields = split_fields(cs.as_slice(), '\t');
    let ghost fv = char_seqs(fields@);
    if fields.len() < 2 {
        return None;
    }
    assert(fv[0] == fields@[0]@);
    assert(fv.last() == fields@[fields.len() - 1]@);
    let raw = trim_chars(fields[0].as_slice());
    let path = trim_chars(fields[fields.len() - 1].as_slice());
    let raw_text = string_from_chars(raw.as_slice());
    Some(
        StatusEntry {
            path: string_from_chars(path.as_slice()),
            status: summarize_status(raw_text.as_str()),
            untracked: false,
        },
    )
}


/// The one-letter status a character of a raw status code stands for, if
/// it stands for one: added, deleted, renamed (a copy counts as a rename),
/// unmerged or modified.
pub open spec fn code_letter(c: char) -> Option<char> {
    if c == 'A' || c == 'D' || c == 'U' || c == 'M' {
        Some(c)
    } else if c == 'R' || c == 'C' {
        Some('R')
    } else {
        None
    }
}

/// The summary of a raw status code is decided by its first character, from
/// the left, that stands for a status: an index code wins over a worktree
/// code after it (`AM` is added). A code with no such character summarizes
/// as modified, and `??` (untracked) as added.
pub proof fn lemma_first_status_code_wins(raw: Seq<char>, k: int)
    ensures
        raw == seq!['?', '?'] ==> summarized_status(raw) == seq!['A'],
        raw != seq!['?', '?'] && 0 <= k < raw.len() && code_letter(raw[k]) is Some && (forall|j: int|
            0 <= j < k ==> code_letter(#[trigger] raw[j]) is None) ==> summarized_status(raw) == seq![
            code_letter(raw[k])->0,
        ],
        raw != seq!['?', '?'] && (forall|j: int| 0 <= j < raw.len() ==> code_letter(#[trigger] raw[j]) is None)
            ==> summarized_status(raw) == seq!['M'],
{
    if 0 <= k < raw.len() && code_letter(raw[k]) is Some && (forall|j: int| 0 <= j < k ==> code_letter(#[trigger] raw[j]) is None) {
        lemma_first_letter_at(raw, k);
    }
    if forall|j: int| 0 <= j < raw.len() ==> code_letter(#[trigger] raw[j]) is None {
        lemma_no_letter(raw);
    }
}

proof fn lemma_first_letter_at(s: Seq<char>, k: int)
    requires
        0 <= k < s.len(),
        code_letter(s[k]) is Some,
        forall|j: int| 0 <= j < k ==> code_letter(#[trigger] s[j]) is None,
    ensures
        first_status_letter(s) == seq![code_letter(s[k])->0],
    decreases k,
{
    if k > 0 {
        assert(code_letter(s[0]) is None);
        assert forall|j: int| 0 <= j < k - 1 implies code_letter(#[trigger] s.drop_first()[j]) is None by {
            assert(s.drop_first()[j] == s[j + 1]);
        }
        lemma_first_letter_at(s.drop_first(), k - 1);
    }
}

proof fn lemma_no_letter(s: Seq<char>)
    requires
        forall|j: int| 0 <= j < s.len() ==> code_letter(#[trigger] s[j]) is None,
    ensures
        first_status_letter(s) == seq!['M'],
    decreases s.len(),
{
    if s.len() > 0 {
        assert(code_letter(s[0]) is None);
        assert forall|j: int| 0 <= j < s.len() - 1 implies code_letter(#[trigger] s.drop_first()[j]) is None by {
            assert(s.drop_first()[j] == s[j + 1]);
        }
        lemma_no_letter(s.drop_first());
    }
}

} // verus!
