//! Character-level text handling shared by the diff, status and tree code:
//! splitting text into lines and words, decimal and hexadecimal numbers,
//! prefix tests and ordering of strings.
use vstd::prelude::*;

verus! {

/// The characters that carry the Unicode `White_Space` property, which is
/// what `char::is_whitespace` tests.
pub open spec fn is_ws(c: char) -> bool {
    ||| c == '\t'
    ||| c == '\n'
    ||| c == '\u{0B}'
    ||| c == '\u{0C}'
    ||| c == '\r'
    ||| c == ' '
    ||| c == '\u{85}'
    ||| c == '\u{A0}'
    ||| c == '\u{1680}'
    ||| ('\u{2000}' <= c && c <= '\u{200A}')
    ||| c == '\u{2028}'
    ||| c == '\u{2029}'
    ||| c == '\u{202F}'
    ||| c == '\u{205F}'
    ||| c == '\u{3000}'
}

pub fn is_whitespace(c: char) -> (r: bool)
    ensures
        r == is_ws(c),
{
    c == '\t' || c == '\n' || c == '\u{0B}' || c == '\u{0C}' || c == '\r' || c == ' ' || c
        == '\u{85}' || c == '\u{A0}' || c == '\u{1680}' || ('\u{2000}' <= c && c <= '\u{200A}')
        || c == '\u{2028}' || c == '\u{2029}' || c == '\u{202F}' || c == '\u{205F}' || c
        == '\u{3000}'
}

/// Builds a `String` from a slice of characters
/// (`<String as FromIterator<&char>>::from_iter`).  Trusted: the resulting
/// string holds exactly the given characters, in order.
#[verifier::external_body]
pub(crate) fn string_from_chars(cs: &[char]) -> (s: String)
    ensures
        s@ == cs@,
{
    String::from_iter(cs)
}

/// The characters of a string, in order.
pub fn chars_of(s: &str) -> (v: Vec<char>)
    ensures
        v@ == s@,
{
    broadcast use vstd::string::group_string_axioms;

    let mut v: Vec<char> = Vec::new();
    for c in it: s.chars()
        invariant
            it.seq() == s@,
            v@ == s@.take(it.index() as int),
    {
        v.push(c);
        assert(s@.take(it.index() + 1) =~= s@.take(it.index() as int).push(c));
    }
    assert(v@ =~= s@);
    v
}


/// Drops one carriage return that ends a line.
pub open spec fn strip_cr(line: Seq<char>) -> Seq<char> {
    if line.len() > 0 && line.last() == '\r' {
        line.drop_last()
    } else {
        line
    }
}

/// The lines of `rest`, given that `cur` holds the characters of the line
/// read so far: lines end at `'\n'` (a `'\r'` just before it is dropped) and
/// the text after the last `'\n'` is a line only when it is not empty.
/// This is how `str::lines` splits text.
pub open spec fn lines_from(rest: Seq<char>, cur: Seq<char>) -> Seq<Seq<char>>
    decreases rest.len(),
{
    if rest.len() == 0 {
        if cur.len() > 0 {
            seq![cur]
        } else {
            seq![]
        }
    } else if rest[0] == '\n' {
        seq![strip_cr(cur)] + lines_from(rest.drop_first(), seq![])
    } else {
        lines_from(rest.drop_first(), cur.push(rest[0]))
    }
}

/// The lines of a text, as `str::lines` yields them.
pub open spec fn text_lines(s: Seq<char>) -> Seq<Seq<char>> {
    lines_from(s, seq![])
}

pub open spec fn char_seqs(v: Seq<Vec<char>>) -> Seq<Seq<char>> {
    v.map_values(|l: Vec<char>| l@)
}

/// Splits a text into its lines, as `str::lines` does.
pub fn split_lines(cs: &[char]) -> (lines: Vec<Vec<char>>)
    ensures
        char_seqs(lines@) == text_lines(cs@),
{
    let mut lines: Vec<Vec<char>> = Vec::new();
    let mut cur: Vec<char> = Vec::new();
    let mut i: usize = 0;
    assert(cs@.skip(0) =~= cs@);
    assert(cur@ =~= seq![]);
    assert(char_seqs(lines@) + lines_from(cs@, cur@) =~= lines_from(cs@, seq![]));
    while i < cs.len()
        invariant
            i <= cs.len(),
            char_seqs(lines@) + lines_from(cs@.skip(i as int), cur@) == text_lines(cs@),
        decreases cs.len() - i,
    {
        let ghost rest = cs@.skip(i as int);
        assert(rest.drop_first() =~= cs@.skip(i + 1));
        let c = cs[i];
        if c == '\n' {
            let ghost before = cur@;
            if cur.len() > 0 && cur[cur.len() - 1] == '\r' {
                cur.pop();
            }
            assert(cur@ == strip_cr(before));
            lines.push(cur);
            cur = Vec::new();
            assert(char_seqs(lines@) =~= char_seqs(lines@.drop_last()) + seq![strip_cr(before)]);
            assert(char_seqs(lines@.drop_last()) + lines_from(rest, before) == text_lines(cs@));
            assert(lines_from(rest, before) == seq![strip_cr(before)] + lines_from(
                cs@.skip(i + 1),
                seq![],
            ));
            assert(cur@ =~= seq![]);
            assert(char_seqs(lines@) + lines_from(cs@.skip(i + 1), cur@) =~= char_seqs(
                lines@.drop_last(),
            ) + (seq![strip_cr(before)] + lines_from(cs@.skip(i + 1), seq![])));
        } else {
            let ghost before = cur@;
            cur.push(c);
            assert(lines_from(rest, before) == lines_from(cs@.skip(i + 1), cur@));
        }
        i = i + 1;
    }
    assert(cs@.skip(i as int) =~= seq![]);
    if cur.len() > 0 {
        let ghost before = cur@;
        lines.push(cur);
        assert(char_seqs(lines@) =~= char_seqs(lines@.drop_last()) + seq![before]);
    }
    lines
}

/// The words of `rest` (maximal runs of non-whitespace characters), given
/// that `cur` holds the characters of the word read so far.  This is how
/// `str::split_whitespace` splits text.
pub open spec fn words_from(rest: Seq<char>, cur: Seq<char>) -> Seq<Seq<char>>
    decreases rest.len(),
{
    if rest.len() == 0 {
        if cur.len() > 0 {
            seq![cur]
        } else {
            seq![]
        }
    } else if is_ws(rest[0]) {
        (if cur.len() > 0 {
            seq![cur]
        } else {
            seq![]
        }) + words_from(rest.drop_first(), seq![])
    } else {
        words_from(rest.drop_first(), cur.push(rest[0]))
    }
}

/// The words of a text, as `str::split_whitespace` yields them.
pub open spec fn text_words(s: Seq<char>) -> Seq<Seq<char>> {
    words_from(s, seq![])
}

/// Splits a text into words separated by whitespace, as `str::split_whitespace` does.
pub fn split_words(cs: &[char]) -> (words: Vec<Vec<char>>)
    ensures
        char_seqs(words@) == text_words(cs@),
{
    let mut words: Vec<Vec<char>> = Vec::new();
    let mut cur: Vec<char> = Vec::new();
    let mut i: usize = 0;
    assert(cs@.skip(0) =~= cs@);
    assert(cur@ =~= seq![]);
    assert(char_seqs(words@) + words_from(cs@, cur@) =~= words_from(cs@, seq![]));
    while i < cs.len()
        invariant
            i <= cs.len(),
            char_seqs(words@) + words_from(cs@.skip(i as int), cur@) == text_words(cs@),
        decreases cs.len() - i,
    {
        let ghost rest = cs@.skip(i as int);
        assert(rest.drop_first() =~= cs@.skip(i + 1));
        let c = cs[i];
        if is_whitespace(c) {
            let ghost before = cur@;
            if cur.len() > 0 {
                words.push(cur);
                cur = Vec::new();
                assert(char_seqs(words@) =~= char_seqs(words@.drop_last()) + seq![before]);
                assert(char_seqs(words@) + words_from(cs@.skip(i + 1), cur@) =~= char_seqs(
                    words@.drop_last(),
                ) + (seq![before] + words_from(cs@.skip(i + 1), seq![])));
            } else {
                assert(before =~= seq![]);
                assert(words_from(rest, before) =~= words_from(cs@.skip(i + 1), seq![]));
            }
        } else {
            let ghost before = cur@;
            cur.push(c);
            assert(words_from(rest, before) == words_from(cs@.skip(i + 1), cur@));
        }
        i = i + 1;
    }
    assert(cs@.skip(i as int) =~= seq![]);
    if cur.len() > 0 {
        let ghost before = cur@;
        words.push(cur);
        assert(char_seqs(words@) =~= char_seqs(words@.drop_last()) + seq![before]);
    }
    words
}


pub open spec fn digit_char(d: nat) -> char {
    if d == 0 {
        '0'
    } else if d == 1 {
        '1'
    } else if d == 2 {
        '2'
    } else if d == 3 {
        '3'
    } else if d == 4 {
        '4'
    } else if d == 5 {
        '5'
    } else if d == 6 {
        '6'
    } else if d == 7 {
        '7'
    } else if d == 8 {
        '8'
    } else if d == 9 {
        '9'
    } else if d == 10 {
        'a'
    } else if d == 11 {
        'b'
    } else if d == 12 {
        'c'
    } else if d == 13 {
        'd'
    } else if d == 14 {
        'e'
    } else {
        'f'
    }
}

fn digit(d: u64) -> (c: char)
    requires
        d < 16,
    ensures
        c == digit_char(d as nat),
{
    if d == 0 {
        '0'
    } else if d == 1 {
        '1'
    } else if d == 2 {
        '2'
    } else if d == 3 {
        '3'
    } else if d == 4 {
        '4'
    } else if d == 5 {
        '5'
    } else if d == 6 {
        '6'
    } else if d == 7 {
        '7'
    } else if d == 8 {
        '8'
    } else if d == 9 {
        '9'
    } else if d == 10 {
        'a'
    } else if d == 11 {
        'b'
    } else if d == 12 {
        'c'
    } else if d == 13 {
        'd'
    } else if d == 14 {
        'e'
    } else {
        'f'
    }
}

/// The decimal notation of a number, as `to_string` writes it.
pub open spec fn decimal(n: nat) -> Seq<char>
    decreases n,
{
    if n < 10 {
        seq![digit_char(n)]
    } else {
        decimal(n / 10).push(digit_char(n % 10))
    }
}

pub fn decimal_chars(n: usize) -> (v: Vec<char>)
    ensures
        v@ == decimal(n as nat),
    decreases n,
{
    if n < 10 {
        let mut v: Vec<char> = Vec::new();
        v.push(digit(n as u64));
        assert(v@ =~= seq![digit_char(n as nat)]);
        v
    } else {
        let mut v = decimal_chars(n / 10);
        v.push(digit((n % 10) as u64));
        v
    }
}

/// The decimal notation of a number as a `String`.
pub fn decimal_string(n: usize) -> (s: String)
    ensures
        s@ == decimal(n as nat),
{
    let v = decimal_chars(n);
    string_from_chars(v.as_slice())
}

/// The last `count` hexadecimal digits of `n`, most significant first, in lower case.
pub open spec fn hex_digits(n: nat, count: nat) -> Seq<char>
    decreases count,
{
    if count == 0 {
        seq![]
    } else {
        hex_digits(n / 16, (count - 1) as nat).push(digit_char(n % 16))
    }
}

pub fn hex_chars(n: u64, count: usize) -> (v: Vec<char>)
    ensures
        v@ == hex_digits(n as nat, count as nat),
    decreases count,
{
    if count == 0 {
        Vec::new()
    } else {
        let mut v = hex_chars(n / 16, count - 1);
        v.push(digit(n % 16));
        v
    }
}

pub open spec fn is_digit(c: char) -> bool {
    '0' <= c && c <= '9'
}

pub open spec fn digit_value(c: char) -> nat {
    (c as int - '0' as int) as nat
}

/// The number that a run of decimal digits denotes.
pub open spec fn digits_value(s: Seq<char>) -> nat
    decreases s.len(),
{
    if s.len() == 0 {
        0
    } else {
        digits_value(s.drop_last()) * 10 + digit_value(s.last())
    }
}

pub open spec fn all_digits(s: Seq<char>) -> bool {
    forall|i: int| 0 <= i < s.len() ==> is_digit(#[trigger] s[i])
}

/// What `usize::from_str` gives for a text: an optional `'+'`, then at least
/// one decimal digit and nothing else, denoting a value that fits in `usize`.
pub open spec fn parse_unsigned(s: Seq<char>) -> Option<nat> {
    let t = if s.len() > 0 && s[0] == '+' {
        s.drop_first()
    } else {
        s
    };
    if t.len() > 0 && all_digits(t) && digits_value(t) <= usize::MAX {
        Some(digits_value(t))
    } else {
        None
    }
}

proof fn lemma_digits_value_grows(s: Seq<char>, i: int)
    requires
        0 <= i <= s.len(),
        all_digits(s),
    ensures
        digits_value(s.take(i)) <= digits_value(s),
    decreases s.len() - i,
{
    if i < s.len() {
        lemma_digits_value_grows(s, i + 1);
        assert(s.take(i + 1).drop_last() =~= s.take(i));
    } else {
        assert(s.take(i) =~= s);
    }
}

fn digit_of(c: char) -> (d: usize)
    requires
        is_digit(c),
    ensures
        d as nat == digit_value(c),
        d < 10,
{
    if c == '0' {
        0
    } else if c == '1' {
        1
    } else if c == '2' {
        2
    } else if c == '3' {
        3
    } else if c == '4' {
        4
    } else if c == '5' {
        5
    } else if c == '6' {
        6
    } else if c == '7' {
        7
    } else if c == '8' {
        8
    } else {
        9
    }
}

/// Reads an unsigned number the way `usize::from_str` does.
pub fn parse_usize(cs: &[char]) -> (r: Option<usize>)
    ensures
        match r {
            Some(v) => parse_unsigned(cs@) == Some(v as nat),
            None => parse_unsigned(cs@) is None,
        },
{
    let start: usize = if cs.len() > 0 && cs[0] == '+' {
        1
    } else {
        0
    };
    let ghost t = cs@.skip(start as int);
    assert(start == 1 ==> t =~= cs@.drop_first());
    assert(start == 0 ==> t =~= cs@);
    if start >= cs.len() {
        return None;
    }
    let mut value: usize = 0;
    let mut i: usize = start;
    assert(t.take(0) =~= seq![]);
    while i < cs.len()
        invariant
            start <= i <= cs.len(),
            start < cs.len(),
            t == cs@.skip(start as int),
            t == (if cs@.len() > 0 && cs@[0] == '+' {
                cs@.drop_first()
            } else {
                cs@
            }),
            all_digits(t.take(i - start)),
            value as nat == digits_value(t.take(i - start)),
        decreases cs.len() - i,
    {
        let c = cs[i];
        if !('0' <= c && c <= '9') {
            assert(t[i - start] == c);
            assert(!is_digit(t[i - start]));
            assert(!all_digits(t));
            return None;
        }
        let d = digit_of(c);
        assert(d as nat == digit_value(c));
        let ghost next = t.take(i + 1 - start);
        assert(next.drop_last() =~= t.take(i - start));
        assert(next.last() == c);
        if value > (usize::MAX - d) / 10 {
            proof {
                assert(all_digits(next));
                assert(digits_value(next) > usize::MAX);
                if all_digits(t) {
                    lemma_digits_value_grows(t, i + 1 - start);
                }
            }
            return None;
        }
        value = value * 10 + d;
        i = i + 1;
    }
    assert(t.take(i - start) =~= t);
    Some(value)
}

/// `p` is a prefix of `s`.
pub open spec fn has_prefix(s: Seq<char>, p: Seq<char>) -> bool {
    p.len() <= s.len() && s.take(p.len() as int) == p
}

pub fn starts_with(s: &[char], p: &[char]) -> (r: bool)
    ensures
        r == has_prefix(s@, p@),
{
    if p.len() > s.len() {
        return false;
    }
    let mut i: usize = 0;
    while i < p.len()
        invariant
            p.len() <= s.len(),
            i <= p.len(),
            forall|j: int| 0 <= j < i ==> s@[j] == p@[j],
        decreases p.len() - i,
    {
        if s[i] != p[i] {
            assert(s@.take(p.len() as int)[i as int] != p@[i as int]);
            return false;
        }
        i = i + 1;
    }
    assert(s@.take(p.len() as int) =~= p@);
    true
}

/// Whether two character sequences are equal.
pub fn chars_equal(a: &[char], b: &[char]) -> (r: bool)
    ensures
        r == (a@ == b@),
{
    if a.len() != b.len() {
        return false;
    }
    let r = starts_with(a, b);
    assert(a@.take(b@.len() as int) =~= a@);
    r
}

/// Lexicographic order of character sequences (by code point), the order of
/// `str::cmp` and `String::cmp`: `a` comes strictly before `b`.
pub open spec fn seq_less(a: Seq<char>, b: Seq<char>) -> bool
    decreases a.len(),
{
    if a.len() == 0 {
        b.len() > 0
    } else if b.len() == 0 {
        false
    } else if a[0] != b[0] {
        a[0] < b[0]
    } else {
        seq_less(a.drop_first(), b.drop_first())
    }
}

/// Whether `a` comes strictly before `b` in lexicographic order.
pub fn chars_less(a: &[char], b: &[char]) -> (r: bool)
    ensures
        r == seq_less(a@, b@),
{
    let mut i: usize = 0;
    assert(a@.skip(0) =~= a@);
    assert(b@.skip(0) =~= b@);
    while i < a.len() && i < b.len()
        invariant
            i <= a.len(),
            i <= b.len(),
            seq_less(a@.skip(i as int), b@.skip(i as int)) == seq_less(a@, b@),
        decreases a.len() - i,
    {
        let ghost sa = a@.skip(i as int);
        let ghost sb = b@.skip(i as int);
        assert(sa.drop_first() =~= a@.skip(i + 1));
        assert(sb.drop_first() =~= b@.skip(i + 1));
        if a[i] != b[i] {
            return a[i] < b[i];
        }
        i = i + 1;
    }
    let ghost sa = a@.skip(i as int);
    let ghost sb = b@.skip(i as int);
    if i == a.len() {
        assert(sa.len() == 0);
        i < b.len()
    } else {
        assert(sb.len() == 0);
        false
    }
}


/// The text with its leading whitespace removed.
pub open spec fn trim_start(s: Seq<char>) -> Seq<char>
    decreases s.len(),
{
    if s.len() > 0 && is_ws(s[0]) {
        trim_start(s.drop_first())
    } else {
        s
    }
}

/// The text with its trailing whitespace removed.
pub open spec fn trim_end(s: Seq<char>) -> Seq<char>
    decreases s.len(),
{
    if s.len() > 0 && is_ws(s.last()) {
        trim_end(s.drop_last())
    } else {
        s
    }
}

/// The text with leading and trailing whitespace removed, as `str::trim` does.
pub open spec fn trimmed(s: Seq<char>) -> Seq<char> {
    trim_end(trim_start(s))
}

/// Removes leading and trailing whitespace, as `str::trim` does.
pub fn trim_chars(cs: &[char]) -> (r: Vec<char>)
    ensures
        r@ == trimmed(cs@),
{
    let mut i: usize = 0;
    assert(cs@.skip(0) =~= cs@);
    while i < cs.len() && is_whitespace(cs[i])
        invariant
            i <= cs.len(),
            trim_start(cs@.skip(i as int)) == trim_start(cs@),
        decreases cs.len() - i,
    {
        assert(cs@.skip(i as int).drop_first() =~= cs@.skip(i + 1));
        i = i + 1;
    }
    let ghost start = cs@.skip(i as int);
    assert(trim_start(start) == start);
    let mut j: usize = cs.len();
    assert(start.take(j - i) =~= start);
    while j > i && is_whitespace(cs[j - 1])
        invariant
            i <= j <= cs.len(),
            start == cs@.skip(i as int),
            trim_end(start.take(j - i)) == trim_end(start),
        decreases j,
    {
        assert(start.take(j - i).drop_last() =~= start.take(j - 1 - i));
        j = j - 1;
    }
    let mut r: Vec<char> = Vec::new();
    let mut k: usize = i;
    while k < j
        invariant
            i <= k <= j <= cs.len(),
            r@ == cs@.subrange(i as int, k as int),
        decreases j - k,
    {
        r.push(cs[k]);
        assert(r@ =~= cs@.subrange(i as int, k + 1));
        k = k + 1;
    }
    assert(r@ =~= start.take(j - i));
    r
}

/// The characters before the first `sep` (all of them when there is none):
/// the first item that `str::split` yields.
pub open spec fn first_field(s: Seq<char>, sep: char) -> Seq<char>
    decreases s.len(),
{
    if s.len() == 0 || s[0] == sep {
        seq![]
    } else {
        seq![s[0]] + first_field(s.drop_first(), sep)
    }
}

pub fn first_field_of(cs: &[char], sep: char) -> (r: Vec<char>)
    ensures
        r@ == first_field(cs@, sep),
{
    let mut r: Vec<char> = Vec::new();
    let mut i: usize = 0;
    assert(cs@.skip(0) =~= cs@);
    while i < cs.len() && cs[i] != sep
        invariant
            i <= cs.len(),
            r@ == cs@.take(i as int),
            first_field(cs@, sep) == r@ + first_field(cs@.skip(i as int), sep),
            forall|k: int| 0 <= k < i ==> cs@[k] != sep,
        decreases cs.len() - i,
    {
        assert(cs@.skip(i as int).drop_first() =~= cs@.skip(i + 1));
        assert(r@ + (seq![cs@[i as int]] + first_field(cs@.skip(i + 1), sep)) =~= r@.push(
            cs@[i as int],
        ) + first_field(cs@.skip(i + 1), sep));
        r.push(cs[i]);
        assert(r@ =~= cs@.take(i + 1));
        i = i + 1;
    }
    assert(r@ + first_field(cs@.skip(i as int), sep) =~= r@);
    r
}


/// `s` begins with the single character `a`.
pub fn begins_with1(s: &[char], a: char) -> (r: bool)
    ensures
        r == has_prefix(s@, seq![a]),
{
    let r = s.len() >= 1 && s[0] == a;
    proof {
        if s.len() >= 1 {
            assert(s@.take(1) =~= seq![s@[0]]);
            assert(seq![a][0] == a);
        }
    }
    r
}

/// `s` begins with the two characters `a`, `b`.
pub fn begins_with2(s: &[char], a: char, b: char) -> (r: bool)
    ensures
        r == has_prefix(s@, seq![a, b]),
{
    let r = s.len() >= 2 && s[0] == a && s[1] == b;
    proof {
        if s.len() >= 2 {
            assert(s@.take(2) =~= seq![s@[0], s@[1]]);
        }
    }
    r
}

/// `s` begins with the three characters `a`, `b`, `c`.
pub fn begins_with3(s: &[char], a: char, b: char, c: char) -> (r: bool)
    ensures
        r == has_prefix(s@, seq![a, b, c]),
{
    let r = s.len() >= 3 && s[0] == a && s[1] == b && s[2] == c;
    proof {
        if s.len() >= 3 {
            assert(s@.take(3) =~= seq![s@[0], s@[1], s@[2]]);
        }
    }
    r
}

/// The characters of `s` after the first one.
pub fn chars_after_first(s: &[char]) -> (r: String)
    requires
        s.len() >= 1,
    ensures
        r@ == s@.drop_first(),
{
    let rest = &s[1..s.len()];
    assert(rest@ =~= s@.drop_first());
    string_from_chars(rest)
}


/// The concatenation of two texts.
pub fn concat(a: &str, b: &str) -> (r: String)
    ensures
        r@ == a@ + b@,
{
    let mut v = chars_of(a);
    let w = chars_of(b);
    let mut i: usize = 0;
    let ghost start = v@;
    while i < w.len()
        invariant
            i <= w.len(),
            v@ == start + w@.take(i as int),
        decreases w.len() - i,
    {
        v.push(w[i]);
        assert(w@.take(i + 1) =~= w@.take(i as int).push(w@[i as int]));
        i = i + 1;
    }
    assert(w@.take(i as int) =~= w@);
    string_from_chars(v.as_slice())
}

/// Whether a text holds the character `c`.
pub fn contains_char(s: &[char], c: char) -> (r: bool)
    ensures
        r == s@.contains(c),
{
    let mut i: usize = 0;
    while i < s.len()
        invariant
            i <= s.len(),
            forall|k: int| 0 <= k < i ==> s@[k] != c,
        decreases s.len() - i,
    {
        if s[i] == c {
            return true;
        }
        i = i + 1;
    }
    false
}

/// Whether a text is empty or only whitespace.
pub fn is_blank(s: &str) -> (r: bool)
    ensures
        r == (trimmed(s@).len() == 0),
{
    let cs = chars_of(s);
    let t = trim_chars(cs.as_slice());
    t.len() == 0
}

/// A text with its leading and trailing whitespace removed.
pub fn trim_string(s: &str) -> (r: String)
    ensures
        r@ == trimmed(s@),
{
    let cs = chars_of(s);
    let t = trim_chars(cs.as_slice());
    string_from_chars(t.as_slice())
}


/// The pieces of `rest` between the separator `sep`, given that `cur` holds
/// the piece read so far; every separator ends a piece, empty ones too.
/// This is how `str::split` with a character splits text.
pub open spec fn fields_from(rest: Seq<char>, cur: Seq<char>, sep: char) -> Seq<Seq<char>>
    decreases rest.len(),
{
    if rest.len() == 0 {
        seq![cur]
    } else if rest[0] == sep {
        seq![cur] + fields_from(rest.drop_first(), seq![], sep)
    } else {
        fields_from(rest.drop_first(), cur.push(rest[0]), sep)
    }
}

/// The pieces of a text between the separators `sep`.
pub open spec fn text_fields(s: Seq<char>, sep: char) -> Seq<Seq<char>> {
    fields_from(s, seq![], sep)
}

/// Splits a text at every `sep`, as `str::split` with a character does.
pub fn split_fields(cs: &[char], sep: char) -> (fields: Vec<Vec<char>>)
    ensures
        char_seqs(fields@) == text_fields(cs@, sep),
        fields.len() >= 1,
{
    let mut fields: Vec<Vec<char>> = Vec::new();
    let mut cur: Vec<char> = Vec::new();
    let mut i: usize = 0;
    assert(cs@.skip(0) =~= cs@);
    assert(cur@ =~= seq![]);
    assert(char_seqs(fields@) + fields_from(cs@, cur@, sep) =~= fields_from(cs@, seq![], sep));
    while i < cs.len()
        invariant
            i <= cs.len(),
            char_seqs(fields@) + fields_from(cs@.skip(i as int), cur@, sep) == text_fields(cs@, sep),
        decreases cs.len() - i,
    {
        let ghost rest = cs@.skip(i as int);
        assert(rest.drop_first() =~= cs@.skip(i + 1));
        let c = cs[i];
        let ghost before = cur@;
        if c == sep {
            fields.push(cur);
            cur = Vec::new();
            assert(char_seqs(fields@) =~= char_seqs(fields@.drop_last()) + seq![before]);
            assert(char_seqs(fields@) + fields_from(cs@.skip(i + 1), cur@, sep) =~= char_seqs(
                fields@.drop_last(),
            ) + (seq![before] + fields_from(cs@.skip(i + 1), seq![], sep)));
        } else {
            cur.push(c);
            assert(fields_from(rest, before, sep) == fields_from(cs@.skip(i + 1), cur@, sep));
        }
        i = i + 1;
    }
    assert(cs@.skip(i as int) =~= seq![]);
    let ghost before = cur@;
    fields.push(cur);
    assert(char_seqs(fields@) =~= char_seqs(fields@.drop_last()) + seq![before]);
    fields
}

/// The last piece of `rest` when it is split at the text `pat`, matching
/// from the left without overlaps as `str::split` does, given that `cur`
/// holds the piece read so far.
pub open spec fn last_piece_from(rest: Seq<char>, cur: Seq<char>, pat: Seq<char>) -> Seq<char>
    decreases rest.len(),
{
    if rest.len() == 0 {
        cur
    } else if pat.len() > 0 && has_prefix(rest, pat) {
        last_piece_from(rest.skip(pat.len() as int), seq![], pat)
    } else {
        last_piece_from(rest.drop_first(), cur.push(rest[0]), pat)
    }
}

/// The last piece of a text split at a non-empty text `pat`
/// (`s.split(pat).last()`).
pub open spec fn last_piece(s: Seq<char>, pat: Seq<char>) -> Seq<char> {
    last_piece_from(s, seq![], pat)
}

/// The last piece of a text split at the non-empty text `pat`.
pub fn last_piece_of(cs: &[char], pat: &[char]) -> (r: Vec<char>)
    requires
        pat.len() > 0,
    ensures
        r@ == last_piece(cs@, pat@),
{
    let mut cur: Vec<char> = Vec::new();
    let mut i: usize = 0;
    assert(cs@.skip(0) =~= cs@);
    assert(cur@ =~= seq![]);
    while i < cs.len()
        invariant
            i <= cs.len(),
            pat.len() > 0,
            last_piece_from(cs@.skip(i as int), cur@, pat@) == last_piece(cs@, pat@),
        decreases cs.len() - i,
    {
        let ghost rest = cs@.skip(i as int);
        let tail = &cs[i..cs.len()];
        assert(tail@ =~= rest);
        if starts_with(tail, pat) {
            assert(rest.skip(pat.len() as int) =~= cs@.skip(i + pat.len()));
            cur = Vec::new();
            i = i + pat.len();
        } else {
            assert(rest.drop_first() =~= cs@.skip(i + 1));
            cur.push(cs[i]);
            i = i + 1;
        }
    }
    assert(cs@.skip(i as int) =~= seq![]);
    cur
}

/// Removes trailing whitespace, as `str::trim_end` does.
pub fn trim_end_chars(cs: &[char]) -> (r: Vec<char>)
    ensures
        r@ == trim_end(cs@),
{
    let mut j: usize = cs.len();
    assert(cs@.take(j as int) =~= cs@);
    while j > 0 && is_whitespace(cs[j - 1])
        invariant
            j <= cs.len(),
            trim_end(cs@.take(j as int)) == trim_end(cs@),
        decreases j,
    {
        assert(cs@.take(j as int).drop_last() =~= cs@.take(j - 1));
        j = j - 1;
    }
    let r = &cs[0..j];
    assert(r@ =~= cs@.take(j as int));
    vstd::slice::slice_to_vec(r)
}

} // verus!
