//! The file tree of the terminal front end: changed files grouped under
//! their directories, and the rows that show when some directories are
//! expanded.
use vstd::prelude::*;

use crate::engine::FileChange;
use crate::order::{
    ascending, ascending_of, before, lemma_ascending_unique, lemma_before_strict_total,
    lemma_seq_less_strict_total, strict_total,
};
use crate::strset::{distinct_strs, str_set, strs_contain, strs_insert};
use crate::text::{
    char_seqs, chars_equal, chars_less, chars_of, concat, last_piece, last_piece_of, seq_less,
    split_fields, string_from_chars, text_fields,
};

verus! {

/// The components of a path, split at `/`.
pub open spec fn components(path: Seq<char>) -> Seq<Seq<char>> {
    text_fields(path, '/')
}

/// The directories a file lies in, outermost first: the components of its
/// path but the last.
pub open spec fn dir_chain(path: Seq<char>) -> Seq<Seq<char>> {
    let c = components(path);
    if c.len() > 0 {
        c.drop_last()
    } else {
        c
    }
}

pub open spec fn file_chains(files: Seq<FileChange>) -> Seq<Seq<Seq<char>>> {
    files.map_values(|f: FileChange| dir_chain(f.path@))
}

pub open spec fn chain_views(v: Seq<Vec<Vec<char>>>) -> Seq<Seq<Seq<char>>> {
    v.map_values(|c: Vec<Vec<char>>| char_seqs(c@))
}

/// `chain` lies strictly below the directory `p`.
pub open spec fn extends(chain: Seq<Seq<char>>, p: Seq<Seq<char>>) -> bool {
    chain.len() > p.len() && chain.take(p.len() as int) == p
}

/// `n` names a directory right below `p`.
pub open spec fn is_child_name(cs: Seq<Seq<Seq<char>>>, p: Seq<Seq<char>>, n: Seq<char>) -> bool {
    exists|i: int| 0 <= i < cs.len() && #[trigger] extends(cs[i], p) && cs[i][p.len() as int] == n
}

pub open spec fn name_less() -> spec_fn(Seq<char>, Seq<char>) -> bool {
    |a: Seq<char>, b: Seq<char>| seq_less(a, b)
}

pub open spec fn lists_children(s: Seq<Seq<char>>, cs: Seq<Seq<Seq<char>>>, p: Seq<Seq<char>>) -> bool {
    &&& ascending(s, name_less())
    &&& forall|n: Seq<char>|
        #![trigger s.contains(n)]
        #![trigger is_child_name(cs, p, n)]
        s.contains(n) <==> is_child_name(cs, p, n)
}

/// The names of the directories right below `p`, in increasing order.
pub open spec fn child_names(cs: Seq<Seq<Seq<char>>>, p: Seq<Seq<char>>) -> Seq<Seq<char>> {
    choose|s: Seq<Seq<char>>| lists_children(s, cs, p)
}

/// No name is above `None`; a name is above `Some(l)` when it comes after `l`.
pub open spec fn above(n: Seq<char>, lo: Option<Seq<char>>) -> bool {
    match lo {
        None => true,
        Some(l) => seq_less(l, n),
    }
}

/// How many of the first `k` chains lie below `p` with a name above `lo`
/// right below it.
pub open spec fn count_above(cs: Seq<Seq<Seq<char>>>, p: Seq<Seq<char>>, lo: Option<Seq<char>>, k: int) -> nat
    decreases k,
{
    if k <= 0 {
        0
    } else {
        count_above(cs, p, lo, k - 1) + if extends(cs[k - 1], p) && above(cs[k - 1][p.len() as int], lo) {
            1nat
        } else {
            0nat
        }
    }
}

proof fn lemma_count_above_drops(
    cs: Seq<Seq<Seq<char>>>,
    p: Seq<Seq<char>>,
    lo: Option<Seq<char>>,
    m: Seq<char>,
    j: int,
    k: int,
)
    requires
        0 <= j < cs.len(),
        extends(cs[j], p),
        cs[j][p.len() as int] == m,
        above(m, lo),
        0 <= k <= cs.len(),
    ensures
        count_above(cs, p, Some(m), k) + (if j < k { 1nat } else { 0nat }) <= count_above(cs, p, lo, k),
    decreases k,
{
    if k > 0 {
        lemma_count_above_drops(cs, p, lo, m, j, k - 1);
        let n = cs[k - 1][p.len() as int];
        if extends(cs[k - 1], p) && above(n, Some(m)) {
            match lo {
                None => {},
                Some(l) => {
                    crate::order::lemma_seq_less_transitive(l, m, n);
                },
            }
        }
        if k - 1 == j {
            crate::order::lemma_seq_less_irreflexive(m);
        }
    }
}

fn extends_exec(chain: &Vec<Vec<char>>, p: &Vec<Vec<char>>) -> (r: bool)
    ensures
        r == extends(char_seqs(chain@), char_seqs(p@)),
{
    let ghost c = char_seqs(chain@);
    let ghost pv = char_seqs(p@);
    if chain.len() <= p.len() {
        return false;
    }
    let mut k: usize = 0;
    while k < p.len()
        invariant
            k <= p.len(),
            p.len() < chain.len(),
            c == char_seqs(chain@),
            pv == char_seqs(p@),
            forall|q: int| 0 <= q < k ==> c[q] == pv[q],
        decreases p.len() - k,
    {
        if !chars_equal(chain[k].as_slice(), p[k].as_slice()) {
            assert(c.take(pv.len() as int)[k as int] != pv[k as int]);
            return false;
        }
        k = k + 1;
    }
    assert(c.take(pv.len() as int) =~= pv);
    true
}

fn name_above(n: &Vec<char>, lo: &Option<Vec<char>>) -> (r: bool)
    ensures
        r == above(n@, match lo {
            Some(l) => Some(l@),
            None => None,
        }),
{
    match lo {
        None => true,
        Some(l) => chars_less(l.as_slice(), n.as_slice()),
    }
}

pub open spec fn opt_chars(o: Option<Vec<char>>) -> Option<Seq<char>> {
    match o {
        Some(l) => Some(l@),
        None => None,
    }
}

/// The names of the directories right below `p`, in increasing order.
fn child_names_of(chains: &Vec<Vec<Vec<char>>>, p: &Vec<Vec<char>>) -> (r: Vec<Vec<char>>)
    ensures
        char_seqs(r@) == child_names(chain_views(chains@), char_seqs(p@)),
        lists_children(char_seqs(r@), chain_views(chains@), char_seqs(p@)),
{
    let ghost cs = chain_views(chains@);
    let ghost pv = char_seqs(p@);
    proof {
        lemma_seq_less_strict_total();
    }
    let mut out: Vec<Vec<char>> = Vec::new();
    let mut last: Option<Vec<char>> = None;
    loop
        invariant
            cs == chain_views(chains@),
            pv == char_seqs(p@),
            strict_total(name_less()),
            ascending(char_seqs(out@), name_less()),
            forall|n: Seq<char>| char_seqs(out@).contains(n) ==> #[trigger] is_child_name(cs, pv, n),
            forall|i: int|
                0 <= i < cs.len() && #[trigger] extends(cs[i], pv) && !above(cs[i][pv.len() as int], opt_chars(last))
                    ==> char_seqs(out@).contains(cs[i][pv.len() as int]),
            forall|k: int| 0 <= k < out@.len() ==> !above(#[trigger] char_seqs(out@)[k], opt_chars(last)),
            last is None <==> out@.len() == 0,
            last matches Some(l) ==> l@ == char_seqs(out@).last(),
        ensures
            lists_children(char_seqs(out@), cs, pv),
        decreases count_above(cs, pv, opt_chars(last), cs.len() as int),
    {
        let mut best: Option<usize> = None;
        let mut i: usize = 0;
        while i < chains.len()
            invariant
                i <= chains@.len(),
                cs == chain_views(chains@),
                pv == char_seqs(p@),
                match best {
                    Some(b) => b < i && extends(cs[b as int], pv) && above(cs[b as int][pv.len() as int], opt_chars(last))
                        && forall|q: int|
                        0 <= q < i && #[trigger] extends(cs[q], pv) && above(cs[q][pv.len() as int], opt_chars(last))
                            ==> !seq_less(cs[q][pv.len() as int], cs[b as int][pv.len() as int]),
                    None => forall|q: int|
                        0 <= q < i && #[trigger] extends(cs[q], pv) ==> !above(cs[q][pv.len() as int], opt_chars(last)),
                },
            decreases chains@.len() - i,
        {
            assert(cs[i as int] == char_seqs(chains@[i as int]@));
            if extends_exec(&chains[i], p) {
                let ghost ci = cs[i as int];
                assert(ci[pv.len() as int] == chains@[i as int]@[p.len() as int]@);
                if name_above(&chains[i][p.len()], &last) {
                    match best {
                        None => {
                            proof {
                                assert forall|q: int|
                                    0 <= q < i + 1 && #[trigger] extends(cs[q], pv) && above(cs[q][pv.len() as int], opt_chars(last))
                                        implies !seq_less(cs[q][pv.len() as int], ci[pv.len() as int]) by {
                                    if q == i {
                                        crate::order::lemma_seq_less_irreflexive(ci[pv.len() as int]);
                                    }
                                }
                            }
                            best = Some(i);
                        },
                        Some(b) => {
                            assert(cs[b as int][pv.len() as int] == chains@[b as int]@[p.len() as int]@);
                            if chars_less(chains[i][p.len()].as_slice(), chains[b][p.len()].as_slice()) {
                                proof {
                                    assert forall|q: int|
                                        0 <= q < i + 1 && #[trigger] extends(cs[q], pv) && above(cs[q][pv.len() as int], opt_chars(last))
                                            implies !seq_less(cs[q][pv.len() as int], ci[pv.len() as int]) by {
                                        if q < i {
                                            let nq = cs[q][pv.len() as int];
                                            if seq_less(nq, ci[pv.len() as int]) {
                                                crate::order::lemma_seq_less_transitive(
                                                    nq,
                                                    ci[pv.len() as int],
                                                    cs[b as int][pv.len() as int],
                                                );
                                            }
                                        } else {
                                            crate::order::lemma_seq_less_irreflexive(ci[pv.len() as int]);
                                        }
                                    }
                                }
                                best = Some(i);
                            } else {
                                assert(!seq_less(ci[pv.len() as int], cs[b as int][pv.len() as int]));
                            }
                        },
                    }
                }
            }
            i = i + 1;
        }
        match best {
            None => {
                assert forall|n: Seq<char>| #[trigger] is_child_name(cs, pv, n) implies char_seqs(out@).contains(n) by {
                    let q = choose|q: int| 0 <= q < cs.len() && #[trigger] extends(cs[q], pv) && cs[q][pv.len() as int] == n;
                }
                break;
            },
            Some(b) => {
                let m = chains[b][p.len()].clone();
                let ghost mv = m@;
                assert(mv == cs[b as int][pv.len() as int]);
                proof {
                    lemma_count_above_drops(cs, pv, opt_chars(last), mv, b as int, cs.len() as int);
                }
                let ghost before = char_seqs(out@);
                out.push(m.clone());
                assert(char_seqs(out@) =~= before.push(mv));
                proof {
                    assert forall|a: int, c: int| 0 <= a < c < char_seqs(out@).len() implies #[trigger] name_less()(
                        char_seqs(out@)[a],
                        char_seqs(out@)[c],
                    ) by {
                        if c == before.len() {
                            let na = before[a];
                            assert(!above(na, opt_chars(last)));
                            match last {
                                Some(l) => {
                                    crate::order::lemma_seq_less_total(na, l@);
                                    if seq_less(na, l@) {
                                        crate::order::lemma_seq_less_transitive(na, l@, mv);
                                    }
                                },
                                None => {},
                            }
                        }
                    }
                    assert forall|n: Seq<char>| char_seqs(out@).contains(n) implies #[trigger] is_child_name(cs, pv, n) by {
                        if n != mv {
                            assert(before.contains(n));
                        } else {
                            assert(extends(cs[b as int], pv));
                        }
                    }
                    assert forall|q: int|
                        0 <= q < cs.len() && #[trigger] extends(cs[q], pv) && !above(cs[q][pv.len() as int], Some(mv))
                            implies char_seqs(out@).contains(cs[q][pv.len() as int]) by {
                        let nq = cs[q][pv.len() as int];
                        if above(nq, opt_chars(last)) {
                            assert(!seq_less(nq, mv));
                            crate::order::lemma_seq_less_total(nq, mv);
                            assert(char_seqs(out@)[before.len() as int] == nq);
                        } else {
                            assert(before.contains(nq));
                            let w = choose|w: int| 0 <= w < before.len() && before[w] == nq;
                            assert(char_seqs(out@)[w] == nq);
                        }
                    }
                    assert forall|k: int| 0 <= k < out@.len() implies !above(#[trigger] char_seqs(out@)[k], Some(mv)) by {
                        if k < before.len() {
                            let nk = before[k];
                            assert(!above(nk, opt_chars(last)));
                            match last {
                                Some(l) => {
                                    crate::order::lemma_seq_less_total(nk, l@);
                                    if seq_less(nk, l@) {
                                        crate::order::lemma_seq_less_transitive(nk, l@, mv);
                                    }
                                },
                                None => {},
                            }
                            assert(seq_less(nk, mv));
                            crate::order::lemma_seq_less_asymmetric(nk, mv);
                        } else {
                            crate::order::lemma_seq_less_irreflexive(mv);
                        }
                    }
                }
                last = Some(m);
            },
        }
    }
    proof {
        let s = choose|s: Seq<Seq<char>>| lists_children(s, cs, pv);
        assert(lists_children(char_seqs(out@), cs, pv));
        lemma_ascending_unique(s, char_seqs(out@), name_less());
    }
    out
}

pub open spec fn file_paths(files: Seq<FileChange>) -> Seq<Seq<char>> {
    files.map_values(|f: FileChange| f.path@)
}

/// Files in order of path, files of the same path in order.
pub open spec fn file_less(files: Seq<FileChange>) -> spec_fn(usize, usize) -> bool {
    |x: usize, y: usize| before(file_paths(files), x as int, y as int)
}

pub open spec fn lists_node_files(s: Seq<usize>, files: Seq<FileChange>, p: Seq<Seq<char>>) -> bool {
    &&& ascending(s, file_less(files))
    &&& forall|i: usize|
        #![trigger s.contains(i)]
        s.contains(i) <==> (i < files.len() && file_chains(files)[i as int] == p)
}

/// The files right in the directory `p`, by path.
pub open spec fn node_files(files: Seq<FileChange>, p: Seq<Seq<char>>) -> Seq<usize> {
    choose|s: Seq<usize>| lists_node_files(s, files, p)
}

/// Every index is above `None`; an index is above `Some(l)` when it comes
/// after `l` in the order of files.
pub open spec fn index_above(files: Seq<FileChange>, i: usize, lo: Option<usize>) -> bool {
    match lo {
        None => true,
        Some(l) => file_less(files)(l, i),
    }
}

pub open spec fn count_files_above(files: Seq<FileChange>, p: Seq<Seq<char>>, lo: Option<usize>, k: int) -> nat
    decreases k,
{
    if k <= 0 {
        0
    } else {
        count_files_above(files, p, lo, k - 1) + if file_chains(files)[k - 1] == p && index_above(
            files,
            (k - 1) as usize,
            lo,
        ) {
            1nat
        } else {
            0nat
        }
    }
}

proof fn lemma_count_files_drops(files: Seq<FileChange>, p: Seq<Seq<char>>, lo: Option<usize>, m: usize, k: int)
    requires
        strict_total(file_less(files)),
        m < files.len(),
        file_chains(files)[m as int] == p,
        index_above(files, m, lo),
        0 <= k <= files.len(),
        k <= usize::MAX,
    ensures
        count_files_above(files, p, Some(m), k) + (if m < k { 1nat } else { 0nat }) <= count_files_above(files, p, lo, k),
    decreases k,
{
    if k > 0 {
        lemma_count_files_drops(files, p, lo, m, k - 1);
        let n = (k - 1) as usize;
        if index_above(files, n, Some(m)) {
            match lo {
                None => {},
                Some(l) => {
                    assert(file_less(files)(l, m) && file_less(files)(m, n));
                },
            }
        }
    }
}

fn chains_equal(a: &Vec<Vec<char>>, b: &Vec<Vec<char>>) -> (r: bool)
    ensures
        r == (char_seqs(a@) == char_seqs(b@)),
{
    if a.len() != b.len() {
        assert(char_seqs(a@).len() != char_seqs(b@).len());
        return false;
    }
    let mut k: usize = 0;
    while k < a.len()
        invariant
            k <= a.len(),
            a.len() == b.len(),
            forall|q: int| 0 <= q < k ==> char_seqs(a@)[q] == char_seqs(b@)[q],
        decreases a.len() - k,
    {
        if !chars_equal(a[k].as_slice(), b[k].as_slice()) {
            assert(char_seqs(a@)[k as int] != char_seqs(b@)[k as int]);
            return false;
        }
        k = k + 1;
    }
    assert(char_seqs(a@) =~= char_seqs(b@));
    true
}

fn file_before(files: &[FileChange], x: usize, y: usize) -> (r: bool)
    requires
        x < files.len(),
        y < files.len(),
    ensures
        r == file_less(files@)(x, y),
{
    let a = crate::text::chars_of(files[x].path.as_str());
    let b = crate::text::chars_of(files[y].path.as_str());
    assert(file_paths(files@)[x as int] == a@);
    assert(file_paths(files@)[y as int] == b@);
    chars_less(a.as_slice(), b.as_slice()) || (chars_equal(a.as_slice(), b.as_slice()) && x < y)
}

/// The files right in the directory `p`, by path (`chains` holds each
/// file's directory chain).
fn node_files_of(files: &[FileChange], chains: &Vec<Vec<Vec<char>>>, p: &Vec<Vec<char>>) -> (r: Vec<usize>)
    requires
        chain_views(chains@) == file_chains(files@),
    ensures
        r@ == node_files(files@, char_seqs(p@)),
        lists_node_files(r@, files@, char_seqs(p@)),
{
    let ghost fs = files@;
    let ghost pv = char_seqs(p@);
    let ghost cs = file_chains(fs);
    let ghost less = file_less(fs);
    proof {
        lemma_before_strict_total(file_paths(fs));
    }
    assert(chains@.len() == fs.len()) by {
        assert(chain_views(chains@).len() == chains@.len());
    }
    let mut out: Vec<usize> = Vec::new();
    let mut last: Option<usize> = None;
    loop
        invariant
            chains@.len() == fs.len(),
            fs == files@,
            pv == char_seqs(p@),
            cs == file_chains(fs),
            chain_views(chains@) == cs,
            less == file_less(fs),
            strict_total(less),
            ascending(out@, less),
            last matches Some(l) ==> l < fs.len(),
            forall|i: usize| #![trigger out@.contains(i)] out@.contains(i) ==> i < fs.len() && cs[i as int] == pv,
            forall|i: usize|
                #![trigger cs[i as int]]
                i < fs.len() && cs[i as int] == pv && !index_above(fs, i, last) ==> out@.contains(i),
            forall|k: int| 0 <= k < out@.len() ==> !index_above(fs, #[trigger] out@[k], last),
            last is None <==> out@.len() == 0,
            last matches Some(l) ==> l == out@.last(),
        ensures
            lists_node_files(out@, fs, pv),
        decreases count_files_above(fs, pv, last, fs.len() as int),
    {
        let mut best: Option<usize> = None;
        let mut i: usize = 0;
        while i < files.len()
            invariant
                i <= fs.len(),
                chains@.len() == fs.len(),
                fs == files@,
                pv == char_seqs(p@),
                cs == file_chains(fs),
                chain_views(chains@) == cs,
                less == file_less(fs),
                strict_total(less),
                last matches Some(l) ==> l < fs.len(),
                match best {
                    Some(b) => b < i && cs[b as int] == pv && index_above(fs, b, last) && forall|q: usize|
                        #![trigger cs[q as int]]
                        q < i && cs[q as int] == pv && index_above(fs, q, last) ==> !less(q, b),
                    None => forall|q: usize| #![trigger cs[q as int]] q < i && cs[q as int] == pv ==> !index_above(fs, q, last),
                },
            decreases fs.len() - i,
        {
            assert(cs[i as int] == char_seqs(chains@[i as int]@));
            if chains_equal(&chains[i], p) {
                let above = match last {
                    None => true,
                    Some(l) => file_before(files, l, i),
                };
                if above {
                    match best {
                        None => {
                            best = Some(i);
                        },
                        Some(b) => {
                            if file_before(files, i, b) {
                                proof {
                                    assert forall|q: usize|
                                        #![trigger cs[q as int]]
                                        q < i + 1 && cs[q as int] == pv && index_above(fs, q, last)
                                            implies !less(q, i) by {
                                        if q < i && less(q, i) {
                                            assert(less(q, b));
                                        }
                                    }
                                }
                                best = Some(i);
                            }
                        },
                    }
                }
            }
            i = i + 1;
        }
        match best {
            None => {
                assert forall|q: usize| #![trigger out@.contains(q)]
                    out@.contains(q) <==> (q < fs.len() && cs[q as int] == pv) by {
                    if q < fs.len() && cs[q as int] == pv {
                        assert(!index_above(fs, q, last));
                    }
                }
                break;
            },
            Some(b) => {
                assert(b < fs.len());
                proof {
                    lemma_count_files_drops(fs, pv, last, b, fs.len() as int);
                }
                let ghost before_out = out@;
                out.push(b);
                proof {
                    assert forall|a: int, c: int| 0 <= a < c < out@.len() implies #[trigger] less(out@[a], out@[c]) by {
                        if c == before_out.len() {
                            let x = before_out[a];
                            assert(!index_above(fs, x, last));
                            match last {
                                Some(l) => {
                                    if x != l {
                                        assert(less(x, l) || less(l, x));
                                    }
                                },
                                None => {},
                            }
                        }
                    }
                    assert forall|q: usize|
                        #![trigger cs[q as int]]
                        q < fs.len() && cs[q as int] == pv && !index_above(fs, q, Some(b))
                            implies out@.contains(q) by {
                        if index_above(fs, q, last) {
                            if q != b {
                                assert(less(q, b) || less(b, q));
                            }
                            assert(out@[before_out.len() as int] == q);
                        } else {
                            assert(before_out.contains(q));
                            let w = choose|w: int| 0 <= w < before_out.len() && before_out[w] == q;
                            assert(out@[w] == q);
                        }
                    }
                    assert forall|i: usize| #![trigger out@.contains(i)] out@.contains(i) implies i < fs.len() && cs[i as int] == pv by {
                        if i != b {
                            let w = choose|w: int| 0 <= w < out@.len() && out@[w] == i;
                            assert(w < before_out.len());
                            assert(before_out[w] == i);
                            assert(before_out.contains(i));
                        }
                    }
                    assert forall|k: int| 0 <= k < out@.len() implies !index_above(fs, #[trigger] out@[k], Some(b)) by {
                        if k < before_out.len() {
                            let x = before_out[k];
                            assert(!index_above(fs, x, last));
                            match last {
                                Some(l) => {
                                    if x != l {
                                        assert(less(x, l) || less(l, x));
                                    }
                                },
                                None => {},
                            }
                            assert(less(x, b));
                        }
                    }
                }
                last = Some(b);
            },
        }
    }
    proof {
        let s = choose|s: Seq<usize>| lists_node_files(s, fs, pv);
        assert(lists_node_files(out@, fs, pv));
        lemma_ascending_unique(s, out@, less);
    }
    out
}

/// A row of the file tree: a directory, a file by its index among the
/// session's files, or the heading of the files still to review or of the
/// reviewed files.
pub enum FileTreeRow {
    Directory {
        path: String,
        name: String,
        depth: usize,
        expanded: bool,
        file_count: usize,
        additions: usize,
        deletions: usize,
    },
    File { index: usize, path: String, name: String, depth: usize },
    Section { reviewed: bool, expanded: bool, file_count: usize },
}

pub enum RowView {
    Directory {
        path: Seq<char>,
        name: Seq<char>,
        depth: nat,
        expanded: bool,
        file_count: nat,
        additions: nat,
        deletions: nat,
    },
    File { index: nat, path: Seq<char>, name: Seq<char>, depth: nat },
    Section { reviewed: bool, expanded: bool, file_count: nat },
}

impl View for FileTreeRow {
    type V = RowView;

    open spec fn view(&self) -> RowView {
        match self {
            FileTreeRow::Directory { path, name, depth, expanded, file_count, additions, deletions } => {
                RowView::Directory {
                    path: path@,
                    name: name@,
                    depth: *depth as nat,
                    expanded: *expanded,
                    file_count: *file_count as nat,
                    additions: *additions as nat,
                    deletions: *deletions as nat,
                }
            },
            FileTreeRow::File { index, path, name, depth } => RowView::File {
                index: *index as nat,
                path: path@,
                name: name@,
                depth: *depth as nat,
            },
            FileTreeRow::Section { reviewed, expanded, file_count } => RowView::Section {
                reviewed: *reviewed,
                expanded: *expanded,
                file_count: *file_count as nat,
            },
        }
    }
}

pub open spec fn row_views(v: Seq<FileTreeRow>) -> Seq<RowView> {
    v.map_values(|r: FileTreeRow| r@)
}

/// A directory's path from its parent's and its name.
pub open spec fn join_path(parent: Seq<char>, part: Seq<char>) -> Seq<char> {
    if parent.len() == 0 {
        part
    } else {
        parent + seq!['/'] + part
    }
}

/// The path of the directory that a chain of names leads to.
pub open spec fn chain_path(c: Seq<Seq<char>>) -> Seq<char>
    decreases c.len(),
{
    if c.len() == 0 {
        seq![]
    } else {
        join_path(chain_path(c.drop_last()), c.last())
    }
}

/// A file with directory chain `chain` lies in the directory `d` or below.
pub open spec fn in_dir(chain: Seq<Seq<char>>, d: Seq<Seq<char>>) -> bool {
    chain.len() >= d.len() && chain.take(d.len() as int) == d
}

/// The number of files, added and removed lines of the first `k` files that
/// lie in the directory `d` or below.
pub open spec fn dir_totals(files: Seq<FileChange>, d: Seq<Seq<char>>, k: int) -> (nat, nat, nat)
    decreases k,
{
    if k <= 0 {
        (0, 0, 0)
    } else {
        let t = dir_totals(files, d, k - 1);
        let f = files[k - 1];
        if in_dir(dir_chain(f.path@), d) {
            (t.0 + 1, t.1 + f.additions as nat, t.2 + f.deletions as nat)
        } else {
            t
        }
    }
}

/// The added and removed lines of the first `k` files.
pub open spec fn line_totals(files: Seq<FileChange>, k: int) -> (nat, nat)
    decreases k,
{
    if k <= 0 {
        (0, 0)
    } else {
        let t = line_totals(files, k - 1);
        (t.0 + files[k - 1].additions as nat, t.1 + files[k - 1].deletions as nat)
    }
}

/// The line counts of all files add up within `usize`.
pub open spec fn totals_fit(files: Seq<FileChange>) -> bool {
    let t = line_totals(files, files.len() as int);
    t.0 <= usize::MAX && t.1 <= usize::MAX
}

pub open spec fn dir_row(files: Seq<FileChange>, ex: Set<Seq<char>>, d: Seq<Seq<char>>, depth: nat) -> RowView {
    let t = dir_totals(files, d, files.len() as int);
    RowView::Directory {
        path: chain_path(d),
        name: d.last(),
        depth,
        expanded: ex.contains(chain_path(d)),
        file_count: t.0,
        additions: t.1,
        deletions: t.2,
    }
}

pub open spec fn file_row(files: Seq<FileChange>, i: usize, depth: nat) -> RowView {
    RowView::File {
        index: i as nat,
        path: files[i as int].path@,
        name: last_piece(files[i as int].path@, seq!['/']),
        depth,
    }
}

/// The longest directory chain of the files.
pub open spec fn chain_bound(cs: Seq<Seq<Seq<char>>>) -> nat
    decreases cs.len(),
{
    if cs.len() == 0 {
        0
    } else {
        let b = chain_bound(cs.drop_last());
        if cs.last().len() > b {
            cs.last().len()
        } else {
            b
        }
    }
}

/// The rows below the directory `p`: each subdirectory by name, followed by
/// its own rows when it is expanded, then the files right in `p` by path.
pub open spec fn tree_rows(files: Seq<FileChange>, ex: Set<Seq<char>>, p: Seq<Seq<char>>, depth: nat) -> Seq<RowView>
    decreases chain_bound(file_chains(files)) - p.len(), child_names(file_chains(files), p).len() + 1,
{
    if p.len() > chain_bound(file_chains(files)) {
        seq![]
    } else {
        dir_rows(files, ex, p, depth, child_names(file_chains(files), p)) + Seq::new(
            node_files(files, p).len(),
            |k: int| file_row(files, node_files(files, p)[k], depth),
        )
    }
}

/// The rows of the subdirectories `names` of `p`, each followed by its own
/// rows when it is expanded.
pub open spec fn dir_rows(
    files: Seq<FileChange>,
    ex: Set<Seq<char>>,
    p: Seq<Seq<char>>,
    depth: nat,
    names: Seq<Seq<char>>,
) -> Seq<RowView>
    decreases chain_bound(file_chains(files)) - p.len(), names.len(),
{
    if names.len() == 0 || p.len() >= chain_bound(file_chains(files)) {
        seq![]
    } else {
        let d = p.push(names.last());
        dir_rows(files, ex, p, depth, names.drop_last()) + seq![dir_row(files, ex, d, depth)] + if ex.contains(
            chain_path(d),
        ) {
            tree_rows(files, ex, d, depth + 1)
        } else {
            seq![]
        }
    }
}

/// The rows of the whole tree with the directories `ex` expanded.
pub open spec fn visible_rows(files: Seq<FileChange>, ex: Set<Seq<char>>) -> Seq<RowView> {
    tree_rows(files, ex, seq![], 0)
}

proof fn lemma_bound_covers(cs: Seq<Seq<Seq<char>>>, i: int)
    requires
        0 <= i < cs.len(),
    ensures
        cs[i].len() <= chain_bound(cs),
    decreases cs.len(),
{
    if i < cs.len() - 1 {
        lemma_bound_covers(cs.drop_last(), i);
        assert(cs.drop_last()[i] == cs[i]);
    }
}

proof fn lemma_child_below_bound(cs: Seq<Seq<Seq<char>>>, p: Seq<Seq<char>>, n: Seq<char>)
    requires
        is_child_name(cs, p, n),
    ensures
        p.len() < chain_bound(cs),
{
    let i = choose|i: int| 0 <= i < cs.len() && #[trigger] extends(cs[i], p) && cs[i][p.len() as int] == n;
    lemma_bound_covers(cs, i);
}

proof fn lemma_dir_totals_bounded(files: Seq<FileChange>, d: Seq<Seq<char>>, k: int)
    requires
        0 <= k <= files.len(),
    ensures
        dir_totals(files, d, k).0 <= k,
        dir_totals(files, d, k).1 <= line_totals(files, k).0,
        dir_totals(files, d, k).2 <= line_totals(files, k).1,
    decreases k,
{
    if k > 0 {
        lemma_dir_totals_bounded(files, d, k - 1);
    }
}

proof fn lemma_line_totals_grow(files: Seq<FileChange>, j: int, k: int)
    requires
        0 <= j <= k <= files.len(),
    ensures
        line_totals(files, j).0 <= line_totals(files, k).0,
        line_totals(files, j).1 <= line_totals(files, k).1,
    decreases k - j,
{
    if j < k {
        lemma_line_totals_grow(files, j, k - 1);
    }
}

/// The directory chain of each file.
fn chains_of(files: &[FileChange]) -> (r: Vec<Vec<Vec<char>>>)
    ensures
        chain_views(r@) == file_chains(files@),
{
    let mut r: Vec<Vec<Vec<char>>> = Vec::new();
    let mut i: usize = 0;
    while i < files.len()
        invariant
            i <= files.len(),
            chain_views(r@) == file_chains(files@).take(i as int),
        decreases files.len() - i,
    {
        let cs = chars_of(files[i].path.as_str());
        let mut fields = split_fields(cs.as_slice(), '/');
        let ghost all = char_seqs(fields@);
        fields.pop();
        assert(char_seqs(fields@) =~= all.drop_last());
        let ghost before = chain_views(r@);
        r.push(fields);
        assert(chain_views(r@) =~= before.push(dir_chain(files@[i as int].path@)));
        assert(chain_views(r@) =~= file_chains(files@).take(i + 1));
        i = i + 1;
    }
    assert(file_chains(files@).take(i as int) =~= file_chains(files@));
    r
}

fn in_dir_exec(chain: &Vec<Vec<char>>, d: &Vec<Vec<char>>) -> (r: bool)
    ensures
        r == in_dir(char_seqs(chain@), char_seqs(d@)),
{
    let ghost c = char_seqs(chain@);
    let ghost dv = char_seqs(d@);
    if chain.len() < d.len() {
        return false;
    }
    let mut k: usize = 0;
    while k < d.len()
        invariant
            k <= d.len(),
            d.len() <= chain.len(),
            c == char_seqs(chain@),
            dv == char_seqs(d@),
            forall|q: int| 0 <= q < k ==> c[q] == dv[q],
        decreases d.len() - k,
    {
        if !chars_equal(chain[k].as_slice(), d[k].as_slice()) {
            assert(c.take(dv.len() as int)[k as int] != dv[k as int]);
            return false;
        }
        k = k + 1;
    }
    assert(c.take(dv.len() as int) =~= dv);
    true
}

/// The number of files and the lines added and removed in the directory `d`
/// and below.
fn dir_stats(files: &[FileChange], chains: &Vec<Vec<Vec<char>>>, d: &Vec<Vec<char>>) -> (r: (usize, usize, usize))
    requires
        chain_views(chains@) == file_chains(files@),
        totals_fit(files@),
    ensures
        (r.0 as nat, r.1 as nat, r.2 as nat) == dir_totals(files@, char_seqs(d@), files@.len() as int),
{
    let ghost dv = char_seqs(d@);
    let ghost n = files@.len() as int;
    assert(chains@.len() == files@.len()) by {
        assert(chain_views(chains@).len() == chains@.len());
    }
    let mut count: usize = 0;
    let mut added: usize = 0;
    let mut removed: usize = 0;
    let mut i: usize = 0;
    while i < files.len()
        invariant
            i <= files@.len(),
            chains@.len() == files@.len(),
            chain_views(chains@) == file_chains(files@),
            totals_fit(files@),
            dv == char_seqs(d@),
            n == files@.len(),
            (count as nat, added as nat, removed as nat) == dir_totals(files@, dv, i as int),
        decreases files@.len() - i,
    {
        proof {
            lemma_dir_totals_bounded(files@, dv, i + 1);
            lemma_line_totals_grow(files@, i + 1, n);
        }
        assert(char_seqs(chains@[i as int]@) == dir_chain(files@[i as int].path@)) by {
            assert(chain_views(chains@)[i as int] == file_chains(files@)[i as int]);
        }
        if in_dir_exec(&chains[i], d) {
            count = count + 1;
            added = added + files[i].additions;
            removed = removed + files[i].deletions;
        }
        i = i + 1;
    }
    (count, added, removed)
}

pub(crate) fn child_path(parent: &String, name: &Vec<char>) -> (r: String)
    ensures
        r@ == join_path(parent@, name@),
{
    let n = string_from_chars(name.as_slice());
    if parent.as_str().is_empty() {
        n
    } else {
        let a = concat(parent.as_str(), "/");
        proof {
            reveal_strlit("/");
        }
        let r = concat(a.as_str(), n.as_str());
        assert(r@ =~= parent@ + seq!['/'] + name@);
        r
    }
}

fn extend_chain(p: &Vec<Vec<char>>, n: &Vec<char>) -> (r: Vec<Vec<char>>)
    ensures
        char_seqs(r@) == char_seqs(p@).push(n@),
{
    let mut r: Vec<Vec<char>> = Vec::new();
    let mut i: usize = 0;
    while i < p.len()
        invariant
            i <= p.len(),
            char_seqs(r@) == char_seqs(p@).take(i as int),
        decreases p.len() - i,
    {
        let e = vstd::slice::slice_to_vec(p[i].as_slice());
        let ghost before = char_seqs(r@);
        r.push(e);
        assert(char_seqs(r@) =~= before.push(p@[i as int]@));
        assert(char_seqs(r@) =~= char_seqs(p@).take(i + 1));
        i = i + 1;
    }
    let e = vstd::slice::slice_to_vec(n.as_slice());
    let ghost before = char_seqs(r@);
    r.push(e);
    assert(char_seqs(r@) =~= before.push(n@));
    assert(char_seqs(r@) =~= char_seqs(p@).push(n@));
    r
}

fn collect_rows(
    files: &[FileChange],
    chains: &Vec<Vec<Vec<char>>>,
    expanded: &Vec<String>,
    p: &Vec<Vec<char>>,
    p_path: &String,
    depth: usize,
    rows: &mut Vec<FileTreeRow>,
)
    requires
        chain_views(chains@) == file_chains(files@),
        totals_fit(files@),
        p_path@ == chain_path(char_seqs(p@)),
        depth == p@.len(),
        p@.len() <= chain_bound(file_chains(files@)),
    ensures
        row_views(final(rows)@) == row_views(old(rows)@) + tree_rows(
            files@,
            str_set(expanded@),
            char_seqs(p@),
            depth as nat,
        ),
    decreases chain_bound(file_chains(files@)) - p@.len(),
{
    let ghost fs = files@;
    let ghost ex = str_set(expanded@);
    let ghost pv = char_seqs(p@);
    let ghost cs = file_chains(fs);
    let names = child_names_of(chains, p);
    let ghost nv = char_seqs(names@);
    assert(nv == child_names(cs, pv));
    let ghost base = row_views(rows@);
    let mut k: usize = 0;
    assert(nv.take(0) =~= seq![]);
    while k < names.len()
        invariant
            k <= names@.len(),
            fs == files@,
            ex == str_set(expanded@),
            pv == char_seqs(p@),
            cs == file_chains(fs),
            chain_views(chains@) == cs,
            totals_fit(fs),
            p_path@ == chain_path(pv),
            depth == pv.len(),
            pv.len() <= chain_bound(cs),
            nv == char_seqs(names@),
            lists_children(nv, cs, pv),
            row_views(rows@) == base + dir_rows(fs, ex, pv, depth as nat, nv.take(k as int)),
        decreases names@.len() - k,
    {
        let name = &names[k];
        assert(nv[k as int] == name@);
        assert(nv.contains(name@));
        proof {
            lemma_child_below_bound(cs, pv, name@);
        }
        let d = extend_chain(p, name);
        let ghost dv = char_seqs(d@);
        assert(dv.drop_last() =~= pv);
        let d_path = child_path(p_path, name);
        assert(d_path@ == chain_path(dv));
        let expanded_here = strs_contain(expanded, &d_path);
        let (count, added, removed) = dir_stats(files, chains, &d);
        let ghost before = row_views(rows@);
        let row = FileTreeRow::Directory {
            path: d_path.clone(),
            name: string_from_chars(name.as_slice()),
            depth,
            expanded: expanded_here,
            file_count: count,
            additions: added,
            deletions: removed,
        };
        assert(row@ == dir_row(fs, ex, dv, depth as nat));
        rows.push(row);
        assert(row_views(rows@) =~= before.push(dir_row(fs, ex, dv, depth as nat)));
        let ghost mid = row_views(rows@);
        if expanded_here {
            collect_rows(files, chains, expanded, &d, &d_path, d.len(), rows);
        }
        assert(nv.take(k + 1).drop_last() =~= nv.take(k as int));
        assert(nv.take(k + 1).last() == name@);
        assert(row_views(rows@) == mid + if ex.contains(chain_path(dv)) {
            tree_rows(fs, ex, dv, (depth + 1) as nat)
        } else {
            seq![]
        });
        assert(row_views(rows@) =~= base + dir_rows(fs, ex, pv, depth as nat, nv.take(k + 1)));
        k = k + 1;
    }
    assert(nv.take(k as int) =~= nv);
    let ghost after_dirs = row_views(rows@);
    let indices = node_files_of(files, chains, p);
    let ghost nf = node_files(fs, pv);
    let mut j: usize = 0;
    while j < indices.len()
        invariant
            j <= indices@.len(),
            fs == files@,
            indices@ == nf,
            lists_node_files(nf, fs, pv),
            row_views(rows@) == after_dirs + Seq::new(j as nat, |q: int| file_row(fs, nf[q], depth as nat)),
        decreases indices@.len() - j,
    {
        let i = indices[j];
        assert(nf.contains(i));
        let path_chars = chars_of(files[i].path.as_str());
        let mut slash: Vec<char> = Vec::new();
        slash.push('/');
        assert(slash@ =~= seq!['/']);
        let name = last_piece_of(path_chars.as_slice(), slash.as_slice());
        let ghost before = row_views(rows@);
        let row = FileTreeRow::File {
            index: i,
            path: files[i].path.clone(),
            name: string_from_chars(name.as_slice()),
            depth,
        };
        assert(row@ == file_row(fs, nf[j as int], depth as nat));
        rows.push(row);
        assert(row_views(rows@) =~= before.push(file_row(fs, nf[j as int], depth as nat)));
        assert(row_views(rows@) =~= after_dirs + Seq::new((j + 1) as nat, |q: int| file_row(fs, nf[q], depth as nat)));
        j = j + 1;
    }
    assert(row_views(rows@) =~= base + tree_rows(fs, ex, pv, depth as nat));
}

/// The rows of the file tree with the directories `expanded_dirs` expanded.
pub fn visible_file_rows(files: &[FileChange], expanded_dirs: &Vec<String>) -> (rows: Vec<FileTreeRow>)
    requires
        totals_fit(files@),
    ensures
        row_views(rows@) == visible_rows(files@, str_set(expanded_dirs@)),
{
    let chains = chains_of(files);
    let mut rows: Vec<FileTreeRow> = Vec::new();
    let root: Vec<Vec<char>> = Vec::new();
    let root_path = String::new();
    assert(char_seqs(root@) =~= seq![]);
    collect_rows(files, &chains, expanded_dirs, &root, &root_path, 0, &mut rows);
    assert(row_views(rows@) =~= seq![] + visible_rows(files@, str_set(expanded_dirs@)));
    rows
}

/// The paths of the directories that the files lie in, at every level.
pub open spec fn dir_path_set(files: Seq<FileChange>) -> Set<Seq<char>> {
    Set::new(
        |s: Seq<char>|
            exists|i: int, k: int|
                0 <= i < files.len() && 1 <= k <= dir_chain(files[i].path@).len() && #[trigger] chain_path(
                    dir_chain(#[trigger] files[i].path@).take(k),
                ) == s,
    )
}

/// The paths of all directories of the files, each once.
pub fn directory_paths(files: &[FileChange]) -> (dirs: Vec<String>)
    ensures
        distinct_strs(dirs@),
        str_set(dirs@) == dir_path_set(files@),
{
    let chains = chains_of(files);
    let mut dirs: Vec<String> = Vec::new();
    let mut i: usize = 0;
    assert(str_set(dirs@) =~= Set::empty()) by {
        assert(crate::strset::str_seqs(dirs@) =~= seq![]);
    }
    while i < files.len()
        invariant
            i <= files@.len(),
            chain_views(chains@) == file_chains(files@),
            distinct_strs(dirs@),
            forall|t: Seq<char>|
                #[trigger] str_set(dirs@).contains(t) <==> exists|a: int, k: int|
                    0 <= a < i && 1 <= k <= dir_chain(files@[a].path@).len() && #[trigger] chain_path(
                        dir_chain(files@[a].path@).take(k),
                    ) == t,
        decreases files@.len() - i,
    {
        assert(chains@.len() == files@.len()) by {
            assert(chain_views(chains@).len() == chains@.len());
        }
        let chain = &chains[i];
        let ghost c = dir_chain(files@[i as int].path@);
        assert(char_seqs(chain@) == c) by {
            assert(chain_views(chains@)[i as int] == file_chains(files@)[i as int]);
        }
        let mut path = String::new();
        let mut k: usize = 0;
        while k < chain.len()
            invariant
                k <= chain@.len(),
                char_seqs(chain@) == c,
                path@ == chain_path(c.take(k as int)),
                distinct_strs(dirs@),
                forall|t: Seq<char>|
                    #[trigger] str_set(dirs@).contains(t) <==> (exists|a: int, q: int|
                        0 <= a < i && 1 <= q <= dir_chain(files@[a].path@).len() && #[trigger] chain_path(
                            dir_chain(files@[a].path@).take(q),
                        ) == t) || exists|q: int| 1 <= q <= k && #[trigger] chain_path(c.take(q)) == t,
            decreases chain@.len() - k,
        {
            assert(c[k as int] == chain@[k as int]@);
            let next = child_path(&path, &chain[k]);
            assert(c.take(k + 1).drop_last() =~= c.take(k as int));
            assert(next@ == chain_path(c.take(k + 1)));
            let ghost old_dirs = dirs@;
            proof {
                crate::strset::lemma_str_set_push(old_dirs, next);
            }
            strs_insert(&mut dirs, next.clone());
            path = next;
            assert forall|t: Seq<char>|
                #[trigger] str_set(dirs@).contains(t) <==> (exists|a: int, q: int|
                    0 <= a < i && 1 <= q <= dir_chain(files@[a].path@).len() && #[trigger] chain_path(
                        dir_chain(files@[a].path@).take(q),
                    ) == t) || exists|q: int| 1 <= q <= k + 1 && #[trigger] chain_path(c.take(q)) == t by {
                if t == path@ {
                    assert(chain_path(c.take(k + 1)) == t);
                }
                if exists|q: int| 1 <= q <= k + 1 && #[trigger] chain_path(c.take(q)) == t {
                    let q = choose|q: int| 1 <= q <= k + 1 && #[trigger] chain_path(c.take(q)) == t;
                    if q <= k {
                        assert(str_set(old_dirs).contains(t));
                    }
                }
            }
            k = k + 1;
        }
        assert forall|t: Seq<char>|
            #[trigger] str_set(dirs@).contains(t) <==> exists|a: int, q: int|
                0 <= a < i + 1 && 1 <= q <= dir_chain(files@[a].path@).len() && #[trigger] chain_path(
                    dir_chain(files@[a].path@).take(q),
                ) == t by {
            if exists|q: int| 1 <= q <= chain@.len() && #[trigger] chain_path(c.take(q)) == t {
                let q = choose|q: int| 1 <= q <= chain@.len() && #[trigger] chain_path(c.take(q)) == t;
                assert(chain_path(dir_chain(files@[i as int].path@).take(q)) == t);
            }
            if exists|a: int, q: int|
                0 <= a < i + 1 && 1 <= q <= dir_chain(files@[a].path@).len() && #[trigger] chain_path(
                    dir_chain(files@[a].path@).take(q),
                ) == t {
                let (a, q) = choose|a: int, q: int|
                    0 <= a < i + 1 && 1 <= q <= dir_chain(files@[a].path@).len() && #[trigger] chain_path(
                        dir_chain(files@[a].path@).take(q),
                    ) == t;
                if a == i {
                    assert(chain_path(c.take(q)) == t);
                }
            }
        }
        i = i + 1;
    }
    assert(str_set(dirs@) =~= dir_path_set(files@));
    dirs
}

/// The position of the last `/` of a path.
pub open spec fn last_slash(path: Seq<char>) -> Option<int>
    decreases path.len(),
{
    if path.len() == 0 {
        None
    } else if path.last() == '/' {
        Some(path.len() - 1)
    } else {
        last_slash(path.drop_last())
    }
}

/// The path of the directory a path lies in: what comes before its last
/// `/`, when it has one.
pub open spec fn parent_dir(path: Seq<char>) -> Option<Seq<char>> {
    match last_slash(path) {
        Some(k) => Some(path.take(k)),
        None => None,
    }
}

/// The parent directory of a path, as `rsplit_once('/')` finds it.
pub fn parent_dir_path(path: &str) -> (r: Option<String>)
    ensures
        match r {
            Some(p) => parent_dir(path@) == Some(p@),
            None => parent_dir(path@) is None,
        },
{
    let cs = chars_of(path);
    let mut k: usize = cs.len();
    assert(cs@.take(k as int) =~= cs@);
    while k > 0
        invariant
            k <= cs@.len(),
            cs@ == path@,
            last_slash(path@) == last_slash(cs@.take(k as int)),
            forall|q: int| k <= q < cs@.len() ==> cs@[q] != '/',
        decreases k,
    {
        assert(cs@.take(k as int).drop_last() =~= cs@.take(k - 1));
        if cs[k - 1] == '/' {
            let parent = vstd::slice::slice_subrange(cs.as_slice(), 0, k - 1);
            assert(parent@ =~= path@.take(k - 1));
            return Some(string_from_chars(parent));
        }
        k = k - 1;
    }
    None
}

/// Two spaces per level of depth.
pub open spec fn indent_text(depth: nat) -> Seq<char> {
    Seq::new(2 * depth, |i: int| ' ')
}

pub fn indent(depth: usize) -> (r: String)
    ensures
        r@ == indent_text(depth as nat),
{
    let mut v: Vec<char> = Vec::new();
    let mut i: usize = 0;
    while i < depth
        invariant
            i <= depth,
            v@ == indent_text(i as nat),
        decreases depth - i,
    {
        v.push(' ');
        v.push(' ');
        assert(v@ =~= indent_text((i + 1) as nat));
        i = i + 1;
    }
    string_from_chars(v.as_slice())
}

/// Whether the line counts of the files add up within `usize`.
pub fn files_totals_fit(files: &[FileChange]) -> (r: bool)
    ensures
        r == totals_fit(files@),
{
    let mut added: usize = 0;
    let mut removed: usize = 0;
    let mut i: usize = 0;
    while i < files.len()
        invariant
            i <= files@.len(),
            (added as nat, removed as nat) == line_totals(files@, i as int),
        decreases files@.len() - i,
    {
        match added.checked_add(files[i].additions) {
            Some(a) => {
                added = a;
            },
            None => {
                proof {
                    lemma_line_totals_grow(files@, i + 1, files@.len() as int);
                }
                return false;
            },
        }
        match removed.checked_add(files[i].deletions) {
            Some(d) => {
                removed = d;
            },
            None => {
                proof {
                    lemma_line_totals_grow(files@, i + 1, files@.len() as int);
                }
                return false;
            },
        }
        i = i + 1;
    }
    true
}

/// The row shows the file `index`.
pub open spec fn shows_file(r: RowView, index: nat) -> bool {
    match r {
        RowView::File { index: i, .. } => i == index,
        _ => false,
    }
}

/// Some row shows the file `index`.
pub open spec fn has_file_row(rows: Seq<RowView>, index: nat) -> bool {
    exists|k: int| 0 <= k < rows.len() && #[trigger] shows_file(rows[k], index)
}

/// The names right below `p` of the first `k` chains, with repeats.
pub open spec fn names_below(cs: Seq<Seq<Seq<char>>>, p: Seq<Seq<char>>, k: int) -> Seq<Seq<char>>
    decreases k,
{
    if k <= 0 {
        seq![]
    } else {
        let r = names_below(cs, p, k - 1);
        if extends(cs[k - 1], p) {
            r.push(cs[k - 1][p.len() as int])
        } else {
            r
        }
    }
}

proof fn lemma_names_below(cs: Seq<Seq<Seq<char>>>, p: Seq<Seq<char>>, k: int, n: Seq<char>)
    requires
        0 <= k <= cs.len(),
    ensures
        names_below(cs, p, k).contains(n) <==> exists|j: int|
            0 <= j < k && #[trigger] extends(cs[j], p) && cs[j][p.len() as int] == n,
    decreases k,
{
    if k > 0 {
        lemma_names_below(cs, p, k - 1, n);
        let r = names_below(cs, p, k - 1);
        if extends(cs[k - 1], p) {
            let r2 = r.push(cs[k - 1][p.len() as int]);
            if r2.contains(n) {
                let m = choose|m: int| 0 <= m < r2.len() && r2[m] == n;
                if m < r.len() {
                    assert(r[m] == n);
                }
            }
            if r.contains(n) {
                let m = choose|m: int| 0 <= m < r.len() && r[m] == n;
                assert(r2[m] == n);
            }
            if cs[k - 1][p.len() as int] == n {
                assert(r2[r.len() as int] == n);
            }
        }
    }
}

/// The names right below a directory can be listed in order.
pub proof fn lemma_child_names_listed(cs: Seq<Seq<Seq<char>>>, p: Seq<Seq<char>>)
    ensures
        lists_children(child_names(cs, p), cs, p),
{
    lemma_seq_less_strict_total();
    let v = names_below(cs, p, cs.len() as int);
    let s = ascending_of(v, name_less());
    assert forall|n: Seq<char>| s.contains(n) <==> is_child_name(cs, p, n) by {
        lemma_names_below(cs, p, cs.len() as int, n);
    }
    assert(lists_children(s, cs, p));
}

/// The files of the first `k` that lie right in the directory `p`.
pub open spec fn files_at(files: Seq<FileChange>, p: Seq<Seq<char>>, k: int) -> Seq<usize>
    decreases k,
{
    if k <= 0 {
        seq![]
    } else {
        let r = files_at(files, p, k - 1);
        if file_chains(files)[k - 1] == p {
            r.push((k - 1) as usize)
        } else {
            r
        }
    }
}

proof fn lemma_files_at(files: Seq<FileChange>, p: Seq<Seq<char>>, k: int, i: usize)
    requires
        0 <= k <= files.len(),
        files.len() <= usize::MAX,
    ensures
        files_at(files, p, k).contains(i) <==> (i < k && file_chains(files)[i as int] == p),
    decreases k,
{
    if k > 0 {
        lemma_files_at(files, p, k - 1, i);
        let r = files_at(files, p, k - 1);
        if file_chains(files)[k - 1] == p {
            let r2 = r.push((k - 1) as usize);
            if r2.contains(i) {
                let m = choose|m: int| 0 <= m < r2.len() && r2[m] == i;
                if m < r.len() {
                    assert(r[m] == i);
                }
            }
            if r.contains(i) {
                let m = choose|m: int| 0 <= m < r.len() && r[m] == i;
                assert(r2[m] == i);
            }
            if i == (k - 1) as usize {
                assert(r2[r.len() as int] == i);
            }
        }
    }
}

/// The files right in a directory can be listed by path.
pub proof fn lemma_node_files_listed(files: Seq<FileChange>, p: Seq<Seq<char>>)
    requires
        files.len() <= usize::MAX,
    ensures
        lists_node_files(node_files(files, p), files, p),
{
    lemma_before_strict_total(file_paths(files));
    let v = files_at(files, p, files.len() as int);
    let s = ascending_of(v, file_less(files));
    assert forall|i: usize| #![trigger s.contains(i)] s.contains(i) <==> (i < files.len() && file_chains(files)[i as int] == p) by {
        lemma_files_at(files, p, files.len() as int, i);
    }
    assert(lists_node_files(s, files, p));
}

proof fn lemma_rows_append(a: Seq<RowView>, b: Seq<RowView>, i: nat)
    ensures
        has_file_row(a, i) || has_file_row(b, i) ==> has_file_row(a + b, i),
{
    if has_file_row(a, i) {
        let k = choose|k: int| 0 <= k < a.len() && #[trigger] shows_file(a[k], i);
        assert((a + b)[k] == a[k]);
    } else if has_file_row(b, i) {
        let k = choose|k: int| 0 <= k < b.len() && #[trigger] shows_file(b[k], i);
        assert((a + b)[a.len() + k] == b[k]);
    }
}

proof fn lemma_dir_rows_show(
    files: Seq<FileChange>,
    ex: Set<Seq<char>>,
    p: Seq<Seq<char>>,
    depth: nat,
    names: Seq<Seq<char>>,
    n: Seq<char>,
    i: nat,
)
    requires
        names.contains(n),
        p.len() < chain_bound(file_chains(files)),
        ex.contains(chain_path(p.push(n))),
        has_file_row(tree_rows(files, ex, p.push(n), depth + 1), i),
    ensures
        has_file_row(dir_rows(files, ex, p, depth, names), i),
    decreases names.len(),
{
    let d = p.push(names.last());
    let before = dir_rows(files, ex, p, depth, names.drop_last());
    let mid = before + seq![dir_row(files, ex, d, depth)];
    if names.last() == n {
        lemma_rows_append(mid, tree_rows(files, ex, d, depth + 1), i);
    } else {
        let k = choose|k: int| 0 <= k < names.len() && names[k] == n;
        assert(names.drop_last()[k] == n);
        lemma_dir_rows_show(files, ex, p, depth, names.drop_last(), n, i);
        lemma_rows_append(before, seq![dir_row(files, ex, d, depth)], i);
        lemma_rows_append(mid, if ex.contains(chain_path(d)) {
            tree_rows(files, ex, d, depth + 1)
        } else {
            seq![]
        }, i);
    }
}

proof fn lemma_file_rows_below(files: Seq<FileChange>, i: int, d: int)
    requires
        0 <= i < files.len(),
        files.len() <= usize::MAX,
        0 <= d <= file_chains(files)[i].len(),
    ensures
        has_file_row(
            tree_rows(files, dir_path_set(files), file_chains(files)[i].take(d), d as nat),
            i as nat,
        ),
    decreases file_chains(files)[i].len() - d,
{
    let cs = file_chains(files);
    let c = cs[i];
    let ex = dir_path_set(files);
    let p = c.take(d);
    lemma_bound_covers(cs, i);
    lemma_child_names_listed(cs, p);
    lemma_node_files_listed(files, p);
    let names = child_names(cs, p);
    let nf = node_files(files, p);
    let file_part = Seq::new(nf.len(), |k: int| file_row(files, nf[k], d as nat));
    assert(tree_rows(files, ex, p, d as nat) == dir_rows(files, ex, p, d as nat, names) + file_part);
    if d == c.len() {
        assert(p =~= c);
        assert(cs[i] == p);
        assert(nf.contains(i as usize));
        let k = choose|k: int| 0 <= k < nf.len() && nf[k] == i as usize;
        assert(shows_file(file_part[k], i as nat));
        lemma_rows_append(dir_rows(files, ex, p, d as nat, names), file_part, i as nat);
    } else {
        let n = c[d];
        assert(c.take(d + 1) =~= p.push(n));
        assert(extends(cs[i], p));
        assert(is_child_name(cs, p, n));
        assert(names.contains(n));
        lemma_child_below_bound(cs, p, n);
        lemma_file_rows_below(files, i, d + 1);
        assert(ex.contains(chain_path(p.push(n)))) by {
            assert(chain_path(dir_chain(files[i].path@).take(d + 1)) == chain_path(p.push(n)));
        }
        lemma_dir_rows_show(files, ex, p, d as nat, names, n, i as nat);
        lemma_rows_append(dir_rows(files, ex, p, d as nat, names), file_part, i as nat);
    }
}

/// With every directory expanded, as the terminal front end starts, each
/// file has a row.
pub proof fn lemma_expanded_tree_shows_every_file(files: Seq<FileChange>, i: int)
    requires
        0 <= i < files.len(),
        files.len() <= usize::MAX,
    ensures
        has_file_row(visible_rows(files, dir_path_set(files)), i as nat),
{
    lemma_file_rows_below(files, i, 0);
    assert(file_chains(files)[i].take(0) =~= seq![]);
}

/// The row names a file of the list, if it names one.
pub open spec fn names_listed_file(r: RowView, n: nat) -> bool {
    match r {
        RowView::File { index, .. } => index < n,
        _ => true,
    }
}

proof fn lemma_tree_rows_name_listed_files(files: Seq<FileChange>, ex: Set<Seq<char>>, p: Seq<Seq<char>>, depth: nat)
    requires
        files.len() <= usize::MAX,
    ensures
        forall|k: int|
            0 <= k < tree_rows(files, ex, p, depth).len() ==> names_listed_file(
                #[trigger] tree_rows(files, ex, p, depth)[k],
                files.len(),
            ),
    decreases chain_bound(file_chains(files)) - p.len(), child_names(file_chains(files), p).len() + 1,
{
    if p.len() <= chain_bound(file_chains(files)) {
        let names = child_names(file_chains(files), p);
        lemma_dir_rows_name_listed_files(files, ex, p, depth, names);
        lemma_node_files_listed(files, p);
        let nf = node_files(files, p);
        let file_part = Seq::new(nf.len(), |k: int| file_row(files, nf[k], depth));
        assert forall|k: int| 0 <= k < file_part.len() implies names_listed_file(#[trigger] file_part[k], files.len()) by {
            assert(nf.contains(nf[k]));
        }
        let rows = tree_rows(files, ex, p, depth);
        assert(rows == dir_rows(files, ex, p, depth, names) + file_part);
        assert forall|k: int| 0 <= k < rows.len() implies names_listed_file(#[trigger] rows[k], files.len()) by {
            let dr = dir_rows(files, ex, p, depth, names);
            if k < dr.len() {
                assert(rows[k] == dr[k]);
            } else {
                assert(rows[k] == file_part[k - dr.len()]);
            }
        }
    }
}

proof fn lemma_dir_rows_name_listed_files(
    files: Seq<FileChange>,
    ex: Set<Seq<char>>,
    p: Seq<Seq<char>>,
    depth: nat,
    names: Seq<Seq<char>>,
)
    requires
        files.len() <= usize::MAX,
    ensures
        forall|k: int|
            0 <= k < dir_rows(files, ex, p, depth, names).len() ==> names_listed_file(
                #[trigger] dir_rows(files, ex, p, depth, names)[k],
                files.len(),
            ),
    decreases chain_bound(file_chains(files)) - p.len(), names.len(),
{
    if names.len() > 0 && p.len() < chain_bound(file_chains(files)) {
        let d = p.push(names.last());
        lemma_dir_rows_name_listed_files(files, ex, p, depth, names.drop_last());
        let head = dir_rows(files, ex, p, depth, names.drop_last()) + seq![dir_row(files, ex, d, depth)];
        let tail = if ex.contains(chain_path(d)) {
            tree_rows(files, ex, d, depth + 1)
        } else {
            seq![]
        };
        if ex.contains(chain_path(d)) {
            lemma_tree_rows_name_listed_files(files, ex, d, depth + 1);
        }
        let rows = dir_rows(files, ex, p, depth, names);
        assert(rows == head + tail);
        assert forall|k: int| 0 <= k < rows.len() implies names_listed_file(#[trigger] rows[k], files.len()) by {
            if k < head.len() {
                assert(rows[k] == head[k]);
                if k < head.len() - 1 {
                    assert(head[k] == dir_rows(files, ex, p, depth, names.drop_last())[k]);
                }
            } else {
                assert(rows[k] == tail[k - head.len()]);
            }
        }
    }
}

/// Each file row of the tree names a file of the list.
pub proof fn lemma_visible_rows_name_listed_files(files: Seq<FileChange>, ex: Set<Seq<char>>)
    requires
        files.len() <= usize::MAX,
    ensures
        forall|k: int|
            0 <= k < visible_rows(files, ex).len() ==> names_listed_file(
                #[trigger] visible_rows(files, ex)[k],
                files.len(),
            ),
{
    lemma_tree_rows_name_listed_files(files, ex, seq![], 0);
}

} // verus!
