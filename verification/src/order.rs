//! Stable ordering by text keys, the order that `sort_by` with `str::cmp`
//! gives: by key in lexicographic order, equal keys keeping their places.
use vstd::prelude::*;

use crate::text::{char_seqs, chars_less, seq_less};

verus! {

pub proof fn lemma_seq_less_irreflexive(a: Seq<char>)
    ensures
        !seq_less(a, a),
    decreases a.len(),
{
    if a.len() > 0 {
        lemma_seq_less_irreflexive(a.drop_first());
    }
}

pub proof fn lemma_seq_less_transitive(a: Seq<char>, b: Seq<char>, c: Seq<char>)
    requires
        seq_less(a, b),
        seq_less(b, c),
    ensures
        seq_less(a, c),
    decreases a.len(),
{
    if a.len() > 0 && b.len() > 0 && c.len() > 0 {
        if a[0] == b[0] && b[0] == c[0] {
            lemma_seq_less_transitive(a.drop_first(), b.drop_first(), c.drop_first());
        }
    }
}

pub proof fn lemma_seq_less_total(a: Seq<char>, b: Seq<char>)
    ensures
        a == b || seq_less(a, b) || seq_less(b, a),
    decreases a.len(),
{
    if a.len() > 0 && b.len() > 0 && a[0] == b[0] {
        lemma_seq_less_total(a.drop_first(), b.drop_first());
        if a.drop_first() == b.drop_first() {
            assert(a.len() == b.len());
            assert forall|i: int| 0 <= i < a.len() implies a[i] == b[i] by {
                if i > 0 {
                    assert(a[i] == a.drop_first()[i - 1]);
                    assert(b[i] == b.drop_first()[i - 1]);
                }
            }
            assert(a =~= b);
        }
    } else if a.len() == 0 && b.len() == 0 {
        assert(a =~= b);
    }
}

pub proof fn lemma_seq_less_asymmetric(a: Seq<char>, b: Seq<char>)
    requires
        seq_less(a, b),
    ensures
        !seq_less(b, a),
{
    if seq_less(b, a) {
        lemma_seq_less_transitive(a, b, a);
        lemma_seq_less_irreflexive(a);
    }
}

/// `less` is a strict total order.
pub open spec fn strict_total<A>(less: spec_fn(A, A) -> bool) -> bool {
    &&& forall|a: A| !#[trigger] less(a, a)
    &&& forall|a: A, b: A, c: A| #[trigger] less(a, b) && #[trigger] less(b, c) ==> less(a, c)
    &&& forall|a: A, b: A| #![trigger less(a, b)] a != b ==> less(a, b) || less(b, a)
}

/// Each element of `s` is below every later one.
pub open spec fn ascending<A>(s: Seq<A>, less: spec_fn(A, A) -> bool) -> bool {
    forall|i: int, j: int| 0 <= i < j < s.len() ==> #[trigger] less(s[i], s[j])
}

proof fn lemma_ascending_tail<A>(x: Seq<A>, less: spec_fn(A, A) -> bool, a: A)
    requires
        strict_total(less),
        ascending(x, less),
        x.len() > 0,
    ensures
        x.drop_first().contains(a) <==> (x.contains(a) && a != x[0]),
{
    if x.drop_first().contains(a) {
        let k = choose|k: int| 0 <= k < x.drop_first().len() && x.drop_first()[k] == a;
        assert(x[k + 1] == a);
        assert(less(x[0], x[k + 1]));
    }
    if x.contains(a) && a != x[0] {
        let k = choose|k: int| 0 <= k < x.len() && x[k] == a;
        assert(k != 0);
        assert(x.drop_first()[k - 1] == a);
    }
}

/// Two ascending sequences of a strict total order with the same elements
/// are equal.
pub proof fn lemma_ascending_unique<A>(x: Seq<A>, y: Seq<A>, less: spec_fn(A, A) -> bool)
    requires
        strict_total(less),
        ascending(x, less),
        ascending(y, less),
        forall|a: A| x.contains(a) <==> y.contains(a),
    ensures
        x == y,
    decreases x.len(),
{
    if x.len() == 0 {
        if y.len() > 0 {
            assert(y.contains(y[0]));
        }
        assert(x =~= y);
    } else {
        assert(x.contains(x[0]));
        assert(y.contains(x[0]));
        assert(y.contains(y[0]));
        assert(x.contains(y[0]));
        let i = choose|i: int| 0 <= i < x.len() && x[i] == y[0];
        let j = choose|j: int| 0 <= j < y.len() && y[j] == x[0];
        if x[0] != y[0] {
            assert(i != 0 && j != 0);
            assert(less(x[0], x[i]));
            assert(less(y[0], y[j]));
            assert(less(x[0], x[0]));
        }
        assert forall|a: A| x.drop_first().contains(a) <==> y.drop_first().contains(a) by {
            lemma_ascending_tail(x, less, a);
            lemma_ascending_tail(y, less, a);
        }
        assert(ascending(x.drop_first(), less)) by {
            assert forall|p: int, q: int| 0 <= p < q < x.drop_first().len() implies #[trigger] less(
                x.drop_first()[p],
                x.drop_first()[q],
            ) by {
                assert(less(x[p + 1], x[q + 1]));
            }
        }
        assert(ascending(y.drop_first(), less)) by {
            assert forall|p: int, q: int| 0 <= p < q < y.drop_first().len() implies #[trigger] less(
                y.drop_first()[p],
                y.drop_first()[q],
            ) by {
                assert(less(y[p + 1], y[q + 1]));
            }
        }
        lemma_ascending_unique(x.drop_first(), y.drop_first(), less);
        assert(y.len() > 0);
        assert(x.len() == y.len()) by {
            assert(x.drop_first().len() == y.drop_first().len());
        }
        assert(x =~= y) by {
            assert forall|k: int| 0 <= k < x.len() implies x[k] == y[k] by {
                if k > 0 {
                    assert(x[k] == x.drop_first()[k - 1]);
                    assert(y[k] == y.drop_first()[k - 1]);
                }
            }
        }
    }
}

proof fn insert_ascending<A>(s: Seq<A>, x: A, less: spec_fn(A, A) -> bool) -> (r: Seq<A>)
    requires
        strict_total(less),
        ascending(s, less),
        !s.contains(x),
    ensures
        ascending(r, less),
        forall|a: A| r.contains(a) <==> (s.contains(a) || a == x),
    decreases s.len(),
{
    if s.len() == 0 {
        let r = seq![x];
        assert(r[0] == x);
        r
    } else if less(x, s[0]) {
        let r = seq![x] + s;
        assert forall|i: int, j: int| 0 <= i < j < r.len() implies #[trigger] less(r[i], r[j]) by {
            if i == 0 {
                if j > 1 {
                    assert(less(s[0], s[j - 1]));
                }
            } else {
                assert(less(s[i - 1], s[j - 1]));
            }
        }
        assert forall|a: A| r.contains(a) <==> (s.contains(a) || a == x) by {
            if r.contains(a) {
                let k = choose|k: int| 0 <= k < r.len() && r[k] == a;
                if k > 0 {
                    assert(s[k - 1] == a);
                }
            }
            if s.contains(a) {
                let k = choose|k: int| 0 <= k < s.len() && s[k] == a;
                assert(r[k + 1] == a);
            }
            if a == x {
                assert(r[0] == a);
            }
        }
        r
    } else {
        assert(s.contains(s[0]));
        assert(s[0] != x);
        assert(less(s[0], x));
        let t = s.drop_first();
        assert(ascending(t, less)) by {
            assert forall|i: int, j: int| 0 <= i < j < t.len() implies #[trigger] less(t[i], t[j]) by {
                assert(less(s[i + 1], s[j + 1]));
            }
        }
        assert(!t.contains(x)) by {
            if t.contains(x) {
                let k = choose|k: int| 0 <= k < t.len() && t[k] == x;
                assert(s[k + 1] == x);
            }
        }
        let u = insert_ascending(t, x, less);
        let r = seq![s[0]] + u;
        assert forall|j: int| 0 <= j < u.len() implies #[trigger] less(s[0], u[j]) by {
            assert(u.contains(u[j]));
            if u[j] != x {
                let k = choose|k: int| 0 <= k < t.len() && t[k] == u[j];
                assert(less(s[0], s[k + 1]));
            }
        }
        assert forall|i: int, j: int| 0 <= i < j < r.len() implies #[trigger] less(r[i], r[j]) by {
            if i == 0 {
                assert(less(s[0], u[j - 1]));
            } else {
                assert(less(u[i - 1], u[j - 1]));
            }
        }
        assert forall|a: A| r.contains(a) <==> (s.contains(a) || a == x) by {
            if r.contains(a) {
                let k = choose|k: int| 0 <= k < r.len() && r[k] == a;
                if k > 0 {
                    assert(u[k - 1] == a);
                    assert(u.contains(a));
                    if a != x {
                        let m = choose|m: int| 0 <= m < t.len() && t[m] == a;
                        assert(s[m + 1] == a);
                    }
                } else {
                    assert(s[0] == a);
                }
            }
            if s.contains(a) {
                let k = choose|k: int| 0 <= k < s.len() && s[k] == a;
                if k == 0 {
                    assert(r[0] == a);
                } else {
                    assert(t[k - 1] == a);
                    assert(t.contains(a));
                    assert(u.contains(a));
                    let m = choose|m: int| 0 <= m < u.len() && u[m] == a;
                    assert(r[m + 1] == a);
                }
            }
            if a == x {
                assert(u.contains(x));
                let m = choose|m: int| 0 <= m < u.len() && u[m] == x;
                assert(r[m + 1] == x);
            }
        }
        r
    }
}

/// Any sequence's elements can be listed in ascending order of a strict
/// total order.
pub proof fn ascending_of<A>(v: Seq<A>, less: spec_fn(A, A) -> bool) -> (s: Seq<A>)
    requires
        strict_total(less),
    ensures
        ascending(s, less),
        forall|a: A| s.contains(a) <==> v.contains(a),
    decreases v.len(),
{
    if v.len() == 0 {
        let s: Seq<A> = seq![];
        s
    } else {
        let s0 = ascending_of(v.drop_last(), less);
        let x = v.last();
        let s = if s0.contains(x) {
            s0
        } else {
            insert_ascending(s0, x, less)
        };
        assert forall|a: A| s.contains(a) <==> v.contains(a) by {
            if v.contains(a) && a != x {
                let k = choose|k: int| 0 <= k < v.len() && v[k] == a;
                assert(v.drop_last()[k] == a);
            }
            if v.drop_last().contains(a) {
                let k = choose|k: int| 0 <= k < v.drop_last().len() && v.drop_last()[k] == a;
                assert(v[k] == a);
            }
            if a == x {
                assert(v[v.len() - 1] == a);
            }
        }
        s
    }
}

/// `less` is irreflexive and transitive, and orders any two distinct
/// elements of `s`.
pub open spec fn strict_total_on<A>(less: spec_fn(A, A) -> bool, s: Seq<A>) -> bool {
    &&& forall|a: A| !#[trigger] less(a, a)
    &&& forall|a: A, b: A, c: A| #[trigger] less(a, b) && #[trigger] less(b, c) ==> less(a, c)
    &&& forall|a: A, b: A|
        #![trigger less(a, b)]
        s.contains(a) && s.contains(b) && a != b ==> less(a, b) || less(b, a)
}

/// Two ascending sequences with the same elements, among which `less` is a
/// strict total order, are equal.
pub proof fn lemma_ascending_unique_on<A>(x: Seq<A>, y: Seq<A>, less: spec_fn(A, A) -> bool)
    requires
        strict_total_on(less, x),
        ascending(x, less),
        ascending(y, less),
        forall|a: A| x.contains(a) <==> y.contains(a),
    ensures
        x == y,
    decreases x.len(),
{
    if x.len() == 0 {
        if y.len() > 0 {
            assert(y.contains(y[0]));
        }
        assert(x =~= y);
    } else {
        assert(x.contains(x[0]));
        assert(y.contains(x[0]));
        assert(y.contains(y[0]));
        assert(x.contains(y[0]));
        let i = choose|i: int| 0 <= i < x.len() && x[i] == y[0];
        let j = choose|j: int| 0 <= j < y.len() && y[j] == x[0];
        if x[0] != y[0] {
            assert(i != 0 && j != 0);
            assert(less(x[0], x[i]));
            assert(less(y[0], y[j]));
            assert(less(x[0], x[0]));
        }
        assert forall|a: A| x.drop_first().contains(a) <==> y.drop_first().contains(a) by {
            if x.drop_first().contains(a) {
                let k = choose|k: int| 0 <= k < x.drop_first().len() && x.drop_first()[k] == a;
                assert(x[k + 1] == a);
                assert(less(x[0], x[k + 1]));
                assert(y.contains(a));
                let m = choose|m: int| 0 <= m < y.len() && y[m] == a;
                assert(m != 0);
                assert(y.drop_first()[m - 1] == a);
            }
            if y.drop_first().contains(a) {
                let k = choose|k: int| 0 <= k < y.drop_first().len() && y.drop_first()[k] == a;
                assert(y[k + 1] == a);
                assert(less(y[0], y[k + 1]));
                assert(x.contains(a));
                let m = choose|m: int| 0 <= m < x.len() && x[m] == a;
                assert(m != 0);
                assert(x.drop_first()[m - 1] == a);
            }
        }
        assert(ascending(x.drop_first(), less)) by {
            assert forall|p: int, q: int| 0 <= p < q < x.drop_first().len() implies #[trigger] less(
                x.drop_first()[p],
                x.drop_first()[q],
            ) by {
                assert(less(x[p + 1], x[q + 1]));
            }
        }
        assert(ascending(y.drop_first(), less)) by {
            assert forall|p: int, q: int| 0 <= p < q < y.drop_first().len() implies #[trigger] less(
                y.drop_first()[p],
                y.drop_first()[q],
            ) by {
                assert(less(y[p + 1], y[q + 1]));
            }
        }
        assert(strict_total_on(less, x.drop_first())) by {
            assert forall|a: A, b: A|
                #![trigger less(a, b)]
                x.drop_first().contains(a) && x.drop_first().contains(b) && a != b implies less(a, b)
                    || less(b, a) by {
                let k = choose|k: int| 0 <= k < x.drop_first().len() && x.drop_first()[k] == a;
                let m = choose|m: int| 0 <= m < x.drop_first().len() && x.drop_first()[m] == b;
                assert(x[k + 1] == a && x[m + 1] == b);
                assert(x.contains(a) && x.contains(b));
            }
        }
        lemma_ascending_unique_on(x.drop_first(), y.drop_first(), less);
        assert(y.len() > 0);
        assert(x.len() == y.len()) by {
            assert(x.drop_first().len() == y.drop_first().len());
        }
        assert(x =~= y) by {
            assert forall|k: int| 0 <= k < x.len() implies x[k] == y[k] by {
                if k > 0 {
                    assert(x[k] == x.drop_first()[k - 1]);
                    assert(y[k] == y.drop_first()[k - 1]);
                }
            }
        }
    }
}

/// The order of texts is a strict total order.
pub proof fn lemma_seq_less_strict_total()
    ensures
        strict_total(|a: Seq<char>, b: Seq<char>| seq_less(a, b)),
{
    let less = |a: Seq<char>, b: Seq<char>| seq_less(a, b);
    assert forall|a: Seq<char>| !#[trigger] less(a, a) by {
        lemma_seq_less_irreflexive(a);
    }
    assert forall|a: Seq<char>, b: Seq<char>, c: Seq<char>| #[trigger] less(a, b) && #[trigger] less(b, c) implies less(a, c) by {
        lemma_seq_less_transitive(a, b, c);
    }
    assert forall|a: Seq<char>, b: Seq<char>| #![trigger less(a, b)] a != b implies less(a, b) || less(b, a) by {
        lemma_seq_less_total(a, b);
    }
}

/// The stable order of indices by key is a strict total order.
pub proof fn lemma_before_strict_total(keys: Seq<Seq<char>>)
    ensures
        strict_total(|x: usize, y: usize| before(keys, x as int, y as int)),
{
    let less = |x: usize, y: usize| before(keys, x as int, y as int);
    assert forall|a: usize| !#[trigger] less(a, a) by {
        lemma_seq_less_irreflexive(keys[a as int]);
    }
    assert forall|a: usize, b: usize, c: usize| #[trigger] less(a, b) && #[trigger] less(b, c) implies less(a, c) by {
        lemma_before_transitive(keys, a as int, b as int, c as int);
    }
    assert forall|a: usize, b: usize| #![trigger less(a, b)] a != b implies less(a, b) || less(b, a) by {
        lemma_before_total(keys, a as int, b as int);
    }
}

/// Index `x` comes before index `y` in the stable order of `keys`.
pub open spec fn before(keys: Seq<Seq<char>>, x: int, y: int) -> bool {
    seq_less(keys[x], keys[y]) || (keys[x] == keys[y] && x < y)
}

/// `perm` lists each index of `keys` once.
pub open spec fn is_permutation(perm: Seq<usize>, n: nat) -> bool {
    &&& perm.len() == n
    &&& forall|k: int| 0 <= k < perm.len() ==> #[trigger] perm[k] < n
    &&& forall|k: int, l: int| 0 <= k < l < perm.len() ==> perm[k] != perm[l]
}

/// `perm` orders the indices of `keys` by key, equal keys in index order.
pub open spec fn stably_sorted(keys: Seq<Seq<char>>, perm: Seq<usize>) -> bool {
    &&& is_permutation(perm, keys.len())
    &&& forall|k: int, l: int|
        0 <= k < l < perm.len() ==> before(keys, #[trigger] perm[k] as int, #[trigger] perm[l] as int)
}

pub proof fn lemma_before_transitive(keys: Seq<Seq<char>>, x: int, y: int, z: int)
    requires
        before(keys, x, y),
        before(keys, y, z),
    ensures
        before(keys, x, z),
{
    if seq_less(keys[x], keys[y]) && seq_less(keys[y], keys[z]) {
        lemma_seq_less_transitive(keys[x], keys[y], keys[z]);
    }
}

pub proof fn lemma_before_total(keys: Seq<Seq<char>>, x: int, y: int)
    requires
        x != y,
    ensures
        before(keys, x, y) || before(keys, y, x),
{
    lemma_seq_less_total(keys[x], keys[y]);
}

pub proof fn lemma_before_asymmetric(keys: Seq<Seq<char>>, x: int, y: int)
    requires
        before(keys, x, y),
    ensures
        !before(keys, y, x),
{
    if seq_less(keys[x], keys[y]) {
        lemma_seq_less_asymmetric(keys[x], keys[y]);
        if keys[y] == keys[x] {
            lemma_seq_less_irreflexive(keys[x]);
        }
    } else {
        lemma_seq_less_irreflexive(keys[x]);
    }
}

/// The indices of `keys` in the order that a stable sort by key gives.
pub fn stable_order(keys: &Vec<Vec<char>>) -> (perm: Vec<usize>)
    ensures
        stably_sorted(char_seqs(keys@), perm@),
{
    let ghost ks = char_seqs(keys@);
    let n = keys.len();
    let mut perm: Vec<usize> = Vec::new();
    let mut i: usize = 0;
    while i < n
        invariant
            i <= n,
            n == keys.len(),
            ks == char_seqs(keys@),
            perm.len() == i,
            is_permutation(perm@, i as nat),
            forall|k: int, l: int|
                0 <= k < l < perm.len() ==> before(ks, #[trigger] perm@[k] as int, #[trigger] perm@[l] as int),
        decreases n - i,
    {
        perm.push(i);
        let mut j: usize = i;
        while j > 0 && chars_less(keys[perm[j]].as_slice(), keys[perm[j - 1]].as_slice())
            invariant
                j <= i < n,
                n == keys.len(),
                ks == char_seqs(keys@),
                perm.len() == i + 1,
                perm@[j as int] == i,
                is_permutation(perm@, (i + 1) as nat),
                forall|k: int, l: int|
                    0 <= k < l < perm.len() && k != j && l != j ==> before(
                        ks,
                        #[trigger] perm@[k] as int,
                        #[trigger] perm@[l] as int,
                    ),
                forall|l: int| j < l < perm.len() ==> before(ks, perm@[j as int] as int, #[trigger] perm@[l] as int),
            decreases j,
        {
            let ghost old_perm = perm@;
            assert(ks[perm@[j as int] as int] == keys@[perm@[j as int] as int]@);
            assert(ks[perm@[j - 1] as int] == keys@[perm@[j - 1] as int]@);
            let a = perm[j - 1];
            let b = perm[j];
            perm.set(j - 1, b);
            perm.set(j, a);
            proof {
                assert(before(ks, b as int, a as int));
                assert forall|k: int, l: int|
                    0 <= k < l < perm.len() && k != j - 1 && l != j - 1 implies before(
                        ks,
                        #[trigger] perm@[k] as int,
                        #[trigger] perm@[l] as int,
                    ) by {
                    if k == j as int {
                        assert(perm@[k] == a);
                        assert(old_perm[(j - 1) as int] == a);
                        assert(before(ks, old_perm[(j - 1) as int] as int, old_perm[l] as int) || l == j as int);
                        if l > j as int {
                            if j - 1 > 0 || true {
                                assert(before(ks, a as int, old_perm[l] as int)) by {
                                    assert(before(ks, b as int, old_perm[l] as int));
                                    lemma_before_total(ks, a as int, old_perm[l] as int);
                                    if before(ks, old_perm[l] as int, a as int) {
                                        lemma_before_transitive(ks, b as int, old_perm[l] as int, a as int);
                                        lemma_before_asymmetric(ks, b as int, a as int);
                                    }
                                }
                            }
                        }
                    } else if l == j as int {
                        assert(perm@[l] == a);
                        assert(old_perm[k] == perm@[k]);
                        assert(before(ks, old_perm[k] as int, a as int));
                    } else {
                        assert(old_perm[k] == perm@[k]);
                        assert(old_perm[l] == perm@[l]);
                    }
                }
                assert forall|l: int| j - 1 < l < perm.len() implies before(ks, perm@[j - 1] as int, #[trigger] perm@[l] as int) by {
                    if l == j as int {
                    } else {
                        assert(old_perm[l] == perm@[l]);
                    }
                }
                assert(is_permutation(perm@, (i + 1) as nat)) by {
                    assert forall|k: int, l: int| 0 <= k < l < perm.len() implies perm@[k] != perm@[l] by {
                        let ok = if k == j as int { (j - 1) as int } else if k == j - 1 { j as int } else { k };
                        let ol = if l == j as int { (j - 1) as int } else if l == j - 1 { j as int } else { l };
                        assert(perm@[k] == old_perm[ok]);
                        assert(perm@[l] == old_perm[ol]);
                    }
                }
            }
            j = j - 1;
        }
        proof {
            if j > 0 {
                assert(ks[perm@[j as int] as int] == keys@[perm@[j as int] as int]@);
                assert(ks[perm@[j - 1] as int] == keys@[perm@[j - 1] as int]@);
                let x = perm@[j - 1] as int;
                let y = perm@[j as int] as int;
                assert(x != y);
                lemma_before_total(ks, x, y);
                if !before(ks, x, y) {
                    assert(before(ks, y, x));
                    assert(!seq_less(ks[y], ks[x]));
                    assert(ks[y] == ks[x] && y < x);
                    assert(y == i);
                    assert(x < i);
                    assert(false);
                }
                assert forall|k: int| 0 <= k < j - 1 implies before(ks, #[trigger] perm@[k] as int, perm@[j as int] as int) by {
                    lemma_before_transitive(ks, perm@[k] as int, x, y);
                }
            }
            assert forall|k: int, l: int|
                0 <= k < l < perm.len() implies before(ks, #[trigger] perm@[k] as int, #[trigger] perm@[l] as int) by {
                if l == j as int && k < j - 1 {
                } else if l == j as int && k == j - 1 {
                } else if k == j as int {
                } else {
                }
            }
        }
        i = i + 1;
    }
    perm
}

/// A list of `n` distinct indices below `n` holds every index below `n`.
proof fn lemma_permutation_covers(perm: Seq<usize>, n: nat, k: usize)
    requires
        is_permutation(perm, n),
        k < n,
    ensures
        perm.contains(k),
{
    let q = perm.map_values(|x: usize| x as int);
    assert(q.no_duplicates()) by {
        assert forall|i: int, j: int| 0 <= i < q.len() && 0 <= j < q.len() && i != j implies q[i] != q[j] by {
            if i < j {
                assert(perm[i] != perm[j]);
            } else {
                assert(perm[j] != perm[i]);
            }
        }
    }
    q.unique_seq_to_set();
    let all = vstd::set_lib::set_int_range(0, n as int);
    vstd::set_lib::lemma_int_range(0, n as int);
    assert(q.to_set().subset_of(all)) by {
        assert forall|x: int| q.to_set().contains(x) implies all.contains(x) by {
            let i = choose|i: int| 0 <= i < q.len() && q[i] == x;
            assert(perm[i] < n);
        }
    }
    vstd::set_lib::lemma_subset_equality(q.to_set(), all);
    assert(all.contains(k as int));
    assert(q.to_set().contains(k as int));
    let i = choose|i: int| 0 <= i < q.len() && q[i] == k as int;
    assert(perm[i] == k);
}

/// Only one order of the indices sorts them stably by key.
pub proof fn lemma_stably_sorted_unique(keys: Seq<Seq<char>>, p: Seq<usize>, q: Seq<usize>)
    requires
        stably_sorted(keys, p),
        stably_sorted(keys, q),
    ensures
        p == q,
{
    let less = |x: usize, y: usize| before(keys, x as int, y as int);
    lemma_before_strict_total(keys);
    assert forall|a: usize| p.contains(a) <==> q.contains(a) by {
        if p.contains(a) {
            let i = choose|i: int| 0 <= i < p.len() && p[i] == a;
            assert(p[i] < keys.len());
            lemma_permutation_covers(q, keys.len(), a);
        }
        if q.contains(a) {
            let i = choose|i: int| 0 <= i < q.len() && q[i] == a;
            assert(q[i] < keys.len());
            lemma_permutation_covers(p, keys.len(), a);
        }
    }
    assert(ascending(p, less)) by {
        assert forall|i: int, j: int| 0 <= i < j < p.len() implies #[trigger] less(p[i], p[j]) by {
            assert(before(keys, p[i] as int, p[j] as int));
        }
    }
    assert(ascending(q, less)) by {
        assert forall|i: int, j: int| 0 <= i < j < q.len() implies #[trigger] less(q[i], q[j]) by {
            assert(before(keys, q[i] as int, q[j] as int));
        }
    }
    lemma_ascending_unique(p, q, less);
}

} // verus!
