//! A set of strings held in a vector without repeats, as the reviewed paths
//! of a session and the expanded directories of the file tree are.
use vstd::prelude::*;

verus! {

pub open spec fn str_seqs(v: Seq<String>) -> Seq<Seq<char>> {
    v.map_values(|s: String| s@)
}

/// The set of texts that a vector of strings holds.
pub open spec fn str_set(v: Seq<String>) -> Set<Seq<char>> {
    str_seqs(v).to_set()
}

/// No text occurs twice in the vector.
pub open spec fn distinct_strs(v: Seq<String>) -> bool {
    str_seqs(v).no_duplicates()
}

pub proof fn lemma_str_set_push(v: Seq<String>, s: String)
    ensures
        str_set(v.push(s)) == str_set(v).insert(s@),
{
    let before = str_seqs(v);
    let after = str_seqs(v.push(s));
    assert(after =~= before.push(s@));
    assert forall|t: Seq<char>| #[trigger] after.contains(t) <==> (before.contains(t) || t == s@) by {
        if after.contains(t) {
            let k = choose|k: int| 0 <= k < after.len() && after[k] == t;
            if k < before.len() {
                assert(before[k] == t);
            }
        }
        if before.contains(t) {
            let k = choose|k: int| 0 <= k < before.len() && before[k] == t;
            assert(after[k] == t);
        }
        if t == s@ {
            assert(after[before.len() as int] == t);
        }
    }
    assert(str_set(v.push(s)) =~= str_set(v).insert(s@));
}

/// Whether the vector holds the text `s`.
pub fn strs_contain(v: &Vec<String>, s: &String) -> (r: bool)
    ensures
        r == str_set(v@).contains(s@),
{
    let mut i: usize = 0;
    while i < v.len()
        invariant
            i <= v.len(),
            forall|k: int| 0 <= k < i ==> v@[k]@ != s@,
        decreases v.len() - i,
    {
        if v[i] == *s {
            assert(str_seqs(v@)[i as int] == s@);
            return true;
        }
        i = i + 1;
    }
    proof {
        if str_seqs(v@).contains(s@) {
            let k = choose|k: int| 0 <= k < str_seqs(v@).len() && str_seqs(v@)[k] == s@;
            assert(v@[k]@ == s@);
        }
    }
    false
}

/// Adds the text `s` when the vector does not hold it yet.
pub fn strs_insert(v: &mut Vec<String>, s: String)
    requires
        distinct_strs(old(v)@),
    ensures
        distinct_strs(final(v)@),
        str_set(final(v)@) == str_set(old(v)@).insert(s@),
{
    if strs_contain(v, &s) {
        assert(str_set(v@).insert(s@) =~= str_set(v@));
        return ;
    }
    let ghost before = str_seqs(v@);
    proof {
        lemma_str_set_push(v@, s);
    }
    v.push(s);
    assert(str_seqs(v@) =~= before.push(s@));
}

/// Removes the text `s` from the vector.
pub fn strs_remove(v: &mut Vec<String>, s: &String)
    requires
        distinct_strs(old(v)@),
    ensures
        distinct_strs(final(v)@),
        str_set(final(v)@) == str_set(old(v)@).remove(s@),
{
    let ghost before = str_seqs(v@);
    let mut i: usize = 0;
    while i < v.len()
        invariant
            i <= v.len(),
            v@ == old(v)@,
            before == str_seqs(v@),
            distinct_strs(v@),
            forall|k: int| 0 <= k < i ==> v@[k]@ != s@,
        decreases v.len() - i,
    {
        if v[i] == *s {
            v.remove(i);
            let ghost after = str_seqs(v@);
            assert(after =~= before.subrange(0, i as int) + before.subrange(i + 1, before.len() as int));
            assert(after.no_duplicates()) by {
                assert forall|a: int, b: int| 0 <= a < after.len() && 0 <= b < after.len() && a != b
                    implies after[a] != after[b] by {
                    let ia = if a < i { a } else { a + 1 };
                    let ib = if b < i { b } else { b + 1 };
                    assert(after[a] == before[ia]);
                    assert(after[b] == before[ib]);
                }
            }
            assert(str_set(v@) =~= str_set(old(v)@).remove(s@)) by {
                assert forall|t: Seq<char>| after.contains(t) <==> (before.contains(t) && t != s@) by {
                    if after.contains(t) {
                        let k = choose|k: int| 0 <= k < after.len() && after[k] == t;
                        let j = if k < i { k } else { k + 1 };
                        assert(before[j] == t);
                        assert(before[i as int] == s@);
                        assert(j != i);
                    }
                    if before.contains(t) && t != s@ {
                        let j = choose|j: int| 0 <= j < before.len() && before[j] == t;
                        assert(j != i);
                        if j < i {
                            assert(after[j] == t);
                        } else {
                            assert(after[j - 1] == t);
                        }
                    }
                }
            }
            return ;
        }
        i = i + 1;
    }
    assert(str_set(v@) =~= str_set(old(v)@).remove(s@)) by {
        assert forall|t: Seq<char>| before.contains(t) implies t != s@ by {
            let k = choose|k: int| 0 <= k < before.len() && before[k] == t;
            assert(v@[k]@ == t);
        }
    }
}

} // verus!
