//! Sorting of integer sequences.

use vstd::prelude::*;

verus! {

/// `s` is in non-decreasing order.
pub open spec fn sorted_asc(s: Seq<i64>) -> bool {
    forall|i: int, j: int| 0 <= i <= j < s.len() ==> s[i] <= s[j]
}

/// `s` is in strictly increasing order.
pub open spec fn strictly_increasing(s: Seq<i64>) -> bool {
    forall|i: int, j: int| 0 <= i < j < s.len() ==> s[i] < s[j]
}

proof fn lemma_insert_multiset(s: Seq<i64>, pos: int, x: i64)
    requires
        0 <= pos <= s.len(),
    ensures
        s.insert(pos, x).to_multiset() =~= s.to_multiset().insert(x),
{
    broadcast use vstd::seq_lib::lemma_multiset_commutative;
    broadcast use vstd::multiset::group_multiset_axioms;
    let a = s.subrange(0, pos);
    let b = s.subrange(pos, s.len() as int);
    assert(s =~= a + b);
    assert(s.insert(pos, x) =~= a.push(x) + b);
    a.to_multiset_ensures();
    assert(a.push(x).to_multiset() =~= a.to_multiset().insert(x));
}

/// The values of `s` in non-decreasing order.
pub fn sort_i64(s: &[i64]) -> (r: Vec<i64>)
    ensures
        sorted_asc(r@),
        r@.to_multiset() == s@.to_multiset(),
        sorted_asc(s@) ==> r@ == s@,
{
    broadcast use vstd::seq_lib::lemma_multiset_commutative;
    let mut r: Vec<i64> = Vec::new();
    let mut i: usize = 0;
    assert(s@.subrange(0, 0) =~= Seq::<i64>::empty());
    while i < s.len()
        invariant
            i <= s@.len(),
            sorted_asc(r@),
            r@.to_multiset() == s@.subrange(0, i as int).to_multiset(),
            sorted_asc(s@) ==> r@ == s@.subrange(0, i as int),
        decreases s.len() - i,
    {
        let x = s[i];
        let mut pos: usize = 0;
        while pos < r.len() && r[pos] <= x
            invariant
                pos <= r@.len(),
                forall|k: int| 0 <= k < pos ==> r@[k] <= x,
                sorted_asc(s@) ==> r@ == s@.subrange(0, i as int),
                i < s@.len(),
                x == s@[i as int],
            decreases r.len() - pos,
        {
            pos = pos + 1;
        }
        let ghost before = r@;
        proof {
            if sorted_asc(s@) && pos < before.len() {
                assert(before[pos as int] == s@[pos as int]);
                assert(s@[pos as int] <= s@[i as int]);
            }
        }
        r.insert(pos, x);
        proof {
            if sorted_asc(s@) {
                assert(pos == before.len());
                assert(r@ =~= s@.subrange(0, i + 1));
            }
            lemma_insert_multiset(before, pos as int, x);
            assert(s@.subrange(0, i + 1) =~= s@.subrange(0, i as int).push(x));
            s@.subrange(0, i as int).to_multiset_ensures();
            assert forall|a: int, b: int| 0 <= a <= b < r@.len() implies r@[a] <= r@[b] by {
                if a < pos && b < pos {
                } else if a < pos && b == pos {
                } else if a < pos && b > pos {
                    assert(r@[b] == before[b - 1]);
                    if pos < before.len() {
                        assert(before[pos as int] > x);
                    }
                } else if a == pos && b > pos {
                    assert(r@[b] == before[b - 1]);
                    assert(before[pos as int] > x);
                } else if a > pos {
                    assert(r@[a] == before[a - 1]);
                    assert(r@[b] == before[b - 1]);
                }
            }
        }
        i = i + 1;
    }
    assert(s@.subrange(0, i as int) =~= s@);
    r
}

} // verus!
