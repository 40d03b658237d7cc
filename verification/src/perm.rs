//! Keys are permutations of a fixed alphabet. This module defines what a
//! permutation is, proves that the elementary key operations (position swaps)
//! preserve it, and provides an executable check that decides it.

use vstd::prelude::*;
use vstd::seq_lib::group_to_multiset_ensures;
use vstd::multiset::group_multiset_axioms;
use vstd::multiset::Multiset;

verus! {

/// Number of occurrences of `c` in `s`.
pub open spec fn count_in(s: Seq<u8>, c: u8) -> nat
    decreases s.len(),
{
    if s.len() == 0 {
        0
    } else {
        count_in(s.drop_last(), c) + (if s.last() == c {
            1nat
        } else {
            0nat
        })
    }
}

/// `k` is a rearrangement of `alpha`: the multiset of its symbols equals the
/// multiset of the symbols of `alpha`.
pub open spec fn permutation_of(k: Seq<u8>, alpha: Seq<u8>) -> bool {
    k.to_multiset() == alpha.to_multiset()
}

/// Occurrence counts agree with multiset counts.
pub proof fn lemma_count_in_is_multiset_count(s: Seq<u8>, c: u8)
    ensures
        count_in(s, c) == s.to_multiset().count(c),
    decreases s.len(),
{
    broadcast use group_to_multiset_ensures;
    broadcast use group_multiset_axioms;

    if s.len() == 0 {
        assert(s.to_multiset() =~= Multiset::<u8>::empty());
    } else {
        lemma_count_in_is_multiset_count(s.drop_last(), c);
        assert(s =~= s.drop_last().push(s.last()));
        assert(s.drop_last().push(s.last()).to_multiset() =~= s.drop_last().to_multiset().insert(
            s.last(),
        ));
    }
}

/// Two sequences are rearrangements of each other exactly when they have the
/// same length and every symbol occurs equally often in both.
pub proof fn lemma_permutation_by_counts(k: Seq<u8>, alpha: Seq<u8>)
    ensures
        permutation_of(k, alpha) <==> (k.len() == alpha.len() && forall|c: u8|
            count_in(k, c) == count_in(alpha, c)),
{
    broadcast use group_to_multiset_ensures;
    broadcast use group_multiset_axioms;

    assert forall|c: u8| #[trigger] count_in(k, c) == k.to_multiset().count(c) by {
        lemma_count_in_is_multiset_count(k, c);
    }
    assert forall|c: u8| #[trigger] count_in(alpha, c) == alpha.to_multiset().count(c) by {
        lemma_count_in_is_multiset_count(alpha, c);
    }
    if permutation_of(k, alpha) {
        assert(k.to_multiset().len() == alpha.to_multiset().len());
        assert(k.len() == alpha.len());
        assert forall|c: u8| count_in(k, c) == count_in(alpha, c) by {
            lemma_count_in_is_multiset_count(k, c);
            lemma_count_in_is_multiset_count(alpha, c);
        }
    }
    if k.len() == alpha.len() && (forall|c: u8| count_in(k, c) == count_in(alpha, c)) {
        assert forall|c: u8| k.to_multiset().count(c) == alpha.to_multiset().count(c) by {
            lemma_count_in_is_multiset_count(k, c);
            lemma_count_in_is_multiset_count(alpha, c);
            assert(count_in(k, c) == count_in(alpha, c));
        }
        assert(k.to_multiset() =~= alpha.to_multiset());
    }
}

/// Swapping two positions of a sequence preserves its symbol multiset.
pub proof fn lemma_swap_preserves_multiset(s: Seq<u8>, i: int, j: int)
    requires
        0 <= i < s.len(),
        0 <= j < s.len(),
    ensures
        s.update(i, s[j]).update(j, s[i]).to_multiset() == s.to_multiset(),
{
    broadcast use group_to_multiset_ensures;
    broadcast use group_multiset_axioms;

    if i == j {
        assert(s.update(i, s[j]).update(j, s[i]) =~= s);
    } else {
        let a = s[i];
        let b = s[j];
        let s1 = s.update(i, b);
        assert(s1[j] == b);
        assert(s1.update(j, a).to_multiset() == s1.to_multiset().insert(a).remove(b));
        assert(s1.to_multiset() == s.to_multiset().insert(b).remove(a));
        assert(s.to_multiset().count(a) > 0) by {
            assert(s.contains(a));
        }
        assert(s.to_multiset().insert(b).remove(a).insert(a).remove(b) =~= s.to_multiset());
    }
}

/// A symbol occurs in a sequence exactly when its count is positive.
pub proof fn lemma_count_positive_iff_contains(s: Seq<u8>, c: u8)
    ensures
        count_in(s, c) > 0 <==> s.contains(c),
{
    broadcast use group_to_multiset_ensures;
    broadcast use group_multiset_axioms;

    lemma_count_in_is_multiset_count(s, c);
}

/// Replacing a middle section of a sequence by a rearrangement of that
/// section leaves the multiset of the whole sequence unchanged.
pub proof fn lemma_splice_preserves_multiset(s1: Seq<u8>, s2: Seq<u8>, lo: int, hi: int)
    requires
        0 <= lo <= hi <= s1.len(),
        s1.len() == s2.len(),
        s2.subrange(0, lo) == s1.subrange(0, lo),
        s2.subrange(hi, s2.len() as int) == s1.subrange(hi, s1.len() as int),
        s2.subrange(lo, hi).to_multiset() == s1.subrange(lo, hi).to_multiset(),
    ensures
        s2.to_multiset() == s1.to_multiset(),
{
    broadcast use group_to_multiset_ensures;
    broadcast use group_multiset_axioms;
    broadcast use vstd::seq_lib::lemma_multiset_commutative;

    assert(s1 =~= s1.subrange(0, lo) + s1.subrange(lo, hi) + s1.subrange(hi, s1.len() as int));
    assert(s2 =~= s2.subrange(0, lo) + s2.subrange(lo, hi) + s2.subrange(hi, s2.len() as int));
    assert((s1.subrange(0, lo) + s1.subrange(lo, hi) + s1.subrange(hi, s1.len() as int))
        .to_multiset() == s1.subrange(0, lo).to_multiset().add(
        s1.subrange(lo, hi).to_multiset(),
    ).add(s1.subrange(hi, s1.len() as int).to_multiset()));
    assert((s2.subrange(0, lo) + s2.subrange(lo, hi) + s2.subrange(hi, s2.len() as int))
        .to_multiset() == s2.subrange(0, lo).to_multiset().add(
        s2.subrange(lo, hi).to_multiset(),
    ).add(s2.subrange(hi, s2.len() as int).to_multiset()));
}

/// Swap the bytes at positions `i` and `j` in place.
pub fn swap_bytes(v: &mut Vec<u8>, i: usize, j: usize)
    requires
        i < old(v).len(),
        j < old(v).len(),
    ensures
        final(v)@ == old(v)@.update(i as int, old(v)@[j as int]).update(j as int, old(v)@[i as int]),
        final(v)@.to_multiset() == old(v)@.to_multiset(),
        final(v)@.len() == old(v)@.len(),
{
    proof {
        lemma_swap_preserves_multiset(v@, i as int, j as int);
    }
    let tmp: u8 = v[i];
    v[i] = v[j];
    v[j] = tmp;
}

/// Count the occurrences of `c` in `v`.
pub fn count_byte(v: &Vec<u8>, c: u8) -> (n: usize)
    ensures
        n == count_in(v@, c),
{
    let mut n: usize = 0;
    let mut i: usize = 0;
    proof {
        lemma_count_le_len(v@.subrange(0, 0), c);
    }
    while i < v.len()
        invariant
            i <= v@.len(),
            n == count_in(v@.subrange(0, i as int), c),
            n <= i,
        decreases v@.len() - i,
    {
        proof {
            assert(v@.subrange(0, i + 1).drop_last() =~= v@.subrange(0, i as int));
            assert(v@.subrange(0, i + 1).last() == v@[i as int]);
        }
        if v[i] == c {
            n = n + 1;
        }
        i = i + 1;
    }
    proof {
        assert(v@.subrange(0, v@.len() as int) =~= v@);
    }
    n
}

/// A sequence holds no more copies of a symbol than it has elements.
pub proof fn lemma_count_le_len(s: Seq<u8>, c: u8)
    ensures
        count_in(s, c) <= s.len(),
    decreases s.len(),
{
    if s.len() > 0 {
        lemma_count_le_len(s.drop_last(), c);
    }
}

/// Decide whether `v` is a rearrangement of `alpha`.
pub fn permutation_check(v: &Vec<u8>, alpha: &Vec<u8>) -> (b: bool)
    ensures
        b == permutation_of(v@, alpha@),
{
    proof {
        lemma_permutation_by_counts(v@, alpha@);
    }
    if v.len() != alpha.len() {
        return false;
    }
    let mut c: u16 = 0;
    while c < 256
        invariant
            c <= 256,
            v@.len() == alpha@.len(),
            forall|d: u8| d < c ==> count_in(v@, d) == count_in(alpha@, d),
        decreases 256 - c,
    {
        let cb: u8 = c as u8;
        if count_byte(v, cb) != count_byte(alpha, cb) {
            proof {
                lemma_permutation_by_counts(v@, alpha@);
            }
            return false;
        }
        c = c + 1;
    }
    assert forall|d: u8| count_in(v@, d) == count_in(alpha@, d) by {
        assert(d < 256);
    }
    proof {
        lemma_permutation_by_counts(v@, alpha@);
    }
    true
}

} // verus!
