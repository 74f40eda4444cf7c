//! Shared vocabulary for the sorting routines: what it means for a
//! sequence to be sorted, and an in-place swap on vectors that keeps
//! the multiset of elements.

use vstd::prelude::*;
use vstd::seq_lib::*;

verus! {

/// A sequence is sorted in non-decreasing order.
pub open spec fn sorted(s: Seq<u64>) -> bool {
    forall|i: int, j: int| 0 <= i < j < s.len() ==> s[i] <= s[j]
}

/// Exchange the elements at positions `i` and `j`.
pub fn swap_at(v: &mut Vec<u64>, i: usize, j: usize)
    requires
        i < old(v)@.len(),
        j < old(v)@.len(),
    ensures
        final(v)@ == old(v)@.update(i as int, old(v)@[j as int]).update(
            j as int,
            old(v)@[i as int],
        ),
        final(v)@.len() == old(v)@.len(),
        final(v)@.to_multiset() == old(v)@.to_multiset(),
{
    let a = v[i];
    let b = v[j];
    v[i] = b;
    v[j] = a;
    proof {
        lemma_swap_multiset(old(v)@, i as int, j as int);
    }
}

/// The multiset of a nonempty sequence is its tail's plus its head.
pub proof fn lemma_head_tail_multiset(s: Seq<u64>)
    requires
        s.len() > 0,
    ensures
        s.to_multiset() == s.subrange(1, s.len() as int).to_multiset().insert(s[0]),
{
    broadcast use group_to_multiset_ensures;

    let t = s.subrange(1, s.len() as int);
    assert(s =~= seq![s[0]] + t);
    lemma_multiset_commutative(seq![s[0]], t);
    assert(seq![s[0]] =~= Seq::empty().push(s[0]));
    assert(seq![s[0]].to_multiset() =~= vstd::multiset::Multiset::empty().insert(s[0]));
    assert(vstd::multiset::Multiset::empty().insert(s[0]).add(t.to_multiset())
        =~= t.to_multiset().insert(s[0]));
}

/// Swapping two positions inside `[lo, hi)` leaves the multiset of
/// that subrange unchanged.
pub proof fn lemma_swap_subrange_multiset(s: Seq<u64>, lo: int, hi: int, i: int, j: int)
    requires
        0 <= lo <= i < hi <= s.len(),
        lo <= j < hi,
    ensures
        s.update(i, s[j]).update(j, s[i]).subrange(lo, hi).to_multiset() == s.subrange(
            lo,
            hi,
        ).to_multiset(),
{
    let t = s.subrange(lo, hi);
    let s2 = s.update(i, s[j]).update(j, s[i]);
    assert(s2.subrange(lo, hi) =~= t.update(i - lo, t[j - lo]).update(j - lo, t[i - lo]));
    lemma_swap_multiset(t, i - lo, j - lo);
}

/// Two sequences agreeing outside `[lo, hi)` and holding the same
/// multiset inside it hold the same multiset overall.
pub proof fn lemma_frame_multiset(s1: Seq<u64>, s2: Seq<u64>, lo: int, hi: int)
    requires
        s1.len() == s2.len(),
        0 <= lo <= hi <= s1.len(),
        forall|x: int| 0 <= x < s1.len() && !(lo <= x < hi) ==> s1[x] == s2[x],
        s1.subrange(lo, hi).to_multiset() == s2.subrange(lo, hi).to_multiset(),
    ensures
        s1.to_multiset() == s2.to_multiset(),
{
    let n = s1.len() as int;
    assert(s1 =~= s1.subrange(0, lo) + s1.subrange(lo, hi) + s1.subrange(hi, n));
    assert(s2 =~= s2.subrange(0, lo) + s2.subrange(lo, hi) + s2.subrange(hi, n));
    assert(s1.subrange(0, lo) =~= s2.subrange(0, lo));
    assert(s1.subrange(hi, n) =~= s2.subrange(hi, n));
    lemma_multiset_commutative(s1.subrange(0, lo) + s1.subrange(lo, hi), s1.subrange(hi, n));
    lemma_multiset_commutative(s2.subrange(0, lo) + s2.subrange(lo, hi), s2.subrange(hi, n));
    lemma_multiset_commutative(s1.subrange(0, lo), s1.subrange(lo, hi));
    lemma_multiset_commutative(s2.subrange(0, lo), s2.subrange(lo, hi));
}

/// When two sequences hold the same multiset on `[lo, hi)`, the
/// element at `x` of the one occurs somewhere on the same range of the
/// other: this finds such a position.
pub proof fn lemma_perm_element(s1: Seq<u64>, s2: Seq<u64>, lo: int, hi: int, x: int) -> (y: int)
    requires
        0 <= lo <= hi <= s1.len(),
        hi <= s2.len(),
        s1.subrange(lo, hi).to_multiset() == s2.subrange(lo, hi).to_multiset(),
        lo <= x < hi,
    ensures
        lo <= y < hi,
        s2[x] == s1[y],
{
    broadcast use group_to_multiset_ensures;

    let e = s2[x];
    assert(s2.subrange(lo, hi)[x - lo] == e);
    assert(s2.subrange(lo, hi).contains(e));
    assert(s2.subrange(lo, hi).to_multiset().contains(e));
    assert(s1.subrange(lo, hi).to_multiset().contains(e));
    assert(s1.subrange(lo, hi).contains(e));
    let idx = choose|idx: int| 0 <= idx < hi - lo && s1.subrange(lo, hi)[idx] == e;
    assert(s1[lo + idx] == e);
    lo + idx
}

/// Swapping two positions of a sequence leaves its multiset unchanged.
pub proof fn lemma_swap_multiset(s: Seq<u64>, i: int, j: int)
    requires
        0 <= i < s.len(),
        0 <= j < s.len(),
    ensures
        s.update(i, s[j]).update(j, s[i]).to_multiset() == s.to_multiset(),
{
    broadcast use group_to_multiset_ensures;

    let s1 = s.update(i, s[j]);
    assert(s1.to_multiset() == s.to_multiset().insert(s[j]).remove(s[i])) by {
        to_multiset_update(s, i, s[j]);
    }
    assert(s1.update(j, s[i]).to_multiset() == s1.to_multiset().insert(s[i]).remove(s1[j])) by {
        to_multiset_update(s1, j, s[i]);
    }
    if i == j {
        assert(s.update(i, s[j]).update(j, s[i]) =~= s.update(j, s[i]));
        assert(s1[j] == s[j]);
        assert(s.to_multiset().contains(s[i]));
        assert(s.to_multiset().insert(s[j]).remove(s[i]).insert(s[i]).remove(s[j])
            =~= s.to_multiset());
    } else {
        assert(s1[j] == s[j]);
        assert(s.to_multiset().contains(s[i]));
        assert(s.to_multiset().insert(s[j]).remove(s[i]).insert(s[i]).remove(s[j])
            =~= s.to_multiset());
    }
}

} // verus!
