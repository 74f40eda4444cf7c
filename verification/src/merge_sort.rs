//! Merge sort on double-ended queues, in a recursive version and in a
//! bottom-up iterative version that merges blocks of doubling width.

use crate::sorting::{lemma_head_tail_multiset, sorted};
use std::collections::VecDeque;
use vstd::prelude::*;
use vstd::seq_lib::lemma_multiset_commutative;

verus! {

/// Every element of `x` is at most every element of `y`.
spec fn all_leq(x: Seq<u64>, y: Seq<u64>) -> bool {
    forall|a: int, b: int| 0 <= a < x.len() && 0 <= b < y.len() ==> x[a] <= y[b]
}

/// Merge two sorted queues into one sorted queue.
fn merge(list1: VecDeque<u64>, list2: VecDeque<u64>) -> (r: VecDeque<u64>)
    requires
        sorted(list1@),
        sorted(list2@),
    ensures
        sorted(r@),
        r@.to_multiset() == list1@.to_multiset().add(list2@.to_multiset()),
        r@.len() == list1@.len() + list2@.len(),
{
    let mut l1 = list1;
    let mut l2 = list2;
    let mut merged: VecDeque<u64> = VecDeque::new();
    proof {
        broadcast use vstd::seq_lib::group_to_multiset_ensures;

    }
    while l1.len() > 0 && l2.len() > 0
        invariant
            sorted(l1@),
            sorted(l2@),
            sorted(merged@),
            all_leq(merged@, l1@),
            all_leq(merged@, l2@),
            merged@.to_multiset().add(l1@.to_multiset()).add(l2@.to_multiset())
                == list1@.to_multiset().add(list2@.to_multiset()),
            merged@.len() + l1@.len() + l2@.len() == list1@.len() + list2@.len(),
        decreases l1@.len() + l2@.len(),
    {
        proof {
            broadcast use vstd::seq_lib::group_to_multiset_ensures;

        }
        let f1 = l1[0];
        let f2 = l2[0];
        if f1 < f2 {
            let ghost pre = l1@;
            let x = l1.pop_front().unwrap();
            merged.push_back(x);
            proof {
                lemma_head_tail_multiset(pre);
                assert(merged@.to_multiset().add(l1@.to_multiset()).add(l2@.to_multiset()) =~= (
                merged@.to_multiset().remove(x)).add(l1@.to_multiset().insert(x)).add(
                    l2@.to_multiset(),
                ));
                assert forall|a: int, b: int|
                    0 <= a < merged@.len() && 0 <= b < l1@.len() implies merged@[a]
                    <= l1@[b] by {
                    assert(l1@[b] == pre[b + 1]);
                }
            }
        } else {
            let ghost pre = l2@;
            let x = l2.pop_front().unwrap();
            merged.push_back(x);
            proof {
                lemma_head_tail_multiset(pre);
                assert(merged@.to_multiset().add(l1@.to_multiset()).add(l2@.to_multiset()) =~= (
                merged@.to_multiset().remove(x)).add(l1@.to_multiset()).add(
                    l2@.to_multiset().insert(x),
                ));
                assert forall|a: int, b: int|
                    0 <= a < merged@.len() && 0 <= b < l2@.len() implies merged@[a]
                    <= l2@[b] by {
                    assert(l2@[b] == pre[b + 1]);
                }
            }
        }
    }
    let ghost m_mid = merged@;
    let ghost l1_mid = l1@;
    let ghost l2_mid = l2@;
    merged.append(&mut l1);
    merged.append(&mut l2);
    proof {
        assert(merged@ == m_mid + l1_mid + l2_mid);
        lemma_multiset_commutative(m_mid, l1_mid);
        lemma_multiset_commutative(m_mid + l1_mid, l2_mid);
        assert forall|a: int, b: int| 0 <= a < b < merged@.len() implies merged@[a]
            <= merged@[b] by {
            let m = m_mid.len() as int;
            let n1 = l1_mid.len() as int;
            if a < m {
                assert(merged@[a] == m_mid[a]);
            } else if a < m + n1 {
                assert(merged@[a] == l1_mid[a - m]);
            } else {
                assert(merged@[a] == l2_mid[a - m - n1]);
            }
            if b < m {
                assert(merged@[b] == m_mid[b]);
            } else if b < m + n1 {
                assert(merged@[b] == l1_mid[b - m]);
            } else {
                assert(merged@[b] == l2_mid[b - m - n1]);
            }
        }
    }
    merged
}

/// Recursive merge sort: split in half, sort both halves, merge.
pub fn merge_sort(list: VecDeque<u64>) -> (r: VecDeque<u64>)
    ensures
        sorted(r@),
        r@.to_multiset() == list@.to_multiset(),
        r@.len() == list@.len(),
    decreases list@.len(),
{
    if list.len() < 2 {
        return list;
    }
    let mut left = list;
    let ghost whole = left@;
    let at = left.len() / 2;
    let right = left.split_off(at);
    proof {
        assert(whole =~= left@ + right@);
        lemma_multiset_commutative(left@, right@);
    }
    let left_sorted = merge_sort(left);
    let right_sorted = merge_sort(right);
    merge(left_sorted, right_sorted)
}

/// `s` is a run of sorted blocks of width `m`; only the last block may
/// be shorter.
spec fn blocks_sorted(s: Seq<u64>, m: nat) -> bool
    decreases s.len() when m >= 1
{
    if s.len() <= m {
        sorted(s)
    } else {
        sorted(s.take(m as int)) && blocks_sorted(s.skip(m as int), m)
    }
}

/// `s` consists solely of full sorted blocks of width `m`.
spec fn full_blocks(s: Seq<u64>, m: nat) -> bool
    decreases s.len() when m >= 1
{
    if s.len() == 0 {
        true
    } else {
        s.len() >= m && sorted(s.take(m as int)) && full_blocks(s.skip(m as int), m)
    }
}

proof fn lemma_blocks_singleton(s: Seq<u64>)
    ensures
        blocks_sorted(s, 1),
    decreases s.len(),
{
    if s.len() > 1 {
        lemma_blocks_singleton(s.skip(1));
    }
}

proof fn lemma_full_blocks_sorted(s: Seq<u64>, m: nat)
    requires
        m >= 1,
        full_blocks(s, m),
    ensures
        blocks_sorted(s, m),
    decreases s.len(),
{
    if s.len() == 0 {
    } else if s.len() <= m {
        assert(s.take(m as int) =~= s);
    } else {
        lemma_full_blocks_sorted(s.skip(m as int), m);
    }
}

proof fn lemma_full_blocks_append(s: Seq<u64>, t: Seq<u64>, m: nat)
    requires
        m >= 1,
        full_blocks(s, m),
        sorted(t),
        t.len() == m,
    ensures
        full_blocks(s + t, m),
    decreases s.len(),
{
    if s.len() == 0 {
        assert(s + t =~= t);
        assert(t.take(m as int) =~= t);
        assert(t.skip(m as int) =~= Seq::<u64>::empty());
        assert(full_blocks(Seq::<u64>::empty(), m));
        assert(full_blocks(t, m));
    } else {
        assert((s + t).take(m as int) =~= s.take(m as int));
        assert((s + t).skip(m as int) =~= s.skip(m as int) + t);
        lemma_full_blocks_append(s.skip(m as int), t, m);
    }
}

proof fn lemma_blocks_append_partial(s: Seq<u64>, t: Seq<u64>, m: nat)
    requires
        m >= 1,
        full_blocks(s, m),
        sorted(t),
        t.len() <= m,
    ensures
        blocks_sorted(s + t, m),
    decreases s.len(),
{
    if s.len() == 0 {
        assert(s + t =~= t);
    } else {
        assert((s + t).len() > m || t.len() == 0) by {
            assert(s.len() >= m);
        }
        if (s + t).len() <= m {
            assert(s + t =~= s);
            lemma_full_blocks_sorted(s, m);
        } else {
            assert((s + t).take(m as int) =~= s.take(m as int));
            assert((s + t).skip(m as int) =~= s.skip(m as int) + t);
            lemma_blocks_append_partial(s.skip(m as int), t, m);
        }
    }
}

/// One bottom-up pass: adjacent sorted blocks of width `step` are
/// merged pairwise into sorted blocks of width `2 * step`.
fn merge_pass(list: VecDeque<u64>, step: usize) -> (r: VecDeque<u64>)
    requires
        step >= 1,
        blocks_sorted(list@, step as nat),
    ensures
        r@.to_multiset() == list@.to_multiset(),
        r@.len() == list@.len(),
        blocks_sorted(r@, 2 * step as nat),
{
    let mut rest = list;
    let mut acc: VecDeque<u64> = VecDeque::new();
    let ghost whole = rest@;
    proof {
        broadcast use vstd::seq_lib::group_to_multiset_ensures;

        assert(acc@.to_multiset().add(rest@.to_multiset()) =~= whole.to_multiset());
    }
    while rest.len() > 0
        invariant
            step >= 1,
            blocks_sorted(rest@, step as nat),
            blocks_sorted(acc@, 2 * step as nat),
            rest@.len() > 0 ==> full_blocks(acc@, 2 * step as nat),
            acc@.to_multiset().add(rest@.to_multiset()) == whole.to_multiset(),
            acc@.len() + rest@.len() == whole.len(),
        decreases rest@.len(),
    {
        proof {
            broadcast use vstd::seq_lib::group_to_multiset_ensures;

        }
        if rest.len() > step {
            let ghost pre = rest@;
            let mut block1 = rest;
            rest = block1.split_off(step);
            let take2 = if rest.len() < step {
                rest.len()
            } else {
                step
            };
            let mut block2 = rest;
            rest = block2.split_off(take2);
            proof {
                assert(block1@ =~= pre.take(step as int));
                assert(block2@ =~= pre.skip(step as int).take(take2 as int));
                assert(rest@ =~= pre.skip(step as int).skip(take2 as int));
                assert(sorted(block2@) && blocks_sorted(rest@, step as nat)) by {
                    let tail = pre.skip(step as int);
                    assert(blocks_sorted(tail, step as nat));
                    if tail.len() <= step {
                        assert(block2@ =~= tail);
                        assert(rest@ =~= Seq::<u64>::empty());
                    } else {
                        assert(block2@ =~= tail.take(step as int));
                    }
                }
            }
            let ghost b1 = block1@;
            let ghost b2 = block2@;
            let mut pair = merge(block1, block2);
            let ghost pv = pair@;
            let ghost acc0 = acc@;
            acc.append(&mut pair);
            proof {
                assert(acc@ == acc0 + pv);
                if b2.len() == step {
                    assert(pv.len() == 2 * step as nat);
                    lemma_full_blocks_append(acc0, pv, 2 * step as nat);
                    lemma_full_blocks_sorted(acc0 + pv, 2 * step as nat);
                } else {
                    assert(rest@ =~= Seq::<u64>::empty());
                    lemma_blocks_append_partial(acc0, pv, 2 * step as nat);
                }
                lemma_multiset_commutative(pre.take(step as int), pre.skip(step as int));
                assert(pre.take(step as int) + pre.skip(step as int) =~= pre);
                lemma_multiset_commutative(
                    pre.skip(step as int).take(take2 as int),
                    pre.skip(step as int).skip(take2 as int),
                );
                assert(pre.skip(step as int).take(take2 as int) + pre.skip(step as int).skip(
                    take2 as int,
                ) =~= pre.skip(step as int));
                lemma_multiset_commutative(acc0, pv);
                assert(acc@.to_multiset().add(rest@.to_multiset()) =~= acc0.to_multiset().add(
                    pre.to_multiset(),
                ));
            }
        } else {
            let ghost pre = rest@;
            let ghost acc0 = acc@;
            acc.append(&mut rest);
            proof {
                assert(sorted(pre));
                lemma_blocks_append_partial(acc0, pre, 2 * step as nat);
                lemma_multiset_commutative(acc0, pre);
            }
        }
    }
    proof {
        broadcast use vstd::seq_lib::group_to_multiset_ensures;

        assert(acc@.to_multiset() =~= whole.to_multiset());
    }
    acc
}

/// Iterative merge sort: starting from sorted singleton blocks, merge
/// adjacent blocks pairwise, doubling the block width each pass until
/// the whole queue is one sorted block.
pub fn merge_sort_no_recursion(list: VecDeque<u64>) -> (r: VecDeque<u64>)
    ensures
        sorted(r@),
        r@.to_multiset() == list@.to_multiset(),
        r@.len() == list@.len(),
{
    if list.len() <= 1 {
        return list;
    }
    let mut work = list;
    let ghost whole = work@;
    let mut step: usize = 1;
    proof {
        lemma_blocks_singleton(work@);
    }
    while step < work.len()
        invariant
            step >= 1,
            blocks_sorted(work@, step as nat),
            work@.to_multiset() == whole.to_multiset(),
            work@.len() == whole.len(),
        decreases work@.len() - step,
    {
        work = merge_pass(work, step);
        if step <= work.len() / 2 {
            step = step * 2;
        } else {
            proof {
                assert(work@.len() <= 2 * step as nat);
                assert(sorted(work@));
            }
            step = work.len();
        }
    }
    proof {
        assert(sorted(work@));
    }
    work
}

} // verus!
