//! Shell sort: gapped insertion passes with a halving gap.  The final
//! pass has gap 1 and is a plain insertion sort, which is what makes
//! the result sorted; the earlier passes only move elements around.

use crate::sorting::{sorted, swap_at};
use vstd::prelude::*;

verus! {

/// The first `n` elements are in non-decreasing order.
spec fn sorted_prefix(s: Seq<u64>, n: int) -> bool {
    forall|a: int, b: int| 0 <= a < b < n ==> s[a] <= s[b]
}

/// The first `n` elements are in order except that position `j` may
/// still be too small for its predecessors.
spec fn sorted_prefix_except(s: Seq<u64>, n: int, j: int) -> bool {
    forall|a: int, b: int| 0 <= a < b < n && b != j ==> s[a] <= s[b]
}

/// The element at `j` is below everything after it up to `n`.
spec fn hole_below_suffix(s: Seq<u64>, n: int, j: int) -> bool {
    forall|b: int| j < b < n ==> s[j] <= s[b]
}

/// One insertion pass with gap `step`: every element walks back in
/// strides of `step` past larger elements.  With gap 1 this is
/// insertion sort and leaves the vector sorted.
fn gap_insertion_pass(list: &mut Vec<u64>, step: usize)
    requires
        step >= 1,
    ensures
        final(list)@.len() == old(list)@.len(),
        final(list)@.to_multiset() == old(list)@.to_multiset(),
        step == 1 ==> sorted(final(list)@),
{
    let len = list.len();
    let mut i = step;
    while i < len
        invariant
            step >= 1,
            step <= i,
            list@.len() == len,
            list@.to_multiset() == old(list)@.to_multiset(),
            step == 1 ==> sorted_prefix(list@, i as int),
        decreases len - i,
    {
        let mut j = i;
        while j >= step && list[j] < list[j - step]
            invariant
                step >= 1,
                j <= i < len,
                list@.len() == len,
                list@.to_multiset() == old(list)@.to_multiset(),
                step == 1 ==> sorted_prefix_except(list@, i as int + 1, j as int),
                step == 1 ==> hole_below_suffix(list@, i as int + 1, j as int),
            decreases j,
        {
            let ghost pre = list@;
            swap_at(list, j, j - step);
            proof {
                if step == 1 {
                    let jj = j as int;
                    assert forall|a: int, b: int|
                        0 <= a < b < i as int + 1 && b != jj - 1 implies list@[a] <= list@[b] by {
                        if b == jj {
                            if a < jj - 1 {
                                assert(pre[a] <= pre[jj - 1]);
                            }
                        } else if a == jj - 1 {
                            assert(list@[a] == pre[jj]);
                            assert(pre[jj] <= pre[b]);
                        } else if a == jj {
                            assert(list@[a] == pre[jj - 1]);
                            assert(pre[jj - 1] <= pre[b]);
                        }
                    }
                    assert forall|b: int| jj - 1 < b < i as int + 1 implies list@[jj - 1] <= (
                    #[trigger] list@[b]) by {
                        if b == jj {
                            assert(list@[jj] == pre[jj - 1]);
                        } else {
                            assert(pre[jj] <= pre[b]);
                        }
                    }
                }
            }
            j -= step;
        }
        proof {
            if step == 1 {
                let jj = j as int;
                assert forall|a: int, b: int| 0 <= a < b < i as int + 1 implies list@[a]
                    <= list@[b] by {
                    if b == jj {
                        if jj >= 1 {
                            assert(list@[jj] >= list@[jj - 1]);
                            if a < jj - 1 {
                                assert(list@[a] <= list@[jj - 1]);
                            }
                        }
                    }
                }
            }
        }
        i += 1;
    }
    proof {
        if step == 1 && len >= 1 {
            assert(sorted_prefix(list@, len as int));
        }
    }
}

/// Sort in place by repeatedly halving the gap; the last pass, with
/// gap 1, produces a sorted vector holding the same elements.
pub fn shell_sort(list: &mut Vec<u64>)
    ensures
        sorted(final(list)@),
        final(list)@.to_multiset() == old(list)@.to_multiset(),
        final(list)@.len() == old(list)@.len(),
{
    let len = list.len();
    let mut step = len;
    while step > 1
        invariant
            list@.len() == len,
            list@.to_multiset() == old(list)@.to_multiset(),
            step <= len,
            len >= 2 ==> step >= 1,
            step == 1 ==> sorted(list@),
        decreases step,
    {
        step = step / 2;
        gap_insertion_pass(list, step);
    }
}

} // verus!
