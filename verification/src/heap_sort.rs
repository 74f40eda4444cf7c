//! Heap sort: drain the input into a binary min-heap kept in a
//! vector, then pop the minimum repeatedly to rebuild the input in
//! non-decreasing order.

use crate::sorting::{sorted, swap_at};
use vstd::prelude::*;

verus! {

/// The min-heap property over the implicit binary tree in `s`: every
/// node is at least its parent.
spec fn is_heap(s: Seq<u64>) -> bool {
    forall|i: int| 1 <= i < s.len() ==> s[(i - 1) / 2] <= #[trigger] s[i]
}

/// The heap property everywhere except that node `j` may be smaller
/// than its parent (sift-up) or larger than its children (sift-down).
spec fn heap_except(s: Seq<u64>, j: int) -> bool {
    forall|i: int| 1 <= i < s.len() && i != j && (i - 1) / 2 != j ==> s[(i - 1) / 2] <= #[trigger] s[i]
}

/// Node `j`'s parent already bounds `j`'s children, so `j` may be
/// exchanged with any of them.
spec fn parent_bounds_children(s: Seq<u64>, j: int) -> bool {
    j > 0 ==> forall|c: int|
        1 <= c < s.len() && (c - 1) / 2 == j ==> s[(j - 1) / 2] <= #[trigger] s[c]
}

/// In a sift-up state the parent of `j` still bounds every other node
/// whose parent is `j` or whose own parent relation is intact; used
/// while the new node walks towards the root.
spec fn heap_except_up(s: Seq<u64>, j: int) -> bool {
    forall|i: int| 1 <= i < s.len() && i != j ==> s[(i - 1) / 2] <= #[trigger] s[i]
}

/// The root of a heap is its minimum.
proof fn lemma_heap_root_min(s: Seq<u64>, i: int)
    requires
        is_heap(s),
        0 <= i < s.len(),
    ensures
        s[0] <= s[i],
    decreases i,
{
    if i > 0 {
        lemma_heap_root_min(s, (i - 1) / 2);
    }
}

/// Append `data` and sift it up until its parent is no larger.
fn insert_end(q: &mut Vec<u64>, data: u64)
    requires
        is_heap(old(q)@),
        old(q)@.len() < usize::MAX,
    ensures
        is_heap(final(q)@),
        final(q)@.to_multiset() == old(q)@.to_multiset().insert(data),
        final(q)@.len() == old(q)@.len() + 1,
{
    proof {
        broadcast use vstd::seq_lib::group_to_multiset_ensures;

    }
    q.push(data);
    let mut new_idx = q.len() - 1;
    proof {
        assert forall|i: int| 1 <= i < q@.len() && i != new_idx implies q@[(i - 1) / 2] <= (
        #[trigger] q@[i]) by {
            assert((i - 1) / 2 < i);
        }
    }
    while new_idx > 0 && q[new_idx] < q[(new_idx - 1) / 2]
        invariant
            new_idx < q@.len(),
            q@.len() == old(q)@.len() + 1,
            q@.to_multiset() == old(q)@.to_multiset().insert(data),
            heap_except_up(q@, new_idx as int),
            parent_bounds_children(q@, new_idx as int),
        decreases new_idx,
    {
        let parent = (new_idx - 1) / 2;
        let ghost pre = q@;
        let ghost j = new_idx as int;
        let ghost p = parent as int;
        swap_at(q, new_idx, parent);
        proof {
            assert forall|i: int| 1 <= i < q@.len() && i != p implies q@[(i - 1) / 2] <= (
            #[trigger] q@[i]) by {
                if i == j {
                    assert(q@[j] == pre[p] && q@[p] == pre[j]);
                } else if (i - 1) / 2 == j {
                    assert(q@[i] == pre[i] && q@[j] == pre[p]);
                    assert(pre[(j - 1) / 2] <= pre[i]);
                } else if (i - 1) / 2 == p {
                    assert(q@[i] == pre[i] && q@[p] == pre[j]);
                    assert(pre[p] <= pre[i] && pre[j] < pre[p]);
                } else {
                    assert(q@[i] == pre[i] && q@[(i - 1) / 2] == pre[(i - 1) / 2]);
                }
            }
            assert(parent_bounds_children(q@, p)) by {
                if p > 0 {
                    assert forall|c: int| 1 <= c < q@.len() && (c - 1) / 2 == p implies q@[(p - 1)
                        / 2] <= #[trigger] q@[c] by {
                        assert((p - 1) / 2 < p < j);
                        assert(q@[(p - 1) / 2] == pre[(p - 1) / 2]);
                        assert(pre[(p - 1) / 2] <= pre[p]);
                        if c == j {
                            assert(q@[c] == pre[p]);
                        } else {
                            assert(q@[c] == pre[c]);
                            assert(pre[p] <= pre[c]);
                        }
                    }
                }
            }
        }
        new_idx = parent;
    }
    proof {
        assert forall|i: int| 1 <= i < q@.len() implies q@[(i - 1) / 2] <= #[trigger] q@[i] by {
            if i != new_idx as int {
            } else {
                assert(new_idx > 0);
            }
        }
    }
}

/// Remove and return the minimum: the last element moves to the root
/// and sifts down past its smaller children.
#[verifier::rlimit(50)]
fn delete_top(q: &mut Vec<u64>) -> (r: Option<u64>)
    requires
        is_heap(old(q)@),
    ensures
        old(q)@.len() == 0 ==> r is None && final(q)@ == old(q)@,
        old(q)@.len() > 0 ==> {
            &&& r == Some(old(q)@[0])
            &&& final(q)@.to_multiset() == old(q)@.to_multiset().remove(old(q)@[0])
            &&& final(q)@.len() == old(q)@.len() - 1
            &&& is_heap(final(q)@)
            &&& forall|i: int| 0 <= i < final(q)@.len() ==> old(q)@[0] <= #[trigger] final(q)@[i]
        },
{
    proof {
        broadcast use vstd::seq_lib::group_to_multiset_ensures;

    }
    if q.len() == 0 {
        return None;
    }
    let ghost orig = q@;
    let len = q.len() - 1;
    swap_at(q, 0, len);
    let ghost swapped = q@;
    let top = q.pop();
    proof {
        assert(swapped =~= q@.push(orig[0]));
        assert(swapped.to_multiset() == q@.to_multiset().insert(orig[0]));
        assert(q@.to_multiset() =~= orig.to_multiset().remove(orig[0]));
        assert forall|i: int| 0 <= i < q@.len() implies orig[0] <= #[trigger] q@[i] by {
            if i == 0 {
                lemma_heap_root_min(orig, len as int);
            } else {
                lemma_heap_root_min(orig, i);
            }
        }
        assert forall|i: int| 1 <= i < q@.len() && (i - 1) / 2 != 0 implies q@[(i - 1) / 2] <= (
        #[trigger] q@[i]) by {
            assert(q@[i] == orig[i] && q@[(i - 1) / 2] == orig[(i - 1) / 2]);
        }
    }
    let mut idx: usize = 0;
    let mut cont = true;
    while cont
        invariant
            q@.len() == len,
            len > 0 ==> idx < len,
            len == 0 ==> idx == 0,
            q@.to_multiset() == orig.to_multiset().remove(orig[0]),
            forall|i: int| 0 <= i < q@.len() ==> orig[0] <= #[trigger] q@[i],
            cont ==> heap_except(q@, idx as int) && parent_bounds_children(q@, idx as int),
            cont && idx > 0 ==> q@[(idx as int - 1) / 2] <= q@[idx as int],
            !cont ==> is_heap(q@),
        decreases len - idx, (if cont {
            1int
        } else {
            0int
        }),
    {
        if idx < len / 2 {
            let left = idx * 2 + 1;
            let right = left + 1;
            let ghost pre = q@;
            let ghost j = idx as int;
            if right < len && q[right] < q[left] && q[right] < q[idx] {
                swap_at(q, idx, right);
                proof {
                    lemma_sift_down_step(pre, q@, j, right as int);
                    assert(q@[j] == pre[right as int] && q@[right as int] == pre[j]);
                }
                idx = right;
            } else if q[left] < q[idx] {
                swap_at(q, idx, left);
                proof {
                    assert(2 * j + 2 < pre.len() ==> pre[left as int] <= pre[2 * j + 2]);
                    lemma_sift_down_step(pre, q@, j, left as int);
                    assert(q@[j] == pre[left as int] && q@[left as int] == pre[j]);
                }
                idx = left;
            } else {
                cont = false;
                proof {
                    assert forall|i: int| 1 <= i < q@.len() implies q@[(i - 1) / 2] <= (
                    #[trigger] q@[i]) by {
                        if i == j {
                            assert(q@[(j - 1) / 2] <= q@[j]);
                        } else if (i - 1) / 2 == j {
                            assert(i == left as int || i == right as int);
                            if i == left as int {
                                assert(q@[i] >= q@[j]);
                            } else {
                                assert(right < len);
                                if q@[i] < q@[left as int] {
                                    assert(q@[i] >= q@[j]);
                                } else {
                                    assert(q@[i] >= q@[left as int] && q@[left as int] >= q@[j]);
                                }
                            }
                        }
                    }
                }
            }
        } else {
            cont = false;
            proof {
                assert forall|i: int| 1 <= i < q@.len() implies q@[(i - 1) / 2] <= (
                #[trigger] q@[i]) by {
                    if i == idx as int {
                        assert(q@[(i - 1) / 2] <= q@[i]);
                    } else if (i - 1) / 2 == idx as int {
                        assert(i >= 2 * (idx as int) + 1);
                        assert(idx as int >= len as int / 2);
                    }
                }
            }
        }
    }
    top
}

/// One sift-down exchange: the node at `j` swaps with its smaller
/// child `c`, moving the hole down while the rest stays a heap.
proof fn lemma_sift_down_step(pre: Seq<u64>, post: Seq<u64>, j: int, c: int)
    requires
        heap_except(pre, j),
        parent_bounds_children(pre, j),
        0 <= j < c < pre.len(),
        (c - 1) / 2 == j,
        pre[c] < pre[j],
        c == 2 * j + 1 || c == 2 * j + 2,
        c == 2 * j + 2 ==> 2 * j + 1 < pre.len() && pre[c] < pre[2 * j + 1],
        c == 2 * j + 1 && 2 * j + 2 < pre.len() ==> pre[c] <= pre[2 * j + 2],
        post == pre.update(j, pre[c]).update(c, pre[j]),
    ensures
        heap_except(post, c),
        parent_bounds_children(post, c),
{
    assert forall|i: int| 1 <= i < post.len() && i != c && (i - 1) / 2 != c implies post[(i - 1)
        / 2] <= #[trigger] post[i] by {
        if i == j {
            if j > 0 {
                assert(post[j] == pre[c] && post[(j - 1) / 2] == pre[(j - 1) / 2]);
                assert(pre[(j - 1) / 2] <= pre[c]);
            }
        } else if (i - 1) / 2 == j {
            assert(i == 2 * j + 1 || i == 2 * j + 2);
            assert(post[j] == pre[c] && post[i] == pre[i]);
            if i == 2 * j + 1 {
                assert(c == 2 * j + 2);
                assert(pre[c] < pre[i]);
            } else {
                assert(c == 2 * j + 1);
                assert(pre[c] <= pre[i]);
            }
        } else {
            assert(post[i] == pre[i] && post[(i - 1) / 2] == pre[(i - 1) / 2]);
        }
    }
    assert(parent_bounds_children(post, c)) by {
        assert forall|d: int| 1 <= d < post.len() && (d - 1) / 2 == c implies post[(c - 1) / 2]
            <= #[trigger] post[d] by {
            assert(post[j] == pre[c]);
            assert(d != j && d != c);
            assert(post[d] == pre[d]);
            assert((d - 1) / 2 == c && c != j ==> d > c);
            assert(pre[(d - 1) / 2] <= pre[d]);
            assert(pre[c] <= pre[d]);
        }
    }
}

/// Sort by moving everything through a min-heap: drain the input into
/// the heap, then pop minima back in order.
pub fn heap_sort(list: &mut Vec<u64>)
    ensures
        sorted(final(list)@),
        final(list)@.to_multiset() == old(list)@.to_multiset(),
        final(list)@.len() == old(list)@.len(),
{
    proof {
        broadcast use vstd::seq_lib::group_to_multiset_ensures;

    }
    let ghost orig = list@;
    let n0 = list.len();
    let mut q: Vec<u64> = Vec::with_capacity(n0);
    while list.len() > 0
        invariant
            is_heap(q@),
            q@.len() + list@.len() == orig.len(),
            orig.len() == n0,
            q@.to_multiset().add(list@.to_multiset()) == orig.to_multiset(),
        decreases list@.len(),
    {
        proof {
            broadcast use vstd::seq_lib::group_to_multiset_ensures;

        }
        let ghost lpre = list@;
        let data = list.pop().unwrap();
        insert_end(&mut q, data);
        proof {
            assert(lpre =~= list@.push(data));
            assert(q@.to_multiset().add(list@.to_multiset()) =~= orig.to_multiset());
        }
    }
    while q.len() > 0
        invariant
            is_heap(q@),
            sorted(list@),
            q@.len() + list@.len() == orig.len(),
            q@.to_multiset().add(list@.to_multiset()) == orig.to_multiset(),
            forall|a: int, b: int|
                0 <= a < list@.len() && 0 <= b < q@.len() ==> #[trigger] list@[a] <= #[trigger] q@[b],
        decreases q@.len(),
    {
        proof {
            broadcast use vstd::seq_lib::group_to_multiset_ensures;

        }
        let ghost qpre = q@;
        let data = delete_top(&mut q).unwrap();
        list.push(data);
        proof {
            assert(q@.to_multiset().add(list@.to_multiset()) =~= orig.to_multiset());
        }
    }
    proof {
        assert(q@.to_multiset() =~= vstd::multiset::Multiset::empty());
        assert(list@.to_multiset() =~= orig.to_multiset());
    }
}

} // verus!
