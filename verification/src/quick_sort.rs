//! Quick sort on a vector, in a recursive version and in an iterative
//! version that keeps the pending ranges on an explicit stack.

use crate::sorting::{
    lemma_frame_multiset, lemma_perm_element, lemma_swap_subrange_multiset, sorted, swap_at,
};
use vstd::prelude::*;

verus! {

/// The slice `[lo, hi)` of `s` is in non-decreasing order.
spec fn sorted_range(s: Seq<u64>, lo: int, hi: int) -> bool {
    forall|a: int, b: int| lo <= a < b < hi ==> s[a] <= s[b]
}

/// Split `[lo, hi)` around its first element: afterwards some position
/// `p` holds that pivot, everything left of it in the range is
/// strictly smaller, everything right of it is at least as large.
/// Ranges of fewer than two elements are left alone.
fn partition(list: &mut Vec<u64>, lo: usize, hi: usize) -> (r: Option<usize>)
    requires
        lo <= hi,
        hi <= old(list)@.len(),
    ensures
        final(list)@.len() == old(list)@.len(),
        forall|x: int|
            0 <= x < old(list)@.len() && !(lo <= x < hi) ==> final(list)@[x] == old(list)@[x],
        final(list)@.subrange(lo as int, hi as int).to_multiset() == old(list)@.subrange(
            lo as int,
            hi as int,
        ).to_multiset(),
        hi - lo <= 1 ==> r is None && final(list)@ == old(list)@,
        hi - lo >= 2 ==> r is Some,
        r is Some ==> lo <= r->Some_0 < hi && (forall|x: int|
            lo <= x < r->Some_0 ==> #[trigger] final(list)@[x] < final(list)@[r->Some_0 as int])
            && (forall|x: int|
            r->Some_0 < x < hi ==> #[trigger] final(list)@[x] >= final(list)@[r->Some_0 as int]),
{
    if hi - lo <= 1 {
        return None;
    }
    let mut i = lo + 1;
    let mut j = hi - 1;
    while i < j
        invariant
            lo + 1 <= i <= j <= hi - 1,
            hi <= list@.len(),
            list@.len() == old(list)@.len(),
            forall|x: int|
                0 <= x < list@.len() && !(lo <= x < hi) ==> list@[x] == old(list)@[x],
            list@.subrange(lo as int, hi as int).to_multiset() == old(list)@.subrange(
                lo as int,
                hi as int,
            ).to_multiset(),
            list@[lo as int] == old(list)@[lo as int],
            forall|x: int| lo < x < i ==> list@[x] < list@[lo as int],
            forall|x: int| j < x < hi ==> list@[x] >= list@[lo as int],
        decreases j - i,
    {
        if list[i] < list[lo] {
            i += 1;
        } else if list[j] >= list[lo] {
            j -= 1;
        } else {
            let ghost pre = list@;
            swap_at(list, i, j);
            proof {
                lemma_swap_subrange_multiset(pre, lo as int, hi as int, i as int, j as int);
            }
            i += 1;
        }
    }
    let p = if list[j] >= list[lo] {
        j - 1
    } else {
        j
    };
    let ghost pre = list@;
    swap_at(list, lo, p);
    proof {
        lemma_swap_subrange_multiset(pre, lo as int, hi as int, lo as int, p as int);
        assert forall|x: int| lo <= x < p implies list@[x] < list@[p as int] by {
            if x == lo {
                assert(list@[x] == pre[p as int]);
            } else {
                assert(list@[x] == pre[x]);
            }
        }
        assert forall|x: int| p < x < hi implies list@[x] >= list@[p as int] by {
            assert(list@[x] == pre[x]);
        }
    }
    Some(p)
}

/// Sort the slice `[lo, hi)` in place; nothing outside it moves.
fn quick_sort_range(list: &mut Vec<u64>, lo: usize, hi: usize)
    requires
        lo <= hi,
        hi <= old(list)@.len(),
    ensures
        final(list)@.len() == old(list)@.len(),
        forall|x: int|
            0 <= x < old(list)@.len() && !(lo <= x < hi) ==> final(list)@[x] == old(list)@[x],
        final(list)@.subrange(lo as int, hi as int).to_multiset() == old(list)@.subrange(
            lo as int,
            hi as int,
        ).to_multiset(),
        sorted_range(final(list)@, lo as int, hi as int),
    decreases hi - lo,
{
    let r = partition(list, lo, hi);
    match r {
        None => {},
        Some(p) => {
            let ghost mid1 = list@;
            quick_sort_range(list, lo, p);
            let ghost mid2 = list@;
            quick_sort_range(list, p + 1, hi);
            let ghost fin = list@;
            proof {
                let pl = p as int;
                let lou = lo as int;
                let hiu = hi as int;
                let pivot = mid1[pl];
                assert(mid2[pl] == pivot);
                assert(fin[pl] == pivot);
                assert(fin.subrange(lou, pl) =~= mid2.subrange(lou, pl));
                assert forall|x: int| lou <= x < pl implies fin[x] < pivot by {
                    let y = lemma_perm_element(mid1, mid2, lou, pl, x);
                    assert(mid1[y] < pivot);
                }
                assert forall|x: int| pl < x < hiu implies fin[x] >= pivot by {
                    let y = lemma_perm_element(mid2, fin, pl + 1, hiu, x);
                    assert(mid2[y] == mid1[y]);
                    assert(mid1[y] >= pivot);
                }
                assert forall|a: int, b: int| lou <= a < b < hiu implies fin[a] <= fin[b] by {
                    if b < pl {
                        assert(fin[a] == mid2[a] && fin[b] == mid2[b]);
                    } else if a < pl && b == pl {
                        assert(fin[a] < pivot);
                    } else if a < pl && b > pl {
                        assert(fin[a] < pivot && fin[b] >= pivot);
                    } else if a == pl {
                        assert(fin[b] >= pivot);
                    }
                }
                assert(fin.subrange(lou, hiu).to_multiset() == mid1.subrange(
                    lou,
                    hiu,
                ).to_multiset()) by {
                    assert(mid2.subrange(lou, hiu).to_multiset() == mid1.subrange(
                        lou,
                        hiu,
                    ).to_multiset()) by {
                        assert(mid2.subrange(lou, hiu).subrange(0, pl - lou) =~= mid2.subrange(
                            lou,
                            pl,
                        ));
                        assert(mid1.subrange(lou, hiu).subrange(0, pl - lou) =~= mid1.subrange(
                            lou,
                            pl,
                        ));
                        lemma_frame_multiset(
                            mid2.subrange(lou, hiu),
                            mid1.subrange(lou, hiu),
                            0,
                            pl - lou,
                        );
                    }
                    assert(fin.subrange(lou, hiu).subrange(pl + 1 - lou, hiu - lou)
                        =~= fin.subrange(pl + 1, hiu));
                    assert(mid2.subrange(lou, hiu).subrange(pl + 1 - lou, hiu - lou)
                        =~= mid2.subrange(pl + 1, hiu));
                    lemma_frame_multiset(
                        fin.subrange(lou, hiu),
                        mid2.subrange(lou, hiu),
                        pl + 1 - lou,
                        hiu - lou,
                    );
                }
            }
        },
    }
}

/// Position `x` lies inside the half-open range `r`.
spec fn in_rg(r: (usize, usize), x: int) -> bool {
    r.0 <= x < r.1
}

/// Some pending range holds both positions.
spec fn covered(st: Seq<(usize, usize)>, a: int, b: int) -> bool {
    exists|i: int| 0 <= i < st.len() && in_rg(#[trigger] st[i], a) && in_rg(st[i], b)
}

/// Pending ranges lie within the vector and do not overlap.
spec fn ranges_ok(st: Seq<(usize, usize)>, n: nat) -> bool {
    &&& forall|i: int| 0 <= i < st.len() ==> (#[trigger] st[i]).0 <= st[i].1 && st[i].1 <= n
    &&& forall|i: int, j: int|
        0 <= i < j < st.len() ==> (#[trigger] st[i]).1 <= (#[trigger] st[j]).0 || st[j].1
            <= st[i].0
}

/// Positions that share no pending range are already in order.
spec fn outside_sorted(s: Seq<u64>, st: Seq<(usize, usize)>) -> bool {
    forall|a: int, b: int| 0 <= a < b < s.len() && !covered(st, a, b) ==> s[a] <= s[b]
}

/// Total width of the pending ranges.
spec fn size_sum(st: Seq<(usize, usize)>) -> nat
    decreases st.len(),
{
    if st.len() == 0 {
        0
    } else {
        size_sum(st.drop_last()) + (if st.last().0 <= st.last().1 {
            (st.last().1 - st.last().0) as nat
        } else {
            0
        })
    }
}

/// Iterative quick sort: instead of recursing, the two halves left by
/// each partition wait on an explicit stack of ranges.
pub fn quick_sort_no_recursion(list: &mut Vec<u64>)
    ensures
        sorted(final(list)@),
        final(list)@.to_multiset() == old(list)@.to_multiset(),
        final(list)@.len() == old(list)@.len(),
{
    let n = list.len();
    let mut stack: Vec<(usize, usize)> = Vec::new();
    stack.push((0, n));
    proof {
        assert forall|a: int, b: int| 0 <= a < b < n implies covered(stack@, a, b) by {
            assert(in_rg(stack@[0], a) && in_rg(stack@[0], b));
        }
    }
    while stack.len() > 0
        invariant
            list@.len() == n,
            list@.to_multiset() == old(list)@.to_multiset(),
            ranges_ok(stack@, n as nat),
            outside_sorted(list@, stack@),
        decreases size_sum(stack@), stack@.len(),
    {
        let ghost st0 = stack@;
        let ghost l0 = list@;
        let rg = stack.pop().unwrap();
        let start = rg.0;
        let end = rg.1;
        proof {
            assert(stack@ =~= st0.drop_last());
            assert(rg == st0.last());
        }
        let r = partition(list, start, end);
        let ghost l1 = list@;
        let ghost rest = st0.drop_last();
        proof {
            lemma_frame_multiset(l1, l0, start as int, end as int);
        }
        match r {
            Some(p) => {
                stack.push((start, p));
                stack.push((p + 1, end));
                proof {
                    let st2 = stack@;
                    let sa = start as int;
                    let en = end as int;
                    let pl = p as int;
                    assert(st2 =~= rest + seq![(start, p), (((p + 1) as usize), end)]);
                    assert forall|a: int, b: int|
                        0 <= a < b < n && !covered(st2, a, b) implies l1[a] <= l1[b] by {
                        lemma_step_preserves(l0, l1, st0, st2, rg, pl, a, b, n as nat);
                    }
                    assert(size_sum(st2) + 1 == size_sum(st0)) by {
                        assert(st2.drop_last() =~= rest.push((start, p)));
                        assert(st2.last() == (((p + 1) as usize), end));
                        assert(rest.push((start, p)).drop_last() =~= rest);
                        assert(rest.push((start, p)).last() == (start, p));
                        assert(size_sum(rest.push((start, p))) == size_sum(rest) + (pl - sa));
                        assert(size_sum(st2) == size_sum(rest.push((start, p))) + (en - pl - 1));
                        assert(st0.last() == rg);
                        assert(size_sum(st0) == size_sum(rest) + (en - sa));
                    }
                }
            },
            None => {
                proof {
                    assert forall|a: int, b: int|
                        0 <= a < b < n && !covered(rest, a, b) implies l1[a] <= l1[b] by {
                        if covered(st0, a, b) {
                            let i = choose|i: int|
                                0 <= i < st0.len() && in_rg(#[trigger] st0[i], a) && in_rg(
                                    st0[i],
                                    b,
                                );
                            if i < rest.len() {
                                assert(in_rg(rest[i], a) && in_rg(rest[i], b));
                                assert(covered(rest, a, b));
                            } else {
                                assert(st0[i] == rg);
                            }
                        }
                    }
                }
            },
        }
    }
    proof {
        assert forall|a: int, b: int| 0 <= a < b < list@.len() implies list@[a] <= list@[b] by {
            assert(!covered(stack@, a, b));
        }
        assert(sorted(list@));
    }
}

/// One partition step keeps every already-ordered pair ordered: pairs
/// outside the popped range are untouched, pairs straddling it were
/// ordered element-wise before, and pairs inside it are ordered by the
/// pivot unless both fell into the same pushed half.
proof fn lemma_step_preserves(
    l0: Seq<u64>,
    l1: Seq<u64>,
    st0: Seq<(usize, usize)>,
    st2: Seq<(usize, usize)>,
    rg: (usize, usize),
    pl: int,
    a: int,
    b: int,
    n: nat,
)
    requires
        l0.len() == n,
        l1.len() == n,
        st0.len() > 0,
        rg == st0.last(),
        ranges_ok(st0, n),
        outside_sorted(l0, st0),
        st2 == st0.drop_last() + seq![(rg.0, (pl as usize)), (((pl + 1) as usize), rg.1)],
        rg.0 <= pl < rg.1,
        rg.1 <= n,
        forall|x: int| 0 <= x < n && !(rg.0 <= x < rg.1) ==> l1[x] == l0[x],
        l1.subrange(rg.0 as int, rg.1 as int).to_multiset() == l0.subrange(
            rg.0 as int,
            rg.1 as int,
        ).to_multiset(),
        forall|x: int| rg.0 <= x < pl ==> #[trigger] l1[x] < l1[pl],
        forall|x: int| pl < x < rg.1 ==> #[trigger] l1[x] >= l1[pl],
        0 <= a < b < n,
        !covered(st2, a, b),
    ensures
        l1[a] <= l1[b],
{
    let rest = st0.drop_last();
    let sa = rg.0 as int;
    let en = rg.1 as int;
    let a_in = sa <= a < en;
    let b_in = sa <= b < en;
    if !a_in && !b_in {
        assert(!covered(st0, a, b)) by {
            if covered(st0, a, b) {
                let i = choose|i: int|
                    0 <= i < st0.len() && in_rg(#[trigger] st0[i], a) && in_rg(st0[i], b);
                if i < rest.len() {
                    assert(st2[i] == rest[i]);
                    assert(in_rg(st2[i], a) && in_rg(st2[i], b));
                    assert(covered(st2, a, b));
                } else {
                    assert(st0[i] == rg);
                }
            }
        }
        assert(l1[a] == l0[a] && l1[b] == l0[b]);
    } else if a_in && !b_in {
        assert(b >= en);
        let y = lemma_perm_element(l0, l1, sa, en, a);
        assert(!covered(st0, y, b)) by {
            if covered(st0, y, b) {
                let i = choose|i: int|
                    0 <= i < st0.len() && in_rg(#[trigger] st0[i], y) && in_rg(st0[i], b);
                if i < rest.len() {
                    assert((st0[i]).1 <= (st0[st0.len() - 1]).0 || (st0[st0.len() - 1]).1 <= (
                    st0[i]).0);
                } else {
                    assert(st0[i] == rg);
                }
            }
        }
        assert(y < b);
        assert(l0[y] <= l0[b]);
        assert(l1[b] == l0[b]);
    } else if !a_in && b_in {
        assert(a < sa);
        let y = lemma_perm_element(l0, l1, sa, en, b);
        assert(!covered(st0, a, y)) by {
            if covered(st0, a, y) {
                let i = choose|i: int|
                    0 <= i < st0.len() && in_rg(#[trigger] st0[i], a) && in_rg(st0[i], y);
                if i < rest.len() {
                    assert((st0[i]).1 <= (st0[st0.len() - 1]).0 || (st0[st0.len() - 1]).1 <= (
                    st0[i]).0);
                } else {
                    assert(st0[i] == rg);
                }
            }
        }
        assert(a < y);
        assert(l0[a] <= l0[y]);
        assert(l1[a] == l0[a]);
    } else {
        if a < pl && b < pl {
            let i = rest.len() as int;
            assert(st2[i] == (rg.0, pl as usize));
            assert(in_rg(st2[i], a) && in_rg(st2[i], b));
            assert(covered(st2, a, b));
        } else if a > pl {
            let i = rest.len() as int + 1;
            assert(st2[i] == (((pl + 1) as usize), rg.1));
            assert(in_rg(st2[i], a) && in_rg(st2[i], b));
            assert(covered(st2, a, b));
        } else if a < pl {
            assert(l1[a] < l1[pl]);
            if b == pl {
            } else {
                assert(l1[b] >= l1[pl]);
            }
        } else {
            assert(a == pl);
            assert(l1[b] >= l1[pl]);
        }
    }
}

/// Sort the whole vector in place.
pub fn quick_sort(list: &mut Vec<u64>)
    ensures
        sorted(final(list)@),
        final(list)@.to_multiset() == old(list)@.to_multiset(),
        final(list)@.len() == old(list)@.len(),
{
    let n = list.len();
    quick_sort_range(list, 0, n);
    proof {
        assert(final(list)@.subrange(0, n as int) =~= final(list)@);
        assert(old(list)@.subrange(0, n as int) =~= old(list)@);
    }
}

} // verus!
