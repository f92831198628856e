//! Axis canonicalization: in-place sorting of (extent, stride) axis pairs
//! into descending-stride order, optionally in tandem with a second view of
//! the same rank, by repeated adjacent-pair comparison and swap.
//!
//! Each sort returns, as ghost information, the axis permutation it applied,
//! so callers can carry geometric facts across the reordering.

use vstd::prelude::*;

use crate::geom::{descending, is_perm, lemma_perm_identity, lemma_perm_swap, papply};
use crate::walk::{shape_ints, stride_ints};

verus! {

/// Strides are descending on the suffix starting at `b`.
spec fn sorted_from(st: Seq<int>, b: int) -> bool {
    forall|i: int, j: int| b <= i <= j < st.len() ==> #[trigger] st[i] >= #[trigger] st[j]
}

/// Every stride before `b` is at least every stride from `b` on.
spec fn bounded_from(st: Seq<int>, b: int) -> bool {
    forall|i: int, j: int| 0 <= i < b <= j < st.len() ==> #[trigger] st[i] >= #[trigger] st[j]
}

/// Bubble-sorts the axes of view `a` into descending-stride order, applying
/// every swap to view `b` as well so that axis `k` of the result still
/// pairs the same data in both views.
pub fn sort_axes_impl(
    adim: &mut Vec<usize>,
    astrides: &mut Vec<isize>,
    bdim: &mut Vec<usize>,
    bstrides: &mut Vec<isize>,
) -> (p: Ghost<Seq<int>>)
    requires
        old(adim)@.len() == old(astrides)@.len(),
        old(adim)@.len() == old(bdim)@.len(),
        old(adim)@.len() == old(bstrides)@.len(),
        old(adim)@.len() >= 2,
        forall|k: int| 0 <= k < old(astrides)@.len() ==> #[trigger] old(astrides)@[k] >= 0,
    ensures
        is_perm(old(adim)@.len() as int, p@),
        shape_ints(final(adim)@) == papply(p@, shape_ints(old(adim)@)),
        stride_ints(final(astrides)@) == papply(p@, stride_ints(old(astrides)@)),
        shape_ints(final(bdim)@) == papply(p@, shape_ints(old(bdim)@)),
        stride_ints(final(bstrides)@) == papply(p@, stride_ints(old(bstrides)@)),
        descending(stride_ints(final(astrides)@)),
        forall|i: int, j: int|
            0 <= i < j < p@.len() && stride_ints(final(astrides)@)[i] == stride_ints(
                final(astrides)@,
            )[j] ==> #[trigger] p@[i] < #[trigger] p@[j],
        forall|k: int| 0 <= k < final(astrides)@.len() ==> #[trigger] final(astrides)@[k] >= 0,
{
    let n = adim.len();
    let ghost oad = shape_ints(adim@);
    let ghost oas = stride_ints(astrides@);
    let ghost obd = shape_ints(bdim@);
    let ghost obs = stride_ints(bstrides@);
    let ghost mut q = Seq::new(n as nat, |k: int| k);
    proof {
        lemma_perm_identity(n as int, q);
        assert(shape_ints(adim@) =~= papply(q, oad));
        assert(stride_ints(astrides@) =~= papply(q, oas));
        assert(shape_ints(bdim@) =~= papply(q, obd));
        assert(stride_ints(bstrides@) =~= papply(q, obs));
    }
    let mut pass: usize = 0;
    while pass < n
        invariant
            0 <= pass <= n,
            2 <= n,
            n == adim@.len() == astrides@.len() == bdim@.len() == bstrides@.len(),
            oad.len() == n && oas.len() == n && obd.len() == n && obs.len() == n,
            is_perm(n as int, q),
            shape_ints(adim@) == papply(q, oad),
            stride_ints(astrides@) == papply(q, oas),
            shape_ints(bdim@) == papply(q, obd),
            stride_ints(bstrides@) == papply(q, obs),
            forall|k: int| 0 <= k < n ==> #[trigger] oas[k] >= 0,
            forall|k: int| 0 <= k < n ==> #[trigger] astrides@[k] >= 0,
            sorted_from(stride_ints(astrides@), n - pass),
            bounded_from(stride_ints(astrides@), n - pass),
            forall|a2: int, b2: int|
                0 <= a2 < b2 < n && #[trigger] q[a2] > #[trigger] q[b2] ==> stride_ints(
                    astrides@,
                )[a2] > stride_ints(astrides@)[b2],
        decreases n - pass,
    {
        let ghost b = n - pass;
        let mut i: usize = 0;
        while i < n - 1
            invariant
                0 <= i <= n - 1,
                2 <= n,
                1 <= b <= n,
                n == adim@.len() == astrides@.len() == bdim@.len() == bstrides@.len(),
                oad.len() == n && oas.len() == n && obd.len() == n && obs.len() == n,
                is_perm(n as int, q),
                shape_ints(adim@) == papply(q, oad),
                stride_ints(astrides@) == papply(q, oas),
                shape_ints(bdim@) == papply(q, obd),
                stride_ints(bstrides@) == papply(q, obs),
                forall|k: int| 0 <= k < n ==> #[trigger] oas[k] >= 0,
                forall|k: int| 0 <= k < n ==> #[trigger] astrides@[k] >= 0,
                sorted_from(stride_ints(astrides@), b),
                bounded_from(stride_ints(astrides@), b),
                forall|k: int|
                    0 <= k <= i ==> #[trigger] stride_ints(astrides@)[k] >= stride_ints(
                        astrides@,
                    )[i as int],
                i >= b - 1 ==> sorted_from(stride_ints(astrides@), b - 1),
                i >= b - 1 ==> bounded_from(stride_ints(astrides@), b - 1),
                forall|a2: int, b2: int|
                    0 <= a2 < b2 < n && #[trigger] q[a2] > #[trigger] q[b2] ==> stride_ints(
                        astrides@,
                    )[a2] > stride_ints(astrides@)[b2],
            decreases n - 1 - i,
        {
            let ghost sts = stride_ints(astrides@);
            let ghost pad = adim@;
            let ghost pas = astrides@;
            let ghost pbd = bdim@;
            let ghost pbs = bstrides@;
            let ghost qpre = q;
            if astrides[i] < astrides[i + 1] {
                proof {
                    assert(sts[i as int] == astrides@[i as int] as int);
                    assert(sts[i as int + 1] == astrides@[i as int + 1] as int);
                    // the sorted suffix and its boundary admit no inversion
                    if i as int >= b - 1 {
                        if i as int == b - 1 {
                            assert(sts[i as int] >= sts[i as int + 1]);
                        } else {
                            assert(sts[i as int] >= sts[i as int + 1]);
                        }
                        assert(false);
                    }
                }
                let ta = adim[i];
                adim.set(i, adim[i + 1]);
                adim.set(i + 1, ta);
                let tb = astrides[i];
                astrides.set(i, astrides[i + 1]);
                astrides.set(i + 1, tb);
                let tc = bdim[i];
                bdim.set(i, bdim[i + 1]);
                bdim.set(i + 1, tc);
                let td = bstrides[i];
                bstrides.set(i, bstrides[i + 1]);
                bstrides.set(i + 1, td);
                proof {
                    let q2 = q.update(i as int, q[i as int + 1]).update(i as int + 1, q[i as int]);
                    lemma_perm_swap(n as int, q, i as int, i as int + 1);
                    assert(adim@ == pad.update(i as int, pad[i as int + 1]).update(
                        i as int + 1,
                        pad[i as int],
                    ));
                    assert forall|k: int|
                        #![trigger shape_ints(adim@)[k]]
                        #![trigger stride_ints(astrides@)[k]]
                        #![trigger shape_ints(bdim@)[k]]
                        #![trigger stride_ints(bstrides@)[k]]
                        0 <= k < n implies shape_ints(adim@)[k] == papply(q2, oad)[k] && stride_ints(
                        astrides@,
                    )[k] == papply(q2, oas)[k] && shape_ints(bdim@)[k] == papply(q2, obd)[k]
                        && stride_ints(bstrides@)[k] == papply(q2, obs)[k] by {
                        if k == i {
                            assert(q2[k] == qpre[i as int + 1]);
                            assert(shape_ints(adim@)[k] == shape_ints(pad)[i as int + 1]);
                            assert(shape_ints(pad)[i as int + 1] == papply(qpre, oad)[i as int
                                + 1]);
                            assert(stride_ints(astrides@)[k] == stride_ints(pas)[i as int + 1]);
                            assert(stride_ints(pas)[i as int + 1] == papply(qpre, oas)[i as int
                                + 1]);
                            assert(shape_ints(bdim@)[k] == shape_ints(pbd)[i as int + 1]);
                            assert(shape_ints(pbd)[i as int + 1] == papply(qpre, obd)[i as int
                                + 1]);
                            assert(stride_ints(bstrides@)[k] == stride_ints(pbs)[i as int + 1]);
                            assert(stride_ints(pbs)[i as int + 1] == papply(qpre, obs)[i as int
                                + 1]);
                        } else if k == i + 1 {
                            assert(q2[k] == qpre[i as int]);
                            assert(shape_ints(adim@)[k] == shape_ints(pad)[i as int]);
                            assert(shape_ints(pad)[i as int] == papply(qpre, oad)[i as int]);
                            assert(stride_ints(astrides@)[k] == stride_ints(pas)[i as int]);
                            assert(stride_ints(pas)[i as int] == papply(qpre, oas)[i as int]);
                            assert(shape_ints(bdim@)[k] == shape_ints(pbd)[i as int]);
                            assert(shape_ints(pbd)[i as int] == papply(qpre, obd)[i as int]);
                            assert(stride_ints(bstrides@)[k] == stride_ints(pbs)[i as int]);
                            assert(stride_ints(pbs)[i as int] == papply(qpre, obs)[i as int]);
                        } else {
                            assert(q2[k] == qpre[k]);
                            assert(shape_ints(adim@)[k] == shape_ints(pad)[k]);
                            assert(stride_ints(astrides@)[k] == stride_ints(pas)[k]);
                            assert(shape_ints(bdim@)[k] == shape_ints(pbd)[k]);
                            assert(stride_ints(bstrides@)[k] == stride_ints(pbs)[k]);
                        }
                    }
                    assert(shape_ints(adim@) =~= papply(q2, oad));
                    assert(stride_ints(astrides@) =~= papply(q2, oas));
                    assert(shape_ints(bdim@) =~= papply(q2, obd));
                    assert(stride_ints(bstrides@) =~= papply(q2, obs));
                    q = q2;
                    // the swap stays strictly inside the unsorted prefix
                    assert(i as int + 1 < b);
                    let cur = stride_ints(astrides@);
                    assert forall|j: int, k2: int|
                        b <= j <= k2 < n implies #[trigger] cur[j] >= #[trigger] cur[k2] by {
                        assert(cur[j] == sts[j] && cur[k2] == sts[k2]);
                    }
                    assert forall|j: int, k2: int|
                        0 <= j < b <= k2 < n implies #[trigger] cur[j] >= #[trigger] cur[k2] by {
                        assert(cur[k2] == sts[k2]);
                        if j == i {
                            assert(cur[j] == sts[i as int + 1]);
                        } else if j == i + 1 {
                            assert(cur[j] == sts[i as int]);
                        } else {
                            assert(cur[j] == sts[j]);
                        }
                    }
                    assert(sorted_from(cur, b));
                    assert(bounded_from(cur, b));
                    // reordered pairs keep strictly descending strides: ties
                    // are never swapped
                    assert forall|a2: int, b2: int|
                        0 <= a2 < b2 < n && #[trigger] q[a2] > #[trigger] q[b2] implies cur[a2]
                        > cur[b2] by {
                        if a2 == i && b2 == i + 1 {
                            assert(q[a2] == qpre[i as int + 1] && q[b2] == qpre[i as int]);
                            assert(cur[a2] == sts[i as int + 1] && cur[b2] == sts[i as int]);
                        } else {
                            let a3: int = if a2 == i {
                                i as int + 1
                            } else if a2 == i + 1 {
                                i as int
                            } else {
                                a2
                            };
                            let b3: int = if b2 == i {
                                i as int + 1
                            } else if b2 == i + 1 {
                                i as int
                            } else {
                                b2
                            };
                            assert(q[a2] == qpre[a3] && q[b2] == qpre[b3]);
                            assert(cur[a2] == sts[a3] && cur[b2] == sts[b3]);
                            if a3 < b3 {
                                assert(qpre[a3] > qpre[b3] ==> sts[a3] > sts[b3]);
                            } else {
                                assert(b3 < a3);
                                assert(qpre[b3] > qpre[a3] ==> sts[b3] > sts[a3]);
                                // both orders of the pre-swap pair settle it
                                if sts[a3] == sts[b3] {
                                    if qpre[a3] > qpre[b3] {
                                        assert(sts[b3] > sts[a3] || qpre[b3] > qpre[a3]);
                                    }
                                }
                            }
                        }
                    }
                }
            }
            proof {
                let cur = stride_ints(astrides@);
                assert forall|k: int|
                    0 <= k <= i + 1 implies #[trigger] cur[k] >= cur[i as int + 1] by {
                    if k < i {
                        assert(sts[k] >= sts[i as int]);
                    }
                }
            }
            i += 1;
        }
        proof {
            let cur = stride_ints(astrides@);
            assert(sorted_from(cur, b - 1));
            assert(bounded_from(cur, b - 1));
        }
        pass += 1;
    }
    proof {
        assert forall|i: int, j: int|
            0 <= i < j < n && stride_ints(astrides@)[i] == stride_ints(astrides@)[j]
            implies #[trigger] q[i] < #[trigger] q[j] by {
            assert(!(stride_ints(astrides@)[i] > stride_ints(astrides@)[j]));
            assert(!(q[i] > q[j]));
            if q[i] == q[j] {
                assert(false);
            }
        }
    }
    Ghost(q)
}

/// Bubble-sorts one view's axes into descending-stride order.
pub fn sort_axes1_impl(adim: &mut Vec<usize>, astrides: &mut Vec<isize>) -> (p: Ghost<Seq<int>>)
    requires
        old(adim)@.len() == old(astrides)@.len(),
        old(adim)@.len() >= 2,
        forall|k: int| 0 <= k < old(astrides)@.len() ==> #[trigger] old(astrides)@[k] >= 0,
    ensures
        is_perm(old(adim)@.len() as int, p@),
        shape_ints(final(adim)@) == papply(p@, shape_ints(old(adim)@)),
        stride_ints(final(astrides)@) == papply(p@, stride_ints(old(astrides)@)),
        descending(stride_ints(final(astrides)@)),
        forall|i: int, j: int|
            0 <= i < j < p@.len() && stride_ints(final(astrides)@)[i] == stride_ints(
                final(astrides)@,
            )[j] ==> #[trigger] p@[i] < #[trigger] p@[j],
        forall|k: int| 0 <= k < final(astrides)@.len() ==> #[trigger] final(astrides)@[k] >= 0,
{
    let mut bdim = crate::walk::copy_usizes(adim);
    let mut bstrides = crate::walk::copy_isizes(astrides);
    sort_axes_impl(adim, astrides, &mut bdim, &mut bstrides)
}

/// Sorts a view's axes to standard order: axis 0 gets the biggest stride
/// and the last axis the least.  Views of rank at most one are left alone.
pub fn sort_axes_in_default_order(adim: &mut Vec<usize>, astrides: &mut Vec<isize>) -> (p: Ghost<
    Seq<int>,
>)
    requires
        old(adim)@.len() == old(astrides)@.len(),
        forall|k: int| 0 <= k < old(astrides)@.len() ==> #[trigger] old(astrides)@[k] >= 0,
    ensures
        is_perm(old(adim)@.len() as int, p@),
        shape_ints(final(adim)@) == papply(p@, shape_ints(old(adim)@)),
        stride_ints(final(astrides)@) == papply(p@, stride_ints(old(astrides)@)),
        old(adim)@.len() >= 2 ==> descending(stride_ints(final(astrides)@)),
        forall|i: int, j: int|
            0 <= i < j < p@.len() && stride_ints(final(astrides)@)[i] == stride_ints(
                final(astrides)@,
            )[j] ==> #[trigger] p@[i] < #[trigger] p@[j],
        forall|k: int| 0 <= k < final(astrides)@.len() ==> #[trigger] final(astrides)@[k] >= 0,
{
    if adim.len() <= 1 {
        let ghost q = Seq::new(adim@.len(), |k: int| k);
        proof {
            lemma_perm_identity(adim@.len() as int, q);
            assert(shape_ints(adim@) =~= papply(q, shape_ints(adim@)));
            assert(stride_ints(astrides@) =~= papply(q, stride_ints(astrides@)));
        }
        return Ghost(q);
    }
    sort_axes1_impl(adim, astrides)
}

/// Sorts view `a`'s axes to standard order, applying the same axis
/// permutation to view `b`.  Views of rank at most one are left alone.
pub fn sort_axes_to_standard_order_tandem(
    adim: &mut Vec<usize>,
    astrides: &mut Vec<isize>,
    bdim: &mut Vec<usize>,
    bstrides: &mut Vec<isize>,
) -> (p: Ghost<Seq<int>>)
    requires
        old(adim)@.len() == old(astrides)@.len(),
        old(adim)@.len() == old(bdim)@.len(),
        old(adim)@.len() == old(bstrides)@.len(),
        forall|k: int| 0 <= k < old(astrides)@.len() ==> #[trigger] old(astrides)@[k] >= 0,
    ensures
        is_perm(old(adim)@.len() as int, p@),
        shape_ints(final(adim)@) == papply(p@, shape_ints(old(adim)@)),
        stride_ints(final(astrides)@) == papply(p@, stride_ints(old(astrides)@)),
        shape_ints(final(bdim)@) == papply(p@, shape_ints(old(bdim)@)),
        stride_ints(final(bstrides)@) == papply(p@, stride_ints(old(bstrides)@)),
        old(adim)@.len() >= 2 ==> descending(stride_ints(final(astrides)@)),
        forall|i: int, j: int|
            0 <= i < j < p@.len() && stride_ints(final(astrides)@)[i] == stride_ints(
                final(astrides)@,
            )[j] ==> #[trigger] p@[i] < #[trigger] p@[j],
        forall|k: int| 0 <= k < final(astrides)@.len() ==> #[trigger] final(astrides)@[k] >= 0,
{
    if adim.len() <= 1 {
        let ghost q = Seq::new(adim@.len(), |k: int| k);
        proof {
            lemma_perm_identity(adim@.len() as int, q);
            assert(shape_ints(adim@) =~= papply(q, shape_ints(adim@)));
            assert(stride_ints(astrides@) =~= papply(q, stride_ints(astrides@)));
            assert(shape_ints(bdim@) =~= papply(q, shape_ints(bdim@)));
            assert(stride_ints(bstrides@) =~= papply(q, stride_ints(bstrides@)));
        }
        return Ghost(q);
    }
    sort_axes_impl(adim, astrides, bdim, bstrides)
}

} // verus!
