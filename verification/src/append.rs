//! The in-place growth protocol: appending a slab of elements along one
//! axis without moving existing data.

use vstd::prelude::*;

use crate::array::{parts_wf, Array};
use crate::errors::{ErrorKind, ShapeError};
use crate::geom::{
    abs, canon, descending, dom_sum, dominated, exact, ext1, fcanon, is_perm,
    lemma_canon_tiled, lemma_dominated_injective, lemma_exact_change_extent,
    lemma_exact_desc_tiled, lemma_exact_dominated, lemma_exact_span_prod, lemma_exact_top_stride,
    lemma_offset_bounds, lemma_offset_max_index, lemma_offset_zero_index, lemma_perm_geometry,
    lemma_perm_inverse, lemma_perm_offset, lemma_perm_valid, lemma_prod_ext, lemma_prod_from_pos,
    lemma_prod_pre_pos, lemma_prod_pre_step, lemma_product_nonneg, lemma_product_pos, lemma_product_remove_axis,
    lemma_product_zero, lemma_spans_nonneg, lemma_step_delta, lemma_sum_ext, lemma_tiled_dominated,
    lemma_tiled_span_prod, tiled, neg_span, nzprod, offset_of, papply, pos_span, prod_from, prod_pre,
    product, span_from, valid_index,
};
use crate::walk::{
    compute_addr, copy_isizes, copy_usizes, default_strides, exact_check, fortran_strides,
    next_index, shape_ints, size_of_shape_checked, stride_ints,
};
use crate::sorting::sort_axes_to_standard_order_tandem;

verus! {

/// The source's shape agrees with the array's on every axis but the growing
/// one.
pub open spec fn off_axis_match<A>(pre: Array<A>, src_sh: Seq<int>, axis: int) -> bool {
    &&& pre.rank() == src_sh.len()
    &&& forall|j: int| 0 <= j < pre.rank() && j != axis ==> pre.sh()[j] == #[trigger] src_sh[j]
}

/// The shape after growth: the growing axis extends by the source's extent.
pub open spec fn grown_shape<A>(pre: Array<A>, src_sh: Seq<int>, axis: int) -> Seq<int> {
    pre.sh().update(axis, pre.sh()[axis] + src_sh[axis])
}

/// Maximum, over the axes before `k` other than `axis`, of extent times
/// stride — the reach of the other axes, floored at one.  Promoting an
/// extent-one axis to outermost gives it this stride.
pub open spec fn promote_max(sh: Seq<int>, st: Seq<int>, axis: int, k: int) -> int
    decreases k,
{
    if k <= 0 {
        1
    } else {
        let m = promote_max(sh, st, axis, k - 1);
        if k - 1 != axis && sh[k - 1] * st[k - 1] > m {
            sh[k - 1] * st[k - 1]
        } else {
            m
        }
    }
}

/// `s` with entries `0` and `axis` exchanged.
pub open spec fn swapped0(s: Seq<int>, axis: int) -> Seq<int> {
    s.update(0, s[axis]).update(axis, s[0])
}

/// The strides after growth.  An empty array is re-strided canonically with
/// the growing axis outermost (column-major when growing the last axis); an
/// extent-one axis is promoted to outermost; otherwise strides are kept.
pub open spec fn grown_strides<A>(pre: Array<A>, src_sh: Seq<int>, axis: int) -> Seq<int> {
    let res = grown_shape(pre, src_sh, axis);
    if pre.size() == 0 {
        if axis == pre.rank() - 1 {
            fcanon(res)
        } else {
            swapped0(canon(swapped0(res, axis)), axis)
        }
    } else if pre.sh()[axis] == 1 {
        pre.st().update(axis, promote_max(pre.sh(), pre.st(), axis, pre.rank()))
    } else {
        pre.st()
    }
}

/// Which failure, if any, an append must produce, in validation order.
/// `None` means the append succeeds (a zero-sized source succeeds as a
/// shape-only update).
pub open spec fn append_outcome<A>(pre: Array<A>, src_sh: Seq<int>, axis: int) -> Option<
    ErrorKind,
> {
    if pre.rank() == 0 || !off_axis_match(pre, src_sh, axis) {
        Some(ErrorKind::IncompatibleShape)
    } else if pre.sh()[axis] + src_sh[axis] > usize::MAX as int || nzprod(
        grown_shape(pre, src_sh, axis),
    ) > isize::MAX as int {
        Some(ErrorKind::ShapeOverflow)
    } else if product(src_sh) == 0 {
        None
    } else if exists|j: int| 0 <= j < pre.rank() && #[trigger] pre.st()[j] < 0 {
        Some(ErrorKind::IncompatibleLayout)
    } else if pre.size() > 0 && pre.sh()[axis] > 1 && (exists|j: int|
        0 <= j < pre.rank() && #[trigger] pre.st()[j] > pre.st()[axis]) {
        Some(ErrorKind::IncompatibleLayout)
    } else if pre.size() != pre.buf_len() {
        Some(ErrorKind::IncompatibleLayout)
    } else if pre.size() > 0 && pre.sh()[axis] == 1 && promote_max(
        pre.sh(),
        pre.st(),
        axis,
        pre.rank(),
    ) > isize::MAX as int {
        Some(ErrorKind::ShapeOverflow)
    } else if !exact(grown_shape(pre, src_sh, axis), grown_strides(pre, src_sh, axis)) {
        Some(ErrorKind::IncompatibleLayout)
    } else {
        None
    }
}

/// Two arrays are the same value.
pub open spec fn same_array<A>(a: Array<A>, b: Array<A>) -> bool {
    &&& a.sh() == b.sh()
    &&& a.st() == b.st()
    &&& a.off() == b.off()
    &&& a.dat() == b.dat()
}

/// What a successful non-empty append guarantees: the shape grows along the
/// axis, the strides are the computed ones, the head moves to the buffer
/// base, existing elements keep their logical places, and every new logical
/// place holds a clone of the matching source element.
pub open spec fn append_ok<A: Clone>(pre: Array<A>, src: Array<A>, axis: int, post: Array<A>) -> bool {
    &&& post.wf()
    &&& post.sh() == grown_shape(pre, src.sh(), axis)
    &&& post.st() == grown_strides(pre, src.sh(), axis)
    &&& post.off() == 0
    &&& post.dat().len() == pre.dat().len() + product(src.sh())
    &&& post.dat().subrange(0, pre.dat().len() as int) == pre.dat()
    &&& post.size() == pre.size() + product(src.sh())
    &&& forall|ix: Seq<int>|
        #[trigger] valid_index(post.sh(), ix) && ix[axis] < pre.sh()[axis] ==> post.elem(ix)
            == pre.elem(ix)
    &&& forall|ix: Seq<int>|
        #[trigger] valid_index(post.sh(), ix) && ix[axis] >= pre.sh()[axis]
            ==> vstd::pervasive::cloned(
            src.elem(ix.update(axis, ix[axis] - pre.sh()[axis])),
            post.elem(ix),
        )
}

impl<A> Array<A> {
    /// Append an array along `axis`, which must be the growing axis: the
    /// outermost-stride axis, or any axis of an empty or extent-one array.
    ///
    /// Fails with `IncompatibleShape` if the array has rank 0 or the source
    /// shape differs off-axis; with `ShapeOverflow` if the grown element
    /// count cannot be represented; with `IncompatibleLayout` if the array
    /// has a reversed axis or holes, or growing the axis would move existing
    /// data.  A rejected append leaves the array untouched.  Appending a
    /// zero-sized source updates only the shape.
    pub fn try_append_array(&mut self, axis: usize, array: &Array<A>) -> (r: Result<
        (),
        ShapeError,
    >) where A: Clone
        requires
            old(self).wf(),
            array.wf(),
            axis < old(self).rank() || old(self).rank() == 0,
        ensures
            r is Err <==> append_outcome(*old(self), array.sh(), axis as int) is Some,
            r is Err ==> r->Err_0.kind == append_outcome(*old(self), array.sh(), axis as int)->Some_0,
            r is Err ==> same_array(*final(self), *old(self)),
            final(self).wf(),
            r is Ok && product(array.sh()) == 0 ==> final(self).sh() == grown_shape(
                *old(self),
                array.sh(),
                axis as int,
            ) && final(self).st() == old(self).st() && final(self).off() == old(self).off()
                && final(self).dat() == old(self).dat(),
            r is Ok && product(array.sh()) != 0 ==> append_ok(
                *old(self),
                *array,
                axis as int,
                *final(self),
            ),
    {
        let ghost pre = *self;
        let ghost ghost_axis = axis as int;
        proof {
            pre.lemma_repr();
            pre.lemma_value_ranges();
            array.lemma_repr();
            array.lemma_value_ranges();
        }
        let n = self.shape.len();
        if n == 0 {
            proof {
                assert(pre.rank() == 0);
            }
            return Err(ShapeError::from_kind(ErrorKind::IncompatibleShape));
        }
        // the off-axis shapes must agree
        if array.shape.len() != n {
            proof {
                assert(pre.rank() == n && array.rank() != n);
                assert(!off_axis_match(pre, array.sh(), ghost_axis));
            }
            return Err(ShapeError::from_kind(ErrorKind::IncompatibleShape));
        }
        let mut j: usize = 0;
        while j < n
            invariant
                0 <= j <= n,
                n == self.shape@.len() == array.shape@.len(),
                n == pre.rank() && n == array.rank(),
                *self == pre,
                pre == *old(self),
                pre.wf(),
                ghost_axis == axis as int,
                axis < n,
                forall|k: int|
                    0 <= k < j && k != axis ==> pre.sh()[k] == #[trigger] array.sh()[k],
                forall|k: int| 0 <= k < n ==> #[trigger] pre.sh()[k] == self.shape@[k] as int,
                forall|k: int| 0 <= k < n ==> #[trigger] array.sh()[k] == array.shape@[k] as int,
            decreases n - j,
        {
            if j != axis && self.shape[j] != array.shape[j] {
                proof {
                    assert(pre.sh()[j as int] != array.sh()[j as int]);
                    assert(!off_axis_match(pre, array.sh(), ghost_axis));
                }
                return Err(ShapeError::from_kind(ErrorKind::IncompatibleShape));
            }
            j += 1;
        }
        proof {
            assert(off_axis_match(pre, array.sh(), ghost_axis));
        }
        // the grown shape and its checked size
        let grown_axis_len = match self.shape[axis].checked_add(array.shape[axis]) {
            Some(v) => v,
            None => {
                proof {
                    assert(pre.sh()[ghost_axis] + array.sh()[ghost_axis] > usize::MAX as int);
                }
                return Err(ShapeError::from_kind(ErrorKind::ShapeOverflow));
            },
        };
        let mut res_dim = copy_usizes(&self.shape);
        res_dim.set(axis, grown_axis_len);
        let ghost res_sh = grown_shape(pre, array.sh(), ghost_axis);
        proof {
            assert(shape_ints(res_dim@) =~= res_sh);
        }
        let new_len = match size_of_shape_checked(&res_dim) {
            Ok(v) => v,
            Err(e) => {
                return Err(e);
            },
        };
        // a zero-sized source only updates the shape
        let len_to_append = array.len();
        if len_to_append == 0 {
            proof {
                lemma_zero_append_wf(pre, array.sh(), ghost_axis);
            }
            self.shape = res_dim;
            proof {
                self.lemma_repr();
                assert(self.sh() == res_sh);
                assert(self.st() == pre.st() && self.off() == pre.off() && self.dat()
                    == pre.dat());
            }
            return Ok(());
        }
        proof {
            lemma_product_pos(array.sh());
            assert forall|k: int| 0 <= k < n implies #[trigger] res_sh[k] >= 1 by {
                assert(array.sh()[k] >= 1);
                if k != ghost_axis {
                    assert(pre.sh()[k] == array.sh()[k]);
                }
            }
        }
        // an axis traversed backwards cannot supply the forward-contiguous
        // region growth writes into: such layouts are refused
        let mut ns: usize = 0;
        while ns < n
            invariant
                0 <= ns <= n,
                n == self.strides@.len(),
                n == pre.rank(),
                *self == pre,
                pre == *old(self),
                pre.wf(),
                ghost_axis == axis as int,
                axis < n,
                off_axis_match(pre, array.sh(), ghost_axis),
                !(pre.sh()[ghost_axis] + array.sh()[ghost_axis] > usize::MAX as int),
                nzprod(grown_shape(pre, array.sh(), ghost_axis)) <= isize::MAX as int,
                product(array.sh()) != 0,
                forall|k: int| 0 <= k < n ==> #[trigger] pre.st()[k] == self.strides@[k] as int,
                forall|k: int| 0 <= k < ns ==> #[trigger] pre.st()[k] >= 0,
            decreases n - ns,
        {
            if self.strides[ns] < 0 {
                proof {
                    assert(pre.st()[ns as int] < 0);
                }
                return Err(ShapeError::from_kind(ErrorKind::IncompatibleLayout));
            }
            ns += 1;
        }
        proof {
            assert forall|k: int| 0 <= k < pre.rank() implies #[trigger] pre.st()[k] >= 0 by {}
        }
        let self_len = self.len();
        let self_is_empty = self_len == 0;
        // the growing axis must already be outermost unless it is short
        if !self_is_empty && self.shape[axis] > 1 {
            proof {
                assert(pre.size() == self_len as int && pre.size() > 0);
                assert(pre.sh()[ghost_axis] == self.shape@[axis as int] as int);
            }
            let s_axis = self.strides[axis];
            let mut m: usize = 0;
            while m < n
                invariant
                    0 <= m <= n,
                    n == self.shape@.len() == self.strides@.len(),
                    n == pre.rank(),
                    *self == pre,
                    pre == *old(self),
                    pre.wf(),
                    ghost_axis == axis as int,
                    axis < n,
                    off_axis_match(pre, array.sh(), ghost_axis),
                    !(pre.sh()[ghost_axis] + array.sh()[ghost_axis] > usize::MAX as int),
                    nzprod(grown_shape(pre, array.sh(), ghost_axis)) <= isize::MAX as int,
                    product(array.sh()) != 0,
                    forall|k: int| 0 <= k < n ==> #[trigger] pre.st()[k] >= 0,
                    pre.size() > 0,
                    pre.sh()[axis as int] > 1,
                    s_axis == self.strides@[axis as int],
                    forall|k: int| 0 <= k < n ==> #[trigger] pre.st()[k] == self.strides@[k] as int,
                    forall|k: int| 0 <= k < m ==> !(#[trigger] pre.st()[k] > pre.st()[axis as int]),
                decreases n - m,
            {
                if self.strides[m] > s_axis {
                    proof {
                        assert(pre.st()[m as int] > pre.st()[ghost_axis]);
                    }
                    return Err(ShapeError::from_kind(ErrorKind::IncompatibleLayout));
                }
                m += 1;
            }
        }
        // the view must cover the whole buffer
        if self_len != self.data.len() {
            proof {
                assert(pre.size() != pre.buf_len());
                assert(!(pre.size() > 0 && pre.sh()[ghost_axis] > 1 && (exists|q: int|
                    0 <= q < pre.rank() && #[trigger] pre.st()[q] > pre.st()[ghost_axis])));
            }
            return Err(ShapeError::from_kind(ErrorKind::IncompatibleLayout));
        }
        // compute the grown strides
        let strides_new: Vec<isize> = if self_is_empty {
            if axis == n - 1 {
                fortran_strides(&res_dim)
            } else {
                let mut sw = copy_usizes(&res_dim);
                let t0 = sw[0];
                sw.set(0, sw[axis]);
                sw.set(axis, t0);
                proof {
                    assert(shape_ints(sw@) =~= swapped0(res_sh, ghost_axis));
                    lemma_nzprod_swap(res_sh, ghost_axis);
                }
                let mut cs = default_strides(&sw);
                let c0 = cs[0];
                cs.set(0, cs[axis]);
                cs.set(axis, c0);
                proof {
                    assert(stride_ints(cs@) =~= swapped0(canon(swapped0(res_sh, ghost_axis)), ghost_axis));
                }
                cs
            }
        } else if self.shape[axis] == 1 {
            proof {
                assert(pre.size() == self_len as int && pre.size() > 0);
            }
            let mut mx: usize = 1;
            let mut k: usize = 0;
            while k < n
                invariant
                    0 <= k <= n,
                    n == self.shape@.len() == self.strides@.len(),
                    n == pre.rank(),
                    *self == pre,
                    pre == *old(self),
                    ghost_axis == axis as int,
                    axis < n,
                    pre.wf(),
                    pre.size() > 0,
                    forall|q: int| 0 <= q < n ==> #[trigger] pre.st()[q] >= 0,
                    forall|q: int| 0 <= q < n ==> #[trigger] pre.sh()[q] == self.shape@[q] as int,
                    forall|q: int| 0 <= q < n ==> #[trigger] pre.st()[q] == self.strides@[q] as int,
                    mx as int == promote_max(pre.sh(), pre.st(), ghost_axis, k as int),
                decreases n - k,
            {
                let ghost mxp = mx;
                if k != axis {
                    proof {
                        lemma_promote_term_bound(pre, k as int);
                        assert(self.strides@[k as int] >= 0);
                    }
                    let t = self.shape[k] * (self.strides[k] as usize);
                    proof {
                        assert(t as int == pre.sh()[k as int] * pre.st()[k as int]);
                    }
                    if t > mx {
                        mx = t;
                    }
                    proof {
                        assert(promote_max(pre.sh(), pre.st(), ghost_axis, k as int + 1) == (
                        if k as int + 1 - 1 != ghost_axis && pre.sh()[k as int + 1 - 1] * pre.st()[
                            k as int + 1 - 1] > promote_max(
                            pre.sh(),
                            pre.st(),
                            ghost_axis,
                            k as int + 1 - 1,
                        ) {
                            pre.sh()[k as int + 1 - 1] * pre.st()[k as int + 1 - 1]
                        } else {
                            promote_max(pre.sh(), pre.st(), ghost_axis, k as int + 1 - 1)
                        }));
                        assert(promote_max(pre.sh(), pre.st(), ghost_axis, k as int) == mxp
                            as int);
                    }
                } else {
                    proof {
                        assert(promote_max(pre.sh(), pre.st(), ghost_axis, k as int + 1) == (
                        if k as int + 1 - 1 != ghost_axis && pre.sh()[k as int + 1 - 1] * pre.st()[
                            k as int + 1 - 1] > promote_max(
                            pre.sh(),
                            pre.st(),
                            ghost_axis,
                            k as int + 1 - 1,
                        ) {
                            pre.sh()[k as int + 1 - 1] * pre.st()[k as int + 1 - 1]
                        } else {
                            promote_max(pre.sh(), pre.st(), ghost_axis, k as int + 1 - 1)
                        }));
                        assert(k as int == ghost_axis);
                    }
                }
                k += 1;
            }
            if mx > isize::MAX as usize {
                return Err(ShapeError::from_kind(ErrorKind::ShapeOverflow));
            }
            let mut st = copy_isizes(&self.strides);
            st.set(axis, mx as isize);
            proof {
                assert(stride_ints(st@) =~= grown_strides(pre, array.sh(), ghost_axis));
            }
            st
        } else {
            copy_isizes(&self.strides)
        };
        let ghost gst = grown_strides(pre, array.sh(), ghost_axis);
        proof {
            assert(stride_ints(strides_new@) == gst) by {
                if pre.size() > 0 && pre.sh()[ghost_axis] >= 2 {
                    assert(stride_ints(strides_new@) =~= pre.st());
                }
            }
            lemma_top_axis(pre, *array, ghost_axis);
            assert forall|k: int| 0 <= k < n implies #[trigger] strides_new@[k] >= 0 by {
                assert(stride_ints(strides_new@)[k] == gst[k]);
                assert(gst[k] >= 0);
            }
        }
        // the grown strides must tile the grown shape exactly
        if !exact_check(&res_dim, &strides_new) {
            return Err(ShapeError::from_kind(ErrorKind::IncompatibleLayout));
        }
        proof {
            assert(append_outcome(pre, array.sh(), ghost_axis) is None);
        }
        // ---- write phase ----
        let old_len = self.data.len();
        self.offset = 0;
        // tail view over the region to be filled, in the source's shape
        let mut tshape = copy_usizes(&array.shape);
        let mut tstrides = copy_isizes(&strides_new);
        let mut sshape = copy_usizes(&array.shape);
        let mut sstrides = copy_isizes(&array.strides);
        let ghost tail_sh = shape_ints(tshape@);
        proof {
            assert(tail_sh == array.sh());
            lemma_tail_exact(pre, *array, ghost_axis);
            lemma_append_sizes(pre, *array, ghost_axis);
        }
        let p_g = sort_axes_to_standard_order_tandem(
            &mut tshape,
            &mut tstrides,
            &mut sshape,
            &mut sstrides,
        );
        let ghost p = p_g@;
        let ghost sor_sh = papply(p, tail_sh);
        let ghost sor_wst = papply(p, gst);
        let ghost sor_ast = papply(p, array.st());
        proof {
            assert(shape_ints(tshape@) == sor_sh);
            assert(stride_ints(tstrides@) == sor_wst);
            assert(stride_ints(sstrides@) == papply(p, array.st()));
            lemma_perm_geometry(p, tail_sh, gst);
            assert(exact(sor_sh, sor_wst));
            if n >= 2 {
                lemma_exact_desc_tiled(sor_sh, sor_wst);
            } else {
                assert forall|k: int| 0 <= k < n implies #[trigger] sor_wst[k] >= 0 by {
                    assert(gst[p[k]] >= 0);
                }
                lemma_rank1_tiled(sor_sh, sor_wst);
            }
            lemma_perm_geometry(p, array.sh(), array.st());
            assert forall|k: int| 0 <= k < n implies #[trigger] sor_sh[k] >= 1 by {
                assert(array.sh()[p[k]] >= 1);
            }
            assert forall|k: int|
                0 <= k < n implies abs(#[trigger] sor_ast[k]) <= isize::MAX as int by {
                assert(abs(array.st()[p[k]]) <= isize::MAX as int);
            }
            assert(array.size() > 0);
            assert(array.off() + neg_span(array.sh(), array.st()) >= 0);
            assert(array.off() + pos_span(array.sh(), array.st()) < array.buf_len());
            assert(neg_span(sor_sh, sor_ast) == neg_span(array.sh(), array.st()));
            assert(pos_span(sor_sh, sor_ast) == pos_span(array.sh(), array.st()));
            assert(product(sor_sh) == product(tail_sh));
            assert(old_len as int + product(sor_sh) <= isize::MAX as int) by {
                assert(product(tail_sh) == product(array.sh()));
                assert(old_len as int == pre.size());
                assert(pre.size() + product(array.sh()) == product(res_sh));
            }
            assert(tshape@.len() == n && tstrides@.len() == n && sstrides@.len() == n) by {
                assert(shape_ints(tshape@).len() == sor_sh.len());
                assert(stride_ints(tstrides@).len() == sor_wst.len());
                assert(stride_ints(sstrides@).len() == papply(p, array.st()).len());
            }
        }
        append_write(&mut self.data, &array.data, array.offset, &sstrides, &tshape, &tstrides);
        self.strides = strides_new;
        self.shape = res_dim;
        proof {
            self.lemma_repr();
            assert(self.sh() == res_sh && self.st() == gst && self.off() == 0);
            assert(self.dat().len() == old_len as int + product(array.sh())) by {
                assert(product(sor_sh) == product(array.sh()));
            }
            lemma_append_final(pre, *array, ghost_axis, *self, p, old_len as int);
        }
        Ok(())
    }
}

impl<A> Array<A> {
    /// Append a row to a rank-two array with row-major memory layout.
    ///
    /// Fails with a layout error if the array is not in standard order or has
    /// holes, and with a shape error if the row length does not match the
    /// array's rows.  Expressed as inserting a leading extent-one axis on the
    /// row and growing along axis 0.
    pub fn try_append_row(&mut self, row: Array<A>) -> (r: Result<(), ShapeError>) where A: Clone
        requires
            old(self).wf(),
            row.wf(),
            old(self).rank() == 2,
            row.rank() == 1,
        ensures
            final(self).wf(),
            r is Err <==> append_outcome(*old(self), seq![1int, row.sh()[0]], 0) is Some,
            r is Err ==> r->Err_0.kind == append_outcome(
                *old(self),
                seq![1int, row.sh()[0]],
                0,
            )->Some_0,
            r is Err ==> same_array(*final(self), *old(self)),
            r is Ok ==> final(self).sh() == old(self).sh().update(0, old(self).sh()[0] + 1)
                && row.sh()[0] == old(self).sh()[1],
            r is Ok && product(row.sh()) != 0 ==> final(self).st() == grown_strides(
                *old(self),
                seq![1int, row.sh()[0]],
                0,
            ) && final(self).off() == 0,
            r is Ok && product(row.sh()) == 0 ==> final(self).st() == old(self).st()
                && final(self).off() == old(self).off() && final(self).dat() == old(self).dat(),
            r is Ok ==> final(self).dat().len() == old(self).dat().len() + row.size()
                && final(self).dat().subrange(0, old(self).dat().len() as int) == old(self).dat(),
            r is Ok ==> forall|ix: Seq<int>|
                #[trigger] valid_index(old(self).sh(), ix) ==> final(self).elem(ix) == old(
                    self,
                ).elem(ix),
            r is Ok ==> forall|c: int|
                0 <= c < row.sh()[0] ==> vstd::pervasive::cloned(
                    row.elem(seq![c]),
                    final(self).elem(#[trigger] seq![old(self).sh()[0], c]),
                ),
    {
        let ghost pre = *old(self);
        let view = insert_unit_axis(row, true);
        let r = self.try_append_array(0, &view);
        proof {
            assert(view.sh() == seq![1int, row.sh()[0]]);
            if r is Ok {
                assert(append_outcome(pre, view.sh(), 0) is None);
                assert(off_axis_match(pre, view.sh(), 0));
                assert(view.sh()[1] == pre.sh()[1]);
                if product(view.sh()) != 0 {
                    assert(append_ok(pre, view, 0, *self));
                    assert(self.sh() == grown_shape(pre, view.sh(), 0));
                    assert(self.sh() =~= pre.sh().update(0, pre.sh()[0] + 1));
                    assert forall|ix: Seq<int>|
                        #[trigger] valid_index(pre.sh(), ix) implies self.elem(ix) == pre.elem(
                        ix,
                    ) by {
                        assert(valid_index(self.sh(), ix));
                        assert(ix[0] < pre.sh()[0]);
                    }
                    assert forall|c: int|
                        0 <= c < row.sh()[0] implies vstd::pervasive::cloned(
                        row.elem(seq![c]),
                        self.elem(#[trigger] seq![pre.sh()[0], c]),
                    ) by {
                        let ix = seq![pre.sh()[0], c];
                        pre.lemma_value_ranges();
                        assert(ix.len() == self.sh().len());
                        assert(0 <= ix[0] < self.sh()[0]);
                        assert(0 <= ix[1] < self.sh()[1]);
                        assert forall|q: int| 0 <= q < 2 implies 0 <= #[trigger] ix[q]
                            < self.sh()[q] by {}
                        assert(valid_index(self.sh(), ix));
                        assert(ix[0] >= pre.sh()[0]);
                        assert(ix.update(0, ix[0] - pre.sh()[0]) =~= seq![0int, c]);
                        assert(view.elem(seq![0int, c]) == row.elem(seq![c]));
                    }
                } else {
                    assert(view.size() == 0 && row.size() == 0);
                    assert(row.sh()[0] == 0) by {
                        let f = |k: int| row.sh()[k];
                        assert(crate::geom::prod(0nat, f) == 1);
                        assert(crate::geom::prod(1nat, f) == crate::geom::prod(0nat, f) * f(0));
                        assert(1 * f(0) == f(0)) by (nonlinear_arith);
                    }
                    assert(self.sh() =~= pre.sh().update(0, pre.sh()[0] + 1)) by {
                        assert(view.sh()[0] == 1);
                    }
                    assert forall|ix: Seq<int>|
                        #[trigger] valid_index(pre.sh(), ix) implies self.elem(ix) == pre.elem(
                        ix,
                    ) by {}
                }
            }
        }
        r
    }

    /// Append a column to a rank-two array with column-major memory layout.
    ///
    /// Fails with a layout error if the array is not in column-major order or
    /// has holes, and with a shape error if the column length does not match
    /// the array's columns.  Expressed as inserting a trailing extent-one
    /// axis on the column and growing along axis 1.
    pub fn try_append_column(&mut self, column: Array<A>) -> (r: Result<(), ShapeError>) where
        A: Clone
        requires
            old(self).wf(),
            column.wf(),
            old(self).rank() == 2,
            column.rank() == 1,
        ensures
            final(self).wf(),
            r is Err <==> append_outcome(*old(self), seq![column.sh()[0], 1int], 1) is Some,
            r is Err ==> r->Err_0.kind == append_outcome(
                *old(self),
                seq![column.sh()[0], 1int],
                1,
            )->Some_0,
            r is Err ==> same_array(*final(self), *old(self)),
            r is Ok ==> final(self).sh() == old(self).sh().update(1, old(self).sh()[1] + 1)
                && column.sh()[0] == old(self).sh()[0],
            r is Ok && product(column.sh()) != 0 ==> final(self).st() == grown_strides(
                *old(self),
                seq![column.sh()[0], 1int],
                1,
            ) && final(self).off() == 0,
            r is Ok && product(column.sh()) == 0 ==> final(self).st() == old(self).st()
                && final(self).off() == old(self).off() && final(self).dat() == old(self).dat(),
            r is Ok ==> final(self).dat().len() == old(self).dat().len() + column.size()
                && final(self).dat().subrange(0, old(self).dat().len() as int) == old(self).dat(),
            r is Ok ==> forall|ix: Seq<int>|
                #[trigger] valid_index(old(self).sh(), ix) ==> final(self).elem(ix) == old(
                    self,
                ).elem(ix),
            r is Ok ==> forall|c: int|
                0 <= c < column.sh()[0] ==> vstd::pervasive::cloned(
                    column.elem(seq![c]),
                    final(self).elem(#[trigger] seq![c, old(self).sh()[1]]),
                ),
    {
        let ghost pre = *old(self);
        let view = insert_unit_axis(column, false);
        let r = self.try_append_array(1, &view);
        proof {
            assert(view.sh() == seq![column.sh()[0], 1int]);
            if r is Ok {
                assert(append_outcome(pre, view.sh(), 1) is None);
                assert(off_axis_match(pre, view.sh(), 1));
                assert(view.sh()[0] == pre.sh()[0]);
                if product(view.sh()) != 0 {
                    assert(append_ok(pre, view, 1, *self));
                    assert(self.sh() == grown_shape(pre, view.sh(), 1));
                    assert(self.sh() =~= pre.sh().update(1, pre.sh()[1] + 1));
                    assert forall|ix: Seq<int>|
                        #[trigger] valid_index(pre.sh(), ix) implies self.elem(ix) == pre.elem(
                        ix,
                    ) by {
                        assert(valid_index(self.sh(), ix));
                        assert(ix[1] < pre.sh()[1]);
                    }
                    assert forall|c: int|
                        0 <= c < column.sh()[0] implies vstd::pervasive::cloned(
                        column.elem(seq![c]),
                        self.elem(#[trigger] seq![c, pre.sh()[1]]),
                    ) by {
                        let ix = seq![c, pre.sh()[1]];
                        pre.lemma_value_ranges();
                        assert(ix.len() == self.sh().len());
                        assert(0 <= ix[0] < self.sh()[0]);
                        assert(0 <= ix[1] < self.sh()[1]);
                        assert forall|q: int| 0 <= q < 2 implies 0 <= #[trigger] ix[q]
                            < self.sh()[q] by {}
                        assert(valid_index(self.sh(), ix));
                        assert(ix[1] >= pre.sh()[1]);
                        assert(ix.update(1, ix[1] - pre.sh()[1]) =~= seq![c, 0int]);
                        assert(view.elem(seq![c, 0int]) == column.elem(seq![c]));
                    }
                } else {
                    assert(view.size() == 0 && column.size() == 0);
                    assert(column.sh()[0] == 0) by {
                        let f = |k: int| column.sh()[k];
                        assert(crate::geom::prod(0nat, f) == 1);
                        assert(crate::geom::prod(1nat, f) == crate::geom::prod(0nat, f) * f(0));
                        assert(1 * f(0) == f(0)) by (nonlinear_arith);
                    }
                    assert(self.sh() =~= pre.sh().update(1, pre.sh()[1] + 1)) by {
                        assert(view.sh()[1] == 1);
                    }
                    assert forall|ix: Seq<int>|
                        #[trigger] valid_index(pre.sh(), ix) implies self.elem(ix) == pre.elem(
                        ix,
                    ) by {}
                }
            }
        }
        r
    }
}

/// Reinterprets a rank-one array as a rank-two view by inserting an
/// extent-one axis (leading or trailing) with stride zero; no element moves.
fn insert_unit_axis<A>(v: Array<A>, leading: bool) -> (r: Array<A>)
    requires
        v.wf(),
        v.rank() == 1,
    ensures
        r.wf(),
        r.rank() == 2,
        r.off() == v.off(),
        r.dat() == v.dat(),
        leading ==> r.sh() == seq![1int, v.sh()[0]] && r.st() == seq![0int, v.st()[0]],
        !leading ==> r.sh() == seq![v.sh()[0], 1int] && r.st() == seq![v.st()[0], 0int],
        r.size() == v.size(),
        forall|c: int|
            0 <= c < v.sh()[0] ==> (if leading {
                r.addr(#[trigger] seq![0int, c])
            } else {
                r.addr(seq![c, 0int])
            }) == v.addr(seq![c]),
{
    proof {
        v.lemma_repr();
        v.lemma_value_ranges();
    }
    let Array { data, offset, shape, strides } = v;
    let m = shape[0];
    let s = strides[0];
    let mut sh2: Vec<usize> = Vec::new();
    let mut st2: Vec<isize> = Vec::new();
    if leading {
        sh2.push(1);
        sh2.push(m);
        st2.push(0);
        st2.push(s);
    } else {
        sh2.push(m);
        sh2.push(1);
        st2.push(s);
        st2.push(0);
    }
    let r = Array { data, offset, shape: sh2, strides: st2 };
    proof {
        r.lemma_repr();
        r.lemma_value_ranges();
        if leading {
            assert(r.sh() =~= seq![1int, v.sh()[0]]);
            assert(r.st() =~= seq![0int, v.st()[0]]);
        } else {
            assert(r.sh() =~= seq![v.sh()[0], 1int]);
            assert(r.st() =~= seq![v.st()[0], 0int]);
        }
        lemma_unit_axis_wf(v.dat(), v.off(), v.sh(), v.st(), r.sh(), r.st(), leading);
        assert forall|c: int|
            0 <= c < v.sh()[0] implies (if leading {
            r.addr(#[trigger] seq![0int, c])
        } else {
            r.addr(seq![c, 0int])
        }) == v.addr(seq![c]) by {
            lemma_pair_sums(r.st(), v.st(), c, leading);
        }
    }
    r
}

/// Unfolds the rank-two sums that relate a unit-axis view to its rank-one
/// original.
proof fn lemma_pair_sums(st2: Seq<int>, st1: Seq<int>, c: int, leading: bool)
    requires
        st1.len() == 1,
        st2.len() == 2,
        leading ==> st2 == seq![0int, st1[0]],
        !leading ==> st2 == seq![st1[0], 0int],
    ensures
        leading ==> offset_of(st2, seq![0int, c]) == offset_of(st1, seq![c]),
        !leading ==> offset_of(st2, seq![c, 0int]) == offset_of(st1, seq![c]),
{
    let ix1 = seq![c];
    let f1 = |k: int| ix1[k] * st1[k];
    assert(crate::geom::sum(0nat, f1) == 0);
    assert(crate::geom::sum(1nat, f1) == crate::geom::sum(0nat, f1) + f1(0));
    if leading {
        let ix2 = seq![0int, c];
        let f2 = |k: int| ix2[k] * st2[k];
        assert(crate::geom::sum(0nat, f2) == 0);
        assert(crate::geom::sum(1nat, f2) == crate::geom::sum(0nat, f2) + f2(0));
        assert(crate::geom::sum(2nat, f2) == crate::geom::sum(1nat, f2) + f2(1));
        let z0 = ix2[0];
        assert(z0 == 0);
        assert(z0 * st2[0] == 0) by (nonlinear_arith)
            requires
                z0 == 0,
        ;
        assert(f2(0) == z0 * st2[0]);
        assert(f2(1) == f1(0));
    } else {
        let ix2 = seq![c, 0int];
        let f2 = |k: int| ix2[k] * st2[k];
        assert(crate::geom::sum(0nat, f2) == 0);
        assert(crate::geom::sum(1nat, f2) == crate::geom::sum(0nat, f2) + f2(0));
        assert(crate::geom::sum(2nat, f2) == crate::geom::sum(1nat, f2) + f2(1));
        let z1 = ix2[1];
        assert(z1 == 0);
        assert(z1 * st2[1] == 0) by (nonlinear_arith)
            requires
                z1 == 0,
        ;
        assert(f2(1) == z1 * st2[1]);
        assert(f2(0) == f1(0));
    }
}

/// A unit axis with stride zero preserves well-formedness.
proof fn lemma_unit_axis_wf<A>(
    dat: Seq<A>,
    off: int,
    sh1: Seq<int>,
    st1: Seq<int>,
    sh2: Seq<int>,
    st2: Seq<int>,
    leading: bool,
)
    requires
        parts_wf(dat, off, sh1, st1),
        sh1.len() == 1,
        leading ==> sh2 == seq![1int, sh1[0]] && st2 == seq![0int, st1[0]],
        !leading ==> sh2 == seq![sh1[0], 1int] && st2 == seq![st1[0], 0int],
    ensures
        parts_wf(dat, off, sh2, st2),
        product(sh2) == product(sh1),
{
    let u: int = if leading {
        0
    } else {
        1
    };
    let e: int = 1 - u;
    assert(sh2[u] == 1 && st2[u] == 0 && sh2[e] == sh1[0] && st2[e] == st1[0]);
    // the products agree
    let f1 = |k: int| sh1[k];
    let f2 = |k: int| sh2[k];
    assert(crate::geom::prod(0nat, f1) == 1);
    assert(crate::geom::prod(1nat, f1) == crate::geom::prod(0nat, f1) * f1(0));
    assert(crate::geom::prod(0nat, f2) == 1);
    assert(crate::geom::prod(1nat, f2) == crate::geom::prod(0nat, f2) * f2(0));
    assert(crate::geom::prod(2nat, f2) == crate::geom::prod(1nat, f2) * f2(1));
    assert(product(sh2) == product(sh1)) by (nonlinear_arith)
        requires
            product(sh1) == f1(0),
            product(sh2) == 1 * f2(0) * f2(1),
            leading ==> f2(0) == 1 && f2(1) == f1(0),
            !leading ==> f2(0) == f1(0) && f2(1) == 1,
    ;
    if product(sh2) > 0 {
        // spans agree: the unit axis contributes nothing
        let g1p = |k: int| if st1[k] >= 0 { ext1(sh1[k]) * st1[k] } else { 0 };
        let g2p = |k: int| if st2[k] >= 0 { ext1(sh2[k]) * st2[k] } else { 0 };
        lemma_two_sum(g2p);
        lemma_one_sum(g1p);
        assert(g2p(u) == 0) by {
            assert(ext1(1) == 0);
            assert(0 * st2[u] == 0) by (nonlinear_arith);
        }
        assert(g2p(e) == g1p(0));
        assert(pos_span(sh2, st2) == pos_span(sh1, st1));
        let g1n = |k: int| if st1[k] < 0 { ext1(sh1[k]) * st1[k] } else { 0 };
        let g2n = |k: int| if st2[k] < 0 { ext1(sh2[k]) * st2[k] } else { 0 };
        lemma_two_sum(g2n);
        lemma_one_sum(g1n);
        assert(g2n(u) == 0);
        assert(g2n(e) == g1n(0));
        assert(neg_span(sh2, st2) == neg_span(sh1, st1));
        let g1s = |k: int| if k >= 0 { ext1(sh1[k]) * abs(st1[k]) } else { 0 };
        let g2s = |k: int| if k >= 0 { ext1(sh2[k]) * abs(st2[k]) } else { 0 };
        lemma_two_sum(g2s);
        lemma_one_sum(g1s);
        assert(g2s(u) == 0) by {
            assert(ext1(1) * abs(st2[u]) == 0) by (nonlinear_arith)
                requires
                    ext1(1) == 0,
            ;
        }
        assert(g2s(e) == g1s(0));
        assert(span_from(sh2, st2, 0) == span_from(sh1, st1, 0));
        // dominance: the unit axis is exempt and contributes nothing
        assert forall|i: int| 0 <= i < 2 && sh2[i] >= 2 implies abs(st2[i]) > #[trigger] dom_sum(
            sh2,
            st2,
            i,
        ) by {
            assert(i == e);
            let d2 = |k: int| crate::geom::dom_term(sh2, st2, i, k);
            lemma_two_sum(d2);
            assert(d2(u) == 0);
            assert(d2(e) == 0);
            let d1 = |k: int| crate::geom::dom_term(sh1, st1, 0, k);
            lemma_one_sum(d1);
            assert(d1(0) == 0);
            assert(abs(st1[0]) > dom_sum(sh1, st1, 0));
        }
    }
}

/// Unfolds a two-term sum.
proof fn lemma_two_sum(f: spec_fn(int) -> int)
    ensures
        crate::geom::sum(2nat, f) == f(0) + f(1),
{
    assert(crate::geom::sum(0nat, f) == 0);
    assert(crate::geom::sum(1nat, f) == crate::geom::sum(0nat, f) + f(0));
    assert(crate::geom::sum(2nat, f) == crate::geom::sum(1nat, f) + f(1));
}

/// Unfolds a one-term sum.
proof fn lemma_one_sum(f: spec_fn(int) -> int)
    ensures
        crate::geom::sum(1nat, f) == f(0),
{
    assert(crate::geom::sum(0nat, f) == 0);
    assert(crate::geom::sum(1nat, f) == crate::geom::sum(0nat, f) + f(0));
}

/// Fills the buffer tail: walks the (sorted, exactly tiling) write geometry
/// in lexicographic order, visiting consecutive buffer positions, and pushes
/// a clone of the matching source element for each.  Advancing the buffer
/// length one element per clone is the growth protocol's safety contract.
fn append_write<A: Clone>(
    data: &mut Vec<A>,
    src_data: &Vec<A>,
    src_off: usize,
    src_strides: &Vec<isize>,
    wshape: &Vec<usize>,
    wstrides: &Vec<isize>,
)
    requires
        wshape@.len() == wstrides@.len(),
        wshape@.len() == src_strides@.len(),
        tiled(shape_ints(wshape@), stride_ints(wstrides@)),
        forall|k: int| 0 <= k < wshape@.len() ==> #[trigger] shape_ints(wshape@)[k] >= 1,
        forall|k: int|
            0 <= k < src_strides@.len() ==> abs(#[trigger] stride_ints(src_strides@)[k])
                <= isize::MAX as int,
        src_off as int + neg_span(shape_ints(wshape@), stride_ints(src_strides@)) >= 0,
        src_off as int + pos_span(shape_ints(wshape@), stride_ints(src_strides@))
            < src_data@.len(),
        src_data@.len() <= isize::MAX as int,
        old(data)@.len() + product(shape_ints(wshape@)) <= usize::MAX as int,
    ensures
        final(data)@.len() == old(data)@.len() + product(shape_ints(wshape@)),
        final(data)@.subrange(0, old(data)@.len() as int) == old(data)@,
        forall|jx: Seq<int>|
            #[trigger] valid_index(shape_ints(wshape@), jx) ==> vstd::pervasive::cloned(
                src_data@[src_off as int + offset_of(stride_ints(src_strides@), jx)],
                final(data)@[old(data)@.len() + offset_of(stride_ints(wstrides@), jx)],
            ),
{
    let n = wshape.len();
    let ghost wsh = shape_ints(wshape@);
    let ghost wst = stride_ints(wstrides@);
    let ghost sst = stride_ints(src_strides@);
    let ghost old_len = old(data)@.len() as int;
    let ghost total = product(wsh);
    proof {
        lemma_tiled_dominated(wsh, wst);
        lemma_tiled_span_prod(wsh, wst, 0);
        crate::geom::lemma_prod_from_base(wsh);
        lemma_prod_from_pos(wsh, 0);
        lemma_spans_nonneg(wsh, wst);
        assert(span_from(wsh, wst, 0) == total - 1);
        assert(total >= 1);
    }
    let mut idx: Vec<usize> = Vec::new();
    let mut f: usize = 0;
    while f < n
        invariant
            idx@.len() == f <= n,
            forall|k: int| 0 <= k < f ==> #[trigger] idx@[k] == 0,
        decreases n - f,
    {
        idx.push(0);
        f += 1;
    }
    proof {
        assert forall|k: int|
            0 <= k < n implies 0 <= #[trigger] shape_ints(idx@)[k] < wsh[k] by {
            assert(idx@[k] == 0);
        }
        lemma_offset_zero_index(wst, shape_ints(idx@));
        assert forall|jx: Seq<int>|
            #[trigger] valid_index(wsh, jx) && old_len + offset_of(wst, jx) < data@.len()
                implies vstd::pervasive::cloned(
            src_data@[src_off as int + offset_of(sst, jx)],
            data@[old_len + offset_of(wst, jx)],
        ) by {
            lemma_offset_bounds(wsh, wst, jx);
            lemma_spans_nonneg(wsh, wst);
            assert(offset_of(wst, jx) >= 0);
            assert(false);
        }
    }
    let mut more = true;
    while more
        invariant
            n == wshape@.len() == wstrides@.len() == src_strides@.len() == idx@.len(),
            wsh == shape_ints(wshape@),
            wst == stride_ints(wstrides@),
            sst == stride_ints(src_strides@),
            tiled(wsh, wst),
            dominated(wsh, wst),
            forall|k: int| 0 <= k < n ==> #[trigger] wsh[k] >= 1,
            forall|k: int| 0 <= k < n ==> abs(#[trigger] sst[k]) <= isize::MAX as int,
            src_off as int + neg_span(wsh, sst) >= 0,
            src_off as int + pos_span(wsh, sst) < src_data@.len(),
            src_data@.len() <= isize::MAX as int,
            old_len == old(data)@.len(),
            total == product(wsh),
            span_from(wsh, wst, 0) == total - 1,
            old_len + total <= usize::MAX as int,
            more ==> valid_index(wsh, shape_ints(idx@)),
            more ==> data@.len() == old_len + offset_of(wst, shape_ints(idx@)),
            more ==> 0 <= offset_of(wst, shape_ints(idx@)) <= total - 1,
            !more ==> data@.len() == old_len + total,
            data@.subrange(0, old_len) == old(data)@,
            forall|jx: Seq<int>|
                #[trigger] valid_index(wsh, jx) && old_len + offset_of(wst, jx) < data@.len()
                    ==> vstd::pervasive::cloned(
                    src_data@[src_off as int + offset_of(sst, jx)],
                    data@[old_len + offset_of(wst, jx)],
                ),
        decreases old_len + total - data@.len() + (if more { 1int } else { 0int }),
    {
        let ghost cur = shape_ints(idx@);
        let ghost pre_data = data@;
        let saddr = compute_addr(src_off, wshape, src_strides, &idx);
        let xr = &src_data[saddr];
        let x = xr.clone();
        data.push(x);
        proof {
            assert(data@ == pre_data.push(x));
            assert(data@.subrange(0, old_len) =~= pre_data.subrange(0, old_len));
            assert(vstd::pervasive::cloned(src_data@[saddr as int], x));
            assert(data@[old_len + offset_of(wst, cur)] == x);
            assert forall|jx: Seq<int>|
                #[trigger] valid_index(wsh, jx) && old_len + offset_of(wst, jx) < data@.len()
                    implies vstd::pervasive::cloned(
                src_data@[src_off as int + offset_of(sst, jx)],
                data@[old_len + offset_of(wst, jx)],
            ) by {
                lemma_offset_bounds(wsh, wst, jx);
                lemma_spans_nonneg(wsh, wst);
                if offset_of(wst, jx) < offset_of(wst, cur) {
                    assert(data@[old_len + offset_of(wst, jx)] == pre_data[old_len + offset_of(
                        wst,
                        jx,
                    )]);
                } else {
                    assert(offset_of(wst, jx) == offset_of(wst, cur));
                    if jx != cur {
                        lemma_dominated_injective(wsh, wst, jx, cur);
                    }
                    assert(jx =~= cur);
                }
            }
        }
        let res = next_index(&mut idx, wshape);
        more = res.0;
        proof {
            let nxt = shape_ints(idx@);
            if more {
                let piv = res.1@;
                lemma_step_delta(wsh, wst, cur, nxt, piv);
                assert(wst[piv] == 1 + span_from(wsh, wst, piv + 1)) by {
                    assert(0 <= cur[piv] < wsh[piv]);
                    assert(nxt[piv] == cur[piv] + 1);
                    assert(wsh[piv] >= 2);
                }
                assert(offset_of(wst, nxt) == offset_of(wst, cur) + 1);
                lemma_offset_bounds(wsh, wst, nxt);
                lemma_spans_nonneg(wsh, wst);
            } else {
                lemma_offset_max_index(wsh, wst, cur);
            }
        }
    }
    proof {
        assert forall|jx: Seq<int>| #[trigger] valid_index(wsh, jx) implies vstd::pervasive::cloned(
            src_data@[src_off as int + offset_of(sst, jx)],
            data@[old_len + offset_of(wst, jx)],
        ) by {
            lemma_offset_bounds(wsh, wst, jx);
            lemma_spans_nonneg(wsh, wst);
        }
    }
}

/// A zero-sized append only rewrites the shape, which stays well formed.
proof fn lemma_zero_append_wf<A>(pre: Array<A>, src_sh: Seq<int>, axis: int)
    requires
        pre.wf(),
        0 <= axis < pre.rank(),
        off_axis_match(pre, src_sh, axis),
        product(src_sh) == 0,
        forall|k: int| 0 <= k < src_sh.len() ==> #[trigger] src_sh[k] >= 0,
    ensures
        parts_wf(pre.dat(), pre.off(), grown_shape(pre, src_sh, axis), pre.st()),
{
    let res = grown_shape(pre, src_sh, axis);
    if src_sh[axis] == 0 {
        assert(res =~= pre.sh());
    } else {
        if forall|k: int| 0 <= k < src_sh.len() ==> #[trigger] src_sh[k] >= 1 {
            lemma_prod_from_pos(src_sh, 0);
            crate::geom::lemma_prod_from_base(src_sh);
        }
        let z = choose|k: int| 0 <= k < src_sh.len() && #[trigger] src_sh[k] < 1;
        assert(src_sh[z] == 0);
        assert(z != axis);
        assert(res[z] == pre.sh()[z] == 0);
        lemma_product_zero(res, z);
    }
}

/// Swapping two entries of a shape changes no product.
proof fn lemma_nzprod_swap(s: Seq<int>, axis: int)
    requires
        0 <= axis < s.len(),
    ensures
        nzprod(swapped0(s, axis)) == nzprod(s),
        product(swapped0(s, axis)) == product(s),
{
    let n = s.len() as int;
    let idp = Seq::new(s.len(), |k: int| k);
    crate::geom::lemma_perm_identity(n, idp);
    crate::geom::lemma_perm_swap(n, idp, 0, axis);
    let q = idp.update(0, idp[axis]).update(axis, idp[0]);
    let sw = swapped0(s, axis);
    assert(sw =~= papply(q, s));
    let f = |k: int| crate::geom::nz(s[k]);
    let fp = |k: int| crate::geom::nz(sw[k]);
    assert forall|k: int| 0 <= k < n implies #[trigger] fp(k) == f(q[k]) by {}
    crate::geom::lemma_prod_perm(s.len(), f, fp, q);
    lemma_prod_ext(s.len(), fp, |k: int| crate::geom::nz(sw[k]));
    lemma_prod_ext(s.len(), f, |k: int| crate::geom::nz(s[k]));
    let g = |k: int| s[k];
    let gp = |k: int| sw[k];
    assert forall|k: int| 0 <= k < n implies #[trigger] gp(k) == g(q[k]) by {}
    crate::geom::lemma_prod_perm(s.len(), g, gp, q);
    lemma_prod_ext(s.len(), gp, |k: int| sw[k]);
    lemma_prod_ext(s.len(), g, |k: int| s[k]);
}

/// Each promotion term of a covering array fits comfortably below twice the
/// size limit.
proof fn lemma_promote_term_bound<A>(pre: Array<A>, k: int)
    requires
        pre.wf(),
        pre.size() > 0,
        0 <= k < pre.rank(),
        forall|q: int| 0 <= q < pre.rank() ==> #[trigger] pre.st()[q] >= 0,
    ensures
        0 <= pre.sh()[k] * pre.st()[k] <= 2 * (isize::MAX as int),
        pre.sh()[k] >= 1,
{
    let sh = pre.sh();
    let st = pre.st();
    let n = sh.len();
    pre.lemma_value_ranges();
    lemma_product_pos(sh);
    let post = |j: int| if st[j] >= 0 { ext1(sh[j]) * st[j] } else { 0 };
    assert forall|j: int| 0 <= j < n implies #[trigger] post(j) >= 0 by {
        assert(ext1(sh[j]) * st[j] >= 0) by (nonlinear_arith)
            requires
                ext1(sh[j]) >= 0,
                st[j] >= 0,
        ;
    }
    crate::geom::lemma_sum_ge_single(n, post, k);
    lemma_sum_ext(n, post, |j: int| if st[j] >= 0 { ext1(sh[j]) * st[j] } else { 0 });
    assert(pos_span(sh, st) >= post(k));
    assert(pos_span(sh, st) < pre.buf_len());
    assert(abs(st[k]) <= isize::MAX as int);
    assert(sh[k] * st[k] == (sh[k] - 1) * st[k] + st[k]) by (nonlinear_arith);
    assert((sh[k] - 1) * st[k] >= 0) by (nonlinear_arith)
        requires
            sh[k] >= 1,
            st[k] >= 0,
    ;
}

/// Bounds accumulated by the promotion fold.
proof fn lemma_promote_max_props(sh: Seq<int>, st: Seq<int>, axis: int, k: int)
    requires
        sh.len() == st.len(),
        forall|q: int| 0 <= q < sh.len() ==> #[trigger] sh[q] >= 1,
        forall|q: int| 0 <= q < sh.len() ==> #[trigger] st[q] >= 0,
        0 <= k <= sh.len(),
    ensures
        promote_max(sh, st, axis, k) >= 1,
        forall|j: int|
            0 <= j < k && j != axis ==> promote_max(sh, st, axis, k) >= #[trigger] (sh[j] * st[j]),
    decreases k,
{
    if k > 0 {
        lemma_promote_max_props(sh, st, axis, k - 1);
    }
}

/// The growing axis carries the top stride magnitude of the grown strides,
/// and the grown strides are nonnegative.
proof fn lemma_top_axis<A>(pre: Array<A>, src: Array<A>, axis: int)
    requires
        pre.wf(),
        0 <= axis < pre.rank(),
        forall|k: int| 0 <= k < pre.rank() ==> #[trigger] pre.st()[k] >= 0,
        off_axis_match(pre, src.sh(), axis),
        product(src.sh()) > 0,
        forall|k: int| 0 <= k < src.rank() ==> #[trigger] src.sh()[k] >= 1,
        pre.size() > 0 && pre.sh()[axis] > 1 ==> forall|j: int|
            0 <= j < pre.rank() ==> #[trigger] pre.st()[j] <= pre.st()[axis],
        pre.size() > 0 && pre.sh()[axis] == 1 ==> promote_max(pre.sh(), pre.st(), axis, pre.rank())
            <= isize::MAX as int,
    ensures
        grown_strides(pre, src.sh(), axis).len() == pre.rank(),
        forall|k: int|
            0 <= k < pre.rank() ==> 0 <= #[trigger] grown_strides(pre, src.sh(), axis)[k],
        forall|k: int|
            0 <= k < pre.rank() ==> abs(#[trigger] grown_strides(pre, src.sh(), axis)[k]) <= abs(
                grown_strides(pre, src.sh(), axis)[axis],
            ),
{
    let n = pre.rank();
    let res = grown_shape(pre, src.sh(), axis);
    let gst = grown_strides(pre, src.sh(), axis);
    pre.lemma_value_ranges();
    assert forall|k: int| 0 <= k < n implies #[trigger] res[k] >= 1 by {
        assert(src.sh()[k] >= 1);
        if k != axis {
            assert(pre.sh()[k] == src.sh()[k]);
        } else {
            assert(pre.sh()[k] >= 0);
        }
    }
    if pre.size() == 0 {
        if axis == n - 1 {
            lemma_prod_pre_pos(res, n - 1);
            assert forall|k: int| 0 <= k < n implies 0 <= #[trigger] gst[k] && abs(gst[k]) <= abs(
                gst[axis],
            ) by {
                assert(gst[k] == prod_pre(res, k));
                lemma_prod_pre_pos(res, k);
                assert(prod_pre(res, k) <= prod_pre(res, n - 1));
            }
        } else {
            let sw = swapped0(res, axis);
            assert forall|k: int| 0 <= k < n implies #[trigger] sw[k] >= 1 by {}
            lemma_prod_from_pos(sw, 1);
            assert forall|k: int| 0 <= k < n implies 0 <= #[trigger] gst[k] && abs(gst[k]) <= abs(
                gst[axis],
            ) by {
                let cs = canon(sw);
                assert(gst[axis] == cs[0] && cs[0] == prod_from(sw, 1));
                if k == axis {
                } else if k == 0 {
                    assert(gst[k] == cs[axis] && cs[axis] == prod_from(sw, axis + 1));
                    assert(prod_from(sw, axis + 1) >= 1 && prod_from(sw, 1) >= prod_from(
                        sw,
                        axis + 1,
                    ));
                } else {
                    assert(gst[k] == cs[k] && cs[k] == prod_from(sw, k + 1));
                    assert(prod_from(sw, k + 1) >= 1 && prod_from(sw, 1) >= prod_from(sw, k + 1));
                }
            }
        }
    } else {
        lemma_product_nonneg(pre.sh());
        lemma_product_pos(pre.sh());
        if pre.sh()[axis] == 1 {
            lemma_promote_max_props(pre.sh(), pre.st(), axis, n);
            assert forall|k: int| 0 <= k < n implies 0 <= #[trigger] gst[k] && abs(gst[k]) <= abs(
                gst[axis],
            ) by {
                if k != axis {
                    assert(gst[k] == pre.st()[k]);
                    assert(promote_max(pre.sh(), pre.st(), axis, n) >= pre.sh()[k] * pre.st()[k]);
                    assert(pre.sh()[k] * pre.st()[k] >= pre.st()[k]) by (nonlinear_arith)
                        requires
                            pre.sh()[k] >= 1,
                            pre.st()[k] >= 0,
                    ;
                }
            }
        } else {
            assert(pre.sh()[axis] >= 1);
            assert(pre.sh()[axis] > 1);
            assert forall|k: int| 0 <= k < n implies 0 <= #[trigger] gst[k] && abs(gst[k]) <= abs(
                gst[axis],
            ) by {
                assert(gst[k] == pre.st()[k]);
                assert(pre.st()[k] <= pre.st()[axis]);
            }
        }
    }
}

/// The tail region written by a non-empty append is exactly tiling: its
/// geometry is the grown one with the axis extent shrunk to the source's.
proof fn lemma_tail_exact<A>(pre: Array<A>, src: Array<A>, axis: int)
    requires
        pre.wf(),
        0 <= axis < pre.rank(),
        forall|k: int| 0 <= k < pre.rank() ==> #[trigger] pre.st()[k] >= 0,
        off_axis_match(pre, src.sh(), axis),
        product(src.sh()) > 0,
        forall|k: int| 0 <= k < src.rank() ==> #[trigger] src.sh()[k] >= 1,
        exact(grown_shape(pre, src.sh(), axis), grown_strides(pre, src.sh(), axis)),
        pre.size() > 0 && pre.sh()[axis] > 1 ==> forall|j: int|
            0 <= j < pre.rank() ==> #[trigger] pre.st()[j] <= pre.st()[axis],
        pre.size() > 0 && pre.sh()[axis] == 1 ==> promote_max(pre.sh(), pre.st(), axis, pre.rank())
            <= isize::MAX as int,
    ensures
        exact(src.sh(), grown_strides(pre, src.sh(), axis)),
{
    let res = grown_shape(pre, src.sh(), axis);
    let gst = grown_strides(pre, src.sh(), axis);
    pre.lemma_value_ranges();
    lemma_top_axis(pre, src, axis);
    if res[axis] >= 2 {
        lemma_exact_change_extent(res, gst, axis, src.sh()[axis]);
        assert(res.update(axis, src.sh()[axis]) =~= src.sh());
    } else {
        assert(res[axis] == 1);
        assert(pre.sh()[axis] == 0 && src.sh()[axis] == 1);
        assert(res =~= src.sh());
    }
}

/// A rank-one exact view with a nonnegative stride is tiled.
proof fn lemma_rank1_tiled(sh: Seq<int>, st: Seq<int>)
    requires
        sh.len() == st.len(),
        sh.len() <= 1,
        exact(sh, st),
        forall|k: int| 0 <= k < st.len() ==> #[trigger] st[k] >= 0,
    ensures
        tiled(sh, st),
{
    if sh.len() == 1 && sh[0] >= 2 {
        let zero: int = 0;
        assert(dom_sum(sh, st, zero) == 0) by {
            let f = |k: int| crate::geom::dom_term(sh, st, zero, k);
            assert(crate::geom::sum(0nat, f) == 0);
            assert(crate::geom::sum(1nat, f) == crate::geom::sum(0nat, f) + f(0));
            assert(f(0) == 0);
        }
        let one: int = 1;
        assert(span_from(sh, st, one) == 0) by {
            let g = |k: int| if k >= one { ext1(sh[k]) * abs(st[k]) } else { 0 };
            assert(crate::geom::sum(0nat, g) == 0);
            assert(crate::geom::sum(1nat, g) == crate::geom::sum(0nat, g) + g(0));
            assert(g(0) == 0);
        }
        assert(abs(st[0]) == st[0]);
    }
}

/// Growth adds exactly the source's element count.
proof fn lemma_append_sizes<A>(pre: Array<A>, src: Array<A>, axis: int)
    requires
        0 <= axis < pre.rank(),
        off_axis_match(pre, src.sh(), axis),
    ensures
        product(grown_shape(pre, src.sh(), axis)) == pre.size() + product(src.sh()),
        product(grown_shape(pre, src.sh(), axis).remove(axis)) == product(pre.sh().remove(axis)),
        product(src.sh().remove(axis)) == product(pre.sh().remove(axis)),
{
    let res = grown_shape(pre, src.sh(), axis);
    lemma_product_remove_axis(res, axis);
    lemma_product_remove_axis(pre.sh(), axis);
    lemma_product_remove_axis(src.sh(), axis);
    assert(res.remove(axis) =~= pre.sh().remove(axis));
    assert(src.sh().remove(axis) =~= pre.sh().remove(axis));
    let p = product(pre.sh().remove(axis));
    assert((pre.sh()[axis] + src.sh()[axis]) * p == pre.sh()[axis] * p + src.sh()[axis] * p)
        by (nonlinear_arith);
    assert(product(res) == p * res[axis] == res[axis] * p) by (nonlinear_arith)
        requires
            product(res) == product(res.remove(axis)) * res[axis],
            product(res.remove(axis)) == p,
    ;
    assert(pre.size() == p * pre.sh()[axis] == pre.sh()[axis] * p) by (nonlinear_arith)
        requires
            pre.size() == product(pre.sh().remove(axis)) * pre.sh()[axis],
            product(pre.sh().remove(axis)) == p,
    ;
    assert(product(src.sh()) == p * src.sh()[axis] == src.sh()[axis] * p) by (nonlinear_arith)
        requires
            product(src.sh()) == product(src.sh().remove(axis)) * src.sh()[axis],
            product(src.sh().remove(axis)) == p,
    ;
}

/// A covering array that admits exactly-tiling grown strides was itself
/// exactly tiling, and started at the buffer base.
proof fn lemma_pre_exact<A>(pre: Array<A>, src: Array<A>, axis: int)
    requires
        pre.wf(),
        0 <= axis < pre.rank(),
        forall|k: int| 0 <= k < pre.rank() ==> #[trigger] pre.st()[k] >= 0,
        off_axis_match(pre, src.sh(), axis),
        product(src.sh()) > 0,
        forall|k: int| 0 <= k < src.rank() ==> #[trigger] src.sh()[k] >= 1,
        exact(grown_shape(pre, src.sh(), axis), grown_strides(pre, src.sh(), axis)),
        pre.size() > 0 && pre.sh()[axis] > 1 ==> forall|j: int|
            0 <= j < pre.rank() ==> #[trigger] pre.st()[j] <= pre.st()[axis],
        pre.size() > 0 && pre.sh()[axis] == 1 ==> promote_max(pre.sh(), pre.st(), axis, pre.rank())
            <= isize::MAX as int,
        pre.size() > 0,
        pre.size() == pre.buf_len(),
    ensures
        exact(pre.sh(), pre.st()),
        pre.off() == 0,
        span_from(pre.sh(), pre.st(), 0) == pre.size() - 1,
{
    let n = pre.rank();
    let res = grown_shape(pre, src.sh(), axis);
    let gst = grown_strides(pre, src.sh(), axis);
    pre.lemma_value_ranges();
    lemma_top_axis(pre, src, axis);
    lemma_product_pos(pre.sh());
    assert(res[axis] >= 2) by {
        assert(pre.sh()[axis] >= 1 && src.sh()[axis] >= 1);
    }
    lemma_exact_change_extent(res, gst, axis, pre.sh()[axis]);
    assert(res.update(axis, pre.sh()[axis]) =~= pre.sh());
    assert(exact(pre.sh(), gst));
    if pre.sh()[axis] == 1 {
        // the promoted stride sits on an extent-one axis, which exactness
        // never inspects
        assert forall|k: int|
            0 <= k < n && pre.sh()[k] >= 2 implies abs(pre.st()[k]) == 1 + #[trigger] dom_sum(
            pre.sh(),
            pre.st(),
            k,
        ) by {
            let f1 = |m: int| crate::geom::dom_term(pre.sh(), pre.st(), k, m);
            let f2 = |m: int| crate::geom::dom_term(pre.sh(), gst, k, m);
            assert forall|m: int| 0 <= m < n implies #[trigger] f1(m) == f2(m) by {
                if m != axis {
                    assert(gst[m] == pre.st()[m]);
                    assert(gst[k] == pre.st()[k]);
                }
            }
            lemma_sum_ext(n as nat, f1, f2);
            assert(dom_sum(pre.sh(), pre.st(), k) == dom_sum(pre.sh(), gst, k));
            assert(gst[k] == pre.st()[k]);
            assert(abs(gst[k]) == 1 + dom_sum(pre.sh(), gst, k));
        }
    } else {
        assert(gst =~= pre.st());
    }
    lemma_exact_span_prod(pre.sh(), pre.st());
    lemma_spans_nonneg(pre.sh(), pre.st());
    crate::geom::lemma_prod_from_base(pre.sh());
    assert(pre.off() + pos_span(pre.sh(), pre.st()) < pre.buf_len());
    assert(pre.off() == 0);
}

/// The grown strides of extent-one axes stay within one past the grown
/// span.
proof fn lemma_gst_len1<A>(pre: Array<A>, src: Array<A>, axis: int)
    requires
        pre.wf(),
        0 <= axis < pre.rank(),
        forall|k: int| 0 <= k < pre.rank() ==> #[trigger] pre.st()[k] >= 0,
        off_axis_match(pre, src.sh(), axis),
        product(src.sh()) > 0,
        forall|k: int| 0 <= k < src.rank() ==> #[trigger] src.sh()[k] >= 1,
        exact(grown_shape(pre, src.sh(), axis), grown_strides(pre, src.sh(), axis)),
    ensures
        forall|k: int|
            0 <= k < pre.rank() && grown_shape(pre, src.sh(), axis)[k] == 1 ==> abs(
                #[trigger] grown_strides(pre, src.sh(), axis)[k],
            ) <= span_from(grown_shape(pre, src.sh(), axis), grown_strides(pre, src.sh(), axis), 0) + 1,
        span_from(grown_shape(pre, src.sh(), axis), grown_strides(pre, src.sh(), axis), 0) == product(
            grown_shape(pre, src.sh(), axis),
        ) - 1,
{
    let n = pre.rank();
    let res = grown_shape(pre, src.sh(), axis);
    let gst = grown_strides(pre, src.sh(), axis);
    pre.lemma_value_ranges();
    assert forall|k: int| 0 <= k < n implies #[trigger] res[k] >= 1 by {
        assert(src.sh()[k] >= 1);
        if k != axis {
            assert(pre.sh()[k] == src.sh()[k]);
        } else {
            assert(pre.sh()[k] >= 0);
        }
    }
    lemma_exact_span_prod(res, gst);
    assert forall|k: int| 0 <= k < n && res[k] == 1 implies abs(#[trigger] gst[k]) <= span_from(
        res,
        gst,
        0,
    ) + 1 by {
        if pre.size() == 0 {
            if axis == n - 1 {
                assert(gst[k] == prod_pre(res, k));
                lemma_prod_pre_pos(res, n as int);
                crate::geom::lemma_prod_ext(
                    n as nat,
                    |m: int| if m < n { res[m] } else { 1 },
                    |m: int| res[m],
                );
                assert(prod_pre(res, k) <= prod_pre(res, n as int));
            } else {
                let sw = swapped0(res, axis);
                assert forall|m: int| 0 <= m < n implies #[trigger] sw[m] >= 1 by {}
                lemma_prod_from_pos(sw, 0);
                crate::geom::lemma_prod_from_base(sw);
                lemma_nzprod_swap(res, axis);
                let cs = canon(sw);
                if k == axis {
                    assert(gst[k] == cs[0] && cs[0] == prod_from(sw, 1));
                    assert(prod_from(sw, 0) >= prod_from(sw, 1));
                } else if k == 0 {
                    assert(gst[k] == cs[axis] && cs[axis] == prod_from(sw, axis + 1));
                    assert(prod_from(sw, 0) >= prod_from(sw, axis + 1));
                } else {
                    assert(gst[k] == cs[k] && cs[k] == prod_from(sw, k + 1));
                    assert(prod_from(sw, 0) >= prod_from(sw, k + 1));
                }
            }
        } else {
            lemma_product_nonneg(pre.sh());
            lemma_product_pos(pre.sh());
            assert(k != axis) by {
                assert(res[axis] == pre.sh()[axis] + src.sh()[axis] >= 2);
            }
            assert(gst[k] == pre.st()[k]);
            assert(pre.sh()[k] == 1);
            assert(abs(pre.st()[k]) <= span_from(pre.sh(), pre.st(), 0) + 1);
            // the span only grows with the extents
            let f1 = |j: int| if j >= 0 { ext1(pre.sh()[j]) * abs(pre.st()[j]) } else { 0 };
            let f2 = |j: int| if j >= 0 { ext1(res[j]) * abs(gst[j]) } else { 0 };
            assert forall|j: int| 0 <= j < n implies #[trigger] f1(j) <= f2(j) by {
                if j != axis {
                    assert(res[j] == pre.sh()[j] && gst[j] == pre.st()[j]);
                } else {
                    if pre.sh()[axis] == 1 {
                        assert(ext1(pre.sh()[j]) == 0);
                        assert(0 * abs(pre.st()[j]) == 0) by (nonlinear_arith);
                        assert(ext1(res[j]) * abs(gst[j]) >= 0) by (nonlinear_arith)
                            requires
                                ext1(res[j]) >= 0,
                                abs(gst[j]) >= 0,
                        ;
                    } else {
                        assert(gst[j] == pre.st()[j]);
                        assert(ext1(pre.sh()[j]) * abs(pre.st()[j]) <= ext1(res[j]) * abs(gst[j]))
                            by (nonlinear_arith)
                            requires
                                0 <= ext1(pre.sh()[j]) <= ext1(res[j]),
                                abs(gst[j]) == abs(pre.st()[j]),
                                abs(gst[j]) >= 0,
                        ;
                    }
                }
            }
            crate::geom::lemma_sum_le(n as nat, f1, f2);
        }
    }
}

/// Everything a finished non-empty append guarantees, assembled from the
/// validation facts and the write walk's postcondition.
proof fn lemma_append_final<A: Clone>(
    pre: Array<A>,
    src: Array<A>,
    axis: int,
    post: Array<A>,
    p: Seq<int>,
    old_len: int,
)
    requires
        pre.wf(),
        src.wf(),
        0 <= axis < pre.rank(),
        forall|k: int| 0 <= k < pre.rank() ==> #[trigger] pre.st()[k] >= 0,
        off_axis_match(pre, src.sh(), axis),
        product(src.sh()) > 0,
        forall|k: int| 0 <= k < src.rank() ==> #[trigger] src.sh()[k] >= 1,
        exact(grown_shape(pre, src.sh(), axis), grown_strides(pre, src.sh(), axis)),
        pre.size() > 0 && pre.sh()[axis] > 1 ==> forall|j: int|
            0 <= j < pre.rank() ==> #[trigger] pre.st()[j] <= pre.st()[axis],
        pre.size() > 0 && pre.sh()[axis] == 1 ==> promote_max(pre.sh(), pre.st(), axis, pre.rank())
            <= isize::MAX as int,
        pre.size() == pre.buf_len(),
        old_len == pre.dat().len(),
        product(grown_shape(pre, src.sh(), axis)) <= isize::MAX as int,
        is_perm(pre.rank(), p),
        post.sh() == grown_shape(pre, src.sh(), axis),
        post.st() == grown_strides(pre, src.sh(), axis),
        post.off() == 0,
        post.dat().len() == old_len + product(src.sh()),
        post.dat().subrange(0, old_len) == pre.dat(),
        forall|jx: Seq<int>|
            #[trigger] valid_index(papply(p, src.sh()), jx) ==> vstd::pervasive::cloned(
                src.dat()[src.off() + offset_of(papply(p, src.st()), jx)],
                post.dat()[old_len + offset_of(papply(p, grown_strides(pre, src.sh(), axis)), jx)],
            ),
    ensures
        append_ok(pre, src, axis, post),
{
    let n = pre.rank();
    let res = grown_shape(pre, src.sh(), axis);
    let gst = grown_strides(pre, src.sh(), axis);
    pre.lemma_value_ranges();
    lemma_top_axis(pre, src, axis);
    lemma_append_sizes(pre, src, axis);
    lemma_gst_len1(pre, src, axis);
    lemma_exact_dominated(res, gst);
    lemma_spans_nonneg(res, gst);
    assert forall|k: int| 0 <= k < n implies #[trigger] res[k] >= 1 by {
        assert(src.sh()[k] >= 1);
        if k != axis {
            assert(pre.sh()[k] == src.sh()[k]);
        } else {
            assert(pre.sh()[k] >= 0);
        }
    }
    // well-formedness of the grown array
    assert forall|k: int| 0 <= k < n implies abs(#[trigger] gst[k]) <= isize::MAX as int by {
        if res[k] >= 2 {
            crate::geom::lemma_dom_sum_le_span(res, gst, k);
            assert(abs(gst[k]) == 1 + dom_sum(res, gst, k));
        } else {
            assert(res[k] == 1);
            assert(abs(gst[k]) <= span_from(res, gst, 0) + 1);
        }
    }
    assert(parts_wf(post.dat(), post.off(), post.sh(), post.st()));
    // elements already present keep their logical places
    if pre.size() > 0 {
        lemma_pre_exact(pre, src, axis);
    }
    assert forall|ix: Seq<int>|
        #[trigger] valid_index(post.sh(), ix) && ix[axis] < pre.sh()[axis] implies post.elem(ix)
        == pre.elem(ix) by {
        assert forall|k: int| 0 <= k < n implies 0 <= #[trigger] ix[k] < pre.sh()[k] by {
            if k != axis {
                assert(res[k] == pre.sh()[k]);
            }
        }
        assert(valid_index(pre.sh(), ix));
        pre.lemma_addr_in_bounds(ix);
        assert(offset_of(gst, ix) == offset_of(pre.st(), ix)) by {
            if pre.size() > 0 && pre.sh()[axis] == 1 {
                crate::geom::lemma_offset_stride_update(pre.st(), ix, axis, gst[axis]);
                assert(gst =~= pre.st().update(axis, gst[axis]));
                assert(ix[axis] == 0);
                assert(0 * (gst[axis] - pre.st()[axis]) == 0) by (nonlinear_arith);
            } else {
                assert(gst =~= pre.st());
            }
        }
        assert(post.elem(ix) == post.dat()[offset_of(gst, ix)]);
        assert(post.dat()[offset_of(gst, ix)] == pre.dat()[offset_of(pre.st(), ix)]) by {
            assert(0 <= pre.addr(ix) < old_len);
            assert(pre.off() == 0);
            assert(post.dat().subrange(0, old_len)[offset_of(pre.st(), ix)] == post.dat()[
                offset_of(pre.st(), ix)]);
        }
    }
    // the tail holds clones of the source, in logical order
    assert forall|ix: Seq<int>|
        #[trigger] valid_index(post.sh(), ix) && ix[axis] >= pre.sh()[axis]
        implies vstd::pervasive::cloned(
        src.elem(ix.update(axis, ix[axis] - pre.sh()[axis])),
        post.elem(ix),
    ) by {
        let iv = ix.update(axis, ix[axis] - pre.sh()[axis]);
        assert forall|k: int| 0 <= k < n implies 0 <= #[trigger] iv[k] < src.sh()[k] by {
            if k != axis {
                assert(res[k] == pre.sh()[k] && pre.sh()[k] == src.sh()[k]);
            } else {
                assert(ix[axis] < res[axis]);
            }
        }
        assert(valid_index(src.sh(), iv));
        assert(ix =~= iv.update(axis, ix[axis]));
        crate::geom::lemma_offset_update(gst, iv, axis, ix[axis]);
        assert(offset_of(gst, ix) == offset_of(gst, iv) + (ix[axis] - iv[axis]) * gst[axis]);
        assert(ix[axis] - iv[axis] == pre.sh()[axis]);
        assert(pre.sh()[axis] * gst[axis] == old_len) by {
            if pre.sh()[axis] == 0 {
                assert(0 * gst[axis] == 0) by (nonlinear_arith);
                assert(pre.size() == 0) by {
                    lemma_product_zero(pre.sh(), axis);
                }
            } else {
                assert(res[axis] >= 2);
                lemma_exact_top_stride(res, gst, axis);
                assert(abs(gst[axis]) == product(res.remove(axis)));
                assert(gst[axis] == product(pre.sh().remove(axis)));
                lemma_product_remove_axis(pre.sh(), axis);
                assert(pre.sh()[axis] * gst[axis] == product(pre.sh().remove(axis))
                    * pre.sh()[axis]) by (nonlinear_arith)
                    requires
                        gst[axis] == product(pre.sh().remove(axis)),
                ;
            }
        }
        let jx = papply(p, iv);
        lemma_perm_valid(p, src.sh(), iv);
        lemma_perm_offset(p, gst, iv);
        lemma_perm_offset(p, src.st(), iv);
        assert(vstd::pervasive::cloned(
            src.dat()[src.off() + offset_of(papply(p, src.st()), jx)],
            post.dat()[old_len + offset_of(papply(p, gst), jx)],
        ));
        assert(src.elem(iv) == src.dat()[src.off() + offset_of(src.st(), iv)]);
        assert(post.elem(ix) == post.dat()[old_len + offset_of(gst, iv)]);
    }
}

} // verus!
