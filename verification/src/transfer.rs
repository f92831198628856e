//! Ownership transfer with unreachable-element collection: move every
//! element reachable through the view into a destination of the same shape,
//! then collect the buffer positions never visible through the view.

use vstd::prelude::*;

use crate::array::Array;
use crate::geom::{
    abs, canon, descending, dom_sum, dominated, exact, ext1, is_perm, lemma_canon_tiled,
    lemma_dominated_injective, lemma_offset_bounds, lemma_offset_max_index,
    lemma_offset_zero_index, lemma_perm_geometry, lemma_perm_offset, lemma_perm_valid,
    lemma_prod_from_pos, lemma_product_pos, lemma_product_zero, lemma_span_term_bounds, lemma_spans_nonneg,
    lemma_step_delta, lemma_sum_ext, lemma_sum_le, lemma_tiled_dominated, lemma_tiled_span_prod,
    neg_span, offset_of, papply, pos_span, product, span_from, tiled, valid_index,
};
use crate::sorting::sort_axes_to_standard_order_tandem;
use crate::walk::{compute_addr, copy_isizes, copy_usizes, prev_index, shape_ints, stride_ints};

verus! {

/// A descending-stride dominated view steps its address down by at least one
/// across a reverse lexicographic step.
proof fn lemma_desc_dom_step(sh: Seq<int>, st: Seq<int>, i: int)
    requires
        sh.len() == st.len(),
        forall|k: int| 0 <= k < st.len() ==> #[trigger] st[k] >= 0,
        descending(st),
        dominated(sh, st),
        0 <= i < sh.len(),
        sh[i] >= 2,
    ensures
        span_from(sh, st, i + 1) < st[i],
{
    let n = sh.len();
    let di = |k: int| crate::geom::dom_term(sh, st, i, k);
    let suf = |k: int| if k >= i + 1 { ext1(sh[k]) * abs(st[k]) } else { 0 };
    assert forall|k: int| 0 <= k < n implies #[trigger] suf(k) <= di(k) by {
        if k >= i + 1 {
            if sh[k] >= 2 {
                assert(st[k] <= st[i]);
                assert(abs(st[k]) <= abs(st[i]));
                assert(ext1(sh[k]) == sh[k] - 1);
            } else {
                assert(ext1(sh[k]) == 0);
                assert(0 * abs(st[k]) == 0) by (nonlinear_arith);
                crate::geom::lemma_dom_term_nonneg(sh, st, i);
            }
        } else {
            crate::geom::lemma_dom_term_nonneg(sh, st, i);
        }
    }
    lemma_sum_le(n, suf, di);
    assert(abs(st[i]) == st[i]);
    assert(abs(st[i]) > dom_sum(sh, st, i));
}

/// A strictly lower canonical rank means a strictly lower address under the
/// sorted dominated strides: the walk meets lower-ranked indices at lower
/// buffer positions.
proof fn lemma_rank_below(wsh: Seq<int>, wst: Seq<int>, cw: Seq<int>, a: Seq<int>, b: Seq<int>)
    requires
        wsh.len() == wst.len(),
        wsh.len() == cw.len(),
        forall|k: int| 0 <= k < wst.len() ==> #[trigger] wst[k] >= 0,
        descending(wst),
        dominated(wsh, wst),
        forall|k: int| 0 <= k < cw.len() ==> #[trigger] cw[k] >= 0,
        descending(cw),
        dominated(wsh, cw),
        valid_index(wsh, a),
        valid_index(wsh, b),
        offset_of(cw, a) < offset_of(cw, b),
    ensures
        offset_of(wst, a) < offset_of(wst, b),
{
    if forall|k: int| 0 <= k < wsh.len() ==> a[k] == #[trigger] b[k] {
        assert(a =~= b);
    }
    let i = crate::geom::lemma_first_diff(a, b, wsh.len() as int);
    if a[i] < b[i] {
        crate::geom::lemma_first_diff_order(wsh, wst, a, b, i);
    } else {
        crate::geom::lemma_first_diff_order(wsh, cw, b, a, i);
    }
}

/// The index with every flagged coordinate mirrored within its axis: the
/// same point of the view after the flagged axes reverse direction.
pub open spec fn flip_ix(fl: Seq<bool>, sh: Seq<int>, ix: Seq<int>) -> Seq<int> {
    Seq::new(ix.len(), |k: int| if fl[k] { sh[k] - 1 - ix[k] } else { ix[k] })
}

/// Mirroring flagged coordinates preserves validity, and doing it twice
/// gives the index back.
proof fn lemma_flip_ix_props(fl: Seq<bool>, sh: Seq<int>, ix: Seq<int>)
    requires
        valid_index(sh, ix),
    ensures
        valid_index(sh, flip_ix(fl, sh, ix)),
        flip_ix(fl, sh, flip_ix(fl, sh, ix)) == ix,
{
    assert forall|k: int|
        0 <= k < sh.len() implies 0 <= #[trigger] flip_ix(fl, sh, ix)[k] < sh[k] by {
        assert(0 <= ix[k] < sh[k]);
    }
    assert(flip_ix(fl, sh, flip_ix(fl, sh, ix)) =~= ix);
}

impl<A> Array<A> {
    /// Move every element visible through this array into `new_array`, which
    /// must have exactly the same shape (its memory layout may differ).  The
    /// destination's viewed slots are overwritten completely; the rest of its
    /// buffer is untouched.
    ///
    /// Every buffer position of this array that no valid index reaches — a
    /// hole left by earlier slicing — is collected and returned, in ascending
    /// order: exactly `buffer length - element count` positions, each
    /// destroyed once and none of them reachable through the view.  Reversed
    /// axes are first reinterpreted as forward ones (no element moves); the
    /// walk then visits the view's addresses in descending address order,
    /// releasing each element exactly once.
    pub fn move_into(self, new_array: &mut Array<A>) -> (holes: Vec<usize>)
        requires
            self.wf(),
            old(new_array).wf(),
            self.sh() == old(new_array).sh(),
        ensures
            final(new_array).sh() == old(new_array).sh(),
            final(new_array).st() == old(new_array).st(),
            final(new_array).off() == old(new_array).off(),
            final(new_array).dat().len() == old(new_array).dat().len(),
            final(new_array).wf(),
            forall|ix: Seq<int>|
                #[trigger] valid_index(self.sh(), ix) ==> final(new_array).elem(ix) == self.elem(
                    ix,
                ),
            forall|pp: int|
                0 <= pp < old(new_array).buf_len() && !(exists|ix: Seq<int>|
                    #[trigger] valid_index(self.sh(), ix) && old(new_array).addr(ix) == pp)
                    ==> final(new_array).dat()[pp] == old(new_array).dat()[pp],
            holes@.len() as int == self.buf_len() - self.size(),
            forall|a: int, b: int| 0 <= a < b < holes@.len() ==> #[trigger] holes@[a] < #[trigger] holes@[b],
            forall|a: int| 0 <= a < holes@.len() ==> (#[trigger] holes@[a] as int) < self.buf_len(),
            forall|a: int|
                0 <= a < holes@.len() ==> !(exists|ix: Seq<int>|
                    valid_index(self.sh(), ix) && self.addr(ix) == #[trigger] holes@[a] as int),
    {
        let ghost src0 = self;
        let ghost dst0 = *new_array;
        proof {
            src0.lemma_repr();
            src0.lemma_value_ranges();
            dst0.lemma_repr();
            dst0.lemma_value_ranges();
        }
        let n = self.shape.len();
        // does any axis have extent zero?
        let mut z: usize = 0;
        let mut empty = false;
        while z < n
            invariant
                0 <= z <= n,
                n == self.shape@.len(),
                self == src0,
                src0.sh() == shape_ints(self.shape@),
                forall|k: int| 0 <= k < n ==> #[trigger] src0.sh()[k] == self.shape@[k] as int,
                empty <==> exists|k: int| 0 <= k < z && #[trigger] src0.sh()[k] == 0,
            decreases n - z,
        {
            if self.shape[z] == 0 {
                empty = true;
                proof {
                    assert(src0.sh()[z as int] == 0);
                }
            } else {
                proof {
                    assert(src0.sh()[z as int] != 0);
                }
            }
            z += 1;
        }
        if empty {
            proof {
                let w = choose|k: int| 0 <= k < n && #[trigger] src0.sh()[k] == 0;
                lemma_product_zero(src0.sh(), w);
                assert forall|ix: Seq<int>| !valid_index(src0.sh(), ix) by {
                    if valid_index(src0.sh(), ix) {
                        let w2 = choose|k: int| 0 <= k < n && #[trigger] src0.sh()[k] == 0;
                        assert(0 <= ix[w2] < src0.sh()[w2]);
                    }
                }
            }
            proof {
                assert forall|ix: Seq<int>| !(valid_index(src0.sh(), ix)) by {}
            }
            // every buffer slot is unreachable: collect them all
            let mut holes: Vec<usize> = Vec::new();
            let mut i: usize = 0;
            let blen = self.data.len();
            while i < blen
                invariant
                    0 <= i <= blen,
                    holes@.len() == i,
                    forall|a: int| 0 <= a < i ==> #[trigger] holes@[a] == a,
                decreases blen - i,
            {
                holes.push(i);
                i += 1;
            }
            return holes;
        }
        proof {
            assert forall|k: int| 0 <= k < n implies #[trigger] src0.sh()[k] >= 1 by {}
            lemma_prod_from_pos(src0.sh(), 0);
            crate::geom::lemma_prod_from_base(src0.sh());
        }
        // reverse every backwards source axis, reinterpreting its direction
        // (no element moves), and mirror the destination's axis in tandem so
        // the two views keep pairing the same points
        let ghost sh0 = src0.sh();
        let ghost total = product(src0.sh());
        let mut sshape = copy_usizes(&self.shape);
        let mut sstrides = copy_isizes(&self.strides);
        let mut dshape = copy_usizes(&new_array.shape);
        let mut dstrides = copy_isizes(&new_array.strides);
        let mut soff = self.offset;
        let mut doff = new_array.offset;
        proof {
            assert(sshape@.len() == n && sstrides@.len() == n);
            assert(dshape@.len() == n && dstrides@.len() == n) by {
                assert(dst0.sh().len() == src0.sh().len());
                assert(dst0.sh().len() == dst0.st().len());
            }
            assert(shape_ints(dshape@) =~= sh0);
        }
        let ghost mut fl: Seq<bool> = Seq::new(n as nat, |k: int| false);
        let mut z2: usize = 0;
        proof {
            assert forall|ix: Seq<int>|
                #[trigger] valid_index(sh0, ix) implies soff as int + offset_of(
                stride_ints(sstrides@),
                flip_ix(fl, sh0, ix),
            ) == src0.addr(ix) && doff as int + offset_of(
                stride_ints(dstrides@),
                flip_ix(fl, sh0, ix),
            ) == dst0.addr(ix) by {
                assert(flip_ix(fl, sh0, ix) =~= ix);
                lemma_sum_ext(
                    n as nat,
                    |k: int| flip_ix(fl, sh0, ix)[k] * stride_ints(sstrides@)[k],
                    |k: int| ix[k] * src0.st()[k],
                );
                lemma_sum_ext(
                    n as nat,
                    |k: int| flip_ix(fl, sh0, ix)[k] * stride_ints(dstrides@)[k],
                    |k: int| ix[k] * dst0.st()[k],
                );
            }
        }
        while z2 < n
            invariant
                0 <= z2 <= n,
                n == sshape@.len() == sstrides@.len() == dshape@.len() == dstrides@.len(),
                n == self.shape@.len() && n == self.strides@.len(),
                n == src0.rank() && n == dst0.rank(),
                self == src0,
                sh0 == src0.sh() && src0.sh() == dst0.sh(),
                src0.wf() && dst0.wf(),
                total == product(sh0) && total > 0,
                forall|k: int| 0 <= k < n ==> #[trigger] sh0[k] >= 1,
                forall|k: int| 0 <= k < n ==> #[trigger] sh0[k] == self.shape@[k] as int,
                forall|k: int| 0 <= k < n ==> #[trigger] src0.st()[k] == self.strides@[k] as int,
                shape_ints(sshape@) == sh0,
                shape_ints(dshape@) == sh0,
                fl.len() == n,
                forall|k: int| 0 <= k < n ==> #[trigger] fl[k] == (k < z2 && src0.st()[k] < 0),
                forall|k: int|
                    0 <= k < n ==> #[trigger] stride_ints(sstrides@)[k] == (if fl[k] {
                        -src0.st()[k]
                    } else {
                        src0.st()[k]
                    }),
                forall|k: int|
                    0 <= k < n ==> #[trigger] stride_ints(dstrides@)[k] == (if fl[k] {
                        -dst0.st()[k]
                    } else {
                        dst0.st()[k]
                    }),
                forall|k: int| 0 <= k < z2 ==> #[trigger] stride_ints(sstrides@)[k] >= 0,
                soff as int + pos_span(sh0, stride_ints(sstrides@)) == src0.off() + pos_span(
                    sh0,
                    src0.st(),
                ),
                soff as int + neg_span(sh0, stride_ints(sstrides@)) == src0.off() + neg_span(
                    sh0,
                    src0.st(),
                ),
                doff as int + pos_span(sh0, stride_ints(dstrides@)) == dst0.off() + pos_span(
                    sh0,
                    dst0.st(),
                ),
                doff as int + neg_span(sh0, stride_ints(dstrides@)) == dst0.off() + neg_span(
                    sh0,
                    dst0.st(),
                ),
                dominated(sh0, stride_ints(sstrides@)),
                dominated(sh0, stride_ints(dstrides@)),
                forall|ix: Seq<int>|
                    #[trigger] valid_index(sh0, ix) ==> soff as int + offset_of(
                        stride_ints(sstrides@),
                        flip_ix(fl, sh0, ix),
                    ) == src0.addr(ix) && doff as int + offset_of(
                        stride_ints(dstrides@),
                        flip_ix(fl, sh0, ix),
                    ) == dst0.addr(ix),
            decreases n - z2,
        {
            let s = self.strides[z2];
            if s < 0 {
                let ghost flo = fl;
                let ghost ssto = stride_ints(sstrides@);
                let ghost dsto = stride_ints(dstrides@);
                proof {
                    assert(ssto[z2 as int] == src0.st()[z2 as int]);
                    assert(abs(src0.st()[z2 as int]) <= isize::MAX as int);
                    lemma_span_term_bounds(sh0, ssto, z2 as int);
                    assert(src0.off() + neg_span(sh0, src0.st()) >= 0);
                    assert(ext1(sh0[z2 as int]) == sh0[z2 as int] - 1);
                }
                let e = self.shape[z2] - 1;
                let m = (-s) as usize;
                proof {
                    assert(e as int * m as int == -(ext1(sh0[z2 as int]) * ssto[z2 as int]))
                        by (nonlinear_arith)
                        requires
                            e as int == ext1(sh0[z2 as int]),
                            m as int == -ssto[z2 as int],
                    ;
                    assert(e as int * m as int <= -neg_span(sh0, ssto));
                }
                let t = e * m;
                soff = soff - t;
                sstrides.set(z2, -s);
                let ds = dstrides[z2];
                proof {
                    assert(dsto[z2 as int] == ds as int);
                    assert(abs(dst0.st()[z2 as int]) <= isize::MAX as int);
                    lemma_span_term_bounds(sh0, dsto, z2 as int);
                    assert(dst0.off() + neg_span(sh0, dst0.st()) >= 0);
                    assert(dst0.off() + pos_span(sh0, dst0.st()) < dst0.buf_len());
                    assert(dst0.buf_len() <= isize::MAX as int);
                }
                if ds >= 0 {
                    proof {
                        assert(e as int * (ds as usize) as int == ext1(sh0[z2 as int]) * dsto[z2
                            as int]) by (nonlinear_arith)
                            requires
                                e as int == ext1(sh0[z2 as int]),
                                (ds as usize) as int == dsto[z2 as int],
                        ;
                    }
                    let td = e * (ds as usize);
                    doff = doff + td;
                } else {
                    proof {
                        assert(e as int * ((-ds) as usize) as int == -(ext1(sh0[z2 as int])
                            * dsto[z2 as int])) by (nonlinear_arith)
                            requires
                                e as int == ext1(sh0[z2 as int]),
                                ((-ds) as usize) as int == -dsto[z2 as int],
                        ;
                        assert(e as int * ((-ds) as usize) as int <= -neg_span(sh0, dsto));
                    }
                    let td = e * ((-ds) as usize);
                    doff = doff - td;
                }
                dstrides.set(z2, -ds);
                proof {
                    fl = flo.update(z2 as int, true);
                    assert(stride_ints(sstrides@) =~= ssto.update(z2 as int, -ssto[z2 as int]));
                    assert(stride_ints(dstrides@) =~= dsto.update(z2 as int, -dsto[z2 as int]));
                    crate::geom::lemma_negate_axis_spans(sh0, ssto, z2 as int);
                    crate::geom::lemma_negate_axis_spans(sh0, dsto, z2 as int);
                    assert(ext1(sh0[z2 as int]) * (-ssto[z2 as int]) == -(ext1(sh0[z2 as int])
                        * ssto[z2 as int])) by (nonlinear_arith);
                    assert(ext1(sh0[z2 as int]) * (-dsto[z2 as int]) == -(ext1(sh0[z2 as int])
                        * dsto[z2 as int])) by (nonlinear_arith);
                    crate::geom::lemma_flip_sign_geometry(sh0, ssto, z2 as int);
                    crate::geom::lemma_flip_sign_geometry(sh0, dsto, z2 as int);
                    assert forall|ix: Seq<int>|
                        #[trigger] valid_index(sh0, ix) implies soff as int + offset_of(
                        stride_ints(sstrides@),
                        flip_ix(fl, sh0, ix),
                    ) == src0.addr(ix) && doff as int + offset_of(
                        stride_ints(dstrides@),
                        flip_ix(fl, sh0, ix),
                    ) == dst0.addr(ix) by {
                        let fxo = flip_ix(flo, sh0, ix);
                        lemma_flip_ix_props(flo, sh0, ix);
                        assert(flip_ix(fl, sh0, ix) =~= fxo.update(
                            z2 as int,
                            sh0[z2 as int] - 1 - fxo[z2 as int],
                        ));
                        crate::geom::lemma_invert_axis(sh0, ssto, fxo, z2 as int);
                        crate::geom::lemma_invert_axis(sh0, dsto, fxo, z2 as int);
                    }
                }
            }
            z2 += 1;
        }
        let ghost nst = stride_ints(sstrides@);
        let ghost ndst = stride_ints(dstrides@);
        proof {
            assert forall|k: int| 0 <= k < n implies #[trigger] sstrides@[k] >= 0 by {
                assert(stride_ints(sstrides@)[k] >= 0);
            }
        }
        let p_g = sort_axes_to_standard_order_tandem(
            &mut sshape,
            &mut sstrides,
            &mut dshape,
            &mut dstrides,
        );
        let ghost p = p_g@;
        let ghost wsh = papply(p, sh0);
        let ghost wst = papply(p, nst);
        let ghost dst_s = papply(p, ndst);
        let ghost cw = canon(wsh);
        proof {
            assert(shape_ints(sshape@) == wsh);
            assert(stride_ints(sstrides@) == wst);
            assert(shape_ints(dshape@) =~= papply(p, sh0));
            assert(stride_ints(dstrides@) == dst_s);
            lemma_perm_geometry(p, sh0, nst);
            lemma_perm_geometry(p, sh0, ndst);
            assert forall|k: int| 0 <= k < n implies #[trigger] wsh[k] >= 1 by {
                assert(sh0[p[k]] >= 1);
            }
            assert forall|k: int|
                0 <= k < n implies #[trigger] wst[k] >= 0 && abs(wst[k]) <= isize::MAX as int
                    && abs(#[trigger] dst_s[k]) <= isize::MAX as int by {
                assert(nst[p[k]] >= 0);
                assert(abs(src0.st()[p[k]]) <= isize::MAX as int);
                assert(abs(nst[p[k]]) == abs(src0.st()[p[k]]));
                assert(abs(dst0.st()[p[k]]) <= isize::MAX as int);
                assert(abs(ndst[p[k]]) == abs(dst0.st()[p[k]]));
            }
            lemma_canon_tiled(wsh);
            lemma_tiled_dominated(wsh, cw);
            lemma_tiled_span_prod(wsh, cw, 0);
            crate::geom::lemma_prod_from_base(wsh);
            assert(product(wsh) == product(sh0)) by {
                crate::geom::lemma_perm_identity(n as int, Seq::new(n as nat, |k: int| k));
                assert(product(papply(p, sh0)) == product(sh0));
            }
            lemma_spans_nonneg(wsh, wst);
            lemma_spans_nonneg(wsh, cw);
            lemma_spans_nonneg(sh0, nst);
            assert(dominated(wsh, dst_s));
            assert(dominated(wsh, wst));
            // the normalized base and spans stay within the two buffers
            assert(soff as int + pos_span(wsh, wst) < src0.buf_len()) by {
                assert(pos_span(wsh, wst) == pos_span(sh0, nst));
                assert(src0.off() + pos_span(sh0, src0.st()) < src0.buf_len());
            }
            assert(soff as int + neg_span(wsh, wst) >= 0) by {
                assert(neg_span(wsh, wst) == neg_span(sh0, nst));
                assert(src0.off() + neg_span(sh0, src0.st()) >= 0);
            }
            assert(doff as int + pos_span(wsh, dst_s) < dst0.buf_len()) by {
                assert(pos_span(wsh, dst_s) == pos_span(sh0, ndst));
                assert(dst0.off() + pos_span(sh0, dst0.st()) < dst0.buf_len());
            }
            assert(doff as int + neg_span(wsh, dst_s) >= 0) by {
                assert(neg_span(wsh, dst_s) == neg_span(sh0, ndst));
                assert(dst0.off() + neg_span(sh0, dst0.st()) >= 0);
            }
            assert(sshape@.len() == n && sstrides@.len() == n && dshape@.len() == n
                && dstrides@.len() == n) by {
                assert(shape_ints(sshape@).len() == wsh.len());
                assert(stride_ints(sstrides@).len() == wst.len());
                assert(shape_ints(dshape@).len() == wsh.len());
                assert(stride_ints(dstrides@).len() == dst_s.len());
            }
        }
        let mut data = self.data;
        let ghost blen = data@.len() as int;
        // start at the all-maximal index and walk addresses downward
        let mut idx: Vec<usize> = Vec::new();
        let mut f: usize = 0;
        while f < n
            invariant
                idx@.len() == f <= n,
                n == sshape@.len(),
                shape_ints(sshape@) == wsh,
                forall|k: int| 0 <= k < n ==> #[trigger] wsh[k] >= 1,
                forall|k: int| 0 <= k < f ==> #[trigger] idx@[k] as int == wsh[k] - 1,
            decreases n - f,
        {
            proof {
                assert(wsh[f as int] == sshape@[f as int] as int);
            }
            idx.push(sshape[f] - 1);
            f += 1;
        }
        let mut holes_rev: Vec<usize> = Vec::new();
        let mut more = true;
        let ghost mut done: int = total;
        proof {
            assert forall|k: int|
                0 <= k < n implies 0 <= #[trigger] shape_ints(idx@)[k] < wsh[k] by {
            }
            lemma_offset_max_index(wsh, wst, shape_ints(idx@));
            lemma_offset_max_index(wsh, cw, shape_ints(idx@));
            assert(offset_of(cw, shape_ints(idx@)) == total - 1);
            lemma_offset_bounds(wsh, wst, shape_ints(idx@));
            assert(soff as int + offset_of(wst, shape_ints(idx@)) < blen);
            assert forall|jx: Seq<int>| #[trigger] valid_index(wsh, jx) implies 0 <= offset_of(
                cw,
                jx,
            ) <= total - 1 by {
                lemma_offset_bounds(wsh, cw, jx);
                lemma_spans_nonneg(wsh, cw);
            }
            assert forall|jx: Seq<int>| #[trigger] valid_index(wsh, jx) implies soff as int
                + offset_of(wst, jx) < blen by {
                lemma_offset_bounds(wsh, wst, jx);
                lemma_spans_nonneg(wsh, wst);
            }
        }
        while more
            invariant
                n == sshape@.len() == sstrides@.len() == dshape@.len() == dstrides@.len()
                    == idx@.len(),
                shape_ints(sshape@) == wsh,
                stride_ints(sstrides@) == wst,
                shape_ints(dshape@) == wsh,
                stride_ints(dstrides@) == dst_s,
                wsh == papply(p, sh0),
                wst == papply(p, nst),
                dst_s == papply(p, ndst),
                sh0 == src0.sh(),
                fl.len() == n,
                forall|ix: Seq<int>|
                    #[trigger] valid_index(sh0, ix) ==> soff as int + offset_of(
                        nst,
                        flip_ix(fl, sh0, ix),
                    ) == src0.addr(ix) && doff as int + offset_of(ndst, flip_ix(fl, sh0, ix))
                        == dst0.addr(ix),
                is_perm(n as int, p),
                n == src0.rank() && n == dst0.rank(),
                cw == canon(wsh),
                tiled(wsh, cw),
                dominated(wsh, cw),
                descending(cw),
                forall|k: int| 0 <= k < n ==> #[trigger] cw[k] >= 1,
                dominated(wsh, wst),
                descending(wst),
                forall|k: int| 0 <= k < n ==> #[trigger] wsh[k] >= 1,
                forall|k: int| 0 <= k < n ==> #[trigger] wst[k] >= 0,
                forall|k: int| 0 <= k < n ==> abs(#[trigger] wst[k]) <= isize::MAX as int,
                forall|k: int| 0 <= k < n ==> abs(#[trigger] dst_s[k]) <= isize::MAX as int,
                total == product(src0.sh()) && total == product(wsh) && total >= 1,
                span_from(wsh, cw, 0) == total - 1,
                soff as int + neg_span(wsh, wst) >= 0,
                soff as int + pos_span(wsh, wst) < blen,
                dominated(wsh, dst_s),
                doff as int + neg_span(wsh, dst_s) >= 0,
                doff as int + pos_span(wsh, dst_s) < dst0.buf_len(),
                dst0.buf_len() <= isize::MAX as int,
                blen == src0.buf_len() && blen <= isize::MAX as int,
                src0.size() == total,
                // the remaining buffer is an untouched prefix of the source
                data@ == src0.dat().subrange(0, data@.len() as int),
                data@.len() <= blen,
                // destination geometry untouched, only viewed slots written
                new_array.shape@ == dst0.shape@,
                new_array.strides@ == dst0.strides@,
                new_array.offset == dst0.offset,
                new_array.data@.len() == dst0.dat().len(),
                forall|pp: int|
                    0 <= pp < dst0.buf_len() && !(exists|jx: Seq<int>|
                        #[trigger] valid_index(wsh, jx) && doff as int + offset_of(dst_s, jx)
                            == pp) ==> #[trigger] new_array.data@[pp] == dst0.dat()[pp],
                // everything past the cursor has been handled
                0 <= done <= total,
                more ==> valid_index(wsh, shape_ints(idx@)),
                more ==> offset_of(cw, shape_ints(idx@)) == done - 1,
                more ==> soff as int + offset_of(wst, shape_ints(idx@)) < data@.len(),
                !more ==> done == 0,
                !more ==> data@.len() == soff as int,
                forall|jx: Seq<int>|
                    #[trigger] valid_index(wsh, jx) && offset_of(cw, jx) >= done
                        ==> new_array.data@[doff as int + offset_of(dst_s, jx)] == src0.dat()[soff
                        as int + offset_of(wst, jx)],
                forall|jx: Seq<int>|
                    #[trigger] valid_index(wsh, jx) && offset_of(cw, jx) >= done ==> soff as int
                        + offset_of(wst, jx) >= data@.len(),
                forall|jx: Seq<int>|
                    #[trigger] valid_index(wsh, jx) && offset_of(cw, jx) < done ==> soff as int
                        + offset_of(wst, jx) < data@.len(),
                forall|jx: Seq<int>, a: int|
                    #![trigger valid_index(wsh, jx), holes_rev@[a]]
                    valid_index(wsh, jx) && 0 <= a < holes_rev@.len() ==> soff as int + offset_of(
                        wst,
                        jx,
                    ) != holes_rev@[a] as int,
                // holes collected so far, in descending order, above the cursor
                holes_rev@.len() as int == blen - data@.len() - (total - done),
                forall|a: int, b: int|
                    0 <= a < b < holes_rev@.len() ==> #[trigger] holes_rev@[a] > #[trigger] holes_rev@[b],
                forall|a: int|
                    0 <= a < holes_rev@.len() ==> data@.len() <= (#[trigger] holes_rev@[a] as int)
                        < blen,
            decreases done,
        {
            let ghost cur = shape_ints(idx@);
            let ghost entry_len = data@.len() as int;
            let ghost hr0 = holes_rev@;
            let saddr = compute_addr(soff, &sshape, &sstrides, &idx);
            // positions above this address are holes
            while data.len() > saddr + 1
                invariant
                    saddr as int == soff as int + offset_of(wst, cur),
                    0 <= saddr < data@.len(),
                    data@ == src0.dat().subrange(0, data@.len() as int),
                    data@.len() <= blen,
                    data@.len() <= entry_len,
                    blen == src0.buf_len(),
                    holes_rev@.len() as int == blen - data@.len() - (total - done),
                    hr0.len() <= holes_rev@.len(),
                    forall|a: int| 0 <= a < hr0.len() ==> #[trigger] holes_rev@[a] == hr0[a],
                    forall|a: int|
                        #![trigger holes_rev@[a]]
                        hr0.len() <= a < holes_rev@.len() ==> (saddr as int) < (holes_rev@[a]
                            as int) && (holes_rev@[a] as int) < entry_len,
                    forall|a: int, b: int|
                        0 <= a < b < holes_rev@.len() ==> #[trigger] holes_rev@[a] > #[trigger] holes_rev@[b],
                    forall|a: int|
                        0 <= a < holes_rev@.len() ==> data@.len() <= (#[trigger] holes_rev@[a]
                            as int) < blen,
                decreases data@.len(),
            {
                holes_rev.push(data.len() - 1);
                let ghost dpre = data@;
                let popped = data.pop();
                proof {
                    assert(data@ =~= src0.dat().subrange(0, data@.len() as int));
                }
            }
            // the element at this address moves to its destination slot
            let ghost dpre2 = data@;
            let x = match data.pop() {
                Some(v) => v,
                None => {
                    proof {
                        assert(false);
                    }
                    unreached()
                },
            };
            proof {
                assert(data@ =~= src0.dat().subrange(0, data@.len() as int));
                assert(x == src0.dat()[saddr as int]);
            }
            let daddr = compute_addr(doff, &dshape, &dstrides, &idx);
            let ghost dest_pre = new_array.data@;
            proof {
                assert(0 <= daddr as int && (daddr as int) < dst0.buf_len());
            }
            new_array.data.set(daddr, x);
            proof {
                // the new slot carries the moved element; older slots keep
                // theirs because distinct indices use distinct addresses
                assert forall|jx: Seq<int>|
                    #[trigger] valid_index(wsh, jx) && offset_of(cw, jx) >= done - 1 implies
                    new_array.data@[doff as int + offset_of(dst_s, jx)] == src0.dat()[soff as int
                    + offset_of(wst, jx)] by {
                    assert(new_array.data@ == dest_pre.update(daddr as int, x));
                    if offset_of(cw, jx) == done - 1 {
                        if jx != cur {
                            lemma_dominated_injective(wsh, cw, jx, cur);
                        }
                        assert(jx == cur);
                        assert(doff as int + offset_of(dst_s, jx) == daddr as int);
                        assert(new_array.data@[daddr as int] == x);
                        assert(x == src0.dat()[soff as int + offset_of(wst, jx)]);
                    } else {
                        assert(offset_of(cw, jx) >= done);
                        if jx == cur {
                            assert(offset_of(cw, jx) == done - 1);
                        }
                        lemma_dominated_injective(wsh, dst_s, jx, cur);
                        assert(doff as int + offset_of(dst_s, jx) != daddr as int);
                        assert(new_array.data@[doff as int + offset_of(dst_s, jx)] == dest_pre[doff
                            as int + offset_of(dst_s, jx)]) by {
                            assert(0 <= doff as int + offset_of(dst_s, jx) < dst0.buf_len()) by {
                                lemma_offset_bounds(wsh, dst_s, jx);
                            }
                        }
                        assert(dest_pre[doff as int + offset_of(dst_s, jx)] == src0.dat()[soff
                            as int + offset_of(wst, jx)]);
                    }
                }
                assert forall|pp: int|
                    0 <= pp < dst0.buf_len() && !(exists|jx: Seq<int>|
                        #[trigger] valid_index(wsh, jx) && doff as int + offset_of(dst_s, jx)
                            == pp) implies #[trigger] new_array.data@[pp] == dst0.dat()[pp] by {
                    assert(valid_index(wsh, cur) && doff as int + offset_of(dst_s, cur) == daddr
                        as int);
                    assert(pp != daddr as int);
                    assert(new_array.data@[pp] == dest_pre[pp]);
                }
            }
            let res = prev_index(&mut idx, &sshape);
            more = res.0;
            proof {
                let nxt = shape_ints(idx@);
                if more {
                    let piv = res.1@;
                    lemma_step_delta(wsh, cw, nxt, cur, piv);
                    assert(cw[piv] == 1 + span_from(wsh, cw, piv + 1)) by {
                        assert(0 <= nxt[piv] < wsh[piv]);
                        assert(cur[piv] == nxt[piv] + 1);
                        assert(wsh[piv] >= 2);
                    }
                    assert(offset_of(cw, nxt) == offset_of(cw, cur) - 1);
                    assert(wsh[piv] >= 2) by {
                        assert(0 <= nxt[piv]);
                        assert(cur[piv] == nxt[piv] + 1);
                        assert(cur[piv] < wsh[piv]);
                    }
                    lemma_step_delta(wsh, wst, nxt, cur, piv);
                    lemma_desc_dom_step(wsh, wst, piv);
                    assert(offset_of(wst, nxt) < offset_of(wst, cur));
                    lemma_offset_bounds(wsh, wst, nxt);
                    lemma_spans_nonneg(wsh, wst);
                    lemma_offset_bounds(wsh, cw, nxt);
                    lemma_spans_nonneg(wsh, cw);
                    assert(offset_of(cw, nxt) >= 0);
                    done = done - 1;
                    assert(done >= 1);
                    // the cursor and every lower-ranked index sit below the
                    // released prefix, every higher-ranked one above it
                    assert forall|jx: Seq<int>|
                        #[trigger] valid_index(wsh, jx) && offset_of(cw, jx) >= done implies soff
                        as int + offset_of(wst, jx) >= data@.len() by {
                        if offset_of(cw, jx) == done {
                            if jx != cur {
                                lemma_dominated_injective(wsh, cw, jx, cur);
                            }
                            assert(jx == cur);
                        } else {
                            assert(offset_of(cw, jx) >= done + 1);
                        }
                    }
                    assert forall|jx: Seq<int>|
                        #[trigger] valid_index(wsh, jx) && offset_of(cw, jx) < done implies soff
                        as int + offset_of(wst, jx) < data@.len() by {
                        lemma_rank_below(wsh, wst, cw, jx, cur);
                    }
                    assert forall|jx: Seq<int>, a: int|
                        #![trigger valid_index(wsh, jx), holes_rev@[a]]
                        valid_index(wsh, jx) && 0 <= a < holes_rev@.len() implies soff as int
                        + offset_of(wst, jx) != holes_rev@[a] as int by {
                        if a >= hr0.len() {
                            assert((saddr as int) < (holes_rev@[a] as int) && (holes_rev@[a]
                                as int) < entry_len);
                            if offset_of(cw, jx) >= done + 1 {
                                assert(soff as int + offset_of(wst, jx) >= entry_len);
                            } else if offset_of(cw, jx) == done {
                                if jx != cur {
                                    lemma_dominated_injective(wsh, cw, jx, cur);
                                }
                                assert(jx == cur);
                                assert(soff as int + offset_of(wst, jx) == saddr as int);
                            } else {
                                lemma_rank_below(wsh, wst, cw, jx, cur);
                                assert(soff as int + offset_of(wst, jx) < saddr as int);
                            }
                        } else {
                            assert(holes_rev@[a] == hr0[a]);
                        }
                    }
                } else {
                    assert forall|k: int| 0 <= k < n implies #[trigger] cur[k] == 0 by {
                        assert(idx@[k] == 0);
                    }
                    lemma_offset_zero_index(cw, cur);
                    lemma_offset_zero_index(wst, cur);
                    assert(done == 1);
                    done = 0;
                    assert(data@.len() == soff as int);
                    assert forall|jx: Seq<int>|
                        #[trigger] valid_index(wsh, jx) && offset_of(cw, jx) < done implies soff
                        as int + offset_of(wst, jx) < data@.len() by {
                        lemma_offset_bounds(wsh, cw, jx);
                        lemma_spans_nonneg(wsh, cw);
                    }
                    assert forall|jx: Seq<int>|
                        #[trigger] valid_index(wsh, jx) && offset_of(cw, jx) >= done implies soff
                        as int + offset_of(wst, jx) >= data@.len() by {
                        lemma_offset_bounds(wsh, wst, jx);
                        lemma_spans_nonneg(wsh, wst);
                        assert(offset_of(wst, jx) >= 0);
                    }
                    assert forall|jx: Seq<int>, a: int|
                        #![trigger valid_index(wsh, jx), holes_rev@[a]]
                        valid_index(wsh, jx) && 0 <= a < holes_rev@.len() implies soff as int
                        + offset_of(wst, jx) != holes_rev@[a] as int by {
                        if a >= hr0.len() {
                            assert((saddr as int) < (holes_rev@[a] as int) && (holes_rev@[a]
                                as int) < entry_len);
                            if offset_of(cw, jx) >= 1 {
                                assert(soff as int + offset_of(wst, jx) >= entry_len);
                            } else {
                                lemma_offset_bounds(wsh, cw, jx);
                                lemma_spans_nonneg(wsh, cw);
                                assert(offset_of(cw, jx) == 0);
                                if jx != cur {
                                    lemma_dominated_injective(wsh, cw, jx, cur);
                                }
                                assert(jx == cur);
                                assert(soff as int + offset_of(wst, jx) == saddr as int);
                            }
                        } else {
                            assert(holes_rev@[a] == hr0[a]);
                        }
                    }
                }
            }
        }
        proof {
            assert forall|jx: Seq<int>| #[trigger] valid_index(wsh, jx) implies soff as int
                + offset_of(wst, jx) >= soff as int by {
                lemma_offset_bounds(wsh, wst, jx);
                lemma_spans_nonneg(wsh, wst);
            }
        }
        // everything below the lowest reachable address is a hole too
        while data.len() > 0
            invariant
                data@ == src0.dat().subrange(0, data@.len() as int),
                data@.len() <= blen,
                data@.len() <= soff as int,
                blen == src0.buf_len(),
                total == product(src0.sh()),
                holes_rev@.len() as int == blen - data@.len() - total,
                forall|jx: Seq<int>|
                    #[trigger] valid_index(wsh, jx) ==> soff as int + offset_of(wst, jx) >= soff
                        as int,
                forall|jx: Seq<int>, a: int|
                    #![trigger valid_index(wsh, jx), holes_rev@[a]]
                    valid_index(wsh, jx) && 0 <= a < holes_rev@.len() ==> soff as int + offset_of(
                        wst,
                        jx,
                    ) != holes_rev@[a] as int,
                forall|a: int, b: int|
                    0 <= a < b < holes_rev@.len() ==> #[trigger] holes_rev@[a] > #[trigger] holes_rev@[b],
                forall|a: int|
                    0 <= a < holes_rev@.len() ==> data@.len() <= (#[trigger] holes_rev@[a] as int)
                        < blen,
            decreases data@.len(),
        {
            holes_rev.push(data.len() - 1);
            let _ = data.pop();
            proof {
                assert(data@ =~= src0.dat().subrange(0, data@.len() as int));
            }
        }
        // return the destroyed positions in ascending order
        let mut holes: Vec<usize> = Vec::new();
        let ghost hlen = holes_rev@.len() as int;
        while holes_rev.len() > 0
            invariant
                holes@.len() + holes_rev@.len() == hlen,
                hlen == blen - total,
                blen == src0.buf_len(),
                total == src0.size(),
                forall|a: int, b: int|
                    0 <= a < b < holes_rev@.len() ==> #[trigger] holes_rev@[a] > #[trigger] holes_rev@[b],
                forall|a: int| 0 <= a < holes_rev@.len() ==> (#[trigger] holes_rev@[a] as int)
                    < blen,
                forall|a: int, b: int| 0 <= a < b < holes@.len() ==> #[trigger] holes@[a] < #[trigger] holes@[b],
                forall|a: int| 0 <= a < holes@.len() ==> (#[trigger] holes@[a] as int) < blen,
                forall|a: int, b: int|
                    0 <= a < holes@.len() && 0 <= b < holes_rev@.len() ==> #[trigger] holes@[a] < #[trigger] holes_rev@[b],
                forall|jx: Seq<int>, a: int|
                    #![trigger valid_index(wsh, jx), holes_rev@[a]]
                    valid_index(wsh, jx) && 0 <= a < holes_rev@.len() ==> soff as int + offset_of(
                        wst,
                        jx,
                    ) != holes_rev@[a] as int,
                forall|jx: Seq<int>, a: int|
                    #![trigger valid_index(wsh, jx), holes@[a]]
                    valid_index(wsh, jx) && 0 <= a < holes@.len() ==> soff as int + offset_of(
                        wst,
                        jx,
                    ) != holes@[a] as int,
            decreases holes_rev@.len(),
        {
            let ghost hpre = holes_rev@;
            let h = match holes_rev.pop() {
                Some(v) => v,
                None => {
                    proof {
                        assert(false);
                    }
                    unreached()
                },
            };
            holes.push(h);
        }
        proof {
            // carry the per-index facts back through the axis permutation and
            // the direction flips to the original index space
            assert forall|ix: Seq<int>|
                #[trigger] valid_index(src0.sh(), ix) implies new_array.elem(ix) == src0.elem(
                ix,
            ) by {
                let fx = flip_ix(fl, sh0, ix);
                lemma_flip_ix_props(fl, sh0, ix);
                let jx = papply(p, fx);
                lemma_perm_valid(p, sh0, fx);
                lemma_perm_offset(p, nst, fx);
                lemma_perm_offset(p, ndst, fx);
                assert(valid_index(wsh, jx));
                assert(offset_of(cw, jx) >= 0) by {
                    lemma_offset_bounds(wsh, cw, jx);
                    lemma_spans_nonneg(wsh, cw);
                }
                assert(soff as int + offset_of(wst, jx) == src0.addr(ix));
                assert(doff as int + offset_of(dst_s, jx) == dst0.addr(ix));
                new_array.lemma_repr();
            }
            new_array.lemma_repr();
            assert forall|a: int| 0 <= a < holes@.len() implies !(exists|ix: Seq<int>|
                valid_index(src0.sh(), ix) && src0.addr(ix) == #[trigger] holes@[a] as int) by {
                if exists|ix: Seq<int>|
                    valid_index(src0.sh(), ix) && src0.addr(ix) == holes@[a] as int {
                    let ix = choose|ix: Seq<int>|
                        valid_index(src0.sh(), ix) && src0.addr(ix) == holes@[a] as int;
                    let fx = flip_ix(fl, sh0, ix);
                    lemma_flip_ix_props(fl, sh0, ix);
                    let jx = papply(p, fx);
                    lemma_perm_valid(p, sh0, fx);
                    lemma_perm_offset(p, nst, fx);
                    assert(valid_index(wsh, jx));
                    assert(soff as int + offset_of(wst, jx) == src0.addr(ix));
                }
            }
            let q = crate::geom::lemma_perm_inverse(n as int, p);
            assert forall|pp: int|
                0 <= pp < dst0.buf_len() && !(exists|ix: Seq<int>|
                    #[trigger] valid_index(src0.sh(), ix) && dst0.addr(ix) == pp) implies
                new_array.data@[pp] == dst0.dat()[pp] by {
                if exists|jx: Seq<int>|
                    #[trigger] valid_index(wsh, jx) && doff as int + offset_of(dst_s, jx) == pp {
                    let jx = choose|jx: Seq<int>|
                        #[trigger] valid_index(wsh, jx) && doff as int + offset_of(dst_s, jx)
                            == pp;
                    let fx = papply(q, jx);
                    assert(papply(p, fx) =~= jx);
                    assert forall|m: int| 0 <= m < n implies 0 <= #[trigger] fx[m] < sh0[m] by {
                        assert(fx[m] == jx[q[m]]);
                        assert(0 <= jx[q[m]] < wsh[q[m]]);
                        assert(wsh[q[m]] == sh0[p[q[m]]]);
                    }
                    assert(valid_index(sh0, fx));
                    let ix = flip_ix(fl, sh0, fx);
                    lemma_flip_ix_props(fl, sh0, fx);
                    assert(valid_index(src0.sh(), ix));
                    assert(flip_ix(fl, sh0, ix) == fx);
                    lemma_perm_offset(p, ndst, fx);
                    assert(dst0.addr(ix) == pp);
                }
            }
        }
        holes
    }
}

} // verus!
