//! Executable bridges to the geometry model: overflow-checked sizes,
//! canonical strides, address computation and lexicographic index stepping.

use vstd::prelude::*;

use crate::errors::{ErrorKind, ShapeError};
use crate::geom::{
    abs, canon, dom_sum, dom_term, dominated, exact, ext1, fcanon, lemma_offset_prefix_bounds,
    lemma_prod_ext, lemma_prod_extend_ge1, lemma_prod_from_base, lemma_prod_from_nz,
    lemma_prod_from_step, lemma_prod_from_zero, lemma_prod_le, lemma_prod_ones,
    lemma_prod_pre_step, lemma_prod_pre_zero, lemma_product_zero, lemma_sum_ext, lemma_sum_ge_single,
    lemma_sum_le, lemma_sum_zero, lemma_sum_add, lemma_sum_extend_nonneg, lemma_dom_term_nonneg, neg_span, nz, nzprod, offset_of, pos_span, prod, prod_from,
    prod_pre, product, span_from, sum, valid_index,
};

verus! {

/// A shape vector as the mathematical sequence the model speaks about.
pub open spec fn shape_ints(v: Seq<usize>) -> Seq<int> {
    v.map_values(|x: usize| x as int)
}

/// A stride vector as the mathematical sequence the model speaks about.
pub open spec fn stride_ints(v: Seq<isize>) -> Seq<int> {
    v.map_values(|x: isize| x as int)
}

/// The number of elements a shape addresses, checked for overflow the way
/// the size type demands: the product of the nonzero extents must fit.
pub fn size_of_shape_checked(shape: &Vec<usize>) -> (r: Result<usize, ShapeError>)
    ensures
        r is Ok <==> nzprod(shape_ints(shape@)) <= isize::MAX as int,
        r is Ok ==> r->Ok_0 as int == product(shape_ints(shape@)) && r->Ok_0 as int <= isize::MAX
            as int,
        r is Err ==> r->Err_0.kind == ErrorKind::ShapeOverflow,
{
    let n = shape.len();
    let ghost shi = shape_ints(shape@);
    let ghost nzf = |k: int| nz(shi[k]);
    let mut acc: usize = 1;
    let mut zero = false;
    let mut k: usize = 0;
    proof {
        assert forall|j: int| 0 <= j < n implies #[trigger] nzf(j) >= 1 by {
            assert(shi[j] == shape@[j] as int);
        }
    }
    while k < n
        invariant
            0 <= k <= n,
            n == shape@.len(),
            shi == shape_ints(shape@),
            forall|j: int| 0 <= j < n ==> #[trigger] nzf(j) == nz(shi[j]),
            forall|j: int| 0 <= j < n ==> #[trigger] nzf(j) >= 1,
            forall|j: int| 0 <= j < n ==> #[trigger] shi[j] == shape@[j] as int,
            acc as int == prod(k as nat, nzf),
            1 <= acc as int,
            acc as int <= isize::MAX as int,
            zero <==> exists|j: int| 0 <= j < k && #[trigger] shi[j] == 0,
        decreases n - k,
    {
        let d = shape[k];
        if d == 0 {
            zero = true;
            proof {
                assert(shi[k as int] == 0);
                assert(nzf(k as int) == 1);
                assert(prod((k + 1) as nat, nzf) == prod(k as nat, nzf) * 1);
            }
        } else {
            match acc.checked_mul(d) {
                Some(v) => {
                    proof {
                        assert(nzf(k as int) == shi[k as int]);
                        assert(prod((k + 1) as nat, nzf) == prod(k as nat, nzf) * nzf(k as int));
                        assert(acc as int * d as int >= 1) by (nonlinear_arith)
                            requires
                                acc as int >= 1,
                                d as int >= 1,
                        ;
                    }
                    if v > isize::MAX as usize {
                        proof {
                            lemma_prod_extend_nz(shi, nzf, (k + 1) as nat, v as int);
                        }
                        return Err(ShapeError::from_kind(ErrorKind::ShapeOverflow));
                    }
                    acc = v;
                },
                None => {
                    proof {
                        lemma_prod_extend_nz(shi, nzf, (k + 1) as nat, acc as int * d as int);
                    }
                    return Err(ShapeError::from_kind(ErrorKind::ShapeOverflow));
                },
            }
        }
        k += 1;
    }
    if zero {
        proof {
            let z = choose|j: int| 0 <= j < n && #[trigger] shi[j] == 0;
            lemma_product_zero(shi, z);
        }
        Ok(0)
    } else {
        proof {
            lemma_prod_ext(n as nat, |j: int| shi[j], nzf);
        }
        Ok(acc)
    }
}

/// Helper for the overflow exits of [`size_of_shape_checked`]: a partial
/// nonzero product that already exceeds the limit forces the full one over
/// it too.
proof fn lemma_prod_extend_nz(shi: Seq<int>, nzf: spec_fn(int) -> int, k: nat, v: int)
    requires
        k <= shi.len(),
        forall|j: int| 0 <= j < shi.len() ==> #[trigger] nzf(j) == nz(shi[j]),
        forall|j: int| 0 <= j < shi.len() ==> #[trigger] nzf(j) >= 1,
        prod(k, nzf) == v,
        v > isize::MAX as int,
    ensures
        nzprod(shi) > isize::MAX as int,
{
    lemma_prod_extend_ge1(k, shi.len(), nzf);
    lemma_prod_ext(shi.len(), nzf, |j: int| nz(shi[j]));
}

/// Canonical row-major strides of a shape whose checked size fits.
pub fn default_strides(shape: &Vec<usize>) -> (r: Vec<isize>)
    requires
        nzprod(shape_ints(shape@)) <= isize::MAX as int,
    ensures
        r@.len() == shape@.len(),
        stride_ints(r@) == canon(shape_ints(shape@)),
        forall|k: int| 0 <= k < r@.len() ==> #[trigger] r@[k] >= 0,
{
    let n = shape.len();
    let ghost shi = shape_ints(shape@);
    let mut r: Vec<isize> = Vec::new();
    let mut f: usize = 0;
    while f < n
        invariant
            r@.len() == f <= n,
        decreases n - f,
    {
        r.push(0);
        f += 1;
    }
    let mut cur: usize = 1;
    let mut k: usize = n;
    proof {
        lemma_prod_from_base(shi);
    }
    while k > 0
        invariant
            0 <= k <= n,
            n == shape@.len(),
            shi == shape_ints(shape@),
            forall|j: int| 0 <= j < n ==> #[trigger] shi[j] == shape@[j] as int,
            nzprod(shi) <= isize::MAX as int,
            r@.len() == n,
            cur as int == prod_from(shi, k as int),
            cur as int <= isize::MAX as int,
            forall|j: int| k <= j < n ==> #[trigger] r@[j] as int == prod_from(shi, j + 1),
            forall|j: int| k <= j < n ==> #[trigger] r@[j] >= 0,
        decreases k,
    {
        k -= 1;
        r.set(k, cur as isize);
        proof {
            lemma_prod_from_step(shi, k as int);
            lemma_prod_from_bounded(shi, k as int);
            assert(shi[k as int] * prod_from(shi, k as int + 1) == prod_from(shi, k as int + 1)
                * shi[k as int]) by (nonlinear_arith);
            assert(cur as int * shape@[k as int] as int == prod_from(shi, k as int));
        }
        cur = cur * shape[k];
    }
    proof {
        assert(stride_ints(r@) =~= canon(shi));
    }
    r
}

/// The suffix product of a shape whose checked size fits is itself within
/// the limit, and never negative.
proof fn lemma_prod_from_bounded(shi: Seq<int>, from: int)
    requires
        0 <= from <= shi.len(),
        forall|j: int| 0 <= j < shi.len() ==> #[trigger] shi[j] >= 0,
        nzprod(shi) <= isize::MAX as int,
    ensures
        0 <= prod_from(shi, from) <= isize::MAX as int,
{
    let n = shi.len();
    if exists|z: int| from <= z < n && #[trigger] shi[z] == 0 {
        let z = choose|z: int| from <= z < n && #[trigger] shi[z] == 0;
        lemma_prod_from_zero(shi, from, z);
    } else {
        lemma_prod_from_nz(shi, from);
        let gated = |k: int| if k >= from { nz(shi[k]) } else { 1 };
        let nzf = |k: int| nz(shi[k]);
        assert forall|k: int| 0 <= k < n implies 1 <= #[trigger] gated(k) && gated(k)
            <= #[trigger] nzf(k) by {}
        lemma_prod_le(n, gated, nzf);
        lemma_prod_ext(n, nzf, |k: int| nz(shi[k]));
    }
}

/// The prefix product of a shape whose checked size fits is itself within
/// the limit, and never negative.
proof fn lemma_prod_pre_bounded(shi: Seq<int>, to: int)
    requires
        0 <= to <= shi.len(),
        forall|j: int| 0 <= j < shi.len() ==> #[trigger] shi[j] >= 0,
        nzprod(shi) <= isize::MAX as int,
    ensures
        0 <= prod_pre(shi, to) <= isize::MAX as int,
{
    let n = shi.len();
    if exists|z: int| 0 <= z < to && #[trigger] shi[z] == 0 {
        let z = choose|z: int| 0 <= z < to && #[trigger] shi[z] == 0;
        lemma_prod_pre_zero(shi, to, z);
    } else {
        let gated = |k: int| if k < to { sh_at(shi, k) } else { 1 };
        let gated2 = |k: int| if k < to { shi[k] } else { 1 };
        let nzf = |k: int| nz(shi[k]);
        assert forall|k: int| 0 <= k < n implies 1 <= #[trigger] gated2(k) && gated2(k)
            <= #[trigger] nzf(k) by {}
        lemma_prod_le(n, gated2, nzf);
        lemma_prod_ext(n, nzf, |k: int| nz(shi[k]));
        lemma_prod_ext(n, gated2, |k: int| if k < to { shi[k] } else { 1 });
        assert(gated(0) == gated(0));
    }
}

/// Trivial indexing helper used only to name a sequence entry in a closure.
pub open spec fn sh_at(s: Seq<int>, k: int) -> int {
    s[k]
}

/// Canonical column-major strides of a shape whose checked size fits.
pub fn fortran_strides(shape: &Vec<usize>) -> (r: Vec<isize>)
    requires
        nzprod(shape_ints(shape@)) <= isize::MAX as int,
    ensures
        r@.len() == shape@.len(),
        stride_ints(r@) == fcanon(shape_ints(shape@)),
        forall|k: int| 0 <= k < r@.len() ==> #[trigger] r@[k] >= 0,
{
    let n = shape.len();
    let ghost shi = shape_ints(shape@);
    let mut r: Vec<isize> = Vec::new();
    let mut cur: usize = 1;
    let mut k: usize = 0;
    proof {
        if 0 < n {
            lemma_prod_pre_step(shi, 0);
        } else {
            lemma_prod_ones(n as nat, |j: int| if j < 0 { shi[j] } else { 1 });
        }
    }
    while k < n
        invariant
            0 <= k <= n,
            n == shape@.len(),
            shi == shape_ints(shape@),
            forall|j: int| 0 <= j < n ==> #[trigger] shi[j] == shape@[j] as int,
            nzprod(shi) <= isize::MAX as int,
            r@.len() == k,
            cur as int == prod_pre(shi, k as int),
            cur as int <= isize::MAX as int,
            forall|j: int| 0 <= j < k ==> #[trigger] r@[j] as int == prod_pre(shi, j),
            forall|j: int| 0 <= j < k ==> #[trigger] r@[j] >= 0,
        decreases n - k,
    {
        r.push(cur as isize);
        proof {
            lemma_prod_pre_step(shi, k as int);
            lemma_prod_pre_bounded(shi, k as int + 1);
            assert(cur as int * shape@[k as int] as int == prod_pre(shi, k as int + 1));
        }
        cur = cur * shape[k];
        k += 1;
    }
    proof {
        assert(stride_ints(r@) =~= fcanon(shi));
    }
    r
}

/// Decides whether a nonnegative-stride geometry is exact: every axis of
/// extent at least 2 steps exactly one past the combined span of the axes
/// with smaller or equal stride magnitude.
pub fn exact_check(shape: &Vec<usize>, strides: &Vec<isize>) -> (b: bool)
    requires
        shape@.len() == strides@.len(),
        forall|k: int| 0 <= k < strides@.len() ==> #[trigger] strides@[k] >= 0,
    ensures
        b <==> exact(shape_ints(shape@), stride_ints(strides@)),
{
    let n = shape.len();
    let ghost shi = shape_ints(shape@);
    let ghost sti = stride_ints(strides@);
    proof {
        lemma_dom_term_nonneg_all(shi, sti);
    }
    let mut i: usize = 0;
    while i < n
        invariant
            0 <= i <= n,
            n == shape@.len() == strides@.len(),
            shi == shape_ints(shape@),
            sti == stride_ints(strides@),
            forall|j: int| 0 <= j < n ==> #[trigger] shi[j] == shape@[j] as int,
            forall|j: int| 0 <= j < n ==> #[trigger] sti[j] == strides@[j] as int,
            forall|j: int| 0 <= j < n ==> #[trigger] strides@[j] >= 0,
            forall|a: int, m: int| #[trigger] dom_term(shi, sti, a, m) >= 0,
            forall|j: int|
                0 <= j < i && shi[j] >= 2 ==> abs(sti[j]) == 1 + #[trigger] dom_sum(shi, sti, j),
        decreases n - i,
    {
        if shape[i] >= 2 {
            let si = strides[i];
            let ghost f = |m: int| dom_term(shi, sti, i as int, m);
            let mut acc: usize = 0;
            let mut j: usize = 0;
            while j < n
                invariant
                    0 <= j <= n,
                    n == shape@.len() == strides@.len(),
                    shi == shape_ints(shape@),
                    sti == stride_ints(strides@),
                    forall|m: int| 0 <= m < n ==> #[trigger] shi[m] == shape@[m] as int,
                    forall|m: int| 0 <= m < n ==> #[trigger] sti[m] == strides@[m] as int,
                    forall|m: int| 0 <= m < n ==> #[trigger] strides@[m] >= 0,
                    forall|a: int, m: int| #[trigger] dom_term(shi, sti, a, m) >= 0,
                    forall|m: int| 0 <= m < n ==> #[trigger] f(m) == dom_term(shi, sti, i as int, m),
                    0 <= i < n,
                    shi[i as int] >= 2,
                    si == strides@[i as int],
                    acc as int == sum(j as nat, f),
                    acc as int <= isize::MAX as int,
                decreases n - j,
            {
                let ghost accp = acc;
                if j != i && shape[j] >= 2 && strides[j] <= si {
                    proof {
                        assert(f(j as int) == (shi[j as int] - 1) * abs(sti[j as int]));
                        assert(abs(sti[j as int]) == sti[j as int]);
                    }
                    let t = match (shape[j] - 1).checked_mul(strides[j] as usize) {
                        Some(t) => t,
                        None => {
                            proof {
                                lemma_dom_partial_exceeds(shi, sti, i as int, (j + 1) as nat, f);
                            }
                            return false;
                        },
                    };
                    let acc2 = match acc.checked_add(t) {
                        Some(a2) => a2,
                        None => {
                            proof {
                                lemma_dom_partial_exceeds(shi, sti, i as int, (j + 1) as nat, f);
                            }
                            return false;
                        },
                    };
                    if acc2 > isize::MAX as usize {
                        proof {
                            lemma_dom_partial_exceeds(shi, sti, i as int, (j + 1) as nat, f);
                        }
                        return false;
                    }
                    acc = acc2;
                } else {
                    proof {
                        assert(f(j as int) == 0);
                    }
                }
                j += 1;
                proof {
                    assert(sum(j as nat, f) == sum((j - 1) as nat, f) + f(j as int - 1));
                }
            }
            proof {
                assert(acc as int == dom_sum(shi, sti, i as int));
            }
            if strides[i] as usize != 1 + acc {
                proof {
                    assert(abs(sti[i as int]) == sti[i as int]);
                    assert(abs(sti[i as int]) != 1 + dom_sum(shi, sti, i as int));
                }
                return false;
            }
        }
        i += 1;
    }
    true
}

/// All dominated-sum terms of a geometry are nonnegative.
proof fn lemma_dom_term_nonneg_all(shi: Seq<int>, sti: Seq<int>)
    ensures
        forall|a: int, m: int| #[trigger] dom_term(shi, sti, a, m) >= 0,
{
    assert forall|a: int, m: int| #[trigger] dom_term(shi, sti, a, m) >= 0 by {
        lemma_dom_term_nonneg(shi, sti, a);
    }
}

/// If a partial dominated sum already exceeds the size limit, the axis
/// cannot satisfy exactness.
proof fn lemma_dom_partial_exceeds(shi: Seq<int>, sti: Seq<int>, i: int, j: nat, f: spec_fn(
    int,
) -> int)
    requires
        0 <= i < shi.len(),
        shi.len() == sti.len(),
        shi[i] >= 2,
        j <= shi.len(),
        forall|m: int| 0 <= m < shi.len() ==> #[trigger] f(m) == dom_term(shi, sti, i, m),
        forall|a: int, m: int| #[trigger] dom_term(shi, sti, a, m) >= 0,
        sum(j, f) > isize::MAX as int,
        abs(sti[i]) <= isize::MAX as int,
    ensures
        !exact(shi, sti),
        abs(sti[i]) != 1 + dom_sum(shi, sti, i),
{
    let n = shi.len();
    assert forall|m: int| j <= m < n implies #[trigger] f(m) >= 0 by {
        assert(f(m) == dom_term(shi, sti, i, m));
    }
    lemma_sum_extend_nonneg(j, n, f);
    lemma_sum_ext(n, f, |m: int| dom_term(shi, sti, i, m));
    assert(dom_sum(shi, sti, i) > isize::MAX as int);
    if shi[i] >= 2 && abs(sti[i]) == 1 + dom_sum(shi, sti, i) {
        assert(false);
    }
}

/// A fresh copy of a shape vector.
pub fn copy_usizes(v: &Vec<usize>) -> (r: Vec<usize>)
    ensures
        r@ == v@,
{
    let mut r: Vec<usize> = Vec::new();
    let mut k: usize = 0;
    while k < v.len()
        invariant
            0 <= k <= v@.len(),
            r@ == v@.subrange(0, k as int),
        decreases v@.len() - k,
    {
        r.push(v[k]);
        proof {
            assert(r@ =~= v@.subrange(0, k + 1));
        }
        k += 1;
    }
    proof {
        assert(r@ =~= v@);
    }
    r
}

/// A fresh copy of a stride vector.
pub fn copy_isizes(v: &Vec<isize>) -> (r: Vec<isize>)
    ensures
        r@ == v@,
{
    let mut r: Vec<isize> = Vec::new();
    let mut k: usize = 0;
    while k < v.len()
        invariant
            0 <= k <= v@.len(),
            r@ == v@.subrange(0, k as int),
        decreases v@.len() - k,
    {
        r.push(v[k]);
        proof {
            assert(r@ =~= v@.subrange(0, k + 1));
        }
        k += 1;
    }
    proof {
        assert(r@ =~= v@);
    }
    r
}

/// The address of a valid index in a view whose reachable addresses are
/// known to stay within the size limit.
pub fn compute_addr(offset: usize, shape: &Vec<usize>, strides: &Vec<isize>, idx: &Vec<usize>) -> (r:
    usize)
    requires
        shape@.len() == strides@.len(),
        idx@.len() == shape@.len(),
        valid_index(shape_ints(shape@), shape_ints(idx@)),
        forall|k: int| 0 <= k < strides@.len() ==> abs(stride_ints(strides@)[k]) <= isize::MAX
            as int,
        offset as int + neg_span(shape_ints(shape@), stride_ints(strides@)) >= 0,
        offset as int + pos_span(shape_ints(shape@), stride_ints(strides@)) <= isize::MAX as int,
    ensures
        r as int == offset as int + offset_of(stride_ints(strides@), shape_ints(idx@)),
        offset as int + neg_span(shape_ints(shape@), stride_ints(strides@)) <= r as int <= offset
            as int + pos_span(shape_ints(shape@), stride_ints(strides@)),
{
    let n = shape.len();
    let ghost shi = shape_ints(shape@);
    let ghost sti = stride_ints(strides@);
    let ghost ixi = shape_ints(idx@);
    let ghost term = |j: int| ixi[j] * sti[j];
    let mut acc: usize = offset;
    let mut k: usize = 0;
    proof {
        lemma_offset_prefix_bounds(shi, sti, ixi, 0nat);
    }
    while k < n
        invariant
            0 <= k <= n,
            n == shape@.len() == strides@.len() == idx@.len(),
            shi == shape_ints(shape@),
            sti == stride_ints(strides@),
            ixi == shape_ints(idx@),
            valid_index(shi, ixi),
            forall|j: int| 0 <= j < n ==> #[trigger] shi[j] == shape@[j] as int,
            forall|j: int| 0 <= j < n ==> #[trigger] sti[j] == strides@[j] as int,
            forall|j: int| 0 <= j < n ==> #[trigger] ixi[j] == idx@[j] as int,
            forall|j: int| 0 <= j < n ==> abs(#[trigger] sti[j]) <= isize::MAX as int,
            forall|j: int| 0 <= j < n ==> #[trigger] term(j) == ixi[j] * sti[j],
            offset as int + neg_span(shi, sti) >= 0,
            offset as int + pos_span(shi, sti) <= isize::MAX as int,
            acc as int == offset as int + sum(k as nat, term),
        decreases n - k,
    {
        let s = strides[k];
        let x = idx[k];
        proof {
            lemma_offset_prefix_bounds(shi, sti, ixi, k as nat);
            lemma_offset_prefix_bounds(shi, sti, ixi, (k + 1) as nat);
            let pre = |j: int| ixi[j] * sti[j];
            lemma_sum_ext((k + 1) as nat, term, pre);
            lemma_sum_ext(k as nat, term, pre);
            assert(sum((k + 1) as nat, term) == sum(k as nat, term) + term(k as int));
            lemma_addr_term_bounds(shi, sti, ixi, k as int);
            assert(term(k as int) == ixi[k as int] * sti[k as int]);
            assert(abs(sti[k as int]) <= isize::MAX as int);
            assert(sti[k as int] == s as int && ixi[k as int] == x as int);
        }
        if s >= 0 {
            proof {
                assert(x as int * (s as usize) as int == ixi[k as int] * sti[k as int]);
                assert(0 <= term(k as int) <= pos_span(shi, sti));
            }
            let t = x * (s as usize);
            proof {
                assert(t as int == term(k as int));
                assert(acc as int + t as int == offset as int + sum((k + 1) as nat, term));
            }
            acc = acc + t;
        } else {
            proof {
                assert(0 < -(s as int) <= isize::MAX as int);
                assert(x as int * ((-s) as int) == -(ixi[k as int] * sti[k as int]))
                    by (nonlinear_arith)
                    requires
                        x as int == ixi[k as int],
                        s as int == sti[k as int],
                        s < 0,
                ;
                assert(neg_span(shi, sti) <= term(k as int) <= 0);
                assert(x as int * ((-s) as int) <= -neg_span(shi, sti));
                assert(offset as int + neg_span(shi, sti) >= 0);
            }
            let t = x * ((-s) as usize);
            proof {
                assert(t as int == -term(k as int));
                assert(acc as int - t as int == offset as int + sum((k + 1) as nat, term));
                assert(offset as int + sum((k + 1) as nat, term) >= offset as int + neg_span(
                    shi,
                    sti,
                ));
            }
            acc = acc - t;
        }
        k += 1;
    }
    proof {
        lemma_sum_ext(n as nat, term, |j: int| ixi[j] * sti[j]);
        lemma_offset_prefix_bounds(shi, sti, ixi, n as nat);
    }
    acc
}

/// A single address term is bounded by the spans.
proof fn lemma_addr_term_bounds(shi: Seq<int>, sti: Seq<int>, ixi: Seq<int>, k: int)
    requires
        shi.len() == sti.len(),
        valid_index(shi, ixi),
        0 <= k < shi.len(),
    ensures
        sti[k] >= 0 ==> 0 <= ixi[k] * sti[k] <= pos_span(shi, sti),
        sti[k] < 0 ==> neg_span(shi, sti) <= ixi[k] * sti[k] <= 0,
{
    let n = shi.len();
    let post = |j: int| if sti[j] >= 0 { ext1(shi[j]) * sti[j] } else { 0 };
    let negt = |j: int| if sti[j] < 0 { ext1(shi[j]) * sti[j] } else { 0 };
    let negn = |j: int| -negt(j);
    assert forall|j: int| 0 <= j < n implies #[trigger] post(j) >= 0 by {
        if sti[j] >= 0 {
            assert(ext1(shi[j]) * sti[j] >= 0) by (nonlinear_arith)
                requires
                    ext1(shi[j]) >= 0,
                    sti[j] >= 0,
            ;
        }
    }
    assert forall|j: int| 0 <= j < n implies #[trigger] negn(j) >= 0 by {
        if sti[j] < 0 {
            assert(ext1(shi[j]) * sti[j] <= 0) by (nonlinear_arith)
                requires
                    ext1(shi[j]) >= 0,
                    sti[j] < 0,
            ;
        }
    }
    lemma_sum_ge_single(n, post, k);
    lemma_sum_ge_single(n, negn, k);
    lemma_sum_add(n, negt, negn, |j: int| 0int);
    lemma_sum_zero(n, |j: int| 0int);
    if sti[k] >= 0 {
        assert(0 <= ixi[k] * sti[k] <= ext1(shi[k]) * sti[k]) by (nonlinear_arith)
            requires
                0 <= ixi[k] <= shi[k] - 1,
                ext1(shi[k]) == shi[k] - 1,
                sti[k] >= 0,
        ;
    } else {
        assert(ext1(shi[k]) * sti[k] <= ixi[k] * sti[k] <= 0) by (nonlinear_arith)
            requires
                0 <= ixi[k] <= shi[k] - 1,
                ext1(shi[k]) == shi[k] - 1,
                sti[k] < 0,
        ;
    }
}

/// Advance a multi-index to its lexicographic successor.  Returns whether a
/// successor exists and, as ghost information, the pivot axis that was
/// advanced.
pub fn next_index(idx: &mut Vec<usize>, shape: &Vec<usize>) -> (res: (bool, Ghost<int>))
    requires
        old(idx)@.len() == shape@.len(),
        valid_index(shape_ints(shape@), shape_ints(old(idx)@)),
    ensures
        final(idx)@.len() == shape@.len(),
        valid_index(shape_ints(shape@), shape_ints(final(idx)@)),
        res.0 ==> 0 <= res.1@ < shape@.len(),
        res.0 ==> final(idx)@[res.1@] as int == old(idx)@[res.1@] as int + 1,
        res.0 ==> forall|k: int| 0 <= k < res.1@ ==> #[trigger] final(idx)@[k] == old(idx)@[k],
        res.0 ==> forall|k: int|
            res.1@ < k < shape@.len() ==> #[trigger] old(idx)@[k] as int == shape@[k] as int - 1,
        res.0 ==> forall|k: int| res.1@ < k < shape@.len() ==> #[trigger] final(idx)@[k] == 0,
        !res.0 ==> final(idx)@ == old(idx)@,
        !res.0 ==> forall|k: int|
            0 <= k < shape@.len() ==> #[trigger] old(idx)@[k] as int == shape@[k] as int - 1,
{
    let n = shape.len();
    let mut j = n;
    while j > 0
        invariant
            0 <= j <= n,
            n == shape@.len() == idx@.len(),
            idx@ == old(idx)@,
            valid_index(shape_ints(shape@), shape_ints(idx@)),
            forall|k: int| j <= k < n ==> #[trigger] idx@[k] as int == shape@[k] as int - 1,
        decreases j,
    {
        j -= 1;
        let v = idx[j];
        proof {
            assert(shape_ints(idx@)[j as int] == idx@[j as int] as int);
            assert(shape_ints(shape@)[j as int] == shape@[j as int] as int);
            assert(0 <= shape_ints(idx@)[j as int] < shape_ints(shape@)[j as int]);
        }
        if v + 1 < shape[j] {
            idx.set(j, v + 1);
            let ghost mid = idx@;
            let mut m = j + 1;
            while m < n
                invariant
                    j < m <= n,
                    n == shape@.len() == idx@.len(),
                    mid.len() == n,
                    mid[j as int] as int == old(idx)@[j as int] as int + 1,
                    forall|k: int| 0 <= k < n && k != j ==> #[trigger] mid[k] == old(idx)@[k],
                    forall|k: int| 0 <= k <= j ==> #[trigger] idx@[k] == mid[k],
                    forall|k: int| j < k < m ==> #[trigger] idx@[k] == 0,
                    forall|k: int| m <= k < n ==> #[trigger] idx@[k] == mid[k],
                decreases n - m,
            {
                idx.set(m, 0);
                m += 1;
            }
            proof {
                assert forall|k: int|
                    0 <= k < n implies 0 <= #[trigger] shape_ints(idx@)[k] < shape_ints(shape@)[k] by {
                    assert(shape_ints(shape@)[k] == shape@[k] as int);
                    assert(shape_ints(idx@)[k] == idx@[k] as int);
                    assert(shape_ints(old(idx)@)[k] == old(idx)@[k] as int);
                    assert(0 <= shape_ints(old(idx)@)[k] < shape_ints(shape@)[k]);
                    if k < j {
                        assert(idx@[k] == old(idx)@[k]);
                    } else if k == j {
                        assert(idx@[k] == mid[k]);
                    } else {
                        assert(idx@[k] == 0);
                        assert(shape@[k] as int - 1 >= 0);
                    }
                }
            }
            return (true, Ghost(j as int));
        } else {
            proof {
                assert(idx@[j as int] as int == shape@[j as int] as int - 1);
            }
        }
    }
    (false, Ghost(0))
}

/// Step a multi-index back to its lexicographic predecessor.  Returns
/// whether a predecessor exists and, as ghost information, the pivot axis
/// that stepped down.
pub fn prev_index(idx: &mut Vec<usize>, shape: &Vec<usize>) -> (res: (bool, Ghost<int>))
    requires
        old(idx)@.len() == shape@.len(),
        valid_index(shape_ints(shape@), shape_ints(old(idx)@)),
    ensures
        final(idx)@.len() == shape@.len(),
        valid_index(shape_ints(shape@), shape_ints(final(idx)@)),
        res.0 ==> 0 <= res.1@ < shape@.len(),
        res.0 ==> final(idx)@[res.1@] as int == old(idx)@[res.1@] as int - 1,
        res.0 ==> forall|k: int| 0 <= k < res.1@ ==> #[trigger] final(idx)@[k] == old(idx)@[k],
        res.0 ==> forall|k: int| res.1@ < k < shape@.len() ==> #[trigger] old(idx)@[k] == 0,
        res.0 ==> forall|k: int|
            res.1@ < k < shape@.len() ==> #[trigger] final(idx)@[k] as int == shape@[k] as int - 1,
        !res.0 ==> final(idx)@ == old(idx)@,
        !res.0 ==> forall|k: int| 0 <= k < shape@.len() ==> #[trigger] old(idx)@[k] == 0,
{
    let n = shape.len();
    let mut j = n;
    while j > 0
        invariant
            0 <= j <= n,
            n == shape@.len() == idx@.len(),
            idx@ == old(idx)@,
            valid_index(shape_ints(shape@), shape_ints(idx@)),
            forall|k: int| j <= k < n ==> #[trigger] idx@[k] == 0,
        decreases j,
    {
        j -= 1;
        let v = idx[j];
        proof {
            assert(shape_ints(idx@)[j as int] == idx@[j as int] as int);
            assert(shape_ints(shape@)[j as int] == shape@[j as int] as int);
            assert(0 <= shape_ints(idx@)[j as int] < shape_ints(shape@)[j as int]);
        }
        if v > 0 {
            idx.set(j, v - 1);
            let ghost mid = idx@;
            let mut m = j + 1;
            while m < n
                invariant
                    j < m <= n,
                    n == shape@.len() == idx@.len(),
                    mid.len() == n,
                    mid[j as int] as int == old(idx)@[j as int] as int - 1,
                    forall|k: int| 0 <= k < n && k != j ==> #[trigger] mid[k] == old(idx)@[k],
                    valid_index(shape_ints(shape@), shape_ints(old(idx)@)),
                    forall|k: int| 0 <= k <= j ==> #[trigger] idx@[k] == mid[k],
                    forall|k: int| j < k < m ==> #[trigger] idx@[k] as int == shape@[k] as int - 1,
                    forall|k: int| m <= k < n ==> #[trigger] idx@[k] == mid[k],
                decreases n - m,
            {
                proof {
                    assert(shape_ints(shape@)[m as int] == shape@[m as int] as int);
                    assert(shape_ints(old(idx)@)[m as int] == old(idx)@[m as int] as int);
                    assert(shape@[m as int] as int >= 1);
                }
                idx.set(m, shape[m] - 1);
                m += 1;
            }
            proof {
                assert forall|k: int|
                    0 <= k < n implies 0 <= #[trigger] shape_ints(idx@)[k] < shape_ints(shape@)[k] by {
                    assert(shape_ints(shape@)[k] == shape@[k] as int);
                    assert(shape_ints(idx@)[k] == idx@[k] as int);
                    assert(shape_ints(old(idx)@)[k] == old(idx)@[k] as int);
                    assert(0 <= shape_ints(old(idx)@)[k] < shape_ints(shape@)[k]);
                    if k < j {
                        assert(idx@[k] == old(idx)@[k]);
                    } else if k == j {
                        assert(idx@[k] == mid[k]);
                    } else {
                        assert(idx@[k] as int == shape@[k] as int - 1);
                    }
                }
            }
            return (true, Ghost(j as int));
        }
    }
    (false, Ghost(0))
}

} // verus!
