//! Pure geometry of strided views.
//!
//! A view of rank `n` is a pair of integer sequences: a shape (extents, one
//! per axis) and strides (address step per axis, in elements).  A
//! multi-index `idx` maps to the address `offset + sum_k idx[k] * strides[k]`.
//! This module defines the spec-level vocabulary for such maps (spans,
//! products, stride dominance, exact tiling) and proves the facts the
//! executable code needs: address bounds, injectivity, and how the address
//! moves under a lexicographic step of the index.

use vstd::prelude::*;

verus! {

/// Sum of `f(0) + f(1) + ... + f(n - 1)`.
pub open spec fn sum(n: nat, f: spec_fn(int) -> int) -> int
    decreases n,
{
    if n == 0 {
        0
    } else {
        sum((n - 1) as nat, f) + f(n - 1)
    }
}

/// Sums of pointwise-equal functions agree.
pub proof fn lemma_sum_ext(n: nat, f: spec_fn(int) -> int, g: spec_fn(int) -> int)
    requires
        forall|k: int| 0 <= k < n ==> #[trigger] f(k) == g(k),
    ensures
        sum(n, f) == sum(n, g),
    decreases n,
{
    if n > 0 {
        lemma_sum_ext((n - 1) as nat, f, g);
    }
}

/// Summing preserves pointwise `<=`.
pub proof fn lemma_sum_le(n: nat, f: spec_fn(int) -> int, g: spec_fn(int) -> int)
    requires
        forall|k: int| 0 <= k < n ==> #[trigger] f(k) <= #[trigger] g(k),
    ensures
        sum(n, f) <= sum(n, g),
    decreases n,
{
    if n > 0 {
        lemma_sum_le((n - 1) as nat, f, g);
    }
}

/// A sum of zeros is zero.
pub proof fn lemma_sum_zero(n: nat, f: spec_fn(int) -> int)
    requires
        forall|k: int| 0 <= k < n ==> #[trigger] f(k) == 0,
    ensures
        sum(n, f) == 0,
    decreases n,
{
    if n > 0 {
        lemma_sum_zero((n - 1) as nat, f);
    }
}

/// Summing distributes over pointwise addition.
pub proof fn lemma_sum_add(
    n: nat,
    f: spec_fn(int) -> int,
    g: spec_fn(int) -> int,
    h: spec_fn(int) -> int,
)
    requires
        forall|k: int| 0 <= k < n ==> #[trigger] h(k) == #[trigger] f(k) + g(k),
    ensures
        sum(n, h) == sum(n, f) + sum(n, g),
    decreases n,
{
    if n > 0 {
        lemma_sum_add((n - 1) as nat, f, g, h);
    }
}

/// Removing position `j` from the index range: `g` enumerates `f` with `j`
/// skipped, so the sums differ by `f(j)`.
pub proof fn lemma_sum_remove(n: nat, f: spec_fn(int) -> int, g: spec_fn(int) -> int, j: int)
    requires
        0 <= j < n,
        forall|k: int| 0 <= k < j ==> #[trigger] g(k) == f(k),
        forall|k: int| j <= k < n - 1 ==> #[trigger] g(k) == f(k + 1),
    ensures
        sum((n - 1) as nat, g) == sum(n, f) - f(j),
    decreases n,
{
    if j == n - 1 {
        lemma_sum_ext((n - 1) as nat, g, f);
    } else {
        lemma_sum_remove((n - 1) as nat, f, g, j);
    }
}

/// `p` is a permutation of `0 .. n`.
pub open spec fn is_perm(n: int, p: Seq<int>) -> bool {
    &&& p.len() == n
    &&& forall|i: int| 0 <= i < n ==> 0 <= #[trigger] p[i] < n
    &&& forall|i: int, j: int| 0 <= i < j < n ==> p[i] != p[j]
    &&& forall|v: int| 0 <= v < n ==> #[trigger] p.contains(v)
}

/// The identity map is a permutation.
pub proof fn lemma_perm_identity(n: int, p: Seq<int>)
    requires
        n >= 0,
        p == Seq::new(n as nat, |k: int| k),
    ensures
        is_perm(n, p),
{
    assert forall|v: int| 0 <= v < n implies #[trigger] p.contains(v) by {
        assert(p[v] == v);
    }
}

/// Swapping two entries of a permutation yields a permutation.
pub proof fn lemma_perm_swap(n: int, p: Seq<int>, i: int, j: int)
    requires
        is_perm(n, p),
        0 <= i < n,
        0 <= j < n,
    ensures
        is_perm(n, p.update(i, p[j]).update(j, p[i])),
{
    let q = p.update(i, p[j]).update(j, p[i]);
    assert forall|v: int| 0 <= v < n implies #[trigger] q.contains(v) by {
        let w = choose|w: int| 0 <= w < n && p[w] == v;
        assert(p.contains(v));
        assert(p[w] == v);
        if w == i {
            assert(q[j] == v);
        } else if w == j {
            assert(q[i] == v);
        } else {
            assert(q[w] == v);
        }
    }
}

/// A sum is invariant under a permutation of the index range.
pub proof fn lemma_sum_perm(n: nat, f: spec_fn(int) -> int, fp: spec_fn(int) -> int, p: Seq<int>)
    requires
        is_perm(n as int, p),
        forall|k: int| 0 <= k < n ==> #[trigger] fp(k) == f(p[k]),
    ensures
        sum(n, fp) == sum(n, f),
    decreases n,
{
    if n > 0 {
        let nm = (n - 1) as nat;
        assert(p.contains(n - 1));
        let j = choose|j: int| 0 <= j < p.len() && p[j] == n - 1;
        // p with position j removed is a permutation of 0 .. n-1
        let q = p.remove(j);
        assert forall|v: int| 0 <= v < nm implies #[trigger] q.contains(v) by {
            assert(p.contains(v));
            let w = choose|w: int| 0 <= w < n && p[w] == v;
            if w < j {
                assert(q[w] == v);
            } else {
                assert(w != j);
                assert(q[w - 1] == v);
            }
        }
        assert forall|a: int, b: int| 0 <= a < b < nm implies q[a] != q[b] by {
            let pa = if a < j { a } else { a + 1 };
            let pb = if b < j { b } else { b + 1 };
            assert(q[a] == p[pa]);
            assert(q[b] == p[pb]);
        }
        assert(is_perm(nm as int, q));
        let gq = |k: int| f(q[k]);
        let gfp = |k: int| if k < j { fp(k) } else { fp(k + 1) };
        lemma_sum_remove(n, fp, gfp, j);
        assert forall|k: int| 0 <= k < nm implies #[trigger] gfp(k) == gq(k) by {
            if k < j {
                assert(q[k] == p[k]);
            } else {
                assert(q[k] == p[k + 1]);
            }
        }
        lemma_sum_ext(nm, gfp, gq);
        lemma_sum_perm(nm, f, gq, q);
        assert(sum(nm, gq) == sum(nm, f));
        assert(sum(n, fp) == sum(nm, gfp) + fp(j) + f(n - 1) - f(p[j]));
        assert(fp(j) == f(n - 1));
        assert(sum(n, f) == sum(nm, f) + f(n - 1));
    }
}

/// A sum whose only nonzero term sits at position `i` equals that term.
pub proof fn lemma_sum_single(n: nat, f: spec_fn(int) -> int, i: int, v: int)
    requires
        0 <= i < n,
        f(i) == v,
        forall|k: int| 0 <= k < n && k != i ==> #[trigger] f(k) == 0,
    ensures
        sum(n, f) == v,
    decreases n,
{
    if i == n - 1 {
        lemma_sum_zero((n - 1) as nat, f);
    } else {
        lemma_sum_single((n - 1) as nat, f, i, v);
    }
}

/// A sum of nonnegative terms is at least any single term.
pub proof fn lemma_sum_ge_single(n: nat, f: spec_fn(int) -> int, i: int)
    requires
        0 <= i < n,
        forall|k: int| 0 <= k < n ==> #[trigger] f(k) >= 0,
    ensures
        sum(n, f) >= f(i),
        sum(n, f) >= 0,
    decreases n,
{
    if i < n - 1 {
        lemma_sum_ge_single((n - 1) as nat, f, i);
        assert(f(n - 1) >= 0);
        assert(sum(n, f) == sum((n - 1) as nat, f) + f(n - 1));
    } else {
        if n > 1 {
            lemma_sum_ge_single((n - 1) as nat, f, 0);
        }
        assert(f(i) >= 0);
        assert(sum(n, f) == sum((n - 1) as nat, f) + f(n - 1));
    }
}

/// Extending the range of a sum over nonnegative terms cannot decrease it.
pub proof fn lemma_sum_extend_nonneg(k: nat, n: nat, f: spec_fn(int) -> int)
    requires
        k <= n,
        forall|j: int| k <= j < n ==> #[trigger] f(j) >= 0,
    ensures
        sum(k, f) <= sum(n, f),
    decreases n,
{
    if k < n {
        lemma_sum_extend_nonneg(k, (n - 1) as nat, f);
    }
}

/// Extending the range of a sum over nonpositive terms cannot increase it.
pub proof fn lemma_sum_extend_nonpos(k: nat, n: nat, f: spec_fn(int) -> int)
    requires
        k <= n,
        forall|j: int| k <= j < n ==> #[trigger] f(j) <= 0,
    ensures
        sum(k, f) >= sum(n, f),
    decreases n,
{
    if k < n {
        lemma_sum_extend_nonpos(k, (n - 1) as nat, f);
    }
}

/// Product of `f(0) * f(1) * ... * f(n - 1)`.
pub open spec fn prod(n: nat, f: spec_fn(int) -> int) -> int
    decreases n,
{
    if n == 0 {
        1
    } else {
        prod((n - 1) as nat, f) * f(n - 1)
    }
}

/// Products of pointwise-equal functions agree.
pub proof fn lemma_prod_ext(n: nat, f: spec_fn(int) -> int, g: spec_fn(int) -> int)
    requires
        forall|k: int| 0 <= k < n ==> #[trigger] f(k) == g(k),
    ensures
        prod(n, f) == prod(n, g),
    decreases n,
{
    if n > 0 {
        lemma_prod_ext((n - 1) as nat, f, g);
    }
}

/// Removing position `j` from the index range divides the product by `f(j)`.
pub proof fn lemma_prod_remove(n: nat, f: spec_fn(int) -> int, g: spec_fn(int) -> int, j: int)
    requires
        0 <= j < n,
        forall|k: int| 0 <= k < j ==> #[trigger] g(k) == f(k),
        forall|k: int| j <= k < n - 1 ==> #[trigger] g(k) == f(k + 1),
    ensures
        prod(n, f) == prod((n - 1) as nat, g) * f(j),
    decreases n,
{
    if j == n - 1 {
        lemma_prod_ext((n - 1) as nat, g, f);
    } else {
        lemma_prod_remove((n - 1) as nat, f, g, j);
        assert(prod(n, f) == prod((n - 1) as nat, f) * f(n - 1));
        assert(prod((n - 1) as nat, f) == prod((n - 2) as nat, g) * f(j));
        assert(g(n - 2) == f(n - 1));
        assert(prod((n - 1) as nat, g) == prod((n - 2) as nat, g) * g(n - 2));
        assert(prod((n - 2) as nat, g) * f(j) * f(n - 1) == prod((n - 2) as nat, g) * f(n - 1) * f(
        j)) by (nonlinear_arith);
    }
}

/// A product is invariant under a permutation of the index range.
pub proof fn lemma_prod_perm(n: nat, f: spec_fn(int) -> int, fp: spec_fn(int) -> int, p: Seq<int>)
    requires
        is_perm(n as int, p),
        forall|k: int| 0 <= k < n ==> #[trigger] fp(k) == f(p[k]),
    ensures
        prod(n, fp) == prod(n, f),
    decreases n,
{
    if n > 0 {
        let nm = (n - 1) as nat;
        assert(p.contains(n - 1));
        let j = choose|j: int| 0 <= j < p.len() && p[j] == n - 1;
        let q = p.remove(j);
        assert forall|v: int| 0 <= v < nm implies #[trigger] q.contains(v) by {
            assert(p.contains(v));
            let w = choose|w: int| 0 <= w < n && p[w] == v;
            if w < j {
                assert(q[w] == v);
            } else {
                assert(w != j);
                assert(q[w - 1] == v);
            }
        }
        assert forall|a: int, b: int| 0 <= a < b < nm implies q[a] != q[b] by {
            let pa = if a < j { a } else { a + 1 };
            let pb = if b < j { b } else { b + 1 };
            assert(q[a] == p[pa]);
            assert(q[b] == p[pb]);
        }
        assert(is_perm(nm as int, q));
        let gq = |k: int| f(q[k]);
        let gfp = |k: int| if k < j { fp(k) } else { fp(k + 1) };
        lemma_prod_remove(n, fp, gfp, j);
        assert forall|k: int| 0 <= k < nm implies #[trigger] gfp(k) == gq(k) by {
            if k < j {
                assert(q[k] == p[k]);
            } else {
                assert(q[k] == p[k + 1]);
            }
        }
        lemma_prod_ext(nm, gfp, gq);
        lemma_prod_perm(nm, f, gq, q);
        assert(prod(n, fp) == prod(nm, gfp) * fp(j));
        assert(fp(j) == f(n - 1));
        assert(prod(n, f) == prod(nm, f) * f(n - 1));
    }
}

/// Absolute value.
pub open spec fn abs(x: int) -> int {
    if x >= 0 {
        x
    } else {
        -x
    }
}

/// `x - 1` clamped at zero: the largest index step available along an axis
/// of extent `x`.
pub open spec fn ext1(x: int) -> int {
    if x >= 1 {
        x - 1
    } else {
        0
    }
}

/// `idx` is a valid multi-index for `sh`.
pub open spec fn valid_index(sh: Seq<int>, idx: Seq<int>) -> bool {
    &&& idx.len() == sh.len()
    &&& forall|k: int| 0 <= k < sh.len() ==> 0 <= #[trigger] idx[k] < sh[k]
}

/// The address contribution of a multi-index under the given strides.
pub open spec fn offset_of(st: Seq<int>, idx: Seq<int>) -> int {
    sum(st.len(), |k: int| idx[k] * st[k])
}

/// Sum over axes `from ..` of `(extent - 1) * |stride|`: how far addresses
/// of the sub-view spanned by those axes can reach.
pub open spec fn span_from(sh: Seq<int>, st: Seq<int>, from: int) -> int {
    sum(sh.len(), |k: int| if k >= from { ext1(sh[k]) * abs(st[k]) } else { 0 })
}

/// Largest nonnegative address contribution a valid index can make.
pub open spec fn pos_span(sh: Seq<int>, st: Seq<int>) -> int {
    sum(sh.len(), |k: int| if st[k] >= 0 { ext1(sh[k]) * st[k] } else { 0 })
}

/// Smallest (most negative) address contribution a valid index can make.
pub open spec fn neg_span(sh: Seq<int>, st: Seq<int>) -> int {
    sum(sh.len(), |k: int| if st[k] < 0 { ext1(sh[k]) * st[k] } else { 0 })
}

/// Number of valid multi-indices: the product of the extents.
pub open spec fn product(sh: Seq<int>) -> int {
    prod(sh.len(), |k: int| sh[k])
}

/// Product of the extents of axes `from ..`.
pub open spec fn prod_from(sh: Seq<int>, from: int) -> int {
    prod(sh.len(), |k: int| if k >= from { sh[k] } else { 1 })
}

/// Span, over other axes of extent at least 2 whose stride magnitude does
/// not exceed that of axis `i`, of `(extent - 1) * |stride|`.  An axis whose
/// stride strictly dominates this sum moves the address further than all
/// smaller-stride axes combined can.
pub open spec fn dom_term(sh: Seq<int>, st: Seq<int>, i: int, k: int) -> int {
    if k != i && sh[k] >= 2 && abs(st[k]) <= abs(st[i]) {
        (sh[k] - 1) * abs(st[k])
    } else {
        0
    }
}

/// See [`dominated`]: the combined span of the other axes whose stride
/// magnitude does not exceed that of axis `i`.
pub open spec fn dom_sum(sh: Seq<int>, st: Seq<int>, i: int) -> int {
    sum(sh.len(), |k: int| dom_term(sh, st, i, k))
}

/// Every axis of extent at least 2 strictly dominates the combined span of
/// the axes with smaller or equal stride magnitude.  Such a map is injective
/// on valid indices.
pub open spec fn dominated(sh: Seq<int>, st: Seq<int>) -> bool {
    forall|i: int| 0 <= i < sh.len() && sh[i] >= 2 ==> abs(st[i]) > #[trigger] dom_sum(sh, st, i)
}

/// Every axis of extent at least 2 steps exactly one past the combined span
/// of the axes with smaller stride magnitude: the view tiles an address
/// interval without gaps.
pub open spec fn exact(sh: Seq<int>, st: Seq<int>) -> bool {
    forall|i: int| 0 <= i < sh.len() && sh[i] >= 2 ==> abs(st[i]) == 1 + #[trigger] dom_sum(
        sh,
        st,
        i,
    )
}

/// Ordered form of exactness: all strides nonnegative and every axis of
/// extent at least 2 steps exactly one past the span of the axes after it.
/// Lexicographic index order then visits consecutive addresses.
pub open spec fn tiled(sh: Seq<int>, st: Seq<int>) -> bool {
    &&& sh.len() == st.len()
    &&& forall|k: int| 0 <= k < st.len() ==> #[trigger] st[k] >= 0
    &&& forall|i: int|
        0 <= i < sh.len() && sh[i] >= 2 ==> st[i] == 1 + #[trigger] span_from(sh, st, i + 1)
}

/// Strides are in descending order.
pub open spec fn descending(st: Seq<int>) -> bool {
    forall|i: int, j: int| 0 <= i <= j < st.len() ==> #[trigger] st[i] >= #[trigger] st[j]
}

/// `sh` applied through the axis permutation `p`.
pub open spec fn papply(p: Seq<int>, s: Seq<int>) -> Seq<int> {
    Seq::new(p.len() as nat, |k: int| s[p[k]])
}

/// Canonical row-major weights: axis `k` steps over the product of the
/// extents after it.
pub open spec fn canon(sh: Seq<int>) -> Seq<int> {
    Seq::new(sh.len(), |k: int| prod_from(sh, k + 1))
}

/// Every partial address sum of a valid index lies between the negative and
/// positive spans; in particular so does the full one.
pub proof fn lemma_offset_prefix_bounds(sh: Seq<int>, st: Seq<int>, idx: Seq<int>, k: nat)
    requires
        sh.len() == st.len(),
        valid_index(sh, idx),
        k <= st.len(),
    ensures
        neg_span(sh, st) <= sum(k, |j: int| idx[j] * st[j]) <= pos_span(sh, st),
{
    let n = st.len();
    let term = |j: int| idx[j] * st[j];
    let post = |j: int| if st[j] >= 0 { ext1(sh[j]) * st[j] } else { 0 };
    let negt = |j: int| if st[j] < 0 { ext1(sh[j]) * st[j] } else { 0 };
    assert forall|j: int| 0 <= j < k implies #[trigger] term(j) <= #[trigger] post(j) by {
        assert(0 <= idx[j] < sh[j]);
        if st[j] >= 0 {
            assert(idx[j] * st[j] <= (sh[j] - 1) * st[j]) by (nonlinear_arith)
                requires
                    0 <= idx[j] <= sh[j] - 1,
                    st[j] >= 0,
            ;
        } else {
            assert(idx[j] * st[j] <= 0) by (nonlinear_arith)
                requires
                    idx[j] >= 0,
                    st[j] < 0,
            ;
        }
    }
    lemma_sum_le(k, term, post);
    assert forall|j: int| k <= j < n implies #[trigger] post(j) >= 0 by {
        if st[j] >= 0 {
            assert(ext1(sh[j]) * st[j] >= 0) by (nonlinear_arith)
                requires
                    ext1(sh[j]) >= 0,
                    st[j] >= 0,
            ;
        }
    }
    lemma_sum_extend_nonneg(k, n, post);
    assert forall|j: int| 0 <= j < k implies #[trigger] negt(j) <= #[trigger] term(j) by {
        assert(0 <= idx[j] < sh[j]);
        if st[j] < 0 {
            assert((sh[j] - 1) * st[j] <= idx[j] * st[j]) by (nonlinear_arith)
                requires
                    0 <= idx[j] <= sh[j] - 1,
                    st[j] < 0,
            ;
        } else {
            assert(0 <= idx[j] * st[j]) by (nonlinear_arith)
                requires
                    idx[j] >= 0,
                    st[j] >= 0,
            ;
        }
    }
    lemma_sum_le(k, negt, term);
    assert forall|j: int| k <= j < n implies #[trigger] negt(j) <= 0 by {
        if st[j] < 0 {
            assert(ext1(sh[j]) * st[j] <= 0) by (nonlinear_arith)
                requires
                    ext1(sh[j]) >= 0,
                    st[j] < 0,
            ;
        }
    }
    lemma_sum_extend_nonpos(k, n, negt);
}

/// Address bounds for a valid index.
pub proof fn lemma_offset_bounds(sh: Seq<int>, st: Seq<int>, idx: Seq<int>)
    requires
        sh.len() == st.len(),
        valid_index(sh, idx),
    ensures
        neg_span(sh, st) <= offset_of(st, idx) <= pos_span(sh, st),
{
    lemma_offset_prefix_bounds(sh, st, idx, st.len());
}

/// With nonnegative strides the positive span is the whole span and the
/// negative span vanishes.
pub proof fn lemma_spans_nonneg(sh: Seq<int>, st: Seq<int>)
    requires
        sh.len() == st.len(),
        forall|k: int| 0 <= k < st.len() ==> #[trigger] st[k] >= 0,
    ensures
        pos_span(sh, st) == span_from(sh, st, 0),
        neg_span(sh, st) == 0,
{
    let n = st.len();
    lemma_sum_ext(
        n,
        |j: int| if st[j] >= 0 { ext1(sh[j]) * st[j] } else { 0 },
        |j: int| if j >= 0 { ext1(sh[j]) * abs(st[j]) } else { 0 },
    );
    lemma_sum_zero(n, |j: int| if st[j] < 0 { ext1(sh[j]) * st[j] } else { 0 });
}

/// Peeling one axis off a span.
pub proof fn lemma_span_from_step(sh: Seq<int>, st: Seq<int>, i: int)
    requires
        sh.len() == st.len(),
        0 <= i < sh.len(),
    ensures
        span_from(sh, st, i) == ext1(sh[i]) * abs(st[i]) + span_from(sh, st, i + 1),
{
    let n = sh.len();
    let d = |k: int| if k == i { ext1(sh[i]) * abs(st[i]) } else { 0 };
    lemma_sum_single(n, d, i, ext1(sh[i]) * abs(st[i]));
    lemma_sum_add(
        n,
        |k: int| if k >= i + 1 { ext1(sh[k]) * abs(st[k]) } else { 0 },
        d,
        |k: int| if k >= i { ext1(sh[k]) * abs(st[k]) } else { 0 },
    );
}

/// Spans shrink as the starting axis moves inward, and are never negative.
pub proof fn lemma_span_from_mono(sh: Seq<int>, st: Seq<int>, a: int, b: int)
    requires
        sh.len() == st.len(),
        a <= b,
    ensures
        span_from(sh, st, a) >= span_from(sh, st, b),
        span_from(sh, st, b) >= 0,
    decreases sh.len() + b - a + if b > sh.len() { 0int } else { sh.len() - b + 1 },
{
    let n = sh.len();
    let ga = |k: int| if k >= a { ext1(sh[k]) * abs(st[k]) } else { 0 };
    let gb = |k: int| if k >= b { ext1(sh[k]) * abs(st[k]) } else { 0 };
    assert forall|k: int| 0 <= k < n implies #[trigger] gb(k) <= #[trigger] ga(k) by {
        if k >= b {
            assert(ext1(sh[k]) * abs(st[k]) >= 0) by (nonlinear_arith)
                requires
                    ext1(sh[k]) >= 0,
                    abs(st[k]) >= 0,
            ;
        } else if k >= a {
            assert(ext1(sh[k]) * abs(st[k]) >= 0) by (nonlinear_arith)
                requires
                    ext1(sh[k]) >= 0,
                    abs(st[k]) >= 0,
            ;
        }
    }
    lemma_sum_le(n, gb, ga);
    assert forall|k: int| 0 <= k < n implies 0 <= #[trigger] gb(k) by {
        if k >= b {
            assert(ext1(sh[k]) * abs(st[k]) >= 0) by (nonlinear_arith)
                requires
                    ext1(sh[k]) >= 0,
                    abs(st[k]) >= 0,
            ;
        }
    }
    lemma_sum_le(n, |k: int| 0, gb);
    lemma_sum_zero(n, |k: int| 0);
}

/// A product over an all-ones function is one.
pub proof fn lemma_prod_ones(n: nat, f: spec_fn(int) -> int)
    requires
        forall|k: int| 0 <= k < n ==> #[trigger] f(k) == 1,
    ensures
        prod(n, f) == 1,
    decreases n,
{
    if n > 0 {
        lemma_prod_ones((n - 1) as nat, f);
    }
}

/// Peeling one axis off a suffix product.
pub proof fn lemma_prod_from_step(sh: Seq<int>, i: int)
    requires
        0 <= i < sh.len(),
    ensures
        prod_from(sh, i) == sh[i] * prod_from(sh, i + 1),
{
    let n = sh.len();
    let fi = |k: int| if k >= i { sh[k] } else { 1 };
    let fi1 = |k: int| if k >= i + 1 { sh[k] } else { 1 };
    let g = |k: int| if k < i { 1int } else { sh[k + 1] };
    lemma_prod_remove(n, fi, g, i);
    lemma_prod_remove(n, fi1, g, i);
    assert(prod(n, fi) == prod((n - 1) as nat, g) * sh[i]);
    assert(prod(n, fi1) == prod((n - 1) as nat, g) * 1);
    assert(prod((n - 1) as nat, g) * sh[i] == sh[i] * (prod((n - 1) as nat, g) * 1))
        by (nonlinear_arith);
}

/// The suffix product past the end is one, and the full-product forms agree.
pub proof fn lemma_prod_from_base(sh: Seq<int>)
    ensures
        prod_from(sh, sh.len() as int) == 1,
        product(sh) == prod_from(sh, 0),
{
    lemma_prod_ones(sh.len(), |k: int| if k >= sh.len() { sh[k] } else { 1 });
    lemma_prod_ext(sh.len(), |k: int| if k >= 0 { sh[k] } else { 1 }, |k: int| sh[k]);
}

/// Suffix products of a shape with extents at least one are at least one,
/// and shrink as axes are peeled off.
pub proof fn lemma_prod_from_pos(sh: Seq<int>, from: int)
    requires
        0 <= from <= sh.len(),
        forall|k: int| from <= k < sh.len() ==> #[trigger] sh[k] >= 1,
    ensures
        prod_from(sh, from) >= 1,
        forall|b: int|
            from <= b <= sh.len() ==> #[trigger] prod_from(sh, b) >= 1 && prod_from(sh, from)
                >= prod_from(sh, b),
    decreases sh.len() - from,
{
    lemma_prod_from_base(sh);
    if from < sh.len() {
        lemma_prod_from_pos(sh, from + 1);
        lemma_prod_from_step(sh, from);
        assert(sh[from] * prod_from(sh, from + 1) >= prod_from(sh, from + 1)) by (nonlinear_arith)
            requires
                sh[from] >= 1,
                prod_from(sh, from + 1) >= 1,
        ;
        assert forall|b: int|
            from <= b <= sh.len() implies #[trigger] prod_from(sh, b) >= 1 && prod_from(sh, from)
            >= prod_from(sh, b) by {}
    }
}

/// A shape with a zero extent has a zero product.
pub proof fn lemma_product_zero(sh: Seq<int>, z: int)
    requires
        0 <= z < sh.len(),
        sh[z] == 0,
    ensures
        product(sh) == 0,
{
    let n = sh.len();
    let g = |k: int| if k < z { sh[k] } else { sh[k + 1] };
    lemma_prod_remove(n, |k: int| sh[k], g, z);
}

/// A product of nonnegative extents is nonnegative.
pub proof fn lemma_product_nonneg(sh: Seq<int>)
    requires
        forall|k: int| 0 <= k < sh.len() ==> #[trigger] sh[k] >= 0,
    ensures
        product(sh) >= 0,
{
    lemma_product_nonneg_rec(sh, sh.len());
    lemma_prod_ext(sh.len(), |k: int| sh[k], |k: int| sh[k]);
}

proof fn lemma_product_nonneg_rec(sh: Seq<int>, n: nat)
    requires
        n <= sh.len(),
        forall|k: int| 0 <= k < sh.len() ==> #[trigger] sh[k] >= 0,
    ensures
        prod(n, |k: int| sh[k]) >= 0,
    decreases n,
{
    let f = |k: int| sh[k];
    if n > 0 {
        lemma_product_nonneg_rec(sh, (n - 1) as nat);
        assert(prod((n - 1) as nat, f) * f(n - 1) >= 0) by (nonlinear_arith)
            requires
                prod((n - 1) as nat, f) >= 0,
                f(n - 1) >= 0,
        ;
    }
}

/// A positive product forces every extent to be at least one.
pub proof fn lemma_product_pos(sh: Seq<int>)
    requires
        forall|k: int| 0 <= k < sh.len() ==> #[trigger] sh[k] >= 0,
        product(sh) > 0,
    ensures
        forall|k: int| 0 <= k < sh.len() ==> #[trigger] sh[k] >= 1,
{
    assert forall|k: int| 0 <= k < sh.len() implies #[trigger] sh[k] >= 1 by {
        if sh[k] == 0 {
            lemma_product_zero(sh, k);
        }
    }
}

/// How the address moves across one lexicographic step of the index: the
/// pivot axis `i` advances once and every axis after it wraps from its last
/// value to zero.
pub proof fn lemma_step_delta(sh: Seq<int>, st: Seq<int>, idx1: Seq<int>, idx2: Seq<int>, i: int)
    requires
        sh.len() == st.len(),
        valid_index(sh, idx1),
        valid_index(sh, idx2),
        forall|k: int| 0 <= k < st.len() ==> #[trigger] st[k] >= 0,
        0 <= i < sh.len(),
        idx2[i] == idx1[i] + 1,
        forall|k: int| 0 <= k < i ==> #[trigger] idx2[k] == idx1[k],
        forall|k: int| i < k < sh.len() ==> #[trigger] idx1[k] == sh[k] - 1,
        forall|k: int| i < k < sh.len() ==> #[trigger] idx2[k] == 0,
    ensures
        offset_of(st, idx2) == offset_of(st, idx1) + st[i] - span_from(sh, st, i + 1),
{
    let n = sh.len();
    let t1 = |k: int| idx1[k] * st[k];
    let t2 = |k: int| idx2[k] * st[k];
    let d = |k: int|
        if k == i {
            st[i]
        } else if k > i {
            -(ext1(sh[k]) * abs(st[k]))
        } else {
            0
        };
    assert forall|k: int| 0 <= k < n implies #[trigger] t2(k) == t1(k) + d(k) by {
        if k == i {
            assert((idx1[i] + 1) * st[i] == idx1[i] * st[i] + st[i]) by (nonlinear_arith);
        } else if k > i {
            assert(0 <= idx1[k] < sh[k]);
            assert(idx1[k] == sh[k] - 1);
            assert(ext1(sh[k]) == sh[k] - 1);
            assert(abs(st[k]) == st[k]);
            assert(0 * st[k] == 0) by (nonlinear_arith);
        }
    }
    lemma_sum_add(n, t1, d, t2);
    let e = |k: int| if k >= i + 1 { ext1(sh[k]) * abs(st[k]) } else { 0 };
    let s = |k: int| if k == i { st[i] } else { 0 };
    assert forall|k: int| 0 <= k < n implies #[trigger] s(k) == d(k) + e(k) by {}
    lemma_sum_add(n, d, e, s);
    lemma_sum_single(n, s, i, st[i]);
}

/// Among the positions where two valid indices differ there is one whose
/// stride magnitude dominates the others'.
proof fn lemma_exists_max_diff(st: Seq<int>, a: Seq<int>, b: Seq<int>, m: int) -> (i: int)
    requires
        a.len() == st.len(),
        b.len() == st.len(),
        0 < m <= st.len(),
        exists|k: int| 0 <= k < m && a[k] != b[k],
    ensures
        0 <= i < m && a[i] != b[i],
        forall|k: int| 0 <= k < m && a[k] != b[k] ==> abs(st[k]) <= abs(#[trigger] st[i]),
    decreases m,
{
    if exists|k: int| 0 <= k < m - 1 && a[k] != b[k] {
        let j = lemma_exists_max_diff(st, a, b, m - 1);
        if a[m - 1] != b[m - 1] && abs(st[m - 1]) > abs(st[j]) {
            m - 1
        } else {
            j
        }
    } else {
        m - 1
    }
}

/// A dominated stride map is injective on valid indices.
pub proof fn lemma_dominated_injective(sh: Seq<int>, st: Seq<int>, a: Seq<int>, b: Seq<int>)
    requires
        sh.len() == st.len(),
        dominated(sh, st),
        valid_index(sh, a),
        valid_index(sh, b),
        a != b,
    ensures
        offset_of(st, a) != offset_of(st, b),
{
    let n = sh.len();
    if forall|k: int| 0 <= k < n ==> #[trigger] a[k] == b[k] {
        assert(a =~= b);
    }
    let k0 = choose|k: int| 0 <= k < n && a[k] != b[k];
    let i = lemma_exists_max_diff(st, a, b, n as int);
    let ta = |k: int| a[k] * st[k];
    let tb = |k: int| b[k] * st[k];
    let d = |k: int| a[k] * st[k] - b[k] * st[k];
    lemma_sum_add(n, tb, d, ta);
    // split off the dominating position
    let r = |k: int| if k == i { 0int } else { d(k) };
    let s = |k: int| if k == i { d(i) } else { 0 };
    lemma_sum_add(n, r, s, d);
    lemma_sum_single(n, s, i, d(i));
    // the rest is bounded by the dominated sum, in both directions
    let g = |k: int| dom_term(sh, st, i, k);
    let negg = |k: int| -g(k);
    assert forall|k: int| 0 <= k < n implies #[trigger] r(k) <= g(k) && negg(k) <= #[trigger] r(
        k,
    ) by {
        if k != i {
            if a[k] == b[k] {
                assert(r(k) == 0);
                assert(g(k) >= 0) by {
                    if k != i && sh[k] >= 2 && abs(st[k]) <= abs(st[i]) {
                        assert((sh[k] - 1) * abs(st[k]) >= 0) by (nonlinear_arith)
                            requires
                                sh[k] >= 2,
                                abs(st[k]) >= 0,
                        ;
                    }
                }
            } else {
                assert(0 <= a[k] < sh[k] && 0 <= b[k] < sh[k]);
                assert(sh[k] >= 2);
                assert(abs(st[k]) <= abs(st[i]));
                assert(-((sh[k] - 1) * abs(st[k])) <= a[k] * st[k] - b[k] * st[k] <= (sh[k] - 1)
                    * abs(st[k])) by (nonlinear_arith)
                    requires
                        0 <= a[k] <= sh[k] - 1,
                        0 <= b[k] <= sh[k] - 1,
                        abs(st[k]) == if st[k] >= 0 { st[k] } else { -st[k] },
                ;
            }
        }
    }
    lemma_sum_le(n, r, g);
    lemma_sum_le(n, negg, r);
    lemma_sum_add(n, g, negg, |k: int| 0int);
    lemma_sum_zero(n, |k: int| 0int);
    assert(sum(n, g) == dom_sum(sh, st, i));
    // the pivot term outweighs the rest
    assert(sh[i] >= 2);
    assert(abs(st[i]) > dom_sum(sh, st, i));
    assert(d(i) >= abs(st[i]) || d(i) <= -abs(st[i])) by (nonlinear_arith)
        requires
            a[i] != b[i],
            d(i) == a[i] * st[i] - b[i] * st[i],
            abs(st[i]) == if st[i] >= 0 { st[i] } else { -st[i] },
    ;
    assert(sum(n, d) != 0);
    assert(offset_of(st, a) - offset_of(st, b) == sum(n, d)) by {
        lemma_sum_ext(n, ta, |k: int| a[k] * st[k]);
        lemma_sum_ext(n, tb, |k: int| b[k] * st[k]);
    }
}

/// Two distinct sequences have a first position where they differ.
pub proof fn lemma_first_diff(a: Seq<int>, b: Seq<int>, m: int) -> (i: int)
    requires
        a.len() == b.len(),
        0 < m <= a.len(),
        exists|k: int| 0 <= k < m && a[k] != b[k],
    ensures
        0 <= i < m && a[i] != b[i],
        forall|k: int| 0 <= k < i ==> a[k] == #[trigger] b[k],
    decreases m,
{
    if exists|k: int| 0 <= k < m - 1 && a[k] != b[k] {
        lemma_first_diff(a, b, m - 1)
    } else {
        m - 1
    }
}

/// Under descending dominated nonnegative strides, the index that is larger
/// at the first difference sits at the strictly larger address.
pub proof fn lemma_first_diff_order(sh: Seq<int>, st: Seq<int>, a: Seq<int>, b: Seq<int>, i: int)
    requires
        sh.len() == st.len(),
        forall|k: int| 0 <= k < st.len() ==> #[trigger] st[k] >= 0,
        descending(st),
        dominated(sh, st),
        valid_index(sh, a),
        valid_index(sh, b),
        0 <= i < sh.len(),
        a[i] < b[i],
        forall|k: int| 0 <= k < i ==> a[k] == #[trigger] b[k],
    ensures
        offset_of(st, a) < offset_of(st, b),
{
    let n = sh.len();
    assert(sh[i] >= 2) by {
        assert(0 <= a[i] && b[i] < sh[i]);
    }
    let ta = |k: int| a[k] * st[k];
    let tb = |k: int| b[k] * st[k];
    let d = |k: int| b[k] * st[k] - a[k] * st[k];
    lemma_sum_add(n, ta, d, tb);
    let g = |k: int|
        if k == i {
            st[i]
        } else if k > i {
            -(ext1(sh[k]) * abs(st[k]))
        } else {
            0
        };
    assert forall|k: int| 0 <= k < n implies #[trigger] g(k) <= d(k) by {
        if k == i {
            assert((b[i] - a[i]) * st[i] >= st[i]) by (nonlinear_arith)
                requires
                    b[i] - a[i] >= 1,
                    st[i] >= 0,
            ;
            assert(b[i] * st[i] - a[i] * st[i] == (b[i] - a[i]) * st[i]) by (nonlinear_arith);
        } else if k > i {
            assert(0 <= a[k] < sh[k] && 0 <= b[k] < sh[k]);
            assert(abs(st[k]) == st[k]);
            assert(ext1(sh[k]) == sh[k] - 1);
            assert(-((sh[k] - 1) * st[k]) <= b[k] * st[k] - a[k] * st[k]) by (nonlinear_arith)
                requires
                    0 <= a[k] <= sh[k] - 1,
                    0 <= b[k] <= sh[k] - 1,
                    st[k] >= 0,
            ;
        } else {
            assert(a[k] == b[k]);
        }
    }
    lemma_sum_le(n, g, d);
    // sum of g is the pivot stride past the suffix span
    let e = |k: int| if k >= i + 1 { ext1(sh[k]) * abs(st[k]) } else { 0 };
    let s = |k: int| if k == i { st[i] } else { 0 };
    assert forall|k: int| 0 <= k < n implies #[trigger] s(k) == g(k) + e(k) by {}
    lemma_sum_add(n, g, e, s);
    lemma_sum_single(n, s, i, st[i]);
    assert(sum(n, g) == st[i] - span_from(sh, st, i + 1));
    // dominance: the suffix span stays below the pivot stride
    let di = |k: int| dom_term(sh, st, i, k);
    assert forall|k: int| 0 <= k < n implies #[trigger] e(k) <= di(k) by {
        if k >= i + 1 {
            if sh[k] >= 2 {
                assert(st[k] <= st[i]);
                assert(abs(st[k]) <= abs(st[i]));
                assert(ext1(sh[k]) == sh[k] - 1);
            } else {
                assert(ext1(sh[k]) == 0);
                assert(0 * abs(st[k]) == 0) by (nonlinear_arith);
                lemma_dom_term_nonneg(sh, st, i);
            }
        } else {
            lemma_dom_term_nonneg(sh, st, i);
        }
    }
    lemma_sum_le(n, e, di);
    assert(span_from(sh, st, i + 1) <= dom_sum(sh, st, i));
    assert(abs(st[i]) == st[i]);
    assert(st[i] > dom_sum(sh, st, i));
    assert(offset_of(st, b) - offset_of(st, a) == sum(n, d)) by {
        lemma_sum_ext(n, ta, |k: int| a[k] * st[k]);
        lemma_sum_ext(n, tb, |k: int| b[k] * st[k]);
    }
}

/// The all-zero index maps to offset zero.
pub proof fn lemma_offset_zero_index(st: Seq<int>, idx: Seq<int>)
    requires
        idx.len() == st.len(),
        forall|k: int| 0 <= k < idx.len() ==> #[trigger] idx[k] == 0,
    ensures
        offset_of(st, idx) == 0,
{
    let n = st.len();
    assert forall|k: int| 0 <= k < n implies #[trigger] (idx[k] * st[k]) == 0 by {
        assert(0 * st[k] == 0) by (nonlinear_arith);
    }
    lemma_sum_zero(n, |k: int| idx[k] * st[k]);
}

/// The all-maximal index of a nonnegative-stride view maps to the full span.
pub proof fn lemma_offset_max_index(sh: Seq<int>, st: Seq<int>, idx: Seq<int>)
    requires
        sh.len() == st.len(),
        valid_index(sh, idx),
        forall|k: int| 0 <= k < idx.len() ==> #[trigger] idx[k] == sh[k] - 1,
        forall|k: int| 0 <= k < st.len() ==> #[trigger] st[k] >= 0,
    ensures
        offset_of(st, idx) == span_from(sh, st, 0),
{
    let n = st.len();
    lemma_sum_ext(
        n,
        |k: int| idx[k] * st[k],
        |k: int| if k >= 0 { ext1(sh[k]) * abs(st[k]) } else { 0 },
    );
}

/// Exactness is a sharper form of dominance.
pub proof fn lemma_exact_dominated(sh: Seq<int>, st: Seq<int>)
    requires
        exact(sh, st),
    ensures
        dominated(sh, st),
{
}

/// Among the axes of extent at least 2 below `m` there is one whose stride
/// magnitude dominates the others'.
proof fn lemma_argmax_essential(sh: Seq<int>, st: Seq<int>, m: int) -> (i: int)
    requires
        sh.len() == st.len(),
        0 < m <= sh.len(),
        exists|k: int| 0 <= k < m && sh[k] >= 2,
    ensures
        0 <= i < m && sh[i] >= 2,
        forall|k: int| 0 <= k < m && #[trigger] sh[k] >= 2 ==> abs(st[k]) <= abs(st[i]),
    decreases m,
{
    if exists|k: int| 0 <= k < m - 1 && sh[k] >= 2 {
        let j = lemma_argmax_essential(sh, st, m - 1);
        if sh[m - 1] >= 2 && abs(st[m - 1]) > abs(st[j]) {
            m - 1
        } else {
            j
        }
    } else {
        m - 1
    }
}

/// Every term of a dominated sum is nonnegative.
pub proof fn lemma_dom_term_nonneg(sh: Seq<int>, st: Seq<int>, i: int)
    ensures
        forall|k: int| #[trigger] dom_term(sh, st, i, k) >= 0,
{
    assert forall|k: int| #[trigger] dom_term(sh, st, i, k) >= 0 by {
        if k != i && sh[k] >= 2 && abs(st[k]) <= abs(st[i]) {
            assert((sh[k] - 1) * abs(st[k]) >= 0) by (nonlinear_arith)
                requires
                    sh[k] >= 2,
                    abs(st[k]) >= 0,
            ;
        }
    }
}

/// In an exact view, two distinct axes of extent at least 2 cannot share a
/// stride magnitude.
proof fn lemma_exact_no_ties(sh: Seq<int>, st: Seq<int>, i: int, k: int)
    requires
        sh.len() == st.len(),
        exact(sh, st),
        0 <= i < sh.len(),
        0 <= k < sh.len(),
        i != k,
        sh[i] >= 2,
        sh[k] >= 2,
    ensures
        abs(st[i]) != abs(st[k]),
{
    if abs(st[i]) == abs(st[k]) {
        lemma_dom_term_nonneg(sh, st, k);
        lemma_sum_ge_single(sh.len(), |m: int| dom_term(sh, st, k, m), i);
        assert(dom_term(sh, st, k, i) == (sh[i] - 1) * abs(st[i]));
        assert((sh[i] - 1) * abs(st[i]) >= abs(st[i])) by (nonlinear_arith)
            requires
                sh[i] >= 2,
                abs(st[i]) >= 0,
        ;
        assert(abs(st[k]) == 1 + dom_sum(sh, st, k));
    }
}

/// Removing a top-stride axis of extent at least 2 from an exact view leaves
/// an exact view, and relates its span, product and dominated sum to the
/// original's.
proof fn lemma_exact_remove_top(sh: Seq<int>, st: Seq<int>, i: int)
    requires
        sh.len() == st.len(),
        exact(sh, st),
        0 <= i < sh.len(),
        sh[i] >= 2,
        forall|k: int|
            0 <= k < sh.len() && k != i && #[trigger] sh[k] >= 2 ==> abs(st[k]) <= abs(st[i]),
    ensures
        exact(sh.remove(i), st.remove(i)),
        sh.remove(i).len() == st.remove(i).len(),
        dom_sum(sh, st, i) == span_from(sh.remove(i), st.remove(i), 0),
        span_from(sh, st, 0) == span_from(sh.remove(i), st.remove(i), 0) + (sh[i] - 1) * abs(
            st[i],
        ),
        product(sh) == product(sh.remove(i)) * sh[i],
{
    let n = sh.len();
    let nm = (n - 1) as nat;
    let sh2 = sh.remove(i);
    let st2 = st.remove(i);
    assert forall|m: int| 0 <= m < nm implies #[trigger] sh2[m] == sh[if m < i {
        m
    } else {
        m + 1
    }] && #[trigger] st2[m] == st[if m < i {
        m
    } else {
        m + 1
    }] by {}
    // span of the removal
    let full = |k: int| if k >= 0 { ext1(sh[k]) * abs(st[k]) } else { 0 };
    let rem = |m: int| if m >= 0 { ext1(sh2[m]) * abs(st2[m]) } else { 0 };
    lemma_sum_remove(n, full, rem, i);
    assert(span_from(sh, st, 0) == sum(n, full)) by {
        lemma_sum_ext(n, full, |k: int| if k >= 0 { ext1(sh[k]) * abs(st[k]) } else { 0 });
    }
    assert(ext1(sh[i]) == sh[i] - 1);
    // the dominated sum at the top axis is the span of the others
    let di = |k: int| dom_term(sh, st, i, k);
    let fullm = |k: int| if k == i { 0int } else { full(k) };
    assert forall|k: int| 0 <= k < n implies #[trigger] di(k) == fullm(k) by {
        if k != i {
            if sh[k] >= 2 {
                assert(abs(st[k]) <= abs(st[i]));
                assert(ext1(sh[k]) == sh[k] - 1);
            } else {
                assert(ext1(sh[k]) == 0);
                assert(0 * abs(st[k]) == 0) by (nonlinear_arith);
            }
        }
    }
    lemma_sum_ext(n, di, fullm);
    lemma_sum_remove(n, fullm, rem, i);
    // the product of the removal
    let pfull = |k: int| sh[k];
    let prem = |m: int| sh2[m];
    lemma_prod_remove(n, pfull, prem, i);
    // exactness of the removal
    assert forall|m: int| 0 <= m < nm && sh2[m] >= 2 implies abs(st2[m]) == 1 + #[trigger] dom_sum(
        sh2,
        st2,
        m,
    ) by {
        let k = if m < i {
            m
        } else {
            m + 1
        };
        lemma_exact_no_ties(sh, st, i, k);
        let dk = |q: int| dom_term(sh, st, k, q);
        let dm = |q: int| dom_term(sh2, st2, m, q);
        assert forall|q: int| 0 <= q < nm implies #[trigger] dm(q) == dk(if q < i {
            q
        } else {
            q + 1
        }) by {
            let q2 = if q < i {
                q
            } else {
                q + 1
            };
            assert(sh2[q] == sh[q2] && st2[q] == st[q2]);
            assert(q == m <==> q2 == k);
        }
        lemma_sum_remove(n, dk, dm, i);
        assert(dom_term(sh, st, k, i) == 0) by {
            assert(abs(st[i]) > abs(st[k])) by {
                assert(abs(st[k]) <= abs(st[i]));
            }
        }
        assert(abs(st[k]) == 1 + dom_sum(sh, st, k));
    }
}

/// An exact view spans exactly one address per valid index: its span is one
/// less than its index count.
pub proof fn lemma_exact_span_prod(sh: Seq<int>, st: Seq<int>)
    requires
        sh.len() == st.len(),
        exact(sh, st),
        forall|k: int| 0 <= k < sh.len() ==> #[trigger] sh[k] >= 1,
    ensures
        span_from(sh, st, 0) == product(sh) - 1,
    decreases sh.len(),
{
    let n = sh.len();
    if exists|k: int| 0 <= k < n && sh[k] >= 2 {
        let i = lemma_argmax_essential(sh, st, n as int);
        lemma_exact_remove_top(sh, st, i);
        lemma_exact_span_prod(sh.remove(i), st.remove(i));
        // the top stride steps one past the span of the others
        assert(abs(st[i]) == 1 + dom_sum(sh, st, i));
        let pr = product(sh.remove(i));
        assert(span_from(sh, st, 0) == pr - 1 + (sh[i] - 1) * pr) by (nonlinear_arith)
            requires
                span_from(sh, st, 0) == (pr - 1) + (sh[i] - 1) * abs(st[i]),
                abs(st[i]) == pr,
        ;
        assert(pr - 1 + (sh[i] - 1) * pr == sh[i] * pr - 1) by (nonlinear_arith);
    } else {
        let full = |k: int| if k >= 0 { ext1(sh[k]) * abs(st[k]) } else { 0 };
        assert forall|k: int| 0 <= k < n implies #[trigger] full(k) == 0 by {
            assert(sh[k] == 1);
            assert(0 * abs(st[k]) == 0) by (nonlinear_arith);
        }
        lemma_sum_zero(n, full);
        lemma_prod_ones(n, |k: int| sh[k]);
    }
}

/// The stride of a top axis of an exact view is the index count of the other
/// axes.
pub proof fn lemma_exact_top_stride(sh: Seq<int>, st: Seq<int>, i: int)
    requires
        sh.len() == st.len(),
        exact(sh, st),
        forall|k: int| 0 <= k < sh.len() ==> #[trigger] sh[k] >= 1,
        0 <= i < sh.len(),
        sh[i] >= 2,
        forall|k: int|
            0 <= k < sh.len() && k != i && #[trigger] sh[k] >= 2 ==> abs(st[k]) <= abs(st[i]),
    ensures
        abs(st[i]) == product(sh.remove(i)),
        product(sh) == product(sh.remove(i)) * sh[i],
{
    lemma_exact_remove_top(sh, st, i);
    lemma_exact_span_prod(sh.remove(i), st.remove(i));
}

/// An exact view whose strides are nonnegative and descending is tiled.
pub proof fn lemma_exact_desc_tiled(sh: Seq<int>, st: Seq<int>)
    requires
        sh.len() == st.len(),
        exact(sh, st),
        forall|k: int| 0 <= k < st.len() ==> #[trigger] st[k] >= 0,
        descending(st),
    ensures
        tiled(sh, st),
{
    let n = sh.len();
    assert forall|i: int| 0 <= i < n && sh[i] >= 2 implies st[i] == 1 + #[trigger] span_from(
        sh,
        st,
        i + 1,
    ) by {
        let di = |k: int| dom_term(sh, st, i, k);
        let suf = |k: int| if k >= i + 1 { ext1(sh[k]) * abs(st[k]) } else { 0 };
        assert forall|k: int| 0 <= k < n implies #[trigger] di(k) == suf(k) by {
            if k < i {
                if k != i && sh[k] >= 2 && abs(st[k]) <= abs(st[i]) {
                    assert(st[k] >= st[i]);
                    assert(abs(st[k]) == abs(st[i]));
                    lemma_exact_no_ties(sh, st, i, k);
                }
            } else if k == i {
            } else {
                if sh[k] >= 2 {
                    assert(st[k] <= st[i]);
                    assert(ext1(sh[k]) == sh[k] - 1);
                } else {
                    assert(ext1(sh[k]) == 0);
                    assert(0 * abs(st[k]) == 0) by (nonlinear_arith);
                }
            }
        }
        lemma_sum_ext(n, di, suf);
        assert(abs(st[i]) == 1 + dom_sum(sh, st, i));
    }
}

/// A tiled view is dominated.
pub proof fn lemma_tiled_dominated(sh: Seq<int>, st: Seq<int>)
    requires
        tiled(sh, st),
    ensures
        dominated(sh, st),
{
    let n = sh.len();
    assert forall|i: int| 0 <= i < n && sh[i] >= 2 implies abs(st[i]) > #[trigger] dom_sum(
        sh,
        st,
        i,
    ) by {
        let di = |k: int| dom_term(sh, st, i, k);
        let suf = |k: int| if k >= i + 1 { ext1(sh[k]) * abs(st[k]) } else { 0 };
        lemma_span_from_mono(sh, st, i + 1, sh.len() as int);
        assert forall|k: int| 0 <= k < n implies #[trigger] di(k) <= suf(k) by {
            if k < i {
                if k != i && sh[k] >= 2 && abs(st[k]) <= abs(st[i]) {
                    // a tiled axis before i strictly exceeds st[i]
                    lemma_span_from_mono(sh, st, k + 1, i);
                    lemma_span_from_step(sh, st, i);
                    lemma_span_from_mono(sh, st, i + 1, sh.len() as int);
                    assert(st[k] == 1 + span_from(sh, st, k + 1));
                    assert(span_from(sh, st, k + 1) >= span_from(sh, st, i));
                    assert(ext1(sh[i]) * abs(st[i]) >= st[i]) by (nonlinear_arith)
                        requires
                            sh[i] >= 2,
                            st[i] >= 0,
                            ext1(sh[i]) == sh[i] - 1,
                            abs(st[i]) == st[i],
                    ;
                    assert(st[k] > st[i]);
                    assert(abs(st[k]) == st[k] && abs(st[i]) == st[i]);
                }
            } else if k == i {
                lemma_span_from_mono(sh, st, i + 1, sh.len() as int);
            } else {
                if sh[k] >= 2 && abs(st[k]) <= abs(st[i]) {
                    assert(ext1(sh[k]) == sh[k] - 1);
                } else {
                    assert(di(k) == 0);
                    assert(ext1(sh[k]) * abs(st[k]) >= 0) by (nonlinear_arith)
                        requires
                            ext1(sh[k]) >= 0,
                            abs(st[k]) >= 0,
                    ;
                }
            }
        }
        lemma_sum_le(n, di, suf);
        assert(st[i] == 1 + span_from(sh, st, i + 1));
    }
}

/// The span of a tiled view, from any axis inward, is one less than the
/// index count of those axes.
pub proof fn lemma_tiled_span_prod(sh: Seq<int>, st: Seq<int>, i: int)
    requires
        sh.len() == st.len(),
        tiled(sh, st),
        forall|k: int| 0 <= k < sh.len() ==> #[trigger] sh[k] >= 1,
        0 <= i <= sh.len(),
    ensures
        span_from(sh, st, i) == prod_from(sh, i) - 1,
    decreases sh.len() - i,
{
    let n = sh.len();
    if i == n {
        let gi = |k: int| if k >= i { ext1(sh[k]) * abs(st[k]) } else { 0 };
        lemma_sum_zero(n, gi);
        lemma_prod_from_base(sh);
    } else {
        lemma_tiled_span_prod(sh, st, i + 1);
        lemma_span_from_step(sh, st, i);
        lemma_prod_from_step(sh, i);
        if sh[i] >= 2 {
            assert(st[i] == 1 + span_from(sh, st, i + 1));
            assert(abs(st[i]) == st[i]);
            let p = prod_from(sh, i + 1);
            assert((sh[i] - 1) * p + p - 1 == sh[i] * p - 1) by (nonlinear_arith);
        } else {
            assert(sh[i] == 1);
            assert(ext1(sh[i]) == 0);
            assert(0 * abs(st[i]) == 0) by (nonlinear_arith);
            assert(1 * prod_from(sh, i + 1) == prod_from(sh, i + 1)) by (nonlinear_arith);
        }
    }
}

/// The canonical row-major weights tile any shape with extents at least one.
pub proof fn lemma_canon_tiled(sh: Seq<int>)
    requires
        forall|k: int| 0 <= k < sh.len() ==> #[trigger] sh[k] >= 1,
    ensures
        tiled(sh, canon(sh)),
        forall|i: int|
            0 <= i <= sh.len() ==> #[trigger] span_from(sh, canon(sh), i) == prod_from(sh, i) - 1,
        forall|k: int| 0 <= k < sh.len() ==> #[trigger] canon(sh)[k] >= 1,
        descending(canon(sh)),
{
    let n = sh.len();
    let cw = canon(sh);
    assert forall|k: int| 0 <= k < n implies #[trigger] cw[k] >= 1 by {
        lemma_prod_from_pos(sh, k + 1);
    }
    assert forall|i: int, j: int| 0 <= i <= j < n implies #[trigger] cw[i] >= #[trigger] cw[j] by {
        lemma_prod_from_pos(sh, i + 1);
        assert(prod_from(sh, i + 1) >= prod_from(sh, j + 1));
    }
    lemma_canon_span(sh, 0);
    assert forall|i: int|
        0 <= i <= n implies #[trigger] span_from(sh, cw, i) == prod_from(sh, i) - 1 by {
        lemma_canon_span(sh, i);
    }
    assert forall|i: int| 0 <= i < n && sh[i] >= 2 implies cw[i] == 1 + #[trigger] span_from(
        sh,
        cw,
        i + 1,
    ) by {
        lemma_canon_span(sh, i + 1);
    }
}

/// Downward induction for [`lemma_canon_tiled`].
proof fn lemma_canon_span(sh: Seq<int>, i: int)
    requires
        forall|k: int| 0 <= k < sh.len() ==> #[trigger] sh[k] >= 1,
        0 <= i <= sh.len(),
    ensures
        span_from(sh, canon(sh), i) == prod_from(sh, i) - 1,
    decreases sh.len() - i,
{
    let n = sh.len();
    let cw = canon(sh);
    if i == n {
        let gi = |k: int| if k >= i { ext1(sh[k]) * abs(cw[k]) } else { 0 };
        lemma_sum_zero(n, gi);
        lemma_prod_from_base(sh);
    } else {
        lemma_canon_span(sh, i + 1);
        lemma_span_from_step(sh, cw, i);
        lemma_prod_from_step(sh, i);
        lemma_prod_from_pos(sh, i + 1);
        let p = prod_from(sh, i + 1);
        assert(cw[i] == p);
        assert(abs(cw[i]) == cw[i]);
        assert(ext1(sh[i]) == sh[i] - 1);
        assert((sh[i] - 1) * p + (p - 1) == sh[i] * p - 1) by (nonlinear_arith);
    }
}

/// Permuting the axes does not change the address of a permuted index.
pub proof fn lemma_perm_offset(p: Seq<int>, st: Seq<int>, idx: Seq<int>)
    requires
        is_perm(st.len() as int, p),
        idx.len() == st.len(),
    ensures
        offset_of(papply(p, st), papply(p, idx)) == offset_of(st, idx),
{
    let n = st.len();
    let f = |k: int| idx[k] * st[k];
    let fp = |k: int| papply(p, idx)[k] * papply(p, st)[k];
    assert forall|k: int| 0 <= k < n implies #[trigger] fp(k) == f(p[k]) by {}
    lemma_sum_perm(n, f, fp, p);
    lemma_sum_ext(n, fp, |k: int| papply(p, idx)[k] * papply(p, st)[k]);
    lemma_sum_ext(n, f, |k: int| idx[k] * st[k]);
}

/// Permuting the axes preserves validity of permuted indices.
pub proof fn lemma_perm_valid(p: Seq<int>, sh: Seq<int>, idx: Seq<int>)
    requires
        is_perm(sh.len() as int, p),
        valid_index(sh, idx),
    ensures
        valid_index(papply(p, sh), papply(p, idx)),
{
}

/// Permuting the axes preserves spans, index counts, dominance and
/// exactness.
pub proof fn lemma_perm_geometry(p: Seq<int>, sh: Seq<int>, st: Seq<int>)
    requires
        is_perm(sh.len() as int, p),
        sh.len() == st.len(),
    ensures
        span_from(papply(p, sh), papply(p, st), 0) == span_from(sh, st, 0),
        pos_span(papply(p, sh), papply(p, st)) == pos_span(sh, st),
        neg_span(papply(p, sh), papply(p, st)) == neg_span(sh, st),
        product(papply(p, sh)) == product(sh),
        forall|i: int|
            0 <= i < sh.len() ==> #[trigger] dom_sum(papply(p, sh), papply(p, st), i) == dom_sum(
                sh,
                st,
                p[i],
            ),
        dominated(sh, st) ==> dominated(papply(p, sh), papply(p, st)),
        exact(sh, st) ==> exact(papply(p, sh), papply(p, st)),
{
    let n = sh.len();
    let sh2 = papply(p, sh);
    let st2 = papply(p, st);
    let fsp = |k: int| if k >= 0 { ext1(sh[k]) * abs(st[k]) } else { 0 };
    let fsp2 = |k: int| if k >= 0 { ext1(sh2[k]) * abs(st2[k]) } else { 0 };
    assert forall|k: int| 0 <= k < n implies #[trigger] fsp2(k) == fsp(p[k]) by {}
    lemma_sum_perm(n, fsp, fsp2, p);
    let fpos = |k: int| if st[k] >= 0 { ext1(sh[k]) * st[k] } else { 0 };
    let fpos2 = |k: int| if st2[k] >= 0 { ext1(sh2[k]) * st2[k] } else { 0 };
    assert forall|k: int| 0 <= k < n implies #[trigger] fpos2(k) == fpos(p[k]) by {}
    lemma_sum_perm(n, fpos, fpos2, p);
    let fneg = |k: int| if st[k] < 0 { ext1(sh[k]) * st[k] } else { 0 };
    let fneg2 = |k: int| if st2[k] < 0 { ext1(sh2[k]) * st2[k] } else { 0 };
    assert forall|k: int| 0 <= k < n implies #[trigger] fneg2(k) == fneg(p[k]) by {}
    lemma_sum_perm(n, fneg, fneg2, p);
    let fpr = |k: int| sh[k];
    let fpr2 = |k: int| sh2[k];
    assert forall|k: int| 0 <= k < n implies #[trigger] fpr2(k) == fpr(p[k]) by {}
    lemma_prod_perm(n, fpr, fpr2, p);
    assert forall|i: int|
        0 <= i < n implies #[trigger] dom_sum(sh2, st2, i) == dom_sum(sh, st, p[i]) by {
        let f = |k: int| dom_term(sh, st, p[i], k);
        let fp2 = |k: int| dom_term(sh2, st2, i, k);
        assert forall|k: int| 0 <= k < n implies #[trigger] fp2(k) == f(p[k]) by {
            if k != i {
                assert(p[k] != p[i]) by {
                    if k < i {
                        assert(p[k] != p[i]);
                    }
                }
            }
        }
        lemma_sum_perm(n, f, fp2, p);
    }
}

/// Every permutation has an inverse.
pub proof fn lemma_perm_inverse(n: int, p: Seq<int>) -> (q: Seq<int>)
    requires
        is_perm(n, p),
    ensures
        is_perm(n, q),
        forall|k: int| 0 <= k < n ==> p[#[trigger] q[k]] == k,
        forall|k: int| 0 <= k < n ==> q[#[trigger] p[k]] == k,
{
    let q = Seq::new(n as nat, |v: int| choose|w: int| 0 <= w < n && p[w] == v);
    assert forall|v: int| 0 <= v < n implies p[#[trigger] q[v]] == v && 0 <= q[v] < n by {
        assert(p.contains(v));
        let w = choose|w: int| 0 <= w < p.len() && p[w] == v;
        assert(0 <= w < n && p[w] == v);
        assert(q[v] == choose|w: int| 0 <= w < n && p[w] == v);
    }
    assert forall|k: int| 0 <= k < n implies q[#[trigger] p[k]] == k by {
        let w = q[p[k]];
        assert(p[w] == p[k] && 0 <= w < n);
        if w < k {
            assert(p[w] != p[k]);
        } else if k < w {
            assert(p[k] != p[w]);
        }
    }
    assert forall|a: int, b: int| 0 <= a < b < n implies q[a] != q[b] by {
        assert(p[q[a]] == a && p[q[b]] == b);
    }
    assert forall|v: int| 0 <= v < n implies #[trigger] q.contains(v) by {
        assert(q[p[v]] == v);
    }
    q
}

/// Reversing the direction of one axis: the stride flips sign, the offset
/// absorbs the axis's full reach, mirrored indices map to the same address,
/// and every magnitude-based property is untouched.
pub proof fn lemma_invert_axis(sh: Seq<int>, st: Seq<int>, idx: Seq<int>, i: int)
    requires
        sh.len() == st.len(),
        valid_index(sh, idx),
        0 <= i < sh.len(),
    ensures
        valid_index(sh, idx.update(i, sh[i] - 1 - idx[i])),
        offset_of(st.update(i, -st[i]), idx.update(i, sh[i] - 1 - idx[i])) == offset_of(st, idx)
            - (sh[i] - 1) * st[i],
{
    let n = sh.len();
    let st2 = st.update(i, -st[i]);
    let idx2 = idx.update(i, sh[i] - 1 - idx[i]);
    let t1 = |k: int| idx[k] * st[k];
    let t2 = |k: int| idx2[k] * st2[k];
    let d = |k: int| if k == i { -((sh[i] - 1) * st[i]) } else { 0 };
    assert forall|k: int| 0 <= k < n implies #[trigger] t2(k) == t1(k) + d(k) by {
        if k == i {
            assert((sh[i] - 1 - idx[i]) * (-st[i]) == idx[i] * st[i] - (sh[i] - 1) * st[i])
                by (nonlinear_arith);
        }
    }
    lemma_sum_add(n, t1, d, t2);
    lemma_sum_single(n, d, i, -((sh[i] - 1) * st[i]));
    lemma_sum_ext(n, t1, |k: int| idx[k] * st[k]);
    lemma_sum_ext(n, t2, |k: int| idx2[k] * st2[k]);
}

/// One axis's contribution to the signed spans.
pub proof fn lemma_span_term_bounds(sh: Seq<int>, st: Seq<int>, k: int)
    requires
        sh.len() == st.len(),
        0 <= k < sh.len(),
    ensures
        st[k] >= 0 ==> 0 <= ext1(sh[k]) * st[k] <= pos_span(sh, st),
        st[k] < 0 ==> neg_span(sh, st) <= ext1(sh[k]) * st[k] <= 0,
{
    let n = sh.len();
    let post = |j: int| if st[j] >= 0 { ext1(sh[j]) * st[j] } else { 0 };
    let negn = |j: int| if st[j] < 0 { -(ext1(sh[j]) * st[j]) } else { 0 };
    assert forall|j: int| 0 <= j < n implies #[trigger] post(j) >= 0 by {
        if st[j] >= 0 {
            assert(ext1(sh[j]) * st[j] >= 0) by (nonlinear_arith)
                requires
                    ext1(sh[j]) >= 0,
                    st[j] >= 0,
            ;
        }
    }
    assert forall|j: int| 0 <= j < n implies #[trigger] negn(j) >= 0 by {
        if st[j] < 0 {
            assert(ext1(sh[j]) * st[j] <= 0) by (nonlinear_arith)
                requires
                    ext1(sh[j]) >= 0,
                    st[j] < 0,
            ;
        }
    }
    lemma_sum_ge_single(n, post, k);
    lemma_sum_ge_single(n, negn, k);
    lemma_sum_ext(n, post, |j: int| if st[j] >= 0 { ext1(sh[j]) * st[j] } else { 0 });
    let negt = |j: int| if st[j] < 0 { ext1(sh[j]) * st[j] } else { 0 };
    lemma_sum_add(n, negt, negn, |j: int| 0int);
    lemma_sum_zero(n, |j: int| 0int);
    lemma_sum_ext(n, negt, |j: int| if st[j] < 0 { ext1(sh[j]) * st[j] } else { 0 });
}

/// Negating one stride moves that axis's contribution between the positive
/// and negative spans.
pub proof fn lemma_negate_axis_spans(sh: Seq<int>, st: Seq<int>, k: int)
    requires
        sh.len() == st.len(),
        0 <= k < sh.len(),
    ensures
        pos_span(sh, st.update(k, -st[k])) == pos_span(sh, st) - (if st[k] >= 0 {
            ext1(sh[k]) * st[k]
        } else {
            0
        }) + (if st[k] <= 0 {
            ext1(sh[k]) * (-st[k])
        } else {
            0
        }),
        neg_span(sh, st.update(k, -st[k])) == neg_span(sh, st) - (if st[k] < 0 {
            ext1(sh[k]) * st[k]
        } else {
            0
        }) + (if st[k] > 0 {
            ext1(sh[k]) * (-st[k])
        } else {
            0
        }),
{
    let n = sh.len();
    let st2 = st.update(k, -st[k]);
    let post = |j: int| if st[j] >= 0 { ext1(sh[j]) * st[j] } else { 0 };
    let post2 = |j: int| if st2[j] >= 0 { ext1(sh[j]) * st2[j] } else { 0 };
    let dpos = |j: int|
        if j == k {
            (if st[k] <= 0 {
                ext1(sh[k]) * (-st[k])
            } else {
                0
            }) - (if st[k] >= 0 {
                ext1(sh[k]) * st[k]
            } else {
                0
            })
        } else {
            0
        };
    assert forall|j: int| 0 <= j < n implies #[trigger] post2(j) == post(j) + dpos(j) by {
        if j == k {
            assert(st2[k] == -st[k]);
            if st[k] == 0 {
                assert(ext1(sh[k]) * 0 == 0) by (nonlinear_arith);
            }
        } else {
            assert(st2[j] == st[j]);
        }
    }
    lemma_sum_add(n, post, dpos, post2);
    lemma_sum_single(n, dpos, k, dpos(k));
    lemma_sum_ext(n, post, |j: int| if st[j] >= 0 { ext1(sh[j]) * st[j] } else { 0 });
    lemma_sum_ext(n, post2, |j: int| if st2[j] >= 0 { ext1(sh[j]) * st2[j] } else { 0 });
    let negt = |j: int| if st[j] < 0 { ext1(sh[j]) * st[j] } else { 0 };
    let negt2 = |j: int| if st2[j] < 0 { ext1(sh[j]) * st2[j] } else { 0 };
    let dneg = |j: int|
        if j == k {
            (if st[k] > 0 {
                ext1(sh[k]) * (-st[k])
            } else {
                0
            }) - (if st[k] < 0 {
                ext1(sh[k]) * st[k]
            } else {
                0
            })
        } else {
            0
        };
    assert forall|j: int| 0 <= j < n implies #[trigger] negt2(j) == negt(j) + dneg(j) by {
        if j == k {
            assert(st2[k] == -st[k]);
        } else {
            assert(st2[j] == st[j]);
        }
    }
    lemma_sum_add(n, negt, dneg, negt2);
    lemma_sum_single(n, dneg, k, dneg(k));
    lemma_sum_ext(n, negt, |j: int| if st[j] < 0 { ext1(sh[j]) * st[j] } else { 0 });
    lemma_sum_ext(n, negt2, |j: int| if st2[j] < 0 { ext1(sh[j]) * st2[j] } else { 0 });
}

/// Magnitude-based properties ignore stride signs: flipping the sign of one
/// stride changes no span, no dominated sum, and no dominance or exactness.
pub proof fn lemma_flip_sign_geometry(sh: Seq<int>, st: Seq<int>, i: int)
    requires
        sh.len() == st.len(),
        0 <= i < sh.len(),
    ensures
        span_from(sh, st.update(i, -st[i]), 0) == span_from(sh, st, 0),
        forall|j: int|
            0 <= j < sh.len() ==> #[trigger] dom_sum(sh, st.update(i, -st[i]), j) == dom_sum(
                sh,
                st,
                j,
            ),
        dominated(sh, st) ==> dominated(sh, st.update(i, -st[i])),
        exact(sh, st) ==> exact(sh, st.update(i, -st[i])),
        product(sh) == product(sh),
{
    let n = sh.len();
    let st2 = st.update(i, -st[i]);
    assert forall|k: int| 0 <= k < n implies abs(#[trigger] st2[k]) == abs(st[k]) by {}
    let fsp = |k: int| if k >= 0 { ext1(sh[k]) * abs(st[k]) } else { 0 };
    let fsp2 = |k: int| if k >= 0 { ext1(sh[k]) * abs(st2[k]) } else { 0 };
    assert forall|k: int| 0 <= k < n implies #[trigger] fsp2(k) == fsp(k) by {}
    lemma_sum_ext(n, fsp2, fsp);
    assert forall|j: int|
        0 <= j < n implies #[trigger] dom_sum(sh, st2, j) == dom_sum(sh, st, j) by {
        let f = |k: int| dom_term(sh, st, j, k);
        let f2 = |k: int| dom_term(sh, st2, j, k);
        assert forall|k: int| 0 <= k < n implies #[trigger] f2(k) == f(k) by {}
        lemma_sum_ext(n, f2, f);
    }
}

/// `x` with zero replaced by one: the factor an extent contributes to the
/// overflow-checked size computation.
pub open spec fn nz(x: int) -> int {
    if x == 0 {
        1
    } else {
        x
    }
}

/// Product of the nonzero extents.
pub open spec fn nzprod(sh: Seq<int>) -> int {
    prod(sh.len(), |k: int| nz(sh[k]))
}

/// Partial products of factors at least one grow with the range and never
/// drop below one.
pub proof fn lemma_prod_extend_ge1(k: nat, n: nat, f: spec_fn(int) -> int)
    requires
        k <= n,
        forall|j: int| 0 <= j < n ==> #[trigger] f(j) >= 1,
    ensures
        1 <= prod(k, f),
        prod(k, f) <= prod(n, f),
    decreases n,
{
    if k == n {
        if n > 0 {
            lemma_prod_extend_ge1((n - 1) as nat, (n - 1) as nat, f);
            assert(prod((n - 1) as nat, f) * f(n - 1) >= prod((n - 1) as nat, f) * 1)
                by (nonlinear_arith)
                requires
                    prod((n - 1) as nat, f) >= 1,
                    f(n - 1) >= 1,
            ;
        }
    } else {
        lemma_prod_extend_ge1(k, (n - 1) as nat, f);
        assert(prod((n - 1) as nat, f) * f(n - 1) >= prod((n - 1) as nat, f) * 1)
            by (nonlinear_arith)
            requires
                prod((n - 1) as nat, f) >= 1,
                f(n - 1) >= 1,
        ;
    }
}

/// Changing one coordinate of an index moves the address by the coordinate
/// delta times that axis's stride.
pub proof fn lemma_offset_update(st: Seq<int>, ix: Seq<int>, i: int, v: int)
    requires
        ix.len() == st.len(),
        0 <= i < st.len(),
    ensures
        offset_of(st, ix.update(i, v)) == offset_of(st, ix) + (v - ix[i]) * st[i],
{
    let n = st.len();
    let ix2 = ix.update(i, v);
    let t1 = |k: int| ix[k] * st[k];
    let t2 = |k: int| ix2[k] * st[k];
    let d = |k: int| if k == i { (v - ix[i]) * st[i] } else { 0 };
    assert forall|k: int| 0 <= k < n implies #[trigger] t2(k) == t1(k) + d(k) by {
        if k == i {
            assert(v * st[i] == ix[i] * st[i] + (v - ix[i]) * st[i]) by (nonlinear_arith);
        }
    }
    lemma_sum_add(n, t1, d, t2);
    lemma_sum_single(n, d, i, (v - ix[i]) * st[i]);
    lemma_sum_ext(n, t1, |k: int| ix[k] * st[k]);
    lemma_sum_ext(n, t2, |k: int| ix2[k] * st[k]);
}

/// Changing one stride moves an index's address by the coordinate there
/// times the stride delta.
pub proof fn lemma_offset_stride_update(st: Seq<int>, ix: Seq<int>, i: int, v: int)
    requires
        ix.len() == st.len(),
        0 <= i < st.len(),
    ensures
        offset_of(st.update(i, v), ix) == offset_of(st, ix) + ix[i] * (v - st[i]),
{
    let n = st.len();
    let st2 = st.update(i, v);
    let t1 = |k: int| ix[k] * st[k];
    let t2 = |k: int| ix[k] * st2[k];
    let d = |k: int| if k == i { ix[i] * (v - st[i]) } else { 0 };
    assert forall|k: int| 0 <= k < n implies #[trigger] t2(k) == t1(k) + d(k) by {
        if k == i {
            assert(ix[i] * v == ix[i] * st[i] + ix[i] * (v - st[i])) by (nonlinear_arith);
        }
    }
    lemma_sum_add(n, t1, d, t2);
    lemma_sum_single(n, d, i, ix[i] * (v - st[i]));
    lemma_sum_ext(n, t1, |k: int| ix[k] * st[k]);
    lemma_sum_ext(n, t2, |k: int| ix[k] * st2[k]);
}

/// The dominated sum at any axis is at most the whole span.
pub proof fn lemma_dom_sum_le_span(sh: Seq<int>, st: Seq<int>, i: int)
    requires
        sh.len() == st.len(),
    ensures
        dom_sum(sh, st, i) <= span_from(sh, st, 0),
{
    let n = sh.len();
    let f = |k: int| dom_term(sh, st, i, k);
    let full = |k: int| if k >= 0 { ext1(sh[k]) * abs(st[k]) } else { 0 };
    assert forall|k: int| 0 <= k < n implies #[trigger] f(k) <= full(k) by {
        if k != i && sh[k] >= 2 && abs(st[k]) <= abs(st[i]) {
            assert(ext1(sh[k]) == sh[k] - 1);
        } else {
            assert(ext1(sh[k]) * abs(st[k]) >= 0) by (nonlinear_arith)
                requires
                    ext1(sh[k]) >= 0,
                    abs(st[k]) >= 0,
            ;
        }
    }
    lemma_sum_le(n, f, full);
}

/// Removing one axis divides the index count by its extent.
pub proof fn lemma_product_remove_axis(sh: Seq<int>, i: int)
    requires
        0 <= i < sh.len(),
    ensures
        product(sh) == product(sh.remove(i)) * sh[i],
{
    let n = sh.len();
    let g = |k: int| sh.remove(i)[k];
    lemma_prod_remove(n, |k: int| sh[k], g, i);
    lemma_prod_ext((n - 1) as nat, g, |k: int| sh.remove(i)[k]);
}

/// Prefix products of extents at least one grow with the prefix.
pub proof fn lemma_prod_pre_pos(sh: Seq<int>, to: int)
    requires
        0 <= to <= sh.len(),
        forall|k: int| 0 <= k < sh.len() ==> #[trigger] sh[k] >= 1,
    ensures
        prod_pre(sh, to) >= 1,
        forall|b: int| 0 <= b <= to ==> #[trigger] prod_pre(sh, b) >= 1 && prod_pre(sh, b)
            <= prod_pre(sh, to),
    decreases to,
{
    let n = sh.len();
    if to == 0 {
        lemma_prod_ones(n, |k: int| if k < 0 { sh[k] } else { 1 });
    } else {
        lemma_prod_pre_pos(sh, to - 1);
        lemma_prod_pre_step(sh, to - 1);
        assert(prod_pre(sh, to - 1) * sh[to - 1] >= prod_pre(sh, to - 1) * 1) by (nonlinear_arith)
            requires
                prod_pre(sh, to - 1) >= 1,
                sh[to - 1] >= 1,
        ;
        assert forall|b: int|
            0 <= b <= to implies #[trigger] prod_pre(sh, b) >= 1 && prod_pre(sh, b) <= prod_pre(
            sh,
            to,
        ) by {}
    }
}

/// Products of factors at least one respect pointwise `<=`.
pub proof fn lemma_prod_le(n: nat, f: spec_fn(int) -> int, g: spec_fn(int) -> int)
    requires
        forall|k: int| 0 <= k < n ==> 1 <= #[trigger] f(k),
        forall|k: int| 0 <= k < n ==> f(k) <= #[trigger] g(k),
    ensures
        1 <= prod(n, f),
        prod(n, f) <= prod(n, g),
    decreases n,
{
    if n > 0 {
        lemma_prod_le((n - 1) as nat, f, g);
        let a = prod((n - 1) as nat, f);
        let b = prod((n - 1) as nat, g);
        assert(1 <= f(n - 1));
        assert(f(n - 1) <= g(n - 1));
        assert(1 <= a * f(n - 1) && a * f(n - 1) <= b * g(n - 1)) by (nonlinear_arith)
            requires
                1 <= a,
                a <= b,
                1 <= f(n - 1),
                f(n - 1) <= g(n - 1),
        ;
    }
}

/// A zero extent before `to` zeroes the prefix product.
pub proof fn lemma_prod_pre_zero(sh: Seq<int>, to: int, z: int)
    requires
        0 <= z < to <= sh.len(),
        sh[z] == 0,
    ensures
        prod_pre(sh, to) == 0,
    decreases to - z,
{
    if to - 1 == z {
        lemma_prod_pre_step(sh, z);
        assert(prod_pre(sh, z) * 0 == 0) by (nonlinear_arith);
    } else {
        lemma_prod_pre_zero(sh, to - 1, z);
        lemma_prod_pre_step(sh, to - 1);
        assert(0 * sh[to - 1] == 0) by (nonlinear_arith);
    }
}

/// A zero extent anywhere past `from` zeroes the suffix product.
pub proof fn lemma_prod_from_zero(sh: Seq<int>, from: int, z: int)
    requires
        0 <= from <= z < sh.len(),
        sh[z] == 0,
    ensures
        prod_from(sh, from) == 0,
    decreases z - from,
{
    if from == z {
        lemma_prod_from_step(sh, from);
        assert(0 * prod_from(sh, from + 1) == 0) by (nonlinear_arith);
    } else {
        lemma_prod_from_zero(sh, from + 1, z);
        lemma_prod_from_step(sh, from);
        assert(sh[from] * 0 == 0) by (nonlinear_arith);
    }
}

/// With no zero extent past `from`, the suffix product agrees with the
/// product of the nonzero-replaced extents there.
pub proof fn lemma_prod_from_nz(sh: Seq<int>, from: int)
    requires
        0 <= from <= sh.len(),
        forall|k: int| from <= k < sh.len() ==> #[trigger] sh[k] != 0,
    ensures
        prod_from(sh, from) == prod(sh.len(), |k: int| if k >= from { nz(sh[k]) } else { 1 }),
{
    lemma_prod_ext(
        sh.len(),
        |k: int| if k >= from { sh[k] } else { 1 },
        |k: int| if k >= from { nz(sh[k]) } else { 1 },
    );
}

/// Product of the extents before axis `k`: the canonical column-major
/// weight of axis `k`.
pub open spec fn prod_pre(sh: Seq<int>, to: int) -> int {
    prod(sh.len(), |k: int| if k < to { sh[k] } else { 1 })
}

/// Canonical column-major weights.
pub open spec fn fcanon(sh: Seq<int>) -> Seq<int> {
    Seq::new(sh.len(), |k: int| prod_pre(sh, k))
}

/// Peeling one axis off a prefix product.
pub proof fn lemma_prod_pre_step(sh: Seq<int>, i: int)
    requires
        0 <= i < sh.len(),
    ensures
        prod_pre(sh, i + 1) == prod_pre(sh, i) * sh[i],
        prod_pre(sh, 0) == 1,
{
    let n = sh.len();
    let fi = |k: int| if k < i { sh[k] } else { 1 };
    let fi1 = |k: int| if k < i + 1 { sh[k] } else { 1 };
    let g = |k: int| if k < i { sh[k] } else { 1int };
    lemma_prod_remove(n, fi, g, i);
    lemma_prod_remove(n, fi1, g, i);
    assert(prod(n, fi) == prod((n - 1) as nat, g) * 1);
    assert(prod(n, fi1) == prod((n - 1) as nat, g) * sh[i]);
    assert(prod((n - 1) as nat, g) * sh[i] == (prod((n - 1) as nat, g) * 1) * sh[i])
        by (nonlinear_arith);
    lemma_prod_ones(n, |k: int| if k < 0 { sh[k] } else { 1 });
}

/// Changing the extent of a top-stride axis of an exact view, while keeping
/// it positive, keeps the view exact.
pub proof fn lemma_exact_change_extent(sh: Seq<int>, st: Seq<int>, i: int, e: int)
    requires
        sh.len() == st.len(),
        exact(sh, st),
        0 <= i < sh.len(),
        sh[i] >= 2,
        e >= 1,
        forall|k: int|
            0 <= k < sh.len() && k != i && #[trigger] sh[k] >= 2 ==> abs(st[k]) <= abs(st[i]),
    ensures
        exact(sh.update(i, e), st),
{
    let n = sh.len();
    let sh2 = sh.update(i, e);
    assert(sh2.len() == n);
    assert forall|k: int|
        0 <= k < n && sh2[k] >= 2 implies abs(st[k]) == 1 + #[trigger] dom_sum(sh2, st, k) by {
        let f = |m: int| dom_term(sh, st, k, m);
        let f2 = |m: int| dom_term(sh2, st, k, m);
        if k != i {
            assert(sh2[k] == sh[k]);
        }
        assert(sh[k] >= 2);
        assert forall|m: int| 0 <= m < n implies #[trigger] f2(m) == f(m) by {
            if m == i && m != k {
                // the top axis contributes to no other dominated sum
                assert(sh2[k] == sh[k]);
                if abs(st[i]) <= abs(st[k]) {
                    assert(abs(st[k]) <= abs(st[i]));
                    lemma_exact_no_ties(sh, st, i, k);
                }
                assert(dom_term(sh, st, k, i) == 0);
                assert(dom_term(sh2, st, k, i) == 0);
            } else if m != i {
                assert(sh2[m] == sh[m]);
            }
        }
        lemma_sum_ext(n, f2, f);
        assert(dom_sum(sh2, st, k) == sum(n, f2));
        assert(dom_sum(sh, st, k) == sum(n, f));
        assert(abs(st[k]) == 1 + dom_sum(sh, st, k));
    }
}

} // verus!
