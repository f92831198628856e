//! The owned strided array: one contiguous buffer interpreted through a
//! shape and strides.

use vstd::prelude::*;

use crate::errors::{ErrorKind, ShapeError};
use crate::geom::{
    abs, canon, dom_sum, dom_term, dominated, ext1, lemma_canon_tiled, lemma_dom_term_nonneg,
    lemma_offset_bounds, lemma_prod_ext, lemma_prod_extend_ge1, lemma_prod_from_pos,
    lemma_product_zero, lemma_spans_nonneg, lemma_sum_add, lemma_sum_ext, lemma_sum_extend_nonneg,
    lemma_sum_ge_single, lemma_sum_le, lemma_sum_zero, lemma_tiled_dominated,
    lemma_tiled_span_prod, neg_span, offset_of, pos_span, prod, product, span_from, sum,
    valid_index,
};
use crate::walk::{
    default_strides, shape_ints, size_of_shape_checked, stride_ints,
};

verus! {

/// An owned n-dimensional array.
///
/// The buffer `data` owns every element.  The element at multi-index `idx`
/// lives at buffer position `offset + sum_k idx[k] * strides[k]`; the view
/// need not start at the buffer base nor cover the whole buffer.
pub struct Array<A> {
    pub(crate) data: Vec<A>,
    pub(crate) offset: usize,
    pub(crate) shape: Vec<usize>,
    pub(crate) strides: Vec<isize>,
}

/// Well-formedness of a candidate (buffer, offset, shape, strides) tuple:
/// every valid index addresses a live buffer slot, the address map is
/// injective (stride dominance), and the stride of an extent-one axis is
/// bounded so growth promotion stays within the addressed region.
pub open spec fn parts_wf<A>(dat: Seq<A>, off: int, sh: Seq<int>, st: Seq<int>) -> bool {
    &&& sh.len() == st.len()
    &&& dat.len() <= isize::MAX as int
    &&& product(sh) <= dat.len() as int
    &&& forall|i: int| 0 <= i < st.len() ==> abs(#[trigger] st[i]) <= isize::MAX as int
    &&& (product(sh) > 0 ==> {
        &&& off + neg_span(sh, st) >= 0
        &&& off + pos_span(sh, st) < dat.len()
        &&& dominated(sh, st)
        &&& forall|i: int|
            0 <= i < sh.len() && #[trigger] sh[i] == 1 ==> abs(st[i]) <= span_from(sh, st, 0) + 1
    })
}

impl<A> Array<A> {
    /// The shape, as the mathematical sequence contracts speak about.
    pub closed spec fn sh(self) -> Seq<int> {
        shape_ints(self.shape@)
    }

    /// The strides, as the mathematical sequence contracts speak about.
    pub closed spec fn st(self) -> Seq<int> {
        stride_ints(self.strides@)
    }

    /// The buffer position of the element at the all-zero index.
    pub closed spec fn off(self) -> int {
        self.offset as int
    }

    /// The buffer contents, in storage order.
    pub closed spec fn dat(self) -> Seq<A> {
        self.data@
    }

    /// Number of axes.
    pub open spec fn rank(self) -> int {
        self.sh().len() as int
    }

    /// Number of elements the shape addresses.
    pub open spec fn size(self) -> int {
        product(self.sh())
    }

    /// Number of elements the buffer holds.
    pub open spec fn buf_len(self) -> int {
        self.dat().len() as int
    }

    /// The buffer position of the element at `idx`.
    pub open spec fn addr(self, idx: Seq<int>) -> int {
        self.off() + offset_of(self.st(), idx)
    }

    /// The element at `idx`.
    pub open spec fn elem(self, idx: Seq<int>) -> A {
        self.dat()[self.addr(idx)]
    }

    /// Well-formedness; see [`parts_wf`].
    pub open spec fn wf(self) -> bool {
        parts_wf(self.dat(), self.off(), self.sh(), self.st())
    }

    /// The layout is standard (row-major, no holes): the strides of all axes
    /// of extent at least 2 are the canonical row-major ones.  Empty arrays
    /// are standard by convention.
    pub open spec fn std_layout(self) -> bool {
        self.size() == 0 || (forall|i: int|
            0 <= i < self.rank() && self.sh()[i] >= 2 ==> #[trigger] self.st()[i] == canon(
                self.sh(),
            )[i])
    }

    /// Exposes, within the crate, how the ghost views relate to the stored
    /// representation.
    pub(crate) proof fn lemma_repr(self)
        ensures
            self.sh() == shape_ints(self.shape@),
            self.st() == stride_ints(self.strides@),
            self.off() == self.offset as int,
            self.dat() == self.data@,
            self.rank() == self.shape@.len(),
            forall|k: int| 0 <= k < self.rank() ==> #[trigger] self.sh()[k] == self.shape@[k]
                as int,
            self.st().len() == self.strides@.len(),
            forall|k: int|
                0 <= k < self.strides@.len() ==> #[trigger] self.st()[k] == self.strides@[k]
                    as int,
            self.buf_len() == self.data@.len(),
    {
    }

    /// Machine-type facts about the stored representation: extents and the
    /// head offset are nonnegative.
    pub proof fn lemma_value_ranges(self)
        ensures
            forall|k: int| 0 <= k < self.rank() ==> #[trigger] self.sh()[k] >= 0,
            self.off() >= 0,
    {
        assert forall|k: int| 0 <= k < self.rank() implies #[trigger] self.sh()[k] >= 0 by {
            assert(self.sh()[k] == self.shape@[k] as int);
        }
    }

    /// In a well-formed array every valid index addresses a live slot.
    pub proof fn lemma_addr_in_bounds(self, idx: Seq<int>)
        requires
            self.wf(),
            valid_index(self.sh(), idx),
        ensures
            0 <= self.addr(idx) < self.buf_len(),
            self.size() > 0,
    {
        assert forall|k: int| 0 <= k < self.rank() implies #[trigger] self.sh()[k] >= 1 by {
            assert(0 <= idx[k] < self.sh()[k]);
        }
        lemma_prod_from_pos(self.sh(), 0);
        crate::geom::lemma_prod_from_base(self.sh());
        lemma_offset_bounds(self.sh(), self.st(), idx);
    }

    /// The number of axes.
    pub fn ndim(&self) -> (r: usize)
        ensures
            r as int == self.rank(),
    {
        self.shape.len()
    }

    /// The shape.
    pub fn shape(&self) -> (r: &Vec<usize>)
        ensures
            shape_ints(r@) == self.sh(),
            r@.len() as int == self.rank(),
    {
        &self.shape
    }

    /// The strides.
    pub fn strides(&self) -> (r: &Vec<isize>)
        ensures
            stride_ints(r@) == self.st(),
    {
        &self.strides
    }

    /// The number of elements visible through the shape.
    pub fn len(&self) -> (r: usize)
        requires
            self.wf(),
        ensures
            r as int == self.size(),
    {
        let n = self.shape.len();
        let ghost shi = self.sh();
        let ghost f = |j: int| shi[j];
        let mut z: usize = 0;
        while z < n
            invariant
                0 <= z <= n,
                n == self.shape@.len(),
                shi == self.sh(),
                forall|j: int| 0 <= j < n ==> #[trigger] shi[j] == self.shape@[j] as int,
                forall|j: int| 0 <= j < z ==> #[trigger] shi[j] >= 1,
            decreases n - z,
        {
            if self.shape[z] == 0 {
                proof {
                    lemma_product_zero(shi, z as int);
                }
                return 0;
            }
            z += 1;
        }
        let mut acc: usize = 1;
        let mut k: usize = 0;
        proof {
            assert forall|j: int| 0 <= j < n implies #[trigger] f(j) >= 1 by {
                assert(f(j) == shi[j]);
            }
            lemma_prod_from_pos(shi, 0);
            crate::geom::lemma_prod_from_base(shi);
            assert(self.size() >= 1);
        }
        while k < n
            invariant
                0 <= k <= n,
                n == self.shape@.len(),
                shi == self.sh(),
                self.wf(),
                self.size() >= 1,
                forall|j: int| 0 <= j < n ==> #[trigger] f(j) == shi[j],
                forall|j: int| 0 <= j < n ==> #[trigger] f(j) >= 1,
                forall|j: int| 0 <= j < n ==> #[trigger] shi[j] == self.shape@[j] as int,
                acc as int == prod(k as nat, f),
                acc as int >= 1,
                acc as int <= self.buf_len(),
            decreases n - k,
        {
            let d = self.shape[k];
            proof {
                lemma_len_partial_bound(shi, f, (k + 1) as nat, self.dat().len() as int);
                assert(f(k as int) == d as int);
                assert(prod((k + 1) as nat, f) == prod(k as nat, f) * f(k as int));
            }
            acc = acc * d;
            k += 1;
        }
        proof {
            lemma_prod_ext(n as nat, f, |j: int| shi[j]);
        }
        acc
    }

    /// The buffer contents in storage order.  If the array is in standard
    /// layout this is also its logical element order.
    pub fn into_raw_vec(self) -> (r: Vec<A>)
        ensures
            r@ == self.dat(),
    {
        self.data
    }

    /// Returns the single element of a rank-zero array without cloning it,
    /// locating it within the buffer via the view offset.
    pub fn into_scalar(self) -> (r: A)
        requires
            self.wf(),
            self.rank() == 0,
        ensures
            r == self.elem(Seq::empty()),
    {
        proof {
            self.lemma_addr_in_bounds(Seq::empty());
            crate::geom::lemma_offset_zero_index(self.st(), Seq::empty());
        }
        let off = self.offset;
        let mut data = self.data;
        data.remove(off)
    }

    /// Whether the array is in standard (row-major, hole-free) layout.
    pub fn is_standard_layout(&self) -> (r: bool)
        requires
            self.wf(),
        ensures
            r == self.std_layout(),
    {
        let n = self.shape.len();
        let ghost shi = self.sh();
        let mut k: usize = 0;
        while k < n
            invariant
                0 <= k <= n,
                n == self.shape@.len(),
                shi == self.sh(),
                self.wf(),
                forall|j: int| 0 <= j < n ==> #[trigger] shi[j] == self.shape@[j] as int,
                forall|j: int| 0 <= j < k ==> #[trigger] shi[j] >= 1,
            decreases n - k,
        {
            if self.shape[k] == 0 {
                proof {
                    lemma_product_zero(shi, k as int);
                }
                return true;
            }
            k += 1;
        }
        proof {
            lemma_nonzero_nzprod(shi, self.dat().len() as int);
            lemma_prod_from_pos(shi, 0);
            crate::geom::lemma_prod_from_base(shi);
            assert(self.size() > 0);
        }
        let defaults = default_strides(&self.shape);
        let mut i: usize = 0;
        while i < n
            invariant
                0 <= i <= n,
                n == self.shape@.len() == self.strides@.len() == defaults@.len(),
                shi == self.sh(),
                self.size() > 0,
                stride_ints(defaults@) == canon(shi),
                forall|j: int| 0 <= j < n ==> #[trigger] shi[j] == self.shape@[j] as int,
                forall|j: int| 0 <= j < n ==> #[trigger] self.st()[j] == self.strides@[j] as int,
                forall|j: int|
                    0 <= j < i && shi[j] >= 2 ==> #[trigger] self.st()[j] == canon(shi)[j],
            decreases n - i,
        {
            if self.shape[i] >= 2 && self.strides[i] != defaults[i] {
                proof {
                    assert(canon(shi)[i as int] == stride_ints(defaults@)[i as int]);
                    assert(self.st()[i as int] != canon(shi)[i as int]);
                }
                return false;
            }
            i += 1;
        }
        true
    }

    /// Builds a standard-layout array owning `data`, interpreted through
    /// `shape` in row-major order.  Fails with `ShapeOverflow` if the element
    /// count cannot be represented, and with `IncompatibleShape` if it does
    /// not equal the buffer length.
    pub fn from_shape_vec(shape: Vec<usize>, data: Vec<A>) -> (r: Result<Array<A>, ShapeError>)
        ensures
            r is Ok ==> {
                let a = r->Ok_0;
                &&& a.wf()
                &&& a.dat() == data@
                &&& a.off() == 0
                &&& a.sh() == shape_ints(shape@)
                &&& a.st() == canon(shape_ints(shape@))
                &&& a.std_layout()
                &&& a.size() == data@.len()
            },
            r is Err ==> r->Err_0.kind == ErrorKind::ShapeOverflow || r->Err_0.kind
                == ErrorKind::IncompatibleShape,
            r is Err ==> !(crate::geom::nzprod(shape_ints(shape@)) <= isize::MAX as int
                && product(shape_ints(shape@)) == data@.len() as int),
            (crate::geom::nzprod(shape_ints(shape@)) <= isize::MAX as int && product(
                shape_ints(shape@),
            ) == data@.len() as int) ==> r is Ok,
    {
        let ghost shi = shape_ints(shape@);
        let size = match size_of_shape_checked(&shape) {
            Ok(s) => s,
            Err(e) => {
                return Err(e);
            },
        };
        if size != data.len() {
            return Err(ShapeError::from_kind(ErrorKind::IncompatibleShape));
        }
        let strides = default_strides(&shape);
        let a = Array { data, offset: 0, shape, strides };
        proof {
            lemma_from_shape_wf(a.dat(), shi);
            assert(a.sh() == shi && a.st() == canon(shi));
            if a.size() > 0 {
                assert(a.std_layout());
            }
        }
        Ok(a)
    }

    /// Builds an array from raw parts, validating well-formedness: the tuple
    /// is accepted exactly when every index stays in the buffer, addresses
    /// are unaliased, and extent-one strides are bounded.
    pub fn from_parts(data: Vec<A>, offset: usize, shape: Vec<usize>, strides: Vec<isize>) -> (r:
        Option<Array<A>>)
        ensures
            r is Some <==> parts_wf(data@, offset as int, shape_ints(shape@), stride_ints(strides@)),
            r is Some ==> {
                let a = r->Some_0;
                &&& a.wf()
                &&& a.dat() == data@
                &&& a.off() == offset as int
                &&& a.sh() == shape_ints(shape@)
                &&& a.st() == stride_ints(strides@)
            },
    {
        let a = Array { data, offset, shape, strides };
        if a.check_wf() {
            Some(a)
        } else {
            None
        }
    }

    /// Decides well-formedness executably.
    fn check_wf(&self) -> (r: bool)
        ensures
            r == self.wf(),
    {
        let n = self.shape.len();
        let ghost shi = self.sh();
        let ghost sti = self.st();
        if self.strides.len() != n {
            return false;
        }
        if self.data.len() > isize::MAX as usize {
            return false;
        }
        // stride magnitudes must fit the size type
        let mut k: usize = 0;
        while k < n
            invariant
                0 <= k <= n,
                n == self.shape@.len() == self.strides@.len(),
                shi == self.sh(),
                sti == self.st(),
                forall|j: int| 0 <= j < n ==> #[trigger] sti[j] == self.strides@[j] as int,
                forall|j: int| 0 <= j < n ==> #[trigger] shi[j] == self.shape@[j] as int,
                forall|j: int| 0 <= j < k ==> abs(#[trigger] sti[j]) <= isize::MAX as int,
            decreases n - k,
        {
            if self.strides[k] == isize::MIN {
                proof {
                    assert(sti[k as int] == self.strides@[k as int] as int);
                    assert(abs(sti[k as int]) > isize::MAX as int);
                }
                return false;
            }
            k += 1;
        }
        // element count
        let mut zero = false;
        let mut k2: usize = 0;
        while k2 < n
            invariant
                0 <= k2 <= n,
                n == self.shape@.len(),
                shi == self.sh(),
                forall|j: int| 0 <= j < n ==> #[trigger] shi[j] == self.shape@[j] as int,
                zero <==> exists|j: int| 0 <= j < k2 && #[trigger] shi[j] == 0,
            decreases n - k2,
        {
            if self.shape[k2] == 0 {
                zero = true;
                proof {
                    assert(shi[k2 as int] == 0);
                }
            } else {
                proof {
                    assert(shi[k2 as int] != 0);
                }
            }
            k2 += 1;
        }
        if zero {
            proof {
                let z = choose|j: int| 0 <= j < n && #[trigger] shi[j] == 0;
                lemma_product_zero(shi, z);
            }
            return true;
        }
        let ghost f = |j: int| shi[j];
        let mut acc: usize = 1;
        let mut k3: usize = 0;
        proof {
            assert forall|j: int| 0 <= j < n implies #[trigger] f(j) >= 1 by {
                assert(shi[j] == self.shape@[j] as int);
                assert(shi[j] != 0);
            }
            assert forall|j: int| 0 <= j < n implies #[trigger] shi[j] >= 1 by {
                assert(f(j) == shi[j]);
            }
            lemma_prod_from_pos(shi, 0);
            crate::geom::lemma_prod_from_base(shi);
            assert(product(shi) >= 1);
        }
        if self.data.len() == 0 {
            return false;
        }
        while k3 < n
            invariant
                0 <= k3 <= n,
                n == self.shape@.len(),
                shi == self.sh(),
                forall|j: int| 0 <= j < n ==> #[trigger] shi[j] == self.shape@[j] as int,
                forall|j: int| 0 <= j < n ==> #[trigger] f(j) == shi[j],
                forall|j: int| 0 <= j < n ==> #[trigger] f(j) >= 1,
                acc as int == prod(k3 as nat, f),
                acc as int >= 1,
                acc as int <= self.data@.len(),
                self.data@.len() <= isize::MAX as int,
            decreases n - k3,
        {
            let d = self.shape[k3];
            proof {
                assert(f(k3 as int) == d as int);
                assert(prod((k3 + 1) as nat, f) == prod(k3 as nat, f) * f(k3 as int));
                assert(acc as int * d as int >= 1) by (nonlinear_arith)
                    requires
                        acc as int >= 1,
                        d as int >= 1,
                ;
            }
            let acc2 = match acc.checked_mul(d) {
                Some(v) => v,
                None => {
                    proof {
                        lemma_prod_extend_ge1((k3 + 1) as nat, n as nat, f);
                        lemma_prod_ext(n as nat, f, |j: int| shi[j]);
                    }
                    return false;
                },
            };
            if acc2 > self.data.len() {
                proof {
                    lemma_prod_extend_ge1((k3 + 1) as nat, n as nat, f);
                    lemma_prod_ext(n as nat, f, |j: int| shi[j]);
                }
                return false;
            }
            acc = acc2;
            k3 += 1;
        }
        proof {
            lemma_prod_ext(n as nat, f, |j: int| shi[j]);
            lemma_prod_from_pos(shi, 0);
            crate::geom::lemma_prod_from_base(shi);
            assert(product(shi) >= 1);
            assert(product(shi) == acc as int);
        }
        // spans and offset bounds
        let (posm, negm) = match self.span_magnitudes() {
            Some(v) => v,
            None => {
                proof {
                    lemma_pos_span_nonneg(shi, sti);
                }
                return false;
            },
        };
        if self.offset < negm {
            return false;
        }
        if self.offset > isize::MAX as usize - posm || self.offset + posm >= self.data.len() {
            return false;
        }
        // extent-one stride bound
        let ghost aspan = span_from(shi, sti, 0);
        proof {
            lemma_aspan_pos_neg(shi, sti);
        }
        let mut k4: usize = 0;
        while k4 < n
            invariant
                0 <= k4 <= n,
                n == self.shape@.len() == self.strides@.len(),
                shi == self.sh(),
                sti == self.st(),
                forall|j: int| 0 <= j < n ==> #[trigger] sti[j] == self.strides@[j] as int,
                forall|j: int| 0 <= j < n ==> #[trigger] shi[j] == self.shape@[j] as int,
                forall|j: int| 0 <= j < n ==> abs(#[trigger] sti[j]) <= isize::MAX as int,
                posm as int == pos_span(shi, sti),
                negm as int == -neg_span(shi, sti),
                aspan == span_from(shi, sti, 0),
                aspan == posm as int + negm as int,
                posm as int + negm as int <= 2 * (isize::MAX as int),
                product(shi) >= 1,
                forall|j: int|
                    0 <= j < k4 && #[trigger] shi[j] == 1 ==> abs(#[trigger] sti[j]) <= aspan + 1,
            decreases n - k4,
        {
            if self.shape[k4] == 1 {
                let s = self.strides[k4];
                proof {
                    assert(abs(sti[k4 as int]) <= isize::MAX as int);
                }
                let m = if s >= 0 {
                    s as usize
                } else {
                    (-s) as usize
                };
                proof {
                    assert(m as int == abs(sti[k4 as int]));
                }
                if m > posm + negm + 1 {
                    proof {
                        assert(abs(sti[k4 as int]) > aspan + 1);
                        assert(shi[k4 as int] == 1);
                        if self.wf() {
                            assert(abs(sti[k4 as int]) <= span_from(shi, sti, 0) + 1);
                            assert(false);
                        }
                    }
                    return false;
                }
            }
            k4 += 1;
        }
        // stride dominance
        let dom = self.dominance_check();
        proof {
            if dom {
                assert(self.wf());
            }
        }
        dom
    }

    /// Computes the positive span and the magnitude of the negative span,
    /// or reports that one of them cannot fit the size type (in which case
    /// the array cannot be well-formed).
    fn span_magnitudes(&self) -> (r: Option<(usize, usize)>)
        requires
            self.sh().len() == self.st().len(),
            self.shape@.len() == self.strides@.len(),
            forall|j: int| 0 <= j < self.st().len() ==> abs(#[trigger] self.st()[j]) <= isize::MAX
                as int,
        ensures
            r is Some ==> r->Some_0.0 as int == pos_span(self.sh(), self.st())
                && r->Some_0.1 as int == -neg_span(self.sh(), self.st()) && r->Some_0.0 as int
                <= isize::MAX as int && r->Some_0.1 as int <= isize::MAX as int,
            r is None ==> pos_span(self.sh(), self.st()) > isize::MAX as int || -neg_span(
                self.sh(),
                self.st(),
            ) > isize::MAX as int,
    {
        let n = self.shape.len();
        let ghost shi = self.sh();
        let ghost sti = self.st();
        let ghost post = |j: int| if sti[j] >= 0 { ext1(shi[j]) * sti[j] } else { 0 };
        let ghost negn = |j: int| if sti[j] < 0 { -(ext1(shi[j]) * sti[j]) } else { 0 };
        proof {
            lemma_span_magnitude_terms(shi, sti, post, negn);
        }
        let mut posm: usize = 0;
        let mut negm: usize = 0;
        let mut k: usize = 0;
        while k < n
            invariant
                0 <= k <= n,
                n == self.shape@.len() == self.strides@.len(),
                shi == self.sh(),
                sti == self.st(),
                forall|j: int| 0 <= j < n ==> #[trigger] sti[j] == self.strides@[j] as int,
                forall|j: int| 0 <= j < n ==> #[trigger] shi[j] == self.shape@[j] as int,
                forall|j: int| 0 <= j < n ==> abs(#[trigger] sti[j]) <= isize::MAX as int,
                forall|j: int| 0 <= j < n ==> #[trigger] post(j) == (if sti[j] >= 0 {
                    ext1(shi[j]) * sti[j]
                } else {
                    0
                }),
                forall|j: int| 0 <= j < n ==> #[trigger] negn(j) == (if sti[j] < 0 {
                    -(ext1(shi[j]) * sti[j])
                } else {
                    0
                }),
                forall|j: int| #![trigger post(j)] #![trigger negn(j)] 0 <= j < n ==> post(j) >= 0
                    && negn(j) >= 0,
                posm as int == sum(k as nat, post),
                negm as int == sum(k as nat, negn),
                posm as int <= isize::MAX as int,
                negm as int <= isize::MAX as int,
            decreases n - k,
        {
            let d = self.shape[k];
            let s = self.strides[k];
            let e = if d >= 1 {
                d - 1
            } else {
                0
            };
            proof {
                assert(e as int == ext1(shi[k as int]));
            }
            proof {
                assert(abs(sti[k as int]) <= isize::MAX as int);
            }
            if s > 0 {
                let t = match e.checked_mul(s as usize) {
                    Some(t) => t,
                    None => {
                        proof {
                            lemma_span_partial_exceeds(shi, sti, post, (k + 1) as nat, true);
                        }
                        return None;
                    },
                };
                proof {
                    assert(t as int == post(k as int));
                }
                let p2 = match posm.checked_add(t) {
                    Some(v) => v,
                    None => {
                        proof {
                            lemma_span_partial_exceeds(shi, sti, post, (k + 1) as nat, true);
                        }
                        return None;
                    },
                };
                if p2 > isize::MAX as usize {
                    proof {
                        lemma_span_partial_exceeds(shi, sti, post, (k + 1) as nat, true);
                    }
                    return None;
                }
                posm = p2;
                proof {
                    assert(negn(k as int) == 0);
                }
            } else if s < 0 {
                let m = (-s) as usize;
                proof {
                    assert(ext1(shi[k as int]) * (m as int) == -(ext1(shi[k as int])
                        * sti[k as int])) by (nonlinear_arith)
                        requires
                            m as int == -sti[k as int],
                    ;
                    assert(negn(k as int) == e as int * m as int);
                }
                let t = match e.checked_mul(m) {
                    Some(t) => t,
                    None => {
                        proof {
                            lemma_span_partial_exceeds(shi, sti, negn, (k + 1) as nat, false);
                        }
                        return None;
                    },
                };
                proof {
                    assert(t as int == negn(k as int));
                }
                let n2 = match negm.checked_add(t) {
                    Some(v) => v,
                    None => {
                        proof {
                            lemma_span_partial_exceeds(shi, sti, negn, (k + 1) as nat, false);
                        }
                        return None;
                    },
                };
                if n2 > isize::MAX as usize {
                    proof {
                        lemma_span_partial_exceeds(shi, sti, negn, (k + 1) as nat, false);
                    }
                    return None;
                }
                negm = n2;
                proof {
                    assert(post(k as int) == 0);
                }
            } else {
                proof {
                    assert(ext1(shi[k as int]) * sti[k as int] == 0) by (nonlinear_arith)
                        requires
                            sti[k as int] == 0,
                    ;
                    assert(post(k as int) == 0);
                    assert(negn(k as int) == 0);
                }
            }
            k += 1;
        }
        proof {
            lemma_sum_ext(
                n as nat,
                post,
                |j: int| if sti[j] >= 0 { ext1(shi[j]) * sti[j] } else { 0 },
            );
            let negt = |j: int| if sti[j] < 0 { ext1(shi[j]) * sti[j] } else { 0 };
            lemma_sum_add(n as nat, negt, negn, |j: int| 0int);
            lemma_sum_zero(n as nat, |j: int| 0int);
            lemma_sum_ext(n as nat, negt, |j: int| if sti[j] < 0 { ext1(shi[j]) * sti[j] } else { 0 });
        }
        Some((posm, negm))
    }

    /// Decides stride dominance executably.
    fn dominance_check(&self) -> (r: bool)
        requires
            self.sh().len() == self.st().len(),
            self.shape@.len() == self.strides@.len(),
            forall|j: int| 0 <= j < self.st().len() ==> abs(#[trigger] self.st()[j]) <= isize::MAX
                as int,
        ensures
            r == dominated(self.sh(), self.st()),
    {
        let n = self.shape.len();
        let ghost shi = self.sh();
        let ghost sti = self.st();
        proof {
            assert forall|a: int, m: int| #[trigger] dom_term(shi, sti, a, m) >= 0 by {
                lemma_dom_term_nonneg(shi, sti, a);
            }
        }
        let mut i: usize = 0;
        while i < n
            invariant
                0 <= i <= n,
                n == self.shape@.len() == self.strides@.len(),
                shi == self.sh(),
                sti == self.st(),
                forall|j: int| 0 <= j < n ==> #[trigger] sti[j] == self.strides@[j] as int,
                forall|j: int| 0 <= j < n ==> #[trigger] shi[j] == self.shape@[j] as int,
                forall|j: int| 0 <= j < n ==> abs(#[trigger] sti[j]) <= isize::MAX as int,
                forall|a: int, m: int| #[trigger] dom_term(shi, sti, a, m) >= 0,
                forall|j: int|
                    0 <= j < i && shi[j] >= 2 ==> abs(#[trigger] sti[j]) > dom_sum(shi, sti, j),
            decreases n - i,
        {
            if self.shape[i] >= 2 {
                let si = self.strides[i];
                proof {
                    assert(abs(sti[i as int]) <= isize::MAX as int);
                }
                let mi = if si >= 0 {
                    si as usize
                } else {
                    (-si) as usize
                };
                proof {
                    assert(mi as int == abs(sti[i as int]));
                }
                let ghost f = |m: int| dom_term(shi, sti, i as int, m);
                let mut acc: usize = 0;
                let mut j: usize = 0;
                while j < n
                    invariant
                        0 <= j <= n,
                        n == self.shape@.len() == self.strides@.len(),
                        shi == self.sh(),
                        sti == self.st(),
                        forall|m: int| 0 <= m < n ==> #[trigger] sti[m] == self.strides@[m] as int,
                        forall|m: int| 0 <= m < n ==> #[trigger] shi[m] == self.shape@[m] as int,
                        forall|m: int| 0 <= m < n ==> abs(#[trigger] sti[m]) <= isize::MAX as int,
                        forall|a: int, m: int| #[trigger] dom_term(shi, sti, a, m) >= 0,
                        forall|m: int| 0 <= m < n ==> #[trigger] f(m) == dom_term(
                            shi,
                            sti,
                            i as int,
                            m,
                        ),
                        0 <= i < n,
                        shi[i as int] >= 2,
                        si == self.strides@[i as int],
                        mi as int == abs(sti[i as int]),
                        acc as int == sum(j as nat, f),
                        acc as int <= isize::MAX as int,
                    decreases n - j,
                {
                    let sj = self.strides[j];
                    proof {
                        assert(abs(sti[j as int]) <= isize::MAX as int);
                    }
                    let mj = if sj >= 0 {
                        sj as usize
                    } else {
                        (-sj) as usize
                    };
                    proof {
                        assert(mj as int == abs(sti[j as int]));
                    }
                    if j != i && self.shape[j] >= 2 && mj <= mi {
                        proof {
                            assert(f(j as int) == (shi[j as int] - 1) * abs(sti[j as int]));
                        }
                        let t = match (self.shape[j] - 1).checked_mul(mj) {
                            Some(t) => t,
                            None => {
                                proof {
                                    lemma_dom_partial_refutes(shi, sti, i as int, (j + 1) as nat, f);
                                }
                                return false;
                            },
                        };
                        let acc2 = match acc.checked_add(t) {
                            Some(v) => v,
                            None => {
                                proof {
                                    lemma_dom_partial_refutes(shi, sti, i as int, (j + 1) as nat, f);
                                }
                                return false;
                            },
                        };
                        if acc2 > isize::MAX as usize {
                            proof {
                                lemma_dom_partial_refutes(shi, sti, i as int, (j + 1) as nat, f);
                            }
                            return false;
                        }
                        acc = acc2;
                    } else {
                        proof {
                            assert(f(j as int) == 0);
                        }
                    }
                    j += 1;
                    proof {
                        assert(sum(j as nat, f) == sum((j - 1) as nat, f) + f(j as int - 1));
                    }
                }
                proof {
                    assert(acc as int == dom_sum(shi, sti, i as int));
                }
                if mi <= acc {
                    return false;
                }
            }
            i += 1;
        }
        true
    }
}

/// The whole span splits into the positive span and the negative span.
pub proof fn lemma_aspan_pos_neg(shi: Seq<int>, sti: Seq<int>)
    requires
        shi.len() == sti.len(),
    ensures
        span_from(shi, sti, 0) == pos_span(shi, sti) - neg_span(shi, sti),
{
    let n = shi.len();
    let full = |j: int| if j >= 0 { ext1(shi[j]) * abs(sti[j]) } else { 0 };
    let post = |j: int| if sti[j] >= 0 { ext1(shi[j]) * sti[j] } else { 0 };
    let negt = |j: int| if sti[j] < 0 { ext1(shi[j]) * sti[j] } else { 0 };
    let negd = |j: int| -negt(j);
    assert forall|j: int| 0 <= j < n implies #[trigger] full(j) == post(j) + negd(j) by {
        if sti[j] >= 0 {
            assert(abs(sti[j]) == sti[j]);
        } else {
            assert(ext1(shi[j]) * abs(sti[j]) == -(ext1(shi[j]) * sti[j])) by (nonlinear_arith)
                requires
                    abs(sti[j]) == -sti[j],
            ;
        }
    }
    lemma_sum_add(n, post, negd, full);
    lemma_sum_add(n, negt, negd, |j: int| 0int);
    lemma_sum_zero(n, |j: int| 0int);
}

/// The positive span is never negative.
proof fn lemma_pos_span_nonneg(shi: Seq<int>, sti: Seq<int>)
    requires
        shi.len() == sti.len(),
    ensures
        pos_span(shi, sti) >= 0,
        neg_span(shi, sti) <= 0,
{
    let n = shi.len();
    let post = |j: int| if sti[j] >= 0 { ext1(shi[j]) * sti[j] } else { 0 };
    let negt = |j: int| if sti[j] < 0 { ext1(shi[j]) * sti[j] } else { 0 };
    assert forall|j: int| 0 <= j < n implies #[trigger] post(j) >= 0 by {
        if sti[j] >= 0 {
            assert(ext1(shi[j]) * sti[j] >= 0) by (nonlinear_arith)
                requires
                    ext1(shi[j]) >= 0,
                    sti[j] >= 0,
            ;
        }
    }
    assert forall|j: int| 0 <= j < n implies #[trigger] negt(j) <= 0 by {
        if sti[j] < 0 {
            assert(ext1(shi[j]) * sti[j] <= 0) by (nonlinear_arith)
                requires
                    ext1(shi[j]) >= 0,
                    sti[j] < 0,
            ;
        }
    }
    lemma_sum_le(n, |j: int| 0int, post);
    lemma_sum_le(n, negt, |j: int| 0int);
    lemma_sum_zero(n, |j: int| 0int);
    lemma_sum_ext(n, post, |j: int| if sti[j] >= 0 { ext1(shi[j]) * sti[j] } else { 0 });
    lemma_sum_ext(n, negt, |j: int| if sti[j] < 0 { ext1(shi[j]) * sti[j] } else { 0 });
}

/// Nonnegativity of the split span terms.
proof fn lemma_span_magnitude_terms(
    shi: Seq<int>,
    sti: Seq<int>,
    post: spec_fn(int) -> int,
    negn: spec_fn(int) -> int,
)
    requires
        forall|j: int| #[trigger] post(j) == (if sti[j] >= 0 {
            ext1(shi[j]) * sti[j]
        } else {
            0
        }),
        forall|j: int| #[trigger] negn(j) == (if sti[j] < 0 {
            -(ext1(shi[j]) * sti[j])
        } else {
            0
        }),
    ensures
        forall|j: int| #![trigger post(j)] #![trigger negn(j)] post(j) >= 0 && negn(j) >= 0,
{
    assert forall|j: int| #![trigger post(j)] #![trigger negn(j)] post(j) >= 0 && negn(j)
        >= 0 by {
        if sti[j] >= 0 {
            assert(ext1(shi[j]) * sti[j] >= 0) by (nonlinear_arith)
                requires
                    ext1(shi[j]) >= 0,
                    sti[j] >= 0,
            ;
        } else {
            assert(ext1(shi[j]) * sti[j] <= 0) by (nonlinear_arith)
                requires
                    ext1(shi[j]) >= 0,
                    sti[j] < 0,
            ;
        }
    }
}

/// A partial span magnitude that exceeds the size limit forces the full one
/// over it.
proof fn lemma_span_partial_exceeds(
    shi: Seq<int>,
    sti: Seq<int>,
    f: spec_fn(int) -> int,
    k: nat,
    positive: bool,
)
    requires
        shi.len() == sti.len(),
        k <= shi.len(),
        positive ==> forall|j: int| 0 <= j < shi.len() ==> #[trigger] f(j) == (if sti[j] >= 0 {
            ext1(shi[j]) * sti[j]
        } else {
            0
        }),
        !positive ==> forall|j: int| 0 <= j < shi.len() ==> #[trigger] f(j) == (if sti[j] < 0 {
            -(ext1(shi[j]) * sti[j])
        } else {
            0
        }),
        sum(k, f) > isize::MAX as int,
    ensures
        positive ==> pos_span(shi, sti) > isize::MAX as int,
        !positive ==> -neg_span(shi, sti) > isize::MAX as int,
{
    let n = shi.len();
    assert forall|j: int| 0 <= j < n implies #[trigger] f(j) >= 0 by {
        if sti[j] >= 0 {
            assert(ext1(shi[j]) * sti[j] >= 0) by (nonlinear_arith)
                requires
                    ext1(shi[j]) >= 0,
                    sti[j] >= 0,
            ;
        } else {
            assert(ext1(shi[j]) * sti[j] <= 0) by (nonlinear_arith)
                requires
                    ext1(shi[j]) >= 0,
                    sti[j] < 0,
            ;
        }
    }
    lemma_sum_extend_nonneg(k, n, f);
    if positive {
        lemma_sum_ext(n, f, |j: int| if sti[j] >= 0 { ext1(shi[j]) * sti[j] } else { 0 });
    } else {
        let negt = |j: int| if sti[j] < 0 { ext1(shi[j]) * sti[j] } else { 0 };
        lemma_sum_add(n, negt, f, |j: int| 0int);
        lemma_sum_zero(n, |j: int| 0int);
        lemma_sum_ext(n, negt, |j: int| if sti[j] < 0 { ext1(shi[j]) * sti[j] } else { 0 });
    }
}

/// A partial dominated sum that exceeds the size limit refutes dominance at
/// that axis, since stride magnitudes fit the size type.
proof fn lemma_dom_partial_refutes(
    shi: Seq<int>,
    sti: Seq<int>,
    i: int,
    j: nat,
    f: spec_fn(int) -> int,
)
    requires
        0 <= i < shi.len(),
        shi.len() == sti.len(),
        shi[i] >= 2,
        j <= shi.len(),
        abs(sti[i]) <= isize::MAX as int,
        forall|m: int| 0 <= m < shi.len() ==> #[trigger] f(m) == dom_term(shi, sti, i, m),
        forall|a: int, m: int| #[trigger] dom_term(shi, sti, a, m) >= 0,
        sum(j, f) > isize::MAX as int,
    ensures
        !dominated(shi, sti),
{
    let n = shi.len();
    assert forall|m: int| j <= m < n implies #[trigger] f(m) >= 0 by {
        assert(f(m) == dom_term(shi, sti, i, m));
    }
    lemma_sum_extend_nonneg(j, n, f);
    lemma_sum_ext(n, f, |m: int| dom_term(shi, sti, i, m));
    assert(dom_sum(shi, sti, i) > isize::MAX as int);
}

/// A partial product bounded by the buffer length.
proof fn lemma_len_partial_bound(shi: Seq<int>, f: spec_fn(int) -> int, k: nat, dlen: int)
    requires
        k <= shi.len(),
        forall|j: int| 0 <= j < shi.len() ==> #[trigger] f(j) == shi[j],
        forall|j: int| 0 <= j < shi.len() ==> #[trigger] f(j) >= 1,
        product(shi) <= dlen,
    ensures
        prod(k, f) <= dlen,
        prod(k, f) >= 1,
{
    lemma_prod_extend_ge1(k, shi.len(), f);
    lemma_prod_ext(shi.len(), f, |j: int| shi[j]);
}

/// A shape with no zero extents and a bounded product has a bounded nonzero
/// product.
proof fn lemma_nonzero_nzprod(shi: Seq<int>, dlen: int)
    requires
        forall|j: int| 0 <= j < shi.len() ==> #[trigger] shi[j] >= 1,
        product(shi) <= dlen,
        dlen <= isize::MAX as int,
    ensures
        crate::geom::nzprod(shi) <= isize::MAX as int,
{
    lemma_prod_ext(shi.len(), |j: int| crate::geom::nz(shi[j]), |j: int| shi[j]);
}

/// The canonical strides make any exactly-sized buffer well formed.
proof fn lemma_from_shape_wf<A>(dat: Seq<A>, shi: Seq<int>)
    requires
        dat.len() <= isize::MAX as int,
        product(shi) == dat.len() as int,
        forall|j: int| 0 <= j < shi.len() ==> #[trigger] shi[j] >= 0,
        crate::geom::nzprod(shi) <= isize::MAX as int,
    ensures
        parts_wf(dat, 0, shi, canon(shi)),
{
    let cw = canon(shi);
    if product(shi) > 0 {
        crate::geom::lemma_product_pos(shi);
        lemma_canon_tiled(shi);
        lemma_tiled_dominated(shi, cw);
        lemma_tiled_span_prod(shi, cw, 0);
        crate::geom::lemma_prod_from_base(shi);
        lemma_spans_nonneg(shi, cw);
        assert forall|i: int| 0 <= i < cw.len() implies abs(#[trigger] cw[i]) <= isize::MAX
            as int by {
            lemma_prod_from_pos(shi, 0);
            assert(cw[i] == crate::geom::prod_from(shi, i + 1));
            assert(crate::geom::prod_from(shi, 0) >= crate::geom::prod_from(shi, i + 1));
        }
        assert forall|i: int|
            0 <= i < shi.len() && #[trigger] shi[i] == 1 implies abs(cw[i]) <= span_from(
            shi,
            cw,
            0,
        ) + 1 by {
            lemma_prod_from_pos(shi, 0);
            assert(cw[i] == crate::geom::prod_from(shi, i + 1));
            assert(crate::geom::prod_from(shi, 0) >= crate::geom::prod_from(shi, i + 1));
        }
    } else {
        assert forall|i: int| 0 <= i < cw.len() implies abs(#[trigger] cw[i]) <= isize::MAX
            as int by {
            lemma_canon_zero_bound(shi, i);
        }
    }
}

/// With a zero product every canonical weight is bounded by the (zero or
/// positive) suffix products staying within the total.
proof fn lemma_canon_zero_bound(shi: Seq<int>, i: int)
    requires
        0 <= i < shi.len(),
        forall|j: int| 0 <= j < shi.len() ==> #[trigger] shi[j] >= 0,
        crate::geom::nzprod(shi) <= isize::MAX as int,
    ensures
        abs(canon(shi)[i]) <= isize::MAX as int,
{
    if exists|z: int| i + 1 <= z < shi.len() && #[trigger] shi[z] == 0 {
        let z = choose|z: int| i + 1 <= z < shi.len() && #[trigger] shi[z] == 0;
        crate::geom::lemma_prod_from_zero(shi, i + 1, z);
    } else {
        // the zero extents sit at or before i; the positive suffix product
        // is bounded by the product of the nonzero extents
        lemma_prod_from_pos(shi, i + 1);
        lemma_canon_suffix_bound(shi, i);
    }
}

/// When every extent past `i` is positive but the total product is zero,
/// the suffix product past `i` is bounded by the nonzero product.
proof fn lemma_canon_suffix_bound(shi: Seq<int>, i: int)
    requires
        0 <= i < shi.len(),
        forall|j: int| 0 <= j < shi.len() ==> #[trigger] shi[j] >= 0,
        forall|j: int| i + 1 <= j < shi.len() ==> #[trigger] shi[j] >= 1,
    ensures
        prod(
            shi.len(),
            |k: int| if k >= i + 1 { shi[k] } else { 1 },
        ) <= crate::geom::nzprod(shi),
        canon(shi)[i] <= crate::geom::nzprod(shi),
{
    let n = shi.len();
    let gated = |k: int| if k >= i + 1 { shi[k] } else { 1 };
    let nzf = |k: int| crate::geom::nz(shi[k]);
    assert forall|k: int| 0 <= k < n implies 1 <= #[trigger] gated(k) by {}
    assert forall|k: int| 0 <= k < n implies gated(k) <= #[trigger] nzf(k) by {}
    crate::geom::lemma_prod_le(n, gated, nzf);
    lemma_prod_ext(n, nzf, |k: int| crate::geom::nz(shi[k]));
    assert(canon(shi)[i] == crate::geom::prod_from(shi, i + 1));
}

} // verus!
