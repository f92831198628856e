//! Laws of the growth protocol that hold for every input, stated over the
//! same spec vocabulary the operation contracts use.

use vstd::prelude::*;

use crate::append::{append_ok, append_outcome, grown_shape, off_axis_match};
use crate::array::Array;
use crate::errors::ErrorKind;
use crate::geom::{nzprod, product, valid_index};

verus! {

/// Appending two slabs in sequence yields the same final array, by shape and
/// element sequence, as appending their concatenation in one call, whenever
/// each call succeeds: the elements present before the growth keep their
/// exact values, and every grown place holds a clone of the same source
/// element on both paths.  (A zero-sized slab is the shape-only no-op of the
/// append contract's zero clause, so the slabs here are the non-empty ones.)
pub proof fn lemma_slab_concatenation<A: Clone>(
    x0: Array<A>,
    a: Array<A>,
    b: Array<A>,
    c: Array<A>,
    axis: int,
    x1: Array<A>,
    x2: Array<A>,
    y: Array<A>,
)
    requires
        0 <= axis < x0.rank(),
        append_outcome(x0, a.sh(), axis) is None,
        append_outcome(x1, b.sh(), axis) is None,
        append_outcome(x0, c.sh(), axis) is None,
        append_ok(x0, a, axis, x1),
        append_ok(x1, b, axis, x2),
        append_ok(x0, c, axis, y),
        // c is a concatenated with b along the axis
        c.sh() == a.sh().update(axis, a.sh()[axis] + b.sh()[axis]),
        b.rank() == a.rank(),
        forall|ix: Seq<int>|
            #[trigger] valid_index(c.sh(), ix) && ix[axis] < a.sh()[axis] ==> c.elem(ix) == a.elem(
                ix,
            ),
        forall|ix: Seq<int>|
            #[trigger] valid_index(c.sh(), ix) && ix[axis] >= a.sh()[axis] ==> c.elem(ix)
                == b.elem(ix.update(axis, ix[axis] - a.sh()[axis])),
    ensures
        x2.sh() == y.sh(),
        forall|ix: Seq<int>|
            #[trigger] valid_index(y.sh(), ix) && ix[axis] < x0.sh()[axis] ==> x2.elem(ix)
                == y.elem(ix),
        forall|ix: Seq<int>|
            #[trigger] valid_index(y.sh(), ix) && x0.sh()[axis] <= ix[axis] < x0.sh()[axis]
                + a.sh()[axis] ==> vstd::pervasive::cloned(
                a.elem(ix.update(axis, ix[axis] - x0.sh()[axis])),
                x2.elem(ix),
            ) && vstd::pervasive::cloned(
                a.elem(ix.update(axis, ix[axis] - x0.sh()[axis])),
                y.elem(ix),
            ),
        forall|ix: Seq<int>|
            #[trigger] valid_index(y.sh(), ix) && ix[axis] >= x0.sh()[axis] + a.sh()[axis]
                ==> vstd::pervasive::cloned(
                b.elem(ix.update(axis, ix[axis] - x0.sh()[axis] - a.sh()[axis])),
                x2.elem(ix),
            ) && vstd::pervasive::cloned(
                b.elem(ix.update(axis, ix[axis] - x0.sh()[axis] - a.sh()[axis])),
                y.elem(ix),
            ),
{
    let n = x0.rank();
    x0.lemma_value_ranges();
    a.lemma_value_ranges();
    b.lemma_value_ranges();
    c.lemma_value_ranges();
    assert(off_axis_match(x0, a.sh(), axis));
    assert(off_axis_match(x1, b.sh(), axis));
    assert(off_axis_match(x0, c.sh(), axis));
    assert(x2.sh() == y.sh()) by {
        assert(x1.sh() == x0.sh().update(axis, x0.sh()[axis] + a.sh()[axis]));
        assert(x2.sh() == x1.sh().update(axis, x1.sh()[axis] + b.sh()[axis]));
        assert(y.sh() == x0.sh().update(axis, x0.sh()[axis] + c.sh()[axis]));
        assert(x2.sh() =~= y.sh());
    }
    // elements already present keep their values on both paths
    assert forall|ix: Seq<int>|
        #[trigger] valid_index(y.sh(), ix) && ix[axis] < x0.sh()[axis] implies x2.elem(ix)
        == y.elem(ix) by {
        assert(valid_index(x2.sh(), ix));
        assert(valid_index(x1.sh(), ix)) by {
            assert forall|k: int| 0 <= k < n implies 0 <= #[trigger] ix[k] < x1.sh()[k] by {
                if k != axis {
                    assert(x1.sh()[k] == x2.sh()[k]);
                } else {
                    assert(x1.sh()[axis] == x0.sh()[axis] + a.sh()[axis]);
                    assert(a.sh()[axis] >= 0);
                }
            }
        }
        assert(x2.elem(ix) == x1.elem(ix));
        assert(x1.elem(ix) == x0.elem(ix));
        assert(y.elem(ix) == x0.elem(ix));
    }
    // the first slab's region holds clones of the same elements on both paths
    assert forall|ix: Seq<int>|
        #[trigger] valid_index(y.sh(), ix) && x0.sh()[axis] <= ix[axis] < x0.sh()[axis]
        + a.sh()[axis] implies vstd::pervasive::cloned(
        a.elem(ix.update(axis, ix[axis] - x0.sh()[axis])),
        x2.elem(ix),
    ) && vstd::pervasive::cloned(a.elem(ix.update(axis, ix[axis] - x0.sh()[axis])), y.elem(ix)) by {
        let iv = ix.update(axis, ix[axis] - x0.sh()[axis]);
        assert(valid_index(x2.sh(), ix));
        assert(valid_index(x1.sh(), ix)) by {
            assert forall|k: int| 0 <= k < n implies 0 <= #[trigger] ix[k] < x1.sh()[k] by {
                if k != axis {
                    assert(x1.sh()[k] == x2.sh()[k]);
                } else {
                    assert(x1.sh()[axis] == x0.sh()[axis] + a.sh()[axis]);
                }
            }
        }
        assert(x2.elem(ix) == x1.elem(ix));
        assert(vstd::pervasive::cloned(a.elem(iv), x1.elem(ix)));
        assert(vstd::pervasive::cloned(c.elem(iv), y.elem(ix)));
        assert(valid_index(c.sh(), iv)) by {
            assert forall|k: int| 0 <= k < n implies 0 <= #[trigger] iv[k] < c.sh()[k] by {
                if k != axis {
                    assert(c.sh()[k] == a.sh()[k]);
                    assert(a.sh()[k] == x0.sh()[k]);
                    assert(x0.sh()[k] == y.sh()[k]);
                }
            }
        }
        assert(iv[axis] < a.sh()[axis]);
        assert(c.elem(iv) == a.elem(iv));
    }
    // the second slab's region likewise
    assert forall|ix: Seq<int>|
        #[trigger] valid_index(y.sh(), ix) && ix[axis] >= x0.sh()[axis] + a.sh()[axis]
        implies vstd::pervasive::cloned(
        b.elem(ix.update(axis, ix[axis] - x0.sh()[axis] - a.sh()[axis])),
        x2.elem(ix),
    ) && vstd::pervasive::cloned(
        b.elem(ix.update(axis, ix[axis] - x0.sh()[axis] - a.sh()[axis])),
        y.elem(ix),
    ) by {
        let ib = ix.update(axis, ix[axis] - x0.sh()[axis] - a.sh()[axis]);
        let ic = ix.update(axis, ix[axis] - x0.sh()[axis]);
        assert(valid_index(x2.sh(), ix));
        assert(a.sh()[axis] >= 0 && b.sh()[axis] >= 0);
        assert(ix[axis] >= x1.sh()[axis]);
        assert(ix[axis] >= x0.sh()[axis]);
        assert(vstd::pervasive::cloned(
            b.elem(ix.update(axis, ix[axis] - x1.sh()[axis])),
            x2.elem(ix),
        ));
        assert(ix.update(axis, ix[axis] - x1.sh()[axis]) =~= ib);
        assert(vstd::pervasive::cloned(c.elem(ic), y.elem(ix)));
        assert(valid_index(c.sh(), ic)) by {
            assert forall|k: int| 0 <= k < n implies 0 <= #[trigger] ic[k] < c.sh()[k] by {
                if k != axis {
                    assert(c.sh()[k] == a.sh()[k]);
                    assert(a.sh()[k] == x0.sh()[k]);
                    assert(x0.sh()[k] == y.sh()[k]);
                }
            }
        }
        assert(ic[axis] >= a.sh()[axis]);
        assert(c.elem(ic) == b.elem(ic.update(axis, ic[axis] - a.sh()[axis])));
        assert(ic.update(axis, ic[axis] - a.sh()[axis]) =~= ib);
    }
}

/// Growing along an axis that is not the outermost-stride axis of a
/// non-empty array whose extent there exceeds one is always refused with a
/// layout error; by the append contract a refused append leaves the array
/// untouched.
pub proof fn lemma_not_outermost_axis_rejected<A>(pre: Array<A>, src: Array<A>, axis: int)
    requires
        0 <= axis < pre.rank(),
        off_axis_match(pre, src.sh(), axis),
        pre.sh()[axis] + src.sh()[axis] <= usize::MAX as int,
        nzprod(grown_shape(pre, src.sh(), axis)) <= isize::MAX as int,
        product(src.sh()) != 0,
        pre.size() > 0,
        pre.sh()[axis] > 1,
        exists|j: int| 0 <= j < pre.rank() && #[trigger] pre.st()[j] > pre.st()[axis],
    ensures
        append_outcome(pre, src.sh(), axis) == Some(ErrorKind::IncompatibleLayout),
{
}

/// A source whose off-axis shape differs from the array's, or an array of
/// rank zero, is always refused with a shape error, before anything else is
/// examined; by the append contract the array is left untouched.
pub proof fn lemma_shape_mismatch_rejected<A>(pre: Array<A>, src: Array<A>, axis: int)
    requires
        pre.rank() == 0 || !off_axis_match(pre, src.sh(), axis),
    ensures
        append_outcome(pre, src.sh(), axis) == Some(ErrorKind::IncompatibleShape),
{
}

/// Moving a hole-free array destroys nothing: the collected positions
/// returned by the transfer number exactly the buffer length minus the
/// element count, which is zero when the view covers its whole buffer.
pub proof fn lemma_full_cover_destroys_nothing<A>(a: Array<A>, holes: Seq<usize>)
    requires
        a.size() == a.buf_len(),
        holes.len() as int == a.buf_len() - a.size(),
    ensures
        holes.len() == 0,
{
}

} // verus!
