//! The extents of a tensor of rank at most `MAX_RANK`.
use vstd::prelude::*;
use vstd::slice::slice_subrange;

use crate::layout::{ints, packed_strides, prod, suffix_prod, suffix_products_fit, lemma_prod_prefix_le, lemma_prod_subrange_front, lemma_prod_zero};

verus! {

/// The largest rank a tensor can have.
pub const MAX_RANK: usize = 4;

/// Pads a per-axis sequence with zeros up to `MAX_RANK` entries, as the
/// fixed-size stride arrays hold it.
pub open spec fn pad(s: Seq<int>) -> Seq<int> {
    Seq::new(MAX_RANK as nat, |i: int| if i < s.len() { s[i] } else { 0 })
}

/// The extents of a tensor: `rank` leading entries of `dims` are used, the
/// others are zero.
#[derive(Clone, Copy, PartialEq, Eq, Debug)]
pub struct Shape {
    dims: [usize; MAX_RANK],
    rank: usize,
}

impl Shape {
    #[verifier::type_invariant]
    spec fn wf(self) -> bool {
        &&& self.rank <= MAX_RANK
        &&& forall|i: int| self.rank <= i < MAX_RANK ==> self.dims[i] == 0
    }
}

impl View for Shape {
    type V = Seq<usize>;

    /// The extents, one per axis.
    closed spec fn view(&self) -> Seq<usize> {
        self.dims@.subrange(0, self.rank as int)
    }
}

impl Shape {
    /// The number of elements of a tensor of this shape.
    pub open spec fn spec_numel(&self) -> int {
        prod(ints(self@))
    }

    /// Builds the shape with the given extents.
    pub fn new(dims: &[usize]) -> (s: Shape)
        requires
            dims@.len() <= MAX_RANK,
        ensures
            s@ == dims@,
    {
        let mut d: [usize; MAX_RANK] = [0, 0, 0, 0];
        let mut i: usize = 0;
        while i < dims.len()
            invariant
                i <= dims@.len() <= MAX_RANK,
                forall|k: int| 0 <= k < i ==> d[k] == dims@[k],
                forall|k: int| i <= k < MAX_RANK ==> d[k] == 0,
            decreases dims@.len() - i,
        {
            d[i] = dims[i];
            i = i + 1;
        }
        Shape { dims: d, rank: dims.len() }
    }

    /// The number of axes.
    pub fn rank(&self) -> (r: usize)
        ensures
            r == self@.len(),
            r <= MAX_RANK,
    {
        proof {
            use_type_invariant(self);
        }
        self.rank
    }

    /// The extents, one per axis.
    pub fn dims(&self) -> (d: &[usize])
        ensures
            d@ == self@,
    {
        proof {
            use_type_invariant(self);
        }
        slice_subrange(self.dims.as_slice(), 0, self.rank)
    }

    /// The extent of axis `i`.
    pub fn dim(&self, i: usize) -> (d: usize)
        requires
            i < self@.len(),
        ensures
            d == self@[i as int],
    {
        proof {
            use_type_invariant(self);
        }
        self.dims[i]
    }

    /// The number of elements: the product of the extents.
    pub fn numel(&self) -> (n: usize)
        requires
            self.spec_numel() <= usize::MAX,
        ensures
            n == self.spec_numel(),
    {
        proof {
            use_type_invariant(self);
        }
        let ghost e = ints(self@);
        // A zero extent makes the product zero. Without one, every running
        // product is bounded by the full product, so none of them overflows.
        let mut i: usize = 0;
        while i < self.rank
            invariant
                e == ints(self@),
                e.len() == self.rank,
                self.rank <= MAX_RANK,
                i <= self.rank,
                forall|k: int| 0 <= k < i ==> 1 <= #[trigger] e[k],
            decreases self.rank - i,
        {
            if self.dims[i] == 0 {
                proof {
                    lemma_prod_zero(e, i as int);
                }
                return 0;
            }
            i = i + 1;
        }
        let mut acc: usize = 1;
        i = 0;
        while i < self.rank
            invariant
                e == ints(self@),
                e.len() == self.rank,
                self.rank <= MAX_RANK,
                i <= self.rank,
                forall|k: int| 0 <= k < e.len() ==> 1 <= #[trigger] e[k],
                acc == prod(e.take(i as int)),
                prod(e) <= usize::MAX,
            decreases self.rank - i,
        {
            proof {
                lemma_prod_prefix_le(e, i + 1);
                assert(e.take(i + 1).drop_last() =~= e.take(i as int));
            }
            acc = acc * self.dims[i];
            i = i + 1;
        }
        assert(e.take(self.rank as int) =~= e);
        acc
    }

    /// Row-major strides for this shape, zero past the last axis.
    pub fn contiguous_strides(&self) -> (s: [usize; MAX_RANK])
        requires
            suffix_products_fit(ints(self@)),
        ensures
            ints(s@) == pad(packed_strides(ints(self@))),
            self@.len() <= MAX_RANK,
    {
        proof {
            use_type_invariant(self);
        }
        let ghost e = ints(self@);
        let mut s: [usize; MAX_RANK] = [0, 0, 0, 0];
        let mut acc: usize = 1;
        let mut i: usize = self.rank;
        while i > 0
            invariant
                e == ints(self@),
                e.len() == self.rank,
                self.rank <= MAX_RANK,
                i <= self.rank,
                suffix_products_fit(e),
                acc == suffix_prod(e, i as int),
                forall|k: int| i <= k < self.rank ==> s[k] == suffix_prod(e, k + 1),
                forall|k: int| 0 <= k < i ==> s[k] == 0,
                forall|k: int| self.rank <= k < MAX_RANK ==> s[k] == 0,
            decreases i,
        {
            i = i - 1;
            s[i] = acc;
            proof {
                lemma_prod_subrange_front(e, i as int, e.len() as int);
                vstd::arithmetic::mul::lemma_mul_is_commutative(acc as int, e[i as int]);
                assert(suffix_prod(e, i as int) <= usize::MAX);
            }
            acc = acc * self.dims[i];
        }
        s
    }
}

} // verus!
