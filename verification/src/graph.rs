//! A graph of tensors: each tensor is a record (extents, strides, offset)
//! that addresses one storage buffer; views share a buffer, and only
//! `push` and a materialising `contiguous` allocate one.
use vstd::prelude::*;
use vstd::slice::{slice_subrange, slice_to_vec};

use crate::layout::{
    all_nonneg, dot, in_bounds, ints, is_packed, max_index, packed_strides, prod,
    row_major_pos, suffix_prod, suffix_products_fit, lemma_dot_congruent, lemma_dot_is_packed,
    lemma_dot_monotone, lemma_dot_prefix_le, lemma_dot_swap, lemma_odometer_step,
    lemma_packed_max_address, lemma_prod_subrange_front, lemma_prod_swap,
    lemma_row_major_pos_bound, lemma_row_major_pos_injective, lemma_suffix_products_fit,
    odometer_step, lemma_odometer_step_len, lemma_dot_pad, lemma_dot_packed, lemma_row_major_pos_zero, swap_axes, lemma_ints_swap,
};
use crate::shape::{pad, Shape, MAX_RANK};

verus! {

/// Names a tensor record of a graph.
#[derive(Clone, Copy, PartialEq, Eq, Structural, Debug)]
pub struct TensorId(u32);

impl View for TensorId {
    type V = nat;

    /// The position of the record in the graph.
    closed spec fn view(&self) -> nat {
        self.0 as nat
    }
}

/// Names a storage buffer of a graph.
#[derive(Clone, Copy, PartialEq, Eq, Structural, Debug)]
pub struct StorageId(u32);

impl View for StorageId {
    type V = nat;

    /// The position of the buffer in the graph.
    closed spec fn view(&self) -> nat {
        self.0 as nat
    }
}

#[derive(Clone, Copy, Debug)]
struct Tensor {
    shape: Shape,
    strides: [usize; MAX_RANK],
    offset: usize,
    storage: StorageId,
}

/// What a tensor record holds: its extents, its strides (one per possible
/// axis, zero past the last one), where its first element sits in its
/// buffer, and which buffer that is.
pub struct TensorModel {
    pub dims: Seq<usize>,
    pub strides: Seq<usize>,
    pub offset: int,
    pub storage: int,
}

impl TensorModel {
    /// The number of elements.
    pub open spec fn numel(self) -> int {
        prod(ints(self.dims))
    }

    /// The strides are row-major strides on every axis of extent other than 1.
    pub open spec fn is_contiguous(self) -> bool {
        is_packed(ints(self.dims), ints(self.strides))
    }

    /// Where the element at multi-index `idx` sits in the buffer.
    pub open spec fn address(self, idx: Seq<int>) -> int {
        self.offset + dot(idx, ints(self.strides))
    }

    /// Distinct multi-indices in bounds address distinct places.
    pub open spec fn addresses_distinct(self) -> bool {
        forall|a: Seq<int>, b: Seq<int>|
            in_bounds(a, ints(self.dims)) && in_bounds(b, ints(self.dims)) && #[trigger] dot(
                a,
                ints(self.strides),
            ) == #[trigger] dot(b, ints(self.strides)) ==> a == b
    }

    /// A record freshly laid out in row-major order at the start of buffer `storage`.
    pub open spec fn is_fresh(self, dims: Seq<usize>, storage: int) -> bool {
        &&& self.dims == dims
        &&& ints(self.strides) == pad(packed_strides(ints(dims)))
        &&& self.offset == 0
        &&& self.storage == storage
    }
}

/// What a graph holds: its tensor records and its storage buffers.
pub struct GraphModel<T> {
    pub tensors: Seq<TensorModel>,
    pub storages: Seq<Seq<T>>,
}

impl<T> GraphModel<T> {
    /// The buffer that tensor `id` reads.
    pub open spec fn data(self, id: int) -> Seq<T> {
        self.storages[self.tensors[id].storage]
    }

    /// The element of tensor `id` at multi-index `idx`.
    pub open spec fn element(self, id: int, idx: Seq<int>) -> T {
        self.data(id)[self.tensors[id].address(idx)]
    }

    /// Record `t` is consistent with the buffers of this graph: its extents
    /// and strides fit, it starts its buffer, its element count is the
    /// buffer's length, and the multi-indices in bounds address distinct
    /// places inside it.
    pub open spec fn admits(self, t: TensorModel) -> bool {
        &&& t.dims.len() <= MAX_RANK
        &&& t.strides.len() == MAX_RANK
        &&& forall|a: int| t.dims.len() <= a < MAX_RANK ==> t.strides[a] == 0
        &&& 0 <= t.storage < self.storages.len()
        &&& t.offset == 0
        &&& t.numel() == self.storages[t.storage].len()
        &&& t.numel() <= usize::MAX
        &&& forall|a: int| 0 <= a < t.dims.len() ==> #[trigger] t.dims[a] * t.strides[a] <= usize::MAX
        &&& t.numel() > 0 ==> dot(max_index(ints(t.dims)), ints(t.strides)) < t.numel()
        &&& t.addresses_distinct()
    }

    /// `buf` lists elements of tensor `id` in row-major order: each of its
    /// positions satisfies `gathers_at`.
    pub open spec fn gathers(self, id: int, buf: Seq<T>) -> bool {
        forall|p: int| 0 <= p < buf.len() ==> #[trigger] self.gathers_at(id, buf, p)
    }

    /// Position `p` of `buf` holds the element of tensor `id` at a
    /// multi-index whose row-major position is `p`.
    pub open spec fn gathers_at(self, id: int, buf: Seq<T>, p: int) -> bool {
        exists|m: Seq<int>|
            in_bounds(m, ints(self.tensors[id].dims)) && #[trigger] row_major_pos(
                m,
                ints(self.tensors[id].dims),
            ) == p && buf[p] == self.element(id, m)
    }

    /// `g1` and `r` are what exchanging axes `i` and `j` of tensor `id`
    /// gives: one more record, over the same buffer at the same offset, with
    /// those axes exchanged in its extents and strides; the buffers are
    /// unchanged.
    pub open spec fn transposed(self, id: int, i: int, j: int, g1: GraphModel<T>, r: int) -> bool {
        let t = self.tensors[id];
        let u = g1.tensors.last();
        &&& r == self.tensors.len()
        &&& g1.storages == self.storages
        &&& g1.tensors.len() == self.tensors.len() + 1
        &&& g1.tensors.drop_last() == self.tensors
        &&& u.dims == swap_axes(t.dims, i, j)
        &&& u.strides == swap_axes(t.strides, i, j)
        &&& u.offset == t.offset
        &&& u.storage == t.storage
        &&& forall|idx: Seq<int>|
            in_bounds(idx, ints(u.dims)) ==> #[trigger] g1.element(r, idx) == self.element(
                id,
                swap_axes(idx, i, j),
            )
    }

    /// `g1` and `r` are what reading contiguous tensor `id` with extents
    /// `dims` gives: one more record, row-major over the same buffer at the
    /// same offset; the buffers are unchanged.
    pub open spec fn reshaped(self, id: int, dims: Seq<usize>, g1: GraphModel<T>, r: int) -> bool {
        let t = self.tensors[id];
        let u = g1.tensors.last();
        &&& r == self.tensors.len()
        &&& g1.storages == self.storages
        &&& g1.tensors.len() == self.tensors.len() + 1
        &&& g1.tensors.drop_last() == self.tensors
        &&& u.dims == dims
        &&& ints(u.strides) == pad(packed_strides(ints(dims)))
        &&& u.offset == t.offset
        &&& u.storage == t.storage
        &&& u.is_contiguous()
        &&& g1.data(r) == self.data(id)
    }

    /// `g1` and `c` are what materialising tensor `id` gives: `id` itself
    /// and no change when it is contiguous; otherwise one more record,
    /// row-major over one more buffer that lists the elements of `id` in
    /// row-major order and is a rearrangement of the buffer of `id`. Either
    /// way `c` is contiguous, has the extents of `id` and the same elements.
    pub open spec fn materialised(self, id: int, g1: GraphModel<T>, c: int) -> bool {
        let t = self.tensors[id];
        &&& t.is_contiguous() ==> c == id && g1 == self
        &&& !t.is_contiguous() ==> ({
            let buf = g1.storages.last();
            &&& c == self.tensors.len()
            &&& g1.storages.len() == self.storages.len() + 1
            &&& g1.storages.drop_last() == self.storages
            &&& g1.tensors.len() == self.tensors.len() + 1
            &&& g1.tensors.drop_last() == self.tensors
            &&& g1.tensors.last().is_fresh(t.dims, self.storages.len() as int)
            &&& buf.len() == t.numel()
            &&& self.gathers(id, buf)
            &&& buf.to_multiset() == self.data(id).to_multiset()
        })
        &&& 0 <= c < g1.tensors.len()
        &&& g1.tensors[c].is_contiguous()
        &&& g1.tensors[c].dims == t.dims
        &&& forall|idx: Seq<int>|
            in_bounds(idx, ints(t.dims)) ==> #[trigger] g1.element(c, idx) == self.element(id, idx)
    }

    /// Every record is consistent with the buffers, and there are no more
    /// buffers than records.
    pub open spec fn wf(self) -> bool {
        &&& self.storages.len() <= self.tensors.len()
        &&& forall|k: int| 0 <= k < self.tensors.len() ==> self.admits(#[trigger] self.tensors[k])
    }
}

impl Tensor {
    spec fn model(&self) -> TensorModel {
        TensorModel {
            dims: self.shape@,
            strides: self.strides@,
            offset: self.offset as int,
            storage: self.storage@ as int,
        }
    }
}

/// Tensor records over storage buffers of elements of type `T`.
pub struct Graph<T> {
    tensors: Vec<Tensor>,
    storages: Vec<Vec<T>>,
}

impl<T> View for Graph<T> {
    type V = GraphModel<T>;

    closed spec fn view(&self) -> GraphModel<T> {
        GraphModel {
            tensors: self.tensors@.map_values(|t: Tensor| t.model()),
            storages: self.storages@.map_values(|v: Vec<T>| v@),
        }
    }
}

/// Every element a consistent record can address lies inside its buffer, and
/// its address is at most that of the last multi-index.
pub proof fn lemma_address_in_buffer<T>(g: GraphModel<T>, t: TensorModel, idx: Seq<int>)
    requires
        g.admits(t),
        in_bounds(idx, ints(t.dims)),
    ensures
        0 <= t.address(idx) < g.storages[t.storage].len(),
        0 <= dot(idx, ints(t.strides)) <= dot(max_index(ints(t.dims)), ints(t.strides)),
{
    let d = ints(t.dims);
    let m = max_index(d);
    let s = ints(t.strides);
    assert forall|k: int| 0 <= k < d.len() implies 1 <= #[trigger] d[k] by {
        assert(0 <= idx[k] < d[k]);
    }
    crate::layout::lemma_prod_pos(d);
    lemma_dot_monotone(idx, m, s);
}

/// Appending a record that a consistent graph admits keeps it consistent.
pub proof fn lemma_append_admitted<T>(g: GraphModel<T>, t: TensorModel)
    requires
        g.wf(),
        g.admits(t),
    ensures
        (GraphModel { tensors: g.tensors.push(t), storages: g.storages }).wf(),
{
    let g1 = GraphModel { tensors: g.tensors.push(t), storages: g.storages };
    assert forall|k: int| 0 <= k < g1.tensors.len() implies g1.admits(#[trigger] g1.tensors[k]) by {
        if k < g.tensors.len() {
            assert(g.admits(g.tensors[k]));
        }
    }
}

/// A row-major record at the start of a buffer whose length is its element
/// count is consistent with the graph.
proof fn lemma_fresh_admitted<T>(g: GraphModel<T>, t: TensorModel)
    requires
        t.dims.len() <= MAX_RANK,
        t.strides.len() == MAX_RANK,
        t.is_fresh(t.dims, t.storage),
        0 <= t.storage < g.storages.len(),
        t.numel() == g.storages[t.storage].len(),
        suffix_products_fit(ints(t.dims)),
    ensures
        g.admits(t),
{
    let d = ints(t.dims);
    let s = ints(t.strides);
    let ps = packed_strides(d);
    assert forall|a: int| t.dims.len() <= a < MAX_RANK implies t.strides[a] == 0 by {
        assert(s[a] == pad(ps)[a]);
    }
    assert(d.subrange(0, d.len() as int) =~= d);
    assert(suffix_prod(d, 0) <= usize::MAX);
    assert forall|a: int| 0 <= a < t.dims.len() implies #[trigger] (t.dims[a] * t.strides[a])
        <= usize::MAX by {
        lemma_prod_subrange_front(d, a, d.len() as int);
        assert(s[a] == ps[a]);
        vstd::arithmetic::mul::lemma_mul_is_commutative(d[a], ps[a]);
        assert(suffix_prod(d, a) <= usize::MAX);
    }
    if prod(d) > 0 {
        lemma_packed_max_address(d);
        let m = max_index(d);
        assert forall|a: int| 0 <= a < m.len() implies #[trigger] (m[a] * s[a]) == m[a] * ps[a] by {}
        lemma_dot_congruent(m, s, ps);
    }
    assert forall|a: Seq<int>, b: Seq<int>|
        in_bounds(a, d) && in_bounds(b, d) && #[trigger] dot(a, s) == #[trigger] dot(b, s) implies a
        == b by {
        lemma_dot_pad(a, ps);
        lemma_dot_pad(b, ps);
        lemma_dot_packed(a, d);
        lemma_dot_packed(b, d);
        lemma_row_major_pos_injective(a, b, d);
    }
}

/// Position `p` of `out` holds the element that some multi-index at
/// row-major position `p` addresses in `src`.
spec fn gathered<T>(out: Seq<T>, p: int, src: Seq<T>, offset: int, dims: Seq<int>, strides: Seq<int>) -> bool {
    exists|m: Seq<int>| #[trigger] gathered_from(out, p, src, offset, dims, strides, m)
}

/// Position `p` of `out` holds the element that multi-index `m`, at
/// row-major position `p`, addresses in `src`.
spec fn gathered_from<T>(
    out: Seq<T>,
    p: int,
    src: Seq<T>,
    offset: int,
    dims: Seq<int>,
    strides: Seq<int>,
    m: Seq<int>,
) -> bool {
    in_bounds(m, dims) && row_major_pos(m, dims) == p && out[p] == src[offset + dot(m, strides)]
}

/// A tensor laid out in row-major order at the start of its buffer (as
/// `push`, `from_slice`, `zeros`, `reshape` and a materialising `contiguous`
/// lay it out) is contiguous, and its buffer lists its elements in row-major
/// order.
pub proof fn lemma_fresh_tensor_is_row_major<T>(g: GraphModel<T>, id: int)
    requires
        g.wf(),
        0 <= id < g.tensors.len(),
        ints(g.tensors[id].strides) == pad(packed_strides(ints(g.tensors[id].dims))),
    ensures
        g.tensors[id].is_contiguous(),
        forall|idx: Seq<int>|
            in_bounds(idx, ints(g.tensors[id].dims)) ==> g.element(id, idx) == g.data(id)[g.tensors[id].offset
                + row_major_pos(idx, ints(g.tensors[id].dims))],
{
    let t = g.tensors[id];
    let d = ints(t.dims);
    let ps = packed_strides(d);
    assert forall|a: int| 0 <= a < d.len() && #[trigger] d[a] != 1 implies ints(t.strides)[a]
        == suffix_prod(d, a + 1) by {}
    assert forall|idx: Seq<int>| in_bounds(idx, d) implies g.element(id, idx) == g.data(id)[t.offset
        + row_major_pos(idx, d)] by {
        lemma_dot_pad(idx, ps);
        lemma_dot_packed(idx, d);
    }
}

/// Trailing products of a contiguous tensor of a consistent graph fit in a
/// `usize` from axis `i` on.
proof fn lemma_trailing_products_fit_from<T>(g: GraphModel<T>, id: int, i: int)
    requires
        g.wf(),
        0 <= id < g.tensors.len(),
        g.tensors[id].is_contiguous(),
        0 <= i <= g.tensors[id].dims.len(),
    ensures
        forall|k: int|
            i <= k <= g.tensors[id].dims.len() ==> #[trigger] suffix_prod(ints(g.tensors[id].dims), k)
                <= usize::MAX,
    decreases g.tensors[id].dims.len() - i,
{
    let t = g.tensors[id];
    let d = ints(t.dims);
    let n = d.len() as int;
    assert(g.admits(t));
    if i == n {
        assert(d.subrange(n, n).len() == 0);
    } else {
        lemma_trailing_products_fit_from(g, id, i + 1);
        lemma_prod_subrange_front(d, i, n);
        assert(suffix_prod(d, i) == d[i] * suffix_prod(d, i + 1));
        assert(suffix_prod(d, i + 1) <= usize::MAX);
        if d[i] != 1 {
            assert(t.dims[i] * t.strides[i] <= usize::MAX);
            assert(ints(t.strides)[i] == suffix_prod(d, i + 1));
            assert(d[i] * ints(t.strides)[i] <= usize::MAX);
        }
        assert(suffix_prod(d, i) <= usize::MAX);
    }
}

/// Every product of trailing extents of a contiguous tensor of a consistent
/// graph fits in a `usize`; so reshaping to its extents is always allowed.
pub proof fn lemma_contiguous_trailing_products_fit<T>(g: GraphModel<T>, id: int)
    requires
        g.wf(),
        0 <= id < g.tensors.len(),
        g.tensors[id].is_contiguous(),
    ensures
        suffix_products_fit(ints(g.tensors[id].dims)),
{
    lemma_trailing_products_fit_from(g, id, 0);
}

/// Materialising twice is materialising once: the second call returns the
/// tensor the first one gave and changes nothing.
pub proof fn lemma_materialise_idempotent<T>(
    g0: GraphModel<T>,
    x: int,
    g1: GraphModel<T>,
    c: int,
    g2: GraphModel<T>,
    c2: int,
)
    requires
        0 <= x < g0.tensors.len(),
        g0.materialised(x, g1, c),
        g1.materialised(c, g2, c2),
    ensures
        c2 == c,
        g2 == g1,
{
}

/// Materialising a transposed tensor only rearranges the buffer of the
/// tensor it was transposed from: the same elements, as many times each,
/// so a sum over them does not depend on the layout.
pub proof fn lemma_transpose_materialise_rearranges<T>(
    g0: GraphModel<T>,
    b: int,
    i: int,
    j: int,
    g1: GraphModel<T>,
    t: int,
    g2: GraphModel<T>,
    c: int,
)
    requires
        g0.wf(),
        0 <= b < g0.tensors.len(),
        0 <= i < g0.tensors[b].dims.len(),
        0 <= j < g0.tensors[b].dims.len(),
        g0.transposed(b, i, j, g1, t),
        g1.materialised(t, g2, c),
    ensures
        g2.data(c).to_multiset() == g0.data(b).to_multiset(),
        g2.data(c).len() == g0.tensors[b].numel(),
{
    let tb = g0.tensors[b];
    assert(g0.admits(tb));
    assert(g1.tensors[t] == g1.tensors.last());
    lemma_ints_swap(tb.dims, i, j);
    lemma_prod_swap(ints(tb.dims), i, j);
    if !g1.tensors[t].is_contiguous() {
        assert(g2.tensors[c] == g2.tensors.last());
    }
}

/// Exchanging the same two axes twice gives back the extents, strides,
/// offset and buffer of the tensor, hence its elements.
pub proof fn lemma_transpose_round_trip<T>(
    g0: GraphModel<T>,
    x: int,
    i: int,
    j: int,
    g1: GraphModel<T>,
    t: int,
    g2: GraphModel<T>,
    u: int,
)
    requires
        g0.wf(),
        0 <= x < g0.tensors.len(),
        0 <= i < g0.tensors[x].dims.len(),
        0 <= j < g0.tensors[x].dims.len(),
        g0.transposed(x, i, j, g1, t),
        g1.transposed(t, i, j, g2, u),
    ensures
        g2.tensors[u].dims == g0.tensors[x].dims,
        g2.tensors[u].strides == g0.tensors[x].strides,
        g2.tensors[u].offset == g0.tensors[x].offset,
        g2.tensors[u].storage == g0.tensors[x].storage,
        g2.tensors[u].is_contiguous() == g0.tensors[x].is_contiguous(),
        forall|idx: Seq<int>|
            in_bounds(idx, ints(g0.tensors[x].dims)) ==> g2.element(u, idx) == g0.element(x, idx),
{
    let tx = g0.tensors[x];
    assert(g0.admits(tx));
    assert(g1.tensors[t] == g1.tensors.last());
    assert(g2.tensors[u] == g2.tensors.last());
    assert(swap_axes(swap_axes(tx.dims, i, j), i, j) =~= tx.dims);
    assert(swap_axes(swap_axes(tx.strides, i, j), i, j) =~= tx.strides);
}

/// The order in which the two axes are named does not matter, and
/// exchanging an axis with itself keeps the extents and strides.
pub proof fn lemma_transpose_symmetric<T>(
    g0: GraphModel<T>,
    x: int,
    i: int,
    j: int,
    g1: GraphModel<T>,
    r1: int,
    g2: GraphModel<T>,
    r2: int,
)
    requires
        g0.wf(),
        0 <= x < g0.tensors.len(),
        0 <= i < g0.tensors[x].dims.len(),
        0 <= j < g0.tensors[x].dims.len(),
        g0.transposed(x, i, j, g1, r1),
        g0.transposed(x, j, i, g2, r2),
    ensures
        r1 == r2,
        g1 == g2,
        i == j ==> g1.tensors[r1].dims == g0.tensors[x].dims && g1.tensors[r1].strides
            == g0.tensors[x].strides,
{
    let tx = g0.tensors[x];
    assert(g0.admits(tx));
    assert(swap_axes(tx.dims, i, j) =~= swap_axes(tx.dims, j, i));
    assert(swap_axes(tx.strides, i, j) =~= swap_axes(tx.strides, j, i));
    assert(g1.tensors.last() == g2.tensors.last());
    assert(g1.tensors =~= g0.tensors.push(g1.tensors.last()));
    assert(g2.tensors =~= g0.tensors.push(g2.tensors.last()));
    assert(g1.tensors[r1] == g1.tensors.last());
    if i == j {
        assert(swap_axes(tx.dims, i, j) =~= tx.dims);
        assert(swap_axes(tx.strides, i, j) =~= tx.strides);
    }
}

/// Reshaping a contiguous tensor and reshaping the result back to the
/// original extents reads the same buffer, at the same offset, with the
/// original extents; no buffer is added.
pub proof fn lemma_reshape_round_trip<T>(
    g0: GraphModel<T>,
    x: int,
    dims: Seq<usize>,
    g1: GraphModel<T>,
    r: int,
    g2: GraphModel<T>,
    r2: int,
)
    requires
        0 <= x < g0.tensors.len(),
        g0.reshaped(x, dims, g1, r),
        g1.reshaped(r, g0.tensors[x].dims, g2, r2),
    ensures
        g2.tensors[r2].dims == g0.tensors[x].dims,
        g2.tensors[r2].offset == g0.tensors[x].offset,
        g2.tensors[r2].numel() == g0.tensors[x].numel(),
        g2.data(r2) == g0.data(x),
        g2.storages == g0.storages,
{
    assert(g1.tensors[r] == g1.tensors.last());
    assert(g2.tensors[r2] == g2.tensors.last());
}

/// Transposing a contiguous tensor, materialising, transposing the same
/// axes back and materialising again gives a tensor with the original
/// extents whose buffer lists the original elements in the original order.
pub proof fn lemma_transpose_materialise_round_trip<T>(
    g0: GraphModel<T>,
    b: int,
    i: int,
    j: int,
    g1: GraphModel<T>,
    t: int,
    g2: GraphModel<T>,
    c: int,
    g3: GraphModel<T>,
    u: int,
    g4: GraphModel<T>,
    d: int,
)
    requires
        g0.wf(),
        g4.wf(),
        0 <= b < g0.tensors.len(),
        g0.tensors[b].is_contiguous(),
        0 <= i < g0.tensors[b].dims.len(),
        0 <= j < g0.tensors[b].dims.len(),
        g0.transposed(b, i, j, g1, t),
        g1.materialised(t, g2, c),
        g2.transposed(c, i, j, g3, u),
        g3.materialised(u, g4, d),
    ensures
        g4.tensors[d].dims == g0.tensors[b].dims,
        g4.tensors[d].numel() == g0.tensors[b].numel(),
        g4.data(d).subrange(g4.tensors[d].offset, g4.tensors[d].offset + g4.tensors[d].numel())
            == g0.data(b).subrange(g0.tensors[b].offset, g0.tensors[b].offset + g0.tensors[b].numel()),
{
    let tb = g0.tensors[b];
    let dm = ints(tb.dims);
    assert(g1.tensors[t] == g1.tensors.last());
    assert(g3.tensors[u] == g3.tensors.last());
    assert(swap_axes(swap_axes(tb.dims, i, j), i, j) =~= tb.dims);
    let td = g4.tensors[d];
    assert(td.dims == tb.dims);
    assert(g0.admits(tb));
    assert(g4.admits(td));
    let n = tb.numel();
    let lhs = g4.data(d).subrange(td.offset, td.offset + td.numel());
    let rhs = g0.data(b).subrange(tb.offset, tb.offset + tb.numel());
    assert(all_nonneg(dm));
    lemma_ints_swap(tb.dims, i, j);
    assert forall|p: int| 0 <= p < n implies lhs[p] == rhs[p] by {
        let idx = crate::layout::lemma_row_major_pos_onto(dm, p);
        let sw = swap_axes(idx, i, j);
        assert(in_bounds(sw, ints(g1.tensors[t].dims)));
        assert(swap_axes(sw, i, j) =~= idx);
        assert(g4.element(d, idx) == g3.element(u, idx));
        assert(g3.element(u, idx) == g2.element(c, sw));
        assert(g2.element(c, sw) == g1.element(t, sw));
        assert(g1.element(t, sw) == g0.element(b, idx));
        lemma_dot_is_packed(idx, dm, ints(tb.strides));
        lemma_dot_is_packed(idx, dm, ints(td.strides));
    }
    assert(lhs =~= rhs);
}

impl<T: Copy + Default> Graph<T> {
    /// The graph is consistent.
    pub open spec fn wf(&self) -> bool {
        self@.wf()
    }

    /// An empty graph.
    pub fn new() -> (g: Graph<T>)
        ensures
            g.wf(),
            g@.tensors.len() == 0,
            g@.storages.len() == 0,
    {
        Graph { tensors: Vec::new(), storages: Vec::new() }
    }

    fn tensor(&self, id: TensorId) -> (t: &Tensor)
        requires
            id@ < self@.tensors.len(),
        ensures
            t.model() == self@.tensors[id@ as int],
    {
        &self.tensors[id.0 as usize]
    }

    /// Adds buffer `data` and a row-major tensor of `shape` over it.
    pub fn push(&mut self, shape: Shape, data: Vec<T>) -> (id: TensorId)
        requires
            old(self).wf(),
            shape.spec_numel() == data@.len(),
            suffix_products_fit(ints(shape@)),
            old(self)@.tensors.len() <= u32::MAX,
        ensures
            final(self).wf(),
            id@ == old(self)@.tensors.len(),
            final(self)@.storages == old(self)@.storages.push(data@),
            final(self)@.tensors.len() == old(self)@.tensors.len() + 1,
            final(self)@.tensors.drop_last() == old(self)@.tensors,
            final(self)@.tensors.last().is_fresh(shape@, old(self)@.storages.len() as int),
            final(self)@.tensors.last().is_contiguous(),
    {
        let ghost g0 = self@;
        let strides = shape.contiguous_strides();
        let storage = StorageId(self.storages.len() as u32);
        self.storages.push(data);
        let id = TensorId(self.tensors.len() as u32);
        let t = Tensor { shape, strides, offset: 0, storage };
        self.tensors.push(t);
        proof {
            let g1 = self@;
            lemma_fresh_admitted(g1, t.model());
            assert forall|k: int| 0 <= k < g1.tensors.len() implies g1.admits(
                #[trigger] g1.tensors[k],
            ) by {
                if k < g0.tensors.len() {
                    assert(g1.tensors[k] == g0.tensors[k]);
                }
            }
            lemma_fresh_tensor_is_row_major(g1, id@ as int);
        }
        id
    }

    /// Adds a row-major tensor with extents `dims` over a copy of `data`.
    pub fn from_slice(&mut self, data: &[T], dims: &[usize]) -> (id: TensorId)
        requires
            old(self).wf(),
            dims@.len() <= MAX_RANK,
            prod(ints(dims@)) == data@.len(),
            suffix_products_fit(ints(dims@)),
            old(self)@.tensors.len() <= u32::MAX,
        ensures
            final(self).wf(),
            id@ == old(self)@.tensors.len(),
            final(self)@.storages == old(self)@.storages.push(data@),
            final(self)@.tensors.len() == old(self)@.tensors.len() + 1,
            final(self)@.tensors.drop_last() == old(self)@.tensors,
            final(self)@.tensors.last().is_fresh(dims@, old(self)@.storages.len() as int),
            final(self)@.tensors.last().is_contiguous(),
    {
        self.push(Shape::new(dims), slice_to_vec(data))
    }

    /// Adds a row-major tensor with extents `dims` over a new buffer filled
    /// with one value produced by `T::default()`.
    pub fn zeros(&mut self, dims: &[usize]) -> (id: TensorId)
        requires
            old(self).wf(),
            dims@.len() <= MAX_RANK,
            suffix_products_fit(ints(dims@)),
            old(self)@.tensors.len() <= u32::MAX,
        ensures
            final(self).wf(),
            id@ == old(self)@.tensors.len(),
            final(self)@.storages.len() == old(self)@.storages.len() + 1,
            final(self)@.storages.drop_last() == old(self)@.storages,
            final(self)@.storages.last().len() == prod(ints(dims@)),
            forall|k: int|
                0 <= k < prod(ints(dims@)) ==> call_ensures(
                    T::default,
                    (),
                    #[trigger] final(self)@.storages.last()[k],
                ) && final(self)@.storages.last()[k] == final(self)@.storages.last()[0],
            final(self)@.tensors.len() == old(self)@.tensors.len() + 1,
            final(self)@.tensors.drop_last() == old(self)@.tensors,
            final(self)@.tensors.last().is_fresh(dims@, old(self)@.storages.len() as int),
            final(self)@.tensors.last().is_contiguous(),
    {
        let shape = Shape::new(dims);
        proof {
            let d = ints(dims@);
            assert(d.subrange(0, d.len() as int) =~= d);
            assert(suffix_prod(d, 0) <= usize::MAX);
        }
        let n: usize = shape.numel();
        let fill = T::default();
        let mut data: Vec<T> = Vec::new();
        let mut k: usize = 0;
        while k < n
            invariant
                k <= n,
                data@.len() == k,
                call_ensures(T::default, (), fill),
                forall|p: int| 0 <= p < k ==> data@[p] == fill,
            decreases n - k,
        {
            data.push(fill);
            k = k + 1;
        }
        self.push(shape, data)
    }

    /// Whether tensor `id` is laid out in row-major order: scanning from the
    /// last axis, each axis of extent other than 1 has as stride the product
    /// of the extents to its right.
    pub fn is_contiguous(&self, id: TensorId) -> (b: bool)
        requires
            self.wf(),
            id@ < self@.tensors.len(),
        ensures
            b == self@.tensors[id@ as int].is_contiguous(),
    {
        let t = self.tensor(id);
        let ghost tm = self@.tensors[id@ as int];
        let ghost d = ints(tm.dims);
        let ghost s = ints(tm.strides);
        let rank: usize = t.shape.rank();
        let mut expect: usize = 1;
        let mut i: usize = rank;
        while i > 0
            invariant
                t.model() == tm,
                id@ < self@.tensors.len(),
                tm == self@.tensors[id@ as int],
                self@.admits(tm),
                d == ints(tm.dims),
                s == ints(tm.strides),
                rank == d.len(),
                i <= rank,
                expect == suffix_prod(d, i as int),
                forall|k: int|
                    i <= k < rank && #[trigger] d[k] != 1 ==> s[k] == suffix_prod(d, k + 1),
            decreases i,
        {
            i = i - 1;
            let dk: usize = t.shape.dim(i);
            proof {
                lemma_prod_subrange_front(d, i as int, rank as int);
            }
            if dk == 1 {
                proof {
                    assert(suffix_prod(d, i as int) == 1 * suffix_prod(d, i + 1));
                }
                continue;
            }
            if t.strides[i] != expect {
                return false;
            }
            proof {
                vstd::arithmetic::mul::lemma_mul_is_commutative(d[i as int], s[i as int]);
            }
            expect = expect * dk;
        }
        true
    }

    /// The buffer of contiguous tensor `id`, which lists its elements in
    /// row-major order.
    pub fn cpu(&self, id: TensorId) -> (r: &[T])
        requires
            self.wf(),
            id@ < self@.tensors.len(),
            self@.tensors[id@ as int].is_contiguous(),
        ensures
            r@ == self@.data(id@ as int).subrange(
                self@.tensors[id@ as int].offset,
                self@.tensors[id@ as int].offset + self@.tensors[id@ as int].numel(),
            ),
            forall|idx: Seq<int>|
                in_bounds(idx, ints(self@.tensors[id@ as int].dims)) ==> r@[row_major_pos(
                    idx,
                    ints(self@.tensors[id@ as int].dims),
                )] == self@.element(id@ as int, idx),
    {
        let ghost tm = self@.tensors[id@ as int];
        let t = self.tensor(id);
        let n: usize = t.shape.numel();
        let buf = &self.storages[t.storage.0 as usize];
        let r = slice_subrange(buf.as_slice(), t.offset, t.offset + n);
        proof {
            assert forall|idx: Seq<int>| in_bounds(idx, ints(tm.dims)) implies r@[row_major_pos(
                idx,
                ints(tm.dims),
            )] == self@.element(id@ as int, idx) by {
                lemma_dot_is_packed(idx, ints(tm.dims), ints(tm.strides));
                lemma_row_major_pos_bound(idx, ints(tm.dims));
            }
        }
        r
    }

    // A second record over the buffer of `base`; no element moves.
    fn push_view(&mut self, base: TensorId, shape: Shape, strides: [usize; MAX_RANK]) -> (id:
        TensorId)
        requires
            old(self).wf(),
            base@ < old(self)@.tensors.len(),
            old(self)@.tensors.len() <= u32::MAX,
        ensures
            id@ == old(self)@.tensors.len(),
            final(self)@.storages == old(self)@.storages,
            final(self)@.tensors == old(self)@.tensors.push(
                (TensorModel {
                    dims: shape@,
                    strides: strides@,
                    offset: old(self)@.tensors[base@ as int].offset,
                    storage: old(self)@.tensors[base@ as int].storage,
                }),
            ),
    {
        let ghost g0 = self@;
        let b = *self.tensor(base);
        let id = TensorId(self.tensors.len() as u32);
        let t = Tensor { shape, strides, offset: b.offset, storage: b.storage };
        self.tensors.push(t);
        proof {
            assert(self@.tensors =~= g0.tensors.push(t.model()));
        }
        id
    }

    /// A new record that reads the buffer of contiguous tensor `id` with
    /// extents `dims` in row-major order; no element moves.
    pub fn reshape(&mut self, id: TensorId, dims: &[usize]) -> (r: TensorId)
        requires
            old(self).wf(),
            id@ < old(self)@.tensors.len(),
            old(self)@.tensors[id@ as int].is_contiguous(),
            dims@.len() <= MAX_RANK,
            prod(ints(dims@)) == old(self)@.tensors[id@ as int].numel(),
            prod(ints(dims@)) == 0 ==> suffix_products_fit(ints(dims@)),
            old(self)@.tensors.len() <= u32::MAX,
        ensures
            final(self).wf(),
            old(self)@.reshaped(id@ as int, dims@, final(self)@, r@ as int),
    {
        let ghost g0 = self@;
        let ghost tm = g0.tensors[id@ as int];
        proof {
            if prod(ints(dims@)) > 0 {
                lemma_suffix_products_fit(ints(dims@));
            }
        }
        let shape = Shape::new(dims);
        let strides = shape.contiguous_strides();
        let ghost nt = TensorModel {
            dims: shape@,
            strides: strides@,
            offset: tm.offset,
            storage: tm.storage,
        };
        proof {
            lemma_fresh_admitted(g0, nt);
            lemma_append_admitted(g0, nt);
        }
        let r = self.push_view(id, shape, strides);
        proof {
            assert(self@ == (GraphModel { tensors: g0.tensors.push(nt), storages: g0.storages }));
            assert(self@.tensors.drop_last() =~= g0.tensors);
            lemma_fresh_tensor_is_row_major(self@, r@ as int);
        }
        r
    }

    /// A new record for tensor `id` with axes `i` and `j` exchanged (extents
    /// and strides alike) over the same buffer; no element moves.
    pub fn transpose(&mut self, id: TensorId, i: usize, j: usize) -> (r: TensorId)
        requires
            old(self).wf(),
            id@ < old(self)@.tensors.len(),
            i < old(self)@.tensors[id@ as int].dims.len(),
            j < old(self)@.tensors[id@ as int].dims.len(),
            old(self)@.tensors.len() <= u32::MAX,
        ensures
            final(self).wf(),
            old(self)@.transposed(id@ as int, i as int, j as int, final(self)@, r@ as int),
    {
        let ghost g0 = self@;
        let ghost tm = g0.tensors[id@ as int];
        let t = *self.tensor(id);
        let rank: usize = t.shape.rank();
        let mut dims: [usize; MAX_RANK] = [0, 0, 0, 0];
        let mut k: usize = 0;
        while k < rank
            invariant
                t.model() == tm,
                rank == tm.dims.len() <= MAX_RANK,
                k <= rank,
                forall|a: int| 0 <= a < k ==> dims[a] == tm.dims[a],
            decreases rank - k,
        {
            dims[k] = t.shape.dim(k);
            k = k + 1;
        }
        let a: usize = dims[i];
        dims[i] = dims[j];
        dims[j] = a;
        let mut strides = t.strides;
        let sa: usize = strides[i];
        strides[i] = strides[j];
        strides[j] = sa;
        let shape = Shape::new(slice_subrange(dims.as_slice(), 0, rank));
        let ghost d = ints(tm.dims);
        let ghost st = ints(tm.strides);
        let ghost nt = TensorModel {
            dims: shape@,
            strides: strides@,
            offset: tm.offset,
            storage: tm.storage,
        };
        proof {
            assert(shape@ =~= tm.dims.update(i as int, tm.dims[j as int]).update(
                j as int,
                tm.dims[i as int],
            ));
            assert(strides@ =~= tm.strides.update(i as int, tm.strides[j as int]).update(
                j as int,
                tm.strides[i as int],
            ));
            let d2 = ints(shape@);
            let s2 = ints(strides@);
            assert(d2 =~= d.update(i as int, d[j as int]).update(j as int, d[i as int]));
            assert(s2 =~= st.update(i as int, st[j as int]).update(j as int, st[i as int]));
            lemma_prod_swap(d, i as int, j as int);
            let m = max_index(d);
            assert(max_index(d2) =~= m.update(i as int, m[j as int]).update(j as int, m[i as int]));
            lemma_dot_swap(m, st, i as int, j as int);
            assert forall|b: int| 0 <= b < nt.dims.len() implies #[trigger] (nt.dims[b]
                * nt.strides[b]) <= usize::MAX by {}
            assert forall|x: Seq<int>, y: Seq<int>|
                in_bounds(x, d2) && in_bounds(y, d2) && #[trigger] dot(x, s2) == #[trigger] dot(y, s2)
                implies x == y by {
                let xs = x.update(i as int, x[j as int]).update(j as int, x[i as int]);
                let ys = y.update(i as int, y[j as int]).update(j as int, y[i as int]);
                lemma_dot_swap(xs, st, i as int, j as int);
                lemma_dot_swap(ys, st, i as int, j as int);
                assert(xs.update(i as int, xs[j as int]).update(j as int, xs[i as int]) =~= x);
                assert(ys.update(i as int, ys[j as int]).update(j as int, ys[i as int]) =~= y);
            }
            assert(g0.admits(nt));
            lemma_append_admitted(g0, nt);
        }
        let r = self.push_view(id, shape, strides);
        proof {
            let g1 = self@;
            assert(g1 == (GraphModel { tensors: g0.tensors.push(nt), storages: g0.storages }));
            assert(g1.tensors.drop_last() =~= g0.tensors);
            let s2 = ints(strides@);
            assert forall|idx: Seq<int>| in_bounds(idx, ints(g1.tensors.last().dims)) implies g1.element(
                r@ as int,
                idx,
            ) == g0.element(
                id@ as int,
                idx.update(i as int, idx[j as int]).update(j as int, idx[i as int]),
            ) by {
                let sw = idx.update(i as int, idx[j as int]).update(j as int, idx[i as int]);
                lemma_dot_swap(sw, st, i as int, j as int);
                assert(sw.update(i as int, sw[j as int]).update(j as int, sw[i as int]) =~= idx);
            }
        }
        r
    }

    /// Tensor `id` itself when it is contiguous; otherwise a new row-major
    /// tensor over a new buffer holding the elements of `id` in row-major order.
    pub fn contiguous(&mut self, id: TensorId) -> (c: TensorId)
        requires
            old(self).wf(),
            id@ < old(self)@.tensors.len(),
            !old(self)@.tensors[id@ as int].is_contiguous() ==> old(self)@.tensors.len() <= u32::MAX,
            !old(self)@.tensors[id@ as int].is_contiguous() && old(self)@.tensors[id@ as int].numel()
                == 0 ==> suffix_products_fit(ints(old(self)@.tensors[id@ as int].dims)),
        ensures
            final(self).wf(),
            old(self)@.materialised(id@ as int, final(self)@, c@ as int),
            old(self)@.tensors[id@ as int].is_contiguous() ==> c == id,
    {
        if self.is_contiguous(id) {
            return id;
        }
        let ghost g0 = self@;
        let ghost tm = g0.tensors[id@ as int];
        let ghost d = ints(tm.dims);
        let ghost st = ints(tm.strides);
        let t = *self.tensor(id);
        let rank: usize = t.shape.rank();
        let n: usize = t.shape.numel();
        let mut out: Vec<T> = Vec::with_capacity(n);
        let mut idx: [usize; MAX_RANK] = [0, 0, 0, 0];
        let mut j: usize = 0;
        let src = &self.storages[t.storage.0 as usize];
        proof {
            let cur = ints(idx@).take(rank as int);
            if 0 < n {
                assert(in_bounds(cur, d)) by {
                    crate::layout::lemma_prod_pos_all_pos(d);
                }
                assert(row_major_pos(cur, d) == 0) by {
                    lemma_row_major_pos_zero(cur, d);
                }
            }
        }
        while j < n
            invariant
                t.model() == tm,
                g0.admits(tm),
                src@ == g0.storages[tm.storage],
                d == ints(tm.dims),
                st == ints(tm.strides),
                rank == d.len() <= MAX_RANK,
                n == prod(d),
                j <= n,
                out@.len() == j,
                j < n ==> in_bounds(ints(idx@).take(rank as int), d) && row_major_pos(
                    ints(idx@).take(rank as int),
                    d,
                ) == j,
                forall|p: int| 0 <= p < j ==> #[trigger] gathered(out@, p, src@, tm.offset, d, st),
            decreases n - j,
        {
            let ghost cur = ints(idx@).take(rank as int);
            proof {
                lemma_address_in_buffer(g0, tm, cur);
            }
            let mut off: usize = t.offset;
            let mut k: usize = 0;
            while k < rank
                invariant
                    t.model() == tm,
                    g0.admits(tm),
                    d == ints(tm.dims),
                    st == ints(tm.strides),
                    rank == d.len() <= MAX_RANK,
                    cur == ints(idx@).take(rank as int),
                    in_bounds(cur, d),
                    0 <= tm.offset + dot(cur, st) < g0.storages[tm.storage].len(),
                    k <= rank,
                    off == tm.offset + dot(cur.take(k as int), st),
                decreases rank - k,
            {
                proof {
                    lemma_dot_prefix_le(cur, st, k as int);
                    lemma_dot_prefix_le(cur, st, k + 1);
                    assert(cur.take(k + 1).drop_last() =~= cur.take(k as int));
                }
                off = off + idx[k] * t.strides[k];
                k = k + 1;
            }
            proof {
                assert(cur.take(rank as int) =~= cur);
            }
            let ghost out0 = out@;
            out.push(src[off]);
            proof {
                assert forall|p: int| 0 <= p < j + 1 implies #[trigger] gathered(
                    out@,
                    p,
                    src@,
                    tm.offset,
                    d,
                    st,
                ) by {
                    if p < j {
                        assert(gathered(out0, p, src@, tm.offset, d, st));
                        let m = choose|m: Seq<int>|
                            gathered_from(out0, p, src@, tm.offset, d, st, m);
                        assert(gathered_from(out@, p, src@, tm.offset, d, st, m));
                    } else {
                        assert(gathered_from(out@, p, src@, tm.offset, d, st, cur));
                    }
                }
            }
            let ghost before = cur;
            let mut k: usize = rank;
            let mut carry = true;
            proof {
                lemma_odometer_step_len(before, d);
                assert(odometer_step(before, d) =~= odometer_step(before.take(rank as int), d) + Seq::new(
                    0,
                    |q: int| 0int,
                ));
            }
            while carry && k > 0
                invariant
                    t.model() == tm,
                    d == ints(tm.dims),
                    rank == d.len() <= MAX_RANK,
                    in_bounds(before, d),
                    k <= rank,
                    forall|p: int| 0 <= p < k ==> idx[p] == before[p],
                    carry ==> forall|p: int| k <= p < rank ==> idx[p] == 0,
                    carry ==> odometer_step(before, d) == odometer_step(before.take(k as int), d)
                        + Seq::new((rank - k) as nat, |q: int| 0int),
                    !carry ==> ints(idx@).take(rank as int) == odometer_step(before, d),
                decreases k,
            {
                k = k - 1;
                proof {
                    let bk = before.take(k + 1);
                    assert(bk.drop_last() =~= before.take(k as int));
                    lemma_odometer_step_len(before.take(k as int), d);
                }
                idx[k] = idx[k] + 1;
                if idx[k] < t.shape.dim(k) {
                    carry = false;
                    proof {
                        assert(ints(idx@).take(rank as int) =~= before.take(k as int).push(
                            before[k as int] + 1,
                        ) + Seq::new((rank - k - 1) as nat, |q: int| 0int));
                    }
                } else {
                    idx[k] = 0;
                    proof {
                        let s0 = odometer_step(before.take(k as int), d);
                        assert(s0.push(0) + Seq::new((rank - k - 1) as nat, |q: int| 0int) =~= s0
                            + Seq::new((rank - k) as nat, |q: int| 0int));
                    }
                }
            }
            proof {
                if carry {
                    assert(ints(idx@).take(rank as int) =~= odometer_step(before, d));
                }
                if j + 1 < n {
                    lemma_odometer_step(before, d);
                }
            }
            j = j + 1;
        }
        let ghost data = out@;
        proof {
            if n > 0 {
                lemma_suffix_products_fit(d);
            }
        }
        let c = self.push(t.shape, out);
        proof {
            let g1 = self@;
            let ct = g1.tensors[c@ as int];
            lemma_fresh_tensor_is_row_major(g1, c@ as int);
            assert(g1.storages.drop_last() =~= g0.storages);
            assert(g1.tensors.drop_last() =~= g0.tensors);
            let buf = self@.storages.last();
            assert forall|p: int| 0 <= p < buf.len() implies #[trigger] g0.gathers_at(
                id@ as int,
                buf,
                p,
            ) by {
                assert(gathered(data, p, src@, tm.offset, d, st));
                let m = choose|m: Seq<int>| gathered_from(data, p, src@, tm.offset, d, st, m);
            }
            let f = |p: int|
                {
                    let m = choose|m: Seq<int>| gathered_from(data, p, src@, tm.offset, d, st, m);
                    tm.offset + dot(m, st)
                };
            assert forall|p: int| 0 <= p < data.len() implies 0 <= #[trigger] f(p) < src@.len()
                && data[p] == src@[f(p)] by {
                assert(gathered(data, p, src@, tm.offset, d, st));
                let m = choose|m: Seq<int>| gathered_from(data, p, src@, tm.offset, d, st, m);
                lemma_address_in_buffer(g0, tm, m);
            }
            assert forall|p: int, q: int|
                0 <= p < data.len() && 0 <= q < data.len() && #[trigger] f(p) == #[trigger] f(q)
                implies p == q by {
                assert(gathered(data, p, src@, tm.offset, d, st));
                assert(gathered(data, q, src@, tm.offset, d, st));
                let mp = choose|m: Seq<int>| gathered_from(data, p, src@, tm.offset, d, st, m);
                let mq = choose|m: Seq<int>| gathered_from(data, q, src@, tm.offset, d, st, m);
            }
            crate::layout::lemma_reindex_multiset(data, src@, f);
            assert forall|x: Seq<int>| in_bounds(x, d) implies g1.element(c@ as int, x) == g0.element(
                id@ as int,
                x,
            ) by {
                let p = row_major_pos(x, d);
                lemma_row_major_pos_bound(x, d);
                assert(gathered(data, p, src@, tm.offset, d, st));
                let m = choose|m: Seq<int>| gathered_from(data, p, src@, tm.offset, d, st, m);
                lemma_row_major_pos_injective(m, x, d);
                lemma_dot_pad(x, packed_strides(d));
                lemma_dot_packed(x, d);
            }
        }
        c
    }

    /// The extents of tensor `id`.
    pub fn shape(&self, id: TensorId) -> (s: Shape)
        requires
            id@ < self@.tensors.len(),
        ensures
            s@ == self@.tensors[id@ as int].dims,
    {
        self.tensor(id).shape
    }

    /// The strides of tensor `id`, zero past its last axis.
    pub fn strides(&self, id: TensorId) -> (s: [usize; MAX_RANK])
        requires
            id@ < self@.tensors.len(),
        ensures
            s@ == self@.tensors[id@ as int].strides,
    {
        self.tensor(id).strides
    }

    /// The number of elements of tensor `id`.
    pub fn numel(&self, id: TensorId) -> (n: usize)
        requires
            self.wf(),
            id@ < self@.tensors.len(),
        ensures
            n == self@.tensors[id@ as int].numel(),
    {
        self.tensor(id).shape.numel()
    }

    /// The number of tensor records.
    pub fn tensor_count(&self) -> (n: usize)
        ensures
            n == self@.tensors.len(),
    {
        self.tensors.len()
    }

    /// The number of storage buffers.
    pub fn storage_count(&self) -> (n: usize)
        ensures
            n == self@.storages.len(),
    {
        self.storages.len()
    }
}

impl<T: Default> Default for Graph<T> {
    /// An empty graph.
    fn default() -> (g: Self)
        ensures
            g@.wf(),
            g@.tensors.len() == 0,
            g@.storages.len() == 0,
    {
        Graph { tensors: Vec::new(), storages: Vec::new() }
    }
}

} // verus!
