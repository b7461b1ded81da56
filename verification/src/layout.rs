//! Mathematical model of strided tensor layouts: products of extents,
//! row-major strides, multi-indices and the addresses they select.
use vstd::arithmetic::mul::*;
use vstd::prelude::*;

verus! {

/// A sequence of machine words read as mathematical integers.
pub open spec fn ints(s: Seq<usize>) -> Seq<int> {
    s.map_values(|x: usize| x as int)
}

/// The product of a sequence of extents; the empty product is 1.
pub open spec fn prod(s: Seq<int>) -> int
    decreases s.len(),
{
    if s.len() == 0 {
        1
    } else {
        prod(s.drop_last()) * s.last()
    }
}

/// Every extent of `dims` is non-negative.
pub open spec fn all_nonneg(dims: Seq<int>) -> bool {
    forall|i: int| 0 <= i < dims.len() ==> 0 <= #[trigger] dims[i]
}

/// The product of the extents from axis `i` to the last axis.
pub open spec fn suffix_prod(dims: Seq<int>, i: int) -> int {
    prod(dims.subrange(i, dims.len() as int))
}

/// Every product of trailing extents, the full product included, fits in a `usize`.
pub open spec fn suffix_products_fit(dims: Seq<int>) -> bool {
    forall|i: int| 0 <= i <= dims.len() ==> #[trigger] suffix_prod(dims, i) <= usize::MAX
}

/// Row-major (packed) strides: the stride of an axis is the product of the
/// extents of all axes to its right.
pub open spec fn packed_strides(dims: Seq<int>) -> Seq<int> {
    Seq::new(dims.len(), |i: int| suffix_prod(dims, i + 1))
}

/// The address offset that multi-index `idx` selects under `strides`:
/// the sum of `idx[k] * strides[k]` over the axes of `idx`.
pub open spec fn dot(idx: Seq<int>, strides: Seq<int>) -> int
    decreases idx.len(),
{
    if idx.len() == 0 {
        0
    } else {
        dot(idx.drop_last(), strides) + idx.last() * strides[idx.len() - 1]
    }
}

/// `idx` is a multi-index of a tensor with extents `dims`.
pub open spec fn in_bounds(idx: Seq<int>, dims: Seq<int>) -> bool {
    &&& idx.len() == dims.len()
    &&& forall|k: int| 0 <= k < idx.len() ==> 0 <= #[trigger] idx[k] < dims[k]
}

/// The position of multi-index `idx` in row-major order over `dims`.
pub open spec fn row_major_pos(idx: Seq<int>, dims: Seq<int>) -> int
    decreases idx.len(),
{
    if idx.len() == 0 || dims.len() == 0 {
        0
    } else {
        row_major_pos(idx.drop_last(), dims.drop_last()) * dims.last() + idx.last()
    }
}

/// Unfolding a product from the front.
pub proof fn lemma_prod_front(s: Seq<int>)
    requires
        s.len() > 0,
    ensures
        prod(s) == s[0] * prod(s.drop_first()),
    decreases s.len(),
{
    if s.len() == 1 {
        assert(s.drop_last().len() == 0);
        assert(s.drop_first().len() == 0);
        assert(prod(s.drop_last()) == 1);
        assert(prod(s.drop_first()) == 1);
    } else {
        let t = s.drop_first();
        lemma_prod_front(s.drop_last());
        assert(s.drop_last().drop_first() =~= t.drop_last());
        assert(t.last() == s.last());
        assert(s.drop_last()[0] == s[0]);
        assert(prod(t) == prod(t.drop_last()) * t.last());
        assert(prod(s) == prod(s.drop_last()) * s.last());
        lemma_mul_is_associative(s[0], prod(t.drop_last()), s.last());
    }
}

/// A product over `s.subrange(i, n)` unfolds to `s[i]` times the product from `i + 1`.
pub proof fn lemma_prod_subrange_front(s: Seq<int>, i: int, n: int)
    requires
        0 <= i < n <= s.len(),
    ensures
        prod(s.subrange(i, n)) == s[i] * prod(s.subrange(i + 1, n)),
{
    lemma_prod_front(s.subrange(i, n));
    assert(s.subrange(i, n).drop_first() =~= s.subrange(i + 1, n));
}

/// A product with a zero extent is zero.
pub proof fn lemma_prod_zero(s: Seq<int>, k: int)
    requires
        0 <= k < s.len(),
        s[k] == 0,
    ensures
        prod(s) == 0,
    decreases s.len(),
{
    if k < s.len() - 1 {
        lemma_prod_zero(s.drop_last(), k);
    }
}

/// With no zero extent, the product is positive.
pub proof fn lemma_prod_pos(s: Seq<int>)
    requires
        forall|k: int| 0 <= k < s.len() ==> 1 <= #[trigger] s[k],
    ensures
        1 <= prod(s),
    decreases s.len(),
{
    if s.len() > 0 {
        lemma_prod_pos(s.drop_last());
        lemma_mul_increases(s.last(), prod(s.drop_last()));
        lemma_mul_is_commutative(s.last(), prod(s.drop_last()));
    }
}

/// With no zero extent, every prefix product is at most the full product.
pub proof fn lemma_prod_prefix_le(s: Seq<int>, i: int)
    requires
        0 <= i <= s.len(),
        forall|k: int| 0 <= k < s.len() ==> 1 <= #[trigger] s[k],
    ensures
        1 <= prod(s.take(i)) <= prod(s),
    decreases s.len(),
{
    if i == s.len() {
        assert(s.take(i) =~= s);
        lemma_prod_pos(s);
    } else {
        lemma_prod_prefix_le(s.drop_last(), i);
        assert(s.drop_last().take(i) =~= s.take(i));
        lemma_mul_increases(s.last(), prod(s.drop_last()));
        lemma_mul_is_commutative(s.last(), prod(s.drop_last()));
    }
}

/// `s` with entries `i` and `j` exchanged.
pub open spec fn swap_axes<A>(s: Seq<A>, i: int, j: int) -> Seq<A> {
    s.update(i, s[j]).update(j, s[i])
}

/// The last index of every axis.
pub open spec fn max_index(dims: Seq<int>) -> Seq<int> {
    Seq::new(dims.len(), |k: int| dims[k] - 1)
}

/// `strides` agree with row-major strides on every axis whose extent is not 1
/// (an axis of extent 1 is only ever indexed at 0, so its stride is free).
pub open spec fn is_packed(dims: Seq<int>, strides: Seq<int>) -> bool {
    forall|k: int|
        0 <= k < dims.len() && #[trigger] dims[k] != 1 ==> strides[k] == suffix_prod(dims, k + 1)
}

/// The next multi-index in row-major order: the last axis counts up, and an
/// axis that reaches its extent wraps to 0 and carries into the axis on its left.
pub open spec fn odometer_step(idx: Seq<int>, dims: Seq<int>) -> Seq<int>
    decreases idx.len(),
{
    if idx.len() == 0 {
        idx
    } else if idx.last() + 1 < dims[idx.len() - 1] {
        idx.drop_last().push(idx.last() + 1)
    } else {
        odometer_step(idx.drop_last(), dims).push(0)
    }
}

/// Scaling every stride scales the address.
pub proof fn lemma_dot_scale(idx: Seq<int>, a: Seq<int>, b: Seq<int>, c: int)
    requires
        forall|k: int| 0 <= k < idx.len() ==> #[trigger] a[k] == c * b[k],
    ensures
        dot(idx, a) == c * dot(idx, b),
    decreases idx.len(),
{
    if idx.len() > 0 {
        let n = idx.len() - 1;
        lemma_dot_scale(idx.drop_last(), a, b, c);
        let x = dot(idx.drop_last(), b);
        let l = idx.last();
        let bn = b[n];
        assert(c * x + l * (c * bn) == c * (x + l * bn)) by (nonlinear_arith);
    }
}

/// The address only depends on the terms `idx[k] * strides[k]`.
pub proof fn lemma_dot_congruent(idx: Seq<int>, a: Seq<int>, b: Seq<int>)
    requires
        forall|k: int| 0 <= k < idx.len() ==> #[trigger] (idx[k] * a[k]) == idx[k] * b[k],
    ensures
        dot(idx, a) == dot(idx, b),
    decreases idx.len(),
{
    if idx.len() > 0 {
        lemma_dot_congruent(idx.drop_last(), a, b);
    }
}

/// The row-major stride of an axis is the one over the leading axes times the last extent.
pub proof fn lemma_packed_strides_drop_last(dims: Seq<int>, k: int)
    requires
        0 <= k < dims.len() - 1,
    ensures
        packed_strides(dims)[k] == packed_strides(dims.drop_last())[k] * dims.last(),
{
    let n = dims.len() as int;
    assert(dims.subrange(k + 1, n).drop_last() =~= dims.drop_last().subrange(k + 1, n - 1));
}

/// Under row-major strides the address of a multi-index is its row-major position.
pub proof fn lemma_dot_packed(idx: Seq<int>, dims: Seq<int>)
    requires
        idx.len() == dims.len(),
    ensures
        dot(idx, packed_strides(dims)) == row_major_pos(idx, dims),
    decreases idx.len(),
{
    if idx.len() > 0 {
        let n = idx.len() - 1;
        let d = dims.last();
        let ps = packed_strides(dims);
        let ps1 = packed_strides(dims.drop_last());
        assert forall|k: int| 0 <= k < idx.drop_last().len() implies #[trigger] ps[k] == d * ps1[k] by {
            lemma_packed_strides_drop_last(dims, k);
            lemma_mul_is_commutative(ps1[k], d);
        }
        lemma_dot_scale(idx.drop_last(), ps, ps1, d);
        lemma_dot_packed(idx.drop_last(), dims.drop_last());
        lemma_mul_is_commutative(d, row_major_pos(idx.drop_last(), dims.drop_last()));
    }
}

/// A multi-index in bounds has a row-major position below the element count.
pub proof fn lemma_row_major_pos_bound(idx: Seq<int>, dims: Seq<int>)
    requires
        in_bounds(idx, dims),
    ensures
        0 <= row_major_pos(idx, dims) < prod(dims),
    decreases idx.len(),
{
    if idx.len() > 0 {
        let i1 = idx.drop_last();
        let d1 = dims.drop_last();
        lemma_row_major_pos_bound(i1, d1);
        let r = row_major_pos(i1, d1);
        let p = prod(d1);
        let l = idx.last();
        let d = dims.last();
        assert(0 <= r * d + l < p * d) by (nonlinear_arith)
            requires
                0 <= r < p,
                0 <= l < d,
        ;
    }
}

/// Distinct multi-indices in bounds have distinct row-major positions.
pub proof fn lemma_row_major_pos_injective(a: Seq<int>, b: Seq<int>, dims: Seq<int>)
    requires
        in_bounds(a, dims),
        in_bounds(b, dims),
        row_major_pos(a, dims) == row_major_pos(b, dims),
    ensures
        a == b,
    decreases a.len(),
{
    if a.len() > 0 {
        let a1 = a.drop_last();
        let b1 = b.drop_last();
        let d1 = dims.drop_last();
        lemma_row_major_pos_bound(a1, d1);
        lemma_row_major_pos_bound(b1, d1);
        let ra = row_major_pos(a1, d1);
        let rb = row_major_pos(b1, d1);
        let la = a.last();
        let lb = b.last();
        let d = dims.last();
        assert(ra == rb && la == lb) by (nonlinear_arith)
            requires
                ra * d + la == rb * d + lb,
                0 <= ra,
                0 <= rb,
                0 <= la < d,
                0 <= lb < d,
        ;
        lemma_row_major_pos_injective(a1, b1, d1);
        assert(b =~= b1.push(lb));
    }
}

/// Stepping a multi-index that is not the last one moves one position on in row-major order.
pub proof fn lemma_odometer_step(idx: Seq<int>, dims: Seq<int>)
    requires
        in_bounds(idx, dims),
        row_major_pos(idx, dims) + 1 < prod(dims),
    ensures
        in_bounds(odometer_step(idx, dims), dims),
        row_major_pos(odometer_step(idx, dims), dims) == row_major_pos(idx, dims) + 1,
    decreases idx.len(),
{
    let n = idx.len() as int;
    if n == 0 {
    } else {
        let i1 = idx.drop_last();
        let d1 = dims.drop_last();
        let d = dims.last();
        let l = idx.last();
        let r = row_major_pos(i1, d1);
        let next = odometer_step(idx, dims);
        if l + 1 < d {
            assert(next.drop_last() =~= i1);
        } else {
            let p = prod(d1);
            assert(r + 1 < p) by (nonlinear_arith)
                requires
                    r * d + l + 1 < p * d,
                    l == d - 1,
                    d > 0,
            ;
            lemma_odometer_step_dims(i1, dims, d1);
            lemma_odometer_step(i1, d1);
            let s1 = odometer_step(i1, d1);
            assert(next.drop_last() =~= s1);
            assert((r + 1) * d == r * d + l + 1) by (nonlinear_arith)
                requires
                    l == d - 1,
            ;
        }
    }
}

/// Stepping only reads the extents of the axes it covers.
pub proof fn lemma_odometer_step_dims(idx: Seq<int>, dims: Seq<int>, dims2: Seq<int>)
    requires
        idx.len() <= dims.len(),
        idx.len() <= dims2.len(),
        forall|k: int| 0 <= k < idx.len() ==> dims[k] == dims2[k],
    ensures
        odometer_step(idx, dims) == odometer_step(idx, dims2),
    decreases idx.len(),
{
    if idx.len() > 0 {
        lemma_odometer_step_dims(idx.drop_last(), dims, dims2);
    }
}

/// Under strides that agree with row-major strides off the unit axes, the
/// address of a multi-index in bounds is its row-major position.
pub proof fn lemma_dot_is_packed(idx: Seq<int>, dims: Seq<int>, strides: Seq<int>)
    requires
        in_bounds(idx, dims),
        is_packed(dims, strides),
    ensures
        dot(idx, strides) == row_major_pos(idx, dims),
{
    let ps = packed_strides(dims);
    assert forall|k: int| 0 <= k < idx.len() implies #[trigger] (idx[k] * strides[k]) == idx[k]
        * ps[k] by {
        if dims[k] == 1 {
            assert(idx[k] == 0);
        }
    }
    lemma_dot_congruent(idx, strides, ps);
    lemma_dot_packed(idx, dims);
}

/// Addresses are monotone in the multi-index and never negative.
pub proof fn lemma_dot_monotone(a: Seq<int>, b: Seq<int>, strides: Seq<int>)
    requires
        a.len() == b.len() <= strides.len(),
        forall|k: int| 0 <= k < a.len() ==> 0 <= #[trigger] a[k] <= b[k],
        forall|k: int| 0 <= k < strides.len() ==> 0 <= #[trigger] strides[k],
    ensures
        0 <= dot(a, strides) <= dot(b, strides),
    decreases a.len(),
{
    if a.len() > 0 {
        let n = a.len() - 1;
        lemma_dot_monotone(a.drop_last(), b.drop_last(), strides);
        lemma_mul_inequality(a[n], b[n], strides[n]);
        lemma_mul_nonnegative(a[n], strides[n]);
    }
}

/// The address of a prefix of the axes is at most the full address.
pub proof fn lemma_dot_prefix_le(a: Seq<int>, strides: Seq<int>, i: int)
    requires
        0 <= i <= a.len() <= strides.len(),
        forall|k: int| 0 <= k < a.len() ==> 0 <= #[trigger] a[k],
        forall|k: int| 0 <= k < strides.len() ==> 0 <= #[trigger] strides[k],
    ensures
        0 <= dot(a.take(i), strides) <= dot(a, strides),
    decreases a.len(),
{
    if i == a.len() {
        assert(a.take(i) =~= a);
        let z = Seq::new(a.len(), |k: int| 0int);
        lemma_dot_monotone(z, a, strides);
    } else {
        lemma_dot_prefix_le(a.drop_last(), strides, i);
        assert(a.drop_last().take(i) =~= a.take(i));
        lemma_mul_nonnegative(a.last(), strides[a.len() - 1]);
    }
}

/// Replacing one extent: the product scales accordingly.
pub proof fn lemma_prod_update(s: Seq<int>, i: int, v: int)
    requires
        0 <= i < s.len(),
    ensures
        prod(s.update(i, v)) * s[i] == prod(s) * v,
    decreases s.len(),
{
    let t = s.update(i, v);
    let n = s.len() - 1;
    if i == n {
        assert(t.drop_last() =~= s.drop_last());
        let p = prod(s.drop_last());
        assert((p * v) * s[i] == (p * s[i]) * v) by (nonlinear_arith);
    } else {
        lemma_prod_update(s.drop_last(), i, v);
        assert(t.drop_last() =~= s.drop_last().update(i, v));
        let p1 = prod(t.drop_last());
        let p = prod(s.drop_last());
        let l = s.last();
        assert((p1 * l) * s[i] == (p * l) * v) by (nonlinear_arith)
            requires
                p1 * s[i] == p * v,
        ;
    }
}

/// Exchanging two extents keeps the product.
pub proof fn lemma_prod_swap(s: Seq<int>, i: int, j: int)
    requires
        0 <= i < s.len(),
        0 <= j < s.len(),
    ensures
        prod(s.update(i, s[j]).update(j, s[i])) == prod(s),
{
    let s1 = s.update(i, s[j]);
    let s2 = s1.update(j, s[i]);
    if i == j {
        assert(s2 =~= s);
    } else {
        lemma_prod_update(s, i, s[j]);
        lemma_prod_update(s1, j, s[i]);
        if s[j] == 0 {
            lemma_prod_zero(s, j);
            lemma_prod_zero(s2, i);
        } else {
            let a = prod(s2);
            let b = prod(s);
            let c = prod(s1);
            assert(a == b) by (nonlinear_arith)
                requires
                    a * s[j] == c * s[i],
                    c * s[i] == b * s[j],
                    s[j] != 0,
            ;
        }
    }
}

/// Replacing one index and its stride changes the address by the difference of their terms.
pub proof fn lemma_dot_update(idx: Seq<int>, st: Seq<int>, i: int, a: int, b: int)
    requires
        0 <= i < idx.len() <= st.len(),
    ensures
        dot(idx.update(i, a), st.update(i, b)) == dot(idx, st) - idx[i] * st[i] + a * b,
    decreases idx.len(),
{
    let n = idx.len() - 1;
    let t = idx.update(i, a);
    let u = st.update(i, b);
    if i == n {
        assert(t.drop_last() =~= idx.drop_last());
        lemma_dot_congruent(idx.drop_last(), u, st);
    } else {
        lemma_dot_update(idx.drop_last(), st, i, a, b);
        assert(t.drop_last() =~= idx.drop_last().update(i, a));
    }
}

/// Exchanging two axes of both the multi-index and the strides keeps the address.
pub proof fn lemma_dot_swap(idx: Seq<int>, st: Seq<int>, i: int, j: int)
    requires
        0 <= i < idx.len() <= st.len(),
        0 <= j < idx.len(),
    ensures
        dot(idx.update(i, idx[j]).update(j, idx[i]), st.update(i, st[j]).update(j, st[i]))
            == dot(idx, st),
{
    let idx1 = idx.update(i, idx[j]);
    let st1 = st.update(i, st[j]);
    if i == j {
        assert(idx1.update(j, idx[i]) =~= idx);
        assert(st1.update(j, st[i]) =~= st);
    } else {
        lemma_dot_update(idx, st, i, idx[j], st[j]);
        lemma_dot_update(idx1, st1, j, idx[i], st[i]);
    }
}

/// A positive product has no zero extent.
pub proof fn lemma_prod_pos_all_pos(s: Seq<int>)
    requires
        all_nonneg(s),
        prod(s) > 0,
    ensures
        forall|k: int| 0 <= k < s.len() ==> 1 <= #[trigger] s[k],
{
    assert forall|k: int| 0 <= k < s.len() implies 1 <= #[trigger] s[k] by {
        if s[k] == 0 {
            lemma_prod_zero(s, k);
        }
    }
}

/// With no zero extent, every product of trailing extents is at most the full product.
pub proof fn lemma_suffix_prod_le(s: Seq<int>, i: int)
    requires
        0 <= i <= s.len(),
        forall|k: int| 0 <= k < s.len() ==> 1 <= #[trigger] s[k],
    ensures
        1 <= suffix_prod(s, i) <= prod(s),
    decreases i,
{
    if i == 0 {
        assert(s.subrange(0, s.len() as int) =~= s);
        lemma_prod_pos(s);
    } else {
        lemma_suffix_prod_le(s, i - 1);
        lemma_prod_subrange_front(s, i - 1, s.len() as int);
        let t = s.subrange(i, s.len() as int);
        assert forall|k: int| 0 <= k < t.len() implies 1 <= #[trigger] t[k] by {}
        lemma_prod_pos(t);
        lemma_mul_increases(s[i - 1], suffix_prod(s, i));
    }
}

/// With no zero extent the product bounds every product of trailing extents,
/// so when it fits in a `usize` they all do.
pub proof fn lemma_suffix_products_fit(s: Seq<int>)
    requires
        all_nonneg(s),
        0 < prod(s) <= usize::MAX,
    ensures
        suffix_products_fit(s),
{
    lemma_prod_pos_all_pos(s);
    assert forall|i: int| 0 <= i <= s.len() implies #[trigger] suffix_prod(s, i) <= usize::MAX by {
        lemma_suffix_prod_le(s, i);
    }
}

/// Under row-major strides of a non-empty shape, the last element sits just
/// before the element count.
pub proof fn lemma_packed_max_address(dims: Seq<int>)
    requires
        all_nonneg(dims),
        prod(dims) > 0,
    ensures
        dot(max_index(dims), packed_strides(dims)) == prod(dims) - 1,
{
    lemma_prod_pos_all_pos(dims);
    let m = max_index(dims);
    lemma_dot_packed(m, dims);
    lemma_row_major_pos_bound(m, dims);
    lemma_row_major_pos_max(dims);
}

/// The last multi-index is at row-major position `prod(dims) - 1`.
pub proof fn lemma_row_major_pos_max(dims: Seq<int>)
    requires
        forall|k: int| 0 <= k < dims.len() ==> 1 <= #[trigger] dims[k],
    ensures
        row_major_pos(max_index(dims), dims) == prod(dims) - 1,
    decreases dims.len(),
{
    if dims.len() > 0 {
        let d1 = dims.drop_last();
        assert(max_index(dims).drop_last() =~= max_index(d1));
        lemma_row_major_pos_max(d1);
        let p = prod(d1);
        let d = dims.last();
        assert((p - 1) * d + (d - 1) == p * d - 1) by (nonlinear_arith);
    }
}

/// Stepping keeps the number of axes.
pub proof fn lemma_odometer_step_len(idx: Seq<int>, dims: Seq<int>)
    ensures
        odometer_step(idx, dims).len() == idx.len(),
    decreases idx.len(),
{
    if idx.len() > 0 {
        lemma_odometer_step_len(idx.drop_last(), dims);
    }
}

/// On the axes it covers, `pad` keeps the row-major strides, so addresses agree.
pub proof fn lemma_dot_pad(idx: Seq<int>, st: Seq<int>)
    requires
        idx.len() <= st.len(),
        st.len() <= 4,
    ensures
        dot(idx, crate::shape::pad(st)) == dot(idx, st),
{
    let p = crate::shape::pad(st);
    assert forall|k: int| 0 <= k < idx.len() implies #[trigger] (idx[k] * p[k]) == idx[k] * st[k] by {}
    lemma_dot_congruent(idx, p, st);
}

/// The all-zero multi-index is at row-major position 0.
pub proof fn lemma_row_major_pos_zero(idx: Seq<int>, dims: Seq<int>)
    requires
        idx.len() == dims.len(),
        forall|k: int| 0 <= k < idx.len() ==> #[trigger] idx[k] == 0,
    ensures
        row_major_pos(idx, dims) == 0,
    decreases idx.len(),
{
    if idx.len() > 0 {
        lemma_row_major_pos_zero(idx.drop_last(), dims.drop_last());
    }
}

/// If every position `p` of `a` holds the element at position `f(p)` of `b`,
/// and `f` maps the positions of `a` one-to-one onto those of `b`, then `a`
/// is a rearrangement of `b`.
pub proof fn lemma_reindex_multiset<T>(a: Seq<T>, b: Seq<T>, f: spec_fn(int) -> int)
    requires
        a.len() == b.len(),
        forall|p: int| 0 <= p < a.len() ==> 0 <= #[trigger] f(p) < b.len() && a[p] == b[f(p)],
        forall|p: int, q: int|
            0 <= p < a.len() && 0 <= q < a.len() && #[trigger] f(p) == #[trigger] f(q) ==> p == q,
    ensures
        a.to_multiset() == b.to_multiset(),
    decreases a.len(),
{
    broadcast use vstd::seq_lib::group_to_multiset_ensures, vstd::multiset::group_multiset_axioms;

    let n = a.len() as int;
    if n == 0 {
    } else {
        let k = f(n - 1);
        let a1 = a.drop_last();
        let b1 = b.remove(k);
        let f1 = |p: int|
            if f(p) < k {
                f(p)
            } else {
                f(p) - 1
            };
        assert forall|p: int| 0 <= p < a1.len() implies 0 <= #[trigger] f1(p) < b1.len() && a1[p]
            == b1[f1(p)] by {}
        assert forall|p: int, q: int|
            0 <= p < a1.len() && 0 <= q < a1.len() && #[trigger] f1(p) == #[trigger] f1(q) implies p
            == q by {
            if f(q) < k && f(p) >= k {
            }
        }
        lemma_reindex_multiset(a1, b1, f1);
        assert(a =~= a1.push(a[n - 1]));
    }
}

/// Every position below the element count is the row-major position of a
/// multi-index in bounds.
pub proof fn lemma_row_major_pos_onto(dims: Seq<int>, p: int) -> (idx: Seq<int>)
    requires
        all_nonneg(dims),
        0 <= p < prod(dims),
    ensures
        in_bounds(idx, dims),
        row_major_pos(idx, dims) == p,
    decreases dims.len(),
{
    if dims.len() == 0 {
        Seq::empty()
    } else {
        let d1 = dims.drop_last();
        let dl = dims.last();
        let pp = prod(d1);
        crate::layout::lemma_prod_nonneg_all(d1);
        assert(pp > 0 && dl > 0) by (nonlinear_arith)
            requires
                0 <= p < pp * dl,
                pp >= 0,
                dl >= 0,
        ;
        vstd::arithmetic::div_mod::lemma_fundamental_div_mod(p, dl);
        vstd::arithmetic::div_mod::lemma_mod_bound(p, dl);
        let q = p / dl;
        let r = p % dl;
        assert(0 <= q < pp) by (nonlinear_arith)
            requires
                p == dl * q + r,
                0 <= r < dl,
                0 <= p < pp * dl,
        ;
        let i1 = lemma_row_major_pos_onto(d1, q);
        let idx = i1.push(r);
        assert(idx.drop_last() =~= i1);
        lemma_mul_is_commutative(dl, q);
        idx
    }
}

/// A product of non-negative extents is non-negative.
pub proof fn lemma_prod_nonneg_all(s: Seq<int>)
    requires
        all_nonneg(s),
    ensures
        prod(s) >= 0,
    decreases s.len(),
{
    if s.len() > 0 {
        lemma_prod_nonneg_all(s.drop_last());
        lemma_mul_nonnegative(prod(s.drop_last()), s.last());
    }
}

/// Exchanging two axes commutes with reading words as integers.
pub proof fn lemma_ints_swap(s: Seq<usize>, i: int, j: int)
    requires
        0 <= i < s.len(),
        0 <= j < s.len(),
    ensures
        ints(swap_axes(s, i, j)) == swap_axes(ints(s), i, j),
{
    assert(ints(swap_axes(s, i, j)) =~= swap_axes(ints(s), i, j));
}

} // verus!
