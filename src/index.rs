use vstd::prelude::*;

use crate::{in_bounds, shape_product};

verus! {

/// Product of the extents of the dimensions below `i`: the distance between
/// two elements whose coordinates differ by one in dimension `i`.
pub open spec fn stride(shape: Seq<usize>, i: int) -> nat {
    shape_product(shape.subrange(0, i))
}

/// Offset contributed by the first `n` dimensions of `index`.
pub open spec fn partial_offset(shape: Seq<usize>, index: Seq<usize>, n: int) -> nat
    decreases n,
{
    if n <= 0 {
        0
    } else {
        partial_offset(shape, index, n - 1) + (index[n - 1] as nat) * stride(shape, n - 1)
    }
}

/// Position of the element at `index` in the backing buffer: dimension 0 varies fastest.
pub open spec fn flat_offset(shape: Seq<usize>, index: Seq<usize>) -> nat {
    partial_offset(shape, index, shape.len() as int)
}

pub(crate) proof fn lemma_stride_step(shape: Seq<usize>, i: int)
    requires
        0 <= i < shape.len(),
    ensures
        stride(shape, i + 1) == stride(shape, i) * (shape[i] as nat),
{
    assert(shape.subrange(0, i + 1).drop_last() =~= shape.subrange(0, i));
}

pub(crate) proof fn lemma_stride_full(shape: Seq<usize>)
    ensures
        stride(shape, shape.len() as int) == shape_product(shape),
{
    assert(shape.subrange(0, shape.len() as int) =~= shape);
}

/// Inside the bounds, the first `n` dimensions address fewer than `stride(n)` cells.
pub(crate) proof fn lemma_partial_offset_bound(shape: Seq<usize>, index: Seq<usize>, n: int)
    requires
        in_bounds(shape, index),
        0 <= n <= shape.len(),
    ensures
        partial_offset(shape, index, n) < stride(shape, n),
    decreases n,
{
    if n == 0 {
        assert(shape.subrange(0, 0).len() == 0);
    } else {
        lemma_partial_offset_bound(shape, index, n - 1);
        lemma_stride_step(shape, n - 1);
        let s = stride(shape, n - 1);
        let x = index[n - 1] as nat;
        let e = shape[n - 1] as nat;
        assert(x < e);
        assert(x * s + s <= e * s) by (nonlinear_arith)
            requires
                x < e,
        ;
    }
}

/// When no extent is zero the strides never shrink.
pub(crate) proof fn lemma_stride_monotone(shape: Seq<usize>, i: int, j: int)
    requires
        forall|d: int| 0 <= d < shape.len() ==> #[trigger] shape[d] >= 1,
        0 <= i <= j <= shape.len(),
    ensures
        stride(shape, i) <= stride(shape, j),
    decreases j - i,
{
    if i < j {
        lemma_stride_monotone(shape, i, j - 1);
        lemma_stride_step(shape, j - 1);
        let s = stride(shape, j - 1);
        let e = shape[j - 1] as nat;
        assert(shape[j - 1] >= 1);
        assert(s <= s * e) by (nonlinear_arith)
            requires
                e >= 1,
        ;
    }
}

/// A zero extent leaves the shape without any cell.
pub(crate) proof fn lemma_product_zero(shape: Seq<usize>, d: int)
    requires
        0 <= d < shape.len(),
        shape[d] == 0,
    ensures
        shape_product(shape) == 0,
    decreases shape.len(),
{
    let p = shape_product(shape.drop_last());
    if d < shape.len() - 1 {
        assert(shape.drop_last()[d] == shape[d]);
        lemma_product_zero(shape.drop_last(), d);
    }
    assert(p * (shape.last() as nat) == 0) by (nonlinear_arith)
        requires
            p == 0 || shape.last() == 0,
    ;
}

/// Number of cells of the shape `dims`, or `None` when it does not fit in `usize`.
pub fn shape_len(dims: &[usize]) -> (r: Option<usize>)
    ensures
        r == (if shape_product(dims@) <= usize::MAX {
            Some(shape_product(dims@) as usize)
        } else {
            None
        }),
{
    let n = dims.len();
    let mut z: usize = 0;
    while z < n
        invariant
            n == dims@.len(),
            z <= n,
            forall|d: int| 0 <= d < z ==> #[trigger] dims@[d] >= 1,
        decreases n - z,
    {
        if dims[z] == 0 {
            proof {
                lemma_product_zero(dims@, z as int);
            }
            return Some(0);
        }
        z = z + 1;
    }
    let mut acc: usize = 1;
    let mut i: usize = 0;
    proof {
        lemma_stride_full(dims@);
        assert(dims@.subrange(0, 0).len() == 0);
    }
    while i < n
        invariant
            n == dims@.len(),
            i <= n,
            forall|d: int| 0 <= d < n ==> #[trigger] dims@[d] >= 1,
            stride(dims@, n as int) == shape_product(dims@),
            acc == stride(dims@, i as int),
        decreases n - i,
    {
        proof {
            lemma_stride_step(dims@, i as int);
            lemma_stride_monotone(dims@, i as int + 1, n as int);
        }
        match acc.checked_mul(dims[i]) {
            Some(p) => {
                acc = p;
            },
            None => {
                return None;
            },
        }
        i = i + 1;
    }
    Some(acc)
}

/// Checks that `index` lies inside `dims`.
pub fn check_index(dims: &[usize], index: &[usize]) -> (r: bool)
    requires
        dims@.len() == index@.len(),
    ensures
        r == in_bounds(dims@, index@),
{
    let mut i: usize = 0;
    while i < dims.len()
        invariant
            i <= dims@.len(),
            dims@.len() == index@.len(),
            forall|j: int| 0 <= j < i ==> #[trigger] index@[j] < dims@[j],
        decreases dims@.len() - i,
    {
        if index[i] >= dims[i] {
            return false;
        }
        i = i + 1;
    }
    true
}

proof fn lemma_partial_offset_monotone(shape: Seq<usize>, index: Seq<usize>, m: int, n: int)
    requires
        0 <= m <= n,
    ensures
        partial_offset(shape, index, m) <= partial_offset(shape, index, n),
    decreases n - m,
{
    if m < n {
        lemma_partial_offset_monotone(shape, index, m, n - 1);
    }
}

/// In an array whose cell count fits in `usize`, every coordinate inside the bounds
/// meets what `get_index` asks.
pub(crate) proof fn lemma_get_index_fits(shape: Seq<usize>, index: Seq<usize>)
    requires
        in_bounds(shape, index),
        shape.len() >= 1,
        shape_product(shape) <= usize::MAX,
    ensures
        stride(shape, shape.len() - 1) <= usize::MAX,
        flat_offset(shape, index) < shape_product(shape),
{
    assert forall|d: int| 0 <= d < shape.len() implies #[trigger] shape[d] >= 1 by {
        assert(index[d] < shape[d]);
    }
    lemma_stride_monotone(shape, shape.len() - 1, shape.len() as int);
    lemma_stride_full(shape);
    lemma_partial_offset_bound(shape, index, shape.len() as int);
}

/// Position of the element at `index` in a buffer of shape `dims`. The strides it
/// multiplies by, and the result, must fit in `usize`.
pub fn get_index(dims: &[usize], index: &[usize]) -> (r: usize)
    requires
        in_bounds(dims@, index@),
        dims@.len() >= 1 ==> stride(dims@, dims@.len() - 1) <= usize::MAX,
        flat_offset(dims@, index@) <= usize::MAX,
    ensures
        r == flat_offset(dims@, index@),
        r < shape_product(dims@),
{
    let n = dims.len();
    let mut idx: usize = 0;
    let mut step: usize = 1;
    let mut i: usize = 0;
    proof {
        assert(dims@.subrange(0, 0).len() == 0);
        assert forall|d: int| 0 <= d < n implies #[trigger] dims@[d] >= 1 by {
            assert(index@[d] < dims@[d]);
        }
    }
    while i < n
        invariant
            n == dims@.len(),
            i <= n,
            in_bounds(dims@, index@),
            forall|d: int| 0 <= d < n ==> #[trigger] dims@[d] >= 1,
            n >= 1 ==> stride(dims@, n - 1) <= usize::MAX,
            flat_offset(dims@, index@) <= usize::MAX,
            idx == partial_offset(dims@, index@, i as int),
            i < n ==> step == stride(dims@, i as int),
        decreases n - i,
    {
        proof {
            lemma_partial_offset_monotone(dims@, index@, i as int + 1, n as int);
            lemma_stride_step(dims@, i as int);
            if i + 1 < n {
                lemma_stride_monotone(dims@, i as int + 1, n - 1);
            }
            assert(idx + (index@[i as int] as nat) * (step as nat) == partial_offset(
                dims@,
                index@,
                i as int + 1,
            ));
            assert((index@[i as int] as nat) * (step as nat) <= partial_offset(
                dims@,
                index@,
                i as int + 1,
            ));
        }
        idx = idx + index[i] * step;
        if i + 1 < n {
            step = step * dims[i];
        }
        i = i + 1;
    }
    proof {
        lemma_partial_offset_bound(dims@, index@, n as int);
        lemma_stride_full(dims@);
    }
    idx
}

/// The dimension at which advancing `index` stops, searching from dimension `i`
/// upward: the first one whose index can grow without reaching its extent, or the
/// last dimension when none can.
pub open spec fn carry_stop(shape: Seq<usize>, index: Seq<usize>, i: int) -> int
    decreases shape.len() - i,
{
    if i >= shape.len() - 1 {
        shape.len() - 1
    } else if index[i] + 1 < shape[i] {
        i
    } else {
        carry_stop(shape, index, i + 1)
    }
}

pub(crate) proof fn lemma_carry_stop_range(shape: Seq<usize>, index: Seq<usize>, i: int)
    requires
        0 <= i < shape.len(),
    ensures
        i <= carry_stop(shape, index, i) < shape.len(),
    decreases shape.len() - i,
{
    if i < shape.len() - 1 && index[i] + 1 >= shape[i] {
        lemma_carry_stop_range(shape, index, i + 1);
    }
}

/// The coordinate that follows `index` with dimension 0 varying fastest. The
/// dimensions below the stopping one wrap to 0, the stopping one grows by one; when
/// the last dimension overflows it is left at its extent, which marks the end.
pub open spec fn advanced(shape: Seq<usize>, index: Seq<usize>) -> Seq<usize> {
    let k = carry_stop(shape, index, 0);
    Seq::new(
        index.len(),
        |j: int|
            if j < k {
                0usize
            } else if j == k {
                (index[j] + 1) as usize
            } else {
                index[j]
            },
    )
}

/// Moves `index` to the next coordinate of `dims`, dimension 0 fastest.
pub fn next_index(index: &mut [usize], dims: &[usize])
    requires
        old(index)@.len() == dims@.len(),
        forall|j: int|
            0 <= j < dims@.len() && j <= carry_stop(dims@, old(index)@, 0) ==> #[trigger] old(index)@[j] < usize::MAX,
    ensures
        final(index)@ == advanced(dims@, old(index)@),
{
    let n = dims.len();
    let ghost k = carry_stop(dims@, old(index)@, 0);
    let mut i: usize = 0;
    if n > 0 {
        proof {
            lemma_carry_stop_range(dims@, old(index)@, 0);
        }
    }
    while i < n
        invariant
            n == dims@.len() == index@.len() == old(index)@.len(),
            k == carry_stop(dims@, old(index)@, 0),
            forall|j: int| 0 <= j < n && j <= k ==> #[trigger] old(index)@[j] < usize::MAX,
            n > 0 ==> i <= k,
            i < n ==> carry_stop(dims@, old(index)@, i as int) == k,
            forall|j: int| 0 <= j < i ==> #[trigger] index@[j] == 0,
            forall|j: int| i <= j < n ==> #[trigger] index@[j] == old(index)@[j],
        decreases n - i,
    {
        let v = index[i] + 1;
        if v < dims[i] || i + 1 == n {
            index[i] = v;
            assert(index@ =~= advanced(dims@, old(index)@));
            return;
        }
        index[i] = 0;
        proof {
            lemma_carry_stop_range(dims@, old(index)@, i as int + 1);
        }
        i = i + 1;
    }
    assert(index@ =~= advanced(dims@, old(index)@));
}

proof fn lemma_carry_stop_below(shape: Seq<usize>, index: Seq<usize>, i: int)
    requires
        0 <= i < shape.len(),
    ensures
        forall|j: int| i <= j < carry_stop(shape, index, i) ==> #[trigger] index[j] + 1 >= shape[j],
        carry_stop(shape, index, i) == shape.len() - 1 || index[carry_stop(shape, index, i)] + 1
            < shape[carry_stop(shape, index, i)],
    decreases shape.len() - i,
{
    if i < shape.len() - 1 && index[i] + 1 >= shape[i] {
        lemma_carry_stop_below(shape, index, i + 1);
    }
}

pub(crate) proof fn lemma_partial_offset_zero(shape: Seq<usize>, index: Seq<usize>, n: int)
    requires
        0 <= n <= index.len(),
        forall|j: int| 0 <= j < n ==> #[trigger] index[j] == 0,
    ensures
        partial_offset(shape, index, n) == 0,
    decreases n,
{
    if n > 0 {
        lemma_partial_offset_zero(shape, index, n - 1);
    }
}

proof fn lemma_partial_offset_last(shape: Seq<usize>, index: Seq<usize>, n: int)
    requires
        0 <= n <= shape.len() == index.len(),
        forall|j: int| 0 <= j < n ==> #[trigger] index[j] + 1 == shape[j],
    ensures
        partial_offset(shape, index, n) + 1 == stride(shape, n),
    decreases n,
{
    if n == 0 {
        assert(shape.subrange(0, 0).len() == 0);
    } else {
        lemma_partial_offset_last(shape, index, n - 1);
        lemma_stride_step(shape, n - 1);
        let s = stride(shape, n - 1);
        let x = index[n - 1] as nat;
        assert(shape[n - 1] as nat == x + 1);
        assert(s * (x + 1) == x * s + s) by (nonlinear_arith);
    }
}

proof fn lemma_partial_offset_tail(shape: Seq<usize>, a: Seq<usize>, b: Seq<usize>, m: int, n: int)
    requires
        0 <= m <= n <= a.len(),
        a.len() == b.len(),
        forall|j: int| m <= j < n ==> #[trigger] a[j] == b[j],
    ensures
        partial_offset(shape, a, n) - partial_offset(shape, a, m) == partial_offset(shape, b, n)
            - partial_offset(shape, b, m),
    decreases n - m,
{
    if m < n {
        lemma_partial_offset_tail(shape, a, b, m, n - 1);
    }
}

/// Advancing a coordinate inside the bounds moves its flat offset forward by exactly
/// one. The result lies inside the bounds unless the old coordinate held the last
/// cell; it is then the end marker: every dimension 0 but the last, which equals
/// its extent.
pub proof fn lemma_advance_offset(shape: Seq<usize>, index: Seq<usize>)
    requires
        in_bounds(shape, index),
        shape.len() >= 1,
    ensures
        flat_offset(shape, advanced(shape, index)) == flat_offset(shape, index) + 1,
        in_bounds(shape, advanced(shape, index)) <==> flat_offset(shape, index) + 1 < shape_product(
            shape,
        ),
        !in_bounds(shape, advanced(shape, index)) ==> {
            &&& forall|j: int|
                0 <= j < shape.len() - 1 ==> #[trigger] advanced(shape, index)[j] == 0
            &&& advanced(shape, index)[shape.len() - 1] == shape[shape.len() - 1]
        },
{
    let n = shape.len() as int;
    let k = carry_stop(shape, index, 0);
    let a = advanced(shape, index);
    lemma_carry_stop_range(shape, index, 0);
    lemma_carry_stop_below(shape, index, 0);
    assert forall|j: int| 0 <= j < k implies #[trigger] index[j] + 1 == shape[j] by {
        assert(index[j] < shape[j]);
    }
    lemma_partial_offset_last(shape, index, k);
    lemma_partial_offset_zero(shape, a, k);
    lemma_stride_step(shape, k);
    lemma_partial_offset_tail(shape, a, index, k + 1, n);
    lemma_partial_offset_bound(shape, index, n);
    lemma_stride_full(shape);
    assert(a[k] == index[k] + 1);
    let s = stride(shape, k);
    let x = index[k] as nat;
    assert(partial_offset(shape, a, k + 1) == partial_offset(shape, a, k) + (a[k] as nat) * s);
    assert(partial_offset(shape, index, k + 1) == partial_offset(shape, index, k) + x * s);
    assert((x + 1) * s == x * s + s) by (nonlinear_arith);
    assert(partial_offset(shape, a, k + 1) == partial_offset(shape, index, k + 1) + 1);
    if index[k] + 1 < shape[k] {
        assert(in_bounds(shape, a)) by {
            assert forall|j: int| 0 <= j < n implies #[trigger] a[j] < shape[j] by {
                assert(index[j] < shape[j]);
            }
        }
        lemma_partial_offset_bound(shape, a, n);
    } else {
        assert(k == n - 1);
        assert(a[k] == shape[k]);
        assert(!in_bounds(shape, a));
        assert(partial_offset(shape, a, k + 1) == (shape[k] as nat) * s);
        assert((shape[k] as nat) * s == s * (shape[k] as nat)) by (nonlinear_arith);
        assert(flat_offset(shape, a) == shape_product(shape));
    }
}

proof fn lemma_partial_offset_injective(shape: Seq<usize>, a: Seq<usize>, b: Seq<usize>, n: int)
    requires
        in_bounds(shape, a),
        in_bounds(shape, b),
        0 <= n <= shape.len(),
        partial_offset(shape, a, n) == partial_offset(shape, b, n),
    ensures
        forall|j: int| 0 <= j < n ==> #[trigger] a[j] == b[j],
    decreases n,
{
    if n > 0 {
        let s = stride(shape, n - 1);
        let x = a[n - 1] as nat;
        let y = b[n - 1] as nat;
        let pa = partial_offset(shape, a, n - 1);
        let pb = partial_offset(shape, b, n - 1);
        lemma_partial_offset_bound(shape, a, n - 1);
        lemma_partial_offset_bound(shape, b, n - 1);
        assert(pa + x * s == pb + y * s);
        assert(x == y) by (nonlinear_arith)
            requires
                pa < s,
                pb < s,
                pa + x * s == pb + y * s,
        {
            if x < y {
                assert(x * s + s <= y * s);
            } else if y < x {
                assert(y * s + s <= x * s);
            }
        }
        lemma_partial_offset_injective(shape, a, b, n - 1);
    }
}

/// Inside the bounds the flat offset tells coordinates apart and stays below the
/// number of cells, so a traversal whose offsets run from 0 up to that number
/// meets every coordinate exactly once.
pub proof fn lemma_flat_offset_bijective(shape: Seq<usize>, a: Seq<usize>, b: Seq<usize>)
    requires
        in_bounds(shape, a),
        in_bounds(shape, b),
    ensures
        flat_offset(shape, a) < shape_product(shape),
        flat_offset(shape, a) == flat_offset(shape, b) <==> a == b,
{
    lemma_partial_offset_bound(shape, a, shape.len() as int);
    lemma_stride_full(shape);
    if flat_offset(shape, a) == flat_offset(shape, b) {
        lemma_partial_offset_injective(shape, a, b, shape.len() as int);
        assert(a =~= b);
    }
}

} // verus!
