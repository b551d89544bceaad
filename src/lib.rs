use vstd::prelude::*;

pub mod index;
pub mod iter;

use index::lemma_get_index_fits;
pub use index::{
    advanced, check_index, flat_offset, get_index, lemma_advance_offset,
    lemma_flat_offset_bijective, next_index, shape_len,
};
pub use iter::{Iter, IterMut, IterOwned};

verus! {

/// Product of all extents of a shape.
pub open spec fn shape_product(shape: Seq<usize>) -> nat
    decreases shape.len(),
{
    if shape.len() == 0 {
        1
    } else {
        shape_product(shape.drop_last()) * (shape.last() as nat)
    }
}

/// A coordinate lies inside the shape: same length, each index below its extent.
pub open spec fn in_bounds(shape: Seq<usize>, index: Seq<usize>) -> bool {
    &&& index.len() == shape.len()
    &&& forall|i: int| 0 <= i < shape.len() ==> #[trigger] index[i] < shape[i]
}

/// A dense array of `D` dimensions, stored in one buffer with dimension 0 varying
/// fastest.
#[derive(Clone, Debug)]
pub struct DynArray<T, const D: usize> {
    dims: [usize; D],
    data: Vec<T>,
}

impl<T, const D: usize> View for DynArray<T, D> {
    type V = Seq<T>;

    /// The backing buffer, in layout order.
    closed spec fn view(&self) -> Seq<T> {
        self.data@
    }
}

impl<T, const D: usize> DynArray<T, D> {
    /// The extent of each dimension.
    pub closed spec fn shape(&self) -> Seq<usize> {
        self.dims@
    }

    /// At least one dimension, and one buffer cell per coordinate of the shape.
    pub open spec fn wf(&self) -> bool {
        &&& D >= 1
        &&& self.shape().len() == D
        &&& self@.len() == shape_product(self.shape())
        &&& shape_product(self.shape()) <= usize::MAX
    }

    /// Array of shape `dims` whose every cell holds a clone of `x`.
    pub fn new(dims: [usize; D], x: T) -> (r: Self)
        where
            T: Clone,
        requires
            D >= 1,
            shape_product(dims@) <= usize::MAX,
        ensures
            r.wf(),
            r.shape() == dims@,
            r@.len() == shape_product(dims@),
            forall|i: int| 0 <= i < r@.len() ==> cloned::<T>(x, #[trigger] r@[i]),
    {
        let len = shape_len(&dims).unwrap();
        DynArray { dims, data: vec![x; len] }
    }

    /// Array of shape `dims` that takes `data` as its buffer, in layout order.
    pub fn new_from_data(dims: [usize; D], data: Vec<T>) -> (r: Self)
        requires
            D >= 1,
            data@.len() == shape_product(dims@),
        ensures
            r.wf(),
            r.shape() == dims@,
            r@ == data@,
    {
        // a buffer length is a `usize`, so the cell count fits in one
        let cells: usize = data.len();
        proof {
            assert(cells == shape_product(dims@));
        }
        DynArray { dims, data }
    }

    /// The extent of each dimension.
    pub fn dims(&self) -> (r: &[usize])
        ensures
            r@ == self.shape(),
    {
        self.dims.as_slice()
    }

    /// The backing buffer, in layout order.
    pub fn data(&self) -> (r: &[T])
        ensures
            r@ == self@,
    {
        self.data.as_slice()
    }

    /// The backing buffer, writable in place; its length cannot change.
    pub fn data_mut(&mut self) -> (r: &mut [T])
        ensures
            r@ == old(self)@,
            final(self)@ == final(r)@,
            final(self).shape() == old(self).shape(),
    {
        self.data.as_mut_slice()
    }

    /// The element at coordinate `index`.
    pub fn index(&self, index: [usize; D]) -> (r: &T)
        requires
            self.wf(),
            in_bounds(self.shape(), index@),
        ensures
            *r == self@[flat_offset(self.shape(), index@) as int],
    {
        proof {
            lemma_get_index_fits(self.shape(), index@);
        }
        let i = get_index(&self.dims, &index);
        &self.data[i]
    }

    /// The element at coordinate `index`, writable in place.
    pub fn index_mut(&mut self, index: [usize; D]) -> (r: &mut T)
        requires
            old(self).wf(),
            in_bounds(old(self).shape(), index@),
        ensures
            *r == old(self)@[flat_offset(old(self).shape(), index@) as int],
            final(self)@ == old(self)@.update(
                flat_offset(old(self).shape(), index@) as int,
                *final(r),
            ),
            final(self).shape() == old(self).shape(),
    {
        proof {
            lemma_get_index_fits(self.shape(), index@);
        }
        let i = get_index(&self.dims, &index);
        &mut self.data[i]
    }
}

impl<T> DynArray<T, 1> {
    /// Extent of dimension 0.
    pub fn width(&self) -> (r: usize)
        ensures
            r == self.shape()[0],
    {
        self.dims[0]
    }
}

impl<T> DynArray<T, 2> {
    /// Extent of dimension 0.
    pub fn width(&self) -> (r: usize)
        ensures
            r == self.shape()[0],
    {
        self.dims[0]
    }

    /// Extent of dimension 1.
    pub fn height(&self) -> (r: usize)
        ensures
            r == self.shape()[1],
    {
        self.dims[1]
    }
}

impl<T> DynArray<T, 3> {
    /// Extent of dimension 0.
    pub fn width(&self) -> (r: usize)
        ensures
            r == self.shape()[0],
    {
        self.dims[0]
    }

    /// Extent of dimension 1.
    pub fn height(&self) -> (r: usize)
        ensures
            r == self.shape()[1],
    {
        self.dims[1]
    }

    /// Extent of dimension 2.
    pub fn depth(&self) -> (r: usize)
        ensures
            r == self.shape()[2],
    {
        self.dims[2]
    }
}

/// In an array made by `new`, every coordinate inside the shape reads a clone of
/// the fill value.
pub proof fn lemma_new_reads_fill<T: Clone, const D: usize>(
    a: DynArray<T, D>,
    fill: T,
    c: Seq<usize>,
)
    requires
        a.wf(),
        forall|i: int| 0 <= i < a@.len() ==> cloned::<T>(fill, #[trigger] a@[i]),
        in_bounds(a.shape(), c),
    ensures
        flat_offset(a.shape(), c) < a@.len(),
        cloned::<T>(fill, a@[flat_offset(a.shape(), c) as int]),
{
    lemma_flat_offset_bijective(a.shape(), c, c);
}

/// An array built over `data` reads at every coordinate `c` inside its shape the
/// element `data[flat_offset(shape, c)]`, which exists.
pub proof fn lemma_from_data_round_trip<T, const D: usize>(
    a: DynArray<T, D>,
    data: Seq<T>,
    c: Seq<usize>,
)
    requires
        a.wf(),
        a@ == data,
        in_bounds(a.shape(), c),
    ensures
        flat_offset(a.shape(), c) < data.len(),
        a@[flat_offset(a.shape(), c) as int] == data[flat_offset(a.shape(), c) as int],
{
    lemma_flat_offset_bijective(a.shape(), c, c);
}

/// A write at coordinate `c`, whether by `index_mut` or through an element lent by
/// a mutable traversal, is read back at `c` and leaves every other coordinate as it
/// was.
pub proof fn lemma_write_read_back<T, const D: usize>(
    before: DynArray<T, D>,
    after: DynArray<T, D>,
    c: Seq<usize>,
    v: T,
    other: Seq<usize>,
)
    requires
        before.wf(),
        in_bounds(before.shape(), c),
        in_bounds(before.shape(), other),
        after.shape() == before.shape(),
        after@ == before@.update(flat_offset(before.shape(), c) as int, v),
    ensures
        after.wf(),
        after@[flat_offset(after.shape(), c) as int] == v,
        other != c ==> after@[flat_offset(after.shape(), other) as int] == before@[flat_offset(
            before.shape(),
            other,
        ) as int],
{
    lemma_flat_offset_bijective(before.shape(), c, other);
    lemma_flat_offset_bijective(before.shape(), other, c);
}

} // verus!
