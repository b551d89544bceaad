use vstd::prelude::*;

use crate::index::{lemma_partial_offset_bound, lemma_partial_offset_zero, lemma_product_zero, lemma_stride_full};
use crate::{advanced, check_index, flat_offset, in_bounds, lemma_advance_offset, next_index, shape_product, DynArray};

verus! {

/// How many cells a traversal standing at `index` has already handed out: the flat
/// offset of `index` while it lies inside the bounds, every cell once it has left them.
pub open spec fn cursor_pos(shape: Seq<usize>, index: Seq<usize>) -> nat {
    if in_bounds(shape, index) {
        flat_offset(shape, index)
    } else {
        shape_product(shape)
    }
}

/// A traversal starts at the all-zero coordinate, which stands before every cell.
pub proof fn lemma_cursor_start(shape: Seq<usize>, index: Seq<usize>)
    requires
        index.len() == shape.len(),
        forall|j: int| 0 <= j < index.len() ==> #[trigger] index[j] == 0,
    ensures
        cursor_pos(shape, index) == 0,
{
    if in_bounds(shape, index) {
        lemma_partial_offset_zero(shape, index, shape.len() as int);
    } else {
        let d = choose|d: int| 0 <= d < shape.len() && !(index[d] < shape[d]);
        lemma_product_zero(shape, d);
    }
}

/// One advance from a coordinate inside the bounds moves the traversal on by one cell.
pub proof fn lemma_cursor_step(shape: Seq<usize>, index: Seq<usize>)
    requires
        in_bounds(shape, index),
        shape.len() >= 1,
    ensures
        cursor_pos(shape, index) < shape_product(shape),
        cursor_pos(shape, advanced(shape, index)) == cursor_pos(shape, index) + 1,
{
    lemma_advance_offset(shape, index);
    lemma_partial_offset_bound(shape, index, shape.len() as int);
    lemma_stride_full(shape);
}

/// The cursor never passes the last cell.
pub proof fn lemma_cursor_bound(shape: Seq<usize>, index: Seq<usize>)
    ensures
        cursor_pos(shape, index) <= shape_product(shape),
{
    if in_bounds(shape, index) {
        lemma_partial_offset_bound(shape, index, shape.len() as int);
        lemma_stride_full(shape);
    }
}

/// Traversal of an array by shared reference, in layout order.
pub struct Iter<'a, T, const D: usize> {
    arr: &'a DynArray<T, D>,
    index: [usize; D],
}

impl<'a, T, const D: usize> Iter<'a, T, D> {
    /// The array being traversed.
    pub closed spec fn array(&self) -> DynArray<T, D> {
        *self.arr
    }

    /// The coordinate that the next step hands out.
    pub closed spec fn coord(&self) -> Seq<usize> {
        self.index@
    }

    /// Number of cells handed out so far.
    pub open spec fn pos(&self) -> nat {
        cursor_pos(self.array().shape(), self.coord())
    }

    /// Hands out the next coordinate with its element, or `None` once every cell
    /// has been handed out.
    pub fn next(&mut self) -> (r: Option<([usize; D], &'a T)>)
        requires
            old(self).array().wf(),
        ensures
            final(self).array() == old(self).array(),
            match r {
                None => {
                    &&& old(self).pos() == old(self).array()@.len()
                    &&& final(self).pos() == old(self).pos()
                },
                Some((c, e)) => {
                    &&& old(self).pos() < old(self).array()@.len()
                    &&& in_bounds(old(self).array().shape(), c@)
                    &&& flat_offset(old(self).array().shape(), c@) == old(self).pos()
                    &&& *e == old(self).array()@[old(self).pos() as int]
                    &&& final(self).pos() == old(self).pos() + 1
                },
            },
    {
        let arr: &'a DynArray<T, D> = self.arr;
        proof {
            lemma_cursor_bound(arr.shape(), self.index@);
        }
        if !check_index(arr.dims(), &self.index) {
            return None;
        }
        let c = self.index;
        let e = arr.index(c);
        proof {
            lemma_cursor_step(arr.shape(), c@);
            assert forall|j: int| 0 <= j < D implies #[trigger] c@[j] < usize::MAX by {
                assert(c@[j] < arr.shape()[j]);
            }
        }
        next_index(&mut self.index, arr.dims());
        Some((c, e))
    }
}

impl<T, const D: usize> DynArray<T, D> {
    /// Traversal by shared reference, from the all-zero coordinate.
    pub fn iter<'a>(&'a self) -> (r: Iter<'a, T, D>)
        requires
            self.wf(),
        ensures
            r.array() == *self,
            r.pos() == 0,
    {
        let index: [usize; D] = [0usize; D];
        proof {
            lemma_cursor_start(self.shape(), index@);
        }
        Iter { arr: self, index }
    }
}

/// Traversal by exclusive reference: each step lends out the element it reaches.
///
/// The fields are public so that contracts can follow the borrowed array to the end
/// of the traversal (`*final(it.arr)`): what the traversal leaves there is what the
/// array holds once the borrow ends.
pub struct IterMut<'a, T, const D: usize> {
    /// The array being traversed.
    pub arr: &'a mut DynArray<T, D>,
    /// The coordinate that the next step hands out.
    pub index: [usize; D],
}

impl<'a, T, const D: usize> IterMut<'a, T, D> {
    /// The array being traversed, as it stands now.
    pub open spec fn array(&self) -> DynArray<T, D> {
        *self.arr
    }

    /// The coordinate that the next step hands out.
    pub open spec fn coord(&self) -> Seq<usize> {
        self.index@
    }

    /// Number of cells handed out so far.
    pub open spec fn pos(&self) -> nat {
        cursor_pos(self.array().shape(), self.coord())
    }

    /// Hands out the next coordinate with its element, writable until the next step,
    /// or `None` once every cell has been handed out. What is written through the
    /// element lands in that cell of the array.
    pub fn next(&mut self) -> (r: Option<([usize; D], &mut T)>)
        requires
            old(self).array().wf(),
        ensures
            *final(final(self).arr) == *final(old(self).arr),
            final(self).array().shape() == old(self).array().shape(),
            match r {
                None => {
                    &&& old(self).pos() == old(self).array()@.len()
                    &&& final(self).array() == old(self).array()
                    &&& final(self).pos() == old(self).pos()
                },
                Some((c, e)) => {
                    &&& old(self).pos() < old(self).array()@.len()
                    &&& in_bounds(old(self).array().shape(), c@)
                    &&& flat_offset(old(self).array().shape(), c@) == old(self).pos()
                    &&& *e == old(self).array()@[old(self).pos() as int]
                    &&& final(self).array()@ == old(self).array()@.update(
                        old(self).pos() as int,
                        *final(e),
                    )
                    &&& final(self).pos() == old(self).pos() + 1
                },
            },
    {
        proof {
            lemma_cursor_bound(self.arr.shape(), self.index@);
        }
        if !check_index(self.arr.dims(), &self.index) {
            return None;
        }
        let c = self.index;
        proof {
            lemma_cursor_step(self.arr.shape(), c@);
            assert forall|j: int| 0 <= j < D implies #[trigger] c@[j] < usize::MAX by {
                assert(c@[j] < self.arr.shape()[j]);
            }
        }
        next_index(&mut self.index, self.arr.dims());
        let e = self.arr.index_mut(c);
        Some((c, e))
    }
}

/// Traversal that consumes the array and hands out each element by value, leaving
/// the default value in its cell.
pub struct IterOwned<T, const D: usize> {
    arr: DynArray<T, D>,
    index: [usize; D],
}

impl<T: Default, const D: usize> IterOwned<T, D> {
    /// The array being drained.
    pub closed spec fn array(&self) -> DynArray<T, D> {
        self.arr
    }

    /// The coordinate that the next step hands out.
    pub closed spec fn coord(&self) -> Seq<usize> {
        self.index@
    }

    /// Number of cells handed out so far.
    pub open spec fn pos(&self) -> nat {
        cursor_pos(self.array().shape(), self.coord())
    }

    /// Takes out the next coordinate with its element, or `None` once every cell has
    /// been handed out. Only the cell taken from changes.
    pub fn next(&mut self) -> (r: Option<([usize; D], T)>)
        requires
            old(self).array().wf(),
        ensures
            final(self).array().wf(),
            final(self).array().shape() == old(self).array().shape(),
            match r {
                None => {
                    &&& old(self).pos() == old(self).array()@.len()
                    &&& final(self).array() == old(self).array()
                    &&& final(self).pos() == old(self).pos()
                },
                Some((c, e)) => {
                    &&& old(self).pos() < old(self).array()@.len()
                    &&& in_bounds(old(self).array().shape(), c@)
                    &&& flat_offset(old(self).array().shape(), c@) == old(self).pos()
                    &&& e == old(self).array()@[old(self).pos() as int]
                    &&& final(self).array()@.len() == old(self).array()@.len()
                    &&& call_ensures(T::default, (), final(self).array()@[old(self).pos() as int])
                    &&& forall|i: int|
                        0 <= i < old(self).array()@.len() && i != old(self).pos()
                            ==> #[trigger] final(self).array()@[i] == old(self).array()@[i]
                    &&& final(self).pos() == old(self).pos() + 1
                },
            },
    {
        proof {
            lemma_cursor_bound(self.arr.shape(), self.index@);
        }
        if !check_index(self.arr.dims(), &self.index) {
            return None;
        }
        let c = self.index;
        proof {
            lemma_cursor_step(self.arr.shape(), c@);
            assert forall|j: int| 0 <= j < D implies #[trigger] c@[j] < usize::MAX by {
                assert(c@[j] < self.arr.shape()[j]);
            }
        }
        let mut e = T::default();
        std::mem::swap(self.arr.index_mut(c), &mut e);
        next_index(&mut self.index, self.arr.dims());
        Some((c, e))
    }
}

impl<T, const D: usize> DynArray<T, D> {
    /// Traversal by exclusive reference, from the all-zero coordinate.
    pub fn iter_mut<'a>(&'a mut self) -> (r: IterMut<'a, T, D>)
        requires
            old(self).wf(),
        ensures
            r.array() == *old(self),
            *final(r.arr) == *final(self),
            r.pos() == 0,
    {
        let index: [usize; D] = [0usize; D];
        proof {
            lemma_cursor_start(self.shape(), index@);
        }
        IterMut { arr: self, index }
    }
}

impl<T: Default, const D: usize> DynArray<T, D> {
    /// Traversal that consumes the array, from the all-zero coordinate.
    pub fn into_iter(self) -> (r: IterOwned<T, D>)
        requires
            self.wf(),
        ensures
            r.array() == self,
            r.pos() == 0,
    {
        let index: [usize; D] = [0usize; D];
        proof {
            lemma_cursor_start(self.shape(), index@);
        }
        IterOwned { arr: self, index }
    }
}

} // verus!
