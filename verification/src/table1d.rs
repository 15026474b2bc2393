//! A one-dimensional storage capability.
//!
//! `Table1D` abstracts an "array of values" so that the same packed
//! bit-vector logic serves a heap-backed store and other backings alike: the
//! interface exposes get/set/size and a filled-with-value constructor, and a
//! holder never needs to know which backing store it owns.

use vstd::prelude::*;

verus! {

/// A fixed-length sequence of values of type `T` with constant-time access.
pub trait Table1D<T>: Sized {
    /// The stored values, in order.
    spec fn contents(&self) -> Seq<T>;

    /// Read the value at index `i`.
    fn get(&self, i: usize) -> (r: &T)
        requires
            i < self.contents().len(),
        ensures
            *r == self.contents()[i as int],
    ;

    /// Overwrite the value at index `i`.
    fn set(&mut self, value: T, i: usize)
        requires
            i < old(self).contents().len(),
        ensures
            final(self).contents() == old(self).contents().update(i as int, value),
    ;

    /// The number of stored values; fixed over the table's lifetime.
    fn size(&self) -> (r: usize)
        ensures
            r == self.contents().len(),
    ;

    /// A table of `size` copies of `value`.
    fn new_filled(value: T, size: usize) -> (r: Self)
        ensures
            r.contents() == Seq::new(size as nat, |i: int| value),
    ;
}

impl<T: Copy> Table1D<T> for Vec<T> {
    open spec fn contents(&self) -> Seq<T> {
        self@
    }

    fn get(&self, i: usize) -> (r: &T) {
        &self[i]
    }

    fn set(&mut self, value: T, i: usize) {
        self[i] = value;
    }

    fn size(&self) -> (r: usize) {
        self.len()
    }

    fn new_filled(value: T, size: usize) -> (r: Self) {
        let mut table: Vec<T> = Vec::new();
        let mut k: usize = 0;
        while k < size
            invariant
                k <= size,
                table@ == Seq::new(k as nat, |i: int| value),
            decreases size - k,
        {
            table.push(value);
            k = k + 1;
            proof {
                assert(table@ =~= Seq::new(k as nat, |i: int| value));
            }
        }
        proof {
            assert(table@ =~= Seq::new(size as nat, |i: int| value));
        }
        table
    }
}

} // verus!
