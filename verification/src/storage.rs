//! Read access to a contiguous array, whether owned or borrowed.

use vstd::prelude::*;

verus! {

/// A contiguous array of `T` that can be read as a slice.
///
/// Implemented by `Vec<T>` for owned arrays and by `&[T]` for borrowed ones,
/// so that a matrix can either own its three arrays or share those of
/// another matrix without copying them.
pub trait Storage<T> {
    /// The elements of the array, in order.
    spec fn elems(&self) -> Seq<T>;

    /// Borrows the array as a slice.
    fn as_slice(&self) -> (s: &[T])
        ensures
            s@ == self.elems(),
    ;
}

impl<T> Storage<T> for Vec<T> {
    open spec fn elems(&self) -> Seq<T> {
        self@
    }

    fn as_slice(&self) -> (s: &[T]) {
        Vec::as_slice(self)
    }
}

impl<'a, T> Storage<T> for &'a [T] {
    open spec fn elems(&self) -> Seq<T> {
        (*self)@
    }

    fn as_slice(&self) -> (s: &[T]) {
        *self
    }
}

/// The array can grow by `additional` elements: their number can still be
/// counted, and the capacity does not exceed what an allocation may hold,
/// `isize::MAX` bytes.
pub open spec fn can_reserve<T>(len: nat, additional: usize) -> bool {
    &&& len + additional <= usize::MAX
    &&& (len + additional) * vstd::layout::size_of::<T>() <= isize::MAX
}

/// `Vec::reserve_exact`: makes room for `additional` more elements and leaves
/// the elements as they are. It is called only with a capacity that an
/// allocation may hold.
#[verifier::external_body]
pub(crate) fn vec_reserve_exact<T>(v: &mut Vec<T>, additional: usize)
    requires
        can_reserve::<T>(old(v)@.len(), additional),
    ensures
        final(v)@ == old(v)@,
{
    v.reserve_exact(additional)
}

/// A contiguous array of `T` whose elements can also be overwritten in place.
pub trait StorageMut<T>: Storage<T> {
    /// Overwrites the element at position `i`; the length never changes.
    fn set_at(&mut self, i: usize, value: T)
        requires
            i < old(self).elems().len(),
        ensures
            final(self).elems() == old(self).elems().update(i as int, value),
    ;

    /// Borrows the array as a slice whose elements can be overwritten.
    fn as_mut_slice(&mut self) -> (s: &mut [T])
        ensures
            s@ == old(self).elems(),
            final(s)@ == final(self).elems(),
    ;
}

impl<T> StorageMut<T> for Vec<T> {
    fn set_at(&mut self, i: usize, value: T) {
        self[i] = value;
    }

    fn as_mut_slice(&mut self) -> (s: &mut [T]) {
        Vec::as_mut_slice(self)
    }
}

} // verus!
