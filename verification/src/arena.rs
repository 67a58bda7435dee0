use vstd::prelude::*;
use std::marker::PhantomData;
use crate::err::JsonError;

verus! {

/// An opaque, type-tagged index into the arena that minted it.
///
/// A handle carries no ownership; it is only meaningful against the one
/// allocator instance whose `alloc` produced it. Its view is the index of
/// the slot it names.
#[derive(Debug)]
pub struct Id<T>(usize, PhantomData<T>);

impl<T> Clone for Id<T> {
    fn clone(&self) -> (r: Self)
        ensures
            r@ == self@,
    {
        Id(self.0, PhantomData)
    }
}

impl<T> Copy for Id<T> {}

impl<T> View for Id<T> {
    type V = int;

    closed spec fn view(&self) -> int {
        self.0 as int
    }
}

impl<T> Id<T> {
    /// Builds a handle from a raw index.
    ///
    /// Handles should normally be taken only from `Allocator::alloc`; a
    /// fabricated one satisfies `fetch`'s precondition only if its index
    /// is below the arena's current length.
    pub fn id(id: usize) -> (r: Self)
        ensures
            r@ == id as int,
    {
        Id(id, PhantomData)
    }
}

/// A fixed-capacity, append-only pool of values.
///
/// The capacity is chosen at construction and never grows. Each `alloc`
/// appends exactly one value and hands back a handle whose index is the
/// pool's length just before the append, so handles increase monotonically
/// in allocation order. A stored value is never mutated or removed.
/// The view is the sequence of stored values.
#[derive(Debug)]
pub struct Allocator<T> {
    vec: Vec<T>,
    size: usize,
}

impl<T> View for Allocator<T> {
    type V = Seq<T>;

    closed spec fn view(&self) -> Seq<T> {
        self.vec@
    }
}

impl<T> Allocator<T> {
    /// The fixed capacity this pool was built with.
    pub closed spec fn cap(&self) -> nat {
        self.size as nat
    }

    /// Creates an empty pool with room for exactly `size` values.
    pub fn make(size: usize) -> (r: Self)
        requires
            size > 0,
        ensures
            r@ == Seq::<T>::empty(),
            r.cap() == size as nat,
    {
        let vec: Vec<T> = Vec::with_capacity(size);
        Allocator { vec, size }
    }

    /// Appends `el` and returns its handle, or reports `CapacityExceeded`
    /// (leaving the pool unchanged) when the pool is already full.
    pub fn allocate(&mut self, el: T) -> (r: Result<Id<T>, JsonError>)
        ensures
            final(self).cap() == old(self).cap(),
            old(self)@.len() < old(self).cap() ==> (r matches Ok(id)
                && id@ == old(self)@.len()
                && final(self)@ == old(self)@.push(el)),
            old(self)@.len() >= old(self).cap() ==> (r matches Err(e)
                && e == JsonError::CapacityExceeded
                && final(self)@ == old(self)@),
    {
        if self.vec.len() < self.size {
            let id: usize = self.vec.len();
            self.vec.push(el);
            Ok(Id(id, PhantomData))
        } else {
            Err(JsonError::CapacityExceeded)
        }
    }

    /// Returns a reference to the value a handle names.
    pub fn fetch(&self, id: Id<T>) -> (r: &T)
        requires
            0 <= id@ < self@.len(),
        ensures
            *r == self@[id@],
    {
        &self.vec[id.0]
    }

    /// How many values have been allocated so far.
    pub fn len(&self) -> (r: usize)
        ensures
            r as int == self@.len(),
    {
        self.vec.len()
    }

    /// The fixed capacity, as chosen at construction.
    pub fn capacity(&self) -> (r: usize)
        ensures
            r as nat == self.cap(),
    {
        self.size
    }
}

} // verus!
