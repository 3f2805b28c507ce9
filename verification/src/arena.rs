//! An append-only, id-indexed store of values.
//!
//! Handles are 1-based so that 0 stays available as a "no handle" value
//! without an extra tag; a handle is only meaningful for the arena that
//! produced it.

use vstd::prelude::*;

verus! {

/// An opaque 1-based handle into an `Arena`.
///
/// Its mathematical view is the 1-based slot number it wraps.
#[derive(Clone, Copy, PartialEq, Eq, Structural, Debug)]
pub struct Id {
    value: usize,
}

impl View for Id {
    type V = int;

    closed spec fn view(&self) -> int {
        self.value as int
    }
}

impl Id {
    /// Turns a 0-based array position into the 1-based handle of that slot.
    pub fn from_array_index(index: usize) -> (r: Id)
        requires
            index < usize::MAX,
        ensures
            r@ == index + 1,
    {
        Id { value: index + 1 }
    }

    /// The 1-based number this handle wraps.
    pub fn value(&self) -> (r: usize)
        ensures
            r == self@,
    {
        self.value
    }
}

/// An append-only store of `T` values with stable handles.
///
/// Its view is the sequence of stored values; the value behind handle `id`
/// is the element at position `id@ - 1`.
#[derive(Debug)]
pub struct Arena<T> {
    backing_array: Vec<T>,
}

impl<T> View for Arena<T> {
    type V = Seq<T>;

    closed spec fn view(&self) -> Seq<T> {
        self.backing_array@
    }
}

impl<T> Arena<T> {
    /// An empty arena.
    pub fn new() -> (r: Self)
        ensures
            r@ == Seq::<T>::empty(),
    {
        Arena { backing_array: Vec::new() }
    }

    /// An empty arena with storage pre-reserved for `capacity` values.
    /// The hint changes no observable behavior.
    pub fn with_capacity(capacity: usize) -> (r: Self)
        ensures
            r@ == Seq::<T>::empty(),
    {
        Arena { backing_array: Vec::with_capacity(capacity) }
    }

    /// The number of values allocated so far.
    pub fn len(&self) -> (r: usize)
        ensures
            r == self@.len(),
    {
        self.backing_array.len()
    }

    /// Appends a value and returns its stable handle.
    pub fn allocate(&mut self, item: T) -> (r: Id)
        requires
            old(self)@.len() < usize::MAX,
        ensures
            final(self)@ == old(self)@.push(item),
            r@ == old(self)@.len() + 1,
    {
        self.backing_array.push(item);
        Id::from_array_index(self.backing_array.len() - 1)
    }

    /// The value behind a handle. Passing a handle this arena never
    /// produced is a contract violation.
    pub fn get(&self, id: &Id) -> (r: &T)
        requires
            1 <= id@ <= self@.len(),
        ensures
            *r == self@[id@ - 1],
    {
        &self.backing_array[id.value - 1]
    }

    /// Mutable access to the value behind a handle. Passing a handle this
    /// arena never produced is a contract violation.
    pub fn get_mut(&mut self, id: &Id) -> (r: &mut T)
        requires
            1 <= id@ <= old(self)@.len(),
        ensures
            *r == old(self)@[id@ - 1],
            final(self)@ == old(self)@.update(id@ - 1, *final(r)),
    {
        &mut self.backing_array[id.value - 1]
    }
}

} // verus!
