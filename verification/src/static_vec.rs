//! Fixed-capacity vector.
//!
//! A sequence of at most `N` elements with a vector interface: `push` never
//! grows the capacity — it either succeeds or hands the rejected item back,
//! and the caller decides the policy.  Used for per-worker scratch storage
//! (syndrome-index lists and correction lists).

use vstd::prelude::*;

verus! {

/// Fixed-capacity vector holding at most `N` elements.
pub struct StaticVec<T, const N: usize> {
    data: Vec<T>,
}

impl<T, const N: usize> View for StaticVec<T, N> {
    type V = Seq<T>;

    closed spec fn view(&self) -> Seq<T> {
        self.data@
    }
}

impl<T, const N: usize> StaticVec<T, N> {
    /// Creates a new empty vector.
    pub fn new() -> (r: Self)
        ensures
            r@ == Seq::<T>::empty(),
    {
        StaticVec { data: Vec::new() }
    }

    /// Empties the vector.
    pub fn clear(&mut self)
        ensures
            final(self)@ == Seq::<T>::empty(),
    {
        self.data.clear();
    }

    /// Appends an element.  Fails, returning the rejected item, when the
    /// vector already holds `N` elements.
    pub fn push(&mut self, item: T) -> (r: Result<(), T>)
        ensures
            match r {
                Ok(()) => old(self)@.len() < N && final(self)@ == old(self)@.push(item),
                Err(it) => old(self)@.len() >= N && final(self)@ == old(self)@ && it == item,
            },
    {
        if self.data.len() < N {
            self.data.push(item);
            Ok(())
        } else {
            Err(item)
        }
    }

    /// Removes and returns the last element, or `None` when empty.
    pub fn pop(&mut self) -> (r: Option<T>)
        ensures
            match r {
                Some(it) => old(self)@.len() > 0 && it == old(self)@.last() && final(self)@ == old(
                    self,
                )@.drop_last(),
                None => old(self)@.len() == 0 && final(self)@ == old(self)@,
            },
    {
        self.data.pop()
    }

    /// Number of elements currently held.
    pub fn len(&self) -> (r: usize)
        ensures
            r == self@.len(),
    {
        self.data.len()
    }

    /// True when the vector holds no elements.
    pub fn is_empty(&self) -> (r: bool)
        ensures
            r == (self@.len() == 0),
    {
        self.data.len() == 0
    }

    /// The fixed capacity `N`.
    pub fn capacity(&self) -> (r: usize)
        ensures
            r == N,
    {
        N
    }

    /// A read-only slice of the elements.
    pub fn as_slice(&self) -> (r: &[T])
        ensures
            r@ == self@,
    {
        self.data.as_slice()
    }

    /// A mutable slice of the elements.
    pub fn as_mut_slice(&mut self) -> (r: &mut [T])
        ensures
            r@ == old(self)@,
            final(self)@ == final(r)@,
    {
        self.data.as_mut_slice()
    }

    /// The element at index `i`.
    pub fn get(&self, i: usize) -> (r: &T)
        requires
            i < self@.len(),
        ensures
            *r == self@[i as int],
    {
        vstd::slice::slice_index_get(self.data.as_slice(), i)
    }
}

} // verus!
