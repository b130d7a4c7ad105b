//! A list that grows at both ends and takes insertions anywhere.
use vstd::prelude::*;
use std::collections::VecDeque;
use crate::error::AccessError;

verus! {

/// A list with cheap insertion at the front and the back.
pub struct List<T> {
    items: VecDeque<T>,
}

impl<T: Copy> List<T> {
    /// The values held, front first.
    pub closed spec fn view(&self) -> Seq<T> {
        self.items@
    }

    pub fn new() -> (l: Self)
        ensures
            l@ == Seq::<T>::empty(),
    {
        Self { items: VecDeque::new() }
    }

    /// The number of values held.
    pub fn len(&self) -> (r: usize)
        ensures
            r == self@.len(),
    {
        self.items.len()
    }

    /// The value at position `i`.
    pub fn get(&self, i: usize) -> (r: Result<T, AccessError>)
        ensures
            i < self@.len() ==> r == Ok::<T, AccessError>(self@[i as int]),
            i >= self@.len() ==> r == Err::<T, AccessError>(AccessError::OutOfBounds(i)),
    {
        if i >= self.items.len() {
            return Err(AccessError::OutOfBounds(i));
        }
        Ok(self.items[i])
    }

    /// Adds a value at the back.
    pub fn append(&mut self, val: T)
        ensures
            final(self)@ == old(self)@.push(val),
    {
        self.items.push_back(val);
    }

    /// Adds a value at the front.
    pub fn prepend(&mut self, val: T)
        ensures
            final(self)@ == seq![val] + old(self)@,
    {
        self.items.push_front(val);
    }

    /// Inserts a value at position `i`, at most the length; the values from
    /// `i` on move one place back.
    pub fn insert_at(&mut self, i: usize, val: T) -> (r: Result<(), AccessError>)
        ensures
            i <= old(self)@.len() ==> r is Ok && final(self)@ == old(self)@.insert(i as int, val),
            i > old(self)@.len() ==> r == Err::<(), AccessError>(AccessError::OutOfBounds(i))
                && final(self)@ == old(self)@,
    {
        if i > self.items.len() {
            return Err(AccessError::OutOfBounds(i));
        }
        self.items.insert(i, val);
        Ok(())
    }
}

} // verus!
