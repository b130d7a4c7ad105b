//! A first-in, first-out queue.
use vstd::prelude::*;
use std::collections::VecDeque;

verus! {

/// A first-in, first-out queue.
pub struct Queue<T> {
    items: VecDeque<T>,
}

impl<T: Copy> Queue<T> {
    /// The values in the queue, front first.
    pub closed spec fn view(&self) -> Seq<T> {
        self.items@
    }

    pub fn new() -> (q: Self)
        ensures
            q@ == Seq::<T>::empty(),
    {
        Self { items: VecDeque::new() }
    }

    /// The value at the front, if any.
    pub fn peek(&self) -> (r: Option<T>)
        ensures
            self@.len() == 0 ==> r is None,
            self@.len() > 0 ==> r == Some(self@[0]),
    {
        if self.items.len() == 0 {
            None
        } else {
            Some(self.items[0])
        }
    }

    /// Takes the value off the front, if any.
    pub fn deque(&mut self) -> (r: Option<T>)
        ensures
            old(self)@.len() == 0 ==> r is None && final(self)@ == old(self)@,
            old(self)@.len() > 0 ==> r == Some(old(self)@[0]) && final(self)@ == old(self)@.drop_first(),
    {
        self.items.pop_front()
    }

    /// Adds a value at the back.
    pub fn enqueue(&mut self, val: T)
        ensures
            final(self)@ == old(self)@.push(val),
    {
        self.items.push_back(val);
    }
}

} // verus!
