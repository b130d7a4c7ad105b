//! A growable array that doubles its storage when it runs full.
use vstd::prelude::*;
use crate::error::AccessError;

verus! {

const INITIAL_CAP: usize = 5;

/// A list of values stored at the front of a fixed block, which is replaced
/// by one twice as large when it runs full.
pub struct ArrayList<T> {
    length: usize,
    capacity: usize,
    arr: Vec<T>,
}

impl<T: Copy + Default> ArrayList<T> {
    /// The values held, in order.
    pub closed spec fn view(&self) -> Seq<T> {
        self.arr@.subrange(0, self.length as int)
    }

    /// The block has `capacity` slots, of which the first `length` are in use.
    pub closed spec fn wf(&self) -> bool {
        &&& self.arr@.len() == self.capacity
        &&& self.length <= self.capacity
        &&& self.capacity > 0
    }

    pub fn new() -> (a: Self)
        ensures
            a.wf(),
            a@ == Seq::<T>::empty(),
    {
        let arr = vec![T::default(); INITIAL_CAP];
        Self { length: 0, capacity: INITIAL_CAP, arr }
    }

    /// Appends a value at the end.
    pub fn push(&mut self, val: T)
        requires
            old(self).wf(),
            old(self)@.len() < usize::MAX,
        ensures
            final(self).wf(),
            final(self)@ == old(self)@.push(val),
    {
        if self.length == self.capacity {
            let new_capacity = if self.capacity <= usize::MAX / 2 {
                self.capacity * 2
            } else {
                usize::MAX
            };
            let mut new_arr = vec![T::default(); new_capacity];
            let mut i: usize = 0;
            while i < self.length
                invariant
                    self.wf(),
                    self.length == self.capacity,
                    new_arr@.len() == new_capacity,
                    new_capacity > self.capacity,
                    i <= self.length,
                    forall|k: int| 0 <= k < i ==> new_arr@[k] == self.arr@[k],
                decreases self.length - i,
            {
                new_arr.set(i, self.arr[i]);
                i = i + 1;
            }
            assert(new_arr@.subrange(0, self.length as int) =~= self@);
            self.arr = new_arr;
            self.capacity = new_capacity;
        }
        let ghost before = self@;
        self.arr.set(self.length, val);
        self.length = self.length + 1;
        assert(self@ =~= before.push(val));
    }

    /// The value at index `i`.
    pub fn at(&self, i: usize) -> (r: Result<T, AccessError>)
        requires
            self.wf(),
        ensures
            i < self@.len() ==> r == Ok::<T, AccessError>(self@[i as int]),
            i >= self@.len() ==> r == Err::<T, AccessError>(AccessError::OutOfBounds(i)),
    {
        if i >= self.length {
            return Err(AccessError::OutOfBounds(i));
        }
        Ok(self.arr[i])
    }

    /// Takes the last value off the end.
    pub fn pop(&mut self) -> (r: Result<T, AccessError>)
        requires
            old(self).wf(),
        ensures
            final(self).wf(),
            old(self)@.len() == 0 ==> r == Err::<T, AccessError>(AccessError::Empty) && final(self)@ == old(self)@,
            old(self)@.len() > 0 ==> r == Ok::<T, AccessError>(old(self)@.last()) && final(self)@
                == old(self)@.drop_last(),
    {
        if self.length == 0 {
            return Err(AccessError::Empty);
        }
        self.length = self.length - 1;
        assert(self@ =~= old(self)@.drop_last());
        Ok(self.arr[self.length])
    }
}

} // verus!
