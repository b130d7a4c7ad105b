//! A double-ended buffer over a circular block that doubles when it runs full.
use vstd::prelude::*;
use crate::error::AccessError;

verus! {

const INITIAL_CAP: usize = 5;

/// A sequence of values kept in a circular block: the first sits at `start`,
/// the others follow, wrapping round to the block's front.
pub struct RingBuffer<T> {
    start: usize,
    length: usize,
    capacity: usize,
    arr: Vec<T>,
}

impl<T: Copy + Default> RingBuffer<T> {
    /// The slot of the block that holds the value at position `k`.
    pub closed spec fn slot(&self, k: int) -> int {
        if self.start + k < self.capacity {
            self.start + k
        } else {
            self.start + k - self.capacity
        }
    }

    /// The values held, first to last.
    pub closed spec fn view(&self) -> Seq<T> {
        Seq::new(self.length as nat, |k: int| self.arr@[self.slot(k)])
    }

    pub closed spec fn wf(&self) -> bool {
        &&& self.arr@.len() == self.capacity
        &&& self.capacity > 0
        &&& self.start < self.capacity
        &&& self.length <= self.capacity
    }

    /// The slot of the block that holds the value at position `k`.
    fn wrap(&self, k: usize) -> (r: usize)
        requires
            self.wf(),
            k < self.capacity,
        ensures
            r == self.slot(k as int),
            r < self.capacity,
    {
        if k < self.capacity - self.start {
            self.start + k
        } else {
            k - (self.capacity - self.start)
        }
    }

    pub fn new() -> (r: Self)
        ensures
            r.wf(),
            r@ == Seq::<T>::empty(),
    {
        let arr = vec![T::default(); INITIAL_CAP];
        let r = Self { start: 0, length: 0, capacity: INITIAL_CAP, arr };
        assert(r@ =~= Seq::<T>::empty());
        r
    }

    /// The number of values held.
    pub fn len(&self) -> (r: usize)
        ensures
            r == self@.len(),
    {
        self.length
    }

    /// Appends a value at the back.
    pub fn push(&mut self, val: T)
        requires
            old(self).wf(),
            old(self)@.len() < usize::MAX,
        ensures
            final(self).wf(),
            final(self)@ == old(self)@.push(val),
    {
        if self.length == self.capacity {
            let new_capacity = if self.capacity <= usize::MAX / 2 {
                self.capacity * 2
            } else {
                usize::MAX
            };
            let mut new_arr = vec![T::default(); new_capacity];
            let mut i: usize = 0;
            while i < self.length
                invariant
                    self.wf(),
                    self.length == self.capacity,
                    new_arr@.len() == new_capacity,
                    new_capacity > self.capacity,
                    i <= self.length,
                    forall|k: int| 0 <= k < i ==> new_arr@[k] == self@[k],
                decreases self.length - i,
            {
                let j = self.wrap(i);
                new_arr.set(i, self.arr[j]);
                i = i + 1;
            }
            let ghost before = self@;
            self.arr = new_arr;
            self.capacity = new_capacity;
            self.start = 0;
            assert(self@ =~= before);
        }
        let ghost before = self@;
        let j = self.wrap(self.length);
        self.arr.set(j, val);
        self.length = self.length + 1;
        assert(self@ =~= before.push(val));
    }

    /// The value at position `i`.
    pub fn at(&self, i: usize) -> (r: Result<T, AccessError>)
        requires
            self.wf(),
        ensures
            i < self@.len() ==> r == Ok::<T, AccessError>(self@[i as int]),
            i >= self@.len() ==> r == Err::<T, AccessError>(AccessError::OutOfBounds(i)),
    {
        if i >= self.length {
            return Err(AccessError::OutOfBounds(i));
        }
        let j = self.wrap(i);
        Ok(self.arr[j])
    }

    /// Takes the value off the back.
    pub fn pop(&mut self) -> (r: Result<T, AccessError>)
        requires
            old(self).wf(),
        ensures
            final(self).wf(),
            old(self)@.len() == 0 ==> r == Err::<T, AccessError>(AccessError::Empty) && final(self)@ == old(self)@,
            old(self)@.len() > 0 ==> r == Ok::<T, AccessError>(old(self)@.last()) && final(self)@
                == old(self)@.drop_last(),
    {
        if self.length == 0 {
            return Err(AccessError::Empty);
        }
        self.length = self.length - 1;
        let j = self.wrap(self.length);
        assert(self@ =~= old(self)@.drop_last());
        Ok(self.arr[j])
    }

    /// Takes the value off the front.
    pub fn deque(&mut self) -> (r: Result<T, AccessError>)
        requires
            old(self).wf(),
        ensures
            final(self).wf(),
            old(self)@.len() == 0 ==> r == Err::<T, AccessError>(AccessError::Empty) && final(self)@ == old(self)@,
            old(self)@.len() > 0 ==> r == Ok::<T, AccessError>(old(self)@[0]) && final(self)@
                == old(self)@.drop_first(),
    {
        if self.length == 0 {
            return Err(AccessError::Empty);
        }
        let first = self.arr[self.start];
        self.start = if self.start + 1 == self.capacity {
            0
        } else {
            self.start + 1
        };
        self.length = self.length - 1;
        assert(self@ =~= old(self)@.drop_first());
        Ok(first)
    }
}

} // verus!
