//! A binary min-heap.
use vstd::prelude::*;
use vstd::multiset::Multiset;

verus! {

broadcast use {vstd::seq_lib::group_to_multiset_ensures, vstd::multiset::group_multiset_properties};

/// What a heap orders its items by.
pub trait HeapItem: Sized + Copy {
    /// The key that the heap orders by: the smallest key comes out first.
    spec fn key(&self) -> int;

    /// Whether this item's key is smaller than the other's.
    fn precedes(&self, other: &Self) -> (r: bool)
        ensures
            r == (self.key() < other.key()),
    ;
}

impl HeapItem for i32 {
    open spec fn key(&self) -> int {
        *self as int
    }

    fn precedes(&self, other: &Self) -> (r: bool) {
        *self < *other
    }
}

pub open spec fn parent(i: int) -> int {
    (i - 1) / 2
}

/// A min-heap: the item at the front has the smallest key.
pub struct PriorityQueue<T> {
    a: Vec<T>,
}

impl<T: HeapItem> PriorityQueue<T> {
    /// The items that the queue holds.
    pub closed spec fn view(&self) -> Multiset<T> {
        self.a@.to_multiset()
    }

    /// No item has a smaller key than its parent's.
    pub closed spec fn wf(&self) -> bool {
        forall|i: int| 0 < i < self.a@.len() ==> (#[trigger] self.a@[i]).key() >= self.a@[parent(i)].key()
    }

    pub fn new() -> (q: Self)
        ensures
            q.wf(),
            q@ =~= Multiset::empty(),
    {
        Self { a: Vec::new() }
    }

    pub fn len(&self) -> (r: usize)
        ensures
            r == self@.len(),
    {
        self.a.len()
    }

    /// Every edge of the tree is in order, except those that go down from `i`;
    /// and the parent of `i` does not exceed the children of `i`.
    closed spec fn ordered_below_except(s: Seq<T>, i: int) -> bool {
        &&& forall|j: int|
            0 < j < s.len() && parent(j) != i ==> (#[trigger] s[j]).key() >= s[parent(j)].key()
        &&& forall|j: int|
            0 < j < s.len() && parent(j) == i && i > 0 ==> (#[trigger] s[j]).key() >= s[parent(i)].key()
    }

    /// Every edge of the tree is in order, except the one that goes up from `i`;
    /// and the parent of `i` does not exceed the children of `i`.
    closed spec fn ordered_above_except(s: Seq<T>, i: int) -> bool {
        &&& forall|j: int| 0 < j < s.len() && j != i ==> (#[trigger] s[j]).key() >= s[parent(j)].key()
        &&& forall|j: int|
            0 < j < s.len() && parent(j) == i && i > 0 ==> (#[trigger] s[j]).key() >= s[parent(i)].key()
    }

    /// In a heap, the front item has the smallest key.
    proof fn lemma_front_is_least(&self, j: int)
        requires
            self.wf(),
            0 <= j < self.a@.len(),
        ensures
            self.a@[0].key() <= self.a@[j].key(),
        decreases j,
    {
        if j > 0 {
            self.lemma_front_is_least(parent(j));
        }
    }

    /// Moves the item at `i` down until neither of its children is smaller.
    fn heapify_down(&mut self, i: usize)
        requires
            i < old(self).a@.len(),
            Self::ordered_below_except(old(self).a@, i as int),
        ensures
            final(self).wf(),
            final(self)@ == old(self)@,
            final(self).a@.len() == old(self).a@.len(),
        decreases old(self).a@.len() - i,
    {
        let len = self.a.len();
        if len < 2 || i > (len - 2) / 2 {
            return;
        }
        let l = 2 * i + 1;
        let r = l + 1;
        let c = if r >= len || self.a[l].precedes(&self.a[r]) {
            l
        } else {
            r
        };
        if self.a[c].precedes(&self.a[i]) {
            self.swap(i, c);
            self.heapify_down(c);
        }
    }

    /// Moves the item at `i` up until its parent is not larger.
    fn heapify_up(&mut self, i: usize)
        requires
            i < old(self).a@.len(),
            Self::ordered_above_except(old(self).a@, i as int),
        ensures
            final(self).wf(),
            final(self)@ == old(self)@,
            final(self).a@.len() == old(self).a@.len(),
        decreases i,
    {
        if i < 1 {
            return;
        }
        let p = (i - 1) / 2;
        if self.a[i].precedes(&self.a[p]) {
            self.swap(p, i);
            self.heapify_up(p);
        }
    }

    /// Takes out an item with the smallest key, if there is any.
    pub fn pop(&mut self) -> (r: Option<T>)
        requires
            old(self).wf(),
        ensures
            final(self).wf(),
            old(self)@.len() == 0 ==> r is None && final(self)@ == old(self)@,
            old(self)@.len() > 0 ==> (r matches Some(x) && {
                &&& old(self)@.contains(x)
                &&& final(self)@ == old(self)@.remove(x)
                &&& forall|y: T| old(self)@.contains(y) ==> x.key() <= y.key()
            }),
    {
        if self.a.len() > 0 {
            let res = self.a[0];
            proof {
                assert forall|y: T| old(self)@.contains(y) implies res.key() <= y.key() by {
                    let j = choose|j: int| 0 <= j < self.a@.len() && self.a@[j] == y;
                    self.lemma_front_is_least(j);
                }
            }
            let ghost s = self.a@;
            match self.a.pop() {
                Some(last) => {
                    proof {
                        assert(s =~= self.a@.push(last));
                    }
                    if self.a.len() > 0 {
                        self.a.set(0, last);
                        self.heapify_down(0);
                    }
                },
                None => {},
            }
            Some(res)
        } else {
            None
        }
    }

    /// Adds an item.
    pub fn push(&mut self, value: T)
        requires
            old(self).wf(),
        ensures
            final(self).wf(),
            final(self)@ == old(self)@.insert(value),
    {
        self.a.push(value);
        self.heapify_up(self.a.len() - 1);
    }

    /// Exchanges the items at `i` and `j`.
    fn swap(&mut self, i: usize, j: usize)
        requires
            i < old(self).a@.len(),
            j < old(self).a@.len(),
        ensures
            final(self).a@ == old(self).a@.update(i as int, old(self).a@[j as int]).update(
                j as int,
                old(self).a@[i as int],
            ),
            final(self)@ == old(self)@,
    {
        let x = self.a[i];
        let y = self.a[j];
        self.a.set(i, y);
        self.a.set(j, x);
        proof {
            let s = old(self).a@;
            assert(s.update(i as int, s[j as int]).update(j as int, s[i as int]).to_multiset()
                =~= s.to_multiset());
        }
    }
}

} // verus!
