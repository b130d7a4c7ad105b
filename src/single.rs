//! A singly linked list of boxed nodes, with access by position.
use vstd::prelude::*;
use crate::error::AccessError;

verus! {

struct Node<T> {
    val: T,
    next: Option<Box<Node<T>>>,
}

/// The values held from `link` on, nearest first.
spec fn link_view<T>(link: Option<Box<Node<T>>>) -> Seq<T>
    decreases link,
{
    match link {
        None => Seq::empty(),
        Some(node) => seq![node.val] + link_view(node.next),
    }
}

/// The value at position `i` from `link` on.
fn get_link<T: Copy>(link: &Option<Box<Node<T>>>, i: usize) -> (r: Option<T>)
    ensures
        i < link_view(*link).len() ==> r == Some(link_view(*link)[i as int]),
        i >= link_view(*link).len() ==> r is None,
    decreases i,
{
    match link {
        None => None,
        Some(node) => {
            if i == 0 {
                Some(node.val)
            } else {
                get_link(&node.next, i - 1)
            }
        },
    }
}

/// Inserts `val` at position `i` from `link` on, if `i` is at most the length.
fn insert_link<T: Copy>(link: &mut Option<Box<Node<T>>>, i: usize, val: T) -> (ok: bool)
    ensures
        ok == (i <= link_view(*old(link)).len()),
        ok ==> link_view(*final(link)) == link_view(*old(link)).insert(i as int, val),
        !ok ==> link_view(*final(link)) == link_view(*old(link)),
    decreases i,
{
    if i == 0 {
        let next = link.take();
        *link = Some(Box::new(Node { val, next }));
        proof {
            assert(link_view(*link) =~= link_view(*old(link)).insert(0, val));
        }
        return true;
    }
    match link.take() {
        None => false,
        Some(boxed) => {
            let mut node = *boxed;
            let ghost rest = link_view(node.next);
            let ok = insert_link(&mut node.next, i - 1, val);
            *link = Some(Box::new(node));
            proof {
                if ok {
                    assert(link_view(*link) =~= link_view(*old(link)).insert(i as int, val));
                }
            }
            ok
        },
    }
}

/// Takes out the value at position `i` from `link` on, if there is one.
fn delete_link<T: Copy>(link: &mut Option<Box<Node<T>>>, i: usize) -> (r: Option<T>)
    ensures
        i < link_view(*old(link)).len() ==> r == Some(link_view(*old(link))[i as int]) && link_view(
            *final(link),
        ) == link_view(*old(link)).remove(i as int),
        i >= link_view(*old(link)).len() ==> r is None && link_view(*final(link)) == link_view(
            *old(link),
        ),
    decreases i,
{
    match link.take() {
        None => None,
        Some(boxed) => {
            let mut node = *boxed;
            if i == 0 {
                *link = node.next;
                proof {
                    assert(link_view(*link) =~= link_view(*old(link)).remove(0));
                }
                Some(node.val)
            } else {
                let r = delete_link(&mut node.next, i - 1);
                *link = Some(Box::new(node));
                proof {
                    if r is Some {
                        assert(link_view(*link) =~= link_view(*old(link)).remove(i as int));
                    } else {
                        assert(link_view(*link) =~= link_view(*old(link)));
                    }
                }
                r
            }
        },
    }
}

/// A singly linked list whose front is its first position.
pub struct List<T> {
    head: Option<Box<Node<T>>>,
}

impl<T: Copy> List<T> {
    /// The values held, front first.
    pub closed spec fn view(&self) -> Seq<T> {
        link_view(self.head)
    }

    pub fn new() -> (l: Self)
        ensures
            l@ == Seq::<T>::empty(),
    {
        Self { head: None }
    }

    /// Puts a value at the front.
    pub fn push(&mut self, val: T)
        ensures
            final(self)@ == seq![val] + old(self)@,
    {
        let next = self.head.take();
        self.head = Some(Box::new(Node { val, next }));
    }

    /// Takes the value off the front.
    pub fn pop(&mut self) -> (r: Result<T, AccessError>)
        ensures
            old(self)@.len() == 0 ==> r == Err::<T, AccessError>(AccessError::Empty) && final(self)@ == old(self)@,
            old(self)@.len() > 0 ==> r == Ok::<T, AccessError>(old(self)@[0]) && final(self)@
                == old(self)@.drop_first(),
    {
        match self.head.take() {
            None => Err(AccessError::Empty),
            Some(node) => {
                let node = *node;
                self.head = node.next;
                proof {
                    assert(old(self)@.drop_first() =~= self@);
                }
                Ok(node.val)
            },
        }
    }

    /// The value at position `i`.
    pub fn get_at(&self, i: usize) -> (r: Result<T, AccessError>)
        ensures
            self@.len() == 0 ==> r == Err::<T, AccessError>(AccessError::Empty),
            0 < self@.len() <= i ==> r == Err::<T, AccessError>(AccessError::OutOfBounds(i)),
            i < self@.len() ==> r == Ok::<T, AccessError>(self@[i as int]),
    {
        if self.head.is_none() {
            return Err(AccessError::Empty);
        }
        match get_link(&self.head, i) {
            Some(v) => Ok(v),
            None => Err(AccessError::OutOfBounds(i)),
        }
    }

    /// Takes out the value at position `i`.
    pub fn delete_at(&mut self, i: usize) -> (r: Result<T, AccessError>)
        ensures
            old(self)@.len() == 0 ==> r == Err::<T, AccessError>(AccessError::Empty) && final(self)@ == old(self)@,
            0 < old(self)@.len() <= i ==> r == Err::<T, AccessError>(AccessError::OutOfBounds(i))
                && final(self)@ == old(self)@,
            i < old(self)@.len() ==> r == Ok::<T, AccessError>(old(self)@[i as int]) && final(self)@
                == old(self)@.remove(i as int),
    {
        if self.head.is_none() {
            return Err(AccessError::Empty);
        }
        match delete_link(&mut self.head, i) {
            Some(v) => Ok(v),
            None => Err(AccessError::OutOfBounds(i)),
        }
    }

    /// Inserts a value at position `i`, at most the length; the values from
    /// `i` on move one place back.
    pub fn insert_at(&mut self, i: usize, val: T) -> (r: Result<(), AccessError>)
        ensures
            i == 0 || 0 < i <= old(self)@.len() ==> r is Ok && final(self)@ == old(self)@.insert(
                i as int,
                val,
            ),
            i > 0 && old(self)@.len() == 0 ==> r == Err::<(), AccessError>(AccessError::Empty)
                && final(self)@ == old(self)@,
            0 < old(self)@.len() < i ==> r == Err::<(), AccessError>(AccessError::OutOfBounds(i))
                && final(self)@ == old(self)@,
    {
        if i == 0 {
            self.push(val);
            assert(self@ =~= old(self)@.insert(0, val));
            return Ok(());
        }
        if self.head.is_none() {
            return Err(AccessError::Empty);
        }
        if insert_link(&mut self.head, i, val) {
            Ok(())
        } else {
            Err(AccessError::OutOfBounds(i))
        }
    }
}

} // verus!
