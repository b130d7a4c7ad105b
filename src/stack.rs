//! A stack built from singly linked, boxed nodes.
use vstd::prelude::*;

verus! {

struct Node<T> {
    val: T,
    next: Option<Box<Node<T>>>,
}

/// The values held from `link` on, nearest first.
spec fn link_view<T>(link: Option<Box<Node<T>>>) -> Seq<T>
    decreases link,
{
    match link {
        None => Seq::empty(),
        Some(node) => seq![node.val] + link_view(node.next),
    }
}

/// A last-in, first-out stack.
pub struct Stack<T> {
    head: Option<Box<Node<T>>>,
}

impl<T: Copy> Stack<T> {
    /// The values on the stack, top first.
    pub closed spec fn view(&self) -> Seq<T> {
        link_view(self.head)
    }

    pub fn new() -> (s: Self)
        ensures
            s@ == Seq::<T>::empty(),
    {
        Self { head: None }
    }

    /// The value on top, if any.
    pub fn peek(&self) -> (r: Option<T>)
        ensures
            self@.len() == 0 ==> r is None,
            self@.len() > 0 ==> r == Some(self@[0]),
    {
        match &self.head {
            None => None,
            Some(node) => Some(node.val),
        }
    }

    /// Takes the value off the top, if any.
    pub fn pop(&mut self) -> (r: Option<T>)
        ensures
            old(self)@.len() == 0 ==> r is None && final(self)@ == old(self)@,
            old(self)@.len() > 0 ==> r == Some(old(self)@[0]) && final(self)@ == old(self)@.drop_first(),
    {
        match self.head.take() {
            None => None,
            Some(node) => {
                let node = *node;
                self.head = node.next;
                proof {
                    assert(old(self)@.drop_first() =~= link_view(self.head));
                }
                Some(node.val)
            },
        }
    }

    /// Puts a value on top.
    pub fn push(&mut self, val: T)
        ensures
            final(self)@ == seq![val] + old(self)@,
    {
        let next = self.head.take();
        self.head = Some(Box::new(Node { val, next }));
    }
}

} // verus!
