//! A singly linked list with stack (last in, first out) behaviour,
//! built from boxed nodes.  Its view is the sequence of elements from
//! the most recently pushed to the oldest.

use vstd::prelude::*;

verus! {

/// One list cell.
pub struct Node<T> {
    data: T,
    next: Option<Box<Node<T>>>,
}

/// The list itself: a chain of nodes starting at `head`.
pub struct LinkList<T> {
    head: Option<Box<Node<T>>>,
}

spec fn node_seq<T>(n: Option<Box<Node<T>>>) -> Seq<T>
    decreases n,
{
    match n {
        None => Seq::empty(),
        Some(b) => seq![b.data] + node_seq(b.next),
    }
}

impl<T> View for LinkList<T> {
    type V = Seq<T>;

    closed spec fn view(&self) -> Seq<T> {
        node_seq(self.head)
    }
}

impl<T> Default for LinkList<T> {
    /// An empty list.
    fn default() -> (r: Self)
        ensures
            r@ == Seq::<T>::empty(),
    {
        LinkList { head: None }
    }
}

impl<T> LinkList<T> {
    /// Push `data` on the front of the list.
    pub fn push(&mut self, data: T)
        ensures
            final(self)@ == seq![data] + old(self)@,
    {
        let mut next: Option<Box<Node<T>>> = None;
        core::mem::swap(&mut self.head, &mut next);
        self.head = Some(Box::new(Node { data, next }));
    }

    /// Pop the most recently pushed element, if any.
    pub fn pop(&mut self) -> (r: Option<T>)
        ensures
            old(self)@.len() == 0 ==> r is None && final(self)@ == old(self)@,
            old(self)@.len() > 0 ==> r == Some(old(self)@[0]) && final(self)@ == old(
                self,
            )@.skip(1),
    {
        let mut taken: Option<Box<Node<T>>> = None;
        core::mem::swap(&mut self.head, &mut taken);
        match taken {
            Some(node) => {
                let n = *node;
                self.head = n.next;
                proof {
                    assert((seq![n.data] + node_seq(n.next)).skip(1) =~= node_seq(n.next));
                }
                Some(n.data)
            },
            None => None,
        }
    }

    /// The elements in list order, newest first.
    pub fn iter(&self) -> (r: Vec<T>) where T: Copy
        ensures
            r@ == self@,
    {
        let mut r: Vec<T> = Vec::new();
        let mut cur: &Option<Box<Node<T>>> = &self.head;
        while cur.is_some()
            invariant
                r@ + node_seq(*cur) == self@,
            decreases node_seq(*cur).len(),
        {
            let b = cur.as_ref().unwrap();
            r.push(b.data);
            proof {
                assert(r@ + node_seq(b.next) =~= self@);
            }
            cur = &b.next;
        }
        proof {
            assert(r@ + node_seq(*cur) =~= r@);
        }
        r
    }
}

} // verus!
