//! The storage unit of the singly linked list.
//!
//! All nodes of a list live in one arena (a vector owned by the list), and a
//! link to another node is the node's position in that arena.  A `next` link
//! of `None` marks the end of the chain.

use vstd::prelude::*;

verus! {

/// One cell of a singly linked list: a value together with the arena index of
/// the node that follows it, if any.
#[derive(Clone, Copy, Debug)]
pub struct Node<T> {
    pub value: T,
    pub next: Option<usize>,
}

impl<T: Copy> Node<T> {
    /// Make a detached node holding `value` whose link is `next`.
    pub fn new(value: T, next: Option<usize>) -> (node: Node<T>)
        ensures
            node.value == value,
            node.next == next,
    {
        Node { value, next }
    }

    /// Read the node's value.
    pub fn value(&self) -> (v: &T)
        ensures
            *v == self.value,
    {
        &self.value
    }

    /// Read the node's link.
    pub fn next(&self) -> (n: Option<usize>)
        ensures
            n == self.next,
    {
        self.next
    }
}

} // verus!
