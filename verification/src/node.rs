//! The storage cell of a list.

use vstd::prelude::*;

verus! {

/// One element of a list: the value, and the slot of the cell that follows it.
pub struct Node<T> {
    /// The value held by this cell.
    pub val: T,
    /// The slot of the next cell in the chain, or `None` for the last cell.
    pub next: Option<usize>,
}

impl<T> Node<T> {
    /// A cell that holds `t` and is followed by nothing.
    pub fn new(t: T) -> (node: Node<T>)
        ensures
            node.val == t,
            node.next is None,
    {
        Node { val: t, next: None }
    }
}

} // verus!
