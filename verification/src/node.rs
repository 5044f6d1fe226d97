//! Nodes and the links between them.

use vstd::prelude::*;

verus! {

/// What a slot that refers to a node holds: the number of the node's slot, or
/// `None` where there is no node.
pub type Link = Option<usize>;

/// One element of the stack, with the link to the element pushed before it.
pub struct Node<T> {
    pub data: T,
    pub next: Link,
}

/// How far up the arena a link reaches: one more than the slot it names, and
/// zero for the empty link.
pub open spec fn reach(link: Link) -> nat {
    match link {
        Some(n) => n as nat + 1,
        None => 0,
    }
}

} // verus!
