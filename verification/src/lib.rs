//! A Treiber stack over an index arena.
//!
//! The stack is a singly linked chain of nodes reached from one `head` link,
//! and every change to it is a single compare-and-exchange of that link: a
//! push swings `head` to a new node, a pop swings it to the second node, and
//! either does so only if `head` still holds what the operation loaded.
//!
//! Nodes live in numbered slots, and a link is a slot number. A number, once
//! given out, is never given out again, so an exchange cannot mistake a newer
//! node for the one it loaded. The price is that the arena grows with the
//! number of pushes, not with the number of elements held.
//!
//! Nothing here is shared between threads. Each atomic step is a function that
//! borrows the stack, and an operation in flight is a value that says which
//! step it takes next. Whoever holds the stack runs the steps of as many
//! operations as it likes, in any order; that order is the interleaving. What
//! is proved holds for every such order: each step keeps the chain well
//! formed, the contents change only when an exchange succeeds, and no element
//! is lost or handed out twice.
//!
//! - [`stack`]: the stack, its atomic steps, and `push`, `pop` and `len`.
//! - [`op`]: pushes and pops in flight.
//! - [`memory`]: the mathematical model of the slots and the head link.
//! - [`schedule`]: sequences of attempted exchanges, and what holds of all of
//!   them.
//! - [`node`]: nodes and links.

pub mod memory;
pub mod node;
pub mod op;
pub mod schedule;
pub mod stack;

pub use crate::node::Node;
pub use crate::stack::LockFreeStack;
