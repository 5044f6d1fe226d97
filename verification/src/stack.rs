//! The stack itself: the arena of nodes, the head link, and the atomic steps
//! that read and exchange it.

use vstd::prelude::*;
use crate::memory::Memory;
use crate::node::{reach, Link, Node};
use crate::op::{PopOp, Progress, PushOp};
use crate::schedule::Attempt;

verus! {

/// A Treiber stack whose nodes live in an arena and are named by slot number.
///
/// `head` changes in one place only, the exchange inside `try_push` and
/// `try_pop`, and only when it still holds the link that the caller loaded.
/// A slot is filled when its node is linked and emptied when the node is
/// unlinked; it is never filled again, so a stale link can never name a newer
/// node, and an exchange that succeeds has compared against the very node
/// that was loaded. Slots are not given back before the stack is dropped.
pub struct LockFreeStack<T> {
    head: Link,
    nodes: Vec<Option<Node<T>>>,
}

impl<T> View for LockFreeStack<T> {
    type V = Seq<T>;

    /// The elements, oldest first: the last one is the top.
    open spec fn view(&self) -> Seq<T> {
        self.memory().contents()
    }
}

impl<T> LockFreeStack<T> {
    /// The head link and the slots, as the model sees them.
    pub closed spec fn memory(&self) -> Memory<T> {
        Memory { slots: self.nodes@, head: self.head }
    }

    /// The chain from `head` is a list that holds every node in the arena once.
    pub open spec fn wf(&self) -> bool {
        self.memory().wf()
    }

    /// An empty stack.
    pub fn new() -> (stack: Self)
        ensures
            stack.wf(),
            stack.memory() == Memory::<T>::empty(),
            stack@ == Seq::<T>::empty(),
    {
        LockFreeStack { head: None, nodes: Vec::new() }
    }

    /// Loads the head link: the top node, or `None` when the stack is empty.
    pub fn load_head(&self) -> (current: Link)
        requires
            self.wf(),
        ensures
            current == self.memory().head,
            current is None <==> self@.len() == 0,
            current matches Some(n) ==> self.memory().live(n as int),
    {
        proof {
            self.memory().lemma_empty_iff_no_head();
        }
        self.head
    }

    /// Reads the `next` link of node `node`.
    ///
    /// The read claims nothing. When the node has been unlinked since its
    /// number was loaded, the read finds the slot empty and gives `None`; an
    /// exchange that expects that node as head then fails.
    pub fn read_next(&self, node: usize) -> (next: Link)
        requires
            self.wf(),
        ensures
            next == self.memory().next_of(node),
    {
        if node < self.nodes.len() {
            match &self.nodes[node] {
                Some(found) => found.next,
                None => None,
            }
        } else {
            None
        }
    }

    /// Links a new node that holds `data` in front of `current`, if `head` is
    /// still `current`; hands `data` back if `head` has moved.
    pub fn try_push(&mut self, data: T, current: Link) -> (outcome: Result<(), T>)
        requires
            old(self).wf(),
        ensures
            final(self).wf(),
            final(self).memory() == old(self).memory().after(Attempt::Push { data, current }),
            match outcome {
                Ok(()) => {
                    &&& old(self).memory().head == current
                    &&& final(self).memory() == old(self).memory().linked(data)
                    &&& final(self)@ == old(self)@.push(data)
                },
                Err(back) => {
                    &&& old(self).memory().head != current
                    &&& back == data
                    &&& final(self).memory() == old(self).memory()
                },
            },
    {
        if self.head != current {
            return Err(data);
        }
        let ghost before = self.memory();
        let index: usize = self.nodes.len();
        self.nodes.push(Some(Node { data, next: current }));
        self.head = Some(index);
        proof {
            assert(self.nodes.len() <= usize::MAX);
            before.lemma_linked(data);
        }
        Ok(())
    }

    /// Swings `head` from node `current_head` to `next` and takes the node's
    /// element, if `head` still names that node; does nothing if `head` has
    /// moved.
    ///
    /// `next` is the link read from node `current_head`, at any time since its
    /// number was loaded from `head`.
    pub fn try_pop(&mut self, current_head: usize, next: Link) -> (outcome: Option<T>)
        requires
            old(self).wf(),
            old(self).memory().admits(Attempt::<T>::Pop { current_head, next }),
        ensures
            final(self).wf(),
            final(self).memory() == old(self).memory().after(Attempt::<T>::Pop { current_head, next }),
            match outcome {
                Some(data) => {
                    &&& old(self).memory().head == Some(current_head)
                    &&& final(self).memory() == old(self).memory().unlinked()
                    &&& old(self)@.len() > 0
                    &&& data == old(self)@.last()
                    &&& final(self)@ == old(self)@.drop_last()
                },
                None => {
                    &&& old(self).memory().head != Some(current_head)
                    &&& final(self).memory() == old(self).memory()
                },
            },
    {
        if self.head != Some(current_head) {
            return None;
        }
        proof {
            self.memory().lemma_unlinked();
        }
        let slot = &mut self.nodes[current_head];
        let taken = slot.take();
        self.head = next;
        match taken {
            Some(node) => Some(node.data),
            None => None,
        }
    }

    /// Puts `data` on top of the stack.
    ///
    /// Runs the steps of one push to the end. The caller holds the stack
    /// alone for the length of the call, so no step of another operation
    /// comes between the load and the exchange, and the exchange succeeds.
    pub fn push(&mut self, data: T)
        requires
            old(self).wf(),
        ensures
            final(self).wf(),
            final(self).memory() == old(self).memory().linked(data),
            final(self)@ == old(self)@.push(data),
    {
        let ghost before = self.memory();
        let mut op = PushOp::new(data);
        loop
            invariant_except_break
                self.wf(),
                self.memory() == before,
                op.data() == data,
                op matches PushOp::Exchange { current, .. } ==> current == before.head,
            ensures
                self.wf(),
                self.memory() == before.linked(data),
                self@ == before.contents().push(data),
            decreases op.steps_left(),
        {
            match op.step(self) {
                Progress::Pending(next) => {
                    op = next;
                },
                Progress::Done(()) => {
                    break ;
                },
            }
        }
    }

    /// Takes the top element off the stack, or gives `None` when the stack is
    /// empty.
    ///
    /// Runs the steps of one pop to the end; as in `push`, no exchange fails.
    pub fn pop(&mut self) -> (top: Option<T>)
        requires
            old(self).wf(),
        ensures
            final(self).wf(),
            old(self)@.len() == 0 ==> top is None && final(self).memory() == old(self).memory(),
            old(self)@.len() > 0 ==> top == Some(old(self)@.last()) && final(self)@ == old(
                self,
            )@.drop_last() && final(self).memory() == old(self).memory().unlinked(),
    {
        let ghost before = self.memory();
        let mut op = PopOp::new();
        loop
            invariant
                self.wf(),
                before == old(self).memory(),
                self.memory() == before,
                op matches PopOp::Read { current_head } ==> before.head == Some(current_head),
                op matches PopOp::Exchange { current_head, next } ==> before.head == Some(
                    current_head,
                ) && next == before.next_of(current_head),
            decreases op.steps_left(),
        {
            match op.step(self) {
                Progress::Pending(next) => {
                    op = next;
                },
                Progress::Done(top) => {
                    return top;
                },
            }
        }
    }

    /// The number of elements, counted by walking the chain from `head`.
    ///
    /// The walk is many reads, not one step. The borrow keeps every exchange
    /// out while it lasts, so the count is that of one moment; a count that
    /// races with exchanges would be of no moment at all.
    pub fn len(&self) -> (count: u64)
        requires
            self.wf(),
        ensures
            count == self@.len(),
    {
        let mut current = self.load_head();
        let mut count: u64 = 0;
        proof {
            self.memory().lemma_chain_len(self.memory().head);
        }
        loop
            invariant
                self.wf(),
                current matches Some(n) ==> self.memory().live(n as int),
                count + self.memory().chain(current).len() == self@.len(),
                self@.len() <= usize::MAX,
            ensures
                count == self@.len(),
            decreases reach(current),
        {
            match current {
                Some(node) => {
                    count = count + 1;
                    current = self.read_next(node);
                },
                None => {
                    break ;
                },
            }
        }
        count
    }
}

} // verus!
