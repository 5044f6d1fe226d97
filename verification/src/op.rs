//! Operations in flight: a push or a pop as the state it is in between two of
//! its atomic steps.
//!
//! Whoever holds the stack decides whose step runs next. An operation can
//! therefore find `head` moved since it last looked, and goes back to loading
//! it; nothing else is ever retried.

use vstd::prelude::*;
use crate::memory::Memory;
use crate::node::Link;
use crate::schedule::Attempt;
use crate::stack::LockFreeStack;

verus! {

/// What one step of an operation leaves behind: the operation, with a step
/// still to take, or its result.
pub enum Progress<Op, R> {
    Pending(Op),
    Done(R),
}

/// A push between two of its steps. It owns the element until the exchange
/// that links it succeeds.
pub enum PushOp<T> {
    /// About to load `head`.
    Load { data: T },
    /// Has loaded `current` from `head`; about to link in front of it.
    Exchange { data: T, current: Link },
}

/// A pop between two of its steps.
pub enum PopOp {
    /// About to load `head`.
    Load,
    /// Has loaded `current_head` from `head`; about to read that node's link.
    Read { current_head: usize },
    /// Has read `next` from node `current_head`; about to swing `head` to it.
    Exchange { current_head: usize, next: Link },
}

impl<T> PushOp<T> {
    /// The element that the push is to add.
    pub open spec fn data(self) -> T {
        match self {
            PushOp::Load { data } => data,
            PushOp::Exchange { data, .. } => data,
        }
    }

    /// The exchange that the next step attempts, if the next step is one.
    pub open spec fn attempt(self) -> Option<Attempt<T>> {
        match self {
            PushOp::Load { .. } => None,
            PushOp::Exchange { data, current } => Some(Attempt::Push { data, current }),
        }
    }

    /// The steps that the push still takes if no other operation's step comes
    /// between them.
    pub open spec fn steps_left(self) -> nat {
        match self {
            PushOp::Load { .. } => 2,
            PushOp::Exchange { .. } => 1,
        }
    }

    /// A push of `data` that has taken no step yet.
    pub fn new(data: T) -> (op: Self)
        ensures
            op == (PushOp::Load { data }),
    {
        PushOp::Load { data }
    }

    /// Takes the next step of the push against `stack`.
    ///
    /// Loading remembers `head`. The exchange links the element if `head` is
    /// still what was loaded, and the push is done; otherwise the stack is
    /// left as it was and the push goes back to loading, the element still
    /// its own.
    pub fn step(self, stack: &mut LockFreeStack<T>) -> (progress: Progress<PushOp<T>, ()>)
        requires
            old(stack).wf(),
        ensures
            final(stack).wf(),
            final(stack).memory() == match self.attempt() {
                Some(attempt) => old(stack).memory().after(attempt),
                None => old(stack).memory(),
            },
            match self {
                PushOp::Load { data } => {
                    &&& progress == Progress::<PushOp<T>, ()>::Pending(
                        PushOp::Exchange { data, current: old(stack).memory().head },
                    )
                    &&& final(stack).memory() == old(stack).memory()
                },
                PushOp::Exchange { data, current } => if old(stack).memory().head == current {
                    &&& progress == Progress::<PushOp<T>, ()>::Done(())
                    &&& final(stack).memory() == old(stack).memory().linked(data)
                    &&& final(stack)@ == old(stack)@.push(data)
                } else {
                    &&& progress == Progress::<PushOp<T>, ()>::Pending(PushOp::Load { data })
                    &&& final(stack).memory() == old(stack).memory()
                },
            },
    {
        match self {
            PushOp::Load { data } => {
                let current = stack.load_head();
                Progress::Pending(PushOp::Exchange { data, current })
            },
            PushOp::Exchange { data, current } => match stack.try_push(data, current) {
                Ok(()) => Progress::Done(()),
                Err(data) => Progress::Pending(PushOp::Load { data }),
            },
        }
    }
}

impl PopOp {
    /// The exchange that the next step attempts, if the next step is one.
    pub open spec fn attempt<T>(self) -> Option<Attempt<T>> {
        match self {
            PopOp::Exchange { current_head, next } => Some(Attempt::Pop { current_head, next }),
            _ => None,
        }
    }

    /// The next step of the pop is one that `memory` admits: where it is the
    /// exchange, the link that the pop carries is the one that its node holds,
    /// in case that node is the head.
    pub open spec fn admitted_by<T>(self, memory: Memory<T>) -> bool {
        self.attempt::<T>() matches Some(attempt) ==> memory.admits(attempt)
    }

    /// What the pop holds is what its own steps against `memory`, or against
    /// an earlier state of it, have given it: the node it has loaded has been
    /// in the arena, and the link it has read is one that `memory` confirms.
    pub open spec fn upheld_by<T>(self, memory: Memory<T>) -> bool {
        match self {
            PopOp::Load => true,
            PopOp::Read { current_head } => current_head < memory.slots.len(),
            PopOp::Exchange { current_head, next } => memory.confirms(current_head, next),
        }
    }

    /// A pop in flight is not disturbed by what other operations do: after any
    /// attempt of theirs, what it holds is still upheld, and its next step is
    /// admitted.
    pub proof fn lemma_upheld_after<T>(self, memory: Memory<T>, attempt: Attempt<T>)
        requires
            memory.wf(),
            memory.admits(attempt),
            self.upheld_by(memory),
        ensures
            self.upheld_by(memory.after(attempt)),
            self.admitted_by(memory.after(attempt)),
    {
        memory.lemma_after(attempt);
        if let PopOp::Exchange { current_head, next } = self {
            memory.lemma_after_confirms(attempt, current_head, next);
        }
    }

    /// The steps that the pop still takes if no other operation's step comes
    /// between them.
    pub open spec fn steps_left(self) -> nat {
        match self {
            PopOp::Load => 3,
            PopOp::Read { .. } => 2,
            PopOp::Exchange { .. } => 1,
        }
    }

    /// A pop that has taken no step yet.
    pub fn new() -> (op: Self)
        ensures
            op == PopOp::Load,
    {
        PopOp::Load
    }

    /// Takes the next step of the pop against `stack`.
    ///
    /// Loading ends the pop with `None` when `head` is empty, and remembers the
    /// head node otherwise. Reading fetches that node's link and claims
    /// nothing. The exchange unlinks the node and ends the pop with its
    /// element if `head` still names it; otherwise the stack is left as it
    /// was and the pop goes back to loading.
    pub fn step<T>(self, stack: &mut LockFreeStack<T>) -> (progress: Progress<PopOp, Option<T>>)
        requires
            old(stack).wf(),
            self.admitted_by(old(stack).memory()),
        ensures
            final(stack).wf(),
            final(stack).memory() == match self.attempt() {
                Some(attempt) => old(stack).memory().after(attempt),
                None => old(stack).memory(),
            },
            self.upheld_by(old(stack).memory()) ==> (progress matches Progress::Pending(op)
                ==> op.upheld_by(final(stack).memory())),
            match self {
                PopOp::Load => {
                    &&& final(stack).memory() == old(stack).memory()
                    &&& match old(stack).memory().head {
                        Some(current_head) => progress == Progress::<PopOp, Option<T>>::Pending(
                            PopOp::Read { current_head },
                        ),
                        None => progress == Progress::<PopOp, Option<T>>::Done(None)
                            && old(stack)@.len() == 0,
                    }
                },
                PopOp::Read { current_head } => {
                    &&& final(stack).memory() == old(stack).memory()
                    &&& progress == Progress::<PopOp, Option<T>>::Pending(
                        PopOp::Exchange {
                            current_head,
                            next: old(stack).memory().next_of(current_head),
                        },
                    )
                },
                PopOp::Exchange { current_head, next } => if old(stack).memory().head == Some(
                    current_head,
                ) {
                    &&& old(stack)@.len() > 0
                    &&& progress == Progress::<PopOp, Option<T>>::Done(Some(old(stack)@.last()))
                    &&& final(stack).memory() == old(stack).memory().unlinked()
                    &&& final(stack)@ == old(stack)@.drop_last()
                } else {
                    &&& progress == Progress::<PopOp, Option<T>>::Pending(PopOp::Load)
                    &&& final(stack).memory() == old(stack).memory()
                },
            },
    {
        match self {
            PopOp::Load => match stack.load_head() {
                Some(current_head) => Progress::Pending(PopOp::Read { current_head }),
                None => Progress::Done(None),
            },
            PopOp::Read { current_head } => {
                let next = stack.read_next(current_head);
                Progress::Pending(PopOp::Exchange { current_head, next })
            },
            PopOp::Exchange { current_head, next } => match stack.try_pop(current_head, next) {
                Some(data) => Progress::Done(Some(data)),
                None => Progress::Pending(PopOp::Load),
            },
        }
    }
}

} // verus!
