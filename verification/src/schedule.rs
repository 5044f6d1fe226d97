//! Schedules: the exchanges that the operations in flight attempt, in the
//! order in which they reach the stack, and what holds of the stack whatever
//! that order is.
//!
//! Loads and reads change nothing, so a schedule lists the exchanges only.
//! Each carries what its operation saw when it last looked, which may be out
//! of date by the time the exchange is attempted.

use vstd::prelude::*;
use crate::memory::Memory;
use crate::node::Link;

verus! {

/// One attempted exchange of `head`.
pub enum Attempt<T> {
    /// Link a new node that holds `data` in front of `current`.
    Push { data: T, current: Link },
    /// Swing `head` from node `current_head` to `next`.
    Pop { current_head: usize, next: Link },
}

impl<T> Memory<T> {
    /// `next` is still what a read of node `node` stands for: the node has
    /// been in the arena, and while it is live its link is `next`.
    pub open spec fn confirms(self, node: usize, next: Link) -> bool {
        node < self.slots.len() && (self.live(node as int) ==> self.slots[node as int]->0.next
            == next)
    }

    /// The attempt is one that an operation can make in this memory: a push
    /// while the arena has a slot number left to give, a pop with the link
    /// that its node holds, in case that node is the head.
    pub open spec fn admits(self, attempt: Attempt<T>) -> bool {
        match attempt {
            Attempt::Push { .. } => self.slots.len() < usize::MAX,
            Attempt::Pop { current_head, next } => self.head == Some(current_head) ==> next
                == self.next_of(current_head),
        }
    }

    /// The exchange succeeds: `head` is what the attempt expects.
    pub open spec fn commits(self, attempt: Attempt<T>) -> bool {
        match attempt {
            Attempt::Push { current, .. } => self.head == current,
            Attempt::Pop { current_head, .. } => self.head == Some(current_head),
        }
    }

    /// The memory after the attempt: as it was where the exchange fails, and
    /// with `head` swung as the attempt asks where it succeeds.
    pub open spec fn after(self, attempt: Attempt<T>) -> Memory<T> {
        if self.commits(attempt) {
            match attempt {
                Attempt::Push { data, .. } => self.linked(data),
                Attempt::Pop { current_head, next } => Memory {
                    slots: self.slots.update(current_head as int, None),
                    head: next,
                },
            }
        } else {
            self
        }
    }

    /// The memory after all of `attempts`, taken in order.
    pub open spec fn run(self, attempts: Seq<Attempt<T>>) -> Memory<T>
        decreases attempts.len(),
    {
        if attempts.len() == 0 {
            self
        } else {
            self.run(attempts.drop_last()).after(attempts.last())
        }
    }

    /// Each of `attempts` is admitted by the memory that it meets.
    pub open spec fn admissible(self, attempts: Seq<Attempt<T>>) -> bool
        decreases attempts.len(),
    {
        attempts.len() > 0 ==> self.admissible(attempts.drop_last()) && self.run(
            attempts.drop_last(),
        ).admits(attempts.last())
    }

    /// The elements that the pushes among `attempts` have linked, in the order
    /// in which their exchanges succeeded.
    pub open spec fn pushed(self, attempts: Seq<Attempt<T>>) -> Seq<T>
        decreases attempts.len(),
    {
        if attempts.len() == 0 {
            Seq::empty()
        } else {
            let earlier = self.pushed(attempts.drop_last());
            match attempts.last() {
                Attempt::Push { data, current } if self.run(attempts.drop_last()).head
                    == current => earlier.push(data),
                _ => earlier,
            }
        }
    }

    /// The elements that the pops among `attempts` have taken, in the order in
    /// which their exchanges succeeded.
    pub open spec fn popped(self, attempts: Seq<Attempt<T>>) -> Seq<T>
        decreases attempts.len(),
    {
        if attempts.len() == 0 {
            Seq::empty()
        } else {
            let earlier = self.popped(attempts.drop_last());
            let met = self.run(attempts.drop_last());
            match attempts.last() {
                Attempt::Pop { current_head, .. } if met.head == Some(current_head) => earlier.push(
                    met.contents().last(),
                ),
                _ => earlier,
            }
        }
    }

    /// Every attempt is a push.
    pub open spec fn only_pushes(attempts: Seq<Attempt<T>>) -> bool {
        forall|i: int| 0 <= i < attempts.len() ==> #[trigger] attempts[i] is Push
    }

    /// Every attempt is a pop.
    pub open spec fn only_pops(attempts: Seq<Attempt<T>>) -> bool {
        forall|i: int| 0 <= i < attempts.len() ==> #[trigger] attempts[i] is Pop
    }

    /// One attempt, whatever it expects, leaves the memory well formed. It
    /// changes the contents only where its exchange succeeds, and then as one
    /// push or one pop does.
    pub proof fn lemma_after(self, attempt: Attempt<T>)
        requires
            self.wf(),
            self.admits(attempt),
        ensures
            self.after(attempt).wf(),
            !self.commits(attempt) ==> self.after(attempt) == self,
            self.commits(attempt) ==> match attempt {
                Attempt::Push { data, .. } => {
                    &&& self.after(attempt) == self.linked(data)
                    &&& self.after(attempt).contents() == self.contents().push(data)
                },
                Attempt::Pop { .. } => {
                    &&& self.after(attempt) == self.unlinked()
                    &&& self.contents().len() > 0
                    &&& self.after(attempt).contents() == self.contents().drop_last()
                },
            },
    {
        if self.commits(attempt) {
            match attempt {
                Attempt::Push { data, .. } => {
                    self.lemma_linked(data);
                },
                Attempt::Pop { .. } => {
                    self.lemma_unlinked();
                },
            }
        }
    }

    /// What a pop has read stays good for its exchange: no attempt of any
    /// operation changes the link of a live node or brings a destroyed node
    /// back, so a memory that confirms a read still confirms it after the
    /// attempt, and admits the pop that carries it.
    pub proof fn lemma_after_confirms(self, attempt: Attempt<T>, node: usize, next: Link)
        requires
            self.wf(),
            self.admits(attempt),
            self.confirms(node, next),
        ensures
            self.after(attempt).confirms(node, next),
            self.after(attempt).admits(Attempt::Pop { current_head: node, next }),
    {
        self.lemma_after(attempt);
        let after = self.after(attempt);
        if after.head == Some(node) {
            assert(after.live(node as int));
        }
    }

    /// An admissible schedule leaves the memory well formed.
    pub proof fn lemma_run_wf(self, attempts: Seq<Attempt<T>>)
        requires
            self.wf(),
            self.admissible(attempts),
        ensures
            self.run(attempts).wf(),
        decreases attempts.len(),
    {
        if attempts.len() > 0 {
            self.lemma_run_wf(attempts.drop_last());
            self.run(attempts.drop_last()).lemma_after(attempts.last());
        }
    }

    /// What a pop has read stays good for its exchange through any admissible
    /// schedule of other operations' attempts.
    pub proof fn lemma_run_confirms(self, attempts: Seq<Attempt<T>>, node: usize, next: Link)
        requires
            self.wf(),
            self.admissible(attempts),
            self.confirms(node, next),
        ensures
            self.run(attempts).confirms(node, next),
            self.run(attempts).admits(Attempt::Pop { current_head: node, next }),
        decreases attempts.len(),
    {
        if attempts.len() > 0 {
            self.lemma_run_wf(attempts.drop_last());
            self.lemma_run_confirms(attempts.drop_last(), node, next);
            self.run(attempts.drop_last()).lemma_after_confirms(attempts.last(), node, next);
        } else {
            if self.head == Some(node) {
                assert(self.live(node as int));
            }
        }
    }

    /// Nothing is lost and nothing is made up. Whatever the schedule, the
    /// elements that were in the stack together with those that pushes have
    /// linked are those that are in the stack now together with those that
    /// pops have taken, each as many times. So pops never take more than was
    /// there and was pushed.
    pub proof fn lemma_conservation(self, attempts: Seq<Attempt<T>>)
        requires
            self.wf(),
            self.admissible(attempts),
        ensures
            self.contents().to_multiset().add(self.pushed(attempts).to_multiset())
                == self.run(attempts).contents().to_multiset().add(
                self.popped(attempts).to_multiset(),
            ),
            self.contents().len() + self.pushed(attempts).len() == self.run(attempts).contents().len()
                + self.popped(attempts).len(),
            self.popped(attempts).len() <= self.contents().len() + self.pushed(attempts).len(),
        decreases attempts.len(),
    {
        broadcast use vstd::seq_lib::to_multiset_build;
        broadcast use vstd::multiset::group_multiset_axioms;

        let held = self.contents().to_multiset();
        if attempts.len() > 0 {
            let earlier = attempts.drop_last();
            let met = self.run(earlier);
            let linked = self.pushed(earlier).to_multiset();
            let taken = self.popped(earlier).to_multiset();
            self.lemma_conservation(earlier);
            self.lemma_run_wf(earlier);
            met.lemma_after(attempts.last());
            assert(held.add(linked) == met.contents().to_multiset().add(taken));
            if met.commits(attempts.last()) {
                match attempts.last() {
                    Attempt::Push { data, .. } => {
                        assert(self.pushed(attempts) == self.pushed(earlier).push(data));
                        assert(self.popped(attempts) == self.popped(earlier));
                        assert forall|x: T|
                            held.add(linked.insert(data)).count(x) == met.contents().to_multiset().insert(
                                data,
                            ).add(taken).count(x) by {
                            assert(held.add(linked).count(x) == met.contents().to_multiset().add(
                                taken,
                            ).count(x));
                        }
                        assert(held.add(linked.insert(data)) =~= met.contents().to_multiset().insert(
                            data,
                        ).add(taken));
                    },
                    Attempt::Pop { .. } => {
                        let top = met.contents().last();
                        let rest = met.contents().drop_last();
                        assert(self.pushed(attempts) == self.pushed(earlier));
                        assert(self.popped(attempts) == self.popped(earlier).push(top));
                        assert(met.contents() == rest.push(top));
                        assert(met.contents().to_multiset() == rest.to_multiset().insert(top));
                        assert forall|x: T|
                            held.add(linked).count(x) == rest.to_multiset().add(
                                taken.insert(top),
                            ).count(x) by {
                            assert(held.add(linked).count(x) == rest.to_multiset().insert(top).add(
                                taken,
                            ).count(x));
                        }
                        assert(held.add(linked) =~= rest.to_multiset().add(taken.insert(top)));
                    },
                }
            } else {
                assert(self.pushed(attempts) == self.pushed(earlier));
                assert(self.popped(attempts) == self.popped(earlier));
            }
        } else {
            assert(self.pushed(attempts).to_multiset() =~= self.popped(attempts).to_multiset());
        }
    }

    /// While operations only push, the stack holds what it held, and on top of
    /// that each element whose push has linked it, once, in the order in which
    /// the exchanges succeeded.
    pub proof fn lemma_pushes_only(self, attempts: Seq<Attempt<T>>)
        requires
            self.wf(),
            self.admissible(attempts),
            Self::only_pushes(attempts),
        ensures
            self.run(attempts).contents() == self.contents() + self.pushed(attempts),
            self.run(attempts).contents().len() == self.contents().len() + self.pushed(
                attempts,
            ).len(),
            self.popped(attempts).len() == 0,
        decreases attempts.len(),
    {
        if attempts.len() > 0 {
            let earlier = attempts.drop_last();
            let met = self.run(earlier);
            assert(Self::only_pushes(earlier));
            assert(attempts[attempts.len() - 1] is Push);
            self.lemma_pushes_only(earlier);
            self.lemma_run_wf(earlier);
            met.lemma_after(attempts.last());
        }
    }

    /// While operations only pop, the elements taken are the top of what the
    /// stack held, topmost first, each once, and what is left is the rest.
    pub proof fn lemma_pops_only(self, attempts: Seq<Attempt<T>>)
        requires
            self.wf(),
            self.admissible(attempts),
            Self::only_pops(attempts),
        ensures
            self.pushed(attempts).len() == 0,
            self.popped(attempts).len() <= self.contents().len(),
            self.run(attempts).contents().len() == self.contents().len() - self.popped(
                attempts,
            ).len(),
            self.run(attempts).contents() == self.contents().subrange(
                0,
                self.contents().len() - self.popped(attempts).len(),
            ),
            forall|i: int|
                0 <= i < self.popped(attempts).len() ==> #[trigger] self.popped(attempts)[i]
                    == self.contents()[self.contents().len() - 1 - i],
        decreases attempts.len(),
    {
        if attempts.len() > 0 {
            let earlier = attempts.drop_last();
            let met = self.run(earlier);
            assert(Self::only_pops(earlier));
            assert(attempts[attempts.len() - 1] is Pop);
            self.lemma_pops_only(earlier);
            self.lemma_run_wf(earlier);
            met.lemma_after(attempts.last());
        }
    }

    /// Once the stack is empty it stays empty while nothing is pushed: no pop
    /// succeeds, none takes an element, and the memory does not change.
    pub proof fn lemma_empty_stays_empty(self, attempts: Seq<Attempt<T>>)
        requires
            self.wf(),
            self.contents().len() == 0,
            Self::only_pops(attempts),
        ensures
            self.run(attempts) == self,
            self.popped(attempts).len() == 0,
            self.admissible(attempts),
        decreases attempts.len(),
    {
        self.lemma_empty_iff_no_head();
        if attempts.len() > 0 {
            let earlier = attempts.drop_last();
            assert(Self::only_pops(earlier));
            assert(attempts[attempts.len() - 1] is Pop);
            self.lemma_empty_stays_empty(earlier);
        }
    }

    /// Last in, first out. Three elements pushed one after the other come
    /// back in the opposite order, and the stack then holds what it held
    /// before.
    pub proof fn lemma_lifo(self, first: T, second: T, third: T)
        requires
            self.wf(),
            self.slots.len() + 3 <= usize::MAX,
        ensures
            ({
                let full = self.linked(first).linked(second).linked(third);
                &&& full.wf()
                &&& full.contents() == self.contents().push(first).push(second).push(third)
                &&& full.contents().last() == third
                &&& full.unlinked().contents().last() == second
                &&& full.unlinked().unlinked().contents().last() == first
                &&& full.unlinked().unlinked().unlinked().contents() == self.contents()
            }),
    {
        let one = self.linked(first);
        let two = one.linked(second);
        let full = two.linked(third);
        self.lemma_linked(first);
        one.lemma_linked(second);
        two.lemma_linked(third);
        full.lemma_unlinked();
        full.unlinked().lemma_unlinked();
        full.unlinked().unlinked().lemma_unlinked();
        assert(full.contents().drop_last() == two.contents());
        assert(two.contents().drop_last() == one.contents());
        assert(one.contents().drop_last() == self.contents());
    }
}

} // verus!
