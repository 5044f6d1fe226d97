//! The mathematical model of a stack's memory: the slots and the head link.

use vstd::prelude::*;
use crate::node::{reach, Link, Node};

verus! {

/// The state that the steps of all operations share.
///
/// `slots[n]` is `Some` while node `n` is linked and `None` once it has been
/// unlinked and destroyed. Slots are only ever appended, so a slot number
/// names one node for good.
pub struct Memory<T> {
    pub slots: Seq<Option<Node<T>>>,
    pub head: Link,
}

impl<T> Memory<T> {
    /// The memory of a stack that has never been pushed to.
    pub open spec fn empty() -> Memory<T> {
        Memory { slots: Seq::empty(), head: None }
    }

    /// Slot `n` holds a node.
    pub open spec fn live(self, n: int) -> bool {
        0 <= n < self.slots.len() && self.slots[n] is Some
    }

    /// What a read of node `n`'s link gives: the node's `next` while the node
    /// is live, and the empty link once it has been destroyed.
    pub open spec fn next_of(self, n: usize) -> Link {
        if self.live(n as int) {
            self.slots[n as int]->0.next
        } else {
            None
        }
    }

    /// No slot from `lo` up to, not including, `hi` holds a node.
    pub open spec fn vacant(self, lo: int, hi: int) -> bool {
        forall|k: int| lo <= k < hi ==> !#[trigger] self.live(k)
    }

    /// `link` names the youngest live node below slot `bound`, or is empty
    /// where no slot below `bound` is live.
    pub open spec fn names_youngest_below(self, link: Link, bound: int) -> bool {
        match link {
            Some(m) => m < bound && self.live(m as int) && self.vacant(m + 1, bound),
            None => self.vacant(0, bound),
        }
    }

    /// The chain from `head` is a well-formed list that owns every live node
    /// exactly once: `head` names the youngest live node, and each live node's
    /// `next` names the youngest live node older than itself.
    pub open spec fn wf(self) -> bool {
        &&& self.slots.len() <= usize::MAX
        &&& self.names_youngest_below(self.head, self.slots.len() as int)
        &&& forall|n: int| #[trigger]
            self.live(n) ==> self.names_youngest_below(self.slots[n]->0.next, n)
    }

    /// The elements on the chain that starts at `link`, oldest first.
    pub open spec fn chain(self, link: Link) -> Seq<T>
        decreases reach(link),
    {
        match link {
            Some(n) => {
                if self.live(n as int) && reach(self.slots[n as int]->0.next) < reach(link) {
                    self.chain(self.slots[n as int]->0.next).push(self.slots[n as int]->0.data)
                } else {
                    Seq::empty()
                }
            },
            None => Seq::empty(),
        }
    }

    /// The elements of the stack, oldest first: the last one is the top.
    pub open spec fn contents(self) -> Seq<T> {
        self.chain(self.head)
    }

    /// The memory after an exchange has swung `head` to a new node that holds
    /// `data` and links to the old head.
    pub open spec fn linked(self, data: T) -> Memory<T> {
        Memory {
            slots: self.slots.push(Some(Node { data, next: self.head })),
            head: Some(self.slots.len() as usize),
        }
    }

    /// The memory after an exchange has swung `head` from the node it named to
    /// that node's `next`, and the node has been destroyed.
    pub open spec fn unlinked(self) -> Memory<T>
        recommends
            self.head is Some,
    {
        Memory {
            slots: self.slots.update(self.head->0 as int, None),
            head: self.next_of(self.head->0),
        }
    }

    /// A chain reads only the slots below the reach of the link it starts at.
    pub proof fn lemma_chain_frame(self, other: Memory<T>, link: Link)
        requires
            forall|k: int|
                0 <= k < reach(link) ==> (self.live(k) == #[trigger] other.live(k) && (self.live(k)
                    ==> self.slots[k] == other.slots[k])),
        ensures
            self.chain(link) == other.chain(link),
        decreases reach(link),
    {
        if let Some(n) = link {
            if self.live(n as int) && reach(self.slots[n as int]->0.next) < reach(link) {
                assert(other.live(n as int));
                self.lemma_chain_frame(other, self.slots[n as int]->0.next);
            } else {
                assert(other.live(n as int) == self.live(n as int));
            }
        }
    }

    /// A chain holds no more elements than there are slots below its reach.
    pub proof fn lemma_chain_len(self, link: Link)
        ensures
            self.chain(link).len() <= reach(link),
        decreases reach(link),
    {
        if let Some(n) = link {
            if self.live(n as int) && reach(self.slots[n as int]->0.next) < reach(link) {
                self.lemma_chain_len(self.slots[n as int]->0.next);
            }
        }
    }

    /// The stack is empty exactly when `head` is the empty link.
    pub proof fn lemma_empty_iff_no_head(self)
        requires
            self.wf(),
        ensures
            self.head is None <==> self.contents().len() == 0,
    {
        if let Some(n) = self.head {
            assert(self.live(n as int));
        }
    }

    /// Linking a node keeps the memory well formed and puts the node's element
    /// on top of the contents.
    pub proof fn lemma_linked(self, data: T)
        requires
            self.wf(),
            self.slots.len() < usize::MAX,
        ensures
            self.linked(data).wf(),
            self.linked(data).contents() == self.contents().push(data),
    {
        let after = self.linked(data);
        let n: int = self.slots.len() as int;
        assert forall|k: int| 0 <= k < n implies (self.live(k) == #[trigger] after.live(k) && (
        self.live(k) ==> self.slots[k] == after.slots[k])) by {}
        assert(after.live(n));
        assert(after.slots[n]->0.next == self.head);
        assert forall|k: int| #[trigger] after.live(k) implies after.names_youngest_below(
            after.slots[k]->0.next,
            k,
        ) by {
            if k < n {
                assert(self.live(k));
            }
        }
        self.lemma_chain_frame(after, self.head);
    }

    /// Unlinking the head node keeps the memory well formed and takes the top
    /// element, which is that node's, off the contents.
    pub proof fn lemma_unlinked(self)
        requires
            self.wf(),
            self.head is Some,
        ensures
            self.unlinked().wf(),
            self.contents().len() > 0,
            self.contents().last() == self.slots[self.head->0 as int]->0.data,
            self.unlinked().contents() == self.contents().drop_last(),
    {
        let after = self.unlinked();
        let h: int = self.head->0 as int;
        let next = self.slots[h]->0.next;
        assert(self.live(h));
        assert(self.names_youngest_below(next, h));
        assert forall|k: int| 0 <= k < h implies (self.live(k) == #[trigger] after.live(k) && (
        self.live(k) ==> self.slots[k] == after.slots[k])) by {}
        assert forall|k: int| #[trigger] after.live(k) implies after.names_youngest_below(
            after.slots[k]->0.next,
            k,
        ) by {
            assert(self.live(k));
            assert(k < h);
        }
        assert(after.names_youngest_below(after.head, after.slots.len() as int)) by {
            assert forall|k: int| reach(next) <= k < after.slots.len() implies !#[trigger] after.live(
                k,
            ) by {
                if k != h {
                    assert(after.live(k) == self.live(k));
                }
            }
        }
        self.lemma_chain_frame(after, next);
        assert(self.contents() == self.chain(next).push(self.slots[h]->0.data));
        assert(self.contents().drop_last() == self.chain(next));
    }
}

} // verus!
