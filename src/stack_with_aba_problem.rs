use vstd::prelude::*;

use crate::model::{step, StackOp};
use crate::pool::NodePool;

verus! {

/// What an agent read in the first step of an operation.
#[derive(Clone, Copy)]
enum Snapshot {
    /// For a pop: the top slot and its link.
    Pop { top: usize, next: Option<usize> },
    /// For a push: the head value, already stored in the agent's new node.
    Push { seen: Option<usize> },
}

/// The stack whose commits are guarded by comparing the head's value
/// (compare-and-swap).
///
/// An agent's commit succeeds whenever the head still holds the value that
/// the agent read, even if that slot was freed and handed out again in
/// between. For a pop the link read earlier may then be stale: this is the
/// ABA hazard, which this variant keeps. Its pop commit is sound only where
/// `commit_is_sound` holds. A pushing agent owns its new node until its
/// commit links it in.
pub struct StackBad<T> {
    pool: NodePool<T>,
    observed: Vec<Option<Snapshot>>,
    pending: Vec<Option<usize>>,
}

impl<T> View for StackBad<T> {
    type V = Seq<T>;

    /// The values on the stack, bottom first: the top is the last element.
    closed spec fn view(&self) -> Seq<T> {
        self.pool.view()
    }
}

impl<T> StackBad<T> {
    /// The pool is well formed, each pending node is a private node of
    /// exactly one agent, and a push snapshot is the link stored in the
    /// agent's node. Pop snapshots are not kept in step with the chain.
    pub closed spec fn wf(&self) -> bool {
        &&& self.pool.wf()
        &&& forall|a: int|
            0 <= a < self.pending@.len() && #[trigger] self.pending@[a] is Some
                ==> self.pool.private@.contains(self.pending@[a]->0)
        &&& forall|a: int, b: int|
            0 <= a < b < self.pending@.len() && self.pending@[a] is Some && self.pending@[b] is Some
                ==> self.pending@[a]->0 != self.pending@[b]->0
        &&& forall|a: int|
            #[trigger] self.holds_push_snapshot(a) ==> {
                &&& a < self.pending@.len()
                &&& self.pending@[a] is Some
                &&& self.pool.next_spec(self.pending@[a]->0) == self.observed@[a]->0->seen
            }
    }

    /// Agent `agent` has read a top slot for a pop and not yet committed.
    pub closed spec fn holds_snapshot(&self, agent: int) -> bool {
        0 <= agent < self.observed@.len() && self.observed@[agent] matches Some(
            Snapshot::Pop { .. },
        )
    }

    /// Agent `agent` has read the head for a push and not yet committed.
    pub closed spec fn holds_push_snapshot(&self, agent: int) -> bool {
        0 <= agent < self.observed@.len() && self.observed@[agent] matches Some(
            Snapshot::Push { .. },
        )
    }

    /// The value comparison of the agent's pop commit succeeds: the head
    /// holds the slot the agent read.
    pub closed spec fn head_matches(&self, agent: int) -> bool {
        self.holds_snapshot(agent) && self.pool.head == Some(self.observed@[agent]->0->top)
    }

    /// The value comparison of the agent's push commit succeeds: the head
    /// holds the value the agent read.
    pub closed spec fn push_head_matches(&self, agent: int) -> bool {
        self.holds_push_snapshot(agent) && self.pool.head == self.observed@[agent]->0->seen
    }

    /// Where the value comparison of the agent's pop commit succeeds, the
    /// link the agent read is still the link of the head: no ABA has happened
    /// to this agent.
    pub closed spec fn commit_is_sound(&self, agent: int) -> bool {
        self.head_matches(agent) ==> self.pool.next_spec(self.observed@[agent]->0->top)
            == self.observed@[agent]->0->next
    }

    /// The value that agent `agent` is pushing and has not committed yet.
    pub closed spec fn pending_push(&self, agent: int) -> Option<T> {
        if 0 <= agent < self.pending@.len() && self.pending@[agent] is Some {
            Some(self.pool.payload(self.pending@[agent]->0))
        } else {
            None
        }
    }

    /// A step that keeps the private nodes and the push snapshots, and only
    /// appends empty pending entries, keeps the invariant and what each agent
    /// is pushing.
    proof fn lemma_frame(before: &Self, after: &Self)
        requires
            before.wf(),
            after.pool.wf(),
            after.pool.private@ == before.pool.private@,
            forall|p: usize| #[trigger]
                before.pool.private@.contains(p) ==> after.pool.payload(p) == before.pool.payload(p)
                    && after.pool.next_spec(p) == before.pool.next_spec(p),
            forall|a: int| #[trigger]
                after.holds_push_snapshot(a) ==> before.holds_push_snapshot(a)
                    && after.observed@[a] == before.observed@[a],
            before.pending@.len() <= after.pending@.len(),
            forall|a: int|
                0 <= a < before.pending@.len() ==> #[trigger] after.pending@[a]
                    == before.pending@[a],
            forall|a: int|
                before.pending@.len() <= a < after.pending@.len() ==> #[trigger] after.pending@[a] is None,
        ensures
            after.wf(),
            forall|a: int| after.pending_push(a) == before.pending_push(a),
    {
        assert forall|a: int|
            0 <= a < after.pending@.len() && #[trigger] after.pending@[a] is Some implies after.pool.private@.contains(
            after.pending@[a]->0,
        ) by {
            if a < before.pending@.len() {
                assert(before.pending@[a] is Some);
            }
        }
        assert forall|a: int, b: int|
            0 <= a < b < after.pending@.len() && after.pending@[a] is Some
                && after.pending@[b] is Some implies after.pending@[a]->0
            != after.pending@[b]->0 by {
            if b < before.pending@.len() {
                assert(before.pending@[a] is Some);
            }
        }
        assert forall|a: int| #[trigger] after.holds_push_snapshot(a) implies a
            < after.pending@.len() && after.pending@[a] is Some && after.pool.next_spec(
            after.pending@[a]->0,
        ) == after.observed@[a]->0->seen by {
            assert(before.holds_push_snapshot(a));
            assert(before.pending@[a] is Some);
            assert(before.pool.private@.contains(before.pending@[a]->0));
        }
        assert forall|a: int| after.pending_push(a) == before.pending_push(a) by {
            if 0 <= a < after.pending@.len() && after.pending@[a] is Some {
                assert(a < before.pending@.len());
                assert(before.pending@[a] is Some);
                assert(before.pool.private@.contains(before.pending@[a]->0));
            }
        }
    }

    pub fn new() -> (r: Self)
        ensures
            r.wf(),
            r@ == Seq::<T>::empty(),
            forall|a: int| !r.holds_snapshot(a) && !r.holds_push_snapshot(a),
            forall|a: int| r.pending_push(a) is None,
    {
        StackBad { pool: NodePool::new(), observed: Vec::new(), pending: Vec::new() }
    }

    /// Puts `data` on top in one read-and-swap that nobody interrupts.
    /// Snapshots that agents hold are left as they are.
    pub fn push(&mut self, data: T)
        requires
            old(self).wf(),
        ensures
            final(self).wf(),
            final(self)@ == old(self)@.push(data),
            final(self)@ == step(old(self)@, StackOp::Push(data)).0,
            forall|a: int|
                final(self).holds_snapshot(a) == old(self).holds_snapshot(a)
                    && final(self).holds_push_snapshot(a) == old(self).holds_push_snapshot(a)
                    && final(self).pending_push(a) == old(self).pending_push(a),
    {
        let ghost before = *self;
        self.pool.push_node(data);
        proof {
            Self::lemma_frame(&before, self);
        }
    }

    /// Takes the top value off in one read-and-swap that nobody interrupts,
    /// or returns `None` when the stack is empty.
    pub fn pop(&mut self) -> (r: Option<T>)
        requires
            old(self).wf(),
        ensures
            final(self).wf(),
            (final(self)@, r) == step(old(self)@, StackOp::Pop),
            old(self)@.len() == 0 ==> r is None && final(self)@ == old(self)@,
            old(self)@.len() > 0 ==> r == Some(old(self)@.last()) && final(self)@ == old(
                self,
            )@.drop_last(),
            forall|a: int|
                final(self).holds_snapshot(a) == old(self).holds_snapshot(a)
                    && final(self).holds_push_snapshot(a) == old(self).holds_push_snapshot(a)
                    && final(self).pending_push(a) == old(self).pending_push(a),
    {
        match self.pool.head {
            None => None,
            Some(top) => {
                proof {
                    self.pool.lemma_head_live();
                }
                let next = self.pool.next_of(top);
                let ghost before = *self;
                let v = self.pool.pop_node(top, next);
                proof {
                    Self::lemma_frame(&before, self);
                }
                Some(v)
            },
        }
    }

    /// Gives agent `agent` a snapshot entry and a pending entry.
    fn make_room(&mut self, agent: usize)
        requires
            old(self).wf(),
        ensures
            final(self).wf(),
            final(self).pool == old(self).pool,
            agent < final(self).observed@.len(),
            agent < final(self).pending@.len(),
            forall|a: int|
                0 <= a < old(self).observed@.len() ==> final(self).observed@[a] == old(
                    self,
                ).observed@[a],
            forall|a: int|
                old(self).observed@.len() <= a < final(self).observed@.len()
                    ==> final(self).observed@[a] is None,
            forall|a: int|
                0 <= a < old(self).pending@.len() ==> final(self).pending@[a] == old(
                    self,
                ).pending@[a],
            forall|a: int|
                old(self).pending@.len() <= a < final(self).pending@.len()
                    ==> final(self).pending@[a] is None,
            forall|a: int|
                final(self).holds_snapshot(a) == old(self).holds_snapshot(a)
                    && final(self).holds_push_snapshot(a) == old(self).holds_push_snapshot(a)
                    && final(self).pending_push(a) == old(self).pending_push(a),
    {
        while self.observed.len() <= agent
            invariant
                self.wf(),
                self.pool == old(self).pool,
                self.pending == old(self).pending,
                old(self).observed@.len() <= self.observed@.len(),
                forall|a: int|
                    0 <= a < old(self).observed@.len() ==> self.observed@[a] == old(
                        self,
                    ).observed@[a],
                forall|a: int|
                    old(self).observed@.len() <= a < self.observed@.len()
                        ==> self.observed@[a] is None,
                forall|a: int|
                    self.holds_snapshot(a) == old(self).holds_snapshot(a)
                        && self.holds_push_snapshot(a) == old(self).holds_push_snapshot(a)
                        && self.pending_push(a) == old(self).pending_push(a),
            decreases agent + 1 - self.observed@.len(),
        {
            let ghost before = *self;
            self.observed.push(None);
            proof {
                Self::lemma_frame(&before, self);
            }
        }
        let ghost obs = self.observed@;
        while self.pending.len() <= agent
            invariant
                self.wf(),
                self.pool == old(self).pool,
                self.observed@ == obs,
                agent < self.observed@.len(),
                old(self).pending@.len() <= self.pending@.len(),
                forall|a: int|
                    0 <= a < old(self).pending@.len() ==> self.pending@[a] == old(
                        self,
                    ).pending@[a],
                forall|a: int|
                    old(self).pending@.len() <= a < self.pending@.len()
                        ==> self.pending@[a] is None,
                forall|a: int|
                    self.holds_snapshot(a) == old(self).holds_snapshot(a)
                        && self.holds_push_snapshot(a) == old(self).holds_push_snapshot(a)
                        && self.pending_push(a) == old(self).pending_push(a),
            decreases agent + 1 - self.pending@.len(),
        {
            let ghost before = *self;
            self.pending.push(None);
            proof {
                Self::lemma_frame(&before, self);
            }
        }
    }

    /// First step of a pop by `agent`: reads the head and its link. On an
    /// empty stack the agent's snapshot is dropped and `false` comes back.
    /// Right after this step the agent's commit is sound.
    pub fn pop_begin(&mut self, agent: usize) -> (r: bool)
        requires
            old(self).wf(),
        ensures
            final(self).wf(),
            final(self)@ == old(self)@,
            r == (old(self)@.len() > 0),
            final(self).holds_snapshot(agent as int) == r,
            final(self).head_matches(agent as int) == r,
            final(self).commit_is_sound(agent as int),
            !final(self).holds_push_snapshot(agent as int),
            forall|a: int|
                a != agent ==> final(self).holds_snapshot(a) == old(self).holds_snapshot(a)
                    && final(self).holds_push_snapshot(a) == old(self).holds_push_snapshot(a),
            forall|a: int| final(self).pending_push(a) == old(self).pending_push(a),
    {
        self.make_room(agent);
        let ghost before = *self;
        match self.pool.head {
            None => {
                self.observed.set(agent, None);
                proof {
                    Self::lemma_frame(&before, self);
                }
                false
            },
            Some(top) => {
                proof {
                    self.pool.lemma_head_live();
                }
                let next = self.pool.next_of(top);
                self.observed.set(agent, Some(Snapshot::Pop { top, next }));
                proof {
                    Self::lemma_frame(&before, self);
                }
                true
            },
        }
    }

    /// Reports whether the agent's pop commit would now swing the head to a
    /// stale link: the head holds the slot the agent read, but that slot's
    /// link has changed since.
    pub fn aba_hazard(&self, agent: usize) -> (r: bool)
        requires
            self.wf(),
        ensures
            r == !self.commit_is_sound(agent as int),
    {
        if agent < self.observed.len() {
            if let Some(Snapshot::Pop { top, next }) = self.observed[agent] {
                if self.pool.head == Some(top) {
                    proof {
                        self.pool.lemma_head_live();
                    }
                    return self.pool.next_of(top) != next;
                }
            }
        }
        false
    }

    /// Second step of a pop by `agent`: compare-and-swap on the head's value.
    /// When the head still holds the slot the agent read, the head is swung
    /// to the link read in the first step and the top value comes back; else
    /// nothing changes and `None` comes back. The agent's pop snapshot is
    /// spent either way.
    pub fn pop_commit(&mut self, agent: usize) -> (r: Option<T>)
        requires
            old(self).wf(),
            old(self).commit_is_sound(agent as int),
        ensures
            final(self).wf(),
            !final(self).holds_snapshot(agent as int),
            final(self).holds_push_snapshot(agent as int) == old(self).holds_push_snapshot(
                agent as int,
            ),
            forall|a: int|
                a != agent ==> final(self).holds_snapshot(a) == old(self).holds_snapshot(a)
                    && final(self).holds_push_snapshot(a) == old(self).holds_push_snapshot(a),
            forall|a: int| final(self).pending_push(a) == old(self).pending_push(a),
            old(self).head_matches(agent as int) ==> (final(self)@, r) == step(
                old(self)@,
                StackOp::Pop,
            ),
            old(self).head_matches(agent as int) ==> old(self)@.len() > 0 && r == Some(
                old(self)@.last(),
            ) && final(self)@ == old(self)@.drop_last(),
            !old(self).head_matches(agent as int) ==> r is None && final(self)@ == old(self)@,
    {
        if agent < self.observed.len() {
            if let Some(Snapshot::Pop { top, next }) = self.observed[agent] {
                let ghost before = *self;
                self.observed.set(agent, None);
                proof {
                    Self::lemma_frame(&before, self);
                }
                if self.pool.head == Some(top) {
                    let ghost mid = *self;
                    let v = self.pool.pop_node(top, next);
                    proof {
                        Self::lemma_frame(&mid, self);
                    }
                    return Some(v);
                }
            }
        }
        None
    }

    /// First step of a push by `agent`: allocates a node for `data`, private
    /// to the agent, reads the head and stores its value in the node's link.
    pub fn push_begin(&mut self, agent: usize, data: T)
        requires
            old(self).wf(),
            old(self).pending_push(agent as int) is None,
        ensures
            final(self).wf(),
            final(self)@ == old(self)@,
            final(self).pending_push(agent as int) == Some(data),
            final(self).push_head_matches(agent as int),
            forall|a: int|
                a != agent ==> final(self).holds_snapshot(a) == old(self).holds_snapshot(a)
                    && final(self).holds_push_snapshot(a) == old(self).holds_push_snapshot(a)
                    && final(self).pending_push(a) == old(self).pending_push(a),
    {
        self.make_room(agent);
        let ghost before = *self;
        let ghost mid = self.pending@;
        let slot = self.pool.alloc_node(data);
        self.pending.set(agent, Some(slot));
        assert forall|a: int, b: int|
            0 <= a < b < self.pending@.len() && self.pending@[a] is Some
                && self.pending@[b] is Some implies self.pending@[a]->0
            != self.pending@[b]->0 by {
            if a == agent {
                assert(mid[b] is Some);
            } else if b == agent {
                assert(mid[a] is Some);
            }
        }
        assert forall|a: int|
            #[trigger] self.holds_push_snapshot(a) implies a < self.pending@.len() && self.pending@[a] is Some && self.pool.next_spec(
            self.pending@[a]->0,
        ) == self.observed@[a]->0->seen by {
            assert(before.holds_push_snapshot(a));
            assert(mid[a] is Some);
            assert(before.pool.private@.contains(mid[a]->0));
        }
        assert forall|a: int|
            a != agent implies #[trigger] self.pending_push(a) == before.pending_push(a) by {
            if 0 <= a < mid.len() && mid[a] is Some {
                assert(before.pool.private@.contains(mid[a]->0));
            }
        }
        self.push_read(agent);
    }

    /// Retry of a push by `agent` after a failed commit: reads the head again
    /// and stores its value in the link of the agent's node.
    pub fn push_retry(&mut self, agent: usize)
        requires
            old(self).wf(),
            old(self).pending_push(agent as int) is Some,
        ensures
            final(self).wf(),
            final(self)@ == old(self)@,
            final(self).pending_push(agent as int) == old(self).pending_push(agent as int),
            final(self).push_head_matches(agent as int),
            forall|a: int|
                a != agent ==> final(self).holds_snapshot(a) == old(self).holds_snapshot(a)
                    && final(self).holds_push_snapshot(a) == old(self).holds_push_snapshot(a)
                    && final(self).pending_push(a) == old(self).pending_push(a),
    {
        self.make_room(agent);
        self.push_read(agent);
    }

    /// Reads the head for the agent's pending node and stores what it read
    /// into the node's link.
    fn push_read(&mut self, agent: usize)
        requires
            old(self).wf(),
            agent < old(self).observed@.len(),
            agent < old(self).pending@.len(),
            old(self).pending@[agent as int] is Some,
        ensures
            final(self).wf(),
            final(self)@ == old(self)@,
            final(self).pending_push(agent as int) == old(self).pending_push(agent as int),
            final(self).push_head_matches(agent as int),
            forall|a: int|
                a != agent ==> final(self).holds_snapshot(a) == old(self).holds_snapshot(a)
                    && final(self).holds_push_snapshot(a) == old(self).holds_push_snapshot(a)
                    && final(self).pending_push(a) == old(self).pending_push(a),
    {
        let slot = self.pending[agent].unwrap();
        let seen = self.pool.head;
        assert(self.pool.private@.contains(slot));
        self.pool.link_node(slot, seen);
        self.observed.set(agent, Some(Snapshot::Push { seen }));
        assert forall|a: int|
            #[trigger] self.holds_push_snapshot(a) implies a < self.pending@.len() && self.pending@[a] is Some && self.pool.next_spec(
            self.pending@[a]->0,
        ) == self.observed@[a]->0->seen by {
            if a != agent {
                assert(old(self).holds_push_snapshot(a));
                assert(old(self).pending@[a] is Some);
                assert(self.pending@[a]->0 != slot) by {
                    if a < agent {
                        assert(self.pending@[a] is Some);
                    }
                }
            }
        }
    }

    /// Last step of a push by `agent`: compare-and-swap on the head's value.
    /// When the head still holds the value the agent read, which is the link
    /// of the agent's node, the node becomes the head; else nothing changes,
    /// the node stays the agent's, and `false` comes back: the agent retries.
    /// The new node's link is the head it replaces either way, so address
    /// reuse does no harm here.
    pub fn push_commit(&mut self, agent: usize) -> (r: bool)
        requires
            old(self).wf(),
        ensures
            final(self).wf(),
            r == old(self).push_head_matches(agent as int),
            r ==> old(self).pending_push(agent as int) is Some && final(self)@ == step(
                old(self)@,
                StackOp::Push(old(self).pending_push(agent as int)->0),
            ).0,
            r ==> old(self).pending_push(agent as int) is Some && final(self)@ == old(self)@.push(
                old(self).pending_push(agent as int)->0,
            ) && final(self).pending_push(agent as int) is None && !final(self).holds_push_snapshot(agent as int),
            !r ==> final(self)@ == old(self)@ && final(self).pending_push(agent as int)
                == old(self).pending_push(agent as int),
            forall|a: int|
                a != agent ==> final(self).holds_snapshot(a) == old(self).holds_snapshot(a)
                    && final(self).holds_push_snapshot(a) == old(self).holds_push_snapshot(a)
                    && final(self).pending_push(a) == old(self).pending_push(a),
            final(self).holds_snapshot(agent as int) == old(self).holds_snapshot(agent as int),
    {
        if agent < self.observed.len() {
            if let Some(Snapshot::Push { seen }) = self.observed[agent] {
                if self.pool.head == seen {
                    assert(self.holds_push_snapshot(agent as int));
                    let slot = self.pending[agent].unwrap();
                    self.pool.publish_node(slot);
                    self.pending.set(agent, None);
                    self.observed.set(agent, None);
                    assert forall|a: int|
                        0 <= a < self.pending@.len() && #[trigger] self.pending@[a] is Some implies self.pool.private@.contains(
                        self.pending@[a]->0,
                    ) by {
                        assert(old(self).pending@[a] is Some);
                        assert(old(self).pending@[a]->0 != slot);
                    }
                    assert forall|a: int|
                        #[trigger] self.holds_push_snapshot(a) implies a < self.pending@.len() && self.pending@[a] is Some
                        && self.pool.next_spec(self.pending@[a]->0) == self.observed@[a]->0->seen by {
                        assert(old(self).holds_push_snapshot(a));
                        assert(old(self).pending@[a] is Some);
                        assert(old(self).pending@[a]->0 != slot);
                        assert(self.pool.private@.contains(self.pending@[a]->0));
                    }
                    return true;
                }
            }
        }
        false
    }
}

} // verus!
