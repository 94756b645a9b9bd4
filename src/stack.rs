use vstd::prelude::*;

use crate::model::{step, StackOp};
use crate::pool::NodePool;

verus! {

/// An agent's reservation on the head, with what it read under it.
#[derive(Clone, Copy)]
enum Reservation {
    /// For a pop: the top slot and its link.
    Pop { top: usize, next: Option<usize> },
    /// For a push: the head value, already stored in the agent's new node.
    Push { seen: Option<usize> },
}

/// The stack whose commits are guarded by an exclusive-access monitor
/// (load-reserve / store-conditional).
///
/// Each agent may hold a reservation on the head. Any store to the head, of
/// any value, cancels every reservation, so a conditional commit succeeds only
/// when nothing was written since the agent reserved. A pushing agent owns its
/// new node until its commit links it in.
pub struct StackHead<T> {
    pool: NodePool<T>,
    monitor: Vec<Option<Reservation>>,
    pending: Vec<Option<usize>>,
}

impl<T> View for StackHead<T> {
    type V = Seq<T>;

    /// The values on the stack, bottom first: the top is the last element.
    closed spec fn view(&self) -> Seq<T> {
        self.pool.view()
    }
}

impl<T> StackHead<T> {
    /// What agent `a` read under its reservation is still what the head and
    /// the nodes hold.
    spec fn reservation_current(&self, a: int) -> bool {
        match self.monitor@[a]->0 {
            Reservation::Pop { top, next } => {
                &&& self.pool.head == Some(top)
                &&& top < self.pool.nodes@.len()
                &&& self.pool.next_spec(top) == next
            },
            Reservation::Push { seen } => {
                &&& self.pool.head == seen
                &&& a < self.pending@.len()
                &&& self.pending@[a] is Some
                &&& self.pool.next_spec(self.pending@[a]->0) == seen
            },
        }
    }

    /// The chain from the head is well linked and acyclic, every reservation
    /// still held describes the current head, and each pending node is a
    /// private node of exactly one agent.
    pub closed spec fn wf(&self) -> bool {
        &&& self.owners_wf()
        &&& forall|a: int|
            0 <= a < self.monitor@.len() && #[trigger] self.monitor@[a] is Some
                ==> self.reservation_current(a)
    }

    /// The pool is well formed and each pending node is a private node of
    /// exactly one agent.
    spec fn owners_wf(&self) -> bool {
        &&& self.pool.wf()
        &&& forall|a: int|
            0 <= a < self.pending@.len() && #[trigger] self.pending@[a] is Some
                ==> self.pool.private@.contains(self.pending@[a]->0)
        &&& forall|a: int, b: int|
            0 <= a < b < self.pending@.len() && self.pending@[a] is Some && self.pending@[b] is Some
                ==> self.pending@[a]->0 != self.pending@[b]->0
    }

    /// Agent `agent` holds a reservation for a pop.
    pub closed spec fn reserved_for_pop(&self, agent: int) -> bool {
        0 <= agent < self.monitor@.len() && self.monitor@[agent] matches Some(Reservation::Pop { .. })
    }

    /// Agent `agent` holds a reservation for a push.
    pub closed spec fn reserved_for_push(&self, agent: int) -> bool {
        0 <= agent < self.monitor@.len() && self.monitor@[agent] matches Some(
            Reservation::Push { .. },
        )
    }

    /// No agent holds a reservation on the head.
    pub open spec fn no_reservations(&self) -> bool {
        &&& forall|a: int| !self.reserved_for_pop(a)
        &&& forall|a: int| !self.reserved_for_push(a)
    }

    /// The value that agent `agent` is pushing and has not committed yet.
    pub closed spec fn pending_push(&self, agent: int) -> Option<T> {
        if 0 <= agent < self.pending@.len() && self.pending@[agent] is Some {
            Some(self.pool.payload(self.pending@[agent]->0))
        } else {
            None
        }
    }

    /// An empty stack on which nobody holds a reservation or pushes.
    pub fn new() -> (r: Self)
        ensures
            r.wf(),
            r@ == Seq::<T>::empty(),
            r.no_reservations(),
            forall|a: int| r.pending_push(a) is None,
    {
        StackHead { pool: NodePool::new(), monitor: Vec::new(), pending: Vec::new() }
    }

    /// Cancels every reservation: what a store to the head does.
    fn clear_monitor(&mut self)
        requires
            old(self).owners_wf(),
        ensures
            final(self).wf(),
            final(self).pool == old(self).pool,
            final(self).pending == old(self).pending,
            final(self).no_reservations(),
    {
        self.monitor = Vec::new();
    }

    /// Gives agent `agent` a monitor entry and a pending entry.
    fn make_room(&mut self, agent: usize)
        requires
            old(self).wf(),
        ensures
            final(self).wf(),
            final(self).pool == old(self).pool,
            agent < final(self).monitor@.len(),
            agent < final(self).pending@.len(),
            forall|a: int|
                final(self).reserved_for_pop(a) == old(self).reserved_for_pop(a)
                    && final(self).reserved_for_push(a) == old(self).reserved_for_push(a)
                    && final(self).pending_push(a) == old(self).pending_push(a),
    {
        while self.monitor.len() <= agent
            invariant
                self.wf(),
                self.pool == old(self).pool,
                self.pending == old(self).pending,
                forall|a: int|
                    self.reserved_for_pop(a) == old(self).reserved_for_pop(a)
                        && self.reserved_for_push(a) == old(self).reserved_for_push(a),
            decreases agent + 1 - self.monitor@.len(),
        {
            self.monitor.push(None);
        }
        while self.pending.len() <= agent
            invariant
                self.wf(),
                self.pool == old(self).pool,
                agent < self.monitor@.len(),
                forall|a: int|
                    self.reserved_for_pop(a) == old(self).reserved_for_pop(a)
                        && self.reserved_for_push(a) == old(self).reserved_for_push(a)
                        && self.pending_push(a) == old(self).pending_push(a),
            decreases agent + 1 - self.pending@.len(),
        {
            self.pending.push(None);
        }
    }

    /// Puts `data` on top in one reserve-and-commit that nobody interrupts.
    /// The commit stores to the head, which cancels every reservation.
    pub fn push(&mut self, data: T)
        requires
            old(self).wf(),
        ensures
            final(self).wf(),
            final(self)@ == old(self)@.push(data),
            final(self)@ == step(old(self)@, StackOp::Push(data)).0,
            final(self).no_reservations(),
            forall|a: int| final(self).pending_push(a) == old(self).pending_push(a),
    {
        self.pool.push_node(data);
        self.clear_monitor();
    }

    /// Takes the top value off in one reserve-and-commit that nobody
    /// interrupts, or returns `None` when the stack is empty. Only a
    /// successful pop stores to the head and cancels the reservations.
    pub fn pop(&mut self) -> (r: Option<T>)
        requires
            old(self).wf(),
        ensures
            final(self).wf(),
            (final(self)@, r) == step(old(self)@, StackOp::Pop),
            forall|a: int| final(self).pending_push(a) == old(self).pending_push(a),
            old(self)@.len() == 0 ==> r is None && final(self)@ == old(self)@ && forall|a: int|
                final(self).reserved_for_pop(a) == old(self).reserved_for_pop(a)
                    && final(self).reserved_for_push(a) == old(self).reserved_for_push(a),
            old(self)@.len() > 0 ==> r == Some(old(self)@.last()) && final(self)@ == old(
                self,
            )@.drop_last() && final(self).no_reservations(),
    {
        match self.pool.head {
            None => None,
            Some(top) => {
                proof {
                    self.pool.lemma_head_live();
                }
                let next = self.pool.next_of(top);
                let v = self.pool.pop_node(top, next);
                self.clear_monitor();
                Some(v)
            },
        }
    }

    /// First step of a pop by `agent`: reserves the head and reads the top
    /// slot and its link. On an empty stack the agent's reservation is
    /// cleared instead and `false` comes back.
    pub fn pop_begin(&mut self, agent: usize) -> (r: bool)
        requires
            old(self).wf(),
        ensures
            final(self).wf(),
            final(self)@ == old(self)@,
            r == (old(self)@.len() > 0),
            final(self).reserved_for_pop(agent as int) == r,
            !final(self).reserved_for_push(agent as int),
            forall|a: int|
                a != agent ==> final(self).reserved_for_pop(a) == old(self).reserved_for_pop(a)
                    && final(self).reserved_for_push(a) == old(self).reserved_for_push(a),
            forall|a: int| final(self).pending_push(a) == old(self).pending_push(a),
    {
        self.make_room(agent);
        match self.pool.head {
            None => {
                self.monitor.set(agent, None);
                false
            },
            Some(top) => {
                proof {
                    self.pool.lemma_head_live();
                }
                let next = self.pool.next_of(top);
                self.monitor.set(agent, Some(Reservation::Pop { top, next }));
                true
            },
        }
    }

    /// Second step of a pop by `agent`: the conditional commit. It succeeds
    /// exactly when the agent still holds its reservation for a pop; it then
    /// swings the head to the link read at reservation and returns the old top
    /// value. Otherwise nothing changes and `None` comes back: the agent
    /// retries from the first step.
    pub fn pop_commit(&mut self, agent: usize) -> (r: Option<T>)
        requires
            old(self).wf(),
        ensures
            final(self).wf(),
            forall|a: int| final(self).pending_push(a) == old(self).pending_push(a),
            old(self).reserved_for_pop(agent as int) ==> (final(self)@, r) == step(
                old(self)@,
                StackOp::Pop,
            ),
            old(self).reserved_for_pop(agent as int) ==> old(self)@.len() > 0 && r == Some(
                old(self)@.last(),
            ) && final(self)@ == old(self)@.drop_last() && final(self).no_reservations(),
            !old(self).reserved_for_pop(agent as int) ==> r is None && final(self)@ == old(
                self,
            )@ && forall|a: int|
                final(self).reserved_for_pop(a) == old(self).reserved_for_pop(a)
                    && final(self).reserved_for_push(a) == old(self).reserved_for_push(a),
    {
        if agent < self.monitor.len() {
            if let Some(Reservation::Pop { top, next }) = self.monitor[agent] {
                assert(self.reservation_current(agent as int));
                let v = self.pool.pop_node(top, next);
                self.clear_monitor();
                return Some(v);
            }
        }
        None
    }

    /// First step of a push by `agent`: allocates a node for `data`, private
    /// to the agent, reserves the head and stores its value in the node's
    /// link (a plain store: nobody else sees the node yet).
    pub fn push_begin(&mut self, agent: usize, data: T)
        requires
            old(self).wf(),
            old(self).pending_push(agent as int) is None,
        ensures
            final(self).wf(),
            final(self)@ == old(self)@,
            final(self).pending_push(agent as int) == Some(data),
            final(self).reserved_for_push(agent as int),
            forall|a: int|
                a != agent ==> final(self).reserved_for_pop(a) == old(self).reserved_for_pop(a)
                    && final(self).reserved_for_push(a) == old(self).reserved_for_push(a)
                    && final(self).pending_push(a) == old(self).pending_push(a),
    {
        self.make_room(agent);
        let ghost before = *self;
        let ghost mid = self.pending@;
        let slot = self.pool.alloc_node(data);
        self.pending.set(agent, Some(slot));
        assert forall|a: int, b: int|
            0 <= a < b < self.pending@.len() && self.pending@[a] is Some
                && self.pending@[b] is Some implies self.pending@[a]->0
            != self.pending@[b]->0 by {
            if a == agent {
                assert(mid[b] is Some);
            } else if b == agent {
                assert(mid[a] is Some);
            }
        }
        assert forall|a: int|
            0 <= a < self.monitor@.len() && #[trigger] self.monitor@[a] is Some implies self.reservation_current(a) by {
            assert(before.reservation_current(a));
            match self.monitor@[a]->0 {
                Reservation::Pop { top, next } => {
                    self.pool.lemma_head_live();
                    let last = before.pool.chain@.len() - 1;
                    assert(before.pool.linked(last));
                    assert(self.pool.next_spec(before.pool.chain@[last]) == before.pool.next_spec(
                        before.pool.chain@[last],
                    ));
                },
                Reservation::Push { seen } => {
                    assert(mid[a] is Some);
                    assert(a != agent);
                    assert(before.pool.private@.contains(mid[a]->0));
                },
            }
        }
        self.push_reserve(agent);
    }

    /// Retry of a push by `agent` after a failed commit: reserves the head
    /// again and stores its value in the link of the agent's node.
    pub fn push_retry(&mut self, agent: usize)
        requires
            old(self).wf(),
            old(self).pending_push(agent as int) is Some,
        ensures
            final(self).wf(),
            final(self)@ == old(self)@,
            final(self).pending_push(agent as int) == old(self).pending_push(agent as int),
            final(self).reserved_for_push(agent as int),
            forall|a: int|
                a != agent ==> final(self).reserved_for_pop(a) == old(self).reserved_for_pop(a)
                    && final(self).reserved_for_push(a) == old(self).reserved_for_push(a)
                    && final(self).pending_push(a) == old(self).pending_push(a),
    {
        self.make_room(agent);
        self.push_reserve(agent);
    }

    /// Load-reserve of the head for the agent's pending node, and the store
    /// of what it read into the node's link.
    fn push_reserve(&mut self, agent: usize)
        requires
            old(self).wf(),
            agent < old(self).monitor@.len(),
            agent < old(self).pending@.len(),
            old(self).pending@[agent as int] is Some,
        ensures
            final(self).wf(),
            final(self)@ == old(self)@,
            final(self).pending_push(agent as int) == old(self).pending_push(agent as int),
            final(self).reserved_for_push(agent as int),
            forall|a: int|
                a != agent ==> final(self).reserved_for_pop(a) == old(self).reserved_for_pop(a)
                    && final(self).reserved_for_push(a) == old(self).reserved_for_push(a)
                    && final(self).pending_push(a) == old(self).pending_push(a),
    {
        let slot = self.pending[agent].unwrap();
        let seen = self.pool.head;
        assert(self.pool.private@.contains(slot));
        self.pool.link_node(slot, seen);
        self.monitor.set(agent, Some(Reservation::Push { seen }));
        assert forall|a: int|
            0 <= a < self.monitor@.len() && #[trigger] self.monitor@[a] is Some implies self.reservation_current(a) by {
            if a != agent {
                assert(old(self).reservation_current(a));
                match self.monitor@[a]->0 {
                    Reservation::Pop { top, next } => {
                        self.pool.lemma_head_live();
                        assert(!self.pool.private@.contains(top)) by {
                            assert(self.pool.linked(self.pool.chain@.len() - 1));
                        }
                    },
                    Reservation::Push { seen } => {
                        assert(self.pending@[a]->0 != slot) by {
                            if a < agent {
                                assert(self.pending@[a] is Some);
                            }
                        }
                    },
                }
            }
        }
    }

    /// Last step of a push by `agent`: the conditional commit. It succeeds
    /// exactly when the agent still holds its reservation for a push; the
    /// agent's node then becomes the head and every reservation is cancelled.
    /// Otherwise nothing changes, the node stays the agent's, and `false`
    /// comes back: the agent retries.
    pub fn push_commit(&mut self, agent: usize) -> (r: bool)
        requires
            old(self).wf(),
        ensures
            final(self).wf(),
            r == old(self).reserved_for_push(agent as int),
            r ==> old(self).pending_push(agent as int) is Some && final(self)@ == step(
                old(self)@,
                StackOp::Push(old(self).pending_push(agent as int)->0),
            ).0,
            r ==> old(self).pending_push(agent as int) is Some && final(self)@ == old(self)@.push(
                old(self).pending_push(agent as int)->0,
            ) && final(self).pending_push(agent as int) is None && final(self).no_reservations(),
            !r ==> final(self)@ == old(self)@ && forall|a: int|
                final(self).reserved_for_pop(a) == old(self).reserved_for_pop(a)
                    && final(self).reserved_for_push(a) == old(self).reserved_for_push(a),
            forall|a: int| a != agent ==> final(self).pending_push(a) == old(self).pending_push(a),
            !r ==> final(self).pending_push(agent as int) == old(self).pending_push(agent as int),
    {
        if agent < self.monitor.len() {
            if let Some(Reservation::Push { seen }) = self.monitor[agent] {
                assert(self.reservation_current(agent as int));
                let slot = self.pending[agent].unwrap();
                self.pool.publish_node(slot);
                self.pending.set(agent, None);
                self.monitor = Vec::new();
                assert forall|a: int|
                    0 <= a < self.pending@.len() && #[trigger] self.pending@[a] is Some implies
                    self.pool.private@.contains(self.pending@[a]->0) by {
                    assert(old(self).pending@[a] is Some);
                    assert(old(self).pending@[a]->0 != slot);
                }
                return true;
            }
        }
        false
    }
}

/// A handle through which several agents reach one monitor-guarded stack.
/// Every mutation it permits goes through the stack's commit step.
pub struct Stack<T> {
    data: StackHead<T>,
}

impl<T> View for Stack<T> {
    type V = Seq<T>;

    closed spec fn view(&self) -> Seq<T> {
        self.data@
    }
}

impl<T> Stack<T> {
    pub closed spec fn wf(&self) -> bool {
        self.data.wf()
    }

    /// The stack behind the handle.
    pub closed spec fn inner(&self) -> StackHead<T> {
        self.data
    }

    pub fn new() -> (r: Self)
        ensures
            r.wf(),
            r@ == Seq::<T>::empty(),
            r.inner()@ == Seq::<T>::empty(),
            r.inner().wf(),
            r.inner().no_reservations(),
            forall|a: int| r.inner().pending_push(a) is None,
    {
        Stack { data: StackHead::new() }
    }

    /// The stack behind the handle, for its push and pop operations.
    pub fn get_mut(&mut self) -> (r: &mut StackHead<T>)
        ensures
            *r == old(self).inner(),
            final(self).inner() == *final(r),
    {
        &mut self.data
    }
}

} // verus!
