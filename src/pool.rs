use vstd::prelude::*;

verus! {

/// One cell of the pool: a link to the node below it and the payload.
/// A slot whose payload is `None` is free.
pub(crate) struct Node<T> {
    pub(crate) next: Option<usize>,
    pub(crate) data: Option<T>,
}

/// The nodes of one stack, indexed by slot number.
///
/// `chain` lists the slots reachable from `head`, bottom first; `free` lists
/// the slots that may be handed out again, oldest first; `private` holds the
/// slots allocated by a pusher and not yet linked into the chain.
pub(crate) struct NodePool<T> {
    pub(crate) nodes: Vec<Node<T>>,
    pub(crate) free: Vec<usize>,
    pub(crate) head: Option<usize>,
    pub(crate) chain: Ghost<Seq<usize>>,
    pub(crate) private: Ghost<Set<usize>>,
}

impl<T> NodePool<T> {
    /// Position `i` of the chain is a live node linked to position `i - 1`.
    pub(crate) open spec fn linked(&self, i: int) -> bool {
        let idx = self.chain@[i];
        &&& idx < self.nodes@.len()
        &&& self.nodes@[idx as int].data is Some
        &&& self.nodes@[idx as int].next == (if i == 0 {
            None::<usize>
        } else {
            Some(self.chain@[i - 1])
        })
    }

    pub(crate) open spec fn wf(&self) -> bool {
        &&& forall|i: int| 0 <= i < self.chain@.len() ==> #[trigger] self.linked(i)
        &&& forall|i: int, j: int|
            0 <= i < j < self.chain@.len() ==> self.chain@[i] != self.chain@[j]
        &&& self.head == (if self.chain@.len() == 0 {
            None::<usize>
        } else {
            Some(self.chain@.last())
        })
        &&& forall|k: int|
            0 <= k < self.free@.len() ==> #[trigger] self.free@[k] < self.nodes@.len()
                && self.nodes@[self.free@[k] as int].data is None
        &&& forall|k: int, l: int|
            0 <= k < l < self.free@.len() ==> self.free@[k] != self.free@[l]
        &&& forall|p: usize| #[trigger]
            self.private@.contains(p) ==> p < self.nodes@.len() && self.nodes@[p as int].data is Some
                && !self.chain@.contains(p)
    }

    /// The payload held in slot `i`.
    pub(crate) open spec fn payload(&self, i: usize) -> T {
        self.nodes@[i as int].data->0
    }

    /// The payloads along the chain, bottom first.
    pub(crate) open spec fn view(&self) -> Seq<T> {
        Seq::new(self.chain@.len(), |i: int| self.nodes@[self.chain@[i] as int].data->0)
    }

    /// The link stored in slot `i`.
    pub(crate) open spec fn next_spec(&self, i: usize) -> Option<usize> {
        self.nodes@[i as int].next
    }

    /// The head designates a live slot.
    pub(crate) proof fn lemma_head_live(&self)
        requires
            self.wf(),
            self.head is Some,
        ensures
            self.head->0 < self.nodes@.len(),
            self.view().len() > 0,
    {
        assert(self.linked(self.chain@.len() - 1));
    }

    pub(crate) fn new() -> (r: Self)
        ensures
            r.wf(),
            r.view() == Seq::<T>::empty(),
            r.head is None,
    {
        NodePool {
            nodes: Vec::new(),
            free: Vec::new(),
            head: None,
            chain: Ghost(Seq::empty()),
            private: Ghost(Set::empty()),
        }
    }

    /// Reads the link of slot `i`.
    pub(crate) fn next_of(&self, i: usize) -> (r: Option<usize>)
        requires
            i < self.nodes@.len(),
        ensures
            r == self.next_spec(i),
    {
        self.nodes[i].next
    }

    /// Allocates a node for `data`, links it above the head and makes it the
    /// head. The oldest freed slot is reused first.
    pub(crate) fn push_node(&mut self, data: T)
        requires
            old(self).wf(),
        ensures
            final(self).wf(),
            final(self).view() == old(self).view().push(data),
            final(self).head is Some,
            final(self).private@ == old(self).private@,
            forall|p: usize| #[trigger]
                old(self).private@.contains(p) ==> final(self).payload(p) == old(self).payload(p)
                    && final(self).next_spec(p) == old(self).next_spec(p),
    {
        let node = Node { next: self.head, data: Some(data) };
        let slot: usize;
        if self.free.len() > 0 {
            slot = self.free.remove(0);
            assert(self.nodes@[slot as int].data is None);
            self.nodes.set(slot, node);
        } else {
            slot = self.nodes.len();
            self.nodes.push(node);
        }
        let ghost old_chain = self.chain@;
        assert forall|i: int| 0 <= i < old_chain.len() implies old_chain[i] != slot by {
            assert(old(self).linked(i));
        }
        self.head = Some(slot);
        self.chain = Ghost(old_chain.push(slot));
        assert forall|i: int| 0 <= i < self.chain@.len() implies #[trigger] self.linked(i) by {
            if i < old_chain.len() {
                assert(old(self).linked(i));
            }
        }
        assert forall|k: int| 0 <= k < self.free@.len() implies #[trigger] self.free@[k]
            < self.nodes@.len() && self.nodes@[self.free@[k] as int].data is None by {
            if old(self).free@.len() > 0 {
                assert(self.free@[k] == old(self).free@[k + 1]);
                assert(old(self).free@[0] != old(self).free@[k + 1]);
            }
        }
        assert(self.view() =~= old(self).view().push(data)) by {
            assert forall|i: int| 0 <= i < old_chain.len() implies self.view()[i] == old(
                self,
            ).view()[i] by {
                assert(old(self).linked(i));
            }
        }
    }

    /// Allocates an unlinked node for `data`, private to its pusher. The
    /// oldest freed slot is reused first.
    pub(crate) fn alloc_node(&mut self, data: T) -> (slot: usize)
        requires
            old(self).wf(),
        ensures
            final(self).wf(),
            final(self).view() == old(self).view(),
            final(self).head == old(self).head,
            final(self).private@ == old(self).private@.insert(slot),
            !old(self).private@.contains(slot),
            final(self).payload(slot) == data,
            forall|p: usize| #[trigger]
                old(self).private@.contains(p) ==> final(self).payload(p) == old(self).payload(p)
                    && final(self).next_spec(p) == old(self).next_spec(p),
            forall|i: int|
                0 <= i < old(self).chain@.len() ==> #[trigger] final(self).next_spec(
                    old(self).chain@[i],
                ) == old(self).next_spec(old(self).chain@[i]),
    {
        let node = Node { next: None, data: Some(data) };
        let slot: usize;
        if self.free.len() > 0 {
            slot = self.free.remove(0);
            assert(self.nodes@[slot as int].data is None);
            self.nodes.set(slot, node);
        } else {
            slot = self.nodes.len();
            self.nodes.push(node);
        }
        assert forall|i: int| 0 <= i < self.chain@.len() implies self.chain@[i] != slot by {
            assert(old(self).linked(i));
        }
        self.private = Ghost(self.private@.insert(slot));
        assert forall|i: int| 0 <= i < self.chain@.len() implies #[trigger] self.linked(i) by {
            assert(old(self).linked(i));
        }
        assert forall|i: int| 0 <= i < old(self).chain@.len() implies #[trigger] self.next_spec(
            old(self).chain@[i],
        ) == old(self).next_spec(old(self).chain@[i]) by {
            assert(old(self).linked(i));
        }
        assert forall|k: int| 0 <= k < self.free@.len() implies #[trigger] self.free@[k]
            < self.nodes@.len() && self.nodes@[self.free@[k] as int].data is None by {
            if old(self).free@.len() > 0 {
                assert(self.free@[k] == old(self).free@[k + 1]);
                assert(old(self).free@[0] != old(self).free@[k + 1]);
            }
        }
        assert(self.view() =~= old(self).view()) by {
            assert forall|i: int| 0 <= i < self.chain@.len() implies self.view()[i] == old(
                self,
            ).view()[i] by {
                assert(old(self).linked(i));
            }
        }
        slot
    }

    /// Sets the link of the private node `slot` to `next`.
    pub(crate) fn link_node(&mut self, slot: usize, next: Option<usize>)
        requires
            old(self).wf(),
            old(self).private@.contains(slot),
        ensures
            final(self).wf(),
            final(self).view() == old(self).view(),
            final(self).head == old(self).head,
            final(self).private@ == old(self).private@,
            final(self).next_spec(slot) == next,
            forall|p: usize| #[trigger]
                old(self).private@.contains(p) ==> final(self).payload(p) == old(self).payload(p),
            forall|i: usize|
                i != slot && i < old(self).nodes@.len() ==> #[trigger] final(self).next_spec(i)
                    == old(self).next_spec(i),
    {
        let mut node = Node { next: None, data: None };
        self.nodes.set_and_swap(slot, &mut node);
        node.next = next;
        self.nodes.set(slot, node);
        assert(self.nodes@ =~= old(self).nodes@.update(
            slot as int,
            Node { next, data: old(self).nodes@[slot as int].data },
        ));
        assert forall|i: int| 0 <= i < self.chain@.len() implies #[trigger] self.linked(i) by {
            assert(old(self).linked(i));
            assert(self.chain@[i] != slot);
        }
        assert(self.view() =~= old(self).view()) by {
            assert forall|i: int| 0 <= i < self.chain@.len() implies self.view()[i] == old(
                self,
            ).view()[i] by {
                assert(old(self).linked(i));
                assert(self.chain@[i] != slot);
            }
        }
    }

    /// Makes the private node `slot`, already linked to the head, the head.
    pub(crate) fn publish_node(&mut self, slot: usize)
        requires
            old(self).wf(),
            old(self).private@.contains(slot),
            old(self).next_spec(slot) == old(self).head,
        ensures
            final(self).wf(),
            final(self).view() == old(self).view().push(old(self).payload(slot)),
            final(self).private@ == old(self).private@.remove(slot),
            final(self).head == Some(slot),
            forall|p: usize| #[trigger]
                final(self).private@.contains(p) ==> final(self).payload(p) == old(self).payload(p)
                    && final(self).next_spec(p) == old(self).next_spec(p),
    {
        let ghost old_chain = self.chain@;
        self.head = Some(slot);
        self.chain = Ghost(old_chain.push(slot));
        self.private = Ghost(self.private@.remove(slot));
        assert forall|i: int| 0 <= i < old_chain.len() implies old_chain[i] != slot by {
            assert(old_chain.contains(old_chain[i]));
        }
        assert forall|i: int| 0 <= i < self.chain@.len() implies #[trigger] self.linked(i) by {
            if i < old_chain.len() {
                assert(old(self).linked(i));
            }
        }
        assert forall|p: usize| #[trigger] self.private@.contains(p) implies p < self.nodes@.len()
            && self.nodes@[p as int].data is Some && !self.chain@.contains(p) by {
            assert(old(self).private@.contains(p));
            if self.chain@.contains(p) {
                let i = choose|i: int| 0 <= i < self.chain@.len() && self.chain@[i] == p;
                if i < old_chain.len() {
                    assert(old_chain.contains(p));
                }
            }
        }
        assert(self.view() =~= old(self).view().push(old(self).payload(slot)));
    }

    /// Unlinks the head node `top`, whose link is `next`, frees its slot and
    /// returns its payload.
    pub(crate) fn pop_node(&mut self, top: usize, next: Option<usize>) -> (r: T)
        requires
            old(self).wf(),
            old(self).head == Some(top),
            old(self).next_spec(top) == next,
        ensures
            final(self).wf(),
            old(self).view().len() > 0,
            final(self).view() == old(self).view().drop_last(),
            r == old(self).view().last(),
            final(self).private@ == old(self).private@,
            forall|p: usize| #[trigger]
                old(self).private@.contains(p) ==> final(self).payload(p) == old(self).payload(p)
                    && final(self).next_spec(p) == old(self).next_spec(p),
    {
        let ghost old_chain = self.chain@;
        let ghost last = old_chain.len() - 1;
        assert(self.linked(last));
        let mut taken = Node { next: None, data: None };
        self.nodes.set_and_swap(top, &mut taken);
        self.head = next;
        self.free.push(top);
        self.chain = Ghost(old_chain.drop_last());
        assert forall|i: int| 0 <= i < self.chain@.len() implies #[trigger] self.linked(i) by {
            assert(old(self).linked(i));
            assert(old_chain[i] != old_chain[last]);
        }
        assert forall|k: int| 0 <= k < self.free@.len() implies #[trigger] self.free@[k]
            < self.nodes@.len() && self.nodes@[self.free@[k] as int].data is None by {
            if k < old(self).free@.len() {
                assert(old(self).free@[k] == self.free@[k]);
            }
        }
        assert forall|k: int, l: int| 0 <= k < l < self.free@.len() implies self.free@[k]
            != self.free@[l] by {
            if l == old(self).free@.len() {
                assert(old(self).free@[k] == self.free@[k]);
            }
        }
        assert(self.view() =~= old(self).view().drop_last()) by {
            assert forall|i: int| 0 <= i < self.chain@.len() implies self.view()[i] == old(
                self,
            ).view()[i] by {
                assert(old(self).linked(i));
                assert(old_chain[i] != old_chain[last]);
                assert(self.nodes@[old_chain[i] as int] == old(self).nodes@[old_chain[i] as int]);
            }
        }
        taken.data.unwrap()
    }
}

} // verus!
