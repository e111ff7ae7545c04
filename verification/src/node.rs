//! Nodes, their handles, and the arena that holds them.

use crate::model::{ArenaView, NodeView};
use vstd::prelude::*;

verus! {

/// An owning handle to a node. While it is held, and until it is given back
/// with [`NodeArena::release`], the node stays alive.
#[derive(Debug)]
pub struct NodeRef {
    index: usize,
}

/// An observer of a node. It does not keep the node alive, and resolves to
/// nothing once the node has been deallocated.
#[derive(Debug, Clone, Copy)]
pub struct WeakRef {
    index: usize,
}

/// One element of a chain: a payload, an observing link to the predecessor and
/// an owning link to the successor.
#[derive(Debug)]
pub struct PartitionNode<T> {
    pub value: T,
    pub prev: Option<WeakRef>,
    pub next: Option<NodeRef>,
}

struct Slot<T> {
    node: PartitionNode<T>,
    strong: usize,
}

/// The storage of all nodes of any number of chains. Nodes are numbered in
/// order of creation, and a number is never used twice.
pub struct NodeArena<T> {
    slots: Vec<Option<Slot<T>>>,
}

impl View for NodeRef {
    type V = int;

    /// The number of the node that the handle owns.
    closed spec fn view(&self) -> int {
        self.index as int
    }
}

impl View for WeakRef {
    type V = int;

    /// The number of the node that is observed.
    closed spec fn view(&self) -> int {
        self.index as int
    }
}

impl NodeRef {
    /// The number of the node.
    pub fn index(&self) -> (i: usize)
        ensures
            i == self@,
    {
        self.index
    }

    /// An observer of the same node.
    pub fn downgrade(&self) -> (weak: WeakRef)
        ensures
            weak@ == self@,
    {
        WeakRef { index: self.index }
    }

    /// Whether both handles own the same node.
    pub fn ptr_eq(&self, other: &NodeRef) -> (same: bool)
        ensures
            same == (self@ == other@),
    {
        self.index == other.index
    }
}

impl WeakRef {
    /// The number of the node.
    pub fn index(&self) -> (i: usize)
        ensures
            i == self@,
    {
        self.index
    }
}

/// The number of the node that an owning link leads to, if there is a link.
pub open spec fn owned_index(link: Option<NodeRef>) -> Option<int> {
    match link {
        Some(node) => Some(node@),
        None => None,
    }
}

/// The number of the node that an observing link leads to, if there is a link.
pub open spec fn observed_index(link: Option<WeakRef>) -> Option<int> {
    match link {
        Some(weak) => Some(weak@),
        None => None,
    }
}

impl<T> PartitionNode<T> {
    /// The number of the node that the backward link observes.
    pub open spec fn prev_index(&self) -> Option<int> {
        observed_index(self.prev)
    }

    /// The number of the node that the forward link owns.
    pub open spec fn next_index(&self) -> Option<int> {
        owned_index(self.next)
    }
}

spec fn slot_view<T>(slot: Option<Slot<T>>) -> Option<NodeView<T>> {
    match slot {
        Some(s) => Some(
            NodeView {
                value: s.node.value,
                prev: s.node.prev_index(),
                next: s.node.next_index(),
                strong: s.strong as nat,
            },
        ),
        None => None,
    }
}

impl<T> View for NodeArena<T> {
    type V = ArenaView<T>;

    closed spec fn view(&self) -> ArenaView<T> {
        ArenaView { cells: Seq::new(self.slots@.len(), |i: int| slot_view(self.slots@[i])) }
    }
}

impl<T> NodeArena<T> {
    /// The arena's invariant, which every function here keeps.
    pub open spec fn wf(&self) -> bool {
        self@.wf()
    }

    /// An arena without nodes.
    pub fn new() -> (arena: NodeArena<T>)
        ensures
            arena@ == ArenaView::<T>::empty(),
            arena.wf(),
    {
        let arena = NodeArena { slots: Vec::new() };
        assert(arena@.cells =~= Seq::empty());
        arena
    }
}

impl<T> NodeArena<T> {
    /// Sets the count of owning references of a live node.
    fn set_strong(&mut self, i: usize, strong: usize)
        requires
            old(self)@.is_live(i as int),
        ensures
            final(self)@ == old(self)@.with_strong(i as int, strong as nat),
    {
        match &mut self.slots[i] {
            Some(slot) => {
                slot.strong = strong;
            },
            None => {},
        }
        assert(self@.cells =~= old(self)@.with_strong(i as int, strong as nat).cells);
    }

    /// Sets the forward link of a live node, and hands back the one it had.
    fn replace_next(&mut self, i: usize, next: Option<NodeRef>) -> (before: Option<NodeRef>)
        requires
            old(self)@.is_live(i as int),
        ensures
            final(self)@ == old(self)@.with_next(i as int, owned_index(next)),
            owned_index(before) == old(self)@.next(i as int),
    {
        let ghost link = owned_index(next);
        let mut before = next;
        match &mut self.slots[i] {
            Some(slot) => {
                core::mem::swap(&mut slot.node.next, &mut before);
            },
            None => {},
        }
        assert(self@.cells =~= old(self)@.with_next(i as int, link).cells);
        before
    }

    /// Deallocates a live node, and hands back the forward link it had.
    fn free(&mut self, i: usize) -> (next: Option<NodeRef>)
        requires
            old(self)@.is_live(i as int),
        ensures
            final(self)@ == old(self)@.without(i as int),
            owned_index(next) == old(self)@.next(i as int),
    {
        let mut taken: Option<Slot<T>> = None;
        self.slots.set_and_swap(i, &mut taken);
        assert(self@.cells =~= old(self)@.without(i as int).cells);
        match taken {
            Some(slot) => slot.node.next,
            None => None,
        }
    }
}

impl<T> NodeArena<T> {
    /// The number of nodes ever created in this arena.
    pub fn len(&self) -> (n: usize)
        ensures
            n == self@.len(),
    {
        self.slots.len()
    }

    /// The node behind an owning handle.
    pub fn node(&self, node: &NodeRef) -> (out: &PartitionNode<T>)
        requires
            self@.is_live(node@),
        ensures
            out.value == self@.value(node@),
            out.prev_index() == self@.prev_link(node@),
            out.next_index() == self@.next(node@),
    {
        let slot = self.slots[node.index].as_ref().unwrap();
        &slot.node
    }

    /// The node that an observer points to, if it still exists. This is how a
    /// backward link is resolved; it hands out no owning handle.
    pub fn get(&self, weak: WeakRef) -> (out: Option<&PartitionNode<T>>)
        ensures
            out is Some <==> self@.is_live(weak@),
            match out {
                Some(found) => {
                    &&& found.value == self@.value(weak@)
                    &&& found.prev_index() == self@.prev_link(weak@)
                    &&& found.next_index() == self@.next(weak@)
                },
                None => true,
            },
    {
        if weak.index < self.slots.len() {
            match &self.slots[weak.index] {
                Some(slot) => Some(&slot.node),
                None => None,
            }
        } else {
            None
        }
    }

    /// The number of owning references to the node: handles, and the forward
    /// link of its predecessor if that still leads here.
    pub fn strong_count(&self, node: &NodeRef) -> (count: usize)
        requires
            self@.is_live(node@),
        ensures
            count == self@.strong(node@),
    {
        self.slots[node.index].as_ref().unwrap().strong
    }
}

impl<T> NodeArena<T> {
    /// Hands out one more owning handle to the node.
    pub fn clone_ref(&mut self, node: &NodeRef) -> (handle: NodeRef)
        requires
            old(self).wf(),
            old(self)@.is_live(node@),
            old(self)@.strong(node@) < usize::MAX,
        ensures
            final(self)@ == old(self)@.retained(node@),
            final(self).wf(),
            final(self)@.keeps_handles_but(old(self)@, node@, 1),
            handle@ == node@,
    {
        let count = self.strong_count(node);
        self.set_strong(node.index, count + 1);
        proof {
            old(self)@.lemma_with_strong_wf(node@, (count + 1) as nat);
        }
        NodeRef { index: node.index }
    }

    /// Resolves an observer: an owning handle to the node if it is still
    /// alive, nothing if it has been deallocated. The arena changes only by
    /// the count of the handle that is handed out.
    pub fn upgrade(&mut self, weak: WeakRef) -> (handle: Option<NodeRef>)
        requires
            old(self).wf(),
            old(self)@.is_live(weak@) ==> old(self)@.strong(weak@) < usize::MAX,
        ensures
            final(self).wf(),
            handle is Some <==> old(self)@.is_live(weak@),
            match handle {
                Some(node) => {
                    &&& node@ == weak@
                    &&& final(self)@ == old(self)@.retained(weak@)
                    &&& final(self)@.keeps_handles_but(old(self)@, weak@, 1)
                },
                None => final(self)@ == old(self)@,
            },
    {
        if weak.index < self.slots.len() && self.slots[weak.index].is_some() {
            let node = NodeRef { index: weak.index };
            let handle = self.clone_ref(&node);
            Some(handle)
        } else {
            None
        }
    }

    /// Gives an owning handle back. While other owning references remain the
    /// node stays; with the last one it is deallocated, and so is every
    /// successor in turn that only the forward link before it kept alive.
    pub fn release(&mut self, node: NodeRef)
        requires
            old(self).wf(),
            old(self)@.is_live(node@),
            old(self)@.handles(node@) >= 1,
        ensures
            final(self)@ == old(self)@.released(node@),
            final(self).wf(),
            final(self)@.shrunk_from(old(self)@),
            final(self)@.keeps_handles_but(old(self)@, node@, -1),
            final(self)@.is_live(node@) <==> old(self)@.strong(node@) > 1,
    {
        proof {
            old(self)@.lemma_released(node@);
        }
        let mut cur: usize = node.index;
        loop
            invariant_except_break
                self.wf(),
                self@.is_live(cur as int),
                self@.handles(cur as int) >= 1,
                self@.released(cur as int) == old(self)@.released(node@),
            ensures
                self@ == old(self)@.released(node@),
                self.wf(),
            decreases self@.younger(cur as int),
        {
            let ghost before = self@;
            proof {
                before.lemma_released(cur as int);
            }
            let count = self.slots[cur].as_ref().unwrap().strong;
            if count > 1 {
                self.set_strong(cur, count - 1);
                break ;
            }
            proof {
                before.lemma_without_wf(cur as int);
            }
            match self.free(cur) {
                Some(next) => {
                    cur = next.index;
                },
                None => {
                    break ;
                },
            }
        }
    }
}

/// The payloads that a sequence of references leads to.
pub open spec fn payloads<T>(refs: Seq<&T>) -> Seq<T> {
    Seq::new(refs.len(), |k: int| *refs[k])
}

impl<T> NodeArena<T> {
    /// Walks the chain from `from` along the forward links, and returns the
    /// payloads in the order in which they are met.
    pub fn forward_values(&self, from: &NodeRef) -> (out: Vec<&T>)
        requires
            self.wf(),
            self@.is_live(from@),
        ensures
            payloads(out@) == self@.forward_values(from@),
    {
        let mut out: Vec<&T> = Vec::new();
        let mut cur: usize = from.index;
        assert(payloads(out@) =~= Seq::empty());
        loop
            invariant_except_break
                self.wf(),
                self@.is_live(cur as int),
                self@.forward_values(from@) == payloads(out@) + self@.forward_values(cur as int),
            ensures
                payloads(out@) == self@.forward_values(from@),
            decreases self@.younger(cur as int),
        {
            proof {
                self@.lemma_forward_step(cur as int);
                assert(self@.node_ok(cur as int));
            }
            let ghost seen = out@;
            let slot = self.slots[cur].as_ref().unwrap();
            out.push(&slot.node.value);
            assert(payloads(out@) =~= payloads(seen) + seq![self@.value(cur as int)]);
            match &slot.node.next {
                Some(next) => {
                    assert(self@.forward_values(from@) =~= payloads(out@) + self@.forward_values(
                        next@,
                    ));
                    cur = next.index;
                },
                None => {
                    assert(self@.forward_values(from@) =~= payloads(out@));
                    break ;
                },
            }
        }
        out
    }

    /// Walks the chain from `from` along the backward links for as long as
    /// they resolve, and returns the payloads in the order in which they are
    /// met. A link to a deallocated node ends the walk.
    pub fn backward_values(&self, from: &NodeRef) -> (out: Vec<&T>)
        requires
            self.wf(),
            self@.is_live(from@),
        ensures
            payloads(out@) == self@.backward_values(from@),
    {
        let mut out: Vec<&T> = Vec::new();
        let mut cur: usize = from.index;
        assert(payloads(out@) =~= Seq::empty());
        loop
            invariant_except_break
                self.wf(),
                self@.is_live(cur as int),
                self@.backward_values(from@) == payloads(out@) + self@.backward_values(
                    cur as int,
                ),
            ensures
                payloads(out@) == self@.backward_values(from@),
            decreases cur,
        {
            proof {
                self@.lemma_backward_step(cur as int);
                assert(self@.node_ok(cur as int));
            }
            let ghost seen = out@;
            let slot = self.slots[cur].as_ref().unwrap();
            out.push(&slot.node.value);
            assert(payloads(out@) =~= payloads(seen) + seq![self@.value(cur as int)]);
            match slot.node.prev {
                Some(weak) => {
                    if self.slots[weak.index].is_some() {
                        assert(self@.backward_values(from@) =~= payloads(out@)
                            + self@.backward_values(weak@));
                        cur = weak.index;
                    } else {
                        assert(self@.backward_values(from@) =~= payloads(out@));
                        break ;
                    }
                },
                None => {
                    assert(self@.backward_values(from@) =~= payloads(out@));
                    break ;
                },
            }
        }
        out
    }
}

impl<T> PartitionNode<T> {
    /// Creates a node with no links, and returns the one handle that owns it.
    pub fn new(arena: &mut NodeArena<T>, value: T) -> (node: NodeRef)
        requires
            old(arena).wf(),
        ensures
            final(arena)@ == old(arena)@.created(value),
            final(arena).wf(),
            node@ == old(arena)@.len(),
            final(arena)@.is_live(node@),
            final(arena)@.value(node@) == value,
            final(arena)@.next(node@) is None,
            final(arena)@.prev_link(node@) is None,
            final(arena)@.prev(node@) is None,
            final(arena)@.strong(node@) == 1,
            final(arena)@.handles(node@) == 1,
            final(arena)@.keeps_handles(old(arena)@),
            forall|k: int|
                0 <= k < old(arena)@.len() ==> #[trigger] final(arena)@.cells[k] == old(
                    arena,
                )@.cells[k],
    {
        let index = arena.slots.len();
        let node = PartitionNode { value, prev: None, next: None };
        arena.slots.push(Some(Slot { node, strong: 1 }));
        proof {
            assert(arena@.cells =~= old(arena)@.created(value).cells);
            old(arena)@.lemma_created(value);
        }
        NodeRef { index }
    }

    /// Links a new node behind `node`, and returns an owning handle to it.
    ///
    /// The new node observes `node` through its backward link, and `node` owns
    /// it through its forward link. A successor that `node` had before is no
    /// longer reachable from it, and loses the owning reference of the link.
    pub fn append(arena: &mut NodeArena<T>, node: &NodeRef, value: T) -> (succ: NodeRef)
        requires
            old(arena).wf(),
            old(arena)@.is_live(node@),
        ensures
            final(arena)@ == old(arena)@.appended(node@, value),
            final(arena).wf(),
            succ@ == old(arena)@.len(),
            final(arena)@.is_live(succ@),
            final(arena)@.is_live(node@),
            final(arena)@.next(node@) == Some(succ@),
            final(arena)@.prev(succ@) == Some(node@),
            final(arena)@.value(succ@) == value,
            final(arena)@.next(succ@) is None,
            final(arena)@.strong(succ@) == 2,
            final(arena)@.value(node@) == old(arena)@.value(node@),
            final(arena)@.prev_link(node@) == old(arena)@.prev_link(node@),
            final(arena)@.strong(node@) == old(arena)@.strong(node@),
            final(arena)@.handles(succ@) == 1,
            final(arena)@.keeps_handles(old(arena)@),
            forall|k: int|
                0 <= k < old(arena)@.len() && k != node@ && #[trigger] final(arena)@.is_live(k)
                    ==> {
                    &&& old(arena)@.is_live(k)
                    &&& final(arena)@.value(k) == old(arena)@.value(k)
                    &&& final(arena)@.next(k) == old(arena)@.next(k)
                    &&& final(arena)@.prev_link(k) == old(arena)@.prev_link(k)
                    &&& final(arena)@.strong(k) <= old(arena)@.strong(k)
                },
            match old(arena)@.next(node@) {
                Some(j) => final(arena)@.is_live(j) <==> old(arena)@.handles(j) >= 1,
                None => true,
            },
    {
        let index = arena.slots.len();
        let fresh = PartitionNode { value, prev: Some(node.downgrade()), next: None };
        arena.slots.push(Some(Slot { node: fresh, strong: 2 }));
        let orphan = arena.replace_next(node.index, Some(NodeRef { index }));
        proof {
            assert(arena@.cells =~= old(arena)@.linked(node@, value).cells);
            old(arena)@.lemma_linked(node@, value);
            old(arena)@.lemma_appended(node@, value);
        }
        match orphan {
            Some(successor) => {
                arena.release(successor);
            },
            None => {},
        }
        NodeRef { index }
    }
}

} // verus!
