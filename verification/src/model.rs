//! The mathematical model of an arena of chained nodes.

use vstd::prelude::*;

verus! {

/// What one live node holds: its payload, its two links (as node numbers) and
/// the number of owning references that keep it alive.
pub struct NodeView<T> {
    pub value: T,
    pub prev: Option<int>,
    pub next: Option<int>,
    pub strong: nat,
}

/// The arena as a sequence of cells, one per node ever created, in order of
/// creation. A cell is `None` once its node has been deallocated.
pub struct ArenaView<T> {
    pub cells: Seq<Option<NodeView<T>>>,
}

impl<T> ArenaView<T> {
    /// The arena in which no node was ever created.
    pub open spec fn empty() -> ArenaView<T> {
        ArenaView { cells: Seq::empty() }
    }

    /// The number of nodes ever created.
    pub open spec fn len(self) -> nat {
        self.cells.len()
    }

    /// How many nodes were created from node `i` on, `i` included. Forward
    /// links lead to younger nodes, so this bounds a walk along them.
    pub open spec fn younger(self, i: int) -> nat {
        if i < self.cells.len() {
            (self.cells.len() - i) as nat
        } else {
            0
        }
    }

    /// Node `i` was created and has not been deallocated.
    pub open spec fn is_live(self, i: int) -> bool {
        0 <= i < self.cells.len() && self.cells[i] is Some
    }

    /// What the live node `i` holds.
    pub open spec fn node(self, i: int) -> NodeView<T>
        recommends
            self.is_live(i),
    {
        self.cells[i]->0
    }

    /// The payload of node `i`.
    pub open spec fn value(self, i: int) -> T
        recommends
            self.is_live(i),
    {
        self.node(i).value
    }

    /// The owning forward link of node `i`.
    pub open spec fn next(self, i: int) -> Option<int>
        recommends
            self.is_live(i),
    {
        self.node(i).next
    }

    /// The observing backward link of node `i` as it is stored, whether or not
    /// its target still exists.
    pub open spec fn prev_link(self, i: int) -> Option<int>
        recommends
            self.is_live(i),
    {
        self.node(i).prev
    }

    /// The backward link of node `i`, resolved: the predecessor if it is still
    /// alive, nothing otherwise.
    pub open spec fn prev(self, i: int) -> Option<int>
        recommends
            self.is_live(i),
    {
        match self.prev_link(i) {
            Some(p) => if self.is_live(p) {
                Some(p)
            } else {
                None
            },
            None => None,
        }
    }

    /// The number of owning references to node `i`: handles held outside the
    /// arena, plus the forward link of its owner, if it has one.
    pub open spec fn strong(self, i: int) -> nat
        recommends
            self.is_live(i),
    {
        self.node(i).strong
    }

    /// The node whose forward link owns node `i`, if there is one.
    pub open spec fn owner(self, i: int) -> Option<int>
        recommends
            self.is_live(i),
    {
        match self.prev_link(i) {
            Some(p) => if self.is_live(p) && self.next(p) == Some(i) {
                Some(p)
            } else {
                None
            },
            None => None,
        }
    }

    /// The number of owning handles to node `i` that are held outside the arena.
    pub open spec fn handles(self, i: int) -> int
        recommends
            self.is_live(i),
    {
        if self.owner(i) is Some {
            self.strong(i) - 1
        } else {
            self.strong(i) as int
        }
    }

    /// What must hold of the live node `i`.
    pub open spec fn node_ok(self, i: int) -> bool {
        &&& self.strong(i) >= 1
        &&& match self.next(i) {
            Some(j) => i < j && self.is_live(j) && self.prev_link(j) == Some(i),
            None => true,
        }
        &&& match self.prev_link(i) {
            Some(p) => 0 <= p < i,
            None => true,
        }
    }

    /// The arena's invariant: every live node is owned by someone, a forward
    /// link leads to a live, younger node whose backward link leads back, and a
    /// backward link leads to an older node.
    pub open spec fn wf(self) -> bool {
        forall|i: int| #[trigger] self.is_live(i) ==> self.node_ok(i)
    }

    /// The arena with node `i` holding `strong` owning references.
    pub open spec fn with_strong(self, i: int, strong: nat) -> ArenaView<T>
        recommends
            self.is_live(i),
    {
        ArenaView {
            cells: self.cells.update(
                i,
                Some(
                    NodeView {
                        value: self.value(i),
                        prev: self.prev_link(i),
                        next: self.next(i),
                        strong,
                    },
                ),
            ),
        }
    }

    /// The arena with the forward link of node `i` set to `next`.
    pub open spec fn with_next(self, i: int, next: Option<int>) -> ArenaView<T>
        recommends
            self.is_live(i),
    {
        ArenaView {
            cells: self.cells.update(
                i,
                Some(
                    NodeView {
                        value: self.value(i),
                        prev: self.prev_link(i),
                        next,
                        strong: self.strong(i),
                    },
                ),
            ),
        }
    }

    /// The arena with node `i` deallocated.
    pub open spec fn without(self, i: int) -> ArenaView<T> {
        ArenaView { cells: self.cells.update(i, None) }
    }

    /// The arena after a node with payload `value` and no links was created.
    /// The new node is number `self.len()` and is held by one handle.
    pub open spec fn created(self, value: T) -> ArenaView<T> {
        ArenaView {
            cells: self.cells.push(Some(NodeView { value, prev: None, next: None, strong: 1 })),
        }
    }

    /// The arena after one more owning handle to node `i` was handed out.
    pub open spec fn retained(self, i: int) -> ArenaView<T>
        recommends
            self.is_live(i),
    {
        self.with_strong(i, self.strong(i) + 1)
    }

    /// The arena after one owning reference to node `i` was given up.
    ///
    /// While other owning references remain, only the count drops. With the
    /// last one the node is deallocated, and the owning reference that its
    /// forward link held is given up in turn.
    pub open spec fn released(self, i: int) -> ArenaView<T>
        decreases self.younger(i),
    {
        if !self.is_live(i) {
            self
        } else if self.strong(i) > 1 {
            self.with_strong(i, (self.strong(i) - 1) as nat)
        } else {
            match self.next(i) {
                Some(j) => if i < j {
                    self.without(i).released(j)
                } else {
                    self.without(i)
                },
                None => self.without(i),
            }
        }
    }

    /// How many nodes are deallocated when one owning reference to node `i` is
    /// given up: the length of the run of nodes, from `i` on along the forward
    /// links, that have no second owning reference.
    pub open spec fn unheld_run(self, i: int) -> nat
        decreases self.younger(i),
    {
        if !self.is_live(i) || self.strong(i) > 1 {
            0
        } else {
            match self.next(i) {
                Some(j) => if i < j {
                    1 + self.unheld_run(j)
                } else {
                    1
                },
                None => 1,
            }
        }
    }

    /// The arena after `n` owning references to node `i` were given up, one
    /// after the other.
    pub open spec fn released_times(self, i: int, n: nat) -> ArenaView<T>
        decreases n,
    {
        if n == 0 {
            self
        } else {
            self.released(i).released_times(i, (n - 1) as nat)
        }
    }

    /// The arena in which a new node is linked behind node `a`, before the
    /// successor that `a` had loses its owning reference.
    pub open spec fn linked(self, a: int, value: T) -> ArenaView<T>
        recommends
            self.is_live(a),
    {
        ArenaView {
            cells: self.cells.push(
                Some(NodeView { value, prev: Some(a), next: None, strong: 2 }),
            ),
        }.with_next(a, Some(self.len() as int))
    }

    /// The arena after a new node with payload `value` was linked behind node
    /// `a`. The new node is number `self.len()`; it is held by the forward link
    /// of `a` and by one handle. A successor that `a` had before loses the
    /// owning reference that the link held.
    pub open spec fn appended(self, a: int, value: T) -> ArenaView<T>
        recommends
            self.is_live(a),
    {
        match self.next(a) {
            Some(j) => self.linked(a, value).released(j),
            None => self.linked(a, value),
        }
    }

    /// The arena after one node for each of `values` was appended, the first
    /// behind node `tail` and each further one behind the one before it.
    pub open spec fn extended(self, tail: int, values: Seq<T>) -> ArenaView<T>
        decreases values.len(),
    {
        if values.len() == 0 {
            self
        } else {
            self.appended(tail, values[0]).extended(self.len() as int, values.drop_first())
        }
    }

    /// The last node of the chain that `extended` builds.
    pub open spec fn extended_tail(self, tail: int, values: Seq<T>) -> int {
        if values.len() == 0 {
            tail
        } else {
            self.len() + values.len() - 1
        }
    }

    /// The nodes met from node `i` on by following forward links, `i` first.
    pub open spec fn forward_ids(self, i: int) -> Seq<int>
        decreases self.younger(i),
    {
        if !self.is_live(i) {
            Seq::empty()
        } else {
            match self.next(i) {
                Some(j) => if i < j {
                    seq![i] + self.forward_ids(j)
                } else {
                    seq![i]
                },
                None => seq![i],
            }
        }
    }

    /// The nodes met from node `i` on by following backward links for as long
    /// as they resolve, `i` first.
    pub open spec fn backward_ids(self, i: int) -> Seq<int>
        decreases i,
    {
        if !self.is_live(i) {
            Seq::empty()
        } else {
            match self.prev(i) {
                Some(p) => if 0 <= p < i {
                    seq![i] + self.backward_ids(p)
                } else {
                    seq![i]
                },
                None => seq![i],
            }
        }
    }

    /// The payloads of the nodes `ids`, in that order.
    pub open spec fn values_at(self, ids: Seq<int>) -> Seq<T> {
        Seq::new(ids.len(), |k: int| self.value(ids[k]))
    }

    /// The payloads met from node `i` on by following forward links.
    pub open spec fn forward_values(self, i: int) -> Seq<T> {
        self.values_at(self.forward_ids(i))
    }

    /// The payloads met from node `i` on by following backward links for as
    /// long as they resolve.
    pub open spec fn backward_values(self, i: int) -> Seq<T> {
        self.values_at(self.backward_ids(i))
    }

    /// Giving up owning references to node `i` can change node `k`: it is `i`
    /// itself, or its backward link leads to `i` or to a younger node.
    pub open spec fn is_behind(self, i: int, k: int) -> bool {
        k == i || (self.is_live(k) && match self.prev_link(k) {
            Some(p) => p >= i,
            None => false,
        })
    }

    /// This arena came out of `before` by giving up owning references: no node
    /// was created, and every node that is still alive kept its payload and its
    /// links and gained no owning reference.
    pub open spec fn shrunk_from(self, before: ArenaView<T>) -> bool {
        &&& self.len() == before.len()
        &&& forall|k: int| #[trigger]
            self.is_live(k) ==> {
                &&& before.is_live(k)
                &&& self.value(k) == before.value(k)
                &&& self.next(k) == before.next(k)
                &&& self.prev_link(k) == before.prev_link(k)
                &&& self.strong(k) <= before.strong(k)
            }
    }

    /// Handles keep their nodes alive. Against `before`, node `i` is owned by
    /// `delta` handles more, and every other node by as many handles as it was;
    /// and every node of `before` that a handle still owns is alive.
    pub open spec fn keeps_handles_but(self, before: ArenaView<T>, i: int, delta: int) -> bool {
        &&& forall|k: int|
            0 <= k < before.len() && #[trigger] self.is_live(k) ==> self.handles(k)
                == before.handles(k) + if k == i {
                delta
            } else {
                0
            }
        &&& forall|k: int|
            #[trigger] before.is_live(k) && before.handles(k) + (if k == i {
                delta
            } else {
                0
            }) >= 1 ==> self.is_live(k)
    }

    /// Handles keep their nodes alive: every node is owned by as many handles
    /// as it was in `before`, and every node of `before` that a handle owns is
    /// alive.
    pub open spec fn keeps_handles(self, before: ArenaView<T>) -> bool {
        self.keeps_handles_but(before, 0, 0)
    }
}

} // verus!
