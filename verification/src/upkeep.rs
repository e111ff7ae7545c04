//! Why the arena's invariant survives every operation, and what each
//! operation leaves untouched.

use crate::model::{ArenaView, NodeView};
use vstd::prelude::*;

verus! {

impl<T> ArenaView<T> {
    /// Changing the count of a live node to a positive number keeps the arena
    /// well formed.
    pub proof fn lemma_with_strong_wf(self, i: int, strong: nat)
        requires
            self.wf(),
            self.is_live(i),
            strong >= 1,
        ensures
            self.with_strong(i, strong).wf(),
            self.with_strong(i, strong).keeps_handles_but(self, i, strong - self.strong(i)),
    {
        let r = self.with_strong(i, strong);
        assert forall|k: int| #[trigger] r.is_live(k) implies r.node_ok(k) by {
            assert(self.is_live(k));
            assert(self.node_ok(k));
            match self.next(k) {
                Some(j) => {
                    assert(self.is_live(j));
                },
                None => {},
            }
        }
        assert forall|k: int| 0 <= k < self.len() && #[trigger] r.is_live(k) implies r.handles(k)
            == self.handles(k) + if k == i {
            strong - self.strong(i)
        } else {
            0
        } by {
            assert(self.is_live(k));
            assert(r.owner(k) == self.owner(k));
        }
    }

    /// Deallocating a node that no forward link owns keeps the arena well
    /// formed, and leaves the owning reference of its forward link to its
    /// successor as one that can be given up.
    pub proof fn lemma_without_wf(self, i: int)
        requires
            self.wf(),
            self.is_live(i),
            self.owner(i) is None,
        ensures
            self.without(i).wf(),
            self.without(i).shrunk_from(self),
            forall|k: int|
                #[trigger] self.without(i).is_live(k) ==> self.without(i).handles(k)
                    == self.handles(k) + if self.next(i) == Some(k) {
                    1int
                } else {
                    0
                },
            match self.next(i) {
                Some(j) => {
                    &&& i < j
                    &&& self.without(i).is_live(j)
                    &&& self.without(i).owner(j) is None
                    &&& self.without(i).handles(j) >= 1
                },
                None => true,
            },
    {
        let r = self.without(i);
        assert(self.node_ok(i));
        assert forall|k: int| #[trigger] r.is_live(k) implies r.node_ok(k) by {
            assert(self.is_live(k));
            assert(self.node_ok(k));
            match self.next(k) {
                Some(j) => {
                    assert(self.is_live(j));
                    assert(j != i);
                },
                None => {},
            }
        }
        match self.next(i) {
            Some(j) => {
                assert(self.is_live(j));
                assert(r.is_live(j));
                assert(r.node_ok(j));
            },
            None => {},
        }
        assert forall|k: int| #[trigger] r.is_live(k) implies r.handles(k) == self.handles(k)
            + if self.next(i) == Some(k) {
            1int
        } else {
            0
        } by {
            assert(self.is_live(k));
            assert(self.node_ok(k));
            if self.next(i) == Some(k) {
                assert(self.owner(k) == Some(i));
                assert(r.owner(k) is None);
            } else {
                assert(r.owner(k) == self.owner(k));
            }
        }
    }

    /// Giving up an owning reference that a handle holds keeps the arena well
    /// formed. It creates nothing, and touches only the node itself and nodes
    /// that hang behind it.
    pub proof fn lemma_released(self, i: int)
        requires
            self.wf(),
            self.is_live(i),
            self.handles(i) >= 1,
        ensures
            self.released(i).wf(),
            self.released(i).shrunk_from(self),
            self.released(i).keeps_handles_but(self, i, -1),
            self.released(i).is_live(i) <==> self.strong(i) > 1,
            self.released(i).is_live(i) ==> self.released(i) == self.with_strong(
                i,
                (self.strong(i) - 1) as nat,
            ),
            forall|k: int|
                0 <= k < self.len() && !self.is_behind(i, k) ==> #[trigger] self.released(
                    i,
                ).cells[k] == self.cells[k],
        decreases self.younger(i),
    {
        let r = self.released(i);
        if self.strong(i) > 1 {
            self.lemma_with_strong_wf(i, (self.strong(i) - 1) as nat);
            assert(r.shrunk_from(self));
        } else {
            self.lemma_without_wf(i);
            let freed = self.without(i);
            match self.next(i) {
                Some(j) => {
                    freed.lemma_released(j);
                    assert(r == freed.released(j));
                    assert(r.keeps_handles_but(self, i, -1)) by {
                        assert forall|k: int|
                            0 <= k < self.len() && #[trigger] r.is_live(k) implies r.handles(k)
                            == self.handles(k) + if k == i {
                            -1int
                        } else {
                            0
                        } by {
                            assert(freed.is_live(k));
                        }
                        assert forall|k: int|
                            #[trigger] self.is_live(k) && self.handles(k) + (if k == i {
                                -1int
                            } else {
                                0
                            }) >= 1 implies r.is_live(k) by {
                            assert(freed.is_live(k));
                        }
                    }
                    assert(r.shrunk_from(self)) by {
                        assert forall|k: int| #[trigger] r.is_live(k) implies self.is_live(k)
                            && r.value(k) == self.value(k) && r.next(k) == self.next(k)
                            && r.prev_link(k) == self.prev_link(k) && r.strong(k) <= self.strong(
                            k,
                        ) by {
                            assert(freed.is_live(k));
                        }
                    }
                    assert(!r.is_live(i)) by {
                        if r.is_live(i) {
                            assert(freed.is_live(i));
                        }
                    }
                    assert forall|k: int|
                        0 <= k < self.len() && !self.is_behind(i, k) implies #[trigger] r.cells[k]
                        == self.cells[k] by {
                        assert(k != i);
                        assert(freed.cells[k] == self.cells[k]);
                        assert(self.node_ok(j));
                        assert(self.is_live(j));
                        assert(!freed.is_behind(j, k));
                    }
                },
                None => {},
            }
        }
    }

    /// Creating a node keeps the arena well formed and changes no other node.
    pub proof fn lemma_created(self, value: T)
        requires
            self.wf(),
        ensures
            self.created(value).wf(),
            self.created(value).len() == self.len() + 1,
            self.created(value).is_live(self.len() as int),
            self.created(value).node(self.len() as int) == (NodeView {
                value,
                prev: None,
                next: None,
                strong: 1,
            }),
            self.created(value).handles(self.len() as int) == 1,
            self.created(value).keeps_handles(self),
            forall|k: int|
                0 <= k < self.len() ==> #[trigger] self.created(value).cells[k] == self.cells[k],
    {
        let r = self.created(value);
        assert forall|k: int| 0 <= k < self.len() && #[trigger] r.is_live(k) implies r.handles(k)
            == self.handles(k) by {
            assert(self.is_live(k));
            assert(self.node_ok(k));
            assert(r.owner(k) == self.owner(k));
        }
        assert forall|k: int| #[trigger] r.is_live(k) implies r.node_ok(k) by {
            if k < self.len() {
                assert(self.is_live(k));
                assert(self.node_ok(k));
                match self.next(k) {
                    Some(j) => {
                        assert(self.is_live(j));
                    },
                    None => {},
                }
            }
        }
    }

    /// Linking a new node behind `a` keeps the arena well formed; the successor
    /// that `a` had is then owned by no forward link.
    pub proof fn lemma_linked(self, a: int, value: T)
        requires
            self.wf(),
            self.is_live(a),
        ensures
            self.linked(a, value).wf(),
            self.linked(a, value).handles(self.len() as int) == 1,
            forall|k: int|
                0 <= k < self.len() && #[trigger] self.linked(a, value).is_live(k) ==> self.linked(
                    a,
                    value,
                ).handles(k) == self.handles(k) + if self.next(a) == Some(k) {
                    1int
                } else {
                    0
                },
            match self.next(a) {
                Some(j) => {
                    &&& a < j < self.len()
                    &&& self.linked(a, value).is_live(j)
                    &&& self.linked(a, value).owner(j) is None
                    &&& self.linked(a, value).strong(j) == self.strong(j)
                    &&& self.owner(j) == Some(a)
                },
                None => true,
            },
    {
        let r = self.linked(a, value);
        let fresh = self.len() as int;
        assert(self.node_ok(a));
        assert forall|k: int| #[trigger] r.is_live(k) implies r.node_ok(k) by {
            if k < self.len() {
                assert(self.is_live(k));
                assert(self.node_ok(k));
                if k != a {
                    match self.next(k) {
                        Some(j) => {
                            assert(self.is_live(j));
                        },
                        None => {},
                    }
                }
            }
        }
        match self.next(a) {
            Some(j) => {
                assert(self.is_live(j));
                assert(self.node_ok(j));
            },
            None => {},
        }
        assert forall|k: int| 0 <= k < self.len() && #[trigger] r.is_live(k) implies r.handles(k)
            == self.handles(k) + if self.next(a) == Some(k) {
            1int
        } else {
            0
        } by {
            assert(self.is_live(k));
            assert(self.node_ok(k));
            if self.next(a) == Some(k) {
                assert(self.owner(k) == Some(a));
                assert(r.owner(k) is None);
            } else {
                assert(r.owner(k) == self.owner(k));
            }
        }
    }

    /// Appending behind a live node keeps the arena well formed. The new node
    /// and `a` are linked to each other, the new node is held by that link and
    /// by one handle, and `a` is otherwise as before. Older nodes than `a`, and
    /// nodes that do not hang behind `a`, are unchanged. The successor that `a`
    /// had stays alive exactly if it had another owning reference.
    pub proof fn lemma_appended(self, a: int, value: T)
        requires
            self.wf(),
            self.is_live(a),
        ensures
            self.appended(a, value).wf(),
            self.appended(a, value).keeps_handles(self),
            self.appended(a, value).handles(self.len() as int) == 1,
            self.appended(a, value).len() == self.len() + 1,
            self.appended(a, value).is_live(self.len() as int),
            self.appended(a, value).node(self.len() as int) == (NodeView {
                value,
                prev: Some(a),
                next: None,
                strong: 2,
            }),
            self.appended(a, value).is_live(a),
            self.appended(a, value).node(a) == (NodeView {
                value: self.value(a),
                prev: self.prev_link(a),
                next: Some(self.len() as int),
                strong: self.strong(a),
            }),
            forall|k: int|
                0 <= k < self.len() && !self.is_behind(a, k) ==> #[trigger] self.appended(
                    a,
                    value,
                ).cells[k] == self.cells[k],
            forall|k: int|
                0 <= k < self.len() && k != a && #[trigger] self.appended(a, value).is_live(k) ==> {
                    &&& self.is_live(k)
                    &&& self.appended(a, value).value(k) == self.value(k)
                    &&& self.appended(a, value).next(k) == self.next(k)
                    &&& self.appended(a, value).prev_link(k) == self.prev_link(k)
                    &&& self.appended(a, value).strong(k) <= self.strong(k)
                },
            match self.next(a) {
                Some(j) => self.appended(a, value).is_live(j) <==> self.handles(j) >= 1,
                None => true,
            },
    {
        let r = self.appended(a, value);
        let l = self.linked(a, value);
        let fresh = self.len() as int;
        self.lemma_linked(a, value);
        assert(self.node_ok(a));
        match self.next(a) {
            Some(j) => {
                l.lemma_released(j);
                assert(r == l.released(j));
                assert(!l.is_behind(j, a));
                assert(!l.is_behind(j, fresh));
                assert(r.cells[a] == l.cells[a]);
                assert(r.cells[fresh] == l.cells[fresh]);
                assert(r.keeps_handles(self)) by {
                    assert forall|k: int|
                        0 <= k < self.len() && #[trigger] r.is_live(k) implies r.handles(k)
                        == self.handles(k) by {
                        assert(l.is_live(k));
                    }
                    assert forall|k: int|
                        #[trigger] self.is_live(k) && self.handles(k) >= 1 implies r.is_live(k) by {
                        assert(l.is_live(k));
                    }
                }
                assert forall|k: int|
                    0 <= k < self.len() && !self.is_behind(a, k) implies #[trigger] r.cells[k]
                    == self.cells[k] by {
                    assert(l.cells[k] == self.cells[k]);
                    assert(!l.is_behind(j, k));
                }
                assert forall|k: int|
                    0 <= k < self.len() && k != a && #[trigger] r.is_live(k) implies self.is_live(k)
                    && r.value(k) == self.value(k) && r.next(k) == self.next(k) && r.prev_link(k)
                    == self.prev_link(k) && r.strong(k) <= self.strong(k) by {
                    assert(l.is_live(k));
                }
            },
            None => {
                assert(r == l);
            },
        }
    }

    /// A forward walk from a live node yields its payload, then what the walk
    /// from its successor yields.
    pub proof fn lemma_forward_step(self, i: int)
        requires
            self.wf(),
            self.is_live(i),
        ensures
            self.forward_ids(i) == seq![i] + (match self.next(i) {
                Some(j) => self.forward_ids(j),
                None => Seq::empty(),
            }),
            self.forward_values(i) == seq![self.value(i)] + (match self.next(i) {
                Some(j) => self.forward_values(j),
                None => Seq::empty(),
            }),
    {
        assert(self.node_ok(i));
        let rest = match self.next(i) {
            Some(j) => self.forward_ids(j),
            None => Seq::empty(),
        };
        assert(self.forward_ids(i) =~= seq![i] + rest);
        assert(self.values_at(seq![i] + rest) =~= seq![self.value(i)] + self.values_at(rest));
        assert(self.values_at(Seq::empty()) =~= Seq::empty());
    }

    /// A backward walk from a live node yields its payload, then what the walk
    /// from its predecessor yields, if that is still alive.
    pub proof fn lemma_backward_step(self, i: int)
        requires
            self.wf(),
            self.is_live(i),
        ensures
            self.backward_ids(i) == seq![i] + (match self.prev(i) {
                Some(p) => self.backward_ids(p),
                None => Seq::empty(),
            }),
            self.backward_values(i) == seq![self.value(i)] + (match self.prev(i) {
                Some(p) => self.backward_values(p),
                None => Seq::empty(),
            }),
    {
        assert(self.node_ok(i));
        let rest = match self.prev(i) {
            Some(p) => self.backward_ids(p),
            None => Seq::empty(),
        };
        assert(self.backward_ids(i) =~= seq![i] + rest);
        assert(self.values_at(seq![i] + rest) =~= seq![self.value(i)] + self.values_at(rest));
        assert(self.values_at(Seq::empty()) =~= Seq::empty());
    }
}

} // verus!
