//! What holds of chains in every well-formed arena, proved over the model.

use crate::model::ArenaView;
use vstd::prelude::*;

verus! {

/// A live node is owned by at most one forward link, the one of the node that
/// its backward link observes; and it never has fewer owning references than
/// that link accounts for.
pub proof fn lemma_owner_is_unique<T>(arena: ArenaView<T>, p: int, k: int)
    requires
        arena.wf(),
        arena.is_live(p),
        arena.next(p) == Some(k),
    ensures
        arena.is_live(k),
        arena.owner(k) == Some(p),
        arena.prev(k) == Some(p),
        arena.handles(k) >= 0,
        p < k,
{
    assert(arena.node_ok(p));
    assert(arena.node_ok(k));
}

/// A linked node never becomes detached again. Whatever is done to a
/// well-formed arena, a node that has a successor and is still alive afterwards
/// still has one; only appending behind the node itself changes which one.
pub proof fn lemma_linked_stays_linked<T>(arena: ArenaView<T>, k: int, i: int, value: T)
    requires
        arena.wf(),
        arena.is_live(k),
        arena.next(k) is Some,
        arena.is_live(i),
    ensures
        arena.created(value).is_live(k) && arena.created(value).next(k) == arena.next(k),
        arena.retained(i).is_live(k) && arena.retained(i).next(k) == arena.next(k),
        arena.appended(i, value).is_live(k) ==> if k == i {
            arena.appended(i, value).next(k) == Some(arena.len() as int)
        } else {
            arena.appended(i, value).next(k) == arena.next(k)
        },
        arena.handles(i) >= 1 && arena.released(i).is_live(k) ==> arena.released(i).next(k)
            == arena.next(k),
{
    arena.lemma_created(value);
    arena.lemma_appended(i, value);
    if arena.handles(i) >= 1 {
        arena.lemma_released(i);
    }
}

/// Forward links never form a cycle: a forward walk meets live nodes only, each
/// younger than the one before.
pub proof fn lemma_forward_walk_ascends<T>(arena: ArenaView<T>, i: int)
    requires
        arena.wf(),
        arena.is_live(i),
    ensures
        arena.forward_ids(i).len() >= 1,
        arena.forward_ids(i)[0] == i,
        forall|m: int|
            0 <= m < arena.forward_ids(i).len() ==> arena.is_live(
                #[trigger] arena.forward_ids(i)[m],
            ),
        forall|m: int, n: int|
            0 <= m < n < arena.forward_ids(i).len() ==> #[trigger] arena.forward_ids(i)[m]
                < #[trigger] arena.forward_ids(i)[n],
    decreases arena.younger(i),
{
    arena.lemma_forward_step(i);
    assert(arena.node_ok(i));
    match arena.next(i) {
        Some(j) => {
            lemma_forward_walk_ascends(arena, j);
            let ids = arena.forward_ids(i);
            let rest = arena.forward_ids(j);
            assert forall|m: int| 0 <= m < ids.len() implies arena.is_live(#[trigger] ids[m]) by {
                if m > 0 {
                    assert(ids[m] == rest[m - 1]);
                }
            }
            assert forall|m: int, n: int| 0 <= m < n < ids.len() implies #[trigger] ids[m]
                < #[trigger] ids[n] by {
                assert(ids[n] == rest[n - 1]);
                if m > 0 {
                    assert(ids[m] == rest[m - 1]);
                } else {
                    if n > 1 {
                        assert(rest[0] < rest[n - 1]);
                    }
                }
            }
        },
        None => {},
    }
}

/// Backward links never form a cycle either: a backward walk meets live nodes
/// only, each older than the one before.
pub proof fn lemma_backward_walk_descends<T>(arena: ArenaView<T>, i: int)
    requires
        arena.wf(),
        arena.is_live(i),
    ensures
        arena.backward_ids(i).len() >= 1,
        arena.backward_ids(i)[0] == i,
        forall|m: int|
            0 <= m < arena.backward_ids(i).len() ==> arena.is_live(
                #[trigger] arena.backward_ids(i)[m],
            ),
        forall|m: int, n: int|
            0 <= m < n < arena.backward_ids(i).len() ==> #[trigger] arena.backward_ids(i)[m]
                > #[trigger] arena.backward_ids(i)[n],
    decreases i,
{
    arena.lemma_backward_step(i);
    assert(arena.node_ok(i));
    match arena.prev(i) {
        Some(p) => {
            lemma_backward_walk_descends(arena, p);
            let ids = arena.backward_ids(i);
            let rest = arena.backward_ids(p);
            assert forall|m: int| 0 <= m < ids.len() implies arena.is_live(#[trigger] ids[m]) by {
                if m > 0 {
                    assert(ids[m] == rest[m - 1]);
                }
            }
            assert forall|m: int, n: int| 0 <= m < n < ids.len() implies #[trigger] ids[m]
                > #[trigger] ids[n] by {
                assert(ids[n] == rest[n - 1]);
                if m > 0 {
                    assert(ids[m] == rest[m - 1]);
                } else {
                    if n > 1 {
                        assert(rest[0] > rest[n - 1]);
                    }
                }
            }
        },
        None => {},
    }
}

/// Two arenas that agree, up to node `i`, on which nodes are alive and on
/// their payloads and backward links, yield the same backward walk from `i`.
proof fn lemma_backward_walk_agrees<T>(s: ArenaView<T>, r: ArenaView<T>, i: int)
    requires
        s.wf(),
        r.wf(),
        forall|k: int|
            0 <= k <= i ==> {
                &&& #[trigger] s.is_live(k) <==> r.is_live(k)
                &&& s.is_live(k) ==> s.value(k) == r.value(k) && s.prev_link(k) == r.prev_link(k)
            },
    ensures
        s.backward_ids(i) == r.backward_ids(i),
        s.backward_values(i) == r.backward_values(i),
    decreases i,
{
    if s.is_live(i) {
        assert(r.is_live(i));
        assert(s.node_ok(i));
        s.lemma_backward_step(i);
        r.lemma_backward_step(i);
        match s.prev_link(i) {
            Some(p) => {
                assert(s.is_live(p) <==> r.is_live(p));
                if s.is_live(p) {
                    lemma_backward_walk_agrees(s, r, p);
                }
            },
            None => {},
        }
    } else {
        assert(!r.is_live(i)) by {
            if 0 <= i {
                assert(s.is_live(i) <==> r.is_live(i));
            }
        }
        assert(s.values_at(Seq::empty()) =~= r.values_at(Seq::empty()));
    }
}

/// Appending behind node `a` leaves the backward walk from `a` as it was, and
/// the backward walk from the new node is the new node followed by that walk.
pub proof fn lemma_append_extends_backward_walk<T>(arena: ArenaView<T>, a: int, value: T)
    requires
        arena.wf(),
        arena.is_live(a),
    ensures
        arena.appended(a, value).backward_ids(a) == arena.backward_ids(a),
        arena.appended(a, value).backward_values(a) == arena.backward_values(a),
        arena.appended(a, value).backward_ids(arena.len() as int) == seq![arena.len() as int]
            + arena.backward_ids(a),
        arena.appended(a, value).backward_values(arena.len() as int) == seq![value]
            + arena.backward_values(a),
{
    let r = arena.appended(a, value);
    let fresh = arena.len() as int;
    arena.lemma_appended(a, value);
    assert forall|k: int| 0 <= k <= a implies (#[trigger] arena.is_live(k) <==> r.is_live(k)) && (
    arena.is_live(k) ==> arena.value(k) == r.value(k) && arena.prev_link(k) == r.prev_link(k)) by {
        if k < a {
            if arena.is_live(k) {
                assert(arena.node_ok(k));
            }
            assert(!arena.is_behind(a, k));
            assert(r.cells[k] == arena.cells[k]);
        }
    }
    lemma_backward_walk_agrees(arena, r, a);
    r.lemma_backward_step(fresh);
    assert(r.prev(fresh) == Some(a));
}

/// After appending behind node `a`, the forward walk from `a` is `a` and the
/// new node, whatever followed `a` before.
pub proof fn lemma_append_replaces_forward_walk<T>(arena: ArenaView<T>, a: int, value: T)
    requires
        arena.wf(),
        arena.is_live(a),
    ensures
        arena.appended(a, value).forward_ids(a) == seq![a, arena.len() as int],
        arena.appended(a, value).forward_values(a) == seq![arena.value(a), value],
{
    let r = arena.appended(a, value);
    let fresh = arena.len() as int;
    arena.lemma_appended(a, value);
    r.lemma_forward_step(a);
    r.lemma_forward_step(fresh);
    assert(r.forward_ids(a) =~= seq![a, fresh]);
    assert(r.forward_values(a) =~= seq![arena.value(a), value]);
}

/// Appending behind the last node of a chain extends the forward walk from
/// every node of the chain by the new node.
pub proof fn lemma_append_extends_forward_walk<T>(arena: ArenaView<T>, h: int, a: int, value: T)
    requires
        arena.wf(),
        arena.is_live(h),
        arena.is_live(a),
        arena.next(a) is None,
        arena.forward_ids(h).last() == a,
    ensures
        arena.appended(a, value).forward_ids(h) == arena.forward_ids(h).push(arena.len() as int),
        arena.appended(a, value).forward_values(h) == arena.forward_values(h).push(value),
    decreases arena.younger(h),
{
    let r = arena.appended(a, value);
    let fresh = arena.len() as int;
    arena.lemma_appended(a, value);
    arena.lemma_forward_step(h);
    if h == a {
        lemma_append_replaces_forward_walk(arena, a, value);
        assert(arena.forward_ids(h) =~= seq![a]);
        assert(arena.forward_values(h) =~= seq![arena.value(a)]);
        assert(r.forward_ids(h) =~= arena.forward_ids(h).push(fresh));
        assert(r.forward_values(h) =~= arena.forward_values(h).push(value));
    } else {
        assert(arena.node_ok(h));
        match arena.next(h) {
            Some(j) => {
                lemma_forward_walk_ascends(arena, j);
                assert(arena.forward_ids(h).last() == arena.forward_ids(j).last());
                lemma_append_extends_forward_walk(arena, j, a, value);
                assert(r == arena.linked(a, value));
                assert(r.cells[h] == arena.cells[h]);
                r.lemma_forward_step(h);
                assert(r.forward_ids(h) =~= arena.forward_ids(h).push(fresh));
                assert(r.forward_values(h) =~= arena.forward_values(h).push(value));
            },
            None => {
                assert(arena.forward_ids(h) =~= seq![h]);
            },
        }
    }
}

/// The node numbers `first`, `first + 1`, ... , `first + count - 1`.
pub open spec fn ascending(first: int, count: nat) -> Seq<int> {
    Seq::new(count, |n: int| first + n)
}

/// Appending nodes one behind the other, starting behind the last node `a` of
/// a chain, extends the forward walk from every node `h` of the chain by the
/// new nodes in the order of their creation. The backward walk from the new
/// last node meets the new nodes in reverse order, and then what the backward
/// walk from `a` met.
pub proof fn lemma_extended_walks<T>(arena: ArenaView<T>, h: int, a: int, values: Seq<T>)
    requires
        arena.wf(),
        arena.is_live(h),
        arena.is_live(a),
        arena.next(a) is None,
        arena.forward_ids(h).last() == a,
    ensures
        arena.extended(a, values).wf(),
        arena.extended(a, values).len() == arena.len() + values.len(),
        arena.extended(a, values).is_live(arena.extended_tail(a, values)),
        arena.extended(a, values).next(arena.extended_tail(a, values)) is None,
        arena.extended(a, values).forward_ids(h) == arena.forward_ids(h) + ascending(
            arena.len() as int,
            values.len(),
        ),
        arena.extended(a, values).forward_values(h) == arena.forward_values(h) + values,
        arena.extended(a, values).backward_ids(arena.extended_tail(a, values)) == ascending(
            arena.len() as int,
            values.len(),
        ).reverse() + arena.backward_ids(a),
        arena.extended(a, values).backward_values(arena.extended_tail(a, values))
            == values.reverse() + arena.backward_values(a),
    decreases values.len(),
{
    let r = arena.extended(a, values);
    let fresh = arena.len() as int;
    let count = values.len();
    if count == 0 {
        assert(arena.forward_ids(h) + ascending(fresh, count) =~= arena.forward_ids(h));
        assert(arena.forward_values(h) + values =~= arena.forward_values(h));
        assert(ascending(fresh, count).reverse() + arena.backward_ids(a) =~= arena.backward_ids(a));
        assert(values.reverse() + arena.backward_values(a) =~= arena.backward_values(a));
    } else {
        let one = arena.appended(a, values[0]);
        let rest = values.drop_first();
        arena.lemma_appended(a, values[0]);
        lemma_append_extends_forward_walk(arena, h, a, values[0]);
        lemma_append_extends_backward_walk(arena, a, values[0]);
        assert(one.is_live(h)) by {
            lemma_forward_walk_ascends(arena, h);
            if h != a {
                assert(one == arena.linked(a, values[0]));
            }
        }
        lemma_extended_walks(one, h, fresh, rest);
        assert(r == one.extended(fresh, rest));
        assert(arena.extended_tail(a, values) == one.extended_tail(fresh, rest));
        assert(r.forward_ids(h) =~= arena.forward_ids(h) + ascending(fresh, count)) by {
            assert(ascending(fresh, count) =~= seq![fresh] + ascending(fresh + 1, rest.len()));
        }
        assert(r.forward_values(h) =~= arena.forward_values(h) + values) by {
            assert(values =~= seq![values[0]] + rest);
        }
        let tail = arena.extended_tail(a, values);
        assert(r.backward_ids(tail) =~= ascending(fresh, count).reverse() + arena.backward_ids(a))
            by {
            assert(ascending(fresh, count).reverse() =~= ascending(fresh + 1, rest.len()).reverse()
                + seq![fresh]);
        }
        assert(r.backward_values(tail) =~= values.reverse() + arena.backward_values(a)) by {
            assert(values.reverse() =~= rest.reverse() + seq![values[0]]);
        }
    }
}

/// Forward traversal. In a chain built from a new node with payload `first`
/// by appending one node for each of `rest`, each behind the one before, the
/// forward walk from the head ends, and yields exactly `first` followed by
/// `rest`. The nodes met are those created, in the order of their creation.
pub proof fn lemma_forward_traversal<T>(arena: ArenaView<T>, first: T, rest: Seq<T>)
    requires
        arena.wf(),
    ensures
        ({
            let head = arena.len() as int;
            let chain = arena.created(first).extended(head, rest);
            &&& chain.wf()
            &&& chain.forward_ids(head) == ascending(head, rest.len() + 1)
            &&& chain.forward_values(head) == seq![first] + rest
        }),
{
    let head = arena.len() as int;
    let start = arena.created(first);
    arena.lemma_created(first);
    start.lemma_forward_step(head);
    start.lemma_backward_step(head);
    assert(start.forward_ids(head) =~= seq![head]);
    lemma_extended_walks(start, head, head, rest);
    let chain = start.extended(head, rest);
    assert(chain.forward_ids(head) =~= ascending(head, rest.len() + 1));
}

/// Backward traversal. In a chain built as for the forward traversal, every
/// node stays alive, and the backward walk from the last node yields exactly
/// the reverse of what the forward walk from the head yields.
pub proof fn lemma_backward_traversal<T>(arena: ArenaView<T>, first: T, rest: Seq<T>)
    requires
        arena.wf(),
    ensures
        ({
            let head = arena.len() as int;
            let chain = arena.created(first).extended(head, rest);
            let tail = head + rest.len();
            &&& chain.is_live(tail)
            &&& chain.backward_ids(tail) == chain.forward_ids(head).reverse()
            &&& chain.backward_values(tail) == (seq![first] + rest).reverse()
            &&& chain.backward_values(tail) == chain.forward_values(head).reverse()
        }),
{
    let head = arena.len() as int;
    let start = arena.created(first);
    arena.lemma_created(first);
    start.lemma_forward_step(head);
    start.lemma_backward_step(head);
    assert(start.forward_ids(head) =~= seq![head]);
    assert(start.backward_ids(head) =~= seq![head]);
    assert(start.backward_values(head) =~= seq![first]);
    lemma_extended_walks(start, head, head, rest);
    lemma_forward_traversal(arena, first, rest);
    let chain = start.extended(head, rest);
    let tail = head + rest.len();
    assert(start.extended_tail(head, rest) == tail);
    assert(chain.backward_ids(tail) =~= chain.forward_ids(head).reverse());
    assert(chain.backward_values(tail) =~= (seq![first] + rest).reverse());
}

/// Two arenas that agree on all nodes from `i` on yield the same forward walk
/// from `i`, with the same run of nodes without a second owning reference.
proof fn lemma_forward_walk_agrees<T>(s: ArenaView<T>, r: ArenaView<T>, i: int)
    requires
        s.len() == r.len(),
        forall|k: int| i <= k < s.len() ==> #[trigger] s.cells[k] == r.cells[k],
    ensures
        s.forward_ids(i) == r.forward_ids(i),
        s.unheld_run(i) == r.unheld_run(i),
    decreases s.younger(i),
{
    if s.is_live(i) {
        assert(s.cells[i] == r.cells[i]);
        match s.next(i) {
            Some(j) => {
                if i < j {
                    lemma_forward_walk_agrees(s, r, j);
                }
            },
            None => {},
        }
    } else {
        if 0 <= i < s.len() {
            assert(s.cells[i] == r.cells[i]);
        }
    }
}

/// What giving up an owning reference does, node by node. Of the forward walk
/// from `i`, the leading run of nodes without a second owning reference is
/// deallocated; the node after the run, if there is one, has one owning
/// reference less; and no other node changes, on the walk or off it.
pub proof fn lemma_release_frees_unheld_run<T>(arena: ArenaView<T>, i: int)
    requires
        arena.wf(),
        arena.is_live(i),
        arena.handles(i) >= 1,
    ensures
        arena.unheld_run(i) <= arena.forward_ids(i).len(),
        forall|m: int|
            0 <= m < arena.unheld_run(i) ==> !arena.released(i).is_live(
                #[trigger] arena.forward_ids(i)[m],
            ),
        arena.unheld_run(i) < arena.forward_ids(i).len() ==> ({
            let k = arena.forward_ids(i)[arena.unheld_run(i) as int];
            arena.released(i).cells[k] == arena.with_strong(
                k,
                (arena.strong(k) - 1) as nat,
            ).cells[k]
        }),
        forall|m: int|
            arena.unheld_run(i) < m < arena.forward_ids(i).len() ==> arena.released(
                i,
            ).cells[#[trigger] arena.forward_ids(i)[m]] == arena.cells[arena.forward_ids(i)[m]],
        forall|k: int|
            0 <= k < arena.len() && !arena.forward_ids(i).contains(k)
                ==> #[trigger] arena.released(i).cells[k] == arena.cells[k],
    decreases arena.younger(i),
{
    let ids = arena.forward_ids(i);
    let run = arena.unheld_run(i) as int;
    let after = arena.released(i);
    arena.lemma_forward_step(i);
    lemma_forward_walk_ascends(arena, i);
    assert(arena.node_ok(i));
    if arena.strong(i) > 1 {
        assert forall|m: int| run < m < ids.len() implies after.cells[#[trigger] ids[m]]
            == arena.cells[ids[m]] by {
            assert(ids[0] < ids[m]);
        }
        assert forall|k: int|
            0 <= k < arena.len() && !ids.contains(k) implies #[trigger] after.cells[k]
            == arena.cells[k] by {
            assert(ids[0] == i);
        }
    } else {
        let freed = arena.without(i);
        arena.lemma_without_wf(i);
        match arena.next(i) {
            Some(j) => {
                let rest = arena.forward_ids(j);
                lemma_forward_walk_agrees(arena, freed, j);
                lemma_release_frees_unheld_run(freed, j);
                lemma_forward_walk_ascends(arena, j);
                freed.lemma_released(j);
                assert(after == freed.released(j));
                assert(run == 1 + freed.unheld_run(j));
                assert(ids =~= seq![i] + rest);
                assert forall|m: int| 0 <= m < run implies !after.is_live(#[trigger] ids[m]) by {
                    if m > 0 {
                        assert(ids[m] == rest[m - 1]);
                    }
                }
                if run < ids.len() {
                    assert(ids[run] == rest[run - 1]);
                }
                assert forall|m: int| run < m < ids.len() implies after.cells[#[trigger] ids[m]]
                    == arena.cells[ids[m]] by {
                    assert(ids[m] == rest[m - 1]);
                    assert(ids[0] < ids[m]);
                }
                assert forall|k: int|
                    0 <= k < arena.len() && !ids.contains(k) implies #[trigger] after.cells[k]
                    == arena.cells[k] by {
                    assert(ids[0] == i);
                    if rest.contains(k) {
                        let m = choose|m: int| 0 <= m < rest.len() && rest[m] == k;
                        assert(ids[m + 1] == k);
                    }
                }
            },
            None => {
                assert(ids =~= seq![i]);
                assert forall|k: int|
                    0 <= k < arena.len() && !ids.contains(k) implies #[trigger] after.cells[k]
                    == arena.cells[k] by {
                    assert(ids[0] == i);
                }
            },
        }
    }
}

/// Giving up fewer owning references to a node than it has only lowers its
/// count.
pub proof fn lemma_released_some<T>(arena: ArenaView<T>, i: int, n: nat)
    requires
        arena.wf(),
        arena.is_live(i),
        n < arena.strong(i),
    ensures
        arena.released_times(i, n) == arena.with_strong(i, (arena.strong(i) - n) as nat),
        arena.released_times(i, n).wf(),
    decreases n,
{
    if n == 0 {
        assert(arena.with_strong(i, arena.strong(i)).cells =~= arena.cells);
    } else {
        let one = arena.released(i);
        arena.lemma_with_strong_wf(i, (arena.strong(i) - 1) as nat);
        lemma_released_some(one, i, (n - 1) as nat);
        assert(one.with_strong(i, (one.strong(i) - (n - 1)) as nat).cells =~= arena.with_strong(
            i,
            (arena.strong(i) - n) as nat,
        ).cells);
        arena.lemma_with_strong_wf(i, (arena.strong(i) - n) as nat);
    }
}

/// Giving up every owning reference to a node that no forward link owns
/// deallocates it, and then gives up the owning reference that its forward
/// link held.
pub proof fn lemma_released_all<T>(arena: ArenaView<T>, i: int)
    requires
        arena.wf(),
        arena.is_live(i),
        arena.owner(i) is None,
    ensures
        arena.released_times(i, arena.strong(i)) == (match arena.next(i) {
            Some(j) => arena.without(i).released(j),
            None => arena.without(i),
        }),
        !arena.released_times(i, arena.strong(i)).is_live(i),
        arena.released_times(i, arena.strong(i)).wf(),
    decreases arena.strong(i),
{
    assert(arena.node_ok(i));
    let n = arena.strong(i);
    let one = arena.released(i);
    arena.lemma_released(i);
    assert(arena.released_times(i, n) == one.released_times(i, (n - 1) as nat));
    if n == 1 {
        assert(one.released_times(i, 0) == one);
    } else {
        assert(one.owner(i) is None);
        lemma_released_all(one, i);
        assert(one.without(i).cells =~= arena.without(i).cells);
    }
}

/// No leak, and safe resolution of a dangling link. Take a chain `a`, `b`,
/// `c` in which no forward link owns `a`, and some handle owns `c`. Once
/// every handle to `a` and then every handle to `b` is given up, both are
/// deallocated although the backward links of `b` and `c` still observe them.
/// `c` stays alive with its payload and links; it has lost only the owning
/// reference of the forward link of `b`; and its backward link resolves to
/// nothing. No other node has changed.
pub proof fn lemma_dropped_predecessors<T>(arena: ArenaView<T>, a: int, b: int, c: int)
    requires
        arena.wf(),
        arena.is_live(a),
        arena.owner(a) is None,
        arena.next(a) == Some(b),
        arena.next(b) == Some(c),
        arena.handles(c) >= 1,
    ensures
        ({
            let after = arena.released_times(a, arena.handles(a) as nat).released_times(
                b,
                arena.handles(b) as nat,
            );
            &&& after.wf()
            &&& !after.is_live(a)
            &&& !after.is_live(b)
            &&& after.is_live(c)
            &&& after.value(c) == arena.value(c)
            &&& after.next(c) == arena.next(c)
            &&& after.prev_link(c) == Some(b)
            &&& after.prev(c) is None
            &&& after.strong(c) == arena.handles(c)
            &&& after == arena.without(a).without(b).with_strong(c, arena.handles(c) as nat)
        }),
{
    lemma_owner_is_unique(arena, a, b);
    lemma_owner_is_unique(arena, b, c);
    assert(arena.node_ok(a));
    assert(arena.node_ok(b));
    assert(arena.node_ok(c));
    let expected = arena.without(a).without(b).with_strong(c, arena.handles(c) as nat);
    // Every handle to `a` is given up.
    lemma_released_all(arena, a);
    let freed_a = arena.without(a);
    arena.lemma_without_wf(a);
    let first = arena.released_times(a, arena.handles(a) as nat);
    assert(first == freed_a.released(b));
    freed_a.lemma_released(b);
    let freed_b = freed_a.without(b);
    if arena.handles(b) >= 1 {
        // `b` is still held by handles: every one of them is given up.
        assert(first == freed_a.with_strong(b, arena.handles(b) as nat));
        assert(first.owner(b) is None);
        lemma_released_all(first, b);
        assert(first.without(b).cells =~= freed_b.cells);
        freed_a.lemma_without_wf(b);
        assert(first.next(b) == Some(c));
        let after = first.released_times(b, arena.handles(b) as nat);
        assert(after == freed_b.released(c));
        assert(after == expected);
    } else {
        // `b` was held by the forward link of `a` alone, and went with `a`.
        freed_a.lemma_without_wf(b);
        assert(first == freed_b.released(c));
        assert(first.released_times(b, 0) == first);
        assert(first == expected);
    }
    freed_b.lemma_with_strong_wf(c, arena.handles(c) as nat);
}

/// Appending replaces the successor. After a node is appended behind `a`,
/// which had the successor `b`, the forward link of `a` leads to the new node
/// and the forward walk from `a` no longer meets `b`. `b` stays alive exactly
/// if a handle owns it, and then with one owning reference less; otherwise it
/// is deallocated.
pub proof fn lemma_append_orphans_successor<T>(arena: ArenaView<T>, a: int, b: int, value: T)
    requires
        arena.wf(),
        arena.is_live(a),
        arena.next(a) == Some(b),
    ensures
        ({
            let after = arena.appended(a, value);
            &&& after.next(a) == Some(arena.len() as int)
            &&& arena.len() != b
            &&& !after.forward_ids(a).contains(b)
            &&& after.is_live(b) <==> arena.handles(b) >= 1
            &&& after.is_live(b) ==> {
                &&& after.strong(b) == arena.handles(b)
                &&& after.owner(b) is None
                &&& after.value(b) == arena.value(b)
                &&& after.next(b) == arena.next(b)
            }
        }),
{
    let after = arena.appended(a, value);
    arena.lemma_appended(a, value);
    arena.lemma_linked(a, value);
    lemma_append_replaces_forward_walk(arena, a, value);
    lemma_owner_is_unique(arena, a, b);
    arena.linked(a, value).lemma_released(b);
}

/// Appending twice behind the same node. The two appends create two different
/// successors. Afterwards only the second is met by the forward walk from
/// `a`; the first is still alive, held by nothing but the handle that the
/// first append returned.
pub proof fn lemma_append_twice<T>(arena: ArenaView<T>, a: int, first: T, second: T)
    requires
        arena.wf(),
        arena.is_live(a),
    ensures
        ({
            let once = arena.appended(a, first);
            let twice = once.appended(a, second);
            let b1 = arena.len() as int;
            let b2 = once.len() as int;
            &&& b1 != b2
            &&& twice.wf()
            &&& twice.next(a) == Some(b2)
            &&& twice.forward_ids(a) == seq![a, b2]
            &&& twice.forward_values(a) == seq![arena.value(a), second]
            &&& twice.is_live(b1)
            &&& twice.value(b1) == first
            &&& twice.strong(b1) == 1
            &&& twice.owner(b1) is None
        }),
{
    let once = arena.appended(a, first);
    let b1 = arena.len() as int;
    arena.lemma_appended(a, first);
    once.lemma_appended(a, second);
    lemma_append_replaces_forward_walk(once, a, second);
    lemma_append_orphans_successor(once, a, b1, second);
}

} // verus!
