use partition_node::{NodeArena, NodeRef, PartitionNode};

fn chain(arena: &mut NodeArena<i32>, values: &[i32]) -> Vec<NodeRef> {
    let mut handles = vec![PartitionNode::new(arena, values[0])];
    for value in &values[1..] {
        let succ = PartitionNode::append(arena, handles.last().unwrap(), *value);
        handles.push(succ);
    }
    handles
}

#[test]
fn new_node_is_detached_and_singly_owned() {
    let mut arena = NodeArena::new();
    assert_eq!(arena.len(), 0);
    let node = PartitionNode::new(&mut arena, "a");
    assert_eq!(node.index(), 0);
    assert_eq!(arena.len(), 1);
    assert_eq!(arena.node(&node).value, "a");
    assert!(arena.node(&node).next.is_none());
    assert!(arena.node(&node).prev.is_none());
    assert_eq!(arena.strong_count(&node), 1);
    assert_eq!(arena.forward_values(&node), vec![&"a"]);
    assert_eq!(arena.backward_values(&node), vec![&"a"]);
}

#[test]
fn append_links_both_ways() {
    let mut arena = NodeArena::new();
    let a = PartitionNode::new(&mut arena, 7);
    let b = PartitionNode::append(&mut arena, &a, 8);
    assert_eq!(b.index(), 1);
    assert!(arena.node(&a).next.as_ref().unwrap().ptr_eq(&b));
    assert_eq!(arena.node(&b).prev.unwrap().index(), a.index());
    assert_eq!(arena.get(arena.node(&b).prev.unwrap()).unwrap().value, 7);
    assert!(arena.node(&b).next.is_none());
    // the forward link of `a` and the returned handle
    assert_eq!(arena.strong_count(&b), 2);
    assert_eq!(arena.strong_count(&a), 1);
}

#[test]
fn forward_walk_yields_values_in_order() {
    let mut arena = NodeArena::new();
    let handles = chain(&mut arena, &[10, 20, 30]);
    assert_eq!(arena.forward_values(&handles[0]), vec![&10, &20, &30]);
    assert_eq!(arena.forward_values(&handles[1]), vec![&20, &30]);
    assert_eq!(arena.forward_values(&handles[2]), vec![&30]);
}

#[test]
fn backward_walk_is_reverse_of_forward_walk() {
    let mut arena = NodeArena::new();
    let handles = chain(&mut arena, &[10, 20, 30]);
    assert_eq!(arena.backward_values(&handles[2]), vec![&30, &20, &10]);
    assert_eq!(arena.backward_values(&handles[1]), vec![&20, &10]);
    let mut forward = arena.forward_values(&handles[0]);
    forward.reverse();
    assert_eq!(arena.backward_values(&handles[2]), forward);
}

#[test]
fn walks_over_a_long_chain() {
    let mut arena = NodeArena::new();
    let values: Vec<i32> = (0..1000).collect();
    let handles = chain(&mut arena, &values);
    let forward: Vec<i32> = arena.forward_values(&handles[0]).into_iter().copied().collect();
    assert_eq!(forward, values);
    let backward: Vec<i32> = arena.backward_values(&handles[999]).into_iter().copied().collect();
    let mut reversed = values.clone();
    reversed.reverse();
    assert_eq!(backward, reversed);
}

#[test]
fn dangling_backward_link_resolves_to_nothing() {
    let mut arena = NodeArena::new();
    let mut handles = chain(&mut arena, &[1, 2, 3]);
    let third = handles.pop().unwrap();
    let second = handles.pop().unwrap();
    let head = handles.pop().unwrap();
    let to_head = head.downgrade();
    let to_second = second.downgrade();
    arena.release(head);
    // the second node is still held by its handle
    assert!(arena.get(to_head).is_none());
    assert_eq!(arena.get(to_second).unwrap().value, 2);
    assert_eq!(arena.strong_count(&second), 1);
    assert_eq!(arena.backward_values(&third), vec![&3, &2]);
    arena.release(second);
    assert!(arena.get(to_second).is_none());
    assert!(arena.upgrade(to_second).is_none());
    // the third node kept its payload and the stored link
    assert_eq!(arena.node(&third).value, 3);
    assert_eq!(arena.node(&third).prev.unwrap().index(), 1);
    assert_eq!(arena.strong_count(&third), 1);
    assert_eq!(arena.backward_values(&third), vec![&3]);
    assert_eq!(arena.forward_values(&third), vec![&3]);
}

#[test]
fn forward_link_keeps_successors_alive() {
    let mut arena = NodeArena::new();
    let mut handles = chain(&mut arena, &[1, 2, 3]);
    let third = handles.pop().unwrap();
    let second = handles.pop().unwrap();
    let to_second = second.downgrade();
    let to_third = third.downgrade();
    arena.release(third);
    arena.release(second);
    // both are still owned through the forward links
    assert_eq!(arena.get(to_second).unwrap().value, 2);
    assert_eq!(arena.get(to_third).unwrap().value, 3);
    assert_eq!(arena.forward_values(&handles[0]), vec![&1, &2, &3]);
    let head = handles.pop().unwrap();
    let to_head = head.downgrade();
    arena.release(head);
    // giving up the head takes the whole chain with it
    assert!(arena.get(to_head).is_none());
    assert!(arena.get(to_second).is_none());
    assert!(arena.get(to_third).is_none());
    assert_eq!(arena.len(), 3);
}

#[test]
fn releasing_the_head_of_a_long_chain_frees_all_of_it() {
    let mut arena = NodeArena::new();
    let head = PartitionNode::new(&mut arena, 0u32);
    let mut observers = vec![head.downgrade()];
    let mut tail = arena.clone_ref(&head);
    for value in 1..100_000u32 {
        let succ = PartitionNode::append(&mut arena, &tail, value);
        observers.push(succ.downgrade());
        arena.release(tail);
        tail = succ;
    }
    arena.release(tail);
    assert!(observers.iter().all(|observer| arena.get(*observer).is_some()));
    arena.release(head);
    assert!(observers.iter().all(|observer| arena.get(*observer).is_none()));
}

#[test]
fn second_append_replaces_the_successor() {
    let mut arena = NodeArena::new();
    let a = PartitionNode::new(&mut arena, 1);
    let first = PartitionNode::append(&mut arena, &a, 2);
    let second = PartitionNode::append(&mut arena, &a, 3);
    assert!(!first.ptr_eq(&second));
    assert!(arena.node(&a).next.as_ref().unwrap().ptr_eq(&second));
    assert_eq!(arena.forward_values(&a), vec![&1, &3]);
    // the first successor is alive through its handle alone
    assert_eq!(arena.node(&first).value, 2);
    assert_eq!(arena.strong_count(&first), 1);
    assert_eq!(arena.strong_count(&second), 2);
    // and still observes `a`
    assert_eq!(arena.backward_values(&first), vec![&2, &1]);
    assert_eq!(arena.backward_values(&second), vec![&3, &1]);
}

#[test]
fn second_append_frees_an_unheld_successor() {
    let mut arena = NodeArena::new();
    let a = PartitionNode::new(&mut arena, 1);
    let first = PartitionNode::append(&mut arena, &a, 2);
    let beyond = PartitionNode::append(&mut arena, &first, 3);
    let to_first = first.downgrade();
    let to_beyond = beyond.downgrade();
    arena.release(first);
    arena.release(beyond);
    assert!(arena.get(to_first).is_some());
    let second = PartitionNode::append(&mut arena, &a, 4);
    assert!(arena.get(to_first).is_none());
    assert!(arena.get(to_beyond).is_none());
    assert_eq!(second.index(), 3);
    assert_eq!(arena.forward_values(&a), vec![&1, &4]);
}

#[test]
fn second_append_spares_a_held_node_further_down() {
    let mut arena = NodeArena::new();
    let a = PartitionNode::new(&mut arena, 1);
    let first = PartitionNode::append(&mut arena, &a, 2);
    let beyond = PartitionNode::append(&mut arena, &first, 3);
    let to_first = first.downgrade();
    arena.release(first);
    let _second = PartitionNode::append(&mut arena, &a, 4);
    assert!(arena.get(to_first).is_none());
    assert_eq!(arena.node(&beyond).value, 3);
    assert_eq!(arena.strong_count(&beyond), 1);
    assert!(arena.upgrade(arena.node(&beyond).prev.unwrap()).is_none());
}

#[test]
fn handles_are_counted() {
    let mut arena = NodeArena::new();
    let a = PartitionNode::new(&mut arena, 'x');
    let again = arena.clone_ref(&a);
    assert!(again.ptr_eq(&a));
    assert_eq!(arena.strong_count(&a), 2);
    let third = arena.upgrade(a.downgrade()).unwrap();
    assert_eq!(arena.strong_count(&a), 3);
    arena.release(third);
    arena.release(again);
    assert_eq!(arena.strong_count(&a), 1);
    let observer = a.downgrade();
    assert_eq!(observer.index(), 0);
    arena.release(a);
    assert!(arena.get(observer).is_none());
}

#[test]
fn observer_of_a_node_never_created_resolves_to_nothing() {
    let mut arena = NodeArena::new();
    let mut other = NodeArena::new();
    let _a = PartitionNode::new(&mut other, 1);
    let b = PartitionNode::new(&mut other, 2);
    let _mine = PartitionNode::new(&mut arena, 5);
    assert!(arena.get(b.downgrade()).is_none());
    assert!(arena.upgrade(b.downgrade()).is_none());
}

#[test]
fn chains_in_one_arena_are_independent() {
    let mut arena = NodeArena::new();
    let left = PartitionNode::new(&mut arena, 1);
    let right = PartitionNode::new(&mut arena, 100);
    let left_tail = PartitionNode::append(&mut arena, &left, 2);
    let right_tail = PartitionNode::append(&mut arena, &right, 200);
    arena.release(left);
    arena.release(left_tail);
    assert_eq!(arena.forward_values(&right), vec![&100, &200]);
    assert_eq!(arena.backward_values(&right_tail), vec![&200, &100]);
    assert_eq!(arena.strong_count(&right_tail), 2);
}
