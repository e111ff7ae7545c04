use partition_node::{NodeArena, PartitionNode};

#[test]
fn test_node_creation() {
    let mut arena = NodeArena::new();
    let node = PartitionNode::new(&mut arena, 42);
    let node_borrow = arena.node(&node);
    assert_eq!(node_borrow.value, 42);
    assert!(node_borrow.prev.is_none());
    assert!(node_borrow.next.is_none());
}

#[test]
fn test_append_node() {
    let mut arena = NodeArena::new();
    let head = PartitionNode::new(&mut arena, 1);
    let second = PartitionNode::append(&mut arena, &head, 2);

    // Check forward link
    assert!(arena.node(&head).next.is_some());
    assert_eq!(arena.node(arena.node(&head).next.as_ref().unwrap()).value, 2);

    // Check backward link
    let observer = arena.node(&second).prev.unwrap();
    let prev = arena.upgrade(observer).unwrap();
    assert_eq!(arena.node(&prev).value, 1);
}

#[test]
fn test_multiple_appends() {
    let mut arena = NodeArena::new();
    let head = PartitionNode::new(&mut arena, 10);
    let second = PartitionNode::append(&mut arena, &head, 20);
    let third = PartitionNode::append(&mut arena, &second, 30);

    // Forward traversal
    let mut current = Some(arena.clone_ref(&head));
    let mut values = Vec::new();
    while let Some(node) = current {
        values.push(arena.node(&node).value);
        let next = arena.node(&node).next.as_ref().map(|n| n.downgrade());
        current = next.and_then(|observer| arena.upgrade(observer));
        arena.release(node);
    }
    assert_eq!(values, vec![10, 20, 30]);

    // Backward traversal
    let mut current = Some(arena.clone_ref(&third));
    let mut backward_values = Vec::new();
    while let Some(node) = current {
        backward_values.push(arena.node(&node).value);
        let prev = arena.node(&node).prev;
        current = prev.and_then(|observer| arena.upgrade(observer));
        arena.release(node);
    }
    assert_eq!(backward_values, vec![30, 20, 10]);
}

#[test]
fn test_no_memory_leak() {
    let mut arena = NodeArena::new();
    let head = PartitionNode::new(&mut arena, 1);
    let second = PartitionNode::append(&mut arena, &head, 2);
    let third = PartitionNode::append(&mut arena, &second, 3);

    // Give up all handles to the head and to the second node
    arena.release(head);
    arena.release(second);

    // The last node is still alive
    assert_eq!(arena.strong_count(&third), 1);
    // Its backward link still observes the second node, which is gone
    let observer = arena.node(&third).prev.unwrap();
    assert!(arena.upgrade(observer).is_none());
}
