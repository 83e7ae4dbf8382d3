use key_channel::channel::linked_list::{Cell, List, ListNode};

#[test]
fn test_linked_list() {
    let mut list = List::new();
    let node0 = ListNode::create_node(&mut list, 0);
    let node1 = ListNode::create_node(&mut list, 1);
    let node2 = ListNode::create_node(&mut list, 2);
    // 1 <-> 0 <-> 2
    list.list_push_first(&node0.clone());
    list.list_push_first(&node1.clone());
    list.list_push_back(&node2.clone());
    let res0 = list.list_pop_first();
    assert_eq!(res0, 1);
    assert_eq!(list.list_count(), 2);
    let _ = list.remove(&node0.clone());
    assert_eq!(list.list_count(), 1);
    let res2 = list.list_pop_first();
    assert_eq!(res2, 2);
    assert_eq!(list.list_count(), 0);
    // 0 <-> 1
    list.list_push_back(&node0.clone());
    list.list_push_back(&node1.clone());
    let res3 = list.list_pop_last();
    assert_eq!(res3, 1);
    assert_eq!(list.list_count(), 1);
    list.remove(&node1.clone());
    assert_eq!(list.list_count(), 0);
}

#[test]
fn new_list_is_empty() {
    let list = List::new();
    assert_eq!(list.list_count(), 0);
    // the sentinels carry the id 0
    assert_eq!(list.list_first(), 0);
}

#[test]
fn first_follows_the_front() {
    let mut list = List::new();
    let a = ListNode::create_node(&mut list, 7);
    let b = ListNode::create_node(&mut list, 8);
    let c = ListNode::create_node(&mut list, 9);
    list.list_push_back(&a);
    assert_eq!(list.list_first(), 7);
    list.list_push_back(&b);
    assert_eq!(list.list_first(), 7);
    list.list_push_first(&c);
    assert_eq!(list.list_first(), 9);
    assert_eq!(list.list_count(), 3);
    // 9 <-> 7 <-> 8
    list.remove(&c);
    assert_eq!(list.list_first(), 7);
    list.remove(&a);
    assert_eq!(list.list_first(), 8);
    list.remove(&b);
    assert_eq!(list.list_first(), 0);
    assert_eq!(list.list_count(), 0);
}

#[test]
fn pops_from_both_ends() {
    let mut list = List::new();
    let mut nodes = Vec::new();
    for id in 1..=5 {
        let node = ListNode::create_node(&mut list, id);
        list.list_push_back(&node);
        nodes.push(node);
    }
    assert_eq!(list.list_pop_first(), 1);
    assert_eq!(list.list_pop_last(), 5);
    assert_eq!(list.list_pop_last(), 4);
    assert_eq!(list.list_pop_first(), 2);
    assert_eq!(list.list_count(), 1);
    assert_eq!(list.list_pop_first(), 3);
    assert_eq!(list.list_count(), 0);
}

#[test]
fn removes_from_the_middle() {
    let mut list = List::new();
    let mut nodes = Vec::new();
    for id in 10..14 {
        let node = ListNode::create_node(&mut list, id);
        list.list_push_back(&node);
        nodes.push(node);
    }
    // 10 <-> 11 <-> 12 <-> 13
    list.remove(&nodes[2]);
    list.remove(&nodes[1]);
    assert_eq!(list.list_count(), 2);
    assert_eq!(list.list_pop_first(), 10);
    assert_eq!(list.list_pop_first(), 13);
}

#[test]
fn a_removed_node_can_come_back() {
    let mut list = List::new();
    let a = ListNode::create_node(&mut list, 1);
    let b = ListNode::create_node(&mut list, 2);
    list.list_push_back(&a);
    list.list_push_back(&b);
    // move the first to the back
    list.remove(&a);
    list.list_push_back(&a);
    assert_eq!(list.list_first(), 2);
    // and the last to the front
    list.remove(&a);
    list.list_push_first(&a);
    assert_eq!(list.list_first(), 1);
    assert_eq!(list.list_count(), 2);
}

#[test]
fn a_node_without_neighbours_is_left_alone() {
    let mut list = List::new();
    let a = ListNode::create_node(&mut list, 1);
    let b = ListNode::create_node(&mut list, 2);
    list.list_push_back(&a);
    // `b` was never linked in: nothing to cut
    list.remove(&b);
    assert_eq!(list.list_count(), 1);
    assert_eq!(list.list_first(), 1);
}

#[test]
fn a_discarded_slot_is_handed_out_again() {
    let mut list = List::new();
    let a = ListNode::create_node(&mut list, 1);
    let b = ListNode::create_node(&mut list, 2);
    list.list_push_back(&a);
    list.list_push_back(&b);
    list.remove(&a);
    list.discard_node(a);
    let c = ListNode::create_node(&mut list, 3);
    assert_eq!(c, a);
    assert_ne!(c, b);
    list.list_push_first(&c);
    assert_eq!(list.list_count(), 2);
    assert_eq!(list.list_pop_first(), 3);
    assert_eq!(list.list_pop_first(), 2);
}

#[test]
fn handles_are_slot_numbers() {
    let mut list = List::new();
    let a = ListNode::create_node(&mut list, 5);
    let b = ListNode::create_node(&mut list, 6);
    // slots 0 and 1 hold the sentinels
    assert_eq!(a, Cell(2));
    assert_eq!(b, Cell(3));
}
