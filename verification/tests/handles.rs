use directed_graph::remove_item;
use directed_graph::DirectedGraph;
use directed_graph::Node;
use directed_graph::NodeRef;
use std::collections::HashSet;

#[test]
fn clone_of_a_handle_equals_the_handle() {
    let mut graph = DirectedGraph::default();
    let a = graph.add_node(String::from("payload"));
    let copy = a.clone();
    assert!(copy == a);
    assert!(a == copy);
    assert_eq!(copy.index, a.index);
}

#[test]
fn handles_of_equal_payloads_differ() {
    let mut graph = DirectedGraph::default();
    let first = graph.add_node(7);
    let second = graph.add_node(7);
    assert!(first != second);
    assert_eq!(graph.node(&first).data, graph.node(&second).data);
}

#[test]
fn handles_hash_by_identity() {
    let mut graph = DirectedGraph::default();
    let first = graph.add_node('x');
    let second = graph.add_node('x');
    let mut set = HashSet::new();
    assert!(set.insert(first.clone()));
    assert!(!set.insert(first.clone()));
    assert!(set.insert(second.clone()));
    assert_eq!(set.len(), 2);
    assert!(set.contains(&first));
    assert!(set.remove(&second));
    assert!(!set.contains(&second));
}

#[test]
fn new_handle_names_its_position() {
    let r: NodeRef<u8> = NodeRef::new(3);
    assert_eq!(r.index, 3);
    let s: NodeRef<u8> = NodeRef::new(3);
    assert!(r == s);
    let t: NodeRef<u8> = NodeRef::new(4);
    assert!(r != t);
}

#[test]
fn new_node_has_no_edges() {
    let node = Node::new(41u32);
    assert_eq!(node.data, 41);
    assert!(node.incoming.is_empty());
    assert!(node.outgoing.is_empty());
}

#[test]
fn remove_item_takes_the_first_occurrence_only() {
    let mut v = vec![1, 2, 1, 3, 1];
    remove_item(&mut v, &1);
    assert_eq!(v, vec![2, 1, 3, 1]);
    remove_item(&mut v, &1);
    assert_eq!(v, vec![2, 3, 1]);
    remove_item(&mut v, &1);
    assert_eq!(v, vec![2, 3]);
}

#[test]
fn remove_item_leaves_a_list_without_the_item() {
    let mut v = vec![4, 5, 6];
    remove_item(&mut v, &7);
    assert_eq!(v, vec![4, 5, 6]);
    let mut empty: Vec<i32> = Vec::new();
    remove_item(&mut empty, &7);
    assert!(empty.is_empty());
}

#[test]
fn remove_item_on_handles_needs_one_call_per_parallel_edge() {
    let a: NodeRef<char> = NodeRef::new(0);
    let c: NodeRef<char> = NodeRef::new(2);
    let mut incoming = vec![a.clone(), c.clone(), a.clone()];
    remove_item(&mut incoming, &a);
    assert_eq!(incoming, vec![c.clone(), a.clone()]);
    remove_item(&mut incoming, &a);
    assert_eq!(incoming, vec![c.clone()]);
}
