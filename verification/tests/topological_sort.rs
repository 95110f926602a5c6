use directed_graph::DirectedGraph;
use directed_graph::NodeRef;

fn position(order: &[NodeRef<char>], node: &NodeRef<char>) -> usize {
    order.iter().position(|n| n == node).expect("node is listed")
}

#[test]
fn test_topological_sort() {
    // Create a DAG that looks like this:
    //      A
    //    /  \
    //   B    C
    //    \  /
    //     D
    let mut graph = DirectedGraph::default();
    let a = graph.add_node('A');
    let b = graph.add_node('B');
    let c = graph.add_node('C');
    let d = graph.add_node('D');
    graph.add_edge(&a, &b);
    graph.add_edge(&a, &c);
    graph.add_edge(&b, &d);
    graph.add_edge(&c, &d);

    let labels: Vec<(NodeRef<char>, char)> = [&a, &b, &c, &d]
        .iter()
        .map(|r| ((*r).clone(), graph.node(r).data))
        .collect();

    // Compute a topological sort and check that it's correct.
    assert!(match graph.topological_sort() {
        None => false,
        Some(nodes) => {
            let str = nodes.iter().fold(String::new(), |acc, node| {
                let data = labels.iter().find(|(r, _)| r == node).unwrap().1;
                format!("{}{}", acc, data)
            });
            // These are the two possible topological sorts:
            str == "ABCD" || str == "ACBD"
        }
    })
}

#[test]
fn diamond_starts_with_source_and_ends_with_sink() {
    let mut graph = DirectedGraph::default();
    let a = graph.add_node('A');
    let b = graph.add_node('B');
    let c = graph.add_node('C');
    let d = graph.add_node('D');
    graph.add_edge(&a, &b);
    graph.add_edge(&a, &c);
    graph.add_edge(&b, &d);
    graph.add_edge(&c, &d);
    let order = graph.topological_sort().expect("a diamond has an order");
    assert_eq!(order.len(), 4);
    assert_eq!(order[0], a);
    assert_eq!(order[3], d);
    assert!(position(&order, &b) < position(&order, &d));
    assert!(position(&order, &c) < position(&order, &d));
}

#[test]
fn two_node_cycle_has_no_order() {
    let mut graph = DirectedGraph::default();
    let a = graph.add_node('A');
    let b = graph.add_node('B');
    graph.add_edge(&a, &b);
    graph.add_edge(&b, &a);
    assert!(graph.topological_sort().is_none());
}

#[test]
fn self_loop_has_no_order() {
    let mut graph = DirectedGraph::default();
    let a = graph.add_node('A');
    graph.add_edge(&a, &a);
    assert!(graph.topological_sort().is_none());
}

#[test]
fn disconnected_nodes_are_both_listed() {
    let mut graph = DirectedGraph::default();
    let a = graph.add_node('A');
    let b = graph.add_node('B');
    let order = graph.topological_sort().expect("no edges, no cycle");
    assert_eq!(order.len(), 2);
    assert!(order.contains(&a));
    assert!(order.contains(&b));
}

#[test]
fn empty_graph_has_the_empty_order() {
    let graph: DirectedGraph<char> = DirectedGraph::default();
    assert_eq!(graph.len(), 0);
    let order = graph.topological_sort().expect("nothing to order");
    assert!(order.is_empty());
}

#[test]
fn parallel_edges_are_released_one_by_one() {
    let mut graph = DirectedGraph::default();
    let a = graph.add_node('A');
    let b = graph.add_node('B');
    let c = graph.add_node('C');
    graph.add_edge(&a, &b);
    graph.add_edge(&a, &b);
    graph.add_edge(&c, &b);
    assert_eq!(graph.node(&b).incoming.len(), 3);
    assert_eq!(graph.node(&a).outgoing.len(), 2);
    let order = graph.topological_sort().expect("parallel edges make no cycle");
    assert_eq!(order.len(), 3);
    assert_eq!(order[2], b);
    assert!(position(&order, &a) < position(&order, &b));
    assert!(position(&order, &c) < position(&order, &b));
}

#[test]
fn node_behind_a_cycle_blocks_the_sort() {
    let mut graph = DirectedGraph::default();
    let a = graph.add_node('A');
    let b = graph.add_node('B');
    let c = graph.add_node('C');
    let free = graph.add_node('F');
    graph.add_edge(&a, &b);
    graph.add_edge(&b, &a);
    graph.add_edge(&b, &c);
    assert!(graph.contains(&free));
    assert!(graph.topological_sort().is_none());
}

#[test]
fn chain_added_backwards_comes_out_forwards() {
    let mut graph = DirectedGraph::default();
    let names = ["five", "four", "three", "two", "one"];
    let handles: Vec<NodeRef<String>> =
        names.iter().map(|n| graph.add_node(n.to_string())).collect();
    // one -> two -> three -> four -> five
    for i in (1..handles.len()).rev() {
        graph.add_edge(&handles[i], &handles[i - 1]);
    }
    let order = graph.topological_sort().expect("a chain has one order");
    let expected: Vec<NodeRef<String>> = handles.iter().rev().cloned().collect();
    assert_eq!(order, expected);
}

#[test]
fn every_edge_points_forward_in_a_larger_dag() {
    let mut graph = DirectedGraph::default();
    let n = 12usize;
    let handles: Vec<NodeRef<usize>> = (0..n).map(|i| graph.add_node(i)).collect();
    let mut edges: Vec<(usize, usize)> = Vec::new();
    for u in 0..n {
        for v in 0..n {
            // An edge from the larger to the smaller label, for some pairs.
            if u > v && (u * 7 + v * 3) % 4 == 0 {
                edges.push((u, v));
            }
        }
    }
    for (u, v) in edges.iter() {
        graph.add_edge(&handles[*u], &handles[*v]);
    }
    assert_eq!(graph.len(), n);
    let order = graph.topological_sort().expect("edges only go down");
    assert_eq!(order.len(), n);
    for h in handles.iter() {
        assert_eq!(order.iter().filter(|o| *o == h).count(), 1);
    }
    for (u, v) in edges.iter() {
        let pu = order.iter().position(|o| o == &handles[*u]).unwrap();
        let pv = order.iter().position(|o| o == &handles[*v]).unwrap();
        assert!(pu < pv);
    }
}

#[test]
fn add_node_and_add_edge_fill_the_adjacency_lists() {
    let mut graph = DirectedGraph::default();
    let a = graph.add_node("a");
    assert_eq!(graph.len(), 1);
    let b = graph.add_node("b");
    assert_eq!(graph.len(), 2);
    assert_eq!(a.index, 0);
    assert_eq!(b.index, 1);
    assert_eq!(graph.node(&a).data, "a");
    assert_eq!(graph.node(&b).data, "b");
    assert!(graph.node(&a).incoming.is_empty());
    assert!(graph.node(&a).outgoing.is_empty());
    graph.add_edge(&a, &b);
    graph.add_edge(&b, &b);
    assert_eq!(graph.node(&a).outgoing, vec![b.clone()]);
    assert!(graph.node(&a).incoming.is_empty());
    assert_eq!(graph.node(&b).incoming, vec![a.clone(), b.clone()]);
    assert_eq!(graph.node(&b).outgoing, vec![b.clone()]);
    assert!(graph.contains(&a));
    assert!(!graph.contains(&NodeRef::new(2)));
}
