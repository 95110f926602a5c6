//! The mathematical model of a graph: what a graph is, what a cycle is, and
//! what it means for a sequence of handles to be a topological order.

use crate::node::handle;
use crate::node::Node;
use crate::node::NodeRef;
use vstd::prelude::*;

verus! {

/// What a node holds, with its adjacency lists as sequences of handles.
pub struct NodeView<T> {
    pub data: T,
    pub incoming: Seq<NodeRef<T>>,
    pub outgoing: Seq<NodeRef<T>>,
}

impl<T> View for Node<T> {
    type V = NodeView<T>;

    open spec fn view(&self) -> NodeView<T> {
        NodeView { data: self.data, incoming: self.incoming@, outgoing: self.outgoing@ }
    }
}

/// A graph as a sequence of nodes in creation order. The handle with index
/// `i` names `nodes[i]`.
pub struct GraphView<T> {
    pub nodes: Seq<NodeView<T>>,
}

/// The model of an arena: each stored node by its view.
pub open spec fn arena_view<T>(nodes: Seq<Node<T>>) -> GraphView<T> {
    GraphView { nodes: nodes.map_values(|n: Node<T>| n@) }
}

impl<T> GraphView<T> {
    /// The graph without nodes.
    pub open spec fn empty() -> GraphView<T> {
        GraphView { nodes: Seq::empty() }
    }

    /// The number of nodes.
    pub open spec fn len(self) -> nat {
        self.nodes.len()
    }

    /// Whether `r` names a node of this graph.
    pub open spec fn contains(self, r: NodeRef<T>) -> bool {
        r.index < self.nodes.len()
    }

    /// The payload of node `r`.
    pub open spec fn data(self, r: NodeRef<T>) -> T {
        self.nodes[r.index as int].data
    }

    /// The sources of the edges that end in `r`, one entry per edge.
    pub open spec fn incoming(self, r: NodeRef<T>) -> Seq<NodeRef<T>> {
        self.nodes[r.index as int].incoming
    }

    /// The targets of the edges that start in `r`, one entry per edge.
    pub open spec fn outgoing(self, r: NodeRef<T>) -> Seq<NodeRef<T>> {
        self.nodes[r.index as int].outgoing
    }

    /// The number of edges that end in `r`; parallel edges count separately.
    pub open spec fn in_degree(self, r: NodeRef<T>) -> nat {
        self.incoming(r).len()
    }

    /// Whether there is at least one edge from `u` to `v`.
    pub open spec fn has_edge(self, u: NodeRef<T>, v: NodeRef<T>) -> bool {
        self.contains(u) && self.contains(v) && self.outgoing(u).contains(v)
    }

    /// The two adjacency lists describe the same edges, and every edge joins
    /// nodes of this graph. Each edge from `u` to `v` is one entry `v` in the
    /// outgoing list of `u` and one entry `u` in the incoming list of `v`.
    pub open spec fn wf(self) -> bool {
        &&& self.nodes.len() <= usize::MAX
        &&& forall|v: NodeRef<T>, k: int|
            self.contains(v) && 0 <= k < self.incoming(v).len() ==> self.contains(
                #[trigger] self.incoming(v)[k],
            )
        &&& forall|u: NodeRef<T>, k: int|
            self.contains(u) && 0 <= k < self.outgoing(u).len() ==> self.contains(
                #[trigger] self.outgoing(u)[k],
            )
        &&& forall|u: NodeRef<T>, v: NodeRef<T>|
            self.contains(u) && self.contains(v) ==> #[trigger] self.outgoing(
                u,
            ).to_multiset().count(v) == #[trigger] self.incoming(v).to_multiset().count(u)
    }

    /// Each step of `path` follows an edge.
    pub open spec fn is_path(self, path: Seq<NodeRef<T>>) -> bool {
        &&& path.len() >= 1
        &&& self.contains(path[0])
        &&& forall|i: int|
            0 <= i < path.len() - 1 ==> self.has_edge(#[trigger] path[i], path[i + 1])
    }

    /// `path` follows at least one edge and ends where it starts. A node with
    /// an edge to itself is a cycle of two entries.
    pub open spec fn is_cycle(self, path: Seq<NodeRef<T>>) -> bool {
        &&& path.len() >= 2
        &&& self.is_path(path)
        &&& path.first() == path.last()
    }

    /// Whether some directed cycle runs through the graph.
    pub open spec fn has_cycle(self) -> bool {
        exists|path: Seq<NodeRef<T>>| self.is_cycle(path)
    }

    /// `order` lists every node exactly once.
    pub open spec fn lists_every_node_once(self, order: Seq<NodeRef<T>>) -> bool {
        &&& order.no_duplicates()
        &&& forall|v: NodeRef<T>| self.contains(v) <==> order.contains(v)
    }

    /// `order` lists every node exactly once, and the source of every edge
    /// stands before its target.
    pub open spec fn is_topological_order(self, order: Seq<NodeRef<T>>) -> bool {
        &&& self.lists_every_node_once(order)
        &&& forall|u: NodeRef<T>, v: NodeRef<T>| #[trigger]
            self.has_edge(u, v) ==> exists|i: int, j: int|
                0 <= i < j < order.len() && order[i] == u && order[j] == v
    }

    /// The handle that the next new node will get.
    pub open spec fn next_handle(self) -> NodeRef<T> {
        handle(self.nodes.len() as int)
    }

    /// The graph with one more node, which holds `data` and has no edges.
    pub open spec fn add_node(self, data: T) -> GraphView<T> {
        GraphView {
            nodes: self.nodes.push(
                NodeView { data, incoming: Seq::empty(), outgoing: Seq::empty() },
            ),
        }
    }

    /// The graph with one more edge from `from` to `to`: `to` is appended to
    /// the outgoing list of `from`, and `from` to the incoming list of `to`.
    pub open spec fn add_edge(self, from: NodeRef<T>, to: NodeRef<T>) -> GraphView<T> {
        let source = self.nodes[from.index as int];
        let linked = self.nodes.update(
            from.index as int,
            NodeView { outgoing: source.outgoing.push(to), ..source },
        );
        let target = linked[to.index as int];
        GraphView {
            nodes: linked.update(
                to.index as int,
                NodeView { incoming: target.incoming.push(from), ..target },
            ),
        }
    }
}

} // verus!
