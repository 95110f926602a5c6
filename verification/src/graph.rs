//! The graph container and its topological sort.

use crate::kahn::initial_ready;
use crate::kahn::lemma_all_released;
use crate::kahn::lemma_emit;
use crate::kahn::lemma_stuck_has_cycle;
use crate::kahn::release_edges;
use crate::kahn::settled;
use crate::kahn::unblocked;
use crate::model::arena_view;
use crate::model::GraphView;
use crate::node::handle;
use crate::node::Node;
use crate::node::NodeRef;
use crate::proofs::lemma_add_edge_wf;
use crate::proofs::lemma_add_node_wf;
use crate::proofs::lemma_full_listing_len;
use crate::proofs::lemma_topological_order_excludes_cycles;
use vstd::prelude::*;

verus! {

/// A directed graph that owns its nodes. Handles to the nodes are issued by
/// `add_node` in creation order and stay valid for the life of the graph.
pub struct DirectedGraph<T> {
    nodes: Vec<Node<T>>,
}

impl<T> View for DirectedGraph<T> {
    type V = GraphView<T>;

    closed spec fn view(&self) -> GraphView<T> {
        arena_view(self.nodes@)
    }
}

/// Appends the two adjacency entries of one edge.
fn link<T>(nodes: &mut Vec<Node<T>>, from: &NodeRef<T>, to: &NodeRef<T>)
    requires
        arena_view(old(nodes)@).contains(*from),
        arena_view(old(nodes)@).contains(*to),
    ensures
        arena_view(final(nodes)@) == arena_view(old(nodes)@).add_edge(*from, *to),
{
    nodes[from.index].outgoing.push(to.clone());
    nodes[to.index].incoming.push(from.clone());
    assert(arena_view(nodes@).nodes =~= arena_view(old(nodes)@).add_edge(*from, *to).nodes);
}

impl<T> DirectedGraph<T> {
    /// Every edge joins two nodes of the graph, and the two adjacency lists
    /// agree on the edges. Every operation keeps this.
    pub open spec fn wf(&self) -> bool {
        self@.wf()
    }

    /// Adds a node that holds `data` and returns its handle. The new handle
    /// differs from every handle that this graph issued before.
    pub fn add_node(&mut self, data: T) -> (r: NodeRef<T>)
        requires
            old(self).wf(),
        ensures
            final(self).wf(),
            final(self)@ == old(self)@.add_node(data),
            r == old(self)@.next_handle(),
            !old(self)@.contains(r),
            final(self)@.contains(r),
    {
        let result = NodeRef::new(self.nodes.len());
        let ghost before = self.nodes@;
        self.nodes.push(Node::new(data));
        proof {
            vstd::std_specs::vec::axiom_spec_len(&self.nodes);
            assert(arena_view(self.nodes@).nodes =~= arena_view(before).add_node(data).nodes);
            lemma_add_node_wf(arena_view(before), data);
        }
        result
    }

    /// Adds an edge from `from` to `to`. Nothing is checked: an edge may be
    /// added any number of times, and a node may get an edge to itself.
    pub fn add_edge(&mut self, from: &NodeRef<T>, to: &NodeRef<T>)
        requires
            old(self).wf(),
            old(self)@.contains(*from),
            old(self)@.contains(*to),
        ensures
            final(self).wf(),
            final(self)@ == old(self)@.add_edge(*from, *to),
    {
        proof {
            lemma_add_edge_wf(self@, *from, *to);
        }
        link(&mut self.nodes, from, to);
    }

    /// Sorts the nodes so that the source of every edge stands before its
    /// target, and gives the graph up in doing so. The result is `None`
    /// exactly when the graph has a directed cycle; a node with an edge to
    /// itself is one. Which of several valid orders comes out is left open.
    pub fn topological_sort(self) -> (result: Option<Vec<NodeRef<T>>>)
        requires
            self.wf(),
        ensures
            result is None <==> self@.has_cycle(),
            result matches Some(order) ==> self@.is_topological_order(order@) && order@.len()
                == self@.len(),
    {
        let ghost g = self@;
        let mut nodes = self.nodes;
        let mut result: Vec<NodeRef<T>> = Vec::new();
        let mut ready = initial_ready(&nodes);
        while ready.len() > 0
            invariant
                settled(g, nodes@, result@, ready@),
            decreases g.len() - result@.len(),
        {
            proof {
                lemma_emit(g, nodes@, result@, ready@);
            }
            let n = ready.pop().unwrap();
            result.push(n.clone());
            release_edges(&mut nodes, &mut ready, &n, Ghost(g), Ghost(result@));
        }
        assert(ready@ =~= Seq::empty());
        let len = nodes.len();
        let mut k: usize = 0;
        while k < len
            invariant
                g == self@,
                settled(g, nodes@, result@, Seq::empty()),
                len == nodes@.len(),
                0 <= k <= len,
                forall|v: NodeRef<T>| v.index < k ==> #[trigger] unblocked(nodes@, v),
            decreases len - k,
        {
            if !nodes[k].incoming.is_empty() {
                proof {
                    lemma_stuck_has_cycle(g, nodes@, result@, handle::<T>(k as int));
                }
                return None;
            }
            k += 1;
        }
        proof {
            lemma_all_released(g, nodes@, result@);
            lemma_topological_order_excludes_cycles(g, result@);
            lemma_full_listing_len(g, result@);
        }
        Some(result)
    }

    /// The number of nodes.
    pub fn len(&self) -> (n: usize)
        ensures
            n == self@.len(),
    {
        self.nodes.len()
    }

    /// Whether `r` names a node of this graph.
    pub fn contains(&self, r: &NodeRef<T>) -> (b: bool)
        ensures
            b == self@.contains(*r),
    {
        r.index < self.nodes.len()
    }

    /// The node that `r` names: its payload and its adjacency lists.
    pub fn node(&self, r: &NodeRef<T>) -> (node: &Node<T>)
        requires
            self@.contains(*r),
        ensures
            node.data == self@.data(*r),
            node.incoming@ == self@.incoming(*r),
            node.outgoing@ == self@.outgoing(*r),
    {
        &self.nodes[r.index]
    }
}

impl<T> Default for DirectedGraph<T> {
    /// The graph without nodes.
    fn default() -> (g: DirectedGraph<T>)
        ensures
            g.wf(),
            g@ == GraphView::<T>::empty(),
    {
        let g = DirectedGraph { nodes: Vec::new() };
        assert(g@.nodes =~= GraphView::<T>::empty().nodes);
        g
    }
}

} // verus!
