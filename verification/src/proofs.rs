//! Facts about the graph model that the operations on graphs rest on.

use crate::model::GraphView;
use crate::node::first_match;
use crate::node::handle;
use crate::node::remove_first;
use crate::node::NodeRef;
use vstd::prelude::*;
use vstd::std_specs::cmp::PartialEqSpec;
use vstd::set_lib::lemma_int_range;
use vstd::set_lib::lemma_len_subset;
use vstd::set_lib::set_int_range;

verus! {

/// Adding a node keeps a graph well formed, as long as the arena has room.
pub proof fn lemma_add_node_wf<T>(g: GraphView<T>, data: T)
    requires
        g.wf(),
        g.len() < usize::MAX,
    ensures
        g.add_node(data).wf(),
        g.add_node(data).contains(g.next_handle()),
        !g.contains(g.next_handle()),
{
    let h = g.add_node(data);
    assert forall|v: NodeRef<T>| g.contains(v) implies h.incoming(v) == g.incoming(v)
        && h.outgoing(v) == g.outgoing(v) by {}
    assert forall|v: NodeRef<T>| h.contains(v) && !g.contains(v) implies h.incoming(v).len() == 0
        && h.outgoing(v).len() == 0 by {}
    assert forall|u: NodeRef<T>, v: NodeRef<T>| h.contains(u) && h.contains(v) implies h.outgoing(
        u,
    ).to_multiset().count(v) == h.incoming(v).to_multiset().count(u) by {
        h.outgoing(u).to_multiset_ensures();
        h.incoming(v).to_multiset_ensures();
        if g.contains(u) && g.contains(v) {
        } else if g.contains(u) {
            assert(!g.outgoing(u).contains(v)) by {
                if g.outgoing(u).contains(v) {
                    let k = g.outgoing(u).index_of(v);
                    assert(g.contains(g.outgoing(u)[k]));
                }
            }
        } else if g.contains(v) {
            assert(!g.incoming(v).contains(u)) by {
                if g.incoming(v).contains(u) {
                    let k = g.incoming(v).index_of(u);
                    assert(g.contains(g.incoming(v)[k]));
                }
            }
        } else {
        }
    }
}

/// Handles compare equal exactly when they name the same position; what the
/// nodes hold plays no part. A copy of a handle therefore compares equal to
/// the handle it was made from.
pub proof fn lemma_handle_equality<T>(a: NodeRef<T>, b: NodeRef<T>)
    ensures
        a.eq_spec(&b) <==> a.index == b.index,
        a.eq_spec(&b) <==> a == b,
        a.eq_spec(&a),
{
}

/// Two nodes added one after the other get handles that differ and compare
/// unequal, also when both hold the same payload.
pub proof fn lemma_new_handles_differ<T>(g: GraphView<T>, first: T, second: T)
    requires
        g.wf(),
        g.add_node(first).wf(),
    ensures
        g.next_handle() != g.add_node(first).next_handle(),
        !g.next_handle().eq_spec(&g.add_node(first).next_handle()),
        g.add_node(first).add_node(second).contains(g.next_handle()),
        g.add_node(first).add_node(second).contains(g.add_node(first).next_handle()),
{
}

/// Adding an edge between two nodes of a well-formed graph keeps it well formed.
pub proof fn lemma_add_edge_wf<T>(g: GraphView<T>, from: NodeRef<T>, to: NodeRef<T>)
    requires
        g.wf(),
        g.contains(from),
        g.contains(to),
    ensures
        g.add_edge(from, to).wf(),
        g.add_edge(from, to).len() == g.len(),
        g.add_edge(from, to).outgoing(from) == g.outgoing(from).push(to),
        g.add_edge(from, to).incoming(to) == g.incoming(to).push(from),
        forall|u: NodeRef<T>|
            g.contains(u) && u != from ==> g.add_edge(from, to).outgoing(u) == g.outgoing(u),
        forall|v: NodeRef<T>|
            g.contains(v) && v != to ==> g.add_edge(from, to).incoming(v) == g.incoming(v),
{
    let h = g.add_edge(from, to);
    assert(h.outgoing(from) == g.outgoing(from).push(to));
    assert(h.incoming(to) == g.incoming(to).push(from));
    assert forall|u: NodeRef<T>| g.contains(u) && u != from implies h.outgoing(u) == g.outgoing(
        u,
    ) by {
        assert(u.index != from.index);
    }
    assert forall|v: NodeRef<T>| g.contains(v) && v != to implies h.incoming(v) == g.incoming(
        v,
    ) by {
        assert(v.index != to.index);
    }
    assert forall|u: NodeRef<T>, v: NodeRef<T>| h.contains(u) && h.contains(v) implies h.outgoing(
        u,
    ).to_multiset().count(v) == h.incoming(v).to_multiset().count(u) by {
        g.outgoing(from).to_multiset_ensures();
        g.incoming(to).to_multiset_ensures();
        assert(g.outgoing(u).to_multiset().count(v) == g.incoming(v).to_multiset().count(u));
    }
}

/// Parallel edges count one by one. After the same edge has been added twice,
/// the target has two more incoming entries, and taking one entry of the
/// source away leaves the other: the target is free of the source only after
/// one removal for each edge.
pub proof fn lemma_parallel_edges_count_twice<T>(g: GraphView<T>, from: NodeRef<T>, to: NodeRef<T>)
    requires
        g.wf(),
        g.contains(from),
        g.contains(to),
    ensures
        ({
            let twice = g.add_edge(from, to).add_edge(from, to);
            let once_removed = remove_first(twice.incoming(to), from);
            &&& twice.in_degree(to) == g.in_degree(to) + 2
            &&& twice.incoming(to).to_multiset().count(from) == g.incoming(to).to_multiset().count(
                from,
            ) + 2
            &&& once_removed.len() == g.in_degree(to) + 1
            &&& once_removed.contains(from)
            &&& remove_first(once_removed, from).len() == g.in_degree(to)
        }),
{
    let once = g.add_edge(from, to);
    let twice = once.add_edge(from, to);
    lemma_add_edge_wf(g, from, to);
    lemma_add_edge_wf(once, from, to);
    let list = twice.incoming(to);
    assert(list == g.incoming(to).push(from).push(from));
    g.incoming(to).to_multiset_ensures();
    g.incoming(to).push(from).to_multiset_ensures();
    list.to_multiset_ensures();
    assert(list[list.len() - 1] == from);
    lemma_remove_first_handle(list, from);
    let once_removed = remove_first(list, from);
    once_removed.to_multiset_ensures();
    assert(list.to_multiset().count(from) >= 2);
    assert(once_removed.to_multiset().count(from) >= 1);
    lemma_remove_first_handle(once_removed, from);
}

/// More values than there are pigeonholes: two of them share one.
pub proof fn lemma_pigeonhole(a: Seq<int>, n: nat)
    requires
        a.len() > n,
        forall|k: int| 0 <= k < a.len() ==> 0 <= #[trigger] a[k] < n,
    ensures
        exists|i: int, j: int| 0 <= i < j < a.len() && a[i] == a[j],
{
    if a.no_duplicates() {
        a.unique_seq_to_set();
        lemma_int_range(0, n as int);
        assert(a.to_set().subset_of(set_int_range(0, n as int))) by {
            assert forall|x: int| a.to_set().contains(x) implies set_int_range(
                0,
                n as int,
            ).contains(x) by {
                let k = a.index_of(x);
                assert(a[k] == x);
            }
        }
        lemma_len_subset(a.to_set(), set_int_range(0, n as int));
    } else {
        let (i, j) = choose|i: int, j: int|
            0 <= i < a.len() && 0 <= j < a.len() && i != j && a[i] == a[j];
        if i < j {
            assert(0 <= i < j < a.len() && a[i] == a[j]);
        } else {
            assert(0 <= j < i < a.len() && a[j] == a[i]);
        }
    }
}

/// A list of distinct handles to the nodes of one graph is no longer than the
/// graph has nodes.
pub proof fn lemma_distinct_handles_bounded<T>(g: GraphView<T>, s: Seq<NodeRef<T>>)
    requires
        s.no_duplicates(),
        forall|k: int| 0 <= k < s.len() ==> g.contains(#[trigger] s[k]),
    ensures
        s.len() <= g.len(),
{
    if s.len() > g.len() {
        let a = Seq::new(s.len(), |k: int| s[k].index as int);
        assert forall|k: int| 0 <= k < a.len() implies 0 <= #[trigger] a[k] < g.len() by {
            assert(g.contains(s[k]));
        }
        lemma_pigeonhole(a, g.len());
        let (i, j) = choose|i: int, j: int| 0 <= i < j < a.len() && a[i] == a[j];
        assert(s[i] == s[j]);
    }
}

/// A list that names every node exactly once has as many entries as the graph
/// has nodes.
pub proof fn lemma_full_listing_len<T>(g: GraphView<T>, order: Seq<NodeRef<T>>)
    requires
        g.nodes.len() <= usize::MAX,
        g.lists_every_node_once(order),
    ensures
        order.len() == g.len(),
{
    assert forall|k: int| 0 <= k < order.len() implies g.contains(#[trigger] order[k]) by {
        assert(order.contains(order[k]));
    }
    lemma_distinct_handles_bounded(g, order);
    if order.len() < g.len() {
        // Each node has a place in `order`; with fewer places than nodes two
        // nodes would share one.
        let a = Seq::new(g.len(), |k: int| order.index_of(handle::<T>(k)));
        assert forall|k: int| 0 <= k < a.len() implies 0 <= #[trigger] a[k] < order.len() by {
            let v = handle::<T>(k);
            assert(g.contains(v));
            assert(order.contains(v));
        }
        lemma_pigeonhole(a, order.len());
        let (i, j) = choose|i: int, j: int| 0 <= i < j < a.len() && a[i] == a[j];
        let vi = handle::<T>(i);
        let vj = handle::<T>(j);
        assert(g.contains(vi) && g.contains(vj));
        assert(order.contains(vi) && order.contains(vj));
        assert(order[a[i]] == vi);
        assert(order[a[j]] == vj);
        assert(vi.index != vj.index);
    }
}

/// Along a path every step moves forward in a topological order.
proof fn lemma_path_moves_forward<T>(
    g: GraphView<T>,
    order: Seq<NodeRef<T>>,
    path: Seq<NodeRef<T>>,
    k: int,
)
    requires
        g.is_topological_order(order),
        g.is_path(path),
        1 <= k < path.len(),
    ensures
        order.index_of(path[0]) < order.index_of(path[k]),
    decreases k,
{
    let u = path[k - 1];
    let v = path[k];
    assert(g.has_edge(u, v));
    let (i, j) = choose|i: int, j: int| 0 <= i < j < order.len() && order[i] == u && order[j] == v;
    assert(order.contains(u) && order.contains(v));
    assert(order.index_of(u) == i);
    assert(order.index_of(v) == j);
    if k > 1 {
        lemma_path_moves_forward(g, order, path, k - 1);
    }
}

/// A graph that has a topological order has no directed cycle.
pub proof fn lemma_topological_order_excludes_cycles<T>(g: GraphView<T>, order: Seq<NodeRef<T>>)
    requires
        g.is_topological_order(order),
    ensures
        !g.has_cycle(),
{
    if g.has_cycle() {
        let path = choose|path: Seq<NodeRef<T>>| g.is_cycle(path);
        lemma_path_moves_forward(g, order, path, path.len() - 1);
    }
}

/// `back` leads from every member of `s` to a member of `s` along an edge
/// that ends in the first: every member has a predecessor in the set.
pub open spec fn steps_back_within<T>(
    g: GraphView<T>,
    s: Set<NodeRef<T>>,
    back: spec_fn(NodeRef<T>) -> NodeRef<T>,
) -> bool {
    forall|v: NodeRef<T>|
        s.contains(v) ==> g.contains(v) && s.contains(#[trigger] back(v)) && g.has_edge(
            back(v),
            v,
        )
}

/// The node reached from `start` by `k` steps of `back`.
pub open spec fn walk_back<T>(
    back: spec_fn(NodeRef<T>) -> NodeRef<T>,
    start: NodeRef<T>,
    k: nat,
) -> NodeRef<T>
    decreases k,
{
    if k == 0 {
        start
    } else {
        back(walk_back(back, start, (k - 1) as nat))
    }
}

proof fn lemma_walk_back<T>(
    g: GraphView<T>,
    s: Set<NodeRef<T>>,
    back: spec_fn(NodeRef<T>) -> NodeRef<T>,
    start: NodeRef<T>,
    k: nat,
)
    requires
        steps_back_within(g, s, back),
        s.contains(start),
    ensures
        s.contains(walk_back(back, start, k)),
        g.contains(walk_back(back, start, k)),
        k > 0 ==> g.has_edge(walk_back(back, start, k), walk_back(back, start, (k - 1) as nat)),
    decreases k,
{
    if k > 0 {
        lemma_walk_back(g, s, back, start, (k - 1) as nat);
        let w = walk_back(back, start, (k - 1) as nat);
        assert(s.contains(back(w)));
    }
    assert(s.contains(back(walk_back(back, start, k))));
}

/// A non-empty set of nodes in which every node has a predecessor in the set
/// holds a directed cycle: walking against the edges never leaves the set, so
/// the walk must come back to a node it has seen.
pub proof fn lemma_closed_set_has_cycle<T>(
    g: GraphView<T>,
    s: Set<NodeRef<T>>,
    back: spec_fn(NodeRef<T>) -> NodeRef<T>,
    start: NodeRef<T>,
)
    requires
        steps_back_within(g, s, back),
        s.contains(start),
    ensures
        g.has_cycle(),
{
    let n = g.len();
    let a = Seq::new(n + 1, |k: int| walk_back(back, start, k as nat).index as int);
    assert forall|k: int| 0 <= k < a.len() implies 0 <= #[trigger] a[k] < n by {
        lemma_walk_back(g, s, back, start, k as nat);
    }
    lemma_pigeonhole(a, n);
    let (i, j) = choose|i: int, j: int| 0 <= i < j < a.len() && a[i] == a[j];
    let path = Seq::new((j - i + 1) as nat, |t: int| walk_back(back, start, (j - t) as nat));
    assert(path.first() == path.last()) by {
        assert(walk_back(back, start, j as nat).index == walk_back(back, start, i as nat).index);
    }
    assert(g.contains(path[0])) by {
        lemma_walk_back(g, s, back, start, j as nat);
    }
    assert forall|t: int| 0 <= t < path.len() - 1 implies g.has_edge(
        #[trigger] path[t],
        path[t + 1],
    ) by {
        lemma_walk_back(g, s, back, start, (j - t) as nat);
    }
    assert(g.is_cycle(path));
}

/// In a list of handles, removing the first occurrence of a handle that
/// occurs takes exactly one occurrence away; a list without it is unchanged.
pub proof fn lemma_remove_first_handle<T>(s: Seq<NodeRef<T>>, x: NodeRef<T>)
    ensures
        !s.contains(x) ==> remove_first(s, x) == s,
        s.contains(x) ==> remove_first(s, x).to_multiset() == s.to_multiset().remove(x),
        s.contains(x) ==> remove_first(s, x).len() == s.len() - 1,
{
    lemma_first_match_handle(s, x);
    let i = first_match(s, x);
    if s.contains(x) {
        s.to_multiset_ensures();
        assert(s[i] == x);
    }
}

/// `first_match` finds a handle exactly when the list contains it.
proof fn lemma_first_match_handle<T>(s: Seq<NodeRef<T>>, x: NodeRef<T>)
    ensures
        0 <= first_match(s, x) <= s.len(),
        first_match(s, x) < s.len() ==> s[first_match(s, x)] == x,
        s.contains(x) ==> first_match(s, x) < s.len(),
    decreases s.len(),
{
    if s.len() == 0 {
    } else if s[0].index == x.index {
    } else {
        let rest = s.drop_first();
        lemma_first_match_handle(rest, x);
        if s.contains(x) {
            let k = s.index_of(x);
            assert(rest[k - 1] == x);
        }
    }
}

} // verus!
