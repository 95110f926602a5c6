//! The working state of the topological sort and the steps that advance it.
//!
//! The sort emits nodes one by one. A node is ready once every edge that ends
//! in it has been released, and the edges that start in a node are released
//! when the node is emitted. `settled` describes that state between two
//! nodes, `releasing` describes it while the edges of the node emitted last
//! are being released.

use crate::model::arena_view;
use crate::model::GraphView;
use crate::node::remove_item;
use crate::node::Node;
use crate::node::NodeRef;
use crate::proofs::lemma_closed_set_has_cycle;
use crate::proofs::lemma_distinct_handles_bounded;
use crate::proofs::lemma_remove_first_handle;
use vstd::prelude::*;

verus! {

/// How many entries `x` the incoming list of `v` still holds.
pub open spec fn remaining<T>(nodes: Seq<Node<T>>, v: NodeRef<T>, x: NodeRef<T>) -> nat {
    nodes[v.index as int].incoming@.to_multiset().count(x)
}

/// How many entries `x` the incoming list of `v` holds between two nodes: all
/// of them while `x` waits, none once `x` has been emitted.
pub open spec fn owed<T>(
    g: GraphView<T>,
    done: Seq<NodeRef<T>>,
    v: NodeRef<T>,
    x: NodeRef<T>,
) -> int {
    if done.contains(x) {
        0
    } else {
        g.incoming(v).to_multiset().count(x) as int
    }
}

/// The same while the first `j` outgoing edges of the node emitted last have
/// been released: one entry of that node has gone for each of them.
pub open spec fn owed_at<T>(
    g: GraphView<T>,
    done: Seq<NodeRef<T>>,
    j: int,
    v: NodeRef<T>,
    x: NodeRef<T>,
) -> int {
    if x == done.last() {
        g.outgoing(x).to_multiset().count(v) - g.outgoing(x).take(j).to_multiset().count(v)
    } else {
        owed(g, done, v, x)
    }
}

/// Whether every edge into `v` has been released.
pub open spec fn unblocked<T>(nodes: Seq<Node<T>>, v: NodeRef<T>) -> bool {
    nodes[v.index as int].incoming@.len() == 0
}

/// What holds of the state at every moment of the sort: the emitted nodes
/// `done` and the waiting nodes `ready` are distinct nodes, together they
/// are the nodes whose incoming list is empty, and every edge into an
/// emitted node starts at a node emitted earlier.
pub open spec fn steady<T>(
    g: GraphView<T>,
    nodes: Seq<Node<T>>,
    done: Seq<NodeRef<T>>,
    ready: Seq<NodeRef<T>>,
) -> bool {
    &&& g.wf()
    &&& nodes.len() == g.len()
    &&& forall|v: NodeRef<T>|
        g.contains(v) ==> (#[trigger] nodes[v.index as int]).outgoing@ == g.outgoing(v)
    &&& done.no_duplicates()
    &&& ready.no_duplicates()
    &&& forall|i: int, j: int|
        0 <= i < done.len() && 0 <= j < ready.len() ==> #[trigger] done[i] != #[trigger] ready[j]
    &&& forall|i: int|
        0 <= i < done.len() ==> g.contains(#[trigger] done[i]) && unblocked(nodes, done[i])
    &&& forall|j: int|
        0 <= j < ready.len() ==> g.contains(#[trigger] ready[j]) && unblocked(nodes, ready[j])
    &&& forall|v: NodeRef<T>|
        g.contains(v) && #[trigger] unblocked(nodes, v) ==> done.contains(v) || ready.contains(v)
    &&& forall|i: int, x: NodeRef<T>|
        0 <= i < done.len() && #[trigger] g.incoming(done[i]).contains(x) ==> exists|k: int|
            0 <= k < i && done[k] == x
}

/// The state between two nodes: the incoming lists hold exactly the entries
/// whose source has not been emitted.
pub open spec fn settled<T>(
    g: GraphView<T>,
    nodes: Seq<Node<T>>,
    done: Seq<NodeRef<T>>,
    ready: Seq<NodeRef<T>>,
) -> bool {
    &&& steady(g, nodes, done, ready)
    &&& forall|v: NodeRef<T>, x: NodeRef<T>|
        g.contains(v) ==> #[trigger] remaining(nodes, v, x) == owed(g, done, v, x)
}

/// The state after the first `j` outgoing edges of the node emitted last
/// have been released: one entry of it has gone for each of them.
pub open spec fn releasing<T>(
    g: GraphView<T>,
    nodes: Seq<Node<T>>,
    done: Seq<NodeRef<T>>,
    ready: Seq<NodeRef<T>>,
    j: int,
) -> bool {
    &&& steady(g, nodes, done, ready)
    &&& done.len() > 0
    &&& 0 <= j <= g.outgoing(done.last()).len()
    &&& forall|v: NodeRef<T>, x: NodeRef<T>|
        g.contains(v) ==> #[trigger] remaining(nodes, v, x) == owed_at(g, done, j, v, x)
}

/// `after` is `before` with one entry `u` taken from the incoming list of `m`.
pub open spec fn released_one<T>(
    before: Seq<Node<T>>,
    after: Seq<Node<T>>,
    m: NodeRef<T>,
    u: NodeRef<T>,
) -> bool {
    &&& after.len() == before.len()
    &&& forall|i: int|
        0 <= i < before.len() && i != m.index ==> (#[trigger] after[i]).incoming@
            == before[i].incoming@
    &&& forall|i: int|
        0 <= i < before.len() ==> (#[trigger] after[i]).outgoing@ == before[i].outgoing@
    &&& after[m.index as int].incoming@.to_multiset() == before[m.index
        as int].incoming@.to_multiset().remove(u)
}

/// Emitting a ready node leads from the settled state to the start of the
/// release of its edges, and the list of emitted nodes stays within the
/// number of nodes.
pub proof fn lemma_emit<T>(
    g: GraphView<T>,
    nodes: Seq<Node<T>>,
    done: Seq<NodeRef<T>>,
    ready: Seq<NodeRef<T>>,
)
    requires
        settled(g, nodes, done, ready),
        ready.len() > 0,
    ensures
        releasing(g, nodes, done.push(ready.last()), ready.drop_last(), 0),
        done.len() < g.len(),
{
    let u = ready.last();
    let done2 = done.push(u);
    let ready2 = ready.drop_last();
    assert(g.contains(u) && unblocked(nodes, u));
    assert forall|v: NodeRef<T>| done2.contains(v) <==> (done.contains(v) || v == u) by {
        if done.contains(v) {
            let k = done.index_of(v);
            assert(done2[k] == v);
        }
        if v == u {
            assert(done2[done.len() as int] == v);
        }
        if done2.contains(v) {
            let k = done2.index_of(v);
            if k < done.len() {
                assert(done[k] == v);
            }
        }
    }
    assert forall|v: NodeRef<T>| ready.contains(v) <==> (ready2.contains(v) || v == u) by {
        if ready2.contains(v) {
            let k = ready2.index_of(v);
            assert(ready[k] == v);
        }
        if ready.contains(v) && v != u {
            let k = ready.index_of(v);
            assert(ready2[k] == v);
        }
    }
    assert(!done.contains(u)) by {
        if done.contains(u) {
            let k = done.index_of(u);
            assert(done[k] != ready[ready.len() - 1]);
        }
    }
    assert(done2.no_duplicates());
    assert(ready2.no_duplicates());
    assert forall|i: int, j: int| 0 <= i < done2.len() && 0 <= j < ready2.len() implies done2[i]
        != ready2[j] by {
        assert(ready2[j] == ready[j]);
        if i < done.len() {
            assert(done2[i] == done[i]);
        }
    }
    assert forall|i: int, x: NodeRef<T>|
        0 <= i < done2.len() && #[trigger] g.incoming(done2[i]).contains(x) implies exists|k: int|
        0 <= k < i && done2[k] == x by {
        if i < done.len() {
            assert(done2[i] == done[i]);
            let k = choose|k: int| 0 <= k < i && done[k] == x;
            assert(done2[k] == x);
        } else {
            g.incoming(u).to_multiset_ensures();
            nodes[u.index as int].incoming@.to_multiset_ensures();
            assert(remaining(nodes, u, x) == 0);
            assert(done.contains(x));
            let k = done.index_of(x);
            assert(done2[k] == x);
        }
    }
    assert forall|v: NodeRef<T>, x: NodeRef<T>| g.contains(v) implies #[trigger] remaining(
        nodes,
        v,
        x,
    ) == owed_at(g, done2, 0, v, x) by {
        assert(remaining(nodes, v, x) == owed(g, done, v, x));
        if x == u {
            g.outgoing(u).take(0).to_multiset_ensures();
            assert(!g.outgoing(u).take(0).contains(v));
            assert(g.outgoing(u).to_multiset().count(v) == g.incoming(v).to_multiset().count(u));
        }
    }
    assert forall|k: int| 0 <= k < done2.len() implies g.contains(#[trigger] done2[k])
        && unblocked(nodes, done2[k]) by {
        if k < done.len() {
            assert(done2[k] == done[k]);
        }
    }
    assert forall|v: NodeRef<T>| g.contains(v) && #[trigger] unblocked(nodes, v) implies (
    done2.contains(v) || ready2.contains(v)) by {
        assert(done.contains(v) || ready.contains(v));
    }
    lemma_distinct_handles_bounded(g, done2);
}

/// While edge `j` of the emitted node waits for its release, the incoming
/// list of its target still holds an entry for it.
proof fn lemma_edge_pending<T>(
    g: GraphView<T>,
    nodes: Seq<Node<T>>,
    done: Seq<NodeRef<T>>,
    ready: Seq<NodeRef<T>>,
    j: int,
)
    requires
        releasing(g, nodes, done, ready, j),
        j < g.outgoing(done.last()).len(),
    ensures
        g.contains(done.last()),
        g.contains(g.outgoing(done.last())[j]),
        nodes[g.outgoing(done.last())[j].index as int].incoming@.contains(done.last()),
{
    let u = done.last();
    let m = g.outgoing(u)[j];
    let all = g.outgoing(u).to_multiset();
    let gone = g.outgoing(u).take(j).to_multiset();
    let gone2 = g.outgoing(u).take(j + 1).to_multiset();
    assert(g.contains(u) && unblocked(nodes, u));
    assert(g.contains(m));
    nodes[m.index as int].incoming@.to_multiset_ensures();
    assert(gone2 =~= gone.insert(m)) by {
        g.outgoing(u).take(j).to_multiset_ensures();
        assert(g.outgoing(u).take(j + 1) =~= g.outgoing(u).take(j).push(m));
    }
    assert(gone2.count(m) <= all.count(m)) by {
        lemma_prefix_count(g.outgoing(u), j + 1, m);
    }
    assert(remaining(nodes, m, u) == owed_at(g, done, j, m, u));
}

/// Taking one entry of the emitted node from the incoming list of the target
/// of its edge `j` releases that edge. The target becomes ready exactly when
/// its list is empty afterwards.
proof fn lemma_release<T>(
    g: GraphView<T>,
    before: Seq<Node<T>>,
    after: Seq<Node<T>>,
    done: Seq<NodeRef<T>>,
    ready: Seq<NodeRef<T>>,
    j: int,
)
    requires
        releasing(g, before, done, ready, j),
        j < g.outgoing(done.last()).len(),
        released_one(before, after, g.outgoing(done.last())[j], done.last()),
    ensures
        after[g.outgoing(done.last())[j].index as int].incoming@.len() == 0 ==> releasing(
            g,
            after,
            done,
            ready.push(g.outgoing(done.last())[j]),
            j + 1,
        ),
        after[g.outgoing(done.last())[j].index as int].incoming@.len() != 0 ==> releasing(
            g,
            after,
            done,
            ready,
            j + 1,
        ),
{
    let u = done.last();
    let m = g.outgoing(u)[j];
    let old_list = before[m.index as int].incoming@;
    let new_list = after[m.index as int].incoming@;
    lemma_edge_pending(g, before, done, ready, j);
    old_list.to_multiset_ensures();
    new_list.to_multiset_ensures();
    assert(g.outgoing(u).take(j + 1).to_multiset() =~= g.outgoing(u).take(j).to_multiset().insert(
        m,
    )) by {
        g.outgoing(u).take(j).to_multiset_ensures();
        assert(g.outgoing(u).take(j + 1) =~= g.outgoing(u).take(j).push(m));
    }
    assert(!unblocked(before, m));
    assert(!done.contains(m)) by {
        if done.contains(m) {
            let k = done.index_of(m);
            assert(unblocked(before, done[k]));
        }
    }
    assert(!ready.contains(m)) by {
        if ready.contains(m) {
            let k = ready.index_of(m);
            assert(unblocked(before, ready[k]));
        }
    }
    let ready2 = if new_list.len() == 0 {
        ready.push(m)
    } else {
        ready
    };
    assert forall|v: NodeRef<T>| ready2.contains(v) <==> (ready.contains(v) || (v == m
        && new_list.len() == 0)) by {
        if ready.contains(v) {
            let k = ready.index_of(v);
            assert(ready2[k] == v);
        }
        if v == m && new_list.len() == 0 {
            assert(ready2[ready.len() as int] == v);
        }
        if ready2.contains(v) {
            let k = ready2.index_of(v);
            if k < ready.len() {
                assert(ready[k] == v);
            }
        }
    }
    assert(ready2.no_duplicates());
    assert forall|i: int, k: int| 0 <= i < done.len() && 0 <= k < ready2.len() implies done[i]
        != ready2[k] by {
        if k < ready.len() {
            assert(ready2[k] == ready[k]);
        } else {
            assert(done.contains(done[i]));
        }
    }
    assert forall|v: NodeRef<T>| g.contains(v) && v != m implies unblocked(after, v) == unblocked(
        before,
        v,
    ) by {
        assert(v.index != m.index);
        assert(after[v.index as int].incoming@ == before[v.index as int].incoming@);
    }
    assert forall|i: int| 0 <= i < done.len() implies g.contains(#[trigger] done[i]) && unblocked(
        after,
        done[i],
    ) by {
        assert(done.contains(done[i]));
        assert(unblocked(before, done[i]));
    }
    assert forall|k: int| 0 <= k < ready2.len() implies g.contains(#[trigger] ready2[k])
        && unblocked(after, ready2[k]) by {
        if k < ready.len() {
            assert(ready.contains(ready[k]));
            assert(unblocked(before, ready[k]));
        }
    }
    assert forall|v: NodeRef<T>| g.contains(v) && #[trigger] unblocked(after, v) implies (
    done.contains(v) || ready2.contains(v)) by {
        if v != m {
            assert(unblocked(before, v));
        }
    }
    assert forall|v: NodeRef<T>| g.contains(v) implies (#[trigger] after[v.index
        as int]).outgoing@ == g.outgoing(v) by {
        assert(before[v.index as int].outgoing@ == g.outgoing(v));
    }
    assert forall|v: NodeRef<T>, x: NodeRef<T>| g.contains(v) implies #[trigger] remaining(
        after,
        v,
        x,
    ) == owed_at(g, done, j + 1, v, x) by {
        assert(remaining(before, v, x) == owed_at(g, done, j, v, x));
        if v.index != m.index {
            assert(after[v.index as int].incoming@ == before[v.index as int].incoming@);
            assert(v != m);
        } else {
            assert(v == m);
        }
    }
    assert(steady(g, after, done, ready2));
}

/// Once every outgoing edge of the emitted node has been released, the state
/// is settled again.
proof fn lemma_release_done<T>(
    g: GraphView<T>,
    nodes: Seq<Node<T>>,
    done: Seq<NodeRef<T>>,
    ready: Seq<NodeRef<T>>,
)
    requires
        releasing(g, nodes, done, ready, g.outgoing(done.last()).len() as int),
    ensures
        settled(g, nodes, done, ready),
{
    let u = done.last();
    assert(g.outgoing(u).take(g.outgoing(u).len() as int) =~= g.outgoing(u));
    assert(done.contains(u));
    assert(g.contains(u));
    assert forall|v: NodeRef<T>, x: NodeRef<T>| g.contains(v) implies #[trigger] remaining(
        nodes,
        v,
        x,
    ) == owed(g, done, v, x) by {
        assert(remaining(nodes, v, x) == owed_at(g, done, g.outgoing(u).len() as int, v, x));
    }
}

/// A prefix of a list holds no more entries of a kind than the whole list.
proof fn lemma_prefix_count<T>(s: Seq<NodeRef<T>>, j: int, x: NodeRef<T>)
    requires
        0 <= j <= s.len(),
    ensures
        s.take(j).to_multiset().count(x) <= s.to_multiset().count(x),
    decreases s.len() - j,
{
    if j == s.len() {
        assert(s.take(j) =~= s);
    } else {
        lemma_prefix_count(s, j + 1, x);
        s.take(j).to_multiset_ensures();
        assert(s.take(j + 1) =~= s.take(j).push(s[j]));
    }
}

/// When no node is ready, a node that waits for an edge waits for one from
/// a node that waits as well.
proof fn lemma_waiting_predecessor<T>(
    g: GraphView<T>,
    nodes: Seq<Node<T>>,
    done: Seq<NodeRef<T>>,
    v: NodeRef<T>,
) -> (x: NodeRef<T>)
    requires
        settled(g, nodes, done, Seq::empty()),
        g.contains(v),
        !unblocked(nodes, v),
    ensures
        g.contains(x),
        !unblocked(nodes, x),
        g.has_edge(x, v),
{
    let list = nodes[v.index as int].incoming@;
    let x = list[0];
    assert(list.contains(x));
    list.to_multiset_ensures();
    g.incoming(v).to_multiset_ensures();
    assert(remaining(nodes, v, x) == owed(g, done, v, x));
    assert(g.incoming(v).contains(x));
    let k = g.incoming(v).index_of(x);
    assert(g.contains(g.incoming(v)[k]));
    g.outgoing(x).to_multiset_ensures();
    assert(g.outgoing(x).to_multiset().count(v) == g.incoming(v).to_multiset().count(x));
    if unblocked(nodes, x) {
        assert(done.contains(x) || Seq::<NodeRef<T>>::empty().contains(x));
    }
    x
}

/// When no node is ready and some node still waits for an edge, the waiting
/// nodes hold a cycle.
pub proof fn lemma_stuck_has_cycle<T>(
    g: GraphView<T>,
    nodes: Seq<Node<T>>,
    done: Seq<NodeRef<T>>,
    stuck: NodeRef<T>,
)
    requires
        settled(g, nodes, done, Seq::empty()),
        g.contains(stuck),
        !unblocked(nodes, stuck),
    ensures
        g.has_cycle(),
{
    let waiting = Set::new(|v: NodeRef<T>| g.contains(v) && !unblocked(nodes, v));
    let back = |v: NodeRef<T>|
        choose|x: NodeRef<T>| g.contains(x) && !unblocked(nodes, x) && g.has_edge(x, v);
    assert forall|v: NodeRef<T>| waiting.contains(v) implies g.contains(v) && waiting.contains(
        #[trigger] back(v),
    ) && g.has_edge(back(v), v) by {
        lemma_waiting_predecessor(g, nodes, done, v);
    }
    assert(waiting.contains(stuck));
    lemma_closed_set_has_cycle(g, waiting, back, stuck);
}

/// When the sort ends with every edge released, the emitted nodes are a
/// topological order of the graph.
pub proof fn lemma_all_released<T>(g: GraphView<T>, nodes: Seq<Node<T>>, done: Seq<NodeRef<T>>)
    requires
        settled(g, nodes, done, Seq::empty()),
        forall|v: NodeRef<T>| g.contains(v) ==> #[trigger] unblocked(nodes, v),
    ensures
        g.is_topological_order(done),
{
    assert forall|v: NodeRef<T>| g.contains(v) <==> done.contains(v) by {
        if g.contains(v) {
            assert(unblocked(nodes, v));
            assert(done.contains(v) || Seq::<NodeRef<T>>::empty().contains(v));
        }
        if done.contains(v) {
            let k = done.index_of(v);
            assert(g.contains(done[k]));
        }
    }
    assert forall|u: NodeRef<T>, v: NodeRef<T>| #[trigger] g.has_edge(u, v) implies exists|
        i: int,
        j: int,
    |
        0 <= i < j < done.len() && done[i] == u && done[j] == v by {
        g.outgoing(u).to_multiset_ensures();
        g.incoming(v).to_multiset_ensures();
        assert(g.outgoing(u).to_multiset().count(v) == g.incoming(v).to_multiset().count(u));
        let j = done.index_of(v);
        assert(g.incoming(done[j]).contains(u));
        let i = choose|i: int| 0 <= i < j && done[i] == u;
        assert(0 <= i < j < done.len() && done[i] == u && done[j] == v);
    }
}

/// Collects the nodes that have no incoming edge, in creation order.
pub fn initial_ready<T>(nodes: &Vec<Node<T>>) -> (ready: Vec<NodeRef<T>>)
    requires
        arena_view(nodes@).wf(),
    ensures
        settled(arena_view(nodes@), nodes@, Seq::empty(), ready@),
{
    let ghost g = arena_view(nodes@);
    let n = nodes.len();
    let mut ready: Vec<NodeRef<T>> = Vec::new();
    let mut k: usize = 0;
    while k < n
        invariant
            n == nodes@.len(),
            0 <= k <= n,
            ready@.no_duplicates(),
            forall|j: int|
                0 <= j < ready@.len() ==> (#[trigger] ready@[j]).index < k && unblocked(
                    nodes@,
                    ready@[j],
                ),
            forall|v: NodeRef<T>|
                v.index < k && #[trigger] unblocked(nodes@, v) ==> ready@.contains(v),
        decreases n - k,
    {
        if nodes[k].incoming.is_empty() {
            let fresh = NodeRef::new(k);
            let ghost before = ready@;
            ready.push(fresh);
            proof {
                assert forall|v: NodeRef<T>|
                    v.index < k + 1 && #[trigger] unblocked(nodes@, v) implies ready@.contains(
                    v,
                ) by {
                    if v.index < k {
                        let j = before.index_of(v);
                        assert(ready@[j] == v);
                    } else {
                        assert(ready@[before.len() as int] == v);
                    }
                }
            }
        }
        k += 1;
    }
    proof {
        assert forall|v: NodeRef<T>| g.contains(v) implies (#[trigger] nodes@[v.index
            as int]).outgoing@ == g.outgoing(v) && nodes@[v.index as int].incoming@ == g.incoming(
            v,
        ) by {}
        assert forall|v: NodeRef<T>, x: NodeRef<T>| g.contains(v) implies #[trigger] remaining(
            nodes@,
            v,
            x,
        ) == owed(g, Seq::empty(), v, x) by {
            assert(nodes@[v.index as int].incoming@ == g.incoming(v));
        }
    }
    ready
}

/// Releases the outgoing edges of the node `u` that was emitted last: takes
/// one entry `u` from the incoming list of the target of each edge, and
/// makes the target ready when its list is empty afterwards.
pub fn release_edges<T>(
    nodes: &mut Vec<Node<T>>,
    ready: &mut Vec<NodeRef<T>>,
    u: &NodeRef<T>,
    Ghost(g): Ghost<GraphView<T>>,
    Ghost(done): Ghost<Seq<NodeRef<T>>>,
)
    requires
        releasing(g, old(nodes)@, done, old(ready)@, 0),
        done.last() == *u,
    ensures
        settled(g, final(nodes)@, done, final(ready)@),
{
    assert(g.contains(*u) && unblocked(nodes@, *u));
    let out_len = nodes[u.index].outgoing.len();
    let mut j: usize = 0;
    while j < out_len
        invariant
            releasing(g, nodes@, done, ready@, j as int),
            done.last() == *u,
            out_len == g.outgoing(*u).len(),
            0 <= j <= out_len,
        decreases out_len - j,
    {
        proof {
            lemma_edge_pending(g, nodes@, done, ready@, j as int);
        }
        let m = nodes[u.index].outgoing[j].clone();
        let ghost before = nodes@;
        let ghost waiting = ready@;
        remove_item(&mut nodes[m.index].incoming, u);
        proof {
            lemma_remove_first_handle(before[m.index as int].incoming@, *u);
            assert(released_one(before, nodes@, m, *u));
            lemma_release(g, before, nodes@, done, waiting, j as int);
        }
        if nodes[m.index].incoming.is_empty() {
            ready.push(m);
        }
        j += 1;
    }
    proof {
        lemma_release_done(g, nodes@, done, ready@);
    }
}

} // verus!
