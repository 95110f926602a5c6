//! Node storage, node handles and the list utility that the sort relies on.

use std::marker::PhantomData;
use vstd::prelude::*;
use vstd::std_specs::cmp::PartialEqSpec;
use vstd::std_specs::cmp::PartialEqSpecImpl;

verus! {

/// A handle to a node of a graph: the position of the node in the graph's arena.
///
/// Two handles are equal exactly when they name the same position. The payload
/// of the node takes no part in the comparison.
#[derive(Debug)]
pub struct NodeRef<T> {
    pub index: usize,
    pub marker: PhantomData<T>,
}

/// The handle that names position `i`.
pub open spec fn handle<T>(i: int) -> NodeRef<T> {
    NodeRef { index: i as usize, marker: PhantomData }
}

impl<T> NodeRef<T> {
    /// Makes the handle for the node stored at `index`.
    pub fn new(index: usize) -> (r: NodeRef<T>)
        ensures
            r == handle::<T>(index as int),
            r.index == index,
    {
        NodeRef { index, marker: PhantomData }
    }
}

impl<T> Clone for NodeRef<T> {
    /// A second handle to the same node.
    fn clone(&self) -> (r: Self)
        ensures
            r == *self,
    {
        NodeRef { index: self.index, marker: PhantomData }
    }
}

impl<T> PartialEq for NodeRef<T> {
    fn eq(&self, rhs: &NodeRef<T>) -> (r: bool) {
        self.index == rhs.index
    }
}

impl<T> PartialEqSpecImpl for NodeRef<T> {
    open spec fn obeys_eq_spec() -> bool {
        true
    }

    open spec fn eq_spec(&self, rhs: &NodeRef<T>) -> bool {
        self.index == rhs.index
    }
}

impl<T> Eq for NodeRef<T> {

}

/// `<usize as Hash>::hash` of std: feeds the integer to the hasher. Nothing is
/// claimed about the hasher's state afterwards.
pub assume_specification<H: std::hash::Hasher>[ <usize as std::hash::Hash>::hash ](
    value: &usize,
    state: &mut H,
);

impl<T> std::hash::Hash for NodeRef<T> {
    /// Hashes the position alone, so equal handles hash alike whatever `T` is.
    fn hash<H: std::hash::Hasher>(&self, state: &mut H) {
        self.index.hash(state)
    }
}

/// A vertex: a payload and the two adjacency lists, each in insertion order.
/// An edge that was added twice appears twice in both lists.
pub struct Node<T> {
    pub data: T,
    pub incoming: Vec<NodeRef<T>>,
    pub outgoing: Vec<NodeRef<T>>,
}

impl<T> Node<T> {
    /// A node that holds `x` and has no edges.
    pub fn new(x: T) -> (node: Node<T>)
        ensures
            node.data == x,
            node.incoming@ == Seq::<NodeRef<T>>::empty(),
            node.outgoing@ == Seq::<NodeRef<T>>::empty(),
    {
        Node { data: x, incoming: Vec::new(), outgoing: Vec::new() }
    }
}

/// The position of the first element of `s` that equals `item`, or `s.len()`
/// when there is none.
pub open spec fn first_match<T: PartialEq>(s: Seq<T>, item: T) -> int
    decreases s.len(),
{
    if s.len() == 0 || s[0].eq_spec(&item) {
        0
    } else {
        1 + first_match(s.drop_first(), item)
    }
}

/// `s` without the first element that equals `item`; `s` itself when no
/// element does.
pub open spec fn remove_first<T: PartialEq>(s: Seq<T>, item: T) -> Seq<T> {
    let i = first_match(s, item);
    if i < s.len() {
        s.remove(i)
    } else {
        s
    }
}

/// `first_match` is the least matching position: nothing before `i` matches,
/// and the search stops at `i` when `i` matches or the list ends there.
pub proof fn lemma_first_match_at<T: PartialEq>(s: Seq<T>, item: T, i: int)
    requires
        0 <= i <= s.len(),
        forall|k: int| 0 <= k < i ==> !(#[trigger] s[k]).eq_spec(&item),
        i < s.len() ==> s[i].eq_spec(&item),
    ensures
        first_match(s, item) == i,
    decreases i,
{
    if i > 0 {
        let rest = s.drop_first();
        assert forall|k: int| 0 <= k < i - 1 implies !(#[trigger] rest[k]).eq_spec(&item) by {
            assert(rest[k] == s[k + 1]);
        }
        lemma_first_match_at(rest, item, i - 1);
    }
}

/// Removes one occurrence of `item` from `vec`: the first one. The other
/// elements keep their order. A list without `item` is left as it is.
///
/// The elements are compared with `==`. The outcome is stated for every type
/// whose `==` is the relation that its `eq_spec` describes.
pub fn remove_item<T: PartialEq>(vec: &mut Vec<T>, item: &T)
    ensures
        T::obeys_eq_spec() ==> final(vec)@ == remove_first(old(vec)@, *item),
{
    let n = vec.len();
    let mut i: usize = 0;
    while i < n
        invariant
            n == vec@.len(),
            vec@ == old(vec)@,
            0 <= i <= n,
            T::obeys_eq_spec() ==> forall|k: int|
                0 <= k < i ==> !(#[trigger] vec@[k]).eq_spec(item),
        decreases n - i,
    {
        if vec[i] == *item {
            proof {
                if T::obeys_eq_spec() {
                    lemma_first_match_at(vec@, *item, i as int);
                }
            }
            vec.remove(i);
            return ;
        }
        i += 1;
    }
    proof {
        if T::obeys_eq_spec() {
            lemma_first_match_at(vec@, *item, n as int);
        }
    }
}

} // verus!
