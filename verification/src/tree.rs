//! An append-only tree held in a handle-keyed arena: nodes are reached through
//! opaque, totally ordered handles; the root always exists; insertion under a
//! known parent is the only growth operation.

use vstd::prelude::*;

use crate::order::NodeView;
use crate::order::arena_wf;
use crate::order::depth_of;
use crate::order::with_child;

verus! {

/// Opaque handle of one node. Handles are issued by the tree in strictly
/// increasing order, starting at 0 for the root, and are never reused.
#[derive(Ord, Eq, PartialEq, PartialOrd, Copy, Clone, Debug, Hash, Structural)]
pub struct NodeIndex(usize);

impl View for NodeIndex {
    type V = nat;

    closed spec fn view(&self) -> nat {
        self.0 as nat
    }
}

/// One node: a payload, its own handle, its parent's handle (absent only for
/// the root), and its children's handles in insertion order.
#[derive(Debug)]
pub struct Node<T> {
    data: T,
    index: NodeIndex,
    parent: Option<NodeIndex>,
    children: Vec<NodeIndex>,
}

impl<T> View for Node<T> {
    type V = NodeView<T>;

    closed spec fn view(&self) -> NodeView<T> {
        NodeView {
            data: self.data,
            index: self.index@,
            parent: match self.parent {
                Some(p) => Some(p@),
                None => None,
            },
            children: self.children@.map_values(|c: NodeIndex| c@),
        }
    }
}

impl<T> Node<T> {
    /// The payload stored in this node.
    pub fn data(&self) -> (r: &T)
        ensures
            *r == self@.data,
    {
        &self.data
    }

    /// The parent's handle, absent for the root.
    pub fn parent(&self) -> (r: Option<NodeIndex>)
        ensures
            match r {
                Some(p) => self@.parent == Some(p@),
                None => self@.parent is None,
            },
    {
        self.parent
    }

    /// The children's handles, in the order the children were inserted.
    pub fn children(&self) -> (r: &Vec<NodeIndex>)
        ensures
            r@.map_values(|c: NodeIndex| c@) == self@.children,
    {
        &self.children
    }
}

/// The tree: an arena of nodes keyed by handle. The view is the sequence of
/// node views, the node with handle value `h` at position `h`.
#[derive(Debug)]
pub struct Tree<T> {
    nodes: Vec<Node<T>>,
}

/// Signal returned by a traversal visitor: keep going, or stop at once and
/// yield the carried value as the traversal's overall result.
pub enum SearchResult<R> {
    Continue,
    Return(R),
}

impl<T> Tree<T> {
    pub closed spec fn view(&self) -> Seq<NodeView<T>> {
        self.nodes@.map_values(|n: Node<T>| n@)
    }

    /// Every operation preserves this: see `arena_wf`.
    pub open spec fn wf(&self) -> bool {
        arena_wf(self@)
    }

    /// The given handle resolves to a node of this tree.
    pub open spec fn contains(&self, index: NodeIndex) -> bool {
        index@ < self@.len()
    }

    /// A reference into this tree: its view sits at its handle's position.
    pub open spec fn is_node_of(&self, node: &Node<T>) -> bool {
        node@.index < self@.len() && self@[node@.index as int] == node@
    }

    /// Creates a tree holding exactly one node, the root, at handle value 0,
    /// carrying the given payload.
    pub fn new(root: T) -> (t: Tree<T>)
        ensures
            t.wf(),
            t@.len() == 1,
            t@[0].data == root,
            t@[0].parent is None,
            t@[0].children == Seq::<nat>::empty(),
    {
        let root_node = Node {
            data: root,
            index: NodeIndex(0),
            parent: None,
            children: Vec::new(),
        };
        let mut nodes = Vec::new();
        nodes.push(root_node);
        let t = Tree { nodes };
        proof {
            assert(t@ =~= seq![t@[0]]);
            assert(t@[0].children =~= Seq::<nat>::empty());
        }
        t
    }

    /// The node with the given handle, or absent if the handle is unknown.
    pub fn get(&self, index: NodeIndex) -> (r: Option<&Node<T>>)
        ensures
            match r {
                Some(node) => self.contains(index) && node@ == self@[index@ as int],
                None => !self.contains(index),
            },
    {
        if index.0 < self.nodes.len() {
            Some(&self.nodes[index.0])
        } else {
            None
        }
    }

    /// Inserts a new node carrying `child` under `parent`. If `parent` is
    /// unknown the tree is left unchanged and the result is absent; otherwise
    /// the new node takes the next handle — strictly greater than every handle
    /// issued before — and is appended to `parent`'s children.
    pub fn add(&mut self, parent: NodeIndex, child: T) -> (r: Option<NodeIndex>)
        requires
            old(self).wf(),
        ensures
            final(self).wf(),
            old(self).contains(parent) ==> (r matches Some(idx) && idx@ == old(self)@.len()),
            old(self).contains(parent) ==> final(self)@ == with_child(old(self)@, parent@, child),
            !old(self).contains(parent) ==> r is None && final(self)@ == old(self)@,
    {
        let idx = NodeIndex(self.nodes.len());
        if parent.0 < self.nodes.len() {
            let ghost s0 = self@;
            let ghost x = child;
            self.nodes[parent.0].children.push(idx);
            let node = Node { data: child, index: idx, parent: Some(parent), children: Vec::new() };
            self.nodes.push(node);
            proof {
                let s1 = self@;
                assert forall|i: int| 0 <= i < s0.len() && i != parent@ implies s1[i] == s0[i] by {
                    assert(s1[i] == self.nodes@[i]@);
                    assert(s0[i] == old(self).nodes@[i]@);
                }
                assert(s1[parent@ as int].children =~= s0[parent@ as int].children.push(s0.len()));
                assert(s1[s0.len() as int].children =~= Seq::<nat>::empty());
                lemma_add_view(s0, s1, parent@, x);
            }
            Some(idx)
        } else {
            None
        }
    }

    /// The node a handle known to be in the tree resolves to.
    pub(crate) fn node_ref(&self, index: NodeIndex) -> (r: &Node<T>)
        requires
            self.contains(index),
        ensures
            r@ == self@[index@ as int],
    {
        &self.nodes[index.0]
    }

    /// How many nodes the tree holds.
    pub(crate) fn node_total(&self) -> (c: usize)
        ensures
            c == self@.len(),
    {
        self.nodes.len()
    }

    /// The root's handle. The root always exists.
    pub fn root(&self) -> (r: NodeIndex)
        ensures
            r@ == 0,
    {
        NodeIndex(0)
    }

    /// The payload of the node with the given handle, absent if unknown.
    pub fn data(&self, node: NodeIndex) -> (r: Option<&T>)
        ensures
            match r {
                Some(d) => self.contains(node) && *d == self@[node@ as int].data,
                None => !self.contains(node),
            },
    {
        match self.get(node) {
            Some(n) => Some(n.data()),
            None => None,
        }
    }

    /// The parent handle of the node with the given handle: absent if the
    /// handle is unknown or names the root.
    pub fn parent(&self, node: NodeIndex) -> (r: Option<NodeIndex>)
        ensures
            match r {
                Some(p) => self.contains(node) && self@[node@ as int].parent == Some(p@),
                None => !self.contains(node) || self@[node@ as int].parent is None,
            },
    {
        match self.get(node) {
            Some(n) => n.parent(),
            None => None,
        }
    }

    /// The children handles of the node with the given handle, in insertion
    /// order; absent if the handle is unknown.
    pub fn children(&self, node: NodeIndex) -> (r: Option<&Vec<NodeIndex>>)
        ensures
            match r {
                Some(v) => self.contains(node) && v@.map_values(|c: NodeIndex| c@)
                    == self@[node@ as int].children,
                None => !self.contains(node),
            },
    {
        match self.get(node) {
            Some(n) => Some(n.children()),
            None => None,
        }
    }
}

/// A pushed sequence keeps every element it already had.
proof fn lemma_push_keeps(v: Seq<nat>, x: nat, y: nat)
    requires
        v.contains(y),
    ensures
        v.push(x).contains(y),
{
    let k = choose|k: int| 0 <= k < v.len() && v[k] == y;
    assert(v.push(x)[k] == y);
}

/// The two arena views around a successful insertion match `with_child`, and
/// the grown arena is well-formed again.
proof fn lemma_add_view<T>(s0: Seq<NodeView<T>>, s1: Seq<NodeView<T>>, p: nat, x: T)
    requires
        arena_wf(s0),
        p < s0.len(),
        s1.len() == s0.len() + 1,
        forall|i: int| 0 <= i < s0.len() && i != p ==> s1[i] == s0[i],
        s1[p as int].data == s0[p as int].data,
        s1[p as int].index == s0[p as int].index,
        s1[p as int].parent == s0[p as int].parent,
        s1[p as int].children == s0[p as int].children.push(s0.len()),
        s1[s0.len() as int].data == x,
        s1[s0.len() as int].index == s0.len(),
        s1[s0.len() as int].parent == Some(p),
        s1[s0.len() as int].children == Seq::<nat>::empty(),
    ensures
        s1 == with_child(s0, p, x),
        arena_wf(s1),
{
    let n0 = s0.len() as int;
    assert(s1 =~= with_child(s0, p, x));
    assert forall|i: int| 0 <= i < s1.len() implies (#[trigger] s1[i]).index == i by {}
    assert(s1[0].parent is None);
    assert forall|i: int|
        1 <= i < s1.len() implies ((#[trigger] s1[i]).parent matches Some(q) && q < i
            && s1[q as int].children.contains(i as nat)) by {
        if i < n0 {
            let q = s1[i].parent->0;
            assert(s0[q as int].children.contains(i as nat));
            if q == p {
                lemma_push_keeps(s0[p as int].children, s0.len(), i as nat);
            }
        } else {
            assert(s1[p as int].children[s0[p as int].children.len() as int] == s0.len());
            assert(s1[p as int].children.contains(s0.len()));
        }
    }
    assert forall|i: int, j: int|
        0 <= i < s1.len() && 0 <= j < s1[i].children.len() implies i < #[trigger] s1[i].children[j]
            < s1.len() by {
        if i == p && j == s0[p as int].children.len() {
        } else if i < n0 {
            assert(i < s1[i].children[j] < s0.len());
        }
    }
    assert forall|i: int, j: int|
        0 <= i < s1.len() && 0 <= j < s1[i].children.len() implies s1[#[trigger] s1[i].children[j] as int].parent
            == Some(i as nat) by {
        if i == p && j == s0[p as int].children.len() {
        } else if i < n0 {
            let c = s1[i].children[j];
            assert(c == s0[i].children[j]);
            assert(s0[c as int].parent == Some(i as nat));
        }
    }
    assert forall|i: int, j: int|
        0 <= i < s1.len() && 0 < j < s1[i].children.len() implies s1[i].children[j - 1]
            < #[trigger] s1[i].children[j] by {
        if i == p && j == s0[p as int].children.len() {
            assert(p < s0[p as int].children[j - 1] < s0.len());
        } else if i < n0 {
            assert(s0[i].children[j - 1] < s0[i].children[j]);
        }
    }
}

} // verus!
