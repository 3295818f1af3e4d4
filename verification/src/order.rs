//! Mathematical model of the arena tree: the view of one node, well-formedness
//! of a whole arena, node depth, and the insertion step, all as spec functions.

use vstd::prelude::*;

verus! {

/// Mathematical image of one node: its payload, its own handle value, the
/// handle value of its parent (absent only for the root), and its children's
/// handle values in insertion order.
pub struct NodeView<T> {
    pub data: T,
    pub index: nat,
    pub parent: Option<nat>,
    pub children: Seq<nat>,
}

/// The children recorded for the node with handle value `h` in the arena `s`.
pub open spec fn children_at<T>(s: Seq<NodeView<T>>, h: nat) -> Seq<nat> {
    s[h as int].children
}

/// Well-formed arena: the root (handle value 0) is present and parentless,
/// every node records its own position as its handle, every non-root node's
/// parent lies strictly below it and lists it among its children, and every
/// children list holds strictly increasing handle values of nodes that point
/// back to their parent.
pub open spec fn arena_wf<T>(s: Seq<NodeView<T>>) -> bool {
    &&& s.len() >= 1
    &&& forall|i: int| 0 <= i < s.len() ==> (#[trigger] s[i]).index == i
    &&& s[0].parent is None
    &&& forall|i: int|
        1 <= i < s.len() ==> ((#[trigger] s[i]).parent matches Some(p) && p < i
            && s[p as int].children.contains(i as nat))
    &&& forall|i: int, j: int|
        0 <= i < s.len() && 0 <= j < s[i].children.len() ==> i < #[trigger] s[i].children[j]
            < s.len()
    &&& forall|i: int, j: int|
        0 <= i < s.len() && 0 <= j < s[i].children.len() ==> s[#[trigger] s[i].children[j] as int].parent
            == Some(i as nat)
    &&& forall|i: int, j: int|
        0 <= i < s.len() && 0 < j < s[i].children.len() ==> s[i].children[j - 1]
            < #[trigger] s[i].children[j]
}

/// Distance from the root, following parent links.
pub open spec fn depth_of<T>(s: Seq<NodeView<T>>, h: nat) -> nat
    decreases h,
{
    if h == 0 || h >= s.len() {
        0
    } else {
        match s[h as int].parent {
            Some(p) => if p < h {
                depth_of(s, p) + 1
            } else {
                0
            },
            None => 0,
        }
    }
}

/// The arena after one successful insertion of payload `x` under parent `p`:
/// the new node takes the next handle value (the old length), and that value
/// is appended to `p`'s children.
pub open spec fn with_child<T>(s: Seq<NodeView<T>>, p: nat, x: T) -> Seq<NodeView<T>> {
    let parent_updated = NodeView {
        data: s[p as int].data,
        index: s[p as int].index,
        parent: s[p as int].parent,
        children: s[p as int].children.push(s.len()),
    };
    let fresh = NodeView { data: x, index: s.len(), parent: Some(p), children: Seq::empty() };
    s.update(p as int, parent_updated).push(fresh)
}

/// A node's depth never exceeds its handle value.
pub proof fn lemma_depth_le_handle<T>(s: Seq<NodeView<T>>, h: nat)
    ensures
        depth_of(s, h) <= h,
    decreases h,
{
    if h == 0 || h >= s.len() {
    } else {
        match s[h as int].parent {
            Some(p) => {
                if p < h {
                    lemma_depth_le_handle(s, p);
                }
            },
            None => {},
        }
    }
}

/// Every entry of `hs` is the handle value of a node of `s`.
pub open spec fn all_in<T>(s: Seq<NodeView<T>>, hs: Seq<nat>) -> bool {
    forall|k: int| 0 <= k < hs.len() ==> #[trigger] hs[k] < s.len()
}

/// Every entry of `hs` lies strictly above `parent` and names a node of `s`.
pub open spec fn all_above<T>(s: Seq<NodeView<T>>, parent: nat, hs: Seq<nat>) -> bool {
    forall|k: int| 0 <= k < hs.len() ==> parent < #[trigger] hs[k] < s.len()
}

/// Number of nodes in the subtree rooted at `h`: `h` itself and, recursively,
/// the subtrees of its children.
pub open spec fn subtree_count<T>(s: Seq<NodeView<T>>, h: nat) -> nat
    decreases s.len() - h, 1int, 0int,
    when arena_wf(s) && h < s.len()
{
    1 + count_pending(s, h, children_at(s, h))
}

/// Sum of `subtree_count` over `hs`, all entries children of `parent`'s line:
/// the anchor ties the recursion to the arena's strictly-increasing handles.
pub open spec fn count_pending<T>(s: Seq<NodeView<T>>, parent: nat, hs: Seq<nat>) -> nat
    decreases s.len() - parent, 0int, hs.len(),
    when arena_wf(s) && parent < s.len() && all_above(s, parent, hs)
{
    if hs.len() == 0 {
        0
    } else {
        subtree_count(s, hs.last()) + count_pending(s, parent, hs.drop_last())
    }
}

/// Sum of `subtree_count` over an arbitrary sequence of handle values.
pub open spec fn count_seq<T>(s: Seq<NodeView<T>>, hs: Seq<nat>) -> nat
    decreases hs.len(),
{
    if hs.len() == 0 {
        0
    } else {
        subtree_count(s, hs.first()) + count_seq(s, hs.drop_first())
    }
}

/// `count_seq` measured from the back instead of the front.
pub proof fn lemma_count_seq_snoc<T>(s: Seq<NodeView<T>>, hs: Seq<nat>)
    requires
        hs.len() > 0,
    ensures
        count_seq(s, hs) == count_seq(s, hs.drop_last()) + subtree_count(s, hs.last()),
    decreases hs.len(),
{
    if hs.len() == 1 {
        assert(hs.drop_last() =~= Seq::<nat>::empty());
        assert(hs.drop_first() =~= Seq::<nat>::empty());
        assert(hs.first() == hs.last());
        assert(count_seq(s, hs) == subtree_count(s, hs.first()) + count_seq(s, hs.drop_first()));
        assert(count_seq(s, hs.drop_last()) == 0);
    } else {
        lemma_count_seq_snoc(s, hs.drop_first());
        assert(hs.drop_first().drop_last() =~= hs.drop_last().drop_first());
        assert(hs.drop_last().first() == hs.first());
        assert(hs.drop_first().last() == hs.last());
        assert(count_seq(s, hs) == subtree_count(s, hs.first()) + count_seq(s, hs.drop_first()));
        assert(count_seq(s, hs.drop_last()) == subtree_count(s, hs.drop_last().first()) + count_seq(
            s,
            hs.drop_last().drop_first(),
        ));
    }
}

/// `count_seq` splits over concatenation.
pub proof fn lemma_count_seq_concat<T>(s: Seq<NodeView<T>>, a: Seq<nat>, b: Seq<nat>)
    ensures
        count_seq(s, a + b) == count_seq(s, a) + count_seq(s, b),
    decreases a.len(),
{
    if a.len() == 0 {
        assert(a + b =~= b);
    } else {
        lemma_count_seq_concat(s, a.drop_first(), b);
        assert((a + b).drop_first() =~= a.drop_first() + b);
        assert((a + b).first() == a.first());
    }
}

/// Under the anchor's assumptions the anchored sum equals the plain one.
pub proof fn lemma_count_pending_is_seq<T>(s: Seq<NodeView<T>>, parent: nat, hs: Seq<nat>)
    requires
        arena_wf(s),
        parent < s.len(),
        all_above(s, parent, hs),
    ensures
        count_pending(s, parent, hs) == count_seq(s, hs),
    decreases hs.len(),
{
    if hs.len() == 0 {
    } else {
        lemma_count_pending_is_seq(s, parent, hs.drop_last());
        lemma_count_seq_snoc(s, hs);
    }
}

/// One subtree weighs one more than its children's subtrees together.
pub proof fn lemma_subtree_count_unfold<T>(s: Seq<NodeView<T>>, h: nat)
    requires
        arena_wf(s),
        h < s.len(),
    ensures
        subtree_count(s, h) == 1 + count_seq(s, children_at(s, h)),
{
    lemma_count_pending_is_seq(s, h, children_at(s, h));
}

/// Handles visited by a stack-driven walk: the entry most recently added is
/// expanded first, so a node is followed by its children's subtrees in
/// reverse insertion order.
pub open spec fn dfs_from<T>(s: Seq<NodeView<T>>, h: nat) -> Seq<nat>
    decreases s.len() - h, 1int, 0int,
    when arena_wf(s) && h < s.len()
{
    seq![h] + dfs_pending(s, h, children_at(s, h))
}

/// The walk of a pending stack `hs` whose entries all lie under `parent`'s
/// line: the last entry's subtree comes first.
pub open spec fn dfs_pending<T>(s: Seq<NodeView<T>>, parent: nat, hs: Seq<nat>) -> Seq<nat>
    decreases s.len() - parent, 0int, hs.len(),
    when arena_wf(s) && parent < s.len() && all_above(s, parent, hs)
{
    if hs.len() == 0 {
        Seq::empty()
    } else {
        dfs_from(s, hs.last()) + dfs_pending(s, parent, hs.drop_last())
    }
}

/// The walk of an arbitrary pending stack, last entry's subtree first.
pub open spec fn dfs_rest<T>(s: Seq<NodeView<T>>, hs: Seq<nat>) -> Seq<nat>
    decreases hs.len(),
{
    if hs.len() == 0 {
        Seq::empty()
    } else {
        dfs_from(s, hs.last()) + dfs_rest(s, hs.drop_last())
    }
}

/// Under the anchor's assumptions the anchored walk equals the plain one.
pub proof fn lemma_dfs_pending_is_rest<T>(s: Seq<NodeView<T>>, parent: nat, hs: Seq<nat>)
    requires
        arena_wf(s),
        parent < s.len(),
        all_above(s, parent, hs),
    ensures
        dfs_pending(s, parent, hs) == dfs_rest(s, hs),
    decreases hs.len(),
{
    if hs.len() == 0 {
    } else {
        lemma_dfs_pending_is_rest(s, parent, hs.drop_last());
    }
}

/// `dfs_rest` splits over concatenation, the right part walked first.
pub proof fn lemma_dfs_rest_concat<T>(s: Seq<NodeView<T>>, a: Seq<nat>, b: Seq<nat>)
    ensures
        dfs_rest(s, a + b) == dfs_rest(s, b) + dfs_rest(s, a),
    decreases b.len(),
{
    if b.len() == 0 {
        assert(a + b =~= a);
        assert(dfs_rest(s, b) + dfs_rest(s, a) =~= dfs_rest(s, a));
    } else {
        lemma_dfs_rest_concat(s, a, b.drop_last());
        assert((a + b).drop_last() =~= a + b.drop_last());
        assert((a + b).last() == b.last());
        assert(dfs_from(s, b.last()) + (dfs_rest(s, b.drop_last()) + dfs_rest(s, a)) =~= (dfs_from(
            s,
            b.last(),
        ) + dfs_rest(s, b.drop_last())) + dfs_rest(s, a));
    }
}

/// Handles visited by a queue-driven walk: entries leave at the front and
/// children join at the back, so levels come out in order.
pub open spec fn bfs_loop<T>(s: Seq<NodeView<T>>, q: Seq<nat>) -> Seq<nat>
    decreases count_seq(s, q),
    when arena_wf(s) && all_in(s, q)
    via bfs_loop_decreases::<T>
{
    if q.len() == 0 {
        Seq::empty()
    } else {
        seq![q.first()] + bfs_loop(s, q.drop_first() + children_at(s, q.first()))
    }
}

#[via_fn]
proof fn bfs_loop_decreases<T>(s: Seq<NodeView<T>>, q: Seq<nat>) {
    if q.len() > 0 {
        let h = q.first();
        let q2 = q.drop_first() + children_at(s, h);
        assert(all_in(s, q2)) by {
            assert forall|k: int| 0 <= k < q2.len() implies #[trigger] q2[k] < s.len() by {
                if k < q.len() - 1 {
                    assert(q2[k] == q[k + 1]);
                } else {
                    assert(q2[k] == children_at(s, h)[k - (q.len() - 1)]);
                }
            }
        }
        lemma_count_seq_concat(s, q.drop_first(), children_at(s, h));
        lemma_subtree_count_unfold(s, h);
    }
}

/// The order in which `depth_first_search` offers nodes to its visitor.
pub open spec fn dfs_order<T>(s: Seq<NodeView<T>>) -> Seq<nat> {
    dfs_from(s, 0)
}

/// The order in which `breadth_first_search` offers nodes to its visitor.
pub open spec fn bfs_order<T>(s: Seq<NodeView<T>>) -> Seq<nat> {
    bfs_loop(s, seq![0nat])
}

/// In a well-formed arena, a child listed under `h` sits one level deeper.
pub proof fn lemma_child_depth<T>(s: Seq<NodeView<T>>, h: nat, j: int)
    requires
        arena_wf(s),
        h < s.len(),
        0 <= j < children_at(s, h).len(),
    ensures
        depth_of(s, children_at(s, h)[j]) == depth_of(s, h) + 1,
{
    let c = children_at(s, h)[j];
    assert(h < c < s.len());
    assert(s[c as int].parent == Some(h));
}

} // verus!
