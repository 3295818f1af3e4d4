//! The traversal engine: depth-first and breadth-first visitor-driven walks
//! over the tree, and predicate search built on the depth-first walk.

use std::collections::VecDeque;

use vstd::prelude::*;

use crate::order::NodeView;
use crate::order::all_in;
use crate::order::arena_wf;
use crate::order::bfs_loop;
use crate::order::bfs_order;
use crate::order::children_at;
use crate::order::count_seq;
use crate::order::depth_of;
use crate::order::dfs_from;
use crate::order::dfs_order;
use crate::order::dfs_pending;
use crate::order::dfs_rest;
use crate::order::lemma_child_depth;
use crate::order::lemma_count_pending_is_seq;
use crate::order::lemma_count_seq_concat;
use crate::order::lemma_count_seq_snoc;
use crate::order::lemma_depth_le_handle;
use crate::order::lemma_dfs_pending_is_rest;
use crate::order::lemma_dfs_rest_concat;
use crate::order::lemma_subtree_count_unfold;
use crate::order::subtree_count;
use crate::tree::Node;
use crate::tree::NodeIndex;
use crate::tree::SearchResult;
use crate::tree::Tree;

verus! {

/// The visitor, offered the node with handle value `h` at that node's depth,
/// may answer `out`.
pub open spec fn may_step<'a, T, R, V: Fn(&'a Tree<T>, &'a Node<T>, usize) -> SearchResult<R>>(
    tree: &'a Tree<T>,
    visit: V,
    h: nat,
    out: SearchResult<R>,
) -> bool {
    exists|node: &'a Node<T>|
        tree.is_node_of(node) && node@.index == h && #[trigger] call_ensures(
            visit,
            (tree, node, depth_of(tree@, h) as usize),
            out,
        )
}

/// What a finished traversal looked like: the visitor could continue through
/// the first `k` nodes of the order `ord`; then either it stopped at position
/// `k` answering `Return(r)`, or `k` is the whole order and `r` is the result
/// type's default value.
pub open spec fn search_outcome<
    'a,
    T,
    R: Default,
    V: Fn(&'a Tree<T>, &'a Node<T>, usize) -> SearchResult<R>,
>(tree: &'a Tree<T>, visit: V, ord: Seq<nat>, k: int, r: R) -> bool {
    &&& 0 <= k <= ord.len()
    &&& forall|i: int|
        0 <= i < k ==> may_step(tree, visit, #[trigger] ord[i], SearchResult::<R>::Continue)
    &&& k < ord.len() ==> may_step(tree, visit, ord[k], SearchResult::Return(r))
    &&& k == ord.len() ==> call_ensures(R::default, (), r)
}

/// One expansion step of the stack-driven walk: popping `n` from the pending
/// stack and pushing its children keeps the walk aligned with `dfs_from`, and
/// shrinks the pending weight.
#[verifier::spinoff_prover]
#[verifier::rlimit(50)]
proof fn lemma_dfs_step<T>(s: Seq<NodeView<T>>, visited0: Seq<nat>, hb: Seq<nat>, n: nat)
    requires
        arena_wf(s),
        n < s.len(),
        visited0 + dfs_rest(s, hb.push(n)) == dfs_from(s, 0nat),
    ensures
        visited0.push(n) + dfs_rest(s, hb + children_at(s, n)) == dfs_from(s, 0nat),
        count_seq(s, hb + children_at(s, n)) < count_seq(s, hb.push(n)),
        forall|j: int|
            0 <= j < children_at(s, n).len() ==> n < #[trigger] children_at(s, n)[j] < s.len(),
        forall|j: int|
            0 <= j < children_at(s, n).len() ==> depth_of(s, #[trigger] children_at(s, n)[j])
                == depth_of(s, n) + 1,
        dfs_from(s, 0nat)[visited0.len() as int] == n,
        visited0.len() < dfs_from(s, 0nat).len(),
{
    let ch = children_at(s, n);
    assert forall|j: int| 0 <= j < ch.len() implies n < #[trigger] ch[j] < s.len() by {
        assert(s[n as int].children[j] == ch[j]);
    }
    assert forall|j: int| 0 <= j < ch.len() implies depth_of(s, #[trigger] ch[j]) == depth_of(s, n)
        + 1 by {
        lemma_child_depth(s, n, j);
    }
    assert(hb.push(n).last() == n);
    assert(hb.push(n).drop_last() =~= hb);
    assert(dfs_rest(s, hb.push(n)) == dfs_from(s, n) + dfs_rest(s, hb));
    assert(dfs_from(s, n) == seq![n] + dfs_pending(s, n, ch));
    lemma_dfs_pending_is_rest(s, n, ch);
    lemma_dfs_rest_concat(s, hb, ch);
    assert(dfs_rest(s, hb + ch) == dfs_rest(s, ch) + dfs_rest(s, hb));
    assert(visited0.push(n) + dfs_rest(s, hb + ch) =~= visited0 + dfs_rest(s, hb.push(n)));
    assert(dfs_from(s, n)[0] == n);
    assert(dfs_from(s, 0nat)[visited0.len() as int] == n);
    lemma_count_seq_snoc(s, hb.push(n));
    assert(count_seq(s, hb.push(n)) == count_seq(s, hb) + subtree_count(s, n));
    lemma_count_seq_concat(s, hb, ch);
    lemma_count_pending_is_seq(s, n, ch);
    lemma_subtree_count_unfold(s, n);
}

/// One expansion step of the queue-driven walk: taking `n` from the front and
/// appending its children at the back keeps the walk aligned with `bfs_loop`,
/// and shrinks the pending weight.
#[verifier::spinoff_prover]
#[verifier::rlimit(50)]
proof fn lemma_bfs_step<T>(s: Seq<NodeView<T>>, visited0: Seq<nat>, hr: Seq<nat>, n: nat)
    requires
        arena_wf(s),
        n < s.len(),
        all_in(s, hr),
        visited0 + bfs_loop(s, seq![n] + hr) == bfs_order(s),
    ensures
        visited0.push(n) + bfs_loop(s, hr + children_at(s, n)) == bfs_order(s),
        count_seq(s, hr + children_at(s, n)) < count_seq(s, seq![n] + hr),
        forall|j: int|
            0 <= j < children_at(s, n).len() ==> n < #[trigger] children_at(s, n)[j] < s.len(),
        forall|j: int|
            0 <= j < children_at(s, n).len() ==> depth_of(s, #[trigger] children_at(s, n)[j])
                == depth_of(s, n) + 1,
        all_in(s, hr + children_at(s, n)),
        bfs_order(s)[visited0.len() as int] == n,
        visited0.len() < bfs_order(s).len(),
{
    let ch = children_at(s, n);
    let q = seq![n] + hr;
    assert forall|j: int| 0 <= j < ch.len() implies n < #[trigger] ch[j] < s.len() by {
        assert(s[n as int].children[j] == ch[j]);
    }
    assert forall|j: int| 0 <= j < ch.len() implies depth_of(s, #[trigger] ch[j]) == depth_of(s, n)
        + 1 by {
        lemma_child_depth(s, n, j);
    }
    assert(all_in(s, q)) by {
        assert(forall|k: int| 0 <= k < q.len() ==> #[trigger] q[k] < s.len());
    }
    assert(all_in(s, hr + ch)) by {
        assert(forall|k: int| 0 <= k < (hr + ch).len() ==> #[trigger] (hr + ch)[k] < s.len());
    }
    assert(q.first() == n);
    assert(q.drop_first() =~= hr);
    assert(bfs_loop(s, q) == seq![n] + bfs_loop(s, hr + ch));
    assert(visited0.push(n) + bfs_loop(s, hr + ch) =~= visited0 + bfs_loop(s, q));
    assert(bfs_loop(s, q)[0] == n);
    assert(bfs_order(s)[visited0.len() as int] == n);
    assert(count_seq(s, q) == subtree_count(s, n) + count_seq(s, hr));
    lemma_count_seq_concat(s, hr, ch);
    lemma_subtree_count_unfold(s, n);
}

impl<T> Tree<T> {
    /// Walks the tree from the root with an explicit pending stack: the entry
    /// most recently added is expanded first, so below the root each node's
    /// later children are visited before its earlier ones. Every visited node
    /// is offered to the visitor together with its depth; the first `Return`
    /// answer stops the walk and becomes the result, and if the walk exhausts
    /// the tree the result is the result type's default value.
    #[verifier::spinoff_prover]
    #[verifier::rlimit(50)]
    pub fn depth_first_search<
        'a,
        R: Default,
        V: Fn(&'a Tree<T>, &'a Node<T>, usize) -> SearchResult<R>,
    >(&'a self, visit: V) -> (r: R)
        requires
            self.wf(),
            forall|node: &Node<T>, depth: usize|
                self.is_node_of(node) && depth == depth_of(self@, node@.index)
                    ==> call_requires(visit, (self, node, depth)),
        ensures
            exists|k: int| search_outcome(self, visit, dfs_order(self@), k, r),
    {
        let ghost s = self@;
        // pins self@.len() <= usize::MAX, which bounds every depth below
        let _total = self.node_total();
        let mut pending: Vec<(NodeIndex, usize)> = Vec::new();
        pending.push((self.root(), 0usize));
        let ghost mut hs = seq![0nat];
        let ghost mut visited = Seq::<nat>::empty();
        proof {
            assert(hs =~= Seq::<nat>::empty().push(0nat));
            assert(hs.last() == 0nat);
            assert(hs.drop_last() =~= Seq::<nat>::empty());
            assert(dfs_rest(s, hs) == dfs_from(s, 0nat) + dfs_rest(s, Seq::<nat>::empty()));
            assert(visited + dfs_rest(s, hs) =~= dfs_order(s));
        }
        while pending.len() > 0
            invariant
                self.wf(),
                s == self@,
                s.len() <= usize::MAX,
                forall|node: &Node<T>, depth: usize|
                    self.is_node_of(node) && depth == depth_of(self@, node@.index)
                        ==> call_requires(visit, (self, node, depth)),
                hs.len() == pending@.len(),
                forall|j: int|
                    0 <= j < pending@.len() ==> (#[trigger] pending@[j]).0@ == hs[j] && hs[j]
                        < s.len() && pending@[j].1 == depth_of(s, hs[j]),
                visited + dfs_rest(s, hs) == dfs_order(s),
                forall|i: int|
                    0 <= i < visited.len() ==> may_step(
                        self,
                        visit,
                        #[trigger] visited[i],
                        SearchResult::<R>::Continue,
                    ),
            decreases count_seq(s, hs),
        {
            let ghost hs0 = hs;
            let ghost pend0 = pending@;
            let (n, level) = pending.pop().unwrap();
            let ghost visited0 = visited;
            proof {
                hs = hs.drop_last();
                assert(hs0 =~= hs.push(n@));
                lemma_dfs_step(s, visited, hs, n@);
                assert(s[n@ as int].index == n@);
                lemma_depth_le_handle(s, n@);
            }
            let node = self.node_ref(n);
            let res = visit(self, node, level);
            match res {
                SearchResult::Return(out) => {
                    proof {
                        let ord = dfs_order(s);
                        let k = visited.len() as int;
                        assert(may_step(self, visit, n@, SearchResult::<R>::Return(out)));
                        assert forall|i: int| 0 <= i < k implies may_step(
                            self,
                            visit,
                            #[trigger] ord[i],
                            SearchResult::<R>::Continue,
                        ) by {
                            assert(ord[i] == visited[i]);
                        }
                        assert(search_outcome(self, visit, ord, k, out));
                    }
                    return out;
                },
                SearchResult::Continue => {},
            }
            proof {
                assert(may_step(self, visit, n@, SearchResult::<R>::Continue));
                visited = visited.push(n@);
            }
            let children = node.children();
            let ghost ch = children_at(s, n@);
            let ghost hb = hs;
            let ghost pend_base = pending@;
            proof {
                assert(children@.len() == ch.len() && forall|j: int|
                    0 <= j < children@.len() ==> (#[trigger] children@[j])@ == ch[j]) by {
                    assert(children@.map_values(|c: NodeIndex| c@) == ch);
                }
                assert(hs =~= hb + ch.subrange(0, 0));
            }
            let mut i: usize = 0;
            while i < children.len()
                invariant
                    i <= children.len(),
                    children@.len() == ch.len(),
                    forall|j: int| 0 <= j < children@.len() ==> (#[trigger] children@[j])@ == ch[j],
                    pending@.len() == hs.len(),
                    hs == hb + ch.subrange(0, i as int),
                    forall|j: int|
                        0 <= j < pending@.len() ==> (#[trigger] pending@[j]).0@ == hs[j],
                    forall|j: int|
                        hb.len() <= j < pending@.len() ==> (#[trigger] pending@[j]).1 == level + 1,
                    forall|j: int| 0 <= j < hb.len() ==> #[trigger] pending@[j] == pend_base[j],
                    level + 1 <= usize::MAX,
                decreases children.len() - i,
            {
                pending.push((children[i], level + 1));
                proof {
                    hs = hs.push(ch[i as int]);
                    assert(hs =~= hb + ch.subrange(0, i + 1));
                }
                i += 1;
            }
            proof {
                assert(ch.subrange(0, ch.len() as int) =~= ch);
                assert(hs == hb + ch);
                assert forall|j: int|
                    0 <= j < hb.len() implies (#[trigger] pend_base[j]).0@ == hb[j] && hb[j]
                    < s.len() && pend_base[j].1 == depth_of(s, hb[j]) by {
                    assert(pend0[j].0@ == hs0[j]);
                }
                assert forall|j: int|
                    hb.len() <= j < hs.len() implies depth_of(s, #[trigger] hs[j]) == level + 1 by {
                    assert(hs[j] == ch[j - hb.len()]);
                    assert(depth_of(s, ch[j - hb.len()]) == level + 1);
                }
            }
        }
        let out = R::default();
        proof {
            let ord = dfs_order(s);
            assert(hs =~= Seq::<nat>::empty());
            assert(visited + dfs_rest(s, hs) =~= visited);
            let k = visited.len() as int;
            assert forall|i: int| 0 <= i < k implies may_step(
                self,
                visit,
                #[trigger] ord[i],
                SearchResult::<R>::Continue,
            ) by {
                assert(ord[i] == visited[i]);
            }
            assert(search_outcome(self, visit, ord, k, out));
        }
        out
    }

    /// Walks the tree from the root with a first-in-first-out queue: nodes
    /// are visited level by level, each level in insertion order. The visitor
    /// contract is the same as for the depth-first walk: the first `Return`
    /// answer stops the walk and becomes the result, and if the walk exhausts
    /// the tree the result is the result type's default value.
    #[verifier::spinoff_prover]
    #[verifier::rlimit(50)]
    pub fn breadth_first_search<
        'a,
        R: Default,
        V: Fn(&'a Tree<T>, &'a Node<T>, usize) -> SearchResult<R>,
    >(&'a self, visit: V) -> (r: R)
        requires
            self.wf(),
            forall|node: &Node<T>, depth: usize|
                self.is_node_of(node) && depth == depth_of(self@, node@.index)
                    ==> call_requires(visit, (self, node, depth)),
        ensures
            exists|k: int| search_outcome(self, visit, bfs_order(self@), k, r),
    {
        let ghost s = self@;
        // pins self@.len() <= usize::MAX, which bounds every depth below
        let _total = self.node_total();
        let mut pending: VecDeque<(NodeIndex, usize)> = VecDeque::new();
        pending.push_back((self.root(), 0usize));
        let ghost mut hs = seq![0nat];
        let ghost mut visited = Seq::<nat>::empty();
        proof {
            assert(hs =~= Seq::<nat>::empty().push(0nat));
            assert(visited + bfs_loop(s, hs) =~= bfs_order(s));
        }
        while pending.len() > 0
            invariant
                self.wf(),
                s == self@,
                s.len() <= usize::MAX,
                forall|node: &Node<T>, depth: usize|
                    self.is_node_of(node) && depth == depth_of(self@, node@.index)
                        ==> call_requires(visit, (self, node, depth)),
                hs.len() == pending@.len(),
                forall|j: int|
                    0 <= j < pending@.len() ==> (#[trigger] pending@[j]).0@ == hs[j] && hs[j]
                        < s.len() && pending@[j].1 == depth_of(s, hs[j]),
                visited + bfs_loop(s, hs) == bfs_order(s),
                forall|i: int|
                    0 <= i < visited.len() ==> may_step(
                        self,
                        visit,
                        #[trigger] visited[i],
                        SearchResult::<R>::Continue,
                    ),
            decreases count_seq(s, hs),
        {
            let ghost hs0 = hs;
            let ghost pend0 = pending@;
            let (n, level) = pending.pop_front().unwrap();
            let ghost visited0 = visited;
            proof {
                hs = hs.drop_first();
                assert(hs0 =~= seq![n@] + hs);
                assert forall|k: int| 0 <= k < hs.len() implies #[trigger] hs[k] < s.len() by {
                    assert(pend0[k + 1].0@ == hs0[k + 1]);
                }
                assert(all_in(s, hs));
                lemma_bfs_step(s, visited, hs, n@);
                assert(s[n@ as int].index == n@);
                lemma_depth_le_handle(s, n@);
            }
            let node = self.node_ref(n);
            let res = visit(self, node, level);
            match res {
                SearchResult::Return(out) => {
                    proof {
                        let ord = bfs_order(s);
                        let k = visited.len() as int;
                        assert(may_step(self, visit, n@, SearchResult::<R>::Return(out)));
                        assert forall|i: int| 0 <= i < k implies may_step(
                            self,
                            visit,
                            #[trigger] ord[i],
                            SearchResult::<R>::Continue,
                        ) by {
                            assert(ord[i] == visited[i]);
                        }
                        assert(search_outcome(self, visit, ord, k, out));
                    }
                    return out;
                },
                SearchResult::Continue => {},
            }
            proof {
                assert(may_step(self, visit, n@, SearchResult::<R>::Continue));
                visited = visited.push(n@);
            }
            let children = node.children();
            let ghost ch = children_at(s, n@);
            let ghost hb = hs;
            let ghost pend_base = pending@;
            proof {
                assert(children@.len() == ch.len() && forall|j: int|
                    0 <= j < children@.len() ==> (#[trigger] children@[j])@ == ch[j]) by {
                    assert(children@.map_values(|c: NodeIndex| c@) == ch);
                }
                assert(hs =~= hb + ch.subrange(0, 0));
            }
            let mut i: usize = 0;
            while i < children.len()
                invariant
                    i <= children.len(),
                    children@.len() == ch.len(),
                    forall|j: int| 0 <= j < children@.len() ==> (#[trigger] children@[j])@ == ch[j],
                    pending@.len() == hs.len(),
                    hs == hb + ch.subrange(0, i as int),
                    forall|j: int|
                        0 <= j < pending@.len() ==> (#[trigger] pending@[j]).0@ == hs[j],
                    forall|j: int|
                        hb.len() <= j < pending@.len() ==> (#[trigger] pending@[j]).1 == level + 1,
                    forall|j: int| 0 <= j < hb.len() ==> #[trigger] pending@[j] == pend_base[j],
                    level + 1 <= usize::MAX,
                decreases children.len() - i,
            {
                pending.push_back((children[i], level + 1));
                proof {
                    hs = hs.push(ch[i as int]);
                    assert(hs =~= hb + ch.subrange(0, i + 1));
                }
                i += 1;
            }
            proof {
                assert(ch.subrange(0, ch.len() as int) =~= ch);
                assert(hs == hb + ch);
                assert forall|j: int|
                    0 <= j < hb.len() implies (#[trigger] pend_base[j]).0@ == hb[j] && hb[j]
                    < s.len() && pend_base[j].1 == depth_of(s, hb[j]) by {
                    assert(pend0[j].0@ == hs0[j]);
                }
                assert forall|j: int|
                    hb.len() <= j < hs.len() implies depth_of(s, #[trigger] hs[j]) == level + 1 by {
                    assert(hs[j] == ch[j - hb.len()]);
                    assert(depth_of(s, ch[j - hb.len()]) == level + 1);
                }
            }
        }
        let out = R::default();
        proof {
            let ord = bfs_order(s);
            assert(hs =~= Seq::<nat>::empty());
            assert(bfs_loop(s, hs) == Seq::<nat>::empty());
            assert(visited + bfs_loop(s, hs) =~= visited);
            let k = visited.len() as int;
            assert forall|i: int| 0 <= i < k implies may_step(
                self,
                visit,
                #[trigger] ord[i],
                SearchResult::<R>::Continue,
            ) by {
                assert(ord[i] == visited[i]);
            }
            assert(search_outcome(self, visit, ord, k, out));
        }
        out
    }


    /// Appends all children of `n` to the pending stack, in order; the ghost
    /// mirror of the stack's handle values grows by `n`'s children.
    fn push_children(&self, pending: &mut Vec<NodeIndex>, n: NodeIndex, Ghost(hs_in): Ghost<
        Seq<nat>,
    >) -> (hs_out: Ghost<Seq<nat>>)
        requires
            self.wf(),
            self.contains(n),
            hs_in.len() == old(pending)@.len(),
            forall|j: int|
                0 <= j < old(pending)@.len() ==> (#[trigger] old(pending)@[j])@ == hs_in[j]
                    && hs_in[j] < self@.len(),
        ensures
            hs_out@ == hs_in + children_at(self@, n@),
            final(pending)@.len() == hs_out@.len(),
            forall|j: int|
                0 <= j < final(pending)@.len() ==> (#[trigger] final(pending)@[j])@ == hs_out@[j]
                    && hs_out@[j] < self@.len(),
    {
        let ghost s = self@;
        let node = self.node_ref(n);
        let children = node.children();
        let ghost ch = children_at(s, n@);
        let ghost hb = hs_in;
        let ghost pend_base = pending@;
        let ghost mut hs = hs_in;
        proof {
            assert forall|j: int| 0 <= j < ch.len() implies n@ < #[trigger] ch[j] < s.len() by {
                assert(s[n@ as int].children[j] == ch[j]);
            }
            assert(children@.len() == ch.len() && forall|j: int|
                0 <= j < children@.len() ==> (#[trigger] children@[j])@ == ch[j]) by {
                assert(children@.map_values(|c: NodeIndex| c@) == ch);
            }
            assert(hs =~= hb + ch.subrange(0, 0));
        }
        let mut i: usize = 0;
        while i < children.len()
            invariant
                i <= children.len(),
                children@.len() == ch.len(),
                forall|j: int| 0 <= j < children@.len() ==> (#[trigger] children@[j])@ == ch[j],
                forall|j: int| 0 <= j < ch.len() ==> #[trigger] ch[j] < s.len(),
                pending@.len() == hs.len(),
                hs == hb + ch.subrange(0, i as int),
                forall|j: int| 0 <= j < pending@.len() ==> (#[trigger] pending@[j])@ == hs[j],
                forall|j: int| 0 <= j < hb.len() ==> #[trigger] pending@[j] == pend_base[j],
                forall|j: int|
                    0 <= j < hb.len() ==> (#[trigger] pend_base[j])@ == hb[j] && hb[j] < s.len(),
            decreases children.len() - i,
        {
            pending.push(children[i]);
            proof {
                hs = hs.push(ch[i as int]);
                assert(hs =~= hb + ch.subrange(0, i + 1));
            }
            i += 1;
        }
        proof {
            assert(ch.subrange(0, ch.len() as int) =~= ch);
            assert(hs == hb + ch);
            assert forall|j: int| 0 <= j < pending@.len() implies (#[trigger] pending@[j])@
                == hs[j] && hs[j] < s.len() by {
                if j < hb.len() {
                    assert(pending@[j] == pend_base[j]);
                } else {
                    assert(hs[j] == ch[j - hb.len()]);
                }
            }
        }
        Ghost(hs)
    }

    /// Searches in the order of `depth_first_search`, stopping at the first
    /// node the predicate accepts and yielding a reference to it; absent when
    /// the predicate rejects every node. "First" is first in the stack order
    /// of the depth-first walk, not left-to-right preorder.
    #[verifier::spinoff_prover]
    #[verifier::rlimit(100)]
    pub fn find<'a, P: Fn(&'a Tree<T>, &'a Node<T>) -> bool>(&'a self, predicate: P) -> (r: Option<
        &'a Node<T>,
    >)
        requires
            self.wf(),
            forall|node: &Node<T>|
                self.is_node_of(node) ==> call_requires(predicate, (self, node)),
        ensures
            find_outcome(self, predicate, r),
    {
        let ghost s = self@;
        let mut pending: Vec<NodeIndex> = Vec::new();
        pending.push(self.root());
        let ghost mut hs = seq![0nat];
        let ghost mut visited = Seq::<nat>::empty();
        proof {
            assert(hs =~= Seq::<nat>::empty().push(0nat));
            assert(hs.drop_last() =~= Seq::<nat>::empty());
            assert(dfs_rest(s, hs) == dfs_from(s, 0nat) + dfs_rest(s, Seq::<nat>::empty()));
            assert(visited + dfs_rest(s, hs) =~= dfs_order(s));
        }
        while pending.len() > 0
            invariant
                self.wf(),
                s == self@,
                forall|node: &Node<T>|
                    self.is_node_of(node) ==> call_requires(predicate, (self, node)),
                hs.len() == pending@.len(),
                forall|j: int|
                    0 <= j < pending@.len() ==> (#[trigger] pending@[j])@ == hs[j] && hs[j]
                        < s.len(),
                visited + dfs_rest(s, hs) == dfs_order(s),
                forall|i: int|
                    0 <= i < visited.len() ==> may_match(
                        self,
                        predicate,
                        #[trigger] visited[i],
                        false,
                    ),
            decreases count_seq(s, hs),
        {
            let ghost hs0 = hs;
            let ghost pend0 = pending@;
            let n = pending.pop().unwrap();
            proof {
                hs = hs.drop_last();
                assert(hs0 =~= hs.push(n@));
                lemma_dfs_step(s, visited, hs, n@);
                assert(s[n@ as int].index == n@);
                assert forall|j: int|
                    0 <= j < pending@.len() implies (#[trigger] pending@[j])@ == hs[j] && hs[j]
                    < s.len() by {
                    assert(pend0[j]@ == hs0[j]);
                }
            }
            let node = self.node_ref(n);
            proof {
                assert(self.is_node_of(node));
                assert(call_requires(predicate, (self, node)));
            }
            if predicate(self, node) {
                proof {
                    let ord = dfs_order(s);
                    let k = visited.len() as int;
                    assert forall|i: int| 0 <= i < k implies may_match(
                        self,
                        predicate,
                        #[trigger] ord[i],
                        false,
                    ) by {
                        assert(ord[i] == visited[i]);
                    }
                    assert(0 <= k < ord.len());
                    assert(self.is_node_of(node));
                    assert(node@.index == ord[k]);
                    assert(call_ensures(predicate, (self, node), true));
                    assert(found_at(self, predicate, node, k));
                    assert(first_match_is(self, predicate, node));
                    assert(find_outcome(self, predicate, Some(node)));
                }
                return Some(node);
            }
            proof {
                assert(may_match(self, predicate, n@, false));
                visited = visited.push(n@);
            }
            let hs_next = self.push_children(&mut pending, n, Ghost(hs));
            proof {
                hs = hs_next@;
            }
        }
        proof {
            let ord = dfs_order(s);
            assert(hs =~= Seq::<nat>::empty());
            assert(visited + dfs_rest(s, hs) =~= visited);
            assert forall|i: int| 0 <= i < ord.len() implies may_match(
                self,
                predicate,
                #[trigger] ord[i],
                false,
            ) by {
                assert(ord[i] == visited[i]);
            }
            assert(find_outcome(self, predicate, Option::<&Node<T>>::None));
        }
        None
    }
}

/// The predicate, asked about the node with handle value `h`, may answer
/// `verdict`.
pub open spec fn may_match<'a, T, P: Fn(&'a Tree<T>, &'a Node<T>) -> bool>(
    tree: &'a Tree<T>,
    predicate: P,
    h: nat,
    verdict: bool,
) -> bool {
    exists|node: &'a Node<T>|
        tree.is_node_of(node) && node@.index == h && #[trigger] call_ensures(
            predicate,
            (tree, node),
            verdict,
        )
}

/// `node` sits at position `k` of the depth-first order, the predicate may
/// accept it, and the predicate may reject every node walked before it.
pub open spec fn found_at<'a, T, P: Fn(&'a Tree<T>, &'a Node<T>) -> bool>(
    tree: &'a Tree<T>,
    predicate: P,
    node: &'a Node<T>,
    k: int,
) -> bool {
    &&& 0 <= k < dfs_order(tree@).len()
    &&& tree.is_node_of(node) && node@.index == dfs_order(tree@)[k]
    &&& call_ensures(predicate, (tree, node), true)
    &&& forall|i: int|
        0 <= i < k ==> may_match(tree, predicate, #[trigger] dfs_order(tree@)[i], false)
}

/// `node` is, at some position of the depth-first order, the first node the
/// predicate may accept.
pub open spec fn first_match_is<'a, T, P: Fn(&'a Tree<T>, &'a Node<T>) -> bool>(
    tree: &'a Tree<T>,
    predicate: P,
    node: &'a Node<T>,
) -> bool {
    exists|k: int| #[trigger] found_at(tree, predicate, node, k)
}

/// What a finished search looked like: either a node the predicate may
/// accept, first in depth-first order among acceptable ones, or absent and
/// the predicate may reject every node of the walk.
pub open spec fn find_outcome<'a, T, P: Fn(&'a Tree<T>, &'a Node<T>) -> bool>(
    tree: &'a Tree<T>,
    predicate: P,
    r: Option<&'a Node<T>>,
) -> bool {
    match r {
        Some(node) => first_match_is(tree, predicate, node),
        None => forall|i: int|
            0 <= i < dfs_order(tree@).len() ==> may_match(
                tree,
                predicate,
                #[trigger] dfs_order(tree@)[i],
                false,
            ),
    }
}

} // verus!
