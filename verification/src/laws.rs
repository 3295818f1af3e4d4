//! The library's stated properties, proved over the model in `order`.

use vstd::prelude::*;

use crate::order::NodeView;
use crate::order::all_in;
use crate::order::arena_wf;
use crate::order::bfs_loop;
use crate::order::bfs_order;
use crate::order::children_at;
use crate::order::count_seq;
use crate::order::depth_of;
use crate::order::dfs_from;
use crate::order::dfs_order;
use crate::order::dfs_rest;
use crate::order::lemma_child_depth;
use crate::order::lemma_count_seq_concat;
use crate::order::lemma_dfs_pending_is_rest;
use crate::order::lemma_dfs_rest_concat;
use crate::order::lemma_subtree_count_unfold;
use crate::order::subtree_count;
use crate::order::with_child;

verus! {

/// In every well-formed tree the root is present and its parent is absent.
pub proof fn lemma_root_present<T>(s: Seq<NodeView<T>>)
    requires
        arena_wf(s),
    ensures
        s.len() >= 1,
        s[0].parent is None,
{
}

/// A successful insertion returns a handle strictly greater than every handle
/// issued before it, and the new node records the given parent.
pub proof fn lemma_fresh_handle<T>(s: Seq<NodeView<T>>, p: nat, x: T)
    requires
        arena_wf(s),
        p < s.len(),
    ensures
        forall|i: int|
            0 <= i < s.len() ==> (#[trigger] s[i]).index < with_child(s, p, x)[s.len() as int].index,
        with_child(s, p, x)[s.len() as int].parent == Some(p),
        with_child(s, p, x).len() == s.len() + 1,
{
}

/// Inserting first `x1`, then `x2` under the same parent appends exactly the
/// two fresh handles to that parent's children, in call order.
pub proof fn lemma_children_order<T>(s: Seq<NodeView<T>>, p: nat, x1: T, x2: T)
    requires
        arena_wf(s),
        p < s.len(),
    ensures
        with_child(with_child(s, p, x1), p, x2)[p as int].children == s[p as int].children.push(
            s.len(),
        ).push(s.len() + 1),
{
    let s1 = with_child(s, p, x1);
    assert(s1[p as int].children == s[p as int].children.push(s.len()));
    assert(s1.len() == s.len() + 1);
    assert(with_child(s1, p, x2)[p as int].children == s1[p as int].children.push(s1.len()));
}

/// Below a node, the depth-first walk runs through the children's subtrees in
/// reverse insertion order: for any split point `j`, the subtrees of the
/// children from `j` on are walked, in reverse, before the subtrees of the
/// children before `j`.
pub proof fn lemma_dfs_reversed_siblings<T>(s: Seq<NodeView<T>>, p: nat, j: int)
    requires
        arena_wf(s),
        p < s.len(),
        0 <= j <= children_at(s, p).len(),
    ensures
        dfs_from(s, p) == seq![p] + (dfs_rest(s, children_at(s, p).skip(j)) + dfs_rest(
            s,
            children_at(s, p).take(j),
        )),
{
    let ch = children_at(s, p);
    assert forall|k: int| 0 <= k < ch.len() implies p < #[trigger] ch[k] < s.len() by {
        assert(s[p as int].children[k] == ch[k]);
    }
    lemma_dfs_pending_is_rest(s, p, ch);
    assert(ch =~= ch.take(j) + ch.skip(j));
    lemma_dfs_rest_concat(s, ch.take(j), ch.skip(j));
    assert(dfs_from(s, p) == seq![p] + dfs_rest(s, ch));
}

/// Whatever a child subtree's walk holds, the walk of a pending list holding
/// that child keeps.
proof fn lemma_dfs_rest_member<T>(s: Seq<NodeView<T>>, hs: Seq<nat>, c: nat, x: nat)
    requires
        hs.contains(c),
        dfs_from(s, c).contains(x),
    ensures
        dfs_rest(s, hs).contains(x),
    decreases hs.len(),
{
    let ci = choose|ci: int| 0 <= ci < hs.len() && hs[ci] == c;
    let xi = choose|xi: int| 0 <= xi < dfs_from(s, c).len() && dfs_from(s, c)[xi] == x;
    if ci == hs.len() - 1 {
        assert(dfs_rest(s, hs) == dfs_from(s, hs.last()) + dfs_rest(s, hs.drop_last()));
        assert(dfs_rest(s, hs)[xi] == x);
    } else {
        assert(hs.drop_last().contains(c)) by {
            assert(hs.drop_last()[ci] == c);
        }
        lemma_dfs_rest_member(s, hs.drop_last(), c, x);
        let yi = choose|yi: int|
            0 <= yi < dfs_rest(s, hs.drop_last()).len() && dfs_rest(s, hs.drop_last())[yi] == x;
        assert(dfs_rest(s, hs) == dfs_from(s, hs.last()) + dfs_rest(s, hs.drop_last()));
        assert(dfs_rest(s, hs)[dfs_from(s, hs.last()).len() + yi] == x);
    }
}

/// Every member of a pending list's walk lies in the walk of one of its
/// entries.
proof fn lemma_dfs_rest_source<T>(s: Seq<NodeView<T>>, hs: Seq<nat>, x: nat)
    requires
        dfs_rest(s, hs).contains(x),
    ensures
        exists|c: nat| #[trigger] hs.contains(c) && dfs_from(s, c).contains(x),
    decreases hs.len(),
{
    assert(hs.len() > 0);
    let xi = choose|xi: int| 0 <= xi < dfs_rest(s, hs).len() && dfs_rest(s, hs)[xi] == x;
    assert(dfs_rest(s, hs) == dfs_from(s, hs.last()) + dfs_rest(s, hs.drop_last()));
    if xi < dfs_from(s, hs.last()).len() {
        let c = hs.last();
        assert(hs.contains(c)) by {
            assert(hs[hs.len() - 1] == c);
        }
        assert(dfs_from(s, c)[xi] == x);
        assert(dfs_from(s, c).contains(x));
    } else {
        assert(dfs_rest(s, hs.drop_last())[xi - dfs_from(s, hs.last()).len()] == x);
        assert(dfs_rest(s, hs.drop_last()).contains(x));
        lemma_dfs_rest_source(s, hs.drop_last(), x);
        let c = choose|c: nat| #[trigger] hs.drop_last().contains(c) && dfs_from(s, c).contains(x);
        assert(hs.contains(c)) by {
            let ci = choose|ci: int| 0 <= ci < hs.drop_last().len() && hs.drop_last()[ci] == c;
            assert(hs[ci] == c);
        }
    }
}

/// The walk from `h` holds every node it holds the parent of: it is closed
/// under taking children.
proof fn lemma_dfs_closed<T>(s: Seq<NodeView<T>>, h: nat)
    requires
        arena_wf(s),
        h < s.len(),
    ensures
        dfs_from(s, h).contains(h),
        forall|x: nat, j: int|
            #[trigger] dfs_from(s, h).contains(x) && x < s.len() && 0 <= j < children_at(
                s,
                x,
            ).len() ==> dfs_from(s, h).contains(#[trigger] children_at(s, x)[j]),
    decreases s.len() - h,
{
    let ch = children_at(s, h);
    assert forall|k: int| 0 <= k < ch.len() implies h < #[trigger] ch[k] < s.len() by {
        assert(s[h as int].children[k] == ch[k]);
    }
    lemma_dfs_pending_is_rest(s, h, ch);
    assert(dfs_from(s, h) == seq![h] + dfs_rest(s, ch));
    assert(dfs_from(s, h)[0] == h);
    assert(dfs_from(s, h).contains(h));
    assert forall|x: nat, j: int|
        #[trigger] dfs_from(s, h).contains(x) && x < s.len() && 0 <= j < children_at(
            s,
            x,
        ).len() implies dfs_from(s, h).contains(#[trigger] children_at(s, x)[j]) by {
        let k = children_at(s, x)[j];
        if x == h {
            assert(ch.contains(k)) by {
                assert(ch[j] == k);
            }
            lemma_dfs_closed(s, k);
            lemma_dfs_rest_member(s, ch, k, k);
            let yi = choose|yi: int| 0 <= yi < dfs_rest(s, ch).len() && dfs_rest(s, ch)[yi] == k;
            assert(dfs_from(s, h)[1 + yi] == k);
        } else {
            let xi = choose|xi: int|
                0 <= xi < dfs_from(s, h).len() && dfs_from(s, h)[xi] == x;
            assert(xi > 0);
            assert(dfs_rest(s, ch)[xi - 1] == x);
            assert(dfs_rest(s, ch).contains(x));
            lemma_dfs_rest_source(s, ch, x);
            let c = choose|c: nat| #[trigger] ch.contains(c) && dfs_from(s, c).contains(x);
            assert(h < c < s.len()) by {
                let ci = choose|ci: int| 0 <= ci < ch.len() && ch[ci] == c;
            }
            lemma_dfs_closed(s, c);
            assert(dfs_from(s, c).contains(k));
            lemma_dfs_rest_member(s, ch, c, k);
            let yi = choose|yi: int| 0 <= yi < dfs_rest(s, ch).len() && dfs_rest(s, ch)[yi] == k;
            assert(dfs_from(s, h)[1 + yi] == k);
        }
    }
}

/// The depth-first walk visits every node of the tree.
pub proof fn lemma_dfs_visits_all<T>(s: Seq<NodeView<T>>, h: nat)
    requires
        arena_wf(s),
        h < s.len(),
    ensures
        dfs_order(s).contains(h),
    decreases h,
{
    lemma_dfs_closed(s, 0nat);
    if h == 0 {
    } else {
        let p = s[h as int].parent->0;
        lemma_dfs_visits_all(s, p);
        let j = choose|j: int|
            0 <= j < children_at(s, p).len() && children_at(s, p)[j] == h;
        assert(dfs_order(s).contains(children_at(s, p)[j]));
    }
}

/// The queue-driven walk emits every queue entry, and every child of every
/// node it emits.
#[verifier::spinoff_prover]
#[verifier::rlimit(100)]
proof fn lemma_bfs_closed<T>(s: Seq<NodeView<T>>, q: Seq<nat>)
    requires
        arena_wf(s),
        all_in(s, q),
    ensures
        forall|i: int| 0 <= i < q.len() ==> bfs_loop(s, q).contains(#[trigger] q[i]),
        forall|x: nat, j: int|
            #[trigger] bfs_loop(s, q).contains(x) && x < s.len() && 0 <= j < children_at(
                s,
                x,
            ).len() ==> bfs_loop(s, q).contains(#[trigger] children_at(s, x)[j]),
    decreases count_seq(s, q),
{
    if q.len() == 0 {
    } else {
        let n = q.first();
        let ch = children_at(s, n);
        let q2 = q.drop_first() + ch;
        assert forall|k: int| 0 <= k < ch.len() implies n < #[trigger] ch[k] < s.len() by {
            assert(s[n as int].children[k] == ch[k]);
        }
        assert forall|k: int| 0 <= k < q2.len() implies #[trigger] q2[k] < s.len() by {
            if k < q.len() - 1 {
                assert(q2[k] == q[k + 1]);
            } else {
                assert(q2[k] == ch[k - (q.len() - 1)]);
            }
        }
        assert(count_seq(s, q) == subtree_count(s, n) + count_seq(s, q.drop_first()));
        lemma_count_seq_concat(s, q.drop_first(), ch);
        lemma_subtree_count_unfold(s, n);
        lemma_bfs_closed(s, q2);
        let out = bfs_loop(s, q);
        let out2 = bfs_loop(s, q2);
        assert(out == seq![n] + out2);
        assert(out[0] == n);
        assert forall|i: int| 0 <= i < q.len() implies out.contains(#[trigger] q[i]) by {
            if i == 0 {
                assert(out.contains(n));
            } else {
                assert(q2[i - 1] == q[i]);
                assert(out2.contains(q2[i - 1]));
                let yi = choose|yi: int| 0 <= yi < out2.len() && out2[yi] == q[i];
                assert(out[1 + yi] == q[i]);
            }
        }
        assert forall|x: nat, j: int|
            #[trigger] out.contains(x) && x < s.len() && 0 <= j < children_at(s, x).len() implies out.contains(
            #[trigger] children_at(s, x)[j],
        ) by {
            let k = children_at(s, x)[j];
            if x == n {
                assert(q2[q.len() - 1 + j] == ch[j]);
                assert(out2.contains(q2[q.len() - 1 + j]));
                let yi = choose|yi: int| 0 <= yi < out2.len() && out2[yi] == k;
                assert(out[1 + yi] == k);
            } else {
                let xi = choose|xi: int| 0 <= xi < out.len() && out[xi] == x;
                assert(xi > 0);
                assert(out2[xi - 1] == x);
                assert(out2.contains(x));
                assert(out2.contains(k));
                let yi = choose|yi: int| 0 <= yi < out2.len() && out2[yi] == k;
                assert(out[1 + yi] == k);
            }
        }
    }
}

/// The breadth-first walk visits every node of the tree.
pub proof fn lemma_bfs_visits_all<T>(s: Seq<NodeView<T>>, h: nat)
    requires
        arena_wf(s),
        h < s.len(),
    ensures
        bfs_order(s).contains(h),
    decreases h,
{
    let q = seq![0nat];
    assert(q[0] == 0nat);
    lemma_bfs_closed(s, q);
    if h == 0 {
        assert(bfs_order(s).contains(q[0]));
    } else {
        let p = s[h as int].parent->0;
        lemma_bfs_visits_all(s, p);
        let j = choose|j: int| 0 <= j < children_at(s, p).len() && children_at(s, p)[j] == h;
        assert(bfs_order(s).contains(children_at(s, p)[j]));
    }
}

/// Depths along a walk never decrease.
pub open spec fn depths_sorted<T>(s: Seq<NodeView<T>>, q: Seq<nat>) -> bool {
    forall|i: int, j: int|
        0 <= i <= j < q.len() ==> depth_of(s, #[trigger] q[i]) <= depth_of(s, #[trigger] q[j])
}

/// The queue-driven walk keeps depths in order: starting from a queue whose
/// depths are non-decreasing and span at most two adjacent levels, it emits
/// nodes with non-decreasing depths, none above the front entry's level.
pub proof fn lemma_bfs_level_order<T>(s: Seq<NodeView<T>>, q: Seq<nat>)
    requires
        arena_wf(s),
        all_in(s, q),
        depths_sorted(s, q),
        forall|i: int|
            0 <= i < q.len() ==> depth_of(s, #[trigger] q[i]) <= depth_of(s, q[0]) + 1,
    ensures
        depths_sorted(s, bfs_loop(s, q)),
        forall|i: int|
            0 <= i < bfs_loop(s, q).len() ==> q.len() > 0 && depth_of(
                s,
                #[trigger] bfs_loop(s, q)[i],
            ) >= depth_of(s, q[0]),
    decreases count_seq(s, q),
{
    if q.len() == 0 {
    } else {
        let n = q.first();
        let d0 = depth_of(s, n);
        let ch = children_at(s, n);
        let q2 = q.drop_first() + ch;
        assert forall|k: int| 0 <= k < ch.len() implies n < #[trigger] ch[k] < s.len() by {
            assert(s[n as int].children[k] == ch[k]);
        }
        assert forall|k: int| 0 <= k < ch.len() implies depth_of(s, #[trigger] ch[k]) == d0
            + 1 by {
            lemma_child_depth(s, n, k);
        }
        assert forall|k: int| 0 <= k < q2.len() implies #[trigger] q2[k] < s.len() by {
            if k < q.len() - 1 {
                assert(q2[k] == q[k + 1]);
            } else {
                assert(q2[k] == ch[k - (q.len() - 1)]);
            }
        }
        assert forall|k: int| 0 <= k < q2.len() implies d0 <= depth_of(s, #[trigger] q2[k]) && depth_of(
            s,
            q2[k],
        ) <= d0 + 1 by {
            if k < q.len() - 1 {
                assert(q2[k] == q[k + 1]);
                assert(depth_of(s, q[0]) <= depth_of(s, q[k + 1]));
            } else {
                assert(q2[k] == ch[k - (q.len() - 1)]);
            }
        }
        assert(depths_sorted(s, q2)) by {
            assert forall|i: int, j: int| 0 <= i <= j < q2.len() implies depth_of(
                s,
                #[trigger] q2[i],
            ) <= depth_of(s, #[trigger] q2[j]) by {
                if j < q.len() - 1 {
                    assert(q2[i] == q[i + 1] && q2[j] == q[j + 1]);
                } else if i >= q.len() - 1 {
                    assert(q2[i] == ch[i - (q.len() - 1)] && q2[j] == ch[j - (q.len() - 1)]);
                } else {
                    assert(q2[i] == q[i + 1] && q2[j] == ch[j - (q.len() - 1)]);
                    assert(depth_of(s, q2[i]) <= d0 + 1);
                }
            }
        }
        if q2.len() > 0 {
            assert(d0 <= depth_of(s, q2[0]));
            assert forall|i: int| 0 <= i < q2.len() implies depth_of(s, #[trigger] q2[i])
                <= depth_of(s, q2[0]) + 1 by {
                assert(depth_of(s, q2[i]) <= d0 + 1);
            }
        }
        assert(count_seq(s, q) == subtree_count(s, n) + count_seq(s, q.drop_first()));
        lemma_count_seq_concat(s, q.drop_first(), ch);
        lemma_subtree_count_unfold(s, n);
        lemma_bfs_level_order(s, q2);
        assert(q.drop_first() =~= q.drop_first());
        assert(bfs_loop(s, q) == seq![n] + bfs_loop(s, q2));
        assert forall|i: int, j: int| 0 <= i <= j < bfs_loop(s, q).len() implies depth_of(
            s,
            #[trigger] bfs_loop(s, q)[i],
        ) <= depth_of(s, #[trigger] bfs_loop(s, q)[j]) by {
            if i == 0 {
                if j > 0 {
                    assert(bfs_loop(s, q)[j] == bfs_loop(s, q2)[j - 1]);
                }
            } else {
                assert(bfs_loop(s, q)[i] == bfs_loop(s, q2)[i - 1]);
                assert(bfs_loop(s, q)[j] == bfs_loop(s, q2)[j - 1]);
            }
        }
        assert forall|i: int| 0 <= i < bfs_loop(s, q).len() implies depth_of(
            s,
            #[trigger] bfs_loop(s, q)[i],
        ) >= d0 by {
            if i > 0 {
                assert(bfs_loop(s, q)[i] == bfs_loop(s, q2)[i - 1]);
            }
        }
    }
}

/// The breadth-first order visits every node at one depth before any node at
/// the next: along `bfs_order` the depths never decrease.
pub proof fn lemma_bfs_levels_in_order<T>(s: Seq<NodeView<T>>)
    requires
        arena_wf(s),
    ensures
        depths_sorted(s, bfs_order(s)),
{
    let q = seq![0nat];
    assert(q[0] == 0nat);
    assert(depth_of(s, 0nat) == 0);
    lemma_bfs_level_order(s, q);
}

} // verus!
