//! Lazy depth-first traversal of a [`SyntaxTree`].
//!
//! [`preorder`] is the mathematical depth-first prefix order of a subtree: a
//! node, then each child's subtree in order. [`TreeWalker`] produces exactly
//! that sequence for the whole tree, one node per pull, without recursion:
//! it keeps only a cursor position and an `ascending` flag, descending to a
//! first child, else moving to a next sibling, else retrying from the parent.

use vstd::prelude::*;

use crate::tree::SyntaxTree;

verus! {

/// The depth-first prefix order of the subtree rooted at `n`: `n` itself,
/// then the subtrees of its children, left to right.
pub open spec fn preorder(t: SyntaxTree, n: int) -> Seq<int>
    decreases t.node_count() - n, t.num_children(n) + 1,
        when t.wf() && t.valid_node(n)
{
    seq![n] + preorder_children(t, n, 0)
}

/// The concatenation of the prefix orders of children `i..` of node `n`.
pub open spec fn preorder_children(t: SyntaxTree, n: int, i: int) -> Seq<int>
    decreases t.node_count() - n, t.num_children(n) - i,
        when t.wf() && t.valid_node(n) && 0 <= i
{
    if i >= t.num_children(n) {
        Seq::empty()
    } else {
        proof {
            assert(t.wf_child(n, i));
        }
        preorder(t, t.child(n, i)) + preorder_children(t, n, i + 1)
    }
}

/// The nodes that follow the whole subtree of `n` in the prefix order of the
/// tree: the subtrees of `n`'s right siblings, then whatever follows the
/// parent's subtree.
pub open spec fn after(t: SyntaxTree, n: int) -> Seq<int>
    decreases n,
        when t.wf() && t.valid_node(n)
{
    if n == 0 {
        Seq::empty()
    } else {
        proof {
            assert(t.wf_link(n));
        }
        preorder_children(t, t.parent_of(n), t.slot_of(n) + 1) + after(t, t.parent_of(n))
    }
}

/// What a cursor at `cur` still has to emit: the subtrees of the children
/// not yet entered (none, when the cursor is ascending out of `cur`), then
/// everything after `cur`'s subtree.
spec fn pending(t: SyntaxTree, cur: int, ascending: bool) -> Seq<int> {
    if ascending {
        after(t, cur)
    } else {
        preorder_children(t, cur, 0) + after(t, cur)
    }
}

/// A lazy, restartable-by-reconstruction, single-pass iterator over the
/// nodes of a tree in depth-first prefix order. It holds a position and one
/// flag, never a copy of the tree; a fresh walker traverses again.
pub struct TreeWalker {
    pos: usize,
    done: bool,
    visited: Ghost<Seq<int>>,
}

impl TreeWalker {
    /// The node indices the walker has yielded so far.
    pub closed spec fn visited_seq(self) -> Seq<int> {
        self.visited@
    }

    /// The walker is positioned so that what it has yielded, followed by
    /// what it still owes, is exactly the prefix order of the tree.
    pub closed spec fn inv(self, t: SyntaxTree) -> bool {
        if self.done {
            self.visited@ == preorder(t, 0)
        } else {
            &&& t.valid_node(self.pos as int)
            &&& self.visited@ + preorder(t, self.pos as int) + after(t, self.pos as int)
                == preorder(t, 0)
        }
    }

    /// A fresh walker over `t`, positioned at the root, with nothing yielded.
    pub fn new(t: &SyntaxTree) -> (w: TreeWalker)
        requires
            t.wf(),
        ensures
            w.inv(*t),
            w.visited_seq() == Seq::<int>::empty(),
    {
        let w = TreeWalker { pos: 0, done: false, visited: Ghost(Seq::empty()) };
        proof {
            assert(Seq::<int>::empty() + preorder(*t, 0) + after(*t, 0) =~= preorder(*t, 0));
        }
        w
    }

    /// Yields the next node in depth-first prefix order, `None` once every
    /// node has been yielded exactly once.
    pub fn next(&mut self, t: &SyntaxTree) -> (r: Option<usize>)
        requires
            t.wf(),
            old(self).inv(*t),
        ensures
            final(self).inv(*t),
            ({
                let k = old(self).visited_seq().len() as int;
                let full = preorder(*t, 0);
                if k < full.len() {
                    &&& r == Some(full[k] as usize)
                    &&& full[k] as usize as int == full[k]
                    &&& final(self).visited_seq() == old(self).visited_seq().push(full[k])
                } else {
                    &&& r is None
                    &&& final(self).visited_seq() == old(self).visited_seq()
                }
            }),
    {
        if self.done {
            return None;
        }
        let n = self.pos;
        proof {
            let k = self.visited@.len() as int;
            let full = preorder(*t, 0);
            assert(full == self.visited@ + preorder(*t, n as int) + after(*t, n as int));
            assert(preorder(*t, n as int).len() >= 1);
            assert(preorder(*t, n as int)[0] == n as int);
            assert(full[k] == n as int);
        }
        self.visited = Ghost(self.visited@.push(n as int));
        proof {
            assert(self.visited@ + pending(*t, n as int, false) =~= preorder(*t, 0));
        }
        let mut cur = n;
        let mut ascending = false;
        let mut finished = false;
        loop
            invariant_except_break
                t.wf(),
                t.valid_node(cur as int),
                !finished,
                self.visited@ + pending(*t, cur as int, ascending) == preorder(*t, 0),
            ensures
                if finished {
                    self.visited@ == preorder(*t, 0)
                } else {
                    t.valid_node(cur as int)
                        && self.visited@ + preorder(*t, cur as int) + after(*t, cur as int)
                            == preorder(*t, 0)
                },
            decreases (if ascending { 0int } else { 1int }), cur as int,
        {
            if !ascending && t.nodes[cur].children.len() > 0 {
                let c0 = t.nodes[cur].children[0];
                proof {
                    assert(t.child(cur as int, 0) == c0 as int);
                    assert(t.wf_child(cur as int, 0));
                    assert(preorder_children(*t, cur as int, 0)
                        == preorder(*t, c0 as int) + preorder_children(*t, cur as int, 1));
                    assert(after(*t, c0 as int)
                        == preorder_children(*t, cur as int, 1) + after(*t, cur as int));
                    assert(self.visited@ + (preorder(*t, c0 as int) + after(*t, c0 as int))
                        =~= self.visited@ + pending(*t, cur as int, false));
                    assert(self.visited@ + preorder(*t, c0 as int) + after(*t, c0 as int)
                        =~= self.visited@ + (preorder(*t, c0 as int) + after(*t, c0 as int)));
                }
                cur = c0;
                ascending = false;
                break;
            }
            proof {
                if !ascending {
                    assert(preorder_children(*t, cur as int, 0) == Seq::<int>::empty());
                    assert(Seq::<int>::empty() + after(*t, cur as int) =~= after(*t, cur as int));
                }
                assert(self.visited@ + after(*t, cur as int) =~= self.visited@
                    + pending(*t, cur as int, ascending));
            }
            let node_parent = t.nodes[cur].parent;
            match node_parent {
                None => {
                    proof {
                        if cur != 0 {
                            assert(t.wf_link(cur as int));
                        }
                        assert(cur == 0);
                        assert(after(*t, 0) == Seq::<int>::empty());
                        assert(self.visited@ + Seq::<int>::empty() =~= self.visited@);
                    }
                    finished = true;
                    break;
                },
                Some(p) => {
                    proof {
                        assert(cur != 0);
                        assert(t.wf_link(cur as int));
                        assert(after(*t, cur as int) == preorder_children(
                            *t,
                            p as int,
                            t.slot_of(cur as int) + 1,
                        ) + after(*t, p as int));
                    }
                    let ci = t.nodes[cur].child_index;
                    let sib_count = t.nodes[p].children.len();
                    proof {
                        assert(t.slot_of(cur as int) < t.num_children(p as int));
                        assert(ci < sib_count);
                    }
                    if ci + 1 < sib_count {
                        let m = t.nodes[p].children[ci + 1];
                        proof {
                            assert(t.child(p as int, ci + 1) == m as int);
                            assert(t.wf_child(p as int, ci + 1));
                            assert(preorder_children(*t, p as int, ci + 1)
                                == preorder(*t, m as int) + preorder_children(
                                *t,
                                p as int,
                                ci + 2,
                            ));
                            assert(after(*t, m as int) == preorder_children(*t, p as int, ci + 2)
                                + after(*t, p as int));
                            assert(self.visited@ + (preorder(*t, m as int) + after(*t, m as int))
                                =~= self.visited@ + after(*t, cur as int));
                            assert(self.visited@ + preorder(*t, m as int) + after(*t, m as int)
                                =~= self.visited@ + (preorder(*t, m as int) + after(
                                *t,
                                m as int,
                            )));
                        }
                        cur = m;
                        ascending = false;
                        break;
                    } else {
                        proof {
                            assert(preorder_children(*t, p as int, ci + 1)
                                == Seq::<int>::empty());
                            assert(Seq::<int>::empty() + after(*t, p as int) =~= after(
                                *t,
                                p as int,
                            ));
                            assert(self.visited@ + after(*t, p as int) =~= self.visited@ + after(
                                *t,
                                cur as int,
                            ));
                        }
                        cur = p;
                        ascending = true;
                    }
                },
            }
        }
        if finished {
            self.done = true;
        } else {
            self.pos = cur;
        }
        Some(n)
    }
}

/// The nodes of `t` in depth-first prefix order, as a vector of indices.
pub fn tree_nodes(t: &SyntaxTree) -> (r: Vec<usize>)
    requires
        t.wf(),
    ensures
        r@.len() == preorder(*t, 0).len(),
        forall|k: int| 0 <= k < r@.len() ==> r@[k] as int == #[trigger] preorder(*t, 0)[k],
{
    let mut w = TreeWalker::new(t);
    let mut out: Vec<usize> = Vec::new();
    loop
        invariant_except_break
            t.wf(),
            w.inv(*t),
            out@.len() == w.visited_seq().len(),
            w.visited_seq().len() <= preorder(*t, 0).len(),
            forall|k: int| 0 <= k < out@.len() ==> out@[k] as int == #[trigger] w.visited_seq()[k],
            forall|k: int| 0 <= k < w.visited_seq().len() ==> w.visited_seq()[k]
                == #[trigger] preorder(*t, 0)[k],
        ensures
            out@.len() == preorder(*t, 0).len(),
            forall|k: int| 0 <= k < out@.len() ==> out@[k] as int == #[trigger] preorder(*t, 0)[k],
        decreases preorder(*t, 0).len() - w.visited_seq().len(),
    {
        match w.next(t) {
            Some(id) => {
                out.push(id);
            },
            None => {
                proof {
                    assert(w.visited_seq().len() == preorder(*t, 0).len());
                }
                break;
            },
        }
    }
    out
}

/// `x` lies in the subtree rooted at `a`: it is `a` itself, or its parent
/// chain passes through `a`.
pub open spec fn in_subtree(t: SyntaxTree, a: int, x: int) -> bool
    decreases x,
        when t.wf() && t.valid_node(x)
{
    x == a || (x != 0 && {
        proof {
            assert(x != 0 ==> t.wf_link(x));
        }
        x != 0 && in_subtree(t, a, t.parent_of(x))
    })
}

/// An ancestor never has a larger index than its descendants, and is a node.
proof fn lemma_subtree_above(t: SyntaxTree, a: int, x: int)
    requires
        t.wf(),
        t.valid_node(x),
        in_subtree(t, a, x),
    ensures
        a <= x,
        t.valid_node(a),
    decreases x,
{
    if x != a {
        assert(t.wf_link(x));
        lemma_subtree_above(t, a, t.parent_of(x));
    }
}

/// The subtree relation is transitive.
proof fn lemma_subtree_trans(t: SyntaxTree, a: int, b: int, x: int)
    requires
        t.wf(),
        t.valid_node(x),
        in_subtree(t, a, b),
        in_subtree(t, b, x),
    ensures
        in_subtree(t, a, x),
    decreases x,
{
    if x != b {
        assert(t.wf_link(x));
        lemma_subtree_trans(t, a, b, t.parent_of(x));
    }
}

/// Two ancestors of one node are comparable: one contains the other.
proof fn lemma_subtree_comparable(t: SyntaxTree, a: int, b: int, x: int)
    requires
        t.wf(),
        t.valid_node(x),
        in_subtree(t, a, x),
        in_subtree(t, b, x),
    ensures
        in_subtree(t, a, b) || in_subtree(t, b, a),
    decreases x,
{
    if x != a && x != b {
        assert(t.wf_link(x));
        lemma_subtree_comparable(t, a, b, t.parent_of(x));
    }
}

/// The subtrees of two distinct children of one node are disjoint: neither
/// child lies in the other's subtree.
proof fn lemma_siblings_disjoint(t: SyntaxTree, n: int, i: int, j: int)
    requires
        t.wf(),
        t.valid_node(n),
        0 <= i < t.num_children(n),
        0 <= j < t.num_children(n),
        i != j,
    ensures
        !in_subtree(t, t.child(n, i), t.child(n, j)),
{
    assert(t.wf_child(n, i));
    assert(t.wf_child(n, j));
    let ci = t.child(n, i);
    let cj = t.child(n, j);
    assert(ci != cj);
    if in_subtree(t, ci, cj) {
        assert(in_subtree(t, ci, t.parent_of(cj)));
        lemma_subtree_above(t, ci, n);
    }
}

/// `y` lies in the subtree of some child of `n` at position `i` or later.
spec fn under_child_from(t: SyntaxTree, n: int, i: int, y: int) -> bool {
    exists|k: int|
        i <= k < t.num_children(n) && in_subtree(t, #[trigger] t.child(n, k), y)
}

/// Every element of `preorder(t, n)` is a node in the subtree of `n`.
pub proof fn lemma_preorder_in_subtree(t: SyntaxTree, n: int)
    requires
        t.wf(),
        t.valid_node(n),
    ensures
        forall|j: int|
            0 <= j < preorder(t, n).len() ==> t.valid_node(#[trigger] preorder(t, n)[j])
                && in_subtree(t, n, preorder(t, n)[j]),
    decreases t.node_count() - n, t.num_children(n) + 1,
{
    lemma_pc_in_subtree(t, n, 0);
    assert forall|j: int| 0 <= j < preorder(t, n).len() implies t.valid_node(
        #[trigger] preorder(t, n)[j],
    ) && in_subtree(t, n, preorder(t, n)[j]) by {
        if j == 0 {
            assert(preorder(t, n)[0] == n);
        } else {
            let y = preorder(t, n)[j];
            assert(y == preorder_children(t, n, 0)[j - 1]);
            let k = choose|k: int|
                0 <= k < t.num_children(n) && in_subtree(t, #[trigger] t.child(n, k), y);
            assert(t.wf_child(n, k));
            assert(in_subtree(t, n, n));
            assert(in_subtree(t, n, t.child(n, k)));
            lemma_subtree_trans(t, n, t.child(n, k), y);
        }
    }
}

/// Every element of `preorder_children(t, n, i)` is a node in the subtree of
/// one of the children of `n` from position `i` on.
proof fn lemma_pc_in_subtree(t: SyntaxTree, n: int, i: int)
    requires
        t.wf(),
        t.valid_node(n),
        0 <= i,
    ensures
        forall|j: int|
            0 <= j < preorder_children(t, n, i).len() ==> t.valid_node(
                #[trigger] preorder_children(t, n, i)[j],
            ) && under_child_from(t, n, i, preorder_children(t, n, i)[j]),
    decreases t.node_count() - n, t.num_children(n) - i,
{
    if i < t.num_children(n) {
        assert(t.wf_child(n, i));
        let c = t.child(n, i);
        lemma_preorder_in_subtree(t, c);
        lemma_pc_in_subtree(t, n, i + 1);
        let head = preorder(t, c);
        let tail = preorder_children(t, n, i + 1);
        assert forall|j: int| 0 <= j < preorder_children(t, n, i).len() implies t.valid_node(
            #[trigger] preorder_children(t, n, i)[j],
        ) && under_child_from(t, n, i, preorder_children(t, n, i)[j]) by {
            let y = preorder_children(t, n, i)[j];
            if j < head.len() {
                assert(y == head[j]);
                assert(in_subtree(t, t.child(n, i), y));
            } else {
                assert(y == tail[j - head.len()]);
                assert(under_child_from(t, n, i + 1, y));
                let k = choose|k: int|
                    i + 1 <= k < t.num_children(n) && in_subtree(t, #[trigger] t.child(n, k), y);
                assert(i <= k < t.num_children(n) && in_subtree(t, t.child(n, k), y));
            }
        }
    }
}

/// Concatenating duplicate-free sequences with no common element stays
/// duplicate-free.
proof fn lemma_concat_no_dup(a: Seq<int>, b: Seq<int>)
    requires
        a.no_duplicates(),
        b.no_duplicates(),
        forall|x: int| !(a.contains(x) && #[trigger] b.contains(x)),
    ensures
        (a + b).no_duplicates(),
{
    assert forall|i: int, j: int|
        0 <= i < (a + b).len() && 0 <= j < (a + b).len() && i != j implies (a + b)[i] != (a
        + b)[j] by {
        if i < a.len() && j >= a.len() {
            assert(a.contains(a[i]));
            assert(b.contains(b[j - a.len()]));
        }
        if j < a.len() && i >= a.len() {
            assert(a.contains(a[j]));
            assert(b.contains(b[i - a.len()]));
        }
    }
}

/// The prefix order of a subtree lists no node twice.
proof fn lemma_preorder_no_dup(t: SyntaxTree, n: int)
    requires
        t.wf(),
        t.valid_node(n),
    ensures
        preorder(t, n).no_duplicates(),
    decreases t.node_count() - n, t.num_children(n) + 1,
{
    lemma_pc_no_dup(t, n, 0);
    lemma_pc_in_subtree(t, n, 0);
    let head = seq![n];
    let tail = preorder_children(t, n, 0);
    assert(head.no_duplicates());
    assert forall|x: int| !(head.contains(x) && #[trigger] tail.contains(x)) by {
        if tail.contains(x) {
            let j = choose|j: int| 0 <= j < tail.len() && tail[j] == x;
            let k = choose|k: int|
                0 <= k < t.num_children(n) && in_subtree(t, #[trigger] t.child(n, k), x);
            assert(t.wf_child(n, k));
            lemma_subtree_above(t, t.child(n, k), x);
            assert(x > n);
        }
    }
    lemma_concat_no_dup(head, tail);
    assert(preorder(t, n) == head + tail);
}

/// The concatenated prefix orders of children `i..` of `n` list no node
/// twice: sibling subtrees are disjoint.
proof fn lemma_pc_no_dup(t: SyntaxTree, n: int, i: int)
    requires
        t.wf(),
        t.valid_node(n),
        0 <= i,
    ensures
        preorder_children(t, n, i).no_duplicates(),
    decreases t.node_count() - n, t.num_children(n) - i,
{
    if i < t.num_children(n) {
        assert(t.wf_child(n, i));
        let c = t.child(n, i);
        lemma_preorder_no_dup(t, c);
        lemma_pc_no_dup(t, n, i + 1);
        lemma_preorder_in_subtree(t, c);
        lemma_pc_in_subtree(t, n, i + 1);
        let head = preorder(t, c);
        let tail = preorder_children(t, n, i + 1);
        assert forall|x: int| !(head.contains(x) && #[trigger] tail.contains(x)) by {
            if head.contains(x) && tail.contains(x) {
                let jh = choose|j: int| 0 <= j < head.len() && head[j] == x;
                assert(in_subtree(t, c, x));
                let jt = choose|j: int| 0 <= j < tail.len() && tail[j] == x;
                assert(under_child_from(t, n, i + 1, x));
                let k = choose|k: int|
                    i + 1 <= k < t.num_children(n) && in_subtree(t, #[trigger] t.child(n, k), x);
                lemma_subtree_comparable(t, c, t.child(n, k), x);
                lemma_siblings_disjoint(t, n, i, k);
                lemma_siblings_disjoint(t, n, k, i);
            }
        }
        lemma_concat_no_dup(head, tail);
        assert(preorder_children(t, n, i) == head + tail);
    }
}

/// Inside the subtree of `n`, any node other than `n` sits under one of
/// `n`'s children.
proof fn lemma_step_to_child(t: SyntaxTree, n: int, x: int)
    requires
        t.wf(),
        t.valid_node(x),
        in_subtree(t, n, x),
        x != n,
    ensures
        under_child_from(t, n, 0, x),
    decreases x,
{
    lemma_subtree_above(t, n, x);
    assert(t.wf_link(x));
    let p = t.parent_of(x);
    if p == n {
        assert(t.wf_link(x));
        assert(t.child(n, t.slot_of(x)) == x);
        assert(in_subtree(t, t.child(n, t.slot_of(x)), x));
    } else {
        lemma_step_to_child(t, n, p);
        let k = choose|k: int|
            0 <= k < t.num_children(n) && in_subtree(t, #[trigger] t.child(n, k), p);
        assert(t.wf_child(n, k));
        if x == t.child(n, k) {
            assert(in_subtree(t, t.child(n, k), x));
        } else {
            assert(in_subtree(t, t.child(n, k), x));
        }
    }
}

/// Membership in a child's prefix order lifts to the concatenation from any
/// earlier position.
proof fn lemma_pc_lift(t: SyntaxTree, n: int, i: int, k: int, x: int)
    requires
        t.wf(),
        t.valid_node(n),
        0 <= i <= k < t.num_children(n),
        preorder(t, t.child(n, k)).contains(x),
    ensures
        preorder_children(t, n, i).contains(x),
    decreases k - i,
{
    assert(t.wf_child(n, i));
    let head = preorder(t, t.child(n, i));
    let tail = preorder_children(t, n, i + 1);
    if k == i {
        let j = choose|j: int| 0 <= j < head.len() && head[j] == x;
        assert((head + tail)[j] == x);
        assert(preorder_children(t, n, i) == head + tail);
    } else {
        lemma_pc_lift(t, n, i + 1, k, x);
        let j = choose|j: int| 0 <= j < tail.len() && tail[j] == x;
        assert((head + tail)[head.len() + j] == x);
        assert(preorder_children(t, n, i) == head + tail);
    }
}

/// Every node of the subtree of `n` occurs in `preorder(t, n)`.
proof fn lemma_preorder_complete(t: SyntaxTree, n: int, x: int)
    requires
        t.wf(),
        t.valid_node(n),
        t.valid_node(x),
        in_subtree(t, n, x),
    ensures
        preorder(t, n).contains(x),
    decreases t.node_count() - n,
{
    if x == n {
        assert(preorder(t, n)[0] == n);
    } else {
        lemma_step_to_child(t, n, x);
        let k = choose|k: int|
            0 <= k < t.num_children(n) && in_subtree(t, #[trigger] t.child(n, k), x);
        assert(t.wf_child(n, k));
        lemma_preorder_complete(t, t.child(n, k), x);
        lemma_pc_lift(t, n, 0, k, x);
        let tail = preorder_children(t, n, 0);
        let j = choose|j: int| 0 <= j < tail.len() && tail[j] == x;
        assert(preorder(t, n)[1 + j] == x);
    }
}

/// Every node lies in the root's subtree.
proof fn lemma_root_subtree(t: SyntaxTree, x: int)
    requires
        t.wf(),
        t.valid_node(x),
    ensures
        in_subtree(t, 0, x),
    decreases x,
{
    if x != 0 {
        assert(t.wf_link(x));
        lemma_root_subtree(t, t.parent_of(x));
    }
}

/// `x` sits in the subtree of a later child, and `y` in the subtree of an
/// earlier child, of one and the same parent: in a depth-first left-to-right
/// walk, `x` must then come after `y`.
spec fn crossed(t: SyntaxTree, x: int, y: int) -> bool {
    exists|q: int, a: int, b: int|
        #![trigger t.child(q, a), t.child(q, b)]
        t.valid_node(q) && 0 <= a < b < t.num_children(q) && in_subtree(t, t.child(q, b), x)
            && in_subtree(t, t.child(q, a), y)
}

/// What holds of a pair that a depth-first walk emits in this order: the
/// later node is no ancestor of the earlier, and the pair does not cross
/// sibling subtrees backwards.
spec fn ordered_pair(t: SyntaxTree, x: int, y: int) -> bool {
    !in_subtree(t, y, x) && !crossed(t, x, y)
}

/// The prefix order of a subtree emits its pairs in order.
proof fn lemma_pre_ordered(t: SyntaxTree, n: int)
    requires
        t.wf(),
        t.valid_node(n),
    ensures
        forall|u: int, v: int|
            0 <= u < v < preorder(t, n).len() ==> ordered_pair(
                t,
                #[trigger] preorder(t, n)[u],
                #[trigger] preorder(t, n)[v],
            ),
    decreases t.node_count() - n, t.num_children(n) + 1,
{
    lemma_pc_ordered(t, n, 0);
    lemma_pc_in_subtree(t, n, 0);
    let s = preorder(t, n);
    let tail = preorder_children(t, n, 0);
    assert forall|u: int, v: int| 0 <= u < v < s.len() implies ordered_pair(
        t,
        #[trigger] s[u],
        #[trigger] s[v],
    ) by {
        if u == 0 {
            let y = s[v];
            assert(y == tail[v - 1]);
            assert(under_child_from(t, n, 0, y));
            let k = choose|k: int|
                0 <= k < t.num_children(n) && in_subtree(t, #[trigger] t.child(n, k), y);
            assert(t.wf_child(n, k));
            let ck = t.child(n, k);
            lemma_subtree_above(t, ck, y);
            if in_subtree(t, y, n) {
                lemma_subtree_above(t, y, n);
            }
            if crossed(t, n, y) {
                let (q, a, b) = choose|q: int, a: int, b: int|
                    #![trigger t.child(q, a), t.child(q, b)]
                    t.valid_node(q) && 0 <= a < b < t.num_children(q) && in_subtree(
                        t,
                        t.child(q, b),
                        n,
                    ) && in_subtree(t, t.child(q, a), y);
                assert(t.wf_child(q, a));
                assert(t.wf_child(q, b));
                let ua = t.child(q, a);
                let ub = t.child(q, b);
                lemma_subtree_above(t, ua, y);
                lemma_subtree_comparable(t, ua, ck, y);
                if in_subtree(t, ua, ck) {
                    if ua == ck {
                        assert(q == n);
                        lemma_subtree_above(t, ub, n);
                    } else {
                        assert(in_subtree(t, ua, t.parent_of(ck)));
                        assert(in_subtree(t, ua, n));
                        assert(in_subtree(t, ub, n));
                        lemma_subtree_comparable(t, ua, ub, n);
                        lemma_siblings_disjoint(t, q, a, b);
                        lemma_siblings_disjoint(t, q, b, a);
                    }
                } else {
                    assert(in_subtree(t, ck, ua));
                    assert(in_subtree(t, q, q));
                        assert(in_subtree(t, q, ua));
                    if ua == ck {
                        assert(q == n);
                        lemma_subtree_above(t, ub, n);
                    } else {
                        assert(in_subtree(t, ck, t.parent_of(ua)));
                        assert(in_subtree(t, ck, q));
                        assert(in_subtree(t, q, ub));
                        lemma_subtree_trans(t, ck, q, ub);
                        lemma_subtree_above(t, ck, ub);
                        lemma_subtree_above(t, ub, n);
                    }
                }
            }
        } else {
            assert(s[u] == tail[u - 1]);
            assert(s[v] == tail[v - 1]);
            assert(ordered_pair(t, tail[u - 1], tail[v - 1]));
        }
    }
}

/// The concatenated prefix orders of the children from position `i` emit
/// their pairs in order: within one child's subtree by recursion, and
/// across two children in left-to-right sibling order.
proof fn lemma_pc_ordered(t: SyntaxTree, n: int, i: int)
    requires
        t.wf(),
        t.valid_node(n),
        0 <= i,
    ensures
        forall|u: int, v: int|
            0 <= u < v < preorder_children(t, n, i).len() ==> ordered_pair(
                t,
                #[trigger] preorder_children(t, n, i)[u],
                #[trigger] preorder_children(t, n, i)[v],
            ),
    decreases t.node_count() - n, t.num_children(n) - i,
{
    if i < t.num_children(n) {
        assert(t.wf_child(n, i));
        let ci = t.child(n, i);
        lemma_pre_ordered(t, ci);
        lemma_pc_ordered(t, n, i + 1);
        lemma_preorder_in_subtree(t, ci);
        lemma_pc_in_subtree(t, n, i + 1);
        let s = preorder_children(t, n, i);
        let head = preorder(t, ci);
        let tail = preorder_children(t, n, i + 1);
        assert forall|u: int, v: int| 0 <= u < v < s.len() implies ordered_pair(
            t,
            #[trigger] s[u],
            #[trigger] s[v],
        ) by {
            if v < head.len() {
                assert(s[u] == head[u]);
                assert(s[v] == head[v]);
                assert(ordered_pair(t, head[u], head[v]));
            } else if u >= head.len() {
                assert(s[u] == tail[u - head.len()]);
                assert(s[v] == tail[v - head.len()]);
                assert(ordered_pair(t, tail[u - head.len()], tail[v - head.len()]));
            } else {
                let x = s[u];
                let y = s[v];
                assert(x == head[u]);
                assert(y == tail[v - head.len()]);
                assert(in_subtree(t, ci, x));
                assert(under_child_from(t, n, i + 1, y));
                let k = choose|k: int|
                    i + 1 <= k < t.num_children(n) && in_subtree(t, #[trigger] t.child(n, k), y);
                assert(t.wf_child(n, k));
                let ck = t.child(n, k);
                lemma_subtree_above(t, ck, y);
                lemma_subtree_above(t, ci, x);
                if in_subtree(t, y, x) {
                    lemma_subtree_comparable(t, y, ci, x);
                    if in_subtree(t, ci, y) {
                        lemma_subtree_comparable(t, ci, ck, y);
                        lemma_siblings_disjoint(t, n, i, k);
                        lemma_siblings_disjoint(t, n, k, i);
                    } else {
                        assert(in_subtree(t, y, ci));
                        if y == ci {
                            lemma_siblings_disjoint(t, n, k, i);
                        } else {
                            assert(in_subtree(t, y, t.parent_of(ci)));
                            assert(in_subtree(t, y, n));
                            lemma_subtree_above(t, y, n);
                        }
                    }
                }
                if crossed(t, x, y) {
                    let (q, a, b) = choose|q: int, a: int, b: int|
                        #![trigger t.child(q, a), t.child(q, b)]
                        t.valid_node(q) && 0 <= a < b < t.num_children(q) && in_subtree(
                            t,
                            t.child(q, b),
                            x,
                        ) && in_subtree(t, t.child(q, a), y);
                    assert(t.wf_child(q, a));
                    assert(t.wf_child(q, b));
                    let ua = t.child(q, a);
                    let ub = t.child(q, b);
                    lemma_subtree_comparable(t, ub, ci, x);
                    if in_subtree(t, ci, ub) {
                        if ub == ci {
                            assert(q == n);
                            assert(t.slot_of(ub) == b);
                            assert(t.slot_of(ci) == i);
                            assert(a < i);
                            lemma_subtree_comparable(t, ua, ck, y);
                            lemma_siblings_disjoint(t, n, a, k);
                            lemma_siblings_disjoint(t, n, k, a);
                        } else {
                            assert(in_subtree(t, ci, t.parent_of(ub)));
                            assert(in_subtree(t, ci, q));
                            assert(in_subtree(t, q, q));
                        assert(in_subtree(t, q, ua));
                            lemma_subtree_trans(t, ci, q, ua);
                            lemma_subtree_trans(t, ci, ua, y);
                            lemma_subtree_comparable(t, ci, ck, y);
                            lemma_siblings_disjoint(t, n, i, k);
                            lemma_siblings_disjoint(t, n, k, i);
                        }
                    } else {
                        assert(in_subtree(t, ub, ci));
                        assert(ub != ci);
                        assert(in_subtree(t, ub, t.parent_of(ci)));
                        assert(in_subtree(t, ub, n));
                        assert(in_subtree(t, n, n));
                        assert(in_subtree(t, n, ck));
                        lemma_subtree_trans(t, ub, n, ck);
                        lemma_subtree_trans(t, ub, ck, y);
                        lemma_subtree_comparable(t, ua, ub, y);
                        lemma_siblings_disjoint(t, q, a, b);
                        lemma_siblings_disjoint(t, q, b, a);
                    }
                }
            }
        }
    }
}

/// Law: in the depth-first traversal, a node always appears strictly before
/// every node of its subtree — a parent precedes all of its descendants.
pub proof fn lemma_ancestor_before_descendant(t: SyntaxTree, x: int, y: int)
    requires
        t.wf(),
        t.valid_node(x),
        t.valid_node(y),
        in_subtree(t, x, y),
        x != y,
    ensures
        forall|i: int, j: int|
            0 <= i < preorder(t, 0).len() && 0 <= j < preorder(t, 0).len() && preorder(t, 0)[i]
                == x && #[trigger] preorder(t, 0)[j] == y ==> #[trigger] preorder(t, 0)[i] == x
                && i < j,
{
    lemma_pre_ordered(t, 0);
    let s = preorder(t, 0);
    assert forall|i: int, j: int|
        0 <= i < s.len() && 0 <= j < s.len() && s[i] == x && #[trigger] s[j] == y
            implies #[trigger] s[i] == x && i < j by {
        if j < i {
            assert(ordered_pair(t, s[j], s[i]));
        }
    }
}

/// Law: in the depth-first traversal, everything in one child's subtree
/// appears strictly before everything in a later sibling's subtree.
pub proof fn lemma_sibling_subtrees_ordered(t: SyntaxTree, p: int, ia: int, ib: int, x: int, y: int)
    requires
        t.wf(),
        t.valid_node(p),
        t.valid_node(x),
        t.valid_node(y),
        0 <= ia < ib < t.num_children(p),
        in_subtree(t, t.child(p, ia), x),
        in_subtree(t, t.child(p, ib), y),
    ensures
        forall|i: int, j: int|
            0 <= i < preorder(t, 0).len() && 0 <= j < preorder(t, 0).len() && preorder(t, 0)[i]
                == x && #[trigger] preorder(t, 0)[j] == y ==> #[trigger] preorder(t, 0)[i] == x
                && i < j,
{
    lemma_pre_ordered(t, 0);
    let s = preorder(t, 0);
    assert(t.wf_child(p, ia));
    assert(t.wf_child(p, ib));
    assert forall|i: int, j: int|
        0 <= i < s.len() && 0 <= j < s.len() && s[i] == x && #[trigger] s[j] == y
            implies #[trigger] s[i] == x && i < j by {
        if j < i {
            assert(ordered_pair(t, s[j], s[i]));
            assert(crossed(t, s[i], s[j]));
        }
        if i == j {
            lemma_subtree_comparable(t, t.child(p, ia), t.child(p, ib), x);
            lemma_siblings_disjoint(t, p, ia, ib);
            lemma_siblings_disjoint(t, p, ib, ia);
        }
    }
}

/// Law: over any well-formed tree, the depth-first traversal visits every
/// node exactly once — each node index occurs in the walk, and none occurs
/// twice.
pub proof fn lemma_traversal_visits_each_once(t: SyntaxTree)
    requires
        t.wf(),
    ensures
        forall|x: int| 0 <= x < t.node_count() ==> preorder(t, 0).contains(x),
        preorder(t, 0).no_duplicates(),
{
    assert forall|x: int| 0 <= x < t.node_count() implies preorder(t, 0).contains(x) by {
        lemma_root_subtree(t, x);
        lemma_preorder_complete(t, 0, x);
    }
    lemma_preorder_no_dup(t, 0);
}

} // verus!
