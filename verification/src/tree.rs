//! The branching sequence: a flat, indexed arena of nodes with O(1) jumps
//! between matching branch markers.
//!
//! A `Tree` is built left to right with `add_leaf`, `open_branch` and
//! `close_branch`. An open marker stores its own position as a placeholder
//! until its branch is closed; `close_branch` rewrites it to the position of
//! the new close marker, so that matched markers always point at each other.

use vstd::prelude::*;

use crate::node::Context;
use crate::node::Node;
use crate::node::NodeContent;

verus! {

/// Error for a structurally invalid operation on a branching sequence.
#[derive(Debug, Clone, PartialEq, Eq, Structural)]
pub enum TreeError {
    /// `close_branch` was called with no branch open.
    UnbalancedBranch,
}

/// A branching symbol sequence, stored flat.
///
/// `nodes` is the sequence itself; `open_branches` is the stack of indices of
/// branch-open markers that have not been closed yet.
#[derive(Debug, Clone)]
pub struct Tree<Ctx, Char> {
    nodes: Vec<Node<Ctx, Char>>,
    open_branches: Vec<usize>,
}

/// `+1` for an open marker, `-1` for a close marker, `0` for a leaf.
pub open spec fn node_delta<Ctx, Char>(n: Node<Ctx, Char>) -> int {
    match n {
        Node::BranchStart(_) => 1,
        Node::BranchEnd(_) => -1,
        Node::Leaf(_) => 0,
    }
}

/// Number of open markers minus number of close markers in `s[0..p]`.
#[verifier::opaque]
pub open spec fn prefix_depth<Ctx, Char>(s: Seq<Node<Ctx, Char>>, p: int) -> int
    decreases p,
{
    if p <= 0 {
        0
    } else {
        prefix_depth(s, p - 1) + node_delta(s[p - 1])
    }
}

/// Every open marker either still carries its placeholder (its own position)
/// or points forward at a close marker that points back at it.
pub open spec fn starts_ok<Ctx, Char>(s: Seq<Node<Ctx, Char>>) -> bool {
    forall|i: int|
        0 <= i < s.len() && #[trigger] (s[i]) is BranchStart ==> {
            let j = s[i]->BranchStart_0 as int;
            j == i || (i < j < s.len() && s[j] == Node::<Ctx, Char>::BranchEnd(i as usize))
        }
}

/// Every close marker points back at an open marker that points at it.
pub open spec fn ends_ok<Ctx, Char>(s: Seq<Node<Ctx, Char>>) -> bool {
    forall|j: int|
        0 <= j < s.len() && #[trigger] (s[j]) is BranchEnd ==> {
            let i = s[j]->BranchEnd_0 as int;
            0 <= i < j && s[i] == Node::<Ctx, Char>::BranchStart(j as usize)
        }
}

/// Closed branches are nested or disjoint, never crossing.
pub open spec fn no_cross<Ctx, Char>(s: Seq<Node<Ctx, Char>>) -> bool {
    forall|j1: int, j2: int|
        0 <= j1 < s.len() && 0 <= j2 < s.len() && #[trigger] (s[j1]) is BranchEnd
            && #[trigger] (s[j2]) is BranchEnd && s[j1]->BranchEnd_0 < s[j2]->BranchEnd_0
            && s[j2]->BranchEnd_0 < j1 ==> j2 < j1
}

/// A still-open marker never sits strictly inside a closed branch.
pub open spec fn opens_outside<Ctx, Char>(s: Seq<Node<Ctx, Char>>) -> bool {
    forall|o: int, j: int|
        0 <= o < s.len() && 0 <= j < s.len() && #[trigger] (s[o]) is BranchStart
            && s[o]->BranchStart_0 == o && #[trigger] (s[j]) is BranchEnd ==> {
            let i = s[j]->BranchEnd_0 as int;
            o < i || o > j
        }
}

/// The open-branch stack lists exactly the markers that still carry their
/// placeholder, in strictly increasing order.
pub open spec fn stack_ok<Ctx, Char>(s: Seq<Node<Ctx, Char>>, opens: Seq<usize>) -> bool {
    &&& forall|k: int|
        0 <= k < opens.len() ==> {
            let o = #[trigger] (opens[k]) as int;
            o < s.len() && s[o] == Node::<Ctx, Char>::BranchStart(o as usize)
        }
    &&& forall|k1: int, k2: int| 0 <= k1 < k2 < opens.len() ==> opens[k1] < opens[k2]
    &&& forall|i: int|
        0 <= i < s.len() && #[trigger] (s[i]) == Node::<Ctx, Char>::BranchStart(i as usize)
            ==> opens.contains(i as usize)
}

/// The running open/close balance never drops below zero and ends at the
/// number of still-open branches.
pub open spec fn depth_ok<Ctx, Char>(s: Seq<Node<Ctx, Char>>, opens: Seq<usize>) -> bool {
    &&& forall|p: int| 0 <= p <= s.len() ==> prefix_depth(s, p) >= 0
    &&& prefix_depth(s, s.len() as int) == opens.len()
}

/// Full invariant of a branching sequence under construction.
#[verifier::opaque]
pub open spec fn wf_parts<Ctx, Char>(s: Seq<Node<Ctx, Char>>, opens: Seq<usize>) -> bool {
    &&& stack_ok(s, opens)
    &&& starts_ok(s)
    &&& ends_ok(s)
    &&& no_cross(s)
    &&& opens_outside(s)
    &&& depth_ok(s, opens)
}

/// Pairing discipline of a fully closed node sequence.
pub open spec fn wf_nodes<Ctx, Char>(s: Seq<Node<Ctx, Char>>) -> bool {
    &&& forall|i: int|
        0 <= i < s.len() && #[trigger] (s[i]) is BranchStart ==> {
            let j = s[i]->BranchStart_0 as int;
            i < j < s.len() && s[j] == Node::<Ctx, Char>::BranchEnd(i as usize)
        }
    &&& ends_ok(s)
    &&& no_cross(s)
}

impl<Ctx, Char> Tree<Ctx, Char> {
    /// The sequence of nodes.
    pub closed spec fn view(&self) -> Seq<Node<Ctx, Char>> {
        self.nodes@
    }

    /// The stack of still-open branch positions.
    pub closed spec fn opens(&self) -> Seq<usize> {
        self.open_branches@
    }

    /// Internal invariant, established by `new` and preserved by every
    /// operation.
    pub open spec fn wf(&self) -> bool {
        wf_parts(self@, self.opens())
    }

    /// A sequence is complete when every branch has been closed.
    pub open spec fn is_closed(&self) -> bool {
        self.opens().len() == 0
    }

    /// Creates an empty sequence.
    pub fn new() -> (t: Self)
        ensures
            t@ == Seq::<Node<Ctx, Char>>::empty(),
            t.opens() == Seq::<usize>::empty(),
            t.wf(),
    {
        let t = Tree { nodes: Vec::new(), open_branches: Vec::new() };
        proof {
            reveal(wf_parts);
            reveal(prefix_depth);
        }
        t
    }

    /// Number of nodes.
    pub fn len(&self) -> (n: usize)
        ensures
            n == self@.len(),
    {
        self.nodes.len()
    }

    /// A plain iterator from the start.
    pub fn iter<'a>(&'a self) -> (r: TreeIterator<'a, Ctx, Char>)
        ensures
            r.pos() == 0,
            r.seq_of() == self@,
    {
        TreeIterator { tree: self, idx: 0 }
    }

    /// A branch-aware iterator whose first step visits `from + 1` going
    /// forward, or `from - 1` going backward.
    pub fn branch_iter<'a>(&'a self, from: usize) -> (r: TreeBranchIterator<'a, Ctx, Char>)
        ensures
            r.pos() == from,
            r.depth_of() == 0,
            r.seq_of() == self@,
    {
        TreeBranchIterator { tree: self, idx: from, depth: 0 }
    }

    /// Indexed read access. An out-of-range index is a caller error, ruled
    /// out by the precondition.
    pub fn node_at(&self, i: usize) -> (n: &Node<Ctx, Char>)
        requires
            i < self@.len(),
        ensures
            *n == self@[i as int],
    {
        &self.nodes[i]
    }

    /// Appends a leaf node.
    pub fn add_leaf(&mut self, content: NodeContent<Ctx, Char>)
        requires
            old(self).wf(),
        ensures
            final(self).wf(),
            final(self)@ == old(self)@.push(Node::Leaf(content)),
            final(self).opens() == old(self).opens(),
    {
        let ghost pre = self.nodes@;
        self.nodes.push(Node::Leaf(content));
        proof {
            reveal(wf_parts);
            let post = self.nodes@;
            let n = pre.len() as int;
            assert(starts_ok(post));
            assert(ends_ok(post));
            assert(no_cross(post));
            assert(opens_outside(post));
            assert forall|p: int| 0 <= p <= post.len() implies prefix_depth(post, p) >= 0 by {
                if p <= n {
                    lemma_prefix_depth_congruent(pre, post, p);
                } else {
                    lemma_prefix_depth_congruent(pre, post, n);
                    lemma_prefix_depth_step(post, p);
                }
            }
            lemma_prefix_depth_congruent(pre, post, n);
            lemma_prefix_depth_step(post, n + 1);
        }
    }

    /// Appends an open marker with a placeholder target and records it on the
    /// open-branch stack.
    pub fn open_branch(&mut self)
        requires
            old(self).wf(),
        ensures
            final(self).wf(),
            final(self)@ == old(self)@.push(Node::BranchStart(old(self)@.len() as usize)),
            final(self).opens() == old(self).opens().push(old(self)@.len() as usize),
    {
        let ghost pre = self.nodes@;
        let ghost preopens = self.open_branches@;
        let i = self.nodes.len();
        self.nodes.push(Node::BranchStart(i));
        self.open_branches.push(i);
        proof {
            reveal(wf_parts);
            let post = self.nodes@;
            let n = pre.len() as int;
            assert(starts_ok(post));
            assert(ends_ok(post));
            assert(no_cross(post));
            assert(opens_outside(post));
            assert forall|k: int| 0 <= k < self.opens().len() implies {
                let o = #[trigger] (self.opens()[k]) as int;
                o < post.len() && post[o] == Node::<Ctx, Char>::BranchStart(o as usize)
            } by {
                if k < preopens.len() {
                    assert(preopens[k] == self.opens()[k]);
                }
            }
            assert forall|x: int|
                0 <= x < post.len() && post[x] == Node::<Ctx, Char>::BranchStart(
                    x as usize,
                ) implies self.opens().contains(x as usize) by {
                if x < n {
                    let k = choose|k: int| 0 <= k < preopens.len() && preopens[k] == x as usize;
                    assert(self.opens()[k] == x as usize);
                } else {
                    assert(self.opens()[preopens.len() as int] == x as usize);
                }
            }
            assert forall|p: int| 0 <= p <= post.len() implies prefix_depth(post, p) >= 0 by {
                if p <= n {
                    lemma_prefix_depth_congruent(pre, post, p);
                } else {
                    lemma_prefix_depth_congruent(pre, post, n);
                    lemma_prefix_depth_step(post, p);
                }
            }
            lemma_prefix_depth_congruent(pre, post, n);
            lemma_prefix_depth_step(post, n + 1);
        }
    }

    /// Closes the most recently opened branch: appends a close marker that
    /// points at the open marker, and rewrites the open marker's placeholder
    /// to point at the new close marker. Fails, leaving the sequence
    /// unchanged, exactly when no branch is open.
    #[verifier::rlimit(100)]
    pub fn close_branch(&mut self) -> (r: Result<(), TreeError>)
        requires
            old(self).wf(),
        ensures
            final(self).wf(),
            old(self).opens().len() == 0 ==> r == Err::<(), TreeError>(TreeError::UnbalancedBranch)
                && final(self)@ == old(self)@ && final(self).opens() == old(self).opens(),
            old(self).opens().len() > 0 ==> {
                let o = old(self).opens().last() as int;
                let n = old(self)@.len() as int;
                &&& r == Ok::<(), TreeError>(())
                &&& final(self)@ == old(self)@.update(o, Node::BranchStart(n as usize)).push(
                    Node::BranchEnd(o as usize),
                )
                &&& final(self).opens() == old(self).opens().drop_last()
            },
    {
        match self.open_branches.pop() {
            None => Err(TreeError::UnbalancedBranch),
            Some(last_open_branch) => {
                let ghost pre = self.nodes@;
                let ghost preopens = old(self).open_branches@;
                proof {
                    assert(preopens =~= self.open_branches@.push(last_open_branch));
                    lemma_wf_top_open(pre, preopens);
                }
                let i = self.nodes.len();
                self.nodes.push(Node::BranchEnd(last_open_branch));
                let grown = self.nodes.len();
                proof {
                    assert(pre.len() < grown <= usize::MAX);
                }
                self.nodes.set(last_open_branch, Node::BranchStart(i));
                proof {
                    let post = pre.update(
                        last_open_branch as int,
                        Node::<Ctx, Char>::BranchStart(pre.len() as usize),
                    ).push(Node::<Ctx, Char>::BranchEnd(last_open_branch));
                    assert(self.nodes@ =~= post);
                    assert(self.open_branches@ =~= preopens.drop_last());
                    lemma_close_wf(pre, preopens);
                }
                Ok(())
            },
        }
    }
}

/// Two node sequences that agree in kind (open, close, leaf) on a prefix have
/// the same running balance over that prefix.
pub proof fn lemma_prefix_depth_congruent<Ctx, Char>(
    s1: Seq<Node<Ctx, Char>>,
    s2: Seq<Node<Ctx, Char>>,
    p: int,
)
    requires
        p <= s1.len(),
        p <= s2.len(),
        forall|i: int| 0 <= i < p ==> node_delta(s1[i]) == node_delta(s2[i]),
    ensures
        prefix_depth(s1, p) == prefix_depth(s2, p),
    decreases p,
{
    reveal(prefix_depth);
    if p > 0 {
        lemma_prefix_depth_congruent(s1, s2, p - 1);
    }
}

/// One step of the running balance.
pub proof fn lemma_prefix_depth_step<Ctx, Char>(s: Seq<Node<Ctx, Char>>, p: int)
    requires
        0 < p <= s.len(),
    ensures
        prefix_depth(s, p) == prefix_depth(s, p - 1) + node_delta(s[p - 1]),
{
    reveal(prefix_depth);
}

/// A well-formed sequence's running balance facts, without the rest of the
/// invariant.
pub proof fn lemma_wf_depths<Ctx, Char>(s: Seq<Node<Ctx, Char>>, opens: Seq<usize>)
    requires
        wf_parts(s, opens),
    ensures
        depth_ok(s, opens),
{
    reveal(wf_parts);
}

/// The balance of an empty prefix.
pub proof fn lemma_prefix_depth_zero<Ctx, Char>(s: Seq<Node<Ctx, Char>>)
    ensures
        prefix_depth(s, 0) == 0,
{
    reveal(prefix_depth);
}

/// Helper: the closing update and append, as one expression.
pub open spec fn close_shape<Ctx, Char>(pre: Seq<Node<Ctx, Char>>, o: usize) -> Seq<
    Node<Ctx, Char>,
> {
    pre.update(o as int, Node::<Ctx, Char>::BranchStart(pre.len() as usize)).push(
        Node::<Ctx, Char>::BranchEnd(o),
    )
}

proof fn lemma_close_stack<Ctx, Char>(pre: Seq<Node<Ctx, Char>>, preopens: Seq<usize>)
    requires
        stack_ok(pre, preopens),
        preopens.len() > 0,
        preopens.last() < pre.len(),
        pre.len() < usize::MAX,
    ensures
        stack_ok(close_shape(pre, preopens.last()), preopens.drop_last()),
{
    let o = preopens.last() as int;
    let n = pre.len() as int;
    let post = close_shape(pre, preopens.last());
    let opens = preopens.drop_last();
    assert forall|k: int| 0 <= k < opens.len() implies {
        let ok = #[trigger] (opens[k]) as int;
        ok < post.len() && post[ok] == Node::<Ctx, Char>::BranchStart(ok as usize)
    } by {
        assert(preopens[k] == opens[k]);
        let ok = (opens[k]) as int;
        assert(pre[ok] == Node::<Ctx, Char>::BranchStart(ok as usize));
        assert(preopens[k] < preopens[preopens.len() - 1]);
        assert(ok != o);
    }
    assert forall|x: int|
        0 <= x < post.len() && post[x] == Node::<Ctx, Char>::BranchStart(
            x as usize,
        ) implies opens.contains(x as usize) by {
        assert(x != o && x != n);
        assert(pre[x] == Node::<Ctx, Char>::BranchStart(x as usize));
        assert(preopens.contains(x as usize));
        let k = choose|k: int| 0 <= k < preopens.len() && preopens[k] == x as usize;
        assert(k < preopens.len() - 1);
        assert(opens[k] == x as usize);
    }
}

proof fn lemma_close_starts<Ctx, Char>(pre: Seq<Node<Ctx, Char>>, preopens: Seq<usize>)
    requires
        starts_ok(pre),
        opens_outside(pre),
        preopens.len() > 0,
        preopens.last() < pre.len(),
        pre.len() < usize::MAX,
        pre[preopens.last() as int] == Node::<Ctx, Char>::BranchStart(preopens.last()),
    ensures
        starts_ok(close_shape(pre, preopens.last())),
{
    let o = preopens.last() as int;
    let n = pre.len() as int;
    let post = close_shape(pre, preopens.last());
    assert forall|i: int| 0 <= i < post.len() && #[trigger] (post[i]) is BranchStart implies {
        let j = post[i]->BranchStart_0 as int;
        j == i || (i < j < post.len() && post[j] == Node::<Ctx, Char>::BranchEnd(i as usize))
    } by {
        if i != o {
            assert(post[i] == pre[i]);
            if pre[i] is BranchStart {
                let j = pre[i]->BranchStart_0 as int;
                if j != i {
                    // a closed pair of the old sequence; its close marker
                    // cannot point at `o`, which was still open
                    assert(pre[j] == Node::<Ctx, Char>::BranchEnd(i as usize));
                    assert(j != o);
                    assert(post[j] == pre[j]);
                }
            }
        }
    }
}

proof fn lemma_close_ends<Ctx, Char>(pre: Seq<Node<Ctx, Char>>, preopens: Seq<usize>)
    requires
        ends_ok(pre),
        preopens.len() > 0,
        preopens.last() < pre.len(),
        pre.len() < usize::MAX,
        pre[preopens.last() as int] == Node::<Ctx, Char>::BranchStart(preopens.last()),
    ensures
        ends_ok(close_shape(pre, preopens.last())),
{
    let o = preopens.last() as int;
    let n = pre.len() as int;
    let post = close_shape(pre, preopens.last());
    assert forall|j: int| 0 <= j < post.len() && #[trigger] (post[j]) is BranchEnd implies {
        let i = post[j]->BranchEnd_0 as int;
        0 <= i < j && post[i] == Node::<Ctx, Char>::BranchStart(j as usize)
    } by {
        if j < n {
            assert(post[j] == pre[j]);
            let i = pre[j]->BranchEnd_0 as int;
            assert(pre[i] == Node::<Ctx, Char>::BranchStart(j as usize));
            assert(i != o);
            assert(post[i] == pre[i]);
        }
    }
}

proof fn lemma_close_nocross<Ctx, Char>(pre: Seq<Node<Ctx, Char>>, preopens: Seq<usize>)
    requires
        ends_ok(pre),
        no_cross(pre),
        opens_outside(pre),
        preopens.len() > 0,
        preopens.last() < pre.len(),
        pre.len() < usize::MAX,
        pre[preopens.last() as int] == Node::<Ctx, Char>::BranchStart(preopens.last()),
    ensures
        no_cross(close_shape(pre, preopens.last())),
{
    let o = preopens.last() as int;
    let n = pre.len() as int;
    let post = close_shape(pre, preopens.last());
    assert forall|j1: int, j2: int|
        0 <= j1 < post.len() && 0 <= j2 < post.len() && #[trigger] (post[j1]) is BranchEnd
            && #[trigger] (post[j2]) is BranchEnd && post[j1]->BranchEnd_0 < post[j2]->BranchEnd_0
            && post[j2]->BranchEnd_0 < j1 implies j2 < j1 by {
        if j1 == n {
            // any branch of the old sequence ends before `n`
        } else if j2 == n {
            // the old pair around `j1` would contain the open marker `o`
            let i1 = post[j1]->BranchEnd_0 as int;
            assert(pre[j1] == post[j1]);
            assert(pre[o] == Node::<Ctx, Char>::BranchStart(o as usize));
            assert(o < i1 || o > j1);
            assert(false);
        } else {
            assert(pre[j1] == post[j1] && pre[j2] == post[j2]);
        }
    }
}

proof fn lemma_close_oo<Ctx, Char>(pre: Seq<Node<Ctx, Char>>, preopens: Seq<usize>)
    requires
        stack_ok(pre, preopens),
        opens_outside(pre),
        preopens.len() > 0,
        preopens.last() < pre.len(),
        pre.len() < usize::MAX,
    ensures
        opens_outside(close_shape(pre, preopens.last())),
{
    let o = preopens.last() as int;
    let n = pre.len() as int;
    let post = close_shape(pre, preopens.last());
    assert forall|oo: int, j: int|
        0 <= oo < post.len() && 0 <= j < post.len() && #[trigger] (post[oo]) is BranchStart
            && post[oo]->BranchStart_0 == oo && #[trigger] (post[j]) is BranchEnd implies {
        let i = post[j]->BranchEnd_0 as int;
        oo < i || oo > j
    } by {
        assert(oo != o && oo != n);
        assert(pre[oo] == post[oo]);
        if j == n {
            // `oo` still carries its placeholder, so it is on the old stack
            // and below its top `o`
            assert(preopens.contains(oo as usize));
            let k = choose|k: int| 0 <= k < preopens.len() && preopens[k] == oo as usize;
            if k < preopens.len() - 1 {
                assert(preopens[k] < preopens[preopens.len() - 1]);
            }
            assert(oo < o);
        } else {
            assert(pre[j] == post[j]);
        }
    }
}

proof fn lemma_close_depth<Ctx, Char>(pre: Seq<Node<Ctx, Char>>, preopens: Seq<usize>)
    requires
        depth_ok(pre, preopens),
        preopens.len() > 0,
        preopens.last() < pre.len(),
        pre.len() < usize::MAX,
        pre[preopens.last() as int] is BranchStart,
    ensures
        depth_ok(close_shape(pre, preopens.last()), preopens.drop_last()),
{
    let o = preopens.last() as int;
    let n = pre.len() as int;
    let post = close_shape(pre, preopens.last());
    assert forall|i: int| 0 <= i < n implies node_delta(post[i]) == node_delta(pre[i]) by {
        if i != o {
            assert(post[i] == pre[i]);
        }
    }
    assert forall|p: int| 0 <= p <= post.len() implies prefix_depth(post, p) >= 0 by {
        if p <= n {
            lemma_prefix_depth_congruent(pre, post, p);
        } else {
            lemma_prefix_depth_congruent(pre, post, n);
            lemma_prefix_depth_step(post, p);
        }
    }
    lemma_prefix_depth_congruent(pre, post, n);
    lemma_prefix_depth_step(post, n + 1);
}

/// The top of the open-branch stack is an open marker in range.
pub proof fn lemma_wf_top_open<Ctx, Char>(s: Seq<Node<Ctx, Char>>, opens: Seq<usize>)
    requires
        wf_parts(s, opens),
        opens.len() > 0,
    ensures
        opens.last() < s.len(),
        s[opens.last() as int] == Node::<Ctx, Char>::BranchStart(opens.last()),
{
    reveal(wf_parts);
    assert(opens[opens.len() - 1] == opens.last());
}

/// Closing the innermost open branch preserves the invariant.
proof fn lemma_close_wf<Ctx, Char>(pre: Seq<Node<Ctx, Char>>, preopens: Seq<usize>)
    requires
        wf_parts(pre, preopens),
        preopens.len() > 0,
        pre.len() < usize::MAX,
    ensures
        wf_parts(close_shape(pre, preopens.last()), preopens.drop_last()),
{
    reveal(wf_parts);
    assert(preopens[preopens.len() - 1] == preopens.last());
    assert(preopens.last() < pre.len());
    assert(pre[preopens.last() as int] == Node::<Ctx, Char>::BranchStart(preopens.last()));
    lemma_close_stack(pre, preopens);
    lemma_close_starts(pre, preopens);
    lemma_close_ends(pre, preopens);
    lemma_close_nocross(pre, preopens);
    lemma_close_oo(pre, preopens);
    lemma_close_depth(pre, preopens);
}


impl<Ctx: Context, Char> Tree<Ctx, Char> {
    /// Whether this sequence's payloads are rule left sides.
    pub fn is_left_side() -> bool {
        Ctx::is_left_side()
    }

    /// Whether this sequence's payloads are rule right sides.
    pub fn is_right_side() -> bool {
        Ctx::is_right_side()
    }

    /// Whether this sequence's payloads are instances.
    pub fn is_instance() -> bool {
        Ctx::is_instance()
    }
}

/// A plain iterator over a sequence's nodes.
pub struct TreeIterator<'a, Ctx, Char> {
    tree: &'a Tree<Ctx, Char>,
    idx: usize,
}

impl<'a, Ctx, Char> TreeIterator<'a, Ctx, Char> {
    /// The cursor: the next position to visit.
    pub closed spec fn pos(&self) -> int {
        self.idx as int
    }

    /// The sequence iterated over.
    pub closed spec fn seq_of(&self) -> Seq<Node<Ctx, Char>> {
        self.tree@
    }

    /// The next node, or nothing at the end.
    pub fn next(&mut self) -> (r: Option<&'a Node<Ctx, Char>>)
        ensures
            old(self).pos() < old(self).seq_of().len() ==> (r matches Some(n)
                && *n == old(self).seq_of()[old(self).pos()]
                && final(self).pos() == old(self).pos() + 1),
            old(self).pos() >= old(self).seq_of().len() ==> r is None
                && final(self).pos() == old(self).pos(),
            final(self).seq_of() == old(self).seq_of(),
    {
        if self.idx < self.tree.len() {
            let n = self.tree.node_at(self.idx);
            self.idx = self.idx + 1;
            Some(n)
        } else {
            None
        }
    }
}

/// A branch-aware iterator: sub-branches are skipped whole, and the scan
/// ends once it has walked out of the branch it started in. `next` follows
/// `crate::derivator::fwd_step`, `next_back` follows
/// `crate::derivator::bwd_step`.
pub struct TreeBranchIterator<'a, Ctx, Char> {
    tree: &'a Tree<Ctx, Char>,
    idx: usize,
    depth: i64,
}

impl<'a, Ctx, Char> TreeBranchIterator<'a, Ctx, Char> {
    /// The cursor.
    pub closed spec fn pos(&self) -> int {
        self.idx as int
    }

    /// The depth counter.
    pub closed spec fn depth_of(&self) -> int {
        self.depth as int
    }

    /// The sequence iterated over.
    pub closed spec fn seq_of(&self) -> Seq<Node<Ctx, Char>> {
        self.tree@
    }

    /// One forward step: yields the visited node, jumping over a
    /// sub-branch when an open marker is met.
    pub fn next(&mut self) -> (r: Option<&'a Node<Ctx, Char>>)
        requires
            old(self).depth_of() < i64::MAX,
        ensures
            final(self).seq_of() == old(self).seq_of(),
            match crate::derivator::fwd_step(
                old(self).seq_of(),
                old(self).pos(),
                old(self).depth_of(),
            ) {
                Some((v, i2, d2)) => r matches Some(n) && *n == old(self).seq_of()[v]
                    && final(self).pos() == i2 && final(self).depth_of() == d2,
                None => r is None && final(self).pos() == old(self).pos() && final(self).depth_of()
                    == old(self).depth_of(),
            },
    {
        let n = self.tree.len();
        if n == 0 || self.idx >= n - 1 || self.depth < 0 {
            return None;
        }
        self.idx = self.idx + 1;
        let node = self.tree.node_at(self.idx);
        match node {
            Node::BranchStart(i) => {
                self.idx = *i;
                self.depth = self.depth + 1;
            },
            Node::BranchEnd(_) => {
                self.depth = self.depth - 1;
            },
            Node::Leaf(_) => {},
        }
        Some(node)
    }

    /// One backward step, the mirror of `next`: yields the visited node,
    /// jumping over a sub-branch when its close marker is met.
    pub fn next_back(&mut self) -> (r: Option<&'a Node<Ctx, Char>>)
        requires
            old(self).depth_of() < i64::MAX,
        ensures
            final(self).seq_of() == old(self).seq_of(),
            match crate::derivator::bwd_step(
                old(self).seq_of(),
                old(self).pos(),
                old(self).depth_of(),
            ) {
                Some((v, i2, d2)) => r matches Some(n) && *n == old(self).seq_of()[v]
                    && final(self).pos() == i2 && final(self).depth_of() == d2,
                None => r is None && final(self).pos() == old(self).pos() && final(self).depth_of()
                    == old(self).depth_of(),
            },
    {
        if self.idx == 0 || self.idx > self.tree.len() || self.depth < 0 {
            return None;
        }
        self.idx = self.idx - 1;
        let node = self.tree.node_at(self.idx);
        match node {
            Node::BranchStart(_) => {
                self.depth = self.depth - 1;
            },
            Node::BranchEnd(i) => {
                self.idx = *i;
                self.depth = self.depth + 1;
            },
            Node::Leaf(_) => {},
        }
        Some(node)
    }
}

} // verus!
