use crate::trie::{AgentPNet, AgentPathId, BranchId, BranchView, Side, TrieView};
use vstd::prelude::*;

verus! {

impl TrieView {
    /// Whether the branch `b` is alive: edges end at it, and each child that it has
    /// is alive. A branch without children is alive exactly if edges end at it.
    pub open spec fn alive(self, b: int) -> bool
        decreases self.branches.len() - b,
        when self.tree() && 0 <= b
    {
        &&& b < self.branches.len()
        &&& self.branches[b].paths.len() > 0
        &&& (self.child(b, Side::Left) matches Some(c) ==> self.alive(c.0 as int))
        &&& (self.child(b, Side::Right) matches Some(c) ==> self.alive(c.0 as int))
    }

    /// Whether the branch `x` lies in the subtree of the branch `b`: it is `b`, or
    /// it lies in the subtree of a child of `b`.
    pub open spec fn in_subtree(self, b: int, x: int) -> bool
        decreases self.branches.len() - b,
        when self.tree() && 0 <= b
    {
        &&& b < self.branches.len()
        &&& {
            ||| x == b
            ||| (self.child(b, Side::Left) matches Some(c) && self.in_subtree(c.0 as int, x))
            ||| (self.child(b, Side::Right) matches Some(c) && self.in_subtree(c.0 as int, x))
        }
    }

    /// The child `c` where it is alive, and no child where it is not.
    pub open spec fn kept(self, c: Option<BranchId>) -> Option<BranchId> {
        match c {
            Some(id) => if self.alive(id.0 as int) {
                c
            } else {
                None
            },
            None => None,
        }
    }

    /// The branch `x` without the children that are not alive.
    pub open spec fn pruned_branch(self, x: int) -> BranchView {
        BranchView {
            left: self.kept(self.branches[x].left),
            right: self.kept(self.branches[x].right),
            paths: self.branches[x].paths,
        }
    }

    /// The trie in which every branch in the subtree of `b` has lost the children
    /// that are not alive. No branch leaves the storage, and nothing outside the
    /// subtree changes.
    pub open spec fn pruned_below(self, b: int) -> TrieView {
        TrieView {
            branches: Seq::new(
                self.branches.len(),
                |x: int|
                    if self.in_subtree(b, x) {
                        self.pruned_branch(x)
                    } else {
                        self.branches[x]
                    },
            ),
            ..self
        }
    }

    /// Whether `other` has the branches of this trie wherever the subtree of `a`
    /// reaches, and as many branches in all.
    pub open spec fn agrees_below(self, other: TrieView, a: int) -> bool {
        &&& other.branches.len() == self.branches.len()
        &&& forall|y: int| #[trigger] self.in_subtree(a, y) ==> other.branches[y] == self.branches[y]
    }
}

/// A branch in the subtree of `b` is `b` or comes after it.
pub proof fn lemma_subtree_bounds(t: TrieView, b: int, x: int)
    requires
        t.tree(),
        0 <= b,
        t.in_subtree(b, x),
    ensures
        b <= x < t.branches.len(),
    decreases t.branches.len() - b,
{
    if x != b {
        assert(t.child(b, Side::Left) == t.branches[b].left);
        assert(t.child(b, Side::Right) == t.branches[b].right);
        if t.branches[b].left matches Some(c) && t.in_subtree(c.0 as int, x) {
            let c = t.branches[b].left->Some_0;
            lemma_subtree_bounds(t, c.0 as int, x);
        } else {
            let c = t.branches[b].right->Some_0;
            lemma_subtree_bounds(t, c.0 as int, x);
        }
    }
}

/// What lies in the subtree of a branch of the subtree of `a` lies in the subtree
/// of `a`.
pub proof fn lemma_subtree_trans(t: TrieView, a: int, b: int, x: int)
    requires
        t.tree(),
        0 <= a,
        t.in_subtree(a, b),
        t.in_subtree(b, x),
    ensures
        t.in_subtree(a, x),
    decreases t.branches.len() - a,
{
    if a != b {
        assert(t.child(a, Side::Left) == t.branches[a].left);
        assert(t.child(a, Side::Right) == t.branches[a].right);
        if t.branches[a].left matches Some(c) && t.in_subtree(c.0 as int, b) {
            let c = t.branches[a].left->Some_0;
            lemma_subtree_trans(t, c.0 as int, b, x);
        } else {
            let c = t.branches[a].right->Some_0;
            lemma_subtree_trans(t, c.0 as int, b, x);
        }
    }
}

/// A child lies in the subtree of its parent.
pub proof fn lemma_child_in_subtree(t: TrieView, p: int, side: Side)
    requires
        t.tree(),
        0 <= p < t.branches.len(),
        t.child(p, side) is Some,
    ensures
        t.in_subtree(p, t.child(p, side)->Some_0.0 as int),
{
    let c = t.child(p, side)->Some_0.0 as int;
    assert(t.in_subtree(c, c));
}

/// The parent of a branch that lies in the subtree of `a`, and is not `a`, lies in
/// that subtree too.
pub proof fn lemma_parent_in_subtree(t: TrieView, a: int, c: int, p: int, side: Side)
    requires
        t.tree(),
        0 <= a,
        0 <= p < t.branches.len(),
        t.child(p, side) matches Some(id) && id.0 == c,
        t.in_subtree(a, c),
        c != a,
    ensures
        t.in_subtree(a, p),
    decreases t.branches.len() - a,
{
    assert(t.child(a, Side::Left) == t.branches[a].left);
    assert(t.child(a, Side::Right) == t.branches[a].right);
    if t.branches[a].left matches Some(d) && t.in_subtree(d.0 as int, c) {
        let d = t.branches[a].left->Some_0;
        if d.0 == c {
            assert(t.child(a, Side::Left) == t.child(p, side));
            assert(t.in_subtree(a, a));
        } else {
            lemma_parent_in_subtree(t, d.0 as int, c, p, side);
        }
    } else {
        let d = t.branches[a].right->Some_0;
        if d.0 == c {
            assert(t.child(a, Side::Right) == t.child(p, side));
            assert(t.in_subtree(a, a));
        } else {
            lemma_parent_in_subtree(t, d.0 as int, c, p, side);
        }
    }
}

/// A branch that lies in the subtree of `a`, and is not `a`, has a parent.
pub proof fn lemma_parent_exists(t: TrieView, a: int, x: int) -> (ps: (int, Side))
    requires
        t.tree(),
        0 <= a,
        t.in_subtree(a, x),
        x != a,
    ensures
        0 <= ps.0 < x,
        ps.0 < t.branches.len(),
        t.child(ps.0, ps.1) matches Some(id) && id.0 == x,
    decreases t.branches.len() - a,
{
    assert(t.child(a, Side::Left) == t.branches[a].left);
    assert(t.child(a, Side::Right) == t.branches[a].right);
    if t.branches[a].left matches Some(d) && t.in_subtree(d.0 as int, x) {
        let d = t.branches[a].left->Some_0;
        if d.0 == x {
            (a, Side::Left)
        } else {
            lemma_parent_exists(t, d.0 as int, x)
        }
    } else {
        let d = t.branches[a].right->Some_0;
        if d.0 == x {
            (a, Side::Right)
        } else {
            lemma_parent_exists(t, d.0 as int, x)
        }
    }
}

/// The subtrees of the two children of a branch share no branch.
pub proof fn lemma_siblings_disjoint(t: TrieView, b: int, x: int)
    requires
        t.tree(),
        0 <= b < t.branches.len(),
        t.branches[b].left matches Some(l) && t.in_subtree(l.0 as int, x),
        t.branches[b].right is Some,
    ensures
        !t.in_subtree(t.branches[b].right->Some_0.0 as int, x),
    decreases x,
{
    let l = t.branches[b].left->Some_0.0 as int;
    let r = t.branches[b].right->Some_0.0 as int;
    assert(t.child(b, Side::Left) == t.branches[b].left);
    assert(t.child(b, Side::Right) == t.branches[b].right);
    assert(l != r);
    lemma_subtree_bounds(t, l, x);
    if t.in_subtree(r, x) {
        if x == l {
            lemma_parent_in_subtree(t, r, l, b, Side::Left);
            lemma_subtree_bounds(t, r, b);
        } else if x == r {
            lemma_parent_in_subtree(t, l, r, b, Side::Right);
            lemma_subtree_bounds(t, l, b);
        } else {
            let ps = lemma_parent_exists(t, l, x);
            lemma_parent_in_subtree(t, l, x, ps.0, ps.1);
            lemma_parent_in_subtree(t, r, x, ps.0, ps.1);
            lemma_siblings_disjoint(t, b, ps.0);
        }
    }
}

/// Whether a branch is alive depends on its subtree alone.
pub proof fn lemma_agree_alive(t: TrieView, u: TrieView, a: int, x: int)
    requires
        t.tree(),
        u.tree(),
        0 <= a,
        t.agrees_below(u, a),
        t.in_subtree(a, x),
    ensures
        u.alive(x) == t.alive(x),
    decreases t.branches.len() - x,
{
    lemma_subtree_bounds(t, a, x);
    assert(u.branches[x] == t.branches[x]);
    assert(t.child(x, Side::Left) == t.branches[x].left);
    assert(t.child(x, Side::Right) == t.branches[x].right);
    if let Some(c) = t.branches[x].left {
        lemma_child_in_subtree(t, x, Side::Left);
        lemma_subtree_trans(t, a, x, c.0 as int);
        lemma_agree_alive(t, u, a, c.0 as int);
    }
    if let Some(c) = t.branches[x].right {
        lemma_child_in_subtree(t, x, Side::Right);
        lemma_subtree_trans(t, a, x, c.0 as int);
        lemma_agree_alive(t, u, a, c.0 as int);
    }
}

/// Which branches lie in a subtree depends on that subtree alone.
pub proof fn lemma_agree_subtree(t: TrieView, u: TrieView, a: int, x: int)
    requires
        t.tree(),
        u.tree(),
        0 <= a,
        t.agrees_below(u, a),
    ensures
        u.in_subtree(a, x) == t.in_subtree(a, x),
    decreases t.branches.len() - a,
{
    if a < t.branches.len() {
        assert(t.in_subtree(a, a));
        assert(u.branches[a] == t.branches[a]);
        assert(t.child(a, Side::Left) == t.branches[a].left);
        assert(t.child(a, Side::Right) == t.branches[a].right);
        if let Some(c) = t.branches[a].left {
            assert forall|y: int| #[trigger] t.in_subtree(c.0 as int, y) implies u.branches[y]
                == t.branches[y] by {
                assert(t.in_subtree(a, y));
            }
            lemma_agree_subtree(t, u, c.0 as int, x);
        }
        if let Some(c) = t.branches[a].right {
            assert forall|y: int| #[trigger] t.in_subtree(c.0 as int, y) implies u.branches[y]
                == t.branches[y] by {
                assert(t.in_subtree(a, y));
            }
            lemma_agree_subtree(t, u, c.0 as int, x);
        }
    }
}

/// A trie that lost children of some branches, and nothing else, keeps the
/// invariant.
pub proof fn lemma_fewer_children_wf(t: TrieView, u: TrieView)
    requires
        t.wf(),
        u.branches.len() == t.branches.len(),
        u.root == t.root,
        u.paths == t.paths,
        forall|x: int|
            0 <= x < t.branches.len() ==> {
                &&& (#[trigger] u.branches[x]).paths == t.branches[x].paths
                &&& (u.branches[x].left is None || u.branches[x].left == t.branches[x].left)
                &&& (u.branches[x].right is None || u.branches[x].right == t.branches[x].right)
            },
    ensures
        u.wf(),
{
    assert forall|b: int, side: Side| 0 <= b < u.branches.len() implies (#[trigger] u.child(
        b,
        side,
    ) matches Some(c) ==> b < c.0 < u.branches.len()) by {
        assert(u.branches[b].paths == t.branches[b].paths);
        if u.child(b, side) is Some {
            assert(u.child(b, side) == t.child(b, side));
        }
    }
    assert forall|b1: int, s1: Side, b2: int, s2: Side|
        0 <= b1 < u.branches.len() && 0 <= b2 < u.branches.len() && (#[trigger] u.child(
            b1,
            s1,
        )) is Some && u.child(b1, s1) == #[trigger] u.child(b2, s2) implies b1 == b2 && s1
        == s2 by {
        assert(u.branches[b1].paths == t.branches[b1].paths);
        assert(u.branches[b2].paths == t.branches[b2].paths);
        assert(u.child(b1, s1) == t.child(b1, s1));
        assert(u.child(b2, s2) == t.child(b2, s2));
    }
    assert forall|k: int| 0 <= k < u.paths.len() implies {
        let e = #[trigger] u.paths[k];
        &&& u.has_branch(e.b1)
        &&& u.has_branch(e.b2)
        &&& u.branches[e.b1.0 as int].paths.contains(AgentPathId(k as usize))
        &&& u.branches[e.b2.0 as int].paths.contains(AgentPathId(k as usize))
    } by {
        let e = t.paths[k];
        assert(u.branches[e.b1.0 as int].paths == t.branches[e.b1.0 as int].paths);
        assert(u.branches[e.b2.0 as int].paths == t.branches[e.b2.0 as int].paths);
    }
    assert forall|b: int, i: int|
        0 <= b < u.branches.len() && 0 <= i < u.branches[b].paths.len() implies {
        let k = #[trigger] u.branches[b].paths[i];
        &&& k.0 < u.paths.len()
        &&& (u.paths[k.0 as int].b1 == BranchId(b as usize) || u.paths[k.0 as int].b2
            == BranchId(b as usize))
    } by {
        assert(u.branches[b].paths == t.branches[b].paths);
        let k = t.branches[b].paths[i];
    }
}

/// Pruning below a branch keeps the invariant of the trie.
pub proof fn lemma_pruned_below_wf(t: TrieView, b: int)
    requires
        t.wf(),
    ensures
        t.pruned_below(b).wf(),
{
    lemma_fewer_children_wf(t, t.pruned_below(b));
}

/// The branch `b` with its children pruned one after the other, and then without
/// the children that are not alive, is the trie pruned below `b`.
pub open spec fn prune_steps(t: TrieView, b: int) -> TrieView {
    let t1 = match t.branches[b].left {
        Some(l) => t.pruned_below(l.0 as int),
        None => t,
    };
    let t2 = match t.branches[b].right {
        Some(r) => t1.pruned_below(r.0 as int),
        None => t1,
    };
    TrieView {
        branches: t2.branches.update(
            b,
            BranchView {
                left: t.kept(t2.branches[b].left),
                right: t.kept(t2.branches[b].right),
                paths: t2.branches[b].paths,
            },
        ),
        ..t2
    }
}

/// Pruning the subtree of the left child leaves the subtree of the right child as
/// it was.
pub proof fn lemma_left_pruned_agrees(t: TrieView, b: int)
    requires
        t.wf(),
        0 <= b < t.branches.len(),
        t.branches[b].left is Some,
        t.branches[b].right is Some,
    ensures
        t.agrees_below(
            t.pruned_below(t.branches[b].left->Some_0.0 as int),
            t.branches[b].right->Some_0.0 as int,
        ),
{
    let l = t.branches[b].left->Some_0.0 as int;
    let r = t.branches[b].right->Some_0.0 as int;
    let t1 = t.pruned_below(l);
    assert forall|y: int| #[trigger] t.in_subtree(r, y) implies t1.branches[y] == t.branches[y] by {
        lemma_subtree_bounds(t, r, y);
        if t.in_subtree(l, y) {
            lemma_siblings_disjoint(t, b, y);
        }
    }
}

/// Pruning the two subtrees of a branch one after the other, and then the branch,
/// prunes below the branch; and the second step finds the right child as alive as
/// it was before the first.
pub proof fn lemma_prune_steps(t: TrieView, b: int)
    requires
        t.wf(),
        0 <= b < t.branches.len(),
    ensures
        prune_steps(t, b) == t.pruned_below(b),
        t.branches[b].left matches Some(l) ==> t.pruned_below(l.0 as int).wf(),
        t.branches[b].left is Some && t.branches[b].right is Some ==> t.pruned_below(
            t.branches[b].left->Some_0.0 as int,
        ).alive(t.branches[b].right->Some_0.0 as int) == t.alive(
            t.branches[b].right->Some_0.0 as int,
        ),
{
    let left = t.branches[b].left;
    let right = t.branches[b].right;
    assert(t.child(b, Side::Left) == left);
    assert(t.child(b, Side::Right) == right);
    let t1 = match left {
        Some(l) => t.pruned_below(l.0 as int),
        None => t,
    };
    if let Some(l) = left {
        lemma_pruned_below_wf(t, l.0 as int);
    }
    let t2 = match right {
        Some(r) => t1.pruned_below(r.0 as int),
        None => t1,
    };
    if let Some(r) = right {
        if left is Some {
            lemma_left_pruned_agrees(t, b);
        }
        assert(t.in_subtree(r.0 as int, r.0 as int));
        lemma_agree_alive(t, t1, r.0 as int, r.0 as int);
    }
    let res = prune_steps(t, b);
    let goal = t.pruned_below(b);
    assert(t.in_subtree(b, b));
    assert forall|x: int| 0 <= x < t.branches.len() implies res.branches[x] == goal.branches[x] by {
        let in_l = left matches Some(l) && t.in_subtree(l.0 as int, x);
        let in_r = right matches Some(r) && t.in_subtree(r.0 as int, x);
        if let Some(r) = right {
            lemma_agree_subtree(t, t1, r.0 as int, x);
        }
        if in_l {
            lemma_subtree_bounds(t, left->Some_0.0 as int, x);
        }
        if in_r {
            lemma_subtree_bounds(t, right->Some_0.0 as int, x);
        }
        if in_l && in_r {
            lemma_siblings_disjoint(t, b, x);
        }
        if x == b {
            assert(t2.branches[b] == t.branches[b]);
        } else if in_r {
            let r = right->Some_0.0 as int;
            assert(t1.branches[x] == t.branches[x]);
            assert(t.child(x, Side::Left) == t.branches[x].left);
            assert(t.child(x, Side::Right) == t.branches[x].right);
            if let Some(c) = t.branches[x].left {
                lemma_child_in_subtree(t, x, Side::Left);
                lemma_subtree_trans(t, r, x, c.0 as int);
                lemma_agree_alive(t, t1, r, c.0 as int);
            }
            if let Some(c) = t.branches[x].right {
                lemma_child_in_subtree(t, x, Side::Right);
                lemma_subtree_trans(t, r, x, c.0 as int);
                lemma_agree_alive(t, t1, r, c.0 as int);
            }
        }
    }
    assert(res.branches =~= goal.branches);
}

/// Detaches every child in the subtree of the branch `branch_id` that is not
/// alive, and says whether `branch_id` itself is alive.
pub fn remove_empty_branches(agent_pnet: &mut AgentPNet, branch_id: BranchId) -> (alive: bool)
    requires
        old(agent_pnet)@.wf(),
        old(agent_pnet)@.has_branch(branch_id),
    ensures
        alive == old(agent_pnet)@.alive(branch_id.0 as int),
        final(agent_pnet)@ == old(agent_pnet)@.pruned_below(branch_id.0 as int),
        final(agent_pnet)@.wf(),
    decreases old(agent_pnet)@.branches.len() - branch_id.0,
{
    let ghost t = agent_pnet@;
    let ghost b = branch_id.0 as int;
    proof {
        lemma_prune_steps(t, b);
        lemma_pruned_below_wf(t, b);
        assert(t.child(b, Side::Left) == t.branches[b].left);
        assert(t.child(b, Side::Right) == t.branches[b].right);
    }
    let branch = agent_pnet.branch(&branch_id);
    let left_id = branch.left;
    let right_id = branch.right;
    let has_paths = branch.paths.len() > 0;
    let is_left = match left_id {
        Some(left) => remove_empty_branches(agent_pnet, left),
        None => true,
    };
    let is_right = match right_id {
        Some(right) => remove_empty_branches(agent_pnet, right),
        None => true,
    };
    if !is_left {
        agent_pnet.branches[branch_id.0].left = None;
    }
    if !is_right {
        agent_pnet.branches[branch_id.0].right = None;
    }
    proof {
        assert(agent_pnet@.branches =~= prune_steps(t, b).branches);
        assert(agent_pnet@.paths =~= t.paths);
    }
    is_left && is_right && has_paths
}

impl AgentPNet {
    /// Detaches, below the root, every child of a branch that is not alive. The
    /// branches stay in the storage.
    pub fn remove_empty_branches(&mut self)
        requires
            old(self)@.wf(),
        ensures
            final(self)@ == old(self)@.pruned_below(0),
            final(self)@.wf(),
    {
        let root = self.root;
        let _ = remove_empty_branches(self, root);
    }
}

/// Below an alive branch every branch is alive, and none has a child to lose.
pub proof fn lemma_alive_intact(t: TrieView, a: int, x: int)
    requires
        t.tree(),
        0 <= a,
        t.alive(a),
        t.in_subtree(a, x),
    ensures
        t.alive(x),
        t.branches[x].paths.len() > 0,
        t.pruned_branch(x) == t.branches[x],
    decreases t.branches.len() - a,
{
    assert(t.child(a, Side::Left) == t.branches[a].left);
    assert(t.child(a, Side::Right) == t.branches[a].right);
    if x != a {
        if t.branches[a].left matches Some(c) && t.in_subtree(c.0 as int, x) {
            let c = t.branches[a].left->Some_0;
            lemma_alive_intact(t, c.0 as int, x);
        } else {
            let c = t.branches[a].right->Some_0;
            lemma_alive_intact(t, c.0 as int, x);
        }
    }
}

/// After pruning, a branch that can still be reached from a branch `b` of the
/// root's subtree, and is not `b`, was alive before and was below `b`.
pub proof fn lemma_pruned_reach(t: TrieView, b: int, x: int)
    requires
        t.wf(),
        t.in_subtree(0, b),
        t.pruned_below(0).in_subtree(b, x),
        x != b,
    ensures
        t.alive(x),
        t.in_subtree(b, x),
    decreases t.branches.len() - b,
{
    let u = t.pruned_below(0);
    lemma_pruned_below_wf(t, 0);
    lemma_subtree_bounds(t, 0, b);
    assert(u.branches[b] == t.pruned_branch(b));
    assert(t.child(b, Side::Left) == t.branches[b].left);
    assert(t.child(b, Side::Right) == t.branches[b].right);
    assert(u.child(b, Side::Left) == u.branches[b].left);
    assert(u.child(b, Side::Right) == u.branches[b].right);
    if u.branches[b].left matches Some(c) && u.in_subtree(c.0 as int, x) {
        let c = u.branches[b].left->Some_0;
        assert(t.branches[b].left == Some(c) && t.alive(c.0 as int));
        lemma_child_in_subtree(t, b, Side::Left);
        lemma_subtree_trans(t, 0, b, c.0 as int);
        if x != c.0 {
            lemma_pruned_reach(t, c.0 as int, x);
        }
    } else {
        let c = u.branches[b].right->Some_0;
        assert(t.branches[b].right == Some(c) && t.alive(c.0 as int));
        lemma_child_in_subtree(t, b, Side::Right);
        lemma_subtree_trans(t, 0, b, c.0 as int);
        if x != c.0 {
            lemma_pruned_reach(t, c.0 as int, x);
        }
    }
}

/// After pruning, every branch that can still be reached from the root, the root
/// apart, carries an edge: it was alive, and so it is still.
pub proof fn lemma_pruned_reachable_carries_edge(t: TrieView, x: int)
    requires
        t.wf(),
        t.pruned_below(0).in_subtree(0, x),
        x != 0,
    ensures
        t.in_subtree(0, x),
        t.alive(x),
        t.pruned_below(0).branches[x].paths.len() > 0,
        t.pruned_below(0).branches[x] == t.branches[x],
{
    assert(t.in_subtree(0, 0));
    lemma_pruned_reach(t, 0, x);
    lemma_subtree_bounds(t, 0, x);
    assert(t.in_subtree(x, x));
    lemma_alive_intact(t, x, x);
    assert(t.pruned_below(0).branches[x] == t.pruned_branch(x));
}

/// Pruning keeps what lies below an alive branch of the root's subtree.
pub proof fn lemma_pruned_keeps_below_alive(t: TrieView, a: int, x: int)
    requires
        t.wf(),
        t.in_subtree(0, a),
        t.alive(a),
        t.in_subtree(a, x),
    ensures
        t.pruned_below(0).in_subtree(a, x),
    decreases t.branches.len() - a,
{
    let u = t.pruned_below(0);
    lemma_pruned_below_wf(t, 0);
    lemma_subtree_bounds(t, 0, a);
    lemma_alive_intact(t, a, a);
    assert(u.branches[a] == t.branches[a]);
    assert(t.child(a, Side::Left) == t.branches[a].left);
    assert(t.child(a, Side::Right) == t.branches[a].right);
    assert(u.child(a, Side::Left) == u.branches[a].left);
    assert(u.child(a, Side::Right) == u.branches[a].right);
    if x != a {
        if t.branches[a].left matches Some(c) && t.in_subtree(c.0 as int, x) {
            let c = t.branches[a].left->Some_0;
            lemma_child_in_subtree(t, a, Side::Left);
            lemma_subtree_trans(t, 0, a, c.0 as int);
            lemma_pruned_keeps_below_alive(t, c.0 as int, x);
        } else {
            let c = t.branches[a].right->Some_0;
            lemma_child_in_subtree(t, a, Side::Right);
            lemma_subtree_trans(t, 0, a, c.0 as int);
            lemma_pruned_keeps_below_alive(t, c.0 as int, x);
        }
    }
}

/// Pruning removes no branch that lies below an alive child of the root: such a
/// branch can still be reached from the root, and it is as it was.
pub proof fn lemma_pruned_keeps_alive(t: TrieView, side: Side, x: int)
    requires
        t.wf(),
        t.child(0, side) is Some,
        t.alive(t.child(0, side)->Some_0.0 as int),
        t.in_subtree(t.child(0, side)->Some_0.0 as int, x),
    ensures
        t.pruned_below(0).in_subtree(0, x),
        t.pruned_below(0).branches[x] == t.branches[x],
{
    let u = t.pruned_below(0);
    let c = t.child(0, side)->Some_0.0 as int;
    lemma_pruned_below_wf(t, 0);
    assert(t.in_subtree(0, 0));
    lemma_child_in_subtree(t, 0, side);
    lemma_pruned_keeps_below_alive(t, c, x);
    assert(u.branches[0] == t.pruned_branch(0));
    assert(u.child(0, Side::Left) == u.branches[0].left);
    assert(u.child(0, Side::Right) == u.branches[0].right);
    assert(t.child(0, Side::Left) == t.branches[0].left);
    assert(t.child(0, Side::Right) == t.branches[0].right);
    assert(u.child(0, side) == t.child(0, side));
    lemma_subtree_trans(t, 0, c, x);
    lemma_subtree_bounds(t, 0, x);
    lemma_alive_intact(t, c, x);
    assert(u.branches[x] == t.pruned_branch(x));
}

} // verus!
