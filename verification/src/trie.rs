use vstd::prelude::*;

verus! {

/// The id of a path of the whole network.
#[derive(Clone, Copy, Debug, PartialEq, Eq, Structural)]
pub struct PathId(pub usize);

/// The id of a branch in the trie of one label.
#[derive(Clone, Copy, Debug, PartialEq, Eq, Structural)]
pub struct BranchId(pub usize);

/// The id of an edge between two branches in the trie of one label.
#[derive(Clone, Copy, Debug, PartialEq, Eq, Structural)]
pub struct AgentPathId(pub usize);

/// A node of a trie: the children on both sides, and the edges that end here.
#[derive(Debug, PartialEq, Eq)]
pub struct Branch {
    pub left: Option<BranchId>,
    pub right: Option<BranchId>,
    pub paths: Vec<AgentPathId>,
}

/// An edge between two branches of one trie, with the paths of the whole network
/// that run over it.
#[derive(Debug, PartialEq, Eq)]
pub struct AgentPath {
    pub b1: BranchId,
    pub b2: BranchId,
    pub paths: Vec<PathId>,
}

/// The trie of one label and the edges between its branches.
#[derive(Debug, PartialEq, Eq)]
pub struct AgentPNet {
    pub branches: Vec<Branch>,
    pub root: BranchId,
    pub paths: Vec<AgentPath>,
}

/// The mathematical content of a [`Branch`].
pub struct BranchView {
    pub left: Option<BranchId>,
    pub right: Option<BranchId>,
    pub paths: Seq<AgentPathId>,
}

/// The mathematical content of an [`AgentPath`].
pub struct AgentPathView {
    pub b1: BranchId,
    pub b2: BranchId,
    pub paths: Seq<PathId>,
}

/// The mathematical content of an [`AgentPNet`].
pub struct TrieView {
    pub branches: Seq<BranchView>,
    pub root: BranchId,
    pub paths: Seq<AgentPathView>,
}

impl View for Branch {
    type V = BranchView;

    open spec fn view(&self) -> BranchView {
        BranchView { left: self.left, right: self.right, paths: self.paths@ }
    }
}

impl View for AgentPath {
    type V = AgentPathView;

    open spec fn view(&self) -> AgentPathView {
        AgentPathView { b1: self.b1, b2: self.b2, paths: self.paths@ }
    }
}

impl View for AgentPNet {
    type V = TrieView;

    open spec fn view(&self) -> TrieView {
        TrieView {
            branches: Seq::new(self.branches@.len(), |i: int| self.branches@[i]@),
            root: self.root,
            paths: Seq::new(self.paths@.len(), |i: int| self.paths@[i]@),
        }
    }
}

/// One of the two sides of a branch.
#[derive(Clone, Copy, Debug, PartialEq, Eq, Structural)]
pub enum Side {
    Left,
    Right,
}

impl BranchView {
    /// A branch without children and without edges.
    pub open spec fn empty() -> BranchView {
        BranchView { left: None, right: None, paths: Seq::empty() }
    }

    /// The child on the side `side`.
    pub open spec fn child(self, side: Side) -> Option<BranchId> {
        match side {
            Side::Left => self.left,
            Side::Right => self.right,
        }
    }

    /// This branch with `child` on the side `side`.
    pub open spec fn with_child(self, side: Side, child: Option<BranchId>) -> BranchView {
        match side {
            Side::Left => BranchView { left: child, ..self },
            Side::Right => BranchView { right: child, ..self },
        }
    }
}

impl AgentPathView {
    /// Whether the edge runs between `b1` and `b2`, in either direction.
    pub open spec fn connects(self, b1: BranchId, b2: BranchId) -> bool {
        (self.b1 == b1 && self.b2 == b2) || (self.b1 == b2 && self.b2 == b1)
    }
}

impl TrieView {
    /// The trie with the root alone.
    pub open spec fn single() -> TrieView {
        TrieView { branches: seq![BranchView::empty()], root: BranchId(0), paths: Seq::empty() }
    }

    /// Whether `b` is a branch of the trie.
    pub open spec fn has_branch(self, b: BranchId) -> bool {
        b.0 < self.branches.len()
    }

    /// The child of the branch `b` on the side `side`.
    pub open spec fn child(self, b: int, side: Side) -> Option<BranchId> {
        self.branches[b].child(side)
    }

    /// The branches form a tree below the root: the root is the first branch, a child
    /// comes after its parent, and no branch is the child of two branches or on two
    /// sides.
    pub open spec fn tree(self) -> bool {
        &&& 1 <= self.branches.len() <= usize::MAX
        &&& self.root == BranchId(0)
        &&& forall|b: int, side: Side|
            0 <= b < self.branches.len() ==> (#[trigger] self.child(b, side) matches Some(c) ==> b
                < c.0 < self.branches.len())
        &&& forall|b1: int, s1: Side, b2: int, s2: Side|
            0 <= b1 < self.branches.len() && 0 <= b2 < self.branches.len() && (#[trigger] self.child(
                b1,
                s1,
            )) is Some && self.child(b1, s1) == #[trigger] self.child(b2, s2) ==> b1 == b2 && s1
                == s2
    }

    /// The edges and the branches agree: an edge is listed at both of its ends, a
    /// branch lists only edges that end at it, and no two edges run between the
    /// same two branches.
    pub open spec fn linked(self) -> bool {
        &&& self.paths.len() <= usize::MAX
        &&& forall|k: int|
            0 <= k < self.paths.len() ==> {
                let e = #[trigger] self.paths[k];
                &&& self.has_branch(e.b1)
                &&& self.has_branch(e.b2)
                &&& self.branches[e.b1.0 as int].paths.contains(AgentPathId(k as usize))
                &&& self.branches[e.b2.0 as int].paths.contains(AgentPathId(k as usize))
            }
        &&& forall|b: int, i: int|
            0 <= b < self.branches.len() && 0 <= i < self.branches[b].paths.len() ==> {
                let k = #[trigger] self.branches[b].paths[i];
                &&& k.0 < self.paths.len()
                &&& (self.paths[k.0 as int].b1 == BranchId(b as usize) || self.paths[k.0 as int].b2
                    == BranchId(b as usize))
            }
        &&& forall|j: int, k: int|
            0 <= j < self.paths.len() && 0 <= k < self.paths.len() && (#[trigger] self.paths[j]).connects(
                (#[trigger] self.paths[k]).b1,
                self.paths[k].b2,
            ) ==> j == k
    }

    /// The invariant of a trie.
    pub open spec fn wf(self) -> bool {
        self.tree() && self.linked()
    }

    /// The trie after the branch `parent` was asked for its child on the side
    /// `side`, and that child: the child that is there, or else a new branch at the
    /// end, which becomes the child.
    pub open spec fn with_child(self, parent: BranchId, side: Side) -> (TrieView, BranchId) {
        match self.child(parent.0 as int, side) {
            Some(c) => (self, c),
            None => {
                let c = BranchId(self.branches.len() as usize);
                (
                    TrieView {
                        branches: self.branches.update(
                            parent.0 as int,
                            self.branches[parent.0 as int].with_child(side, Some(c)),
                        ).push(BranchView::empty()),
                        ..self
                    },
                    c,
                )
            },
        }
    }

    /// The edge between `b1` and `b2`, in either direction, if there is one.
    pub open spec fn edge_between(self, b1: BranchId, b2: BranchId) -> Option<AgentPathId> {
        if exists|k: int| 0 <= k < self.paths.len() && (#[trigger] self.paths[k]).connects(b1, b2) {
            let k = choose|k: int|
                0 <= k < self.paths.len() && (#[trigger] self.paths[k]).connects(b1, b2);
            Some(AgentPathId(k as usize))
        } else {
            None
        }
    }

    /// The trie after an edge between `b1` and `b2` was asked for, and that edge:
    /// the edge that is there, or else a new edge at the end, which both branches
    /// then list.
    pub open spec fn with_edge(self, b1: BranchId, b2: BranchId) -> (TrieView, AgentPathId) {
        match self.edge_between(b1, b2) {
            Some(k) => (self, k),
            None => {
                let k = AgentPathId(self.paths.len() as usize);
                let listed = self.branches.update(
                    b1.0 as int,
                    BranchView {
                        paths: self.branches[b1.0 as int].paths.push(k),
                        ..self.branches[b1.0 as int]
                    },
                );
                (
                    TrieView {
                        branches: listed.update(
                            b2.0 as int,
                            BranchView {
                                paths: listed[b2.0 as int].paths.push(k),
                                ..listed[b2.0 as int]
                            },
                        ),
                        paths: self.paths.push(AgentPathView { b1, b2, paths: Seq::empty() }),
                        ..self
                    },
                    k,
                )
            },
        }
    }
}

impl Default for Branch {
    fn default() -> (b: Branch)
        ensures
            b@ == BranchView::empty(),
    {
        Branch { left: None, right: None, paths: Vec::new() }
    }
}

impl Default for AgentPNet {
    fn default() -> (t: AgentPNet)
        ensures
            t@ == TrieView::single(),
            t@.wf(),
    {
        let mut branches: Vec<Branch> = Vec::new();
        branches.push(Branch::default());
        let t = AgentPNet { branches, root: BranchId(0), paths: Vec::new() };
        assert(t@.branches =~= seq![BranchView::empty()]);
        assert(t@.paths =~= Seq::empty());
        t
    }
}

impl AgentPNet {
    /// The branch with the id `id`.
    pub fn branch(&self, id: &BranchId) -> (b: &Branch)
        requires
            self@.has_branch(*id),
        ensures
            b@ == self@.branches[id.0 as int],
    {
        &self.branches[id.0]
    }

    /// The edge with the id `agent_path_id`.
    pub fn path(&self, agent_path_id: AgentPathId) -> (e: &AgentPath)
        requires
            agent_path_id.0 < self@.paths.len(),
        ensures
            e@ == self@.paths[agent_path_id.0 as int],
    {
        &self.paths[agent_path_id.0]
    }

    /// The branch with the id `id`, to be changed in place.
    pub fn branch_mut(&mut self, id: &BranchId) -> (b: &mut Branch)
        requires
            old(self)@.has_branch(*id),
        ensures
            b@ == old(self)@.branches[id.0 as int],
            final(self)@.branches =~= old(self)@.branches.update(id.0 as int, final(b)@),
            final(self)@.paths =~= old(self)@.paths,
            final(self)@.root == old(self)@.root,
    {
        &mut self.branches[id.0]
    }

    /// The edge with the id `agent_path_id`, to be changed in place.
    pub fn path_mut(&mut self, agent_path_id: AgentPathId) -> (e: &mut AgentPath)
        requires
            agent_path_id.0 < old(self)@.paths.len(),
        ensures
            e@ == old(self)@.paths[agent_path_id.0 as int],
            final(self)@.paths =~= old(self)@.paths.update(agent_path_id.0 as int, final(e)@),
            final(self)@.branches =~= old(self)@.branches,
            final(self)@.root == old(self)@.root,
    {
        &mut self.paths[agent_path_id.0]
    }

    /// The left child of the branch `parent_id`, created if there is none yet.
    pub fn add_left(&mut self, parent_id: BranchId) -> (id: BranchId)
        requires
            old(self)@.wf(),
            old(self)@.has_branch(parent_id),
        ensures
            (final(self)@, id) == old(self)@.with_child(parent_id, Side::Left),
            final(self)@.wf(),
    {
        let found = self.branches[parent_id.0].left;
        match found {
            Some(id) => id,
            None => {
                let id = BranchId(self.branches.len());
                self.branches[parent_id.0].left = Some(id);
                self.branches.push(Branch::default());
                let count = self.branches.len();
                proof {
                    assert(self@.branches.len() == count);
                    let expected = old(self)@.with_child(parent_id, Side::Left).0;
                    assert(self@.branches =~= expected.branches);
                    assert(self@.paths =~= expected.paths);
                    lemma_with_child_wf(old(self)@, parent_id, Side::Left);
                }
                id
            },
        }
    }

    /// The right child of the branch `parent_id`, created if there is none yet.
    pub fn add_right(&mut self, parent_id: BranchId) -> (id: BranchId)
        requires
            old(self)@.wf(),
            old(self)@.has_branch(parent_id),
        ensures
            (final(self)@, id) == old(self)@.with_child(parent_id, Side::Right),
            final(self)@.wf(),
    {
        let found = self.branches[parent_id.0].right;
        match found {
            Some(id) => id,
            None => {
                let id = BranchId(self.branches.len());
                self.branches[parent_id.0].right = Some(id);
                self.branches.push(Branch::default());
                let count = self.branches.len();
                proof {
                    assert(self@.branches.len() == count);
                    let expected = old(self)@.with_child(parent_id, Side::Right).0;
                    assert(self@.branches =~= expected.branches);
                    assert(self@.paths =~= expected.paths);
                    lemma_with_child_wf(old(self)@, parent_id, Side::Right);
                }
                id
            },
        }
    }
}

impl AgentPNet {
    /// The edge between the branches `b1_id` and `b2_id`, in either direction, if
    /// there is one.
    pub fn get_path(&self, b1_id: BranchId, b2_id: BranchId) -> (r: Option<AgentPathId>)
        requires
            self@.wf(),
            self@.has_branch(b1_id),
            self@.has_branch(b2_id),
        ensures
            r == self@.edge_between(b1_id, b2_id),
    {
        let b1 = self.branch(&b1_id);
        let n = b1.paths.len();
        let mut i: usize = 0;
        while i < n
            invariant
                i <= n,
                n == b1.paths@.len(),
                self@.wf(),
                self@.has_branch(b1_id),
                b1@ == self@.branches[b1_id.0 as int],
                forall|j: int|
                    0 <= j < i ==> !self@.paths[(#[trigger] b1.paths@[j]).0 as int].connects(
                        b1_id,
                        b2_id,
                    ),
            decreases n - i,
        {
            let id = b1.paths[i];
            assert(id == self@.branches[b1_id.0 as int].paths[i as int]);
            let e = self.path(id);
            if (e.b1 == b1_id && e.b2 == b2_id) || (e.b1 == b2_id && e.b2 == b1_id) {
                proof {
                    lemma_edge_between_found(self@, b1_id, b2_id, id);
                }
                return Some(id);
            }
            i = i + 1;
        }
        proof {
            assert forall|k: int| 0 <= k < self@.paths.len() implies !(#[trigger] self@.paths[k]).connects(
                b1_id,
                b2_id,
            ) by {
                if self@.paths[k].connects(b1_id, b2_id) {
                    let listed = self@.branches[b1_id.0 as int].paths;
                    assert(listed.contains(AgentPathId(k as usize)));
                    let j = choose|j: int| 0 <= j < listed.len() && listed[j] == AgentPathId(k as usize);
                    assert(b1.paths@[j] == AgentPathId(k as usize));
                }
            }
        }
        None
    }

    /// The edge between the branches `b1_id` and `b2_id`: the one that is there, in
    /// either direction, or else a new one.
    pub fn add_path(&mut self, b1_id: BranchId, b2_id: BranchId) -> (id: AgentPathId)
        requires
            old(self)@.wf(),
            old(self)@.has_branch(b1_id),
            old(self)@.has_branch(b2_id),
        ensures
            (final(self)@, id) == old(self)@.with_edge(b1_id, b2_id),
            final(self)@.wf(),
    {
        match self.get_path(b1_id, b2_id) {
            Some(path_id) => path_id,
            None => {
                let id = AgentPathId(self.paths.len());
                self.paths.push(AgentPath { b1: b1_id, b2: b2_id, paths: Vec::new() });
                let count = self.paths.len();
                self.branches[b1_id.0].paths.push(id);
                self.branches[b2_id.0].paths.push(id);
                proof {
                    assert(self@.paths.len() == count);
                    let expected = old(self)@.with_edge(b1_id, b2_id).0;
                    assert(self@.branches =~= expected.branches);
                    assert(self@.paths =~= expected.paths);
                    lemma_with_edge_wf(old(self)@, b1_id, b2_id);
                }
                id
            },
        }
    }
}

/// An edge that runs between two branches is the edge between them: there is no
/// other.
pub proof fn lemma_edge_between_found(t: TrieView, b1: BranchId, b2: BranchId, k: AgentPathId)
    requires
        t.linked(),
        k.0 < t.paths.len(),
        t.paths[k.0 as int].connects(b1, b2),
    ensures
        t.edge_between(b1, b2) == Some(k),
{
    let j = choose|j: int| 0 <= j < t.paths.len() && (#[trigger] t.paths[j]).connects(b1, b2);
    assert(t.paths[j].connects(t.paths[k.0 as int].b1, t.paths[k.0 as int].b2));
}

/// Asking for an edge keeps the invariant of the trie and its branches' children.
pub proof fn lemma_with_edge_wf(t: TrieView, b1: BranchId, b2: BranchId)
    requires
        t.wf(),
        t.has_branch(b1),
        t.has_branch(b2),
        t.with_edge(b1, b2).0.paths.len() <= usize::MAX,
    ensures
        t.with_edge(b1, b2).0.wf(),
        t.with_edge(b1, b2).1.0 < t.with_edge(b1, b2).0.paths.len(),
        t.with_edge(b1, b2).0.paths[t.with_edge(b1, b2).1.0 as int].connects(b1, b2),
        t.with_edge(b1, b2).0.branches.len() == t.branches.len(),
        t.with_edge(b1, b2).0.paths.len() >= t.paths.len(),
        forall|b: int, side: Side|
            0 <= b < t.branches.len() ==> #[trigger] t.with_edge(b1, b2).0.child(b, side)
                == t.child(b, side),
{
    let (t1, id) = t.with_edge(b1, b2);
    if t.edge_between(b1, b2) is None {
        let k = t.paths.len() as int;
        let listed = t.branches.update(
            b1.0 as int,
            BranchView { paths: t.branches[b1.0 as int].paths.push(id), ..t.branches[b1.0 as int] },
        );
        assert forall|b: int| 0 <= b < t.branches.len() implies (forall|i: int|
            0 <= i < t.branches[b].paths.len() ==> #[trigger] t1.branches[b].paths[i]
                == t.branches[b].paths[i]) && t1.branches[b].paths.len() >= t.branches[b].paths.len()
            && t1.branches[b].left == t.branches[b].left && t1.branches[b].right
            == t.branches[b].right && (forall|i: int|
            t.branches[b].paths.len() <= i < t1.branches[b].paths.len()
                ==> #[trigger] t1.branches[b].paths[i] == id && (b == b1.0 || b == b2.0)) by {}
        assert forall|b: int, side: Side| 0 <= b < t.branches.len() implies #[trigger] t1.child(
            b,
            side,
        ) == t.child(b, side) by {}
        assert(t1.tree()) by {
            assert forall|x1: int, s1: Side, x2: int, s2: Side|
                0 <= x1 < t1.branches.len() && 0 <= x2 < t1.branches.len() && (#[trigger] t1.child(
                    x1,
                    s1,
                )) is Some && t1.child(x1, s1) == #[trigger] t1.child(x2, s2) implies x1 == x2
                && s1 == s2 by {
                assert(t1.child(x1, s1) == t.child(x1, s1));
                assert(t1.child(x2, s2) == t.child(x2, s2));
            }
            assert forall|b: int, s: Side| 0 <= b < t1.branches.len() implies (#[trigger] t1.child(
                b,
                s,
            ) matches Some(x) ==> b < x.0 < t1.branches.len()) by {
                assert(t1.child(b, s) == t.child(b, s));
            }
        }
        assert forall|j: int| 0 <= j < t1.paths.len() implies {
            let e = #[trigger] t1.paths[j];
            &&& t1.has_branch(e.b1)
            &&& t1.has_branch(e.b2)
            &&& t1.branches[e.b1.0 as int].paths.contains(AgentPathId(j as usize))
            &&& t1.branches[e.b2.0 as int].paths.contains(AgentPathId(j as usize))
        } by {
            if j < k {
                let e = t.paths[j];
                let l1 = t.branches[e.b1.0 as int].paths;
                let i1 = choose|i: int| 0 <= i < l1.len() && l1[i] == AgentPathId(j as usize);
                assert(t1.branches[e.b1.0 as int].paths[i1] == AgentPathId(j as usize));
                let l2 = t.branches[e.b2.0 as int].paths;
                let i2 = choose|i: int| 0 <= i < l2.len() && l2[i] == AgentPathId(j as usize);
                assert(t1.branches[e.b2.0 as int].paths[i2] == AgentPathId(j as usize));
            } else {
                let p1 = listed[b1.0 as int].paths;
                assert(p1[p1.len() - 1] == id);
                let q1 = t1.branches[b1.0 as int].paths;
                assert(q1[p1.len() - 1] == id);
                let q2 = t1.branches[b2.0 as int].paths;
                assert(q2[q2.len() - 1] == id);
            }
        }
        assert forall|b: int, i: int|
            0 <= b < t1.branches.len() && 0 <= i < t1.branches[b].paths.len() implies {
            let x = #[trigger] t1.branches[b].paths[i];
            &&& x.0 < t1.paths.len()
            &&& (t1.paths[x.0 as int].b1 == BranchId(b as usize) || t1.paths[x.0 as int].b2
                == BranchId(b as usize))
        } by {
            if i < t.branches[b].paths.len() {
                let x = t.branches[b].paths[i];
                assert(t1.branches[b].paths[i] == x);
            }
        }
        assert forall|j: int, x: int|
            0 <= j < t1.paths.len() && 0 <= x < t1.paths.len() && (#[trigger] t1.paths[j]).connects(
                (#[trigger] t1.paths[x]).b1,
                t1.paths[x].b2,
            ) implies j == x by {
            if j < k && x < k {
                assert(t.paths[j].connects(t.paths[x].b1, t.paths[x].b2));
            } else if j < k {
                assert(t.paths[j].connects(b1, b2));
            } else if x < k {
                assert(t.paths[x].connects(b1, b2));
            }
        }
    } else {
        let j = choose|j: int| 0 <= j < t.paths.len() && (#[trigger] t.paths[j]).connects(b1, b2);
    }
}

/// Asking a branch for a child keeps the invariant of the trie, and keeps every
/// branch that was there.
pub proof fn lemma_with_child_wf(t: TrieView, parent: BranchId, side: Side)
    requires
        t.wf(),
        t.has_branch(parent),
        t.with_child(parent, side).0.branches.len() <= usize::MAX,
    ensures
        t.with_child(parent, side).0.wf(),
        t.with_child(parent, side).0.has_branch(t.with_child(parent, side).1),
        t.with_child(parent, side).0.branches.len() >= t.branches.len(),
{
    let (t1, c) = t.with_child(parent, side);
    if t.child(parent.0 as int, side) is None {
        assert forall|b: int, s: Side| 0 <= b < t1.branches.len() implies (#[trigger] t1.child(
            b,
            s,
        ) matches Some(x) ==> b < x.0 < t1.branches.len()) by {
            if b < t.branches.len() && !(b == parent.0 && s == side) {
                assert(t1.child(b, s) == t.child(b, s));
            }
        }
        assert forall|b1: int, s1: Side, b2: int, s2: Side|
            0 <= b1 < t1.branches.len() && 0 <= b2 < t1.branches.len() && (#[trigger] t1.child(
                b1,
                s1,
            )) is Some && t1.child(b1, s1) == #[trigger] t1.child(b2, s2) implies b1 == b2 && s1
            == s2 by {
            if b1 < t.branches.len() && !(b1 == parent.0 && s1 == side) {
                assert(t1.child(b1, s1) == t.child(b1, s1));
            }
            if b2 < t.branches.len() && !(b2 == parent.0 && s2 == side) {
                assert(t1.child(b2, s2) == t.child(b2, s2));
            }
        }
        assert forall|k: int| 0 <= k < t1.paths.len() implies {
            let e = #[trigger] t1.paths[k];
            &&& t1.has_branch(e.b1)
            &&& t1.has_branch(e.b2)
            &&& t1.branches[e.b1.0 as int].paths.contains(AgentPathId(k as usize))
            &&& t1.branches[e.b2.0 as int].paths.contains(AgentPathId(k as usize))
        } by {
            let e = t.paths[k];
            assert(t1.branches[e.b1.0 as int].paths == t.branches[e.b1.0 as int].paths);
            assert(t1.branches[e.b2.0 as int].paths == t.branches[e.b2.0 as int].paths);
        }
        assert forall|b: int, i: int|
            0 <= b < t1.branches.len() && 0 <= i < t1.branches[b].paths.len() implies {
            let k = #[trigger] t1.branches[b].paths[i];
            &&& k.0 < t1.paths.len()
            &&& (t1.paths[k.0 as int].b1 == BranchId(b as usize) || t1.paths[k.0 as int].b2
                == BranchId(b as usize))
        } by {
            assert(b < t.branches.len());
            assert(t1.branches[b].paths == t.branches[b].paths);
            let k = t.branches[b].paths[i];
        }
    }
}

/// Asking twice for the edge between the same two branches, in either direction,
/// gives the same edge both times, and the second time changes nothing: no second
/// edge is made.
pub proof fn lemma_with_edge_twice(t: TrieView, b1: BranchId, b2: BranchId)
    requires
        t.wf(),
        t.has_branch(b1),
        t.has_branch(b2),
        t.paths.len() < usize::MAX,
    ensures
        t.with_edge(b1, b2).0.with_edge(b1, b2) == t.with_edge(b1, b2),
        t.with_edge(b1, b2).0.with_edge(b2, b1) == t.with_edge(b1, b2),
{
    lemma_with_edge_wf(t, b1, b2);
    let (t1, k) = t.with_edge(b1, b2);
    lemma_edge_between_found(t1, b1, b2, k);
    lemma_edge_between_found(t1, b2, b1, k);
}

} // verus!
