use crate::error::Error;
use crate::inet::{AuxPort, INet, NetView, Node, Port};
use crate::trie::{
    lemma_with_child_wf, lemma_with_edge_wf, AgentPNet, AgentPathId, AgentPathView, BranchId, PathId,
    Side, TrieView,
};
use crate::labels::lemma_label_bound;
use crate::port_map::PortMap;
use crate::prune::lemma_pruned_below_wf;
use vstd::prelude::*;

verus! {

/// One path of the whole network: for each label, the edge in that label's trie.
#[derive(Debug, PartialEq, Eq)]
pub struct Path<const N: usize> {
    pub agents: Vec<AgentPathId>,
}

/// The path network for `N` labels: one trie per label, and the paths that run
/// through all of them.
#[derive(Debug, PartialEq, Eq)]
pub struct PNet<const N: usize> {
    agents: Vec<AgentPNet>,
    paths: Vec<Path<N>>,
}

/// The mathematical content of a [`PNet`].
pub struct PNetView {
    pub agents: Seq<TrieView>,
    pub paths: Seq<Seq<AgentPathId>>,
}

impl<const N: usize> View for Path<N> {
    type V = Seq<AgentPathId>;

    open spec fn view(&self) -> Seq<AgentPathId> {
        self.agents@
    }
}

impl<const N: usize> View for PNet<N> {
    type V = PNetView;

    closed spec fn view(&self) -> PNetView {
        PNetView {
            agents: Seq::new(self.agents@.len(), |i: int| self.agents@[i]@),
            paths: Seq::new(self.paths@.len(), |i: int| self.paths@[i]@),
        }
    }
}

impl TrieView {
    /// The trie in which the edge `k` lists one more path of the whole network.
    pub open spec fn with_use(self, k: AgentPathId, path: PathId) -> TrieView {
        TrieView {
            paths: self.paths.update(
                k.0 as int,
                AgentPathView {
                    paths: self.paths[k.0 as int].paths.push(path),
                    ..self.paths[k.0 as int]
                },
            ),
            ..self
        }
    }
}

impl PNetView {
    /// One trie with the root alone for each of `n` labels, and no path.
    pub open spec fn initial(n: nat) -> PNetView {
        PNetView { agents: Seq::new(n, |i: int| TrieView::single()), paths: Seq::empty() }
    }

    /// The tries and the paths agree: every path names one edge of each trie, and
    /// an edge lists exactly the paths that name it, each once.
    pub open spec fn wf(self, n: nat) -> bool {
        &&& self.agents.len() == n
        &&& self.paths.len() <= usize::MAX
        &&& forall|i: int| 0 <= i < n ==> (#[trigger] self.agents[i]).wf()
        &&& forall|p: int| 0 <= p < self.paths.len() ==> (#[trigger] self.paths[p]).len() == n
        &&& forall|p: int, i: int|
            0 <= p < self.paths.len() && 0 <= i < n ==> (#[trigger] self.paths[p][i]).0
                < self.agents[i].paths.len()
        &&& forall|i: int, k: int|
            0 <= i < n && 0 <= k < self.agents[i].paths.len() ==> (
            #[trigger] self.agents[i].paths[k]).paths.no_duplicates()
        &&& forall|i: int, k: int, path: PathId|
            0 <= i < n && 0 <= k < self.agents[i].paths.len() ==> (#[trigger] self.agents[i].paths[k].paths.contains(
                path,
            ) <==> path.0 < self.paths.len() && self.paths[path.0 as int][i] == AgentPathId(
                k as usize,
            ))
    }

    /// Whether `v` holds one branch of each trie.
    pub open spec fn positions(self, v: Seq<BranchId>) -> bool {
        &&& v.len() == self.agents.len()
        &&& forall|i: int| 0 <= i < v.len() ==> self.agents[i].has_branch(#[trigger] v[i])
    }

    /// Whether every trie has at least the branches that it has in `before`.
    pub open spec fn covers(self, before: PNetView) -> bool {
        &&& self.agents.len() == before.agents.len()
        &&& forall|i: int|
            0 <= i < self.agents.len() ==> (#[trigger] self.agents[i]).branches.len()
                >= before.agents[i].branches.len()
    }

    /// The edge that the label `i` gets when the positions `mine` and `other` are
    /// joined.
    pub open spec fn joined_edge(self, mine: Seq<BranchId>, other: Seq<BranchId>, i: int) -> AgentPathId {
        self.agents[i].with_edge(mine[i], other[i]).1
    }

    /// The network after the two ends of a wire, met at the positions `mine` and
    /// `other`, were joined: each label gets the edge between its two branches, the
    /// edges of all labels make one new path, and each of these edges lists it.
    pub open spec fn joined(self, mine: Seq<BranchId>, other: Seq<BranchId>) -> PNetView {
        let path = PathId(self.paths.len() as usize);
        PNetView {
            agents: Seq::new(
                self.agents.len(),
                |i: int|
                    self.agents[i].with_edge(mine[i], other[i]).0.with_use(
                        self.joined_edge(mine, other, i),
                        path,
                    ),
            ),
            paths: self.paths.push(
                Seq::new(self.agents.len(), |i: int| self.joined_edge(mine, other, i)),
            ),
        }
    }

    /// The network in which the trie of `label` was asked for both children of the
    /// branch `parent`, and the two children.
    pub open spec fn with_children(self, label: int, parent: BranchId) -> (PNetView, BranchId, BranchId) {
        let (t1, left) = self.agents[label].with_child(parent, Side::Left);
        let (t2, right) = t1.with_child(parent, Side::Right);
        (PNetView { agents: self.agents.update(label, t2), ..self }, left, right)
    }
}

/// What a walk over a net has done so far: the path network, and for each wire end
/// that waits for its other end the positions at which it was met.
pub struct WalkState {
    pub net: PNetView,
    pub pending: Map<AuxPort, Seq<BranchId>>,
}

impl WalkState {
    /// The invariant of a walk for `n` labels.
    pub open spec fn wf(self, n: nat) -> bool {
        &&& self.net.wf(n)
        &&& forall|p: AuxPort|
            self.pending.contains_key(p) ==> self.net.positions(#[trigger] self.pending[p])
    }
}

/// The state after the walk from `port`, which came to it at the positions
/// `parents`.
///
/// At the principal port of an eraser the walk ends. At that of an agent, the trie
/// of the agent's label is asked for both children of the branch at which the walk
/// stands for that label; the walk goes on below the left slot with the left child
/// in place of that branch, then below the right slot with the right child. A
/// label without a trie is an error. An auxiliary port that was recorded is joined
/// with the positions recorded for it. One that was not is recorded with
/// `parents`, and so is the port that its slot holds; a slot that holds a
/// principal port there is an error.
pub open spec fn walk(inet: NetView, port: Port, parents: Seq<BranchId>, st: WalkState) -> Result<
    WalkState,
    Error,
>
    decreases inet.rank(port),
    when inet.forward()
{
    match port {
        Port::Principal(n) => if n < inet.nodes.len() {
            match inet.nodes[n as int] {
                Node::Era(_) => Ok(st),
                Node::Agent(agent) => if agent.label < st.net.agents.len() {
                    let label = agent.label as int;
                    let (net1, left, right) = st.net.with_children(label, parents[label]);
                    match walk(
                        inet,
                        agent.left,
                        parents.update(label, left),
                        WalkState { net: net1, ..st },
                    ) {
                        Err(e) => Err(e),
                        Ok(st1) => walk(inet, agent.right, parents.update(label, right), st1),
                    }
                } else {
                    Err(Error::IndexOutOfRange)
                },
            }
        } else {
            Err(Error::IndexOutOfRange)
        },
        Port::Aux(end) => if st.pending.contains_key(end) {
            Ok(WalkState { net: st.net.joined(parents, st.pending[end]), ..st })
        } else {
            match inet.read_aux(end) {
                Err(e) => Err(e),
                Ok(Port::Principal(_)) => Err(Error::InvariantViolation),
                Ok(Port::Aux(other)) => Ok(
                    WalkState {
                        pending: st.pending.insert(end, parents).insert(other, parents),
                        ..st
                    },
                ),
            }
        },
    }
}

/// The positions at which every walk starts: the root of each of `n` tries.
pub open spec fn roots(n: nat) -> Seq<BranchId> {
    Seq::new(n, |i: int| BranchId(0))
}

/// The state after the walks from the first `k` free ports, in order, for `n`
/// labels; the first error where one of them fails.
pub open spec fn walk_prefix(inet: NetView, n: nat, k: nat) -> Result<WalkState, Error>
    decreases k,
{
    if k == 0 {
        Ok(WalkState { net: PNetView::initial(n), pending: Map::empty() })
    } else {
        match walk_prefix(inet, n, (k - 1) as nat) {
            Err(e) => Err(e),
            Ok(st) => walk(inet, inet.free_ports[k - 1], roots(n), st),
        }
    }
}

/// The path network of a net, for `n` labels.
pub open spec fn walk_all(inet: NetView, n: nat) -> Result<PNetView, Error> {
    match walk_prefix(inet, n, inet.free_ports.len()) {
        Ok(st) => Ok(st.net),
        Err(e) => Err(e),
    }
}

/// An error met in the walks from a prefix of the free ports is the error of every
/// longer prefix.
pub proof fn lemma_walk_prefix_err(inet: NetView, n: nat, k: nat, m: nat)
    requires
        k <= m,
        walk_prefix(inet, n, k) is Err,
    ensures
        walk_prefix(inet, n, m) == walk_prefix(inet, n, k),
    decreases m,
{
    if k < m {
        lemma_walk_prefix_err(inet, n, k, (m - 1) as nat);
    }
}

/// The state made of a path network and a table of recorded positions.
pub open spec fn walk_state(net: PNetView, table: Map<AuxPort, Vec<BranchId>>) -> WalkState {
    WalkState {
        net,
        pending: Map::new(|p: AuxPort| table.contains_key(p), |p: AuxPort| table[p]@),
    }
}

/// Whether the outcome `r`, with the state `after` left behind, is what `expected`
/// asks for: the same error, or success with exactly the expected state.
pub open spec fn walked(expected: Result<WalkState, Error>, r: Result<(), Error>, after: WalkState) -> bool {
    match expected {
        Ok(st) => r is Ok && after == st,
        Err(e) => r == Err::<(), Error>(e),
    }
}

/// Whether `r` is the outcome `expected`: the same error, or a network with
/// exactly the expected content.
pub open spec fn walked_all<const N: usize>(
    expected: Result<PNetView, Error>,
    r: Result<PNet<N>, Error>,
) -> bool {
    match r {
        Ok(net) => expected == Ok::<PNetView, Error>(net@) && net@.wf(N as nat),
        Err(e) => expected == Err::<PNetView, Error>(e),
    }
}

/// A copy of `v` with `b` at the index `i`.
pub fn replaced(v: &Vec<BranchId>, i: usize, b: BranchId) -> (r: Vec<BranchId>)
    requires
        i < v@.len(),
    ensures
        r@ == v@.update(i as int, b),
{
    let mut r: Vec<BranchId> = Vec::new();
    let mut j: usize = 0;
    while j < v.len()
        invariant
            j <= v@.len(),
            i < v@.len(),
            r@.len() == j,
            forall|x: int| 0 <= x < j ==> r@[x] == v@.update(i as int, b)[x],
        decreases v@.len() - j,
    {
        if j == i {
            r.push(b);
        } else {
            r.push(v[j]);
        }
        j = j + 1;
    }
    assert(r@ =~= v@.update(i as int, b));
    r
}

impl<const N: usize> Default for PNet<N> {
    fn default() -> (net: PNet<N>)
        ensures
            net@ == PNetView::initial(N as nat),
            net@.wf(N as nat),
    {
        let mut agents: Vec<AgentPNet> = Vec::new();
        let mut i: usize = 0;
        while i < N
            invariant
                i <= N,
                agents@.len() == i,
                forall|j: int| 0 <= j < i ==> (#[trigger] agents@[j])@ == TrieView::single(),
            decreases N - i,
        {
            agents.push(AgentPNet::default());
            i = i + 1;
        }
        let net = PNet { agents, paths: Vec::new() };
        proof {
            assert(net@.agents =~= PNetView::initial(N as nat).agents);
            assert(net@.paths =~= PNetView::initial(N as nat).paths);
            lemma_initial_wf(N as nat);
        }
        net
    }
}

impl<const N: usize> PNet<N> {
    /// The invariant of the network.
    pub open spec fn wf(&self) -> bool {
        self@.wf(N as nat)
    }

    /// Adds the path that is made of the edges `agent_paths`, one per label, and
    /// returns its id. The edges do not list it yet.
    pub fn add_path(&mut self, agent_paths: Vec<AgentPathId>) -> (id: PathId)
        ensures
            id == PathId(old(self)@.paths.len() as usize),
            final(self)@.agents == old(self)@.agents,
            final(self)@.paths == old(self)@.paths.push(agent_paths@),
    {
        let id = PathId(self.paths.len());
        self.paths.push(Path { agents: agent_paths });
        assert(self@.agents =~= old(self)@.agents);
        assert(self@.paths =~= old(self)@.paths.push(agent_paths@));
        id
    }

    /// The path with the id `id`.
    pub fn path(&self, id: &PathId) -> (p: &Path<N>)
        requires
            id.0 < self@.paths.len(),
        ensures
            p@ == self@.paths[id.0 as int],
    {
        &self.paths[id.0]
    }

    /// The trie of the label `label`.
    pub fn agent(&self, label: u16) -> (t: &AgentPNet)
        requires
            label < self@.agents.len(),
        ensures
            t@ == self@.agents[label as int],
    {
        &self.agents[label as usize]
    }

    /// The trie of the label `label`, to be changed in place.
    pub fn agent_mut(&mut self, label: u16) -> (t: &mut AgentPNet)
        requires
            label < old(self)@.agents.len(),
        ensures
            t@ == old(self)@.agents[label as int],
            final(self)@.agents =~= old(self)@.agents.update(label as int, final(t)@),
            final(self)@.paths =~= old(self)@.paths,
    {
        &mut self.agents[label as usize]
    }

    /// The path with the id `id`, to be changed in place.
    pub fn path_mut(&mut self, id: &PathId) -> (p: &mut Path<N>)
        requires
            id.0 < old(self)@.paths.len(),
        ensures
            p@ == old(self)@.paths[id.0 as int],
            final(self)@.paths =~= old(self)@.paths.update(id.0 as int, final(p)@),
            final(self)@.agents =~= old(self)@.agents,
    {
        &mut self.paths[id.0]
    }

    /// The number of paths.
    pub fn path_count(&self) -> (n: usize)
        ensures
            n == self@.paths.len(),
    {
        self.paths.len()
    }

    /// Joins the two ends of a wire, met at the positions `mine` and `other`, and
    /// returns the id of the path that they make.
    pub fn join(&mut self, mine: &Vec<BranchId>, other: &Vec<BranchId>) -> (id: PathId)
        requires
            old(self)@.wf(N as nat),
            old(self)@.positions(mine@),
            old(self)@.positions(other@),
        ensures
            id == PathId(old(self)@.paths.len() as usize),
            final(self)@ == old(self)@.joined(mine@, other@),
            final(self)@.wf(N as nat),
            final(self)@.covers(old(self)@),
    {
        let ghost before = self@;
        let mut agent_paths: Vec<AgentPathId> = Vec::new();
        let mut i: usize = 0;
        while i < N
            invariant
                i <= N,
                before.wf(N as nat),
                before.positions(mine@),
                before.positions(other@),
                self@.agents.len() == N,
                self@.paths == before.paths,
                agent_paths@.len() == i,
                forall|j: int|
                    0 <= j < i ==> (#[trigger] self@.agents[j]) == before.agents[j].with_edge(
                        mine@[j],
                        other@[j],
                    ).0 && self@.agents[j].paths.len() <= usize::MAX,
                forall|j: int| 0 <= j < i ==> #[trigger] agent_paths@[j] == before.joined_edge(mine@, other@, j),
                forall|j: int| i <= j < N ==> #[trigger] self@.agents[j] == before.agents[j],
            decreases N - i,
        {
            let ghost cur = self@;
            assert(cur.agents[i as int] == before.agents[i as int]);
            assert(before.agents[i as int].has_branch(mine@[i as int]));
            assert(before.agents[i as int].has_branch(other@[i as int]));
            let id = self.agents[i].add_path(mine[i], other[i]);
            let count = self.agents[i].paths.len();
            agent_paths.push(id);
            proof {
                assert(self@.paths =~= before.paths);
                assert forall|j: int| 0 <= j < i + 1 implies (#[trigger] self@.agents[j])
                    == before.agents[j].with_edge(mine@[j], other@[j]).0
                    && self@.agents[j].paths.len() <= usize::MAX by {
                    if j < i {
                        assert(self@.agents[j] == cur.agents[j]);
                    } else {
                        assert(self@.agents[j].paths.len() == count);
                    }
                }
                assert forall|j: int| i + 1 <= j < N implies #[trigger] self@.agents[j]
                    == before.agents[j] by {
                    assert(self@.agents[j] == cur.agents[j]);
                }
            }
            i = i + 1;
        }
        let ghost edged = self@;
        let ghost edges = agent_paths@;
        let total = self.paths.len();
        let path = PathId(total);
        let mut k: usize = 0;
        while k < N
            invariant
                k <= N,
                before.wf(N as nat),
                before.positions(mine@),
                before.positions(other@),
                path == PathId(before.paths.len() as usize),
                edged.agents.len() == N,
                self@.agents.len() == N,
                self@.paths == before.paths,
                agent_paths@ == edges,
                edges.len() == N,
                forall|j: int| 0 <= j < N ==> #[trigger] edges[j] == before.joined_edge(mine@, other@, j),
                forall|j: int|
                    0 <= j < N ==> (#[trigger] edged.agents[j]) == before.agents[j].with_edge(
                        mine@[j],
                        other@[j],
                    ).0 && edged.agents[j].paths.len() <= usize::MAX,
                forall|j: int|
                    0 <= j < k ==> #[trigger] self@.agents[j] == edged.agents[j].with_use(
                        edges[j],
                        path,
                    ),
                forall|j: int| k <= j < N ==> #[trigger] self@.agents[j] == edged.agents[j],
            decreases N - k,
        {
            let ghost cur = self@;
            let edge = agent_paths[k];
            proof {
                assert(cur.agents[k as int] == edged.agents[k as int]);
                assert(edge == before.joined_edge(mine@, other@, k as int));
                assert(before.agents[k as int].has_branch(mine@[k as int]));
                assert(before.agents[k as int].has_branch(other@[k as int]));
                lemma_with_edge_wf(before.agents[k as int], mine@[k as int], other@[k as int]);
            }
            self.agents[k].paths[edge.0].paths.push(path);
            proof {
                assert(self@.paths =~= before.paths);
                assert(self@.agents[k as int].branches =~= cur.agents[k as int].branches);
                assert(self@.agents[k as int].paths =~= cur.agents[k as int].with_use(
                    edge,
                    path,
                ).paths);
                assert forall|j: int| 0 <= j < k + 1 implies #[trigger] self@.agents[j]
                    == edged.agents[j].with_use(edges[j], path) by {
                    if j < k {
                        assert(self@.agents[j] == cur.agents[j]);
                    }
                }
                assert forall|j: int| k + 1 <= j < N implies #[trigger] self@.agents[j]
                    == edged.agents[j] by {
                    assert(self@.agents[j] == cur.agents[j]);
                }
            }
            k = k + 1;
        }
        let ghost used = self@;
        let id = self.add_path(agent_paths);
        let after = self.path_count();
        proof {
            assert(after == before.paths.len() + 1);
            let goal = before.joined(mine@, other@);
            assert(self@.agents =~= goal.agents) by {
                assert forall|j: int| 0 <= j < N implies self@.agents[j] == goal.agents[j] by {
                    assert(used.agents[j] == edged.agents[j].with_use(edges[j], path));
                }
            }
            assert(edges =~= Seq::new(N as nat, |i: int| before.joined_edge(mine@, other@, i)));
            assert(self@.paths =~= goal.paths);
            assert forall|i: int| 0 <= i < N implies (#[trigger] before.agents[i]).with_edge(
                mine@[i],
                other@[i],
            ).0.paths.len() <= usize::MAX by {
                assert(edged.agents[i].paths.len() <= usize::MAX);
            }
            lemma_joined_wf(before, N as nat, mine@, other@);
        }
        id
    }
}

/// The network with a root per label and no path keeps the invariant.
pub proof fn lemma_initial_wf(n: nat)
    ensures
        PNetView::initial(n).wf(n),
{
    let net = PNetView::initial(n);
    assert forall|i: int| 0 <= i < n implies (#[trigger] net.agents[i]).wf() by {
        let t = net.agents[i];
        assert(t == TrieView::single());
        assert forall|b: int, side: Side| 0 <= b < t.branches.len() implies (#[trigger] t.child(
            b,
            side,
        ) matches Some(c) ==> b < c.0 < t.branches.len()) by {
            assert(t.child(b, side) is None);
        }
    }
}

/// Joining the two ends of a wire keeps the invariant of the network, and every
/// branch.
pub proof fn lemma_joined_wf(net: PNetView, n: nat, mine: Seq<BranchId>, other: Seq<BranchId>)
    requires
        net.wf(n),
        net.positions(mine),
        net.positions(other),
        net.paths.len() < usize::MAX,
        forall|i: int|
            0 <= i < n ==> (#[trigger] net.agents[i]).with_edge(mine[i], other[i]).0.paths.len()
                <= usize::MAX,
    ensures
        net.joined(mine, other).wf(n),
        net.joined(mine, other).covers(net),
{
    let res = net.joined(mine, other);
    let path = PathId(net.paths.len() as usize);
    assert forall|i: int| 0 <= i < n implies {
        let t = net.agents[i];
        let (t1, k) = t.with_edge(mine[i], other[i]);
        let t2 = #[trigger] res.agents[i];
        &&& t2 == t1.with_use(k, path)
        &&& t2.wf()
        &&& t2.branches.len() == t.branches.len()
        &&& t2.paths.len() == t1.paths.len()
        &&& t1.paths.len() >= t.paths.len()
        &&& k.0 < t1.paths.len()
        &&& (k.0 >= t.paths.len() ==> t1.paths[k.0 as int].paths.len() == 0)
        &&& (forall|x: int| 0 <= x < t.paths.len() ==> #[trigger] t1.paths[x] == t.paths[x])
    } by {
        let t = net.agents[i];
        assert(t.has_branch(mine[i]));
        assert(t.has_branch(other[i]));
        lemma_with_edge_wf(t, mine[i], other[i]);
        let (t1, k) = t.with_edge(mine[i], other[i]);
        let t2 = t1.with_use(k, path);
        assert(res.agents[i] == t2);
        lemma_with_use_wf(t1, k, path);
    }
    assert forall|p: int| 0 <= p < res.paths.len() implies (#[trigger] res.paths[p]).len() == n by {
        if p < net.paths.len() {
            assert(res.paths[p] == net.paths[p]);
        }
    }
    assert forall|p: int, i: int| 0 <= p < res.paths.len() && 0 <= i < n implies (
    #[trigger] res.paths[p][i]).0 < res.agents[i].paths.len() by {
        let t2 = res.agents[i];
        if p < net.paths.len() {
            assert(res.paths[p] == net.paths[p]);
            assert(net.paths[p][i].0 < net.agents[i].paths.len());
        }
    }
    assert forall|i: int, k: int| 0 <= i < n && 0 <= k < res.agents[i].paths.len() implies (
    #[trigger] res.agents[i].paths[k]).paths.no_duplicates() by {
        let t2 = res.agents[i];
        let e = net.joined_edge(mine, other, i);
        if k < net.agents[i].paths.len() {
            let refs = net.agents[i].paths[k].paths;
            assert(refs.no_duplicates());
            if k == e.0 {
                assert(!refs.contains(path));
                assert(res.agents[i].paths[k].paths == refs.push(path));
                assert forall|a: int, b: int|
                    0 <= a < refs.len() + 1 && 0 <= b < refs.len() + 1 && a != b implies refs.push(
                    path,
                )[a] != refs.push(path)[b] by {
                    if a < refs.len() && b < refs.len() {
                    } else if a < refs.len() {
                        assert(refs.contains(refs[a]));
                    } else {
                        assert(refs.contains(refs[b]));
                    }
                }
            } else {
                assert(res.agents[i].paths[k].paths == refs);
            }
        } else {
            assert(k == e.0);
            assert(res.agents[i].paths[k].paths =~= seq![path]);
        }
    }
    assert forall|i: int, k: int, q: PathId|
        0 <= i < n && 0 <= k < res.agents[i].paths.len() implies (#[trigger] res.agents[i].paths[k].paths.contains(
        q,
    ) <==> q.0 < res.paths.len() && res.paths[q.0 as int][i] == AgentPathId(k as usize)) by {
        let t2 = res.agents[i];
        let e = net.joined_edge(mine, other, i);
        let now = res.agents[i].paths[k].paths;
        assert(res.paths[net.paths.len() as int][i] == e);
        if q.0 < net.paths.len() {
            assert(res.paths[q.0 as int] == net.paths[q.0 as int]);
            assert(net.paths[q.0 as int][i].0 < net.agents[i].paths.len());
        }
        if k < net.agents[i].paths.len() {
            let refs = net.agents[i].paths[k].paths;
            assert(refs.contains(q) <==> q.0 < net.paths.len() && net.paths[q.0 as int][i]
                == AgentPathId(k as usize));
            if k == e.0 {
                assert(now == refs.push(path));
                if refs.contains(q) {
                    let a = choose|a: int| 0 <= a < refs.len() && refs[a] == q;
                    assert(now[a] == q);
                }
                assert(now[refs.len() as int] == path);
                if now.contains(q) {
                    let a = choose|a: int| 0 <= a < now.len() && now[a] == q;
                    if a < refs.len() {
                        assert(refs[a] == q);
                    }
                }
            } else {
                assert(now == refs);
            }
        } else {
            assert(k == e.0);
            assert(now =~= seq![path]);
            assert(now[0] == path);
            if now.contains(q) {
                let a = choose|a: int| 0 <= a < now.len() && now[a] == q;
            }
        }
    }
}

/// Listing one more path at an edge keeps the invariant of the trie.
pub proof fn lemma_with_use_wf(t: TrieView, k: AgentPathId, path: PathId)
    requires
        t.wf(),
        k.0 < t.paths.len(),
    ensures
        t.with_use(k, path).wf(),
{
    let u = t.with_use(k, path);
    assert forall|b: int, side: Side| 0 <= b < u.branches.len() implies (#[trigger] u.child(
        b,
        side,
    ) matches Some(c) ==> b < c.0 < u.branches.len()) by {
        assert(u.child(b, side) == t.child(b, side));
    }
    assert forall|b1: int, s1: Side, b2: int, s2: Side|
        0 <= b1 < u.branches.len() && 0 <= b2 < u.branches.len() && (#[trigger] u.child(
            b1,
            s1,
        )) is Some && u.child(b1, s1) == #[trigger] u.child(b2, s2) implies b1 == b2 && s1
        == s2 by {
        assert(u.child(b1, s1) == t.child(b1, s1));
        assert(u.child(b2, s2) == t.child(b2, s2));
    }
    assert forall|j: int| 0 <= j < u.paths.len() implies {
        let e = #[trigger] u.paths[j];
        &&& u.has_branch(e.b1)
        &&& u.has_branch(e.b2)
        &&& u.branches[e.b1.0 as int].paths.contains(AgentPathId(j as usize))
        &&& u.branches[e.b2.0 as int].paths.contains(AgentPathId(j as usize))
    } by {
        let e = t.paths[j];
    }
    assert forall|b: int, i: int|
        0 <= b < u.branches.len() && 0 <= i < u.branches[b].paths.len() implies {
        let x = #[trigger] u.branches[b].paths[i];
        &&& x.0 < u.paths.len()
        &&& (u.paths[x.0 as int].b1 == BranchId(b as usize) || u.paths[x.0 as int].b2 == BranchId(
            b as usize,
        ))
    } by {
        let x = t.branches[b].paths[i];
    }
    assert forall|j: int, x: int|
        0 <= j < u.paths.len() && 0 <= x < u.paths.len() && (#[trigger] u.paths[j]).connects(
            (#[trigger] u.paths[x]).b1,
            u.paths[x].b2,
        ) implies j == x by {
        assert(t.paths[j].connects(t.paths[x].b1, t.paths[x].b2));
    }
}

/// Positions stay positions while the tries only gain branches.
pub proof fn lemma_positions_covered(before: PNetView, after: PNetView, v: Seq<BranchId>)
    requires
        before.positions(v),
        after.covers(before),
    ensures
        after.positions(v),
{
    assert forall|i: int| 0 <= i < v.len() implies after.agents[i].has_branch(#[trigger] v[i]) by {
        assert(before.agents[i].has_branch(v[i]));
        assert(after.agents[i].branches.len() >= before.agents[i].branches.len());
    }
}

/// Asking a trie for both children of a branch keeps the invariant of the network
/// and every branch, and the two children are branches of that trie.
pub proof fn lemma_with_children_wf(net: PNetView, n: nat, label: int, v: Seq<BranchId>)
    requires
        net.wf(n),
        net.positions(v),
        0 <= label < n,
        net.with_children(label, v[label]).0.agents[label].branches.len() <= usize::MAX,
    ensures
        net.with_children(label, v[label]).0.wf(n),
        net.with_children(label, v[label]).0.covers(net),
        net.with_children(label, v[label]).0.positions(
            v.update(label, net.with_children(label, v[label]).1),
        ),
        net.with_children(label, v[label]).0.positions(
            v.update(label, net.with_children(label, v[label]).2),
        ),
{
    let parent = v[label];
    let t = net.agents[label];
    assert(t.has_branch(parent));
    let (t1, left) = t.with_child(parent, Side::Left);
    let (t2, right) = t1.with_child(parent, Side::Right);
    assert(t2.branches.len() >= t1.branches.len());
    lemma_with_child_wf(t, parent, Side::Left);
    lemma_with_child_wf(t1, parent, Side::Right);
    let res = net.with_children(label, parent).0;
    assert(res.agents[label] == t2);
    assert(t2.paths == t.paths);
    assert forall|i: int| 0 <= i < n implies (#[trigger] res.agents[i]).wf() by {
        if i != label {
            assert(res.agents[i] == net.agents[i]);
        }
    }
    assert forall|i: int| 0 <= i < n implies (#[trigger] res.agents[i]).paths
        == net.agents[i].paths by {}
    assert forall|p: int, i: int| 0 <= p < res.paths.len() && 0 <= i < n implies (
    #[trigger] res.paths[p][i]).0 < res.agents[i].paths.len() by {
        assert(net.paths[p][i].0 < net.agents[i].paths.len());
        assert(res.agents[i].paths == net.agents[i].paths);
    }
    assert forall|i: int, k: int| 0 <= i < n && 0 <= k < res.agents[i].paths.len() implies (
    #[trigger] res.agents[i].paths[k]).paths.no_duplicates() by {
        assert(res.agents[i].paths == net.agents[i].paths);
        assert(net.agents[i].paths[k].paths.no_duplicates());
    }
    assert forall|i: int, k: int, q: PathId|
        0 <= i < n && 0 <= k < res.agents[i].paths.len() implies (#[trigger] res.agents[i].paths[k].paths.contains(
        q,
    ) <==> q.0 < res.paths.len() && res.paths[q.0 as int][i] == AgentPathId(k as usize)) by {
        assert(res.agents[i].paths == net.agents[i].paths);
        assert(net.agents[i].paths[k].paths.contains(q) <==> q.0 < net.paths.len()
            && net.paths[q.0 as int][i] == AgentPathId(k as usize));
    }
    assert(res.covers(net)) by {
        assert forall|i: int| 0 <= i < res.agents.len() implies (#[trigger] res.agents[i]).branches.len()
            >= net.agents[i].branches.len() by {
            if i != label {
                assert(res.agents[i] == net.agents[i]);
            }
        }
    }
    lemma_positions_covered(net, res, v);
    assert(res.positions(v.update(label, left))) by {
        assert forall|i: int| 0 <= i < v.len() implies res.agents[i].has_branch(
            #[trigger] v.update(label, left)[i],
        ) by {
            if i != label {
                assert(res.agents[i].has_branch(v[i]));
            }
        }
    }
    assert(res.positions(v.update(label, right))) by {
        assert forall|i: int| 0 <= i < v.len() implies res.agents[i].has_branch(
            #[trigger] v.update(label, right)[i],
        ) by {
            if i != label {
                assert(res.agents[i].has_branch(v[i]));
            }
        }
    }
}

/// What covers a network that covers another covers that other.
pub proof fn lemma_covers_trans(a: PNetView, b: PNetView, c: PNetView)
    requires
        b.covers(a),
        c.covers(b),
    ensures
        c.covers(a),
{
    assert forall|i: int| 0 <= i < c.agents.len() implies (#[trigger] c.agents[i]).branches.len()
        >= a.agents[i].branches.len() by {
        assert(b.agents[i].branches.len() >= a.agents[i].branches.len());
    }
}

/// A copy of `v`.
pub fn copied(v: &Vec<BranchId>) -> (r: Vec<BranchId>)
    ensures
        r@ == v@,
{
    let mut r: Vec<BranchId> = Vec::new();
    let mut j: usize = 0;
    while j < v.len()
        invariant
            j <= v@.len(),
            r@.len() == j,
            forall|x: int| 0 <= x < j ==> r@[x] == v@[x],
        decreases v@.len() - j,
    {
        r.push(v[j]);
        j = j + 1;
    }
    assert(r@ =~= v@);
    r
}

/// The root of each of `n` tries.
pub fn root_positions(n: usize) -> (r: Vec<BranchId>)
    ensures
        r@ == roots(n as nat),
{
    let mut r: Vec<BranchId> = Vec::new();
    let mut j: usize = 0;
    while j < n
        invariant
            j <= n,
            r@.len() == j,
            forall|x: int| 0 <= x < j ==> r@[x] == BranchId(0),
        decreases n - j,
    {
        r.push(BranchId(0));
        j = j + 1;
    }
    assert(r@ =~= roots(n as nat));
    r
}

/// Walks the net from `port`, which the walk reached at the positions `parents`,
/// and enters what it finds into `pnet`, with `paths` as the record of the wire
/// ends that wait for their other end.
pub fn add_paths<const N: usize>(
    port: Port,
    inet: &INet,
    parents: Vec<BranchId>,
    pnet: &mut PNet<N>,
    paths: &mut PortMap<Vec<BranchId>>,
) -> (r: Result<(), Error>)
    requires
        inet@.forward(),
        walk_state(old(pnet)@, old(paths)@).wf(N as nat),
        old(pnet)@.positions(parents@),
    ensures
        walked(
            walk(inet@, port, parents@, walk_state(old(pnet)@, old(paths)@)),
            r,
            walk_state(final(pnet)@, final(paths)@),
        ),
        r is Ok ==> walk_state(final(pnet)@, final(paths)@).wf(N as nat),
        r is Ok ==> final(pnet)@.covers(old(pnet)@),
    decreases inet@.rank(port),
{
    let ghost st = walk_state(pnet@, paths@);
    match port {
        Port::Principal(node_id) => {
            if node_id >= inet.nodes.len() {
                return Err(Error::IndexOutOfRange);
            }
            match *inet.node(node_id) {
                Node::Era(_) => Ok(()),
                Node::Agent(agent) => {
                    let label = agent.label as usize;
                    if label >= N {
                        return Err(Error::IndexOutOfRange);
                    }
                    let parent = parents[label];
                    assert(st.net.agents[label as int].has_branch(parent));
                    let left = pnet.agents[label].add_left(parent);
                    let right = pnet.agents[label].add_right(parent);
                    let count = pnet.agents[label].branches.len();
                    let parents_left = replaced(&parents, label, left);
                    let parents_right = replaced(&parents, label, right);
                    let ghost net1 = st.net.with_children(label as int, parent).0;
                    proof {
                        assert(pnet@.agents =~= net1.agents);
                        assert(pnet@.paths =~= net1.paths);
                        assert(net1.agents[label as int].branches.len() == count);
                        lemma_with_children_wf(st.net, N as nat, label as int, parents@);
                        assert forall|p: AuxPort| st.pending.contains_key(p) implies net1.positions(
                            #[trigger] st.pending[p],
                        ) by {
                            lemma_positions_covered(st.net, net1, st.pending[p]);
                        }
                        assert(walk_state(pnet@, paths@) == WalkState { net: net1, ..st });
                    }
                    match add_paths(agent.left, inet, parents_left, pnet, paths) {
                        Err(e) => {
                            return Err(e);
                        },
                        Ok(()) => {},
                    }
                    proof {
                        lemma_positions_covered(net1, pnet@, parents_right@);
                        lemma_covers_trans(st.net, net1, pnet@);
                    }
                    let ghost net2 = pnet@;
                    let r = add_paths(agent.right, inet, parents_right, pnet, paths);
                    proof {
                        if r is Ok {
                            lemma_covers_trans(st.net, net2, pnet@);
                        }
                    }
                    r
                },
            }
        },
        Port::Aux(aux_port) => {
            match paths.get(&aux_port) {
                Some(other_parents) => {
                    let _ = pnet.join(&parents, other_parents);
                    proof {
                        assert forall|p: AuxPort| st.pending.contains_key(p) implies pnet@.positions(
                            #[trigger] st.pending[p],
                        ) by {
                            lemma_positions_covered(st.net, pnet@, st.pending[p]);
                        }
                    }
                    Ok(())
                },
                None => {
                    match inet.aux_port(&aux_port) {
                        Err(e) => Err(e),
                        Ok(Port::Principal(_)) => Err(Error::InvariantViolation),
                        Ok(Port::Aux(other_aux)) => {
                            let mine = copied(&parents);
                            paths.insert(aux_port, mine);
                            paths.insert(other_aux, parents);
                            proof {
                                let after = walk_state(pnet@, paths@);
                                assert(after.pending =~= st.pending.insert(
                                    aux_port,
                                    parents@,
                                ).insert(other_aux, parents@));
                                assert(pnet@.covers(st.net));
                            }
                            Ok(())
                        },
                    }
                },
            }
        },
    }
}

impl<const N: usize> PNet<N> {
    /// The path network of `inet`: the walks from all free ports, in order, each
    /// starting at the roots of the tries.
    pub fn from_inet(inet: &INet) -> (r: Result<Self, Error>)
        requires
            inet@.forward(),
        ensures
            walked_all(walk_all(inet@, N as nat), r),
            inet@.plugged() && inet@.reciprocal() ==> (r is Ok <==> inet@.labels_below(N as nat)),
            inet@.plugged() && inet@.reciprocal() ==> (r matches Err(e) ==> e
                == Error::IndexOutOfRange),
    {
        let nodes = inet.nodes.len();
        let ports = inet.free_ports.len();
        proof {
            if inet@.plugged() && inet@.reciprocal() {
                lemma_label_bound(inet@, N as nat);
            }
        }
        let mut res: PNet<N> = PNet::default();
        let mut map: PortMap<Vec<BranchId>> = PortMap::new();
        let mut k: usize = 0;
        assert(walk_state(res@, map@).pending =~= Map::empty());
        while k < inet.free_ports.len()
            invariant
                k <= inet.free_ports.len(),
                nodes == inet@.nodes.len(),
                ports == inet@.free_ports.len(),
                inet@.forward(),
                walk_prefix(inet@, N as nat, k as nat) == Ok::<WalkState, Error>(
                    walk_state(res@, map@),
                ),
                walk_state(res@, map@).wf(N as nat),
            decreases inet.free_ports.len() - k,
        {
            let start = root_positions(N);
            assert(res@.positions(start@)) by {
                assert forall|i: int| 0 <= i < N implies res@.agents[i].has_branch(
                    #[trigger] start@[i],
                ) by {
                    assert(res@.agents[i].wf());
                }
            }
            match add_paths(inet.free_ports[k], inet, start, &mut res, &mut map) {
                Ok(()) => {},
                Err(e) => {
                    proof {
                        lemma_walk_prefix_err(
                            inet@,
                            N as nat,
                            (k + 1) as nat,
                            inet@.free_ports.len(),
                        );
                        if inet@.plugged() && inet@.reciprocal() {
                            lemma_label_bound(inet@, N as nat);
                        }
                    }
                    return Err(e);
                },
            }
            k = k + 1;
        }
        Ok(res)
    }

    /// In every trie, detaches each child of a branch that is not alive. The
    /// branches stay in the storage, and the paths are untouched.
    pub fn remove_empty_branches(&mut self)
        requires
            old(self)@.wf(N as nat),
        ensures
            final(self)@ == old(self)@.pruned(),
            final(self)@.wf(N as nat),
    {
        let ghost before = self@;
        let mut i: usize = 0;
        while i < N
            invariant
                i <= N,
                before.wf(N as nat),
                self@.agents.len() == N,
                self@.paths == before.paths,
                forall|j: int| 0 <= j < i ==> #[trigger] self@.agents[j] == before.agents[j].pruned_below(0),
                forall|j: int| i <= j < N ==> #[trigger] self@.agents[j] == before.agents[j],
            decreases N - i,
        {
            let ghost cur = self@;
            assert(cur.agents[i as int] == before.agents[i as int]);
            assert(before.agents[i as int].wf());
            self.agents[i].remove_empty_branches();
            proof {
                assert(self@.paths =~= before.paths);
                assert forall|j: int| 0 <= j < i + 1 implies #[trigger] self@.agents[j]
                    == before.agents[j].pruned_below(0) by {
                    if j < i {
                        assert(self@.agents[j] == cur.agents[j]);
                    }
                }
                assert forall|j: int| i + 1 <= j < N implies #[trigger] self@.agents[j]
                    == before.agents[j] by {
                    assert(self@.agents[j] == cur.agents[j]);
                }
            }
            i = i + 1;
        }
        proof {
            assert(self@.agents =~= before.pruned().agents);
            lemma_pruned_wf(before, N as nat);
        }
    }
}

impl PNetView {
    /// The network in which every trie has lost the children that are not alive.
    pub open spec fn pruned(self) -> PNetView {
        PNetView {
            agents: Seq::new(self.agents.len(), |i: int| self.agents[i].pruned_below(0)),
            ..self
        }
    }
}

/// Pruning keeps the invariant of the network.
pub proof fn lemma_pruned_wf(net: PNetView, n: nat)
    requires
        net.wf(n),
    ensures
        net.pruned().wf(n),
{
    let res = net.pruned();
    assert forall|i: int| 0 <= i < n implies (#[trigger] res.agents[i]).wf() && res.agents[i].paths
        == net.agents[i].paths by {
        assert(net.agents[i].wf());
        lemma_pruned_below_wf(net.agents[i], 0);
    }
    assert forall|p: int, i: int| 0 <= p < res.paths.len() && 0 <= i < n implies (
    #[trigger] res.paths[p][i]).0 < res.agents[i].paths.len() by {
        assert(net.paths[p][i].0 < net.agents[i].paths.len());
        assert(res.agents[i].paths == net.agents[i].paths);
    }
    assert forall|i: int, k: int| 0 <= i < n && 0 <= k < res.agents[i].paths.len() implies (
    #[trigger] res.agents[i].paths[k]).paths.no_duplicates() by {
        assert(res.agents[i].paths == net.agents[i].paths);
        assert(net.agents[i].paths[k].paths.no_duplicates());
    }
    assert forall|i: int, k: int, q: PathId|
        0 <= i < n && 0 <= k < res.agents[i].paths.len() implies (#[trigger] res.agents[i].paths[k].paths.contains(
        q,
    ) <==> q.0 < res.paths.len() && res.paths[q.0 as int][i] == AgentPathId(k as usize)) by {
        assert(res.agents[i].paths == net.agents[i].paths);
        assert(net.agents[i].paths[k].paths.contains(q) <==> q.0 < net.paths.len()
            && net.paths[q.0 as int][i] == AgentPathId(k as usize));
    }
}

} // verus!
