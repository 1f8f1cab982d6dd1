use crate::error::Error;
use crate::inet::{AuxPort, Dir, NetView, Node, Port};
use crate::pnet::{roots, walk, walk_all, walk_prefix, PNetView, WalkState};
use crate::trie::BranchId;
use vstd::prelude::*;

verus! {

impl NetView {
    /// Whether the node `k` lies below `port`: `port` is its principal port, or
    /// that of an agent with `k` below one of its slots.
    pub open spec fn below(self, port: Port, k: int) -> bool
        decreases self.rank(port),
        when self.forward()
    {
        match port {
            Port::Principal(m) => m < self.nodes.len() && (m == k || match self.nodes[m as int] {
                Node::Agent(agent) => self.below(agent.left, k) || self.below(agent.right, k),
                Node::Era(_) => false,
            }),
            Port::Aux(_) => false,
        }
    }

    /// Whether every agent has a label below `n`.
    pub open spec fn labels_below(self, n: nat) -> bool {
        forall|k: int|
            0 <= k < self.nodes.len() ==> match #[trigger] self.nodes[k] {
                Node::Agent(agent) => agent.label < n,
                Node::Era(_) => true,
            }
    }
}

/// A walk keeps the number of tries.
pub proof fn lemma_walk_keeps_labels(inet: NetView, port: Port, parents: Seq<BranchId>, st: WalkState)
    requires
        inet.forward(),
        walk(inet, port, parents, st) is Ok,
    ensures
        walk(inet, port, parents, st)->Ok_0.net.agents.len() == st.net.agents.len(),
    decreases inet.rank(port),
{
    match port {
        Port::Principal(n) => {
            if let Node::Agent(agent) = inet.nodes[n as int] {
                let label = agent.label as int;
                let (net1, left, right) = st.net.with_children(label, parents[label]);
                let st0 = WalkState { net: net1, ..st };
                lemma_walk_keeps_labels(inet, agent.left, parents.update(label, left), st0);
                let st1 = walk(inet, agent.left, parents.update(label, left), st0)->Ok_0;
                lemma_walk_keeps_labels(inet, agent.right, parents.update(label, right), st1);
            }
        },
        Port::Aux(end) => {},
    }
}

/// In a net in which every wire has two ends and every node is plugged in, a walk
/// from what a slot holds fails only for a label without a trie, and with the
/// error of the index out of range.
pub proof fn lemma_walk_outcome(
    inet: NetView,
    port: Port,
    parents: Seq<BranchId>,
    st: WalkState,
    slot: AuxPort,
)
    requires
        inet.forward(),
        inet.reciprocal(),
        inet.plugged(),
        inet.read_aux(slot) == Ok::<Port, Error>(port),
    ensures
        walk(inet, port, parents, st) matches Err(e) ==> e == Error::IndexOutOfRange,
        inet.labels_below(st.net.agents.len()) ==> walk(inet, port, parents, st) is Ok,
    decreases inet.rank(port),
{
    match port {
        Port::Principal(n) => {
            assert(n < inet.nodes.len());
            if let Node::Agent(agent) = inet.nodes[n as int] {
                if agent.label < st.net.agents.len() {
                    let label = agent.label as int;
                    let (net1, left, right) = st.net.with_children(label, parents[label]);
                    let st0 = WalkState { net: net1, ..st };
                    let l = AuxPort::Node { dir: Dir::Left, node: n };
                    let r = AuxPort::Node { dir: Dir::Right, node: n };
                    assert(inet.read_aux(l) == Ok::<Port, Error>(agent.left));
                    assert(inet.read_aux(r) == Ok::<Port, Error>(agent.right));
                    lemma_walk_outcome(inet, agent.left, parents.update(label, left), st0, l);
                    if let Ok(st1) = walk(inet, agent.left, parents.update(label, left), st0) {
                        lemma_walk_keeps_labels(inet, agent.left, parents.update(label, left), st0);
                        lemma_walk_outcome(inet, agent.right, parents.update(label, right), st1, r);
                    }
                }
            }
        },
        Port::Aux(end) => {
            assert(inet.read_aux(end) == Ok::<Port, Error>(Port::Aux(slot)));
        },
    }
}

/// A walk that succeeds found a trie for the label of every agent below its port.
pub proof fn lemma_walk_meets_labels(
    inet: NetView,
    port: Port,
    parents: Seq<BranchId>,
    st: WalkState,
    k: int,
)
    requires
        inet.forward(),
        walk(inet, port, parents, st) is Ok,
        inet.below(port, k),
    ensures
        inet.nodes[k] matches Node::Agent(agent) ==> agent.label < st.net.agents.len(),
    decreases inet.rank(port),
{
    match port {
        Port::Principal(n) => {
            if let Node::Agent(agent) = inet.nodes[n as int] {
                let label = agent.label as int;
                let (net1, left, right) = st.net.with_children(label, parents[label]);
                let st0 = WalkState { net: net1, ..st };
                if n != k {
                    let st1 = walk(inet, agent.left, parents.update(label, left), st0)->Ok_0;
                    lemma_walk_keeps_labels(inet, agent.left, parents.update(label, left), st0);
                    if inet.below(agent.left, k) {
                        lemma_walk_meets_labels(inet, agent.left, parents.update(label, left), st0, k);
                    } else {
                        lemma_walk_meets_labels(
                            inet,
                            agent.right,
                            parents.update(label, right),
                            st1,
                            k,
                        );
                    }
                }
            }
        },
        Port::Aux(end) => {},
    }
}

/// What is plugged into a slot of an agent below a port lies below that port.
pub proof fn lemma_below_step(inet: NetView, port: Port, m: int, dir: Dir, k: int)
    requires
        inet.forward(),
        inet.below(port, m),
        0 <= m < inet.nodes.len(),
        0 <= k < inet.nodes.len() <= usize::MAX,
        inet.nodes[m] matches Node::Agent(agent) && agent.slot(dir) == Port::Principal(k as usize),
    ensures
        inet.below(port, k),
    decreases inet.rank(port),
{
    match port {
        Port::Principal(n) => {
            if n == m {
                let agent = inet.nodes[m]->Agent_0;
                assert(inet.below(Port::Principal(k as usize), k));
            } else {
                let agent = inet.nodes[n as int]->Agent_0;
                if inet.below(agent.left, m) {
                    lemma_below_step(inet, agent.left, m, dir, k);
                } else {
                    lemma_below_step(inet, agent.right, m, dir, k);
                }
            }
        },
        Port::Aux(end) => {},
    }
}

/// In a net in which every node is plugged in, every node lies below a free port.
pub proof fn lemma_node_below_free_port(inet: NetView, k: int) -> (j: int)
    requires
        inet.forward(),
        inet.plugged(),
        0 <= k < inet.nodes.len() <= usize::MAX,
    ensures
        0 <= j < inet.free_ports.len(),
        inet.below(inet.free_ports[j], k),
    decreases k,
{
    let s = inet.nodes[k].plug();
    assert(inet.read_aux(s) == Ok::<Port, Error>(Port::Principal(k as usize)));
    assert(inet.below(Port::Principal(k as usize), k));
    match s {
        AuxPort::Free(i) => i as int,
        AuxPort::Node { dir, node } => {
            let agent = inet.nodes[node as int]->Agent_0;
            assert(agent.slot(dir) == Port::Principal(k as usize));
            let j = lemma_node_below_free_port(inet, node as int);
            lemma_below_step(inet, inet.free_ports[j], node as int, dir, k);
            j
        },
    }
}

/// The walks from a prefix of the free ports keep the number of tries; where they
/// succeed, they found a trie for the label of every agent below these ports.
pub proof fn lemma_walk_prefix_meets_labels(inet: NetView, n: nat, m: nat, j: int, k: int)
    requires
        inet.forward(),
        walk_prefix(inet, n, m) is Ok,
        0 <= j < m <= inet.free_ports.len(),
        inet.below(inet.free_ports[j], k),
    ensures
        inet.nodes[k] matches Node::Agent(agent) ==> agent.label < n,
    decreases m,
{
    let before = (m - 1) as nat;
    let st = walk_prefix(inet, n, before)->Ok_0;
    lemma_walk_prefix_keeps_labels(inet, n, before);
    if j == m - 1 {
        lemma_walk_meets_labels(inet, inet.free_ports[j], roots(n), st, k);
    } else {
        lemma_walk_prefix_meets_labels(inet, n, before, j, k);
    }
}

/// The walks from a prefix of the free ports keep one trie per label.
pub proof fn lemma_walk_prefix_keeps_labels(inet: NetView, n: nat, m: nat)
    requires
        inet.forward(),
        walk_prefix(inet, n, m) is Ok,
    ensures
        walk_prefix(inet, n, m)->Ok_0.net.agents.len() == n,
    decreases m,
{
    if m > 0 {
        let before = (m - 1) as nat;
        let st = walk_prefix(inet, n, before)->Ok_0;
        lemma_walk_prefix_keeps_labels(inet, n, before);
        lemma_walk_keeps_labels(inet, inet.free_ports[m - 1], roots(n), st);
    }
}

/// In a net in which every wire has two ends and every node is plugged in, the
/// walks from a prefix of the free ports fail only with the error of the index out
/// of range, and not at all where every label has a trie.
pub proof fn lemma_walk_prefix_outcome(inet: NetView, n: nat, m: nat)
    requires
        inet.forward(),
        inet.reciprocal(),
        inet.plugged(),
        m <= inet.free_ports.len() <= usize::MAX,
    ensures
        walk_prefix(inet, n, m) matches Err(e) ==> e == Error::IndexOutOfRange,
        inet.labels_below(n) ==> walk_prefix(inet, n, m) is Ok,
    decreases m,
{
    if m > 0 {
        let before = (m - 1) as nat;
        lemma_walk_prefix_outcome(inet, n, before);
        if let Ok(st) = walk_prefix(inet, n, before) {
            lemma_walk_prefix_keeps_labels(inet, n, before);
            let slot = AuxPort::Free(before as usize);
            lemma_walk_outcome(inet, inet.free_ports[m - 1], roots(n), st, slot);
        }
    }
}

/// In a net in which every wire has two ends and every node is plugged in, the
/// path network for `n` labels can be built exactly if every agent has a label
/// below `n`; where one has not, the error is that of the index out of range.
pub proof fn lemma_label_bound(inet: NetView, n: nat)
    requires
        inet.forward(),
        inet.reciprocal(),
        inet.plugged(),
        inet.free_ports.len() <= usize::MAX,
        inet.nodes.len() <= usize::MAX,
    ensures
        walk_all(inet, n) is Ok <==> inet.labels_below(n),
        !inet.labels_below(n) ==> walk_all(inet, n) == Err::<PNetView, Error>(
            Error::IndexOutOfRange,
        ),
{
    let m = inet.free_ports.len();
    lemma_walk_prefix_outcome(inet, n, m);
    if walk_prefix(inet, n, m) is Ok {
        assert forall|k: int| 0 <= k < inet.nodes.len() implies match #[trigger] inet.nodes[k] {
            Node::Agent(agent) => agent.label < n,
            Node::Era(_) => true,
        } by {
            let j = lemma_node_below_free_port(inet, k);
            lemma_walk_prefix_meets_labels(inet, n, m, j, k);
        }
    }
}

} // verus!
