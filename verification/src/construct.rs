use crate::error::Error;
use crate::inet::{placeholder, Agent, AuxPort, Dir, INet, NetView, Node, Port};
use crate::roundtrip::{comes_back, lemma_built_comes_back};
use crate::tree::{views, Tree, TreeView};
use crate::wiring::{
    all_paired, at_most_twice, lemma_build_outcome, lemma_built_reciprocal, lemma_built_shape,
    nodes_in, supported_in,
};
use vstd::hash_map::StringHashMap;
use vstd::prelude::*;

verus! {

/// The occurrence sites of one variable name: the slot of its first occurrence and,
/// once seen, that of its second.
#[derive(Clone, Copy, Debug, PartialEq, Eq, Structural)]
pub struct Wire {
    pub first: AuxPort,
    pub second: Option<AuxPort>,
}

/// A net under construction and the variables met so far.
pub struct BuildState {
    pub net: NetView,
    pub wires: Map<Seq<char>, Wire>,
}

impl BuildState {
    /// No node, no free port, no variable.
    pub open spec fn empty() -> BuildState {
        BuildState {
            net: NetView { nodes: Seq::empty(), free_ports: Seq::empty() },
            wires: Map::empty(),
        }
    }

    /// The state with one more free port, which holds the placeholder.
    pub open spec fn with_free_port(self) -> BuildState {
        BuildState {
            net: NetView { free_ports: self.net.free_ports.push(placeholder()), ..self.net },
            ..self
        }
    }

    /// The state with one more node, whose principal port is plugged into `parent`.
    pub open spec fn with_node(self, node: Node, parent: AuxPort) -> BuildState {
        let id = self.net.nodes.len() as usize;
        BuildState {
            net: NetView { nodes: self.net.nodes.push(node), ..self.net }.write(
                parent,
                Port::Principal(id),
            ),
            ..self
        }
    }

    /// Every slot that the state names can be read: `parent`, and both ends of each
    /// recorded wire.
    pub open spec fn readable(self, parent: AuxPort) -> bool {
        self.net.read_aux(parent) is Ok && self.wires_readable()
    }

    /// Both ends of each recorded wire can be read.
    pub open spec fn wires_readable(self) -> bool {
        forall|name: Seq<char>| #[trigger]
            self.wires.contains_key(name) ==> {
                &&& self.net.read_aux(self.wires[name].first) is Ok
                &&& self.wires[name].second matches Some(second) ==> self.net.read_aux(second) is Ok
            }
    }
}

/// The agent that a constructor with label `lab` allocates below `parent`: both
/// slots hold the placeholder until the children are attached.
pub open spec fn fresh_agent(lab: u16, parent: AuxPort) -> Node {
    Node::Agent(Agent { label: lab, principal: parent, left: placeholder(), right: placeholder() })
}

/// Attaches `tree` to the slot `parent`.
///
/// An eraser and a constructor allocate a node and plug its principal port into
/// `parent`; a constructor then attaches its children to its own two slots. The
/// first occurrence of a name records `parent`; the second wires `parent` and the
/// recorded slot to each other; a third is an error, as is any other form of tree.
pub open spec fn attach(st: BuildState, tree: TreeView, parent: AuxPort) -> Result<BuildState, Error>
    decreases tree,
{
    match tree {
        TreeView::Era => Ok(st.with_node(Node::Era(parent), parent)),
        TreeView::Ctr { lab, p1, p2 } => {
            let id = st.net.nodes.len() as usize;
            let st0 = st.with_node(fresh_agent(lab, parent), parent);
            match attach(st0, *p1, AuxPort::Node { dir: Dir::Left, node: id }) {
                Ok(st1) => attach(st1, *p2, AuxPort::Node { dir: Dir::Right, node: id }),
                Err(e) => Err(e),
            }
        },
        TreeView::Var(name) => {
            if st.wires.contains_key(name) {
                let wire = st.wires[name];
                if wire.second is None {
                    Ok(
                        BuildState {
                            net: st.net.write(parent, Port::Aux(wire.first)).write(
                                wire.first,
                                Port::Aux(parent),
                            ),
                            wires: st.wires.insert(
                                name,
                                Wire { first: wire.first, second: Some(parent) },
                            ),
                        },
                    )
                } else {
                    Err(Error::VariableOveruse)
                }
            } else {
                Ok(
                    BuildState {
                        wires: st.wires.insert(name, Wire { first: parent, second: None }),
                        ..st
                    },
                )
            }
        },
        TreeView::Other => Err(Error::UnsupportedTreeShape),
    }
}

/// The state after the first `n` of `trees` were attached, the tree at index `k` to
/// the free port `k`; the first error where one of them cannot be attached.
pub open spec fn build_prefix(trees: Seq<TreeView>, n: nat) -> Result<BuildState, Error>
    decreases n,
{
    if n == 0 {
        Ok(BuildState::empty())
    } else {
        match build_prefix(trees, (n - 1) as nat) {
            Ok(st) => attach(st.with_free_port(), trees[n - 1], AuxPort::Free((n - 1) as usize)),
            Err(e) => Err(e),
        }
    }
}

/// Whether `r` is the outcome `expected`: the same error, or a net with exactly the
/// expected content.
pub open spec fn built(expected: Result<NetView, Error>, r: Result<INet, Error>) -> bool {
    match r {
        Ok(net) => expected == Ok::<NetView, Error>(net@),
        Err(e) => expected == Err::<NetView, Error>(e),
    }
}

/// The net that `trees` describe.
pub open spec fn build(trees: Seq<TreeView>) -> Result<NetView, Error> {
    match build_prefix(trees, trees.len()) {
        Ok(st) => Ok(st.net),
        Err(e) => Err(e),
    }
}

/// The state made of a net and a record of variables.
pub open spec fn state_of(net: NetView, wires: Map<Seq<char>, Wire>) -> BuildState {
    BuildState { net, wires }
}

/// Whether the outcome `r`, with the state `after` left behind, is what `expected`
/// asks for: the same error, or success with exactly the expected state.
pub open spec fn attached(
    expected: Result<BuildState, Error>,
    r: Result<(), Error>,
    after: BuildState,
) -> bool {
    match expected {
        Ok(st) => r is Ok && after == st,
        Err(e) => r == Err::<(), Error>(e),
    }
}

/// Slots once readable stay readable: the arena and the free ports never shrink,
/// and an agent stays an agent.
pub open spec fn grows(before: NetView, after: NetView) -> bool {
    &&& after.free_ports.len() == before.free_ports.len()
    &&& after.nodes.len() >= before.nodes.len()
    &&& forall|p: AuxPort| #[trigger] before.read_aux(p) is Ok ==> after.read_aux(p) is Ok
}

/// Writing a slot keeps every slot that could be read, and the sizes of the net.
proof fn lemma_write_grows(net: NetView, key: AuxPort, value: Port)
    ensures
        grows(net, net.write(key, value)),
        net.write(key, value).nodes.len() == net.nodes.len(),
        net.write(key, value).free_ports.len() == net.free_ports.len(),
{
}

/// Allocating a node keeps every slot that could be read; the slots of a new agent
/// can be read.
proof fn lemma_with_node_grows(st: BuildState, node: Node, parent: AuxPort)
    requires
        st.net.nodes.len() <= usize::MAX,
    ensures
        grows(st.net, st.with_node(node, parent).net),
        st.with_node(node, parent).net.nodes.len() == st.net.nodes.len() + 1,
        node is Agent ==> forall|dir: Dir| #[trigger]
            st.with_node(node, parent).net.read_aux(
                AuxPort::Node { dir, node: st.net.nodes.len() as usize },
            ) is Ok,
{
    let pushed = NetView { nodes: st.net.nodes.push(node), ..st.net };
    lemma_write_grows(pushed, parent, Port::Principal(st.net.nodes.len() as usize));
    assert(grows(st.net, pushed));
}

/// Attaches `tree` to the slot `parent_port` of `net`, with `wires` as the record of
/// the variables met so far.
pub fn add_tree(
    net: &mut INet,
    tree: &Tree,
    parent_port: AuxPort,
    wires: &mut StringHashMap<Wire>,
) -> (r: Result<(), Error>)
    requires
        state_of(old(net)@, old(wires)@).readable(parent_port),
    ensures
        attached(
            attach(state_of(old(net)@, old(wires)@), tree@, parent_port),
            r,
            state_of(final(net)@, final(wires)@),
        ),
        grows(old(net)@, final(net)@),
        state_of(final(net)@, final(wires)@).wires_readable(),
    decreases tree,
{
    let ghost st = state_of(net@, wires@);
    match tree {
        Tree::Era => {
            let node_id = net.nodes.len();
            net.nodes.push(Node::Era(parent_port));
            let _ = net.set_port(parent_port, Port::Principal(node_id));
            proof {
                lemma_with_node_grows(st, Node::Era(parent_port), parent_port);
            }
            Ok(())
        },
        Tree::Ctr { lab, p1, p2 } => {
            let node_id = net.nodes.len();
            let agent = Agent {
                label: *lab,
                principal: parent_port,
                left: Port::Aux(AuxPort::Free(0)),
                right: Port::Aux(AuxPort::Free(0)),
            };
            net.nodes.push(Node::Agent(agent));
            let _ = net.set_port(parent_port, Port::Principal(node_id));
            proof {
                lemma_with_node_grows(st, fresh_agent(*lab, parent_port), parent_port);
            }
            add_tree(net, p1, AuxPort::Node { dir: Dir::Left, node: node_id }, wires)?;
            add_tree(net, p2, AuxPort::Node { dir: Dir::Right, node: node_id }, wires)
        },
        Tree::Var(name) => {
            let found: Option<Wire> = match wires.get(name.as_str()) {
                Some(wire) => Some(*wire),
                None => None,
            };
            match found {
                Some(wire) => {
                    match wire.second {
                        None => {
                            wires.insert(
                                name.clone(),
                                Wire { first: wire.first, second: Some(parent_port) },
                            );
                            let _ = net.set_port(parent_port, Port::Aux(wire.first));
                            let _ = net.set_port(wire.first, Port::Aux(parent_port));
                            proof {
                                let n1 = st.net.write(parent_port, Port::Aux(wire.first));
                                lemma_write_grows(st.net, parent_port, Port::Aux(wire.first));
                                lemma_write_grows(n1, wire.first, Port::Aux(parent_port));
                            }
                            Ok(())
                        },
                        Some(_) => Err(Error::VariableOveruse),
                    }
                },
                None => {
                    wires.insert(name.clone(), Wire { first: parent_port, second: None });
                    Ok(())
                },
            }
        },
        Tree::Other => Err(Error::UnsupportedTreeShape),
    }
}

impl INet {
    /// Builds the net that `trees` describe: one free port per tree, in order, with
    /// the tree attached to it. Two occurrences of one name, anywhere in `trees`,
    /// are the two ends of a wire. A name that occurs once is an open wire: its slot
    /// keeps the placeholder. A third occurrence is an error, as is a tree that is
    /// neither an eraser, a constructor nor a variable; the first error in reading
    /// order is returned.
    pub fn from_trees(trees: &Vec<Tree>) -> (r: Result<INet, Error>)
        ensures
            built(build(views(trees@)), r),
            r is Ok <==> supported_in(views(trees@), trees@.len()) && at_most_twice(
                views(trees@),
                trees@.len(),
            ),
            match r {
                Ok(net) => {
                    &&& net@.free_ports.len() == trees@.len()
                    &&& net@.nodes.len() == nodes_in(views(trees@), trees@.len())
                    &&& net@.forward()
                    &&& net@.plugged()
                    &&& all_paired(views(trees@)) ==> net@.reciprocal() && comes_back(net@)
                },
                Err(e) => {
                    &&& e == Error::VariableOveruse || e == Error::UnsupportedTreeShape
                    &&& supported_in(views(trees@), trees@.len()) ==> e == Error::VariableOveruse
                    &&& at_most_twice(views(trees@), trees@.len()) ==> e
                        == Error::UnsupportedTreeShape
                },
            },
    {
        proof {
            assert(views(trees@).len() == trees@.len());
            lemma_build_outcome(views(trees@));
        }
        let mut net = INet::new();
        let mut wires: StringHashMap<Wire> = StringHashMap::new();
        let mut k: usize = 0;
        assert(net@.nodes =~= Seq::empty() && net@.free_ports =~= Seq::empty());
        assert(wires@ =~= Map::empty());
        while k < trees.len()
            invariant
                k <= trees.len(),
                build_prefix(views(trees@), k as nat) == Ok::<BuildState, Error>(
                    state_of(net@, wires@),
                ),
                net@.free_ports.len() == k,
                state_of(net@, wires@).wires_readable(),
            decreases trees.len() - k,
        {
            let ghost before = state_of(net@, wires@);
            net.free_ports.push(Port::Aux(AuxPort::Free(0)));
            assert(net@.free_ports =~= before.net.free_ports.push(placeholder()));
            assert(views(trees@)[k as int] == trees@[k as int]@);
            match add_tree(&mut net, &trees[k], AuxPort::Free(k), &mut wires) {
                Ok(()) => {},
                Err(e) => {
                    assert(build_prefix(views(trees@), (k + 1) as nat) == Err::<BuildState, Error>(e));
                    proof {
                        lemma_build_prefix_err(views(trees@), (k + 1) as nat, trees@.len() as nat);
                        assert(views(trees@).len() == trees@.len());
                        lemma_build_outcome(views(trees@));
                    }
                    return Err(e);
                },
            }
            k = k + 1;
        }
        let count = net.nodes.len();
        proof {
            assert(build(views(trees@)) == Ok::<NetView, Error>(net@));
            assert(net@.nodes.len() == count);
            lemma_built_shape(views(trees@));
            if all_paired(views(trees@)) {
                lemma_built_reciprocal(views(trees@));
                lemma_built_comes_back(views(trees@));
            }
        }
        Ok(net)
    }
}

/// An error met while attaching a prefix of the trees is the error of every longer
/// prefix.
pub proof fn lemma_build_prefix_err(trees: Seq<TreeView>, n: nat, m: nat)
    requires
        n <= m,
        build_prefix(trees, n) is Err,
    ensures
        build_prefix(trees, m) == build_prefix(trees, n),
    decreases m,
{
    if n < m {
        lemma_build_prefix_err(trees, n, (m - 1) as nat);
    }
}

} // verus!
