use crate::error::Error;
use crate::inet::{AuxPort, INet, NetView, Node, Port};
use crate::names::{name_of, NameGen};
use crate::port_map::PortMap;
use crate::roundtrip::lemma_render_all_succeeds;
use crate::tree::{views, Tree, TreeView};
use vstd::prelude::*;

verus! {

/// What a rendering has done so far: the names given to wire ends, and the number
/// of the next fresh name.
pub struct RenderState {
    pub names: Map<AuxPort, Seq<char>>,
    pub next: nat,
}

impl RenderState {
    /// No wire end named, and the first name next.
    pub open spec fn start() -> RenderState {
        RenderState { names: Map::empty(), next: 0 }
    }
}

/// The tree below `port`, and the state after rendering it.
///
/// A principal port renders as its node: an eraser, or a constructor with the
/// agent's label and the trees below its left and right slots, in that order. An
/// auxiliary port that has a name renders as that name. One without a name takes
/// the next fresh name, which is recorded for the port and for the port that its
/// slot holds; a slot that holds a principal port there is an error.
pub open spec fn render(net: NetView, port: Port, st: RenderState) -> Result<
    (TreeView, RenderState),
    Error,
>
    decreases net.rank(port),
    when net.forward()
{
    match port {
        Port::Principal(n) => if n < net.nodes.len() {
            match net.nodes[n as int] {
                Node::Era(_) => Ok((TreeView::Era, st)),
                Node::Agent(agent) => match render(net, agent.left, st) {
                    Err(e) => Err(e),
                    Ok((t1, st1)) => match render(net, agent.right, st1) {
                        Err(e) => Err(e),
                        Ok((t2, st2)) => Ok(
                            (
                                TreeView::Ctr {
                                    lab: agent.label,
                                    p1: Box::new(t1),
                                    p2: Box::new(t2),
                                },
                                st2,
                            ),
                        ),
                    },
                },
            }
        } else {
            Err(Error::IndexOutOfRange)
        },
        Port::Aux(end) => if st.names.contains_key(end) {
            Ok((TreeView::Var(st.names[end]), st))
        } else {
            match net.read_aux(end) {
                Err(e) => Err(e),
                Ok(Port::Principal(_)) => Err(Error::InvariantViolation),
                Ok(Port::Aux(other)) => {
                    let name = name_of(st.next);
                    Ok(
                        (
                            TreeView::Var(name),
                            RenderState {
                                names: st.names.insert(end, name).insert(other, name),
                                next: st.next + 1,
                            },
                        ),
                    )
                },
            }
        },
    }
}

/// The trees below the first `n` free ports, rendered in order with one run of
/// fresh names, and the state after them.
pub open spec fn render_prefix(net: NetView, n: nat) -> Result<(Seq<TreeView>, RenderState), Error>
    decreases n,
{
    if n == 0 {
        Ok((Seq::empty(), RenderState::start()))
    } else {
        match render_prefix(net, (n - 1) as nat) {
            Err(e) => Err(e),
            Ok((trees, st)) => match render(net, net.free_ports[n - 1], st) {
                Err(e) => Err(e),
                Ok((tree, st1)) => Ok((trees.push(tree), st1)),
            },
        }
    }
}

/// The trees of the net, one per free port.
pub open spec fn render_all(net: NetView) -> Result<Seq<TreeView>, Error> {
    match render_prefix(net, net.free_ports.len()) {
        Ok((trees, _)) => Ok(trees),
        Err(e) => Err(e),
    }
}

/// An error met while rendering a prefix of the free ports is the error of every
/// longer prefix.
pub proof fn lemma_render_prefix_err(net: NetView, n: nat, m: nat)
    requires
        n <= m,
        render_prefix(net, n) is Err,
    ensures
        render_prefix(net, m) == render_prefix(net, n),
    decreases m,
{
    if n < m {
        lemma_render_prefix_err(net, n, (m - 1) as nat);
    }
}

/// The names in a table, as sequences of characters.
pub open spec fn names_of(table: Map<AuxPort, String>) -> Map<AuxPort, Seq<char>> {
    Map::new(|p: AuxPort| table.contains_key(p), |p: AuxPort| table[p]@)
}

/// The state made of a table of names and the number of the next name.
pub open spec fn state_of(table: Map<AuxPort, String>, next: nat) -> RenderState {
    RenderState { names: names_of(table), next }
}

/// Whether the outcome `r`, with the state `after` left behind, is what `expected`
/// asks for: the same error, or the expected tree with exactly the expected state.
pub open spec fn rendered(
    expected: Result<(TreeView, RenderState), Error>,
    r: Result<Tree, Error>,
    after: RenderState,
) -> bool {
    match expected {
        Ok((tree, st)) => r is Ok && r->Ok_0@ == tree && after == st,
        Err(e) => r == Err::<Tree, Error>(e),
    }
}

/// Whether `r` is the outcome `expected`: the same error, or trees with exactly the
/// expected contents.
pub open spec fn rendered_all(expected: Result<Seq<TreeView>, Error>, r: Result<Vec<Tree>, Error>) -> bool {
    match r {
        Ok(trees) => expected == Ok::<Seq<TreeView>, Error>(views(trees@)),
        Err(e) => expected == Err::<Seq<TreeView>, Error>(e),
    }
}

/// Renders the tree below `port`, with `wires` as the names given so far and `gen`
/// as the source of fresh names.
pub fn to_tree(port: &Port, net: &INet, wires: &mut PortMap<String>, gen: &mut NameGen) -> (r:
    Result<Tree, Error>)
    requires
        net@.forward(),
        old(gen).wf(),
    ensures
        final(gen).wf(),
        rendered(
            render(net@, *port, state_of(old(wires)@, old(gen)@)),
            r,
            state_of(final(wires)@, final(gen)@),
        ),
    decreases net@.rank(*port),
{
    match *port {
        Port::Principal(node_id) => {
            if node_id >= net.nodes.len() {
                return Err(Error::IndexOutOfRange);
            }
            match net.nodes[node_id] {
                Node::Era(_) => Ok(Tree::Era),
                Node::Agent(agent) => {
                    let p1 = to_tree(&agent.left, net, wires, gen)?;
                    let p2 = to_tree(&agent.right, net, wires, gen)?;
                    Ok(Tree::Ctr { lab: agent.label, p1: Box::new(p1), p2: Box::new(p2) })
                },
            }
        },
        Port::Aux(aux_port1) => {
            let known: Option<String> = match wires.get(&aux_port1) {
                Some(name) => Some(name.clone()),
                None => None,
            };
            match known {
                Some(name) => Ok(Tree::Var(name)),
                None => {
                    match net.aux_port(&aux_port1) {
                        Err(e) => Err(e),
                        Ok(Port::Principal(_)) => Err(Error::InvariantViolation),
                        Ok(Port::Aux(aux_port2)) => {
                            let name = gen.next();
                            wires.insert(aux_port1, name.clone());
                            wires.insert(aux_port2, name.clone());
                            proof {
                                let n = name_of(old(gen)@);
                                assert(names_of(wires@) =~= names_of(old(wires)@).insert(
                                    aux_port1,
                                    n,
                                ).insert(aux_port2, n));
                            }
                            Ok(Tree::Var(name))
                        },
                    }
                },
            }
        },
    }
}

impl INet {
    /// The trees of the net, one per free port and in their order. Wires get fresh
    /// names in the order in which the rendering meets them.
    pub fn to_trees(&self) -> (r: Result<Vec<Tree>, Error>)
        requires
            self@.forward(),
        ensures
            rendered_all(render_all(self@), r),
            r matches Ok(trees) ==> trees@.len() == self@.free_ports.len(),
            self@.plugged() && self@.reciprocal() ==> r is Ok,
    {
        let ports = self.free_ports.len();
        proof {
            if self@.plugged() && self@.reciprocal() {
                lemma_render_all_succeeds(self@);
            }
        }
        let mut res: Vec<Tree> = Vec::new();
        let mut wires: PortMap<String> = PortMap::new();
        let mut gen = NameGen::new();
        let mut k: usize = 0;
        assert(names_of(wires@) =~= Map::empty());
        assert(views(res@) =~= Seq::empty());
        while k < self.free_ports.len()
            invariant
                k <= self.free_ports.len(),
                self@.forward(),
                gen.wf(),
                render_prefix(self@, k as nat) == Ok::<(Seq<TreeView>, RenderState), Error>(
                    (views(res@), state_of(wires@, gen@)),
                ),
                res@.len() == k,
            decreases self.free_ports.len() - k,
        {
            let ghost before = views(res@);
            match to_tree(&self.free_ports[k], self, &mut wires, &mut gen) {
                Ok(tree) => {
                    res.push(tree);
                    assert(views(res@) =~= before.push(tree@));
                },
                Err(e) => {
                    proof {
                        lemma_render_prefix_err(self@, (k + 1) as nat, self@.free_ports.len());
                        if self@.plugged() && self@.reciprocal() {
                            lemma_render_all_succeeds(self@);
                        }
                    }
                    return Err(e);
                },
            }
            k = k + 1;
        }
        Ok(res)
    }
}

} // verus!
