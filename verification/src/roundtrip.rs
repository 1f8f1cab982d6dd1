use crate::construct::{attach, build, build_prefix, fresh_agent, BuildState, Wire};
use crate::error::Error;
use crate::inet::{AuxPort, Dir, NetView, Node, Port};
use crate::names::{lemma_name_of_injective, name_of};
use crate::renaming::{extends, injective, lemma_build_renamed, lemma_renamed_extends, renamed_all};
use crate::render::{render, render_all, render_prefix, RenderState};
use crate::tables::{
    lemma_attach_precedes, lemma_build_prefix_tabled,
    lemma_free_port_building, lemma_free_port_precedes, lemma_precedes_refl, lemma_precedes_trans,
    lemma_with_node_precedes, owner_in, precedes, same_node, tabled,
};
use crate::tree::TreeView;
use crate::wiring::{
    all_paired, building, lemma_attach_building, lemma_attach_grows, lemma_build_prefix_building,
    lemma_build_prefix_outcome, lemma_built_shape, lemma_with_node_building,
    lemma_with_node_grows_len, occurrences_in, seen, waiting_after, waiting_in,
};
use vstd::prelude::*;

verus! {

/// The record of the wire ends of a finished net: it holds with no slot
/// unattached, and every name has both of its slots.
pub open spec fn sealed(fin: BuildState, owner: Map<AuxPort, Seq<char>>) -> bool {
    &&& tabled(fin, Set::empty(), owner)
    &&& forall|x: Seq<char>| #[trigger] fin.wires.contains_key(x) ==> fin.wires[x].second is Some
}

/// How a rendering of the finished net stands to the construction that has come
/// as far: `rho` gives each name met so far the fresh name of its wire, different
/// names for different wires and none that is still to come; and the rendering has
/// named exactly the ends of these wires, each with the fresh name of its wire.
pub open spec fn named(
    sigma: RenderState,
    st: BuildState,
    rho: Map<Seq<char>, Seq<char>>,
    owner: Map<AuxPort, Seq<char>>,
) -> bool {
    &&& forall|x: Seq<char>|
        #![trigger rho.contains_key(x)]
        #![trigger st.wires.contains_key(x)]
        rho.contains_key(x) <==> st.wires.contains_key(x)
    &&& injective(rho)
    &&& forall|x: Seq<char>, j: nat|
        rho.contains_key(x) && j >= sigma.next ==> #[trigger] rho[x] != #[trigger] name_of(j)
    &&& forall|q: AuxPort|
        #![trigger sigma.names.contains_key(q)]
        #![trigger owner.contains_key(q)]
        sigma.names.contains_key(q) <==> owner.contains_key(q) && st.wires.contains_key(owner[q])
    &&& forall|q: AuxPort| #[trigger]
        sigma.names.contains_key(q) ==> sigma.names[q] == rho[owner[q]]
}

/// Rendering the finished net below a slot gives the tree that was attached to
/// that slot, with each variable under the fresh name of its wire.
pub proof fn lemma_render_attach(
    fin: BuildState,
    owner: Map<AuxPort, Seq<char>>,
    st: BuildState,
    unattached: Set<AuxPort>,
    waiting: Map<AuxPort, Seq<char>>,
    tree: TreeView,
    parent: AuxPort,
    sigma: RenderState,
    rho: Map<Seq<char>, Seq<char>>,
) -> (r: (Map<Seq<char>, Seq<char>>, RenderState))
    requires
        fin.net.forward(),
        fin.net.nodes.len() <= usize::MAX,
        sealed(fin, owner),
        building(st, unattached, waiting),
        unattached.contains(parent),
        attach(st, tree, parent) is Ok,
        precedes(attach(st, tree, parent)->Ok_0, fin),
        named(sigma, st, rho, owner),
    ensures
        fin.net.read_aux(parent) is Ok,
        render(fin.net, fin.net.read_aux(parent)->Ok_0, sigma) == Ok::<
            (TreeView, RenderState),
            Error,
        >((tree.renamed(r.0), r.1)),
        named(r.1, attach(st, tree, parent)->Ok_0, r.0, owner),
        extends(r.0, rho),
        tree.named_by(r.0),
    decreases tree,
{
    let st9 = attach(st, tree, parent)->Ok_0;
    match tree {
        TreeView::Era => {
            let id = st.net.nodes.len();
            lemma_with_node_grows_len(st, Node::Era(parent), parent);
            lemma_with_node_precedes(st, Node::Era(parent), parent);
            assert(st9.net.read_aux(parent) == Ok::<Port, Error>(Port::Principal(id as usize)));
            assert(fin.net.read_aux(parent) == st9.net.read_aux(parent));
            assert(same_node(st9.net.nodes[id as int], fin.net.nodes[id as int]));
            (rho, sigma)
        },
        TreeView::Ctr { lab, p1, p2 } => {
            let id = st.net.nodes.len() as usize;
            let left = AuxPort::Node { dir: Dir::Left, node: id };
            let right = AuxPort::Node { dir: Dir::Right, node: id };
            let node = fresh_agent(lab, parent);
            let st0 = st.with_node(node, parent);
            let st1 = attach(st0, *p1, left)->Ok_0;
            lemma_attach_grows(st0, *p1, left);
            lemma_attach_grows(st1, *p2, right);
            lemma_with_node_grows_len(st, node, parent);
            lemma_with_node_precedes(st, node, parent);
            lemma_with_node_building(st, unattached, waiting, node, parent);
            let u0 = unattached.remove(parent).insert(left).insert(right);
            lemma_attach_building(st0, u0, waiting, *p1, left);
            lemma_attach_precedes(st0, u0, waiting, *p1, left);
            let w1 = waiting_after(st0, waiting, *p1, left);
            let u1 = u0.remove(left);
            assert(u1.contains(right));
            lemma_attach_precedes(st1, u1, w1, *p2, right);
            lemma_precedes_trans(st1, st9, fin);
            lemma_precedes_trans(st0, st1, fin);
            assert(fin.net.read_aux(parent) == st0.net.read_aux(parent));
            assert(same_node(st0.net.nodes[id as int], fin.net.nodes[id as int]));
            let agent = fin.net.nodes[id as int]->Agent_0;
            assert(fin.net.read_aux(left) == Ok::<Port, Error>(agent.left));
            assert(fin.net.read_aux(right) == Ok::<Port, Error>(agent.right));
            let r1 = lemma_render_attach(fin, owner, st0, u0, waiting, *p1, left, sigma, rho);
            let r2 = lemma_render_attach(fin, owner, st1, u1, w1, *p2, right, r1.1, r1.0);
            lemma_renamed_extends(*p1, r1.0, r2.0);
            assert(extends(r2.0, rho)) by {
                assert forall|x: Seq<char>| #[trigger] rho.contains_key(x) implies r2.0.contains_key(
                    x,
                ) && r2.0[x] == rho[x] by {
                    assert(r1.0.contains_key(x));
                }
            }
            r2
        },
        TreeView::Var(x) => {
            if st.wires.contains_key(x) {
                let a = st.wires[x].first;
                assert(st9.wires[x] == Wire { first: a, second: Some(parent) });
                assert(st9.wires.contains_key(x));
                assert(fin.wires[x] == st9.wires[x]);
                assert(fin.net.read_aux(parent) == Ok::<Port, Error>(Port::Aux(a)));
                assert(owner.contains_key(a) && owner[a] == x);
                assert(sigma.names.contains_key(a));
                assert(rho.contains_key(x));
                assert(named(sigma, st9, rho, owner)) by {
                    assert forall|y: Seq<char>|
                        #![trigger rho.contains_key(y)]
                        #![trigger st9.wires.contains_key(y)]
                        rho.contains_key(y) <==> st9.wires.contains_key(y) by {
                        assert(st9.wires.contains_key(y) <==> st.wires.contains_key(y));
                    }
                    assert forall|q: AuxPort|
                        #![trigger sigma.names.contains_key(q)]
                        #![trigger owner.contains_key(q)]
                        sigma.names.contains_key(q) <==> owner.contains_key(q)
                            && st9.wires.contains_key(owner[q]) by {
                        if owner.contains_key(q) {
                            assert(st9.wires.contains_key(owner[q]) <==> st.wires.contains_key(
                                owner[q],
                            ));
                        }
                    }
                }
                (rho, sigma)
            } else {
                assert(st9.wires[x] == Wire { first: parent, second: None });
                assert(st9.wires.contains_key(x));
                assert(fin.wires.contains_key(x) && fin.wires[x].first == parent);
                let b = fin.wires[x].second->Some_0;
                assert(fin.net.read_aux(parent) == Ok::<Port, Error>(Port::Aux(b)));
                assert(fin.net.read_aux(b) == Ok::<Port, Error>(Port::Aux(parent)));
                assert(owner.contains_key(b) && owner[b] == x);
                assert(owner.contains_key(parent) && owner[parent] == x);
                assert(!sigma.names.contains_key(b));
                let fresh = name_of(sigma.next);
                let sigma9 = RenderState {
                    names: sigma.names.insert(b, fresh).insert(parent, fresh),
                    next: sigma.next + 1,
                };
                let rho9 = rho.insert(x, fresh);
                assert(!rho.contains_key(x));
                assert(named(sigma9, st9, rho9, owner)) by {
                    assert forall|y: Seq<char>|
                        #![trigger rho9.contains_key(y)]
                        #![trigger st9.wires.contains_key(y)]
                        rho9.contains_key(y) <==> st9.wires.contains_key(y) by {
                        if y != x {
                            assert(st9.wires.contains_key(y) <==> st.wires.contains_key(y));
                            assert(rho.contains_key(y) <==> st.wires.contains_key(y));
                        }
                    }
                    assert forall|y: Seq<char>, z: Seq<char>|
                        rho9.contains_key(y) && rho9.contains_key(z) && #[trigger] rho9[y]
                            == #[trigger] rho9[z] implies y == z by {
                        if y == x && z != x {
                            assert(rho[z] != name_of(sigma.next));
                        } else if z == x && y != x {
                            assert(rho[y] != name_of(sigma.next));
                        } else if y != x && z != x {
                            assert(rho[y] == rho[z]);
                        }
                    }
                    assert forall|y: Seq<char>, j: nat|
                        rho9.contains_key(y) && j >= sigma9.next implies #[trigger] rho9[y]
                        != #[trigger] name_of(j) by {
                        if y == x {
                            if name_of(j) == name_of(sigma.next) {
                                lemma_name_of_injective(j, sigma.next);
                            }
                        } else {
                            assert(rho[y] != name_of(j));
                        }
                    }
                    assert forall|q: AuxPort|
                        #![trigger sigma9.names.contains_key(q)]
                        #![trigger owner.contains_key(q)]
                        sigma9.names.contains_key(q) <==> owner.contains_key(q)
                            && st9.wires.contains_key(owner[q]) by {
                        if owner.contains_key(q) {
                            if owner[q] == x {
                                assert(fin.wires[x].first == q || fin.wires[x].second == Some(q));
                            } else {
                                assert(st9.wires.contains_key(owner[q]) <==> st.wires.contains_key(
                                    owner[q],
                                ));
                                assert(q != b && q != parent);
                            }
                        } else {
                            assert(q != b && q != parent);
                            assert(!sigma.names.contains_key(q));
                        }
                    }
                    assert forall|q: AuxPort| #[trigger]
                        sigma9.names.contains_key(q) implies sigma9.names[q] == rho9[owner[q]] by {
                        if q != b && q != parent {
                            assert(sigma.names.contains_key(q));
                            assert(owner[q] != x);
                        }
                    }
                }
                assert(sigma9.names =~= sigma.names.insert(b, fresh).insert(parent, fresh));
                if b == parent {
                    assert(sigma.names.insert(b, fresh).insert(parent, fresh) =~= sigma.names.insert(
                        parent,
                        fresh,
                    ).insert(b, fresh));
                } else {
                    assert(sigma.names.insert(b, fresh).insert(parent, fresh) =~= sigma.names.insert(
                        parent,
                        fresh,
                    ).insert(b, fresh));
                }
                (rho9, sigma9)
            }
        },
        TreeView::Other => (rho, sigma),
    }
}

/// The trees at the first `n` indices, with every variable `x` renamed to `rho[x]`.
pub open spec fn renamed_prefix(trees: Seq<TreeView>, n: nat, rho: Map<Seq<char>, Seq<char>>) -> Seq<TreeView> {
    Seq::new(n, |i: int| trees[i].renamed(rho))
}

/// Rendering the finished net below its first free ports gives the trees that were
/// attached to them, with each variable under the fresh name of its wire.
pub proof fn lemma_render_prefix(
    trees: Seq<TreeView>,
    n: nat,
    fin: BuildState,
    owner: Map<AuxPort, Seq<char>>,
) -> (r: (Map<Seq<char>, Seq<char>>, RenderState))
    requires
        n <= usize::MAX,
        fin.net.forward(),
        fin.net.nodes.len() <= usize::MAX,
        sealed(fin, owner),
        build_prefix(trees, n) is Ok,
        precedes(build_prefix(trees, n)->Ok_0, fin),
    ensures
        render_prefix(fin.net, n) == Ok::<(Seq<TreeView>, RenderState), Error>(
            (renamed_prefix(trees, n, r.0), r.1),
        ),
        named(r.1, build_prefix(trees, n)->Ok_0, r.0, owner),
        forall|i: int| 0 <= i < n ==> (#[trigger] trees[i]).named_by(r.0),
    decreases n,
{
    if n == 0 {
        let rho = Map::<Seq<char>, Seq<char>>::empty();
        assert(renamed_prefix(trees, 0, rho) =~= Seq::empty());
        (rho, RenderState::start())
    } else {
        let m = (n - 1) as nat;
        let st = build_prefix(trees, m)->Ok_0;
        let st0 = st.with_free_port();
        let parent = AuxPort::Free(m as usize);
        let st9 = build_prefix(trees, n)->Ok_0;
        lemma_attach_grows(st0, trees[n - 1], parent);
        lemma_build_prefix_building(trees, m);
        let waiting = waiting_in(trees, m);
        let unattached = Set::<AuxPort>::empty().insert(parent);
        lemma_free_port_building(st, waiting);
        lemma_free_port_precedes(st);
        lemma_attach_precedes(st0, unattached, waiting, trees[n - 1], parent);
        lemma_precedes_trans(st0, st9, fin);
        lemma_precedes_trans(st, st0, fin);
        let r0 = lemma_render_prefix(trees, m, fin, owner);
        assert(named(r0.1, st0, r0.0, owner));
        let r1 = lemma_render_attach(
            fin,
            owner,
            st0,
            unattached,
            waiting,
            trees[n - 1],
            parent,
            r0.1,
            r0.0,
        );
        assert(fin.net.read_aux(parent) == Ok::<Port, Error>(fin.net.free_ports[m as int]));
        assert forall|i: int| 0 <= i < n implies (#[trigger] trees[i]).named_by(r1.0) by {
            if i < m {
                lemma_renamed_extends(trees[i], r0.0, r1.0);
            }
        }
        assert(renamed_prefix(trees, n, r1.0) =~= renamed_prefix(trees, m, r0.0).push(
            trees[n - 1].renamed(r1.0),
        )) by {
            assert forall|i: int| 0 <= i < m implies trees[i].renamed(r1.0) == trees[i].renamed(
                r0.0,
            ) by {
                lemma_renamed_extends(trees[i], r0.0, r1.0);
            }
        }
        r1
    }
}

/// Trees in which every name occurs exactly twice come back from their net with
/// the variables renamed, one name for one, and the renamed trees build the same
/// net: rendering and building again keeps every node and every wire.
pub proof fn lemma_round_trip(trees: Seq<TreeView>) -> (rho: Map<Seq<char>, Seq<char>>)
    requires
        trees.len() <= usize::MAX,
        build(trees) is Ok,
        build(trees)->Ok_0.nodes.len() <= usize::MAX,
        all_paired(trees),
    ensures
        injective(rho),
        forall|i: int| 0 <= i < trees.len() ==> (#[trigger] trees[i]).named_by(rho),
        render_all(build(trees)->Ok_0) == Ok::<Seq<TreeView>, Error>(renamed_all(trees, rho)),
        build(renamed_all(trees, rho)) == build(trees),
{
    let n = trees.len();
    let fin = build_prefix(trees, n)->Ok_0;
    let owner = owner_in(trees, n);
    lemma_build_prefix_tabled(trees, n);
    lemma_build_prefix_outcome(trees, n);
    lemma_built_shape(trees);
    lemma_precedes_refl(fin);
    assert forall|x: Seq<char>| #[trigger] fin.wires.contains_key(x) implies fin.wires[x].second is Some by {
        assert(seen(fin.wires, x) == occurrences_in(trees, n, x));
    }
    let r = lemma_render_prefix(trees, n, fin, owner);
    assert(renamed_prefix(trees, n, r.0) =~= renamed_all(trees, r.0));
    lemma_build_renamed(trees, r.0);
    r.0
}

/// In a net in which every wire has two ends and every node is plugged in,
/// rendering below what a slot holds does not fail.
pub proof fn lemma_render_succeeds(net: NetView, port: Port, st: RenderState, slot: AuxPort)
    requires
        net.forward(),
        net.reciprocal(),
        net.plugged(),
        net.read_aux(slot) == Ok::<Port, Error>(port),
    ensures
        render(net, port, st) is Ok,
    decreases net.rank(port),
{
    match port {
        Port::Principal(n) => {
            assert(n < net.nodes.len());
            if let Node::Agent(agent) = net.nodes[n as int] {
                let l = AuxPort::Node { dir: Dir::Left, node: n };
                let r = AuxPort::Node { dir: Dir::Right, node: n };
                assert(net.read_aux(l) == Ok::<Port, Error>(agent.left));
                assert(net.read_aux(r) == Ok::<Port, Error>(agent.right));
                lemma_render_succeeds(net, agent.left, st, l);
                let st1 = render(net, agent.left, st)->Ok_0.1;
                lemma_render_succeeds(net, agent.right, st1, r);
            }
        },
        Port::Aux(end) => {
            assert(net.read_aux(end) == Ok::<Port, Error>(Port::Aux(slot)));
        },
    }
}

/// In a net in which every wire has two ends and every node is plugged in,
/// rendering below the first free ports does not fail.
pub proof fn lemma_render_prefix_succeeds(net: NetView, n: nat)
    requires
        net.forward(),
        net.reciprocal(),
        net.plugged(),
        n <= net.free_ports.len() <= usize::MAX,
    ensures
        render_prefix(net, n) is Ok,
    decreases n,
{
    if n > 0 {
        let m = (n - 1) as nat;
        lemma_render_prefix_succeeds(net, m);
        let st = render_prefix(net, m)->Ok_0.1;
        lemma_render_succeeds(net, net.free_ports[n - 1], st, AuxPort::Free(m as usize));
    }
}

/// Whether the net comes back from its trees: it can be rendered, and the trees
/// build the same net again.
pub open spec fn comes_back(net: NetView) -> bool {
    render_all(net) is Ok && build(render_all(net)->Ok_0) == Ok::<NetView, Error>(net)
}

/// The net of trees in which every name occurs exactly twice comes back from its
/// trees.
pub proof fn lemma_built_comes_back(trees: Seq<TreeView>)
    requires
        trees.len() <= usize::MAX,
        build(trees) is Ok,
        build(trees)->Ok_0.nodes.len() <= usize::MAX,
        all_paired(trees),
    ensures
        comes_back(build(trees)->Ok_0),
{
    let rho = lemma_round_trip(trees);
}

/// A net in which every wire has two ends and every node is plugged in can be
/// rendered.
pub proof fn lemma_render_all_succeeds(net: NetView)
    requires
        net.forward(),
        net.reciprocal(),
        net.plugged(),
        net.free_ports.len() <= usize::MAX,
    ensures
        render_all(net) is Ok,
{
    lemma_render_prefix_succeeds(net, net.free_ports.len());
}

} // verus!
