use crate::construct::{attach, build_prefix, fresh_agent, BuildState};
use crate::error::Error;
use crate::inet::{placeholder, AuxPort, Dir, NetView, Node, Port};
use crate::tree::TreeView;
use crate::wiring::{
    building, lemma_attach_building, lemma_attach_grows, lemma_build_prefix_building,
    lemma_with_node_building, lemma_with_node_grows_len, lemma_write_reads, settled,
    waiting_after, waiting_in,
};
use vstd::prelude::*;

verus! {

/// Whether the node `later` is the node `earlier` but for what its slots hold.
pub open spec fn same_node(earlier: Node, later: Node) -> bool {
    match earlier {
        Node::Era(end) => later == earlier,
        Node::Agent(agent) => later is Agent && later->Agent_0.label == agent.label
            && later->Agent_0.principal == agent.principal,
    }
}

/// Whether the state `later` can come after `earlier` in one construction: it
/// keeps the nodes, but for what their slots hold; it keeps every principal port
/// in its slot; and it keeps, for every name, the slot of the first occurrence and,
/// once it is there, that of the second.
pub open spec fn precedes(earlier: BuildState, later: BuildState) -> bool {
    &&& later.net.nodes.len() >= earlier.net.nodes.len()
    &&& later.net.free_ports.len() >= earlier.net.free_ports.len()
    &&& forall|p: AuxPort| #[trigger] earlier.net.read_aux(p) is Ok ==> later.net.read_aux(p) is Ok
    &&& forall|m: int|
        0 <= m < earlier.net.nodes.len() ==> same_node(
            earlier.net.nodes[m],
            #[trigger] later.net.nodes[m],
        )
    &&& forall|s: AuxPort|
        (#[trigger] earlier.net.read_aux(s)) matches Ok(Port::Principal(m)) ==> later.net.read_aux(
            s,
        ) == earlier.net.read_aux(s)
    &&& forall|x: Seq<char>| #[trigger]
        earlier.wires.contains_key(x) ==> {
            &&& later.wires.contains_key(x)
            &&& later.wires[x].first == earlier.wires[x].first
            &&& earlier.wires[x].second is Some ==> later.wires[x] == earlier.wires[x]
        }
}

/// What can come after what can come after a state can come after that state.
pub proof fn lemma_precedes_trans(a: BuildState, b: BuildState, c: BuildState)
    requires
        precedes(a, b),
        precedes(b, c),
    ensures
        precedes(a, c),
{
    assert forall|p: AuxPort| #[trigger] a.net.read_aux(p) is Ok implies c.net.read_aux(p) is Ok by {
        assert(b.net.read_aux(p) is Ok);
    }
    assert forall|m: int| 0 <= m < a.net.nodes.len() implies same_node(
        a.net.nodes[m],
        #[trigger] c.net.nodes[m],
    ) by {
        assert(same_node(a.net.nodes[m], b.net.nodes[m]));
        assert(same_node(b.net.nodes[m], c.net.nodes[m]));
    }
    assert forall|s: AuxPort|
        (#[trigger] a.net.read_aux(s)) matches Ok(Port::Principal(m)) implies c.net.read_aux(s)
        == a.net.read_aux(s) by {
        assert(b.net.read_aux(s) == a.net.read_aux(s));
    }
    assert forall|x: Seq<char>| #[trigger] a.wires.contains_key(x) implies {
        &&& c.wires.contains_key(x)
        &&& c.wires[x].first == a.wires[x].first
        &&& a.wires[x].second is Some ==> c.wires[x] == a.wires[x]
    } by {
        assert(b.wires.contains_key(x));
    }
}

/// Writing a slot that holds the placeholder gives a state that can come after.
pub proof fn lemma_write_precedes(st: BuildState, key: AuxPort, value: Port)
    requires
        st.net.read_aux(key) == Ok::<Port, Error>(placeholder()),
    ensures
        precedes(st, BuildState { net: st.net.write(key, value), ..st }),
{
    lemma_write_reads(st.net, key, value);
    let after = st.net.write(key, value);
    assert forall|m: int| 0 <= m < st.net.nodes.len() implies same_node(
        st.net.nodes[m],
        #[trigger] after.nodes[m],
    ) by {}
}

/// Allocating a node below a slot that holds the placeholder gives a state that
/// can come after.
pub proof fn lemma_with_node_precedes(st: BuildState, node: Node, parent: AuxPort)
    requires
        st.net.read_aux(parent) == Ok::<Port, Error>(placeholder()),
        st.net.nodes.len() < usize::MAX,
    ensures
        precedes(st, st.with_node(node, parent)),
        st.with_node(node, parent).net.read_aux(parent) == Ok::<Port, Error>(
            Port::Principal(st.net.nodes.len() as usize),
        ),
        same_node(node, st.with_node(node, parent).net.nodes[st.net.nodes.len() as int]),
{
    let pushed = BuildState { net: NetView { nodes: st.net.nodes.push(node), ..st.net }, ..st };
    assert(forall|s: AuxPort| #[trigger] st.net.read_aux(s) is Ok ==> pushed.net.read_aux(s) == st.net.read_aux(s));
    assert(precedes(st, pushed)) by {
        assert forall|m: int| 0 <= m < st.net.nodes.len() implies same_node(
            st.net.nodes[m],
            #[trigger] pushed.net.nodes[m],
        ) by {}
    }
    lemma_write_precedes(pushed, parent, Port::Principal(st.net.nodes.len() as usize));
    lemma_precedes_trans(pushed, st.with_node(node, parent), st.with_node(node, parent));
    lemma_precedes_trans(st, pushed, st.with_node(node, parent));
    lemma_write_reads(pushed.net, parent, Port::Principal(st.net.nodes.len() as usize));
}

/// The state after a tree was attached can come after the state before.
pub proof fn lemma_attach_precedes(
    st: BuildState,
    unattached: Set<AuxPort>,
    waiting: Map<AuxPort, Seq<char>>,
    tree: TreeView,
    parent: AuxPort,
)
    requires
        building(st, unattached, waiting),
        unattached.contains(parent),
        attach(st, tree, parent) is Ok,
        attach(st, tree, parent)->Ok_0.net.nodes.len() <= usize::MAX,
    ensures
        precedes(st, attach(st, tree, parent)->Ok_0),
    decreases tree,
{
    let st9 = attach(st, tree, parent)->Ok_0;
    match tree {
        TreeView::Era => {
            lemma_with_node_grows_len(st, Node::Era(parent), parent);
            lemma_with_node_precedes(st, Node::Era(parent), parent);
        },
        TreeView::Ctr { lab, p1, p2 } => {
            let id = st.net.nodes.len() as usize;
            let left = AuxPort::Node { dir: Dir::Left, node: id };
            let right = AuxPort::Node { dir: Dir::Right, node: id };
            let st0 = st.with_node(fresh_agent(lab, parent), parent);
            let st1 = attach(st0, *p1, left)->Ok_0;
            lemma_attach_grows(st0, *p1, left);
            lemma_attach_grows(st1, *p2, right);
            lemma_with_node_grows_len(st, fresh_agent(lab, parent), parent);
            lemma_with_node_precedes(st, fresh_agent(lab, parent), parent);
            lemma_with_node_building(st, unattached, waiting, fresh_agent(lab, parent), parent);
            let u0 = unattached.remove(parent).insert(left).insert(right);
            lemma_attach_building(st0, u0, waiting, *p1, left);
            lemma_attach_precedes(st0, u0, waiting, *p1, left);
            let w1 = waiting_after(st0, waiting, *p1, left);
            let u1 = u0.remove(left);
            assert(u1.contains(right));
            lemma_attach_precedes(st1, u1, w1, *p2, right);
            lemma_precedes_trans(st, st0, st1);
            lemma_precedes_trans(st, st1, st9);
        },
        TreeView::Var(name) => {
            if st.wires.contains_key(name) {
                let a = st.wires[name].first;
                assert(waiting.contains_key(a) && waiting[a] == name);
                let mid = BuildState { net: st.net.write(parent, Port::Aux(a)), ..st };
                lemma_write_precedes(st, parent, Port::Aux(a));
                lemma_write_reads(st.net, parent, Port::Aux(a));
                assert(a != parent);
                lemma_write_precedes(mid, a, Port::Aux(parent));
                let end = BuildState { net: mid.net.write(a, Port::Aux(parent)), ..mid };
                lemma_precedes_trans(st, mid, end);
                assert(precedes(end, st9));
                lemma_precedes_trans(st, end, st9);
            }
        },
        TreeView::Other => {},
    }
}

/// The record of the wire ends. For every name that was met, the slots of its
/// occurrences belong to it, and once both were met they hold each other. Every
/// slot that belongs to a name is one of the name's slots, can be read, and is not
/// unattached.
pub open spec fn tabled(st: BuildState, unattached: Set<AuxPort>, owner: Map<AuxPort, Seq<char>>) -> bool {
    &&& forall|x: Seq<char>| #[trigger]
        st.wires.contains_key(x) ==> {
            let w = st.wires[x];
            &&& owner.contains_key(w.first)
            &&& owner[w.first] == x
            &&& w.second matches Some(b) ==> {
                &&& owner.contains_key(b)
                &&& owner[b] == x
                &&& st.net.read_aux(w.first) == Ok::<Port, Error>(Port::Aux(b))
                &&& st.net.read_aux(b) == Ok::<Port, Error>(Port::Aux(w.first))
            }
        }
    &&& forall|q: AuxPort| #[trigger]
        owner.contains_key(q) ==> {
            &&& st.wires.contains_key(owner[q])
            &&& (st.wires[owner[q]].first == q || st.wires[owner[q]].second == Some(q))
            &&& !unattached.contains(q)
            &&& st.net.read_aux(q) is Ok
        }
}

/// To which names the wire ends belong after `tree` was attached to `parent`.
pub open spec fn owner_after(st: BuildState, owner: Map<AuxPort, Seq<char>>, tree: TreeView, parent: AuxPort) -> Map<AuxPort, Seq<char>>
    decreases tree,
{
    match tree {
        TreeView::Ctr { lab, p1, p2 } => {
            let id = st.net.nodes.len() as usize;
            let left = AuxPort::Node { dir: Dir::Left, node: id };
            let right = AuxPort::Node { dir: Dir::Right, node: id };
            let st0 = st.with_node(fresh_agent(lab, parent), parent);
            match attach(st0, *p1, left) {
                Ok(st1) => owner_after(st1, owner_after(st0, owner, *p1, left), *p2, right),
                Err(_) => owner,
            }
        },
        TreeView::Var(name) => owner.insert(parent, name),
        _ => owner,
    }
}

/// Allocating a node keeps the record of the wire ends.
pub proof fn lemma_with_node_tabled(
    st: BuildState,
    unattached: Set<AuxPort>,
    owner: Map<AuxPort, Seq<char>>,
    node: Node,
    parent: AuxPort,
    more: Set<AuxPort>,
)
    requires
        tabled(st, unattached, owner),
        unattached.contains(parent),
        st.net.read_aux(parent) is Ok,
        forall|s: AuxPort| #[trigger] more.contains(s) ==> unattached.contains(s) || st.net.read_aux(s) is Err,
    ensures
        tabled(st.with_node(node, parent), more, owner),
{
    let id = st.net.nodes.len() as usize;
    let pushed = NetView { nodes: st.net.nodes.push(node), ..st.net };
    let st1 = st.with_node(node, parent);
    assert(forall|s: AuxPort| #[trigger] st.net.read_aux(s) is Ok ==> pushed.read_aux(s) == st.net.read_aux(s));
    lemma_write_reads(pushed, parent, Port::Principal(id));
    assert forall|x: Seq<char>| #[trigger] st1.wires.contains_key(x) implies {
        let w = st1.wires[x];
        &&& owner.contains_key(w.first)
        &&& owner[w.first] == x
        &&& w.second matches Some(b) ==> {
            &&& owner.contains_key(b)
            &&& owner[b] == x
            &&& st1.net.read_aux(w.first) == Ok::<Port, Error>(Port::Aux(b))
            &&& st1.net.read_aux(b) == Ok::<Port, Error>(Port::Aux(w.first))
        }
    } by {
        let w = st.wires[x];
        assert(owner.contains_key(w.first));
        if let Some(b) = w.second {
            assert(owner.contains_key(b));
        }
    }
    assert forall|q: AuxPort| #[trigger] owner.contains_key(q) implies {
        &&& st1.wires.contains_key(owner[q])
        &&& (st1.wires[owner[q]].first == q || st1.wires[owner[q]].second == Some(q))
        &&& !more.contains(q)
        &&& st1.net.read_aux(q) is Ok
    } by {
        assert(st.net.read_aux(q) is Ok);
    }
}

/// Attaching a tree keeps the record of the wire ends.
pub proof fn lemma_attach_tabled(
    st: BuildState,
    unattached: Set<AuxPort>,
    waiting: Map<AuxPort, Seq<char>>,
    owner: Map<AuxPort, Seq<char>>,
    tree: TreeView,
    parent: AuxPort,
)
    requires
        building(st, unattached, waiting),
        tabled(st, unattached, owner),
        unattached.contains(parent),
        attach(st, tree, parent) is Ok,
        attach(st, tree, parent)->Ok_0.net.nodes.len() <= usize::MAX,
    ensures
        tabled(
            attach(st, tree, parent)->Ok_0,
            unattached.remove(parent),
            owner_after(st, owner, tree, parent),
        ),
    decreases tree,
{
    let st9 = attach(st, tree, parent)->Ok_0;
    let u9 = unattached.remove(parent);
    match tree {
        TreeView::Era => {
            lemma_with_node_tabled(st, unattached, owner, Node::Era(parent), parent, u9);
        },
        TreeView::Ctr { lab, p1, p2 } => {
            let id = st.net.nodes.len() as usize;
            let left = AuxPort::Node { dir: Dir::Left, node: id };
            let right = AuxPort::Node { dir: Dir::Right, node: id };
            let st0 = st.with_node(fresh_agent(lab, parent), parent);
            let st1 = attach(st0, *p1, left)->Ok_0;
            lemma_attach_grows(st0, *p1, left);
            lemma_attach_grows(st1, *p2, right);
            lemma_with_node_grows_len(st, fresh_agent(lab, parent), parent);
            lemma_with_node_building(st, unattached, waiting, fresh_agent(lab, parent), parent);
            let u0 = unattached.remove(parent).insert(left).insert(right);
            assert(st.net.read_aux(left) is Err);
            assert(st.net.read_aux(right) is Err);
            lemma_with_node_tabled(st, unattached, owner, fresh_agent(lab, parent), parent, u0);
            lemma_attach_building(st0, u0, waiting, *p1, left);
            lemma_attach_tabled(st0, u0, waiting, owner, *p1, left);
            let w1 = waiting_after(st0, waiting, *p1, left);
            let o1 = owner_after(st0, owner, *p1, left);
            let u1 = u0.remove(left);
            assert(u1.contains(right));
            lemma_attach_tabled(st1, u1, w1, o1, *p2, right);
            assert(u1.remove(right) =~= u9);
        },
        TreeView::Var(name) => {
            let o9 = owner.insert(parent, name);
            assert(!owner.contains_key(parent));
            if st.wires.contains_key(name) {
                let a = st.wires[name].first;
                assert(waiting.contains_key(a) && waiting[a] == name);
                assert(a != parent);
                let n1 = st.net.write(parent, Port::Aux(a));
                lemma_write_reads(st.net, parent, Port::Aux(a));
                lemma_write_reads(n1, a, Port::Aux(parent));
                assert forall|x: Seq<char>| #[trigger] st9.wires.contains_key(x) implies {
                    let w = st9.wires[x];
                    &&& o9.contains_key(w.first)
                    &&& o9[w.first] == x
                    &&& w.second matches Some(b) ==> {
                        &&& o9.contains_key(b)
                        &&& o9[b] == x
                        &&& st9.net.read_aux(w.first) == Ok::<Port, Error>(Port::Aux(b))
                        &&& st9.net.read_aux(b) == Ok::<Port, Error>(Port::Aux(w.first))
                    }
                } by {
                    if x != name {
                        let w = st.wires[x];
                        assert(owner.contains_key(w.first));
                        assert(w.first != a);
                        if let Some(b) = w.second {
                            assert(owner.contains_key(b));
                            assert(b != a);
                        }
                    } else {
                        assert(owner.contains_key(a));
                    }
                }
                assert forall|q: AuxPort| #[trigger] o9.contains_key(q) implies {
                    &&& st9.wires.contains_key(o9[q])
                    &&& (st9.wires[o9[q]].first == q || st9.wires[o9[q]].second == Some(q))
                    &&& !u9.contains(q)
                    &&& st9.net.read_aux(q) is Ok
                } by {
                    if q != parent {
                        assert(owner.contains_key(q));
                        if owner[q] == name {
                            assert(st.wires[name].second is None);
                        }
                    }
                }
            } else {
                assert forall|x: Seq<char>| #[trigger] st9.wires.contains_key(x) implies {
                    let w = st9.wires[x];
                    &&& o9.contains_key(w.first)
                    &&& o9[w.first] == x
                    &&& w.second matches Some(b) ==> {
                        &&& o9.contains_key(b)
                        &&& o9[b] == x
                        &&& st9.net.read_aux(w.first) == Ok::<Port, Error>(Port::Aux(b))
                        &&& st9.net.read_aux(b) == Ok::<Port, Error>(Port::Aux(w.first))
                    }
                } by {
                    if x != name {
                        let w = st.wires[x];
                        assert(owner.contains_key(w.first));
                        if let Some(b) = w.second {
                            assert(owner.contains_key(b));
                        }
                    }
                }
                assert forall|q: AuxPort| #[trigger] o9.contains_key(q) implies {
                    &&& st9.wires.contains_key(o9[q])
                    &&& (st9.wires[o9[q]].first == q || st9.wires[o9[q]].second == Some(q))
                    &&& !u9.contains(q)
                    &&& st9.net.read_aux(q) is Ok
                } by {
                    if q != parent {
                        assert(owner.contains_key(q));
                    }
                }
            }
        },
        TreeView::Other => {},
    }
}

/// To which names the wire ends belong after the first `n` of `trees` were
/// attached.
pub open spec fn owner_in(trees: Seq<TreeView>, n: nat) -> Map<AuxPort, Seq<char>>
    decreases n,
{
    if n == 0 {
        Map::empty()
    } else {
        match build_prefix(trees, (n - 1) as nat) {
            Ok(st) => owner_after(
                st.with_free_port(),
                owner_in(trees, (n - 1) as nat),
                trees[n - 1],
                AuxPort::Free((n - 1) as usize),
            ),
            Err(_) => Map::empty(),
        }
    }
}

/// A new free port keeps the invariant of the net under construction, with the new
/// port unattached.
pub proof fn lemma_free_port_building(st: BuildState, waiting: Map<AuxPort, Seq<char>>)
    requires
        building(st, Set::empty(), waiting),
        st.net.free_ports.len() < usize::MAX,
    ensures
        building(
            st.with_free_port(),
            Set::<AuxPort>::empty().insert(AuxPort::Free(st.net.free_ports.len() as usize)),
            waiting,
        ),
{
    let st0 = st.with_free_port();
    let parent = AuxPort::Free(st.net.free_ports.len() as usize);
    let unattached = Set::<AuxPort>::empty().insert(parent);
    assert(forall|s: AuxPort| s != parent ==> #[trigger] st0.net.read_aux(s) == st.net.read_aux(s));
    assert(st0.net.read_aux(parent) == Ok::<Port, Error>(placeholder()));
    assert(st.net.read_aux(parent) is Err);
    assert forall|s: AuxPort| (#[trigger] st0.net.read_aux(s)) is Ok implies unattached.contains(s)
        || waiting.contains_key(s) || settled(st0.net, unattached, waiting, s) by {
        if s != parent && !waiting.contains_key(s) {
            assert(settled(st.net, Set::empty(), waiting, s));
            match st.net.read_aux(s) {
                Ok(Port::Aux(q)) => {
                    assert(st.net.read_aux(q) is Ok);
                },
                _ => {},
            }
        }
    }
    assert forall|x: int| 0 <= x < st0.net.nodes.len() implies st0.net.read_aux(
        (#[trigger] st0.net.nodes[x]).plug(),
    ) == Ok::<Port, Error>(Port::Principal(x as usize)) by {
        let ps = st.net.nodes[x].plug();
        assert(st.net.read_aux(ps) is Ok);
    }
}

/// A new free port keeps the record of the wire ends, with the new port
/// unattached.
pub proof fn lemma_free_port_tabled(st: BuildState, owner: Map<AuxPort, Seq<char>>)
    requires
        tabled(st, Set::empty(), owner),
        st.net.free_ports.len() < usize::MAX,
    ensures
        tabled(
            st.with_free_port(),
            Set::<AuxPort>::empty().insert(AuxPort::Free(st.net.free_ports.len() as usize)),
            owner,
        ),
{
    let st0 = st.with_free_port();
    let parent = AuxPort::Free(st.net.free_ports.len() as usize);
    let unattached = Set::<AuxPort>::empty().insert(parent);
    assert(forall|s: AuxPort| s != parent ==> #[trigger] st0.net.read_aux(s) == st.net.read_aux(s));
    assert(st.net.read_aux(parent) is Err);
    assert forall|x: Seq<char>| #[trigger] st0.wires.contains_key(x) implies {
        let w = st0.wires[x];
        &&& owner.contains_key(w.first)
        &&& owner[w.first] == x
        &&& w.second matches Some(b) ==> {
            &&& owner.contains_key(b)
            &&& owner[b] == x
            &&& st0.net.read_aux(w.first) == Ok::<Port, Error>(Port::Aux(b))
            &&& st0.net.read_aux(b) == Ok::<Port, Error>(Port::Aux(w.first))
        }
    } by {
        let w = st.wires[x];
        assert(owner.contains_key(w.first));
        assert(st.net.read_aux(w.first) is Ok);
        if let Some(b) = w.second {
            assert(owner.contains_key(b));
            assert(st.net.read_aux(b) is Ok);
        }
    }
    assert forall|q: AuxPort| #[trigger] owner.contains_key(q) implies {
        &&& st0.wires.contains_key(owner[q])
        &&& (st0.wires[owner[q]].first == q || st0.wires[owner[q]].second == Some(q))
        &&& !unattached.contains(q)
        &&& st0.net.read_aux(q) is Ok
    } by {
        assert(st.net.read_aux(q) is Ok);
    }
}

/// The state with a new free port can come after the state before.
pub proof fn lemma_free_port_precedes(st: BuildState)
    ensures
        precedes(st, st.with_free_port()),
{
    let st0 = st.with_free_port();
    assert forall|x: int| 0 <= x < st.net.nodes.len() implies same_node(
        st.net.nodes[x],
        #[trigger] st0.net.nodes[x],
    ) by {}
}

/// After a prefix of the trees was attached, the record of the wire ends holds.
pub proof fn lemma_build_prefix_tabled(trees: Seq<TreeView>, n: nat)
    requires
        n <= usize::MAX,
        build_prefix(trees, n) is Ok,
        build_prefix(trees, n)->Ok_0.net.nodes.len() <= usize::MAX,
    ensures
        tabled(build_prefix(trees, n)->Ok_0, Set::empty(), owner_in(trees, n)),
    decreases n,
{
    if n > 0 {
        let m = (n - 1) as nat;
        let st = build_prefix(trees, m)->Ok_0;
        let st0 = st.with_free_port();
        let parent = AuxPort::Free(m as usize);
        lemma_attach_grows(st0, trees[n - 1], parent);
        lemma_build_prefix_building(trees, m);
        lemma_build_prefix_tabled(trees, m);
        let waiting = waiting_in(trees, m);
        let owner = owner_in(trees, m);
        let unattached = Set::<AuxPort>::empty().insert(parent);
        lemma_free_port_building(st, waiting);
        lemma_free_port_tabled(st, owner);
        lemma_attach_tabled(st0, unattached, waiting, owner, trees[n - 1], parent);
        assert(unattached.remove(parent) =~= Set::empty());
    }
}

/// A state can come after itself.
pub proof fn lemma_precedes_refl(st: BuildState)
    ensures
        precedes(st, st),
{
    assert forall|m: int| 0 <= m < st.net.nodes.len() implies same_node(
        st.net.nodes[m],
        #[trigger] st.net.nodes[m],
    ) by {}
}

} // verus!
