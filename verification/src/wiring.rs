use crate::construct::{attach, build, build_prefix, fresh_agent, grows, BuildState, Wire};
use crate::error::Error;
use crate::inet::{placeholder, points_past, AuxPort, Dir, NetView, Node, Port};
use crate::tree::TreeView;
use vstd::prelude::*;

verus! {

/// How often `name` was met: not at all, once, or twice.
pub open spec fn seen(wires: Map<Seq<char>, Wire>, name: Seq<char>) -> nat {
    if !wires.contains_key(name) {
        0
    } else if wires[name].second is None {
        1
    } else {
        2
    }
}

/// How often `name` occurs in the first `n` of `trees`.
pub open spec fn occurrences_in(trees: Seq<TreeView>, n: nat, name: Seq<char>) -> nat
    decreases n,
{
    if n == 0 {
        0
    } else {
        occurrences_in(trees, (n - 1) as nat, name) + trees[n - 1].occurrences(name)
    }
}

/// Whether the first `n` of `trees` are made of erasers, constructors and
/// variables alone.
pub open spec fn supported_in(trees: Seq<TreeView>, n: nat) -> bool
    decreases n,
{
    n == 0 || (supported_in(trees, (n - 1) as nat) && trees[n - 1].supported())
}

/// Whether no name occurs more than twice in the first `n` of `trees`.
pub open spec fn at_most_twice(trees: Seq<TreeView>, n: nat) -> bool {
    forall|name: Seq<char>| #[trigger] occurrences_in(trees, n, name) <= 2
}

/// Whether every name that occurs in `trees` occurs exactly twice.
pub open spec fn all_paired(trees: Seq<TreeView>) -> bool {
    forall|name: Seq<char>|
        #[trigger] occurrences_in(trees, trees.len(), name) == 0 || occurrences_in(
            trees,
            trees.len(),
            name,
        ) == 2
}

/// The number of erasers and constructors in the first `n` of `trees`.
pub open spec fn nodes_in(trees: Seq<TreeView>, n: nat) -> nat
    decreases n,
{
    if n == 0 {
        0
    } else {
        nodes_in(trees, (n - 1) as nat) + trees[n - 1].node_count()
    }
}

/// Attaching a tree succeeds exactly if the tree is supported and no name is then
/// met a third time; after it, each name was met as often more as it occurs in the
/// tree. A supported tree fails only for a name met a third time, and a tree that
/// keeps every name within two occurrences only for its shape.
pub proof fn lemma_attach_outcome(st: BuildState, tree: TreeView, parent: AuxPort)
    ensures
        attach(st, tree, parent) is Ok <==> tree.supported() && forall|name: Seq<char>|
            seen(st.wires, name) + #[trigger] tree.occurrences(name) <= 2,
        attach(st, tree, parent) matches Ok(st1) ==> forall|name: Seq<char>|
            #[trigger] seen(st1.wires, name) == seen(st.wires, name) + tree.occurrences(name),
        attach(st, tree, parent) matches Err(e) ==> e == Error::VariableOveruse || e
            == Error::UnsupportedTreeShape,
        attach(st, tree, parent) matches Err(e) ==> (tree.supported() ==> e
            == Error::VariableOveruse),
        attach(st, tree, parent) matches Err(e) ==> ((forall|name: Seq<char>|
            seen(st.wires, name) + #[trigger] tree.occurrences(name) <= 2) ==> e
            == Error::UnsupportedTreeShape),
    decreases tree,
{
    match tree {
        TreeView::Era => {},
        TreeView::Ctr { lab, p1, p2 } => {
            let id = st.net.nodes.len() as usize;
            let st0 = st.with_node(fresh_agent(lab, parent), parent);
            let left = AuxPort::Node { dir: Dir::Left, node: id };
            let right = AuxPort::Node { dir: Dir::Right, node: id };
            lemma_attach_outcome(st0, *p1, left);
            assert(st0.wires == st.wires);
            match attach(st0, *p1, left) {
                Ok(st1) => {
                    lemma_attach_outcome(st1, *p2, right);
                    assert forall|name: Seq<char>|
                        seen(st1.wires, name) + #[trigger] p2.occurrences(name) == seen(
                            st.wires,
                            name,
                        ) + tree.occurrences(name) by {
                        assert(seen(st1.wires, name) == seen(st.wires, name) + p1.occurrences(
                            name,
                        ));
                    }
                    if attach(st1, *p2, right) is Ok {
                        let st2 = attach(st1, *p2, right)->Ok_0;
                        assert forall|name: Seq<char>|
                            seen(st.wires, name) + #[trigger] tree.occurrences(name) <= 2 by {
                            assert(seen(st1.wires, name) + p2.occurrences(name) <= 2);
                        }
                        assert forall|name: Seq<char>| #[trigger]
                            seen(st2.wires, name) == seen(st.wires, name) + tree.occurrences(
                                name,
                            ) by {
                            assert(seen(st1.wires, name) + p2.occurrences(name) == seen(
                                st.wires,
                                name,
                            ) + tree.occurrences(name));
                        }
                    } else {
                        if p2.supported() {
                            let name = choose|name: Seq<char>|
                                !(seen(st1.wires, name) + #[trigger] p2.occurrences(name) <= 2);
                            assert(seen(st1.wires, name) + p2.occurrences(name) == seen(
                                st.wires,
                                name,
                            ) + tree.occurrences(name));
                            assert(!(seen(st.wires, name) + tree.occurrences(name) <= 2));
                        }
                        if forall|name: Seq<char>|
                            seen(st.wires, name) + #[trigger] tree.occurrences(name) <= 2 {
                            assert forall|name: Seq<char>|
                                seen(st1.wires, name) + #[trigger] p2.occurrences(name) <= 2 by {
                                assert(seen(st1.wires, name) + p2.occurrences(name) == seen(
                                    st.wires,
                                    name,
                                ) + tree.occurrences(name));
                                assert(seen(st.wires, name) + tree.occurrences(name) <= 2);
                            }
                        }
                    }
                },
                Err(e) => {
                    if p1.supported() {
                        let name = choose|name: Seq<char>|
                            !(seen(st.wires, name) + #[trigger] p1.occurrences(name) <= 2);
                        assert(tree.occurrences(name) >= p1.occurrences(name));
                        assert(!(seen(st.wires, name) + tree.occurrences(name) <= 2));
                    }
                    if forall|name: Seq<char>|
                        seen(st.wires, name) + #[trigger] tree.occurrences(name) <= 2 {
                        assert forall|name: Seq<char>|
                            seen(st.wires, name) + #[trigger] p1.occurrences(name) <= 2 by {
                            assert(seen(st.wires, name) + tree.occurrences(name) <= 2);
                        }
                    }
                },
            }
        },
        TreeView::Var(v) => {
            if attach(st, tree, parent) is Ok {
                let st1 = attach(st, tree, parent)->Ok_0;
                assert forall|name: Seq<char>|
                    seen(st.wires, name) + #[trigger] tree.occurrences(name) <= 2 by {}
                assert forall|name: Seq<char>| #[trigger]
                    seen(st1.wires, name) == seen(st.wires, name) + tree.occurrences(name) by {}
            } else {
                assert(seen(st.wires, v) + tree.occurrences(v) == 3);
            }
        },
        TreeView::Other => {},
    }
}

/// Building from a prefix of the trees succeeds exactly if the prefix is supported
/// and keeps every name within two occurrences; the names are then met as often as
/// they occur. A supported prefix fails only for a third occurrence, and one that
/// keeps every name within two occurrences only for a shape.
pub proof fn lemma_build_prefix_outcome(trees: Seq<TreeView>, n: nat)
    ensures
        build_prefix(trees, n) is Ok <==> supported_in(trees, n) && at_most_twice(trees, n),
        build_prefix(trees, n) matches Ok(st) ==> forall|name: Seq<char>|
            #[trigger] seen(st.wires, name) == occurrences_in(trees, n, name),
        build_prefix(trees, n) matches Err(e) ==> e == Error::VariableOveruse || e
            == Error::UnsupportedTreeShape,
        build_prefix(trees, n) matches Err(e) ==> (supported_in(trees, n) ==> e
            == Error::VariableOveruse),
        build_prefix(trees, n) matches Err(e) ==> (at_most_twice(trees, n) ==> e
            == Error::UnsupportedTreeShape),
    decreases n,
{
    if n == 0 {
        assert forall|name: Seq<char>| #[trigger] occurrences_in(trees, 0, name) <= 2 by {}
    } else {
        let m = (n - 1) as nat;
        lemma_build_prefix_outcome(trees, m);
        let tree = trees[n - 1];
        match build_prefix(trees, m) {
            Ok(st) => {
                let st0 = st.with_free_port();
                let parent = AuxPort::Free(m as usize);
                lemma_attach_outcome(st0, tree, parent);
                assert(st0.wires == st.wires);
                assert forall|name: Seq<char>|
                    seen(st0.wires, name) + #[trigger] tree.occurrences(name) == occurrences_in(
                        trees,
                        n,
                        name,
                    ) by {
                    assert(seen(st.wires, name) == occurrences_in(trees, m, name));
                }
                if attach(st0, tree, parent) is Ok {
                    let st1 = attach(st0, tree, parent)->Ok_0;
                    assert forall|name: Seq<char>| #[trigger] occurrences_in(trees, n, name)
                        <= 2 by {
                        assert(seen(st0.wires, name) + tree.occurrences(name) <= 2);
                    }
                    assert forall|name: Seq<char>| #[trigger]
                        seen(st1.wires, name) == occurrences_in(trees, n, name) by {
                        assert(seen(st0.wires, name) + tree.occurrences(name) == occurrences_in(
                            trees,
                            n,
                            name,
                        ));
                    }
                } else {
                    if tree.supported() {
                        let name = choose|name: Seq<char>|
                            !(seen(st0.wires, name) + #[trigger] tree.occurrences(name) <= 2);
                        assert(seen(st0.wires, name) + tree.occurrences(name) == occurrences_in(
                            trees,
                            n,
                            name,
                        ));
                        assert(!(occurrences_in(trees, n, name) <= 2));
                    }
                    if at_most_twice(trees, n) {
                        assert forall|name: Seq<char>|
                            seen(st0.wires, name) + #[trigger] tree.occurrences(name) <= 2 by {
                            assert(seen(st0.wires, name) + tree.occurrences(name)
                                == occurrences_in(trees, n, name));
                            assert(occurrences_in(trees, n, name) <= 2);
                        }
                    }
                }
            },
            Err(e) => {
                if supported_in(trees, m) {
                    let name = choose|name: Seq<char>| !(#[trigger] occurrences_in(trees, m, name)
                        <= 2);
                    assert(occurrences_in(trees, n, name) >= occurrences_in(trees, m, name));
                    assert(!(occurrences_in(trees, n, name) <= 2));
                }
                if at_most_twice(trees, n) {
                    assert forall|name: Seq<char>| #[trigger] occurrences_in(trees, m, name)
                        <= 2 by {
                        assert(occurrences_in(trees, n, name) <= 2);
                    }
                }
            },
        }
    }
}

/// Trees build a net exactly if they are made of erasers, constructors and
/// variables alone and no name occurs more than twice. Where all trees are so
/// made and a name occurs a third time, the error is that of the overused
/// variable; where no name occurs a third time, it is that of the shape.
pub proof fn lemma_build_outcome(trees: Seq<TreeView>)
    ensures
        build(trees) is Ok <==> supported_in(trees, trees.len()) && at_most_twice(
            trees,
            trees.len(),
        ),
        supported_in(trees, trees.len()) && !at_most_twice(trees, trees.len()) ==> build(trees)
            == Err::<NetView, Error>(Error::VariableOveruse),
        !supported_in(trees, trees.len()) && at_most_twice(trees, trees.len()) ==> build(trees)
            == Err::<NetView, Error>(Error::UnsupportedTreeShape),
        build(trees) matches Err(e) ==> e == Error::VariableOveruse || e
            == Error::UnsupportedTreeShape,
{
    lemma_build_prefix_outcome(trees, trees.len());
}

/// Whether the slot `s` is settled: it holds a principal port of a node that
/// records `s` and, where `s` is a slot of an agent, comes after that agent; or it
/// holds an auxiliary port whose slot holds `s` and is neither unattached nor the
/// waiting end of a wire.
pub open spec fn settled(net: NetView, unattached: Set<AuxPort>, waiting: Map<AuxPort, Seq<char>>, s: AuxPort) -> bool {
    match net.read_aux(s) {
        Ok(Port::Principal(m)) => {
            &&& m < net.nodes.len()
            &&& net.nodes[m as int].plug() == s
            &&& (s matches AuxPort::Node { dir, node } ==> m > node)
        },
        Ok(Port::Aux(q)) => {
            &&& net.read_aux(q) == Ok::<Port, Error>(Port::Aux(s))
            &&& !unattached.contains(q)
            &&& !waiting.contains_key(q)
        },
        Err(_) => false,
    }
}

/// The invariant of a net under construction. `unattached` are the slots that were
/// allocated and have no tree yet; `waiting` maps the slot of each name that was
/// met once to that name. Such slots hold the placeholder; every other slot that
/// can be read is settled, and every node is plugged into the slot that it
/// records.
pub open spec fn building(st: BuildState, unattached: Set<AuxPort>, waiting: Map<AuxPort, Seq<char>>) -> bool {
    &&& st.net.nodes.len() <= usize::MAX
    &&& forall|s: AuxPort| #[trigger]
        unattached.contains(s) ==> st.net.read_aux(s) == Ok::<Port, Error>(placeholder())
            && !waiting.contains_key(s)
    &&& forall|s: AuxPort| #[trigger]
        waiting.contains_key(s) ==> {
            &&& st.net.read_aux(s) == Ok::<Port, Error>(placeholder())
            &&& st.wires.contains_key(waiting[s])
            &&& st.wires[waiting[s]] == Wire { first: s, second: None }
        }
    &&& forall|name: Seq<char>| #[trigger]
        st.wires.contains_key(name) && st.wires[name].second is None ==> {
            &&& waiting.contains_key(st.wires[name].first)
            &&& waiting[st.wires[name].first] == name
        }
    &&& forall|s: AuxPort|
        (#[trigger] st.net.read_aux(s)) is Ok ==> unattached.contains(s) || waiting.contains_key(s)
            || settled(st.net, unattached, waiting, s)
    &&& forall|m: int|
        0 <= m < st.net.nodes.len() ==> st.net.read_aux((#[trigger] st.net.nodes[m]).plug())
            == Ok::<Port, Error>(Port::Principal(m as usize))
}

/// Writing a slot changes that slot and no other, and no node's record of where it
/// is plugged in.
pub proof fn lemma_write_reads(net: NetView, key: AuxPort, value: Port)
    requires
        net.read_aux(key) is Ok,
    ensures
        net.write(key, value).nodes.len() == net.nodes.len(),
        net.write(key, value).free_ports.len() == net.free_ports.len(),
        forall|s: AuxPort| #[trigger]
            net.write(key, value).read_aux(s) == if s == key {
                Ok::<Port, Error>(value)
            } else {
                net.read_aux(s)
            },
        forall|m: int|
            0 <= m < net.nodes.len() ==> (#[trigger] net.write(key, value).nodes[m]).plug()
                == net.nodes[m].plug(),
{
    let after = net.write(key, value);
    assert forall|s: AuxPort| #[trigger]
        after.read_aux(s) == if s == key {
            Ok::<Port, Error>(value)
        } else {
            net.read_aux(s)
        } by {}
}

/// The waiting slots after `parent` received the variable `name`: the slot that
/// waited for `name` leaves, or else `parent` waits for it.
pub open spec fn waiting_after_var(st: BuildState, waiting: Map<AuxPort, Seq<char>>, name: Seq<char>, parent: AuxPort) -> Map<AuxPort, Seq<char>> {
    if st.wires.contains_key(name) {
        waiting.remove(st.wires[name].first)
    } else {
        waiting.insert(parent, name)
    }
}

/// What waits after `tree` was attached to `parent`.
pub open spec fn waiting_after(st: BuildState, waiting: Map<AuxPort, Seq<char>>, tree: TreeView, parent: AuxPort) -> Map<AuxPort, Seq<char>>
    decreases tree,
{
    match tree {
        TreeView::Ctr { lab, p1, p2 } => {
            let id = st.net.nodes.len() as usize;
            let left = AuxPort::Node { dir: Dir::Left, node: id };
            let right = AuxPort::Node { dir: Dir::Right, node: id };
            let st0 = st.with_node(fresh_agent(lab, parent), parent);
            match attach(st0, *p1, left) {
                Ok(st1) => waiting_after(st1, waiting_after(st0, waiting, *p1, left), *p2, right),
                Err(_) => waiting,
            }
        },
        TreeView::Var(name) => waiting_after_var(st, waiting, name, parent),
        _ => waiting,
    }
}

/// Allocating a node below an unattached slot keeps the invariant: the slot is
/// settled, and the slots of a new agent are unattached.
pub proof fn lemma_with_node_building(
    st: BuildState,
    unattached: Set<AuxPort>,
    waiting: Map<AuxPort, Seq<char>>,
    node: Node,
    parent: AuxPort,
)
    requires
        building(st, unattached, waiting),
        unattached.contains(parent),
        st.net.nodes.len() < usize::MAX,
        node.plug() == parent,
        node matches Node::Agent(agent) ==> agent.left == placeholder() && agent.right
            == placeholder(),
    ensures
        node is Era ==> building(st.with_node(node, parent), unattached.remove(parent), waiting),
        node is Agent ==> building(
            st.with_node(node, parent),
            unattached.remove(parent).insert(
                AuxPort::Node { dir: Dir::Left, node: st.net.nodes.len() as usize },
            ).insert(AuxPort::Node { dir: Dir::Right, node: st.net.nodes.len() as usize }),
            waiting,
        ),
        grows(st.net, st.with_node(node, parent).net),
        st.with_node(node, parent).net.nodes.len() == st.net.nodes.len() + 1,
        st.with_node(node, parent).wires == st.wires,
{
    let id = st.net.nodes.len() as usize;
    let pushed = NetView { nodes: st.net.nodes.push(node), ..st.net };
    let st1 = st.with_node(node, parent);
    let left = AuxPort::Node { dir: Dir::Left, node: id };
    let right = AuxPort::Node { dir: Dir::Right, node: id };
    assert(forall|s: AuxPort| #[trigger] st.net.read_aux(s) is Ok ==> pushed.read_aux(s) == st.net.read_aux(s));
    assert(forall|s: AuxPort| s != left && s != right ==> #[trigger] pushed.read_aux(s) == st.net.read_aux(s));
    assert(pushed.read_aux(parent) is Ok);
    lemma_write_reads(pushed, parent, Port::Principal(id));
    let u1 = if node is Era {
        unattached.remove(parent)
    } else {
        unattached.remove(parent).insert(left).insert(right)
    };
    assert(st.net.read_aux(left) is Err);
    assert(st.net.read_aux(right) is Err);
    assert(!unattached.contains(left) && !unattached.contains(right));
    assert(!waiting.contains_key(left) && !waiting.contains_key(right));
    assert forall|s: AuxPort| #[trigger] u1.contains(s) implies st1.net.read_aux(s) == Ok::<
        Port,
        Error,
    >(placeholder()) && !waiting.contains_key(s) by {
        if s == left || s == right {
        } else {
            assert(unattached.contains(s));
        }
    }
    assert forall|s: AuxPort| #[trigger] waiting.contains_key(s) implies {
        &&& st1.net.read_aux(s) == Ok::<Port, Error>(placeholder())
        &&& st1.wires.contains_key(waiting[s])
        &&& st1.wires[waiting[s]] == Wire { first: s, second: None }
    } by {
        assert(s != parent);
    }
    assert forall|m: int| 0 <= m < st1.net.nodes.len() implies st1.net.read_aux(
        (#[trigger] st1.net.nodes[m]).plug(),
    ) == Ok::<Port, Error>(Port::Principal(m as usize)) by {
        assert(st1.net.nodes[m].plug() == pushed.nodes[m].plug());
        if m < st.net.nodes.len() {
            let ps = st.net.nodes[m].plug();
            assert(st.net.read_aux(ps) == Ok::<Port, Error>(Port::Principal(m as usize)));
            assert(ps != parent);
        }
    }
    assert forall|s: AuxPort| (#[trigger] st1.net.read_aux(s)) is Ok implies u1.contains(s)
        || waiting.contains_key(s) || settled(st1.net, u1, waiting, s) by {
        if s == parent {
            assert(st1.net.nodes[id as int].plug() == pushed.nodes[id as int].plug());
        } else if s == left || s == right {
        } else {
            assert(st.net.read_aux(s) is Ok);
            if !unattached.contains(s) && !waiting.contains_key(s) {
                assert(settled(st.net, unattached, waiting, s));
                match st.net.read_aux(s) {
                    Ok(Port::Principal(m)) => {
                        assert(st1.net.nodes[m as int].plug() == pushed.nodes[m as int].plug());
                    },
                    Ok(Port::Aux(q)) => {
                        assert(q != parent);
                        assert(st.net.read_aux(q) is Ok);
                    },
                    Err(_) => {},
                }
            }
        }
    }
}

/// Attaching a tree to an unattached slot keeps the invariant of the net under
/// construction: the slot is no longer unattached, the net has as many nodes more
/// as the tree has erasers and constructors, and it keeps its free ports.
pub proof fn lemma_attach_building(
    st: BuildState,
    unattached: Set<AuxPort>,
    waiting: Map<AuxPort, Seq<char>>,
    tree: TreeView,
    parent: AuxPort,
)
    requires
        building(st, unattached, waiting),
        unattached.contains(parent),
        attach(st, tree, parent) is Ok,
        attach(st, tree, parent)->Ok_0.net.nodes.len() <= usize::MAX,
    ensures
        building(
            attach(st, tree, parent)->Ok_0,
            unattached.remove(parent),
            waiting_after(st, waiting, tree, parent),
        ),
        grows(st.net, attach(st, tree, parent)->Ok_0.net),
        attach(st, tree, parent)->Ok_0.net.nodes.len() == st.net.nodes.len() + tree.node_count(),
    decreases tree,
{
    let st9 = attach(st, tree, parent)->Ok_0;
    match tree {
        TreeView::Era => {
            lemma_with_node_building(st, unattached, waiting, Node::Era(parent), parent);
        },
        TreeView::Ctr { lab, p1, p2 } => {
            let id = st.net.nodes.len() as usize;
            let left = AuxPort::Node { dir: Dir::Left, node: id };
            let right = AuxPort::Node { dir: Dir::Right, node: id };
            let st0 = st.with_node(fresh_agent(lab, parent), parent);
            let st1 = attach(st0, *p1, left)->Ok_0;
            lemma_attach_grows(st0, *p1, left);
            lemma_attach_grows(st1, *p2, right);
            lemma_with_node_grows_len(st, fresh_agent(lab, parent), parent);
            lemma_with_node_building(st, unattached, waiting, fresh_agent(lab, parent), parent);
            let u0 = unattached.remove(parent).insert(left).insert(right);
            lemma_attach_building(st0, u0, waiting, *p1, left);
            let w1 = waiting_after(st0, waiting, *p1, left);
            let u1 = u0.remove(left);
            assert(u1.contains(right));
            lemma_attach_building(st1, u1, w1, *p2, right);
            assert(st.net.read_aux(left) is Err);
            assert(st.net.read_aux(right) is Err);
            assert(u1.remove(right) =~= unattached.remove(parent));
        },
        TreeView::Var(name) => {
            if st.wires.contains_key(name) {
                let wire = st.wires[name];
                let a = wire.first;
                assert(waiting.contains_key(a) && waiting[a] == name);
                assert(a != parent);
                let n1 = st.net.write(parent, Port::Aux(a));
                lemma_write_reads(st.net, parent, Port::Aux(a));
                lemma_write_reads(n1, a, Port::Aux(parent));
                let u9 = unattached.remove(parent);
                let w9 = waiting.remove(a);
                assert(w9 == waiting_after(st, waiting, tree, parent));
                assert forall|s: AuxPort| #[trigger] w9.contains_key(s) implies {
                    &&& st9.net.read_aux(s) == Ok::<Port, Error>(placeholder())
                    &&& st9.wires.contains_key(w9[s])
                    &&& st9.wires[w9[s]] == Wire { first: s, second: None }
                } by {
                    assert(waiting.contains_key(s));
                    assert(s != parent);
                    assert(waiting[s] != name);
                }
                assert forall|other: Seq<char>| #[trigger]
                    st9.wires.contains_key(other) && st9.wires[other].second is None implies {
                    &&& w9.contains_key(st9.wires[other].first)
                    &&& w9[st9.wires[other].first] == other
                } by {
                    assert(other != name);
                    assert(st.wires.contains_key(other));
                    assert(waiting[st.wires[other].first] == other);
                }
                assert forall|m: int| 0 <= m < st9.net.nodes.len() implies st9.net.read_aux(
                    (#[trigger] st9.net.nodes[m]).plug(),
                ) == Ok::<Port, Error>(Port::Principal(m as usize)) by {
                    assert(n1.nodes[m].plug() == st.net.nodes[m].plug());
                    let ps = st.net.nodes[m].plug();
                    assert(st.net.read_aux(ps) == Ok::<Port, Error>(Port::Principal(m as usize)));
                }
                assert forall|s: AuxPort| (#[trigger] st9.net.read_aux(s)) is Ok implies u9.contains(
                    s,
                ) || w9.contains_key(s) || settled(st9.net, u9, w9, s) by {
                    if s == parent || s == a {
                    } else {
                        assert(st.net.read_aux(s) is Ok);
                        if !unattached.contains(s) && !waiting.contains_key(s) {
                            assert(settled(st.net, unattached, waiting, s));
                            match st.net.read_aux(s) {
                                Ok(Port::Principal(m)) => {
                                    assert(n1.nodes[m as int].plug() == st.net.nodes[m as int].plug());
                                },
                                Ok(Port::Aux(q)) => {
                                    assert(st.net.read_aux(q) is Ok);
                                },
                                Err(_) => {},
                            }
                        }
                    }
                }
            } else {
                let u9 = unattached.remove(parent);
                let w9 = waiting.insert(parent, name);
                assert forall|other: Seq<char>| #[trigger]
                    st9.wires.contains_key(other) && st9.wires[other].second is None implies {
                    &&& w9.contains_key(st9.wires[other].first)
                    &&& w9[st9.wires[other].first] == other
                } by {
                    if other != name {
                        assert(st.wires.contains_key(other));
                        assert(waiting.contains_key(st.wires[other].first));
                    }
                }
                assert forall|s: AuxPort| (#[trigger] st9.net.read_aux(s)) is Ok implies u9.contains(
                    s,
                ) || w9.contains_key(s) || settled(st9.net, u9, w9, s) by {
                    if s != parent && !unattached.contains(s) && !waiting.contains_key(s) {
                        assert(settled(st.net, unattached, waiting, s));
                    }
                }
            }
        },
        TreeView::Other => {},
    }
}

/// Attaching a tree keeps every slot that could be read, and the free ports.
pub proof fn lemma_attach_grows(st: BuildState, tree: TreeView, parent: AuxPort)
    requires
        attach(st, tree, parent) is Ok,
    ensures
        grows(st.net, attach(st, tree, parent)->Ok_0.net),
    decreases tree,
{
    match tree {
        TreeView::Era => {
            lemma_with_node_grows_len(st, Node::Era(parent), parent);
        },
        TreeView::Ctr { lab, p1, p2 } => {
            let id = st.net.nodes.len() as usize;
            let left = AuxPort::Node { dir: Dir::Left, node: id };
            let right = AuxPort::Node { dir: Dir::Right, node: id };
            let st0 = st.with_node(fresh_agent(lab, parent), parent);
            let st1 = attach(st0, *p1, left)->Ok_0;
            lemma_with_node_grows_len(st, fresh_agent(lab, parent), parent);
            lemma_attach_grows(st0, *p1, left);
            lemma_attach_grows(st1, *p2, right);
            let st2 = attach(st1, *p2, right)->Ok_0;
            assert forall|p: AuxPort| #[trigger] st.net.read_aux(p) is Ok implies st2.net.read_aux(
                p,
            ) is Ok by {
                assert(st0.net.read_aux(p) is Ok);
                assert(st1.net.read_aux(p) is Ok);
            }
        },
        TreeView::Var(name) => {},
        TreeView::Other => {},
    }
}

/// Allocating a node keeps every slot that could be read, and the free ports.
pub proof fn lemma_with_node_grows_len(st: BuildState, node: Node, parent: AuxPort)
    ensures
        grows(st.net, st.with_node(node, parent).net),
        st.with_node(node, parent).net.nodes.len() == st.net.nodes.len() + 1,
{
    let pushed = NetView { nodes: st.net.nodes.push(node), ..st.net };
    assert(grows(st.net, pushed));
    assert(grows(pushed, pushed.write(parent, Port::Principal(st.net.nodes.len() as usize))));
}

/// What waits after the first `n` of `trees` were attached.
pub open spec fn waiting_in(trees: Seq<TreeView>, n: nat) -> Map<AuxPort, Seq<char>>
    decreases n,
{
    if n == 0 {
        Map::empty()
    } else {
        match build_prefix(trees, (n - 1) as nat) {
            Ok(st) => waiting_after(
                st.with_free_port(),
                waiting_in(trees, (n - 1) as nat),
                trees[n - 1],
                AuxPort::Free((n - 1) as usize),
            ),
            Err(_) => Map::empty(),
        }
    }
}

/// After a prefix of the trees was attached, the invariant of the net under
/// construction holds with no slot unattached; the net has one free port per tree
/// and one node per eraser and constructor.
pub proof fn lemma_build_prefix_building(trees: Seq<TreeView>, n: nat)
    requires
        n <= usize::MAX,
        build_prefix(trees, n) is Ok,
        build_prefix(trees, n)->Ok_0.net.nodes.len() <= usize::MAX,
    ensures
        building(build_prefix(trees, n)->Ok_0, Set::empty(), waiting_in(trees, n)),
        build_prefix(trees, n)->Ok_0.net.free_ports.len() == n,
        build_prefix(trees, n)->Ok_0.net.nodes.len() == nodes_in(trees, n),
    decreases n,
{
    if n > 0 {
        let m = (n - 1) as nat;
        let st = build_prefix(trees, m)->Ok_0;
        let st0 = st.with_free_port();
        let parent = AuxPort::Free(m as usize);
        lemma_attach_grows(st0, trees[n - 1], parent);
        lemma_build_prefix_building(trees, m);
        let waiting = waiting_in(trees, m);
        let unattached = Set::<AuxPort>::empty().insert(parent);
        assert(forall|s: AuxPort| s != parent ==> #[trigger] st0.net.read_aux(s) == st.net.read_aux(s));
        assert(st0.net.read_aux(parent) == Ok::<Port, Error>(placeholder()));
        assert(st.net.read_aux(parent) is Err);
        assert(building(st0, unattached, waiting)) by {
            assert forall|s: AuxPort| (#[trigger] st0.net.read_aux(s)) is Ok implies unattached.contains(
                s,
            ) || waiting.contains_key(s) || settled(st0.net, unattached, waiting, s) by {
                if s != parent && !waiting.contains_key(s) {
                    assert(settled(st.net, Set::empty(), waiting, s));
                    match st.net.read_aux(s) {
                        Ok(Port::Aux(q)) => {
                            assert(st.net.read_aux(q) is Ok);
                        },
                        _ => {},
                    }
                }
            }
            assert forall|x: int| 0 <= x < st0.net.nodes.len() implies st0.net.read_aux(
                (#[trigger] st0.net.nodes[x]).plug(),
            ) == Ok::<Port, Error>(Port::Principal(x as usize)) by {
                let ps = st.net.nodes[x].plug();
                assert(st.net.read_aux(ps) is Ok);
            }
        }
        lemma_attach_building(st0, unattached, waiting, trees[n - 1], parent);
        assert(unattached.remove(parent) =~= Set::empty());
    }
}

/// A net built from trees has one free port per tree and one node per eraser and
/// constructor; every node is plugged into the slot that it records, and every
/// node in a slot of an agent comes after that agent.
pub proof fn lemma_built_shape(trees: Seq<TreeView>)
    requires
        trees.len() <= usize::MAX,
        build(trees) is Ok,
        build(trees)->Ok_0.nodes.len() <= usize::MAX,
    ensures
        build(trees)->Ok_0.free_ports.len() == trees.len(),
        build(trees)->Ok_0.nodes.len() == nodes_in(trees, trees.len()),
        build(trees)->Ok_0.forward(),
        build(trees)->Ok_0.plugged(),
{
    let n = trees.len();
    lemma_build_prefix_building(trees, n);
    let st = build_prefix(trees, n)->Ok_0;
    let net = st.net;
    let waiting = waiting_in(trees, n);
    let none = Set::<AuxPort>::empty();
    assert forall|k: int| 0 <= k < net.nodes.len() implies match #[trigger] net.nodes[k] {
        Node::Era(_) => true,
        Node::Agent(agent) => points_past(agent.left, k) && points_past(agent.right, k),
    } by {
        if let Node::Agent(agent) = net.nodes[k] {
            let l = AuxPort::Node { dir: Dir::Left, node: k as usize };
            let r = AuxPort::Node { dir: Dir::Right, node: k as usize };
            assert(net.read_aux(l) == Ok::<Port, Error>(agent.left));
            assert(net.read_aux(r) == Ok::<Port, Error>(agent.right));
            assert(waiting.contains_key(l) || settled(net, none, waiting, l));
            assert(waiting.contains_key(r) || settled(net, none, waiting, r));
        }
    }
    assert forall|x: AuxPort|
        match #[trigger] net.read_aux(x) {
            Ok(Port::Principal(m)) => m < net.nodes.len() && net.nodes[m as int].plug() == x,
            _ => true,
        } by {
        if net.read_aux(x) is Ok {
            assert(waiting.contains_key(x) || settled(net, none, waiting, x));
        }
    }
}

/// In a net built from trees in which every name occurs exactly twice, every wire
/// has two ends: a slot that holds an auxiliary port is held by the slot of that
/// port in turn.
pub proof fn lemma_built_reciprocal(trees: Seq<TreeView>)
    requires
        trees.len() <= usize::MAX,
        build(trees) is Ok,
        build(trees)->Ok_0.nodes.len() <= usize::MAX,
        all_paired(trees),
    ensures
        build(trees)->Ok_0.reciprocal(),
{
    let n = trees.len();
    lemma_build_prefix_building(trees, n);
    lemma_build_prefix_outcome(trees, n);
    let st = build_prefix(trees, n)->Ok_0;
    let net = st.net;
    let waiting = waiting_in(trees, n);
    let none = Set::<AuxPort>::empty();
    assert forall|x: AuxPort|
        match #[trigger] net.read_aux(x) {
            Ok(Port::Aux(y)) => net.read_aux(y) == Ok::<Port, Error>(Port::Aux(x)),
            _ => true,
        } by {
        if net.read_aux(x) is Ok {
            if waiting.contains_key(x) {
                let name = waiting[x];
                assert(seen(st.wires, name) == 1);
                assert(occurrences_in(trees, n, name) == 1);
            }
            assert(settled(net, none, waiting, x));
        }
    }
}

} // verus!
