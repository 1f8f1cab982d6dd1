use normalize_sic::error::Error;
use normalize_sic::inet::{Agent, AuxPort, Dir, INet, Node, Port};
use normalize_sic::pnet::{add_paths, copied, replaced, root_positions, PNet};
use normalize_sic::port_map::PortMap;
use normalize_sic::prune::remove_empty_branches;
use normalize_sic::tree::Tree;
use normalize_sic::trie::{AgentPNet, AgentPathId, BranchId, PathId};

fn name(s: &str) -> Tree {
    Tree::Var(s.to_string())
}

fn cell(lab: u16, p1: Tree, p2: Tree) -> Tree {
    Tree::Ctr { lab, p1: Box::new(p1), p2: Box::new(p2) }
}

fn net_of(trees: Vec<Tree>) -> INet {
    INet::from_trees(&trees).unwrap()
}

#[test]
fn minimal_net_gives_one_trie_with_two_paths() {
    let inet = net_of(vec![cell(0, name("a"), name("b")), cell(0, name("a"), name("b"))]);
    let pnet = PNet::<1>::from_inet(&inet).unwrap();
    assert_eq!(pnet.path_count(), 2);
    let trie = pnet.agent(0);
    assert_eq!(trie.root, BranchId(0));
    assert_eq!(trie.branches.len(), 3);
    assert_eq!(trie.branches[0].left, Some(BranchId(1)));
    assert_eq!(trie.branches[0].right, Some(BranchId(2)));
    assert!(trie.branches[0].paths.is_empty());
    assert_eq!(trie.branches[1].left, None);
    assert_eq!(trie.branches[1].right, None);
    assert_eq!(trie.branches[1].paths, vec![AgentPathId(0), AgentPathId(0)]);
    assert_eq!(trie.branches[2].paths, vec![AgentPathId(1), AgentPathId(1)]);
    assert_eq!(trie.paths.len(), 2);
    assert_eq!((trie.paths[0].b1, trie.paths[0].b2), (BranchId(1), BranchId(1)));
    assert_eq!((trie.paths[1].b1, trie.paths[1].b2), (BranchId(2), BranchId(2)));
    assert_eq!(trie.paths[0].paths, vec![PathId(0)]);
    assert_eq!(trie.paths[1].paths, vec![PathId(1)]);
    assert_eq!(pnet.path(&PathId(0)).agents, vec![AgentPathId(0)]);
    assert_eq!(pnet.path(&PathId(1)).agents, vec![AgentPathId(1)]);
}

#[test]
fn a_trie_advances_only_at_agents_of_its_label() {
    let inet = net_of(vec![
        cell(0, cell(1, name("a"), name("b")), name("c")),
        cell(1, name("c"), cell(0, name("b"), name("a"))),
    ]);
    let pnet = PNet::<2>::from_inet(&inet).unwrap();
    assert_eq!(pnet.path_count(), 3);
    let t0 = pnet.agent(0);
    let t1 = pnet.agent(1);
    assert_eq!(t0.branches.len(), 3);
    assert_eq!(t1.branches.len(), 3);
    // The wire c closes first, then b, then a.
    let c = pnet.path(&PathId(0));
    let b = pnet.path(&PathId(1));
    let a = pnet.path(&PathId(2));
    assert_eq!(c.agents.len(), 2);
    let edge = |t: &AgentPNet, id: AgentPathId| (t.paths[id.0].b1, t.paths[id.0].b2);
    assert_eq!(edge(t0, b.agents[0]), (BranchId(1), BranchId(1)));
    assert_eq!(edge(t1, b.agents[1]), (BranchId(2), BranchId(2)));
    assert_eq!(edge(t0, a.agents[0]), (BranchId(2), BranchId(1)));
    assert_eq!(edge(t1, a.agents[1]), (BranchId(2), BranchId(1)));
    assert_eq!(edge(t0, c.agents[0]), (BranchId(0), BranchId(2)));
    assert_eq!(edge(t1, c.agents[1]), (BranchId(1), BranchId(0)));
}

#[test]
fn label_beyond_the_count_is_out_of_range() {
    let inet = net_of(vec![cell(0, name("a"), name("a")), cell(1, Tree::Era, Tree::Era)]);
    assert!(PNet::<2>::from_inet(&inet).is_ok());
    assert_eq!(PNet::<1>::from_inet(&inet).err(), Some(Error::IndexOutOfRange));
    assert_eq!(PNet::<0>::from_inet(&inet).err(), Some(Error::IndexOutOfRange));
    let deep = net_of(vec![cell(0, Tree::Era, cell(0, cell(65535, Tree::Era, Tree::Era), Tree::Era))]);
    assert_eq!(PNet::<65535>::from_inet(&deep).err(), Some(Error::IndexOutOfRange));
}

#[test]
fn net_without_agents_gives_roots_alone() {
    let inet = net_of(vec![name("x"), name("x"), Tree::Era]);
    let pnet = PNet::<2>::from_inet(&inet).unwrap();
    assert_eq!(pnet.path_count(), 1);
    for label in 0..2u16 {
        let trie = pnet.agent(label);
        assert_eq!(trie.branches.len(), 1);
        assert_eq!(trie.paths.len(), 1);
        assert_eq!((trie.paths[0].b1, trie.paths[0].b2), (BranchId(0), BranchId(0)));
        assert_eq!(trie.paths[0].paths, vec![PathId(0)]);
    }
    let none = PNet::<3>::from_inet(&INet::new()).unwrap();
    assert_eq!(none.path_count(), 0);
    assert_eq!(none, PNet::<3>::default());
}

#[test]
fn walk_stops_at_a_wire_end_that_holds_a_principal_port() {
    let inet = INet {
        nodes: vec![
            Node::Agent(Agent {
                label: 0,
                principal: AuxPort::Free(0),
                left: Port::Principal(1),
                right: Port::Aux(AuxPort::Node { dir: Dir::Right, node: 0 }),
            }),
            Node::Era(AuxPort::Node { dir: Dir::Left, node: 0 }),
        ],
        free_ports: vec![Port::Aux(AuxPort::Node { dir: Dir::Left, node: 0 })],
    };
    assert!(inet.is_forward());
    assert_eq!(PNet::<1>::from_inet(&inet).err(), Some(Error::InvariantViolation));
    let dangling = INet { nodes: vec![], free_ports: vec![Port::Principal(0)] };
    assert_eq!(PNet::<1>::from_inet(&dangling).err(), Some(Error::IndexOutOfRange));
    let nullary = INet {
        nodes: vec![Node::Era(AuxPort::Free(0))],
        free_ports: vec![Port::Aux(AuxPort::Node { dir: Dir::Left, node: 0 })],
    };
    assert_eq!(PNet::<1>::from_inet(&nullary).err(), Some(Error::AuxOnNullaryNode));
}

#[test]
fn children_are_created_once_and_on_their_own_side() {
    let mut trie = AgentPNet::default();
    let l = trie.add_left(BranchId(0));
    let r = trie.add_right(BranchId(0));
    assert_eq!(l, BranchId(1));
    assert_eq!(r, BranchId(2));
    assert_eq!(trie.add_left(BranchId(0)), l);
    assert_eq!(trie.add_right(BranchId(0)), r);
    assert_eq!(trie.branches.len(), 3);
    let rl = trie.add_left(r);
    assert_eq!(rl, BranchId(3));
    assert_eq!(trie.branch(&r).left, Some(rl));
    assert_eq!(trie.branch(&r).right, None);
    let only_right = {
        let mut t = AgentPNet::default();
        let r = t.add_right(BranchId(0));
        (r, t.branches[0].left, t.branches[0].right)
    };
    assert_eq!(only_right, (BranchId(1), None, Some(BranchId(1))));
}

#[test]
fn same_pair_gives_the_same_edge() {
    let mut trie = AgentPNet::default();
    let l = trie.add_left(BranchId(0));
    let r = trie.add_right(BranchId(0));
    assert_eq!(trie.get_path(l, r), None);
    let first = trie.add_path(l, r);
    assert_eq!(first, AgentPathId(0));
    assert_eq!(trie.add_path(l, r), first);
    assert_eq!(trie.add_path(r, l), first);
    assert_eq!(trie.get_path(r, l), Some(first));
    assert_eq!(trie.paths.len(), 1);
    assert_eq!(trie.branches[l.0].paths, vec![first]);
    assert_eq!(trie.branches[r.0].paths, vec![first]);
    assert_eq!(trie.path(first).b1, l);
    assert_eq!(trie.path(first).b2, r);
}

#[test]
fn an_edge_at_one_branch_is_no_edge_to_itself() {
    let mut trie = AgentPNet::default();
    let l = trie.add_left(BranchId(0));
    let r = trie.add_right(BranchId(0));
    let lr = trie.add_path(l, r);
    assert_eq!(trie.get_path(l, l), None);
    let ll = trie.add_path(l, l);
    assert_eq!(ll, AgentPathId(1));
    assert_eq!(trie.add_path(l, l), ll);
    assert_eq!(trie.get_path(l, r), Some(lr));
    assert_eq!(trie.get_path(BranchId(0), l), None);
}

#[test]
fn every_wire_is_listed_once_at_its_edges() {
    let inet = net_of(vec![
        cell(0, name("a"), name("b")),
        cell(0, name("a"), name("c")),
        cell(0, name("d"), name("b")),
        cell(0, name("d"), name("c")),
    ]);
    let pnet = PNet::<1>::from_inet(&inet).unwrap();
    assert_eq!(pnet.path_count(), 4);
    let trie = pnet.agent(0);
    assert_eq!(trie.paths.len(), 2);
    let mut listed = 0;
    for (k, edge) in trie.paths.iter().enumerate() {
        for (i, p) in edge.paths.iter().enumerate() {
            assert_eq!(pnet.path(p).agents[0], AgentPathId(k));
            assert!(!edge.paths[..i].contains(p));
            listed += 1;
        }
    }
    assert_eq!(listed, 4);
    assert_eq!(trie.paths[0].paths, vec![PathId(0), PathId(2)]);
    assert_eq!(trie.paths[1].paths, vec![PathId(1), PathId(3)]);
}

#[test]
fn joining_twice_makes_two_paths_over_one_edge() {
    let mut pnet = PNet::<2>::default();
    let mine = vec![BranchId(0), BranchId(0)];
    let first = pnet.join(&mine, &mine);
    let second = pnet.join(&mine, &mine);
    assert_eq!((first, second), (PathId(0), PathId(1)));
    assert_eq!(pnet.agent(1).paths.len(), 1);
    assert_eq!(pnet.agent(1).paths[0].paths, vec![PathId(0), PathId(1)]);
    assert_eq!(pnet.path(&second).agents, vec![AgentPathId(0), AgentPathId(0)]);
    let third = pnet.add_path(vec![AgentPathId(0), AgentPathId(0)]);
    assert_eq!(third, PathId(2));
    assert_eq!(pnet.path_count(), 3);
}

#[test]
fn pruning_detaches_branches_without_edges() {
    let inet = net_of(vec![cell(0, Tree::Era, Tree::Era)]);
    let mut pnet = PNet::<1>::from_inet(&inet).unwrap();
    assert_eq!(pnet.agent(0).branches[0].left, Some(BranchId(1)));
    pnet.remove_empty_branches();
    let trie = pnet.agent(0);
    assert_eq!(trie.branches.len(), 3);
    assert_eq!(trie.branches[0].left, None);
    assert_eq!(trie.branches[0].right, None);
}

#[test]
fn pruning_keeps_leaves_that_carry_edges() {
    let inet = net_of(vec![cell(0, name("a"), name("b")), cell(0, name("a"), name("b"))]);
    let mut pnet = PNet::<1>::from_inet(&inet).unwrap();
    let before = PNet::<1>::from_inet(&inet).unwrap();
    pnet.remove_empty_branches();
    assert_eq!(pnet, before);
}

#[test]
fn pruning_detaches_an_inner_branch_without_edges() {
    // Root, left child L, left grandchild LL; an edge ends at LL and at the root only.
    let mut trie = AgentPNet::default();
    let l = trie.add_left(BranchId(0));
    let ll = trie.add_left(l);
    let r = trie.add_right(BranchId(0));
    let rr = trie.add_right(r);
    trie.add_path(ll, BranchId(0));
    trie.add_path(r, rr);
    assert!(!remove_empty_branches(&mut trie, l));
    assert_eq!(trie.branches[l.0].left, Some(ll));
    assert!(remove_empty_branches(&mut trie, r));
    trie.remove_empty_branches();
    assert_eq!(trie.branches[0].left, None);
    assert_eq!(trie.branches[0].right, Some(r));
    assert_eq!(trie.branches[l.0].left, Some(ll));
    assert_eq!(trie.branches[r.0].right, Some(rr));
    assert_eq!(trie.branches.len(), 5);
    assert_eq!(trie.paths.len(), 2);
}

#[test]
fn pruning_below_a_branch_leaves_the_rest() {
    let mut trie = AgentPNet::default();
    let l = trie.add_left(BranchId(0));
    let r = trie.add_right(BranchId(0));
    let rl = trie.add_left(r);
    let rr = trie.add_right(r);
    trie.add_path(r, rr);
    assert!(!remove_empty_branches(&mut trie, r));
    assert_eq!(trie.branches[r.0].left, None);
    assert_eq!(trie.branches[r.0].right, Some(rr));
    assert_eq!(trie.branches[0].left, Some(l));
    assert_eq!(trie.branches[0].right, Some(r));
    assert_eq!(trie.branches[rl.0].paths.len(), 0);
}

#[test]
fn position_helpers() {
    assert_eq!(root_positions(3), vec![BranchId(0), BranchId(0), BranchId(0)]);
    assert_eq!(root_positions(0), Vec::<BranchId>::new());
    let v = vec![BranchId(4), BranchId(5)];
    assert_eq!(copied(&v), v);
    assert_eq!(replaced(&v, 1, BranchId(9)), vec![BranchId(4), BranchId(9)]);
}

#[test]
fn walk_records_both_ends_and_closes_on_the_second() {
    let inet = net_of(vec![name("w"), name("w")]);
    let mut pnet = PNet::<1>::default();
    let mut pending: PortMap<Vec<BranchId>> = PortMap::new();
    assert_eq!(add_paths(inet.free_ports[0], &inet, root_positions(1), &mut pnet, &mut pending), Ok(()));
    assert_eq!(pnet.path_count(), 0);
    assert_eq!(pending.get(&AuxPort::Free(0)), Some(&vec![BranchId(0)]));
    assert_eq!(pending.get(&AuxPort::Free(1)), Some(&vec![BranchId(0)]));
    assert_eq!(pending.get(&AuxPort::Free(2)), None);
    assert_eq!(add_paths(inet.free_ports[1], &inet, root_positions(1), &mut pnet, &mut pending), Ok(()));
    assert_eq!(pnet.path_count(), 1);
}

#[test]
fn port_table_tells_ports_apart() {
    let mut table: PortMap<u32> = PortMap::new();
    table.insert(AuxPort::Free(1), 10);
    table.insert(AuxPort::Node { dir: Dir::Left, node: 0 }, 20);
    table.insert(AuxPort::Node { dir: Dir::Right, node: 0 }, 30);
    table.insert(AuxPort::Free(0), 40);
    table.insert(AuxPort::Free(usize::MAX), 50);
    table.insert(AuxPort::Node { dir: Dir::Right, node: usize::MAX }, 60);
    assert_eq!(table.get(&AuxPort::Free(1)), Some(&10));
    assert_eq!(table.get(&AuxPort::Node { dir: Dir::Left, node: 0 }), Some(&20));
    assert_eq!(table.get(&AuxPort::Node { dir: Dir::Right, node: 0 }), Some(&30));
    assert_eq!(table.get(&AuxPort::Free(0)), Some(&40));
    assert_eq!(table.get(&AuxPort::Free(usize::MAX)), Some(&50));
    assert_eq!(table.get(&AuxPort::Node { dir: Dir::Right, node: usize::MAX }), Some(&60));
    assert_eq!(table.get(&AuxPort::Node { dir: Dir::Left, node: 1 }), None);
    table.insert(AuxPort::Free(1), 11);
    assert_eq!(table.get(&AuxPort::Free(1)), Some(&11));
}

#[test]
fn branches_and_edges_can_be_changed_in_place() {
    let mut trie = AgentPNet::default();
    let l = trie.add_left(BranchId(0));
    let e = trie.add_path(l, BranchId(0));
    trie.branch_mut(&BranchId(0)).left = None;
    assert_eq!(trie.branch(&BranchId(0)).left, None);
    assert_eq!(trie.branch(&l).paths, vec![e]);
    trie.path_mut(e).paths.push(PathId(7));
    assert_eq!(trie.path(e).paths, vec![PathId(7)]);
    assert_eq!(trie.paths.len(), 1);
    let mut pnet = PNet::<2>::default();
    let r = pnet.agent_mut(1).add_right(BranchId(0));
    assert_eq!(r, BranchId(1));
    assert_eq!(pnet.agent(1).branches.len(), 2);
    assert_eq!(pnet.agent(0).branches.len(), 1);
    let id = pnet.add_path(vec![AgentPathId(0), AgentPathId(0)]);
    pnet.path_mut(&id).agents[1] = AgentPathId(3);
    assert_eq!(pnet.path(&id).agents, vec![AgentPathId(0), AgentPathId(3)]);
}

fn reachable(trie: &AgentPNet) -> Vec<usize> {
    let mut seen = vec![0usize];
    let mut next = 0;
    while next < seen.len() {
        let b = &trie.branches[seen[next]];
        for child in [b.left, b.right].into_iter().flatten() {
            seen.push(child.0);
        }
        next += 1;
    }
    seen
}

#[test]
fn after_pruning_every_branch_below_the_root_carries_an_edge() {
    let inet = net_of(vec![
        cell(0, cell(0, name("a"), Tree::Era), cell(0, name("b"), name("b"))),
        cell(1, cell(0, Tree::Era, name("a")), cell(1, name("c"), name("c"))),
    ]);
    let mut pnet = PNet::<2>::from_inet(&inet).unwrap();
    let before: Vec<usize> = (0..2u16).map(|l| reachable(pnet.agent(l)).len()).collect();
    let stored: Vec<usize> = (0..2u16).map(|l| pnet.agent(l).branches.len()).collect();
    pnet.remove_empty_branches();
    for label in 0..2u16 {
        let trie = pnet.agent(label);
        assert_eq!(trie.branches.len(), stored[label as usize]);
        let kept = reachable(trie);
        assert!(kept.len() <= before[label as usize]);
        for b in kept {
            assert!(b == 0 || !trie.branches[b].paths.is_empty());
        }
    }
    let again = {
        let mut p = PNet::<2>::from_inet(&inet).unwrap();
        p.remove_empty_branches();
        p.remove_empty_branches();
        p
    };
    assert_eq!(again, pnet);
}
