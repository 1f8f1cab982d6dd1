use normalize_sic::error::Error;
use normalize_sic::inet::{Agent, AuxPort, Dir, INet, Node, Port};
use normalize_sic::names::NameGen;
use normalize_sic::tree::Tree;

fn var(name: &str) -> Tree {
    Tree::Var(name.to_string())
}

fn ctr(lab: u16, p1: Tree, p2: Tree) -> Tree {
    Tree::Ctr { lab, p1: Box::new(p1), p2: Box::new(p2) }
}

fn left(node: usize) -> AuxPort {
    AuxPort::Node { dir: Dir::Left, node }
}

fn right(node: usize) -> AuxPort {
    AuxPort::Node { dir: Dir::Right, node }
}

fn minimal() -> Vec<Tree> {
    vec![ctr(0, var("a"), var("b")), ctr(0, var("a"), var("b"))]
}

#[test]
fn minimal_net_has_two_agents_and_two_free_ports() {
    let net = INet::from_trees(&minimal()).unwrap();
    assert_eq!(net.nodes.len(), 2);
    assert_eq!(net.free_ports, vec![Port::Principal(0), Port::Principal(1)]);
    assert_eq!(
        net.nodes[0],
        Node::Agent(Agent {
            label: 0,
            principal: AuxPort::Free(0),
            left: Port::Aux(left(1)),
            right: Port::Aux(right(1)),
        })
    );
    assert_eq!(
        net.nodes[1],
        Node::Agent(Agent {
            label: 0,
            principal: AuxPort::Free(1),
            left: Port::Aux(left(0)),
            right: Port::Aux(right(0)),
        })
    );
}

#[test]
fn third_occurrence_of_a_name_is_rejected() {
    let trees = vec![ctr(0, var("a"), var("b")), ctr(0, var("a"), ctr(0, var("a"), var("c")))];
    assert_eq!(INet::from_trees(&trees), Err(Error::VariableOveruse));
}

#[test]
fn third_occurrence_at_a_free_port_is_rejected() {
    let trees = vec![var("a"), var("a"), var("a")];
    assert_eq!(INet::from_trees(&trees), Err(Error::VariableOveruse));
}

#[test]
fn other_tree_shape_is_rejected() {
    assert_eq!(INet::from_trees(&vec![Tree::Other]), Err(Error::UnsupportedTreeShape));
    let nested = vec![ctr(3, Tree::Era, Tree::Other)];
    assert_eq!(INet::from_trees(&nested), Err(Error::UnsupportedTreeShape));
}

#[test]
fn first_error_in_reading_order_wins() {
    let trees = vec![ctr(0, var("a"), var("a")), ctr(0, var("a"), Tree::Other)];
    assert_eq!(INet::from_trees(&trees), Err(Error::VariableOveruse));
    let trees = vec![ctr(0, Tree::Other, var("a")), ctr(0, var("a"), var("a"))];
    assert_eq!(INet::from_trees(&trees), Err(Error::UnsupportedTreeShape));
}

#[test]
fn no_trees_give_the_empty_net() {
    let net = INet::from_trees(&vec![]).unwrap();
    assert_eq!(net, INet::new());
    assert_eq!(net.nodes.len(), 0);
    assert_eq!(net.free_ports.len(), 0);
    assert_eq!(net.to_trees(), Ok(vec![]));
}

#[test]
fn eraser_records_its_parent_slot() {
    let net = INet::from_trees(&vec![Tree::Era, ctr(7, Tree::Era, Tree::Era)]).unwrap();
    assert_eq!(net.free_ports, vec![Port::Principal(0), Port::Principal(1)]);
    assert_eq!(
        net.nodes,
        vec![
            Node::Era(AuxPort::Free(0)),
            Node::Agent(Agent {
                label: 7,
                principal: AuxPort::Free(1),
                left: Port::Principal(2),
                right: Port::Principal(3),
            }),
            Node::Era(left(1)),
            Node::Era(right(1)),
        ]
    );
}

#[test]
fn wire_between_two_free_ports() {
    let net = INet::from_trees(&vec![var("x"), var("x")]).unwrap();
    assert_eq!(net.nodes.len(), 0);
    assert_eq!(
        net.free_ports,
        vec![Port::Aux(AuxPort::Free(1)), Port::Aux(AuxPort::Free(0))]
    );
}

#[test]
fn single_occurrence_leaves_the_placeholder() {
    let net = INet::from_trees(&vec![ctr(0, var("a"), Tree::Era)]).unwrap();
    assert_eq!(net.aux_port(&left(0)), Ok(Port::Aux(AuxPort::Free(0))));
    assert_eq!(net.aux_port(&right(0)), Ok(Port::Principal(1)));
}

#[test]
fn reciprocity_on_a_built_net() {
    let trees = vec![
        ctr(0, var("a"), ctr(1, var("b"), var("c"))),
        ctr(2, var("c"), var("a")),
        var("b"),
        var("d"),
        var("d"),
    ];
    let net = INet::from_trees(&trees).unwrap();
    let mut slots: Vec<AuxPort> = Vec::new();
    for i in 0..net.free_ports.len() {
        slots.push(AuxPort::Free(i));
    }
    for n in 0..net.nodes.len() {
        slots.push(left(n));
        slots.push(right(n));
    }
    let mut wires = 0;
    for x in slots {
        if let Ok(Port::Aux(y)) = net.aux_port(&x) {
            assert_eq!(net.aux_port(&y), Ok(Port::Aux(x)));
            wires += 1;
        }
    }
    assert_eq!(wires, 8);
    for n in 0..net.nodes.len() {
        match net.port(&Port::Principal(n)) {
            Ok(Port::Aux(p)) => assert_eq!(net.aux_port(&p), Ok(Port::Principal(n))),
            other => panic!("principal port resolved to {:?}", other),
        }
    }
}

#[test]
fn read_resolves_principal_and_auxiliary_ports() {
    let net = INet::from_trees(&minimal()).unwrap();
    assert_eq!(net.port(&Port::Principal(1)), Ok(Port::Aux(AuxPort::Free(1))));
    assert_eq!(net.port(&Port::Aux(AuxPort::Free(1))), Ok(Port::Principal(1)));
    assert_eq!(net.port(&Port::Aux(right(0))), Ok(Port::Aux(right(1))));
    assert_eq!(net.aux_port(&left(1)), Ok(Port::Aux(left(0))));
    assert_eq!(*net.node(1), net.nodes[1]);
}

#[test]
fn read_beyond_the_arena_is_out_of_range() {
    let net = INet::from_trees(&minimal()).unwrap();
    assert_eq!(net.port(&Port::Principal(2)), Err(Error::IndexOutOfRange));
    assert_eq!(net.aux_port(&left(2)), Err(Error::IndexOutOfRange));
    assert_eq!(net.aux_port(&AuxPort::Free(2)), Err(Error::IndexOutOfRange));
    assert_eq!(net.port(&Port::Aux(right(9))), Err(Error::IndexOutOfRange));
}

#[test]
fn eraser_has_no_auxiliary_slots() {
    let mut net = INet::from_trees(&vec![Tree::Era]).unwrap();
    assert_eq!(net.aux_port(&left(0)), Err(Error::AuxOnNullaryNode));
    assert_eq!(net.aux_port(&right(0)), Err(Error::AuxOnNullaryNode));
    let before = net.clone();
    assert_eq!(net.set_port(left(0), Port::Principal(0)), Err(Error::AuxOnNullaryNode));
    assert_eq!(net, before);
}

#[test]
fn write_returns_the_previous_content() {
    let mut net = INet::from_trees(&minimal()).unwrap();
    assert_eq!(net.set_port(AuxPort::Free(0), Port::Aux(left(1))), Ok(Port::Principal(0)));
    assert_eq!(net.free_ports[0], Port::Aux(left(1)));
    assert_eq!(net.set_port(left(0), Port::Principal(1)), Ok(Port::Aux(left(1))));
    assert_eq!(net.set_port(right(0), Port::Principal(0)), Ok(Port::Aux(right(1))));
    assert_eq!(
        net.nodes[0],
        Node::Agent(Agent {
            label: 0,
            principal: AuxPort::Free(0),
            left: Port::Principal(1),
            right: Port::Principal(0),
        })
    );
    let before = net.clone();
    assert_eq!(net.set_port(AuxPort::Free(2), Port::Principal(0)), Err(Error::IndexOutOfRange));
    assert_eq!(net.set_port(left(5), Port::Principal(0)), Err(Error::IndexOutOfRange));
    assert_eq!(net, before);
}

#[test]
fn rendering_names_wires_in_order_of_appearance() {
    let net = INet::from_trees(&minimal()).unwrap();
    assert_eq!(net.to_trees(), Ok(minimal()));
    let trees = vec![ctr(4, var("y"), var("x")), ctr(5, var("x"), ctr(6, Tree::Era, var("y")))];
    let net = INet::from_trees(&trees).unwrap();
    let expected =
        vec![ctr(4, var("a"), var("b")), ctr(5, var("b"), ctr(6, Tree::Era, var("a")))];
    assert_eq!(net.to_trees(), Ok(expected));
}

#[test]
fn round_trip_keeps_the_net() {
    let trees = vec![
        ctr(0, var("q"), ctr(1, var("r"), var("s"))),
        ctr(2, var("s"), ctr(2, Tree::Era, var("q"))),
        var("r"),
        var("t"),
        Tree::Era,
        var("t"),
    ];
    let net = INet::from_trees(&trees).unwrap();
    let rendered = net.to_trees().unwrap();
    assert_eq!(rendered.len(), trees.len());
    let again = INet::from_trees(&rendered).unwrap();
    assert_eq!(again, net);
    assert_eq!(again.to_trees(), Ok(rendered));
}

#[test]
fn names_do_not_restart_on_the_next_line() {
    let trees = vec![ctr(0, var("p"), var("p")), ctr(0, var("q"), var("q"))];
    let net = INet::from_trees(&trees).unwrap();
    let expected = vec![ctr(0, var("a"), var("a")), ctr(0, var("b"), var("b"))];
    assert_eq!(net.to_trees(), Ok(expected));
}

#[test]
fn wire_end_that_holds_a_principal_port_is_a_violation() {
    let net = INet {
        nodes: vec![
            Node::Agent(Agent {
                label: 0,
                principal: AuxPort::Free(0),
                left: Port::Principal(1),
                right: Port::Aux(right(0)),
            }),
            Node::Era(left(0)),
        ],
        free_ports: vec![Port::Aux(left(0))],
    };
    assert!(net.is_forward());
    assert_eq!(net.to_trees(), Err(Error::InvariantViolation));
}

#[test]
fn rendering_reports_what_reading_reports() {
    let net = INet { nodes: vec![], free_ports: vec![Port::Principal(3)] };
    assert!(net.is_forward());
    assert_eq!(net.to_trees(), Err(Error::IndexOutOfRange));
    let net = INet { nodes: vec![], free_ports: vec![Port::Aux(AuxPort::Free(4))] };
    assert_eq!(net.to_trees(), Err(Error::IndexOutOfRange));
    let net =
        INet { nodes: vec![Node::Era(AuxPort::Free(0))], free_ports: vec![Port::Aux(left(0))] };
    assert_eq!(net.to_trees(), Err(Error::AuxOnNullaryNode));
}

#[test]
fn forward_check_accepts_built_nets_and_refuses_cycles() {
    assert!(INet::from_trees(&minimal()).unwrap().is_forward());
    assert!(INet::new().is_forward());
    let cyclic = INet {
        nodes: vec![Node::Agent(Agent {
            label: 0,
            principal: AuxPort::Free(0),
            left: Port::Principal(0),
            right: Port::Aux(right(0)),
        })],
        free_ports: vec![Port::Principal(0)],
    };
    assert!(!cyclic.is_forward());
    let backward = INet {
        nodes: vec![
            Node::Era(right(1)),
            Node::Agent(Agent {
                label: 0,
                principal: AuxPort::Free(0),
                left: Port::Aux(left(1)),
                right: Port::Principal(0),
            }),
        ],
        free_ports: vec![Port::Principal(1)],
    };
    assert!(!backward.is_forward());
}

#[test]
fn names_count_in_base_26_lowest_digit_first() {
    let mut gen = NameGen::new();
    let mut names: Vec<String> = Vec::new();
    for _ in 0..703 {
        names.push(gen.next());
    }
    assert_eq!(names[0], "a");
    assert_eq!(names[1], "b");
    assert_eq!(names[25], "z");
    assert_eq!(names[26], "ab");
    assert_eq!(names[27], "bb");
    assert_eq!(names[51], "zb");
    assert_eq!(names[52], "ac");
    assert_eq!(names[675], "zz");
    assert_eq!(names[676], "aab");
    assert_eq!(names[702], "abb");
}

#[test]
fn names_are_never_reused() {
    let mut gen = NameGen::new();
    let mut seen = std::collections::HashSet::new();
    for _ in 0..20000 {
        assert!(seen.insert(gen.next()));
    }
}

#[test]
fn tree_copy_equals_the_tree() {
    let tree = ctr(9, var("long_name"), ctr(1, Tree::Era, Tree::Other));
    assert_eq!(tree.duplicate(), tree);
    assert_eq!(tree.clone(), tree);
}

#[test]
fn every_error_has_its_own_message() {
    let all = [
        Error::UnsupportedTreeShape,
        Error::VariableOveruse,
        Error::IndexOutOfRange,
        Error::AuxOnNullaryNode,
        Error::InvariantViolation,
    ];
    assert_eq!(Error::VariableOveruse.message(), "variable used more than twice");
    assert_eq!(Error::IndexOutOfRange.message(), "index out of range");
    for (i, a) in all.iter().enumerate() {
        for b in &all[..i] {
            assert_ne!(a.message(), b.message());
        }
    }
}

#[test]
fn renaming_the_variables_gives_the_same_net() {
    let first = vec![ctr(0, var("a"), ctr(1, var("b"), var("a"))), var("b")];
    let second = vec![ctr(0, var("zz"), ctr(1, var("a"), var("zz"))), var("a")];
    assert_eq!(INet::from_trees(&first), INet::from_trees(&second));
    let merged = vec![ctr(0, var("a"), ctr(1, var("a"), var("a"))), var("a")];
    assert_eq!(INet::from_trees(&merged), Err(Error::VariableOveruse));
}

#[test]
fn nodes_are_numbered_in_reading_order() {
    let trees = vec![
        ctr(1, ctr(2, Tree::Era, var("a")), ctr(3, var("a"), Tree::Era)),
        ctr(4, Tree::Era, Tree::Era),
    ];
    let net = INet::from_trees(&trees).unwrap();
    let labels: Vec<Option<u16>> = net
        .nodes
        .iter()
        .map(|n| match n {
            Node::Agent(a) => Some(a.label),
            Node::Era(_) => None,
        })
        .collect();
    assert_eq!(
        labels,
        vec![Some(1), Some(2), None, Some(3), None, Some(4), None, None]
    );
    assert_eq!(net.free_ports, vec![Port::Principal(0), Port::Principal(5)]);
    assert_eq!(net.aux_port(&right(1)), Ok(Port::Aux(left(3))));
    assert_eq!(net.aux_port(&left(3)), Ok(Port::Aux(right(1))));
    assert!(net.is_forward());
}
