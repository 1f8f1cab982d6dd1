use crate::error::Error;
use vstd::prelude::*;

verus! {

/// The side of an agent on which an auxiliary slot lies.
#[derive(Clone, Copy, Debug, Hash, PartialEq, Eq, Structural)]
pub enum Dir {
    Left,
    Right,
}

/// A connection point that is not a principal port.
#[derive(Clone, Copy, Debug, Hash, PartialEq, Eq, Structural)]
pub enum AuxPort {
    /// One of the net's external slots, by its index.
    Free(usize),
    /// The left or right slot of the agent `node`.
    Node { dir: Dir, node: usize },
}

/// What a connection point is wired to.
#[derive(Clone, Copy, Debug, PartialEq, Eq, Structural)]
pub enum Port {
    /// The principal port of a node.
    Principal(usize),
    /// An auxiliary connection point.
    Aux(AuxPort),
}

/// A binary agent.
#[derive(Clone, Copy, Debug, PartialEq, Eq, Structural)]
pub struct Agent {
    /// The agent's kind.
    pub label: u16,
    /// The slot that the agent's principal port is plugged into.
    pub principal: AuxPort,
    /// What the left slot is wired to.
    pub left: Port,
    /// What the right slot is wired to.
    pub right: Port,
}

/// A node of the arena.
#[derive(Clone, Copy, Debug, PartialEq, Eq, Structural)]
pub enum Node {
    /// An eraser, with the slot that its principal port is plugged into.
    Era(AuxPort),
    /// A binary agent.
    Agent(Agent),
}

/// An interaction net: an arena of nodes and the net's external slots.
#[derive(Clone, Debug, PartialEq, Eq)]
pub struct INet {
    pub nodes: Vec<Node>,
    pub free_ports: Vec<Port>,
}

/// The mathematical content of an [`INet`].
pub struct NetView {
    pub nodes: Seq<Node>,
    pub free_ports: Seq<Port>,
}

impl View for INet {
    type V = NetView;

    open spec fn view(&self) -> NetView {
        NetView { nodes: self.nodes@, free_ports: self.free_ports@ }
    }
}

/// What a slot holds between its allocation and the moment its counterpart is known.
pub open spec fn placeholder() -> Port {
    Port::Aux(AuxPort::Free(0))
}

impl Agent {
    /// The content of the slot on side `dir`.
    pub open spec fn slot(self, dir: Dir) -> Port {
        match dir {
            Dir::Left => self.left,
            Dir::Right => self.right,
        }
    }

    /// This agent with `value` in the slot on side `dir`.
    pub open spec fn with_slot(self, dir: Dir, value: Port) -> Agent {
        match dir {
            Dir::Left => Agent { left: value, ..self },
            Dir::Right => Agent { right: value, ..self },
        }
    }
}

/// Whether `p`, found in a slot of the node `n`, is no principal port of `n` or of
/// an earlier node.
pub open spec fn points_past(p: Port, n: int) -> bool {
    p matches Port::Principal(m) ==> m > n
}

impl NetView {
    /// Every node that is plugged into a slot of an agent comes after that agent in
    /// the arena. Nets built from trees are so, and a descent through principal
    /// ports then ends.
    pub open spec fn forward(self) -> bool {
        forall|n: int|
            0 <= n < self.nodes.len() ==> match #[trigger] self.nodes[n] {
                Node::Era(_) => true,
                Node::Agent(agent) => points_past(agent.left, n) && points_past(agent.right, n),
            }
    }

    /// How far a descent from `port` can go: the number of nodes from the one that
    /// `port` names to the end of the arena.
    pub open spec fn rank(self, port: Port) -> nat {
        match port {
            Port::Principal(n) => if n < self.nodes.len() {
                (self.nodes.len() - n) as nat
            } else {
                0
            },
            Port::Aux(_) => 0,
        }
    }
}

impl Node {
    /// The slot that the node's principal port is plugged into.
    pub open spec fn plug(self) -> AuxPort {
        match self {
            Node::Era(end) => end,
            Node::Agent(agent) => agent.principal,
        }
    }
}

impl NetView {
    /// Every wire has two ends: a slot that holds an auxiliary port is held by the
    /// slot of that port in turn.
    pub open spec fn reciprocal(self) -> bool {
        forall|x: AuxPort|
            match #[trigger] self.read_aux(x) {
                Ok(Port::Aux(y)) => self.read_aux(y) == Ok::<Port, Error>(Port::Aux(x)),
                _ => true,
            }
    }

    /// Every node is plugged in: the slot that a node records for its principal
    /// port holds that port, and a slot that holds a principal port is the one
    /// that the node records.
    pub open spec fn plugged(self) -> bool {
        &&& forall|m: int|
            0 <= m < self.nodes.len() ==> self.read_aux((#[trigger] self.nodes[m]).plug())
                == Ok::<Port, Error>(Port::Principal(m as usize))
        &&& forall|x: AuxPort|
            match #[trigger] self.read_aux(x) {
                Ok(Port::Principal(m)) => m < self.nodes.len() && self.nodes[m as int].plug()
                    == x,
                _ => true,
            }
    }

    /// What the auxiliary slot `p` holds, or why it cannot be read.
    pub open spec fn read_aux(self, p: AuxPort) -> Result<Port, Error> {
        match p {
            AuxPort::Free(i) => if i < self.free_ports.len() {
                Ok(self.free_ports[i as int])
            } else {
                Err(Error::IndexOutOfRange)
            },
            AuxPort::Node { dir, node } => if node < self.nodes.len() {
                match self.nodes[node as int] {
                    Node::Era(_) => Err(Error::AuxOnNullaryNode),
                    Node::Agent(agent) => Ok(agent.slot(dir)),
                }
            } else {
                Err(Error::IndexOutOfRange)
            },
        }
    }

    /// What `p` is wired to: for a principal port the slot recorded in its node,
    /// for an auxiliary port the content of that slot.
    pub open spec fn read(self, p: Port) -> Result<Port, Error> {
        match p {
            Port::Principal(n) => if n < self.nodes.len() {
                match self.nodes[n as int] {
                    Node::Era(end) => Ok(Port::Aux(end)),
                    Node::Agent(agent) => Ok(Port::Aux(agent.principal)),
                }
            } else {
                Err(Error::IndexOutOfRange)
            },
            Port::Aux(a) => self.read_aux(a),
        }
    }

    /// The net with `value` in the slot `key`; the net itself where the slot cannot
    /// be read.
    pub open spec fn write(self, key: AuxPort, value: Port) -> NetView {
        if self.read_aux(key) is Ok {
            match key {
                AuxPort::Free(i) => NetView {
                    free_ports: self.free_ports.update(i as int, value),
                    ..self
                },
                AuxPort::Node { dir, node } => NetView {
                    nodes: self.nodes.update(
                        node as int,
                        Node::Agent(self.nodes[node as int]->Agent_0.with_slot(dir, value)),
                    ),
                    ..self
                },
            }
        } else {
            self
        }
    }
}

/// Whether `p` is no principal port of the node `n` or of an earlier node.
fn port_points_past(p: &Port, n: usize) -> (b: bool)
    ensures
        b == points_past(*p, n as int),
{
    match *p {
        Port::Principal(m) => m > n,
        Port::Aux(_) => true,
    }
}

impl Default for INet {
    fn default() -> (net: INet)
        ensures
            net@.nodes.len() == 0,
            net@.free_ports.len() == 0,
    {
        INet { nodes: Vec::new(), free_ports: Vec::new() }
    }
}

impl INet {
    /// The empty net.
    pub fn new() -> (net: INet)
        ensures
            net@.nodes.len() == 0,
            net@.free_ports.len() == 0,
    {
        INet { nodes: Vec::new(), free_ports: Vec::new() }
    }

    /// Resolves `port` to what it is wired to.
    pub fn port(&self, port: &Port) -> (r: Result<Port, Error>)
        ensures
            r == self@.read(*port),
    {
        match *port {
            Port::Principal(node_id) => {
                if node_id < self.nodes.len() {
                    match self.nodes[node_id] {
                        Node::Era(end) => Ok(Port::Aux(end)),
                        Node::Agent(agent) => Ok(Port::Aux(agent.principal)),
                    }
                } else {
                    Err(Error::IndexOutOfRange)
                }
            },
            Port::Aux(aux_port) => self.aux_port(&aux_port),
        }
    }

    /// Overwrites the slot `key` with `value` and returns what the slot held. On an
    /// error the net is unchanged.
    pub fn set_port(&mut self, key: AuxPort, value: Port) -> (r: Result<Port, Error>)
        ensures
            r == old(self)@.read_aux(key),
            final(self)@ == old(self)@.write(key, value),
    {
        match key {
            AuxPort::Free(id) => {
                if id < self.free_ports.len() {
                    let previous = self.free_ports[id];
                    self.free_ports[id] = value;
                    assert(self@.free_ports =~= old(self)@.free_ports.update(id as int, value));
                    Ok(previous)
                } else {
                    Err(Error::IndexOutOfRange)
                }
            },
            AuxPort::Node { dir, node: node_id } => {
                if node_id < self.nodes.len() {
                    match self.nodes[node_id] {
                        Node::Era(_) => Err(Error::AuxOnNullaryNode),
                        Node::Agent(agent) => {
                            match dir {
                                Dir::Left => {
                                    self.nodes[node_id] = Node::Agent(
                                        Agent {
                                            label: agent.label,
                                            principal: agent.principal,
                                            left: value,
                                            right: agent.right,
                                        },
                                    );
                                    Ok(agent.left)
                                },
                                Dir::Right => {
                                    self.nodes[node_id] = Node::Agent(
                                        Agent {
                                            label: agent.label,
                                            principal: agent.principal,
                                            left: agent.left,
                                            right: value,
                                        },
                                    );
                                    Ok(agent.right)
                                },
                            }
                        },
                    }
                } else {
                    Err(Error::IndexOutOfRange)
                }
            },
        }
    }

    /// Reads the auxiliary slot `port`.
    pub fn aux_port(&self, port: &AuxPort) -> (r: Result<Port, Error>)
        ensures
            r == self@.read_aux(*port),
    {
        match *port {
            AuxPort::Free(id) => {
                if id < self.free_ports.len() {
                    Ok(self.free_ports[id])
                } else {
                    Err(Error::IndexOutOfRange)
                }
            },
            AuxPort::Node { dir, node } => {
                if node < self.nodes.len() {
                    match self.nodes[node] {
                        Node::Era(_) => Err(Error::AuxOnNullaryNode),
                        Node::Agent(agent) => {
                            match dir {
                                Dir::Left => Ok(agent.left),
                                Dir::Right => Ok(agent.right),
                            }
                        },
                    }
                } else {
                    Err(Error::IndexOutOfRange)
                }
            },
        }
    }

    /// Whether every node that is plugged into a slot of an agent comes after that
    /// agent in the arena.
    pub fn is_forward(&self) -> (b: bool)
        ensures
            b == self@.forward(),
    {
        let mut n: usize = 0;
        while n < self.nodes.len()
            invariant
                n <= self.nodes.len(),
                forall|i: int|
                    0 <= i < n ==> match #[trigger] self@.nodes[i] {
                        Node::Era(_) => true,
                        Node::Agent(agent) => points_past(agent.left, i) && points_past(
                            agent.right,
                            i,
                        ),
                    },
            decreases self.nodes.len() - n,
        {
            match self.nodes[n] {
                Node::Era(_) => {},
                Node::Agent(agent) => {
                    if !port_points_past(&agent.left, n) || !port_points_past(&agent.right, n) {
                        assert(self@.nodes[n as int] is Agent);
                        return false;
                    }
                },
            }
            n = n + 1;
        }
        true
    }

    /// The node with the id `node_id`.
    pub fn node(&self, node_id: usize) -> (node: &Node)
        requires
            node_id < self@.nodes.len(),
        ensures
            *node == self@.nodes[node_id as int],
    {
        &self.nodes[node_id]
    }
}

} // verus!
