use crate::inet::{AuxPort, Dir};
use std::collections::HashMap;
use vstd::prelude::*;

verus! {

broadcast use vstd::std_specs::hash::group_hash_axioms;

/// The number that stands for an auxiliary port in a table: three consecutive
/// numbers per index, one for the free port and one for each side of the node.
pub open spec fn port_key(p: AuxPort) -> u128 {
    match p {
        AuxPort::Free(i) => (3 * i) as u128,
        AuxPort::Node { dir: Dir::Left, node } => (3 * node + 1) as u128,
        AuxPort::Node { dir: Dir::Right, node } => (3 * node + 2) as u128,
    }
}

/// Different ports have different numbers.
pub proof fn lemma_port_key_injective(p: AuxPort, q: AuxPort)
    requires
        port_key(p) == port_key(q),
    ensures
        p == q,
{
}

/// The number that stands for `p` in a table.
fn key_of(p: &AuxPort) -> (k: u128)
    ensures
        k == port_key(*p),
{
    match *p {
        AuxPort::Free(i) => 3 * (i as u128),
        AuxPort::Node { dir: Dir::Left, node } => 3 * (node as u128) + 1,
        AuxPort::Node { dir: Dir::Right, node } => 3 * (node as u128) + 2,
    }
}

/// A table from auxiliary ports to values.
pub struct PortMap<V> {
    table: HashMap<u128, V>,
}

impl<V> View for PortMap<V> {
    type V = Map<AuxPort, V>;

    closed spec fn view(&self) -> Map<AuxPort, V> {
        Map::new(
            |p: AuxPort| self.table@.contains_key(port_key(p)),
            |p: AuxPort| self.table@[port_key(p)],
        )
    }
}

impl<V> PortMap<V> {
    /// The empty table.
    pub fn new() -> (m: Self)
        ensures
            m@ == Map::<AuxPort, V>::empty(),
    {
        let m = PortMap { table: HashMap::new() };
        assert(m@ =~= Map::<AuxPort, V>::empty());
        m
    }

    /// The value recorded for `key`, if there is one.
    pub fn get(&self, key: &AuxPort) -> (r: Option<&V>)
        ensures
            match r {
                Some(v) => self@.contains_key(*key) && *v == self@[*key],
                None => !self@.contains_key(*key),
            },
    {
        let k = key_of(key);
        self.table.get(&k)
    }

    /// Records `value` for `key`, in place of what was recorded for it before.
    pub fn insert(&mut self, key: AuxPort, value: V)
        ensures
            final(self)@ == old(self)@.insert(key, value),
    {
        let k = key_of(&key);
        let _ = self.table.insert(k, value);
        assert(self@ =~= old(self)@.insert(key, value)) by {
            assert forall|p: AuxPort| p != key implies port_key(p) != k by {
                if port_key(p) == k {
                    lemma_port_key_injective(p, key);
                }
            }
        }
    }
}

} // verus!
