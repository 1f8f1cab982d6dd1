//! Interaction nets and their path networks.
//!
//! A net is an arena of nodes, erasers and binary agents, whose ports are joined by
//! wires. [`inet`] holds the net and the reading and writing of its slots;
//! [`construct`] builds a net from trees, in which two occurrences of a name are the
//! two ends of a wire; [`render`] turns a net back into trees, with fresh names
//! from [`names`]. [`wiring`], [`tables`], [`renaming`] and [`roundtrip`] state and
//! prove what holds of built nets: when building succeeds, that every wire has two
//! ends, and that a net comes back from its trees.
//!
//! The path network of a net has one trie per label of agent. [`trie`] holds the
//! trie of one label with the edges between its branches, [`prune`] detaches the
//! branches that carry no edge, [`pnet`] walks a net and enters what it finds, and
//! [`labels`] proves when that walk succeeds.
//!
//! [`tree`] is the tree that nets are built from, [`text`] the line format of a
//! text of trees, [`port_map`] a table keyed by auxiliary ports, and [`error`] the
//! errors.

pub mod construct;
pub mod error;
pub mod inet;
pub mod labels;
pub mod names;
pub mod pnet;
pub mod port_map;
pub mod prune;
pub mod renaming;
pub mod render;
pub mod roundtrip;
pub mod tables;
pub mod text;
pub mod tree;
pub mod trie;
pub mod wiring;
