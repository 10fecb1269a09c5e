//! The genome model of NEAT: node and connection genes, innovation numbering
//! and the structural invariants that every genome keeps.

pub mod connection_gene;
pub mod genome;
pub mod innovation;
pub mod node_gene;
