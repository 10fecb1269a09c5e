//! Node genes: an id, a role and a cached activation.

use crate::random::random_index;
use vstd::prelude::*;

verus! {

/// The role of a node in the network.
#[allow(non_camel_case_types)]
#[derive(Debug, Clone, Copy, PartialEq, Eq, Structural)]
pub enum NodeType {
    INPUT,
    OUTPUT,
    HIDDEN,
}

impl NodeType {
    /// The role numbered `i`: 0 is `INPUT`, 1 is `OUTPUT`, anything else
    /// `HIDDEN`.
    pub open spec fn from_index_spec(i: usize) -> NodeType {
        if i == 0 {
            NodeType::INPUT
        } else if i == 1 {
            NodeType::OUTPUT
        } else {
            NodeType::HIDDEN
        }
    }

    pub fn from_index(i: usize) -> (r: NodeType)
        ensures
            r == Self::from_index_spec(i),
    {
        match i {
            0 => NodeType::INPUT,
            1 => NodeType::OUTPUT,
            _ => NodeType::HIDDEN,
        }
    }

    /// A role drawn uniformly from the three.
    pub fn random() -> (r: NodeType) {
        NodeType::from_index(random_index(0, 3))
    }
}

/// A node: its innovation id, its role and its cached activation, whose type
/// `V` is the caller's choice of number.
#[derive(Debug, Clone, Copy, PartialEq)]
pub struct NodeGene<V> {
    pub activation: V,
    pub innovation_id: i8,
    pub node_type: NodeType,
}

impl<V> NodeGene<V> {
    pub fn new(innovation_id: i8, node_type: NodeType, activation: V) -> (r: NodeGene<V>)
        ensures
            r.innovation_id == innovation_id,
            r.node_type == node_type,
            r.activation == activation,
    {
        NodeGene { activation, innovation_id, node_type }
    }

    /// A node of a role drawn uniformly from the three.
    pub fn random(innovation_id: i8, activation: V) -> (r: NodeGene<V>)
        ensures
            r.innovation_id == innovation_id,
            r.activation == activation,
    {
        NodeGene::new(innovation_id, NodeType::random(), activation)
    }
}

} // verus!
