//! Connection genes: a directed, weighted edge between two nodes.

use crate::random::random_bool;
use vstd::prelude::*;

verus! {

/// An edge from node `in_node` to node `out_node` (both innovation ids),
/// with its weight, whether it is enabled, and its own innovation id.
#[derive(Debug, Clone, Copy, PartialEq)]
pub struct ConnectionGene<V> {
    pub in_node: i8,
    pub out_node: i8,
    pub weight: V,
    pub enabled: bool,
    pub innovation_id: i8,
}

impl<V> ConnectionGene<V> {
    /// A connection that is enabled or not by a fair coin.
    pub fn new(in_node: i8, out_node: i8, innovation_id: i8, weight: V) -> (r: ConnectionGene<V>)
        ensures
            r.in_node == in_node,
            r.out_node == out_node,
            r.innovation_id == innovation_id,
            r.weight == weight,
    {
        ConnectionGene::with_enabled(in_node, out_node, innovation_id, weight, random_bool())
    }

    pub fn with_enabled(in_node: i8, out_node: i8, innovation_id: i8, weight: V, enabled: bool) -> (r:
        ConnectionGene<V>)
        ensures
            r.in_node == in_node,
            r.out_node == out_node,
            r.innovation_id == innovation_id,
            r.weight == weight,
            r.enabled == enabled,
    {
        ConnectionGene { in_node, out_node, weight, enabled, innovation_id }
    }
}

} // verus!
