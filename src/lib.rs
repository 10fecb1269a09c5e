//! A small neural-network toolkit: a dense matrix kernel, a feed-forward
//! network trained by gradient descent, paired training data with a
//! co-shuffle, and the genome model of NEAT (nodes, connections and
//! innovation numbering) with its structural invariants.

pub mod activation;
pub mod matrix;
pub mod neat;
pub mod network;
pub mod training_data;

mod random;
