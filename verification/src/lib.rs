//! A borrow checker for a small control-flow-graph language with named
//! lifetimes, together with the graph algorithms it is built on.

pub mod bit_set;
pub mod borrowck;
pub mod dominance;
pub mod dominators;
pub mod env;
pub mod errors;
pub mod func_graph;
pub mod graph;
pub mod infer;
pub mod iterate;
pub mod liveness;
pub mod loans_in_scope;
pub mod loop_tree;
pub mod node_vec;
pub mod reachable;
pub mod reference;
pub mod region;
pub mod regionck;
pub mod repr;
pub mod transpose;
pub mod vec_graph;
