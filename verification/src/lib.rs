//! Minimum-cost maximum flow on networks with integer capacities and costs.
pub mod bellman;
pub mod chains;
pub mod cut;
pub mod decompose;
pub mod edge_list;
pub mod network;
pub mod optimal;
pub mod potentials;
pub mod graph;
pub mod queue;
pub mod relax;
pub mod search;
pub mod slot_sums;

pub use graph::{FlowGraph, F, FINF, MCMF, W};
