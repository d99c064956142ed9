//! Core of a tensor-graph fusion compiler: a symbolic shape/index engine,
//! a structural pattern matcher over computation graphs, fusion passes that
//! rewrite matched idioms into single fused operators, and the pure decision
//! logic of the device operator runtime (launch geometry, parameter order,
//! buffer sizing). Device drivers and example models sit outside this crate
//! and interact with it through plain values.

pub mod expr;
pub mod fusion;
pub mod graph;
pub mod indexing;
pub mod kernel;
pub mod permute;
pub mod semantics;
pub mod shape;
pub mod symbols;
