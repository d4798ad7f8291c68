//! A scheduler for tiled execution of tensor computation graphs on a device
//! with a small fast memory and a bandwidth-limited slow memory.
pub mod graph;
pub mod input_format;
pub mod local_optimization;
pub mod naive_scheduler;
pub mod partition;
pub mod performance_model;
pub mod rational;
pub mod schedule;
pub mod subgraph;
pub mod tiling;
pub mod traversal;
