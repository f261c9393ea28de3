//! Synchronization primitives: the lock dependency graph used for deadlock detection.

pub mod lock_graph;

pub use lock_graph::{LockGraph, LockGraphView, LockType};
pub mod lock_graph_laws;
