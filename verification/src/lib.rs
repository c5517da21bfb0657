//! A movable-tree CRDT library.
//!
//! Replicas edit a tree hierarchy concurrently through node creation,
//! reparenting moves and soft deletion.  Operation logs are exchanged
//! pairwise; every replica replays the id-sorted union of all known
//! operations, so replicas that know the same operations hold the same
//! forest.  Two rewind strategies are provided: a snapshot cache over a
//! persistent forest, and reverse replay of moves over a mutable forest.

pub mod crdt_snapshot;
pub mod crdt_undo;
pub mod forest_spec;
pub mod laws;
pub mod log_spaced_snapshots;
pub mod mut_tree;
pub mod ops;
pub mod replay;
pub mod rewind;
pub mod tree;

pub use tree::CyclicMoveErr;
pub use tree::Forest;
