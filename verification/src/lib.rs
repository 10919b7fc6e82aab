//! An in-memory directed multigraph on arena-allocated slot storage with
//! intrusive, index-based adjacency chains, a named-node layer on top of it,
//! and a transactional undo/redo log whose entries are data-only inverse
//! actions.

pub mod command;
pub mod graph;
pub mod hive;
