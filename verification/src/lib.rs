//! A replicated tree data store. Every peer holds a local replica of a
//! rooted tree of vertices, mutates it independently, and exchanges
//! operations with other peers such that all replicas converge without
//! central coordination.

pub mod crdt;
pub mod model;
pub mod state_vector;
pub mod storage;
pub mod types;
pub mod vertex_map;
