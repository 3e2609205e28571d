//! A small graph data store: nodes and edges with stable integer
//! identifiers that are recycled after deletion, referential-integrity
//! maintenance on every mutation, and a lossless text snapshot codec.

pub mod board;
pub mod edge;
pub mod idmap;
pub mod node;
pub mod snapshot;
pub mod tag;
