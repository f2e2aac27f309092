//! An embedded store for a tree-structured conversation log.
//!
//! Messages are organized as a branching tree. Each node is identified by a
//! *path*: a dot-rendered sequence of non-negative integers (`"3.1.4"`) that
//! doubles as the parent/ancestor encoding — the parent of a node is its path
//! with the last segment removed. The store keeps a full-text index over the
//! message bodies that is updated inside the same operation as every mutation,
//! so the index and the node table can never be observed out of step.
#![verifier::loop_isolation(false)]

pub mod codec;
pub mod config;
pub mod errors;
pub mod files;
pub mod store;
pub mod text;
