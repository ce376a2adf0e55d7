//! Cache-directory maintenance core: measuring the aggregate size of a set of
//! cache directories, reclaiming space by best-effort deletion of their
//! contents, and deciding when an automatic clean should fire.
//!
//! Directory trees are represented by the [`tree::FsNode`] snapshot model, so
//! that traversal, accounting and partial-failure tolerance are all verified;
//! the host application performs the actual filesystem reads and deletions and
//! mirrors them through this model.

pub mod engine;
pub mod policy;
pub mod tree;
