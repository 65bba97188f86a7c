//! An embedded, single-node relational store: an append-only log-structured
//! storage engine together with a minimal query executor.
//!
//! The storage engine keeps the log as a byte image in memory; callers that
//! want durability append the same bytes to a file.  Statements arrive as a
//! plain statement tree (the SQL grammar itself is an external collaborator).

pub mod codec;
pub mod executor;
pub mod log;
pub mod storage;
pub mod types;
