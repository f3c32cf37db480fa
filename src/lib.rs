//! A leaderless replication core: commands with key sets, a per-replica
//! instance log driven by PreAccept / Accept / Commit, quorum arithmetic,
//! and a deterministic execution engine that applies committed commands to
//! an object store.

pub mod command;
pub mod instance;
pub mod logger;
pub mod object_id;
pub mod store;
pub mod log;
pub mod quorum;
pub mod coordinator;
pub mod execution;
