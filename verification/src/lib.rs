//! A multi-tree key-value store with atomically committed write batches and
//! consistent snapshot reads.
//!
//! Every tree is an append-only log of commands with an in-memory index over
//! it. The trees of a database share one commit clock: a batch that touches
//! several trees becomes visible in all of them at once, or in none.

/// Keys, values and the counters that identify batches and commits.
pub mod types;
/// The commands that a tree's log carries.
pub mod command;
/// The frame that holds one record in a log file.
pub mod frame;
/// What the engine asks of a place to keep a log.
pub mod log_file;
/// A log that lives in memory.
pub mod mem_log_file;
/// A log of commands over a log file, with a replay of all it holds.
pub mod log;
/// The recordings of the open batches of a tree.
pub mod batch_player;
/// The index of a tree.
pub mod index;
/// One tree: log, recordings and index.
pub mod tree;
/// The commit log of a database.
pub mod commit_log;
/// Recovery of the trees from their logs.
pub mod loader;
/// The database, its write batches and its read views.
pub mod db;
/// What recovery makes of logs that commits wrote.
pub mod recovery;
/// A script language that drives a database.
pub mod cmdscript;
/// What a script is sure to do on a reliable database.
pub mod script_laws;
/// Deletes of empty ranges among the operations of a batch.
pub mod range_laws;
