//! A synchronisation and persistence engine for collaborative documents.
//!
//! Client sessions attach to documents, submit incremental updates, and
//! receive the updates of their peers.
//! Every accepted update is written to a durable log before it becomes part
//! of the state in memory, and the log is compacted into snapshots.
//!
//! The parts, leaves first: [`codec`] and [`keys`] lay documents out as
//! bytes; [`store`] is the byte store they are kept in; [`durable`] says
//! what a store makes of a document; [`engine`] loads, updates, saves and
//! evicts documents; [`auth`] mints and checks access tokens; [`mux`] runs
//! the sessions of each document; [`wire`] frames what sessions exchange;
//! [`config`] reads where the store is.
//!
//! Updates and states are opaque bytes here. Merging them is the work of
//! the document library, which the caller runs: the engine takes the merged
//! state along with each update.

pub mod codec;
pub mod store;
pub mod keys;
pub mod durable;
pub mod engine;
pub mod config;
pub mod auth;
pub mod mux;
pub mod wire;
