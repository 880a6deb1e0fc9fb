//! An in-memory key-value store speaking a line-framed wire protocol, with
//! typed data (strings, lists, sorted sets), per-key expiry, and a durable
//! append-only transaction log with periodic snapshots.

pub mod b64;
pub mod commands;
pub mod connections;
pub mod engine;
pub mod error;
pub mod generic;
pub mod globs;
pub mod keyed;
pub mod keyvalues;
pub mod lists;
pub mod resp;
pub mod score;
pub mod server;
pub mod snapshots;
pub mod state;
pub mod sorted_sets;
pub mod text;
pub mod ttl;
pub mod tx_log;
pub mod wire;

