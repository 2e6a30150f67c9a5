//! Replicated, snapshot-isolated SQL storage: value encodings, the MVCC
//! engine, the Raft core and the protocols around them.

pub mod checks;
pub mod client;
pub mod codec;
pub mod db;
pub mod digest;
pub mod engine;
pub mod handler;
pub mod input;
pub mod model;
pub mod order;
pub mod ordmap;
pub mod protocol;
pub mod raft;
pub mod runtime;
pub mod server;
pub mod sorting;
pub mod stream;
pub mod text;
pub mod types;
pub mod wire;
