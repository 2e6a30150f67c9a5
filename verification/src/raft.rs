//! A deterministic consensus core.

pub mod adapter;
pub mod agreement;
pub mod cluster;
pub mod cluster_checks;
pub mod cluster_steps;
pub mod commits;
pub mod configuration;
pub mod disk;
pub mod elections;
pub mod laws;
pub mod log;
pub mod machine;
pub mod matching;
pub mod node;
pub mod progress;
pub mod replies;
pub mod runs;
pub mod safety;
pub mod sending;
pub mod simulator;
pub mod state;
pub mod steps;
pub mod transfer;
pub mod types;
pub mod violations;
