//! The decisions of a node that runs the database over a replicated log.

pub mod config;
pub mod control;
pub mod error;
pub mod frame;
pub mod stable;
pub mod waiters;
