//! Deterministic relational execution over multi-version rows.
//!
//! A leader builds a canonical [`transaction::TxnAttempt`], consensus orders
//! its bytes, and every replica applies it at the committed log index. That
//! index becomes the timestamp of every version that the transaction makes
//! visible.

pub mod access;
pub mod answers;
pub mod apply;
pub mod canonical;
pub mod catalog;
pub mod error;
pub mod execution;
pub mod expression;
pub mod indexes;
pub mod laws;
pub mod mvcc;
pub mod outcome;
pub mod query;
pub mod records;
pub mod scans;
pub mod snapshot;
pub mod state;
pub mod transaction;
pub mod upkeep;
