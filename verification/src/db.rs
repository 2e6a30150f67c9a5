//! Statements, their execution, and the database around the engine.

pub mod aggregate;
pub mod catalog;
pub mod changes;
pub mod database;
pub mod error;
pub mod evaluation;
pub mod executor;
pub mod fingerprint;
pub mod groups;
pub mod join;
pub mod laws;
pub mod ordering;
pub mod pages;
pub mod pairs;
pub mod persistence;
pub mod requests;
pub mod results;
pub mod rows;
pub mod scalar;
pub mod selecting;
pub mod sql;
pub mod staged;
pub mod tree;
