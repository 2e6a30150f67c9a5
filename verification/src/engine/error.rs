//! Errors of the engine.

use vstd::prelude::*;
use crate::text::{decimal, decimal_text};
use crate::types::{Error, ErrorKind, labelled, violation};

verus! {

/// An error of the engine, with a text for people where a text helps.
#[derive(Debug, Clone, PartialEq, Eq)]
pub enum EngineError {
    Core(Error),
    UnknownTable(u64),
    UnknownIndex(u64),
    UnknownColumn { table: String, column: String },
    TransactionFinished(u64),
    SnapshotTooOld { requested: u64, floor: u64 },
    ApplyGap { expected: u64, actual: u64 },
    ApplyHashMismatch { index: u64 },
    CommandHashMismatch,
    InvalidAttempt(String),
    InvalidSnapshot(String),
    Expression(String),
}

/// What an [`EngineError`] says to a program.
pub enum EngineErrorKind {
    Core(ErrorKind),
    UnknownTable(u64),
    UnknownIndex(u64),
    UnknownColumn { table: Seq<char>, column: Seq<char> },
    TransactionFinished(u64),
    SnapshotTooOld { requested: u64, floor: u64 },
    ApplyGap { expected: u64, actual: u64 },
    ApplyHashMismatch { index: u64 },
    CommandHashMismatch,
    InvalidAttempt,
    InvalidSnapshot,
    Expression,
}

impl DeepView for EngineError {
    type V = EngineErrorKind;

    open spec fn deep_view(&self) -> EngineErrorKind {
        match self {
            EngineError::Core(error) => EngineErrorKind::Core(error.deep_view()),
            EngineError::UnknownTable(id) => EngineErrorKind::UnknownTable(*id),
            EngineError::UnknownIndex(id) => EngineErrorKind::UnknownIndex(*id),
            EngineError::UnknownColumn { table, column } => EngineErrorKind::UnknownColumn {
                table: table@,
                column: column@,
            },
            EngineError::TransactionFinished(id) => EngineErrorKind::TransactionFinished(*id),
            EngineError::SnapshotTooOld { requested, floor } => EngineErrorKind::SnapshotTooOld {
                requested: *requested,
                floor: *floor,
            },
            EngineError::ApplyGap { expected, actual } => EngineErrorKind::ApplyGap {
                expected: *expected,
                actual: *actual,
            },
            EngineError::ApplyHashMismatch { index } => EngineErrorKind::ApplyHashMismatch {
                index: *index,
            },
            EngineError::CommandHashMismatch => EngineErrorKind::CommandHashMismatch,
            EngineError::InvalidAttempt(_) => EngineErrorKind::InvalidAttempt,
            EngineError::InvalidSnapshot(_) => EngineErrorKind::InvalidSnapshot,
            EngineError::Expression(_) => EngineErrorKind::Expression,
        }
    }
}

pub type Result<T> = std::result::Result<T, EngineError>;

impl EngineError {
    /// The error as people read it.
    pub open spec fn shown(&self) -> Seq<char> {
        match self {
            EngineError::Core(error) => error.shown(),
            EngineError::UnknownTable(id) => "unknown table "@ + decimal(*id as nat),
            EngineError::UnknownIndex(id) => "unknown index "@ + decimal(*id as nat),
            EngineError::UnknownColumn { table, column } => "unknown column `"@ + column@
                + "` in table `"@ + table@ + "`"@,
            EngineError::TransactionFinished(id) => "transaction "@ + decimal(*id as nat)
                + " is already finished"@,
            EngineError::SnapshotTooOld { requested, floor } => "snapshot "@ + decimal(
                *requested as nat,
            ) + " is below the retained MVCC floor "@ + decimal(*floor as nat),
            EngineError::ApplyGap { expected, actual } => {
                "non-contiguous apply index: expected "@ + decimal(*expected as nat) + ", got "@
                    + decimal(*actual as nat)
            },
            EngineError::ApplyHashMismatch { index } => "replayed Raft index "@ + decimal(
                *index as nat,
            ) + " with a different command hash"@,
            EngineError::CommandHashMismatch => {
                "provided command hash does not match canonical transaction bytes"@
            },
            EngineError::InvalidAttempt(text) => "invalid transaction attempt: "@ + text@,
            EngineError::InvalidSnapshot(text) => "invalid snapshot: "@ + text@,
            EngineError::Expression(text) => "expression evaluation failed: "@ + text@,
        }
    }

    /// The error as people read it.
    pub fn describe(&self) -> (text: String)
        ensures
            text@ == self.shown(),
    {
        match self {
            EngineError::Core(error) => error.describe(),
            EngineError::UnknownTable(id) => labelled("unknown table ", decimal_text(*id).as_str()),
            EngineError::UnknownIndex(id) => labelled("unknown index ", decimal_text(*id).as_str()),
            EngineError::UnknownColumn { table, column } => {
                let mut text = labelled("unknown column `", column.as_str());
                text.append("` in table `");
                text.append(table.as_str());
                text.append("`");
                text
            },
            EngineError::TransactionFinished(id) => {
                let mut text = labelled("transaction ", decimal_text(*id).as_str());
                text.append(" is already finished");
                text
            },
            EngineError::SnapshotTooOld { requested, floor } => {
                let mut text = labelled("snapshot ", decimal_text(*requested).as_str());
                text.append(" is below the retained MVCC floor ");
                text.append(decimal_text(*floor).as_str());
                text
            },
            EngineError::ApplyGap { expected, actual } => {
                let mut text = labelled(
                    "non-contiguous apply index: expected ",
                    decimal_text(*expected).as_str(),
                );
                text.append(", got ");
                text.append(decimal_text(*actual).as_str());
                text
            },
            EngineError::ApplyHashMismatch { index } => {
                let mut text = labelled("replayed Raft index ", decimal_text(*index).as_str());
                text.append(" with a different command hash");
                text
            },
            EngineError::CommandHashMismatch => {
                "provided command hash does not match canonical transaction bytes".to_owned()
            },
            EngineError::InvalidAttempt(text) => labelled(
                "invalid transaction attempt: ",
                text.as_str(),
            ),
            EngineError::InvalidSnapshot(text) => labelled("invalid snapshot: ", text.as_str()),
            EngineError::Expression(text) => labelled(
                "expression evaluation failed: ",
                text.as_str(),
            ),
        }
    }
}

/// A constraint violation.
pub fn constraint(text: String) -> (error: EngineError)
    ensures
        error.deep_view() == EngineErrorKind::Core(ErrorKind::Constraint),
        error.shown() == violation(text@),
{
    EngineError::Core(Error::Constraint(text))
}

} // verus!
