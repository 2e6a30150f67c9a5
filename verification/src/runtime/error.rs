//! Errors of a running node.

use vstd::prelude::*;
use crate::db::error::{DatabaseError, DatabaseErrorKind};
use crate::raft::types::{RecoveryError, RecoveryErrorKind};
use crate::text::{decimal, decimal_text};
use crate::types::{NodeId, labelled};

verus! {

/// An error of a running node, with a text for people where a text helps.
#[derive(Debug, Clone, PartialEq, Eq)]
pub enum RuntimeError {
    Io(String),
    Corruption(String),
    Limit(String),
    Unsupported(String),
    Configuration(String),
    Database(DatabaseError),
    Recovery(RecoveryError),
    NotLeader { leader_hint: Option<NodeId> },
    ProposalBusy,
    CommandRejected(String),
    Timeout,
    Shutdown,
    Fenced(String),
}

/// What a [`RuntimeError`] says to a program.
pub enum RuntimeErrorKind {
    Io,
    Corruption,
    Limit,
    Unsupported,
    Configuration,
    Database(DatabaseErrorKind),
    Recovery(RecoveryErrorKind),
    NotLeader { leader_hint: Option<NodeId> },
    ProposalBusy,
    CommandRejected,
    Timeout,
    Shutdown,
    Fenced,
}

impl DeepView for RuntimeError {
    type V = RuntimeErrorKind;

    open spec fn deep_view(&self) -> RuntimeErrorKind {
        match self {
            RuntimeError::Io(_) => RuntimeErrorKind::Io,
            RuntimeError::Corruption(_) => RuntimeErrorKind::Corruption,
            RuntimeError::Limit(_) => RuntimeErrorKind::Limit,
            RuntimeError::Unsupported(_) => RuntimeErrorKind::Unsupported,
            RuntimeError::Configuration(_) => RuntimeErrorKind::Configuration,
            RuntimeError::Database(error) => RuntimeErrorKind::Database(error.deep_view()),
            RuntimeError::Recovery(error) => RuntimeErrorKind::Recovery(error.deep_view()),
            RuntimeError::NotLeader { leader_hint } => RuntimeErrorKind::NotLeader {
                leader_hint: *leader_hint,
            },
            RuntimeError::ProposalBusy => RuntimeErrorKind::ProposalBusy,
            RuntimeError::CommandRejected(_) => RuntimeErrorKind::CommandRejected,
            RuntimeError::Timeout => RuntimeErrorKind::Timeout,
            RuntimeError::Shutdown => RuntimeErrorKind::Shutdown,
            RuntimeError::Fenced(_) => RuntimeErrorKind::Fenced,
        }
    }
}

pub type Result<T> = std::result::Result<T, RuntimeError>;

pub(crate) fn corrupt(text: &str) -> (error: RuntimeError)
    ensures
        error.deep_view() == RuntimeErrorKind::Corruption,
{
    RuntimeError::Corruption(text.to_owned())
}

pub(crate) fn fenced(text: &str) -> (error: RuntimeError)
    ensures
        error.deep_view() == RuntimeErrorKind::Fenced,
{
    RuntimeError::Fenced(text.to_owned())
}

impl RuntimeError {
    /// The error as people read it.
    pub open spec fn shown(&self) -> Seq<char> {
        match self {
            RuntimeError::Io(text) => "runtime I/O failed: "@ + text@,
            RuntimeError::Corruption(text) => "runtime state is corrupt: "@ + text@,
            RuntimeError::Limit(text) => "runtime resource limit exceeded: "@ + text@,
            RuntimeError::Unsupported(text) => "unsupported runtime operation: "@ + text@,
            RuntimeError::Configuration(text) => "invalid runtime configuration: "@ + text@,
            RuntimeError::Database(error) => "database failed: "@ + error.shown(),
            RuntimeError::Recovery(error) => "Raft recovery failed: "@ + error.shown(),
            RuntimeError::NotLeader { leader_hint } => "node is not leader; leader hint: "@
                + match leader_hint {
                Some(leader) => "Some("@ + decimal(*leader as nat) + ")"@,
                None => "None"@,
            },
            RuntimeError::ProposalBusy => "another replicated proposal is awaiting commit"@,
            RuntimeError::CommandRejected(text) => "committed database command was rejected: "@
                + text@,
            RuntimeError::Timeout => "runtime request timed out"@,
            RuntimeError::Shutdown => "runtime has shut down"@,
            RuntimeError::Fenced(text) => "Raft fenced the node: "@ + text@,
        }
    }

    /// The error as people read it.
    pub fn describe(&self) -> (text: String)
        ensures
            text@ == self.shown(),
    {
        match self {
            RuntimeError::Io(text) => labelled("runtime I/O failed: ", text),
            RuntimeError::Corruption(text) => labelled("runtime state is corrupt: ", text),
            RuntimeError::Limit(text) => labelled("runtime resource limit exceeded: ", text),
            RuntimeError::Unsupported(text) => labelled("unsupported runtime operation: ", text),
            RuntimeError::Configuration(text) => labelled("invalid runtime configuration: ", text),
            RuntimeError::Database(error) => labelled("database failed: ", &error.describe()),
            RuntimeError::Recovery(error) => labelled("Raft recovery failed: ", &error.describe()),
            RuntimeError::NotLeader { leader_hint } => {
                let mut text = "node is not leader; leader hint: ".to_owned();
                match leader_hint {
                    Some(leader) => {
                        let mut hint = labelled("Some(", &decimal_text(*leader));
                        hint.append(")");
                        text.append(&hint);
                    },
                    None => {
                        text.append("None");
                    },
                }
                text
            },
            RuntimeError::ProposalBusy => {
                "another replicated proposal is awaiting commit".to_owned()
            },
            RuntimeError::CommandRejected(text) => labelled(
                "committed database command was rejected: ",
                text,
            ),
            RuntimeError::Timeout => "runtime request timed out".to_owned(),
            RuntimeError::Shutdown => "runtime has shut down".to_owned(),
            RuntimeError::Fenced(text) => labelled("Raft fenced the node: ", text),
        }
    }
}

} // verus!
