//! Errors of the database.

use vstd::prelude::*;
use crate::db::sql::{SqlError, SqlErrorView};
use crate::engine::error::{EngineError, EngineErrorKind};
use crate::engine::outcome::{AbortReason, AbortReasonView, RequestRejection};
use crate::text::{decimal, decimal_text};
use crate::types::labelled;

verus! {

/// What failed in the storage.
#[derive(Debug, Clone, Copy, PartialEq, Eq, Structural)]
pub enum StorageFailure {
    InvalidPage,
    ChecksumMismatch,
    CorruptWal,
    BufferPoolExhausted,
    RecordTooLarge,
    KeyTooLarge,
    Io,
    PagePinned,
    NotFound,
    Invariant,
    InjectedFault,
}

/// An error of the database, with a text for people where a text helps.
#[derive(Debug, Clone, PartialEq, Eq)]
pub enum DatabaseError {
    Sql(SqlError),
    Engine(EngineError),
    Storage { failure: StorageFailure, text: String },
    Io(String),
    TransactionNotFound(u64),
    TransactionControl(String),
    TransactionAborted(AbortReason),
    RequestRejected(RequestRejection),
    ResourceLimit(String),
    Corruption(String),
    Invariant(String),
}

/// What a [`DatabaseError`] says to a program.
pub enum DatabaseErrorKind {
    Sql(SqlErrorView),
    Engine(EngineErrorKind),
    Storage(StorageFailure),
    Io,
    TransactionNotFound(u64),
    TransactionControl,
    TransactionAborted(AbortReasonView),
    RequestRejected(RequestRejection),
    ResourceLimit,
    Corruption,
    Invariant,
}

/// An error says what is wrong with stored bytes.
pub open spec fn corrupts(error: DatabaseError, text: Seq<char>) -> bool {
    error matches DatabaseError::Corruption(words) && words@ == text
}

/// An error says which limit is exceeded.
pub open spec fn limits(error: DatabaseError, text: Seq<char>) -> bool {
    error matches DatabaseError::ResourceLimit(words) && words@ == text
}

impl DeepView for DatabaseError {
    type V = DatabaseErrorKind;

    open spec fn deep_view(&self) -> DatabaseErrorKind {
        match self {
            DatabaseError::Sql(error) => DatabaseErrorKind::Sql(error.deep_view()),
            DatabaseError::Engine(error) => DatabaseErrorKind::Engine(error.deep_view()),
            DatabaseError::Storage { failure, .. } => DatabaseErrorKind::Storage(*failure),
            DatabaseError::Io(_) => DatabaseErrorKind::Io,
            DatabaseError::TransactionNotFound(id) => DatabaseErrorKind::TransactionNotFound(*id),
            DatabaseError::TransactionControl(_) => DatabaseErrorKind::TransactionControl,
            DatabaseError::TransactionAborted(reason) => DatabaseErrorKind::TransactionAborted(
                reason.deep_view(),
            ),
            DatabaseError::RequestRejected(rejection) => DatabaseErrorKind::RequestRejected(
                *rejection,
            ),
            DatabaseError::ResourceLimit(_) => DatabaseErrorKind::ResourceLimit,
            DatabaseError::Corruption(_) => DatabaseErrorKind::Corruption,
            DatabaseError::Invariant(_) => DatabaseErrorKind::Invariant,
        }
    }
}

pub type Result<T> = std::result::Result<T, DatabaseError>;

impl DatabaseError {
    /// The error as people read it.
    pub open spec fn shown(&self) -> Seq<char> {
        match self {
            DatabaseError::Sql(error) => error.message@,
            DatabaseError::Engine(error) => error.shown(),
            DatabaseError::Storage { text, .. } => text@,
            DatabaseError::Io(text) => "database I/O error: "@ + text@,
            DatabaseError::TransactionNotFound(id) => "transaction "@ + decimal(*id as nat)
                + " does not exist"@,
            DatabaseError::TransactionControl(text) => "invalid transaction control: "@ + text@,
            DatabaseError::TransactionAborted(reason) => "transaction aborted: "@
                + reason.deep_view().spelled(),
            DatabaseError::RequestRejected(rejection) => "client request rejected: "@
                + rejection.spelled(),
            DatabaseError::ResourceLimit(text) => "resource limit exceeded: "@ + text@,
            DatabaseError::Corruption(text) => "database corruption detected: "@ + text@,
            DatabaseError::Invariant(text) => "internal database invariant failed: "@ + text@,
        }
    }

    /// The error as people read it.
    pub fn describe(&self) -> (text: String)
        ensures
            text@ == self.shown(),
    {
        match self {
            DatabaseError::Sql(error) => error.message.clone(),
            DatabaseError::Engine(error) => error.describe(),
            DatabaseError::Storage { text, .. } => text.clone(),
            DatabaseError::Io(text) => labelled("database I/O error: ", text),
            DatabaseError::TransactionNotFound(id) => {
                let mut text = labelled("transaction ", &decimal_text(*id));
                text.append(" does not exist");
                text
            },
            DatabaseError::TransactionControl(text) => labelled(
                "invalid transaction control: ",
                text,
            ),
            DatabaseError::TransactionAborted(reason) => labelled(
                "transaction aborted: ",
                &reason.describe(),
            ),
            DatabaseError::RequestRejected(rejection) => labelled(
                "client request rejected: ",
                &rejection.describe(),
            ),
            DatabaseError::ResourceLimit(text) => labelled("resource limit exceeded: ", text),
            DatabaseError::Corruption(text) => labelled("database corruption detected: ", text),
            DatabaseError::Invariant(text) => labelled(
                "internal database invariant failed: ",
                text,
            ),
        }
    }
}

} // verus!
