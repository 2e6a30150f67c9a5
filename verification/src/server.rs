//! What a server answers to its clients.

use vstd::prelude::*;
use crate::db::error::{DatabaseError, DatabaseErrorKind, StorageFailure};
use crate::db::results::{ExecutionResult, ExecutionResultView, StatementKind};
use crate::db::sql::{SqlError, SqlErrorKind};
use crate::engine::error::{EngineError, EngineErrorKind};
use crate::model::Model;
use crate::protocol::{
    ClientOperation, ClientOperationView, ClientRequest, ClientResponse, DEFAULT_MAX_FRAME_BYTES,
    ErrorCode, NodeStatus, NodeStatusView, ProtocolError, ProtocolErrorView, QueryResult,
    QueryResultView, ReadConsistency, ResponseResult, ResponseResultView, SessionRequest,
    SessionRequestView, WireMessage,
};
use crate::raft::types::Role;
use crate::runtime::config::RuntimeStatus;
use crate::runtime::error::{RuntimeError, RuntimeErrorKind};
use crate::text::{decimal, decimal_text};
use crate::types::{Error, ErrorKind, Row, RowView, Value, ValueView};

verus! {

broadcast use crate::model::group_contents;

/// Limits of a server.
#[derive(Debug, Clone, Copy, PartialEq, Eq, Structural)]
pub struct ServerConfig {
    pub max_frame_bytes: usize,
    pub max_connections: usize,
    /// In milliseconds.
    pub request_timeout: u64,
}

impl Default for ServerConfig {
    fn default() -> (config: ServerConfig)
        ensures
            config == (ServerConfig {
                max_frame_bytes: DEFAULT_MAX_FRAME_BYTES,
                max_connections: 1_024,
                request_timeout: 30_000,
            }),
    {
        ServerConfig {
            max_frame_bytes: DEFAULT_MAX_FRAME_BYTES,
            max_connections: 1_024,
            request_timeout: 30_000,
        }
    }
}

/// What a server has counted.
#[derive(Debug, Clone, Copy, PartialEq, Eq, Structural)]
pub struct MetricsSnapshot {
    pub accepted_connections: u64,
    pub active_connections: u64,
    pub completed_requests: u64,
    pub rejected_connections: u64,
    pub protocol_errors: u64,
}

/// What a server counts. The counters wrap around.
#[derive(Debug, Clone, Copy, PartialEq, Eq, Structural)]
pub struct ServerMetrics {
    counts: MetricsSnapshot,
}

impl ServerMetrics {
    /// The counters.
    pub closed spec fn counted(self) -> MetricsSnapshot {
        self.counts
    }

    pub fn snapshot(&self) -> (snapshot: MetricsSnapshot)
        ensures
            snapshot == self.counted(),
    {
        self.counts
    }

    /// A connection was opened.
    pub fn opened(&mut self)
        ensures
            final(self).counted() == (MetricsSnapshot {
                accepted_connections: wrapped_up(old(self).counted().accepted_connections),
                active_connections: wrapped_up(old(self).counted().active_connections),
                ..old(self).counted()
            }),
    {
        self.counts.accepted_connections = self.counts.accepted_connections.wrapping_add(1);
        self.counts.active_connections = self.counts.active_connections.wrapping_add(1);
    }

    /// A connection was refused because there are too many.
    pub fn refused(&mut self)
        ensures
            final(self).counted() == (MetricsSnapshot {
                rejected_connections: wrapped_up(old(self).counted().rejected_connections),
                ..old(self).counted()
            }),
    {
        self.counts.rejected_connections = self.counts.rejected_connections.wrapping_add(1);
    }

    /// A request was answered.
    pub fn answered(&mut self)
        ensures
            final(self).counted() == (MetricsSnapshot {
                completed_requests: wrapped_up(old(self).counted().completed_requests),
                ..old(self).counted()
            }),
    {
        self.counts.completed_requests = self.counts.completed_requests.wrapping_add(1);
    }

    /// A connection was closed, because the client broke the protocol or not.
    pub fn closed(&mut self, broken: bool)
        ensures
            final(self).counted() == (MetricsSnapshot {
                protocol_errors: if broken {
                    wrapped_up(old(self).counted().protocol_errors)
                } else {
                    old(self).counted().protocol_errors
                },
                active_connections: wrapped_down(old(self).counted().active_connections),
                ..old(self).counted()
            }),
    {
        if broken {
            self.counts.protocol_errors = self.counts.protocol_errors.wrapping_add(1);
        }
        self.counts.active_connections = self.counts.active_connections.wrapping_sub(1);
    }
}

impl Default for ServerMetrics {
    fn default() -> (metrics: ServerMetrics)
        ensures
            metrics.counted() == (MetricsSnapshot {
                accepted_connections: 0,
                active_connections: 0,
                completed_requests: 0,
                rejected_connections: 0,
                protocol_errors: 0,
            }),
    {
        ServerMetrics {
            counts: MetricsSnapshot {
                accepted_connections: 0,
                active_connections: 0,
                completed_requests: 0,
                rejected_connections: 0,
                protocol_errors: 0,
            },
        }
    }
}

/// A counter after one more.
pub open spec fn wrapped_up(count: u64) -> u64 {
    if count == u64::MAX {
        0
    } else {
        (count + 1) as u64
    }
}

/// A counter after one less.
pub open spec fn wrapped_down(count: u64) -> u64 {
    if count == 0 {
        u64::MAX
    } else {
        (count - 1) as u64
    }
}

/// How an error is told to a client: its code, whether a retry may help, and who
/// leads.
pub struct Told {
    pub code: ErrorCode,
    pub retryable: bool,
    pub leader_hint: Option<Seq<char>>,
}

pub open spec fn told(code: ErrorCode, retryable: bool) -> Told {
    Told { code, retryable, leader_hint: None }
}

/// How an error of values and schemas is told.
pub open spec fn core_told(error: ErrorKind) -> Told {
    match error {
        ErrorKind::InvalidEncoding => told(ErrorCode::InvalidRequest, false),
        ErrorKind::Type => told(ErrorCode::InvalidRequest, false),
        ErrorKind::LimitExceeded => told(ErrorCode::ResourceExhausted, false),
        ErrorKind::Constraint => told(ErrorCode::Constraint, false),
        ErrorKind::Conflict => told(ErrorCode::Conflict, true),
        ErrorKind::Unsupported => told(ErrorCode::Unsupported, false),
        ErrorKind::NotLeader(hint) => Told {
            code: ErrorCode::NotLeader,
            retryable: true,
            leader_hint: hint,
        },
        ErrorKind::Corruption => told(ErrorCode::Corruption, false),
        ErrorKind::Io => told(ErrorCode::Internal, true),
        ErrorKind::Invariant => told(ErrorCode::Internal, false),
    }
}

/// How a failure of the storage is told.
pub open spec fn storage_told(failure: StorageFailure) -> Told {
    match failure {
        StorageFailure::InvalidPage => told(ErrorCode::Corruption, false),
        StorageFailure::ChecksumMismatch => told(ErrorCode::Corruption, false),
        StorageFailure::CorruptWal => told(ErrorCode::Corruption, false),
        StorageFailure::BufferPoolExhausted => told(ErrorCode::ResourceExhausted, true),
        StorageFailure::RecordTooLarge => told(ErrorCode::ResourceExhausted, true),
        StorageFailure::KeyTooLarge => told(ErrorCode::ResourceExhausted, true),
        StorageFailure::Io => told(ErrorCode::Internal, true),
        StorageFailure::PagePinned => told(ErrorCode::Internal, false),
        StorageFailure::NotFound => told(ErrorCode::Internal, false),
        StorageFailure::Invariant => told(ErrorCode::Internal, false),
        StorageFailure::InjectedFault => told(ErrorCode::Internal, false),
    }
}

/// How an error of the database is told.
pub open spec fn database_told(error: DatabaseErrorKind) -> Told {
    match error {
        DatabaseErrorKind::Sql(sql) => match sql.kind {
            SqlErrorKind::Constraint => told(ErrorCode::Constraint, false),
            SqlErrorKind::Unsupported => told(ErrorCode::Unsupported, false),
            _ => told(ErrorCode::InvalidRequest, false),
        },
        DatabaseErrorKind::Engine(engine) => match engine {
            EngineErrorKind::Core(core) => core_told(core),
            EngineErrorKind::SnapshotTooOld { .. } => told(ErrorCode::Conflict, true),
            EngineErrorKind::ApplyGap { .. } => told(ErrorCode::Corruption, false),
            EngineErrorKind::ApplyHashMismatch { .. } => told(ErrorCode::Corruption, false),
            EngineErrorKind::CommandHashMismatch => told(ErrorCode::Corruption, false),
            EngineErrorKind::InvalidSnapshot => told(ErrorCode::Corruption, false),
            _ => told(ErrorCode::InvalidRequest, false),
        },
        DatabaseErrorKind::Corruption => told(ErrorCode::Corruption, false),
        DatabaseErrorKind::Storage(failure) => storage_told(failure),
        DatabaseErrorKind::Io => told(ErrorCode::Internal, true),
        DatabaseErrorKind::TransactionNotFound(_) => told(ErrorCode::InvalidRequest, false),
        DatabaseErrorKind::TransactionControl => told(ErrorCode::InvalidRequest, false),
        DatabaseErrorKind::TransactionAborted(_) => told(ErrorCode::Conflict, true),
        DatabaseErrorKind::RequestRejected(_) => told(ErrorCode::Conflict, false),
        DatabaseErrorKind::ResourceLimit => told(ErrorCode::ResourceExhausted, false),
        DatabaseErrorKind::Invariant => told(ErrorCode::Internal, false),
    }
}

/// How an error of a running node is told.
pub open spec fn runtime_told(error: RuntimeErrorKind) -> Told {
    match error {
        RuntimeErrorKind::Database(database) => database_told(database),
        RuntimeErrorKind::NotLeader { leader_hint } => Told {
            code: ErrorCode::NotLeader,
            retryable: true,
            leader_hint: match leader_hint {
                Some(leader) => Some(decimal(leader as nat)),
                None => None,
            },
        },
        RuntimeErrorKind::ProposalBusy => told(ErrorCode::Conflict, true),
        RuntimeErrorKind::Timeout => told(ErrorCode::Timeout, true),
        RuntimeErrorKind::Limit => told(ErrorCode::ResourceExhausted, true),
        RuntimeErrorKind::Unsupported => told(ErrorCode::Unsupported, false),
        RuntimeErrorKind::Configuration => told(ErrorCode::InvalidRequest, false),
        RuntimeErrorKind::Corruption => told(ErrorCode::Corruption, false),
        RuntimeErrorKind::Recovery(_) => told(ErrorCode::Corruption, false),
        RuntimeErrorKind::CommandRejected => told(ErrorCode::Conflict, false),
        RuntimeErrorKind::Io => told(ErrorCode::Internal, true),
        RuntimeErrorKind::Shutdown => told(ErrorCode::Internal, true),
        RuntimeErrorKind::Fenced => told(ErrorCode::Internal, false),
    }
}

/// An error with its text as a client is told it.
pub open spec fn as_told(how: Told, message: Seq<char>) -> ProtocolErrorView {
    ProtocolErrorView {
        code: how.code,
        message,
        leader_hint: how.leader_hint,
        retryable: how.retryable,
    }
}

fn plain_error(code: ErrorCode, message: &str) -> (error: ProtocolError)
    ensures
        error.deep_view() == as_told(told(code, false), message@),
{
    ProtocolError { code, message: message.to_owned(), leader_hint: None, retryable: false }
}

/// How an error of values and schemas is told.
pub fn map_core_error(error: &Error) -> (how: (ErrorCode, bool, Option<String>))
    ensures
        (Told { code: how.0, retryable: how.1, leader_hint: how.2.deep_view() }) == core_told(
            error.deep_view(),
        ),
{
    match error {
        Error::InvalidEncoding(_) => (ErrorCode::InvalidRequest, false, None),
        Error::Type(_) => (ErrorCode::InvalidRequest, false, None),
        Error::LimitExceeded(_) => (ErrorCode::ResourceExhausted, false, None),
        Error::Constraint(_) => (ErrorCode::Constraint, false, None),
        Error::Conflict(_) => (ErrorCode::Conflict, true, None),
        Error::Unsupported(_) => (ErrorCode::Unsupported, false, None),
        Error::NotLeader(hint) => (ErrorCode::NotLeader, true, hint.duplicate()),
        Error::Corruption(_) => (ErrorCode::Corruption, false, None),
        Error::Io(_) => (ErrorCode::Internal, true, None),
        Error::Invariant(_) => (ErrorCode::Internal, false, None),
    }
}

/// How a failure of the storage is told.
pub fn map_storage_error(failure: StorageFailure) -> (how: (ErrorCode, bool, Option<String>))
    ensures
        (Told { code: how.0, retryable: how.1, leader_hint: how.2.deep_view() }) == storage_told(
            failure,
        ),
{
    match failure {
        StorageFailure::InvalidPage => (ErrorCode::Corruption, false, None),
        StorageFailure::ChecksumMismatch => (ErrorCode::Corruption, false, None),
        StorageFailure::CorruptWal => (ErrorCode::Corruption, false, None),
        StorageFailure::BufferPoolExhausted => (ErrorCode::ResourceExhausted, true, None),
        StorageFailure::RecordTooLarge => (ErrorCode::ResourceExhausted, true, None),
        StorageFailure::KeyTooLarge => (ErrorCode::ResourceExhausted, true, None),
        StorageFailure::Io => (ErrorCode::Internal, true, None),
        StorageFailure::PagePinned => (ErrorCode::Internal, false, None),
        StorageFailure::NotFound => (ErrorCode::Internal, false, None),
        StorageFailure::Invariant => (ErrorCode::Internal, false, None),
        StorageFailure::InjectedFault => (ErrorCode::Internal, false, None),
    }
}

/// An error of the database as a client is told it.
pub fn map_database_error(error: &DatabaseError) -> (mapped: ProtocolError)
    ensures
        mapped.deep_view() == as_told(database_told(error.deep_view()), error.shown()),
{
    let message = error.describe();
    let (code, retryable, leader_hint) = match error {
        DatabaseError::Sql(sql) => match sql.kind {
            SqlErrorKind::Constraint => (ErrorCode::Constraint, false, None),
            SqlErrorKind::Unsupported => (ErrorCode::Unsupported, false, None),
            _ => (ErrorCode::InvalidRequest, false, None),
        },
        DatabaseError::Engine(engine) => match engine {
            EngineError::Core(core) => map_core_error(core),
            EngineError::SnapshotTooOld { .. } => (ErrorCode::Conflict, true, None),
            EngineError::ApplyGap { .. } => (ErrorCode::Corruption, false, None),
            EngineError::ApplyHashMismatch { .. } => (ErrorCode::Corruption, false, None),
            EngineError::CommandHashMismatch => (ErrorCode::Corruption, false, None),
            EngineError::InvalidSnapshot(_) => (ErrorCode::Corruption, false, None),
            _ => (ErrorCode::InvalidRequest, false, None),
        },
        DatabaseError::Corruption(_) => (ErrorCode::Corruption, false, None),
        DatabaseError::Storage { failure, .. } => map_storage_error(*failure),
        DatabaseError::Io(_) => (ErrorCode::Internal, true, None),
        DatabaseError::TransactionNotFound(_) => (ErrorCode::InvalidRequest, false, None),
        DatabaseError::TransactionControl(_) => (ErrorCode::InvalidRequest, false, None),
        DatabaseError::TransactionAborted(_) => (ErrorCode::Conflict, true, None),
        DatabaseError::RequestRejected(_) => (ErrorCode::Conflict, false, None),
        DatabaseError::ResourceLimit(_) => (ErrorCode::ResourceExhausted, false, None),
        DatabaseError::Invariant(_) => (ErrorCode::Internal, false, None),
    };
    ProtocolError { code, message, leader_hint, retryable }
}

/// The text of an error of a running node as a client is told it.
pub open spec fn runtime_text(error: RuntimeError) -> Seq<char> {
    match error {
        RuntimeError::Database(database) => database.shown(),
        other => other.shown(),
    }
}

/// An error of a running node as a client is told it.
pub fn map_runtime_error(error: &RuntimeError) -> (mapped: ProtocolError)
    ensures
        mapped.deep_view() == as_told(runtime_told(error.deep_view()), runtime_text(*error)),
{
    let (code, retryable, leader_hint) = match error {
        RuntimeError::Database(database) => return map_database_error(database),
        RuntimeError::NotLeader { leader_hint } => (
            ErrorCode::NotLeader,
            true,
            match leader_hint {
                Some(leader) => Some(decimal_text(*leader)),
                None => None,
            },
        ),
        RuntimeError::ProposalBusy => (ErrorCode::Conflict, true, None),
        RuntimeError::Timeout => (ErrorCode::Timeout, true, None),
        RuntimeError::Limit(_) => (ErrorCode::ResourceExhausted, true, None),
        RuntimeError::Unsupported(_) => (ErrorCode::Unsupported, false, None),
        RuntimeError::Configuration(_) => (ErrorCode::InvalidRequest, false, None),
        RuntimeError::Corruption(_) => (ErrorCode::Corruption, false, None),
        RuntimeError::Recovery(_) => (ErrorCode::Corruption, false, None),
        RuntimeError::CommandRejected(_) => (ErrorCode::Conflict, false, None),
        RuntimeError::Io(_) => (ErrorCode::Internal, true, None),
        RuntimeError::Shutdown => (ErrorCode::Internal, true, None),
        RuntimeError::Fenced(_) => (ErrorCode::Internal, false, None),
    };
    ProtocolError { code, message: error.describe(), leader_hint, retryable }
}

/// The values of rows.
pub open spec fn row_values(rows: Seq<RowView>) -> Seq<Seq<ValueView>> {
    Seq::new(rows.len(), |i: int| rows[i].values)
}

pub(crate) fn values_of(rows: Vec<Row>) -> (values: Vec<Vec<Value>>)
    ensures
        values.deep_view() == row_values(rows.deep_view()),
{
    let ghost view = rows.deep_view();
    let mut values: Vec<Vec<Value>> = Vec::with_capacity(rows.len());
    let mut i: usize = 0;
    while i < rows.len()
        invariant
            i <= rows@.len(),
            view == rows.deep_view(),
            values@.len() == i,
            forall|j: int| 0 <= j < i ==> (#[trigger] values@[j]).deep_view() == view[j].values,
        decreases rows@.len() - i,
    {
        values.push(rows[i].values.duplicate());
        i = i + 1;
    }
    assert(values.deep_view() =~= row_values(view));
    values
}

/// The answer of a statement as a client is told it.
pub open spec fn execution_told(execution: ExecutionResultView) -> ResponseResultView {
    match execution {
        ExecutionResultView::Query(query) => ResponseResultView::Query(
            QueryResultView {
                columns: query.columns,
                rows: row_values(query.rows),
                affected_rows: query.affected_rows,
                applied_index: query.applied_index,
                has_more: false,
            },
        ),
        ExecutionResultView::Transaction(info) => ResponseResultView::Transaction {
            transaction_id: info.transaction_id,
            read_ts: info.read_ts,
        },
        ExecutionResultView::Committed(info) => ResponseResultView::Committed {
            commit_index: info.commit_index,
        },
        ExecutionResultView::RolledBack => ResponseResultView::RolledBack,
        ExecutionResultView::Explain { plan, applied_index } => ResponseResultView::Query(
            QueryResultView {
                columns: seq!["plan"@],
                rows: seq![seq![ValueView::Text(plan)]],
                affected_rows: 0,
                applied_index,
                has_more: false,
            },
        ),
    }
}

pub(crate) fn tell_execution(execution: ExecutionResult) -> (result: ResponseResult)
    ensures
        result.deep_view() == execution_told(execution.deep_view()),
{
    match execution {
        ExecutionResult::Query(query) => ResponseResult::Query(
            QueryResult {
                columns: query.columns,
                rows: values_of(query.rows),
                affected_rows: query.affected_rows,
                applied_index: query.applied_index,
                has_more: false,
            },
        ),
        ExecutionResult::Transaction(info) => ResponseResult::Transaction {
            transaction_id: info.transaction_id,
            read_ts: info.read_ts,
        },
        ExecutionResult::Committed(info) => ResponseResult::Committed {
            commit_index: info.commit_index,
        },
        ExecutionResult::RolledBack => ResponseResult::RolledBack,
        ExecutionResult::Explain { plan, applied_index } => {
            let mut columns: Vec<String> = Vec::new();
            columns.push("plan".to_owned());
            assert(columns.deep_view() =~= seq!["plan"@]);
            let mut row: Vec<Value> = Vec::new();
            let ghost text = plan@;
            row.push(Value::Text(plan));
            assert(row.deep_view() =~= seq![ValueView::Text(text)]);
            let mut rows: Vec<Vec<Value>> = Vec::new();
            rows.push(row);
            assert(rows.deep_view() =~= seq![seq![ValueView::Text(text)]]);
            ResponseResult::Query(
                QueryResult { columns, rows, affected_rows: 0, applied_index, has_more: false },
            )
        },
    }
}

/// The answer of a statement in replicated mode, where no transaction can have
/// been started or ended.
pub open spec fn replicated_told(execution: ExecutionResultView, result: ResponseResultView) -> bool {
    if execution is Transaction || execution is RolledBack {
        result == ResponseResultView::Error(
            as_told(
                told(ErrorCode::Internal, false),
                "replicated runtime returned an impossible transaction result"@,
            ),
        )
    } else {
        result == execution_told(execution)
    }
}

/// The answer of a statement in replicated mode, which knows no transactions of
/// several requests.
pub fn map_replicated_execution(execution: ExecutionResult) -> (result: ResponseResult)
    ensures
        replicated_told(execution.deep_view(), result.deep_view()),
{
    match execution {
        ExecutionResult::Transaction(_) => ResponseResult::Error(
            plain_error(
                ErrorCode::Internal,
                "replicated runtime returned an impossible transaction result",
            ),
        ),
        ExecutionResult::RolledBack => ResponseResult::Error(
            plain_error(
                ErrorCode::Internal,
                "replicated runtime returned an impossible transaction result",
            ),
        ),
        other => tell_execution(other),
    }
}

/// Why a session is not one of replicated mode, in words.
pub open spec fn session_refusal(session: Option<SessionRequestView>) -> Seq<char> {
    if session is None {
        "replicated SQL requires a client session"@
    } else {
        "replicated autocommit sessions require a positive sequence and no transaction id"@
    }
}

/// The session of a request in replicated mode: it has a positive sequence
/// number and names no transaction.
pub fn validate_replicated_session(session: Option<SessionRequest>) -> (result: std::result::Result<
    SessionRequest,
    ProtocolError,
>)
    ensures
        match result {
            Ok(valid) => replicated_session(session.deep_view()) && session.deep_view() == Some(
                valid.deep_view(),
            ),
            Err(error) => !replicated_session(session.deep_view()) && error.deep_view() == as_told(
                told(ErrorCode::InvalidRequest, false),
                session_refusal(session.deep_view()),
            ),
        },
{
    match session {
        None => Err(
            plain_error(
                ErrorCode::InvalidRequest,
                "replicated SQL requires a client session",
            ),
        ),
        Some(session) => {
            if session.sequence == 0 || session.transaction_id.is_some() {
                return Err(
                    plain_error(
                        ErrorCode::InvalidRequest,
                        "replicated autocommit sessions require a positive sequence and no transaction id",
                    ),
                );
            }
            Ok(session)
        },
    }
}

/// What is left to do for a request in replicated mode.
#[derive(Debug)]
pub enum ReplicatedTask {
    /// Answer it.
    Answer(ResponseResult),
    /// Tell how the node is doing.
    Status,
    /// Read what kind of statement it is.
    Parse {
        session: SessionRequest,
        sql: String,
        parameters: Vec<Value>,
        consistency: ReadConsistency,
    },
    /// Put a change through the log.
    Propose { session: SessionRequest, sql: String, parameters: Vec<Value> },
    /// Read through the leader.
    Query { session: SessionRequest, sql: String, parameters: Vec<Value> },
}

impl ReplicatedTask {
    /// The request is refused for a reason, and a retry does not help.
    pub open spec fn refuses(self, code: ErrorCode, message: Seq<char>) -> bool {
        self matches ReplicatedTask::Answer(ResponseResult::Error(error)) && error.deep_view()
            == as_told(told(code, false), message)
    }
}

/// A session is one of replicated mode.
pub open spec fn replicated_session(session: Option<SessionRequestView>) -> bool {
    session matches Some(given) && given.sequence > 0 && given.transaction_id is None
}

/// Starts on a request in replicated mode. Transactions of several requests are
/// not supported.
pub fn admit_replicated(request: ClientRequest) -> (task: ReplicatedTask)
    ensures
        match request.deep_view().operation {
            ClientOperationView::Ping => task == ReplicatedTask::Answer(ResponseResult::Pong),
            ClientOperationView::Status => task == ReplicatedTask::Status,
            ClientOperationView::Begin => task.refuses(
                ErrorCode::Unsupported,
                "replicated mode currently supports autocommit SQL only"@,
            ),
            ClientOperationView::Commit => task.refuses(
                ErrorCode::Unsupported,
                "replicated mode currently supports autocommit SQL only"@,
            ),
            ClientOperationView::Rollback => task.refuses(
                ErrorCode::Unsupported,
                "replicated mode currently supports autocommit SQL only"@,
            ),
            ClientOperationView::Execute { sql, parameters, consistency } => if replicated_session(
                request.deep_view().session,
            ) {
                task matches ReplicatedTask::Parse {
                    session: admitted,
                    sql: text,
                    parameters: values,
                    consistency: wanted,
                } && request.deep_view().session == Some(admitted.deep_view()) && text@ == sql
                    && values.deep_view() == parameters && wanted == consistency
            } else {
                task.refuses(
                    ErrorCode::InvalidRequest,
                    session_refusal(request.deep_view().session),
                )
            },
        },
{
    match request.operation {
        ClientOperation::Ping => ReplicatedTask::Answer(ResponseResult::Pong),
        ClientOperation::Status => ReplicatedTask::Status,
        ClientOperation::Execute { sql, parameters, consistency } => {
            match validate_replicated_session(request.session) {
                Ok(session) => ReplicatedTask::Parse { session, sql, parameters, consistency },
                Err(error) => ReplicatedTask::Answer(ResponseResult::Error(error)),
            }
        },
        _ => ReplicatedTask::Answer(
            ResponseResult::Error(
                plain_error(
                    ErrorCode::Unsupported,
                    "replicated mode currently supports autocommit SQL only",
                ),
            ),
        ),
    }
}

/// Goes on with a statement that has been read: changes go through the log,
/// fresh reads through the leader, and nothing else is done.
pub fn route_replicated(
    session: SessionRequest,
    sql: String,
    parameters: Vec<Value>,
    consistency: ReadConsistency,
    parsed: std::result::Result<StatementKind, SqlError>,
) -> (task: ReplicatedTask)
    ensures
        match parsed {
            Err(error) => task matches ReplicatedTask::Answer(ResponseResult::Error(told))
                && told.deep_view() == as_told(
                database_told(DatabaseErrorKind::Sql(error.deep_view())),
                error.message@,
            ),
            Ok(kind) => if kind.mutating() {
                task == (ReplicatedTask::Propose { session, sql, parameters })
            } else if (kind == StatementKind::Select || kind == StatementKind::Explain)
                && consistency == ReadConsistency::Linearizable {
                task == (ReplicatedTask::Query { session, sql, parameters })
            } else if kind == StatementKind::Select || kind == StatementKind::Explain {
                task.refuses(
                    ErrorCode::Unsupported,
                    "stale follower reads are not enabled in replicated mode"@,
                )
            } else {
                task.refuses(
                    ErrorCode::Unsupported,
                    "replicated mode currently supports autocommit SQL only"@,
                )
            },
        },
{
    let kind = match parsed {
        Ok(kind) => kind,
        Err(error) => {
            return ReplicatedTask::Answer(
                ResponseResult::Error(map_database_error(&DatabaseError::Sql(error))),
            );
        },
    };
    if kind.is_mutating_statement() {
        return ReplicatedTask::Propose { session, sql, parameters };
    }
    if kind.is_read() {
        if consistency == ReadConsistency::Stale {
            return ReplicatedTask::Answer(
                ResponseResult::Error(
                    plain_error(
                        ErrorCode::Unsupported,
                        "stale follower reads are not enabled in replicated mode",
                    ),
                ),
            );
        }
        return ReplicatedTask::Query { session, sql, parameters };
    }
    ReplicatedTask::Answer(
        ResponseResult::Error(
            plain_error(
                ErrorCode::Unsupported,
                "replicated mode currently supports autocommit SQL only",
            ),
        ),
    )
}

/// The answer to a statement that the runtime has answered.
pub fn finish_replicated(result: std::result::Result<ExecutionResult, RuntimeError>) -> (response:
    ResponseResult)
    ensures
        match result {
            Ok(execution) => replicated_told(execution.deep_view(), response.deep_view()),
            Err(error) => response.deep_view() == ResponseResultView::Error(
                as_told(runtime_told(error.deep_view()), runtime_text(error)),
            ),
        },
{
    match result {
        Ok(execution) => map_replicated_execution(execution),
        Err(error) => ResponseResult::Error(map_runtime_error(&error)),
    }
}

/// The answer to a question how the node is doing.
pub fn finish_status(result: std::result::Result<RuntimeStatus, RuntimeError>) -> (response:
    ResponseResult)
    ensures
        match result {
            Ok(status) => response.deep_view() == ResponseResultView::Status(status_told(status)),
            Err(error) => response.deep_view() == ResponseResultView::Error(
                as_told(runtime_told(error.deep_view()), runtime_text(error)),
            ),
        },
{
    match result {
        Ok(status) => ResponseResult::Status(replicated_status(&status)),
        Err(error) => ResponseResult::Error(map_runtime_error(&error)),
    }
}

/// The name of a role.
pub open spec fn role_name_of(role: Role) -> Seq<char> {
    match role {
        Role::Follower => "follower"@,
        Role::PreCandidate => "precandidate"@,
        Role::Candidate => "candidate"@,
        Role::Leader => "leader"@,
    }
}

/// The name of a role.
pub fn role_name(role: Role) -> (name: &'static str)
    ensures
        name@ == role_name_of(role),
{
    match role {
        Role::Follower => "follower",
        Role::PreCandidate => "precandidate",
        Role::Candidate => "candidate",
        Role::Leader => "leader",
    }
}

/// What a node in replicated mode tells of itself.
pub open spec fn status_told(status: RuntimeStatus) -> NodeStatusView {
    NodeStatusView {
        node_id: status.node_id,
        role: role_name_of(status.role),
        term: status.term,
        leader_id: status.leader_id,
        commit_index: status.commit_index,
        applied_index: status.applied_index,
        last_log_index: status.last_log_index,
        snapshot_index: 0,
        database_pages: status.database_pages,
        wal_durable_lsn: status.wal_bytes,
        active_transactions: status.active_transactions,
    }
}

/// What a node in replicated mode tells of itself.
fn replicated_status(status: &RuntimeStatus) -> (told: NodeStatus)
    ensures
        told.deep_view() == status_told(*status),
{
    NodeStatus {
        node_id: status.node_id,
        role: role_name(status.role).to_owned(),
        term: status.term,
        leader_id: status.leader_id,
        commit_index: status.commit_index,
        applied_index: status.applied_index,
        last_log_index: status.last_log_index,
        snapshot_index: 0,
        database_pages: status.database_pages,
        wal_durable_lsn: status.wal_bytes,
        active_transactions: status.active_transactions,
    }
}

/// The handler of a server without a database.
#[derive(Debug, Clone)]
pub struct DiagnosticHandler {
    pub status: NodeStatus,
}

impl DiagnosticHandler {
    pub fn new(status: NodeStatus) -> (handler: DiagnosticHandler)
        ensures
            handler.status == status,
    {
        DiagnosticHandler { status }
    }

    /// Answers a request: only the status and a ping are supported.
    pub fn handle(&self, request: &ClientRequest) -> (response: ClientResponse)
        ensures
            response.request_id == request.request_id,
            match request.operation {
                ClientOperation::Ping => response.deep_view().result == ResponseResultView::Pong,
                ClientOperation::Status => response.deep_view().result
                    == ResponseResultView::Status(self.status.deep_view()),
                _ => response.deep_view().result == ResponseResultView::Error(
                    as_told(
                        told(ErrorCode::Unsupported, false),
                        "no database engine is configured"@,
                    ),
                ),
            },
    {
        let result = match &request.operation {
            ClientOperation::Ping => ResponseResult::Pong,
            ClientOperation::Status => ResponseResult::Status(self.status.duplicate()),
            _ => ResponseResult::Error(
                plain_error(ErrorCode::Unsupported, "no database engine is configured"),
            ),
        };
        ClientResponse { request_id: request.request_id, result }
    }
}

/// The answer to a request that took too long.
fn timeout_response(request_id: u64) -> (response: ClientResponse)
    ensures
        response.request_id == request_id,
        response.deep_view().result == ResponseResultView::Error(
            as_told(told(ErrorCode::Timeout, true), "request execution timed out"@),
        ),
{
    ClientResponse {
        request_id,
        result: ResponseResult::Error(
            ProtocolError {
                code: ErrorCode::Timeout,
                message: "request execution timed out".to_owned(),
                leader_hint: None,
                retryable: true,
            },
        ),
    }
}

/// What came in on a connection of a client.
#[derive(Debug, PartialEq, Eq)]
pub enum Incoming {
    Closed,
    Request(ClientRequest),
    /// A message that no client sends.
    Foreign,
}

/// What came in on a connection of a client.
pub fn incoming(received: Option<WireMessage>) -> (what: Incoming)
    ensures
        what == match received {
            None => Incoming::Closed,
            Some(WireMessage::Request(request)) => Incoming::Request(request),
            Some(_) => Incoming::Foreign,
        },
{
    match received {
        None => Incoming::Closed,
        Some(WireMessage::Request(request)) => Incoming::Request(request),
        Some(_) => Incoming::Foreign,
    }
}

/// The answer to a request, which carries its id; none in time is an answer too.
pub fn answer_to(request_id: u64, handled: Option<ClientResponse>) -> (response: ClientResponse)
    ensures
        response.request_id == request_id,
        match handled {
            Some(answer) => response.result == answer.result,
            None => response.deep_view().result == ResponseResultView::Error(
                as_told(told(ErrorCode::Timeout, true), "request execution timed out"@),
            ),
        },
{
    match handled {
        Some(answer) => ClientResponse { request_id, result: answer.result },
        None => timeout_response(request_id),
    }
}

} // verus!
