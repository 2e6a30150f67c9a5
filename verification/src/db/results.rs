//! What the database answers, and the statements that it takes.

use vstd::prelude::*;
use crate::db::error::{DatabaseError, DatabaseErrorKind, Result};
use crate::db::executor::{StatementOutput, StatementOutputView};
use crate::db::requests::{DurableRequestRecord, DurableRequestRecordView};
use crate::db::sql::{BoundStatement, BoundStatementView, PhysicalPlan, PhysicalPlanView};
use crate::engine::outcome::{
    ApplyOutcome, ApplyOutcomeView, CommitResult, CommitResultView,
};
use crate::engine::snapshot::{EngineSnapshot, EngineSnapshotView};
use crate::engine::transaction::{TxnAttempt, TxnAttemptView};
use crate::model::{Model, outcome};
use crate::text::decimal_text;
use crate::types::{Row, RowView, TxnId, message};

verus! {

broadcast use crate::model::group_contents;

/// The most bytes of a change in the log.
pub const MAX_REPLICATED_COMMAND_BYTES: usize = 8_388_608;

/// The most bytes of a snapshot.
pub const MAX_SNAPSHOT_BYTES: usize = 268_435_456;

pub const REPLICATED_MUTATION_FORMAT: u16 = 1;

pub const DATABASE_SNAPSHOT_FORMAT: u16 = 1;

pub const DEFAULT_MAX_ACTIVE_TRANSACTIONS: usize = 4_096;

/// Limits of a database.
#[derive(Debug, Clone, Copy, PartialEq, Eq, Structural)]
pub struct DatabaseOptions {
    pub max_active_transactions: usize,
}

impl DeepView for DatabaseOptions {
    type V = DatabaseOptions;

    open spec fn deep_view(&self) -> DatabaseOptions {
        *self
    }
}

impl Model for DatabaseOptions {
    fn duplicate(&self) -> (copy: Self) {
        *self
    }

    fn same(&self, other: &Self) -> (equal: bool) {
        *self == *other
    }
}

/// The rows of a query, or the number of rows that a statement changed.
#[derive(Debug, Clone, PartialEq, Eq)]
pub struct QueryResult {
    pub columns: Vec<String>,
    pub rows: Vec<Row>,
    pub affected_rows: u64,
    pub applied_index: u64,
}

/// The content of a [`QueryResult`].
#[verifier::ext_equal]
pub struct QueryResultView {
    pub columns: Seq<Seq<char>>,
    pub rows: Seq<RowView>,
    pub affected_rows: u64,
    pub applied_index: u64,
}

impl DeepView for QueryResult {
    type V = QueryResultView;

    open spec fn deep_view(&self) -> QueryResultView {
        QueryResultView {
            columns: self.columns.deep_view(),
            rows: self.rows.deep_view(),
            affected_rows: self.affected_rows.deep_view(),
            applied_index: self.applied_index.deep_view(),
        }
    }
}

impl Model for QueryResult {
    fn duplicate(&self) -> (copy: Self) {
        QueryResult {
            columns: self.columns.duplicate(),
            rows: self.rows.duplicate(),
            affected_rows: self.affected_rows.duplicate(),
            applied_index: self.applied_index.duplicate(),
        }
    }

    fn same(&self, other: &Self) -> (equal: bool) {
        self.columns.same(&other.columns)
            && self.rows.same(&other.rows)
            && self.affected_rows.same(&other.affected_rows)
            && self.applied_index.same(&other.applied_index)
    }
}

/// A transaction that has started.
#[derive(Debug, Clone, Copy, PartialEq, Eq, Structural)]
pub struct TransactionInfo {
    pub transaction_id: TxnId,
    pub read_ts: u64,
}

impl DeepView for TransactionInfo {
    type V = TransactionInfo;

    open spec fn deep_view(&self) -> TransactionInfo {
        *self
    }
}

impl Model for TransactionInfo {
    fn duplicate(&self) -> (copy: Self) {
        *self
    }

    fn same(&self, other: &Self) -> (equal: bool) {
        *self == *other
    }
}

/// A transaction that has committed. A retry finds the index of its first
/// commit.
#[derive(Debug, Clone, Copy, PartialEq, Eq, Structural)]
pub struct CommitInfo {
    pub commit_index: u64,
    pub affected_rows: u64,
    pub schema_epoch: u64,
    /// The latest index that is applied here.
    pub applied_index: u64,
}

impl DeepView for CommitInfo {
    type V = CommitInfo;

    open spec fn deep_view(&self) -> CommitInfo {
        *self
    }
}

impl Model for CommitInfo {
    fn duplicate(&self) -> (copy: Self) {
        *self
    }

    fn same(&self, other: &Self) -> (equal: bool) {
        *self == *other
    }
}

/// A durable checkpoint.
#[derive(Debug, Clone, Copy, PartialEq, Eq, Structural)]
pub struct CheckpointInfo {
    pub applied_index: u64,
    pub checkpoint_lsn: u64,
    pub through_lsn: u64,
}

impl DeepView for CheckpointInfo {
    type V = CheckpointInfo;

    open spec fn deep_view(&self) -> CheckpointInfo {
        *self
    }
}

impl Model for CheckpointInfo {
    fn duplicate(&self) -> (copy: Self) {
        *self
    }

    fn same(&self, other: &Self) -> (equal: bool) {
        *self == *other
    }
}

/// What the storage says of itself.
#[derive(Debug, Clone, Copy, PartialEq, Eq, Structural)]
pub struct StorageStatus {
    pub applied_index: u64,
    pub database_pages: u64,
    pub wal_bytes: u64,
    pub checkpoint_lsn: u64,
    pub root_page: Option<u64>,
    pub recovery_groups_examined: u64,
    pub recovery_groups_replayed: u64,
    pub recovery_pages_replayed: u64,
}

impl DeepView for StorageStatus {
    type V = StorageStatus;

    open spec fn deep_view(&self) -> StorageStatus {
        *self
    }
}

impl Model for StorageStatus {
    fn duplicate(&self) -> (copy: Self) {
        *self
    }

    fn same(&self, other: &Self) -> (equal: bool) {
        *self == *other
    }
}

/// What a database says of itself.
#[derive(Debug, Clone, Copy, PartialEq, Eq, Structural)]
pub struct DatabaseStatus {
    pub applied_index: u64,
    pub schema_epoch: u64,
    pub retained_floor: u64,
    pub active_transactions: u64,
    pub database_pages: u64,
    pub wal_bytes: u64,
    pub checkpoint_lsn: u64,
    pub root_page: Option<u64>,
    pub recovery_groups_examined: u64,
    pub recovery_groups_replayed: u64,
    pub recovery_pages_replayed: u64,
}

impl DeepView for DatabaseStatus {
    type V = DatabaseStatus;

    open spec fn deep_view(&self) -> DatabaseStatus {
        *self
    }
}

impl Model for DatabaseStatus {
    fn duplicate(&self) -> (copy: Self) {
        *self
    }

    fn same(&self, other: &Self) -> (equal: bool) {
        *self == *other
    }
}

/// What a statement answers.
#[derive(Debug, Clone, PartialEq, Eq)]
pub enum ExecutionResult {
    Query(QueryResult),
    Transaction(TransactionInfo),
    Committed(CommitInfo),
    RolledBack,
    Explain { plan: String, applied_index: u64 },
}

/// The content of a [`ExecutionResult`].
#[verifier::ext_equal]
pub enum ExecutionResultView {
    Query(QueryResultView),
    Transaction(TransactionInfo),
    Committed(CommitInfo),
    RolledBack,
    Explain { plan: Seq<char>, applied_index: u64 },
}

impl DeepView for ExecutionResult {
    type V = ExecutionResultView;

    open spec fn deep_view(&self) -> ExecutionResultView {
        match self {
            ExecutionResult::Query(a) => ExecutionResultView::Query(a.deep_view()),
            ExecutionResult::Transaction(a) => ExecutionResultView::Transaction(a.deep_view()),
            ExecutionResult::Committed(a) => ExecutionResultView::Committed(a.deep_view()),
            ExecutionResult::RolledBack => ExecutionResultView::RolledBack,
            ExecutionResult::Explain { plan, applied_index } => ExecutionResultView::Explain {
                plan: plan.deep_view(),
                applied_index: applied_index.deep_view(),
            },
        }
    }
}

impl Model for ExecutionResult {
    fn duplicate(&self) -> (copy: Self) {
        match self {
            ExecutionResult::Query(a) => ExecutionResult::Query(a.duplicate()),
            ExecutionResult::Transaction(a) => ExecutionResult::Transaction(a.duplicate()),
            ExecutionResult::Committed(a) => ExecutionResult::Committed(a.duplicate()),
            ExecutionResult::RolledBack => ExecutionResult::RolledBack,
            ExecutionResult::Explain { plan, applied_index } => ExecutionResult::Explain {
                plan: plan.duplicate(),
                applied_index: applied_index.duplicate(),
            },
        }
    }

    fn same(&self, other: &Self) -> (equal: bool) {
        match (self, other) {
            (ExecutionResult::Query(a), ExecutionResult::Query(other_a)) => a.same(other_a),
            (ExecutionResult::Transaction(a), ExecutionResult::Transaction(other_a)) => a.same(other_a),
            (ExecutionResult::Committed(a), ExecutionResult::Committed(other_a)) => a.same(other_a),
            (ExecutionResult::RolledBack, ExecutionResult::RolledBack) => true,
            (
                ExecutionResult::Explain { plan, applied_index },
                ExecutionResult::Explain { plan: other_plan, applied_index: other_applied_index },
            ) => plan.same(other_plan)
                && applied_index.same(other_applied_index),
            _ => false,
        }
    }
}

/// A change that is ready for the log.
#[derive(Debug, Clone, PartialEq, Eq)]
pub struct PreparedMutation {
    bytes: Vec<u8>,
}

/// The content of a [`PreparedMutation`].
#[verifier::ext_equal]
pub struct PreparedMutationView {
    pub bytes: Seq<u8>,
}

impl DeepView for PreparedMutation {
    type V = PreparedMutationView;

    closed spec fn deep_view(&self) -> PreparedMutationView {
        PreparedMutationView {
            bytes: self.bytes.deep_view(),
        }
    }
}

impl Model for PreparedMutation {
    fn duplicate(&self) -> (copy: Self) {
        PreparedMutation {
            bytes: self.bytes.duplicate(),
        }
    }

    fn same(&self, other: &Self) -> (equal: bool) {
        self.bytes.same(&other.bytes)
    }
}

/// A change that is ready for the log, or the answer to a request that has been
/// applied before.
#[derive(Debug, Clone, PartialEq, Eq)]
pub enum MutationPreparation {
    Propose(PreparedMutation),
    Replay(ExecutionResult),
}

/// The content of a [`MutationPreparation`].
#[verifier::ext_equal]
pub enum MutationPreparationView {
    Propose(PreparedMutationView),
    Replay(ExecutionResultView),
}

impl DeepView for MutationPreparation {
    type V = MutationPreparationView;

    open spec fn deep_view(&self) -> MutationPreparationView {
        match self {
            MutationPreparation::Propose(a) => MutationPreparationView::Propose(a.deep_view()),
            MutationPreparation::Replay(a) => MutationPreparationView::Replay(a.deep_view()),
        }
    }
}

impl Model for MutationPreparation {
    fn duplicate(&self) -> (copy: Self) {
        match self {
            MutationPreparation::Propose(a) => MutationPreparation::Propose(a.duplicate()),
            MutationPreparation::Replay(a) => MutationPreparation::Replay(a.duplicate()),
        }
    }

    fn same(&self, other: &Self) -> (equal: bool) {
        match (self, other) {
            (MutationPreparation::Propose(a), MutationPreparation::Propose(other_a)) => a.same(other_a),
            (MutationPreparation::Replay(a), MutationPreparation::Replay(other_a)) => a.same(other_a),
            _ => false,
        }
    }
}

/// A change in the log.
#[derive(Debug, Clone, PartialEq, Eq)]
pub struct ReplicatedMutation {
    pub format: u16,
    pub attempt: TxnAttempt,
    pub fingerprint: [u8; 32],
    pub affected_rows: u64,
}

/// The content of a [`ReplicatedMutation`].
#[verifier::ext_equal]
pub struct ReplicatedMutationView {
    pub format: u16,
    pub attempt: TxnAttemptView,
    pub fingerprint: Seq<u8>,
    pub affected_rows: u64,
}

impl DeepView for ReplicatedMutation {
    type V = ReplicatedMutationView;

    open spec fn deep_view(&self) -> ReplicatedMutationView {
        ReplicatedMutationView {
            format: self.format.deep_view(),
            attempt: self.attempt.deep_view(),
            fingerprint: self.fingerprint.deep_view(),
            affected_rows: self.affected_rows.deep_view(),
        }
    }
}

impl Model for ReplicatedMutation {
    fn duplicate(&self) -> (copy: Self) {
        ReplicatedMutation {
            format: self.format.duplicate(),
            attempt: self.attempt.duplicate(),
            fingerprint: self.fingerprint.duplicate(),
            affected_rows: self.affected_rows.duplicate(),
        }
    }

    fn same(&self, other: &Self) -> (equal: bool) {
        self.format.same(&other.format)
            && self.attempt.same(&other.attempt)
            && self.fingerprint.same(&other.fingerprint)
            && self.affected_rows.same(&other.affected_rows)
    }
}

/// A kept request in a snapshot.
#[derive(Debug, Clone, PartialEq, Eq)]
pub struct DatabaseSnapshotRequest {
    pub client_id: [u8; 16],
    pub record: DurableRequestRecord,
}

/// The content of a [`DatabaseSnapshotRequest`].
#[verifier::ext_equal]
pub struct DatabaseSnapshotRequestView {
    pub client_id: Seq<u8>,
    pub record: DurableRequestRecordView,
}

impl DeepView for DatabaseSnapshotRequest {
    type V = DatabaseSnapshotRequestView;

    open spec fn deep_view(&self) -> DatabaseSnapshotRequestView {
        DatabaseSnapshotRequestView {
            client_id: self.client_id.deep_view(),
            record: self.record.deep_view(),
        }
    }
}

impl Model for DatabaseSnapshotRequest {
    fn duplicate(&self) -> (copy: Self) {
        DatabaseSnapshotRequest {
            client_id: self.client_id.duplicate(),
            record: self.record.duplicate(),
        }
    }

    fn same(&self, other: &Self) -> (equal: bool) {
        self.client_id.same(&other.client_id)
            && self.record.same(&other.record)
    }
}

/// The parts of a snapshot.
#[derive(Debug, Clone, PartialEq, Eq)]
pub struct DatabaseSnapshotEnvelope {
    pub format: u16,
    pub engine: EngineSnapshot,
    pub requests: Vec<DatabaseSnapshotRequest>,
}

/// The content of a [`DatabaseSnapshotEnvelope`].
#[verifier::ext_equal]
pub struct DatabaseSnapshotEnvelopeView {
    pub format: u16,
    pub engine: EngineSnapshotView,
    pub requests: Seq<DatabaseSnapshotRequestView>,
}

impl DeepView for DatabaseSnapshotEnvelope {
    type V = DatabaseSnapshotEnvelopeView;

    open spec fn deep_view(&self) -> DatabaseSnapshotEnvelopeView {
        DatabaseSnapshotEnvelopeView {
            format: self.format.deep_view(),
            engine: self.engine.deep_view(),
            requests: self.requests.deep_view(),
        }
    }
}

impl Model for DatabaseSnapshotEnvelope {
    fn duplicate(&self) -> (copy: Self) {
        DatabaseSnapshotEnvelope {
            format: self.format.duplicate(),
            engine: self.engine.duplicate(),
            requests: self.requests.duplicate(),
        }
    }

    fn same(&self, other: &Self) -> (equal: bool) {
        self.format.same(&other.format)
            && self.engine.same(&other.engine)
            && self.requests.same(&other.requests)
    }
}

/// A snapshot of the database in bytes.
#[derive(Debug, Clone, PartialEq, Eq)]
pub struct DatabaseSnapshot {
    applied_index: u64,
    state_hash: [u8; 32],
    bytes: Vec<u8>,
}

/// The content of a [`DatabaseSnapshot`].
#[verifier::ext_equal]
pub struct DatabaseSnapshotView {
    pub applied_index: u64,
    pub state_hash: Seq<u8>,
    pub bytes: Seq<u8>,
}

impl DeepView for DatabaseSnapshot {
    type V = DatabaseSnapshotView;

    closed spec fn deep_view(&self) -> DatabaseSnapshotView {
        DatabaseSnapshotView {
            applied_index: self.applied_index.deep_view(),
            state_hash: self.state_hash.deep_view(),
            bytes: self.bytes.deep_view(),
        }
    }
}

impl Model for DatabaseSnapshot {
    fn duplicate(&self) -> (copy: Self) {
        DatabaseSnapshot {
            applied_index: self.applied_index.duplicate(),
            state_hash: self.state_hash.duplicate(),
            bytes: self.bytes.duplicate(),
        }
    }

    fn same(&self, other: &Self) -> (equal: bool) {
        self.applied_index.same(&other.applied_index)
            && self.state_hash.same(&other.state_hash)
            && self.bytes.same(&other.bytes)
    }
}

/// What a statement is.
#[derive(Debug, Clone, Copy, PartialEq, Eq, Structural)]
pub enum StatementKind {
    CreateTable,
    CreateIndex,
    Insert,
    Update,
    Delete,
    Select,
    Explain,
    Begin,
    Commit,
    Rollback,
}

impl DeepView for StatementKind {
    type V = StatementKind;

    open spec fn deep_view(&self) -> StatementKind {
        *self
    }
}

impl Model for StatementKind {
    fn duplicate(&self) -> (copy: Self) {
        *self
    }

    fn same(&self, other: &Self) -> (equal: bool) {
        *self == *other
    }
}

/// A statement that is bound and planned.
#[derive(Debug, PartialEq, Eq)]
pub struct Prepared {
    pub statement: BoundStatement,
    /// The plan of a query.
    pub plan: Option<PhysicalPlan>,
    /// The text that explains the plan of a query.
    pub plan_text: Option<String>,
}

/// The content of a [`Prepared`].
#[verifier::ext_equal]
pub struct PreparedView {
    pub statement: BoundStatementView,
    pub plan: Option<PhysicalPlanView>,
    pub plan_text: Option<Seq<char>>,
}

impl DeepView for Prepared {
    type V = PreparedView;

    open spec fn deep_view(&self) -> PreparedView {
        PreparedView {
            statement: self.statement.deep_view(),
            plan: self.plan.deep_view(),
            plan_text: self.plan_text.deep_view(),
        }
    }
}
impl Default for DatabaseOptions {
    fn default() -> (options: DatabaseOptions)
        ensures
            options.max_active_transactions == DEFAULT_MAX_ACTIVE_TRANSACTIONS,
    {
        DatabaseOptions { max_active_transactions: DEFAULT_MAX_ACTIVE_TRANSACTIONS }
    }
}

impl PreparedMutation {
    /// A change that fits in the log.
    pub fn new(bytes: Vec<u8>) -> (result: Result<PreparedMutation>)
        ensures
            outcome(result) == if bytes@.len() > MAX_REPLICATED_COMMAND_BYTES {
                Err::<PreparedMutationView, DatabaseErrorKind>(DatabaseErrorKind::ResourceLimit)
            } else {
                Ok(PreparedMutationView { bytes: bytes@ })
            },
    {
        if bytes.len() > MAX_REPLICATED_COMMAND_BYTES {
            return Err(command_too_long(bytes.len()));
        }
        assert(bytes.deep_view() =~= bytes@);
        Ok(PreparedMutation { bytes })
    }

    pub fn bytes(&self) -> (bytes: &Vec<u8>)
        ensures
            bytes@ == self.deep_view().bytes,
    {
        assert(self.bytes.deep_view() =~= self.bytes@);
        &self.bytes
    }

    pub fn into_bytes(self) -> (bytes: Vec<u8>)
        ensures
            bytes@ == self.deep_view().bytes,
    {
        assert(self.bytes.deep_view() =~= self.bytes@);
        self.bytes
    }
}

pub(crate) fn command_too_long(length: usize) -> (error: DatabaseError)
    ensures
        error.deep_view() == DatabaseErrorKind::ResourceLimit,
{
    DatabaseError::ResourceLimit(
        message(
            &[
                "replicated command is ",
                &decimal_text(length as u64),
                " bytes; maximum is ",
                &decimal_text(MAX_REPLICATED_COMMAND_BYTES as u64),
            ],
        ),
    )
}

impl DatabaseSnapshot {
    /// A snapshot that is not too large.
    pub fn new(applied_index: u64, state_hash: [u8; 32], bytes: Vec<u8>) -> (result: Result<
        DatabaseSnapshot,
    >)
        ensures
            outcome(result) == if bytes@.len() > MAX_SNAPSHOT_BYTES {
                Err::<DatabaseSnapshotView, DatabaseErrorKind>(DatabaseErrorKind::ResourceLimit)
            } else {
                Ok(
                    DatabaseSnapshotView {
                        applied_index,
                        state_hash: state_hash@,
                        bytes: bytes@,
                    },
                )
            },
    {
        if bytes.len() > MAX_SNAPSHOT_BYTES {
            return Err(
                DatabaseError::ResourceLimit(
                    message(
                        &[
                            "database snapshot is ",
                            &decimal_text(bytes.len() as u64),
                            " bytes; maximum is ",
                            &decimal_text(MAX_SNAPSHOT_BYTES as u64),
                        ],
                    ),
                ),
            );
        }
        assert(bytes.deep_view() =~= bytes@);
        Ok(DatabaseSnapshot { applied_index, state_hash, bytes })
    }

    pub fn applied_index(&self) -> (index: u64)
        ensures
            index == self.deep_view().applied_index,
    {
        self.applied_index
    }

    pub fn state_hash(&self) -> (hash: [u8; 32])
        ensures
            hash@ == self.deep_view().state_hash,
    {
        self.state_hash
    }

    pub fn bytes(&self) -> (bytes: &Vec<u8>)
        ensures
            bytes@ == self.deep_view().bytes,
    {
        assert(self.bytes.deep_view() =~= self.bytes@);
        &self.bytes
    }

    pub fn into_bytes(self) -> (bytes: Vec<u8>)
        ensures
            bytes@ == self.deep_view().bytes,
    {
        assert(self.bytes.deep_view() =~= self.bytes@);
        self.bytes
    }
}

impl StatementKind {
    pub open spec fn mutating(self) -> bool {
        self == StatementKind::CreateTable || self == StatementKind::CreateIndex || self
            == StatementKind::Insert || self == StatementKind::Update || self
            == StatementKind::Delete
    }

    /// Whether the statement changes data or the catalog.
    pub fn is_mutating_statement(self) -> (mutating: bool)
        ensures
            mutating == self.mutating(),
    {
        match self {
            StatementKind::CreateTable => true,
            StatementKind::CreateIndex => true,
            StatementKind::Insert => true,
            StatementKind::Update => true,
            StatementKind::Delete => true,
            _ => false,
        }
    }

    /// Whether the statement only reads.
    pub fn is_read(self) -> (read: bool)
        ensures
            read == (self == StatementKind::Select || self == StatementKind::Explain),
    {
        match self {
            StatementKind::Select => true,
            StatementKind::Explain => true,
            _ => false,
        }
    }
}

/// Where a statement goes.
#[derive(Debug, Clone, Copy, PartialEq, Eq, Structural)]
pub enum Route {
    Begin,
    Commit(TxnId),
    Rollback(TxnId),
    InTransaction(TxnId),
    Autocommit,
}

impl DeepView for Route {
    type V = Route;

    open spec fn deep_view(&self) -> Route {
        *self
    }
}

/// Where a statement goes; transaction control takes no parameters, and needs a
/// transaction that is active, or none.
pub open spec fn routed(kind: StatementKind, transaction_id: Option<TxnId>, parameters: nat) -> std::result::Result<
    Route,
    DatabaseErrorKind,
> {
    match kind {
        StatementKind::Begin => if transaction_id is Some || parameters > 0 {
            Err(DatabaseErrorKind::TransactionControl)
        } else {
            Ok(Route::Begin)
        },
        StatementKind::Commit => match transaction_id {
            Some(id) if parameters == 0 => Ok(Route::Commit(id)),
            _ => Err(DatabaseErrorKind::TransactionControl),
        },
        StatementKind::Rollback => match transaction_id {
            Some(id) if parameters == 0 => Ok(Route::Rollback(id)),
            _ => Err(DatabaseErrorKind::TransactionControl),
        },
        _ => match transaction_id {
            Some(id) => Ok(Route::InTransaction(id)),
            None => Ok(Route::Autocommit),
        },
    }
}

/// How it reads that a statement goes nowhere.
pub open spec fn unrouted_words(
    kind: StatementKind,
    transaction_id: Option<TxnId>,
    parameters: nat,
) -> Seq<char> {
    match kind {
        StatementKind::Begin => if transaction_id is Some {
            "BEGIN cannot run inside an active transaction"@
        } else {
            "BEGIN does not accept parameters"@
        },
        StatementKind::Commit => if transaction_id is None {
            "COMMIT requires an active transaction id"@
        } else {
            "COMMIT does not accept parameters"@
        },
        _ => if transaction_id is None {
            "ROLLBACK requires an active transaction id"@
        } else {
            "ROLLBACK does not accept parameters"@
        },
    }
}

fn control_error(text: &str) -> (error: DatabaseError)
    ensures
        error.deep_view() == DatabaseErrorKind::TransactionControl,
        error.shown() == "invalid transaction control: "@ + text@,
{
    DatabaseError::TransactionControl(text.to_owned())
}

/// Where a statement goes.
pub fn route(kind: StatementKind, transaction_id: Option<TxnId>, parameters: usize) -> (result:
    Result<Route>)
    ensures
        outcome(result) == routed(kind, transaction_id, parameters as nat),
        result matches Err(error) ==> error.shown() == "invalid transaction control: "@
            + unrouted_words(kind, transaction_id, parameters as nat),
{
    match kind {
        StatementKind::Begin => {
            if transaction_id.is_some() {
                return Err(control_error("BEGIN cannot run inside an active transaction"));
            }
            if parameters > 0 {
                return Err(control_error("BEGIN does not accept parameters"));
            }
            Ok(Route::Begin)
        },
        StatementKind::Commit => match transaction_id {
            None => Err(control_error("COMMIT requires an active transaction id")),
            Some(id) => if parameters > 0 {
                Err(control_error("COMMIT does not accept parameters"))
            } else {
                Ok(Route::Commit(id))
            },
        },
        StatementKind::Rollback => match transaction_id {
            None => Err(control_error("ROLLBACK requires an active transaction id")),
            Some(id) => if parameters > 0 {
                Err(control_error("ROLLBACK does not accept parameters"))
            } else {
                Ok(Route::Rollback(id))
            },
        },
        _ => match transaction_id {
            Some(id) => Ok(Route::InTransaction(id)),
            None => Ok(Route::Autocommit),
        },
    }
}

/// The answer without rows.
pub open spec fn affected(affected_rows: u64, applied_index: u64) -> ExecutionResultView {
    ExecutionResultView::Query(
        QueryResultView {
            columns: Seq::empty(),
            rows: Seq::empty(),
            affected_rows,
            applied_index,
        },
    )
}

pub(crate) fn affected_result(affected_rows: u64, applied_index: u64) -> (result: ExecutionResult)
    ensures
        result.deep_view() == affected(affected_rows, applied_index),
{
    let columns: Vec<String> = Vec::new();
    let rows: Vec<Row> = Vec::new();
    assert(columns.deep_view() =~= Seq::empty());
    assert(rows.deep_view() =~= Seq::empty());
    ExecutionResult::Query(QueryResult { columns, rows, affected_rows, applied_index })
}

/// What the output of a statement answers.
pub open spec fn answer_of(output: StatementOutputView, applied_index: u64) -> ExecutionResultView {
    match output {
        StatementOutputView::Query { columns, rows } => ExecutionResultView::Query(
            QueryResultView { columns, rows, affected_rows: 0, applied_index },
        ),
        StatementOutputView::Mutation { affected_rows } => affected(
            affected_rows as u64,
            applied_index,
        ),
        StatementOutputView::Explain(plan) => ExecutionResultView::Explain { plan, applied_index },
    }
}

/// What the output of a statement answers.
pub fn statement_output(output: StatementOutput, applied_index: u64) -> (result: ExecutionResult)
    ensures
        result.deep_view() == answer_of(output.deep_view(), applied_index),
{
    match output {
        StatementOutput::Query { columns, rows } => ExecutionResult::Query(
            QueryResult { columns, rows, affected_rows: 0, applied_index },
        ),
        StatementOutput::Mutation { affected_rows } => affected_result(
            affected_rows as u64,
            applied_index,
        ),
        StatementOutput::Explain(plan) => ExecutionResult::Explain { plan, applied_index },
    }
}

/// What the result of a transaction answers.
pub open spec fn committed_as(result: CommitResultView, applied_index: u64) -> std::result::Result<
    CommitInfo,
    DatabaseErrorKind,
> {
    match result {
        CommitResultView::Committed { commit_index, affected_rows, schema_epoch } => Ok(
            CommitInfo {
                commit_index,
                affected_rows: affected_rows as u64,
                schema_epoch,
                applied_index,
            },
        ),
        CommitResultView::Aborted { reason, .. } => Err(
            DatabaseErrorKind::TransactionAborted(reason),
        ),
    }
}

/// What the result of a transaction answers.
pub fn commit_info_from_result(result: &CommitResult, applied_index: u64) -> (info: Result<
    CommitInfo,
>)
    ensures
        outcome(info) == committed_as(result.deep_view(), applied_index),
{
    match result {
        CommitResult::Committed { commit_index, affected_rows, schema_epoch } => Ok(
            CommitInfo {
                commit_index: *commit_index,
                affected_rows: *affected_rows as u64,
                schema_epoch: *schema_epoch,
                applied_index,
            },
        ),
        CommitResult::Aborted { reason, .. } => Err(
            DatabaseError::TransactionAborted(reason.duplicate()),
        ),
    }
}

/// What a kept request answers to a retry.
pub open spec fn replay_answer(record: DurableRequestRecordView, applied_index: u64) -> std::result::Result<
    ExecutionResultView,
    DatabaseErrorKind,
> {
    match committed_as(record.result, applied_index) {
        Err(error) => Err(error),
        Ok(_) => Ok(affected(record.affected_rows, applied_index)),
    }
}

/// What a kept request answers to a retry.
pub fn mutation_result_from_record(record: &DurableRequestRecord, applied_index: u64) -> (result:
    Result<ExecutionResult>)
    ensures
        outcome(result) == replay_answer(record.deep_view(), applied_index),
{
    match commit_info_from_result(&record.result, applied_index) {
        Ok(_) => Ok(affected_result(record.affected_rows, applied_index)),
        Err(error) => Err(error),
    }
}

/// What the outcome of a change answers.
pub open spec fn outcome_answer(result: ApplyOutcomeView, affected_rows: u64, applied_index: u64) -> std::result::Result<
    ExecutionResultView,
    DatabaseErrorKind,
> {
    match result {
        ApplyOutcomeView::Applied(result) | ApplyOutcomeView::Duplicate(result) => {
            match committed_as(result, applied_index) {
                Err(error) => Err(error),
                Ok(_) => Ok(affected(affected_rows, applied_index)),
            }
        },
        ApplyOutcomeView::Rejected(rejection) => Err(
            DatabaseErrorKind::RequestRejected(rejection),
        ),
        ApplyOutcomeView::Noop => Err(DatabaseErrorKind::Invariant),
    }
}

/// What the outcome of a change answers.
pub fn replicated_outcome(result: &ApplyOutcome, affected_rows: u64, applied_index: u64) -> (answer:
    Result<ExecutionResult>)
    ensures
        outcome(answer) == outcome_answer(result.deep_view(), affected_rows, applied_index),
{
    let result = match result {
        ApplyOutcome::Applied(result) => result,
        ApplyOutcome::Duplicate(result) => result,
        ApplyOutcome::Rejected(rejection) => {
            return Err(DatabaseError::RequestRejected(*rejection))
        },
        ApplyOutcome::Noop => {
            return Err(
                DatabaseError::Invariant(
                    "replicated transaction decoded as a Raft no-op".to_owned(),
                ),
            )
        },
    };
    match commit_info_from_result(result, applied_index) {
        Ok(_) => Ok(affected_result(affected_rows, applied_index)),
        Err(error) => Err(error),
    }
}

} // verus!
