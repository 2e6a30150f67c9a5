//! The database: an engine, the transactions that are active on it, and the
//! requests that are kept for retries.
//!
//! A change is made on a copy of the engine. The copy takes the engine's place
//! only after the storage has it.

use vstd::prelude::*;
use crate::db::catalog::{EngineCatalog, EngineCatalogView};
use crate::db::error::{DatabaseError, DatabaseErrorKind, Result};
use crate::db::executor::{
    StatementOutput, StatementOutputView, explain_statement, explanation, statement_executed,
};
use crate::db::fingerprint::{
    commit_fingerprint, commit_fingerprint_of, noop_hash, raft_noop_hash, sql_fingerprint,
    statement_fingerprint,
};
use crate::db::requests::{
    DurableRequestRecordView, DurableRequests, RequestsView, corruption, record_outcome,
    recording_keeps_agreement, replay_agrees, replay_record, replayed, requests_after,
    requests_agree, validate_durable_replay, validate_durable_requests,
};
use crate::db::results::{
    CheckpointInfo, CommitInfo, DATABASE_SNAPSHOT_FORMAT, DatabaseOptions, DatabaseSnapshot,
    DatabaseSnapshotEnvelope, DatabaseSnapshotEnvelopeView, DatabaseSnapshotRequest,
    DatabaseSnapshotRequestView, DatabaseSnapshotView, DatabaseStatus, ExecutionResult,
    ExecutionResultView, MAX_REPLICATED_COMMAND_BYTES, MAX_SNAPSHOT_BYTES, MutationPreparation,
    MutationPreparationView, Prepared, PreparedMutation, PreparedMutationView, PreparedView,
    REPLICATED_MUTATION_FORMAT, ReplicatedMutation, ReplicatedMutationView, Route, StatementKind,
    StorageStatus, TransactionInfo, answer_of, command_too_long, commit_info_from_result,
    committed_as, mutation_result_from_record, outcome_answer, replay_answer, replicated_outcome,
    route, routed, statement_output, unrouted_words,
};
use crate::db::scalar::{Meaning, Scalars, invariant_error};
use crate::db::sql::{BoundExpr, BoundStatement, BoundStatementView, SqlError};
use crate::digest::{sha256, sha256_digest};
use crate::engine::outcome::{ApplyOutcome, ApplyOutcomeView};
use crate::engine::snapshot::EngineSnapshotView;
use crate::engine::state::{Engine, EngineView};
use crate::engine::transaction::{Transaction, TransactionView, TxnAttempt, TxnAttemptView};
use crate::model::{Model, outcome};
use crate::ordmap::{OrdMap, ordered};
use crate::text::{decimal, decimal_text};
use crate::types::{
    ClientRequestId, ClientRequestIdView, Row, TxnId, Value, ValueView, between, message,
};

verus! {

broadcast use crate::model::group_contents;

/// The term of the leader that a database on its own is.
pub const STANDALONE_LEADER_TERM: u64 = 1;

#[derive(Debug)]
struct DatabaseState {
    engine: Engine,
    active: OrdMap<TxnId, Transaction>,
    requests: DurableRequests,
    max_active_transactions: usize,
}

/// The state machine of a database.
#[derive(Debug)]
pub struct Database {
    state: DatabaseState,
}

/// The content of a [`Database`].
#[verifier::ext_equal]
pub struct DatabaseView {
    pub engine: EngineView,
    pub active: Map<TxnId, TransactionView>,
    pub requests: RequestsView,
    pub max_active_transactions: usize,
}

impl DeepView for Database {
    type V = DatabaseView;

    closed spec fn deep_view(&self) -> DatabaseView {
        self.state.content()
    }
}

impl DatabaseState {
    spec fn content(self) -> DatabaseView {
        DatabaseView {
            engine: self.engine.deep_view(),
            active: self.active.deep_view(),
            requests: self.requests.deep_view(),
            max_active_transactions: self.max_active_transactions,
        }
    }

    fn new(engine: Engine, requests: DurableRequests, max_active_transactions: usize) -> (state:
        DatabaseState)
        requires
            max_active_transactions > 0,
            requests_agree(engine.deep_view(), requests.deep_view()),
        ensures
            state.content() == (DatabaseView {
                engine: engine.deep_view(),
                active: Map::empty(),
                requests: requests.deep_view(),
                max_active_transactions,
            }),
            state.content().well_formed(),
    {
        let kept: usize = requests.len();
        let clients: usize = engine.client_count();
        let active: OrdMap<TxnId, Transaction> = OrdMap::new();
        let none: usize = active.len();
        assert(active.deep_view().dom() =~= Set::empty());
        DatabaseState { engine, active, requests, max_active_transactions }
    }

    fn vacant() -> (state: DatabaseState)
        ensures
            state.content().well_formed(),
    {
        let engine = Engine::new();
        let requests: DurableRequests = OrdMap::new();
        let kept: usize = requests.len();
        let clients: usize = engine.client_count();
        assert(requests.deep_view().dom() =~= Set::empty());
        assert(engine.deep_view().clients.dom() =~= Set::empty());
        DatabaseState::new(engine, requests, 1)
    }
}

impl DatabaseView {
    /// The invariant: no more transactions are active than may be, each under
    /// its id, and the kept requests are those of the engine's clients.
    pub open spec fn well_formed(self) -> bool {
        &&& self.max_active_transactions > 0
        &&& self.active.dom().finite()
        &&& self.active.dom().len() <= self.max_active_transactions
        &&& forall|id: TxnId| #[trigger] self.active.contains_key(id) ==> self.active[id].id == id
        &&& self.requests.dom().finite()
        &&& self.engine.clients.dom().finite()
        &&& requests_agree(self.engine, self.requests)
    }

    /// The database with an engine in place of its own.
    pub open spec fn with(self, engine: EngineView, requests: RequestsView) -> DatabaseView {
        DatabaseView { engine, requests, ..self }
    }
}

/// The storage can be asked to keep any state.
pub open spec fn storable<S: FnOnce(&Engine, &DurableRequests) -> Result<()>>(persist: S) -> bool {
    forall|engine: &Engine, requests: &DurableRequests| #[trigger]
        call_requires(persist, (engine, requests))
}

/// The storage was asked to keep this state, and gave this answer.
pub open spec fn stored_as<S: FnOnce(&Engine, &DurableRequests) -> Result<()>>(
    persist: S,
    engine: EngineView,
    requests: RequestsView,
    answer: std::result::Result<(), DatabaseErrorKind>,
) -> bool {
    exists|e: Engine, r: DurableRequests, returned: Result<()>|
        e.deep_view() == engine && r.deep_view() == requests && #[trigger] call_ensures(
            persist,
            (&e, &r),
            returned,
        ) && outcome(returned) == answer
}

/// The storage was asked to keep a state before the database took it on. Where
/// the storage refused, the database stays as it was, and the refusal is the
/// result.
pub open spec fn publishes<S: FnOnce(&Engine, &DurableRequests) -> Result<()>, T>(
    persist: S,
    before: DatabaseView,
    engine: EngineView,
    requests: RequestsView,
    done: DatabaseView,
    success: std::result::Result<T, DatabaseErrorKind>,
    after: DatabaseView,
    result: std::result::Result<T, DatabaseErrorKind>,
) -> bool {
    exists|answer: std::result::Result<(), DatabaseErrorKind>| #[trigger]
        stored_as(persist, engine, requests, answer) && match answer {
            Ok(()) => after == done && result == success,
            Err(error) => after == before && result == Err::<T, DatabaseErrorKind>(error),
        }
}

/// The front end can bind against any catalogs.
pub open spec fn bindable<B: FnOnce(&EngineCatalog, &EngineCatalog) -> Result<Prepared>>(
    bind: B,
) -> bool {
    forall|binding: &EngineCatalog, planning: &EngineCatalog| #[trigger]
        call_requires(bind, (binding, planning))
}

/// The front end was asked to bind a statement against the catalog that a
/// transaction sees, and to plan it against the committed one, and gave this
/// answer.
pub open spec fn bound_as<B: FnOnce(&EngineCatalog, &EngineCatalog) -> Result<Prepared>>(
    bind: B,
    engine: EngineView,
    transaction: TransactionView,
    answer: std::result::Result<PreparedView, DatabaseErrorKind>,
) -> bool {
    exists|binding: EngineCatalog, planning: EngineCatalog, returned: Result<Prepared>|
        binding.deep_view() == EngineCatalogView::seen(engine, Some(transaction))
            && planning.deep_view() == EngineCatalogView::seen(engine, None)
            && #[trigger] call_ensures(bind, (&binding, &planning), returned) && outcome(returned)
            == answer
}

/// The transaction after a statement as the front end returned it, and what the
/// statement produced.
pub open spec fn prepared_executed(
    engine: EngineView,
    transaction: TransactionView,
    meaning: Meaning,
    bound: std::result::Result<PreparedView, DatabaseErrorKind>,
    parameters: Seq<ValueView>,
) -> (TransactionView, std::result::Result<StatementOutputView, DatabaseErrorKind>) {
    match bound {
        Err(error) => (transaction, Err(error)),
        Ok(prepared) => match prepared.statement {
            BoundStatementView::Transaction(_) => (
                transaction,
                Err(DatabaseErrorKind::TransactionControl),
            ),
            BoundStatementView::Explain(inner) => (
                transaction,
                if *inner is Transaction {
                    Err(DatabaseErrorKind::TransactionControl)
                } else {
                    match explanation(*inner, prepared.plan_text) {
                        Ok(text) => Ok(StatementOutputView::Explain(text)),
                        Err(error) => Err(error),
                    }
                },
            ),
            statement => statement_executed(
                engine,
                transaction,
                meaning,
                statement,
                prepared.plan,
                parameters,
            ),
        },
    }
}

/// How it reads that no transaction is started, where the database decides.
pub open spec fn unbegun_words(before: DatabaseView) -> Option<Seq<char>> {
    if before.active.dom().len() >= before.max_active_transactions {
        Some(
            "resource limit exceeded: "@ + ("active transaction limit "@ + decimal(
                before.max_active_transactions as nat,
            ) + " reached"@),
        )
    } else {
        match before.engine.started(before.engine.last_applied, before.engine.catalog.schema_epoch) {
            Err(_) => None,
            Ok(transaction) => if before.active.contains_key(transaction.id) {
                Some(
                    "internal database invariant failed: "@ + ("transaction id "@ + decimal(
                        transaction.id as nat,
                    ) + " was reused while active"@),
                )
            } else {
                None
            },
        }
    }
}

/// Starting a transaction.
pub open spec fn begins(
    before: DatabaseView,
    after: DatabaseView,
    result: std::result::Result<TransactionInfo, DatabaseErrorKind>,
) -> bool {
    if before.active.dom().len() >= before.max_active_transactions {
        after == before && result == Err::<TransactionInfo, DatabaseErrorKind>(
            DatabaseErrorKind::ResourceLimit,
        )
    } else {
        match before.engine.started(before.engine.last_applied, before.engine.catalog.schema_epoch) {
            Err(error) => after == before && result == Err::<TransactionInfo, DatabaseErrorKind>(
                DatabaseErrorKind::Engine(error),
            ),
            Ok(transaction) => {
                let engine = EngineView {
                    next_txn_id: (before.engine.next_txn_id + 1) as u64,
                    ..before.engine
                };
                &&& after == DatabaseView {
                    engine,
                    active: before.active.insert(transaction.id, transaction),
                    ..before
                }
                &&& result == if before.active.contains_key(transaction.id) {
                    Err::<TransactionInfo, DatabaseErrorKind>(DatabaseErrorKind::Invariant)
                } else {
                    Ok(
                        TransactionInfo {
                            transaction_id: transaction.id,
                            read_ts: transaction.read_ts,
                        },
                    )
                }
            },
        }
    }
}

/// Ending a transaction without a trace.
pub open spec fn rolls_back(
    before: DatabaseView,
    after: DatabaseView,
    transaction_id: TxnId,
    result: std::result::Result<(), DatabaseErrorKind>,
) -> bool {
    if before.active.contains_key(transaction_id) {
        after == (DatabaseView { active: before.active.remove(transaction_id), ..before }) && result
            == Ok::<(), DatabaseErrorKind>(())
    } else {
        after == before && result == Err::<(), DatabaseErrorKind>(
            DatabaseErrorKind::TransactionNotFound(transaction_id),
        )
    }
}

/// The attempt that a transaction of a database on its own makes.
pub open spec fn standalone_attempt(transaction: TransactionView, client: Seq<u8>, sequence: u64) -> TxnAttemptView {
    transaction.attempt(ClientRequestIdView { client_id: client, sequence }, STANDALONE_LEADER_TERM)
}

/// Why a transaction cannot be applied next, if it cannot.
pub open spec fn attempt_problem(engine: EngineView, attempt: TxnAttemptView) -> Option<
    DatabaseErrorKind,
> {
    match attempt.encoded() {
        Err(error) => Some(DatabaseErrorKind::Engine(error)),
        Ok(bytes) => if engine.last_applied == u64::MAX {
            Some(DatabaseErrorKind::Invariant)
        } else {
            match engine.apply_problem((engine.last_applied + 1) as u64, sha256(bytes), attempt) {
                Some(error) => Some(DatabaseErrorKind::Engine(error)),
                None => None,
            }
        },
    }
}

/// What applying a transaction next gives.
pub open spec fn attempt_applied(
    engine: EngineView,
    attempt: TxnAttemptView,
    fingerprint: Seq<u8>,
    result: ApplyOutcomeView,
    next: EngineView,
) -> bool {
    engine.applied_as(
        (engine.last_applied + 1) as u64,
        sha256(attempt.encoded()->Ok_0),
        fingerprint,
        attempt,
        result,
        next,
    )
}

/// What the outcome of a commit answers.
pub open spec fn commit_answer(result: ApplyOutcomeView, applied_index: u64) -> std::result::Result<
    CommitInfo,
    DatabaseErrorKind,
> {
    match result {
        ApplyOutcomeView::Applied(result) | ApplyOutcomeView::Duplicate(result) => committed_as(
            result,
            applied_index,
        ),
        ApplyOutcomeView::Rejected(rejection) => Err(
            DatabaseErrorKind::RequestRejected(rejection),
        ),
        ApplyOutcomeView::Noop => Err(DatabaseErrorKind::Invariant),
    }
}

/// Committing a transaction. Where the request is rejected or the storage
/// refuses, the transaction stays active.
pub open spec fn commits<S: FnOnce(&Engine, &DurableRequests) -> Result<()>>(
    persist: S,
    before: DatabaseView,
    after: DatabaseView,
    client: Seq<u8>,
    sequence: u64,
    transaction_id: TxnId,
    result: std::result::Result<CommitInfo, DatabaseErrorKind>,
) -> bool {
    let fingerprint = commit_fingerprint_of(transaction_id);
    if !before.active.contains_key(transaction_id) {
        &&& after == before
        &&& result == match replayed(before.requests, client, sequence, fingerprint) {
            Err(error) => Err(error),
            Ok(Some(record)) => committed_as(record.result, before.engine.last_applied),
            Ok(None) => Err(DatabaseErrorKind::TransactionNotFound(transaction_id)),
        }
    } else {
        let transaction = before.active[transaction_id];
        let attempt = standalone_attempt(transaction, client, sequence);
        match attempt_problem(before.engine, attempt) {
            Some(error) => after == before && result == Err::<CommitInfo, DatabaseErrorKind>(error),
            None => exists|applied: ApplyOutcomeView, next: EngineView|
                {
                    &&& #[trigger] attempt_applied(
                        before.engine,
                        attempt,
                        fingerprint,
                        applied,
                        next,
                    )
                    &&& match requests_after(
                        before.requests,
                        applied,
                        client,
                        sequence,
                        fingerprint,
                        transaction.writes.dom().len() as u64,
                    ) {
                        Err(error) => after == before && result == Err::<
                            CommitInfo,
                            DatabaseErrorKind,
                        >(error),
                        Ok(requests) => publishes(
                            persist,
                            before,
                            next,
                            requests,
                            DatabaseView {
                                active: if applied is Rejected {
                                    before.active
                                } else {
                                    before.active.remove(transaction_id)
                                },
                                ..before.with(next, requests)
                            },
                            commit_answer(applied, next.last_applied),
                            after,
                            result,
                        ),
                    }
                },
        }
    }
}

/// Executing a statement in a transaction. A statement that fails leaves the
/// transaction as it was.
pub open spec fn runs<B: FnOnce(&EngineCatalog, &EngineCatalog) -> Result<Prepared>>(
    bind: B,
    meaning: Meaning,
    before: DatabaseView,
    after: DatabaseView,
    transaction_id: TxnId,
    parameters: Seq<ValueView>,
    result: std::result::Result<ExecutionResultView, DatabaseErrorKind>,
) -> bool {
    if !before.active.contains_key(transaction_id) {
        after == before && result == Err::<ExecutionResultView, DatabaseErrorKind>(
            DatabaseErrorKind::TransactionNotFound(transaction_id),
        )
    } else {
        let transaction = before.active[transaction_id];
        exists|bound: std::result::Result<PreparedView, DatabaseErrorKind>| #[trigger]
            bound_as(bind, before.engine, transaction, bound) && {
                let (staged, output) = prepared_executed(
                    before.engine,
                    transaction,
                    meaning,
                    bound,
                    parameters,
                );
                match output {
                    Err(error) => after == before && result == Err::<
                        ExecutionResultView,
                        DatabaseErrorKind,
                    >(error),
                    Ok(output) => after == (DatabaseView {
                        active: before.active.insert(transaction_id, staged),
                        ..before
                    }) && result == Ok::<ExecutionResultView, DatabaseErrorKind>(
                        answer_of(output, before.engine.last_applied),
                    ),
                }
            }
    }
}

/// The retry that a statement on its own is, if it is one.
pub open spec fn statement_replay(
    before: DatabaseView,
    kind: StatementKind,
    client: Seq<u8>,
    sequence: u64,
    fingerprint: Seq<u8>,
) -> std::result::Result<Option<DurableRequestRecordView>, DatabaseErrorKind> {
    if kind.mutating() {
        replayed(before.requests, client, sequence, fingerprint)
    } else {
        Ok(None)
    }
}

/// Applying what a statement on its own has staged.
pub open spec fn autocommits_staged<S: FnOnce(&Engine, &DurableRequests) -> Result<()>>(
    persist: S,
    begun: DatabaseView,
    after: DatabaseView,
    staged: TransactionView,
    output: StatementOutputView,
    client: Seq<u8>,
    sequence: u64,
    fingerprint: Seq<u8>,
    result: std::result::Result<ExecutionResultView, DatabaseErrorKind>,
) -> bool {
    if staged.writes == Map::<crate::engine::transaction::LogicalKeyView, crate::engine::transaction::TxnWriteView>::empty()
        && staged.catalog_mutations.len() == 0 {
        after == begun && result == Ok::<ExecutionResultView, DatabaseErrorKind>(
            answer_of(output, begun.engine.last_applied),
        )
    } else {
        match output {
            StatementOutputView::Mutation { affected_rows } => {
                let attempt = standalone_attempt(staged, client, sequence);
                match attempt_problem(begun.engine, attempt) {
                    Some(error) => after == begun && result == Err::<
                        ExecutionResultView,
                        DatabaseErrorKind,
                    >(error),
                    None => exists|applied: ApplyOutcomeView, next: EngineView|
                        {
                            &&& #[trigger] attempt_applied(
                                begun.engine,
                                attempt,
                                fingerprint,
                                applied,
                                next,
                            )
                            &&& match requests_after(
                                begun.requests,
                                applied,
                                client,
                                sequence,
                                fingerprint,
                                affected_rows as u64,
                            ) {
                                Err(error) => after == begun && result == Err::<
                                    ExecutionResultView,
                                    DatabaseErrorKind,
                                >(error),
                                Ok(requests) => publishes(
                                    persist,
                                    begun,
                                    next,
                                    requests,
                                    begun.with(next, requests),
                                    outcome_answer(
                                        applied,
                                        affected_rows as u64,
                                        next.last_applied,
                                    ),
                                    after,
                                    result,
                                ),
                            }
                        },
                }
            },
            _ => after == begun && result == Err::<ExecutionResultView, DatabaseErrorKind>(
                DatabaseErrorKind::Invariant,
            ),
        }
    }
}

/// Executing a statement on its own.
pub open spec fn autocommits<
    B: FnOnce(&EngineCatalog, &EngineCatalog) -> Result<Prepared>,
    S: FnOnce(&Engine, &DurableRequests) -> Result<()>,
>(
    bind: B,
    persist: S,
    meaning: Meaning,
    before: DatabaseView,
    after: DatabaseView,
    kind: StatementKind,
    client: Seq<u8>,
    sequence: u64,
    sql: Seq<char>,
    parameters: Seq<ValueView>,
    result: std::result::Result<ExecutionResultView, DatabaseErrorKind>,
) -> bool {
    match statement_fingerprint(sql, parameters) {
        Err(error) => after == before && result == Err::<ExecutionResultView, DatabaseErrorKind>(
            error,
        ),
        Ok(fingerprint) => match statement_replay(before, kind, client, sequence, fingerprint) {
            Err(error) => after == before && result == Err::<
                ExecutionResultView,
                DatabaseErrorKind,
            >(error),
            Ok(Some(record)) => after == before && result == replay_answer(
                record,
                before.engine.last_applied,
            ),
            Ok(None) => match before.engine.started(
                before.engine.last_applied,
                before.engine.catalog.schema_epoch,
            ) {
                Err(error) => after == before && result == Err::<
                    ExecutionResultView,
                    DatabaseErrorKind,
                >(DatabaseErrorKind::Engine(error)),
                Ok(transaction) => {
                    let begun = before.with(
                        EngineView {
                            next_txn_id: (before.engine.next_txn_id + 1) as u64,
                            ..before.engine
                        },
                        before.requests,
                    );
                    exists|bound: std::result::Result<PreparedView, DatabaseErrorKind>| #[trigger]
                        bound_as(bind, begun.engine, transaction, bound) && {
                            let (staged, output) = prepared_executed(
                                begun.engine,
                                transaction,
                                meaning,
                                bound,
                                parameters,
                            );
                            match output {
                                Err(error) => after == begun && result == Err::<
                                    ExecutionResultView,
                                    DatabaseErrorKind,
                                >(error),
                                Ok(output) => autocommits_staged(
                                    persist,
                                    begun,
                                    after,
                                    staged,
                                    output,
                                    client,
                                    sequence,
                                    fingerprint,
                                    result,
                                ),
                            }
                        }
                },
            },
        },
    }
}

fn engine_error(error: crate::engine::error::EngineError) -> (converted: DatabaseError)
    ensures
        converted.deep_view() == DatabaseErrorKind::Engine(error.deep_view()),
{
    DatabaseError::Engine(error)
}

/// Binds a statement and executes it in a transaction.
fn prepare_and_execute_output<
    E: Fn(&BoundExpr, &Row, &Vec<Value>) -> std::result::Result<Value, SqlError>,
    P: Fn(&BoundExpr, &Row, &Vec<Value>) -> std::result::Result<bool, SqlError>,
    B: FnOnce(&EngineCatalog, &EngineCatalog) -> Result<Prepared>,
>(
    scalars: &Scalars<E, P>,
    bind: B,
    engine: &Engine,
    transaction: &mut Transaction,
    parameters: &Vec<Value>,
) -> (result: Result<StatementOutput>)
    requires
        scalars.sound(),
        bindable(bind),
    ensures
        exists|bound: std::result::Result<PreparedView, DatabaseErrorKind>| #[trigger]
            bound_as(bind, engine.deep_view(), old(transaction).deep_view(), bound)
                && prepared_executed(
                engine.deep_view(),
                old(transaction).deep_view(),
                scalars.meaning(),
                bound,
                parameters.deep_view(),
            ) == (final(transaction).deep_view(), outcome(result)),
{
    let ghost start = transaction.deep_view();
    let binding = EngineCatalog::new(engine, Some(transaction));
    let planning = EngineCatalog::new(engine, None);
    let bound = bind(&binding, &planning);
    assert(bound_as(bind, engine.deep_view(), start, outcome(bound)));
    let prepared = match bound {
        Ok(prepared) => prepared,
        Err(error) => return Err(error),
    };
    proof {
        reveal_with_fuel(BoundStatement::content, 3);
    }
    match &prepared.statement {
        BoundStatement::Transaction(_) => Err(
            DatabaseError::TransactionControl(
                "transaction control must be dispatched before execution".to_owned(),
            ),
        ),
        BoundStatement::Explain(inner) => {
            if let BoundStatement::Transaction(_) = &**inner {
                return Err(
                    DatabaseError::TransactionControl(
                        "EXPLAIN does not accept transaction control".to_owned(),
                    ),
                );
            }
            explain_statement(inner, prepared.plan_text.duplicate())
        },
        statement => scalars.execute_bound(
            engine,
            transaction,
            statement,
            prepared.plan.as_ref(),
            parameters,
        ),
    }
}

/// Why a change in the log cannot be applied, if it cannot.
pub open spec fn replicated_problem(
    before: DatabaseView,
    index: u64,
    bytes: Seq<u8>,
    decoded: Option<ReplicatedMutationView>,
) -> Option<DatabaseErrorKind> {
    if bytes.len() > MAX_REPLICATED_COMMAND_BYTES {
        Some(DatabaseErrorKind::ResourceLimit)
    } else {
        match decoded {
            None => Some(DatabaseErrorKind::Corruption),
            Some(command) => if command.format != REPLICATED_MUTATION_FORMAT || index
                < before.engine.last_applied {
                Some(DatabaseErrorKind::Corruption)
            } else {
                match before.engine.apply_problem(index, sha256(bytes), command.attempt) {
                    Some(error) => Some(DatabaseErrorKind::Engine(error)),
                    None => None,
                }
            },
        }
    }
}

/// What a change in the log answers: the rows that the first request of this
/// identity affected.
pub open spec fn replicated_answer(
    requests: RequestsView,
    command: ReplicatedMutationView,
    applied: ApplyOutcomeView,
    index: u64,
) -> std::result::Result<ExecutionResultView, DatabaseErrorKind> {
    let client = command.attempt.request.client_id;
    if applied is Applied || applied is Duplicate {
        if requests.contains_key(client) && requests[client].sequence
            == command.attempt.request.sequence && requests[client].fingerprint
            == command.fingerprint {
            outcome_answer(applied, requests[client].affected_rows, index)
        } else {
            Err(DatabaseErrorKind::Invariant)
        }
    } else {
        outcome_answer(applied, command.affected_rows, index)
    }
}

/// Applying a change at its place in the log. The last one may be applied
/// again; it changes nothing then.
pub open spec fn applies<S: FnOnce(&Engine, &DurableRequests) -> Result<()>>(
    persist: S,
    before: DatabaseView,
    after: DatabaseView,
    index: u64,
    bytes: Seq<u8>,
    decoded: Option<ReplicatedMutationView>,
    result: std::result::Result<ExecutionResultView, DatabaseErrorKind>,
) -> bool {
    match replicated_problem(before, index, bytes, decoded) {
        Some(error) => after == before && result == Err::<ExecutionResultView, DatabaseErrorKind>(
            error,
        ),
        None => {
            let command = decoded->0;
            let client = command.attempt.request.client_id;
            let sequence = command.attempt.request.sequence;
            exists|applied: ApplyOutcomeView, next: EngineView|
                {
                    &&& #[trigger] before.engine.applied_as(
                        index,
                        sha256(bytes),
                        command.fingerprint,
                        command.attempt,
                        applied,
                        next,
                    )
                    &&& if index == before.engine.last_applied {
                        &&& after == before
                        &&& result == if replay_agrees(
                            before.requests,
                            client,
                            sequence,
                            command.fingerprint,
                            command.affected_rows,
                            applied,
                        ) {
                            replicated_answer(before.requests, command, applied, index)
                        } else {
                            Err(DatabaseErrorKind::Corruption)
                        }
                    } else {
                        match requests_after(
                            before.requests,
                            applied,
                            client,
                            sequence,
                            command.fingerprint,
                            command.affected_rows,
                        ) {
                            Err(error) => after == before && result == Err::<
                                ExecutionResultView,
                                DatabaseErrorKind,
                            >(error),
                            Ok(requests) => publishes(
                                persist,
                                before,
                                next,
                                requests,
                                before.with(next, requests),
                                replicated_answer(requests, command, applied, index),
                                after,
                                result,
                            ),
                        }
                    }
                }
        },
    }
}

/// Applying a leader's no-op at its place in the log.
pub open spec fn applies_noop<S: FnOnce(&Engine, &DurableRequests) -> Result<()>>(
    persist: S,
    before: DatabaseView,
    after: DatabaseView,
    index: u64,
    term: u64,
    result: std::result::Result<(), DatabaseErrorKind>,
) -> bool {
    let hash = noop_hash(index, term);
    if index < before.engine.last_applied {
        after == before && result == Err::<(), DatabaseErrorKind>(DatabaseErrorKind::Corruption)
    } else {
        match before.engine.noop_problem(index, hash) {
            Some(error) => after == before && result == Err::<(), DatabaseErrorKind>(
                DatabaseErrorKind::Engine(error),
            ),
            None => if index == before.engine.last_applied {
                after == before && result == Ok::<(), DatabaseErrorKind>(())
            } else {
                let next = before.engine.recorded(index, hash, ApplyOutcomeView::Noop);
                publishes(
                    persist,
                    before,
                    next,
                    before.requests,
                    before.with(next, before.requests),
                    Ok(()),
                    after,
                    result,
                )
            },
        }
    }
}

/// Two engines hold the same, whichever transaction id either gives out next: ids
/// are given out without a change to the state.
pub open spec fn same_state(a: EngineView, b: EngineView) -> bool {
    (EngineSnapshotView { next_txn_id: 0, ..a.captured() }) == (EngineSnapshotView {
        next_txn_id: 0,
        ..b.captured()
    })
}

/// Taking on a state that a snapshot holds. The state at hand may be taken on
/// again; it changes nothing then.
pub open spec fn installs<S: FnOnce(&Engine, &DurableRequests) -> Result<()>>(
    persist: S,
    before: DatabaseView,
    after: DatabaseView,
    engine: EngineView,
    requests: RequestsView,
    result: std::result::Result<(), DatabaseErrorKind>,
) -> bool {
    if before.active.dom().len() > 0 {
        after == before && result == Err::<(), DatabaseErrorKind>(DatabaseErrorKind::ResourceLimit)
    } else if engine.last_applied < before.engine.last_applied {
        after == before && result == Err::<(), DatabaseErrorKind>(DatabaseErrorKind::Corruption)
    } else if engine.last_applied == before.engine.last_applied {
        &&& after == before
        &&& result == if same_state(engine, before.engine) && requests == before.requests {
            Ok::<(), DatabaseErrorKind>(())
        } else {
            Err(DatabaseErrorKind::Corruption)
        }
    } else {
        publishes(
            persist,
            before,
            engine,
            requests,
            before.with(engine, requests),
            Ok(()),
            after,
            result,
        )
    }
}

impl Database {
    #[verifier::type_invariant]
    spec fn kept(self) -> bool {
        self.deep_view().well_formed()
    }

    /// A database with the state that the storage holds.
    pub fn open_with_options(
        engine: Engine,
        requests: DurableRequests,
        options: DatabaseOptions,
    ) -> (result: Result<Database>)
        ensures
            outcome(result) == if options.max_active_transactions == 0 {
                Err::<DatabaseView, DatabaseErrorKind>(DatabaseErrorKind::ResourceLimit)
            } else if !requests_agree(engine.deep_view(), requests.deep_view()) {
                Err(DatabaseErrorKind::Corruption)
            } else {
                Ok(
                    DatabaseView {
                        engine: engine.deep_view(),
                        active: Map::empty(),
                        requests: requests.deep_view(),
                        max_active_transactions: options.max_active_transactions,
                    },
                )
            },
    {
        if options.max_active_transactions == 0 {
            return Err(
                DatabaseError::ResourceLimit(
                    "maximum active transaction count must be positive".to_owned(),
                ),
            );
        }
        if let Err(error) = validate_durable_requests(&engine, &requests) {
            return Err(error);
        }
        Ok(
            Database {
                state: DatabaseState::new(engine, requests, options.max_active_transactions),
            },
        )
    }

    fn take(&mut self) -> (state: DatabaseState)
        ensures
            state.content() == old(self).deep_view(),
            state.content().well_formed(),
    {
        proof {
            use_type_invariant(&*self);
        }
        let mut state = DatabaseState::vacant();
        std::mem::swap(&mut state, &mut self.state);
        state
    }

    /// A database with the state that the storage holds, and the usual limits.
    pub fn open(engine: Engine, requests: DurableRequests) -> (result: Result<Database>)
        ensures
            outcome(result) == if !requests_agree(engine.deep_view(), requests.deep_view()) {
                Err::<DatabaseView, DatabaseErrorKind>(DatabaseErrorKind::Corruption)
            } else {
                Ok(
                    DatabaseView {
                        engine: engine.deep_view(),
                        active: Map::empty(),
                        requests: requests.deep_view(),
                        max_active_transactions:
                            crate::db::results::DEFAULT_MAX_ACTIVE_TRANSACTIONS,
                    },
                )
            },
    {
        Database::open_with_options(engine, requests, DatabaseOptions::default())
    }

    pub fn engine(&self) -> (engine: &Engine)
        ensures
            engine.deep_view() == self.deep_view().engine,
    {
        &self.state.engine
    }

    pub fn requests(&self) -> (requests: &DurableRequests)
        ensures
            requests.deep_view() == self.deep_view().requests,
    {
        &self.state.requests
    }

    /// Starts a transaction.
    pub fn begin(&mut self) -> (result: Result<TransactionInfo>)
        ensures
            begins(old(self).deep_view(), final(self).deep_view(), outcome(result)),
            unbegun_words(old(self).deep_view()) matches Some(text) ==> (result matches Err(error)
                && error.shown() == text),
    {
        proof {
            use_type_invariant(&*self);
        }
        let ghost before = self.deep_view();
        if self.state.active.len() >= self.state.max_active_transactions {
            return Err(
                DatabaseError::ResourceLimit(
                    between(
                        "active transaction limit ",
                        &decimal_text(self.state.max_active_transactions as u64),
                        " reached",
                    ),
                ),
            );
        }
        let mut state = self.take();
        let transaction = match state.engine.begin() {
            Ok(transaction) => transaction,
            Err(error) => {
                self.state = state;
                return Err(engine_error(error));
            },
        };
        let id = transaction.id();
        let read_ts = transaction.read_ts();
        let reused = state.active.insert(id, transaction).is_some();
        assert(state.active.deep_view().dom() =~= before.active.dom().insert(id));
        assert(state.content().well_formed());
        self.state = state;
        if reused {
            return Err(
                DatabaseError::Invariant(
                    between("transaction id ", &decimal_text(id), " was reused while active"),
                ),
            );
        }
        Ok(TransactionInfo { transaction_id: id, read_ts })
    }

    /// Ends a transaction without a trace.
    pub fn rollback(&mut self, transaction_id: TxnId) -> (result: Result<()>)
        ensures
            rolls_back(
                old(self).deep_view(),
                final(self).deep_view(),
                transaction_id,
                outcome(result),
            ),
    {
        let ghost before = self.deep_view();
        let mut state = self.take();
        let found = state.active.remove(&transaction_id);
        assert(state.active.deep_view() =~= before.active.remove(transaction_id));
        assert(state.active.deep_view().dom() =~= before.active.dom().remove(transaction_id));
        assert(state.content().well_formed());
        self.state = state;
        match found {
            Some(transaction) => {
                transaction.rollback();
                Ok(())
            },
            None => {
                assert(before.active.remove(transaction_id) =~= before.active);
                Err(DatabaseError::TransactionNotFound(transaction_id))
            },
        }
    }

    /// The outcome of applying an attempt next, on a copy of the engine.
    fn try_attempt(&self, attempt: &TxnAttempt, fingerprint: &[u8; 32]) -> (result: Result<
        (Engine, ApplyOutcome),
    >)
        requires
            attempt.deep_view().canonical() is Ok,
        ensures
            match result {
                Ok((next, applied)) => attempt_problem(
                    self.deep_view().engine,
                    attempt.deep_view(),
                ) is None && attempt_applied(
                    self.deep_view().engine,
                    attempt.deep_view(),
                    fingerprint@,
                    applied.deep_view(),
                    next.deep_view(),
                ),
                Err(error) => attempt_problem(self.deep_view().engine, attempt.deep_view())
                    == Some(error.deep_view()),
            },
    {
        let command_hash = match attempt.command_hash() {
            Ok(hash) => hash,
            Err(error) => return Err(engine_error(error)),
        };
        let last: u64 = self.state.engine.last_applied();
        if last == u64::MAX {
            return Err(invariant_error("applied index overflow"));
        }
        let mut next = self.state.engine.clone();
        match next.apply_with_request_hash(last + 1, command_hash, *fingerprint, attempt) {
            Ok(applied) => Ok((next, applied)),
            Err(error) => Err(engine_error(error)),
        }
    }

    /// Asks the storage to keep a state, and takes the state on when it does.
    fn publish<S: FnOnce(&Engine, &DurableRequests) -> Result<()>>(
        &mut self,
        persist: S,
        engine: Engine,
        requests: DurableRequests,
    ) -> (result: Result<()>)
        requires
            storable(persist),
            old(self).deep_view().with(engine.deep_view(), requests.deep_view()).well_formed(),
        ensures
            stored_as(persist, engine.deep_view(), requests.deep_view(), outcome(result)),
            final(self).deep_view() == (if result is Ok {
                old(self).deep_view().with(engine.deep_view(), requests.deep_view())
            } else {
                old(self).deep_view()
            }),
    {
        let stored = persist(&engine, &requests);
        assert(stored_as(persist, engine.deep_view(), requests.deep_view(), outcome(stored)));
        if let Err(error) = stored {
            return Err(error);
        }
        let mut state = self.take();
        state.engine = engine;
        state.requests = requests;
        self.state = state;
        Ok(())
    }

    /// Commits a transaction. A retry of a commit whose answer was lost finds
    /// the answer among the kept requests.
    pub fn commit<S: FnOnce(&Engine, &DurableRequests) -> Result<()>>(
        &mut self,
        persist: S,
        client_id: [u8; 16],
        sequence: u64,
        transaction_id: TxnId,
    ) -> (result: Result<CommitInfo>)
        requires
            storable(persist),
        ensures
            commits(
                persist,
                old(self).deep_view(),
                final(self).deep_view(),
                client_id@,
                sequence,
                transaction_id,
                outcome(result),
            ),
    {
        proof {
            use_type_invariant(&*self);
        }
        let ghost before = self.deep_view();
        let fingerprint = commit_fingerprint(transaction_id);
        let transaction = match self.state.active.get(&transaction_id) {
            Some(transaction) => transaction.duplicate(),
            None => {
                return match replay_record(
                    &self.state.requests,
                    &client_id,
                    sequence,
                    &fingerprint,
                ) {
                    Err(error) => Err(error),
                    Ok(Some(record)) => commit_info_from_result(
                        &record.result,
                        self.state.engine.last_applied(),
                    ),
                    Ok(None) => Err(DatabaseError::TransactionNotFound(transaction_id)),
                };
            },
        };
        let affected_rows: u64 = transaction.write_count() as u64;
        let attempt = transaction.into_attempt(
            ClientRequestId { client_id, sequence },
            STANDALONE_LEADER_TERM,
        );
        let (next, applied) = match self.try_attempt(&attempt, &fingerprint) {
            Ok(found) => found,
            Err(error) => return Err(error),
        };
        let ghost next_view = next.deep_view();
        let requests = match record_outcome(
            &self.state.requests,
            &applied,
            &client_id,
            sequence,
            &fingerprint,
            affected_rows,
        ) {
            Ok(requests) => requests,
            Err(error) => return Err(error),
        };
        let ghost kept = requests.deep_view();
        let kept_count: usize = requests.len();
        let client_count: usize = next.client_count();
        proof {
            recording_keeps_agreement(
                before.engine,
                before.requests,
                (before.engine.last_applied + 1) as u64,
                sha256(attempt.deep_view().encoded()->Ok_0),
                fingerprint@,
                attempt.deep_view(),
                applied.deep_view(),
                next_view,
                affected_rows,
            );
        }
        if let Err(error) = self.publish(persist, next, requests) {
            return Err(error);
        }
        let applied_index: u64 = self.state.engine.last_applied();
        let result = match &applied {
            ApplyOutcome::Applied(result) => result,
            ApplyOutcome::Duplicate(result) => result,
            ApplyOutcome::Rejected(rejection) => {
                return Err(DatabaseError::RequestRejected(*rejection));
            },
            ApplyOutcome::Noop => {
                return Err(invariant_error("transaction commit produced a Raft no-op"));
            },
        };
        let mut state = self.take();
        state.active.remove(&transaction_id);
        assert(state.active.deep_view() =~= before.active.remove(transaction_id));
        assert(state.active.deep_view().dom() =~= before.active.dom().remove(transaction_id));
        assert(state.content().well_formed());
        self.state = state;
        commit_info_from_result(result, applied_index)
    }

    /// Executes a statement in a transaction. A statement that fails leaves the
    /// transaction as it was.
    pub fn execute_in_transaction<
        E: Fn(&BoundExpr, &Row, &Vec<Value>) -> std::result::Result<Value, SqlError>,
        P: Fn(&BoundExpr, &Row, &Vec<Value>) -> std::result::Result<bool, SqlError>,
        B: FnOnce(&EngineCatalog, &EngineCatalog) -> Result<Prepared>,
    >(
        &mut self,
        scalars: &Scalars<E, P>,
        bind: B,
        transaction_id: TxnId,
        parameters: &Vec<Value>,
    ) -> (result: Result<ExecutionResult>)
        requires
            scalars.sound(),
            bindable(bind),
        ensures
            runs(
                bind,
                scalars.meaning(),
                old(self).deep_view(),
                final(self).deep_view(),
                transaction_id,
                parameters.deep_view(),
                outcome(result),
            ),
    {
        proof {
            use_type_invariant(&*self);
        }
        let ghost before = self.deep_view();
        let mut staged = match self.state.active.get(&transaction_id) {
            Some(transaction) => transaction.duplicate(),
            None => return Err(DatabaseError::TransactionNotFound(transaction_id)),
        };
        let output = match prepare_and_execute_output(
            scalars,
            bind,
            &self.state.engine,
            &mut staged,
            parameters,
        ) {
            Ok(output) => output,
            Err(error) => return Err(error),
        };
        let applied_index: u64 = self.state.engine.last_applied();
        proof {
            executing_keeps_id::<B>(
                bind,
                before.engine,
                before.active[transaction_id],
                scalars.meaning(),
                parameters.deep_view(),
                staged.deep_view(),
                Ok(output.deep_view()),
            );
        }
        let mut state = self.take();
        state.active.insert(transaction_id, staged);
        assert(state.active.deep_view().dom() =~= before.active.dom().insert(transaction_id));
        assert(before.active.dom().insert(transaction_id) =~= before.active.dom());
        assert(state.content().well_formed());
        self.state = state;
        Ok(statement_output(output, applied_index))
    }

    /// Executes a statement on its own. What it changes is applied at the next
    /// index and kept by the storage before it is seen.
    pub fn execute_autocommit<
        E: Fn(&BoundExpr, &Row, &Vec<Value>) -> std::result::Result<Value, SqlError>,
        P: Fn(&BoundExpr, &Row, &Vec<Value>) -> std::result::Result<bool, SqlError>,
        B: FnOnce(&EngineCatalog, &EngineCatalog) -> Result<Prepared>,
        S: FnOnce(&Engine, &DurableRequests) -> Result<()>,
    >(
        &mut self,
        scalars: &Scalars<E, P>,
        bind: B,
        persist: S,
        kind: StatementKind,
        client_id: [u8; 16],
        sequence: u64,
        sql: &str,
        parameters: &Vec<Value>,
    ) -> (result: Result<ExecutionResult>)
        requires
            scalars.sound(),
            bindable(bind),
            storable(persist),
        ensures
            autocommits(
                bind,
                persist,
                scalars.meaning(),
                old(self).deep_view(),
                final(self).deep_view(),
                kind,
                client_id@,
                sequence,
                sql@,
                parameters.deep_view(),
                outcome(result),
            ),
    {
        proof {
            use_type_invariant(&*self);
        }
        let ghost before = self.deep_view();
        let fingerprint = match sql_fingerprint(sql, parameters) {
            Ok(fingerprint) => fingerprint,
            Err(error) => return Err(error),
        };
        if kind.is_mutating_statement() {
            match replay_record(&self.state.requests, &client_id, sequence, &fingerprint) {
                Err(error) => return Err(error),
                Ok(Some(record)) => {
                    return mutation_result_from_record(&record, self.state.engine.last_applied());
                },
                Ok(None) => {},
            }
        }
        let mut state = self.take();
        let mut transaction = match state.engine.begin() {
            Ok(transaction) => transaction,
            Err(error) => {
                self.state = state;
                return Err(engine_error(error));
            },
        };
        self.state = state;
        let ghost begun = self.deep_view();
        let output = match prepare_and_execute_output(
            scalars,
            bind,
            &self.state.engine,
            &mut transaction,
            parameters,
        ) {
            Ok(output) => output,
            Err(error) => return Err(error),
        };
        self.apply_staged(persist, transaction, output, client_id, sequence, &fingerprint)
    }

    fn apply_staged<S: FnOnce(&Engine, &DurableRequests) -> Result<()>>(
        &mut self,
        persist: S,
        transaction: Transaction,
        output: StatementOutput,
        client_id: [u8; 16],
        sequence: u64,
        fingerprint: &[u8; 32],
    ) -> (result: Result<ExecutionResult>)
        requires
            storable(persist),
        ensures
            autocommits_staged(
                persist,
                old(self).deep_view(),
                final(self).deep_view(),
                transaction.deep_view(),
                output.deep_view(),
                client_id@,
                sequence,
                fingerprint@,
                outcome(result),
            ),
    {
        proof {
            use_type_invariant(&*self);
        }
        let ghost begun = self.deep_view();
        if transaction.is_read_only() {
            return Ok(statement_output(output, self.state.engine.last_applied()));
        }
        let affected_rows: u64 = match &output {
            StatementOutput::Mutation { affected_rows } => *affected_rows as u64,
            _ => {
                return Err(invariant_error("read-only output unexpectedly staged a mutation"));
            },
        };
        let attempt = transaction.into_attempt(
            ClientRequestId { client_id, sequence },
            STANDALONE_LEADER_TERM,
        );
        let (next, applied) = match self.try_attempt(&attempt, fingerprint) {
            Ok(found) => found,
            Err(error) => return Err(error),
        };
        let ghost next_view = next.deep_view();
        let requests = match record_outcome(
            &self.state.requests,
            &applied,
            &client_id,
            sequence,
            fingerprint,
            affected_rows,
        ) {
            Ok(requests) => requests,
            Err(error) => return Err(error),
        };
        let kept_count: usize = requests.len();
        let client_count: usize = next.client_count();
        proof {
            recording_keeps_agreement(
                begun.engine,
                begun.requests,
                (begun.engine.last_applied + 1) as u64,
                sha256(attempt.deep_view().encoded()->Ok_0),
                fingerprint@,
                attempt.deep_view(),
                applied.deep_view(),
                next_view,
                affected_rows,
            );
        }
        if let Err(error) = self.publish(persist, next, requests) {
            return Err(error);
        }
        replicated_outcome(&applied, affected_rows, self.state.engine.last_applied())
    }

    /// Executes a statement: one that controls transactions, one in a
    /// transaction, or one on its own.
    pub fn execute<
        E: Fn(&BoundExpr, &Row, &Vec<Value>) -> std::result::Result<Value, SqlError>,
        P: Fn(&BoundExpr, &Row, &Vec<Value>) -> std::result::Result<bool, SqlError>,
        B: FnOnce(&EngineCatalog, &EngineCatalog) -> Result<Prepared>,
        S: FnOnce(&Engine, &DurableRequests) -> Result<()>,
    >(
        &mut self,
        scalars: &Scalars<E, P>,
        bind: B,
        persist: S,
        kind: StatementKind,
        client_id: [u8; 16],
        sequence: u64,
        transaction_id: Option<TxnId>,
        sql: &str,
        parameters: &Vec<Value>,
    ) -> (result: Result<ExecutionResult>)
        requires
            scalars.sound(),
            bindable(bind),
            storable(persist),
        ensures
            executes(
                bind,
                persist,
                scalars.meaning(),
                old(self).deep_view(),
                final(self).deep_view(),
                kind,
                client_id@,
                sequence,
                transaction_id,
                sql@,
                parameters.deep_view(),
                outcome(result),
            ),
            unexecuted_words(
                old(self).deep_view(),
                kind,
                transaction_id,
                parameters@.len(),
            ) matches Some(text) ==> (result matches Err(error) && error.shown() == text),
    {
        match route(kind, transaction_id, parameters.len()) {
            Err(error) => Err(error),
            Ok(Route::Begin) => match self.begin() {
                Ok(info) => Ok(ExecutionResult::Transaction(info)),
                Err(error) => Err(error),
            },
            Ok(Route::Commit(id)) => match self.commit(persist, client_id, sequence, id) {
                Ok(info) => Ok(ExecutionResult::Committed(info)),
                Err(error) => Err(error),
            },
            Ok(Route::Rollback(id)) => match self.rollback(id) {
                Ok(()) => Ok(ExecutionResult::RolledBack),
                Err(error) => Err(error),
            },
            Ok(Route::InTransaction(id)) => self.execute_in_transaction(
                scalars,
                bind,
                id,
                parameters,
            ),
            Ok(Route::Autocommit) => self.execute_autocommit(
                scalars,
                bind,
                persist,
                kind,
                client_id,
                sequence,
                sql,
                parameters,
            ),
        }
    }

    /// Executes a query or an explanation. Everything else is refused, so that
    /// no change goes round the log.
    pub fn execute_read_only<
        E: Fn(&BoundExpr, &Row, &Vec<Value>) -> std::result::Result<Value, SqlError>,
        P: Fn(&BoundExpr, &Row, &Vec<Value>) -> std::result::Result<bool, SqlError>,
        B: FnOnce(&EngineCatalog, &EngineCatalog) -> Result<Prepared>,
        S: FnOnce(&Engine, &DurableRequests) -> Result<()>,
    >(
        &mut self,
        scalars: &Scalars<E, P>,
        bind: B,
        persist: S,
        kind: StatementKind,
        client_id: [u8; 16],
        sequence: u64,
        sql: &str,
        parameters: &Vec<Value>,
    ) -> (result: Result<ExecutionResult>)
        requires
            scalars.sound(),
            bindable(bind),
            storable(persist),
        ensures
            if kind == StatementKind::Select || kind == StatementKind::Explain {
                autocommits(
                    bind,
                    persist,
                    scalars.meaning(),
                    old(self).deep_view(),
                    final(self).deep_view(),
                    kind,
                    client_id@,
                    sequence,
                    sql@,
                    parameters.deep_view(),
                    outcome(result),
                )
            } else {
                final(self).deep_view() == old(self).deep_view() && outcome(result) == Err::<
                    ExecutionResultView,
                    DatabaseErrorKind,
                >(DatabaseErrorKind::TransactionControl)
            },
    {
        if !kind.is_read() {
            return Err(
                DatabaseError::TransactionControl(
                    "linearizable read path accepts SELECT or EXPLAIN only".to_owned(),
                ),
            );
        }
        self.execute_autocommit(
            scalars,
            bind,
            persist,
            kind,
            client_id,
            sequence,
            sql,
            parameters,
        )
    }

    /// Applies a leader's no-op at its place in the log, so that timestamps and
    /// log indexes stay the same.
    pub fn apply_raft_noop<S: FnOnce(&Engine, &DurableRequests) -> Result<()>>(
        &mut self,
        persist: S,
        index: u64,
        term: u64,
    ) -> (result: Result<()>)
        requires
            storable(persist),
        ensures
            applies_noop(
                persist,
                old(self).deep_view(),
                final(self).deep_view(),
                index,
                term,
                outcome(result),
            ),
    {
        proof {
            use_type_invariant(&*self);
        }
        let hash = raft_noop_hash(index, term);
        let last: u64 = self.state.engine.last_applied();
        if index < last {
            return Err(
                DatabaseError::Corruption(
                    message(
                        &[
                            "Raft no-op index ",
                            &decimal_text(index),
                            " is behind durable database index ",
                            &decimal_text(last),
                        ],
                    ),
                ),
            );
        }
        let mut next = self.state.engine.clone();
        if let Err(error) = next.apply_noop(index, hash) {
            return Err(engine_error(error));
        }
        if index > last {
            let requests = self.state.requests.duplicate();
            return self.publish(persist, next, requests);
        }
        Ok(())
    }

    /// Applies a change at its place in the log. `decoded` is what the bytes
    /// say, `None` where they say nothing. The last change may be applied again.
    pub fn apply_replicated<S: FnOnce(&Engine, &DurableRequests) -> Result<()>>(
        &mut self,
        persist: S,
        index: u64,
        bytes: &Vec<u8>,
        decoded: Option<ReplicatedMutation>,
    ) -> (result: Result<ExecutionResult>)
        requires
            storable(persist),
        ensures
            applies(
                persist,
                old(self).deep_view(),
                final(self).deep_view(),
                index,
                bytes@,
                decoded.deep_view(),
                outcome(result),
            ),
    {
        proof {
            use_type_invariant(&*self);
        }
        let ghost before = self.deep_view();
        if bytes.len() > MAX_REPLICATED_COMMAND_BYTES {
            return Err(command_too_long(bytes.len()));
        }
        let command = match decoded {
            Some(command) => command,
            None => return Err(corruption("replicated command decode failed")),
        };
        if command.format != REPLICATED_MUTATION_FORMAT {
            return Err(
                DatabaseError::Corruption(
                    message(
                        &[
                            "unsupported replicated command format ",
                            &decimal_text(command.format as u64),
                        ],
                    ),
                ),
            );
        }
        let request = command.attempt.request();
        let client_id: [u8; 16] = request.client_id;
        let sequence: u64 = request.sequence;
        let apply_hash = sha256_digest(bytes.as_slice());
        let last: u64 = self.state.engine.last_applied();
        if index < last {
            return Err(
                DatabaseError::Corruption(
                    message(
                        &[
                            "replicated apply index ",
                            &decimal_text(index),
                            " is behind durable database index ",
                            &decimal_text(last),
                        ],
                    ),
                ),
            );
        }
        let mut next = self.state.engine.clone();
        let applied = match next.apply_with_request_hash(
            index,
            apply_hash,
            command.fingerprint,
            &command.attempt,
        ) {
            Ok(applied) => applied,
            Err(error) => return Err(engine_error(error)),
        };
        let ghost next_view = next.deep_view();
        if index == last {
            if let Err(error) = validate_durable_replay(
                &self.state.requests,
                &client_id,
                sequence,
                &command.fingerprint,
                command.affected_rows,
                &applied,
            ) {
                return Err(error);
            }
        } else {
            let requests = match record_outcome(
                &self.state.requests,
                &applied,
                &client_id,
                sequence,
                &command.fingerprint,
                command.affected_rows,
            ) {
                Ok(requests) => requests,
                Err(error) => return Err(error),
            };
            let kept_count: usize = requests.len();
            let client_count: usize = next.client_count();
            proof {
                recording_keeps_agreement(
                    before.engine,
                    before.requests,
                    index,
                    apply_hash@,
                    command.fingerprint@,
                    command.attempt.deep_view(),
                    applied.deep_view(),
                    next_view,
                    command.affected_rows,
                );
            }
            if let Err(error) = self.publish(persist, next, requests) {
                return Err(error);
            }
        }
        let succeeded = match &applied {
            ApplyOutcome::Applied(_) => true,
            ApplyOutcome::Duplicate(_) => true,
            _ => false,
        };
        let affected_rows: u64 = if succeeded {
            let recorded: Option<u64> = match self.state.requests.get(&client_id) {
                Some(record) => if record.sequence == sequence && record.fingerprint.same(
                    &command.fingerprint,
                ) {
                    Some(record.affected_rows)
                } else {
                    None
                },
                None => None,
            };
            match recorded {
                Some(rows) => rows,
                None => {
                    return Err(
                        invariant_error(
                            "successful replicated apply has no matching durable request record",
                        ),
                    );
                },
            }
        } else {
            command.affected_rows
        };
        replicated_outcome(&applied, affected_rows, index)
    }
}

/// Any command can be written down.
pub open spec fn writable<C: FnOnce(&ReplicatedMutation) -> Result<Vec<u8>>>(encode: C) -> bool {
    forall|command: &ReplicatedMutation| #[trigger] call_requires(encode, (command,))
}

/// A command was given to be written down, and this came back.
pub open spec fn written_as<C: FnOnce(&ReplicatedMutation) -> Result<Vec<u8>>>(
    encode: C,
    command: ReplicatedMutationView,
    answer: std::result::Result<Seq<u8>, DatabaseErrorKind>,
) -> bool {
    exists|c: ReplicatedMutation, returned: Result<Vec<u8>>|
        c.deep_view() == command && #[trigger] call_ensures(encode, (&c,), returned) && outcome(
            returned,
        ) == answer
}

/// Preparing a change for the log. Nothing here changes; a request that has
/// been applied before is answered at once.
pub open spec fn prepares<
    B: FnOnce(&EngineCatalog, &EngineCatalog) -> Result<Prepared>,
    C: FnOnce(&ReplicatedMutation) -> Result<Vec<u8>>,
>(
    bind: B,
    encode: C,
    meaning: Meaning,
    state: DatabaseView,
    kind: StatementKind,
    leader_term: u64,
    client: Seq<u8>,
    sequence: u64,
    sql: Seq<char>,
    parameters: Seq<ValueView>,
    result: std::result::Result<MutationPreparationView, DatabaseErrorKind>,
) -> bool {
    if !kind.mutating() {
        result == Err::<MutationPreparationView, DatabaseErrorKind>(
            DatabaseErrorKind::TransactionControl,
        )
    } else {
        match statement_fingerprint(sql, parameters) {
            Err(error) => result == Err::<MutationPreparationView, DatabaseErrorKind>(error),
            Ok(fingerprint) => match replayed(state.requests, client, sequence, fingerprint) {
                Err(error) => result == Err::<MutationPreparationView, DatabaseErrorKind>(error),
                Ok(Some(record)) => result == match replay_answer(
                    record,
                    state.engine.last_applied,
                ) {
                    Ok(answer) => Ok(MutationPreparationView::Replay(answer)),
                    Err(error) => Err(error),
                },
                Ok(None) => {
                    let transaction = TransactionView::started(
                        0,
                        state.engine.last_applied,
                        state.engine.catalog.schema_epoch,
                    );
                    exists|bound: std::result::Result<PreparedView, DatabaseErrorKind>| #[trigger]
                        bound_as(bind, state.engine, transaction, bound) && {
                            let (staged, output) = prepared_executed(
                                state.engine,
                                transaction,
                                meaning,
                                bound,
                                parameters,
                            );
                            match output {
                                Err(error) => result == Err::<
                                    MutationPreparationView,
                                    DatabaseErrorKind,
                                >(error),
                                Ok(StatementOutputView::Mutation { affected_rows }) => {
                                    let command = ReplicatedMutationView {
                                        format: REPLICATED_MUTATION_FORMAT,
                                        attempt: staged.attempt(
                                            ClientRequestIdView { client_id: client, sequence },
                                            leader_term,
                                        ),
                                        fingerprint,
                                        affected_rows: affected_rows as u64,
                                    };
                                    exists|
                                        bytes: std::result::Result<Seq<u8>, DatabaseErrorKind>,
                                    |
                                        #[trigger] written_as(encode, command, bytes) && result
                                            == match bytes {
                                            Err(error) => Err(error),
                                            Ok(bytes) => if bytes.len()
                                                > MAX_REPLICATED_COMMAND_BYTES {
                                                Err(DatabaseErrorKind::ResourceLimit)
                                            } else {
                                                Ok(
                                                    MutationPreparationView::Propose(
                                                        PreparedMutationView { bytes },
                                                    ),
                                                )
                                            },
                                        }
                                },
                                Ok(_) => result == Err::<
                                    MutationPreparationView,
                                    DatabaseErrorKind,
                                >(DatabaseErrorKind::Invariant),
                            }
                        }
                },
            },
        }
    }
}

/// The requests that the first `n` entries of a snapshot keep.
pub open spec fn snapshot_requests(entries: Seq<DatabaseSnapshotRequestView>, n: int) -> Option<
    RequestsView,
>
    decreases n,
{
    if n <= 0 {
        Some(Map::empty())
    } else {
        match snapshot_requests(entries, n - 1) {
            None => None,
            Some(requests) => if requests.contains_key(entries[n - 1].client_id) {
                None
            } else {
                Some(requests.insert(entries[n - 1].client_id, entries[n - 1].record))
            },
        }
    }
}

proof fn snapshot_requests_stop(entries: Seq<DatabaseSnapshotRequestView>, m: int, n: int)
    requires
        0 <= m <= n,
        snapshot_requests(entries, m) is None,
    ensures
        snapshot_requests(entries, n) is None,
    decreases n,
{
    if m < n {
        snapshot_requests_stop(entries, m, n - 1);
    }
}

/// The state that a snapshot holds, given its length in bytes and what the
/// bytes say.
pub open spec fn snapshot_state(length: nat, decoded: Option<DatabaseSnapshotEnvelopeView>) -> std::result::Result<
    (EngineView, RequestsView),
    DatabaseErrorKind,
> {
    if length == 0 || length > MAX_SNAPSHOT_BYTES {
        Err(DatabaseErrorKind::ResourceLimit)
    } else {
        match decoded {
            None => Err(DatabaseErrorKind::Corruption),
            Some(envelope) => if envelope.format != DATABASE_SNAPSHOT_FORMAT {
                Err(DatabaseErrorKind::Corruption)
            } else {
                match envelope.engine.restored() {
                    Err(error) => Err(DatabaseErrorKind::Engine(error)),
                    Ok(engine) => match snapshot_requests(
                        envelope.requests,
                        envelope.requests.len() as int,
                    ) {
                        Some(requests) => if requests_agree(engine, requests) {
                            Ok((engine, requests))
                        } else {
                            Err(DatabaseErrorKind::Corruption)
                        },
                        None => Err(DatabaseErrorKind::Corruption),
                    },
                }
            },
        }
    }
}

fn requests_of(entries: &Vec<DatabaseSnapshotRequest>) -> (result: Result<DurableRequests>)
    ensures
        outcome(result) == match snapshot_requests(entries.deep_view(), entries@.len() as int) {
            Some(requests) => Ok::<RequestsView, DatabaseErrorKind>(requests),
            None => Err(DatabaseErrorKind::Corruption),
        },
{
    let ghost view = entries.deep_view();
    let mut requests: DurableRequests = OrdMap::new();
    let mut i: usize = 0;
    while i < entries.len()
        invariant
            i <= entries@.len(),
            view == entries.deep_view(),
            snapshot_requests(view, i as int) == Some(requests.deep_view()),
        decreases entries@.len() - i,
    {
        assert(view[i as int] == entries@[i as int].deep_view());
        let record = entries[i].record.duplicate();
        if requests.insert(entries[i].client_id, record).is_some() {
            proof {
                snapshot_requests_stop(view, i + 1, view.len() as int);
            }
            return Err(corruption("database snapshot contains a duplicate client record"));
        }
        i = i + 1;
    }
    Ok(requests)
}

/// The state that a snapshot holds, given its length in bytes and what the
/// bytes say.
pub fn decode_database_snapshot(length: usize, decoded: Option<DatabaseSnapshotEnvelope>) -> (result:
    Result<(Engine, DurableRequests)>)
    ensures
        match result {
            Ok((engine, requests)) => snapshot_state(length as nat, decoded.deep_view()) == Ok::<
                (EngineView, RequestsView),
                DatabaseErrorKind,
            >((engine.deep_view(), requests.deep_view())),
            Err(error) => snapshot_state(length as nat, decoded.deep_view()) == Err::<
                (EngineView, RequestsView),
                DatabaseErrorKind,
            >(error.deep_view()),
        },
{
    if length == 0 || length > MAX_SNAPSHOT_BYTES {
        return Err(
            DatabaseError::ResourceLimit(
                message(
                    &[
                        "database snapshot length ",
                        &decimal_text(length as u64),
                        " is outside 1..=",
                        &decimal_text(MAX_SNAPSHOT_BYTES as u64),
                        " bytes",
                    ],
                ),
            ),
        );
    }
    let envelope = match decoded {
        Some(envelope) => envelope,
        None => return Err(corruption("database snapshot decode failed")),
    };
    if envelope.format != DATABASE_SNAPSHOT_FORMAT {
        return Err(
            DatabaseError::Corruption(
                message(
                    &[
                        "unsupported database snapshot format ",
                        &decimal_text(envelope.format as u64),
                    ],
                ),
            ),
        );
    }
    let entries = envelope.requests;
    let engine = match Engine::from_snapshot(envelope.engine) {
        Ok(engine) => engine,
        Err(error) => return Err(engine_error(error)),
    };
    let requests = match requests_of(&entries) {
        Ok(requests) => requests,
        Err(error) => return Err(error),
    };
    match validate_durable_requests(&engine, &requests) {
        Ok(()) => Ok((engine, requests)),
        Err(error) => Err(error),
    }
}

/// The entries of a snapshot that keep requests, by client.
pub open spec fn request_entries(requests: RequestsView) -> Seq<DatabaseSnapshotRequestView> {
    let clients = ordered::<[u8; 16]>(requests.dom());
    Seq::new(
        clients.len(),
        |i: int|
            DatabaseSnapshotRequestView { client_id: clients[i], record: requests[clients[i]] },
    )
}

/// The parts of the snapshot of a state.
pub open spec fn snapshot_parts(state: DatabaseView) -> DatabaseSnapshotEnvelopeView {
    DatabaseSnapshotEnvelopeView {
        format: DATABASE_SNAPSHOT_FORMAT,
        engine: state.engine.captured(),
        requests: request_entries(state.requests),
    }
}

/// Any snapshot can be written down.
pub open spec fn envelope_writable<C: FnOnce(&DatabaseSnapshotEnvelope) -> Result<Vec<u8>>>(
    encode: C,
) -> bool {
    forall|envelope: &DatabaseSnapshotEnvelope| #[trigger] call_requires(encode, (envelope,))
}

/// A snapshot was given to be written down, and this came back.
pub open spec fn envelope_written_as<C: FnOnce(&DatabaseSnapshotEnvelope) -> Result<Vec<u8>>>(
    encode: C,
    envelope: DatabaseSnapshotEnvelopeView,
    answer: std::result::Result<Seq<u8>, DatabaseErrorKind>,
) -> bool {
    exists|e: DatabaseSnapshotEnvelope, returned: Result<Vec<u8>>|
        e.deep_view() == envelope && #[trigger] call_ensures(encode, (&e,), returned) && outcome(
            returned,
        ) == answer
}

/// The storage made a checkpoint, and gave this answer.
pub open spec fn checkpointed_as<K: FnOnce() -> Result<u64>>(
    checkpoint: K,
    answer: std::result::Result<u64, DatabaseErrorKind>,
) -> bool {
    exists|returned: Result<u64>| #[trigger] call_ensures(checkpoint, (), returned) && outcome(
        returned,
    ) == answer
}

/// Making a snapshot: the storage makes a checkpoint first, at the index that
/// is applied here, and no transaction may be active.
pub open spec fn snapshots<
    K: FnOnce() -> Result<u64>,
    C: FnOnce(&DatabaseSnapshotEnvelope) -> Result<Vec<u8>>,
>(
    checkpoint: K,
    encode: C,
    state: DatabaseView,
    result: std::result::Result<DatabaseSnapshotView, DatabaseErrorKind>,
) -> bool {
    if state.active.dom().len() > 0 {
        result == Err::<DatabaseSnapshotView, DatabaseErrorKind>(DatabaseErrorKind::ResourceLimit)
    } else {
        exists|durable: std::result::Result<u64, DatabaseErrorKind>| #[trigger]
            checkpointed_as(checkpoint, durable) && match durable {
                Err(error) => result == Err::<DatabaseSnapshotView, DatabaseErrorKind>(error),
                Ok(index) => match state.engine.last_apply_hash {
                    Some(hash) if index == state.engine.last_applied => exists|
                        bytes: std::result::Result<Seq<u8>, DatabaseErrorKind>,
                    |
                        #[trigger] envelope_written_as(encode, snapshot_parts(state), bytes)
                            && result == match bytes {
                            Err(error) => Err(error),
                            Ok(bytes) => if bytes.len() > MAX_SNAPSHOT_BYTES {
                                Err(DatabaseErrorKind::ResourceLimit)
                            } else {
                                Ok(
                                    DatabaseSnapshotView {
                                        applied_index: state.engine.last_applied,
                                        state_hash: hash,
                                        bytes,
                                    },
                                )
                            },
                        },
                    _ => result == Err::<DatabaseSnapshotView, DatabaseErrorKind>(
                        DatabaseErrorKind::Invariant,
                    ),
                },
            }
    }
}

impl Database {
    /// Prepares a change for the log. Nothing here changes.
    pub fn prepare_replicated_mutation<
        E: Fn(&BoundExpr, &Row, &Vec<Value>) -> std::result::Result<Value, SqlError>,
        P: Fn(&BoundExpr, &Row, &Vec<Value>) -> std::result::Result<bool, SqlError>,
        B: FnOnce(&EngineCatalog, &EngineCatalog) -> Result<Prepared>,
        C: FnOnce(&ReplicatedMutation) -> Result<Vec<u8>>,
    >(
        &self,
        scalars: &Scalars<E, P>,
        bind: B,
        encode: C,
        kind: StatementKind,
        leader_term: u64,
        client_id: [u8; 16],
        sequence: u64,
        sql: &str,
        parameters: &Vec<Value>,
    ) -> (result: Result<MutationPreparation>)
        requires
            scalars.sound(),
            bindable(bind),
            writable(encode),
        ensures
            prepares(
                bind,
                encode,
                scalars.meaning(),
                self.deep_view(),
                kind,
                leader_term,
                client_id@,
                sequence,
                sql@,
                parameters.deep_view(),
                outcome(result),
            ),
    {
        if !kind.is_mutating_statement() {
            return Err(
                DatabaseError::TransactionControl(
                    "replicated proposals accept autocommit DDL/DML only".to_owned(),
                ),
            );
        }
        let fingerprint = match sql_fingerprint(sql, parameters) {
            Ok(fingerprint) => fingerprint,
            Err(error) => return Err(error),
        };
        match replay_record(&self.state.requests, &client_id, sequence, &fingerprint) {
            Err(error) => return Err(error),
            Ok(Some(record)) => {
                return match mutation_result_from_record(
                    &record,
                    self.state.engine.last_applied(),
                ) {
                    Ok(answer) => Ok(MutationPreparation::Replay(answer)),
                    Err(error) => Err(error),
                };
            },
            Ok(None) => {},
        }
        let mut transaction = match self.state.engine.prepare_transaction() {
            Ok(transaction) => transaction,
            Err(error) => return Err(engine_error(error)),
        };
        let output = match prepare_and_execute_output(
            scalars,
            bind,
            &self.state.engine,
            &mut transaction,
            parameters,
        ) {
            Ok(output) => output,
            Err(error) => return Err(error),
        };
        let affected_rows: u64 = match output {
            StatementOutput::Mutation { affected_rows } => affected_rows as u64,
            _ => {
                return Err(invariant_error("replicated mutation prepared a non-mutation output"));
            },
        };
        let attempt = transaction.into_attempt(
            ClientRequestId { client_id, sequence },
            leader_term,
        );
        let command = ReplicatedMutation {
            format: REPLICATED_MUTATION_FORMAT,
            attempt,
            fingerprint,
            affected_rows,
        };
        let written = encode(&command);
        assert(written_as(encode, command.deep_view(), outcome(written)));
        match written {
            Ok(bytes) => {
                assert(bytes.deep_view() =~= bytes@);
                match PreparedMutation::new(bytes) {
                    Ok(prepared) => Ok(MutationPreparation::Propose(prepared)),
                    Err(error) => Err(error),
                }
            },
            Err(error) => Err(error),
        }
    }

    /// Makes a snapshot after a checkpoint at the same index.
    pub fn create_snapshot<
        K: FnOnce() -> Result<u64>,
        C: FnOnce(&DatabaseSnapshotEnvelope) -> Result<Vec<u8>>,
    >(&self, checkpoint: K, encode: C) -> (result: Result<DatabaseSnapshot>)
        requires
            call_requires(checkpoint, ()),
            envelope_writable(encode),
        ensures
            snapshots(checkpoint, encode, self.deep_view(), outcome(result)),
    {
        proof {
            use_type_invariant(self);
        }
        if self.state.active.len() > 0 {
            return Err(
                DatabaseError::ResourceLimit(
                    "cannot snapshot while explicit transactions are active".to_owned(),
                ),
            );
        }
        let durable = checkpoint();
        assert(checkpointed_as(checkpoint, outcome(durable)));
        let index: u64 = match durable {
            Ok(index) => index,
            Err(error) => return Err(error),
        };
        if index != self.state.engine.last_applied() {
            return Err(
                invariant_error("snapshot checkpoint disagrees with engine applied index"),
            );
        }
        let state_hash = match self.state.engine.last_apply_hash() {
            Some(hash) => hash,
            None => {
                return Err(invariant_error("cannot snapshot the unapplied genesis state"));
            },
        };
        let envelope = DatabaseSnapshotEnvelope {
            format: DATABASE_SNAPSHOT_FORMAT,
            engine: self.state.engine.snapshot(),
            requests: self.listed_requests(),
        };
        let written = encode(&envelope);
        assert(envelope_written_as(encode, envelope.deep_view(), outcome(written)));
        match written {
            Ok(bytes) => {
                assert(bytes.deep_view() =~= bytes@);
                DatabaseSnapshot::new(index, state_hash, bytes)
            },
            Err(error) => Err(error),
        }
    }

    fn listed_requests(&self) -> (entries: Vec<DatabaseSnapshotRequest>)
        ensures
            entries.deep_view() == request_entries(self.deep_view().requests),
    {
        let requests = &self.state.requests;
        let ghost wanted = request_entries(self.deep_view().requests);
        let count: usize = requests.len();
        let mut entries: Vec<DatabaseSnapshotRequest> = Vec::with_capacity(count);
        let mut i: usize = 0;
        while i < count
            invariant
                i <= count,
                count == requests.keys().len(),
                wanted == request_entries(requests.deep_view()),
                entries@.len() == i,
                forall|j: int| 0 <= j < i ==> (#[trigger] entries@[j]).deep_view() == wanted[j],
            decreases count - i,
        {
            let client_id: [u8; 16] = *requests.key_at(i);
            let record = requests.value_at(i).duplicate();
            entries.push(DatabaseSnapshotRequest { client_id, record });
            i = i + 1;
        }
        assert(entries.deep_view() =~= wanted);
        entries
    }

    fn install_decoded_snapshot<S: FnOnce(&Engine, &DurableRequests) -> Result<()>>(
        &mut self,
        persist: S,
        engine: Engine,
        requests: DurableRequests,
    ) -> (result: Result<()>)
        requires
            storable(persist),
            requests_agree(engine.deep_view(), requests.deep_view()),
        ensures
            installs(
                persist,
                old(self).deep_view(),
                final(self).deep_view(),
                engine.deep_view(),
                requests.deep_view(),
                outcome(result),
            ),
    {
        proof {
            use_type_invariant(&*self);
        }
        if self.state.active.len() > 0 {
            return Err(
                DatabaseError::ResourceLimit(
                    "cannot install a snapshot while explicit transactions are active".to_owned(),
                ),
            );
        }
        let index: u64 = engine.last_applied();
        let local: u64 = self.state.engine.last_applied();
        if index < local {
            return Err(
                DatabaseError::Corruption(
                    message(
                        &[
                            "snapshot index ",
                            &decimal_text(index),
                            " is behind local database index ",
                            &decimal_text(local),
                        ],
                    ),
                ),
            );
        }
        if index == local {
            let mut given = engine.snapshot();
            let mut held = self.state.engine.snapshot();
            given.next_txn_id = 0;
            held.next_txn_id = 0;
            if !given.same(&held) || !requests.same(&self.state.requests) {
                return Err(corruption("snapshot at the local applied index has different state"));
            }
            return Ok(());
        }
        let kept_count: usize = requests.len();
        let client_count: usize = engine.client_count();
        self.publish(persist, engine, requests)
    }

    /// Takes on the state that a snapshot holds, given its length in bytes and
    /// what the bytes say.
    pub fn install_snapshot<S: FnOnce(&Engine, &DurableRequests) -> Result<()>>(
        &mut self,
        persist: S,
        length: usize,
        decoded: Option<DatabaseSnapshotEnvelope>,
    ) -> (result: Result<()>)
        requires
            storable(persist),
        ensures
            match snapshot_state(length as nat, decoded.deep_view()) {
                Err(error) => final(self).deep_view() == old(self).deep_view() && outcome(result)
                    == Err::<(), DatabaseErrorKind>(error),
                Ok((engine, requests)) => installs(
                    persist,
                    old(self).deep_view(),
                    final(self).deep_view(),
                    engine,
                    requests,
                    outcome(result),
                ),
            },
    {
        match decode_database_snapshot(length, decoded) {
            Ok((engine, requests)) => self.install_decoded_snapshot(persist, engine, requests),
            Err(error) => Err(error),
        }
    }

    /// Takes on the state that a snapshot holds, if it is the state at the index
    /// that is expected. This is looked at before the storage is asked.
    pub fn install_snapshot_at<S: FnOnce(&Engine, &DurableRequests) -> Result<()>>(
        &mut self,
        persist: S,
        expected_index: u64,
        length: usize,
        decoded: Option<DatabaseSnapshotEnvelope>,
    ) -> (result: Result<()>)
        requires
            storable(persist),
        ensures
            match snapshot_state(length as nat, decoded.deep_view()) {
                Err(error) => final(self).deep_view() == old(self).deep_view() && outcome(result)
                    == Err::<(), DatabaseErrorKind>(error),
                Ok((engine, requests)) => if engine.last_applied != expected_index {
                    final(self).deep_view() == old(self).deep_view() && outcome(result) == Err::<
                        (),
                        DatabaseErrorKind,
                    >(DatabaseErrorKind::Corruption)
                } else {
                    installs(
                        persist,
                        old(self).deep_view(),
                        final(self).deep_view(),
                        engine,
                        requests,
                        outcome(result),
                    )
                },
            },
    {
        match decode_database_snapshot(length, decoded) {
            Ok((engine, requests)) => {
                if engine.last_applied() != expected_index {
                    return Err(
                        DatabaseError::Corruption(
                            message(
                                &[
                                    "database snapshot index ",
                                    &decimal_text(engine.last_applied()),
                                    " disagrees with Raft boundary ",
                                    &decimal_text(expected_index),
                                ],
                            ),
                        ),
                    );
                }
                self.install_decoded_snapshot(persist, engine, requests)
            },
            Err(error) => Err(error),
        }
    }

    /// A checkpoint that the storage has made, if it is at the index that is
    /// applied here.
    pub fn checkpoint(&self, durable: CheckpointInfo) -> (result: Result<CheckpointInfo>)
        ensures
            outcome(result) == if durable.applied_index != self.deep_view().engine.last_applied {
                Err::<CheckpointInfo, DatabaseErrorKind>(DatabaseErrorKind::Invariant)
            } else {
                Ok(durable)
            },
    {
        if durable.applied_index != self.state.engine.last_applied() {
            return Err(
                DatabaseError::Invariant(
                    message(
                        &[
                            "checkpoint index ",
                            &decimal_text(durable.applied_index),
                            " disagrees with engine ",
                            &decimal_text(self.state.engine.last_applied()),
                        ],
                    ),
                ),
            );
        }
        Ok(durable)
    }

    /// What the database says of itself, given what the storage says.
    pub fn status(&self, storage: StorageStatus) -> (result: Result<DatabaseStatus>)
        ensures
            outcome(result) == if storage.applied_index != self.deep_view().engine.last_applied {
                Err::<DatabaseStatus, DatabaseErrorKind>(DatabaseErrorKind::Invariant)
            } else {
                Ok(
                    DatabaseStatus {
                        applied_index: self.deep_view().engine.last_applied,
                        schema_epoch: self.deep_view().engine.catalog.schema_epoch,
                        retained_floor: self.deep_view().engine.retained_floor,
                        active_transactions: self.deep_view().active.dom().len() as u64,
                        database_pages: storage.database_pages,
                        wal_bytes: storage.wal_bytes,
                        checkpoint_lsn: storage.checkpoint_lsn,
                        root_page: storage.root_page,
                        recovery_groups_examined: storage.recovery_groups_examined,
                        recovery_groups_replayed: storage.recovery_groups_replayed,
                        recovery_pages_replayed: storage.recovery_pages_replayed,
                    },
                )
            },
            result matches Err(error) ==> error.shown() == status_words(),
    {
        if self.state.engine.last_applied() != storage.applied_index {
            return Err(
                invariant_error("shared engine and durable pager have different applied indices"),
            );
        }
        Ok(
            DatabaseStatus {
                applied_index: self.state.engine.last_applied(),
                schema_epoch: self.state.engine.catalog().schema_epoch(),
                retained_floor: self.state.engine.retained_floor(),
                active_transactions: self.state.active.len() as u64,
                database_pages: storage.database_pages,
                wal_bytes: storage.wal_bytes,
                checkpoint_lsn: storage.checkpoint_lsn,
                root_page: storage.root_page,
                recovery_groups_examined: storage.recovery_groups_examined,
                recovery_groups_replayed: storage.recovery_groups_replayed,
                recovery_pages_replayed: storage.recovery_pages_replayed,
            },
        )
    }
}

/// How it reads that the storage and the engine are not at the same index.
pub open spec fn status_words() -> Seq<char> {
    "internal database invariant failed: "@
        + "shared engine and durable pager have different applied indices"@
}

/// How it reads that a statement is not executed, where the database decides before it is
/// bound.
pub open spec fn unexecuted_words(
    before: DatabaseView,
    kind: StatementKind,
    transaction_id: Option<TxnId>,
    parameters: nat,
) -> Option<Seq<char>> {
    match routed(kind, transaction_id, parameters) {
        Err(_) => Some(
            "invalid transaction control: "@ + unrouted_words(kind, transaction_id, parameters),
        ),
        Ok(Route::Begin) => unbegun_words(before),
        Ok(_) => None,
    }
}

/// Executing a statement.
pub open spec fn executes<
    B: FnOnce(&EngineCatalog, &EngineCatalog) -> Result<Prepared>,
    S: FnOnce(&Engine, &DurableRequests) -> Result<()>,
>(
    bind: B,
    persist: S,
    meaning: Meaning,
    before: DatabaseView,
    after: DatabaseView,
    kind: StatementKind,
    client: Seq<u8>,
    sequence: u64,
    transaction_id: Option<TxnId>,
    sql: Seq<char>,
    parameters: Seq<ValueView>,
    result: std::result::Result<ExecutionResultView, DatabaseErrorKind>,
) -> bool {
    match routed(kind, transaction_id, parameters.len()) {
        Err(error) => after == before && result == Err::<ExecutionResultView, DatabaseErrorKind>(
            error,
        ),
        Ok(Route::Begin) => exists|begun: std::result::Result<TransactionInfo, DatabaseErrorKind>|
            {
                &&& #[trigger] begins(before, after, begun)
                &&& result == match begun {
                    Ok(info) => Ok(ExecutionResultView::Transaction(info)),
                    Err(error) => Err(error),
                }
            },
        Ok(Route::Commit(id)) => exists|
            committed: std::result::Result<CommitInfo, DatabaseErrorKind>,
        |
            {
                &&& #[trigger] commits(persist, before, after, client, sequence, id, committed)
                &&& result == match committed {
                    Ok(info) => Ok(ExecutionResultView::Committed(info)),
                    Err(error) => Err(error),
                }
            },
        Ok(Route::Rollback(id)) => exists|ended: std::result::Result<(), DatabaseErrorKind>|
            {
                &&& #[trigger] rolls_back(before, after, id, ended)
                &&& result == match ended {
                    Ok(()) => Ok(ExecutionResultView::RolledBack),
                    Err(error) => Err(error),
                }
            },
        Ok(Route::InTransaction(id)) => runs(
            bind,
            meaning,
            before,
            after,
            id,
            parameters,
            result,
        ),
        Ok(Route::Autocommit) => autocommits(
            bind,
            persist,
            meaning,
            before,
            after,
            kind,
            client,
            sequence,
            sql,
            parameters,
            result,
        ),
    }
}

proof fn executing_keeps_id<B: FnOnce(&EngineCatalog, &EngineCatalog) -> Result<Prepared>>(
    bind: B,
    engine: EngineView,
    transaction: TransactionView,
    meaning: Meaning,
    parameters: Seq<ValueView>,
    staged: TransactionView,
    output: std::result::Result<StatementOutputView, DatabaseErrorKind>,
)
    requires
        exists|bound: std::result::Result<PreparedView, DatabaseErrorKind>| #[trigger]
            bound_as(bind, engine, transaction, bound) && prepared_executed(
                engine,
                transaction,
                meaning,
                bound,
                parameters,
            ) == (staged, output),
    ensures
        staged.id == transaction.id,
{
    let bound = choose|bound: std::result::Result<PreparedView, DatabaseErrorKind>| #[trigger]
        bound_as(bind, engine, transaction, bound) && prepared_executed(
            engine,
            transaction,
            meaning,
            bound,
            parameters,
        ) == (staged, output);
    if let Ok(prepared) = bound {
        crate::db::executor::statements_keep_id(
            engine,
            transaction,
            meaning,
            prepared.statement,
            prepared.plan,
            parameters,
        );
    }
}

} // verus!
