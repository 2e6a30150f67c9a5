//! How a database on its own answers its clients.

use vstd::prelude::*;
use crate::db::catalog::EngineCatalog;
use crate::db::database::{
    Database, DatabaseView, attempt_applied, attempt_problem, begins, bindable, bound_as,
    commit_answer, commits, executes, prepared_executed, publishes, rolls_back, standalone_attempt,
    status_words, storable, stored_as, unbegun_words, unexecuted_words,
};
use crate::db::error::{DatabaseError, DatabaseErrorKind, Result};
use crate::db::fingerprint::commit_fingerprint_of;
use crate::db::laws::statements_keep_transactions;
use crate::db::requests::{DurableRequests, RequestsView, requests_after};
use crate::db::results::{
    CommitInfo, ExecutionResult, ExecutionResultView, Prepared, PreparedView, Route, StatementKind,
    StorageStatus, TransactionInfo, answer_of, routed,
};
use crate::db::scalar::{Meaning, Scalars};
use crate::db::sql::{BoundExpr, SqlError};
use crate::engine::outcome::ApplyOutcomeView;
use crate::engine::state::{Engine, EngineView};
use crate::model::{Model, outcome};
use crate::ordmap::OrdMap;
use crate::protocol::{
    ClientOperation, ClientOperationView, ClientRequest, ClientRequestView, ClientResponse,
    NodeStatus, NodeStatusView, ResponseResult, ResponseResultView, SessionRequest,
    SessionRequestView,
};
use crate::server::{as_told, database_told, execution_told, map_database_error, tell_execution};
use crate::types::{Row, Value, ValueView};

verus! {

broadcast use crate::model::group_contents;

/// Who started each transaction.
pub type Owners = OrdMap<u64, [u8; 16]>;

/// A database with the owners of its transactions.
#[derive(Debug)]
pub struct DatabaseHandler {
    pub database: Database,
    pub node_id: u64,
    pub owners: Owners,
}

/// The content of a [`DatabaseHandler`].
#[verifier::ext_equal]
pub struct DatabaseHandlerView {
    pub database: DatabaseView,
    pub node_id: u64,
    pub owners: Map<u64, Seq<u8>>,
}

impl DeepView for DatabaseHandler {
    type V = DatabaseHandlerView;

    open spec fn deep_view(&self) -> DatabaseHandlerView {
        DatabaseHandlerView {
            database: self.database.deep_view(),
            node_id: self.node_id,
            owners: self.owners.deep_view(),
        }
    }
}

/// A session can be served.
pub open spec fn session_valid(session: Option<SessionRequestView>) -> bool {
    session matches Some(given) && given.sequence > 0
}

/// Why a session cannot be served, in words.
pub open spec fn session_words(session: Option<SessionRequestView>) -> Seq<char> {
    if session is None {
        "SQL and transaction operations require a client session"@
    } else {
        "session sequence numbers start at one"@
    }
}

/// Why a request about sessions and transactions is refused before the database is
/// asked, in words, if it is.
pub open spec fn refusal_words(
    owners: Map<u64, Seq<u8>>,
    request: ClientRequestView,
) -> Option<Seq<char>> {
    let asks = !(request.operation is Ping) && !(request.operation is Status);
    if !asks {
        None
    } else if !session_valid(request.session) {
        Some(session_words(request.session))
    } else {
        let session = request.session->0;
        match session.transaction_id {
            None => if request.operation is Commit || request.operation is Rollback {
                Some("operation requires a transaction id"@)
            } else {
                None
            },
            Some(id) => if request.operation is Begin {
                Some("BEGIN session already names a transaction"@)
            } else if foreign(owners, id, session.client_id) {
                Some("transaction belongs to a different client"@)
            } else {
                None
            },
        }
    }
}

/// An error reads as a refusal.
pub open spec fn reads_as(error: DatabaseError, words: Option<Seq<char>>) -> bool {
    words matches Some(text) ==> error.shown() == "invalid transaction control: "@ + text
}

/// The session of a request that needs one.
pub fn require_session(session: Option<SessionRequest>) -> (result: Result<SessionRequest>)
    ensures
        outcome(result) == if session_valid(session.deep_view()) {
            Ok(session.deep_view()->0)
        } else {
            Err::<SessionRequestView, DatabaseErrorKind>(DatabaseErrorKind::TransactionControl)
        },
        result matches Err(error) ==> reads_as(error, Some(session_words(session.deep_view()))),
{
    match session {
        None => Err(
            DatabaseError::TransactionControl(
                "SQL and transaction operations require a client session".to_owned(),
            ),
        ),
        Some(session) => {
            if session.sequence == 0 {
                return Err(
                    DatabaseError::TransactionControl(
                        "session sequence numbers start at one".to_owned(),
                    ),
                );
            }
            Ok(session)
        },
    }
}

/// The transaction of a session that needs one.
pub fn require_transaction(session: &SessionRequest) -> (result: Result<u64>)
    ensures
        outcome(result) == match session.transaction_id {
            Some(id) => Ok(id),
            None => Err::<u64, DatabaseErrorKind>(DatabaseErrorKind::TransactionControl),
        },
        result matches Err(error) ==> reads_as(error, Some("operation requires a transaction id"@)),
{
    match session.transaction_id {
        Some(id) => Ok(id),
        None => Err(
            DatabaseError::TransactionControl("operation requires a transaction id".to_owned()),
        ),
    }
}

/// A transaction was started by another client.
pub open spec fn foreign(owners: Map<u64, Seq<u8>>, transaction_id: u64, client: Seq<u8>) -> bool {
    owners.contains_key(transaction_id) && owners[transaction_id] != client
}

/// Refuses a transaction of another client.
pub fn verify_owner(owners: &Owners, transaction_id: u64, client_id: [u8; 16]) -> (result: Result<()>)
    ensures
        outcome(result) == if foreign(owners.deep_view(), transaction_id, client_id@) {
            Err::<(), DatabaseErrorKind>(DatabaseErrorKind::TransactionControl)
        } else {
            Ok(())
        },
        result matches Err(error) ==> reads_as(
            error,
            Some("transaction belongs to a different client"@),
        ),
{
    match owners.get(&transaction_id) {
        Some(owner) => {
            if !owner.same(&client_id) {
                return Err(
                    DatabaseError::TransactionControl(
                        "transaction belongs to a different client".to_owned(),
                    ),
                );
            }
            Ok(())
        },
        None => Ok(()),
    }
}

/// The owners after the answer of a statement.
pub open spec fn owners_after(
    owners: Map<u64, Seq<u8>>,
    execution: ExecutionResultView,
    client: Seq<u8>,
    active: Option<u64>,
) -> Map<u64, Seq<u8>> {
    match execution {
        ExecutionResultView::Transaction(info) => owners.insert(info.transaction_id, client),
        ExecutionResultView::Committed(_) => match active {
            Some(id) => owners.remove(id),
            None => owners,
        },
        ExecutionResultView::RolledBack => match active {
            Some(id) => owners.remove(id),
            None => owners,
        },
        _ => owners,
    }
}

/// The answer of a statement as the client is told it, with the owners kept up.
pub fn map_execution(
    execution: ExecutionResult,
    owners: &mut Owners,
    client_id: [u8; 16],
    active_transaction: Option<u64>,
) -> (result: ResponseResult)
    ensures
        result.deep_view() == execution_told(execution.deep_view()),
        final(owners).deep_view() == owners_after(
            old(owners).deep_view(),
            execution.deep_view(),
            client_id@,
            active_transaction,
        ),
{
    match &execution {
        ExecutionResult::Transaction(info) => {
            let _ = owners.insert(info.transaction_id, client_id);
        },
        ExecutionResult::Committed(_) => {
            if let Some(id) = active_transaction {
                let _ = owners.remove(&id);
            }
        },
        ExecutionResult::RolledBack => {
            if let Some(id) = active_transaction {
                let _ = owners.remove(&id);
            }
        },
        _ => {},
    }
    tell_execution(execution)
}

/// What a database on its own tells of itself.
pub open spec fn standalone_status(state: DatabaseHandlerView, storage: StorageStatus) -> NodeStatusView {
    let applied = state.database.engine.last_applied;
    NodeStatusView {
        node_id: state.node_id,
        role: "standalone"@,
        term: 1,
        leader_id: Some(state.node_id),
        commit_index: applied,
        applied_index: applied,
        last_log_index: applied,
        snapshot_index: 0,
        database_pages: storage.database_pages,
        wal_durable_lsn: storage.wal_bytes,
        active_transactions: state.database.active.dom().len() as u64,
    }
}

/// An answer, or why there is none.
pub type Answered = std::result::Result<ResponseResultView, DatabaseErrorKind>;

/// The request is refused because of its session or its transaction, and nothing
/// changes.
pub open spec fn refused(before: DatabaseHandlerView, after: DatabaseHandlerView, answer: Answered) -> bool {
    after == before && answer == Err::<ResponseResultView, DatabaseErrorKind>(
        DatabaseErrorKind::TransactionControl,
    )
}

/// Starting a transaction for a client.
pub open spec fn handles_begin(
    before: DatabaseHandlerView,
    after: DatabaseHandlerView,
    session: SessionRequestView,
    answer: Answered,
) -> bool {
    if session.transaction_id is Some {
        refused(before, after, answer)
    } else {
        exists|begun: std::result::Result<TransactionInfo, DatabaseErrorKind>|
            {
                &&& #[trigger] begins(before.database, after.database, begun)
                &&& after.node_id == before.node_id
                &&& match begun {
                    Ok(info) => {
                        &&& after.owners == before.owners.insert(
                            info.transaction_id,
                            session.client_id,
                        )
                        &&& answer == Ok::<ResponseResultView, DatabaseErrorKind>(
                            ResponseResultView::Transaction {
                                transaction_id: info.transaction_id,
                                read_ts: info.read_ts,
                            },
                        )
                    },
                    Err(error) => after.owners == before.owners && answer == Err::<
                        ResponseResultView,
                        DatabaseErrorKind,
                    >(error),
                }
            }
    }
}

/// Committing a transaction of a client.
pub open spec fn handles_commit<S: FnOnce(&Engine, &DurableRequests) -> Result<()>>(
    persist: S,
    before: DatabaseHandlerView,
    after: DatabaseHandlerView,
    session: SessionRequestView,
    answer: Answered,
) -> bool {
    match session.transaction_id {
        None => refused(before, after, answer),
        Some(id) => if foreign(before.owners, id, session.client_id) {
            refused(before, after, answer)
        } else {
            exists|committed: std::result::Result<CommitInfo, DatabaseErrorKind>|
                {
                    &&& #[trigger] commits(
                        persist,
                        before.database,
                        after.database,
                        session.client_id,
                        session.sequence,
                        id,
                        committed,
                    )
                    &&& after.node_id == before.node_id
                    &&& match committed {
                        Ok(info) => after.owners == before.owners.remove(id) && answer == Ok::<
                            ResponseResultView,
                            DatabaseErrorKind,
                        >(ResponseResultView::Committed { commit_index: info.commit_index }),
                        Err(error) => after.owners == (if error is TransactionAborted
                            || error is TransactionNotFound {
                            before.owners.remove(id)
                        } else {
                            before.owners
                        }) && answer == Err::<ResponseResultView, DatabaseErrorKind>(error),
                    }
                }
        },
    }
}

/// Rolling a transaction of a client back.
pub open spec fn handles_rollback(
    before: DatabaseHandlerView,
    after: DatabaseHandlerView,
    session: SessionRequestView,
    answer: Answered,
) -> bool {
    match session.transaction_id {
        None => refused(before, after, answer),
        Some(id) => if foreign(before.owners, id, session.client_id) {
            refused(before, after, answer)
        } else {
            exists|done: std::result::Result<(), DatabaseErrorKind>|
                {
                    &&& #[trigger] rolls_back(before.database, after.database, id, done)
                    &&& after.node_id == before.node_id
                    &&& after.owners == before.owners.remove(id)
                    &&& answer == match done {
                        Ok(_) => Ok::<ResponseResultView, DatabaseErrorKind>(
                            ResponseResultView::RolledBack,
                        ),
                        Err(error) => Err(error),
                    }
                }
        },
    }
}

/// Executing a statement for a client.
pub open spec fn handles_execute<
    B: FnOnce(&EngineCatalog, &EngineCatalog) -> Result<Prepared>,
    S: FnOnce(&Engine, &DurableRequests) -> Result<()>,
>(
    bind: B,
    persist: S,
    meaning: Meaning,
    parsed: std::result::Result<StatementKind, SqlError>,
    before: DatabaseHandlerView,
    after: DatabaseHandlerView,
    session: SessionRequestView,
    operation: ClientOperationView,
    answer: Answered,
) -> bool {
    if session.transaction_id matches Some(id) && foreign(before.owners, id, session.client_id) {
        refused(before, after, answer)
    } else {
        match parsed {
            Err(error) => after == before && answer == Err::<ResponseResultView, DatabaseErrorKind>(
                DatabaseErrorKind::Sql(error.deep_view()),
            ),
            Ok(kind) => exists|done: std::result::Result<ExecutionResultView, DatabaseErrorKind>|
                {
                    &&& #[trigger] executes(
                        bind,
                        persist,
                        meaning,
                        before.database,
                        after.database,
                        kind,
                        session.client_id,
                        session.sequence,
                        session.transaction_id,
                        operation->sql,
                        operation->parameters,
                        done,
                    )
                    &&& after.node_id == before.node_id
                    &&& match done {
                        Ok(execution) => {
                            &&& after.owners == owners_after(
                                before.owners,
                                execution,
                                session.client_id,
                                session.transaction_id,
                            )
                            &&& answer == Ok::<ResponseResultView, DatabaseErrorKind>(
                                execution_told(execution),
                            )
                        },
                        Err(error) => after.owners == before.owners && answer == Err::<
                            ResponseResultView,
                            DatabaseErrorKind,
                        >(error),
                    }
                },
        }
    }
}

/// Handling a request.
pub open spec fn handles<
    B: FnOnce(&EngineCatalog, &EngineCatalog) -> Result<Prepared>,
    S: FnOnce(&Engine, &DurableRequests) -> Result<()>,
>(
    bind: B,
    persist: S,
    meaning: Meaning,
    parsed: std::result::Result<StatementKind, SqlError>,
    storage: StorageStatus,
    before: DatabaseHandlerView,
    after: DatabaseHandlerView,
    request: ClientRequestView,
    answer: Answered,
) -> bool {
    match request.operation {
        ClientOperationView::Ping => after == before && answer == Ok::<
            ResponseResultView,
            DatabaseErrorKind,
        >(ResponseResultView::Pong),
        ClientOperationView::Status => after == before && answer == if storage.applied_index
            != before.database.engine.last_applied {
            Err(DatabaseErrorKind::Invariant)
        } else {
            Ok::<ResponseResultView, DatabaseErrorKind>(
                ResponseResultView::Status(standalone_status(before, storage)),
            )
        },
        other => if !session_valid(request.session) {
            refused(before, after, answer)
        } else {
            let session = request.session->0;
            match other {
                ClientOperationView::Begin => handles_begin(before, after, session, answer),
                ClientOperationView::Commit => handles_commit(
                    persist,
                    before,
                    after,
                    session,
                    answer,
                ),
                ClientOperationView::Rollback => handles_rollback(before, after, session, answer),
                _ => handles_execute(
                    bind,
                    persist,
                    meaning,
                    parsed,
                    before,
                    after,
                    session,
                    other,
                    answer,
                ),
            }
        },
    }
}

/// An answer is told in a response: an error with its code and in its words.
pub open spec fn responds(answer: Result<ResponseResult>, response: ResponseResultView) -> bool {
    match answer {
        Ok(result) => response == result.deep_view(),
        Err(error) => response == ResponseResultView::Error(
            as_told(database_told(error.deep_view()), error.shown()),
        ),
    }
}

/// How an error reads that a request is answered with, where the handler or the database
/// decides before a statement is bound or anything is stored.
pub open spec fn answer_words(
    before: DatabaseHandlerView,
    parsed: std::result::Result<StatementKind, SqlError>,
    storage: StorageStatus,
    request: ClientRequestView,
) -> Option<Seq<char>> {
    match refusal_words(before.owners, request) {
        Some(text) => Some("invalid transaction control: "@ + text),
        None => match request.operation {
            ClientOperationView::Status => if storage.applied_index
                != before.database.engine.last_applied {
                Some(status_words())
            } else {
                None
            },
            ClientOperationView::Begin => unbegun_words(before.database),
            ClientOperationView::Execute { parameters, .. } => match parsed {
                Err(error) => Some(error.message@),
                Ok(kind) => unexecuted_words(
                    before.database,
                    kind,
                    request.session->0.transaction_id,
                    parameters.len(),
                ),
            },
            _ => None,
        },
    }
}

impl DatabaseHandler {
    /// A database none of whose transactions has an owner.
    pub fn new(database: Database, node_id: u64) -> (handler: DatabaseHandler)
        ensures
            handler.database == database,
            handler.node_id == node_id,
            handler.owners.deep_view() == Map::<u64, Seq<u8>>::empty(),
    {
        DatabaseHandler { database, node_id, owners: OrdMap::new() }
    }

    fn begin(&mut self, session: SessionRequest) -> (result: Result<ResponseResult>)
        ensures
            handles_begin(
                old(self).deep_view(),
                final(self).deep_view(),
                session.deep_view(),
                outcome(result),
            ),
            result matches Err(error) ==> (session.transaction_id is Some ==> reads_as(
                error,
                Some("BEGIN session already names a transaction"@),
            )),
            session.transaction_id is None ==> (unbegun_words(
                old(self).deep_view().database,
            ) matches Some(text) ==> (result matches Err(error) && error.shown() == text)),
    {
        if session.transaction_id.is_some() {
            return Err(
                DatabaseError::TransactionControl(
                    "BEGIN session already names a transaction".to_owned(),
                ),
            );
        }
        let begun = self.database.begin();
        assert(begins(old(self).database.deep_view(), self.database.deep_view(), outcome(begun)));
        match begun {
            Ok(info) => {
                let _ = self.owners.insert(info.transaction_id, session.client_id);
                Ok(
                    ResponseResult::Transaction {
                        transaction_id: info.transaction_id,
                        read_ts: info.read_ts,
                    },
                )
            },
            Err(error) => Err(error),
        }
    }

    fn commit<S: FnOnce(&Engine, &DurableRequests) -> Result<()>>(
        &mut self,
        persist: S,
        session: SessionRequest,
    ) -> (result: Result<ResponseResult>)
        requires
            storable(persist),
        ensures
            handles_commit(
                persist,
                old(self).deep_view(),
                final(self).deep_view(),
                session.deep_view(),
                outcome(result),
            ),
            result matches Err(error) ==> (match session.transaction_id {
                None => reads_as(error, Some("operation requires a transaction id"@)),
                Some(id) => foreign(old(self).owners.deep_view(), id, session.deep_view().client_id)
                    ==> reads_as(error, Some("transaction belongs to a different client"@)),
            }),
    {
        let id: u64 = match require_transaction(&session) {
            Ok(id) => id,
            Err(error) => return Err(error),
        };
        if let Err(error) = verify_owner(&self.owners, id, session.client_id) {
            return Err(error);
        }
        let committed = self.database.commit(persist, session.client_id, session.sequence, id);
        assert(session.client_id@ =~= session.deep_view().client_id);
        assert(commits(
            persist,
            old(self).deep_view().database,
            self.deep_view().database,
            session.deep_view().client_id,
            session.deep_view().sequence,
            id,
            outcome(committed),
        ));
        match committed {
            Ok(info) => {
                let _ = self.owners.remove(&id);
                Ok(ResponseResult::Committed { commit_index: info.commit_index })
            },
            Err(error) => {
                let ended = match &error {
                    DatabaseError::TransactionAborted(_) => true,
                    DatabaseError::TransactionNotFound(_) => true,
                    _ => false,
                };
                if ended {
                    let _ = self.owners.remove(&id);
                }
                Err(error)
            },
        }
    }

    fn rollback(&mut self, session: SessionRequest) -> (result: Result<ResponseResult>)
        ensures
            handles_rollback(
                old(self).deep_view(),
                final(self).deep_view(),
                session.deep_view(),
                outcome(result),
            ),
            result matches Err(error) ==> (match session.transaction_id {
                None => reads_as(error, Some("operation requires a transaction id"@)),
                Some(id) => foreign(old(self).owners.deep_view(), id, session.deep_view().client_id)
                    ==> reads_as(error, Some("transaction belongs to a different client"@)),
            }),
    {
        let id: u64 = match require_transaction(&session) {
            Ok(id) => id,
            Err(error) => return Err(error),
        };
        if let Err(error) = verify_owner(&self.owners, id, session.client_id) {
            return Err(error);
        }
        let done = self.database.rollback(id);
        assert(rolls_back(
            old(self).database.deep_view(),
            self.database.deep_view(),
            id,
            outcome(done),
        ));
        match done {
            Ok(_) => {
                let _ = self.owners.remove(&id);
                Ok(ResponseResult::RolledBack)
            },
            Err(error) => {
                let ended = match &error {
                    DatabaseError::TransactionNotFound(_) => true,
                    _ => false,
                };
                if ended {
                    let _ = self.owners.remove(&id);
                }
                Err(error)
            },
        }
    }

    fn execute<
        E: Fn(&BoundExpr, &Row, &Vec<Value>) -> std::result::Result<Value, SqlError>,
        P: Fn(&BoundExpr, &Row, &Vec<Value>) -> std::result::Result<bool, SqlError>,
        B: FnOnce(&EngineCatalog, &EngineCatalog) -> Result<Prepared>,
        S: FnOnce(&Engine, &DurableRequests) -> Result<()>,
    >(
        &mut self,
        scalars: &Scalars<E, P>,
        bind: B,
        persist: S,
        parsed: std::result::Result<StatementKind, SqlError>,
        session: SessionRequest,
        operation: ClientOperation,
    ) -> (result: Result<ResponseResult>)
        requires
            scalars.sound(),
            bindable(bind),
            storable(persist),
            operation is Execute,
        ensures
            handles_execute(
                bind,
                persist,
                scalars.meaning(),
                parsed,
                old(self).deep_view(),
                final(self).deep_view(),
                session.deep_view(),
                operation.deep_view(),
                outcome(result),
            ),
            result matches Err(error) ==> (session.transaction_id matches Some(id) && foreign(
                old(self).owners.deep_view(),
                id,
                session.deep_view().client_id,
            ) ==> reads_as(error, Some("transaction belongs to a different client"@))),
            !(session.transaction_id matches Some(id) && foreign(
                old(self).owners.deep_view(),
                id,
                session.deep_view().client_id,
            )) ==> match parsed {
                Err(refusal) => result matches Err(error) && error.shown() == refusal.message@,
                Ok(kind) => unexecuted_words(
                    old(self).deep_view().database,
                    kind,
                    session.transaction_id,
                    operation->parameters@.len(),
                ) matches Some(text) ==> (result matches Err(error) && error.shown() == text),
            },
    {
        assert(session.client_id@ =~= session.deep_view().client_id);
        if let Some(id) = session.transaction_id {
            if let Err(error) = verify_owner(&self.owners, id, session.client_id) {
                return Err(error);
            }
        }
        let kind = match parsed {
            Ok(kind) => kind,
            Err(error) => return Err(DatabaseError::Sql(error)),
        };
        match operation {
            ClientOperation::Execute { sql, parameters, consistency: _ } => {
                let done = self.database.execute(
                    scalars,
                    bind,
                    persist,
                    kind,
                    session.client_id,
                    session.sequence,
                    session.transaction_id,
                    &sql,
                    &parameters,
                );
                assert(session.client_id@ =~= session.deep_view().client_id);
                assert(executes(
                    bind,
                    persist,
                    scalars.meaning(),
                    old(self).deep_view().database,
                    self.deep_view().database,
                    kind,
                    session.deep_view().client_id,
                    session.deep_view().sequence,
                    session.deep_view().transaction_id,
                    operation.deep_view()->sql,
                    operation.deep_view()->parameters,
                    outcome(done),
                ));
                match done {
                    Ok(execution) => Ok(
                        map_execution(
                            execution,
                            &mut self.owners,
                            session.client_id,
                            session.transaction_id,
                        ),
                    ),
                    Err(error) => Err(error),
                }
            },
            _ => Ok(ResponseResult::Pong),
        }
    }

    fn status(&self, storage: StorageStatus) -> (result: Result<ResponseResult>)
        ensures
            outcome(result) == if storage.applied_index
                != self.deep_view().database.engine.last_applied {
                Err(DatabaseErrorKind::Invariant)
            } else {
                Ok::<ResponseResultView, DatabaseErrorKind>(
                    ResponseResultView::Status(standalone_status(self.deep_view(), storage)),
                )
            },
            result matches Err(error) ==> error.shown() == status_words(),
    {
        match self.database.status(storage) {
            Ok(status) => Ok(
                ResponseResult::Status(
                    NodeStatus {
                        node_id: self.node_id,
                        role: "standalone".to_owned(),
                        term: 1,
                        leader_id: Some(self.node_id),
                        commit_index: status.applied_index,
                        applied_index: status.applied_index,
                        last_log_index: status.applied_index,
                        snapshot_index: 0,
                        database_pages: status.database_pages,
                        wal_durable_lsn: status.wal_bytes,
                        active_transactions: status.active_transactions,
                    },
                ),
            ),
            Err(error) => Err(error),
        }
    }

    /// Answers a request, given what kind of statement its SQL is and how the storage is
    /// doing.
    pub fn dispatch<
        E: Fn(&BoundExpr, &Row, &Vec<Value>) -> std::result::Result<Value, SqlError>,
        P: Fn(&BoundExpr, &Row, &Vec<Value>) -> std::result::Result<bool, SqlError>,
        B: FnOnce(&EngineCatalog, &EngineCatalog) -> Result<Prepared>,
        S: FnOnce(&Engine, &DurableRequests) -> Result<()>,
    >(
        &mut self,
        scalars: &Scalars<E, P>,
        bind: B,
        persist: S,
        parsed: std::result::Result<StatementKind, SqlError>,
        storage: StorageStatus,
        request: ClientRequest,
    ) -> (result: Result<ResponseResult>)
        requires
            scalars.sound(),
            bindable(bind),
            storable(persist),
        ensures
            handles(
                bind,
                persist,
                scalars.meaning(),
                parsed,
                storage,
                old(self).deep_view(),
                final(self).deep_view(),
                request.deep_view(),
                outcome(result),
            ),
            answer_words(
                old(self).deep_view(),
                parsed,
                storage,
                request.deep_view(),
            ) matches Some(text) ==> (result matches Err(error) && error.shown() == text),
    {
        match request.operation {
            ClientOperation::Ping => Ok(ResponseResult::Pong),
            ClientOperation::Status => self.status(storage),
            operation => {
                let session = match require_session(request.session) {
                    Ok(session) => session,
                    Err(error) => return Err(error),
                };
                match operation {
                    ClientOperation::Begin => self.begin(session),
                    ClientOperation::Commit => self.commit(persist, session),
                    ClientOperation::Rollback => self.rollback(session),
                    operation => self.execute(scalars, bind, persist, parsed, session, operation),
                }
            },
        }
    }

    /// Handles a request, given what kind of statement its SQL is and how the
    /// storage is doing.
    pub fn handle<
        E: Fn(&BoundExpr, &Row, &Vec<Value>) -> std::result::Result<Value, SqlError>,
        P: Fn(&BoundExpr, &Row, &Vec<Value>) -> std::result::Result<bool, SqlError>,
        B: FnOnce(&EngineCatalog, &EngineCatalog) -> Result<Prepared>,
        S: FnOnce(&Engine, &DurableRequests) -> Result<()>,
    >(
        &mut self,
        scalars: &Scalars<E, P>,
        bind: B,
        persist: S,
        parsed: std::result::Result<StatementKind, SqlError>,
        storage: StorageStatus,
        request: ClientRequest,
    ) -> (response: ClientResponse)
        requires
            scalars.sound(),
            bindable(bind),
            storable(persist),
        ensures
            response.request_id == request.request_id,
            exists|answer: Result<ResponseResult>| #[trigger]
                responds(answer, response.deep_view().result) && handles(
                    bind,
                    persist,
                    scalars.meaning(),
                    parsed,
                    storage,
                    old(self).deep_view(),
                    final(self).deep_view(),
                    request.deep_view(),
                    outcome(answer),
                ),
            answer_words(
                old(self).deep_view(),
                parsed,
                storage,
                request.deep_view(),
            ) matches Some(text) ==> (response.deep_view().result matches ResponseResultView::Error(
                told,
            ) && told.message == text),
    {
        let request_id = request.request_id;
        let answer = self.dispatch(scalars, bind, persist, parsed, storage, request);
        respond(request_id, answer)
    }
}

/// Tells an answer in a response.
pub fn respond(request_id: u64, answer: Result<ResponseResult>) -> (response: ClientResponse)
    ensures
        response.request_id == request_id,
        responds(answer, response.deep_view().result),
{
    let result = match answer {
        Ok(result) => result,
        Err(error) => ResponseResult::Error(map_database_error(&error)),
    };
    ClientResponse { request_id, result }
}

/// No client can operate a transaction that another client has started: the
/// request is refused, and nothing changes.
pub proof fn transactions_are_their_owners<
    B: FnOnce(&EngineCatalog, &EngineCatalog) -> Result<Prepared>,
    S: FnOnce(&Engine, &DurableRequests) -> Result<()>,
>(
    bind: B,
    persist: S,
    meaning: Meaning,
    parsed: std::result::Result<StatementKind, SqlError>,
    storage: StorageStatus,
    before: DatabaseHandlerView,
    after: DatabaseHandlerView,
    request: ClientRequestView,
    answer: Answered,
)
    requires
        handles(bind, persist, meaning, parsed, storage, before, after, request, answer),
        request.operation is Commit || request.operation is Rollback
            || request.operation is Execute,
        request.session matches Some(session) && session.transaction_id matches Some(id) && foreign(
            before.owners,
            id,
            session.client_id,
        ),
    ensures
        refused(before, after, answer),
{
}

/// The client that starts a transaction owns it.
pub proof fn begun_transactions_are_owned<
    B: FnOnce(&EngineCatalog, &EngineCatalog) -> Result<Prepared>,
    S: FnOnce(&Engine, &DurableRequests) -> Result<()>,
>(
    bind: B,
    persist: S,
    meaning: Meaning,
    parsed: std::result::Result<StatementKind, SqlError>,
    storage: StorageStatus,
    before: DatabaseHandlerView,
    after: DatabaseHandlerView,
    request: ClientRequestView,
    answer: Answered,
)
    requires
        handles(bind, persist, meaning, parsed, storage, before, after, request, answer),
        answer matches Ok(ResponseResultView::Transaction { .. }),
    ensures
        request.session is Some,
        answer matches Ok(ResponseResultView::Transaction { transaction_id, .. })
            && after.owners.contains_key(transaction_id) && after.owners[transaction_id]
            == request.session->0.client_id,
{
}

/// Every transaction that is active has an owner.
pub open spec fn all_owned(state: DatabaseHandlerView) -> bool {
    forall|id: u64| #[trigger]
        state.database.active.contains_key(id) ==> state.owners.contains_key(id)
}

/// Each transaction that stays active keeps its owner.
pub open spec fn owners_stay(before: DatabaseHandlerView, after: DatabaseHandlerView) -> bool {
    forall|id: u64| #[trigger]
        after.database.active.contains_key(id) && before.database.active.contains_key(id)
            && before.owners.contains_key(id) ==> after.owners.contains_key(id) && after.owners[id]
            == before.owners[id]
}

/// The storage never answers that a transaction was aborted or is not there.
pub open spec fn stores_only<S: FnOnce(&Engine, &DurableRequests) -> Result<()>>(persist: S) -> bool {
    forall|
        engine: EngineView,
        requests: RequestsView,
        answer: std::result::Result<(), DatabaseErrorKind>,
    | #[trigger]
        stored_as(persist, engine, requests, answer) ==> !(answer matches Err(error) && (
        error is TransactionAborted || error is TransactionNotFound))
}

/// A commit that ends in success, an abort, or the absence of the transaction
/// leaves the transaction inactive; no other transaction is touched.
proof fn commit_ends_its_transaction<S: FnOnce(&Engine, &DurableRequests) -> Result<()>>(
    persist: S,
    before: DatabaseView,
    after: DatabaseView,
    client: Seq<u8>,
    sequence: u64,
    id: u64,
    result: std::result::Result<CommitInfo, DatabaseErrorKind>,
)
    requires
        stores_only(persist),
        commits(persist, before, after, client, sequence, id, result),
    ensures
        after.active == before.active || after.active == before.active.remove(id),
        result is Ok || result->Err_0 is TransactionAborted || result->Err_0 is TransactionNotFound
            ==> !after.active.contains_key(id),
{
    if before.active.contains_key(id) {
        let transaction = before.active[id];
        let attempt = standalone_attempt(transaction, client, sequence);
        let fingerprint = commit_fingerprint_of(id);
        if attempt_problem(before.engine, attempt) is None {
            let (applied, next) = choose|applied: ApplyOutcomeView, next: EngineView|
                {
                    &&& #[trigger] attempt_applied(
                        before.engine,
                        attempt,
                        fingerprint,
                        applied,
                        next,
                    )
                    &&& match requests_after(
                        before.requests,
                        applied,
                        client,
                        sequence,
                        fingerprint,
                        transaction.writes.dom().len() as u64,
                    ) {
                        Err(error) => after == before && result == Err::<
                            CommitInfo,
                            DatabaseErrorKind,
                        >(error),
                        Ok(requests) => publishes(
                            persist,
                            before,
                            next,
                            requests,
                            DatabaseView {
                                active: if applied is Rejected {
                                    before.active
                                } else {
                                    before.active.remove(id)
                                },
                                ..before.with(next, requests)
                            },
                            commit_answer(applied, next.last_applied),
                            after,
                            result,
                        ),
                    }
                };
            assert(result is Ok ==> !(applied is Rejected));
        }
    }
}

proof fn executing_keeps_owners<
    B: FnOnce(&EngineCatalog, &EngineCatalog) -> Result<Prepared>,
    S: FnOnce(&Engine, &DurableRequests) -> Result<()>,
>(
    bind: B,
    persist: S,
    meaning: Meaning,
    before: DatabaseHandlerView,
    after: DatabaseHandlerView,
    kind: StatementKind,
    session: SessionRequestView,
    sql: Seq<char>,
    parameters: Seq<ValueView>,
    done: std::result::Result<ExecutionResultView, DatabaseErrorKind>,
)
    requires
        executes(
            bind,
            persist,
            meaning,
            before.database,
            after.database,
            kind,
            session.client_id,
            session.sequence,
            session.transaction_id,
            sql,
            parameters,
            done,
        ),
        after.owners == match done {
            Ok(execution) => owners_after(
                before.owners,
                execution,
                session.client_id,
                session.transaction_id,
            ),
            Err(error) => before.owners,
        },
        stores_only(persist),
        all_owned(before),
    ensures
        all_owned(after),
        owners_stay(before, after),
{
    match routed(kind, session.transaction_id, parameters.len()) {
        Ok(Route::Commit(id)) => {
            let committed = choose|committed: std::result::Result<CommitInfo, DatabaseErrorKind>|
                {
                    &&& #[trigger] commits(
                        persist,
                        before.database,
                        after.database,
                        session.client_id,
                        session.sequence,
                        id,
                        committed,
                    )
                    &&& done == match committed {
                        Ok(info) => Ok(ExecutionResultView::Committed(info)),
                        Err(error) => Err::<ExecutionResultView, DatabaseErrorKind>(error),
                    }
                };
            commit_ends_its_transaction(
                persist,
                before.database,
                after.database,
                session.client_id,
                session.sequence,
                id,
                committed,
            );
        },
        Ok(Route::InTransaction(id)) => {
            if before.database.active.contains_key(id) {
                let bound = choose|bound: std::result::Result<PreparedView, DatabaseErrorKind>|
                    #[trigger]
                    bound_as(bind, before.database.engine, before.database.active[id], bound) && {
                        let (staged, output) = prepared_executed(
                            before.database.engine,
                            before.database.active[id],
                            meaning,
                            bound,
                            parameters,
                        );
                        match output {
                            Err(error) => after.database == before.database && done == Err::<
                                ExecutionResultView,
                                DatabaseErrorKind,
                            >(error),
                            Ok(output) => after.database == (DatabaseView {
                                active: before.database.active.insert(id, staged),
                                ..before.database
                            }) && done == Ok::<ExecutionResultView, DatabaseErrorKind>(
                                answer_of(output, before.database.engine.last_applied),
                            ),
                        }
                    };
                assert(after.owners == before.owners);
            }
        },
        Ok(Route::Autocommit) => {
            statements_keep_transactions(
                bind,
                persist,
                meaning,
                before.database,
                after.database,
                kind,
                session.client_id,
                session.sequence,
                sql,
                parameters,
                done,
            );
        },
        _ => {},
    }
}

/// Every transaction that is active has an owner, whatever is asked; and its
/// owner stays the same for as long as it is active.
pub proof fn active_transactions_are_owned<
    B: FnOnce(&EngineCatalog, &EngineCatalog) -> Result<Prepared>,
    S: FnOnce(&Engine, &DurableRequests) -> Result<()>,
>(
    bind: B,
    persist: S,
    meaning: Meaning,
    parsed: std::result::Result<StatementKind, SqlError>,
    storage: StorageStatus,
    before: DatabaseHandlerView,
    after: DatabaseHandlerView,
    request: ClientRequestView,
    answer: Answered,
)
    requires
        handles(bind, persist, meaning, parsed, storage, before, after, request, answer),
        stores_only(persist),
        all_owned(before),
    ensures
        all_owned(after),
        owners_stay(before, after),
{
    if session_valid(request.session) {
        let session = request.session->0;
        match request.operation {
            ClientOperationView::Commit => {
                if let Some(id) = session.transaction_id {
                    if !foreign(before.owners, id, session.client_id) {
                        let committed = choose|
                            committed: std::result::Result<CommitInfo, DatabaseErrorKind>,
                        |
                            {
                                &&& #[trigger] commits(
                                    persist,
                                    before.database,
                                    after.database,
                                    session.client_id,
                                    session.sequence,
                                    id,
                                    committed,
                                )
                                &&& after.node_id == before.node_id
                                &&& match committed {
                                    Ok(info) => after.owners == before.owners.remove(id) && answer
                                        == Ok::<ResponseResultView, DatabaseErrorKind>(
                                        ResponseResultView::Committed {
                                            commit_index: info.commit_index,
                                        },
                                    ),
                                    Err(error) => after.owners == (if error is TransactionAborted
                                        || error is TransactionNotFound {
                                        before.owners.remove(id)
                                    } else {
                                        before.owners
                                    }) && answer == Err::<ResponseResultView, DatabaseErrorKind>(
                                        error,
                                    ),
                                }
                            };
                        commit_ends_its_transaction(
                            persist,
                            before.database,
                            after.database,
                            session.client_id,
                            session.sequence,
                            id,
                            committed,
                        );
                    }
                }
            },
            ClientOperationView::Execute { sql, parameters, .. } => {
                if parsed is Ok && !(session.transaction_id matches Some(id) && foreign(
                    before.owners,
                    id,
                    session.client_id,
                )) {
                    let kind = parsed->Ok_0;
                    let done = choose|
                        done: std::result::Result<ExecutionResultView, DatabaseErrorKind>,
                    |
                        {
                            &&& #[trigger] executes(
                                bind,
                                persist,
                                meaning,
                                before.database,
                                after.database,
                                kind,
                                session.client_id,
                                session.sequence,
                                session.transaction_id,
                                sql,
                                parameters,
                                done,
                            )
                            &&& match done {
                                Ok(execution) => after.owners == owners_after(
                                    before.owners,
                                    execution,
                                    session.client_id,
                                    session.transaction_id,
                                ),
                                Err(error) => after.owners == before.owners,
                            }
                        };
                    executing_keeps_owners(
                        bind,
                        persist,
                        meaning,
                        before,
                        after,
                        kind,
                        session,
                        sql,
                        parameters,
                        done,
                    );
                }
            },
            _ => {},
        }
    }
}

} // verus!
