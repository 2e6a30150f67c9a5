//! Laws of the database.

use vstd::prelude::*;
use crate::db::catalog::EngineCatalog;
use crate::db::database::{
    DatabaseView, applies, applies_noop, autocommits, commits, installs, publishes,
    replicated_answer, request_entries, runs, snapshot_parts, snapshot_requests, snapshot_state,
    stored_as,
};
use crate::db::error::{DatabaseErrorKind, Result};
use crate::db::requests::{
    DurableRequestRecordView, DurableRequests, RequestsView, replay_agrees, replayed,
    requests_after,
};
use crate::db::results::{
    CommitInfo, ExecutionResultView, MAX_SNAPSHOT_BYTES, Prepared, ReplicatedMutationView,
    StatementKind,
};
use crate::db::scalar::Meaning;
use crate::digest::sha256;
use crate::engine::outcome::{ApplyOutcomeView, CommitResultView, RequestRejection};
use crate::engine::snapshot::{EngineSnapshotView, snapshot_round_trip};
use crate::engine::state::{Engine, EngineView};
use crate::ordmap::{Key, finite_set_is_listed, ordered};
use crate::types::{TxnId, ValueView};

verus! {

proof fn entries_hold_requests(requests: RequestsView, n: int)
    requires
        requests.dom().finite(),
        0 <= n <= request_entries(requests).len(),
    ensures
        ({
            let clients = ordered::<[u8; 16]>(requests.dom());
            &&& snapshot_requests(request_entries(requests), n) is Some
            &&& forall|client: Seq<u8>| #[trigger]
                (snapshot_requests(request_entries(requests), n)->0).contains_key(client) <==> (
                exists|i: int| 0 <= i < n && #[trigger] clients[i] == client)
            &&& forall|client: Seq<u8>| #[trigger]
                (snapshot_requests(request_entries(requests), n)->0).contains_key(client) ==> (
                snapshot_requests(request_entries(requests), n)->0)[client] == requests[client]
        }),
    decreases n,
{
    let clients = ordered::<[u8; 16]>(requests.dom());
    finite_set_is_listed::<[u8; 16]>(requests.dom());
    if n > 0 {
        entries_hold_requests(requests, n - 1);
        let before = snapshot_requests(request_entries(requests), n - 1)->0;
        let client = clients[n - 1];
        if before.contains_key(client) {
            let i = choose|i: int| 0 <= i < n - 1 && #[trigger] clients[i] == client;
            <[u8; 16] as Key>::before_irreflexive(client);
        }
        let after = snapshot_requests(request_entries(requests), n)->0;
        assert(after == before.insert(client, requests[client]));
        assert forall|c: Seq<u8>| #[trigger] after.contains_key(c) <==> (exists|i: int|
            0 <= i < n && #[trigger] clients[i] == c) by {
            if after.contains_key(c) && c != client {
                let i = choose|i: int| 0 <= i < n - 1 && #[trigger] clients[i] == c;
                assert(0 <= i < n);
            }
            if c == client {
                assert(clients[n - 1] == c);
            }
            if exists|i: int| 0 <= i < n && #[trigger] clients[i] == c {
                let i = choose|i: int| 0 <= i < n && #[trigger] clients[i] == c;
                if i < n - 1 {
                    assert(before.contains_key(c));
                }
            }
        }
    }
}

/// A database that takes on its own snapshot finds the state that the snapshot
/// was made of.
pub proof fn database_snapshot_round_trip(state: DatabaseView, length: nat)
    requires
        state.engine.well_formed(),
        state.well_formed(),
        0 < length <= MAX_SNAPSHOT_BYTES,
    ensures
        snapshot_state(length, Some(snapshot_parts(state))) == Ok::<
            (EngineView, RequestsView),
            DatabaseErrorKind,
        >((state.engine, state.requests)),
{
    snapshot_round_trip(state.engine);
    let entries = request_entries(state.requests);
    let clients = ordered::<[u8; 16]>(state.requests.dom());
    finite_set_is_listed::<[u8; 16]>(state.requests.dom());
    entries_hold_requests(state.requests, entries.len() as int);
    let found = snapshot_requests(entries, entries.len() as int)->0;
    assert forall|client: Seq<u8>| found.contains_key(client) == state.requests.contains_key(
        client,
    ) by {
        assert(state.requests.dom().contains(client) <==> clients.contains(client));
        if clients.contains(client) {
            let i = clients.index_of(client);
            assert(clients[i] == client);
        }
    }
    assert(found =~= state.requests);
}

/// A request that was applied is found again by a retry, with its result. The
/// same sequence number with another fingerprint is refused.
pub proof fn applied_request_is_kept(
    requests: RequestsView,
    result: CommitResultView,
    client: Seq<u8>,
    sequence: u64,
    fingerprint: Seq<u8>,
    other: Seq<u8>,
    affected_rows: u64,
)
    requires
        other != fingerprint,
    ensures
        requests_after(
            requests,
            ApplyOutcomeView::Applied(result),
            client,
            sequence,
            fingerprint,
            affected_rows,
        ) matches Ok(after) && {
            &&& replayed(after, client, sequence, fingerprint) == Ok::<
                Option<DurableRequestRecordView>,
                DatabaseErrorKind,
            >(Some(DurableRequestRecordView { sequence, fingerprint, result, affected_rows }))
            &&& replayed(after, client, sequence, other) == Err::<
                Option<DurableRequestRecordView>,
                DatabaseErrorKind,
            >(
                DatabaseErrorKind::RequestRejected(
                    RequestRejection::SequenceHashMismatch { sequence },
                ),
            )
        },
{
}

/// What the database shows after a commit, the storage has kept before.
pub proof fn commit_is_stored_first<S: FnOnce(&Engine, &DurableRequests) -> Result<()>>(
    persist: S,
    before: DatabaseView,
    after: DatabaseView,
    client: Seq<u8>,
    sequence: u64,
    transaction_id: TxnId,
    result: std::result::Result<CommitInfo, DatabaseErrorKind>,
)
    requires
        commits(persist, before, after, client, sequence, transaction_id, result),
    ensures
        after != before ==> stored_as(persist, after.engine, after.requests, Ok(())),
        result is Ok && before.active.contains_key(transaction_id) ==> stored_as(
            persist,
            after.engine,
            after.requests,
            Ok(()),
        ) && !after.active.contains_key(transaction_id),
{
}

/// What the database shows after a statement on its own, the storage has kept
/// before: where it has not, only the transaction id is used up.
pub proof fn statement_is_stored_first<
    B: FnOnce(&EngineCatalog, &EngineCatalog) -> Result<Prepared>,
    S: FnOnce(&Engine, &DurableRequests) -> Result<()>,
>(
    bind: B,
    persist: S,
    meaning: Meaning,
    before: DatabaseView,
    after: DatabaseView,
    kind: StatementKind,
    client: Seq<u8>,
    sequence: u64,
    sql: Seq<char>,
    parameters: Seq<ValueView>,
    result: std::result::Result<ExecutionResultView, DatabaseErrorKind>,
)
    requires
        autocommits(
            bind,
            persist,
            meaning,
            before,
            after,
            kind,
            client,
            sequence,
            sql,
            parameters,
            result,
        ),
    ensures
        stored_as(persist, after.engine, after.requests, Ok(())) || after == (DatabaseView {
            engine: EngineView { next_txn_id: after.engine.next_txn_id, ..before.engine },
            ..before
        }),
{
}

/// What the database shows after a change from the log, the storage has kept
/// before. The last change may come again; it changes nothing.
pub proof fn change_is_stored_first<S: FnOnce(&Engine, &DurableRequests) -> Result<()>>(
    persist: S,
    before: DatabaseView,
    after: DatabaseView,
    index: u64,
    bytes: Seq<u8>,
    decoded: Option<ReplicatedMutationView>,
    result: std::result::Result<ExecutionResultView, DatabaseErrorKind>,
)
    requires
        applies(persist, before, after, index, bytes, decoded, result),
    ensures
        after != before ==> stored_as(persist, after.engine, after.requests, Ok(())),
        index == before.engine.last_applied ==> after == before,
        after != before ==> after.engine.last_applied == index,
{
}

/// What the database shows after a no-op from the log, the storage has kept
/// before. The last one may come again; it changes nothing.
pub proof fn noop_is_stored_first<S: FnOnce(&Engine, &DurableRequests) -> Result<()>>(
    persist: S,
    before: DatabaseView,
    after: DatabaseView,
    index: u64,
    term: u64,
    result: std::result::Result<(), DatabaseErrorKind>,
)
    requires
        applies_noop(persist, before, after, index, term, result),
    ensures
        after != before ==> stored_as(persist, after.engine, after.requests, Ok(())),
        index == before.engine.last_applied ==> after == before,
        result is Ok ==> after.engine.last_applied == index,
{
}

/// What the database shows after a snapshot was taken on, the storage has kept
/// before. The state at hand may be taken on again, and an older one never is.
pub proof fn snapshot_is_stored_first<S: FnOnce(&Engine, &DurableRequests) -> Result<()>>(
    persist: S,
    before: DatabaseView,
    after: DatabaseView,
    engine: EngineView,
    requests: RequestsView,
    result: std::result::Result<(), DatabaseErrorKind>,
)
    requires
        installs(persist, before, after, engine, requests, result),
    ensures
        after != before ==> stored_as(persist, after.engine, after.requests, Ok(())),
        after.engine.last_applied >= before.engine.last_applied,
        result is Ok ==> after.engine.last_applied == engine.last_applied && after.requests
            == requests,
{
}

/// A statement that fails in a transaction leaves the database, and with it the
/// transaction, as it was.
pub proof fn failed_statement_changes_nothing<
    B: FnOnce(&EngineCatalog, &EngineCatalog) -> Result<Prepared>,
>(
    bind: B,
    meaning: Meaning,
    before: DatabaseView,
    after: DatabaseView,
    transaction_id: TxnId,
    parameters: Seq<ValueView>,
    result: std::result::Result<ExecutionResultView, DatabaseErrorKind>,
)
    requires
        runs(bind, meaning, before, after, transaction_id, parameters, result),
    ensures
        result is Err ==> after == before,
        after.engine == before.engine && after.requests == before.requests,
{
}

/// A statement on its own touches no transaction that is active, and answers
/// with none.
pub proof fn statements_keep_transactions<
    B: FnOnce(&EngineCatalog, &EngineCatalog) -> Result<Prepared>,
    S: FnOnce(&Engine, &DurableRequests) -> Result<()>,
>(
    bind: B,
    persist: S,
    meaning: Meaning,
    before: DatabaseView,
    after: DatabaseView,
    kind: StatementKind,
    client: Seq<u8>,
    sequence: u64,
    sql: Seq<char>,
    parameters: Seq<ValueView>,
    result: std::result::Result<ExecutionResultView, DatabaseErrorKind>,
)
    requires
        autocommits(
            bind,
            persist,
            meaning,
            before,
            after,
            kind,
            client,
            sequence,
            sql,
            parameters,
            result,
        ),
    ensures
        after.active == before.active,
        result matches Ok(answer) ==> answer is Query || answer is Explain,
{
}

/// Applying the last change of the log again changes nothing and answers as the
/// first time, whatever the storage does then.
pub proof fn repeated_change_is_answered_again<
    S: FnOnce(&Engine, &DurableRequests) -> Result<()>,
    R: FnOnce(&Engine, &DurableRequests) -> Result<()>,
>(
    persist: S,
    persist_again: R,
    before: DatabaseView,
    applied: DatabaseView,
    after: DatabaseView,
    index: u64,
    bytes: Seq<u8>,
    decoded: Option<ReplicatedMutationView>,
    first: std::result::Result<ExecutionResultView, DatabaseErrorKind>,
    second: std::result::Result<ExecutionResultView, DatabaseErrorKind>,
)
    requires
        applies(persist, before, applied, index, bytes, decoded, first),
        applied.engine.last_applied == index,
        applies(persist_again, applied, after, index, bytes, decoded, second),
    ensures
        after == applied,
        second == first,
{
    if before.engine.last_applied != index {
        let command = decoded->0;
        let client = command.attempt.request.client_id;
        let sequence = command.attempt.request.sequence;
        let (outcome, next) = choose|outcome: ApplyOutcomeView, next: EngineView|
            {
                &&& #[trigger] before.engine.applied_as(
                    index,
                    sha256(bytes),
                    command.fingerprint,
                    command.attempt,
                    outcome,
                    next,
                )
                &&& match requests_after(
                    before.requests,
                    outcome,
                    client,
                    sequence,
                    command.fingerprint,
                    command.affected_rows,
                ) {
                    Err(error) => applied == before && first == Err::<
                        ExecutionResultView,
                        DatabaseErrorKind,
                    >(error),
                    Ok(requests) => publishes(
                        persist,
                        before,
                        next,
                        requests,
                        before.with(next, requests),
                        replicated_answer(requests, command, outcome, index),
                        applied,
                        first,
                    ),
                }
            };
        assert(applied.engine == next);
        assert(applied.engine.last_apply_outcome == Some(outcome));
        assert(replay_agrees(
            applied.requests,
            client,
            sequence,
            command.fingerprint,
            command.affected_rows,
            outcome,
        ));
    }
}

/// Taking on an installed state again changes nothing and succeeds, though
/// transaction ids have been given out since.
pub proof fn repeated_install_changes_nothing<
    S: FnOnce(&Engine, &DurableRequests) -> Result<()>,
    R: FnOnce(&Engine, &DurableRequests) -> Result<()>,
>(
    persist: S,
    persist_again: R,
    before: DatabaseView,
    installed: DatabaseView,
    next_txn_id: TxnId,
    after: DatabaseView,
    engine: EngineView,
    requests: RequestsView,
    result: std::result::Result<(), DatabaseErrorKind>,
)
    requires
        installs(persist, before, installed, engine, requests, Ok(())),
        installs(
            persist_again,
            DatabaseView {
                engine: EngineView { next_txn_id, ..installed.engine },
                ..installed
            },
            after,
            engine,
            requests,
            result,
        ),
    ensures
        result == Ok::<(), DatabaseErrorKind>(()),
        after == (DatabaseView {
            engine: EngineView { next_txn_id, ..installed.engine },
            ..installed
        }),
{
    let moved = EngineView { next_txn_id, ..installed.engine };
    assert(moved.captured() =~= (EngineSnapshotView {
        next_txn_id,
        ..installed.engine.captured()
    }));
}

} // verus!
