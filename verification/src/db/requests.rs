//! The requests that are kept so that clients can retry them.

use vstd::prelude::*;
use crate::db::error::{DatabaseError, DatabaseErrorKind, Result, corrupts};
use crate::engine::outcome::{
    ApplyOutcome, ApplyOutcomeView, CommitResult, CommitResultView, RequestRejection,
};
use crate::engine::records::{SnapshotRecord, SnapshotRecordView};
use crate::engine::state::{Engine, EngineView};
use crate::model::{Model, outcome};
use crate::ordmap::{OrdMap, lists};
use crate::text::decimal_text;
use crate::types::message;
use crate::wire::array_of_16;

verus! {

broadcast use crate::model::group_contents;

/// The kind of a record that keeps a request.
pub const REQUEST_RECORD_KIND: u8 = 240;

/// The latest request of a client, kept with its result for retries.
#[derive(Debug, Clone, PartialEq, Eq)]
pub struct DurableRequestRecord {
    pub sequence: u64,
    pub fingerprint: [u8; 32],
    pub result: CommitResult,
    pub affected_rows: u64,
}

/// The content of a [`DurableRequestRecord`].
#[verifier::ext_equal]
pub struct DurableRequestRecordView {
    pub sequence: u64,
    pub fingerprint: Seq<u8>,
    pub result: CommitResultView,
    pub affected_rows: u64,
}

impl DeepView for DurableRequestRecord {
    type V = DurableRequestRecordView;

    open spec fn deep_view(&self) -> DurableRequestRecordView {
        DurableRequestRecordView {
            sequence: self.sequence.deep_view(),
            fingerprint: self.fingerprint.deep_view(),
            result: self.result.deep_view(),
            affected_rows: self.affected_rows.deep_view(),
        }
    }
}

impl Model for DurableRequestRecord {
    fn duplicate(&self) -> (copy: Self) {
        DurableRequestRecord {
            sequence: self.sequence.duplicate(),
            fingerprint: self.fingerprint.duplicate(),
            result: self.result.duplicate(),
            affected_rows: self.affected_rows.duplicate(),
        }
    }

    fn same(&self, other: &Self) -> (equal: bool) {
        self.sequence.same(&other.sequence)
            && self.fingerprint.same(&other.fingerprint)
            && self.result.same(&other.result)
            && self.affected_rows.same(&other.affected_rows)
    }
}
/// The latest request of each client.
pub type DurableRequests = OrdMap<[u8; 16], DurableRequestRecord>;

/// The content of [`DurableRequests`].
pub type RequestsView = Map<Seq<u8>, DurableRequestRecordView>;

pub(crate) fn corruption(text: &str) -> (error: DatabaseError)
    ensures
        error.deep_view() == DatabaseErrorKind::Corruption,
        corrupts(error, text@),
{
    DatabaseError::Corruption(text.to_owned())
}

/// A kept request and the engine's record of its client say the same.
pub open spec fn request_agrees(
    engine: EngineView,
    client: Seq<u8>,
    record: DurableRequestRecordView,
) -> bool {
    &&& engine.clients.contains_key(client)
    &&& record.sequence == engine.clients[client].sequence
    &&& record.fingerprint == engine.clients[client].request_hash
    &&& record.result == engine.clients[client].result
}

/// The kept requests are those of the engine's clients.
pub open spec fn requests_agree(engine: EngineView, requests: RequestsView) -> bool {
    &&& engine.clients.dom().len() == requests.dom().len()
    &&& forall|client: Seq<u8>| #[trigger]
        requests.contains_key(client) ==> request_agrees(engine, client, requests[client])
}

/// Fails unless the kept requests are those of the engine's clients.
pub fn validate_durable_requests(engine: &Engine, requests: &DurableRequests) -> (result: Result<()>)
    ensures
        outcome(result) == if requests_agree(engine.deep_view(), requests.deep_view()) {
            Ok::<(), DatabaseErrorKind>(())
        } else {
            Err(DatabaseErrorKind::Corruption)
        },
{
    let ghost view = engine.deep_view();
    let ghost kept = requests.deep_view();
    let count: usize = requests.len();
    let clients: usize = engine.client_count();
    if clients != count {
        return Err(
            DatabaseError::Corruption(
                message(
                    &[
                        "engine has ",
                        &decimal_text(clients as u64),
                        " client records but snapshot has ",
                        &decimal_text(count as u64),
                        " request records",
                    ],
                ),
            ),
        );
    }
    let ghost keys = requests.keys();
    let mut i: usize = 0;
    while i < count
        invariant
            i <= count,
            keys == requests.keys(),
            count == keys.len(),
            lists::<[u8; 16]>(keys, kept.dom()),
            view == engine.deep_view(),
            kept == requests.deep_view(),
            forall|j: int|
                0 <= j < i ==> request_agrees(view, #[trigger] keys[j], kept[keys[j]]),
        decreases count - i,
    {
        let client_id = requests.key_at(i);
        let request = requests.value_at(i);
        match engine.client_record(client_id) {
            Some(record) => {
                if request.sequence != record.sequence || !request.fingerprint.same(
                    &record.request_hash,
                ) || !request.result.same(&record.result) {
                    return Err(
                        corruption("request fingerprint disagrees with engine client result"),
                    );
                }
            },
            None => {
                return Err(corruption("request fingerprint has no matching engine client record"));
            },
        }
        i = i + 1;
    }
    assert forall|client: Seq<u8>| #[trigger] kept.contains_key(client) implies request_agrees(
        view,
        client,
        kept[client],
    ) by {
        assert(keys.contains(client));
    }
    Ok(())
}

/// The client that the key of a record names.
pub open spec fn named_client(record: SnapshotRecordView) -> Option<Seq<u8>> {
    if record.kind == REQUEST_RECORD_KIND && record.key.len() == 16 {
        Some(record.key)
    } else {
        None
    }
}

/// The requests that the first `n` records keep; `decoded` holds what the value
/// of each record says.
pub open spec fn requests_in(
    records: Seq<SnapshotRecordView>,
    decoded: Seq<Option<DurableRequestRecordView>>,
    n: int,
) -> Option<RequestsView>
    decreases n,
{
    if n <= 0 {
        Some(Map::empty())
    } else {
        match (requests_in(records, decoded, n - 1), named_client(records[n - 1])) {
            (Some(requests), Some(client)) => match decoded[n - 1] {
                Some(record) => if requests.contains_key(client) {
                    None
                } else {
                    Some(requests.insert(client, record))
                },
                None => None,
            },
            _ => None,
        }
    }
}

proof fn requests_in_stops(
    records: Seq<SnapshotRecordView>,
    decoded: Seq<Option<DurableRequestRecordView>>,
    m: int,
    n: int,
)
    requires
        0 <= m <= n,
        requests_in(records, decoded, m) is None,
    ensures
        requests_in(records, decoded, n) is None,
    decreases n,
{
    if m < n {
        requests_in_stops(records, decoded, m, n - 1);
    }
}

/// The requests that records keep, checked against the engine. `decoded` holds
/// what the value of each record says, `None` where it says nothing.
pub fn decode_request_records(
    records: &Vec<SnapshotRecord>,
    decoded: &Vec<Option<DurableRequestRecord>>,
    engine: &Engine,
) -> (result: Result<DurableRequests>)
    requires
        records@.len() == decoded@.len(),
    ensures
        outcome(result) == match requests_in(
            records.deep_view(),
            decoded.deep_view(),
            records@.len() as int,
        ) {
            Some(requests) => if requests_agree(engine.deep_view(), requests) {
                Ok::<RequestsView, DatabaseErrorKind>(requests)
            } else {
                Err(DatabaseErrorKind::Corruption)
            },
            None => Err(DatabaseErrorKind::Corruption),
        },
{
    let ghost view = records.deep_view();
    let ghost values = decoded.deep_view();
    let mut requests: DurableRequests = OrdMap::new();
    let mut i: usize = 0;
    while i < records.len()
        invariant
            i <= records@.len(),
            records@.len() == decoded@.len(),
            view == records.deep_view(),
            values == decoded.deep_view(),
            requests_in(view, values, i as int) == Some(requests.deep_view()),
        decreases records@.len() - i,
    {
        assert(view[i as int] == records@[i as int].deep_view());
        assert(values[i as int] == decoded@[i as int].deep_view());
        let mut problem: Option<DatabaseError> = None;
        if records[i].kind != REQUEST_RECORD_KIND || records[i].key.len() != 16 {
            problem = Some(corruption("durable request record has an invalid kind or key"));
        } else {
            let client_id: [u8; 16] = array_of_16(records[i].key.as_slice(), 0);
            assert(client_id@ =~= view[i as int].key);
            assert(client_id.deep_view() == client_id@);
            match &decoded[i] {
                Some(record) => {
                    if requests.insert(client_id, record.duplicate()).is_some() {
                        problem = Some(corruption("duplicate durable request fingerprint"));
                    }
                },
                None => {
                    problem = Some(corruption("request record decode failed"));
                },
            }
        }
        if let Some(error) = problem {
            proof {
                requests_in_stops(view, values, i + 1, view.len() as int);
            }
            return Err(error);
        }
        i = i + 1;
    }
    match validate_durable_requests(engine, &requests) {
        Ok(()) => Ok(requests),
        Err(error) => Err(error),
    }
}

/// The client's latest request, when it is the one at hand.
pub open spec fn replayed(
    requests: RequestsView,
    client: Seq<u8>,
    sequence: u64,
    fingerprint: Seq<u8>,
) -> std::result::Result<Option<DurableRequestRecordView>, DatabaseErrorKind> {
    if !requests.contains_key(client) || requests[client].sequence != sequence {
        Ok(None)
    } else if requests[client].fingerprint != fingerprint {
        Err(
            DatabaseErrorKind::RequestRejected(
                RequestRejection::SequenceHashMismatch { sequence },
            ),
        )
    } else {
        Ok(Some(requests[client]))
    }
}

/// Finds the client's latest request, when it is the one at hand. The same
/// sequence number with another fingerprint is refused.
pub fn replay_record(
    requests: &DurableRequests,
    client_id: &[u8; 16],
    sequence: u64,
    fingerprint: &[u8; 32],
) -> (result: Result<Option<DurableRequestRecord>>)
    ensures
        outcome(result) == replayed(requests.deep_view(), client_id@, sequence, fingerprint@),
{
    match requests.get(client_id) {
        None => Ok(None),
        Some(record) => if record.sequence != sequence {
            Ok(None)
        } else if !record.fingerprint.same(fingerprint) {
            Err(
                DatabaseError::RequestRejected(RequestRejection::SequenceHashMismatch { sequence }),
            )
        } else {
            Ok(Some(record.duplicate()))
        },
    }
}

/// The kept requests after an outcome. A duplicate leaves the first record as
/// it is; a rejected request leaves no record.
pub open spec fn requests_after(
    requests: RequestsView,
    result: ApplyOutcomeView,
    client: Seq<u8>,
    sequence: u64,
    fingerprint: Seq<u8>,
    affected_rows: u64,
) -> std::result::Result<RequestsView, DatabaseErrorKind> {
    match result {
        ApplyOutcomeView::Applied(result) => Ok(
            requests.insert(
                client,
                DurableRequestRecordView { sequence, fingerprint, result, affected_rows },
            ),
        ),
        ApplyOutcomeView::Duplicate(result) => if requests.contains_key(client) {
            if requests[client].sequence != sequence || requests[client].fingerprint != fingerprint
                || requests[client].result != result {
                Err(DatabaseErrorKind::Invariant)
            } else {
                Ok(requests)
            }
        } else {
            Ok(
                requests.insert(
                    client,
                    DurableRequestRecordView { sequence, fingerprint, result, affected_rows },
                ),
            )
        },
        ApplyOutcomeView::Rejected(_) => Ok(requests),
        ApplyOutcomeView::Noop => Err(DatabaseErrorKind::Invariant),
    }
}

/// The kept requests after an outcome.
pub fn record_outcome(
    requests: &DurableRequests,
    result: &ApplyOutcome,
    client_id: &[u8; 16],
    sequence: u64,
    fingerprint: &[u8; 32],
    affected_rows: u64,
) -> (recorded: Result<DurableRequests>)
    ensures
        outcome(recorded) == requests_after(
            requests.deep_view(),
            result.deep_view(),
            client_id@,
            sequence,
            fingerprint@,
            affected_rows,
        ),
{
    let mut next = requests.duplicate();
    match result {
        ApplyOutcome::Applied(result) => {
            let record = DurableRequestRecord {
                sequence,
                fingerprint: *fingerprint,
                result: result.duplicate(),
                affected_rows,
            };
            next.insert(*client_id, record);
        },
        ApplyOutcome::Duplicate(result) => {
            let mut missing = true;
            if let Some(existing) = requests.get(client_id) {
                if existing.sequence != sequence || !existing.fingerprint.same(fingerprint)
                    || !existing.result.same(result) {
                    return Err(
                        DatabaseError::Invariant(
                            "engine duplicate disagrees with durable request fingerprint".to_owned(),
                        ),
                    );
                }
                missing = false;
            }
            if missing {
                let record = DurableRequestRecord {
                    sequence,
                    fingerprint: *fingerprint,
                    result: result.duplicate(),
                    affected_rows,
                };
                next.insert(*client_id, record);
            }
        },
        ApplyOutcome::Rejected(_) => {},
        ApplyOutcome::Noop => {
            return Err(
                DatabaseError::Invariant(
                    "transaction publication received a Raft no-op".to_owned(),
                ),
            );
        },
    }
    Ok(next)
}

/// Whether the kept request is the one whose outcome a replay found. A duplicate
/// has kept the rows of the first request of its identity, not its own.
pub open spec fn replay_agrees(
    requests: RequestsView,
    client: Seq<u8>,
    sequence: u64,
    fingerprint: Seq<u8>,
    affected_rows: u64,
    result: ApplyOutcomeView,
) -> bool {
    match result {
        ApplyOutcomeView::Applied(result) => {
            &&& requests.contains_key(client)
            &&& requests[client] == (DurableRequestRecordView {
                sequence,
                fingerprint,
                result,
                affected_rows,
            })
        },
        ApplyOutcomeView::Duplicate(result) => {
            &&& requests.contains_key(client)
            &&& requests[client].sequence == sequence
            &&& requests[client].fingerprint == fingerprint
            &&& requests[client].result == result
        },
        ApplyOutcomeView::Rejected(_) => true,
        ApplyOutcomeView::Noop => false,
    }
}

/// Fails unless the kept request is the one whose outcome a replay found. A
/// rejected request has left the record before it untouched.
pub fn validate_durable_replay(
    requests: &DurableRequests,
    client_id: &[u8; 16],
    sequence: u64,
    fingerprint: &[u8; 32],
    affected_rows: u64,
    result: &ApplyOutcome,
) -> (checked: Result<()>)
    ensures
        outcome(checked) == if replay_agrees(
            requests.deep_view(),
            client_id@,
            sequence,
            fingerprint@,
            affected_rows,
            result.deep_view(),
        ) {
            Ok::<(), DatabaseErrorKind>(())
        } else {
            Err(DatabaseErrorKind::Corruption)
        },
{
    let (result, first) = match result {
        ApplyOutcome::Applied(result) => (result, true),
        ApplyOutcome::Duplicate(result) => (result, false),
        ApplyOutcome::Rejected(_) => return Ok(()),
        ApplyOutcome::Noop => {
            return Err(corruption("transaction replay found a durable Raft no-op"))
        },
    };
    match requests.get(client_id) {
        None => Err(corruption("durable replicated apply has no request fingerprint")),
        Some(record) => if record.sequence != sequence || !record.fingerprint.same(fingerprint)
            || (first && record.affected_rows != affected_rows) || !record.result.same(result) {
            Err(corruption("durable replicated request metadata disagrees with replay"))
        } else {
            Ok(())
        },
    }
}

/// Recording the outcome of a new request keeps the requests in step with the
/// engine that applied it.
pub proof fn recording_keeps_agreement(
    engine: EngineView,
    requests: RequestsView,
    index: u64,
    apply_hash: Seq<u8>,
    fingerprint: Seq<u8>,
    attempt: crate::engine::transaction::TxnAttemptView,
    result: ApplyOutcomeView,
    next: EngineView,
    affected_rows: u64,
)
    requires
        requests_agree(engine, requests),
        requests.dom().finite(),
        engine.clients.dom().finite(),
        index != engine.last_applied,
        engine.applied_as(index, apply_hash, fingerprint, attempt, result, next),
    ensures
        requests_after(
            requests,
            result,
            attempt.request.client_id,
            attempt.request.sequence,
            fingerprint,
            affected_rows,
        ) matches Ok(after) && requests_agree(next, after),
{
    assert(requests.dom().subset_of(engine.clients.dom()));
    vstd::set_lib::lemma_subset_equality(requests.dom(), engine.clients.dom());
    let client = attempt.request.client_id;
    assert(requests.contains_key(client) == engine.clients.contains_key(client));
    match result {
        ApplyOutcomeView::Applied(result) => {
            let after = requests.insert(
                client,
                DurableRequestRecordView {
                    sequence: attempt.request.sequence,
                    fingerprint,
                    result,
                    affected_rows,
                },
            );
            assert(after.dom() =~= requests.dom().insert(client));
            assert(next.clients.dom() =~= engine.clients.dom().insert(client));
        },
        _ => {},
    }
}

} // verus!
