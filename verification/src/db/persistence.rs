//! What the storage of a database reads and writes.

use vstd::prelude::*;
use crate::db::error::{DatabaseError, DatabaseErrorKind, Result};
use crate::db::requests::{
    DurableRequestRecord, DurableRequestRecordView, DurableRequests, REQUEST_RECORD_KIND,
    RequestsView, corruption, decode_request_records, requests_agree, requests_in,
    validate_durable_requests,
};
use crate::db::scalar::invariant_error;
use crate::db::tree::{TreeView, decode_records, tree_records, tree_valid};
use crate::engine::records::{
    SnapshotPart, SnapshotPartView, SnapshotRecord, SnapshotRecordView, collected, sorts_records,
};
use crate::engine::snapshot::EngineSnapshot;
use crate::engine::state::{Engine, EngineView};
use crate::model::{Model, outcome};
use crate::ordmap::{OrdMap, member_is_listed, ordered};
use crate::text::decimal_text;
use crate::types::message;

verus! {

broadcast use crate::model::group_contents;

/// What turns one tree into another.
#[derive(Debug, Clone, PartialEq, Eq)]
pub struct TreeChanges {
    /// The keys to take out.
    pub removed: Vec<Vec<u8>>,
    /// The keys to set.
    pub written: Vec<Vec<u8>>,
}

/// The content of a [`TreeChanges`].
#[verifier::ext_equal]
pub struct TreeChangesView {
    pub removed: Seq<Seq<u8>>,
    pub written: Seq<Seq<u8>>,
}

impl DeepView for TreeChanges {
    type V = TreeChangesView;

    open spec fn deep_view(&self) -> TreeChangesView {
        TreeChangesView {
            removed: self.removed.deep_view(),
            written: self.written.deep_view(),
        }
    }
}

impl Model for TreeChanges {
    fn duplicate(&self) -> (copy: Self) {
        TreeChanges {
            removed: self.removed.duplicate(),
            written: self.written.duplicate(),
        }
    }

    fn same(&self, other: &Self) -> (equal: bool) {
        self.removed.same(&other.removed)
            && self.written.same(&other.written)
    }
}

/// The records of a tree, those of the engine and those that keep requests.
#[derive(Debug, Clone, PartialEq, Eq)]
pub struct StoredRecords {
    pub engine: Vec<SnapshotRecord>,
    pub requests: Vec<SnapshotRecord>,
}

/// The content of a [`StoredRecords`].
#[verifier::ext_equal]
pub struct StoredRecordsView {
    pub engine: Seq<SnapshotRecordView>,
    pub requests: Seq<SnapshotRecordView>,
}

impl DeepView for StoredRecords {
    type V = StoredRecordsView;

    open spec fn deep_view(&self) -> StoredRecordsView {
        StoredRecordsView {
            engine: self.engine.deep_view(),
            requests: self.requests.deep_view(),
        }
    }
}

impl Model for StoredRecords {
    fn duplicate(&self) -> (copy: Self) {
        StoredRecords {
            engine: self.engine.duplicate(),
            requests: self.requests.duplicate(),
        }
    }

    fn same(&self, other: &Self) -> (equal: bool) {
        self.engine.same(&other.engine)
            && self.requests.same(&other.requests)
    }
}
/// Whether a tree has to be read: the state before the first change has none,
/// and every other state has one.
pub fn has_tree(applied_index: u64, root: Option<u64>) -> (result: Result<bool>)
    ensures
        outcome(result) == if applied_index == 0 && root is None {
            Ok::<bool, DatabaseErrorKind>(false)
        } else if applied_index > 0 && root is Some {
            Ok(true)
        } else {
            Err(DatabaseErrorKind::Corruption)
        },
{
    if applied_index == 0 {
        match root {
            None => Ok(false),
            Some(_) => Err(corruption("genesis superblock unexpectedly names a snapshot tree")),
        }
    } else {
        match root {
            None => Err(corruption("applied database has no snapshot-tree root")),
            Some(_) => Ok(true),
        }
    }
}

/// Those of the first `n` records that keep requests, or those that do not.
pub open spec fn records_of_kind(records: Seq<SnapshotRecordView>, requests: bool, n: int) -> Seq<
    SnapshotRecordView,
>
    decreases n,
{
    if n <= 0 {
        Seq::empty()
    } else if (records[n - 1].kind == REQUEST_RECORD_KIND) == requests {
        records_of_kind(records, requests, n - 1).push(records[n - 1])
    } else {
        records_of_kind(records, requests, n - 1)
    }
}

/// The records of a tree.
pub fn read_tree(tree: &OrdMap<Vec<u8>, Vec<u8>>) -> (result: Result<StoredRecords>)
    ensures
        outcome(result) == if tree_valid(tree.deep_view()) {
            let records = ordered::<SnapshotRecord>(tree_records(tree.deep_view()));
            Ok::<StoredRecordsView, DatabaseErrorKind>(
                StoredRecordsView {
                    engine: records_of_kind(records, false, records.len() as int),
                    requests: records_of_kind(records, true, records.len() as int),
                },
            )
        } else {
            Err(DatabaseErrorKind::Corruption)
        },
{
    let records = match decode_records(tree) {
        Ok(records) => records,
        Err(error) => return Err(error),
    };
    let ghost view = records.deep_view();
    let mut engine: Vec<SnapshotRecord> = Vec::new();
    let mut requests: Vec<SnapshotRecord> = Vec::new();
    let mut i: usize = 0;
    assert(engine.deep_view() =~= Seq::empty());
    assert(requests.deep_view() =~= Seq::empty());
    while i < records.len()
        invariant
            i <= records@.len(),
            view == records.deep_view(),
            engine.deep_view() == records_of_kind(view, false, i as int),
            requests.deep_view() == records_of_kind(view, true, i as int),
        decreases records@.len() - i,
    {
        assert(view[i as int] == records@[i as int].deep_view());
        let ghost kept = requests.deep_view();
        let ghost others = engine.deep_view();
        let record = records[i].duplicate();
        let ghost content = record.deep_view();
        if record.kind == REQUEST_RECORD_KIND {
            requests.push(record);
            assert(requests.deep_view() =~= kept.push(content));
        } else {
            engine.push(record);
            assert(engine.deep_view() =~= others.push(content));
        }
        i = i + 1;
    }
    Ok(StoredRecords { engine, requests })
}

/// The state that records hold, given what their values say, if it is the state
/// at the index and with the hash that the storage names.
pub open spec fn state_in(
    engine_records: Seq<SnapshotRecordView>,
    parts: Seq<Option<SnapshotPartView>>,
    request_records: Seq<SnapshotRecordView>,
    decoded: Seq<Option<DurableRequestRecordView>>,
    applied_index: u64,
    state_hash: Seq<u8>,
) -> std::result::Result<(EngineView, RequestsView), DatabaseErrorKind> {
    match collected(engine_records, parts) {
        Err(error) => Err(DatabaseErrorKind::Engine(error)),
        Ok(snapshot) => match snapshot.restored() {
            Err(error) => Err(DatabaseErrorKind::Engine(error)),
            Ok(engine) => match requests_in(
                request_records,
                decoded,
                request_records.len() as int,
            ) {
                Some(requests) => if requests_agree(engine, requests) && engine.last_applied
                    == applied_index && engine.last_apply_hash == Some(state_hash) {
                    Ok((engine, requests))
                } else {
                    Err(DatabaseErrorKind::Corruption)
                },
                None => Err(DatabaseErrorKind::Corruption),
            },
        },
    }
}

/// The state that records hold.
pub fn load_state(
    records: &StoredRecords,
    parts: &Vec<Option<SnapshotPart>>,
    decoded: &Vec<Option<DurableRequestRecord>>,
    applied_index: u64,
    state_hash: &[u8; 32],
) -> (result: Result<(Engine, DurableRequests)>)
    requires
        parts@.len() == records.engine@.len(),
        decoded@.len() == records.requests@.len(),
    ensures
        match result {
            Ok((engine, requests)) => state_in(
                records.deep_view().engine,
                parts.deep_view(),
                records.deep_view().requests,
                decoded.deep_view(),
                applied_index,
                state_hash@,
            ) == Ok::<(EngineView, RequestsView), DatabaseErrorKind>(
                (engine.deep_view(), requests.deep_view()),
            ),
            Err(error) => state_in(
                records.deep_view().engine,
                parts.deep_view(),
                records.deep_view().requests,
                decoded.deep_view(),
                applied_index,
                state_hash@,
            ) == Err::<(EngineView, RequestsView), DatabaseErrorKind>(error.deep_view()),
        },
{
    let snapshot = match EngineSnapshot::from_records(&records.engine, parts) {
        Ok(snapshot) => snapshot,
        Err(error) => return Err(DatabaseError::Engine(error)),
    };
    let engine = match Engine::from_snapshot(snapshot) {
        Ok(engine) => engine,
        Err(error) => return Err(DatabaseError::Engine(error)),
    };
    let requests = match decode_request_records(&records.requests, decoded, &engine) {
        Ok(requests) => requests,
        Err(error) => return Err(error),
    };
    if engine.last_applied() != applied_index {
        return Err(
            DatabaseError::Corruption(
                message(
                    &[
                        "engine snapshot index ",
                        &decimal_text(engine.last_applied()),
                        " disagrees with superblock ",
                        &decimal_text(applied_index),
                    ],
                ),
            ),
        );
    }
    if !engine.last_apply_hash().same(&Some(*state_hash)) {
        return Err(corruption("engine snapshot hash disagrees with superblock"));
    }
    Ok((engine, requests))
}

/// The hash of a state that is to be kept next, if the storage is one index
/// behind it.
pub fn next_state_hash(engine: &Engine, durable_index: u64) -> (result: Result<[u8; 32]>)
    ensures
        match result {
            Ok(hash) => engine.deep_view().last_applied == durable_index + 1
                && engine.deep_view().last_apply_hash == Some(hash@),
            Err(error) => error.deep_view() == DatabaseErrorKind::Invariant && (
            engine.deep_view().last_applied != durable_index + 1
                || engine.deep_view().last_apply_hash is None),
        },
{
    if durable_index == u64::MAX {
        return Err(invariant_error("applied index overflow"));
    }
    if engine.last_applied() != durable_index + 1 {
        return Err(
            DatabaseError::Invariant(
                message(
                    &[
                        "candidate engine is at index ",
                        &decimal_text(engine.last_applied()),
                        ", durable pager expects ",
                        &decimal_text(durable_index + 1),
                    ],
                ),
            ),
        );
    }
    match engine.last_apply_hash() {
        Some(hash) => Ok(hash),
        None => Err(invariant_error("applied engine has no command hash")),
    }
}

/// The hash of a state that is to be taken on, if it is newer than what the
/// storage has, and its requests are those of its clients.
pub fn installed_state_hash(engine: &Engine, requests: &DurableRequests, durable_index: u64) -> (result:
    Result<[u8; 32]>)
    ensures
        match result {
            Ok(hash) => requests_agree(engine.deep_view(), requests.deep_view())
                && engine.deep_view().last_applied > durable_index
                && engine.deep_view().last_apply_hash == Some(hash@),
            Err(error) => if !requests_agree(engine.deep_view(), requests.deep_view()) {
                error.deep_view() == DatabaseErrorKind::Corruption
            } else {
                error.deep_view() == DatabaseErrorKind::Invariant && (
                engine.deep_view().last_applied <= durable_index
                    || engine.deep_view().last_apply_hash is None)
            },
        },
{
    if let Err(error) = validate_durable_requests(engine, requests) {
        return Err(error);
    }
    if engine.last_applied() <= durable_index {
        return Err(
            DatabaseError::Invariant(
                message(
                    &[
                        "installed snapshot index ",
                        &decimal_text(engine.last_applied()),
                        " must be newer than durable index ",
                        &decimal_text(durable_index),
                    ],
                ),
            ),
        );
    }
    match engine.last_apply_hash() {
        Some(hash) => Ok(hash),
        None => Err(invariant_error("snapshot engine has no apply hash")),
    }
}

/// The records that keep requests, by client, with the value of each.
pub open spec fn request_records_of(requests: RequestsView, values: Seq<Seq<u8>>) -> Seq<
    SnapshotRecordView,
> {
    let clients = ordered::<[u8; 16]>(requests.dom());
    Seq::new(
        clients.len(),
        |i: int|
            SnapshotRecordView { kind: REQUEST_RECORD_KIND, key: clients[i], value: values[i] },
    )
}

/// The records that keep requests, by client, with the value of each.
pub fn encode_request_records(requests: &DurableRequests, values: &Vec<Vec<u8>>) -> (records: Vec<
    SnapshotRecord,
>)
    requires
        values@.len() == requests.keys().len(),
    ensures
        records.deep_view() == request_records_of(requests.deep_view(), values.deep_view()),
{
    let ghost wanted = request_records_of(requests.deep_view(), values.deep_view());
    let count: usize = requests.len();
    let mut records: Vec<SnapshotRecord> = Vec::with_capacity(count);
    let mut i: usize = 0;
    while i < count
        invariant
            i <= count,
            count == requests.keys().len(),
            values@.len() == count,
            wanted == request_records_of(requests.deep_view(), values.deep_view()),
            records@.len() == i,
            forall|j: int| 0 <= j < i ==> (#[trigger] records@[j]).deep_view() == wanted[j],
        decreases count - i,
    {
        let client_id: &[u8; 16] = requests.key_at(i);
        let mut key: Vec<u8> = Vec::new();
        key.extend_from_slice(client_id.as_slice());
        assert(key.deep_view() =~= client_id@);
        assert(values.deep_view()[i as int] == values@[i as int].deep_view());
        let value = values[i].duplicate();
        records.push(SnapshotRecord { kind: REQUEST_RECORD_KIND, key, value });
        i = i + 1;
    }
    assert(records.deep_view() =~= wanted);
    records
}

/// The records of a state: those of the engine in their order, then those that
/// keep requests.
pub fn state_records(
    engine: &Engine,
    requests: &DurableRequests,
    part_values: &Vec<Vec<u8>>,
    request_values: &Vec<Vec<u8>>,
) -> (result: Result<Vec<SnapshotRecord>>)
    requires
        part_values@.len() == engine.deep_view().captured().parts().len(),
        request_values@.len() == requests.keys().len(),
    ensures
        match result {
            Ok(records) => requests_agree(engine.deep_view(), requests.deep_view())
                && engine.deep_view().captured().recordable(part_values.deep_view()) && exists|
                sorted: Seq<SnapshotRecordView>,
            |
                #[trigger] sorts_records(
                    engine.deep_view().captured().records(part_values.deep_view()),
                    sorted,
                ) && records.deep_view() == sorted + request_records_of(
                    requests.deep_view(),
                    request_values.deep_view(),
                ),
            Err(error) => if !requests_agree(engine.deep_view(), requests.deep_view()) {
                error.deep_view() == DatabaseErrorKind::Corruption
            } else {
                !engine.deep_view().captured().recordable(part_values.deep_view())
                    && error.deep_view() == DatabaseErrorKind::Engine(
                    crate::engine::error::EngineErrorKind::InvalidSnapshot,
                )
            },
        },
{
    if let Err(error) = validate_durable_requests(engine, requests) {
        return Err(error);
    }
    let mut records = match engine.snapshot().to_records(part_values) {
        Ok(records) => records,
        Err(error) => return Err(DatabaseError::Engine(error)),
    };
    let ghost sorted = records.deep_view();
    let kept = encode_request_records(requests, request_values);
    let ghost more = kept.deep_view();
    let mut i: usize = 0;
    assert(sorted + more.subrange(0, 0) =~= sorted);
    while i < kept.len()
        invariant
            i <= kept@.len(),
            more == kept.deep_view(),
            records.deep_view() == sorted + more.subrange(0, i as int),
        decreases kept@.len() - i,
    {
        let ghost before = records.deep_view();
        let record = kept[i].duplicate();
        records.push(record);
        assert(records.deep_view() =~= before.push(record.deep_view()));
        assert(sorted + more.subrange(0, i + 1) =~= (sorted + more.subrange(0, i as int)).push(
            more[i as int],
        ));
        i = i + 1;
    }
    assert(more.subrange(0, i as int) =~= more);
    Ok(records)
}

/// A tree after keys are taken out and others are set as in `expected`.
pub open spec fn changed(tree: TreeView, changes: TreeChangesView, expected: TreeView) -> TreeView {
    Map::new(
        |key: Seq<u8>|
            changes.written.contains(key) || tree.contains_key(key) && !changes.removed.contains(
                key,
            ),
        |key: Seq<u8>|
            if changes.written.contains(key) {
                expected[key]
            } else {
                tree[key]
            },
    )
}

/// What turns a tree into another: a key is taken out only if the other does not
/// have it, and set only if the other has it with another value.
pub fn tree_changes(current: &OrdMap<Vec<u8>, Vec<u8>>, expected: &OrdMap<Vec<u8>, Vec<u8>>) -> (changes:
    TreeChanges)
    ensures
        forall|key: Seq<u8>| #[trigger]
            changes.deep_view().removed.contains(key) <==> current.deep_view().contains_key(key)
                && !expected.deep_view().contains_key(key),
        forall|key: Seq<u8>| #[trigger]
            changes.deep_view().written.contains(key) <==> expected.deep_view().contains_key(key)
                && !(current.deep_view().contains_key(key) && current.deep_view()[key]
                == expected.deep_view()[key]),
        changed(current.deep_view(), changes.deep_view(), expected.deep_view())
            == expected.deep_view(),
{
    let ghost from = current.deep_view();
    let ghost to = expected.deep_view();
    let mut removed: Vec<Vec<u8>> = Vec::new();
    let old_count: usize = current.len();
    let ghost old_keys = current.keys();
    let mut i: usize = 0;
    assert(removed.deep_view() =~= Seq::empty());
    while i < old_count
        invariant
            i <= old_count,
            from == current.deep_view(),
            to == expected.deep_view(),
            old_keys == current.keys(),
            old_count == old_keys.len(),
            forall|key: Seq<u8>| #[trigger]
                removed.deep_view().contains(key) <==> !to.contains_key(key) && old_keys.subrange(
                    0,
                    i as int,
                ).contains(key),
        decreases old_count - i,
    {
        let key = current.key_at(i);
        let ghost name = old_keys[i as int];
        let ghost before = removed.deep_view();
        let ghost seen = old_keys.subrange(0, i as int);
        assert(old_keys.subrange(0, i + 1) =~= seen.push(name));
        if !expected.contains_key(key) {
            removed.push(key.duplicate());
            assert(removed.deep_view() =~= before.push(name));
        }
        assert forall|k: Seq<u8>| #[trigger] removed.deep_view().contains(k) <==> !to.contains_key(
            k,
        ) && old_keys.subrange(0, i + 1).contains(k) by {
            pushed_contains(seen, name, k);
            pushed_contains(before, name, k);
        }
        i = i + 1;
    }
    assert(old_keys.subrange(0, i as int) =~= old_keys);
    let mut written: Vec<Vec<u8>> = Vec::new();
    let new_count: usize = expected.len();
    let ghost new_keys = expected.keys();
    let mut n: usize = 0;
    assert(written.deep_view() =~= Seq::empty());
    while n < new_count
        invariant
            n <= new_count,
            from == current.deep_view(),
            to == expected.deep_view(),
            new_keys == expected.keys(),
            new_count == new_keys.len(),
            forall|key: Seq<u8>| #[trigger]
                written.deep_view().contains(key) <==> !(from.contains_key(key) && from[key]
                    == to[key]) && new_keys.subrange(0, n as int).contains(key),
        decreases new_count - n,
    {
        let key = expected.key_at(n);
        let value = expected.value_at(n);
        let ghost name = new_keys[n as int];
        let ghost before = written.deep_view();
        let ghost seen = new_keys.subrange(0, n as int);
        assert(new_keys.subrange(0, n + 1) =~= seen.push(name));
        let same = match current.get(key) {
            Some(existing) => existing.same(value),
            None => false,
        };
        if !same {
            written.push(key.duplicate());
            assert(written.deep_view() =~= before.push(name));
        }
        assert forall|k: Seq<u8>| #[trigger] written.deep_view().contains(k) <==> !(
        from.contains_key(k) && from[k] == to[k]) && new_keys.subrange(0, n + 1).contains(k) by {
            pushed_contains(seen, name, k);
            pushed_contains(before, name, k);
        }
        n = n + 1;
    }
    assert(new_keys.subrange(0, n as int) =~= new_keys);
    let changes = TreeChanges { removed, written };
    proof {
        assert forall|key: Seq<u8>| from.contains_key(key) <==> old_keys.contains(key) by {
            member_is_listed::<Vec<u8>>(old_keys, from.dom(), key);
        }
        assert forall|key: Seq<u8>| to.contains_key(key) <==> new_keys.contains(key) by {
            member_is_listed::<Vec<u8>>(new_keys, to.dom(), key);
        }
        assert(changed(from, changes.deep_view(), to) =~= to);
    }
    changes
}

proof fn pushed_contains(seen: Seq<Seq<u8>>, name: Seq<u8>, key: Seq<u8>)
    ensures
        seen.push(name).contains(key) <==> seen.contains(key) || key == name,
{
    let more = seen.push(name);
    if seen.contains(key) {
        let i = seen.index_of(key);
        assert(more[i] == key);
    }
    if key == name {
        assert(more[seen.len() as int] == key);
    }
    if more.contains(key) && key != name {
        let i = more.index_of(key);
        assert(seen[i] == key);
    }
}

} // verus!
