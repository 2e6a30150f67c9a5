//! Snapshots of an engine.

use vstd::prelude::*;
use crate::checks::{first_of, first_stays};
use crate::engine::catalog::{Catalog, CatalogView, validation_decides_validity};
use crate::engine::error::{EngineError, EngineErrorKind, Result};
use crate::engine::mvcc::{
    RowVersion, RowVersionView, SecondaryKey, SecondaryKeyView, SecondaryVersion, chain_valid,
    total_versions, versions_valid,
};
use crate::engine::outcome::{
    ApplyOutcome, ApplyOutcomeView, ClientRecord, ClientRecordView, EngineStats,
};
use crate::engine::state::{Engine, EngineState, EngineView};
use crate::engine::transaction::{LogicalKey, LogicalKeyView};
use crate::model::{Model, outcome};
use crate::ordmap::{Key, OrdMap, entry_keys, finite_set_is_listed, map_of, ordered};
use crate::text::{decimal, decimal_text};
use crate::types::{TableId, TxnId, labelled};

verus! {

broadcast use {crate::model::group_contents, crate::engine::state::engine_content};

/// The format of the snapshots that are written and read.
pub const SNAPSHOT_FORMAT: u32 = 2;

/// The versions of one row.
#[derive(Debug, Clone, PartialEq, Eq)]
pub struct PrimarySnapshotEntry {
    pub table_id: TableId,
    pub primary_key: Vec<u8>,
    pub versions: Vec<RowVersion>,
}

/// The content of a [`PrimarySnapshotEntry`].
#[verifier::ext_equal]
pub struct PrimarySnapshotEntryView {
    pub table_id: TableId,
    pub primary_key: Seq<u8>,
    pub versions: Seq<RowVersionView>,
}

impl DeepView for PrimarySnapshotEntry {
    type V = PrimarySnapshotEntryView;

    open spec fn deep_view(&self) -> PrimarySnapshotEntryView {
        PrimarySnapshotEntryView {
            table_id: self.table_id.deep_view(),
            primary_key: self.primary_key.deep_view(),
            versions: self.versions.deep_view(),
        }
    }
}

impl Model for PrimarySnapshotEntry {
    fn duplicate(&self) -> (copy: Self) {
        PrimarySnapshotEntry {
            table_id: self.table_id.duplicate(),
            primary_key: self.primary_key.duplicate(),
            versions: self.versions.duplicate(),
        }
    }

    fn same(&self, other: &Self) -> (equal: bool) {
        self.table_id.same(&other.table_id)
            && self.primary_key.same(&other.primary_key)
            && self.versions.same(&other.versions)
    }
}

/// The versions of one index entry.
#[derive(Debug, Clone, PartialEq, Eq)]
pub struct SecondarySnapshotEntry {
    pub key: SecondaryKey,
    pub versions: Vec<SecondaryVersion>,
}

/// The content of a [`SecondarySnapshotEntry`].
#[verifier::ext_equal]
pub struct SecondarySnapshotEntryView {
    pub key: SecondaryKeyView,
    pub versions: Seq<SecondaryVersion>,
}

impl DeepView for SecondarySnapshotEntry {
    type V = SecondarySnapshotEntryView;

    open spec fn deep_view(&self) -> SecondarySnapshotEntryView {
        SecondarySnapshotEntryView {
            key: self.key.deep_view(),
            versions: self.versions.deep_view(),
        }
    }
}

impl Model for SecondarySnapshotEntry {
    fn duplicate(&self) -> (copy: Self) {
        SecondarySnapshotEntry {
            key: self.key.duplicate(),
            versions: self.versions.duplicate(),
        }
    }

    fn same(&self, other: &Self) -> (equal: bool) {
        self.key.same(&other.key)
            && self.versions.same(&other.versions)
    }
}

/// The last request of one client.
#[derive(Debug, Clone, PartialEq, Eq)]
pub struct ClientSnapshotEntry {
    pub client_id: [u8; 16],
    pub record: ClientRecord,
}

/// The content of a [`ClientSnapshotEntry`].
#[verifier::ext_equal]
pub struct ClientSnapshotEntryView {
    pub client_id: Seq<u8>,
    pub record: ClientRecordView,
}

impl DeepView for ClientSnapshotEntry {
    type V = ClientSnapshotEntryView;

    open spec fn deep_view(&self) -> ClientSnapshotEntryView {
        ClientSnapshotEntryView {
            client_id: self.client_id.deep_view(),
            record: self.record.deep_view(),
        }
    }
}

impl Model for ClientSnapshotEntry {
    fn duplicate(&self) -> (copy: Self) {
        ClientSnapshotEntry {
            client_id: self.client_id.duplicate(),
            record: self.record.duplicate(),
        }
    }

    fn same(&self, other: &Self) -> (equal: bool) {
        self.client_id.same(&other.client_id)
            && self.record.same(&other.record)
    }
}

/// The whole state of an engine as plain data.
#[derive(Debug, Clone, PartialEq, Eq)]
pub struct EngineSnapshot {
    pub format: u32,
    pub catalog: Catalog,
    pub primary: Vec<PrimarySnapshotEntry>,
    pub secondary: Vec<SecondarySnapshotEntry>,
    pub clients: Vec<ClientSnapshotEntry>,
    pub last_applied: u64,
    pub last_apply_hash: Option<[u8; 32]>,
    pub last_apply_outcome: Option<ApplyOutcome>,
    pub retained_floor: u64,
    pub next_txn_id: TxnId,
    pub stats: EngineStats,
}

/// The content of a [`EngineSnapshot`].
#[verifier::ext_equal]
pub struct EngineSnapshotView {
    pub format: u32,
    pub catalog: CatalogView,
    pub primary: Seq<PrimarySnapshotEntryView>,
    pub secondary: Seq<SecondarySnapshotEntryView>,
    pub clients: Seq<ClientSnapshotEntryView>,
    pub last_applied: u64,
    pub last_apply_hash: Option<Seq<u8>>,
    pub last_apply_outcome: Option<ApplyOutcomeView>,
    pub retained_floor: u64,
    pub next_txn_id: TxnId,
    pub stats: EngineStats,
}

impl DeepView for EngineSnapshot {
    type V = EngineSnapshotView;

    open spec fn deep_view(&self) -> EngineSnapshotView {
        EngineSnapshotView {
            format: self.format.deep_view(),
            catalog: self.catalog.deep_view(),
            primary: self.primary.deep_view(),
            secondary: self.secondary.deep_view(),
            clients: self.clients.deep_view(),
            last_applied: self.last_applied.deep_view(),
            last_apply_hash: self.last_apply_hash.deep_view(),
            last_apply_outcome: self.last_apply_outcome.deep_view(),
            retained_floor: self.retained_floor.deep_view(),
            next_txn_id: self.next_txn_id.deep_view(),
            stats: self.stats.deep_view(),
        }
    }
}

impl Model for EngineSnapshot {
    fn duplicate(&self) -> (copy: Self) {
        EngineSnapshot {
            format: self.format.duplicate(),
            catalog: self.catalog.duplicate(),
            primary: self.primary.duplicate(),
            secondary: self.secondary.duplicate(),
            clients: self.clients.duplicate(),
            last_applied: self.last_applied.duplicate(),
            last_apply_hash: self.last_apply_hash.duplicate(),
            last_apply_outcome: self.last_apply_outcome.duplicate(),
            retained_floor: self.retained_floor.duplicate(),
            next_txn_id: self.next_txn_id.duplicate(),
            stats: self.stats.duplicate(),
        }
    }

    fn same(&self, other: &Self) -> (equal: bool) {
        self.format.same(&other.format)
            && self.catalog.same(&other.catalog)
            && self.primary.same(&other.primary)
            && self.secondary.same(&other.secondary)
            && self.clients.same(&other.clients)
            && self.last_applied.same(&other.last_applied)
            && self.last_apply_hash.same(&other.last_apply_hash)
            && self.last_apply_outcome.same(&other.last_apply_outcome)
            && self.retained_floor.same(&other.retained_floor)
            && self.next_txn_id.same(&other.next_txn_id)
            && self.stats.same(&other.stats)
    }
}
/// The chains of rows by key.
pub open spec fn primary_entries(entries: Seq<PrimarySnapshotEntryView>) -> Seq<
    (LogicalKeyView, Seq<RowVersionView>),
> {
    Seq::new(
        entries.len(),
        |i: int|
            (
                LogicalKeyView {
                    table_id: entries[i].table_id,
                    primary_key: entries[i].primary_key,
                },
                entries[i].versions,
            ),
    )
}

/// The chains of index entries by key.
pub open spec fn secondary_entries(entries: Seq<SecondarySnapshotEntryView>) -> Seq<
    (SecondaryKeyView, Seq<SecondaryVersion>),
> {
    Seq::new(entries.len(), |i: int| (entries[i].key, entries[i].versions))
}

/// The records of clients by client.
pub open spec fn client_entries(entries: Seq<ClientSnapshotEntryView>) -> Seq<
    (Seq<u8>, ClientRecordView),
> {
    Seq::new(entries.len(), |i: int| (entries[i].client_id, entries[i].record))
}

/// No key occurs twice.
pub open spec fn distinct_keys<A, B>(entries: Seq<(A, B)>) -> bool {
    entry_keys(entries).no_duplicates()
}

/// An error says why a snapshot is refused.
pub open spec fn refuses(error: EngineError, text: Seq<char>) -> bool {
    error matches EngineError::InvalidSnapshot(words) && words@ == text
}

/// Whether a key stands earlier among entries.
pub open spec fn repeated<A, B>(entries: Seq<(A, B)>, i: int) -> bool {
    entry_keys(entries.take(i)).contains(entries[i].0)
}

/// What is wrong with the chain of a row.
pub open spec fn primary_flaw(
    entries: Seq<PrimarySnapshotEntryView>,
    last_applied: u64,
    i: int,
) -> Option<Seq<char>> {
    if !chain_valid::<RowVersion>(entries[i].versions, last_applied) {
        Some("primary version chain is empty, unordered, or out of range"@)
    } else if repeated(primary_entries(entries), i) {
        Some("duplicate primary version chain"@)
    } else {
        None
    }
}

pub open spec fn primary_flaws(
    entries: Seq<PrimarySnapshotEntryView>,
    last_applied: u64,
) -> spec_fn(int) -> Option<Seq<char>> {
    |i: int| primary_flaw(entries, last_applied, i)
}

/// What is wrong with the chain of an index entry.
pub open spec fn secondary_flaw(
    entries: Seq<SecondarySnapshotEntryView>,
    catalog: CatalogView,
    last_applied: u64,
    i: int,
) -> Option<Seq<char>> {
    let index_id = entries[i].key.index_id;
    if !chain_valid::<SecondaryVersion>(entries[i].versions, last_applied) {
        Some("secondary version chain is empty, unordered, or out of range"@)
    } else if !catalog.indexes.contains_key(index_id) {
        Some("secondary chain references missing index "@ + decimal(index_id as nat))
    } else if repeated(secondary_entries(entries), i) {
        Some("duplicate secondary version chain"@)
    } else {
        None
    }
}

pub open spec fn secondary_flaws(
    entries: Seq<SecondarySnapshotEntryView>,
    catalog: CatalogView,
    last_applied: u64,
) -> spec_fn(int) -> Option<Seq<char>> {
    |i: int| secondary_flaw(entries, catalog, last_applied, i)
}

/// What is wrong with the record of a client.
pub open spec fn client_flaw(entries: Seq<ClientSnapshotEntryView>, i: int) -> Option<Seq<char>> {
    if entries[i].record.sequence == 0 {
        Some("client sequence zero cannot be durable"@)
    } else if repeated(client_entries(entries), i) {
        Some("duplicate client record"@)
    } else {
        None
    }
}

pub open spec fn client_flaws(entries: Seq<ClientSnapshotEntryView>) -> spec_fn(int) -> Option<
    Seq<char>,
> {
    |i: int| client_flaw(entries, i)
}

impl EngineSnapshotView {
    pub open spec fn primary_chains_valid(self) -> bool {
        &&& distinct_keys(primary_entries(self.primary))
        &&& forall|i: int|
            0 <= i < self.primary.len() ==> chain_valid::<RowVersion>(
                (#[trigger] self.primary[i]).versions,
                self.last_applied,
            )
    }

    pub open spec fn secondary_chains_valid(self) -> bool {
        &&& distinct_keys(secondary_entries(self.secondary))
        &&& forall|i: int|
            0 <= i < self.secondary.len() ==> chain_valid::<SecondaryVersion>(
                (#[trigger] self.secondary[i]).versions,
                self.last_applied,
            ) && self.catalog.indexes.contains_key(self.secondary[i].key.index_id)
    }

    pub open spec fn clients_valid(self) -> bool {
        &&& distinct_keys(client_entries(self.clients))
        &&& forall|i: int|
            0 <= i < self.clients.len() ==> (#[trigger] self.clients[i]).record.sequence > 0
    }

    /// What was applied last is known exactly where something was applied.
    pub open spec fn last_apply_consistent(self) -> bool {
        &&& self.last_apply_hash is Some == (self.last_applied > 0)
        &&& self.last_apply_outcome is Some == (self.last_applied > 0)
    }

    /// Why no engine can be restored from the snapshot, if none can.
    pub open spec fn problem(self) -> Option<EngineErrorKind> {
        if self.format != SNAPSHOT_FORMAT {
            Some(EngineErrorKind::InvalidSnapshot)
        } else {
            match self.catalog.validated() {
                Err(error) => Some(error),
                Ok(_) => if self.retained_floor <= self.last_applied && self.last_apply_consistent()
                    && self.primary_chains_valid() && self.secondary_chains_valid()
                    && self.clients_valid() {
                    None
                } else {
                    Some(EngineErrorKind::InvalidSnapshot)
                },
            }
        }
    }

    /// How it reads why the snapshot is refused, where the catalog is not the reason.
    pub open spec fn refusal(self) -> Option<Seq<char>> {
        let unknown = self.last_apply_hash is None && self.last_apply_outcome is None;
        if self.format != SNAPSHOT_FORMAT {
            Some("unsupported engine snapshot format "@ + decimal(self.format as nat))
        } else if self.catalog.validated() is Err {
            None
        } else if self.retained_floor > self.last_applied {
            Some("retained floor exceeds last applied index"@)
        } else if (self.last_applied == 0) != unknown {
            Some("last apply metadata is inconsistent"@)
        } else if self.last_applied > 0 && !(self.last_apply_hash is Some
            && self.last_apply_outcome is Some) {
            Some("last apply metadata is incomplete"@)
        } else {
            match first_of(
                primary_flaws(self.primary, self.last_applied),
                self.primary.len() as int,
            ) {
                Some(text) => Some(text),
                None => match first_of(
                    secondary_flaws(self.secondary, self.catalog, self.last_applied),
                    self.secondary.len() as int,
                ) {
                    Some(text) => Some(text),
                    None => first_of(client_flaws(self.clients), self.clients.len() as int),
                },
            }
        }
    }

    /// The engine that the snapshot describes.
    pub open spec fn engine(self) -> EngineView {
        let engine = EngineView {
            catalog: self.catalog,
            primary: map_of(primary_entries(self.primary)),
            secondary: map_of(secondary_entries(self.secondary)),
            clients: map_of(client_entries(self.clients)),
            last_applied: self.last_applied,
            last_apply_hash: self.last_apply_hash,
            last_apply_outcome: self.last_apply_outcome,
            retained_floor: self.retained_floor,
            next_txn_id: if self.next_txn_id == 0 {
                1
            } else {
                self.next_txn_id
            },
            stats: self.stats,
        };
        EngineView { stats: engine.counted(self.stats), ..engine }
    }

    /// The engine that is restored from the snapshot, or why none is.
    pub open spec fn restored(self) -> std::result::Result<EngineView, EngineErrorKind> {
        match self.problem() {
            Some(error) => Err(error),
            None => Ok(self.engine()),
        }
    }
}

impl EngineView {
    /// The snapshot of the engine: its maps as entries in key order.
    pub open spec fn captured(self) -> EngineSnapshotView {
        let rows = ordered::<LogicalKey>(self.primary.dom());
        let entries = ordered::<SecondaryKey>(self.secondary.dom());
        let clients = ordered::<[u8; 16]>(self.clients.dom());
        EngineSnapshotView {
            format: SNAPSHOT_FORMAT,
            catalog: self.catalog,
            primary: Seq::new(
                rows.len(),
                |i: int|
                    PrimarySnapshotEntryView {
                        table_id: rows[i].table_id,
                        primary_key: rows[i].primary_key,
                        versions: self.primary[rows[i]],
                    },
            ),
            secondary: Seq::new(
                entries.len(),
                |i: int|
                    SecondarySnapshotEntryView {
                        key: entries[i],
                        versions: self.secondary[entries[i]],
                    },
            ),
            clients: Seq::new(
                clients.len(),
                |i: int|
                    ClientSnapshotEntryView {
                        client_id: clients[i],
                        record: self.clients[clients[i]],
                    },
            ),
            last_applied: self.last_applied,
            last_apply_hash: self.last_apply_hash,
            last_apply_outcome: self.last_apply_outcome,
            retained_floor: self.retained_floor,
            next_txn_id: self.next_txn_id,
            stats: self.stats,
        }
    }
}

proof fn map_of_grows<A, B>(entries: Seq<(A, B)>, key: A, value: B)
    requires
        distinct_keys(entries),
        !entry_keys(entries).contains(key),
    ensures
        map_of(entries.push((key, value))) == map_of(entries).insert(key, value),
        distinct_keys(entries.push((key, value))),
{
    let keys = entry_keys(entries);
    let more = entries.push((key, value));
    let more_keys = entry_keys(more);
    assert(more_keys =~= keys.push(key));
    assert forall|k: A| more_keys.contains(k) <==> (keys.contains(k) || k == key) by {
        if keys.contains(k) {
            let i = keys.index_of(k);
            assert(more_keys[i] == k);
        }
        assert(more_keys[keys.len() as int] == key);
    }
    assert forall|k: A| more_keys.contains(k) implies map_of(more)[k] == map_of(entries).insert(
        key,
        value,
    )[k] by {
        let i = more_keys.index_of(k);
        assert(more_keys[i] == k);
        if k != key {
            assert(keys[i] == k);
            assert(keys.contains(k));
            let j = keys.index_of(k);
            assert(keys[j] == k);
        }
    }
    assert(map_of(more) =~= map_of(entries).insert(key, value));
}

/// Entries with different keys describe a map that holds each of them.
pub proof fn map_of_holds<A, B>(entries: Seq<(A, B)>)
    requires
        distinct_keys(entries),
    ensures
        map_of(entries).dom().finite(),
        forall|i: int|
            0 <= i < entries.len() ==> #[trigger] map_of(entries).contains_key(entries[i].0)
                && map_of(entries)[entries[i].0] == entries[i].1,
        forall|k: A| #[trigger]
            map_of(entries).contains_key(k) ==> exists|i: int|
                0 <= i < entries.len() && entries[i] == (k, map_of(entries)[k]),
{
    let keys = entry_keys(entries);
    assert forall|i: int| 0 <= i < entries.len() implies #[trigger] map_of(entries).contains_key(
        entries[i].0,
    ) && map_of(entries)[entries[i].0] == entries[i].1 by {
        assert(keys[i] == entries[i].0);
        assert(keys.contains(keys[i]));
        let j = keys.index_of(keys[i]);
        assert(keys[j] == keys[i]);
    }
    assert forall|k: A| #[trigger] map_of(entries).contains_key(k) implies exists|i: int|
        0 <= i < entries.len() && entries[i] == (k, map_of(entries)[k]) by {
        let i = keys.index_of(k);
        assert(keys[i] == k);
        assert(entries[i] == (k, map_of(entries)[k]));
    }
    assert(map_of(entries).dom() =~= keys.to_set());
    vstd::seq_lib::seq_to_set_is_finite(keys);
}

/// A map is what its entries in key order describe.
proof fn map_of_listing<K: Key, B>(map: Map<K::V, B>, entries: Seq<(K::V, B)>)
    requires
        map.dom().finite(),
        entries.len() == ordered::<K>(map.dom()).len(),
        forall|i: int|
            0 <= i < entries.len() ==> #[trigger] entries[i] == (
                ordered::<K>(map.dom())[i],
                map[ordered::<K>(map.dom())[i]],
            ),
    ensures
        map_of(entries) == map,
        distinct_keys(entries),
        forall|i: int| 0 <= i < entries.len() ==> map.contains_key(#[trigger] entries[i].0),
{
    let listed = ordered::<K>(map.dom());
    finite_set_is_listed::<K>(map.dom());
    let keys = entry_keys(entries);
    assert(keys =~= listed);
    assert forall|i: int, j: int| 0 <= i < keys.len() && 0 <= j < keys.len() && i != j implies keys[i]
        != keys[j] by {
        K::before_irreflexive(keys[i]);
        K::before_irreflexive(keys[j]);
        if i < j {
            assert(K::before(keys[i], keys[j]));
        } else {
            assert(K::before(keys[j], keys[i]));
        }
    }
    map_of_holds(entries);
    assert forall|k: K::V| map.contains_key(k) <==> map_of(entries).contains_key(k) by {
        assert(map.dom().contains(k) <==> keys.contains(k));
    }
    assert forall|i: int| 0 <= i < entries.len() implies map.contains_key(#[trigger] entries[i].0) by {
        assert(keys[i] == entries[i].0);
        assert(keys.contains(keys[i]));
        assert(map.dom().contains(keys[i]));
    }
    assert(map_of(entries) =~= map);
}

/// An engine that is restored from its snapshot is the engine itself.
pub proof fn snapshot_round_trip(engine: EngineView)
    requires
        engine.well_formed(),
    ensures
        engine.captured().restored() == Ok::<EngineView, EngineErrorKind>(engine),
{
    let snapshot = engine.captured();
    validation_decides_validity(engine.catalog);
    map_of_listing::<LogicalKey, _>(engine.primary, primary_entries(snapshot.primary));
    map_of_listing::<SecondaryKey, _>(engine.secondary, secondary_entries(snapshot.secondary));
    map_of_listing::<[u8; 16], _>(engine.clients, client_entries(snapshot.clients));
    assert forall|i: int| 0 <= i < snapshot.primary.len() implies chain_valid::<RowVersion>(
        (#[trigger] snapshot.primary[i]).versions,
        snapshot.last_applied,
    ) by {
        let entry = primary_entries(snapshot.primary)[i];
        assert(engine.primary.contains_key(entry.0));
    }
    assert forall|i: int| 0 <= i < snapshot.secondary.len() implies chain_valid::<
        SecondaryVersion,
    >((#[trigger] snapshot.secondary[i]).versions, snapshot.last_applied)
        && snapshot.catalog.indexes.contains_key(snapshot.secondary[i].key.index_id) by {
        let entry = secondary_entries(snapshot.secondary)[i];
        assert(engine.secondary.contains_key(entry.0));
    }
    assert forall|i: int| 0 <= i < snapshot.clients.len() implies (
    #[trigger] snapshot.clients[i]).record.sequence > 0 by {
        let entry = client_entries(snapshot.clients)[i];
        assert(engine.clients.contains_key(entry.0));
    }
    assert(snapshot.engine() =~= engine);
}

/// What is restored from a snapshot meets the invariant of the engine.
pub proof fn restoring_keeps_invariant(snapshot: EngineSnapshotView)
    requires
        snapshot.catalog.finite(),
        snapshot.problem() is None,
    ensures
        snapshot.engine().well_formed(),
{
    let engine = snapshot.engine();
    validation_decides_validity(snapshot.catalog);
    map_of_holds(primary_entries(snapshot.primary));
    map_of_holds(secondary_entries(snapshot.secondary));
    map_of_holds(client_entries(snapshot.clients));
    assert forall|key: LogicalKeyView|
        #![trigger engine.primary[key]]
        engine.primary.contains_key(key) implies chain_valid::<RowVersion>(
        engine.primary[key],
        engine.last_applied,
    ) by {
        let entries = primary_entries(snapshot.primary);
        let i = choose|i: int|
            0 <= i < entries.len() && entries[i] == (key, map_of(entries)[key]);
        assert(snapshot.primary[i].versions == engine.primary[key]);
    }
    assert forall|key: SecondaryKeyView|
        #![trigger engine.secondary[key]]
        engine.secondary.contains_key(key) implies chain_valid::<SecondaryVersion>(
        engine.secondary[key],
        engine.last_applied,
    ) && engine.catalog.indexes.contains_key(key.index_id) by {
        let entries = secondary_entries(snapshot.secondary);
        let i = choose|i: int|
            0 <= i < entries.len() && entries[i] == (key, map_of(entries)[key]);
        assert(snapshot.secondary[i].versions == engine.secondary[key]);
    }
    assert forall|client: Seq<u8>|
        #![trigger engine.clients[client]]
        engine.clients.contains_key(client) implies engine.clients[client].sequence > 0 by {
        let entries = client_entries(snapshot.clients);
        let i = choose|i: int|
            0 <= i < entries.len() && entries[i] == (client, map_of(entries)[client]);
        assert(snapshot.clients[i].record == engine.clients[client]);
    }
}

fn invalid(text: &str) -> (error: EngineError)
    ensures
        error.deep_view() == EngineErrorKind::InvalidSnapshot,
        refuses(error, text@),
{
    EngineError::InvalidSnapshot(text.to_owned())
}

fn restore_primary(entries: &Vec<PrimarySnapshotEntry>, last_applied: u64) -> (result: Result<
    OrdMap<LogicalKey, Vec<RowVersion>>,
>)
    ensures
        match result {
            Ok(map) => {
                &&& distinct_keys(primary_entries(entries.deep_view()))
                &&& forall|i: int|
                    0 <= i < entries@.len() ==> chain_valid::<RowVersion>(
                        (#[trigger] entries.deep_view()[i]).versions,
                        last_applied,
                    )
                &&& map.deep_view() == map_of(primary_entries(entries.deep_view()))
                &&& first_of(
                    primary_flaws(entries.deep_view(), last_applied),
                    entries@.len() as int,
                ) is None
            },
            Err(error) => {
                &&& error.deep_view() == EngineErrorKind::InvalidSnapshot
                &&& first_of(
                    primary_flaws(entries.deep_view(), last_applied),
                    entries@.len() as int,
                ) is Some
                &&& refuses(
                    error,
                    first_of(
                        primary_flaws(entries.deep_view(), last_applied),
                        entries@.len() as int,
                    )->0,
                )
                &&& !(distinct_keys(primary_entries(entries.deep_view())) && forall|i: int|
                    0 <= i < entries@.len() ==> chain_valid::<RowVersion>(
                        (#[trigger] entries.deep_view()[i]).versions,
                        last_applied,
                    ))
            },
        },
{
    let ghost view = entries.deep_view();
    let ghost all = primary_entries(view);
    let ghost flaws = primary_flaws(view, last_applied);
    let mut map: OrdMap<LogicalKey, Vec<RowVersion>> = OrdMap::new();
    let mut i: usize = 0;
    assert(map.deep_view() =~= map_of(all.take(0)));
    while i < entries.len()
        invariant
            i <= entries@.len(),
            view == entries.deep_view(),
            all == primary_entries(view),
            flaws == primary_flaws(view, last_applied),
            first_of(flaws, i as int) is None,
            map.deep_view() == map_of(all.take(i as int)),
            distinct_keys(all.take(i as int)),
            forall|j: int|
                0 <= j < i ==> chain_valid::<RowVersion>(
                    (#[trigger] view[j]).versions,
                    last_applied,
                ),
        decreases entries@.len() - i,
    {
        let entry = &entries[i];
        assert(view[i as int] == entry.deep_view());
        assert(flaws(i as int) == primary_flaw(view, last_applied, i as int));
        if !versions_valid(&entry.versions, last_applied) {
            proof {
                first_stays(flaws, i + 1, entries@.len() as int);
            }
            return Err(
                invalid("primary version chain is empty, unordered, or out of range"),
            );
        }
        let key = LogicalKey {
            table_id: entry.table_id,
            primary_key: entry.primary_key.duplicate(),
        };
        let ghost name = key.deep_view();
        let ghost so_far = all.take(i as int);
        assert(all[i as int] == (name, view[i as int].versions));
        assert(all.take(i + 1) =~= so_far.push(all[i as int]));
        if map.insert(key, entry.versions.duplicate()).is_some() {
            proof {
                let keys = entry_keys(so_far);
                let j = keys.index_of(name);
                assert(entry_keys(all)[j] == keys[j]);
                assert(entry_keys(all)[i as int] == name);
                assert(repeated(all, i as int));
                first_stays(flaws, i + 1, entries@.len() as int);
            }
            return Err(invalid("duplicate primary version chain"));
        }
        proof {
            assert(!repeated(all, i as int));
            map_of_grows(so_far, name, view[i as int].versions);
        }
        i = i + 1;
    }
    assert(all.take(i as int) =~= all);
    Ok(map)
}

fn restore_secondary(
    entries: &Vec<SecondarySnapshotEntry>,
    catalog: &Catalog,
    last_applied: u64,
) -> (result: Result<OrdMap<SecondaryKey, Vec<SecondaryVersion>>>)
    ensures
        match result {
            Ok(map) => {
                &&& distinct_keys(secondary_entries(entries.deep_view()))
                &&& forall|i: int|
                    0 <= i < entries@.len() ==> chain_valid::<SecondaryVersion>(
                        (#[trigger] entries.deep_view()[i]).versions,
                        last_applied,
                    ) && catalog.deep_view().indexes.contains_key(
                        entries.deep_view()[i].key.index_id,
                    )
                &&& map.deep_view() == map_of(secondary_entries(entries.deep_view()))
                &&& first_of(
                    secondary_flaws(entries.deep_view(), catalog.deep_view(), last_applied),
                    entries@.len() as int,
                ) is None
            },
            Err(error) => {
                &&& error.deep_view() == EngineErrorKind::InvalidSnapshot
                &&& first_of(
                    secondary_flaws(entries.deep_view(), catalog.deep_view(), last_applied),
                    entries@.len() as int,
                ) is Some
                &&& refuses(
                    error,
                    first_of(
                        secondary_flaws(entries.deep_view(), catalog.deep_view(), last_applied),
                        entries@.len() as int,
                    )->0,
                )
                &&& !(distinct_keys(secondary_entries(entries.deep_view())) && forall|i: int|
                    0 <= i < entries@.len() ==> chain_valid::<SecondaryVersion>(
                        (#[trigger] entries.deep_view()[i]).versions,
                        last_applied,
                    ) && catalog.deep_view().indexes.contains_key(
                        entries.deep_view()[i].key.index_id,
                    ))
            },
        },
{
    let ghost view = entries.deep_view();
    let ghost all = secondary_entries(view);
    let ghost flaws = secondary_flaws(view, catalog.deep_view(), last_applied);
    let mut map: OrdMap<SecondaryKey, Vec<SecondaryVersion>> = OrdMap::new();
    let mut i: usize = 0;
    assert(map.deep_view() =~= map_of(all.take(0)));
    while i < entries.len()
        invariant
            i <= entries@.len(),
            view == entries.deep_view(),
            all == secondary_entries(view),
            flaws == secondary_flaws(view, catalog.deep_view(), last_applied),
            first_of(flaws, i as int) is None,
            map.deep_view() == map_of(all.take(i as int)),
            distinct_keys(all.take(i as int)),
            forall|j: int|
                0 <= j < i ==> chain_valid::<SecondaryVersion>(
                    (#[trigger] view[j]).versions,
                    last_applied,
                ) && catalog.deep_view().indexes.contains_key(view[j].key.index_id),
        decreases entries@.len() - i,
    {
        let entry = &entries[i];
        assert(view[i as int] == entry.deep_view());
        assert(flaws(i as int) == secondary_flaw(view, catalog.deep_view(), last_applied, i as int));
        if !versions_valid(&entry.versions, last_applied) {
            proof {
                first_stays(flaws, i + 1, entries@.len() as int);
            }
            return Err(
                invalid("secondary version chain is empty, unordered, or out of range"),
            );
        }
        if catalog.index(entry.key.index_id).is_none() {
            proof {
                first_stays(flaws, i + 1, entries@.len() as int);
            }
            return Err(
                invalid(
                    &labelled(
                        "secondary chain references missing index ",
                        &decimal_text(entry.key.index_id),
                    ),
                ),
            );
        }
        let ghost name = entry.key.deep_view();
        let ghost so_far = all.take(i as int);
        assert(all[i as int] == (name, view[i as int].versions));
        assert(all.take(i + 1) =~= so_far.push(all[i as int]));
        if map.insert(entry.key.duplicate(), entry.versions.duplicate()).is_some() {
            proof {
                let keys = entry_keys(so_far);
                let j = keys.index_of(name);
                assert(entry_keys(all)[j] == keys[j]);
                assert(entry_keys(all)[i as int] == name);
                assert(repeated(all, i as int));
                first_stays(flaws, i + 1, entries@.len() as int);
            }
            return Err(invalid("duplicate secondary version chain"));
        }
        proof {
            assert(!repeated(all, i as int));
            map_of_grows(so_far, name, view[i as int].versions);
        }
        i = i + 1;
    }
    assert(all.take(i as int) =~= all);
    Ok(map)
}

fn restore_clients(entries: &Vec<ClientSnapshotEntry>) -> (result: Result<
    OrdMap<[u8; 16], ClientRecord>,
>)
    ensures
        match result {
            Ok(map) => {
                &&& distinct_keys(client_entries(entries.deep_view()))
                &&& forall|i: int|
                    0 <= i < entries@.len() ==> (
                    #[trigger] entries.deep_view()[i]).record.sequence > 0
                &&& map.deep_view() == map_of(client_entries(entries.deep_view()))
                &&& first_of(client_flaws(entries.deep_view()), entries@.len() as int) is None
            },
            Err(error) => {
                &&& error.deep_view() == EngineErrorKind::InvalidSnapshot
                &&& first_of(client_flaws(entries.deep_view()), entries@.len() as int) is Some
                &&& refuses(
                    error,
                    first_of(client_flaws(entries.deep_view()), entries@.len() as int)->0,
                )
                &&& !(distinct_keys(client_entries(entries.deep_view())) && forall|i: int|
                    0 <= i < entries@.len() ==> (
                    #[trigger] entries.deep_view()[i]).record.sequence > 0)
            },
        },
{
    let ghost view = entries.deep_view();
    let ghost all = client_entries(view);
    let ghost flaws = client_flaws(view);
    let mut map: OrdMap<[u8; 16], ClientRecord> = OrdMap::new();
    let mut i: usize = 0;
    assert(map.deep_view() =~= map_of(all.take(0)));
    while i < entries.len()
        invariant
            i <= entries@.len(),
            view == entries.deep_view(),
            all == client_entries(view),
            flaws == client_flaws(view),
            first_of(flaws, i as int) is None,
            map.deep_view() == map_of(all.take(i as int)),
            distinct_keys(all.take(i as int)),
            forall|j: int| 0 <= j < i ==> (#[trigger] view[j]).record.sequence > 0,
        decreases entries@.len() - i,
    {
        let entry = &entries[i];
        assert(view[i as int] == entry.deep_view());
        assert(flaws(i as int) == client_flaw(view, i as int));
        if entry.record.sequence == 0 {
            proof {
                first_stays(flaws, i + 1, entries@.len() as int);
            }
            return Err(invalid("client sequence zero cannot be durable"));
        }
        let ghost name = entry.client_id.deep_view();
        let ghost so_far = all.take(i as int);
        assert(all[i as int] == (name, view[i as int].record));
        assert(all.take(i + 1) =~= so_far.push(all[i as int]));
        if map.insert(entry.client_id, entry.record.duplicate()).is_some() {
            proof {
                let keys = entry_keys(so_far);
                let j = keys.index_of(name);
                assert(entry_keys(all)[j] == keys[j]);
                assert(entry_keys(all)[i as int] == name);
                assert(repeated(all, i as int));
                first_stays(flaws, i + 1, entries@.len() as int);
            }
            return Err(invalid("duplicate client record"));
        }
        proof {
            assert(!repeated(all, i as int));
            map_of_grows(so_far, name, view[i as int].record);
        }
        i = i + 1;
    }
    assert(all.take(i as int) =~= all);
    Ok(map)
}

impl Engine {
    /// The whole state as plain data.
    pub fn snapshot(&self) -> (snapshot: EngineSnapshot)
        ensures
            snapshot.deep_view() == self.deep_view().captured(),
    {
        let ghost view = self.deep_view();
        let ghost wanted = view.captured();
        let mut primary: Vec<PrimarySnapshotEntry> = Vec::new();
        let rows: usize = self.state.primary.len();
        let mut i: usize = 0;
        while i < rows
            invariant
                i <= rows,
                rows == self.state.primary.keys().len(),
                view == self.deep_view(),
                wanted == view.captured(),
                primary@.len() == i,
                forall|j: int|
                    0 <= j < i ==> (#[trigger] primary@[j]).deep_view() == wanted.primary[j],
            decreases rows - i,
        {
            let key = self.state.primary.key_at(i);
            let versions = self.state.primary.value_at(i);
            primary.push(
                PrimarySnapshotEntry {
                    table_id: key.table_id,
                    primary_key: key.primary_key.duplicate(),
                    versions: versions.duplicate(),
                },
            );
            i = i + 1;
        }
        let mut secondary: Vec<SecondarySnapshotEntry> = Vec::new();
        let entries: usize = self.state.secondary.len();
        i = 0;
        while i < entries
            invariant
                i <= entries,
                entries == self.state.secondary.keys().len(),
                view == self.deep_view(),
                wanted == view.captured(),
                secondary@.len() == i,
                forall|j: int|
                    0 <= j < i ==> (#[trigger] secondary@[j]).deep_view() == wanted.secondary[j],
            decreases entries - i,
        {
            let key = self.state.secondary.key_at(i);
            let versions = self.state.secondary.value_at(i);
            secondary.push(
                SecondarySnapshotEntry { key: key.duplicate(), versions: versions.duplicate() },
            );
            i = i + 1;
        }
        let mut clients: Vec<ClientSnapshotEntry> = Vec::new();
        let records: usize = self.state.clients.len();
        i = 0;
        while i < records
            invariant
                i <= records,
                records == self.state.clients.keys().len(),
                view == self.deep_view(),
                wanted == view.captured(),
                clients@.len() == i,
                forall|j: int|
                    0 <= j < i ==> (#[trigger] clients@[j]).deep_view() == wanted.clients[j],
            decreases records - i,
        {
            let client_id = self.state.clients.key_at(i);
            let record = self.state.clients.value_at(i);
            clients.push(
                ClientSnapshotEntry { client_id: *client_id, record: record.duplicate() },
            );
            i = i + 1;
        }
        assert(primary.deep_view() =~= wanted.primary);
        assert(secondary.deep_view() =~= wanted.secondary);
        assert(clients.deep_view() =~= wanted.clients);
        EngineSnapshot {
            format: SNAPSHOT_FORMAT,
            catalog: self.state.catalog.duplicate(),
            primary,
            secondary,
            clients,
            last_applied: self.state.last_applied,
            last_apply_hash: self.state.last_apply_hash.duplicate(),
            last_apply_outcome: self.state.last_apply_outcome.duplicate(),
            retained_floor: self.state.retained_floor,
            next_txn_id: self.state.next_txn_id,
            stats: self.state.stats,
        }
    }

    /// Checks a snapshot and restores the engine that it describes.
    pub fn from_snapshot(snapshot: EngineSnapshot) -> (result: Result<Engine>)
        ensures
            outcome(result) == snapshot.deep_view().restored(),
            result matches Ok(engine) ==> engine.deep_view().well_formed(),
            match snapshot.deep_view().refusal() {
                Some(text) => result matches Err(error) && refuses(error, text),
                None => result matches Err(error) ==> snapshot.deep_view().catalog.unsound_words()
                    == Some(error.shown()),
            },
    {
        let ghost view = snapshot.deep_view();
        if snapshot.format != SNAPSHOT_FORMAT {
            return Err(
                invalid(
                    &labelled(
                        "unsupported engine snapshot format ",
                        &decimal_text(snapshot.format as u64),
                    ),
                ),
            );
        }
        if let Err(error) = snapshot.catalog.validate() {
            return Err(error);
        }
        if snapshot.retained_floor > snapshot.last_applied {
            return Err(invalid("retained floor exceeds last applied index"));
        }
        let hash = snapshot.last_apply_hash.is_some();
        let last = snapshot.last_apply_outcome.is_some();
        if (snapshot.last_applied == 0) != (!hash && !last) {
            return Err(invalid("last apply metadata is inconsistent"));
        }
        if snapshot.last_applied > 0 && !(hash && last) {
            return Err(invalid("last apply metadata is incomplete"));
        }
        let primary = match restore_primary(&snapshot.primary, snapshot.last_applied) {
            Ok(primary) => primary,
            Err(error) => return Err(error),
        };
        let secondary = match restore_secondary(
            &snapshot.secondary,
            &snapshot.catalog,
            snapshot.last_applied,
        ) {
            Ok(secondary) => secondary,
            Err(error) => return Err(error),
        };
        let clients = match restore_clients(&snapshot.clients) {
            Ok(clients) => clients,
            Err(error) => return Err(error),
        };
        let mut stats = snapshot.stats;
        stats.primary_versions = total_versions(&primary) as u64;
        stats.secondary_versions = total_versions(&secondary) as u64;
        let next_txn_id = if snapshot.next_txn_id == 0 {
            1
        } else {
            snapshot.next_txn_id
        };
        let state = EngineState {
            catalog: snapshot.catalog,
            primary,
            secondary,
            clients,
            last_applied: snapshot.last_applied,
            last_apply_hash: snapshot.last_apply_hash,
            last_apply_outcome: snapshot.last_apply_outcome,
            retained_floor: snapshot.retained_floor,
            next_txn_id,
            stats,
        };
        proof {
            restoring_keeps_invariant(view);
            assert(state.content() =~= view.engine());
        }
        Ok(Engine { state })
    }
}

} // verus!
