//! Secondary indexes hold exactly what the rows hold.

use vstd::prelude::*;
use crate::codec::{encodable, ordered_encoding_is_injective, ordered_value};
use crate::engine::catalog::{
    CatalogMutationView, CatalogView, IndexMetaView, created_indexes, created_indexes_are_new,
    indexes_of_table, };
use crate::engine::error::EngineErrorKind;
use crate::engine::laws::{
    commit_grows, has_id, snapshot_reads_repeat, table_keys_finite,
    vacuum_keeps_snapshots, write_touches, writes_entry, writes_row,
};
use crate::engine::mvcc::{
    RowVersion, RowVersionView, SecondaryKeyView, SecondaryVersion, Version, chain, chain_valid,
    newest_version_is_seen, seen_from_bounds, visible,
};
use crate::engine::outcome::ApplyOutcomeView;
use crate::engine::state::{EngineView, VersionsView, cell, entry_key, row_at};
use crate::engine::transaction::{
    LogicalKey, LogicalKeyView, TransactionView, TxnAttemptView, canonical_keys_increase,
    canonical_write_has_key,
};
use crate::ordmap::{Key, finite_set_is_listed, increasing, listing_is_unique, lists, ordered};
use crate::types::{IndexId, RowView, TableId, ValueView};

verus! {

/// What an index holds of a row: the encoding of the value in its column.
/// `NULL` is not indexed.
pub open spec fn indexed_value(row: Option<RowView>, column: usize) -> Option<Seq<u8>> {
    match cell(row, column) {
        Some(value) => if value is Null {
            None
        } else {
            Some(ordered_value(value))
        },
        None => None,
    }
}

impl EngineView {
    /// A snapshot sees an entry of the index exactly where it sees a row that
    /// holds the entry's value.
    pub open spec fn index_exact_at(self, index_id: IndexId, read_ts: u64) -> bool {
        let index = self.catalog.indexes[index_id];
        forall|key: SecondaryKeyView|
            key.index_id == index_id ==> (#[trigger] self.entry_visible(key, read_ts)
                <==> indexed_value(
                row_at(
                    self.primary,
                    LogicalKeyView { table_id: index.table_id, primary_key: key.primary_key },
                    read_ts,
                ),
                index.column,
            ) == Some(key.secondary_value))
    }

    /// The index is exact in every snapshot from `since` on that can be read.
    pub open spec fn index_exact(self, index_id: IndexId, since: u64) -> bool {
        &&& self.catalog.indexes.contains_key(index_id)
        &&& since <= self.last_applied
        &&& forall|read_ts: u64|
            since <= read_ts && self.retained_floor <= read_ts <= self.last_applied
                ==> #[trigger] self.index_exact_at(index_id, read_ts)
    }

    /// Every index is exact in the newest snapshot.
    pub open spec fn indexes_exact(self) -> bool {
        forall|index_id: IndexId|
            #![trigger self.catalog.indexes[index_id]]
            self.catalog.indexes.contains_key(index_id) ==> self.index_exact(
                index_id,
                self.last_applied,
            )
    }
}

/// The versions of an entry after its row changed what the index holds of it
/// from `old` to `new`.
spec fn changed(
    versions: Seq<SecondaryVersion>,
    bytes: Seq<u8>,
    old: Option<Seq<u8>>,
    new: Option<Seq<u8>>,
    index: u64,
) -> Seq<SecondaryVersion> {
    if old == new {
        versions
    } else if old == Some(bytes) {
        seq![SecondaryVersion { commit_index: index, present: false }] + versions
    } else if new == Some(bytes) {
        seq![SecondaryVersion { commit_index: index, present: true }] + versions
    } else {
        versions
    }
}

spec fn key_among(keys: Seq<LogicalKeyView>, n: int, key: LogicalKeyView) -> bool {
    exists|j: int| 0 <= j < n && #[trigger] keys[j] == key
}

proof fn index_is_listed(catalog: CatalogView, table_id: TableId, ids: Seq<u64>, n: int, k: int)
    requires
        0 <= k < n <= ids.len(),
        catalog.indexes[ids[k]].table_id == table_id,
    ensures
        catalog.indexes_among(table_id, ids, n).contains(catalog.indexes[ids[k]]),
    decreases n,
{
    let indexes = catalog.indexes_among(table_id, ids, n);
    if k < n - 1 {
        index_is_listed(catalog, table_id, ids, n - 1, k);
        let before = catalog.indexes_among(table_id, ids, n - 1);
        let i = choose|i: int| 0 <= i < before.len() && before[i] == catalog.indexes[ids[k]];
        assert(indexes[i] == before[i]);
    } else {
        assert(indexes.last() == catalog.indexes[ids[k]]);
    }
}

/// The list of a table's indexes holds the index if it is on that table.
proof fn index_of_table(catalog: CatalogView, table_id: TableId, id: IndexId)
    requires
        catalog.valid(),
        catalog.finite(),
        catalog.indexes.contains_key(id),
        catalog.indexes[id].table_id == table_id,
    ensures
        has_id(catalog.indexes_of(table_id), catalog.indexes_of(table_id).len() as int, id),
{
    let ids = ordered::<u64>(catalog.indexes.dom());
    finite_set_is_listed::<u64>(catalog.indexes.dom());
    assert(catalog.indexes.dom().contains(id));
    assert(ids.contains(id));
    let k = choose|k: int| 0 <= k < ids.len() && ids[k] == id;
    index_is_listed(catalog, table_id, ids, ids.len() as int, k);
    let indexes = catalog.indexes_of(table_id);
    let i = choose|i: int| 0 <= i < indexes.len() && indexes[i] == catalog.indexes[id];
    assert(indexes[i].id == id);
}

/// An index that mutations add is one that they create.
proof fn new_index_was_created(
    catalog: CatalogView,
    mutations: Seq<CatalogMutationView>,
    n: int,
    id: IndexId,
)
    requires
        0 <= n <= mutations.len(),
        catalog.mutated_by(mutations, n) is Ok,
        catalog.mutated_by(mutations, n)->Ok_0.indexes.contains_key(id),
        !catalog.indexes.contains_key(id),
    ensures
        has_id(created_indexes(mutations, n), created_indexes(mutations, n).len() as int, id),
    decreases n,
{
    if n > 0 {
        let before = catalog.mutated_by(mutations, n - 1)->Ok_0;
        let created = created_indexes(mutations, n);
        if before.indexes.contains_key(id) {
            new_index_was_created(catalog, mutations, n - 1, id);
            let earlier = created_indexes(mutations, n - 1);
            let i = choose|i: int| 0 <= i < earlier.len() && (#[trigger] earlier[i]).id == id;
            assert(created[i] == earlier[i]);
        } else {
            assert(created.last().id == id);
        }
    }
}

impl VersionsView {
    proof fn entry_after_index_change(
        self,
        indexed: IndexMetaView,
        primary_key: Seq<u8>,
        old: Option<RowView>,
        new: Option<RowView>,
        index: u64,
        key: SecondaryKeyView,
    )
        ensures
            chain(
                self.with_index_change(indexed, primary_key, old, new, index).secondary,
                key,
            ) == (if key.index_id == indexed.id && key.primary_key == primary_key {
                changed(
                    chain(self.secondary, key),
                    key.secondary_value,
                    indexed_value(old, indexed.column),
                    indexed_value(new, indexed.column),
                    index,
                )
            } else {
                chain(self.secondary, key)
            }),
    {
        let old_value = cell(old, indexed.column);
        let new_value = cell(new, indexed.column);
        if old_value is Some && new_value is Some && old_value != new_value {
            ordered_encoding_is_injective(old_value->0, new_value->0);
        }
        if old_value is Some {
            let old_key = entry_key(indexed.id, old_value->0, primary_key);
            assert(key == old_key <==> key.index_id == indexed.id && key.primary_key == primary_key
                && key.secondary_value == ordered_value(old_value->0));
        }
        if new_value is Some {
            let new_key = entry_key(indexed.id, new_value->0, primary_key);
            assert(key == new_key <==> key.index_id == indexed.id && key.primary_key == primary_key
                && key.secondary_value == ordered_value(new_value->0));
        }
    }

    proof fn entry_after_index_changes(
        self,
        indexes: Seq<IndexMetaView>,
        n: int,
        primary_key: Seq<u8>,
        old: Option<RowView>,
        new: Option<RowView>,
        index: u64,
        key: SecondaryKeyView,
        column: usize,
    )
        requires
            0 <= n <= indexes.len(),
            forall|i: int, j: int|
                0 <= i < j < indexes.len() ==> (#[trigger] indexes[i]).id != (
                #[trigger] indexes[j]).id,
            forall|i: int|
                0 <= i < indexes.len() && (#[trigger] indexes[i]).id == key.index_id
                    ==> indexes[i].column == column,
        ensures
            chain(
                self.with_index_changes(indexes, n, primary_key, old, new, index).secondary,
                key,
            ) == (if key.primary_key == primary_key && has_id(indexes, n, key.index_id) {
                changed(
                    chain(self.secondary, key),
                    key.secondary_value,
                    indexed_value(old, column),
                    indexed_value(new, column),
                    index,
                )
            } else {
                chain(self.secondary, key)
            }),
        decreases n,
    {
        if n > 0 {
            self.entry_after_index_changes(
                indexes,
                n - 1,
                primary_key,
                old,
                new,
                index,
                key,
                column,
            );
            let last = self.with_index_changes(indexes, n - 1, primary_key, old, new, index);
            last.entry_after_index_change(indexes[n - 1], primary_key, old, new, index, key);
            if has_id(indexes, n - 1, key.index_id) {
                let i = choose|i: int|
                    0 <= i < n - 1 && (#[trigger] indexes[i]).id == key.index_id;
                assert(indexes[i].id != indexes[n - 1].id);
                assert(has_id(indexes, n, key.index_id));
            } else if has_id(indexes, n, key.index_id) {
                let i = choose|i: int| 0 <= i < n && (#[trigger] indexes[i]).id == key.index_id;
                assert(i == n - 1);
            } else {
                assert(indexes[n - 1].id != key.index_id);
            }
        }
    }

    /// A write changes the entries of its row in the indexes of its table, and
    /// no others.
    proof fn entry_after_write(
        self,
        before: Map<LogicalKeyView, Seq<RowVersionView>>,
        last_applied: u64,
        catalog: CatalogView,
        attempt: TxnAttemptView,
        i: int,
        n: int,
        index: u64,
        key: SecondaryKeyView,
    )
        requires
            catalog.valid(),
            catalog.finite(),
            attempt.canonical() is Ok,
            0 <= i < n <= attempt.writes.len(),
            catalog.indexes.contains_key(key.index_id),
        ensures
            ({
                let write = attempt.writes[i];
                chain(
                    self.with_write(before, last_applied, catalog, write, index).secondary,
                    key,
                ) == (if write_touches(catalog, attempt.writes, n, key, i) {
                    changed(
                        chain(self.secondary, key),
                        key.secondary_value,
                        indexed_value(
                            row_at(before, write.logical_key()->Ok_0, last_applied),
                            catalog.indexes[key.index_id].column,
                        ),
                        indexed_value(write.new_row(), catalog.indexes[key.index_id].column),
                        index,
                    )
                } else {
                    chain(self.secondary, key)
                })
            }),
    {
        let write = attempt.writes[i];
        let indexes = catalog.indexes_of(write.table_id);
        indexes_of_table(catalog, write.table_id);
        self.entry_after_index_changes(
            indexes,
            indexes.len() as int,
            write.logical_key()->Ok_0.primary_key,
            row_at(before, write.logical_key()->Ok_0, last_applied),
            write.new_row(),
            index,
            key,
            catalog.indexes[key.index_id].column,
        );
        if catalog.indexes[key.index_id].table_id == write.table_id {
            index_of_table(catalog, write.table_id, key.index_id);
        } else if has_id(indexes, indexes.len() as int, key.index_id) {
            let j = choose|j: int|
                0 <= j < indexes.len() && (#[trigger] indexes[j]).id == key.index_id;
            assert(catalog.indexes[indexes[j].id] == indexes[j]);
        }
    }

    /// Where a write of a canonical attempt is to the row of an entry, the entry
    /// changes as that write says.
    proof fn entry_after_writes(
        self,
        last_applied: u64,
        catalog: CatalogView,
        attempt: TxnAttemptView,
        n: int,
        index: u64,
        key: SecondaryKeyView,
        i: int,
    )
        requires
            catalog.valid(),
            catalog.finite(),
            attempt.canonical() is Ok,
            n <= attempt.writes.len(),
            write_touches(catalog, attempt.writes, n, key, i),
        ensures
            chain(
                self.with_writes(last_applied, catalog, attempt.writes, n, index).secondary,
                key,
            ) == changed(
                chain(self.secondary, key),
                key.secondary_value,
                indexed_value(
                    row_at(self.primary, attempt.writes[i].logical_key()->Ok_0, last_applied),
                    catalog.indexes[key.index_id].column,
                ),
                indexed_value(
                    attempt.writes[i].new_row(),
                    catalog.indexes[key.index_id].column,
                ),
                index,
            ),
        decreases n,
    {
        let last = self.with_writes(last_applied, catalog, attempt.writes, n - 1, index);
        last.entry_after_write(
            self.primary,
            last_applied,
            catalog,
            attempt,
            n - 1,
            n,
            index,
            key,
        );
        if i == n - 1 {
            if writes_entry(catalog, attempt.writes, n - 1, key) {
                let j = choose|j: int| #[trigger]
                    write_touches(catalog, attempt.writes, n - 1, key, j);
                same_row_is_written_once(catalog, attempt, n, key, j, i);
            }
            self.writes_grow(last_applied, catalog, attempt, n - 1, index);
        } else {
            if write_touches(catalog, attempt.writes, n, key, n - 1) {
                same_row_is_written_once(catalog, attempt, n, key, i, n - 1);
            }
            assert(write_touches(catalog, attempt.writes, n - 1, key, i));
            self.entry_after_writes(last_applied, catalog, attempt, n - 1, index, key, i);
        }
    }

    proof fn entry_after_backfill(
        self,
        indexed: IndexMetaView,
        keys: Seq<LogicalKeyView>,
        n: int,
        index: u64,
        key: SecondaryKeyView,
    )
        requires
            increasing::<LogicalKey>(keys),
            0 <= n <= keys.len(),
        ensures
            ({
                let row_key = LogicalKeyView {
                    table_id: indexed.table_id,
                    primary_key: key.primary_key,
                };
                &&& self.backfilled(indexed, keys, n, index).primary == self.primary
                &&& chain(self.backfilled(indexed, keys, n, index).secondary, key) == (if
                key.index_id == indexed.id && key_among(keys, n, row_key) && indexed_value(
                    row_at(self.primary, row_key, index),
                    indexed.column,
                ) == Some(key.secondary_value) {
                    seq![SecondaryVersion { commit_index: index, present: true }] + chain(
                        self.secondary,
                        key,
                    )
                } else {
                    chain(self.secondary, key)
                })
            }),
        decreases n,
    {
        if n > 0 {
            let row_key = LogicalKeyView {
                table_id: indexed.table_id,
                primary_key: key.primary_key,
            };
            self.entry_after_backfill(indexed, keys, n - 1, index, key);
            let last = keys[n - 1];
            let value = cell(row_at(self.primary, last, index), indexed.column);
            if value is Some {
                let entry = entry_key(indexed.id, value->0, last.primary_key);
                assert(key == entry <==> key.index_id == indexed.id && key.primary_key
                    == last.primary_key && key.secondary_value == ordered_value(value->0));
            }
            assert(last == row_key <==> last.table_id == indexed.table_id && last.primary_key
                == key.primary_key);
            if key_among(keys, n - 1, row_key) {
                let j = choose|j: int| 0 <= j < n - 1 && #[trigger] keys[j] == row_key;
                assert(LogicalKey::before(keys[j], keys[n - 1]));
                LogicalKey::before_irreflexive(row_key);
                assert(keys[j] == row_key);
                assert(key_among(keys, n, row_key));
            } else if key_among(keys, n, row_key) {
                let j = choose|j: int| 0 <= j < n && #[trigger] keys[j] == row_key;
                assert(j == n - 1);
            } else {
                assert(keys[n - 1] != row_key);
            }
        }
    }

    /// A new index gets an entry for each row that holds a value in its column.
    proof fn entry_after_backfills(
        self,
        indexes: Seq<IndexMetaView>,
        n: int,
        index: u64,
        key: SecondaryKeyView,
        p: int,
    )
        requires
            self.primary.dom().finite(),
            0 <= p < indexes.len(),
            0 <= n <= indexes.len(),
            indexes[p].id == key.index_id,
            forall|i: int, j: int|
                0 <= i < j < indexes.len() ==> (#[trigger] indexes[i]).id != (
                #[trigger] indexes[j]).id,
        ensures
            ({
                let row_key = LogicalKeyView {
                    table_id: indexes[p].table_id,
                    primary_key: key.primary_key,
                };
                &&& self.with_backfills(indexes, n, index).primary == self.primary
                &&& chain(self.with_backfills(indexes, n, index).secondary, key) == (if p < n
                    && self.primary.contains_key(row_key) && indexed_value(
                    row_at(self.primary, row_key, index),
                    indexes[p].column,
                ) == Some(key.secondary_value) {
                    seq![SecondaryVersion { commit_index: index, present: true }] + chain(
                        self.secondary,
                        key,
                    )
                } else {
                    chain(self.secondary, key)
                })
            }),
        decreases n,
    {
        if n > 0 {
            self.entry_after_backfills(indexes, n - 1, index, key, p);
            let last = self.with_backfills(indexes, n - 1, index);
            let keys = ordered::<LogicalKey>(self.primary.dom());
            finite_set_is_listed::<LogicalKey>(self.primary.dom());
            last.entry_after_backfill(indexes[n - 1], keys, keys.len() as int, index, key);
            let row_key = LogicalKeyView {
                table_id: indexes[p].table_id,
                primary_key: key.primary_key,
            };
            if p != n - 1 {
                assert(indexes[p].id != indexes[n - 1].id);
            } else {
                if self.primary.contains_key(row_key) {
                    assert(self.primary.dom().contains(row_key));
                    assert(keys.contains(row_key));
                    let j = choose|j: int| 0 <= j < keys.len() && keys[j] == row_key;
                    assert(key_among(keys, keys.len() as int, row_key));
                }
                if key_among(keys, keys.len() as int, row_key) {
                    let j = choose|j: int| 0 <= j < keys.len() && #[trigger] keys[j] == row_key;
                    assert(keys.contains(row_key));
                    assert(self.primary.dom().contains(row_key));
                }
            }
        }
    }

    /// Backfilling leaves the entries of other indexes alone.
    proof fn backfills_leave_others(
        self,
        indexes: Seq<IndexMetaView>,
        n: int,
        index: u64,
        key: SecondaryKeyView,
    )
        requires
            self.primary.dom().finite(),
            0 <= n <= indexes.len(),
            !has_id(indexes, indexes.len() as int, key.index_id),
        ensures
            self.with_backfills(indexes, n, index).primary == self.primary,
            chain(self.with_backfills(indexes, n, index).secondary, key) == chain(
                self.secondary,
                key,
            ),
        decreases n,
    {
        if n > 0 {
            self.backfills_leave_others(indexes, n - 1, index, key);
            let last = self.with_backfills(indexes, n - 1, index);
            let keys = ordered::<LogicalKey>(self.primary.dom());
            finite_set_is_listed::<LogicalKey>(self.primary.dom());
            last.entry_after_backfill(indexes[n - 1], keys, keys.len() as int, index, key);
            assert(indexes[n - 1].id != key.index_id);
        }
    }
}

/// No two writes of a canonical attempt are to one row.
proof fn same_row_is_written_once(
    catalog: CatalogView,
    attempt: TxnAttemptView,
    n: int,
    key: SecondaryKeyView,
    i: int,
    j: int,
)
    requires
        attempt.canonical() is Ok,
        0 <= i < j < n <= attempt.writes.len(),
    ensures
        !(write_touches(catalog, attempt.writes, j, key, i) && write_touches(
            catalog,
            attempt.writes,
            n,
            key,
            j,
        )),
{
    canonical_keys_increase(attempt, i, j);
    let a = attempt.writes[i].logical_key()->Ok_0;
    let b = attempt.writes[j].logical_key()->Ok_0;
    LogicalKey::before_irreflexive(a);
    assert(a.table_id == attempt.writes[i].table_id);
    assert(b.table_id == attempt.writes[j].table_id);
    if a.table_id == b.table_id && a.primary_key == b.primary_key {
        assert(a == b);
    }
}

/// A snapshot newer than every version sees what the newest of them shows.
proof fn later_snapshot_sees_same<T: Version>(
    versions: Seq<T::V>,
    last_applied: u64,
    read_ts: u64,
)
    requires
        versions.len() == 0 || chain_valid::<T>(versions, last_applied),
        last_applied <= read_ts,
    ensures
        visible::<T>(versions, read_ts) == visible::<T>(versions, last_applied),
{
    if versions.len() > 0 {
        assert(T::index_of(versions[0]) <= last_applied);
    }
}

/// An entry is seen where its chain shows that it is present.
proof fn entry_visible_by_chain(engine: EngineView, key: SecondaryKeyView, read_ts: u64)
    ensures
        engine.entry_visible(key, read_ts) == (visible::<SecondaryVersion>(
            chain(engine.secondary, key),
            read_ts,
        ) is Some),
{
    seen_from_bounds::<SecondaryVersion>(Seq::empty(), read_ts);
}

/// What holds of a snapshot holds of a later one that sees the same.
proof fn exact_where_reads_agree(
    engine: EngineView,
    next: EngineView,
    index_id: IndexId,
    read_ts: u64,
    later: u64,
)
    requires
        engine.index_exact_at(index_id, read_ts),
        next.catalog.indexes[index_id] == engine.catalog.indexes[index_id],
        forall|key: LogicalKeyView| #[trigger]
            row_at(next.primary, key, later) == row_at(engine.primary, key, read_ts),
        forall|key: SecondaryKeyView| #[trigger]
            next.entry_visible(key, later) == engine.entry_visible(key, read_ts),
    ensures
        next.index_exact_at(index_id, later),
{
    assert forall|key: SecondaryKeyView| key.index_id == index_id implies (
    #[trigger] next.entry_visible(key, later) <==> indexed_value(
        row_at(
            next.primary,
            LogicalKeyView {
                table_id: next.catalog.indexes[index_id].table_id,
                primary_key: key.primary_key,
            },
            later,
        ),
        next.catalog.indexes[index_id].column,
    ) == Some(key.secondary_value)) by {
        assert(next.entry_visible(key, later) == engine.entry_visible(key, read_ts));
    }
}

/// A log position alone does not change what the newest snapshot sees.
proof fn recording_keeps_newest(engine: EngineView, index: u64)
    requires
        engine.well_formed(),
        engine.last_applied <= index,
    ensures
        forall|key: LogicalKeyView| #[trigger]
            row_at(engine.primary, key, index) == row_at(
                engine.primary,
                key,
                engine.last_applied,
            ),
        forall|key: SecondaryKeyView| #[trigger]
            engine.entry_visible(key, index) == engine.entry_visible(key, engine.last_applied),
{
    assert forall|key: LogicalKeyView| #[trigger]
        row_at(engine.primary, key, index) == row_at(
            engine.primary,
            key,
            engine.last_applied,
        ) by {
        later_snapshot_sees_same::<RowVersion>(
            chain(engine.primary, key),
            engine.last_applied,
            index,
        );
    }
    assert forall|key: SecondaryKeyView| #[trigger]
        engine.entry_visible(key, index) == engine.entry_visible(key, engine.last_applied) by {
        later_snapshot_sees_same::<SecondaryVersion>(
            chain(engine.secondary, key),
            engine.last_applied,
            index,
        );
        entry_visible_by_chain(engine, key, index);
        entry_visible_by_chain(engine, key, engine.last_applied);
    }
}

/// A commit changes the entries of an index with the rows.
proof fn commit_keeps_index_exact(
    engine: EngineView,
    index: u64,
    attempt: TxnAttemptView,
    index_id: IndexId,
)
    requires
        engine.well_formed(),
        engine.abort(attempt) is None,
        engine.last_applied < index,
        engine.catalog.indexes.contains_key(index_id),
        engine.index_exact_at(index_id, engine.last_applied),
    ensures
        engine.committed(index, attempt).index_exact_at(index_id, index),
{
    let next = engine.committed(index, attempt);
    let indexed = engine.catalog.indexes[index_id];
    let mutations = attempt.catalog_mutations;
    let created = created_indexes(mutations, mutations.len() as int);
    let n = attempt.writes.len() as int;
    let before = engine.versions();
    let written = before.with_writes(
        engine.last_applied,
        engine.catalog,
        attempt.writes,
        n,
        index,
    );
    commit_grows(engine, index, attempt);
    created_indexes_are_new(engine.catalog, mutations);
    before.writes_grow(engine.last_applied, engine.catalog, attempt, n, index);
    assert(!has_id(created, created.len() as int, index_id));
    assert(next.catalog.indexes[index_id] == indexed);
    assert forall|key: SecondaryKeyView| key.index_id == index_id implies (
    #[trigger] next.entry_visible(key, index) <==> indexed_value(
        row_at(
            next.primary,
            LogicalKeyView { table_id: indexed.table_id, primary_key: key.primary_key },
            index,
        ),
        indexed.column,
    ) == Some(key.secondary_value)) by {
        let row_key = LogicalKeyView {
            table_id: indexed.table_id,
            primary_key: key.primary_key,
        };
        let old = chain(engine.secondary, key);
        written.backfills_leave_others(created, created.len() as int, index, key);
        entry_visible_by_chain(engine, key, engine.last_applied);
        entry_visible_by_chain(next, key, index);
        later_snapshot_sees_same::<SecondaryVersion>(old, engine.last_applied, index);
        later_snapshot_sees_same::<RowVersion>(
            chain(engine.primary, row_key),
            engine.last_applied,
            index,
        );
        assert(engine.entry_visible(key, engine.last_applied) <==> indexed_value(
            row_at(engine.primary, row_key, engine.last_applied),
            indexed.column,
        ) == Some(key.secondary_value));
        if writes_entry(engine.catalog, attempt.writes, n, key) {
            let i = choose|i: int| #[trigger]
                write_touches(engine.catalog, attempt.writes, n, key, i);
            canonical_write_has_key(attempt, i);
            let write = attempt.writes[i];
            assert(write.logical_key()->Ok_0 == row_key);
            before.entry_after_writes(
                engine.last_applied,
                engine.catalog,
                attempt,
                n,
                index,
                key,
                i,
            );
            newest_version_is_seen::<RowVersion>(
                RowVersionView { commit_index: index, row: write.new_row() },
                chain(engine.primary, row_key),
                index,
            );
            newest_version_is_seen::<SecondaryVersion>(
                SecondaryVersion { commit_index: index, present: true },
                old,
                index,
            );
            newest_version_is_seen::<SecondaryVersion>(
                SecondaryVersion { commit_index: index, present: false },
                old,
                index,
            );
        } else {
            assert(!writes_row(attempt.writes, n, row_key)) by {
                if writes_row(attempt.writes, n, row_key) {
                    let i = choose|i: int|
                        0 <= i < n && (#[trigger] attempt.writes[i]).logical_key()->Ok_0
                            == row_key;
                    canonical_write_has_key(attempt, i);
                    assert(write_touches(engine.catalog, attempt.writes, n, key, i));
                }
            }
        }
    }
}

/// An index that a commit creates holds the rows that the commit leaves.
proof fn commit_fills_new_index(
    engine: EngineView,
    index: u64,
    attempt: TxnAttemptView,
    index_id: IndexId,
)
    requires
        engine.well_formed(),
        engine.abort(attempt) is None,
        engine.last_applied < index,
        !engine.catalog.indexes.contains_key(index_id),
        engine.committed(index, attempt).catalog.indexes.contains_key(index_id),
    ensures
        engine.committed(index, attempt).index_exact_at(index_id, index),
{
    let next = engine.committed(index, attempt);
    let mutations = attempt.catalog_mutations;
    let created = created_indexes(mutations, mutations.len() as int);
    let n = attempt.writes.len() as int;
    let before = engine.versions();
    let written = before.with_writes(
        engine.last_applied,
        engine.catalog,
        attempt.writes,
        n,
        index,
    );
    commit_grows(engine, index, attempt);
    created_indexes_are_new(engine.catalog, mutations);
    new_index_was_created(engine.catalog, mutations, mutations.len() as int, index_id);
    let p = choose|p: int| 0 <= p < created.len() && (#[trigger] created[p]).id == index_id;
    let indexed = created[p];
    assert(next.catalog.indexes[index_id] == indexed);
    before.writes_grow(engine.last_applied, engine.catalog, attempt, n, index);
    assert forall|key: SecondaryKeyView| key.index_id == index_id implies (
    #[trigger] next.entry_visible(key, index) <==> indexed_value(
        row_at(
            next.primary,
            LogicalKeyView { table_id: indexed.table_id, primary_key: key.primary_key },
            index,
        ),
        indexed.column,
    ) == Some(key.secondary_value)) by {
        let row_key = LogicalKeyView {
            table_id: indexed.table_id,
            primary_key: key.primary_key,
        };
        assert(!engine.secondary.contains_key(key)) by {
            if engine.secondary.contains_key(key) {
                assert(chain_valid::<SecondaryVersion>(engine.secondary[key], engine.last_applied));
            }
        }
        assert(!writes_entry(engine.catalog, attempt.writes, n, key));
        assert(chain(written.secondary, key) =~= Seq::empty());
        written.entry_after_backfills(created, created.len() as int, index, key, p);
        entry_visible_by_chain(next, key, index);
        newest_version_is_seen::<SecondaryVersion>(
            SecondaryVersion { commit_index: index, present: true },
            Seq::empty(),
            index,
        );
        seen_from_bounds::<SecondaryVersion>(Seq::empty(), index);
        seen_from_bounds::<RowVersion>(Seq::empty(), index);
    }
}

/// Applying an attempt keeps an index exact in every snapshot in which it was,
/// and in the one that the attempt leaves.
pub proof fn applying_keeps_index_exact(
    engine: EngineView,
    index: u64,
    apply_hash: Seq<u8>,
    request_hash: Seq<u8>,
    attempt: TxnAttemptView,
    outcome: ApplyOutcomeView,
    next: EngineView,
    index_id: IndexId,
    since: u64,
)
    requires
        engine.well_formed(),
        engine.apply_problem(index, apply_hash, attempt) is None,
        engine.applied_as(index, apply_hash, request_hash, attempt, outcome, next),
        engine.index_exact(index_id, since),
    ensures
        next.index_exact(index_id, since),
{
    if index != engine.last_applied {
        let commits = engine.admission(attempt.request, request_hash) is New
            && outcome->Applied_0 is Committed;
        assert(engine.index_exact_at(index_id, engine.last_applied));
        if commits {
            commit_grows(engine, index, attempt);
            commit_keeps_index_exact(engine, index, attempt, index_id);
        }
        assert forall|read_ts: u64|
            since <= read_ts && next.retained_floor <= read_ts
                <= next.last_applied implies #[trigger] next.index_exact_at(index_id, read_ts) by {
            if read_ts == index {
                if commits {
                    let committed = engine.committed(index, attempt);
                    assert(committed.index_exact_at(index_id, index));
                    assert(forall|key: SecondaryKeyView| #[trigger]
                        next.entry_visible(key, index) == committed.entry_visible(key, index));
                    exact_where_reads_agree(committed, next, index_id, index, index);
                } else {
                    recording_keeps_newest(engine, index);
                    assert forall|key: SecondaryKeyView| #[trigger]
                        next.entry_visible(key, index) == engine.entry_visible(
                            key,
                            engine.last_applied,
                        ) by {
                        assert(next.entry_visible(key, index) == engine.entry_visible(key, index));
                    }
                    assert forall|key: LogicalKeyView| #[trigger]
                        row_at(next.primary, key, index) == row_at(
                            engine.primary,
                            key,
                            engine.last_applied,
                        ) by {
                        assert(row_at(engine.primary, key, index) == row_at(
                            engine.primary,
                            key,
                            engine.last_applied,
                        ));
                    }
                    exact_where_reads_agree(engine, next, index_id, engine.last_applied, index);
                }
            } else {
                assert(engine.index_exact_at(index_id, read_ts));
                let reader = TransactionView::started(1, read_ts, 0);
                snapshot_reads_repeat(
                    engine,
                    index,
                    apply_hash,
                    request_hash,
                    attempt,
                    outcome,
                    next,
                    reader,
                );
                assert forall|key: LogicalKeyView| #[trigger]
                    row_at(next.primary, key, read_ts) == row_at(engine.primary, key, read_ts) by {
                    assert(next.read(reader, key) == engine.read(reader, key));
                }
                exact_where_reads_agree(engine, next, index_id, read_ts, read_ts);
            }
        }
    }
}

/// Creating an index makes it exact from the log index of its creation on. A
/// snapshot from before then sees no entries.
pub proof fn created_indexes_are_exact(
    engine: EngineView,
    index: u64,
    apply_hash: Seq<u8>,
    request_hash: Seq<u8>,
    attempt: TxnAttemptView,
    outcome: ApplyOutcomeView,
    next: EngineView,
    index_id: IndexId,
)
    requires
        engine.well_formed(),
        engine.apply_problem(index, apply_hash, attempt) is None,
        engine.applied_as(index, apply_hash, request_hash, attempt, outcome, next),
        !engine.catalog.indexes.contains_key(index_id),
        next.catalog.indexes.contains_key(index_id),
    ensures
        next.index_exact(index_id, index),
{
    commit_fills_new_index(engine, index, attempt, index_id);
    let committed = engine.committed(index, attempt);
    assert(forall|key: SecondaryKeyView| #[trigger]
        next.entry_visible(key, index) == committed.entry_visible(key, index));
    exact_where_reads_agree(committed, next, index_id, index, index);
}

/// Every index is exact in the newest snapshot, whatever is applied.
pub proof fn applying_keeps_indexes_exact(
    engine: EngineView,
    index: u64,
    apply_hash: Seq<u8>,
    request_hash: Seq<u8>,
    attempt: TxnAttemptView,
    outcome: ApplyOutcomeView,
    next: EngineView,
)
    requires
        engine.well_formed(),
        engine.apply_problem(index, apply_hash, attempt) is None,
        engine.applied_as(index, apply_hash, request_hash, attempt, outcome, next),
        engine.indexes_exact(),
    ensures
        next.indexes_exact(),
{
    assert forall|index_id: IndexId|
        #![trigger next.catalog.indexes[index_id]]
        next.catalog.indexes.contains_key(index_id) implies next.index_exact(
        index_id,
        next.last_applied,
    ) by {
        if engine.catalog.indexes.contains_key(index_id) {
            assert(engine.catalog.indexes[index_id] == engine.catalog.indexes[index_id]);
            assert(engine.index_exact(index_id, engine.last_applied));
            applying_keeps_index_exact(
                engine,
                index,
                apply_hash,
                request_hash,
                attempt,
                outcome,
                next,
                index_id,
                engine.last_applied,
            );
        } else {
            created_indexes_are_exact(
                engine,
                index,
                apply_hash,
                request_hash,
                attempt,
                outcome,
                next,
                index_id,
            );
        }
    }
}

/// A log position without an attempt keeps an index exact.
pub proof fn recording_keeps_index_exact(
    engine: EngineView,
    index: u64,
    apply_hash: Seq<u8>,
    outcome: ApplyOutcomeView,
    index_id: IndexId,
    since: u64,
)
    requires
        engine.well_formed(),
        index == engine.last_applied + 1,
        engine.index_exact(index_id, since),
    ensures
        engine.recorded(index, apply_hash, outcome).index_exact(index_id, since),
{
    let next = engine.recorded(index, apply_hash, outcome);
    recording_keeps_newest(engine, index);
    assert forall|read_ts: u64|
        since <= read_ts && next.retained_floor <= read_ts
            <= next.last_applied implies #[trigger] next.index_exact_at(index_id, read_ts) by {
        let seen = if read_ts == index {
            engine.last_applied
        } else {
            read_ts
        };
        assert(engine.index_exact_at(index_id, seen));
        assert forall|key: SecondaryKeyView| #[trigger]
            next.entry_visible(key, read_ts) == engine.entry_visible(key, seen) by {
            assert(engine.entry_visible(key, read_ts) == engine.entry_visible(key, seen));
        }
        assert forall|key: LogicalKeyView| #[trigger]
            row_at(next.primary, key, read_ts) == row_at(engine.primary, key, seen) by {
            assert(row_at(engine.primary, key, read_ts) == row_at(engine.primary, key, seen));
        }
        exact_where_reads_agree(engine, next, index_id, seen, read_ts);
    }
}

/// A vacuum keeps an index exact.
pub proof fn vacuum_keeps_index_exact(
    engine: EngineView,
    retain_from: u64,
    index_id: IndexId,
    since: u64,
)
    requires
        engine.index_exact(index_id, since),
    ensures
        engine.vacuumed_from(retain_from).index_exact(index_id, since),
{
    let next = engine.vacuumed_from(retain_from);
    assert forall|read_ts: u64|
        since <= read_ts && next.retained_floor <= read_ts
            <= next.last_applied implies #[trigger] next.index_exact_at(index_id, read_ts) by {
        assert(engine.index_exact_at(index_id, read_ts));
        let reader = TransactionView::started(1, read_ts, 0);
        vacuum_keeps_snapshots(engine, retain_from, reader);
        assert forall|key: LogicalKeyView| #[trigger]
            row_at(next.primary, key, read_ts) == row_at(engine.primary, key, read_ts) by {
            assert(next.read(reader, key) == engine.read(reader, key));
        }
        exact_where_reads_agree(engine, next, index_id, read_ts, read_ts);
    }
}

/// A fresh engine has no index that could be wrong.
pub proof fn initial_indexes_are_exact()
    ensures
        EngineView::initial().indexes_exact(),
{
}

/// Those of the rows that hold the value in the column, in their order.
pub open spec fn rows_holding(rows: Seq<RowView>, column: usize, value: ValueView) -> Seq<RowView> {
    rows.filter(|row: RowView| cell(Some(row), column) == Some(value))
}

impl EngineView {
    /// Those of the first `n` keys under which the transaction sees a row with
    /// the value in the column.
    spec fn holding_keys(
        self,
        transaction: TransactionView,
        keys: Seq<LogicalKeyView>,
        column: usize,
        value: ValueView,
        n: int,
    ) -> Seq<LogicalKeyView>
        decreases n,
    {
        if n <= 0 {
            Seq::empty()
        } else if cell(self.read(transaction, keys[n - 1]), column) == Some(value) {
            self.holding_keys(transaction, keys, column, value, n - 1).push(keys[n - 1])
        } else {
            self.holding_keys(transaction, keys, column, value, n - 1)
        }
    }

    proof fn rows_with_agree(
        self,
        transaction: TransactionView,
        a: Seq<LogicalKeyView>,
        b: Seq<LogicalKeyView>,
        column: usize,
        value: ValueView,
        n: int,
    )
        requires
            0 <= n <= a.len(),
            n <= b.len(),
            forall|i: int| 0 <= i < n ==> a[i] == b[i],
        ensures
            self.rows_with(transaction, a, column, value, n) == self.rows_with(
                transaction,
                b,
                column,
                value,
                n,
            ),
        decreases n,
    {
        if n > 0 {
            self.rows_with_agree(transaction, a, b, column, value, n - 1);
        }
    }

    proof fn holding_keys_facts(
        self,
        transaction: TransactionView,
        keys: Seq<LogicalKeyView>,
        column: usize,
        value: ValueView,
        n: int,
    )
        requires
            increasing::<LogicalKey>(keys),
            0 <= n <= keys.len(),
        ensures
            ({
                let held = self.holding_keys(transaction, keys, column, value, n);
                &&& increasing::<LogicalKey>(held)
                &&& forall|i: int|
                    0 <= i < held.len() ==> cell(
                        self.read(transaction, #[trigger] held[i]),
                        column,
                    ) == Some(value) && key_among(keys, n, held[i])
                &&& forall|j: int|
                    0 <= j < n && cell(self.read(transaction, #[trigger] keys[j]), column) == Some(
                        value,
                    ) ==> held.contains(keys[j])
                &&& self.rows_with(transaction, keys, column, value, n) == self.rows_with(
                    transaction,
                    held,
                    column,
                    value,
                    held.len() as int,
                )
            }),
        decreases n,
    {
        if n > 0 {
            self.holding_keys_facts(transaction, keys, column, value, n - 1);
            let before = self.holding_keys(transaction, keys, column, value, n - 1);
            let held = self.holding_keys(transaction, keys, column, value, n);
            if cell(self.read(transaction, keys[n - 1]), column) == Some(value) {
                assert(held == before.push(keys[n - 1]));
                self.rows_with_agree(
                    transaction,
                    before,
                    held,
                    column,
                    value,
                    before.len() as int,
                );
            }
            assert forall|i: int| 0 <= i < held.len() implies cell(
                self.read(transaction, #[trigger] held[i]),
                column,
            ) == Some(value) && key_among(keys, n, held[i]) by {
                if i < before.len() {
                    assert(held[i] == before[i]);
                    let j = choose|j: int| 0 <= j < n - 1 && #[trigger] keys[j] == before[i];
                    assert(keys[j] == held[i]);
                } else {
                    assert(keys[n - 1] == held[i]);
                }
            }
            assert forall|i: int, j: int| 0 <= i < j < held.len() implies LogicalKey::before(
                #[trigger] held[i],
                #[trigger] held[j],
            ) by {
                assert(held[i] == before[i]);
                if j < before.len() {
                    assert(held[j] == before[j]);
                } else {
                    let k = choose|k: int| 0 <= k < n - 1 && #[trigger] keys[k] == before[i];
                    assert(LogicalKey::before(keys[k], keys[n - 1]));
                }
            }
            assert forall|j: int|
                0 <= j < n && cell(self.read(transaction, #[trigger] keys[j]), column) == Some(
                    value,
                ) implies held.contains(keys[j]) by {
                if j < n - 1 {
                    assert(before.contains(keys[j]));
                    let i = choose|i: int| 0 <= i < before.len() && before[i] == keys[j];
                    assert(held[i] == keys[j]);
                } else {
                    assert(held[before.len() as int] == keys[j]);
                }
            }
        }
    }

    /// The keys of a listed set that hold the value, listed.
    proof fn holding_keys_list(
        self,
        transaction: TransactionView,
        set: Set<LogicalKeyView>,
        column: usize,
        value: ValueView,
        held_set: Set<LogicalKeyView>,
    )
        requires
            set.finite(),
            forall|key: LogicalKeyView| #[trigger]
                held_set.contains(key) <==> set.contains(key) && cell(
                    self.read(transaction, key),
                    column,
                ) == Some(value),
        ensures
            ({
                let keys = ordered::<LogicalKey>(set);
                let held = self.holding_keys(transaction, keys, column, value, keys.len() as int);
                &&& lists::<LogicalKey>(held, held_set)
                &&& self.rows_with(transaction, keys, column, value, keys.len() as int)
                    == self.rows_with(transaction, held, column, value, held.len() as int)
            }),
    {
        finite_set_is_listed::<LogicalKey>(set);
        let keys = ordered::<LogicalKey>(set);
        self.holding_keys_facts(transaction, keys, column, value, keys.len() as int);
        let held = self.holding_keys(transaction, keys, column, value, keys.len() as int);
        assert forall|key: LogicalKeyView|
            #![trigger held_set.contains(key)]
            #![trigger held.contains(key)]
            held_set.contains(key) <==> held.contains(key) by {
            if held.contains(key) {
                let i = choose|i: int| 0 <= i < held.len() && held[i] == key;
                assert(key_among(keys, keys.len() as int, held[i]));
                let j = choose|j: int| 0 <= j < keys.len() && #[trigger] keys[j] == key;
                assert(keys.contains(key));
                assert(set.contains(key));
                assert(held_set.contains(key));
            }
            if held_set.contains(key) {
                assert(set.contains(key));
                assert(keys.contains(key));
                let j = choose|j: int| 0 <= j < keys.len() && keys[j] == key;
                assert(cell(self.read(transaction, keys[j]), column) == Some(value));
            }
        }
    }

    proof fn rows_with_is_filter(
        self,
        transaction: TransactionView,
        keys: Seq<LogicalKeyView>,
        column: usize,
        value: ValueView,
        n: int,
    )
        ensures
            self.rows_with(transaction, keys, column, value, n) == rows_holding(
                self.rows_among(transaction, keys, n),
                column,
                value,
            ),
        decreases n,
    {
        reveal(Seq::filter);
        if n > 0 {
            self.rows_with_is_filter(transaction, keys, column, value, n - 1);
            let before = self.rows_among(transaction, keys, n - 1);
            if let Some(row) = self.read(transaction, keys[n - 1]) {
                assert(before.push(row).drop_last() =~= before);
                assert(before.push(row).last() == row);
            }
        }
    }
}

/// Looking a value up in an index gives exactly the rows of a table scan that
/// hold it, in the same order, in every snapshot in which the index is exact.
/// `NULL` is in no index, so it is left out here.
pub proof fn lookup_is_filtered_scan(
    engine: EngineView,
    transaction: TransactionView,
    index_id: IndexId,
    value: ValueView,
    since: u64,
)
    requires
        engine.well_formed(),
        transaction.writes.dom().finite(),
        engine.snapshot_problem(transaction) is None,
        engine.index_exact(index_id, since),
        since <= transaction.read_ts,
        value !is Null,
        encodable(value),
    ensures
        ({
            let index = engine.catalog.indexes[index_id];
            let scan = engine.scanned(transaction, index.table_id);
            &&& scan is Ok
            &&& engine.looked_up(transaction, index_id, value) == Ok::<
                Seq<RowView>,
                EngineErrorKind,
            >(rows_holding(scan->Ok_0, index.column, value))
        }),
{
    let index = engine.catalog.indexes[index_id];
    let table_keys = engine.table_keys(transaction, index.table_id);
    let entry_keys = engine.entry_keys(transaction, index, index_id, value);
    assert(engine.index_exact_at(index_id, transaction.read_ts));
    table_keys_finite(engine, transaction, index.table_id);
    let held_set = Set::new(
        |key: LogicalKeyView|
            table_keys.contains(key) && cell(engine.read(transaction, key), index.column) == Some(
                value,
            ),
    );
    seen_from_bounds::<RowVersion>(Seq::empty(), transaction.read_ts);
    assert forall|key: LogicalKeyView|
        key.table_id == index.table_id implies (#[trigger] engine.entry_visible(
        entry_key(index_id, value, key.primary_key),
        transaction.read_ts,
    ) <==> indexed_value(row_at(engine.primary, key, transaction.read_ts), index.column) == Some(
        ordered_value(value),
    )) by {
        let row_key = LogicalKeyView { table_id: index.table_id, primary_key: key.primary_key };
        assert(row_key == key);
    }
    assert forall|key: LogicalKeyView| entry_keys.contains(key) implies table_keys.contains(
        key,
    ) by {
        if !transaction.writes.contains_key(key) {
            assert(engine.entry_visible(
                entry_key(index_id, value, key.primary_key),
                transaction.read_ts,
            ));
            assert(row_at(engine.primary, key, transaction.read_ts) is Some);
        }
    }
    vstd::set_lib::lemma_set_subset_finite(table_keys, entry_keys);
    assert forall|key: LogicalKeyView| #[trigger]
        held_set.contains(key) <==> entry_keys.contains(key) && cell(
            engine.read(transaction, key),
            index.column,
        ) == Some(value) by {
        if held_set.contains(key) && !transaction.writes.contains_key(key) {
            assert(engine.entry_visible(
                entry_key(index_id, value, key.primary_key),
                transaction.read_ts,
            ));
        }
    }
    engine.holding_keys_list(transaction, table_keys, index.column, value, held_set);
    engine.holding_keys_list(transaction, entry_keys, index.column, value, held_set);
    let by_table = ordered::<LogicalKey>(table_keys);
    let by_entry = ordered::<LogicalKey>(entry_keys);
    listing_is_unique::<LogicalKey>(
        engine.holding_keys(
            transaction,
            by_table,
            index.column,
            value,
            by_table.len() as int,
        ),
        engine.holding_keys(
            transaction,
            by_entry,
            index.column,
            value,
            by_entry.len() as int,
        ),
        held_set,
    );
    engine.rows_with_is_filter(
        transaction,
        by_table,
        index.column,
        value,
        by_table.len() as int,
    );
    assert(engine.catalog.index_valid(index));
}

} // verus!
