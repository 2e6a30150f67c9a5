//! What holds of the engine across operations.

use vstd::prelude::*;
use crate::codec::ordered_encoding_is_injective;
use crate::engine::catalog::{
    CatalogView, IndexMetaView, created_indexes, created_indexes_are_new, indexes_of_table,
    mutations_keep_validity,
};
use crate::engine::mvcc::{
    RowVersion, RowVersionView, SecondaryKeyView, SecondaryVersion, Version, chain, chain_valid,
    newer_version_is_invisible, newest_version_is_seen, push_keeps_chain, vacuum_keeps_chain,
    vacuum_keeps_reads, vacuumed,
};
use crate::engine::error::EngineErrorKind;
use crate::engine::outcome::{
    AbortReasonView, ApplyOutcomeView, CommitResultView, EngineStats, VacuumReport, bumped,
};
use crate::engine::state::{AdmissionView, EngineView, VersionsView, cell, entry_key, row_at};
use crate::engine::transaction::{
    LogicalKey, LogicalKeyView, TransactionView, TxnAttemptView, TxnWriteView,
    canonical_keys_increase, canonical_write_has_key,
};
use crate::ordmap::{Key, finite_set_is_listed, increasing, listing_is_unique, lists, ordered};
use crate::types::{ErrorKind, RowView, TableId};

verus! {

/// A chain is unchanged or has one more version, of the given index.
pub(crate) open spec fn at_most_one<T: Version>(before: Seq<T::V>, now: Seq<T::V>, index: u64) -> bool {
    ||| now == before
    ||| now.len() == before.len() + 1 && T::index_of(now[0]) == index && now == seq![now[0]]
        + before
}

/// Every chain is unchanged or has one more version, of the given index.
pub(crate) open spec fn grown<K, T: Version>(
    before: Map<K, Seq<T::V>>,
    now: Map<K, Seq<T::V>>,
    index: u64,
) -> bool {
    &&& forall|key: K| #[trigger]
        at_most_one::<T>(chain(before, key), chain(now, key), index)
    &&& before.dom().subset_of(now.dom())
    &&& forall|key: K|
        #![trigger now.contains_key(key)]
        now.contains_key(key) ==> before.contains_key(key) || now[key].len() > 0
    &&& before.dom().finite() ==> now.dom().finite()
}

proof fn grows_by_nothing<K, T: Version>(map: Map<K, Seq<T::V>>, index: u64)
    ensures
        grown::<K, T>(map, map, index),
{
}

proof fn push_grows<K, T: Version>(
    before: Map<K, Seq<T::V>>,
    now: Map<K, Seq<T::V>>,
    index: u64,
    key: K,
    version: T::V,
)
    requires
        grown::<K, T>(before, now, index),
        chain(now, key) == chain(before, key),
        T::index_of(version) == index,
    ensures
        ({
            let next = now.insert(key, seq![version] + chain(now, key));
            &&& grown::<K, T>(before, next, index)
            &&& forall|other: K| other != key ==> #[trigger] chain(next, other) == chain(now, other)
        }),
{
    let next = now.insert(key, seq![version] + chain(now, key));
    assert forall|other: K| #[trigger]
        at_most_one::<T>(chain(before, other), chain(next, other), index) by {
        assert(at_most_one::<T>(chain(before, other), chain(now, other), index));
        if other == key {
            assert(chain(next, key)[0] == version);
        } else {
            assert(chain(next, other) == chain(now, other));
        }
    }
    assert(before.dom().subset_of(next.dom()));
    assert forall|other: K|
        #![trigger next.contains_key(other)]
        next.contains_key(other) implies before.contains_key(other) || next[other].len() > 0 by {
        if other != key {
            assert(now.contains_key(other));
        }
    }
}

/// An index of the list has the given id.
pub(crate) open spec fn has_id(indexes: Seq<IndexMetaView>, n: int, id: u64) -> bool {
    exists|i: int| 0 <= i < n && (#[trigger] indexes[i]).id == id
}

impl VersionsView {
    /// One changed row touches at most the entries of that row in one index,
    /// each at most once.
    proof fn index_change_grows(
        self,
        before: Map<SecondaryKeyView, Seq<SecondaryVersion>>,
        indexed: IndexMetaView,
        primary_key: Seq<u8>,
        old: Option<RowView>,
        new: Option<RowView>,
        index: u64,
    )
        requires
            grown::<SecondaryKeyView, SecondaryVersion>(before, self.secondary, index),
            forall|key: SecondaryKeyView|
                key.index_id == indexed.id && key.primary_key == primary_key ==> #[trigger] chain(
                    self.secondary,
                    key,
                ) == chain(before, key),
        ensures
            ({
                let next = self.with_index_change(indexed, primary_key, old, new, index);
                &&& next.primary == self.primary
                &&& grown::<SecondaryKeyView, SecondaryVersion>(before, next.secondary, index)
                &&& forall|key: SecondaryKeyView|
                    !(key.index_id == indexed.id && key.primary_key == primary_key)
                        ==> #[trigger] chain(next.secondary, key) == chain(self.secondary, key)
                &&& forall|key: SecondaryKeyView| #[trigger]
                    next.secondary.contains_key(key) ==> self.secondary.contains_key(key)
                        || key.index_id == indexed.id
            }),
    {
        let old_value = cell(old, indexed.column);
        let new_value = cell(new, indexed.column);
        if old_value != new_value {
            let drops = old_value is Some && old_value->0 !is Null;
            let adds = new_value is Some && new_value->0 !is Null;
            let old_key = entry_key(indexed.id, old_value->0, primary_key);
            let new_key = entry_key(indexed.id, new_value->0, primary_key);
            let gone = if drops {
                self.with_entry(old_key, index, false)
            } else {
                self
            };
            if drops {
                push_grows::<SecondaryKeyView, SecondaryVersion>(
                    before,
                    self.secondary,
                    index,
                    old_key,
                    SecondaryVersion { commit_index: index, present: false },
                );
            }
            if adds {
                if drops {
                    ordered_encoding_is_injective(old_value->0, new_value->0);
                    assert(old_key != new_key);
                }
                assert(chain(gone.secondary, new_key) == chain(self.secondary, new_key));
                push_grows::<SecondaryKeyView, SecondaryVersion>(
                    before,
                    gone.secondary,
                    index,
                    new_key,
                    SecondaryVersion { commit_index: index, present: true },
                );
            }
        }
    }

    proof fn index_changes_grow(
        self,
        before: Map<SecondaryKeyView, Seq<SecondaryVersion>>,
        indexes: Seq<IndexMetaView>,
        n: int,
        primary_key: Seq<u8>,
        old: Option<RowView>,
        new: Option<RowView>,
        index: u64,
    )
        requires
            grown::<SecondaryKeyView, SecondaryVersion>(before, self.secondary, index),
            0 <= n <= indexes.len(),
            forall|i: int, j: int|
                0 <= i < j < indexes.len() ==> (#[trigger] indexes[i]).id != (
                #[trigger] indexes[j]).id,
            forall|key: SecondaryKeyView|
                key.primary_key == primary_key && has_id(
                    indexes,
                    indexes.len() as int,
                    key.index_id,
                ) ==> #[trigger] chain(self.secondary, key) == chain(before, key),
        ensures
            ({
                let next = self.with_index_changes(indexes, n, primary_key, old, new, index);
                &&& next.primary == self.primary
                &&& grown::<SecondaryKeyView, SecondaryVersion>(before, next.secondary, index)
                &&& forall|key: SecondaryKeyView|
                    !(key.primary_key == primary_key && has_id(indexes, n, key.index_id))
                        ==> #[trigger] chain(next.secondary, key) == chain(self.secondary, key)
                &&& forall|key: SecondaryKeyView| #[trigger]
                    next.secondary.contains_key(key) ==> self.secondary.contains_key(key) || has_id(
                        indexes,
                        n,
                        key.index_id,
                    )
            }),
        decreases n,
    {
        if n > 0 {
            self.index_changes_grow(before, indexes, n - 1, primary_key, old, new, index);
            let last = self.with_index_changes(indexes, n - 1, primary_key, old, new, index);
            assert forall|key: SecondaryKeyView|
                key.index_id == indexes[n - 1].id && key.primary_key
                    == primary_key implies #[trigger] chain(last.secondary, key) == chain(
                before,
                key,
            ) by {
                assert(indexes[n - 1].id == key.index_id);
                assert(!has_id(indexes, n - 1, key.index_id));
                assert(has_id(indexes, indexes.len() as int, key.index_id));
                assert(chain(self.secondary, key) == chain(before, key));
            }
            last.index_change_grows(before, indexes[n - 1], primary_key, old, new, index);
            let next = self.with_index_changes(indexes, n, primary_key, old, new, index);
            assert forall|key: SecondaryKeyView|
                !(key.primary_key == primary_key && has_id(
                    indexes,
                    n,
                    key.index_id,
                )) implies #[trigger] chain(next.secondary, key) == chain(self.secondary, key) by {
                if key.primary_key == primary_key {
                    assert(key.index_id != indexes[n - 1].id);
                    if has_id(indexes, n - 1, key.index_id) {
                        let i = choose|i: int|
                            0 <= i < n - 1 && (#[trigger] indexes[i]).id == key.index_id;
                        assert(indexes[i].id == key.index_id);
                    }
                }
                assert(chain(last.secondary, key) == chain(self.secondary, key));
            }
            assert forall|key: SecondaryKeyView| #[trigger]
                next.secondary.contains_key(key) implies self.secondary.contains_key(key) || has_id(
                indexes,
                n,
                key.index_id,
            ) by {
                if !self.secondary.contains_key(key) {
                    if last.secondary.contains_key(key) {
                        let i = choose|i: int|
                            0 <= i < n - 1 && (#[trigger] indexes[i]).id == key.index_id;
                        assert(indexes[i].id == key.index_id);
                    } else {
                        assert(indexes[n - 1].id == key.index_id);
                    }
                }
            }
        }
    }

    /// Writes of a canonical attempt touch each row and each index entry at
    /// most once.
    pub(crate) proof fn writes_grow(
        self,
        last_applied: u64,
        catalog: CatalogView,
        attempt: TxnAttemptView,
        n: int,
        index: u64,
    )
        requires
            catalog.valid(),
            catalog.finite(),
            attempt.canonical() is Ok,
            0 <= n <= attempt.writes.len(),
        ensures
            ({
                let next = self.with_writes(last_applied, catalog, attempt.writes, n, index);
                &&& grown::<LogicalKeyView, RowVersion>(self.primary, next.primary, index)
                &&& grown::<SecondaryKeyView, SecondaryVersion>(
                    self.secondary,
                    next.secondary,
                    index,
                )
                &&& forall|key: LogicalKeyView|
                    !writes_row(attempt.writes, n, key) ==> #[trigger] chain(next.primary, key)
                        == chain(self.primary, key)
                &&& forall|i: int|
                    0 <= i < n ==> chain(
                        next.primary,
                        (#[trigger] attempt.writes[i]).logical_key()->Ok_0,
                    ) == seq![
                        RowVersionView { commit_index: index, row: attempt.writes[i].new_row() },
                    ] + chain(self.primary, attempt.writes[i].logical_key()->Ok_0)
                &&& forall|key: SecondaryKeyView|
                    !writes_entry(catalog, attempt.writes, n, key) ==> #[trigger] chain(
                        next.secondary,
                        key,
                    ) == chain(self.secondary, key)
                &&& forall|key: SecondaryKeyView| #[trigger]
                    next.secondary.contains_key(key) ==> self.secondary.contains_key(key)
                        || catalog.indexes.contains_key(key.index_id)
            }),
        decreases n,
    {
        if n <= 0 {
            grows_by_nothing::<LogicalKeyView, RowVersion>(self.primary, index);
            grows_by_nothing::<SecondaryKeyView, SecondaryVersion>(self.secondary, index);
        } else {
            self.writes_grow(last_applied, catalog, attempt, n - 1, index);
            let writes = attempt.writes;
            let last = self.with_writes(last_applied, catalog, writes, n - 1, index);
            let next = self.with_writes(last_applied, catalog, writes, n, index);
            let write = writes[n - 1];
            canonical_write_has_key(attempt, n - 1);
            let row_key = write.logical_key()->Ok_0;
            let indexes = catalog.indexes_of(write.table_id);
            indexes_of_table(catalog, write.table_id);
            let old = row_at(self.primary, row_key, last_applied);
            assert forall|j: int| 0 <= j < n - 1 implies (
            #[trigger] writes[j]).logical_key()->Ok_0 != row_key by {
                canonical_keys_increase(attempt, j, n - 1);
                LogicalKey::before_irreflexive(row_key);
            }
            assert forall|key: SecondaryKeyView|
                key.primary_key == row_key.primary_key && has_id(
                    indexes,
                    indexes.len() as int,
                    key.index_id,
                ) implies #[trigger] chain(last.secondary, key) == chain(self.secondary, key) by {
                let i = choose|i: int|
                    0 <= i < indexes.len() && (#[trigger] indexes[i]).id == key.index_id;
                assert(catalog.indexes[indexes[i].id] == indexes[i]);
                if writes_entry(catalog, writes, n - 1, key) {
                    let j = choose|j: int| #[trigger]
                        write_touches(catalog, writes, n - 1, key, j);
                    canonical_write_has_key(attempt, j);
                    assert(writes[j].logical_key()->Ok_0 == row_key);
                }
            }
            last.index_changes_grow(
                self.secondary,
                indexes,
                indexes.len() as int,
                row_key.primary_key,
                old,
                write.new_row(),
                index,
            );
            let changed = last.with_index_changes(
                indexes,
                indexes.len() as int,
                row_key.primary_key,
                old,
                write.new_row(),
                index,
            );
            let version = RowVersionView { commit_index: index, row: write.new_row() };
            assert(!writes_row(writes, n - 1, row_key));
            assert(chain(last.primary, row_key) == chain(self.primary, row_key));
            push_grows::<LogicalKeyView, RowVersion>(
                self.primary,
                changed.primary,
                index,
                row_key,
                version,
            );
            assert(next.primary == changed.primary.insert(
                row_key,
                seq![version] + chain(changed.primary, row_key),
            ));
            assert(next.secondary == changed.secondary);
            assert forall|key: LogicalKeyView|
                !writes_row(writes, n, key) implies #[trigger] chain(next.primary, key) == chain(
                self.primary,
                key,
            ) by {
                assert(key != row_key) by {
                    if key == row_key {
                        assert(writes[n - 1].logical_key()->Ok_0 == key);
                    }
                }
                assert(!writes_row(writes, n - 1, key)) by {
                    if writes_row(writes, n - 1, key) {
                        let j = choose|j: int|
                            0 <= j < n - 1 && (#[trigger] writes[j]).logical_key()->Ok_0 == key;
                        assert(writes[j].logical_key()->Ok_0 == key);
                    }
                }
                assert(chain(last.primary, key) == chain(self.primary, key));
            }
            assert forall|i: int| 0 <= i < n implies chain(
                next.primary,
                (#[trigger] writes[i]).logical_key()->Ok_0,
            ) == seq![RowVersionView { commit_index: index, row: writes[i].new_row() }] + chain(
                self.primary,
                writes[i].logical_key()->Ok_0,
            ) by {
                if i < n - 1 {
                    assert(writes[i].logical_key()->Ok_0 != row_key);
                    assert(chain(next.primary, writes[i].logical_key()->Ok_0) == chain(
                        last.primary,
                        writes[i].logical_key()->Ok_0,
                    ));
                }
            }
            assert forall|key: SecondaryKeyView|
                !writes_entry(catalog, writes, n, key) implies #[trigger] chain(
                next.secondary,
                key,
            ) == chain(self.secondary, key) by {
                assert(!writes_entry(catalog, writes, n - 1, key)) by {
                    if writes_entry(catalog, writes, n - 1, key) {
                        let j = choose|j: int| #[trigger]
                            write_touches(catalog, writes, n - 1, key, j);
                        assert(write_touches(catalog, writes, n, key, j));
                    }
                }
                assert(chain(last.secondary, key) == chain(self.secondary, key));
                if key.primary_key == row_key.primary_key && has_id(
                    indexes,
                    indexes.len() as int,
                    key.index_id,
                ) {
                    let i = choose|i: int|
                        0 <= i < indexes.len() && (#[trigger] indexes[i]).id == key.index_id;
                    assert(catalog.indexes[indexes[i].id] == indexes[i]);
                    assert(write_touches(catalog, writes, n, key, n - 1));
                }
            }
            assert forall|key: SecondaryKeyView| #[trigger]
                next.secondary.contains_key(key) implies self.secondary.contains_key(key)
                || catalog.indexes.contains_key(key.index_id) by {
                if !last.secondary.contains_key(key) {
                    assert(has_id(indexes, indexes.len() as int, key.index_id));
                    let i = choose|i: int|
                        0 <= i < indexes.len() && (#[trigger] indexes[i]).id == key.index_id;
                    assert(catalog.indexes.contains_key(indexes[i].id));
                }
            }
        }
    }

    /// Filling a new index touches only its own entries, each at most once.
    proof fn backfill_grows(
        self,
        before: Map<SecondaryKeyView, Seq<SecondaryVersion>>,
        indexed: IndexMetaView,
        keys: Seq<LogicalKeyView>,
        n: int,
        index: u64,
    )
        requires
            grown::<SecondaryKeyView, SecondaryVersion>(before, self.secondary, index),
            increasing::<LogicalKey>(keys),
            0 <= n <= keys.len(),
            forall|key: SecondaryKeyView|
                key.index_id == indexed.id ==> #[trigger] chain(self.secondary, key) == chain(
                    before,
                    key,
                ),
        ensures
            ({
                let next = self.backfilled(indexed, keys, n, index);
                &&& next.primary == self.primary
                &&& grown::<SecondaryKeyView, SecondaryVersion>(before, next.secondary, index)
                &&& forall|key: SecondaryKeyView|
                    !fills(indexed, keys, n, key) ==> #[trigger] chain(next.secondary, key)
                        == chain(self.secondary, key)
                &&& forall|key: SecondaryKeyView| #[trigger]
                    next.secondary.contains_key(key) ==> self.secondary.contains_key(key)
                        || key.index_id == indexed.id
            }),
        decreases n,
    {
        if n > 0 {
            self.backfill_grows(before, indexed, keys, n - 1, index);
            let last = self.backfilled(indexed, keys, n - 1, index);
            let next = self.backfilled(indexed, keys, n, index);
            let row_key = keys[n - 1];
            let value = cell(row_at(self.primary, row_key, index), indexed.column);
            if row_key.table_id == indexed.table_id && value is Some && value->0 !is Null {
                let entry = entry_key(indexed.id, value->0, row_key.primary_key);
                assert(!fills(indexed, keys, n - 1, entry)) by {
                    if fills(indexed, keys, n - 1, entry) {
                        let j = choose|j: int| #[trigger] row_fills(indexed, keys, n - 1, entry, j);
                        assert(keys[j] == row_key);
                        LogicalKey::before_irreflexive(row_key);
                    }
                }
                assert(chain(last.secondary, entry) == chain(self.secondary, entry));
                push_grows::<SecondaryKeyView, SecondaryVersion>(
                    before,
                    last.secondary,
                    index,
                    entry,
                    SecondaryVersion { commit_index: index, present: true },
                );
                assert(row_fills(indexed, keys, n, entry, n - 1));
            }
            assert forall|key: SecondaryKeyView|
                !fills(indexed, keys, n, key) implies #[trigger] chain(next.secondary, key)
                == chain(self.secondary, key) by {
                assert(!fills(indexed, keys, n - 1, key)) by {
                    if fills(indexed, keys, n - 1, key) {
                        let j = choose|j: int| #[trigger] row_fills(indexed, keys, n - 1, key, j);
                        assert(row_fills(indexed, keys, n, key, j));
                    }
                }
                assert(chain(last.secondary, key) == chain(self.secondary, key));
            }
        }
    }

    pub(crate) proof fn backfills_grow(
        self,
        before: Map<SecondaryKeyView, Seq<SecondaryVersion>>,
        indexes: Seq<IndexMetaView>,
        n: int,
        index: u64,
    )
        requires
            self.primary.dom().finite(),
            grown::<SecondaryKeyView, SecondaryVersion>(before, self.secondary, index),
            0 <= n <= indexes.len(),
            forall|i: int, j: int|
                0 <= i < j < indexes.len() ==> (#[trigger] indexes[i]).id != (
                #[trigger] indexes[j]).id,
            forall|key: SecondaryKeyView|
                has_id(indexes, indexes.len() as int, key.index_id) ==> #[trigger] chain(
                    self.secondary,
                    key,
                ) == chain(before, key),
        ensures
            ({
                let next = self.with_backfills(indexes, n, index);
                &&& next.primary == self.primary
                &&& grown::<SecondaryKeyView, SecondaryVersion>(before, next.secondary, index)
                &&& forall|key: SecondaryKeyView|
                    !has_id(indexes, n, key.index_id) ==> #[trigger] chain(next.secondary, key)
                        == chain(self.secondary, key)
                &&& forall|key: SecondaryKeyView| #[trigger]
                    next.secondary.contains_key(key) ==> self.secondary.contains_key(key) || has_id(
                        indexes,
                        n,
                        key.index_id,
                    )
            }),
        decreases n,
    {
        if n > 0 {
            self.backfills_grow(before, indexes, n - 1, index);
            let last = self.with_backfills(indexes, n - 1, index);
            let next = self.with_backfills(indexes, n, index);
            let keys = ordered::<LogicalKey>(self.primary.dom());
            finite_set_is_listed::<LogicalKey>(self.primary.dom());
            assert forall|key: SecondaryKeyView|
                key.index_id == indexes[n - 1].id implies #[trigger] chain(last.secondary, key)
                == chain(before, key) by {
                assert(indexes[n - 1].id == key.index_id);
                assert(!has_id(indexes, n - 1, key.index_id));
                assert(has_id(indexes, indexes.len() as int, key.index_id));
                assert(chain(self.secondary, key) == chain(before, key));
            }
            last.backfill_grows(before, indexes[n - 1], keys, keys.len() as int, index);
            assert forall|key: SecondaryKeyView|
                !has_id(indexes, n, key.index_id) implies #[trigger] chain(next.secondary, key)
                == chain(self.secondary, key) by {
                assert(key.index_id != indexes[n - 1].id);
                assert(!has_id(indexes, n - 1, key.index_id)) by {
                    if has_id(indexes, n - 1, key.index_id) {
                        let i = choose|i: int|
                            0 <= i < n - 1 && (#[trigger] indexes[i]).id == key.index_id;
                        assert(indexes[i].id == key.index_id);
                    }
                }
                assert(!fills(indexes[n - 1], keys, keys.len() as int, key)) by {
                    if fills(indexes[n - 1], keys, keys.len() as int, key) {
                        let j = choose|j: int| #[trigger]
                            row_fills(indexes[n - 1], keys, keys.len() as int, key, j);
                    }
                }
                assert(chain(last.secondary, key) == chain(self.secondary, key));
            }
            assert forall|key: SecondaryKeyView| #[trigger]
                next.secondary.contains_key(key) implies self.secondary.contains_key(key) || has_id(
                indexes,
                n,
                key.index_id,
            ) by {
                if last.secondary.contains_key(key) {
                    if has_id(indexes, n - 1, key.index_id) {
                        let i = choose|i: int|
                            0 <= i < n - 1 && (#[trigger] indexes[i]).id == key.index_id;
                        assert(indexes[i].id == key.index_id);
                    }
                } else {
                    assert(indexes[n - 1].id == key.index_id);
                }
            }
        }
    }
}

/// One of the first `n` writes is to the row.
pub(crate) open spec fn writes_row(writes: Seq<TxnWriteView>, n: int, key: LogicalKeyView) -> bool {
    exists|i: int| 0 <= i < n && (#[trigger] writes[i]).logical_key()->Ok_0 == key
}

pub(crate) open spec fn write_touches(
    catalog: CatalogView,
    writes: Seq<TxnWriteView>,
    n: int,
    key: SecondaryKeyView,
    i: int,
) -> bool {
    &&& 0 <= i < n
    &&& writes[i].logical_key()->Ok_0.primary_key == key.primary_key
    &&& catalog.indexes.contains_key(key.index_id)
    &&& catalog.indexes[key.index_id].table_id == writes[i].table_id
}

/// One of the first `n` writes may change the index entry.
pub(crate) open spec fn writes_entry(
    catalog: CatalogView,
    writes: Seq<TxnWriteView>,
    n: int,
    key: SecondaryKeyView,
) -> bool {
    exists|i: int| #[trigger] write_touches(catalog, writes, n, key, i)
}

pub(crate) open spec fn row_fills(
    indexed: IndexMetaView,
    keys: Seq<LogicalKeyView>,
    n: int,
    key: SecondaryKeyView,
    i: int,
) -> bool {
    &&& 0 <= i < n
    &&& keys[i].table_id == indexed.table_id
    &&& keys[i].primary_key == key.primary_key
    &&& key.index_id == indexed.id
}

/// One of the first `n` rows may give the new index the entry.
pub(crate) open spec fn fills(indexed: IndexMetaView, keys: Seq<LogicalKeyView>, n: int, key: SecondaryKeyView) -> bool {
    exists|i: int| #[trigger] row_fills(indexed, keys, n, key, i)
}

/// Facts about a commit that the laws rest on.
pub(crate) proof fn commit_grows(engine: EngineView, index: u64, attempt: TxnAttemptView)
    requires
        engine.well_formed(),
        engine.abort(attempt) is None,
    ensures
        ({
            let next = engine.committed(index, attempt);
            &&& attempt.canonical() is Ok
            &&& engine.catalog.mutated(attempt.catalog_mutations) is Ok
            &&& grown::<LogicalKeyView, RowVersion>(engine.primary, next.primary, index)
            &&& grown::<SecondaryKeyView, SecondaryVersion>(
                engine.secondary,
                next.secondary,
                index,
            )
            &&& forall|key: SecondaryKeyView| #[trigger]
                next.secondary.contains_key(key) ==> engine.secondary.contains_key(key)
                    || next.catalog.indexes.contains_key(key.index_id)
            &&& next.catalog.valid()
            &&& next.catalog.finite()
            &&& engine.catalog.indexes.submap_of(next.catalog.indexes)
            &&& forall|i: int|
                0 <= i < attempt.writes.len() ==> chain(
                    next.primary,
                    (#[trigger] attempt.writes[i]).logical_key()->Ok_0,
                ) == seq![
                    RowVersionView { commit_index: index, row: attempt.writes[i].new_row() },
                ] + chain(engine.primary, attempt.writes[i].logical_key()->Ok_0)
            &&& forall|key: LogicalKeyView|
                !writes_row(attempt.writes, attempt.writes.len() as int, key) ==> #[trigger] chain(
                    next.primary,
                    key,
                ) == chain(engine.primary, key)
        }),
{
    let mutations = attempt.catalog_mutations;
    let created = created_indexes(mutations, mutations.len() as int);
    let before = engine.versions();
    let n = attempt.writes.len() as int;
    let written = before.with_writes(
        engine.last_applied,
        engine.catalog,
        attempt.writes,
        n,
        index,
    );
    mutations_keep_validity(engine.catalog, mutations);
    created_indexes_are_new(engine.catalog, mutations);
    before.writes_grow(engine.last_applied, engine.catalog, attempt, n, index);
    assert forall|key: SecondaryKeyView|
        has_id(created, created.len() as int, key.index_id) implies #[trigger] chain(
        written.secondary,
        key,
    ) == chain(before.secondary, key) by {
        let i = choose|i: int| 0 <= i < created.len() && (#[trigger] created[i]).id == key.index_id;
        assert(!engine.catalog.indexes.contains_key(created[i].id));
        assert(!writes_entry(engine.catalog, attempt.writes, n, key));
    }
    written.backfills_grow(before.secondary, created, created.len() as int, index);
    let next = engine.committed(index, attempt);
    assert forall|key: SecondaryKeyView| #[trigger]
        next.secondary.contains_key(key) implies engine.secondary.contains_key(key)
        || next.catalog.indexes.contains_key(key.index_id) by {
        if !written.secondary.contains_key(key) {
            let i = choose|i: int|
                0 <= i < created.len() && (#[trigger] created[i]).id == key.index_id;
            assert(next.catalog.indexes.contains_key(created[i].id));
        }
    }
}

proof fn grown_chain_valid<K, T: Version>(
    before: Map<K, Seq<T::V>>,
    now: Map<K, Seq<T::V>>,
    last_applied: u64,
    index: u64,
    key: K,
)
    requires
        grown::<K, T>(before, now, index),
        last_applied < index,
        before.contains_key(key) ==> chain_valid::<T>(before[key], last_applied),
        now.contains_key(key),
    ensures
        chain_valid::<T>(now[key], index),
{
    assert(at_most_one::<T>(chain(before, key), chain(now, key), index));
    if chain(now, key) != chain(before, key) {
        push_keeps_chain::<T>(now[key][0], chain(before, key), last_applied, index);
    }
}

/// Recording a log position keeps the invariant.
pub proof fn recording_keeps_invariant(
    engine: EngineView,
    index: u64,
    apply_hash: Seq<u8>,
    outcome: ApplyOutcomeView,
)
    requires
        engine.well_formed(),
        engine.last_applied < index,
    ensures
        engine.recorded(index, apply_hash, outcome).well_formed(),
{
    let next = engine.recorded(index, apply_hash, outcome);
    assert(next.catalog.valid());
    assert forall|key: LogicalKeyView|
        #![trigger next.primary[key]]
        next.primary.contains_key(key) implies chain_valid::<RowVersion>(
        next.primary[key],
        index,
    ) by {
        assert(chain_valid::<RowVersion>(engine.primary[key], engine.last_applied));
    }
    assert forall|key: SecondaryKeyView|
        #![trigger next.secondary[key]]
        next.secondary.contains_key(key) implies chain_valid::<SecondaryVersion>(
        next.secondary[key],
        index,
    ) && next.catalog.indexes.contains_key(key.index_id) by {
        assert(chain_valid::<SecondaryVersion>(engine.secondary[key], engine.last_applied));
    }
}

/// Applying an attempt keeps the invariant of the engine.
pub proof fn applying_keeps_invariant(
    engine: EngineView,
    index: u64,
    apply_hash: Seq<u8>,
    request_hash: Seq<u8>,
    attempt: TxnAttemptView,
    outcome: ApplyOutcomeView,
    next: EngineView,
)
    requires
        engine.well_formed(),
        engine.apply_problem(index, apply_hash, attempt) is None,
        engine.applied_as(index, apply_hash, request_hash, attempt, outcome, next),
    ensures
        next.well_formed(),
{
    if index != engine.last_applied {
        match engine.admission(attempt.request, request_hash) {
            AdmissionView::New => {
                let result = outcome->Applied_0;
                if result is Committed {
                    commit_grows(engine, index, attempt);
                    let committed = engine.committed(index, attempt);
                    assert(next.catalog.valid());
                    assert forall|key: LogicalKeyView|
                        #![trigger next.primary[key]]
                        next.primary.contains_key(key) implies chain_valid::<RowVersion>(
                        next.primary[key],
                        index,
                    ) by {
                        if engine.primary.contains_key(key) {
                            assert(chain_valid::<RowVersion>(
                                engine.primary[key],
                                engine.last_applied,
                            ));
                        }
                        grown_chain_valid::<LogicalKeyView, RowVersion>(
                            engine.primary,
                            committed.primary,
                            engine.last_applied,
                            index,
                            key,
                        );
                    }
                    assert forall|key: SecondaryKeyView|
                        #![trigger next.secondary[key]]
                        next.secondary.contains_key(key) implies chain_valid::<SecondaryVersion>(
                        next.secondary[key],
                        index,
                    ) && next.catalog.indexes.contains_key(key.index_id) by {
                        if engine.secondary.contains_key(key) {
                            assert(chain_valid::<SecondaryVersion>(
                                engine.secondary[key],
                                engine.last_applied,
                            ));
                        }
                        grown_chain_valid::<SecondaryKeyView, SecondaryVersion>(
                            engine.secondary,
                            committed.secondary,
                            engine.last_applied,
                            index,
                            key,
                        );
                    }
                    assert(next.stats == next.counted(next.stats));
                } else {
                    let changed = engine.aborted().with_client(
                        attempt.request,
                        request_hash,
                        result,
                    );
                    assert(changed.catalog == engine.catalog);
                    assert(changed.stats == changed.counted(changed.stats));
                    assert forall|client: Seq<u8>|
                        #![trigger changed.clients[client]]
                        changed.clients.contains_key(client) implies changed.clients[client].sequence
                        > 0 by {
                        if client != attempt.request.client_id {
                            assert(engine.clients[client].sequence > 0);
                        }
                    }
                    assert(changed.well_formed());
                    recording_keeps_invariant(changed, index, apply_hash, outcome);
                }
            },
            AdmissionView::Duplicate(_) => {
                let changed = EngineView {
                    stats: EngineStats {
                        duplicate_requests: bumped(engine.stats.duplicate_requests),
                        ..engine.stats
                    },
                    ..engine
                };
                assert(changed.well_formed());
                recording_keeps_invariant(changed, index, apply_hash, outcome);
            },
            AdmissionView::Rejected(_) => {
                let changed = EngineView {
                    stats: EngineStats {
                        rejected_requests: bumped(engine.stats.rejected_requests),
                        ..engine.stats
                    },
                    ..engine
                };
                assert(changed.well_formed());
                recording_keeps_invariant(changed, index, apply_hash, outcome);
            },
        }
    }
}

/// Vacuuming keeps the invariant of the engine.
pub proof fn vacuum_keeps_invariant(engine: EngineView, retain_from: u64)
    requires
        engine.well_formed(),
        retain_from <= engine.last_applied,
    ensures
        engine.vacuumed_from(retain_from).well_formed(),
{
    let next = engine.vacuumed_from(retain_from);
    let floor = engine.floor_from(retain_from);
    assert(next.primary.dom().subset_of(engine.primary.dom()));
    assert(next.secondary.dom().subset_of(engine.secondary.dom()));
    vstd::set_lib::lemma_set_subset_finite(engine.primary.dom(), next.primary.dom());
    vstd::set_lib::lemma_set_subset_finite(engine.secondary.dom(), next.secondary.dom());
    assert(next.catalog.valid());
    assert forall|key: LogicalKeyView|
        #![trigger next.primary[key]]
        next.primary.contains_key(key) implies chain_valid::<RowVersion>(
        next.primary[key],
        next.last_applied,
    ) by {
        vacuum_keeps_chain::<RowVersion>(engine.primary[key], floor, engine.last_applied);
    }
    assert forall|key: SecondaryKeyView|
        #![trigger next.secondary[key]]
        next.secondary.contains_key(key) implies chain_valid::<SecondaryVersion>(
        next.secondary[key],
        next.last_applied,
    ) && next.catalog.indexes.contains_key(key.index_id) by {
        vacuum_keeps_chain::<SecondaryVersion>(engine.secondary[key], floor, engine.last_applied);
        assert(engine.catalog.indexes.contains_key(key.index_id));
    }
}

/// A transaction sees its own writes.
pub proof fn reads_its_own_writes(
    engine: EngineView,
    transaction: TransactionView,
    write: TxnWriteView,
)
    requires
        write.logical_key() is Ok,
    ensures
        engine.read(transaction.with_write(write), write.logical_key()->Ok_0) == write.new_row(),
        forall|key: LogicalKeyView|
            key != write.logical_key()->Ok_0 ==> #[trigger] engine.read(
                transaction.with_write(write),
                key,
            ) == engine.read(transaction, key),
{
}

/// What is applied at a later log index does not change what a snapshot sees,
/// neither in rows nor in index entries: reads repeat.
pub proof fn snapshot_reads_repeat(
    engine: EngineView,
    index: u64,
    apply_hash: Seq<u8>,
    request_hash: Seq<u8>,
    attempt: TxnAttemptView,
    outcome: ApplyOutcomeView,
    next: EngineView,
    transaction: TransactionView,
)
    requires
        engine.well_formed(),
        engine.apply_problem(index, apply_hash, attempt) is None,
        engine.applied_as(index, apply_hash, request_hash, attempt, outcome, next),
        transaction.read_ts <= engine.last_applied,
    ensures
        forall|key: LogicalKeyView| #[trigger]
            next.read(transaction, key) == engine.read(transaction, key),
        forall|key: SecondaryKeyView| #[trigger]
            next.entry_visible(key, transaction.read_ts) == engine.entry_visible(
                key,
                transaction.read_ts,
            ),
{
    if index != engine.last_applied && engine.admission(attempt.request, request_hash) is New
        && outcome->Applied_0 is Committed {
        commit_grows(engine, index, attempt);
        let committed = engine.committed(index, attempt);
        assert forall|key: LogicalKeyView| #[trigger]
            next.read(transaction, key) == engine.read(transaction, key) by {
            assert(at_most_one::<RowVersion>(
                chain(engine.primary, key),
                chain(committed.primary, key),
                index,
            ));
            let now = chain(committed.primary, key);
            if now != chain(engine.primary, key) {
                newer_version_is_invisible::<RowVersion>(
                    now[0],
                    chain(engine.primary, key),
                    transaction.read_ts,
                );
            }
        }
        assert forall|key: SecondaryKeyView| #[trigger]
            next.entry_visible(key, transaction.read_ts) == engine.entry_visible(
                key,
                transaction.read_ts,
            ) by {
            assert(at_most_one::<SecondaryVersion>(
                chain(engine.secondary, key),
                chain(committed.secondary, key),
                index,
            ));
            let now = chain(committed.secondary, key);
            if now != chain(engine.secondary, key) {
                newer_version_is_invisible::<SecondaryVersion>(
                    now[0],
                    chain(engine.secondary, key),
                    transaction.read_ts,
                );
            }
            crate::engine::mvcc::seen_from_bounds::<SecondaryVersion>(
                Seq::empty(),
                transaction.read_ts,
            );
        }
    }
}

impl EngineView {
    /// Those of the first `n` keys under which the transaction sees a row.
    pub(crate) open spec fn live_keys(self, transaction: TransactionView, keys: Seq<LogicalKeyView>, n: int) -> Seq<
        LogicalKeyView,
    >
        decreases n,
    {
        if n <= 0 {
            Seq::empty()
        } else if self.read(transaction, keys[n - 1]) is Some {
            self.live_keys(transaction, keys, n - 1).push(keys[n - 1])
        } else {
            self.live_keys(transaction, keys, n - 1)
        }
    }

    proof fn live_keys_facts(self, transaction: TransactionView, keys: Seq<LogicalKeyView>, n: int)
        requires
            increasing::<LogicalKey>(keys),
            0 <= n <= keys.len(),
        ensures
            ({
                let live = self.live_keys(transaction, keys, n);
                &&& increasing::<LogicalKey>(live)
                &&& forall|i: int|
                    0 <= i < live.len() ==> self.read(transaction, #[trigger] live[i]) is Some
                        && exists|j: int| 0 <= j < n && keys[j] == live[i]
                &&& forall|j: int|
                    0 <= j < n && self.read(transaction, #[trigger] keys[j]) is Some
                        ==> live.contains(keys[j])
                &&& self.rows_among(transaction, keys, n) == self.rows_among(
                    transaction,
                    live,
                    live.len() as int,
                )
            }),
        decreases n,
    {
        if n > 0 {
            self.live_keys_facts(transaction, keys, n - 1);
            let before = self.live_keys(transaction, keys, n - 1);
            let live = self.live_keys(transaction, keys, n);
            if self.read(transaction, keys[n - 1]) is Some {
                assert(live == before.push(keys[n - 1]));
                assert forall|i: int| 0 <= i < live.len() implies self.read(
                    transaction,
                    #[trigger] live[i],
                ) is Some && exists|j: int| 0 <= j < n && keys[j] == live[i] by {
                    if i < before.len() {
                        assert(live[i] == before[i]);
                        let j = choose|j: int| 0 <= j < n - 1 && keys[j] == before[i];
                        assert(keys[j] == live[i]);
                    } else {
                        assert(keys[n - 1] == live[i]);
                    }
                }
                assert forall|i: int, j: int| 0 <= i < j < live.len() implies LogicalKey::before(
                    #[trigger] live[i],
                    #[trigger] live[j],
                ) by {
                    assert(live[i] == before[i]);
                    if j < before.len() {
                        assert(live[j] == before[j]);
                    } else {
                        let k = choose|k: int| 0 <= k < n - 1 && keys[k] == before[i];
                        assert(LogicalKey::before(keys[k], keys[n - 1]));
                    }
                }
                assert forall|j: int|
                    0 <= j < n && self.read(
                        transaction,
                        #[trigger] keys[j],
                    ) is Some implies live.contains(keys[j]) by {
                    if j < n - 1 {
                        assert(before.contains(keys[j]));
                        let i = choose|i: int| 0 <= i < before.len() && before[i] == keys[j];
                        assert(live[i] == keys[j]);
                    } else {
                        assert(live[before.len() as int] == keys[j]);
                    }
                }
                self.rows_among_agree(transaction, before, live, before.len() as int);
            }
        }
    }

    proof fn rows_among_agree(
        self,
        transaction: TransactionView,
        a: Seq<LogicalKeyView>,
        b: Seq<LogicalKeyView>,
        n: int,
    )
        requires
            0 <= n <= a.len(),
            n <= b.len(),
            forall|i: int| 0 <= i < n ==> a[i] == b[i],
        ensures
            self.rows_among(transaction, a, n) == self.rows_among(transaction, b, n),
        decreases n,
    {
        if n > 0 {
            self.rows_among_agree(transaction, a, b, n - 1);
        }
    }

    pub(crate) proof fn rows_among_repeat(
        self,
        other: EngineView,
        transaction: TransactionView,
        keys: Seq<LogicalKeyView>,
        n: int,
    )
        requires
            forall|key: LogicalKeyView| #[trigger]
                other.read(transaction, key) == self.read(transaction, key),
        ensures
            other.rows_among(transaction, keys, n) == self.rows_among(transaction, keys, n),
            other.live_keys(transaction, keys, n) == self.live_keys(transaction, keys, n),
        decreases n,
    {
        if n > 0 {
            self.rows_among_repeat(other, transaction, keys, n - 1);
            assert(other.read(transaction, keys[n - 1]) == self.read(transaction, keys[n - 1]));
        }
    }
}

pub(crate) proof fn table_keys_finite(engine: EngineView, transaction: TransactionView, table_id: TableId)
    requires
        engine.primary.dom().finite(),
        transaction.writes.dom().finite(),
    ensures
        engine.table_keys(transaction, table_id).finite(),
{
    let all = engine.primary.dom().union(transaction.writes.dom());
    vstd::set_lib::lemma_set_subset_finite(all, engine.table_keys(transaction, table_id));
}

pub(crate) proof fn live_listing(engine: EngineView, transaction: TransactionView, table_id: TableId)
    requires
        engine.primary.dom().finite(),
        transaction.writes.dom().finite(),
    ensures
        ({
            let keys = ordered::<LogicalKey>(engine.table_keys(transaction, table_id));
            let live = engine.live_keys(transaction, keys, keys.len() as int);
            &&& increasing::<LogicalKey>(live)
            &&& forall|key: LogicalKeyView|
                #![trigger live.contains(key)]
                live.contains(key) <==> key.table_id == table_id && engine.read(transaction, key)
                    is Some
            &&& engine.rows_among(transaction, keys, keys.len() as int) == engine.rows_among(
                transaction,
                live,
                live.len() as int,
            )
        }),
{
    let set = engine.table_keys(transaction, table_id);
    table_keys_finite(engine, transaction, table_id);
    finite_set_is_listed::<LogicalKey>(set);
    let keys = ordered::<LogicalKey>(set);
    engine.live_keys_facts(transaction, keys, keys.len() as int);
    let live = engine.live_keys(transaction, keys, keys.len() as int);
    assert forall|key: LogicalKeyView|
        #![trigger live.contains(key)]
        live.contains(key) <==> key.table_id == table_id && engine.read(transaction, key)
            is Some by {
        if live.contains(key) {
            let i = choose|i: int| 0 <= i < live.len() && live[i] == key;
            assert(engine.read(transaction, live[i]) is Some);
            let j = choose|j: int| 0 <= j < keys.len() && keys[j] == live[i];
            assert(keys.contains(keys[j]));
            assert(set.contains(key));
        }
        if key.table_id == table_id && engine.read(transaction, key) is Some {
            if !engine.primary.contains_key(key) && !transaction.writes.contains_key(key) {
                crate::engine::mvcc::seen_from_bounds::<RowVersion>(
                    Seq::empty(),
                    transaction.read_ts,
                );
            }
            assert(set.contains(key));
            assert(keys.contains(key));
            let j = choose|j: int| 0 <= j < keys.len() && keys[j] == key;
            assert(engine.read(transaction, keys[j]) is Some);
        }
    }
}

/// A table scan repeats too: nothing that is applied later adds rows to a
/// snapshot or takes rows from it, so there are no phantoms.
pub proof fn snapshot_scans_repeat(
    engine: EngineView,
    index: u64,
    apply_hash: Seq<u8>,
    request_hash: Seq<u8>,
    attempt: TxnAttemptView,
    outcome: ApplyOutcomeView,
    next: EngineView,
    transaction: TransactionView,
    table_id: TableId,
)
    requires
        engine.well_formed(),
        engine.apply_problem(index, apply_hash, attempt) is None,
        engine.applied_as(index, apply_hash, request_hash, attempt, outcome, next),
        transaction.writes.dom().finite(),
        engine.snapshot_problem(transaction) is None,
        engine.table_for(transaction, table_id) is Some,
    ensures
        next.scanned(transaction, table_id) == engine.scanned(transaction, table_id),
{
    snapshot_reads_repeat(
        engine,
        index,
        apply_hash,
        request_hash,
        attempt,
        outcome,
        next,
        transaction,
    );
    applying_keeps_invariant(
        engine,
        index,
        apply_hash,
        request_hash,
        attempt,
        outcome,
        next,
    );
    live_listing(engine, transaction, table_id);
    live_listing(next, transaction, table_id);
    let before = ordered::<LogicalKey>(engine.table_keys(transaction, table_id));
    let after = ordered::<LogicalKey>(next.table_keys(transaction, table_id));
    let live_before = engine.live_keys(transaction, before, before.len() as int);
    let live_after = next.live_keys(transaction, after, after.len() as int);
    let live_set = Set::new(|key: LogicalKeyView| live_before.contains(key));
    assert(lists::<LogicalKey>(live_before, live_set));
    assert forall|key: LogicalKeyView| live_set.contains(key) <==> live_after.contains(key) by {
        assert(next.read(transaction, key) == engine.read(transaction, key));
    }
    assert(lists::<LogicalKey>(live_after, live_set));
    listing_is_unique::<LogicalKey>(live_before, live_after, live_set);
    engine.rows_among_repeat(next, transaction, live_before, live_before.len() as int);
    if index != engine.last_applied && engine.admission(attempt.request, request_hash) is New
        && outcome->Applied_0 is Committed {
        mutations_keep_validity(engine.catalog, attempt.catalog_mutations);
    }
    assert(next.table_for(transaction, table_id) is Some);
    assert(next.snapshot_problem(transaction) is None);
}

/// A committed write is what every snapshot from its log index on reads,
/// until a later one.
pub proof fn committed_writes_are_visible(
    engine: EngineView,
    index: u64,
    attempt: TxnAttemptView,
    i: int,
    read_ts: u64,
)
    requires
        engine.well_formed(),
        engine.abort(attempt) is None,
        0 <= i < attempt.writes.len(),
        index <= read_ts,
    ensures
        row_at(
            engine.committed(index, attempt).primary,
            attempt.writes[i].logical_key()->Ok_0,
            read_ts,
        ) == attempt.writes[i].new_row(),
{
    commit_grows(engine, index, attempt);
    let key = attempt.writes[i].logical_key()->Ok_0;
    let version = RowVersionView { commit_index: index, row: attempt.writes[i].new_row() };
    newest_version_is_seen::<RowVersion>(version, chain(engine.primary, key), read_ts);
}

/// First committer wins: once a transaction commits a row, every attempt that
/// writes the same row from an older snapshot aborts.
pub proof fn first_committer_wins(
    engine: EngineView,
    index: u64,
    winner: TxnAttemptView,
    loser: TxnAttemptView,
    i: int,
    j: int,
)
    requires
        engine.well_formed(),
        engine.abort(winner) is None,
        0 <= i < winner.writes.len(),
        0 <= j < loser.writes.len(),
        winner.writes[i].logical_key() == loser.writes[j].logical_key(),
        loser.read_ts < index,
    ensures
        engine.committed(index, winner).abort(loser) is Some,
{
    commit_grows(engine, index, winner);
    let next = engine.committed(index, winner);
    if next.abort(loser) is None {
        canonical_write_has_key(loser, j);
        let catalog = next.catalog.mutated(loser.catalog_mutations)->Ok_0;
        no_write_abort(next, catalog, loser, loser.writes.len() as int, j);
        let key = winner.writes[i].logical_key()->Ok_0;
        assert(chain(next.primary, key)[0].commit_index == index);
        assert(next.newer_commit(key, loser.read_ts) == Some(index));
    }
}

pub(crate) proof fn no_write_abort(
    engine: EngineView,
    catalog: CatalogView,
    attempt: TxnAttemptView,
    n: int,
    j: int,
)
    requires
        engine.first_write_abort(catalog, attempt, n) is None,
        0 <= j < n,
    ensures
        engine.write_abort(catalog, attempt.read_ts, attempt.writes[j]) is None,
    decreases n,
{
    if j < n - 1 {
        no_write_abort(engine, catalog, attempt, n - 1, j);
    }
}

/// Transactions that write different rows do not stop each other, whatever
/// they read: if one commits, the other is not aborted for a write conflict
/// with it.
pub proof fn disjoint_writers_both_commit(
    engine: EngineView,
    index: u64,
    first: TxnAttemptView,
    second: TxnAttemptView,
)
    requires
        engine.well_formed(),
        engine.abort(first) is None,
        engine.abort(second) is None,
        first.catalog_mutations.len() == 0,
        forall|i: int, j: int|
            0 <= i < first.writes.len() && 0 <= j < second.writes.len() ==> (
            #[trigger] first.writes[i]).logical_key() != (
            #[trigger] second.writes[j]).logical_key(),
    ensures
        engine.committed(index, first).abort(second) is None,
{
    commit_grows(engine, index, first);
    let next = engine.committed(index, first);
    assert(next.catalog == engine.catalog);
    let catalog = engine.catalog.mutated(second.catalog_mutations)->Ok_0;
    disjoint_writes_pass(engine, next, catalog, first, second, second.writes.len() as int);
}

proof fn disjoint_writes_pass(
    engine: EngineView,
    next: EngineView,
    catalog: CatalogView,
    first: TxnAttemptView,
    second: TxnAttemptView,
    n: int,
)
    requires
        0 <= n <= second.writes.len(),
        first.canonical() is Ok,
        second.canonical() is Ok,
        engine.first_write_abort(catalog, second, n) is None,
        forall|key: LogicalKeyView|
            !writes_row(first.writes, first.writes.len() as int, key) ==> #[trigger] chain(
                next.primary,
                key,
            ) == chain(engine.primary, key),
        forall|i: int, j: int|
            0 <= i < first.writes.len() && 0 <= j < second.writes.len() ==> (
            #[trigger] first.writes[i]).logical_key() != (
            #[trigger] second.writes[j]).logical_key(),
    ensures
        next.first_write_abort(catalog, second, n) is None,
    decreases n,
{
    if n > 0 {
        disjoint_writes_pass(engine, next, catalog, first, second, n - 1);
        canonical_write_has_key(second, n - 1);
        let key = second.writes[n - 1].logical_key()->Ok_0;
        assert(!writes_row(first.writes, first.writes.len() as int, key)) by {
            if writes_row(first.writes, first.writes.len() as int, key) {
                let i = choose|i: int|
                    0 <= i < first.writes.len() && (
                    #[trigger] first.writes[i]).logical_key()->Ok_0 == key;
                canonical_write_has_key(first, i);
                assert(first.writes[i].logical_key() == second.writes[n - 1].logical_key());
            }
        }
        assert(chain(next.primary, key) == chain(engine.primary, key));
    }
}

/// A request that was applied is answered with its first result when it comes
/// again, and changes no row, no index entry, no table and no client.
pub proof fn retries_are_answered_once(
    engine: EngineView,
    index: u64,
    apply_hash: Seq<u8>,
    request_hash: Seq<u8>,
    attempt: TxnAttemptView,
    result: CommitResultView,
    next: EngineView,
    again: TxnAttemptView,
    again_hash: Seq<u8>,
    outcome: ApplyOutcomeView,
    after: EngineView,
)
    requires
        index != engine.last_applied,
        engine.applied_as(
            index,
            apply_hash,
            request_hash,
            attempt,
            ApplyOutcomeView::Applied(result),
            next,
        ),
        again.request == attempt.request,
        index < u64::MAX,
        next.applied_as((index + 1) as u64, again_hash, request_hash, again, outcome, after),
    ensures
        outcome == ApplyOutcomeView::Duplicate(result),
        after.catalog == next.catalog,
        after.primary == next.primary,
        after.secondary == next.secondary,
        after.clients == next.clients,
{
}

/// Replaying the last log entry gives its outcome again and changes nothing.
pub proof fn replay_changes_nothing(
    engine: EngineView,
    apply_hash: Seq<u8>,
    request_hash: Seq<u8>,
    attempt: TxnAttemptView,
    outcome: ApplyOutcomeView,
    next: EngineView,
)
    requires
        engine.applied_as(
            engine.last_applied,
            apply_hash,
            request_hash,
            attempt,
            outcome,
            next,
        ),
    ensures
        next == engine,
        engine.last_apply_outcome == Some(outcome),
{
}

/// An attempt that does not commit changes no row, no index entry and no
/// table.
pub proof fn only_commits_change_data(
    engine: EngineView,
    index: u64,
    apply_hash: Seq<u8>,
    request_hash: Seq<u8>,
    attempt: TxnAttemptView,
    outcome: ApplyOutcomeView,
    next: EngineView,
)
    requires
        engine.applied_as(index, apply_hash, request_hash, attempt, outcome, next),
        !(outcome is Applied && outcome->Applied_0 is Committed),
    ensures
        next.catalog == engine.catalog,
        next.primary == engine.primary,
        next.secondary == engine.secondary,
{
}

/// The latest sequence of a client only grows, and by one at a time.
pub proof fn client_sequences_advance_by_one(
    engine: EngineView,
    index: u64,
    apply_hash: Seq<u8>,
    request_hash: Seq<u8>,
    attempt: TxnAttemptView,
    outcome: ApplyOutcomeView,
    next: EngineView,
    client: Seq<u8>,
)
    requires
        engine.well_formed(),
        engine.applied_as(index, apply_hash, request_hash, attempt, outcome, next),
        engine.clients.contains_key(client),
    ensures
        next.clients.contains_key(client),
        next.clients[client] == engine.clients[client] || next.clients[client].sequence
            == engine.clients[client].sequence + 1,
{
}

/// A vacuum does not change what any snapshot that it still allows sees.
pub proof fn vacuum_keeps_snapshots(
    engine: EngineView,
    retain_from: u64,
    transaction: TransactionView,
)
    requires
        engine.vacuumed_from(retain_from).retained_floor <= transaction.read_ts,
    ensures
        forall|key: LogicalKeyView| #[trigger]
            engine.vacuumed_from(retain_from).read(transaction, key) == engine.read(
                transaction,
                key,
            ),
        forall|key: SecondaryKeyView| #[trigger]
            engine.vacuumed_from(retain_from).entry_visible(key, transaction.read_ts)
                == engine.entry_visible(key, transaction.read_ts),
{
    let next = engine.vacuumed_from(retain_from);
    let floor = engine.floor_from(retain_from);
    assert forall|key: LogicalKeyView| #[trigger]
        next.read(transaction, key) == engine.read(transaction, key) by {
        let versions = chain(engine.primary, key);
        vacuum_keeps_reads::<RowVersion>(versions, floor, transaction.read_ts);
        crate::engine::mvcc::seen_from_bounds::<RowVersion>(versions, floor);
        assert(chain(next.primary, key) =~= vacuumed::<RowVersion>(versions, floor));
    }
    assert forall|key: SecondaryKeyView| #[trigger]
        next.entry_visible(key, transaction.read_ts) == engine.entry_visible(
            key,
            transaction.read_ts,
        ) by {
        if engine.secondary.contains_key(key) {
            let versions = engine.secondary[key];
            vacuum_keeps_reads::<SecondaryVersion>(versions, floor, transaction.read_ts);
            crate::engine::mvcc::seen_from_bounds::<SecondaryVersion>(versions, floor);
            crate::engine::mvcc::seen_from_bounds::<SecondaryVersion>(
                vacuumed::<SecondaryVersion>(versions, floor),
                transaction.read_ts,
            );
        }
    }
}

/// After a vacuum no transaction can start below its floor, and an attempt
/// from there aborts.
pub proof fn vacuum_floor_is_enforced(engine: EngineView, retain_from: u64, attempt: TxnAttemptView)
    requires
        attempt.read_ts < retain_from,
    ensures
        engine.vacuumed_from(retain_from).started(attempt.read_ts, attempt.schema_epoch) is Err,
        engine.vacuumed_from(retain_from).abort(attempt) == Some(
            AbortReasonView::SnapshotVacuumed {
                read_ts: attempt.read_ts,
                retained_floor: engine.floor_from(retain_from),
            },
        ),
{
}

/// What a caller asks of an engine.
pub enum EngineCall {
    Begin { read_ts: u64, schema_epoch: u64 },
    Apply {
        index: u64,
        apply_hash: Seq<u8>,
        request_hash: Seq<u8>,
        attempt: TxnAttemptView,
    },
    ApplyNoop { index: u64, apply_hash: Seq<u8> },
    Vacuum { retain_from: u64 },
}

/// What an engine answers.
pub enum EngineAnswer {
    Begun(std::result::Result<TransactionView, EngineErrorKind>),
    Applied(std::result::Result<ApplyOutcomeView, EngineErrorKind>),
    Vacuumed(std::result::Result<VacuumReport, EngineErrorKind>),
}

/// An engine takes a call, gives an answer, and is another engine then.
pub open spec fn takes(
    engine: EngineView,
    call: EngineCall,
    answer: EngineAnswer,
    next: EngineView,
) -> bool {
    match call {
        EngineCall::Begin { read_ts, schema_epoch } => {
            &&& answer == EngineAnswer::Begun(engine.started(read_ts, schema_epoch))
            &&& next == if engine.started(read_ts, schema_epoch) is Ok {
                EngineView { next_txn_id: (engine.next_txn_id + 1) as u64, ..engine }
            } else {
                engine
            }
        },
        EngineCall::Apply { index, apply_hash, request_hash, attempt } => {
            match engine.apply_problem(index, apply_hash, attempt) {
                Some(error) => next == engine && answer == EngineAnswer::Applied(Err(error)),
                None => answer matches EngineAnswer::Applied(Ok(outcome)) && engine.applied_as(
                    index,
                    apply_hash,
                    request_hash,
                    attempt,
                    outcome,
                    next,
                ),
            }
        },
        EngineCall::ApplyNoop { index, apply_hash } => match engine.noop_problem(
            index,
            apply_hash,
        ) {
            Some(error) => next == engine && answer == EngineAnswer::Applied(Err(error)),
            None => next == engine.recorded(index, apply_hash, ApplyOutcomeView::Noop) && answer
                == EngineAnswer::Applied(Ok(ApplyOutcomeView::Noop)),
        },
        EngineCall::Vacuum { retain_from } => if retain_from > engine.last_applied {
            next == engine && answer == EngineAnswer::Vacuumed(
                Err(EngineErrorKind::Core(ErrorKind::Constraint)),
            )
        } else {
            next == engine.vacuumed_from(retain_from) && answer == EngineAnswer::Vacuumed(
                Ok(engine.vacuum_report(retain_from)),
            )
        },
    }
}

/// Equal engines that take equal calls give equal answers and stay equal.
pub proof fn equal_engines_stay_equal(
    engine: EngineView,
    call: EngineCall,
    first_answer: EngineAnswer,
    first: EngineView,
    second_answer: EngineAnswer,
    second: EngineView,
)
    requires
        takes(engine, call, first_answer, first),
        takes(engine, call, second_answer, second),
    ensures
        first_answer == second_answer,
        first == second,
{
}

/// Replicas stay identical: two engines that start equal and take the same calls
/// in the same order are equal after each, have answered the same, and have the
/// same snapshot.
pub proof fn replicas_stay_identical(
    calls: Seq<EngineCall>,
    first: Seq<EngineView>,
    first_answers: Seq<EngineAnswer>,
    second: Seq<EngineView>,
    second_answers: Seq<EngineAnswer>,
    n: int,
)
    requires
        0 <= n <= calls.len(),
        first.len() == calls.len() + 1,
        second.len() == calls.len() + 1,
        first[0] == second[0],
        forall|i: int|
            0 <= i < calls.len() ==> takes(
                first[i],
                #[trigger] calls[i],
                first_answers[i],
                first[i + 1],
            ),
        forall|i: int|
            0 <= i < calls.len() ==> takes(
                second[i],
                #[trigger] calls[i],
                second_answers[i],
                second[i + 1],
            ),
    ensures
        first[n] == second[n],
        first[n].captured() == second[n].captured(),
        n > 0 ==> first_answers[n - 1] == second_answers[n - 1],
    decreases n,
{
    if n > 0 {
        replicas_stay_identical(calls, first, first_answers, second, second_answers, n - 1);
        assert(takes(first[n - 1], calls[n - 1], first_answers[n - 1], first[n - 1 + 1]));
        assert(takes(second[n - 1], calls[n - 1], second_answers[n - 1], second[n - 1 + 1]));
        equal_engines_stay_equal(
            first[n - 1],
            calls[n - 1],
            first_answers[n - 1],
            first[n],
            second_answers[n - 1],
            second[n],
        );
    }
}

} // verus!
