//! What vacuums keep and take, and what the counters count.

use vstd::prelude::*;
use crate::engine::laws::{
    EngineAnswer, EngineCall, live_listing, takes, vacuum_keeps_invariant, vacuum_keeps_snapshots,
};
use crate::engine::mvcc::{
    RowVersion, SecondaryKey, SecondaryKeyView, SecondaryVersion, Version,
    removed_among, saturated, seen_from, seen_from_bounds, seen_from_is, vacuumed, vacuumed_map,
    versions_among,
};
use crate::engine::outcome::{
    ApplyOutcomeView, CommitResultView, VacuumReport, };
use crate::engine::state::EngineView;
use crate::engine::transaction::{LogicalKey, LogicalKeyView, TransactionView};
use crate::ordmap::{
    Key, finite_set_is_listed, increasing, listing_is_unique, listing_len, lists, ordered,
};
use crate::types::{IndexId, TableId, ValueView};

verus! {

impl EngineView {
    proof fn rows_with_repeat(
        self,
        other: EngineView,
        transaction: TransactionView,
        keys: Seq<LogicalKeyView>,
        column: usize,
        value: ValueView,
        n: int,
    )
        requires
            forall|key: LogicalKeyView| #[trigger]
                other.read(transaction, key) == self.read(transaction, key),
        ensures
            other.rows_with(transaction, keys, column, value, n) == self.rows_with(
                transaction,
                keys,
                column,
                value,
                n,
            ),
        decreases n,
    {
        if n > 0 {
            self.rows_with_repeat(other, transaction, keys, column, value, n - 1);
            assert(other.read(transaction, keys[n - 1]) == self.read(transaction, keys[n - 1]));
        }
    }
}

/// A vacuum changes no table scan and no index lookup of a snapshot that it still
/// allows.
pub proof fn vacuum_keeps_scans_and_lookups(
    engine: EngineView,
    retain_from: u64,
    transaction: TransactionView,
    table_id: TableId,
    index_id: IndexId,
    value: ValueView,
)
    requires
        engine.well_formed(),
        retain_from <= engine.last_applied,
        engine.vacuumed_from(retain_from).retained_floor <= transaction.read_ts,
        transaction.writes.dom().finite(),
    ensures
        engine.vacuumed_from(retain_from).scanned(transaction, table_id) == engine.scanned(
            transaction,
            table_id,
        ),
        engine.vacuumed_from(retain_from).looked_up(transaction, index_id, value)
            == engine.looked_up(transaction, index_id, value),
{
    let next = engine.vacuumed_from(retain_from);
    vacuum_keeps_invariant(engine, retain_from);
    vacuum_keeps_snapshots(engine, retain_from, transaction);
    assert(next.snapshot_problem(transaction) == engine.snapshot_problem(transaction));
    live_listing(engine, transaction, table_id);
    live_listing(next, transaction, table_id);
    let before = ordered::<LogicalKey>(engine.table_keys(transaction, table_id));
    let after = ordered::<LogicalKey>(next.table_keys(transaction, table_id));
    let live_before = engine.live_keys(transaction, before, before.len() as int);
    let live_after = next.live_keys(transaction, after, after.len() as int);
    let live_set = Set::new(|key: LogicalKeyView| live_before.contains(key));
    assert(lists::<LogicalKey>(live_before, live_set));
    assert forall|key: LogicalKeyView| live_set.contains(key) <==> live_after.contains(key) by {
        assert(next.read(transaction, key) == engine.read(transaction, key));
    }
    assert(lists::<LogicalKey>(live_after, live_set));
    listing_is_unique::<LogicalKey>(live_before, live_after, live_set);
    engine.rows_among_repeat(next, transaction, live_before, live_before.len() as int);
    if let Some(index) = engine.index_for(transaction, index_id) {
        assert(next.entry_keys(transaction, index, index_id, value) =~= engine.entry_keys(
            transaction,
            index,
            index_id,
            value,
        ));
        let keys = ordered::<LogicalKey>(engine.entry_keys(transaction, index, index_id, value));
        engine.rows_with_repeat(
            next,
            transaction,
            keys,
            index.column,
            value,
            keys.len() as int,
        );
    }
}

proof fn vacuuming_again_removes_nothing<T: Version>(versions: Seq<T::V>, floor: u64)
    ensures
        vacuumed::<T>(vacuumed::<T>(versions, floor), floor) == vacuumed::<T>(versions, floor),
{
    let once = vacuumed::<T>(versions, floor);
    let position = seen_from::<T>(versions, floor);
    seen_from_bounds::<T>(versions, floor);
    assert forall|i: int| 0 <= i < once.len() implies #[trigger] once[i] == versions[i] by {}
    seen_from_is::<T>(once, floor, position);
    assert(vacuumed::<T>(once, floor) =~= once);
}

proof fn nothing_to_remove<K, T: Version>(
    map: Map<K, Seq<T::V>>,
    keys: Seq<K>,
    floor: u64,
    n: int,
)
    requires
        0 <= n <= keys.len(),
        forall|i: int| 0 <= i < n ==> vacuumed::<T>(map[#[trigger] keys[i]], floor) == map[keys[i]],
    ensures
        removed_among::<K, T>(map, keys, floor, n) == 0,
    decreases n,
{
    if n > 0 {
        nothing_to_remove::<K, T>(map, keys, floor, n - 1);
        assert(vacuumed::<T>(map[keys[n - 1]], floor) == map[keys[n - 1]]);
    }
}

/// A second vacuum with nothing in between, or one that retains no less, changes
/// nothing and reports that it removed nothing.
pub proof fn vacuuming_again_changes_nothing(engine: EngineView, retain_from: u64, again: u64)
    requires
        engine.well_formed(),
        retain_from <= engine.last_applied,
        again <= engine.vacuumed_from(retain_from).retained_floor,
    ensures
        ({
            let once = engine.vacuumed_from(retain_from);
            &&& once.vacuumed_from(again) == once
            &&& once.vacuum_report(again) == (VacuumReport {
                previous_floor: once.retained_floor,
                retained_floor: once.retained_floor,
                primary_versions_removed: 0,
                secondary_versions_removed: 0,
                empty_primary_chains_removed: 0,
                empty_secondary_chains_removed: 0,
            })
        }),
{
    let once = engine.vacuumed_from(retain_from);
    let floor = engine.floor_from(retain_from);
    vacuum_keeps_invariant(engine, retain_from);
    assert(once.floor_from(again) == floor);
    assert forall|key: LogicalKeyView| #[trigger] once.primary.contains_key(key) implies vacuumed::<
        RowVersion,
    >(once.primary[key], floor) == once.primary[key] && once.primary[key].len() > 0 by {
        vacuuming_again_removes_nothing::<RowVersion>(engine.primary[key], floor);
    }
    assert forall|key: SecondaryKeyView| #[trigger]
        once.secondary.contains_key(key) implies vacuumed::<SecondaryVersion>(
        once.secondary[key],
        floor,
    ) == once.secondary[key] && once.secondary[key].len() > 0 by {
        vacuuming_again_removes_nothing::<SecondaryVersion>(engine.secondary[key], floor);
    }
    assert(vacuumed_map::<LogicalKeyView, RowVersion>(once.primary, floor) =~= once.primary);
    assert(vacuumed_map::<SecondaryKeyView, SecondaryVersion>(once.secondary, floor)
        =~= once.secondary);
    let rows = ordered::<LogicalKey>(once.primary.dom());
    let entries = ordered::<SecondaryKey>(once.secondary.dom());
    finite_set_is_listed::<LogicalKey>(once.primary.dom());
    finite_set_is_listed::<SecondaryKey>(once.secondary.dom());
    listing_len::<LogicalKey>(rows, once.primary.dom());
    listing_len::<SecondaryKey>(entries, once.secondary.dom());
    assert forall|i: int| 0 <= i < rows.len() implies vacuumed::<RowVersion>(
        once.primary[#[trigger] rows[i]],
        floor,
    ) == once.primary[rows[i]] by {
        assert(rows.contains(rows[i]));
        assert(once.primary.dom().contains(rows[i]));
        assert(once.primary.contains_key(rows[i]));
    }
    assert forall|i: int| 0 <= i < entries.len() implies vacuumed::<SecondaryVersion>(
        once.secondary[#[trigger] entries[i]],
        floor,
    ) == once.secondary[entries[i]] by {
        assert(entries.contains(entries[i]));
        assert(once.secondary.dom().contains(entries[i]));
        assert(once.secondary.contains_key(entries[i]));
    }
    nothing_to_remove::<LogicalKeyView, RowVersion>(
        once.primary,
        rows,
        floor,
        rows.len() as int,
    );
    nothing_to_remove::<SecondaryKeyView, SecondaryVersion>(
        once.secondary,
        entries,
        floor,
        entries.len() as int,
    );
    let next = once.vacuumed_from(again);
    assert(next.stats == once.stats);
    assert(next =~= once);
}

/// Those of the first `n` keys of which a vacuum leaves something.
spec fn kept_keys<K, T: Version>(
    map: Map<K, Seq<T::V>>,
    keys: Seq<K>,
    floor: u64,
    n: int,
) -> Seq<K>
    decreases n,
{
    if n <= 0 {
        Seq::empty()
    } else if vacuumed::<T>(map[keys[n - 1]], floor).len() > 0 {
        kept_keys::<K, T>(map, keys, floor, n - 1).push(keys[n - 1])
    } else {
        kept_keys::<K, T>(map, keys, floor, n - 1)
    }
}

proof fn versions_agree<K, V>(map: Map<K, Seq<V>>, a: Seq<K>, b: Seq<K>, n: int)
    requires
        0 <= n <= a.len(),
        n <= b.len(),
        forall|i: int| 0 <= i < n ==> a[i] == b[i],
    ensures
        versions_among(map, a, n) == versions_among(map, b, n),
    decreases n,
{
    if n > 0 {
        versions_agree(map, a, b, n - 1);
    }
}

proof fn kept_keys_facts<K: Key, T: Version>(
    map: Map<K::V, Seq<T::V>>,
    keys: Seq<K::V>,
    floor: u64,
    n: int,
)
    requires
        increasing::<K>(keys),
        0 <= n <= keys.len(),
        forall|i: int| 0 <= i < keys.len() ==> map.contains_key(#[trigger] keys[i]),
    ensures
        ({
            let kept = kept_keys::<K::V, T>(map, keys, floor, n);
            let after = vacuumed_map::<K::V, T>(map, floor);
            &&& increasing::<K>(kept)
            &&& forall|i: int|
                0 <= i < kept.len() ==> after.contains_key(#[trigger] kept[i]) && exists|j: int|
                    0 <= j < n && keys[j] == kept[i]
            &&& forall|j: int|
                0 <= j < n && after.contains_key(#[trigger] keys[j]) ==> kept.contains(keys[j])
            &&& versions_among(map, keys, n) == versions_among(after, kept, kept.len() as int)
                + removed_among::<K::V, T>(map, keys, floor, n)
        }),
    decreases n,
{
    if n > 0 {
        kept_keys_facts::<K, T>(map, keys, floor, n - 1);
        let before = kept_keys::<K::V, T>(map, keys, floor, n - 1);
        let kept = kept_keys::<K::V, T>(map, keys, floor, n);
        let after = vacuumed_map::<K::V, T>(map, floor);
        let last = keys[n - 1];
        assert(map.contains_key(last));
        seen_from_bounds::<T>(map[last], floor);
        assert(vacuumed::<T>(map[last], floor).len() <= map[last].len());
        if vacuumed::<T>(map[last], floor).len() > 0 {
            assert(kept == before.push(last));
            assert(after.contains_key(last));
            versions_agree(after, before, kept, before.len() as int);
            assert(versions_among(after, kept, kept.len() as int) == versions_among(
                after,
                before,
                before.len() as int,
            ) + after[last].len());
        } else {
            assert(!after.contains_key(last));
        }
        assert forall|i: int| 0 <= i < kept.len() implies after.contains_key(#[trigger] kept[i])
            && exists|j: int| 0 <= j < n && keys[j] == kept[i] by {
            if i < before.len() {
                assert(kept[i] == before[i]);
                let j = choose|j: int| 0 <= j < n - 1 && keys[j] == before[i];
                assert(keys[j] == kept[i]);
            } else {
                assert(keys[n - 1] == kept[i]);
            }
        }
        assert forall|i: int, j: int| 0 <= i < j < kept.len() implies K::before(
            #[trigger] kept[i],
            #[trigger] kept[j],
        ) by {
            assert(kept[i] == before[i]);
            if j < before.len() {
                assert(kept[j] == before[j]);
            } else {
                let k = choose|k: int| 0 <= k < n - 1 && keys[k] == before[i];
                assert(K::before(keys[k], keys[n - 1]));
            }
        }
        assert forall|j: int|
            0 <= j < n && after.contains_key(#[trigger] keys[j]) implies kept.contains(keys[j]) by {
            if j < n - 1 {
                assert(before.contains(keys[j]));
                let i = choose|i: int| 0 <= i < before.len() && before[i] == keys[j];
                assert(kept[i] == keys[j]);
            } else {
                assert(kept[before.len() as int] == keys[j]);
            }
        }
    }
}

/// What a vacuum counts as removed is what it removes: the versions before are the
/// versions after and those removed.
proof fn removed_versions_are_counted<K: Key, T: Version>(
    map: Map<K::V, Seq<T::V>>,
    floor: u64,
)
    requires
        map.dom().finite(),
    ensures
        ({
            let keys = ordered::<K>(map.dom());
            let after = vacuumed_map::<K::V, T>(map, floor);
            let left = ordered::<K>(after.dom());
            versions_among(map, keys, keys.len() as int) == versions_among(
                after,
                left,
                left.len() as int,
            ) + removed_among::<K::V, T>(map, keys, floor, keys.len() as int)
        }),
{
    let keys = ordered::<K>(map.dom());
    let after = vacuumed_map::<K::V, T>(map, floor);
    let left = ordered::<K>(after.dom());
    finite_set_is_listed::<K>(map.dom());
    vstd::set_lib::lemma_set_subset_finite(map.dom(), after.dom());
    finite_set_is_listed::<K>(after.dom());
    assert forall|i: int| 0 <= i < keys.len() implies map.contains_key(#[trigger] keys[i]) by {
        assert(keys.contains(keys[i]));
        assert(map.dom().contains(keys[i]));
    }
    kept_keys_facts::<K, T>(map, keys, floor, keys.len() as int);
    let kept = kept_keys::<K::V, T>(map, keys, floor, keys.len() as int);
    assert forall|key: K::V|
        #![trigger after.dom().contains(key)]
        #![trigger kept.contains(key)]
        after.dom().contains(key) <==> kept.contains(key) by {
        if kept.contains(key) {
            let i = choose|i: int| 0 <= i < kept.len() && kept[i] == key;
            assert(after.contains_key(kept[i]));
        }
        if after.dom().contains(key) {
            assert(map.dom().contains(key));
            assert(keys.contains(key));
            let j = choose|j: int| 0 <= j < keys.len() && keys[j] == key;
            assert(after.contains_key(keys[j]));
        }
    }
    assert(lists::<K>(kept, after.dom()));
    listing_is_unique::<K>(kept, left, after.dom());
}

/// The counts that a vacuum reports are what it removes: the versions that there
/// were less those that are left, both of rows and of index entries.
pub proof fn vacuum_reports_what_it_removes(engine: EngineView, retain_from: u64)
    requires
        engine.well_formed(),
        retain_from <= engine.last_applied,
    ensures
        ({
            let next = engine.vacuumed_from(retain_from);
            let report = engine.vacuum_report(retain_from);
            let rows = ordered::<LogicalKey>(engine.primary.dom());
            let rows_left = ordered::<LogicalKey>(next.primary.dom());
            let entries = ordered::<SecondaryKey>(engine.secondary.dom());
            let entries_left = ordered::<SecondaryKey>(next.secondary.dom());
            &&& report.primary_versions_removed == saturated(
                (versions_among(engine.primary, rows, rows.len() as int) - versions_among(
                    next.primary,
                    rows_left,
                    rows_left.len() as int,
                )) as nat,
            )
            &&& report.secondary_versions_removed == saturated(
                (versions_among(engine.secondary, entries, entries.len() as int) - versions_among(
                    next.secondary,
                    entries_left,
                    entries_left.len() as int,
                )) as nat,
            )
        }),
{
    let floor = engine.floor_from(retain_from);
    removed_versions_are_counted::<LogicalKey, RowVersion>(engine.primary, floor);
    removed_versions_are_counted::<SecondaryKey, SecondaryVersion>(engine.secondary, floor);
    finite_set_is_listed::<LogicalKey>(engine.primary.dom());
    finite_set_is_listed::<SecondaryKey>(engine.secondary.dom());
    listing_len::<LogicalKey>(
        ordered::<LogicalKey>(engine.primary.dom()),
        engine.primary.dom(),
    );
    listing_len::<SecondaryKey>(
        ordered::<SecondaryKey>(engine.secondary.dom()),
        engine.secondary.dom(),
    );
}

/// How often something happened.
pub struct Tally {
    pub committed: nat,
    pub aborted: nat,
    pub duplicates: nat,
    pub rejected: nat,
    pub vacuumed_rows: nat,
    pub vacuumed_entries: nat,
}

/// What one call adds to the counters. Repeating the last log index adds nothing.
pub open spec fn counts(engine: EngineView, call: EngineCall, answer: EngineAnswer) -> Tally {
    let none = Tally {
        committed: 0,
        aborted: 0,
        duplicates: 0,
        rejected: 0,
        vacuumed_rows: 0,
        vacuumed_entries: 0,
    };
    match (call, answer) {
        (EngineCall::Apply { index, .. }, EngineAnswer::Applied(Ok(outcome))) => if index
            == engine.last_applied {
            none
        } else {
            match outcome {
                ApplyOutcomeView::Applied(CommitResultView::Committed { .. }) => Tally {
                    committed: 1,
                    ..none
                },
                ApplyOutcomeView::Applied(CommitResultView::Aborted { .. }) => Tally {
                    aborted: 1,
                    ..none
                },
                ApplyOutcomeView::Duplicate(_) => Tally { duplicates: 1, ..none },
                ApplyOutcomeView::Rejected(_) => Tally { rejected: 1, ..none },
                ApplyOutcomeView::Noop => none,
            }
        },
        (EngineCall::Vacuum { .. }, EngineAnswer::Vacuumed(Ok(report))) => Tally {
            vacuumed_rows: report.primary_versions_removed as nat,
            vacuumed_entries: report.secondary_versions_removed as nat,
            ..none
        },
        _ => none,
    }
}

/// What the first `n` calls of a history add to the counters.
pub open spec fn counted_over(
    engines: Seq<EngineView>,
    calls: Seq<EngineCall>,
    answers: Seq<EngineAnswer>,
    n: int,
) -> Tally
    decreases n,
{
    if n <= 0 {
        Tally {
            committed: 0,
            aborted: 0,
            duplicates: 0,
            rejected: 0,
            vacuumed_rows: 0,
            vacuumed_entries: 0,
        }
    } else {
        let before = counted_over(engines, calls, answers, n - 1);
        let added = counts(engines[n - 1], calls[n - 1], answers[n - 1]);
        Tally {
            committed: before.committed + added.committed,
            aborted: before.aborted + added.aborted,
            duplicates: before.duplicates + added.duplicates,
            rejected: before.rejected + added.rejected,
            vacuumed_rows: before.vacuumed_rows + added.vacuumed_rows,
            vacuumed_entries: before.vacuumed_entries + added.vacuumed_entries,
        }
    }
}

/// A counter that stops at the largest number.
pub open spec fn capped(n: nat) -> u64 {
    if n > u64::MAX {
        u64::MAX
    } else {
        n as u64
    }
}

/// The counters of an engine are sums over its history: they count the commits,
/// the aborts, the repeated and the rejected requests, and the versions that
/// vacuums removed.
pub proof fn counters_sum_over_a_history(
    engines: Seq<EngineView>,
    calls: Seq<EngineCall>,
    answers: Seq<EngineAnswer>,
    n: int,
)
    requires
        0 <= n <= calls.len(),
        engines.len() == calls.len() + 1,
        forall|i: int|
            0 <= i < calls.len() ==> takes(
                engines[i],
                #[trigger] calls[i],
                answers[i],
                engines[i + 1],
            ),
    ensures
        ({
            let start = engines[0].stats;
            let now = engines[n].stats;
            let counted = counted_over(engines, calls, answers, n);
            &&& now.committed_transactions == capped(
                start.committed_transactions as nat + counted.committed,
            )
            &&& now.aborted_transactions == capped(
                start.aborted_transactions as nat + counted.aborted,
            )
            &&& now.duplicate_requests == capped(
                start.duplicate_requests as nat + counted.duplicates,
            )
            &&& now.rejected_requests == capped(start.rejected_requests as nat + counted.rejected)
            &&& now.vacuumed_primary_versions == capped(
                start.vacuumed_primary_versions as nat + counted.vacuumed_rows,
            )
            &&& now.vacuumed_secondary_versions == capped(
                start.vacuumed_secondary_versions as nat + counted.vacuumed_entries,
            )
        }),
    decreases n,
{
    if n > 0 {
        counters_sum_over_a_history(engines, calls, answers, n - 1);
        assert(takes(engines[n - 1], calls[n - 1], answers[n - 1], engines[n - 1 + 1]));
    }
}

/// How many of the first `n` calls apply a request at a new log index and are answered.
pub open spec fn requests_answered(
    engines: Seq<EngineView>,
    calls: Seq<EngineCall>,
    answers: Seq<EngineAnswer>,
    n: int,
) -> nat
    decreases n,
{
    if n <= 0 {
        0
    } else {
        requests_answered(engines, calls, answers, n - 1) + match (calls[n - 1], answers[n - 1]) {
            (EngineCall::Apply { index, .. }, EngineAnswer::Applied(Ok(_))) => if index
                == engines[n - 1].last_applied {
                0nat
            } else {
                1
            },
            _ => 0,
        }
    }
}

/// How many of the first `n` calls apply an empty entry at a new log index and are answered.
pub open spec fn noops_answered(
    engines: Seq<EngineView>,
    calls: Seq<EngineCall>,
    answers: Seq<EngineAnswer>,
    n: int,
) -> nat
    decreases n,
{
    if n <= 0 {
        0
    } else {
        noops_answered(engines, calls, answers, n - 1) + match (calls[n - 1], answers[n - 1]) {
            (EngineCall::ApplyNoop { index, .. }, EngineAnswer::Applied(Ok(_))) => if index
                == engines[n - 1].last_applied {
                0nat
            } else {
                1
            },
            _ => 0,
        }
    }
}

proof fn answers_are_counted(
    engines: Seq<EngineView>,
    calls: Seq<EngineCall>,
    answers: Seq<EngineAnswer>,
    n: int,
)
    requires
        0 <= n <= calls.len(),
        engines.len() == calls.len() + 1,
        forall|i: int|
            0 <= i < calls.len() ==> takes(
                engines[i],
                #[trigger] calls[i],
                answers[i],
                engines[i + 1],
            ),
    ensures
        ({
            let counted = counted_over(engines, calls, answers, n);
            counted.committed + counted.aborted + counted.duplicates + counted.rejected
                == requests_answered(engines, calls, answers, n)
        }),
        engines[n].last_applied == engines[0].last_applied + requests_answered(
            engines,
            calls,
            answers,
            n,
        ) + noops_answered(engines, calls, answers, n),
    decreases n,
{
    if n > 0 {
        answers_are_counted(engines, calls, answers, n - 1);
        assert(takes(engines[n - 1], calls[n - 1], answers[n - 1], engines[n - 1 + 1]));
    }
}

/// Every request that an engine answers at a new log index is counted once, as a commit, an
/// abort, a repetition or a rejection; with the empty entries at new log indexes they make up
/// the log index that the engine has reached. The engine starts empty, and no counter has
/// reached the largest number.
pub proof fn counters_account_for_the_log(
    engines: Seq<EngineView>,
    calls: Seq<EngineCall>,
    answers: Seq<EngineAnswer>,
    n: int,
)
    requires
        0 <= n <= calls.len(),
        engines.len() == calls.len() + 1,
        engines[0] == EngineView::initial(),
        forall|i: int|
            0 <= i < calls.len() ==> takes(
                engines[i],
                #[trigger] calls[i],
                answers[i],
                engines[i + 1],
            ),
        engines[n].stats.committed_transactions < u64::MAX,
        engines[n].stats.aborted_transactions < u64::MAX,
        engines[n].stats.duplicate_requests < u64::MAX,
        engines[n].stats.rejected_requests < u64::MAX,
    ensures
        ({
            let stats = engines[n].stats;
            stats.committed_transactions + stats.aborted_transactions + stats.duplicate_requests
                + stats.rejected_requests == requests_answered(engines, calls, answers, n)
        }),
        requests_answered(engines, calls, answers, n) + noops_answered(
            engines,
            calls,
            answers,
            n,
        ) == engines[n].last_applied,
{
    counters_sum_over_a_history(engines, calls, answers, n);
    answers_are_counted(engines, calls, answers, n);
}

} // verus!
