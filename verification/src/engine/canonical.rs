//! The records of a snapshot do not depend on any order.

use vstd::prelude::*;
use crate::engine::records::{
    RecordHead, RecordHeadView, SnapshotPartView, SnapshotRecordView, assembled, clients_are_found,
    collected, fits, head_order, heads, order_keeps_parts, part_heads_differ, parts_at,
    parts_by_head, parts_in_order, primary_is_found, records_at, records_round_trip,
    same_entries_same_map, secondary_is_found, sorts_records,
};
use crate::engine::snapshot::{
    EngineSnapshotView, };
use crate::ordmap::{Key, entry_keys, increasing, listing_is_unique, lists};
use crate::sorting::{lists_positions, position_is_listed, stably_sorts};

verus! {

/// A sequence in another order.
pub open spec fn reordered<A>(items: Seq<A>, order: Seq<int>) -> Seq<A> {
    Seq::new(order.len(), |i: int| items[order[i]])
}

/// Whether records make up a snapshot, and which, does not depend on their order.
pub proof fn order_of_records_does_not_matter(
    records: Seq<SnapshotRecordView>,
    parts: Seq<Option<SnapshotPartView>>,
    order: Seq<int>,
)
    requires
        records.len() == parts.len(),
        lists_positions(order, records.len() as int),
    ensures
        collected(reordered(records, order), reordered(parts, order)) == collected(records, parts),
{
    let others = reordered(records, order);
    let chosen = reordered(parts, order);
    let fit = forall|i: int| 0 <= i < records.len() ==> fits(#[trigger] records[i], parts[i]);
    let others_fit = forall|i: int| 0 <= i < others.len() ==> fits(#[trigger] others[i], chosen[i]);
    assert(fit ==> others_fit) by {
        if fit {
            assert forall|i: int| 0 <= i < others.len() implies fits(#[trigger] others[i], chosen[i]) by {
                assert(fits(records[order[i]], parts[order[i]]));
            }
        }
    }
    assert(others_fit ==> fit) by {
        if others_fit {
            assert forall|i: int| 0 <= i < records.len() implies fits(#[trigger] records[i], parts[i]) by {
                position_is_listed(order, records.len() as int, i);
                let k = choose|k: int| 0 <= k < order.len() && order[k] == i;
                assert(fits(others[k], chosen[k]));
            }
        }
    }
    let names = heads(records);
    let other_names = heads(others);
    assert(names.no_duplicates() ==> other_names.no_duplicates()) by {
        if names.no_duplicates() {
            assert forall|i: int, j: int|
                0 <= i < other_names.len() && 0 <= j < other_names.len() && i
                    != j implies other_names[i] != other_names[j] by {
                assert(order[i] != order[j]);
                assert(names[order[i]] != names[order[j]]);
            }
        }
    }
    assert(other_names.no_duplicates() ==> names.no_duplicates()) by {
        if other_names.no_duplicates() {
            assert forall|i: int, j: int|
                0 <= i < names.len() && 0 <= j < names.len() && i != j implies names[i]
                != names[j] by {
                position_is_listed(order, records.len() as int, i);
                position_is_listed(order, records.len() as int, j);
                let a = choose|k: int| 0 <= k < order.len() && order[k] == i;
                let b = choose|k: int| 0 <= k < order.len() && order[k] == j;
                assert(other_names[a] != other_names[b]);
            }
        }
    }
    if names.no_duplicates() {
        let entries = parts_by_head(records, parts);
        let other_entries = parts_by_head(others, chosen);
        assert(entry_keys(entries) =~= names);
        assert(entry_keys(other_entries) =~= other_names);
        assert forall|i: int| 0 <= i < entries.len() implies other_entries.contains(
            #[trigger] entries[i],
        ) by {
            position_is_listed(order, records.len() as int, i);
            let k = choose|k: int| 0 <= k < order.len() && order[k] == i;
            assert(other_entries[k] == entries[i]);
        }
        assert forall|i: int| 0 <= i < other_entries.len() implies entries.contains(
            #[trigger] other_entries[i],
        ) by {
            assert(entries[order[i]] == other_entries[i]);
        }
        same_entries_same_map(entries, other_entries);
        assert(parts_in_order(others, chosen) =~= parts_in_order(records, parts));
    }
}

/// Sorted records of different heads strictly increase.
proof fn sorted_heads_increase(
    records: Seq<SnapshotRecordView>,
    sorted: Seq<SnapshotRecordView>,
)
    requires
        heads(records).no_duplicates(),
        sorts_records(records, sorted),
    ensures
        increasing::<RecordHead>(heads(sorted)),
        forall|record: SnapshotRecordView| #[trigger]
            sorted.contains(record) <==> records.contains(record),
{
    let names = heads(records);
    let order = choose|order: Seq<int>| #[trigger]
        stably_sorts(head_order(), names, order) && sorted == Seq::new(
            order.len(),
            |i: int| records[order[i]],
        );
    assert forall|i: int, j: int| 0 <= i < j < heads(sorted).len() implies RecordHead::before(
        #[trigger] heads(sorted)[i],
        #[trigger] heads(sorted)[j],
    ) by {
        assert(order[i] != order[j]);
        let a = names[order[i]];
        let b = names[order[j]];
        assert(a != b);
        assert(!head_order()(names[order[j]], names[order[i]]));
        RecordHead::before_total(a, b);
    }
    assert forall|record: SnapshotRecordView| #[trigger]
        sorted.contains(record) <==> records.contains(record) by {
        if sorted.contains(record) {
            let i = choose|i: int| 0 <= i < sorted.len() && sorted[i] == record;
            assert(records[order[i]] == record);
        }
        if records.contains(record) {
            let i = choose|i: int| 0 <= i < records.len() && records[i] == record;
            position_is_listed(order, records.len() as int, i);
            let k = choose|k: int| 0 <= k < order.len() && order[k] == i;
            assert(sorted[k] == record);
        }
    }
}

/// Records that strictly increase are determined by which they are.
proof fn increasing_records_are_unique(a: Seq<SnapshotRecordView>, b: Seq<SnapshotRecordView>)
    requires
        increasing::<RecordHead>(heads(a)),
        increasing::<RecordHead>(heads(b)),
        forall|record: SnapshotRecordView| #[trigger] a.contains(record) <==> b.contains(record),
    ensures
        a == b,
{
    let set = heads(a).to_set();
    assert forall|head: RecordHeadView| heads(a).contains(head) <==> heads(b).contains(head) by {
        if heads(a).contains(head) {
            let i = choose|i: int| 0 <= i < a.len() && heads(a)[i] == head;
            assert(a.contains(a[i]));
            let j = choose|j: int| 0 <= j < b.len() && b[j] == a[i];
            assert(heads(b)[j] == head);
        }
        if heads(b).contains(head) {
            let i = choose|i: int| 0 <= i < b.len() && heads(b)[i] == head;
            assert(b.contains(b[i]));
            assert(a.contains(b[i]));
            let j = choose|j: int| 0 <= j < a.len() && a[j] == b[i];
            assert(heads(a)[j] == head);
        }
    }
    assert(lists::<RecordHead>(heads(a), set));
    assert(lists::<RecordHead>(heads(b), set));
    listing_is_unique::<RecordHead>(heads(a), heads(b), set);
    assert(a.len() == heads(a).len() && b.len() == heads(b).len());
    assert forall|i: int| 0 <= i < a.len() implies a[i] == b[i] by {
        assert(a.contains(a[i]));
        let j = choose|j: int| 0 <= j < b.len() && b[j] == a[i];
        assert(heads(b)[j] == heads(a)[i]);
        assert(heads(b)[i] == heads(a)[i]);
        if i < j {
            assert(RecordHead::before(heads(b)[i], heads(b)[j]));
            RecordHead::before_irreflexive(heads(b)[i]);
        } else if j < i {
            assert(RecordHead::before(heads(b)[j], heads(b)[i]));
            RecordHead::before_irreflexive(heads(b)[i]);
        }
    }
    assert(a =~= b);
}

/// Each part has the value that an encoder gives it.
pub open spec fn encoded_by(
    snapshot: EngineSnapshotView,
    encode: spec_fn(SnapshotPartView) -> Seq<u8>,
) -> Seq<Seq<u8>> {
    Seq::new(snapshot.parts().len(), |i: int| encode(snapshot.parts()[i]))
}

proof fn heads_of_snapshot_differ(snapshot: EngineSnapshotView, values: Seq<Seq<u8>>)
    requires
        snapshot.problem() is None,
        snapshot.recordable(values),
    ensures
        heads(snapshot.records(values)).no_duplicates(),
{
    let parts = snapshot.parts();
    let names = heads(snapshot.records(values));
    assert forall|i: int| 0 <= i < parts.len() implies (#[trigger] parts[i]).key() == Some(
        names[i].key,
    ) && parts[i].kind() == names[i].kind by {
        assert(parts[i].record(values[i]) is Some);
    }
    assert forall|i: int, j: int|
        0 <= i < names.len() && 0 <= j < names.len() && i != j implies names[i] != names[j] by {
        assert(parts[i].key() is Some && parts[j].key() is Some);
        if i < j {
            part_heads_differ(snapshot, i, j);
        } else {
            part_heads_differ(snapshot, j, i);
        }
    }
}

/// The records of a valid snapshot strictly increase by kind and key, so that none
/// occurs twice; one of them holds the metadata, one the catalog, both under the
/// empty key.
pub proof fn records_are_canonical(
    snapshot: EngineSnapshotView,
    values: Seq<Seq<u8>>,
    sorted: Seq<SnapshotRecordView>,
)
    requires
        snapshot.problem() is None,
        snapshot.recordable(values),
        sorts_records(snapshot.records(values), sorted),
    ensures
        increasing::<RecordHead>(heads(sorted)),
        sorted.len() >= 2,
        forall|i: int|
            0 <= i < sorted.len() ==> ((#[trigger] sorted[i]).kind <= 1 ==> sorted[i].key.len()
                == 0),
        exists|i: int| 0 <= i < sorted.len() && (#[trigger] sorted[i]).kind == 0,
        exists|i: int| 0 <= i < sorted.len() && (#[trigger] sorted[i]).kind == 1,
        forall|i: int, j: int|
            0 <= i < sorted.len() && 0 <= j < sorted.len() && (#[trigger] sorted[i]).kind <= 1 && (
            #[trigger] sorted[j]).kind == sorted[i].kind ==> i == j,
{
    let records = snapshot.records(values);
    let parts = snapshot.parts();
    heads_of_snapshot_differ(snapshot, values);
    sorted_heads_increase(records, sorted);
    assert forall|i: int| 0 <= i < records.len() implies (#[trigger] records[i]).kind
        == parts[i].kind() && parts[i].key() == Some(records[i].key) by {
        assert(parts[i].record(values[i]) is Some);
    }
    assert forall|i: int| 0 <= i < sorted.len() && (#[trigger] sorted[i]).kind
        <= 1 implies sorted[i].key.len() == 0 by {
        assert(sorted.contains(sorted[i]));
        let k = choose|k: int| 0 <= k < records.len() && records[k] == sorted[i];
        assert(records[k].kind == parts[k].kind());
    }
    assert(parts[0] is Meta && parts[1] is Catalog);
    assert(records.contains(records[0]));
    assert(records.contains(records[1]));
    assert(sorted.contains(records[0]));
    assert(sorted.contains(records[1]));
    let a = choose|a: int| 0 <= a < sorted.len() && sorted[a] == records[0];
    let b = choose|b: int| 0 <= b < sorted.len() && sorted[b] == records[1];
    assert(sorted[a].kind == 0 && sorted[b].kind == 1);
    assert forall|i: int, j: int|
        0 <= i < sorted.len() && 0 <= j < sorted.len() && (#[trigger] sorted[i]).kind <= 1 && (
        #[trigger] sorted[j]).kind == sorted[i].kind implies i == j by {
        assert(heads(sorted)[i] =~= heads(sorted)[j]);
        RecordHead::before_irreflexive(heads(sorted)[i]);
        if i < j {
            assert(RecordHead::before(heads(sorted)[i], heads(sorted)[j]));
        } else if j < i {
            assert(RecordHead::before(heads(sorted)[j], heads(sorted)[i]));
        }
    }
}

/// A snapshot that was put together from the records of another, in any order, has
/// the same parts.
proof fn parts_are_kept(
    snapshot: EngineSnapshotView,
    values: Seq<Seq<u8>>,
    order: Seq<int>,
    part: SnapshotPartView,
)
    requires
        snapshot.problem() is None,
        snapshot.recordable(values),
        lists_positions(order, snapshot.parts().len() as int),
    ensures
        ({
            let again = collected(records_at(snapshot, values, order), parts_at(snapshot, order));
            again is Ok && again->Ok_0.problem() is None && (again->Ok_0.parts().contains(part)
                <==> snapshot.parts().contains(part))
        }),
{
    let records = records_at(snapshot, values, order);
    let chosen = parts_at(snapshot, order);
    records_round_trip(snapshot, values, order);
    order_keeps_parts(snapshot, values, order);
    let found = parts_in_order(records, chosen);
    let n = found.len() as int;
    let again = assembled(found)->0;
    let parts = snapshot.parts();
    let others = again.parts();
    primary_is_found(found, n);
    secondary_is_found(found, n);
    clients_are_found(found, n);
    let rows = again.primary.len() as int;
    let entries = again.secondary.len() as int;
    metadata_is_kept(snapshot, found);
    if parts.contains(part) {
        let k = choose|k: int| 0 <= k < parts.len() && parts[k] == part;
        assert(found.contains(parts[k]));
        let i = choose|i: int| 0 <= i < n && found[i] == part;
        match part {
            SnapshotPartView::Meta(_) => {
                assert(others[0] == part);
            },
            SnapshotPartView::Catalog(_) => {
                assert(others[1] == part);
            },
            SnapshotPartView::Primary(entry) => {
                assert(again.primary.contains(entry));
                let j = choose|j: int| 0 <= j < rows && again.primary[j] == entry;
                assert(others[2 + j] == part);
            },
            SnapshotPartView::Secondary(entry) => {
                assert(again.secondary.contains(entry));
                let j = choose|j: int| 0 <= j < entries && again.secondary[j] == entry;
                assert(others[2 + rows + j] == part);
            },
            SnapshotPartView::Client(entry) => {
                assert(again.clients.contains(entry));
                let j = choose|j: int| 0 <= j < again.clients.len() && again.clients[j] == entry;
                assert(others[2 + rows + entries + j] == part);
            },
        }
    }
    if others.contains(part) {
        let k = choose|k: int| 0 <= k < others.len() && others[k] == part;
        if k == 0 {
            assert(parts[0] == part);
        } else if k == 1 {
            assert(parts[1] == part);
        } else if k < 2 + rows {
            let entry = again.primary[k - 2];
            assert(again.primary.contains(entry));
            let i = choose|i: int| 0 <= i < n && found[i] == SnapshotPartView::Primary(entry);
            assert(parts.contains(found[i]));
        } else if k < 2 + rows + entries {
            let entry = again.secondary[k - 2 - rows];
            assert(again.secondary.contains(entry));
            let i = choose|i: int| 0 <= i < n && found[i] == SnapshotPartView::Secondary(entry);
            assert(parts.contains(found[i]));
        } else {
            let entry = again.clients[k - 2 - rows - entries];
            assert(again.clients.contains(entry));
            let i = choose|i: int| 0 <= i < n && found[i] == SnapshotPartView::Client(entry);
            assert(parts.contains(found[i]));
        }
    }
}

proof fn metadata_is_kept(snapshot: EngineSnapshotView, found: Seq<SnapshotPartView>)
    requires
        assembled(found) is Some,
        forall|i: int| 0 <= i < found.len() ==> snapshot.parts().contains(#[trigger] found[i]),
        forall|i: int|
            0 <= i < snapshot.parts().len() ==> found.contains(#[trigger] snapshot.parts()[i]),
    ensures
        (assembled(found)->0).meta() == snapshot.meta(),
        (assembled(found)->0).catalog == snapshot.catalog,
{
    let parts = snapshot.parts();
    let n = found.len() as int;
    assert forall|i: int| 0 <= i < n implies (#[trigger] found[i] is Meta ==> found[i]->Meta_0
        == snapshot.meta()) && (found[i] is Catalog ==> found[i]->Catalog_0 == snapshot.catalog) by {
        assert(parts.contains(found[i]));
    }
    assert(parts[0] is Meta);
    assert(parts[1] is Catalog);
    assert(found.contains(parts[0]) && found.contains(parts[1]));
    crate::engine::records::meta_is_found(found, snapshot.meta(), n);
    crate::engine::records::catalog_is_found(found, snapshot.catalog, n);
}

/// The records of a snapshot that was put together from the records of another, in
/// any order, are those records again.
pub proof fn records_come_out_the_same(
    snapshot: EngineSnapshotView,
    encode: spec_fn(SnapshotPartView) -> Seq<u8>,
    order: Seq<int>,
    first: Seq<SnapshotRecordView>,
    second: Seq<SnapshotRecordView>,
)
    requires
        snapshot.problem() is None,
        snapshot.recordable(encoded_by(snapshot, encode)),
        lists_positions(order, snapshot.parts().len() as int),
        sorts_records(snapshot.records(encoded_by(snapshot, encode)), first),
        ({
            let again = collected(
                records_at(snapshot, encoded_by(snapshot, encode), order),
                parts_at(snapshot, order),
            )->Ok_0;
            sorts_records(again.records(encoded_by(again, encode)), second)
        }),
    ensures
        collected(
            records_at(snapshot, encoded_by(snapshot, encode), order),
            parts_at(snapshot, order),
        ) is Ok,
        second == first,
{
    let values = encoded_by(snapshot, encode);
    let again = collected(records_at(snapshot, values, order), parts_at(snapshot, order))->Ok_0;
    let others = encoded_by(again, encode);
    parts_are_kept(snapshot, values, order, snapshot.parts()[0]);
    assert forall|i: int| 0 <= i < again.parts().len() implies (
    #[trigger] again.parts()[i]).record(others[i]) is Some && snapshot.records(values).contains(
        again.records(others)[i],
    ) by {
        let part = again.parts()[i];
        assert(again.parts().contains(part));
        parts_are_kept(snapshot, values, order, part);
        let k = choose|k: int| 0 <= k < snapshot.parts().len() && snapshot.parts()[k] == part;
        assert(snapshot.parts()[k].record(values[k]) is Some);
        assert(snapshot.records(values)[k] == again.records(others)[i]);
    }
    assert forall|i: int| 0 <= i < snapshot.parts().len() implies again.records(others).contains(
        #[trigger] snapshot.records(values)[i],
    ) by {
        let part = snapshot.parts()[i];
        assert(snapshot.parts().contains(part));
        parts_are_kept(snapshot, values, order, part);
        let k = choose|k: int| 0 <= k < again.parts().len() && again.parts()[k] == part;
        assert(again.records(others)[k] == snapshot.records(values)[i]);
    }
    assert(again.recordable(others));
    heads_of_snapshot_differ(snapshot, values);
    heads_of_snapshot_differ(again, others);
    sorted_heads_increase(snapshot.records(values), first);
    sorted_heads_increase(again.records(others), second);
    assert forall|record: SnapshotRecordView| #[trigger]
        first.contains(record) <==> second.contains(record) by {
        if snapshot.records(values).contains(record) {
            let i = choose|i: int|
                0 <= i < snapshot.records(values).len() && snapshot.records(values)[i] == record;
            assert(again.records(others).contains(snapshot.records(values)[i]));
        }
        if again.records(others).contains(record) {
            let i = choose|i: int|
                0 <= i < again.records(others).len() && again.records(others)[i] == record;
            assert(again.parts()[i].record(others[i]) is Some);
        }
    }
    increasing_records_are_unique(first, second);
}

} // verus!
