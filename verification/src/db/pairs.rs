//! A join answers the pairs of rows that match, and no others.

use vstd::prelude::*;
use crate::codec::encodable;
use crate::db::error::DatabaseErrorKind;
use crate::db::executor::plan_rows;
use crate::db::join::{
    MAX_INTERMEDIATE_ROWS, all_positions, combined, hash_joined, inner_keys, join_key, join_keys,
    loop_joined, probed, uses_keys,
};
use crate::db::rows::positions_with;
use crate::db::scalar::{ExecRowView, Meaning, evaluated, predicate_holds};
use crate::db::sql::{BinaryOp, BoundExprView, PhysicalPlanView};
use crate::engine::state::EngineView;
use crate::engine::transaction::TransactionView;
use crate::types::{RowView, TableId, ValueView};

verus! {

/// An outer row followed by an inner one.
pub open spec fn pair_row(outer: ExecRowView, inner: ExecRowView) -> ExecRowView {
    ExecRowView {
        row: RowView { values: outer.row.values + inner.row.values },
        aggregates: outer.aggregates + inner.aggregates,
    }
}

/// A predicate holds on the outer row at a position with the inner row at another.
pub open spec fn pair_matches(
    meaning: Meaning,
    outers: Seq<ExecRowView>,
    inners: Seq<ExecRowView>,
    on: BoundExprView,
    parameters: Seq<ValueView>,
    i: int,
    j: int,
) -> bool {
    &&& 0 <= i < outers.len()
    &&& 0 <= j < inners.len()
    &&& predicate_holds(meaning, on, pair_row(outers[i], inners[j]), parameters) == Ok::<
        bool,
        DatabaseErrorKind,
    >(true)
}

/// One pair of positions comes before another: by the outer row, then by the inner one.
pub open spec fn pair_before(a: (int, int), b: (int, int)) -> bool {
    a.0 < b.0 || a.0 == b.0 && a.1 < b.1
}

/// `pairs` lists the positions of every two rows on which a predicate holds, each once, by
/// the outer row and then by the inner one.
pub open spec fn lists_matches(
    meaning: Meaning,
    outers: Seq<ExecRowView>,
    inners: Seq<ExecRowView>,
    on: BoundExprView,
    parameters: Seq<ValueView>,
    pairs: Seq<(int, int)>,
) -> bool {
    &&& forall|k: int, m: int|
        0 <= k < m < pairs.len() ==> pair_before(#[trigger] pairs[k], #[trigger] pairs[m])
    &&& forall|i: int, j: int| #[trigger]
        pairs.contains((i, j)) <==> pair_matches(
            meaning,
            outers,
            inners,
            on,
            parameters,
            i,
            j,
        )
}

/// The rows of pairs.
pub open spec fn rows_of_pairs(
    outers: Seq<ExecRowView>,
    inners: Seq<ExecRowView>,
    pairs: Seq<(int, int)>,
) -> Seq<ExecRowView> {
    Seq::new(pairs.len(), |k: int| pair_row(outers[pairs[k].0], inners[pairs[k].1]))
}

/// The tables that a plan reads.
pub open spec fn tables_read(plan: PhysicalPlanView) -> Set<TableId>
    decreases plan,
{
    match plan {
        PhysicalPlanView::SeqScan { table } => set![table.id],
        PhysicalPlanView::IndexScan { table, .. } => set![table.id],
        PhysicalPlanView::Filter { input, .. } => tables_read(*input),
        PhysicalPlanView::HashAggregate { input, .. } => tables_read(*input),
        PhysicalPlanView::Sort { input, .. } => tables_read(*input),
        PhysicalPlanView::Limit { input, .. } => tables_read(*input),
        PhysicalPlanView::Project { input, .. } => tables_read(*input),
        PhysicalPlanView::Join { left, right, .. } => tables_read(*left).union(
            tables_read(*right),
        ),
    }
}

proof fn reading_is_membership(plan: PhysicalPlanView, table_id: TableId)
    ensures
        plan.reads(table_id) == tables_read(plan).contains(table_id),
    decreases plan,
{
    match plan {
        PhysicalPlanView::Filter { input, .. } => reading_is_membership(*input, table_id),
        PhysicalPlanView::HashAggregate { input, .. } => reading_is_membership(*input, table_id),
        PhysicalPlanView::Sort { input, .. } => reading_is_membership(*input, table_id),
        PhysicalPlanView::Limit { input, .. } => reading_is_membership(*input, table_id),
        PhysicalPlanView::Project { input, .. } => reading_is_membership(*input, table_id),
        PhysicalPlanView::Join { left, right, .. } => {
            reading_is_membership(*left, table_id);
            reading_is_membership(*right, table_id);
        },
        _ => {},
    }
}

/// A value is the one in a column of a row, and not `NULL`.
pub open spec fn is_in_column(
    value: std::result::Result<ValueView, DatabaseErrorKind>,
    row: ExecRowView,
    column: usize,
) -> bool {
    &&& column < row.row.values.len()
    &&& row.row.values[column as int] !is Null
    &&& value == Ok::<ValueView, DatabaseErrorKind>(row.row.values[column as int])
}

/// The equality of a column of the outer rows with a column of the inner rows holds only
/// where the two are the same value, and not `NULL`. The inner side of the equality is the
/// one whose table the inner plan reads.
pub open spec fn equality_means_equal(
    meaning: Meaning,
    inner: PhysicalPlanView,
    outers: Seq<ExecRowView>,
    inners: Seq<ExecRowView>,
    on: BoundExprView,
    parameters: Seq<ValueView>,
) -> bool {
    match on {
        BoundExprView::Binary { left, op: BinaryOp::Eq, right, .. } => match (*left, *right) {
            (
                BoundExprView::Column { table_id: a, column_index: x, .. },
                BoundExprView::Column { table_id: b, column_index: y, .. },
            ) => forall|i: int, j: int| #[trigger]
                pair_matches(meaning, outers, inners, on, parameters, i, j) ==> {
                    let inside = tables_read(inner);
                    &&& inside.contains(b) && !inside.contains(a) ==> is_in_column(
                        evaluated(meaning, *left, outers[i], parameters),
                        inners[j],
                        y,
                    )
                    &&& inside.contains(a) && !inside.contains(b) ==> is_in_column(
                        evaluated(meaning, *right, outers[i], parameters),
                        inners[j],
                        x,
                    )
                },
            _ => true,
        },
        _ => true,
    }
}

/// The pairs of one outer row with the inner rows at the first `n` of some positions that
/// match.
spec fn pairs_of_row(
    meaning: Meaning,
    outers: Seq<ExecRowView>,
    inners: Seq<ExecRowView>,
    on: BoundExprView,
    parameters: Seq<ValueView>,
    i: int,
    picked: Seq<usize>,
    n: int,
) -> Seq<(int, int)>
    decreases n,
{
    if n <= 0 {
        Seq::empty()
    } else {
        let before = pairs_of_row(meaning, outers, inners, on, parameters, i, picked, n - 1);
        if pair_matches(meaning, outers, inners, on, parameters, i, picked[n - 1] as int) {
            before.push((i, picked[n - 1] as int))
        } else {
            before
        }
    }
}

/// The pairs of the first `n` outer rows with the inner rows that each is tried with.
spec fn pairs_found(
    meaning: Meaning,
    outers: Seq<ExecRowView>,
    inners: Seq<ExecRowView>,
    on: BoundExprView,
    parameters: Seq<ValueView>,
    tried: spec_fn(int) -> Seq<usize>,
    n: int,
) -> Seq<(int, int)>
    decreases n,
{
    if n <= 0 {
        Seq::empty()
    } else {
        pairs_found(meaning, outers, inners, on, parameters, tried, n - 1) + pairs_of_row(
            meaning,
            outers,
            inners,
            on,
            parameters,
            n - 1,
            tried(n - 1),
            tried(n - 1).len() as int,
        )
    }
}

/// Positions are of rows, and go up.
pub(crate) open spec fn positions_rise(picked: Seq<usize>, rows: nat) -> bool {
    &&& forall|k: int| 0 <= k < picked.len() ==> #[trigger] picked[k] < rows
    &&& forall|k: int, m: int|
        0 <= k < m < picked.len() ==> #[trigger] picked[k] < #[trigger] picked[m]
}

proof fn row_pairs_are_matches(
    meaning: Meaning,
    outers: Seq<ExecRowView>,
    inners: Seq<ExecRowView>,
    on: BoundExprView,
    parameters: Seq<ValueView>,
    i: int,
    picked: Seq<usize>,
    n: int,
)
    requires
        0 <= n <= picked.len(),
        positions_rise(picked, inners.len()),
    ensures
        ({
            let pairs = pairs_of_row(meaning, outers, inners, on, parameters, i, picked, n);
            &&& forall|k: int|
                0 <= k < pairs.len() ==> (#[trigger] pairs[k]).0 == i && pair_matches(
                    meaning,
                    outers,
                    inners,
                    on,
                    parameters,
                    i,
                    pairs[k].1,
                ) && exists|m: int| 0 <= m < n && #[trigger] picked[m] == pairs[k].1
            &&& forall|k: int, m: int|
                0 <= k < m < pairs.len() ==> (#[trigger] pairs[k]).1 < (#[trigger] pairs[m]).1
            &&& forall|m: int|
                0 <= m < n && pair_matches(
                    meaning,
                    outers,
                    inners,
                    on,
                    parameters,
                    i,
                    (#[trigger] picked[m]) as int,
                ) ==> pairs.contains((i, picked[m] as int))
        }),
    decreases n,
{
    if n > 0 {
        row_pairs_are_matches(meaning, outers, inners, on, parameters, i, picked, n - 1);
        let before = pairs_of_row(meaning, outers, inners, on, parameters, i, picked, n - 1);
        let pairs = pairs_of_row(meaning, outers, inners, on, parameters, i, picked, n);
        assert forall|m: int|
            0 <= m < n && pair_matches(
                meaning,
                outers,
                inners,
                on,
                parameters,
                i,
                (#[trigger] picked[m]) as int,
            ) implies pairs.contains((i, picked[m] as int)) by {
            if m < n - 1 {
                assert(before.contains((i, picked[m] as int)));
                let k = before.index_of((i, picked[m] as int));
                assert(pairs[k] == (i, picked[m] as int));
            } else {
                assert(pairs[before.len() as int] == (i, picked[m] as int));
            }
        }
        if pairs.len() > before.len() {
            assert(picked[n - 1] == pairs[before.len() as int].1);
        }
    }
}

proof fn found_pairs_are_matches(
    meaning: Meaning,
    outers: Seq<ExecRowView>,
    inners: Seq<ExecRowView>,
    on: BoundExprView,
    parameters: Seq<ValueView>,
    tried: spec_fn(int) -> Seq<usize>,
    n: int,
)
    requires
        0 <= n <= outers.len(),
        forall|i: int| 0 <= i < outers.len() ==> positions_rise(#[trigger] tried(i), inners.len()),
    ensures
        ({
            let pairs = pairs_found(meaning, outers, inners, on, parameters, tried, n);
            &&& forall|k: int|
                0 <= k < pairs.len() ==> 0 <= (#[trigger] pairs[k]).0 < n && pair_matches(
                    meaning,
                    outers,
                    inners,
                    on,
                    parameters,
                    pairs[k].0,
                    pairs[k].1,
                )
            &&& forall|k: int, m: int|
                0 <= k < m < pairs.len() ==> pair_before(#[trigger] pairs[k], #[trigger] pairs[m])
            &&& forall|i: int, m: int|
                0 <= i < n && 0 <= m < tried(i).len() && pair_matches(
                    meaning,
                    outers,
                    inners,
                    on,
                    parameters,
                    i,
                    (#[trigger] tried(i)[m]) as int,
                ) ==> pairs.contains((i, tried(i)[m] as int))
        }),
    decreases n,
{
    if n > 0 {
        found_pairs_are_matches(meaning, outers, inners, on, parameters, tried, n - 1);
        assert(positions_rise(tried(n - 1), inners.len()));
        let picked = tried(n - 1);
        row_pairs_are_matches(
            meaning,
            outers,
            inners,
            on,
            parameters,
            n - 1,
            picked,
            picked.len() as int,
        );
        let before = pairs_found(meaning, outers, inners, on, parameters, tried, n - 1);
        let last = pairs_of_row(
            meaning,
            outers,
            inners,
            on,
            parameters,
            n - 1,
            picked,
            picked.len() as int,
        );
        let pairs = before + last;
        assert forall|k: int, m: int| 0 <= k < m < pairs.len() implies pair_before(
            #[trigger] pairs[k],
            #[trigger] pairs[m],
        ) by {
            if k < before.len() && m >= before.len() {
                assert(before[k].0 < n - 1);
                assert(last[m - before.len()].0 == n - 1);
            } else if k >= before.len() {
                assert(last[k - before.len()].1 < last[m - before.len()].1);
            }
        }
        assert forall|i: int, m: int|
            0 <= i < n && 0 <= m < tried(i).len() && pair_matches(
                meaning,
                outers,
                inners,
                on,
                parameters,
                i,
                (#[trigger] tried(i)[m]) as int,
            ) implies pairs.contains((i, tried(i)[m] as int)) by {
            let pair = (i, tried(i)[m] as int);
            if i < n - 1 {
                assert(before.contains(pair));
                let k = before.index_of(pair);
                assert(pairs[k] == pair);
            } else {
                assert(picked[m] == tried(i)[m]);
                assert(last.contains(pair));
                let k = last.index_of(pair);
                assert(pairs[before.len() + k] == pair);
            }
        }
    }
}

/// Trying an outer row adds the rows of its pairs.
proof fn probing_adds_pairs(
    meaning: Meaning,
    outers: Seq<ExecRowView>,
    inners: Seq<ExecRowView>,
    on: BoundExprView,
    parameters: Seq<ValueView>,
    before: Seq<(int, int)>,
    i: int,
    picked: Seq<usize>,
    n: int,
)
    requires
        0 <= i < outers.len(),
        0 <= n <= picked.len(),
        positions_rise(picked, inners.len()),
        probed(
            meaning,
            Ok(rows_of_pairs(outers, inners, before)),
            outers[i],
            inners,
            picked,
            on,
            parameters,
            n,
        ) is Ok,
    ensures
        probed(
            meaning,
            Ok(rows_of_pairs(outers, inners, before)),
            outers[i],
            inners,
            picked,
            on,
            parameters,
            n,
        )->Ok_0 == rows_of_pairs(
            outers,
            inners,
            before + pairs_of_row(meaning, outers, inners, on, parameters, i, picked, n),
        ),
    decreases n,
{
    let start: std::result::Result<Seq<ExecRowView>, DatabaseErrorKind> = Ok(
        rows_of_pairs(outers, inners, before),
    );
    let pairs = pairs_of_row(meaning, outers, inners, on, parameters, i, picked, n);
    if n <= 0 {
        assert(before + pairs =~= before);
    } else {
        probing_adds_pairs(meaning, outers, inners, on, parameters, before, i, picked, n - 1);
        let fewer = pairs_of_row(meaning, outers, inners, on, parameters, i, picked, n - 1);
        let done = probed(meaning, start, outers[i], inners, picked, on, parameters, n - 1);
        let j = picked[n - 1] as int;
        assert(picked[n - 1] < inners.len());
        assert(combined(outers[i], inners[j]) == pair_row(outers[i], inners[j]));
        if pair_matches(meaning, outers, inners, on, parameters, i, j) {
            assert(before + pairs =~= (before + fewer).push((i, j)));
            assert(rows_of_pairs(outers, inners, before + pairs) =~= rows_of_pairs(
                outers,
                inners,
                before + fewer,
            ).push(pair_row(outers[i], inners[j])));
        } else {
            assert(pairs == fewer);
        }
    }
}

/// Trying an outer row succeeds where every test does and the rows are not too many.
proof fn probing_succeeds(
    meaning: Meaning,
    outers: Seq<ExecRowView>,
    inners: Seq<ExecRowView>,
    on: BoundExprView,
    parameters: Seq<ValueView>,
    before: Seq<(int, int)>,
    i: int,
    picked: Seq<usize>,
    n: int,
)
    requires
        0 <= i < outers.len(),
        0 <= n <= picked.len(),
        positions_rise(picked, inners.len()),
        forall|j: int|
            0 <= j < inners.len() ==> predicate_holds(
                meaning,
                on,
                pair_row(outers[i], #[trigger] inners[j]),
                parameters,
            ) is Ok,
        before.len() + pairs_of_row(meaning, outers, inners, on, parameters, i, picked, n).len()
            <= MAX_INTERMEDIATE_ROWS,
    ensures
        probed(
            meaning,
            Ok(rows_of_pairs(outers, inners, before)),
            outers[i],
            inners,
            picked,
            on,
            parameters,
            n,
        ) is Ok,
    decreases n,
{
    if n > 0 {
        probing_succeeds(meaning, outers, inners, on, parameters, before, i, picked, n - 1);
        probing_adds_pairs(meaning, outers, inners, on, parameters, before, i, picked, n - 1);
        let j = picked[n - 1] as int;
        assert(picked[n - 1] < inners.len());
        assert(predicate_holds(meaning, on, pair_row(outers[i], inners[j]), parameters) is Ok);
        assert(combined(outers[i], inners[j]) == pair_row(outers[i], inners[j]));
    }
}

/// Every inner row.
spec fn every_inner(inners: Seq<ExecRowView>) -> spec_fn(int) -> Seq<usize> {
    |i: int| all_positions(inners.len())
}

proof fn looping_finds_pairs(
    meaning: Meaning,
    outers: Seq<ExecRowView>,
    inners: Seq<ExecRowView>,
    on: BoundExprView,
    parameters: Seq<ValueView>,
    n: int,
)
    requires
        0 <= n <= outers.len(),
        inners.len() <= MAX_INTERMEDIATE_ROWS,
        loop_joined(meaning, outers, inners, on, parameters, n) is Ok,
    ensures
        loop_joined(meaning, outers, inners, on, parameters, n)->Ok_0 == rows_of_pairs(
            outers,
            inners,
            pairs_found(meaning, outers, inners, on, parameters, every_inner(inners), n),
        ),
    decreases n,
{
    let tried = every_inner(inners);
    if n <= 0 {
        assert(rows_of_pairs(
            outers,
            inners,
            pairs_found(meaning, outers, inners, on, parameters, tried, n),
        ) =~= Seq::empty());
    } else {
        let picked = all_positions(inners.len());
        let before = loop_joined(meaning, outers, inners, on, parameters, n - 1);
        if before is Err {
            failed_probe_stays_failed(
                meaning,
                before,
                outers[n - 1],
                inners,
                picked,
                on,
                parameters,
                inners.len() as int,
            );
        }
        looping_finds_pairs(meaning, outers, inners, on, parameters, n - 1);
        probing_adds_pairs(
            meaning,
            outers,
            inners,
            on,
            parameters,
            pairs_found(meaning, outers, inners, on, parameters, tried, n - 1),
            n - 1,
            picked,
            picked.len() as int,
        );
    }
}

proof fn failed_probe_stays_failed(
    meaning: Meaning,
    done: std::result::Result<Seq<ExecRowView>, DatabaseErrorKind>,
    outer: ExecRowView,
    inners: Seq<ExecRowView>,
    picked: Seq<usize>,
    on: BoundExprView,
    parameters: Seq<ValueView>,
    n: int,
)
    requires
        done is Err,
    ensures
        probed(meaning, done, outer, inners, picked, on, parameters, n) is Err,
    decreases n,
{
    if n > 0 {
        failed_probe_stays_failed(meaning, done, outer, inners, picked, on, parameters, n - 1);
    }
}

/// The pairs of fewer outer rows are not more.
proof fn pairs_grow(
    meaning: Meaning,
    outers: Seq<ExecRowView>,
    inners: Seq<ExecRowView>,
    on: BoundExprView,
    parameters: Seq<ValueView>,
    tried: spec_fn(int) -> Seq<usize>,
    m: int,
    n: int,
)
    requires
        m <= n,
    ensures
        pairs_found(meaning, outers, inners, on, parameters, tried, m).len() <= pairs_found(
            meaning,
            outers,
            inners,
            on,
            parameters,
            tried,
            n,
        ).len(),
    decreases n - m,
{
    if m < n {
        pairs_grow(meaning, outers, inners, on, parameters, tried, m, n - 1);
    }
}

proof fn looping_succeeds(
    meaning: Meaning,
    outers: Seq<ExecRowView>,
    inners: Seq<ExecRowView>,
    on: BoundExprView,
    parameters: Seq<ValueView>,
    n: int,
)
    requires
        0 <= n <= outers.len(),
        inners.len() <= MAX_INTERMEDIATE_ROWS,
        tests_succeed(meaning, outers, inners, on, parameters),
        pairs_found(
            meaning,
            outers,
            inners,
            on,
            parameters,
            every_inner(inners),
            outers.len() as int,
        ).len() <= MAX_INTERMEDIATE_ROWS,
    ensures
        loop_joined(meaning, outers, inners, on, parameters, n) is Ok,
    decreases n,
{
    if n > 0 {
        let tried = every_inner(inners);
        looping_succeeds(meaning, outers, inners, on, parameters, n - 1);
        looping_finds_pairs(meaning, outers, inners, on, parameters, n - 1);
        pairs_grow(meaning, outers, inners, on, parameters, tried, n, outers.len() as int);
        assert forall|j: int| 0 <= j < inners.len() implies predicate_holds(
            meaning,
            on,
            pair_row(outers[n - 1], #[trigger] inners[j]),
            parameters,
        ) is Ok by {}
        probing_succeeds(
            meaning,
            outers,
            inners,
            on,
            parameters,
            pairs_found(meaning, outers, inners, on, parameters, tried, n - 1),
            n - 1,
            all_positions(inners.len()),
            inners.len() as int,
        );
    }
}

/// A predicate can be tested on every outer row with every inner row.
pub open spec fn tests_succeed(
    meaning: Meaning,
    outers: Seq<ExecRowView>,
    inners: Seq<ExecRowView>,
    on: BoundExprView,
    parameters: Seq<ValueView>,
) -> bool {
    forall|i: int, j: int|
        0 <= i < outers.len() && 0 <= j < inners.len() ==> predicate_holds(
            meaning,
            on,
            pair_row(#[trigger] outers[i], #[trigger] inners[j]),
            parameters,
        ) is Ok
}

/// The inner rows whose key is that of the outer row.
spec fn same_key(
    meaning: Meaning,
    outers: Seq<ExecRowView>,
    outer_key: BoundExprView,
    keys: Seq<Option<Seq<u8>>>,
    parameters: Seq<ValueView>,
) -> spec_fn(int) -> Seq<usize> {
    |i: int|
        match evaluated(meaning, outer_key, outers[i], parameters) {
            Ok(value) => match join_key(value) {
                Ok(Some(key)) => positions_with(keys, key, keys.len() as int),
                _ => Seq::empty(),
            },
            Err(_) => Seq::empty(),
        }
}

pub(crate) proof fn positions_with_rise(keys: Seq<Option<Seq<u8>>>, key: Seq<u8>, n: int)
    requires
        0 <= n <= keys.len(),
        n <= MAX_INTERMEDIATE_ROWS,
    ensures
        positions_rise(positions_with(keys, key, n), n as nat),
        forall|j: int|
            0 <= j < n && #[trigger] keys[j] == Some(key) ==> positions_with(
                keys,
                key,
                n,
            ).contains(j as usize),
        ({
            let picked = positions_with(keys, key, n);
            forall|k: int|
                0 <= k < picked.len() ==> keys[(#[trigger] picked[k]) as int] == Some(key)
        }),
    decreases n,
{
    if n > 0 {
        positions_with_rise(keys, key, n - 1);
        let before = positions_with(keys, key, n - 1);
        let now = positions_with(keys, key, n);
        assert forall|j: int| 0 <= j < n && #[trigger] keys[j] == Some(key) implies now.contains(
            j as usize,
        ) by {
            if j < n - 1 {
                assert(before.contains(j as usize));
                let k = before.index_of(j as usize);
                assert(now[k] == j as usize);
            } else {
                assert(now[before.len() as int] == j as usize);
            }
        }
    }
}

proof fn hashing_finds_pairs(
    meaning: Meaning,
    outers: Seq<ExecRowView>,
    outer_key: BoundExprView,
    inners: Seq<ExecRowView>,
    keys: Seq<Option<Seq<u8>>>,
    on: BoundExprView,
    parameters: Seq<ValueView>,
    n: int,
)
    requires
        0 <= n <= outers.len(),
        keys.len() == inners.len() <= MAX_INTERMEDIATE_ROWS,
        hash_joined(meaning, outers, outer_key, inners, keys, on, parameters, n) is Ok,
    ensures
        hash_joined(meaning, outers, outer_key, inners, keys, on, parameters, n)->Ok_0
            == rows_of_pairs(
            outers,
            inners,
            pairs_found(
                meaning,
                outers,
                inners,
                on,
                parameters,
                same_key(meaning, outers, outer_key, keys, parameters),
                n,
            ),
        ),
    decreases n,
{
    let tried = same_key(meaning, outers, outer_key, keys, parameters);
    if n <= 0 {
        assert(rows_of_pairs(
            outers,
            inners,
            pairs_found(meaning, outers, inners, on, parameters, tried, n),
        ) =~= Seq::empty());
    } else {
        hashing_finds_pairs(meaning, outers, outer_key, inners, keys, on, parameters, n - 1);
        let before = pairs_found(meaning, outers, inners, on, parameters, tried, n - 1);
        let picked = tried(n - 1);
        let value = evaluated(meaning, outer_key, outers[n - 1], parameters)->Ok_0;
        match join_key(value) {
            Ok(Some(key)) => {
                positions_with_rise(keys, key, keys.len() as int);
                probing_adds_pairs(
                    meaning,
                    outers,
                    inners,
                    on,
                    parameters,
                    before,
                    n - 1,
                    picked,
                    picked.len() as int,
                );
            },
            _ => {
                assert(before + pairs_of_row(
                    meaning,
                    outers,
                    inners,
                    on,
                    parameters,
                    n - 1,
                    picked,
                    0,
                ) =~= before);
            },
        }
    }
}

proof fn hashing_succeeds(
    meaning: Meaning,
    outers: Seq<ExecRowView>,
    outer_key: BoundExprView,
    inners: Seq<ExecRowView>,
    keys: Seq<Option<Seq<u8>>>,
    on: BoundExprView,
    parameters: Seq<ValueView>,
    n: int,
)
    requires
        0 <= n <= outers.len(),
        keys.len() == inners.len() <= MAX_INTERMEDIATE_ROWS,
        tests_succeed(meaning, outers, inners, on, parameters),
        forall|i: int|
            0 <= i < outers.len() ==> (evaluated(
                meaning,
                outer_key,
                #[trigger] outers[i],
                parameters,
            ) matches Ok(value) && (value is Null || encodable(value))),
        pairs_found(
            meaning,
            outers,
            inners,
            on,
            parameters,
            same_key(meaning, outers, outer_key, keys, parameters),
            outers.len() as int,
        ).len() <= MAX_INTERMEDIATE_ROWS,
    ensures
        hash_joined(meaning, outers, outer_key, inners, keys, on, parameters, n) is Ok,
    decreases n,
{
    if n > 0 {
        let tried = same_key(meaning, outers, outer_key, keys, parameters);
        hashing_succeeds(meaning, outers, outer_key, inners, keys, on, parameters, n - 1);
        hashing_finds_pairs(meaning, outers, outer_key, inners, keys, on, parameters, n - 1);
        pairs_grow(meaning, outers, inners, on, parameters, tried, n, outers.len() as int);
        assert(evaluated(meaning, outer_key, outers[n - 1], parameters) is Ok);
        let value = evaluated(meaning, outer_key, outers[n - 1], parameters)->Ok_0;
        if let Ok(Some(key)) = join_key(value) {
            positions_with_rise(keys, key, keys.len() as int);
            let picked = tried(n - 1);
            assert forall|j: int| 0 <= j < inners.len() implies predicate_holds(
                meaning,
                on,
                pair_row(outers[n - 1], #[trigger] inners[j]),
                parameters,
            ) is Ok by {}
            probing_succeeds(
                meaning,
                outers,
                inners,
                on,
                parameters,
                pairs_found(meaning, outers, inners, on, parameters, tried, n - 1),
                n - 1,
                picked,
                picked.len() as int,
            );
        }
    }
}

/// A key is that of the row at its position.
spec fn key_is_of_column(
    rows: Seq<ExecRowView>,
    column: usize,
    keys: Seq<Option<Seq<u8>>>,
    j: int,
) -> bool {
    &&& column < rows[j].row.values.len()
    &&& join_key(rows[j].row.values[column as int]) == Ok::<
        Option<Seq<u8>>,
        DatabaseErrorKind,
    >(keys[j])
}

proof fn inner_keys_are_of_rows(rows: Seq<ExecRowView>, column: usize, n: int)
    requires
        0 <= n <= rows.len(),
        inner_keys(rows, column, n) is Ok,
    ensures
        inner_keys(rows, column, n)->Ok_0.len() == n,
        forall|j: int|
            0 <= j < n ==> #[trigger] key_is_of_column(
                rows,
                column,
                inner_keys(rows, column, n)->Ok_0,
                j,
            ),
    decreases n,
{
    if n > 0 {
        inner_keys_are_of_rows(rows, column, n - 1);
        let before = inner_keys(rows, column, n - 1)->Ok_0;
        let keys = inner_keys(rows, column, n)->Ok_0;
        assert forall|j: int| 0 <= j < n implies #[trigger] key_is_of_column(
            rows,
            column,
            keys,
            j,
        ) by {
            if j < n - 1 {
                assert(key_is_of_column(rows, column, before, j));
                assert(keys[j] == before[j]);
            }
        }
    }
}

proof fn inner_keys_succeed(rows: Seq<ExecRowView>, column: usize, n: int)
    requires
        0 <= n <= rows.len(),
        forall|j: int|
            0 <= j < rows.len() ==> column < (#[trigger] rows[j]).row.values.len() && (
            rows[j].row.values[column as int] is Null || encodable(
                rows[j].row.values[column as int],
            )),
    ensures
        inner_keys(rows, column, n) is Ok,
    decreases n,
{
    if n > 0 {
        inner_keys_succeed(rows, column, n - 1);
        assert(column < rows[n - 1].row.values.len());
    }
}

/// A join answers the rows of exactly the pairs that match, each once, by the outer row and
/// then by the inner one, whichever algorithm it uses. Of an algorithm that compares keys
/// this holds where equal columns are equal values.
pub proof fn joins_answer_the_matching_pairs(
    engine: EngineView,
    transaction: TransactionView,
    meaning: Meaning,
    plan: PhysicalPlanView,
    parameters: Seq<ValueView>,
    outers: Seq<ExecRowView>,
    inners: Seq<ExecRowView>,
    rows: Seq<ExecRowView>,
)
    requires
        plan matches PhysicalPlanView::Join { left, right, on, algorithm } && plan_rows(
            engine,
            transaction,
            meaning,
            *left,
            parameters,
        ) == Ok::<Seq<ExecRowView>, DatabaseErrorKind>(outers) && plan_rows(
            engine,
            transaction,
            meaning,
            *right,
            parameters,
        ) == Ok::<Seq<ExecRowView>, DatabaseErrorKind>(inners) && (algorithm !is NestedLoop
            ==> equality_means_equal(meaning, *right, outers, inners, on, parameters)),
        plan_rows(engine, transaction, meaning, plan, parameters) == Ok::<
            Seq<ExecRowView>,
            DatabaseErrorKind,
        >(rows),
    ensures
        exists|pairs: Seq<(int, int)>| #[trigger]
            lists_matches(meaning, outers, inners, plan->on, parameters, pairs) && rows.len()
                == pairs.len() && forall|k: int|
                0 <= k < pairs.len() ==> #[trigger] rows[k] == pair_row(
                    outers[pairs[k].0],
                    inners[pairs[k].1],
                ),
{
    let on = plan->on;
    let right = *plan->right;
    let keyed = join_keys(on, right) is Some && uses_keys(plan->Join_algorithm);
    let tried = if keyed {
        let (outer_key, column) = join_keys(on, right)->0;
        same_key(
            meaning,
            outers,
            outer_key,
            inner_keys(inners, column, inners.len() as int)->Ok_0,
            parameters,
        )
    } else {
        every_inner(inners)
    };
    let pairs = pairs_found(
        meaning,
        outers,
        inners,
        on,
        parameters,
        tried,
        outers.len() as int,
    );
    if keyed {
        let (outer_key, column) = join_keys(on, right)->0;
        let keys = inner_keys(inners, column, inners.len() as int)->Ok_0;
        inner_keys_are_of_rows(inners, column, inners.len() as int);
        hashing_finds_pairs(
            meaning,
            outers,
            outer_key,
            inners,
            keys,
            on,
            parameters,
            outers.len() as int,
        );
        assert forall|i: int| 0 <= i < outers.len() implies positions_rise(
            #[trigger] tried(i),
            inners.len(),
        ) by {
            if let Ok(value) = evaluated(meaning, outer_key, outers[i], parameters) {
                if let Ok(Some(key)) = join_key(value) {
                    positions_with_rise(keys, key, keys.len() as int);
                }
            }
        }
    } else {
        looping_finds_pairs(meaning, outers, inners, on, parameters, outers.len() as int);
    }
    found_pairs_are_matches(
        meaning,
        outers,
        inners,
        on,
        parameters,
        tried,
        outers.len() as int,
    );
    assert forall|i: int, j: int| #[trigger] pairs.contains((i, j)) <==> pair_matches(
        meaning,
        outers,
        inners,
        on,
        parameters,
        i,
        j,
    ) by {
        if pairs.contains((i, j)) {
            let k = pairs.index_of((i, j));
            assert(pairs[k] == (i, j));
        }
        if pair_matches(meaning, outers, inners, on, parameters, i, j) {
            if keyed {
                match_is_tried(meaning, right, outers, inners, on, parameters, i, j);
                let m = tried(i).index_of(j as usize);
                assert(tried(i)[m] == j as usize);
            } else {
                assert(tried(i)[j] == j as usize);
            }
        }
    }
    assert(lists_matches(meaning, outers, inners, on, parameters, pairs));
}

/// A pair that matches is tried where keys are compared.
proof fn match_is_tried(
    meaning: Meaning,
    right: PhysicalPlanView,
    outers: Seq<ExecRowView>,
    inners: Seq<ExecRowView>,
    on: BoundExprView,
    parameters: Seq<ValueView>,
    i: int,
    j: int,
)
    requires
        join_keys(on, right) is Some,
        inners.len() <= MAX_INTERMEDIATE_ROWS,
        equality_means_equal(meaning, right, outers, inners, on, parameters),
        pair_matches(meaning, outers, inners, on, parameters, i, j),
        inner_keys(inners, (join_keys(on, right)->0).1, inners.len() as int) is Ok,
    ensures
        same_key(
            meaning,
            outers,
            (join_keys(on, right)->0).0,
            inner_keys(inners, (join_keys(on, right)->0).1, inners.len() as int)->Ok_0,
            parameters,
        )(i).contains(j as usize),
{
    let (outer_key, column) = join_keys(on, right)->0;
    let keys = inner_keys(inners, column, inners.len() as int)->Ok_0;
    inner_keys_are_of_rows(inners, column, inners.len() as int);
    if let BoundExprView::Binary { left: a, right: b, .. } = on {
        reading_is_membership(right, a->Column_table_id);
        reading_is_membership(right, b->Column_table_id);
    }
    assert(is_in_column(
        evaluated(meaning, outer_key, outers[i], parameters),
        inners[j],
        column,
    ));
    let value = inners[j].row.values[column as int];
    assert(key_is_of_column(inners, column, keys, j));
    let key = keys[j]->0;
    positions_with_rise(keys, key, keys.len() as int);
}

/// A join succeeds where its predicate can be tested on every pair, the columns that it
/// compares can be read and are short enough, and no more pairs match than a step may hold.
pub proof fn joins_succeed(
    engine: EngineView,
    transaction: TransactionView,
    meaning: Meaning,
    plan: PhysicalPlanView,
    parameters: Seq<ValueView>,
    outers: Seq<ExecRowView>,
    inners: Seq<ExecRowView>,
)
    requires
        plan matches PhysicalPlanView::Join { left, right, on, algorithm } && plan_rows(
            engine,
            transaction,
            meaning,
            *left,
            parameters,
        ) == Ok::<Seq<ExecRowView>, DatabaseErrorKind>(outers) && plan_rows(
            engine,
            transaction,
            meaning,
            *right,
            parameters,
        ) == Ok::<Seq<ExecRowView>, DatabaseErrorKind>(inners) && tests_succeed(
            meaning,
            outers,
            inners,
            on,
            parameters,
        ) && (algorithm !is NestedLoop ==> equality_means_equal(
            meaning,
            *right,
            outers,
            inners,
            on,
            parameters,
        ) && columns_are_keys(meaning, *right, outers, inners, on, parameters)),
        forall|pairs: Seq<(int, int)>| #[trigger]
            lists_matches(meaning, outers, inners, plan->on, parameters, pairs) ==> pairs.len()
                <= MAX_INTERMEDIATE_ROWS,
    ensures
        plan_rows(engine, transaction, meaning, plan, parameters) is Ok,
{
    let on = plan->on;
    let right = *plan->right;
    let keyed = join_keys(on, right) is Some && uses_keys(plan->Join_algorithm);
    let (outer_key, column) = join_keys(on, right)->0;
    if keyed {
        if let BoundExprView::Binary { left: a, right: b, .. } = on {
            reading_is_membership(right, a->Column_table_id);
            reading_is_membership(right, b->Column_table_id);
        }
        inner_keys_succeed(inners, column, inners.len() as int);
        inner_keys_are_of_rows(inners, column, inners.len() as int);
    }
    let keys = inner_keys(inners, column, inners.len() as int)->Ok_0;
    let tried = if keyed {
        same_key(meaning, outers, outer_key, keys, parameters)
    } else {
        every_inner(inners)
    };
    let pairs = pairs_found(
        meaning,
        outers,
        inners,
        on,
        parameters,
        tried,
        outers.len() as int,
    );
    if keyed {
        assert forall|i: int| 0 <= i < outers.len() implies positions_rise(
            #[trigger] tried(i),
            inners.len(),
        ) by {
            if let Ok(value) = evaluated(meaning, outer_key, outers[i], parameters) {
                if let Ok(Some(key)) = join_key(value) {
                    positions_with_rise(keys, key, keys.len() as int);
                }
            }
        }
    }
    found_pairs_are_matches(
        meaning,
        outers,
        inners,
        on,
        parameters,
        tried,
        outers.len() as int,
    );
    assert forall|i: int, j: int| #[trigger] pairs.contains((i, j)) <==> pair_matches(
        meaning,
        outers,
        inners,
        on,
        parameters,
        i,
        j,
    ) by {
        if pairs.contains((i, j)) {
            let k = pairs.index_of((i, j));
            assert(pairs[k] == (i, j));
        }
        if pair_matches(meaning, outers, inners, on, parameters, i, j) {
            if keyed {
                match_is_tried(meaning, right, outers, inners, on, parameters, i, j);
                let m = tried(i).index_of(j as usize);
                assert(tried(i)[m] == j as usize);
            } else {
                assert(tried(i)[j] == j as usize);
            }
        }
    }
    assert(lists_matches(meaning, outers, inners, on, parameters, pairs));
    if keyed {
        hashing_succeeds(
            meaning,
            outers,
            outer_key,
            inners,
            keys,
            on,
            parameters,
            outers.len() as int,
        );
        hashing_finds_pairs(
            meaning,
            outers,
            outer_key,
            inners,
            keys,
            on,
            parameters,
            outers.len() as int,
        );
    } else {
        looping_succeeds(meaning, outers, inners, on, parameters, outers.len() as int);
        looping_finds_pairs(meaning, outers, inners, on, parameters, outers.len() as int);
    }
}

/// Where the equality of two columns is tested, both can be read and are short enough to be
/// compared by their bytes.
pub open spec fn columns_are_keys(
    meaning: Meaning,
    inner: PhysicalPlanView,
    outers: Seq<ExecRowView>,
    inners: Seq<ExecRowView>,
    on: BoundExprView,
    parameters: Seq<ValueView>,
) -> bool {
    match on {
        BoundExprView::Binary { left, op: BinaryOp::Eq, right, .. } => match (*left, *right) {
            (
                BoundExprView::Column { table_id: a, column_index: x, .. },
                BoundExprView::Column { table_id: b, column_index: y, .. },
            ) => {
                let inside = tables_read(inner);
                &&& inside.contains(b) && !inside.contains(a) ==> outer_column_is_key(
                    meaning,
                    outers,
                    *left,
                    parameters,
                ) && inner_column_is_key(inners, y)
                &&& inside.contains(a) && !inside.contains(b) ==> outer_column_is_key(
                    meaning,
                    outers,
                    *right,
                    parameters,
                ) && inner_column_is_key(inners, x)
            },
            _ => true,
        },
        _ => true,
    }
}

/// An expression has a value on every row that is `NULL` or short enough.
pub open spec fn outer_column_is_key(
    meaning: Meaning,
    rows: Seq<ExecRowView>,
    expression: BoundExprView,
    parameters: Seq<ValueView>,
) -> bool {
    forall|i: int|
        0 <= i < rows.len() ==> (evaluated(meaning, expression, #[trigger] rows[i], parameters)
            matches Ok(value) && (value is Null || encodable(value)))
}

/// Every row has a column that is `NULL` or short enough.
pub open spec fn inner_column_is_key(rows: Seq<ExecRowView>, column: usize) -> bool {
    forall|j: int|
        0 <= j < rows.len() ==> column < (#[trigger] rows[j]).row.values.len() && (
        rows[j].row.values[column as int] is Null || encodable(rows[j].row.values[column as int]))
}

} // verus!
