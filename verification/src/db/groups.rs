//! Grouping puts rows with the same values together, and an aggregate answers for all the
//! rows of its group.

use vstd::prelude::*;
use crate::codec::{encoded_row, row_round_trip};
use crate::db::error::DatabaseErrorKind;
use crate::db::executor::plan_rows;
use crate::db::pairs::positions_with_rise;
use crate::db::rows::{
    aggregated, all_aggregated, all_evaluated, extreme, group_key, group_keys, group_row,
    group_rows, keys_seen, picked_values, positions_with, present_count, sorts_before,
    sorts_before_is_strict, sorts_before_is_transitive, summed,
};
use crate::db::scalar::{ComputedView, ExecRowView, Meaning, evaluated};
use crate::db::sql::{AggregateFunction, BoundExprView, PhysicalPlanView, Span};
use crate::engine::state::EngineView;
use crate::engine::transaction::TransactionView;
use crate::order::lex_lt;
use crate::ordmap::{Key, finite_set_is_listed, ordered};
use crate::types::{RowView, ValueView, comparable, smaller};

verus! {

/// The values of an expression on some of the rows.
pub open spec fn values_on(
    meaning: Meaning,
    argument: BoundExprView,
    rows: Seq<ExecRowView>,
    members: Seq<int>,
    parameters: Seq<ValueView>,
) -> Seq<ValueView> {
    Seq::new(
        members.len(),
        |k: int| evaluated(meaning, argument, rows[members[k]], parameters)->Ok_0,
    )
}

/// The positions of the values that are not `NULL`.
pub open spec fn present(values: Seq<ValueView>) -> Set<int> {
    Set::new(|k: int| 0 <= k < values.len() && values[k] !is Null)
}

/// The number that a value adds to a sum.
pub open spec fn number_of(value: ValueView) -> int {
    match value {
        ValueView::Int64(number) => number as int,
        _ => 0,
    }
}

/// The sum of values; `NULL` adds nothing.
pub open spec fn total(values: Seq<ValueView>) -> int {
    values.fold_left(0int, |sum: int, value: ValueView| sum + number_of(value))
}

/// Values that are not `NULL` are of one type.
pub open spec fn of_one_type(values: Seq<ValueView>) -> bool {
    forall|j: int, k: int|
        0 <= j < values.len() && 0 <= k < values.len() ==> comparable(
            #[trigger] values[j],
            #[trigger] values[k],
        )
}

/// `value` is what an aggregate answers over values: how many of them are not `NULL`, their
/// sum, the least or the greatest of them. Where all of them are `NULL`, the last three are
/// `NULL`.
pub open spec fn answers(
    function: AggregateFunction,
    values: Seq<ValueView>,
    value: ValueView,
) -> bool {
    match function {
        AggregateFunction::Count => value == ValueView::Int64(present(values).len() as i64)
            && present(values).len() <= i64::MAX,
        AggregateFunction::Sum => if present(values).is_empty() {
            value is Null
        } else {
            &&& value matches ValueView::Int64(sum) && sum == total(values)
            &&& forall|k: int|
                0 <= k < values.len() ==> (#[trigger] values[k] is Null || values[k] is Int64)
        },
        AggregateFunction::Min => if present(values).is_empty() {
            value is Null
        } else {
            &&& value !is Null
            &&& values.contains(value)
            &&& of_one_type(values) ==> forall|k: int|
                0 <= k < values.len() ==> !smaller(#[trigger] values[k], value)
        },
        AggregateFunction::Max => if present(values).is_empty() {
            value is Null
        } else {
            &&& value !is Null
            &&& values.contains(value)
            &&& of_one_type(values) ==> forall|k: int|
                0 <= k < values.len() && #[trigger] values[k] !is Null ==> !smaller(
                    value,
                    values[k],
                )
        },
    }
}

/// An aggregate answers for some of the rows. A count without an argument counts the rows.
pub open spec fn answers_for(
    meaning: Meaning,
    aggregate: BoundExprView,
    rows: Seq<ExecRowView>,
    members: Seq<int>,
    parameters: Seq<ValueView>,
    value: ValueView,
) -> bool {
    aggregate matches BoundExprView::Aggregate { function, argument, .. } && match argument {
        None => function == AggregateFunction::Count && value == ValueView::Int64(
            members.len() as i64,
        ) && members.len() <= i64::MAX,
        Some(argument) => answers(
            function,
            values_on(meaning, *argument, rows, members, parameters),
            value,
        ),
    }
}

/// Every aggregate answers for some of the rows.
pub open spec fn all_answer_for(
    meaning: Meaning,
    aggregates: Seq<BoundExprView>,
    rows: Seq<ExecRowView>,
    members: Seq<int>,
    parameters: Seq<ValueView>,
    computed: Seq<ComputedView>,
) -> bool {
    &&& computed.len() == aggregates.len()
    &&& forall|a: int|
        0 <= a < aggregates.len() ==> (#[trigger] computed[a]).expression == aggregates[a]
            && answers_for(
            meaning,
            aggregates[a],
            rows,
            members,
            parameters,
            computed[a].value,
        )
}

/// Two rows agree in every value that they are grouped by.
pub open spec fn grouped_alike(
    meaning: Meaning,
    group_by: Seq<BoundExprView>,
    a: ExecRowView,
    b: ExecRowView,
    parameters: Seq<ValueView>,
) -> bool {
    forall|k: int|
        0 <= k < group_by.len() ==> evaluated(meaning, #[trigger] group_by[k], a, parameters)
            == evaluated(meaning, group_by[k], b, parameters)
}

/// Positions of rows, in rising order.
pub open spec fn rises(members: Seq<int>, rows: nat) -> bool {
    &&& forall|k: int| 0 <= k < members.len() ==> 0 <= #[trigger] members[k] < rows
    &&& forall|j: int, k: int|
        0 <= j < k < members.len() ==> #[trigger] members[j] < #[trigger] members[k]
}

/// Every row is in a group, no group is empty, and two rows are in one group exactly where
/// they are grouped alike.
pub open spec fn are_groups(
    meaning: Meaning,
    group_by: Seq<BoundExprView>,
    rows: Seq<ExecRowView>,
    parameters: Seq<ValueView>,
    groups: Seq<Seq<int>>,
) -> bool {
    &&& forall|g: int|
        0 <= g < groups.len() ==> (#[trigger] groups[g]).len() > 0 && rises(
            groups[g],
            rows.len(),
        )
    &&& forall|i: int|
        #![trigger rows[i]]
        0 <= i < rows.len() ==> exists|g: int|
            0 <= g < groups.len() && (#[trigger] groups[g]).contains(i)
    &&& forall|g: int, h: int, i: int, j: int|
        #![trigger groups[g].contains(i), groups[h].contains(j)]
        0 <= g < groups.len() && 0 <= h < groups.len() && groups[g].contains(i)
            && groups[h].contains(j) ==> (g == h <==> grouped_alike(
            meaning,
            group_by,
            rows[i],
            rows[j],
            parameters,
        ))
}

/// The values that a row is grouped by.
pub open spec fn group_values(
    meaning: Meaning,
    group_by: Seq<BoundExprView>,
    row: ExecRowView,
    parameters: Seq<ValueView>,
) -> Seq<ValueView> {
    Seq::new(
        group_by.len(),
        |k: int| evaluated(meaning, group_by[k], row, parameters)->Ok_0,
    )
}

proof fn grouping_evaluates(
    meaning: Meaning,
    group_by: Seq<BoundExprView>,
    row: ExecRowView,
    parameters: Seq<ValueView>,
    n: int,
)
    requires
        0 <= n <= group_by.len(),
        all_evaluated(meaning, group_by, row, parameters, n) is Ok,
    ensures
        all_evaluated(meaning, group_by, row, parameters, n)->Ok_0 == group_values(
            meaning,
            group_by,
            row,
            parameters,
        ).take(n),
        forall|k: int|
            0 <= k < n ==> evaluated(meaning, #[trigger] group_by[k], row, parameters) is Ok,
    decreases n,
{
    let all = group_values(meaning, group_by, row, parameters);
    if n > 0 {
        grouping_evaluates(meaning, group_by, row, parameters, n - 1);
        assert(all.take(n) =~= all.take(n - 1).push(all[n - 1]));
    } else {
        assert(all.take(0) =~= Seq::empty());
    }
}

proof fn keys_are_group_keys(
    meaning: Meaning,
    group_by: Seq<BoundExprView>,
    rows: Seq<ExecRowView>,
    parameters: Seq<ValueView>,
    n: int,
)
    requires
        0 <= n <= rows.len(),
        group_keys(meaning, group_by, rows, parameters, n) is Ok,
    ensures
        ({
            let keys = group_keys(meaning, group_by, rows, parameters, n)->Ok_0;
            &&& keys.len() == n
            &&& forall|i: int|
                0 <= i < n ==> group_key(meaning, group_by, rows[i], parameters) == Ok::<
                    Seq<u8>,
                    DatabaseErrorKind,
                >((#[trigger] keys[i])->0) && keys[i] is Some
        }),
    decreases n,
{
    if n > 0 {
        keys_are_group_keys(meaning, group_by, rows, parameters, n - 1);
        let before = group_keys(meaning, group_by, rows, parameters, n - 1)->Ok_0;
        let keys = group_keys(meaning, group_by, rows, parameters, n)->Ok_0;
        assert forall|i: int| 0 <= i < n implies group_key(
            meaning,
            group_by,
            rows[i],
            parameters,
        ) == Ok::<Seq<u8>, DatabaseErrorKind>((#[trigger] keys[i])->0) && keys[i] is Some by {
            if i < n - 1 {
                assert(keys[i] == before[i]);
            }
        }
    }
}

/// Two rows have the same group key exactly where they are grouped alike.
proof fn keys_tell_groups_apart(
    meaning: Meaning,
    group_by: Seq<BoundExprView>,
    a: ExecRowView,
    b: ExecRowView,
    parameters: Seq<ValueView>,
)
    requires
        group_key(meaning, group_by, a, parameters) is Ok,
        group_key(meaning, group_by, b, parameters) is Ok,
    ensures
        (group_key(meaning, group_by, a, parameters) == group_key(
            meaning,
            group_by,
            b,
            parameters,
        )) == grouped_alike(meaning, group_by, a, b, parameters),
        group_key(meaning, group_by, a, parameters)->Ok_0 == encoded_row(
            RowView { values: group_values(meaning, group_by, a, parameters) },
        ),
{
    let n = group_by.len() as int;
    grouping_evaluates(meaning, group_by, a, parameters, n);
    grouping_evaluates(meaning, group_by, b, parameters, n);
    let x = group_values(meaning, group_by, a, parameters);
    let y = group_values(meaning, group_by, b, parameters);
    assert(x.take(n) =~= x);
    assert(y.take(n) =~= y);
    row_round_trip(RowView { values: x });
    row_round_trip(RowView { values: y });
    if group_key(meaning, group_by, a, parameters) == group_key(
        meaning,
        group_by,
        b,
        parameters,
    ) {
        assert(RowView { values: x } == RowView { values: y });
        assert forall|k: int| 0 <= k < group_by.len() implies evaluated(
            meaning,
            #[trigger] group_by[k],
            a,
            parameters,
        ) == evaluated(meaning, group_by[k], b, parameters) by {
            assert(x[k] == y[k]);
        }
    }
    if grouped_alike(meaning, group_by, a, b, parameters) {
        assert(x =~= y);
    }
}

/// Positions as mathematical integers.
spec fn members_of(picked: Seq<usize>) -> Seq<int> {
    Seq::new(picked.len(), |k: int| picked[k] as int)
}

proof fn picked_are_values(
    meaning: Meaning,
    argument: BoundExprView,
    rows: Seq<ExecRowView>,
    picked: Seq<usize>,
    parameters: Seq<ValueView>,
    n: int,
)
    requires
        0 <= n <= picked.len(),
        picked_values(meaning, argument, rows, picked, parameters, n) is Ok,
    ensures
        picked_values(meaning, argument, rows, picked, parameters, n)->Ok_0 == values_on(
            meaning,
            argument,
            rows,
            members_of(picked),
            parameters,
        ).take(n),
    decreases n,
{
    let all = values_on(meaning, argument, rows, members_of(picked), parameters);
    if n > 0 {
        picked_are_values(meaning, argument, rows, picked, parameters, n - 1);
        assert(all.take(n) =~= all.take(n - 1).push(all[n - 1]));
    } else {
        assert(all.take(0) =~= Seq::empty());
    }
}

proof fn counting_is_cardinality(values: Seq<ValueView>, n: int)
    requires
        0 <= n <= values.len(),
    ensures
        present(values.take(n)).finite(),
        present(values.take(n)).len() == present_count(values, n),
    decreases n,
{
    let now = values.take(n);
    if n > 0 {
        counting_is_cardinality(values, n - 1);
        let before = values.take(n - 1);
        if values[n - 1] is Null {
            assert(present(now) =~= present(before));
        } else {
            assert(present(now) =~= present(before).insert(n - 1));
        }
    } else {
        assert(present(now) =~= Set::empty());
    }
}

proof fn totals_grow(values: Seq<ValueView>, n: int)
    requires
        0 < n <= values.len(),
    ensures
        total(values.take(n)) == total(values.take(n - 1)) + number_of(values[n - 1]),
{
    let f = |sum: int, value: ValueView| sum + number_of(value);
    let now = values.take(n);
    assert(now.drop_last() =~= values.take(n - 1));
    assert(now.last() == values[n - 1]);
    reveal_with_fuel(Seq::fold_left, 2);
}

proof fn summing_is_total(
    meaning: Meaning,
    argument: BoundExprView,
    rows: Seq<ExecRowView>,
    picked: Seq<usize>,
    parameters: Seq<ValueView>,
    span: Span,
    n: int,
)
    requires
        0 <= n <= picked.len(),
        summed(meaning, argument, rows, picked, parameters, span, n) is Ok,
    ensures
        ({
            let values = values_on(
                meaning,
                argument,
                rows,
                members_of(picked),
                parameters,
            ).take(n);
            let sum = summed(meaning, argument, rows, picked, parameters, span, n)->Ok_0;
            &&& sum is None <==> present(values).is_empty()
            &&& sum matches Some(sum) ==> sum == total(values)
            &&& sum is None ==> total(values) == 0
            &&& forall|k: int| 0 <= k < n ==> (#[trigger] values[k] is Null || values[k] is Int64)
        }),
    decreases n,
{
    let all = values_on(meaning, argument, rows, members_of(picked), parameters);
    let values = all.take(n);
    if n > 0 {
        summing_is_total(meaning, argument, rows, picked, parameters, span, n - 1);
        let before = all.take(n - 1);
        totals_grow(all, n);
        assert(values[n - 1] == all[n - 1]);
        assert forall|k: int| 0 <= k < n implies (#[trigger] values[k] is Null
            || values[k] is Int64) by {
            if k < n - 1 {
                assert(values[k] == before[k]);
            }
        }
        if all[n - 1] is Null {
            assert(present(values) =~= present(before));
        } else {
            assert(present(values).contains(n - 1));
        }
    } else {
        assert(values =~= Seq::empty());
        assert(present(values) =~= Set::empty());
        reveal_with_fuel(Seq::fold_left, 1);
    }
}

proof fn extremes_are_of_values(
    meaning: Meaning,
    function: AggregateFunction,
    argument: BoundExprView,
    rows: Seq<ExecRowView>,
    picked: Seq<usize>,
    parameters: Seq<ValueView>,
    n: int,
)
    requires
        0 <= n <= picked.len(),
        extreme(meaning, function, argument, rows, picked, parameters, n) is Ok,
    ensures
        ({
            let values = values_on(
                meaning,
                argument,
                rows,
                members_of(picked),
                parameters,
            ).take(n);
            let found = extreme(meaning, function, argument, rows, picked, parameters, n)->Ok_0;
            &&& found is None <==> present(values).is_empty()
            &&& found matches Some(value) ==> value !is Null && values.contains(value)
        }),
    decreases n,
{
    let all = values_on(meaning, argument, rows, members_of(picked), parameters);
    let values = all.take(n);
    if n > 0 {
        extremes_are_of_values(
            meaning,
            function,
            argument,
            rows,
            picked,
            parameters,
            n - 1,
        );
        let before = all.take(n - 1);
        let found = extreme(meaning, function, argument, rows, picked, parameters, n)->Ok_0;
        assert(values =~= before.push(all[n - 1]));
        if all[n - 1] is Null {
            assert(present(values) =~= present(before));
        } else {
            assert(present(values).contains(n - 1));
        }
        if let Some(value) = found {
            if before.contains(value) {
                let k = before.index_of(value);
                assert(values[k] == value);
            } else {
                assert(values[n - 1] == value);
            }
        }
    } else {
        assert(present(values) =~= Set::empty());
    }
}

proof fn smaller_is_before(a: ValueView, b: ValueView)
    requires
        comparable(a, b),
    ensures
        sorts_before(a, b) == smaller(a, b),
        a !is Null && b !is Null ==> a.precedes(b) == smaller(a, b),
{
    sorts_before_is_strict(a, b);
}

proof fn extremes_are_extreme(
    meaning: Meaning,
    function: AggregateFunction,
    argument: BoundExprView,
    rows: Seq<ExecRowView>,
    picked: Seq<usize>,
    parameters: Seq<ValueView>,
    n: int,
)
    requires
        0 <= n <= picked.len(),
        function == AggregateFunction::Min || function == AggregateFunction::Max,
        extreme(meaning, function, argument, rows, picked, parameters, n) is Ok,
        of_one_type(values_on(meaning, argument, rows, members_of(picked), parameters)),
    ensures
        ({
            let values = values_on(meaning, argument, rows, members_of(picked), parameters);
            let found = extreme(meaning, function, argument, rows, picked, parameters, n)->Ok_0;
            found matches Some(value) ==> forall|k: int|
                0 <= k < n && #[trigger] values[k] !is Null ==> if function
                    == AggregateFunction::Min {
                    !smaller(values[k], value)
                } else {
                    !smaller(value, values[k])
                }
        }),
    decreases n,
{
    let values = values_on(meaning, argument, rows, members_of(picked), parameters);
    if n > 0 {
        extremes_are_extreme(meaning, function, argument, rows, picked, parameters, n - 1);
        extremes_are_of_values(
            meaning,
            function,
            argument,
            rows,
            picked,
            parameters,
            n - 1,
        );
        let before = extreme(
            meaning,
            function,
            argument,
            rows,
            picked,
            parameters,
            n - 1,
        )->Ok_0;
        let found = extreme(meaning, function, argument, rows, picked, parameters, n)->Ok_0;
        let x = values[n - 1];
        assert(members_of(picked)[n - 1] == picked[n - 1]);
        if let Some(value) = found {
            if let Some(v) = before {
                let m = values.take(n - 1).index_of(v);
                assert(values[m] == v);
                assert(comparable(v, x) && comparable(x, v));
                smaller_is_before(v, x);
                smaller_is_before(x, v);
                sorts_before_is_strict(x, v);
                assert forall|k: int| 0 <= k < n && #[trigger] values[k] !is Null implies if function
                    == AggregateFunction::Min {
                    !smaller(values[k], value)
                } else {
                    !smaller(value, values[k])
                } by {
                    let y = values[k];
                    assert(comparable(y, values[m]) && comparable(values[m], y));
                    assert(comparable(y, values[n - 1]) && comparable(values[n - 1], y));
                    smaller_is_before(y, x);
                    smaller_is_before(x, y);
                    smaller_is_before(y, v);
                    smaller_is_before(v, y);
                    sorts_before_is_strict(x, x);
                    sorts_before_is_transitive(y, x, v);
                    sorts_before_is_transitive(v, x, y);
                }
            } else {
                assert(present(values.take(n - 1)).is_empty());
                assert forall|k: int| 0 <= k < n && #[trigger] values[k] !is Null implies k == n
                    - 1 by {
                    if k < n - 1 {
                        assert(present(values.take(n - 1)).contains(k));
                    }
                }
                sorts_before_is_strict(x, x);
                smaller_is_before(x, x);
            }
        }
    }
}

proof fn aggregates_answer(
    meaning: Meaning,
    aggregate: BoundExprView,
    rows: Seq<ExecRowView>,
    picked: Seq<usize>,
    parameters: Seq<ValueView>,
)
    requires
        aggregated(meaning, aggregate, rows, picked, parameters) is Ok,
    ensures
        answers_for(
            meaning,
            aggregate,
            rows,
            members_of(picked),
            parameters,
            aggregated(meaning, aggregate, rows, picked, parameters)->Ok_0,
        ),
{
    let n = picked.len() as int;
    if let BoundExprView::Aggregate { function, argument, span } = aggregate {
        if let Some(argument) = argument {
            let values = values_on(meaning, *argument, rows, members_of(picked), parameters);
            assert(values.take(n) =~= values);
            match function {
                AggregateFunction::Count => {
                    picked_are_values(meaning, *argument, rows, picked, parameters, n);
                    counting_is_cardinality(values, n);
                },
                AggregateFunction::Sum => {
                    summing_is_total(meaning, *argument, rows, picked, parameters, span, n);
                },
                _ => {
                    extremes_are_of_values(
                        meaning,
                        function,
                        *argument,
                        rows,
                        picked,
                        parameters,
                        n,
                    );
                    if of_one_type(values) {
                        extremes_are_extreme(
                            meaning,
                            function,
                            *argument,
                            rows,
                            picked,
                            parameters,
                            n,
                        );
                        let found = extreme(
                            meaning,
                            function,
                            *argument,
                            rows,
                            picked,
                            parameters,
                            n,
                        )->Ok_0;
                        if let Some(value) = found {
                            assert forall|k: int| 0 <= k < values.len() implies !(function
                                == AggregateFunction::Min && smaller(
                                #[trigger] values[k],
                                value,
                            )) by {}
                        }
                    }
                },
            }
        }
    }
}

proof fn all_aggregates_answer(
    meaning: Meaning,
    aggregates: Seq<BoundExprView>,
    rows: Seq<ExecRowView>,
    picked: Seq<usize>,
    parameters: Seq<ValueView>,
    n: int,
)
    requires
        0 <= n <= aggregates.len(),
        all_aggregated(meaning, aggregates, rows, picked, parameters, n) is Ok,
    ensures
        all_answer_for(
            meaning,
            aggregates.take(n),
            rows,
            members_of(picked),
            parameters,
            all_aggregated(meaning, aggregates, rows, picked, parameters, n)->Ok_0,
        ),
    decreases n,
{
    if n > 0 {
        all_aggregates_answer(meaning, aggregates, rows, picked, parameters, n - 1);
        aggregates_answer(meaning, aggregates[n - 1], rows, picked, parameters);
        let before = all_aggregated(meaning, aggregates, rows, picked, parameters, n - 1)->Ok_0;
        let now = all_aggregated(meaning, aggregates, rows, picked, parameters, n)->Ok_0;
        assert forall|a: int| 0 <= a < n implies (#[trigger] now[a]).expression
            == aggregates.take(n)[a] && answers_for(
            meaning,
            aggregates.take(n)[a],
            rows,
            members_of(picked),
            parameters,
            now[a].value,
        ) by {
            if a < n - 1 {
                assert(now[a] == before[a]);
                assert(aggregates.take(n - 1)[a] == aggregates.take(n)[a]);
            }
        }
    }
}

proof fn rows_of_groups(
    meaning: Meaning,
    aggregates: Seq<BoundExprView>,
    rows: Seq<ExecRowView>,
    keys: Seq<Option<Seq<u8>>>,
    parameters: Seq<ValueView>,
    n: int,
)
    requires
        0 <= n,
        group_rows(meaning, aggregates, rows, keys, parameters, n) is Ok,
    ensures
        ({
            let done = group_rows(meaning, aggregates, rows, keys, parameters, n)->Ok_0;
            &&& done.len() == n
            &&& forall|g: int|
                0 <= g < n ==> group_row(
                    meaning,
                    aggregates,
                    rows,
                    positions_with(
                        keys,
                        ordered::<Vec<u8>>(keys_seen(keys))[g],
                        keys.len() as int,
                    ),
                    parameters,
                ) == Ok::<ExecRowView, DatabaseErrorKind>(#[trigger] done[g])
        }),
    decreases n,
{
    if n > 0 {
        rows_of_groups(meaning, aggregates, rows, keys, parameters, n - 1);
        let before = group_rows(meaning, aggregates, rows, keys, parameters, n - 1)->Ok_0;
        let done = group_rows(meaning, aggregates, rows, keys, parameters, n)->Ok_0;
        assert forall|g: int| 0 <= g < n implies group_row(
            meaning,
            aggregates,
            rows,
            positions_with(keys, ordered::<Vec<u8>>(keys_seen(keys))[g], keys.len() as int),
            parameters,
        ) == Ok::<ExecRowView, DatabaseErrorKind>(#[trigger] done[g]) by {
            if g < n - 1 {
                assert(done[g] == before[g]);
            }
        }
    }
}

proof fn seen_keys_are_listed(keys: Seq<Option<Seq<u8>>>)
    requires
        keys.len() <= crate::db::join::MAX_INTERMEDIATE_ROWS,
    ensures
        crate::ordmap::lists::<Vec<u8>>(ordered::<Vec<u8>>(keys_seen(keys)), keys_seen(keys)),
        forall|key: Seq<u8>| #[trigger]
            keys_seen(keys).contains(key) <==> exists|i: int|
                0 <= i < keys.len() && #[trigger] keys[i] == Some(key),
{
    let plain = Seq::new(keys.len(), |i: int| keys[i]->0);
    assert forall|key: Seq<u8>| #[trigger] keys_seen(keys).contains(key) <==> exists|i: int|
        0 <= i < keys.len() && #[trigger] keys[i] == Some(key) by {
        positions_with_rise(keys, key, keys.len() as int);
        let picked = positions_with(keys, key, keys.len() as int);
        if picked.len() > 0 {
            assert(keys[picked[0] as int] == Some(key));
        }
        if exists|i: int| 0 <= i < keys.len() && #[trigger] keys[i] == Some(key) {
            let i = choose|i: int| 0 <= i < keys.len() && #[trigger] keys[i] == Some(key);
            assert(picked.contains(i as usize));
        }
    }
    assert(keys_seen(keys).subset_of(plain.to_set())) by {
        assert forall|key: Seq<u8>| keys_seen(keys).contains(key) implies plain.to_set().contains(
            key,
        ) by {
            let i = choose|i: int| 0 <= i < keys.len() && #[trigger] keys[i] == Some(key);
            assert(plain[i] == key);
        }
    }
    vstd::seq_lib::seq_to_set_is_finite(plain);
    vstd::set_lib::lemma_len_subset(keys_seen(keys), plain.to_set());
    finite_set_is_listed::<Vec<u8>>(keys_seen(keys));
}

/// Grouping answers one row for each group: the first row of the group, with what every
/// aggregate answers for the rows of the group. Rows are in one group exactly where they
/// agree in every value that they are grouped by, and the groups come in the order of the
/// encodings of those values. Where there are no rows and nothing to group by, the
/// aggregates answer for no rows.
pub proof fn groups_answer_for_their_rows(
    engine: EngineView,
    transaction: TransactionView,
    meaning: Meaning,
    plan: PhysicalPlanView,
    parameters: Seq<ValueView>,
    given: Seq<ExecRowView>,
    rows: Seq<ExecRowView>,
)
    requires
        plan matches PhysicalPlanView::HashAggregate { input, .. } && plan_rows(
            engine,
            transaction,
            meaning,
            *input,
            parameters,
        ) == Ok::<Seq<ExecRowView>, DatabaseErrorKind>(given),
        plan_rows(engine, transaction, meaning, plan, parameters) == Ok::<
            Seq<ExecRowView>,
            DatabaseErrorKind,
        >(rows),
    ensures
        plan matches PhysicalPlanView::HashAggregate { group_by, aggregates, .. } && if given.len()
            == 0 && group_by.len() == 0 {
            rows.len() == 1 && rows[0].row.values.len() == 0 && all_answer_for(
                meaning,
                aggregates,
                given,
                Seq::empty(),
                parameters,
                rows[0].aggregates,
            )
        } else {
            exists|groups: Seq<Seq<int>>| #[trigger]
                are_groups(meaning, group_by, given, parameters, groups) && rows.len()
                    == groups.len() && (forall|g: int|
                    0 <= g < rows.len() ==> (#[trigger] rows[g]).row == given[groups[g][0]].row
                        && all_answer_for(
                        meaning,
                        aggregates,
                        given,
                        groups[g],
                        parameters,
                        rows[g].aggregates,
                    )) && (forall|g: int, h: int|
                    0 <= g < h < groups.len() ==> lex_lt(
                        encoded_row(
                            RowView {
                                values: group_values(
                                    meaning,
                                    group_by,
                                    given[(#[trigger] groups[g])[0]],
                                    parameters,
                                ),
                            },
                        ),
                        encoded_row(
                            RowView {
                                values: group_values(
                                    meaning,
                                    group_by,
                                    given[(#[trigger] groups[h])[0]],
                                    parameters,
                                ),
                            },
                        ),
                    ))
        },
{
    let group_by = plan->group_by;
    let aggregates = plan->aggregates;
    let keys = group_keys(meaning, group_by, given, parameters, given.len() as int)->Ok_0;
    assert(aggregates.take(aggregates.len() as int) =~= aggregates);
    if given.len() == 0 && group_by.len() == 0 {
        all_aggregates_answer(
            meaning,
            aggregates,
            given,
            Seq::empty(),
            parameters,
            aggregates.len() as int,
        );
        assert(members_of(Seq::empty()) =~= Seq::empty());
    } else {
        keys_are_group_keys(meaning, group_by, given, parameters, given.len() as int);
        seen_keys_are_listed(keys);
        let listed = ordered::<Vec<u8>>(keys_seen(keys));
        rows_of_groups(meaning, aggregates, given, keys, parameters, listed.len() as int);
        let picked = |g: int| positions_with(keys, listed[g], keys.len() as int);
        let groups = Seq::new(listed.len(), |g: int| members_of(picked(g)));
        assert forall|g: int, i: int|
            0 <= g < groups.len() implies (#[trigger] groups[g].contains(i) <==> 0 <= i
            < given.len() && keys[i] == Some(listed[g])) by {
            positions_with_rise(keys, listed[g], keys.len() as int);
            if groups[g].contains(i) {
                let k = groups[g].index_of(i);
                assert(picked(g)[k] as int == i);
            }
            if 0 <= i < given.len() && keys[i] == Some(listed[g]) {
                assert(picked(g).contains(i as usize));
                let k = picked(g).index_of(i as usize);
                assert(groups[g][k] == i);
            }
        }
        assert forall|g: int| 0 <= g < groups.len() implies (#[trigger] groups[g]).len() > 0
            && rises(groups[g], given.len()) by {
            positions_with_rise(keys, listed[g], keys.len() as int);
            assert(listed.contains(listed[g]));
            assert(keys_seen(keys).contains(listed[g]));
            let p = picked(g);
            assert forall|k: int| 0 <= k < groups[g].len() implies 0 <= #[trigger] groups[g][k]
                < given.len() by {
                assert(p[k] < given.len());
            }
            assert forall|j: int, k: int| 0 <= j < k < groups[g].len() implies #[trigger] groups[g][j]
                < #[trigger] groups[g][k] by {
                assert(p[j] < p[k]);
            }
        }
        assert forall|i: int|
            #![trigger given[i]]
            0 <= i < given.len() implies exists|g: int|
            0 <= g < groups.len() && (#[trigger] groups[g]).contains(i) by {
            let key = keys[i]->0;
            assert(keys[i] == Some(key));
            assert(keys_seen(keys).contains(key));
            assert(listed.contains(key));
            let g = listed.index_of(key);
            assert(groups[g].contains(i));
        }
        assert forall|g: int, h: int, i: int, j: int|
            #![trigger groups[g].contains(i), groups[h].contains(j)]
            0 <= g < groups.len() && 0 <= h < groups.len() && groups[g].contains(i)
                && groups[h].contains(j) implies (g == h <==> grouped_alike(
            meaning,
            group_by,
            given[i],
            given[j],
            parameters,
        )) by {
            keys_tell_groups_apart(meaning, group_by, given[i], given[j], parameters);
            assert(keys[i] == Some(listed[g]));
            assert(keys[j] == Some(listed[h]));
            if g != h && listed[g] == listed[h] {
                if g < h {
                    assert(<Vec<u8> as Key>::before(listed[g], listed[h]));
                } else {
                    assert(<Vec<u8> as Key>::before(listed[h], listed[g]));
                }
                <Vec<u8> as Key>::before_irreflexive(listed[g]);
            }
        }
        assert forall|g: int| 0 <= g < rows.len() implies (#[trigger] rows[g]).row
            == given[groups[g][0]].row && all_answer_for(
            meaning,
            aggregates,
            given,
            groups[g],
            parameters,
            rows[g].aggregates,
        ) by {
            assert(groups[g].len() > 0);
            let done = group_rows(
                meaning,
                aggregates,
                given,
                keys,
                parameters,
                listed.len() as int,
            )->Ok_0;
            assert(done[g] == rows[g]);
            assert(group_row(meaning, aggregates, given, picked(g), parameters) == Ok::<
                ExecRowView,
                DatabaseErrorKind,
            >(done[g]));
            all_aggregates_answer(
                meaning,
                aggregates,
                given,
                picked(g),
                parameters,
                aggregates.len() as int,
            );
        }
        assert forall|g: int, h: int| 0 <= g < h < groups.len() implies lex_lt(
            encoded_row(
                RowView {
                    values: group_values(
                        meaning,
                        group_by,
                        given[(#[trigger] groups[g])[0]],
                        parameters,
                    ),
                },
            ),
            encoded_row(
                RowView {
                    values: group_values(
                        meaning,
                        group_by,
                        given[(#[trigger] groups[h])[0]],
                        parameters,
                    ),
                },
            ),
        ) by {
            let (i, j) = (groups[g][0], groups[h][0]);
            assert(groups[g].contains(i) && groups[h].contains(j));
            keys_tell_groups_apart(meaning, group_by, given[i], given[j], parameters);
            keys_tell_groups_apart(meaning, group_by, given[j], given[i], parameters);
            assert(<Vec<u8> as Key>::before(listed[g], listed[h]));
        }
        assert(are_groups(meaning, group_by, given, parameters, groups));
    }
}

} // verus!
