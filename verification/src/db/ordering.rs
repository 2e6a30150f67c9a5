//! A sort keeps every row and puts the rows in the order of their keys.

use vstd::prelude::*;
use vstd::utf8::encode_utf8;
use crate::codec::{ordered_encoding_is_injective, ordered_value};
use crate::db::error::DatabaseErrorKind;
use crate::db::executor::plan_rows;
use crate::db::rows::{
    all_evaluated, order_expressions, order_of_rows, row_keys, row_keys_asymmetric,
    row_keys_before, row_keys_negatively_transitive, sort_key_at, sort_order, sorts_before,
};
use crate::db::scalar::{ExecRowView, Meaning, evaluated};
use crate::db::sql::{BoundOrderView, OrderDirection, PhysicalPlanView};
use crate::engine::state::EngineView;
use crate::engine::transaction::TransactionView;
use crate::order::lex_total;
use crate::sorting::{stable_order_exists, stably_sorts};
use crate::types::{ValueView, comparable, smaller};

verus! {

/// Two keys of one type that differ are in an order.
pub proof fn different_keys_are_ordered(a: ValueView, b: ValueView)
    requires
        comparable(a, b),
        a != b,
    ensures
        smaller(a, b) != smaller(b, a),
{
    match (a, b) {
        (ValueView::Text(x), ValueView::Text(y)) => {
            if encode_utf8(x) == encode_utf8(y) {
                assert(ordered_value(a) == ordered_value(b));
                ordered_encoding_is_injective(a, b);
            }
            lex_total(encode_utf8(x), encode_utf8(y));
            crate::db::rows::sorts_before_is_strict(a, b);
        },
        (ValueView::Bytes(x), ValueView::Bytes(y)) => {
            lex_total(x, y);
            crate::db::rows::sorts_before_is_strict(a, b);
        },
        _ => {},
    }
}

proof fn sorting_puts_smaller_first(a: ValueView, b: ValueView)
    requires
        comparable(a, b),
    ensures
        sorts_before(a, b) == smaller(a, b),
        a == b ==> !sorts_before(a, b),
{
    crate::db::rows::sorts_before_is_strict(a, b);
}

/// The key of a row by an expression of a sort.
pub open spec fn key_of(
    meaning: Meaning,
    order_by: Seq<BoundOrderView>,
    row: ExecRowView,
    parameters: Seq<ValueView>,
    k: int,
) -> ValueView {
    evaluated(meaning, order_by[k].expr, row, parameters)->Ok_0
}

/// Two rows have the same first `n` keys.
pub open spec fn same_keys(
    meaning: Meaning,
    order_by: Seq<BoundOrderView>,
    a: ExecRowView,
    b: ExecRowView,
    parameters: Seq<ValueView>,
    n: int,
) -> bool {
    forall|k: int|
        0 <= k < n ==> #[trigger] key_of(meaning, order_by, a, parameters, k) == key_of(
            meaning,
            order_by,
            b,
            parameters,
            k,
        )
}

/// One row may stand before another: at the first key in which they differ, the smaller one
/// comes first where that key is ascending, and the greater one where it is descending.
pub open spec fn in_order(
    meaning: Meaning,
    order_by: Seq<BoundOrderView>,
    first: ExecRowView,
    second: ExecRowView,
    parameters: Seq<ValueView>,
) -> bool {
    forall|k: int|
        #![trigger key_of(meaning, order_by, first, parameters, k)]
        0 <= k < order_by.len() && same_keys(meaning, order_by, first, second, parameters, k)
            && key_of(meaning, order_by, first, parameters, k) != key_of(
            meaning,
            order_by,
            second,
            parameters,
            k,
        ) && comparable(
            key_of(meaning, order_by, first, parameters, k),
            key_of(meaning, order_by, second, parameters, k),
        ) ==> match order_by[k].direction {
            OrderDirection::Asc => smaller(
                key_of(meaning, order_by, first, parameters, k),
                key_of(meaning, order_by, second, parameters, k),
            ),
            OrderDirection::Desc => smaller(
                key_of(meaning, order_by, second, parameters, k),
                key_of(meaning, order_by, first, parameters, k),
            ),
        }
}

/// `order` names every position below `n` once.
pub open spec fn rearranges(order: Seq<int>, n: int) -> bool {
    &&& order.len() == n
    &&& order.no_duplicates()
    &&& forall|x: int| #[trigger] order.contains(x) <==> 0 <= x < n
}

proof fn evaluated_keys(
    meaning: Meaning,
    order_by: Seq<BoundOrderView>,
    row: ExecRowView,
    parameters: Seq<ValueView>,
    n: int,
)
    requires
        0 <= n <= order_by.len(),
        all_evaluated(meaning, order_expressions(order_by), row, parameters, n) is Ok,
    ensures
        ({
            let values = all_evaluated(
                meaning,
                order_expressions(order_by),
                row,
                parameters,
                n,
            )->Ok_0;
            &&& values.len() == n
            &&& forall|k: int|
                0 <= k < n ==> #[trigger] values[k] == key_of(
                    meaning,
                    order_by,
                    row,
                    parameters,
                    k,
                )
        }),
    decreases n,
{
    if n > 0 {
        evaluated_keys(meaning, order_by, row, parameters, n - 1);
    }
}

proof fn rows_have_keys(
    meaning: Meaning,
    order_by: Seq<BoundOrderView>,
    rows: Seq<ExecRowView>,
    parameters: Seq<ValueView>,
    n: int,
)
    requires
        0 <= n <= rows.len(),
        row_keys(meaning, order_by, rows, parameters, n) is Ok,
    ensures
        ({
            let keys = row_keys(meaning, order_by, rows, parameters, n)->Ok_0;
            &&& keys.len() == n
            &&& forall|i: int, k: int|
                #![trigger keys[i][k]]
                0 <= i < n && 0 <= k < order_by.len() ==> keys[i][k] == key_of(
                    meaning,
                    order_by,
                    rows[i],
                    parameters,
                    k,
                )
            &&& forall|i: int| 0 <= i < n ==> (#[trigger] keys[i]).len() == order_by.len()
        }),
    decreases n,
{
    if n > 0 {
        rows_have_keys(meaning, order_by, rows, parameters, n - 1);
        evaluated_keys(meaning, order_by, rows[n - 1], parameters, order_by.len() as int);
        let before = row_keys(meaning, order_by, rows, parameters, n - 1)->Ok_0;
        let keys = row_keys(meaning, order_by, rows, parameters, n)->Ok_0;
        assert forall|i: int, k: int|
            #![trigger keys[i][k]]
            0 <= i < n && 0 <= k < order_by.len() implies keys[i][k] == key_of(
            meaning,
            order_by,
            rows[i],
            parameters,
            k,
        ) by {
            if i < n - 1 {
                assert(keys[i] == before[i]);
                assert(before[i][k] == key_of(meaning, order_by, rows[i], parameters, k));
            }
        }
        assert forall|i: int| 0 <= i < n implies (#[trigger] keys[i]).len() == order_by.len() by {
            if i < n - 1 {
                assert(keys[i] == before[i]);
            }
        }
    }
}

/// Keys that agree up to the `k`-th and differ there are told apart by it.
proof fn first_difference_decides(
    a: Seq<ValueView>,
    b: Seq<ValueView>,
    order_by: Seq<BoundOrderView>,
    i: int,
    k: int,
)
    requires
        0 <= i <= k < order_by.len(),
        a.len() == order_by.len(),
        b.len() == order_by.len(),
        forall|m: int| i <= m < k ==> #[trigger] a[m] == b[m],
        comparable(a[k], b[k]),
        a[k] != b[k],
        !row_keys_before(b, a, order_by, i),
    ensures
        match order_by[k].direction {
            OrderDirection::Asc => smaller(a[k], b[k]),
            OrderDirection::Desc => smaller(b[k], a[k]),
        },
    decreases k - i,
{
    assert(sort_key_at(a, i) == a[i] && sort_key_at(b, i) == b[i]);
    if i < k {
        crate::db::rows::sorts_before_is_strict(a[i], b[i]);
        first_difference_decides(a, b, order_by, i + 1, k);
    } else {
        different_keys_are_ordered(a[k], b[k]);
        sorting_puts_smaller_first(a[k], b[k]);
        sorting_puts_smaller_first(b[k], a[k]);
    }
}

proof fn equal_keys_are_not_told_apart(
    a: Seq<ValueView>,
    b: Seq<ValueView>,
    order_by: Seq<BoundOrderView>,
    i: int,
)
    requires
        0 <= i,
        a.len() == order_by.len(),
        b.len() == order_by.len(),
        forall|m: int| 0 <= m < order_by.len() ==> #[trigger] a[m] == b[m],
    ensures
        !row_keys_before(a, b, order_by, i),
    decreases order_by.len() - i,
{
    if i < order_by.len() {
        assert(sort_key_at(a, i) == a[i] && sort_key_at(b, i) == b[i]);
        crate::db::rows::sorts_before_is_strict(a[i], b[i]);
        equal_keys_are_not_told_apart(a, b, order_by, i + 1);
    }
}

/// A sort answers every row of its input once. Of any two rows that it answers, the first
/// key in which they differ decides, each key in its own direction; rows that agree in every
/// key stay in the order of the input.
pub proof fn sorts_order_by_each_key(
    engine: EngineView,
    transaction: TransactionView,
    meaning: Meaning,
    plan: PhysicalPlanView,
    parameters: Seq<ValueView>,
    given: Seq<ExecRowView>,
    rows: Seq<ExecRowView>,
)
    requires
        plan matches PhysicalPlanView::Sort { input, .. } && plan_rows(
            engine,
            transaction,
            meaning,
            *input,
            parameters,
        ) == Ok::<Seq<ExecRowView>, DatabaseErrorKind>(given),
        plan_rows(engine, transaction, meaning, plan, parameters) == Ok::<
            Seq<ExecRowView>,
            DatabaseErrorKind,
        >(rows),
    ensures
        exists|order: Seq<int>| #[trigger]
            rearranges(order, given.len() as int) && rows.len() == given.len() && (forall|p: int|
                0 <= p < rows.len() ==> #[trigger] rows[p] == given[order[p]]) && (forall|
                p: int,
                q: int,
            |
                0 <= p < q < rows.len() && same_keys(
                    meaning,
                    plan->order_by,
                    #[trigger] rows[p],
                    #[trigger] rows[q],
                    parameters,
                    plan->order_by.len() as int,
                ) ==> order[p] < order[q]),
        forall|p: int, q: int|
            0 <= p < q < rows.len() ==> in_order(
                meaning,
                plan->order_by,
                #[trigger] rows[p],
                #[trigger] rows[q],
                parameters,
            ),
{
    let order_by = plan->order_by;
    let keys = row_keys(meaning, order_by, given, parameters, given.len() as int)->Ok_0;
    let before = order_of_rows(order_by);
    rows_have_keys(meaning, order_by, given, parameters, given.len() as int);
    assert forall|a: Seq<ValueView>, b: Seq<ValueView>| !(#[trigger] before(a, b) && before(
        b,
        a,
    )) by {
        row_keys_asymmetric(a, b, order_by, 0);
    }
    assert forall|a: Seq<ValueView>, b: Seq<ValueView>, c: Seq<ValueView>|
        !#[trigger] before(b, a) && !#[trigger] before(c, b) implies !before(c, a) by {
        row_keys_negatively_transitive(a, b, c, order_by, 0);
    }
    let found = stable_order_exists(before, keys);
    let order = sort_order(keys, order_by);
    assert(stably_sorts(before, keys, order));
    assert(rearranges(order, given.len() as int)) by {
        assert forall|x: int| #[trigger] order.contains(x) <==> 0 <= x < given.len() by {
            if 0 <= x < given.len() {
                crate::sorting::position_is_listed(order, given.len() as int, x);
            }
        }
    }
    assert forall|p: int, q: int| 0 <= p < q < rows.len() implies in_order(
        meaning,
        order_by,
        #[trigger] rows[p],
        #[trigger] rows[q],
        parameters,
    ) by {
        let (a, b) = (keys[order[p]], keys[order[q]]);
        assert(!before(b, a));
        assert forall|k: int|
            #![trigger key_of(meaning, order_by, rows[p], parameters, k)]
            0 <= k < order_by.len() && same_keys(
                meaning,
                order_by,
                rows[p],
                rows[q],
                parameters,
                k,
            ) && key_of(meaning, order_by, rows[p], parameters, k) != key_of(
                meaning,
                order_by,
                rows[q],
                parameters,
                k,
            ) && comparable(
                key_of(meaning, order_by, rows[p], parameters, k),
                key_of(meaning, order_by, rows[q], parameters, k),
            ) implies match order_by[k].direction {
            OrderDirection::Asc => smaller(
                key_of(meaning, order_by, rows[p], parameters, k),
                key_of(meaning, order_by, rows[q], parameters, k),
            ),
            OrderDirection::Desc => smaller(
                key_of(meaning, order_by, rows[q], parameters, k),
                key_of(meaning, order_by, rows[p], parameters, k),
            ),
        } by {
            assert(a[k] == key_of(meaning, order_by, rows[p], parameters, k));
            assert(b[k] == key_of(meaning, order_by, rows[q], parameters, k));
            assert forall|m: int| 0 <= m < k implies #[trigger] a[m] == b[m] by {
                assert(key_of(meaning, order_by, rows[p], parameters, m) == key_of(
                    meaning,
                    order_by,
                    rows[q],
                    parameters,
                    m,
                ));
                assert(keys[order[p]][m] == key_of(meaning, order_by, rows[p], parameters, m));
                assert(keys[order[q]][m] == key_of(meaning, order_by, rows[q], parameters, m));
            }
            first_difference_decides(a, b, order_by, 0, k);
        }
    }
    assert forall|p: int, q: int|
        0 <= p < q < rows.len() && same_keys(
            meaning,
            order_by,
            #[trigger] rows[p],
            #[trigger] rows[q],
            parameters,
            order_by.len() as int,
        ) implies order[p] < order[q] by {
        let (a, b) = (keys[order[p]], keys[order[q]]);
        assert forall|m: int| 0 <= m < order_by.len() implies #[trigger] a[m] == b[m] by {
            assert(key_of(meaning, order_by, rows[p], parameters, m) == key_of(
                meaning,
                order_by,
                rows[q],
                parameters,
                m,
            ));
            assert(keys[order[p]][m] == key_of(meaning, order_by, rows[p], parameters, m));
            assert(keys[order[q]][m] == key_of(meaning, order_by, rows[q], parameters, m));
        }
        equal_keys_are_not_told_apart(a, b, order_by, 0);
        assert(before(a, b) || order[p] < order[q]);
    }
}

proof fn keys_are_evaluated(
    meaning: Meaning,
    order_by: Seq<BoundOrderView>,
    row: ExecRowView,
    parameters: Seq<ValueView>,
    n: int,
)
    requires
        0 <= n <= order_by.len(),
        forall|k: int|
            0 <= k < order_by.len() ==> evaluated(
                meaning,
                (#[trigger] order_by[k]).expr,
                row,
                parameters,
            ) is Ok,
    ensures
        all_evaluated(meaning, order_expressions(order_by), row, parameters, n) is Ok,
    decreases n,
{
    if n > 0 {
        keys_are_evaluated(meaning, order_by, row, parameters, n - 1);
        assert(evaluated(meaning, order_by[n - 1].expr, row, parameters) is Ok);
    }
}

proof fn rows_get_keys(
    meaning: Meaning,
    order_by: Seq<BoundOrderView>,
    rows: Seq<ExecRowView>,
    parameters: Seq<ValueView>,
    n: int,
)
    requires
        0 <= n <= rows.len(),
        forall|i: int, k: int|
            0 <= i < rows.len() && 0 <= k < order_by.len() ==> evaluated(
                meaning,
                (#[trigger] order_by[k]).expr,
                #[trigger] rows[i],
                parameters,
            ) is Ok,
    ensures
        row_keys(meaning, order_by, rows, parameters, n) is Ok,
    decreases n,
{
    if n > 0 {
        rows_get_keys(meaning, order_by, rows, parameters, n - 1);
        assert forall|k: int| 0 <= k < order_by.len() implies evaluated(
            meaning,
            (#[trigger] order_by[k]).expr,
            rows[n - 1],
            parameters,
        ) is Ok by {}
        keys_are_evaluated(meaning, order_by, rows[n - 1], parameters, order_by.len() as int);
    }
}

/// A sort succeeds where every row of its input has every key.
pub proof fn sorts_succeed(
    engine: EngineView,
    transaction: TransactionView,
    meaning: Meaning,
    plan: PhysicalPlanView,
    parameters: Seq<ValueView>,
    given: Seq<ExecRowView>,
)
    requires
        plan matches PhysicalPlanView::Sort { input, order_by } && plan_rows(
            engine,
            transaction,
            meaning,
            *input,
            parameters,
        ) == Ok::<Seq<ExecRowView>, DatabaseErrorKind>(given) && (forall|i: int, k: int|
            0 <= i < given.len() && 0 <= k < order_by.len() ==> evaluated(
                meaning,
                (#[trigger] order_by[k]).expr,
                #[trigger] given[i],
                parameters,
            ) is Ok),
    ensures
        plan_rows(engine, transaction, meaning, plan, parameters) is Ok,
{
    let order_by = plan->order_by;
    rows_get_keys(meaning, order_by, given, parameters, given.len() as int);
    let keys = row_keys(meaning, order_by, given, parameters, given.len() as int)->Ok_0;
    let before = order_of_rows(order_by);
    rows_have_keys(meaning, order_by, given, parameters, given.len() as int);
    assert forall|a: Seq<ValueView>, b: Seq<ValueView>| !(#[trigger] before(a, b) && before(
        b,
        a,
    )) by {
        row_keys_asymmetric(a, b, order_by, 0);
    }
    assert forall|a: Seq<ValueView>, b: Seq<ValueView>, c: Seq<ValueView>|
        !#[trigger] before(b, a) && !#[trigger] before(c, b) implies !before(c, a) by {
        row_keys_negatively_transitive(a, b, c, order_by, 0);
    }
    let found = stable_order_exists(before, keys);
    assert(stably_sorts(before, keys, sort_order(keys, order_by)));
}

} // verus!
