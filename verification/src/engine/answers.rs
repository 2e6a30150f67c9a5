//! A query of the engine answers the rows that it asks for, in the order that it asks for.

use vstd::prelude::*;
use crate::codec::{ordered_encoding_is_injective, ordered_encoding_preserves_order, ordered_value};
use crate::engine::error::EngineErrorKind;
use crate::engine::execution::{
    column_asymmetric, key_at, keys_asymmetric, keys_before, keys_negatively_transitive,
    order_by_keys, page, projected_rows, projected_values, query_order, selected, sort_keys,
};
use crate::engine::expression::{BinaryOp, ExprView, compared_value};
use crate::engine::query::{OrderByView, QueryView};
use crate::engine::state::EngineView;
use crate::engine::transaction::TransactionView;
use crate::order::{lex_asymmetric, strictly_below_is_lex};
use crate::sorting::{position_is_listed, stable_order_exists, stably_sorts};
use crate::types::{RowView, ValueView, comparable, comparison_is_antisymmetric, smaller};

verus! {

/// The value of a row by which a query sorts.
pub open spec fn sort_value(order_by: Seq<OrderByView>, row: RowView, k: int) -> ValueView {
    order_by[k].expression.value_on(row)->Ok_0
}

/// Two rows have the same first `n` values by which a query sorts.
pub open spec fn sorts_alike(order_by: Seq<OrderByView>, a: RowView, b: RowView, n: int) -> bool {
    forall|k: int|
        0 <= k < n ==> #[trigger] sort_value(order_by, a, k) == sort_value(order_by, b, k)
}

/// A value comes first under one key of a sort: the smaller one where the key ascends, the
/// greater one where it descends; `NULL` goes where the key puts it, whatever its direction.
pub open spec fn comes_first(a: ValueView, b: ValueView, order: OrderByView) -> bool {
    if a is Null {
        order.nulls_first
    } else if b is Null {
        !order.nulls_first
    } else if order.descending {
        smaller(b, a)
    } else {
        smaller(a, b)
    }
}

/// Rows stand in the order of a query: the first value in which two of them differ decides,
/// and rows that agree in all of them stay in the order in which they were found.
pub open spec fn in_query_order(
    order_by: Seq<OrderByView>,
    source: Seq<RowView>,
    positions: Seq<int>,
) -> bool {
    forall|p: int, q: int|
        #![trigger positions[p], positions[q]]
        0 <= p < q < positions.len() ==> {
            let (a, b) = (source[positions[p]], source[positions[q]]);
            &&& forall|k: int|
                #![trigger sort_value(order_by, a, k)]
                0 <= k < order_by.len() && sorts_alike(order_by, a, b, k) && sort_value(
                    order_by,
                    a,
                    k,
                ) != sort_value(order_by, b, k) && comparable(
                    sort_value(order_by, a, k),
                    sort_value(order_by, b, k),
                ) ==> comes_first(
                    sort_value(order_by, a, k),
                    sort_value(order_by, b, k),
                    order_by[k],
                )
            &&& sorts_alike(order_by, a, b, order_by.len() as int) ==> positions[p] < positions[q]
        }
}

/// A row passes the filter of a query.
pub open spec fn passes_filter(filter: Option<ExprView>, row: RowView) -> bool {
    filter matches Some(filter) ==> filter.holds_on(row) == Ok::<bool, EngineErrorKind>(true)
}

/// `positions` names every row that passes the filter, once.
pub open spec fn lists_passing(
    filter: Option<ExprView>,
    source: Seq<RowView>,
    positions: Seq<int>,
) -> bool {
    &&& positions.no_duplicates()
    &&& forall|i: int| #[trigger]
        positions.contains(i) <==> 0 <= i < source.len() && passes_filter(filter, source[i])
}

/// A row holds what a projection asks for; without a projection it is the row as it was.
pub open spec fn is_projected(projection: Seq<ExprView>, row: RowView, answer: RowView) -> bool {
    if projection.len() == 0 {
        answer == row
    } else {
        &&& answer.values.len() == projection.len()
        &&& forall|c: int|
            0 <= c < projection.len() ==> (#[trigger] projection[c]).value_on(row) == Ok::<
                ValueView,
                EngineErrorKind,
            >(answer.values[c])
    }
}

/// The positions among the first `n` rows that pass a filter.
spec fn passing(filter: Option<ExprView>, source: Seq<RowView>, n: int) -> Seq<int>
    decreases n,
{
    if n <= 0 {
        Seq::empty()
    } else if passes_filter(filter, source[n - 1]) {
        passing(filter, source, n - 1).push(n - 1)
    } else {
        passing(filter, source, n - 1)
    }
}

proof fn passing_rises(filter: Option<ExprView>, source: Seq<RowView>, n: int)
    requires
        0 <= n <= source.len(),
    ensures
        ({
            let kept = passing(filter, source, n);
            &&& forall|k: int| 0 <= k < kept.len() ==> 0 <= #[trigger] kept[k] < n
            &&& forall|k: int, m: int|
                0 <= k < m < kept.len() ==> #[trigger] kept[k] < #[trigger] kept[m]
            &&& forall|i: int| #[trigger]
                kept.contains(i) <==> 0 <= i < n && passes_filter(filter, source[i])
        }),
    decreases n,
{
    if n > 0 {
        passing_rises(filter, source, n - 1);
        let before = passing(filter, source, n - 1);
        let kept = passing(filter, source, n);
        assert forall|i: int| #[trigger] kept.contains(i) <==> 0 <= i < n && passes_filter(
            filter,
            source[i],
        ) by {
            assert(before.contains(i) <==> 0 <= i < n - 1 && passes_filter(filter, source[i]));
            if before.contains(i) {
                let k = before.index_of(i);
                assert(kept[k] == i);
            }
            if kept.len() > before.len() {
                assert(kept[before.len() as int] == n - 1);
            }
        }
    }
}

/// A sort key is that of a value.
spec fn key_of_value(keys: Seq<Option<Seq<u8>>>, order_by: Seq<OrderByView>, row: RowView, k: int) -> bool {
    &&& order_by[k].expression.value_on(row) is Ok
    &&& keys[k] == if sort_value(order_by, row, k) is Null {
        None
    } else {
        Some(ordered_value(sort_value(order_by, row, k)))
    }
}

proof fn keys_of_row(row: RowView, order_by: Seq<OrderByView>, n: int)
    requires
        0 <= n <= order_by.len(),
        sort_keys(row, order_by, n) is Ok,
    ensures
        sort_keys(row, order_by, n)->Ok_0.len() == n,
        forall|k: int|
            0 <= k < n ==> #[trigger] key_of_value(
                sort_keys(row, order_by, n)->Ok_0,
                order_by,
                row,
                k,
            ),
    decreases n,
{
    if n > 0 {
        keys_of_row(row, order_by, n - 1);
        let before = sort_keys(row, order_by, n - 1)->Ok_0;
        let keys = sort_keys(row, order_by, n)->Ok_0;
        assert forall|k: int| 0 <= k < n implies #[trigger] key_of_value(
            keys,
            order_by,
            row,
            k,
        ) by {
            if k < n - 1 {
                assert(key_of_value(before, order_by, row, k));
                assert(keys[k] == before[k]);
            }
        }
    }
}

proof fn selecting_keeps(
    source: Seq<RowView>,
    filter: Option<ExprView>,
    order_by: Seq<OrderByView>,
    n: int,
)
    requires
        0 <= n <= source.len(),
        selected(source, filter, order_by, n) is Ok,
    ensures
        ({
            let (chosen, keys) = selected(source, filter, order_by, n)->Ok_0;
            let kept = passing(filter, source, n);
            &&& chosen.len() == kept.len()
            &&& keys.len() == kept.len()
            &&& forall|j: int|
                0 <= j < kept.len() ==> #[trigger] chosen[j] == source[kept[j]] && sort_keys(
                    source[kept[j]],
                    order_by,
                    order_by.len() as int,
                ) == Ok::<Seq<Option<Seq<u8>>>, EngineErrorKind>(keys[j])
        }),
    decreases n,
{
    if n > 0 {
        selecting_keeps(source, filter, order_by, n - 1);
        passing_rises(filter, source, n - 1);
        let (before, before_keys) = selected(source, filter, order_by, n - 1)->Ok_0;
        let (chosen, keys) = selected(source, filter, order_by, n)->Ok_0;
        let fewer = passing(filter, source, n - 1);
        let kept = passing(filter, source, n);
        assert forall|j: int| 0 <= j < kept.len() implies #[trigger] chosen[j] == source[kept[j]]
            && sort_keys(source[kept[j]], order_by, order_by.len() as int) == Ok::<
            Seq<Option<Seq<u8>>>,
            EngineErrorKind,
        >(keys[j]) by {
            if j < fewer.len() {
                assert(chosen[j] == before[j] && keys[j] == before_keys[j] && kept[j] == fewer[j]);
            }
        }
    }
}

/// Values of one type that differ are in an order, which their encodings keep.
proof fn different_values_are_ordered(a: ValueView, b: ValueView)
    requires
        comparable(a, b),
        a !is Null,
        b !is Null,
        a != b,
    ensures
        smaller(a, b) != smaller(b, a),
        smaller(a, b) ==> crate::order::lex_lt(ordered_value(a), ordered_value(b)),
        smaller(b, a) ==> crate::order::lex_lt(ordered_value(b), ordered_value(a)),
{
    comparison_is_antisymmetric(a, b);
    ordered_encoding_is_injective(a, b);
    if a.precedes(b) {
        ordered_encoding_preserves_order(a, b);
        strictly_below_is_lex(ordered_value(a), ordered_value(b));
    }
    if b.precedes(a) {
        ordered_encoding_preserves_order(b, a);
        strictly_below_is_lex(ordered_value(b), ordered_value(a));
    }
}

proof fn first_difference_decides(
    order_by: Seq<OrderByView>,
    a: RowView,
    b: RowView,
    x: Seq<Option<Seq<u8>>>,
    y: Seq<Option<Seq<u8>>>,
    i: int,
    k: int,
)
    requires
        0 <= i <= k < order_by.len(),
        x.len() == order_by.len(),
        y.len() == order_by.len(),
        forall|m: int| 0 <= m < order_by.len() ==> #[trigger] key_of_value(x, order_by, a, m),
        forall|m: int| 0 <= m < order_by.len() ==> #[trigger] key_of_value(y, order_by, b, m),
        sorts_alike(order_by, a, b, k),
        sort_value(order_by, a, k) != sort_value(order_by, b, k),
        comparable(sort_value(order_by, a, k), sort_value(order_by, b, k)),
        !keys_before(y, x, order_by, i),
    ensures
        comes_first(sort_value(order_by, a, k), sort_value(order_by, b, k), order_by[k]),
    decreases k - i,
{
    assert(key_of_value(x, order_by, a, i) && key_of_value(y, order_by, b, i));
    assert(key_at(x, i) == x[i] && key_at(y, i) == y[i]);
    let order = order_by[i];
    column_asymmetric(x[i], y[i], order.descending, order.nulls_first);
    if i < k {
        assert(sort_value(order_by, a, i) == sort_value(order_by, b, i));
        first_difference_decides(order_by, a, b, x, y, i + 1, k);
    } else {
        let (u, v) = (sort_value(order_by, a, k), sort_value(order_by, b, k));
        if u !is Null && v !is Null {
            different_values_are_ordered(u, v);
            lex_asymmetric(ordered_value(u), ordered_value(v));
        }
    }
}

proof fn alike_rows_are_not_told_apart(
    order_by: Seq<OrderByView>,
    x: Seq<Option<Seq<u8>>>,
    i: int,
)
    requires
        0 <= i,
    ensures
        !keys_before(x, x, order_by, i),
    decreases order_by.len() - i,
{
    if i < order_by.len() {
        let order = order_by[i];
        column_asymmetric(key_at(x, i), key_at(x, i), order.descending, order.nulls_first);
        alike_rows_are_not_told_apart(order_by, x, i + 1);
    }
}

proof fn projecting_values(row: RowView, projection: Seq<ExprView>, n: int)
    requires
        0 <= n <= projection.len(),
        projected_values(row, projection, n) is Ok,
    ensures
        projected_values(row, projection, n)->Ok_0.len() == n,
        ({
            let values = projected_values(row, projection, n)->Ok_0;
            forall|c: int|
                0 <= c < n ==> (#[trigger] projection[c]).value_on(row) == Ok::<
                    ValueView,
                    EngineErrorKind,
                >(values[c])
        }),
    decreases n,
{
    if n > 0 {
        projecting_values(row, projection, n - 1);
        let before = projected_values(row, projection, n - 1)->Ok_0;
        let values = projected_values(row, projection, n)->Ok_0;
        assert forall|c: int| 0 <= c < n implies (#[trigger] projection[c]).value_on(row) == Ok::<
            ValueView,
            EngineErrorKind,
        >(values[c]) by {
            if c < n - 1 {
                assert(values[c] == before[c]);
            }
        }
    }
}

proof fn projecting_rows(
    rows: Seq<RowView>,
    picked: Seq<int>,
    projection: Seq<ExprView>,
    n: int,
)
    requires
        0 <= n <= picked.len(),
        projected_rows(rows, picked, projection, n) is Ok,
    ensures
        ({
            let done = projected_rows(rows, picked, projection, n)->Ok_0;
            &&& done.len() == n
            &&& forall|k: int|
                0 <= k < n ==> is_projected(projection, rows[picked[k]], #[trigger] done[k])
        }),
    decreases n,
{
    if n > 0 {
        projecting_rows(rows, picked, projection, n - 1);
        let before = projected_rows(rows, picked, projection, n - 1)->Ok_0;
        let done = projected_rows(rows, picked, projection, n)->Ok_0;
        let row = rows[picked[n - 1]];
        if projection.len() > 0 {
            projecting_values(row, projection, projection.len() as int);
        }
        assert(is_projected(projection, row, done[n - 1]));
        assert forall|k: int| 0 <= k < n implies is_projected(
            projection,
            rows[picked[k]],
            #[trigger] done[k],
        ) by {
            if k < n - 1 {
                assert(done[k] == before[k]);
            }
        }
    }
}

/// A query answers the rows of its source that pass its filter, in its order, without the
/// first ones that it skips and no more than it allows, each through its projection.
pub proof fn queries_answer_what_they_ask(
    engine: EngineView,
    transaction: TransactionView,
    query: QueryView,
    source: Seq<RowView>,
    rows: Seq<RowView>,
)
    requires
        engine.source_rows(transaction, query.source) == Ok::<Seq<RowView>, EngineErrorKind>(
            source,
        ),
        engine.answered(transaction, query) == Ok::<Seq<RowView>, EngineErrorKind>(rows),
    ensures
        exists|positions: Seq<int>| #[trigger]
            lists_passing(query.filter, source, positions) && in_query_order(
                query.order_by,
                source,
                positions,
            ) && ({
                let left = if query.offset < positions.len() {
                    positions.len() - query.offset
                } else {
                    0
                };
                &&& rows.len() == (match query.limit {
                    Some(limit) => if limit < left {
                        limit as int
                    } else {
                        left
                    },
                    None => left,
                })
                &&& forall|k: int|
                    0 <= k < rows.len() ==> is_projected(
                        query.projection,
                        source[positions[query.offset + k]],
                        #[trigger] rows[k],
                    )
            }),
{
    let order_by = query.order_by;
    let n = source.len() as int;
    let (chosen, keys) = selected(source, query.filter, order_by, n)->Ok_0;
    let kept = passing(query.filter, source, n);
    passing_rises(query.filter, source, n);
    selecting_keeps(source, query.filter, order_by, n);
    let before = order_by_keys(order_by);
    assert forall|a: Seq<Option<Seq<u8>>>, b: Seq<Option<Seq<u8>>>| !(#[trigger] before(a, b)
        && before(b, a)) by {
        keys_asymmetric(a, b, order_by, 0);
    }
    assert forall|a: Seq<Option<Seq<u8>>>, b: Seq<Option<Seq<u8>>>, c: Seq<Option<Seq<u8>>>|
        !#[trigger] before(b, a) && !#[trigger] before(c, b) implies !before(c, a) by {
        keys_negatively_transitive(a, b, c, order_by, 0);
    }
    let found = stable_order_exists(before, keys);
    let order = query_order(keys, order_by);
    assert(stably_sorts(before, keys, order));
    let positions = Seq::new(order.len(), |p: int| kept[order[p]]);
    assert forall|i: int| #[trigger] positions.contains(i) <==> 0 <= i < n && passes_filter(
        query.filter,
        source[i],
    ) by {
        if positions.contains(i) {
            let p = positions.index_of(i);
            assert(kept[order[p]] == i);
            assert(kept.contains(i));
        }
        if 0 <= i < n && passes_filter(query.filter, source[i]) {
            assert(kept.contains(i));
            let j = kept.index_of(i);
            position_is_listed(order, order.len() as int, j);
            let p = order.index_of(j);
            assert(positions[p] == i);
        }
    }
    assert forall|p: int, q: int|
        0 <= p < positions.len() && 0 <= q < positions.len() && p != q implies positions[p]
        != positions[q] by {
        assert(order[p] != order[q]) by {
            if p < q {
                assert(order[p] != order[q]);
            } else {
                assert(order[q] != order[p]);
            }
        }
        if order[p] < order[q] {
            assert(kept[order[p]] < kept[order[q]]);
        } else {
            assert(kept[order[q]] < kept[order[p]]);
        }
    }
    assert(positions.no_duplicates());
    assert(lists_passing(query.filter, source, positions));
    assert forall|p: int, q: int|
        #![trigger positions[p], positions[q]]
        0 <= p < q < positions.len() implies ({
        let (a, b) = (source[positions[p]], source[positions[q]]);
        &&& forall|k: int|
            #![trigger sort_value(order_by, a, k)]
            0 <= k < order_by.len() && sorts_alike(order_by, a, b, k) && sort_value(
                order_by,
                a,
                k,
            ) != sort_value(order_by, b, k) && comparable(
                sort_value(order_by, a, k),
                sort_value(order_by, b, k),
            ) ==> comes_first(
                sort_value(order_by, a, k),
                sort_value(order_by, b, k),
                order_by[k],
            )
        &&& sorts_alike(order_by, a, b, order_by.len() as int) ==> positions[p] < positions[q]
    }) by {
        let (a, b) = (source[positions[p]], source[positions[q]]);
        let (x, y) = (keys[order[p]], keys[order[q]]);
        assert(chosen[order[p]] == a && chosen[order[q]] == b);
        keys_of_row(a, order_by, order_by.len() as int);
        keys_of_row(b, order_by, order_by.len() as int);
        assert(!before(y, x));
        assert forall|k: int|
            #![trigger sort_value(order_by, a, k)]
            0 <= k < order_by.len() && sorts_alike(order_by, a, b, k) && sort_value(
                order_by,
                a,
                k,
            ) != sort_value(order_by, b, k) && comparable(
                sort_value(order_by, a, k),
                sort_value(order_by, b, k),
            ) implies comes_first(
            sort_value(order_by, a, k),
            sort_value(order_by, b, k),
            order_by[k],
        ) by {
            first_difference_decides(order_by, a, b, x, y, 0, k);
        }
        if sorts_alike(order_by, a, b, order_by.len() as int) {
            assert forall|m: int| 0 <= m < order_by.len() implies x[m] == y[m] by {
                assert(key_of_value(x, order_by, a, m) && key_of_value(y, order_by, b, m));
                assert(sort_value(order_by, a, m) == sort_value(order_by, b, m));
            }
            assert(x =~= y);
            alike_rows_are_not_told_apart(order_by, x, 0);
            assert(before(x, y) || order[p] < order[q]);
            assert(kept[order[p]] < kept[order[q]]);
        }
    }
    let picked = page(order, query.offset, query.limit);
    projecting_rows(chosen, picked, query.projection, picked.len() as int);
    assert forall|k: int| 0 <= k < rows.len() implies is_projected(
        query.projection,
        source[positions[query.offset + k]],
        #[trigger] rows[k],
    ) by {
        assert(picked[k] == order[query.offset + k]);
        assert(chosen[picked[k]] == source[kept[picked[k]]]);
    }
}

/// A comparison of two values of one type says whether they are equal, or which of them is
/// the smaller one.
pub proof fn comparisons_compare(left: ValueView, right: ValueView)
    requires
        comparable(left, right),
        left !is Null,
        right !is Null,
    ensures
        compared_value(left, BinaryOp::Eq, right) == Ok::<ValueView, EngineErrorKind>(
            ValueView::Bool(left == right),
        ),
        compared_value(left, BinaryOp::NotEq, right) == Ok::<ValueView, EngineErrorKind>(
            ValueView::Bool(left != right),
        ),
        compared_value(left, BinaryOp::Less, right) == Ok::<ValueView, EngineErrorKind>(
            ValueView::Bool(smaller(left, right)),
        ),
        compared_value(left, BinaryOp::LessEq, right) == Ok::<ValueView, EngineErrorKind>(
            ValueView::Bool(left == right || smaller(left, right)),
        ),
        compared_value(left, BinaryOp::Greater, right) == Ok::<ValueView, EngineErrorKind>(
            ValueView::Bool(smaller(right, left)),
        ),
        compared_value(left, BinaryOp::GreaterEq, right) == Ok::<ValueView, EngineErrorKind>(
            ValueView::Bool(left == right || smaller(right, left)),
        ),
{
    comparison_is_antisymmetric(left, right);
    if left != right {
        different_values_are_ordered(left, right);
    } else {
        if let ValueView::Text(x) = left {
            crate::order::lex_irreflexive(vstd::utf8::encode_utf8(x));
        }
        if let ValueView::Bytes(x) = left {
            crate::order::lex_irreflexive(x);
        }
    }
}

} // verus!
