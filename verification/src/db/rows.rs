//! The operators of a query: filter, projection, sort and aggregation.

use vstd::prelude::*;
use vstd::utf8::encode_utf8;
use crate::codec::row_encoding;
use crate::db::error::{DatabaseErrorKind, Result};
use crate::db::scalar::{
    Computed, ComputedView, ExecRow, ExecRowView, Meaning, Scalars, constraint_problem, evaluated,
    predicate_holds, type_problem,
};
use crate::db::sql::{
    AggregateFunction, BoundExpr, BoundExprView, BoundOrder, BoundOrderView, OrderDirection,
    OutputColumn, OutputColumnView, SqlError,
};
use crate::engine::error::EngineErrorKind;
use crate::model::{Model, outcome};
use crate::order::{bytes_before, lex_irreflexive, lex_lt, lex_total, lex_transitive};
use crate::ordmap::{OrdMap, ordered};
use crate::sorting::{
    Ranking, positions, ranking_order, stable_order, stable_order_is_unique, stably_sorts,
};
use crate::types::{Row, RowView, Value, ValueView};

verus! {

broadcast use crate::model::group_contents;

/// The values of the first `n` expressions on a row.
pub open spec fn all_evaluated(
    meaning: Meaning,
    expressions: Seq<BoundExprView>,
    row: ExecRowView,
    parameters: Seq<ValueView>,
    n: int,
) -> std::result::Result<Seq<ValueView>, DatabaseErrorKind>
    decreases n,
{
    if n <= 0 {
        Ok(Seq::empty())
    } else {
        match all_evaluated(meaning, expressions, row, parameters, n - 1) {
            Err(error) => Err(error),
            Ok(values) => match evaluated(meaning, expressions[n - 1], row, parameters) {
                Err(error) => Err(error),
                Ok(value) => Ok(values.push(value)),
            },
        }
    }
}

proof fn all_evaluated_stops(
    meaning: Meaning,
    expressions: Seq<BoundExprView>,
    row: ExecRowView,
    parameters: Seq<ValueView>,
    m: int,
    n: int,
)
    requires
        0 <= m <= n,
        all_evaluated(meaning, expressions, row, parameters, m) is Err,
    ensures
        all_evaluated(meaning, expressions, row, parameters, n) == all_evaluated(
            meaning,
            expressions,
            row,
            parameters,
            m,
        ),
    decreases n,
{
    if m < n {
        all_evaluated_stops(meaning, expressions, row, parameters, m, n - 1);
    }
}

/// A row that has only values.
pub open spec fn plain_row(row: RowView) -> ExecRowView {
    ExecRowView { row, aggregates: Seq::empty() }
}

/// Rows that have only values.
pub open spec fn plain_rows(rows: Seq<RowView>) -> Seq<ExecRowView> {
    Seq::new(rows.len(), |i: int| plain_row(rows[i]))
}

/// The row without values, on which constant expressions are evaluated.
pub open spec fn empty_row() -> ExecRowView {
    plain_row(RowView { values: Seq::empty() })
}

impl ExecRow {
    /// A row that has only values.
    pub fn plain(row: Row) -> (exec: ExecRow)
        ensures
            exec.deep_view() == plain_row(row.deep_view()),
    {
        let aggregates: Vec<Computed> = Vec::new();
        assert(aggregates.deep_view() =~= Seq::empty());
        ExecRow { row, aggregates }
    }

    /// The row without values.
    pub fn empty() -> (exec: ExecRow)
        ensures
            exec.deep_view() == empty_row(),
    {
        let values: Vec<Value> = Vec::new();
        assert(values.deep_view() =~= Seq::empty());
        ExecRow::plain(Row { values })
    }
}

/// Rows that have only values.
pub(crate) fn plain_exec_rows(rows: &Vec<Row>) -> (exec: Vec<ExecRow>)
    ensures
        exec.deep_view() == plain_rows(rows.deep_view()),
{
    let ghost view = rows.deep_view();
    let mut exec: Vec<ExecRow> = Vec::with_capacity(rows.len());
    let mut i: usize = 0;
    while i < rows.len()
        invariant
            i <= rows@.len(),
            view == rows.deep_view(),
            exec@.len() == i,
            forall|j: int| 0 <= j < i ==> (#[trigger] exec@[j]).deep_view() == plain_row(view[j]),
        decreases rows@.len() - i,
    {
        exec.push(ExecRow::plain(rows[i].duplicate()));
        i = i + 1;
    }
    assert(exec.deep_view() =~= plain_rows(view));
    exec
}

/// The rows of rows under way.
pub open spec fn bare_rows(rows: Seq<ExecRowView>) -> Seq<RowView> {
    Seq::new(rows.len(), |i: int| rows[i].row)
}

/// Those of the first `n` rows on which a predicate holds.
pub open spec fn filtered(
    meaning: Meaning,
    predicate: BoundExprView,
    rows: Seq<ExecRowView>,
    parameters: Seq<ValueView>,
    n: int,
) -> std::result::Result<Seq<ExecRowView>, DatabaseErrorKind>
    decreases n,
{
    if n <= 0 {
        Ok(Seq::empty())
    } else {
        match filtered(meaning, predicate, rows, parameters, n - 1) {
            Err(error) => Err(error),
            Ok(kept) => match predicate_holds(meaning, predicate, rows[n - 1], parameters) {
                Err(error) => Err(error),
                Ok(true) => Ok(kept.push(rows[n - 1])),
                Ok(false) => Ok(kept),
            },
        }
    }
}

proof fn filtered_stops(
    meaning: Meaning,
    predicate: BoundExprView,
    rows: Seq<ExecRowView>,
    parameters: Seq<ValueView>,
    m: int,
    n: int,
)
    requires
        0 <= m <= n,
        filtered(meaning, predicate, rows, parameters, m) is Err,
    ensures
        filtered(meaning, predicate, rows, parameters, n) == filtered(
            meaning,
            predicate,
            rows,
            parameters,
            m,
        ),
    decreases n,
{
    if m < n {
        filtered_stops(meaning, predicate, rows, parameters, m, n - 1);
    }
}

/// The expressions of output columns.
pub open spec fn output_expressions(columns: Seq<OutputColumnView>) -> Seq<BoundExprView> {
    Seq::new(columns.len(), |i: int| columns[i].expr)
}

/// The first `n` rows through a projection.
pub open spec fn projected(
    meaning: Meaning,
    columns: Seq<OutputColumnView>,
    rows: Seq<ExecRowView>,
    parameters: Seq<ValueView>,
    n: int,
) -> std::result::Result<Seq<ExecRowView>, DatabaseErrorKind>
    decreases n,
{
    if n <= 0 {
        Ok(Seq::empty())
    } else {
        match projected(meaning, columns, rows, parameters, n - 1) {
            Err(error) => Err(error),
            Ok(done) => match all_evaluated(
                meaning,
                output_expressions(columns),
                rows[n - 1],
                parameters,
                columns.len() as int,
            ) {
                Err(error) => Err(error),
                Ok(values) => Ok(done.push(plain_row(RowView { values }))),
            },
        }
    }
}

proof fn projected_stops(
    meaning: Meaning,
    columns: Seq<OutputColumnView>,
    rows: Seq<ExecRowView>,
    parameters: Seq<ValueView>,
    m: int,
    n: int,
)
    requires
        0 <= m <= n,
        projected(meaning, columns, rows, parameters, m) is Err,
    ensures
        projected(meaning, columns, rows, parameters, n) == projected(
            meaning,
            columns,
            rows,
            parameters,
            m,
        ),
    decreases n,
{
    if m < n {
        projected_stops(meaning, columns, rows, parameters, m, n - 1);
    }
}

/// Where the type of a value stands in a sort; `NULL` comes last.
pub open spec fn type_place(value: ValueView) -> int {
    match value {
        ValueView::Int64(_) => 0,
        ValueView::Bool(_) => 1,
        ValueView::Text(_) => 2,
        ValueView::Bytes(_) => 3,
        ValueView::Null => 4,
    }
}

/// `a` comes before `b` in an ascending sort: values of one type by their
/// order, others by type, and `NULL` last.
pub open spec fn sorts_before(a: ValueView, b: ValueView) -> bool {
    if type_place(a) != type_place(b) {
        type_place(a) < type_place(b)
    } else {
        a.precedes(b)
    }
}

/// `a` comes before `b` by the keys of a sort from the `i`-th on.
pub open spec fn row_keys_before(
    a: Seq<ValueView>,
    b: Seq<ValueView>,
    order_by: Seq<BoundOrderView>,
    i: int,
) -> bool
    decreases order_by.len() - i,
{
    if i >= order_by.len() || i < 0 {
        false
    } else {
        let (x, y) = (sort_key_at(a, i), sort_key_at(b, i));
        let ascending = order_by[i].direction == OrderDirection::Asc;
        if sorts_before(x, y) {
            ascending
        } else if sorts_before(y, x) {
            !ascending
        } else {
            row_keys_before(a, b, order_by, i + 1)
        }
    }
}

/// The `i`-th key of a row.
pub open spec fn sort_key_at(keys: Seq<ValueView>, i: int) -> ValueView {
    if i < keys.len() {
        keys[i]
    } else {
        ValueView::Null
    }
}

/// The order that a sort asks for.
pub open spec fn order_of_rows(order_by: Seq<BoundOrderView>) -> spec_fn(
    Seq<ValueView>,
    Seq<ValueView>,
) -> bool {
    |a: Seq<ValueView>, b: Seq<ValueView>| row_keys_before(a, b, order_by, 0)
}

/// The expressions of sort keys.
pub open spec fn order_expressions(order_by: Seq<BoundOrderView>) -> Seq<BoundExprView> {
    Seq::new(order_by.len(), |i: int| order_by[i].expr)
}

/// The sort keys of the first `n` rows.
pub open spec fn row_keys(
    meaning: Meaning,
    order_by: Seq<BoundOrderView>,
    rows: Seq<ExecRowView>,
    parameters: Seq<ValueView>,
    n: int,
) -> std::result::Result<Seq<Seq<ValueView>>, DatabaseErrorKind>
    decreases n,
{
    if n <= 0 {
        Ok(Seq::empty())
    } else {
        match row_keys(meaning, order_by, rows, parameters, n - 1) {
            Err(error) => Err(error),
            Ok(keys) => match all_evaluated(
                meaning,
                order_expressions(order_by),
                rows[n - 1],
                parameters,
                order_by.len() as int,
            ) {
                Err(error) => Err(error),
                Ok(values) => Ok(keys.push(values)),
            },
        }
    }
}

proof fn row_keys_stop(
    meaning: Meaning,
    order_by: Seq<BoundOrderView>,
    rows: Seq<ExecRowView>,
    parameters: Seq<ValueView>,
    m: int,
    n: int,
)
    requires
        0 <= m <= n,
        row_keys(meaning, order_by, rows, parameters, m) is Err,
    ensures
        row_keys(meaning, order_by, rows, parameters, n) == row_keys(
            meaning,
            order_by,
            rows,
            parameters,
            m,
        ),
    decreases n,
{
    if m < n {
        row_keys_stop(meaning, order_by, rows, parameters, m, n - 1);
    }
}

proof fn row_keys_len(
    meaning: Meaning,
    order_by: Seq<BoundOrderView>,
    rows: Seq<ExecRowView>,
    parameters: Seq<ValueView>,
    n: int,
)
    requires
        0 <= n,
        row_keys(meaning, order_by, rows, parameters, n) is Ok,
    ensures
        row_keys(meaning, order_by, rows, parameters, n)->Ok_0.len() == n,
    decreases n,
{
    if n > 0 {
        row_keys_len(meaning, order_by, rows, parameters, n - 1);
    }
}

/// The stable order of rows by their sort keys.
pub open spec fn sort_order(keys: Seq<Seq<ValueView>>, order_by: Seq<BoundOrderView>) -> Seq<int> {
    choose|order: Seq<int>| #[trigger] stably_sorts(order_of_rows(order_by), keys, order)
}

/// Rows in the order that a sort asks for.
pub open spec fn sorted(
    meaning: Meaning,
    order_by: Seq<BoundOrderView>,
    rows: Seq<ExecRowView>,
    parameters: Seq<ValueView>,
) -> std::result::Result<Seq<ExecRowView>, DatabaseErrorKind> {
    match row_keys(meaning, order_by, rows, parameters, rows.len() as int) {
        Err(error) => Err(error),
        Ok(keys) => {
            let order = sort_order(keys, order_by);
            Ok(Seq::new(order.len(), |i: int| rows[order[i]]))
        },
    }
}

struct SortRanking<'a> {
    order_by: &'a Vec<BoundOrder>,
}

pub(crate) proof fn sorts_before_is_strict(a: ValueView, b: ValueView)
    ensures
        !(sorts_before(a, b) && sorts_before(b, a)),
        !sorts_before(a, a),
{
    match (a, b) {
        (ValueView::Text(x), ValueView::Text(y)) => {
            lex_irreflexive(encode_utf8(x));
            if lex_lt(encode_utf8(x), encode_utf8(y)) && lex_lt(encode_utf8(y), encode_utf8(x)) {
                lex_transitive(encode_utf8(x), encode_utf8(y), encode_utf8(x));
            }
        },
        (ValueView::Bytes(x), ValueView::Bytes(y)) => {
            lex_irreflexive(x);
            if lex_lt(x, y) && lex_lt(y, x) {
                lex_transitive(x, y, x);
            }
        },
        _ => {
            match a {
                ValueView::Text(x) => {
                    lex_irreflexive(encode_utf8(x));
                },
                ValueView::Bytes(x) => {
                    lex_irreflexive(x);
                },
                _ => {},
            }
        },
    }
}

/// Values that a sort does not tell apart are told apart from others alike.
pub(crate) proof fn sorts_before_is_transitive(a: ValueView, b: ValueView, c: ValueView)
    ensures
        sorts_before(a, b) && sorts_before(b, c) ==> sorts_before(a, c),
        !sorts_before(b, a) && !sorts_before(c, b) ==> !sorts_before(c, a),
        !sorts_before(a, b) && !sorts_before(b, a) ==> sorts_before(a, c) == sorts_before(b, c)
            && sorts_before(c, a) == sorts_before(c, b),
{
    match (a, b, c) {
        (ValueView::Text(x), ValueView::Text(y), ValueView::Text(z)) => {
            lex_is_weak(encode_utf8(x), encode_utf8(y), encode_utf8(z));
        },
        (ValueView::Bytes(x), ValueView::Bytes(y), ValueView::Bytes(z)) => {
            lex_is_weak(x, y, z);
        },
        _ => {},
    }
}

proof fn lex_is_weak(x: Seq<u8>, y: Seq<u8>, z: Seq<u8>)
    ensures
        lex_lt(x, y) && lex_lt(y, z) ==> lex_lt(x, z),
        !lex_lt(y, x) && !lex_lt(z, y) ==> !lex_lt(z, x),
        !lex_lt(x, y) && !lex_lt(y, x) ==> lex_lt(x, z) == lex_lt(y, z) && lex_lt(z, x) == lex_lt(
            z,
            y,
        ),
{
    if lex_lt(x, y) && lex_lt(y, z) {
        lex_transitive(x, y, z);
    }
    lex_total(x, y);
    lex_total(y, z);
    lex_total(x, z);
    if lex_lt(z, x) && lex_lt(x, y) {
        lex_transitive(z, x, y);
    }
}

pub(crate) proof fn row_keys_asymmetric(
    a: Seq<ValueView>,
    b: Seq<ValueView>,
    order_by: Seq<BoundOrderView>,
    i: int,
)
    requires
        0 <= i,
    ensures
        !(row_keys_before(a, b, order_by, i) && row_keys_before(b, a, order_by, i)),
    decreases order_by.len() - i,
{
    if i < order_by.len() {
        sorts_before_is_strict(sort_key_at(a, i), sort_key_at(b, i));
        row_keys_asymmetric(a, b, order_by, i + 1);
    }
}

pub(crate) proof fn row_keys_negatively_transitive(
    a: Seq<ValueView>,
    b: Seq<ValueView>,
    c: Seq<ValueView>,
    order_by: Seq<BoundOrderView>,
    i: int,
)
    requires
        0 <= i,
        !row_keys_before(b, a, order_by, i),
        !row_keys_before(c, b, order_by, i),
    ensures
        !row_keys_before(c, a, order_by, i),
    decreases order_by.len() - i,
{
    if i < order_by.len() {
        let (x, y, z) = (sort_key_at(a, i), sort_key_at(b, i), sort_key_at(c, i));
        sorts_before_is_strict(x, y);
        sorts_before_is_strict(y, z);
        sorts_before_is_strict(x, z);
        sorts_before_is_transitive(x, y, z);
        sorts_before_is_transitive(z, y, x);
        if !sorts_before(x, y) && !sorts_before(y, x) && !sorts_before(y, z) && !sorts_before(
            z,
            y,
        ) {
            row_keys_negatively_transitive(a, b, c, order_by, i + 1);
        }
    }
}

fn value_sorts_before(a: &Value, b: &Value) -> (before: bool)
    ensures
        before == sorts_before(a.deep_view(), b.deep_view()),
{
    match (a, b) {
        (Value::Int64(x), Value::Int64(y)) => *x < *y,
        (Value::Bool(x), Value::Bool(y)) => !*x && *y,
        (Value::Text(x), Value::Text(y)) => bytes_before(
            x.as_str().as_bytes(),
            y.as_str().as_bytes(),
        ),
        (Value::Bytes(x), Value::Bytes(y)) => bytes_before(x.as_slice(), y.as_slice()),
        (Value::Null, _) => false,
        (_, Value::Null) => true,
        (Value::Int64(_), _) => true,
        (_, Value::Int64(_)) => false,
        (Value::Bool(_), _) => true,
        (_, Value::Bool(_)) => false,
        (Value::Text(_), Value::Bytes(_)) => true,
        (Value::Bytes(_), Value::Text(_)) => false,
    }
}

impl<'a> Ranking for SortRanking<'a> {
    type Item = Vec<Value>;

    closed spec fn ranks_before(&self, a: Seq<ValueView>, b: Seq<ValueView>) -> bool {
        row_keys_before(a, b, self.order_by.deep_view(), 0)
    }

    proof fn asymmetric(&self, a: Seq<ValueView>, b: Seq<ValueView>) {
        row_keys_asymmetric(a, b, self.order_by.deep_view(), 0);
    }

    proof fn negatively_transitive(
        &self,
        a: Seq<ValueView>,
        b: Seq<ValueView>,
        c: Seq<ValueView>,
    ) {
        row_keys_negatively_transitive(a, b, c, self.order_by.deep_view(), 0);
    }

    fn is_before(&self, a: &Vec<Value>, b: &Vec<Value>) -> (before: bool) {
        let ghost order_by = self.order_by.deep_view();
        let ghost x = a.deep_view();
        let ghost y = b.deep_view();
        let null = Value::Null;
        let mut i: usize = 0;
        while i < self.order_by.len()
            invariant
                i <= self.order_by@.len(),
                order_by == self.order_by.deep_view(),
                x == a.deep_view(),
                y == b.deep_view(),
                null.deep_view() is Null,
                row_keys_before(x, y, order_by, 0) == row_keys_before(x, y, order_by, i as int),
            decreases self.order_by@.len() - i,
        {
            let order = &self.order_by[i];
            assert(order_by[i as int] == order.deep_view());
            let left: &Value = if i < a.len() {
                &a[i]
            } else {
                &null
            };
            let right: &Value = if i < b.len() {
                &b[i]
            } else {
                &null
            };
            let ascending = order.direction == OrderDirection::Asc;
            if value_sorts_before(left, right) {
                return ascending;
            }
            if value_sorts_before(right, left) {
                return !ascending;
            }
            i = i + 1;
        }
        false
    }
}

/// The key of a row's group.
pub open spec fn group_key(
    meaning: Meaning,
    group_by: Seq<BoundExprView>,
    row: ExecRowView,
    parameters: Seq<ValueView>,
) -> std::result::Result<Seq<u8>, DatabaseErrorKind> {
    match all_evaluated(meaning, group_by, row, parameters, group_by.len() as int) {
        Err(error) => Err(error),
        Ok(values) => match row_encoding(RowView { values }) {
            Err(error) => Err(DatabaseErrorKind::Engine(EngineErrorKind::Core(error))),
            Ok(key) => Ok(key),
        },
    }
}

/// The keys of the groups of the first `n` rows.
pub open spec fn group_keys(
    meaning: Meaning,
    group_by: Seq<BoundExprView>,
    rows: Seq<ExecRowView>,
    parameters: Seq<ValueView>,
    n: int,
) -> std::result::Result<Seq<Option<Seq<u8>>>, DatabaseErrorKind>
    decreases n,
{
    if n <= 0 {
        Ok(Seq::empty())
    } else {
        match group_keys(meaning, group_by, rows, parameters, n - 1) {
            Err(error) => Err(error),
            Ok(keys) => match group_key(meaning, group_by, rows[n - 1], parameters) {
                Err(error) => Err(error),
                Ok(key) => Ok(keys.push(Some(key))),
            },
        }
    }
}

pub(crate) proof fn group_keys_stop(
    meaning: Meaning,
    group_by: Seq<BoundExprView>,
    rows: Seq<ExecRowView>,
    parameters: Seq<ValueView>,
    m: int,
    n: int,
)
    requires
        0 <= m <= n,
        group_keys(meaning, group_by, rows, parameters, m) is Err,
    ensures
        group_keys(meaning, group_by, rows, parameters, n) == group_keys(
            meaning,
            group_by,
            rows,
            parameters,
            m,
        ),
    decreases n,
{
    if m < n {
        group_keys_stop(meaning, group_by, rows, parameters, m, n - 1);
    }
}

pub(crate) proof fn group_keys_len(
    meaning: Meaning,
    group_by: Seq<BoundExprView>,
    rows: Seq<ExecRowView>,
    parameters: Seq<ValueView>,
    n: int,
)
    requires
        0 <= n,
        group_keys(meaning, group_by, rows, parameters, n) is Ok,
    ensures
        group_keys(meaning, group_by, rows, parameters, n)->Ok_0.len() == n,
    decreases n,
{
    if n > 0 {
        group_keys_len(meaning, group_by, rows, parameters, n - 1);
    }
}

/// The positions among the first `n` that carry a key, in order.
pub open spec fn positions_with(keys: Seq<Option<Seq<u8>>>, key: Seq<u8>, n: int) -> Seq<usize>
    decreases n,
{
    if n <= 0 {
        Seq::empty()
    } else if keys[n - 1] == Some(key) {
        positions_with(keys, key, n - 1).push((n - 1) as usize)
    } else {
        positions_with(keys, key, n - 1)
    }
}

proof fn positions_with_bounds(keys: Seq<Option<Seq<u8>>>, key: Seq<u8>, n: int)
    requires
        0 <= n <= keys.len(),
        n <= usize::MAX,
    ensures
        forall|i: int|
            0 <= i < positions_with(keys, key, n).len() ==> (#[trigger] positions_with(
                keys,
                key,
                n,
            )[i]) < n,
        positions_with(keys, key, n).len() > 0 <==> exists|i: int|
            0 <= i < n && #[trigger] keys[i] == Some(key),
    decreases n,
{
    if n > 0 {
        positions_with_bounds(keys, key, n - 1);
        if keys[n - 1] == Some(key) {
            assert(positions_with(keys, key, n).len() > 0);
        } else if exists|i: int| 0 <= i < n && #[trigger] keys[i] == Some(key) {
            let i = choose|i: int| 0 <= i < n && #[trigger] keys[i] == Some(key);
            assert(i < n - 1);
        }
    }
}

/// The keys that occur.
pub open spec fn keys_seen(keys: Seq<Option<Seq<u8>>>) -> Set<Seq<u8>> {
    Set::new(|key: Seq<u8>| positions_with(keys, key, keys.len() as int).len() > 0)
}

/// Positions by key.
pub(crate) fn bucketed(keys: &Vec<Option<Vec<u8>>>) -> (buckets: OrdMap<Vec<u8>, Vec<usize>>)
    ensures
        buckets.deep_view().dom() == keys_seen(keys.deep_view()),
        forall|key: Seq<u8>| #[trigger]
            buckets.deep_view().contains_key(key) ==> buckets.deep_view()[key] == positions_with(
                keys.deep_view(),
                key,
                keys@.len() as int,
            ),
        forall|key: Seq<u8>, i: int|
            #![trigger positions_with(keys.deep_view(), key, keys@.len() as int)[i]]
            0 <= i < positions_with(keys.deep_view(), key, keys@.len() as int).len()
                ==> positions_with(keys.deep_view(), key, keys@.len() as int)[i] < keys@.len(),
{
    let ghost view = keys.deep_view();
    let mut buckets: OrdMap<Vec<u8>, Vec<usize>> = OrdMap::new();
    let mut i: usize = 0;
    while i < keys.len()
        invariant
            i <= keys@.len(),
            view == keys.deep_view(),
            forall|key: Seq<u8>| #[trigger]
                buckets.deep_view().contains_key(key) <==> positions_with(
                    view,
                    key,
                    i as int,
                ).len() > 0,
            forall|key: Seq<u8>| #[trigger]
                buckets.deep_view().contains_key(key) ==> buckets.deep_view()[key]
                    == positions_with(view, key, i as int),
        decreases keys@.len() - i,
    {
        assert(view[i as int] == keys@[i as int].deep_view());
        let ghost before = buckets.deep_view();
        if let Some(key) = &keys[i] {
            let ghost name = key@;
            let mut bucket = match buckets.remove(key) {
                Some(bucket) => bucket,
                None => Vec::new(),
            };
            let ghost old_bucket = bucket.deep_view();
            assert(old_bucket =~= positions_with(view, name, i as int));
            bucket.push(i);
            assert(bucket.deep_view() =~= old_bucket.push(i));
            buckets.insert(key.duplicate(), bucket);
            proof {
                assert forall|other: Seq<u8>| #[trigger]
                    buckets.deep_view().contains_key(other) <==> positions_with(
                        view,
                        other,
                        i + 1,
                    ).len() > 0 by {
                    if other != name {
                        assert(before.contains_key(other) == buckets.deep_view().contains_key(
                            other,
                        ));
                    }
                }
                assert forall|other: Seq<u8>| #[trigger]
                    buckets.deep_view().contains_key(other) implies buckets.deep_view()[other]
                    == positions_with(view, other, i + 1) by {
                    if other != name {
                        assert(before.contains_key(other));
                    }
                }
            }
        } else {
            assert forall|other: Seq<u8>| positions_with(view, other, i + 1) == positions_with(
                view,
                other,
                i as int,
            ) by {}
            assert forall|other: Seq<u8>| #[trigger]
                buckets.deep_view().contains_key(other) <==> positions_with(
                    view,
                    other,
                    i + 1,
                ).len() > 0 by {}
        }
        i = i + 1;
    }
    proof {
        assert(buckets.deep_view().dom() =~= keys_seen(view));
        assert forall|key: Seq<u8>, j: int|
            #![trigger positions_with(view, key, view.len() as int)[j]]
            0 <= j < positions_with(view, key, view.len() as int).len() implies positions_with(
            view,
            key,
            view.len() as int,
        )[j] < view.len() by {
            positions_with_bounds(view, key, view.len() as int);
        }
    }
    buckets
}

/// The values of an expression on the first `n` of the picked rows.
pub open spec fn picked_values(
    meaning: Meaning,
    argument: BoundExprView,
    rows: Seq<ExecRowView>,
    picked: Seq<usize>,
    parameters: Seq<ValueView>,
    n: int,
) -> std::result::Result<Seq<ValueView>, DatabaseErrorKind>
    decreases n,
{
    if n <= 0 {
        Ok(Seq::empty())
    } else {
        match picked_values(meaning, argument, rows, picked, parameters, n - 1) {
            Err(error) => Err(error),
            Ok(values) => match evaluated(meaning, argument, rows[picked[n - 1] as int], parameters) {
                Err(error) => Err(error),
                Ok(value) => Ok(values.push(value)),
            },
        }
    }
}

/// How many of the first `n` values are not `NULL`.
pub open spec fn present_count(values: Seq<ValueView>, n: int) -> nat
    decreases n,
{
    if n <= 0 {
        0
    } else if values[n - 1] is Null {
        present_count(values, n - 1)
    } else {
        present_count(values, n - 1) + 1
    }
}

/// One more value of a sum, which counts no `NULL` and must not overflow.
pub open spec fn sum_step(
    sum: Option<i64>,
    value: ValueView,
    span: crate::db::sql::Span,
) -> std::result::Result<Option<i64>, DatabaseErrorKind> {
    match value {
        ValueView::Null => Ok(sum),
        ValueView::Int64(number) => {
            let total = (match sum {
                Some(sum) => sum as int,
                None => 0,
            }) + number;
            if i64::MIN <= total <= i64::MAX {
                Ok(Some(total as i64))
            } else {
                Err(constraint_problem(span))
            }
        },
        _ => Err(type_problem(span)),
    }
}

/// The sum over the first `n` of the picked rows.
pub open spec fn summed(
    meaning: Meaning,
    argument: BoundExprView,
    rows: Seq<ExecRowView>,
    picked: Seq<usize>,
    parameters: Seq<ValueView>,
    span: crate::db::sql::Span,
    n: int,
) -> std::result::Result<Option<i64>, DatabaseErrorKind>
    decreases n,
{
    if n <= 0 {
        Ok(None)
    } else {
        match summed(meaning, argument, rows, picked, parameters, span, n - 1) {
            Err(error) => Err(error),
            Ok(sum) => match evaluated(meaning, argument, rows[picked[n - 1] as int], parameters) {
                Err(error) => Err(error),
                Ok(value) => sum_step(sum, value, span),
            },
        }
    }
}

/// The smallest or greatest so far, with one more value. Of equal values the
/// first stays, and so does it before a value of another type.
pub open spec fn extreme_step(
    function: AggregateFunction,
    selected: Option<ValueView>,
    value: ValueView,
) -> Option<ValueView> {
    if value is Null {
        selected
    } else {
        match selected {
            None => Some(value),
            Some(current) => if function == AggregateFunction::Min && value.precedes(current)
                || function == AggregateFunction::Max && current.precedes(value) && !value.precedes(
                current,
            ) {
                Some(value)
            } else {
                selected
            },
        }
    }
}

/// The smallest or greatest value on the first `n` of the picked rows.
pub open spec fn extreme(
    meaning: Meaning,
    function: AggregateFunction,
    argument: BoundExprView,
    rows: Seq<ExecRowView>,
    picked: Seq<usize>,
    parameters: Seq<ValueView>,
    n: int,
) -> std::result::Result<Option<ValueView>, DatabaseErrorKind>
    decreases n,
{
    if n <= 0 {
        Ok(None)
    } else {
        match extreme(meaning, function, argument, rows, picked, parameters, n - 1) {
            Err(error) => Err(error),
            Ok(selected) => match evaluated(
                meaning,
                argument,
                rows[picked[n - 1] as int],
                parameters,
            ) {
                Err(error) => Err(error),
                Ok(value) => Ok(extreme_step(function, selected, value)),
            },
        }
    }
}

/// The value of an aggregate over the picked rows.
pub open spec fn aggregated(
    meaning: Meaning,
    expression: BoundExprView,
    rows: Seq<ExecRowView>,
    picked: Seq<usize>,
    parameters: Seq<ValueView>,
) -> std::result::Result<ValueView, DatabaseErrorKind> {
    match expression {
        BoundExprView::Aggregate { function, argument, span } => match function {
            AggregateFunction::Count => {
                let count = match argument {
                    None => Ok(picked.len()),
                    Some(argument) => match picked_values(
                        meaning,
                        *argument,
                        rows,
                        picked,
                        parameters,
                        picked.len() as int,
                    ) {
                        Err(error) => Err(error),
                        Ok(values) => Ok(present_count(values, values.len() as int)),
                    },
                };
                match count {
                    Err(error) => Err(error),
                    Ok(count) => if count > i64::MAX {
                        Err(DatabaseErrorKind::ResourceLimit)
                    } else {
                        Ok(ValueView::Int64(count as i64))
                    },
                }
            },
            AggregateFunction::Sum => match argument {
                None => Err(DatabaseErrorKind::Invariant),
                Some(argument) => match summed(
                    meaning,
                    *argument,
                    rows,
                    picked,
                    parameters,
                    span,
                    picked.len() as int,
                ) {
                    Err(error) => Err(error),
                    Ok(Some(sum)) => Ok(ValueView::Int64(sum)),
                    Ok(None) => Ok(ValueView::Null),
                },
            },
            _ => match argument {
                None => Err(DatabaseErrorKind::Invariant),
                Some(argument) => match extreme(
                    meaning,
                    function,
                    *argument,
                    rows,
                    picked,
                    parameters,
                    picked.len() as int,
                ) {
                    Err(error) => Err(error),
                    Ok(Some(value)) => Ok(value),
                    Ok(None) => Ok(ValueView::Null),
                },
            },
        },
        _ => Err(DatabaseErrorKind::Invariant),
    }
}

/// The first `n` aggregates over the picked rows.
pub open spec fn all_aggregated(
    meaning: Meaning,
    aggregates: Seq<BoundExprView>,
    rows: Seq<ExecRowView>,
    picked: Seq<usize>,
    parameters: Seq<ValueView>,
    n: int,
) -> std::result::Result<Seq<ComputedView>, DatabaseErrorKind>
    decreases n,
{
    if n <= 0 {
        Ok(Seq::empty())
    } else {
        match all_aggregated(meaning, aggregates, rows, picked, parameters, n - 1) {
            Err(error) => Err(error),
            Ok(computed) => match aggregated(
                meaning,
                aggregates[n - 1],
                rows,
                picked,
                parameters,
            ) {
                Err(error) => Err(error),
                Ok(value) => Ok(
                    computed.push(ComputedView { expression: aggregates[n - 1], value }),
                ),
            },
        }
    }
}

/// The row of a group: its first row, with the aggregates over all of them.
pub open spec fn group_row(
    meaning: Meaning,
    aggregates: Seq<BoundExprView>,
    rows: Seq<ExecRowView>,
    picked: Seq<usize>,
    parameters: Seq<ValueView>,
) -> std::result::Result<ExecRowView, DatabaseErrorKind> {
    match all_aggregated(
        meaning,
        aggregates,
        rows,
        picked,
        parameters,
        aggregates.len() as int,
    ) {
        Err(error) => Err(error),
        Ok(computed) => Ok(
            ExecRowView {
                row: if picked.len() == 0 {
                    RowView { values: Seq::empty() }
                } else {
                    rows[picked[0] as int].row
                },
                aggregates: computed,
            },
        ),
    }
}

/// The rows of the first `n` groups.
pub open spec fn group_rows(
    meaning: Meaning,
    aggregates: Seq<BoundExprView>,
    rows: Seq<ExecRowView>,
    keys: Seq<Option<Seq<u8>>>,
    parameters: Seq<ValueView>,
    n: int,
) -> std::result::Result<Seq<ExecRowView>, DatabaseErrorKind>
    decreases n,
{
    if n <= 0 {
        Ok(Seq::empty())
    } else {
        match group_rows(meaning, aggregates, rows, keys, parameters, n - 1) {
            Err(error) => Err(error),
            Ok(done) => match group_row(
                meaning,
                aggregates,
                rows,
                positions_with(
                    keys,
                    ordered::<Vec<u8>>(keys_seen(keys))[n - 1],
                    keys.len() as int,
                ),
                parameters,
            ) {
                Err(error) => Err(error),
                Ok(row) => Ok(done.push(row)),
            },
        }
    }
}

pub(crate) proof fn group_rows_stop(
    meaning: Meaning,
    aggregates: Seq<BoundExprView>,
    rows: Seq<ExecRowView>,
    keys: Seq<Option<Seq<u8>>>,
    parameters: Seq<ValueView>,
    m: int,
    n: int,
)
    requires
        0 <= m <= n,
        group_rows(meaning, aggregates, rows, keys, parameters, m) is Err,
    ensures
        group_rows(meaning, aggregates, rows, keys, parameters, n) == group_rows(
            meaning,
            aggregates,
            rows,
            keys,
            parameters,
            m,
        ),
    decreases n,
{
    if m < n {
        group_rows_stop(meaning, aggregates, rows, keys, parameters, m, n - 1);
    }
}

/// Rows by group, in the order of the group keys. Without grouping there is
/// one group even where there is no row.
pub open spec fn grouped(
    meaning: Meaning,
    group_by: Seq<BoundExprView>,
    aggregates: Seq<BoundExprView>,
    rows: Seq<ExecRowView>,
    parameters: Seq<ValueView>,
) -> std::result::Result<Seq<ExecRowView>, DatabaseErrorKind> {
    match group_keys(meaning, group_by, rows, parameters, rows.len() as int) {
        Err(error) => Err(error),
        Ok(keys) => if rows.len() == 0 && group_by.len() == 0 {
            match group_row(meaning, aggregates, rows, Seq::empty(), parameters) {
                Err(error) => Err(error),
                Ok(row) => Ok(seq![row]),
            }
        } else {
            group_rows(
                meaning,
                aggregates,
                rows,
                keys,
                parameters,
                ordered::<Vec<u8>>(keys_seen(keys)).len() as int,
            )
        },
    }
}

impl<
    E: Fn(&BoundExpr, &Row, &Vec<Value>) -> std::result::Result<Value, SqlError>,
    P: Fn(&BoundExpr, &Row, &Vec<Value>) -> std::result::Result<bool, SqlError>,
> Scalars<E, P> {
    /// The values of expressions on a row.
    pub fn evaluate_all(
        &self,
        expressions: &Vec<BoundExpr>,
        row: &ExecRow,
        parameters: &Vec<Value>,
    ) -> (result: Result<Vec<Value>>)
        requires
            self.sound(),
        ensures
            outcome(result) == all_evaluated(
                self.meaning(),
                expressions.deep_view(),
                row.deep_view(),
                parameters.deep_view(),
                expressions@.len() as int,
            ),
    {
        let ghost meaning = self.meaning();
        let ghost view = expressions.deep_view();
        let mut values: Vec<Value> = Vec::with_capacity(expressions.len());
        let mut i: usize = 0;
        assert(values.deep_view() =~= Seq::empty());
        while i < expressions.len()
            invariant
                self.sound(),
                i <= expressions@.len(),
                meaning == self.meaning(),
                view == expressions.deep_view(),
                all_evaluated(
                    meaning,
                    view,
                    row.deep_view(),
                    parameters.deep_view(),
                    i as int,
                ) == Ok::<Seq<ValueView>, DatabaseErrorKind>(values.deep_view()),
            decreases expressions@.len() - i,
        {
            assert(view[i as int] == expressions@[i as int].deep_view());
            let ghost before = values.deep_view();
            match self.evaluate_exec(&expressions[i], row, parameters) {
                Ok(value) => {
                    values.push(value);
                    assert(values.deep_view() =~= before.push(value.deep_view()));
                },
                Err(error) => {
                    proof {
                        all_evaluated_stops(
                            meaning,
                            view,
                            row.deep_view(),
                            parameters.deep_view(),
                            i + 1,
                            view.len() as int,
                        );
                    }
                    return Err(error);
                },
            }
            i = i + 1;
        }
        Ok(values)
    }

    /// Those rows on which a predicate holds.
    pub fn filter_rows(
        &self,
        predicate: &BoundExpr,
        rows: &Vec<ExecRow>,
        parameters: &Vec<Value>,
    ) -> (result: Result<Vec<ExecRow>>)
        requires
            self.sound(),
        ensures
            outcome(result) == filtered(
                self.meaning(),
                predicate.deep_view(),
                rows.deep_view(),
                parameters.deep_view(),
                rows@.len() as int,
            ),
    {
        let ghost meaning = self.meaning();
        let ghost wanted = predicate.deep_view();
        let ghost view = rows.deep_view();
        let mut kept: Vec<ExecRow> = Vec::new();
        let mut i: usize = 0;
        assert(kept.deep_view() =~= Seq::empty());
        while i < rows.len()
            invariant
                self.sound(),
                i <= rows@.len(),
                meaning == self.meaning(),
                wanted == predicate.deep_view(),
                view == rows.deep_view(),
                filtered(meaning, wanted, view, parameters.deep_view(), i as int) == Ok::<
                    Seq<ExecRowView>,
                    DatabaseErrorKind,
                >(kept.deep_view()),
            decreases rows@.len() - i,
        {
            assert(view[i as int] == rows@[i as int].deep_view());
            let ghost before = kept.deep_view();
            match self.predicate_exec(predicate, &rows[i], parameters) {
                Ok(true) => {
                    kept.push(rows[i].duplicate());
                    assert(kept.deep_view() =~= before.push(view[i as int]));
                },
                Ok(false) => {},
                Err(error) => {
                    proof {
                        filtered_stops(
                            meaning,
                            wanted,
                            view,
                            parameters.deep_view(),
                            i + 1,
                            view.len() as int,
                        );
                    }
                    return Err(error);
                },
            }
            i = i + 1;
        }
        Ok(kept)
    }

    /// Rows through a projection.
    pub fn project_rows(
        &self,
        columns: &Vec<OutputColumn>,
        rows: &Vec<ExecRow>,
        parameters: &Vec<Value>,
    ) -> (result: Result<Vec<ExecRow>>)
        requires
            self.sound(),
        ensures
            outcome(result) == projected(
                self.meaning(),
                columns.deep_view(),
                rows.deep_view(),
                parameters.deep_view(),
                rows@.len() as int,
            ),
    {
        let ghost meaning = self.meaning();
        let ghost wanted = columns.deep_view();
        let ghost view = rows.deep_view();
        let mut expressions: Vec<BoundExpr> = Vec::new();
        while expressions.len() < columns.len()
            invariant
                expressions@.len() <= columns@.len(),
                wanted == columns.deep_view(),
                forall|j: int|
                    0 <= j < expressions@.len() ==> (#[trigger] expressions@[j]).deep_view()
                        == wanted[j].expr,
            decreases columns@.len() - expressions@.len(),
        {
            let k: usize = expressions.len();
            assert(wanted[k as int] == columns@[k as int].deep_view());
            expressions.push(columns[k].expr.duplicate());
        }
        assert(expressions.deep_view() =~= output_expressions(wanted));
        let mut done: Vec<ExecRow> = Vec::with_capacity(rows.len());
        let mut i: usize = 0;
        assert(done.deep_view() =~= Seq::empty());
        while i < rows.len()
            invariant
                self.sound(),
                i <= rows@.len(),
                meaning == self.meaning(),
                wanted == columns.deep_view(),
                expressions.deep_view() == output_expressions(wanted),
                expressions@.len() == columns@.len(),
                view == rows.deep_view(),
                projected(meaning, wanted, view, parameters.deep_view(), i as int) == Ok::<
                    Seq<ExecRowView>,
                    DatabaseErrorKind,
                >(done.deep_view()),
            decreases rows@.len() - i,
        {
            assert(view[i as int] == rows@[i as int].deep_view());
            let ghost before = done.deep_view();
            match self.evaluate_all(&expressions, &rows[i], parameters) {
                Ok(values) => {
                    let row = ExecRow::plain(Row { values });
                    done.push(row);
                    assert(done.deep_view() =~= before.push(row.deep_view()));
                },
                Err(error) => {
                    proof {
                        projected_stops(
                            meaning,
                            wanted,
                            view,
                            parameters.deep_view(),
                            i + 1,
                            view.len() as int,
                        );
                    }
                    return Err(error);
                },
            }
            i = i + 1;
        }
        Ok(done)
    }

    /// Rows in the order that a sort asks for.
    pub fn sort_rows(
        &self,
        rows: &Vec<ExecRow>,
        order_by: &Vec<BoundOrder>,
        parameters: &Vec<Value>,
    ) -> (result: Result<Vec<ExecRow>>)
        requires
            self.sound(),
        ensures
            outcome(result) == sorted(
                self.meaning(),
                order_by.deep_view(),
                rows.deep_view(),
                parameters.deep_view(),
            ),
    {
        let ghost meaning = self.meaning();
        let ghost wanted = order_by.deep_view();
        let ghost view = rows.deep_view();
        let mut expressions: Vec<BoundExpr> = Vec::new();
        while expressions.len() < order_by.len()
            invariant
                expressions@.len() <= order_by@.len(),
                wanted == order_by.deep_view(),
                forall|j: int|
                    0 <= j < expressions@.len() ==> (#[trigger] expressions@[j]).deep_view()
                        == wanted[j].expr,
            decreases order_by@.len() - expressions@.len(),
        {
            let k: usize = expressions.len();
            assert(wanted[k as int] == order_by@[k as int].deep_view());
            expressions.push(order_by[k].expr.duplicate());
        }
        assert(expressions.deep_view() =~= order_expressions(wanted));
        let mut keys: Vec<Vec<Value>> = Vec::with_capacity(rows.len());
        let mut i: usize = 0;
        assert(keys.deep_view() =~= Seq::empty());
        while i < rows.len()
            invariant
                self.sound(),
                i <= rows@.len(),
                meaning == self.meaning(),
                wanted == order_by.deep_view(),
                expressions.deep_view() == order_expressions(wanted),
                expressions@.len() == order_by@.len(),
                view == rows.deep_view(),
                row_keys(meaning, wanted, view, parameters.deep_view(), i as int) == Ok::<
                    Seq<Seq<ValueView>>,
                    DatabaseErrorKind,
                >(keys.deep_view()),
            decreases rows@.len() - i,
        {
            assert(view[i as int] == rows@[i as int].deep_view());
            let ghost before = keys.deep_view();
            match self.evaluate_all(&expressions, &rows[i], parameters) {
                Ok(values) => {
                    keys.push(values);
                    assert(keys.deep_view() =~= before.push(values.deep_view()));
                },
                Err(error) => {
                    proof {
                        row_keys_stop(
                            meaning,
                            wanted,
                            view,
                            parameters.deep_view(),
                            i + 1,
                            view.len() as int,
                        );
                    }
                    return Err(error);
                },
            }
            i = i + 1;
        }
        let ranking = SortRanking { order_by };
        let order = stable_order(&ranking, &keys);
        let ghost listed = positions(order@);
        proof {
            row_keys_len(meaning, wanted, view, parameters.deep_view(), view.len() as int);
            let by_keys = order_of_rows(wanted);
            assert(by_keys =~= ranking_order(ranking));
            assert(stably_sorts(by_keys, keys.deep_view(), listed));
            let chosen = sort_order(keys.deep_view(), wanted);
            stable_order_is_unique(ranking, keys.deep_view(), listed, chosen);
        }
        let mut output: Vec<ExecRow> = Vec::with_capacity(order.len());
        i = 0;
        while i < order.len()
            invariant
                i <= order@.len(),
                view == rows.deep_view(),
                listed == positions(order@),
                forall|j: int| 0 <= j < order@.len() ==> #[trigger] order@[j] < rows@.len(),
                output@.len() == i,
                forall|j: int|
                    0 <= j < i ==> (#[trigger] output@[j]).deep_view() == view[listed[j]],
            decreases order@.len() - i,
        {
            let position: usize = order[i];
            output.push(rows[position].duplicate());
            i = i + 1;
        }
        assert(output.deep_view() =~= Seq::new(listed.len(), |j: int| view[listed[j]]));
        Ok(output)
    }
}

} // verus!
