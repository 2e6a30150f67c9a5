//! Running queries.

use vstd::prelude::*;
use crate::codec::{encodable, encode_ordered, encode_value, ordered_value};
use crate::engine::error::{EngineError, EngineErrorKind, Result};
use crate::engine::expression::{Expr, ExprView};
use crate::engine::query::{OrderBy, OrderByView, Query, QueryView, ScanSource, ScanSourceView};
use crate::engine::state::{Engine, EngineView};
use crate::engine::transaction::{Transaction, TransactionView};
use crate::model::{Model, outcome};
use crate::order::{bytes_before, lex_asymmetric, lex_irreflexive, lex_lt, lex_total, lex_transitive};
use crate::sorting::{
    Ranking, ranking_order, positions, stable_order, stable_order_is_unique, stably_sorts,
};
use crate::types::{ErrorKind, Row, RowView, Value, ValueView};

verus! {

broadcast use crate::model::group_contents;

/// The sort key of a value; `NULL` has none.
pub open spec fn sort_key_of(value: ValueView) -> std::result::Result<
    Option<Seq<u8>>,
    EngineErrorKind,
> {
    if value is Null {
        Ok(None)
    } else if encodable(value) {
        Ok(Some(ordered_value(value)))
    } else {
        Err(EngineErrorKind::Core(ErrorKind::LimitExceeded))
    }
}

/// `a` sorts before `b` under one key of an order. Where nulls go does not
/// depend on the direction.
pub open spec fn column_before(
    a: Option<Seq<u8>>,
    b: Option<Seq<u8>>,
    descending: bool,
    nulls_first: bool,
) -> bool {
    match (a, b) {
        (None, None) => false,
        (None, Some(_)) => nulls_first,
        (Some(_), None) => !nulls_first,
        (Some(x), Some(y)) => if descending {
            lex_lt(y, x)
        } else {
            lex_lt(x, y)
        },
    }
}

/// The `i`-th of a row's sort keys.
pub open spec fn key_at(keys: Seq<Option<Seq<u8>>>, i: int) -> Option<Seq<u8>> {
    if i < keys.len() {
        keys[i]
    } else {
        None
    }
}

/// `a` sorts before `b` by the keys of an order from the `i`-th on: the first
/// key that tells them apart decides.
pub open spec fn keys_before(
    a: Seq<Option<Seq<u8>>>,
    b: Seq<Option<Seq<u8>>>,
    order_by: Seq<OrderByView>,
    i: int,
) -> bool
    decreases order_by.len() - i,
{
    if i >= order_by.len() || i < 0 {
        false
    } else {
        let order = order_by[i];
        if column_before(key_at(a, i), key_at(b, i), order.descending, order.nulls_first) {
            true
        } else if column_before(key_at(b, i), key_at(a, i), order.descending, order.nulls_first) {
            false
        } else {
            keys_before(a, b, order_by, i + 1)
        }
    }
}

struct OrderRanking<'a> {
    order_by: &'a Vec<OrderBy>,
}

pub(crate) proof fn column_asymmetric(a: Option<Seq<u8>>, b: Option<Seq<u8>>, descending: bool, nulls_first: bool)
    ensures
        !(column_before(a, b, descending, nulls_first) && column_before(
            b,
            a,
            descending,
            nulls_first,
        )),
        a == b || column_before(a, b, descending, nulls_first) || column_before(
            b,
            a,
            descending,
            nulls_first,
        ),
        !column_before(a, a, descending, nulls_first),
{
    if a is Some {
        lex_irreflexive(a->0);
    }
    if a is Some && b is Some {
        lex_asymmetric(a->0, b->0);
        lex_total(a->0, b->0);
    }
}

proof fn column_transitive(
    a: Option<Seq<u8>>,
    b: Option<Seq<u8>>,
    c: Option<Seq<u8>>,
    descending: bool,
    nulls_first: bool,
)
    requires
        column_before(a, b, descending, nulls_first),
        column_before(b, c, descending, nulls_first),
    ensures
        column_before(a, c, descending, nulls_first),
{
    if a is Some && b is Some && c is Some {
        if descending {
            lex_transitive(c->0, b->0, a->0);
        } else {
            lex_transitive(a->0, b->0, c->0);
        }
    }
}

pub(crate) proof fn keys_asymmetric(
    a: Seq<Option<Seq<u8>>>,
    b: Seq<Option<Seq<u8>>>,
    order_by: Seq<OrderByView>,
    i: int,
)
    requires
        0 <= i,
    ensures
        !(keys_before(a, b, order_by, i) && keys_before(b, a, order_by, i)),
    decreases order_by.len() - i,
{
    if i < order_by.len() {
        let order = order_by[i];
        column_asymmetric(key_at(a, i), key_at(b, i), order.descending, order.nulls_first);
        keys_asymmetric(a, b, order_by, i + 1);
    }
}

pub(crate) proof fn keys_negatively_transitive(
    a: Seq<Option<Seq<u8>>>,
    b: Seq<Option<Seq<u8>>>,
    c: Seq<Option<Seq<u8>>>,
    order_by: Seq<OrderByView>,
    i: int,
)
    requires
        0 <= i,
        !keys_before(b, a, order_by, i),
        !keys_before(c, b, order_by, i),
    ensures
        !keys_before(c, a, order_by, i),
    decreases order_by.len() - i,
{
    if i < order_by.len() {
        let order = order_by[i];
        let x = key_at(a, i);
        let y = key_at(b, i);
        let z = key_at(c, i);
        column_asymmetric(x, y, order.descending, order.nulls_first);
        column_asymmetric(y, z, order.descending, order.nulls_first);
        column_asymmetric(x, z, order.descending, order.nulls_first);
        if column_before(x, y, order.descending, order.nulls_first) {
            if column_before(y, z, order.descending, order.nulls_first) {
                column_transitive(x, y, z, order.descending, order.nulls_first);
            }
        } else {
            assert(x == y);
            if !column_before(y, z, order.descending, order.nulls_first) {
                assert(y == z);
                keys_negatively_transitive(a, b, c, order_by, i + 1);
            }
        }
    }
}

impl<'a> Ranking for OrderRanking<'a> {
    type Item = Vec<Option<Vec<u8>>>;

    closed spec fn ranks_before(&self, a: Seq<Option<Seq<u8>>>, b: Seq<Option<Seq<u8>>>) -> bool {
        keys_before(a, b, self.order_by.deep_view(), 0)
    }

    proof fn asymmetric(&self, a: Seq<Option<Seq<u8>>>, b: Seq<Option<Seq<u8>>>) {
        keys_asymmetric(a, b, self.order_by.deep_view(), 0);
    }

    proof fn negatively_transitive(
        &self,
        a: Seq<Option<Seq<u8>>>,
        b: Seq<Option<Seq<u8>>>,
        c: Seq<Option<Seq<u8>>>,
    ) {
        keys_negatively_transitive(a, b, c, self.order_by.deep_view(), 0);
    }

    fn is_before(&self, a: &Vec<Option<Vec<u8>>>, b: &Vec<Option<Vec<u8>>>) -> (before: bool) {
        let ghost order_by = self.order_by.deep_view();
        let ghost x = a.deep_view();
        let ghost y = b.deep_view();
        let mut i: usize = 0;
        while i < self.order_by.len()
            invariant
                i <= self.order_by@.len(),
                order_by == self.order_by.deep_view(),
                x == a.deep_view(),
                y == b.deep_view(),
                keys_before(x, y, order_by, 0) == keys_before(x, y, order_by, i as int),
            decreases self.order_by@.len() - i,
        {
            let order = &self.order_by[i];
            assert(order_by[i as int] == order.deep_view());
            if sort_column_before(a, b, i, order.descending, order.nulls_first) {
                return true;
            }
            if sort_column_before(b, a, i, order.descending, order.nulls_first) {
                return false;
            }
            i = i + 1;
        }
        false
    }
}

fn sort_column_before(
    a: &Vec<Option<Vec<u8>>>,
    b: &Vec<Option<Vec<u8>>>,
    i: usize,
    descending: bool,
    nulls_first: bool,
) -> (before: bool)
    ensures
        before == column_before(
            key_at(a.deep_view(), i as int),
            key_at(b.deep_view(), i as int),
            descending,
            nulls_first,
        ),
{
    let x: Option<&Vec<u8>> = if i < a.len() {
        assert(a.deep_view()[i as int] == a@[i as int].deep_view());
        a[i].as_ref()
    } else {
        None
    };
    let y: Option<&Vec<u8>> = if i < b.len() {
        assert(b.deep_view()[i as int] == b@[i as int].deep_view());
        b[i].as_ref()
    } else {
        None
    };
    match (x, y) {
        (None, None) => false,
        (None, Some(_)) => nulls_first,
        (Some(_), None) => !nulls_first,
        (Some(x), Some(y)) => if descending {
            bytes_before(y.as_slice(), x.as_slice())
        } else {
            bytes_before(x.as_slice(), y.as_slice())
        },
    }
}

/// The sort keys of a row by the first `n` keys of an order.
pub open spec fn sort_keys(row: RowView, order_by: Seq<OrderByView>, n: int) -> std::result::Result<
    Seq<Option<Seq<u8>>>,
    EngineErrorKind,
>
    decreases n,
{
    if n <= 0 {
        Ok(Seq::empty())
    } else {
        match sort_keys(row, order_by, n - 1) {
            Err(error) => Err(error),
            Ok(keys) => match order_by[n - 1].expression.value_on(row) {
                Err(error) => Err(error),
                Ok(value) => match sort_key_of(value) {
                    Err(error) => Err(error),
                    Ok(key) => Ok(keys.push(key)),
                },
            },
        }
    }
}

/// Whether a row passes a filter.
pub open spec fn passes(filter: Option<ExprView>, row: RowView) -> std::result::Result<
    bool,
    EngineErrorKind,
> {
    match filter {
        None => Ok(true),
        Some(filter) => filter.holds_on(row),
    }
}

/// Those of the first `n` rows that pass the filter, with their sort keys.
pub open spec fn selected(
    rows: Seq<RowView>,
    filter: Option<ExprView>,
    order_by: Seq<OrderByView>,
    n: int,
) -> std::result::Result<(Seq<RowView>, Seq<Seq<Option<Seq<u8>>>>), EngineErrorKind>
    decreases n,
{
    if n <= 0 {
        Ok((Seq::empty(), Seq::empty()))
    } else {
        match selected(rows, filter, order_by, n - 1) {
            Err(error) => Err(error),
            Ok((chosen, keys)) => match passes(filter, rows[n - 1]) {
                Err(error) => Err(error),
                Ok(false) => Ok((chosen, keys)),
                Ok(true) => match sort_keys(rows[n - 1], order_by, order_by.len() as int) {
                    Err(error) => Err(error),
                    Ok(key) => Ok((chosen.push(rows[n - 1]), keys.push(key))),
                },
            },
        }
    }
}

/// The order that a query asks for.
pub open spec fn order_by_keys(order_by: Seq<OrderByView>) -> spec_fn(
    Seq<Option<Seq<u8>>>,
    Seq<Option<Seq<u8>>>,
) -> bool {
    |a: Seq<Option<Seq<u8>>>, b: Seq<Option<Seq<u8>>>| keys_before(a, b, order_by, 0)
}

/// The stable order of rows by their sort keys.
pub open spec fn query_order(keys: Seq<Seq<Option<Seq<u8>>>>, order_by: Seq<OrderByView>) -> Seq<
    int,
> {
    choose|order: Seq<int>| #[trigger] stably_sorts(order_by_keys(order_by), keys, order)
}

/// The positions of a page: without the first `offset`, at most `limit`.
pub open spec fn page(order: Seq<int>, offset: usize, limit: Option<usize>) -> Seq<int> {
    if offset >= order.len() {
        Seq::empty()
    } else {
        let rest = order.skip(offset as int);
        match limit {
            Some(limit) => if limit < rest.len() {
                rest.take(limit as int)
            } else {
                rest
            },
            None => rest,
        }
    }
}

/// The values of the first `n` expressions on a row.
pub open spec fn projected_values(row: RowView, projection: Seq<ExprView>, n: int) -> std::result::Result<
    Seq<ValueView>,
    EngineErrorKind,
>
    decreases n,
{
    if n <= 0 {
        Ok(Seq::empty())
    } else {
        match projected_values(row, projection, n - 1) {
            Err(error) => Err(error),
            Ok(values) => match projection[n - 1].value_on(row) {
                Err(error) => Err(error),
                Ok(value) => Ok(values.push(value)),
            },
        }
    }
}

/// A row through a projection; an empty one leaves it as it is.
pub open spec fn projected(row: RowView, projection: Seq<ExprView>) -> std::result::Result<
    RowView,
    EngineErrorKind,
> {
    if projection.len() == 0 {
        Ok(row)
    } else {
        match projected_values(row, projection, projection.len() as int) {
            Err(error) => Err(error),
            Ok(values) => Ok(RowView { values }),
        }
    }
}

/// The rows at the first `n` positions through a projection.
pub open spec fn projected_rows(
    rows: Seq<RowView>,
    picked: Seq<int>,
    projection: Seq<ExprView>,
    n: int,
) -> std::result::Result<Seq<RowView>, EngineErrorKind>
    decreases n,
{
    if n <= 0 {
        Ok(Seq::empty())
    } else {
        match projected_rows(rows, picked, projection, n - 1) {
            Err(error) => Err(error),
            Ok(done) => match projected(rows[picked[n - 1]], projection) {
                Err(error) => Err(error),
                Ok(row) => Ok(done.push(row)),
            },
        }
    }
}

impl EngineView {
    /// The rows that a query starts from.
    pub open spec fn source_rows(self, transaction: TransactionView, source: ScanSourceView) -> std::result::Result<
        Seq<RowView>,
        EngineErrorKind,
    > {
        match source {
            ScanSourceView::Table(table_id) => self.scanned(transaction, table_id),
            ScanSourceView::SecondaryEq { index_id, value } => self.looked_up(
                transaction,
                index_id,
                value,
            ),
        }
    }

    /// What a query answers: the rows of its source that pass the filter,
    /// sorted stably, then the page, then the projection.
    pub open spec fn answered(self, transaction: TransactionView, query: QueryView) -> std::result::Result<
        Seq<RowView>,
        EngineErrorKind,
    > {
        match self.source_rows(transaction, query.source) {
            Err(error) => Err(error),
            Ok(rows) => match selected(rows, query.filter, query.order_by, rows.len() as int) {
                Err(error) => Err(error),
                Ok((chosen, keys)) => {
                    let picked = page(
                        query_order(keys, query.order_by),
                        query.offset,
                        query.limit,
                    );
                    projected_rows(chosen, picked, query.projection, picked.len() as int)
                },
            },
        }
    }
}

proof fn selected_stops(
    rows: Seq<RowView>,
    filter: Option<ExprView>,
    order_by: Seq<OrderByView>,
    m: int,
    n: int,
)
    requires
        0 <= m <= n,
        selected(rows, filter, order_by, m) is Err,
    ensures
        selected(rows, filter, order_by, n) == selected(rows, filter, order_by, m),
    decreases n,
{
    if m < n {
        selected_stops(rows, filter, order_by, m, n - 1);
    }
}

proof fn selected_lengths(
    rows: Seq<RowView>,
    filter: Option<ExprView>,
    order_by: Seq<OrderByView>,
    n: int,
)
    requires
        selected(rows, filter, order_by, n) is Ok,
    ensures
        selected(rows, filter, order_by, n)->Ok_0.0.len() == selected(
            rows,
            filter,
            order_by,
            n,
        )->Ok_0.1.len(),
    decreases n,
{
    if n > 0 {
        selected_lengths(rows, filter, order_by, n - 1);
    }
}

proof fn sort_keys_stop(row: RowView, order_by: Seq<OrderByView>, m: int, n: int)
    requires
        0 <= m <= n,
        sort_keys(row, order_by, m) is Err,
    ensures
        sort_keys(row, order_by, n) == sort_keys(row, order_by, m),
    decreases n,
{
    if m < n {
        sort_keys_stop(row, order_by, m, n - 1);
    }
}

proof fn projected_values_stop(row: RowView, projection: Seq<ExprView>, m: int, n: int)
    requires
        0 <= m <= n,
        projected_values(row, projection, m) is Err,
    ensures
        projected_values(row, projection, n) == projected_values(row, projection, m),
    decreases n,
{
    if m < n {
        projected_values_stop(row, projection, m, n - 1);
    }
}

proof fn projected_rows_stop(
    rows: Seq<RowView>,
    picked: Seq<int>,
    projection: Seq<ExprView>,
    m: int,
    n: int,
)
    requires
        0 <= m <= n,
        projected_rows(rows, picked, projection, m) is Err,
    ensures
        projected_rows(rows, picked, projection, n) == projected_rows(
            rows,
            picked,
            projection,
            m,
        ),
    decreases n,
{
    if m < n {
        projected_rows_stop(rows, picked, projection, m, n - 1);
    }
}

fn sort_key(value: &Value) -> (result: Result<Option<Vec<u8>>>)
    ensures
        outcome(result) == sort_key_of(value.deep_view()),
{
    if value.is_null() {
        return Ok(None);
    }
    let mut validation: Vec<u8> = Vec::new();
    if let Err(error) = encode_value(value, &mut validation) {
        return Err(EngineError::Core(error));
    }
    let mut encoded: Vec<u8> = Vec::new();
    encode_ordered(value, &mut encoded);
    assert(encoded@ =~= ordered_value(value.deep_view()));
    Ok(Some(encoded))
}

fn row_sort_keys(row: &Row, order_by: &Vec<OrderBy>) -> (result: Result<Vec<Option<Vec<u8>>>>)
    ensures
        outcome(result) == sort_keys(row.deep_view(), order_by.deep_view(), order_by@.len() as int),
{
    let ghost orders = order_by.deep_view();
    let mut keys: Vec<Option<Vec<u8>>> = Vec::with_capacity(order_by.len());
    let mut i: usize = 0;
    assert(keys.deep_view() =~= Seq::empty());
    while i < order_by.len()
        invariant
            i <= order_by@.len(),
            orders == order_by.deep_view(),
            sort_keys(row.deep_view(), orders, i as int) == Ok::<
                Seq<Option<Seq<u8>>>,
                EngineErrorKind,
            >(keys.deep_view()),
        decreases order_by@.len() - i,
    {
        assert(orders[i as int] == order_by@[i as int].deep_view());
        let ghost before = keys.deep_view();
        let key = match order_by[i].expression.evaluate(row) {
            Ok(value) => sort_key(&value),
            Err(error) => Err(error),
        };
        match key {
            Ok(key) => {
                keys.push(key);
                assert(keys.deep_view() =~= before.push(key.deep_view()));
            },
            Err(error) => {
                proof {
                    sort_keys_stop(row.deep_view(), orders, i + 1, orders.len() as int);
                }
                return Err(error);
            },
        }
        i = i + 1;
    }
    Ok(keys)
}

fn project(row: &Row, projection: &Vec<Expr>) -> (result: Result<Row>)
    ensures
        outcome(result) == projected(row.deep_view(), projection.deep_view()),
{
    if projection.len() == 0 {
        return Ok(row.duplicate());
    }
    let ghost expressions = projection.deep_view();
    let mut values: Vec<Value> = Vec::with_capacity(projection.len());
    let mut i: usize = 0;
    assert(values.deep_view() =~= Seq::empty());
    while i < projection.len()
        invariant
            i <= projection@.len(),
            projection@.len() > 0,
            expressions == projection.deep_view(),
            projected_values(row.deep_view(), expressions, i as int) == Ok::<
                Seq<ValueView>,
                EngineErrorKind,
            >(values.deep_view()),
        decreases projection@.len() - i,
    {
        assert(expressions[i as int] == projection@[i as int].deep_view());
        let ghost before = values.deep_view();
        match projection[i].evaluate(row) {
            Ok(value) => {
                values.push(value);
                assert(values.deep_view() =~= before.push(value.deep_view()));
            },
            Err(error) => {
                proof {
                    projected_values_stop(
                        row.deep_view(),
                        expressions,
                        i + 1,
                        expressions.len() as int,
                    );
                }
                return Err(error);
            },
        }
        i = i + 1;
    }
    Ok(Row { values })
}

/// Those rows that pass the filter, with their sort keys.
fn select(rows: &Vec<Row>, query: &Query) -> (result: Result<
    (Vec<Row>, Vec<Vec<Option<Vec<u8>>>>),
>)
    ensures
        match result {
            Ok((chosen, keys)) => selected(
                rows.deep_view(),
                query.deep_view().filter,
                query.deep_view().order_by,
                rows@.len() as int,
            ) == Ok::<(Seq<RowView>, Seq<Seq<Option<Seq<u8>>>>), EngineErrorKind>(
                (chosen.deep_view(), keys.deep_view()),
            ),
            Err(error) => selected(
                rows.deep_view(),
                query.deep_view().filter,
                query.deep_view().order_by,
                rows@.len() as int,
            ) == Err::<(Seq<RowView>, Seq<Seq<Option<Seq<u8>>>>), EngineErrorKind>(
                error.deep_view(),
            ),
        },
{
    let ghost all = rows.deep_view();
    let ghost wanted = query.deep_view();
    let mut chosen: Vec<Row> = Vec::new();
    let mut keys: Vec<Vec<Option<Vec<u8>>>> = Vec::new();
    let mut i: usize = 0;
    assert(chosen.deep_view() =~= Seq::empty());
    assert(keys.deep_view() =~= Seq::empty());
    while i < rows.len()
        invariant
            i <= rows@.len(),
            all == rows.deep_view(),
            wanted == query.deep_view(),
            selected(all, wanted.filter, wanted.order_by, i as int) == Ok::<
                (Seq<RowView>, Seq<Seq<Option<Seq<u8>>>>),
                EngineErrorKind,
            >((chosen.deep_view(), keys.deep_view())),
        decreases rows@.len() - i,
    {
        assert(all[i as int] == rows@[i as int].deep_view());
        let ghost chosen_before = chosen.deep_view();
        let ghost keys_before = keys.deep_view();
        let passed = match &query.filter {
            Some(filter) => filter.evaluate_predicate(&rows[i]),
            None => Ok(true),
        };
        match passed {
            Err(error) => {
                proof {
                    selected_stops(all, wanted.filter, wanted.order_by, i + 1, all.len() as int);
                }
                return Err(error);
            },
            Ok(false) => {},
            Ok(true) => match row_sort_keys(&rows[i], &query.order_by) {
                Err(error) => {
                    proof {
                        selected_stops(
                            all,
                            wanted.filter,
                            wanted.order_by,
                            i + 1,
                            all.len() as int,
                        );
                    }
                    return Err(error);
                },
                Ok(key) => {
                    chosen.push(rows[i].duplicate());
                    keys.push(key);
                    assert(chosen.deep_view() =~= chosen_before.push(all[i as int]));
                    assert(keys.deep_view() =~= keys_before.push(key.deep_view()));
                },
            },
        }
        i = i + 1;
    }
    Ok((chosen, keys))
}

impl Engine {
    /// Runs a query in a transaction.
    pub fn execute_query(&self, transaction: &Transaction, query: &Query) -> (result: Result<
        Vec<Row>,
    >)
        ensures
            outcome(result) == self.deep_view().answered(
                transaction.deep_view(),
                query.deep_view(),
            ),
    {
        let ghost wanted = query.deep_view();
        let source = match &query.source {
            ScanSource::Table(table_id) => self.scan_table(transaction, *table_id),
            ScanSource::SecondaryEq { index_id, value } => self.scan_secondary(
                transaction,
                *index_id,
                value,
            ),
        };
        let rows = match source {
            Ok(rows) => rows,
            Err(error) => return Err(error),
        };
        let (chosen, keys) = match select(&rows, query) {
            Ok(selection) => selection,
            Err(error) => return Err(error),
        };
        let ranking = OrderRanking { order_by: &query.order_by };
        let order = stable_order(&ranking, &keys);
        let ghost listed = positions(order@);
        proof {
            selected_lengths(
                rows.deep_view(),
                wanted.filter,
                wanted.order_by,
                rows@.len() as int,
            );
            let by_keys = order_by_keys(wanted.order_by);
            assert(by_keys =~= ranking_order(ranking));
            let chosen_order = query_order(keys.deep_view(), wanted.order_by);
            assert(stably_sorts(by_keys, keys.deep_view(), listed));
            stable_order_is_unique(ranking, keys.deep_view(), listed, chosen_order);
        }
        let length: usize = order.len();
        let available: usize = if query.offset >= length {
            0
        } else {
            length - query.offset
        };
        let take: usize = match query.limit {
            Some(limit) => if limit < available {
                limit
            } else {
                available
            },
            None => available,
        };
        let ghost picked = page(listed, wanted.offset, wanted.limit);
        let mut output: Vec<Row> = Vec::with_capacity(take);
        let mut i: usize = 0;
        assert(output.deep_view() =~= Seq::empty());
        assert(picked.len() == take);
        while i < take
            invariant
                i <= take,
                take == picked.len(),
                wanted == query.deep_view(),
                picked == page(listed, wanted.offset, wanted.limit),
                listed == positions(order@),
                order@.len() == chosen@.len(),
                length == order@.len(),
                take <= available,
                available == (if query.offset >= length {
                    0int
                } else {
                    length - query.offset
                }),
                forall|j: int| 0 <= j < order@.len() ==> #[trigger] order@[j] < chosen@.len(),
                projected_rows(chosen.deep_view(), picked, wanted.projection, i as int) == Ok::<
                    Seq<RowView>,
                    EngineErrorKind,
                >(output.deep_view()),
                self.deep_view().answered(transaction.deep_view(), wanted) == projected_rows(
                    chosen.deep_view(),
                    picked,
                    wanted.projection,
                    picked.len() as int,
                ),
            decreases take - i,
        {
            let ghost before = output.deep_view();
            assert(query.offset + i < length);
            let position = order[query.offset + i];
            assert(picked[i as int] == position);
            assert(chosen.deep_view()[position as int] == chosen@[position as int].deep_view());
            match project(&chosen[position], &query.projection) {
                Ok(row) => {
                    output.push(row);
                    assert(output.deep_view() =~= before.push(row.deep_view()));
                },
                Err(error) => {
                    proof {
                        projected_rows_stop(
                            chosen.deep_view(),
                            picked,
                            wanted.projection,
                            i + 1,
                            picked.len() as int,
                        );
                    }
                    return Err(error);
                },
            }
            i = i + 1;
        }
        Ok(output)
    }
}

} // verus!
