//! Joins of rows.

use vstd::prelude::*;
use crate::codec::{encodable, encode_value, encoded_value};
use crate::db::error::{DatabaseError, DatabaseErrorKind, Result};
use crate::db::rows::{bucketed, keys_seen, positions_with};
use crate::db::scalar::{
    Computed, ExecRow, ExecRowView, Meaning, Scalars, evaluated, invariant_error, predicate_holds,
};
use crate::db::sql::{
    BinaryOp, BoundExpr, BoundExprView, JoinAlgorithm, PhysicalPlan, PhysicalPlanView, SqlError,
};
use crate::engine::error::{EngineError, EngineErrorKind};
use crate::model::{Model, outcome};
use crate::text::decimal_text;
use crate::types::{ErrorKind, Row, RowView, TableId, Value, ValueView, message};

verus! {

broadcast use crate::model::group_contents;

/// The most rows that a step of a plan may hold.
pub const MAX_INTERMEDIATE_ROWS: usize = 1_000_000;

/// The rows of a step, unless they are too many.
pub open spec fn bounded(
    result: std::result::Result<Seq<ExecRowView>, DatabaseErrorKind>,
) -> std::result::Result<Seq<ExecRowView>, DatabaseErrorKind> {
    match result {
        Ok(rows) => if rows.len() > MAX_INTERMEDIATE_ROWS {
            Err(DatabaseErrorKind::ResourceLimit)
        } else {
            Ok(rows)
        },
        Err(error) => Err(error),
    }
}

/// Fails when a step holds too many rows.
pub fn ensure_intermediate_bound(rows: &Vec<ExecRow>) -> (result: Result<()>)
    ensures
        outcome(result) == if rows@.len() > MAX_INTERMEDIATE_ROWS {
            Err::<(), DatabaseErrorKind>(DatabaseErrorKind::ResourceLimit)
        } else {
            Ok(())
        },
{
    if rows.len() > MAX_INTERMEDIATE_ROWS {
        return Err(
            DatabaseError::ResourceLimit(
                message(
                    &[
                        "physical plan produced ",
                        &decimal_text(rows.len() as u64),
                        " intermediate rows; maximum is ",
                        &decimal_text(MAX_INTERMEDIATE_ROWS as u64),
                    ],
                ),
            ),
        );
    }
    Ok(())
}

impl PhysicalPlanView {
    /// The plan reads the table.
    pub open spec fn reads(self, table_id: TableId) -> bool
        decreases self,
    {
        match self {
            PhysicalPlanView::SeqScan { table } => table.id == table_id,
            PhysicalPlanView::IndexScan { table, .. } => table.id == table_id,
            PhysicalPlanView::Filter { input, .. } => input.reads(table_id),
            PhysicalPlanView::HashAggregate { input, .. } => input.reads(table_id),
            PhysicalPlanView::Sort { input, .. } => input.reads(table_id),
            PhysicalPlanView::Limit { input, .. } => input.reads(table_id),
            PhysicalPlanView::Project { input, .. } => input.reads(table_id),
            PhysicalPlanView::Join { left, right, .. } => left.reads(table_id) || right.reads(
                table_id,
            ),
        }
    }
}

/// Whether a plan reads a table.
pub fn reads_table(plan: &PhysicalPlan, table_id: TableId) -> (reads: bool)
    ensures
        reads == plan.deep_view().reads(table_id),
    decreases plan,
{
    match plan {
        PhysicalPlan::SeqScan { table } => table.id == table_id,
        PhysicalPlan::IndexScan { table, .. } => table.id == table_id,
        PhysicalPlan::Filter { input, .. } => reads_table(input, table_id),
        PhysicalPlan::HashAggregate { input, .. } => reads_table(input, table_id),
        PhysicalPlan::Sort { input, .. } => reads_table(input, table_id),
        PhysicalPlan::Limit { input, .. } => reads_table(input, table_id),
        PhysicalPlan::Project { input, .. } => reads_table(input, table_id),
        PhysicalPlan::Join { left, right, .. } => {
            let left_reads = reads_table(left, table_id);
            let right_reads = reads_table(right, table_id);
            left_reads || right_reads
        },
    }
}

/// The outer expression and the inner column whose equality a join tests.
pub open spec fn join_keys(on: BoundExprView, right: PhysicalPlanView) -> Option<
    (BoundExprView, usize),
> {
    match on {
        BoundExprView::Binary { left: a, op, right: b, .. } => match (op, *a, *b) {
            (
                BinaryOp::Eq,
                BoundExprView::Column { table_id: a_table, column_index: a_column, .. },
                BoundExprView::Column { table_id: b_table, column_index: b_column, .. },
            ) => if right.reads(b_table) && !right.reads(a_table) {
                Some((*a, b_column))
            } else if right.reads(a_table) && !right.reads(b_table) {
                Some((*b, a_column))
            } else {
                None
            },
            _ => None,
        },
        _ => None,
    }
}

/// The outer expression and the inner column whose equality a join tests, when
/// the join is one of two columns on different sides.
pub fn hash_join_keys<'a>(on: &'a BoundExpr, right: &PhysicalPlan) -> (keys: Option<
    (&'a BoundExpr, usize),
>)
    ensures
        match keys {
            Some((expression, column)) => join_keys(on.deep_view(), right.deep_view()) == Some(
                (expression.deep_view(), column),
            ),
            None => join_keys(on.deep_view(), right.deep_view()) is None,
        },
{
    let (a, b) = match on {
        BoundExpr::Binary { left, op: BinaryOp::Eq, right, .. } => (left, right),
        _ => return None,
    };
    proof {
        reveal_with_fuel(BoundExpr::content, 3);
    }
    match (&**a, &**b) {
        (
            BoundExpr::Column { table_id: a_table, column_index: a_column, .. },
            BoundExpr::Column { table_id: b_table, column_index: b_column, .. },
        ) => {
            let reads_a = reads_table(right, *a_table);
            let reads_b = reads_table(right, *b_table);
            if reads_b && !reads_a {
                Some((a, *b_column))
            } else if reads_a && !reads_b {
                Some((b, *a_column))
            } else {
                None
            }
        },
        _ => None,
    }
}

/// An outer row with an inner one.
pub open spec fn combined(left: ExecRowView, right: ExecRowView) -> ExecRowView {
    ExecRowView {
        row: RowView { values: left.row.values + right.row.values },
        aggregates: left.aggregates + right.aggregates,
    }
}

/// An outer row with an inner one.
pub fn combine_rows(left: &ExecRow, right: &ExecRow) -> (row: ExecRow)
    ensures
        row.deep_view() == combined(left.deep_view(), right.deep_view()),
{
    let mut values: Vec<Value> = left.row.values.duplicate();
    let mut i: usize = 0;
    let ghost a = left.row.values.deep_view();
    let ghost b = right.row.values.deep_view();
    assert(a + b.subrange(0, 0) =~= a);
    while i < right.row.values.len()
        invariant
            i <= right.row.values@.len(),
            b == right.row.values.deep_view(),
            values.deep_view() == a + b.subrange(0, i as int),
        decreases right.row.values@.len() - i,
    {
        let ghost before = values.deep_view();
        let value = right.row.values[i].duplicate();
        values.push(value);
        assert(values.deep_view() =~= before.push(value.deep_view()));
        assert(a + b.subrange(0, i + 1) =~= (a + b.subrange(0, i as int)).push(b[i as int]));
        i = i + 1;
    }
    assert(b.subrange(0, i as int) =~= b);
    let mut aggregates: Vec<Computed> = left.aggregates.duplicate();
    let mut j: usize = 0;
    let ghost c = left.aggregates.deep_view();
    let ghost d = right.aggregates.deep_view();
    assert(c + d.subrange(0, 0) =~= c);
    while j < right.aggregates.len()
        invariant
            j <= right.aggregates@.len(),
            d == right.aggregates.deep_view(),
            aggregates.deep_view() == c + d.subrange(0, j as int),
        decreases right.aggregates@.len() - j,
    {
        let ghost before = aggregates.deep_view();
        let item = right.aggregates[j].duplicate();
        aggregates.push(item);
        assert(aggregates.deep_view() =~= before.push(item.deep_view()));
        assert(c + d.subrange(0, j + 1) =~= (c + d.subrange(0, j as int)).push(d[j as int]));
        j = j + 1;
    }
    assert(d.subrange(0, j as int) =~= d);
    ExecRow { row: Row { values }, aggregates }
}

/// The rows of a join after one more pair.
pub open spec fn join_step(
    meaning: Meaning,
    done: std::result::Result<Seq<ExecRowView>, DatabaseErrorKind>,
    outer: ExecRowView,
    inner: ExecRowView,
    on: BoundExprView,
    parameters: Seq<ValueView>,
) -> std::result::Result<Seq<ExecRowView>, DatabaseErrorKind> {
    match done {
        Err(error) => Err(error),
        Ok(rows) => match predicate_holds(meaning, on, combined(outer, inner), parameters) {
            Err(error) => Err(error),
            Ok(false) => Ok(rows),
            Ok(true) => bounded(Ok(rows.push(combined(outer, inner)))),
        },
    }
}

/// The rows of a join after the pairs of an outer row with the inner rows at
/// the first `n` positions.
pub open spec fn probed(
    meaning: Meaning,
    done: std::result::Result<Seq<ExecRowView>, DatabaseErrorKind>,
    outer: ExecRowView,
    inners: Seq<ExecRowView>,
    picked: Seq<usize>,
    on: BoundExprView,
    parameters: Seq<ValueView>,
    n: int,
) -> std::result::Result<Seq<ExecRowView>, DatabaseErrorKind>
    decreases n,
{
    if n <= 0 {
        done
    } else {
        join_step(
            meaning,
            probed(meaning, done, outer, inners, picked, on, parameters, n - 1),
            outer,
            inners[picked[n - 1] as int],
            on,
            parameters,
        )
    }
}

proof fn probed_stops(
    meaning: Meaning,
    done: std::result::Result<Seq<ExecRowView>, DatabaseErrorKind>,
    outer: ExecRowView,
    inners: Seq<ExecRowView>,
    picked: Seq<usize>,
    on: BoundExprView,
    parameters: Seq<ValueView>,
    m: int,
    n: int,
)
    requires
        0 <= m <= n,
        probed(meaning, done, outer, inners, picked, on, parameters, m) is Err,
    ensures
        probed(meaning, done, outer, inners, picked, on, parameters, n) == probed(
            meaning,
            done,
            outer,
            inners,
            picked,
            on,
            parameters,
            m,
        ),
    decreases n,
{
    if m < n {
        probed_stops(meaning, done, outer, inners, picked, on, parameters, m, n - 1);
    }
}

/// Every position below `n`.
pub open spec fn all_positions(n: nat) -> Seq<usize> {
    Seq::new(n, |i: int| i as usize)
}

/// The rows of a join that tries the first `n` outer rows with every inner row.
pub open spec fn loop_joined(
    meaning: Meaning,
    left: Seq<ExecRowView>,
    right: Seq<ExecRowView>,
    on: BoundExprView,
    parameters: Seq<ValueView>,
    n: int,
) -> std::result::Result<Seq<ExecRowView>, DatabaseErrorKind>
    decreases n,
{
    if n <= 0 {
        Ok(Seq::empty())
    } else {
        probed(
            meaning,
            loop_joined(meaning, left, right, on, parameters, n - 1),
            left[n - 1],
            right,
            all_positions(right.len()),
            on,
            parameters,
            right.len() as int,
        )
    }
}

proof fn loop_joined_stops(
    meaning: Meaning,
    left: Seq<ExecRowView>,
    right: Seq<ExecRowView>,
    on: BoundExprView,
    parameters: Seq<ValueView>,
    m: int,
    n: int,
)
    requires
        0 <= m <= n,
        loop_joined(meaning, left, right, on, parameters, m) is Err,
    ensures
        loop_joined(meaning, left, right, on, parameters, n) == loop_joined(
            meaning,
            left,
            right,
            on,
            parameters,
            m,
        ),
    decreases n,
{
    if m < n {
        loop_joined_stops(meaning, left, right, on, parameters, m, n - 1);
        probed_stops(
            meaning,
            loop_joined(meaning, left, right, on, parameters, n - 1),
            left[n - 1],
            right,
            all_positions(right.len()),
            on,
            parameters,
            0,
            right.len() as int,
        );
    }
}

/// The key under which a value joins; `NULL` joins with nothing.
pub open spec fn join_key(value: ValueView) -> std::result::Result<
    Option<Seq<u8>>,
    DatabaseErrorKind,
> {
    if value is Null {
        Ok(None)
    } else if !encodable(value) {
        Err(DatabaseErrorKind::Engine(EngineErrorKind::Core(ErrorKind::LimitExceeded)))
    } else {
        Ok(Some(encoded_value(value)))
    }
}

fn join_key_of(value: &Value) -> (result: Result<Option<Vec<u8>>>)
    ensures
        outcome(result) == join_key(value.deep_view()),
{
    if value.is_null() {
        return Ok(None);
    }
    let mut key: Vec<u8> = Vec::new();
    match encode_value(value, &mut key) {
        Ok(()) => {
            assert(key@ =~= encoded_value(value.deep_view()));
            assert(key.deep_view() =~= key@);
            Ok(Some(key))
        },
        Err(error) => Err(DatabaseError::Engine(EngineError::Core(error))),
    }
}

/// The join keys of the first `n` inner rows.
pub open spec fn inner_keys(rows: Seq<ExecRowView>, column: usize, n: int) -> std::result::Result<
    Seq<Option<Seq<u8>>>,
    DatabaseErrorKind,
>
    decreases n,
{
    if n <= 0 {
        Ok(Seq::empty())
    } else {
        match inner_keys(rows, column, n - 1) {
            Err(error) => Err(error),
            Ok(keys) => if column >= rows[n - 1].row.values.len() {
                Err(DatabaseErrorKind::Invariant)
            } else {
                match join_key(rows[n - 1].row.values[column as int]) {
                    Err(error) => Err(error),
                    Ok(key) => Ok(keys.push(key)),
                }
            },
        }
    }
}

proof fn inner_keys_stop(rows: Seq<ExecRowView>, column: usize, m: int, n: int)
    requires
        0 <= m <= n,
        inner_keys(rows, column, m) is Err,
    ensures
        inner_keys(rows, column, n) == inner_keys(rows, column, m),
    decreases n,
{
    if m < n {
        inner_keys_stop(rows, column, m, n - 1);
    }
}

fn keys_of_inners(rows: &Vec<ExecRow>, column: usize) -> (result: Result<Vec<Option<Vec<u8>>>>)
    ensures
        outcome(result) == inner_keys(rows.deep_view(), column, rows@.len() as int),
        result matches Ok(keys) ==> keys@.len() == rows@.len(),
{
    let ghost view = rows.deep_view();
    let mut keys: Vec<Option<Vec<u8>>> = Vec::with_capacity(rows.len());
    let mut i: usize = 0;
    assert(keys.deep_view() =~= Seq::empty());
    while i < rows.len()
        invariant
            i <= rows@.len(),
            view == rows.deep_view(),
            keys@.len() == i,
            inner_keys(view, column, i as int) == Ok::<Seq<Option<Seq<u8>>>, DatabaseErrorKind>(
                keys.deep_view(),
            ),
        decreases rows@.len() - i,
    {
        assert(view[i as int] == rows@[i as int].deep_view());
        let ghost before = keys.deep_view();
        let key = if column < rows[i].row.values.len() {
            join_key_of(&rows[i].row.values[column])
        } else {
            Err(invariant_error("hash-join inner column is outside row"))
        };
        match key {
            Ok(key) => {
                keys.push(key);
                assert(keys.deep_view() =~= before.push(key.deep_view()));
            },
            Err(error) => {
                proof {
                    inner_keys_stop(view, column, i + 1, view.len() as int);
                }
                return Err(error);
            },
        }
        i = i + 1;
    }
    Ok(keys)
}

/// The rows of a join that looks the first `n` outer rows up by their key.
pub open spec fn hash_joined(
    meaning: Meaning,
    left: Seq<ExecRowView>,
    left_key: BoundExprView,
    right: Seq<ExecRowView>,
    right_keys: Seq<Option<Seq<u8>>>,
    on: BoundExprView,
    parameters: Seq<ValueView>,
    n: int,
) -> std::result::Result<Seq<ExecRowView>, DatabaseErrorKind>
    decreases n,
{
    if n <= 0 {
        Ok(Seq::empty())
    } else {
        match hash_joined(meaning, left, left_key, right, right_keys, on, parameters, n - 1) {
            Err(error) => Err(error),
            Ok(rows) => match evaluated(meaning, left_key, left[n - 1], parameters) {
                Err(error) => Err(error),
                Ok(value) => match join_key(value) {
                    Err(error) => Err(error),
                    Ok(None) => Ok(rows),
                    Ok(Some(key)) => {
                        let picked = positions_with(right_keys, key, right_keys.len() as int);
                        probed(
                            meaning,
                            Ok(rows),
                            left[n - 1],
                            right,
                            picked,
                            on,
                            parameters,
                            picked.len() as int,
                        )
                    },
                },
            },
        }
    }
}

proof fn hash_joined_stops(
    meaning: Meaning,
    left: Seq<ExecRowView>,
    left_key: BoundExprView,
    right: Seq<ExecRowView>,
    right_keys: Seq<Option<Seq<u8>>>,
    on: BoundExprView,
    parameters: Seq<ValueView>,
    m: int,
    n: int,
)
    requires
        0 <= m <= n,
        hash_joined(meaning, left, left_key, right, right_keys, on, parameters, m) is Err,
    ensures
        hash_joined(meaning, left, left_key, right, right_keys, on, parameters, n) == hash_joined(
            meaning,
            left,
            left_key,
            right,
            right_keys,
            on,
            parameters,
            m,
        ),
    decreases n,
{
    if m < n {
        hash_joined_stops(meaning, left, left_key, right, right_keys, on, parameters, m, n - 1);
    }
}

/// The join keys are used only by these algorithms.
pub open spec fn uses_keys(algorithm: JoinAlgorithm) -> bool {
    algorithm is Hash || algorithm is IndexNestedLoop
}

/// The rows of a join of two inputs.
pub open spec fn joined_rows(
    meaning: Meaning,
    left: Seq<ExecRowView>,
    right: Seq<ExecRowView>,
    keys: Option<(BoundExprView, usize)>,
    on: BoundExprView,
    algorithm: JoinAlgorithm,
    parameters: Seq<ValueView>,
) -> std::result::Result<Seq<ExecRowView>, DatabaseErrorKind> {
    match keys {
        Some((left_key, column)) => if uses_keys(algorithm) {
            match inner_keys(right, column, right.len() as int) {
                Err(error) => Err(error),
                Ok(right_keys) => hash_joined(
                    meaning,
                    left,
                    left_key,
                    right,
                    right_keys,
                    on,
                    parameters,
                    left.len() as int,
                ),
            }
        } else {
            loop_joined(meaning, left, right, on, parameters, left.len() as int)
        },
        None => loop_joined(meaning, left, right, on, parameters, left.len() as int),
    }
}

impl<
    E: Fn(&BoundExpr, &Row, &Vec<Value>) -> std::result::Result<Value, SqlError>,
    P: Fn(&BoundExpr, &Row, &Vec<Value>) -> std::result::Result<bool, SqlError>,
> Scalars<E, P> {
    fn probe(
        &self,
        output: &mut Vec<ExecRow>,
        outer: &ExecRow,
        inners: &Vec<ExecRow>,
        picked: &Vec<usize>,
        on: &BoundExpr,
        parameters: &Vec<Value>,
    ) -> (result: Result<()>)
        requires
            self.sound(),
            forall|i: int| 0 <= i < picked@.len() ==> #[trigger] picked@[i] < inners@.len(),
        ensures
            match result {
                Ok(()) => probed(
                    self.meaning(),
                    Ok(old(output).deep_view()),
                    outer.deep_view(),
                    inners.deep_view(),
                    picked@,
                    on.deep_view(),
                    parameters.deep_view(),
                    picked@.len() as int,
                ) == Ok::<Seq<ExecRowView>, DatabaseErrorKind>(final(output).deep_view()),
                Err(error) => probed(
                    self.meaning(),
                    Ok(old(output).deep_view()),
                    outer.deep_view(),
                    inners.deep_view(),
                    picked@,
                    on.deep_view(),
                    parameters.deep_view(),
                    picked@.len() as int,
                ) == Err::<Seq<ExecRowView>, DatabaseErrorKind>(error.deep_view()),
            },
    {
        let ghost meaning = self.meaning();
        let ghost start: std::result::Result<Seq<ExecRowView>, DatabaseErrorKind> = Ok(
            output.deep_view(),
        );
        let ghost outer_view = outer.deep_view();
        let ghost view = inners.deep_view();
        let ghost wanted = on.deep_view();
        let ghost given = parameters.deep_view();
        let mut i: usize = 0;
        while i < picked.len()
            invariant
                self.sound(),
                i <= picked@.len(),
                forall|j: int| 0 <= j < picked@.len() ==> #[trigger] picked@[j] < inners@.len(),
                meaning == self.meaning(),
                outer_view == outer.deep_view(),
                view == inners.deep_view(),
                wanted == on.deep_view(),
                given == parameters.deep_view(),
                start == Ok::<Seq<ExecRowView>, DatabaseErrorKind>(old(output).deep_view()),
                probed(meaning, start, outer_view, view, picked@, wanted, given, i as int) == Ok::<
                    Seq<ExecRowView>,
                    DatabaseErrorKind,
                >(output.deep_view()),
            decreases picked@.len() - i,
        {
            let position: usize = picked[i];
            assert(view[position as int] == inners@[position as int].deep_view());
            let joined = combine_rows(outer, &inners[position]);
            let ghost before = output.deep_view();
            let step = match self.predicate_exec(on, &joined, parameters) {
                Ok(true) => {
                    output.push(joined);
                    assert(output.deep_view() =~= before.push(joined.deep_view()));
                    ensure_intermediate_bound(output)
                },
                Ok(false) => Ok(()),
                Err(error) => Err(error),
            };
            if let Err(error) = step {
                proof {
                    probed_stops(
                        meaning,
                        start,
                        outer_view,
                        view,
                        picked@,
                        wanted,
                        given,
                        i + 1,
                        picked@.len() as int,
                    );
                }
                return Err(error);
            }
            i = i + 1;
        }
        Ok(())
    }

    fn loop_join(
        &self,
        left: &Vec<ExecRow>,
        right: &Vec<ExecRow>,
        on: &BoundExpr,
        parameters: &Vec<Value>,
    ) -> (result: Result<Vec<ExecRow>>)
        requires
            self.sound(),
        ensures
            outcome(result) == loop_joined(
                self.meaning(),
                left.deep_view(),
                right.deep_view(),
                on.deep_view(),
                parameters.deep_view(),
                left@.len() as int,
            ),
    {
        let ghost meaning = self.meaning();
        let ghost outers = left.deep_view();
        let ghost inners = right.deep_view();
        let ghost wanted = on.deep_view();
        let ghost given = parameters.deep_view();
        let mut picked: Vec<usize> = Vec::with_capacity(right.len());
        let mut next: usize = 0;
        while next < right.len()
            invariant
                next <= right@.len(),
                picked@ == all_positions(next as nat),
            decreases right@.len() - next,
        {
            picked.push(next);
            next = next + 1;
            assert(picked@ =~= all_positions(next as nat));
        }
        let mut output: Vec<ExecRow> = Vec::new();
        let mut i: usize = 0;
        assert(output.deep_view() =~= Seq::empty());
        while i < left.len()
            invariant
                self.sound(),
                i <= left@.len(),
                meaning == self.meaning(),
                outers == left.deep_view(),
                inners == right.deep_view(),
                wanted == on.deep_view(),
                given == parameters.deep_view(),
                picked@ == all_positions(inners.len()),
                loop_joined(meaning, outers, inners, wanted, given, i as int) == Ok::<
                    Seq<ExecRowView>,
                    DatabaseErrorKind,
                >(output.deep_view()),
            decreases left@.len() - i,
        {
            assert(outers[i as int] == left@[i as int].deep_view());
            if let Err(error) = self.probe(&mut output, &left[i], right, &picked, on, parameters) {
                proof {
                    loop_joined_stops(
                        meaning,
                        outers,
                        inners,
                        wanted,
                        given,
                        i + 1,
                        outers.len() as int,
                    );
                }
                return Err(error);
            }
            i = i + 1;
        }
        Ok(output)
    }

    fn hash_join(
        &self,
        left: &Vec<ExecRow>,
        left_key: &BoundExpr,
        right: &Vec<ExecRow>,
        right_keys: &Vec<Option<Vec<u8>>>,
        on: &BoundExpr,
        parameters: &Vec<Value>,
    ) -> (result: Result<Vec<ExecRow>>)
        requires
            self.sound(),
            right_keys@.len() == right@.len(),
        ensures
            outcome(result) == hash_joined(
                self.meaning(),
                left.deep_view(),
                left_key.deep_view(),
                right.deep_view(),
                right_keys.deep_view(),
                on.deep_view(),
                parameters.deep_view(),
                left@.len() as int,
            ),
    {
        let ghost meaning = self.meaning();
        let ghost outers = left.deep_view();
        let ghost key_view = left_key.deep_view();
        let ghost inners = right.deep_view();
        let ghost keys = right_keys.deep_view();
        let ghost wanted = on.deep_view();
        let ghost given = parameters.deep_view();
        let buckets = bucketed(right_keys);
        let mut output: Vec<ExecRow> = Vec::new();
        let mut i: usize = 0;
        assert(output.deep_view() =~= Seq::empty());
        while i < left.len()
            invariant
                self.sound(),
                i <= left@.len(),
                meaning == self.meaning(),
                outers == left.deep_view(),
                key_view == left_key.deep_view(),
                inners == right.deep_view(),
                keys == right_keys.deep_view(),
                keys.len() == inners.len(),
                wanted == on.deep_view(),
                given == parameters.deep_view(),
                buckets.deep_view().dom() == keys_seen(keys),
                forall|key: Seq<u8>| #[trigger]
                    buckets.deep_view().contains_key(key) ==> buckets.deep_view()[key]
                        == positions_with(keys, key, keys.len() as int),
                forall|key: Seq<u8>, j: int|
                    #![trigger positions_with(keys, key, keys.len() as int)[j]]
                    0 <= j < positions_with(keys, key, keys.len() as int).len()
                        ==> positions_with(keys, key, keys.len() as int)[j] < keys.len(),
                hash_joined(meaning, outers, key_view, inners, keys, wanted, given, i as int)
                    == Ok::<Seq<ExecRowView>, DatabaseErrorKind>(output.deep_view()),
            decreases left@.len() - i,
        {
            assert(outers[i as int] == left@[i as int].deep_view());
            let step = match self.evaluate_exec(left_key, &left[i], parameters) {
                Ok(value) => match join_key_of(&value) {
                    Ok(None) => Ok(()),
                    Ok(Some(key)) => {
                        let ghost sought = key.deep_view();
                        assert(buckets.deep_view().contains_key(sought) == keys_seen(
                            keys,
                        ).contains(sought));
                        match buckets.get(&key) {
                            Some(picked) => {
                                assert(picked.deep_view() =~= picked@);
                                self.probe(&mut output, &left[i], right, picked, on, parameters)
                            },
                            None => Ok(()),
                        }
                    },
                    Err(error) => Err(error),
                },
                Err(error) => Err(error),
            };
            if let Err(error) = step {
                proof {
                    hash_joined_stops(
                        meaning,
                        outers,
                        key_view,
                        inners,
                        keys,
                        wanted,
                        given,
                        i + 1,
                        outers.len() as int,
                    );
                }
                return Err(error);
            }
            i = i + 1;
        }
        Ok(output)
    }

    /// The rows of a join of two inputs.
    pub fn join_rows(
        &self,
        left: &Vec<ExecRow>,
        right: &Vec<ExecRow>,
        right_plan: &PhysicalPlan,
        on: &BoundExpr,
        algorithm: JoinAlgorithm,
        parameters: &Vec<Value>,
    ) -> (result: Result<Vec<ExecRow>>)
        requires
            self.sound(),
        ensures
            outcome(result) == joined_rows(
                self.meaning(),
                left.deep_view(),
                right.deep_view(),
                join_keys(on.deep_view(), right_plan.deep_view()),
                on.deep_view(),
                algorithm,
                parameters.deep_view(),
            ),
    {
        if let Some((left_key, column)) = hash_join_keys(on, right_plan) {
            let by_key = match algorithm {
                JoinAlgorithm::NestedLoop => false,
                JoinAlgorithm::Hash => true,
                JoinAlgorithm::IndexNestedLoop { .. } => true,
            };
            if by_key {
                let right_keys = match keys_of_inners(right, column) {
                    Ok(keys) => keys,
                    Err(error) => return Err(error),
                };
                return self.hash_join(left, left_key, right, &right_keys, on, parameters);
            }
        }
        self.loop_join(left, right, on, parameters)
    }
}

} // verus!
