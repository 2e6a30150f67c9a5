//! Groups of rows and the aggregates over them.

use std::cmp::Ordering;

use vstd::prelude::*;
use crate::codec::encode_row;
use crate::db::error::{DatabaseError, DatabaseErrorKind, Result};
use crate::db::rows::{
    aggregated, all_aggregated, bucketed, extreme, group_keys, group_row, group_rows, grouped,
    keys_seen, picked_values, positions_with, present_count, summed,
};
use crate::db::scalar::{
    Computed, ComputedView, ExecRow, ExecRowView, Meaning, Scalars, invariant_error, sql_error,
    type_error,
};
use crate::db::sql::{
    AggregateFunction, BoundExpr, BoundExprView, Span, SqlError, SqlErrorKind,
};
use crate::engine::error::EngineError;
use crate::model::{Model, outcome};
use crate::types::{Row, Value, ValueView};

verus! {

broadcast use crate::model::group_contents;

/// Every picked position is one of the rows.
spec fn picks(picked: Seq<usize>, rows: nat) -> bool {
    forall|i: int| 0 <= i < picked.len() ==> #[trigger] picked[i] < rows
}

/// Whether `value` replaces the smallest or greatest so far.
fn replaces(function: AggregateFunction, value: &Value, current: &Value) -> (replaces: bool)
    requires
        value.deep_view() !is Null,
    ensures
        replaces == (function == AggregateFunction::Min && value.deep_view().precedes(
            current.deep_view(),
        ) || function == AggregateFunction::Max && current.deep_view().precedes(
            value.deep_view(),
        ) && !value.deep_view().precedes(current.deep_view())),
{
    match value.checked_cmp(current) {
        Ok(Some(Ordering::Less)) => function == AggregateFunction::Min,
        Ok(Some(Ordering::Greater)) => function == AggregateFunction::Max,
        _ => false,
    }
}

impl<
    E: Fn(&BoundExpr, &Row, &Vec<Value>) -> std::result::Result<Value, SqlError>,
    P: Fn(&BoundExpr, &Row, &Vec<Value>) -> std::result::Result<bool, SqlError>,
> Scalars<E, P> {
    fn count(
        &self,
        argument: &BoundExpr,
        rows: &Vec<ExecRow>,
        picked: &Vec<usize>,
        parameters: &Vec<Value>,
    ) -> (result: Result<usize>)
        requires
            self.sound(),
            picks(picked@, rows@.len()),
        ensures
            match result {
                Ok(count) => picked_values(
                    self.meaning(),
                    argument.deep_view(),
                    rows.deep_view(),
                    picked@,
                    parameters.deep_view(),
                    picked@.len() as int,
                ) matches Ok(values) && count == present_count(values, values.len() as int),
                Err(error) => picked_values(
                    self.meaning(),
                    argument.deep_view(),
                    rows.deep_view(),
                    picked@,
                    parameters.deep_view(),
                    picked@.len() as int,
                ) == Err::<Seq<ValueView>, DatabaseErrorKind>(error.deep_view()),
            },
    {
        let ghost meaning = self.meaning();
        let ghost wanted = argument.deep_view();
        let ghost view = rows.deep_view();
        let ghost given = parameters.deep_view();
        let ghost mut values = Seq::<ValueView>::empty();
        let mut count: usize = 0;
        let mut i: usize = 0;
        while i < picked.len()
            invariant
                self.sound(),
                picks(picked@, rows@.len()),
                i <= picked@.len(),
                count <= i,
                meaning == self.meaning(),
                wanted == argument.deep_view(),
                view == rows.deep_view(),
                given == parameters.deep_view(),
                values.len() == i,
                picked_values(meaning, wanted, view, picked@, given, i as int) == Ok::<
                    Seq<ValueView>,
                    DatabaseErrorKind,
                >(values),
                count == present_count(values, i as int),
            decreases picked@.len() - i,
        {
            let position: usize = picked[i];
            assert(view[position as int] == rows@[position as int].deep_view());
            match self.evaluate_exec(argument, &rows[position], parameters) {
                Ok(value) => {
                    proof {
                        present_count_extends(values, value.deep_view(), i as int);
                        values = values.push(value.deep_view());
                    }
                    if !value.is_null() {
                        count = count + 1;
                    }
                },
                Err(error) => {
                    proof {
                        picked_values_stop(
                            meaning,
                            wanted,
                            view,
                            picked@,
                            given,
                            i + 1,
                            picked@.len() as int,
                        );
                    }
                    return Err(error);
                },
            }
            i = i + 1;
        }
        Ok(count)
    }

    fn sum(
        &self,
        argument: &BoundExpr,
        rows: &Vec<ExecRow>,
        picked: &Vec<usize>,
        parameters: &Vec<Value>,
        span: Span,
    ) -> (result: Result<Option<i64>>)
        requires
            self.sound(),
            picks(picked@, rows@.len()),
        ensures
            outcome(result) == summed(
                self.meaning(),
                argument.deep_view(),
                rows.deep_view(),
                picked@,
                parameters.deep_view(),
                span,
                picked@.len() as int,
            ),
    {
        let ghost meaning = self.meaning();
        let ghost wanted = argument.deep_view();
        let ghost view = rows.deep_view();
        let ghost given = parameters.deep_view();
        let mut sum: Option<i64> = None;
        let mut i: usize = 0;
        while i < picked.len()
            invariant
                self.sound(),
                picks(picked@, rows@.len()),
                i <= picked@.len(),
                meaning == self.meaning(),
                wanted == argument.deep_view(),
                view == rows.deep_view(),
                given == parameters.deep_view(),
                summed(meaning, wanted, view, picked@, given, span, i as int) == Ok::<
                    Option<i64>,
                    DatabaseErrorKind,
                >(sum),
            decreases picked@.len() - i,
        {
            let position: usize = picked[i];
            assert(view[position as int] == rows@[position as int].deep_view());
            let step = match self.evaluate_exec(argument, &rows[position], parameters) {
                Ok(Value::Null) => Ok(sum),
                Ok(Value::Int64(number)) => {
                    let so_far: i64 = match sum {
                        Some(sum) => sum,
                        None => 0,
                    };
                    match so_far.checked_add(number) {
                        Some(total) => Ok(Some(total)),
                        None => Err(
                            sql_error(SqlErrorKind::Constraint, "INT64 SUM overflow", span),
                        ),
                    }
                },
                Ok(other) => Err(type_error("SUM", &other, span)),
                Err(error) => Err(error),
            };
            match step {
                Ok(next) => {
                    sum = next;
                },
                Err(error) => {
                    proof {
                        summed_stops(
                            meaning,
                            wanted,
                            view,
                            picked@,
                            given,
                            span,
                            i + 1,
                            picked@.len() as int,
                        );
                    }
                    return Err(error);
                },
            }
            i = i + 1;
        }
        Ok(sum)
    }

    fn select_extreme(
        &self,
        function: AggregateFunction,
        argument: &BoundExpr,
        rows: &Vec<ExecRow>,
        picked: &Vec<usize>,
        parameters: &Vec<Value>,
    ) -> (result: Result<Option<Value>>)
        requires
            self.sound(),
            picks(picked@, rows@.len()),
        ensures
            outcome(result) == extreme(
                self.meaning(),
                function,
                argument.deep_view(),
                rows.deep_view(),
                picked@,
                parameters.deep_view(),
                picked@.len() as int,
            ),
    {
        let ghost meaning = self.meaning();
        let ghost wanted = argument.deep_view();
        let ghost view = rows.deep_view();
        let ghost given = parameters.deep_view();
        let mut selected: Option<Value> = None;
        let mut i: usize = 0;
        while i < picked.len()
            invariant
                self.sound(),
                picks(picked@, rows@.len()),
                i <= picked@.len(),
                meaning == self.meaning(),
                wanted == argument.deep_view(),
                view == rows.deep_view(),
                given == parameters.deep_view(),
                extreme(meaning, function, wanted, view, picked@, given, i as int) == Ok::<
                    Option<ValueView>,
                    DatabaseErrorKind,
                >(selected.deep_view()),
            decreases picked@.len() - i,
        {
            let position: usize = picked[i];
            assert(view[position as int] == rows@[position as int].deep_view());
            match self.evaluate_exec(argument, &rows[position], parameters) {
                Ok(value) => {
                    if !value.is_null() {
                        let replace = match &selected {
                            None => true,
                            Some(current) => replaces(function, &value, current),
                        };
                        if replace {
                            selected = Some(value);
                        }
                    }
                },
                Err(error) => {
                    proof {
                        extreme_stops(
                            meaning,
                            function,
                            wanted,
                            view,
                            picked@,
                            given,
                            i + 1,
                            picked@.len() as int,
                        );
                    }
                    return Err(error);
                },
            }
            i = i + 1;
        }
        Ok(selected)
    }

    /// The value of an aggregate over the picked rows.
    pub fn compute_aggregate(
        &self,
        expression: &BoundExpr,
        rows: &Vec<ExecRow>,
        picked: &Vec<usize>,
        parameters: &Vec<Value>,
    ) -> (result: Result<Value>)
        requires
            self.sound(),
            forall|i: int| 0 <= i < picked@.len() ==> #[trigger] picked@[i] < rows@.len(),
        ensures
            outcome(result) == aggregated(
                self.meaning(),
                expression.deep_view(),
                rows.deep_view(),
                picked@,
                parameters.deep_view(),
            ),
    {
        let (function, argument, span) = match expression {
            BoundExpr::Aggregate { function, argument, span } => (*function, argument, *span),
            _ => return Err(invariant_error("aggregate plan contains a scalar expression")),
        };
        match function {
            AggregateFunction::Count => {
                let count: usize = match argument {
                    None => picked.len(),
                    Some(argument) => match self.count(argument, rows, picked, parameters) {
                        Ok(count) => count,
                        Err(error) => return Err(error),
                    },
                };
                if count as u64 > 0x7FFF_FFFF_FFFF_FFFF {
                    return Err(DatabaseError::ResourceLimit("COUNT exceeds INT64".to_owned()));
                }
                Ok(Value::Int64(count as i64))
            },
            AggregateFunction::Sum => match argument {
                None => Err(invariant_error("SUM is missing its argument")),
                Some(argument) => match self.sum(argument, rows, picked, parameters, span) {
                    Ok(Some(sum)) => Ok(Value::Int64(sum)),
                    Ok(None) => Ok(Value::Null),
                    Err(error) => Err(error),
                },
            },
            _ => match argument {
                None => Err(invariant_error("MIN/MAX is missing its argument")),
                Some(argument) => match self.select_extreme(
                    function,
                    argument,
                    rows,
                    picked,
                    parameters,
                ) {
                    Ok(Some(value)) => Ok(value),
                    Ok(None) => Ok(Value::Null),
                    Err(error) => Err(error),
                },
            },
        }
    }

    fn summarize(
        &self,
        aggregates: &Vec<BoundExpr>,
        rows: &Vec<ExecRow>,
        picked: &Vec<usize>,
        parameters: &Vec<Value>,
    ) -> (result: Result<ExecRow>)
        requires
            self.sound(),
            picks(picked@, rows@.len()),
        ensures
            outcome(result) == group_row(
                self.meaning(),
                aggregates.deep_view(),
                rows.deep_view(),
                picked@,
                parameters.deep_view(),
            ),
    {
        let ghost meaning = self.meaning();
        let ghost wanted = aggregates.deep_view();
        let ghost view = rows.deep_view();
        let ghost given = parameters.deep_view();
        let mut computed: Vec<Computed> = Vec::with_capacity(aggregates.len());
        let mut i: usize = 0;
        assert(computed.deep_view() =~= Seq::empty());
        while i < aggregates.len()
            invariant
                self.sound(),
                picks(picked@, rows@.len()),
                i <= aggregates@.len(),
                meaning == self.meaning(),
                wanted == aggregates.deep_view(),
                view == rows.deep_view(),
                given == parameters.deep_view(),
                all_aggregated(meaning, wanted, view, picked@, given, i as int) == Ok::<
                    Seq<ComputedView>,
                    DatabaseErrorKind,
                >(computed.deep_view()),
            decreases aggregates@.len() - i,
        {
            assert(wanted[i as int] == aggregates@[i as int].deep_view());
            let ghost before = computed.deep_view();
            match self.compute_aggregate(&aggregates[i], rows, picked, parameters) {
                Ok(value) => {
                    let item = Computed { expression: aggregates[i].duplicate(), value };
                    computed.push(item);
                    assert(computed.deep_view() =~= before.push(item.deep_view()));
                },
                Err(error) => {
                    proof {
                        all_aggregated_stops(
                            meaning,
                            wanted,
                            view,
                            picked@,
                            given,
                            i + 1,
                            wanted.len() as int,
                        );
                    }
                    return Err(error);
                },
            }
            i = i + 1;
        }
        let row = if picked.len() == 0 {
            let values: Vec<Value> = Vec::new();
            assert(values.deep_view() =~= Seq::empty());
            Row { values }
        } else {
            let first: usize = picked[0];
            assert(view[first as int] == rows@[first as int].deep_view());
            rows[first].row.duplicate()
        };
        Ok(ExecRow { row, aggregates: computed })
    }

    fn keys_of_groups(
        &self,
        group_by: &Vec<BoundExpr>,
        rows: &Vec<ExecRow>,
        parameters: &Vec<Value>,
    ) -> (result: Result<Vec<Option<Vec<u8>>>>)
        requires
            self.sound(),
        ensures
            outcome(result) == group_keys(
                self.meaning(),
                group_by.deep_view(),
                rows.deep_view(),
                parameters.deep_view(),
                rows@.len() as int,
            ),
    {
        let ghost meaning = self.meaning();
        let ghost wanted = group_by.deep_view();
        let ghost view = rows.deep_view();
        let ghost given = parameters.deep_view();
        let mut keys: Vec<Option<Vec<u8>>> = Vec::with_capacity(rows.len());
        let mut i: usize = 0;
        assert(keys.deep_view() =~= Seq::empty());
        while i < rows.len()
            invariant
                self.sound(),
                i <= rows@.len(),
                meaning == self.meaning(),
                wanted == group_by.deep_view(),
                view == rows.deep_view(),
                given == parameters.deep_view(),
                group_keys(meaning, wanted, view, given, i as int) == Ok::<
                    Seq<Option<Seq<u8>>>,
                    DatabaseErrorKind,
                >(keys.deep_view()),
            decreases rows@.len() - i,
        {
            assert(view[i as int] == rows@[i as int].deep_view());
            let ghost before = keys.deep_view();
            let key = match self.evaluate_all(group_by, &rows[i], parameters) {
                Ok(values) => match encode_row(&Row { values }) {
                    Ok(key) => Ok(key),
                    Err(error) => Err(DatabaseError::Engine(EngineError::Core(error))),
                },
                Err(error) => Err(error),
            };
            match key {
                Ok(key) => {
                    let key = Some(key);
                    keys.push(key);
                    assert(keys.deep_view() =~= before.push(key.deep_view()));
                },
                Err(error) => {
                    proof {
                        crate::db::rows::group_keys_stop(
                            meaning,
                            wanted,
                            view,
                            given,
                            i + 1,
                            view.len() as int,
                        );
                    }
                    return Err(error);
                },
            }
            i = i + 1;
        }
        Ok(keys)
    }

    /// Rows by group, with their aggregates.
    pub fn aggregate_rows(
        &self,
        rows: &Vec<ExecRow>,
        group_by: &Vec<BoundExpr>,
        aggregates: &Vec<BoundExpr>,
        parameters: &Vec<Value>,
    ) -> (result: Result<Vec<ExecRow>>)
        requires
            self.sound(),
        ensures
            outcome(result) == grouped(
                self.meaning(),
                group_by.deep_view(),
                aggregates.deep_view(),
                rows.deep_view(),
                parameters.deep_view(),
            ),
    {
        let ghost meaning = self.meaning();
        let ghost view = rows.deep_view();
        let ghost wanted = aggregates.deep_view();
        let ghost given = parameters.deep_view();
        let keys = match self.keys_of_groups(group_by, rows, parameters) {
            Ok(keys) => keys,
            Err(error) => return Err(error),
        };
        let mut output: Vec<ExecRow> = Vec::new();
        assert(output.deep_view() =~= Seq::empty());
        if rows.len() == 0 && group_by.len() == 0 {
            let none: Vec<usize> = Vec::new();
            assert(none@ =~= Seq::empty());
            match self.summarize(aggregates, rows, &none, parameters) {
                Ok(row) => {
                    output.push(row);
                    assert(output.deep_view() =~= seq![row.deep_view()]);
                    return Ok(output);
                },
                Err(error) => return Err(error),
            }
        }
        let buckets = bucketed(&keys);
        let ghost key_view = keys.deep_view();
        let count: usize = buckets.len();
        let mut i: usize = 0;
        proof {
            crate::db::rows::group_keys_len(
                meaning,
                group_by.deep_view(),
                view,
                given,
                view.len() as int,
            );
        }
        while i < count
            invariant
                self.sound(),
                i <= count,
                count == buckets.keys().len(),
                buckets.deep_view().dom() == keys_seen(key_view),
                meaning == self.meaning(),
                wanted == aggregates.deep_view(),
                view == rows.deep_view(),
                given == parameters.deep_view(),
                key_view.len() == rows@.len(),
                !(rows@.len() == 0 && group_by@.len() == 0),
                group_keys(meaning, group_by.deep_view(), view, given, view.len() as int) == Ok::<
                    Seq<Option<Seq<u8>>>,
                    DatabaseErrorKind,
                >(key_view),
                forall|key: Seq<u8>| #[trigger]
                    buckets.deep_view().contains_key(key) ==> buckets.deep_view()[key]
                        == positions_with(key_view, key, key_view.len() as int),
                forall|key: Seq<u8>, j: int|
                    #![trigger positions_with(key_view, key, key_view.len() as int)[j]]
                    0 <= j < positions_with(key_view, key, key_view.len() as int).len()
                        ==> positions_with(key_view, key, key_view.len() as int)[j]
                        < key_view.len(),
                group_rows(meaning, wanted, view, key_view, given, i as int) == Ok::<
                    Seq<ExecRowView>,
                    DatabaseErrorKind,
                >(output.deep_view()),
            decreases count - i,
        {
            let ghost key = buckets.keys()[i as int];
            let picked = buckets.value_at(i);
            assert(picked.deep_view() =~= picked@);
            assert(picked@ == positions_with(key_view, key, key_view.len() as int));
            assert(picks(picked@, rows@.len()));
            let ghost before = output.deep_view();
            match self.summarize(aggregates, rows, picked, parameters) {
                Ok(row) => {
                    output.push(row);
                    assert(output.deep_view() =~= before.push(row.deep_view()));
                },
                Err(error) => {
                    proof {
                        crate::db::rows::group_rows_stop(
                            meaning,
                            wanted,
                            view,
                            key_view,
                            given,
                            i + 1,
                            count as int,
                        );
                    }
                    return Err(error);
                },
            }
            i = i + 1;
        }
        Ok(output)
    }
}

proof fn present_count_extends(values: Seq<ValueView>, value: ValueView, n: int)
    requires
        0 <= n <= values.len(),
    ensures
        present_count(values.push(value), n) == present_count(values, n),
    decreases n,
{
    if n > 0 {
        present_count_extends(values, value, n - 1);
    }
}

proof fn picked_values_stop(
    meaning: Meaning,
    argument: BoundExprView,
    rows: Seq<ExecRowView>,
    picked: Seq<usize>,
    parameters: Seq<ValueView>,
    m: int,
    n: int,
)
    requires
        0 <= m <= n,
        picked_values(meaning, argument, rows, picked, parameters, m) is Err,
    ensures
        picked_values(meaning, argument, rows, picked, parameters, n) == picked_values(
            meaning,
            argument,
            rows,
            picked,
            parameters,
            m,
        ),
    decreases n,
{
    if m < n {
        picked_values_stop(meaning, argument, rows, picked, parameters, m, n - 1);
    }
}

proof fn summed_stops(
    meaning: Meaning,
    argument: BoundExprView,
    rows: Seq<ExecRowView>,
    picked: Seq<usize>,
    parameters: Seq<ValueView>,
    span: Span,
    m: int,
    n: int,
)
    requires
        0 <= m <= n,
        summed(meaning, argument, rows, picked, parameters, span, m) is Err,
    ensures
        summed(meaning, argument, rows, picked, parameters, span, n) == summed(
            meaning,
            argument,
            rows,
            picked,
            parameters,
            span,
            m,
        ),
    decreases n,
{
    if m < n {
        summed_stops(meaning, argument, rows, picked, parameters, span, m, n - 1);
    }
}

proof fn extreme_stops(
    meaning: Meaning,
    function: AggregateFunction,
    argument: BoundExprView,
    rows: Seq<ExecRowView>,
    picked: Seq<usize>,
    parameters: Seq<ValueView>,
    m: int,
    n: int,
)
    requires
        0 <= m <= n,
        extreme(meaning, function, argument, rows, picked, parameters, m) is Err,
    ensures
        extreme(meaning, function, argument, rows, picked, parameters, n) == extreme(
            meaning,
            function,
            argument,
            rows,
            picked,
            parameters,
            m,
        ),
    decreases n,
{
    if m < n {
        extreme_stops(meaning, function, argument, rows, picked, parameters, m, n - 1);
    }
}

proof fn all_aggregated_stops(
    meaning: Meaning,
    aggregates: Seq<BoundExprView>,
    rows: Seq<ExecRowView>,
    picked: Seq<usize>,
    parameters: Seq<ValueView>,
    m: int,
    n: int,
)
    requires
        0 <= m <= n,
        all_aggregated(meaning, aggregates, rows, picked, parameters, m) is Err,
    ensures
        all_aggregated(meaning, aggregates, rows, picked, parameters, n) == all_aggregated(
            meaning,
            aggregates,
            rows,
            picked,
            parameters,
            m,
        ),
    decreases n,
{
    if m < n {
        all_aggregated_stops(meaning, aggregates, rows, picked, parameters, m, n - 1);
    }
}

} // verus!
