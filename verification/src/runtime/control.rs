//! What a node answers to the one who controls it.

use vstd::prelude::*;
use crate::db::results::{ExecutionResult, ExecutionResultView};
use crate::model::{Model, outcome};
use crate::runtime::config::RuntimeStatus;
use crate::runtime::error::{Result, RuntimeError, RuntimeErrorKind};
use crate::server::{row_values, values_of};
use crate::types::{Value, ValueView};

verus! {

broadcast use crate::model::group_contents;

/// What a node answers to the one who controls it.
#[derive(Debug, Clone, PartialEq, Eq)]
pub enum ControlResult {
    Query { columns: Vec<String>, rows: Vec<Vec<Value>>, affected_rows: u64, applied_index: u64 },
    Explain { plan: String, applied_index: u64 },
    Status(RuntimeStatus),
    Shutdown,
}

/// The content of a [`ControlResult`].
#[verifier::ext_equal]
pub enum ControlResultView {
    Query { columns: Seq<Seq<char>>, rows: Seq<Seq<ValueView>>, affected_rows: u64, applied_index: u64 },
    Explain { plan: Seq<char>, applied_index: u64 },
    Status(RuntimeStatus),
    Shutdown,
}

impl DeepView for ControlResult {
    type V = ControlResultView;

    open spec fn deep_view(&self) -> ControlResultView {
        match self {
            ControlResult::Query { columns, rows, affected_rows, applied_index } => ControlResultView::Query {
                columns: columns.deep_view(),
                rows: rows.deep_view(),
                affected_rows: affected_rows.deep_view(),
                applied_index: applied_index.deep_view(),
            },
            ControlResult::Explain { plan, applied_index } => ControlResultView::Explain {
                plan: plan.deep_view(),
                applied_index: applied_index.deep_view(),
            },
            ControlResult::Status(a) => ControlResultView::Status(a.deep_view()),
            ControlResult::Shutdown => ControlResultView::Shutdown,
        }
    }
}

impl Model for ControlResult {
    fn duplicate(&self) -> (copy: Self) {
        match self {
            ControlResult::Query { columns, rows, affected_rows, applied_index } => ControlResult::Query {
                columns: columns.duplicate(),
                rows: rows.duplicate(),
                affected_rows: affected_rows.duplicate(),
                applied_index: applied_index.duplicate(),
            },
            ControlResult::Explain { plan, applied_index } => ControlResult::Explain {
                plan: plan.duplicate(),
                applied_index: applied_index.duplicate(),
            },
            ControlResult::Status(a) => ControlResult::Status(a.duplicate()),
            ControlResult::Shutdown => ControlResult::Shutdown,
        }
    }

    fn same(&self, other: &Self) -> (equal: bool) {
        match (self, other) {
            (
                ControlResult::Query { columns, rows, affected_rows, applied_index },
                ControlResult::Query { columns: other_columns, rows: other_rows, affected_rows: other_affected_rows, applied_index: other_applied_index },
            ) => columns.same(other_columns)
                && rows.same(other_rows)
                && affected_rows.same(other_affected_rows)
                && applied_index.same(other_applied_index),
            (
                ControlResult::Explain { plan, applied_index },
                ControlResult::Explain { plan: other_plan, applied_index: other_applied_index },
            ) => plan.same(other_plan)
                && applied_index.same(other_applied_index),
            (ControlResult::Status(a), ControlResult::Status(other_a)) => a.same(other_a),
            (ControlResult::Shutdown, ControlResult::Shutdown) => true,
            _ => false,
        }
    }
}

/// The answer of a statement. Transactions of several requests are not
/// supported.
pub fn map_execution(result: ExecutionResult) -> (mapped: Result<ControlResult>)
    ensures
        outcome(mapped) == match result.deep_view() {
            ExecutionResultView::Query(query) => Ok(
                ControlResultView::Query {
                    columns: query.columns,
                    rows: row_values(query.rows),
                    affected_rows: query.affected_rows,
                    applied_index: query.applied_index,
                },
            ),
            ExecutionResultView::Explain { plan, applied_index } => Ok(
                ControlResultView::Explain { plan, applied_index },
            ),
            _ => Err::<ControlResultView, RuntimeErrorKind>(RuntimeErrorKind::Unsupported),
        },
{
    match result {
        ExecutionResult::Query(query) => Ok(
            ControlResult::Query {
                columns: query.columns,
                rows: values_of(query.rows),
                affected_rows: query.affected_rows,
                applied_index: query.applied_index,
            },
        ),
        ExecutionResult::Explain { plan, applied_index } => Ok(
            ControlResult::Explain { plan, applied_index },
        ),
        _ => Err(
            RuntimeError::Unsupported(
                "replicated mode does not expose multi-request transactions".to_owned(),
            ),
        ),
    }
}

} // verus!
