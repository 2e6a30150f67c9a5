//! Queries.

use vstd::prelude::*;
use crate::engine::expression::{Expr, ExprView};
use crate::model::Model;
use crate::types::{IndexId, TableId, Value, ValueView};

verus! {

/// Where the rows of a query come from.
#[derive(Debug, Clone, PartialEq, Eq)]
pub enum ScanSource {
    Table(TableId),
    SecondaryEq { index_id: IndexId, value: Value },
}

/// The content of a [`ScanSource`].
#[verifier::ext_equal]
pub enum ScanSourceView {
    Table(TableId),
    SecondaryEq { index_id: IndexId, value: ValueView },
}

impl DeepView for ScanSource {
    type V = ScanSourceView;

    open spec fn deep_view(&self) -> ScanSourceView {
        match self {
            ScanSource::Table(a) => ScanSourceView::Table(a.deep_view()),
            ScanSource::SecondaryEq { index_id, value } => ScanSourceView::SecondaryEq {
                index_id: index_id.deep_view(),
                value: value.deep_view(),
            },
        }
    }
}

impl Model for ScanSource {
    fn duplicate(&self) -> (copy: Self) {
        match self {
            ScanSource::Table(a) => ScanSource::Table(a.duplicate()),
            ScanSource::SecondaryEq { index_id, value } => ScanSource::SecondaryEq {
                index_id: index_id.duplicate(),
                value: value.duplicate(),
            },
        }
    }

    fn same(&self, other: &Self) -> (equal: bool) {
        match (self, other) {
            (ScanSource::Table(a), ScanSource::Table(other_a)) => a.same(other_a),
            (
                ScanSource::SecondaryEq { index_id, value },
                ScanSource::SecondaryEq { index_id: other_index_id, value: other_value },
            ) => index_id.same(other_index_id)
                && value.same(other_value),
            _ => false,
        }
    }
}

/// One key of a query's order.
#[derive(Debug, Clone, PartialEq, Eq)]
pub struct OrderBy {
    pub expression: Expr,
    pub descending: bool,
    pub nulls_first: bool,
}

/// The content of a [`OrderBy`].
#[verifier::ext_equal]
pub struct OrderByView {
    pub expression: ExprView,
    pub descending: bool,
    pub nulls_first: bool,
}

impl DeepView for OrderBy {
    type V = OrderByView;

    open spec fn deep_view(&self) -> OrderByView {
        OrderByView {
            expression: self.expression.deep_view(),
            descending: self.descending.deep_view(),
            nulls_first: self.nulls_first.deep_view(),
        }
    }
}

impl Model for OrderBy {
    fn duplicate(&self) -> (copy: Self) {
        OrderBy {
            expression: self.expression.duplicate(),
            descending: self.descending.duplicate(),
            nulls_first: self.nulls_first.duplicate(),
        }
    }

    fn same(&self, other: &Self) -> (equal: bool) {
        self.expression.same(&other.expression)
            && self.descending.same(&other.descending)
            && self.nulls_first.same(&other.nulls_first)
    }
}

/// A query over one source.
#[derive(Debug, Clone, PartialEq, Eq)]
pub struct Query {
    pub source: ScanSource,
    pub filter: Option<Expr>,
    /// An empty projection returns the source row unchanged.
    pub projection: Vec<Expr>,
    pub order_by: Vec<OrderBy>,
    pub offset: usize,
    pub limit: Option<usize>,
}

/// The content of a [`Query`].
#[verifier::ext_equal]
pub struct QueryView {
    pub source: ScanSourceView,
    pub filter: Option<ExprView>,
    pub projection: Seq<ExprView>,
    pub order_by: Seq<OrderByView>,
    pub offset: usize,
    pub limit: Option<usize>,
}

impl DeepView for Query {
    type V = QueryView;

    open spec fn deep_view(&self) -> QueryView {
        QueryView {
            source: self.source.deep_view(),
            filter: self.filter.deep_view(),
            projection: self.projection.deep_view(),
            order_by: self.order_by.deep_view(),
            offset: self.offset.deep_view(),
            limit: self.limit.deep_view(),
        }
    }
}

impl Model for Query {
    fn duplicate(&self) -> (copy: Self) {
        Query {
            source: self.source.duplicate(),
            filter: self.filter.duplicate(),
            projection: self.projection.duplicate(),
            order_by: self.order_by.duplicate(),
            offset: self.offset.duplicate(),
            limit: self.limit.duplicate(),
        }
    }

    fn same(&self, other: &Self) -> (equal: bool) {
        self.source.same(&other.source)
            && self.filter.same(&other.filter)
            && self.projection.same(&other.projection)
            && self.order_by.same(&other.order_by)
            && self.offset.same(&other.offset)
            && self.limit.same(&other.limit)
    }
}

impl Query {
    /// The query for all rows of a table.
    pub fn table(table_id: TableId) -> (query: Query)
        ensures
            query.deep_view() == (QueryView {
                source: ScanSourceView::Table(table_id),
                filter: None,
                projection: Seq::empty(),
                order_by: Seq::empty(),
                offset: 0,
                limit: None,
            }),
    {
        let query = Query {
            source: ScanSource::Table(table_id),
            filter: None,
            projection: Vec::new(),
            order_by: Vec::new(),
            offset: 0,
            limit: None,
        };
        assert(query.deep_view().projection =~= Seq::empty());
        assert(query.deep_view().order_by =~= Seq::empty());
        query
    }
}

} // verus!
