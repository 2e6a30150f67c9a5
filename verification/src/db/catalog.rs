//! The catalog that SQL statements are bound and planned against.

use vstd::prelude::*;
use crate::db::sql::{IndexDef, IndexDefView, TableDef, TableDefView};
use crate::engine::catalog::{
    CatalogMutation, CatalogMutationView, CatalogView, IndexMeta, IndexMetaView, TableMeta,
    TableMetaView,
};
use crate::engine::state::{Engine, EngineView};
use crate::engine::transaction::{Transaction, TransactionView};
use crate::model::Model;
use crate::ordmap::ordered;
use crate::types::TableId;

verus! {

broadcast use crate::model::group_contents;

/// The committed tables and indexes and those that one transaction has staged,
/// in the order of their ids.
#[derive(Debug, Clone, PartialEq, Eq)]
pub struct EngineCatalog {
    pub tables: Vec<TableDef>,
    pub indexes: Vec<IndexDef>,
}

/// The content of a [`EngineCatalog`].
#[verifier::ext_equal]
pub struct EngineCatalogView {
    pub tables: Seq<TableDefView>,
    pub indexes: Seq<IndexDefView>,
}

impl DeepView for EngineCatalog {
    type V = EngineCatalogView;

    open spec fn deep_view(&self) -> EngineCatalogView {
        EngineCatalogView {
            tables: self.tables.deep_view(),
            indexes: self.indexes.deep_view(),
        }
    }
}

impl Model for EngineCatalog {
    fn duplicate(&self) -> (copy: Self) {
        EngineCatalog {
            tables: self.tables.duplicate(),
            indexes: self.indexes.duplicate(),
        }
    }

    fn same(&self, other: &Self) -> (equal: bool) {
        self.tables.same(&other.tables)
            && self.indexes.same(&other.indexes)
    }
}
pub open spec fn table_def(table: TableMetaView) -> TableDefView {
    TableDefView { id: table.id, name: table.name, schema: table.schema }
}

pub open spec fn index_def(index: IndexMetaView) -> IndexDefView {
    IndexDefView {
        id: index.id,
        name: index.name,
        table_id: index.table_id,
        column_index: index.column,
    }
}

/// The place behind every one of the first `n` tables up to the last whose id
/// is not greater.
pub open spec fn table_place(tables: Seq<TableDefView>, id: TableId, n: int) -> int
    decreases n,
{
    if n <= 0 {
        0
    } else if id < tables[n - 1].id {
        table_place(tables, id, n - 1)
    } else {
        n
    }
}

/// The place behind every one of the first `n` indexes up to the last whose id
/// is not greater.
pub open spec fn index_place(indexes: Seq<IndexDefView>, id: u64, n: int) -> int
    decreases n,
{
    if n <= 0 {
        0
    } else if id < indexes[n - 1].id {
        index_place(indexes, id, n - 1)
    } else {
        n
    }
}

impl EngineCatalogView {
    /// The committed tables and indexes.
    pub open spec fn committed(catalog: CatalogView) -> EngineCatalogView {
        let tables = ordered::<u64>(catalog.tables.dom());
        let indexes = ordered::<u64>(catalog.indexes.dom());
        EngineCatalogView {
            tables: Seq::new(tables.len(), |i: int| table_def(catalog.tables[tables[i]])),
            indexes: Seq::new(indexes.len(), |i: int| index_def(catalog.indexes[indexes[i]])),
        }
    }

    /// The catalog with what one mutation stages, in its place.
    pub open spec fn with(self, mutation: CatalogMutationView) -> EngineCatalogView {
        match mutation {
            CatalogMutationView::CreateTable(table) => EngineCatalogView {
                tables: self.tables.insert(
                    table_place(self.tables, table.id, self.tables.len() as int),
                    table_def(table),
                ),
                ..self
            },
            CatalogMutationView::CreateIndex(index) => EngineCatalogView {
                indexes: self.indexes.insert(
                    index_place(self.indexes, index.id, self.indexes.len() as int),
                    index_def(index),
                ),
                ..self
            },
        }
    }

    /// The catalog with what the first `n` mutations stage.
    pub open spec fn with_staged(self, mutations: Seq<CatalogMutationView>, n: int) -> EngineCatalogView
        decreases n,
    {
        if n <= 0 {
            self
        } else {
            self.with_staged(mutations, n - 1).with(mutations[n - 1])
        }
    }

    /// The catalog that a transaction sees.
    pub open spec fn seen(engine: EngineView, transaction: Option<TransactionView>) -> EngineCatalogView {
        let committed = EngineCatalogView::committed(engine.catalog);
        match transaction {
            None => committed,
            Some(transaction) => committed.with_staged(
                transaction.catalog_mutations,
                transaction.catalog_mutations.len() as int,
            ),
        }
    }

    /// The indexes of a table among the first `n`.
    pub open spec fn indexes_of(self, table_id: TableId, n: int) -> Seq<IndexDefView>
        decreases n,
    {
        if n <= 0 {
            Seq::empty()
        } else if self.indexes[n - 1].table_id == table_id {
            self.indexes_of(table_id, n - 1).push(self.indexes[n - 1])
        } else {
            self.indexes_of(table_id, n - 1)
        }
    }
}

fn table_def_of(table: &TableMeta) -> (def: TableDef)
    ensures
        def.deep_view() == table_def(table.deep_view()),
{
    TableDef { id: table.id, name: table.name.duplicate(), schema: table.schema.duplicate() }
}

fn index_def_of(index: &IndexMeta) -> (def: IndexDef)
    ensures
        def.deep_view() == index_def(index.deep_view()),
{
    IndexDef {
        id: index.id,
        name: index.name.duplicate(),
        table_id: index.table_id,
        column_index: index.column,
    }
}

impl EngineCatalog {
    /// The catalog that a transaction sees, or the committed one.
    pub fn new(engine: &Engine, transaction: Option<&Transaction>) -> (catalog: EngineCatalog)
        ensures
            catalog.deep_view() == EngineCatalogView::seen(
                engine.deep_view(),
                transaction_content(transaction),
            ),
    {
        let ghost committed = EngineCatalogView::committed(engine.deep_view().catalog);
        let metas = engine.catalog().tables();
        let mut tables: Vec<TableDef> = Vec::with_capacity(metas.len());
        let mut i: usize = 0;
        while i < metas.len()
            invariant
                i <= metas@.len(),
                metas@.len() == committed.tables.len(),
                forall|j: int|
                    0 <= j < metas@.len() ==> table_def((#[trigger] metas@[j]).deep_view())
                        == committed.tables[j],
                tables@.len() == i,
                forall|j: int|
                    0 <= j < i ==> (#[trigger] tables@[j]).deep_view() == committed.tables[j],
            decreases metas@.len() - i,
        {
            tables.push(table_def_of(metas[i]));
            i = i + 1;
        }
        assert(tables.deep_view() =~= committed.tables);
        let index_metas = engine.catalog().indexes();
        let mut indexes: Vec<IndexDef> = Vec::with_capacity(index_metas.len());
        let mut k: usize = 0;
        while k < index_metas.len()
            invariant
                k <= index_metas@.len(),
                index_metas@.len() == committed.indexes.len(),
                forall|j: int|
                    0 <= j < index_metas@.len() ==> index_def(
                        (#[trigger] index_metas@[j]).deep_view(),
                    ) == committed.indexes[j],
                indexes@.len() == k,
                forall|j: int|
                    0 <= j < k ==> (#[trigger] indexes@[j]).deep_view() == committed.indexes[j],
            decreases index_metas@.len() - k,
        {
            indexes.push(index_def_of(index_metas[k]));
            k = k + 1;
        }
        assert(indexes.deep_view() =~= committed.indexes);
        let mut catalog = EngineCatalog { tables, indexes };
        if let Some(transaction) = transaction {
            let mutations = transaction.catalog_mutations();
            let ghost staged = mutations.deep_view();
            let mut n: usize = 0;
            while n < mutations.len()
                invariant
                    n <= mutations@.len(),
                    staged == mutations.deep_view(),
                    catalog.deep_view() == committed.with_staged(staged, n as int),
                decreases mutations@.len() - n,
            {
                assert(staged[n as int] == mutations@[n as int].deep_view());
                catalog.stage(&mutations[n]);
                n = n + 1;
            }
        }
        catalog
    }

    fn stage(&mut self, mutation: &CatalogMutation)
        ensures
            final(self).deep_view() == old(self).deep_view().with(mutation.deep_view()),
    {
        match mutation {
            CatalogMutation::CreateTable(table) => {
                let ghost before = self.tables.deep_view();
                let def = table_def_of(table);
                let mut place: usize = self.tables.len();
                while place > 0 && table.id < self.tables[place - 1].id
                    invariant
                        place <= self.tables@.len(),
                        before == self.tables.deep_view(),
                        table_place(before, table.id, before.len() as int) == table_place(
                            before,
                            table.id,
                            place as int,
                        ),
                    decreases place,
                {
                    place = place - 1;
                }
                self.tables.insert(place, def);
                assert(self.tables.deep_view() =~= before.insert(place as int, def.deep_view()));
            },
            CatalogMutation::CreateIndex(index) => {
                let ghost before = self.indexes.deep_view();
                let def = index_def_of(index);
                let mut place: usize = self.indexes.len();
                while place > 0 && index.id < self.indexes[place - 1].id
                    invariant
                        place <= self.indexes@.len(),
                        before == self.indexes.deep_view(),
                        index_place(before, index.id, before.len() as int) == index_place(
                            before,
                            index.id,
                            place as int,
                        ),
                    decreases place,
                {
                    place = place - 1;
                }
                self.indexes.insert(place, def);
                assert(self.indexes.deep_view() =~= before.insert(place as int, def.deep_view()));
            },
        }
    }

    /// The first table whose name the front end takes for the sought one.
    pub fn resolve_table<F: Fn(&String) -> bool>(&self, matches: F) -> (found: Option<TableDef>)
        requires
            forall|name: &String| #[trigger] call_requires(matches, (name,)),
        ensures
            match found {
                Some(table) => exists|i: int|
                    {
                        &&& 0 <= i < self.tables@.len()
                        &&& #[trigger] self.tables.deep_view()[i] == table.deep_view()
                        &&& call_ensures(matches, (&self.tables@[i].name,), true)
                        &&& forall|j: int|
                            0 <= j < i ==> call_ensures(
                                matches,
                                (&(#[trigger] self.tables@[j]).name,),
                                false,
                            )
                    },
                None => forall|j: int|
                    0 <= j < self.tables@.len() ==> call_ensures(
                        matches,
                        (&(#[trigger] self.tables@[j]).name,),
                        false,
                    ),
            },
    {
        let mut i: usize = 0;
        while i < self.tables.len()
            invariant
                i <= self.tables@.len(),
                forall|name: &String| #[trigger] call_requires(matches, (name,)),
                forall|j: int|
                    0 <= j < i ==> call_ensures(
                        matches,
                        (&(#[trigger] self.tables@[j]).name,),
                        false,
                    ),
            decreases self.tables@.len() - i,
        {
            if matches(&self.tables[i].name) {
                let table = self.tables[i].duplicate();
                assert(self.tables.deep_view()[i as int] == table.deep_view());
                return Some(table);
            }
            i = i + 1;
        }
        None
    }

    /// The first index whose name the front end takes for the sought one.
    pub fn resolve_index<F: Fn(&String) -> bool>(&self, matches: F) -> (found: Option<IndexDef>)
        requires
            forall|name: &String| #[trigger] call_requires(matches, (name,)),
        ensures
            match found {
                Some(index) => exists|i: int|
                    {
                        &&& 0 <= i < self.indexes@.len()
                        &&& #[trigger] self.indexes.deep_view()[i] == index.deep_view()
                        &&& call_ensures(matches, (&self.indexes@[i].name,), true)
                        &&& forall|j: int|
                            0 <= j < i ==> call_ensures(
                                matches,
                                (&(#[trigger] self.indexes@[j]).name,),
                                false,
                            )
                    },
                None => forall|j: int|
                    0 <= j < self.indexes@.len() ==> call_ensures(
                        matches,
                        (&(#[trigger] self.indexes@[j]).name,),
                        false,
                    ),
            },
    {
        let mut i: usize = 0;
        while i < self.indexes.len()
            invariant
                i <= self.indexes@.len(),
                forall|name: &String| #[trigger] call_requires(matches, (name,)),
                forall|j: int|
                    0 <= j < i ==> call_ensures(
                        matches,
                        (&(#[trigger] self.indexes@[j]).name,),
                        false,
                    ),
            decreases self.indexes@.len() - i,
        {
            if matches(&self.indexes[i].name) {
                let index = self.indexes[i].duplicate();
                assert(self.indexes.deep_view()[i as int] == index.deep_view());
                return Some(index);
            }
            i = i + 1;
        }
        None
    }

    /// The indexes of a table.
    pub fn indexes_for_table(&self, table_id: TableId) -> (indexes: Vec<IndexDef>)
        ensures
            indexes.deep_view() == self.deep_view().indexes_of(table_id, self.indexes@.len() as int),
    {
        let ghost view = self.deep_view();
        let mut found: Vec<IndexDef> = Vec::new();
        let mut i: usize = 0;
        assert(found.deep_view() =~= Seq::empty());
        while i < self.indexes.len()
            invariant
                i <= self.indexes@.len(),
                view == self.deep_view(),
                found.deep_view() == view.indexes_of(table_id, i as int),
            decreases self.indexes@.len() - i,
        {
            assert(view.indexes[i as int] == self.indexes@[i as int].deep_view());
            let ghost before = found.deep_view();
            if self.indexes[i].table_id == table_id {
                let index = self.indexes[i].duplicate();
                found.push(index);
                assert(found.deep_view() =~= before.push(index.deep_view()));
            }
            i = i + 1;
        }
        found
    }
}

/// The content of a transaction, where there is one.
pub open spec fn transaction_content(transaction: Option<&Transaction>) -> Option<TransactionView> {
    match transaction {
        Some(transaction) => Some(transaction.deep_view()),
        None => None,
    }
}

} // verus!
