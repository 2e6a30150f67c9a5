//! Tables, indexes and their names.

use vstd::prelude::*;
use crate::checks::{first_of, first_stays};
use vstd::utf8::encode_utf8;
use crate::engine::error::{EngineError, EngineErrorKind, Result, constraint};
use crate::model::{Model, outcome};
use crate::ordmap::{OrdMap, finite_set_is_listed, lists, ordered};
use crate::text::{decimal, decimal_text};
use crate::types::{
    Error, ErrorKind, IndexId, Schema, SchemaView, TableId, between, folded_name, labelled, message,
    same_name, violation,
};
use crate::wire::to_lower;

verus! {

broadcast use crate::model::group_contents;

/// A table of the catalog.
#[derive(Debug, Clone, PartialEq, Eq)]
pub struct TableMeta {
    pub id: TableId,
    pub name: String,
    pub schema: Schema,
    pub primary_key_column: usize,
}

/// The content of a [`TableMeta`].
#[verifier::ext_equal]
pub struct TableMetaView {
    pub id: TableId,
    pub name: Seq<char>,
    pub schema: SchemaView,
    pub primary_key_column: usize,
}

impl DeepView for TableMeta {
    type V = TableMetaView;

    open spec fn deep_view(&self) -> TableMetaView {
        TableMetaView {
            id: self.id.deep_view(),
            name: self.name.deep_view(),
            schema: self.schema.deep_view(),
            primary_key_column: self.primary_key_column.deep_view(),
        }
    }
}

impl Model for TableMeta {
    fn duplicate(&self) -> (copy: Self) {
        TableMeta {
            id: self.id.duplicate(),
            name: self.name.duplicate(),
            schema: self.schema.duplicate(),
            primary_key_column: self.primary_key_column.duplicate(),
        }
    }

    fn same(&self, other: &Self) -> (equal: bool) {
        self.id.same(&other.id)
            && self.name.same(&other.name)
            && self.schema.same(&other.schema)
            && self.primary_key_column.same(&other.primary_key_column)
    }
}

/// A secondary index of the catalog.
#[derive(Debug, Clone, PartialEq, Eq)]
pub struct IndexMeta {
    pub id: IndexId,
    pub name: String,
    pub table_id: TableId,
    pub column: usize,
}

/// The content of a [`IndexMeta`].
#[verifier::ext_equal]
pub struct IndexMetaView {
    pub id: IndexId,
    pub name: Seq<char>,
    pub table_id: TableId,
    pub column: usize,
}

impl DeepView for IndexMeta {
    type V = IndexMetaView;

    open spec fn deep_view(&self) -> IndexMetaView {
        IndexMetaView {
            id: self.id.deep_view(),
            name: self.name.deep_view(),
            table_id: self.table_id.deep_view(),
            column: self.column.deep_view(),
        }
    }
}

impl Model for IndexMeta {
    fn duplicate(&self) -> (copy: Self) {
        IndexMeta {
            id: self.id.duplicate(),
            name: self.name.duplicate(),
            table_id: self.table_id.duplicate(),
            column: self.column.duplicate(),
        }
    }

    fn same(&self, other: &Self) -> (equal: bool) {
        self.id.same(&other.id)
            && self.name.same(&other.name)
            && self.table_id.same(&other.table_id)
            && self.column.same(&other.column)
    }
}

/// A change of the catalog that a transaction stages.
#[derive(Debug, Clone, PartialEq, Eq)]
pub enum CatalogMutation {
    CreateTable(TableMeta),
    CreateIndex(IndexMeta),
}

/// The content of a [`CatalogMutation`].
#[verifier::ext_equal]
pub enum CatalogMutationView {
    CreateTable(TableMetaView),
    CreateIndex(IndexMetaView),
}

impl DeepView for CatalogMutation {
    type V = CatalogMutationView;

    open spec fn deep_view(&self) -> CatalogMutationView {
        match self {
            CatalogMutation::CreateTable(a) => CatalogMutationView::CreateTable(a.deep_view()),
            CatalogMutation::CreateIndex(a) => CatalogMutationView::CreateIndex(a.deep_view()),
        }
    }
}

impl Model for CatalogMutation {
    fn duplicate(&self) -> (copy: Self) {
        match self {
            CatalogMutation::CreateTable(a) => CatalogMutation::CreateTable(a.duplicate()),
            CatalogMutation::CreateIndex(a) => CatalogMutation::CreateIndex(a.duplicate()),
        }
    }

    fn same(&self, other: &Self) -> (equal: bool) {
        match (self, other) {
            (CatalogMutation::CreateTable(a), CatalogMutation::CreateTable(other_a)) => a.same(other_a),
            (CatalogMutation::CreateIndex(a), CatalogMutation::CreateIndex(other_a)) => a.same(other_a),
            _ => false,
        }
    }
}

/// The tables and indexes of the database.
#[derive(Debug, Clone, PartialEq, Eq)]
pub struct Catalog {
    schema_epoch: u64,
    tables: OrdMap<TableId, TableMeta>,
    table_names: OrdMap<Vec<u8>, TableId>,
    indexes: OrdMap<IndexId, IndexMeta>,
    index_names: OrdMap<Vec<u8>, IndexId>,
}

/// The content of a [`Catalog`].
#[verifier::ext_equal]
pub struct CatalogView {
    pub schema_epoch: u64,
    pub tables: Map<TableId, TableMetaView>,
    pub table_names: Map<Seq<u8>, TableId>,
    pub indexes: Map<IndexId, IndexMetaView>,
    pub index_names: Map<Seq<u8>, IndexId>,
}

impl DeepView for Catalog {
    type V = CatalogView;

    closed spec fn deep_view(&self) -> CatalogView {
        CatalogView {
            schema_epoch: self.schema_epoch.deep_view(),
            tables: self.tables.deep_view(),
            table_names: self.table_names.deep_view(),
            indexes: self.indexes.deep_view(),
            index_names: self.index_names.deep_view(),
        }
    }
}

impl Model for Catalog {
    fn duplicate(&self) -> (copy: Self) {
        Catalog {
            schema_epoch: self.schema_epoch.duplicate(),
            tables: self.tables.duplicate(),
            table_names: self.table_names.duplicate(),
            indexes: self.indexes.duplicate(),
            index_names: self.index_names.duplicate(),
        }
    }

    fn same(&self, other: &Self) -> (equal: bool) {
        self.schema_epoch.same(&other.schema_epoch)
            && self.tables.same(&other.tables)
            && self.table_names.same(&other.table_names)
            && self.indexes.same(&other.indexes)
            && self.index_names.same(&other.index_names)
    }
}

pub open spec fn is_letter(byte: u8) -> bool {
    65 <= byte <= 90 || 97 <= byte <= 122
}

/// An identifier starts with an ASCII letter or an underscore and goes on with
/// those and ASCII digits.
pub open spec fn is_identifier(name: Seq<char>) -> bool {
    let bytes = encode_utf8(name);
    &&& bytes.len() > 0
    &&& bytes[0] == 95 || is_letter(bytes[0])
    &&& forall|i: int|
        1 <= i < bytes.len() ==> bytes[i] == 95 || is_letter(#[trigger] bytes[i]) || 48 <= bytes[i]
            <= 57
}

/// What is wrong with a name that is no identifier, in words.
pub open spec fn identifier_refusal(name: Seq<char>, kind: Seq<char>) -> Seq<char> {
    violation("invalid "@ + kind + " identifier `"@ + name + "`"@)
}

fn validate_identifier(name: &str, kind: &str) -> (result: Result<()>)
    ensures
        result is Ok == is_identifier(name@),
        result matches Err(error) ==> error.deep_view() == EngineErrorKind::Core(
            ErrorKind::Constraint,
        ) && error.shown() == identifier_refusal(name@, kind@),
{
    let bytes = name.as_bytes();
    let mut valid = bytes.len() > 0;
    let mut i: usize = 0;
    while i < bytes.len() && valid
        invariant
            i <= bytes@.len(),
            bytes@ == encode_utf8(name@),
            valid ==> bytes@.len() > 0,
            valid && i > 0 ==> bytes@[0] == 95 || is_letter(bytes@[0]),
            valid ==> forall|j: int|
                1 <= j < i ==> bytes@[j] == 95 || is_letter(#[trigger] bytes@[j]) || 48 <= bytes@[j]
                    <= 57,
            !valid ==> !is_identifier(name@),
        decreases bytes@.len() - i,
    {
        let b: u8 = bytes[i];
        let letter = (b >= 65 && b <= 90) || (b >= 97 && b <= 122);
        let digit = b >= 48 && b <= 57;
        valid = b == 95 || letter || (i > 0 && digit);
        i = i + 1;
    }
    if valid {
        Ok(())
    } else {
        Err(constraint(between(&between("invalid ", kind, " identifier `"), name, "`")))
    }
}

/// The key of a name: the name without its ASCII case.
fn normalize(name: &str) -> (key: Vec<u8>)
    ensures
        key.deep_view() == folded_name(name@),
{
    to_lower(name.as_bytes())
}

impl TableMetaView {
    /// What validation of the table answers.
    pub open spec fn validated(self) -> std::result::Result<(), EngineErrorKind> {
        if !is_identifier(self.name) || self.id == 0 {
            Err(EngineErrorKind::Core(ErrorKind::Constraint))
        } else {
            match self.schema.validated() {
                Err(error) => Err(EngineErrorKind::Core(error)),
                Ok(key) => if key == self.primary_key_column {
                    Ok(())
                } else {
                    Err(EngineErrorKind::InvalidSnapshot)
                },
            }
        }
    }

    /// What is wrong with a table that validation refuses, in words.
    pub open spec fn refusal(self) -> Seq<char> {
        if !is_identifier(self.name) {
            identifier_refusal(self.name, "table"@)
        } else if self.id == 0 {
            violation("table id zero is reserved"@)
        } else {
            match self.schema.validated() {
                Err(_) => self.schema.refusal(),
                Ok(key) => "invalid snapshot: "@ + ("table "@ + decimal(self.id as nat)
                    + " stores primary-key column "@ + decimal(self.primary_key_column as nat)
                    + ", schema says "@ + decimal(key as nat)),
            }
        }
    }

    /// The table is acceptable.
    pub open spec fn valid(self) -> bool {
        self.validated() is Ok
    }

    /// What making a table answers.
    pub open spec fn made(id: TableId, name: Seq<char>, schema: SchemaView) -> std::result::Result<
        TableMetaView,
        EngineErrorKind,
    > {
        if !is_identifier(name) || id == 0 {
            Err(EngineErrorKind::Core(ErrorKind::Constraint))
        } else {
            match schema.validated() {
                Err(error) => Err(EngineErrorKind::Core(error)),
                Ok(key) => Ok(TableMetaView { id, name, schema, primary_key_column: key }),
            }
        }
    }
}

/// The primary key of a valid table is one of its columns.
pub proof fn valid_table_key(table: TableMetaView)
    requires
        table.valid(),
    ensures
        table.primary_key_column < table.schema.columns.len(),
        table.schema.valid_with_key(table.primary_key_column as int),
{
    let key = choose|key: int| table.schema.valid_with_key(key);
    assert(table.schema.valid_with_key(key));
}

impl TableMeta {
    pub fn new(id: TableId, name: &str, schema: Schema) -> (result: Result<TableMeta>)
        ensures
            outcome(result) == TableMetaView::made(id, name@, schema.deep_view()),
            result matches Ok(table) ==> table.deep_view().valid(),
    {
        if let Err(error) = validate_identifier(name, "table") {
            return Err(error);
        }
        if id == 0 {
            return Err(constraint("table id zero is reserved".to_owned()));
        }
        match schema.validate() {
            Ok(primary_key_column) => Ok(
                TableMeta { id, name: name.to_owned(), schema, primary_key_column },
            ),
            Err(error) => Err(EngineError::Core(error)),
        }
    }

    /// The position of the column with the given name, ASCII case aside.
    pub fn column(&self, name: &str) -> (result: Result<usize>)
        ensures
            match result {
                Ok(i) => {
                    let columns = self.deep_view().schema.columns;
                    &&& i < columns.len()
                    &&& folded_name(columns[i as int].name) == folded_name(name@)
                    &&& forall|j: int|
                        0 <= j < i ==> folded_name((#[trigger] columns[j]).name) != folded_name(
                            name@,
                        )
                },
                Err(error) => {
                    let columns = self.deep_view().schema.columns;
                    &&& error.deep_view() == EngineErrorKind::UnknownColumn {
                        table: self.name@,
                        column: name@,
                    }
                    &&& forall|j: int|
                        0 <= j < columns.len() ==> folded_name((#[trigger] columns[j]).name)
                            != folded_name(name@)
                },
            },
    {
        let ghost columns = self.deep_view().schema.columns;
        let mut i: usize = 0;
        while i < self.schema.columns.len()
            invariant
                i <= self.schema.columns@.len(),
                columns == self.deep_view().schema.columns,
                forall|j: int|
                    0 <= j < i ==> folded_name((#[trigger] columns[j]).name) != folded_name(name@),
            decreases self.schema.columns@.len() - i,
        {
            assert(columns[i as int].name == self.schema.columns@[i as int].name@);
            if same_name(self.schema.columns[i].name.as_str(), name) {
                return Ok(i);
            }
            i = i + 1;
        }
        Err(EngineError::UnknownColumn { table: self.name.clone(), column: name.to_owned() })
    }

    pub fn validate(&self) -> (result: Result<()>)
        ensures
            result is Ok == self.deep_view().valid(),
            result matches Err(error) ==> self.deep_view().validated() == Err::<
                (),
                EngineErrorKind,
            >(error.deep_view()) && error.shown() == self.deep_view().refusal(),
    {
        if let Err(error) = validate_identifier(self.name.as_str(), "table") {
            return Err(error);
        }
        if self.id == 0 {
            return Err(constraint("table id zero is reserved".to_owned()));
        }
        match self.schema.validate() {
            Ok(actual) => if actual != self.primary_key_column {
                Err(
                    EngineError::InvalidSnapshot(
                        labelled(
                            &between(
                                &between(
                                    "table ",
                                    &decimal_text(self.id),
                                    " stores primary-key column ",
                                ),
                                &decimal_text(self.primary_key_column as u64),
                                ", schema says ",
                            ),
                            &decimal_text(actual as u64),
                        ),
                    ),
                )
            } else {
                Ok(())
            },
            Err(error) => Err(EngineError::Core(error)),
        }
    }
}

impl IndexMetaView {
    /// What making an index answers.
    pub open spec fn made(
        id: IndexId,
        name: Seq<char>,
        table: TableMetaView,
        column: usize,
    ) -> std::result::Result<IndexMetaView, EngineErrorKind> {
        if !is_identifier(name) || id == 0 || column >= table.schema.columns.len() {
            Err(EngineErrorKind::Core(ErrorKind::Constraint))
        } else {
            Ok(IndexMetaView { id, name, table_id: table.id, column })
        }
    }
}

impl IndexMeta {
    pub fn new(id: IndexId, name: &str, table: &TableMeta, column: usize) -> (result: Result<
        IndexMeta,
    >)
        ensures
            outcome(result) == IndexMetaView::made(id, name@, table.deep_view(), column),
    {
        if let Err(error) = validate_identifier(name, "index") {
            return Err(error);
        }
        if id == 0 {
            return Err(constraint("index id zero is reserved".to_owned()));
        }
        if column >= table.schema.columns.len() {
            return Err(
                constraint(
                    message(
                        &[
                            "index column ",
                            column.to_string().as_str(),
                            " is outside table `",
                            table.name.as_str(),
                            "`",
                        ],
                    ),
                ),
            );
        }
        Ok(IndexMeta { id, name: name.to_owned(), table_id: table.id, column })
    }
}

impl CatalogMutationView {
    /// Tables come before indexes, and each by its id.
    pub open spec fn sort_key(self) -> (u8, u64) {
        match self {
            CatalogMutationView::CreateTable(table) => (0, table.id),
            CatalogMutationView::CreateIndex(index) => (1, index.id),
        }
    }
}

/// The order of sort keys.
pub open spec fn sort_key_before(a: (u8, u64), b: (u8, u64)) -> bool {
    a.0 < b.0 || (a.0 == b.0 && a.1 < b.1)
}

impl CatalogMutation {
    pub fn sort_key(&self) -> (key: (u8, u64))
        ensures
            key == self.deep_view().sort_key(),
    {
        match self {
            CatalogMutation::CreateTable(table) => (0, table.id),
            CatalogMutation::CreateIndex(index) => (1, index.id),
        }
    }

    /// Whether this one sorts before another.
    pub fn sorts_before(&self, other: &CatalogMutation) -> (before: bool)
        ensures
            before == sort_key_before(self.deep_view().sort_key(), other.deep_view().sort_key()),
    {
        let a = self.sort_key();
        let b = other.sort_key();
        a.0 < b.0 || (a.0 == b.0 && a.1 < b.1)
    }
}

impl CatalogView {
    pub open spec fn empty() -> CatalogView {
        CatalogView {
            schema_epoch: 0,
            tables: Map::empty(),
            table_names: Map::empty(),
            indexes: Map::empty(),
            index_names: Map::empty(),
        }
    }

    /// Every table is found under its own id and is valid, and the names are
    /// those of the tables.
    pub open spec fn tables_valid(self) -> bool {
        &&& forall|id: u64|
            #![trigger self.tables[id]]
            self.tables.contains_key(id) ==> self.tables[id].id == id && self.tables[id].valid()
        &&& self.table_names_match()
    }

    pub open spec fn table_names_match(self) -> bool {
        &&& forall|id: u64|
            #![trigger self.tables[id]]
            self.tables.contains_key(id) ==> {
                let name = folded_name(self.tables[id].name);
                self.table_names.contains_key(name) && self.table_names[name] == id
            }
        &&& forall|name: Seq<u8>|
            #![trigger self.table_names[name]]
            self.table_names.contains_key(name) ==> {
                let id = self.table_names[name];
                self.tables.contains_key(id) && folded_name(self.tables[id].name) == name
            }
    }

    /// An index has a proper name and indexes a column of a table.
    pub open spec fn index_valid(self, index: IndexMetaView) -> bool {
        &&& index.id != 0
        &&& is_identifier(index.name)
        &&& self.tables.contains_key(index.table_id)
        &&& index.column < self.tables[index.table_id].schema.columns.len()
    }

    pub open spec fn indexes_valid(self) -> bool {
        &&& forall|id: u64|
            #![trigger self.indexes[id]]
            self.indexes.contains_key(id) ==> self.indexes[id].id == id && self.index_valid(
                self.indexes[id],
            )
        &&& self.index_names_match()
    }

    pub open spec fn index_names_match(self) -> bool {
        &&& forall|id: u64|
            #![trigger self.indexes[id]]
            self.indexes.contains_key(id) ==> {
                let name = folded_name(self.indexes[id].name);
                self.index_names.contains_key(name) && self.index_names[name] == id
            }
        &&& forall|name: Seq<u8>|
            #![trigger self.index_names[name]]
            self.index_names.contains_key(name) ==> {
                let id = self.index_names[name];
                self.indexes.contains_key(id) && folded_name(self.indexes[id].name) == name
            }
    }

    /// The invariant of a catalog.
    pub open spec fn valid(self) -> bool {
        self.tables_valid() && self.indexes_valid()
    }

    pub open spec fn finite(self) -> bool {
        self.tables.dom().finite() && self.indexes.dom().finite()
    }

    /// The problem of the `i`-th table of a list of ids, if it has one.
    pub open spec fn table_problem(self, ids: Seq<u64>, i: int) -> Option<EngineErrorKind> {
        let table = self.tables[ids[i]];
        if table.id != ids[i] {
            Some(EngineErrorKind::InvalidSnapshot)
        } else if table.validated() is Err {
            Some(table.validated()->Err_0)
        } else if exists|j: int|
            0 <= j < i && folded_name((#[trigger] self.tables[ids[j]]).name) == folded_name(
                table.name,
            ) {
            Some(EngineErrorKind::InvalidSnapshot)
        } else {
            None
        }
    }

    /// The first problem of the first `n` tables.
    pub open spec fn first_table_problem(self, ids: Seq<u64>, n: int) -> Option<EngineErrorKind>
        decreases n,
    {
        if n <= 0 {
            None
        } else {
            match self.first_table_problem(ids, n - 1) {
                Some(problem) => Some(problem),
                None => self.table_problem(ids, n - 1),
            }
        }
    }

    /// The problem of the `i`-th index of a list of ids, if it has one.
    pub open spec fn index_problem(self, ids: Seq<u64>, i: int) -> Option<EngineErrorKind> {
        let index = self.indexes[ids[i]];
        if index.id != ids[i] || index.id == 0 {
            Some(EngineErrorKind::InvalidSnapshot)
        } else if !is_identifier(index.name) {
            Some(EngineErrorKind::Core(ErrorKind::Constraint))
        } else if !self.tables.contains_key(index.table_id) {
            Some(EngineErrorKind::UnknownTable(index.table_id))
        } else if index.column >= self.tables[index.table_id].schema.columns.len() {
            Some(EngineErrorKind::InvalidSnapshot)
        } else if exists|j: int|
            0 <= j < i && folded_name((#[trigger] self.indexes[ids[j]]).name) == folded_name(
                index.name,
            ) {
            Some(EngineErrorKind::InvalidSnapshot)
        } else {
            None
        }
    }

    /// The first problem of the first `n` indexes.
    pub open spec fn first_index_problem(self, ids: Seq<u64>, n: int) -> Option<EngineErrorKind>
        decreases n,
    {
        if n <= 0 {
            None
        } else {
            match self.first_index_problem(ids, n - 1) {
                Some(problem) => Some(problem),
                None => self.index_problem(ids, n - 1),
            }
        }
    }

    /// How it reads what is wrong with the `i`-th table of a list of ids.
    pub open spec fn table_flaw(self, ids: Seq<u64>, i: int) -> Option<Seq<char>> {
        let table = self.tables[ids[i]];
        if self.table_problem(ids, i) is None {
            None
        } else if table.id != ids[i] {
            Some(
                "invalid snapshot: "@ + ("table map key "@ + decimal(ids[i] as nat)
                    + " differs from metadata id "@ + decimal(table.id as nat)),
            )
        } else if table.validated() is Err {
            Some(table.refusal())
        } else {
            Some("invalid snapshot: "@ + ("duplicate table name `"@ + table.name + "`"@))
        }
    }

    pub open spec fn table_flaws(self, ids: Seq<u64>) -> spec_fn(int) -> Option<Seq<char>> {
        |i: int| self.table_flaw(ids, i)
    }

    /// How it reads what is wrong with the `i`-th index of a list of ids.
    pub open spec fn index_flaw(self, ids: Seq<u64>, i: int) -> Option<Seq<char>> {
        let index = self.indexes[ids[i]];
        if self.index_problem(ids, i) is None {
            None
        } else if index.id != ids[i] || index.id == 0 {
            Some("invalid snapshot: "@ + ("invalid index map entry "@ + decimal(ids[i] as nat)))
        } else if !is_identifier(index.name) {
            Some(identifier_refusal(index.name, "index"@))
        } else if !self.tables.contains_key(index.table_id) {
            Some("unknown table "@ + decimal(index.table_id as nat))
        } else if index.column >= self.tables[index.table_id].schema.columns.len() {
            Some(
                "invalid snapshot: "@ + ("index "@ + decimal(index.id as nat)
                    + " references missing column "@ + decimal(index.column as nat)),
            )
        } else {
            Some("invalid snapshot: "@ + ("duplicate index name `"@ + index.name + "`"@))
        }
    }

    pub open spec fn index_flaws(self, ids: Seq<u64>) -> spec_fn(int) -> Option<Seq<char>> {
        |i: int| self.index_flaw(ids, i)
    }

    /// How it reads what is wrong with the catalog.
    pub open spec fn unsound_words(self) -> Option<Seq<char>> {
        let table_ids = ordered::<u64>(self.tables.dom());
        let index_ids = ordered::<u64>(self.indexes.dom());
        match first_of(self.table_flaws(table_ids), table_ids.len() as int) {
            Some(text) => Some(text),
            None => if !self.table_names_match() {
                Some("invalid snapshot: "@ + "table-name lookup does not match table metadata"@)
            } else {
                match first_of(self.index_flaws(index_ids), index_ids.len() as int) {
                    Some(text) => Some(text),
                    None => if !self.index_names_match() {
                        Some(
                            "invalid snapshot: "@
                                + "index-name lookup does not match index metadata"@,
                        )
                    } else {
                        None
                    },
                }
            },
        }
    }

    /// What validation of the catalog answers: the first problem in id order,
    /// tables first.
    pub open spec fn validated(self) -> std::result::Result<(), EngineErrorKind> {
        let table_ids = ordered::<u64>(self.tables.dom());
        let index_ids = ordered::<u64>(self.indexes.dom());
        match self.first_table_problem(table_ids, table_ids.len() as int) {
            Some(problem) => Err(problem),
            None => if !self.table_names_match() {
                Err(EngineErrorKind::InvalidSnapshot)
            } else {
                match self.first_index_problem(index_ids, index_ids.len() as int) {
                    Some(problem) => Err(problem),
                    None => if !self.index_names_match() {
                        Err(EngineErrorKind::InvalidSnapshot)
                    } else {
                        Ok(())
                    },
                }
            },
        }
    }

    /// The catalog with one more table.
    pub open spec fn with_table(self, table: TableMetaView) -> std::result::Result<
        CatalogView,
        EngineErrorKind,
    > {
        if table.validated() is Err {
            Err(table.validated()->Err_0)
        } else if self.tables.contains_key(table.id) || self.table_names.contains_key(
            folded_name(table.name),
        ) {
            Err(EngineErrorKind::Core(ErrorKind::Constraint))
        } else {
            Ok(
                CatalogView {
                    tables: self.tables.insert(table.id, table),
                    table_names: self.table_names.insert(folded_name(table.name), table.id),
                    ..self
                },
            )
        }
    }

    /// The catalog with one more index.
    pub open spec fn with_index(self, index: IndexMetaView) -> std::result::Result<
        CatalogView,
        EngineErrorKind,
    > {
        if !is_identifier(index.name) || index.id == 0 || self.indexes.contains_key(index.id)
            || self.index_names.contains_key(folded_name(index.name)) {
            Err(EngineErrorKind::Core(ErrorKind::Constraint))
        } else if !self.tables.contains_key(index.table_id) {
            Err(EngineErrorKind::UnknownTable(index.table_id))
        } else if index.column >= self.tables[index.table_id].schema.columns.len() {
            Err(EngineErrorKind::Core(ErrorKind::Constraint))
        } else {
            Ok(
                CatalogView {
                    indexes: self.indexes.insert(index.id, index),
                    index_names: self.index_names.insert(folded_name(index.name), index.id),
                    ..self
                },
            )
        }
    }

    /// Why a table cannot be created, in words.
    pub open spec fn table_refusal(self, table: TableMetaView) -> Seq<char> {
        if table.validated() is Err {
            table.refusal()
        } else if self.tables.contains_key(table.id) {
            violation("table id "@ + decimal(table.id as nat) + " already exists"@)
        } else {
            violation("table `"@ + table.name + "` already exists"@)
        }
    }

    /// Why an index cannot be created, in words.
    pub open spec fn index_refusal(self, index: IndexMetaView) -> Seq<char> {
        if !is_identifier(index.name) {
            identifier_refusal(index.name, "index"@)
        } else if index.id == 0 {
            violation("index id zero is reserved"@)
        } else if self.indexes.contains_key(index.id) {
            violation("index id "@ + decimal(index.id as nat) + " already exists"@)
        } else if self.index_names.contains_key(folded_name(index.name)) {
            violation("index `"@ + index.name + "` already exists"@)
        } else if !self.tables.contains_key(index.table_id) {
            "unknown table "@ + decimal(index.table_id as nat)
        } else {
            violation(
                "index "@ + decimal(index.id as nat) + " references column "@ + decimal(
                    index.column as nat,
                ) + " outside table `"@ + self.tables[index.table_id].name + "`"@,
            )
        }
    }

    /// Why one of the first `n` mutations cannot be made, in words.
    pub open spec fn mutation_refusal(self, mutations: Seq<CatalogMutationView>, n: int) -> Seq<
        char,
    >
        decreases n,
    {
        if n <= 0 {
            Seq::empty()
        } else {
            match self.mutated_by(mutations, n - 1) {
                Err(_) => self.mutation_refusal(mutations, n - 1),
                Ok(catalog) => match mutations[n - 1] {
                    CatalogMutationView::CreateTable(table) => catalog.table_refusal(table),
                    CatalogMutationView::CreateIndex(index) => catalog.index_refusal(index),
                },
            }
        }
    }

    /// Why mutations cannot be made, in words.
    pub open spec fn refusal(self, mutations: Seq<CatalogMutationView>) -> Seq<char> {
        if self.mutated_by(mutations, mutations.len() as int) is Err {
            self.mutation_refusal(mutations, mutations.len() as int)
        } else {
            "internal invariant failed: "@ + "schema epoch overflow"@
        }
    }

    /// The catalog after one mutation.
    pub open spec fn mutated_once(self, mutation: CatalogMutationView) -> std::result::Result<
        CatalogView,
        EngineErrorKind,
    > {
        match mutation {
            CatalogMutationView::CreateTable(table) => self.with_table(table),
            CatalogMutationView::CreateIndex(index) => self.with_index(index),
        }
    }

    /// The catalog after the first `n` mutations, before its epoch moves.
    pub open spec fn mutated_by(self, mutations: Seq<CatalogMutationView>, n: int) -> std::result::Result<
        CatalogView,
        EngineErrorKind,
    >
        decreases n,
    {
        if n <= 0 {
            Ok(self)
        } else {
            match self.mutated_by(mutations, n - 1) {
                Err(error) => Err(error),
                Ok(catalog) => catalog.mutated_once(mutations[n - 1]),
            }
        }
    }

    /// The catalog after mutations. Any mutation at all moves the epoch.
    pub open spec fn mutated(self, mutations: Seq<CatalogMutationView>) -> std::result::Result<
        CatalogView,
        EngineErrorKind,
    > {
        match self.mutated_by(mutations, mutations.len() as int) {
            Err(error) => Err(error),
            Ok(catalog) => if mutations.len() == 0 {
                Ok(catalog)
            } else if catalog.schema_epoch == u64::MAX {
                Err(EngineErrorKind::Core(ErrorKind::Invariant))
            } else {
                Ok(CatalogView { schema_epoch: (catalog.schema_epoch + 1) as u64, ..catalog })
            },
        }
    }

    /// The indexes of a table among the first `n` of a list of index ids.
    pub open spec fn indexes_among(self, table_id: u64, ids: Seq<u64>, n: int) -> Seq<IndexMetaView>
        decreases n,
    {
        if n <= 0 {
            Seq::empty()
        } else if self.indexes[ids[n - 1]].table_id == table_id {
            self.indexes_among(table_id, ids, n - 1).push(self.indexes[ids[n - 1]])
        } else {
            self.indexes_among(table_id, ids, n - 1)
        }
    }

    /// The indexes of a table in id order.
    pub open spec fn indexes_of(self, table_id: u64) -> Seq<IndexMetaView> {
        let ids = ordered::<u64>(self.indexes.dom());
        self.indexes_among(table_id, ids, ids.len() as int)
    }
}

/// The indexes that the first `n` mutations create, in order.
pub open spec fn created_indexes(mutations: Seq<CatalogMutationView>, n: int) -> Seq<IndexMetaView>
    decreases n,
{
    if n <= 0 {
        Seq::empty()
    } else {
        match mutations[n - 1] {
            CatalogMutationView::CreateIndex(index) => created_indexes(mutations, n - 1).push(
                index,
            ),
            _ => created_indexes(mutations, n - 1),
        }
    }
}

/// The id after the largest of a set, starting from one.
pub open spec fn next_id(ids: Seq<u64>) -> u64 {
    if ids.len() == 0 {
        1
    } else if ids.last() == u64::MAX {
        u64::MAX
    } else {
        (ids.last() + 1) as u64
    }
}

impl Default for Catalog {
    fn default() -> (catalog: Catalog)
        ensures
            catalog.deep_view() == CatalogView::empty(),
            catalog.deep_view().valid(),
    {
        Catalog {
            schema_epoch: 0,
            tables: OrdMap::new(),
            table_names: OrdMap::new(),
            indexes: OrdMap::new(),
            index_names: OrdMap::new(),
        }
    }
}

impl Catalog {
    /// A catalog from its parts, which may not fit together: see `validate`.
    pub fn from_parts(
        schema_epoch: u64,
        tables: OrdMap<TableId, TableMeta>,
        table_names: OrdMap<Vec<u8>, TableId>,
        indexes: OrdMap<IndexId, IndexMeta>,
        index_names: OrdMap<Vec<u8>, IndexId>,
    ) -> (catalog: Catalog)
        ensures
            catalog.deep_view() == (CatalogView {
                schema_epoch,
                tables: tables.deep_view(),
                table_names: table_names.deep_view(),
                indexes: indexes.deep_view(),
                index_names: index_names.deep_view(),
            }),
    {
        Catalog { schema_epoch, tables, table_names, indexes, index_names }
    }

    pub fn schema_epoch(&self) -> (epoch: u64)
        ensures
            epoch == self.deep_view().schema_epoch,
    {
        self.schema_epoch
    }

    pub fn table(&self, id: TableId) -> (found: Option<&TableMeta>)
        ensures
            match found {
                Some(table) => self.deep_view().tables.contains_key(id)
                    && self.deep_view().tables[id] == table.deep_view(),
                None => !self.deep_view().tables.contains_key(id),
            },
    {
        self.tables.get(&id)
    }

    /// The table with the given name, ASCII case aside.
    pub fn table_named(&self, name: &str) -> (found: Option<&TableMeta>)
        ensures
            ({
                let view = self.deep_view();
                let key = folded_name(name@);
                let id = view.table_names[key];
                match found {
                    Some(table) => view.table_names.contains_key(key) && view.tables.contains_key(
                        id,
                    ) && view.tables[id] == table.deep_view(),
                    None => !view.table_names.contains_key(key) || !view.tables.contains_key(id),
                }
            }),
    {
        match self.table_names.get(&normalize(name)) {
            Some(id) => self.tables.get(id),
            None => None,
        }
    }

    pub fn index(&self, id: IndexId) -> (found: Option<&IndexMeta>)
        ensures
            match found {
                Some(index) => self.deep_view().indexes.contains_key(id)
                    && self.deep_view().indexes[id] == index.deep_view(),
                None => !self.deep_view().indexes.contains_key(id),
            },
    {
        self.indexes.get(&id)
    }

    /// The index with the given name, ASCII case aside.
    pub fn index_named(&self, name: &str) -> (found: Option<&IndexMeta>)
        ensures
            ({
                let view = self.deep_view();
                let key = folded_name(name@);
                let id = view.index_names[key];
                match found {
                    Some(index) => view.index_names.contains_key(key) && view.indexes.contains_key(
                        id,
                    ) && view.indexes[id] == index.deep_view(),
                    None => !view.index_names.contains_key(key) || !view.indexes.contains_key(id),
                }
            }),
    {
        match self.index_names.get(&normalize(name)) {
            Some(id) => self.indexes.get(id),
            None => None,
        }
    }

    /// The tables in id order.
    pub fn tables(&self) -> (tables: Vec<&TableMeta>)
        ensures
            ({
                let ids = ordered::<u64>(self.deep_view().tables.dom());
                &&& tables@.len() == ids.len()
                &&& forall|i: int|
                    0 <= i < ids.len() ==> (#[trigger] tables@[i]).deep_view()
                        == self.deep_view().tables[ids[i]]
            }),
    {
        let count = self.tables.len();
        let mut tables: Vec<&TableMeta> = Vec::with_capacity(count);
        let mut i: usize = 0;
        while i < count
            invariant
                i <= count,
                count == self.tables.keys().len(),
                tables@.len() == i,
                forall|j: int|
                    0 <= j < i ==> (#[trigger] tables@[j]).deep_view()
                        == self.tables.deep_view()[self.tables.keys()[j]],
            decreases count - i,
        {
            tables.push(self.tables.value_at(i));
            i = i + 1;
        }
        tables
    }

    /// The indexes in id order.
    pub fn indexes(&self) -> (indexes: Vec<&IndexMeta>)
        ensures
            ({
                let ids = ordered::<u64>(self.deep_view().indexes.dom());
                &&& indexes@.len() == ids.len()
                &&& forall|i: int|
                    0 <= i < ids.len() ==> (#[trigger] indexes@[i]).deep_view()
                        == self.deep_view().indexes[ids[i]]
            }),
    {
        let count = self.indexes.len();
        let mut indexes: Vec<&IndexMeta> = Vec::with_capacity(count);
        let mut i: usize = 0;
        while i < count
            invariant
                i <= count,
                count == self.indexes.keys().len(),
                indexes@.len() == i,
                forall|j: int|
                    0 <= j < i ==> (#[trigger] indexes@[j]).deep_view()
                        == self.indexes.deep_view()[self.indexes.keys()[j]],
            decreases count - i,
        {
            indexes.push(self.indexes.value_at(i));
            i = i + 1;
        }
        indexes
    }

    /// The indexes of a table in id order.
    pub fn indexes_for_table(&self, table_id: TableId) -> (indexes: Vec<IndexMeta>)
        ensures
            indexes.deep_view() == self.deep_view().indexes_of(table_id),
    {
        let count = self.indexes.len();
        let ghost ids = self.indexes.keys();
        let mut indexes: Vec<IndexMeta> = Vec::new();
        let mut i: usize = 0;
        assert(indexes.deep_view() =~= Seq::empty());
        while i < count
            invariant
                i <= count,
                ids == self.indexes.keys(),
                count == ids.len(),
                indexes.deep_view() == self.deep_view().indexes_among(table_id, ids, i as int),
            decreases count - i,
        {
            let ghost before = indexes.deep_view();
            let index = self.indexes.value_at(i);
            if index.table_id == table_id {
                indexes.push(index.duplicate());
                assert(indexes.deep_view() =~= before.push(index.deep_view()));
            }
            i = i + 1;
        }
        indexes
    }

    /// The id after the largest table id.
    pub fn next_table_id(&self) -> (id: TableId)
        ensures
            id == next_id(ordered::<u64>(self.deep_view().tables.dom())),
    {
        let count = self.tables.len();
        if count == 0 {
            1
        } else {
            let last: u64 = *self.tables.key_at(count - 1);
            if last == u64::MAX {
                u64::MAX
            } else {
                last + 1
            }
        }
    }

    /// The id after the largest index id.
    pub fn next_index_id(&self) -> (id: IndexId)
        ensures
            id == next_id(ordered::<u64>(self.deep_view().indexes.dom())),
    {
        let count = self.indexes.len();
        if count == 0 {
            1
        } else {
            let last: u64 = *self.indexes.key_at(count - 1);
            if last == u64::MAX {
                u64::MAX
            } else {
                last + 1
            }
        }
    }

    /// The catalog after mutations, and the indexes that they create.
    pub fn apply_mutations(self, mutations: &Vec<CatalogMutation>) -> (result: Result<
        (Catalog, Vec<IndexMeta>),
    >)
        ensures
            match result {
                Ok((catalog, indexes)) => {
                    &&& self.deep_view().mutated(mutations.deep_view()) == Ok::<
                        CatalogView,
                        EngineErrorKind,
                    >(catalog.deep_view())
                    &&& indexes.deep_view() == created_indexes(
                        mutations.deep_view(),
                        mutations@.len() as int,
                    )
                },
                Err(error) => self.deep_view().mutated(mutations.deep_view()) == Err::<
                    CatalogView,
                    EngineErrorKind,
                >(error.deep_view()) && error.shown() == self.deep_view().refusal(
                    mutations.deep_view(),
                ),
            },
    {
        let ghost start = self.deep_view();
        let ghost steps = mutations.deep_view();
        let mut catalog = self;
        let mut created: Vec<IndexMeta> = Vec::new();
        let mut i: usize = 0;
        assert(created.deep_view() =~= Seq::empty());
        while i < mutations.len()
            invariant
                i <= mutations@.len(),
                start == self.deep_view(),
                steps == mutations.deep_view(),
                start.mutated_by(steps, i as int) == Ok::<CatalogView, EngineErrorKind>(
                    catalog.deep_view(),
                ),
                created.deep_view() == created_indexes(steps, i as int),
            decreases mutations@.len() - i,
        {
            assert(steps[i as int] == mutations@[i as int].deep_view());
            let ghost before = created.deep_view();
            let step = match &mutations[i] {
                CatalogMutation::CreateTable(table) => catalog.create_table(table.duplicate()),
                CatalogMutation::CreateIndex(index) => {
                    created.push(index.duplicate());
                    assert(created.deep_view() =~= before.push(index.deep_view()));
                    catalog.create_index(index.duplicate())
                },
            };
            if let Err(error) = step {
                proof {
                    start.failed_mutation(steps, i + 1, steps.len() as int);
                }
                return Err(error);
            }
            i = i + 1;
        }
        if mutations.len() > 0 {
            if catalog.schema_epoch == u64::MAX {
                return Err(EngineError::Core(Error::Invariant("schema epoch overflow".to_owned())));
            }
            catalog.schema_epoch = catalog.schema_epoch + 1;
        }
        Ok((catalog, created))
    }

    /// Checks that the parts of the catalog fit together.
    pub fn validate(&self) -> (result: Result<()>)
        ensures
            self.deep_view().finite(),
            result is Ok == (self.deep_view().validated() is Ok),
            result matches Err(error) ==> self.deep_view().validated() == Err::<
                (),
                EngineErrorKind,
            >(error.deep_view()),
            match result {
                Ok(()) => self.deep_view().unsound_words() is None,
                Err(error) => self.deep_view().unsound_words() == Some(error.shown()),
            },
    {
        let ghost view = self.deep_view();
        let tables = self.tables.len();
        let indexes = self.indexes.len();
        if let Err(error) = self.validate_tables() {
            return Err(error);
        }
        if !self.table_names_agree() {
            return Err(
                EngineError::InvalidSnapshot(
                    "table-name lookup does not match table metadata".to_owned(),
                ),
            );
        }
        if let Err(error) = self.validate_indexes() {
            return Err(error);
        }
        if !self.index_names_agree() {
            return Err(
                EngineError::InvalidSnapshot(
                    "index-name lookup does not match index metadata".to_owned(),
                ),
            );
        }
        Ok(())
    }

    fn validate_tables(&self) -> (result: Result<()>)
        ensures
            ({
                let ids = ordered::<u64>(self.deep_view().tables.dom());
                let problem = self.deep_view().first_table_problem(ids, ids.len() as int);
                let flaw = first_of(self.deep_view().table_flaws(ids), ids.len() as int);
                match result {
                    Ok(()) => problem is None && flaw is None,
                    Err(error) => problem == Some(error.deep_view()) && flaw == Some(
                        error.shown(),
                    ),
                }
            }),
    {
        let ghost view = self.deep_view();
        let ghost ids = ordered::<u64>(view.tables.dom());
        let ghost flaws = view.table_flaws(ids);
        let count = self.tables.len();
        let mut i: usize = 0;
        while i < count
            invariant
                i <= count,
                view == self.deep_view(),
                ids == self.tables.keys(),
                count == ids.len(),
                view.first_table_problem(ids, i as int) is None,
                flaws == view.table_flaws(ids),
                first_of(flaws, i as int) is None,
            decreases count - i,
        {
            let id: u64 = *self.tables.key_at(i);
            let table = self.tables.value_at(i);
            let mut problem: Option<EngineError> = None;
            if id != table.id {
                problem =
                Some(
                    EngineError::InvalidSnapshot(
                        labelled(
                            &between(
                                "table map key ",
                                &decimal_text(id),
                                " differs from metadata id ",
                            ),
                            &decimal_text(table.id),
                        ),
                    ),
                );
            } else if let Err(error) = table.validate() {
                problem = Some(error);
            } else {
                let mut j: usize = 0;
                while j < i
                    invariant
                        j <= i < count,
                        view == self.deep_view(),
                        ids == self.tables.keys(),
                        count == ids.len(),
                        table.deep_view() == view.tables[ids[i as int]],
                        problem is None ==> forall|k: int|
                            0 <= k < j ==> folded_name((#[trigger] view.tables[ids[k]]).name)
                                != folded_name(table.name@),
                        problem matches Some(error) ==> error.shown() == "invalid snapshot: "@ + (
                        "duplicate table name `"@ + table.name@ + "`"@),
                        problem matches Some(error) ==> error.deep_view()
                            == EngineErrorKind::InvalidSnapshot && exists|k: int|
                            0 <= k < i && folded_name((#[trigger] view.tables[ids[k]]).name)
                                == folded_name(table.name@),
                    decreases i - j,
                {
                    if same_name(self.tables.value_at(j).name.as_str(), table.name.as_str()) {
                        assert(folded_name(view.tables[ids[j as int]].name) == folded_name(
                            table.name@,
                        ));
                        problem =
                        Some(
                            EngineError::InvalidSnapshot(
                                between("duplicate table name `", table.name.as_str(), "`"),
                            ),
                        );
                    }
                    j = j + 1;
                }
            }
            assert(match problem {
                Some(error) => view.table_problem(ids, i as int) == Some(error.deep_view())
                    && view.table_flaw(ids, i as int) == Some(error.shown()),
                None => view.table_problem(ids, i as int) is None,
            });
            assert(flaws(i as int) == view.table_flaw(ids, i as int));
            i = i + 1;
            if let Some(error) = problem {
                proof {
                    view.table_problem_stays(ids, i as int, count as int);
                    first_stays(flaws, i as int, count as int);
                }
                return Err(error);
            }
        }
        Ok(())
    }

    fn validate_indexes(&self) -> (result: Result<()>)
        ensures
            ({
                let ids = ordered::<u64>(self.deep_view().indexes.dom());
                let problem = self.deep_view().first_index_problem(ids, ids.len() as int);
                let flaw = first_of(self.deep_view().index_flaws(ids), ids.len() as int);
                match result {
                    Ok(()) => problem is None && flaw is None,
                    Err(error) => problem == Some(error.deep_view()) && flaw == Some(
                        error.shown(),
                    ),
                }
            }),
    {
        let ghost view = self.deep_view();
        let ghost ids = ordered::<u64>(view.indexes.dom());
        let ghost flaws = view.index_flaws(ids);
        let count = self.indexes.len();
        let mut i: usize = 0;
        while i < count
            invariant
                i <= count,
                view == self.deep_view(),
                ids == self.indexes.keys(),
                count == ids.len(),
                view.first_index_problem(ids, i as int) is None,
                flaws == view.index_flaws(ids),
                first_of(flaws, i as int) is None,
            decreases count - i,
        {
            let id: u64 = *self.indexes.key_at(i);
            let index = self.indexes.value_at(i);
            let mut problem: Option<EngineError> = None;
            if id != index.id || index.id == 0 {
                problem =
                Some(
                    EngineError::InvalidSnapshot(
                        labelled("invalid index map entry ", &decimal_text(id)),
                    ),
                );
            } else if let Err(error) = validate_identifier(index.name.as_str(), "index") {
                problem = Some(error);
            } else {
                match self.tables.get(&index.table_id) {
                    None => {
                        problem = Some(EngineError::UnknownTable(index.table_id));
                    },
                    Some(table) => {
                        if index.column >= table.schema.columns.len() {
                            problem =
                            Some(
                                EngineError::InvalidSnapshot(
                                    labelled(
                                        &between(
                                            "index ",
                                            &decimal_text(index.id),
                                            " references missing column ",
                                        ),
                                        &decimal_text(index.column as u64),
                                    ),
                                ),
                            );
                        } else {
                            let mut j: usize = 0;
                            while j < i
                                invariant
                                    j <= i < count,
                                    view == self.deep_view(),
                                    ids == self.indexes.keys(),
                                    count == ids.len(),
                                    index.deep_view() == view.indexes[ids[i as int]],
                                    problem is None ==> forall|k: int|
                                        0 <= k < j ==> folded_name(
                                            (#[trigger] view.indexes[ids[k]]).name,
                                        ) != folded_name(index.name@),
                                    problem matches Some(error) ==> error.shown()
                                        == "invalid snapshot: "@ + ("duplicate index name `"@
                                        + index.name@ + "`"@),
                                    problem matches Some(error) ==> error.deep_view()
                                        == EngineErrorKind::InvalidSnapshot && exists|k: int|
                                        0 <= k < i && folded_name(
                                            (#[trigger] view.indexes[ids[k]]).name,
                                        ) == folded_name(index.name@),
                                decreases i - j,
                            {
                                if same_name(
                                    self.indexes.value_at(j).name.as_str(),
                                    index.name.as_str(),
                                ) {
                                    assert(folded_name(view.indexes[ids[j as int]].name)
                                        == folded_name(index.name@));
                                    problem =
                                    Some(
                                        EngineError::InvalidSnapshot(
                                            between(
                                                "duplicate index name `",
                                                index.name.as_str(),
                                                "`",
                                            ),
                                        ),
                                    );
                                }
                                j = j + 1;
                            }
                        }
                    },
                }
            }
            assert(match problem {
                Some(error) => view.index_problem(ids, i as int) == Some(error.deep_view())
                    && view.index_flaw(ids, i as int) == Some(error.shown()),
                None => view.index_problem(ids, i as int) is None,
            });
            assert(flaws(i as int) == view.index_flaw(ids, i as int));
            i = i + 1;
            if let Some(error) = problem {
                proof {
                    view.index_problem_stays(ids, i as int, count as int);
                    first_stays(flaws, i as int, count as int);
                }
                return Err(error);
            }
        }
        Ok(())
    }

    fn table_names_agree(&self) -> (agree: bool)
        ensures
            agree == self.deep_view().table_names_match(),
    {
        let ghost view = self.deep_view();
        let ghost ids = self.tables.keys();
        let count = self.tables.len();
        let mut i: usize = 0;
        while i < count
            invariant
                i <= count,
                view == self.deep_view(),
                ids == self.tables.keys(),
                count == ids.len(),
                forall|j: int|
                    0 <= j < i ==> {
                        let name = folded_name((#[trigger] view.tables[ids[j]]).name);
                        view.table_names.contains_key(name) && view.table_names[name] == ids[j]
                    },
            decreases count - i,
        {
            let id: u64 = *self.tables.key_at(i);
            let table = self.tables.value_at(i);
            match self.table_names.get(&normalize(table.name.as_str())) {
                Some(found) => if *found != id {
                    assert(view.tables.contains_key(ids[i as int]));
                    return false;
                },
                None => {
                    assert(view.tables.contains_key(ids[i as int]));
                    return false;
                },
            }
            i = i + 1;
        }
        assert forall|id: u64| #![trigger view.tables[id]] view.tables.contains_key(id) implies {
            let name = folded_name(view.tables[id].name);
            view.table_names.contains_key(name) && view.table_names[name] == id
        } by {
            assert(ids.contains(id));
            let j = choose|j: int| 0 <= j < ids.len() && ids[j] == id;
            assert(view.tables[ids[j]] == view.tables[id]);
        }
        let ghost names = self.table_names.keys();
        let total = self.table_names.len();
        let mut i: usize = 0;
        while i < total
            invariant
                i <= total,
                view == self.deep_view(),
                names == self.table_names.keys(),
                total == names.len(),
                forall|j: int|
                    0 <= j < i ==> {
                        let id = #[trigger] view.table_names[names[j]];
                        view.tables.contains_key(id) && folded_name(view.tables[id].name)
                            == names[j]
                    },
            decreases total - i,
        {
            let name = self.table_names.key_at(i);
            let id = self.table_names.value_at(i);
            match self.tables.get(id) {
                Some(table) => if !normalize(table.name.as_str()).same(name) {
                    assert(view.table_names.contains_key(names[i as int]));
                    return false;
                },
                None => {
                    assert(view.table_names.contains_key(names[i as int]));
                    return false;
                },
            }
            i = i + 1;
        }
        assert forall|name: Seq<u8>|
            #![trigger view.table_names[name]]
            view.table_names.contains_key(name) implies {
            let id = view.table_names[name];
            view.tables.contains_key(id) && folded_name(view.tables[id].name) == name
        } by {
            assert(names.contains(name));
            let j = choose|j: int| 0 <= j < names.len() && names[j] == name;
            assert(view.table_names[names[j]] == view.table_names[name]);
        }
        true
    }

    fn index_names_agree(&self) -> (agree: bool)
        ensures
            agree == self.deep_view().index_names_match(),
    {
        let ghost view = self.deep_view();
        let ghost ids = self.indexes.keys();
        let count = self.indexes.len();
        let mut i: usize = 0;
        while i < count
            invariant
                i <= count,
                view == self.deep_view(),
                ids == self.indexes.keys(),
                count == ids.len(),
                forall|j: int|
                    0 <= j < i ==> {
                        let name = folded_name((#[trigger] view.indexes[ids[j]]).name);
                        view.index_names.contains_key(name) && view.index_names[name] == ids[j]
                    },
            decreases count - i,
        {
            let id: u64 = *self.indexes.key_at(i);
            let index = self.indexes.value_at(i);
            match self.index_names.get(&normalize(index.name.as_str())) {
                Some(found) => if *found != id {
                    assert(view.indexes.contains_key(ids[i as int]));
                    return false;
                },
                None => {
                    assert(view.indexes.contains_key(ids[i as int]));
                    return false;
                },
            }
            i = i + 1;
        }
        assert forall|id: u64| #![trigger view.indexes[id]] view.indexes.contains_key(id) implies {
            let name = folded_name(view.indexes[id].name);
            view.index_names.contains_key(name) && view.index_names[name] == id
        } by {
            assert(ids.contains(id));
            let j = choose|j: int| 0 <= j < ids.len() && ids[j] == id;
            assert(view.indexes[ids[j]] == view.indexes[id]);
        }
        let ghost names = self.index_names.keys();
        let total = self.index_names.len();
        let mut i: usize = 0;
        while i < total
            invariant
                i <= total,
                view == self.deep_view(),
                names == self.index_names.keys(),
                total == names.len(),
                forall|j: int|
                    0 <= j < i ==> {
                        let id = #[trigger] view.index_names[names[j]];
                        view.indexes.contains_key(id) && folded_name(view.indexes[id].name)
                            == names[j]
                    },
            decreases total - i,
        {
            let name = self.index_names.key_at(i);
            let id = self.index_names.value_at(i);
            match self.indexes.get(id) {
                Some(index) => if !normalize(index.name.as_str()).same(name) {
                    assert(view.index_names.contains_key(names[i as int]));
                    return false;
                },
                None => {
                    assert(view.index_names.contains_key(names[i as int]));
                    return false;
                },
            }
            i = i + 1;
        }
        assert forall|name: Seq<u8>|
            #![trigger view.index_names[name]]
            view.index_names.contains_key(name) implies {
            let id = view.index_names[name];
            view.indexes.contains_key(id) && folded_name(view.indexes[id].name) == name
        } by {
            assert(names.contains(name));
            let j = choose|j: int| 0 <= j < names.len() && names[j] == name;
            assert(view.index_names[names[j]] == view.index_names[name]);
        }
        true
    }

    fn create_table(&mut self, table: TableMeta) -> (result: Result<()>)
        ensures
            match result {
                Ok(()) => old(self).deep_view().with_table(table.deep_view()) == Ok::<
                    CatalogView,
                    EngineErrorKind,
                >(final(self).deep_view()),
                Err(error) => old(self).deep_view().with_table(table.deep_view()) == Err::<
                    CatalogView,
                    EngineErrorKind,
                >(error.deep_view()) && final(self).deep_view() == old(self).deep_view()
                    && error.shown() == old(self).deep_view().table_refusal(table.deep_view()),
            },
    {
        if let Err(error) = table.validate() {
            return Err(error);
        }
        if self.tables.contains_key(&table.id) {
            return Err(
                constraint(between("table id ", &decimal_text(table.id), " already exists")),
            );
        }
        let normalized = normalize(table.name.as_str());
        if self.table_names.contains_key(&normalized) {
            return Err(constraint(between("table `", table.name.as_str(), "` already exists")));
        }
        self.table_names.insert(normalized, table.id);
        self.tables.insert(table.id, table);
        Ok(())
    }

    fn create_index(&mut self, index: IndexMeta) -> (result: Result<()>)
        ensures
            match result {
                Ok(()) => old(self).deep_view().with_index(index.deep_view()) == Ok::<
                    CatalogView,
                    EngineErrorKind,
                >(final(self).deep_view()),
                Err(error) => old(self).deep_view().with_index(index.deep_view()) == Err::<
                    CatalogView,
                    EngineErrorKind,
                >(error.deep_view()) && final(self).deep_view() == old(self).deep_view()
                    && error.shown() == old(self).deep_view().index_refusal(index.deep_view()),
            },
    {
        if let Err(error) = validate_identifier(index.name.as_str(), "index") {
            return Err(error);
        }
        if index.id == 0 {
            return Err(constraint("index id zero is reserved".to_owned()));
        }
        if self.indexes.contains_key(&index.id) {
            return Err(
                constraint(between("index id ", &decimal_text(index.id), " already exists")),
            );
        }
        let normalized = normalize(index.name.as_str());
        if self.index_names.contains_key(&normalized) {
            return Err(constraint(between("index `", index.name.as_str(), "` already exists")));
        }
        match self.tables.get(&index.table_id) {
            None => return Err(EngineError::UnknownTable(index.table_id)),
            Some(table) => if index.column >= table.schema.columns.len() {
                return Err(
                    constraint(
                        between(
                            &between(
                                &between("index ", &decimal_text(index.id), " references column "),
                                &decimal_text(index.column as u64),
                                " outside table `",
                            ),
                            table.name.as_str(),
                            "`",
                        ),
                    ),
                );
            },
        }
        self.index_names.insert(normalized, index.id);
        self.indexes.insert(index.id, index);
        Ok(())
    }
}

/// Validation accepts exactly the valid catalogs.
pub proof fn validation_decides_validity(catalog: CatalogView)
    requires
        catalog.finite(),
    ensures
        catalog.validated() is Ok <==> catalog.valid(),
{
    let table_ids = ordered::<u64>(catalog.tables.dom());
    let index_ids = ordered::<u64>(catalog.indexes.dom());
    finite_set_is_listed::<u64>(catalog.tables.dom());
    finite_set_is_listed::<u64>(catalog.indexes.dom());
    catalog.no_table_problem(table_ids, table_ids.len() as int);
    catalog.no_index_problem(index_ids, index_ids.len() as int);
    if catalog.validated() is Ok {
        assert forall|id: u64|
            #![trigger catalog.tables[id]]
            catalog.tables.contains_key(id) implies catalog.tables[id].id == id
            && catalog.tables[id].valid() by {
            assert(table_ids.contains(id));
            let i = choose|i: int| 0 <= i < table_ids.len() && table_ids[i] == id;
            assert(catalog.table_problem(table_ids, i) is None);
        }
        assert forall|id: u64|
            #![trigger catalog.indexes[id]]
            catalog.indexes.contains_key(id) implies catalog.indexes[id].id == id
            && catalog.index_valid(catalog.indexes[id]) by {
            assert(index_ids.contains(id));
            let i = choose|i: int| 0 <= i < index_ids.len() && index_ids[i] == id;
            assert(catalog.index_problem(index_ids, i) is None);
        }
    }
    if catalog.valid() {
        assert forall|i: int| 0 <= i < table_ids.len() implies (#[trigger] catalog.table_problem(
            table_ids,
            i,
        )) is None by {
            assert(table_ids.contains(table_ids[i]));
            assert forall|j: int| 0 <= j < i implies folded_name(
                (#[trigger] catalog.tables[table_ids[j]]).name,
            ) != folded_name(catalog.tables[table_ids[i]].name) by {
                assert(table_ids.contains(table_ids[j]));
            }
        }
        assert forall|i: int| 0 <= i < index_ids.len() implies (#[trigger] catalog.index_problem(
            index_ids,
            i,
        )) is None by {
            assert(index_ids.contains(index_ids[i]));
            assert(catalog.index_valid(catalog.indexes[index_ids[i]]));
            assert forall|j: int| 0 <= j < i implies folded_name(
                (#[trigger] catalog.indexes[index_ids[j]]).name,
            ) != folded_name(catalog.indexes[index_ids[i]].name) by {
                assert(index_ids.contains(index_ids[j]));
            }
        }
    }
}

/// Mutations keep a catalog valid, keep every table and index that it had,
/// and never move its epoch back.
pub proof fn mutations_keep_validity(catalog: CatalogView, mutations: Seq<CatalogMutationView>)
    requires
        catalog.valid(),
        catalog.mutated(mutations) is Ok,
    ensures
        ({
            let next = catalog.mutated(mutations)->Ok_0;
            &&& next.valid()
            &&& catalog.finite() ==> next.finite()
            &&& catalog.tables.submap_of(next.tables)
            &&& catalog.indexes.submap_of(next.indexes)
            &&& next.schema_epoch == catalog.schema_epoch + (if mutations.len() == 0 {
                0int
            } else {
                1
            })
        }),
{
    catalog.mutated_by_keeps(mutations, mutations.len() as int);
    let last = catalog.mutated_by(mutations, mutations.len() as int)->Ok_0;
    let next = catalog.mutated(mutations)->Ok_0;
    assert(next.tables == last.tables && next.indexes == last.indexes);
    assert(next.tables_valid());
    assert forall|index: IndexMetaView| last.index_valid(index) implies next.index_valid(index) by {
    }
    assert(next.indexes_valid());
}

/// The indexes that mutations create are new, different from each other, and
/// part of the catalog afterwards.
pub proof fn created_indexes_are_new(catalog: CatalogView, mutations: Seq<CatalogMutationView>)
    requires
        catalog.valid(),
        catalog.mutated(mutations) is Ok,
    ensures
        ({
            let next = catalog.mutated(mutations)->Ok_0;
            let created = created_indexes(mutations, mutations.len() as int);
            &&& forall|i: int|
                0 <= i < created.len() ==> next.indexes.contains_key((#[trigger] created[i]).id)
                    && next.indexes[created[i].id] == created[i] && !catalog.indexes.contains_key(
                    created[i].id,
                )
            &&& forall|i: int, j: int|
                0 <= i < j < created.len() ==> (#[trigger] created[i]).id != (
                #[trigger] created[j]).id
        }),
{
    catalog.mutated_by_keeps(mutations, mutations.len() as int);
}

/// The indexes of a table are indexes of the catalog with different ids.
pub proof fn indexes_of_table(catalog: CatalogView, table_id: u64)
    requires
        catalog.valid(),
        catalog.finite(),
    ensures
        ({
            let indexes = catalog.indexes_of(table_id);
            &&& forall|i: int|
                0 <= i < indexes.len() ==> catalog.indexes.contains_key((#[trigger] indexes[i]).id)
                    && catalog.indexes[indexes[i].id] == indexes[i] && indexes[i].table_id
                    == table_id
            &&& forall|i: int, j: int|
                0 <= i < j < indexes.len() ==> (#[trigger] indexes[i]).id != (
                #[trigger] indexes[j]).id
        }),
{
    let ids = ordered::<u64>(catalog.indexes.dom());
    finite_set_is_listed::<u64>(catalog.indexes.dom());
    catalog.indexes_among_facts(table_id, ids, ids.len() as int);
}

impl CatalogView {
    proof fn indexes_among_facts(self, table_id: u64, ids: Seq<u64>, n: int)
        requires
            self.valid(),
            lists::<u64>(ids, self.indexes.dom()),
            0 <= n <= ids.len(),
        ensures
            ({
                let indexes = self.indexes_among(table_id, ids, n);
                &&& forall|i: int|
                    0 <= i < indexes.len() ==> self.indexes.contains_key((#[trigger] indexes[i]).id)
                        && self.indexes[indexes[i].id] == indexes[i] && indexes[i].table_id
                        == table_id && exists|k: int| 0 <= k < n && ids[k] == indexes[i].id
                &&& forall|i: int, j: int|
                    0 <= i < j < indexes.len() ==> (#[trigger] indexes[i]).id != (
                    #[trigger] indexes[j]).id
            }),
        decreases n,
    {
        if n > 0 {
            self.indexes_among_facts(table_id, ids, n - 1);
            let before = self.indexes_among(table_id, ids, n - 1);
            let indexes = self.indexes_among(table_id, ids, n);
            assert(ids.contains(ids[n - 1]));
            let added = self.indexes[ids[n - 1]];
            assert forall|i: int| 0 <= i < indexes.len() implies self.indexes.contains_key(
                (#[trigger] indexes[i]).id,
            ) && self.indexes[indexes[i].id] == indexes[i] && indexes[i].table_id == table_id
                && exists|k: int| 0 <= k < n && ids[k] == indexes[i].id by {
                if i < before.len() {
                    assert(indexes[i] == before[i]);
                } else {
                    assert(ids[n - 1] == indexes[i].id);
                }
            }
            assert forall|i: int, j: int| 0 <= i < j < indexes.len() implies (
            #[trigger] indexes[i]).id != (#[trigger] indexes[j]).id by {
                assert(indexes[i] == before[i]);
                if j < before.len() {
                    assert(indexes[j] == before[j]);
                } else {
                    let k = choose|k: int| 0 <= k < n - 1 && ids[k] == before[i].id;
                    assert(ids[k] < ids[n - 1]);
                }
            }
        }
    }

    proof fn no_table_problem(self, ids: Seq<u64>, n: int)
        requires
            0 <= n <= ids.len(),
        ensures
            self.first_table_problem(ids, n) is None <==> forall|i: int|
                0 <= i < n ==> (#[trigger] self.table_problem(ids, i)) is None,
        decreases n,
    {
        if n > 0 {
            self.no_table_problem(ids, n - 1);
            if self.first_table_problem(ids, n) is None {
                assert(self.table_problem(ids, n - 1) is None);
            }
        }
    }

    proof fn no_index_problem(self, ids: Seq<u64>, n: int)
        requires
            0 <= n <= ids.len(),
        ensures
            self.first_index_problem(ids, n) is None <==> forall|i: int|
                0 <= i < n ==> (#[trigger] self.index_problem(ids, i)) is None,
        decreases n,
    {
        if n > 0 {
            self.no_index_problem(ids, n - 1);
            if self.first_index_problem(ids, n) is None {
                assert(self.index_problem(ids, n - 1) is None);
            }
        }
    }

    proof fn with_table_keeps(self, table: TableMetaView)
        requires
            self.valid(),
            self.with_table(table) is Ok,
        ensures
            self.with_table(table)->Ok_0.valid(),
            self.tables.submap_of(self.with_table(table)->Ok_0.tables),
    {
        let next = self.with_table(table)->Ok_0;
        assert(next.tables_valid());
        assert forall|index: IndexMetaView| self.index_valid(index) implies next.index_valid(
            index,
        ) by {
        }
        assert(next.indexes_valid());
    }

    proof fn with_index_keeps(self, index: IndexMetaView)
        requires
            self.valid(),
            self.with_index(index) is Ok,
        ensures
            self.with_index(index)->Ok_0.valid(),
            self.indexes.submap_of(self.with_index(index)->Ok_0.indexes),
    {
        let next = self.with_index(index)->Ok_0;
        assert(next.tables_valid());
        assert forall|other: IndexMetaView| self.index_valid(other) implies next.index_valid(
            other,
        ) by {
        }
        assert(next.index_valid(index));
        assert(next.indexes_valid());
    }

    proof fn mutated_by_keeps(self, mutations: Seq<CatalogMutationView>, n: int)
        requires
            self.valid(),
            self.mutated_by(mutations, n) is Ok,
            0 <= n <= mutations.len(),
        ensures
            ({
                let next = self.mutated_by(mutations, n)->Ok_0;
                &&& next.valid()
                &&& self.finite() ==> next.finite()
                &&& self.tables.submap_of(next.tables)
                &&& self.indexes.submap_of(next.indexes)
                &&& next.schema_epoch == self.schema_epoch
                &&& forall|i: int|
                    0 <= i < created_indexes(mutations, n).len() ==> next.indexes.contains_key(
                        (#[trigger] created_indexes(mutations, n)[i]).id,
                    ) && next.indexes[created_indexes(mutations, n)[i].id] == created_indexes(
                        mutations,
                        n,
                    )[i] && !self.indexes.contains_key(created_indexes(mutations, n)[i].id)
                &&& forall|i: int, j: int|
                    0 <= i < j < created_indexes(mutations, n).len() ==> (
                    #[trigger] created_indexes(mutations, n)[i]).id != (
                    #[trigger] created_indexes(mutations, n)[j]).id
            }),
        decreases n,
    {
        if n > 0 {
            self.mutated_by_keeps(mutations, n - 1);
            let last = self.mutated_by(mutations, n - 1)->Ok_0;
            match mutations[n - 1] {
                CatalogMutationView::CreateTable(table) => {
                    last.with_table_keeps(table);
                    let next = last.with_table(table)->Ok_0;
                    let made = created_indexes(mutations, n);
                    assert(made == created_indexes(mutations, n - 1));
                    assert(self.tables.submap_of(next.tables));
                    assert forall|i: int| 0 <= i < made.len() implies next.indexes.contains_key(
                        (#[trigger] made[i]).id,
                    ) && next.indexes[made[i].id] == made[i] && !self.indexes.contains_key(
                        made[i].id,
                    ) by {
                        assert(last.indexes.contains_key(
                            created_indexes(mutations, n - 1)[i].id,
                        ));
                    }
                    assert forall|i: int, j: int| 0 <= i < j < made.len() implies (
                    #[trigger] made[i]).id != (#[trigger] made[j]).id by {
                        assert(created_indexes(mutations, n - 1)[i].id != created_indexes(
                            mutations,
                            n - 1,
                        )[j].id);
                    }
                },
                CatalogMutationView::CreateIndex(index) => {
                    last.with_index_keeps(index);
                    let next = last.with_index(index)->Ok_0;
                    let before = created_indexes(mutations, n - 1);
                    let made = created_indexes(mutations, n);
                    assert(made == before.push(index));
                    assert(self.indexes.submap_of(next.indexes));
                    assert forall|i: int| 0 <= i < made.len() implies next.indexes.contains_key(
                        (#[trigger] made[i]).id,
                    ) && next.indexes[made[i].id] == made[i] && !self.indexes.contains_key(
                        made[i].id,
                    ) by {
                        if i < before.len() {
                            assert(made[i] == before[i]);
                            assert(last.indexes.contains_key(before[i].id));
                        } else {
                            assert(made[i] == index);
                            if self.indexes.contains_key(index.id) {
                                assert(last.indexes.contains_key(index.id));
                            }
                        }
                    }
                    assert forall|i: int, j: int| 0 <= i < j < made.len() implies (
                    #[trigger] made[i]).id != (#[trigger] made[j]).id by {
                        assert(made[i] == before[i]);
                        assert(last.indexes.contains_key(before[i].id));
                        if j < before.len() {
                            assert(made[j] == before[j]);
                        }
                    }
                },
            }
        }
    }

    proof fn failed_mutation(self, mutations: Seq<CatalogMutationView>, m: int, n: int)
        requires
            0 <= m <= n,
            self.mutated_by(mutations, m) is Err,
        ensures
            self.mutated_by(mutations, n) == self.mutated_by(mutations, m),
            self.mutation_refusal(mutations, n) == self.mutation_refusal(mutations, m),
        decreases n,
    {
        if m < n {
            self.failed_mutation(mutations, m, n - 1);
        }
    }

    proof fn table_problem_stays(self, ids: Seq<u64>, m: int, n: int)
        requires
            0 <= m <= n,
            self.first_table_problem(ids, m) is Some,
        ensures
            self.first_table_problem(ids, n) == self.first_table_problem(ids, m),
        decreases n,
    {
        if m < n {
            self.table_problem_stays(ids, m, n - 1);
        }
    }

    proof fn index_problem_stays(self, ids: Seq<u64>, m: int, n: int)
        requires
            0 <= m <= n,
            self.first_index_problem(ids, m) is Some,
        ensures
            self.first_index_problem(ids, n) == self.first_index_problem(ids, m),
        decreases n,
    {
        if m < n {
            self.index_problem_stays(ids, m, n - 1);
        }
    }
}

} // verus!
