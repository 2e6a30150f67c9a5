//! Data types shared by every part of the database.

use std::cmp::Ordering;

use vstd::prelude::*;
use vstd::utf8::encode_utf8;
use crate::model::{Model, outcome};
use crate::order::{bytes_before, lex_lt, lex_total};
use crate::text::{decimal, decimal_text};
use crate::wire::{fold_bytes, to_lower};

verus! {

/// Largest text or byte string that a value may hold, in bytes.
pub const MAX_VALUE_BYTES: usize = 16 * 1024 * 1024;

/// Largest number of values in a row.
pub const MAX_ROW_COLUMNS: usize = 4_096;

pub type TableId = u64;

pub type IndexId = u64;

pub type TxnId = u64;

pub type Timestamp = u64;

pub type RaftIndex = u64;

pub type NodeId = u64;

pub type ShardId = u64;

/// An error of the data layer, with a text for people.
#[derive(Debug, Clone, PartialEq, Eq)]
pub enum Error {
    InvalidEncoding(String),
    LimitExceeded(String),
    Type(String),
    Constraint(String),
    Conflict(String),
    Unsupported(String),
    NotLeader(Option<String>),
    Corruption(String),
    Io(String),
    Invariant(String),
}

/// What an [`Error`] says to a program: its kind, without the text.
pub enum ErrorKind {
    InvalidEncoding,
    LimitExceeded,
    Type,
    Constraint,
    Conflict,
    Unsupported,
    NotLeader(Option<Seq<char>>),
    Corruption,
    Io,
    Invariant,
}

impl DeepView for Error {
    type V = ErrorKind;

    open spec fn deep_view(&self) -> ErrorKind {
        match self {
            Error::InvalidEncoding(_) => ErrorKind::InvalidEncoding,
            Error::LimitExceeded(_) => ErrorKind::LimitExceeded,
            Error::Type(_) => ErrorKind::Type,
            Error::Constraint(_) => ErrorKind::Constraint,
            Error::Conflict(_) => ErrorKind::Conflict,
            Error::Unsupported(_) => ErrorKind::Unsupported,
            Error::NotLeader(hint) => ErrorKind::NotLeader(hint.deep_view()),
            Error::Corruption(_) => ErrorKind::Corruption,
            Error::Io(_) => ErrorKind::Io,
            Error::Invariant(_) => ErrorKind::Invariant,
        }
    }
}

pub type Result<T> = std::result::Result<T, Error>;

impl Error {
    /// The error as people read it.
    pub open spec fn shown(&self) -> Seq<char> {
        match self {
            Error::InvalidEncoding(text) => "invalid encoding: "@ + text@,
            Error::LimitExceeded(text) => "resource limit exceeded: "@ + text@,
            Error::Type(text) => "type error: "@ + text@,
            Error::Constraint(text) => "constraint violation: "@ + text@,
            Error::Conflict(text) => "transaction conflict: "@ + text@,
            Error::Unsupported(text) => "unsupported operation: "@ + text@,
            Error::NotLeader(None) => "not the leader"@,
            Error::NotLeader(Some(hint)) => "not the leader; leader hint: "@ + hint@,
            Error::Corruption(text) => "corruption detected: "@ + text@,
            Error::Io(text) => "I/O error: "@ + text@,
            Error::Invariant(text) => "internal invariant failed: "@ + text@,
        }
    }

    /// The error as people read it.
    pub fn describe(&self) -> (text: String)
        ensures
            text@ == self.shown(),
    {
        match self {
            Error::InvalidEncoding(text) => labelled("invalid encoding: ", text.as_str()),
            Error::LimitExceeded(text) => labelled("resource limit exceeded: ", text.as_str()),
            Error::Type(text) => labelled("type error: ", text.as_str()),
            Error::Constraint(text) => labelled("constraint violation: ", text.as_str()),
            Error::Conflict(text) => labelled("transaction conflict: ", text.as_str()),
            Error::Unsupported(text) => labelled("unsupported operation: ", text.as_str()),
            Error::NotLeader(None) => "not the leader".to_owned(),
            Error::NotLeader(Some(hint)) => labelled(
                "not the leader; leader hint: ",
                hint.as_str(),
            ),
            Error::Corruption(text) => labelled("corruption detected: ", text.as_str()),
            Error::Io(text) => labelled("I/O error: ", text.as_str()),
            Error::Invariant(text) => labelled("internal invariant failed: ", text.as_str()),
        }
    }
}

/// A text behind a label.
pub fn labelled(label: &str, text: &str) -> (joined: String)
    ensures
        joined@ == label@ + text@,
{
    let mut joined = label.to_owned();
    joined.append(text);
    joined
}

/// A text between two others.
pub fn between(before: &str, text: &str, after: &str) -> (joined: String)
    ensures
        joined@ == before@ + text@ + after@,
{
    let mut joined = before.to_owned();
    joined.append(text);
    joined.append(after);
    joined
}

/// The words of a constraint violation.
pub open spec fn violation(text: Seq<char>) -> Seq<char> {
    "constraint violation: "@ + text
}

/// Joins the parts of a message.
pub fn message(parts: &[&str]) -> (text: String)
    ensures
        text@ == joined(parts@),
{
    let mut text = String::new();
    let mut i: usize = 0;
    while i < parts.len()
        invariant
            i <= parts@.len(),
            text@ == joined(parts@.take(i as int)),
        decreases parts@.len() - i,
    {
        text.append(parts[i]);
        i = i + 1;
        assert(parts@.take(i as int).drop_last() =~= parts@.take(i - 1));
    }
    assert(parts@.take(i as int) =~= parts@);
    text
}

/// The texts of a sequence of parts, one after the other.
pub open spec fn joined(parts: Seq<&str>) -> Seq<char>
    decreases parts.len(),
{
    if parts.len() == 0 {
        Seq::empty()
    } else {
        joined(parts.drop_last()) + parts.last()@
    }
}

/// The type of a column.
#[derive(Debug, Clone, Copy, PartialEq, Eq, Hash, Structural)]
pub enum DataType {
    Int64,
    Bool,
    Text,
    Bytes,
}

impl DeepView for DataType {
    type V = DataType;

    open spec fn deep_view(&self) -> DataType {
        *self
    }
}

impl Model for DataType {
    fn duplicate(&self) -> (copy: Self) {
        *self
    }

    fn same(&self, other: &Self) -> (equal: bool) {
        *self == *other
    }
}

/// A SQL value.
#[derive(Debug, Clone, PartialEq, Eq, Hash)]
pub enum Value {
    Null,
    Int64(i64),
    Bool(bool),
    Text(String),
    Bytes(Vec<u8>),
}

/// The content of a [`Value`].
#[verifier::ext_equal]
pub enum ValueView {
    Null,
    Int64(i64),
    Bool(bool),
    Text(Seq<char>),
    Bytes(Seq<u8>),
}

impl DeepView for Value {
    type V = ValueView;

    open spec fn deep_view(&self) -> ValueView {
        match self {
            Value::Null => ValueView::Null,
            Value::Int64(a) => ValueView::Int64(a.deep_view()),
            Value::Bool(a) => ValueView::Bool(a.deep_view()),
            Value::Text(a) => ValueView::Text(a.deep_view()),
            Value::Bytes(a) => ValueView::Bytes(a.deep_view()),
        }
    }
}

impl Model for Value {
    fn duplicate(&self) -> (copy: Self) {
        match self {
            Value::Null => Value::Null,
            Value::Int64(a) => Value::Int64(a.duplicate()),
            Value::Bool(a) => Value::Bool(a.duplicate()),
            Value::Text(a) => Value::Text(a.duplicate()),
            Value::Bytes(a) => Value::Bytes(a.duplicate()),
        }
    }

    fn same(&self, other: &Self) -> (equal: bool) {
        match (self, other) {
            (Value::Null, Value::Null) => true,
            (Value::Int64(a), Value::Int64(other_a)) => a.same(other_a),
            (Value::Bool(a), Value::Bool(other_a)) => a.same(other_a),
            (Value::Text(a), Value::Text(other_a)) => a.same(other_a),
            (Value::Bytes(a), Value::Bytes(other_a)) => a.same(other_a),
            _ => false,
        }
    }
}

/// One column of a table.
#[derive(Debug, Clone, PartialEq, Eq)]
pub struct Column {
    pub name: String,
    pub data_type: DataType,
    pub nullable: bool,
    pub primary_key: bool,
}

/// The content of a [`Column`].
#[verifier::ext_equal]
pub struct ColumnView {
    pub name: Seq<char>,
    pub data_type: DataType,
    pub nullable: bool,
    pub primary_key: bool,
}

impl DeepView for Column {
    type V = ColumnView;

    open spec fn deep_view(&self) -> ColumnView {
        ColumnView {
            name: self.name.deep_view(),
            data_type: self.data_type.deep_view(),
            nullable: self.nullable.deep_view(),
            primary_key: self.primary_key.deep_view(),
        }
    }
}

impl Model for Column {
    fn duplicate(&self) -> (copy: Self) {
        Column {
            name: self.name.duplicate(),
            data_type: self.data_type.duplicate(),
            nullable: self.nullable.duplicate(),
            primary_key: self.primary_key.duplicate(),
        }
    }

    fn same(&self, other: &Self) -> (equal: bool) {
        self.name.same(&other.name)
            && self.data_type.same(&other.data_type)
            && self.nullable.same(&other.nullable)
            && self.primary_key.same(&other.primary_key)
    }
}

/// The columns of a table, in row order.
#[derive(Debug, Clone, PartialEq, Eq)]
pub struct Schema {
    pub columns: Vec<Column>,
}

/// The content of a [`Schema`].
#[verifier::ext_equal]
pub struct SchemaView {
    pub columns: Seq<ColumnView>,
}

impl DeepView for Schema {
    type V = SchemaView;

    open spec fn deep_view(&self) -> SchemaView {
        SchemaView {
            columns: self.columns.deep_view(),
        }
    }
}

impl Model for Schema {
    fn duplicate(&self) -> (copy: Self) {
        Schema {
            columns: self.columns.duplicate(),
        }
    }

    fn same(&self, other: &Self) -> (equal: bool) {
        self.columns.same(&other.columns)
    }
}

/// The values of one row, in schema order.
#[derive(Debug, Clone, PartialEq, Eq)]
pub struct Row {
    pub values: Vec<Value>,
}

/// The content of a [`Row`].
#[verifier::ext_equal]
pub struct RowView {
    pub values: Seq<ValueView>,
}

impl DeepView for Row {
    type V = RowView;

    open spec fn deep_view(&self) -> RowView {
        RowView {
            values: self.values.deep_view(),
        }
    }
}

impl Model for Row {
    fn duplicate(&self) -> (copy: Self) {
        Row {
            values: self.values.duplicate(),
        }
    }

    fn same(&self, other: &Self) -> (equal: bool) {
        self.values.same(&other.values)
    }
}

/// Identity of one logical client request.
#[derive(Debug, Clone, PartialEq, Eq, Hash)]
pub struct ClientRequestId {
    pub client_id: [u8; 16],
    pub sequence: u64,
}

/// The content of a [`ClientRequestId`].
#[verifier::ext_equal]
pub struct ClientRequestIdView {
    pub client_id: Seq<u8>,
    pub sequence: u64,
}

impl DeepView for ClientRequestId {
    type V = ClientRequestIdView;

    open spec fn deep_view(&self) -> ClientRequestIdView {
        ClientRequestIdView {
            client_id: self.client_id.deep_view(),
            sequence: self.sequence.deep_view(),
        }
    }
}

impl Model for ClientRequestId {
    fn duplicate(&self) -> (copy: Self) {
        ClientRequestId {
            client_id: self.client_id.duplicate(),
            sequence: self.sequence.duplicate(),
        }
    }

    fn same(&self, other: &Self) -> (equal: bool) {
        self.client_id.same(&other.client_id)
            && self.sequence.same(&other.sequence)
    }
}

impl DataType {
    /// The SQL name of the type.
    pub fn name(&self) -> (name: &'static str)
        ensures
            name@ == self.name_spec(),
    {
        match self {
            DataType::Int64 => "INT64",
            DataType::Bool => "BOOL",
            DataType::Text => "TEXT",
            DataType::Bytes => "BYTES",
        }
    }

    pub open spec fn name_spec(&self) -> Seq<char> {
        match self {
            DataType::Int64 => "INT64"@,
            DataType::Bool => "BOOL"@,
            DataType::Text => "TEXT"@,
            DataType::Bytes => "BYTES"@,
        }
    }
}

impl ValueView {
    /// The type of a value; `NULL` has none.
    pub open spec fn data_type(self) -> Option<DataType> {
        match self {
            ValueView::Null => None,
            ValueView::Int64(_) => Some(DataType::Int64),
            ValueView::Bool(_) => Some(DataType::Bool),
            ValueView::Text(_) => Some(DataType::Text),
            ValueView::Bytes(_) => Some(DataType::Bytes),
        }
    }

    /// `self` precedes `other` in SQL order: numbers by size, `false` before
    /// `true`, texts by their UTF-8 bytes, byte strings by their bytes.
    pub open spec fn precedes(self, other: ValueView) -> bool {
        match (self, other) {
            (ValueView::Int64(a), ValueView::Int64(b)) => a < b,
            (ValueView::Bool(a), ValueView::Bool(b)) => !a && b,
            (ValueView::Text(a), ValueView::Text(b)) => lex_lt(encode_utf8(a), encode_utf8(b)),
            (ValueView::Bytes(a), ValueView::Bytes(b)) => lex_lt(a, b),
            _ => false,
        }
    }

    /// SQL comparison: `NULL` compares to nothing, and values of different
    /// types cannot be compared.
    pub open spec fn compared(self, other: ValueView) -> std::result::Result<
        Option<Ordering>,
        ErrorKind,
    > {
        if self is Null || other is Null {
            Ok(None)
        } else if self.data_type() != other.data_type() {
            Err(ErrorKind::Type)
        } else if self.precedes(other) {
            Ok(Some(Ordering::Less))
        } else if other.precedes(self) {
            Ok(Some(Ordering::Greater))
        } else {
            Ok(Some(Ordering::Equal))
        }
    }
}

impl Value {
    /// The type of the value; `NULL` has none.
    pub fn data_type(&self) -> (data_type: Option<DataType>)
        ensures
            data_type == self.deep_view().data_type(),
    {
        match self {
            Value::Null => None,
            Value::Int64(_) => Some(DataType::Int64),
            Value::Bool(_) => Some(DataType::Bool),
            Value::Text(_) => Some(DataType::Text),
            Value::Bytes(_) => Some(DataType::Bytes),
        }
    }

    pub fn is_null(&self) -> (null: bool)
        ensures
            null == (self.deep_view() is Null),
    {
        matches!(self, Value::Null)
    }

    /// Compares two values by SQL rules.
    pub fn checked_cmp(&self, other: &Value) -> (result: Result<Option<Ordering>>)
        ensures
            match result {
                Ok(order) => self.deep_view().compared(other.deep_view())
                    == Ok::<Option<Ordering>, ErrorKind>(order),
                Err(error) => self.deep_view().compared(other.deep_view())
                    == Err::<Option<Ordering>, ErrorKind>(error.deep_view()),
            },
    {
        broadcast use crate::model::group_contents;

        match (self, other) {
            (Value::Null, _) | (_, Value::Null) => Ok(None),
            (Value::Int64(a), Value::Int64(b)) => Ok(
                Some(
                    if *a < *b {
                        Ordering::Less
                    } else if *b < *a {
                        Ordering::Greater
                    } else {
                        Ordering::Equal
                    },
                ),
            ),
            (Value::Bool(a), Value::Bool(b)) => Ok(
                Some(
                    if !*a && *b {
                        Ordering::Less
                    } else if !*b && *a {
                        Ordering::Greater
                    } else {
                        Ordering::Equal
                    },
                ),
            ),
            (Value::Text(a), Value::Text(b)) => Ok(
                Some(order_of(a.as_str().as_bytes(), b.as_str().as_bytes())),
            ),
            (Value::Bytes(a), Value::Bytes(b)) => Ok(Some(order_of(a.as_slice(), b.as_slice()))),
            _ => Err(
                Error::Type(
                    message(&["cannot compare ", self.sql_type_name(), " with ", other.sql_type_name()]),
                ),
            ),
        }
    }

    /// The SQL name of the value's type.
    pub fn sql_type_name(&self) -> (name: &'static str)
        ensures
            name@ == (match self.deep_view().data_type() {
                Some(data_type) => data_type.name_spec(),
                None => "NULL"@,
            }),
    {
        match self {
            Value::Null => "NULL",
            Value::Int64(_) => "INT64",
            Value::Bool(_) => "BOOL",
            Value::Text(_) => "TEXT",
            Value::Bytes(_) => "BYTES",
        }
    }
}

fn order_of(a: &[u8], b: &[u8]) -> (order: Ordering)
    ensures
        order == (if lex_lt(a@, b@) {
            Ordering::Less
        } else if lex_lt(b@, a@) {
            Ordering::Greater
        } else {
            Ordering::Equal
        }),
{
    if bytes_before(a, b) {
        Ordering::Less
    } else if bytes_before(b, a) {
        Ordering::Greater
    } else {
        Ordering::Equal
    }
}

/// A name with ASCII case folded away, as bytes.
pub open spec fn folded_name(name: Seq<char>) -> Seq<u8> {
    fold_bytes(encode_utf8(name))
}

/// Two names that differ at most in ASCII case.
pub fn same_name(left: &str, right: &str) -> (same: bool)
    ensures
        same == (folded_name(left@) == folded_name(right@)),
{
    broadcast use crate::model::group_contents;

    to_lower(left.as_bytes()).same(&to_lower(right.as_bytes()))
}

impl SchemaView {
    /// The only primary-key column is `index`.
    pub open spec fn sole_primary_key(self, index: int) -> bool {
        &&& 0 <= index < self.columns.len()
        &&& self.columns[index].primary_key
        &&& forall|i: int|
            0 <= i < self.columns.len() && (#[trigger] self.columns[i]).primary_key ==> i == index
    }

    /// Every column has a name, and no two names differ only in ASCII case.
    pub open spec fn names_distinct(self) -> bool {
        &&& forall|i: int| 0 <= i < self.columns.len() ==> (#[trigger] self.columns[i]).name.len() > 0
        &&& forall|i: int, j: int|
            0 <= i < j < self.columns.len() ==> folded_name((#[trigger] self.columns[i]).name)
                != folded_name((#[trigger] self.columns[j]).name)
    }

    /// The schema is acceptable, with its primary key at `index`.
    pub open spec fn valid_with_key(self, index: int) -> bool {
        &&& 0 < self.columns.len() <= MAX_ROW_COLUMNS
        &&& self.sole_primary_key(index)
        &&& !self.columns[index].nullable
        &&& self.names_distinct()
    }

    /// What validation answers: the position of the primary key, or the error.
    pub open spec fn validated(self) -> std::result::Result<usize, ErrorKind> {
        if self.columns.len() > MAX_ROW_COLUMNS {
            Err(ErrorKind::LimitExceeded)
        } else if exists|index: int| self.valid_with_key(index) {
            Ok((choose|index: int| self.valid_with_key(index)) as usize)
        } else {
            Err(ErrorKind::Constraint)
        }
    }

    /// The first column name from `i` on that is empty or taken, in words.
    pub open spec fn name_refusal(self, i: int) -> Seq<char>
        decreases self.columns.len() - i,
    {
        if i >= self.columns.len() {
            Seq::empty()
        } else if self.columns[i].name.len() == 0 {
            violation("column names cannot be empty"@)
        } else if exists|j: int|
            0 <= j < i && folded_name((#[trigger] self.columns[j]).name) == folded_name(
                self.columns[i].name,
            ) {
            violation("duplicate column name `"@ + self.columns[i].name + "`"@)
        } else {
            self.name_refusal(i + 1)
        }
    }

    /// What is wrong with a schema that validation refuses, in words.
    pub open spec fn refusal(self) -> Seq<char> {
        if self.columns.len() == 0 {
            violation("a table must have at least one column"@)
        } else if self.columns.len() > MAX_ROW_COLUMNS {
            "resource limit exceeded: "@ + ("schema has "@ + decimal(self.columns.len())
                + " columns; maximum is "@ + decimal(MAX_ROW_COLUMNS as nat))
        } else if !exists|index: int| self.sole_primary_key(index) {
            violation("exactly one primary-key column is required"@)
        } else if self.columns[choose|index: int| self.sole_primary_key(index)].nullable {
            violation("primary key cannot be nullable"@)
        } else {
            self.name_refusal(0)
        }
    }

    /// What is wrong with cell `i` of a row, in words.
    pub open spec fn cell_refusal(self, row: RowView, i: int) -> Seq<char> {
        let column = self.columns[i];
        match row.values[i].data_type() {
            None => violation("column `"@ + column.name + "` is not nullable"@),
            Some(actual) => "type error: "@ + ("column `"@ + column.name + "` expects "@
                + column.data_type.name_spec() + ", got "@ + actual.name_spec()),
        }
    }

    /// What is wrong with a row that does not fit the schema, in words.
    pub open spec fn row_refusal(self, row: RowView) -> Seq<char> {
        if self.validated() is Err {
            self.refusal()
        } else if row.values.len() != self.columns.len() {
            violation(
                "row has "@ + decimal(row.values.len()) + " values for "@ + decimal(
                    self.columns.len(),
                ) + " columns"@,
            )
        } else {
            self.cell_refusal(row, choose|i: int| self.first_bad_cell(row, i))
        }
    }

    /// `value` fits the type and the nullability of column `i`.
    pub open spec fn cell_error(self, row: RowView, i: int) -> Option<ErrorKind> {
        match row.values[i].data_type() {
            None => if self.columns[i].nullable {
                None
            } else {
                Some(ErrorKind::Constraint)
            },
            Some(actual) => if actual == self.columns[i].data_type {
                None
            } else {
                Some(ErrorKind::Type)
            },
        }
    }

    /// `i` is the first cell of the row that does not fit its column.
    pub open spec fn first_bad_cell(self, row: RowView, i: int) -> bool {
        &&& 0 <= i < self.columns.len()
        &&& self.cell_error(row, i) is Some
        &&& forall|j: int| 0 <= j < i ==> (#[trigger] self.cell_error(row, j)) is None
    }

    /// What row validation answers.
    pub open spec fn row_validated(self, row: RowView) -> std::result::Result<(), ErrorKind> {
        match self.validated() {
            Err(error) => Err(error),
            Ok(_) => if row.values.len() != self.columns.len() {
                Err(ErrorKind::Constraint)
            } else if exists|i: int| self.first_bad_cell(row, i) {
                Err(self.cell_error(row, choose|i: int| self.first_bad_cell(row, i))->0)
            } else {
                Ok(())
            },
        }
    }
}

impl Schema {
    /// Checks that the schema has a bounded number of distinctly named columns
    /// and exactly one primary key, which is not nullable, and returns the
    /// position of the primary key.
    pub fn validate(&self) -> (result: Result<usize>)
        ensures
            outcome(result) == self.deep_view().validated(),
            result matches Ok(index) ==> self.deep_view().valid_with_key(index as int),
            result matches Err(error) ==> error.shown() == self.deep_view().refusal(),
    {
        let ghost view = self.deep_view();
        if self.columns.len() == 0 {
            return Err(
                Error::Constraint("a table must have at least one column".to_owned()),
            );
        }
        if self.columns.len() > MAX_ROW_COLUMNS {
            return Err(
                Error::LimitExceeded(
                    labelled(
                        &between(
                            "schema has ",
                            &decimal_text(self.columns.len() as u64),
                            " columns; maximum is ",
                        ),
                        &decimal_text(MAX_ROW_COLUMNS as u64),
                    ),
                ),
            );
        }
        let mut found: Option<usize> = None;
        let mut i: usize = 0;
        while i < self.columns.len()
            invariant
                i <= self.columns@.len() <= MAX_ROW_COLUMNS,
                view == self.deep_view(),
                match found {
                    Some(p) => p < i && view.columns[p as int].primary_key,
                    None => true,
                },
                forall|j: int|
                    0 <= j < i && (#[trigger] view.columns[j]).primary_key ==> found == Some(
                        j as usize,
                    ),
            decreases self.columns@.len() - i,
        {
            if self.columns[i].primary_key {
                if let Some(p) = found {
                    proof {
                        assert(view.columns[i as int].primary_key);
                        assert forall|index: int| !view.sole_primary_key(index) by {
                            if view.sole_primary_key(index) {
                                assert(view.columns[p as int].primary_key);
                            }
                        }
                    }
                    return Err(
                        Error::Constraint("exactly one primary-key column is required".to_owned()),
                    );
                }
                found = Some(i);
            }
            i = i + 1;
        }
        let primary = match found {
            Some(p) => p,
            None => {
                assert(forall|index: int| !view.sole_primary_key(index));
                return Err(
                    Error::Constraint("exactly one primary-key column is required".to_owned()),
                );
            },
        };
        assert(view.sole_primary_key(primary as int));
        assert(view.columns[primary as int].nullable == self.columns[primary as int].nullable);
        assert(forall|index: int| view.sole_primary_key(index) ==> index == primary);
        if self.columns[primary].nullable {
            return Err(Error::Constraint("primary key cannot be nullable".to_owned()));
        }
        let mut i: usize = 0;
        while i < self.columns.len()
            invariant
                i <= self.columns@.len() <= MAX_ROW_COLUMNS,
                view == self.deep_view(),
                0 < view.columns.len(),
                exists|index: int| view.sole_primary_key(index),
                !view.columns[choose|index: int| view.sole_primary_key(index)].nullable,
                forall|j: int| 0 <= j < i ==> (#[trigger] view.columns[j]).name.len() > 0,
                forall|j: int, k: int|
                    0 <= j < k < i ==> folded_name((#[trigger] view.columns[j]).name)
                        != folded_name((#[trigger] view.columns[k]).name),
                view.name_refusal(0) == view.name_refusal(i as int),
            decreases self.columns@.len() - i,
        {
            assert(view.columns[i as int].name == self.columns[i as int].name@);
            if self.columns[i].name.as_str().is_empty() {
                assert(!view.names_distinct());
                return Err(Error::Constraint("column names cannot be empty".to_owned()));
            }
            let mut j: usize = 0;
            while j < i
                invariant
                    j <= i < self.columns@.len() <= MAX_ROW_COLUMNS,
                    view == self.deep_view(),
                    forall|k: int|
                        0 <= k < j ==> folded_name((#[trigger] view.columns[k]).name)
                            != folded_name(view.columns[i as int].name),
                    view.columns[i as int].name.len() > 0,
                    view.name_refusal(0) == view.name_refusal(i as int),
                    0 < view.columns.len() <= MAX_ROW_COLUMNS,
                    exists|index: int| view.sole_primary_key(index),
                    !view.columns[choose|index: int| view.sole_primary_key(index)].nullable,
                decreases i - j,
            {
                assert(view.columns[i as int].name == self.columns[i as int].name@);
                assert(view.columns[j as int].name == self.columns[j as int].name@);
                if same_name(self.columns[j].name.as_str(), self.columns[i].name.as_str()) {
                    assert(!view.names_distinct());
                    return Err(
                        Error::Constraint(
                            between("duplicate column name `", self.columns[i].name.as_str(), "`"),
                        ),
                    );
                }
                j = j + 1;
            }
            i = i + 1;
        }
        assert(view.valid_with_key(primary as int));
        assert(forall|index: int| view.valid_with_key(index) ==> index == primary);
        Ok(primary)
    }

    /// Checks that a row fits the schema.
    pub fn validate_row(&self, row: &Row) -> (result: Result<()>)
        ensures
            result is Ok == (self.deep_view().row_validated(row.deep_view()) is Ok),
            result matches Err(error) ==> self.deep_view().row_validated(row.deep_view())
                == Err::<(), ErrorKind>(error.deep_view()) && error.shown()
                == self.deep_view().row_refusal(row.deep_view()),
    {
        let ghost view = self.deep_view();
        let ghost cells = row.deep_view();
        if let Err(error) = self.validate() {
            return Err(error);
        }
        if row.values.len() != self.columns.len() {
            return Err(
                Error::Constraint(
                    between(
                        &between("row has ", &decimal_text(row.values.len() as u64), " values for "),
                        &decimal_text(self.columns.len() as u64),
                        " columns",
                    ),
                ),
            );
        }
        let mut i: usize = 0;
        while i < self.columns.len()
            invariant
                i <= self.columns@.len(),
                self.columns@.len() == row.values@.len(),
                view == self.deep_view(),
                cells == row.deep_view(),
                view.validated() is Ok,
                forall|j: int| 0 <= j < i ==> (#[trigger] view.cell_error(cells, j)) is None,
            decreases self.columns@.len() - i,
        {
            assert(view.columns[i as int] == self.columns[i as int].deep_view());
            assert(cells.values[i as int] == row.values[i as int].deep_view());
            let column = &self.columns[i];
            let value = &row.values[i];
            let problem = match value.data_type() {
                None => if column.nullable {
                    None
                } else {
                    Some(
                        Error::Constraint(
                            between("column `", column.name.as_str(), "` is not nullable"),
                        ),
                    )
                },
                Some(actual) => if actual == column.data_type {
                    None
                } else {
                    Some(
                        Error::Type(
                            labelled(
                                &between(
                                    &between("column `", column.name.as_str(), "` expects "),
                                    column.data_type.name(),
                                    ", got ",
                                ),
                                value.sql_type_name(),
                            ),
                        ),
                    )
                },
            };
            if let Some(error) = problem {
                proof {
                    assert(view.first_bad_cell(cells, i as int));
                    assert(forall|k: int|
                        view.first_bad_cell(cells, k) ==> k == i) by {
                        assert(forall|k: int|
                            #![trigger view.first_bad_cell(cells, k)]
                            view.first_bad_cell(cells, k) && k != i ==> {
                                ||| k < i && view.cell_error(cells, k) is None
                                ||| k > i && view.cell_error(cells, i as int) is None
                            });
                    }
                }
                return Err(error);
            }
            i = i + 1;
        }
        assert(forall|k: int| !view.first_bad_cell(cells, k));
        Ok(())
    }
}

/// Comparing two values is the same as comparing them the other way round and
/// reversing the answer, and equal answers mean equal values.
pub proof fn comparison_is_antisymmetric(a: ValueView, b: ValueView)
    ensures
        a.compared(b) == (match b.compared(a) {
            Ok(Some(Ordering::Less)) => Ok::<Option<Ordering>, ErrorKind>(Some(Ordering::Greater)),
            Ok(Some(Ordering::Greater)) => Ok(Some(Ordering::Less)),
            other => other,
        }),
        a.compared(b) == Ok::<Option<Ordering>, ErrorKind>(Some(Ordering::Equal)) ==> a == b,
{
    match (a, b) {
        (ValueView::Text(s), ValueView::Text(t)) => {
            crate::order::lex_asymmetric(encode_utf8(s), encode_utf8(t));
            lex_total(encode_utf8(s), encode_utf8(t));
            vstd::utf8::encode_utf8_decode_utf8(s);
            vstd::utf8::encode_utf8_decode_utf8(t);
        },
        (ValueView::Bytes(s), ValueView::Bytes(t)) => {
            crate::order::lex_asymmetric(s, t);
            lex_total(s, t);
        },
        _ => {},
    }
}

/// `a` is smaller than `b`: a number that is less, `false` where the other is `true`, a text
/// or bytes that come first byte by byte, or any value where the other is `NULL`.
pub open spec fn smaller(a: ValueView, b: ValueView) -> bool {
    match (a, b) {
        (ValueView::Int64(x), ValueView::Int64(y)) => x < y,
        (ValueView::Bool(x), ValueView::Bool(y)) => !x && y,
        (ValueView::Text(x), ValueView::Text(y)) => lex_lt(encode_utf8(x), encode_utf8(y)),
        (ValueView::Bytes(x), ValueView::Bytes(y)) => lex_lt(x, y),
        (ValueView::Null, _) => false,
        (_, ValueView::Null) => true,
        _ => false,
    }
}

/// Two values are of one type, or one of them is `NULL`.
pub open spec fn comparable(a: ValueView, b: ValueView) -> bool {
    match (a, b) {
        (ValueView::Null, _) => true,
        (_, ValueView::Null) => true,
        (ValueView::Int64(_), ValueView::Int64(_)) => true,
        (ValueView::Bool(_), ValueView::Bool(_)) => true,
        (ValueView::Text(_), ValueView::Text(_)) => true,
        (ValueView::Bytes(_), ValueView::Bytes(_)) => true,
        _ => false,
    }
}

} // verus!
