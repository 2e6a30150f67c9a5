//! Transactions: a private overlay of writes, and its canonical form.

use vstd::prelude::*;
use vstd::utf8::encode_utf8;
use crate::codec::{
    encodable, encodable_row, encode_ordered, encode_row, encode_value, encoded_row, encoded_value,
    ordered_value,
};
use crate::digest::{sha256, sha256_digest};
use crate::engine::catalog::{
    CatalogMutation, CatalogMutationView, IndexMeta, IndexMetaView, TableMeta, TableMetaView,
    sort_key_before,
};
use crate::engine::error::{EngineError, EngineErrorKind, Result};
use crate::model::{Model, outcome};
use crate::order::{bytes_before, lex_irreflexive, lex_lt, lex_total, lex_transitive};
use crate::ordmap::{Key, OrdMap, lists, ordered};
use crate::types::{
    ClientRequestId, ClientRequestIdView, Column, ColumnView, DataType, Error, ErrorKind, Row,
    RowView, TableId, TxnId, Value, ValueView,
};
use crate::wire::{be_bytes, put_be, put_bytes};

verus! {

broadcast use crate::model::group_contents;

/// What a transaction does to a row.
#[derive(Debug, Clone, PartialEq, Eq)]
pub enum Mutation {
    Put(Row),
    Delete,
}

/// The content of a [`Mutation`].
#[verifier::ext_equal]
pub enum MutationView {
    Put(RowView),
    Delete,
}

impl DeepView for Mutation {
    type V = MutationView;

    open spec fn deep_view(&self) -> MutationView {
        match self {
            Mutation::Put(a) => MutationView::Put(a.deep_view()),
            Mutation::Delete => MutationView::Delete,
        }
    }
}

impl Model for Mutation {
    fn duplicate(&self) -> (copy: Self) {
        match self {
            Mutation::Put(a) => Mutation::Put(a.duplicate()),
            Mutation::Delete => Mutation::Delete,
        }
    }

    fn same(&self, other: &Self) -> (equal: bool) {
        match (self, other) {
            (Mutation::Put(a), Mutation::Put(other_a)) => a.same(other_a),
            (Mutation::Delete, Mutation::Delete) => true,
            _ => false,
        }
    }
}

/// One write of a transaction.
#[derive(Debug, Clone, PartialEq, Eq)]
pub struct TxnWrite {
    pub table_id: TableId,
    pub primary_key: Value,
    pub mutation: Mutation,
}

/// The content of a [`TxnWrite`].
#[verifier::ext_equal]
pub struct TxnWriteView {
    pub table_id: TableId,
    pub primary_key: ValueView,
    pub mutation: MutationView,
}

impl DeepView for TxnWrite {
    type V = TxnWriteView;

    open spec fn deep_view(&self) -> TxnWriteView {
        TxnWriteView {
            table_id: self.table_id.deep_view(),
            primary_key: self.primary_key.deep_view(),
            mutation: self.mutation.deep_view(),
        }
    }
}

impl Model for TxnWrite {
    fn duplicate(&self) -> (copy: Self) {
        TxnWrite {
            table_id: self.table_id.duplicate(),
            primary_key: self.primary_key.duplicate(),
            mutation: self.mutation.duplicate(),
        }
    }

    fn same(&self, other: &Self) -> (equal: bool) {
        self.table_id.same(&other.table_id)
            && self.primary_key.same(&other.primary_key)
            && self.mutation.same(&other.mutation)
    }
}

/// The key of a row, ordered by table and then by primary key.
#[derive(Debug, Clone, PartialEq, Eq)]
pub struct LogicalKey {
    pub table_id: TableId,
    pub primary_key: Vec<u8>,
}

/// The content of a [`LogicalKey`].
#[verifier::ext_equal]
pub struct LogicalKeyView {
    pub table_id: TableId,
    pub primary_key: Seq<u8>,
}

impl DeepView for LogicalKey {
    type V = LogicalKeyView;

    open spec fn deep_view(&self) -> LogicalKeyView {
        LogicalKeyView {
            table_id: self.table_id.deep_view(),
            primary_key: self.primary_key.deep_view(),
        }
    }
}

impl Model for LogicalKey {
    fn duplicate(&self) -> (copy: Self) {
        LogicalKey {
            table_id: self.table_id.duplicate(),
            primary_key: self.primary_key.duplicate(),
        }
    }

    fn same(&self, other: &Self) -> (equal: bool) {
        self.table_id.same(&other.table_id)
            && self.primary_key.same(&other.primary_key)
    }
}

impl Key for LogicalKey {
    open spec fn before(a: LogicalKeyView, b: LogicalKeyView) -> bool {
        a.table_id < b.table_id || (a.table_id == b.table_id && lex_lt(
            a.primary_key,
            b.primary_key,
        ))
    }

    proof fn before_irreflexive(a: LogicalKeyView) {
        lex_irreflexive(a.primary_key);
    }

    proof fn before_transitive(a: LogicalKeyView, b: LogicalKeyView, c: LogicalKeyView) {
        if a.table_id == b.table_id && b.table_id == c.table_id {
            lex_transitive(a.primary_key, b.primary_key, c.primary_key);
        }
    }

    proof fn before_total(a: LogicalKeyView, b: LogicalKeyView) {
        lex_total(a.primary_key, b.primary_key);
    }

    fn comes_before(&self, other: &Self) -> (before: bool) {
        self.table_id < other.table_id || (self.table_id == other.table_id && bytes_before(
            self.primary_key.as_slice(),
            other.primary_key.as_slice(),
        ))
    }
}

impl LogicalKeyView {
    /// The key of a row; a primary key that is too long has none.
    pub open spec fn made(table_id: TableId, primary_key: ValueView) -> std::result::Result<
        LogicalKeyView,
        EngineErrorKind,
    > {
        if encodable(primary_key) {
            Ok(LogicalKeyView { table_id, primary_key: ordered_value(primary_key) })
        } else {
            Err(EngineErrorKind::Core(ErrorKind::LimitExceeded))
        }
    }
}

impl LogicalKey {
    pub fn new(table_id: TableId, primary_key: &Value) -> (result: Result<LogicalKey>)
        ensures
            outcome(result) == LogicalKeyView::made(table_id, primary_key.deep_view()),
    {
        let mut validation: Vec<u8> = Vec::new();
        if let Err(error) = encode_value(primary_key, &mut validation) {
            return Err(EngineError::Core(error));
        }
        let mut encoded: Vec<u8> = Vec::new();
        encode_ordered(primary_key, &mut encoded);
        assert(encoded@ =~= ordered_value(primary_key.deep_view()));
        Ok(LogicalKey { table_id, primary_key: encoded })
    }
}

impl TxnWriteView {
    /// The key of the row that is written.
    pub open spec fn logical_key(self) -> std::result::Result<LogicalKeyView, EngineErrorKind> {
        LogicalKeyView::made(self.table_id, self.primary_key)
    }

    /// The row that the write leaves behind.
    pub open spec fn new_row(self) -> Option<RowView> {
        match self.mutation {
            MutationView::Put(row) => Some(row),
            MutationView::Delete => None,
        }
    }
}

impl TxnWrite {
    pub fn logical_key(&self) -> (result: Result<LogicalKey>)
        ensures
            outcome(result) == self.deep_view().logical_key(),
    {
        LogicalKey::new(self.table_id, &self.primary_key)
    }
}

/// A transaction: a snapshot to read from and a private overlay of writes.
#[derive(Debug)]
pub struct Transaction {
    id: TxnId,
    read_ts: u64,
    schema_epoch: u64,
    writes: OrdMap<LogicalKey, TxnWrite>,
    catalog_mutations: Vec<CatalogMutation>,
}

/// The content of a [`Transaction`].
#[verifier::ext_equal]
pub struct TransactionView {
    pub id: TxnId,
    pub read_ts: u64,
    pub schema_epoch: u64,
    pub writes: Map<LogicalKeyView, TxnWriteView>,
    pub catalog_mutations: Seq<CatalogMutationView>,
}

impl DeepView for Transaction {
    type V = TransactionView;

    closed spec fn deep_view(&self) -> TransactionView {
        TransactionView {
            id: self.id,
            read_ts: self.read_ts,
            schema_epoch: self.schema_epoch,
            writes: self.writes.deep_view(),
            catalog_mutations: self.catalog_mutations.deep_view(),
        }
    }
}

/// Catalog mutations in strictly increasing order of their sort keys.
pub open spec fn mutations_sorted(mutations: Seq<CatalogMutationView>) -> bool {
    forall|i: int, j: int|
        0 <= i < j < mutations.len() ==> sort_key_before(
            (#[trigger] mutations[i]).sort_key(),
            (#[trigger] mutations[j]).sort_key(),
        )
}

/// Where a mutation goes among the first `n` of sorted mutations.
pub open spec fn sort_position(mutations: Seq<CatalogMutationView>, key: (u8, u64), n: int) -> int
    decreases n,
{
    if n <= 0 {
        0
    } else if sort_key_before(key, mutations[n - 1].sort_key()) {
        sort_position(mutations, key, n - 1)
    } else {
        n
    }
}

/// Mutations with one more in its place.
pub open spec fn with_mutation(
    mutations: Seq<CatalogMutationView>,
    mutation: CatalogMutationView,
) -> Seq<CatalogMutationView> {
    mutations.insert(
        sort_position(mutations, mutation.sort_key(), mutations.len() as int),
        mutation,
    )
}

/// The table with the given id among the first `n` staged mutations.
pub open spec fn staged_table_among(
    mutations: Seq<CatalogMutationView>,
    id: TableId,
    n: int,
) -> Option<TableMetaView>
    decreases n,
{
    if n <= 0 {
        None
    } else {
        match staged_table_among(mutations, id, n - 1) {
            Some(table) => Some(table),
            None => match mutations[n - 1] {
                CatalogMutationView::CreateTable(table) => if table.id == id {
                    Some(table)
                } else {
                    None
                },
                _ => None,
            },
        }
    }
}

/// The index with the given id among the first `n` staged mutations.
pub open spec fn staged_index_among(
    mutations: Seq<CatalogMutationView>,
    id: u64,
    n: int,
) -> Option<IndexMetaView>
    decreases n,
{
    if n <= 0 {
        None
    } else {
        match staged_index_among(mutations, id, n - 1) {
            Some(index) => Some(index),
            None => match mutations[n - 1] {
                CatalogMutationView::CreateIndex(index) => if index.id == id {
                    Some(index)
                } else {
                    None
                },
                _ => None,
            },
        }
    }
}

impl TransactionView {
    pub open spec fn started(id: TxnId, read_ts: u64, schema_epoch: u64) -> TransactionView {
        TransactionView {
            id,
            read_ts,
            schema_epoch,
            writes: Map::empty(),
            catalog_mutations: Seq::empty(),
        }
    }

    pub open spec fn staged_table(self, id: TableId) -> Option<TableMetaView> {
        staged_table_among(self.catalog_mutations, id, self.catalog_mutations.len() as int)
    }

    pub open spec fn staged_index(self, id: u64) -> Option<IndexMetaView> {
        staged_index_among(self.catalog_mutations, id, self.catalog_mutations.len() as int)
    }

    /// The transaction with one more write.
    pub open spec fn with_write(self, write: TxnWriteView) -> TransactionView {
        TransactionView { writes: self.writes.insert(write.logical_key()->Ok_0, write), ..self }
    }

    /// The transaction with one more catalog mutation.
    pub open spec fn with_catalog(self, mutation: CatalogMutationView) -> TransactionView {
        TransactionView {
            catalog_mutations: with_mutation(self.catalog_mutations, mutation),
            ..self
        }
    }

    /// The writes in key order.
    pub open spec fn ordered_writes(self) -> Seq<TxnWriteView> {
        let keys = ordered::<LogicalKey>(self.writes.dom());
        Seq::new(keys.len(), |i: int| self.writes[keys[i]])
    }

    /// Every write stands under its own key, the staged mutations are in
    /// order, and the staged tables are valid.
    pub open spec fn well_formed(self) -> bool {
        &&& self.writes.dom().finite()
        &&& forall|key: LogicalKeyView|
            #![trigger self.writes[key]]
            self.writes.contains_key(key) ==> self.writes[key].logical_key() == Ok::<
                LogicalKeyView,
                EngineErrorKind,
            >(key)
        &&& mutations_sorted(self.catalog_mutations)
        &&& forall|i: int|
            0 <= i < self.catalog_mutations.len() ==> match #[trigger] self.catalog_mutations[i] {
                CatalogMutationView::CreateTable(table) => table.valid(),
                _ => true,
            }
    }
}

impl Transaction {
    #[verifier::type_invariant]
    spec fn kept(self) -> bool {
        self.deep_view().well_formed()
    }

    pub fn new(id: TxnId, read_ts: u64, schema_epoch: u64) -> (transaction: Transaction)
        ensures
            transaction.deep_view() == TransactionView::started(id, read_ts, schema_epoch),
    {
        let catalog_mutations: Vec<CatalogMutation> = Vec::new();
        let writes: OrdMap<LogicalKey, TxnWrite> = OrdMap::new();
        assert(catalog_mutations.deep_view() =~= Seq::empty());
        Transaction { id, read_ts, schema_epoch, writes, catalog_mutations }
    }

    pub fn id(&self) -> (id: TxnId)
        ensures
            id == self.deep_view().id,
    {
        self.id
    }

    pub fn read_ts(&self) -> (read_ts: u64)
        ensures
            read_ts == self.deep_view().read_ts,
    {
        self.read_ts
    }

    pub fn schema_epoch(&self) -> (schema_epoch: u64)
        ensures
            schema_epoch == self.deep_view().schema_epoch,
    {
        self.schema_epoch
    }

    /// The number of rows that the transaction writes.
    pub fn write_count(&self) -> (count: usize)
        ensures
            count == self.deep_view().writes.dom().len(),
            count == self.deep_view().ordered_writes().len(),
            self.deep_view().well_formed(),
    {
        proof {
            use_type_invariant(self);
        }
        self.writes.len()
    }

    pub fn is_read_only(&self) -> (read_only: bool)
        ensures
            read_only == (self.deep_view().writes == Map::<LogicalKeyView, TxnWriteView>::empty()
                && self.deep_view().catalog_mutations.len() == 0),
    {
        self.writes.is_empty() && self.catalog_mutations.len() == 0
    }

    /// Ends the transaction without a trace: its overlay is private.
    pub fn rollback(self) {
    }

    /// The canonical form of the transaction.
    pub fn into_attempt(self, request: ClientRequestId, leader_term: u64) -> (attempt: TxnAttempt)
        ensures
            attempt.deep_view() == self.deep_view().attempt(request.deep_view(), leader_term),
            attempt.deep_view().canonical() is Ok,
    {
        proof {
            use_type_invariant(&self);
        }
        let ghost view = self.deep_view();
        let count = self.writes.len();
        let ghost keys = self.writes.keys();
        let mut writes: Vec<TxnWrite> = Vec::with_capacity(count);
        let mut i: usize = 0;
        while i < count
            invariant
                i <= count,
                keys == self.writes.keys(),
                count == keys.len(),
                writes@.len() == i,
                forall|j: int|
                    0 <= j < i ==> (#[trigger] writes@[j]).deep_view()
                        == self.writes.deep_view()[keys[j]],
            decreases count - i,
        {
            writes.push(self.writes.value_at(i).duplicate());
            i = i + 1;
        }
        assert(writes.deep_view() =~= view.ordered_writes());
        let attempt = TxnAttempt {
            request,
            leader_term,
            read_ts: self.read_ts,
            schema_epoch: self.schema_epoch,
            writes,
            catalog_mutations: self.catalog_mutations,
        };
        proof {
            attempt_is_canonical(view, attempt.request.deep_view(), leader_term);
        }
        attempt
    }

    /// What the transaction does to a key, if it touches it.
    pub fn overlay(&self, key: &LogicalKey) -> (found: Option<&Mutation>)
        ensures
            match found {
                Some(mutation) => self.deep_view().writes.contains_key(key.deep_view())
                    && self.deep_view().writes[key.deep_view()].mutation == mutation.deep_view(),
                None => !self.deep_view().writes.contains_key(key.deep_view()),
            },
    {
        match self.writes.get(key) {
            Some(write) => Some(&write.mutation),
            None => None,
        }
    }

    /// The written keys in order.
    pub fn written_keys(&self) -> (keys: Vec<LogicalKey>)
        ensures
            keys.deep_view() == ordered::<LogicalKey>(self.deep_view().writes.dom()),
            lists::<LogicalKey>(keys.deep_view(), self.deep_view().writes.dom()),
    {
        let count = self.writes.len();
        let ghost listed = self.writes.keys();
        let mut keys: Vec<LogicalKey> = Vec::with_capacity(count);
        let mut i: usize = 0;
        while i < count
            invariant
                i <= count,
                listed == self.writes.keys(),
                count == listed.len(),
                keys@.len() == i,
                forall|j: int| 0 <= j < i ==> (#[trigger] keys@[j]).deep_view() == listed[j],
            decreases count - i,
        {
            keys.push(self.writes.key_at(i).duplicate());
            i = i + 1;
        }
        assert(keys.deep_view() =~= listed);
        keys
    }

    /// Adds a write to the overlay, in place of an earlier one of the same row.
    pub fn stage_write(&mut self, write: TxnWrite) -> (result: Result<()>)
        ensures
            match result {
                Ok(()) => write.deep_view().logical_key() is Ok && final(self).deep_view() == old(
                    self,
                ).deep_view().with_write(write.deep_view()),
                Err(error) => write.deep_view().logical_key() == Err::<
                    LogicalKeyView,
                    EngineErrorKind,
                >(error.deep_view()) && final(self).deep_view() == old(self).deep_view(),
            },
    {
        proof {
            use_type_invariant(&*self);
        }
        let key = match write.logical_key() {
            Ok(key) => key,
            Err(error) => return Err(error),
        };
        let mut writes: OrdMap<LogicalKey, TxnWrite> = OrdMap::new();
        std::mem::swap(&mut writes, &mut self.writes);
        writes.insert(key, write);
        self.writes = writes;
        Ok(())
    }

    /// Adds a catalog mutation in its place.
    pub fn stage_catalog(&mut self, mutation: CatalogMutation)
        requires
            forall|i: int|
                0 <= i < old(self).deep_view().catalog_mutations.len() ==> (#[trigger] old(
                    self,
                ).deep_view().catalog_mutations[i]).sort_key() != mutation.deep_view().sort_key(),
            match mutation.deep_view() {
                CatalogMutationView::CreateTable(table) => table.valid(),
                _ => true,
            },
        ensures
            final(self).deep_view() == old(self).deep_view().with_catalog(mutation.deep_view()),
    {
        proof {
            use_type_invariant(&*self);
        }
        let ghost before = self.catalog_mutations.deep_view();
        let ghost key = mutation.deep_view().sort_key();
        let mut mutations: Vec<CatalogMutation> = Vec::new();
        assert(mutations.deep_view() =~= Seq::empty());
        std::mem::swap(&mut mutations, &mut self.catalog_mutations);
        let mut position: usize = mutations.len();
        while position > 0 && mutation.sorts_before(&mutations[position - 1])
            invariant
                position <= mutations@.len(),
                before == mutations.deep_view(),
                key == mutation.deep_view().sort_key(),
                sort_position(before, key, mutations@.len() as int) == sort_position(
                    before,
                    key,
                    position as int,
                ),
            decreases position,
        {
            assert(before[position - 1] == mutations@[position - 1].deep_view());
            position = position - 1;
        }
        let ghost placed = mutation.deep_view();
        proof {
            if position > 0 {
                assert(before[position - 1] == mutations@[position - 1].deep_view());
            }
            placed_is_sorted(before, placed);
        }
        mutations.insert(position, mutation);
        assert(mutations.deep_view() =~= before.insert(position as int, placed));
        self.catalog_mutations = mutations;
    }

    /// The staged table with the given id.
    pub fn staged_table(&self, id: TableId) -> (found: Option<&TableMeta>)
        ensures
            found.deep_view() == self.deep_view().staged_table(id),
            found matches Some(table) ==> table.deep_view().valid() && table.deep_view().id == id,
    {
        proof {
            use_type_invariant(self);
        }
        let ghost mutations = self.catalog_mutations.deep_view();
        let mut i: usize = 0;
        while i < self.catalog_mutations.len()
            invariant
                i <= self.catalog_mutations@.len(),
                self.deep_view().well_formed(),
                mutations == self.catalog_mutations.deep_view(),
                staged_table_among(mutations, id, i as int) is None,
            decreases self.catalog_mutations@.len() - i,
        {
            assert(mutations[i as int] == self.catalog_mutations@[i as int].deep_view());
            if let CatalogMutation::CreateTable(table) = &self.catalog_mutations[i] {
                if table.id == id {
                    proof {
                        staged_table_stays(mutations, id, i + 1, mutations.len() as int);
                        assert(mutations[i as int] == self.deep_view().catalog_mutations[i as int]);
                    }
                    return Some(table);
                }
            }
            i = i + 1;
        }
        None
    }

    /// The staged index with the given id.
    pub fn staged_index(&self, id: u64) -> (found: Option<&IndexMeta>)
        ensures
            found.deep_view() == self.deep_view().staged_index(id),
    {
        let ghost mutations = self.catalog_mutations.deep_view();
        let mut i: usize = 0;
        while i < self.catalog_mutations.len()
            invariant
                i <= self.catalog_mutations@.len(),
                mutations == self.catalog_mutations.deep_view(),
                staged_index_among(mutations, id, i as int) is None,
            decreases self.catalog_mutations@.len() - i,
        {
            assert(mutations[i as int] == self.catalog_mutations@[i as int].deep_view());
            if let CatalogMutation::CreateIndex(index) = &self.catalog_mutations[i] {
                if index.id == id {
                    proof {
                        staged_index_stays(mutations, id, i + 1, mutations.len() as int);
                    }
                    return Some(index);
                }
            }
            i = i + 1;
        }
        None
    }

    pub fn catalog_mutations(&self) -> (mutations: &Vec<CatalogMutation>)
        ensures
            mutations.deep_view() == self.deep_view().catalog_mutations,
    {
        &self.catalog_mutations
    }
}

impl Model for Transaction {
    fn duplicate(&self) -> (copy: Self) {
        self.clone()
    }

    fn same(&self, other: &Self) -> (equal: bool) {
        self.id == other.id && self.read_ts == other.read_ts && self.schema_epoch
            == other.schema_epoch && self.writes.same(&other.writes)
            && self.catalog_mutations.same(&other.catalog_mutations)
    }
}

impl Clone for Transaction {
    fn clone(&self) -> (copy: Transaction)
        ensures
            copy.deep_view() == self.deep_view(),
    {
        proof {
            use_type_invariant(self);
        }
        let catalog_mutations = self.catalog_mutations.duplicate();
        let writes = self.writes.duplicate();
        Transaction {
            id: self.id,
            read_ts: self.read_ts,
            schema_epoch: self.schema_epoch,
            writes,
            catalog_mutations,
        }
    }
}

proof fn staged_table_stays(mutations: Seq<CatalogMutationView>, id: TableId, m: int, n: int)
    requires
        0 <= m <= n,
        staged_table_among(mutations, id, m) is Some,
    ensures
        staged_table_among(mutations, id, n) == staged_table_among(mutations, id, m),
    decreases n,
{
    if m < n {
        staged_table_stays(mutations, id, m, n - 1);
    }
}

proof fn staged_index_stays(mutations: Seq<CatalogMutationView>, id: u64, m: int, n: int)
    requires
        0 <= m <= n,
        staged_index_among(mutations, id, m) is Some,
    ensures
        staged_index_among(mutations, id, n) == staged_index_among(mutations, id, m),
    decreases n,
{
    if m < n {
        staged_index_stays(mutations, id, m, n - 1);
    }
}

/// No staged mutation creates the table, if none is found.
pub proof fn no_staged_table(mutations: Seq<CatalogMutationView>, id: TableId, n: int)
    requires
        0 <= n <= mutations.len(),
        staged_table_among(mutations, id, n) is None,
    ensures
        forall|i: int| 0 <= i < n ==> (#[trigger] mutations[i]).sort_key() != (0u8, id),
    decreases n,
{
    if n > 0 {
        no_staged_table(mutations, id, n - 1);
    }
}

/// No staged mutation creates the index, if none is found.
pub proof fn no_staged_index(mutations: Seq<CatalogMutationView>, id: u64, n: int)
    requires
        0 <= n <= mutations.len(),
        staged_index_among(mutations, id, n) is None,
    ensures
        forall|i: int| 0 <= i < n ==> (#[trigger] mutations[i]).sort_key() != (1u8, id),
    decreases n,
{
    if n > 0 {
        no_staged_index(mutations, id, n - 1);
    }
}

proof fn sort_position_splits(mutations: Seq<CatalogMutationView>, key: (u8, u64), n: int)
    requires
        mutations_sorted(mutations),
        0 <= n <= mutations.len(),
    ensures
        ({
            let p = sort_position(mutations, key, n);
            &&& 0 <= p <= n
            &&& forall|i: int|
                0 <= i < p ==> !sort_key_before(key, (#[trigger] mutations[i]).sort_key())
            &&& forall|i: int|
                p <= i < n ==> sort_key_before(key, (#[trigger] mutations[i]).sort_key())
        }),
    decreases n,
{
    if n > 0 && sort_key_before(key, mutations[n - 1].sort_key()) {
        sort_position_splits(mutations, key, n - 1);
    }
}

/// A new mutation in its place keeps the order.
pub proof fn placed_is_sorted(
    mutations: Seq<CatalogMutationView>,
    mutation: CatalogMutationView,
)
    requires
        mutations_sorted(mutations),
        forall|i: int|
            0 <= i < mutations.len() ==> (#[trigger] mutations[i]).sort_key()
                != mutation.sort_key(),
    ensures
        mutations_sorted(with_mutation(mutations, mutation)),
        with_mutation(mutations, mutation).len() == mutations.len() + 1,
        forall|i: int|
            0 <= i < with_mutation(mutations, mutation).len() ==> (#[trigger] with_mutation(
                mutations,
                mutation,
            )[i]) == mutation || mutations.contains(with_mutation(mutations, mutation)[i]),
{
    let key = mutation.sort_key();
    let p = sort_position(mutations, key, mutations.len() as int);
    sort_position_splits(mutations, key, mutations.len() as int);
    let more = with_mutation(mutations, mutation);
    assert forall|i: int, j: int| 0 <= i < j < more.len() implies sort_key_before(
        (#[trigger] more[i]).sort_key(),
        (#[trigger] more[j]).sort_key(),
    ) by {
        let a = if i < p {
            mutations[i]
        } else if i == p {
            mutation
        } else {
            mutations[i - 1]
        };
        let b = if j < p {
            mutations[j]
        } else if j == p {
            mutation
        } else {
            mutations[j - 1]
        };
        assert(more[i] == a && more[j] == b);
    }
    assert forall|i: int| 0 <= i < more.len() implies (#[trigger] more[i]) == mutation
        || mutations.contains(more[i]) by {
        if i < p {
            assert(more[i] == mutations[i]);
        } else if i > p {
            assert(more[i] == mutations[i - 1]);
        }
    }
}

/// A transaction in the canonical form that consensus orders.
#[derive(Debug, Clone, PartialEq, Eq)]
pub struct TxnAttempt {
    request: ClientRequestId,
    leader_term: u64,
    read_ts: u64,
    schema_epoch: u64,
    writes: Vec<TxnWrite>,
    catalog_mutations: Vec<CatalogMutation>,
}

/// The content of a [`TxnAttempt`].
#[verifier::ext_equal]
pub struct TxnAttemptView {
    pub request: ClientRequestIdView,
    pub leader_term: u64,
    pub read_ts: u64,
    pub schema_epoch: u64,
    pub writes: Seq<TxnWriteView>,
    pub catalog_mutations: Seq<CatalogMutationView>,
}

impl DeepView for TxnAttempt {
    type V = TxnAttemptView;

    closed spec fn deep_view(&self) -> TxnAttemptView {
        TxnAttemptView {
            request: self.request.deep_view(),
            leader_term: self.leader_term.deep_view(),
            read_ts: self.read_ts.deep_view(),
            schema_epoch: self.schema_epoch.deep_view(),
            writes: self.writes.deep_view(),
            catalog_mutations: self.catalog_mutations.deep_view(),
        }
    }
}

impl Model for TxnAttempt {
    fn duplicate(&self) -> (copy: Self) {
        TxnAttempt {
            request: self.request.duplicate(),
            leader_term: self.leader_term.duplicate(),
            read_ts: self.read_ts.duplicate(),
            schema_epoch: self.schema_epoch.duplicate(),
            writes: self.writes.duplicate(),
            catalog_mutations: self.catalog_mutations.duplicate(),
        }
    }

    fn same(&self, other: &Self) -> (equal: bool) {
        self.request.same(&other.request)
            && self.leader_term.same(&other.leader_term)
            && self.read_ts.same(&other.read_ts)
            && self.schema_epoch.same(&other.schema_epoch)
            && self.writes.same(&other.writes)
            && self.catalog_mutations.same(&other.catalog_mutations)
    }
}

/// Bytes behind their length.
pub open spec fn length_prefixed(bytes: Seq<u8>) -> Seq<u8> {
    be_bytes(bytes.len(), 4) + bytes
}

pub open spec fn flag(b: bool) -> u8 {
    if b {
        1
    } else {
        0
    }
}

/// The canonical bytes of a column.
pub open spec fn column_bytes(column: ColumnView) -> Seq<u8> {
    length_prefixed(encode_utf8(column.name)) + seq![
        match column.data_type {
            DataType::Int64 => 1u8,
            DataType::Bool => 2u8,
            DataType::Text => 3u8,
            DataType::Bytes => 4u8,
        },
        flag(column.nullable),
        flag(column.primary_key),
    ]
}

/// The canonical bytes of the first `n` columns.
pub open spec fn columns_bytes(columns: Seq<ColumnView>, n: int) -> Seq<u8>
    decreases n,
{
    if n <= 0 {
        Seq::empty()
    } else {
        columns_bytes(columns, n - 1) + column_bytes(columns[n - 1])
    }
}

/// The canonical bytes of a write.
pub open spec fn write_bytes(write: TxnWriteView) -> Seq<u8> {
    be_bytes(write.table_id as nat, 8) + length_prefixed(encoded_value(write.primary_key)) + (
    match write.mutation {
        MutationView::Put(row) => seq![1u8] + length_prefixed(encoded_row(row)),
        MutationView::Delete => seq![2u8],
    })
}

/// The canonical bytes of the first `n` writes.
pub open spec fn writes_bytes(writes: Seq<TxnWriteView>, n: int) -> Seq<u8>
    decreases n,
{
    if n <= 0 {
        Seq::empty()
    } else {
        writes_bytes(writes, n - 1) + write_bytes(writes[n - 1])
    }
}

/// The canonical bytes of a catalog mutation.
pub open spec fn mutation_bytes(mutation: CatalogMutationView) -> Seq<u8> {
    match mutation {
        CatalogMutationView::CreateTable(table) => seq![1u8] + be_bytes(table.id as nat, 8)
            + length_prefixed(encode_utf8(table.name)) + be_bytes(table.schema.columns.len(), 4)
            + columns_bytes(table.schema.columns, table.schema.columns.len() as int) + be_bytes(
            table.primary_key_column as nat,
            8,
        ),
        CatalogMutationView::CreateIndex(index) => seq![2u8] + be_bytes(index.id as nat, 8)
            + length_prefixed(encode_utf8(index.name)) + be_bytes(index.table_id as nat, 8)
            + be_bytes(index.column as nat, 8),
    }
}

/// The canonical bytes of the first `n` catalog mutations.
pub open spec fn mutations_bytes(mutations: Seq<CatalogMutationView>, n: int) -> Seq<u8>
    decreases n,
{
    if n <= 0 {
        Seq::empty()
    } else {
        mutations_bytes(mutations, n - 1) + mutation_bytes(mutations[n - 1])
    }
}

/// A write whose fields fit their length prefixes.
pub open spec fn write_fits(write: TxnWriteView) -> bool {
    &&& encodable(write.primary_key)
    &&& encoded_value(write.primary_key).len() <= u32::MAX
    &&& match write.mutation {
        MutationView::Put(row) => encodable_row(row) && encoded_row(row).len() <= u32::MAX,
        MutationView::Delete => true,
    }
}

/// A catalog mutation whose fields fit their length prefixes.
pub open spec fn mutation_fits(mutation: CatalogMutationView) -> bool {
    match mutation {
        CatalogMutationView::CreateTable(table) => {
            &&& encode_utf8(table.name).len() <= u32::MAX
            &&& table.schema.columns.len() <= u32::MAX
            &&& forall|i: int|
                0 <= i < table.schema.columns.len() ==> encode_utf8(
                    (#[trigger] table.schema.columns[i]).name,
                ).len() <= u32::MAX
        },
        CatalogMutationView::CreateIndex(index) => encode_utf8(index.name).len() <= u32::MAX,
    }
}

/// "ASTRTXN" and the format number.
pub open spec fn attempt_magic() -> Seq<u8> {
    seq![65u8, 83u8, 84u8, 82u8, 84u8, 88u8, 78u8, 1u8]
}

impl TransactionView {
    /// The canonical form of the transaction.
    pub open spec fn attempt(self, request: ClientRequestIdView, leader_term: u64) -> TxnAttemptView {
        TxnAttemptView {
            request,
            leader_term,
            read_ts: self.read_ts,
            schema_epoch: self.schema_epoch,
            writes: self.ordered_writes(),
            catalog_mutations: self.catalog_mutations,
        }
    }
}

impl TxnAttemptView {
    /// Whether the first `n` writes have keys in strictly increasing order.
    pub open spec fn canonical_writes(self, n: int) -> std::result::Result<(), EngineErrorKind>
        decreases n,
    {
        if n <= 0 {
            Ok(())
        } else {
            match self.canonical_writes(n - 1) {
                Err(error) => Err(error),
                Ok(()) => match self.writes[n - 1].logical_key() {
                    Err(error) => Err(error),
                    Ok(key) => if n > 1 && !LogicalKey::before(
                        self.writes[n - 2].logical_key()->Ok_0,
                        key,
                    ) {
                        Err(EngineErrorKind::InvalidAttempt)
                    } else {
                        Ok(())
                    },
                },
            }
        }
    }

    /// Whether the attempt is in canonical form: writes in strictly increasing
    /// key order, mutations in strictly increasing order of their sort keys.
    pub open spec fn canonical(self) -> std::result::Result<(), EngineErrorKind> {
        match self.canonical_writes(self.writes.len() as int) {
            Err(error) => Err(error),
            Ok(()) => if mutations_sorted(self.catalog_mutations) {
                Ok(())
            } else {
                Err(EngineErrorKind::InvalidAttempt)
            },
        }
    }

    /// Every field fits its length prefix.
    pub open spec fn fits(self) -> bool {
        &&& self.writes.len() <= u32::MAX
        &&& self.catalog_mutations.len() <= u32::MAX
        &&& forall|i: int| 0 <= i < self.writes.len() ==> write_fits(#[trigger] self.writes[i])
        &&& forall|i: int|
            0 <= i < self.catalog_mutations.len() ==> mutation_fits(
                #[trigger] self.catalog_mutations[i],
            )
    }

    /// The bytes in front of the writes.
    pub open spec fn header_bytes(self) -> Seq<u8> {
        attempt_magic() + self.request.client_id + be_bytes(self.request.sequence as nat, 8)
            + be_bytes(self.leader_term as nat, 8) + be_bytes(self.read_ts as nat, 8) + be_bytes(
            self.schema_epoch as nat,
            8,
        )
    }

    /// The canonical bytes.
    pub open spec fn bytes(self) -> Seq<u8> {
        self.header_bytes() + be_bytes(self.writes.len(), 4) + writes_bytes(
            self.writes,
            self.writes.len() as int,
        ) + be_bytes(self.catalog_mutations.len(), 4) + mutations_bytes(
            self.catalog_mutations,
            self.catalog_mutations.len() as int,
        )
    }

    /// What asking for the canonical bytes answers.
    pub open spec fn encoded(self) -> std::result::Result<Seq<u8>, EngineErrorKind> {
        match self.canonical() {
            Err(error) => Err(error),
            Ok(()) => if self.fits() {
                Ok(self.bytes())
            } else {
                Err(EngineErrorKind::Core(ErrorKind::LimitExceeded))
            },
        }
    }
}

proof fn ordered_writes_are_canonical(
    transaction: TransactionView,
    request: ClientRequestIdView,
    leader_term: u64,
    n: int,
)
    requires
        transaction.well_formed(),
        0 <= n <= transaction.ordered_writes().len(),
    ensures
        transaction.attempt(request, leader_term).canonical_writes(n) is Ok,
    decreases n,
{
    if n > 0 {
        ordered_writes_are_canonical(transaction, request, leader_term, n - 1);
        let keys = ordered::<LogicalKey>(transaction.writes.dom());
        crate::ordmap::finite_set_is_listed::<LogicalKey>(transaction.writes.dom());
        let writes = transaction.attempt(request, leader_term).writes;
        assert(keys.contains(keys[n - 1]));
        assert(writes[n - 1] == transaction.writes[keys[n - 1]]);
        if n > 1 {
            assert(keys.contains(keys[n - 2]));
            assert(writes[n - 2] == transaction.writes[keys[n - 2]]);
        }
    }
}

/// The attempt of a transaction is in canonical form.
pub proof fn attempt_is_canonical(
    transaction: TransactionView,
    request: ClientRequestIdView,
    leader_term: u64,
)
    requires
        transaction.well_formed(),
    ensures
        transaction.attempt(request, leader_term).canonical() is Ok,
{
    ordered_writes_are_canonical(
        transaction,
        request,
        leader_term,
        transaction.ordered_writes().len() as int,
    );
}

/// The keys of canonical writes are in strictly increasing order.
pub proof fn canonical_keys_increase(attempt: TxnAttemptView, i: int, j: int)
    requires
        attempt.canonical() is Ok,
        0 <= i < j < attempt.writes.len(),
    ensures
        attempt.writes[i].logical_key() is Ok,
        attempt.writes[j].logical_key() is Ok,
        LogicalKey::before(
            attempt.writes[i].logical_key()->Ok_0,
            attempt.writes[j].logical_key()->Ok_0,
        ),
    decreases j - i,
{
    canonical_prefix(attempt, j + 1, attempt.writes.len() as int);
    canonical_prefix(attempt, j, attempt.writes.len() as int);
    if i + 1 < j {
        canonical_keys_increase(attempt, i, j - 1);
        LogicalKey::before_transitive(
            attempt.writes[i].logical_key()->Ok_0,
            attempt.writes[j - 1].logical_key()->Ok_0,
            attempt.writes[j].logical_key()->Ok_0,
        );
    }
}

proof fn canonical_prefix(attempt: TxnAttemptView, m: int, n: int)
    requires
        0 <= m <= n,
        attempt.canonical_writes(n) is Ok,
    ensures
        attempt.canonical_writes(m) is Ok,
    decreases n,
{
    if m < n {
        canonical_prefix(attempt, m, n - 1);
    }
}

/// Every write of a canonical attempt has a key.
pub proof fn canonical_write_has_key(attempt: TxnAttemptView, i: int)
    requires
        attempt.canonical() is Ok,
        0 <= i < attempt.writes.len(),
    ensures
        attempt.writes[i].logical_key() is Ok,
{
    canonical_prefix(attempt, i + 1, attempt.writes.len() as int);
}

proof fn canonical_writes_stop(attempt: TxnAttemptView, m: int, n: int)
    requires
        0 <= m <= n,
        attempt.canonical_writes(m) is Err,
    ensures
        attempt.canonical_writes(n) == attempt.canonical_writes(m),
    decreases n,
{
    if m < n {
        canonical_writes_stop(attempt, m, n - 1);
    }
}

impl TxnAttempt {
    /// An attempt from its parts, which may not be canonical.
    pub fn from_parts(
        request: ClientRequestId,
        leader_term: u64,
        read_ts: u64,
        schema_epoch: u64,
        writes: Vec<TxnWrite>,
        catalog_mutations: Vec<CatalogMutation>,
    ) -> (attempt: TxnAttempt)
        ensures
            attempt.deep_view() == (TxnAttemptView {
                request: request.deep_view(),
                leader_term,
                read_ts,
                schema_epoch,
                writes: writes.deep_view(),
                catalog_mutations: catalog_mutations.deep_view(),
            }),
    {
        TxnAttempt { request, leader_term, read_ts, schema_epoch, writes, catalog_mutations }
    }

    pub fn request(&self) -> (request: &ClientRequestId)
        ensures
            request.deep_view() == self.deep_view().request,
    {
        &self.request
    }

    pub fn leader_term(&self) -> (leader_term: u64)
        ensures
            leader_term == self.deep_view().leader_term,
    {
        self.leader_term
    }

    pub fn read_ts(&self) -> (read_ts: u64)
        ensures
            read_ts == self.deep_view().read_ts,
    {
        self.read_ts
    }

    pub fn schema_epoch(&self) -> (schema_epoch: u64)
        ensures
            schema_epoch == self.deep_view().schema_epoch,
    {
        self.schema_epoch
    }

    pub fn writes(&self) -> (writes: &Vec<TxnWrite>)
        ensures
            writes.deep_view() == self.deep_view().writes,
    {
        &self.writes
    }

    pub fn catalog_mutations(&self) -> (mutations: &Vec<CatalogMutation>)
        ensures
            mutations.deep_view() == self.deep_view().catalog_mutations,
    {
        &self.catalog_mutations
    }

    /// The canonical bytes of the attempt.
    pub fn canonical_bytes(&self) -> (result: Result<Vec<u8>>)
        ensures
            outcome(result) == self.deep_view().encoded(),
    {
        let ghost view = self.deep_view();
        if let Err(error) = self.validate_canonical() {
            return Err(error);
        }
        let mut output: Vec<u8> = Vec::new();
        self.put_header(&mut output);
        if let Err(error) = put_len(&mut output, self.writes.len()) {
            return Err(error);
        }
        let ghost start = output@;
        assert(output@ + writes_bytes(view.writes, 0) =~= output@);
        let mut i: usize = 0;
        while i < self.writes.len()
            invariant
                i <= self.writes@.len() <= u32::MAX,
                view == self.deep_view(),
                view.canonical() is Ok,
                output@ == start + writes_bytes(view.writes, i as int),
                forall|j: int| 0 <= j < i ==> write_fits(#[trigger] view.writes[j]),
            decreases self.writes@.len() - i,
        {
            assert(view.writes[i as int] == self.writes@[i as int].deep_view());
            let ghost before = output@;
            if let Err(error) = put_write(&mut output, &self.writes[i]) {
                return Err(error);
            }
            i = i + 1;
            assert(output@ =~= start + writes_bytes(view.writes, i as int));
        }
        if let Err(error) = put_len(&mut output, self.catalog_mutations.len()) {
            return Err(error);
        }
        let ghost middle = output@;
        assert(output@ + mutations_bytes(view.catalog_mutations, 0) =~= output@);
        let mut i: usize = 0;
        while i < self.catalog_mutations.len()
            invariant
                i <= self.catalog_mutations@.len() <= u32::MAX,
                view == self.deep_view(),
                view.canonical() is Ok,
                output@ == middle + mutations_bytes(view.catalog_mutations, i as int),
                forall|j: int|
                    0 <= j < i ==> mutation_fits(#[trigger] view.catalog_mutations[j]),
            decreases self.catalog_mutations@.len() - i,
        {
            assert(view.catalog_mutations[i as int]
                == self.catalog_mutations@[i as int].deep_view());
            if let Err(error) = put_mutation(&mut output, &self.catalog_mutations[i]) {
                return Err(error);
            }
            i = i + 1;
            assert(output@ =~= middle + mutations_bytes(view.catalog_mutations, i as int));
        }
        assert(output@ =~= view.bytes());
        Ok(output)
    }

    fn put_header(&self, output: &mut Vec<u8>)
        ensures
            final(output)@ == old(output)@ + self.deep_view().header_bytes(),
    {
        let ghost before = output@;
        put_bytes(output, &[65u8, 83u8, 84u8, 82u8, 84u8, 88u8, 78u8, 1u8]);
        assert(output@ =~= before + attempt_magic());
        put_bytes(output, self.request.client_id.as_slice());
        put_be(output, self.request.sequence, 8);
        put_be(output, self.leader_term, 8);
        put_be(output, self.read_ts, 8);
        put_be(output, self.schema_epoch, 8);
        assert(output@ =~= before + self.deep_view().header_bytes());
    }

    /// The SHA-256 digest of the canonical bytes.
    pub fn command_hash(&self) -> (result: Result<[u8; 32]>)
        ensures
            match result {
                Ok(hash) => self.deep_view().encoded() is Ok && hash@ == sha256(
                    self.deep_view().encoded()->Ok_0,
                ),
                Err(error) => self.deep_view().encoded() == Err::<Seq<u8>, EngineErrorKind>(
                    error.deep_view(),
                ),
            },
    {
        match self.canonical_bytes() {
            Ok(bytes) => Ok(sha256_digest(bytes.as_slice())),
            Err(error) => Err(error),
        }
    }

    /// Checks that the attempt is in canonical form.
    pub fn validate_canonical(&self) -> (result: Result<()>)
        ensures
            result is Ok == (self.deep_view().canonical() is Ok),
            result matches Err(error) ==> self.deep_view().canonical() == Err::<
                (),
                EngineErrorKind,
            >(error.deep_view()),
    {
        let ghost view = self.deep_view();
        let mut previous: Option<LogicalKey> = None;
        let mut i: usize = 0;
        while i < self.writes.len()
            invariant
                i <= self.writes@.len(),
                view == self.deep_view(),
                view.canonical_writes(i as int) is Ok,
                match previous {
                    Some(key) => i > 0 && view.writes[i - 1].logical_key() == Ok::<
                        LogicalKeyView,
                        EngineErrorKind,
                    >(key.deep_view()),
                    None => i == 0,
                },
            decreases self.writes@.len() - i,
        {
            assert(view.writes[i as int] == self.writes@[i as int].deep_view());
            let key = match self.writes[i].logical_key() {
                Ok(key) => key,
                Err(error) => {
                    proof {
                        canonical_writes_stop(view, i + 1, view.writes.len() as int);
                    }
                    return Err(error);
                },
            };
            if let Some(prior) = &previous {
                if !prior.comes_before(&key) {
                    proof {
                        canonical_writes_stop(view, i + 1, view.writes.len() as int);
                    }
                    return Err(
                        EngineError::InvalidAttempt(
                            "writes must be strictly ordered by logical primary key".to_owned(),
                        ),
                    );
                }
            }
            previous = Some(key);
            i = i + 1;
        }
        let ghost mutations = view.catalog_mutations;
        let mut i: usize = 1;
        while i < self.catalog_mutations.len()
            invariant
                1 <= i,
                view == self.deep_view(),
                mutations == view.catalog_mutations,
                view.canonical_writes(view.writes.len() as int) is Ok,
                i <= mutations.len() || mutations.len() == 0,
                forall|j: int, k: int|
                    0 <= j < k < i && k < mutations.len() ==> sort_key_before(
                        (#[trigger] mutations[j]).sort_key(),
                        (#[trigger] mutations[k]).sort_key(),
                    ),
            decreases self.catalog_mutations@.len() - i,
        {
            assert(mutations[i as int] == self.catalog_mutations@[i as int].deep_view());
            assert(mutations[i - 1] == self.catalog_mutations@[i - 1].deep_view());
            if !self.catalog_mutations[i - 1].sorts_before(&self.catalog_mutations[i]) {
                assert(!mutations_sorted(mutations));
                return Err(
                    EngineError::InvalidAttempt(
                        "catalog mutations must have unique canonical ids".to_owned(),
                    ),
                );
            }
            proof {
                assert forall|j: int, k: int| 0 <= j < k < i + 1 implies sort_key_before(
                    (#[trigger] mutations[j]).sort_key(),
                    (#[trigger] mutations[k]).sort_key(),
                ) by {
                    if k == i && j < i - 1 {
                        assert(sort_key_before(mutations[j].sort_key(), mutations[i - 1].sort_key()));
                    }
                }
            }
            i = i + 1;
        }
        Ok(())
    }
}

fn put_write(output: &mut Vec<u8>, write: &TxnWrite) -> (result: Result<()>)
    ensures
        result is Ok == write_fits(write.deep_view()),
        result is Ok ==> final(output)@ == old(output)@ + write_bytes(write.deep_view()),
        result matches Err(error) ==> error.deep_view() == EngineErrorKind::Core(
            ErrorKind::LimitExceeded,
        ),
{
    let ghost before = output@;
    let ghost view = write.deep_view();
    put_be(output, write.table_id, 8);
    if let Err(error) = put_value(output, &write.primary_key) {
        return Err(error);
    }
    match &write.mutation {
        Mutation::Put(row) => {
            output.push(1);
            let encoded = match encode_row(row) {
                Ok(encoded) => encoded,
                Err(error) => return Err(EngineError::Core(error)),
            };
            if let Err(error) = put_sized(output, encoded.as_slice()) {
                return Err(error);
            }
        },
        Mutation::Delete => output.push(2),
    }
    assert(output@ =~= before + write_bytes(view));
    Ok(())
}

fn put_mutation(output: &mut Vec<u8>, mutation: &CatalogMutation) -> (result: Result<()>)
    ensures
        result is Ok == mutation_fits(mutation.deep_view()),
        result is Ok ==> final(output)@ == old(output)@ + mutation_bytes(mutation.deep_view()),
        result matches Err(error) ==> error.deep_view() == EngineErrorKind::Core(
            ErrorKind::LimitExceeded,
        ),
{
    let ghost before = output@;
    let ghost view = mutation.deep_view();
    match mutation {
        CatalogMutation::CreateTable(table) => {
            let ghost columns = table.deep_view().schema.columns;
            output.push(1);
            put_be(output, table.id, 8);
            if let Err(error) = put_sized(output, table.name.as_str().as_bytes()) {
                return Err(error);
            }
            if let Err(error) = put_len(output, table.schema.columns.len()) {
                return Err(error);
            }
            let ghost start = output@;
            assert(output@ + columns_bytes(columns, 0) =~= output@);
            let mut i: usize = 0;
            while i < table.schema.columns.len()
                invariant
                    i <= table.schema.columns@.len() <= u32::MAX,
                    view == CatalogMutationView::CreateTable(table.deep_view()),
                    columns == table.deep_view().schema.columns,
                    output@ == start + columns_bytes(columns, i as int),
                    forall|j: int|
                        0 <= j < i ==> encode_utf8((#[trigger] columns[j]).name).len() <= u32::MAX,
                    view == mutation.deep_view(),
                decreases table.schema.columns@.len() - i,
            {
                assert(columns[i as int] == table.schema.columns@[i as int].deep_view());
                if let Err(error) = put_column(output, &table.schema.columns[i]) {
                    return Err(error);
                }
                i = i + 1;
                assert(output@ =~= start + columns_bytes(columns, i as int));
            }
            put_be(output, table.primary_key_column as u64, 8);
        },
        CatalogMutation::CreateIndex(index) => {
            output.push(2);
            put_be(output, index.id, 8);
            if let Err(error) = put_sized(output, index.name.as_str().as_bytes()) {
                return Err(error);
            }
            put_be(output, index.table_id, 8);
            put_be(output, index.column as u64, 8);
        },
    }
    assert(output@ =~= before + mutation_bytes(view));
    Ok(())
}

fn put_column(output: &mut Vec<u8>, column: &Column) -> (result: Result<()>)
    ensures
        result is Ok == (encode_utf8(column.deep_view().name).len() <= u32::MAX),
        result is Ok ==> final(output)@ == old(output)@ + column_bytes(column.deep_view()),
        result matches Err(error) ==> error.deep_view() == EngineErrorKind::Core(
            ErrorKind::LimitExceeded,
        ),
{
    let ghost before = output@;
    if let Err(error) = put_sized(output, column.name.as_str().as_bytes()) {
        return Err(error);
    }
    output.push(
        match column.data_type {
            DataType::Int64 => 1,
            DataType::Bool => 2,
            DataType::Text => 3,
            DataType::Bytes => 4,
        },
    );
    output.push(
        if column.nullable {
            1
        } else {
            0
        },
    );
    output.push(
        if column.primary_key {
            1
        } else {
            0
        },
    );
    assert(output@ =~= before + column_bytes(column.deep_view()));
    Ok(())
}

fn put_value(output: &mut Vec<u8>, value: &Value) -> (result: Result<()>)
    ensures
        result is Ok == (encodable(value.deep_view()) && encoded_value(value.deep_view()).len()
            <= u32::MAX),
        result is Ok ==> final(output)@ == old(output)@ + length_prefixed(
            encoded_value(value.deep_view()),
        ),
        result matches Err(error) ==> error.deep_view() == EngineErrorKind::Core(
            ErrorKind::LimitExceeded,
        ),
{
    let mut encoded: Vec<u8> = Vec::new();
    if let Err(error) = encode_value(value, &mut encoded) {
        return Err(EngineError::Core(error));
    }
    assert(encoded@ =~= encoded_value(value.deep_view()));
    put_sized(output, encoded.as_slice())
}

fn put_sized(output: &mut Vec<u8>, bytes: &[u8]) -> (result: Result<()>)
    ensures
        result is Ok == (bytes@.len() <= u32::MAX),
        result is Ok ==> final(output)@ == old(output)@ + length_prefixed(bytes@),
        result matches Err(error) ==> error.deep_view() == EngineErrorKind::Core(
            ErrorKind::LimitExceeded,
        ),
{
    let ghost before = output@;
    if let Err(error) = put_len(output, bytes.len()) {
        return Err(error);
    }
    put_bytes(output, bytes);
    assert(output@ =~= before + length_prefixed(bytes@));
    Ok(())
}

fn put_len(output: &mut Vec<u8>, value: usize) -> (result: Result<()>)
    ensures
        result is Ok == (value <= u32::MAX),
        result is Ok ==> final(output)@ == old(output)@ + be_bytes(value as nat, 4),
        result matches Err(error) ==> error.deep_view() == EngineErrorKind::Core(
            ErrorKind::LimitExceeded,
        ),
{
    if value as u64 > u32::MAX as u64 {
        return Err(
            EngineError::Core(
                Error::LimitExceeded("canonical command field is too large".to_owned()),
            ),
        );
    }
    put_be(output, value as u64, 4);
    Ok(())
}

} // verus!
