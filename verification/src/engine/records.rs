//! Snapshots as records that can be stored one by one.

use vstd::prelude::*;
use crate::checks::{first_of, first_stays};
use crate::engine::catalog::{Catalog, CatalogView};
use crate::engine::error::{EngineError, EngineErrorKind, Result};
use crate::engine::outcome::{ApplyOutcome, ApplyOutcomeView, EngineStats};
use crate::engine::mvcc::{
    RowVersion, SecondaryKey, SecondaryKeyView, SecondaryVersion, chain_valid,
};
use crate::engine::snapshot::{
    ClientSnapshotEntry, ClientSnapshotEntryView, EngineSnapshot, EngineSnapshotView,
    PrimarySnapshotEntry, PrimarySnapshotEntryView, SecondarySnapshotEntry,
    SecondarySnapshotEntryView, client_entries, distinct_keys, map_of_holds, primary_entries,
    refuses, secondary_entries,
};
use crate::engine::state::Engine;
use crate::model::{Model, outcome};
use crate::order::{bytes_before, lex_irreflexive, lex_lt, lex_total, lex_transitive};
use crate::ordmap::{Key, OrdMap, entry_keys, finite_set_is_listed, map_of, ordered};
use crate::sorting::{
    Ranking, lists_positions, position_is_listed, positions, ranking_order, stable_order, stably_sorts,
};
use crate::text::{decimal, decimal_text};
use crate::types::{TxnId, between, labelled};
use crate::wire::{be_bytes, be_bytes_len, be_round_trip, pow256_values, put_be, put_bytes};

verus! {

broadcast use crate::model::group_contents;

/// The most bytes that a key or a value of a record may have.
pub const MAX_SNAPSHOT_RECORD_BYTES: usize = 67_108_864;

pub const RECORD_META: u8 = 0;

pub const RECORD_CATALOG: u8 = 1;

pub const RECORD_PRIMARY: u8 = 2;

pub const RECORD_SECONDARY: u8 = 3;

pub const RECORD_CLIENT: u8 = 4;

/// What a snapshot holds once.
#[derive(Debug, Clone, PartialEq, Eq)]
pub struct SnapshotMeta {
    pub format: u32,
    pub last_applied: u64,
    pub last_apply_hash: Option<[u8; 32]>,
    pub last_apply_outcome: Option<ApplyOutcome>,
    pub retained_floor: u64,
    pub next_txn_id: TxnId,
    pub stats: EngineStats,
}

/// The content of a [`SnapshotMeta`].
#[verifier::ext_equal]
pub struct SnapshotMetaView {
    pub format: u32,
    pub last_applied: u64,
    pub last_apply_hash: Option<Seq<u8>>,
    pub last_apply_outcome: Option<ApplyOutcomeView>,
    pub retained_floor: u64,
    pub next_txn_id: TxnId,
    pub stats: EngineStats,
}

impl DeepView for SnapshotMeta {
    type V = SnapshotMetaView;

    open spec fn deep_view(&self) -> SnapshotMetaView {
        SnapshotMetaView {
            format: self.format.deep_view(),
            last_applied: self.last_applied.deep_view(),
            last_apply_hash: self.last_apply_hash.deep_view(),
            last_apply_outcome: self.last_apply_outcome.deep_view(),
            retained_floor: self.retained_floor.deep_view(),
            next_txn_id: self.next_txn_id.deep_view(),
            stats: self.stats.deep_view(),
        }
    }
}

impl Model for SnapshotMeta {
    fn duplicate(&self) -> (copy: Self) {
        SnapshotMeta {
            format: self.format.duplicate(),
            last_applied: self.last_applied.duplicate(),
            last_apply_hash: self.last_apply_hash.duplicate(),
            last_apply_outcome: self.last_apply_outcome.duplicate(),
            retained_floor: self.retained_floor.duplicate(),
            next_txn_id: self.next_txn_id.duplicate(),
            stats: self.stats.duplicate(),
        }
    }

    fn same(&self, other: &Self) -> (equal: bool) {
        self.format.same(&other.format)
            && self.last_applied.same(&other.last_applied)
            && self.last_apply_hash.same(&other.last_apply_hash)
            && self.last_apply_outcome.same(&other.last_apply_outcome)
            && self.retained_floor.same(&other.retained_floor)
            && self.next_txn_id.same(&other.next_txn_id)
            && self.stats.same(&other.stats)
    }
}

/// The content of one record of a snapshot.
#[derive(Debug, Clone, PartialEq, Eq)]
pub enum SnapshotPart {
    Meta(SnapshotMeta),
    Catalog(Catalog),
    Primary(PrimarySnapshotEntry),
    Secondary(SecondarySnapshotEntry),
    Client(ClientSnapshotEntry),
}

/// The content of a [`SnapshotPart`].
#[verifier::ext_equal]
pub enum SnapshotPartView {
    Meta(SnapshotMetaView),
    Catalog(CatalogView),
    Primary(PrimarySnapshotEntryView),
    Secondary(SecondarySnapshotEntryView),
    Client(ClientSnapshotEntryView),
}

impl DeepView for SnapshotPart {
    type V = SnapshotPartView;

    open spec fn deep_view(&self) -> SnapshotPartView {
        match self {
            SnapshotPart::Meta(a) => SnapshotPartView::Meta(a.deep_view()),
            SnapshotPart::Catalog(a) => SnapshotPartView::Catalog(a.deep_view()),
            SnapshotPart::Primary(a) => SnapshotPartView::Primary(a.deep_view()),
            SnapshotPart::Secondary(a) => SnapshotPartView::Secondary(a.deep_view()),
            SnapshotPart::Client(a) => SnapshotPartView::Client(a.deep_view()),
        }
    }
}

impl Model for SnapshotPart {
    fn duplicate(&self) -> (copy: Self) {
        match self {
            SnapshotPart::Meta(a) => SnapshotPart::Meta(a.duplicate()),
            SnapshotPart::Catalog(a) => SnapshotPart::Catalog(a.duplicate()),
            SnapshotPart::Primary(a) => SnapshotPart::Primary(a.duplicate()),
            SnapshotPart::Secondary(a) => SnapshotPart::Secondary(a.duplicate()),
            SnapshotPart::Client(a) => SnapshotPart::Client(a.duplicate()),
        }
    }

    fn same(&self, other: &Self) -> (equal: bool) {
        match (self, other) {
            (SnapshotPart::Meta(a), SnapshotPart::Meta(other_a)) => a.same(other_a),
            (SnapshotPart::Catalog(a), SnapshotPart::Catalog(other_a)) => a.same(other_a),
            (SnapshotPart::Primary(a), SnapshotPart::Primary(other_a)) => a.same(other_a),
            (SnapshotPart::Secondary(a), SnapshotPart::Secondary(other_a)) => a.same(other_a),
            (SnapshotPart::Client(a), SnapshotPart::Client(other_a)) => a.same(other_a),
            _ => false,
        }
    }
}

/// One logical record of a snapshot.
#[derive(Debug, Clone, PartialEq, Eq)]
pub struct SnapshotRecord {
    pub kind: u8,
    pub key: Vec<u8>,
    pub value: Vec<u8>,
}

/// The content of a [`SnapshotRecord`].
#[verifier::ext_equal]
pub struct SnapshotRecordView {
    pub kind: u8,
    pub key: Seq<u8>,
    pub value: Seq<u8>,
}

impl DeepView for SnapshotRecord {
    type V = SnapshotRecordView;

    open spec fn deep_view(&self) -> SnapshotRecordView {
        SnapshotRecordView {
            kind: self.kind.deep_view(),
            key: self.key.deep_view(),
            value: self.value.deep_view(),
        }
    }
}

impl Model for SnapshotRecord {
    fn duplicate(&self) -> (copy: Self) {
        SnapshotRecord {
            kind: self.kind.duplicate(),
            key: self.key.duplicate(),
            value: self.value.duplicate(),
        }
    }

    fn same(&self, other: &Self) -> (equal: bool) {
        self.kind.same(&other.kind)
            && self.key.same(&other.key)
            && self.value.same(&other.value)
    }
}

/// What a record is found by.
#[derive(Debug, Clone, PartialEq, Eq)]
pub struct RecordHead {
    pub kind: u8,
    pub key: Vec<u8>,
}

/// The content of a [`RecordHead`].
#[verifier::ext_equal]
pub struct RecordHeadView {
    pub kind: u8,
    pub key: Seq<u8>,
}

impl DeepView for RecordHead {
    type V = RecordHeadView;

    open spec fn deep_view(&self) -> RecordHeadView {
        RecordHeadView {
            kind: self.kind.deep_view(),
            key: self.key.deep_view(),
        }
    }
}

impl Model for RecordHead {
    fn duplicate(&self) -> (copy: Self) {
        RecordHead {
            kind: self.kind.duplicate(),
            key: self.key.duplicate(),
        }
    }

    fn same(&self, other: &Self) -> (equal: bool) {
        self.kind.same(&other.kind)
            && self.key.same(&other.key)
    }
}
impl Key for RecordHead {
    open spec fn before(a: RecordHeadView, b: RecordHeadView) -> bool {
        a.kind < b.kind || (a.kind == b.kind && lex_lt(a.key, b.key))
    }

    proof fn before_irreflexive(a: RecordHeadView) {
        lex_irreflexive(a.key);
    }

    proof fn before_transitive(a: RecordHeadView, b: RecordHeadView, c: RecordHeadView) {
        if a.kind == b.kind && b.kind == c.kind {
            lex_transitive(a.key, b.key, c.key);
        }
    }

    proof fn before_total(a: RecordHeadView, b: RecordHeadView) {
        lex_total(a.key, b.key);
    }

    fn comes_before(&self, other: &Self) -> (before: bool) {
        self.kind < other.kind || (self.kind == other.kind && bytes_before(
            self.key.as_slice(),
            other.key.as_slice(),
        ))
    }
}

/// Records by kind and key.
struct HeadRanking;

impl Ranking for HeadRanking {
    type Item = RecordHead;

    closed spec fn ranks_before(&self, a: RecordHeadView, b: RecordHeadView) -> bool {
        RecordHead::before(a, b)
    }

    proof fn asymmetric(&self, a: RecordHeadView, b: RecordHeadView) {
        if RecordHead::before(a, b) && RecordHead::before(b, a) {
            RecordHead::before_transitive(a, b, a);
            RecordHead::before_irreflexive(a);
        }
    }

    proof fn negatively_transitive(
        &self,
        a: RecordHeadView,
        b: RecordHeadView,
        c: RecordHeadView,
    ) {
        RecordHead::before_total(a, b);
        RecordHead::before_total(b, c);
        if RecordHead::before(c, a) {
            if RecordHead::before(a, b) {
                RecordHead::before_transitive(c, a, b);
            }
        }
    }

    fn is_before(&self, a: &RecordHead, b: &RecordHead) -> (before: bool) {
        a.comes_before(b)
    }
}

/// The key of the record of a row: the table, then the length and the bytes of
/// the primary key.
pub open spec fn primary_key_bytes(entry: PrimarySnapshotEntryView) -> Seq<u8> {
    be_bytes(entry.table_id as nat, 8) + be_bytes(entry.primary_key.len(), 4) + entry.primary_key
}

/// The key of the record of an index entry: the index, then the value and the
/// primary key, each after its length.
pub open spec fn secondary_key_bytes(key: SecondaryKeyView) -> Seq<u8> {
    be_bytes(key.index_id as nat, 8) + be_bytes(key.secondary_value.len(), 4)
        + key.secondary_value + be_bytes(key.primary_key.len(), 4) + key.primary_key
}

impl SnapshotPartView {
    pub open spec fn kind(self) -> u8 {
        match self {
            SnapshotPartView::Meta(_) => RECORD_META,
            SnapshotPartView::Catalog(_) => RECORD_CATALOG,
            SnapshotPartView::Primary(_) => RECORD_PRIMARY,
            SnapshotPartView::Secondary(_) => RECORD_SECONDARY,
            SnapshotPartView::Client(_) => RECORD_CLIENT,
        }
    }

    /// The key of the record, if its lengths can be written down.
    pub open spec fn key(self) -> Option<Seq<u8>> {
        match self {
            SnapshotPartView::Meta(_) => Some(Seq::empty()),
            SnapshotPartView::Catalog(_) => Some(Seq::empty()),
            SnapshotPartView::Primary(entry) => if entry.primary_key.len() <= u32::MAX {
                Some(primary_key_bytes(entry))
            } else {
                None
            },
            SnapshotPartView::Secondary(entry) => if entry.key.secondary_value.len() <= u32::MAX
                && entry.key.primary_key.len() <= u32::MAX {
                Some(secondary_key_bytes(entry.key))
            } else {
                None
            },
            SnapshotPartView::Client(entry) => Some(entry.client_id),
        }
    }

    /// The record that holds `value` for this part, if its size is allowed.
    pub open spec fn record(self, value: Seq<u8>) -> Option<SnapshotRecordView> {
        match self.key() {
            Some(key) => if key.len() <= MAX_SNAPSHOT_RECORD_BYTES && value.len()
                <= MAX_SNAPSHOT_RECORD_BYTES {
                Some(SnapshotRecordView { kind: self.kind(), key, value })
            } else {
                None
            },
            None => None,
        }
    }
}

impl SnapshotRecordView {
    pub open spec fn head(self) -> RecordHeadView {
        RecordHeadView { kind: self.kind, key: self.key }
    }
}

/// The heads of records.
pub open spec fn heads(records: Seq<SnapshotRecordView>) -> Seq<RecordHeadView> {
    Seq::new(records.len(), |i: int| records[i].head())
}

/// The order of records by kind and key.
pub open spec fn head_order() -> spec_fn(RecordHeadView, RecordHeadView) -> bool {
    |a: RecordHeadView, b: RecordHeadView| RecordHead::before(a, b)
}

/// `sorted` holds `records` in the order of their heads, and equal heads in
/// the order that they had.
pub open spec fn sorts_records(
    records: Seq<SnapshotRecordView>,
    sorted: Seq<SnapshotRecordView>,
) -> bool {
    exists|order: Seq<int>| #[trigger]
        stably_sorts(head_order(), heads(records), order) && sorted == Seq::new(
            order.len(),
            |i: int| records[order[i]],
        )
}

impl SnapshotPartView {
    /// How it reads that a part gets no record.
    pub open spec fn unrecorded_words(self) -> Seq<char> {
        if self.key() is None {
            keyless_words(self)
        } else {
            oversized_words()
        }
    }
}

impl EngineSnapshotView {
    pub open spec fn meta(self) -> SnapshotMetaView {
        SnapshotMetaView {
            format: self.format,
            last_applied: self.last_applied,
            last_apply_hash: self.last_apply_hash,
            last_apply_outcome: self.last_apply_outcome,
            retained_floor: self.retained_floor,
            next_txn_id: self.next_txn_id,
            stats: self.stats,
        }
    }

    /// The parts of the snapshot, one for each record.
    pub open spec fn parts(self) -> Seq<SnapshotPartView> {
        seq![SnapshotPartView::Meta(self.meta()), SnapshotPartView::Catalog(self.catalog)]
            + Seq::new(self.primary.len(), |i: int| SnapshotPartView::Primary(self.primary[i]))
            + Seq::new(self.secondary.len(), |i: int| SnapshotPartView::Secondary(self.secondary[i]))
            + Seq::new(self.clients.len(), |i: int| SnapshotPartView::Client(self.clients[i]))
    }

    /// Why a part gets no record.
    pub open spec fn record_flaw(self, values: Seq<Seq<u8>>, i: int) -> Option<Seq<char>> {
        if self.parts()[i].record(values[i]) is None {
            Some(self.parts()[i].unrecorded_words())
        } else {
            None
        }
    }

    pub open spec fn record_flaws(self, values: Seq<Seq<u8>>) -> spec_fn(int) -> Option<Seq<char>> {
        |i: int| self.record_flaw(values, i)
    }

    /// Every part with its value can be a record.
    pub open spec fn recordable(self, values: Seq<Seq<u8>>) -> bool {
        forall|i: int|
            0 <= i < self.parts().len() ==> (#[trigger] self.parts()[i]).record(values[i]) is Some
    }

    /// The records of the parts with their values.
    pub open spec fn records(self, values: Seq<Seq<u8>>) -> Seq<SnapshotRecordView> {
        Seq::new(self.parts().len(), |i: int| self.parts()[i].record(values[i])->0)
    }
}

/// The decoded part of a record is of the record's kind and has its key, and
/// the record is not too large.
pub open spec fn fits(record: SnapshotRecordView, part: Option<SnapshotPartView>) -> bool {
    part is Some && part->0.record(record.value) == Some(record)
}

/// The parts of records by head.
pub open spec fn parts_by_head(
    records: Seq<SnapshotRecordView>,
    parts: Seq<Option<SnapshotPartView>>,
) -> Seq<(RecordHeadView, SnapshotPartView)> {
    Seq::new(records.len(), |i: int| (records[i].head(), parts[i]->0))
}

/// The metadata among the first `n` parts.
pub open spec fn meta_among(parts: Seq<SnapshotPartView>, n: int) -> Option<SnapshotMetaView>
    decreases n,
{
    if n <= 0 {
        None
    } else {
        match parts[n - 1] {
            SnapshotPartView::Meta(meta) => Some(meta),
            _ => meta_among(parts, n - 1),
        }
    }
}

/// The catalog among the first `n` parts.
pub open spec fn catalog_among(parts: Seq<SnapshotPartView>, n: int) -> Option<CatalogView>
    decreases n,
{
    if n <= 0 {
        None
    } else {
        match parts[n - 1] {
            SnapshotPartView::Catalog(catalog) => Some(catalog),
            _ => catalog_among(parts, n - 1),
        }
    }
}

/// The rows among the first `n` parts.
pub open spec fn primary_among(parts: Seq<SnapshotPartView>, n: int) -> Seq<
    PrimarySnapshotEntryView,
>
    decreases n,
{
    if n <= 0 {
        Seq::empty()
    } else {
        match parts[n - 1] {
            SnapshotPartView::Primary(entry) => primary_among(parts, n - 1).push(entry),
            _ => primary_among(parts, n - 1),
        }
    }
}

/// The index entries among the first `n` parts.
pub open spec fn secondary_among(parts: Seq<SnapshotPartView>, n: int) -> Seq<
    SecondarySnapshotEntryView,
>
    decreases n,
{
    if n <= 0 {
        Seq::empty()
    } else {
        match parts[n - 1] {
            SnapshotPartView::Secondary(entry) => secondary_among(parts, n - 1).push(entry),
            _ => secondary_among(parts, n - 1),
        }
    }
}

/// The clients among the first `n` parts.
pub open spec fn clients_among(parts: Seq<SnapshotPartView>, n: int) -> Seq<
    ClientSnapshotEntryView,
>
    decreases n,
{
    if n <= 0 {
        Seq::empty()
    } else {
        match parts[n - 1] {
            SnapshotPartView::Client(entry) => clients_among(parts, n - 1).push(entry),
            _ => clients_among(parts, n - 1),
        }
    }
}

/// The snapshot that parts make up, if the metadata and the catalog are there.
pub open spec fn assembled(parts: Seq<SnapshotPartView>) -> Option<EngineSnapshotView> {
    let n = parts.len() as int;
    match (meta_among(parts, n), catalog_among(parts, n)) {
        (Some(meta), Some(catalog)) => Some(
            EngineSnapshotView {
                format: meta.format,
                catalog,
                primary: primary_among(parts, n),
                secondary: secondary_among(parts, n),
                clients: clients_among(parts, n),
                last_applied: meta.last_applied,
                last_apply_hash: meta.last_apply_hash,
                last_apply_outcome: meta.last_apply_outcome,
                retained_floor: meta.retained_floor,
                next_txn_id: meta.next_txn_id,
                stats: meta.stats,
            },
        ),
        _ => None,
    }
}

/// The parts of records in the order of the heads.
pub open spec fn parts_in_order(
    records: Seq<SnapshotRecordView>,
    parts: Seq<Option<SnapshotPartView>>,
) -> Seq<SnapshotPartView> {
    let map = map_of(parts_by_head(records, parts));
    let order = ordered::<RecordHead>(map.dom());
    Seq::new(order.len(), |i: int| map[order[i]])
}

/// A key or a value of a record is too long.
pub open spec fn oversized(record: SnapshotRecordView) -> bool {
    record.key.len() > MAX_SNAPSHOT_RECORD_BYTES || record.value.len() > MAX_SNAPSHOT_RECORD_BYTES
}

/// How it reads that a record is too long.
pub open spec fn oversized_words() -> Seq<char> {
    "logical snapshot record exceeds "@ + decimal(MAX_SNAPSHOT_RECORD_BYTES as nat)
        + " byte limit"@
}

/// How it reads that a part has no key.
pub open spec fn keyless_words(part: SnapshotPartView) -> Seq<char> {
    match part {
        SnapshotPartView::Secondary(entry) => if entry.key.secondary_value.len() > u32::MAX {
            "secondary snapshot key is too large"@
        } else {
            "primary snapshot key is too large"@
        },
        _ => "primary snapshot key is too large"@,
    }
}

/// How it reads that a record of a part has another key.
pub open spec fn misplaced_words(part: SnapshotPartView) -> Seq<char> {
    match part {
        SnapshotPartView::Meta(_) => "metadata record key must be empty"@,
        SnapshotPartView::Catalog(_) => "catalog record key must be empty"@,
        SnapshotPartView::Primary(_) => "primary record key disagrees with value"@,
        SnapshotPartView::Secondary(_) => "secondary record key disagrees with value"@,
        SnapshotPartView::Client(_) => "client record key disagrees with value"@,
    }
}

/// Why a record of an allowed size is refused. The keys of the two records that occur once
/// are looked at before their values.
pub open spec fn record_refusal(
    record: SnapshotRecordView,
    part: Option<SnapshotPartView>,
) -> Option<Seq<char>> {
    if record.kind == RECORD_META && record.key.len() > 0 {
        Some("metadata record key must be empty"@)
    } else if record.kind == RECORD_CATALOG && record.key.len() > 0 {
        Some("catalog record key must be empty"@)
    } else if record.kind > RECORD_CLIENT {
        Some("unknown logical snapshot record kind "@ + decimal(record.kind as nat))
    } else if part is None || part->0.kind() != record.kind {
        Some("record kind "@ + decimal(record.kind as nat) + " decode failed"@)
    } else if part->0.key() is None {
        Some(keyless_words(part->0))
    } else if part->0.key() != Some(record.key) {
        Some(misplaced_words(part->0))
    } else {
        None
    }
}

/// The positions of records in the order of their heads.
pub open spec fn head_positions(records: Seq<SnapshotRecordView>) -> Seq<int> {
    let order = ordered::<RecordHead>(heads(records).to_set());
    Seq::new(order.len(), |i: int| heads(records).index_of(order[i]))
}

/// Why each record is refused, in the order of their heads.
pub open spec fn record_refusals(
    records: Seq<SnapshotRecordView>,
    parts: Seq<Option<SnapshotPartView>>,
) -> spec_fn(int) -> Option<Seq<char>> {
    |i: int|
        {
            let at = head_positions(records)[i];
            record_refusal(records[at], parts[at])
        }
}

/// How it reads why records make up no snapshot, where the catalog is not the reason: the
/// sizes of all records come first, then records that occur twice, then each record in the
/// order of the heads, then what is missing, then what is wrong with the whole.
pub open spec fn collection_refusal(
    records: Seq<SnapshotRecordView>,
    parts: Seq<Option<SnapshotPartView>>,
) -> Option<Seq<char>> {
    let in_order = parts_in_order(records, parts);
    if exists|i: int| 0 <= i < records.len() && oversized(#[trigger] records[i]) {
        Some(oversized_words())
    } else if !heads(records).no_duplicates() {
        Some("duplicate logical snapshot record"@)
    } else {
        match first_of(record_refusals(records, parts), head_positions(records).len() as int) {
            Some(text) => Some(text),
            None => if meta_among(in_order, in_order.len() as int) is None {
                Some("missing metadata record"@)
            } else if catalog_among(in_order, in_order.len() as int) is None {
                Some("missing catalog record"@)
            } else {
                assembled(in_order)->0.refusal()
            },
        }
    }
}

/// The snapshot that records make up, or why they make up none. `parts` holds
/// what the value of each record was decoded to.
pub open spec fn collected(
    records: Seq<SnapshotRecordView>,
    parts: Seq<Option<SnapshotPartView>>,
) -> std::result::Result<EngineSnapshotView, EngineErrorKind> {
    if !(forall|i: int| 0 <= i < records.len() ==> fits(#[trigger] records[i], parts[i])) {
        Err(EngineErrorKind::InvalidSnapshot)
    } else if !heads(records).no_duplicates() {
        Err(EngineErrorKind::InvalidSnapshot)
    } else {
        match assembled(parts_in_order(records, parts)) {
            None => Err(EngineErrorKind::InvalidSnapshot),
            Some(snapshot) => match snapshot.problem() {
                Some(error) => Err(error),
                None => Ok(snapshot),
            },
        }
    }
}

fn invalid(text: &str) -> (error: EngineError)
    ensures
        error.deep_view() == EngineErrorKind::InvalidSnapshot,
        refuses(error, text@),
{
    EngineError::InvalidSnapshot(text.to_owned())
}

fn primary_record_key(entry: &PrimarySnapshotEntry) -> (result: Result<Vec<u8>>)
    ensures
        match result {
            Ok(key) => SnapshotPartView::Primary(entry.deep_view()).key() == Some(key@),
            Err(error) => SnapshotPartView::Primary(entry.deep_view()).key() is None
                && error.deep_view() == EngineErrorKind::InvalidSnapshot && refuses(
                error,
                keyless_words(SnapshotPartView::Primary(entry.deep_view())),
            ),
        },
{
    if entry.primary_key.len() as u64 > 0xFFFF_FFFF {
        return Err(invalid("primary snapshot key is too large"));
    }
    let mut key: Vec<u8> = Vec::new();
    put_be(&mut key, entry.table_id, 8);
    put_be(&mut key, entry.primary_key.len() as u64, 4);
    put_bytes(&mut key, entry.primary_key.as_slice());
    assert(key@ =~= primary_key_bytes(entry.deep_view()));
    Ok(key)
}

fn secondary_record_key(key: &SecondaryKey) -> (result: Result<Vec<u8>>)
    ensures
        match result {
            Ok(bytes) => key.deep_view().secondary_value.len() <= u32::MAX
                && key.deep_view().primary_key.len() <= u32::MAX && bytes@ == secondary_key_bytes(
                key.deep_view(),
            ),
            Err(error) => (key.deep_view().secondary_value.len() > u32::MAX
                || key.deep_view().primary_key.len() > u32::MAX) && error.deep_view()
                == EngineErrorKind::InvalidSnapshot && refuses(
                error,
                if key.deep_view().secondary_value.len() > u32::MAX {
                    "secondary snapshot key is too large"@
                } else {
                    "primary snapshot key is too large"@
                },
            ),
        },
{
    if key.secondary_value.len() as u64 > 0xFFFF_FFFF {
        return Err(invalid("secondary snapshot key is too large"));
    }
    if key.primary_key.len() as u64 > 0xFFFF_FFFF {
        return Err(invalid("primary snapshot key is too large"));
    }
    let mut encoded: Vec<u8> = Vec::new();
    put_be(&mut encoded, key.index_id, 8);
    put_be(&mut encoded, key.secondary_value.len() as u64, 4);
    put_bytes(&mut encoded, key.secondary_value.as_slice());
    put_be(&mut encoded, key.primary_key.len() as u64, 4);
    put_bytes(&mut encoded, key.primary_key.as_slice());
    assert(encoded@ =~= secondary_key_bytes(key.deep_view()));
    Ok(encoded)
}

fn validate_record_size(key: &[u8], value: &[u8]) -> (result: Result<()>)
    ensures
        result is Ok == (key@.len() <= MAX_SNAPSHOT_RECORD_BYTES && value@.len()
            <= MAX_SNAPSHOT_RECORD_BYTES),
        result matches Err(error) ==> error.deep_view() == EngineErrorKind::InvalidSnapshot
            && refuses(error, oversized_words()),
{
    if key.len() > MAX_SNAPSHOT_RECORD_BYTES || value.len() > MAX_SNAPSHOT_RECORD_BYTES {
        return Err(
            invalid(
                &between(
                    "logical snapshot record exceeds ",
                    &decimal_text(MAX_SNAPSHOT_RECORD_BYTES as u64),
                    " byte limit",
                ),
            ),
        );
    }
    Ok(())
}

impl SnapshotPart {
    /// The kind of the record of the part.
    pub fn kind(&self) -> (kind: u8)
        ensures
            kind == self.deep_view().kind(),
    {
        match self {
            SnapshotPart::Meta(_) => RECORD_META,
            SnapshotPart::Catalog(_) => RECORD_CATALOG,
            SnapshotPart::Primary(_) => RECORD_PRIMARY,
            SnapshotPart::Secondary(_) => RECORD_SECONDARY,
            SnapshotPart::Client(_) => RECORD_CLIENT,
        }
    }

    /// The key of the record of the part.
    pub fn key(&self) -> (result: Result<Vec<u8>>)
        ensures
            match result {
                Ok(key) => self.deep_view().key() == Some(key@),
                Err(error) => self.deep_view().key() is None && error.deep_view()
                    == EngineErrorKind::InvalidSnapshot && refuses(
                    error,
                    keyless_words(self.deep_view()),
                ),
            },
    {
        match self {
            SnapshotPart::Meta(_) => {
                let key: Vec<u8> = Vec::new();
                assert(key@ =~= Seq::empty());
                Ok(key)
            },
            SnapshotPart::Catalog(_) => {
                let key: Vec<u8> = Vec::new();
                assert(key@ =~= Seq::empty());
                Ok(key)
            },
            SnapshotPart::Primary(entry) => primary_record_key(entry),
            SnapshotPart::Secondary(entry) => secondary_record_key(&entry.key),
            SnapshotPart::Client(entry) => {
                let mut key: Vec<u8> = Vec::new();
                put_bytes(&mut key, entry.client_id.as_slice());
                assert(key@ =~= entry.client_id@);
                Ok(key)
            },
        }
    }

    /// The record that holds `value` for the part.
    pub fn record(&self, value: Vec<u8>) -> (result: Result<SnapshotRecord>)
        ensures
            match result {
                Ok(record) => self.deep_view().record(value@) == Some(record.deep_view()),
                Err(error) => self.deep_view().record(value@) is None && error.deep_view()
                    == EngineErrorKind::InvalidSnapshot && refuses(
                    error,
                    self.deep_view().unrecorded_words(),
                ),
            },
    {
        let key = match self.key() {
            Ok(key) => key,
            Err(error) => return Err(error),
        };
        if let Err(error) = validate_record_size(key.as_slice(), value.as_slice()) {
            return Err(error);
        }
        Ok(SnapshotRecord { kind: self.kind(), key, value })
    }
}

/// Checks the sizes of records.
fn sizes_allowed(records: &Vec<SnapshotRecord>) -> (result: Result<()>)
    ensures
        result is Ok == (forall|i: int|
            0 <= i < records@.len() ==> !oversized(#[trigger] records.deep_view()[i])),
        result matches Err(error) ==> {
            &&& error.deep_view() == EngineErrorKind::InvalidSnapshot
            &&& refuses(error, oversized_words())
            &&& exists|i: int|
                0 <= i < records@.len() && oversized(#[trigger] records.deep_view()[i])
        },
{
    let ghost all = records.deep_view();
    let mut i: usize = 0;
    while i < records.len()
        invariant
            i <= records@.len(),
            all == records.deep_view(),
            forall|j: int| 0 <= j < i ==> !oversized(#[trigger] all[j]),
        decreases records@.len() - i,
    {
        let record = &records[i];
        assert(all[i as int] == record.deep_view());
        let sized = validate_record_size(record.key.as_slice(), record.value.as_slice());
        if sized.is_err() {
            assert(oversized(all[i as int]));
            return sized;
        }
        i = i + 1;
    }
    Ok(())
}

/// The position of each record by its head; none where a head occurs twice.
fn positions_by_head(records: &Vec<SnapshotRecord>) -> (positions: Option<
    OrdMap<RecordHead, usize>,
>)
    ensures
        positions is Some == heads(records.deep_view()).no_duplicates(),
        positions matches Some(map) ==> {
            &&& forall|head: RecordHeadView| #[trigger]
                map.deep_view().contains_key(head) <==> heads(records.deep_view()).contains(head)
            &&& forall|head: RecordHeadView| #[trigger]
                map.deep_view().contains_key(head) ==> map.deep_view()[head] < records@.len()
                    && records.deep_view()[map.deep_view()[head] as int].head() == head
        },
{
    let ghost all = records.deep_view();
    let mut map: OrdMap<RecordHead, usize> = OrdMap::new();
    let mut i: usize = 0;
    assert(heads(all).take(0) =~= Seq::empty());
    while i < records.len()
        invariant
            i <= records@.len(),
            all == records.deep_view(),
            heads(all).take(i as int).no_duplicates(),
            forall|head: RecordHeadView| #[trigger]
                map.deep_view().contains_key(head) <==> heads(all).take(i as int).contains(head),
            forall|head: RecordHeadView| #[trigger]
                map.deep_view().contains_key(head) ==> map.deep_view()[head] < i
                    && all[map.deep_view()[head] as int].head() == head,
        decreases records@.len() - i,
    {
        let record = &records[i];
        assert(all[i as int] == record.deep_view());
        let ghost taken = heads(all).take(i as int);
        let ghost head = all[i as int].head();
        let ghost grown = taken.push(head);
        assert(heads(all).take(i + 1) =~= grown);
        let name = RecordHead { kind: record.kind, key: record.key.duplicate() };
        assert(name.deep_view() == head);
        let ghost before = map.deep_view();
        if map.insert(name, i).is_some() {
            proof {
                let j = taken.index_of(head);
                assert(heads(all)[j] == taken[j]);
                assert(heads(all)[i as int] == head);
            }
            return None;
        }
        proof {
            assert forall|other: RecordHeadView| #[trigger]
                map.deep_view().contains_key(other) <==> grown.contains(other) by {
                assert(before.contains_key(other) <==> taken.contains(other));
                if taken.contains(other) {
                    let j = taken.index_of(other);
                    assert(grown[j] == other);
                }
                assert(grown[i as int] == head);
            }
            assert(!taken.contains(head));
            assert forall|a: int, b: int|
                0 <= a < grown.len() && 0 <= b < grown.len() && a != b implies grown[a]
                != grown[b] by {
                if a == i {
                    assert(taken.contains(taken[b]));
                }
                if b == i {
                    assert(taken.contains(taken[a]));
                }
            }
        }
        i = i + 1;
    }
    assert(heads(all).take(i as int) =~= heads(all));
    Some(map)
}

/// Why a record of an allowed size is refused.
fn refused_record(record: &SnapshotRecord, part: &Option<SnapshotPart>) -> (text: Option<String>)
    requires
        !oversized(record.deep_view()),
    ensures
        match text {
            Some(text) => record_refusal(record.deep_view(), part.deep_view()) == Some(text@)
                && !fits(record.deep_view(), part.deep_view()),
            None => record_refusal(record.deep_view(), part.deep_view()) is None && fits(
                record.deep_view(),
                part.deep_view(),
            ),
        },
{
    if record.kind == RECORD_META && record.key.len() > 0 {
        return Some("metadata record key must be empty".to_owned());
    }
    if record.kind == RECORD_CATALOG && record.key.len() > 0 {
        return Some("catalog record key must be empty".to_owned());
    }
    let kind = decimal_text(record.kind as u64);
    if record.kind > RECORD_CLIENT {
        return Some(labelled("unknown logical snapshot record kind ", &kind));
    }
    let part = match part {
        Some(part) => part,
        None => return Some(between("record kind ", &kind, " decode failed")),
    };
    if part.kind() != record.kind {
        return Some(between("record kind ", &kind, " decode failed"));
    }
    match part.key() {
        Ok(key) => if key.same(&record.key) {
            None
        } else {
            Some(
                match part {
                    SnapshotPart::Meta(_) => "metadata record key must be empty".to_owned(),
                    SnapshotPart::Catalog(_) => "catalog record key must be empty".to_owned(),
                    SnapshotPart::Primary(_) => {
                        "primary record key disagrees with value".to_owned()
                    },
                    SnapshotPart::Secondary(_) => {
                        "secondary record key disagrees with value".to_owned()
                    },
                    SnapshotPart::Client(_) => "client record key disagrees with value".to_owned(),
                },
            )
        },
        Err(EngineError::InvalidSnapshot(text)) => Some(text),
        Err(_) => None,
    }
}

impl EngineSnapshot {
    /// What the snapshot holds once.
    pub fn meta(&self) -> (meta: SnapshotMeta)
        ensures
            meta.deep_view() == self.deep_view().meta(),
    {
        SnapshotMeta {
            format: self.format,
            last_applied: self.last_applied,
            last_apply_hash: self.last_apply_hash.duplicate(),
            last_apply_outcome: self.last_apply_outcome.duplicate(),
            retained_floor: self.retained_floor,
            next_txn_id: self.next_txn_id,
            stats: self.stats,
        }
    }

    /// The parts whose values [`EngineSnapshot::to_records`] takes, in order.
    pub fn parts(&self) -> (parts: Vec<SnapshotPart>)
        ensures
            parts.deep_view() == self.deep_view().parts(),
    {
        let ghost view = self.deep_view();
        let ghost wanted = view.parts();
        let mut parts: Vec<SnapshotPart> = Vec::new();
        parts.push(SnapshotPart::Meta(self.meta()));
        parts.push(SnapshotPart::Catalog(self.catalog.duplicate()));
        let mut i: usize = 0;
        while i < self.primary.len()
            invariant
                i <= self.primary@.len(),
                view == self.deep_view(),
                wanted == view.parts(),
                parts@.len() == 2 + i,
                forall|j: int| 0 <= j < parts@.len() ==> (#[trigger] parts@[j]).deep_view() == wanted[j],
            decreases self.primary@.len() - i,
        {
            assert(view.primary[i as int] == self.primary@[i as int].deep_view());
            parts.push(SnapshotPart::Primary(self.primary[i].duplicate()));
            i = i + 1;
        }
        i = 0;
        while i < self.secondary.len()
            invariant
                i <= self.secondary@.len(),
                view == self.deep_view(),
                wanted == view.parts(),
                parts@.len() == 2 + self.primary@.len() + i,
                forall|j: int| 0 <= j < parts@.len() ==> (#[trigger] parts@[j]).deep_view() == wanted[j],
            decreases self.secondary@.len() - i,
        {
            assert(view.secondary[i as int] == self.secondary@[i as int].deep_view());
            parts.push(SnapshotPart::Secondary(self.secondary[i].duplicate()));
            i = i + 1;
        }
        i = 0;
        while i < self.clients.len()
            invariant
                i <= self.clients@.len(),
                view == self.deep_view(),
                wanted == view.parts(),
                parts@.len() == 2 + self.primary@.len() + self.secondary@.len() + i,
                forall|j: int| 0 <= j < parts@.len() ==> (#[trigger] parts@[j]).deep_view() == wanted[j],
            decreases self.clients@.len() - i,
        {
            assert(view.clients[i as int] == self.clients@[i as int].deep_view());
            parts.push(SnapshotPart::Client(self.clients[i].duplicate()));
            i = i + 1;
        }
        assert(parts.deep_view() =~= wanted);
        parts
    }

    /// The snapshot as records in canonical order. `values` holds the encoded
    /// value of each part, in the order of [`EngineSnapshot::parts`].
    pub fn to_records(&self, values: &Vec<Vec<u8>>) -> (result: Result<Vec<SnapshotRecord>>)
        requires
            values@.len() == self.deep_view().parts().len(),
        ensures
            match result {
                Ok(records) => self.deep_view().recordable(values.deep_view()) && sorts_records(
                    self.deep_view().records(values.deep_view()),
                    records.deep_view(),
                ),
                Err(error) => !self.deep_view().recordable(values.deep_view()) && error.deep_view()
                    == EngineErrorKind::InvalidSnapshot && first_of(
                    self.deep_view().record_flaws(values.deep_view()),
                    values@.len() as int,
                ) is Some && refuses(
                    error,
                    first_of(
                        self.deep_view().record_flaws(values.deep_view()),
                        values@.len() as int,
                    )->0,
                ),
            },
    {
        let ghost view = self.deep_view();
        let ghost wanted = view.parts();
        let ghost bytes = values.deep_view();
        let ghost flaws = view.record_flaws(bytes);
        let parts = self.parts();
        let mut records: Vec<SnapshotRecord> = Vec::new();
        let mut names: Vec<RecordHead> = Vec::new();
        let mut i: usize = 0;
        while i < parts.len()
            invariant
                i <= parts@.len(),
                view == self.deep_view(),
                wanted == view.parts(),
                parts.deep_view() == wanted,
                bytes == values.deep_view(),
                values@.len() == wanted.len(),
                flaws == view.record_flaws(bytes),
                first_of(flaws, i as int) is None,
                records@.len() == i,
                names@.len() == i,
                forall|j: int|
                    0 <= j < i ==> wanted[j].record(bytes[j]) == Some(
                        (#[trigger] records@[j]).deep_view(),
                    ),
                forall|j: int|
                    0 <= j < i ==> (#[trigger] names@[j]).deep_view()
                        == records@[j].deep_view().head(),
            decreases parts@.len() - i,
        {
            assert(wanted[i as int] == parts@[i as int].deep_view());
            assert(bytes[i as int] == values@[i as int].deep_view());
            assert(flaws(i as int) == view.record_flaw(bytes, i as int));
            let record = match parts[i].record(values[i].duplicate()) {
                Ok(record) => record,
                Err(error) => {
                    proof {
                        first_stays(flaws, i + 1, values@.len() as int);
                    }
                    return Err(error);
                },
            };
            names.push(RecordHead { kind: record.kind, key: record.key.duplicate() });
            records.push(record);
            i = i + 1;
        }
        let ghost all = view.records(bytes);
        assert(view.recordable(bytes)) by {
            assert forall|j: int| 0 <= j < wanted.len() implies (#[trigger] wanted[j]).record(
                bytes[j],
            ) is Some by {
                assert(records@[j].deep_view() == records@[j].deep_view());
            }
        }
        assert(records.deep_view() =~= all);
        let order = stable_order(&HeadRanking, &names);
        let ghost listed = positions(order@);
        proof {
            assert(names.deep_view() =~= heads(all));
            assert(head_order() =~= ranking_order(HeadRanking));
            assert(stably_sorts(head_order(), heads(all), listed));
        }
        let mut sorted: Vec<SnapshotRecord> = Vec::new();
        i = 0;
        while i < order.len()
            invariant
                i <= order@.len(),
                order@.len() == records@.len(),
                forall|j: int| 0 <= j < order@.len() ==> #[trigger] order@[j] < records@.len(),
                sorted@.len() == i,
                records.deep_view() == all,
                forall|j: int|
                    0 <= j < i ==> (#[trigger] sorted@[j]).deep_view() == all[order@[j] as int],
            decreases order@.len() - i,
        {
            sorted.push(records[order[i]].duplicate());
            i = i + 1;
        }
        assert(sorted.deep_view() =~= Seq::new(listed.len(), |j: int| all[listed[j]]));
        Ok(sorted)
    }

    /// Puts a snapshot together from records in any order, and checks it as
    /// [`Engine::from_snapshot`] does. `parts` holds what the value of each
    /// record was decoded to, or nothing where decoding failed.
    pub fn from_records(
        records: &Vec<SnapshotRecord>,
        parts: &Vec<Option<SnapshotPart>>,
    ) -> (result: Result<EngineSnapshot>)
        requires
            parts@.len() == records@.len(),
        ensures
            outcome(result) == collected(records.deep_view(), parts.deep_view()),
            match collection_refusal(records.deep_view(), parts.deep_view()) {
                Some(text) => result matches Err(error) && refuses(error, text),
                None => result matches Err(error) ==> assembled(
                    parts_in_order(records.deep_view(), parts.deep_view()),
                )->0.catalog.unsound_words() == Some(error.shown()),
            },
    {
        let ghost all = records.deep_view();
        let ghost decoded = parts.deep_view();
        if let Err(error) = sizes_allowed(records) {
            return Err(error);
        }
        let map = match positions_by_head(records) {
            Some(map) => map,
            None => return Err(invalid("duplicate logical snapshot record")),
        };
        let ghost entries = parts_by_head(all, decoded);
        let ghost by_head = map_of(entries);
        let ghost in_order = parts_in_order(all, decoded);
        let ghost refusals = record_refusals(all, decoded);
        let ghost listed = head_positions(all);
        proof {
            let keys = entry_keys(entries);
            assert(keys =~= heads(all));
            assert(by_head.dom() =~= heads(all).to_set());
            assert(map.deep_view().dom() =~= heads(all).to_set());
        }
        let mut meta: Option<SnapshotMeta> = None;
        let mut catalog: Option<Catalog> = None;
        let mut primary: Vec<PrimarySnapshotEntry> = Vec::new();
        let mut secondary: Vec<SecondarySnapshotEntry> = Vec::new();
        let mut clients: Vec<ClientSnapshotEntry> = Vec::new();
        let count: usize = map.len();
        let mut i: usize = 0;
        assert(primary.deep_view() =~= Seq::empty());
        assert(secondary.deep_view() =~= Seq::empty());
        assert(clients.deep_view() =~= Seq::empty());
        while i < count
            invariant
                i <= count,
                count == map.keys().len(),
                count == in_order.len(),
                all == records.deep_view(),
                decoded == parts.deep_view(),
                parts@.len() == records@.len(),
                entries == parts_by_head(all, decoded),
                entry_keys(entries) == heads(all),
                by_head == map_of(entries),
                by_head.dom() == map.deep_view().dom(),
                map.deep_view().dom() == heads(all).to_set(),
                in_order == parts_in_order(all, decoded),
                listed == head_positions(all),
                refusals == record_refusals(all, decoded),
                count == listed.len(),
                forall|j: int| 0 <= j < all.len() ==> !oversized(#[trigger] all[j]),
                heads(all).no_duplicates(),
                first_of(refusals, i as int) is None,
                forall|j: int|
                    0 <= j < i ==> fits(all[#[trigger] listed[j]], decoded[listed[j]]),
                forall|head: RecordHeadView| #[trigger]
                    map.deep_view().contains_key(head) ==> map.deep_view()[head] < all.len()
                        && all[map.deep_view()[head] as int].head() == head,
                meta.deep_view() == meta_among(in_order, i as int),
                catalog.deep_view() == catalog_among(in_order, i as int),
                primary.deep_view() == primary_among(in_order, i as int),
                secondary.deep_view() == secondary_among(in_order, i as int),
                clients.deep_view() == clients_among(in_order, i as int),
            decreases count - i,
        {
            let position = *map.value_at(i);
            proof {
                let head = map.keys()[i as int];
                assert(map.deep_view().contains_key(head));
                assert(heads(all)[position as int] == head);
                let j = heads(all).index_of(head);
                assert(heads(all)[j] == head);
                assert(listed[i as int] == position);
                assert(refusals(i as int) == record_refusal(
                    all[position as int],
                    decoded[position as int],
                ));
                assert(entries[position as int].1 == decoded[position as int]->0);
                assert(in_order[i as int] == decoded[position as int]->0);
            }
            assert(all[position as int] == records@[position as int].deep_view());
            assert(decoded[position as int] == parts@[position as int].deep_view());
            assert(!oversized(all[position as int]));
            if let Some(text) = refused_record(&records[position], &parts[position]) {
                proof {
                    first_stays(refusals, i + 1, count as int);
                    assert(!fits(all[position as int], decoded[position as int]));
                }
                return Err(EngineError::InvalidSnapshot(text));
            }
            assert(fits(all[position as int], decoded[position as int]));
            let ghost primary_before = primary.deep_view();
            let ghost secondary_before = secondary.deep_view();
            let ghost clients_before = clients.deep_view();
            match &parts[position] {
                Some(SnapshotPart::Meta(value)) => {
                    meta = Some(value.duplicate());
                },
                Some(SnapshotPart::Catalog(value)) => {
                    catalog = Some(value.duplicate());
                },
                Some(SnapshotPart::Primary(entry)) => {
                    primary.push(entry.duplicate());
                    assert(primary.deep_view() =~= primary_before.push(entry.deep_view()));
                },
                Some(SnapshotPart::Secondary(entry)) => {
                    secondary.push(entry.duplicate());
                    assert(secondary.deep_view() =~= secondary_before.push(entry.deep_view()));
                },
                Some(SnapshotPart::Client(entry)) => {
                    clients.push(entry.duplicate());
                    assert(clients.deep_view() =~= clients_before.push(entry.deep_view()));
                },
                None => {},
            }
            i = i + 1;
        }
        proof {
            assert forall|j: int| 0 <= j < all.len() implies fits(#[trigger] all[j], decoded[j]) by {
                let head = heads(all)[j];
                assert(heads(all).contains(head));
                let at = heads(all).index_of(head);
                assert(heads(all)[at] == head && at == j);
                assert(heads(all).to_set().contains(head));
                finite_set_is_listed::<RecordHead>(heads(all).to_set());
                let order = ordered::<RecordHead>(heads(all).to_set());
                assert(order.contains(head));
                let k = order.index_of(head);
                assert(order[k] == head);
                assert(listed[k] == j);
                assert(fits(all[listed[k]], decoded[listed[k]]));
            }
        }
        let meta = match meta {
            Some(meta) => meta,
            None => return Err(invalid("missing metadata record")),
        };
        let catalog = match catalog {
            Some(catalog) => catalog,
            None => return Err(invalid("missing catalog record")),
        };
        let snapshot = EngineSnapshot {
            format: meta.format,
            catalog,
            primary,
            secondary,
            clients,
            last_applied: meta.last_applied,
            last_apply_hash: meta.last_apply_hash,
            last_apply_outcome: meta.last_apply_outcome,
            retained_floor: meta.retained_floor,
            next_txn_id: meta.next_txn_id,
            stats: meta.stats,
        };
        assert(assembled(in_order) == Some(snapshot.deep_view()));
        match Engine::from_snapshot(snapshot.duplicate()) {
            Ok(_) => Ok(snapshot),
            Err(error) => Err(error),
        }
    }
}

proof fn primary_key_bytes_injective(a: PrimarySnapshotEntryView, b: PrimarySnapshotEntryView)
    requires
        primary_key_bytes(a) == primary_key_bytes(b),
    ensures
        a.table_id == b.table_id,
        a.primary_key == b.primary_key,
{
    be_bytes_len(a.table_id as nat, 8);
    be_bytes_len(b.table_id as nat, 8);
    be_bytes_len(a.primary_key.len(), 4);
    be_bytes_len(b.primary_key.len(), 4);
    pow256_values();
    be_round_trip(a.table_id as nat, 8);
    be_round_trip(b.table_id as nat, 8);
    assert(primary_key_bytes(a).take(8) =~= be_bytes(a.table_id as nat, 8));
    assert(primary_key_bytes(b).take(8) =~= be_bytes(b.table_id as nat, 8));
    assert(primary_key_bytes(a).skip(12) =~= a.primary_key);
    assert(primary_key_bytes(b).skip(12) =~= b.primary_key);
}

proof fn secondary_key_bytes_injective(a: SecondaryKeyView, b: SecondaryKeyView)
    requires
        a.secondary_value.len() <= u32::MAX,
        b.secondary_value.len() <= u32::MAX,
        secondary_key_bytes(a) == secondary_key_bytes(b),
    ensures
        a == b,
{
    be_bytes_len(a.index_id as nat, 8);
    be_bytes_len(b.index_id as nat, 8);
    be_bytes_len(a.secondary_value.len(), 4);
    be_bytes_len(b.secondary_value.len(), 4);
    be_bytes_len(a.primary_key.len(), 4);
    be_bytes_len(b.primary_key.len(), 4);
    pow256_values();
    be_round_trip(a.index_id as nat, 8);
    be_round_trip(b.index_id as nat, 8);
    be_round_trip(a.secondary_value.len(), 4);
    be_round_trip(b.secondary_value.len(), 4);
    let x = secondary_key_bytes(a);
    let y = secondary_key_bytes(b);
    assert(x.take(8) =~= be_bytes(a.index_id as nat, 8));
    assert(y.take(8) =~= be_bytes(b.index_id as nat, 8));
    assert(x.subrange(8, 12) =~= be_bytes(a.secondary_value.len(), 4));
    assert(y.subrange(8, 12) =~= be_bytes(b.secondary_value.len(), 4));
    let n = a.secondary_value.len() as int;
    assert(x.subrange(12, 12 + n) =~= a.secondary_value);
    assert(y.subrange(12, 12 + n) =~= b.secondary_value);
    assert(x.skip(16 + n) =~= a.primary_key);
    assert(y.skip(16 + n) =~= b.primary_key);
    assert(a =~= b);
}

/// The parts of a valid snapshot have different heads.
pub(crate) proof fn part_heads_differ(snapshot: EngineSnapshotView, i: int, j: int)
    requires
        snapshot.problem() is None,
        0 <= i < j < snapshot.parts().len(),
        snapshot.parts()[i].key() is Some,
        snapshot.parts()[j].key() is Some,
    ensures
        snapshot.parts()[i].kind() != snapshot.parts()[j].kind() || snapshot.parts()[i].key()
            != snapshot.parts()[j].key(),
{
    let parts = snapshot.parts();
    let rows = snapshot.primary.len();
    let entries = snapshot.secondary.len();
    if parts[i].kind() == parts[j].kind() && parts[i].key() == parts[j].key() {
        if 2 <= i < 2 + rows {
            let (a, b) = (i - 2, j - 2);
            assert(parts[i] == SnapshotPartView::Primary(snapshot.primary[a]));
            assert(parts[j] == SnapshotPartView::Primary(snapshot.primary[b]));
            primary_key_bytes_injective(snapshot.primary[a], snapshot.primary[b]);
            let keys = entry_keys(primary_entries(snapshot.primary));
            assert(keys[a] == keys[b]);
        } else if 2 + rows <= i < 2 + rows + entries {
            let (a, b) = (i - 2 - rows, j - 2 - rows);
            assert(parts[i] == SnapshotPartView::Secondary(snapshot.secondary[a]));
            assert(parts[j] == SnapshotPartView::Secondary(snapshot.secondary[b]));
            secondary_key_bytes_injective(snapshot.secondary[a].key, snapshot.secondary[b].key);
            let keys = entry_keys(secondary_entries(snapshot.secondary));
            assert(keys[a] == keys[b]);
        } else if 2 + rows + entries <= i {
            let (a, b) = (i - 2 - rows - entries, j - 2 - rows - entries);
            assert(parts[i] == SnapshotPartView::Client(snapshot.clients[a]));
            assert(parts[j] == SnapshotPartView::Client(snapshot.clients[b]));
            let keys = entry_keys(client_entries(snapshot.clients));
            assert(keys[a] == keys[b]);
        }
    }
}

pub(crate) proof fn meta_is_found(parts: Seq<SnapshotPartView>, meta: SnapshotMetaView, n: int)
    requires
        0 <= n <= parts.len(),
        forall|i: int| 0 <= i < n && #[trigger] parts[i] is Meta ==> parts[i]->Meta_0 == meta,
        exists|i: int| 0 <= i < n && #[trigger] parts[i] is Meta,
    ensures
        meta_among(parts, n) == Some(meta),
    decreases n,
{
    if parts[n - 1] !is Meta {
        meta_is_found(parts, meta, n - 1);
    }
}

pub(crate) proof fn catalog_is_found(parts: Seq<SnapshotPartView>, catalog: CatalogView, n: int)
    requires
        0 <= n <= parts.len(),
        forall|i: int|
            0 <= i < n && #[trigger] parts[i] is Catalog ==> parts[i]->Catalog_0 == catalog,
        exists|i: int| 0 <= i < n && #[trigger] parts[i] is Catalog,
    ensures
        catalog_among(parts, n) == Some(catalog),
    decreases n,
{
    if parts[n - 1] !is Catalog {
        catalog_is_found(parts, catalog, n - 1);
    }
}

/// The parts have different heads.
pub open spec fn heads_differ(parts: Seq<SnapshotPartView>) -> bool {
    &&& forall|i: int| 0 <= i < parts.len() ==> (#[trigger] parts[i]).key() is Some
    &&& forall|i: int, j: int|
        0 <= i < j < parts.len() ==> (#[trigger] parts[i]).kind() != (#[trigger] parts[j]).kind()
            || parts[i].key() != parts[j].key()
}

pub(crate) proof fn primary_is_found(parts: Seq<SnapshotPartView>, n: int)
    requires
        0 <= n <= parts.len(),
        heads_differ(parts),
    ensures
        distinct_keys(primary_entries(primary_among(parts, n))),
        forall|entry: PrimarySnapshotEntryView| #[trigger]
            primary_among(parts, n).contains(entry) <==> exists|i: int|
                0 <= i < n && parts[i] == SnapshotPartView::Primary(entry),
    decreases n,
{
    if n > 0 {
        primary_is_found(parts, n - 1);
        let fewer = primary_among(parts, n - 1);
        let more = primary_among(parts, n);
        if let SnapshotPartView::Primary(last) = parts[n - 1] {
            assert(more[fewer.len() as int] == last);
            assert forall|entry: PrimarySnapshotEntryView| #[trigger]
                more.contains(entry) <==> exists|i: int|
                    0 <= i < n && parts[i] == SnapshotPartView::Primary(entry) by {
                if fewer.contains(entry) {
                    let i = choose|i: int| 0 <= i < fewer.len() && fewer[i] == entry;
                    assert(more[i] == entry);
                }
            }
            let keys = entry_keys(primary_entries(fewer));
            let all = entry_keys(primary_entries(more));
            assert(all =~= keys.push(primary_entries(more)[fewer.len() as int].0));
            assert forall|i: int| 0 <= i < fewer.len() implies #[trigger] all[i]
                != all[fewer.len() as int] by {
                assert(fewer.contains(fewer[i]));
                let k = choose|k: int|
                    0 <= k < n - 1 && parts[k] == SnapshotPartView::Primary(fewer[i]);
                assert(parts[k].kind() == parts[n - 1].kind());
            }
        } else {
            assert forall|entry: PrimarySnapshotEntryView| #[trigger]
                more.contains(entry) <==> exists|i: int|
                    0 <= i < n && parts[i] == SnapshotPartView::Primary(entry) by {
                assert(fewer.contains(entry) == more.contains(entry));
            }
        }
    } else {
        assert(entry_keys(primary_entries(primary_among(parts, n))) =~= Seq::empty());
    }
}

pub(crate) proof fn secondary_is_found(parts: Seq<SnapshotPartView>, n: int)
    requires
        0 <= n <= parts.len(),
        heads_differ(parts),
    ensures
        distinct_keys(secondary_entries(secondary_among(parts, n))),
        forall|entry: SecondarySnapshotEntryView| #[trigger]
            secondary_among(parts, n).contains(entry) <==> exists|i: int|
                0 <= i < n && parts[i] == SnapshotPartView::Secondary(entry),
    decreases n,
{
    if n > 0 {
        secondary_is_found(parts, n - 1);
        let fewer = secondary_among(parts, n - 1);
        let more = secondary_among(parts, n);
        if let SnapshotPartView::Secondary(last) = parts[n - 1] {
            assert(more[fewer.len() as int] == last);
            assert forall|entry: SecondarySnapshotEntryView| #[trigger]
                more.contains(entry) <==> exists|i: int|
                    0 <= i < n && parts[i] == SnapshotPartView::Secondary(entry) by {
                if fewer.contains(entry) {
                    let i = choose|i: int| 0 <= i < fewer.len() && fewer[i] == entry;
                    assert(more[i] == entry);
                }
            }
            let keys = entry_keys(secondary_entries(fewer));
            let all = entry_keys(secondary_entries(more));
            assert(all =~= keys.push(secondary_entries(more)[fewer.len() as int].0));
            assert forall|i: int| 0 <= i < fewer.len() implies #[trigger] all[i]
                != all[fewer.len() as int] by {
                assert(fewer.contains(fewer[i]));
                let k = choose|k: int|
                    0 <= k < n - 1 && parts[k] == SnapshotPartView::Secondary(fewer[i]);
                assert(parts[k].kind() == parts[n - 1].kind());
            }
        } else {
            assert forall|entry: SecondarySnapshotEntryView| #[trigger]
                more.contains(entry) <==> exists|i: int|
                    0 <= i < n && parts[i] == SnapshotPartView::Secondary(entry) by {
                assert(fewer.contains(entry) == more.contains(entry));
            }
        }
    } else {
        assert(entry_keys(secondary_entries(secondary_among(parts, n))) =~= Seq::empty());
    }
}

pub(crate) proof fn clients_are_found(parts: Seq<SnapshotPartView>, n: int)
    requires
        0 <= n <= parts.len(),
        heads_differ(parts),
    ensures
        distinct_keys(client_entries(clients_among(parts, n))),
        forall|entry: ClientSnapshotEntryView| #[trigger]
            clients_among(parts, n).contains(entry) <==> exists|i: int|
                0 <= i < n && parts[i] == SnapshotPartView::Client(entry),
    decreases n,
{
    if n > 0 {
        clients_are_found(parts, n - 1);
        let fewer = clients_among(parts, n - 1);
        let more = clients_among(parts, n);
        if let SnapshotPartView::Client(last) = parts[n - 1] {
            assert(more[fewer.len() as int] == last);
            assert forall|entry: ClientSnapshotEntryView| #[trigger]
                more.contains(entry) <==> exists|i: int|
                    0 <= i < n && parts[i] == SnapshotPartView::Client(entry) by {
                if fewer.contains(entry) {
                    let i = choose|i: int| 0 <= i < fewer.len() && fewer[i] == entry;
                    assert(more[i] == entry);
                }
            }
            let keys = entry_keys(client_entries(fewer));
            let all = entry_keys(client_entries(more));
            assert(all =~= keys.push(client_entries(more)[fewer.len() as int].0));
            assert forall|i: int| 0 <= i < fewer.len() implies #[trigger] all[i]
                != all[fewer.len() as int] by {
                assert(fewer.contains(fewer[i]));
                let k = choose|k: int|
                    0 <= k < n - 1 && parts[k] == SnapshotPartView::Client(fewer[i]);
                assert(parts[k].kind() == parts[n - 1].kind());
            }
        } else {
            assert forall|entry: ClientSnapshotEntryView| #[trigger]
                more.contains(entry) <==> exists|i: int|
                    0 <= i < n && parts[i] == SnapshotPartView::Client(entry) by {
                assert(fewer.contains(entry) == more.contains(entry));
            }
        }
    } else {
        assert(entry_keys(client_entries(clients_among(parts, n))) =~= Seq::empty());
    }
}

/// Entries in another order describe the same map.
pub(crate) proof fn same_entries_same_map<A, B>(a: Seq<(A, B)>, b: Seq<(A, B)>)
    requires
        distinct_keys(a),
        distinct_keys(b),
        forall|i: int| 0 <= i < a.len() ==> b.contains(#[trigger] a[i]),
        forall|i: int| 0 <= i < b.len() ==> a.contains(#[trigger] b[i]),
    ensures
        map_of(a) == map_of(b),
{
    map_of_holds(a);
    map_of_holds(b);
    assert forall|k: A| map_of(a).contains_key(k) implies map_of(b).contains_key(k) && map_of(a)[k]
        == map_of(b)[k] by {
        let i = choose|i: int| 0 <= i < a.len() && a[i] == (k, map_of(a)[k]);
        let j = choose|j: int| 0 <= j < b.len() && b[j] == a[i];
        assert(map_of(b).contains_key(b[j].0));
    }
    assert forall|k: A| map_of(b).contains_key(k) implies map_of(a).contains_key(k) by {
        let i = choose|i: int| 0 <= i < b.len() && b[i] == (k, map_of(b)[k]);
        let j = choose|j: int| 0 <= j < a.len() && a[j] == b[i];
        assert(map_of(a).contains_key(a[j].0));
    }
    assert(map_of(a) =~= map_of(b));
}

/// The records of the parts of a snapshot at the given positions.
pub open spec fn records_at(
    snapshot: EngineSnapshotView,
    values: Seq<Seq<u8>>,
    order: Seq<int>,
) -> Seq<SnapshotRecordView> {
    Seq::new(order.len(), |i: int| snapshot.records(values)[order[i]])
}

/// The parts of a snapshot at the given positions.
pub open spec fn parts_at(snapshot: EngineSnapshotView, order: Seq<int>) -> Seq<
    Option<SnapshotPartView>,
> {
    Seq::new(order.len(), |i: int| Some(snapshot.parts()[order[i]]))
}

/// Parts in the order of heads are the parts of the snapshot, each once.
pub(crate) proof fn order_keeps_parts(
    snapshot: EngineSnapshotView,
    values: Seq<Seq<u8>>,
    order: Seq<int>,
)
    requires
        snapshot.problem() is None,
        snapshot.recordable(values),
        lists_positions(order, snapshot.parts().len() as int),
    ensures
        heads(records_at(snapshot, values, order)).no_duplicates(),
        ({
            let found = parts_in_order(
                records_at(snapshot, values, order),
                parts_at(snapshot, order),
            );
            &&& heads_differ(found)
            &&& forall|i: int| 0 <= i < found.len() ==> snapshot.parts().contains(#[trigger] found[i])
            &&& forall|i: int|
                0 <= i < snapshot.parts().len() ==> found.contains(#[trigger] snapshot.parts()[i])
        }),
{
    let parts = snapshot.parts();
    let records = records_at(snapshot, values, order);
    let chosen = parts_at(snapshot, order);
    let names = heads(records);
    assert forall|i: int| 0 <= i < order.len() implies 0 <= (#[trigger] order[i]) < parts.len()
        && parts[order[i]].record(values[order[i]]) == Some(records[i]) && names[i].kind
        == parts[order[i]].kind() && parts[order[i]].key() == Some(names[i].key) by {
        assert(parts[order[i]].record(values[order[i]]) is Some);
    }
    assert forall|i: int, j: int|
        0 <= i < names.len() && 0 <= j < names.len() && i != j implies names[i] != names[j] by {
        assert(order[i] != order[j]);
        if order[i] < order[j] {
            part_heads_differ(snapshot, order[i], order[j]);
        } else {
            part_heads_differ(snapshot, order[j], order[i]);
        }
    }
    let entries = parts_by_head(records, chosen);
    assert(entry_keys(entries) =~= names);
    let map = map_of(entries);
    map_of_holds(entries);
    let listed = ordered::<RecordHead>(map.dom());
    finite_set_is_listed::<RecordHead>(map.dom());
    let found = parts_in_order(records, chosen);
    assert forall|i: int| 0 <= i < found.len() implies parts.contains(#[trigger] found[i])
        && found[i].kind() == listed[i].kind && found[i].key() == Some(listed[i].key) by {
        assert(listed.contains(listed[i]));
        assert(map.dom().contains(listed[i]));
        assert(map.contains_key(listed[i]));
        let k = choose|k: int| 0 <= k < entries.len() && entries[k] == (listed[i], map[listed[i]]);
        assert(entries[k].0 == names[k]);
        assert(found[i] == parts[order[k]]);
    }
    assert forall|i: int, j: int| 0 <= i < j < found.len() implies (#[trigger] found[i]).kind() != (
    #[trigger] found[j]).kind() || found[i].key() != found[j].key() by {
        assert(RecordHead::before(listed[i], listed[j]));
        RecordHead::before_irreflexive(listed[i]);
        if listed[i].kind == listed[j].kind && listed[i].key == listed[j].key {
            assert(listed[i] =~= listed[j]);
        }
    }
    assert forall|i: int| 0 <= i < parts.len() implies found.contains(#[trigger] parts[i]) by {
        position_is_listed(order, parts.len() as int, i);
        let k = choose|k: int| 0 <= k < order.len() && order[k] == i;
        assert(map.contains_key(entries[k].0));
        assert(map.dom().contains(names[k]));
        assert(listed.contains(names[k]));
        let m = choose|m: int| 0 <= m < listed.len() && listed[m] == names[k];
        assert(found[m] == parts[i]);
    }
}

/// The records of a valid snapshot, in any order, make up a snapshot of the
/// same engine.
pub proof fn records_round_trip(
    snapshot: EngineSnapshotView,
    values: Seq<Seq<u8>>,
    order: Seq<int>,
)
    requires
        snapshot.problem() is None,
        snapshot.recordable(values),
        lists_positions(order, snapshot.parts().len() as int),
    ensures
        ({
            let result = collected(
                records_at(snapshot, values, order),
                parts_at(snapshot, order),
            );
            result is Ok && result->Ok_0.restored() == snapshot.restored()
        }),
{
    let parts = snapshot.parts();
    let records = records_at(snapshot, values, order);
    let chosen = parts_at(snapshot, order);
    let found = parts_in_order(records, chosen);
    let n = found.len() as int;
    order_keeps_parts(snapshot, values, order);
    assert forall|i: int| 0 <= i < records.len() implies fits(#[trigger] records[i], chosen[i]) by {
        assert(parts[order[i]].record(values[order[i]]) is Some);
    }
    assert forall|i: int| 0 <= i < n implies (#[trigger] found[i] is Meta ==> found[i]->Meta_0
        == snapshot.meta()) && (found[i] is Catalog ==> found[i]->Catalog_0 == snapshot.catalog) by {
        assert(parts.contains(found[i]));
    }
    assert(parts[0] is Meta);
    assert(parts[1] is Catalog);
    assert(found.contains(parts[0]) && found.contains(parts[1]));
    meta_is_found(found, snapshot.meta(), n);
    catalog_is_found(found, snapshot.catalog, n);
    primary_is_found(found, n);
    secondary_is_found(found, n);
    clients_are_found(found, n);
    let rows = snapshot.primary.len();
    let keyed = snapshot.secondary.len();
    let again = assembled(found)->0;
    assert forall|entry: PrimarySnapshotEntryView| again.primary.contains(entry)
        == snapshot.primary.contains(entry) by {
        if again.primary.contains(entry) {
            let i = choose|i: int| 0 <= i < n && found[i] == SnapshotPartView::Primary(entry);
            let j = choose|j: int| 0 <= j < parts.len() && parts[j] == found[i];
            assert(snapshot.primary[j - 2] == entry);
        }
        if snapshot.primary.contains(entry) {
            let j = choose|j: int| 0 <= j < rows && snapshot.primary[j] == entry;
            assert(parts[2 + j] == SnapshotPartView::Primary(entry));
            assert(found.contains(parts[2 + j]));
        }
    }
    assert forall|entry: SecondarySnapshotEntryView| again.secondary.contains(entry)
        == snapshot.secondary.contains(entry) by {
        if again.secondary.contains(entry) {
            let i = choose|i: int| 0 <= i < n && found[i] == SnapshotPartView::Secondary(entry);
            let j = choose|j: int| 0 <= j < parts.len() && parts[j] == found[i];
            assert(snapshot.secondary[j - 2 - rows] == entry);
        }
        if snapshot.secondary.contains(entry) {
            let j = choose|j: int| 0 <= j < keyed && snapshot.secondary[j] == entry;
            assert(parts[2 + rows + j] == SnapshotPartView::Secondary(entry));
            assert(found.contains(parts[2 + rows + j]));
        }
    }
    assert forall|entry: ClientSnapshotEntryView| again.clients.contains(entry)
        == snapshot.clients.contains(entry) by {
        if again.clients.contains(entry) {
            let i = choose|i: int| 0 <= i < n && found[i] == SnapshotPartView::Client(entry);
            let j = choose|j: int| 0 <= j < parts.len() && parts[j] == found[i];
            assert(snapshot.clients[j - 2 - rows - keyed] == entry);
        }
        if snapshot.clients.contains(entry) {
            let j = choose|j: int|
                0 <= j < snapshot.clients.len() && snapshot.clients[j] == entry;
            assert(parts[2 + rows + keyed + j] == SnapshotPartView::Client(entry));
            assert(found.contains(parts[2 + rows + keyed + j]));
        }
    }
    same_contents_same_engine(again, snapshot);
}

/// Snapshots that hold the same entries describe the same engine.
proof fn same_contents_same_engine(a: EngineSnapshotView, b: EngineSnapshotView)
    requires
        b.problem() is None,
        a.meta() == b.meta(),
        a.catalog == b.catalog,
        distinct_keys(primary_entries(a.primary)),
        distinct_keys(secondary_entries(a.secondary)),
        distinct_keys(client_entries(a.clients)),
        forall|entry: PrimarySnapshotEntryView|
            a.primary.contains(entry) == b.primary.contains(entry),
        forall|entry: SecondarySnapshotEntryView|
            a.secondary.contains(entry) == b.secondary.contains(entry),
        forall|entry: ClientSnapshotEntryView|
            a.clients.contains(entry) == b.clients.contains(entry),
    ensures
        a.problem() is None,
        a.engine() == b.engine(),
{
    let (x, y) = (primary_entries(a.primary), primary_entries(b.primary));
    assert forall|i: int| 0 <= i < x.len() implies y.contains(#[trigger] x[i]) by {
        assert(a.primary.contains(a.primary[i]));
        let j = choose|j: int| 0 <= j < b.primary.len() && b.primary[j] == a.primary[i];
        assert(y[j] == x[i]);
    }
    assert forall|i: int| 0 <= i < y.len() implies x.contains(#[trigger] y[i]) by {
        assert(b.primary.contains(b.primary[i]));
        let j = choose|j: int| 0 <= j < a.primary.len() && a.primary[j] == b.primary[i];
        assert(x[j] == y[i]);
    }
    same_entries_same_map(x, y);
    let (u, v) = (secondary_entries(a.secondary), secondary_entries(b.secondary));
    assert forall|i: int| 0 <= i < u.len() implies v.contains(#[trigger] u[i]) by {
        assert(a.secondary.contains(a.secondary[i]));
        let j = choose|j: int| 0 <= j < b.secondary.len() && b.secondary[j] == a.secondary[i];
        assert(v[j] == u[i]);
    }
    assert forall|i: int| 0 <= i < v.len() implies u.contains(#[trigger] v[i]) by {
        assert(b.secondary.contains(b.secondary[i]));
        let j = choose|j: int| 0 <= j < a.secondary.len() && a.secondary[j] == b.secondary[i];
        assert(u[j] == v[i]);
    }
    same_entries_same_map(u, v);
    let (p, q) = (client_entries(a.clients), client_entries(b.clients));
    assert forall|i: int| 0 <= i < p.len() implies q.contains(#[trigger] p[i]) by {
        assert(a.clients.contains(a.clients[i]));
        let j = choose|j: int| 0 <= j < b.clients.len() && b.clients[j] == a.clients[i];
        assert(q[j] == p[i]);
    }
    assert forall|i: int| 0 <= i < q.len() implies p.contains(#[trigger] q[i]) by {
        assert(b.clients.contains(b.clients[i]));
        let j = choose|j: int| 0 <= j < a.clients.len() && a.clients[j] == b.clients[i];
        assert(p[j] == q[i]);
    }
    same_entries_same_map(p, q);
    assert forall|i: int| 0 <= i < a.primary.len() implies chain_valid::<RowVersion>(
        (#[trigger] a.primary[i]).versions,
        a.last_applied,
    ) by {
        assert(a.primary.contains(a.primary[i]));
        assert(b.primary.contains(a.primary[i]));
    }
    assert forall|i: int| 0 <= i < a.secondary.len() implies chain_valid::<SecondaryVersion>(
        (#[trigger] a.secondary[i]).versions,
        a.last_applied,
    ) && a.catalog.indexes.contains_key(a.secondary[i].key.index_id) by {
        assert(a.secondary.contains(a.secondary[i]));
        assert(b.secondary.contains(a.secondary[i]));
    }
    assert forall|i: int| 0 <= i < a.clients.len() implies (#[trigger] a.clients[i]).record.sequence
        > 0 by {
        assert(a.clients.contains(a.clients[i]));
        assert(b.clients.contains(a.clients[i]));
    }
}

} // verus!
