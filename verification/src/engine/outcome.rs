//! Results of applying transactions.

use vstd::prelude::*;
use crate::model::Model;
use crate::text::{
    byte_list, byte_list_text, decimal, decimal_text, quoted, quoted_text, signed_decimal,
    signed_text, truth_word,
};
use crate::types::{TableId, Value, ValueView, labelled};

verus! {

/// Why a transaction was aborted.
#[derive(Debug, Clone, PartialEq, Eq)]
pub enum AbortReason {
    WriteConflict { table_id: TableId, primary_key: Value, winning_commit: u64 },
    SchemaChanged { expected: u64, actual: u64 },
    SnapshotVacuumed { read_ts: u64, retained_floor: u64 },
    Validation(String),
}

/// The content of a [`AbortReason`].
#[verifier::ext_equal]
pub enum AbortReasonView {
    WriteConflict { table_id: TableId, primary_key: ValueView, winning_commit: u64 },
    SchemaChanged { expected: u64, actual: u64 },
    SnapshotVacuumed { read_ts: u64, retained_floor: u64 },
    Validation(Seq<char>),
}

impl DeepView for AbortReason {
    type V = AbortReasonView;

    open spec fn deep_view(&self) -> AbortReasonView {
        match self {
            AbortReason::WriteConflict { table_id, primary_key, winning_commit } => AbortReasonView::WriteConflict {
                table_id: table_id.deep_view(),
                primary_key: primary_key.deep_view(),
                winning_commit: winning_commit.deep_view(),
            },
            AbortReason::SchemaChanged { expected, actual } => AbortReasonView::SchemaChanged {
                expected: expected.deep_view(),
                actual: actual.deep_view(),
            },
            AbortReason::SnapshotVacuumed { read_ts, retained_floor } => AbortReasonView::SnapshotVacuumed {
                read_ts: read_ts.deep_view(),
                retained_floor: retained_floor.deep_view(),
            },
            AbortReason::Validation(a) => AbortReasonView::Validation(a.deep_view()),
        }
    }
}

impl Model for AbortReason {
    fn duplicate(&self) -> (copy: Self) {
        match self {
            AbortReason::WriteConflict { table_id, primary_key, winning_commit } => AbortReason::WriteConflict {
                table_id: table_id.duplicate(),
                primary_key: primary_key.duplicate(),
                winning_commit: winning_commit.duplicate(),
            },
            AbortReason::SchemaChanged { expected, actual } => AbortReason::SchemaChanged {
                expected: expected.duplicate(),
                actual: actual.duplicate(),
            },
            AbortReason::SnapshotVacuumed { read_ts, retained_floor } => AbortReason::SnapshotVacuumed {
                read_ts: read_ts.duplicate(),
                retained_floor: retained_floor.duplicate(),
            },
            AbortReason::Validation(a) => AbortReason::Validation(a.duplicate()),
        }
    }

    fn same(&self, other: &Self) -> (equal: bool) {
        match (self, other) {
            (
                AbortReason::WriteConflict { table_id, primary_key, winning_commit },
                AbortReason::WriteConflict { table_id: other_table_id, primary_key: other_primary_key, winning_commit: other_winning_commit },
            ) => table_id.same(other_table_id)
                && primary_key.same(other_primary_key)
                && winning_commit.same(other_winning_commit),
            (
                AbortReason::SchemaChanged { expected, actual },
                AbortReason::SchemaChanged { expected: other_expected, actual: other_actual },
            ) => expected.same(other_expected)
                && actual.same(other_actual),
            (
                AbortReason::SnapshotVacuumed { read_ts, retained_floor },
                AbortReason::SnapshotVacuumed { read_ts: other_read_ts, retained_floor: other_retained_floor },
            ) => read_ts.same(other_read_ts)
                && retained_floor.same(other_retained_floor),
            (AbortReason::Validation(a), AbortReason::Validation(other_a)) => a.same(other_a),
            _ => false,
        }
    }
}

/// A value, written out with its type.
pub open spec fn value_spelled(value: ValueView) -> Seq<char> {
    match value {
        ValueView::Null => "Null"@,
        ValueView::Int64(x) => "Int64("@ + signed_decimal(x as int) + ")"@,
        ValueView::Bool(b) => "Bool("@ + truth_word(b) + ")"@,
        ValueView::Text(text) => "Text("@ + quoted(text) + ")"@,
        ValueView::Bytes(bytes) => "Bytes(["@ + byte_list(bytes, bytes.len()) + "])"@,
    }
}

/// Writes a value out with its type.
fn spell_value(value: &Value) -> (text: String)
    ensures
        text@ == value_spelled(value.deep_view()),
{
    let (mut text, close) = match value {
        Value::Null => ("Null".to_owned(), ""),
        Value::Int64(x) => (labelled("Int64(", &signed_text(*x)), ")"),
        Value::Bool(b) => (labelled("Bool(", if *b {
            "true"
        } else {
            "false"
        }), ")"),
        Value::Text(text) => (labelled("Text(", &quoted_text(text)), ")"),
        Value::Bytes(bytes) => {
            assert(bytes@ =~= bytes.deep_view());
            (labelled("Bytes([", &byte_list_text(bytes)), "])")
        },
    };
    text.append(close);
    proof {
        reveal_strlit("");
        assert("Null"@ + ""@ =~= "Null"@);
    }
    text
}

impl AbortReasonView {
    /// The reason, written out with its parts.
    pub open spec fn spelled(self) -> Seq<char> {
        match self {
            AbortReasonView::WriteConflict { table_id, primary_key, winning_commit } =>
                "WriteConflict { table_id: "@ + decimal(table_id as nat) + ", primary_key: "@
                + value_spelled(primary_key) + ", winning_commit: "@ + decimal(
                winning_commit as nat,
            ) + " }"@,
            AbortReasonView::SchemaChanged { expected, actual } => "SchemaChanged { expected: "@
                + decimal(expected as nat) + ", actual: "@ + decimal(actual as nat) + " }"@,
            AbortReasonView::SnapshotVacuumed { read_ts, retained_floor } =>
                "SnapshotVacuumed { read_ts: "@ + decimal(read_ts as nat) + ", retained_floor: "@
                + decimal(retained_floor as nat) + " }"@,
            AbortReasonView::Validation(text) => "Validation("@ + quoted(text) + ")"@,
        }
    }
}

impl AbortReason {
    /// Writes the reason out with its parts.
    pub fn describe(&self) -> (text: String)
        ensures
            text@ == self.deep_view().spelled(),
    {
        match self {
            AbortReason::WriteConflict { table_id, primary_key, winning_commit } => {
                let mut text = labelled("WriteConflict { table_id: ", &decimal_text(*table_id));
                text.append(", primary_key: ");
                text.append(&spell_value(primary_key));
                text.append(", winning_commit: ");
                text.append(&decimal_text(*winning_commit));
                text.append(" }");
                text
            },
            AbortReason::SchemaChanged { expected, actual } => {
                let mut text = labelled("SchemaChanged { expected: ", &decimal_text(*expected));
                text.append(", actual: ");
                text.append(&decimal_text(*actual));
                text.append(" }");
                text
            },
            AbortReason::SnapshotVacuumed { read_ts, retained_floor } => {
                let mut text = labelled("SnapshotVacuumed { read_ts: ", &decimal_text(*read_ts));
                text.append(", retained_floor: ");
                text.append(&decimal_text(*retained_floor));
                text.append(" }");
                text
            },
            AbortReason::Validation(why) => {
                let mut text = labelled("Validation(", &quoted_text(why));
                text.append(")");
                text
            },
        }
    }
}

/// How a transaction ended.
#[derive(Debug, Clone, PartialEq, Eq)]
pub enum CommitResult {
    Committed { commit_index: u64, affected_rows: usize, schema_epoch: u64 },
    Aborted { abort_index: u64, reason: AbortReason },
}

/// The content of a [`CommitResult`].
#[verifier::ext_equal]
pub enum CommitResultView {
    Committed { commit_index: u64, affected_rows: usize, schema_epoch: u64 },
    Aborted { abort_index: u64, reason: AbortReasonView },
}

impl DeepView for CommitResult {
    type V = CommitResultView;

    open spec fn deep_view(&self) -> CommitResultView {
        match self {
            CommitResult::Committed { commit_index, affected_rows, schema_epoch } => CommitResultView::Committed {
                commit_index: commit_index.deep_view(),
                affected_rows: affected_rows.deep_view(),
                schema_epoch: schema_epoch.deep_view(),
            },
            CommitResult::Aborted { abort_index, reason } => CommitResultView::Aborted {
                abort_index: abort_index.deep_view(),
                reason: reason.deep_view(),
            },
        }
    }
}

impl Model for CommitResult {
    fn duplicate(&self) -> (copy: Self) {
        match self {
            CommitResult::Committed { commit_index, affected_rows, schema_epoch } => CommitResult::Committed {
                commit_index: commit_index.duplicate(),
                affected_rows: affected_rows.duplicate(),
                schema_epoch: schema_epoch.duplicate(),
            },
            CommitResult::Aborted { abort_index, reason } => CommitResult::Aborted {
                abort_index: abort_index.duplicate(),
                reason: reason.duplicate(),
            },
        }
    }

    fn same(&self, other: &Self) -> (equal: bool) {
        match (self, other) {
            (
                CommitResult::Committed { commit_index, affected_rows, schema_epoch },
                CommitResult::Committed { commit_index: other_commit_index, affected_rows: other_affected_rows, schema_epoch: other_schema_epoch },
            ) => commit_index.same(other_commit_index)
                && affected_rows.same(other_affected_rows)
                && schema_epoch.same(other_schema_epoch),
            (
                CommitResult::Aborted { abort_index, reason },
                CommitResult::Aborted { abort_index: other_abort_index, reason: other_reason },
            ) => abort_index.same(other_abort_index)
                && reason.same(other_reason),
            _ => false,
        }
    }
}

/// Why a request was not admitted.
#[derive(Debug, Clone, Copy, PartialEq, Eq, Structural)]
pub enum RequestRejection {
    FirstSequenceMustBeOne { actual: u64 },
    SequenceGap { expected: u64, actual: u64 },
    SequenceTooOld { latest: u64, actual: u64 },
    SequenceHashMismatch { sequence: u64 },
}

impl DeepView for RequestRejection {
    type V = RequestRejection;

    open spec fn deep_view(&self) -> RequestRejection {
        *self
    }
}

impl Model for RequestRejection {
    fn duplicate(&self) -> (copy: Self) {
        *self
    }

    fn same(&self, other: &Self) -> (equal: bool) {
        *self == *other
    }
}

impl RequestRejection {
    /// The rejection, written out with its parts.
    pub open spec fn spelled(self) -> Seq<char> {
        match self {
            RequestRejection::FirstSequenceMustBeOne { actual } =>
                "FirstSequenceMustBeOne { actual: "@ + decimal(actual as nat) + " }"@,
            RequestRejection::SequenceGap { expected, actual } => "SequenceGap { expected: "@
                + decimal(expected as nat) + ", actual: "@ + decimal(actual as nat) + " }"@,
            RequestRejection::SequenceTooOld { latest, actual } => "SequenceTooOld { latest: "@
                + decimal(latest as nat) + ", actual: "@ + decimal(actual as nat) + " }"@,
            RequestRejection::SequenceHashMismatch { sequence } =>
                "SequenceHashMismatch { sequence: "@ + decimal(sequence as nat) + " }"@,
        }
    }

    /// Writes the rejection out with its parts.
    pub fn describe(self) -> (text: String)
        ensures
            text@ == self.spelled(),
    {
        let mut text = match self {
            RequestRejection::FirstSequenceMustBeOne { actual } => labelled(
                "FirstSequenceMustBeOne { actual: ",
                &decimal_text(actual),
            ),
            RequestRejection::SequenceGap { expected, actual } => {
                let mut text = labelled("SequenceGap { expected: ", &decimal_text(expected));
                text.append(", actual: ");
                text.append(&decimal_text(actual));
                text
            },
            RequestRejection::SequenceTooOld { latest, actual } => {
                let mut text = labelled("SequenceTooOld { latest: ", &decimal_text(latest));
                text.append(", actual: ");
                text.append(&decimal_text(actual));
                text
            },
            RequestRejection::SequenceHashMismatch { sequence } => labelled(
                "SequenceHashMismatch { sequence: ",
                &decimal_text(sequence),
            ),
        };
        text.append(" }");
        text
    }
}

/// What applying a log entry did.
#[derive(Debug, Clone, PartialEq, Eq)]
pub enum ApplyOutcome {
    Applied(CommitResult),
    Duplicate(CommitResult),
    Rejected(RequestRejection),
    /// A committed leader no-op moves the timestamp and nothing else.
    Noop,
}

/// The content of a [`ApplyOutcome`].
#[verifier::ext_equal]
pub enum ApplyOutcomeView {
    Applied(CommitResultView),
    Duplicate(CommitResultView),
    Rejected(RequestRejection),
    Noop,
}

impl DeepView for ApplyOutcome {
    type V = ApplyOutcomeView;

    open spec fn deep_view(&self) -> ApplyOutcomeView {
        match self {
            ApplyOutcome::Applied(a) => ApplyOutcomeView::Applied(a.deep_view()),
            ApplyOutcome::Duplicate(a) => ApplyOutcomeView::Duplicate(a.deep_view()),
            ApplyOutcome::Rejected(a) => ApplyOutcomeView::Rejected(a.deep_view()),
            ApplyOutcome::Noop => ApplyOutcomeView::Noop,
        }
    }
}

impl Model for ApplyOutcome {
    fn duplicate(&self) -> (copy: Self) {
        match self {
            ApplyOutcome::Applied(a) => ApplyOutcome::Applied(a.duplicate()),
            ApplyOutcome::Duplicate(a) => ApplyOutcome::Duplicate(a.duplicate()),
            ApplyOutcome::Rejected(a) => ApplyOutcome::Rejected(a.duplicate()),
            ApplyOutcome::Noop => ApplyOutcome::Noop,
        }
    }

    fn same(&self, other: &Self) -> (equal: bool) {
        match (self, other) {
            (ApplyOutcome::Applied(a), ApplyOutcome::Applied(other_a)) => a.same(other_a),
            (ApplyOutcome::Duplicate(a), ApplyOutcome::Duplicate(other_a)) => a.same(other_a),
            (ApplyOutcome::Rejected(a), ApplyOutcome::Rejected(other_a)) => a.same(other_a),
            (ApplyOutcome::Noop, ApplyOutcome::Noop) => true,
            _ => false,
        }
    }
}

/// The latest request of a client and its result.
#[derive(Debug, Clone, PartialEq, Eq)]
pub struct ClientRecord {
    pub sequence: u64,
    /// Hash of the logical request, the same across leader terms and
    /// re-preparation.
    pub request_hash: [u8; 32],
    pub result: CommitResult,
}

/// The content of a [`ClientRecord`].
#[verifier::ext_equal]
pub struct ClientRecordView {
    pub sequence: u64,
    pub request_hash: Seq<u8>,
    pub result: CommitResultView,
}

impl DeepView for ClientRecord {
    type V = ClientRecordView;

    open spec fn deep_view(&self) -> ClientRecordView {
        ClientRecordView {
            sequence: self.sequence.deep_view(),
            request_hash: self.request_hash.deep_view(),
            result: self.result.deep_view(),
        }
    }
}

impl Model for ClientRecord {
    fn duplicate(&self) -> (copy: Self) {
        ClientRecord {
            sequence: self.sequence.duplicate(),
            request_hash: self.request_hash.duplicate(),
            result: self.result.duplicate(),
        }
    }

    fn same(&self, other: &Self) -> (equal: bool) {
        self.sequence.same(&other.sequence)
            && self.request_hash.same(&other.request_hash)
            && self.result.same(&other.result)
    }
}

/// Counters of the engine.
#[derive(Debug, Clone, Copy, PartialEq, Eq, Structural)]
pub struct EngineStats {
    pub committed_transactions: u64,
    pub aborted_transactions: u64,
    pub duplicate_requests: u64,
    pub rejected_requests: u64,
    pub primary_versions: u64,
    pub secondary_versions: u64,
    pub vacuumed_primary_versions: u64,
    pub vacuumed_secondary_versions: u64,
}

impl DeepView for EngineStats {
    type V = EngineStats;

    open spec fn deep_view(&self) -> EngineStats {
        *self
    }
}

impl Model for EngineStats {
    fn duplicate(&self) -> (copy: Self) {
        *self
    }

    fn same(&self, other: &Self) -> (equal: bool) {
        *self == *other
    }
}

/// What a vacuum removed.
#[derive(Debug, Clone, Copy, PartialEq, Eq, Structural)]
pub struct VacuumReport {
    pub previous_floor: u64,
    pub retained_floor: u64,
    pub primary_versions_removed: usize,
    pub secondary_versions_removed: usize,
    pub empty_primary_chains_removed: usize,
    pub empty_secondary_chains_removed: usize,
}

impl DeepView for VacuumReport {
    type V = VacuumReport;

    open spec fn deep_view(&self) -> VacuumReport {
        *self
    }
}

impl Model for VacuumReport {
    fn duplicate(&self) -> (copy: Self) {
        *self
    }

    fn same(&self, other: &Self) -> (equal: bool) {
        *self == *other
    }
}

impl Default for EngineStats {
    fn default() -> (stats: EngineStats)
        ensures
            stats == EngineStats::zero(),
    {
        EngineStats {
            committed_transactions: 0,
            aborted_transactions: 0,
            duplicate_requests: 0,
            rejected_requests: 0,
            primary_versions: 0,
            secondary_versions: 0,
            vacuumed_primary_versions: 0,
            vacuumed_secondary_versions: 0,
        }
    }
}

impl EngineStats {
    pub open spec fn zero() -> EngineStats {
        EngineStats {
            committed_transactions: 0,
            aborted_transactions: 0,
            duplicate_requests: 0,
            rejected_requests: 0,
            primary_versions: 0,
            secondary_versions: 0,
            vacuumed_primary_versions: 0,
            vacuumed_secondary_versions: 0,
        }
    }
}

/// The next number, or the same one if there is none.
pub open spec fn bumped(n: u64) -> u64 {
    if n == u64::MAX {
        n
    } else {
        (n + 1) as u64
    }
}

/// The next number, or the same one if there is none.
pub fn bump(n: u64) -> (next: u64)
    ensures
        next == bumped(n),
{
    if n == u64::MAX {
        n
    } else {
        n + 1
    }
}

/// The sum, or the largest number if that is larger.
pub open spec fn raised(n: u64, by: u64) -> u64 {
    if n + by > u64::MAX {
        u64::MAX
    } else {
        (n + by) as u64
    }
}

/// The sum, or the largest number if that is larger.
pub fn raise(n: u64, by: u64) -> (sum: u64)
    ensures
        sum == raised(n, by),
{
    if by > u64::MAX - n {
        u64::MAX
    } else {
        n + by
    }
}

} // verus!
