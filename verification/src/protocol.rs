//! The framed protocol between clients and nodes.

use bytes::{Buf, BytesMut};
use vstd::prelude::*;
use vstd::utf8::encode_utf8;
use crate::digest::{crc32, crc32_checksum};
use crate::model::{Model, outcome};
use crate::text::{decimal, decimal_text};
use crate::types::{NodeId, Value, ValueView, labelled, message};
use crate::wire::{
    be_bytes, be_bytes_len, be_round_trip, be_value, be_value_round_trip, get_be, pow256_values,
    put_be, put_bytes,
};

verus! {

broadcast use crate::model::group_contents;

/// The version of the protocol.
pub const VERSION: u16 = 1;

/// The payload size that is allowed where nothing else was said.
pub const DEFAULT_MAX_FRAME_BYTES: usize = 8_388_608;

pub const MAX_SQL_BYTES: usize = 1_048_576;

pub const MAX_PARAMETERS: usize = 65_536;

pub const MAX_ROWS_PER_FRAME: usize = 16_384;

/// The bytes of a frame before its payload.
pub const HEADER_BYTES: usize = 16;

/// Who asks, and in which transaction.
#[derive(Debug, Clone, PartialEq, Eq)]
pub struct SessionRequest {
    pub client_id: [u8; 16],
    pub sequence: u64,
    pub transaction_id: Option<u64>,
}

/// The content of a [`SessionRequest`].
#[verifier::ext_equal]
pub struct SessionRequestView {
    pub client_id: Seq<u8>,
    pub sequence: u64,
    pub transaction_id: Option<u64>,
}

impl DeepView for SessionRequest {
    type V = SessionRequestView;

    open spec fn deep_view(&self) -> SessionRequestView {
        SessionRequestView {
            client_id: self.client_id.deep_view(),
            sequence: self.sequence.deep_view(),
            transaction_id: self.transaction_id.deep_view(),
        }
    }
}

impl Model for SessionRequest {
    fn duplicate(&self) -> (copy: Self) {
        SessionRequest {
            client_id: self.client_id.duplicate(),
            sequence: self.sequence.duplicate(),
            transaction_id: self.transaction_id.duplicate(),
        }
    }

    fn same(&self, other: &Self) -> (equal: bool) {
        self.client_id.same(&other.client_id)
            && self.sequence.same(&other.sequence)
            && self.transaction_id.same(&other.transaction_id)
    }
}

/// How fresh a read has to be.
#[derive(Debug, Clone, Copy, PartialEq, Eq, Structural)]
pub enum ReadConsistency {
    Linearizable,
    Stale,
}

impl DeepView for ReadConsistency {
    type V = ReadConsistency;

    open spec fn deep_view(&self) -> ReadConsistency {
        *self
    }
}

impl Model for ReadConsistency {
    fn duplicate(&self) -> (copy: Self) {
        *self
    }

    fn same(&self, other: &Self) -> (equal: bool) {
        *self == *other
    }
}

/// What a client asks for.
#[derive(Debug, Clone, PartialEq, Eq)]
pub enum ClientOperation {
    Execute { sql: String, parameters: Vec<Value>, consistency: ReadConsistency },
    Begin,
    Commit,
    Rollback,
    Status,
    Ping,
}

/// The content of a [`ClientOperation`].
#[verifier::ext_equal]
pub enum ClientOperationView {
    Execute { sql: Seq<char>, parameters: Seq<ValueView>, consistency: ReadConsistency },
    Begin,
    Commit,
    Rollback,
    Status,
    Ping,
}

impl DeepView for ClientOperation {
    type V = ClientOperationView;

    open spec fn deep_view(&self) -> ClientOperationView {
        match self {
            ClientOperation::Execute { sql, parameters, consistency } => ClientOperationView::Execute {
                sql: sql.deep_view(),
                parameters: parameters.deep_view(),
                consistency: consistency.deep_view(),
            },
            ClientOperation::Begin => ClientOperationView::Begin,
            ClientOperation::Commit => ClientOperationView::Commit,
            ClientOperation::Rollback => ClientOperationView::Rollback,
            ClientOperation::Status => ClientOperationView::Status,
            ClientOperation::Ping => ClientOperationView::Ping,
        }
    }
}

impl Model for ClientOperation {
    fn duplicate(&self) -> (copy: Self) {
        match self {
            ClientOperation::Execute { sql, parameters, consistency } => ClientOperation::Execute {
                sql: sql.duplicate(),
                parameters: parameters.duplicate(),
                consistency: consistency.duplicate(),
            },
            ClientOperation::Begin => ClientOperation::Begin,
            ClientOperation::Commit => ClientOperation::Commit,
            ClientOperation::Rollback => ClientOperation::Rollback,
            ClientOperation::Status => ClientOperation::Status,
            ClientOperation::Ping => ClientOperation::Ping,
        }
    }

    fn same(&self, other: &Self) -> (equal: bool) {
        match (self, other) {
            (
                ClientOperation::Execute { sql, parameters, consistency },
                ClientOperation::Execute { sql: other_sql, parameters: other_parameters, consistency: other_consistency },
            ) => sql.same(other_sql)
                && parameters.same(other_parameters)
                && consistency.same(other_consistency),
            (ClientOperation::Begin, ClientOperation::Begin) => true,
            (ClientOperation::Commit, ClientOperation::Commit) => true,
            (ClientOperation::Rollback, ClientOperation::Rollback) => true,
            (ClientOperation::Status, ClientOperation::Status) => true,
            (ClientOperation::Ping, ClientOperation::Ping) => true,
            _ => false,
        }
    }
}

/// A request of a client.
#[derive(Debug, Clone, PartialEq, Eq)]
pub struct ClientRequest {
    pub request_id: u64,
    pub session: Option<SessionRequest>,
    pub operation: ClientOperation,
}

/// The content of a [`ClientRequest`].
#[verifier::ext_equal]
pub struct ClientRequestView {
    pub request_id: u64,
    pub session: Option<SessionRequestView>,
    pub operation: ClientOperationView,
}

impl DeepView for ClientRequest {
    type V = ClientRequestView;

    open spec fn deep_view(&self) -> ClientRequestView {
        ClientRequestView {
            request_id: self.request_id.deep_view(),
            session: self.session.deep_view(),
            operation: self.operation.deep_view(),
        }
    }
}

impl Model for ClientRequest {
    fn duplicate(&self) -> (copy: Self) {
        ClientRequest {
            request_id: self.request_id.duplicate(),
            session: self.session.duplicate(),
            operation: self.operation.duplicate(),
        }
    }

    fn same(&self, other: &Self) -> (equal: bool) {
        self.request_id.same(&other.request_id)
            && self.session.same(&other.session)
            && self.operation.same(&other.operation)
    }
}

/// The rows that a statement returns.
#[derive(Debug, Clone, PartialEq, Eq)]
pub struct QueryResult {
    pub columns: Vec<String>,
    pub rows: Vec<Vec<Value>>,
    pub affected_rows: u64,
    pub applied_index: u64,
    pub has_more: bool,
}

/// The content of a [`QueryResult`].
#[verifier::ext_equal]
pub struct QueryResultView {
    pub columns: Seq<Seq<char>>,
    pub rows: Seq<Seq<ValueView>>,
    pub affected_rows: u64,
    pub applied_index: u64,
    pub has_more: bool,
}

impl DeepView for QueryResult {
    type V = QueryResultView;

    open spec fn deep_view(&self) -> QueryResultView {
        QueryResultView {
            columns: self.columns.deep_view(),
            rows: self.rows.deep_view(),
            affected_rows: self.affected_rows.deep_view(),
            applied_index: self.applied_index.deep_view(),
            has_more: self.has_more.deep_view(),
        }
    }
}

impl Model for QueryResult {
    fn duplicate(&self) -> (copy: Self) {
        QueryResult {
            columns: self.columns.duplicate(),
            rows: self.rows.duplicate(),
            affected_rows: self.affected_rows.duplicate(),
            applied_index: self.applied_index.duplicate(),
            has_more: self.has_more.duplicate(),
        }
    }

    fn same(&self, other: &Self) -> (equal: bool) {
        self.columns.same(&other.columns)
            && self.rows.same(&other.rows)
            && self.affected_rows.same(&other.affected_rows)
            && self.applied_index.same(&other.applied_index)
            && self.has_more.same(&other.has_more)
    }
}

/// How a node is doing.
#[derive(Debug, Clone, PartialEq, Eq)]
pub struct NodeStatus {
    pub node_id: NodeId,
    pub role: String,
    pub term: u64,
    pub leader_id: Option<NodeId>,
    pub commit_index: u64,
    pub applied_index: u64,
    pub last_log_index: u64,
    pub snapshot_index: u64,
    pub database_pages: u64,
    pub wal_durable_lsn: u64,
    pub active_transactions: u64,
}

/// The content of a [`NodeStatus`].
#[verifier::ext_equal]
pub struct NodeStatusView {
    pub node_id: NodeId,
    pub role: Seq<char>,
    pub term: u64,
    pub leader_id: Option<NodeId>,
    pub commit_index: u64,
    pub applied_index: u64,
    pub last_log_index: u64,
    pub snapshot_index: u64,
    pub database_pages: u64,
    pub wal_durable_lsn: u64,
    pub active_transactions: u64,
}

impl DeepView for NodeStatus {
    type V = NodeStatusView;

    open spec fn deep_view(&self) -> NodeStatusView {
        NodeStatusView {
            node_id: self.node_id.deep_view(),
            role: self.role.deep_view(),
            term: self.term.deep_view(),
            leader_id: self.leader_id.deep_view(),
            commit_index: self.commit_index.deep_view(),
            applied_index: self.applied_index.deep_view(),
            last_log_index: self.last_log_index.deep_view(),
            snapshot_index: self.snapshot_index.deep_view(),
            database_pages: self.database_pages.deep_view(),
            wal_durable_lsn: self.wal_durable_lsn.deep_view(),
            active_transactions: self.active_transactions.deep_view(),
        }
    }
}

impl Model for NodeStatus {
    fn duplicate(&self) -> (copy: Self) {
        NodeStatus {
            node_id: self.node_id.duplicate(),
            role: self.role.duplicate(),
            term: self.term.duplicate(),
            leader_id: self.leader_id.duplicate(),
            commit_index: self.commit_index.duplicate(),
            applied_index: self.applied_index.duplicate(),
            last_log_index: self.last_log_index.duplicate(),
            snapshot_index: self.snapshot_index.duplicate(),
            database_pages: self.database_pages.duplicate(),
            wal_durable_lsn: self.wal_durable_lsn.duplicate(),
            active_transactions: self.active_transactions.duplicate(),
        }
    }

    fn same(&self, other: &Self) -> (equal: bool) {
        self.node_id.same(&other.node_id)
            && self.role.same(&other.role)
            && self.term.same(&other.term)
            && self.leader_id.same(&other.leader_id)
            && self.commit_index.same(&other.commit_index)
            && self.applied_index.same(&other.applied_index)
            && self.last_log_index.same(&other.last_log_index)
            && self.snapshot_index.same(&other.snapshot_index)
            && self.database_pages.same(&other.database_pages)
            && self.wal_durable_lsn.same(&other.wal_durable_lsn)
            && self.active_transactions.same(&other.active_transactions)
    }
}

/// What kind of error a client is told.
#[derive(Debug, Clone, Copy, PartialEq, Eq, Structural)]
pub enum ErrorCode {
    InvalidRequest,
    Unsupported,
    Constraint,
    Conflict,
    NotLeader,
    Timeout,
    ResourceExhausted,
    Corruption,
    Internal,
}

impl DeepView for ErrorCode {
    type V = ErrorCode;

    open spec fn deep_view(&self) -> ErrorCode {
        *self
    }
}

impl Model for ErrorCode {
    fn duplicate(&self) -> (copy: Self) {
        *self
    }

    fn same(&self, other: &Self) -> (equal: bool) {
        *self == *other
    }
}

/// An error as a client is told it.
#[derive(Debug, Clone, PartialEq, Eq)]
pub struct ProtocolError {
    pub code: ErrorCode,
    pub message: String,
    pub leader_hint: Option<String>,
    pub retryable: bool,
}

/// The content of a [`ProtocolError`].
#[verifier::ext_equal]
pub struct ProtocolErrorView {
    pub code: ErrorCode,
    pub message: Seq<char>,
    pub leader_hint: Option<Seq<char>>,
    pub retryable: bool,
}

impl DeepView for ProtocolError {
    type V = ProtocolErrorView;

    open spec fn deep_view(&self) -> ProtocolErrorView {
        ProtocolErrorView {
            code: self.code.deep_view(),
            message: self.message.deep_view(),
            leader_hint: self.leader_hint.deep_view(),
            retryable: self.retryable.deep_view(),
        }
    }
}

impl Model for ProtocolError {
    fn duplicate(&self) -> (copy: Self) {
        ProtocolError {
            code: self.code.duplicate(),
            message: self.message.duplicate(),
            leader_hint: self.leader_hint.duplicate(),
            retryable: self.retryable.duplicate(),
        }
    }

    fn same(&self, other: &Self) -> (equal: bool) {
        self.code.same(&other.code)
            && self.message.same(&other.message)
            && self.leader_hint.same(&other.leader_hint)
            && self.retryable.same(&other.retryable)
    }
}

/// The answer to a request.
#[derive(Debug, Clone, PartialEq, Eq)]
pub enum ResponseResult {
    Query(QueryResult),
    Transaction { transaction_id: u64, read_ts: u64 },
    Committed { commit_index: u64 },
    RolledBack,
    Status(NodeStatus),
    Pong,
    Error(ProtocolError),
}

/// The content of a [`ResponseResult`].
#[verifier::ext_equal]
pub enum ResponseResultView {
    Query(QueryResultView),
    Transaction { transaction_id: u64, read_ts: u64 },
    Committed { commit_index: u64 },
    RolledBack,
    Status(NodeStatusView),
    Pong,
    Error(ProtocolErrorView),
}

impl DeepView for ResponseResult {
    type V = ResponseResultView;

    open spec fn deep_view(&self) -> ResponseResultView {
        match self {
            ResponseResult::Query(a) => ResponseResultView::Query(a.deep_view()),
            ResponseResult::Transaction { transaction_id, read_ts } => ResponseResultView::Transaction {
                transaction_id: transaction_id.deep_view(),
                read_ts: read_ts.deep_view(),
            },
            ResponseResult::Committed { commit_index } => ResponseResultView::Committed {
                commit_index: commit_index.deep_view(),
            },
            ResponseResult::RolledBack => ResponseResultView::RolledBack,
            ResponseResult::Status(a) => ResponseResultView::Status(a.deep_view()),
            ResponseResult::Pong => ResponseResultView::Pong,
            ResponseResult::Error(a) => ResponseResultView::Error(a.deep_view()),
        }
    }
}

impl Model for ResponseResult {
    fn duplicate(&self) -> (copy: Self) {
        match self {
            ResponseResult::Query(a) => ResponseResult::Query(a.duplicate()),
            ResponseResult::Transaction { transaction_id, read_ts } => ResponseResult::Transaction {
                transaction_id: transaction_id.duplicate(),
                read_ts: read_ts.duplicate(),
            },
            ResponseResult::Committed { commit_index } => ResponseResult::Committed {
                commit_index: commit_index.duplicate(),
            },
            ResponseResult::RolledBack => ResponseResult::RolledBack,
            ResponseResult::Status(a) => ResponseResult::Status(a.duplicate()),
            ResponseResult::Pong => ResponseResult::Pong,
            ResponseResult::Error(a) => ResponseResult::Error(a.duplicate()),
        }
    }

    fn same(&self, other: &Self) -> (equal: bool) {
        match (self, other) {
            (ResponseResult::Query(a), ResponseResult::Query(other_a)) => a.same(other_a),
            (
                ResponseResult::Transaction { transaction_id, read_ts },
                ResponseResult::Transaction { transaction_id: other_transaction_id, read_ts: other_read_ts },
            ) => transaction_id.same(other_transaction_id)
                && read_ts.same(other_read_ts),
            (
                ResponseResult::Committed { commit_index },
                ResponseResult::Committed { commit_index: other_commit_index },
            ) => commit_index.same(other_commit_index),
            (ResponseResult::RolledBack, ResponseResult::RolledBack) => true,
            (ResponseResult::Status(a), ResponseResult::Status(other_a)) => a.same(other_a),
            (ResponseResult::Pong, ResponseResult::Pong) => true,
            (ResponseResult::Error(a), ResponseResult::Error(other_a)) => a.same(other_a),
            _ => false,
        }
    }
}

/// The response to a client.
#[derive(Debug, Clone, PartialEq, Eq)]
pub struct ClientResponse {
    pub request_id: u64,
    pub result: ResponseResult,
}

/// The content of a [`ClientResponse`].
#[verifier::ext_equal]
pub struct ClientResponseView {
    pub request_id: u64,
    pub result: ResponseResultView,
}

impl DeepView for ClientResponse {
    type V = ClientResponseView;

    open spec fn deep_view(&self) -> ClientResponseView {
        ClientResponseView {
            request_id: self.request_id.deep_view(),
            result: self.result.deep_view(),
        }
    }
}

impl Model for ClientResponse {
    fn duplicate(&self) -> (copy: Self) {
        ClientResponse {
            request_id: self.request_id.duplicate(),
            result: self.result.duplicate(),
        }
    }

    fn same(&self, other: &Self) -> (equal: bool) {
        self.request_id.same(&other.request_id)
            && self.result.same(&other.result)
    }
}

/// A message between nodes.
#[derive(Debug, Clone, PartialEq, Eq)]
pub struct PeerEnvelope {
    pub from: NodeId,
    pub to: NodeId,
    pub term: u64,
    pub correlation_id: u64,
    pub payload: Vec<u8>,
}

/// The content of a [`PeerEnvelope`].
#[verifier::ext_equal]
pub struct PeerEnvelopeView {
    pub from: NodeId,
    pub to: NodeId,
    pub term: u64,
    pub correlation_id: u64,
    pub payload: Seq<u8>,
}

impl DeepView for PeerEnvelope {
    type V = PeerEnvelopeView;

    open spec fn deep_view(&self) -> PeerEnvelopeView {
        PeerEnvelopeView {
            from: self.from.deep_view(),
            to: self.to.deep_view(),
            term: self.term.deep_view(),
            correlation_id: self.correlation_id.deep_view(),
            payload: self.payload.deep_view(),
        }
    }
}

impl Model for PeerEnvelope {
    fn duplicate(&self) -> (copy: Self) {
        PeerEnvelope {
            from: self.from.duplicate(),
            to: self.to.duplicate(),
            term: self.term.duplicate(),
            correlation_id: self.correlation_id.duplicate(),
            payload: self.payload.duplicate(),
        }
    }

    fn same(&self, other: &Self) -> (equal: bool) {
        self.from.same(&other.from)
            && self.to.same(&other.to)
            && self.term.same(&other.term)
            && self.correlation_id.same(&other.correlation_id)
            && self.payload.same(&other.payload)
    }
}

/// A message on the wire.
#[derive(Debug, Clone, PartialEq, Eq)]
pub enum WireMessage {
    Request(ClientRequest),
    Response(ClientResponse),
    Peer(PeerEnvelope),
}

/// The content of a [`WireMessage`].
#[verifier::ext_equal]
pub enum WireMessageView {
    Request(ClientRequestView),
    Response(ClientResponseView),
    Peer(PeerEnvelopeView),
}

impl DeepView for WireMessage {
    type V = WireMessageView;

    open spec fn deep_view(&self) -> WireMessageView {
        match self {
            WireMessage::Request(a) => WireMessageView::Request(a.deep_view()),
            WireMessage::Response(a) => WireMessageView::Response(a.deep_view()),
            WireMessage::Peer(a) => WireMessageView::Peer(a.deep_view()),
        }
    }
}

impl Model for WireMessage {
    fn duplicate(&self) -> (copy: Self) {
        match self {
            WireMessage::Request(a) => WireMessage::Request(a.duplicate()),
            WireMessage::Response(a) => WireMessage::Response(a.duplicate()),
            WireMessage::Peer(a) => WireMessage::Peer(a.duplicate()),
        }
    }

    fn same(&self, other: &Self) -> (equal: bool) {
        match (self, other) {
            (WireMessage::Request(a), WireMessage::Request(other_a)) => a.same(other_a),
            (WireMessage::Response(a), WireMessage::Response(other_a)) => a.same(other_a),
            (WireMessage::Peer(a), WireMessage::Peer(other_a)) => a.same(other_a),
            _ => false,
        }
    }
}

/// The kind and the payload of a frame.
#[derive(Debug, Clone, PartialEq, Eq)]
pub struct Frame {
    pub kind: u8,
    pub payload: Vec<u8>,
}

/// The content of a [`Frame`].
#[verifier::ext_equal]
pub struct FrameView {
    pub kind: u8,
    pub payload: Seq<u8>,
}

impl DeepView for Frame {
    type V = FrameView;

    open spec fn deep_view(&self) -> FrameView {
        FrameView {
            kind: self.kind.deep_view(),
            payload: self.payload.deep_view(),
        }
    }
}

impl Model for Frame {
    fn duplicate(&self) -> (copy: Self) {
        Frame {
            kind: self.kind.duplicate(),
            payload: self.payload.duplicate(),
        }
    }

    fn same(&self, other: &Self) -> (equal: bool) {
        self.kind.same(&other.kind)
            && self.payload.same(&other.payload)
    }
}
/// Why a frame or a message was not accepted.
#[derive(Debug, Clone, PartialEq, Eq)]
pub enum DecodeError {
    Incomplete,
    BadMagic,
    Version(u16),
    Kind(u8),
    Checksum,
    Limit(String),
    Payload(String),
    Io(String),
}

/// What a [`DecodeError`] says to a program.
pub enum DecodeErrorKind {
    Incomplete,
    BadMagic,
    Version(u16),
    Kind(u8),
    Checksum,
    Limit,
    Payload,
    Io,
}

impl DeepView for DecodeError {
    type V = DecodeErrorKind;

    open spec fn deep_view(&self) -> DecodeErrorKind {
        match self {
            DecodeError::Incomplete => DecodeErrorKind::Incomplete,
            DecodeError::BadMagic => DecodeErrorKind::BadMagic,
            DecodeError::Version(version) => DecodeErrorKind::Version(*version),
            DecodeError::Kind(kind) => DecodeErrorKind::Kind(*kind),
            DecodeError::Checksum => DecodeErrorKind::Checksum,
            DecodeError::Limit(_) => DecodeErrorKind::Limit,
            DecodeError::Payload(_) => DecodeErrorKind::Payload,
            DecodeError::Io(_) => DecodeErrorKind::Io,
        }
    }
}

impl DecodeError {
    /// The error as people read it.
    pub open spec fn shown(&self) -> Seq<char> {
        match self {
            DecodeError::Incomplete => "incomplete frame"@,
            DecodeError::BadMagic => "bad frame magic"@,
            DecodeError::Version(version) => "unsupported protocol version "@ + decimal(
                *version as nat,
            ),
            DecodeError::Kind(kind) => "unknown message kind "@ + decimal(*kind as nat),
            DecodeError::Checksum => "frame checksum mismatch"@,
            DecodeError::Limit(text) => "resource limit exceeded: "@ + text@,
            DecodeError::Payload(text) => "malformed payload: "@ + text@,
            DecodeError::Io(text) => "I/O error: "@ + text@,
        }
    }

    /// The error as people read it.
    pub fn describe(&self) -> (text: String)
        ensures
            text@ == self.shown(),
    {
        match self {
            DecodeError::Incomplete => "incomplete frame".to_owned(),
            DecodeError::BadMagic => "bad frame magic".to_owned(),
            DecodeError::Version(version) => labelled(
                "unsupported protocol version ",
                decimal_text(*version as u64).as_str(),
            ),
            DecodeError::Kind(kind) => labelled(
                "unknown message kind ",
                decimal_text(*kind as u64).as_str(),
            ),
            DecodeError::Checksum => "frame checksum mismatch".to_owned(),
            DecodeError::Limit(text) => labelled("resource limit exceeded: ", text.as_str()),
            DecodeError::Payload(text) => labelled("malformed payload: ", text.as_str()),
            DecodeError::Io(text) => labelled("I/O error: ", text.as_str()),
        }
    }
}

impl ClientRequestView {
    /// The statement and the parameters are not too long.
    pub open spec fn within_limits(self) -> bool {
        self.operation matches ClientOperationView::Execute { sql, parameters, .. } ==> {
            &&& encode_utf8(sql).len() <= MAX_SQL_BYTES
            &&& parameters.len() <= MAX_PARAMETERS
        }
    }
}

impl ClientResponseView {
    /// The rows are not too many.
    pub open spec fn within_limits(self) -> bool {
        self.result matches ResponseResultView::Query(query) ==> query.rows.len()
            <= MAX_ROWS_PER_FRAME
    }
}

impl WireMessageView {
    pub open spec fn kind(self) -> u8 {
        match self {
            WireMessageView::Request(_) => 1,
            WireMessageView::Response(_) => 2,
            WireMessageView::Peer(_) => 3,
        }
    }

    /// The message that arrives is not too large.
    pub open spec fn within_limits(self) -> bool {
        match self {
            WireMessageView::Request(request) => request.within_limits(),
            WireMessageView::Response(response) => response.within_limits(),
            WireMessageView::Peer(_) => true,
        }
    }

    /// The message that is sent is not too large.
    pub open spec fn sendable(self, max_frame_bytes: usize) -> bool {
        match self {
            WireMessageView::Peer(peer) => peer.payload.len() <= max_frame_bytes,
            _ => self.within_limits(),
        }
    }
}

/// The four bytes that every frame starts with.
pub open spec fn magic() -> Seq<u8> {
    seq![65u8, 83u8, 68u8, 66u8]
}

/// A frame: the magic, the version, the kind, a reserved zero, the length and
/// the checksum of the payload, and the payload.
pub open spec fn frame_bytes(kind: u8, payload: Seq<u8>) -> Seq<u8> {
    magic() + be_bytes(VERSION as nat, 2) + seq![kind, 0u8] + be_bytes(payload.len(), 4) + be_bytes(
        crc32(payload) as nat,
        4,
    ) + payload
}

/// What a buffer starts with: a whole frame, part of one, or no frame.
pub open spec fn first_frame(buffer: Seq<u8>, max_frame_bytes: usize) -> Result<
    Option<FrameView>,
    DecodeErrorKind,
> {
    if buffer.len() < HEADER_BYTES {
        Ok(None)
    } else {
        let version = be_value(buffer.subrange(4, 6));
        let kind = buffer[6];
        let length = be_value(buffer.subrange(8, 12));
        let checksum = be_value(buffer.subrange(12, 16));
        if buffer.take(4) != magic() {
            Err(DecodeErrorKind::BadMagic)
        } else if version != VERSION {
            Err(DecodeErrorKind::Version(version as u16))
        } else if buffer[7] != 0 {
            Err(DecodeErrorKind::Payload)
        } else if length > max_frame_bytes {
            Err(DecodeErrorKind::Limit)
        } else if buffer.len() < HEADER_BYTES + length {
            Ok(None)
        } else {
            let payload = buffer.subrange(HEADER_BYTES as int, HEADER_BYTES + length);
            if crc32(payload) != checksum {
                Err(DecodeErrorKind::Checksum)
            } else if !(1 <= kind <= 3) {
                Err(DecodeErrorKind::Kind(kind))
            } else {
                Ok(Some(FrameView { kind, payload }))
            }
        }
    }
}

/// A frame is read back as it was written, and what follows it stays.
pub proof fn frame_round_trip(kind: u8, payload: Seq<u8>, rest: Seq<u8>, max_frame_bytes: usize)
    requires
        1 <= kind <= 3,
        payload.len() <= max_frame_bytes,
        payload.len() <= u32::MAX,
    ensures
        first_frame(frame_bytes(kind, payload) + rest, max_frame_bytes) == Ok::<
            Option<FrameView>,
            DecodeErrorKind,
        >(Some(FrameView { kind, payload })),
        (frame_bytes(kind, payload) + rest).skip(HEADER_BYTES + payload.len()) == rest,
        frame_bytes(kind, payload).len() == HEADER_BYTES + payload.len(),
{
    frame_layout(kind, payload, rest);
    pow256_values();
    be_round_trip(VERSION as nat, 2);
    be_round_trip(payload.len(), 4);
    be_round_trip(crc32(payload) as nat, 4);
}

proof fn frame_layout(kind: u8, payload: Seq<u8>, rest: Seq<u8>)
    requires
        payload.len() <= u32::MAX,
    ensures
        ({
            let buffer = frame_bytes(kind, payload) + rest;
            &&& frame_bytes(kind, payload).len() == HEADER_BYTES + payload.len()
            &&& buffer.take(4) == magic()
            &&& buffer.subrange(4, 6) == be_bytes(VERSION as nat, 2)
            &&& buffer[6] == kind
            &&& buffer[7] == 0
            &&& buffer.subrange(8, 12) == be_bytes(payload.len(), 4)
            &&& buffer.subrange(12, 16) == be_bytes(crc32(payload) as nat, 4)
            &&& buffer.subrange(16, 16 + payload.len() as int) == payload
            &&& buffer.skip(16 + payload.len() as int) == rest
        }),
{
    be_bytes_len(VERSION as nat, 2);
    be_bytes_len(payload.len(), 4);
    be_bytes_len(crc32(payload) as nat, 4);
    let buffer = frame_bytes(kind, payload) + rest;
    assert(buffer.take(4) =~= magic());
    assert(buffer.subrange(4, 6) =~= be_bytes(VERSION as nat, 2));
    assert(buffer.subrange(8, 12) =~= be_bytes(payload.len(), 4));
    assert(buffer.subrange(12, 16) =~= be_bytes(crc32(payload) as nat, 4));
    assert(buffer.subrange(16, 16 + payload.len() as int) =~= payload);
    assert(buffer.skip(16 + payload.len() as int) =~= rest);
}

/// A part of a frame is not taken for a frame, and not refused.
pub proof fn frame_prefix_is_incomplete(
    kind: u8,
    payload: Seq<u8>,
    n: int,
    max_frame_bytes: usize,
)
    requires
        1 <= kind <= 3,
        payload.len() <= max_frame_bytes,
        payload.len() <= u32::MAX,
        0 <= n < HEADER_BYTES + payload.len(),
    ensures
        first_frame(frame_bytes(kind, payload).take(n), max_frame_bytes) == Ok::<
            Option<FrameView>,
            DecodeErrorKind,
        >(None),
{
    let none = Seq::<u8>::empty();
    let frame = frame_bytes(kind, payload);
    frame_layout(kind, payload, none);
    assert(frame + none =~= frame);
    pow256_values();
    be_round_trip(VERSION as nat, 2);
    be_round_trip(payload.len(), 4);
    if n >= HEADER_BYTES {
        let part = frame.take(n);
        assert(part.take(4) =~= frame.take(4));
        assert(part.subrange(4, 6) =~= frame.subrange(4, 6));
        assert(part.subrange(8, 12) =~= frame.subrange(8, 12));
    }
}

/// What a buffer of bytes holds.
pub uninterp spec fn buffered(buffer: BytesMut) -> Seq<u8>;

/// The growing buffer of `bytes`.
#[verifier::external_type_specification]
#[verifier::external_body]
pub struct ExBytesMut(BytesMut);

/// Calls `BytesMut::new`: the buffer holds nothing.
#[verifier::external_body]
fn empty_buffer() -> (buffer: BytesMut)
    ensures
        buffered(buffer) == Seq::<u8>::empty(),
{
    BytesMut::new()
}

/// Calls `BytesMut::extend_from_slice`: the bytes come after what the buffer
/// held. Lengths at which its allocation panics are left out.
#[verifier::external_body]
fn extend_buffer(buffer: &mut BytesMut, bytes: &[u8])
    requires
        buffered(*old(buffer)).len() + bytes@.len() <= isize::MAX / 4,
    ensures
        buffered(*final(buffer)) == buffered(*old(buffer)) + bytes@,
{
    buffer.extend_from_slice(bytes);
}

/// Calls `BytesMut::as_ref`: a view of what the buffer holds.
#[verifier::external_body]
fn buffer_bytes(buffer: &BytesMut) -> (bytes: &[u8])
    ensures
        bytes@ == buffered(*buffer),
{
    buffer.as_ref()
}

/// Calls `Buf::advance`: the first bytes are gone. More bytes than the buffer
/// holds, on which the call panics, are left out.
#[verifier::external_body]
fn advance_buffer(buffer: &mut BytesMut, count: usize)
    requires
        count <= buffered(*old(buffer)).len(),
    ensures
        buffered(*final(buffer)) == buffered(*old(buffer)).skip(count as int),
{
    buffer.advance(count);
}

fn too_many(what: &str, count: usize, limit: usize) -> (error: DecodeError)
    ensures
        error.deep_view() == DecodeErrorKind::Limit,
{
    DecodeError::Limit(
        message(&[what, " ", count.to_string().as_str(), "; maximum is ", limit.to_string().as_str()]),
    )
}

impl ClientRequest {
    /// Checks that the statement and the parameters are not too long.
    pub fn validate(&self) -> (result: Result<(), DecodeError>)
        ensures
            result is Ok == self.deep_view().within_limits(),
            result matches Err(error) ==> error.deep_view() == DecodeErrorKind::Limit,
    {
        if let ClientOperation::Execute { sql, parameters, .. } = &self.operation {
            let length: usize = sql.as_str().as_bytes().len();
            if length > MAX_SQL_BYTES {
                return Err(too_many("SQL bytes", length, MAX_SQL_BYTES));
            }
            if parameters.len() > MAX_PARAMETERS {
                return Err(too_many("request parameters", parameters.len(), MAX_PARAMETERS));
            }
        }
        Ok(())
    }
}

impl ClientResponse {
    /// Checks that the rows are not too many.
    pub fn validate(&self) -> (result: Result<(), DecodeError>)
        ensures
            result is Ok == self.deep_view().within_limits(),
            result matches Err(error) ==> error.deep_view() == DecodeErrorKind::Limit,
    {
        if let ResponseResult::Query(query) = &self.result {
            if query.rows.len() > MAX_ROWS_PER_FRAME {
                return Err(too_many("response rows", query.rows.len(), MAX_ROWS_PER_FRAME));
            }
        }
        Ok(())
    }
}

impl WireMessage {
    /// The kind of frame that carries the message.
    pub fn kind(&self) -> (kind: u8)
        ensures
            kind == self.deep_view().kind(),
    {
        match self {
            WireMessage::Request(_) => 1,
            WireMessage::Response(_) => 2,
            WireMessage::Peer(_) => 3,
        }
    }

    fn validate(&self) -> (result: Result<(), DecodeError>)
        ensures
            result is Ok == self.deep_view().within_limits(),
            result matches Err(error) ==> error.deep_view() == DecodeErrorKind::Limit,
    {
        match self {
            WireMessage::Request(request) => request.validate(),
            WireMessage::Response(response) => response.validate(),
            WireMessage::Peer(_) => Ok(()),
        }
    }
}

/// Frames a message, whose encoded form is `payload`.
pub fn encode(message: &WireMessage, payload: &Vec<u8>, max_frame_bytes: usize) -> (result: Result<
    Vec<u8>,
    DecodeError,
>)
    ensures
        match result {
            Ok(frame) => {
                &&& message.deep_view().sendable(max_frame_bytes)
                &&& payload@.len() <= max_frame_bytes
                &&& payload@.len() <= u32::MAX
                &&& frame@ == frame_bytes(message.deep_view().kind(), payload@)
            },
            Err(error) => {
                &&& error.deep_view() == DecodeErrorKind::Limit
                &&& !(message.deep_view().sendable(max_frame_bytes) && payload@.len()
                    <= max_frame_bytes && payload@.len() <= u32::MAX)
            },
        },
{
    if let WireMessage::Peer(peer) = message {
        if peer.payload.len() > max_frame_bytes {
            return Err(DecodeError::Limit("peer payload exceeds frame limit".to_owned()));
        }
    } else if let Err(error) = message.validate() {
        return Err(error);
    }
    if payload.len() > max_frame_bytes {
        return Err(too_many("frame payload bytes", payload.len(), max_frame_bytes));
    }
    if payload.len() as u64 > 0xFFFF_FFFF {
        return Err(DecodeError::Limit("payload does not fit wire length".to_owned()));
    }
    let checksum: u32 = crc32_checksum(payload.as_slice());
    let kind = message.kind();
    let mut frame: Vec<u8> = Vec::new();
    frame.push(65);
    frame.push(83);
    frame.push(68);
    frame.push(66);
    put_be(&mut frame, VERSION as u64, 2);
    frame.push(kind);
    frame.push(0);
    put_be(&mut frame, payload.len() as u64, 4);
    put_be(&mut frame, checksum as u64, 4);
    put_bytes(&mut frame, payload.as_slice());
    assert(frame@ =~= frame_bytes(kind, payload@));
    Ok(frame)
}

/// A declared payload length that is read before the payload.
pub open spec fn declared_length(header: Seq<u8>, max_frame_bytes: usize) -> Result<
    usize,
    DecodeErrorKind,
> {
    if header.take(4) != magic() {
        Err(DecodeErrorKind::BadMagic)
    } else if be_value(header.subrange(8, 12)) > max_frame_bytes {
        Err(DecodeErrorKind::Limit)
    } else {
        Ok(be_value(header.subrange(8, 12)) as usize)
    }
}

fn starts_with_magic(bytes: &[u8]) -> (starts: bool)
    requires
        bytes@.len() >= 4,
    ensures
        starts == (bytes@.take(4) == magic()),
{
    let starts = bytes[0] == 65 && bytes[1] == 83 && bytes[2] == 68 && bytes[3] == 66;
    proof {
        if starts {
            assert(bytes@.take(4) =~= magic());
        } else {
            let read = bytes@.take(4);
            assert(read[0] == bytes@[0] && read[1] == bytes@[1] && read[2] == bytes@[2] && read[3]
                == bytes@[3]);
        }
    }
    starts
}

/// Decides from a header how much payload is to be read.
pub fn payload_length(header: &[u8], max_frame_bytes: usize) -> (result: Result<usize, DecodeError>)
    requires
        header@.len() == HEADER_BYTES,
    ensures
        match result {
            Ok(length) => declared_length(header@, max_frame_bytes) == Ok::<
                usize,
                DecodeErrorKind,
            >(length),
            Err(error) => declared_length(header@, max_frame_bytes) == Err::<
                usize,
                DecodeErrorKind,
            >(error.deep_view()),
        },
{
    if !starts_with_magic(header) {
        return Err(DecodeError::BadMagic);
    }
    let length: u64 = get_be(vstd::slice::slice_subrange(header, 8, 12));
    if length > max_frame_bytes as u64 {
        return Err(
            DecodeError::Limit(
                message(
                    &[
                        "declared payload is ",
                        length.to_string().as_str(),
                        " bytes; maximum is ",
                        max_frame_bytes.to_string().as_str(),
                    ],
                ),
            ),
        );
    }
    Ok(length as usize)
}

/// Takes frames out of a stream of bytes.
pub struct FrameDecoder {
    buffer: BytesMut,
    max_frame_bytes: usize,
}

/// The content of a [`FrameDecoder`].
#[verifier::ext_equal]
pub struct FrameDecoderView {
    pub buffer: Seq<u8>,
    pub max_frame_bytes: usize,
}

impl DeepView for FrameDecoder {
    type V = FrameDecoderView;

    closed spec fn deep_view(&self) -> FrameDecoderView {
        FrameDecoderView {
            buffer: buffered(self.buffer),
            max_frame_bytes: self.max_frame_bytes,
        }
    }
}

impl FrameDecoderView {
    /// The next frame.
    pub open spec fn frame(self) -> Result<Option<FrameView>, DecodeErrorKind> {
        first_frame(self.buffer, self.max_frame_bytes)
    }

    /// What is left behind a frame.
    pub open spec fn behind(self, frame: FrameView) -> FrameDecoderView {
        FrameDecoderView { buffer: self.buffer.skip(HEADER_BYTES + frame.payload.len()), ..self }
    }
}

impl FrameDecoder {
    /// A decoder that takes payloads up to a size.
    pub fn new(max_frame_bytes: usize) -> (decoder: FrameDecoder)
        ensures
            decoder.deep_view() == (FrameDecoderView { buffer: Seq::empty(), max_frame_bytes }),
    {
        FrameDecoder { buffer: empty_buffer(), max_frame_bytes }
    }

    /// Takes more bytes of the stream.
    pub fn feed(&mut self, bytes: &[u8])
        requires
            old(self).deep_view().buffer.len() + bytes@.len() <= isize::MAX / 4,
        ensures
            final(self).deep_view() == (FrameDecoderView {
                buffer: old(self).deep_view().buffer + bytes@,
                ..old(self).deep_view()
            }),
    {
        extend_buffer(&mut self.buffer, bytes);
    }

    /// How many bytes wait for the rest of their frame.
    pub fn buffered_bytes(&self) -> (count: usize)
        ensures
            count == self.deep_view().buffer.len(),
    {
        buffer_bytes(&self.buffer).len()
    }

    /// The next frame, if it has arrived whole. It stays in the buffer until
    /// [`FrameDecoder::decode`] takes it.
    pub fn frame(&self) -> (result: Result<Option<Frame>, DecodeError>)
        ensures
            outcome(result) == self.deep_view().frame(),
    {
        let bytes = buffer_bytes(&self.buffer);
        let ghost view = bytes@;
        if bytes.len() < HEADER_BYTES {
            return Ok(None);
        }
        if !starts_with_magic(bytes) {
            return Err(DecodeError::BadMagic);
        }
        proof {
            pow256_values();
            be_value_round_trip(view.subrange(4, 6));
            be_value_round_trip(view.subrange(8, 12));
            be_value_round_trip(view.subrange(12, 16));
        }
        let version: u64 = get_be(vstd::slice::slice_subrange(bytes, 4, 6));
        if version != VERSION as u64 {
            return Err(DecodeError::Version(version as u16));
        }
        let kind: u8 = bytes[6];
        if bytes[7] != 0 {
            return Err(DecodeError::Payload("nonzero reserved frame flags".to_owned()));
        }
        let length: u64 = get_be(vstd::slice::slice_subrange(bytes, 8, 12));
        if length > self.max_frame_bytes as u64 {
            return Err(
                DecodeError::Limit(
                    message(
                        &[
                            "declared payload is ",
                            length.to_string().as_str(),
                            " bytes; maximum is ",
                            self.max_frame_bytes.to_string().as_str(),
                        ],
                    ),
                ),
            );
        }
        let length: usize = length as usize;
        if bytes.len() - HEADER_BYTES < length {
            return Ok(None);
        }
        let checksum: u64 = get_be(vstd::slice::slice_subrange(bytes, 12, 16));
        let payload = vstd::slice::slice_subrange(bytes, HEADER_BYTES, HEADER_BYTES + length);
        if crc32_checksum(payload) as u64 != checksum {
            return Err(DecodeError::Checksum);
        }
        if !(1 <= kind && kind <= 3) {
            return Err(DecodeError::Kind(kind));
        }
        let mut copy: Vec<u8> = Vec::new();
        put_bytes(&mut copy, payload);
        assert(copy@ =~= payload@);
        Ok(Some(Frame { kind, payload: copy }))
    }

    /// Takes the next frame out, where `decoded` is the message that its
    /// payload was decoded to, or why it was not. A payload that cannot be
    /// decoded leaves the frame where it is.
    pub fn decode(&mut self, decoded: Result<WireMessage, String>) -> (result: Result<
        Option<WireMessage>,
        DecodeError,
    >)
        ensures
            match old(self).deep_view().frame() {
                Err(error) => outcome(result) == Err::<Option<WireMessageView>, DecodeErrorKind>(
                    error,
                ) && final(self).deep_view() == old(self).deep_view(),
                Ok(None) => outcome(result) == Ok::<Option<WireMessageView>, DecodeErrorKind>(None)
                    && final(self).deep_view() == old(self).deep_view(),
                Ok(Some(frame)) => match decoded {
                    Err(_) => outcome(result) == Err::<Option<WireMessageView>, DecodeErrorKind>(
                        DecodeErrorKind::Payload,
                    ) && final(self).deep_view() == old(self).deep_view(),
                    Ok(message) => if message.deep_view().kind() != frame.kind {
                        outcome(result) == Err::<Option<WireMessageView>, DecodeErrorKind>(
                            DecodeErrorKind::Payload,
                        ) && final(self).deep_view() == old(self).deep_view()
                    } else {
                        &&& final(self).deep_view() == old(self).deep_view().behind(frame)
                        &&& outcome(result) == (if message.deep_view().within_limits() {
                            Ok(Some(message.deep_view()))
                        } else {
                            Err(DecodeErrorKind::Limit)
                        })
                    },
                },
            },
    {
        let ghost view = self.deep_view();
        let frame = match self.frame() {
            Ok(Some(frame)) => frame,
            Ok(None) => return Ok(None),
            Err(error) => return Err(error),
        };
        let message = match decoded {
            Ok(message) => message,
            Err(text) => return Err(DecodeError::Payload(text)),
        };
        if message.kind() != frame.kind {
            return Err(DecodeError::Payload("payload is of another kind".to_owned()));
        }
        let available: usize = self.buffered_bytes();
        assert(HEADER_BYTES + frame.payload@.len() <= available);
        advance_buffer(&mut self.buffer, HEADER_BYTES + frame.payload.len());
        if let Err(error) = message.validate() {
            return Err(error);
        }
        Ok(Some(message))
    }
}

} // verus!
