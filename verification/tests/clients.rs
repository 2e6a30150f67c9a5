//! What clients write and what servers tell them.

use aster::client::{
    client_id_from, new_client_id, protocol_result, response_result, session, sql_operation,
    RequestIds, TransactionRun, TransactionStep,
};
use aster::db::error::{DatabaseError, StorageFailure};
use aster::db::results::{CommitInfo, ExecutionResult, QueryResult, StatementKind, TransactionInfo};
use aster::db::sql::{Span, SqlError, SqlErrorKind};
use aster::engine::error::EngineError;
use aster::engine::outcome::{AbortReason, RequestRejection};
use aster::input::{
    parse_client_id, parse_peer, parse_peers, parse_sequence, parse_value, peer_map,
};
use aster::protocol::{
    ClientOperation, ClientRequest, ClientResponse, ErrorCode, NodeStatus, PeerEnvelope,
    ProtocolError, ReadConsistency, ResponseResult, SessionRequest, WireMessage,
};
use aster::raft::types::Role;
use aster::runtime::config::{IpAddress, RuntimeConfig, RuntimeStatus, SocketAddress};
use aster::runtime::control::{self, ControlResult};
use aster::runtime::error::RuntimeError;
use aster::server::{
    admit_replicated, answer_to, finish_replicated, finish_status, incoming, map_database_error,
    map_runtime_error, route_replicated, DiagnosticHandler, Incoming, ReplicatedTask, ServerConfig,
    ServerMetrics,
};
use aster::types::{Error, Row, Value};

#[test]
fn parameters_are_typed_without_sql_interpolation() {
    assert_eq!(parse_value("-9").unwrap(), Value::Int64(-9));
    assert_eq!(parse_value("text:hello").unwrap(), Value::Text("hello".into()));
    assert_eq!(parse_value("hex:00ff").unwrap(), Value::Bytes(vec![0, 255]));
    assert!(parse_value("hello").is_err());
}

#[test]
fn stable_retry_identity_is_strictly_parsed() {
    assert_eq!(
        parse_client_id("00112233445566778899aabbccddeeff").unwrap(),
        [
            0x00, 0x11, 0x22, 0x33, 0x44, 0x55, 0x66, 0x77, 0x88, 0x99, 0xaa, 0xbb, 0xcc, 0xdd,
            0xee, 0xff,
        ]
    );
    assert!(parse_client_id("0").is_err());
    assert!(parse_client_id("00000000000000000000000000000000").is_err());
    assert_eq!(parse_sequence("9").unwrap(), 9);
    assert!(parse_sequence("0").is_err());
}

#[test]
fn parameters_at_the_edges() {
    assert_eq!(parse_value("NULL").unwrap(), Value::Null);
    assert_eq!(parse_value("True").unwrap(), Value::Bool(true));
    assert_eq!(parse_value("fAlse").unwrap(), Value::Bool(false));
    assert_eq!(parse_value("text:").unwrap(), Value::Text(String::new()));
    assert_eq!(parse_value("text:λ:1").unwrap(), Value::Text("λ:1".into()));
    assert_eq!(parse_value("hex:").unwrap(), Value::Bytes(Vec::new()));
    assert_eq!(parse_value("hex:+f").unwrap(), Value::Bytes(vec![15]));
    assert!(parse_value("hex:0").is_err());
    assert!(parse_value("hex:0g").is_err());
    assert!(parse_value("hex:λ").is_err());
    assert_eq!(parse_value("+7").unwrap(), Value::Int64(7));
    assert_eq!(parse_value("-9223372036854775808").unwrap(), Value::Int64(i64::MIN));
    assert_eq!(parse_value("9223372036854775807").unwrap(), Value::Int64(i64::MAX));
    assert!(parse_value("9223372036854775808").is_err());
    assert!(parse_value("-9223372036854775809").is_err());
    assert!(parse_value("").is_err());
    assert!(parse_value("-").is_err());
    assert!(parse_value("+").is_err());
    assert_eq!(parse_sequence("+18446744073709551615").unwrap(), u64::MAX);
    assert!(parse_sequence("18446744073709551616").is_err());
    assert!(parse_sequence("-1").is_err());
    assert!(parse_client_id("+0112233445566778899aabbccddeeff0").is_err());
    assert!(parse_client_id("00112233445566778899aabbccddeef").is_err());
}

/// Reads an address of the form `a.b.c.d:port`.
fn address(text: &str) -> Option<SocketAddress> {
    let (ip, port) = text.split_once(':')?;
    let mut octets = [0; 4];
    let parts: Vec<&str> = ip.split('.').collect();
    if parts.len() != 4 {
        return None;
    }
    for (octet, part) in octets.iter_mut().zip(parts) {
        *octet = part.parse().ok()?;
    }
    Some(SocketAddress { ip: IpAddress::V4(octets), port: port.parse().ok()? })
}

#[test]
fn peer_map_parser_is_strict() {
    let peers = parse_peers(address, "1=127.0.0.1:7001,2=127.0.0.1:7002").unwrap();
    assert_eq!(peers.len(), 2);
    assert!(parse_peers(address, "1:127.0.0.1:7001").is_err());
    assert!(parse_peers(address, "1=127.0.0.1:1,1=127.0.0.1:2").is_err());
}

#[test]
fn peers_at_the_edges() {
    let peers = parse_peers(address, "3=127.0.0.1:9").unwrap();
    assert_eq!(peers.get(&3).unwrap().port, 9);
    assert!(parse_peers(address, "").is_err());
    assert!(parse_peers(address, "1=127.0.0.1:1,").is_err());
    assert!(parse_peers(address, "x=127.0.0.1:1").is_err());
    assert!(parse_peers(address, "1=nowhere").is_err());
    assert_eq!(parse_peer(address, "4=127.0.0.1:5").unwrap().0, 4);
    assert!(parse_peer(address, "0=127.0.0.1:5").is_err());
    assert!(parse_peer(address, "4").is_err());
    let one = address("127.0.0.1:1").unwrap();
    assert_eq!(peer_map(&vec![(1, one.clone()), (2, one.clone())]).unwrap().len(), 2);
    assert!(peer_map(&vec![(1, one.clone()), (1, one)]).is_err());
}

#[test]
fn client_ids_are_never_all_zero() {
    assert_eq!(client_id_from([0; 16])[0], 1);
    assert_eq!(client_id_from([0; 16])[1..], [0; 15]);
    assert_eq!(client_id_from([5; 16]), [5; 16]);
    assert_ne!(new_client_id(), [0; 16]);
    assert_ne!(new_client_id(), new_client_id());
}

#[test]
fn requests_are_numbered_and_answers_matched() {
    let mut ids = RequestIds::new();
    let first = ids.request(None, ClientOperation::Ping).unwrap();
    let second = ids.request(None, ClientOperation::Status).unwrap();
    assert_eq!((first.request_id, second.request_id), (1, 2));
    let mut last = RequestIds { next: u64::MAX };
    assert!(last.request(None, ClientOperation::Ping).is_none());

    let answer = |request_id| {
        Some(WireMessage::Response(ClientResponse { request_id, result: ResponseResult::Pong }))
    };
    assert_eq!(response_result(1, answer(1)), Ok(ResponseResult::Pong));
    assert!(response_result(1, answer(2)).is_err());
    assert!(response_result(1, None).is_err());
    assert!(response_result(1, Some(WireMessage::Request(first))).is_err());
    assert_eq!(protocol_result(ResponseResult::Pong), Ok(ResponseResult::Pong));
    assert_eq!(
        protocol_result(refused(ErrorCode::Conflict)),
        Err("Conflict: no".to_string())
    );
}

fn refused(code: ErrorCode) -> ResponseResult {
    ResponseResult::Error(ProtocolError {
        code,
        message: "no".to_string(),
        leader_hint: None,
        retryable: false,
    })
}

fn sent(step: TransactionStep) -> (SessionRequest, ClientOperation) {
    match step {
        TransactionStep::Send(session, operation) => (session, operation),
        other => panic!("nothing was sent but {other:?}"),
    }
}

const CLIENT: [u8; 16] = [6; 16];

#[test]
fn transactions_run_to_their_commit() {
    let statements = vec!["one".to_string(), "two".to_string()];
    let (mut run, step) = TransactionRun::start(statements, CLIENT, 4);
    assert_eq!(sent(step), (session(CLIENT, 4, None), ClientOperation::Begin));
    let begun = ResponseResult::Transaction { transaction_id: 9, read_ts: 3 };
    let within = session(CLIENT, 4, Some(9));
    assert_eq!(
        sent(run.step(Ok(begun))),
        (within.clone(), sql_operation("one".to_string(), Vec::new(), false))
    );
    assert_eq!(
        sent(run.step(Ok(ResponseResult::Pong))),
        (within.clone(), sql_operation("two".to_string(), Vec::new(), false))
    );
    assert_eq!(
        sent(run.step(Ok(ResponseResult::RolledBack))),
        (within, ClientOperation::Commit)
    );
    let committed = ResponseResult::Committed { commit_index: 7 };
    match run.step(Ok(committed.clone())) {
        TransactionStep::Done(results) => assert_eq!(
            results,
            vec![ResponseResult::Pong, ResponseResult::RolledBack, committed]
        ),
        other => panic!("{other:?}"),
    }
}

#[test]
fn refused_statements_are_rolled_back() {
    let (mut run, _) = TransactionRun::start(vec!["one".to_string()], CLIENT, 4);
    run.step(Ok(ResponseResult::Transaction { transaction_id: 9, read_ts: 3 }));
    assert_eq!(
        sent(run.step(Ok(refused(ErrorCode::Constraint)))),
        (session(CLIENT, 4, Some(9)), ClientOperation::Rollback)
    );
    match run.step(Err("connection lost".to_string())) {
        TransactionStep::Failed(text) => {
            assert_eq!(text, "Constraint: no; transaction rolled back")
        },
        other => panic!("{other:?}"),
    }
    let (mut run, _) = TransactionRun::start(Vec::new(), CLIENT, 4);
    match run.step(Ok(ResponseResult::Pong)) {
        TransactionStep::Failed(text) => assert_eq!(text, "BEGIN returned an unexpected response"),
        other => panic!("{other:?}"),
    }
    let operation = sql_operation("x".to_string(), Vec::new(), true);
    assert!(matches!(
        operation,
        ClientOperation::Execute { consistency: ReadConsistency::Stale, .. }
    ));
}

fn told(error: DatabaseError) -> (ErrorCode, bool) {
    let mapped = map_database_error(&error);
    assert_eq!(mapped.leader_hint, None);
    assert_eq!(mapped.message, error.describe());
    (mapped.code, mapped.retryable)
}

fn sql_error(kind: SqlErrorKind) -> SqlError {
    SqlError { kind, message: "bad".to_string(), span: Span { start: 0, end: 1 } }
}

#[test]
fn database_errors_are_told_by_code() {
    let text = || "t".to_string();
    assert_eq!(
        told(DatabaseError::Sql(sql_error(SqlErrorKind::Constraint))),
        (ErrorCode::Constraint, false)
    );
    assert_eq!(
        told(DatabaseError::Sql(sql_error(SqlErrorKind::Unsupported))),
        (ErrorCode::Unsupported, false)
    );
    assert_eq!(
        told(DatabaseError::Sql(sql_error(SqlErrorKind::Parse))),
        (ErrorCode::InvalidRequest, false)
    );
    assert_eq!(
        told(DatabaseError::Engine(EngineError::Core(Error::Conflict(text())))),
        (ErrorCode::Conflict, true)
    );
    assert_eq!(
        told(DatabaseError::Engine(EngineError::Core(Error::LimitExceeded(text())))),
        (ErrorCode::ResourceExhausted, false)
    );
    assert_eq!(
        told(DatabaseError::Engine(EngineError::CommandHashMismatch)),
        (ErrorCode::Corruption, false)
    );
    assert_eq!(
        told(DatabaseError::Engine(EngineError::InvalidSnapshot(text()))),
        (ErrorCode::Corruption, false)
    );
    for (failure, expected) in [
        (StorageFailure::ChecksumMismatch, (ErrorCode::Corruption, false)),
        (StorageFailure::KeyTooLarge, (ErrorCode::ResourceExhausted, true)),
        (StorageFailure::Io, (ErrorCode::Internal, true)),
        (StorageFailure::InjectedFault, (ErrorCode::Internal, false)),
    ] {
        assert_eq!(told(DatabaseError::Storage { failure, text: text() }), expected);
    }
    assert_eq!(told(DatabaseError::Io(text())), (ErrorCode::Internal, true));
    assert_eq!(told(DatabaseError::TransactionNotFound(4)), (ErrorCode::InvalidRequest, false));
    assert_eq!(told(DatabaseError::TransactionControl(text())), (ErrorCode::InvalidRequest, false));
    assert_eq!(
        told(DatabaseError::RequestRejected(RequestRejection::SequenceHashMismatch {
            sequence: 2
        })),
        (ErrorCode::Conflict, false)
    );
    assert_eq!(told(DatabaseError::ResourceLimit(text())), (ErrorCode::ResourceExhausted, false));
    assert_eq!(told(DatabaseError::Corruption(text())), (ErrorCode::Corruption, false));
    assert_eq!(told(DatabaseError::Invariant(text())), (ErrorCode::Internal, false));
    assert_eq!(
        DatabaseError::TransactionNotFound(4).describe(),
        "transaction 4 does not exist"
    );
}

#[test]
fn aborts_and_rejections_are_written_out() {
    let conflict = |primary_key: Value| AbortReason::WriteConflict {
        table_id: 3,
        primary_key,
        winning_commit: 12,
    };
    assert_eq!(
        DatabaseError::TransactionAborted(conflict(Value::Int64(-5))).describe(),
        "transaction aborted: \
         WriteConflict { table_id: 3, primary_key: Int64(-5), winning_commit: 12 }"
    );
    assert_eq!(
        DatabaseError::TransactionAborted(AbortReason::Validation("a \"b\"\n".to_string()))
            .describe(),
        "transaction aborted: Validation(\"a \\\"b\\\"\\n\")"
    );
    for reason in [
        conflict(Value::Null),
        conflict(Value::Int64(i64::MIN)),
        conflict(Value::Int64(i64::MAX)),
        conflict(Value::Bool(true)),
        conflict(Value::Bool(false)),
        conflict(Value::Text("it's \u{7f} \u{e9}".to_string())),
        conflict(Value::Bytes(Vec::new())),
        conflict(Value::Bytes(vec![7])),
        conflict(Value::Bytes(vec![0, 19, 255])),
        AbortReason::SchemaChanged { expected: 1, actual: 20 },
        AbortReason::SnapshotVacuumed { read_ts: 0, retained_floor: u64::MAX },
    ] {
        assert_eq!(reason.describe(), format!("{reason:?}"));
    }
    for rejection in [
        RequestRejection::FirstSequenceMustBeOne { actual: 4 },
        RequestRejection::SequenceGap { expected: 2, actual: 5 },
        RequestRejection::SequenceTooOld { latest: 9, actual: 8 },
        RequestRejection::SequenceHashMismatch { sequence: 10 },
    ] {
        assert_eq!(
            DatabaseError::RequestRejected(rejection).describe(),
            format!("client request rejected: {rejection:?}")
        );
    }
}

#[test]
fn runtime_errors_are_told_by_code() {
    let hint = map_runtime_error(&RuntimeError::NotLeader { leader_hint: Some(3) });
    assert_eq!((hint.code, hint.retryable), (ErrorCode::NotLeader, true));
    assert_eq!(hint.leader_hint, Some("3".to_string()));
    assert_eq!(hint.message, "node is not leader; leader hint: Some(3)");
    let text = || "t".to_string();
    for (error, code, retryable) in [
        (RuntimeError::ProposalBusy, ErrorCode::Conflict, true),
        (RuntimeError::Timeout, ErrorCode::Timeout, true),
        (RuntimeError::Limit(text()), ErrorCode::ResourceExhausted, true),
        (RuntimeError::Unsupported(text()), ErrorCode::Unsupported, false),
        (RuntimeError::Configuration(text()), ErrorCode::InvalidRequest, false),
        (RuntimeError::Corruption(text()), ErrorCode::Corruption, false),
        (RuntimeError::CommandRejected(text()), ErrorCode::Conflict, false),
        (RuntimeError::Io(text()), ErrorCode::Internal, true),
        (RuntimeError::Shutdown, ErrorCode::Internal, true),
        (RuntimeError::Fenced(text()), ErrorCode::Internal, false),
        (
            RuntimeError::Database(DatabaseError::Corruption(text())),
            ErrorCode::Corruption,
            false,
        ),
    ] {
        let mapped = map_runtime_error(&error);
        assert_eq!((mapped.code, mapped.retryable), (code, retryable), "{error:?}");
    }
}

fn request(session: Option<SessionRequest>, operation: ClientOperation) -> ClientRequest {
    ClientRequest { request_id: 1, session, operation }
}

fn refusal(task: ReplicatedTask) -> ErrorCode {
    match task {
        ReplicatedTask::Answer(ResponseResult::Error(error)) => error.code,
        other => panic!("{other:?}"),
    }
}

fn routed(
    parsed: Result<StatementKind, SqlError>,
    consistency: ReadConsistency,
) -> ReplicatedTask {
    route_replicated(session(CLIENT, 1, None), "sql".to_string(), Vec::new(), consistency, parsed)
}

#[test]
fn replicated_requests_are_routed() {
    assert!(matches!(
        admit_replicated(request(None, ClientOperation::Ping)),
        ReplicatedTask::Answer(ResponseResult::Pong)
    ));
    assert!(matches!(
        admit_replicated(request(None, ClientOperation::Status)),
        ReplicatedTask::Status
    ));
    for operation in [ClientOperation::Begin, ClientOperation::Commit, ClientOperation::Rollback] {
        let task = admit_replicated(request(Some(session(CLIENT, 1, None)), operation));
        assert_eq!(refusal(task), ErrorCode::Unsupported);
    }
    let execute = || sql_operation("sql".to_string(), Vec::new(), false);
    for bad in [None, Some(session(CLIENT, 0, None)), Some(session(CLIENT, 1, Some(2)))] {
        assert_eq!(
            refusal(admit_replicated(request(bad, execute()))),
            ErrorCode::InvalidRequest
        );
    }
    assert!(matches!(
        admit_replicated(request(Some(session(CLIENT, 1, None)), execute())),
        ReplicatedTask::Parse { ref sql, .. } if sql == "sql"
    ));

    let fresh = ReadConsistency::Linearizable;
    for kind in [
        StatementKind::CreateTable,
        StatementKind::CreateIndex,
        StatementKind::Insert,
        StatementKind::Update,
        StatementKind::Delete,
    ] {
        assert!(matches!(routed(Ok(kind), fresh), ReplicatedTask::Propose { .. }));
    }
    for kind in [StatementKind::Select, StatementKind::Explain] {
        assert!(matches!(routed(Ok(kind), fresh), ReplicatedTask::Query { .. }));
        assert_eq!(refusal(routed(Ok(kind), ReadConsistency::Stale)), ErrorCode::Unsupported);
    }
    assert_eq!(refusal(routed(Ok(StatementKind::Begin), fresh)), ErrorCode::Unsupported);
    assert_eq!(
        refusal(routed(Err(sql_error(SqlErrorKind::Lex)), fresh)),
        ErrorCode::InvalidRequest
    );
}

fn runtime_status() -> RuntimeStatus {
    RuntimeStatus {
        node_id: 2,
        role: Role::PreCandidate,
        term: 5,
        leader_id: None,
        commit_index: 8,
        applied_index: 7,
        last_log_index: 9,
        database_applied_index: 7,
        database_pages: 4,
        wal_bytes: 512,
        active_transactions: 0,
        snapshot_index: Some(3),
        snapshot_bytes: Some(10),
        retained_log_entries: 6,
        retained_log_bytes: 60,
    }
}

#[test]
fn replicated_answers_are_told() {
    let query = QueryResult {
        columns: vec!["id".to_string()],
        rows: vec![Row { values: vec![Value::Int64(1)] }],
        affected_rows: 0,
        applied_index: 7,
    };
    match finish_replicated(Ok(ExecutionResult::Query(query))) {
        ResponseResult::Query(told) => {
            assert_eq!(told.rows, vec![vec![Value::Int64(1)]]);
            assert!(!told.has_more);
        },
        other => panic!("{other:?}"),
    }
    let plan = ExecutionResult::Explain { plan: "scan".to_string(), applied_index: 7 };
    match finish_replicated(Ok(plan)) {
        ResponseResult::Query(told) => {
            assert_eq!(told.columns, vec!["plan".to_string()]);
            assert_eq!(told.rows, vec![vec![Value::Text("scan".to_string())]]);
        },
        other => panic!("{other:?}"),
    }
    let begun = TransactionInfo { transaction_id: 1, read_ts: 1 };
    assert!(matches!(
        finish_replicated(Ok(ExecutionResult::Transaction(begun))),
        ResponseResult::Error(ProtocolError { code: ErrorCode::Internal, .. })
    ));
    assert!(matches!(
        finish_replicated(Err(RuntimeError::Timeout)),
        ResponseResult::Error(ProtocolError { code: ErrorCode::Timeout, .. })
    ));
    match finish_status(Ok(runtime_status())) {
        ResponseResult::Status(told) => {
            assert_eq!(told.role, "precandidate");
            assert_eq!(told.wal_durable_lsn, 512);
            assert_eq!(told.snapshot_index, 0);
        },
        other => panic!("{other:?}"),
    }
    let committed = CommitInfo {
        commit_index: 1,
        affected_rows: 1,
        schema_epoch: 1,
        applied_index: 1,
    };
    assert!(control::map_execution(ExecutionResult::Committed(committed)).is_err());
    assert!(matches!(
        control::map_execution(ExecutionResult::Explain {
            plan: "scan".to_string(),
            applied_index: 7,
        }),
        Ok(ControlResult::Explain { applied_index: 7, .. })
    ));
}

#[test]
fn servers_without_a_database_tell_their_status() {
    let status = NodeStatus {
        node_id: 7,
        role: "standalone".into(),
        term: 0,
        leader_id: Some(7),
        commit_index: 0,
        applied_index: 0,
        last_log_index: 0,
        snapshot_index: 0,
        database_pages: 2,
        wal_durable_lsn: 0,
        active_transactions: 0,
    };
    let handler = DiagnosticHandler::new(status.clone());
    let ask = |operation| handler.handle(&request(None, operation)).result;
    assert_eq!(ask(ClientOperation::Ping), ResponseResult::Pong);
    assert_eq!(ask(ClientOperation::Status), ResponseResult::Status(status));
    assert!(matches!(
        ask(ClientOperation::Begin),
        ResponseResult::Error(ProtocolError { code: ErrorCode::Unsupported, message, .. })
            if message == "no database engine is configured"
    ));
    assert_eq!(ServerConfig::default().max_connections, 1024);

    let mut metrics = ServerMetrics::default();
    metrics.opened();
    metrics.answered();
    metrics.refused();
    metrics.closed(true);
    let counted = metrics.snapshot();
    assert_eq!(counted.accepted_connections, 1);
    assert_eq!(counted.active_connections, 0);
    assert_eq!(counted.completed_requests, 1);
    assert_eq!(counted.rejected_connections, 1);
    assert_eq!(counted.protocol_errors, 1);

    let late = answer_to(5, None);
    assert_eq!(late.request_id, 5);
    assert!(matches!(
        late.result,
        ResponseResult::Error(ProtocolError {
            code: ErrorCode::Timeout,
            retryable: true,
            message,
            ..
        }) if message == "request execution timed out"
    ));
    let wrong = ClientResponse { request_id: 9, result: ResponseResult::Pong };
    assert_eq!(answer_to(5, Some(wrong)).request_id, 5);
    assert_eq!(incoming(None), Incoming::Closed);
    let ping = request(None, ClientOperation::Ping);
    assert_eq!(
        incoming(Some(WireMessage::Request(ping.clone()))),
        Incoming::Request(ping)
    );
    let peer = PeerEnvelope { from: 1, to: 2, term: 1, correlation_id: 1, payload: Vec::new() };
    assert_eq!(incoming(Some(WireMessage::Peer(peer))), Incoming::Foreign);
}

#[test]
fn nodes_take_messages_of_their_peers_only() {
    let peers = parse_peers(address, "1=127.0.0.1:1,2=127.0.0.1:2").unwrap();
    let sender = RuntimeConfig::localhost(1, peers, "one".to_string());
    let peers = parse_peers(address, "1=127.0.0.1:1,2=127.0.0.1:2").unwrap();
    let receiver = RuntimeConfig::localhost(2, peers, "two".to_string());
    assert!(sender.validate().is_ok());
    let envelope = sender.envelope(2, 4, 1, vec![1, 2, 3]).unwrap();
    assert!(receiver.accepts(&envelope));
    assert!(!sender.accepts(&envelope));
    assert!(matches!(sender.envelope(3, 4, 1, Vec::new()), Err(RuntimeError::Fenced(_))));
    let mut small = sender.clone();
    small.max_frame_bytes = 2;
    assert!(matches!(small.envelope(2, 4, 1, vec![1, 2, 3]), Err(RuntimeError::Limit(_))));
    let remote = parse_peers(address, "1=10.0.0.1:1").unwrap();
    assert!(RuntimeConfig::localhost(1, remote, "far".to_string()).validate().is_err());
}
