//! The database behind a small front end for the statements used here.

use std::cell::RefCell;
use std::collections::HashMap;

use aster::db::catalog::EngineCatalog;
use aster::db::database::Database;
use aster::db::error::DatabaseError;
use aster::db::requests::DurableRequests;
use aster::db::results::{
    CheckpointInfo, CommitInfo, DatabaseOptions, DatabaseSnapshot, DatabaseSnapshotEnvelope,
    ExecutionResult, MutationPreparation, Prepared, QueryResult, ReplicatedMutation, StatementKind,
    StorageStatus,
};
use aster::db::scalar::Scalars;
use aster::db::sql::{
    AggregateFunction, Assignment, BinaryOp, BoundExpr, BoundOrder, BoundStatement, JoinAlgorithm,
    OrderDirection, OutputColumn, PhysicalPlan, Span, SqlError, SqlErrorKind, TableDef,
};
use aster::engine::outcome::RequestRejection;
use aster::engine::state::Engine;
use aster::handler::{respond, DatabaseHandler};
use aster::model::Model;
use aster::ordmap::OrdMap;
use aster::protocol::{
    ClientOperation, ClientRequest, ErrorCode, ReadConsistency, ResponseResult, SessionRequest,
};
use aster::raft::configuration::Configuration;
use aster::raft::types::{HardState, PersistentSnapshot, StableState};
use aster::runtime::stable::{PendingSnapshotInstall, StableStore};
use aster::types::{Column, DataType, Row, Schema, Value};

const CLIENT: [u8; 16] = [3; 16];
const SPAN: Span = Span { start: 0, end: 0 };

type Failure = DatabaseError;

// ---- the front end ----

fn sql_error(kind: SqlErrorKind, message: &str) -> SqlError {
    SqlError { kind, message: message.to_string(), span: SPAN }
}

fn tokens(sql: &str) -> Vec<String> {
    let mut found = Vec::new();
    let mut chars = sql.chars().peekable();
    while let Some(c) = chars.next() {
        if c.is_whitespace() {
            continue;
        }
        let mut token = c.to_string();
        if c == '\'' {
            for next in chars.by_ref() {
                token.push(next);
                if next == '\'' {
                    break;
                }
            }
        } else if c.is_alphanumeric() || c == '_' {
            while let Some(next) = chars.peek() {
                if next.is_alphanumeric() || *next == '_' || *next == '.' {
                    token.push(*next);
                    chars.next();
                } else {
                    break;
                }
            }
        } else if c == '>' && chars.peek() == Some(&'=') {
            token.push('=');
            chars.next();
        }
        found.push(token);
    }
    found
}

fn kind_of(sql: &str) -> StatementKind {
    let words = tokens(sql);
    match (words[0].as_str(), words.get(1).map(String::as_str)) {
        ("CREATE", Some("TABLE")) => StatementKind::CreateTable,
        ("CREATE", _) => StatementKind::CreateIndex,
        ("INSERT", _) => StatementKind::Insert,
        ("UPDATE", _) => StatementKind::Update,
        ("SELECT", _) => StatementKind::Select,
        ("BEGIN", _) => StatementKind::Begin,
        ("ROLLBACK", _) => StatementKind::Rollback,
        _ => panic!("unknown statement {sql}"),
    }
}

fn table(catalog: &EngineCatalog, name: &str) -> Result<TableDef, SqlError> {
    catalog
        .tables
        .iter()
        .find(|table| table.name == name)
        .cloned()
        .ok_or(sql_error(SqlErrorKind::Bind, "unknown table"))
}

fn column(tables: &[TableDef], name: &str) -> Result<BoundExpr, SqlError> {
    let (of, name) = match name.split_once('.') {
        Some((of, name)) => (Some(of), name),
        None => (None, name),
    };
    for table in tables {
        if of.is_some() && of != Some(table.name.as_str()) {
            continue;
        }
        let found = table.schema.columns.iter().position(|column| column.name == name);
        if let Some(column_index) = found {
            return Ok(BoundExpr::Column { table_id: table.id, column_index, span: SPAN });
        }
    }
    Err(sql_error(SqlErrorKind::Bind, "unknown column"))
}

fn expression(tables: &[TableDef], token: &str) -> Result<BoundExpr, SqlError> {
    let value = match token {
        "NULL" => Value::Null,
        "true" => Value::Bool(true),
        "false" => Value::Bool(false),
        "?" => return Ok(BoundExpr::Parameter { index: 0, span: SPAN }),
        _ => {
            if let Ok(number) = token.parse::<i64>() {
                Value::Int64(number)
            } else if token.starts_with('\'') {
                Value::Text(token.trim_matches('\'').to_string())
            } else {
                return column(tables, token);
            }
        },
    };
    Ok(BoundExpr::Literal { value, span: SPAN })
}

fn condition(tables: &[TableDef], words: &[String]) -> Result<BoundExpr, SqlError> {
    Ok(BoundExpr::Binary {
        left: Box::new(expression(tables, &words[0])?),
        op: if words[1] == "=" { BinaryOp::Eq } else { BinaryOp::GtEq },
        right: Box::new(expression(tables, &words[2])?),
        span: SPAN,
    })
}

fn total(tables: &[TableDef], name: &str) -> Result<BoundExpr, SqlError> {
    Ok(BoundExpr::Aggregate {
        function: AggregateFunction::Sum,
        argument: Some(Box::new(column(tables, name)?)),
        span: SPAN,
    })
}

fn after<'a>(words: &'a [String], word: &str) -> Option<&'a [String]> {
    words.iter().position(|found| found == word).map(|at| &words[at + 1..])
}

fn statement(sql: &str, catalog: &EngineCatalog) -> Result<Prepared, SqlError> {
    let words = tokens(sql);
    let mut plan = None;
    let mut plan_text = None;
    let statement = match kind_of(sql) {
        StatementKind::CreateTable => {
            let inner = &words[4..words.len() - 1];
            let columns = inner
                .split(|word| word == ",")
                .map(|column| Column {
                    name: column[0].clone(),
                    data_type: match column[1].as_str() {
                        "INT64" => DataType::Int64,
                        "TEXT" => DataType::Text,
                        _ => DataType::Bool,
                    },
                    nullable: column.len() == 2,
                    primary_key: column.len() > 2 && column[2] == "PRIMARY",
                })
                .collect();
            BoundStatement::CreateTable { name: words[2].clone(), schema: Schema { columns } }
        },
        StatementKind::CreateIndex => {
            let table = table(catalog, &words[4])?;
            let BoundExpr::Column { column_index, .. } = column(&[table.clone()], &words[6])? else {
                unreachable!()
            };
            BoundStatement::CreateIndex { name: words[2].clone(), table, column_index }
        },
        StatementKind::Insert => {
            let table = table(catalog, &words[2])?;
            let mut values = Vec::new();
            for word in words[5..words.len() - 1].iter().filter(|word| *word != ",") {
                values.push(expression(&[], word)?);
            }
            BoundStatement::Insert { table, values }
        },
        StatementKind::Update => {
            let table = table(catalog, &words[1])?;
            let tables = [table.clone()];
            let BoundExpr::Column { column_index, .. } = column(&tables, &words[3])? else {
                unreachable!()
            };
            let assignments =
                vec![Assignment { column: column_index, value: expression(&tables, &words[5])? }];
            let selection = match after(&words, "WHERE") {
                Some(rest) => Some(condition(&tables, rest)?),
                None => None,
            };
            BoundStatement::Update { table, assignments, selection }
        },
        _ => {
            let from = after(&words, "FROM").unwrap();
            let mut tables = vec![table(catalog, &from[0])?];
            let mut input = PhysicalPlan::SeqScan { table: tables[0].clone() };
            if let Some(rest) = after(&words, "JOIN") {
                let right = table(catalog, &rest[0])?;
                tables.push(right.clone());
                input = PhysicalPlan::Join {
                    left: Box::new(input),
                    right: Box::new(PhysicalPlan::SeqScan { table: right }),
                    on: condition(&tables, &rest[2..])?,
                    algorithm: JoinAlgorithm::Hash,
                };
            }
            if let Some(rest) = after(&words, "WHERE") {
                let predicate = condition(&tables, rest)?;
                input = PhysicalPlan::Filter { input: Box::new(input), predicate };
            }
            let list = &words[1..words.iter().position(|word| word == "FROM").unwrap()];
            let sum = after(list, "SUM").map(|rest| rest[1].clone());
            if let Some(rest) = after(&words, "GROUP") {
                input = PhysicalPlan::HashAggregate {
                    input: Box::new(input),
                    group_by: vec![column(&tables, &rest[1])?],
                    aggregates: vec![total(&tables, sum.as_ref().unwrap())?],
                };
            }
            if let Some(rest) = after(&words, "ORDER") {
                let descending = rest.get(2).map(String::as_str) == Some("DESC");
                let expr = match &sum {
                    Some(name) => total(&tables, name)?,
                    None => column(&tables, &rest[1])?,
                };
                let direction =
                    if descending { OrderDirection::Desc } else { OrderDirection::Asc };
                input = PhysicalPlan::Sort {
                    input: Box::new(input),
                    order_by: vec![BoundOrder { expr, direction }],
                };
            }
            if let Some(rest) = after(&words, "LIMIT") {
                let limit = expression(&[], &rest[0])?;
                input = PhysicalPlan::Limit { input: Box::new(input), limit };
            }
            let outputs = || -> Result<Vec<OutputColumn>, SqlError> {
                let mut found = Vec::new();
                for item in list.split(|word| word == ",") {
                    let expr = match item[0].as_str() {
                        "SUM" => total(&tables, &item[2])?,
                        name => column(&tables, name)?,
                    };
                    found.push(OutputColumn { expr, name: item[item.len() - 1].clone() });
                }
                Ok(found)
            };
            plan_text = Some("plan".to_string());
            plan = Some(PhysicalPlan::Project {
                input: Box::new(input),
                expressions: outputs()?,
            });
            BoundStatement::Query { output: outputs()? }
        },
    };
    Ok(Prepared { statement, plan, plan_text })
}

/// Where the column of a table stands in a row: rows of the second table come
/// behind the two columns of the first where both are joined.
fn position(row: &Row, table_id: u64, column_index: usize) -> usize {
    if row.values.len() == 5 && table_id == 2 { column_index + 2 } else { column_index }
}

fn value_of(expr: &BoundExpr, row: &Row, parameters: &Vec<Value>) -> Result<Value, SqlError> {
    match expr {
        BoundExpr::Literal { value, .. } => Ok(value.clone()),
        BoundExpr::Parameter { index, .. } => parameters
            .get(*index)
            .cloned()
            .ok_or(sql_error(SqlErrorKind::Bind, "missing parameter")),
        BoundExpr::Column { table_id, column_index, .. } => {
            Ok(row.values[position(row, *table_id, *column_index)].clone())
        },
        BoundExpr::Binary { left, op, right, .. } => {
            let left = value_of(left, row, parameters)?;
            let right = value_of(right, row, parameters)?;
            match (left, right) {
                (Value::Null, _) | (_, Value::Null) => Ok(Value::Null),
                (Value::Int64(a), Value::Int64(b)) => {
                    Ok(Value::Bool(if *op == BinaryOp::Eq { a == b } else { a >= b }))
                },
                (a, b) => Ok(Value::Bool(a == b)),
            }
        },
        other => panic!("unexpected expression {other:?}"),
    }
}

fn holds(expr: &BoundExpr, row: &Row, parameters: &Vec<Value>) -> Result<bool, SqlError> {
    Ok(value_of(expr, row, parameters)? == Value::Bool(true))
}

// ---- a database with a disk in memory ----

struct Disk {
    stored: RefCell<Option<(Engine, DurableRequests)>>,
    mutations: RefCell<HashMap<Vec<u8>, ReplicatedMutation>>,
    snapshots: RefCell<HashMap<Vec<u8>, DatabaseSnapshotEnvelope>>,
    broken: RefCell<bool>,
}

impl Disk {
    fn new() -> Disk {
        Disk {
            stored: RefCell::new(None),
            mutations: RefCell::new(HashMap::new()),
            snapshots: RefCell::new(HashMap::new()),
            broken: RefCell::new(false),
        }
    }

    fn open(&self) -> Node<'_> {
        let database = match &*self.stored.borrow() {
            Some((engine, requests)) => Database::open(engine.clone(), requests.duplicate()),
            None => Database::open(Engine::new(), OrdMap::new()),
        };
        Node { database: database.unwrap(), disk: self }
    }

    fn store(&self, engine: &Engine, requests: &DurableRequests) -> Result<(), Failure> {
        if *self.broken.borrow() {
            return Err(DatabaseError::Io("disk is broken".to_string()));
        }
        *self.stored.borrow_mut() = Some((engine.clone(), requests.duplicate()));
        Ok(())
    }

    fn applied(&self) -> u64 {
        self.stored.borrow().as_ref().map_or(0, |(engine, _)| engine.last_applied())
    }
}

struct Node<'a> {
    database: Database,
    disk: &'a Disk,
}

impl Node<'_> {
    fn execute(
        &mut self,
        client: [u8; 16],
        sequence: u64,
        transaction_id: Option<u64>,
        sql: &str,
        parameters: &[Value],
    ) -> Result<ExecutionResult, Failure> {
        let disk = self.disk;
        self.database.execute(
            &Scalars { evaluate: value_of, matches: holds },
            |catalog: &EngineCatalog, _: &EngineCatalog| {
                statement(sql, catalog).map_err(DatabaseError::Sql)
            },
            |engine: &Engine, requests: &DurableRequests| disk.store(engine, requests),
            kind_of(sql),
            client,
            sequence,
            transaction_id,
            sql,
            &parameters.to_vec(),
        )
    }

    fn query(&mut self, sequence: u64, sql: &str) -> QueryResult {
        match self.execute(CLIENT, sequence, None, sql, &[]).unwrap() {
            ExecutionResult::Query(result) => result,
            other => panic!("expected query result, got {other:?}"),
        }
    }

    fn read_only(&mut self, sql: &str) -> Result<ExecutionResult, Failure> {
        let disk = self.disk;
        self.database.execute_read_only(
            &Scalars { evaluate: value_of, matches: holds },
            |catalog: &EngineCatalog, _: &EngineCatalog| {
                statement(sql, catalog).map_err(DatabaseError::Sql)
            },
            |engine: &Engine, requests: &DurableRequests| disk.store(engine, requests),
            kind_of(sql),
            CLIENT,
            99,
            sql,
            &Vec::new(),
        )
    }

    fn commit(&mut self, sequence: u64, transaction_id: u64) -> Result<CommitInfo, Failure> {
        let disk = self.disk;
        self.database.commit(
            |engine: &Engine, requests: &DurableRequests| disk.store(engine, requests),
            CLIENT,
            sequence,
            transaction_id,
        )
    }

    fn noop(&mut self, index: u64, term: u64) -> Result<(), Failure> {
        let disk = self.disk;
        self.database
            .apply_raft_noop(
                |engine: &Engine, requests: &DurableRequests| disk.store(engine, requests),
                index,
                term,
            )
            .map(|_| ())
    }

    fn prepare(
        &mut self,
        term: u64,
        client: [u8; 16],
        sequence: u64,
        sql: &str,
    ) -> Result<MutationPreparation, Failure> {
        let disk = self.disk;
        self.database.prepare_replicated_mutation(
            &Scalars { evaluate: value_of, matches: holds },
            |catalog: &EngineCatalog, _: &EngineCatalog| {
                statement(sql, catalog).map_err(DatabaseError::Sql)
            },
            |mutation: &ReplicatedMutation| {
                let bytes = format!("{mutation:?}").into_bytes();
                disk.mutations.borrow_mut().insert(bytes.clone(), mutation.duplicate());
                Ok(bytes)
            },
            kind_of(sql),
            term,
            client,
            sequence,
            sql,
            &Vec::new(),
        )
    }

    fn proposal(&mut self, term: u64, client: [u8; 16], sequence: u64, sql: &str) -> Vec<u8> {
        match self.prepare(term, client, sequence, sql).unwrap() {
            MutationPreparation::Propose(prepared) => prepared.bytes().to_vec(),
            MutationPreparation::Replay(_) => panic!("request unexpectedly replayed"),
        }
    }

    fn apply(
        &mut self,
        index: u64,
        bytes: &Vec<u8>,
        decoded: Option<ReplicatedMutation>,
    ) -> Result<ExecutionResult, Failure> {
        let disk = self.disk;
        self.database.apply_replicated(
            |engine: &Engine, requests: &DurableRequests| disk.store(engine, requests),
            index,
            bytes,
            decoded,
        )
    }

    fn applied(&self) -> u64 {
        self.database.status(storage(self.database.engine().last_applied())).unwrap().applied_index
    }

    fn snapshot(&mut self) -> Result<DatabaseSnapshot, Failure> {
        let disk = self.disk;
        let applied = disk.applied();
        self.database.create_snapshot(
            || Ok(applied),
            |envelope: &DatabaseSnapshotEnvelope| {
                let bytes = format!("{envelope:?}").into_bytes();
                disk.snapshots.borrow_mut().insert(bytes.clone(), envelope.duplicate());
                Ok(bytes)
            },
        )
    }

    fn install(
        &mut self,
        expected: Option<u64>,
        bytes: &[u8],
        decoded: Option<DatabaseSnapshotEnvelope>,
    ) -> Result<(), Failure> {
        let disk = self.disk;
        let persist =
            |engine: &Engine, requests: &DurableRequests| disk.store(engine, requests);
        match expected {
            Some(index) => {
                self.database.install_snapshot_at(persist, index, bytes.len(), decoded).map(|_| ())
            },
            None => self.database.install_snapshot(persist, bytes.len(), decoded).map(|_| ()),
        }
    }
}

fn storage(applied_index: u64) -> StorageStatus {
    StorageStatus {
        applied_index,
        database_pages: 4,
        wal_bytes: 512,
        checkpoint_lsn: 0,
        root_page: Some(1),
        recovery_groups_examined: 0,
        recovery_groups_replayed: 0,
        recovery_pages_replayed: 0,
    }
}

fn row(values: &[Value]) -> Row {
    Row { values: values.to_vec() }
}

fn text(value: &str) -> Value {
    Value::Text(value.to_string())
}

#[test]
fn durable_sql_vertical_slice_survives_reopen() {
    let disk = Disk::new();
    {
        let mut database = disk.open();
        database.query(
            1,
            "CREATE TABLE users (id INT64 PRIMARY KEY, name TEXT NOT NULL, active BOOL)",
        );
        database.query(2, "INSERT INTO users VALUES (1, 'Ada', true)");
        database.query(3, "INSERT INTO users VALUES (2, 'Grace', false)");
        let result =
            database.query(99, "SELECT id, name FROM users WHERE active = true ORDER BY id");
        assert_eq!(result.rows, vec![row(&[Value::Int64(1), text("Ada")])]);
        assert_eq!(database.applied(), 3);
    }
    {
        let mut reopened = disk.open();
        let result = reopened.query(100, "SELECT name FROM users ORDER BY id");
        assert_eq!(result.rows, vec![row(&[text("Ada")]), row(&[text("Grace")])]);
        assert_eq!(reopened.applied(), 3);
    }
}

#[test]
fn explicit_commit_rollback_and_retry_are_correct() {
    let disk = Disk::new();
    let mut database = disk.open();
    database.query(1, "CREATE TABLE accounts (id INT64 PRIMARY KEY, balance INT64 NOT NULL)");

    let rolled_back = database.database.begin().unwrap();
    database
        .execute(
            CLIENT,
            2,
            Some(rolled_back.transaction_id),
            "INSERT INTO accounts VALUES (1, 10)",
            &[],
        )
        .unwrap();
    database.database.rollback(rolled_back.transaction_id).unwrap();
    assert!(database.query(88, "SELECT id FROM accounts").rows.is_empty());

    let transaction = database.database.begin().unwrap();
    database
        .execute(
            CLIENT,
            2,
            Some(transaction.transaction_id),
            "INSERT INTO accounts VALUES (1, 10)",
            &[],
        )
        .unwrap();
    let committed = database.commit(2, transaction.transaction_id).unwrap();
    assert_eq!(committed.affected_rows, 1);
    let retry = database.commit(2, transaction.transaction_id).unwrap();
    assert_eq!(retry, committed);
    assert_eq!(
        database.query(89, "SELECT balance FROM accounts").rows,
        vec![row(&[Value::Int64(10)])]
    );
}

#[test]
fn index_join_aggregate_parameters_and_checkpoint() {
    let disk = Disk::new();
    let mut database = disk.open();
    database.query(1, "CREATE TABLE teams (id INT64 PRIMARY KEY, name TEXT NOT NULL)");
    database.query(
        2,
        "CREATE TABLE scores (id INT64 PRIMARY KEY, team_id INT64 NOT NULL, points INT64)",
    );
    database.query(3, "INSERT INTO teams VALUES (1, 'red')");
    database.query(4, "INSERT INTO teams VALUES (2, 'blue')");
    database.query(5, "INSERT INTO scores VALUES (10, 1, 7)");
    database.query(6, "INSERT INTO scores VALUES (11, 1, 5)");
    database.query(7, "INSERT INTO scores VALUES (12, 2, 3)");
    database.query(8, "CREATE INDEX scores_team ON scores (team_id)");

    let result = database
        .execute(
            CLIENT,
            77,
            None,
            "SELECT teams.name, SUM(scores.points) AS total FROM teams JOIN scores ON teams.id = scores.team_id WHERE scores.team_id >= ? GROUP BY teams.name ORDER BY total DESC LIMIT 2",
            &[Value::Int64(1)],
        )
        .unwrap();
    let ExecutionResult::Query(result) = result else {
        panic!("expected query result");
    };
    assert_eq!(
        result.rows,
        vec![row(&[text("red"), Value::Int64(12)]), row(&[text("blue"), Value::Int64(3)])]
    );
    let durable = CheckpointInfo { applied_index: disk.applied(), checkpoint_lsn: 9, through_lsn: 8 };
    let checkpoint = database.database.checkpoint(durable).unwrap();
    assert_eq!(checkpoint.applied_index, 8);
    assert!(checkpoint.checkpoint_lsn > 0);
    let behind = CheckpointInfo { applied_index: 7, checkpoint_lsn: 9, through_lsn: 8 };
    assert!(database.database.checkpoint(behind).is_err());
}

#[test]
fn statement_error_does_not_partially_change_explicit_transaction() {
    let disk = Disk::new();
    let mut database = disk.open();
    database.query(1, "CREATE TABLE numbers (id INT64 PRIMARY KEY, value INT64 NOT NULL)");
    database.query(2, "INSERT INTO numbers VALUES (1, 10)");
    database.query(3, "INSERT INTO numbers VALUES (2, 20)");
    let transaction = database.database.begin().unwrap();
    assert!(
        database
            .execute(
                CLIENT,
                4,
                Some(transaction.transaction_id),
                "UPDATE numbers SET value = NULL",
                &[],
            )
            .is_err()
    );
    database.commit(4, transaction.transaction_id).unwrap();
    assert_eq!(
        database.query(90, "SELECT value FROM numbers ORDER BY id").rows,
        vec![row(&[Value::Int64(10)]), row(&[Value::Int64(20)])]
    );
}

#[test]
fn large_values_span_tree_chunks_and_survive_checkpoint_restart() {
    let disk = Disk::new();
    let value = "λ-data-".repeat(2_000);
    {
        let mut database = disk.open();
        database.query(1, "CREATE TABLE documents (id INT64 PRIMARY KEY, body TEXT NOT NULL)");
        let inserted = database
            .execute(
                CLIENT,
                2,
                None,
                "INSERT INTO documents VALUES (1, ?)",
                &[Value::Text(value.clone())],
            )
            .unwrap();
        assert!(matches!(
            inserted,
            ExecutionResult::Query(QueryResult { affected_rows: 1, .. })
        ));
        let durable = CheckpointInfo { applied_index: disk.applied(), checkpoint_lsn: 1, through_lsn: 1 };
        database.database.checkpoint(durable).unwrap();
    }
    let mut reopened = disk.open();
    assert_eq!(
        reopened.query(70, "SELECT body FROM documents").rows,
        vec![row(&[Value::Text(value)])]
    );
}

#[test]
fn conflicting_commit_aborts_durably_and_sequence_mismatch_can_retry() {
    let disk = Disk::new();
    let mut database = disk.open();
    database.query(1, "CREATE TABLE counters (id INT64 PRIMARY KEY, value INT64 NOT NULL)");
    database.query(2, "INSERT INTO counters VALUES (1, 0)");
    let first = database.database.begin().unwrap();
    let second = database.database.begin().unwrap();
    database
        .execute(
            CLIENT,
            3,
            Some(first.transaction_id),
            "UPDATE counters SET value = 1 WHERE id = 1",
            &[],
        )
        .unwrap();
    database
        .execute(
            CLIENT,
            4,
            Some(second.transaction_id),
            "UPDATE counters SET value = 2 WHERE id = 1",
            &[],
        )
        .unwrap();
    database.commit(3, first.transaction_id).unwrap();
    assert!(matches!(
        database.commit(4, second.transaction_id),
        Err(DatabaseError::TransactionAborted(_))
    ));
    assert_eq!(database.applied(), 4);
    drop(database);

    let mut reopened = disk.open();
    assert_eq!(reopened.applied(), 4);
    assert_eq!(
        reopened.query(80, "SELECT value FROM counters").rows,
        vec![row(&[Value::Int64(1)])]
    );

    let transaction = reopened.database.begin().unwrap();
    reopened
        .execute(
            CLIENT,
            4,
            Some(transaction.transaction_id),
            "INSERT INTO counters VALUES (2, 2)",
            &[],
        )
        .unwrap();
    assert!(matches!(
        reopened.commit(4, transaction.transaction_id),
        Err(DatabaseError::RequestRejected(_))
    ));
    reopened.commit(5, transaction.transaction_id).unwrap();
    assert_eq!(reopened.applied(), 6);
}

#[test]
fn autocommit_retry_is_payload_checked_and_restart_safe() {
    let disk = Disk::new();
    let statement = "INSERT INTO tokens VALUES (1, 'once')";
    {
        let mut database = disk.open();
        database.query(1, "CREATE TABLE tokens (id INT64 PRIMARY KEY, value TEXT NOT NULL)");
        assert_eq!(database.query(2, statement).affected_rows, 1);
        let before_retry = database.applied();
        assert_eq!(database.query(2, statement).affected_rows, 1);
        assert_eq!(database.applied(), before_retry);
        assert!(matches!(
            database.execute(CLIENT, 2, None, "INSERT INTO tokens VALUES (2, 'different')", &[]),
            Err(DatabaseError::RequestRejected(RequestRejection::SequenceHashMismatch {
                sequence: 2
            }))
        ));
        assert_eq!(database.applied(), before_retry);
    }

    let mut reopened = disk.open();
    assert_eq!(reopened.query(2, statement).affected_rows, 1);
    assert_eq!(reopened.applied(), 2);
    assert_eq!(
        reopened.query(90, "SELECT id, value FROM tokens").rows,
        vec![row(&[Value::Int64(1), text("once")])]
    );
}

/// What a log entry of one disk says on another.
fn decoded(disk: &Disk, bytes: &Vec<u8>) -> Option<ReplicatedMutation> {
    disk.mutations.borrow().get(bytes).map(|mutation| mutation.duplicate())
}

#[test]
fn replicated_prepare_is_private_and_exact_index_apply_is_idempotent() {
    let leader_disk = Disk::new();
    let follower_disk = Disk::new();
    let mut leader = leader_disk.open();
    let mut follower = follower_disk.open();
    leader.noop(1, 4).unwrap();
    follower.noop(1, 4).unwrap();

    let create = "CREATE TABLE replicated (id INT64 PRIMARY KEY, value TEXT NOT NULL)";
    let prepared = leader.proposal(4, CLIENT, 1, create);
    assert_eq!(leader.applied(), 1);
    assert!(leader.execute(CLIENT, 90, None, "SELECT id FROM replicated", &[]).is_err());

    for database in [&mut leader, &mut follower] {
        let applied = database.apply(2, &prepared, decoded(&leader_disk, &prepared)).unwrap();
        assert!(matches!(
            applied,
            ExecutionResult::Query(QueryResult { affected_rows: 0, applied_index: 2, .. })
        ));
        database.apply(2, &prepared, decoded(&leader_disk, &prepared)).unwrap();
        assert_eq!(database.applied(), 2);
    }

    let replay = leader.prepare(4, CLIENT, 1, create).unwrap();
    assert!(matches!(replay, MutationPreparation::Replay(_)));
    assert!(leader.noop(4, 4).is_err());

    drop(leader);
    drop(follower);
    for disk in [&leader_disk, &follower_disk] {
        let mut reopened = disk.open();
        assert_eq!(reopened.applied(), 2);
        assert!(reopened.query(80, "SELECT id FROM replicated").rows.is_empty());
    }
}

#[test]
fn old_term_entry_and_reprepared_retry_share_logical_request_identity() {
    let disk = Disk::new();
    let mut database = disk.open();
    let statement = "CREATE TABLE term_retry (id INT64 PRIMARY KEY, value TEXT NOT NULL)";
    let first = database.proposal(3, CLIENT, 1, statement);
    let retry = database.proposal(4, CLIENT, 1, statement);
    assert_ne!(first, retry, "leader term must make exact log payloads distinct");

    database.apply(1, &first, decoded(&disk, &first)).unwrap();
    let duplicated = database.apply(2, &retry, decoded(&disk, &retry)).unwrap();
    assert!(matches!(
        duplicated,
        ExecutionResult::Query(QueryResult { affected_rows: 0, applied_index: 2, .. })
    ));
    assert_eq!(database.applied(), 2);

    drop(database);
    let mut reopened = disk.open();
    assert!(matches!(
        reopened.prepare(5, CLIENT, 1, statement).unwrap(),
        MutationPreparation::Replay(_)
    ));
}

#[test]
fn first_committed_retry_owns_result_across_different_snapshots() {
    const SETUP_CLIENT: [u8; 16] = [8; 16];
    const STATEMENT: &str = "UPDATE retry_rows SET value = 'updated' WHERE id = 1";

    for newer_attempt_commits_first in [false, true] {
        let disk = Disk::new();
        let mut database = disk.open();
        let create = database.proposal(
            1,
            SETUP_CLIENT,
            1,
            "CREATE TABLE retry_rows (id INT64 PRIMARY KEY, value TEXT NOT NULL)",
        );
        database.apply(1, &create, decoded(&disk, &create)).unwrap();

        // The form of the older term sees no matching row and stages no write.
        let older = database.proposal(2, CLIENT, 1, STATEMENT);
        let insert = database.proposal(
            2,
            SETUP_CLIENT,
            2,
            "INSERT INTO retry_rows VALUES (1, 'original')",
        );
        database.apply(2, &insert, decoded(&disk, &insert)).unwrap();

        // The form of the newer term stages one write.
        let newer = database.proposal(3, CLIENT, 1, STATEMENT);
        assert_ne!(older, newer);

        let (first, second, expected_affected, expected_value) = if newer_attempt_commits_first {
            (&newer, &older, 1, "updated")
        } else {
            (&older, &newer, 0, "original")
        };
        let first_result = database.apply(3, first, decoded(&disk, first)).unwrap();
        let second_result = database.apply(4, second, decoded(&disk, second)).unwrap();
        for result in [first_result, second_result] {
            assert!(matches!(
                result,
                ExecutionResult::Query(QueryResult { affected_rows, .. })
                    if affected_rows == expected_affected
            ));
        }
        let rows = database.read_only("SELECT value FROM retry_rows WHERE id = 1").unwrap();
        let ExecutionResult::Query(rows) = rows else {
            panic!("expected query result");
        };
        assert_eq!(rows.rows, vec![row(&[text(expected_value)])]);
        assert_eq!(database.applied(), 4);
    }
}

#[test]
fn active_transaction_count_is_hard_bounded() {
    let mut database = Database::open_with_options(
        Engine::new(),
        OrdMap::new(),
        DatabaseOptions { max_active_transactions: 1 },
    )
    .unwrap();
    let first = database.begin().unwrap();
    assert!(matches!(database.begin(), Err(DatabaseError::ResourceLimit(_))));
    database.rollback(first.transaction_id).unwrap();
    assert!(database.begin().is_ok());
}

#[test]
fn logical_snapshot_installs_idempotently_and_survives_restart() {
    let source_disk = Disk::new();
    let target_disk = Disk::new();
    let mut source = source_disk.open();
    source.query(1, "CREATE TABLE snapshots (id INT64 PRIMARY KEY, value TEXT NOT NULL)");
    source.query(2, "INSERT INTO snapshots VALUES (1, 'durable')");
    let snapshot = source.snapshot().unwrap();
    assert_eq!(snapshot.applied_index(), 2);
    assert_ne!(snapshot.state_hash(), [0; 32]);

    let bytes = snapshot.bytes().to_vec();
    let read = |bytes: &[u8]| {
        source_disk.snapshots.borrow().get(bytes).map(|envelope| envelope.duplicate())
    };
    let mut target = target_disk.open();
    assert!(target.install(Some(3), &bytes, read(&bytes)).is_err());
    assert_eq!(target.applied(), 0);
    target.install(Some(2), &bytes, read(&bytes)).unwrap();
    target.install(None, &bytes, read(&bytes)).unwrap();
    assert_eq!(target.applied(), 2);
    assert_eq!(
        target.query(90, "SELECT id, value FROM snapshots").rows,
        vec![row(&[Value::Int64(1), text("durable")])]
    );
    let mut corrupted = bytes.clone();
    corrupted[0] ^= 0x80;
    assert!(target.install(None, &corrupted, read(&corrupted)).is_err());

    drop(target);
    let mut reopened = target_disk.open();
    assert_eq!(reopened.applied(), 2);
    assert_eq!(
        reopened.query(91, "SELECT value FROM snapshots").rows,
        vec![row(&[text("durable")])]
    );
}

#[test]
fn startup_completes_snapshot_install_before_and_after_database_publication() {
    let source_disk = Disk::new();
    let mut source = source_disk.open();
    source.noop(1, 1).unwrap();
    let database_snapshot = source.snapshot().unwrap();
    let configuration = Configuration::new(vec![1, 2, 3]).unwrap();
    let snapshot = PersistentSnapshot::new(1, 1, configuration, database_snapshot.into_bytes());
    let hard_state = HardState { current_term: 1, voted_for: None, commit_index: 1 };
    let read = |bytes: &[u8]| {
        source_disk.snapshots.borrow().get(bytes).map(|envelope| envelope.duplicate())
    };

    for database_was_published in [false, true] {
        let target_disk = Disk::new();
        let mut database = target_disk.open();
        let intent = RefCell::new(None);
        {
            let mut storage = StableStore::open(StableState::default(), None).unwrap();
            storage
                .begin_snapshot_install(
                    |pending: &PendingSnapshotInstall| {
                        *intent.borrow_mut() = Some(pending.clone());
                        Ok(())
                    },
                    &snapshot,
                    &Vec::new(),
                    hard_state,
                )
                .unwrap();
        }
        if database_was_published {
            database.install(Some(1), &snapshot.data, read(&snapshot.data)).unwrap();
        }

        let stored = intent.borrow().clone();
        let mut reopened = StableStore::open(StableState::default(), stored).unwrap();
        let pending = reopened.pending_install().unwrap();
        let data = &pending.snapshot.data;
        let index = pending.snapshot.metadata.last_included_index;
        database.install(Some(index), data, read(data)).unwrap();
        reopened.complete_snapshot_install(|_: &StableState| Ok(()), || Ok(())).unwrap();
        assert!(reopened.pending_install().is_none());
        assert_eq!(reopened.state().applied_index, 1);
        assert_eq!(reopened.snapshot_index(), Some(1));
        assert_eq!(database.applied(), 1);
    }
}

#[test]
fn a_change_that_is_not_stored_is_not_made() {
    let disk = Disk::new();
    let mut database = disk.open();
    database.query(1, "CREATE TABLE kept (id INT64 PRIMARY KEY, value TEXT NOT NULL)");
    *disk.broken.borrow_mut() = true;
    assert!(matches!(
        database.execute(CLIENT, 2, None, "INSERT INTO kept VALUES (1, 'lost')", &[]),
        Err(DatabaseError::Io(_))
    ));
    assert_eq!(database.applied(), 1);
    assert!(database.query(9, "SELECT id FROM kept").rows.is_empty());
    *disk.broken.borrow_mut() = false;
    assert_eq!(database.query(2, "INSERT INTO kept VALUES (1, 'kept')").affected_rows, 1);
    assert_eq!(database.applied(), 2);
}

#[test]
fn broken_and_foreign_log_entries_are_refused() {
    let disk = Disk::new();
    let mut database = disk.open();
    let create = database.proposal(
        1,
        CLIENT,
        1,
        "CREATE TABLE log (id INT64 PRIMARY KEY, value TEXT NOT NULL)",
    );
    assert!(database.apply(1, &create, None).is_err());
    assert_eq!(database.applied(), 0);
    assert!(database.apply(3, &create, decoded(&disk, &create)).is_err());
    assert_eq!(database.applied(), 0);
    assert!(database.apply(1, &create, decoded(&disk, &create)).is_ok());
}

#[test]
fn reads_change_nothing_and_writes_are_no_reads() {
    let disk = Disk::new();
    let mut database = disk.open();
    database.query(1, "CREATE TABLE plain (id INT64 PRIMARY KEY, value TEXT NOT NULL)");
    assert!(matches!(
        database.read_only("INSERT INTO plain VALUES (1, 'no')"),
        Err(DatabaseError::TransactionControl(_))
    ));
    assert!(database.read_only("SELECT id FROM plain").is_ok());
    assert_eq!(database.applied(), 1);
    assert!(matches!(database.database.rollback(77), Err(DatabaseError::TransactionNotFound(77))));
}

// ---- the handler of clients ----

struct Server<'a> {
    handler: DatabaseHandler,
    disk: &'a Disk,
}

impl Server<'_> {
    fn ask(
        &mut self,
        request_id: u64,
        session: Option<SessionRequest>,
        operation: ClientOperation,
    ) -> ResponseResult {
        let disk = self.disk;
        let sql = match &operation {
            ClientOperation::Execute { sql, .. } => sql.clone(),
            _ => "SELECT none FROM none".to_string(),
        };
        let response = self.handler.handle(
            &Scalars { evaluate: value_of, matches: holds },
            |catalog: &EngineCatalog, _: &EngineCatalog| {
                statement(&sql, catalog).map_err(DatabaseError::Sql)
            },
            |engine: &Engine, requests: &DurableRequests| disk.store(engine, requests),
            Ok(kind_of(&sql)),
            storage(disk.applied()),
            ClientRequest { request_id, session, operation },
        );
        assert_eq!(response.request_id, request_id);
        response.result
    }
}

fn session(client_id: [u8; 16], sequence: u64, transaction_id: Option<u64>) -> SessionRequest {
    SessionRequest { client_id, sequence, transaction_id }
}

fn execute(sql: &str) -> ClientOperation {
    ClientOperation::Execute {
        sql: sql.to_string(),
        parameters: Vec::new(),
        consistency: ReadConsistency::Linearizable,
    }
}

fn code(result: ResponseResult) -> ErrorCode {
    match result {
        ResponseResult::Error(error) => error.code,
        other => panic!("expected an error, got {other:?}"),
    }
}

#[test]
fn clients_run_transactions_of_their_own_only() {
    let disk = Disk::new();
    let mut server = Server { handler: DatabaseHandler::new(disk.open().database, 7), disk: &disk };
    let client = [9; 16];
    let other_client = [8; 16];
    assert!(matches!(
        server.ask(
            1,
            Some(session(client, 1, None)),
            execute("CREATE TABLE users (id INT64 PRIMARY KEY, name TEXT NOT NULL)"),
        ),
        ResponseResult::Query(ref query) if query.affected_rows == 0 && query.applied_index == 1
    ));
    assert!(matches!(
        server.ask(
            2,
            Some(session(client, 2, None)),
            execute("INSERT INTO users VALUES (1, 'Ada')"),
        ),
        ResponseResult::Query(ref query) if query.affected_rows == 1 && query.applied_index == 2
    ));

    let begun = server.ask(3, Some(session(client, 3, None)), ClientOperation::Begin);
    let ResponseResult::Transaction { transaction_id, .. } = begun else {
        panic!("BEGIN did not return a transaction");
    };
    let within = Some(session(client, 3, Some(transaction_id)));
    assert!(matches!(
        server.ask(4, within.clone(), execute("INSERT INTO users VALUES (99, 'rolled back')")),
        ResponseResult::Query(_)
    ));
    assert_eq!(
        server.ask(5, within.clone(), ClientOperation::Rollback),
        ResponseResult::RolledBack
    );
    assert_eq!(
        code(server.ask(5, within, ClientOperation::Rollback)),
        ErrorCode::InvalidRequest
    );

    let begun = server.ask(6, Some(session(client, 3, None)), ClientOperation::Begin);
    let ResponseResult::Transaction { transaction_id, .. } = begun else {
        panic!("second BEGIN did not return a transaction");
    };
    let within = Some(session(client, 3, Some(transaction_id)));
    assert!(matches!(
        server.ask(7, within.clone(), execute("INSERT INTO users VALUES (2, 'Grace')")),
        ResponseResult::Query(_)
    ));
    let foreign = Some(session(other_client, 1, Some(transaction_id)));
    assert_eq!(
        code(server.ask(8, foreign.clone(), ClientOperation::Commit)),
        ErrorCode::InvalidRequest
    );
    assert_eq!(
        code(server.ask(8, foreign.clone(), ClientOperation::Rollback)),
        ErrorCode::InvalidRequest
    );
    assert_eq!(
        code(server.ask(8, foreign, execute("INSERT INTO users VALUES (3, 'Eve')"))),
        ErrorCode::InvalidRequest
    );
    assert_eq!(
        server.ask(9, within, ClientOperation::Commit),
        ResponseResult::Committed { commit_index: 3 }
    );

    let read = server.ask(
        10,
        Some(session(client, 4, None)),
        execute("SELECT id, name FROM users ORDER BY id"),
    );
    let ResponseResult::Query(query) = read else {
        panic!("SELECT did not return rows");
    };
    assert_eq!(
        query.rows,
        vec![
            vec![Value::Int64(1), text("Ada")],
            vec![Value::Int64(2), text("Grace")],
        ]
    );
    let ResponseResult::Status(status) = server.ask(12, None, ClientOperation::Status) else {
        panic!("STATUS did not return node state");
    };
    assert_eq!(status.applied_index, 3);
    assert_eq!(status.commit_index, 3);
    assert_eq!(status.role, "standalone");
    assert_eq!(status.node_id, 7);
    assert_eq!(server.ask(13, None, ClientOperation::Ping), ResponseResult::Pong);
    assert_eq!(code(server.ask(14, None, ClientOperation::Begin)), ErrorCode::InvalidRequest);
    assert_eq!(
        code(server.ask(15, Some(session(client, 0, None)), ClientOperation::Begin)),
        ErrorCode::InvalidRequest
    );
}

#[test]
fn active_transactions_keep_their_owner() {
    let disk = Disk::new();
    let mut server = Server { handler: DatabaseHandler::new(disk.open().database, 7), disk: &disk };
    let client = [9; 16];
    let begun = server.ask(1, Some(session(client, 1, None)), ClientOperation::Begin);
    let ResponseResult::Transaction { transaction_id: first, .. } = begun else {
        panic!("BEGIN did not return a transaction");
    };
    let begun = server.ask(2, Some(session([8; 16], 1, None)), execute("BEGIN"));
    let ResponseResult::Transaction { transaction_id: second, .. } = begun else {
        panic!("BEGIN did not return a transaction");
    };
    assert_ne!(first, second);
    assert_eq!(server.handler.owners.get(&first), Some(&client));
    assert_eq!(server.handler.owners.get(&second), Some(&[8; 16]));

    // a statement on its own and a statement that fails leave the owners alone
    server.ask(
        3,
        Some(session(client, 1, None)),
        execute("CREATE TABLE users (id INT64 PRIMARY KEY, name TEXT NOT NULL)"),
    );
    server.ask(4, Some(session(client, 1, Some(first))), execute("SELECT id FROM nowhere"));
    assert_eq!(server.handler.owners.get(&first), Some(&client));
    assert_eq!(server.handler.owners.get(&second), Some(&[8; 16]));

    assert_eq!(
        server.ask(5, Some(session(client, 1, Some(first))), execute("ROLLBACK")),
        ResponseResult::RolledBack
    );
    assert_eq!(server.handler.owners.get(&first), None);
    assert_eq!(server.handler.owners.get(&second), Some(&[8; 16]));
}

#[test]
fn the_last_change_is_answered_again() {
    const OTHER: [u8; 16] = [8; 16];
    const STATEMENT: &str = "UPDATE again SET value = 'updated' WHERE id = 1";
    let disk = Disk::new();
    let mut database = disk.open();
    let create = database.proposal(
        1,
        OTHER,
        1,
        "CREATE TABLE again (id INT64 PRIMARY KEY, value TEXT NOT NULL)",
    );
    database.apply(1, &create, decoded(&disk, &create)).unwrap();
    let older = database.proposal(2, CLIENT, 1, STATEMENT);
    let insert = database.proposal(2, OTHER, 2, "INSERT INTO again VALUES (1, 'original')");
    database.apply(2, &insert, decoded(&disk, &insert)).unwrap();
    let newer = database.proposal(3, CLIENT, 1, STATEMENT);
    database.apply(3, &older, decoded(&disk, &older)).unwrap();
    for _ in 0..2 {
        let told = database.apply(4, &newer, decoded(&disk, &newer)).unwrap();
        assert!(matches!(
            told,
            ExecutionResult::Query(QueryResult { affected_rows: 0, .. })
        ));
    }
    assert_eq!(database.applied(), 4);
}

#[test]
fn an_installed_snapshot_is_installed_again_after_reads() {
    let source_disk = Disk::new();
    let target_disk = Disk::new();
    let mut source = source_disk.open();
    source.query(1, "CREATE TABLE snapshots (id INT64 PRIMARY KEY, value TEXT NOT NULL)");
    let snapshot = source.snapshot().unwrap();
    let bytes = snapshot.bytes().to_vec();
    let read = |bytes: &[u8]| {
        source_disk.snapshots.borrow().get(bytes).map(|envelope| envelope.duplicate())
    };
    let mut target = target_disk.open();
    target.install(Some(1), &bytes, read(&bytes)).unwrap();
    assert!(target.query(90, "SELECT id FROM snapshots").rows.is_empty());
    target.install(Some(1), &bytes, read(&bytes)).unwrap();
    assert_eq!(target.applied(), 1);
}

#[test]
fn refused_requests_say_why() {
    let disk = Disk::new();
    let mut server = Server { handler: DatabaseHandler::new(disk.open().database, 7), disk: &disk };
    let client = [9; 16];
    let begun = server.ask(1, Some(session(client, 1, None)), ClientOperation::Begin);
    let ResponseResult::Transaction { transaction_id, .. } = begun else {
        panic!("BEGIN did not return a transaction");
    };
    let own = Some(session(client, 1, Some(transaction_id)));
    let foreign = Some(session([8; 16], 1, Some(transaction_id)));
    for (asked, operation, words) in [
        (None, ClientOperation::Begin, "SQL and transaction operations require a client session"),
        (
            Some(session(client, 0, None)),
            ClientOperation::Begin,
            "session sequence numbers start at one",
        ),
        (own, ClientOperation::Begin, "BEGIN session already names a transaction"),
        (
            Some(session(client, 1, None)),
            ClientOperation::Commit,
            "operation requires a transaction id",
        ),
        (foreign, ClientOperation::Rollback, "transaction belongs to a different client"),
    ] {
        let ResponseResult::Error(error) = server.ask(2, asked, operation) else {
            panic!("accepted");
        };
        assert_eq!(error.code, ErrorCode::InvalidRequest);
        assert_eq!(error.message, format!("invalid transaction control: {words}"));
    }
}

#[test]
fn errors_are_told_in_their_own_words() {
    let disk = Disk::new();
    let mut server = Server { handler: DatabaseHandler::new(disk.open().database, 7), disk: &disk };
    let client = [9; 16];
    let told = |result: ResponseResult| match result {
        ResponseResult::Error(error) => error.message,
        other => panic!("expected an error, got {other:?}"),
    };
    assert_eq!(
        told(server.ask(1, Some(session(client, 1, None)), execute("ROLLBACK"))),
        "invalid transaction control: ROLLBACK requires an active transaction id"
    );
    assert_eq!(
        told(server.ask(2, Some(session(client, 1, Some(77))), ClientOperation::Rollback)),
        "transaction 77 does not exist"
    );
    let begun = server.ask(3, Some(session(client, 1, None)), ClientOperation::Begin);
    let ResponseResult::Transaction { transaction_id, .. } = begun else {
        panic!("BEGIN did not return a transaction");
    };
    assert_eq!(
        told(server.ask(4, Some(session(client, 1, Some(transaction_id))), execute("BEGIN"))),
        "invalid transaction control: BEGIN cannot run inside an active transaction"
    );

    let limited = Database::open_with_options(
        Engine::new(),
        OrdMap::new(),
        DatabaseOptions { max_active_transactions: 1 },
    )
    .unwrap();
    let mut server = Server { handler: DatabaseHandler::new(limited, 7), disk: &disk };
    server.ask(5, Some(session(client, 1, None)), ClientOperation::Begin);
    assert_eq!(
        told(server.ask(6, Some(session(client, 2, None)), ClientOperation::Begin)),
        "resource limit exceeded: active transaction limit 1 reached"
    );

    let error = DatabaseError::Invariant("broken".to_string());
    let words = error.describe();
    let response = respond(8, Err(error));
    assert_eq!(response.request_id, 8);
    assert_eq!(told(response.result), words);
}
