//! Snapshots of the engine as records.

use aster::engine::error::EngineError;
use aster::engine::records::{SnapshotPart, SnapshotRecord};
use aster::engine::snapshot::EngineSnapshot;
use aster::engine::state::Engine;
use aster::types::{ClientRequestId, Column, DataType, Row, Schema, Value};

fn populated_engine() -> Engine {
    let mut engine = Engine::new();
    let mut transaction = engine.begin().unwrap();
    let table = engine
        .create_table(
            &mut transaction,
            "records",
            Schema {
                columns: vec![
                    Column {
                        name: "id".into(),
                        data_type: DataType::Int64,
                        nullable: false,
                        primary_key: true,
                    },
                    Column {
                        name: "value".into(),
                        data_type: DataType::Text,
                        nullable: false,
                        primary_key: false,
                    },
                ],
            },
        )
        .unwrap();
    engine
        .insert(
            &mut transaction,
            table,
            Row {
                values: vec![Value::Int64(7), Value::Text("seven".into())],
            },
        )
        .unwrap();
    let attempt = transaction.into_attempt(
        ClientRequestId {
            client_id: [9; 16],
            sequence: 1,
        },
        1,
    );
    let hash = attempt.command_hash().unwrap();
    engine.apply(1, hash, &attempt).unwrap();
    engine
}

/// The value of a part: what `Debug` writes of it.
fn encoded(part: &SnapshotPart) -> Vec<u8> {
    format!("{part:?}").into_bytes()
}

fn records_of(snapshot: &EngineSnapshot) -> Vec<SnapshotRecord> {
    let values = snapshot.parts().iter().map(encoded).collect();
    snapshot.to_records(&values).unwrap()
}

fn restore(
    original: &EngineSnapshot,
    records: &Vec<SnapshotRecord>,
) -> Result<EngineSnapshot, EngineError> {
    let parts = original.parts();
    let decoded = records
        .iter()
        .map(|record| parts.iter().find(|part| encoded(part) == record.value).cloned())
        .collect();
    EngineSnapshot::from_records(records, &decoded)
}

#[test]
fn logical_records_round_trip_and_are_canonical() {
    let original = populated_engine().snapshot();
    let records = records_of(&original);
    assert!(records.windows(2).all(|pair| {
        (pair[0].kind, pair[0].key.as_slice()) < (pair[1].kind, pair[1].key.as_slice())
    }));
    let mut reversed = records;
    reversed.reverse();
    let restored = restore(&original, &reversed).unwrap();
    assert_eq!(restored, original);
}

#[test]
fn duplicate_missing_unknown_and_mismatched_records_are_rejected() {
    let original = populated_engine().snapshot();
    let mut records = records_of(&original);
    records.push(records[0].clone());
    assert!(restore(&original, &records).is_err());

    let records = records_of(&original);
    let without_meta: Vec<_> = records
        .iter()
        .filter(|record| record.kind != 0)
        .cloned()
        .collect();
    assert!(restore(&original, &without_meta).is_err());

    let mut unknown = records.clone();
    unknown.push(SnapshotRecord {
        kind: 250,
        key: b"unknown".to_vec(),
        value: b"{}".to_vec(),
    });
    assert!(restore(&original, &unknown).is_err());

    let mut mismatched = records;
    let primary = mismatched
        .iter_mut()
        .find(|record| record.kind == 2)
        .unwrap();
    primary.key.push(0);
    assert!(restore(&original, &mismatched).is_err());
}

fn refusal(result: Result<EngineSnapshot, EngineError>) -> String {
    match result {
        Err(EngineError::InvalidSnapshot(text)) => text,
        other => panic!("expected an invalid snapshot, got {other:?}"),
    }
}

#[test]
fn refused_records_say_why() {
    let original = populated_engine().snapshot();
    let records = records_of(&original);
    let at = |kind: u8| records.iter().position(|record| record.kind == kind).unwrap();
    let changed = |kind: u8, change: &dyn Fn(&mut SnapshotRecord)| {
        let mut changed = records.clone();
        change(&mut changed[at(kind)]);
        refusal(restore(&original, &changed))
    };
    let longer = |record: &mut SnapshotRecord| record.key.push(0);
    let garbled = |record: &mut SnapshotRecord| record.value = b"{".to_vec();
    assert_eq!(changed(0, &longer), "metadata record key must be empty");
    assert_eq!(changed(1, &longer), "catalog record key must be empty");
    assert_eq!(changed(2, &longer), "primary record key disagrees with value");
    assert_eq!(changed(4, &longer), "client record key disagrees with value");
    assert_eq!(changed(4, &garbled), "record kind 4 decode failed");
    assert_eq!(
        changed(1, &|record| record.kind = 250),
        "unknown logical snapshot record kind 250"
    );

    let without = |kind: u8| {
        let left: Vec<SnapshotRecord> =
            records.iter().filter(|record| record.kind != kind).cloned().collect();
        refusal(restore(&original, &left))
    };
    assert_eq!(without(0), "missing metadata record");
    assert_eq!(without(1), "missing catalog record");
}

#[test]
fn the_first_fault_of_records_is_told() {
    let original = populated_engine().snapshot();
    let mut records = records_of(&original);
    records.reverse();
    let client = records.iter().position(|record| record.kind == 4).unwrap();
    records[client].key.push(0);
    let primary = records.iter().position(|record| record.kind == 2).unwrap();
    records[primary].value = b"{".to_vec();
    assert_eq!(refusal(restore(&original, &records)), "record kind 2 decode failed");
    records.push(records[client].clone());
    assert_eq!(refusal(restore(&original, &records)), "duplicate logical snapshot record");
    records[primary].key = vec![0; 67_108_865];
    assert_eq!(
        refusal(restore(&original, &records)),
        "logical snapshot record exceeds 67108864 byte limit"
    );
}

#[test]
fn refused_snapshots_say_why() {
    let original = populated_engine().snapshot();
    let refused = |change: &dyn Fn(&mut EngineSnapshot)| {
        let mut changed = original.clone();
        change(&mut changed);
        match Engine::from_snapshot(changed) {
            Err(EngineError::InvalidSnapshot(text)) => text,
            other => panic!("expected an invalid snapshot, got {other:?}"),
        }
    };
    assert_eq!(refused(&|it| it.format = 9), "unsupported engine snapshot format 9");
    assert_eq!(
        refused(&|it| it.retained_floor = 2),
        "retained floor exceeds last applied index"
    );
    assert_eq!(
        refused(&|it| {
            it.last_apply_hash = None;
            it.last_apply_outcome = None;
        }),
        "last apply metadata is inconsistent"
    );
    assert_eq!(
        refused(&|it| it.last_apply_hash = None),
        "last apply metadata is incomplete"
    );
    assert_eq!(
        refused(&|it| it.primary[0].versions.clear()),
        "primary version chain is empty, unordered, or out of range"
    );
    assert_eq!(
        refused(&|it| it.primary.push(it.primary[0].clone())),
        "duplicate primary version chain"
    );
    assert_eq!(
        refused(&|it| it.clients[0].record.sequence = 0),
        "client sequence zero cannot be durable"
    );
    assert_eq!(
        refused(&|it| it.clients.push(it.clients[0].clone())),
        "duplicate client record"
    );
}
