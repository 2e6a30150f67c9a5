//! What a node keeps of the replicated log, and the pages of a database.

use std::cell::RefCell;

use aster::db::error::DatabaseError;
use aster::db::pages::{decode_record, encode_record, parse_physical_key, physical_key, CHUNK_BYTES};
use aster::db::persistence::{has_tree, read_tree, tree_changes};
use aster::db::tree::{decode_records, encode_records};
use aster::engine::records::SnapshotRecord;
use aster::ordmap::OrdMap;
use aster::raft::configuration::Configuration;
use aster::raft::types::{
    EntryPayload, HardState, LogEntry, PersistentSnapshot, StableState, StorageMutation,
};
use aster::runtime::config::next_command_counter;
use aster::runtime::error::{Result, RuntimeError};
use aster::runtime::frame::{
    decode_frame, decode_snapshot, encode_frame, encode_snapshot, loaded_snapshot, obsolete_file,
    snapshot_file_name, snapshot_to_write, MAX_STATE_BYTES,
};
use aster::runtime::stable::{
    stored_intent, stored_state, PendingSnapshotInstall, StableStore, INSTALL_FORMAT,
    STORED_STATE_FORMAT,
};

const STATE_MAGIC: &[u8; 8] = b"ASTRFT\0\x02";

/// A disk in memory.
struct Disk {
    state: RefCell<StableState>,
    intent: RefCell<Option<PendingSnapshotInstall>>,
}

impl Disk {
    fn new() -> Disk {
        Disk { state: RefCell::new(StableState::default()), intent: RefCell::new(None) }
    }

    fn open(&self) -> StableStore {
        StableStore::open(self.state.borrow().clone(), self.intent.borrow().clone()).unwrap()
    }

    fn publish(&self, state: &StableState) -> Result<()> {
        *self.state.borrow_mut() = state.clone();
        Ok(())
    }

    fn persist(&self, store: &mut StableStore, mutation: StorageMutation) -> Result<()> {
        store.persist(|state: &StableState| self.publish(state), &mutation)
    }

    fn mark_applied(&self, store: &mut StableStore, index: u64) -> Result<()> {
        store.mark_applied(|state: &StableState| self.publish(state), index)
    }

    fn begin_install(
        &self,
        store: &mut StableStore,
        snapshot: &PersistentSnapshot,
        retained: &Vec<LogEntry>,
        hard_state: HardState,
    ) -> Result<()> {
        store.begin_snapshot_install(
            |intent: &PendingSnapshotInstall| {
                *self.intent.borrow_mut() = Some(intent.clone());
                Ok(())
            },
            snapshot,
            retained,
            hard_state,
        )
    }

    fn complete_install(&self, store: &mut StableStore) -> Result<()> {
        store.complete_snapshot_install(
            |state: &StableState| self.publish(state),
            || {
                *self.intent.borrow_mut() = None;
                Ok(())
            },
        )
    }

    fn append_committed(&self, store: &mut StableStore, through: u64) {
        self.persist(
            store,
            StorageMutation::HardState(HardState {
                current_term: 1,
                voted_for: Some(1),
                commit_index: 0,
            }),
        )
        .unwrap();
        for index in 1..=through {
            self.append(store, index);
        }
    }

    fn append(&self, store: &mut StableStore, index: u64) {
        self.persist(store, StorageMutation::Append(vec![noop(index)])).unwrap();
        self.persist(
            store,
            StorageMutation::HardState(HardState {
                current_term: 1,
                voted_for: Some(1),
                commit_index: index,
            }),
        )
        .unwrap();
        self.mark_applied(store, index).unwrap();
    }
}

fn noop(index: u64) -> LogEntry {
    LogEntry { index, term: 1, payload: EntryPayload::Noop }
}

fn voters() -> Configuration {
    Configuration::new(vec![1, 2, 3]).unwrap()
}

#[test]
fn hard_state_log_and_applied_marker_survive_reopen() {
    let disk = Disk::new();
    {
        let mut store = disk.open();
        disk.append_committed(&mut store, 1);
    }
    let reopened = disk.open();
    assert_eq!(reopened.state().hard_state.current_term, 1);
    assert_eq!(reopened.state().hard_state.voted_for, Some(1));
    assert_eq!(reopened.state().hard_state.commit_index, 1);
    assert_eq!(reopened.state().applied_index, 1);
    assert_eq!(reopened.state().entries.len(), 1);
}

#[test]
fn corruption_and_vote_rewrite_are_rejected() {
    let disk = Disk::new();
    let mut store = disk.open();
    disk.persist(
        &mut store,
        StorageMutation::HardState(HardState {
            current_term: 2,
            voted_for: Some(1),
            commit_index: 0,
        }),
    )
    .unwrap();
    assert!(
        disk.persist(
            &mut store,
            StorageMutation::HardState(HardState {
                current_term: 2,
                voted_for: Some(2),
                commit_index: 0,
            }),
        )
        .is_err()
    );
    assert_eq!(disk.open().state().hard_state.voted_for, Some(1));

    let payload = format!("{:?}", disk.state.borrow()).into_bytes();
    let mut bytes = encode_frame(STATE_MAGIC, &payload, MAX_STATE_BYTES, "test state").unwrap();
    assert_eq!(
        decode_frame(&bytes, STATE_MAGIC, MAX_STATE_BYTES, "test state").unwrap(),
        payload
    );
    let last = bytes.len() - 1;
    bytes[last] ^= 1;
    assert!(decode_frame(&bytes, STATE_MAGIC, MAX_STATE_BYTES, "test state").is_err());
}

#[test]
fn compact_snapshot_uses_checked_sidecar_and_bounds_log() {
    let disk = Disk::new();
    {
        let mut store = disk.open();
        disk.append_committed(&mut store, 4);
        let snapshot = PersistentSnapshot::new(4, 1, voters(), b"database-v4".to_vec());
        assert!(
            disk.persist(
                &mut store,
                StorageMutation::CompactSnapshot {
                    snapshot: snapshot.clone(),
                    retained_entries: vec![noop(5)],
                },
            )
            .is_err()
        );
        disk.persist(
            &mut store,
            StorageMutation::CompactSnapshot { snapshot, retained_entries: Vec::new() },
        )
        .unwrap();
        assert!(store.state().entries.is_empty());
    }
    let reopened = disk.open();
    let snapshot = reopened.state().snapshot.clone().unwrap();
    assert!(snapshot.validate());
    assert_eq!(snapshot.data, b"database-v4");
    assert_eq!(reopened.state().entries.len(), 0);

    let metadata = format!("{:?}", snapshot.metadata).into_bytes();
    let mut bytes = encode_snapshot(&snapshot, &metadata).unwrap();
    assert_eq!(
        decode_snapshot(&bytes).unwrap(),
        (metadata.clone(), b"database-v4".to_vec())
    );
    let last = bytes.len() - 1;
    bytes[last] ^= 1;
    assert!(decode_snapshot(&bytes).is_err());

    let mut tampered = snapshot.clone();
    tampered.data[0] ^= 1;
    assert!(loaded_snapshot(tampered, &snapshot.metadata).is_err());
    let mut elsewhere = snapshot.metadata.clone();
    elsewhere.last_included_term += 1;
    assert!(loaded_snapshot(snapshot.clone(), &elsewhere).is_err());
    assert_eq!(loaded_snapshot(snapshot.clone(), &snapshot.metadata).unwrap(), snapshot);
}

#[test]
fn successive_compactions_retain_only_the_published_sidecar() {
    let disk = Disk::new();
    let mut store = disk.open();
    disk.append_committed(&mut store, 4);
    let first = PersistentSnapshot::new(4, 1, voters(), b"database-v4".to_vec());
    let first_file = snapshot_file_name(&first.metadata);
    assert!(first_file.starts_with("snapshot-00000000000000000004-"));
    assert!(first_file.ends_with(".bin"));
    assert_eq!(snapshot_to_write(&first, None).unwrap(), true);
    assert_eq!(snapshot_to_write(&first, Some(&first)).unwrap(), false);
    disk.persist(
        &mut store,
        StorageMutation::CompactSnapshot { snapshot: first, retained_entries: Vec::new() },
    )
    .unwrap();
    assert!(!obsolete_file(&first_file, &store.needed_files()));

    disk.append(&mut store, 5);
    let second = PersistentSnapshot::new(5, 1, voters(), b"database-v5".to_vec());
    let second_file = snapshot_file_name(&second.metadata);
    disk.persist(
        &mut store,
        StorageMutation::CompactSnapshot { snapshot: second, retained_entries: Vec::new() },
    )
    .unwrap();
    assert!(obsolete_file(&first_file, &store.needed_files()));
    assert!(!obsolete_file(&second_file, &store.needed_files()));
    assert!(!obsolete_file("raft.state", &store.needed_files()));
}

#[test]
fn install_intent_survives_every_cross_file_restart_phase() {
    let disk = Disk::new();
    let snapshot = PersistentSnapshot::new(5, 2, voters(), b"database-v5".to_vec());
    let retained = Vec::new();
    let hard_state = HardState { current_term: 2, voted_for: None, commit_index: 5 };
    {
        let mut store = disk.open();
        disk.append_committed(&mut store, 1);
        disk.begin_install(&mut store, &snapshot, &retained, hard_state).unwrap();
        assert_eq!(store.state().applied_index, 1);
        assert!(store.pending_install().is_some());
    }
    {
        let mut reopened = disk.open();
        assert_eq!(reopened.state().applied_index, 1);
        assert_eq!(reopened.pending_install().unwrap().snapshot, snapshot);
        assert_eq!(reopened.needed_files(), vec![snapshot_file_name(&snapshot.metadata)]);
        disk.complete_install(&mut reopened).unwrap();
        assert_eq!(reopened.state().applied_index, 5);
        assert_eq!(reopened.state().hard_state.commit_index, 5);
        assert_eq!(reopened.state().entries, retained);
    }
    let reopened = disk.open();
    assert!(reopened.pending_install().is_none());
    assert_eq!(reopened.state().snapshot.clone().unwrap(), snapshot);
}

#[test]
fn nothing_changes_where_publishing_fails() {
    let disk = Disk::new();
    let mut store = disk.open();
    let failed = store.persist(
        |_: &StableState| Err(RuntimeError::Io("full".to_string())),
        &StorageMutation::Append(vec![noop(1)]),
    );
    assert!(matches!(failed, Err(RuntimeError::Io(_))));
    assert_eq!(store.retained_entry_count(), 0);
    assert!(disk.persist(&mut store, StorageMutation::Append(vec![noop(2)])).is_err());
    assert!(disk.mark_applied(&mut store, 1).is_err());
    assert_eq!(store.term_at(1), None);
}

#[test]
fn states_of_another_format_are_refused() {
    let mut gapped = StableState::default();
    gapped.entries = vec![noop(2)];
    assert!(stored_state(STORED_STATE_FORMAT, gapped).is_err());
    assert!(stored_state(STORED_STATE_FORMAT + 1, StableState::default()).is_err());
    assert_eq!(
        stored_state(STORED_STATE_FORMAT, StableState::default()).unwrap(),
        StableState::default()
    );
    let intent = PendingSnapshotInstall {
        snapshot: PersistentSnapshot::new(5, 2, voters(), b"database-v5".to_vec()),
        retained_entries: Vec::new(),
        hard_state: HardState { current_term: 2, voted_for: None, commit_index: 5 },
    };
    assert!(stored_intent(INSTALL_FORMAT, intent.clone()).is_ok());
    assert!(stored_intent(INSTALL_FORMAT + 1, intent).is_err());
}

#[test]
fn proposal_counter_continues_after_restart() {
    let state = StableState {
        entries: vec![LogEntry {
            index: 1,
            term: 1,
            payload: EntryPayload::Command {
                id: (u128::from(7_u64) << 64) | u128::from(41_u64),
                bytes: Vec::new(),
            },
        }],
        ..StableState::default()
    };
    assert_eq!(next_command_counter(7, &state).unwrap(), 42);
    assert_eq!(next_command_counter(8, &state).unwrap(), 1);
}

#[test]
fn snapshots_are_named_by_their_sha_256() {
    let snapshot = PersistentSnapshot::new(1, 1, voters(), b"abc".to_vec());
    assert_eq!(
        snapshot_file_name(&snapshot.metadata),
        "snapshot-00000000000000000001-\
         ba7816bf8f01cfea414140de5dae2223b00361a396177a9cb410ff61f20015ad.bin"
    );
}

#[test]
fn logical_records_round_trip_across_chunks() {
    let records = vec![
        SnapshotRecord { kind: 7, key: vec![0, 1, 2], value: vec![9; CHUNK_BYTES * 3 + 17] },
        SnapshotRecord { kind: 8, key: b"second".to_vec(), value: b"small".to_vec() },
    ];
    let physical = encode_records(&records).unwrap();
    assert!(physical.len() > records.len());
    assert_eq!(decode_records(&physical).unwrap(), records);
}

#[test]
fn missing_chunk_is_rejected() {
    let records = vec![SnapshotRecord {
        kind: 9,
        key: Vec::new(),
        value: vec![5; CHUNK_BYTES * 2],
    }];
    let mut physical = encode_records(&records).unwrap();
    let second = physical.key_at(1).clone();
    physical.remove(&second);
    assert!(decode_records(&physical).is_err());
}

#[test]
fn records_and_physical_keys_round_trip() {
    let record = SnapshotRecord { kind: 3, key: vec![1, 2], value: vec![7, 8, 9] };
    let encoded = encode_record(&record).unwrap();
    assert_eq!(decode_record(&encoded).unwrap(), record);
    let mut longer = encoded.clone();
    longer.push(0);
    assert!(decode_record(&longer).is_err());
    assert!(decode_record(&encoded[..5].to_vec()).is_err());

    let key = physical_key(&[4; 32], 9);
    assert_eq!(parse_physical_key(&key).unwrap(), ([4; 32], 9));
    assert!(parse_physical_key(&key[1..].to_vec()).is_err());
}

#[test]
fn trees_change_only_where_they_differ() {
    let mut current = OrdMap::new();
    current.insert(vec![1], vec![10]);
    current.insert(vec![2], vec![20]);
    let mut expected = OrdMap::new();
    expected.insert(vec![2], vec![21]);
    expected.insert(vec![3], vec![30]);
    let changes = tree_changes(&current, &expected);
    assert_eq!(changes.removed, vec![vec![1]]);
    assert_eq!(changes.written, vec![vec![2], vec![3]]);
    assert!(!has_tree(0, None).unwrap());
    assert!(has_tree(3, Some(1)).unwrap());
    assert!(has_tree(3, None).is_err());
    let mut foreign = OrdMap::new();
    foreign.insert(vec![1], vec![10]);
    assert!(read_tree(&foreign).is_err());
}

#[test]
fn refused_trees_say_why() {
    let records = vec![SnapshotRecord {
        kind: 9,
        key: Vec::new(),
        value: vec![5; CHUNK_BYTES * 3],
    }];
    let stored = encode_records(&records).unwrap();
    assert_eq!(stored.len(), 4);
    let refused = |change: &dyn Fn(&mut OrdMap<Vec<u8>, Vec<u8>>)| {
        let mut tree = encode_records(&records).unwrap();
        change(&mut tree);
        match decode_records(&tree) {
            Err(DatabaseError::Corruption(text)) => text,
            other => panic!("expected corruption, got {other:?}"),
        }
    };
    let key = |i: usize| stored.key_at(i).clone();
    assert_eq!(
        refused(&|tree| {
            tree.remove(&key(0));
        }),
        "snapshot record chunk gap: expected 0, found 1"
    );
    assert_eq!(
        refused(&|tree| {
            tree.remove(&key(1));
        }),
        "snapshot chunks are not contiguous"
    );
    assert_eq!(
        refused(&|tree| {
            tree.remove(&key(3));
        }),
        "snapshot record digest mismatch"
    );
    assert_eq!(
        refused(&|tree| {
            tree.insert(key(2), Vec::new());
        }),
        "snapshot chunk has invalid length 0"
    );
    // Every entry is looked at before a record is put together.
    assert_eq!(
        refused(&|tree| {
            tree.remove(&key(0));
            tree.insert(vec![255], vec![1]);
        }),
        "snapshot tree contains an unknown physical key"
    );
}

#[test]
fn snapshots_that_are_too_large_say_how_large() {
    let records = vec![SnapshotRecord { kind: 1, key: Vec::new(), value: vec![7; 268_435_456] }];
    let Err(DatabaseError::ResourceLimit(text)) = encode_records(&records) else {
        panic!("accepted");
    };
    assert_eq!(text, "canonical snapshot is 268435477 bytes; maximum is 268435456");
}
