//! Snapshot records as entries of a tree of pages.
//!
//! A record is written as a magic number, its kind, the lengths of its key and
//! value, its key and its value. The bytes are cut into chunks, and a chunk is
//! stored under the digest of the whole record and its own number.

use vstd::prelude::*;
use vstd::slice::{slice_subrange, slice_to_vec};
use crate::db::error::{DatabaseError, DatabaseErrorKind, Result, corrupts, limits};
use crate::db::requests::corruption;
use crate::engine::records::{SnapshotRecord, SnapshotRecordView};
use crate::model::{Model, outcome};
use crate::wire::{
    array_of_32, be_bytes, be_bytes_len, be_round_trip, be_value, be_value_round_trip, get_be,
    pow256_values, put_be, put_bytes,
};

verus! {

broadcast use crate::model::group_contents;

/// The bytes of a record before its key.
pub const RECORD_HEADER_BYTES: usize = 21;

/// The bytes of the key of a chunk.
pub const PHYSICAL_KEY_BYTES: usize = 44;

/// The most bytes of a chunk.
pub const CHUNK_BYTES: usize = 1_024;

/// The most chunks of a tree.
pub const MAX_PHYSICAL_ENTRIES: usize = 266_240;

/// `ASTREC`, zero, and a version byte.
pub open spec fn record_magic() -> Seq<u8> {
    seq![65u8, 83u8, 84u8, 82u8, 69u8, 67u8, 0u8, 1u8]
}

/// `ASTKEY`, zero, and a version byte.
pub open spec fn key_magic() -> Seq<u8> {
    seq![65u8, 83u8, 84u8, 75u8, 69u8, 89u8, 0u8, 1u8]
}

/// The bytes of a record.
pub open spec fn record_bytes(record: SnapshotRecordView) -> Seq<u8> {
    record_magic() + seq![record.kind] + be_bytes(record.key.len(), 4) + be_bytes(
        record.value.len(),
        8,
    ) + record.key + record.value
}

/// The lengths of the record fit in its header.
pub open spec fn record_fits(record: SnapshotRecordView) -> bool {
    &&& record.key.len() <= u32::MAX
    &&& RECORD_HEADER_BYTES + record.key.len() + record.value.len() <= usize::MAX
}

/// The length of the key that the header of a record gives.
pub open spec fn key_length(bytes: Seq<u8>) -> nat {
    be_value(bytes.subrange(9, 13))
}

/// The length of the value that the header of a record gives.
pub open spec fn value_length(bytes: Seq<u8>) -> nat {
    be_value(bytes.subrange(13, 21))
}

/// The record that bytes are.
pub open spec fn record_in(bytes: Seq<u8>) -> Option<SnapshotRecordView> {
    if bytes.len() < RECORD_HEADER_BYTES || bytes.subrange(0, 8) != record_magic()
        || RECORD_HEADER_BYTES + key_length(bytes) + value_length(bytes) != bytes.len() {
        None
    } else {
        Some(
            SnapshotRecordView {
                kind: bytes[8],
                key: bytes.subrange(21, 21int + key_length(bytes)),
                value: bytes.subrange(21int + key_length(bytes), bytes.len() as int),
            },
        )
    }
}

/// The bytes of a record are that record and no other.
pub proof fn record_round_trip(record: SnapshotRecordView)
    requires
        record_fits(record),
    ensures
        record_in(record_bytes(record)) == Some(record),
        record_bytes(record).len() == RECORD_HEADER_BYTES + record.key.len() + record.value.len(),
{
    let bytes = record_bytes(record);
    pow256_values();
    be_bytes_len(record.key.len(), 4);
    be_bytes_len(record.value.len(), 8);
    be_round_trip(record.key.len(), 4);
    be_round_trip(record.value.len(), 8);
    assert(bytes.subrange(0, 8) =~= record_magic());
    assert(bytes.subrange(9, 13) =~= be_bytes(record.key.len(), 4));
    assert(bytes.subrange(13, 21) =~= be_bytes(record.value.len(), 8));
    assert(bytes.subrange(21, 21int + record.key.len()) =~= record.key);
    assert(bytes.subrange(21int + record.key.len(), bytes.len() as int) =~= record.value);
}

/// How it reads that bytes are no record.
pub open spec fn unreadable_words(bytes: Seq<u8>) -> Seq<char> {
    let key_end = RECORD_HEADER_BYTES + key_length(bytes);
    if bytes.len() < RECORD_HEADER_BYTES || bytes.subrange(0, 8) != record_magic() {
        "snapshot record header is invalid"@
    } else if value_length(bytes) > usize::MAX {
        "snapshot value length overflow"@
    } else if key_end > usize::MAX {
        "snapshot key extent overflow"@
    } else if key_end + value_length(bytes) > usize::MAX {
        "snapshot value extent overflow"@
    } else {
        "snapshot record lengths disagree with payload"@
    }
}

/// How it reads that a record cannot be written as bytes.
pub open spec fn unwritable_words(record: SnapshotRecordView) -> Seq<char> {
    if record.key.len() > u32::MAX {
        "snapshot key exceeds u32"@
    } else {
        "snapshot record size overflow"@
    }
}

/// How it reads that a tree holds a key that names no chunk.
pub open spec fn unknown_key_words() -> Seq<char> {
    "snapshot tree contains an unknown physical key"@
}

/// Bytes that are a record are the bytes of that record.
pub proof fn record_in_is_exact(bytes: Seq<u8>)
    requires
        record_in(bytes) is Some,
        bytes.len() <= usize::MAX,
    ensures
        record_bytes(record_in(bytes)->0) == bytes,
        record_fits(record_in(bytes)->0),
{
    let record = record_in(bytes)->0;
    pow256_values();
    be_value_round_trip(bytes.subrange(9, 13));
    be_value_round_trip(bytes.subrange(13, 21));
    be_bytes_len(record.key.len(), 4);
    be_bytes_len(record.value.len(), 8);
    assert(record.key.len() == key_length(bytes));
    assert(record.value.len() == value_length(bytes));
    assert(record_bytes(record) =~= bytes);
}

/// Writes a record as bytes.
pub fn encode_record(record: &SnapshotRecord) -> (result: Result<Vec<u8>>)
    ensures
        match result {
            Ok(bytes) => record_fits(record.deep_view()) && bytes@ == record_bytes(
                record.deep_view(),
            ),
            Err(error) => !record_fits(record.deep_view()) && error.deep_view()
                == DatabaseErrorKind::ResourceLimit && limits(
                error,
                unwritable_words(record.deep_view()),
            ),
        },
{
    if record.key.len() as u64 > u32::MAX as u64 {
        return Err(DatabaseError::ResourceLimit("snapshot key exceeds u32".to_owned()));
    }
    if record.key.len() > usize::MAX - RECORD_HEADER_BYTES || record.value.len() > usize::MAX
        - RECORD_HEADER_BYTES - record.key.len() {
        return Err(DatabaseError::ResourceLimit("snapshot record size overflow".to_owned()));
    }
    let mut encoded: Vec<u8> = Vec::with_capacity(
        RECORD_HEADER_BYTES + record.key.len() + record.value.len(),
    );
    let magic: [u8; 8] = [65, 83, 84, 82, 69, 67, 0, 1];
    put_bytes(&mut encoded, &magic);
    assert(encoded@ =~= record_magic());
    encoded.push(record.kind);
    assert(encoded@ =~= record_magic() + seq![record.kind]);
    put_be(&mut encoded, record.key.len() as u64, 4);
    put_be(&mut encoded, record.value.len() as u64, 8);
    put_bytes(&mut encoded, record.key.as_slice());
    put_bytes(&mut encoded, record.value.as_slice());
    Ok(encoded)
}

/// Reads a record from bytes.
pub fn decode_record(encoded: &Vec<u8>) -> (result: Result<SnapshotRecord>)
    ensures
        outcome(result) == match record_in(encoded@) {
            Some(record) => Ok::<SnapshotRecordView, DatabaseErrorKind>(record),
            None => Err(DatabaseErrorKind::Corruption),
        },
        result matches Err(error) ==> corrupts(error, unreadable_words(encoded@)),
{
    let ghost bytes = encoded@;
    if encoded.len() < RECORD_HEADER_BYTES {
        return Err(corruption("snapshot record header is invalid"));
    }
    let magic: [u8; 8] = [65, 83, 84, 82, 69, 67, 0, 1];
    let head = slice_to_vec(slice_subrange(encoded.as_slice(), 0, 8));
    assert(magic@ =~= record_magic());
    assert(head@ =~= bytes.subrange(0, 8));
    assert(head.deep_view() =~= head@);
    if !head.same(&slice_to_vec(&magic)) {
        return Err(corruption("snapshot record header is invalid"));
    }
    let kind: u8 = encoded[8];
    let key_length: u64 = get_be(slice_subrange(encoded.as_slice(), 9, 13));
    let value_length: u64 = get_be(slice_subrange(encoded.as_slice(), 13, 21));
    let rest: usize = encoded.len() - RECORD_HEADER_BYTES;
    if key_length > rest as u64 || value_length != (rest as u64) - key_length {
        let most: u64 = usize::MAX as u64;
        if value_length > most {
            return Err(corruption("snapshot value length overflow"));
        }
        if key_length > most - RECORD_HEADER_BYTES as u64 {
            return Err(corruption("snapshot key extent overflow"));
        }
        if value_length > most - RECORD_HEADER_BYTES as u64 - key_length {
            return Err(corruption("snapshot value extent overflow"));
        }
        return Err(corruption("snapshot record lengths disagree with payload"));
    }
    let key_end: usize = RECORD_HEADER_BYTES + key_length as usize;
    let key = slice_to_vec(slice_subrange(encoded.as_slice(), RECORD_HEADER_BYTES, key_end));
    let value = slice_to_vec(slice_subrange(encoded.as_slice(), key_end, encoded.len()));
    assert(key.deep_view() =~= bytes.subrange(21, 21 + key_length));
    assert(value.deep_view() =~= bytes.subrange(21 + key_length, bytes.len() as int));
    Ok(SnapshotRecord { kind, key, value })
}

/// The key of a chunk.
pub open spec fn chunk_key(digest: Seq<u8>, index: u32) -> Seq<u8> {
    key_magic() + digest + be_bytes(index as nat, 4)
}

/// The digest and the number that the key of a chunk gives.
pub open spec fn chunk_named(key: Seq<u8>) -> Option<(Seq<u8>, u32)> {
    if key.len() != PHYSICAL_KEY_BYTES || key.subrange(0, 8) != key_magic() {
        None
    } else {
        Some((key.subrange(8, 40), be_value(key.subrange(40, 44)) as u32))
    }
}

/// The key of a chunk names that chunk and no other.
pub proof fn chunk_key_round_trip(digest: Seq<u8>, index: u32)
    requires
        digest.len() == 32,
    ensures
        chunk_named(chunk_key(digest, index)) == Some((digest, index)),
        chunk_key(digest, index).len() == PHYSICAL_KEY_BYTES,
{
    let key = chunk_key(digest, index);
    pow256_values();
    be_bytes_len(index as nat, 4);
    be_round_trip(index as nat, 4);
    assert(key.subrange(0, 8) =~= key_magic());
    assert(key.subrange(8, 40) =~= digest);
    assert(key.subrange(40, 44) =~= be_bytes(index as nat, 4));
}

/// A key that names a chunk is the key of that chunk.
pub proof fn chunk_named_is_exact(key: Seq<u8>)
    requires
        chunk_named(key) is Some,
    ensures
        chunk_key((chunk_named(key)->0).0, (chunk_named(key)->0).1) == key,
        (chunk_named(key)->0).0.len() == 32,
{
    let tail = key.subrange(40, 44);
    pow256_values();
    be_value_round_trip(tail);
    assert(be_value(tail) <= u32::MAX);
    assert(chunk_key(key.subrange(8, 40), be_value(tail) as u32) =~= key);
}

/// The key of a chunk.
pub fn physical_key(digest: &[u8; 32], chunk_index: u32) -> (key: Vec<u8>)
    ensures
        key@ == chunk_key(digest@, chunk_index),
{
    let magic: [u8; 8] = [65, 83, 84, 75, 69, 89, 0, 1];
    let mut key: Vec<u8> = Vec::with_capacity(PHYSICAL_KEY_BYTES);
    put_bytes(&mut key, &magic);
    assert(key@ =~= key_magic());
    put_bytes(&mut key, digest.as_slice());
    put_be(&mut key, chunk_index as u64, 4);
    key
}

/// The digest and the number that the key of a chunk gives.
pub fn parse_physical_key(key: &Vec<u8>) -> (result: Result<([u8; 32], u32)>)
    ensures
        match result {
            Ok((digest, index)) => chunk_named(key@) == Some((digest@, index)),
            Err(error) => chunk_named(key@) is None && error.deep_view()
                == DatabaseErrorKind::Corruption && corrupts(error, unknown_key_words()),
        },
{
    if key.len() != PHYSICAL_KEY_BYTES {
        return Err(corruption("snapshot tree contains an unknown physical key"));
    }
    let magic: [u8; 8] = [65, 83, 84, 75, 69, 89, 0, 1];
    let head = slice_to_vec(slice_subrange(key.as_slice(), 0, 8));
    assert(magic@ =~= key_magic());
    assert(head@ =~= key@.subrange(0, 8));
    assert(head.deep_view() =~= head@);
    if !head.same(&slice_to_vec(&magic)) {
        return Err(corruption("snapshot tree contains an unknown physical key"));
    }
    let digest = array_of_32(key.as_slice(), 8);
    let index: u64 = get_be(slice_subrange(key.as_slice(), 40, 44));
    proof {
        pow256_values();
        be_value_round_trip(key@.subrange(40, 44));
    }
    Ok((digest, index as u32))
}

} // verus!
