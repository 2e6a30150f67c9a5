//! Files of a node: a magic number, a length, a digest and a payload.

use vstd::prelude::*;
use vstd::slice::{slice_subrange, slice_to_vec};
use crate::digest::{sha256, sha256_digest};
use crate::input::{ends_with, starts_with};
use crate::model::{Model, outcome};
use crate::raft::types::{PersistentSnapshot, PersistentSnapshotView, SnapshotMetadata};
use crate::runtime::error::{Result, RuntimeError, RuntimeErrorKind, corrupt};
use crate::text::{decimal, decimal_text};
use crate::types::message;
use crate::wire::{
    array_of_32, be_bytes, be_bytes_len, be_round_trip, be_value, get_be, pow256_values, put_be,
    put_bytes,
};

verus! {

broadcast use crate::model::group_contents;

/// The bytes of a file before its payload.
pub const HEADER_BYTES: usize = 48;

/// The most bytes of the data of a snapshot.
pub const MAX_SNAPSHOT_BYTES: usize = 536_870_912;

/// The most bytes of the metadata of a snapshot.
pub const MAX_METADATA_BYTES: usize = 65_536;

/// The most bytes of the state of a node.
pub const MAX_STATE_BYTES: usize = 536_870_912;

/// The most bytes of the payload of a snapshot file.
pub const MAX_SNAPSHOT_PAYLOAD_BYTES: usize = 536_936_456;

/// A file with a payload.
pub open spec fn frame_bytes(magic: Seq<u8>, payload: Seq<u8>) -> Seq<u8> {
    magic + be_bytes(payload.len(), 8) + sha256(payload) + payload
}

/// The payload of a file.
pub open spec fn frame_payload(magic: Seq<u8>, maximum: nat, encoded: Seq<u8>) -> Option<Seq<u8>> {
    if encoded.len() < HEADER_BYTES || encoded.subrange(0, 8) != magic || be_value(
        encoded.subrange(8, 16),
    ) > maximum || HEADER_BYTES + be_value(encoded.subrange(8, 16)) != encoded.len() || sha256(
        encoded.subrange(48, encoded.len() as int),
    ) != encoded.subrange(16, 48) {
        None
    } else {
        Some(encoded.subrange(48, encoded.len() as int))
    }
}

/// What is read from a file is the payload that was written to it.
pub proof fn file_round_trip(magic: Seq<u8>, maximum: nat, payload: Seq<u8>)
    requires
        magic.len() == 8,
        payload.len() <= maximum,
        payload.len() <= u64::MAX,
        sha256(payload).len() == 32,
    ensures
        frame_payload(magic, maximum, frame_bytes(magic, payload)) == Some(payload),
{
    let encoded = frame_bytes(magic, payload);
    pow256_values();
    be_bytes_len(payload.len(), 8);
    be_round_trip(payload.len(), 8);
    assert(encoded.subrange(0, 8) =~= magic);
    assert(encoded.subrange(8, 16) =~= be_bytes(payload.len(), 8));
    assert(encoded.subrange(16, 48) =~= sha256(payload));
    assert(encoded.subrange(48, encoded.len() as int) =~= payload);
}

/// Writes a file.
pub fn encode_frame(magic: &[u8; 8], payload: &Vec<u8>, maximum: usize, label: &str) -> (result:
    Result<Vec<u8>>)
    ensures
        match result {
            Ok(bytes) => payload@.len() <= maximum && bytes@ == frame_bytes(magic@, payload@)
                && frame_payload(magic@, maximum as nat, bytes@) == Some(payload@),
            Err(error) => payload@.len() > maximum && error.deep_view() == RuntimeErrorKind::Limit,
        },
{
    if payload.len() > maximum {
        return Err(
            RuntimeError::Limit(
                message(
                    &[
                        label,
                        " is ",
                        &decimal_text(payload.len() as u64),
                        " bytes; maximum is ",
                        &decimal_text(maximum as u64),
                    ],
                ),
            ),
        );
    }
    let checksum = sha256_digest(payload.as_slice());
    let mut encoded: Vec<u8> = Vec::new();
    put_bytes(&mut encoded, magic.as_slice());
    assert(encoded@ =~= magic@);
    put_be(&mut encoded, payload.len() as u64, 8);
    put_bytes(&mut encoded, checksum.as_slice());
    put_bytes(&mut encoded, payload.as_slice());
    proof {
        file_round_trip(magic@, maximum as nat, payload@);
    }
    Ok(encoded)
}

/// Reads a file.
pub fn decode_frame(encoded: &Vec<u8>, magic: &[u8; 8], maximum: usize, label: &str) -> (result:
    Result<Vec<u8>>)
    ensures
        outcome(result) == match frame_payload(magic@, maximum as nat, encoded@) {
            Some(payload) => Ok::<Seq<u8>, RuntimeErrorKind>(payload),
            None => Err(RuntimeErrorKind::Corruption),
        },
{
    let ghost bytes = encoded@;
    if encoded.len() < HEADER_BYTES {
        return Err(RuntimeError::Corruption(message(&[label, " header is invalid"])));
    }
    let head = slice_to_vec(slice_subrange(encoded.as_slice(), 0, 8));
    let wanted = slice_to_vec(magic);
    assert(head.deep_view() =~= bytes.subrange(0, 8));
    assert(wanted.deep_view() =~= magic@);
    if !head.same(&wanted) {
        return Err(RuntimeError::Corruption(message(&[label, " header is invalid"])));
    }
    let length: u64 = get_be(slice_subrange(encoded.as_slice(), 8, 16));
    let rest: usize = encoded.len() - HEADER_BYTES;
    if length > maximum as u64 || length != rest as u64 {
        return Err(RuntimeError::Corruption(message(&[label, " length is invalid"])));
    }
    let expected = array_of_32(encoded.as_slice(), 16);
    let payload = slice_to_vec(slice_subrange(encoded.as_slice(), HEADER_BYTES, encoded.len()));
    assert(payload.deep_view() =~= bytes.subrange(48, bytes.len() as int));
    assert(payload@ =~= bytes.subrange(48, bytes.len() as int));
    if !sha256_digest(payload.as_slice()).same(&expected) {
        return Err(RuntimeError::Corruption(message(&[label, " checksum mismatch"])));
    }
    Ok(payload)
}

/// `ASTSNP`, zero, and a version byte.
pub open spec fn snapshot_magic() -> Seq<u8> {
    seq![65u8, 83u8, 84u8, 83u8, 78u8, 80u8, 0u8, 1u8]
}

/// A snapshot that can be stored: it is what its metadata says, holds something,
/// and is behind some entry.
pub open spec fn storable_snapshot(snapshot: PersistentSnapshotView) -> bool {
    &&& snapshot.valid()
    &&& 0 < snapshot.data.len() <= MAX_SNAPSHOT_BYTES
    &&& snapshot.metadata.last_included_index != 0
}

/// Fails unless a snapshot can be stored.
pub fn validate_snapshot(snapshot: &PersistentSnapshot) -> (result: Result<()>)
    ensures
        outcome(result) == if storable_snapshot(snapshot.deep_view()) {
            Ok::<(), RuntimeErrorKind>(())
        } else {
            Err(RuntimeErrorKind::Corruption)
        },
{
    assert(snapshot.data.deep_view() =~= snapshot.data@);
    if !snapshot.validate() || snapshot.data.len() == 0 || snapshot.data.len() > MAX_SNAPSHOT_BYTES
        || snapshot.metadata.last_included_index == 0 {
        return Err(corrupt("snapshot length, checksum, or boundary is invalid"));
    }
    Ok(())
}

/// The payload of a snapshot file: the length of the metadata, the metadata and
/// the data.
pub open spec fn snapshot_payload(metadata: Seq<u8>, data: Seq<u8>) -> Seq<u8> {
    be_bytes(metadata.len(), 8) + metadata + data
}

/// The metadata and the data in the payload of a snapshot file.
pub open spec fn payload_parts(payload: Seq<u8>) -> Option<(Seq<u8>, Seq<u8>)> {
    if payload.len() < 8 || be_value(payload.subrange(0, 8)) > MAX_METADATA_BYTES || 8 + be_value(
        payload.subrange(0, 8),
    ) > payload.len() {
        None
    } else {
        let end = 8int + be_value(payload.subrange(0, 8));
        Some((payload.subrange(8, end), payload.subrange(end, payload.len() as int)))
    }
}

/// What is read from the payload of a snapshot file is what was written to it.
pub proof fn snapshot_payload_round_trip(metadata: Seq<u8>, data: Seq<u8>)
    requires
        metadata.len() <= MAX_METADATA_BYTES,
    ensures
        payload_parts(snapshot_payload(metadata, data)) == Some((metadata, data)),
{
    let payload = snapshot_payload(metadata, data);
    pow256_values();
    be_bytes_len(metadata.len(), 8);
    be_round_trip(metadata.len(), 8);
    assert(payload.subrange(0, 8) =~= be_bytes(metadata.len(), 8));
    assert(payload.subrange(8, 8int + metadata.len()) =~= metadata);
    assert(payload.subrange(8int + metadata.len(), payload.len() as int) =~= data);
}

/// Writes the file of a snapshot, given its metadata in bytes.
pub fn encode_snapshot(snapshot: &PersistentSnapshot, metadata: &Vec<u8>) -> (result: Result<
    Vec<u8>,
>)
    ensures
        match result {
            Ok(bytes) => storable_snapshot(snapshot.deep_view()) && metadata@.len()
                <= MAX_METADATA_BYTES && bytes@ == frame_bytes(
                snapshot_magic(),
                snapshot_payload(metadata@, snapshot.deep_view().data),
            ),
            Err(error) => if !storable_snapshot(snapshot.deep_view()) {
                error.deep_view() == RuntimeErrorKind::Corruption
            } else {
                metadata@.len() > MAX_METADATA_BYTES && error.deep_view()
                    == RuntimeErrorKind::Limit
            },
        },
{
    if let Err(error) = validate_snapshot(snapshot) {
        return Err(error);
    }
    if metadata.len() > MAX_METADATA_BYTES {
        return Err(
            RuntimeError::Limit("snapshot metadata exceeds its size bound".to_owned()),
        );
    }
    assert(snapshot.data.deep_view() =~= snapshot.data@);
    let mut payload: Vec<u8> = Vec::new();
    put_be(&mut payload, metadata.len() as u64, 8);
    put_bytes(&mut payload, metadata.as_slice());
    put_bytes(&mut payload, snapshot.data.as_slice());
    assert(payload@ =~= snapshot_payload(metadata@, snapshot.data@));
    proof {
        be_bytes_len(metadata@.len(), 8);
    }
    let magic: [u8; 8] = [65, 83, 84, 83, 78, 80, 0, 1];
    assert(magic@ =~= snapshot_magic());
    encode_frame(&magic, &payload, MAX_SNAPSHOT_PAYLOAD_BYTES, "Raft snapshot")
}

/// The metadata and the data in the file of a snapshot, both in bytes.
pub fn decode_snapshot(encoded: &Vec<u8>) -> (result: Result<(Vec<u8>, Vec<u8>)>)
    ensures
        match result {
            Ok((metadata, data)) => frame_payload(
                snapshot_magic(),
                MAX_SNAPSHOT_PAYLOAD_BYTES as nat,
                encoded@,
            ) matches Some(payload) && payload_parts(payload) == Some((metadata@, data@)),
            Err(error) => error.deep_view() == RuntimeErrorKind::Corruption && match frame_payload(
                snapshot_magic(),
                MAX_SNAPSHOT_PAYLOAD_BYTES as nat,
                encoded@,
            ) {
                Some(payload) => payload_parts(payload) is None,
                None => true,
            },
        },
{
    let magic: [u8; 8] = [65, 83, 84, 83, 78, 80, 0, 1];
    assert(magic@ =~= snapshot_magic());
    let payload = match decode_frame(
        encoded,
        &magic,
        MAX_SNAPSHOT_PAYLOAD_BYTES,
        "Raft snapshot",
    ) {
        Ok(payload) => payload,
        Err(error) => return Err(error),
    };
    assert(payload.deep_view() =~= payload@);
    if payload.len() < 8 {
        return Err(corrupt("snapshot metadata length is missing"));
    }
    let length: u64 = get_be(slice_subrange(payload.as_slice(), 0, 8));
    if length > MAX_METADATA_BYTES as u64 || length > (payload.len() - 8) as u64 {
        return Err(corrupt("snapshot metadata extent is invalid"));
    }
    let end: usize = 8 + length as usize;
    let metadata = slice_to_vec(slice_subrange(payload.as_slice(), 8, end));
    let data = slice_to_vec(slice_subrange(payload.as_slice(), end, payload.len()));
    Ok((metadata, data))
}

/// A snapshot that was read, if its metadata is what the node expects.
pub fn loaded_snapshot(snapshot: PersistentSnapshot, expected: &SnapshotMetadata) -> (result: Result<
    PersistentSnapshot,
>)
    ensures
        outcome(result) == if storable_snapshot(snapshot.deep_view())
            && snapshot.deep_view().metadata == expected.deep_view() {
            Ok::<PersistentSnapshotView, RuntimeErrorKind>(snapshot.deep_view())
        } else {
            Err(RuntimeErrorKind::Corruption)
        },
{
    if let Err(error) = validate_snapshot(&snapshot) {
        return Err(error);
    }
    if !snapshot.metadata.same(expected) {
        return Err(corrupt("snapshot sidecar metadata disagrees with its manifest"));
    }
    Ok(snapshot)
}

/// A digit of a byte in base sixteen.
pub open spec fn hex_digit(n: int) -> char {
    if n < 10 {
        (48 + n) as char
    } else {
        (87 + n) as char
    }
}

/// The first `n` bytes in base sixteen.
pub open spec fn hex(bytes: Seq<u8>, n: int) -> Seq<char>
    decreases n,
{
    if n <= 0 {
        Seq::empty()
    } else {
        hex(bytes, n - 1).push(hex_digit(bytes[n - 1] as int / 16)).push(
            hex_digit(bytes[n - 1] as int % 16),
        )
    }
}

fn hex_text_of(n: u8) -> (text: &'static str)
    requires
        n < 16,
    ensures
        text@ == seq![hex_digit(n as int)],
{
    proof {
        reveal_strlit("0");
        reveal_strlit("1");
        reveal_strlit("2");
        reveal_strlit("3");
        reveal_strlit("4");
        reveal_strlit("5");
        reveal_strlit("6");
        reveal_strlit("7");
        reveal_strlit("8");
        reveal_strlit("9");
        reveal_strlit("a");
        reveal_strlit("b");
        reveal_strlit("c");
        reveal_strlit("d");
        reveal_strlit("e");
        reveal_strlit("f");
    }
    let text = match n {
        0 => "0",
        1 => "1",
        2 => "2",
        3 => "3",
        4 => "4",
        5 => "5",
        6 => "6",
        7 => "7",
        8 => "8",
        9 => "9",
        10 => "a",
        11 => "b",
        12 => "c",
        13 => "d",
        14 => "e",
        _ => "f",
    };
    assert(text@ =~= seq![hex_digit(n as int)]);
    text
}

/// A number of at least `width` digits.
pub open spec fn padded(n: nat, width: nat) -> Seq<char> {
    let digits = decimal(n);
    if digits.len() < width {
        Seq::new((width - digits.len()) as nat, |i: int| '0') + digits
    } else {
        digits
    }
}

/// The name of the file of a snapshot.
pub open spec fn snapshot_name(index: u64, digest: Seq<u8>) -> Seq<char> {
    "snapshot-"@ + padded(index as nat, 20) + "-"@ + hex(digest, 32) + ".bin"@
}

/// The name of the file of a snapshot.
pub fn snapshot_file_name(metadata: &SnapshotMetadata) -> (name: String)
    ensures
        name@ == snapshot_name(
            metadata.deep_view().last_included_index,
            metadata.deep_view().sha256,
        ),
{
    let digits = decimal_text(metadata.last_included_index);
    let mut name = "snapshot-".to_owned();
    let ghost start = name@;
    let length: usize = digits.as_str().unicode_len();
    let mut zeros: usize = length;
    assert(start + Seq::new(0, |i: int| '0') =~= start);
    while zeros < 20
        invariant
            length <= zeros,
            zeros <= 20 || zeros == length,
            name@ == start + Seq::new((zeros - length) as nat, |i: int| '0'),
        decreases 20 - zeros,
    {
        proof {
            reveal_strlit("0");
        }
        name.append("0");
        zeros = zeros + 1;
        assert(name@ =~= start + Seq::new((zeros - length) as nat, |i: int| '0'));
    }
    name.append(&digits);
    assert(name@ =~= start + padded(metadata.last_included_index as nat, 20));
    name.append("-");
    let ghost head = name@;
    let mut i: usize = 0;
    assert(head + hex(metadata.sha256@, 0) =~= head);
    while i < 32
        invariant
            i <= 32,
            name@ == head + hex(metadata.sha256@, i as int),
        decreases 32 - i,
    {
        let byte: u8 = metadata.sha256[i];
        name.append(hex_text_of(byte / 16));
        name.append(hex_text_of(byte % 16));
        i = i + 1;
        assert(name@ =~= head + hex(metadata.sha256@, i as int));
    }
    name.append(".bin");
    name
}

/// Whether the file of a snapshot is to be written: not where it is there
/// already. A file of its name that holds something else is corrupt.
pub fn snapshot_to_write(snapshot: &PersistentSnapshot, existing: Option<&PersistentSnapshot>) -> (result:
    Result<bool>)
    ensures
        outcome(result) == if !storable_snapshot(snapshot.deep_view()) {
            Err::<bool, RuntimeErrorKind>(RuntimeErrorKind::Corruption)
        } else {
            match existing {
                Some(found) => if found.deep_view() == snapshot.deep_view() {
                    Ok(false)
                } else {
                    Err(RuntimeErrorKind::Corruption)
                },
                None => Ok(true),
            }
        },
{
    if let Err(error) = validate_snapshot(snapshot) {
        return Err(error);
    }
    match existing {
        Some(found) => {
            if !found.same(snapshot) {
                return Err(corrupt("content-addressed snapshot file has different bytes"));
            }
            Ok(false)
        },
        None => Ok(true),
    }
}

/// Whether a file can go: it is that of a snapshot, and not of one that is kept.
pub fn obsolete_file(name: &str, kept: &Vec<String>) -> (obsolete: bool)
    ensures
        obsolete == ("snapshot-"@.is_prefix_of(name@) && ".bin"@.is_suffix_of(name@)
            && !kept.deep_view().contains(name@)),
{
    if !starts_with(name, "snapshot-") || !ends_with(name, ".bin") {
        return false;
    }
    let owned = name.to_owned();
    let mut i: usize = 0;
    while i < kept.len()
        invariant
            i <= kept@.len(),
            owned@ == name@,
            forall|j: int| 0 <= j < i ==> #[trigger] kept.deep_view()[j] != name@,
        decreases kept@.len() - i,
    {
        if kept[i].same(&owned) {
            assert(kept.deep_view()[i as int] == name@);
            return false;
        }
        assert(kept.deep_view()[i as int] != name@);
        i = i + 1;
    }
    true
}

} // verus!
