//! Fingerprints that tell requests and log entries apart.

use vstd::prelude::*;
use vstd::utf8::encode_utf8;
use crate::codec::{encode_row, row_encoding};
use crate::db::error::{DatabaseError, DatabaseErrorKind, Result};
use crate::digest::{sha256, sha256_digest};
use crate::engine::error::{EngineError, EngineErrorKind};
use crate::model::Model;
use crate::types::{Row, RowView, TxnId, Value, ValueView};
use crate::wire::{be_bytes, put_be, put_bytes};

verus! {

broadcast use crate::model::group_contents;

/// `ASTDBREQ`, a version byte, `SQL`.
pub open spec fn sql_magic() -> Seq<u8> {
    seq![65u8, 83u8, 84u8, 68u8, 66u8, 82u8, 69u8, 81u8, 1u8, 83u8, 81u8, 76u8]
}

/// `ASTDBREQ`, a version byte, `COMMIT`.
pub open spec fn commit_magic() -> Seq<u8> {
    seq![
        65u8,
        83u8,
        84u8,
        68u8,
        66u8,
        82u8,
        69u8,
        81u8,
        1u8,
        67u8,
        79u8,
        77u8,
        77u8,
        73u8,
        84u8,
    ]
}

/// `ASTRAFTNOOP` and a version byte.
pub open spec fn noop_magic() -> Seq<u8> {
    seq![65u8, 83u8, 84u8, 82u8, 65u8, 70u8, 84u8, 78u8, 79u8, 79u8, 80u8, 1u8]
}

/// Bytes behind their number.
pub open spec fn counted_bytes(bytes: Seq<u8>) -> Seq<u8> {
    be_bytes(bytes.len(), 8) + bytes
}

/// The fingerprint of a statement with its parameters.
pub open spec fn statement_fingerprint(sql: Seq<char>, parameters: Seq<ValueView>) -> std::result::Result<
    Seq<u8>,
    DatabaseErrorKind,
> {
    match row_encoding(RowView { values: parameters }) {
        Err(error) => Err(DatabaseErrorKind::Engine(EngineErrorKind::Core(error))),
        Ok(encoded) => Ok(
            sha256(sql_magic() + counted_bytes(encode_utf8(sql)) + counted_bytes(encoded)),
        ),
    }
}

/// The fingerprint of the commit of a transaction.
pub open spec fn commit_fingerprint_of(transaction_id: TxnId) -> Seq<u8> {
    sha256(commit_magic() + be_bytes(transaction_id as nat, 8))
}

/// The hash of the no-op that a leader commits at the start of its term.
pub open spec fn noop_hash(index: u64, term: u64) -> Seq<u8> {
    sha256(noop_magic() + be_bytes(index as nat, 8) + be_bytes(term as nat, 8))
}

fn put_fingerprint_bytes(output: &mut Vec<u8>, bytes: &[u8])
    ensures
        final(output)@ == old(output)@ + counted_bytes(bytes@),
{
    let ghost before = output@;
    put_be(output, bytes.len() as u64, 8);
    put_bytes(output, bytes);
    assert(output@ =~= before + counted_bytes(bytes@));
}

/// The fingerprint of a statement with its parameters.
pub fn sql_fingerprint(sql: &str, parameters: &Vec<Value>) -> (result: Result<[u8; 32]>)
    ensures
        match result {
            Ok(hash) => statement_fingerprint(sql@, parameters.deep_view()) == Ok::<
                Seq<u8>,
                DatabaseErrorKind,
            >(hash@),
            Err(error) => statement_fingerprint(sql@, parameters.deep_view()) == Err::<
                Seq<u8>,
                DatabaseErrorKind,
            >(error.deep_view()),
        },
{
    let row = Row { values: parameters.duplicate() };
    let values = match encode_row(&row) {
        Ok(values) => values,
        Err(error) => return Err(DatabaseError::Engine(EngineError::Core(error))),
    };
    let magic: [u8; 12] = [65, 83, 84, 68, 66, 82, 69, 81, 1, 83, 81, 76];
    let mut encoded: Vec<u8> = Vec::new();
    put_bytes(&mut encoded, &magic);
    assert(encoded@ =~= sql_magic());
    put_fingerprint_bytes(&mut encoded, sql.as_bytes());
    put_fingerprint_bytes(&mut encoded, values.as_slice());
    Ok(sha256_digest(encoded.as_slice()))
}

/// The fingerprint of the commit of a transaction.
pub fn commit_fingerprint(transaction_id: TxnId) -> (hash: [u8; 32])
    ensures
        hash@ == commit_fingerprint_of(transaction_id),
{
    let magic: [u8; 15] = [65, 83, 84, 68, 66, 82, 69, 81, 1, 67, 79, 77, 77, 73, 84];
    let mut encoded: Vec<u8> = Vec::new();
    put_bytes(&mut encoded, &magic);
    assert(encoded@ =~= commit_magic());
    put_be(&mut encoded, transaction_id, 8);
    sha256_digest(encoded.as_slice())
}

/// The hash of the no-op that a leader commits at the start of its term.
pub fn raft_noop_hash(index: u64, term: u64) -> (hash: [u8; 32])
    ensures
        hash@ == noop_hash(index, term),
{
    let magic: [u8; 12] = [65, 83, 84, 82, 65, 70, 84, 78, 79, 79, 80, 1];
    let mut encoded: Vec<u8> = Vec::new();
    put_bytes(&mut encoded, &magic);
    assert(encoded@ =~= noop_magic());
    put_be(&mut encoded, index, 8);
    put_be(&mut encoded, term, 8);
    sha256_digest(encoded.as_slice())
}

} // verus!
