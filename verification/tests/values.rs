//! Values, their encodings and schemas.

use aster::codec::{decode_row, encode_mvcc_key, encode_ordered, encode_row};
use aster::types::{Column, DataType, Row, Schema, Value};

#[test]
fn row_codec_round_trips_edge_values() {
    let row = Row {
        values: vec![
            Value::Null,
            Value::Int64(i64::MIN),
            Value::Int64(i64::MAX),
            Value::Bool(false),
            Value::Text("nul\0 snowman ☃".into()),
            Value::Bytes(vec![0, 1, 255]),
        ],
    };
    let encoded = encode_row(&row).unwrap();
    assert_eq!(decode_row(&encoded).unwrap(), row);
    assert!(decode_row(&encoded[..encoded.len() - 1]).is_err());
}

#[test]
fn ordered_integer_encoding_preserves_order() {
    let values = [i64::MIN, -1, 0, 1, i64::MAX];
    let encoded: Vec<Vec<u8>> = values
        .iter()
        .map(|value| {
            let mut bytes = Vec::new();
            encode_ordered(&Value::Int64(*value), &mut bytes);
            bytes
        })
        .collect();
    assert!(encoded.windows(2).all(|pair| pair[0] < pair[1]));
}

#[test]
fn text_encoding_handles_zero_and_prefixes() {
    let values = ["", "a", "a\0", "aa", "b"];
    let encoded: Vec<Vec<u8>> = values
        .iter()
        .map(|value| {
            let mut bytes = Vec::new();
            encode_ordered(&Value::Text((*value).into()), &mut bytes);
            bytes
        })
        .collect();
    assert!(encoded.windows(2).all(|pair| pair[0] < pair[1]));
}

#[test]
fn descending_timestamp_puts_newest_version_first() {
    let old = encode_mvcc_key(7, &Value::Int64(42), 10).unwrap();
    let new = encode_mvcc_key(7, &Value::Int64(42), 11).unwrap();
    assert!(new < old);
}

#[test]
fn schema_requires_exactly_one_non_null_primary_key() {
    let valid = Schema {
        columns: vec![Column {
            name: "id".into(),
            data_type: DataType::Int64,
            nullable: false,
            primary_key: true,
        }],
    };
    assert_eq!(valid.validate().unwrap(), 0);

    let invalid = Schema {
        columns: vec![Column {
            name: "id".into(),
            data_type: DataType::Int64,
            nullable: true,
            primary_key: true,
        }],
    };
    assert!(invalid.validate().is_err());
}
