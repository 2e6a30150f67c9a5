//! Encodings of values and rows.
//!
//! A row is written as the number of its values followed by the values, each
//! behind a tag. A second encoding keeps the order of values, so that encoded
//! keys sort as the keys do.

use vstd::prelude::*;
use vstd::slice::{slice_subrange, slice_to_vec};
use vstd::utf8::{decode_utf8, encode_utf8, valid_utf8};
use crate::model::outcome;
use crate::order::{
    below_at, lex_lt, strictly_below, strictly_below_at, strictly_below_extends,
    strictly_below_is_lex, strictly_below_prefixed,
};
use crate::types::{
    DataType, Error, ErrorKind, MAX_ROW_COLUMNS, MAX_VALUE_BYTES, Result, Row, RowView, Value,
    ValueView, message,
};
use crate::wire::{
    be_bytes, be_bytes_ordered, get_le, le_bytes, le_round_trip, le_value, le_value_round_trip,
    pow256_values, put_be, put_bytes, put_le, signed_of, twos_complement, unsigned_of,
};

verus! {

broadcast use crate::model::group_contents;

const NULL: u8 = 0;

const INT64: u8 = 1;

const BOOL_FALSE: u8 = 2;

const BOOL_TRUE: u8 = 3;

const TEXT: u8 = 4;

const BYTES: u8 = 5;

/// The tag in front of an encoded value.
pub open spec fn tag(value: ValueView) -> u8 {
    match value {
        ValueView::Null => 0,
        ValueView::Int64(_) => 1,
        ValueView::Bool(b) => if b {
            3
        } else {
            2
        },
        ValueView::Text(_) => 4,
        ValueView::Bytes(_) => 5,
    }
}

/// Bytes behind their length.
pub open spec fn sized(bytes: Seq<u8>) -> Seq<u8> {
    le_bytes(bytes.len(), 4) + bytes
}

/// The value's own bytes are not more than a value may hold.
pub open spec fn encodable(value: ValueView) -> bool {
    match value {
        ValueView::Text(text) => encode_utf8(text).len() <= MAX_VALUE_BYTES,
        ValueView::Bytes(bytes) => bytes.len() <= MAX_VALUE_BYTES,
        _ => true,
    }
}

/// The encoding of a value.
#[verifier::opaque]
pub open spec fn encoded_value(value: ValueView) -> Seq<u8> {
    seq![tag(value)] + (match value {
        ValueView::Int64(x) => le_bytes(twos_complement(x), 8),
        ValueView::Text(text) => sized(encode_utf8(text)),
        ValueView::Bytes(bytes) => sized(bytes),
        _ => Seq::empty(),
    })
}

/// The encodings of values, one after the other.
pub open spec fn encoded_values(values: Seq<ValueView>) -> Seq<u8>
    decreases values.len(),
{
    if values.len() == 0 {
        Seq::empty()
    } else {
        encoded_value(values[0]) + encoded_values(values.skip(1))
    }
}

/// The row has an encoding.
pub open spec fn encodable_row(row: RowView) -> bool {
    &&& row.values.len() <= MAX_ROW_COLUMNS
    &&& forall|i: int| 0 <= i < row.values.len() ==> encodable(#[trigger] row.values[i])
}

/// The encoding of a row.
pub open spec fn encoded_row(row: RowView) -> Seq<u8> {
    le_bytes(row.values.len(), 4) + encoded_values(row.values)
}

/// What encoding a row answers.
pub open spec fn row_encoding(row: RowView) -> std::result::Result<Seq<u8>, ErrorKind> {
    if encodable_row(row) {
        Ok(encoded_row(row))
    } else {
        Err(ErrorKind::LimitExceeded)
    }
}

/// The signed number with the given two's complement.
pub open spec fn signed_value(u: nat) -> i64 {
    if u < 0x8000_0000_0000_0000 {
        u as i64
    } else {
        (u - 0x1_0000_0000_0000_0000) as i64
    }
}

/// Reads bytes behind their length: the bytes and what follows them.
pub open spec fn read_sized(s: Seq<u8>) -> std::result::Result<(Seq<u8>, Seq<u8>), ErrorKind> {
    if s.len() < 4 {
        Err(ErrorKind::InvalidEncoding)
    } else {
        let count = le_value(s.take(4));
        if count > MAX_VALUE_BYTES {
            Err(ErrorKind::LimitExceeded)
        } else if s.len() - 4 < count {
            Err(ErrorKind::InvalidEncoding)
        } else {
            Ok((s.skip(4).take(count as int), s.skip(4).skip(count as int)))
        }
    }
}

/// Reads one value: the value and what follows it.
#[verifier::opaque]
pub open spec fn read_value(s: Seq<u8>) -> std::result::Result<(ValueView, Seq<u8>), ErrorKind> {
    if s.len() == 0 {
        Err(ErrorKind::InvalidEncoding)
    } else {
        let rest = s.skip(1);
        if s[0] == 0 {
            Ok((ValueView::Null, rest))
        } else if s[0] == 1 {
            if rest.len() < 8 {
                Err(ErrorKind::InvalidEncoding)
            } else {
                Ok((ValueView::Int64(signed_value(le_value(rest.take(8)))), rest.skip(8)))
            }
        } else if s[0] == 2 {
            Ok((ValueView::Bool(false), rest))
        } else if s[0] == 3 {
            Ok((ValueView::Bool(true), rest))
        } else if s[0] == 4 {
            match read_sized(rest) {
                Err(error) => Err(error),
                Ok((bytes, after)) => if valid_utf8(bytes) {
                    Ok((ValueView::Text(decode_utf8(bytes)), after))
                } else {
                    Err(ErrorKind::InvalidEncoding)
                },
            }
        } else if s[0] == 5 {
            match read_sized(rest) {
                Err(error) => Err(error),
                Ok((bytes, after)) => Ok((ValueView::Bytes(bytes), after)),
            }
        } else {
            Err(ErrorKind::InvalidEncoding)
        }
    }
}

/// Reads `count` values: the values and what follows them.
pub open spec fn read_values(s: Seq<u8>, count: nat) -> std::result::Result<
    (Seq<ValueView>, Seq<u8>),
    ErrorKind,
>
    decreases count,
{
    if count == 0 {
        Ok((Seq::empty(), s))
    } else {
        match read_value(s) {
            Err(error) => Err(error),
            Ok((value, after)) => after_values(
                seq![value],
                read_values(after, (count - 1) as nat),
            ),
        }
    }
}

/// The result of reading when `done` was read before.
pub open spec fn after_values(
    done: Seq<ValueView>,
    read: std::result::Result<(Seq<ValueView>, Seq<u8>), ErrorKind>,
) -> std::result::Result<(Seq<ValueView>, Seq<u8>), ErrorKind> {
    match read {
        Err(error) => Err(error),
        Ok((values, after)) => Ok((done + values, after)),
    }
}

/// Reads a row that fills the whole input.
pub open spec fn read_row(s: Seq<u8>) -> std::result::Result<RowView, ErrorKind> {
    if s.len() < 4 {
        Err(ErrorKind::InvalidEncoding)
    } else if le_value(s.take(4)) > MAX_ROW_COLUMNS {
        Err(ErrorKind::LimitExceeded)
    } else {
        match read_values(s.skip(4), le_value(s.take(4))) {
            Err(error) => Err(error),
            Ok((values, after)) => if after.len() == 0 {
                Ok(RowView { values })
            } else {
                Err(ErrorKind::InvalidEncoding)
            },
        }
    }
}

/// Encodes a row. A row with too many values, or with a value that is too
/// long, has no encoding.
pub fn encode_row(row: &Row) -> (result: Result<Vec<u8>>)
    ensures
        outcome(result) == row_encoding(row.deep_view()),
{
    let ghost view = row.deep_view();
    if row.values.len() > MAX_ROW_COLUMNS {
        return Err(Error::LimitExceeded("too many row values".to_owned()));
    }
    let mut output: Vec<u8> = Vec::new();
    put_le(&mut output, row.values.len() as u64, 4);
    let mut i: usize = 0;
    assert(view.values.skip(0) =~= view.values);
    assert(output@ + encoded_values(view.values.skip(0)) =~= encoded_row(view));
    while i < row.values.len()
        invariant
            view == row.deep_view(),
            i <= row.values@.len() <= MAX_ROW_COLUMNS,
            output@ + encoded_values(view.values.skip(i as int)) == encoded_row(view),
            forall|j: int| 0 <= j < i ==> encodable(#[trigger] view.values[j]),
        decreases row.values@.len() - i,
    {
        let ghost before = output@;
        assert(view.values[i as int] == row.values[i as int].deep_view());
        if let Err(error) = encode_value(&row.values[i], &mut output) {
            return Err(error);
        }
        proof {
            let left = view.values.skip(i as int);
            assert(left[0] == view.values[i as int]);
            assert(left.skip(1) =~= view.values.skip(i + 1));
            assert(output@ + encoded_values(left.skip(1)) =~= before + encoded_values(left));
        }
        i = i + 1;
    }
    assert(output@ + encoded_values(view.values.skip(i as int)) =~= output@);
    Ok(output)
}

/// Decodes a row that fills the whole input.
pub fn decode_row(input: &[u8]) -> (result: Result<Row>)
    ensures
        outcome(result) == read_row(input@),
{
    let mut cursor = Cursor::new(input);
    let count = match cursor.u32() {
        Ok(count) => count as usize,
        Err(error) => return Err(error),
    };
    if count > MAX_ROW_COLUMNS {
        return Err(
            Error::LimitExceeded(
                message(&["encoded row contains ", count.to_string().as_str(), " values"]),
            ),
        );
    }
    let ghost start = cursor.rest();
    let mut values: Vec<Value> = Vec::with_capacity(count);
    let mut i: usize = 0;
    proof {
        let all = read_values(start, count as nat);
        if let Ok((read, after)) = all {
            assert(values.deep_view() + read =~= read);
        }
        assert(all == after_values(values.deep_view(), all));
    }
    while i < count
        invariant
            i <= count <= MAX_ROW_COLUMNS,
            input@.len() >= 4,
            count == le_value(input@.take(4)),
            start == input@.skip(4),
            cursor.well_formed(),
            read_values(start, count as nat) == after_values(
                values.deep_view(),
                read_values(cursor.rest(), (count - i) as nat),
            ),
        decreases count - i,
    {
        let ghost done = values.deep_view();
        let ghost here = cursor.rest();
        match decode_value(&mut cursor) {
            Ok(value) => {
                values.push(value);
                i = i + 1;
                proof {
                    assert(values.deep_view() =~= done + seq![value.deep_view()]);
                    if let Ok((read, after)) = read_values(cursor.rest(), (count - i) as nat) {
                        assert(values.deep_view() + read =~= done + (seq![value.deep_view()]
                            + read));
                    }
                }
            },
            Err(error) => return Err(error),
        }
    }
    proof {
        assert(values.deep_view() + Seq::<ValueView>::empty() =~= values.deep_view());
    }
    match cursor.finish() {
        Ok(()) => Ok(Row { values }),
        Err(error) => Err(error),
    }
}

/// Appends the encoding of a value. When the value is too long only its tag
/// is appended.
pub fn encode_value(value: &Value, output: &mut Vec<u8>) -> (result: Result<()>)
    ensures
        result is Ok == encodable(value.deep_view()),
        result is Ok ==> final(output)@ == old(output)@ + encoded_value(value.deep_view()),
        result matches Err(error) ==> error.deep_view() == ErrorKind::LimitExceeded
            && final(output)@ == old(output)@.push(tag(value.deep_view())),
{
    reveal(encoded_value);
    let ghost before = output@;
    let ghost view = value.deep_view();
    let result = match value {
        Value::Null => {
            output.push(NULL);
            Ok(())
        },
        Value::Int64(x) => {
            output.push(INT64);
            put_le(output, unsigned_of(*x), 8);
            Ok(())
        },
        Value::Bool(b) => {
            output.push(
                if *b {
                    BOOL_TRUE
                } else {
                    BOOL_FALSE
                },
            );
            Ok(())
        },
        Value::Text(text) => {
            output.push(TEXT);
            encode_bytes(text.as_str().as_bytes(), output)
        },
        Value::Bytes(bytes) => {
            output.push(BYTES);
            encode_bytes(bytes.as_slice(), output)
        },
    };
    assert(result is Ok ==> output@ =~= before + encoded_value(view));
    result
}

fn decode_value(cursor: &mut Cursor<'_>) -> (result: Result<Value>)
    requires
        old(cursor).well_formed(),
    ensures
        final(cursor).well_formed(),
        match result {
            Ok(value) => read_value(old(cursor).rest()) == Ok::<(ValueView, Seq<u8>), ErrorKind>(
                (value.deep_view(), final(cursor).rest()),
            ),
            Err(error) => read_value(old(cursor).rest()) == Err::<(ValueView, Seq<u8>), ErrorKind>(
                error.deep_view(),
            ),
        },
{
    reveal(read_value);
    let tag = match cursor.byte() {
        Ok(tag) => tag,
        Err(error) => return Err(error),
    };
    if tag == NULL {
        Ok(Value::Null)
    } else if tag == INT64 {
        match cursor.i64() {
            Ok(x) => Ok(Value::Int64(x)),
            Err(error) => Err(error),
        }
    } else if tag == BOOL_FALSE {
        Ok(Value::Bool(false))
    } else if tag == BOOL_TRUE {
        Ok(Value::Bool(true))
    } else if tag == TEXT {
        match cursor.bytes() {
            Ok(bytes) => match text_from_utf8(slice_to_vec(bytes)) {
                Some(text) => {
                    proof {
                        vstd::utf8::encode_utf8_decode_utf8(text@);
                    }
                    Ok(Value::Text(text))
                },
                None => Err(Error::InvalidEncoding("text is not valid UTF-8".to_owned())),
            },
            Err(error) => Err(error),
        }
    } else if tag == BYTES {
        match cursor.bytes() {
            Ok(bytes) => Ok(Value::Bytes(slice_to_vec(bytes))),
            Err(error) => Err(error),
        }
    } else {
        Err(Error::InvalidEncoding(message(&["unknown value tag ", tag.to_string().as_str()])))
    }
}

/// `String::from_utf8`: gives the text whose UTF-8 bytes are `bytes`, and
/// nothing if they are not valid UTF-8.
#[verifier::external_body]
fn text_from_utf8(bytes: Vec<u8>) -> (text: Option<String>)
    ensures
        text is Some == valid_utf8(bytes@),
        text matches Some(text) ==> encode_utf8(text@) == bytes@,
{
    String::from_utf8(bytes).ok()
}

fn encode_bytes(value: &[u8], output: &mut Vec<u8>) -> (result: Result<()>)
    ensures
        result is Ok == (value@.len() <= MAX_VALUE_BYTES),
        result is Ok ==> final(output)@ == old(output)@ + sized(value@),
        result matches Err(error) ==> error.deep_view() == ErrorKind::LimitExceeded
            && final(output)@ == old(output)@,
{
    if value.len() > MAX_VALUE_BYTES {
        return Err(
            Error::LimitExceeded(
                message(
                    &[
                        "value contains ",
                        value.len().to_string().as_str(),
                        " bytes; maximum is ",
                        MAX_VALUE_BYTES.to_string().as_str(),
                    ],
                ),
            ),
        );
    }
    put_le(output, value.len() as u64, 4);
    put_bytes(output, value);
    assert(output@ =~= old(output)@ + sized(value@));
    Ok(())
}

/// Bytes with every zero byte followed by `0xff`, and two zero bytes at the
/// end.
pub open spec fn escaped(bytes: Seq<u8>) -> Seq<u8>
    decreases bytes.len(),
{
    if bytes.len() == 0 {
        seq![0u8, 0u8]
    } else {
        escaped_byte(bytes[0]) + escaped(bytes.skip(1))
    }
}

pub open spec fn escaped_byte(byte: u8) -> Seq<u8> {
    if byte == 0 {
        seq![0u8, 0xffu8]
    } else {
        seq![byte]
    }
}

/// The order-preserving encoding of a value.
pub open spec fn ordered_value(value: ValueView) -> Seq<u8> {
    seq![tag(value)] + (match value {
        ValueView::Int64(x) => be_bytes((x + 0x8000_0000_0000_0000) as nat, 8),
        ValueView::Text(text) => escaped(encode_utf8(text)),
        ValueView::Bytes(bytes) => escaped(bytes),
        _ => Seq::empty(),
    })
}

/// Encodes a value so that the byte order of encodings is the order of values.
pub fn encode_ordered(value: &Value, output: &mut Vec<u8>)
    ensures
        final(output)@ == old(output)@ + ordered_value(value.deep_view()),
{
    let ghost before = output@;
    match value {
        Value::Null => output.push(NULL),
        Value::Int64(x) => {
            output.push(INT64);
            put_be(output, (*x as i128 + 0x8000_0000_0000_0000) as u64, 8);
        },
        Value::Bool(b) => output.push(
            if *b {
                BOOL_TRUE
            } else {
                BOOL_FALSE
            },
        ),
        Value::Text(text) => {
            output.push(TEXT);
            encode_memcomparable(text.as_str().as_bytes(), output);
        },
        Value::Bytes(bytes) => {
            output.push(BYTES);
            encode_memcomparable(bytes.as_slice(), output);
        },
    }
    assert(output@ =~= before + ordered_value(value.deep_view()));
}

/// The key of one version of a row.
pub open spec fn mvcc_key(table_id: u64, primary_key: ValueView, commit_timestamp: u64) -> Seq<u8> {
    be_bytes(table_id as nat, 8) + ordered_value(primary_key) + be_bytes(
        (u64::MAX - commit_timestamp) as nat,
        8,
    )
}

/// Encodes the key of one version of a row: by table, then by primary key,
/// then newest first.
pub fn encode_mvcc_key(table_id: u64, primary_key: &Value, commit_timestamp: u64) -> (result: Result<
    Vec<u8>,
>)
    ensures
        outcome(result) == Ok::<Seq<u8>, ErrorKind>(
            mvcc_key(table_id, primary_key.deep_view(), commit_timestamp),
        ),
{
    let mut output: Vec<u8> = Vec::new();
    put_be(&mut output, table_id, 8);
    encode_ordered(primary_key, &mut output);
    put_be(&mut output, u64::MAX - commit_timestamp, 8);
    assert(output@ =~= mvcc_key(table_id, primary_key.deep_view(), commit_timestamp));
    Ok(output)
}

/// Whether a value may stand in a column of the given type and nullability.
pub fn value_matches_type(value: &Value, expected: DataType, nullable: bool) -> (matches: bool)
    ensures
        matches == (match value.deep_view().data_type() {
            None => nullable,
            Some(actual) => actual == expected,
        }),
{
    match value.data_type() {
        None => nullable,
        Some(actual) => actual == expected,
    }
}

fn encode_memcomparable(value: &[u8], output: &mut Vec<u8>)
    ensures
        final(output)@ == old(output)@ + escaped(value@),
{
    let ghost target = output@ + escaped(value@);
    let mut i: usize = 0;
    assert(value@.skip(0) =~= value@);
    while i < value.len()
        invariant
            i <= value@.len(),
            output@ + escaped(value@.skip(i as int)) == target,
        decreases value@.len() - i,
    {
        let ghost before = output@;
        let byte: u8 = value[i];
        if byte == 0 {
            output.push(0);
            output.push(0xff);
        } else {
            output.push(byte);
        }
        proof {
            assert(output@ =~= before + escaped_byte(byte));
            let left = value@.skip(i as int);
            assert(left.skip(1) =~= value@.skip(i + 1));
            assert(output@ + escaped(left.skip(1)) =~= before + escaped(left));
        }
        i = i + 1;
    }
    let ghost before = output@;
    output.push(0);
    output.push(0);
    assert(output@ =~= before + escaped(value@.skip(i as int)));
}

struct Cursor<'a> {
    input: &'a [u8],
    offset: usize,
}

impl<'a> Cursor<'a> {
    spec fn well_formed(&self) -> bool {
        self.offset <= self.input@.len()
    }

    /// What has not been read.
    spec fn rest(&self) -> Seq<u8> {
        self.input@.skip(self.offset as int)
    }

    fn new(input: &'a [u8]) -> (cursor: Self)
        ensures
            cursor.well_formed(),
            cursor.rest() == input@,
    {
        let cursor = Cursor { input, offset: 0 };
        assert(cursor.rest() =~= input@);
        cursor
    }

    fn take(&mut self, count: usize) -> (result: Result<&'a [u8]>)
        requires
            old(self).well_formed(),
        ensures
            final(self).well_formed(),
            result is Ok == (count <= old(self).rest().len()),
            result matches Ok(bytes) ==> bytes@ == old(self).rest().take(count as int)
                && final(self).rest() == old(self).rest().skip(count as int),
            result matches Err(error) ==> error.deep_view() == ErrorKind::InvalidEncoding,
    {
        let length = self.input.len();
        let end = match self.offset.checked_add(count) {
            Some(end) => end,
            None => return Err(Error::InvalidEncoding("offset overflow".to_owned())),
        };
        if end > length {
            return Err(Error::InvalidEncoding("truncated input".to_owned()));
        }
        let bytes = slice_subrange(self.input, self.offset, end);
        assert(bytes@ =~= self.rest().take(count as int));
        self.offset = end;
        assert(self.rest() =~= old(self).rest().skip(count as int));
        Ok(bytes)
    }

    fn byte(&mut self) -> (result: Result<u8>)
        requires
            old(self).well_formed(),
        ensures
            final(self).well_formed(),
            result is Ok == (1 <= old(self).rest().len()),
            result matches Ok(byte) ==> byte == old(self).rest()[0] && final(self).rest()
                == old(self).rest().skip(1),
            result matches Err(error) ==> error.deep_view() == ErrorKind::InvalidEncoding,
    {
        match self.take(1) {
            Ok(bytes) => Ok(bytes[0]),
            Err(error) => Err(error),
        }
    }

    fn u32(&mut self) -> (result: Result<u32>)
        requires
            old(self).well_formed(),
        ensures
            final(self).well_formed(),
            result is Ok == (4 <= old(self).rest().len()),
            result matches Ok(x) ==> x == le_value(old(self).rest().take(4)) && final(self).rest()
                == old(self).rest().skip(4),
            result matches Err(error) ==> error.deep_view() == ErrorKind::InvalidEncoding,
    {
        match self.take(4) {
            Ok(bytes) => {
                proof {
                    le_value_round_trip(bytes@);
                    pow256_values();
                }
                Ok(get_le(bytes) as u32)
            },
            Err(error) => Err(error),
        }
    }

    fn i64(&mut self) -> (result: Result<i64>)
        requires
            old(self).well_formed(),
        ensures
            final(self).well_formed(),
            result is Ok == (8 <= old(self).rest().len()),
            result matches Ok(x) ==> x == signed_value(le_value(old(self).rest().take(8)))
                && final(self).rest() == old(self).rest().skip(8),
            result matches Err(error) ==> error.deep_view() == ErrorKind::InvalidEncoding,
    {
        match self.take(8) {
            Ok(bytes) => Ok(signed_of(get_le(bytes))),
            Err(error) => Err(error),
        }
    }

    fn bytes(&mut self) -> (result: Result<&'a [u8]>)
        requires
            old(self).well_formed(),
        ensures
            final(self).well_formed(),
            match result {
                Ok(bytes) => read_sized(old(self).rest()) == Ok::<(Seq<u8>, Seq<u8>), ErrorKind>(
                    (bytes@, final(self).rest()),
                ),
                Err(error) => read_sized(old(self).rest()) == Err::<(Seq<u8>, Seq<u8>), ErrorKind>(
                    error.deep_view(),
                ),
            },
    {
        let count = match self.u32() {
            Ok(count) => count as usize,
            Err(error) => return Err(error),
        };
        if count > MAX_VALUE_BYTES {
            return Err(
                Error::LimitExceeded(
                    message(&["encoded value has ", count.to_string().as_str(), " bytes"]),
                ),
            );
        }
        self.take(count)
    }

    fn finish(self) -> (result: Result<()>)
        requires
            self.well_formed(),
        ensures
            result is Ok == (self.rest().len() == 0),
            result matches Err(error) ==> error.deep_view() == ErrorKind::InvalidEncoding,
    {
        if self.offset == self.input.len() {
            Ok(())
        } else {
            Err(
                Error::InvalidEncoding(
                    message(
                        &[
                            (self.input.len() - self.offset).to_string().as_str(),
                            " trailing bytes",
                        ],
                    ),
                ),
            )
        }
    }
}

/// Reading the encoding of a value gives the value and what followed it.
pub proof fn value_round_trip(value: ValueView, after: Seq<u8>)
    requires
        encodable(value),
    ensures
        read_value(encoded_value(value) + after) == Ok::<(ValueView, Seq<u8>), ErrorKind>(
            (value, after),
        ),
{
    reveal(encoded_value);
    reveal(read_value);
    let s = encoded_value(value) + after;
    pow256_values();
    assert(s[0] == tag(value));
    match value {
        ValueView::Int64(x) => {
            le_round_trip(twos_complement(x), 8);
            assert(s.skip(1).take(8) =~= le_bytes(twos_complement(x), 8));
            assert(s.skip(1).skip(8) =~= after);
        },
        ValueView::Text(text) => {
            let bytes = encode_utf8(text);
            sized_round_trip(bytes, after);
            assert(s.skip(1) =~= sized(bytes) + after);
            vstd::utf8::encode_utf8_valid_utf8(text);
            vstd::utf8::encode_utf8_decode_utf8(text);
        },
        ValueView::Bytes(bytes) => {
            sized_round_trip(bytes, after);
            assert(s.skip(1) =~= sized(bytes) + after);
        },
        _ => {
            assert(s.skip(1) =~= after);
        },
    }
}

proof fn sized_round_trip(bytes: Seq<u8>, after: Seq<u8>)
    requires
        bytes.len() <= MAX_VALUE_BYTES,
    ensures
        read_sized(sized(bytes) + after) == Ok::<(Seq<u8>, Seq<u8>), ErrorKind>((bytes, after)),
{
    let s = sized(bytes) + after;
    pow256_values();
    le_round_trip(bytes.len(), 4);
    assert(s.take(4) =~= le_bytes(bytes.len(), 4));
    assert(s.skip(4).take(bytes.len() as int) =~= bytes);
    assert(s.skip(4).skip(bytes.len() as int) =~= after);
}

proof fn values_round_trip(values: Seq<ValueView>, after: Seq<u8>)
    requires
        forall|i: int| 0 <= i < values.len() ==> encodable(#[trigger] values[i]),
    ensures
        read_values(encoded_values(values) + after, values.len()) == Ok::<
            (Seq<ValueView>, Seq<u8>),
            ErrorKind,
        >((values, after)),
    decreases values.len(),
{
    if values.len() == 0 {
        assert(encoded_values(values) + after =~= after);
        assert(values =~= Seq::empty());
    } else {
        let tail = values.skip(1);
        assert forall|i: int| 0 <= i < tail.len() implies encodable(#[trigger] tail[i]) by {
            assert(tail[i] == values[i + 1]);
        }
        values_round_trip(tail, after);
        value_round_trip(values[0], encoded_values(tail) + after);
        assert(encoded_values(values) + after =~= encoded_value(values[0]) + (encoded_values(tail)
            + after));
        assert(seq![values[0]] + tail =~= values);
    }
}

/// Decoding the encoding of a row gives the row.
pub proof fn row_round_trip(row: RowView)
    requires
        encodable_row(row),
    ensures
        read_row(encoded_row(row)) == Ok::<RowView, ErrorKind>(row),
{
    let s = encoded_row(row);
    pow256_values();
    le_round_trip(row.values.len(), 4);
    values_round_trip(row.values, Seq::empty());
    assert(s.take(4) =~= le_bytes(row.values.len(), 4));
    assert(s.skip(4) =~= encoded_values(row.values) + Seq::<u8>::empty());
}

proof fn sized_canonical(s: Seq<u8>)
    requires
        read_sized(s) is Ok,
    ensures
        ({
            let (bytes, after) = read_sized(s)->Ok_0;
            bytes.len() <= MAX_VALUE_BYTES && s == sized(bytes) + after
        }),
{
    let (bytes, after) = read_sized(s)->Ok_0;
    le_value_round_trip(s.take(4));
    assert(s =~= s.take(4) + bytes + after);
    assert(s =~= sized(bytes) + after);
}

/// A value that was read has an encoding, and it is what was read.
pub proof fn value_canonical(s: Seq<u8>)
    requires
        read_value(s) is Ok,
    ensures
        ({
            let (value, after) = read_value(s)->Ok_0;
            encodable(value) && s == encoded_value(value) + after
        }),
{
    reveal(encoded_value);
    reveal(read_value);
    let (value, after) = read_value(s)->Ok_0;
    let rest = s.skip(1);
    assert(s =~= seq![s[0]] + rest);
    if s[0] == 1 {
        le_value_round_trip(rest.take(8));
        pow256_values();
        assert(rest =~= rest.take(8) + rest.skip(8));
        assert(s =~= encoded_value(value) + after);
    } else if s[0] == 4 {
        sized_canonical(rest);
        let (bytes, _) = read_sized(rest)->Ok_0;
        vstd::utf8::decode_utf8_encode_utf8(bytes);
        assert(s =~= encoded_value(value) + after);
    } else if s[0] == 5 {
        sized_canonical(rest);
        assert(s =~= encoded_value(value) + after);
    } else {
        assert(s =~= encoded_value(value) + after);
    }
}

proof fn values_canonical(s: Seq<u8>, count: nat)
    requires
        read_values(s, count) is Ok,
    ensures
        ({
            let (values, after) = read_values(s, count)->Ok_0;
            &&& values.len() == count
            &&& forall|i: int| 0 <= i < values.len() ==> encodable(#[trigger] values[i])
            &&& s == encoded_values(values) + after
        }),
    decreases count,
{
    let (values, after) = read_values(s, count)->Ok_0;
    if count == 0 {
        assert(s =~= encoded_values(values) + after);
    } else {
        value_canonical(s);
        let (first, behind) = read_value(s)->Ok_0;
        values_canonical(behind, (count - 1) as nat);
        let (tail, _) = read_values(behind, (count - 1) as nat)->Ok_0;
        assert(values == seq![first] + tail);
        assert(values.skip(1) =~= tail);
        assert forall|i: int| 0 <= i < values.len() implies encodable(#[trigger] values[i]) by {
            if i > 0 {
                assert(values[i] == tail[i - 1]);
            }
        }
        assert(s =~= encoded_values(values) + after);
    }
}

/// A row that was decoded has an encoding, and it is the input: no two inputs
/// decode to the same row.
pub proof fn row_canonical(s: Seq<u8>)
    requires
        read_row(s) is Ok,
    ensures
        encodable_row(read_row(s)->Ok_0),
        encoded_row(read_row(s)->Ok_0) == s,
{
    let count = le_value(s.take(4));
    values_canonical(s.skip(4), count);
    let (values, after) = read_values(s.skip(4), count)->Ok_0;
    le_value_round_trip(s.take(4));
    assert(s =~= s.take(4) + s.skip(4));
    assert(s =~= encoded_row(RowView { values }));
}

/// What follows a value does not change how it is read.
proof fn value_extends(s: Seq<u8>, more: Seq<u8>)
    requires
        read_value(s) is Ok,
    ensures
        read_value(s + more) == Ok::<(ValueView, Seq<u8>), ErrorKind>(
            (read_value(s)->Ok_0.0, read_value(s)->Ok_0.1 + more),
        ),
{
    value_canonical(s);
    let (value, after) = read_value(s)->Ok_0;
    value_round_trip(value, after + more);
    assert(s + more =~= encoded_value(value) + (after + more));
}

proof fn values_extend(s: Seq<u8>, count: nat, more: Seq<u8>)
    requires
        read_values(s, count) is Ok,
    ensures
        read_values(s + more, count) == Ok::<(Seq<ValueView>, Seq<u8>), ErrorKind>(
            (read_values(s, count)->Ok_0.0, read_values(s, count)->Ok_0.1 + more),
        ),
    decreases count,
{
    if count > 0 {
        value_extends(s, more);
        values_extend(read_value(s)->Ok_0.1, (count - 1) as nat, more);
    }
}

/// No proper prefix of a row's encoding decodes.
pub proof fn truncated_row_is_rejected(row: RowView, length: int)
    requires
        encodable_row(row),
        0 <= length < encoded_row(row).len(),
    ensures
        read_row(encoded_row(row).take(length)) is Err,
{
    let s = encoded_row(row);
    let short = s.take(length);
    let cut = s.skip(length);
    if read_row(short) is Ok {
        row_round_trip(row);
        let count = le_value(short.take(4));
        assert(short.take(4) =~= s.take(4));
        values_extend(short.skip(4), count, cut);
        assert(short.skip(4) + cut =~= s.skip(4));
        assert(read_values(s.skip(4), count)->Ok_0.1 == read_values(
            short.skip(4),
            count,
        )->Ok_0.1 + cut);
    }
}

proof fn escaped_ordered(a: Seq<u8>, b: Seq<u8>)
    requires
        lex_lt(a, b),
    ensures
        strictly_below(escaped(a), escaped(b)),
    decreases a.len(),
{
    let k = choose|k: int| below_at(a, b, k);
    let x = escaped(a);
    let y = escaped(b);
    if a.len() == 0 {
        if b[0] == 0 {
            assert(strictly_below_at(x, y, 1));
        } else {
            assert(strictly_below_at(x, y, 0));
        }
    } else if a[0] < b[0] {
        assert(strictly_below_at(x, y, 0));
    } else {
        assert(k > 0);
        assert(below_at(a.skip(1), b.skip(1), k - 1));
        escaped_ordered(a.skip(1), b.skip(1));
        strictly_below_prefixed(escaped_byte(a[0]), escaped(a.skip(1)), escaped(b.skip(1)));
    }
}

/// The order of encodings is the order of values: by type tag first, and
/// within a type as SQL compares. The difference lies within both encodings,
/// so it decides whatever follows them.
pub proof fn ordered_encoding_preserves_order(a: ValueView, b: ValueView)
    requires
        tag(a) < tag(b) || a.precedes(b),
    ensures
        strictly_below(ordered_value(a), ordered_value(b)),
{
    let x = ordered_value(a);
    let y = ordered_value(b);
    if tag(a) < tag(b) {
        assert(strictly_below_at(x, y, 0));
    } else {
        let p = seq![tag(a)];
        match (a, b) {
            (ValueView::Int64(i), ValueView::Int64(j)) => {
                pow256_values();
                let m = (i + 0x8000_0000_0000_0000) as nat;
                let n = (j + 0x8000_0000_0000_0000) as nat;
                be_bytes_ordered(m, n, 8);
                strictly_below_prefixed(p, be_bytes(m, 8), be_bytes(n, 8));
            },
            (ValueView::Text(s), ValueView::Text(t)) => {
                escaped_ordered(encode_utf8(s), encode_utf8(t));
                strictly_below_prefixed(p, escaped(encode_utf8(s)), escaped(encode_utf8(t)));
            },
            (ValueView::Bytes(s), ValueView::Bytes(t)) => {
                escaped_ordered(s, t);
                strictly_below_prefixed(p, escaped(s), escaped(t));
            },
            _ => {},
        }
    }
}

/// Different values have different order-preserving encodings, and neither is
/// a prefix of the other.
pub proof fn ordered_encoding_is_injective(a: ValueView, b: ValueView)
    requires
        a != b,
    ensures
        strictly_below(ordered_value(a), ordered_value(b)) || strictly_below(
            ordered_value(b),
            ordered_value(a),
        ),
        ordered_value(a) != ordered_value(b),
{
    crate::types::comparison_is_antisymmetric(a, b);
    if tag(a) < tag(b) || a.precedes(b) {
        ordered_encoding_preserves_order(a, b);
        strictly_below_is_lex(ordered_value(a), ordered_value(b));
    } else {
        assert(tag(b) < tag(a) || b.precedes(a));
        ordered_encoding_preserves_order(b, a);
        strictly_below_is_lex(ordered_value(b), ordered_value(a));
    }
}

/// Of two versions of a row the key of the newer one comes first.
pub proof fn newest_version_first(table_id: u64, primary_key: ValueView, older: u64, newer: u64)
    requires
        older < newer,
    ensures
        lex_lt(mvcc_key(table_id, primary_key, newer), mvcc_key(table_id, primary_key, older)),
{
    pow256_values();
    let p = be_bytes(table_id as nat, 8) + ordered_value(primary_key);
    let m = (u64::MAX - newer) as nat;
    let n = (u64::MAX - older) as nat;
    be_bytes_ordered(m, n, 8);
    strictly_below_prefixed(p, be_bytes(m, 8), be_bytes(n, 8));
    strictly_below_is_lex(
        mvcc_key(table_id, primary_key, newer),
        mvcc_key(table_id, primary_key, older),
    );
}

/// All versions of a row stand together: the keys of two rows of a table are
/// ordered as their primary keys, whatever the timestamps.
pub proof fn versions_stand_together(
    table_id: u64,
    a: ValueView,
    b: ValueView,
    a_timestamp: u64,
    b_timestamp: u64,
)
    requires
        tag(a) < tag(b) || a.precedes(b),
    ensures
        lex_lt(mvcc_key(table_id, a, a_timestamp), mvcc_key(table_id, b, b_timestamp)),
{
    let p = be_bytes(table_id as nat, 8);
    let s = be_bytes((u64::MAX - a_timestamp) as nat, 8);
    let t = be_bytes((u64::MAX - b_timestamp) as nat, 8);
    ordered_encoding_preserves_order(a, b);
    strictly_below_prefixed(p, ordered_value(a), ordered_value(b));
    strictly_below_extends(p + ordered_value(a), p + ordered_value(b), s, t);
    strictly_below_is_lex(
        mvcc_key(table_id, a, a_timestamp),
        mvcc_key(table_id, b, b_timestamp),
    );
}

} // verus!
