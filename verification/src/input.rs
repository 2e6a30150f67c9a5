//! Reading what people write: numbers, values, client ids and peers.

use vstd::prelude::*;
use vstd::utf8::encode_utf8;
use crate::model::Model;
use crate::ordmap::OrdMap;
use crate::runtime::config::{SocketAddress, SocketAddressView};
use crate::types::{NodeId, Value, ValueView, folded_name, labelled, message, same_name};

verus! {

broadcast use crate::model::group_contents;

/// A decimal digit.
pub open spec fn is_digit(c: char) -> bool {
    '0' <= c <= '9'
}

/// Characters are decimal digits, and at least one.
pub open spec fn digits(text: Seq<char>) -> bool {
    text.len() > 0 && forall|i: int| 0 <= i < text.len() ==> is_digit(#[trigger] text[i])
}

/// The number that decimal digits write.
pub open spec fn digits_value(text: Seq<char>) -> nat
    decreases text.len(),
{
    if text.len() == 0 {
        0
    } else {
        digits_value(text.drop_last()) * 10 + (text.last() as nat - '0' as nat) as nat
    }
}

/// The number that digits write, if it is at most `limit`.
pub open spec fn bounded_digits(text: Seq<char>, limit: nat) -> Option<nat> {
    if digits(text) && digits_value(text) <= limit {
        Some(digits_value(text))
    } else {
        None
    }
}

/// The characters from `from` on.
pub open spec fn rest(text: Seq<char>, from: int) -> Seq<char> {
    text.subrange(from, text.len() as int)
}

/// A text starts with a sign.
pub open spec fn signed(text: Seq<char>, sign: char) -> bool {
    text.len() > 0 && text[0] == sign
}

/// The unsigned number that a text writes: digits, with a plus sign or without.
pub open spec fn unsigned_value(text: Seq<char>) -> Option<nat> {
    bounded_digits(
        if signed(text, '+') {
            rest(text, 1)
        } else {
            text
        },
        u64::MAX as nat,
    )
}

/// The signed number that a text writes: digits, with a sign or without.
pub open spec fn signed_value(text: Seq<char>) -> Option<int> {
    if signed(text, '-') {
        match bounded_digits(rest(text, 1), 0x8000_0000_0000_0000) {
            Some(magnitude) => Some(-(magnitude as int)),
            None => None,
        }
    } else {
        match bounded_digits(
            if signed(text, '+') {
                rest(text, 1)
            } else {
                text
            },
            i64::MAX as nat,
        ) {
            Some(magnitude) => Some(magnitude as int),
            None => None,
        }
    }
}

proof fn prefix_is_no_larger(text: Seq<char>, n: int)
    requires
        0 <= n <= text.len(),
    ensures
        digits_value(text.subrange(0, n)) <= digits_value(text),
    decreases text.len(),
{
    if n == text.len() {
        assert(text.subrange(0, n) =~= text);
    } else {
        prefix_is_no_larger(text.drop_last(), n);
        assert(text.drop_last().subrange(0, n) =~= text.subrange(0, n));
    }
}

/// The number that the digits from `from` on write, if it is at most `limit`.
fn magnitude(text: &str, from: usize, limit: u64) -> (value: Option<u64>)
    requires
        from <= text@.len(),
    ensures
        match value {
            Some(value) => bounded_digits(rest(text@, from as int), limit as nat) == Some(
                value as nat,
            ),
            None => bounded_digits(rest(text@, from as int), limit as nat) is None,
        },
{
    let length: usize = text.unicode_len();
    let ghost whole = rest(text@, from as int);
    let mut value: u64 = 0;
    let mut i: usize = from;
    assert(whole.subrange(0, 0) =~= Seq::empty());
    while i < length
        invariant
            from <= i <= length,
            length == text@.len(),
            whole == rest(text@, from as int),
            forall|j: int| 0 <= j < i - from ==> is_digit(#[trigger] whole[j]),
            value == digits_value(whole.subrange(0, i - from)),
            value <= limit,
        decreases length - i,
    {
        let c: char = text.get_char(i);
        assert(c == whole[i - from]);
        if c < '0' || c > '9' {
            assert(!is_digit(whole[i - from]));
            return None;
        }
        let digit: u64 = c as u64 - '0' as u64;
        let ghost next = whole.subrange(0, i - from + 1);
        proof {
            assert(next.drop_last() =~= whole.subrange(0, i - from));
            assert(digits_value(next) == value * 10 + digit);
            prefix_is_no_larger(whole, i - from + 1);
        }
        let wide: u128 = value as u128 * 10 + digit as u128;
        if wide > limit as u128 {
            return None;
        }
        value = wide as u64;
        i = i + 1;
    }
    assert(whole.subrange(0, length - from) =~= whole);
    if from == length {
        return None;
    }
    Some(value)
}

/// Reads an unsigned number.
pub fn parse_unsigned(text: &str) -> (value: Option<u64>)
    ensures
        match value {
            Some(value) => unsigned_value(text@) == Some(value as nat),
            None => unsigned_value(text@) is None,
        },
{
    if text.unicode_len() > 0 && text.get_char(0) == '+' {
        return magnitude(text, 1, u64::MAX);
    }
    assert(rest(text@, 0) =~= text@);
    magnitude(text, 0, u64::MAX)
}

/// Reads a signed number.
pub fn parse_signed(text: &str) -> (value: Option<i64>)
    ensures
        match value {
            Some(value) => signed_value(text@) == Some(value as int),
            None => signed_value(text@) is None,
        },
{
    let length: usize = text.unicode_len();
    if length > 0 && text.get_char(0) == '-' {
        return match magnitude(text, 1, 0x8000_0000_0000_0000) {
            Some(value) => {
                if value == 0x8000_0000_0000_0000 {
                    Some(i64::MIN)
                } else {
                    Some(-(value as i64))
                }
            },
            None => None,
        };
    }
    let from: usize = if length > 0 && text.get_char(0) == '+' {
        1
    } else {
        0
    };
    assert(from == 0 ==> rest(text@, 0) =~= text@);
    match magnitude(text, from, 0x7fff_ffff_ffff_ffff) {
        Some(value) => Some(value as i64),
        None => None,
    }
}

/// The value of a hexadecimal digit.
pub open spec fn hex_digit(byte: u8) -> Option<u8> {
    if 0x30 <= byte <= 0x39 {
        Some((byte - 0x30) as u8)
    } else if 0x41 <= byte <= 0x46 {
        Some((byte - 0x41 + 10) as u8)
    } else if 0x61 <= byte <= 0x66 {
        Some((byte - 0x61 + 10) as u8)
    } else {
        None
    }
}

fn hex_digit_of(byte: u8) -> (value: Option<u8>)
    ensures
        value == hex_digit(byte),
        value matches Some(digit) ==> digit < 16,
{
    if byte >= 0x30 && byte <= 0x39 {
        Some(byte - 0x30)
    } else if byte >= 0x41 && byte <= 0x46 {
        Some(byte - 0x41 + 10)
    } else if byte >= 0x61 && byte <= 0x66 {
        Some(byte - 0x61 + 10)
    } else {
        None
    }
}

/// The byte that two characters write: two digits, or a digit behind a plus
/// sign.
pub open spec fn hex_pair(high: u8, low: u8) -> Option<u8> {
    match (hex_digit(high), hex_digit(low)) {
        (Some(a), Some(b)) => Some((a * 16 + b) as u8),
        (None, Some(b)) => if high == 0x2b {
            Some(b)
        } else {
            None
        },
        _ => None,
    }
}

fn hex_pair_of(high: u8, low: u8) -> (value: Option<u8>)
    ensures
        value == hex_pair(high, low),
{
    match (hex_digit_of(high), hex_digit_of(low)) {
        (Some(a), Some(b)) => Some(a * 16 + b),
        (None, Some(b)) => {
            if high == 0x2b {
                Some(b)
            } else {
                None
            }
        },
        _ => None,
    }
}

/// Every two characters write a byte.
pub open spec fn hex_text(text: Seq<u8>) -> bool {
    text.len() % 2 == 0 && forall|i: int|
        0 <= i < text.len() / 2 ==> (#[trigger] hex_pair(text[2 * i], text[2 * i + 1])) is Some
}

/// The bytes that characters write two by two.
pub open spec fn hex_bytes(text: Seq<u8>) -> Seq<u8> {
    Seq::new(text.len() / 2, |i: int| hex_pair(text[2 * i], text[2 * i + 1])->0)
}

fn read_hex(text: &[u8]) -> (bytes: Option<Vec<u8>>)
    ensures
        match bytes {
            Some(bytes) => hex_text(text@) && bytes@ == hex_bytes(text@),
            None => !hex_text(text@),
        },
{
    if text.len() % 2 != 0 {
        return None;
    }
    let mut bytes: Vec<u8> = Vec::new();
    let mut i: usize = 0;
    while 2 * i < text.len()
        invariant
            2 * i <= text@.len(),
            text@.len() % 2 == 0,
            text@.len() <= usize::MAX,
            bytes@.len() == i,
            forall|j: int|
                0 <= j < i ==> (#[trigger] hex_pair(text@[2 * j], text@[2 * j + 1])) == Some(
                    bytes@[j],
                ),
        decreases text@.len() - 2 * i,
    {
        match hex_pair_of(text[2 * i], text[2 * i + 1]) {
            Some(byte) => {
                bytes.push(byte);
            },
            None => {
                assert(hex_pair(text@[2 * (i as int)], text@[2 * (i as int) + 1]) is None);
                return None;
            },
        }
        i = i + 1;
    }
    assert(bytes@ =~= hex_bytes(text@));
    Some(bytes)
}

pub(crate) fn starts_with(text: &str, prefix: &str) -> (starts: bool)
    ensures
        starts == prefix@.is_prefix_of(text@),
{
    let length: usize = prefix.unicode_len();
    if text.unicode_len() < length {
        return false;
    }
    let mut i: usize = 0;
    while i < length
        invariant
            i <= length,
            length == prefix@.len(),
            length <= text@.len(),
            forall|j: int| 0 <= j < i ==> prefix@[j] == #[trigger] text@[j],
        decreases length - i,
    {
        if text.get_char(i) != prefix.get_char(i) {
            assert(text@.subrange(0, length as int)[i as int] == text@[i as int]);
            return false;
        }
        i = i + 1;
    }
    assert(prefix@ =~= text@.subrange(0, length as int));
    true
}

/// Whether a text ends in another.
pub(crate) fn ends_with(text: &str, suffix: &str) -> (ends: bool)
    ensures
        ends == suffix@.is_suffix_of(text@),
{
    let length: usize = suffix.unicode_len();
    let whole: usize = text.unicode_len();
    if whole < length {
        return false;
    }
    let tail = text.substring_char(whole - length, whole);
    let same = starts_with(tail, suffix);
    assert(tail@.subrange(0, tail@.len() as int) =~= tail@);
    same
}

/// The value that a parameter writes.
pub open spec fn parameter_value(input: Seq<char>) -> Option<ValueView> {
    if folded_name(input) == folded_name("null"@) {
        Some(ValueView::Null)
    } else if folded_name(input) == folded_name("true"@) {
        Some(ValueView::Bool(true))
    } else if folded_name(input) == folded_name("false"@) {
        Some(ValueView::Bool(false))
    } else if "text:"@.is_prefix_of(input) {
        Some(ValueView::Text(rest(input, 5)))
    } else if "hex:"@.is_prefix_of(input) {
        if hex_text(encode_utf8(rest(input, 4))) {
            Some(ValueView::Bytes(hex_bytes(encode_utf8(rest(input, 4)))))
        } else {
            None
        }
    } else {
        match signed_value(input) {
            Some(value) => Some(ValueView::Int64(value as i64)),
            None => None,
        }
    }
}

/// Reads the value of a parameter: `null`, `true` or `false` in any case, a text
/// behind `text:`, bytes in hexadecimal behind `hex:`, or a number.
pub fn parse_value(input: &str) -> (result: std::result::Result<Value, String>)
    ensures
        match result {
            Ok(value) => parameter_value(input@) == Some(value.deep_view()),
            Err(_) => parameter_value(input@) is None,
        },
{
    proof {
        reveal_strlit("text:");
        reveal_strlit("hex:");
    }
    if same_name(input, "null") {
        return Ok(Value::Null);
    }
    if same_name(input, "true") {
        return Ok(Value::Bool(true));
    }
    if same_name(input, "false") {
        return Ok(Value::Bool(false));
    }
    if starts_with(input, "text:") {
        return Ok(Value::Text(input.substring_char(5, input.unicode_len()).to_owned()));
    }
    if starts_with(input, "hex:") {
        let text = input.substring_char(4, input.unicode_len());
        return match read_hex(text.as_bytes()) {
            Some(bytes) => Ok(Value::Bytes(bytes)),
            None => Err("hex parameter must contain pairs of digits".to_owned()),
        };
    }
    match parse_signed(input) {
        Some(value) => Ok(Value::Int64(value)),
        None => Err(
            "use an integer, true, false, null, text:<value>, or hex:<bytes>".to_owned(),
        ),
    }
}

/// Not the id that is all zero.
pub open spec fn is_client_id(id: Seq<u8>) -> bool {
    id.len() == 16 && exists|i: int| 0 <= i < 16 && #[trigger] id[i] != 0
}

/// All characters are hexadecimal digits.
pub open spec fn all_hex(text: Seq<u8>) -> bool {
    forall|i: int| 0 <= i < text.len() ==> hex_digit(#[trigger] text[i]) is Some
}

/// A text writes a client id: its bytes in hexadecimal digits, not all zero.
pub open spec fn client_id_text(text: Seq<u8>) -> bool {
    text.len() == 32 && all_hex(text) && is_client_id(hex_bytes(text))
}

fn all_hex_digits(text: &[u8]) -> (all: bool)
    ensures
        all == all_hex(text@),
{
    let mut i: usize = 0;
    while i < text.len()
        invariant
            i <= text@.len(),
            forall|j: int| 0 <= j < i ==> hex_digit(#[trigger] text@[j]) is Some,
        decreases text@.len() - i,
    {
        if hex_digit_of(text[i]).is_none() {
            return false;
        }
        i = i + 1;
    }
    true
}

/// Whether an id is not all zero.
pub fn is_nonzero(id: &[u8; 16]) -> (nonzero: bool)
    ensures
        nonzero == is_client_id(id@),
{
    let mut i: usize = 0;
    while i < 16
        invariant
            i <= 16,
            forall|j: int| 0 <= j < i ==> #[trigger] id@[j] == 0,
        decreases 16 - i,
    {
        if id[i] != 0 {
            assert(id@[i as int] != 0);
            return true;
        }
        i = i + 1;
    }
    false
}

/// Reads a client id.
pub fn parse_client_id(input: &str) -> (result: std::result::Result<[u8; 16], String>)
    ensures
        match result {
            Ok(id) => client_id_text(encode_utf8(input@)) && id@ == hex_bytes(encode_utf8(input@)),
            Err(_) => !client_id_text(encode_utf8(input@)),
        },
{
    let text = input.as_bytes();
    if text.len() != 32 || !all_hex_digits(text) {
        return Err("client id must contain exactly 32 hexadecimal digits".to_owned());
    }
    let mut id: [u8; 16] = [0;16];
    let mut i: usize = 0;
    while i < 16
        invariant
            i <= 16,
            text@.len() == 32,
            all_hex(text@),
            id@.len() == 16,
            forall|j: int| 0 <= j < i ==> #[trigger] id@[j] == hex_bytes(text@)[j],
        decreases 16 - i,
    {
        assert(hex_digit(text@[2 * (i as int)]) is Some);
        assert(hex_digit(text@[2 * (i as int) + 1]) is Some);
        match hex_pair_of(text[2 * i], text[2 * i + 1]) {
            Some(byte) => {
                id[i] = byte;
            },
            None => {},
        }
        i = i + 1;
    }
    assert(id@ =~= hex_bytes(text@));
    if !is_nonzero(&id) {
        return Err("client id must not be all zero".to_owned());
    }
    Ok(id)
}

/// Reads a sequence number, which is positive.
pub fn parse_sequence(input: &str) -> (result: std::result::Result<u64, String>)
    ensures
        match result {
            Ok(sequence) => sequence > 0 && unsigned_value(input@) == Some(sequence as nat),
            Err(_) => unsigned_value(input@) is None || unsigned_value(input@) == Some(0nat),
        },
{
    match parse_unsigned(input) {
        None => Err(labelled("invalid sequence: ", input)),
        Some(sequence) => {
            if sequence == 0 {
                return Err("sequence numbers start at one".to_owned());
            }
            Ok(sequence)
        },
    }
}

/// Where a character first stands, or the length.
pub open spec fn first_at(text: Seq<char>, mark: char) -> int
    decreases text.len(),
{
    if text.len() == 0 || text[0] == mark {
        0
    } else {
        1 + first_at(rest(text, 1), mark)
    }
}

proof fn first_at_is_first(text: Seq<char>, mark: char)
    ensures
        0 <= first_at(text, mark) <= text.len(),
        forall|i: int| 0 <= i < first_at(text, mark) ==> #[trigger] text[i] != mark,
        first_at(text, mark) < text.len() ==> text[first_at(text, mark)] == mark,
    decreases text.len(),
{
    if text.len() > 0 && text[0] != mark {
        let tail = rest(text, 1);
        first_at_is_first(tail, mark);
        assert forall|i: int| 0 <= i < first_at(text, mark) implies #[trigger] text[i] != mark by {
            if i > 0 {
                assert(tail[i - 1] == text[i]);
            }
        }
    }
}

proof fn first_is_first_at(text: Seq<char>, mark: char, at: int)
    requires
        0 <= at <= text.len(),
        forall|i: int| 0 <= i < at ==> #[trigger] text[i] != mark,
        at < text.len() ==> text[at] == mark,
    ensures
        first_at(text, mark) == at,
{
    first_at_is_first(text, mark);
    let found = first_at(text, mark);
    if found < at {
        assert(text[found] != mark);
    } else if at < found {
        assert(text[at] != mark);
    }
}

fn find(text: &str, mark: char) -> (at: usize)
    ensures
        at == first_at(text@, mark),
        at <= text@.len(),
{
    let length: usize = text.unicode_len();
    let mut i: usize = 0;
    while i < length
        invariant
            i <= length,
            length == text@.len(),
            forall|j: int| 0 <= j < i ==> #[trigger] text@[j] != mark,
        decreases length - i,
    {
        if text.get_char(i) == mark {
            proof {
                first_is_first_at(text@, mark, i as int);
            }
            return i;
        }
        i = i + 1;
    }
    proof {
        first_is_first_at(text@, mark, length as int);
    }
    length
}

/// What a peer's text says: its node, and the text of its address.
pub open spec fn peer_parts(item: Seq<char>) -> Option<(NodeId, Seq<char>)> {
    let at = first_at(item, '=');
    if at < item.len() {
        match unsigned_value(item.subrange(0, at)) {
            Some(node) => Some((node as u64, rest(item, at + 1))),
            None => None,
        }
    } else {
        None
    }
}

/// The node that a peer's text names.
pub open spec fn peer_node(item: Seq<char>) -> NodeId {
    let parts = peer_parts(item)->0;
    parts.0
}

/// The text of the address in a peer's text.
pub open spec fn peer_address(item: Seq<char>) -> Seq<char> {
    let parts = peer_parts(item)->0;
    parts.1
}

fn split_peer(item: &str) -> (parts: Option<(NodeId, String)>)
    ensures
        parts.deep_view() == peer_parts(item@),
{
    let at: usize = find(item, '=');
    let length: usize = item.unicode_len();
    if at == length {
        return None;
    }
    match parse_unsigned(item.substring_char(0, at)) {
        Some(node) => Some((node, item.substring_char(at + 1, length).to_owned())),
        None => None,
    }
}

/// An address can be read from any text.
pub open spec fn readable<A: Fn(&str) -> Option<SocketAddress>>(address: A) -> bool {
    forall|text: &str| #[trigger] call_requires(address, (text,))
}

/// What was read as the address in a text.
pub open spec fn read_as<A: Fn(&str) -> Option<SocketAddress>>(
    address: A,
    text: Seq<char>,
    answer: Option<SocketAddressView>,
) -> bool {
    exists|given: &str, returned: Option<SocketAddress>|
        given@ == text && returned.deep_view() == answer && #[trigger] call_ensures(
            address,
            (given,),
            returned,
        )
}

/// Reads a peer `NODE=ADDRESS` whose node is positive.
pub fn parse_peer<A: Fn(&str) -> Option<SocketAddress>>(address: A, value: &str) -> (result:
    std::result::Result<(NodeId, SocketAddress), String>)
    requires
        readable(address),
    ensures
        match peer_parts(value@) {
            None => result is Err,
            Some((node, text)) => if node == 0 {
                result is Err
            } else {
                match result {
                    Ok((named, found)) => named == node && read_as(
                        address,
                        text,
                        Some(found.deep_view()),
                    ),
                    Err(_) => read_as(address, text, None),
                }
            },
        },
{
    match split_peer(value) {
        None => Err("peer must be NODE_ID=HOST:PORT".to_owned()),
        Some((node, text)) => {
            if node == 0 {
                return Err("peer node id must be positive".to_owned());
            }
            let found = address(text.as_str());
            assert(read_as(address, text@, found.deep_view()));
            match found {
                Some(found) => Ok((node, found)),
                None => Err(labelled("invalid peer address: ", &text)),
            }
        },
    }
}

/// No two peers have one node.
pub open spec fn nodes_distinct(peers: Seq<(NodeId, SocketAddressView)>) -> bool {
    forall|i: int, j: int| 0 <= i < j < peers.len() ==> #[trigger] peers[i].0 != #[trigger] peers[j].0
}

/// The addresses of nodes, from the first `n` peers of a list.
pub open spec fn peers_by_node(peers: Seq<(NodeId, SocketAddressView)>, n: int) -> Map<
    NodeId,
    SocketAddressView,
>
    decreases n,
{
    if n <= 0 {
        Map::empty()
    } else {
        peers_by_node(peers, n - 1).insert(peers[n - 1].0, peers[n - 1].1)
    }
}

proof fn peers_by_node_holds(peers: Seq<(NodeId, SocketAddressView)>, n: int)
    requires
        0 <= n <= peers.len(),
    ensures
        forall|node: NodeId|
            peers_by_node(peers, n).contains_key(node) <==> exists|i: int|
                0 <= i < n && #[trigger] peers[i].0 == node,
    decreases n,
{
    if n > 0 {
        peers_by_node_holds(peers, n - 1);
        assert forall|node: NodeId| peers_by_node(peers, n).contains_key(node) implies exists|
            i: int,
        |
            0 <= i < n && #[trigger] peers[i].0 == node by {
            if node == peers[n - 1].0 {
                assert(peers[n - 1].0 == node);
            } else {
                assert(peers_by_node(peers, n - 1).contains_key(node));
                let i = choose|i: int| 0 <= i < n - 1 && #[trigger] peers[i].0 == node;
                assert(peers[i].0 == node);
            }
        }
        assert forall|node: NodeId|
            (exists|i: int| 0 <= i < n && #[trigger] peers[i].0 == node) implies #[trigger] peers_by_node(
            peers,
            n,
        ).contains_key(node) by {
            if node != peers[n - 1].0 {
                assert(peers_by_node(peers, n - 1).contains_key(node));
            }
        }
    }
}

/// The addresses of peers by node, none of which may be named twice.
pub fn peer_map(peers: &Vec<(NodeId, SocketAddress)>) -> (result: std::result::Result<
    OrdMap<NodeId, SocketAddress>,
    String,
>)
    ensures
        match result {
            Ok(map) => nodes_distinct(peers.deep_view()) && map.deep_view() == peers_by_node(
                peers.deep_view(),
                peers@.len() as int,
            ),
            Err(_) => !nodes_distinct(peers.deep_view()),
        },
{
    let ghost view = peers.deep_view();
    let mut map: OrdMap<NodeId, SocketAddress> = OrdMap::new();
    let mut i: usize = 0;
    while i < peers.len()
        invariant
            i <= peers@.len(),
            view == peers.deep_view(),
            map.deep_view() == peers_by_node(view, i as int),
            forall|a: int, b: int| 0 <= a < b < i ==> #[trigger] view[a].0 != #[trigger] view[b].0,
        decreases peers@.len() - i,
    {
        proof {
            peers_by_node_holds(view, i as int);
        }
        assert(view[i as int] == (peers@[i as int].0, peers@[i as int].1.deep_view()));
        let node: NodeId = peers[i].0;
        if map.insert(node, peers[i].1.duplicate()).is_some() {
            proof {
                let j = choose|j: int| 0 <= j < i && #[trigger] view[j].0 == node;
                assert(view[j].0 == view[i as int].0);
            }
            return Err("peer node ids must be unique".to_owned());
        }
        assert forall|a: int, b: int| 0 <= a < b < i + 1 implies #[trigger] view[a].0
            != #[trigger] view[b].0 by {
            if b == i {
                assert(!(view[a].0 == node));
            }
        }
        i = i + 1;
    }
    Ok(map)
}

/// The items of a text between commas.
pub open spec fn items(text: Seq<char>) -> Seq<Seq<char>>
    decreases text.len(),
{
    let at = first_at(text, ',');
    if 0 <= at < text.len() {
        seq![text.subrange(0, at)] + items(rest(text, at + 1))
    } else {
        seq![text]
    }
}

/// What is wrong with the peer `i` of a list: it cannot be read, its address
/// cannot, or its node has been named before.
pub open spec fn peer_problem<A: Fn(&str) -> Option<SocketAddress>>(
    address: A,
    texts: Seq<Seq<char>>,
    i: int,
) -> bool {
    match peer_parts(texts[i]) {
        None => true,
        Some((node, text)) => read_as(address, text, None) || exists|j: int|
            0 <= j < i && (#[trigger] peer_parts(texts[j]) matches Some((earlier, _)) && earlier
                == node),
    }
}

/// A peer was read from its text.
pub open spec fn peer_read<A: Fn(&str) -> Option<SocketAddress>>(
    address: A,
    text: Seq<char>,
    peer: (NodeId, SocketAddressView),
) -> bool {
    &&& peer_parts(text) is Some
    &&& peer.0 == peer_node(text)
    &&& read_as(address, peer_address(text), Some(peer.1))
}

/// Peers were read from their texts.
pub open spec fn peers_read<A: Fn(&str) -> Option<SocketAddress>>(
    address: A,
    texts: Seq<Seq<char>>,
    peers: Seq<(NodeId, SocketAddressView)>,
) -> bool {
    forall|i: int|
        0 <= i < peers.len() ==> #[trigger] peer_read(address, texts[i], peers[i])
}

/// Reads peers `NODE=ADDRESS` between commas.
pub fn parse_peers<A: Fn(&str) -> Option<SocketAddress>>(address: A, input: &str) -> (result:
    std::result::Result<OrdMap<NodeId, SocketAddress>, String>)
    requires
        readable(address),
    ensures
        match result {
            Ok(map) => exists|peers: Seq<(NodeId, SocketAddressView)>|
                peers.len() == items(input@).len() && #[trigger] peers_read(
                    address,
                    items(input@),
                    peers,
                ) && nodes_distinct(peers) && map.deep_view() == peers_by_node(
                    peers,
                    peers.len() as int,
                ),
            Err(_) => exists|i: int|
                0 <= i < items(input@).len() && #[trigger] peer_problem(address, items(input@), i),
        },
{
    let ghost texts = items(input@);
    let length: usize = input.unicode_len();
    let mut map: OrdMap<NodeId, SocketAddress> = OrdMap::new();
    let ghost mut peers: Seq<(NodeId, SocketAddressView)> = Seq::empty();
    let mut from: usize = 0;
    let mut more = true;
    assert(rest(input@, 0) =~= input@);
    assert(texts =~= texts.subrange(0, 0) + items(rest(input@, 0)));
    while more
        invariant
            readable(address),
            texts == items(input@),
            length == input@.len(),
            from <= length,
            peers.len() <= texts.len(),
            peers_read(address, texts, peers),
            nodes_distinct(peers),
            map.deep_view() == peers_by_node(peers, peers.len() as int),
            more ==> texts == texts.subrange(0, peers.len() as int) + items(rest(input@, from as int)),
            !more ==> peers.len() == texts.len(),
        decreases
            (length - from) + if more {
                1int
            } else {
                0int
            },
    {
        let tail = input.substring_char(from, length);
        assert(tail@ =~= rest(input@, from as int));
        let at: usize = find(tail, ',');
        let item = tail.substring_char(0, at);
        let ghost n = peers.len() as int;
        proof {
            first_at_is_first(tail@, ',');
            let left = items(tail@);
            if at == tail@.len() {
                assert(item@ =~= tail@);
            }
            assert(left[0] == item@);
            assert(texts[n] == left[0]);
        }
        let (node, text) = match split_peer(item) {
            Some(parts) => parts,
            None => {
                assert(peer_problem(address, texts, n));
                return Err(message(&["peer `", item, "` must be NODE=ADDRESS"]));
            },
        };
        let found = address(text.as_str());
        assert(read_as(address, text@, found.deep_view()));
        let found = match found {
            Some(found) => found,
            None => {
                assert(peer_problem(address, texts, n));
                return Err(message(&["invalid peer address `", text.as_str(), "`"]));
            },
        };
        let ghost entry = (node, found.deep_view());
        proof {
            peers_by_node_holds(peers, n);
        }
        if map.insert(node, found).is_some() {
            proof {
                let j = choose|j: int| 0 <= j < n && #[trigger] peers[j].0 == node;
                assert(peer_read(address, texts[j], peers[j]));
                assert(peer_problem(address, texts, n));
            }
            return Err("duplicate peer node".to_owned());
        }
        let ghost before = peers;
        proof {
            peers = peers.push(entry);
            assert(peers.drop_last() =~= before);
            same_entries(before, peers, n);
            assert forall|i: int| 0 <= i < peers.len() implies #[trigger] peer_read(
                address,
                texts[i],
                peers[i],
            ) by {
                if i < n {
                    assert(peer_read(address, texts[i], before[i]));
                } else {
                    assert(peer_parts(texts[n]) == Some((node, text@)));
                }
            }
            assert forall|i: int, j: int| 0 <= i < j < peers.len() implies #[trigger] peers[i].0
                != #[trigger] peers[j].0 by {
                if j == n {
                    assert(before[i].0 != node);
                } else {
                    assert(before[i].0 != before[j].0);
                }
            }
        }
        if at < tail.unicode_len() {
            assert(rest(tail@, at + 1) =~= rest(input@, from + at + 1));
            assert(texts =~= texts.subrange(0, n + 1) + items(rest(input@, from + at + 1)));
            from = from + at + 1;
        } else {
            assert(items(tail@).len() == 1);
            more = false;
        }
    }
    Ok(map)
}

proof fn same_entries(
    before: Seq<(NodeId, SocketAddressView)>,
    after: Seq<(NodeId, SocketAddressView)>,
    n: int,
)
    requires
        0 <= n <= before.len(),
        n <= after.len(),
        forall|i: int| 0 <= i < n ==> before[i] == #[trigger] after[i],
    ensures
        peers_by_node(before, n) == peers_by_node(after, n),
    decreases n,
{
    if n > 0 {
        same_entries(before, after, n - 1);
        assert(before[n - 1] == after[n - 1]);
    }
}

} // verus!
