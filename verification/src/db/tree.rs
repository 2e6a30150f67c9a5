//! Snapshot records in a tree: cut into chunks, and put together again.

use vstd::prelude::*;
use crate::checks::{first_of, first_stays, none_is_first};
use crate::db::error::{DatabaseError, DatabaseErrorKind, Result, corrupts, limits};
use crate::db::pages::{
    CHUNK_BYTES, MAX_PHYSICAL_ENTRIES, chunk_key, chunk_key_round_trip, chunk_named,
    chunk_named_is_exact, decode_record, encode_record, key_magic, parse_physical_key,
    physical_key, record_bytes, record_fits, record_in, record_round_trip, unknown_key_words,
    unreadable_words, unwritable_words,
};
use crate::db::results::MAX_SNAPSHOT_BYTES;
use crate::db::scalar::invariant_error;
use crate::digest::{sha256, sha256_digest};
use crate::engine::records::{SnapshotRecord, SnapshotRecordView};
use crate::model::{Model, outcome};
use crate::order::{
    below_at, bytes_before, lex_asymmetric, lex_irreflexive, lex_lt, lex_total, lex_transitive,
    strictly_below_is_lex, strictly_below_prefixed,
};
use crate::ordmap::{
    Key, OrdMap, OrdSet, finite_set_is_listed, insertion_point, listing_insert, listing_is_ordered,
    listing_len, lists, member_is_listed, ordered,
};
use crate::text::{decimal, decimal_text, wide_decimal_text};
use crate::types::{between, labelled};
use crate::wire::{be_bytes, be_bytes_ordered, pow256_values};

verus! {

broadcast use crate::model::group_contents;

/// The content of a tree.
pub type TreeView = Map<Seq<u8>, Seq<u8>>;

impl Key for SnapshotRecord {
    open spec fn before(a: SnapshotRecordView, b: SnapshotRecordView) -> bool {
        a.kind < b.kind || a.kind == b.kind && (lex_lt(a.key, b.key) || a.key == b.key && lex_lt(
            a.value,
            b.value,
        ))
    }

    proof fn before_irreflexive(a: SnapshotRecordView) {
        lex_irreflexive(a.key);
        lex_irreflexive(a.value);
    }

    proof fn before_transitive(
        a: SnapshotRecordView,
        b: SnapshotRecordView,
        c: SnapshotRecordView,
    ) {
        if a.kind == b.kind && b.kind == c.kind {
            if lex_lt(a.key, b.key) && lex_lt(b.key, c.key) {
                lex_transitive(a.key, b.key, c.key);
            }
            if lex_lt(a.value, b.value) && lex_lt(b.value, c.value) {
                lex_transitive(a.value, b.value, c.value);
            }
        }
    }

    proof fn before_total(a: SnapshotRecordView, b: SnapshotRecordView) {
        lex_total(a.key, b.key);
        lex_total(a.value, b.value);
    }

    fn comes_before(&self, other: &Self) -> (before: bool) {
        if self.kind != other.kind {
            return self.kind < other.kind;
        }
        if bytes_before(self.key.as_slice(), other.key.as_slice()) {
            return true;
        }
        self.key.same(&other.key) && bytes_before(self.value.as_slice(), other.value.as_slice())
    }
}

/// How many chunks with this digest follow one another from number `i` on,
/// counted from zero.
pub open spec fn run_end(tree: TreeView, digest: Seq<u8>, i: int) -> int
    decreases u32::MAX + 1 - i,
{
    if 0 <= i <= u32::MAX && tree.contains_key(chunk_key(digest, i as u32)) {
        run_end(tree, digest, i + 1)
    } else {
        i
    }
}

/// The first `n` chunks with this digest, one behind the other.
pub open spec fn joined_chunks(tree: TreeView, digest: Seq<u8>, n: int) -> Seq<u8>
    decreases n,
{
    if n <= 0 {
        Seq::empty()
    } else {
        joined_chunks(tree, digest, n - 1) + tree[chunk_key(digest, (n - 1) as u32)]
    }
}

/// The bytes that the chunks with this digest are.
pub open spec fn spelled(tree: TreeView, digest: Seq<u8>) -> Seq<u8> {
    joined_chunks(tree, digest, run_end(tree, digest, 0))
}

/// The bytes of the chunks under the first `n` keys.
pub open spec fn bytes_under(tree: TreeView, keys: Seq<Seq<u8>>, n: int) -> nat
    decreases n,
{
    if n <= 0 {
        0
    } else {
        bytes_under(tree, keys, n - 1) + tree[keys[n - 1]].len()
    }
}

/// The bytes of all chunks.
pub open spec fn tree_bytes(tree: TreeView) -> nat {
    let keys = ordered::<Vec<u8>>(tree.dom());
    bytes_under(tree, keys, keys.len() as int)
}

/// The entry is a chunk of a proper length, behind the chunk before it; the
/// first chunk of a record begins the bytes that its digest is of.
pub open spec fn entry_valid(tree: TreeView, key: Seq<u8>) -> bool {
    match chunk_named(key) {
        None => false,
        Some((digest, index)) => {
            &&& 0 < tree[key].len() <= CHUNK_BYTES
            &&& if index > 0 {
                tree.contains_key(chunk_key(digest, (index - 1) as u32))
            } else {
                sha256(spelled(tree, digest)) == digest && record_in(spelled(tree, digest)) is Some
            }
        },
    }
}

/// The tree holds records and nothing else.
pub open spec fn tree_valid(tree: TreeView) -> bool {
    &&& tree.dom().len() <= MAX_PHYSICAL_ENTRIES
    &&& tree_bytes(tree) <= MAX_SNAPSHOT_BYTES
    &&& forall|key: Seq<u8>| #[trigger] tree.contains_key(key) ==> entry_valid(tree, key)
}

/// The tree holds the record.
pub open spec fn tree_holds(tree: TreeView, record: SnapshotRecordView) -> bool {
    exists|digest: Seq<u8>|
        digest.len() == 32 && #[trigger] tree.contains_key(chunk_key(digest, 0)) && record_in(
            spelled(tree, digest),
        ) == Some(record)
}

/// The records of a tree.
pub open spec fn tree_records(tree: TreeView) -> Set<SnapshotRecordView> {
    Set::new(|record: SnapshotRecordView| tree_holds(tree, record))
}

/// The record whose first chunk is under the key, if one is.
pub open spec fn record_under(tree: TreeView, key: Seq<u8>) -> Option<SnapshotRecordView> {
    match chunk_named(key) {
        Some((digest, index)) if index == 0 => record_in(spelled(tree, digest)),
        _ => None,
    }
}

/// The records whose first chunk is under one of the first `n` keys.
pub open spec fn records_under(tree: TreeView, keys: Seq<Seq<u8>>, n: int) -> Set<
    SnapshotRecordView,
>
    decreases n,
{
    if n <= 0 {
        Set::empty()
    } else {
        match record_under(tree, keys[n - 1]) {
            Some(record) => records_under(tree, keys, n - 1).insert(record),
            None => records_under(tree, keys, n - 1),
        }
    }
}

proof fn records_under_hold(tree: TreeView, keys: Seq<Seq<u8>>, n: int)
    requires
        0 <= n <= keys.len(),
    ensures
        forall|record: SnapshotRecordView| #[trigger]
            records_under(tree, keys, n).contains(record) <==> exists|i: int|
                0 <= i < n && record_under(tree, #[trigger] keys[i]) == Some(record),
        records_under(tree, keys, n).finite(),
    decreases n,
{
    if n > 0 {
        records_under_hold(tree, keys, n - 1);
        assert forall|record: SnapshotRecordView| #[trigger]
            records_under(tree, keys, n).contains(record) implies exists|i: int|
            0 <= i < n && record_under(tree, #[trigger] keys[i]) == Some(record) by {
            if records_under(tree, keys, n - 1).contains(record) {
                let i = choose|i: int|
                    0 <= i < n - 1 && record_under(tree, #[trigger] keys[i]) == Some(record);
                assert(record_under(tree, keys[i]) == Some(record));
            } else {
                assert(record_under(tree, keys[n - 1]) == Some(record));
            }
        }
    }
}

proof fn records_under_all(tree: TreeView, keys: Seq<Seq<u8>>)
    requires
        lists::<Vec<u8>>(keys, tree.dom()),
    ensures
        records_under(tree, keys, keys.len() as int) == tree_records(tree),
{
    records_under_hold(tree, keys, keys.len() as int);
    let found = records_under(tree, keys, keys.len() as int);
    assert forall|record: SnapshotRecordView| found.contains(record) == tree_records(
        tree,
    ).contains(record) by {
        if found.contains(record) {
            let i = choose|i: int|
                0 <= i < keys.len() && record_under(tree, #[trigger] keys[i]) == Some(record);
            chunk_named_is_exact(keys[i]);
            let digest = (chunk_named(keys[i])->0).0;
            assert(keys.contains(keys[i]));
            assert(tree.dom().contains(keys[i]));
            assert(tree.contains_key(chunk_key(digest, 0)));
        }
        if tree_holds(tree, record) {
            let digest = choose|digest: Seq<u8>|
                digest.len() == 32 && #[trigger] tree.contains_key(chunk_key(digest, 0))
                    && record_in(spelled(tree, digest)) == Some(record);
            let key = chunk_key(digest, 0);
            chunk_key_round_trip(digest, 0);
            member_is_listed::<Vec<u8>>(keys, tree.dom(), key);
            let i = keys.index_of(key);
            assert(record_under(tree, keys[i]) == Some(record));
        }
    }
    assert(found =~= tree_records(tree));
}

/// The bytes that the chunks with a digest are.
fn spell(tree: &OrdMap<Vec<u8>, Vec<u8>>, digest: &[u8; 32]) -> (bytes: Vec<u8>)
    ensures
        bytes@ == spelled(tree.deep_view(), digest@),
{
    let ghost view = tree.deep_view();
    let mut bytes: Vec<u8> = Vec::new();
    let mut next: u64 = 0;
    assert(bytes@ =~= joined_chunks(view, digest@, 0));
    loop
        invariant
            view == tree.deep_view(),
            next <= u32::MAX + 1,
            run_end(view, digest@, 0) == run_end(view, digest@, next as int),
            bytes@ == joined_chunks(view, digest@, next as int),
        ensures
            bytes@ == spelled(view, digest@),
        decreases u32::MAX + 1 - next,
    {
        if next > u32::MAX as u64 {
            break;
        }
        let key = physical_key(digest, next as u32);
        assert(key.deep_view() =~= key@);
        match tree.get(&key) {
            Some(chunk) => {
                assert(chunk.deep_view() =~= chunk@);
                bytes.extend_from_slice(chunk.as_slice());
                next = next + 1;
                assert(bytes@ =~= joined_chunks(view, digest@, next as int));
            },
            None => {
                break;
            },
        }
    }
    bytes
}

/// What is wrong with the entry at a position, seen beside the one before it.
pub open spec fn entry_flaw(tree: TreeView, keys: Seq<Seq<u8>>, i: int) -> Option<Seq<char>> {
    match chunk_named(keys[i]) {
        None => Some(unknown_key_words()),
        Some((digest, index)) => {
            let length = tree[keys[i]].len();
            if length == 0 || length > CHUNK_BYTES {
                Some("snapshot chunk has invalid length "@ + decimal(length))
            } else if i > 0 && record_goes_on(keys, i) && index != (chunk_named(keys[i - 1])->0).1
                + 1 {
                Some("snapshot chunks are not contiguous"@)
            } else {
                None
            }
        },
    }
}

/// The chunk at a position has the digest of the one before it.
pub open spec fn record_goes_on(keys: Seq<Seq<u8>>, i: int) -> bool {
    &&& 0 < i < keys.len()
    &&& chunk_named(keys[i - 1]) is Some
    &&& (chunk_named(keys[i - 1])->0).0 == (chunk_named(keys[i])->0).0
}

pub open spec fn entry_flaws(tree: TreeView, keys: Seq<Seq<u8>>) -> spec_fn(int) -> Option<
    Seq<char>,
> {
    |i: int| entry_flaw(tree, keys, i)
}

/// What is wrong with the record that the chunk at a position belongs to, as far as it is
/// read with that chunk: it begins with its first chunk, and it is whole with its last one.
pub open spec fn chunk_flaw(tree: TreeView, keys: Seq<Seq<u8>>, i: int) -> Option<Seq<char>> {
    let (digest, index) = chunk_named(keys[i])->0;
    let bytes = spelled(tree, digest);
    if !record_goes_on(keys, i) && index != 0 {
        Some("snapshot record chunk gap: expected 0, found "@ + decimal(index as nat))
    } else if bytes_under(tree, keys, i + 1) > MAX_SNAPSHOT_BYTES {
        Some("snapshot exceeds "@ + decimal(MAX_SNAPSHOT_BYTES as nat) + " byte limit"@)
    } else if record_goes_on(keys, i + 1) {
        None
    } else if sha256(bytes) != digest {
        Some("snapshot record digest mismatch"@)
    } else if record_in(bytes) is None {
        Some(unreadable_words(bytes))
    } else {
        None
    }
}

pub open spec fn chunk_flaws(tree: TreeView, keys: Seq<Seq<u8>>) -> spec_fn(int) -> Option<
    Seq<char>,
> {
    |i: int| chunk_flaw(tree, keys, i)
}

/// How it reads why a tree is refused: every entry is looked at before any record is put
/// together.
pub open spec fn tree_refusal(tree: TreeView) -> Option<Seq<char>> {
    let keys = ordered::<Vec<u8>>(tree.dom());
    if keys.len() > MAX_PHYSICAL_ENTRIES {
        Some(
            "snapshot tree has "@ + decimal(keys.len()) + " entries; maximum is "@ + decimal(
                MAX_PHYSICAL_ENTRIES as nat,
            ),
        )
    } else {
        match first_of(entry_flaws(tree, keys), keys.len() as int) {
            Some(text) => Some(text),
            None => first_of(chunk_flaws(tree, keys), keys.len() as int),
        }
    }
}

/// Of two chunks with one digest the one with the lower number comes first.
proof fn chunks_in_order(digest: Seq<u8>, a: u32, b: u32)
    requires
        digest.len() == 32,
        a < b,
    ensures
        lex_lt(chunk_key(digest, a), chunk_key(digest, b)),
{
    let head = key_magic() + digest;
    pow256_values();
    be_bytes_ordered(a as nat, b as nat, 4);
    strictly_below_prefixed(head, be_bytes(a as nat, 4), be_bytes(b as nat, 4));
    strictly_below_is_lex(chunk_key(digest, a), chunk_key(digest, b));
}

/// No chunk stands between two with one digest that follow one another.
proof fn chunks_are_adjacent(digest: Seq<u8>, index: u32, between: Seq<u8>)
    requires
        digest.len() == 32,
        index > 0,
        chunk_named(between) is Some,
        lex_lt(chunk_key(digest, (index - 1) as u32), between),
    ensures
        !lex_lt(between, chunk_key(digest, index)),
{
    let a = chunk_key(digest, (index - 1) as u32);
    let c = chunk_key(digest, index);
    let (other, number) = chunk_named(between)->0;
    chunk_named_is_exact(between);
    chunk_key_round_trip(digest, (index - 1) as u32);
    chunk_key_round_trip(digest, index);
    if lex_lt(between, c) {
        let p = choose|p: int| #[trigger] below_at(a, between, p);
        let q = choose|q: int| #[trigger] below_at(between, c, q);
        assert(a.subrange(8, 40) =~= c.subrange(8, 40));
        assert forall|i: int| 0 <= i < 40 implies a[i] == c[i] by {
            if i < 8 {
                assert(a.subrange(0, 8)[i] == c.subrange(0, 8)[i]);
            } else {
                assert(a.subrange(8, 40)[i - 8] == c.subrange(8, 40)[i - 8]);
            }
        }
        assert(p >= 40);
        assert(between.subrange(8, 40) =~= a.subrange(8, 40));
        assert(other == digest);
        if number < index - 1 {
            chunks_in_order(digest, number, (index - 1) as u32);
            lex_asymmetric(a, between);
        } else if number > index {
            chunks_in_order(digest, index, number);
            lex_asymmetric(between, c);
        } else {
            lex_irreflexive(between);
        }
    }
}

/// Where a chunk stands behind the one before it, the two stand side by side.
proof fn chunk_follows(tree: TreeView, keys: Seq<Seq<u8>>, i: int)
    requires
        lists::<Vec<u8>>(keys, tree.dom()),
        0 <= i < keys.len(),
        forall|j: int| 0 <= j < keys.len() ==> chunk_named(#[trigger] keys[j]) is Some,
        (chunk_named(keys[i])->0).1 > 0,
        entry_valid(tree, keys[i]),
    ensures
        record_goes_on(keys, i),
        (chunk_named(keys[i])->0).1 == (chunk_named(keys[i - 1])->0).1 + 1,
{
    let (digest, index) = chunk_named(keys[i])->0;
    let earlier = chunk_key(digest, (index - 1) as u32);
    chunk_named_is_exact(keys[i]);
    chunk_key_round_trip(digest, (index - 1) as u32);
    chunks_in_order(digest, (index - 1) as u32, index);
    member_is_listed::<Vec<u8>>(keys, tree.dom(), earlier);
    let m = keys.index_of(earlier);
    assert(keys[m] == earlier);
    if m > i {
        assert(<Vec<u8> as Key>::before(keys[i], keys[m]));
        lex_asymmetric(earlier, keys[i]);
    }
    if m == i {
        lex_irreflexive(keys[i]);
    }
    if m < i - 1 {
        assert(<Vec<u8> as Key>::before(keys[m], keys[i - 1]));
        assert(<Vec<u8> as Key>::before(keys[i - 1], keys[i]));
        chunks_are_adjacent(digest, index, keys[i - 1]);
    }
}

/// A record whose chunks all stand behind one another has a first chunk.
proof fn first_chunk_is_there(tree: TreeView, digest: Seq<u8>, index: u32)
    requires
        digest.len() == 32,
        tree_valid(tree),
        tree.contains_key(chunk_key(digest, index)),
    ensures
        tree.contains_key(chunk_key(digest, 0)),
        sha256(spelled(tree, digest)) == digest,
        record_in(spelled(tree, digest)) is Some,
    decreases index,
{
    let key = chunk_key(digest, index);
    chunk_key_round_trip(digest, index);
    assert(entry_valid(tree, key));
    if index > 0 {
        first_chunk_is_there(tree, digest, (index - 1) as u32);
    }
}

/// Every key of a valid tree names a chunk.
proof fn valid_keys(tree: TreeView, keys: Seq<Seq<u8>>)
    requires
        lists::<Vec<u8>>(keys, tree.dom()),
        tree_valid(tree),
    ensures
        forall|j: int|
            0 <= j < keys.len() ==> chunk_named(#[trigger] keys[j]) is Some && tree.contains_key(
                keys[j],
            ) && entry_valid(tree, keys[j]),
{
    assert forall|j: int| 0 <= j < keys.len() implies chunk_named(#[trigger] keys[j]) is Some
        && tree.contains_key(keys[j]) && entry_valid(tree, keys[j]) by {
        assert(keys.contains(keys[j]));
        assert(tree.dom().contains(keys[j]));
        assert(tree.contains_key(keys[j]));
    }
}

/// Nothing is wrong with an entry of a valid tree.
proof fn valid_entry_is_taken(tree: TreeView, keys: Seq<Seq<u8>>, j: int)
    requires
        lists::<Vec<u8>>(keys, tree.dom()),
        tree_valid(tree),
        0 <= j < keys.len(),
    ensures
        entry_flaw(tree, keys, j) is None,
{
    valid_keys(tree, keys);
    let (digest, index) = chunk_named(keys[j])->0;
    if record_goes_on(keys, j) {
        if index > 0 {
            chunk_follows(tree, keys, j);
        } else {
            chunk_named_is_exact(keys[j]);
            chunk_named_is_exact(keys[j - 1]);
            let number = (chunk_named(keys[j - 1])->0).1;
            assert(<Vec<u8> as Key>::before(keys[j - 1], keys[j]));
            if number > 0 {
                chunks_in_order(digest, 0, number);
                lex_asymmetric(keys[j - 1], keys[j]);
            } else {
                lex_irreflexive(keys[j]);
            }
        }
    }
}

/// Nothing is wrong with a record of a valid tree.
proof fn valid_chunk_is_taken(tree: TreeView, keys: Seq<Seq<u8>>, j: int)
    requires
        keys == ordered::<Vec<u8>>(tree.dom()),
        lists::<Vec<u8>>(keys, tree.dom()),
        tree_valid(tree),
        0 <= j < keys.len(),
    ensures
        chunk_flaw(tree, keys, j) is None,
{
    valid_keys(tree, keys);
    let (digest, index) = chunk_named(keys[j])->0;
    chunk_named_is_exact(keys[j]);
    if index > 0 {
        chunk_follows(tree, keys, j);
    }
    bytes_under_grow(tree, keys, j + 1, keys.len() as int);
    first_chunk_is_there(tree, digest, index);
}

/// A valid tree is not refused.
proof fn valid_tree_is_taken(tree: TreeView)
    requires
        lists::<Vec<u8>>(ordered::<Vec<u8>>(tree.dom()), tree.dom()),
        tree_valid(tree),
    ensures
        tree_refusal(tree) is None,
{
    let keys = ordered::<Vec<u8>>(tree.dom());
    listing_len::<Vec<u8>>(keys, tree.dom());
    let entries = entry_flaws(tree, keys);
    let chunks = chunk_flaws(tree, keys);
    assert forall|j: int| 0 <= j < keys.len() implies (#[trigger] entries(j)) is None by {
        valid_entry_is_taken(tree, keys, j);
    }
    none_is_first(entries, keys.len() as int);
    assert forall|j: int| 0 <= j < keys.len() implies (#[trigger] chunks(j)) is None by {
        valid_chunk_is_taken(tree, keys, j);
    }
    none_is_first(chunks, keys.len() as int);
}

/// A record that begins at a position is whole at its last chunk.
proof fn record_is_whole(tree: TreeView, keys: Seq<Seq<u8>>, i: int)
    requires
        0 <= i < keys.len(),
        forall|j: int| 0 <= j < keys.len() ==> (#[trigger] chunk_flaw(tree, keys, j)) is None,
    ensures
        ({
            let bytes = spelled(tree, (chunk_named(keys[i])->0).0);
            sha256(bytes) == (chunk_named(keys[i])->0).0 && record_in(bytes) is Some
        }),
    decreases keys.len() - i,
{
    assert(chunk_flaw(tree, keys, i) is None);
    if record_goes_on(keys, i + 1) {
        record_is_whole(tree, keys, i + 1);
    }
}

/// A tree that is not refused is valid.
proof fn taken_tree_is_valid(tree: TreeView)
    requires
        lists::<Vec<u8>>(ordered::<Vec<u8>>(tree.dom()), tree.dom()),
        tree_refusal(tree) is None,
    ensures
        tree_valid(tree),
{
    let keys = ordered::<Vec<u8>>(tree.dom());
    listing_len::<Vec<u8>>(keys, tree.dom());
    let entries = entry_flaws(tree, keys);
    let chunks = chunk_flaws(tree, keys);
    none_is_first(entries, keys.len() as int);
    none_is_first(chunks, keys.len() as int);
    assert forall|j: int| 0 <= j < keys.len() implies (#[trigger] chunk_flaw(tree, keys, j)) is None by {
        assert(chunks(j) is None);
    }
    assert forall|key: Seq<u8>| #[trigger] tree.contains_key(key) implies entry_valid(tree, key) by {
        member_is_listed::<Vec<u8>>(keys, tree.dom(), key);
        let i = keys.index_of(key);
        assert(keys[i] == key);
        assert(entries(i) is None);
        assert(chunk_flaw(tree, keys, i) is None);
        chunk_named_is_exact(key);
        if (chunk_named(key)->0).1 > 0 {
            chunk_named_is_exact(keys[i - 1]);
            assert(keys.contains(keys[i - 1]));
            assert(tree.dom().contains(keys[i - 1]));
        } else {
            record_is_whole(tree, keys, i);
        }
    }
    if keys.len() > 0 {
        assert(chunk_flaw(tree, keys, keys.len() - 1) is None);
    }
}

/// The digest and the number that the key at a position gives.
fn named_at(tree: &OrdMap<Vec<u8>, Vec<u8>>, i: usize) -> (named: Option<([u8; 32], u32)>)
    requires
        i < tree.keys().len(),
    ensures
        match named {
            Some((digest, index)) => chunk_named(tree.keys()[i as int]) == Some((digest@, index)),
            None => chunk_named(tree.keys()[i as int]) is None,
        },
{
    let key = tree.key_at(i);
    assert(key.deep_view() =~= key@);
    match parse_physical_key(key) {
        Ok(named) => Some(named),
        Err(_) => None,
    }
}

/// Whether the chunk at a position has the digest of the one before it.
fn goes_on(tree: &OrdMap<Vec<u8>, Vec<u8>>, i: usize, digest: &[u8; 32]) -> (goes_on: bool)
    requires
        i < tree.keys().len() ==> chunk_named(tree.keys()[i as int]) is Some,
        0 < i <= tree.keys().len(),
        (chunk_named(tree.keys()[i - 1])->0).0 == digest@,
        chunk_named(tree.keys()[i - 1]) is Some,
    ensures
        goes_on == record_goes_on(tree.keys(), i as int),
{
    if i == tree.len() {
        return false;
    }
    match named_at(tree, i) {
        Some((next, _)) => next.same(digest),
        None => false,
    }
}

/// What is wrong with the entries of a tree.
fn entries_refusal(tree: &OrdMap<Vec<u8>, Vec<u8>>) -> (text: Option<String>)
    ensures
        match text {
            Some(text) => first_of(
                entry_flaws(tree.deep_view(), tree.keys()),
                tree.keys().len() as int,
            ) == Some(text@),
            None => first_of(
                entry_flaws(tree.deep_view(), tree.keys()),
                tree.keys().len() as int,
            ) is None && forall|j: int|
                0 <= j < tree.keys().len() ==> chunk_named(#[trigger] tree.keys()[j]) is Some,
        },
{
    let ghost view = tree.deep_view();
    let ghost keys = tree.keys();
    let ghost flaws = entry_flaws(view, keys);
    let count: usize = tree.len();
    let mut previous: Option<([u8; 32], u32)> = None;
    let mut i: usize = 0;
    while i < count
        invariant
            i <= count,
            view == tree.deep_view(),
            keys == tree.keys(),
            count == keys.len(),
            flaws == entry_flaws(view, keys),
            first_of(flaws, i as int) is None,
            forall|j: int| 0 <= j < i ==> chunk_named(#[trigger] keys[j]) is Some,
            i > 0 ==> previous is Some && chunk_named(keys[i - 1]) == Some(
                ((previous->0).0@, (previous->0).1),
            ),
            i == 0 ==> previous is None,
        decreases count - i,
    {
        assert(flaws(i as int) == entry_flaw(view, keys, i as int));
        let (digest, index) = match named_at(tree, i) {
            Some(named) => named,
            None => {
                proof {
                    first_stays(flaws, i + 1, count as int);
                }
                return Some("snapshot tree contains an unknown physical key".to_owned());
            },
        };
        let chunk = tree.value_at(i);
        assert(chunk.deep_view() =~= chunk@);
        if chunk.len() == 0 || chunk.len() > CHUNK_BYTES {
            proof {
                first_stays(flaws, i + 1, count as int);
            }
            return Some(
                labelled(
                    "snapshot chunk has invalid length ",
                    &decimal_text(chunk.len() as u64),
                ),
            );
        }
        if let Some((before, number)) = previous {
            if before.same(&digest) && (number == u32::MAX || index != number + 1) {
                proof {
                    assert(record_goes_on(keys, i as int));
                    first_stays(flaws, i + 1, count as int);
                }
                return Some("snapshot chunks are not contiguous".to_owned());
            }
        }
        previous = Some((digest, index));
        i = i + 1;
    }
    None
}

/// What is wrong with the records of a tree.
fn chunks_refusal(tree: &OrdMap<Vec<u8>, Vec<u8>>) -> (text: Option<String>)
    requires
        tree.keys().len() <= MAX_PHYSICAL_ENTRIES,
        first_of(entry_flaws(tree.deep_view(), tree.keys()), tree.keys().len() as int) is None,
        forall|j: int|
            0 <= j < tree.keys().len() ==> chunk_named(#[trigger] tree.keys()[j]) is Some,
    ensures
        match text {
            Some(text) => first_of(
                chunk_flaws(tree.deep_view(), tree.keys()),
                tree.keys().len() as int,
            ) == Some(text@),
            None => first_of(
                chunk_flaws(tree.deep_view(), tree.keys()),
                tree.keys().len() as int,
            ) is None,
        },
{
    let ghost view = tree.deep_view();
    let ghost keys = tree.keys();
    let ghost flaws = chunk_flaws(view, keys);
    let ghost entries = entry_flaws(view, keys);
    let count: usize = tree.len();
    proof {
        none_is_first(entries, count as int);
    }
    let mut total: usize = 0;
    let mut begun = false;
    let mut i: usize = 0;
    while i < count
        invariant
            i <= count <= MAX_PHYSICAL_ENTRIES,
            view == tree.deep_view(),
            keys == tree.keys(),
            count == keys.len(),
            flaws == chunk_flaws(view, keys),
            entries == entry_flaws(view, keys),
            first_of(flaws, i as int) is None,
            forall|j: int| 0 <= j < keys.len() ==> chunk_named(#[trigger] keys[j]) is Some,
            forall|j: int| 0 <= j < keys.len() ==> (#[trigger] entries(j)) is None,
            total == bytes_under(view, keys, i as int),
            total <= MAX_SNAPSHOT_BYTES,
            i < count ==> begun == record_goes_on(keys, i as int),
        decreases count - i,
    {
        assert(flaws(i as int) == chunk_flaw(view, keys, i as int));
        assert(entries(i as int) is None);
        assert(chunk_named(keys[i as int]) is Some);
        let (digest, index) = match named_at(tree, i) {
            Some(named) => named,
            None => return None,
        };
        if !begun && index != 0 {
            proof {
                first_stays(flaws, i + 1, count as int);
            }
            return Some(
                labelled(
                    "snapshot record chunk gap: expected 0, found ",
                    &decimal_text(index as u64),
                ),
            );
        }
        let chunk = tree.value_at(i);
        assert(chunk.deep_view() =~= chunk@);
        total = total + chunk.len();
        if total > MAX_SNAPSHOT_BYTES {
            proof {
                first_stays(flaws, i + 1, count as int);
            }
            return Some(
                between(
                    "snapshot exceeds ",
                    &decimal_text(MAX_SNAPSHOT_BYTES as u64),
                    " byte limit",
                ),
            );
        }
        begun = goes_on(tree, i + 1, &digest);
        if !begun {
            let bytes = spell(tree, &digest);
            if !sha256_digest(bytes.as_slice()).same(&digest) {
                proof {
                    first_stays(flaws, i + 1, count as int);
                }
                return Some("snapshot record digest mismatch".to_owned());
            }
            match decode_record(&bytes) {
                Ok(_) => {},
                Err(DatabaseError::Corruption(text)) => {
                    proof {
                        first_stays(flaws, i + 1, count as int);
                    }
                    return Some(text);
                },
                Err(_) => {},
            }
        }
        i = i + 1;
    }
    None
}

/// Why a tree is refused.
fn refusal(tree: &OrdMap<Vec<u8>, Vec<u8>>) -> (text: Option<String>)
    ensures
        match text {
            Some(text) => tree_refusal(tree.deep_view()) == Some(text@),
            None => tree_refusal(tree.deep_view()) is None,
        },
{
    let count: usize = tree.len();
    if count > MAX_PHYSICAL_ENTRIES {
        let mut text = between(
            "snapshot tree has ",
            &decimal_text(count as u64),
            " entries; maximum is ",
        );
        text.append(&decimal_text(MAX_PHYSICAL_ENTRIES as u64));
        return Some(text);
    }
    let text = entries_refusal(tree);
    if text.is_some() {
        return text;
    }
    chunks_refusal(tree)
}

/// Puts the records of a tree together, in the order of kind, key and value. A
/// tree that holds anything else is refused.
pub fn decode_records(tree: &OrdMap<Vec<u8>, Vec<u8>>) -> (result: Result<Vec<SnapshotRecord>>)
    ensures
        outcome(result) == if tree_valid(tree.deep_view()) {
            Ok::<Seq<SnapshotRecordView>, DatabaseErrorKind>(
                ordered::<SnapshotRecord>(tree_records(tree.deep_view())),
            )
        } else {
            Err(DatabaseErrorKind::Corruption)
        },
        match result {
            Ok(_) => tree_refusal(tree.deep_view()) is None,
            Err(error) => tree_refusal(tree.deep_view()) is Some && corrupts(
                error,
                tree_refusal(tree.deep_view())->0,
            ),
        },
{
    let ghost view = tree.deep_view();
    let ghost keys = tree.keys();
    let count: usize = tree.len();
    if let Some(text) = refusal(tree) {
        proof {
            if tree_valid(view) {
                valid_tree_is_taken(view);
            }
        }
        return Err(DatabaseError::Corruption(text));
    }
    proof {
        taken_tree_is_valid(view);
    }
    let mut found: OrdSet<SnapshotRecord> = OrdSet::new();
    let mut i: usize = 0;
    while i < count
        invariant
            i <= count,
            view == tree.deep_view(),
            keys == tree.keys(),
            count == keys.len(),
            lists::<Vec<u8>>(keys, view.dom()),
            tree_valid(view),
            found.deep_view() == records_under(view, keys, i as int),
        decreases count - i,
    {
        assert(view.contains_key(keys[i as int]));
        assert(entry_valid(view, keys[i as int]));
        if let Some((digest, 0)) = named_at(tree, i) {
            let bytes = spell(tree, &digest);
            if let Ok(record) = decode_record(&bytes) {
                found.insert(record);
            }
        }
        i = i + 1;
    }
    proof {
        records_under_all(view, keys);
    }
    let length: usize = found.len();
    let mut records: Vec<SnapshotRecord> = Vec::with_capacity(length);
    let mut n: usize = 0;
    while n < length
        invariant
            n <= length,
            length == found.listed().len(),
            records@.len() == n,
            forall|j: int|
                0 <= j < n ==> (#[trigger] records@[j]).deep_view() == found.listed()[j],
        decreases length - n,
    {
        records.push(found.member_at(n).duplicate());
        n = n + 1;
    }
    assert(records.deep_view() =~= found.listed());
    Ok(records)
}

proof fn bytes_under_grow(tree: TreeView, keys: Seq<Seq<u8>>, m: int, n: int)
    requires
        0 <= m <= n,
    ensures
        bytes_under(tree, keys, m) <= bytes_under(tree, keys, n),
    decreases n,
{
    if m < n {
        bytes_under_grow(tree, keys, m, n - 1);
    }
}

/// The number of chunks of so many bytes.
pub open spec fn chunk_count(length: nat) -> nat {
    ((length + (CHUNK_BYTES - 1)) / CHUNK_BYTES as int) as nat
}

/// The bytes of a chunk: as many as go in, or those that are left.
pub open spec fn chunk_at(bytes: Seq<u8>, i: int) -> Seq<u8> {
    bytes.subrange(
        i * CHUNK_BYTES,
        if (i + 1) * CHUNK_BYTES < bytes.len() {
            (i + 1) * CHUNK_BYTES
        } else {
            bytes.len() as int
        },
    )
}

/// The tree with the first `n` chunks of a record.
pub open spec fn with_chunks(tree: TreeView, digest: Seq<u8>, bytes: Seq<u8>, n: int) -> TreeView
    decreases n,
{
    if n <= 0 {
        tree
    } else {
        with_chunks(tree, digest, bytes, n - 1).insert(
            chunk_key(digest, (n - 1) as u32),
            chunk_at(bytes, n - 1),
        )
    }
}

/// The digest under which a record is stored.
pub open spec fn digest_of(record: SnapshotRecordView) -> Seq<u8> {
    sha256(record_bytes(record))
}

/// One of the first `n` records has the digest.
pub open spec fn digest_seen(records: Seq<SnapshotRecordView>, n: int, digest: Seq<u8>) -> bool {
    exists|j: int| 0 <= j < n && digest_of(#[trigger] records[j]) == digest
}

/// The bytes of the first `n` records.
pub open spec fn records_bytes(records: Seq<SnapshotRecordView>, n: int) -> nat
    decreases n,
{
    if n <= 0 {
        0
    } else {
        records_bytes(records, n - 1) + record_bytes(records[n - 1]).len()
    }
}

/// The tree of the first `n` records, unless they are too large or two of them
/// have the same digest.
pub open spec fn tree_of(records: Seq<SnapshotRecordView>, n: int) -> std::result::Result<
    TreeView,
    DatabaseErrorKind,
>
    decreases n,
{
    if n <= 0 {
        Ok(Map::empty())
    } else {
        match tree_of(records, n - 1) {
            Err(error) => Err(error),
            Ok(tree) => {
                let record = records[n - 1];
                let bytes = record_bytes(record);
                let next = with_chunks(
                    tree,
                    digest_of(record),
                    bytes,
                    chunk_count(bytes.len()) as int,
                );
                if !record_fits(record) || records_bytes(records, n) > MAX_SNAPSHOT_BYTES {
                    Err(DatabaseErrorKind::ResourceLimit)
                } else if digest_seen(records, n - 1, digest_of(record)) {
                    Err(DatabaseErrorKind::Invariant)
                } else if next.dom().len() > MAX_PHYSICAL_ENTRIES {
                    Err(DatabaseErrorKind::ResourceLimit)
                } else {
                    Ok(next)
                }
            },
        }
    }
}

/// Why a record does not go into the tree of those before it.
pub open spec fn storing_flaw(records: Seq<SnapshotRecordView>, i: int) -> Option<Seq<char>> {
    let record = records[i];
    let total = records_bytes(records, i + 1);
    if !record_fits(record) {
        Some(unwritable_words(record))
    } else if total > MAX_SNAPSHOT_BYTES {
        Some(
            "canonical snapshot is "@ + decimal(total) + " bytes; maximum is "@ + decimal(
                MAX_SNAPSHOT_BYTES as nat,
            ),
        )
    } else if digest_seen(records, i, digest_of(record)) {
        Some("two logical snapshot records have the same digest"@)
    } else if tree_of(records, i + 1) is Err {
        Some(
            "snapshot needs more than "@ + decimal(MAX_PHYSICAL_ENTRIES as nat)
                + " B+ tree entries"@,
        )
    } else {
        None
    }
}

pub open spec fn storing_flaws(records: Seq<SnapshotRecordView>) -> spec_fn(int) -> Option<
    Seq<char>,
> {
    |i: int| storing_flaw(records, i)
}

/// The text of an error that says why records do not go into a tree.
pub open spec fn storing_words(error: DatabaseError) -> Seq<char> {
    match error {
        DatabaseError::ResourceLimit(text) => text@,
        DatabaseError::Invariant(text) => text@,
        _ => Seq::empty(),
    }
}

proof fn tree_of_stops(records: Seq<SnapshotRecordView>, m: int, n: int)
    requires
        0 <= m <= n,
        tree_of(records, m) is Err,
    ensures
        tree_of(records, n) == tree_of(records, m),
    decreases n,
{
    if m < n {
        tree_of_stops(records, m, n - 1);
    }
}

proof fn bytes_under_agree(
    a: TreeView,
    b: TreeView,
    keys: Seq<Seq<u8>>,
    more: Seq<Seq<u8>>,
    n: int,
)
    requires
        0 <= n <= keys.len(),
        n <= more.len(),
        forall|j: int|
            0 <= j < n ==> #[trigger] keys[j] == more[j] && a[keys[j]] == b[more[j]],
    ensures
        bytes_under(a, keys, n) == bytes_under(b, more, n),
    decreases n,
{
    if n > 0 {
        bytes_under_agree(a, b, keys, more, n - 1);
        assert(keys[n - 1] == more[n - 1]);
    }
}

proof fn bytes_under_inserted(
    a: TreeView,
    b: TreeView,
    keys: Seq<Seq<u8>>,
    more: Seq<Seq<u8>>,
    p: int,
    n: int,
)
    requires
        0 <= p <= n <= keys.len(),
        more.len() == keys.len() + 1,
        forall|j: int|
            0 <= j < p ==> #[trigger] keys[j] == more[j] && a[keys[j]] == b[more[j]],
        forall|j: int|
            p <= j < keys.len() ==> #[trigger] keys[j] == more[j + 1] && a[keys[j]] == b[more[j
                + 1]],
    ensures
        bytes_under(b, more, n + 1) == bytes_under(a, keys, n) + b[more[p]].len(),
    decreases n,
{
    if n == p {
        bytes_under_agree(a, b, keys, more, p);
    } else {
        bytes_under_inserted(a, b, keys, more, p, n - 1);
        assert(keys[n - 1] == more[n]);
    }
}

/// A new entry adds its bytes to those of the tree.
proof fn tree_bytes_grow(tree: TreeView, key: Seq<u8>, chunk: Seq<u8>)
    requires
        tree.dom().finite(),
        !tree.contains_key(key),
    ensures
        tree_bytes(tree.insert(key, chunk)) == tree_bytes(tree) + chunk.len(),
{
    let keys = ordered::<Vec<u8>>(tree.dom());
    finite_set_is_listed::<Vec<u8>>(tree.dom());
    member_is_listed::<Vec<u8>>(keys, tree.dom(), key);
    let p = insertion_point::<Vec<u8>>(keys, key, keys.len() as int);
    let more = keys.insert(p, key);
    let next = tree.insert(key, chunk);
    listing_insert::<Vec<u8>>(keys, tree.dom(), p, key);
    assert(next.dom() =~= tree.dom().insert(key));
    listing_is_ordered::<Vec<u8>>(more, next.dom());
    assert forall|j: int| 0 <= j < keys.len() implies #[trigger] keys[j] != key by {
        assert(keys.contains(keys[j]));
    }
    assert(more[p] == key);
    bytes_under_inserted(tree, next, keys, more, p, keys.len() as int);
}

proof fn with_chunks_hold(tree: TreeView, digest: Seq<u8>, bytes: Seq<u8>, n: int)
    requires
        0 <= n <= chunk_count(bytes.len()) <= u32::MAX,
        digest.len() == 32,
        tree.dom().finite(),
        forall|key: Seq<u8>| #[trigger]
            tree.contains_key(key) ==> chunk_named(key) is Some && (chunk_named(key)->0).0
                != digest,
    ensures
        ({
            let next = with_chunks(tree, digest, bytes, n);
            &&& next.dom().finite()
            &&& forall|key: Seq<u8>| #[trigger]
                next.contains_key(key) <==> tree.contains_key(key) || chunk_named(key) is Some && (
                chunk_named(key)->0).0 == digest && (chunk_named(key)->0).1 < n
            &&& forall|key: Seq<u8>| #[trigger] tree.contains_key(key) ==> next[key] == tree[key]
            &&& forall|i: u32|
                i < n ==> next[#[trigger] chunk_key(digest, i)] == chunk_at(bytes, i as int)
            &&& tree_bytes(next) == tree_bytes(tree) + if n * CHUNK_BYTES < bytes.len() {
                n * CHUNK_BYTES
            } else {
                bytes.len() as int
            }
        }),
    decreases n,
{
    if n > 0 {
        with_chunks_hold(tree, digest, bytes, n - 1);
        let before = with_chunks(tree, digest, bytes, n - 1);
        let index = (n - 1) as u32;
        let key = chunk_key(digest, index);
        chunk_key_round_trip(digest, index);
        assert(!before.contains_key(key));
        tree_bytes_grow(before, key, chunk_at(bytes, n - 1));
        let next = before.insert(key, chunk_at(bytes, n - 1));
        assert forall|k: Seq<u8>| #[trigger] next.contains_key(k) <==> tree.contains_key(k)
            || chunk_named(k) is Some && (chunk_named(k)->0).0 == digest && (chunk_named(k)->0).1
            < n by {
            if chunk_named(k) is Some {
                chunk_named_is_exact(k);
            }
        }
        assert forall|i: u32| i < n implies next[#[trigger] chunk_key(digest, i)] == chunk_at(
            bytes,
            i as int,
        ) by {
            chunk_key_round_trip(digest, i);
        }
    }
}

proof fn with_chunks_grow(tree: TreeView, digest: Seq<u8>, bytes: Seq<u8>, m: int, n: int)
    requires
        0 <= m <= n,
        tree.dom().finite(),
    ensures
        with_chunks(tree, digest, bytes, n).dom().finite(),
        with_chunks(tree, digest, bytes, m).dom().len() <= with_chunks(
            tree,
            digest,
            bytes,
            n,
        ).dom().len(),
    decreases n,
{
    if m < n {
        with_chunks_grow(tree, digest, bytes, m, n - 1);
        let before = with_chunks(tree, digest, bytes, n - 1);
        assert(with_chunks(tree, digest, bytes, n).dom() =~= before.dom().insert(
            chunk_key(digest, (n - 1) as u32),
        ));
    } else if n > 0 {
        with_chunks_grow(tree, digest, bytes, n - 1, n - 1);
        let before = with_chunks(tree, digest, bytes, n - 1);
        assert(with_chunks(tree, digest, bytes, n).dom() =~= before.dom().insert(
            chunk_key(digest, (n - 1) as u32),
        ));
    }
}

/// One of the first `n` records owns the chunk that a key names.
spec fn owned(records: Seq<SnapshotRecordView>, n: int, key: Seq<u8>) -> bool {
    &&& chunk_named(key) is Some
    &&& exists|j: int|
        {
            &&& 0 <= j < n
            &&& digest_of(#[trigger] records[j]) == (chunk_named(key)->0).0
            &&& (chunk_named(key)->0).1 < chunk_count(record_bytes(records[j]).len())
        }
}

proof fn tree_of_holds(records: Seq<SnapshotRecordView>, n: int)
    requires
        0 <= n <= records.len(),
        tree_of(records, n) is Ok,
        forall|j: int| 0 <= j < records.len() ==> digest_of(#[trigger] records[j]).len() == 32,
    ensures
        ({
            let tree = tree_of(records, n)->Ok_0;
            &&& tree.dom().finite()
            &&& tree.dom().len() <= MAX_PHYSICAL_ENTRIES
            &&& tree_bytes(tree) == records_bytes(records, n) <= MAX_SNAPSHOT_BYTES
            &&& forall|key: Seq<u8>| #[trigger]
                tree.contains_key(key) <==> owned(records, n, key)
            &&& forall|j: int, i: u32|
                0 <= j < n && i < chunk_count(record_bytes(records[j]).len()) ==> tree[
                #[trigger] chunk_key(digest_of(records[j]), i)] == chunk_at(
                    record_bytes(records[j]),
                    i as int,
                )
            &&& forall|j: int|
                0 <= j < n ==> record_fits(#[trigger] records[j]) && record_bytes(records[j]).len()
                    <= MAX_SNAPSHOT_BYTES
            &&& forall|a: int, b: int|
                0 <= a < b < n ==> digest_of(#[trigger] records[a]) != digest_of(
                    #[trigger] records[b],
                )
        }),
    decreases n,
{
    if n > 0 {
        tree_of_holds(records, n - 1);
        let before = tree_of(records, n - 1)->Ok_0;
        let record = records[n - 1];
        let digest = digest_of(record);
        let bytes = record_bytes(record);
        let count = chunk_count(bytes.len()) as int;
        assert forall|key: Seq<u8>| #[trigger] before.contains_key(key) implies chunk_named(
            key,
        ) is Some && (chunk_named(key)->0).0 != digest by {
            assert(owned(records, n - 1, key));
            let j = choose|j: int|
                {
                    &&& 0 <= j < n - 1
                    &&& digest_of(#[trigger] records[j]) == (chunk_named(key)->0).0
                    &&& (chunk_named(key)->0).1 < chunk_count(record_bytes(records[j]).len())
                };
            assert(digest_of(records[j]) != digest);
        }
        with_chunks_hold(before, digest, bytes, count);
        let tree = tree_of(records, n)->Ok_0;
        assert(tree == with_chunks(before, digest, bytes, count));
        assert forall|key: Seq<u8>| #[trigger] tree.contains_key(key) <==> owned(
            records,
            n,
            key,
        ) by {
            if before.contains_key(key) {
                assert(owned(records, n - 1, key));
                let j = choose|j: int|
                    {
                        &&& 0 <= j < n - 1
                        &&& digest_of(#[trigger] records[j]) == (chunk_named(key)->0).0
                        &&& (chunk_named(key)->0).1 < chunk_count(record_bytes(records[j]).len())
                    };
                assert(0 <= j < n && digest_of(records[j]) == (chunk_named(key)->0).0);
            } else if tree.contains_key(key) {
                assert(digest_of(records[n - 1]) == (chunk_named(key)->0).0);
            }
            if owned(records, n, key) {
                let j = choose|j: int|
                    {
                        &&& 0 <= j < n
                        &&& digest_of(#[trigger] records[j]) == (chunk_named(key)->0).0
                        &&& (chunk_named(key)->0).1 < chunk_count(record_bytes(records[j]).len())
                    };
                if j < n - 1 {
                    assert(owned(records, n - 1, key));
                }
            }
        }
        assert forall|j: int, i: u32|
            0 <= j < n && i < chunk_count(record_bytes(records[j]).len()) implies tree[
        #[trigger] chunk_key(digest_of(records[j]), i)] == chunk_at(
            record_bytes(records[j]),
            i as int,
        ) by {
            let key = chunk_key(digest_of(records[j]), i);
            chunk_key_round_trip(digest_of(records[j]), i);
            if j < n - 1 {
                assert(owned(records, n - 1, key));
                assert(before.contains_key(key));
            }
        }
    } else {
        let none = Map::<Seq<u8>, Seq<u8>>::empty();
        assert(none.dom() =~= Set::empty());
        finite_set_is_listed::<Vec<u8>>(none.dom());
        let keys = ordered::<Vec<u8>>(none.dom());
        if keys.len() > 0 {
            member_is_listed::<Vec<u8>>(keys, none.dom(), keys[0]);
            assert(keys.contains(keys[0]));
        }
    }
}

proof fn run_end_is(tree: TreeView, digest: Seq<u8>, i: int, count: int)
    requires
        0 <= i <= count <= u32::MAX,
        forall|k: u32| k < count ==> tree.contains_key(#[trigger] chunk_key(digest, k)),
        !tree.contains_key(chunk_key(digest, count as u32)),
    ensures
        run_end(tree, digest, i) == count,
    decreases count - i,
{
    if i < count {
        assert(tree.contains_key(chunk_key(digest, i as u32)));
        run_end_is(tree, digest, i + 1, count);
    }
}

proof fn joined_chunks_are(tree: TreeView, digest: Seq<u8>, bytes: Seq<u8>, n: int)
    requires
        0 <= n <= chunk_count(bytes.len()) <= u32::MAX,
        forall|i: u32|
            i < n ==> tree[#[trigger] chunk_key(digest, i)] == chunk_at(bytes, i as int),
    ensures
        joined_chunks(tree, digest, n) == bytes.subrange(
            0,
            if n * CHUNK_BYTES < bytes.len() {
                n * CHUNK_BYTES
            } else {
                bytes.len() as int
            },
        ),
    decreases n,
{
    if n > 0 {
        joined_chunks_are(tree, digest, bytes, n - 1);
        assert(tree[chunk_key(digest, (n - 1) as u32)] == chunk_at(bytes, n - 1));
        assert(joined_chunks(tree, digest, n) =~= bytes.subrange(
            0,
            if n * CHUNK_BYTES < bytes.len() {
                n * CHUNK_BYTES
            } else {
                bytes.len() as int
            },
        ));
    } else {
        assert(bytes.subrange(0, 0) =~= Seq::empty());
    }
}

proof fn record_is_spelled(records: Seq<SnapshotRecordView>, j: int)
    requires
        tree_of(records, records.len() as int) is Ok,
        forall|i: int| 0 <= i < records.len() ==> digest_of(#[trigger] records[i]).len() == 32,
        0 <= j < records.len(),
    ensures
        ({
            let tree = tree_of(records, records.len() as int)->Ok_0;
            let digest = digest_of(records[j]);
            &&& tree.contains_key(chunk_key(digest, 0))
            &&& spelled(tree, digest) == record_bytes(records[j])
            &&& record_in(spelled(tree, digest)) == Some(records[j])
        }),
{
    let n = records.len() as int;
    let tree = tree_of(records, n)->Ok_0;
    let record = records[j];
    let digest = digest_of(record);
    let bytes = record_bytes(record);
    let count = chunk_count(bytes.len()) as int;
    tree_of_holds(records, n);
    record_round_trip(record);
    assert forall|k: u32| k < count implies tree.contains_key(#[trigger] chunk_key(digest, k)) by {
        chunk_key_round_trip(digest, k);
        assert(digest_of(records[j]) == digest);
        assert(owned(records, n, chunk_key(digest, k)));
    }
    assert(!tree.contains_key(chunk_key(digest, count as u32))) by {
        chunk_key_round_trip(digest, count as u32);
        if owned(records, n, chunk_key(digest, count as u32)) {
            let other = choose|other: int|
                {
                    &&& 0 <= other < n
                    &&& digest_of(#[trigger] records[other]) == digest
                    &&& count < chunk_count(record_bytes(records[other]).len())
                };
            assert(other == j);
        }
    }
    run_end_is(tree, digest, 0, count);
    joined_chunks_are(tree, digest, bytes, count);
    assert(bytes.subrange(0, bytes.len() as int) =~= bytes);
    assert(tree.contains_key(chunk_key(digest, 0u32)));
}

proof fn stored_entry_is_valid(records: Seq<SnapshotRecordView>, key: Seq<u8>)
    requires
        tree_of(records, records.len() as int) is Ok,
        forall|i: int| 0 <= i < records.len() ==> digest_of(#[trigger] records[i]).len() == 32,
        (tree_of(records, records.len() as int)->Ok_0).contains_key(key),
    ensures
        entry_valid(tree_of(records, records.len() as int)->Ok_0, key),
{
    let n = records.len() as int;
    let tree = tree_of(records, n)->Ok_0;
    tree_of_holds(records, n);
    assert(owned(records, n, key));
    let (digest, index) = chunk_named(key)->0;
    chunk_named_is_exact(key);
    let j = choose|j: int|
        {
            &&& 0 <= j < n
            &&& digest_of(#[trigger] records[j]) == digest
            &&& index < chunk_count(record_bytes(records[j]).len())
        };
    let bytes = record_bytes(records[j]);
    assert(tree[chunk_key(digest_of(records[j]), index)] == chunk_at(bytes, index as int));
    if index > 0 {
        let previous = chunk_key(digest, (index - 1) as u32);
        chunk_key_round_trip(digest, (index - 1) as u32);
        assert(digest_of(records[j]) == digest);
        assert(owned(records, n, previous));
    } else {
        record_is_spelled(records, j);
    }
}

/// What is read from the tree of records is those records.
pub proof fn stored_records_are_found(records: Seq<SnapshotRecordView>)
    requires
        tree_of(records, records.len() as int) is Ok,
        forall|j: int| 0 <= j < records.len() ==> digest_of(#[trigger] records[j]).len() == 32,
    ensures
        tree_valid(tree_of(records, records.len() as int)->Ok_0),
        tree_records(tree_of(records, records.len() as int)->Ok_0) == records.to_set(),
{
    let n = records.len() as int;
    let tree = tree_of(records, n)->Ok_0;
    assert(tree.dom().len() <= MAX_PHYSICAL_ENTRIES && tree_bytes(tree) <= MAX_SNAPSHOT_BYTES) by {
        tree_of_holds(records, n);
    }
    assert forall|key: Seq<u8>| #[trigger] tree.contains_key(key) implies entry_valid(
        tree,
        key,
    ) by {
        stored_entry_is_valid(records, key);
    }
    assert forall|record: SnapshotRecordView| tree_records(tree).contains(record)
        == records.to_set().contains(record) by {
        if tree_holds(tree, record) {
            let digest = choose|digest: Seq<u8>|
                digest.len() == 32 && #[trigger] tree.contains_key(chunk_key(digest, 0))
                    && record_in(spelled(tree, digest)) == Some(record);
            found_record_is_stored(records, digest);
        }
        if records.contains(record) {
            let j = records.index_of(record);
            record_is_spelled(records, j);
            assert(tree.contains_key(chunk_key(digest_of(records[j]), 0)));
        }
    }
    assert(tree_records(tree) =~= records.to_set());
}

proof fn found_record_is_stored(records: Seq<SnapshotRecordView>, digest: Seq<u8>)
    requires
        tree_of(records, records.len() as int) is Ok,
        forall|j: int| 0 <= j < records.len() ==> digest_of(#[trigger] records[j]).len() == 32,
        digest.len() == 32,
        (tree_of(records, records.len() as int)->Ok_0).contains_key(chunk_key(digest, 0)),
    ensures
        ({
            let tree = tree_of(records, records.len() as int)->Ok_0;
            &&& record_in(spelled(tree, digest)) is Some
            &&& records.contains(record_in(spelled(tree, digest))->0)
        }),
{
    let n = records.len() as int;
    let key = chunk_key(digest, 0);
    tree_of_holds(records, n);
    chunk_key_round_trip(digest, 0);
    assert(owned(records, n, key));
    let j = choose|j: int|
        {
            &&& 0 <= j < n
            &&& digest_of(#[trigger] records[j]) == digest
            &&& 0 < chunk_count(record_bytes(records[j]).len())
        };
    record_is_spelled(records, j);
}

/// Puts the chunks of a record into a tree.
fn put_chunks(tree: &mut OrdMap<Vec<u8>, Vec<u8>>, digest: &[u8; 32], bytes: &Vec<u8>) -> (result:
    Result<()>)
    requires
        bytes@.len() <= MAX_SNAPSHOT_BYTES,
    ensures
        ({
            let next = with_chunks(
                old(tree).deep_view(),
                digest@,
                bytes@,
                chunk_count(bytes@.len()) as int,
            );
            match result {
                Ok(()) => final(tree).deep_view() == next && (chunk_count(bytes@.len()) > 0
                    ==> next.dom().len() <= MAX_PHYSICAL_ENTRIES),
                Err(error) => next.dom().len() > MAX_PHYSICAL_ENTRIES && error.deep_view()
                    == DatabaseErrorKind::ResourceLimit && limits(
                    error,
                    "snapshot needs more than "@ + decimal(MAX_PHYSICAL_ENTRIES as nat)
                        + " B+ tree entries"@,
                ),
            }
        }),
{
    let ghost start = tree.deep_view();
    let first: usize = tree.len();
    let ghost count = chunk_count(bytes@.len());
    let mut position: usize = 0;
    let mut index: u32 = 0;
    while position < bytes.len()
        invariant
            bytes@.len() <= MAX_SNAPSHOT_BYTES,
            start == old(tree).deep_view(),
            start.dom().finite(),
            count == chunk_count(bytes@.len()),
            index <= count,
            position == if index * CHUNK_BYTES < bytes@.len() {
                index * CHUNK_BYTES
            } else {
                bytes@.len() as int
            },
            position == bytes@.len() ==> index == count,
            tree.deep_view() == with_chunks(start, digest@, bytes@, index as int),
            index > 0 ==> tree.deep_view().dom().len() <= MAX_PHYSICAL_ENTRIES,
        decreases bytes@.len() - position,
    {
        let end: usize = if bytes.len() - position > CHUNK_BYTES {
            position + CHUNK_BYTES
        } else {
            bytes.len()
        };
        let chunk = vstd::slice::slice_to_vec(
            vstd::slice::slice_subrange(bytes.as_slice(), position, end),
        );
        let key = physical_key(digest, index);
        assert(key.deep_view() =~= key@);
        assert(chunk.deep_view() =~= chunk_at(bytes@, index as int));
        tree.insert(key, chunk);
        index = index + 1;
        position = end;
        if tree.len() > MAX_PHYSICAL_ENTRIES {
            proof {
                with_chunks_grow(start, digest@, bytes@, index as int, count as int);
            }
            return Err(
                DatabaseError::ResourceLimit(
                    between(
                        "snapshot needs more than ",
                        &decimal_text(MAX_PHYSICAL_ENTRIES as u64),
                        " B+ tree entries",
                    ),
                ),
            );
        }
    }
    Ok(())
}

/// Stores records in a tree, from which they can be put together again.
pub fn encode_records(records: &Vec<SnapshotRecord>) -> (result: Result<OrdMap<Vec<u8>, Vec<u8>>>)
    ensures
        outcome(result) == tree_of(records.deep_view(), records@.len() as int),
        result matches Ok(tree) ==> tree_valid(tree.deep_view()) && tree_records(tree.deep_view())
            == records.deep_view().to_set(),
        result matches Err(error) ==> first_of(
            storing_flaws(records.deep_view()),
            records@.len() as int,
        ) == Some(storing_words(error)),
{
    let ghost view = records.deep_view();
    let ghost flaws = storing_flaws(view);
    let mut tree: OrdMap<Vec<u8>, Vec<u8>> = OrdMap::new();
    let mut digests: OrdSet<[u8; 32]> = OrdSet::new();
    let mut total: usize = 0;
    let mut i: usize = 0;
    while i < records.len()
        invariant
            i <= records@.len(),
            view == records.deep_view(),
            total == records_bytes(view, i as int),
            total <= MAX_SNAPSHOT_BYTES,
            forall|digest: Seq<u8>| #[trigger]
                digests.deep_view().contains(digest) <==> digest_seen(view, i as int, digest),
            forall|j: int| 0 <= j < i ==> digest_of(#[trigger] view[j]).len() == 32,
            tree_of(view, i as int) == Ok::<TreeView, DatabaseErrorKind>(tree.deep_view()),
            flaws == storing_flaws(view),
            first_of(flaws, i as int) is None,
        decreases records@.len() - i,
    {
        assert(view[i as int] == records@[i as int].deep_view());
        assert(flaws(i as int) == storing_flaw(view, i as int));
        let mut problem: Option<DatabaseError> = None;
        match encode_record(&records[i]) {
            Err(error) => {
                problem = Some(error);
            },
            Ok(encoded) => {
                proof {
                    record_round_trip(view[i as int]);
                }
                if encoded.len() > MAX_SNAPSHOT_BYTES - total {
                    let reached: u128 = total as u128 + encoded.len() as u128;
                    let mut text = between(
                        "canonical snapshot is ",
                        &wide_decimal_text(reached),
                        " bytes; maximum is ",
                    );
                    text.append(&decimal_text(MAX_SNAPSHOT_BYTES as u64));
                    problem = Some(DatabaseError::ResourceLimit(text));
                } else {
                    total = total + encoded.len();
                    let digest = sha256_digest(encoded.as_slice());
                    let ghost seen = digests.deep_view();
                    if !digests.insert(digest) {
                        problem = Some(
                            invariant_error("two logical snapshot records have the same digest"),
                        );
                    } else {
                        assert(digest.deep_view() == digest@);
                        assert forall|d: Seq<u8>| #[trigger]
                            digests.deep_view().contains(d) <==> digest_seen(view, i + 1, d) by {
                            if digest_seen(view, i as int, d) {
                                let j = choose|j: int|
                                    0 <= j < i && digest_of(#[trigger] view[j]) == d;
                                assert(digest_of(view[j]) == d);
                            }
                            if d == digest@ {
                                assert(digest_of(view[i as int]) == d);
                            }
                        }
                        if let Err(error) = put_chunks(&mut tree, &digest, &encoded) {
                            problem = Some(error);
                        }
                    }
                }
            },
        }
        if let Some(error) = problem {
            proof {
                tree_of_stops(view, i + 1, view.len() as int);
                first_stays(flaws, i + 1, view.len() as int);
            }
            return Err(error);
        }
        i = i + 1;
    }
    proof {
        stored_records_are_found(view);
    }
    Ok(tree)
}

} // verus!
