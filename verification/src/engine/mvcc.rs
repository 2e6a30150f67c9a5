//! Version chains: the versions of a row or of an index entry, newest first.

use vstd::prelude::*;
use crate::model::Model;
use crate::order::{bytes_before, lex_irreflexive, lex_lt, lex_total, lex_transitive};
use crate::ordmap::{Key, OrdMap, ordered};
use crate::types::{IndexId, Row, RowView};

verus! {

broadcast use crate::model::group_contents;

/// One version of a row: the row, or nothing where it was deleted.
#[derive(Debug, Clone, PartialEq, Eq)]
pub struct RowVersion {
    pub commit_index: u64,
    pub row: Option<Row>,
}

/// The content of a [`RowVersion`].
#[verifier::ext_equal]
pub struct RowVersionView {
    pub commit_index: u64,
    pub row: Option<RowView>,
}

impl DeepView for RowVersion {
    type V = RowVersionView;

    open spec fn deep_view(&self) -> RowVersionView {
        RowVersionView {
            commit_index: self.commit_index.deep_view(),
            row: self.row.deep_view(),
        }
    }
}

impl Model for RowVersion {
    fn duplicate(&self) -> (copy: Self) {
        RowVersion {
            commit_index: self.commit_index.duplicate(),
            row: self.row.duplicate(),
        }
    }

    fn same(&self, other: &Self) -> (equal: bool) {
        self.commit_index.same(&other.commit_index)
            && self.row.same(&other.row)
    }
}

/// The key of a secondary-index entry.
#[derive(Debug, Clone, PartialEq, Eq)]
pub struct SecondaryKey {
    pub index_id: IndexId,
    pub secondary_value: Vec<u8>,
    pub primary_key: Vec<u8>,
}

/// The content of a [`SecondaryKey`].
#[verifier::ext_equal]
pub struct SecondaryKeyView {
    pub index_id: IndexId,
    pub secondary_value: Seq<u8>,
    pub primary_key: Seq<u8>,
}

impl DeepView for SecondaryKey {
    type V = SecondaryKeyView;

    open spec fn deep_view(&self) -> SecondaryKeyView {
        SecondaryKeyView {
            index_id: self.index_id.deep_view(),
            secondary_value: self.secondary_value.deep_view(),
            primary_key: self.primary_key.deep_view(),
        }
    }
}

impl Model for SecondaryKey {
    fn duplicate(&self) -> (copy: Self) {
        SecondaryKey {
            index_id: self.index_id.duplicate(),
            secondary_value: self.secondary_value.duplicate(),
            primary_key: self.primary_key.duplicate(),
        }
    }

    fn same(&self, other: &Self) -> (equal: bool) {
        self.index_id.same(&other.index_id)
            && self.secondary_value.same(&other.secondary_value)
            && self.primary_key.same(&other.primary_key)
    }
}

/// One version of a secondary-index entry.
#[derive(Debug, Clone, Copy, PartialEq, Eq, Structural)]
pub struct SecondaryVersion {
    pub commit_index: u64,
    pub present: bool,
}

impl DeepView for SecondaryVersion {
    type V = SecondaryVersion;

    open spec fn deep_view(&self) -> SecondaryVersion {
        *self
    }
}

impl Model for SecondaryVersion {
    fn duplicate(&self) -> (copy: Self) {
        *self
    }

    fn same(&self, other: &Self) -> (equal: bool) {
        *self == *other
    }
}

impl Key for SecondaryKey {
    open spec fn before(a: SecondaryKeyView, b: SecondaryKeyView) -> bool {
        a.index_id < b.index_id || (a.index_id == b.index_id && (lex_lt(
            a.secondary_value,
            b.secondary_value,
        ) || (a.secondary_value == b.secondary_value && lex_lt(a.primary_key, b.primary_key))))
    }

    proof fn before_irreflexive(a: SecondaryKeyView) {
        lex_irreflexive(a.secondary_value);
        lex_irreflexive(a.primary_key);
    }

    proof fn before_transitive(a: SecondaryKeyView, b: SecondaryKeyView, c: SecondaryKeyView) {
        if lex_lt(a.secondary_value, b.secondary_value) && lex_lt(
            b.secondary_value,
            c.secondary_value,
        ) {
            lex_transitive(a.secondary_value, b.secondary_value, c.secondary_value);
        }
        if lex_lt(a.primary_key, b.primary_key) && lex_lt(b.primary_key, c.primary_key) {
            lex_transitive(a.primary_key, b.primary_key, c.primary_key);
        }
    }

    proof fn before_total(a: SecondaryKeyView, b: SecondaryKeyView) {
        lex_total(a.secondary_value, b.secondary_value);
        lex_total(a.primary_key, b.primary_key);
    }

    fn comes_before(&self, other: &Self) -> (before: bool) {
        if self.index_id != other.index_id {
            return self.index_id < other.index_id;
        }
        bytes_before(self.secondary_value.as_slice(), other.secondary_value.as_slice()) || (
        self.secondary_value.same(&other.secondary_value) && bytes_before(
            self.primary_key.as_slice(),
            other.primary_key.as_slice(),
        ))
    }
}

/// Something that has versions.
pub trait Version: Model {
    /// The log index at which the version became visible.
    spec fn index_of(version: Self::V) -> u64;

    /// The version shows something, rather than that something is gone.
    spec fn is_live(version: Self::V) -> bool;

    fn commit_index(&self) -> (index: u64)
        ensures
            index == Self::index_of(self.deep_view()),
    ;

    fn live(&self) -> (live: bool)
        ensures
            live == Self::is_live(self.deep_view()),
    ;
}

impl Version for RowVersion {
    open spec fn index_of(version: RowVersionView) -> u64 {
        version.commit_index
    }

    open spec fn is_live(version: RowVersionView) -> bool {
        version.row is Some
    }

    fn commit_index(&self) -> (index: u64) {
        self.commit_index
    }

    fn live(&self) -> (live: bool) {
        self.row.is_some()
    }
}

impl Version for SecondaryVersion {
    open spec fn index_of(version: SecondaryVersion) -> u64 {
        version.commit_index
    }

    open spec fn is_live(version: SecondaryVersion) -> bool {
        version.present
    }

    fn commit_index(&self) -> (index: u64) {
        self.commit_index
    }

    fn live(&self) -> (live: bool) {
        self.present
    }
}

/// The position of the newest version that a snapshot sees, or the length of
/// the chain if it sees none.
pub open spec fn seen_from<T: Version>(versions: Seq<T::V>, read_ts: u64) -> int
    decreases versions.len(),
{
    if versions.len() == 0 {
        0
    } else if T::index_of(versions[0]) <= read_ts {
        0
    } else {
        1 + seen_from::<T>(versions.skip(1), read_ts)
    }
}

/// The version that a snapshot sees, if it shows something.
pub open spec fn visible<T: Version>(versions: Seq<T::V>, read_ts: u64) -> Option<T::V> {
    let position = seen_from::<T>(versions, read_ts);
    if position < versions.len() && T::is_live(versions[position]) {
        Some(versions[position])
    } else {
        None
    }
}

/// The chain without the versions that no snapshot from `floor` on needs.
pub open spec fn vacuumed<T: Version>(versions: Seq<T::V>, floor: u64) -> Seq<T::V> {
    let position = seen_from::<T>(versions, floor);
    if position < versions.len() && T::is_live(versions[position]) {
        versions.take(position + 1)
    } else {
        versions.take(position)
    }
}

/// A chain has at least one version, newest first, each at a log index
/// between one and `last_applied`.
pub open spec fn chain_valid<T: Version>(versions: Seq<T::V>, last_applied: u64) -> bool {
    &&& versions.len() > 0
    &&& forall|i: int, j: int|
        0 <= i < j < versions.len() ==> T::index_of(#[trigger] versions[i]) > T::index_of(
            #[trigger] versions[j],
        )
    &&& forall|i: int|
        0 <= i < versions.len() ==> 0 < T::index_of(#[trigger] versions[i]) <= last_applied
}

/// `seen_from` is the first position whose version is old enough.
pub proof fn seen_from_bounds<T: Version>(versions: Seq<T::V>, read_ts: u64)
    ensures
        0 <= seen_from::<T>(versions, read_ts) <= versions.len(),
        forall|i: int|
            0 <= i < seen_from::<T>(versions, read_ts) ==> T::index_of(#[trigger] versions[i])
                > read_ts,
        seen_from::<T>(versions, read_ts) < versions.len() ==> T::index_of(
            versions[seen_from::<T>(versions, read_ts)],
        ) <= read_ts,
    decreases versions.len(),
{
    if versions.len() > 0 && T::index_of(versions[0]) > read_ts {
        let rest = versions.skip(1);
        seen_from_bounds::<T>(rest, read_ts);
        assert forall|i: int| 0 <= i < seen_from::<T>(versions, read_ts) implies T::index_of(
            #[trigger] versions[i],
        ) > read_ts by {
            if i > 0 {
                assert(versions[i] == rest[i - 1]);
            }
        }
    }
}

/// The first position whose version is old enough is `seen_from`.
pub proof fn seen_from_is<T: Version>(versions: Seq<T::V>, read_ts: u64, position: int)
    requires
        0 <= position <= versions.len(),
        forall|i: int| 0 <= i < position ==> T::index_of(#[trigger] versions[i]) > read_ts,
        position < versions.len() ==> T::index_of(versions[position]) <= read_ts,
    ensures
        seen_from::<T>(versions, read_ts) == position,
{
    seen_from_bounds::<T>(versions, read_ts);
    let seen = seen_from::<T>(versions, read_ts);
    if seen < position {
        assert(T::index_of(versions[seen]) > read_ts);
    }
}

/// A newer version does not change what an older snapshot sees.
pub proof fn newer_version_is_invisible<T: Version>(
    version: T::V,
    versions: Seq<T::V>,
    read_ts: u64,
)
    requires
        T::index_of(version) > read_ts,
    ensures
        visible::<T>(seq![version] + versions, read_ts) == visible::<T>(versions, read_ts),
{
    let more = seq![version] + versions;
    assert(more.skip(1) =~= versions);
    seen_from_bounds::<T>(versions, read_ts);
}

/// A version that a snapshot is new enough for is what it sees.
pub proof fn newest_version_is_seen<T: Version>(
    version: T::V,
    versions: Seq<T::V>,
    read_ts: u64,
)
    requires
        T::index_of(version) <= read_ts,
    ensures
        visible::<T>(seq![version] + versions, read_ts) == (if T::is_live(version) {
            Some(version)
        } else {
            None
        }),
{
}

/// Vacuuming does not change what any snapshot from the floor on sees.
pub proof fn vacuum_keeps_reads<T: Version>(versions: Seq<T::V>, floor: u64, read_ts: u64)
    requires
        floor <= read_ts,
    ensures
        visible::<T>(vacuumed::<T>(versions, floor), read_ts) == visible::<T>(versions, read_ts),
{
    seen_from_bounds::<T>(versions, floor);
    seen_from_bounds::<T>(versions, read_ts);
    let at_floor = seen_from::<T>(versions, floor);
    let at_read = seen_from::<T>(versions, read_ts);
    let kept = vacuumed::<T>(versions, floor);
    if at_read > at_floor {
        assert(T::index_of(versions[at_floor]) > read_ts);
    }
    assert(at_read <= at_floor);
    assert forall|i: int| 0 <= i < kept.len() implies #[trigger] kept[i] == versions[i] by {
    }
    if at_read < at_floor {
        seen_from_is::<T>(kept, read_ts, at_read);
    } else if at_floor < versions.len() && T::is_live(versions[at_floor]) {
        seen_from_is::<T>(kept, read_ts, at_read);
    } else {
        seen_from_is::<T>(kept, read_ts, kept.len() as int);
    }
}

/// Vacuuming keeps a chain valid unless nothing is left of it.
pub proof fn vacuum_keeps_chain<T: Version>(versions: Seq<T::V>, floor: u64, last_applied: u64)
    requires
        chain_valid::<T>(versions, last_applied),
    ensures
        vacuumed::<T>(versions, floor).len() <= versions.len(),
        vacuumed::<T>(versions, floor).len() > 0 ==> chain_valid::<T>(
            vacuumed::<T>(versions, floor),
            last_applied,
        ),
{
    seen_from_bounds::<T>(versions, floor);
}

/// A newer version in front keeps a chain valid.
pub proof fn push_keeps_chain<T: Version>(
    version: T::V,
    versions: Seq<T::V>,
    last_applied: u64,
    index: u64,
)
    requires
        versions.len() == 0 || chain_valid::<T>(versions, last_applied),
        last_applied < index,
        T::index_of(version) == index,
    ensures
        chain_valid::<T>(seq![version] + versions, index),
{
    let more = seq![version] + versions;
    assert forall|i: int| 0 <= i < more.len() implies 0 < T::index_of(#[trigger] more[i])
        <= index by {
        if i > 0 {
            assert(more[i] == versions[i - 1]);
        }
    }
    assert forall|i: int, j: int| 0 <= i < j < more.len() implies T::index_of(#[trigger] more[i])
        > T::index_of(#[trigger] more[j]) by {
        assert(more[j] == versions[j - 1]);
        if i > 0 {
            assert(more[i] == versions[i - 1]);
        }
    }
}

/// The position of the newest version that a snapshot sees.
pub fn seen_position<T: Version>(versions: &Vec<T>, read_ts: u64) -> (position: usize)
    ensures
        position == seen_from::<T>(versions.deep_view(), read_ts),
        position <= versions@.len(),
{
    let ghost view = versions.deep_view();
    let mut i: usize = 0;
    while i < versions.len() && versions[i].commit_index() > read_ts
        invariant
            i <= versions@.len(),
            view == versions.deep_view(),
            forall|j: int| 0 <= j < i ==> T::index_of(#[trigger] view[j]) > read_ts,
        decreases versions@.len() - i,
    {
        assert(view[i as int] == versions@[i as int].deep_view());
        i = i + 1;
    }
    proof {
        if i < versions@.len() {
            assert(view[i as int] == versions@[i as int].deep_view());
        }
        seen_from_is::<T>(view, read_ts, i as int);
    }
    i
}

/// The chain without the versions that no snapshot from `floor` on needs.
pub fn vacuum<T: Version>(versions: &Vec<T>, floor: u64) -> (kept: Vec<T>)
    ensures
        kept.deep_view() == vacuumed::<T>(versions.deep_view(), floor),
{
    let ghost view = versions.deep_view();
    proof {
        seen_from_bounds::<T>(view, floor);
    }
    let position = seen_position(versions, floor);
    let mut kept: Vec<T> = Vec::new();
    let mut i: usize = 0;
    while i < position
        invariant
            i <= position <= versions@.len(),
            view == versions.deep_view(),
            kept@.len() == i,
            forall|j: int| 0 <= j < i ==> (#[trigger] kept@[j]).deep_view() == view[j],
        decreases position - i,
    {
        kept.push(versions[i].duplicate());
        i = i + 1;
    }
    if position < versions.len() && versions[position].live() {
        kept.push(versions[position].duplicate());
    }
    assert(kept.deep_view() =~= vacuumed::<T>(view, floor));
    kept
}

/// Whether a chain that comes from outside can be taken.
pub fn versions_valid<T: Version>(versions: &Vec<T>, last_applied: u64) -> (valid: bool)
    ensures
        valid == chain_valid::<T>(versions.deep_view(), last_applied),
{
    let ghost view = versions.deep_view();
    let mut valid = versions.len() > 0;
    let mut i: usize = 0;
    while i < versions.len() && valid
        invariant
            i <= versions@.len(),
            view == versions.deep_view(),
            valid ==> versions@.len() > 0,
            !valid ==> !chain_valid::<T>(view, last_applied),
            valid ==> forall|j: int|
                0 <= j < i ==> 0 < T::index_of(#[trigger] view[j]) <= last_applied,
            valid ==> forall|j: int, k: int|
                0 <= j < k < i ==> T::index_of(#[trigger] view[j]) > T::index_of(
                    #[trigger] view[k],
                ),
        decreases versions@.len() - i,
    {
        assert(view[i as int] == versions@[i as int].deep_view());
        let index: u64 = versions[i].commit_index();
        if index == 0 || index > last_applied {
            valid = false;
        } else if i > 0 {
            assert(view[i - 1] == versions@[i - 1].deep_view());
            if versions[i - 1].commit_index() <= index {
                valid = false;
            }
        }
        proof {
            if valid {
                assert forall|j: int, k: int| 0 <= j < k < i + 1 implies T::index_of(
                    #[trigger] view[j],
                ) > T::index_of(#[trigger] view[k]) by {
                    if k == i && j < i - 1 {
                        assert(T::index_of(view[j]) > T::index_of(view[i - 1]));
                    }
                }
            }
        }
        i = i + 1;
    }
    valid
}

/// The chain of a key; a key without one has an empty chain.
pub open spec fn chain<K, V>(map: Map<K, Seq<V>>, key: K) -> Seq<V> {
    if map.contains_key(key) {
        map[key]
    } else {
        Seq::empty()
    }
}

/// The number of versions of the first `n` keys.
pub open spec fn versions_among<K, V>(map: Map<K, Seq<V>>, keys: Seq<K>, n: int) -> nat
    decreases n,
{
    if n <= 0 {
        0
    } else {
        versions_among(map, keys, n - 1) + map[keys[n - 1]].len()
    }
}

/// A count that stops at the largest number of its type.
pub open spec fn saturated(n: nat) -> usize {
    if n > usize::MAX {
        usize::MAX
    } else {
        n as usize
    }
}

/// The number of versions in all chains.
pub open spec fn version_count<K: Key, V>(map: Map<K::V, Seq<V>>) -> usize {
    let keys = ordered::<K>(map.dom());
    saturated(versions_among(map, keys, keys.len() as int))
}

/// The number of versions that vacuuming takes from the first `n` keys.
pub open spec fn removed_among<K, T: Version>(
    map: Map<K, Seq<T::V>>,
    keys: Seq<K>,
    floor: u64,
    n: int,
) -> nat
    decreases n,
{
    if n <= 0 {
        0
    } else {
        removed_among::<K, T>(map, keys, floor, n - 1) + (map[keys[n - 1]].len() - vacuumed::<T>(
            map[keys[n - 1]],
            floor,
        ).len()) as nat
    }
}

/// The chains after vacuuming; those of which nothing is left are gone.
pub open spec fn vacuumed_map<K, T: Version>(map: Map<K, Seq<T::V>>, floor: u64) -> Map<
    K,
    Seq<T::V>,
> {
    Map::new(
        |key: K| map.contains_key(key) && vacuumed::<T>(map[key], floor).len() > 0,
        |key: K| vacuumed::<T>(map[key], floor),
    )
}

/// The vacuumed chains of the first `n` keys.
spec fn vacuumed_among<K, T: Version>(
    map: Map<K, Seq<T::V>>,
    keys: Seq<K>,
    floor: u64,
    n: int,
) -> Map<K, Seq<T::V>>
    decreases n,
{
    if n <= 0 {
        Map::empty()
    } else {
        let so_far = vacuumed_among::<K, T>(map, keys, floor, n - 1);
        let kept = vacuumed::<T>(map[keys[n - 1]], floor);
        if kept.len() > 0 {
            so_far.insert(keys[n - 1], kept)
        } else {
            so_far
        }
    }
}

proof fn vacuumed_among_has<K, T: Version>(
    map: Map<K, Seq<T::V>>,
    keys: Seq<K>,
    floor: u64,
    n: int,
    key: K,
)
    requires
        0 <= n <= keys.len(),
    ensures
        ({
            let kept = vacuumed::<T>(map[key], floor);
            let after = vacuumed_among::<K, T>(map, keys, floor, n);
            &&& after.contains_key(key) <==> kept.len() > 0 && exists|i: int|
                0 <= i < n && #[trigger] keys[i] == key
            &&& after.contains_key(key) ==> after[key] == kept
        }),
    decreases n,
{
    if n > 0 {
        vacuumed_among_has::<K, T>(map, keys, floor, n - 1, key);
        assert(keys[n - 1] == keys[n - 1]);
    }
}

/// Vacuums all chains: what is left, and how many versions went.
pub fn vacuum_map<K: Key, T: Version>(map: &OrdMap<K, Vec<T>>, floor: u64) -> (result: (
    OrdMap<K, Vec<T>>,
    usize,
))
    ensures
        result.0.deep_view() == vacuumed_map::<K::V, T>(map.deep_view(), floor),
        result.1 == saturated(
            removed_among::<K::V, T>(
                map.deep_view(),
                ordered::<K>(map.deep_view().dom()),
                floor,
                map.deep_view().dom().len() as int,
            ),
        ),
{
    let ghost view = map.deep_view();
    let ghost keys = map.keys();
    let count = map.len();
    let mut kept: OrdMap<K, Vec<T>> = OrdMap::new();
    let mut removed: usize = 0;
    let mut i: usize = 0;
    while i < count
        invariant
            i <= count,
            view == map.deep_view(),
            keys == map.keys(),
            count == keys.len(),
            kept.deep_view() == vacuumed_among::<K::V, T>(view, keys, floor, i as int),
            removed == saturated(removed_among::<K::V, T>(view, keys, floor, i as int)),
        decreases count - i,
    {
        let versions = map.value_at(i);
        let left = vacuum(versions, floor);
        proof {
            seen_from_bounds::<T>(versions.deep_view(), floor);
            assert(left.deep_view().len() == left@.len());
            assert(versions.deep_view().len() == versions@.len());
        }
        let gone: usize = versions.len() - left.len();
        if gone > usize::MAX - removed {
            removed = usize::MAX;
        } else {
            removed = removed + gone;
        }
        if left.len() > 0 {
            kept.insert(map.key_at(i).duplicate(), left);
        }
        i = i + 1;
    }
    proof {
        assert forall|key: K::V| kept.deep_view().contains_key(key) <==> vacuumed_map::<K::V, T>(
            view,
            floor,
        ).contains_key(key) by {
            vacuumed_among_has::<K::V, T>(view, keys, floor, count as int, key);
            assert(keys.contains(key) <==> view.contains_key(key));
        }
        assert forall|key: K::V| kept.deep_view().contains_key(key) implies kept.deep_view()[key]
            == vacuumed_map::<K::V, T>(view, floor)[key] by {
            vacuumed_among_has::<K::V, T>(view, keys, floor, count as int, key);
        }
        assert(kept.deep_view() =~= vacuumed_map::<K::V, T>(view, floor));
    }
    (kept, removed)
}

/// One more version of a key, in front of the others.
pub fn push_version<K: Key, T: Version>(map: &mut OrdMap<K, Vec<T>>, key: K, version: T)
    ensures
        final(map).deep_view() == old(map).deep_view().insert(
            key.deep_view(),
            seq![version.deep_view()] + chain(old(map).deep_view(), key.deep_view()),
        ),
{
    let ghost before = map.deep_view();
    let ghost k = key.deep_view();
    let ghost v = version.deep_view();
    let mut versions: Vec<T> = match map.remove(&key) {
        Some(versions) => versions,
        None => Vec::new(),
    };
    assert(versions.deep_view() =~= chain(before, k));
    versions.insert(0, version);
    assert(versions.deep_view() =~= seq![v] + chain(before, k));
    map.insert(key, versions);
    assert(map.deep_view() =~= before.insert(k, seq![v] + chain(before, k)));
}

/// Counts the versions in all chains.
pub fn total_versions<K: Key, T: Version>(map: &OrdMap<K, Vec<T>>) -> (total: usize)
    ensures
        total == version_count::<K, T::V>(map.deep_view()),
{
    let ghost view = map.deep_view();
    let ghost keys = map.keys();
    let count = map.len();
    let mut total: usize = 0;
    let mut i: usize = 0;
    while i < count
        invariant
            i <= count,
            view == map.deep_view(),
            keys == map.keys(),
            count == keys.len(),
            total == saturated(versions_among(view, keys, i as int)),
        decreases count - i,
    {
        let length = map.value_at(i).len();
        if length > usize::MAX - total {
            total = usize::MAX;
        } else {
            total = total + length;
        }
        i = i + 1;
    }
    total
}

} // verus!
