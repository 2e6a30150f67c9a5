//! Maps and sets kept in key order.

use vstd::prelude::*;
use crate::model::Model;
use crate::order::{bytes_before, lex_irreflexive, lex_lt, lex_total, lex_transitive};

verus! {

/// A key with a strict total order on its contents.
pub trait Key: Model {
    /// `a` comes before `b`.
    spec fn before(a: Self::V, b: Self::V) -> bool;

    proof fn before_irreflexive(a: Self::V)
        ensures
            !Self::before(a, a),
    ;

    proof fn before_transitive(a: Self::V, b: Self::V, c: Self::V)
        requires
            Self::before(a, b),
            Self::before(b, c),
        ensures
            Self::before(a, c),
    ;

    proof fn before_total(a: Self::V, b: Self::V)
        ensures
            a == b || Self::before(a, b) || Self::before(b, a),
    ;

    /// Decides the order.
    fn comes_before(&self, other: &Self) -> (before: bool)
        ensures
            before == Self::before(self.deep_view(), other.deep_view()),
    ;
}

impl Key for u64 {
    open spec fn before(a: u64, b: u64) -> bool {
        a < b
    }

    proof fn before_irreflexive(a: u64) {
    }

    proof fn before_transitive(a: u64, b: u64, c: u64) {
    }

    proof fn before_total(a: u64, b: u64) {
    }

    fn comes_before(&self, other: &Self) -> (before: bool) {
        *self < *other
    }
}

impl Key for Vec<u8> {
    open spec fn before(a: Seq<u8>, b: Seq<u8>) -> bool {
        lex_lt(a, b)
    }

    proof fn before_irreflexive(a: Seq<u8>) {
        lex_irreflexive(a);
    }

    proof fn before_transitive(a: Seq<u8>, b: Seq<u8>, c: Seq<u8>) {
        lex_transitive(a, b, c);
    }

    proof fn before_total(a: Seq<u8>, b: Seq<u8>) {
        lex_total(a, b);
    }

    fn comes_before(&self, other: &Self) -> (before: bool) {
        broadcast use crate::model::group_contents;

        bytes_before(self.as_slice(), other.as_slice())
    }
}

impl<const N: usize> Key for [u8; N] {
    open spec fn before(a: Seq<u8>, b: Seq<u8>) -> bool {
        lex_lt(a, b)
    }

    proof fn before_irreflexive(a: Seq<u8>) {
        lex_irreflexive(a);
    }

    proof fn before_transitive(a: Seq<u8>, b: Seq<u8>, c: Seq<u8>) {
        lex_transitive(a, b, c);
    }

    proof fn before_total(a: Seq<u8>, b: Seq<u8>) {
        lex_total(a, b);
    }

    fn comes_before(&self, other: &Self) -> (before: bool) {
        broadcast use crate::model::group_contents;

        bytes_before(self.as_slice(), other.as_slice())
    }
}

/// The keys come in strictly increasing order.
pub open spec fn increasing<K: Key>(keys: Seq<K::V>) -> bool {
    forall|i: int, j: int|
        0 <= i < j < keys.len() ==> K::before(#[trigger] keys[i], #[trigger] keys[j])
}

/// `keys` lists the set in increasing order.
pub open spec fn lists<K: Key>(keys: Seq<K::V>, set: Set<K::V>) -> bool {
    &&& increasing::<K>(keys)
    &&& forall|k: K::V|
        #![trigger set.contains(k)]
        #![trigger keys.contains(k)]
        set.contains(k) <==> keys.contains(k)
}

/// The members of a finite set in increasing order.
pub open spec fn ordered<K: Key>(set: Set<K::V>) -> Seq<K::V> {
    choose|keys: Seq<K::V>| lists::<K>(keys, set)
}

/// A set has one listing in increasing order.
pub proof fn listing_is_unique<K: Key>(a: Seq<K::V>, b: Seq<K::V>, set: Set<K::V>)
    requires
        lists::<K>(a, set),
        lists::<K>(b, set),
    ensures
        a == b,
{
    listing_agrees::<K>(a, b, set, a.len() as int);
    listing_agrees::<K>(b, a, set, b.len() as int);
    assert(a =~= b);
}

proof fn listing_agrees<K: Key>(a: Seq<K::V>, b: Seq<K::V>, set: Set<K::V>, n: int)
    requires
        lists::<K>(a, set),
        lists::<K>(b, set),
        0 <= n <= a.len(),
    ensures
        n <= b.len(),
        forall|i: int| 0 <= i < n ==> a[i] == b[i],
    decreases n,
{
    if n > 0 {
        let m = n - 1;
        listing_agrees::<K>(a, b, set, m);
        assert(a.contains(a[m]));
        let j = choose|j: int| 0 <= j < b.len() && b[j] == a[m];
        if j < m {
            assert(a[j] == b[j]);
            K::before_irreflexive(a[m]);
        }
        assert(j >= m);
        if j > m {
            assert(b.contains(b[m]));
            let i = choose|i: int| 0 <= i < a.len() && a[i] == b[m];
            if i < m {
                K::before_irreflexive(b[m]);
            } else if i == m {
                K::before_irreflexive(b[m]);
            } else {
                K::before_transitive(a[m], a[i], b[j]);
                K::before_irreflexive(a[m]);
            }
        }
    }
}

/// The set that an increasing listing shows is what `ordered` lists.
pub proof fn listing_is_ordered<K: Key>(keys: Seq<K::V>, set: Set<K::V>)
    requires
        lists::<K>(keys, set),
    ensures
        ordered::<K>(set) == keys,
{
    listing_is_unique::<K>(ordered::<K>(set), keys, set);
}

/// A listed set is finite, and as large as its listing is long.
pub proof fn listing_len<K: Key>(keys: Seq<K::V>, set: Set<K::V>)
    requires
        lists::<K>(keys, set),
    ensures
        set.finite(),
        set.len() == keys.len(),
{
    assert(keys.no_duplicates()) by {
        assert forall|i: int, j: int|
            0 <= i < keys.len() && 0 <= j < keys.len() && i != j implies keys[i] != keys[j] by {
            K::before_irreflexive(keys[i]);
        }
    }
    keys.unique_seq_to_set();
    assert(keys.to_set() =~= set);
}

/// The set with one member less has the listing without it.
proof fn listing_remove<K: Key>(keys: Seq<K::V>, set: Set<K::V>, i: int)
    requires
        lists::<K>(keys, set),
        0 <= i < keys.len(),
    ensures
        lists::<K>(keys.remove(i), set.remove(keys[i])),
{
    let rest = keys.remove(i);
    assert forall|k: K::V| set.remove(keys[i]).contains(k) <==> #[trigger] rest.contains(k) by {
        if set.remove(keys[i]).contains(k) {
            assert(keys.contains(k));
            let j = choose|j: int| 0 <= j < keys.len() && keys[j] == k;
            if j < i {
                assert(rest[j] == k);
            } else {
                assert(rest[j - 1] == k);
            }
        }
        if rest.contains(k) {
            let j = choose|j: int| 0 <= j < rest.len() && rest[j] == k;
            let l = if j < i {
                j
            } else {
                j + 1
            };
            assert(keys[l] == k);
            assert(keys.contains(k));
            K::before_irreflexive(k);
        }
    }
}

/// Inserting between smaller and larger keys keeps a listing.
pub(crate) proof fn listing_insert<K: Key>(keys: Seq<K::V>, set: Set<K::V>, i: int, key: K::V)
    requires
        lists::<K>(keys, set),
        0 <= i <= keys.len(),
        forall|j: int| 0 <= j < i ==> K::before(#[trigger] keys[j], key),
        forall|j: int| i <= j < keys.len() ==> K::before(key, #[trigger] keys[j]),
    ensures
        lists::<K>(keys.insert(i, key), set.insert(key)),
{
    let more = keys.insert(i, key);
    assert forall|k: K::V| set.insert(key).contains(k) <==> #[trigger] more.contains(k) by {
        if set.insert(key).contains(k) {
            if k == key {
                assert(more[i] == k);
            } else {
                assert(keys.contains(k));
                let j = choose|j: int| 0 <= j < keys.len() && keys[j] == k;
                if j < i {
                    assert(more[j] == k);
                } else {
                    assert(more[j + 1] == k);
                }
            }
        }
        if more.contains(k) {
            let j = choose|j: int| 0 <= j < more.len() && more[j] == k;
            if j < i {
                assert(keys[j] == k);
                assert(keys.contains(k));
            } else if j > i {
                assert(keys[j - 1] == k);
                assert(keys.contains(k));
            }
        }
    }
}

/// Where a new key goes among `n` increasing keys.
pub(crate) proof fn insertion_point<K: Key>(keys: Seq<K::V>, key: K::V, n: int) -> (i: int)
    requires
        increasing::<K>(keys),
        0 <= n <= keys.len(),
        !keys.contains(key),
        forall|j: int| n <= j < keys.len() ==> K::before(key, #[trigger] keys[j]),
    ensures
        0 <= i <= keys.len(),
        forall|j: int| 0 <= j < i ==> K::before(#[trigger] keys[j], key),
        forall|j: int| i <= j < keys.len() ==> K::before(key, #[trigger] keys[j]),
    decreases n,
{
    if n == 0 {
        0
    } else {
        K::before_total(keys[n - 1], key);
        assert(keys.contains(keys[n - 1]));
        if K::before(keys[n - 1], key) {
            assert forall|j: int| 0 <= j < n implies K::before(#[trigger] keys[j], key) by {
                if j < n - 1 {
                    K::before_transitive(keys[j], keys[n - 1], key);
                }
            }
            n
        } else {
            insertion_point::<K>(keys, key, n - 1)
        }
    }
}

/// A listing has exactly the members of the set.
pub proof fn member_is_listed<K: Key>(keys: Seq<K::V>, set: Set<K::V>, key: K::V)
    requires
        lists::<K>(keys, set),
    ensures
        set.contains(key) <==> keys.contains(key),
        set.contains(key) ==> 0 <= keys.index_of(key) < keys.len() && keys[keys.index_of(key)]
            == key,
{
}

/// Every finite set has a listing in increasing order.
pub proof fn finite_set_is_listed<K: Key>(set: Set<K::V>)
    requires
        set.finite(),
    ensures
        lists::<K>(ordered::<K>(set), set),
    decreases set.len(),
{
    if set.len() == 0 {
        let none = Seq::<K::V>::empty();
        assert forall|k: K::V| set.contains(k) <==> #[trigger] none.contains(k) by {
            if set.contains(k) {
                vstd::set_lib::lemma_set_empty_equivalency_len(set);
            }
        }
        assert(lists::<K>(none, set));
    } else {
        let key = set.choose();
        let rest = set.remove(key);
        finite_set_is_listed::<K>(rest);
        let keys = ordered::<K>(rest);
        let i = insertion_point::<K>(keys, key, keys.len() as int);
        listing_insert::<K>(keys, rest, i, key);
        assert(rest.insert(key) =~= set);
        assert(lists::<K>(keys.insert(i, key), set));
    }
}

/// The keys of a sequence of entries.
pub open spec fn entry_keys<A, B>(entries: Seq<(A, B)>) -> Seq<A> {
    Seq::new(entries.len(), |i: int| entries[i].0)
}

/// The map that a sequence of entries with different keys describes.
pub open spec fn map_of<A, B>(entries: Seq<(A, B)>) -> Map<A, B> {
    Map::new(
        |k: A| entry_keys(entries).contains(k),
        |k: A| entries[entry_keys(entries).index_of(k)].1,
    )
}

/// A map whose entries are kept in key order.
#[verifier::reject_recursive_types(K)]
#[derive(Debug, PartialEq, Eq)]
pub struct OrdMap<K: Key, V: Model> {
    entries: Vec<(K, V)>,
}

impl<K: Key, V: Model> DeepView for OrdMap<K, V> {
    type V = Map<K::V, V::V>;

    closed spec fn deep_view(&self) -> Map<K::V, V::V> {
        map_of(self.entries.deep_view())
    }
}

impl<K: Key, V: Model> OrdMap<K, V> {
    #[verifier::type_invariant]
    spec fn sorted(self) -> bool {
        increasing::<K>(entry_keys(self.entries.deep_view()))
    }

    /// The keys in order.
    pub open spec fn keys(&self) -> Seq<K::V> {
        ordered::<K>(self.deep_view().dom())
    }

    proof fn shown(entries: Seq<(K::V, V::V)>)
        requires
            increasing::<K>(entry_keys(entries)),
        ensures
            lists::<K>(entry_keys(entries), map_of(entries).dom()),
            ordered::<K>(map_of(entries).dom()) == entry_keys(entries),
            map_of(entries).dom().finite(),
            map_of(entries).dom().len() == entries.len(),
            forall|i: int|
                #![trigger entries[i]]
                0 <= i < entries.len() ==> map_of(entries)[entries[i].0] == entries[i].1 && map_of(
                    entries,
                ).contains_key(entries[i].0),
    {
        let keys = entry_keys(entries);
        listing_is_ordered::<K>(keys, map_of(entries).dom());
        listing_len::<K>(keys, map_of(entries).dom());
        assert forall|i: int|
            #![trigger entries[i]]
            0 <= i < entries.len() implies map_of(entries)[entries[i].0] == entries[i].1 && map_of(
            entries,
        ).contains_key(entries[i].0) by {
            assert(keys[i] == entries[i].0);
            assert(keys.contains(keys[i]));
            let j = keys.index_of(keys[i]);
            assert(0 <= j < keys.len() && keys[j] == keys[i]);
            K::before_irreflexive(keys[i]);
        }
    }

    pub fn new() -> (map: Self)
        ensures
            map.deep_view() == Map::<K::V, V::V>::empty(),
    {
        let entries: Vec<(K, V)> = Vec::new();
        proof {
            assert(map_of(entries.deep_view()) =~= Map::empty());
        }
        OrdMap { entries }
    }

    /// The number of entries.
    pub fn len(&self) -> (len: usize)
        ensures
            self.deep_view().dom().finite(),
            len == self.deep_view().dom().len(),
            len == self.keys().len(),
            lists::<K>(self.keys(), self.deep_view().dom()),
    {
        proof {
            use_type_invariant(self);
            Self::shown(self.entries.deep_view());
        }
        self.entries.len()
    }

    pub fn is_empty(&self) -> (empty: bool)
        ensures
            empty == (self.deep_view() == Map::<K::V, V::V>::empty()),
    {
        proof {
            use_type_invariant(self);
            Self::shown(self.entries.deep_view());
            if self.entries@.len() == 0 {
                assert(self.deep_view() =~= Map::empty());
            } else {
                assert(self.deep_view().contains_key(self.entries.deep_view()[0].0));
            }
        }
        self.entries.len() == 0
    }

    /// The position of the first entry whose key is not before `key`.
    fn position(entries: &Vec<(K, V)>, key: &K) -> (position: usize)
        requires
            increasing::<K>(entry_keys(entries.deep_view())),
        ensures
            position <= entries@.len(),
            forall|i: int|
                0 <= i < position ==> K::before(
                    (#[trigger] entries@[i]).0.deep_view(),
                    key.deep_view(),
                ),
            forall|i: int|
                position <= i < entries@.len() ==> !K::before(
                    (#[trigger] entries@[i]).0.deep_view(),
                    key.deep_view(),
                ),
    {
        let ghost keys = entry_keys(entries.deep_view());
        let mut low: usize = 0;
        let mut high: usize = entries.len();
        while low < high
            invariant
                low <= high <= entries@.len(),
                keys == entry_keys(entries.deep_view()),
                increasing::<K>(keys),
                forall|i: int|
                    0 <= i < low ==> K::before(
                        (#[trigger] entries@[i]).0.deep_view(),
                        key.deep_view(),
                    ),
                forall|i: int|
                    high <= i < entries@.len() ==> !K::before(
                        (#[trigger] entries@[i]).0.deep_view(),
                        key.deep_view(),
                    ),
            decreases high - low,
        {
            let middle: usize = low + (high - low) / 2;
            assert(keys[middle as int] == entries@[middle as int].0.deep_view());
            if entries[middle].0.comes_before(key) {
                proof {
                    assert forall|i: int| 0 <= i < middle + 1 implies K::before(
                        (#[trigger] entries@[i]).0.deep_view(),
                        key.deep_view(),
                    ) by {
                        assert(keys[i] == entries@[i].0.deep_view());
                        if i < middle {
                            K::before_transitive(keys[i], keys[middle as int], key.deep_view());
                        }
                    }
                }
                low = middle + 1;
            } else {
                proof {
                    assert forall|i: int| middle <= i < entries@.len() implies !K::before(
                        (#[trigger] entries@[i]).0.deep_view(),
                        key.deep_view(),
                    ) by {
                        assert(keys[i] == entries@[i].0.deep_view());
                        if i > middle && K::before(keys[i], key.deep_view()) {
                            K::before_transitive(keys[middle as int], keys[i], key.deep_view());
                        }
                    }
                }
                high = middle;
            }
        }
        low
    }

    /// The position of a key, if the map has it.
    fn find(entries: &Vec<(K, V)>, key: &K) -> (found: Option<usize>)
        requires
            increasing::<K>(entry_keys(entries.deep_view())),
        ensures
            match found {
                Some(i) => {
                    &&& i < entries@.len()
                    &&& entries@[i as int].0.deep_view() == key.deep_view()
                    &&& map_of(entries.deep_view()).contains_key(key.deep_view())
                    &&& map_of(entries.deep_view())[key.deep_view()]
                        == entries@[i as int].1.deep_view()
                },
                None => !map_of(entries.deep_view()).contains_key(key.deep_view()),
            },
    {
        let ghost view = entries.deep_view();
        let position = Self::position(entries, key);
        proof {
            Self::shown(view);
        }
        if position < entries.len() && entries[position].0.same(key) {
            assert(view[position as int].0 == key.deep_view());
            Some(position)
        } else {
            proof {
                if entry_keys(view).contains(key.deep_view()) {
                    let j = choose|j: int|
                        0 <= j < entry_keys(view).len() && entry_keys(view)[j] == key.deep_view();
                    assert(entries@[j].0.deep_view() == key.deep_view());
                    K::before_irreflexive(key.deep_view());
                    if j > position {
                        let first = entries@[position as int].0.deep_view();
                        assert(entry_keys(view)[position as int] == first);
                        assert(K::before(first, key.deep_view()));
                    }
                }
            }
            None
        }
    }

    pub fn get(&self, key: &K) -> (found: Option<&V>)
        ensures
            match found {
                Some(value) => self.deep_view().contains_key(key.deep_view())
                    && self.deep_view()[key.deep_view()] == value.deep_view(),
                None => !self.deep_view().contains_key(key.deep_view()),
            },
    {
        proof {
            use_type_invariant(self);
        }
        match Self::find(&self.entries, key) {
            Some(i) => Some(&self.entries[i].1),
            None => None,
        }
    }

    pub fn contains_key(&self, key: &K) -> (found: bool)
        ensures
            found == self.deep_view().contains_key(key.deep_view()),
    {
        self.get(key).is_some()
    }

    /// Sets the value of a key, and returns the value that it had.
    pub fn insert(&mut self, key: K, value: V) -> (previous: Option<V>)
        ensures
            final(self).deep_view() == old(self).deep_view().insert(
                key.deep_view(),
                value.deep_view(),
            ),
            match previous {
                Some(value) => old(self).deep_view().contains_key(key.deep_view())
                    && old(self).deep_view()[key.deep_view()] == value.deep_view(),
                None => !old(self).deep_view().contains_key(key.deep_view()),
            },
    {
        proof {
            use_type_invariant(&*self);
        }
        let ghost before = self.entries.deep_view();
        let ghost k = key.deep_view();
        let ghost v = value.deep_view();
        proof {
            Self::shown(before);
        }
        let mut entries: Vec<(K, V)> = Vec::new();
        std::mem::swap(&mut entries, &mut self.entries);
        match Self::find(&entries, &key) {
            Some(i) => {
                let mut entry = (key, value);
                std::mem::swap(&mut entry, &mut entries[i]);
                proof {
                    let after = entries.deep_view();
                    assert(after =~= before.update(i as int, (k, v)));
                    assert(entry_keys(after) =~= entry_keys(before));
                    Self::shown(after);
                    Self::same_keys(before, after, i as int);
                    assert(map_of(after) =~= map_of(before).insert(k, v));
                }
                self.entries = entries;
                Some(entry.1)
            },
            None => {
                let i = Self::position(&entries, &key);
                proof {
                    assert forall|j: int| i <= j < before.len() implies K::before(
                        k,
                        #[trigger] entry_keys(before)[j],
                    ) by {
                        K::before_total(k, entry_keys(before)[j]);
                        assert(entries@[j].0.deep_view() == entry_keys(before)[j]);
                        assert(entry_keys(before).contains(entry_keys(before)[j]));
                    }
                    assert forall|j: int| 0 <= j < i implies K::before(
                        #[trigger] entry_keys(before)[j],
                        k,
                    ) by {
                        assert(entries@[j].0.deep_view() == entry_keys(before)[j]);
                    }
                    listing_insert::<K>(entry_keys(before), map_of(before).dom(), i as int, k);
                }
                entries.insert(i, (key, value));
                proof {
                    let after = entries.deep_view();
                    assert(after =~= before.insert(i as int, (k, v)));
                    assert(entry_keys(after) =~= entry_keys(before).insert(i as int, k));
                    Self::shown(after);
                    Self::inserted(before, i as int, k, v);
                }
                self.entries = entries;
                None
            },
        }
    }

    proof fn same_keys(before: Seq<(K::V, V::V)>, after: Seq<(K::V, V::V)>, i: int)
        requires
            increasing::<K>(entry_keys(before)),
            0 <= i < before.len(),
            after == before.update(i, (before[i].0, after[i].1)),
        ensures
            map_of(after) == map_of(before).insert(before[i].0, after[i].1),
    {
        assert(entry_keys(after) =~= entry_keys(before));
        Self::shown(before);
        Self::shown(after);
        assert(map_of(after).dom() =~= map_of(before).insert(before[i].0, after[i].1).dom());
        assert forall|q: K::V| map_of(after).contains_key(q) implies map_of(after)[q] == map_of(
            before,
        ).insert(before[i].0, after[i].1)[q] by {
            assert(entry_keys(after).contains(q));
            let j = choose|j: int| 0 <= j < after.len() && entry_keys(after)[j] == q;
            assert(after[j].0 == q && before[j].0 == q);
            assert(map_of(after)[after[j].0] == after[j].1);
            assert(map_of(before)[before[j].0] == before[j].1);
            if j != i {
                K::before_irreflexive(q);
                assert(entry_keys(before)[i] == before[i].0);
                assert(before[i].0 != q);
            }
        }
        assert(map_of(after) =~= map_of(before).insert(before[i].0, after[i].1));
    }

    proof fn inserted(before: Seq<(K::V, V::V)>, i: int, k: K::V, v: V::V)
        requires
            increasing::<K>(entry_keys(before)),
            0 <= i <= before.len(),
            increasing::<K>(entry_keys(before.insert(i, (k, v)))),
            !map_of(before).contains_key(k),
        ensures
            map_of(before.insert(i, (k, v))) == map_of(before).insert(k, v),
    {
        let after = before.insert(i, (k, v));
        Self::shown(before);
        Self::shown(after);
        assert forall|q: K::V| map_of(after).contains_key(q) <==> map_of(before).insert(
            k,
            v,
        ).contains_key(q) by {
            if map_of(after).contains_key(q) {
                let j = choose|j: int| 0 <= j < after.len() && entry_keys(after)[j] == q;
                if j < i {
                    assert(map_of(before).contains_key(before[j].0));
                } else if j > i {
                    assert(map_of(before).contains_key(before[j - 1].0));
                }
            }
            if map_of(before).contains_key(q) {
                let j = choose|j: int| 0 <= j < before.len() && entry_keys(before)[j] == q;
                if j < i {
                    assert(map_of(after).contains_key(after[j].0));
                } else {
                    assert(map_of(after).contains_key(after[j + 1].0));
                }
            }
            assert(map_of(after).contains_key(after[i].0));
        }
        assert forall|q: K::V| map_of(after).contains_key(q) implies map_of(after)[q] == map_of(
            before,
        ).insert(k, v)[q] by {
            let j = choose|j: int| 0 <= j < after.len() && entry_keys(after)[j] == q;
            assert(after[j].0 == q);
            assert(map_of(after)[after[j].0] == after[j].1);
            if j < i {
                assert(map_of(before)[before[j].0] == before[j].1);
            } else if j > i {
                assert(map_of(before)[before[j - 1].0] == before[j - 1].1);
            }
        }
        assert(map_of(after) =~= map_of(before).insert(k, v));
    }

    proof fn removed(before: Seq<(K::V, V::V)>, i: int)
        requires
            increasing::<K>(entry_keys(before)),
            0 <= i < before.len(),
        ensures
            increasing::<K>(entry_keys(before.remove(i))),
            map_of(before.remove(i)) == map_of(before).remove(before[i].0),
    {
        let after = before.remove(i);
        Self::shown(before);
        assert(entry_keys(after) =~= entry_keys(before).remove(i));
        listing_remove::<K>(entry_keys(before), map_of(before).dom(), i);
        Self::shown(after);
        assert forall|q: K::V| map_of(after).contains_key(q) <==> map_of(before).remove(
            before[i].0,
        ).contains_key(q) by {
            assert(map_of(after).contains_key(q) <==> entry_keys(after).contains(q));
            assert(map_of(before).dom().remove(entry_keys(before)[i]).contains(q)
                <==> entry_keys(before).remove(i).contains(q));
        }
        assert forall|q: K::V| map_of(after).contains_key(q) implies map_of(after)[q] == map_of(
            before,
        ).remove(before[i].0)[q] by {
            let j = choose|j: int| 0 <= j < after.len() && entry_keys(after)[j] == q;
            assert(after[j].0 == q);
            assert(map_of(after)[after[j].0] == after[j].1);
            if j < i {
                assert(map_of(before)[before[j].0] == before[j].1);
            } else {
                assert(map_of(before)[before[j + 1].0] == before[j + 1].1);
            }
        }
        assert(map_of(after) =~= map_of(before).remove(before[i].0));
    }

    /// Takes a key out, and returns the value that it had.
    pub fn remove(&mut self, key: &K) -> (previous: Option<V>)
        ensures
            final(self).deep_view() == old(self).deep_view().remove(key.deep_view()),
            match previous {
                Some(value) => old(self).deep_view().contains_key(key.deep_view())
                    && old(self).deep_view()[key.deep_view()] == value.deep_view(),
                None => !old(self).deep_view().contains_key(key.deep_view()),
            },
    {
        proof {
            use_type_invariant(&*self);
        }
        let ghost before = self.entries.deep_view();
        let mut entries: Vec<(K, V)> = Vec::new();
        std::mem::swap(&mut entries, &mut self.entries);
        match Self::find(&entries, key) {
            Some(i) => {
                let entry = entries.remove(i);
                proof {
                    assert(entries.deep_view() =~= before.remove(i as int));
                    Self::removed(before, i as int);
                }
                self.entries = entries;
                Some(entry.1)
            },
            None => {
                self.entries = entries;
                assert(self.deep_view().remove(key.deep_view()) =~= self.deep_view());
                None
            },
        }
    }

    /// The key at a position of the key order.
    pub fn key_at(&self, i: usize) -> (key: &K)
        requires
            i < self.keys().len(),
        ensures
            key.deep_view() == self.keys()[i as int],
            self.deep_view().contains_key(key.deep_view()),
    {
        proof {
            use_type_invariant(self);
            Self::shown(self.entries.deep_view());
            assert(self.deep_view().contains_key(self.entries.deep_view()[i as int].0));
        }
        &self.entries[i].0
    }

    /// The value of the key at a position of the key order.
    pub fn value_at(&self, i: usize) -> (value: &V)
        requires
            i < self.keys().len(),
        ensures
            self.deep_view().contains_key(self.keys()[i as int]),
            value.deep_view() == self.deep_view()[self.keys()[i as int]],
    {
        proof {
            use_type_invariant(self);
            Self::shown(self.entries.deep_view());
            assert(self.deep_view()[self.entries.deep_view()[i as int].0]
                == self.entries.deep_view()[i as int].1);
            assert(self.deep_view().contains_key(self.entries.deep_view()[i as int].0));
        }
        &self.entries[i].1
    }
}

impl<K: Key, V: Model> Clone for OrdMap<K, V> {
    fn clone(&self) -> (copy: Self)
        ensures
            copy.deep_view() == self.deep_view(),
    {
        self.duplicate()
    }
}

impl<K: Key, V: Model> Model for OrdMap<K, V> {
    fn duplicate(&self) -> (copy: Self) {
        proof {
            use_type_invariant(self);
        }
        let mut entries: Vec<(K, V)> = Vec::with_capacity(self.entries.len());
        let mut i: usize = 0;
        while i < self.entries.len()
            invariant
                i <= self.entries@.len(),
                entries@.len() == i,
                forall|j: int|
                    0 <= j < i ==> (#[trigger] entries@[j]).deep_view()
                        == self.entries@[j].deep_view(),
            decreases self.entries@.len() - i,
        {
            let entry = &self.entries[i];
            entries.push((entry.0.duplicate(), entry.1.duplicate()));
            i = i + 1;
        }
        assert(entries.deep_view() =~= self.entries.deep_view());
        OrdMap { entries }
    }

    fn same(&self, other: &Self) -> (equal: bool) {
        proof {
            use_type_invariant(self);
            use_type_invariant(other);
            Self::shown(self.entries.deep_view());
            Self::shown(other.entries.deep_view());
        }
        let ghost left = self.entries.deep_view();
        let ghost right = other.entries.deep_view();
        if self.entries.len() != other.entries.len() {
            return false;
        }
        let mut i: usize = 0;
        while i < self.entries.len()
            invariant
                i <= self.entries@.len(),
                self.entries@.len() == other.entries@.len(),
                left == self.entries.deep_view(),
                right == other.entries.deep_view(),
                self.deep_view() == map_of(left),
                other.deep_view() == map_of(right),
                increasing::<K>(entry_keys(left)),
                increasing::<K>(entry_keys(right)),
                forall|j: int| 0 <= j < i ==> left[j] == right[j],
            decreases self.entries@.len() - i,
        {
            assert(left[i as int] == self.entries@[i as int].deep_view());
            assert(right[i as int] == other.entries@[i as int].deep_view());
            if !(self.entries[i].0.same(&other.entries[i].0) && self.entries[i].1.same(
                &other.entries[i].1,
            )) {
                proof {
                    Self::shown(left);
                    Self::shown(right);
                    if map_of(left) == map_of(right) {
                        assert(entry_keys(left)[i as int] == entry_keys(right)[i as int]);
                        assert(map_of(left)[left[i as int].0] == left[i as int].1);
                        assert(map_of(right)[right[i as int].0] == right[i as int].1);
                    }
                }
                return false;
            }
            i = i + 1;
        }
        assert(left =~= right);
        true
    }
}

/// A set whose members are kept in order.
#[verifier::reject_recursive_types(K)]
#[derive(Debug, PartialEq, Eq)]
pub struct OrdSet<K: Key> {
    members: OrdMap<K, bool>,
}

impl<K: Key> DeepView for OrdSet<K> {
    type V = Set<K::V>;

    closed spec fn deep_view(&self) -> Set<K::V> {
        self.members.deep_view().dom()
    }
}

impl<K: Key> OrdSet<K> {
    /// Every member carries the same mark, so that the members are the content.
    #[verifier::type_invariant]
    spec fn marked(self) -> bool {
        forall|k: K::V|
            self.members.deep_view().contains_key(k) ==> #[trigger] self.members.deep_view()[k]
    }

    /// The members in order.
    pub open spec fn listed(&self) -> Seq<K::V> {
        ordered::<K>(self.deep_view())
    }

    pub fn new() -> (set: Self)
        ensures
            set.deep_view() == Set::<K::V>::empty(),
    {
        let set = OrdSet { members: OrdMap::new() };
        assert(set.deep_view() =~= Set::empty());
        set
    }

    pub fn len(&self) -> (len: usize)
        ensures
            self.deep_view().finite(),
            len == self.deep_view().len(),
            len == self.listed().len(),
            lists::<K>(self.listed(), self.deep_view()),
    {
        self.members.len()
    }

    pub fn is_empty(&self) -> (empty: bool)
        ensures
            empty == (self.deep_view() == Set::<K::V>::empty()),
    {
        let length = self.members.len();
        proof {
            if length == 0 {
                assert(self.deep_view() =~= Set::empty());
            }
        }
        length == 0
    }

    pub fn contains(&self, key: &K) -> (found: bool)
        ensures
            found == self.deep_view().contains(key.deep_view()),
    {
        self.members.contains_key(key)
    }

    /// Adds a member, and says whether it is new.
    pub fn insert(&mut self, key: K) -> (new: bool)
        ensures
            final(self).deep_view() == old(self).deep_view().insert(key.deep_view()),
            new == !old(self).deep_view().contains(key.deep_view()),
    {
        proof {
            use_type_invariant(&*self);
        }
        let mut members: OrdMap<K, bool> = OrdMap::new();
        std::mem::swap(&mut members, &mut self.members);
        let ghost before = members.deep_view();
        let new = members.insert(key, true).is_none();
        assert(members.deep_view().dom() =~= before.dom().insert(key.deep_view()));
        self.members = members;
        new
    }

    /// The member at a position of the order.
    pub fn member_at(&self, i: usize) -> (key: &K)
        requires
            i < self.listed().len(),
        ensures
            key.deep_view() == self.listed()[i as int],
            self.deep_view().contains(key.deep_view()),
    {
        self.members.key_at(i)
    }
}

impl<K: Key> Clone for OrdSet<K> {
    fn clone(&self) -> (copy: Self)
        ensures
            copy.deep_view() == self.deep_view(),
    {
        self.duplicate()
    }
}

impl<K: Key> Model for OrdSet<K> {
    fn duplicate(&self) -> (copy: Self) {
        proof {
            use_type_invariant(self);
        }
        OrdSet { members: self.members.duplicate() }
    }

    fn same(&self, other: &Self) -> (equal: bool) {
        proof {
            use_type_invariant(self);
            use_type_invariant(other);
        }
        let equal = self.members.same(&other.members);
        proof {
            if self.deep_view() == other.deep_view() {
                assert(self.members.deep_view() =~= other.members.deep_view());
            }
        }
        equal
    }
}

} // verus!
