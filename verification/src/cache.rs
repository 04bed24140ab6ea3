//! Reusable caches.
use vstd::prelude::*;
use regex::{Error as RegexError, Regex};
use std::sync::Arc;

verus! {

/// True when `entries` names no key twice.
pub open spec fn keys_distinct<K, V>(entries: Seq<(K, V)>) -> bool {
    forall|i: int, j: int|
        0 <= i < entries.len() && 0 <= j < entries.len() && i != j ==> entries[i].0 != entries[j].0
}

/// True when some entry of `entries` has the key `key`.
pub open spec fn has_key<K, V>(entries: Seq<(K, V)>, key: K) -> bool {
    exists|i: int| 0 <= i < entries.len() && entries[i].0 == key
}

/// The position of `key` in `entries`, when it is there.
pub open spec fn key_position<K, V>(entries: Seq<(K, V)>, key: K) -> int {
    choose|i: int| 0 <= i < entries.len() && entries[i].0 == key
}

/// The value that `entries` holds for `key`.
pub open spec fn lookup<K, V>(entries: Seq<(K, V)>, key: K) -> Option<V> {
    if has_key(entries, key) {
        Some(entries[key_position(entries, key)].1)
    } else {
        None
    }
}

/// `entries` with the entry for `key` removed, when there is one.
pub open spec fn without_key<K, V>(entries: Seq<(K, V)>, key: K) -> Seq<(K, V)> {
    if has_key(entries, key) {
        entries.remove(key_position(entries, key))
    } else {
        entries
    }
}

/// The most-recently-used order after a read of `key`: its entry moves to the front.
pub open spec fn touched<K, V>(entries: Seq<(K, V)>, key: K) -> Seq<(K, V)> {
    if has_key(entries, key) {
        seq![entries[key_position(entries, key)]] + without_key(entries, key)
    } else {
        entries
    }
}

/// The most-recently-used order after storing `value` under `key` in a cache
/// that holds at most `capacity` entries: the new entry comes first and the
/// least recently used entries beyond the capacity are evicted.
pub open spec fn inserted<K, V>(entries: Seq<(K, V)>, capacity: nat, key: K, value: V) -> Seq<(K, V)> {
    let all = seq![(key, value)] + without_key(entries, key);
    if all.len() <= capacity {
        all
    } else {
        all.take(capacity as int)
    }
}

/// A key that can tell whether another key is the same by comparing views,
/// and be copied with the same view.
pub trait CacheKey: View + Sized {
    fn same_key(&self, other: &Self) -> (r: bool)
        ensures
            r == (self@ == other@),
    ;

    fn copy_key(&self) -> (r: Self)
        ensures
            r@ == self@,
    ;
}

impl CacheKey for u8 {
    fn same_key(&self, other: &Self) -> (r: bool) {
        *self == *other
    }

    fn copy_key(&self) -> (r: Self) {
        *self
    }
}

impl CacheKey for u16 {
    fn same_key(&self, other: &Self) -> (r: bool) {
        *self == *other
    }

    fn copy_key(&self) -> (r: Self) {
        *self
    }
}

impl CacheKey for u32 {
    fn same_key(&self, other: &Self) -> (r: bool) {
        *self == *other
    }

    fn copy_key(&self) -> (r: Self) {
        *self
    }
}

impl CacheKey for u64 {
    fn same_key(&self, other: &Self) -> (r: bool) {
        *self == *other
    }

    fn copy_key(&self) -> (r: Self) {
        *self
    }
}

impl CacheKey for u128 {
    fn same_key(&self, other: &Self) -> (r: bool) {
        *self == *other
    }

    fn copy_key(&self) -> (r: Self) {
        *self
    }
}

impl CacheKey for usize {
    fn same_key(&self, other: &Self) -> (r: bool) {
        *self == *other
    }

    fn copy_key(&self) -> (r: Self) {
        *self
    }
}

impl CacheKey for i8 {
    fn same_key(&self, other: &Self) -> (r: bool) {
        *self == *other
    }

    fn copy_key(&self) -> (r: Self) {
        *self
    }
}

impl CacheKey for i16 {
    fn same_key(&self, other: &Self) -> (r: bool) {
        *self == *other
    }

    fn copy_key(&self) -> (r: Self) {
        *self
    }
}

impl CacheKey for i32 {
    fn same_key(&self, other: &Self) -> (r: bool) {
        *self == *other
    }

    fn copy_key(&self) -> (r: Self) {
        *self
    }
}

impl CacheKey for i64 {
    fn same_key(&self, other: &Self) -> (r: bool) {
        *self == *other
    }

    fn copy_key(&self) -> (r: Self) {
        *self
    }
}

impl CacheKey for i128 {
    fn same_key(&self, other: &Self) -> (r: bool) {
        *self == *other
    }

    fn copy_key(&self) -> (r: Self) {
        *self
    }
}

impl CacheKey for isize {
    fn same_key(&self, other: &Self) -> (r: bool) {
        *self == *other
    }

    fn copy_key(&self) -> (r: Self) {
        *self
    }
}

impl CacheKey for char {
    fn same_key(&self, other: &Self) -> (r: bool) {
        *self == *other
    }

    fn copy_key(&self) -> (r: Self) {
        *self
    }
}

impl CacheKey for bool {
    fn same_key(&self, other: &Self) -> (r: bool) {
        *self == *other
    }

    fn copy_key(&self) -> (r: Self) {
        *self
    }
}

impl<'a> CacheKey for &'a str {
    fn same_key(&self, other: &Self) -> (r: bool) {
        crate::text::Comparator::case_sensitive().equals(*self, *other)
    }

    fn copy_key(&self) -> (r: Self) {
        *self
    }
}

impl CacheKey for String {
    fn same_key(&self, other: &Self) -> (r: bool) {
        crate::text::Comparator::case_sensitive().equals(self.as_str(), other.as_str())
    }

    fn copy_key(&self) -> (r: Self) {
        self.clone()
    }
}

/// Entries with each key taken by its view.
pub open spec fn view_entries<K: View, V>(entries: Seq<(K, V)>) -> Seq<(K::V, V)> {
    Seq::new(entries.len(), |i: int| (entries[i].0@, entries[i].1))
}

/// A bounded most-recently-used cache.
#[derive(Debug)]
pub struct MruCache<K: View, V> {
    capacity: usize,
    entries: Vec<(K, V)>,
}

impl<K: View, V> MruCache<K, V> {
    /// The cached entries, most recently used first, each key by its view.
    pub closed spec fn entries(&self) -> Seq<(K::V, V)> {
        view_entries(self.entries@)
    }

    /// The largest number of entries the cache keeps.
    pub closed spec fn capacity(&self) -> nat {
        self.capacity as nat
    }

    /// The cache respects its capacity and holds each key once.
    #[verifier::type_invariant]
    pub open spec fn well_formed(&self) -> bool {
        &&& self.entries().len() <= self.capacity()
        &&& keys_distinct(self.entries())
    }
}

impl<K: Clone + CacheKey, V> MruCache<K, V> {
    pub fn new(capacity: usize) -> (cache: Self)
        ensures
            cache.entries() == Seq::<(K::V, V)>::empty(),
            cache.capacity() == capacity,
            cache.well_formed(),
    {
        let entries: Vec<(K, V)> = Vec::new();
        assert(view_entries(entries@) =~= Seq::<(K::V, V)>::empty());
        MruCache { capacity, entries }
    }

    /// Changes the capacity, evicting the least recently used entries that no
    /// longer fit.
    pub fn set_capacity(&mut self, capacity: usize)
        ensures
            final(self).capacity() == capacity,
            final(self).entries() == if old(self).entries().len() <= capacity {
                old(self).entries()
            } else {
                old(self).entries().take(capacity as int)
            },
            final(self).well_formed(),
    {
        proof {
            use_type_invariant(&*self);
        }
        let mut entries: Vec<(K, V)> = Vec::new();
        std::mem::swap(&mut entries, &mut self.entries);
        Self::truncate(&mut entries, capacity);
        *self = MruCache { capacity, entries };
    }

    /// Evicts the least recently used entries beyond `capacity`.
    fn truncate(entries: &mut Vec<(K, V)>, capacity: usize)
        requires
            keys_distinct(view_entries(old(entries)@)),
        ensures
            view_entries(final(entries)@) == if old(entries)@.len() <= capacity {
                view_entries(old(entries)@)
            } else {
                view_entries(old(entries)@).take(capacity as int)
            },
            final(entries)@.len() <= capacity,
            keys_distinct(view_entries(final(entries)@)),
    {
        let ghost before = view_entries(entries@);
        entries.truncate(capacity);
        proof {
            let w = view_entries(entries@);
            if before.len() > capacity {
                assert(w =~= before.take(capacity as int));
            } else {
                assert(w =~= before);
            }
            assert forall|i: int, j: int|
                0 <= i < w.len() && 0 <= j < w.len() && i != j implies w[i].0 != w[j].0 by {
                assert(w[i] == before[i]);
                assert(w[j] == before[j]);
            }
        }
    }

    /// Finds the position of `key`, if any.
    fn position(entries: &Vec<(K, V)>, key: &K) -> (r: Option<usize>)
        requires
            keys_distinct(view_entries(entries@)),
        ensures
            match r {
                Some(i) => i < entries@.len() && has_key(view_entries(entries@), key@)
                    && key_position(view_entries(entries@), key@) == i,
                None => !has_key(view_entries(entries@), key@),
            },
    {
        let ghost w = view_entries(entries@);
        let mut i: usize = 0;
        while i < entries.len()
            invariant
                i <= entries@.len(),
                w == view_entries(entries@),
                keys_distinct(w),
                forall|j: int| 0 <= j < i ==> w[j].0 != key@,
            decreases entries@.len() - i,
        {
            if entries[i].0.same_key(key) {
                assert(w[i as int].0 == key@);
                assert(has_key(w, key@));
                let ghost p = key_position(w, key@);
                assert(w[p].0 == key@);
                assert(p == i);
                return Some(i);
            }
            i = i + 1;
        }
        None
    }

    /// Looks up `key`; a hit makes it the most recently used entry.
    pub fn get(&mut self, key: &K) -> (r: Option<&V>)
        ensures
            final(self).capacity() == old(self).capacity(),
            final(self).entries() == touched(old(self).entries(), key@),
            final(self).well_formed(),
            match r {
                Some(v) => lookup(old(self).entries(), key@) == Some(*v),
                None => lookup(old(self).entries(), key@) is None,
            },
    {
        proof {
            use_type_invariant(&*self);
        }
        let found = Self::position(&self.entries, key);
        match found {
            Some(i) => {
                let ghost before = self.entries();
                let ghost raw = self.entries@;
                let mut entries: Vec<(K, V)> = Vec::new();
                std::mem::swap(&mut entries, &mut self.entries);
                let entry = entries.remove(i);
                entries.insert(0, entry);
                proof {
                    assert(view_entries(entries@) =~= seq![before[i as int]] + before.remove(i as int));
                    lemma_move_front_distinct(before, i as int);
                }
                let capacity = self.capacity;
                *self = MruCache { capacity, entries };
                Some(&self.entries[0].1)
            },
            None => None,
        }
    }

    /// Stores `value` under `key` as the most recently used entry and returns
    /// the value it replaced; entries beyond the capacity are evicted, least
    /// recently used first.
    pub fn insert(&mut self, key: K, value: V) -> (previous: Option<V>)
        ensures
            final(self).capacity() == old(self).capacity(),
            final(self).entries() == inserted(old(self).entries(), old(self).capacity(), key@, value),
            previous == lookup(old(self).entries(), key@),
            final(self).well_formed(),
    {
        proof {
            use_type_invariant(&*self);
        }
        let found = Self::position(&self.entries, &key);
        let ghost before = self.entries();
        let ghost k = key@;
        let mut entries: Vec<(K, V)> = Vec::new();
        std::mem::swap(&mut entries, &mut self.entries);
        let previous = match found {
            Some(i) => {
                let ghost raw = entries@;
                let (_, old_value) = entries.remove(i);
                assert(view_entries(entries@) =~= view_entries(raw).remove(i as int));
                Some(old_value)
            },
            None => None,
        };
        assert(view_entries(entries@) == without_key(before, k));
        proof { lemma_without_key_distinct(before, k); }
        let ghost rest = entries@;
        entries.insert(0, (key, value));
        proof {
            let all = seq![(k, value)] + without_key(before, k);
            assert(view_entries(entries@) =~= all);
            lemma_prepend_distinct(without_key(before, k), k, value);
        }
        let capacity = self.capacity;
        Self::truncate(&mut entries, capacity);
        *self = MruCache { capacity, entries };
        previous
    }
}

impl<K: Clone + CacheKey, V: Clone> Clone for MruCache<K, V> {
    /// A copy with the same capacity and the same keys in the same order,
    /// each value cloned.
    fn clone(&self) -> (r: Self)
        ensures
            r.capacity() == self.capacity(),
            r.entries().len() == self.entries().len(),
            forall|i: int|
                0 <= i < self.entries().len() ==> (#[trigger] r.entries()[i]).0 == self.entries()[i].0
                    && cloned(self.entries()[i].1, r.entries()[i].1),
    {
        proof {
            use_type_invariant(self);
        }
        let ghost source = self.entries();
        let mut entries: Vec<(K, V)> = Vec::new();
        let mut i: usize = 0;
        while i < self.entries.len()
            invariant
                i <= self.entries@.len(),
                source == view_entries(self.entries@),
                entries@.len() == i,
                forall|j: int|
                    0 <= j < i ==> (#[trigger] view_entries(entries@)[j]).0 == source[j].0
                        && cloned(source[j].1, view_entries(entries@)[j].1),
            decreases self.entries@.len() - i,
        {
            let key = self.entries[i].0.copy_key();
            let value = self.entries[i].1.clone();
            let ghost before = entries@;
            entries.push((key, value));
            proof {
                assert forall|j: int| 0 <= j < i + 1 implies (#[trigger] view_entries(entries@)[j]).0
                    == source[j].0 && cloned(source[j].1, view_entries(entries@)[j].1) by {
                    if j < i {
                        assert(entries@[j] == before[j]);
                        assert(view_entries(before)[j] == view_entries(entries@)[j]);
                    }
                }
            }
            i = i + 1;
        }
        proof {
            let w = view_entries(entries@);
            assert forall|a: int, b: int| 0 <= a < w.len() && 0 <= b < w.len() && a != b implies w[a].0
                != w[b].0 by {
                assert(w[a].0 == source[a].0);
                assert(w[b].0 == source[b].0);
            }
        }
        MruCache { capacity: self.capacity, entries }
    }
}

impl<K: Clone + CacheKey, V> Default for MruCache<K, V> {
    fn default() -> (cache: Self)
        ensures
            cache.entries() == Seq::<(K::V, V)>::empty(),
            cache.capacity() == 100,
            cache.well_formed(),
    {
        Self::new(100)
    }
}

proof fn lemma_without_key_distinct<K, V>(entries: Seq<(K, V)>, key: K)
    requires
        keys_distinct(entries),
    ensures
        keys_distinct(without_key(entries, key)),
        !has_key(without_key(entries, key), key),
        without_key(entries, key).len() == if has_key(entries, key) { entries.len() - 1 } else { entries.len() as int },
{
    if has_key(entries, key) {
        let p = key_position(entries, key);
        let w = entries.remove(p);
        assert forall|i: int, j: int| 0 <= i < w.len() && 0 <= j < w.len() && i != j implies w[i].0 != w[j].0 by {
            let a = if i < p { i } else { i + 1 };
            let b = if j < p { j } else { j + 1 };
            assert(w[i] == entries[a]);
            assert(w[j] == entries[b]);
        }
        if has_key(w, key) {
            let q = choose|q: int| 0 <= q < w.len() && w[q].0 == key;
            let a = if q < p { q } else { q + 1 };
            assert(w[q] == entries[a]);
        }
    }
}

proof fn lemma_prepend_distinct<K, V>(entries: Seq<(K, V)>, key: K, value: V)
    requires
        keys_distinct(entries),
        !has_key(entries, key),
    ensures
        keys_distinct(seq![(key, value)] + entries),
{
    let all = seq![(key, value)] + entries;
    assert forall|i: int, j: int| 0 <= i < all.len() && 0 <= j < all.len() && i != j implies all[i].0 != all[j].0 by {
        if i == 0 {
            assert(all[j] == entries[j - 1]);
        } else if j == 0 {
            assert(all[i] == entries[i - 1]);
        } else {
            assert(all[i] == entries[i - 1]);
            assert(all[j] == entries[j - 1]);
        }
    }
}

proof fn lemma_move_front_distinct<K, V>(entries: Seq<(K, V)>, p: int)
    requires
        keys_distinct(entries),
        0 <= p < entries.len(),
    ensures
        keys_distinct(seq![entries[p]] + entries.remove(p)),
        touched(entries, entries[p].0) == seq![entries[p]] + entries.remove(p),
{
    let key = entries[p].0;
    assert(has_key(entries, key));
    let q = key_position(entries, key);
    assert(q == p);
    lemma_without_key_distinct(entries, key);
    lemma_prepend_distinct(entries.remove(p), key, entries[p].1);
}

/// Reading back a write: after `value` is stored under `key` in a cache with
/// room for at least one entry, the key is the most recently used entry and
/// looking it up gives `value`.
pub proof fn lemma_insert_then_lookup<K, V>(entries: Seq<(K, V)>, capacity: nat, key: K, value: V)
    requires
        capacity > 0,
        keys_distinct(entries),
    ensures
        inserted(entries, capacity, key, value)[0] == (key, value),
        lookup(inserted(entries, capacity, key, value), key) == Some(value),
{
    lemma_without_key_distinct(entries, key);
    let all = seq![(key, value)] + without_key(entries, key);
    lemma_prepend_distinct(without_key(entries, key), key, value);
    let r = inserted(entries, capacity, key, value);
    assert(r[0] == (key, value));
    assert(has_key(r, key));
    let p = key_position(r, key);
    if p != 0 {
        assert(r[p] == all[p]);
        assert(all[0].0 == all[p].0);
    }
}

/// Eviction: storing a new key in a full cache drops exactly the least
/// recently used entry.
pub proof fn lemma_insert_new_key_into_full_cache<K, V>(entries: Seq<(K, V)>, capacity: nat, key: K, value: V)
    requires
        capacity > 0,
        entries.len() == capacity,
        !has_key(entries, key),
    ensures
        inserted(entries, capacity, key, value) == seq![(key, value)] + entries.drop_last(),
{
    assert((seq![(key, value)] + entries).take(capacity as int) =~= seq![(key, value)] + entries.drop_last());
}

/// Replacing the value of a key the cache already holds evicts nothing and
/// leaves every other key with its value.
pub proof fn lemma_insert_existing_key_keeps_others<K, V>(
    entries: Seq<(K, V)>,
    capacity: nat,
    key: K,
    value: V,
    other: K,
)
    requires
        entries.len() <= capacity,
        keys_distinct(entries),
        has_key(entries, key),
        other != key,
    ensures
        inserted(entries, capacity, key, value).len() == entries.len(),
        lookup(inserted(entries, capacity, key, value), other) == lookup(entries, other),
{
    lemma_without_key_distinct(entries, key);
    let w = without_key(entries, key);
    let r = inserted(entries, capacity, key, value);
    assert(r =~= seq![(key, value)] + w);
    lemma_prepend_distinct(w, key, value);
    lemma_lookup_remove(entries, key_position(entries, key), other);
    if has_key(w, other) {
        let q = key_position(w, other);
        assert(r[q + 1] == w[q]);
        assert(has_key(r, other));
        let p = key_position(r, other);
        if p != q + 1 {
            assert(r[p].0 == r[q + 1].0);
        }
    } else {
        if has_key(r, other) {
            let p = key_position(r, other);
            assert(p > 0);
            assert(r[p] == w[p - 1]);
        }
    }
}

/// A read changes only the order of the entries: every key keeps its value
/// and no entry is added or evicted.
pub proof fn lemma_touch_keeps_contents<K, V>(entries: Seq<(K, V)>, key: K, other: K)
    requires
        keys_distinct(entries),
    ensures
        touched(entries, key).len() == entries.len(),
        lookup(touched(entries, key), other) == lookup(entries, other),
{
    if has_key(entries, key) {
        let p = key_position(entries, key);
        lemma_move_front_distinct(entries, p);
        let t = touched(entries, key);
        let w = entries.remove(p);
        if other == key {
            assert(t[0] == entries[p]);
            assert(has_key(t, other));
            let q = key_position(t, other);
            if q != 0 {
                assert(t[q].0 == t[0].0);
            }
        } else {
            lemma_lookup_remove(entries, p, other);
            if has_key(w, other) {
                let q = key_position(w, other);
                assert(t[q + 1] == w[q]);
                assert(has_key(t, other));
                let r = key_position(t, other);
                if r != q + 1 {
                    assert(t[r].0 == t[q + 1].0);
                }
            } else if has_key(t, other) {
                let r = key_position(t, other);
                assert(r > 0);
                assert(t[r] == w[r - 1]);
            }
        }
    }
}

proof fn lemma_lookup_remove<K, V>(entries: Seq<(K, V)>, p: int, other: K)
    requires
        keys_distinct(entries),
        0 <= p < entries.len(),
        entries[p].0 != other,
    ensures
        lookup(entries.remove(p), other) == lookup(entries, other),
{
    let w = entries.remove(p);
    if has_key(entries, other) {
        let q = key_position(entries, other);
        let q2 = if q < p { q } else { q - 1 };
        assert(w[q2] == entries[q]);
        assert(has_key(w, other));
        let r = key_position(w, other);
        let r2 = if r < p { r } else { r + 1 };
        assert(w[r] == entries[r2]);
        if r2 != q {
            assert(entries[r2].0 == entries[q].0);
        }
    } else if has_key(w, other) {
        let r = key_position(w, other);
        let r2 = if r < p { r } else { r + 1 };
        assert(w[r] == entries[r2]);
    }
}

#[verifier::external_type_specification]
#[verifier::external_body]
pub struct ExRegex(Regex);

#[verifier::external_type_specification]
#[verifier::external_body]
pub struct ExRegexError(RegexError);

/// Whether `regex::Regex::new` accepts a pattern. The regex crate decides it
/// from the pattern alone (its syntax and the default size limit).
pub uninterp spec fn regex_compiles(pattern: Seq<char>) -> bool;

/// The pattern text that `regex::Regex::as_str` gives back for a compiled
/// expression: the text it was compiled from.
pub uninterp spec fn regex_source(re: Regex) -> Seq<char>;

/// Calls `regex::Regex::new`, which succeeds exactly when `regex_compiles`
/// holds of the pattern and keeps the pattern text in the compiled value, as
/// `Regex::as_str` shows; nothing is stated of how the value matches.
#[verifier::external_body]
fn compile_regex(pattern: &str) -> (r: Result<Regex, RegexError>)
    ensures
        r is Ok <==> regex_compiles(pattern@),
        r matches Ok(re) ==> regex_source(re) == pattern@,
{
    Regex::new(pattern)
}

/// Calls `Arc::clone`, which hands out another pointer to the same value.
#[verifier::external_body]
fn share_regex(value: &Arc<Regex>) -> (r: Arc<Regex>)
    ensures
        r == *value,
{
    Arc::clone(value)
}

/// A compiled-pattern failure reported by the regex crate.
#[derive(Debug)]
pub struct RegexCompileError(pub RegexError);

/// A cache of compiled regular expressions keyed by their pattern.
#[derive(Debug)]
pub struct RegexCache {
    values: Vec<(String, Arc<Regex>)>,
}

/// True when each entry holds the expression compiled from its own key.
pub open spec fn compiled_from_keys(entries: Seq<(Seq<char>, Arc<Regex>)>) -> bool {
    forall|i: int| 0 <= i < entries.len() ==> regex_source(*entries[i].1) == entries[i].0
}

impl Default for RegexCache {
    fn default() -> (cache: Self)
        ensures
            cache.compiled() == Seq::<(Seq<char>, Arc<Regex>)>::empty(),
    {
        let cache = RegexCache { values: Vec::new() };
        assert(cache.compiled() =~= Seq::<(Seq<char>, Arc<Regex>)>::empty());
        cache
    }
}

impl RegexCache {
    /// The cached compiled expressions, keyed by the text of their pattern,
    /// in the order they were first compiled.
    pub closed spec fn compiled(&self) -> Seq<(Seq<char>, Arc<Regex>)> {
        self.values@.map_values(|e: (String, Arc<Regex>)| (e.0@, e.1))
    }

    /// Each pattern is cached once, with the expression compiled from it.
    #[verifier::type_invariant]
    pub closed spec fn well_formed(&self) -> bool {
        &&& keys_distinct(self.compiled())
        &&& compiled_from_keys(self.compiled())
    }

    /// Returns the compiled expression for `pattern`, compiling and caching it
    /// on first use; a pattern that fails to compile is reported and not cached.
    pub fn get(&mut self, pattern: &str) -> (r: Result<Arc<Regex>, RegexCompileError>)
        ensures
            keys_distinct(final(self).compiled()),
            compiled_from_keys(final(self).compiled()),
            has_key(old(self).compiled(), pattern@) ==> {
                &&& r is Ok
                &&& lookup(old(self).compiled(), pattern@) == Some(r->Ok_0)
                &&& final(self).compiled() == old(self).compiled()
            },
            !has_key(old(self).compiled(), pattern@) ==> {
                &&& (r is Ok <==> regex_compiles(pattern@))
                &&& r is Ok ==> final(self).compiled() == old(self).compiled().push((pattern@, r->Ok_0))
                &&& r is Err ==> final(self).compiled() == old(self).compiled()
            },
            r is Ok ==> lookup(final(self).compiled(), pattern@) == Some(r->Ok_0),
            r is Ok ==> regex_source(*r->Ok_0) == pattern@,
    {
        proof {
            use_type_invariant(&*self);
        }
        let ghost before = self.compiled();
        let key: String = pattern.to_owned();
        let mut i: usize = 0;
        while i < self.values.len()
            invariant
                i <= self.values@.len(),
                self.compiled() == before,
                key@ == pattern@,
                keys_distinct(before),
                compiled_from_keys(before),
                forall|j: int| 0 <= j < i ==> before[j].0 != pattern@,
            decreases self.values@.len() - i,
        {
            if self.values[i].0 == key {
                assert(before[i as int].0 == pattern@);
                assert(has_key(before, pattern@));
                let ghost p = key_position(before, pattern@);
                assert(before[p].0 == before[i as int].0);
                let found = share_regex(&self.values[i].1);
                assert(regex_source(*before[i as int].1) == pattern@);
                return Ok(found);
            }
            i = i + 1;
        }
        assert(!has_key(before, pattern@));
        match compile_regex(pattern) {
            Ok(regex) => {
                let compiled = Arc::new(regex);
                let shared = share_regex(&compiled);
                proof {
                    lemma_push_new_key(before, pattern@, shared);
                    let e = before.push((pattern@, shared));
                    assert forall|j: int| 0 <= j < e.len() implies regex_source(*e[j].1) == e[j].0 by {
                        if j < before.len() {
                            assert(e[j] == before[j]);
                        }
                    }
                }
                let mut values: Vec<(String, Arc<Regex>)> = Vec::new();
                std::mem::swap(&mut values, &mut self.values);
                values.push((key, compiled));
                assert(values@.map_values(|e: (String, Arc<Regex>)| (e.0@, e.1)) =~= before.push(
                    (pattern@, shared),
                ));
                std::mem::swap(&mut values, &mut self.values);
                Ok(shared)
            },
            Err(error) => Err(RegexCompileError(error)),
        }
    }
}

proof fn lemma_push_new_key<K, V>(entries: Seq<(K, V)>, key: K, value: V)
    requires
        keys_distinct(entries),
        !has_key(entries, key),
    ensures
        keys_distinct(entries.push((key, value))),
        lookup(entries.push((key, value)), key) == Some(value),
{
    let e = entries.push((key, value));
    assert forall|i: int, j: int| 0 <= i < e.len() && 0 <= j < e.len() && i != j implies e[i].0 != e[j].0 by {
        if i < entries.len() && j < entries.len() {
            assert(e[i] == entries[i]);
            assert(e[j] == entries[j]);
        } else if i < entries.len() {
            assert(e[i] == entries[i]);
        } else {
            assert(e[j] == entries[j]);
        }
    }
    assert(e[entries.len() as int].0 == key);
    assert(has_key(e, key));
    let p = key_position(e, key);
    if p != entries.len() {
        assert(e[p].0 == e[entries.len() as int].0);
    }
}

} // verus!
