//! A simple TTL-based answer cache for forwarded (recursive) queries.

use crate::text::{
    after, before, decimal, decimal_text, is_digit, lemma_first_of_is, lowercase, to_lowercase,
};
use crate::time::{Clock, NANOS_PER_SEC};
use vstd::hash_map::StringHashMap;
use vstd::pervasive::cloned;
use vstd::prelude::*;

verus! {

/// What is cached for a name and type, since when and for how long.
pub struct Entry<T> {
    pub records: Vec<T>,
    pub inserted_at: u64,
    pub ttl_secs: u32,
}

impl<T> Entry<T> {
    /// The time at which the entry stops being valid.
    pub open spec fn expires_at(&self) -> int {
        self.inserted_at + self.ttl_secs * NANOS_PER_SEC
    }
}

/// The text under which a name and type are cached: the type in decimal, a colon,
/// and the name in lower case.
pub open spec fn cache_key(name: Seq<char>, qtype: u16) -> Seq<char> {
    decimal(qtype as nat).push(':') + lowercase(name)
}

/// Names and types are cached apart unless they are the same, whatever the case.
pub proof fn law_cache_keys(a: Seq<char>, s: u16, b: Seq<char>, t: u16)
    ensures
        cache_key(a, s) == cache_key(b, t) <==> lowercase(a) == lowercase(b) && s == t,
{
    lemma_key_parts(a, s);
    lemma_key_parts(b, t);
    crate::text::lemma_decimal_round_trip(s as nat, u16::MAX as nat);
    crate::text::lemma_decimal_round_trip(t as nat, u16::MAX as nat);
}

proof fn lemma_key_parts(name: Seq<char>, qtype: u16)
    ensures
        before(cache_key(name, qtype), ':') == decimal(qtype as nat),
        after(cache_key(name, qtype), ':') == lowercase(name),
{
    let d = decimal(qtype as nat);
    let k = cache_key(name, qtype);
    crate::text::lemma_decimal_digits(qtype as nat);
    assert forall|j: int| 0 <= j < d.len() implies k[j] != ':' by {
        assert(is_digit(d[j]));
    }
    lemma_first_of_is(k, ':', d.len() as int);
    assert(before(k, ':') =~= d);
    assert(after(k, ':') =~= lowercase(name));
}

fn make_key(name: &str, qtype: u16) -> (r: String)
    ensures
        r@ == cache_key(name@, qtype),
{
    let mut key = decimal_text(qtype as u64);
    key.push(':');
    key.append(to_lowercase(name).as_str());
    key
}

/// A bounded, TTL-aware cache mapping `(name, type)` to answers.
///
/// Entries expire after the time they were inserted with.
#[verifier::reject_recursive_types(T)]
pub struct Cache<T> {
    map: StringHashMap<Entry<T>>,
    capacity: usize,
    clock: Clock,
}

impl<T> View for Cache<T> {
    type V = Map<Seq<char>, Entry<T>>;

    /// What is cached, expired or not, by [`cache_key`].
    closed spec fn view(&self) -> Map<Seq<char>, Entry<T>> {
        self.map@
    }
}

/// Whether an entry is there and still valid at the given time.
pub open spec fn fresh<T>(cache: Map<Seq<char>, Entry<T>>, key: Seq<char>, now: u64) -> bool {
    cache.contains_key(key) && cache[key].expires_at() > now
}

/// What looking up a key at the given time leaves of the cache: an entry found
/// expired is dropped.
pub open spec fn after_get<T>(
    cache: Map<Seq<char>, Entry<T>>,
    key: Seq<char>,
    now: u64,
) -> Map<Seq<char>, Entry<T>> {
    if fresh(cache, key, now) {
        cache
    } else {
        cache.remove(key)
    }
}

/// What inserting an entry makes of the cache. Nothing is inserted without
/// records, with a time of 0, or where the cache may hold nothing. Where the cache is
/// full and the key is new, all other entries go.
pub open spec fn after_insert<T>(
    cache: Map<Seq<char>, Entry<T>>,
    capacity: usize,
    key: Seq<char>,
    entry: Entry<T>,
) -> Map<Seq<char>, Entry<T>> {
    if entry.records@.len() == 0 || entry.ttl_secs == 0 || capacity == 0 {
        cache
    } else if cache.dom().len() >= capacity && !cache.contains_key(key) {
        Map::empty().insert(key, entry)
    } else {
        cache.insert(key, entry)
    }
}

impl<T: Clone> Cache<T> {
    /// How many entries the cache holds before it is cleared.
    pub closed spec fn capacity_spec(&self) -> usize {
        self.capacity
    }

    /// Creates a cache holding up to `capacity` entries.
    pub fn new(capacity: usize) -> (r: Self)
        ensures
            r@ == Map::<Seq<char>, Entry<T>>::empty(),
            r.capacity_spec() == capacity,
    {
        Cache { map: StringHashMap::new(), capacity, clock: Clock::start() }
    }

    /// The time of the cache's clock, in nanoseconds.
    pub fn now(&self) -> u64 {
        self.clock.now()
    }

    /// Returns cached records for `(name, qtype)` if present and not expired.
    pub fn get(&mut self, name: &str, qtype: u16) -> (r: Option<Vec<T>>)
        ensures
            final(self).capacity_spec() == old(self).capacity_spec(),
            exists|now: u64|
                final(self)@ == #[trigger] after_get(old(self)@, cache_key(name@, qtype), now)
                    && (r is Some <==> fresh(old(self)@, cache_key(name@, qtype), now)),
            r matches Some(v) ==> hit(old(self)@, cache_key(name@, qtype), v@),
    {
        let now: u64 = self.clock.now();
        self.get_at(name, qtype, now)
    }

    /// Returns cached records for `(name, qtype)` if they are there and have not
    /// expired at the time `now`, in nanoseconds of the cache's clock.
    pub fn get_at(&mut self, name: &str, qtype: u16, now: u64) -> (r: Option<Vec<T>>)
        ensures
            final(self).capacity_spec() == old(self).capacity_spec(),
            final(self)@ == after_get(old(self)@, cache_key(name@, qtype), now),
            match r {
                Some(v) => fresh(old(self)@, cache_key(name@, qtype), now) && hit(
                    old(self)@,
                    cache_key(name@, qtype),
                    v@,
                ),
                None => !fresh(old(self)@, cache_key(name@, qtype), now),
            },
    {
        let key = make_key(name, qtype);
        if let Some(entry) = self.map.get(key.as_str()) {
            let expires: u128 = entry.inserted_at as u128 + entry.ttl_secs as u128
                * NANOS_PER_SEC as u128;
            if expires > now as u128 {
                return Some(entry.records.clone());
            }
        }
        self.map.remove(key.as_str());
        None
    }

    /// Inserts records for `(name, qtype)`, expiring after `ttl_secs` seconds.
    ///
    /// A `ttl_secs` of zero (or empty records) is not cached, and neither is
    /// anything in a cache of capacity zero.
    pub fn insert(&mut self, name: &str, qtype: u16, records: Vec<T>, ttl_secs: u32)
        ensures
            final(self).capacity_spec() == old(self).capacity_spec(),
            exists|now: u64|
                final(self)@ == #[trigger] after_insert(
                    old(self)@,
                    old(self).capacity_spec(),
                    cache_key(name@, qtype),
                    Entry { records, inserted_at: now, ttl_secs },
                ),
    {
        let now: u64 = self.clock.now();
        self.insert_at(name, qtype, records, ttl_secs, now);
    }

    /// Inserts records for `(name, qtype)` at the time `now`, in nanoseconds of
    /// the cache's clock.
    pub fn insert_at(
        &mut self,
        name: &str,
        qtype: u16,
        records: Vec<T>,
        ttl_secs: u32,
        now: u64,
    )
        ensures
            final(self).capacity_spec() == old(self).capacity_spec(),
            final(self)@ == after_insert(
                old(self)@,
                old(self).capacity_spec(),
                cache_key(name@, qtype),
                (Entry { records, inserted_at: now, ttl_secs }),
            ),
    {
        if records.len() == 0 || ttl_secs == 0 || self.capacity == 0 {
            return;
        }
        broadcast use vstd::hash_map::axiom_string_hash_map_spec_len;

        let key = make_key(name, qtype);
        // Naive capacity bound: clear when full. Adequate for a small cache.
        if self.map.len() >= self.capacity && !self.map.contains_key(key.as_str()) {
            self.map.clear();
        }
        self.map.insert(key, Entry { records, inserted_at: now, ttl_secs });
    }
}

/// Whether records are a copy of those cached under a key.
pub open spec fn hit<T: Clone>(
    cache: Map<Seq<char>, Entry<T>>,
    key: Seq<char>,
    records: Seq<T>,
) -> bool {
    &&& cache.contains_key(key)
    &&& records.len() == cache[key].records@.len()
    &&& forall|i: int|
        0 <= i < records.len() ==> cloned::<T>(cache[key].records@[i], #[trigger] records[i])
}

/// What was cached is found under the same name and type until its time is up,
/// and not after.
pub proof fn law_get_after_insert<T>(
    cache: Map<Seq<char>, Entry<T>>,
    capacity: usize,
    key: Seq<char>,
    entry: Entry<T>,
    now: u64,
)
    requires
        entry.records@.len() > 0,
        entry.ttl_secs > 0,
        capacity > 0,
    ensures
        after_insert(cache, capacity, key, entry)[key] == entry,
        fresh(after_insert(cache, capacity, key, entry), key, now) <==> now < entry.inserted_at
            + entry.ttl_secs * NANOS_PER_SEC,
{
}

/// The cache never holds more entries than its capacity: it begins with none, and
/// neither looking up nor inserting takes it beyond. Inserting under a key that is
/// there already drops no other.
pub proof fn law_capacity<T>(
    cache: Map<Seq<char>, Entry<T>>,
    capacity: usize,
    key: Seq<char>,
    entry: Entry<T>,
    now: u64,
)
    requires
        cache.dom().finite(),
        cache.dom().len() <= capacity,
    ensures
        after_insert(cache, capacity, key, entry).dom().finite(),
        after_insert(cache, capacity, key, entry).dom().len() <= capacity,
        cache.contains_key(key) ==> after_insert(cache, capacity, key, entry).dom()
            == cache.dom(),
        after_get(cache, key, now).dom().finite(),
        after_get(cache, key, now).dom().len() <= capacity,
        Map::<Seq<char>, Entry<T>>::empty().dom().len() == 0,
{
    assert(cache.remove(key).dom() =~= cache.dom().remove(key));
    assert(Map::<Seq<char>, Entry<T>>::empty().dom() =~= Set::empty());
    let next = after_insert(cache, capacity, key, entry);
    if entry.records@.len() == 0 || entry.ttl_secs == 0 || capacity == 0 {
    } else if cache.dom().len() >= capacity && !cache.contains_key(key) {
        assert(next.dom() =~= Set::empty().insert(key));
    } else if cache.contains_key(key) {
        assert(next.dom() =~= cache.dom());
    } else {
        assert(next.dom() =~= cache.dom().insert(key));
    }
}

/// A lookup touches one entry alone: it leaves those of all other keys, leaves its own
/// where it is still valid, and drops it where it has expired.
pub proof fn law_get_spares<T>(
    cache: Map<Seq<char>, Entry<T>>,
    key: Seq<char>,
    other: Seq<char>,
    now: u64,
)
    ensures
        other != key ==> after_get(cache, key, now).contains_key(other) == cache.contains_key(
            other,
        ) && after_get(cache, key, now)[other] == cache[other],
        cache.contains_key(key) && now < cache[key].inserted_at + cache[key].ttl_secs
            * NANOS_PER_SEC ==> after_get(cache, key, now) == cache && fresh(cache, key, now),
        !(cache.contains_key(key) && now < cache[key].inserted_at + cache[key].ttl_secs
            * NANOS_PER_SEC) ==> !after_get(cache, key, now).contains_key(key) && !fresh(
            cache,
            key,
            now,
        ),
{
}

/// While there is room, caching one answer leaves the others as they are. A full cache is
/// emptied for a new key, and nothing is cached that holds no octets or is not to be kept.
pub proof fn law_insert_spares<T>(
    cache: Map<Seq<char>, Entry<T>>,
    capacity: usize,
    key: Seq<char>,
    entry: Entry<T>,
    other: Seq<char>,
)
    ensures
        entry.records@.len() == 0 || entry.ttl_secs == 0 || capacity == 0 ==> after_insert(
            cache,
            capacity,
            key,
            entry,
        ) == cache,
        other != key && (cache.dom().len() < capacity || cache.contains_key(key)) ==> after_insert(
            cache,
            capacity,
            key,
            entry,
        ).contains_key(other) == cache.contains_key(other) && after_insert(
            cache,
            capacity,
            key,
            entry,
        )[other] == cache[other],
        entry.records@.len() > 0 && entry.ttl_secs > 0 && capacity > 0 && cache.dom().len()
            >= capacity && !cache.contains_key(key) && other != key ==> !after_insert(
            cache,
            capacity,
            key,
            entry,
        ).contains_key(other),
{
}

} // verus!
