//! A bounded key-value cache with expiry times, hit statistics and an
//! optional loader for missing keys.
//!
//! Times are milliseconds on a clock that only moves forward; an entry
//! expires once the clock reaches its expiry time.
use vstd::prelude::*;

use crate::clock::now_millis;

verus! {

pub const CACHE_FULL: &'static str = "Cache is full";

pub const NO_LOADER: &'static str = "No loader configured";

/// Counters kept by a cache; each saturates at its largest value.
#[derive(Clone, Copy, Debug, PartialEq, Eq, Structural)]
pub struct CacheStats {
    pub hits: u64,
    pub misses: u64,
    pub evictions: u64,
    pub entries_count: usize,
}

/// The position of `k` in `keys` (the last one, if several), or -1.
pub open spec fn slot_of(keys: Seq<Seq<char>>, k: Seq<char>) -> int
    decreases keys.len(),
{
    if keys.len() == 0 {
        -1
    } else if keys.last() == k {
        keys.len() - 1
    } else {
        slot_of(keys.drop_last(), k)
    }
}

pub open spec fn bump(x: u64) -> u64 {
    if x < u64::MAX {
        (x + 1) as u64
    } else {
        x
    }
}

fn bump_exec(x: u64) -> (r: u64)
    ensures
        r == bump(x),
{
    if x < u64::MAX {
        x + 1
    } else {
        x
    }
}

pub struct CacheManager<V, F> {
    stats: CacheStats,
    cache: Vec<(String, V, u64)>,
    default_ttl: u64,
    max_capacity: usize,
    loader: Option<F>,
}

impl<V: Clone, F: Fn(&String) -> Result<V, String>> CacheManager<V, F> {
    /// The keys held, in the order they were first stored.
    pub closed spec fn keys(&self) -> Seq<Seq<char>> {
        self.cache@.map_values(|e: (String, V, u64)| e.0@)
    }

    pub closed spec fn values(&self) -> Seq<V> {
        self.cache@.map_values(|e: (String, V, u64)| e.1)
    }

    pub closed spec fn expiries(&self) -> Seq<u64> {
        self.cache@.map_values(|e: (String, V, u64)| e.2)
    }

    pub closed spec fn stats_spec(&self) -> CacheStats {
        self.stats
    }

    pub closed spec fn capacity(&self) -> nat {
        self.max_capacity as nat
    }

    pub closed spec fn ttl(&self) -> u64 {
        self.default_ttl
    }

    pub closed spec fn loader_spec(&self) -> Option<F> {
        self.loader
    }

    pub open spec fn has(&self, k: Seq<char>) -> bool {
        self.keys().contains(k)
    }

    pub open spec fn value_of(&self, k: Seq<char>) -> V {
        self.values()[slot_of(self.keys(), k)]
    }

    pub open spec fn expiry_of(&self, k: Seq<char>) -> u64 {
        self.expiries()[slot_of(self.keys(), k)]
    }

    /// Keys are unique and the entry count matches the entries.
    pub closed spec fn wf(&self) -> bool {
        &&& self.keys().no_duplicates()
        &&& self.stats.entries_count == self.cache@.len()
    }

    /// The keys and the contents of every other key stay.
    pub open spec fn same_except(&self, other: &Self, k: Seq<char>) -> bool {
        forall|k2: Seq<char>|
            k2 != k ==> (self.has(k2) == other.has(k2) && (self.has(k2) ==> self.value_of(k2)
                == other.value_of(k2) && self.expiry_of(k2) == other.expiry_of(k2)))
    }

    fn empty_stats() -> (r: CacheStats)
        ensures
            r == (CacheStats { hits: 0, misses: 0, evictions: 0, entries_count: 0 }),
    {
        CacheStats { hits: 0, misses: 0, evictions: 0, entries_count: 0 }
    }

    /// An empty cache without a loader.
    pub fn new(default_ttl: u64, max_capacity: usize) -> (r: Self)
        ensures
            r.wf(),
            r.keys() == Seq::<Seq<char>>::empty(),
            r.capacity() == max_capacity,
            r.ttl() == default_ttl,
            r.loader_spec() is None,
            r.stats_spec() == (CacheStats { hits: 0, misses: 0, evictions: 0, entries_count: 0 }),
    {
        let r = CacheManager {
            stats: Self::empty_stats(),
            cache: Vec::new(),
            default_ttl,
            max_capacity,
            loader: None,
        };
        assert(r.keys() =~= Seq::<Seq<char>>::empty());
        r
    }

    /// An empty cache that asks `loader` for missing keys.
    pub fn with_loader(default_ttl: u64, max_capacity: usize, loader: F) -> (r: Self)
        ensures
            r.wf(),
            r.keys() == Seq::<Seq<char>>::empty(),
            r.capacity() == max_capacity,
            r.ttl() == default_ttl,
            r.loader_spec() == Some(loader),
            r.stats_spec() == (CacheStats { hits: 0, misses: 0, evictions: 0, entries_count: 0 }),
    {
        let r = CacheManager {
            stats: Self::empty_stats(),
            cache: Vec::new(),
            default_ttl,
            max_capacity,
            loader: Some(loader),
        };
        assert(r.keys() =~= Seq::<Seq<char>>::empty());
        r
    }

    fn index_of(&self, key: &String) -> (r: Option<usize>)
        requires
            self.wf(),
        ensures
            r matches Some(i) ==> i < self.keys().len() && slot_of(self.keys(), key@) == i,
            r is None ==> !self.has(key@) && slot_of(self.keys(), key@) == -1,
            self.has(key@) <==> r is Some,
    {
        let mut i = self.cache.len();
        assert(self.keys().subrange(0, i as int) =~= self.keys());
        while i > 0
            invariant
                i <= self.keys().len(),
                slot_of(self.keys(), key@) == slot_of(self.keys().subrange(0, i as int), key@),
                forall|j: int| i <= j < self.keys().len() ==> self.keys()[j] != key@,
            decreases i,
        {
            assert(self.keys().subrange(0, i as int).drop_last() =~= self.keys().subrange(
                0,
                i - 1,
            ));
            if self.cache[i - 1].0 == *key {
                proof {
                    lemma_slot_found(self.keys(), key@, (i - 1) as int);
                }
                return Some(i - 1);
            }
            i = i - 1;
        }
        assert(self.keys().subrange(0, 0) =~= Seq::<Seq<char>>::empty());
        None
    }

    /// Stores `value` under `key`, expiring `ttl` milliseconds from `now`
    /// (at the clock's end if that overflows).
    fn store(&mut self, key: String, value: V, ttl: u64, now: u64) -> (r: Result<(), String>)
        requires
            old(self).wf(),
        ensures
            final(self).wf(),
            final(self).capacity() == old(self).capacity(),
            final(self).ttl() == old(self).ttl(),
            final(self).loader_spec() == old(self).loader_spec(),
            final(self).stats_spec().hits == old(self).stats_spec().hits,
            final(self).stats_spec().misses == old(self).stats_spec().misses,
            final(self).stats_spec().evictions == old(self).stats_spec().evictions,
            r is Err <==> old(self).keys().len() >= old(self).capacity() && !old(self).has(key@),
            r matches Err(e) ==> e@ == CACHE_FULL@ && final(self).keys() == old(self).keys()
                && final(self).values() == old(self).values() && final(self).expiries() == old(
                self,
            ).expiries(),
            r is Ok ==> {
                &&& final(self).has(key@)
                &&& final(self).value_of(key@) == value
                &&& final(self).expiry_of(key@) == if now + ttl <= u64::MAX {
                    (now + ttl) as u64
                } else {
                    u64::MAX
                }
                &&& final(self).same_except(&*old(self), key@)
                &&& final(self).keys() == if old(self).has(key@) {
                    old(self).keys()
                } else {
                    old(self).keys().push(key@)
                }
            },
    {
        let found = self.index_of(&key);
        if self.cache.len() >= self.max_capacity && found.is_none() {
            return Err(CACHE_FULL.to_owned());
        }
        let expiration = if now <= u64::MAX - ttl {
            now + ttl
        } else {
            u64::MAX
        };
        let ghost pre = *self;
        let ghost k = key@;
        match found {
            Some(i) => {
                proof {
                    lemma_slot_found_any(pre.keys(), k);
                }
                self.cache.set(i, (key, value, expiration));
                proof {
                    assert(self.keys() =~= pre.keys());
                    assert(self.values() =~= pre.values().update(i as int, value));
                    assert(self.expiries() =~= pre.expiries().update(i as int, expiration));
                    assert forall|k2: Seq<char>| k2 != k && self.has(k2) implies slot_of(
                        self.keys(),
                        k2,
                    ) != i by {
                        lemma_slot_found_any(self.keys(), k2);
                    }
                    assert forall|k2: Seq<char>| k2 != k && self.has(k2) implies self.value_of(k2)
                        == pre.value_of(k2) && self.expiry_of(k2) == pre.expiry_of(k2) by {
                        lemma_slot_found_any(self.keys(), k2);
                        let j = slot_of(self.keys(), k2);
                        assert(j != i);
                        assert(self.values()[j] == pre.values()[j]);
                        assert(self.expiries()[j] == pre.expiries()[j]);
                    }
                }
            },
            None => {
                self.cache.push((key, value, expiration));
                self.stats.entries_count = self.stats.entries_count + 1;
                proof {
                    assert(self.keys() =~= pre.keys().push(k));
                    assert(self.keys()[pre.keys().len() as int] == k);
                    assert(self.values() =~= pre.values().push(value));
                    assert(self.expiries() =~= pre.expiries().push(expiration));
                    assert(self.keys().drop_last() =~= pre.keys());
                    assert(self.keys().no_duplicates()) by {
                        assert forall|a: int, b: int|
                            0 <= a < self.keys().len() && 0 <= b < self.keys().len() && a
                                != b implies self.keys()[a] != self.keys()[b] by {
                            if a == pre.keys().len() as int {
                                assert(pre.keys()[b] == self.keys()[b]);
                                assert(pre.keys().contains(pre.keys()[b]));
                            } else if b == pre.keys().len() as int {
                                assert(pre.keys()[a] == self.keys()[a]);
                                assert(pre.keys().contains(pre.keys()[a]));
                            } else {
                                assert(pre.keys()[a] == self.keys()[a]);
                                assert(pre.keys()[b] == self.keys()[b]);
                            }
                        }
                    }
                    assert forall|k2: Seq<char>| k2 != k implies self.has(k2) == pre.has(k2) && (
                    self.has(k2) ==> slot_of(self.keys(), k2) == slot_of(pre.keys(), k2)
                        && slot_of(pre.keys(), k2) < pre.keys().len()) by {
                        if self.has(k2) {
                            let j = choose|j: int| 0 <= j < self.keys().len() && self.keys()[j] == k2;
                            assert(j < pre.keys().len());
                            assert(pre.keys()[j] == k2);
                            lemma_slot_found_any(pre.keys(), k2);
                        }
                        if pre.has(k2) {
                            let j = choose|j: int| 0 <= j < pre.keys().len() && pre.keys()[j] == k2;
                            assert(self.keys()[j] == k2);
                        }
                    }
                    assert forall|k2: Seq<char>| k2 != k && self.has(k2) implies self.value_of(k2)
                        == pre.value_of(k2) && self.expiry_of(k2) == pre.expiry_of(k2) by {
                        assert(pre.has(k2));
                        lemma_slot_found_any(pre.keys(), k2);
                        let j = slot_of(pre.keys(), k2);
                        assert(slot_of(self.keys(), k2) == j);
                        assert(self.values()[j] == pre.values()[j]);
                        assert(self.expiries()[j] == pre.expiries()[j]);
                    }
                }
            },
        }
        Ok(())
    }

    /// Stores `value` under `key` for the default time to live. When the
    /// cache is full and `key` is new, nothing is stored, the eviction counter
    /// goes up and `Cache is full` is returned.
    pub fn put(&mut self, key: String, value: V) -> (r: Result<(), String>)
        requires
            old(self).wf(),
        ensures
            final(self).wf(),
            final(self).capacity() == old(self).capacity(),
            final(self).loader_spec() == old(self).loader_spec(),
            r is Err <==> old(self).keys().len() >= old(self).capacity() && !old(self).has(key@),
            r matches Err(e) ==> e@ == CACHE_FULL@ && final(self).keys() == old(self).keys()
                && final(self).values() == old(self).values()
                && final(self).stats_spec().evictions == bump(old(self).stats_spec().evictions),
            r is Ok ==> final(self).has(key@) && final(self).value_of(key@) == value
                && final(self).same_except(&*old(self), key@) && final(self).stats_spec().evictions
                == old(self).stats_spec().evictions,
            r is Ok ==> final(self).keys() == if old(self).has(key@) {
                old(self).keys()
            } else {
                old(self).keys().push(key@)
            },
            final(self).stats_spec().hits == old(self).stats_spec().hits,
            final(self).stats_spec().misses == old(self).stats_spec().misses,
    {
        let now = now_millis();
        let ttl = self.default_ttl;
        let r = self.store(key, value, ttl, now);
        if r.is_err() {
            self.stats.evictions = bump_exec(self.stats.evictions);
        }
        r
    }

    /// Stores `value` under `key` for `ttl` milliseconds; fails as `put`
    /// does, without counting an eviction.
    pub fn put_with_ttl(&mut self, key: String, value: V, ttl: u64) -> (r: Result<(), String>)
        requires
            old(self).wf(),
        ensures
            final(self).wf(),
            final(self).capacity() == old(self).capacity(),
            final(self).loader_spec() == old(self).loader_spec(),
            r is Err <==> old(self).keys().len() >= old(self).capacity() && !old(self).has(key@),
            r matches Err(e) ==> e@ == CACHE_FULL@ && final(self).keys() == old(self).keys()
                && final(self).values() == old(self).values(),
            r is Ok ==> final(self).has(key@) && final(self).value_of(key@) == value
                && final(self).same_except(&*old(self), key@),
            r is Ok ==> final(self).keys() == if old(self).has(key@) {
                old(self).keys()
            } else {
                old(self).keys().push(key@)
            },
            final(self).stats_spec().hits == old(self).stats_spec().hits,
            final(self).stats_spec().misses == old(self).stats_spec().misses,
            final(self).stats_spec().evictions == old(self).stats_spec().evictions,
    {
        let now = now_millis();
        self.store(key, value, ttl, now)
    }

    /// The cached value of `key` (a hit), or else what the loader returns (a
    /// miss); without a loader a miss is the error `No loader configured`.
    /// Loaded values are not stored.
    pub fn get(&mut self, key: &String) -> (r: Result<Option<V>, String>)
        requires
            old(self).wf(),
            old(self).loader_spec() matches Some(f) ==> f.requires((key,)),
        ensures
            final(self).wf(),
            final(self).keys() == old(self).keys(),
            final(self).values() == old(self).values(),
            final(self).expiries() == old(self).expiries(),
            final(self).capacity() == old(self).capacity(),
            final(self).loader_spec() == old(self).loader_spec(),
            old(self).has(key@) ==> (r matches Ok(Some(v)) && cloned(old(self).value_of(key@), v)),
            old(self).has(key@) ==> final(self).stats_spec() == (CacheStats {
                hits: bump(old(self).stats_spec().hits),
                ..old(self).stats_spec()
            }),
            !old(self).has(key@) ==> final(self).stats_spec() == (CacheStats {
                misses: bump(old(self).stats_spec().misses),
                ..old(self).stats_spec()
            }),
            !old(self).has(key@) && old(self).loader_spec() is None ==> (r matches Err(e) && e@
                == NO_LOADER@),
            !old(self).has(key@) && old(self).loader_spec() is Some ==> (exists|
                res: Result<V, String>,
            |
                old(self).loader_spec()->0.ensures((key,), res) && r == match res {
                    Ok(v) => Ok::<Option<V>, String>(Some(v)),
                    Err(e) => Err::<Option<V>, String>(e),
                }),
    {
        match self.index_of(key) {
            Some(i) => {
                let v = self.cache[i].1.clone();
                self.stats.hits = bump_exec(self.stats.hits);
                Ok(Some(v))
            },
            None => {
                self.stats.misses = bump_exec(self.stats.misses);
                match &self.loader {
                    None => Err(NO_LOADER.to_owned()),
                    Some(f) => {
                        let res = f(key);
                        match res {
                            Ok(v) => Ok(Some(v)),
                            Err(e) => Err(e),
                        }
                    },
                }
            },
        }
    }

    /// The cached value of `key`, counting a hit; `None` without touching the
    /// loader or the counters.
    pub fn get_cached_only(&mut self, key: &String) -> (r: Option<V>)
        requires
            old(self).wf(),
        ensures
            final(self).wf(),
            final(self).keys() == old(self).keys(),
            final(self).values() == old(self).values(),
            final(self).expiries() == old(self).expiries(),
            final(self).capacity() == old(self).capacity(),
            final(self).loader_spec() == old(self).loader_spec(),
            r is Some <==> old(self).has(key@),
            r matches Some(v) ==> cloned(old(self).value_of(key@), v) && final(self).stats_spec()
                == (CacheStats { hits: bump(old(self).stats_spec().hits), ..old(self).stats_spec() }),
            r is None ==> final(self).stats_spec() == old(self).stats_spec(),
    {
        match self.index_of(key) {
            Some(i) => {
                let v = self.cache[i].1.clone();
                self.stats.hits = bump_exec(self.stats.hits);
                Some(v)
            },
            None => None,
        }
    }

    /// Removes `key`; says whether it was there.
    pub fn remove(&mut self, key: &String) -> (r: bool)
        requires
            old(self).wf(),
        ensures
            final(self).wf(),
            r == old(self).has(key@),
            !final(self).has(key@),
            final(self).same_except(&*old(self), key@),
            final(self).capacity() == old(self).capacity(),
            final(self).loader_spec() == old(self).loader_spec(),
            final(self).stats_spec().hits == old(self).stats_spec().hits,
            final(self).stats_spec().misses == old(self).stats_spec().misses,
            final(self).stats_spec().evictions == old(self).stats_spec().evictions,
            r ==> final(self).keys() == old(self).keys().remove(slot_of(old(self).keys(), key@)),
            r ==> final(self).values() == old(self).values().remove(slot_of(old(self).keys(), key@)),
            r ==> final(self).expiries() == old(self).expiries().remove(
                slot_of(old(self).keys(), key@),
            ),
            !r ==> final(self).keys() == old(self).keys() && final(self).values() == old(
                self,
            ).values() && final(self).expiries() == old(self).expiries(),
            final(self).stats_spec().entries_count == final(self).keys().len(),
            final(self).stats_spec().entries_count == old(self).stats_spec().entries_count - if r {
                1int
            } else {
                0
            },
    {
        match self.index_of(key) {
            Some(i) => {
                let ghost pre = *self;
                let _entry = self.cache.remove(i);
                self.stats.entries_count = self.stats.entries_count - 1;
                proof {
                    let ks = pre.keys();
                    let k = key@;
                    assert(self.keys() =~= ks.remove(i as int));
                    assert(self.values() =~= pre.values().remove(i as int));
                    assert(self.expiries() =~= pre.expiries().remove(i as int));
                    assert(ks[i as int] == k) by {
                        lemma_slot_found_any(ks, k);
                    }
                    assert forall|x: int, y: int|
                        0 <= x < y < self.keys().len() implies self.keys()[x] != self.keys()[y] by {
                        let x1 = if x < i { x } else { x + 1 };
                        let y1 = if y < i { y } else { y + 1 };
                        assert(self.keys()[x] == ks[x1] && self.keys()[y] == ks[y1]);
                    }
                    assert(!self.has(k)) by {
                        if self.has(k) {
                            let a = choose|a: int| 0 <= a < self.keys().len() && self.keys()[a] == k;
                            let a1 = if a < i { a } else { a + 1 };
                            assert(ks[a1] == k);
                        }
                    }
                    assert forall|k2: Seq<char>| k2 != k implies (self.has(k2) == pre.has(k2) && (
                    self.has(k2) ==> self.value_of(k2) == pre.value_of(k2) && self.expiry_of(k2)
                        == pre.expiry_of(k2))) by {
                        if pre.has(k2) {
                            lemma_slot_found_any(ks, k2);
                            let j = slot_of(ks, k2);
                            assert(j != i);
                            let j2 = if j < i { j } else { j - 1 };
                            assert(self.keys()[j2] == k2);
                            lemma_unique_slot(self.keys(), j2);
                        }
                        if self.has(k2) {
                            let a = choose|a: int| 0 <= a < self.keys().len() && self.keys()[a] == k2;
                            let a1 = if a < i { a } else { a + 1 };
                            assert(ks[a1] == k2);
                        }
                    }
                }
                true
            },
            None => false,
        }
    }

    /// Removes every entry whose expiry time is at most `now`; returns how
    /// many were removed. The order of the others stays.
    pub fn cleanup_expired_at(&mut self, now: u64) -> (r: usize)
        requires
            old(self).wf(),
        ensures
            final(self).wf(),
            final(self).capacity() == old(self).capacity(),
            final(self).loader_spec() == old(self).loader_spec(),
            final(self).stats_spec().hits == old(self).stats_spec().hits,
            final(self).stats_spec().misses == old(self).stats_spec().misses,
            final(self).stats_spec().evictions == old(self).stats_spec().evictions,
            r == old(self).keys().len() - final(self).keys().len(),
            forall|k: Seq<char>|
                #[trigger] final(self).has(k) <==> old(self).has(k) && old(self).expiry_of(k)
                    > now,
            forall|k: Seq<char>|
                final(self).has(k) ==> final(self).value_of(k) == old(self).value_of(k)
                    && final(self).expiry_of(k) == old(self).expiry_of(k),
    {
        let ghost pre = *self;
        let total = self.cache.len();
        let mut rest: Vec<(String, V, u64)> = Vec::new();
        std::mem::swap(&mut self.cache, &mut rest);
        let ghost all = pre.cache@;
        let ghost keys0 = pre.keys();
        proof {
            assert(self.keys() =~= Seq::<Seq<char>>::empty());
        }
        while rest.len() > 0
            invariant
                pre.wf(),
                keys0 == pre.keys(),
                all == pre.cache@,
                keys0.len() == all.len(),
                pre.values().len() == all.len(),
                pre.expiries().len() == all.len(),
                rest@.len() <= all.len(),
                rest@ == all.subrange(all.len() - rest@.len(), all.len() as int),
                self.stats == pre.stats,
                self.default_ttl == pre.default_ttl,
                self.max_capacity == pre.max_capacity,
                self.loader == pre.loader,
                self.keys().no_duplicates(),
                self.keys().len() <= all.len() - rest@.len(),
                forall|a: int|
                    0 <= a < self.keys().len() ==> exists|j: int|
                        0 <= j < all.len() - rest@.len() && keys0[j] == #[trigger] self.keys()[a],
                forall|k: Seq<char>|
                    #[trigger] self.has(k) <==> exists|j: int|
                        0 <= j < all.len() - rest@.len() && keys0[j] == k && pre.expiries()[j]
                            > now,
                forall|k: Seq<char>|
                    self.has(k) ==> self.value_of(k) == pre.value_of(k) && self.expiry_of(k)
                        == pre.expiry_of(k),
            decreases rest@.len(),
        {
            let ghost i = all.len() - rest@.len();
            let ghost before = *self;
            let entry = rest.remove(0);
            assert(entry == all[i]);
            assert(keys0[i] == entry.0@ && pre.values()[i] == entry.1 && pre.expiries()[i]
                == entry.2);
            assert(rest@ =~= all.subrange(all.len() - rest@.len(), all.len() as int));
            proof {
                lemma_unique_slot(keys0, i);
            }
            if entry.2 > now {
                self.cache.push(entry);
                proof {
                    let k = keys0[i];
                    assert(self.keys() =~= before.keys().push(k));
                    assert(self.values() =~= before.values().push(pre.values()[i]));
                    assert(self.expiries() =~= before.expiries().push(pre.expiries()[i]));
                    assert(!before.has(k)) by {
                        if before.has(k) {
                            let a = choose|a: int| 0 <= a < before.keys().len() && before.keys()[a] == k;
                            let j = choose|j: int| 0 <= j < i && keys0[j] == before.keys()[a];
                        }
                    }
                    assert forall|x: int, y: int|
                        0 <= x < y < self.keys().len() implies self.keys()[x] != self.keys()[y] by {
                        if y == before.keys().len() {
                            assert(before.keys()[x] == self.keys()[x]);
                            assert(before.keys().contains(before.keys()[x]));
                        } else {
                            assert(before.keys()[x] != before.keys()[y]);
                        }
                    }
                    assert forall|a: int| 0 <= a < self.keys().len() implies exists|j: int|
                        0 <= j < i + 1 && keys0[j] == #[trigger] self.keys()[a] by {
                        if a < before.keys().len() {
                            let j = choose|j: int| 0 <= j < i && keys0[j] == before.keys()[a];
                            assert(keys0[j] == self.keys()[a]);
                        } else {
                            assert(keys0[i] == self.keys()[a]);
                        }
                    }
                    assert forall|q: Seq<char>| #[trigger] self.has(q) <==> exists|j: int|
                        0 <= j < i + 1 && keys0[j] == q && pre.expiries()[j] > now by {
                        lemma_slot_push(before.keys(), k, q);
                        if q == k {
                            assert(self.keys()[before.keys().len() as int] == q);
                        } else {
                            if self.has(q) {
                                let a = choose|a: int| 0 <= a < self.keys().len() && self.keys()[a] == q;
                                assert(before.keys()[a] == q);
                            }
                            if before.has(q) {
                                let a = choose|a: int| 0 <= a < before.keys().len() && before.keys()[a] == q;
                                assert(self.keys()[a] == q);
                            }
                        }
                    }
                    assert forall|q: Seq<char>| self.has(q) implies self.value_of(q) == pre.value_of(q)
                        && self.expiry_of(q) == pre.expiry_of(q) by {
                        lemma_slot_push(before.keys(), k, q);
                        if q != k {
                            assert(before.has(q)) by {
                                let a = choose|a: int| 0 <= a < self.keys().len() && self.keys()[a] == q;
                                assert(before.keys()[a] == q);
                            }
                            lemma_slot_found_any(before.keys(), q);
                        }
                    }
                }
            } else {
                proof {
                    assert forall|q: Seq<char>| #[trigger] self.has(q) <==> exists|j: int|
                        0 <= j < i + 1 && keys0[j] == q && pre.expiries()[j] > now by {
                        if exists|j: int| 0 <= j < i + 1 && keys0[j] == q && pre.expiries()[j] > now {
                            let j = choose|j: int| 0 <= j < i + 1 && keys0[j] == q && pre.expiries()[j] > now;
                            assert(j != i);
                        }
                    }
                    assert forall|a: int| 0 <= a < self.keys().len() implies exists|j: int|
                        0 <= j < i + 1 && keys0[j] == #[trigger] self.keys()[a] by {
                        let j = choose|j: int| 0 <= j < i && keys0[j] == self.keys()[a];
                    }
                }
            }
        }
        let removed = total - self.cache.len();
        let ghost fin = *self;
        self.stats.entries_count = self.cache.len();
        proof {
            assert(self.keys() == fin.keys() && self.values() == fin.values() && self.expiries()
                == fin.expiries());
            assert forall|k: Seq<char>| #[trigger] self.has(k) <==> pre.has(k) && pre.expiry_of(k)
                > now by {
                lemma_slot_found_any(keys0, k);
                assert(rest@.len() == 0);
                if fin.has(k) {
                    let j = choose|j: int|
                        0 <= j < all.len() - rest@.len() && keys0[j] == k && pre.expiries()[j] > now;
                    lemma_unique_slot(keys0, j);
                    assert(keys0.contains(k));
                }
                if pre.has(k) && pre.expiry_of(k) > now {
                    let j = slot_of(keys0, k);
                    assert(keys0[j] == k);
                    assert(0 <= j < all.len() - rest@.len() && keys0[j] == k && pre.expiries()[j]
                        > now);
                }
            }
        }
        removed
    }

    /// Removes every entry that has expired by now; returns how many.
    pub fn cleanup_expired(&mut self) -> (r: usize)
        requires
            old(self).wf(),
        ensures
            final(self).wf(),
            final(self).capacity() == old(self).capacity(),
            final(self).loader_spec() == old(self).loader_spec(),
            r == old(self).keys().len() - final(self).keys().len(),
            forall|k: Seq<char>| #[trigger] final(self).has(k) ==> old(self).has(k),
            forall|k: Seq<char>|
                final(self).has(k) ==> final(self).value_of(k) == old(self).value_of(k),
    {
        let now = now_millis();
        self.cleanup_expired_at(now)
    }

    /// Drops every entry; the counters other than the entry count stay.
    pub fn clear(&mut self)
        requires
            old(self).wf(),
        ensures
            final(self).wf(),
            final(self).keys() == Seq::<Seq<char>>::empty(),
            final(self).capacity() == old(self).capacity(),
            final(self).loader_spec() == old(self).loader_spec(),
            final(self).stats_spec() == (CacheStats { entries_count: 0, ..old(self).stats_spec() }),
    {
        self.cache.clear();
        self.stats.entries_count = 0;
        assert(self.keys() =~= Seq::<Seq<char>>::empty());
    }

    /// The current counters.
    pub fn get_stats(&self) -> (r: CacheStats)
        requires
            self.wf(),
        ensures
            r == self.stats_spec(),
            r.entries_count == self.keys().len(),
    {
        self.stats
    }

    /// Whether the cache holds as many entries as its capacity.
    pub fn is_full(&self) -> (r: bool)
        requires
            self.wf(),
        ensures
            r == (self.keys().len() >= self.capacity()),
    {
        self.cache.len() >= self.max_capacity
    }
}

proof fn lemma_slot_push(keys: Seq<Seq<char>>, x: Seq<char>, k: Seq<char>)
    ensures
        slot_of(keys.push(x), k) == if k == x {
            keys.len() as int
        } else {
            slot_of(keys, k)
        },
{
    assert(keys.push(x).drop_last() =~= keys);
}

/// In a sequence without repeats, each position is the slot of its key.
proof fn lemma_unique_slot(keys: Seq<Seq<char>>, i: int)
    requires
        keys.no_duplicates(),
        0 <= i < keys.len(),
    ensures
        slot_of(keys, keys[i]) == i,
{
    lemma_slot_found(keys, keys[i], i);
}

proof fn lemma_slot_found(keys: Seq<Seq<char>>, k: Seq<char>, i: int)
    requires
        0 <= i < keys.len(),
        keys[i] == k,
        forall|j: int| i < j < keys.len() ==> keys[j] != k,
    ensures
        slot_of(keys, k) == i,
    decreases keys.len(),
{
    if i < keys.len() - 1 {
        lemma_slot_found(keys.drop_last(), k, i);
    }
}

/// A key that is held has a slot, and the slot holds it.
proof fn lemma_slot_found_any(keys: Seq<Seq<char>>, k: Seq<char>)
    ensures
        keys.contains(k) ==> 0 <= slot_of(keys, k) < keys.len() && keys[slot_of(keys, k)] == k,
        !keys.contains(k) ==> slot_of(keys, k) == -1,
    decreases keys.len(),
{
    if keys.len() > 0 {
        lemma_slot_found_any(keys.drop_last(), k);
        if keys.last() != k {
            if keys.contains(k) {
                let j = choose|j: int| 0 <= j < keys.len() && keys[j] == k;
                assert(keys.drop_last()[j] == k);
            }
            if keys.drop_last().contains(k) {
                let j = choose|j: int| 0 <= j < keys.len() - 1 && keys.drop_last()[j] == k;
                assert(keys[j] == k);
            }
        }
    }
}

} // verus!
