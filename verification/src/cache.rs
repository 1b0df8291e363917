//! Byte-bounded LRU response cache with single-flight deduplication.

use vstd::prelude::*;
use crate::router::{spec_classify, MethodClass};
use crate::strutil::str_eq;

verus! {

/// Canonical key of a request: two requests share a fingerprint exactly
/// when they must produce the same answer against the same chain state.
/// Block tags are resolved to a concrete hash before fingerprinting; an
/// unresolvable tag leaves `block` empty and the request uncacheable.
pub struct Fingerprint {
    pub method: String,
    pub params: String,
    pub block: Option<u64>,
}

impl Fingerprint {
    /// Mathematical key: what equality of fingerprints means.
    pub open spec fn key(self) -> (Seq<char>, Seq<char>, Option<u64>) {
        (self.method@, self.params@, self.block)
    }

    pub fn eq_key(&self, other: &Fingerprint) -> (r: bool)
        ensures
            r == (self.key() == other.key()),
    {
        let m = str_eq(self.method.as_str(), other.method.as_str());
        let p = str_eq(self.params.as_str(), other.params.as_str());
        let b = match (&self.block, &other.block) {
            (Option::Some(x), Option::Some(y)) => *x == *y,
            (Option::None, Option::None) => true,
            _ => false,
        };
        m && p && b
    }

    pub fn clone_fp(&self) -> (r: Fingerprint)
        ensures
            r.key() == self.key(),
    {
        Fingerprint {
            method: self.method.clone(),
            params: self.params.clone(),
            block: match &self.block {
                Option::Some(x) => Some(*x),
                Option::None => None,
            },
        }
    }
}

/// Whether a method stands in the configured table of non-deterministic
/// methods, which are never cached.
pub open spec fn spec_listed(table: Seq<String>, method: Seq<char>) -> bool {
    exists|i: int| 0 <= i < table.len() && (#[trigger] table[i])@ == method
}

/// Only deterministic reads pinned to a concrete block are cached: never
/// subscriptions, never writes, never unresolved tags, and never a
/// method the configuration table names as non-deterministic.
pub open spec fn spec_cacheable(method: Seq<char>, block: Option<u64>, table: Seq<String>) -> bool {
    spec_classify(method) == MethodClass::Read && block is Some && !spec_listed(table, method)
}

/// One cached response.
pub struct CacheEntry {
    pub fingerprint: Fingerprint,
    pub payload: Vec<u8>,
    /// The concrete block hash the result was computed against; the entry
    /// is evicted when this hash is orphaned.
    pub pinned_block_hash: Option<u64>,
}

/// Entries not pinned to the given hash: what survives a reorg eviction.
pub open spec fn not_pinned(h: u64) -> spec_fn(CacheEntry) -> bool {
    |e: CacheEntry| e.pinned_block_hash != Some(h)
}

/// Bytes held by a sequence of entries.
pub open spec fn total_bytes(es: Seq<CacheEntry>) -> int
    decreases es.len(),
{
    if es.len() == 0 {
        0
    } else {
        total_bytes(es.drop_last()) + es.last().payload@.len()
    }
}

/// First entry with the given key, scanning from the least recently used.
pub open spec fn spec_find(es: Seq<CacheEntry>, key: (Seq<char>, Seq<char>, Option<u64>)) -> Option<
    CacheEntry,
>
    decreases es.len(),
{
    if es.len() == 0 {
        None
    } else if es[0].fingerprint.key() == key {
        Some(es[0])
    } else {
        spec_find(es.drop_first(), key)
    }
}

/// The new entry stands most recent; what remains of the old entries is
/// a least-recently-used-first suffix of them.
pub open spec fn inserted_lru(
    old_es: Seq<CacheEntry>,
    new_es: Seq<CacheEntry>,
    key: (Seq<char>, Seq<char>, Option<u64>),
    payload: Seq<u8>,
    pinned: Option<u64>,
) -> bool {
    &&& new_es.len() > 0
    &&& new_es.last().fingerprint.key() == key
    &&& new_es.last().payload@ == payload
    &&& new_es.last().pinned_block_hash == pinned
    &&& exists|k: int| 0 <= k <= old_es.len() && new_es == old_es.skip(k).push(new_es.last())
}

/// What a caller of `begin_request` is told.
pub enum FlightOutcome {
    /// The response was cached; here are its bytes.
    Hit(Vec<u8>),
    /// Nothing cached, nothing in flight: this caller owns the upstream
    /// build.
    Leader,
    /// Another caller's build for the same fingerprint is in flight:
    /// wait for its result.
    Waiter,
}

/// Fingerprint-keyed LRU cache of response bytes, bounded in total bytes,
/// with a single-flight table deduplicating concurrent identical builds.
/// `entries` is kept in recency order: the least recently used entry first.
pub struct ResponseCache {
    pub entries: Vec<CacheEntry>,
    pub in_flight: Vec<Fingerprint>,
    pub max_bytes: usize,
    /// Configured names of non-deterministic methods: reads that are
    /// never cached although their block tag resolves.
    pub nondeterministic: Vec<String>,
    /// How many upstream builds were ever started.
    pub upstream_builds: u64,
}

impl ResponseCache {
    pub open spec fn spec_in_flight(self, key: (Seq<char>, Seq<char>, Option<u64>)) -> bool {
        exists|i: int| 0 <= i < self.in_flight@.len() && (#[trigger] self.in_flight@[i]).key()
            == key
    }

    pub open spec fn spec_cached(self, key: (Seq<char>, Seq<char>, Option<u64>)) -> bool {
        exists|i: int| 0 <= i < self.entries@.len() && (#[trigger] self.entries@[i]).fingerprint.key()
            == key
    }

    /// No entry is pinned to the given block hash.
    pub open spec fn no_pins(self, h: u64) -> bool {
        forall|i: int|
            0 <= i < self.entries@.len() ==> (#[trigger] self.entries@[i]).pinned_block_hash
                != Some(h)
    }

    pub open spec fn wf(self) -> bool {
        &&& total_bytes(self.entries@) <= self.max_bytes
        &&& forall|i: int, j: int|
            0 <= i < j < self.entries@.len() ==> (#[trigger] self.entries@[i]).fingerprint.key()
                != (#[trigger] self.entries@[j]).fingerprint.key()
        &&& forall|i: int, j: int|
            0 <= i < j < self.in_flight@.len() ==> (#[trigger] self.in_flight@[i]).key() != (
            #[trigger] self.in_flight@[j]).key()
        &&& forall|i: int|
            0 <= i < self.entries@.len() ==> spec_cacheable(
                (#[trigger] self.entries@[i]).fingerprint.method@,
                self.entries@[i].fingerprint.block,
                self.nondeterministic@,
            )
    }

    pub fn new(max_bytes: usize, nondeterministic: Vec<String>) -> (r: ResponseCache)
        ensures
            r.wf(),
            r.entries@.len() == 0,
            r.in_flight@.len() == 0,
            r.max_bytes == max_bytes,
            r.nondeterministic == nondeterministic,
            r.upstream_builds == 0,
    {
        ResponseCache {
            entries: Vec::new(),
            in_flight: Vec::new(),
            max_bytes,
            nondeterministic,
            upstream_builds: 0,
        }
    }

    /// Index of the cached entry for the key, if any.
    fn find_entry(&self, fp: &Fingerprint) -> (r: Option<usize>)
        ensures
            r matches Some(i) ==> i < self.entries@.len() && self.entries@[i as int].fingerprint.key()
                == fp.key(),
            r is None ==> !self.spec_cached(fp.key()),
    {
        let n = self.entries.len();
        for i in 0..n
            invariant
                n == self.entries@.len(),
                forall|j: int| 0 <= j < i ==> (#[trigger] self.entries@[j]).fingerprint.key()
                    != fp.key(),
        {
            if self.entries[i].fingerprint.eq_key(fp) {
                return Some(i);
            }
        }
        None
    }

    fn find_in_flight(&self, fp: &Fingerprint) -> (r: bool)
        ensures
            r == self.spec_in_flight(fp.key()),
    {
        let n = self.in_flight.len();
        for i in 0..n
            invariant
                n == self.in_flight@.len(),
                forall|j: int| 0 <= j < i ==> (#[trigger] self.in_flight@[j]).key() != fp.key(),
        {
            if self.in_flight[i].eq_key(fp) {
                return true;
            }
        }
        false
    }

    /// One caller arrives for a fingerprint. Exactly one of three things
    /// happens: the cached bytes are returned; the caller becomes the
    /// single leader and owns the one upstream build; or the caller waits
    /// on the build already in flight. An upstream build starts if and
    /// only if the caller became leader.
    pub fn begin_request(&mut self, fp: &Fingerprint) -> (r: FlightOutcome)
        requires
            old(self).wf(),
            old(self).upstream_builds < u64::MAX,
        ensures
            final(self).wf(),
            final(self).max_bytes == old(self).max_bytes,
            final(self).nondeterministic == old(self).nondeterministic,
            (r is Hit) <==> old(self).spec_cached(fp.key()),
            (r is Waiter) <==> (!old(self).spec_cached(fp.key()) && old(self).spec_in_flight(
                fp.key(),
            )),
            (r is Leader) <==> (!old(self).spec_cached(fp.key()) && !old(self).spec_in_flight(
                fp.key(),
            )),
            r matches FlightOutcome::Hit(bytes) ==> (exists|i: int|
                0 <= i < old(self).entries@.len() && (#[trigger] old(
                    self,
                ).entries@[i]).fingerprint.key() == fp.key() && bytes@ == old(
                    self,
                ).entries@[i].payload@),
            r is Hit ==> final(self).entries@.to_multiset() == old(self).entries@.to_multiset()
                && final(self).in_flight@ == old(self).in_flight@ && final(self).upstream_builds
                == old(self).upstream_builds,
            r is Waiter ==> *final(self) == *old(self),
            r is Leader ==> final(self).entries@ == old(self).entries@,
            r is Leader ==> final(self).upstream_builds == old(self).upstream_builds + 1,
            r is Leader ==> final(self).spec_in_flight(fp.key()),
            forall|k: (Seq<char>, Seq<char>, Option<u64>)|
                k != fp.key() ==> (final(self).spec_in_flight(k) == old(self).spec_in_flight(k)),
    {
        broadcast use vstd::seq_lib::group_to_multiset_ensures;

        match self.find_entry(fp) {
            Option::Some(i) => {
                let e = self.entries.remove(i);
                let bytes = clone_bytes(&e.payload);
                let ghost removed = self.entries@;
                let ghost old_entries = old(self).entries@;
                self.entries.push(e);
                proof {
                    vstd::seq_lib::to_multiset_remove(old_entries, i as int);
                    vstd::seq_lib::to_multiset_build(removed, old_entries[i as int]);
                    assert(self.entries@.to_multiset() =~= old_entries.to_multiset());
                    lemma_total_bytes_remove(old_entries, i as int);
                    lemma_total_bytes_push(removed, old_entries[i as int]);
                    assert forall|a: int, b: int|
                        0 <= a < b < self.entries@.len() implies (
                    #[trigger] self.entries@[a]).fingerprint.key() != (
                    #[trigger] self.entries@[b]).fingerprint.key() by {
                        lemma_remove_keys(old_entries, i as int, a, b);
                    }
                }
                FlightOutcome::Hit(bytes)
            },
            Option::None => {
                if self.find_in_flight(fp) {
                    FlightOutcome::Waiter
                } else {
                    let ghost old_in_flight = self.in_flight@;
                    self.in_flight.push(fp.clone_fp());
                    self.upstream_builds = self.upstream_builds + 1;
                    proof {
                        assert(self.in_flight@.last().key() == fp.key());
                        assert forall|k: (Seq<char>, Seq<char>, Option<u64>)|
                            k != fp.key() implies (self.spec_in_flight(k) == old(
                            self,
                        ).spec_in_flight(k)) by {
                            if old(self).spec_in_flight(k) {
                                let j = choose|j: int|
                                    0 <= j < old_in_flight.len() && (
                                    #[trigger] old_in_flight[j]).key() == k;
                                assert(self.in_flight@[j].key() == k);
                            }
                            if self.spec_in_flight(k) {
                                let j = choose|j: int|
                                    0 <= j < self.in_flight@.len() && (
                                    #[trigger] self.in_flight@[j]).key() == k;
                                assert(j < old_in_flight.len());
                                assert(old_in_flight[j].key() == k);
                            }
                        }
                        assert forall|a: int, b: int|
                            0 <= a < b < self.in_flight@.len() implies (
                        #[trigger] self.in_flight@[a]).key() != (
                        #[trigger] self.in_flight@[b]).key() by {
                            if b == self.in_flight@.len() - 1 {
                                assert(self.in_flight@[a] == old_in_flight[a]);
                            }
                        }
                    }
                    FlightOutcome::Leader
                }
            },
        }
    }

    /// Whether the method stands in the configured non-deterministic
    /// table.
    fn method_listed(&self, method: &str) -> (r: bool)
        ensures
            r == spec_listed(self.nondeterministic@, method@),
    {
        let n = self.nondeterministic.len();
        for i in 0..n
            invariant
                n == self.nondeterministic@.len(),
                forall|j: int| 0 <= j < i ==> (#[trigger] self.nondeterministic@[j])@ != method@,
        {
            if str_eq(self.nondeterministic[i].as_str(), method) {
                proof {
                    assert(self.nondeterministic@[i as int]@ == method@);
                }
                return true;
            }
        }
        false
    }

    /// Drops the in-flight marker for a fingerprint, if present.
    fn remove_in_flight(&mut self, fp: &Fingerprint)
        requires
            old(self).wf(),
        ensures
            final(self).wf(),
            final(self).entries@ == old(self).entries@,
            final(self).max_bytes == old(self).max_bytes,
            final(self).nondeterministic == old(self).nondeterministic,
            final(self).upstream_builds == old(self).upstream_builds,
            !final(self).spec_in_flight(fp.key()),
            forall|k: (Seq<char>, Seq<char>, Option<u64>)|
                k != fp.key() ==> (final(self).spec_in_flight(k) == old(self).spec_in_flight(k)),
    {
        let n = self.in_flight.len();
        let mut idx: Option<usize> = None;
        for i in 0..n
            invariant
                n == self.in_flight@.len(),
                idx matches Some(j) ==> j < n && self.in_flight@[j as int].key() == fp.key(),
                idx is None ==> forall|j: int|
                    0 <= j < i ==> (#[trigger] self.in_flight@[j]).key() != fp.key(),
        {
            if idx.is_none() && self.in_flight[i].eq_key(fp) {
                idx = Some(i);
            }
        }
        let ghost old_in_flight = self.in_flight@;
        match idx {
            Option::Some(i) => {
                self.in_flight.remove(i);
                proof {
                    assert forall|a: int, b: int|
                        0 <= a < b < self.in_flight@.len() implies (
                    #[trigger] self.in_flight@[a]).key() != (#[trigger] self.in_flight@[b]).key()
                        by {
                        lemma_remove_keys_fp(old_in_flight, i as int, a, b);
                    }
                    assert forall|j: int|
                        0 <= j < self.in_flight@.len() implies (
                    #[trigger] self.in_flight@[j]).key() != fp.key() by {
                        if j < i {
                            assert(self.in_flight@[j] == old_in_flight[j]);
                        } else {
                            assert(self.in_flight@[j] == old_in_flight[j + 1]);
                        }
                    }
                    assert forall|k: (Seq<char>, Seq<char>, Option<u64>)|
                        k != fp.key() implies (self.spec_in_flight(k) == old(self).spec_in_flight(
                        k,
                    )) by {
                        if old(self).spec_in_flight(k) {
                            let j = choose|j: int|
                                0 <= j < old_in_flight.len() && (#[trigger] old_in_flight[j]).key()
                                    == k;
                            if j < i {
                                assert(self.in_flight@[j].key() == k);
                            } else {
                                assert(j != i);
                                assert(self.in_flight@[j - 1].key() == k);
                            }
                        }
                        if self.spec_in_flight(k) {
                            let j = choose|j: int|
                                0 <= j < self.in_flight@.len() && (
                                #[trigger] self.in_flight@[j]).key() == k;
                            if j < i {
                                assert(old_in_flight[j].key() == k);
                            } else {
                                assert(old_in_flight[j + 1].key() == k);
                            }
                        }
                    }
                }
            },
            Option::None => {},
        }
    }

    /// The leader's build failed: every waiter gets the error, and
    /// nothing is cached.
    pub fn complete_error(&mut self, fp: &Fingerprint)
        requires
            old(self).wf(),
        ensures
            final(self).wf(),
            final(self).entries@ == old(self).entries@,
            final(self).max_bytes == old(self).max_bytes,
            final(self).nondeterministic == old(self).nondeterministic,
            final(self).upstream_builds == old(self).upstream_builds,
            !final(self).spec_in_flight(fp.key()),
            forall|k: (Seq<char>, Seq<char>, Option<u64>)|
                k != fp.key() ==> (final(self).spec_in_flight(k) == old(self).spec_in_flight(k)),
    {
        self.remove_in_flight(fp);
    }

    /// The leader's build succeeded: the in-flight marker is dropped and,
    /// when the response is cacheable and fits the budget at all, it is
    /// inserted, evicting least-recently-used entries first until the
    /// byte bound holds again.
    pub fn complete_success(&mut self, fp: &Fingerprint, payload: Vec<u8>, pinned: Option<u64>)
        requires
            old(self).wf(),
        ensures
            final(self).wf(),
            final(self).max_bytes == old(self).max_bytes,
            final(self).nondeterministic == old(self).nondeterministic,
            final(self).upstream_builds == old(self).upstream_builds,
            !final(self).spec_in_flight(fp.key()),
            forall|k: (Seq<char>, Seq<char>, Option<u64>)|
                k != fp.key() ==> (final(self).spec_in_flight(k) == old(self).spec_in_flight(k)),
            !spec_cacheable(fp.method@, fp.block, old(self).nondeterministic@)
                ==> final(self).entries@ == old(self).entries@,
            old(self).spec_cached(fp.key()) ==> final(self).entries@ == old(self).entries@,
            payload@.len() > old(self).max_bytes ==> final(self).entries@ == old(self).entries@,
            total_bytes(final(self).entries@) <= final(self).max_bytes,
            (spec_cacheable(fp.method@, fp.block, old(self).nondeterministic@) && payload@.len()
                <= old(self).max_bytes && !old(self).spec_cached(fp.key())) ==> inserted_lru(
                old(self).entries@,
                final(self).entries@,
                fp.key(),
                payload@,
                pinned,
            ),
            (spec_cacheable(fp.method@, fp.block, old(self).nondeterministic@) && payload@.len()
                <= old(self).max_bytes && !old(self).spec_cached(fp.key()))
                ==> final(self).spec_cached(fp.key()),
    {
        self.remove_in_flight(fp);
        let cacheable = match crate::router::classify(fp.method.as_str()) {
            MethodClass::Read => fp.block.is_some() && !self.method_listed(fp.method.as_str()),
            _ => false,
        };
        proof {
            assert(cacheable == spec_cacheable(
                fp.method@,
                fp.block,
                old(self).nondeterministic@,
            ));
        }
        if !cacheable {
            return ;
        }
        if payload.len() > self.max_bytes {
            return ;
        }
        if self.find_entry(fp).is_some() {
            return ;
        }
        let ghost in_flight_after_remove = self.in_flight@;
        proof {
            assert(old(self).entries@.skip(0) =~= self.entries@);
        }
        while self.entries.len() > 0 && payload.len() > self.max_bytes - total_bytes_exec(
            &self.entries,
        )
            invariant
                self.wf(),
                self.in_flight@ == in_flight_after_remove,
                self.nondeterministic == old(self).nondeterministic,
                exists|k: int|
                    0 <= k <= old(self).entries@.len() && self.entries@ == old(
                        self,
                    ).entries@.skip(k),
                payload@.len() <= self.max_bytes,
                self.max_bytes == old(self).max_bytes,
                self.upstream_builds == old(self).upstream_builds,
                !self.spec_cached(fp.key()),
                !self.spec_in_flight(fp.key()),
            decreases self.entries@.len(),
        {
            let ghost before = self.entries@;
            self.entries.remove(0);
            proof {
                assert(self.entries@ =~= before.drop_first());
                let k0 = choose|k: int|
                    0 <= k <= old(self).entries@.len() && before == old(self).entries@.skip(k);
                assert(self.entries@ =~= old(self).entries@.skip(k0 + 1));
                lemma_total_bytes_drop_first(before);
                assert forall|j: int|
                    0 <= j < self.entries@.len() implies (
                #[trigger] self.entries@[j]).fingerprint.key() != fp.key() by {
                    assert(self.entries@[j] == before[j + 1]);
                }
            }
        }
        let ghost pre_push = self.entries@;
        let e = CacheEntry { fingerprint: fp.clone_fp(), payload, pinned_block_hash: pinned };
        self.entries.push(e);
        proof {
            lemma_total_bytes_push(pre_push, self.entries@.last());
            assert forall|a: int, b: int|
                0 <= a < b < self.entries@.len() implies (
            #[trigger] self.entries@[a]).fingerprint.key() != (
            #[trigger] self.entries@[b]).fingerprint.key() by {
                if b == self.entries@.len() - 1 {
                    assert(self.entries@[a] == pre_push[a]);
                }
            }
            assert(self.entries@[self.entries@.len() - 1].fingerprint.key() == fp.key());
        }
    }

    /// A block hash was orphaned by a reorg: every entry pinned to it is
    /// evicted; nothing else changes.
    pub fn evict_orphaned(&mut self, h: u64)
        requires
            old(self).wf(),
        ensures
            final(self).wf(),
            final(self).no_pins(h),
            final(self).entries@ == old(self).entries@.filter(
                not_pinned(h),
            ),
            final(self).in_flight@ == old(self).in_flight@,
            final(self).max_bytes == old(self).max_bytes,
            final(self).nondeterministic == old(self).nondeterministic,
            final(self).upstream_builds == old(self).upstream_builds,
    {
        let mut kept: Vec<CacheEntry> = Vec::new();
        let ghost src = self.entries@;
        proof {
            reveal(Seq::filter);
            assert(src.take(0).filter(not_pinned(h)) =~= Seq::<CacheEntry>::empty());
            assert(src.skip(0) =~= src);
        }
        let ghost mut p: int = 0;
        while self.entries.len() > 0
            invariant
                0 <= p <= src.len(),
                self.entries@ == src.skip(p),
                kept@ == src.take(p).filter(not_pinned(h)),
                self.in_flight@ == old(self).in_flight@,
                self.max_bytes == old(self).max_bytes,
                self.nondeterministic == old(self).nondeterministic,
                self.upstream_builds == old(self).upstream_builds,
            decreases self.entries@.len(),
        {
            let ghost before = self.entries@;
            let e = self.entries.remove(0);
            let keep = match &e.pinned_block_hash {
                Option::Some(x) => *x != h,
                Option::None => true,
            };
            let ghost prev = kept@;
            if keep {
                kept.push(e);
            }
            proof {
                broadcast use Seq::lemma_filter_push;

                assert(before[0] == src[p]);
                assert(self.entries@ =~= src.skip(p + 1));
                assert(src.take(p + 1) =~= src.take(p).push(src[p]));
                assert(src.take(p + 1).filter(not_pinned(h)) == src.take(p).push(src[p]).filter(
                    not_pinned(h),
                ));
                assert(not_pinned(h)(src[p]) == keep);
                p = p + 1;
            }
        }
        proof {
            assert(src.take(p) =~= src);
        }
        self.entries = kept;
        proof {
            lemma_filter_wf_entries(src, h, self.max_bytes as int, self.nondeterministic@);
        }
    }
}

/// Law: single flight — a well-formed cache never tracks two in-flight
/// upstream builds for one fingerprint, so at most one build runs per
/// fingerprint at any time.
pub proof fn lemma_single_flight(c: ResponseCache, i: int, j: int)
    requires
        c.wf(),
        0 <= i < j < c.in_flight@.len(),
    ensures
        c.in_flight@[i].key() != c.in_flight@[j].key(),
{
}

/// Law: cache bound — a well-formed cache never holds more payload bytes
/// than its configured budget.
pub proof fn lemma_cache_bound(c: ResponseCache)
    requires
        c.wf(),
    ensures
        total_bytes(c.entries@) <= c.max_bytes,
{
}

/// Law: no cache of writes — a well-formed cache holds no entry keyed to
/// a write, subscription or configured non-deterministic method, only
/// deterministic reads pinned to a concrete block.
pub proof fn lemma_no_cache_of_writes(c: ResponseCache, i: int)
    requires
        c.wf(),
        0 <= i < c.entries@.len(),
    ensures
        spec_classify(c.entries@[i].fingerprint.method@) == MethodClass::Read,
        c.entries@[i].fingerprint.block is Some,
        !spec_listed(c.nondeterministic@, c.entries@[i].fingerprint.method@),
{
}

/// Law: reorg eviction — once a hash has been evicted as orphaned, no
/// lookup finds an entry pinned to it.
pub proof fn lemma_reorg_eviction(c: ResponseCache, h: u64, key: (Seq<char>, Seq<char>, Option<u64>))
    requires
        c.no_pins(h),
    ensures
        spec_find(c.entries@, key) matches Some(e) ==> e.pinned_block_hash != Some(h),
    decreases c.entries@.len(),
{
    lemma_spec_find_member(c.entries@, key);
}

/// Whatever `spec_find` returns is one of the entries.
proof fn lemma_spec_find_member(es: Seq<CacheEntry>, key: (Seq<char>, Seq<char>, Option<u64>))
    ensures
        spec_find(es, key) matches Some(e) ==> exists|i: int| 0 <= i < es.len() && es[i] == e,
    decreases es.len(),
{
    if es.len() > 0 && es[0].fingerprint.key() != key {
        lemma_spec_find_member(es.drop_first(), key);
        if spec_find(es.drop_first(), key) is Some {
            let e = spec_find(es.drop_first(), key)->Some_0;
            let i = choose|i: int| 0 <= i < es.drop_first().len() && es.drop_first()[i] == e;
            assert(es[i + 1] == e);
        }
    }
}

/// Exact byte count of the stored entries.
fn total_bytes_exec(es: &Vec<CacheEntry>) -> (r: usize)
    requires
        total_bytes(es@) <= usize::MAX,
    ensures
        r == total_bytes(es@),
{
    proof {
        assert(es@.take(0) =~= Seq::<CacheEntry>::empty());
    }
    let mut r: usize = 0;
    let n = es.len();
    for i in 0..n
        invariant
            n == es@.len(),
            r == total_bytes(es@.take(i as int)),
            total_bytes(es@) <= usize::MAX,
    {
        proof {
            assert(es@.take(i + 1).drop_last() =~= es@.take(i as int));
            assert(es@.take(i + 1).last() == es@[i as int]);
            lemma_total_bytes_prefix(es@, i + 1);
            lemma_total_bytes_nonneg(es@.take(i as int));
        }
        r = r + es[i].payload.len();
    }
    proof {
        assert(es@.take(n as int) =~= es@);
    }
    r
}

fn clone_bytes(v: &Vec<u8>) -> (r: Vec<u8>)
    ensures
        r@ == v@,
{
    let mut r: Vec<u8> = Vec::new();
    let n = v.len();
    for i in 0..n
        invariant
            n == v@.len(),
            r@ == v@.take(i as int),
    {
        r.push(v[i]);
        proof {
            assert(v@.take(i + 1) =~= v@.take(i as int).push(v@[i as int]));
        }
    }
    proof {
        assert(v@.take(n as int) =~= v@);
    }
    r
}

proof fn lemma_total_bytes_nonneg(es: Seq<CacheEntry>)
    ensures
        total_bytes(es) >= 0,
    decreases es.len(),
{
    if es.len() > 0 {
        lemma_total_bytes_nonneg(es.drop_last());
    }
}

proof fn lemma_total_bytes_prefix(es: Seq<CacheEntry>, n: int)
    requires
        0 <= n <= es.len(),
    ensures
        total_bytes(es.take(n)) <= total_bytes(es),
    decreases es.len() - n,
{
    if n < es.len() {
        lemma_total_bytes_prefix(es, n + 1);
        assert(es.take(n + 1).drop_last() =~= es.take(n));
        lemma_total_bytes_nonneg(es.take(n));
    } else {
        assert(es.take(n) =~= es);
    }
}

proof fn lemma_total_bytes_push(es: Seq<CacheEntry>, e: CacheEntry)
    ensures
        total_bytes(es.push(e)) == total_bytes(es) + e.payload@.len(),
{
    assert(es.push(e).drop_last() =~= es);
    assert(es.push(e).last() == e);
}

proof fn lemma_total_bytes_drop_first(es: Seq<CacheEntry>)
    requires
        es.len() > 0,
    ensures
        total_bytes(es.drop_first()) == total_bytes(es) - es[0].payload@.len(),
    decreases es.len(),
{
    if es.len() == 1 {
        assert(es.drop_first() =~= Seq::<CacheEntry>::empty());
        assert(es.drop_last() =~= Seq::<CacheEntry>::empty());
    } else {
        lemma_total_bytes_drop_first(es.drop_last());
        assert(es.drop_first().drop_last() =~= es.drop_last().drop_first());
        assert(es.drop_first().last() == es.last());
        assert(es.drop_last()[0] == es[0]);
    }
}

proof fn lemma_total_bytes_remove(es: Seq<CacheEntry>, i: int)
    requires
        0 <= i < es.len(),
    ensures
        total_bytes(es.remove(i)) == total_bytes(es) - es[i].payload@.len(),
    decreases es.len(),
{
    if i == es.len() - 1 {
        assert(es.remove(i) =~= es.drop_last());
    } else {
        lemma_total_bytes_remove(es.drop_last(), i);
        assert(es.remove(i).drop_last() =~= es.drop_last().remove(i));
        assert(es.remove(i).last() == es.last());
    }
}

proof fn lemma_remove_keys(es: Seq<CacheEntry>, i: int, a: int, b: int)
    requires
        0 <= i < es.len(),
        forall|x: int, y: int|
            0 <= x < y < es.len() ==> (#[trigger] es[x]).fingerprint.key() != (
            #[trigger] es[y]).fingerprint.key(),
        0 <= a < b < es.len(),
    ensures
        ({
            let r = es.remove(i).push(es[i]);
            a < r.len() && b < r.len() ==> r[a].fingerprint.key() != r[b].fingerprint.key()
        }),
{
    let r = es.remove(i).push(es[i]);
    if a < r.len() && b < r.len() {
        if b == r.len() - 1 {
            if a < i {
                assert(r[a] == es[a]);
            } else {
                assert(r[a] == es[a + 1]);
            }
            assert(r[b] == es[i]);
        } else {
            if a < i {
                assert(r[a] == es[a]);
            } else {
                assert(r[a] == es[a + 1]);
            }
            if b < i {
                assert(r[b] == es[b]);
            } else {
                assert(r[b] == es[b + 1]);
            }
        }
    }
}

proof fn lemma_remove_keys_fp(es: Seq<Fingerprint>, i: int, a: int, b: int)
    requires
        0 <= i < es.len(),
        forall|x: int, y: int|
            0 <= x < y < es.len() ==> (#[trigger] es[x]).key() != (#[trigger] es[y]).key(),
        0 <= a < b,
    ensures
        b < es.remove(i).len() ==> es.remove(i)[a].key() != es.remove(i)[b].key(),
{
    if b < es.remove(i).len() {
        if a < i {
            assert(es.remove(i)[a] == es[a]);
        } else {
            assert(es.remove(i)[a] == es[a + 1]);
        }
        if b < i {
            assert(es.remove(i)[b] == es[b]);
        } else {
            assert(es.remove(i)[b] == es[b + 1]);
        }
    }
}

/// Filtering entries keeps well-formedness: fewer bytes, still-distinct
/// keys, still all cacheable.
proof fn lemma_filter_wf_entries(es: Seq<CacheEntry>, h: u64, max: int, table: Seq<String>)
    requires
        total_bytes(es) <= max,
        forall|x: int, y: int|
            0 <= x < y < es.len() ==> (#[trigger] es[x]).fingerprint.key() != (
            #[trigger] es[y]).fingerprint.key(),
        forall|x: int|
            0 <= x < es.len() ==> spec_cacheable(
                (#[trigger] es[x]).fingerprint.method@,
                es[x].fingerprint.block,
                table,
            ),
    ensures
        total_bytes(es.filter(not_pinned(h))) <= max,
        ({
            let f = es.filter(not_pinned(h));
            &&& forall|x: int, y: int|
                0 <= x < y < f.len() ==> (#[trigger] f[x]).fingerprint.key() != (
                #[trigger] f[y]).fingerprint.key()
            &&& forall|x: int|
                0 <= x < f.len() ==> spec_cacheable(
                    (#[trigger] f[x]).fingerprint.method@,
                    f[x].fingerprint.block,
                    table,
                )
            &&& forall|x: int| 0 <= x < f.len() ==> (#[trigger] f[x]).pinned_block_hash != Some(h)
        }),
    decreases es.len(),
{
    reveal(Seq::filter);
    lemma_total_bytes_nonneg(es);
    if es.len() > 0 {
        lemma_total_bytes_nonneg(es.drop_last());
        lemma_filter_wf_entries(es.drop_last(), h, total_bytes(es.drop_last()), table);
        let f = es.filter(not_pinned(h));
        let fd = es.drop_last().filter(not_pinned(h));
        lemma_filter_is_subset(es.drop_last(), h);
        if not_pinned(h)(es.last()) {
            assert(f == fd.push(es.last()));
            lemma_total_bytes_push(fd, es.last());
            assert forall|x: int, y: int|
                0 <= x < y < f.len() implies (#[trigger] f[x]).fingerprint.key() != (
            #[trigger] f[y]).fingerprint.key() by {
                if y == f.len() - 1 {
                    assert(f[x] == fd[x]);
                    let j = choose|j: int| 0 <= j < es.drop_last().len() && es.drop_last()[j]
                        == fd[x];
                    assert(es[j] == fd[x]);
                    assert(es[j].fingerprint.key() != es[es.len() - 1].fingerprint.key());
                }
            }
        } else {
            assert(f == fd);
        }
    }
}

/// Every entry surviving the filter already stood in the sequence.
proof fn lemma_filter_is_subset(es: Seq<CacheEntry>, h: u64)
    ensures
        forall|x: int|
            0 <= x < es.filter(not_pinned(h)).len()
                ==> exists|j: int|
                0 <= j < es.len() && es[j] == #[trigger] es.filter(
                    not_pinned(h),
                )[x],
    decreases es.len(),
{
    reveal(Seq::filter);
    if es.len() > 0 {
        lemma_filter_is_subset(es.drop_last(), h);
        let f = es.filter(not_pinned(h));
        let fd = es.drop_last().filter(not_pinned(h));
        assert forall|x: int| 0 <= x < f.len() implies exists|j: int|
            0 <= j < es.len() && es[j] == #[trigger] f[x] by {
            if x < fd.len() {
                let j = choose|j: int| 0 <= j < es.drop_last().len() && es.drop_last()[j] == fd[x];
                assert(es[j] == f[x]);
            } else {
                assert(f[x] == es[es.len() - 1]);
            }
        }
    }
}

} // verus!
