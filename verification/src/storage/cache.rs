//! A byte cache with per-entry time to live and a capacity bound on the
//! total payload size.
use vstd::prelude::*;
use std::time::Instant;
use crate::text::text_is;

verus! {

/// `std::time::Instant`, a point of the monotonic clock.
#[verifier::external_type_specification]
#[verifier::external_body]
pub struct ExInstant(Instant);

/// `Instant::now`: the current point of the monotonic clock (nothing is stated of it).
#[verifier::external_body]
fn instant_now() -> Instant {
    Instant::now()
}

/// `Instant::elapsed`, converted to whole nanoseconds: the time since
/// `start`.  It depends on the clock, so nothing is stated of it.
#[verifier::external_body]
fn elapsed_nanos(start: &Instant) -> u128 {
    start.elapsed().as_nanos()
}

/// Errors of the cache.
#[derive(Debug)]
pub enum CacheError {
    EntryExpired,
    AllocationFailure,
}

/// A cached payload with its creation time and its time to live in seconds.
#[derive(Debug)]
pub struct CacheValue {
    pub payload: Vec<u8>,
    pub created_at: Instant,
    pub ttl_secs: u64,
}

/// Nanoseconds in a second.
pub const NANOS_PER_SEC: u128 = 1_000_000_000;

/// Whether an entry that has lived `elapsed_nanos` with the given time to live is expired.
pub open spec fn expired(elapsed_nanos: u128, ttl_secs: u64) -> bool {
    elapsed_nanos > ttl_secs * 1_000_000_000
}

impl CacheValue {
    /// Whether the entry is expired after it has lived `elapsed_nanos`
    /// nanoseconds: strictly more than its time to live.
    pub fn expired_after(&self, elapsed_nanos: u128) -> (r: bool)
        ensures
            r == expired(elapsed_nanos, self.ttl_secs),
    {
        elapsed_nanos > (self.ttl_secs as u128) * NANOS_PER_SEC
    }

    /// Whether the entry is expired now (this reads the clock).
    pub fn is_expired(&self) -> bool {
        let lived = elapsed_nanos(&self.created_at);
        self.expired_after(lived)
    }
}

/// The abstract content of a cache entry: key, payload, time to live in
/// seconds, creation time.
pub type EntryView = (Seq<char>, Seq<u8>, u64, Instant);

/// The entries of a registry, each viewed.
pub open spec fn entries_view(r: Seq<(String, CacheValue)>) -> Seq<EntryView> {
    r.map_values(|e: (String, CacheValue)| (e.0@, e.1.payload@, e.1.ttl_secs, e.1.created_at))
}

/// Total payload bytes of the entries.
pub open spec fn total_bytes(v: Seq<EntryView>) -> nat
    decreases v.len(),
{
    if v.len() == 0 {
        0
    } else {
        total_bytes(v.drop_last()) + v.last().1.len()
    }
}

/// The payload, time to live and creation time stored under a key, if any.
pub open spec fn cached(v: Seq<EntryView>, key: Seq<char>) -> Option<(Seq<u8>, u64, Instant)>
    decreases v.len(),
{
    if v.len() == 0 {
        None
    } else if v.last().0 == key {
        Some((v.last().1, v.last().2, v.last().3))
    } else {
        cached(v.drop_last(), key)
    }
}

/// Whether no key occurs twice.
pub open spec fn distinct_keys(v: Seq<EntryView>) -> bool {
    forall|a: int, b: int| 0 <= a < v.len() && 0 <= b < v.len() && #[trigger] v[a].0 == #[trigger] v[b].0 ==> a == b
}

proof fn lemma_total_update(v: Seq<EntryView>, j: int, x: EntryView)
    requires
        0 <= j < v.len(),
    ensures
        total_bytes(v.update(j, x)) + v[j].1.len() == total_bytes(v) + x.1.len(),
    decreases v.len(),
{
    if j < v.len() - 1 {
        lemma_total_update(v.drop_last(), j, x);
        assert(v.update(j, x).drop_last() == v.drop_last().update(j, x));
    } else {
        assert(v.update(j, x).drop_last() == v.drop_last());
    }
}

proof fn lemma_total_remove(v: Seq<EntryView>, j: int)
    requires
        0 <= j < v.len(),
    ensures
        total_bytes(v.remove(j)) + v[j].1.len() == total_bytes(v),
    decreases v.len(),
{
    if j < v.len() - 1 {
        lemma_total_remove(v.drop_last(), j);
        assert(v.remove(j).drop_last() == v.drop_last().remove(j));
    } else {
        assert(v.remove(j) == v.drop_last());
    }
}

proof fn lemma_cached_index(v: Seq<EntryView>, key: Seq<char>)
    requires
        distinct_keys(v),
    ensures
        match cached(v, key) {
            Some(e) => exists|j: int| 0 <= j < v.len() && #[trigger] v[j].0 == key && e == (v[j].1, v[j].2, v[j].3),
            None => forall|j: int| 0 <= j < v.len() ==> #[trigger] v[j].0 != key,
        },
    decreases v.len(),
{
    if v.len() > 0 {
        let d = v.drop_last();
        assert(distinct_keys(d)) by {
            assert forall|a: int, b: int| 0 <= a < d.len() && 0 <= b < d.len() && #[trigger] d[a].0 == #[trigger] d[b].0 implies a == b by {
                assert(v[a].0 == v[b].0);
            }
        }
        lemma_cached_index(d, key);
        if v.last().0 != key {
            match cached(d, key) {
                Some(e) => {
                    let j = choose|j: int| 0 <= j < d.len() && #[trigger] d[j].0 == key && e == (d[j].1, d[j].2, d[j].3);
                    assert(v[j] == d[j]);
                },
                None => {
                    assert forall|j: int| 0 <= j < v.len() implies #[trigger] v[j].0 != key by {
                        if j < d.len() {
                            assert(v[j] == d[j]);
                        }
                    }
                },
            }
        } else {
            assert(v[v.len() - 1].0 == key);
        }
    }
}

proof fn lemma_cached_at(v: Seq<EntryView>, j: int)
    requires
        distinct_keys(v),
        0 <= j < v.len(),
    ensures
        cached(v, v[j].0) == Some((v[j].1, v[j].2, v[j].3)),
{
    lemma_cached_index(v, v[j].0);
    match cached(v, v[j].0) {
        Some(e) => {
            let i = choose|i: int| 0 <= i < v.len() && #[trigger] v[i].0 == v[j].0 && e == (v[i].1, v[i].2, v[i].3);
            assert(v[i].0 == v[j].0);
        },
        None => {
            assert(v[j].0 != v[j].0);
        },
    }
}

proof fn lemma_cached_none(v: Seq<EntryView>, key: Seq<char>)
    requires
        forall|j: int| 0 <= j < v.len() ==> #[trigger] v[j].0 != key,
    ensures
        cached(v, key) is None,
    decreases v.len(),
{
    if v.len() > 0 {
        let d = v.drop_last();
        assert(v[v.len() - 1].0 != key);
        assert forall|j: int| 0 <= j < d.len() implies #[trigger] d[j].0 != key by {
            assert(d[j] == v[j]);
        }
        lemma_cached_none(d, key);
    }
}

proof fn lemma_cached_remove(v: Seq<EntryView>, j: int)
    requires
        distinct_keys(v),
        0 <= j < v.len(),
    ensures
        distinct_keys(v.remove(j)),
        cached(v.remove(j), v[j].0) is None,
        forall|k: Seq<char>| k != v[j].0 ==> #[trigger] cached(v.remove(j), k) == cached(v, k),
{
    let w = v.remove(j);
    assert(forall|i: int| 0 <= i < w.len() ==> #[trigger] w[i] == if i < j { v[i] } else { v[i + 1] });
    assert forall|a: int, b: int| 0 <= a < w.len() && 0 <= b < w.len() && #[trigger] w[a].0 == #[trigger] w[b].0 implies a == b by {
        let oa = if a < j { a } else { a + 1 };
        let ob = if b < j { b } else { b + 1 };
        assert(v[oa].0 == v[ob].0);
    }
    assert forall|i: int| 0 <= i < w.len() implies #[trigger] w[i].0 != v[j].0 by {
        let oi = if i < j { i } else { i + 1 };
        assert(v[oi].0 == w[i].0);
    }
    lemma_cached_none(w, v[j].0);
    assert forall|k: Seq<char>| k != v[j].0 implies #[trigger] cached(w, k) == cached(v, k) by {
        lemma_cached_index(v, k);
        match cached(v, k) {
            Some(e) => {
                let i = choose|i: int| 0 <= i < v.len() && #[trigger] v[i].0 == k && e == (v[i].1, v[i].2, v[i].3);
                let wi = if i < j { i } else { i - 1 };
                assert(w[wi] == v[i]);
                lemma_cached_at(w, wi);
            },
            None => {
                assert forall|i: int| 0 <= i < w.len() implies #[trigger] w[i].0 != k by {
                    let oi = if i < j { i } else { i + 1 };
                    assert(v[oi].0 == w[i].0);
                }
                lemma_cached_none(w, k);
            },
        }
    }
}

proof fn lemma_cached_update(v: Seq<EntryView>, j: int, x: EntryView)
    requires
        distinct_keys(v),
        0 <= j < v.len(),
        x.0 == v[j].0,
    ensures
        distinct_keys(v.update(j, x)),
        cached(v.update(j, x), x.0) == Some((x.1, x.2, x.3)),
        forall|k: Seq<char>| k != x.0 ==> #[trigger] cached(v.update(j, x), k) == cached(v, k),
{
    let w = v.update(j, x);
    assert forall|a: int, b: int| 0 <= a < w.len() && 0 <= b < w.len() && #[trigger] w[a].0 == #[trigger] w[b].0 implies a == b by {
        assert(v[a].0 == w[a].0 && v[b].0 == w[b].0);
    }
    lemma_cached_at(w, j);
    assert forall|k: Seq<char>| k != x.0 implies #[trigger] cached(w, k) == cached(v, k) by {
        lemma_cached_index(v, k);
        match cached(v, k) {
            Some(e) => {
                let i = choose|i: int| 0 <= i < v.len() && #[trigger] v[i].0 == k && e == (v[i].1, v[i].2, v[i].3);
                assert(w[i] == v[i]);
                lemma_cached_at(w, i);
            },
            None => {
                assert forall|i: int| 0 <= i < w.len() implies #[trigger] w[i].0 != k by {
                    if i != j {
                        assert(w[i] == v[i]);
                    }
                }
                lemma_cached_none(w, k);
            },
        }
    }
}

proof fn lemma_cached_push(v: Seq<EntryView>, x: EntryView)
    requires
        distinct_keys(v),
        forall|j: int| 0 <= j < v.len() ==> #[trigger] v[j].0 != x.0,
    ensures
        distinct_keys(v.push(x)),
        cached(v.push(x), x.0) == Some((x.1, x.2, x.3)),
        forall|k: Seq<char>| k != x.0 ==> #[trigger] cached(v.push(x), k) == cached(v, k),
        total_bytes(v.push(x)) == total_bytes(v) + x.1.len(),
{
    let w = v.push(x);
    assert(w.drop_last() == v);
    assert forall|a: int, b: int| 0 <= a < w.len() && 0 <= b < w.len() && #[trigger] w[a].0 == #[trigger] w[b].0 implies a == b by {
        if a < v.len() && b < v.len() {
            assert(v[a].0 == v[b].0);
        } else if a < v.len() {
            assert(v[a].0 != x.0);
        } else if b < v.len() {
            assert(v[b].0 != x.0);
        }
    }
}

/// The entries that have not expired when entry `i` has lived `ages[i]`
/// nanoseconds, in order.
pub open spec fn unexpired(v: Seq<EntryView>, ages: Seq<u128>) -> Seq<EntryView>
    decreases v.len(),
{
    if v.len() == 0 {
        seq![]
    } else {
        let p = unexpired(v.drop_last(), ages);
        if expired(ages[v.len() - 1], v.last().2) {
            p
        } else {
            p.push(v.last())
        }
    }
}

/// The ages of the entries that `unexpired` keeps, in order.
pub open spec fn kept_ages(v: Seq<EntryView>, ages: Seq<u128>) -> Seq<u128>
    decreases v.len(),
{
    if v.len() == 0 {
        seq![]
    } else {
        let p = kept_ages(v.drop_last(), ages);
        if expired(ages[v.len() - 1], v.last().2) {
            p
        } else {
            p.push(ages[v.len() - 1])
        }
    }
}

proof fn lemma_unexpired_prefix_ages(v: Seq<EntryView>, a: Seq<u128>, b: Seq<u128>)
    requires
        a.len() >= v.len(),
        b.len() >= v.len(),
        forall|i: int| 0 <= i < v.len() ==> #[trigger] a[i] == b[i],
    ensures
        unexpired(v, a) == unexpired(v, b),
        kept_ages(v, a) == kept_ages(v, b),
    decreases v.len(),
{
    if v.len() > 0 {
        lemma_unexpired_prefix_ages(v.drop_last(), a, b);
        assert(a[v.len() - 1] == b[v.len() - 1]);
    }
}

/// Eviction is idempotent: the entries that an eviction keeps are not
/// expired at their ages, so evicting them again with the same readings
/// keeps them all.
pub proof fn lemma_evict_idempotent(v: Seq<EntryView>, ages: Seq<u128>)
    requires
        ages.len() == v.len(),
    ensures
        kept_ages(v, ages).len() == unexpired(v, ages).len(),
        unexpired(unexpired(v, ages), kept_ages(v, ages)) == unexpired(v, ages),
    decreases v.len(),
{
    if v.len() > 0 {
        let d = v.drop_last();
        let a = ages.take(d.len() as int);
        lemma_unexpired_prefix_ages(d, ages, a);
        lemma_evict_idempotent(d, a);
        let k = unexpired(v, ages);
        let ka = kept_ages(v, ages);
        let kd = unexpired(d, ages);
        let kad = kept_ages(d, ages);
        if !expired(ages[v.len() - 1], v.last().2) {
            assert(k == kd.push(v.last()));
            assert(ka == kad.push(ages[v.len() - 1]));
            assert(k.drop_last() == kd);
            lemma_unexpired_prefix_ages(kd, ka, kad);
        }
    }
}

/// What looking a key up comes to when its entry (if any) has lived `age`
/// nanoseconds: a missing key gives `EntryExpired` and changes nothing; an
/// expired entry is removed (freeing its payload's bytes) and gives
/// `EntryExpired`; a live entry gives its payload and changes nothing.
pub open spec fn lookup_outcome(
    before: Seq<EntryView>,
    after: Seq<EntryView>,
    key: Seq<char>,
    age: u128,
    r: Result<Vec<u8>, CacheError>,
) -> bool {
    match cached(before, key) {
        None => (r matches Err(CacheError::EntryExpired)) && after == before,
        Some(e) => if expired(age, e.1) {
            &&& r matches Err(CacheError::EntryExpired)
            &&& cached(after, key) is None
            &&& forall|k: Seq<char>| k != key ==> #[trigger] cached(after, k) == cached(before, k)
            &&& total_bytes(after) + e.0.len() == total_bytes(before)
        } else {
            (r matches Ok(p) && p@ == e.0) && after == before
        },
    }
}

/// What storing a payload comes to: when it does not fit next to the
/// entries, `AllocationFailure` and nothing changes; otherwise the key holds
/// the payload, time to live and creation time, every other key keeps its
/// entry, and the size grows by the payload less the replaced one.
pub open spec fn store_outcome(
    before: Seq<EntryView>,
    after: Seq<EntryView>,
    capacity: nat,
    key: Seq<char>,
    payload: Seq<u8>,
    ttl_secs: u64,
    created_at: Instant,
    r: Result<(), CacheError>,
) -> bool {
    if total_bytes(before) + payload.len() > capacity {
        (r matches Err(CacheError::AllocationFailure)) && after == before
    } else {
        &&& r is Ok
        &&& cached(after, key) == Some((payload, ttl_secs, created_at))
        &&& forall|k: Seq<char>| k != key ==> #[trigger] cached(after, k) == cached(before, k)
        &&& total_bytes(after) + (match cached(before, key) {
            Some(e) => e.0.len(),
            None => 0,
        }) == total_bytes(before) + payload.len()
    }
}

/// The entries that a store of `n` bytes sees: all of them when the payload
/// fits, else those not expired at the given ages.
pub open spec fn room_made(v: Seq<EntryView>, capacity: nat, n: nat, ages: Seq<u128>) -> Seq<EntryView> {
    if total_bytes(v) + n <= capacity {
        v
    } else {
        unexpired(v, ages)
    }
}

/// The byte cache.
pub struct ZeroCopyCache {
    pub max_capacity_bytes: usize,
    pub current_size_bytes: usize,
    pub registry: Vec<(String, CacheValue)>,
}

impl ZeroCopyCache {
    /// Well-formedness: keys are distinct, the size counter is the total
    /// payload size, and it stays within the capacity.
    pub open spec fn wf(&self) -> bool {
        &&& distinct_keys(entries_view(self.registry@))
        &&& self.current_size_bytes == total_bytes(entries_view(self.registry@))
        &&& self.current_size_bytes <= self.max_capacity_bytes
    }

    /// The entries (key, payload, time to live).
    pub open spec fn contents(&self) -> Seq<EntryView> {
        entries_view(self.registry@)
    }

    pub fn new(max_capacity_bytes: usize) -> (c: Self)
        ensures
            c.wf(),
            c.max_capacity_bytes == max_capacity_bytes,
            c.contents().len() == 0,
    {
        let c = Self { max_capacity_bytes, current_size_bytes: 0, registry: Vec::new() };
        assert(entries_view(c.registry@) =~= Seq::empty());
        c
    }

    fn slot(&self, key: &str) -> (r: Option<usize>)
        ensures
            match r {
                Some(j) => j < self.contents().len() && self.contents()[j as int].0 == key@,
                None => forall|j: int| 0 <= j < self.contents().len() ==> #[trigger] self.contents()[j].0 != key@,
            },
    {
        let ghost v = self.contents();
        let mut i: usize = 0;
        while i < self.registry.len()
            invariant
                i <= self.registry@.len(),
                v == self.contents(),
                forall|j: int| 0 <= j < i ==> #[trigger] v[j].0 != key@,
            decreases self.registry@.len() - i,
        {
            if text_is(self.registry[i].0.as_str(), key) {
                return Some(i);
            }
            i += 1;
        }
        None
    }

    /// Removes the entry of a key, if there is one, freeing its payload's bytes.
    pub fn remove_entry(&mut self, key: &str)
        requires
            old(self).wf(),
        ensures
            final(self).wf(),
            final(self).max_capacity_bytes == old(self).max_capacity_bytes,
            cached(final(self).contents(), key@) is None,
            forall|k: Seq<char>| k != key@ ==> #[trigger] cached(final(self).contents(), k) == cached(old(self).contents(), k),
            match cached(old(self).contents(), key@) {
                Some(e) => total_bytes(final(self).contents()) + e.0.len() == total_bytes(old(self).contents()),
                None => final(self).contents() == old(self).contents(),
            },
    {
        match self.slot(key) {
            Some(j) => {
                let ghost v = self.contents();
                proof { lemma_cached_at(v, j as int); }
                let (_, removed) = self.registry.remove(j);
                proof {
                    lemma_cached_remove(v, j as int);
                    lemma_total_remove(v, j as int);
                    assert(self.contents() =~= v.remove(j as int));
                }
                self.current_size_bytes = self.current_size_bytes.saturating_sub(removed.payload.len());
            },
            None => {
                proof { lemma_cached_none(self.contents(), key@); }
            },
        }
    }

    /// Removes exactly the entries that have expired when entry `i` has
    /// lived `ages[i]` nanoseconds, keeping the others in order and freeing
    /// the removed payloads' bytes.
    pub fn evict_expired_at(&mut self, ages: &Vec<u128>)
        requires
            old(self).wf(),
            ages@.len() == old(self).contents().len(),
        ensures
            final(self).wf(),
            final(self).max_capacity_bytes == old(self).max_capacity_bytes,
            final(self).contents() == unexpired(old(self).contents(), ages@),
    {
        let ghost start = self.contents();
        let n = ages.len();
        let mut o: usize = 0;
        let mut i: usize = 0;
        while o < n
            invariant
                self.wf(),
                self.max_capacity_bytes == old(self).max_capacity_bytes,
                start == old(self).contents(),
                n == ages@.len(),
                n == start.len(),
                o <= n,
                i == unexpired(start.take(o as int), ages@).len(),
                self.contents() == unexpired(start.take(o as int), ages@) + start.skip(o as int),
            decreases n - o,
        {
            let ghost kept = unexpired(start.take(o as int), ages@);
            let ghost v = self.contents();
            assert(start.take(o + 1).drop_last() =~= start.take(o as int));
            assert(start.take(o + 1).last() == start[o as int]);
            assert(v[i as int] == start[o as int]);
            let len = self.registry.len();
            assert(i < len);
            if self.registry[i].1.expired_after(ages[o]) {
                let (_, removed) = self.registry.remove(i);
                proof {
                    lemma_cached_remove(v, i as int);
                    lemma_total_remove(v, i as int);
                    assert(self.contents() =~= v.remove(i as int));
                    assert(v.remove(i as int) =~= kept + start.skip(o + 1));
                }
                self.current_size_bytes = self.current_size_bytes.saturating_sub(removed.payload.len());
            } else {
                assert(v =~= kept.push(start[o as int]) + start.skip(o + 1));
                i += 1;
            }
            o += 1;
        }
        assert(start.take(n as int) =~= start);
        assert(start.skip(n as int) =~= Seq::<EntryView>::empty());
        assert(self.contents() =~= unexpired(start, ages@));
    }

    /// The time each entry has lived, in nanoseconds, in order (this reads
    /// the clock once per entry).
    fn entry_ages(&self) -> (ages: Vec<u128>)
        ensures
            ages@.len() == self.registry@.len(),
    {
        let mut ages: Vec<u128> = Vec::new();
        let mut i: usize = 0;
        while i < self.registry.len()
            invariant
                i <= self.registry@.len(),
                ages@.len() == i,
            decreases self.registry@.len() - i,
        {
            ages.push(elapsed_nanos(&self.registry[i].1.created_at));
            i += 1;
        }
        ages
    }

    /// Removes every entry that is expired now: each entry's age is read
    /// from the clock and the entries expired at those ages are removed
    /// (see `evict_expired_at`).
    pub fn evict_expired_entries(&mut self)
        requires
            old(self).wf(),
        ensures
            final(self).wf(),
            final(self).max_capacity_bytes == old(self).max_capacity_bytes,
            exists|ages: Seq<u128>|
                ages.len() == old(self).contents().len() && final(self).contents() == unexpired(
                    old(self).contents(),
                    ages,
                ),
    {
        let ages = self.entry_ages();
        self.evict_expired_at(&ages);
    }

    /// Looks a key up when its entry (if any) has lived `age` nanoseconds:
    /// a live entry's payload, or `EntryExpired` for a missing key or an
    /// expired entry (which is then removed).
    pub fn get_at(&mut self, key: &str, age: u128) -> (r: Result<Vec<u8>, CacheError>)
        requires
            old(self).wf(),
        ensures
            final(self).wf(),
            final(self).max_capacity_bytes == old(self).max_capacity_bytes,
            lookup_outcome(old(self).contents(), final(self).contents(), key@, age, r),
    {
        match self.slot(key) {
            None => {
                proof { lemma_cached_none(self.contents(), key@); }
                Err(CacheError::EntryExpired)
            },
            Some(j) => {
                proof { lemma_cached_at(self.contents(), j as int); }
                if self.registry[j].1.expired_after(age) {
                    self.remove_entry(key);
                    return Err(CacheError::EntryExpired);
                }
                let source = &self.registry[j].1.payload;
                let mut out: Vec<u8> = Vec::new();
                let mut i: usize = 0;
                while i < source.len()
                    invariant
                        i <= source@.len(),
                        out@ == source@.take(i as int),
                    decreases source@.len() - i,
                {
                    out.push(source[i]);
                    assert(out@ =~= source@.take(i + 1));
                    i += 1;
                }
                assert(source@.take(source@.len() as int) =~= source@);
                Ok(out)
            },
        }
    }

    /// The payload stored under a key: its entry's age is read from the
    /// clock and the lookup goes as `get_at` at that age.
    pub fn get(&mut self, key: &str) -> (r: Result<Vec<u8>, CacheError>)
        requires
            old(self).wf(),
        ensures
            final(self).wf(),
            final(self).max_capacity_bytes == old(self).max_capacity_bytes,
            exists|age: u128| lookup_outcome(old(self).contents(), final(self).contents(), key@, age, r),
    {
        match self.slot(key) {
            None => {
                proof { lemma_cached_none(self.contents(), key@); }
                let r = Err(CacheError::EntryExpired);
                assert(lookup_outcome(old(self).contents(), self.contents(), key@, 0, r));
                r
            },
            Some(j) => {
                let age = elapsed_nanos(&self.registry[j].1.created_at);
                self.get_at(key, age)
            },
        }
    }

    /// Stores a payload under a key with the given creation time, when it
    /// fits next to the entries; replacing a key frees the old payload's
    /// bytes.  Otherwise `AllocationFailure`, with nothing changed.
    pub fn store_at(&mut self, key: String, payload: Vec<u8>, ttl_secs: u64, created_at: Instant) -> (r: Result<(), CacheError>)
        requires
            old(self).wf(),
        ensures
            final(self).wf(),
            final(self).max_capacity_bytes == old(self).max_capacity_bytes,
            store_outcome(
                old(self).contents(),
                final(self).contents(),
                old(self).max_capacity_bytes as nat,
                key@,
                payload@,
                ttl_secs,
                created_at,
                r,
            ),
    {
        let payload_size = payload.len();
        if payload_size > self.max_capacity_bytes - self.current_size_bytes {
            return Err(CacheError::AllocationFailure);
        }
        let ghost mid = self.contents();
        let new_value = CacheValue { payload, created_at, ttl_secs };
        match self.slot(key.as_str()) {
            Some(j) => {
                let ghost x = (key@, new_value.payload@, ttl_secs, created_at);
                proof { lemma_cached_at(mid, j as int); }
                let old_len = self.registry[j].1.payload.len();
                self.registry.set(j, (key, new_value));
                proof {
                    assert(self.contents() =~= mid.update(j as int, x));
                    lemma_cached_update(mid, j as int, x);
                    lemma_total_update(mid, j as int, x);
                }
                self.current_size_bytes = (self.current_size_bytes + payload_size).saturating_sub(old_len);
            },
            None => {
                let ghost x = (key@, new_value.payload@, ttl_secs, created_at);
                proof { lemma_cached_none(mid, key@); }
                self.registry.push((key, new_value));
                proof {
                    assert(self.contents() =~= mid.push(x));
                    lemma_cached_push(mid, x);
                }
                self.current_size_bytes = self.current_size_bytes + payload_size;
            },
        }
        Ok(())
    }

    /// Stores a payload under a key for `ttl_secs` seconds.  When it does
    /// not fit, each entry's age is read from the clock and the expired
    /// entries are evicted first (see `evict_expired_at`); the payload is
    /// then stored, stamped with the current time, as `store_at` does: it
    /// fails with `AllocationFailure` exactly when it does not fit next to
    /// the entries that remain.
    pub fn put(&mut self, key: String, payload: Vec<u8>, ttl_secs: u64) -> (r: Result<(), CacheError>)
        requires
            old(self).wf(),
        ensures
            final(self).wf(),
            final(self).max_capacity_bytes == old(self).max_capacity_bytes,
            exists|ages: Seq<u128>, created_at: Instant|
                ages.len() == old(self).contents().len() && store_outcome(
                    room_made(
                        old(self).contents(),
                        old(self).max_capacity_bytes as nat,
                        payload@.len(),
                        ages,
                    ),
                    final(self).contents(),
                    old(self).max_capacity_bytes as nat,
                    key@,
                    payload@,
                    ttl_secs,
                    created_at,
                    r,
                ),
    {
        let ghost before = self.contents();
        let ghost cap = self.max_capacity_bytes as nat;
        let ghost n = payload@.len();
        let ghost payload_view = payload@;
        let ghost key_view = key@;
        let ghost mut seen: Seq<u128> = Seq::new(before.len(), |i: int| 0u128);
        if payload.len() > self.max_capacity_bytes - self.current_size_bytes {
            let ages = self.entry_ages();
            self.evict_expired_at(&ages);
            proof { seen = ages@; }
        }
        assert(self.contents() == room_made(before, cap, n, seen));
        let created_at = instant_now();
        let r = self.store_at(key, payload, ttl_secs, created_at);
        assert(store_outcome(room_made(before, cap, n, seen), self.contents(), cap, key_view, payload_view, ttl_secs, created_at, r));
        r
    }
}

} // verus!
