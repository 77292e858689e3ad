use vstd::prelude::*;

use hashlink::LinkedHashMap;
use std::collections::hash_map::RandomState;
use std::time::Instant;

pub mod bucket;
pub mod clock;
pub mod rate;
pub mod recency_map;

pub use bucket::Bucket;
pub use rate::Rate;

use crate::recency_map::distinct_keys;
use crate::recency_map::entries;
use crate::recency_map::find_key;
use crate::recency_map::lemma_distinct_push;
use crate::recency_map::lemma_distinct_remove;
use crate::recency_map::lemma_find_key_absent;
use crate::recency_map::lemma_find_key_found;
use crate::recency_map::map_front;
use crate::recency_map::map_insert_new;
use crate::recency_map::map_is_empty;
use crate::recency_map::map_len;
use crate::recency_map::map_new;
use crate::recency_map::map_pop_front;
use crate::recency_map::map_remove;

verus! {

/// Why a withdrawal was denied.
#[derive(Debug, Clone, Copy, PartialEq, Eq, Structural)]
pub enum Error {
    /// High contention to update the number of available tokens. Reserved for
    /// a withdrawal that keeps losing a data race; every withdrawal here holds
    /// exclusive access, so this registry never returns it.
    HighContention,
    /// Not enough tokens available.
    NotEnoughTokens,
}

/// A registry of per-key token buckets: a recency-ordered mapping from key to
/// bucket state, a shared refill rate, a grace buffer for eviction, and the
/// reference instant that elapsed time is measured from.
pub struct Buckets {
    pub map: LinkedHashMap<u64, (u64, u64), RandomState>,
    pub rate: Rate,
    pub buffer_ms: u64,
    pub start: Instant,
}

/// The bucket stored in one map entry.
pub open spec fn bucket_of(v: (u64, u64)) -> Bucket {
    Bucket { available: v.0, refill_at_ms: v.1 }
}

/// Whether an entry has been idle long enough to evict: the instant at which
/// its bucket is full again, plus the grace buffer, has gone by.
pub open spec fn expired(v: (u64, u64), rate: Rate, buffer_ms: u64, elapsed_ms: u64) -> bool {
    bucket_of(v).full_at_spec(rate) + buffer_ms < elapsed_ms
}

/// How many entries a sweep at `elapsed_ms` removes: the length of the longest
/// expired prefix, in oldest-touched-first order. The sweep stops at the first
/// survivor, so a stale entry behind one that is still within its grace period
/// is left alone.
pub open spec fn swept_prefix(
    s: Seq<(u64, (u64, u64))>,
    rate: Rate,
    buffer_ms: u64,
    elapsed_ms: u64,
) -> int
    decreases s.len(),
{
    if s.len() == 0 {
        0
    } else if !expired(s[0].1, rate, buffer_ms, elapsed_ms) {
        0
    } else {
        1 + swept_prefix(s.drop_first(), rate, buffer_ms, elapsed_ms)
    }
}

/// The entries left after a sweep at `elapsed_ms`.
pub open spec fn swept(
    s: Seq<(u64, (u64, u64))>,
    rate: Rate,
    buffer_ms: u64,
    elapsed_ms: u64,
) -> Seq<(u64, (u64, u64))> {
    s.skip(swept_prefix(s, rate, buffer_ms, elapsed_ms))
}

/// The entries left once the key's entry, if any, is taken out.
pub open spec fn without_key(s: Seq<(u64, (u64, u64))>, key: u64) -> Seq<(u64, (u64, u64))> {
    if find_key(s, key) == -1 {
        s
    } else {
        s.remove(find_key(s, key))
    }
}

/// The bucket a lookup hands back: the key's stored bucket where there is one,
/// else a fresh bucket at full capacity whose first refill falls due one
/// interval from now.
pub open spec fn lookup_bucket(
    s: Seq<(u64, (u64, u64))>,
    key: u64,
    rate: Rate,
    elapsed_ms: u64,
) -> Bucket {
    if find_key(s, key) == -1 {
        Bucket { available: rate.max, refill_at_ms: (elapsed_ms + rate.interval_ms) as u64 }
    } else {
        bucket_of(s[find_key(s, key)].1)
    }
}

/// What one `try_acquire` pass at `elapsed_ms` does to the registry: sweep the
/// expired prefix, find or create the key's bucket, refill it as of
/// `elapsed_ms`, withdraw, and re-attach the bucket at the most-recent end.
pub open spec fn acquire_post(
    pre: Buckets,
    post: Buckets,
    key: u64,
    qty: u64,
    elapsed_ms: u64,
    r: Result<u64, Error>,
) -> bool {
    let sw = swept(pre.entries(), pre.rate, pre.buffer_ms, elapsed_ms);
    let b = lookup_bucket(sw, key, pre.rate, elapsed_ms).refilled(elapsed_ms, pre.rate);
    let after = b.acquired(qty);
    &&& r == b.acquire_result(qty)
    &&& post.entries() == without_key(sw, key).push((key, (after.available, after.refill_at_ms)))
}

/// What one `available` pass at `elapsed_ms` does: the same sweep and
/// find-or-create, but the raw count is reported without a refill.
pub open spec fn available_post(
    pre: Buckets,
    post: Buckets,
    key: u64,
    elapsed_ms: u64,
    r: u64,
) -> bool {
    let sw = swept(pre.entries(), pre.rate, pre.buffer_ms, elapsed_ms);
    let b = lookup_bucket(sw, key, pre.rate, elapsed_ms);
    &&& r == b.available
    &&& post.entries() == without_key(sw, key).push((key, (b.available, b.refill_at_ms)))
}

impl Buckets {
    /// The map's entries, oldest touch first.
    pub open spec fn entries(self) -> Seq<(u64, (u64, u64))> {
        entries(self.map)
    }

    /// Every key appears once, every stored bucket respects the capacity, and
    /// the shared rate is well formed.
    pub open spec fn wf(self) -> bool {
        &&& self.rate.wf()
        &&& distinct_keys(self.entries())
        &&& forall|i: int|
            0 <= i < self.entries().len() ==> bucket_of(
                #[trigger] self.entries()[i].1,
            ).inv(self.rate)
    }

    /// The configuration and reference instant are untouched by an operation.
    pub open spec fn same_config(self, other: Buckets) -> bool {
        &&& other.rate == self.rate
        &&& other.buffer_ms == self.buffer_ms
        &&& other.start == self.start
    }

    /// Build an empty registry refilling `refill` tokens every `interval_ms`
    /// milliseconds up to `max`, evicting idle buckets `buffer_ms` past their
    /// full-refill instant.
    pub fn new(refill: u64, interval_ms: u64, max: u64, buffer_ms: u64) -> (r: Buckets)
        requires
            refill >= 1,
            interval_ms >= 1,
            max >= 1,
        ensures
            r.wf(),
            r.entries() == Seq::<(u64, (u64, u64))>::empty(),
            r.rate == (Rate { refill, interval_ms, max }),
            r.buffer_ms == buffer_ms,
    {
        Buckets {
            map: map_new(),
            rate: Rate::new(refill, interval_ms, max),
            buffer_ms,
            start: clock::monotonic_now(),
        }
    }

    /// Walk the map from the oldest-touched end and drop every entry whose
    /// full-refill instant plus the grace buffer lies before `elapsed_ms`,
    /// stopping at the first survivor.
    fn remove_expired(&mut self, elapsed_ms: u64)
        requires
            old(self).wf(),
        ensures
            final(self).wf(),
            old(self).same_config(*final(self)),
            final(self).entries() == swept(
                old(self).entries(),
                old(self).rate,
                old(self).buffer_ms,
                elapsed_ms,
            ),
    {
        loop
            invariant
                self.wf(),
                old(self).same_config(*self),
                swept(self.entries(), self.rate, self.buffer_ms, elapsed_ms) == swept(
                    old(self).entries(),
                    old(self).rate,
                    old(self).buffer_ms,
                    elapsed_ms,
                ),
            ensures
                self.wf(),
                old(self).same_config(*self),
                self.entries() == swept(
                    old(self).entries(),
                    old(self).rate,
                    old(self).buffer_ms,
                    elapsed_ms,
                ),
            decreases self.entries().len(),
        {
            match map_front(&self.map) {
                None => {
                    proof {
                        assert(self.entries().skip(0) =~= self.entries());
                    }
                    break;
                },
                Some(kv) => {
                    let b = Bucket { available: kv.1.0, refill_at_ms: kv.1.1 };
                    let full_at = b.full_at(&self.rate);
                    if full_at.saturating_add(self.buffer_ms) >= elapsed_ms {
                        proof {
                            assert(!expired(self.entries()[0].1, self.rate, self.buffer_ms,
                                elapsed_ms));
                            assert(self.entries().skip(0) =~= self.entries());
                        }
                        break;
                    }
                    let ghost pre = self.entries();
                    let _ = map_pop_front(&mut self.map);
                    proof {
                        lemma_swept_expired_head(pre, self.rate, self.buffer_ms, elapsed_ms);
                        assert(forall|j: int|
                            0 <= j < pre.drop_first().len() ==> pre.drop_first()[j] == pre[j + 1]);
                    }
                },
            }
        }
    }

    /// Sweep, then find or create the key's bucket, detaching its entry; the
    /// caller re-attaches the bucket at the most-recent end when done with it.
    fn get(&mut self, key: u64, elapsed_ms: u64) -> (b: Bucket)
        requires
            old(self).wf(),
            elapsed_ms + old(self).rate.interval_ms <= u64::MAX,
        ensures
            final(self).wf(),
            old(self).same_config(*final(self)),
            final(self).entries() == without_key(
                swept(old(self).entries(), old(self).rate, old(self).buffer_ms, elapsed_ms),
                key,
            ),
            b == lookup_bucket(
                swept(old(self).entries(), old(self).rate, old(self).buffer_ms, elapsed_ms),
                key,
                old(self).rate,
                elapsed_ms,
            ),
            b.inv(old(self).rate),
            find_key(final(self).entries(), key) == -1,
    {
        self.remove_expired(elapsed_ms);
        let ghost sw = self.entries();
        let r = map_remove(&mut self.map, key);
        proof {
            let i = find_key(sw, key);
            if i == -1 {
                lemma_find_key_absent(sw, key);
            } else {
                lemma_find_key_found(sw, key);
                lemma_distinct_remove(sw, i);
                lemma_find_key_gone(sw, key);
                assert(forall|j: int|
                    0 <= j < sw.remove(i).len() ==> sw.remove(i)[j] == (if j < i {
                        sw[j]
                    } else {
                        sw[j + 1]
                    }));
            }
        }
        match r {
            Some(v) => Bucket { available: v.0, refill_at_ms: v.1 },
            None => Bucket::new(self.rate.max, elapsed_ms + self.rate.interval_ms),
        }
    }

    /// Re-attach a bucket under a key that has no entry, at the most-recent
    /// end of the map.
    fn reattach(&mut self, key: u64, b: Bucket)
        requires
            old(self).wf(),
            find_key(old(self).entries(), key) == -1,
            b.inv(old(self).rate),
        ensures
            final(self).wf(),
            old(self).same_config(*final(self)),
            final(self).entries() == old(self).entries().push(
                (key, (b.available, b.refill_at_ms)),
            ),
    {
        let ghost pre = self.entries();
        map_insert_new(&mut self.map, key, (b.available, b.refill_at_ms));
        proof {
            lemma_find_key_absent(pre, key);
            lemma_distinct_push(pre, key, (b.available, b.refill_at_ms));
            assert(forall|j: int|
                0 <= j < pre.len() ==> self.entries()[j] == pre[j]);
        }
    }

    /// Acquire `qty` tokens for `key` as of `elapsed_ms` on the registry's
    /// clock: expired entries are swept, the key's bucket is found or created
    /// at full capacity, refilled up to `elapsed_ms`, and the withdrawal
    /// succeeds exactly when enough tokens are then available.
    pub fn try_acquire_at(&mut self, key: u64, qty: u64, elapsed_ms: u64) -> (r: Result<u64, Error>)
        requires
            old(self).wf(),
            elapsed_ms + old(self).rate.interval_ms <= u64::MAX,
        ensures
            final(self).wf(),
            old(self).same_config(*final(self)),
            acquire_post(*old(self), *final(self), key, qty, elapsed_ms, r),
    {
        let mut b = self.get(key, elapsed_ms);
        b.refill(elapsed_ms, &self.rate);
        let r = b.try_acquire(qty);
        self.reattach(key, b);
        r
    }

    /// Report the key's current token count as of `elapsed_ms`, without
    /// bringing it up to date first: a caller that never acquires may see a
    /// stale, lower-than-true count. Sweeps and touches the key all the same.
    pub fn available_at(&mut self, key: u64, elapsed_ms: u64) -> (r: u64)
        requires
            old(self).wf(),
            elapsed_ms + old(self).rate.interval_ms <= u64::MAX,
        ensures
            final(self).wf(),
            old(self).same_config(*final(self)),
            available_post(*old(self), *final(self), key, elapsed_ms, r),
    {
        let b = self.get(key, elapsed_ms);
        let r = b.available();
        self.reattach(key, b);
        r
    }

    /// Acquire `qty` tokens for `key` at the instant the clock reads now.
    pub fn try_acquire(&mut self, key: u64, qty: u64) -> (r: Result<u64, Error>)
        requires
            old(self).wf(),
        ensures
            final(self).wf(),
            old(self).same_config(*final(self)),
            exists|e: u64|
                e + old(self).rate.interval_ms <= u64::MAX && acquire_post(
                    *old(self),
                    *final(self),
                    key,
                    qty,
                    e,
                    r,
                ),
    {
        let e = self.elapsed_now();
        let r = self.try_acquire_at(key, qty, e);
        proof {
            assert(acquire_post(*old(self), *self, key, qty, e, r));
        }
        r
    }

    /// Report the key's current token count at the instant the clock reads
    /// now, without a refill first.
    pub fn available(&mut self, key: u64) -> (r: u64)
        requires
            old(self).wf(),
        ensures
            final(self).wf(),
            old(self).same_config(*final(self)),
            exists|e: u64|
                e + old(self).rate.interval_ms <= u64::MAX && available_post(
                    *old(self),
                    *final(self),
                    key,
                    e,
                    r,
                ),
    {
        let e = self.elapsed_now();
        let r = self.available_at(key, e);
        proof {
            assert(available_post(*old(self), *self, key, e, r));
        }
        r
    }

    /// The number of live entries.
    pub fn len(&self) -> (n: usize)
        ensures
            n == self.entries().len(),
    {
        map_len(&self.map)
    }

    /// Whether no entry is live.
    pub fn is_empty(&self) -> (r: bool)
        ensures
            r == (self.entries().len() == 0),
    {
        map_is_empty(&self.map)
    }

    /// Milliseconds since the registry was built, clamped so that one more
    /// interval still fits; the clock itself promises nothing of the value.
    fn elapsed_now(&self) -> (e: u64)
        requires
            self.rate.wf(),
        ensures
            e + self.rate.interval_ms <= u64::MAX,
    {
        let e = clock::elapsed_ms(&self.start);
        let cap = u64::MAX - self.rate.interval_ms;
        if e <= cap {
            e
        } else {
            cap
        }
    }
}

/// Dropping an expired oldest entry does not change what a sweep leaves.
proof fn lemma_swept_expired_head(
    s: Seq<(u64, (u64, u64))>,
    rate: Rate,
    buffer_ms: u64,
    elapsed_ms: u64,
)
    requires
        s.len() > 0,
        expired(s[0].1, rate, buffer_ms, elapsed_ms),
    ensures
        swept(s, rate, buffer_ms, elapsed_ms) == swept(s.drop_first(), rate, buffer_ms, elapsed_ms),
{
    lemma_swept_prefix_bounds(s.drop_first(), rate, buffer_ms, elapsed_ms);
    let p = swept_prefix(s.drop_first(), rate, buffer_ms, elapsed_ms);
    assert(s.skip(1 + p) =~= s.drop_first().skip(p));
}

/// A sweep removes between none and all of the entries.
proof fn lemma_swept_prefix_bounds(
    s: Seq<(u64, (u64, u64))>,
    rate: Rate,
    buffer_ms: u64,
    elapsed_ms: u64,
)
    ensures
        0 <= swept_prefix(s, rate, buffer_ms, elapsed_ms) <= s.len(),
    decreases s.len(),
{
    if s.len() > 0 && expired(s[0].1, rate, buffer_ms, elapsed_ms) {
        lemma_swept_prefix_bounds(s.drop_first(), rate, buffer_ms, elapsed_ms);
    }
}

/// Law: a key with no entry is handed a brand-new bucket holding the full
/// capacity, whose first refill falls due one interval from now.
pub proof fn lemma_fresh_bucket_full(
    s: Seq<(u64, (u64, u64))>,
    key: u64,
    rate: Rate,
    elapsed_ms: u64,
)
    requires
        find_key(s, key) == -1,
    ensures
        lookup_bucket(s, key, rate, elapsed_ms).available == rate.max,
{
}

/// Law: once elapsed time passes the oldest entry's full-refill instant plus
/// the grace buffer, a sweep removes that entry; a later access under its key
/// then starts from a brand-new full bucket. (A stale entry sitting behind a
/// more recently touched survivor is the one case the sweep leaves in place.)
pub proof fn lemma_oldest_expired_swept(
    s: Seq<(u64, (u64, u64))>,
    rate: Rate,
    buffer_ms: u64,
    elapsed_ms: u64,
)
    requires
        distinct_keys(s),
        s.len() > 0,
        bucket_of(s[0].1).full_at_spec(rate) + buffer_ms < elapsed_ms,
    ensures
        find_key(swept(s, rate, buffer_ms, elapsed_ms), s[0].0) == -1,
        lookup_bucket(
            swept(s, rate, buffer_ms, elapsed_ms),
            s[0].0,
            rate,
            elapsed_ms,
        ).available == rate.max,
{
    lemma_swept_prefix_bounds(s.drop_first(), rate, buffer_ms, elapsed_ms);
    lemma_swept_prefix_bounds(s, rate, buffer_ms, elapsed_ms);
    let k = swept_prefix(s, rate, buffer_ms, elapsed_ms);
    assert(k >= 1);
    let t = swept(s, rate, buffer_ms, elapsed_ms);
    assert forall|j: int| 0 <= j < t.len() implies t[j].0 != s[0].0 by {
        assert(t[j] == s[k + j]);
    }
    lemma_find_key_absent(t, s[0].0);
}

/// With distinct keys, taking out the found entry leaves no entry under the
/// key.
proof fn lemma_find_key_gone(s: Seq<(u64, (u64, u64))>, key: u64)
    requires
        distinct_keys(s),
        find_key(s, key) != -1,
    ensures
        find_key(s.remove(find_key(s, key)), key) == -1,
{
    let i = find_key(s, key);
    lemma_find_key_found(s, key);
    let t = s.remove(i);
    assert forall|j: int| 0 <= j < t.len() implies t[j].0 != key by {
        if j < i {
            assert(t[j] == s[j]);
        } else {
            assert(t[j] == s[j + 1]);
        }
    }
    lemma_find_key_absent(t, key);
}

} // verus!
