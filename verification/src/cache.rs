//! Freshness-bounded, single-slot telemetry cache.
//!
//! One cache instance holds the most recent snapshot of one data domain,
//! together with the time it was stored. A snapshot is handed out only
//! while it is no older than the configured time-to-live; an expired or
//! empty slot makes the caller recompute and store before reading. The
//! slot is replaced wholesale, never field by field, so a reader sees
//! either the prior snapshot or the new one and never a mix. Callers
//! serialize access with a lock held around the recheck-recompute-store
//! sequence; that lock lives outside the library.

use vstd::prelude::*;

verus! {

/// The mathematical state of a cache: its bound and its slot.
pub struct CacheState<T> {
    /// Maximum age, in the caller's clock units, at which a stored
    /// snapshot may still be handed out.
    pub ttl: u64,
    /// The stored snapshot and the time it was stored, if any.
    pub slot: Option<(T, u64)>,
}

/// A fresh, empty cache with bound `ttl`.
pub open spec fn cache_new<T>(ttl: u64) -> CacheState<T> {
    CacheState { ttl, slot: None }
}

/// The slot after storing `value` at time `now`.
pub open spec fn cache_store<T>(s: CacheState<T>, value: T, now: u64) -> CacheState<T> {
    CacheState { ttl: s.ttl, slot: Some((value, now)) }
}

/// A stored snapshot is fresh at `now` when it is no older than the
/// time-to-live; an empty slot never is, nor one stored in the future.
pub open spec fn cache_fresh<T>(s: CacheState<T>, now: u64) -> bool {
    match s.slot {
        Some((_, at)) => at <= now && now - at <= s.ttl,
        None => false,
    }
}

/// What a read at `now` yields: the whole stored snapshot while fresh,
/// nothing otherwise.
pub open spec fn cache_read<T>(s: CacheState<T>, now: u64) -> Option<T> {
    if cache_fresh(s, now) {
        Some((s.slot->0).0)
    } else {
        None
    }
}

/// A single-slot cache of the most recent snapshot of one data domain.
pub struct TelemetryCache<T> {
    ttl: u64,
    slot: Option<(T, u64)>,
}

impl<T> View for TelemetryCache<T> {
    type V = CacheState<T>;

    closed spec fn view(&self) -> CacheState<T> {
        CacheState { ttl: self.ttl, slot: self.slot }
    }
}

impl<T> TelemetryCache<T> {
    /// An empty cache whose snapshots expire after `ttl` clock units.
    pub fn new(ttl: u64) -> (r: TelemetryCache<T>)
        ensures
            r@ == cache_new::<T>(ttl),
    {
        TelemetryCache { ttl, slot: None }
    }

    /// Whether a caller must recompute before reading at time `now`.
    /// A waiter that blocked on the domain lock asks this again after
    /// acquiring it, so one refresh serves every waiter of the window.
    pub fn needs_refresh(&self, now: u64) -> (r: bool)
        ensures
            r == !cache_fresh(self@, now),
    {
        match &self.slot {
            Some(entry) => !(entry.1 <= now && now - entry.1 <= self.ttl),
            None => true,
        }
    }

    /// Replace the slot wholesale with a snapshot computed at `now`.
    pub fn store(&mut self, value: T, now: u64)
        ensures
            final(self)@ == cache_store(old(self)@, value, now),
    {
        self.slot = Some((value, now));
    }

    /// The stored snapshot, exactly as stored, while it is fresh at
    /// `now`; nothing once it has expired.
    pub fn read(&self, now: u64) -> (r: Option<&T>)
        ensures
            match r {
                Some(v) => cache_read(self@, now) == Some(*v),
                None => cache_read(self@, now) is None,
            },
    {
        match &self.slot {
            Some(entry) => {
                if entry.1 <= now && now - entry.1 <= self.ttl {
                    Some(&entry.0)
                } else {
                    None
                }
            },
            None => None,
        }
    }
}

/// Law: a snapshot read at time `now` is never older than the
/// time-to-live, whatever was stored before and whenever.
pub proof fn lemma_read_within_ttl<T>(s: CacheState<T>, now: u64)
    ensures
        cache_read(s, now) is Some ==> {
            let at = (s.slot->0).1;
            at <= now && now - at <= s.ttl
        },
{
}

/// Law: a store replaces the slot wholesale. A read after it yields
/// exactly the snapshot just stored or nothing, never a mix of old and
/// new fields; and the prior snapshot, read before the store, was
/// exactly the one stored earlier.
pub proof fn lemma_store_wholesale<T>(s: CacheState<T>, value: T, now: u64, later: u64)
    ensures
        ({
            let r = cache_read(cache_store(s, value, now), later);
            r is Some ==> r == Some(value)
        }),
        ({
            let r = cache_read(s, later);
            r is Some ==> r == Some((s.slot->0).0)
        }),
{
}

} // verus!
