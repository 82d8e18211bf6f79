//! Counters for cache hits and misses, kept for observability only.
//!
//! Whether statistics are recorded at all is the caller's decision: a
//! caller that does not record them simply does not call `hit` or
//! `miss`.

use vstd::prelude::*;

verus! {

/// Counter for cache hits and misses.
pub struct CacheHit {
    pub cache_hit: u32,
    pub cache_miss: u32,
}

impl CacheHit {
    /// Both counters start at zero.
    pub fn new() -> (r: CacheHit)
        ensures
            r.cache_hit == 0,
            r.cache_miss == 0,
    {
        CacheHit { cache_hit: 0, cache_miss: 0 }
    }

    /// Count one cache hit.
    pub fn hit(&mut self)
        requires
            old(self).cache_hit < u32::MAX,
        ensures
            final(self).cache_hit == old(self).cache_hit + 1,
            final(self).cache_miss == old(self).cache_miss,
    {
        self.cache_hit = self.cache_hit + 1;
    }

    /// Count one cache miss.
    pub fn miss(&mut self)
        requires
            old(self).cache_miss < u32::MAX,
        ensures
            final(self).cache_miss == old(self).cache_miss + 1,
            final(self).cache_hit == old(self).cache_hit,
    {
        self.cache_miss = self.cache_miss + 1;
    }

    /// Reset both counters to zero.
    pub fn reset(&mut self)
        ensures
            final(self).cache_hit == 0,
            final(self).cache_miss == 0,
    {
        self.cache_hit = 0;
        self.cache_miss = 0;
    }
}

} // verus!
