//! Latency statistics for the hosted benchmark harness: minimum, maximum,
//! sum, count, and a histogram over fixed-width buckets.

use vstd::prelude::*;

verus! {

/// Number of histogram buckets.
pub const LATENCY_BUCKETS: usize = 20;

/// Width of one histogram bucket in nanoseconds.
pub const BUCKET_WIDTH_NANOS: u64 = 10_000;

/// The histogram bucket a measurement falls into: ten-microsecond steps,
/// the last bucket catching everything beyond.
pub open spec fn bucket_index(nanos: u64) -> int {
    if nanos / BUCKET_WIDTH_NANOS < (LATENCY_BUCKETS - 1) as u64 {
        (nanos / BUCKET_WIDTH_NANOS) as int
    } else {
        LATENCY_BUCKETS - 1
    }
}

/// Accumulated latency statistics.
pub struct LatencyStats {
    pub min: u64,
    pub max: u64,
    pub sum: u64,
    pub count: u64,
    pub buckets: Vec<u64>,
}

impl LatencyStats {
    /// A fresh tracker: counters at zero, the minimum at the largest
    /// value so that the first measurement becomes the minimum.
    pub fn new() -> (r: Self)
        ensures
            r.min == u64::MAX,
            r.max == 0,
            r.sum == 0,
            r.count == 0,
            r.buckets@.len() == LATENCY_BUCKETS,
            forall|i: int| 0 <= i < LATENCY_BUCKETS ==> (#[trigger] r.buckets@[i]) == 0,
    {
        let mut buckets: Vec<u64> = Vec::new();
        let mut i: usize = 0;
        while i < LATENCY_BUCKETS
            invariant
                i <= LATENCY_BUCKETS,
                buckets@.len() == i,
                forall|j: int| 0 <= j < i ==> (#[trigger] buckets@[j]) == 0,
            decreases LATENCY_BUCKETS - i,
        {
            buckets.push(0);
            i = i + 1;
        }
        LatencyStats { min: u64::MAX, max: 0, sum: 0, count: 0, buckets }
    }

    /// Records one latency measurement in nanoseconds: folds it into the
    /// min/max/sum/count summary and bumps its histogram bucket.
    pub fn update(&mut self, nanos: u64)
        requires
            old(self).buckets@.len() == LATENCY_BUCKETS,
            old(self).sum + nanos <= u64::MAX,
            old(self).count < u64::MAX,
            old(self).buckets@[bucket_index(nanos)] < u64::MAX,
        ensures
            final(self).min == (if nanos < old(self).min {
                nanos
            } else {
                old(self).min
            }),
            final(self).max == (if nanos > old(self).max {
                nanos
            } else {
                old(self).max
            }),
            final(self).sum == old(self).sum + nanos,
            final(self).count == old(self).count + 1,
            final(self).buckets@ == old(self).buckets@.update(
                bucket_index(nanos),
                (old(self).buckets@[bucket_index(nanos)] + 1) as u64,
            ),
    {
        if nanos < self.min {
            self.min = nanos;
        }
        if nanos > self.max {
            self.max = nanos;
        }
        self.sum = self.sum + nanos;
        self.count = self.count + 1;
        let scaled = nanos / BUCKET_WIDTH_NANOS;
        let idx: usize = if scaled < (LATENCY_BUCKETS - 1) as u64 {
            scaled as usize
        } else {
            LATENCY_BUCKETS - 1
        };
        let cur = *vstd::slice::slice_index_get(self.buckets.as_slice(), idx);
        self.buckets[idx] = cur + 1;
    }
}

} // verus!
