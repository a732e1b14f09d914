//! The streaming pipeline around the decoder: the syndrome packet, the
//! unpacking of packed syndrome words into detector indices, the
//! producer's shot pacing, and the latency/throughput accounting.
//!
//! The primary agent stamps packets and pushes them into the job queue at
//! a fixed cadence; workers pop a packet, expand its set bits into
//! detector indices, decode, and fold the observed latency into the
//! shared counters.  The decisions of both loops live here as verified
//! functions from plain values to plain values; the clock reads, the
//! cores and the console output stay outside.

use vstd::prelude::*;

verus! {

use crate::bit_utils::bit_get;

/// Number of 64-bit syndrome words carried by one packet.
pub const WORDS_PER_SHOT: usize = 160;

/// One shot of syndrome measurements: its id, the enqueue timestamp in
/// monotonic ticks, and the packed detector bits.  Copied by value; holds
/// no references.
#[derive(Clone, Copy, Debug)]
pub struct SyndromePacket {
    pub shot_id: u64,
    pub timestamp: u64,
    pub syndromes: [u64; WORDS_PER_SHOT],
}

/// The indices of the set bits among the first `k` bits of `words`, in
/// increasing order.
pub open spec fn set_bit_indices(words: Seq<u64>, k: int) -> Seq<usize>
    decreases k,
{
    if k <= 0 {
        Seq::empty()
    } else {
        set_bit_indices(words, k - 1) + (if bit_get(words, k - 1) {
            seq![(k - 1) as usize]
        } else {
            Seq::<usize>::empty()
        })
    }
}

proof fn lemma_set_bits_zero_range(words: Seq<u64>, j1: int, j2: int)
    requires
        0 <= j1 <= j2,
        forall|c: int| j1 <= c < j2 ==> !bit_get(words, c),
    ensures
        set_bit_indices(words, j2) == set_bit_indices(words, j1),
    decreases j2 - j1,
{
    if j1 < j2 {
        lemma_set_bits_zero_range(words, j1, j2 - 1);
        assert(set_bit_indices(words, j2) =~= set_bit_indices(words, j2 - 1));
    }
}

proof fn lemma_shr_zero_tail(w: u64, b: u64, c: u64)
    by (bit_vector)
    requires
        b <= c < 64,
        w >> b == 0,
    ensures
        (w >> c) & 1u64 != 1u64,
{
}

proof fn lemma_shr_step(w: u64, b: u64)
    by (bit_vector)
    requires
        b < 63,
    ensures
        (w >> b) >> 1u64 == w >> (b + 1),
{
}

proof fn lemma_shr_last(w: u64)
    by (bit_vector)
    ensures
        (w >> 63u64) >> 1u64 == 0u64,
{
}

proof fn lemma_shr_decreases(w: u64)
    by (bit_vector)
    requires
        w > 0,
    ensures
        w >> 1u64 < w,
{
}

/// Expands the set bits of the packed words into the ordered list of
/// detector indices (bit `b` of word `k` becomes index `64 k + b`).
pub fn expand_set_bits(words: &[u64]) -> (r: Vec<usize>)
    requires
        words@.len() * 64 <= usize::MAX,
    ensures
        r@ == set_bit_indices(words@, words@.len() * 64int),
{
    let n = words.len();
    let mut r: Vec<usize> = Vec::new();
    let mut k: usize = 0;
    while k < n
        invariant
            k <= n,
            n == words@.len(),
            n * 64 <= usize::MAX,
            r@ == set_bit_indices(words@, k as int * 64),
        decreases n - k,
    {
        let word: u64 = *vstd::slice::slice_index_get(words, k);
        let mut w: u64 = word;
        let mut bit: usize = 0;
        proof {
            assert(word >> 0u64 == word) by (bit_vector);
        }
        while w > 0
            invariant
                bit <= 64,
                k < n,
                n == words@.len(),
                n * 64 <= usize::MAX,
                word == words@[k as int],
                bit < 64 ==> w == word >> (bit as u64),
                bit == 64 ==> w == 0,
                r@ == set_bit_indices(words@, k as int * 64 + bit),
            decreases w,
        {
            proof {
                assert(bit < 64);
                assert(bit_get(words@, k as int * 64 + bit) == ((w & 1u64) == 1u64)) by {
                    assert((k as int * 64 + bit) / 64 == k as int);
                    assert((k as int * 64 + bit) % 64 == bit as int);
                }
            }
            if w & 1u64 == 1u64 {
                r.push(k * 64 + bit);
                proof {
                    assert(r@ =~= set_bit_indices(words@, k as int * 64 + bit + 1));
                }
            } else {
                proof {
                    assert(r@ =~= set_bit_indices(words@, k as int * 64 + bit + 1));
                }
            }
            proof {
                if bit < 63 {
                    lemma_shr_step(word, bit as u64);
                } else {
                    lemma_shr_last(word);
                }
                lemma_shr_decreases(w);
            }
            w = w >> 1u64;
            bit = bit + 1;
        }
        proof {
            if bit < 64 {
                assert forall|c: int| k as int * 64 + bit <= c < k as int * 64 + 64 implies
                    !bit_get(words@, c) by {
                    assert(c / 64 == k as int);
                    assert(c % 64 == c - k as int * 64);
                    lemma_shr_zero_tail(word, bit as u64, (c - k as int * 64) as u64);
                }
                lemma_set_bits_zero_range(words@, k as int * 64 + bit, k as int * 64 + 64);
            }
        }
        k = k + 1;
    }
    r
}

/// The producer's pacing state: the next tick at which a shot is due and
/// the fixed inter-shot period.
pub struct ShotPacer {
    pub period: u64,
    pub next_shot_time: u64,
}

impl ShotPacer {
    /// A pacer whose first shot is due at `start`.
    pub fn new(start: u64, period: u64) -> (r: Self)
        ensures
            r.period == period,
            r.next_shot_time == start,
    {
        ShotPacer { period, next_shot_time: start }
    }

    /// Whether the next shot is due at tick `now`.
    pub fn ready(&self, now: u64) -> (r: bool)
        ensures
            r == (now >= self.next_shot_time),
    {
        now >= self.next_shot_time
    }

    /// Schedules the following shot one period later.
    pub fn advance(&mut self)
        requires
            old(self).next_shot_time + old(self).period <= u64::MAX,
        ensures
            final(self).period == old(self).period,
            final(self).next_shot_time == old(self).next_shot_time + old(self).period,
    {
        self.next_shot_time = self.next_shot_time + self.period;
    }
}

/// The next index into the shot table after a successful push: advances
/// by one and wraps at `total`.
pub fn advance_data_index(i: usize, total: usize) -> (r: usize)
    requires
        total >= 1,
        i < total,
    ensures
        r as int == (i + 1) % (total as int),
        r < total,
{
    if i + 1 == total {
        proof {
            assert((i + 1) % (total as int) == 0) by (nonlinear_arith)
                requires
                    i + 1 == total,
                    total >= 1,
            ;
        }
        0
    } else {
        proof {
            vstd::arithmetic::div_mod::lemma_small_mod((i + 1) as nat, total as nat);
        }
        i + 1
    }
}

/// The latency of a packet processed at tick `now`: the elapsed ticks
/// since its timestamp, saturating at zero.
pub fn latency_since(now: u64, timestamp: u64) -> (r: u64)
    ensures
        r as int == (if now >= timestamp {
            now - timestamp
        } else {
            0int
        }),
{
    if now >= timestamp {
        now - timestamp
    } else {
        0
    }
}

/// Process-wide telemetry counters.  In the running system these are
/// atomics updated by every worker; their initial values and the update
/// and snapshot arithmetic are what is verified here.
pub struct TelemetryCounters {
    pub total_processed: u64,
    pub latency_sum: u64,
    pub latency_max: u64,
    pub latency_min: u64,
    pub queue_depth: i64,
}

impl TelemetryCounters {
    /// All counters at their initial values: zero, except the minimum
    /// which starts at the largest value so the first sample replaces it.
    pub fn new() -> (r: Self)
        ensures
            r.total_processed == 0,
            r.latency_sum == 0,
            r.latency_max == 0,
            r.latency_min == u64::MAX,
            r.queue_depth == 0,
    {
        TelemetryCounters {
            total_processed: 0,
            latency_sum: 0,
            latency_max: 0,
            latency_min: u64::MAX,
            queue_depth: 0,
        }
    }

    /// Folds one processed shot's latency into the counters.
    pub fn record_latency(&mut self, latency: u64)
        requires
            old(self).total_processed < u64::MAX,
            old(self).latency_sum + latency <= u64::MAX,
        ensures
            final(self).total_processed == old(self).total_processed + 1,
            final(self).latency_sum == old(self).latency_sum + latency,
            final(self).latency_max == (if latency > old(self).latency_max {
                latency
            } else {
                old(self).latency_max
            }),
            final(self).latency_min == (if latency < old(self).latency_min {
                latency
            } else {
                old(self).latency_min
            }),
            final(self).queue_depth == old(self).queue_depth,
    {
        self.total_processed = self.total_processed + 1;
        self.latency_sum = self.latency_sum + latency;
        if latency > self.latency_max {
            self.latency_max = latency;
        }
        if latency < self.latency_min {
            self.latency_min = latency;
        }
    }

    /// Notes one packet entering the queue.
    pub fn note_enqueued(&mut self)
        requires
            old(self).queue_depth < i64::MAX,
        ensures
            final(self).queue_depth == old(self).queue_depth + 1,
            final(self).total_processed == old(self).total_processed,
            final(self).latency_sum == old(self).latency_sum,
            final(self).latency_max == old(self).latency_max,
            final(self).latency_min == old(self).latency_min,
    {
        self.queue_depth = self.queue_depth + 1;
    }

    /// Notes one packet leaving the queue.
    pub fn note_dequeued(&mut self)
        requires
            old(self).queue_depth > i64::MIN,
        ensures
            final(self).queue_depth == old(self).queue_depth - 1,
            final(self).total_processed == old(self).total_processed,
            final(self).latency_sum == old(self).latency_sum,
            final(self).latency_max == old(self).latency_max,
            final(self).latency_min == old(self).latency_min,
    {
        self.queue_depth = self.queue_depth - 1;
    }

    /// Takes the latency window for one telemetry report: returns
    /// `(sum, max, min)` and swap-resets them to their initial values.
    pub fn take_window(&mut self) -> (r: (u64, u64, u64))
        ensures
            r.0 == old(self).latency_sum,
            r.1 == old(self).latency_max,
            r.2 == old(self).latency_min,
            final(self).latency_sum == 0,
            final(self).latency_max == 0,
            final(self).latency_min == u64::MAX,
            final(self).total_processed == old(self).total_processed,
            final(self).queue_depth == old(self).queue_depth,
    {
        let sum = self.latency_sum;
        let max = self.latency_max;
        let min = self.latency_min;
        self.latency_sum = 0;
        self.latency_max = 0;
        self.latency_min = u64::MAX;
        (sum, max, min)
    }
}

/// The average latency of a telemetry window: the window's latency sum
/// over the shots it covered, zero when it covered none.
pub fn average_latency(sum: u64, delta: u64) -> (r: u64)
    ensures
        r == (if delta > 0 {
            sum / delta
        } else {
            0u64
        }),
{
    if delta > 0 {
        sum / delta
    } else {
        0
    }
}

} // verus!
