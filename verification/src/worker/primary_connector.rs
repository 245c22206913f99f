//! Judges how fast batch digests reach the primary.
use crate::sorting::sort_by_key;
use crate::worker::stats::LatencyStats;
use vstd::prelude::*;

verus! {

use crate::sorting::{lemma_stably_sorted, stable_sort, stable_sort_exists, stably_sorted};

/// A send that takes longer is slow, in milliseconds.
pub const SLOW_SEND_MS: u64 = 10;

/// A send that takes longer is severely delayed, in milliseconds.
pub const SEVERE_SEND_MS: u64 = 50;

/// A network whose 95th percentile is higher is degraded, in milliseconds.
pub const DEGRADED_P95_MS: u64 = 20;

/// A network whose 95th percentile is higher is severely degraded, in milliseconds.
pub const SEVERELY_DEGRADED_P95_MS: u64 = 50;

/// How long a send took.
#[derive(Clone, Copy, PartialEq, Eq, Structural, Debug)]
pub enum SendSpeed {
    Normal,
    Slow,
    Severe,
}

/// How the network is doing.
#[derive(Clone, Copy, PartialEq, Eq, Structural, Debug)]
pub enum NetworkHealth {
    Good,
    Degraded,
    SeverelyDegraded,
}

/// How long a send of `ms` milliseconds took.
pub open spec fn speed_of(ms: u64) -> SendSpeed {
    if ms > SEVERE_SEND_MS {
        SendSpeed::Severe
    } else if ms > SLOW_SEND_MS {
        SendSpeed::Slow
    } else {
        SendSpeed::Normal
    }
}

/// How a network is doing whose 95th percentile is `p95`.
pub open spec fn health_of(p95: u64) -> NetworkHealth {
    if p95 > SEVERELY_DEGRADED_P95_MS {
        NetworkHealth::SeverelyDegraded
    } else if p95 > DEGRADED_P95_MS {
        NetworkHealth::Degraded
    } else {
        NetworkHealth::Good
    }
}

/// The value of a latency as a key to sort by.
pub open spec fn latency_key() -> spec_fn(u64) -> u64 {
    |ms: u64| ms
}

/// The element of `sorted` at the place `index`, or zero behind its end.
pub open spec fn at_or_zero(sorted: Seq<u64>, index: int) -> u64 {
    if 0 <= index < sorted.len() {
        sorted[index]
    } else {
        0
    }
}

/// The latencies at the places of the 50th, 95th and 99th percentile, and the greatest.
#[derive(Clone, Copy, PartialEq, Eq, Structural, Debug)]
pub struct Percentiles {
    pub p50: u64,
    pub p95: u64,
    pub p99: u64,
    pub max: u64,
}

/// Judges how fast batch digests reach the primary.
pub struct PrimaryConnector {
    pub stats: LatencyStats,
    /// The latencies since the last account.
    pub latencies: Vec<u64>,
}

impl PrimaryConnector {
    /// A connector that has sent nothing.
    pub fn new() -> (c: Self)
        ensures
            c.stats == (LatencyStats { count: 0, total_ms: 0, slow: 0 }),
            c.latencies@ == Seq::<u64>::empty(),
    {
        PrimaryConnector { stats: LatencyStats::new(), latencies: Vec::new() }
    }

    /// Takes note of a send that took `elapsed_ms`.
    pub fn on_sent(&mut self, elapsed_ms: u64) -> (speed: SendSpeed)
        requires
            old(self).stats.well_formed(),
            old(self).stats.count < u64::MAX,
            old(self).stats.total_ms + elapsed_ms <= u64::MAX,
        ensures
            speed == speed_of(elapsed_ms),
            final(self).stats.well_formed(),
            final(self).stats.count == old(self).stats.count + 1,
            final(self).stats.total_ms == old(self).stats.total_ms + elapsed_ms,
            final(self).stats.slow == old(self).stats.slow + (if speed_of(elapsed_ms) is Normal {
                0int
            } else {
                1int
            }),
            final(self).latencies@ == old(self).latencies@.push(elapsed_ms),
    {
        let is_slow = self.stats.record(elapsed_ms, SLOW_SEND_MS);
        self.latencies.push(elapsed_ms);
        if elapsed_ms > SEVERE_SEND_MS {
            SendSpeed::Severe
        } else if is_slow {
            SendSpeed::Slow
        } else {
            SendSpeed::Normal
        }
    }

    /// The percentiles of the latencies, given the places at which they stand in order.
    pub fn percentiles(&self, p50_idx: usize, p95_idx: usize, p99_idx: usize) -> (p: Percentiles)
        ensures
            ({
                let sorted = stable_sort(self.latencies@, latency_key());
                &&& stably_sorted(self.latencies@, sorted, latency_key())
                &&& p == (Percentiles {
                    p50: at_or_zero(sorted, p50_idx as int),
                    p95: at_or_zero(sorted, p95_idx as int),
                    p99: at_or_zero(sorted, p99_idx as int),
                    max: at_or_zero(sorted, sorted.len() - 1),
                })
            }),
    {
        let mut copy: Vec<u64> = Vec::new();
        let mut i: usize = 0;
        while i < self.latencies.len()
            invariant
                i <= self.latencies@.len(),
                copy@ == self.latencies@.take(i as int),
            decreases self.latencies@.len() - i,
        {
            copy.push(self.latencies[i]);
            i += 1;
        }
        assert(copy@ =~= self.latencies@);
        let value = |ms: &u64| -> (k: u64)
            ensures
                k == *ms,
            { *ms };
        let sorted = sort_by_key(copy, value, Ghost(latency_key()));
        let max: u64 = if sorted.len() == 0 {
            0
        } else {
            sorted[sorted.len() - 1]
        };
        Percentiles {
            p50: Self::at(&sorted, p50_idx),
            p95: Self::at(&sorted, p95_idx),
            p99: Self::at(&sorted, p99_idx),
            max,
        }
    }

    /// The element of `sorted` at the place `index`, or zero behind its end.
    fn at(sorted: &Vec<u64>, index: usize) -> (ms: u64)
        ensures
            ms == at_or_zero(sorted@, index as int),
    {
        if index < sorted.len() {
            sorted[index]
        } else {
            0
        }
    }

    /// How the network is doing.
    pub fn health(p95: u64) -> (h: NetworkHealth)
        ensures
            h == health_of(p95),
    {
        if p95 > SEVERELY_DEGRADED_P95_MS {
            NetworkHealth::SeverelyDegraded
        } else if p95 > DEGRADED_P95_MS {
            NetworkHealth::Degraded
        } else {
            NetworkHealth::Good
        }
    }

    /// Begins a new account.
    pub fn reset(&mut self)
        ensures
            final(self).stats == (LatencyStats { count: 0, total_ms: 0, slow: 0 }),
            final(self).latencies@ == Seq::<u64>::empty(),
    {
        self.stats = LatencyStats::new();
        self.latencies.clear();
    }
}

/// A send of more than ten milliseconds is slow, and one of more than fifty severely delayed. A network
/// whose 95th percentile is above twenty milliseconds is degraded, and above fifty severely.
pub proof fn thresholds_divide_the_latencies(ms: u64)
    ensures
        speed_of(ms) is Severe <==> 50 < ms,
        speed_of(ms) is Slow <==> 10 < ms && ms <= 50,
        speed_of(ms) is Normal <==> ms <= 10,
        health_of(ms) is SeverelyDegraded <==> 50 < ms,
        health_of(ms) is Degraded <==> 20 < ms && ms <= 50,
        health_of(ms) is Good <==> ms <= 20,
{
}

/// What stands at a place of the ordered latencies is one of the latencies, no latency at a later place
/// is smaller, and none is greater than what stands last. Behind the end there is zero.
pub proof fn percentiles_are_latencies(latencies: Seq<u64>, i: int, j: int)
    ensures
        ({
            let sorted = stable_sort(latencies, latency_key());
            &&& sorted.len() == latencies.len()
            &&& sorted.to_multiset() == latencies.to_multiset()
            &&& 0 <= i < latencies.len() ==> latencies.contains(at_or_zero(sorted, i))
            &&& 0 <= i <= j < latencies.len() ==> at_or_zero(sorted, i) <= at_or_zero(sorted, j)
            &&& 0 <= i < latencies.len() ==> latencies[i] <= at_or_zero(sorted, sorted.len() - 1)
            &&& i < 0 || i >= latencies.len() ==> at_or_zero(sorted, i) == 0
        }),
{
    let sorted = stable_sort(latencies, latency_key());
    stable_sort_exists(latencies, latency_key());
    lemma_stably_sorted(latencies, sorted, latency_key());
    if 0 <= i < latencies.len() {
        assert(sorted.contains(sorted[i]));
        assert(latencies.contains(latencies[i]));
        assert(sorted.contains(latencies[i]));
        let k = choose|k: int| 0 <= k < sorted.len() && sorted[k] == latencies[i];
        if k < sorted.len() - 1 {
            assert(latency_key()(sorted[k]) <= latency_key()(sorted[sorted.len() - 1]));
        }
    }
    if 0 <= i < j < latencies.len() {
        assert(latency_key()(sorted[i]) <= latency_key()(sorted[j]));
    }
}

} // verus!
