//! Bookkeeping for latencies: when batches and headers were made and when slots were committed.
use crate::ident::{Digest, Slot};
use crate::table::Table;
use vstd::prelude::*;

verus! {

/// When the batches were created, in milliseconds.
pub struct BatchTimestamps {
    pub created: Table<Digest, u64>,
}

/// When the headers were created, in milliseconds.
pub struct HeaderTimestamps {
    pub created: Table<Digest, u64>,
}

/// When the slots were committed, in milliseconds.
pub struct SlotTimestamps {
    pub committed: Table<Slot, u64>,
}

/// The milliseconds from `from` to `to`, and none if `to` is earlier.
pub open spec fn elapsed_ms(from: u64, to: u64) -> u64 {
    if to < from {
        0
    } else {
        (to - from) as u64
    }
}

/// The latencies at the time `at` of those of `digests` that have a timestamp in `m`, in order.
pub open spec fn latencies_at(m: Map<Digest, u64>, digests: Seq<Digest>, at: u64) -> Seq<u64>
    decreases digests.len(),
{
    if digests.len() == 0 {
        Seq::empty()
    } else {
        let front = latencies_at(m, digests.drop_last(), at);
        let d = digests.last();
        if m.contains_key(d) {
            front.push(elapsed_ms(m[d], at))
        } else {
            front
        }
    }
}

/// The wall-clock time in milliseconds since 1970, by `chrono::Utc::now` and
/// `DateTime::timestamp_millis`. Nothing is claimed of the reading: the clock may stand anywhere from
/// 1970 on (the call does not return on an earlier one), and may be set back between two readings.
#[verifier::external_body]
pub fn now_ms() -> (ms: u64) {
    chrono::Utc::now().timestamp_millis() as u64
}

/// Notes when a batch was created.
pub fn record_batch_created(timestamps: &mut BatchTimestamps, digest: &Digest, timestamp_ms: u64)
    ensures
        final(timestamps).created@ == old(timestamps).created@.insert(*digest, timestamp_ms),
{
    timestamps.created.insert(*digest, timestamp_ms);
}

/// Notes when a header was created.
pub fn record_header_created(timestamps: &mut HeaderTimestamps, digest: &Digest, timestamp_ms: u64)
    ensures
        final(timestamps).created@ == old(timestamps).created@.insert(*digest, timestamp_ms),
{
    timestamps.created.insert(*digest, timestamp_ms);
}

/// Notes when a slot was committed.
pub fn record_slot_committed(timestamps: &mut SlotTimestamps, slot: Slot, timestamp_ms: u64)
    ensures
        final(timestamps).committed@ == old(timestamps).committed@.insert(slot, timestamp_ms),
{
    timestamps.committed.insert(slot, timestamp_ms);
}

/// The latencies at `at_ms` of the batches whose creation was noted.
fn batch_latencies(timestamps: &BatchTimestamps, batch_digests: &[Digest], at_ms: u64) -> (
    latencies: Vec<u64>)
    ensures
        latencies@ == latencies_at(timestamps.created@, batch_digests@, at_ms),
{
    let mut latencies: Vec<u64> = Vec::new();
    let mut i: usize = 0;
    while i < batch_digests.len()
        invariant
            i <= batch_digests@.len(),
            latencies@ == latencies_at(
                timestamps.created@,
                batch_digests@.take(i as int),
                at_ms,
            ),
        decreases batch_digests@.len() - i,
    {
        proof {
            assert(batch_digests@.take(i + 1).drop_last() =~= batch_digests@.take(i as int));
        }
        if let Some(created_ms) = timestamps.created.get(&batch_digests[i]) {
            latencies.push(at_ms.saturating_sub(*created_ms));
        }
        i += 1;
    }
    assert(batch_digests@.take(i as int) =~= batch_digests@);
    latencies
}

/// The latencies from creation to commit of the batches in a committed slot.
pub fn observe_batches_committed(
    timestamps: &BatchTimestamps,
    batch_digests: &[Digest],
    commit_timestamp_ms: u64,
) -> (latencies: Vec<u64>)
    ensures
        latencies@ == latencies_at(timestamps.created@, batch_digests@, commit_timestamp_ms),
{
    batch_latencies(timestamps, batch_digests, commit_timestamp_ms)
}

/// The latencies from creation to execution of the batches in an executed slot.
pub fn observe_batches_executed(
    timestamps: &BatchTimestamps,
    batch_digests: &[Digest],
    execute_timestamp_ms: u64,
) -> (latencies: Vec<u64>)
    ensures
        latencies@ == latencies_at(timestamps.created@, batch_digests@, execute_timestamp_ms),
{
    batch_latencies(timestamps, batch_digests, execute_timestamp_ms)
}

/// The latency from the creation of a header to its proof of availability, which is observed once.
pub fn observe_header_poa(
    timestamps: &mut HeaderTimestamps,
    digest: &Digest,
    poa_timestamp_ms: u64,
) -> (latency: Option<u64>)
    ensures
        final(timestamps).created@ == old(timestamps).created@.remove(*digest),
        latency == (if old(timestamps).created@.contains_key(*digest) {
            Some(elapsed_ms(old(timestamps).created@[*digest], poa_timestamp_ms))
        } else {
            None
        }),
{
    match timestamps.created.remove(digest) {
        Some(created_ms) => Some(poa_timestamp_ms.saturating_sub(created_ms)),
        None => None,
    }
}

/// The latency from the commit of a slot to its execution, which is observed once.
pub fn observe_slot_executed(
    timestamps: &mut SlotTimestamps,
    slot: Slot,
    execute_timestamp_ms: u64,
) -> (latency: Option<u64>)
    ensures
        final(timestamps).committed@ == old(timestamps).committed@.remove(slot),
        latency == (if old(timestamps).committed@.contains_key(slot) {
            Some(elapsed_ms(old(timestamps).committed@[slot], execute_timestamp_ms))
        } else {
            None
        }),
{
    match timestamps.committed.remove(&slot) {
        Some(commit_ms) => Some(execute_timestamp_ms.saturating_sub(commit_ms)),
        None => None,
    }
}

/// The time `max_age_ms` before `now`, and 0 if the clock does not reach back that far.
pub open spec fn cutoff_ms(now: u64, max_age_ms: u64) -> u64 {
    if now < max_age_ms {
        0
    } else {
        (now - max_age_ms) as u64
    }
}

/// The batches created at `cutoff` or later.
pub open spec fn created_since(m: Map<Digest, u64>, cutoff: u64) -> Map<Digest, u64> {
    crate::table::kept(m, |d: Digest, ts: u64| ts >= cutoff)
}

/// Drops the batch timestamps that are older than `max_age_ms` at the time `now`.
pub fn gc_batch_timestamps_at(timestamps: &mut BatchTimestamps, max_age_ms: u64, now: u64)
    ensures
        final(timestamps).created@ == created_since(
            old(timestamps).created@,
            cutoff_ms(now, max_age_ms),
        ),
{
    let cutoff: u64 = now.saturating_sub(max_age_ms);
    let ghost p = |d: Digest, ts: u64| ts >= cutoff;
    let is_recent = |d: &Digest, ts: &u64| -> (keep: bool)
        ensures
            keep == (cutoff <= *ts),
        { cutoff <= *ts };
    timestamps.created.retain(is_recent, Ghost(p));
}

/// Drops the batch timestamps that are older than `max_age_ms`, to bound the memory they take.
pub fn gc_batch_timestamps(timestamps: &mut BatchTimestamps, max_age_ms: u64)
    ensures
        exists|now: u64|
            final(timestamps).created@ == #[trigger] created_since(
                old(timestamps).created@,
                cutoff_ms(now, max_age_ms),
            ),
{
    let now: u64 = now_ms();
    gc_batch_timestamps_at(timestamps, max_age_ms, now);
}

/// What is left of the batch timestamps is not older than the greatest age, and all that is not older
/// is left. Dropping again for the same or an earlier time drops nothing.
pub proof fn old_timestamps_are_dropped(
    m: Map<Digest, u64>,
    max_age_ms: u64,
    now: u64,
    earlier: u64,
    d: Digest,
)
    requires
        earlier <= now,
    ensures
        ({
            let left = created_since(m, cutoff_ms(now, max_age_ms));
            &&& now >= max_age_ms ==> (left.contains_key(d) <==> m.contains_key(d) && now <= m[d]
                + max_age_ms)
            &&& now < max_age_ms ==> (left.contains_key(d) <==> m.contains_key(d))
            &&& left.contains_key(d) ==> left[d] == m[d]
            &&& created_since(left, cutoff_ms(earlier, max_age_ms)) == left
        }),
{
    let left = created_since(m, cutoff_ms(now, max_age_ms));
    assert(created_since(left, cutoff_ms(earlier, max_age_ms)) =~= left);
}

/// The latencies are found batch by batch, in order: every batch whose creation was noted has one, which
/// is the time since then, or none at all if the clock was set back.
pub proof fn every_noted_batch_has_a_latency(
    m: Map<Digest, u64>,
    a: Seq<Digest>,
    b: Seq<Digest>,
    d: Digest,
    at: u64,
)
    ensures
        latencies_at(m, Seq::empty(), at).len() == 0,
        latencies_at(m, seq![d], at).len() == (if m.contains_key(d) {
            1nat
        } else {
            0
        }),
        m.contains_key(d) && m[d] <= at ==> latencies_at(m, seq![d], at)[0] + m[d] == at,
        m.contains_key(d) && m[d] > at ==> latencies_at(m, seq![d], at)[0] == 0,
        latencies_at(m, a + b, at) == latencies_at(m, a, at) + latencies_at(m, b, at),
    decreases b.len(),
{
    reveal_with_fuel(latencies_at, 2);
    assert(seq![d].drop_last() =~= Seq::<Digest>::empty());
    if b.len() == 0 {
        assert(a + b =~= a);
        assert(latencies_at(m, a, at) + latencies_at(m, b, at) =~= latencies_at(m, a, at));
    } else {
        every_noted_batch_has_a_latency(m, a, b.drop_last(), d, at);
        assert((a + b).drop_last() =~= a + b.drop_last());
        assert((a + b).last() == b.last());
        assert(latencies_at(m, a + b, at) =~= latencies_at(m, a, at) + latencies_at(m, b, at));
    }
}

/// The time that has passed and the time from which it is counted add up to the present, and nothing has
/// passed if the clock was set back. The oldest time that is kept is the greatest age ago, as far as the
/// clock reaches back.
pub proof fn times_add_up(from: u64, to: u64, max_age_ms: u64)
    ensures
        from <= to ==> from + elapsed_ms(from, to) == to,
        from > to ==> elapsed_ms(from, to) == 0,
        max_age_ms <= to ==> cutoff_ms(to, max_age_ms) + max_age_ms == to,
        max_age_ms > to ==> cutoff_ms(to, max_age_ms) == 0,
{
}

} // verus!
