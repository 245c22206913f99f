//! What holds of the worker's synchronizer whatever happens to it.
use crate::ident::{Address, Digest, PublicKey, Round};
use crate::key::Key;
use crate::worker::sync_model::{
    Retry, SyncConfig, SyncPriority, MAX_COMMIT_CRITICAL_RETRIES_PER_TICK,
    TARGET_COOLDOWN_AFTER_ATTEMPTS, TARGET_COOLDOWN_MS,
};
use vstd::prelude::*;

verus! {

use crate::committee::{lists_worker, other_workers_are_of_other_members, workers_but};
use crate::sorting::{lemma_stably_sorted, stable_sort, stable_sort_exists};
use crate::table::{is_listing, listing, listing_exists};
use crate::worker::sync_model::{
    addresses_but, after_asking, after_asking_all, after_choosing, after_choosing_all,
    after_cleanup, after_delivery, after_sending, after_timer, after_warming, all_due,
    attempts_fit, attempts_of, available, blocked_height_in, brings_cooldown, candidates,
    clock_fits, counts_fit, due, evicted, first_best, grouped, is_available, is_better, is_due,
    is_upgrade, joined, newly_awaited, next_target, plan_of, retried, stalled, to_request,
    BatchSyncView, GroupView, PlanView, SyncState,
};

/// What asking for `digests` leaves of the batch `d`.
pub(crate) proof fn lemma_asking(
    s: SyncState,
    digests: Seq<Digest>,
    target: PublicKey,
    priority: SyncPriority,
    blocked_height: Round,
    now: u128,
    d: Digest,
)
    ensures
        ({
            let next = after_asking_all(s, digests, target, priority, blocked_height, now);
            &&& next.round == s.round
            &&& next.cooldowns == s.cooldowns
            &&& next.pending.contains_key(d) <==> s.pending.contains_key(d) || digests.contains(d)
            &&& !digests.contains(d) && s.pending.contains_key(d) ==> next.pending[d]
                == s.pending[d]
            &&& digests.contains(d) ==> !is_upgrade(next.pending[d], priority)
        }),
    decreases digests.len(),
{
    if digests.len() > 0 {
        let front = digests.drop_last();
        lemma_asking(s, front, target, priority, blocked_height, now, d);
        lemma_contains_last(digests, d);
    }
}

/// What is among `s` is its last element or among the others.
proof fn lemma_contains_last(s: Seq<Digest>, d: Digest)
    requires
        s.len() > 0,
    ensures
        s.contains(d) <==> s.drop_last().contains(d) || d == s.last(),
{
    let front = s.drop_last();
    if front.contains(d) {
        let j = choose|j: int| 0 <= j < front.len() && front[j] == d;
        assert(s[j] == d);
    }
    if s.contains(d) && d != s.last() {
        let j = choose|j: int| 0 <= j < s.len() && s[j] == d;
        assert(front[j] == d);
    }
    assert(s[s.len() - 1] == s.last());
}

/// How often the batch `d` can have been asked for once `digests` have been.
pub(crate) proof fn lemma_asking_counts(
    s: SyncState,
    digests: Seq<Digest>,
    target: PublicKey,
    priority: SyncPriority,
    blocked_height: Round,
    now: u128,
    d: Digest,
)
    requires
        digests.len() <= u64::MAX,
        counts_fit(s, digests),
    ensures
        ({
            let next = after_asking_all(s, digests, target, priority, blocked_height, now);
            next.pending.contains_key(d) ==> next.pending[d].dependents <= (
            if s.pending.contains_key(d) {
                s.pending[d].dependents
            } else {
                0
            }) + digests.len()
        }),
    decreases digests.len(),
{
    if digests.len() > 0 {
        let front = digests.drop_last();
        assert(counts_fit(s, front));
        lemma_asking_counts(s, front, target, priority, blocked_height, now, d);
        lemma_asking(s, front, target, priority, blocked_height, now, d);
    }
}

/// Choosing the next target for a batch keeps the counts of attempts below what brings a cooldown.
pub proof fn choosing_keeps_attempts_low(
    list: Seq<PublicKey>,
    s: SyncState,
    d: Digest,
    now: u128,
)
    requires
        attempts_fit(s),
        s.pending.contains_key(d),
    ensures
        attempts_fit(after_choosing(list, s, d, now)),
{
    let next = after_choosing(list, s, d, now);
    assert forall|e: Digest, k: PublicKey|
        next.pending.contains_key(e) && next.pending[e].attempts.contains_key(k) implies (
    #[trigger] next.pending[e].attempts[k]) < TARGET_COOLDOWN_AFTER_ATTEMPTS by {
        if s.pending[e].attempts.contains_key(k) {
            assert(s.pending[e].attempts[k] < TARGET_COOLDOWN_AFTER_ATTEMPTS);
        }
    }
}

/// So does everything else that happens.
pub proof fn events_keep_attempts_low(
    c: SyncConfig,
    s: SyncState,
    digests: Seq<Digest>,
    target: PublicKey,
    priority: SyncPriority,
    height: Round,
    flags: (bool, bool),
    now: u128,
)
    requires
        attempts_fit(s),
    ensures
        attempts_fit(after_asking_all(s, digests, target, priority, height, now)),
        attempts_fit(after_sending(s, digests, flags.0, flags.1, now)),
        attempts_fit(after_cleanup(c, s, height)),
        forall|d: Digest| attempts_fit(#[trigger] after_delivery(s, d)),
    decreases digests.len(),
{
    if digests.len() > 0 {
        let front = digests.drop_last();
        events_keep_attempts_low(c, s, front, target, priority, height, flags, now);
        let before = after_asking_all(s, front, target, priority, height, now);
        let next = after_asking(before, digests.last(), target, priority, height, now);
        assert forall|e: Digest, k: PublicKey|
            next.pending.contains_key(e) && next.pending[e].attempts.contains_key(k) implies (
        #[trigger] next.pending[e].attempts[k]) < TARGET_COOLDOWN_AFTER_ATTEMPTS by {
            if before.pending.contains_key(e) && before.pending[e].attempts.contains_key(k) {
                assert(before.pending[e].attempts[k] < TARGET_COOLDOWN_AFTER_ATTEMPTS);
            }
        }
    }
    let sent = after_sending(s, digests, flags.0, flags.1, now);
    assert forall|e: Digest, k: PublicKey|
        sent.pending.contains_key(e) && sent.pending[e].attempts.contains_key(k) implies (
    #[trigger] sent.pending[e].attempts[k]) < TARGET_COOLDOWN_AFTER_ATTEMPTS by {
        assert(s.pending[e].attempts[k] < TARGET_COOLDOWN_AFTER_ATTEMPTS);
    }
    let clean = after_cleanup(c, s, height);
    assert forall|e: Digest, k: PublicKey|
        clean.pending.contains_key(e) && clean.pending[e].attempts.contains_key(k) implies (
    #[trigger] clean.pending[e].attempts[k]) < TARGET_COOLDOWN_AFTER_ATTEMPTS by {
        assert(s.pending[e].attempts[k] < TARGET_COOLDOWN_AFTER_ATTEMPTS);
    }
    assert forall|d: Digest| attempts_fit(#[trigger] after_delivery(s, d)) by {
        let left = after_delivery(s, d);
        assert forall|e: Digest, k: PublicKey|
            left.pending.contains_key(e) && left.pending[e].attempts.contains_key(k) implies (
        #[trigger] left.pending[e].attempts[k]) < TARGET_COOLDOWN_AFTER_ATTEMPTS by {
            assert(s.pending[e].attempts[k] < TARGET_COOLDOWN_AFTER_ATTEMPTS);
        }
    }
}

/// The recovery of a batch that a committed header waits for outlives the garbage collection. That
/// of another batch does not outlive the round that it was asked for in.
pub proof fn committed_batches_outlive_cleanup(
    c: SyncConfig,
    s: SyncState,
    round: Round,
    d: Digest,
)
    ensures
        s.pending.contains_key(d) && s.pending[d].priority is CommitCritical ==> after_cleanup(
            c,
            s,
            round,
        ).pending.contains_key(d) && after_cleanup(c, s, round).pending[d] == s.pending[d],
        after_cleanup(c, s, round).pending.contains_key(d) && after_cleanup(
            c,
            s,
            round,
        ).pending[d].priority is Background ==> after_cleanup(c, s, round).pending[d].round + (
        c.gc_depth) > round,
{
}

/// A request for batches never makes one of them less urgent: a committed batch stays one, and the
/// lowest height that waits for it does not rise.
pub proof fn requests_only_raise_urgency(
    s: SyncState,
    digests: Seq<Digest>,
    target: PublicKey,
    priority: SyncPriority,
    blocked_height: Round,
    now: u128,
    d: Digest,
)
    ensures
        ({
            let next = after_asking_all(s, digests, target, priority, blocked_height, now);
            &&& s.pending.contains_key(d) ==> {
                &&& next.pending.contains_key(d)
                &&& s.pending[d].priority is CommitCritical ==> next.pending[d].priority
                    is CommitCritical
                &&& next.pending[d].blocked_height <= s.pending[d].blocked_height
                &&& next.pending[d].round == s.pending[d].round
            }
            &&& digests.contains(d) && priority is CommitCritical ==> {
                &&& next.pending[d].priority is CommitCritical
                &&& next.pending[d].blocked_height <= blocked_height
            }
        }),
    decreases digests.len(),
{
    if digests.len() > 0 {
        let front = digests.drop_last();
        requests_only_raise_urgency(s, front, target, priority, blocked_height, now, d);
        lemma_asking(s, front, target, priority, blocked_height, now, d);
        lemma_contains_last(digests, d);
    }
}

/// Batches that are waited for are not requested again when the primary asks for them once more,
/// unless a committed header waits for them only now. None is waited for twice.
pub proof fn batches_are_requested_once(
    s: SyncState,
    digests: Seq<Digest>,
    target: PublicKey,
    priority: SyncPriority,
    blocked_height: Round,
    now: u128,
    again: Seq<Digest>,
    later: SyncPriority,
)
    requires
        forall|i: int| 0 <= i < again.len() ==> digests.contains(#[trigger] again[i]),
        later == priority || later is Background,
    ensures
        ({
            let next = after_asking_all(s, digests, target, priority, blocked_height, now);
            &&& to_request(next, again, later).len() == 0
            &&& newly_awaited(next, again).len() == 0
        }),
    decreases again.len(),
{
    if again.len() > 0 {
        let front = again.drop_last();
        assert forall|i: int| 0 <= i < front.len() implies digests.contains(#[trigger] front[i]) by {
            assert(front[i] == again[i]);
        }
        batches_are_requested_once(
            s,
            digests,
            target,
            priority,
            blocked_height,
            now,
            front,
            later,
        );
        assert(again[again.len() - 1] == again.last());
        lemma_asking(s, digests, target, priority, blocked_height, now, again.last());
    }
}

/// The first best of a list is in it, and none in the list is to be preferred to it.
proof fn lemma_first_best(r: BatchSyncView, list: Seq<PublicKey>)
    ensures
        list.len() > 0 <==> first_best(r, list) is Some,
        first_best(r, list) matches Some(best) ==> list.contains(best) && forall|i: int|
            0 <= i < list.len() ==> !is_better(r, #[trigger] list[i], best),
    decreases list.len(),
{
    if list.len() > 0 {
        let front = list.drop_last();
        lemma_first_best(r, front);
        assert(list[list.len() - 1] == list.last());
        if let Some(best) = first_best(r, front) {
            let j = choose|j: int| 0 <= j < front.len() && front[j] == best;
            assert(list[j] == best);
            assert forall|i: int| 0 <= i < list.len() implies !is_better(
                r,
                #[trigger] list[i],
                first_best(r, list)->0,
            ) by {
                if i < front.len() {
                    assert(front[i] == list[i]);
                }
            }
        }
    }
}

/// Those that are not to be passed over are in the list.
proof fn lemma_available(
    cooldowns: Map<PublicKey, u128>,
    now: u128,
    list: Seq<PublicKey>,
    k: PublicKey,
)
    ensures
        available(cooldowns, now, list).contains(k) <==> list.contains(k) && is_available(
            cooldowns,
            now,
            k,
        ),
    decreases list.len(),
{
    if list.len() > 0 {
        let front = list.drop_last();
        lemma_available(cooldowns, now, front, k);
        let of_front = available(cooldowns, now, front);
        if front.contains(k) {
            let j = choose|j: int| 0 <= j < front.len() && front[j] == k;
            assert(list[j] == k);
        }
        if list.contains(k) && k != list.last() {
            let j = choose|j: int| 0 <= j < list.len() && list[j] == k;
            assert(front[j] == k);
        }
        assert(list[list.len() - 1] == list.last());
        let grown = of_front.push(list.last());
        if of_front.contains(k) {
            let j = choose|j: int| 0 <= j < of_front.len() && of_front[j] == k;
            assert(grown[j] == k);
        }
        if grown.contains(k) && k != list.last() {
            let j = choose|j: int| 0 <= j < grown.len() && grown[j] == k;
            assert(of_front[j] == k);
        }
        assert(grown[of_front.len() as int] == list.last());
    }
}

/// A batch is requested again from a candidate, if there is one; from one that is not to be passed
/// over, if there is one; and then from one that was asked least often.
pub proof fn a_retry_goes_to_the_best_candidate(
    list: Seq<PublicKey>,
    r: BatchSyncView,
    cooldowns: Map<PublicKey, u128>,
    now: u128,
    k: PublicKey,
)
    requires
        list.contains(k),
    ensures
        list.contains(next_target(list, r, cooldowns, now)),
        is_available(cooldowns, now, k) ==> {
            &&& is_available(cooldowns, now, next_target(list, r, cooldowns, now))
            &&& !is_better(r, k, next_target(list, r, cooldowns, now))
        },
{
    let open = available(cooldowns, now, list);
    lemma_first_best(r, list);
    lemma_first_best(r, open);
    lemma_available(cooldowns, now, list, k);
    lemma_available(cooldowns, now, list, next_target(list, r, cooldowns, now));
    if is_available(cooldowns, now, k) {
        let j = choose|j: int| 0 <= j < open.len() && open[j] == k;
        assert(!is_better(r, open[j], next_target(list, r, cooldowns, now)));
    }
}

/// A target that was asked too often for one batch is passed over until its cooldown is over.
pub proof fn a_cooldown_lasts(
    list: Seq<PublicKey>,
    s: SyncState,
    d: Digest,
    now: u128,
    later: u128,
)
    requires
        now + TARGET_COOLDOWN_MS <= u128::MAX,
        brings_cooldown(s.pending[d], next_target(list, s.pending[d], s.cooldowns, now)),
    ensures
        is_available(
            after_choosing(list, s, d, now).cooldowns,
            later,
            next_target(list, s.pending[d], s.cooldowns, now),
        ) <==> later >= now + TARGET_COOLDOWN_MS,
{
}

/// No more than a fixed number of batches is requested again at a time. All of them are due. Those
/// that committed headers wait for come before the others and, among themselves, by the height that
/// waits for them.
pub proof fn retries_are_bounded_and_ordered(
    c: SyncConfig,
    s: SyncState,
    now: u128,
    i: int,
    j: int,
)
    requires
        s.pending.dom().finite(),
        0 <= i < j < retried(c, s, now).len(),
    ensures
        retried(c, s, now).len() <= MAX_COMMIT_CRITICAL_RETRIES_PER_TICK,
        ({
            let a = retried(c, s, now)[i];
            let b = retried(c, s, now)[j];
            &&& s.pending.contains_key(a) && is_due(c, s.pending[a].timestamp, now)
            &&& s.pending.contains_key(b) && is_due(c, s.pending[b].timestamp, now)
            &&& s.pending[a].priority is Background ==> s.pending[b].priority is Background
            &&& s.pending[b].priority is CommitCritical ==> s.pending[a].blocked_height
                <= s.pending[b].blocked_height
        }),
{
    let committed = due(c, s, SyncPriority::CommitCritical, now);
    let background = due(c, s, SyncPriority::Background, now);
    assert(committed.subset_of(s.pending.dom()));
    assert(background.subset_of(s.pending.dom()));
    vstd::set_lib::lemma_len_subset(committed, s.pending.dom());
    vstd::set_lib::lemma_len_subset(background, s.pending.dom());
    listing_exists(committed);
    listing_exists(background);
    let key = blocked_height_in(s);
    stable_sort_exists(listing(committed), key);
    let sorted = stable_sort(listing(committed), key);
    lemma_stably_sorted(listing(committed), sorted, key);
    let all = all_due(c, s, now);
    assert forall|n: int| 0 <= n < all.len() implies (if n < sorted.len() {
        committed.contains(#[trigger] all[n])
    } else {
        background.contains(all[n])
    }) by {
        if n < sorted.len() {
            assert(sorted.contains(sorted[n]));
            assert(listing(committed).contains(sorted[n]));
        } else {
            assert(listing(background).contains(listing(background)[n - sorted.len()]));
        }
    }
    assert(retried(c, s, now)[i] == all[i]);
    assert(retried(c, s, now)[j] == all[j]);
    if j < sorted.len() {
        assert(key(sorted[i]) <= key(sorted[j]));
    }
}

/// No batch is requested again twice at a time.
pub proof fn no_batch_is_retried_twice(c: SyncConfig, s: SyncState, now: u128, i: int, j: int)
    requires
        s.pending.dom().finite(),
        0 <= i < j < retried(c, s, now).len(),
    ensures
        retried(c, s, now)[i] != retried(c, s, now)[j],
{
    let committed = due(c, s, SyncPriority::CommitCritical, now);
    let background = due(c, s, SyncPriority::Background, now);
    vstd::set_lib::lemma_len_subset(committed, s.pending.dom());
    vstd::set_lib::lemma_len_subset(background, s.pending.dom());
    listing_exists(committed);
    listing_exists(background);
    let list = listing(committed);
    let rest = listing(background);
    lemma_listing_distinct(list, committed);
    lemma_listing_distinct(rest, background);
    let key = blocked_height_in(s);
    stable_sort_exists(list, key);
    let sorted = stable_sort(list, key);
    lemma_stably_sorted(list, sorted, key);
    let all = all_due(c, s, now);
    assert(retried(c, s, now)[i] == all[i]);
    assert(retried(c, s, now)[j] == all[j]);
    if j < sorted.len() {
        assert(sorted[i] != sorted[j]);
    } else if i >= sorted.len() {
        assert(rest[i - sorted.len()] != rest[j - sorted.len()]);
    } else {
        assert(sorted.contains(sorted[i]));
        assert(list.contains(sorted[i]));
        assert(rest.contains(rest[j - sorted.len()]));
        assert(committed.contains(all[i]));
        assert(background.contains(all[j]));
    }
}

/// The elements of a listing are distinct.
proof fn lemma_listing_distinct(list: Seq<Digest>, keys: Set<Digest>)
    requires
        is_listing(list, keys),
    ensures
        list.no_duplicates(),
{
    assert forall|i: int, j: int|
        0 <= i < list.len() && 0 <= j < list.len() && i != j implies list[i] != list[j] by {
        if i < j {
            assert(list[i].before(list[j]));
        } else {
            assert(list[j].before(list[i]));
        }
        Digest::before_is_irreflexive(list[i]);
    }
}

/// A repeated request that was sent is not due for as long as the retry delay.
pub proof fn sent_retries_are_not_due(
    c: SyncConfig,
    s: SyncState,
    digests: Seq<Digest>,
    now: u128,
    later: u128,
    d: Digest,
)
    requires
        s.pending.contains_key(d),
        digests.contains(d),
    ensures
        is_due(c, after_sending(s, digests, true, true, now).pending[d].timestamp, later) <==> later
            > now + c.sync_retry_delay,
{
}

/// A repeated request that could not be sent leaves the batches as due as they were. A first request
/// that could not be sent leaves them due as soon as the clock shows more than the retry delay.
pub proof fn unsent_requests_stay_due(
    c: SyncConfig,
    s: SyncState,
    digests: Seq<Digest>,
    now: u128,
    later: u128,
    d: Digest,
)
    requires
        s.pending.contains_key(d),
        digests.contains(d),
    ensures
        after_sending(s, digests, true, false, now) == s,
        later > c.sync_retry_delay ==> is_due(
            c,
            after_sending(s, digests, false, false, now).pending[d].timestamp,
            later,
        ),
{
}

/// Some group has the priority and the target of `r` and holds its batch.
pub open spec fn is_grouped(groups: Seq<GroupView>, r: Retry) -> bool {
    exists|i: int|
        0 <= i < groups.len() && (#[trigger] groups[i]).priority == r.priority && groups[i].target
            == r.target && groups[i].digests.contains(r.digest)
}

proof fn lemma_joined_keeps(groups: Seq<GroupView>, r: Retry, q: Retry)
    ensures
        is_grouped(joined(groups, r), r),
        is_grouped(groups, q) ==> is_grouped(joined(groups, r), q),
    decreases groups.len(),
{
    let grown = joined(groups, r);
    if groups.len() == 0 {
        assert(seq![r.digest][0] == r.digest);
        assert(grown[0].digests.contains(r.digest));
    } else if groups[0].priority == r.priority && groups[0].target == r.target {
        let digests = groups[0].digests.push(r.digest);
        assert(digests[digests.len() - 1] == r.digest);
        assert(grown[0].digests.contains(r.digest));
        if is_grouped(groups, q) {
            let i = choose|i: int|
                0 <= i < groups.len() && (#[trigger] groups[i]).priority == q.priority
                    && groups[i].target == q.target && groups[i].digests.contains(q.digest);
            if i == 0 {
                let j = choose|j: int|
                    0 <= j < groups[0].digests.len() && groups[0].digests[j] == q.digest;
                assert(digests[j] == q.digest);
            }
            assert(grown[i].digests.contains(q.digest));
        }
    } else {
        let rest = groups.drop_first();
        lemma_joined_keeps(rest, r, q);
        let tail = joined(rest, r);
        assert(grown =~= seq![groups[0]] + tail);
        let n = choose|n: int|
            0 <= n < tail.len() && (#[trigger] tail[n]).priority == r.priority && tail[n].target
                == r.target && tail[n].digests.contains(r.digest);
        assert(grown[n + 1] == tail[n]);
        if is_grouped(groups, q) {
            let i = choose|i: int|
                0 <= i < groups.len() && (#[trigger] groups[i]).priority == q.priority
                    && groups[i].target == q.target && groups[i].digests.contains(q.digest);
            if i == 0 {
                assert(grown[0] == groups[0]);
            } else {
                assert(rest[i - 1] == groups[i]);
                assert(is_grouped(rest, q));
                let m = choose|m: int|
                    0 <= m < tail.len() && (#[trigger] tail[m]).priority == q.priority
                        && tail[m].target == q.target && tail[m].digests.contains(q.digest);
                assert(grown[m + 1] == tail[m]);
            }
        }
    }
}

/// Every batch that is requested again is in the request to its target.
pub proof fn every_retry_is_sent(retries: Seq<Retry>, i: int)
    requires
        0 <= i < retries.len(),
    ensures
        is_grouped(grouped(retries), retries[i]),
    decreases retries.len(),
{
    let front = retries.drop_last();
    lemma_joined_keeps(grouped(front), retries.last(), retries[i]);
    if i < front.len() {
        every_retry_is_sent(front, i);
        assert(front[i] == retries[i]);
    }
}

/// What is listed as due is what is due: the batches whose last request is longer ago than the retry
/// delay.
proof fn lemma_due(c: SyncConfig, s: SyncState, now: u128, d: Digest)
    requires
        s.pending.dom().finite(),
    ensures
        all_due(c, s, now).contains(d) <==> s.pending.contains_key(d) && s.pending[d].timestamp
            + c.sync_retry_delay < now,
        all_due(c, s, now).no_duplicates(),
        forall|i: int, j: int|
            0 <= i < j < all_due(c, s, now).len() ==> {
                let a = #[trigger] all_due(c, s, now)[i];
                let b = #[trigger] all_due(c, s, now)[j];
                &&& s.pending[b].priority is CommitCritical ==> s.pending[a].priority
                    is CommitCritical && s.pending[a].blocked_height <= s.pending[b].blocked_height
            },
{
    let committed = due(c, s, SyncPriority::CommitCritical, now);
    let background = due(c, s, SyncPriority::Background, now);
    assert(committed.subset_of(s.pending.dom()));
    assert(background.subset_of(s.pending.dom()));
    vstd::set_lib::lemma_len_subset(committed, s.pending.dom());
    vstd::set_lib::lemma_len_subset(background, s.pending.dom());
    listing_exists(committed);
    listing_exists(background);
    let list = listing(committed);
    let rest = listing(background);
    lemma_listing_distinct(list, committed);
    lemma_listing_distinct(rest, background);
    let key = blocked_height_in(s);
    stable_sort_exists(list, key);
    let sorted = stable_sort(list, key);
    lemma_stably_sorted(list, sorted, key);
    let all = all_due(c, s, now);
    assert(all =~= sorted + rest);
    assert forall|n: int| 0 <= n < all.len() implies (if n < sorted.len() {
        committed.contains(#[trigger] all[n])
    } else {
        background.contains(all[n])
    }) by {
        if n < sorted.len() {
            assert(sorted.contains(sorted[n]));
            assert(list.contains(sorted[n]));
        } else {
            assert(rest.contains(rest[n - sorted.len()]));
        }
    }
    if all.contains(d) {
        let n = choose|n: int| 0 <= n < all.len() && all[n] == d;
        assert(if n < sorted.len() {
            committed.contains(all[n])
        } else {
            background.contains(all[n])
        });
    }
    if s.pending.contains_key(d) && s.pending[d].timestamp + c.sync_retry_delay < now {
        if s.pending[d].priority is CommitCritical {
            assert(committed.contains(d));
            assert(list.contains(d));
            assert(sorted.contains(d));
            let n = choose|n: int| 0 <= n < sorted.len() && sorted[n] == d;
            assert(all[n] == d);
        } else {
            assert(background.contains(d));
            assert(rest.contains(d));
            let n = choose|n: int| 0 <= n < rest.len() && rest[n] == d;
            assert(all[sorted.len() + n] == d);
        }
    }
    assert forall|i: int, j: int|
        0 <= i < all.len() && 0 <= j < all.len() && i != j implies all[i] != all[j] by {
        if i < sorted.len() && j < sorted.len() {
            assert(sorted[i] != sorted[j]);
        } else if i >= sorted.len() && j >= sorted.len() {
            assert(rest[i - sorted.len()] != rest[j - sorted.len()]);
        }
    }
    assert forall|i: int, j: int| 0 <= i < j < all.len() implies {
        let a = #[trigger] all[i];
        let b = #[trigger] all[j];
        &&& s.pending[b].priority is CommitCritical ==> s.pending[a].priority is CommitCritical
            && s.pending[a].blocked_height <= s.pending[b].blocked_height
    } by {
        if j < sorted.len() {
            assert(key(sorted[i]) <= key(sorted[j]));
        }
    }
}

/// Every batch that is due is requested again, unless the number of batches for one time is used up by
/// others that are at least as urgent. Only batches that are due are requested, each of them once, and
/// never more than that number.
pub proof fn every_due_batch_is_retried(c: SyncConfig, s: SyncState, now: u128, d: Digest)
    requires
        s.pending.dom().finite(),
    ensures
        ({
            let list = retried(c, s, now);
            &&& list.len() <= 128
            &&& list.no_duplicates()
            &&& list.contains(d) ==> s.pending.contains_key(d) && s.pending[d].timestamp
                + c.sync_retry_delay < now
            &&& s.pending.contains_key(d) && s.pending[d].timestamp + c.sync_retry_delay < now
                && !list.contains(d) ==> list.len() == 128 && forall|i: int|
                0 <= i < list.len() && s.pending[d].priority is CommitCritical ==> s.pending[
                #[trigger] list[i]].priority is CommitCritical && s.pending[list[i]].blocked_height
                    <= s.pending[d].blocked_height
        }),
{
    lemma_due(c, s, now, d);
    let all = all_due(c, s, now);
    let list = retried(c, s, now);
    if list.contains(d) {
        let i = choose|i: int| 0 <= i < list.len() && list[i] == d;
        assert(all[i] == d);
    }
    if all.contains(d) && !list.contains(d) {
        let n = choose|n: int| 0 <= n < all.len() && all[n] == d;
        assert(n >= list.len()) by {
            if n < list.len() {
                assert(list[n] == d);
            }
        }
        assert forall|i: int| 0 <= i < list.len() && s.pending[d].priority is CommitCritical implies
            s.pending[#[trigger] list[i]].priority is CommitCritical && s.pending[
        list[i]].blocked_height <= s.pending[d].blocked_height by {
            assert(list[i] == all[i]);
            assert(all[n] == d);
        }
    }
    assert forall|i: int, j: int| 0 <= i < list.len() && 0 <= j < list.len() && i != j implies
        list[i] != list[j] by {
        assert(all[i] != all[j]);
    }
}

/// What choosing targets for different batches, one after the other, leaves of the batch `d`.
proof fn lemma_choosing(
    list: Seq<PublicKey>,
    s: SyncState,
    digests: Seq<Digest>,
    now: u128,
    d: Digest,
    n: int,
)
    requires
        digests.no_duplicates(),
        forall|i: int| 0 <= i < digests.len() ==> s.pending.contains_key(#[trigger] digests[i]),
    ensures
        ({
            let (next, retries) = after_choosing_all(list, s, digests, now);
            &&& next.round == s.round
            &&& next.pending.dom() == s.pending.dom()
            &&& retries.len() == digests.len()
            &&& 0 <= n < digests.len() ==> retries[n].digest == digests[n] && retries[n].priority
                == s.pending[digests[n]].priority && retry_is_noted(
                list,
                s.pending[digests[n]],
                retries[n].target,
                next.pending[digests[n]],
            )
            &&& !digests.contains(d) && s.pending.contains_key(d) ==> next.pending[d]
                == s.pending[d]
            &&& 0 <= n < digests.len() ==> {
                ||| list.contains(retries[n].target)
                ||| list.len() == 0 && retries[n].target == s.pending[digests[n]].target
            }
        }),
    decreases digests.len(),
{
    if digests.len() > 0 {
        let front = digests.drop_last();
        let last = digests.last();
        assert(digests[digests.len() - 1] == last);
        assert forall|i: int, j: int|
            0 <= i < front.len() && 0 <= j < front.len() && i != j implies front[i] != front[j] by {
            assert(digests[i] != digests[j]);
        }
        assert forall|i: int| 0 <= i < front.len() implies s.pending.contains_key(
            #[trigger] front[i],
        ) by {
            assert(front[i] == digests[i]);
        }
        assert(!front.contains(last)) by {
            if front.contains(last) {
                let j = choose|j: int| 0 <= j < front.len() && front[j] == last;
                assert(digests[j] == digests[digests.len() - 1]);
            }
        }
        lemma_choosing(list, s, front, now, d, n);
        lemma_choosing(list, s, front, now, last, n);
        lemma_contains_last(digests, d);
        let (before, earlier) = after_choosing_all(list, s, front, now);
        let (next, retries) = after_choosing_all(list, s, digests, now);
        assert(s.pending.dom().contains(last));
        assert(next.pending.dom() =~= s.pending.dom());
        let target = next_target(list, s.pending[last], before.cooldowns, now);
        lemma_first_best(s.pending[last], list);
        let open = available(before.cooldowns, now, list);
        lemma_first_best(s.pending[last], open);
        lemma_available(before.cooldowns, now, list, target);
        if 0 <= n < front.len() {
            assert(retries[n] == earlier[n]);
            assert(digests[n] == front[n]);
            assert(front.contains(front[n]));
            assert(next.pending[digests[n]] == before.pending[digests[n]]);
        }
    }
}

/// The request `r` became `q` when it was repeated to `target`: the target was asked once more, and is
/// taken as not asked once that has happened three times. All but the last target count as not
/// tried once all of `list` were tried. Nothing else changes.
pub open spec fn retry_is_noted(
    list: Seq<PublicKey>,
    r: BatchSyncView,
    target: PublicKey,
    q: BatchSyncView,
) -> bool {
    let asked: int = if r.attempts.contains_key(target) {
        r.attempts[target] as int
    } else {
        0
    };
    &&& q.target == target
    &&& q.attempts.contains_key(target)
    &&& asked < 2 ==> q.attempts[target] == asked + 1
    &&& asked >= 2 ==> q.attempts[target] == 0
    &&& forall|k: PublicKey|
        k != target ==> (#[trigger] q.attempts.contains_key(k) <==> r.attempts.contains_key(k))
    &&& forall|k: PublicKey|
        k != target && r.attempts.contains_key(k) ==> #[trigger] q.attempts[k] == r.attempts[k]
    &&& q.attempted == (if list.len() > 0 && r.attempted.len() >= list.len() {
        Set::<PublicKey>::empty().insert(r.target)
    } else {
        r.attempted
    }).insert(target)
    &&& q.round == r.round
    &&& q.blocked_height == r.blocked_height
    &&& q.timestamp == r.timestamp
    &&& q.priority == r.priority
    &&& q.dependents == r.dependents
}

/// When the timer rings, exactly the batches that are requested again are redirected, each to a
/// candidate if there is one, and all others stay as they are. Nothing is forgotten and nothing is
/// waited for that was not before.
pub proof fn the_timer_redirects_what_it_retries(
    c: SyncConfig,
    s: SyncState,
    now: u128,
    d: Digest,
    i: int,
)
    requires
        s.pending.dom().finite(),
    ensures
        ({
            let list = retried(c, s, now);
            let (next, retries) = after_timer(c, s, now);
            &&& next.round == s.round
            &&& next.pending.dom() == s.pending.dom()
            &&& retries.len() == list.len()
            &&& s.pending.contains_key(d) && !list.contains(d) ==> next.pending[d] == s.pending[d]
            &&& 0 <= i < list.len() ==> {
                &&& retries[i].digest == list[i]
                &&& retries[i].priority == s.pending[list[i]].priority
                &&& retry_is_noted(
                    candidates(c),
                    s.pending[list[i]],
                    retries[i].target,
                    next.pending[list[i]],
                )
                &&& candidates(c).contains(retries[i].target) || candidates(c).len() == 0
                    && retries[i].target == s.pending[list[i]].target
            }
        }),
{
    let list = retried(c, s, now);
    every_due_batch_is_retried(c, s, now, d);
    assert forall|n: int| 0 <= n < list.len() implies s.pending.contains_key(
        #[trigger] list[n],
    ) by {
        assert(list.contains(list[n]));
        every_due_batch_is_retried(c, s, now, list[n]);
    }
    lemma_choosing(candidates(c), after_warming(s, now), list, now, d, i);
}

/// A cooldown that is over ends when the timer rings, and one that is not goes on as it is, unless it
/// begins anew. One begins exactly with the third request in a row to a target for one batch, and then
/// lasts for the fixed time.
pub proof fn cooldowns_begin_and_end(
    list: Seq<PublicKey>,
    s: SyncState,
    d: Digest,
    now: u128,
    k: PublicKey,
)
    requires
        now + 5_000 <= u128::MAX,
    ensures
        after_warming(s, now).cooldowns.contains_key(k) <==> s.cooldowns.contains_key(k)
            && s.cooldowns[k] > now,
        after_warming(s, now).cooldowns.contains_key(k) ==> after_warming(s, now).cooldowns[k]
            == s.cooldowns[k],
        after_warming(s, now).pending == s.pending,
        after_warming(s, now).round == s.round,
        ({
            let target = next_target(list, s.pending[d], s.cooldowns, now);
            let asked: int = if s.pending[d].attempts.contains_key(target) {
                s.pending[d].attempts[target] as int
            } else {
                0
            };
            let next = after_choosing(list, s, d, now);
            if k == target && asked + 1 >= 3 {
                next.cooldowns.contains_key(k) && next.cooldowns[k] == now + 5_000
            } else {
                &&& next.cooldowns.contains_key(k) <==> s.cooldowns.contains_key(k)
                &&& next.cooldowns.contains_key(k) ==> next.cooldowns[k] == s.cooldowns[k]
            }
        }),
{
}

/// The target `k` can be asked at the time `now`.
pub open spec fn is_open(cooldowns: Map<PublicKey, u128>, now: u128, k: PublicKey) -> bool {
    cooldowns.contains_key(k) ==> cooldowns[k] <= now
}

/// How often `k` was asked for the batch, and whether it was asked last: what is smaller comes first.
pub open spec fn burden(r: BatchSyncView, k: PublicKey) -> int {
    (if r.attempts.contains_key(k) {
        2 * r.attempts[k]
    } else {
        0
    }) + (if k == r.target {
        1int
    } else {
        0
    })
}

/// A batch is requested again from the first of those with the least burden: among those that can be
/// asked if there are any, and else among all. Where there is no candidate, from the last target.
pub proof fn a_retry_goes_to_the_least_burdened(
    list: Seq<PublicKey>,
    r: BatchSyncView,
    cooldowns: Map<PublicKey, u128>,
    now: u128,
)
    ensures
        ({
            let next = next_target(list, r, cooldowns, now);
            &&& list.len() == 0 ==> next == r.target
            &&& (exists|j: int| 0 <= j < list.len() && is_open(cooldowns, now, #[trigger] list[j]))
                ==> exists|i: int|
                0 <= i < list.len() && #[trigger] list[i] == next && is_open(cooldowns, now, next)
                    && (forall|j: int|
                    0 <= j < list.len() && is_open(cooldowns, now, #[trigger] list[j]) ==> burden(
                        r,
                        next,
                    ) <= burden(r, list[j]) && (j < i ==> burden(r, next) < burden(r, list[j])))
            &&& list.len() > 0 && !(exists|j: int|
                0 <= j < list.len() && is_open(cooldowns, now, #[trigger] list[j])) ==> exists|
                i: int,
            |
                0 <= i < list.len() && #[trigger] list[i] == next && (forall|j: int|
                    0 <= j < list.len() ==> burden(r, next) <= burden(r, #[trigger] list[j]) && (j
                        < i ==> burden(r, next) < burden(r, list[j])))
        }),
{
    let next = next_target(list, r, cooldowns, now);
    lemma_best_open(r, list, cooldowns, now);
    lemma_best_of_all(r, list);
}

proof fn lemma_best_of_all(r: BatchSyncView, list: Seq<PublicKey>)
    ensures
        list.len() == 0 <==> first_best(r, list) is None,
        first_best(r, list) matches Some(best) ==> exists|i: int|
            0 <= i < list.len() && #[trigger] list[i] == best && (forall|j: int|
                0 <= j < list.len() ==> burden(r, best) <= burden(r, #[trigger] list[j]) && (j < i
                    ==> burden(r, best) < burden(r, list[j]))),
    decreases list.len(),
{
    if list.len() > 0 {
        let front = list.drop_last();
        lemma_best_of_all(r, front);
        let last = list.last();
        assert(list[list.len() - 1] == last);
        if let Some(best) = first_best(r, front) {
            let i = choose|i: int|
                0 <= i < front.len() && #[trigger] front[i] == best && (forall|j: int|
                    0 <= j < front.len() ==> burden(r, best) <= burden(r, #[trigger] front[j]) && (j
                        < i ==> burden(r, best) < burden(r, front[j])));
            assert(is_better(r, last, best) <==> burden(r, last) < burden(r, best));
            assert forall|j: int| 0 <= j < front.len() implies burden(r, best) <= burden(
                r,
                #[trigger] list[j],
            ) && (j < i ==> burden(r, best) < burden(r, list[j])) by {
                assert(front[j] == list[j]);
            }
            assert(list[i] == best);
        }
    }
}

proof fn lemma_best_open(
    r: BatchSyncView,
    list: Seq<PublicKey>,
    cooldowns: Map<PublicKey, u128>,
    now: u128,
)
    ensures
        first_best(r, available(cooldowns, now, list)) is None <==> !(exists|j: int|
            0 <= j < list.len() && is_open(cooldowns, now, #[trigger] list[j])),
        first_best(r, available(cooldowns, now, list)) matches Some(best) ==> exists|i: int|
            0 <= i < list.len() && #[trigger] list[i] == best && is_open(cooldowns, now, best) && (
            forall|j: int|
                0 <= j < list.len() && is_open(cooldowns, now, #[trigger] list[j]) ==> burden(
                    r,
                    best,
                ) <= burden(r, list[j]) && (j < i ==> burden(r, best) < burden(r, list[j]))),
    decreases list.len(),
{
    if list.len() > 0 {
        let front = list.drop_last();
        lemma_best_open(r, front, cooldowns, now);
        let last = list.last();
        assert(list[list.len() - 1] == last);
        let open = available(cooldowns, now, front);
        let all = available(cooldowns, now, list);
        if is_open(cooldowns, now, last) {
            assert(all == open.push(last));
            assert(all.drop_last() =~= open);
        }
        if exists|j: int| 0 <= j < front.len() && is_open(cooldowns, now, #[trigger] front[j]) {
            let j = choose|j: int|
                0 <= j < front.len() && is_open(cooldowns, now, #[trigger] front[j]);
            assert(list[j] == front[j]);
        }
        if exists|j: int| 0 <= j < list.len() && is_open(cooldowns, now, #[trigger] list[j]) {
            let j = choose|j: int| 0 <= j < list.len() && is_open(cooldowns, now, #[trigger] list[j]);
            if j < front.len() {
                assert(front[j] == list[j]);
            }
        }
        if let Some(best) = first_best(r, open) {
            let i = choose|i: int|
                0 <= i < front.len() && #[trigger] front[i] == best && is_open(
                    cooldowns,
                    now,
                    best,
                ) && (forall|j: int|
                    0 <= j < front.len() && is_open(cooldowns, now, #[trigger] front[j]) ==> burden(
                        r,
                        best,
                    ) <= burden(r, front[j]) && (j < i ==> burden(r, best) < burden(r, front[j])));
            assert(is_better(r, last, best) <==> burden(r, last) < burden(r, best));
            assert forall|j: int|
                0 <= j < front.len() && is_open(cooldowns, now, #[trigger] list[j]) implies burden(
                r,
                best,
            ) <= burden(r, list[j]) && (j < i ==> burden(r, best) < burden(r, list[j])) by {
                assert(front[j] == list[j]);
            }
            assert(list[i] == best);
        } else {
            assert forall|j: int| 0 <= j < front.len() implies !is_open(
                cooldowns,
                now,
                #[trigger] list[j],
            ) by {
                assert(front[j] == list[j]);
            }
            if is_open(cooldowns, now, last) {
                assert(first_best(r, all) == Some(last));
                assert(list[list.len() - 1] == last);
            }
        }
    }
}

/// Once a batch has arrived it is not waited for any more, however urgent it was, and all others are
/// waited for as before. No timer asks for it.
pub proof fn a_delivered_batch_is_forgotten(
    c: SyncConfig,
    s: SyncState,
    d: Digest,
    other: Digest,
    now: u128,
    i: int,
)
    requires
        s.pending.dom().finite(),
    ensures
        ({
            let next = after_delivery(s, d);
            &&& !next.pending.contains_key(d)
            &&& other != d ==> (next.pending.contains_key(other) <==> s.pending.contains_key(other))
            &&& other != d && s.pending.contains_key(other) ==> next.pending[other]
                == s.pending[other]
            &&& next.round == s.round
            &&& next.cooldowns == s.cooldowns
            &&& !retried(c, next, now).contains(d)
            &&& 0 <= i < after_timer(c, next, now).1.len() ==> after_timer(c, next, now).1[i].digest
                != d
        }),
{
    let next = after_delivery(s, d);
    assert(next.pending.dom() =~= s.pending.dom().remove(d));
    every_due_batch_is_retried(c, next, now, d);
    the_timer_redirects_what_it_retries(c, next, now, d, i);
    let list = retried(c, next, now);
    if 0 <= i < list.len() {
        assert(list.contains(list[i]));
    }
}

/// A batch that is not waited for stays so, whatever happens, until the primary asks for it: neither a
/// delivery, a cleanup, a request that was sent nor the timer brings it back, and no request for other
/// batches does.
pub proof fn only_the_primary_makes_a_batch_awaited(
    c: SyncConfig,
    s: SyncState,
    d: Digest,
    digests: Seq<Digest>,
    target: PublicKey,
    priority: SyncPriority,
    height: Round,
    flags: (bool, bool),
    now: u128,
    other: Digest,
)
    requires
        s.pending.dom().finite(),
        !s.pending.contains_key(d),
    ensures
        !after_delivery(s, other).pending.contains_key(d),
        !after_cleanup(c, s, height).pending.contains_key(d),
        !after_sending(s, digests, flags.0, flags.1, now).pending.contains_key(d),
        !after_timer(c, s, now).0.pending.contains_key(d),
        after_asking_all(s, digests, target, priority, height, now).pending.contains_key(d)
            <==> digests.contains(d),
{
    the_timer_redirects_what_it_retries(c, s, now, d, 0);
    assert(!s.pending.dom().contains(d));
    lemma_asking(s, digests, target, priority, height, now, d);
}

/// What the primary's request for `digests` makes of the batch `d`. One that nobody waited for is
/// waited for from now on, with the given target and urgency. One that is waited for is counted once
/// more for each time that it is listed, keeps all that was asked of it, and turns to the given target
/// exactly if it becomes urgent only now. What is not listed stays as it is.
pub proof fn asking_notes_every_batch(
    s: SyncState,
    digests: Seq<Digest>,
    target: PublicKey,
    priority: SyncPriority,
    height: Round,
    now: u128,
    d: Digest,
)
    requires
        counts_fit(s, digests),
        digests.len() <= u64::MAX,
    ensures
        ({
            let next = after_asking_all(s, digests, target, priority, height, now);
            let n = digests.to_multiset().count(d);
            let q = next.pending[d];
            let r = s.pending[d];
            &&& next.round == s.round
            &&& next.cooldowns == s.cooldowns
            &&& next.pending.contains_key(d) <==> s.pending.contains_key(d) || digests.contains(d)
            &&& s.pending.contains_key(d) && !digests.contains(d) ==> q == r
            &&& !s.pending.contains_key(d) && digests.contains(d) ==> {
                &&& q.round == s.round
                &&& q.blocked_height == height
                &&& q.timestamp == now
                &&& q.target == target
                &&& q.priority == priority
                &&& q.dependents == n
                &&& q.attempted == Set::<PublicKey>::empty().insert(target)
                &&& q.attempts == Map::<PublicKey, u32>::empty().insert(target, 1)
            }
            &&& s.pending.contains_key(d) && digests.contains(d) ==> {
                let turns = priority is CommitCritical && r.priority is Background;
                &&& q.dependents == r.dependents + n
                &&& q.attempted == r.attempted.insert(target)
                &&& q.attempts == r.attempts
                &&& q.round == r.round
                &&& q.priority is CommitCritical <==> priority is CommitCritical || r.priority
                    is CommitCritical
                &&& turns ==> q.target == target && q.timestamp == now
                &&& !turns ==> q.target == r.target && q.timestamp == r.timestamp
                &&& priority is CommitCritical && height < r.blocked_height ==> q.blocked_height
                    == height
                &&& priority is Background || height >= r.blocked_height ==> q.blocked_height
                    == r.blocked_height
            }
        }),
    decreases digests.len(),
{
    broadcast use vstd::seq_lib::group_to_multiset_ensures;
    if digests.len() == 0 {
        assert(digests =~= Seq::<Digest>::empty());
    } else {
        let front = digests.drop_last();
        asking_notes_every_batch(s, front, target, priority, height, now, d);
        lemma_contains_last(digests, d);
        assert(digests =~= front.push(digests.last()));
        assert(digests.to_multiset() =~= front.to_multiset().insert(digests.last()));
        assert(front.to_multiset().count(d) <= front.len()) by {
            assert(front.to_multiset().len() == front.len());
            assert(front.to_multiset().count(d) <= front.to_multiset().len());
        }
        assert(!front.contains(d) ==> front.to_multiset().count(d) == 0);
        let q = after_asking_all(s, digests, target, priority, height, now).pending[d];
        if digests.contains(d) && s.pending.contains_key(d) {
            assert(q.attempted =~= s.pending[d].attempted.insert(target));
        }
        if digests.contains(d) && !s.pending.contains_key(d) {
            assert(q.attempted =~= Set::<PublicKey>::empty().insert(target));
        }
    }
}

/// Of the batches in a request, exactly those are waited for from now on that were not before, and
/// exactly those are requested that nobody waited for or that become urgent only now; each of them
/// once and, if none is listed twice, in the order of the list.
pub proof fn what_is_new_is_awaited_and_requested(
    s: SyncState,
    digests: Seq<Digest>,
    priority: SyncPriority,
    d: Digest,
)
    ensures
        newly_awaited(s, digests).contains(d) <==> digests.contains(d) && !s.pending.contains_key(d),
        newly_awaited(s, digests).no_duplicates(),
        to_request(s, digests, priority).contains(d) <==> digests.contains(d) && (
        s.pending.contains_key(d) ==> priority is CommitCritical && s.pending[d].priority
            is Background),
        to_request(s, digests, priority).no_duplicates(),
        digests.no_duplicates() ==> newly_awaited(s, digests) == digests.filter(
            |x: Digest| !s.pending.contains_key(x),
        ),
        digests.no_duplicates() ==> to_request(s, digests, priority) == digests.filter(
            |x: Digest|
                s.pending.contains_key(x) ==> priority is CommitCritical && s.pending[x].priority
                    is Background,
        ),
    decreases digests.len(),
{
    reveal(Seq::filter);
    if digests.len() > 0 {
        let front = digests.drop_last();
        let last = digests.last();
        what_is_new_is_awaited_and_requested(s, front, priority, d);
        what_is_new_is_awaited_and_requested(s, front, priority, last);
        lemma_contains_last(digests, d);
        let awaited = newly_awaited(s, front);
        let wanted = to_request(s, front, priority);
        lemma_push_contains(awaited, last, d);
        lemma_push_contains(wanted, last, d);
        if !awaited.contains(last) {
            lemma_push_distinct(awaited, last);
        }
        if !wanted.contains(last) {
            lemma_push_distinct(wanted, last);
        }
        if digests.no_duplicates() {
            assert forall|i: int, j: int|
                0 <= i < front.len() && 0 <= j < front.len() && i != j implies front[i]
                != front[j] by {
                assert(digests[i] != digests[j]);
            }
            assert(!front.contains(last)) by {
                if front.contains(last) {
                    let j = choose|j: int| 0 <= j < front.len() && front[j] == last;
                    assert(digests[j] == digests[digests.len() - 1]);
                }
            }
        }
    }
}

proof fn lemma_push_contains(s: Seq<Digest>, x: Digest, d: Digest)
    ensures
        s.push(x).contains(d) <==> s.contains(d) || d == x,
{
    assert(s.push(x).drop_last() =~= s);
    lemma_contains_last(s.push(x), d);
}

proof fn lemma_push_distinct(s: Seq<Digest>, x: Digest)
    requires
        s.no_duplicates(),
        !s.contains(x),
    ensures
        s.push(x).no_duplicates(),
{
    let t = s.push(x);
    assert forall|i: int, j: int| 0 <= i < t.len() && 0 <= j < t.len() && i != j implies t[i]
        != t[j] by {
        if i < s.len() && j < s.len() {
            assert(s[i] != s[j]);
        }
    }
}

/// Whether a request could be sent changes the time of no batch but those that it was for, and nothing
/// else: a repeated request that was sent counts from now on, and a first one that was not is as good
/// as never made.
pub proof fn sending_changes_times_only(
    s: SyncState,
    digests: Seq<Digest>,
    retry: bool,
    sent: bool,
    now: u128,
    d: Digest,
)
    ensures
        ({
            let next = after_sending(s, digests, retry, sent, now);
            &&& next.round == s.round
            &&& next.cooldowns == s.cooldowns
            &&& next.pending.contains_key(d) <==> s.pending.contains_key(d)
            &&& s.pending.contains_key(d) ==> next.pending[d] == (BatchSyncView {
                timestamp: next.pending[d].timestamp,
                ..s.pending[d]
            })
            &&& s.pending.contains_key(d) && digests.contains(d) && retry && sent
                ==> next.pending[d].timestamp == now
            &&& s.pending.contains_key(d) && digests.contains(d) && !retry && !sent
                ==> next.pending[d].timestamp == 0
            &&& s.pending.contains_key(d) && (!digests.contains(d) || retry != sent)
                ==> next.pending[d].timestamp == s.pending[d].timestamp
        }),
{
}

/// The garbage collection drops exactly the batches that no committed header waits for and that were
/// asked for at or below its round; their waits are cancelled. All others stay as they are.
pub proof fn a_cleanup_drops_what_is_old_and_not_urgent(
    c: SyncConfig,
    s: SyncState,
    round: Round,
    d: Digest,
)
    ensures
        ({
            let next = after_cleanup(c, s, round);
            let old = s.pending.contains_key(d) && s.pending[d].priority is Background
                && s.pending[d].round + c.gc_depth <= round;
            &&& next.round == round
            &&& next.cooldowns == s.cooldowns
            &&& next.pending.contains_key(d) <==> s.pending.contains_key(d) && !old
            &&& next.pending.contains_key(d) ==> next.pending[d] == s.pending[d]
            &&& evicted(c, s, round).contains(d) <==> old
        }),
{
}

/// Every batch of a group comes from a choice with the priority and the target of the group.
proof fn lemma_joined_holds(groups: Seq<GroupView>, r: Retry, n: int, d: Digest)
    ensures
        ({
            let grown = joined(groups, r);
            &&& groups.len() <= grown.len() <= groups.len() + 1
            &&& 0 <= n < grown.len() && grown[n].digests.contains(d) ==> {
                ||| n < groups.len() && grown[n].priority == groups[n].priority && grown[n].target
                    == groups[n].target && groups[n].digests.contains(d)
                ||| grown[n].priority == r.priority && grown[n].target == r.target && d == r.digest
            }
            &&& 0 <= n < groups.len() ==> grown[n].priority == groups[n].priority
                && grown[n].target == groups[n].target && grown[n].digests.len()
                >= groups[n].digests.len()
            &&& n == groups.len() && n < grown.len() ==> grown[n].priority == r.priority
                && grown[n].target == r.target && grown[n].digests.len() == 1 && forall|m: int|
                0 <= m < groups.len() ==> !((#[trigger] groups[m]).priority == r.priority
                    && groups[m].target == r.target)
        }),
    decreases groups.len(),
{
    let grown = joined(groups, r);
    if groups.len() == 0 {
    } else if groups[0].priority == r.priority && groups[0].target == r.target {
        lemma_push_contains(groups[0].digests, r.digest, d);
    } else {
        let rest = groups.drop_first();
        lemma_joined_holds(rest, r, n - 1, d);
        let tail = joined(rest, r);
        assert(grown =~= seq![groups[0]] + tail);
        if 1 <= n < grown.len() {
            assert(grown[n] == tail[n - 1]);
            if n < groups.len() {
                assert(groups[n] == rest[n - 1]);
            }
            if n == groups.len() {
                assert forall|m: int| 0 <= m < groups.len() implies !((#[trigger] groups[m]).priority
                    == r.priority && groups[m].target == r.target) by {
                    if m > 0 {
                        assert(rest[m - 1] == groups[m]);
                    }
                }
            }
        }
    }
}

/// The choices are sent in groups: a batch is in a group exactly if it was chosen with the priority and
/// the target of the group. No two groups have the same priority and target, and none is empty.
pub proof fn groups_hold_the_choices_and_nothing_else(
    retries: Seq<Retry>,
    n: int,
    m: int,
    d: Digest,
)
    requires
        0 <= n < grouped(retries).len(),
        0 <= m < grouped(retries).len(),
    ensures
        ({
            let groups = grouped(retries);
            &&& groups[n].digests.contains(d) <==> exists|i: int|
                0 <= i < retries.len() && (#[trigger] retries[i]).digest == d && retries[i].priority
                    == groups[n].priority && retries[i].target == groups[n].target
            &&& groups[n].priority == groups[m].priority && groups[n].target == groups[m].target
                ==> n == m
            &&& groups[n].digests.len() > 0
            &&& groups.len() <= retries.len()
        }),
    decreases retries.len(),
{
    let groups = grouped(retries);
    lemma_groups(retries, n, m, d);
    if exists|i: int|
        0 <= i < retries.len() && (#[trigger] retries[i]).digest == d && retries[i].priority
            == groups[n].priority && retries[i].target == groups[n].target {
        let i = choose|i: int|
            0 <= i < retries.len() && (#[trigger] retries[i]).digest == d && retries[i].priority
                == groups[n].priority && retries[i].target == groups[n].target;
        every_retry_is_sent(retries, i);
        let k = choose|k: int|
            0 <= k < groups.len() && (#[trigger] groups[k]).priority == retries[i].priority
                && groups[k].target == retries[i].target && groups[k].digests.contains(
                retries[i].digest,
            );
        lemma_groups(retries, n, k, d);
    }
}

proof fn lemma_groups(retries: Seq<Retry>, n: int, m: int, d: Digest)
    requires
        0 <= n < grouped(retries).len(),
        0 <= m < grouped(retries).len(),
    ensures
        ({
            let groups = grouped(retries);
            &&& groups[n].digests.contains(d) ==> exists|i: int|
                0 <= i < retries.len() && (#[trigger] retries[i]).digest == d && retries[i].priority
                    == groups[n].priority && retries[i].target == groups[n].target
            &&& groups[n].priority == groups[m].priority && groups[n].target == groups[m].target
                ==> n == m
            &&& groups[n].digests.len() > 0
            &&& groups.len() <= retries.len()
        }),
    decreases retries.len(),
{
    let groups = grouped(retries);
    let front = retries.drop_last();
    let before = grouped(front);
    let r = retries.last();
    assert(retries[retries.len() - 1] == r);
    lemma_joined_holds(before, r, n, d);
    lemma_joined_holds(before, r, m, d);
    if n < before.len() {
        lemma_groups(front, n, if m < before.len() {
            m
        } else {
            n
        }, d);
    } else if m < before.len() {
        lemma_groups(front, m, m, d);
    } else if before.len() > 0 {
        lemma_groups(front, 0, 0, d);
    }
    if n < before.len() && before[n].digests.contains(d) {
        let i = choose|i: int|
            0 <= i < front.len() && (#[trigger] front[i]).digest == d && front[i].priority
                == before[n].priority && front[i].target == before[n].target;
        assert(retries[i] == front[i]);
    }
}

/// Where the workers of a list other than that of the target listen: all of them and no others.
proof fn lemma_addresses_but(
    list: Seq<(PublicKey, crate::committee::WorkerAddresses)>,
    target: PublicKey,
    a: Address,
)
    ensures
        addresses_but(list, target).contains(a) <==> exists|i: int|
            0 <= i < list.len() && (#[trigger] list[i]).0 != target && list[i].1.worker_to_worker
                == a,
        addresses_but(list, target).len() <= list.len(),
        (forall|i: int| 0 <= i < list.len() ==> (#[trigger] list[i]).0 != target) ==> addresses_but(
            list,
            target,
        ).len() == list.len(),
    decreases list.len(),
{
    if list.len() > 0 {
        let front = list.drop_last();
        lemma_addresses_but(front, target, a);
        let last = list.last();
        assert(list[list.len() - 1] == last);
        let found = addresses_but(front, target);
        let pushed = found.push(last.1.worker_to_worker);
        assert(pushed.contains(a) <==> found.contains(a) || a == last.1.worker_to_worker) by {
            if found.contains(a) {
                let j = choose|j: int| 0 <= j < found.len() && found[j] == a;
                assert(pushed[j] == a);
            }
            assert(pushed[found.len() as int] == last.1.worker_to_worker);
        }
        if exists|i: int|
            0 <= i < front.len() && (#[trigger] front[i]).0 != target && front[i].1.worker_to_worker
                == a {
            let i = choose|i: int|
                0 <= i < front.len() && (#[trigger] front[i]).0 != target
                    && front[i].1.worker_to_worker == a;
            assert(list[i] == front[i]);
        }
        if exists|i: int|
            0 <= i < list.len() && (#[trigger] list[i]).0 != target && list[i].1.worker_to_worker
                == a {
            let i = choose|i: int|
                0 <= i < list.len() && (#[trigger] list[i]).0 != target
                    && list[i].1.worker_to_worker == a;
            if i < front.len() {
                assert(front[i] == list[i]);
            }
        }
        if forall|i: int| 0 <= i < list.len() ==> (#[trigger] list[i]).0 != target {
            assert forall|i: int| 0 <= i < front.len() implies (#[trigger] front[i]).0 != target by {
                assert(front[i] == list[i]);
            }
        }
    }
}

/// A member other than us and the target has a worker with our number, which listens at `a`.
pub open spec fn is_other_worker(c: SyncConfig, target: PublicKey, a: Address) -> bool {
    exists|i: int|
        0 <= i < c.committee.members().len() && (#[trigger] c.committee.members()[i]).0 != c.name
            && c.committee.members()[i].0 != target
            && c.committee.members()[i].1.workers@.contains_key(c.id)
            && c.committee.members()[i].1.workers@[c.id].worker_to_worker == a
}

/// A request is sent wherever its target is known and there is something to ask for. It goes to the
/// target, and on a retry or for a committed header also to some of all the other workers with our
/// number: to as many as the settings say, to no fewer than three for a committed header, and to all
/// if there are not as many. The first request for another batch goes to its target alone.
pub proof fn a_request_goes_to_its_target_and_some_others(
    c: SyncConfig,
    digests: Seq<Digest>,
    target: PublicKey,
    priority: SyncPriority,
    retry: bool,
    a: Address,
)
    ensures
        match plan_of(c, digests, target, priority, retry) {
            PlanView::Nothing => digests.len() == 0,
            PlanView::UnknownTarget => digests.len() > 0 && !(
            c.committee.authorities@.contains_key(target)
                && c.committee.authorities@[target].workers@.contains_key(c.id)),
            PlanView::Send { requestor, target: to, others, fanout } => {
                &&& digests.len() > 0
                &&& c.committee.authorities@.contains_key(target)
                &&& c.committee.authorities@[target].workers@.contains_key(c.id)
                &&& requestor == c.name
                &&& to == c.committee.authorities@[target].workers@[c.id].worker_to_worker
                &&& retry || priority is CommitCritical ==> (others.contains(a) <==> is_other_worker(
                    c,
                    target,
                    a,
                ))
                &&& !retry && priority is Background ==> others.len() == 0
                &&& fanout <= others.len()
                &&& fanout < others.len() ==> fanout == (if priority is CommitCritical
                    && c.sync_retry_nodes < 3 {
                    3nat
                } else {
                    c.sync_retry_nodes as nat
                })
                &&& priority is CommitCritical && others.len() >= 3 ==> fanout >= 3
                &&& fanout <= 3 || fanout <= c.sync_retry_nodes
                &&& priority is Background ==> fanout <= c.sync_retry_nodes
            },
        },
{
    let list = workers_but(c.committee.members(), c.name, c.id);
    lemma_addresses_but(list, target, a);
    let members = c.committee.members();
    if exists|i: int|
        0 <= i < list.len() && (#[trigger] list[i]).0 != target && list[i].1.worker_to_worker == a {
        let i = choose|i: int|
            0 <= i < list.len() && (#[trigger] list[i]).0 != target && list[i].1.worker_to_worker
                == a;
        other_workers_are_of_other_members(c.committee, c.name, c.id, list[i].0, list[i].1);
        assert(list.contains((list[i].0, list[i].1)));
        let k = choose|k: int|
            0 <= k < members.len() && (#[trigger] members[k]).0 == list[i].0
                && members[k].1.workers@.contains_key(c.id) && members[k].1.workers@[c.id]
                == list[i].1;
        assert(members[k].0 != c.name);
    }
    if is_other_worker(c, target, a) {
        let k = choose|k: int|
            0 <= k < members.len() && (#[trigger] members[k]).0 != c.name && members[k].0 != target
                && members[k].1.workers@.contains_key(c.id)
                && members[k].1.workers@[c.id].worker_to_worker == a;
        let x = (members[k].0, members[k].1.workers@[c.id]);
        other_workers_are_of_other_members(c.committee, c.name, c.id, x.0, x.1);
        assert(lists_worker(members, x.0, c.id, x.1));
        let i = choose|i: int| 0 <= i < list.len() && list[i] == x;
        assert(list[i].0 != target);
    }
}

/// Those that a batch can be requested from are the members other than us that have a worker with our
/// number.
pub proof fn the_others_with_our_number_are_candidates(c: SyncConfig, k: PublicKey)
    ensures
        candidates(c).contains(k) <==> k != c.name && exists|i: int|
            0 <= i < c.committee.members().len() && (#[trigger] c.committee.members()[i]).0 == k
                && c.committee.members()[i].1.workers@.contains_key(c.id),
{
    let list = workers_but(c.committee.members(), c.name, c.id);
    let members = c.committee.members();
    let names = candidates(c);
    assert(names.len() == list.len());
    if names.contains(k) {
        let i = choose|i: int| 0 <= i < names.len() && names[i] == k;
        assert(list[i].0 == k);
        assert(list.contains((list[i].0, list[i].1)));
        other_workers_are_of_other_members(c.committee, c.name, c.id, k, list[i].1);
        let n = choose|n: int|
            0 <= n < members.len() && (#[trigger] members[n]).0 == k
                && members[n].1.workers@.contains_key(c.id) && members[n].1.workers@[c.id]
                == list[i].1;
        assert(members[n].0 == k);
    }
    if k != c.name && exists|i: int|
        0 <= i < members.len() && (#[trigger] members[i]).0 == k
            && members[i].1.workers@.contains_key(c.id) {
        let n = choose|n: int|
            0 <= n < members.len() && (#[trigger] members[n]).0 == k
                && members[n].1.workers@.contains_key(c.id);
        let x = members[n].1.workers@[c.id];
        assert(lists_worker(members, k, c.id, x));
        other_workers_are_of_other_members(c.committee, c.name, c.id, k, x);
        let i = choose|i: int| 0 <= i < list.len() && list[i] == (k, x);
        assert(names[i] == k);
    }
}

/// A batch counts as stalled exactly if it was last requested at least the fixed time ago.
pub proof fn a_batch_is_stalled_after_a_while(s: SyncState, now: u128, d: Digest)
    ensures
        stalled(s, now).contains(d) <==> s.pending.contains_key(d) && s.pending[d].timestamp + 5_000
            <= now,
{
}

/// The counts and the clock fit unless some batch was asked for too often, or some time is too late.
pub proof fn only_large_numbers_do_not_fit(
    c: SyncConfig,
    s: SyncState,
    digests: Seq<Digest>,
    now: u128,
)
    ensures
        counts_fit(s, digests) <==> !(exists|d: Digest| #[trigger]
            s.pending.contains_key(d) && s.pending[d].dependents + digests.len() > u64::MAX),
        clock_fits(c, s, now) <==> now + 5_000 <= u128::MAX && !(exists|d: Digest| #[trigger]
            s.pending.contains_key(d) && s.pending[d].timestamp + c.sync_retry_delay > u128::MAX),
{
    if exists|d: Digest| #[trigger]
        s.pending.contains_key(d) && s.pending[d].dependents + digests.len() > u64::MAX {
        let d = choose|d: Digest| #[trigger]
            s.pending.contains_key(d) && s.pending[d].dependents + digests.len() > u64::MAX;
        assert(s.pending[d].dependents + digests.len() > u64::MAX);
    }
    if exists|d: Digest| #[trigger]
        s.pending.contains_key(d) && s.pending[d].timestamp + c.sync_retry_delay > u128::MAX {
        let d = choose|d: Digest| #[trigger]
            s.pending.contains_key(d) && s.pending[d].timestamp + c.sync_retry_delay > u128::MAX;
        assert(s.pending[d].timestamp + c.sync_retry_delay > u128::MAX);
    }
}

/// The addresses of the others are found worker by worker, in order: each but that of the target counts
/// once.
pub proof fn every_other_worker_has_an_address(
    a: Seq<(PublicKey, crate::committee::WorkerAddresses)>,
    b: Seq<(PublicKey, crate::committee::WorkerAddresses)>,
    target: PublicKey,
    x: (PublicKey, crate::committee::WorkerAddresses),
)
    ensures
        addresses_but(Seq::empty(), target).len() == 0,
        addresses_but(seq![x], target) == (if x.0 == target {
            Seq::<Address>::empty()
        } else {
            seq![x.1.worker_to_worker]
        }),
        addresses_but(a + b, target) == addresses_but(a, target) + addresses_but(b, target),
    decreases b.len(),
{
    reveal_with_fuel(addresses_but, 2);
    assert(seq![x].drop_last() =~= Seq::<(PublicKey, crate::committee::WorkerAddresses)>::empty());
    assert(addresses_but(seq![x], target) =~= (if x.0 == target {
        Seq::<Address>::empty()
    } else {
        seq![x.1.worker_to_worker]
    }));
    if b.len() == 0 {
        assert(a + b =~= a);
        assert(addresses_but(a, target) + addresses_but(b, target) =~= addresses_but(a, target));
    } else {
        every_other_worker_has_an_address(a, b.drop_last(), target, x);
        assert((a + b).drop_last() =~= a + b.drop_last());
        assert((a + b).last() == b.last());
        assert(addresses_but(a + b, target) =~= addresses_but(a, target) + addresses_but(b, target));
    }
}

/// The number of batches in all of `groups` together.
pub open spec fn batches_in(groups: Seq<GroupView>) -> nat
    decreases groups.len(),
{
    if groups.len() == 0 {
        0
    } else {
        groups[0].digests.len() + batches_in(groups.drop_first())
    }
}

proof fn lemma_joined_counts(groups: Seq<GroupView>, r: Retry)
    ensures
        batches_in(joined(groups, r)) == batches_in(groups) + 1,
    decreases groups.len(),
{
    reveal_with_fuel(batches_in, 2);
    let grown = joined(groups, r);
    if groups.len() == 0 {
        assert(grown.drop_first() =~= Seq::<GroupView>::empty());
    } else if groups[0].priority == r.priority && groups[0].target == r.target {
        assert(grown.drop_first() =~= groups.drop_first());
    } else {
        lemma_joined_counts(groups.drop_first(), r);
        assert(grown.drop_first() =~= joined(groups.drop_first(), r));
    }
}

/// The groups together hold as many batches as were chosen: none is left out and none is doubled.
pub proof fn groups_hold_every_choice_once(retries: Seq<Retry>)
    ensures
        batches_in(grouped(retries)) == retries.len(),
    decreases retries.len(),
{
    if retries.len() > 0 {
        groups_hold_every_choice_once(retries.drop_last());
        lemma_joined_counts(grouped(retries.drop_last()), retries.last());
    }
}

/// Asking `k` once more for a batch with the request `r` makes three times.
pub open spec fn is_third_time(r: BatchSyncView, k: PublicKey) -> bool {
    r.attempts.contains_key(k) && r.attempts[k] >= 2
}

/// One of the first `n` choices asked `k` for the third time.
pub open spec fn is_worn_out(
    s: SyncState,
    digests: Seq<Digest>,
    retries: Seq<Retry>,
    n: int,
    k: PublicKey,
) -> bool {
    exists|i: int|
        0 <= i < n && (#[trigger] retries[i]).target == k && is_third_time(
            s.pending[digests[i]],
            k,
        )
}

proof fn lemma_choosing_cooldowns(
    list: Seq<PublicKey>,
    s: SyncState,
    digests: Seq<Digest>,
    now: u128,
    k: PublicKey,
)
    requires
        digests.no_duplicates(),
        forall|i: int| 0 <= i < digests.len() ==> s.pending.contains_key(#[trigger] digests[i]),
        now + 5_000 <= u128::MAX,
    ensures
        ({
            let (next, retries) = after_choosing_all(list, s, digests, now);
            let worn = is_worn_out(s, digests, retries, digests.len() as int, k);
            &&& retries.len() == digests.len()
            &&& next.cooldowns.contains_key(k) <==> s.cooldowns.contains_key(k) || worn
            &&& worn ==> next.cooldowns[k] == now + 5_000
            &&& s.cooldowns.contains_key(k) && !worn ==> next.cooldowns[k] == s.cooldowns[k]
        }),
    decreases digests.len(),
{
    if digests.len() > 0 {
        let front = digests.drop_last();
        let last = digests.last();
        assert(digests[digests.len() - 1] == last);
        assert forall|i: int, j: int|
            0 <= i < front.len() && 0 <= j < front.len() && i != j implies front[i] != front[j] by {
            assert(digests[i] != digests[j]);
        }
        assert forall|i: int| 0 <= i < front.len() implies s.pending.contains_key(
            #[trigger] front[i],
        ) by {
            assert(front[i] == digests[i]);
        }
        assert(!front.contains(last)) by {
            if front.contains(last) {
                let j = choose|j: int| 0 <= j < front.len() && front[j] == last;
                assert(digests[j] == digests[digests.len() - 1]);
            }
        }
        lemma_choosing_cooldowns(list, s, front, now, k);
        lemma_choosing(list, s, front, now, last, 0);
        let (before, earlier) = after_choosing_all(list, s, front, now);
        let (next, retries) = after_choosing_all(list, s, digests, now);
        assert(before.pending[last] == s.pending[last]);
        let n = front.len() as int;
        if is_worn_out(s, front, earlier, n, k) {
            let i = choose|i: int|
                0 <= i < n && (#[trigger] earlier[i]).target == k && is_third_time(
                    s.pending[front[i]],
                    k,
                );
            assert(retries[i] == earlier[i] && digests[i] == front[i]);
        }
        if is_worn_out(s, digests, retries, n + 1, k) {
            let i = choose|i: int|
                0 <= i < n + 1 && (#[trigger] retries[i]).target == k && is_third_time(
                    s.pending[digests[i]],
                    k,
                );
            if i < n {
                assert(earlier[i] == retries[i] && digests[i] == front[i]);
            }
        }
        if retries[n].target == k && is_third_time(s.pending[last], k) {
            assert(is_worn_out(s, digests, retries, n + 1, k));
        }
    }
}

/// When the timer rings, a target is passed over afterwards exactly if its cooldown was not over or one
/// of the choices asked it for the third time; the latter lasts for the fixed time from now on, and the
/// former as long as it would have.
pub proof fn the_timer_starts_and_ends_cooldowns(
    c: SyncConfig,
    s: SyncState,
    now: u128,
    k: PublicKey,
)
    requires
        s.pending.dom().finite(),
        now + 5_000 <= u128::MAX,
    ensures
        ({
            let list = retried(c, s, now);
            let (next, retries) = after_timer(c, s, now);
            let worn = is_worn_out(s, list, retries, list.len() as int, k);
            let lasts = s.cooldowns.contains_key(k) && s.cooldowns[k] > now;
            &&& next.cooldowns.contains_key(k) <==> lasts || worn
            &&& worn ==> next.cooldowns[k] == now + 5_000
            &&& lasts && !worn ==> next.cooldowns[k] == s.cooldowns[k]
        }),
{
    let list = retried(c, s, now);
    let warm = after_warming(s, now);
    lemma_retried_is_pending(c, s, now);
    lemma_choosing_cooldowns(candidates(c), warm, list, now, k);
    let retries = after_timer(c, s, now).1;
    let n = list.len() as int;
    if is_worn_out(warm, list, retries, n, k) {
        let i = choose|i: int|
            0 <= i < n && (#[trigger] retries[i]).target == k && is_third_time(
                warm.pending[list[i]],
                k,
            );
        assert(is_third_time(s.pending[list[i]], k));
    }
    if is_worn_out(s, list, retries, n, k) {
        let i = choose|i: int|
            0 <= i < n && (#[trigger] retries[i]).target == k && is_third_time(
                s.pending[list[i]],
                k,
            );
        assert(is_third_time(warm.pending[list[i]], k));
    }
}

proof fn lemma_retried_is_pending(c: SyncConfig, s: SyncState, now: u128)
    requires
        s.pending.dom().finite(),
    ensures
        retried(c, s, now).no_duplicates(),
        forall|i: int|
            0 <= i < retried(c, s, now).len() ==> s.pending.contains_key(
                #[trigger] retried(c, s, now)[i],
            ),
{
    let list = retried(c, s, now);
    if list.len() > 0 {
        every_due_batch_is_retried(c, s, now, list[0]);
    }
    assert forall|i: int| 0 <= i < list.len() implies s.pending.contains_key(#[trigger] list[i]) by {
        assert(list.contains(list[i]));
        every_due_batch_is_retried(c, s, now, list[i]);
    }
}

proof fn lemma_choice_of(
    list: Seq<PublicKey>,
    s: SyncState,
    digests: Seq<Digest>,
    now: u128,
    n: int,
)
    requires
        digests.no_duplicates(),
        forall|i: int| 0 <= i < digests.len() ==> s.pending.contains_key(#[trigger] digests[i]),
        0 <= n < digests.len(),
    ensures
        ({
            let retries = after_choosing_all(list, s, digests, now).1;
            let (before, earlier) = after_choosing_all(list, s, digests.take(n), now);
            &&& retries.len() == digests.len()
            &&& earlier == retries.take(n)
            &&& retries[n].target == next_target(list, s.pending[digests[n]], before.cooldowns, now)
        }),
    decreases digests.len(),
{
    let front = digests.drop_last();
    let last = digests.last();
    assert(digests[digests.len() - 1] == last);
    assert forall|i: int, j: int|
        0 <= i < front.len() && 0 <= j < front.len() && i != j implies front[i] != front[j] by {
        assert(digests[i] != digests[j]);
    }
    assert forall|i: int| 0 <= i < front.len() implies s.pending.contains_key(
        #[trigger] front[i],
    ) by {
        assert(front[i] == digests[i]);
    }
    assert(!front.contains(last)) by {
        if front.contains(last) {
            let j = choose|j: int| 0 <= j < front.len() && front[j] == last;
            assert(digests[j] == digests[digests.len() - 1]);
        }
    }
    lemma_choosing(list, s, front, now, last, 0);
    let retries = after_choosing_all(list, s, digests, now).1;
    let earlier = after_choosing_all(list, s, front, now).1;
    if n < front.len() {
        lemma_choice_of(list, s, front, now, n);
        assert(front.take(n) =~= digests.take(n));
        assert(retries.take(n) =~= earlier.take(n));
        assert(retries[n] == earlier[n]);
        assert(front[n] == digests[n]);
    } else {
        assert(digests.take(n) =~= front);
        assert(retries.take(n) =~= earlier);
    }
}

/// The target `k` is passed over when the `n`-th choice is made: its cooldown was not over when the timer
/// rang, or one of the choices before asked it for the third time.
pub open spec fn is_passed_over(
    s: SyncState,
    digests: Seq<Digest>,
    retries: Seq<Retry>,
    n: int,
    now: u128,
    k: PublicKey,
) -> bool {
    ||| s.cooldowns.contains_key(k) && s.cooldowns[k] > now
    ||| is_worn_out(s, digests, retries, n, k)
}

/// When the timer rings, every batch goes to a candidate with the least burden among those that are not
/// passed over at that time, if there are any.
pub proof fn the_timer_chooses_the_least_burdened(
    c: SyncConfig,
    s: SyncState,
    now: u128,
    n: int,
    j: int,
)
    requires
        s.pending.dom().finite(),
        now + 5_000 <= u128::MAX,
        0 <= n < retried(c, s, now).len(),
        0 <= j < candidates(c).len(),
    ensures
        ({
            let list = retried(c, s, now);
            let retries = after_timer(c, s, now).1;
            let target = retries[n].target;
            let k = candidates(c)[j];
            !is_passed_over(s, list, retries, n, now, k) ==> !is_passed_over(
                s,
                list,
                retries,
                n,
                now,
                target,
            ) && burden(s.pending[list[n]], target) <= burden(s.pending[list[n]], k)
        }),
{
    let list = retried(c, s, now);
    let warm = after_warming(s, now);
    let names = candidates(c);
    let retries = after_timer(c, s, now).1;
    let k = names[j];
    lemma_retried_is_pending(c, s, now);
    lemma_choice_of(names, warm, list, now, n);
    let done = list.take(n);
    let (before, earlier) = after_choosing_all(names, warm, done, now);
    assert forall|a: int, b: int| 0 <= a < done.len() && 0 <= b < done.len() && a != b implies
        done[a] != done[b] by {
        assert(list[a] != list[b]);
    }
    assert forall|a: int| 0 <= a < done.len() implies warm.pending.contains_key(
        #[trigger] done[a],
    ) by {
        assert(done[a] == list[a]);
    }
    assert forall|x: PublicKey| #[trigger] is_open(before.cooldowns, now, x) <==> !is_passed_over(
        s,
        list,
        retries,
        n,
        now,
        x,
    ) by {
        lemma_choosing_cooldowns(names, warm, done, now, x);
        if is_worn_out(warm, done, earlier, n, x) {
            let i = choose|i: int|
                0 <= i < n && (#[trigger] earlier[i]).target == x && is_third_time(
                    warm.pending[done[i]],
                    x,
                );
            assert(retries[i] == earlier[i] && list[i] == done[i]);
        }
        if is_worn_out(s, list, retries, n, x) {
            let i = choose|i: int|
                0 <= i < n && (#[trigger] retries[i]).target == x && is_third_time(
                    s.pending[list[i]],
                    x,
                );
            assert(earlier[i] == retries[i] && list[i] == done[i]);
        }
    }
    let r = s.pending[list[n]];
    a_retry_goes_to_the_least_burdened(names, r, before.cooldowns, now);
    if !is_passed_over(s, list, retries, n, now, k) {
        assert(is_open(before.cooldowns, now, names[j]));
        let target = retries[n].target;
        let i = choose|i: int|
            0 <= i < names.len() && #[trigger] names[i] == target && is_open(
                before.cooldowns,
                now,
                target,
            ) && (forall|j: int|
                0 <= j < names.len() && is_open(before.cooldowns, now, #[trigger] names[j])
                    ==> burden(r, target) <= burden(r, names[j]) && (j < i ==> burden(r, target)
                    < burden(r, names[j])));
        assert(is_open(before.cooldowns, now, target));
    }
}

} // verus!
