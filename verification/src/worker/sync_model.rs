//! What the worker's synchronizer keeps, and the steps that lead from one state to the next.
use crate::committee::{Committee, WorkerAddresses};
use crate::ident::{Address, Digest, PublicKey, Round, WorkerId};
use crate::sorting::stable_sort;
use crate::table::{kept, listing};
use vstd::prelude::*;

verus! {

use crate::committee::workers_but;

/// The resolution of the timer that manages repeated requests, in milliseconds.
pub const TIMER_RESOLUTION: u64 = 1_000;

/// The least number of workers that a first request for a committed batch goes to, besides the one
/// that it is meant for.
pub const INITIAL_COMMITTED_SYNC_FANOUT: usize = 3;

/// The number of batches that are requested again each time that the timer rings.
pub const MAX_COMMIT_CRITICAL_RETRIES_PER_TICK: usize = 128;

/// A target is passed over for a while once it has been asked this many times for one batch.
pub const TARGET_COOLDOWN_AFTER_ATTEMPTS: u32 = 3;

/// For how long a target is passed over, in milliseconds.
pub const TARGET_COOLDOWN_MS: u128 = 5_000;

/// A batch that was last requested this long ago is stalled, in milliseconds.
pub const STALLED_BATCH_THRESHOLD_MS: u128 = 5_000;

/// How much a batch is needed.
#[derive(Clone, Copy, PartialEq, Eq, Structural, Debug)]
pub enum SyncPriority {
    /// It is not needed yet.
    Background,
    /// A committed header waits for it.
    CommitCritical,
}

/// What stays fixed while the synchronizer runs.
pub struct SyncConfig {
    /// The name of this authority.
    pub name: PublicKey,
    /// The number of this worker.
    pub id: WorkerId,
    pub committee: Committee,
    /// The depth of the garbage collection.
    pub gc_depth: Round,
    /// The delay before a request is sent again, in milliseconds.
    pub sync_retry_delay: u64,
    /// The number of other workers that a repeated request goes to.
    pub sync_retry_nodes: usize,
}

/// What is known of a batch that is waited for.
#[verifier::ext_equal]
pub struct BatchSyncView {
    /// The round in which it was first asked for.
    pub round: Round,
    /// The lowest height that waits for it.
    pub blocked_height: Round,
    /// When it was last requested.
    pub timestamp: u128,
    /// From whom it was last requested.
    pub target: PublicKey,
    pub priority: SyncPriority,
    /// How often it was asked for.
    pub dependents: u64,
    /// From whom it was requested.
    pub attempted: Set<PublicKey>,
    /// How often it was requested from each of them, since their last cooldown.
    pub attempts: Map<PublicKey, u32>,
}

/// What the synchronizer keeps.
#[verifier::ext_equal]
pub struct SyncState {
    /// The round of the primary, as far as it is known.
    pub round: Round,
    /// The batches that are waited for.
    pub pending: Map<Digest, BatchSyncView>,
    /// The targets to be passed over, and until when.
    pub cooldowns: Map<PublicKey, u128>,
}

/// No target was asked for one batch as often as brings a cooldown.
pub open spec fn attempts_fit(s: SyncState) -> bool {
    forall|d: Digest, k: PublicKey|
        s.pending.contains_key(d) && s.pending[d].attempts.contains_key(k) ==> (
        #[trigger] s.pending[d].attempts[k]) < TARGET_COOLDOWN_AFTER_ATTEMPTS
}

/// The first request for a batch, of `target` at the time `now`.
pub open spec fn first_request(
    round: Round,
    target: PublicKey,
    priority: SyncPriority,
    blocked_height: Round,
    now: u128,
) -> BatchSyncView {
    BatchSyncView {
        round,
        blocked_height,
        timestamp: now,
        target,
        priority,
        dependents: 1,
        attempted: Set::empty().insert(target),
        attempts: Map::empty().insert(target, 1u32),
    }
}

/// The request `r` is to become one for a committed header.
pub open spec fn is_upgrade(r: BatchSyncView, priority: SyncPriority) -> bool {
    priority is CommitCritical && r.priority is Background
}

/// The request `r` once the batch has been asked for again.
pub open spec fn asked_again(
    r: BatchSyncView,
    target: PublicKey,
    priority: SyncPriority,
    blocked_height: Round,
    now: u128,
) -> BatchSyncView {
    BatchSyncView {
        dependents: (r.dependents + 1) as u64,
        attempted: r.attempted.insert(target),
        priority: if is_upgrade(r, priority) {
            SyncPriority::CommitCritical
        } else {
            r.priority
        },
        target: if is_upgrade(r, priority) {
            target
        } else {
            r.target
        },
        timestamp: if is_upgrade(r, priority) {
            now
        } else {
            r.timestamp
        },
        blocked_height: if priority is CommitCritical && blocked_height < r.blocked_height {
            blocked_height
        } else {
            r.blocked_height
        },
        ..r
    }
}

/// The state once the primary has asked for the batch `d`.
pub open spec fn after_asking(
    s: SyncState,
    d: Digest,
    target: PublicKey,
    priority: SyncPriority,
    blocked_height: Round,
    now: u128,
) -> SyncState {
    SyncState {
        pending: s.pending.insert(
            d,
            if s.pending.contains_key(d) {
                asked_again(s.pending[d], target, priority, blocked_height, now)
            } else {
                first_request(s.round, target, priority, blocked_height, now)
            },
        ),
        ..s
    }
}

/// The state once the primary has asked for `digests`.
pub open spec fn after_asking_all(
    s: SyncState,
    digests: Seq<Digest>,
    target: PublicKey,
    priority: SyncPriority,
    blocked_height: Round,
    now: u128,
) -> SyncState
    decreases digests.len(),
{
    if digests.len() == 0 {
        s
    } else {
        after_asking(
            after_asking_all(s, digests.drop_last(), target, priority, blocked_height, now),
            digests.last(),
            target,
            priority,
            blocked_height,
            now,
        )
    }
}

/// Those of `digests` that are waited for from now on.
pub open spec fn newly_awaited(s: SyncState, digests: Seq<Digest>) -> Seq<Digest>
    decreases digests.len(),
{
    if digests.len() == 0 {
        Seq::empty()
    } else {
        let front = newly_awaited(s, digests.drop_last());
        let d = digests.last();
        if s.pending.contains_key(d) || digests.drop_last().contains(d) {
            front
        } else {
            front.push(d)
        }
    }
}

/// Those of `digests` that are to be requested: the ones that nobody waits for, and the ones that a
/// committed header waits for from now on.
pub open spec fn to_request(s: SyncState, digests: Seq<Digest>, priority: SyncPriority) -> Seq<
    Digest,
>
    decreases digests.len(),
{
    if digests.len() == 0 {
        Seq::empty()
    } else {
        let front = to_request(s, digests.drop_last(), priority);
        let d = digests.last();
        if digests.drop_last().contains(d) {
            front
        } else if !s.pending.contains_key(d) || is_upgrade(s.pending[d], priority) {
            front.push(d)
        } else {
            front
        }
    }
}

/// Each of `digests` can be asked for once more without exhausting its count.
pub open spec fn counts_fit(s: SyncState, digests: Seq<Digest>) -> bool {
    forall|d: Digest|
        s.pending.contains_key(d) ==> (#[trigger] s.pending[d]).dependents + digests.len()
            <= u64::MAX
}

/// `pending` once the time of the last request for each of `digests` is `t`.
pub open spec fn with_timestamps(
    pending: Map<Digest, BatchSyncView>,
    digests: Seq<Digest>,
    t: u128,
) -> Map<Digest, BatchSyncView> {
    Map::new(
        |d: Digest| pending.contains_key(d),
        |d: Digest|
            if digests.contains(d) {
                BatchSyncView { timestamp: t, ..pending[d] }
            } else {
                pending[d]
            },
    )
}

/// The state once it is known whether the request for `digests` could be sent to its target. A
/// first request that could not be sent is due at once. A repeated request counts only if it was
/// sent.
pub open spec fn after_sending(
    s: SyncState,
    digests: Seq<Digest>,
    retry: bool,
    sent: bool,
    now: u128,
) -> SyncState {
    SyncState {
        pending: if retry && sent {
            with_timestamps(s.pending, digests, now)
        } else if !retry && !sent {
            with_timestamps(s.pending, digests, 0)
        } else {
            s.pending
        },
        ..s
    }
}

/// The batch is dropped by the garbage collection.
pub open spec fn is_evicted(r: BatchSyncView, gc_round: Round) -> bool {
    r.priority is Background && r.round <= gc_round
}

/// The batches that the garbage collection drops.
pub open spec fn evicted(c: SyncConfig, s: SyncState, round: Round) -> Set<Digest> {
    if round < c.gc_depth {
        Set::empty()
    } else {
        kept(
            s.pending,
            |d: Digest, r: BatchSyncView| is_evicted(r, (round - c.gc_depth) as Round),
        ).dom()
    }
}

/// The state once the primary has reached `round`.
pub open spec fn after_cleanup(c: SyncConfig, s: SyncState, round: Round) -> SyncState {
    SyncState {
        round,
        pending: if round < c.gc_depth {
            s.pending
        } else {
            kept(
                s.pending,
                |d: Digest, r: BatchSyncView| !is_evicted(r, (round - c.gc_depth) as Round),
            )
        },
        ..s
    }
}

/// The state once the batch `d` has arrived.
pub open spec fn after_delivery(s: SyncState, d: Digest) -> SyncState {
    SyncState { pending: s.pending.remove(d), ..s }
}

/// The workers with our number of the other authorities.
pub open spec fn candidates(c: SyncConfig) -> Seq<PublicKey> {
    workers_but(c.committee.members(), c.name, c.id).map_values(
        |x: (PublicKey, WorkerAddresses)| x.0,
    )
}

/// How often the batch was requested from `k`.
pub open spec fn attempts_of(r: BatchSyncView, k: PublicKey) -> u32 {
    if r.attempts.contains_key(k) {
        r.attempts[k]
    } else {
        0
    }
}

/// `a` is to be preferred to `b`: it was asked less often or, if they were asked as often, it was
/// not asked last.
pub open spec fn is_better(r: BatchSyncView, a: PublicKey, b: PublicKey) -> bool {
    ||| attempts_of(r, a) < attempts_of(r, b)
    ||| attempts_of(r, a) == attempts_of(r, b) && a != r.target && b == r.target
}

/// The first of `list` to which none is to be preferred.
pub open spec fn first_best(r: BatchSyncView, list: Seq<PublicKey>) -> Option<PublicKey>
    decreases list.len(),
{
    if list.len() == 0 {
        None
    } else {
        match first_best(r, list.drop_last()) {
            Some(best) => if is_better(r, list.last(), best) {
                Some(list.last())
            } else {
                Some(best)
            },
            None => Some(list.last()),
        }
    }
}

/// The target `k` is not to be passed over.
pub open spec fn is_available(
    cooldowns: Map<PublicKey, u128>,
    now: u128,
    k: PublicKey,
) -> bool {
    !cooldowns.contains_key(k) || cooldowns[k] <= now
}

/// Those of `list` that are not to be passed over.
pub open spec fn available(
    cooldowns: Map<PublicKey, u128>,
    now: u128,
    list: Seq<PublicKey>,
) -> Seq<PublicKey>
    decreases list.len(),
{
    if list.len() == 0 {
        Seq::empty()
    } else {
        let front = available(cooldowns, now, list.drop_last());
        if is_available(cooldowns, now, list.last()) {
            front.push(list.last())
        } else {
            front
        }
    }
}

/// From whom the batch is to be requested next: the best that is not to be passed over, else the
/// best, else the one that was asked last.
pub open spec fn next_target(
    list: Seq<PublicKey>,
    r: BatchSyncView,
    cooldowns: Map<PublicKey, u128>,
    now: u128,
) -> PublicKey {
    match first_best(r, available(cooldowns, now, list)) {
        Some(best) => best,
        None => match first_best(r, list) {
            Some(best) => best,
            None => r.target,
        },
    }
}

/// The request `r` before its next target is chosen: once everybody was asked, all but the last are
/// taken as not asked.
pub open spec fn refreshed(list: Seq<PublicKey>, r: BatchSyncView) -> BatchSyncView {
    if list.len() > 0 && r.attempted.len() >= list.len() {
        BatchSyncView { attempted: Set::empty().insert(r.target), ..r }
    } else {
        r
    }
}

/// The request `r` once it has been repeated to `next`.
pub open spec fn redirected(r: BatchSyncView, next: PublicKey) -> BatchSyncView {
    BatchSyncView {
        target: next,
        attempted: r.attempted.insert(next),
        attempts: r.attempts.insert(
            next,
            if brings_cooldown(r, next) {
                0u32
            } else {
                (attempts_of(r, next) + 1) as u32
            },
        ),
        ..r
    }
}

/// Another request to `next` brings a cooldown.
pub open spec fn brings_cooldown(r: BatchSyncView, next: PublicKey) -> bool {
    attempts_of(r, next) + 1 >= TARGET_COOLDOWN_AFTER_ATTEMPTS
}

/// A request that is to be repeated, and to whom.
pub struct Retry {
    pub digest: Digest,
    pub priority: SyncPriority,
    pub target: PublicKey,
}

/// The target of the next request for `d`.
pub open spec fn retry_of(list: Seq<PublicKey>, s: SyncState, d: Digest, now: u128) -> Retry {
    Retry {
        digest: d,
        priority: s.pending[d].priority,
        target: next_target(list, s.pending[d], s.cooldowns, now),
    }
}

/// The state once the next target for `d` has been chosen.
pub open spec fn after_choosing(
    list: Seq<PublicKey>,
    s: SyncState,
    d: Digest,
    now: u128,
) -> SyncState {
    let r = s.pending[d];
    let next = next_target(list, r, s.cooldowns, now);
    SyncState {
        pending: s.pending.insert(d, redirected(refreshed(list, r), next)),
        cooldowns: if brings_cooldown(r, next) {
            s.cooldowns.insert(next, (now + TARGET_COOLDOWN_MS) as u128)
        } else {
            s.cooldowns
        },
        ..s
    }
}

/// The state once the next targets for `digests` have been chosen, one after the other, with the
/// choices.
pub open spec fn after_choosing_all(
    list: Seq<PublicKey>,
    s: SyncState,
    digests: Seq<Digest>,
    now: u128,
) -> (SyncState, Seq<Retry>)
    decreases digests.len(),
{
    if digests.len() == 0 {
        (s, Seq::empty())
    } else {
        let (front, retries) = after_choosing_all(list, s, digests.drop_last(), now);
        let d = digests.last();
        (after_choosing(list, front, d, now), retries.push(retry_of(list, front, d, now)))
    }
}

/// A request made at `timestamp` is due to be repeated.
pub open spec fn is_due(c: SyncConfig, timestamp: u128, now: u128) -> bool {
    timestamp + c.sync_retry_delay < now
}

/// The batches of `priority` that are due to be requested again.
pub open spec fn due(c: SyncConfig, s: SyncState, priority: SyncPriority, now: u128) -> Set<
    Digest,
> {
    kept(
        s.pending,
        |d: Digest, r: BatchSyncView| is_due(c, r.timestamp, now) && r.priority == priority,
    ).dom()
}

/// The height by which committed batches are ordered.
pub open spec fn blocked_height_in(s: SyncState) -> spec_fn(Digest) -> u64 {
    |d: Digest|
        if s.pending.contains_key(d) {
            s.pending[d].blocked_height
        } else {
            u64::MAX
        }
}

/// All batches that are due, those for committed headers first and among them those for the lowest
/// heights.
pub open spec fn all_due(c: SyncConfig, s: SyncState, now: u128) -> Seq<Digest> {
    stable_sort(
        listing(due(c, s, SyncPriority::CommitCritical, now)),
        blocked_height_in(s),
    ) + listing(due(c, s, SyncPriority::Background, now))
}

/// The batches that are requested again now.
pub open spec fn retried(c: SyncConfig, s: SyncState, now: u128) -> Seq<Digest> {
    let list = all_due(c, s, now);
    if list.len() > MAX_COMMIT_CRITICAL_RETRIES_PER_TICK {
        list.take(MAX_COMMIT_CRITICAL_RETRIES_PER_TICK as int)
    } else {
        list
    }
}

/// The state once the cooldowns that are over have been dropped.
pub open spec fn after_warming(s: SyncState, now: u128) -> SyncState {
    SyncState { cooldowns: kept(s.cooldowns, |k: PublicKey, until: u128| until > now), ..s }
}

/// The state once the timer has rung, with the choices that were made.
pub open spec fn after_timer(c: SyncConfig, s: SyncState, now: u128) -> (SyncState, Seq<Retry>) {
    after_choosing_all(candidates(c), after_warming(s, now), retried(c, s, now), now)
}

/// The batches that are to be requested together.
#[verifier::ext_equal]
pub struct GroupView {
    pub priority: SyncPriority,
    pub target: PublicKey,
    pub digests: Seq<Digest>,
}

/// `groups` once `r` has joined the group with its priority and target, or has founded it.
pub open spec fn joined(groups: Seq<GroupView>, r: Retry) -> Seq<GroupView>
    decreases groups.len(),
{
    if groups.len() == 0 {
        seq![GroupView { priority: r.priority, target: r.target, digests: seq![r.digest] }]
    } else if groups[0].priority == r.priority && groups[0].target == r.target {
        groups.update(
            0,
            GroupView { digests: groups[0].digests.push(r.digest), ..groups[0] },
        )
    } else {
        seq![groups[0]] + joined(groups.drop_first(), r)
    }
}

/// `retries` by priority and target.
pub open spec fn grouped(retries: Seq<Retry>) -> Seq<GroupView>
    decreases retries.len(),
{
    if retries.len() == 0 {
        Seq::empty()
    } else {
        joined(grouped(retries.drop_last()), retries.last())
    }
}

/// How a request is to be sent.
pub enum SendPlan {
    /// There is nothing to ask for.
    Nothing,
    /// The committee does not know the target.
    UnknownTarget,
    /// Ask `target`, and `fanout` of `others` picked at random, on behalf of `requestor`.
    Send { requestor: PublicKey, target: Address, others: Vec<Address>, fanout: usize },
}

/// How a request is to be sent.
#[verifier::ext_equal]
pub enum PlanView {
    Nothing,
    UnknownTarget,
    Send { requestor: PublicKey, target: Address, others: Seq<Address>, fanout: nat },
}

impl View for SendPlan {
    type V = PlanView;

    open spec fn view(&self) -> PlanView {
        match *self {
            SendPlan::Nothing => PlanView::Nothing,
            SendPlan::UnknownTarget => PlanView::UnknownTarget,
            SendPlan::Send { requestor, target, others, fanout } => PlanView::Send {
                requestor,
                target,
                others: others@,
                fanout: fanout as nat,
            },
        }
    }
}

/// Where the workers in `list` other than that of `target` listen.
pub open spec fn addresses_but(
    list: Seq<(PublicKey, WorkerAddresses)>,
    target: PublicKey,
) -> Seq<Address>
    decreases list.len(),
{
    if list.len() == 0 {
        Seq::empty()
    } else {
        let front = addresses_but(list.drop_last(), target);
        if list.last().0 == target {
            front
        } else {
            front.push(list.last().1.worker_to_worker)
        }
    }
}

/// The number of other workers that a request goes to, of `n`.
pub open spec fn fanout_of(c: SyncConfig, priority: SyncPriority, n: nat) -> nat {
    let wanted: nat = if priority is CommitCritical && c.sync_retry_nodes
        < INITIAL_COMMITTED_SYNC_FANOUT {
        INITIAL_COMMITTED_SYNC_FANOUT as nat
    } else {
        c.sync_retry_nodes as nat
    };
    if n < wanted {
        n
    } else {
        wanted
    }
}

/// How a request for `digests` is to be sent. The first request for a batch that no committed
/// header waits for goes to its target alone.
pub open spec fn plan_of(
    c: SyncConfig,
    digests: Seq<Digest>,
    target: PublicKey,
    priority: SyncPriority,
    retry: bool,
) -> PlanView {
    if digests.len() == 0 {
        PlanView::Nothing
    } else {
        match c.committee.worker_of(target, c.id) {
            None => PlanView::UnknownTarget,
            Some(a) => {
                let others = if retry || priority is CommitCritical {
                    addresses_but(workers_but(c.committee.members(), c.name, c.id), target)
                } else {
                    Seq::empty()
                };
                PlanView::Send {
                    requestor: c.name,
                    target: a.worker_to_worker,
                    others,
                    fanout: fanout_of(c, priority, others.len()),
                }
            },
        }
    }
}

/// The batch has been stalled for too long.
pub open spec fn is_stalled(r: BatchSyncView, now: u128) -> bool {
    now - r.timestamp >= STALLED_BATCH_THRESHOLD_MS
}

/// The batches that have been stalled for too long.
pub open spec fn stalled(s: SyncState, now: u128) -> Set<Digest> {
    kept(s.pending, |d: Digest, r: BatchSyncView| is_stalled(r, now)).dom()
}

/// The times of the requests leave room for the retry delay, and the clock for a cooldown.
pub open spec fn clock_fits(c: SyncConfig, s: SyncState, now: u128) -> bool {
    &&& now + TARGET_COOLDOWN_MS <= u128::MAX
    &&& forall|d: Digest|
        s.pending.contains_key(d) ==> (#[trigger] s.pending[d]).timestamp + c.sync_retry_delay
            <= u128::MAX
}

} // verus!
