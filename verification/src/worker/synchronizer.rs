//! Fetches the batches that the primary asks for, and decides from whom.
use crate::committee::WorkerAddresses;
use crate::ident::{Address, Digest, PublicKey, Round};
use crate::primary::primary::PrimaryWorkerMessage;
use crate::sorting::sort_by_key;
use crate::table::{KeySet, Table};
use crate::worker::sync_model::{
    Retry, SendPlan, SyncConfig, SyncPriority, INITIAL_COMMITTED_SYNC_FANOUT,
    MAX_COMMIT_CRITICAL_RETRIES_PER_TICK, STALLED_BATCH_THRESHOLD_MS,
    TARGET_COOLDOWN_AFTER_ATTEMPTS, TARGET_COOLDOWN_MS,
};
use vstd::prelude::*;

verus! {

use crate::committee::workers_but;
use crate::sorting::lemma_stably_sorted;
use crate::table::{is_listing, kept, lemma_listing_len, listing};
use crate::worker::sync_laws::{
    choosing_keeps_attempts_low, events_keep_attempts_low, every_retry_is_sent,
    groups_hold_the_choices_and_nothing_else, lemma_asking, lemma_asking_counts,
    the_timer_redirects_what_it_retries,
};
use crate::worker::sync_model::{
    addresses_but, after_asking, after_asking_all, after_choosing, after_choosing_all,
    after_cleanup, after_delivery, after_sending, after_timer, after_warming, all_due,
    asked_again, attempts_fit, attempts_of, available, blocked_height_in, brings_cooldown,
    candidates, clock_fits, counts_fit, due, evicted, first_best, first_request,
    grouped, is_better, is_due, is_evicted, is_stalled, is_upgrade, joined,
    newly_awaited, next_target, plan_of, redirected, refreshed, retried, retry_of, stalled,
    to_request, with_timestamps, BatchSyncView, GroupView, SyncState,
};

/// What is known of a batch that is waited for.
pub struct PendingBatchSync {
    pub round: Round,
    pub blocked_height: Round,
    pub timestamp: u128,
    pub target: PublicKey,
    pub priority: SyncPriority,
    pub dependents: u64,
    pub attempted_targets: KeySet<PublicKey>,
    pub target_attempts: Table<PublicKey, u32>,
}

impl View for PendingBatchSync {
    type V = BatchSyncView;

    open spec fn view(&self) -> BatchSyncView {
        BatchSyncView {
            round: self.round,
            blocked_height: self.blocked_height,
            timestamp: self.timestamp,
            target: self.target,
            priority: self.priority,
            dependents: self.dependents,
            attempted: self.attempted_targets@,
            attempts: self.target_attempts@,
        }
    }
}

impl PendingBatchSync {
    /// The first request for a batch.
    fn first(
        round: Round,
        target: PublicKey,
        priority: SyncPriority,
        blocked_height: Round,
        now: u128,
    ) -> (r: Self)
        ensures
            r@ == first_request(round, target, priority, blocked_height, now),
    {
        let mut attempted_targets: KeySet<PublicKey> = KeySet::new();
        attempted_targets.insert(target);
        let mut target_attempts: Table<PublicKey, u32> = Table::new();
        target_attempts.insert(target, 1);
        PendingBatchSync {
            round,
            blocked_height,
            timestamp: now,
            target,
            priority,
            dependents: 1,
            attempted_targets,
            target_attempts,
        }
    }

    /// Takes note that the batch has been asked for again.
    fn ask_again(
        &mut self,
        target: PublicKey,
        priority: SyncPriority,
        blocked_height: Round,
        now: u128,
    ) -> (upgraded: bool)
        requires
            old(self).dependents < u64::MAX,
        ensures
            final(self)@ == asked_again(old(self)@, target, priority, blocked_height, now),
            upgraded == is_upgrade(old(self)@, priority),
    {
        self.dependents = self.dependents + 1;
        self.attempted_targets.insert(target);
        let upgraded = matches!(priority, SyncPriority::CommitCritical) && matches!(
            self.priority,
            SyncPriority::Background
        );
        if upgraded {
            self.priority = SyncPriority::CommitCritical;
            self.target = target;
            self.timestamp = now;
        }
        if matches!(priority, SyncPriority::CommitCritical) && blocked_height
            < self.blocked_height {
            self.blocked_height = blocked_height;
        }
        upgraded
    }

    /// How often the batch was requested from `k`.
    fn attempts(&self, k: &PublicKey) -> (n: u32)
        ensures
            n == attempts_of(self@, *k),
    {
        match self.target_attempts.get(k) {
            Some(n) => *n,
            None => 0,
        }
    }

    /// Whether `a` is to be preferred to `b`.
    fn prefers(&self, a: &PublicKey, b: &PublicKey) -> (better: bool)
        ensures
            better == is_better(self@, *a, *b),
    {
        let of_a: u32 = self.attempts(a);
        let of_b: u32 = self.attempts(b);
        of_a < of_b || (of_a == of_b && *a != self.target && *b == self.target)
    }

    /// The first of `list` to which none is to be preferred.
    fn best_of(&self, list: &Vec<PublicKey>) -> (best: Option<PublicKey>)
        ensures
            best == first_best(self@, list@),
    {
        let mut best: Option<PublicKey> = None;
        let mut i: usize = 0;
        assert(list@.take(0) =~= Seq::<PublicKey>::empty());
        while i < list.len()
            invariant
                i <= list@.len(),
                best == first_best(self@, list@.take(i as int)),
            decreases list@.len() - i,
        {
            let k = list[i];
            proof {
                assert(list@.take(i + 1).drop_last() =~= list@.take(i as int));
            }
            best = match best {
                Some(b) => if self.prefers(&k, &b) {
                    Some(k)
                } else {
                    Some(b)
                },
                None => Some(k),
            };
            i += 1;
        }
        assert(list@.take(i as int) =~= list@);
        best
    }

    /// Takes note of another request to `next`, and tells whether it brings a cooldown.
    fn redirect(&mut self, next: PublicKey) -> (cooldown: bool)
        requires
            attempts_of(old(self)@, next) < TARGET_COOLDOWN_AFTER_ATTEMPTS,
        ensures
            final(self)@ == redirected(old(self)@, next),
            cooldown == brings_cooldown(old(self)@, next),
    {
        let count: u32 = self.attempts(&next) + 1;
        let cooldown = count >= TARGET_COOLDOWN_AFTER_ATTEMPTS;
        self.target_attempts.insert(
            next,
            if cooldown {
                0
            } else {
                count
            },
        );
        self.target = next;
        self.attempted_targets.insert(next);
        cooldown
    }
}

/// What is known of batches.
pub open spec fn batch_views(m: Map<Digest, PendingBatchSync>) -> Map<Digest, BatchSyncView> {
    m.map_values(|r: PendingBatchSync| r@)
}

/// A request to be sent.
pub struct SyncRequest {
    pub digests: Vec<Digest>,
    pub target: PublicKey,
    pub priority: SyncPriority,
    /// Whether the batches were requested before.
    pub retry: bool,
    pub plan: SendPlan,
}

impl SyncRequest {
    /// The request is for the batches of `g`, and to be sent accordingly.
    pub open spec fn carries(&self, c: SyncConfig, g: GroupView, retry: bool) -> bool {
        &&& self.digests@ == g.digests
        &&& self.target == g.target
        &&& self.priority == g.priority
        &&& self.retry == retry
        &&& self.plan@ == plan_of(c, g.digests, g.target, g.priority, retry)
    }
}

/// What the synchronizer asks for after a message.
pub struct SyncOutcome {
    /// The batches that are to be waited for.
    pub awaited: Vec<Digest>,
    /// The waits that are to be cancelled.
    pub cancelled: Vec<Digest>,
    /// The request that is to be sent.
    pub request: Option<SyncRequest>,
}

/// How much is being recovered.
#[derive(Clone, Copy, PartialEq, Eq, Structural, Debug)]
pub struct SyncGauges {
    pub pending: usize,
    pub stalled: usize,
}

/// Keeps the worker in sync with the others.
pub struct Synchronizer {
    pub config: SyncConfig,
    /// The round of the primary, as far as it is known.
    pub round: Round,
    /// The batches that are waited for.
    pub pending: Table<Digest, PendingBatchSync>,
    /// The targets to be passed over, and until when.
    pub target_cooldowns: Table<PublicKey, u128>,
}

impl View for Synchronizer {
    type V = SyncState;

    open spec fn view(&self) -> SyncState {
        SyncState {
            round: self.round,
            pending: batch_views(self.pending@),
            cooldowns: self.target_cooldowns@,
        }
    }
}

impl Synchronizer {
    /// A synchronizer that waits for nothing.
    pub fn new(config: SyncConfig) -> (s: Self)
        ensures
            s.config == config,
            s@ == (SyncState { round: 0, pending: Map::empty(), cooldowns: Map::empty() }),
            attempts_fit(s@),
    {
        let s = Synchronizer {
            config,
            round: 0,
            pending: Table::new(),
            target_cooldowns: Table::new(),
        };
        assert(s@.pending =~= Map::<Digest, BatchSyncView>::empty());
        s
    }

    /// The workers with our number of the other authorities.
    pub fn candidate_targets(&self) -> (names: Vec<PublicKey>)
        ensures
            names@ == candidates(self.config),
    {
        let others = self.config.committee.others_workers(&self.config.name, &self.config.id);
        let mut names: Vec<PublicKey> = Vec::new();
        let mut i: usize = 0;
        while i < others.len()
            invariant
                i <= others@.len(),
                names@.len() == i,
                forall|j: int| 0 <= j < i ==> #[trigger] names@[j] == others@[j].0,
            decreases others@.len() - i,
        {
            names.push(others[i].0);
            i += 1;
        }
        assert(names@ =~= candidates(self.config));
        names
    }

    /// Chooses from whom the batch is to be requested next.
    pub fn select_retry_target_from_candidates(
        list: &Vec<PublicKey>,
        request: &mut PendingBatchSync,
        target_cooldowns: &Table<PublicKey, u128>,
        now: u128,
    ) -> (next: PublicKey)
        ensures
            final(request)@ == refreshed(list@, old(request)@),
            next == next_target(list@, old(request)@, target_cooldowns@, now),
    {
        let ghost r = request@;
        if list.len() > 0 && request.attempted_targets.len() >= list.len() {
            request.attempted_targets.clear();
            let target = request.target;
            request.attempted_targets.insert(target);
        }
        let mut open: Vec<PublicKey> = Vec::new();
        let mut i: usize = 0;
        assert(list@.take(0) =~= Seq::<PublicKey>::empty());
        while i < list.len()
            invariant
                i <= list@.len(),
                open@ == available(target_cooldowns@, now, list@.take(i as int)),
            decreases list@.len() - i,
        {
            proof {
                assert(list@.take(i + 1).drop_last() =~= list@.take(i as int));
            }
            let is_open = match target_cooldowns.get(&list[i]) {
                Some(until) => *until <= now,
                None => true,
            };
            if is_open {
                open.push(list[i]);
            }
            i += 1;
        }
        proof {
            assert(list@.take(i as int) =~= list@);
            lemma_best_ignores_attempted(r, request@, list@);
            lemma_best_ignores_attempted(r, request@, open@);
        }
        match request.best_of(&open) {
            Some(best) => best,
            None => match request.best_of(list) {
                Some(best) => best,
                None => request.target,
            },
        }
    }

    /// How a request for `digests` is to be sent.
    pub fn send_sync_request(
        &self,
        digests: &Vec<Digest>,
        target: PublicKey,
        priority: SyncPriority,
        retry: bool,
    ) -> (plan: SendPlan)
        ensures
            plan@ == plan_of(self.config, digests@, target, priority, retry),
    {
        if digests.len() == 0 {
            return SendPlan::Nothing;
        }
        let target_address = match self.config.committee.worker(&target, &self.config.id) {
            Some(addresses) => addresses.worker_to_worker,
            None => {
                return SendPlan::UnknownTarget;
            },
        };
        let mut others: Vec<Address> = Vec::new();
        if retry || matches!(priority, SyncPriority::CommitCritical) {
            others = self.other_addresses(target);
        }
        let wanted: usize = if matches!(priority, SyncPriority::CommitCritical)
            && self.config.sync_retry_nodes < INITIAL_COMMITTED_SYNC_FANOUT {
            INITIAL_COMMITTED_SYNC_FANOUT
        } else {
            self.config.sync_retry_nodes
        };
        let fanout: usize = if others.len() < wanted {
            others.len()
        } else {
            wanted
        };
        assert(retry || priority is CommitCritical || others@ =~= Seq::<Address>::empty());
        SendPlan::Send { requestor: self.config.name, target: target_address, others, fanout }
    }

    /// Where the workers with our number other than that of `target` listen.
    fn other_addresses(&self, target: PublicKey) -> (others: Vec<Address>)
        ensures
            others@ == addresses_but(
                workers_but(self.config.committee.members(), self.config.name, self.config.id),
                target,
            ),
    {
        let list = self.config.committee.others_workers(&self.config.name, &self.config.id);
        let mut others: Vec<Address> = Vec::new();
        let mut i: usize = 0;
        assert(list@.take(0) =~= Seq::<(PublicKey, WorkerAddresses)>::empty());
        while i < list.len()
            invariant
                i <= list@.len(),
                others@ == addresses_but(list@.take(i as int), target),
            decreases list@.len() - i,
        {
            proof {
                assert(list@.take(i + 1).drop_last() =~= list@.take(i as int));
            }
            if list[i].0 != target {
                others.push(list[i].1.worker_to_worker);
            }
            i += 1;
        }
        assert(list@.take(i as int) =~= list@);
        others
    }

    /// Takes note that the primary asked for `digests`, and tells which of them are to be waited for
    /// and which are to be requested.
    fn ask_for(
        &mut self,
        digests: &Vec<Digest>,
        target: PublicKey,
        priority: SyncPriority,
        blocked_height: Round,
        now: u128,
    ) -> (lists: (Vec<Digest>, Vec<Digest>))
        requires
            counts_fit(old(self)@, digests@),
        ensures
            final(self).config == old(self).config,
            final(self)@ == after_asking_all(
                old(self)@,
                digests@,
                target,
                priority,
                blocked_height,
                now,
            ),
            lists.0@ == newly_awaited(old(self)@, digests@),
            lists.1@ == to_request(old(self)@, digests@, priority),
    {
        let ghost s = self@;
        let mut awaited: Vec<Digest> = Vec::new();
        let mut missing: Vec<Digest> = Vec::new();
        let mut i: usize = 0;
        assert(digests@.take(0) =~= Seq::<Digest>::empty());
        while i < digests.len()
            invariant
                i <= digests@.len(),
                s == old(self)@,
                counts_fit(s, digests@),
                self.config == old(self).config,
                self@ == after_asking_all(
                    s,
                    digests@.take(i as int),
                    target,
                    priority,
                    blocked_height,
                    now,
                ),
                awaited@ == newly_awaited(s, digests@.take(i as int)),
                missing@ == to_request(s, digests@.take(i as int), priority),
            decreases digests@.len() - i,
        {
            let digest = digests[i];
            let ghost front = digests@.take(i as int);
            let ghost before = self@;
            proof {
                assert(digests@.take(i + 1).drop_last() =~= front);
                lemma_asking(s, front, target, priority, blocked_height, now, digest);
                lemma_asking_counts(s, front, target, priority, blocked_height, now, digest);
            }
            match self.pending.remove(&digest) {
                Some(mut request) => {
                    assert(request@ == before.pending[digest]);
                    let upgraded = request.ask_again(target, priority, blocked_height, now);
                    if upgraded {
                        missing.push(digest);
                    }
                    self.pending.insert(digest, request);
                },
                None => {
                    missing.push(digest);
                    awaited.push(digest);
                    let request = PendingBatchSync::first(
                        self.round,
                        target,
                        priority,
                        blocked_height,
                        now,
                    );
                    self.pending.insert(digest, request);
                },
            }
            proof {
                assert(self@.pending =~= after_asking(
                    before,
                    digest,
                    target,
                    priority,
                    blocked_height,
                    now,
                ).pending);
            }
            i += 1;
        }
        assert(digests@.take(i as int) =~= digests@);
        (awaited, missing)
    }

    /// Whether each batch can be asked for as often as `digests` has elements without exhausting
    /// its count.
    pub fn counts_fit(&self, digests: &Vec<Digest>) -> (b: bool)
        ensures
            b == counts_fit(self@, digests@),
    {
        let n: u64 = digests.len() as u64;
        let fits = |d: &Digest, r: &PendingBatchSync| -> (b: bool)
            ensures
                b == (r.dependents + n <= u64::MAX),
            { r.dependents <= u64::MAX - n };
        let b = self.pending.all(
            fits,
            Ghost(|d: Digest, r: PendingBatchSync| r.dependents + n <= u64::MAX),
        );
        proof {
            let s = self@;
            if b {
                assert forall|d: Digest| s.pending.contains_key(d) implies (
                #[trigger] s.pending[d]).dependents + digests@.len() <= u64::MAX by {
                    assert(self.pending@.contains_key(d));
                }
            } else {
                let d = choose|d: Digest| #[trigger]
                    self.pending@.contains_key(d) && !(self.pending@[d].dependents + n
                        <= u64::MAX);
                assert(s.pending[d].dependents + digests@.len() > u64::MAX);
            }
        }
        b
    }

    /// Whether the times of the requests leave room for the retry delay, and the clock for a
    /// cooldown.
    pub fn clock_fits(&self, now: u128) -> (b: bool)
        ensures
            b == clock_fits(self.config, self@, now),
    {
        let delay: u64 = self.config.sync_retry_delay;
        let fits = |d: &Digest, r: &PendingBatchSync| -> (b: bool)
            ensures
                b == (r.timestamp + delay <= u128::MAX),
            { r.timestamp <= u128::MAX - (delay as u128) };
        let all = self.pending.all(
            fits,
            Ghost(|d: Digest, r: PendingBatchSync| r.timestamp + delay <= u128::MAX),
        );
        proof {
            let s = self@;
            if all {
                assert forall|d: Digest| s.pending.contains_key(d) implies (
                #[trigger] s.pending[d]).timestamp + self.config.sync_retry_delay
                    <= u128::MAX by {
                    assert(self.pending@.contains_key(d));
                }
            } else {
                let d = choose|d: Digest| #[trigger]
                    self.pending@.contains_key(d) && !(self.pending@[d].timestamp + delay
                        <= u128::MAX);
                assert(s.pending[d].timestamp + self.config.sync_retry_delay > u128::MAX);
            }
        }
        all && now <= u128::MAX - TARGET_COOLDOWN_MS
    }

    /// Handles a message of the primary.
    pub fn on_message(&mut self, message: PrimaryWorkerMessage, now: u128) -> (outcome: SyncOutcome)
        requires
            message matches PrimaryWorkerMessage::Synchronize(digests, _) ==> counts_fit(
                old(self)@,
                digests@,
            ),
            message matches PrimaryWorkerMessage::SynchronizeCommitted(digests, _, _)
                ==> counts_fit(old(self)@, digests@),
        ensures
            final(self).config == old(self).config,
            attempts_fit(old(self)@) ==> attempts_fit(final(self)@),
            match message {
                PrimaryWorkerMessage::Synchronize(digests, target) => {
                    let priority = SyncPriority::Background;
                    let missing = to_request(old(self)@, digests@, priority);
                    &&& final(self)@ == after_asking_all(
                        old(self)@,
                        digests@,
                        target,
                        priority,
                        Round::MAX,
                        now,
                    )
                    &&& outcome.awaited@ == newly_awaited(old(self)@, digests@)
                    &&& outcome.cancelled@.len() == 0
                    &&& outcome.request matches Some(r) && r.carries(
                        old(self).config,
                        GroupView { priority, target, digests: missing },
                        false,
                    )
                },
                PrimaryWorkerMessage::SynchronizeCommitted(digests, target, blocked_height) => {
                    let priority = SyncPriority::CommitCritical;
                    let missing = to_request(old(self)@, digests@, priority);
                    &&& final(self)@ == after_asking_all(
                        old(self)@,
                        digests@,
                        target,
                        priority,
                        blocked_height,
                        now,
                    )
                    &&& outcome.awaited@ == newly_awaited(old(self)@, digests@)
                    &&& outcome.cancelled@.len() == 0
                    &&& outcome.request matches Some(r) && r.carries(
                        old(self).config,
                        GroupView { priority, target, digests: missing },
                        false,
                    )
                },
                PrimaryWorkerMessage::Cleanup(round) => {
                    &&& final(self)@ == after_cleanup(old(self).config, old(self)@, round)
                    &&& outcome.awaited@.len() == 0
                    &&& is_listing(
                        outcome.cancelled@,
                        evicted(old(self).config, old(self)@, round),
                    )
                    &&& outcome.request is None
                },
            },
    {
        proof {
            if attempts_fit(self@) {
                lemma_message_keeps_attempts_low(self.config, self@, message, now);
            }
        }
        match message {
            PrimaryWorkerMessage::Synchronize(digests, target) => self.synchronize(
                digests,
                target,
                SyncPriority::Background,
                Round::MAX,
                now,
            ),
            PrimaryWorkerMessage::SynchronizeCommitted(digests, target, blocked_height) => {
                self.synchronize(
                    digests,
                    target,
                    SyncPriority::CommitCritical,
                    blocked_height,
                    now,
                )
            },
            PrimaryWorkerMessage::Cleanup(round) => SyncOutcome {
                awaited: Vec::new(),
                cancelled: self.cleanup(round),
                request: None,
            },
        }
    }

    /// Handles a request of the primary for batches.
    fn synchronize(
        &mut self,
        digests: Vec<Digest>,
        target: PublicKey,
        priority: SyncPriority,
        blocked_height: Round,
        now: u128,
    ) -> (outcome: SyncOutcome)
        requires
            counts_fit(old(self)@, digests@),
        ensures
            final(self).config == old(self).config,
            final(self)@ == after_asking_all(
                old(self)@,
                digests@,
                target,
                priority,
                blocked_height,
                now,
            ),
            outcome.awaited@ == newly_awaited(old(self)@, digests@),
            outcome.cancelled@.len() == 0,
            outcome.request matches Some(r) && r.carries(
                old(self).config,
                GroupView {
                    priority,
                    target,
                    digests: to_request(old(self)@, digests@, priority),
                },
                false,
            ),
    {
        let (awaited, missing) = self.ask_for(&digests, target, priority, blocked_height, now);
        let plan = self.send_sync_request(&missing, target, priority, false);
        SyncOutcome {
            awaited,
            cancelled: Vec::new(),
            request: Some(SyncRequest { digests: missing, target, priority, retry: false, plan }),
        }
    }

    /// Takes note of the round of the primary, and drops the batches that are too old. The ones that
    /// committed headers wait for stay.
    fn cleanup(&mut self, round: Round) -> (cancelled: Vec<Digest>)
        ensures
            final(self).config == old(self).config,
            final(self)@ == after_cleanup(old(self).config, old(self)@, round),
            is_listing(cancelled@, evicted(old(self).config, old(self)@, round)),
    {
        self.round = round;
        if round < self.config.gc_depth {
            return Vec::new();
        }
        let gc_round: Round = round - self.config.gc_depth;
        let is_old = |d: &Digest, r: &PendingBatchSync| -> (b: bool)
            ensures
                b == is_evicted(r@, gc_round),
            { matches!(r.priority, SyncPriority::Background) && r.round <= gc_round };
        let ghost p = |d: Digest, r: PendingBatchSync| is_evicted(r@, gc_round);
        let cancelled = self.pending.keys_where(is_old, Ghost(p));
        assert(kept(self.pending@, p).dom() =~= evicted(old(self).config, old(self)@, round));
        let keep = |d: &Digest, r: &PendingBatchSync| -> (b: bool)
            ensures
                b == !is_evicted(r@, gc_round),
            { !(matches!(r.priority, SyncPriority::Background) && r.round <= gc_round) };
        self.pending.retain(
            keep,
            Ghost(|d: Digest, r: PendingBatchSync| !is_evicted(r@, gc_round)),
        );
        assert(self@.pending =~= after_cleanup(old(self).config, old(self)@, round).pending);
        cancelled
    }

    /// Takes note of whether the request for `digests` could be sent to its target.
    pub fn on_sent(&mut self, digests: &Vec<Digest>, retry: bool, sent: bool, now: u128)
        ensures
            final(self).config == old(self).config,
            final(self)@ == after_sending(old(self)@, digests@, retry, sent, now),
            attempts_fit(old(self)@) ==> attempts_fit(final(self)@),
    {
        proof {
            if attempts_fit(self@) {
                events_keep_attempts_low(
                    self.config,
                    self@,
                    digests@,
                    self.config.name,
                    SyncPriority::Background,
                    0,
                    (retry, sent),
                    now,
                );
            }
        }
        if retry != sent {
            return ;
        }
        let timestamp: u128 = if retry {
            now
        } else {
            0
        };
        let mut i: usize = 0;
        assert(self@.pending =~= with_timestamps(self@.pending, digests@.take(0), timestamp));
        while i < digests.len()
            invariant
                i <= digests@.len(),
                self.config == old(self).config,
                self@ == (SyncState {
                    pending: with_timestamps(
                        old(self)@.pending,
                        digests@.take(i as int),
                        timestamp,
                    ),
                    ..old(self)@
                }),
            decreases digests@.len() - i,
        {
            let digest = digests[i];
            let ghost before = self@;
            if let Some(mut request) = self.pending.remove(&digest) {
                assert(request@ == before.pending[digest]);
                request.timestamp = timestamp;
                assert(request@ == (BatchSyncView { timestamp, ..before.pending[digest] }));
                self.pending.insert(digest, request);
                assert(self@.pending =~= before.pending.insert(digest, request@));
            } else {
                assert(self@.pending =~= before.pending);
            }
            proof {
                let front = digests@.take(i as int);
                let more = digests@.take(i + 1);
                assert(more =~= front.push(digest));
                assert forall|d: Digest| #[trigger] more.contains(d) <==> front.contains(d) || d
                    == digest by {
                    if front.contains(d) {
                        let j = choose|j: int| 0 <= j < front.len() && front[j] == d;
                        assert(more[j] == d);
                    }
                    assert(more[i as int] == digest);
                }
                assert(self@.pending =~= with_timestamps(old(self)@.pending, more, timestamp));
            }
            i += 1;
        }
        assert(digests@.take(i as int) =~= digests@);
    }

    /// Takes note that the batch has arrived.
    pub fn on_delivered(&mut self, digest: &Digest)
        ensures
            final(self).config == old(self).config,
            final(self)@ == after_delivery(old(self)@, *digest),
            attempts_fit(old(self)@) ==> attempts_fit(final(self)@),
    {
        proof {
            if attempts_fit(self@) {
                events_keep_attempts_low(
                    self.config,
                    self@,
                    Seq::empty(),
                    self.config.name,
                    SyncPriority::Background,
                    0,
                    (false, false),
                    0,
                );
                assert(attempts_fit(after_delivery(self@, *digest)));
            }
        }
        self.pending.remove(digest);
        assert(self@.pending =~= old(self)@.pending.remove(*digest));
    }

    /// The batches of `priority` that are due to be requested again.
    fn due_batches(&self, priority: SyncPriority, now: u128) -> (digests: Vec<Digest>)
        requires
            clock_fits(self.config, self@, now),
        ensures
            is_listing(digests@, due(self.config, self@, priority, now)),
            digests@ == listing(due(self.config, self@, priority, now)),
    {
        let delay: u64 = self.config.sync_retry_delay;
        let ghost c = self.config;
        let overdue = |d: &Digest, r: &PendingBatchSync| -> (b: bool)
            requires
                r.timestamp + delay <= u128::MAX,
            ensures
                b == (r.timestamp + delay < now && r.priority == priority),
            { r.timestamp + (delay as u128) < now && r.priority == priority };
        let ghost p = |d: Digest, r: PendingBatchSync|
            is_due(c, r.timestamp, now) && r.priority == priority;
        proof {
            assert forall|k: Digest, v: PendingBatchSync|
                self.pending@.contains_key(k) && self.pending@[k] == v implies #[trigger]
                call_requires(overdue, (&k, &v)) by {
                assert(self@.pending[k] == v@);
            }
            assert(kept(self.pending@, p).dom() =~= due(c, self@, priority, now));
        }
        self.pending.keys_where(overdue, Ghost(p))
    }

    /// The batches that are to be requested again.
    fn retry_list(&self, now: u128) -> (list: Vec<Digest>)
        requires
            clock_fits(self.config, self@, now),
        ensures
            list@ == retried(self.config, self@, now),
            forall|i: int|
                0 <= i < list@.len() ==> self@.pending.contains_key(#[trigger] list@[i]),
    {
        let committed = self.due_batches(SyncPriority::CommitCritical, now);
        let background = self.due_batches(SyncPriority::Background, now);
        let ghost set = due(self.config, self@, SyncPriority::CommitCritical, now);
        let ghost unsorted = committed@;
        let pending = &self.pending;
        let blocked_height = |d: &Digest| -> (h: u64)
            ensures
                h == (if pending@.contains_key(*d) {
                    pending@[*d].blocked_height
                } else {
                    u64::MAX
                }),
            {
                match pending.get(d) {
                    Some(request) => request.blocked_height,
                    None => u64::MAX,
                }
            };
        let mut list = sort_by_key(committed, blocked_height, Ghost(blocked_height_in(self@)));
        proof {
            lemma_stably_sorted(unsorted, list@, blocked_height_in(self@));
        }
        let ghost sorted = list@;
        let mut i: usize = 0;
        while i < background.len()
            invariant
                i <= background@.len(),
                list@ == sorted + background@.take(i as int),
            decreases background@.len() - i,
        {
            list.push(background[i]);
            i += 1;
        }
        proof {
            assert(background@.take(i as int) =~= background@);
            assert(list@ == all_due(self.config, self@, now));
            assert forall|j: int| 0 <= j < list@.len() implies self@.pending.contains_key(
                #[trigger] list@[j],
            ) by {
                if j < sorted.len() {
                    assert(sorted.contains(list@[j]));
                    assert(unsorted.contains(list@[j]));
                    assert(set.contains(list@[j]));
                } else {
                    assert(background@.contains(list@[j]));
                }
            }
        }
        if list.len() > MAX_COMMIT_CRITICAL_RETRIES_PER_TICK {
            list.truncate(MAX_COMMIT_CRITICAL_RETRIES_PER_TICK);
        }
        list
    }

    /// Chooses from whom `digest` is to be requested next.
    fn choose_target(&mut self, list: &Vec<PublicKey>, digest: Digest, now: u128) -> (retry: Retry)
        requires
            old(self)@.pending.contains_key(digest),
            attempts_fit(old(self)@),
            now + TARGET_COOLDOWN_MS <= u128::MAX,
        ensures
            final(self).config == old(self).config,
            final(self)@ == after_choosing(list@, old(self)@, digest, now),
            retry == retry_of(list@, old(self)@, digest, now),
    {
        let ghost s = self@;
        match self.pending.remove(&digest) {
            Some(mut request) => {
                assert(request@ == s.pending[digest]);
                let next = Self::select_retry_target_from_candidates(
                    list,
                    &mut request,
                    &self.target_cooldowns,
                    now,
                );
                proof {
                    assert(request@.attempts == s.pending[digest].attempts);
                    if request@.attempts.contains_key(next) {
                        assert(s.pending[digest].attempts[next] < TARGET_COOLDOWN_AFTER_ATTEMPTS);
                    }
                }
                let cooldown = request.redirect(next);
                let priority = request.priority;
                self.pending.insert(digest, request);
                if cooldown {
                    self.target_cooldowns.insert(next, now + TARGET_COOLDOWN_MS);
                }
                assert(self@.pending =~= after_choosing(list@, s, digest, now).pending);
                Retry { digest, priority, target: next }
            },
            None => Retry { digest, priority: SyncPriority::Background, target: self.config.name },
        }
    }

    /// Chooses from whom the batches that are due are to be requested again, and lists the requests.
    pub fn on_timer(&mut self, now: u128) -> (requests: Vec<SyncRequest>)
        requires
            attempts_fit(old(self)@),
            clock_fits(old(self).config, old(self)@, now),
        ensures
            final(self).config == old(self).config,
            final(self)@ == after_timer(old(self).config, old(self)@, now).0,
            attempts_fit(final(self)@),
            ({
                let groups = grouped(after_timer(old(self).config, old(self)@, now).1);
                &&& requests@.len() == groups.len()
                &&& forall|i: int|
                    0 <= i < groups.len() ==> (#[trigger] requests@[i]).carries(
                        old(self).config,
                        groups[i],
                        true,
                    )
            }),
    {
        let digests = self.retry_list(now);
        let keep = |k: &PublicKey, until: &u128| -> (b: bool)
            ensures
                b == (now < *until),
            { now < *until };
        self.target_cooldowns.retain(keep, Ghost(|k: PublicKey, until: u128| until > now));
        let ghost start = after_warming(old(self)@, now);
        assert(self@ == start);
        let list = self.candidate_targets();
        let mut groups: Vec<RetryGroup> = Vec::new();
        let ghost mut retries: Seq<Retry> = Seq::empty();
        let mut i: usize = 0;
        assert(digests@.take(0) =~= Seq::<Digest>::empty());
        assert(group_views(groups@) =~= Seq::<GroupView>::empty());
        while i < digests.len()
            invariant
                i <= digests@.len(),
                now + TARGET_COOLDOWN_MS <= u128::MAX,
                self.config == old(self).config,
                (self@, retries) == after_choosing_all(
                    list@,
                    start,
                    digests@.take(i as int),
                    now,
                ),
                group_views(groups@) == grouped(retries),
                attempts_fit(self@),
                forall|j: int|
                    0 <= j < digests@.len() ==> self@.pending.contains_key(#[trigger] digests@[j]),
            decreases digests@.len() - i,
        {
            let ghost before = self@;
            proof {
                assert(digests@.take(i + 1).drop_last() =~= digests@.take(i as int));
                assert(digests@.take(i + 1).last() == digests@[i as int]);
                choosing_keeps_attempts_low(list@, before, digests@[i as int], now);
            }
            let retry = self.choose_target(&list, digests[i], now);
            proof {
                retries = retries.push(retry);
                assert(retries.drop_last() =~= after_choosing_all(
                    list@,
                    start,
                    digests@.take(i as int),
                    now,
                ).1);
            }
            join_group(&mut groups, retry);
            i += 1;
        }
        assert(digests@.take(i as int) =~= digests@);
        let mut requests: Vec<SyncRequest> = Vec::new();
        for group in iter: groups
            invariant
                iter.seq() == groups@,
                self.config == old(self).config,
                requests@.len() == iter.index(),
                forall|j: int|
                    0 <= j < iter.index() ==> (#[trigger] requests@[j]).carries(
                        self.config,
                        groups@[j]@,
                        true,
                    ),
        {
            let plan = self.send_sync_request(&group.digests, group.target, group.priority, true);
            requests.push(
                SyncRequest {
                    digests: group.digests,
                    target: group.target,
                    priority: group.priority,
                    retry: true,
                    plan,
                },
            );
        }
        requests
    }

    /// The number of batches that are waited for, and of those that are stalled.
    pub fn gauges(&self, now: u128) -> (gauges: SyncGauges)
        ensures
            gauges.pending == self@.pending.len(),
            gauges.stalled == stalled(self@, now).len(),
    {
        let is_late = |d: &Digest, r: &PendingBatchSync| -> (b: bool)
            ensures
                b == is_stalled(r@, now),
            { now >= r.timestamp && now - r.timestamp >= STALLED_BATCH_THRESHOLD_MS };
        let ghost p = |d: Digest, r: PendingBatchSync| is_stalled(r@, now);
        let late = self.pending.keys_where(is_late, Ghost(p));
        let pending: usize = self.pending.len();
        proof {
            assert(kept(self.pending@, p).dom() =~= stalled(self@, now));
            lemma_listing_len(late@, stalled(self@, now));
            assert(self@.pending.dom() =~= self.pending@.dom());
        }
        SyncGauges { pending, stalled: late.len() }
    }
}

/// The batches that are to be requested together.
struct RetryGroup {
    priority: SyncPriority,
    target: PublicKey,
    digests: Vec<Digest>,
}

impl View for RetryGroup {
    type V = GroupView;

    closed spec fn view(&self) -> GroupView {
        GroupView { priority: self.priority, target: self.target, digests: self.digests@ }
    }
}

/// What `groups` hold.
spec fn group_views(groups: Seq<RetryGroup>) -> Seq<GroupView> {
    groups.map_values(|g: RetryGroup| g@)
}

/// Adds `retry` to the group with its priority and target.
fn join_group(groups: &mut Vec<RetryGroup>, retry: Retry)
    ensures
        group_views(final(groups)@) == joined(group_views(old(groups)@), retry),
{
    let ghost before = group_views(groups@);
    let mut i: usize = 0;
    while i < groups.len() && !(groups[i].priority == retry.priority && groups[i].target
        == retry.target)
        invariant
            i <= groups@.len(),
            before == group_views(groups@),
            groups@ == old(groups)@,
            forall|j: int|
                0 <= j < i ==> !((#[trigger] before[j]).priority == retry.priority
                    && before[j].target == retry.target),
        decreases groups@.len() - i,
    {
        assert(before[i as int] == groups@[i as int]@);
        i += 1;
    }
    proof {
        if i < groups@.len() {
            assert(before[i as int] == groups@[i as int]@);
        }
        lemma_joined(before, retry, i as int);
    }
    if i < groups.len() {
        let mut group = groups.remove(i);
        group.digests.push(retry.digest);
        groups.insert(i, group);
        assert(group_views(groups@) =~= joined(before, retry));
    } else {
        let mut digests: Vec<Digest> = Vec::new();
        digests.push(retry.digest);
        groups.push(RetryGroup { priority: retry.priority, target: retry.target, digests });
        assert(digests@ =~= seq![retry.digest]);
        assert(group_views(groups@) =~= joined(before, retry));
    }
}

/// A retry joins the first group with its priority and target, or founds one at the end.
proof fn lemma_joined(groups: Seq<GroupView>, r: Retry, i: int)
    requires
        0 <= i <= groups.len(),
        forall|j: int|
            0 <= j < i ==> !((#[trigger] groups[j]).priority == r.priority && groups[j].target
                == r.target),
        i < groups.len() ==> groups[i].priority == r.priority && groups[i].target == r.target,
    ensures
        joined(groups, r) == (if i < groups.len() {
            groups.update(i, GroupView { digests: groups[i].digests.push(r.digest), ..groups[i] })
        } else {
            groups.push(
                GroupView { priority: r.priority, target: r.target, digests: seq![r.digest] },
            )
        }),
    decreases groups.len(),
{
    if groups.len() > 0 && i > 0 {
        let rest = groups.drop_first();
        assert forall|j: int| 0 <= j < i - 1 implies !((#[trigger] rest[j]).priority == r.priority
            && rest[j].target == r.target) by {
            assert(rest[j] == groups[j + 1]);
        }
        lemma_joined(rest, r, i - 1);
        assert(groups[0].priority != r.priority || groups[0].target != r.target);
        assert(joined(groups, r) =~= seq![groups[0]] + joined(rest, r));
        if i < groups.len() {
            assert(joined(groups, r) =~= groups.update(
                i,
                GroupView { digests: groups[i].digests.push(r.digest), ..groups[i] },
            ));
        } else {
            assert(joined(groups, r) =~= groups.push(
                GroupView { priority: r.priority, target: r.target, digests: seq![r.digest] },
            ));
        }
    } else if groups.len() == 0 {
        assert(joined(groups, r) =~= groups.push(
            GroupView { priority: r.priority, target: r.target, digests: seq![r.digest] },
        ));
    }
}

/// What is preferred does not depend on who was asked at all.
proof fn lemma_best_ignores_attempted(a: BatchSyncView, b: BatchSyncView, list: Seq<PublicKey>)
    requires
        a.attempts == b.attempts,
        a.target == b.target,
    ensures
        first_best(a, list) == first_best(b, list),
    decreases list.len(),
{
    if list.len() > 0 {
        lemma_best_ignores_attempted(a, b, list.drop_last());
    }
}

/// A message of the primary keeps the counts of attempts below what brings a cooldown.
proof fn lemma_message_keeps_attempts_low(
    c: SyncConfig,
    s: SyncState,
    message: PrimaryWorkerMessage,
    now: u128,
)
    requires
        attempts_fit(s),
    ensures
        match message {
            PrimaryWorkerMessage::Synchronize(digests, target) => attempts_fit(
                after_asking_all(
                    s,
                    digests@,
                    target,
                    SyncPriority::Background,
                    Round::MAX,
                    now,
                ),
            ),
            PrimaryWorkerMessage::SynchronizeCommitted(digests, target, height) => attempts_fit(
                after_asking_all(
                    s,
                    digests@,
                    target,
                    SyncPriority::CommitCritical,
                    height,
                    now,
                ),
            ),
            PrimaryWorkerMessage::Cleanup(round) => attempts_fit(after_cleanup(c, s, round)),
        },
{
    match message {
        PrimaryWorkerMessage::Synchronize(digests, target) => {
            events_keep_attempts_low(
                c,
                s,
                digests@,
                target,
                SyncPriority::Background,
                Round::MAX,
                (false, false),
                now,
            );
        },
        PrimaryWorkerMessage::SynchronizeCommitted(digests, target, height) => {
            events_keep_attempts_low(
                c,
                s,
                digests@,
                target,
                SyncPriority::CommitCritical,
                height,
                (false, false),
                now,
            );
        },
        PrimaryWorkerMessage::Cleanup(round) => {
            events_keep_attempts_low(
                c,
                s,
                Seq::empty(),
                c.name,
                SyncPriority::Background,
                round,
                (false, false),
                now,
            );
        },
    }
}

/// A request is for the batches of its group, to its target and with its urgency, and is sent as the
/// settings say.
pub proof fn a_request_is_for_its_group(r: SyncRequest, c: SyncConfig, g: GroupView, retry: bool)
    requires
        r.carries(c, g, retry),
    ensures
        r.digests@ == g.digests,
        r.target == g.target,
        r.priority == g.priority,
        r.retry == retry,
        r.plan@ == plan_of(c, r.digests@, r.target, r.priority, r.retry),
{
}

/// When the timer rings, the batches in the requests are exactly those that are requested again, and
/// each of them is in one request only, to the target that is noted for it from then on and with its
/// urgency.
pub proof fn the_requests_hold_what_is_retried(
    c: SyncConfig,
    s: SyncState,
    now: u128,
    requests: Seq<SyncRequest>,
    d: Digest,
    n: int,
    m: int,
)
    requires
        s.pending.dom().finite(),
        requests.len() == grouped(after_timer(c, s, now).1).len(),
        forall|i: int|
            0 <= i < requests.len() ==> (#[trigger] requests[i]).carries(
                c,
                grouped(after_timer(c, s, now).1)[i],
                true,
            ),
    ensures
        retried(c, s, now).contains(d) <==> exists|i: int|
            0 <= i < requests.len() && (#[trigger] requests[i]).digests@.contains(d),
        0 <= n < requests.len() && requests[n].digests@.contains(d) ==> {
            &&& requests[n].retry
            &&& requests[n].priority == s.pending[d].priority
            &&& requests[n].target == after_timer(c, s, now).0.pending[d].target
        },
        0 <= n < requests.len() && 0 <= m < requests.len() && requests[n].digests@.contains(d)
            && requests[m].digests@.contains(d) ==> n == m,
{
    let list = retried(c, s, now);
    let (next, retries) = after_timer(c, s, now);
    let groups = grouped(retries);
    if list.contains(d) {
        let i = choose|i: int| 0 <= i < list.len() && list[i] == d;
        the_timer_redirects_what_it_retries(c, s, now, d, i);
        every_retry_is_sent(retries, i);
        let k = choose|k: int|
            0 <= k < groups.len() && (#[trigger] groups[k]).priority == retries[i].priority
                && groups[k].target == retries[i].target && groups[k].digests.contains(
                retries[i].digest,
            );
        assert(requests[k].carries(c, groups[k], true));
        assert(requests[k].digests@.contains(d));
    }
    if exists|i: int| 0 <= i < requests.len() && (#[trigger] requests[i]).digests@.contains(d) {
        let i = choose|i: int|
            0 <= i < requests.len() && (#[trigger] requests[i]).digests@.contains(d);
        lemma_request_of(c, s, now, requests, d, i);
    }
    if 0 <= n < requests.len() && requests[n].digests@.contains(d) {
        lemma_request_of(c, s, now, requests, d, n);
        if 0 <= m < requests.len() && requests[m].digests@.contains(d) {
            lemma_request_of(c, s, now, requests, d, m);
            groups_hold_the_choices_and_nothing_else(retries, n, m, d);
        }
    }
}

proof fn lemma_request_of(
    c: SyncConfig,
    s: SyncState,
    now: u128,
    requests: Seq<SyncRequest>,
    d: Digest,
    n: int,
)
    requires
        s.pending.dom().finite(),
        requests.len() == grouped(after_timer(c, s, now).1).len(),
        0 <= n < requests.len(),
        requests[n].carries(c, grouped(after_timer(c, s, now).1)[n], true),
        requests[n].digests@.contains(d),
    ensures
        retried(c, s, now).contains(d),
        requests[n].retry,
        requests[n].priority == s.pending[d].priority,
        requests[n].target == after_timer(c, s, now).0.pending[d].target,
        requests[n].priority == grouped(after_timer(c, s, now).1)[n].priority,
        requests[n].target == grouped(after_timer(c, s, now).1)[n].target,
{
    let (next, retries) = after_timer(c, s, now);
    let groups = grouped(retries);
    groups_hold_the_choices_and_nothing_else(retries, n, n, d);
    let i = choose|i: int|
        0 <= i < retries.len() && (#[trigger] retries[i]).digest == d && retries[i].priority
            == groups[n].priority && retries[i].target == groups[n].target;
    the_timer_redirects_what_it_retries(c, s, now, d, i);
    assert(retried(c, s, now)[i] == d);
}

} // verus!
