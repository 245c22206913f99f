//! Waits for missing parents, proposals and batches, and decides whom to ask for them.
use crate::ident::{Address, Digest, Height, PublicKey, Slot, WorkerId};
use crate::key::Key;
use crate::messages::{proposal_digest, ConsensusMessage, Header, Proposal};
use crate::primary::waiter_model::{
    PayloadSyncMode, PendingCommitSync, PendingProposalSync, PendingSuffixSync, WaiterAction,
    WaiterConfig, WaiterEvent, WaiterMessage, INITIAL_SYNC_FANOUT,
};
use crate::sorting::sort_by_key;
use crate::table::{KeySet, Table};
use vstd::prelude::*;

verus! {

use crate::primary::waiter_model::{
    action_views, after_cleanup, after_dispatch, after_drain, after_event, after_marking,
    after_proposal_sync, after_proposal_syncs, after_recovery, after_retry, after_step,
    after_sync_batches, after_sync_committed, after_sync_header, after_sync_parent,
    after_sync_proposals, all_requested, answers, answers_sync_batches, are_batch_requests,
    batch_key, batch_keys, can_take, carries, certifiers, cleans_up, clock_fits, commit_slot,
    dispatched, due_parents, due_suffixes, expired, fresh_of_worker, headers_request, holes,
    is_batch_request, is_due, is_fresh, key_views, knows_workers, mentions, others, proposal_slot,
    repeated_suffix_request, retries, suffix_request, to_fetch, widened, ActionView,
    SuffixSyncView, WaiterState,
};
use crate::table::{ascending, has_key, is_listing, kept, listed, listing, place_of};

/// Waits for missing parents, proposals and batches.
pub struct HeaderWaiter {
    pub config: WaiterConfig,
    /// The headers requested as parents or proposals: their height, and when they were requested.
    pub parent_requests: Table<Digest, (Height, u128)>,
    /// The headers requested for themselves.
    pub header_requests: Table<Digest, (Height, u128)>,
    /// The batches waited for: the height of the header, and whether they were requested.
    pub batch_requests: Table<Digest, (Height, bool)>,
    /// What is waiting for its dependencies, with its height.
    pub pending: Table<Digest, Height>,
    /// The waiting headers that are not to go back to the core.
    pub historical_payload_waiters: KeySet<Digest>,
    /// The proposed headers that are being fetched.
    pub inflight_proposals: KeySet<Digest>,
    /// The proposal syncs to be carried out.
    pub pending_proposal_syncs: Vec<PendingProposalSync>,
    /// The commit-time syncs to be sent out.
    pub pending_commit_syncs: Vec<PendingCommitSync>,
    /// The commit-time syncs under way, by proposal.
    pub proposal_sync_requests: Table<Digest, PendingSuffixSync>,
}

/// What commit-time syncs ask for.
pub open spec fn suffix_views(m: Map<Digest, PendingSuffixSync>) -> Map<Digest, SuffixSyncView> {
    m.map_values(|r: PendingSuffixSync| r@)
}

impl View for HeaderWaiter {
    type V = WaiterState;

    open spec fn view(&self) -> WaiterState {
        WaiterState {
            parent_requests: self.parent_requests@,
            header_requests: self.header_requests@,
            batch_requests: self.batch_requests@,
            pending: self.pending@,
            historical: self.historical_payload_waiters@,
            inflight: self.inflight_proposals@,
            proposal_syncs: self.pending_proposal_syncs@,
            commit_syncs: self.pending_commit_syncs@,
            suffix_syncs: suffix_views(self.proposal_sync_requests@),
        }
    }
}

impl HeaderWaiter {
    /// A waiter that waits for nothing.
    pub fn new(config: WaiterConfig) -> (w: Self)
        ensures
            w.config == config,
            w@ == (WaiterState {
                parent_requests: Map::empty(),
                header_requests: Map::empty(),
                batch_requests: Map::empty(),
                pending: Map::empty(),
                historical: Set::empty(),
                inflight: Set::empty(),
                proposal_syncs: Seq::empty(),
                commit_syncs: Seq::empty(),
                suffix_syncs: Map::empty(),
            }),
    {
        let w = HeaderWaiter {
            config,
            parent_requests: Table::new(),
            header_requests: Table::new(),
            batch_requests: Table::new(),
            pending: Table::new(),
            historical_payload_waiters: KeySet::new(),
            inflight_proposals: KeySet::new(),
            pending_proposal_syncs: Vec::new(),
            pending_commit_syncs: Vec::new(),
            proposal_sync_requests: Table::new(),
        };
        assert(w@.suffix_syncs =~= Map::<Digest, SuffixSyncView>::empty());
        w
    }

    /// The slot that `message` is about.
    pub fn consensus_slot(message: &ConsensusMessage) -> (slot: Slot)
        ensures
            slot == message.spec_instance().slot,
    {
        match message {
            ConsensusMessage::Prepare(i) => i.slot,
            ConsensusMessage::Confirm(i) => i.slot,
            ConsensusMessage::Commit(i) => i.slot,
        }
    }

    /// Where the other members that certified the tip of `proposal` listen.
    pub fn certifier_addresses(&self, proposal: &Proposal) -> (addresses: Vec<Address>)
        ensures
            addresses@ == certifiers(self.config, proposal.certificate.votes@),
    {
        let votes = &proposal.certificate.votes;
        let mut addresses: Vec<Address> = Vec::new();
        let mut i: usize = 0;
        while i < votes.len()
            invariant
                i <= votes@.len(),
                addresses@ == certifiers(self.config, votes@.take(i as int)),
            decreases votes@.len() - i,
        {
            proof {
                assert(votes@.take(i + 1).drop_last() =~= votes@.take(i as int));
            }
            let pk = votes[i];
            if pk != self.config.name {
                if let Some(a) = self.config.committee.primary(&pk) {
                    addresses.push(a.primary_to_primary);
                }
            }
            i += 1;
        }
        assert(votes@.take(i as int) =~= votes@);
        addresses
    }

    /// Where the other primaries listen.
    pub fn other_primary_addresses(&self) -> (addresses: Vec<Address>)
        ensures
            addresses@ == others(self.config),
    {
        let list = self.config.committee.others_primaries(&self.config.name);
        let mut addresses: Vec<Address> = Vec::new();
        let mut i: usize = 0;
        while i < list.len()
            invariant
                i <= list@.len(),
                addresses@.len() == i,
                forall|j: int|
                    0 <= j < i ==> #[trigger] addresses@[j] == list@[j].1.primary_to_primary,
            decreases list@.len() - i,
        {
            addresses.push(list[i].1.primary_to_primary);
            i += 1;
        }
        assert(addresses@ =~= others(self.config));
        addresses
    }

    /// A request for `digests` to `nodes` of the other primaries.
    fn headers_request(&self, digests: Vec<Digest>, nodes: usize) -> (a: WaiterAction)
        ensures
            a@ == headers_request(self.config, digests@, nodes),
    {
        WaiterAction::RequestHeaders {
            digests,
            requestor: self.config.name,
            addresses: self.other_primary_addresses(),
            nodes,
        }
    }

    /// Fetches a header.
    pub fn sync_header(&mut self, missing: Digest, now: u128) -> (actions: Vec<WaiterAction>)
        ensures
            final(self).config == old(self).config,
            final(self)@ == after_sync_header(old(self).config, old(self)@, missing, now).0,
            action_views(actions@) == after_sync_header(
                old(self).config,
                old(self)@,
                missing,
                now,
            ).1,
    {
        let mut actions: Vec<WaiterAction> = Vec::new();
        if !self.header_requests.contains_key(&missing) {
            self.header_requests.insert(missing, (0, now));
            let digests = vec![missing];
            assert(digests@ =~= seq![missing]);
            let request = self.headers_request(digests, INITIAL_SYNC_FANOUT);
            actions.push(request);
        }
        assert(action_views(actions@) =~= after_sync_header(
            old(self).config,
            old(self)@,
            missing,
            now,
        ).1);
        actions
    }

    /// Waits for the parent of `header`, and fetches it.
    pub fn sync_parent(&mut self, missing: Digest, header: Header, now: u128) -> (actions: Vec<
        WaiterAction,
    >)
        ensures
            final(self).config == old(self).config,
            final(self)@ == after_sync_parent(
                old(self).config,
                old(self)@,
                missing,
                header,
                now,
            ).0,
            action_views(actions@) == after_sync_parent(
                old(self).config,
                old(self)@,
                missing,
                header,
                now,
            ).1,
    {
        let mut actions: Vec<WaiterAction> = Vec::new();
        let ghost expected = after_sync_parent(old(self).config, old(self)@, missing, header, now).1;
        if self.pending.contains_key(&header.id) {
            assert(action_views(actions@) =~= expected);
            return actions;
        }
        let height = header.height();
        self.pending.insert(header.id, height);
        let keys = vec![missing.to_vec()];
        assert(key_views(keys@) =~= seq![missing.0@]);
        actions.push(WaiterAction::AwaitHeader { id: header.id, keys, header });
        if !self.parent_requests.contains_key(&missing) {
            self.parent_requests.insert(missing, (height, now));
            let digests = vec![missing];
            assert(digests@ =~= seq![missing]);
            let request = self.headers_request(digests, INITIAL_SYNC_FANOUT);
            actions.push(request);
        }
        assert(action_views(actions@) =~= expected);
        actions
    }

    /// Queues the fetching of what `consensus_message` proposes, to be carried out by slot.
    pub fn sync_proposals(
        &mut self,
        missing: Vec<Proposal>,
        consensus_message: ConsensusMessage,
        header: Header,
    )
        ensures
            final(self).config == old(self).config,
            final(self)@ == after_sync_proposals(
                old(self)@,
                (PendingProposalSync {
                    slot: consensus_message.spec_instance().slot,
                    missing,
                    consensus_message,
                    header,
                }),
            ),
    {
        let slot = Self::consensus_slot(&consensus_message);
        let id = proposal_digest(&consensus_message);
        if !self.pending.contains_key(&id) {
            self.pending_proposal_syncs.push(
                PendingProposalSync { slot, missing, consensus_message, header },
            );
        }
    }

    /// Forgets about a committed proposal.
    pub fn clear_committed_proposal_sync(&mut self, digest: Digest)
        ensures
            final(self).config == old(self).config,
            final(self)@ == (WaiterState {
                suffix_syncs: old(self)@.suffix_syncs.remove(digest),
                ..old(self)@
            }),
    {
        self.proposal_sync_requests.remove(&digest);
        assert(suffix_views(self.proposal_sync_requests@) =~= old(self)@.suffix_syncs.remove(
            digest,
        ));
    }

    /// Waits for the payload of `header` and, if `mode` says so, has our workers fetch the batches
    /// that were not requested before.
    pub fn sync_batches(
        &mut self,
        missing: Table<Digest, WorkerId>,
        header: Header,
        mode: PayloadSyncMode,
    ) -> (actions: Vec<WaiterAction>)
        requires
            knows_workers(old(self).config, old(self)@, missing.entries(), mode),
        ensures
            final(self).config == old(self).config,
            final(self)@ == after_sync_batches(old(self)@, missing@.dom(), header, mode),
            answers_sync_batches(
                old(self).config,
                old(self)@,
                missing.entries(),
                header,
                mode,
                action_views(actions@),
            ),
    {
        let ghost entries = missing.entries();
        let ghost whole = header;
        let (force_sync, should_loopback) = match mode {
            PayloadSyncMode::Live(force) => (force, true),
            PayloadSyncMode::Historical => (true, false),
        };
        let id = header.id;
        let height = header.height;
        let author = header.author;
        let mut actions: Vec<WaiterAction> = Vec::new();
        if self.pending.contains_key(&id) {
            if should_loopback {
                self.historical_payload_waiters.remove(&id);
            }
        } else {
            let keys = Self::batch_keys(&missing);
            self.pending.insert(id, height);
            if should_loopback {
                self.historical_payload_waiters.remove(&id);
            } else {
                self.historical_payload_waiters.insert(id);
            }
            actions.push(WaiterAction::AwaitHeader { id, keys, header });
        }
        let ghost waits = actions@;
        if force_sync {
            let fresh = self.mark_batches(&missing, height);
            let mut requests = self.batch_requests_to_workers(
                &missing,
                Ghost(old(self)@.batch_requests),
                Ghost(whole),
                fresh,
                author,
                height,
            );
            let ghost sent = requests@;
            actions.append(&mut requests);
            assert(action_views(actions@).skip(waits.len() as int) =~= action_views(sent));
        }
        proof {
            assert(action_views(waits) =~= action_views(actions@).take(waits.len() as int));
            if !force_sync {
                assert(actions@ =~= waits);
            }
            if waits.len() == 1 {
                assert(action_views(actions@)[0] == waits[0]@);
            }
        }
        actions
    }

    /// The keys under which the store holds the `missing` batches.
    fn batch_keys(missing: &Table<Digest, WorkerId>) -> (keys: Vec<Vec<u8>>)
        ensures
            key_views(keys@) == batch_keys(missing.entries()),
    {
        let n: usize = missing.len();
        let mut keys: Vec<Vec<u8>> = Vec::new();
        let mut i: usize = 0;
        while i < n
            invariant
                i <= n == missing.entries().len(),
                keys@.len() == i,
                forall|j: int|
                    0 <= j < i ==> (#[trigger] keys@[j])@ == batch_key(
                        missing.entries()[j].0,
                        missing.entries()[j].1,
                    ),
            decreases n - i,
        {
            let mut key = missing.key_at(i).to_vec();
            let mut id_bytes = vstd::bytes::u32_to_le_bytes(*missing.value_at(i));
            key.append(&mut id_bytes);
            keys.push(key);
            i += 1;
        }
        assert(key_views(keys@) =~= batch_keys(missing.entries()));
        keys
    }

    /// Notes that all of `missing` are requested, and hands out, by worker, those that were not
    /// requested before.
    fn mark_batches(&mut self, missing: &Table<Digest, WorkerId>, height: Height) -> (fresh: Table<
        WorkerId,
        Vec<Digest>,
    >)
        ensures
            final(self).config == old(self).config,
            final(self)@ == (WaiterState {
                batch_requests: all_requested(
                    old(self)@.batch_requests,
                    missing@.dom(),
                    height,
                ),
                ..old(self)@
            }),
            forall|w: WorkerId| #[trigger]
                fresh@.contains_key(w) <==> fresh_of_worker(
                    missing.entries(),
                    old(self)@.batch_requests,
                    w,
                ).len() > 0,
            forall|w: WorkerId|
                fresh@.contains_key(w) ==> (#[trigger] fresh@[w])@ == fresh_of_worker(
                    missing.entries(),
                    old(self)@.batch_requests,
                    w,
                ),
    {
        let n: usize = missing.len();
        let ghost entries = missing.entries();
        let ghost requests = self.batch_requests@;
        let mut fresh: Table<WorkerId, Vec<Digest>> = Table::new();
        let mut i: usize = 0;
        proof {
            assert(requests =~= all_requested(requests, Set::empty(), height));
            assert(listed(entries.take(0)).dom() =~= Set::<Digest>::empty());
        }
        while i < n
            invariant
                i <= n == entries.len(),
                entries == missing.entries(),
                ascending(entries),
                missing@ == listed(entries),
                self.config == old(self).config,
                requests == old(self)@.batch_requests,
                self@ == (WaiterState {
                    batch_requests: all_requested(
                        requests,
                        listed(entries.take(i as int)).dom(),
                        height,
                    ),
                    ..old(self)@
                }),
                forall|w: WorkerId| #[trigger]
                    fresh@.contains_key(w) <==> fresh_of_worker(
                        entries.take(i as int),
                        requests,
                        w,
                    ).len() > 0,
                forall|w: WorkerId|
                    fresh@.contains_key(w) ==> (#[trigger] fresh@[w])@ == fresh_of_worker(
                        entries.take(i as int),
                        requests,
                        w,
                    ),
            decreases n - i,
        {
            let ghost done = entries.take(i as int);
            let ghost next = entries.take(i + 1);
            let ghost fresh_before = fresh@;
            let ghost requested_before = self.batch_requests@;
            let digest = missing.key_at(i);
            let worker_id = *missing.value_at(i);
            proof {
                assert(next.drop_last() =~= done);
                assert(next.last() == entries[i as int]);
                lemma_next_key(entries, i as int);
            }
            let requested = match self.batch_requests.get(&digest) {
                Some(entry) => entry.1,
                None => false,
            };
            assert(requested == !is_fresh(requests, digest));
            if !requested {
                let mut list = match fresh.remove(&worker_id) {
                    Some(list) => list,
                    None => Vec::new(),
                };
                assert(list@ =~= fresh_of_worker(done, requests, worker_id));
                list.push(digest);
                fresh.insert(worker_id, list);
            }
            self.batch_requests.insert(digest, (height, true));
            proof {
                assert(self.batch_requests@ =~= all_requested(requests, listed(next).dom(), height));
                assert forall|w: WorkerId| #[trigger]
                    fresh@.contains_key(w) <==> fresh_of_worker(next, requests, w).len() > 0 by {
                    assert(fresh_before.contains_key(w) <==> fresh_of_worker(
                        done,
                        requests,
                        w,
                    ).len() > 0);
                }
                assert forall|w: WorkerId| fresh@.contains_key(w) implies (#[trigger] fresh@[w])@
                    == fresh_of_worker(next, requests, w) by {
                    if w != worker_id || requested {
                        assert(fresh@[w] == fresh_before[w]);
                    }
                }
            }
            i += 1;
        }
        proof {
            assert(entries.take(n as int) =~= entries);
        }
        fresh
    }

    /// One message to each of our workers that has something to fetch.
    fn batch_requests_to_workers(
        &self,
        missing: &Table<Digest, WorkerId>,
        Ghost(requests): Ghost<Map<Digest, (Height, bool)>>,
        Ghost(header): Ghost<Header>,
        fresh: Table<WorkerId, Vec<Digest>>,
        author: PublicKey,
        height: Height,
    ) -> (actions: Vec<WaiterAction>)
        requires
            author == header.author,
            height == header.height,
            forall|w: WorkerId| #[trigger]
                fresh@.contains_key(w) <==> fresh_of_worker(
                    missing.entries(),
                    requests,
                    w,
                ).len() > 0,
            forall|w: WorkerId|
                fresh@.contains_key(w) ==> (#[trigger] fresh@[w])@ == fresh_of_worker(
                    missing.entries(),
                    requests,
                    w,
                ),
            forall|w: WorkerId| #[trigger]
                fresh_of_worker(missing.entries(), requests, w).len() > 0
                    ==> self.config.committee.worker_of(self.config.name, w) is Some,
        ensures
            are_batch_requests(
                self.config,
                missing.entries(),
                requests,
                header,
                action_views(actions@),
            ),
    {
        let n: usize = fresh.len();
        let mut actions: Vec<WaiterAction> = Vec::new();
        let mut i: usize = 0;
        while i < n
            invariant
                i <= n == fresh.entries().len(),
                ascending(fresh.entries()),
                fresh@ == listed(fresh.entries()),
                author == header.author,
                height == header.height,
                forall|w: WorkerId| #[trigger]
                    fresh@.contains_key(w) <==> fresh_of_worker(
                        missing.entries(),
                        requests,
                        w,
                    ).len() > 0,
                forall|w: WorkerId|
                    fresh@.contains_key(w) ==> (#[trigger] fresh@[w])@ == fresh_of_worker(
                        missing.entries(),
                        requests,
                        w,
                    ),
                forall|w: WorkerId| #[trigger]
                    fresh_of_worker(missing.entries(), requests, w).len() > 0
                        ==> self.config.committee.worker_of(self.config.name, w) is Some,
                actions@.len() == i,
                forall|j: int|
                    0 <= j < i ==> ((#[trigger] actions@[j])@ matches ActionView::RequestBatches {
                        worker_id,
                        ..
                    } && worker_id == fresh.entries()[j].0 && is_batch_request(
                        self.config,
                        missing.entries(),
                        requests,
                        header,
                        worker_id,
                        actions@[j]@,
                    ) && fresh_of_worker(missing.entries(), requests, worker_id).len() > 0),
            decreases n - i,
        {
            let worker_id = fresh.key_at(i);
            let digests = fresh.value_at(i).clone();
            proof {
                assert(fresh@.contains_key(worker_id));
                assert(fresh_of_worker(missing.entries(), requests, worker_id).len() > 0);
                assert(digests@ =~= fresh@[worker_id]@);
            }
            if let Some(addresses) = self.config.committee.worker(&self.config.name, &worker_id) {
                actions.push(
                    WaiterAction::RequestBatches {
                        worker_id,
                        address: addresses.primary_to_worker,
                        digests,
                        author,
                        height,
                    },
                );
            }
            i += 1;
        }
        proof {
            let views = action_views(actions@);
            assert forall|a: int, b: int| 0 <= a < b < views.len() implies (
            #[trigger] views[a])->RequestBatches_worker_id < (
            #[trigger] views[b])->RequestBatches_worker_id by {
                assert(views[a] == actions@[a]@);
                assert(views[b] == actions@[b]@);
                assert(fresh.entries()[a].0 < fresh.entries()[b].0);
            }
            assert forall|w: WorkerId| #[trigger]
                fresh_of_worker(missing.entries(), requests, w).len() > 0 implies exists|k: int|
                0 <= k < views.len() && (#[trigger] views[k])->RequestBatches_worker_id == w by {
                assert(fresh@.contains_key(w));
                let k = place_of(fresh.entries(), w);
                assert(views[k] == actions@[k]@);
            }
            assert forall|k: int| 0 <= k < views.len() implies (
            #[trigger] views[k] matches ActionView::RequestBatches { worker_id, .. }
                && is_batch_request(
                self.config,
                missing.entries(),
                requests,
                header,
                worker_id,
                views[k],
            ) && fresh_of_worker(missing.entries(), requests, worker_id).len() > 0) by {
                assert(views[k] == actions@[k]@);
            }
        }
        actions
    }

    /// A first request for the suffix of a commit-time sync.
    fn suffix_request(&self, request: &PendingSuffixSync) -> (a: WaiterAction)
        ensures
            a@ == suffix_request(self.config, request@),
    {
        let known = self.certifier_addresses(&request.proposal);
        let proposal = request.proposal.clone();
        if known.len() == 0 {
            WaiterAction::RequestSuffix {
                proposal,
                stop_height: request.stop_height,
                requestor: self.config.name,
                addresses: self.other_primary_addresses(),
                nodes: INITIAL_SYNC_FANOUT,
            }
        } else {
            let nodes: usize = known.len();
            WaiterAction::RequestSuffix {
                proposal,
                stop_height: request.stop_height,
                requestor: self.config.name,
                addresses: known,
                nodes,
            }
        }
    }

    /// Sends the commit-time syncs out, lowest slot first and each proposal once.
    pub fn dispatch_pending_commit_syncs(&mut self) -> (actions: Vec<WaiterAction>)
        ensures
            final(self).config == old(self).config,
            final(self)@ == after_dispatch(old(self).config, old(self)@).0,
            action_views(actions@) == after_dispatch(old(self).config, old(self)@).1,
    {
        let mut drained: Vec<PendingCommitSync> = Vec::new();
        std::mem::swap(&mut drained, &mut self.pending_commit_syncs);
        let by_slot = |p: &PendingCommitSync| -> (k: u64)
            ensures
                k == p.slot,
            { p.slot };
        let syncs = sort_by_key(drained, by_slot, Ghost(commit_slot()));
        let mut seen: KeySet<Digest> = KeySet::new();
        let mut actions: Vec<WaiterAction> = Vec::new();
        let mut i: usize = 0;
        assert(action_views(actions@) =~= dispatched(
            self.config,
            syncs@.take(0),
            self@.suffix_syncs,
        ));
        while i < syncs.len()
            invariant
                i <= syncs@.len(),
                forall|d: Digest| #[trigger]
                    seen@.contains(d) <==> mentions(syncs@.take(i as int), d),
                action_views(actions@) == dispatched(
                    self.config,
                    syncs@.take(i as int),
                    self@.suffix_syncs,
                ),
            decreases syncs@.len() - i,
        {
            let digest = syncs[i].digest;
            let ghost done = syncs@.take(i as int);
            let ghost next = syncs@.take(i + 1);
            let ghost seen_before = seen@;
            let ghost actions_before = actions@;
            proof {
                assert(next.drop_last() =~= done);
                assert(next.last() == syncs@[i as int]);
            }
            if seen.insert(digest) {
                if let Some(request) = self.proposal_sync_requests.get(&digest) {
                    let action = self.suffix_request(request);
                    actions.push(action);
                }
            }
            proof {
                assert forall|d: Digest| #[trigger] seen@.contains(d) <==> mentions(next, d) by {
                    assert(seen_before.contains(d) <==> mentions(done, d));
                    if mentions(done, d) {
                        let j = choose|j: int|
                            0 <= j < done.len() && (#[trigger] done[j]).digest == d;
                        assert(next[j].digest == d);
                    }
                    if mentions(next, d) && d != digest {
                        let j = choose|j: int|
                            0 <= j < next.len() && (#[trigger] next[j]).digest == d;
                        assert(done[j].digest == d);
                    }
                    assert(next[i as int].digest == digest);
                }
                assert(seen_before.contains(digest) <==> mentions(done, digest));
                if actions@.len() > actions_before.len() {
                    assert(action_views(actions@) =~= action_views(actions_before).push(
                        actions@.last()@,
                    ));
                }
            }
            i += 1;
        }
        assert(syncs@.take(i as int) =~= syncs@);
        actions
    }

    /// Fetches the headers of a committed proposal above `stop_height`, unless a request under way
    /// covers them.
    pub fn sync_committed_proposal(
        &mut self,
        proposal: Proposal,
        stop_height: Height,
        slot: Slot,
        now: u128,
    ) -> (actions: Vec<WaiterAction>)
        ensures
            final(self).config == old(self).config,
            final(self)@ == after_sync_committed(
                old(self).config,
                old(self)@,
                proposal@,
                stop_height,
                slot,
                now,
            ).0,
            action_views(actions@) == after_sync_committed(
                old(self).config,
                old(self)@,
                proposal@,
                stop_height,
                slot,
                now,
            ).1,
    {
        let digest = proposal.header_digest;
        let ghost wide = widened(
            old(self)@,
            proposal@,
            stop_height,
            slot,
            now,
        );
        let mut queue_request: bool = false;
        match self.proposal_sync_requests.remove(&digest) {
            Some(mut request) => {
                if slot < request.slot {
                    request.slot = slot;
                    queue_request = true;
                }
                if stop_height < request.stop_height {
                    request.stop_height = stop_height;
                    queue_request = true;
                }
                self.proposal_sync_requests.insert(digest, request);
            },
            None => {
                self.proposal_sync_requests.insert(
                    digest,
                    PendingSuffixSync { proposal, stop_height, slot, timestamp: now },
                );
                queue_request = true;
            },
        }
        proof {
            assert(self.proposal_sync_requests@[digest]@ =~= wide);
            assert(self@.suffix_syncs =~= old(self)@.suffix_syncs.insert(digest, wide));
        }
        if queue_request {
            self.pending_commit_syncs.push(PendingCommitSync { slot, digest });
            self.dispatch_pending_commit_syncs()
        } else {
            let actions: Vec<WaiterAction> = Vec::new();
            proof {
                assert(wide =~= old(self)@.suffix_syncs[digest]);
                assert(self@.suffix_syncs =~= old(self)@.suffix_syncs);
                assert(action_views(actions@) =~= Seq::<ActionView>::empty());
            }
            actions
        }
    }

    /// Carries out one proposal sync: waits for the missing headers, and asks for those that nobody
    /// asked for yet.
    pub fn execute_proposal_sync(&mut self, sync: PendingProposalSync, now: u128) -> (actions: Vec<
        WaiterAction,
    >)
        ensures
            final(self).config == old(self).config,
            final(self)@ == after_proposal_sync(old(self).config, old(self)@, sync, now).0,
            action_views(actions@) == after_proposal_sync(
                old(self).config,
                old(self)@,
                sync,
                now,
            ).1,
    {
        let mut actions: Vec<WaiterAction> = Vec::new();
        let ghost expected = after_proposal_sync(old(self).config, old(self)@, sync, now).1;
        let height = sync.header.height();
        let id = proposal_digest(&sync.consensus_message);
        if self.pending.contains_key(&id) {
            assert(action_views(actions@) =~= expected);
            return actions;
        }
        self.pending.insert(id, height);
        let ghost waiting = self@;
        let missing = sync.missing;
        let mut keys: Vec<Vec<u8>> = Vec::new();
        let mut fetch: Vec<Digest> = Vec::new();
        let mut i: usize = 0;
        while i < missing.len()
            invariant
                i <= missing@.len(),
                self.config == old(self).config,
                self@ == after_marking(waiting, missing@.take(i as int), now),
                fetch@ == to_fetch(waiting, missing@.take(i as int), now),
                keys@.len() == i,
                forall|j: int|
                    0 <= j < i ==> (#[trigger] keys@[j])@ == missing@[j].header_digest.0@,
            decreases missing@.len() - i,
        {
            proof {
                assert(missing@.take(i + 1).drop_last() =~= missing@.take(i as int));
                assert(missing@.take(i + 1).last() == missing@[i as int]);
            }
            let digest = missing[i].header_digest;
            let proposal_height = missing[i].height;
            keys.push(digest.to_vec());
            if !self.inflight_proposals.contains(&digest) {
                self.inflight_proposals.insert(digest);
                if !self.parent_requests.contains_key(&digest) {
                    self.parent_requests.insert(digest, (proposal_height, now));
                    fetch.push(digest);
                }
            }
            i += 1;
        }
        proof {
            assert(missing@.take(i as int) =~= missing@);
            assert(key_views(keys@) =~= missing@.map_values(
                |x: Proposal| x.header_digest.0@,
            ));
        }
        actions.push(
            WaiterAction::AwaitProposals {
                id,
                keys,
                message: sync.consensus_message,
                header: sync.header,
            },
        );
        if fetch.len() > 0 {
            let request = self.headers_request(fetch, INITIAL_SYNC_FANOUT);
            actions.push(request);
        }
        assert(action_views(actions@) =~= expected);
        actions
    }

    /// Carries out the proposal syncs, lowest slot first, so that the oldest stalled slots come to
    /// their data first.
    pub fn drain_pending_proposal_syncs(&mut self, now: u128) -> (actions: Vec<WaiterAction>)
        ensures
            final(self).config == old(self).config,
            final(self)@ == after_drain(old(self).config, old(self)@, now).0,
            action_views(actions@) == after_drain(old(self).config, old(self)@, now).1,
    {
        let mut drained: Vec<PendingProposalSync> = Vec::new();
        std::mem::swap(&mut drained, &mut self.pending_proposal_syncs);
        let by_slot = |p: &PendingProposalSync| -> (k: u64)
            ensures
                k == p.slot,
            { p.slot };
        let syncs = sort_by_key(drained, by_slot, Ghost(proposal_slot()));
        let ghost all = syncs@;
        let ghost start = self@;
        let mut actions: Vec<WaiterAction> = Vec::new();
        assert(action_views(actions@) =~= Seq::<ActionView>::empty());
        for sync in iter: syncs
            invariant
                iter.seq() == all,
                self.config == old(self).config,
                self@ == after_proposal_syncs(
                    old(self).config,
                    start,
                    all.take(iter.index() as int),
                    now,
                ).0,
                action_views(actions@) == after_proposal_syncs(
                    old(self).config,
                    start,
                    all.take(iter.index() as int),
                    now,
                ).1,
        {
            let ghost n = iter.index() as int;
            let ghost before = actions@;
            proof {
                assert(all.take(n + 1).drop_last() =~= all.take(n));
                assert(all.take(n + 1).last() == all[n]);
            }
            let mut more = self.execute_proposal_sync(sync, now);
            let ghost added = more@;
            actions.append(&mut more);
            assert(action_views(actions@) =~= action_views(before) + action_views(added));
        }
        assert(all.take(all.len() as int) =~= all);
        actions
    }

    /// Asks again for the parents that are due.
    fn retry_parents(&mut self, now: u128) -> (digests: Vec<Digest>)
        requires
            clock_fits(old(self).config, old(self)@),
        ensures
            final(self).config == old(self).config,
            final(self)@ == (WaiterState {
                parent_requests: after_retry(old(self).config, old(self)@, now).parent_requests,
                ..old(self)@
            }),
            digests@ == listing(due_parents(old(self).config, old(self)@, now)),
    {
        let ghost c = self.config;
        let ghost before = self.parent_requests@;
        let delay: u64 = self.config.sync_retry_delay;
        let overdue = |d: &Digest, r: &(Height, u128)| -> (due: bool)
            requires
                r.1 + delay <= u128::MAX,
            ensures
                due == (r.1 + delay < now),
            { r.1 + (delay as u128) < now };
        let ghost p = |d: Digest, r: (Height, u128)| is_due(c, r.1, now);
        let digests = self.parent_requests.keys_where(overdue, Ghost(p));
        let mut i: usize = 0;
        while i < digests.len()
            invariant
                i <= digests@.len(),
                self.config == c,
                c == old(self).config,
                before == old(self)@.parent_requests,
                is_listing(digests@, kept(before, p).dom()),
                p == (|d: Digest, r: (Height, u128)| is_due(c, r.1, now)),
                self@ == (WaiterState { parent_requests: self.parent_requests@, ..old(self)@ }),
                self.parent_requests@.dom() == before.dom(),
                forall|d: Digest|
                    before.contains_key(d) ==> #[trigger] self.parent_requests@[d] == (
                    if digests@.take(i as int).contains(d) {
                        (before[d].0, now)
                    } else {
                        before[d]
                    }),
            decreases digests@.len() - i,
        {
            let digest = digests[i];
            let ghost asked = self.parent_requests@;
            proof {
                assert(digests@.contains(digest));
                assert(before.contains_key(digest));
                assert(asked.contains_key(digest));
            }
            if let Some(request) = self.parent_requests.get(&digest) {
                let height: Height = request.0;
                self.parent_requests.insert(digest, (height, now));
            }
            proof {
                assert(self.parent_requests@.dom() =~= before.dom());
                assert forall|d: Digest| before.contains_key(d) implies #[trigger]
                    self.parent_requests@[d] == (if digests@.take(i + 1).contains(d) {
                    (before[d].0, now)
                } else {
                    before[d]
                }) by {
                    lemma_take_contains(digests@, i as int, d);
                    assert(asked[d].0 == before[d].0);
                }
            }
            i += 1;
        }
        proof {
            assert(digests@.take(i as int) =~= digests@);
            assert forall|d: Digest| before.contains_key(d) implies #[trigger]
                self.parent_requests@[d] == (if p(d, before[d]) {
                (before[d].0, now)
            } else {
                before[d]
            }) by {
                assert(digests@.contains(d) <==> kept(before, p).dom().contains(d));
            }
            assert(self.parent_requests@ =~= after_retry(c, old(self)@, now).parent_requests);
        }
        digests
    }

    /// Asks again for the committed proposals that are due.
    fn retry_suffixes(&mut self, now: u128) -> (actions: Vec<WaiterAction>)
        requires
            forall|d: Digest|
                old(self)@.suffix_syncs.contains_key(d) ==> (
                #[trigger] old(self)@.suffix_syncs[d]).timestamp
                    + old(self).config.sync_retry_delay <= u128::MAX,
        ensures
            final(self).config == old(self).config,
            final(self)@ == (WaiterState {
                suffix_syncs: after_retry(old(self).config, old(self)@, now).suffix_syncs,
                ..old(self)@
            }),
            action_views(actions@) == listing(
                due_suffixes(old(self).config, old(self)@, now),
            ).map_values(
                |d: Digest|
                    repeated_suffix_request(old(self).config, old(self)@.suffix_syncs[d]),
            ),
    {
        let ghost c = self.config;
        let ghost before = self@.suffix_syncs;
        let delay: u64 = self.config.sync_retry_delay;
        let overdue = |d: &Digest, r: &PendingSuffixSync| -> (due: bool)
            requires
                r.timestamp + delay <= u128::MAX,
            ensures
                due == (r.timestamp + delay < now),
            { r.timestamp + (delay as u128) < now };
        let ghost p = |d: Digest, r: PendingSuffixSync| is_due(c, r.timestamp, now);
        proof {
            assert forall|k: Digest, v: PendingSuffixSync|
                self.proposal_sync_requests@.contains_key(k) && self.proposal_sync_requests@[k]
                    == v implies #[trigger] call_requires(overdue, (&k, &v)) by {
                assert(before[k] == v@);
            }
        }
        let digests = self.proposal_sync_requests.keys_where(overdue, Ghost(p));
        proof {
            assert(kept(self.proposal_sync_requests@, p).dom() =~= due_suffixes(
                c,
                old(self)@,
                now,
            ));
        }
        let mut actions: Vec<WaiterAction> = Vec::new();
        let mut i: usize = 0;
        while i < digests.len()
            invariant
                i <= digests@.len(),
                self.config == c,
                c == old(self).config,
                before == old(self)@.suffix_syncs,
                is_listing(digests@, due_suffixes(c, old(self)@, now)),
                self@ == (WaiterState { suffix_syncs: self@.suffix_syncs, ..old(self)@ }),
                self@.suffix_syncs.dom() == before.dom(),
                forall|d: Digest|
                    before.contains_key(d) ==> #[trigger] self@.suffix_syncs[d] == (
                    if digests@.take(i as int).contains(d) {
                        SuffixSyncView { timestamp: now, ..before[d] }
                    } else {
                        before[d]
                    }),
                actions@.len() == i,
                forall|j: int|
                    0 <= j < i ==> (#[trigger] actions@[j])@ == repeated_suffix_request(
                        c,
                        before[digests@[j]],
                    ),
            decreases digests@.len() - i,
        {
            let digest = digests[i];
            let ghost asked = self@.suffix_syncs;
            proof {
                assert(digests@.contains(digest));
                assert(before.contains_key(digest));
                assert(asked.contains_key(digest));
                assert(!digests@.take(i as int).contains(digest)) by {
                    if digests@.take(i as int).contains(digest) {
                        let j = choose|j: int|
                            0 <= j < i && digests@.take(i as int)[j] == digest;
                        assert(digests@[j].before(digests@[i as int]));
                        Digest::before_is_irreflexive(digest);
                    }
                }
            }
            assert(asked[digest] == before[digest]);
            if let Some(mut request) = self.proposal_sync_requests.remove(&digest) {
                assert(request@ == before[digest]);
                request.timestamp = now;
                actions.push(
                    WaiterAction::RequestSuffix {
                        proposal: request.proposal.clone(),
                        stop_height: request.stop_height,
                        requestor: self.config.name,
                        addresses: self.other_primary_addresses(),
                        nodes: self.config.sync_retry_nodes,
                    },
                );
                assert(request@ == (SuffixSyncView { timestamp: now, ..before[digest] }));
                self.proposal_sync_requests.insert(digest, request);
            }
            proof {
                assert(self@.suffix_syncs =~= asked.insert(
                    digest,
                    SuffixSyncView { timestamp: now, ..before[digest] },
                ));
                assert(self@.suffix_syncs.dom() =~= before.dom());
                assert forall|d: Digest| before.contains_key(d) implies #[trigger]
                    self@.suffix_syncs[d] == (if digests@.take(i + 1).contains(d) {
                    SuffixSyncView { timestamp: now, ..before[d] }
                } else {
                    before[d]
                }) by {
                    lemma_take_contains(digests@, i as int, d);
                    assert(asked[d].proposal == before[d].proposal);
                }
            }
            i += 1;
        }
        proof {
            assert(digests@.take(i as int) =~= digests@);
            assert forall|d: Digest| before.contains_key(d) implies #[trigger]
                self@.suffix_syncs[d] == (if is_due(c, before[d].timestamp, now) {
                SuffixSyncView { timestamp: now, ..before[d] }
            } else {
                before[d]
            }) by {
                assert(digests@.contains(d) <==> due_suffixes(c, old(self)@, now).contains(d));
            }
            assert(self@.suffix_syncs =~= after_retry(c, old(self)@, now).suffix_syncs);
            assert(action_views(actions@) =~= listing(
                due_suffixes(c, old(self)@, now),
            ).map_values(|d: Digest| repeated_suffix_request(c, before[d])));
        }
        actions
    }

    /// Repeats the requests that are due, to a few of the other primaries.
    pub fn retry(&mut self, now: u128) -> (actions: Vec<WaiterAction>)
        requires
            clock_fits(old(self).config, old(self)@),
        ensures
            final(self).config == old(self).config,
            final(self)@ == after_retry(old(self).config, old(self)@, now),
            action_views(actions@) == retries(old(self).config, old(self)@, now),
    {
        let parents = self.retry_parents(now);
        let mut actions: Vec<WaiterAction> = Vec::new();
        if parents.len() > 0 {
            let request = self.headers_request(parents, self.config.sync_retry_nodes);
            actions.push(request);
        }
        let ghost asked = actions@;
        let mut suffixes = self.retry_suffixes(now);
        let ghost more = suffixes@;
        actions.append(&mut suffixes);
        proof {
            assert(action_views(actions@) =~= action_views(asked) + action_views(more));
            assert(action_views(actions@) =~= retries(old(self).config, old(self)@, now));
        }
        actions
    }

    /// Takes note that `header` has all that it waited for. It goes back to the core, unless it was
    /// only waiting for its payload.
    pub fn recovered(&mut self, header: Header) -> (actions: Vec<WaiterAction>)
        ensures
            final(self).config == old(self).config,
            final(self)@ == after_recovery(old(self)@, header),
            action_views(actions@) == (if old(self)@.historical.contains(header.id) {
                Seq::empty()
            } else {
                seq![ActionView::Loopback(header)]
            }),
    {
        self.pending.remove(&header.id);
        let ghost requests = self.batch_requests@;
        let mut i: usize = 0;
        while i < header.payload.len()
            invariant
                i <= header.payload@.len(),
                self.config == old(self).config,
                requests == old(self)@.batch_requests,
                self@ == (WaiterState {
                    pending: old(self)@.pending.remove(header.id),
                    batch_requests: self.batch_requests@,
                    ..old(self)@
                }),
                forall|d: Digest| #[trigger]
                    self.batch_requests@.contains_key(d) <==> requests.contains_key(d) && !exists|
                        j: int,
                    |
                        0 <= j < i && (#[trigger] header.payload@[j]).0 == d,
                forall|d: Digest|
                    self.batch_requests@.contains_key(d) ==> #[trigger] self.batch_requests@[d]
                        == requests[d],
            decreases header.payload@.len() - i,
        {
            let digest = header.payload[i].0;
            let ghost left = self.batch_requests@;
            self.batch_requests.remove(&digest);
            proof {
                assert forall|d: Digest| #[trigger]
                    self.batch_requests@.contains_key(d) <==> requests.contains_key(d) && !exists|
                        j: int,
                    |
                        0 <= j < i + 1 && (#[trigger] header.payload@[j]).0 == d by {
                    assert(left.contains_key(d) <==> requests.contains_key(d) && !exists|j: int|
                        0 <= j < i && (#[trigger] header.payload@[j]).0 == d);
                    assert(header.payload@[i as int].0 == digest);
                }
                assert forall|d: Digest| self.batch_requests@.contains_key(d) implies #[trigger]
                    self.batch_requests@[d] == requests[d] by {
                    assert(left[d] == requests[d]);
                }
            }
            i += 1;
        }
        self.parent_requests.remove(&header.parent_cert.header_digest);
        let is_historical = self.historical_payload_waiters.remove(&header.id);
        proof {
            assert forall|d: Digest| #[trigger] self.batch_requests@.contains_key(d)
                <==> requests.contains_key(d) && !carries(header, d) by {}
            assert(self.batch_requests@ =~= after_recovery(old(self)@, header).batch_requests);
        }
        let mut actions: Vec<WaiterAction> = Vec::new();
        if !is_historical {
            actions.push(WaiterAction::Loopback(header));
            assert(action_views(actions@) =~= seq![ActionView::Loopback(header)]);
        } else {
            assert(action_views(actions@) =~= Seq::<ActionView>::empty());
        }
        actions
    }

    /// Drops everything at or below `gc_round`, and lists the waits that are to be cancelled.
    pub fn cleanup(&mut self, gc_round: Height) -> (cancelled: Vec<Digest>)
        ensures
            final(self).config == old(self).config,
            final(self)@ == after_cleanup(old(self)@, gc_round),
            cancelled@ == listing(expired(old(self)@, gc_round)),
    {
        let is_old = |d: &Digest, r: &Height| -> (b: bool)
            ensures
                b == (*r <= gc_round),
            { *r <= gc_round };
        let cancelled = self.pending.keys_where(
            is_old,
            Ghost(|d: Digest, r: Height| r <= gc_round),
        );
        let keep_pending = |d: &Digest, r: &Height| -> (b: bool)
            ensures
                b == (gc_round < *r),
            { gc_round < *r };
        self.pending.retain(keep_pending, Ghost(|d: Digest, r: Height| r > gc_round));
        let keep_batch = |d: &Digest, r: &(Height, bool)| -> (b: bool)
            ensures
                b == (gc_round < r.0),
            { gc_round < r.0 };
        self.batch_requests.retain(
            keep_batch,
            Ghost(|d: Digest, r: (Height, bool)| r.0 > gc_round),
        );
        let keep_parent = |d: &Digest, r: &(Height, u128)| -> (b: bool)
            ensures
                b == (gc_round < r.0),
            { gc_round < r.0 };
        self.parent_requests.retain(
            keep_parent,
            Ghost(|d: Digest, r: (Height, u128)| r.0 > gc_round),
        );
        let keep_header = |d: &Digest, r: &(Height, u128)| -> (b: bool)
            ensures
                b == (gc_round < r.0),
            { gc_round < r.0 };
        self.header_requests.retain(
            keep_header,
            Ghost(|d: Digest, r: (Height, u128)| r.0 > gc_round),
        );
        let keep_suffix = |d: &Digest, r: &PendingSuffixSync| -> (b: bool)
            ensures
                b == (gc_round < r.proposal.height),
            { gc_round < r.proposal.height };
        self.proposal_sync_requests.retain(
            keep_suffix,
            Ghost(|d: Digest, r: PendingSuffixSync| r.proposal.height > gc_round),
        );
        assert(self@.suffix_syncs =~= after_cleanup(old(self)@, gc_round).suffix_syncs);
        self.retain_commit_syncs();
        let parent_requests = &self.parent_requests;
        let keep_inflight = |d: &Digest, u: &()| -> (b: bool)
            ensures
                b == parent_requests@.contains_key(*d),
            { parent_requests.contains_key(d) };
        self.inflight_proposals.retain(
            keep_inflight,
            Ghost(|d: Digest| parent_requests@.contains_key(d)),
        );
        let pending = &self.pending;
        let keep_historical = |d: &Digest, u: &()| -> (b: bool)
            ensures
                b == pending@.contains_key(*d),
            { pending.contains_key(d) };
        self.historical_payload_waiters.retain(
            keep_historical,
            Ghost(|d: Digest| pending@.contains_key(d)),
        );
        cancelled
    }

    /// Keeps the commit-time syncs whose proposal is still wanted.
    fn retain_commit_syncs(&mut self)
        ensures
            final(self).config == old(self).config,
            final(self)@ == (WaiterState {
                commit_syncs: old(self)@.commit_syncs.filter(
                    |p: PendingCommitSync| old(self)@.suffix_syncs.contains_key(p.digest),
                ),
                ..old(self)@
            }),
    {
        let ghost all = self.pending_commit_syncs@;
        let ghost wanted = |p: PendingCommitSync| old(self)@.suffix_syncs.contains_key(p.digest);
        let mut active: Vec<PendingCommitSync> = Vec::new();
        let mut i: usize = 0;
        proof {
            reveal(Seq::filter);
            assert(active@ =~= all.take(0).filter(wanted));
        }
        while i < self.pending_commit_syncs.len()
            invariant
                i <= all.len(),
                all == self.pending_commit_syncs@,
                *self == *old(self),
                wanted == (|p: PendingCommitSync|
                    old(self)@.suffix_syncs.contains_key(p.digest)),
                active@ == all.take(i as int).filter(wanted),
            decreases all.len() - i,
        {
            let sync = self.pending_commit_syncs[i];
            proof {
                reveal(Seq::filter);
                assert(all.take(i + 1).drop_last() =~= all.take(i as int));
                assert(all.take(i + 1).last() == sync);
            }
            if self.proposal_sync_requests.contains_key(&sync.digest) {
                active.push(sync);
            }
            i += 1;
        }
        assert(all.take(i as int) =~= all);
        self.pending_commit_syncs = active;
    }

    /// The number of pieces of data that are being fetched, and of what waits for them.
    pub fn recovery_gauges(&self) -> (gauges: RecoveryGauges)
        ensures
            gauges.are_of(self@),
    {
        let mut inflight: KeySet<Digest> = KeySet::new();
        inflight.insert_keys_of(&self.parent_requests);
        inflight.insert_keys_of(&self.header_requests);
        inflight.insert_keys_of(&self.batch_requests);
        inflight.insert_keys_of(&self.proposal_sync_requests);
        assert(inflight@ =~= holes(self@));
        let inflight_holes: usize = inflight.len();
        let pending: usize = self.pending.len();
        let proposals: usize = self.pending_proposal_syncs.len();
        let commits: usize = self.pending_commit_syncs.len();
        RecoveryGauges {
            inflight_holes,
            hole_dependents: (pending as u128) + (proposals as u128) + (commits as u128),
        }
    }

    /// Whether the waiter can take `event`.
    pub fn can_take(&self, event: &WaiterEvent) -> (b: bool)
        ensures
            b == can_take(self.config, self@, *event),
    {
        match event {
            WaiterEvent::Message(WaiterMessage::SyncBatches(missing, _, mode)) => {
                self.knows_workers(missing, *mode)
            },
            WaiterEvent::Retry => self.clock_fits(),
            _ => true,
        }
    }

    /// Whether our workers that have batches to fetch are in the committee.
    fn knows_workers(&self, missing: &Table<Digest, WorkerId>, mode: PayloadSyncMode) -> (b: bool)
        ensures
            b == knows_workers(self.config, self@, missing.entries(), mode),
    {
        let force_sync = match mode {
            PayloadSyncMode::Live(force) => force,
            PayloadSyncMode::Historical => true,
        };
        if !force_sync {
            return true;
        }
        let ghost entries = missing.entries();
        let ghost requests = self.batch_requests@;
        let n: usize = missing.len();
        let mut i: usize = 0;
        while i < n
            invariant
                i <= n == entries.len(),
                entries == missing.entries(),
                requests == self.batch_requests@,
                mode.forces_sync(),
                forall|j: int|
                    0 <= j < i && is_fresh(requests, (#[trigger] entries[j]).0)
                        ==> self.config.committee.worker_of(self.config.name, entries[j].1) is Some,
            decreases n - i,
        {
            let digest = missing.key_at(i);
            let worker: WorkerId = *missing.value_at(i);
            let fresh = match self.batch_requests.get(&digest) {
                Some(request) => !request.1,
                None => true,
            };
            if fresh && self.config.committee.worker(&self.config.name, &worker).is_none() {
                proof {
                    lemma_some_fresh(entries, requests, worker);
                    assert(entries[i as int].1 == worker && is_fresh(
                        requests,
                        entries[i as int].0,
                    ));
                    assert(fresh_of_worker(entries, self@.batch_requests, worker).len() > 0);
                    assert(self.config.committee.worker_of(self.config.name, worker) is None);
                    assert(!knows_workers(self.config, self@, entries, mode));
                }
                return false;
            }
            i += 1;
        }
        proof {
            assert forall|w: WorkerId| #[trigger]
                fresh_of_worker(entries, requests, w).len()
                    > 0 implies self.config.committee.worker_of(self.config.name, w) is Some by {
                lemma_some_fresh(entries, requests, w);
            }
        }
        true
    }

    /// Whether the times of the requests leave room for the retry delay.
    fn clock_fits(&self) -> (b: bool)
        ensures
            b == clock_fits(self.config, self@),
    {
        let delay: u64 = self.config.sync_retry_delay;
        let parent_fits = |d: &Digest, r: &(Height, u128)| -> (b: bool)
            ensures
                b == (r.1 + delay <= u128::MAX),
            { r.1 <= u128::MAX - (delay as u128) };
        let suffix_fits = |d: &Digest, r: &PendingSuffixSync| -> (b: bool)
            ensures
                b == (r.timestamp + delay <= u128::MAX),
            { r.timestamp <= u128::MAX - (delay as u128) };
        let parents = self.parent_requests.all(
            parent_fits,
            Ghost(|d: Digest, r: (Height, u128)| r.1 + delay <= u128::MAX),
        );
        let suffixes = self.proposal_sync_requests.all(
            suffix_fits,
            Ghost(|d: Digest, r: PendingSuffixSync| r.timestamp + delay <= u128::MAX),
        );
        proof {
            let c = self.config;
            let s = self@;
            if parents && suffixes {
                assert forall|d: Digest| s.parent_requests.contains_key(d) implies (
                #[trigger] s.parent_requests[d]).1 + c.sync_retry_delay <= u128::MAX by {
                    assert(self.parent_requests@.contains_key(d));
                }
                assert forall|d: Digest| s.suffix_syncs.contains_key(d) implies (
                #[trigger] s.suffix_syncs[d]).timestamp + c.sync_retry_delay <= u128::MAX by {
                    assert(self.proposal_sync_requests@.contains_key(d));
                }
            }
            if !parents {
                let d = choose|d: Digest| #[trigger]
                    self.parent_requests@.contains_key(d) && !(self.parent_requests@[d].1 + delay
                        <= u128::MAX);
                assert(s.parent_requests[d].1 + c.sync_retry_delay > u128::MAX);
            }
            if !suffixes {
                let d = choose|d: Digest| #[trigger]
                    self.proposal_sync_requests@.contains_key(d) && !(
                    self.proposal_sync_requests@[d].timestamp + delay <= u128::MAX);
                assert(s.suffix_syncs.contains_key(d));
                assert(s.suffix_syncs[d].timestamp + c.sync_retry_delay > u128::MAX);
            }
        }
        parents && suffixes
    }

    /// Takes an event, at the time `now` and with consensus at `round`, to the actions that it calls
    /// for. Unless the event is a command for what waits already, a cleanup follows. Behind the
    /// timer, it follows the retries, for which the time is taken anew.
    pub fn step(&mut self, event: WaiterEvent, now: u128, round: Height) -> (outcome: WaiterOutcome)
        requires
            can_take(old(self).config, old(self)@, event),
        ensures
            final(self).config == old(self).config,
            final(self)@ == after_step(old(self).config, old(self)@, event, now, round),
            answers(
                old(self).config,
                old(self)@,
                event,
                now,
                action_views(outcome.actions@),
            ),
            outcome.cancelled@ == (if cleans_up(old(self)@, event) && round
                > old(self).config.gc_depth {
                listing(
                    expired(
                        after_event(old(self).config, old(self)@, event, now),
                        (round - old(self).config.gc_depth) as Height,
                    ),
                )
            } else {
                Seq::empty()
            }),
            match outcome.gauges {
                Some(gauges) => cleans_up(old(self)@, event) && gauges.are_of(final(self)@),
                None => !cleans_up(old(self)@, event),
            },
            outcome.retry_next == (event is Timer),
    {
        let ghost c = self.config;
        let ghost s = self@;
        let mut actions: Vec<WaiterAction> = Vec::new();
        let mut follow_up: bool = true;
        let retry_next = matches!(event, WaiterEvent::Timer);
        assert(action_views(actions@) =~= Seq::<ActionView>::empty());
        match event {
            WaiterEvent::Message(WaiterMessage::SyncBatches(missing, header, mode)) => {
                let force_sync = match mode {
                    PayloadSyncMode::Live(force) => force,
                    PayloadSyncMode::Historical => true,
                };
                follow_up = force_sync || !self.pending.contains_key(&header.id);
                actions = self.sync_batches(missing, header, mode);
            },
            WaiterEvent::Message(WaiterMessage::SyncProposals(missing, message, header)) => {
                follow_up = !self.pending.contains_key(&proposal_digest(&message));
                self.sync_proposals(missing, message, header);
            },
            WaiterEvent::Message(WaiterMessage::SyncParent(missing, header)) => {
                follow_up = !self.pending.contains_key(&header.id);
                actions = self.sync_parent(missing, header, now);
            },
            WaiterEvent::Message(WaiterMessage::SyncHeader(missing)) => {
                actions = self.sync_header(missing, now);
            },
            WaiterEvent::Message(
                WaiterMessage::SyncCommittedProposal(proposal, stop_height, slot),
            ) => {
                actions = self.sync_committed_proposal(proposal, stop_height, slot, now);
            },
            WaiterEvent::Message(WaiterMessage::ClearCommittedProposalSync(digest)) => {
                self.clear_committed_proposal_sync(digest);
            },
            WaiterEvent::Recovered(header) => {
                actions = self.recovered(header);
            },
            WaiterEvent::Cancelled => {},
            WaiterEvent::Timer => {
                follow_up = false;
                actions = self.dispatch_pending_commit_syncs();
                let ghost first = actions@;
                let mut more = self.drain_pending_proposal_syncs(now);
                let ghost second = more@;
                actions.append(&mut more);
                assert(action_views(actions@) =~= action_views(first) + action_views(second));
            },
            WaiterEvent::Retry => {
                actions = self.retry(now);
            },
        }
        assert(self@ == after_event(c, s, event, now));
        assert(follow_up == cleans_up(s, event));
        let mut cancelled: Vec<Digest> = Vec::new();
        let mut gauges: Option<RecoveryGauges> = None;
        if follow_up {
            if round > self.config.gc_depth {
                let gc_round: Height = round - self.config.gc_depth;
                cancelled = self.cleanup(gc_round);
            }
            gauges = Some(self.recovery_gauges());
        }
        WaiterOutcome { actions, cancelled, gauges, retry_next }
    }
}

/// How much is being recovered.
#[derive(Clone, Copy, PartialEq, Eq, Structural, Debug)]
pub struct RecoveryGauges {
    /// The number of pieces of data that are being fetched.
    pub inflight_holes: usize,
    /// The number of headers and messages that wait for them.
    pub hole_dependents: u128,
}

impl RecoveryGauges {
    /// The gauges show how much is being recovered in the state `s`.
    pub open spec fn are_of(self, s: WaiterState) -> bool {
        &&& self.inflight_holes == holes(s).len()
        &&& self.hole_dependents == s.pending.len() + s.proposal_syncs.len()
            + s.commit_syncs.len()
    }
}

/// The gauges count every piece of data that was requested once, and everything that waits or is queued.
pub proof fn gauges_count_all_that_is_recovered(g: RecoveryGauges, s: WaiterState, wanted: Set<Digest>)
    requires
        g.are_of(s),
        forall|d: Digest| #[trigger]
            wanted.contains(d) <==> s.parent_requests.contains_key(d)
                || s.header_requests.contains_key(d) || s.batch_requests.contains_key(d)
                || s.suffix_syncs.contains_key(d),
    ensures
        g.inflight_holes == wanted.len(),
        g.hole_dependents == s.pending.len() + s.proposal_syncs.len() + s.commit_syncs.len(),
{
    assert(wanted =~= holes(s));
}

/// What the waiter asks for after an event.
pub struct WaiterOutcome {
    /// What is to be done, in order.
    pub actions: Vec<WaiterAction>,
    /// The waits that are to be cancelled.
    pub cancelled: Vec<Digest>,
    /// How much is being recovered, where the event ends with an account of it.
    pub gauges: Option<RecoveryGauges>,
    /// Whether the retry event is to follow, once the actions are done.
    pub retry_next: bool,
}

/// A worker has a batch to fetch if one of its missing batches was not requested yet.
proof fn lemma_some_fresh(
    missing: Seq<(Digest, WorkerId)>,
    requests: Map<Digest, (Height, bool)>,
    w: WorkerId,
)
    ensures
        fresh_of_worker(missing, requests, w).len() > 0 <==> exists|j: int|
            0 <= j < missing.len() && (#[trigger] missing[j]).1 == w && is_fresh(
                requests,
                missing[j].0,
            ),
    decreases missing.len(),
{
    if missing.len() > 0 {
        let front = missing.drop_last();
        lemma_some_fresh(front, requests, w);
        if exists|j: int|
            0 <= j < front.len() && (#[trigger] front[j]).1 == w && is_fresh(requests, front[j].0) {
            let j = choose|j: int|
                0 <= j < front.len() && (#[trigger] front[j]).1 == w && is_fresh(
                    requests,
                    front[j].0,
                );
            assert(missing[j] == front[j]);
        }
        if exists|j: int|
            0 <= j < missing.len() && (#[trigger] missing[j]).1 == w && is_fresh(
                requests,
                missing[j].0,
            ) {
            let j = choose|j: int|
                0 <= j < missing.len() && (#[trigger] missing[j]).1 == w && is_fresh(
                    requests,
                    missing[j].0,
                );
            if j < front.len() {
                assert(front[j] == missing[j]);
            }
        }
        assert(missing[missing.len() - 1] == missing.last());
    }
}

/// What is among the first `i + 1` elements.
proof fn lemma_take_contains(s: Seq<Digest>, i: int, d: Digest)
    requires
        0 <= i < s.len(),
    ensures
        s.take(i + 1).contains(d) <==> s.take(i).contains(d) || s[i] == d,
{
    if s.take(i).contains(d) {
        let j = choose|j: int| 0 <= j < i && s.take(i)[j] == d;
        assert(s.take(i + 1)[j] == d);
    }
    if s.take(i + 1).contains(d) {
        let j = choose|j: int| 0 <= j < i + 1 && #[trigger] s.take(i + 1)[j] == d;
        if j < i {
            assert(s.take(i)[j] == d);
        }
    }
    assert(s.take(i + 1)[i] == s[i]);
}

/// The key behind the first `i` of ascending entries is not among them.
proof fn lemma_next_key(entries: Seq<(Digest, WorkerId)>, i: int)
    requires
        ascending(entries),
        0 <= i < entries.len(),
    ensures
        !listed(entries.take(i)).contains_key(entries[i].0),
        listed(entries.take(i + 1)).dom() == listed(entries.take(i)).dom().insert(entries[i].0),
{
    let done = entries.take(i);
    let next = entries.take(i + 1);
    crate::table::lemma_listed(entries);
    if has_key(done, entries[i].0) {
        let j = place_of(done, entries[i].0);
        assert(entries[j].0 == entries[i].0);
    }
    assert forall|d: Digest| #[trigger] listed(next).dom().contains(d) <==> listed(
        done,
    ).dom().insert(entries[i].0).contains(d) by {
        if has_key(next, d) {
            let j = place_of(next, d);
            if j < i {
                assert(done[j].0 == d);
            }
        }
        if has_key(done, d) {
            let j = place_of(done, d);
            assert(next[j].0 == d);
        }
        assert(next[i].0 == entries[i].0);
    }
    assert(listed(next).dom() =~= listed(done).dom().insert(entries[i].0));
}

} // verus!
