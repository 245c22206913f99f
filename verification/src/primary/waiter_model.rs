//! What the header waiter keeps, what it is told and what it asks for, with the steps that lead
//! from one state to the next.
use crate::committee::Committee;
use crate::ident::{Address, Digest, Height, PublicKey, Slot, WorkerId};
use crate::messages::{ConsensusMessage, Header, Proposal, ProposalView};
use crate::sorting::stable_sort;
use crate::table::{kept, listing, Table};
use vstd::prelude::*;

verus! {

/// The number of nodes that the first request for missing data goes to. Higher values get the data
/// faster, at the cost of more traffic.
pub const INITIAL_SYNC_FANOUT: usize = 3;

/// How the payload of a header is to be fetched.
#[derive(Clone, Copy, PartialEq, Eq, Structural, Debug)]
pub enum PayloadSyncMode {
    /// For a header on the live path. The flag asks for the batches to be requested, not only
    /// waited for.
    Live(bool),
    /// For a header that is in the store already and only lacks its payload.
    Historical,
}

impl PayloadSyncMode {
    /// Whether the batches are to be requested.
    pub open spec fn forces_sync(self) -> bool {
        match self {
            PayloadSyncMode::Live(force) => force,
            PayloadSyncMode::Historical => true,
        }
    }

    /// Whether the header is to go back to the core once its payload is there.
    pub open spec fn loops_back(self) -> bool {
        !(self is Historical)
    }
}

/// The commands that can be sent to the waiter.
pub enum WaiterMessage {
    /// Fetch the missing batches of a header.
    SyncBatches(Table<Digest, WorkerId>, Header, PayloadSyncMode),
    /// Fetch the headers that a consensus message proposes.
    SyncProposals(Vec<Proposal>, ConsensusMessage, Header),
    /// Fetch the parent of a header.
    SyncParent(Digest, Header),
    /// Fetch a header.
    SyncHeader(Digest),
    /// Fetch the headers of a committed proposal above a height.
    SyncCommittedProposal(Proposal, Height, Slot),
    /// Forget about a committed proposal.
    ClearCommittedProposalSync(Digest),
}

/// A deferred proposal sync, with the slot that gives its priority.
pub struct PendingProposalSync {
    pub slot: Slot,
    pub missing: Vec<Proposal>,
    pub consensus_message: ConsensusMessage,
    pub header: Header,
}

/// A commit-time sync to be sent out, with the slot that gives its priority.
#[derive(Clone, Copy)]
pub struct PendingCommitSync {
    pub slot: Slot,
    pub digest: Digest,
}

/// A commit-time sync that is under way.
pub struct PendingSuffixSync {
    pub proposal: Proposal,
    pub stop_height: Height,
    pub slot: Slot,
    pub timestamp: u128,
}

/// What a commit-time sync asks for.
#[verifier::ext_equal]
pub struct SuffixSyncView {
    pub proposal: ProposalView,
    pub stop_height: Height,
    pub slot: Slot,
    pub timestamp: u128,
}

impl View for PendingSuffixSync {
    type V = SuffixSyncView;

    open spec fn view(&self) -> SuffixSyncView {
        SuffixSyncView {
            proposal: self.proposal@,
            stop_height: self.stop_height,
            slot: self.slot,
            timestamp: self.timestamp,
        }
    }
}

/// What stays fixed while the waiter runs.
pub struct WaiterConfig {
    /// The name of this authority.
    pub name: PublicKey,
    pub committee: Committee,
    /// The depth of the garbage collection.
    pub gc_depth: Height,
    /// The delay before a sync request is sent again, in milliseconds.
    pub sync_retry_delay: u64,
    /// The number of nodes that a repeated sync request goes to.
    pub sync_retry_nodes: usize,
}

/// Something for the node to do.
pub enum WaiterAction {
    /// Deliver `header` once the store holds all of `keys`, unless cancelled under `id`.
    AwaitHeader { id: Digest, keys: Vec<Vec<u8>>, header: Header },
    /// Deliver `message` and `header` once the store holds all of `keys`, unless cancelled under
    /// `id`.
    AwaitProposals { id: Digest, keys: Vec<Vec<u8>>, message: ConsensusMessage, header: Header },
    /// Ask `nodes` of `addresses`, picked at random, for headers.
    RequestHeaders {
        digests: Vec<Digest>,
        requestor: PublicKey,
        addresses: Vec<Address>,
        nodes: usize,
    },
    /// Ask `nodes` of `addresses`, picked at random, for the headers of `proposal` above
    /// `stop_height`.
    RequestSuffix {
        proposal: Proposal,
        stop_height: Height,
        requestor: PublicKey,
        addresses: Vec<Address>,
        nodes: usize,
    },
    /// Tell our worker at `address` to fetch `digests` from the worker of `author`, for a header of
    /// height `height`.
    RequestBatches {
        worker_id: WorkerId,
        address: Address,
        digests: Vec<Digest>,
        author: PublicKey,
        height: Height,
    },
    /// Hand the header back to the core.
    Loopback(Header),
}

/// What an action asks for.
#[verifier::ext_equal]
pub enum ActionView {
    AwaitHeader { id: Digest, keys: Seq<Seq<u8>>, header: Header },
    AwaitProposals { id: Digest, keys: Seq<Seq<u8>>, message: ConsensusMessage, header: Header },
    RequestHeaders {
        digests: Seq<Digest>,
        requestor: PublicKey,
        addresses: Seq<Address>,
        nodes: nat,
    },
    RequestSuffix {
        proposal: ProposalView,
        stop_height: Height,
        requestor: PublicKey,
        addresses: Seq<Address>,
        nodes: nat,
    },
    RequestBatches {
        worker_id: WorkerId,
        address: Address,
        digests: Seq<Digest>,
        author: PublicKey,
        height: Height,
    },
    Loopback(Header),
}

/// The byte strings in `keys`.
pub open spec fn key_views(keys: Seq<Vec<u8>>) -> Seq<Seq<u8>> {
    keys.map_values(|k: Vec<u8>| k@)
}

impl View for WaiterAction {
    type V = ActionView;

    open spec fn view(&self) -> ActionView {
        match *self {
            WaiterAction::AwaitHeader { id, keys, header } => ActionView::AwaitHeader {
                id,
                keys: key_views(keys@),
                header,
            },
            WaiterAction::AwaitProposals { id, keys, message, header } =>
                ActionView::AwaitProposals { id, keys: key_views(keys@), message, header },
            WaiterAction::RequestHeaders { digests, requestor, addresses, nodes } =>
                ActionView::RequestHeaders {
                    digests: digests@,
                    requestor,
                    addresses: addresses@,
                    nodes: nodes as nat,
                },
            WaiterAction::RequestSuffix { proposal, stop_height, requestor, addresses, nodes } =>
                ActionView::RequestSuffix {
                    proposal: proposal@,
                    stop_height,
                    requestor,
                    addresses: addresses@,
                    nodes: nodes as nat,
                },
            WaiterAction::RequestBatches { worker_id, address, digests, author, height } =>
                ActionView::RequestBatches { worker_id, address, digests: digests@, author, height },
            WaiterAction::Loopback(header) => ActionView::Loopback(header),
        }
    }
}

/// What `actions` ask for.
pub open spec fn action_views(actions: Seq<WaiterAction>) -> Seq<ActionView> {
    actions.map_values(|a: WaiterAction| a@)
}

/// What the waiter keeps.
#[verifier::ext_equal]
pub struct WaiterState {
    /// The headers requested as parents or proposals: their height, and when they were requested.
    pub parent_requests: Map<Digest, (Height, u128)>,
    /// The headers requested for themselves.
    pub header_requests: Map<Digest, (Height, u128)>,
    /// The batches waited for: the height of the header, and whether they were requested.
    pub batch_requests: Map<Digest, (Height, bool)>,
    /// What is waiting for its dependencies: headers and consensus messages, with their heights.
    pub pending: Map<Digest, Height>,
    /// The waiting headers that are not to go back to the core.
    pub historical: Set<Digest>,
    /// The proposed headers that are being fetched.
    pub inflight: Set<Digest>,
    /// The proposal syncs to be carried out.
    pub proposal_syncs: Seq<PendingProposalSync>,
    /// The commit-time syncs to be sent out.
    pub commit_syncs: Seq<PendingCommitSync>,
    /// The commit-time syncs under way, by proposal.
    pub suffix_syncs: Map<Digest, SuffixSyncView>,
}

/// The other primaries, as addresses.
pub open spec fn others(c: WaiterConfig) -> Seq<Address> {
    c.committee.other_primary_addresses(c.name)
}

/// A request for `digests` to `nodes` of the other primaries.
pub open spec fn headers_request(c: WaiterConfig, digests: Seq<Digest>, nodes: usize) -> ActionView {
    ActionView::RequestHeaders {
        digests,
        requestor: c.name,
        addresses: others(c),
        nodes: nodes as nat,
    }
}

/// Where those of `votes` that are other members of the committee listen.
pub open spec fn certifiers(c: WaiterConfig, votes: Seq<PublicKey>) -> Seq<Address>
    decreases votes.len(),
{
    if votes.len() == 0 {
        Seq::empty()
    } else {
        let front = certifiers(c, votes.drop_last());
        let pk = votes.last();
        match c.committee.primary_of(pk) {
            Some(a) if pk != c.name => front.push(a.primary_to_primary),
            _ => front,
        }
    }
}

/// A first request for the suffix of `r`: to all who certified its tip or, if there are none, to a
/// few of the other primaries.
pub open spec fn suffix_request(c: WaiterConfig, r: SuffixSyncView) -> ActionView {
    let known = certifiers(c, r.proposal.certificate.votes);
    ActionView::RequestSuffix {
        proposal: r.proposal,
        stop_height: r.stop_height,
        requestor: c.name,
        addresses: if known.len() == 0 {
            others(c)
        } else {
            known
        },
        nodes: if known.len() == 0 {
            INITIAL_SYNC_FANOUT as nat
        } else {
            known.len()
        },
    }
}

/// The key under which the store holds the batch `digest` of the worker `worker`.
pub open spec fn batch_key(digest: Digest, worker: WorkerId) -> Seq<u8> {
    digest.0@ + vstd::bytes::spec_u32_to_le_bytes(worker)
}

/// The keys of the batches in `missing`.
pub open spec fn batch_keys(missing: Seq<(Digest, WorkerId)>) -> Seq<Seq<u8>> {
    missing.map_values(|x: (Digest, WorkerId)| batch_key(x.0, x.1))
}

/// The batch `d` was not requested yet.
pub open spec fn is_fresh(requests: Map<Digest, (Height, bool)>, d: Digest) -> bool {
    !(requests.contains_key(d) && requests[d].1)
}

/// Those of the `missing` batches of the worker `w` that were not requested yet.
pub open spec fn fresh_of_worker(
    missing: Seq<(Digest, WorkerId)>,
    requests: Map<Digest, (Height, bool)>,
    w: WorkerId,
) -> Seq<Digest>
    decreases missing.len(),
{
    if missing.len() == 0 {
        Seq::empty()
    } else {
        let front = fresh_of_worker(missing.drop_last(), requests, w);
        let (d, worker) = missing.last();
        if worker == w && is_fresh(requests, d) {
            front.push(d)
        } else {
            front
        }
    }
}

/// `a` tells our worker `w` to fetch those of the `missing` batches that were not requested yet.
pub open spec fn is_batch_request(
    c: WaiterConfig,
    missing: Seq<(Digest, WorkerId)>,
    requests: Map<Digest, (Height, bool)>,
    header: Header,
    w: WorkerId,
    a: ActionView,
) -> bool {
    a == (ActionView::RequestBatches {
        worker_id: w,
        address: c.committee.worker_of(c.name, w)->0.primary_to_worker,
        digests: fresh_of_worker(missing, requests, w),
        author: header.author,
        height: header.height,
    })
}

/// `actions` are one request for each worker that holds a batch to be requested, by ascending
/// worker.
pub open spec fn are_batch_requests(
    c: WaiterConfig,
    missing: Seq<(Digest, WorkerId)>,
    requests: Map<Digest, (Height, bool)>,
    header: Header,
    actions: Seq<ActionView>,
) -> bool {
    &&& forall|i: int|
        0 <= i < actions.len() ==> (#[trigger] actions[i] matches ActionView::RequestBatches {
            worker_id,
            ..
        } && is_batch_request(c, missing, requests, header, worker_id, actions[i])
            && fresh_of_worker(missing, requests, worker_id).len() > 0)
    &&& forall|i: int, j: int|
        0 <= i < j < actions.len() ==> (#[trigger] actions[i])->RequestBatches_worker_id < (
        #[trigger] actions[j])->RequestBatches_worker_id
    &&& forall|w: WorkerId| #[trigger]
        fresh_of_worker(missing, requests, w).len() > 0 ==> exists|i: int|
            0 <= i < actions.len() && (#[trigger] actions[i])->RequestBatches_worker_id == w
}

/// `requests` once all of `missing` have been requested for a header of height `height`.
pub open spec fn all_requested(
    requests: Map<Digest, (Height, bool)>,
    missing: Set<Digest>,
    height: Height,
) -> Map<Digest, (Height, bool)> {
    Map::new(
        |d: Digest| requests.contains_key(d) || missing.contains(d),
        |d: Digest|
            if missing.contains(d) {
                (height, true)
            } else {
                requests[d]
            },
    )
}

/// The state after a request for the payload of `header`.
pub open spec fn after_sync_batches(
    s: WaiterState,
    missing: Set<Digest>,
    header: Header,
    mode: PayloadSyncMode,
) -> WaiterState {
    let waits = s.pending.contains_key(header.id);
    WaiterState {
        pending: if waits {
            s.pending
        } else {
            s.pending.insert(header.id, header.height)
        },
        historical: if mode.loops_back() {
            s.historical.remove(header.id)
        } else if waits {
            s.historical
        } else {
            s.historical.insert(header.id)
        },
        batch_requests: if mode.forces_sync() {
            all_requested(s.batch_requests, missing, header.height)
        } else {
            s.batch_requests
        },
        ..s
    }
}

/// The state after a request for the header `missing`, with what is asked for.
pub open spec fn after_sync_header(
    c: WaiterConfig,
    s: WaiterState,
    missing: Digest,
    now: u128,
) -> (WaiterState, Seq<ActionView>) {
    if s.header_requests.contains_key(missing) {
        (s, Seq::empty())
    } else {
        (
            WaiterState { header_requests: s.header_requests.insert(missing, (0, now)), ..s },
            seq![headers_request(c, seq![missing], INITIAL_SYNC_FANOUT)],
        )
    }
}

/// The state after a request for the parent `missing` of `header`, with what is asked for. Nothing
/// happens if the header is waiting already.
pub open spec fn after_sync_parent(
    c: WaiterConfig,
    s: WaiterState,
    missing: Digest,
    header: Header,
    now: u128,
) -> (WaiterState, Seq<ActionView>) {
    let wait = ActionView::AwaitHeader { id: header.id, keys: seq![missing.0@], header };
    let waiting = WaiterState { pending: s.pending.insert(header.id, header.height), ..s };
    if s.pending.contains_key(header.id) {
        (s, Seq::empty())
    } else if s.parent_requests.contains_key(missing) {
        (waiting, seq![wait])
    } else {
        (
            WaiterState {
                parent_requests: s.parent_requests.insert(missing, (header.height, now)),
                ..waiting
            },
            seq![wait, headers_request(c, seq![missing], INITIAL_SYNC_FANOUT)],
        )
    }
}

/// The state after a request for what `sync` proposes. Nothing happens if its message is waiting
/// already.
pub open spec fn after_sync_proposals(s: WaiterState, sync: PendingProposalSync) -> WaiterState {
    if s.pending.contains_key(sync.consensus_message.spec_instance().proposal_digest) {
        s
    } else {
        WaiterState { proposal_syncs: s.proposal_syncs.push(sync), ..s }
    }
}

/// Whether a commit-time sync with `stop_height` and `slot` asks for more than the one under way.
pub open spec fn widens(
    s: WaiterState,
    digest: Digest,
    stop_height: Height,
    slot: Slot,
) -> bool {
    s.suffix_syncs.contains_key(digest) ==> {
        ||| slot < s.suffix_syncs[digest].slot
        ||| stop_height < s.suffix_syncs[digest].stop_height
    }
}

/// The smaller of two numbers.
pub open spec fn least(a: u64, b: u64) -> u64 {
    if a < b {
        a
    } else {
        b
    }
}

/// The commit-time sync of `proposal` once `stop_height` and `slot` have been asked for.
pub open spec fn widened(
    s: WaiterState,
    proposal: ProposalView,
    stop_height: Height,
    slot: Slot,
    now: u128,
) -> SuffixSyncView {
    if s.suffix_syncs.contains_key(proposal.header_digest) {
        let r = s.suffix_syncs[proposal.header_digest];
        SuffixSyncView {
            slot: least(slot, r.slot),
            stop_height: least(stop_height, r.stop_height),
            ..r
        }
    } else {
        SuffixSyncView { proposal, stop_height, slot, timestamp: now }
    }
}

/// The state after a request for the suffix of a committed proposal, with what is asked for.
pub open spec fn after_sync_committed(
    c: WaiterConfig,
    s: WaiterState,
    proposal: ProposalView,
    stop_height: Height,
    slot: Slot,
    now: u128,
) -> (WaiterState, Seq<ActionView>) {
    let digest = proposal.header_digest;
    if widens(s, digest, stop_height, slot) {
        after_dispatch(
            c,
            WaiterState {
                suffix_syncs: s.suffix_syncs.insert(
                    digest,
                    widened(s, proposal, stop_height, slot, now),
                ),
                commit_syncs: s.commit_syncs.push(PendingCommitSync { slot, digest }),
                ..s
            },
        )
    } else {
        (s, Seq::empty())
    }
}

/// The slot by which commit-time syncs are ordered.
pub open spec fn commit_slot() -> spec_fn(PendingCommitSync) -> u64 {
    |p: PendingCommitSync| p.slot
}

/// The slot by which proposal syncs are ordered.
pub open spec fn proposal_slot() -> spec_fn(PendingProposalSync) -> u64 {
    |p: PendingProposalSync| p.slot
}

/// One of `syncs` is about `digest`.
pub open spec fn mentions(syncs: Seq<PendingCommitSync>, digest: Digest) -> bool {
    exists|i: int| 0 <= i < syncs.len() && (#[trigger] syncs[i]).digest == digest
}

/// The first requests for `syncs`, in their order: one for each proposal that is still wanted.
pub open spec fn dispatched(
    c: WaiterConfig,
    syncs: Seq<PendingCommitSync>,
    suffix_syncs: Map<Digest, SuffixSyncView>,
) -> Seq<ActionView>
    decreases syncs.len(),
{
    if syncs.len() == 0 {
        Seq::empty()
    } else {
        let front = dispatched(c, syncs.drop_last(), suffix_syncs);
        let digest = syncs.last().digest;
        if mentions(syncs.drop_last(), digest) || !suffix_syncs.contains_key(digest) {
            front
        } else {
            front.push(suffix_request(c, suffix_syncs[digest]))
        }
    }
}

/// The state once the commit-time syncs have been sent out, lowest slot first, with what is asked
/// for.
pub open spec fn after_dispatch(c: WaiterConfig, s: WaiterState) -> (WaiterState, Seq<ActionView>) {
    (
        WaiterState { commit_syncs: Seq::empty(), ..s },
        dispatched(c, stable_sort(s.commit_syncs, commit_slot()), s.suffix_syncs),
    )
}

/// The digests of `missing`.
pub open spec fn proposed(missing: Seq<Proposal>) -> Seq<Digest> {
    missing.map_values(|p: Proposal| p.header_digest)
}

/// The state once the `missing` proposals have been marked as being fetched.
pub open spec fn after_marking(s: WaiterState, missing: Seq<Proposal>, now: u128) -> WaiterState
    decreases missing.len(),
{
    if missing.len() == 0 {
        s
    } else {
        let front = after_marking(s, missing.drop_last(), now);
        let p = missing.last();
        if front.inflight.contains(p.header_digest) {
            front
        } else {
            WaiterState {
                inflight: front.inflight.insert(p.header_digest),
                parent_requests: if front.parent_requests.contains_key(p.header_digest) {
                    front.parent_requests
                } else {
                    front.parent_requests.insert(p.header_digest, (p.height, now))
                },
                ..front
            }
        }
    }
}

/// Those of the `missing` proposals that nobody asked for yet.
pub open spec fn to_fetch(s: WaiterState, missing: Seq<Proposal>, now: u128) -> Seq<Digest>
    decreases missing.len(),
{
    if missing.len() == 0 {
        Seq::empty()
    } else {
        let front = to_fetch(s, missing.drop_last(), now);
        let marked = after_marking(s, missing.drop_last(), now);
        let d = missing.last().header_digest;
        if marked.inflight.contains(d) || marked.parent_requests.contains_key(d) {
            front
        } else {
            front.push(d)
        }
    }
}

/// The state once the proposal sync `p` has been carried out, with what is asked for. Nothing
/// happens if its message is waiting already.
pub open spec fn after_proposal_sync(
    c: WaiterConfig,
    s: WaiterState,
    p: PendingProposalSync,
    now: u128,
) -> (WaiterState, Seq<ActionView>) {
    let id = p.consensus_message.spec_instance().proposal_digest;
    if s.pending.contains_key(id) {
        (s, Seq::empty())
    } else {
        let waiting = WaiterState { pending: s.pending.insert(id, p.header.height), ..s };
        let wait = ActionView::AwaitProposals {
            id,
            keys: p.missing@.map_values(|x: Proposal| x.header_digest.0@),
            message: p.consensus_message,
            header: p.header,
        };
        let fetch = to_fetch(waiting, p.missing@, now);
        (
            after_marking(waiting, p.missing@, now),
            if fetch.len() == 0 {
                seq![wait]
            } else {
                seq![wait, headers_request(c, fetch, INITIAL_SYNC_FANOUT)]
            },
        )
    }
}

/// The state once `syncs` have been carried out in their order, with what is asked for.
pub open spec fn after_proposal_syncs(
    c: WaiterConfig,
    s: WaiterState,
    syncs: Seq<PendingProposalSync>,
    now: u128,
) -> (WaiterState, Seq<ActionView>)
    decreases syncs.len(),
{
    if syncs.len() == 0 {
        (s, Seq::empty())
    } else {
        let (front, actions) = after_proposal_syncs(c, s, syncs.drop_last(), now);
        let (next, more) = after_proposal_sync(c, front, syncs.last(), now);
        (next, actions + more)
    }
}

/// The state once the proposal syncs have been carried out, lowest slot first, with what is asked
/// for.
pub open spec fn after_drain(c: WaiterConfig, s: WaiterState, now: u128) -> (
    WaiterState,
    Seq<ActionView>,
) {
    after_proposal_syncs(
        c,
        WaiterState { proposal_syncs: Seq::empty(), ..s },
        stable_sort(s.proposal_syncs, proposal_slot()),
        now,
    )
}

/// A request made at `timestamp` is due to be repeated.
pub open spec fn is_due(c: WaiterConfig, timestamp: u128, now: u128) -> bool {
    timestamp + c.sync_retry_delay < now
}

/// The state once the requests that are due have been repeated.
pub open spec fn after_retry(c: WaiterConfig, s: WaiterState, now: u128) -> WaiterState {
    WaiterState {
        parent_requests: s.parent_requests.map_values(
            |r: (Height, u128)|
                if is_due(c, r.1, now) {
                    (r.0, now)
                } else {
                    r
                },
        ),
        suffix_syncs: s.suffix_syncs.map_values(
            |r: SuffixSyncView|
                if is_due(c, r.timestamp, now) {
                    SuffixSyncView { timestamp: now, ..r }
                } else {
                    r
                },
        ),
        ..s
    }
}

/// The parents that are due to be requested again.
pub open spec fn due_parents(c: WaiterConfig, s: WaiterState, now: u128) -> Set<Digest> {
    kept(s.parent_requests, |d: Digest, r: (Height, u128)| is_due(c, r.1, now)).dom()
}

/// The committed proposals that are due to be requested again.
pub open spec fn due_suffixes(c: WaiterConfig, s: WaiterState, now: u128) -> Set<Digest> {
    kept(s.suffix_syncs, |d: Digest, r: SuffixSyncView| is_due(c, r.timestamp, now)).dom()
}

/// A repeated request for the suffix of `r`, to some of the other primaries.
pub open spec fn repeated_suffix_request(c: WaiterConfig, r: SuffixSyncView) -> ActionView {
    ActionView::RequestSuffix {
        proposal: r.proposal,
        stop_height: r.stop_height,
        requestor: c.name,
        addresses: others(c),
        nodes: c.sync_retry_nodes as nat,
    }
}

/// The requests that are repeated: one for all parents that are due, and one for each committed
/// proposal that is due.
pub open spec fn retries(c: WaiterConfig, s: WaiterState, now: u128) -> Seq<ActionView> {
    let parents = listing(due_parents(c, s, now));
    let suffixes = listing(due_suffixes(c, s, now)).map_values(
        |d: Digest| repeated_suffix_request(c, s.suffix_syncs[d]),
    );
    if parents.len() == 0 {
        suffixes
    } else {
        seq![headers_request(c, parents, c.sync_retry_nodes)] + suffixes
    }
}

/// The times at which requests were made leave room for the retry delay.
pub open spec fn clock_fits(c: WaiterConfig, s: WaiterState) -> bool {
    &&& forall|d: Digest|
        s.parent_requests.contains_key(d) ==> (#[trigger] s.parent_requests[d]).1
            + c.sync_retry_delay <= u128::MAX
    &&& forall|d: Digest|
        s.suffix_syncs.contains_key(d) ==> (#[trigger] s.suffix_syncs[d]).timestamp
            + c.sync_retry_delay <= u128::MAX
}

/// The state once `header` has all that it waited for.
pub open spec fn after_recovery(s: WaiterState, header: Header) -> WaiterState {
    WaiterState {
        pending: s.pending.remove(header.id),
        batch_requests: kept(
            s.batch_requests,
            |d: Digest, r: (Height, bool)| !carries(header, d),
        ),
        parent_requests: s.parent_requests.remove(header.parent_cert.header_digest),
        historical: s.historical.remove(header.id),
        ..s
    }
}

/// The header carries the batch `d`.
pub open spec fn carries(header: Header, d: Digest) -> bool {
    exists|i: int| 0 <= i < header.payload@.len() && (#[trigger] header.payload@[i]).0 == d
}

/// The state once everything at or below `gc_round` has been dropped.
pub open spec fn after_cleanup(s: WaiterState, gc_round: Height) -> WaiterState {
    let pending = kept(s.pending, |d: Digest, r: Height| r > gc_round);
    let parent_requests = kept(s.parent_requests, |d: Digest, r: (Height, u128)| r.0 > gc_round);
    let suffix_syncs = kept(
        s.suffix_syncs,
        |d: Digest, r: SuffixSyncView| r.proposal.height > gc_round,
    );
    WaiterState {
        pending,
        batch_requests: kept(s.batch_requests, |d: Digest, r: (Height, bool)| r.0 > gc_round),
        parent_requests,
        header_requests: kept(s.header_requests, |d: Digest, r: (Height, u128)| r.0 > gc_round),
        suffix_syncs,
        commit_syncs: s.commit_syncs.filter(
            |p: PendingCommitSync| suffix_syncs.contains_key(p.digest),
        ),
        inflight: s.inflight.filter(|d: Digest| parent_requests.contains_key(d)),
        historical: s.historical.filter(|d: Digest| pending.contains_key(d)),
        proposal_syncs: s.proposal_syncs,
    }
}

/// What waits at or below `gc_round`.
pub open spec fn expired(s: WaiterState, gc_round: Height) -> Set<Digest> {
    kept(s.pending, |d: Digest, r: Height| r <= gc_round).dom()
}

/// The missing data that is being fetched.
pub open spec fn holes(s: WaiterState) -> Set<Digest> {
    s.parent_requests.dom().union(s.header_requests.dom()).union(s.batch_requests.dom()).union(
        s.suffix_syncs.dom(),
    )
}

/// Something that happens to the waiter.
pub enum WaiterEvent {
    /// A command came in.
    Message(WaiterMessage),
    /// The store has all that the header waited for.
    Recovered(Header),
    /// A wait was cancelled.
    Cancelled,
    /// The timer rang: queued syncs are to be carried out.
    Timer,
    /// The queued syncs have been carried out: overdue requests are to be repeated.
    Retry,
}

/// The event is a command for what waits already, which ends at once.
pub open spec fn is_duplicate(s: WaiterState, e: WaiterEvent) -> bool {
    match e {
        WaiterEvent::Message(WaiterMessage::SyncBatches(_, header, mode)) =>
            s.pending.contains_key(header.id) && !mode.forces_sync(),
        WaiterEvent::Message(WaiterMessage::SyncParent(_, header)) =>
            s.pending.contains_key(header.id),
        WaiterEvent::Message(WaiterMessage::SyncProposals(_, message, _)) =>
            s.pending.contains_key(message.spec_instance().proposal_digest),
        _ => false,
    }
}

/// The state after the event, before the cleanup.
pub open spec fn after_event(
    c: WaiterConfig,
    s: WaiterState,
    e: WaiterEvent,
    now: u128,
) -> WaiterState {
    match e {
        WaiterEvent::Message(WaiterMessage::SyncBatches(missing, header, mode)) =>
            after_sync_batches(s, missing@.dom(), header, mode),
        WaiterEvent::Message(WaiterMessage::SyncProposals(missing, message, header)) =>
            after_sync_proposals(
                s,
                PendingProposalSync {
                    slot: message.spec_instance().slot,
                    missing,
                    consensus_message: message,
                    header,
                },
            ),
        WaiterEvent::Message(WaiterMessage::SyncParent(missing, header)) =>
            after_sync_parent(c, s, missing, header, now).0,
        WaiterEvent::Message(WaiterMessage::SyncHeader(missing)) =>
            after_sync_header(c, s, missing, now).0,
        WaiterEvent::Message(WaiterMessage::SyncCommittedProposal(proposal, stop_height, slot)) =>
            after_sync_committed(c, s, proposal@, stop_height, slot, now).0,
        WaiterEvent::Message(WaiterMessage::ClearCommittedProposalSync(digest)) =>
            WaiterState { suffix_syncs: s.suffix_syncs.remove(digest), ..s },
        WaiterEvent::Recovered(header) => after_recovery(s, header),
        WaiterEvent::Cancelled => s,
        WaiterEvent::Timer => after_drain(c, after_dispatch(c, s).0, now).0,
        WaiterEvent::Retry => after_retry(c, s, now),
    }
}

/// `actions` are what `header` and its `missing` batches call for.
pub open spec fn answers_sync_batches(
    c: WaiterConfig,
    s: WaiterState,
    missing: Seq<(Digest, WorkerId)>,
    header: Header,
    mode: PayloadSyncMode,
    actions: Seq<ActionView>,
) -> bool {
    let waits: int = if s.pending.contains_key(header.id) {
        0
    } else {
        1
    };
    &&& actions.len() >= waits
    &&& waits == 1 ==> actions[0] == (ActionView::AwaitHeader {
        id: header.id,
        keys: batch_keys(missing),
        header,
    })
    &&& if mode.forces_sync() {
        are_batch_requests(c, missing, s.batch_requests, header, actions.skip(waits))
    } else {
        actions.len() == waits
    }
}

/// `actions` are what the event calls for.
pub open spec fn answers(
    c: WaiterConfig,
    s: WaiterState,
    e: WaiterEvent,
    now: u128,
    actions: Seq<ActionView>,
) -> bool {
    match e {
        WaiterEvent::Message(WaiterMessage::SyncBatches(missing, header, mode)) =>
            answers_sync_batches(c, s, missing.entries(), header, mode, actions),
        WaiterEvent::Message(WaiterMessage::SyncParent(missing, header)) => actions
            == after_sync_parent(c, s, missing, header, now).1,
        WaiterEvent::Message(WaiterMessage::SyncHeader(missing)) => actions == after_sync_header(
            c,
            s,
            missing,
            now,
        ).1,
        WaiterEvent::Message(WaiterMessage::SyncCommittedProposal(proposal, stop_height, slot)) =>
            actions == after_sync_committed(c, s, proposal@, stop_height, slot, now).1,
        WaiterEvent::Message(_) => actions == Seq::<ActionView>::empty(),
        WaiterEvent::Recovered(header) => actions == (if s.historical.contains(header.id) {
            Seq::empty()
        } else {
            seq![ActionView::Loopback(header)]
        }),
        WaiterEvent::Cancelled => actions == Seq::<ActionView>::empty(),
        WaiterEvent::Timer => actions == after_dispatch(c, s).1 + after_drain(
            c,
            after_dispatch(c, s).0,
            now,
        ).1,
        WaiterEvent::Retry => actions == retries(c, s, now),
    }
}

/// The event is followed by a cleanup. A command for what waits already is not, and the timer's
/// comes after the retries.
pub open spec fn cleans_up(s: WaiterState, e: WaiterEvent) -> bool {
    !is_duplicate(s, e) && !(e is Timer)
}

/// The state after the event and the cleanup that follows it, for the consensus round `round`.
pub open spec fn after_step(
    c: WaiterConfig,
    s: WaiterState,
    e: WaiterEvent,
    now: u128,
    round: Height,
) -> WaiterState {
    let next = after_event(c, s, e, now);
    if cleans_up(s, e) && round > c.gc_depth {
        after_cleanup(next, (round - c.gc_depth) as Height)
    } else {
        next
    }
}

/// Whether the waiter can take the event: our workers that have batches to fetch are in the
/// committee, and no time is so late that the retry delay cannot be added to it.
pub open spec fn can_take(c: WaiterConfig, s: WaiterState, e: WaiterEvent) -> bool {
    match e {
        WaiterEvent::Message(WaiterMessage::SyncBatches(missing, _, mode)) => knows_workers(
            c,
            s,
            missing.entries(),
            mode,
        ),
        WaiterEvent::Retry => clock_fits(c, s),
        _ => true,
    }
}

/// Our workers that have batches to fetch are in the committee.
pub open spec fn knows_workers(
    c: WaiterConfig,
    s: WaiterState,
    missing: Seq<(Digest, WorkerId)>,
    mode: PayloadSyncMode,
) -> bool {
    mode.forces_sync() ==> forall|w: WorkerId| #[trigger]
        fresh_of_worker(missing, s.batch_requests, w).len() > 0 ==> c.committee.worker_of(
            c.name,
            w,
        ) is Some
}

} // verus!
