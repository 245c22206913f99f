//! What holds of the header waiter whatever happens to it.
use crate::ident::{Address, Digest, Height, PublicKey, Slot, WorkerId};
use crate::messages::{ConsensusMessage, Header, Proposal, ProposalView};
use crate::primary::waiter_model::{
    PayloadSyncMode, PendingCommitSync, PendingProposalSync, WaiterConfig, WaiterEvent,
    WaiterMessage,
};
use crate::table::Table;
use vstd::prelude::*;

verus! {

use crate::committee::{others_are_the_other_members, primaries_but};
use crate::primary::waiter_model::{
    after_cleanup, after_dispatch, after_drain, after_event, after_marking, after_proposal_sync,
    after_proposal_syncs, after_recovery, after_retry, after_step, after_sync_batches,
    after_sync_committed, after_sync_header, after_sync_parent, answers, answers_sync_batches,
    can_take, certifiers, clock_fits, commit_slot, dispatched, due_parents,
    due_suffixes, expired, fresh_of_worker, holes, is_duplicate, is_fresh, mentions, others,
    proposal_slot, retries, suffix_request, to_fetch, ActionView, SuffixSyncView, WaiterState,
};
use crate::sorting::{lemma_stably_sorted, rising, stable_sort, stable_sort_exists};
use crate::table::{is_listing, lemma_listing_len, listing, listing_exists, listing_is_unique};

/// What a waiter keeps between two events: only headers that wait are marked as historical, and
/// every commit-time sync has been sent out.
pub open spec fn is_settled(s: WaiterState) -> bool {
    &&& s.historical.subset_of(s.pending.dom())
    &&& s.commit_syncs.len() == 0
}

/// A waiter that waits for nothing is settled.
pub proof fn an_idle_waiter_is_settled(s: WaiterState)
    requires
        s.historical == Set::<Digest>::empty(),
        s.commit_syncs == Seq::<PendingCommitSync>::empty(),
    ensures
        is_settled(s),
{
}

/// A settled waiter is settled after every event.
pub proof fn a_waiter_stays_settled(
    c: WaiterConfig,
    s: WaiterState,
    e: WaiterEvent,
    now: u128,
    round: Height,
)
    requires
        is_settled(s),
    ensures
        is_settled(after_step(c, s, e, now, round)),
{
    let next = after_event(c, s, e, now);
    assert(is_settled(next)) by {
        if e is Timer {
            let sent = after_dispatch(c, s).0;
            lemma_syncs_keep(
                c,
                WaiterState { proposal_syncs: Seq::empty(), ..sent },
                stable_sort(sent.proposal_syncs, proposal_slot()),
                now,
            );
        }
    }
    if round > c.gc_depth {
        let gc_round = (round - c.gc_depth) as Height;
        reveal(Seq::filter);
        assert(after_cleanup(next, gc_round).commit_syncs.len() == 0);
    }
}

/// Marking proposals leaves alone all but what is being fetched.
proof fn lemma_marking_keeps(c: WaiterConfig, s: WaiterState, missing: Seq<Proposal>, now: u128)
    ensures
        after_marking(s, missing, now) == (WaiterState {
            inflight: after_marking(s, missing, now).inflight,
            parent_requests: after_marking(s, missing, now).parent_requests,
            ..s
        }),
        clock_fits(c, s) && now + c.sync_retry_delay <= u128::MAX ==> clock_fits(
            c,
            after_marking(s, missing, now),
        ),
    decreases missing.len(),
{
    if missing.len() > 0 {
        lemma_marking_keeps(c, s, missing.drop_last(), now);
    }
}

/// Carrying out proposal syncs marks nothing as historical and drops nothing that waits.
proof fn lemma_syncs_keep(
    c: WaiterConfig,
    s: WaiterState,
    syncs: Seq<PendingProposalSync>,
    now: u128,
)
    ensures
        after_proposal_syncs(c, s, syncs, now).0.historical == s.historical,
        after_proposal_syncs(c, s, syncs, now).0.commit_syncs == s.commit_syncs,
        s.pending.dom().subset_of(after_proposal_syncs(c, s, syncs, now).0.pending.dom()),
        clock_fits(c, s) && now + c.sync_retry_delay <= u128::MAX ==> clock_fits(
            c,
            after_proposal_syncs(c, s, syncs, now).0,
        ),
    decreases syncs.len(),
{
    if syncs.len() > 0 {
        lemma_syncs_keep(c, s, syncs.drop_last(), now);
        let front = after_proposal_syncs(c, s, syncs.drop_last(), now).0;
        let p = syncs.last();
        let id = p.consensus_message.spec_instance().proposal_digest;
        let waiting = WaiterState { pending: front.pending.insert(id, p.header.height), ..front };
        lemma_marking_keeps(c, waiting, p.missing@, now);
    }
}

/// As long as the clock leaves room for the retry delay, so do the times of all requests: the
/// waiter can always take the next retry.
pub proof fn the_clock_keeps_fitting(
    c: WaiterConfig,
    s: WaiterState,
    e: WaiterEvent,
    now: u128,
    round: Height,
)
    requires
        clock_fits(c, s),
        now + c.sync_retry_delay <= u128::MAX,
    ensures
        clock_fits(c, after_step(c, s, e, now, round)),
{
    let next = after_event(c, s, e, now);
    assert(clock_fits(c, next)) by {
        if e is Timer {
            let sent = after_dispatch(c, s).0;
            lemma_syncs_keep(
                c,
                WaiterState { proposal_syncs: Seq::empty(), ..sent },
                stable_sort(sent.proposal_syncs, proposal_slot()),
                now,
            );
        }
    }
    if round > c.gc_depth {
        let gc_round = (round - c.gc_depth) as Height;
        let clean = after_cleanup(next, gc_round);
        assert forall|d: Digest| clean.parent_requests.contains_key(d) implies (
        #[trigger] clean.parent_requests[d]).1 + c.sync_retry_delay <= u128::MAX by {
            assert(clean.parent_requests[d] == next.parent_requests[d]);
        }
        assert forall|d: Digest| clean.suffix_syncs.contains_key(d) implies (
        #[trigger] clean.suffix_syncs[d]).timestamp + c.sync_retry_delay <= u128::MAX by {
            assert(clean.suffix_syncs[d] == next.suffix_syncs[d]);
        }
    }
}

/// A command to fetch the parent or the proposals of what waits already changes nothing. One to
/// fetch its payload changes no more than whether it is historical.
pub proof fn a_duplicate_changes_nothing(
    c: WaiterConfig,
    s: WaiterState,
    e: WaiterEvent,
    now: u128,
    round: Height,
)
    requires
        is_duplicate(s, e),
    ensures
        after_step(c, s, e, now, round) == (WaiterState {
            historical: after_step(c, s, e, now, round).historical,
            ..s
        }),
        !(e matches WaiterEvent::Message(WaiterMessage::SyncBatches(..))) ==> after_step(
            c,
            s,
            e,
            now,
            round,
        ) == s,
{
}

/// Nothing at or below the garbage collection round outlives the cleanup.
pub proof fn nothing_old_remains(s: WaiterState, gc_round: Height, d: Digest)
    ensures
        ({
            let clean = after_cleanup(s, gc_round);
            &&& clean.pending.contains_key(d) ==> clean.pending[d] > gc_round
            &&& clean.batch_requests.contains_key(d) ==> clean.batch_requests[d].0 > gc_round
            &&& clean.parent_requests.contains_key(d) ==> clean.parent_requests[d].0 > gc_round
            &&& clean.header_requests.contains_key(d) ==> clean.header_requests[d].0 > gc_round
            &&& clean.suffix_syncs.contains_key(d) ==> clean.suffix_syncs[d].proposal.height
                > gc_round
            &&& clean.inflight.contains(d) ==> clean.parent_requests.contains_key(d)
            &&& clean.historical.contains(d) ==> clean.pending.contains_key(d)
        }),
{
}

/// Two cleanups do what the one for the later round does.
pub proof fn cleanups_add_up(s: WaiterState, first: Height, second: Height)
    ensures
        after_cleanup(after_cleanup(s, first), second) == after_cleanup(
            s,
            if first < second {
                second
            } else {
                first
            },
        ),
{
    let last = if first < second {
        second
    } else {
        first
    };
    let once = after_cleanup(s, first);
    let twice = after_cleanup(once, second);
    let whole = after_cleanup(s, last);
    assert(twice.pending =~= whole.pending);
    assert(twice.batch_requests =~= whole.batch_requests);
    assert(twice.parent_requests =~= whole.parent_requests);
    assert(twice.header_requests =~= whole.header_requests);
    assert(twice.suffix_syncs =~= whole.suffix_syncs);
    assert(twice.inflight =~= whole.inflight);
    assert(twice.historical =~= whole.historical);
    lemma_filter_twice(
        s.commit_syncs,
        |p: PendingCommitSync| once.suffix_syncs.contains_key(p.digest),
        |p: PendingCommitSync| twice.suffix_syncs.contains_key(p.digest),
    );
    assert(twice.commit_syncs =~= whole.commit_syncs);
}

/// Filtering by `p` before filtering by a stronger `q` makes no difference.
proof fn lemma_filter_twice(
    s: Seq<PendingCommitSync>,
    p: spec_fn(PendingCommitSync) -> bool,
    q: spec_fn(PendingCommitSync) -> bool,
)
    requires
        forall|x: PendingCommitSync| q(x) ==> #[trigger] p(x),
    ensures
        s.filter(p).filter(q) == s.filter(q),
    decreases s.len(),
{
    reveal(Seq::filter);
    if s.len() > 0 {
        lemma_filter_twice(s.drop_last(), p, q);
        let front = s.drop_last().filter(p);
        if p(s.last()) {
            assert(front.push(s.last()).drop_last() =~= front);
        } else {
            assert(!q(s.last()));
        }
    }
}

/// Once the batches in `missing` have been requested, none of them is requested again for another
/// header that misses some of them.
pub proof fn batches_are_requested_once(
    s: WaiterState,
    missing: Set<Digest>,
    header: Header,
    mode: PayloadSyncMode,
    again: Seq<(Digest, WorkerId)>,
    w: WorkerId,
)
    requires
        mode.forces_sync(),
        forall|i: int| 0 <= i < again.len() ==> missing.contains((#[trigger] again[i]).0),
    ensures
        fresh_of_worker(
            again,
            after_sync_batches(s, missing, header, mode).batch_requests,
            w,
        ).len() == 0,
    decreases again.len(),
{
    if again.len() > 0 {
        let (d, worker) = again.last();
        assert(again[again.len() - 1].0 == d);
        assert forall|i: int| 0 <= i < again.drop_last().len() implies missing.contains(
            (#[trigger] again.drop_last()[i]).0,
        ) by {
            assert(again.drop_last()[i] == again[i]);
        }
        batches_are_requested_once(s, missing, header, mode, again.drop_last(), w);
        assert(!is_fresh(after_sync_batches(s, missing, header, mode).batch_requests, d));
    }
}

/// A header is asked for once.
pub proof fn headers_are_requested_once(
    c: WaiterConfig,
    s: WaiterState,
    missing: Digest,
    now: u128,
    later: u128,
)
    ensures
        ({
            let next = after_sync_header(c, s, missing, now).0;
            after_sync_header(c, next, missing, later) == (next, Seq::<ActionView>::empty())
        }),
{
}

/// A parent is asked for once, however many headers lack it: a header that comes later only waits.
pub proof fn parents_are_requested_once(
    c: WaiterConfig,
    s: WaiterState,
    missing: Digest,
    header: Header,
    now: u128,
    other: Header,
    later: u128,
)
    requires
        !s.pending.contains_key(header.id),
    ensures
        ({
            let next = after_sync_parent(c, s, missing, header, now).0;
            let (end, actions) = after_sync_parent(c, next, missing, other, later);
            &&& end.parent_requests == next.parent_requests
            &&& actions == (if next.pending.contains_key(other.id) {
                Seq::empty()
            } else {
                seq![
                    ActionView::AwaitHeader {
                        id: other.id,
                        keys: seq![missing.0@],
                        header: other,
                    },
                ]
            })
        }),
{
}

/// What is marked as being fetched is not fetched for another message that lacks some of it.
pub proof fn proposals_are_fetched_once(
    s: WaiterState,
    missing: Seq<Proposal>,
    now: u128,
    again: Seq<Proposal>,
    later: u128,
)
    requires
        forall|i: int|
            0 <= i < again.len() ==> exists|j: int|
                0 <= j < missing.len() && (#[trigger] missing[j]).header_digest == (
                #[trigger] again[i]).header_digest,
    ensures
        to_fetch(after_marking(s, missing, now), again, later).len() == 0,
        after_marking(after_marking(s, missing, now), again, later) == after_marking(
            s,
            missing,
            now,
        ),
    decreases again.len(),
{
    if again.len() > 0 {
        let front = again.drop_last();
        let marked = after_marking(s, missing, now);
        assert forall|i: int| 0 <= i < front.len() implies exists|j: int|
            0 <= j < missing.len() && (#[trigger] missing[j]).header_digest == (
            #[trigger] front[i]).header_digest by {
            assert(front[i] == again[i]);
        }
        proposals_are_fetched_once(s, missing, now, front, later);
        assert(again[again.len() - 1] == again.last());
        let j = choose|j: int|
            0 <= j < missing.len() && (#[trigger] missing[j]).header_digest
                == again.last().header_digest;
        lemma_marked(s, missing, now, j);
        assert(marked.inflight.contains(again.last().header_digest));
    }
}

proof fn lemma_marked(s: WaiterState, missing: Seq<Proposal>, now: u128, j: int)
    requires
        0 <= j < missing.len(),
    ensures
        after_marking(s, missing, now).inflight.contains(missing[j].header_digest),
    decreases missing.len(),
{
    let front = missing.drop_last();
    if j < front.len() {
        lemma_marked(s, front, now, j);
        assert(front[j] == missing[j]);
    }
}

/// Once the requests that are due have been repeated, none is due: repeating them again at the same
/// time asks for nothing.
pub proof fn nothing_is_due_after_a_retry(c: WaiterConfig, s: WaiterState, now: u128)
    ensures
        due_parents(c, after_retry(c, s, now), now) == Set::<Digest>::empty(),
        due_suffixes(c, after_retry(c, s, now), now) == Set::<Digest>::empty(),
        retries(c, after_retry(c, s, now), now).len() == 0,
{
    let next = after_retry(c, s, now);
    assert(due_parents(c, next, now) =~= Set::<Digest>::empty());
    assert(due_suffixes(c, next, now) =~= Set::<Digest>::empty());
    assert(is_listing(Seq::<Digest>::empty(), Set::<Digest>::empty()));
    listing_is_unique(Seq::<Digest>::empty(), Set::<Digest>::empty());
}

/// A request for more of a committed proposal never narrows the one under way: neither its slot nor
/// the height at which it stops rises, and it is at least as wide as what was asked for. One that
/// asks for no more changes nothing and sends nothing.
pub proof fn suffix_syncs_only_widen(
    c: WaiterConfig,
    s: WaiterState,
    proposal: ProposalView,
    stop_height: Height,
    slot: Slot,
    now: u128,
)
    ensures
        ({
            let d = proposal.header_digest;
            let (next, actions) = after_sync_committed(c, s, proposal, stop_height, slot, now);
            &&& next.suffix_syncs.contains_key(d)
            &&& next.suffix_syncs[d].slot <= slot
            &&& next.suffix_syncs[d].stop_height <= stop_height
            &&& s.suffix_syncs.contains_key(d) ==> {
                &&& next.suffix_syncs[d].slot <= s.suffix_syncs[d].slot
                &&& next.suffix_syncs[d].stop_height <= s.suffix_syncs[d].stop_height
                &&& next.suffix_syncs[d].proposal == s.suffix_syncs[d].proposal
                &&& s.suffix_syncs[d].slot <= slot && s.suffix_syncs[d].stop_height <= stop_height
                    ==> next == s && actions.len() == 0
            }
        }),
{
}

/// A header that waits only for its payload goes back to the core after all, if it was asked for on
/// the live path before its payload arrived. One that was not does not.
pub proof fn a_live_request_upgrades_a_historical_one(
    c: WaiterConfig,
    s: WaiterState,
    missing: Set<Digest>,
    header: Header,
    force: bool,
    now: u128,
    actions: Seq<ActionView>,
)
    ensures
        ({
            let live = after_sync_batches(s, missing, header, PayloadSyncMode::Live(force));
            answers(c, live, WaiterEvent::Recovered(header), now, actions) <==> actions == seq![
                ActionView::Loopback(header),
            ]
        }),
        !s.pending.contains_key(header.id) ==> ({
            let historical = after_sync_batches(s, missing, header, PayloadSyncMode::Historical);
            answers(c, historical, WaiterEvent::Recovered(header), now, actions) <==> actions
                == Seq::<ActionView>::empty()
        }),
{
}

/// A request for the payload of a header: the batches that it lacks, and how they are to be fetched.
pub struct PayloadRequest {
    pub missing: Set<Digest>,
    pub mode: PayloadSyncMode,
}

/// The state after `requests` for the payload of `header`, one after the other.
pub open spec fn after_payload_requests(
    s: WaiterState,
    header: Header,
    requests: Seq<PayloadRequest>,
) -> WaiterState
    decreases requests.len(),
{
    if requests.len() == 0 {
        s
    } else {
        after_sync_batches(
            after_payload_requests(s, header, requests.drop_last()),
            requests.last().missing,
            header,
            requests.last().mode,
        )
    }
}

/// One of `requests` was made on the live path.
pub open spec fn some_is_live(requests: Seq<PayloadRequest>) -> bool {
    exists|i: int| 0 <= i < requests.len() && (#[trigger] requests[i]).mode.loops_back()
}

/// If `first`, the first of `actions` begins a wait for a header, and none else does. If not, none
/// does.
pub open spec fn begins_one_wait(actions: Seq<ActionView>, first: bool) -> bool {
    &&& first ==> actions.len() > 0
    &&& forall|i: int|
        0 <= i < actions.len() ==> ((#[trigger] actions[i]) is AwaitHeader <==> first && i == 0)
}

/// However often the payload of a header is asked for, the header goes back to the core once if one
/// of the requests was live, and not at all if none was. Only the first request makes it wait, and
/// once it has gone back it waits no more.
pub proof fn a_header_goes_back_once_if_one_request_was_live(
    c: WaiterConfig,
    s: WaiterState,
    header: Header,
    requests: Seq<PayloadRequest>,
    now: u128,
    actions: Seq<ActionView>,
)
    requires
        !s.pending.contains_key(header.id),
        requests.len() > 0,
    ensures
        ({
            let end = after_payload_requests(s, header, requests);
            &&& answers(c, end, WaiterEvent::Recovered(header), now, actions) <==> actions == (
            if some_is_live(requests) {
                seq![ActionView::Loopback(header)]
            } else {
                Seq::empty()
            })
            &&& !after_recovery(end, header).pending.contains_key(header.id)
        }),
        forall|k: int, missing: Seq<(Digest, WorkerId)>, reply: Seq<ActionView>|
            0 <= k < requests.len() && #[trigger] answers_sync_batches(
                c,
                after_payload_requests(s, header, requests.take(k)),
                missing,
                header,
                requests[k].mode,
                reply,
            ) ==> begins_one_wait(reply, k == 0),
{
    lemma_payload_requests(s, header, requests);
    assert forall|k: int, missing: Seq<(Digest, WorkerId)>, reply: Seq<ActionView>|
        0 <= k < requests.len() && #[trigger] answers_sync_batches(
            c,
            after_payload_requests(s, header, requests.take(k)),
            missing,
            header,
            requests[k].mode,
            reply,
        ) implies begins_one_wait(reply, k == 0) by {
        lemma_payload_requests(s, header, requests.take(k));
        let waits: int = if k == 0 {
            1
        } else {
            0
        };
        assert forall|i: int| waits <= i < reply.len() implies !((
        #[trigger] reply[i]) is AwaitHeader) by {
            assert(reply.skip(waits)[i - waits] == reply[i]);
        }
    }
}

proof fn lemma_payload_requests(s: WaiterState, header: Header, requests: Seq<PayloadRequest>)
    requires
        !s.pending.contains_key(header.id),
    ensures
        ({
            let end = after_payload_requests(s, header, requests);
            &&& end.pending.contains_key(header.id) <==> requests.len() > 0
            &&& requests.len() > 0 ==> (end.historical.contains(header.id) <==> !some_is_live(
                requests,
            ))
        }),
    decreases requests.len(),
{
    if requests.len() > 0 {
        let front = requests.drop_last();
        lemma_payload_requests(s, header, front);
        let last = requests.last();
        assert(requests[requests.len() - 1] == last);
        if some_is_live(front) {
            let i = choose|i: int|
                0 <= i < front.len() && (#[trigger] front[i]).mode.loops_back();
            assert(requests[i] == front[i]);
        }
        if some_is_live(requests) && !last.mode.loops_back() {
            let i = choose|i: int|
                0 <= i < requests.len() && (#[trigger] requests[i]).mode.loops_back();
            assert(front[i] == requests[i]);
        }
    }
}

/// Once a header has all that it waited for, nothing is kept for it.
pub proof fn a_recovered_header_is_forgotten(s: WaiterState, header: Header, i: int)
    ensures
        ({
            let next = after_recovery(s, header);
            &&& !next.pending.contains_key(header.id)
            &&& !next.historical.contains(header.id)
            &&& !next.parent_requests.contains_key(header.parent_cert.header_digest)
            &&& 0 <= i < header.payload@.len() ==> !next.batch_requests.contains_key(
                header.payload@[i].0,
            )
        }),
{
}

/// Queued syncs are carried out by ascending slot.
pub proof fn lower_slots_come_first(s: WaiterState)
    ensures
        rising(stable_sort(s.proposal_syncs, proposal_slot()), proposal_slot()),
        rising(stable_sort(s.commit_syncs, commit_slot()), commit_slot()),
        stable_sort(s.proposal_syncs, proposal_slot()).to_multiset()
            == s.proposal_syncs.to_multiset(),
        stable_sort(s.commit_syncs, commit_slot()).to_multiset() == s.commit_syncs.to_multiset(),
{
    stable_sort_exists(s.proposal_syncs, proposal_slot());
    stable_sort_exists(s.commit_syncs, commit_slot());
}

/// Once the queue of proposal syncs has been carried out, it is empty.
pub proof fn a_drain_empties_the_queue(c: WaiterConfig, s: WaiterState, now: u128)
    ensures
        after_drain(c, s, now).0.proposal_syncs.len() == 0,
{
    lemma_syncs_queue_nothing(
        c,
        WaiterState { proposal_syncs: Seq::empty(), ..s },
        stable_sort(s.proposal_syncs, proposal_slot()),
        now,
    );
}

proof fn lemma_syncs_queue_nothing(
    c: WaiterConfig,
    s: WaiterState,
    syncs: Seq<PendingProposalSync>,
    now: u128,
)
    ensures
        after_proposal_syncs(c, s, syncs, now).0.proposal_syncs == s.proposal_syncs,
    decreases syncs.len(),
{
    if syncs.len() > 0 {
        lemma_syncs_queue_nothing(c, s, syncs.drop_last(), now);
        let front = after_proposal_syncs(c, s, syncs.drop_last(), now).0;
        let p = syncs.last();
        let id = p.consensus_message.spec_instance().proposal_digest;
        let waiting = WaiterState { pending: front.pending.insert(id, p.header.height), ..front };
        lemma_marking_keeps(c, waiting, p.missing@, now);
    }
}

/// The action asks other primaries for the header `d`.
pub open spec fn asks_for(action: ActionView, d: Digest) -> bool {
    match action {
        ActionView::RequestHeaders { digests, .. } => digests.contains(d),
        _ => false,
    }
}

/// Some of `actions` asks other primaries for the header `d`.
pub open spec fn is_asked_for(actions: Seq<ActionView>, d: Digest) -> bool {
    exists|i: int| 0 <= i < actions.len() && asks_for(#[trigger] actions[i], d)
}

/// A request for the header `d` was noted between the states `s` and `next`: a new one, or one with
/// another time.
pub open spec fn is_noted(s: WaiterState, next: WaiterState, d: Digest) -> bool {
    ||| next.parent_requests.contains_key(d) && !(s.parent_requests.contains_key(d)
        && s.parent_requests[d] == next.parent_requests[d])
    ||| next.header_requests.contains_key(d) && !(s.header_requests.contains_key(d)
        && s.header_requests[d] == next.header_requests[d])
}

proof fn lemma_asked_concat(a: Seq<ActionView>, b: Seq<ActionView>, d: Digest)
    ensures
        is_asked_for(a + b, d) <==> is_asked_for(a, d) || is_asked_for(b, d),
{
    let all = a + b;
    if is_asked_for(a, d) {
        let i = choose|i: int| 0 <= i < a.len() && asks_for(#[trigger] a[i], d);
        assert(all[i] == a[i]);
    }
    if is_asked_for(b, d) {
        let i = choose|i: int| 0 <= i < b.len() && asks_for(#[trigger] b[i], d);
        assert(all[a.len() + i] == b[i]);
    }
    if is_asked_for(all, d) {
        let i = choose|i: int| 0 <= i < all.len() && asks_for(#[trigger] all[i], d);
        if i < a.len() {
            assert(a[i] == all[i]);
        } else {
            assert(b[i - a.len()] == all[i]);
        }
    }
}

/// What sends out commit-time syncs asks for no header by itself.
proof fn lemma_dispatched(
    c: WaiterConfig,
    syncs: Seq<PendingCommitSync>,
    suffix_syncs: Map<Digest, SuffixSyncView>,
    i: int,
)
    ensures
        0 <= i < dispatched(c, syncs, suffix_syncs).len() ==> dispatched(
            c,
            syncs,
            suffix_syncs,
        )[i] is RequestSuffix,
    decreases syncs.len(),
{
    if syncs.len() > 0 {
        lemma_dispatched(c, syncs.drop_last(), suffix_syncs, i);
    }
}

/// One of `missing` is the header `d`.
pub open spec fn is_missing(missing: Seq<Proposal>, d: Digest) -> bool {
    exists|j: int| 0 <= j < missing.len() && (#[trigger] missing[j]).header_digest == d
}

proof fn lemma_marking(s: WaiterState, missing: Seq<Proposal>, now: u128, d: Digest)
    ensures
        ({
            let next = after_marking(s, missing, now);
            let fetch = to_fetch(s, missing, now);
            &&& next.inflight.contains(d) <==> s.inflight.contains(d) || is_missing(missing, d)
            &&& fetch.contains(d) <==> is_missing(missing, d) && !s.inflight.contains(d)
                && !s.parent_requests.contains_key(d)
            &&& next.parent_requests.contains_key(d) <==> s.parent_requests.contains_key(d)
                || fetch.contains(d)
            &&& s.parent_requests.contains_key(d) ==> next.parent_requests[d]
                == s.parent_requests[d]
            &&& fetch.contains(d) ==> next.parent_requests[d].1 == now && exists|j: int|
                0 <= j < missing.len() && (#[trigger] missing[j]).header_digest == d
                    && missing[j].height == next.parent_requests[d].0
            &&& fetch.no_duplicates()
        }),
    decreases missing.len(),
{
    if missing.len() > 0 {
        let front = missing.drop_last();
        let last = missing.last();
        lemma_marking(s, front, now, d);
        lemma_marking(s, front, now, last.header_digest);
        assert(missing[missing.len() - 1] == last);
        if is_missing(front, d) {
            let j = choose|j: int| 0 <= j < front.len() && (#[trigger] front[j]).header_digest == d;
            assert(missing[j] == front[j]);
        }
        if is_missing(missing, d) && last.header_digest != d {
            let j = choose|j: int|
                0 <= j < missing.len() && (#[trigger] missing[j]).header_digest == d;
            assert(front[j] == missing[j]);
        }
        let before = to_fetch(s, front, now);
        let after = to_fetch(s, missing, now);
        if before.contains(d) {
            let j = choose|j: int|
                0 <= j < front.len() && (#[trigger] front[j]).header_digest == d
                    && front[j].height == after_marking(s, front, now).parent_requests[d].0;
            assert(missing[j] == front[j]);
        }
        if after.len() > before.len() {
            assert(after == before.push(last.header_digest));
            assert(after[before.len() as int] == last.header_digest);
            if before.contains(d) {
                let j = choose|j: int| 0 <= j < before.len() && before[j] == d;
                assert(after[j] == d);
            }
            if after.contains(d) && d != last.header_digest {
                let j = choose|j: int| 0 <= j < after.len() && after[j] == d;
                assert(before[j] == d);
            }
            assert(!before.contains(last.header_digest));
            assert forall|i: int, j: int|
                0 <= i < after.len() && 0 <= j < after.len() && i != j implies after[i]
                != after[j] by {
                if i < before.len() && j < before.len() {
                    assert(before[i] != before[j]);
                } else if i < before.len() {
                    assert(before.contains(before[i]));
                } else {
                    assert(before.contains(before[j]));
                }
            }
        }
    }
}

/// The digest of what a message of consensus proposes.
pub open spec fn proposed_by(message: ConsensusMessage) -> Digest {
    match message {
        ConsensusMessage::Prepare(i) => i.proposal_digest,
        ConsensusMessage::Confirm(i) => i.proposal_digest,
        ConsensusMessage::Commit(i) => i.proposal_digest,
    }
}

/// Carrying out a proposal sync makes its message wait for all headers that it proposes, and asks for
/// each of them that nobody asked for yet, and for no other. A message that waits already is left
/// alone.
pub proof fn a_proposal_sync_awaits_all_and_asks_for_what_is_new(
    c: WaiterConfig,
    s: WaiterState,
    p: PendingProposalSync,
    now: u128,
    d: Digest,
    i: int,
)
    ensures
        ({
            let id = proposed_by(p.consensus_message);
            let (next, actions) = after_proposal_sync(c, s, p, now);
            if s.pending.contains_key(id) {
                next == s && actions.len() == 0
            } else {
                &&& next == (WaiterState {
                    pending: s.pending.insert(id, p.header.height),
                    inflight: next.inflight,
                    parent_requests: next.parent_requests,
                    ..s
                })
                &&& next.inflight.contains(d) <==> s.inflight.contains(d) || is_missing(
                    p.missing@,
                    d,
                )
                &&& is_asked_for(actions, d) <==> is_missing(p.missing@, d) && !s.inflight.contains(
                    d,
                ) && !s.parent_requests.contains_key(d)
                &&& next.parent_requests.contains_key(d) <==> s.parent_requests.contains_key(d)
                    || is_asked_for(actions, d)
                &&& s.parent_requests.contains_key(d) ==> next.parent_requests[d]
                    == s.parent_requests[d]
                &&& is_asked_for(actions, d) ==> next.parent_requests[d].1 == now && exists|j: int|
                    0 <= j < p.missing@.len() && (#[trigger] p.missing@[j]).header_digest == d
                        && p.missing@[j].height == next.parent_requests[d].0
                &&& 1 <= actions.len() <= 2
                &&& match actions[0] {
                    ActionView::AwaitProposals { id: waiting, keys, message, header } => {
                        &&& waiting == id
                        &&& message == p.consensus_message
                        &&& header == p.header
                        &&& keys.len() == p.missing@.len()
                        &&& 0 <= i < keys.len() ==> keys[i] == p.missing@[i].header_digest.0@
                    },
                    _ => false,
                }
                &&& actions.len() == 2 ==> is_first_request(c, actions[1])
            }
        }),
{
    let id = proposed_by(p.consensus_message);
    if !s.pending.contains_key(id) {
        let waiting = WaiterState { pending: s.pending.insert(id, p.header.height), ..s };
        lemma_marking(waiting, p.missing@, now, d);
        lemma_marking_keeps(c, waiting, p.missing@, now);
        let fetch = to_fetch(waiting, p.missing@, now);
        let (next, actions) = after_proposal_sync(c, s, p, now);
        if fetch.contains(d) {
            assert(asks_for(actions[1], d));
        }
        if is_asked_for(actions, d) {
            let j = choose|j: int| 0 <= j < actions.len() && asks_for(#[trigger] actions[j], d);
            assert(j == 1);
            assert(fetch.contains(d));
        }
    }
}

/// The action asks three of the other primaries for headers, in our name and for each header once.
pub open spec fn is_first_request(c: WaiterConfig, action: ActionView) -> bool {
    match action {
        ActionView::RequestHeaders { digests, requestor, addresses, nodes } => {
            &&& digests.len() > 0
            &&& digests.no_duplicates()
            &&& requestor == c.name
            &&& addresses == others(c)
            &&& nodes == 3
        },
        _ => false,
    }
}

proof fn lemma_syncs_are_noted(
    c: WaiterConfig,
    s: WaiterState,
    syncs: Seq<PendingProposalSync>,
    now: u128,
    d: Digest,
)
    ensures
        ({
            let (next, actions) = after_proposal_syncs(c, s, syncs, now);
            &&& next.header_requests == s.header_requests
            &&& s.parent_requests.contains_key(d) ==> next.parent_requests.contains_key(d)
                && next.parent_requests[d] == s.parent_requests[d]
            &&& is_asked_for(actions, d) <==> next.parent_requests.contains_key(d)
                && !s.parent_requests.contains_key(d)
            &&& is_asked_for(actions, d) ==> next.parent_requests[d].1 == now
        }),
    decreases syncs.len(),
{
    if syncs.len() > 0 {
        lemma_syncs_are_noted(c, s, syncs.drop_last(), now, d);
        let (front, before) = after_proposal_syncs(c, s, syncs.drop_last(), now);
        a_proposal_sync_awaits_all_and_asks_for_what_is_new(c, front, syncs.last(), now, d, 0);
        let more = after_proposal_sync(c, front, syncs.last(), now).1;
        lemma_asked_concat(before, more, d);
        assert(!is_asked_for(Seq::<ActionView>::empty(), d));
    }
}

/// A request for a header is sent exactly if it is noted, with the time at which it is sent: whatever
/// is asked for is noted, and whatever is noted anew or with a new time is asked for in one of the
/// actions. Only the arrival of a header makes the waiter forget a request, and the cleanup.
pub proof fn what_is_asked_for_is_noted_and_what_is_noted_is_asked_for(
    c: WaiterConfig,
    s: WaiterState,
    e: WaiterEvent,
    now: u128,
    actions: Seq<ActionView>,
    d: Digest,
)
    requires
        answers(c, s, e, now, actions),
        s.parent_requests.dom().finite(),
        s.suffix_syncs.dom().finite(),
    ensures
        ({
            let next = after_event(c, s, e, now);
            &&& is_asked_for(actions, d) <==> is_noted(s, next, d)
            &&& is_noted(s, next, d) ==> {
                ||| next.parent_requests.contains_key(d) && next.parent_requests[d].1 == now
                ||| next.header_requests.contains_key(d) && next.header_requests[d].1 == now
            }
            &&& !(e is Recovered) ==> (s.parent_requests.contains_key(d)
                ==> next.parent_requests.contains_key(d)) && (s.header_requests.contains_key(d)
                ==> next.header_requests.contains_key(d))
        }),
{
    let next = after_event(c, s, e, now);
    match e {
        WaiterEvent::Message(WaiterMessage::SyncBatches(missing, header, mode)) => {
            let waits: int = if s.pending.contains_key(header.id) {
                0
            } else {
                1
            };
            assert forall|i: int| 0 <= i < actions.len() implies !asks_for(
                #[trigger] actions[i],
                d,
            ) by {
                if i >= waits {
                    assert(actions.skip(waits)[i - waits] == actions[i]);
                }
            }
        },
        WaiterEvent::Message(WaiterMessage::SyncParent(missing, header)) => {
            if !s.pending.contains_key(header.id) && !s.parent_requests.contains_key(missing) {
                assert(seq![missing][0] == missing);
                assert(asks_for(actions[1], missing));
                if is_asked_for(actions, d) {
                    let j = choose|j: int|
                        0 <= j < actions.len() && asks_for(#[trigger] actions[j], d);
                    assert(j == 1);
                }
            }
        },
        WaiterEvent::Message(WaiterMessage::SyncHeader(missing)) => {
            if !s.header_requests.contains_key(missing) {
                assert(seq![missing][0] == missing);
                assert(asks_for(actions[0], missing));
            }
        },
        WaiterEvent::Message(
            WaiterMessage::SyncCommittedProposal(proposal, stop_height, slot),
        ) => {
            assert forall|i: int| 0 <= i < actions.len() implies !asks_for(
                #[trigger] actions[i],
                d,
            ) by {
                let queue = s.commit_syncs.push(
                    PendingCommitSync { slot, digest: proposal@.header_digest },
                );
                let grown = after_sync_committed(c, s, proposal@, stop_height, slot, now).0;
                lemma_dispatched(c, stable_sort(queue, commit_slot()), grown.suffix_syncs, i);
            }
        },
        WaiterEvent::Timer => {
            let sent = after_dispatch(c, s).0;
            let first = after_dispatch(c, s).1;
            let second = after_drain(c, sent, now).1;
            assert forall|i: int| 0 <= i < first.len() implies !asks_for(#[trigger] first[i], d) by {
                lemma_dispatched(
                    c,
                    stable_sort(s.commit_syncs, commit_slot()),
                    s.suffix_syncs,
                    i,
                );
            }
            lemma_asked_concat(first, second, d);
            lemma_syncs_are_noted(
                c,
                WaiterState { proposal_syncs: Seq::empty(), ..sent },
                stable_sort(sent.proposal_syncs, proposal_slot()),
                now,
                d,
            );
        },
        WaiterEvent::Retry => {
            every_overdue_request_is_repeated(c, s, now, d, 0, 0);
        },
        _ => {},
    }
}

/// A request for the suffix of `r` to some of all the other primaries, as many as the settings say.
pub open spec fn repeats(c: WaiterConfig, r: SuffixSyncView, action: ActionView) -> bool {
    match action {
        ActionView::RequestSuffix { proposal, stop_height, requestor, addresses, nodes } => {
            &&& proposal == r.proposal
            &&& stop_height == r.stop_height
            &&& requestor == c.name
            &&& addresses == others(c)
            &&& nodes == c.sync_retry_nodes
        },
        _ => false,
    }
}

/// Every request that is longer ago than the retry delay is repeated, and no other: all overdue headers
/// are in one request, and every overdue suffix has one of its own. Exactly what is asked for again
/// counts as asked for now; all else stays as it was.
pub proof fn every_overdue_request_is_repeated(
    c: WaiterConfig,
    s: WaiterState,
    now: u128,
    d: Digest,
    i: int,
    j: int,
)
    requires
        s.parent_requests.dom().finite(),
        s.suffix_syncs.dom().finite(),
    ensures
        ({
            let actions = retries(c, s, now);
            let next = after_retry(c, s, now);
            let parent = s.parent_requests.contains_key(d) && s.parent_requests[d].1
                + c.sync_retry_delay < now;
            let suffix = s.suffix_syncs.contains_key(d) && s.suffix_syncs[d].timestamp
                + c.sync_retry_delay < now;
            &&& is_asked_for(actions, d) <==> parent
            &&& 0 <= i < actions.len() && 0 <= j < actions.len() && actions[i] is RequestHeaders
                && actions[j] is RequestHeaders ==> i == j
            &&& 0 <= i < actions.len() ==> match actions[i] {
                ActionView::RequestHeaders { digests, requestor, addresses, nodes } => {
                    &&& digests.len() > 0
                    &&& digests.no_duplicates()
                    &&& requestor == c.name
                    &&& addresses == others(c)
                    &&& nodes == c.sync_retry_nodes
                },
                ActionView::RequestSuffix { .. } => exists|x: Digest| #[trigger]
                    s.suffix_syncs.contains_key(x) && s.suffix_syncs[x].timestamp
                        + c.sync_retry_delay < now && repeats(c, s.suffix_syncs[x], actions[i]),
                _ => false,
            }
            &&& suffix ==> exists|n: int|
                0 <= n < actions.len() && repeats(c, s.suffix_syncs[d], #[trigger] actions[n])
            &&& actions.len() <= 1 + Set::new(
                |x: Digest|
                    s.suffix_syncs.contains_key(x) && s.suffix_syncs[x].timestamp
                        + c.sync_retry_delay < now,
            ).len()
            &&& next == (WaiterState {
                parent_requests: next.parent_requests,
                suffix_syncs: next.suffix_syncs,
                ..s
            })
            &&& next.parent_requests.contains_key(d) <==> s.parent_requests.contains_key(d)
            &&& s.parent_requests.contains_key(d) ==> next.parent_requests[d].0
                == s.parent_requests[d].0
            &&& parent ==> next.parent_requests[d].1 == now
            &&& s.parent_requests.contains_key(d) && !parent ==> next.parent_requests[d].1
                == s.parent_requests[d].1
            &&& next.suffix_syncs.contains_key(d) <==> s.suffix_syncs.contains_key(d)
            &&& s.suffix_syncs.contains_key(d) ==> next.suffix_syncs[d] == (SuffixSyncView {
                timestamp: next.suffix_syncs[d].timestamp,
                ..s.suffix_syncs[d]
            })
            &&& suffix ==> next.suffix_syncs[d].timestamp == now
            &&& s.suffix_syncs.contains_key(d) && !suffix ==> next.suffix_syncs[d].timestamp
                == s.suffix_syncs[d].timestamp
        }),
{
    let actions = retries(c, s, now);
    let dp = due_parents(c, s, now);
    let ds = due_suffixes(c, s, now);
    assert(dp.subset_of(s.parent_requests.dom()));
    assert(ds.subset_of(s.suffix_syncs.dom()));
    vstd::set_lib::lemma_len_subset(dp, s.parent_requests.dom());
    vstd::set_lib::lemma_len_subset(ds, s.suffix_syncs.dom());
    listing_exists(dp);
    listing_exists(ds);
    let parents = listing(dp);
    let suffixes = listing(ds);
    lemma_listing_len(suffixes, ds);
    lemma_distinct(parents, dp);
    assert(ds =~= Set::new(
        |x: Digest|
            s.suffix_syncs.contains_key(x) && s.suffix_syncs[x].timestamp + c.sync_retry_delay
                < now,
    ));
    let start: int = if parents.len() == 0 {
        0
    } else {
        1
    };
    assert(parents.contains(d) <==> dp.contains(d));
    assert(suffixes.contains(d) <==> ds.contains(d));
    if parents.contains(d) {
        assert(asks_for(actions[0], d));
    }
    if is_asked_for(actions, d) {
        let n = choose|n: int| 0 <= n < actions.len() && asks_for(#[trigger] actions[n], d);
        assert(n == 0 && start == 1);
        assert(parents.contains(d));
    }
    if suffixes.contains(d) {
        let n = choose|n: int| 0 <= n < suffixes.len() && suffixes[n] == d;
        assert(repeats(c, s.suffix_syncs[d], actions[start + n]));
    }
    if start <= i < actions.len() {
        let x = suffixes[i - start];
        assert(suffixes.contains(x));
        assert(ds.contains(x));
        assert(s.suffix_syncs.contains_key(x));
        assert(repeats(c, s.suffix_syncs[x], actions[i]));
    }
}

/// The elements of a listing are distinct.
proof fn lemma_distinct(list: Seq<Digest>, keys: Set<Digest>)
    requires
        is_listing(list, keys),
    ensures
        list.no_duplicates(),
{
    assert forall|i: int, j: int|
        0 <= i < list.len() && 0 <= j < list.len() && i != j implies list[i] != list[j] by {
        if i < j {
            assert(crate::key::Key::before(list[i], list[j]));
        } else {
            assert(crate::key::Key::before(list[j], list[i]));
        }
        <Digest as crate::key::Key>::before_is_irreflexive(list[i]);
    }
}

/// The other primaries are those of all members but us.
pub proof fn the_others_are_all_but_us(c: WaiterConfig, a: Address)
    ensures
        others(c).contains(a) <==> exists|n: int|
            0 <= n < c.committee.members().len() && (#[trigger] c.committee.members()[n]).0
                != c.name && c.committee.members()[n].1.primary.primary_to_primary == a,
{
    others_are_the_other_members(c.committee, c.name);
    let list = primaries_but(c.committee.members(), c.name);
    let members = c.committee.members();
    assert(others(c).len() == list.len());
    if others(c).contains(a) {
        let n = choose|n: int| 0 <= n < others(c).len() && others(c)[n] == a;
        assert(list.contains((list[n].0, list[n].1)));
        let k = choose|k: int|
            0 <= k < members.len() && (#[trigger] members[k]).0 == list[n].0 && members[k].1.primary
                == list[n].1;
        assert(members[k].1.primary.primary_to_primary == a);
    }
    if exists|n: int|
        0 <= n < members.len() && (#[trigger] members[n]).0 != c.name
            && members[n].1.primary.primary_to_primary == a {
        let n = choose|n: int|
            0 <= n < members.len() && (#[trigger] members[n]).0 != c.name
                && members[n].1.primary.primary_to_primary == a;
        assert(list.contains((members[n].0, members[n].1.primary)));
        let k = choose|k: int|
            0 <= k < list.len() && list[k] == (members[n].0, members[n].1.primary);
        assert(others(c)[k] == a);
    }
}

/// A request for a header asks for it unless that was done before, and changes nothing else.
pub proof fn a_missing_header_is_asked_for(
    c: WaiterConfig,
    s: WaiterState,
    missing: Digest,
    now: u128,
    d: Digest,
)
    ensures
        ({
            let (next, actions) = after_sync_header(c, s, missing, now);
            &&& next == (WaiterState { header_requests: next.header_requests, ..s })
            &&& next.header_requests.contains_key(d) <==> s.header_requests.contains_key(d) || d
                == missing
            &&& s.header_requests.contains_key(d) ==> next.header_requests[d]
                == s.header_requests[d]
            &&& s.header_requests.contains_key(missing) ==> actions.len() == 0
            &&& !s.header_requests.contains_key(missing) ==> {
                &&& next.header_requests[missing] == (0u64, now)
                &&& actions.len() == 1
                &&& is_first_request(c, actions[0])
                &&& asks_for(actions[0], d) <==> d == missing
            }
        }),
{
    assert(seq![missing][0] == missing);
}

/// A header that lacks its parent waits for it, and the parent is asked for unless that was done before.
/// A header that waits already changes nothing.
pub proof fn a_header_waits_for_its_parent(
    c: WaiterConfig,
    s: WaiterState,
    missing: Digest,
    header: Header,
    now: u128,
    d: Digest,
)
    ensures
        ({
            let (next, actions) = after_sync_parent(c, s, missing, header, now);
            &&& s.pending.contains_key(header.id) ==> next == s && actions.len() == 0
            &&& !s.pending.contains_key(header.id) ==> {
                &&& next == (WaiterState {
                    pending: s.pending.insert(header.id, header.height),
                    parent_requests: next.parent_requests,
                    ..s
                })
                &&& next.parent_requests.contains_key(d) <==> s.parent_requests.contains_key(d) || d
                    == missing
                &&& s.parent_requests.contains_key(d) ==> next.parent_requests[d]
                    == s.parent_requests[d]
                &&& actions.len() > 0
                &&& match actions[0] {
                    ActionView::AwaitHeader { id, keys, header: waiting } => {
                        &&& id == header.id
                        &&& waiting == header
                        &&& keys.len() == 1
                        &&& keys[0] == missing.0@
                    },
                    _ => false,
                }
                &&& s.parent_requests.contains_key(missing) ==> actions.len() == 1
                &&& !s.parent_requests.contains_key(missing) ==> {
                    &&& next.parent_requests[missing] == (header.height, now)
                    &&& actions.len() == 2
                    &&& is_first_request(c, actions[1])
                    &&& asks_for(actions[1], d) <==> d == missing
                }
            }
        }),
{
    assert(seq![missing][0] == missing);
}

/// The action tells our worker `w` to fetch the batch `d`.
pub open spec fn fetches_batch(action: ActionView, w: WorkerId, d: Digest) -> bool {
    match action {
        ActionView::RequestBatches { worker_id, digests, .. } => worker_id == w && digests.contains(
            d,
        ),
        _ => false,
    }
}

/// Some of `actions` tells our worker `w` to fetch the batch `d`.
pub open spec fn is_batch_fetched(actions: Seq<ActionView>, w: WorkerId, d: Digest) -> bool {
    exists|i: int| 0 <= i < actions.len() && fetches_batch(#[trigger] actions[i], w, d)
}

/// One of `missing` is the batch `d` of the worker `w`.
pub open spec fn lacks_batch(missing: Seq<(Digest, WorkerId)>, w: WorkerId, d: Digest) -> bool {
    exists|j: int| 0 <= j < missing.len() && #[trigger] missing[j] == (d, w)
}

proof fn lemma_fresh_of_worker(
    missing: Seq<(Digest, WorkerId)>,
    requests: Map<Digest, (Height, bool)>,
    w: WorkerId,
    d: Digest,
)
    ensures
        fresh_of_worker(missing, requests, w).contains(d) <==> lacks_batch(missing, w, d) && !(
        requests.contains_key(d) && requests[d].1),
    decreases missing.len(),
{
    if missing.len() > 0 {
        let front = missing.drop_last();
        let last = missing.last();
        lemma_fresh_of_worker(front, requests, w, d);
        assert(missing[missing.len() - 1] == last);
        if lacks_batch(front, w, d) {
            let j = choose|j: int| 0 <= j < front.len() && #[trigger] front[j] == (d, w);
            assert(missing[j] == front[j]);
        }
        if lacks_batch(missing, w, d) && last != (d, w) {
            let j = choose|j: int| 0 <= j < missing.len() && #[trigger] missing[j] == (d, w);
            assert(front[j] == missing[j]);
        }
        let before = fresh_of_worker(front, requests, w);
        let after = fresh_of_worker(missing, requests, w);
        if after.len() > before.len() {
            assert(after == before.push(last.0));
            assert(after[before.len() as int] == last.0);
            if before.contains(d) {
                let j = choose|j: int| 0 <= j < before.len() && before[j] == d;
                assert(after[j] == d);
            }
            if after.contains(d) && d != last.0 {
                let j = choose|j: int| 0 <= j < after.len() && after[j] == d;
                assert(before[j] == d);
            }
        }
    }
}

/// Where the batches of a header are to be fetched, every missing batch that was not requested yet is
/// requested from the worker of ours that is to hold it, and no other; each worker is told once, for
/// the author and the height of the header. Where they are only to be waited for, nothing is requested.
/// The header waits for all missing batches, unless it waits already.
pub proof fn missing_batches_are_fetched(
    c: WaiterConfig,
    s: WaiterState,
    missing: Seq<(Digest, WorkerId)>,
    header: Header,
    mode: PayloadSyncMode,
    actions: Seq<ActionView>,
    w: WorkerId,
    d: Digest,
    i: int,
    j: int,
)
    requires
        answers_sync_batches(c, s, missing, header, mode, actions),
    ensures
        ({
            let fetches = mode == PayloadSyncMode::Live(true) || mode
                == PayloadSyncMode::Historical;
            &&& is_batch_fetched(actions, w, d) <==> fetches && lacks_batch(missing, w, d) && !(
            s.batch_requests.contains_key(d) && s.batch_requests[d].1)
            &&& 0 <= i < actions.len() ==> match actions[i] {
                ActionView::RequestBatches { worker_id, address, digests, author, height } => {
                    &&& digests.len() > 0
                    &&& author == header.author
                    &&& height == header.height
                    &&& c.committee.authorities@.contains_key(c.name)
                        && c.committee.authorities@[c.name].workers@.contains_key(worker_id)
                        ==> address
                        == c.committee.authorities@[c.name].workers@[worker_id].primary_to_worker
                },
                ActionView::AwaitHeader { id, keys, header: waiting } => {
                    &&& i == 0
                    &&& !s.pending.contains_key(header.id)
                    &&& id == header.id
                    &&& waiting == header
                    &&& keys.len() == missing.len()
                    &&& 0 <= j < keys.len() ==> keys[j] == missing[j].0.0@
                        + vstd::bytes::spec_u32_to_le_bytes(missing[j].1)
                },
                _ => false,
            }
            &&& !s.pending.contains_key(header.id) ==> actions.len() > 0 && actions[0]
                is AwaitHeader
            &&& 0 <= i < actions.len() && 0 <= j < actions.len() && actions[i] is RequestBatches
                && actions[j] is RequestBatches && actions[i]->RequestBatches_worker_id
                == actions[j]->RequestBatches_worker_id ==> i == j
        }),
{
    let waits: int = if s.pending.contains_key(header.id) {
        0
    } else {
        1
    };
    let requests = actions.skip(waits);
    lemma_fresh_of_worker(missing, s.batch_requests, w, d);
    let fresh = fresh_of_worker(missing, s.batch_requests, w);
    if mode.forces_sync() {
        if fresh.contains(d) {
            assert(fresh.len() > 0);
            let n = choose|n: int|
                0 <= n < requests.len() && (#[trigger] requests[n])->RequestBatches_worker_id == w;
            assert(requests[n] == actions[n + waits]);
            assert(fetches_batch(actions[n + waits], w, d));
        }
        if is_batch_fetched(actions, w, d) {
            let n = choose|n: int|
                0 <= n < actions.len() && fetches_batch(#[trigger] actions[n], w, d);
            assert(requests[n - waits] == actions[n]);
        }
        if waits <= i < actions.len() {
            assert(requests[i - waits] == actions[i]);
        }
        if waits <= j < actions.len() {
            assert(requests[j - waits] == actions[j]);
        }
    }
}

/// A request for the payload of a header notes exactly the missing batches as requested, if they are to
/// be fetched, and makes the header wait. Nothing else changes but whether the header goes back.
pub proof fn a_payload_request_notes_its_batches(
    s: WaiterState,
    missing: Set<Digest>,
    header: Header,
    mode: PayloadSyncMode,
    d: Digest,
)
    ensures
        ({
            let next = after_sync_batches(s, missing, header, mode);
            let fetches = mode == PayloadSyncMode::Live(true) || mode
                == PayloadSyncMode::Historical;
            &&& next == (WaiterState {
                pending: next.pending,
                historical: next.historical,
                batch_requests: next.batch_requests,
                ..s
            })
            &&& next.batch_requests.contains_key(d) <==> s.batch_requests.contains_key(d) || (fetches
                && missing.contains(d))
            &&& fetches && missing.contains(d) ==> next.batch_requests[d] == (header.height, true)
            &&& s.batch_requests.contains_key(d) && !(fetches && missing.contains(d))
                ==> next.batch_requests[d] == s.batch_requests[d]
            &&& next.pending.contains_key(d) <==> s.pending.contains_key(d) || d == header.id
            &&& s.pending.contains_key(d) ==> next.pending[d] == s.pending[d]
            &&& !s.pending.contains_key(header.id) ==> next.pending[header.id] == header.height
            &&& d != header.id ==> (next.historical.contains(d) <==> s.historical.contains(d))
            &&& next.historical.contains(header.id) <==> mode == PayloadSyncMode::Historical && (
            s.pending.contains_key(header.id) ==> s.historical.contains(header.id))
        }),
{
}

/// A request for what a message proposes is queued as it is, behind the others, unless the message
/// waits already. Nothing is asked for yet.
pub proof fn a_proposal_sync_is_queued(
    c: WaiterConfig,
    s: WaiterState,
    missing: Vec<Proposal>,
    message: ConsensusMessage,
    header: Header,
    now: u128,
    actions: Seq<ActionView>,
)
    ensures
        ({
            let e = WaiterEvent::Message(WaiterMessage::SyncProposals(missing, message, header));
            let next = after_event(c, s, e, now);
            &&& s.pending.contains_key(proposed_by(message)) ==> next == s
            &&& !s.pending.contains_key(proposed_by(message)) ==> {
                &&& next == (WaiterState { proposal_syncs: next.proposal_syncs, ..s })
                &&& next.proposal_syncs.len() == s.proposal_syncs.len() + 1
                &&& next.proposal_syncs.drop_last() == s.proposal_syncs
                &&& next.proposal_syncs.last().missing == missing
                &&& next.proposal_syncs.last().consensus_message == message
                &&& next.proposal_syncs.last().header == header
                &&& next.proposal_syncs.last().slot == (match message {
                    ConsensusMessage::Prepare(i) => i.slot,
                    ConsensusMessage::Confirm(i) => i.slot,
                    ConsensusMessage::Commit(i) => i.slot,
                })
            }
            &&& answers(c, s, e, now, actions) <==> actions.len() == 0
        }),
{
    let e = WaiterEvent::Message(WaiterMessage::SyncProposals(missing, message, header));
    let next = after_event(c, s, e, now);
    if !s.pending.contains_key(proposed_by(message)) {
        assert(next.proposal_syncs.drop_last() =~= s.proposal_syncs);
    }
    if actions.len() == 0 {
        assert(actions =~= Seq::<ActionView>::empty());
    }
}

/// Carrying out syncs in two parts, one behind the other, is carrying them out in one go; carrying out
/// none changes nothing.
pub proof fn proposal_syncs_add_up(
    c: WaiterConfig,
    s: WaiterState,
    a: Seq<PendingProposalSync>,
    b: Seq<PendingProposalSync>,
    p: PendingProposalSync,
    now: u128,
)
    ensures
        after_proposal_syncs(c, s, Seq::empty(), now) == (s, Seq::<ActionView>::empty()),
        after_proposal_syncs(c, s, seq![p], now) == after_proposal_sync(c, s, p, now),
        ({
            let (mid, first) = after_proposal_syncs(c, s, a, now);
            let (end, second) = after_proposal_syncs(c, mid, b, now);
            after_proposal_syncs(c, s, a + b, now) == (end, first + second)
        }),
    decreases b.len(),
{
    reveal_with_fuel(after_proposal_syncs, 2);
    assert(seq![p].drop_last() =~= Seq::<PendingProposalSync>::empty());
    let (alone, actions) = after_proposal_sync(c, s, p, now);
    assert(Seq::<ActionView>::empty() + actions =~= actions);
    let (mid, first) = after_proposal_syncs(c, s, a, now);
    if b.len() == 0 {
        assert(a + b =~= a);
        assert(first + Seq::<ActionView>::empty() =~= first);
    } else {
        proposal_syncs_add_up(c, s, a, b.drop_last(), p, now);
        assert((a + b).drop_last() =~= a + b.drop_last());
        assert((a + b).last() == b.last());
        let (before, second) = after_proposal_syncs(c, mid, b.drop_last(), now);
        let more = after_proposal_sync(c, before, b.last(), now).1;
        assert((first + second) + more =~= first + (second + more));
    }
}

/// The action makes the message wait that proposes `id`.
pub open spec fn awaits_proposals(action: ActionView, id: Digest) -> bool {
    match action {
        ActionView::AwaitProposals { id: waiting, .. } => waiting == id,
        _ => false,
    }
}

/// The action makes the message of `p` wait for all headers that `p` lacks.
pub open spec fn awaits_all_of(action: ActionView, p: PendingProposalSync) -> bool {
    match action {
        ActionView::AwaitProposals { id, keys, message, header } => {
            &&& id == proposed_by(p.consensus_message)
            &&& message == p.consensus_message
            &&& header == p.header
            &&& keys.len() == p.missing@.len()
            &&& forall|i: int|
                0 <= i < keys.len() ==> #[trigger] keys[i] == p.missing@[i].header_digest.0@
        },
        _ => false,
    }
}

/// Some sync of `syncs` is about the message that proposes `id`.
pub open spec fn is_about(syncs: Seq<PendingProposalSync>, id: Digest) -> bool {
    exists|i: int|
        0 <= i < syncs.len() && proposed_by((#[trigger] syncs[i]).consensus_message) == id
}

/// `actions[n]` makes the message of `syncs[i]` wait, which is the first one about it, and all headers
/// that it lacks are being fetched in the state `next`.
pub open spec fn is_carried_out(
    syncs: Seq<PendingProposalSync>,
    i: int,
    actions: Seq<ActionView>,
    n: int,
    next: WaiterState,
) -> bool {
    &&& 0 <= i < syncs.len()
    &&& 0 <= n < actions.len()
    &&& awaits_all_of(actions[n], syncs[i])
    &&& forall|j: int|
        0 <= j < i ==> proposed_by((#[trigger] syncs[j]).consensus_message) != proposed_by(
            syncs[i].consensus_message,
        )
    &&& forall|j: int|
        0 <= j < syncs[i].missing@.len() ==> next.inflight.contains(
            (#[trigger] syncs[i].missing@[j]).header_digest,
        )
    &&& next.pending.contains_key(proposed_by(syncs[i].consensus_message))
        && next.pending[proposed_by(syncs[i].consensus_message)] == syncs[i].header.height
}

proof fn lemma_syncs_are_carried_out(
    c: WaiterConfig,
    s: WaiterState,
    syncs: Seq<PendingProposalSync>,
    now: u128,
    id: Digest,
    d: Digest,
)
    ensures
        ({
            let (next, actions) = after_proposal_syncs(c, s, syncs, now);
            &&& next == (WaiterState {
                pending: next.pending,
                inflight: next.inflight,
                parent_requests: next.parent_requests,
                ..s
            })
            &&& next.pending.contains_key(id) <==> s.pending.contains_key(id) || is_about(syncs, id)
            &&& s.pending.contains_key(id) ==> next.pending[id] == s.pending[id]
            &&& s.inflight.contains(d) ==> next.inflight.contains(d)
            &&& next.inflight.contains(d) && !s.inflight.contains(d)
                ==> next.parent_requests.contains_key(d)
            &&& !s.pending.contains_key(id) && is_about(syncs, id) ==> exists|i: int, n: int|
                #[trigger] is_carried_out(syncs, i, actions, n, next) && proposed_by(
                    syncs[i].consensus_message,
                ) == id
            &&& forall|m: int, n: int|
                0 <= m < actions.len() && 0 <= n < actions.len() && awaits_proposals(
                    #[trigger] actions[m],
                    id,
                ) && awaits_proposals(#[trigger] actions[n], id) ==> m == n
            &&& (exists|n: int| 0 <= n < actions.len() && awaits_proposals(#[trigger] actions[n], id))
                ==> !s.pending.contains_key(id) && is_about(syncs, id)
        }),
    decreases syncs.len(),
{
    let (next, actions) = after_proposal_syncs(c, s, syncs, now);
    if syncs.len() > 0 {
        let front = syncs.drop_last();
        let p = syncs.last();
        let pid = proposed_by(p.consensus_message);
        lemma_syncs_are_carried_out(c, s, front, now, id, d);
        lemma_syncs_are_carried_out(c, s, front, now, pid, d);
        let (mid, before) = after_proposal_syncs(c, s, front, now);
        let more = after_proposal_sync(c, mid, p, now).1;
        a_proposal_sync_awaits_all_and_asks_for_what_is_new(c, mid, p, now, d, 0);
        assert(syncs[syncs.len() - 1] == p);
        if is_about(front, id) {
            let i = choose|i: int|
                0 <= i < front.len() && proposed_by((#[trigger] front[i]).consensus_message) == id;
            assert(syncs[i] == front[i]);
        }
        if is_about(syncs, id) && pid != id {
            let i = choose|i: int|
                0 <= i < syncs.len() && proposed_by((#[trigger] syncs[i]).consensus_message) == id;
            assert(front[i] == syncs[i]);
        }
        if !s.pending.contains_key(id) && is_about(front, id) {
            let (i, n) = choose|i: int, n: int| #[trigger]
                is_carried_out(front, i, before, n, mid) && proposed_by(front[i].consensus_message)
                    == id;
            assert(actions[n] == before[n]);
            assert(syncs[i] == front[i]);
            assert forall|j: int| 0 <= j < i implies proposed_by(
                (#[trigger] syncs[j]).consensus_message,
            ) != proposed_by(syncs[i].consensus_message) by {
                assert(front[j] == syncs[j]);
            }
            assert forall|j: int| 0 <= j < syncs[i].missing@.len() implies next.inflight.contains(
                (#[trigger] syncs[i].missing@[j]).header_digest,
            ) by {
                let x = front[i].missing@[j].header_digest;
                assert(mid.inflight.contains(x));
                a_proposal_sync_awaits_all_and_asks_for_what_is_new(c, mid, p, now, x, 0);
            }
            assert(is_carried_out(syncs, i, actions, n, next));
        }
        if !s.pending.contains_key(id) && !is_about(front, id) && pid == id {
            let n = before.len() as int;
            let i = syncs.len() - 1;
            assert(actions[n] == more[0]);
            assert(awaits_all_of(actions[n], p)) by {
                if let ActionView::AwaitProposals { id: waiting, keys, message, header } = more[0] {
                    assert forall|k: int| 0 <= k < keys.len() implies #[trigger] keys[k]
                        == p.missing@[k].header_digest.0@ by {
                        a_proposal_sync_awaits_all_and_asks_for_what_is_new(c, mid, p, now, d, k);
                    }
                }
            }
            assert forall|j: int| 0 <= j < i implies proposed_by(
                (#[trigger] syncs[j]).consensus_message,
            ) != proposed_by(syncs[i].consensus_message) by {
                assert(front[j] == syncs[j]);
            }
            assert forall|j: int| 0 <= j < syncs[i].missing@.len() implies next.inflight.contains(
                (#[trigger] syncs[i].missing@[j]).header_digest,
            ) by {
                let x = p.missing@[j].header_digest;
                assert(is_missing(p.missing@, x));
                a_proposal_sync_awaits_all_and_asks_for_what_is_new(c, mid, p, now, x, 0);
            }
            assert(is_carried_out(syncs, i, actions, n, next));
        }
        assert forall|m: int, n: int|
            0 <= m < actions.len() && 0 <= n < actions.len() && awaits_proposals(
                #[trigger] actions[m],
                id,
            ) && awaits_proposals(#[trigger] actions[n], id) implies m == n by {
            lemma_which_part(before, more, actions, m);
            lemma_which_part(before, more, actions, n);
        }
        if exists|n: int| 0 <= n < actions.len() && awaits_proposals(#[trigger] actions[n], id) {
            let n = choose|n: int|
                0 <= n < actions.len() && awaits_proposals(#[trigger] actions[n], id);
            lemma_which_part(before, more, actions, n);
        }
    }
}

proof fn lemma_which_part(
    a: Seq<ActionView>,
    b: Seq<ActionView>,
    all: Seq<ActionView>,
    n: int,
)
    requires
        all == a + b,
        0 <= n < all.len(),
    ensures
        n < a.len() ==> all[n] == a[n],
        n >= a.len() ==> all[n] == b[n - a.len()] && 0 <= n - a.len() < b.len(),
{
}

/// When the queue of proposal syncs is carried out, every message in it waits afterwards: one that did
/// not wait before is awaited exactly once, for all headers that it lacks, and all of these are being
/// fetched; what is being fetched only now is among the requests. Of several syncs about one message,
/// one with the lowest slot counts. Nothing else starts to wait, and the queue is empty.
pub proof fn every_queued_sync_is_carried_out(
    c: WaiterConfig,
    s: WaiterState,
    now: u128,
    id: Digest,
    d: Digest,
)
    ensures
        ({
            let (next, actions) = after_drain(c, s, now);
            &&& next == (WaiterState {
                pending: next.pending,
                inflight: next.inflight,
                parent_requests: next.parent_requests,
                proposal_syncs: Seq::empty(),
                ..s
            })
            &&& next.pending.contains_key(id) <==> s.pending.contains_key(id) || is_about(
                s.proposal_syncs,
                id,
            )
            &&& s.pending.contains_key(id) ==> next.pending[id] == s.pending[id]
            &&& s.inflight.contains(d) ==> next.inflight.contains(d)
            &&& next.inflight.contains(d) && !s.inflight.contains(d)
                ==> next.parent_requests.contains_key(d)
            &&& !s.pending.contains_key(id) && is_about(s.proposal_syncs, id) ==> exists|
                i: int,
                n: int,
            | #[trigger]
                is_awaited(s.proposal_syncs, i, actions, n, next) && proposed_by(
                    s.proposal_syncs[i].consensus_message,
                ) == id
            &&& forall|m: int, n: int|
                0 <= m < actions.len() && 0 <= n < actions.len() && awaits_proposals(
                    #[trigger] actions[m],
                    id,
                ) && awaits_proposals(#[trigger] actions[n], id) ==> m == n
            &&& (exists|n: int| 0 <= n < actions.len() && awaits_proposals(#[trigger] actions[n], id))
                ==> !s.pending.contains_key(id) && is_about(s.proposal_syncs, id)
        }),
{
    let queue = s.proposal_syncs;
    stable_sort_exists(queue, proposal_slot());
    let sorted = stable_sort(queue, proposal_slot());
    lemma_stably_sorted(queue, sorted, proposal_slot());
    let (next, actions) = after_drain(c, s, now);
    let empty = WaiterState { proposal_syncs: Seq::empty(), ..s };
    lemma_syncs_are_carried_out(c, empty, sorted, now, id, d);
    if is_about(queue, id) {
        let i = choose|i: int|
            0 <= i < queue.len() && proposed_by((#[trigger] queue[i]).consensus_message) == id;
        assert(queue.contains(queue[i]));
        assert(sorted.contains(queue[i]));
        let j = choose|j: int| 0 <= j < sorted.len() && sorted[j] == queue[i];
        assert(proposed_by(sorted[j].consensus_message) == id);
    }
    if is_about(sorted, id) {
        let i = choose|i: int|
            0 <= i < sorted.len() && proposed_by((#[trigger] sorted[i]).consensus_message) == id;
        assert(sorted.contains(sorted[i]));
        assert(queue.contains(sorted[i]));
        let j = choose|j: int| 0 <= j < queue.len() && queue[j] == sorted[i];
        assert(proposed_by(queue[j].consensus_message) == id);
    }
    if !s.pending.contains_key(id) && is_about(sorted, id) {
        let (i, n) = choose|i: int, n: int| #[trigger]
            is_carried_out(sorted, i, actions, n, next) && proposed_by(sorted[i].consensus_message)
                == id;
        assert(sorted.contains(sorted[i]));
        assert(queue.contains(sorted[i]));
        let k = choose|k: int| 0 <= k < queue.len() && queue[k] == sorted[i];
        assert forall|j: int|
            0 <= j < queue.len() && proposed_by((#[trigger] queue[j]).consensus_message)
                == proposed_by(queue[k].consensus_message) implies queue[k].slot
            <= queue[j].slot by {
            assert(queue.contains(queue[j]));
            assert(sorted.contains(queue[j]));
            let m = choose|m: int| 0 <= m < sorted.len() && sorted[m] == queue[j];
            if m > i {
                assert(proposal_slot()(sorted[i]) <= proposal_slot()(sorted[m]));
            } else if m < i {
                assert(proposed_by(sorted[m].consensus_message) != proposed_by(
                    sorted[i].consensus_message,
                ));
            }
        }
        assert forall|j: int| 0 <= j < queue[k].missing@.len() implies next.inflight.contains(
            (#[trigger] queue[k].missing@[j]).header_digest,
        ) by {
            assert(next.inflight.contains(sorted[i].missing@[j].header_digest));
        }
        assert(is_awaited(queue, k, actions, n, next));
    }
}

/// `actions[n]` makes the message of `queue[i]` wait for all headers that it lacks, which are being
/// fetched in the state `next`. No other sync about that message has a lower slot.
pub open spec fn is_awaited(
    queue: Seq<PendingProposalSync>,
    i: int,
    actions: Seq<ActionView>,
    n: int,
    next: WaiterState,
) -> bool {
    &&& 0 <= i < queue.len()
    &&& 0 <= n < actions.len()
    &&& awaits_all_of(actions[n], queue[i])
    &&& forall|j: int|
        0 <= j < queue.len() && proposed_by((#[trigger] queue[j]).consensus_message) == proposed_by(
            queue[i].consensus_message,
        ) ==> queue[i].slot <= queue[j].slot
    &&& forall|j: int|
        0 <= j < queue[i].missing@.len() ==> next.inflight.contains(
            (#[trigger] queue[i].missing@[j]).header_digest,
        )
    &&& next.pending.contains_key(proposed_by(queue[i].consensus_message))
        && next.pending[proposed_by(queue[i].consensus_message)] == queue[i].header.height
}

/// The action is a first request for the suffix of `r`: to all other members that certified its tip,
/// or, where there is none, to three of the other primaries.
pub open spec fn asks_for_suffix(c: WaiterConfig, r: SuffixSyncView, action: ActionView) -> bool {
    let known = certifiers(c, r.proposal.certificate.votes);
    match action {
        ActionView::RequestSuffix { proposal, stop_height, requestor, addresses, nodes } => {
            &&& proposal == r.proposal
            &&& stop_height == r.stop_height
            &&& requestor == c.name
            &&& known.len() > 0 ==> addresses == known && nodes == known.len()
            &&& known.len() == 0 ==> addresses == others(c) && nodes == 3
        },
        _ => false,
    }
}

/// Those that certified a tip are found one by one: a vote counts exactly if it is of another member.
pub proof fn every_other_member_that_voted_is_a_certifier(
    c: WaiterConfig,
    a: Seq<PublicKey>,
    b: Seq<PublicKey>,
    pk: PublicKey,
)
    ensures
        certifiers(c, Seq::empty()).len() == 0,
        certifiers(c, seq![pk]) == (if pk != c.name && c.committee.authorities@.contains_key(pk) {
            seq![c.committee.authorities@[pk].primary.primary_to_primary]
        } else {
            Seq::<Address>::empty()
        }),
        certifiers(c, a + b) == certifiers(c, a) + certifiers(c, b),
    decreases b.len(),
{
    reveal_with_fuel(certifiers, 2);
    assert(seq![pk].drop_last() =~= Seq::<PublicKey>::empty());
    assert(certifiers(c, seq![pk]) =~= (if pk != c.name && c.committee.authorities@.contains_key(
        pk,
    ) {
        seq![c.committee.authorities@[pk].primary.primary_to_primary]
    } else {
        Seq::<Address>::empty()
    }));
    if b.len() == 0 {
        assert(a + b =~= a);
        assert(certifiers(c, a) + certifiers(c, b) =~= certifiers(c, a));
    } else {
        every_other_member_that_voted_is_a_certifier(c, a, b.drop_last(), pk);
        assert((a + b).drop_last() =~= a + b.drop_last());
        assert((a + b).last() == b.last());
        assert(certifiers(c, a + b) =~= certifiers(c, a) + certifiers(c, b));
    }
}

proof fn lemma_dispatch_is_complete(
    c: WaiterConfig,
    syncs: Seq<PendingCommitSync>,
    suffix_syncs: Map<Digest, SuffixSyncView>,
    i: int,
)
    ensures
        ({
            let actions = dispatched(c, syncs, suffix_syncs);
            &&& actions.len() <= syncs.len()
            &&& 0 <= i < syncs.len() && suffix_syncs.contains_key(syncs[i].digest) ==> exists|
                n: int,
            |
                0 <= n < actions.len() && asks_for_suffix(
                    c,
                    suffix_syncs[syncs[i].digest],
                    #[trigger] actions[n],
                )
            &&& 0 <= i < actions.len() ==> exists|j: int|
                0 <= j < syncs.len() && suffix_syncs.contains_key((#[trigger] syncs[j]).digest)
                    && asks_for_suffix(c, suffix_syncs[syncs[j].digest], actions[i])
        }),
    decreases syncs.len(),
{
    if syncs.len() > 0 {
        let front = syncs.drop_last();
        let d = syncs.last().digest;
        assert(syncs[syncs.len() - 1] == syncs.last());
        let before = dispatched(c, front, suffix_syncs);
        let actions = dispatched(c, syncs, suffix_syncs);
        lemma_dispatch_is_complete(c, front, suffix_syncs, i);
        if 0 <= i < front.len() {
            assert(front[i] == syncs[i]);
            if suffix_syncs.contains_key(syncs[i].digest) {
                let n = choose|n: int|
                    0 <= n < before.len() && asks_for_suffix(
                        c,
                        suffix_syncs[front[i].digest],
                        #[trigger] before[n],
                    );
                assert(actions[n] == before[n]);
            }
        } else if i == front.len() && suffix_syncs.contains_key(d) {
            if mentions(front, d) {
                let j = choose|j: int| 0 <= j < front.len() && (#[trigger] front[j]).digest == d;
                lemma_dispatch_is_complete(c, front, suffix_syncs, j);
                let n = choose|n: int|
                    0 <= n < before.len() && asks_for_suffix(
                        c,
                        suffix_syncs[front[j].digest],
                        #[trigger] before[n],
                    );
                assert(actions[n] == before[n]);
            } else {
                assert(actions == before.push(suffix_request(c, suffix_syncs[d])));
                assert(asks_for_suffix(c, suffix_syncs[d], actions[before.len() as int]));
            }
        }
        if 0 <= i < before.len() {
            let j = choose|j: int|
                0 <= j < front.len() && suffix_syncs.contains_key((#[trigger] front[j]).digest)
                    && asks_for_suffix(c, suffix_syncs[front[j].digest], before[i]);
            assert(syncs[j] == front[j]);
            assert(actions[i] == before[i]);
        } else if i == before.len() && i < actions.len() {
            assert(asks_for_suffix(c, suffix_syncs[syncs[syncs.len() - 1].digest], actions[i]));
        }
    }
}

/// Every commit-time sync that is to be sent out and is still wanted is asked for, and nothing else is.
/// Afterwards none is left to be sent out, and nothing else has changed.
pub proof fn every_wanted_suffix_is_asked_for(
    c: WaiterConfig,
    s: WaiterState,
    i: int,
)
    ensures
        ({
            let (next, actions) = after_dispatch(c, s);
            &&& next == (WaiterState { commit_syncs: Seq::empty(), ..s })
            &&& actions.len() <= s.commit_syncs.len()
            &&& 0 <= i < s.commit_syncs.len() && s.suffix_syncs.contains_key(
                s.commit_syncs[i].digest,
            ) ==> exists|n: int|
                0 <= n < actions.len() && asks_for_suffix(
                    c,
                    s.suffix_syncs[s.commit_syncs[i].digest],
                    #[trigger] actions[n],
                )
            &&& 0 <= i < actions.len() ==> exists|j: int|
                0 <= j < s.commit_syncs.len() && s.suffix_syncs.contains_key(
                    (#[trigger] s.commit_syncs[j]).digest,
                ) && asks_for_suffix(c, s.suffix_syncs[s.commit_syncs[j].digest], actions[i])
        }),
{
    let queue = s.commit_syncs;
    stable_sort_exists(queue, commit_slot());
    let sorted = stable_sort(queue, commit_slot());
    lemma_stably_sorted(queue, sorted, commit_slot());
    let (next, actions) = after_dispatch(c, s);
    lemma_dispatch_is_complete(c, sorted, s.suffix_syncs, i);
    if 0 <= i < queue.len() && s.suffix_syncs.contains_key(queue[i].digest) {
        assert(queue.contains(queue[i]));
        assert(sorted.contains(queue[i]));
        let j = choose|j: int| 0 <= j < sorted.len() && sorted[j] == queue[i];
        lemma_dispatch_is_complete(c, sorted, s.suffix_syncs, j);
    }
    if 0 <= i < actions.len() {
        let j = choose|j: int|
            0 <= j < sorted.len() && s.suffix_syncs.contains_key((#[trigger] sorted[j]).digest)
                && asks_for_suffix(c, s.suffix_syncs[sorted[j].digest], actions[i]);
        assert(sorted.contains(sorted[j]));
        assert(queue.contains(sorted[j]));
        let k = choose|k: int| 0 <= k < queue.len() && queue[k] == sorted[j];
        assert(s.suffix_syncs.contains_key(queue[k].digest));
    }
}

/// A request for the suffix of a committed proposal is kept with the lowest slot and the lowest height
/// that it was ever asked for with, and is sent out once exactly if it asks for more than before. Other
/// proposals are not touched.
pub proof fn a_committed_proposal_is_asked_for_when_it_widens(
    c: WaiterConfig,
    s: WaiterState,
    proposal: ProposalView,
    stop_height: Height,
    slot: Slot,
    now: u128,
    d: Digest,
)
    requires
        s.commit_syncs.len() == 0,
    ensures
        ({
            let x = proposal.header_digest;
            let (next, actions) = after_sync_committed(c, s, proposal, stop_height, slot, now);
            let known = s.suffix_syncs.contains_key(x);
            let r = s.suffix_syncs[x];
            let q = next.suffix_syncs[x];
            &&& next == (WaiterState { suffix_syncs: next.suffix_syncs, ..s })
            &&& next.suffix_syncs.contains_key(d) <==> s.suffix_syncs.contains_key(d) || d == x
            &&& d != x && s.suffix_syncs.contains_key(d) ==> next.suffix_syncs[d]
                == s.suffix_syncs[d]
            &&& !known ==> q.proposal == proposal && q.stop_height == stop_height && q.slot == slot
                && q.timestamp == now
            &&& known ==> {
                &&& q.proposal == r.proposal
                &&& q.timestamp == r.timestamp
                &&& q.slot <= slot && q.slot <= r.slot && (q.slot == slot || q.slot == r.slot)
                &&& q.stop_height <= stop_height && q.stop_height <= r.stop_height
                &&& q.stop_height == stop_height || q.stop_height == r.stop_height
            }
            &&& known && r.slot <= slot && r.stop_height <= stop_height ==> actions.len() == 0
            &&& !known || slot < r.slot || stop_height < r.stop_height ==> actions.len() == 1
                && asks_for_suffix(c, q, actions[0])
        }),
{
    let x = proposal.header_digest;
    let queue = s.commit_syncs.push(PendingCommitSync { slot, digest: x });
    let (next, actions) = after_sync_committed(c, s, proposal, stop_height, slot, now);
    if !s.suffix_syncs.contains_key(x) || slot < s.suffix_syncs[x].slot || stop_height
        < s.suffix_syncs[x].stop_height {
        let grown = WaiterState {
            suffix_syncs: next.suffix_syncs,
            commit_syncs: queue,
            ..s
        };
        assert(after_dispatch(c, grown).1 == actions);
        every_wanted_suffix_is_asked_for(c, grown, 0);
        assert(queue[0].digest == x);
    }
    assert(next.commit_syncs =~= s.commit_syncs);
}

/// Once a header has all that it waited for, exactly what was kept for it is forgotten, and it goes back
/// to the core unless it is historical. All else is left as it was.
pub proof fn a_recovery_forgets_nothing_else(
    c: WaiterConfig,
    s: WaiterState,
    header: Header,
    now: u128,
    actions: Seq<ActionView>,
    d: Digest,
)
    ensures
        ({
            let e = WaiterEvent::Recovered(header);
            let next = after_event(c, s, e, now);
            &&& next == (WaiterState {
                pending: next.pending,
                batch_requests: next.batch_requests,
                parent_requests: next.parent_requests,
                historical: next.historical,
                ..s
            })
            &&& next.pending.contains_key(d) <==> s.pending.contains_key(d) && d != header.id
            &&& next.pending.contains_key(d) ==> next.pending[d] == s.pending[d]
            &&& next.historical.contains(d) <==> s.historical.contains(d) && d != header.id
            &&& next.parent_requests.contains_key(d) <==> s.parent_requests.contains_key(d) && d
                != header.parent_cert.header_digest
            &&& next.parent_requests.contains_key(d) ==> next.parent_requests[d]
                == s.parent_requests[d]
            &&& next.batch_requests.contains_key(d) <==> s.batch_requests.contains_key(d) && !(
            exists|i: int|
                0 <= i < header.payload@.len() && (#[trigger] header.payload@[i]).0 == d)
            &&& next.batch_requests.contains_key(d) ==> next.batch_requests[d]
                == s.batch_requests[d]
            &&& answers(c, s, e, now, actions) && s.historical.contains(header.id) ==> actions.len()
                == 0
            &&& answers(c, s, e, now, actions) && !s.historical.contains(header.id)
                ==> actions.len() == 1 && actions[0] == ActionView::Loopback(header)
        }),
{
}

/// A wait that was cancelled changes nothing and asks for nothing, and a proposal that is no longer
/// wanted is forgotten, with nothing else.
pub proof fn only_what_is_cleared_is_forgotten(
    c: WaiterConfig,
    s: WaiterState,
    digest: Digest,
    now: u128,
    actions: Seq<ActionView>,
    d: Digest,
)
    ensures
        after_event(c, s, WaiterEvent::Cancelled, now) == s,
        answers(c, s, WaiterEvent::Cancelled, now, actions) ==> actions.len() == 0,
        ({
            let e = WaiterEvent::Message(WaiterMessage::ClearCommittedProposalSync(digest));
            let next = after_event(c, s, e, now);
            &&& next == (WaiterState { suffix_syncs: next.suffix_syncs, ..s })
            &&& next.suffix_syncs.contains_key(d) <==> s.suffix_syncs.contains_key(d) && d != digest
            &&& next.suffix_syncs.contains_key(d) ==> next.suffix_syncs[d] == s.suffix_syncs[d]
            &&& answers(c, s, e, now, actions) ==> actions.len() == 0
        }),
{
}

/// A cleanup drops exactly what is at or below the garbage collection round, and cancels the waits of
/// what it drops. All that is above stays as it is; what is marked stays marked exactly if it is still
/// there; and the queue of proposal syncs is not touched.
pub proof fn nothing_recent_is_dropped(s: WaiterState, gc_round: Height, d: Digest, i: int)
    ensures
        ({
            let clean = after_cleanup(s, gc_round);
            &&& clean.pending.contains_key(d) <==> s.pending.contains_key(d) && s.pending[d]
                > gc_round
            &&& clean.pending.contains_key(d) ==> clean.pending[d] == s.pending[d]
            &&& expired(s, gc_round).contains(d) <==> s.pending.contains_key(d)
                && !clean.pending.contains_key(d)
            &&& clean.batch_requests.contains_key(d) <==> s.batch_requests.contains_key(d)
                && s.batch_requests[d].0 > gc_round
            &&& clean.batch_requests.contains_key(d) ==> clean.batch_requests[d]
                == s.batch_requests[d]
            &&& clean.parent_requests.contains_key(d) <==> s.parent_requests.contains_key(d)
                && s.parent_requests[d].0 > gc_round
            &&& clean.parent_requests.contains_key(d) ==> clean.parent_requests[d]
                == s.parent_requests[d]
            &&& clean.header_requests.contains_key(d) <==> s.header_requests.contains_key(d)
                && s.header_requests[d].0 > gc_round
            &&& clean.header_requests.contains_key(d) ==> clean.header_requests[d]
                == s.header_requests[d]
            &&& clean.suffix_syncs.contains_key(d) <==> s.suffix_syncs.contains_key(d)
                && s.suffix_syncs[d].proposal.height > gc_round
            &&& clean.suffix_syncs.contains_key(d) ==> clean.suffix_syncs[d] == s.suffix_syncs[d]
            &&& clean.inflight.contains(d) <==> s.inflight.contains(d)
                && clean.parent_requests.contains_key(d)
            &&& clean.historical.contains(d) <==> s.historical.contains(d)
                && clean.pending.contains_key(d)
            &&& clean.proposal_syncs == s.proposal_syncs
            &&& 0 <= i < s.commit_syncs.len() && clean.suffix_syncs.contains_key(
                s.commit_syncs[i].digest,
            ) ==> clean.commit_syncs.contains(s.commit_syncs[i])
            &&& 0 <= i < clean.commit_syncs.len() ==> s.commit_syncs.contains(clean.commit_syncs[i])
                && clean.suffix_syncs.contains_key(clean.commit_syncs[i].digest)
        }),
{
    let clean = after_cleanup(s, gc_round);
    let p = |p: PendingCommitSync| clean.suffix_syncs.contains_key(p.digest);
    assert(clean.commit_syncs == s.commit_syncs.filter(p));
    if 0 <= i < s.commit_syncs.len() && p(s.commit_syncs[i]) {
        lemma_filter_contains(s.commit_syncs, p, s.commit_syncs[i]);
        assert(s.commit_syncs.contains(s.commit_syncs[i]));
    }
    if 0 <= i < clean.commit_syncs.len() {
        lemma_filter_contains(s.commit_syncs, p, clean.commit_syncs[i]);
        assert(clean.commit_syncs.contains(clean.commit_syncs[i]));
    }
}

proof fn lemma_filter_contains(
    s: Seq<PendingCommitSync>,
    p: spec_fn(PendingCommitSync) -> bool,
    x: PendingCommitSync,
)
    ensures
        s.filter(p).contains(x) <==> s.contains(x) && p(x),
    decreases s.len(),
{
    reveal(Seq::filter);
    if s.len() > 0 {
        let front = s.drop_last();
        lemma_filter_contains(front, p, x);
        assert(s[s.len() - 1] == s.last());
        if front.contains(x) {
            let j = choose|j: int| 0 <= j < front.len() && front[j] == x;
            assert(s[j] == x);
        }
        if s.contains(x) && x != s.last() {
            let j = choose|j: int| 0 <= j < s.len() && s[j] == x;
            assert(front[j] == x);
        }
        if p(s.last()) {
            let before = front.filter(p);
            let after = before.push(s.last());
            assert(s.filter(p) == after);
            assert(after[before.len() as int] == s.last());
            if before.contains(x) {
                let j = choose|j: int| 0 <= j < before.len() && before[j] == x;
                assert(after[j] == x);
            }
            if after.contains(x) && x != s.last() {
                let j = choose|j: int| 0 <= j < after.len() && after[j] == x;
                assert(before[j] == x);
            }
        }
    }
}

/// Every event is followed by a cleanup for the consensus round, once that is behind the depth of the
/// garbage collection. The exceptions are the timer, which the retry follows, and commands for what
/// waits already: one to fetch a parent or proposals, and one to wait for a payload without fetching it.
pub proof fn every_event_is_followed_by_a_cleanup(
    c: WaiterConfig,
    s: WaiterState,
    e: WaiterEvent,
    now: u128,
    round: Height,
)
    ensures
        ({
            let next = after_event(c, s, e, now);
            let ends_at_once = match e {
                WaiterEvent::Timer => true,
                WaiterEvent::Message(WaiterMessage::SyncBatches(_, header, mode)) =>
                    s.pending.contains_key(header.id) && mode == PayloadSyncMode::Live(false),
                WaiterEvent::Message(WaiterMessage::SyncParent(_, header)) =>
                    s.pending.contains_key(header.id),
                WaiterEvent::Message(WaiterMessage::SyncProposals(_, message, _)) =>
                    s.pending.contains_key(proposed_by(message)),
                _ => false,
            };
            &&& ends_at_once || round <= c.gc_depth ==> after_step(c, s, e, now, round) == next
            &&& !ends_at_once && round > c.gc_depth ==> after_step(c, s, e, now, round)
                == after_cleanup(next, (round - c.gc_depth) as Height)
        }),
{
}

/// Commands do what they are for, and the timer first sends out the commit-time syncs and then carries
/// out the queue: the state and the actions of an event are those of the operation that it calls for.
pub proof fn events_call_for_their_operations(
    c: WaiterConfig,
    s: WaiterState,
    digest: Digest,
    header: Header,
    proposal: Proposal,
    stop_height: Height,
    slot: Slot,
    now: u128,
    actions: Seq<ActionView>,
)
    ensures
        ({
            let e = WaiterEvent::Message(WaiterMessage::SyncHeader(digest));
            answers(c, s, e, now, actions) <==> (after_event(c, s, e, now), actions)
                == after_sync_header(c, s, digest, now)
        }),
        ({
            let e = WaiterEvent::Message(WaiterMessage::SyncParent(digest, header));
            answers(c, s, e, now, actions) <==> (after_event(c, s, e, now), actions)
                == after_sync_parent(c, s, digest, header, now)
        }),
        ({
            let e = WaiterEvent::Message(
                WaiterMessage::SyncCommittedProposal(proposal, stop_height, slot),
            );
            answers(c, s, e, now, actions) <==> (after_event(c, s, e, now), actions)
                == after_sync_committed(c, s, proposal@, stop_height, slot, now)
        }),
        answers(c, s, WaiterEvent::Retry, now, actions) <==> (
            after_event(c, s, WaiterEvent::Retry, now),
            actions,
        ) == (after_retry(c, s, now), retries(c, s, now)),
        ({
            let (sent, first) = after_dispatch(c, s);
            let (end, second) = after_drain(c, sent, now);
            answers(c, s, WaiterEvent::Timer, now, actions) <==> (
                after_event(c, s, WaiterEvent::Timer, now),
                actions,
            ) == (end, first + second)
        }),
{
}

/// What is being fetched is all that was requested and has not arrived: headers, batches and suffixes,
/// each of them counted once.
pub proof fn every_request_is_a_hole(s: WaiterState, d: Digest)
    ensures
        holes(s).contains(d) <==> s.parent_requests.contains_key(d)
            || s.header_requests.contains_key(d) || s.batch_requests.contains_key(d)
            || s.suffix_syncs.contains_key(d),
{
}

/// The waiter can take every event, but for a request to fetch batches that a worker is to hold which we
/// do not have, and for a retry while some time is so late that the delay cannot be added to it.
pub proof fn only_unknown_workers_and_late_clocks_stop_the_waiter(
    c: WaiterConfig,
    s: WaiterState,
    e: WaiterEvent,
)
    ensures
        !can_take(c, s, e) ==> match e {
            WaiterEvent::Message(WaiterMessage::SyncBatches(_, _, mode)) => mode
                != PayloadSyncMode::Live(false),
            WaiterEvent::Retry => true,
            _ => false,
        },
        e matches WaiterEvent::Message(WaiterMessage::SyncBatches(missing, _, mode)) ==> (mode
            != PayloadSyncMode::Live(false) ==> (can_take(c, s, e) <==> forall|j: int|
            0 <= j < missing.entries().len() && !(s.batch_requests.contains_key(
                (#[trigger] missing.entries()[j]).0,
            ) && s.batch_requests[missing.entries()[j].0].1)
                ==> c.committee.authorities@.contains_key(c.name)
                && c.committee.authorities@[c.name].workers@.contains_key(missing.entries()[j].1))),
        can_take(c, s, WaiterEvent::Retry) <==> (forall|x: Digest| #[trigger]
            s.parent_requests.contains_key(x) ==> s.parent_requests[x].1 + c.sync_retry_delay
                <= u128::MAX) && (forall|x: Digest| #[trigger]
            s.suffix_syncs.contains_key(x) ==> s.suffix_syncs[x].timestamp + c.sync_retry_delay
                <= u128::MAX),
{
    if let WaiterEvent::Message(WaiterMessage::SyncBatches(missing, _, mode)) = e {
        let entries = missing.entries();
        if mode != PayloadSyncMode::Live(false) {
            assert(mode.forces_sync());
            if can_take(c, s, e) {
                assert forall|j: int|
                    0 <= j < entries.len() && !(s.batch_requests.contains_key(
                        (#[trigger] entries[j]).0,
                    ) && s.batch_requests[entries[j].0].1) implies c.committee.authorities@
                    .contains_key(c.name) && c.committee.authorities@[c.name].workers@.contains_key(
                    entries[j].1,
                ) by {
                    lemma_fresh_of_worker(entries, s.batch_requests, entries[j].1, entries[j].0);
                    assert(entries[j] == (entries[j].0, entries[j].1));
                    assert(lacks_batch(entries, entries[j].1, entries[j].0));
                    let fresh = fresh_of_worker(entries, s.batch_requests, entries[j].1);
                    assert(fresh.contains(entries[j].0));
                    assert(fresh.len() > 0);
                }
            } else {
                let v = choose|v: WorkerId| #[trigger]
                    fresh_of_worker(entries, s.batch_requests, v).len() > 0
                        && c.committee.worker_of(c.name, v) is None;
                let fresh = fresh_of_worker(entries, s.batch_requests, v);
                lemma_fresh_of_worker(entries, s.batch_requests, v, fresh[0]);
                assert(fresh.contains(fresh[0]));
                let j = choose|j: int| 0 <= j < entries.len() && #[trigger] entries[j] == (
                    fresh[0],
                    v,
                );
                assert(entries[j].1 == v);
            }
        }
    }
    if forall|x: Digest| #[trigger]
        s.parent_requests.contains_key(x) ==> s.parent_requests[x].1 + c.sync_retry_delay
            <= u128::MAX {
        assert forall|x: Digest| s.parent_requests.contains_key(x) implies (
        #[trigger] s.parent_requests[x]).1 + c.sync_retry_delay <= u128::MAX by {}
    }
    if forall|x: Digest| #[trigger]
        s.suffix_syncs.contains_key(x) ==> s.suffix_syncs[x].timestamp + c.sync_retry_delay
            <= u128::MAX {
        assert forall|x: Digest| s.suffix_syncs.contains_key(x) implies (
        #[trigger] s.suffix_syncs[x]).timestamp + c.sync_retry_delay <= u128::MAX by {}
    }
    if can_take(c, s, WaiterEvent::Retry) {
        assert forall|x: Digest| #[trigger] s.parent_requests.contains_key(x) implies
            s.parent_requests[x].1 + c.sync_retry_delay <= u128::MAX by {
            let r = s.parent_requests[x];
        }
        assert forall|x: Digest| #[trigger] s.suffix_syncs.contains_key(x) implies
            s.suffix_syncs[x].timestamp + c.sync_retry_delay <= u128::MAX by {
            let r = s.suffix_syncs[x];
        }
    }
}

proof fn lemma_await_order(
    c: WaiterConfig,
    s: WaiterState,
    syncs: Seq<PendingProposalSync>,
    now: u128,
    m: int,
    n: int,
)
    ensures
        ({
            let actions = after_proposal_syncs(c, s, syncs, now).1;
            &&& 0 <= n < actions.len() && actions[n] is AwaitProposals ==> exists|j: int|
                0 <= j < syncs.len() && awaits_all_of(actions[n], #[trigger] syncs[j])
            &&& 0 <= m < n < actions.len() && actions[m] is AwaitProposals && actions[n]
                is AwaitProposals ==> exists|i: int, j: int|
                0 <= i < j < syncs.len() && awaits_all_of(actions[m], #[trigger] syncs[i])
                    && awaits_all_of(actions[n], #[trigger] syncs[j])
        }),
    decreases syncs.len(),
{
    if syncs.len() > 0 {
        let front = syncs.drop_last();
        let p = syncs.last();
        assert(syncs[syncs.len() - 1] == p);
        let (mid, before) = after_proposal_syncs(c, s, front, now);
        let more = after_proposal_sync(c, mid, p, now).1;
        let actions = after_proposal_syncs(c, s, syncs, now).1;
        a_proposal_sync_awaits_all_and_asks_for_what_is_new(c, mid, p, now, p.header.id, 0);
        if more.len() > 0 {
            assert(awaits_all_of(more[0], p)) by {
                if let ActionView::AwaitProposals { id: waiting, keys, message, header } = more[0] {
                    assert forall|k: int| 0 <= k < keys.len() implies #[trigger] keys[k]
                        == p.missing@[k].header_digest.0@ by {
                        a_proposal_sync_awaits_all_and_asks_for_what_is_new(
                            c,
                            mid,
                            p,
                            now,
                            p.header.id,
                            k,
                        );
                    }
                }
            }
        }
        lemma_await_order(c, s, front, now, m, n);
        lemma_await_order(c, s, front, now, 0, m);
        if 0 <= n < actions.len() && actions[n] is AwaitProposals {
            lemma_which_part(before, more, actions, n);
            if n < before.len() {
                let j = choose|j: int|
                    0 <= j < front.len() && awaits_all_of(before[n], #[trigger] front[j]);
                assert(syncs[j] == front[j]);
            }
            if 0 <= m < n && actions[m] is AwaitProposals {
                lemma_which_part(before, more, actions, m);
                if n < before.len() {
                    let (i, j) = choose|i: int, j: int|
                        0 <= i < j < front.len() && awaits_all_of(before[m], #[trigger] front[i])
                            && awaits_all_of(before[n], #[trigger] front[j]);
                    assert(syncs[i] == front[i] && syncs[j] == front[j]);
                } else {
                    assert(n == before.len());
                    let i = choose|i: int|
                        0 <= i < front.len() && awaits_all_of(before[m], #[trigger] front[i]);
                    assert(syncs[i] == front[i]);
                    assert(awaits_all_of(actions[n], syncs[syncs.len() - 1]));
                }
            }
        }
    }
}

/// When the queue is carried out, lower slots come first: of two messages that start to wait, the one
/// that is named first was queued for a slot that is not higher.
pub proof fn lower_slots_start_to_wait_first(
    c: WaiterConfig,
    s: WaiterState,
    now: u128,
    m: int,
    n: int,
)
    requires
        0 <= m < n < after_drain(c, s, now).1.len(),
        after_drain(c, s, now).1[m] is AwaitProposals,
        after_drain(c, s, now).1[n] is AwaitProposals,
    ensures
        exists|i: int, j: int|
            0 <= i < s.proposal_syncs.len() && 0 <= j < s.proposal_syncs.len() && awaits_all_of(
                after_drain(c, s, now).1[m],
                #[trigger] s.proposal_syncs[i],
            ) && awaits_all_of(after_drain(c, s, now).1[n], #[trigger] s.proposal_syncs[j])
                && s.proposal_syncs[i].slot <= s.proposal_syncs[j].slot,
{
    let queue = s.proposal_syncs;
    stable_sort_exists(queue, proposal_slot());
    let sorted = stable_sort(queue, proposal_slot());
    lemma_stably_sorted(queue, sorted, proposal_slot());
    let empty = WaiterState { proposal_syncs: Seq::empty(), ..s };
    let actions = after_drain(c, s, now).1;
    lemma_await_order(c, empty, sorted, now, m, n);
    let (i, j) = choose|i: int, j: int|
        0 <= i < j < sorted.len() && awaits_all_of(actions[m], #[trigger] sorted[i])
            && awaits_all_of(actions[n], #[trigger] sorted[j]);
    assert(proposal_slot()(sorted[i]) <= proposal_slot()(sorted[j]));
    assert(sorted.contains(sorted[i]) && sorted.contains(sorted[j]));
    assert(queue.contains(sorted[i]) && queue.contains(sorted[j]));
    let a = choose|a: int| 0 <= a < queue.len() && queue[a] == sorted[i];
    let b = choose|b: int| 0 <= b < queue.len() && queue[b] == sorted[j];
    assert(queue[a].slot <= queue[b].slot);
}

proof fn lemma_dispatch_order(
    c: WaiterConfig,
    syncs: Seq<PendingCommitSync>,
    suffix_syncs: Map<Digest, SuffixSyncView>,
    m: int,
    n: int,
)
    ensures
        ({
            let actions = dispatched(c, syncs, suffix_syncs);
            &&& 0 <= n < actions.len() ==> exists|j: int|
                0 <= j < syncs.len() && suffix_syncs.contains_key((#[trigger] syncs[j]).digest)
                    && asks_for_suffix(c, suffix_syncs[syncs[j].digest], actions[n])
            &&& 0 <= m < n < actions.len() ==> exists|i: int, j: int|
                0 <= i < j < syncs.len() && (#[trigger] syncs[i]).digest != (
                #[trigger] syncs[j]).digest && suffix_syncs.contains_key(syncs[i].digest)
                    && suffix_syncs.contains_key(syncs[j].digest) && asks_for_suffix(
                    c,
                    suffix_syncs[syncs[i].digest],
                    actions[m],
                ) && asks_for_suffix(c, suffix_syncs[syncs[j].digest], actions[n])
        }),
    decreases syncs.len(),
{
    if syncs.len() > 0 {
        let front = syncs.drop_last();
        assert(syncs[syncs.len() - 1] == syncs.last());
        let before = dispatched(c, front, suffix_syncs);
        let actions = dispatched(c, syncs, suffix_syncs);
        lemma_dispatch_order(c, front, suffix_syncs, m, n);
        lemma_dispatch_order(c, front, suffix_syncs, 0, m);
        if 0 <= n < before.len() {
            assert(actions[n] == before[n]);
            let j = choose|j: int|
                0 <= j < front.len() && suffix_syncs.contains_key((#[trigger] front[j]).digest)
                    && asks_for_suffix(c, suffix_syncs[front[j].digest], before[n]);
            assert(syncs[j] == front[j]);
            if 0 <= m < n {
                assert(actions[m] == before[m]);
                let (i, j) = choose|i: int, j: int|
                    0 <= i < j < front.len() && (#[trigger] front[i]).digest != (
                    #[trigger] front[j]).digest && suffix_syncs.contains_key(front[i].digest)
                        && suffix_syncs.contains_key(front[j].digest) && asks_for_suffix(
                        c,
                        suffix_syncs[front[i].digest],
                        before[m],
                    ) && asks_for_suffix(c, suffix_syncs[front[j].digest], before[n]);
                assert(syncs[i] == front[i] && syncs[j] == front[j]);
            }
        } else if n == before.len() && n < actions.len() {
            let j = syncs.len() - 1;
            assert(suffix_syncs.contains_key(syncs[j].digest));
            assert(asks_for_suffix(c, suffix_syncs[syncs[j].digest], actions[n]));
            if 0 <= m < n {
                assert(actions[m] == before[m]);
                let i = choose|i: int|
                    0 <= i < front.len() && suffix_syncs.contains_key((#[trigger] front[i]).digest)
                        && asks_for_suffix(c, suffix_syncs[front[i].digest], before[m]);
                assert(syncs[i] == front[i]);
                assert(!mentions(front, syncs[j].digest));
                assert(front[i].digest != syncs[j].digest);
            }
        }
    }
}

/// When commit-time syncs are sent out, lower slots come first, and no proposal is asked for twice.
pub proof fn lower_slots_are_sent_out_first(c: WaiterConfig, s: WaiterState, m: int, n: int)
    requires
        0 <= m < n < after_dispatch(c, s).1.len(),
    ensures
        exists|i: int, j: int|
            0 <= i < s.commit_syncs.len() && 0 <= j < s.commit_syncs.len() && (
            #[trigger] s.commit_syncs[i]).digest != (#[trigger] s.commit_syncs[j]).digest
                && s.commit_syncs[i].slot <= s.commit_syncs[j].slot && asks_for_suffix(
                c,
                s.suffix_syncs[s.commit_syncs[i].digest],
                after_dispatch(c, s).1[m],
            ) && asks_for_suffix(
                c,
                s.suffix_syncs[s.commit_syncs[j].digest],
                after_dispatch(c, s).1[n],
            ),
{
    let queue = s.commit_syncs;
    stable_sort_exists(queue, commit_slot());
    let sorted = stable_sort(queue, commit_slot());
    lemma_stably_sorted(queue, sorted, commit_slot());
    let actions = after_dispatch(c, s).1;
    lemma_dispatch_order(c, sorted, s.suffix_syncs, m, n);
    let (i, j) = choose|i: int, j: int|
        0 <= i < j < sorted.len() && (#[trigger] sorted[i]).digest != (#[trigger] sorted[j]).digest
            && s.suffix_syncs.contains_key(sorted[i].digest) && s.suffix_syncs.contains_key(
            sorted[j].digest,
        ) && asks_for_suffix(c, s.suffix_syncs[sorted[i].digest], actions[m]) && asks_for_suffix(
            c,
            s.suffix_syncs[sorted[j].digest],
            actions[n],
        );
    assert(commit_slot()(sorted[i]) <= commit_slot()(sorted[j]));
    assert(sorted.contains(sorted[i]) && sorted.contains(sorted[j]));
    assert(queue.contains(sorted[i]) && queue.contains(sorted[j]));
    let a = choose|a: int| 0 <= a < queue.len() && queue[a] == sorted[i];
    let b = choose|b: int| 0 <= b < queue.len() && queue[b] == sorted[j];
    assert(queue[a].slot <= queue[b].slot);
}

/// A command to fetch a payload is about the missing batches that it lists, for the header and in the way
/// that it names.
pub proof fn a_payload_command_is_about_its_batches(
    c: WaiterConfig,
    s: WaiterState,
    missing: Table<Digest, WorkerId>,
    header: Header,
    mode: PayloadSyncMode,
    now: u128,
    actions: Seq<ActionView>,
)
    ensures
        ({
            let e = WaiterEvent::Message(WaiterMessage::SyncBatches(missing, header, mode));
            &&& after_event(c, s, e, now) == after_sync_batches(s, missing@.dom(), header, mode)
            &&& answers(c, s, e, now, actions) <==> answers_sync_batches(
                c,
                s,
                missing.entries(),
                header,
                mode,
                actions,
            )
        }),
{
}

} // verus!
