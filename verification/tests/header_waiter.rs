use sailfish::committee::{Authority, Committee, PrimaryAddresses, WorkerAddresses};
use sailfish::ident::{Address, Digest, PublicKey};
use sailfish::messages::{Certificate, ConsensusMessage, Header, Instance, Proposal};
use sailfish::primary::header_waiter::{HeaderWaiter, RecoveryGauges};
use sailfish::primary::waiter_model::{
    PayloadSyncMode, PendingProposalSync, WaiterAction, WaiterConfig, WaiterEvent, WaiterMessage,
    INITIAL_SYNC_FANOUT,
};
use sailfish::table::Table;

fn digest(n: u8) -> Digest {
    Digest([n; 32])
}

fn name(n: u8) -> PublicKey {
    PublicKey([n; 32])
}

fn address(port: u16) -> Address {
    Address::V4 { ip: 0x7f00_0001, port }
}

fn primary_of(n: u8) -> Address {
    address(1_000 + n as u16)
}

fn committee(members: u8) -> Committee {
    let mut authorities: Table<PublicKey, Authority> = Table::new();
    for n in 1..=members {
        let mut workers: Table<u32, WorkerAddresses> = Table::new();
        for id in 0..2u16 {
            workers.insert(
                id as u32,
                WorkerAddresses {
                    transactions: address(2_000 + 10 * n as u16 + id),
                    worker_to_worker: address(3_000 + 10 * n as u16 + id),
                    primary_to_worker: address(4_000 + 10 * n as u16 + id),
                },
            );
        }
        authorities.insert(
            name(n),
            Authority {
                primary: PrimaryAddresses {
                    primary_to_primary: primary_of(n),
                    worker_to_primary: address(5_000 + n as u16),
                },
                workers,
            },
        );
    }
    Committee { authorities }
}

fn waiter() -> HeaderWaiter {
    HeaderWaiter::new(WaiterConfig {
        name: name(1),
        committee: committee(4),
        gc_depth: 50,
        sync_retry_delay: 1_000,
        sync_retry_nodes: 2,
    })
}

fn certificate(header: u8, height: u64, votes: Vec<PublicKey>) -> Certificate {
    Certificate {
        author: name(2),
        header_digest: digest(header),
        height,
        digest: digest(header + 100),
        votes,
    }
}

fn header(id: u8, height: u64, payload: Vec<(Digest, u32)>) -> Header {
    Header {
        id: digest(id),
        author: name(2),
        height,
        payload,
        parent_cert: certificate(id - 1, height - 1, vec![]),
        consensus_messages: vec![],
        num_active_instances: 0,
        special: false,
    }
}

fn proposal(d: u8, height: u64, votes: Vec<PublicKey>) -> Proposal {
    Proposal { header_digest: digest(d), height, certificate: certificate(d, height, votes) }
}

fn prepare(slot: u64, proposal_digest: u8) -> ConsensusMessage {
    ConsensusMessage::Prepare(Instance {
        slot,
        view: 1,
        digest: digest(proposal_digest + 1),
        proposal_digest: digest(proposal_digest),
        proposals: vec![],
    })
}

fn missing(entries: &[(u8, u32)]) -> Table<Digest, u32> {
    let mut t: Table<Digest, u32> = Table::new();
    for (d, w) in entries {
        t.insert(digest(*d), *w);
    }
    t
}

fn message(m: WaiterMessage) -> WaiterEvent {
    WaiterEvent::Message(m)
}

fn others() -> Vec<Address> {
    vec![primary_of(2), primary_of(3), primary_of(4)]
}

#[test]
fn a_missing_header_is_requested_once() {
    let mut w = waiter();
    let actions = w.sync_header(digest(9), 10);
    assert_eq!(actions.len(), 1);
    match &actions[0] {
        WaiterAction::RequestHeaders { digests, requestor, addresses, nodes } => {
            assert_eq!(digests, &vec![digest(9)]);
            assert_eq!(*requestor, name(1));
            assert_eq!(addresses, &others());
            assert_eq!(*nodes, INITIAL_SYNC_FANOUT);
        }
        _ => panic!("not a header request"),
    }
    assert_eq!(w.sync_header(digest(9), 20).len(), 0);
    assert_eq!(w.header_requests.len(), 1);
    assert_eq!(*w.header_requests.get(&digest(9)).unwrap(), (0, 10));
}

#[test]
fn a_missing_parent_is_awaited_and_requested() {
    let mut w = waiter();
    let actions = w.sync_parent(digest(9), header(10, 7, vec![]), 10);
    assert_eq!(actions.len(), 2);
    match &actions[0] {
        WaiterAction::AwaitHeader { id, keys, header } => {
            assert_eq!(*id, digest(10));
            assert_eq!(keys, &vec![vec![9u8; 32]]);
            assert_eq!(header.height, 7);
        }
        _ => panic!("not a wait"),
    }
    match &actions[1] {
        WaiterAction::RequestHeaders { digests, nodes, .. } => {
            assert_eq!(digests, &vec![digest(9)]);
            assert_eq!(*nodes, 3);
        }
        _ => panic!("not a request"),
    }
    // The same header again does nothing, and another one that lacks the same parent only waits.
    assert_eq!(w.sync_parent(digest(9), header(10, 7, vec![]), 11).len(), 0);
    assert_eq!(w.sync_parent(digest(9), header(11, 8, vec![]), 12).len(), 1);
    assert_eq!(*w.parent_requests.get(&digest(9)).unwrap(), (7, 10));
}

#[test]
fn missing_batches_are_requested_from_our_workers() {
    let mut w = waiter();
    let actions = w.sync_batches(
        missing(&[(30, 1), (31, 0), (32, 1)]),
        header(10, 7, vec![]),
        PayloadSyncMode::Live(true),
    );
    assert_eq!(actions.len(), 3);
    match &actions[0] {
        WaiterAction::AwaitHeader { id, keys, .. } => {
            assert_eq!(*id, digest(10));
            let mut first = vec![30u8; 32];
            first.extend_from_slice(&[1, 0, 0, 0]);
            let mut second = vec![31u8; 32];
            second.extend_from_slice(&[0, 0, 0, 0]);
            let mut third = vec![32u8; 32];
            third.extend_from_slice(&[1, 0, 0, 0]);
            assert_eq!(keys, &vec![first, second, third]);
        }
        _ => panic!("not a wait"),
    }
    match &actions[1] {
        WaiterAction::RequestBatches { worker_id, address: a, digests, author, height } => {
            assert_eq!(*worker_id, 0);
            assert_eq!(*a, address(4_010));
            assert_eq!(digests, &vec![digest(31)]);
            assert_eq!(*author, name(2));
            assert_eq!(*height, 7);
        }
        _ => panic!("not a request"),
    }
    match &actions[2] {
        WaiterAction::RequestBatches { worker_id, address: a, digests, .. } => {
            assert_eq!(*worker_id, 1);
            assert_eq!(*a, address(4_011));
            assert_eq!(digests, &vec![digest(30), digest(32)]);
        }
        _ => panic!("not a request"),
    }
    // Another header that lacks some of them asks for the rest only.
    let actions = w.sync_batches(
        missing(&[(31, 0), (33, 0)]),
        header(12, 9, vec![]),
        PayloadSyncMode::Live(true),
    );
    assert_eq!(actions.len(), 2);
    match &actions[1] {
        WaiterAction::RequestBatches { digests, .. } => assert_eq!(digests, &vec![digest(33)]),
        _ => panic!("not a request"),
    }
    assert_eq!(*w.batch_requests.get(&digest(31)).unwrap(), (9, true));
}

#[test]
fn batches_that_are_only_waited_for_are_not_requested() {
    let mut w = waiter();
    let actions =
        w.sync_batches(missing(&[(30, 0)]), header(10, 7, vec![]), PayloadSyncMode::Live(false));
    assert_eq!(actions.len(), 1);
    assert!(matches!(actions[0], WaiterAction::AwaitHeader { .. }));
    assert_eq!(w.batch_requests.len(), 0);
    // Asking for them with force upgrades the wait.
    let actions =
        w.sync_batches(missing(&[(30, 0)]), header(10, 7, vec![]), PayloadSyncMode::Live(true));
    assert_eq!(actions.len(), 1);
    assert!(matches!(actions[0], WaiterAction::RequestBatches { .. }));
}

#[test]
fn historical_headers_do_not_go_back_to_the_core() {
    let mut w = waiter();
    w.sync_batches(missing(&[(30, 0)]), header(10, 7, vec![]), PayloadSyncMode::Historical);
    assert!(w.historical_payload_waiters.contains(&digest(10)));
    assert_eq!(w.recovered(header(10, 7, vec![(digest(30), 0)])).len(), 0);
    assert_eq!(w.pending.len(), 0);
    assert_eq!(w.batch_requests.len(), 0);
    assert!(!w.historical_payload_waiters.contains(&digest(10)));
}

#[test]
fn a_live_request_upgrades_a_historical_wait() {
    let mut w = waiter();
    w.sync_batches(missing(&[(30, 0)]), header(10, 7, vec![]), PayloadSyncMode::Historical);
    w.sync_batches(missing(&[(30, 0)]), header(10, 7, vec![]), PayloadSyncMode::Live(false));
    let actions = w.recovered(header(10, 7, vec![(digest(30), 0)]));
    assert_eq!(actions.len(), 1);
    match &actions[0] {
        WaiterAction::Loopback(h) => assert_eq!(h.id, digest(10)),
        _ => panic!("not a loopback"),
    }
}

#[test]
fn a_header_goes_back_once_however_often_it_was_asked_for() {
    let asked = [
        (vec![PayloadSyncMode::Historical, PayloadSyncMode::Historical], 0),
        (vec![PayloadSyncMode::Live(true), PayloadSyncMode::Historical], 1),
        (
            vec![
                PayloadSyncMode::Historical,
                PayloadSyncMode::Live(false),
                PayloadSyncMode::Historical,
                PayloadSyncMode::Live(true),
            ],
            1,
        ),
    ];
    for (modes, loopbacks) in asked {
        let mut w = waiter();
        let mut waits: usize = 0;
        for mode in modes {
            let actions = w.sync_batches(missing(&[(30, 0)]), header(10, 7, vec![]), mode);
            waits += actions
                .iter()
                .filter(|a| matches!(a, WaiterAction::AwaitHeader { .. }))
                .count();
        }
        assert_eq!(waits, 1);
        let actions = w.recovered(header(10, 7, vec![(digest(30), 0)]));
        assert_eq!(actions.len(), loopbacks);
        assert!(actions.iter().all(|a| matches!(a, WaiterAction::Loopback(_))));
        assert_eq!(w.pending.len(), 0);
    }
}

#[test]
fn a_recovered_header_is_forgotten() {
    let mut w = waiter();
    w.sync_parent(digest(9), header(10, 7, vec![]), 10);
    let actions = w.recovered(header(10, 7, vec![]));
    assert_eq!(actions.len(), 1);
    assert_eq!(w.pending.len(), 0);
    assert_eq!(w.parent_requests.len(), 0);
}

#[test]
fn committed_proposals_go_to_their_certifiers() {
    let mut w = waiter();
    let p = proposal(60, 20, vec![name(3), name(1), name(9), name(2)]);
    assert_eq!(w.certifier_addresses(&p), vec![primary_of(3), primary_of(2)]);
    let actions = w.sync_committed_proposal(p, 10, 4, 100);
    assert_eq!(actions.len(), 1);
    match &actions[0] {
        WaiterAction::RequestSuffix { proposal, stop_height, requestor, addresses, nodes } => {
            assert_eq!(proposal.header_digest, digest(60));
            assert_eq!(*stop_height, 10);
            assert_eq!(*requestor, name(1));
            assert_eq!(addresses, &vec![primary_of(3), primary_of(2)]);
            assert_eq!(*nodes, 2);
        }
        _ => panic!("not a suffix request"),
    }
    assert_eq!(w.pending_commit_syncs.len(), 0);
}

#[test]
fn committed_proposals_without_certifiers_go_to_a_few_others() {
    let mut w = waiter();
    let actions = w.sync_committed_proposal(proposal(60, 20, vec![name(1)]), 10, 4, 100);
    match &actions[0] {
        WaiterAction::RequestSuffix { addresses, nodes, .. } => {
            assert_eq!(addresses, &others());
            assert_eq!(*nodes, INITIAL_SYNC_FANOUT);
        }
        _ => panic!("not a suffix request"),
    }
}

#[test]
fn a_suffix_request_only_widens() {
    let mut w = waiter();
    w.sync_committed_proposal(proposal(60, 20, vec![]), 10, 4, 100);
    // Neither an earlier slot nor a lower height.
    assert_eq!(w.sync_committed_proposal(proposal(60, 20, vec![]), 12, 5, 200).len(), 0);
    // A lower height, with a later slot.
    let actions = w.sync_committed_proposal(proposal(60, 20, vec![]), 8, 9, 300);
    match &actions[0] {
        WaiterAction::RequestSuffix { stop_height, .. } => assert_eq!(*stop_height, 8),
        _ => panic!("not a suffix request"),
    }
    let r = w.proposal_sync_requests.get(&digest(60)).unwrap();
    assert_eq!((r.slot, r.stop_height, r.timestamp), (4, 8, 100));
    w.clear_committed_proposal_sync(digest(60));
    assert_eq!(w.proposal_sync_requests.len(), 0);
}

#[test]
fn proposal_syncs_run_by_slot_and_ask_once() {
    let mut w = waiter();
    w.sync_proposals(vec![proposal(70, 5, vec![]), proposal(71, 6, vec![])], prepare(9, 80), header(10, 7, vec![]));
    w.sync_proposals(vec![proposal(71, 6, vec![])], prepare(3, 82), header(12, 8, vec![]));
    assert_eq!(w.pending_proposal_syncs.len(), 2);
    let actions = w.drain_pending_proposal_syncs(40);
    assert_eq!(w.pending_proposal_syncs.len(), 0);
    assert_eq!(actions.len(), 4);
    match &actions[0] {
        WaiterAction::AwaitProposals { id, keys, .. } => {
            assert_eq!(*id, digest(82));
            assert_eq!(keys, &vec![vec![71u8; 32]]);
        }
        _ => panic!("not a wait"),
    }
    match &actions[1] {
        WaiterAction::RequestHeaders { digests, .. } => assert_eq!(digests, &vec![digest(71)]),
        _ => panic!("not a request"),
    }
    match &actions[2] {
        WaiterAction::AwaitProposals { id, message, .. } => {
            assert_eq!(*id, digest(80));
            assert_eq!(HeaderWaiter::consensus_slot(message), 9);
        }
        _ => panic!("not a wait"),
    }
    match &actions[3] {
        WaiterAction::RequestHeaders { digests, .. } => assert_eq!(digests, &vec![digest(70)]),
        _ => panic!("not a request"),
    }
    assert_eq!(*w.parent_requests.get(&digest(71)).unwrap(), (6, 40));
}

#[test]
fn a_proposal_sync_for_a_waiting_message_does_nothing() {
    let mut w = waiter();
    let sync = PendingProposalSync {
        slot: 3,
        missing: vec![proposal(71, 6, vec![])],
        consensus_message: prepare(3, 82),
        header: header(12, 8, vec![]),
    };
    assert_eq!(w.execute_proposal_sync(sync, 40).len(), 2);
    w.sync_proposals(vec![proposal(72, 6, vec![])], prepare(3, 82), header(12, 8, vec![]));
    assert_eq!(w.pending_proposal_syncs.len(), 0);
    let again = PendingProposalSync {
        slot: 3,
        missing: vec![proposal(72, 6, vec![])],
        consensus_message: prepare(3, 82),
        header: header(12, 8, vec![]),
    };
    assert_eq!(w.execute_proposal_sync(again, 50).len(), 0);
}

#[test]
fn overdue_requests_are_repeated() {
    let mut w = waiter();
    w.sync_parent(digest(9), header(10, 7, vec![]), 100);
    w.sync_parent(digest(19), header(20, 7, vec![]), 500);
    w.sync_committed_proposal(proposal(60, 20, vec![name(2)]), 10, 4, 100);
    // Not yet due: the delay has to be exceeded.
    assert_eq!(w.retry(1_100).len(), 0);
    let actions = w.retry(1_101);
    assert_eq!(actions.len(), 2);
    match &actions[0] {
        WaiterAction::RequestHeaders { digests, nodes, addresses, .. } => {
            assert_eq!(digests, &vec![digest(9)]);
            assert_eq!(*nodes, 2);
            assert_eq!(addresses, &others());
        }
        _ => panic!("not a header request"),
    }
    match &actions[1] {
        WaiterAction::RequestSuffix { proposal, addresses, nodes, .. } => {
            assert_eq!(proposal.header_digest, digest(60));
            assert_eq!(addresses, &others());
            assert_eq!(*nodes, 2);
        }
        _ => panic!("not a suffix request"),
    }
    assert_eq!(*w.parent_requests.get(&digest(9)).unwrap(), (7, 1_101));
    assert_eq!(*w.parent_requests.get(&digest(19)).unwrap(), (7, 500));
}

#[test]
fn cleanup_drops_what_is_old() {
    let mut w = waiter();
    w.sync_parent(digest(9), header(10, 7, vec![]), 100);
    w.sync_parent(digest(19), header(20, 8, vec![]), 100);
    w.sync_header(digest(50), 100);
    w.sync_batches(missing(&[(30, 0)]), header(12, 7, vec![]), PayloadSyncMode::Historical);
    w.sync_committed_proposal(proposal(60, 7, vec![]), 1, 4, 100);
    w.sync_committed_proposal(proposal(61, 8, vec![]), 1, 4, 100);
    assert_eq!(w.cleanup(7), vec![digest(10), digest(12)]);
    assert_eq!(w.pending.len(), 1);
    assert_eq!(w.parent_requests.len(), 1);
    assert_eq!(w.header_requests.len(), 0);
    assert_eq!(w.batch_requests.len(), 0);
    assert_eq!(w.historical_payload_waiters.len(), 0);
    assert_eq!(w.proposal_sync_requests.len(), 1);
    assert!(w.proposal_sync_requests.contains_key(&digest(61)));
    assert_eq!(w.cleanup(7), Vec::<Digest>::new());
}

#[test]
fn the_gauges_count_what_is_missing_and_what_waits() {
    let mut w = waiter();
    w.sync_parent(digest(9), header(10, 7, vec![]), 100);
    w.sync_header(digest(9), 100);
    w.sync_header(digest(50), 100);
    w.sync_proposals(vec![proposal(70, 5, vec![])], prepare(9, 80), header(10, 7, vec![]));
    assert_eq!(w.recovery_gauges(), RecoveryGauges { inflight_holes: 2, hole_dependents: 2 });
}

#[test]
fn a_step_cleans_up_behind_the_consensus_round() {
    let mut w = waiter();
    let o = w.step(message(WaiterMessage::SyncParent(digest(9), header(10, 7, vec![]))), 100, 50);
    assert_eq!(o.actions.len(), 2);
    assert_eq!(o.cancelled.len(), 0);
    assert_eq!(o.gauges, Some(RecoveryGauges { inflight_holes: 1, hole_dependents: 1 }));
    // A duplicate ends at once, whatever the round.
    let o = w.step(message(WaiterMessage::SyncParent(digest(9), header(10, 7, vec![]))), 100, 90);
    assert_eq!(o.actions.len(), 0);
    assert_eq!(o.cancelled.len(), 0);
    assert_eq!(o.gauges, None);
    assert_eq!(w.pending.len(), 1);
    let o = w.step(WaiterEvent::Cancelled, 100, 57);
    assert_eq!(o.cancelled, vec![digest(10)]);
    assert_eq!(o.gauges, Some(RecoveryGauges { inflight_holes: 0, hole_dependents: 0 }));
}

#[test]
fn the_timer_carries_out_queued_syncs_and_then_retries() {
    let mut w = waiter();
    let o = w.step(
        message(WaiterMessage::SyncProposals(
            vec![proposal(70, 15, vec![])],
            prepare(9, 80),
            header(10, 17, vec![]),
        )),
        100,
        10,
    );
    assert_eq!(o.actions.len(), 0);
    assert!(!o.retry_next);
    let o = w.step(WaiterEvent::Timer, 200, 10);
    assert_eq!(o.actions.len(), 2);
    assert_eq!(o.gauges, None);
    assert!(o.retry_next);
    let o = w.step(WaiterEvent::Retry, 1_300, 10);
    assert_eq!(o.actions.len(), 1);
    assert!(!o.retry_next);
    assert_eq!(o.gauges, Some(RecoveryGauges { inflight_holes: 1, hole_dependents: 1 }));
    let o = w.step(message(WaiterMessage::ClearCommittedProposalSync(digest(1))), 1_300, 10);
    assert_eq!(o.actions.len(), 0);
    let o = w.step(message(WaiterMessage::SyncHeader(digest(44))), 1_300, 10);
    assert_eq!(o.actions.len(), 1);
    let o = w.step(
        message(WaiterMessage::SyncCommittedProposal(proposal(60, 20, vec![]), 3, 2)),
        1_300,
        10,
    );
    assert_eq!(o.actions.len(), 1);
    let o = w.step(WaiterEvent::Recovered(header(10, 17, vec![])), 1_400, 10);
    assert_eq!(o.actions.len(), 1);
}

#[test]
fn batches_by_step_follow_the_mode() {
    let mut w = waiter();
    let o = w.step(
        message(WaiterMessage::SyncBatches(
            missing(&[(30, 0)]),
            header(10, 7, vec![]),
            PayloadSyncMode::Live(false),
        )),
        100,
        10,
    );
    assert_eq!(o.actions.len(), 1);
    let o = w.step(
        message(WaiterMessage::SyncBatches(
            missing(&[(30, 0)]),
            header(10, 7, vec![]),
            PayloadSyncMode::Live(false),
        )),
        100,
        10,
    );
    assert_eq!((o.actions.len(), o.gauges), (0, None));
    let o = w.step(
        message(WaiterMessage::SyncBatches(
            missing(&[(30, 0)]),
            header(10, 7, vec![]),
            PayloadSyncMode::Historical,
        )),
        100,
        10,
    );
    assert_eq!(o.actions.len(), 1);
    assert!(o.gauges.is_some());
}

#[test]
fn sending_out_commit_syncs_twice_asks_once() {
    let mut w = waiter();
    w.sync_committed_proposal(proposal(60, 20, vec![]), 10, 4, 100);
    assert_eq!(w.dispatch_pending_commit_syncs().len(), 0);
    assert_eq!(w.other_primary_addresses(), others());
}

#[test]
fn a_waiter_cannot_ask_a_worker_that_it_does_not_have() {
    let mut w = waiter();
    let sync = |mode| {
        message(WaiterMessage::SyncBatches(missing(&[(30, 0), (31, 9)]), header(10, 7, vec![]), mode))
    };
    assert!(w.can_take(&sync(PayloadSyncMode::Live(false))));
    assert!(!w.can_take(&sync(PayloadSyncMode::Live(true))));
    assert!(!w.can_take(&sync(PayloadSyncMode::Historical)));
    // A batch that was requested already is not asked for.
    w.batch_requests.insert(digest(31), (7, true));
    assert!(w.can_take(&sync(PayloadSyncMode::Historical)));
    assert!(w.can_take(&WaiterEvent::Cancelled));
}

#[test]
fn a_clock_that_stands_too_late_leaves_no_room_for_the_delay() {
    let mut w = waiter();
    w.sync_parent(digest(9), header(10, 7, vec![]), u128::MAX - 1_000);
    assert!(w.can_take(&WaiterEvent::Retry));
    w.sync_committed_proposal(proposal(60, 20, vec![]), 10, 4, u128::MAX - 999);
    assert!(!w.can_take(&WaiterEvent::Retry));
}
