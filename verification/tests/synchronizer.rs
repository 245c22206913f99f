use sailfish::committee::{Authority, Committee, PrimaryAddresses, WorkerAddresses};
use sailfish::ident::{Address, Digest, PublicKey};
use sailfish::primary::primary::PrimaryWorkerMessage;
use sailfish::table::{KeySet, Table};
use sailfish::worker::sync_model::{SendPlan, SyncConfig, SyncPriority};
use sailfish::worker::synchronizer::{PendingBatchSync, SyncGauges, SyncRequest, Synchronizer};

fn digest(n: u8) -> Digest {
    Digest([n; 32])
}

fn name(n: u8) -> PublicKey {
    PublicKey([n; 32])
}

fn address(port: u16) -> Address {
    Address::V4 { ip: 0x7f00_0001, port }
}

fn worker_of(n: u8) -> Address {
    address(3_000 + n as u16)
}

fn committee(members: u8) -> Committee {
    let mut authorities: Table<PublicKey, Authority> = Table::new();
    for n in 1..=members {
        let mut workers: Table<u32, WorkerAddresses> = Table::new();
        workers.insert(
            0,
            WorkerAddresses {
                transactions: address(2_000 + n as u16),
                worker_to_worker: worker_of(n),
                primary_to_worker: address(4_000 + n as u16),
            },
        );
        authorities.insert(
            name(n),
            Authority {
                primary: PrimaryAddresses {
                    primary_to_primary: address(1_000 + n as u16),
                    worker_to_primary: address(5_000 + n as u16),
                },
                workers,
            },
        );
    }
    Committee { authorities }
}

fn synchronizer_of(members: u8, sync_retry_nodes: usize) -> Synchronizer {
    Synchronizer::new(SyncConfig {
        name: name(1),
        id: 0,
        committee: committee(members),
        gc_depth: 50,
        sync_retry_delay: 1_000,
        sync_retry_nodes,
    })
}

fn targets(r: &SyncRequest) -> (Address, Vec<Address>, usize) {
    match &r.plan {
        SendPlan::Send { requestor, target, others, fanout } => {
            assert_eq!(*requestor, name(1));
            (*target, others.clone(), *fanout)
        }
        _ => panic!("not to be sent"),
    }
}

#[test]
fn a_background_batch_is_requested_from_its_target_alone() {
    let mut s = synchronizer_of(5, 2);
    let o = s.on_message(PrimaryWorkerMessage::Synchronize(vec![digest(1), digest(2), digest(1)], name(3)), 100);
    assert_eq!(o.awaited, vec![digest(1), digest(2)]);
    assert_eq!(o.cancelled.len(), 0);
    let r = o.request.unwrap();
    assert_eq!(r.digests, vec![digest(1), digest(2)]);
    assert_eq!(r.priority, SyncPriority::Background);
    assert!(!r.retry);
    assert_eq!(targets(&r), (worker_of(3), vec![], 0));
    let p = s.pending.get(&digest(1)).unwrap();
    assert_eq!((p.dependents, p.blocked_height, p.round, p.timestamp), (2, u64::MAX, 0, 100));
    assert_eq!(*p.target_attempts.get(&name(3)).unwrap(), 1);
}

#[test]
fn a_committed_batch_is_also_requested_from_others() {
    let mut s = synchronizer_of(6, 1);
    let o = s.on_message(PrimaryWorkerMessage::SynchronizeCommitted(vec![digest(1)], name(3), 17), 100);
    let r = o.request.unwrap();
    assert_eq!(r.priority, SyncPriority::CommitCritical);
    assert_eq!(
        targets(&r),
        (worker_of(3), vec![worker_of(2), worker_of(4), worker_of(5), worker_of(6)], 3)
    );
    assert_eq!(s.pending.get(&digest(1)).unwrap().blocked_height, 17);
}

#[test]
fn the_fanout_is_no_more_than_there_are_others() {
    let s = synchronizer_of(3, 9);
    match s.send_sync_request(&vec![digest(1)], name(2), SyncPriority::CommitCritical, false) {
        SendPlan::Send { others, fanout, .. } => assert_eq!((others, fanout), (vec![worker_of(3)], 1)),
        _ => panic!("not to be sent"),
    }
    match s.send_sync_request(&vec![digest(1)], name(2), SyncPriority::Background, true) {
        SendPlan::Send { others, fanout, .. } => assert_eq!((others, fanout), (vec![worker_of(3)], 1)),
        _ => panic!("not to be sent"),
    }
    assert!(matches!(
        s.send_sync_request(&vec![], name(2), SyncPriority::Background, true),
        SendPlan::Nothing
    ));
    assert!(matches!(
        s.send_sync_request(&vec![digest(1)], name(77), SyncPriority::Background, true),
        SendPlan::UnknownTarget
    ));
}

#[test]
fn background_retries_use_the_configured_fanout() {
    let s = synchronizer_of(6, 2);
    match s.send_sync_request(&vec![digest(1)], name(2), SyncPriority::Background, true) {
        SendPlan::Send { fanout, .. } => assert_eq!(fanout, 2),
        _ => panic!("not to be sent"),
    }
    match s.send_sync_request(&vec![digest(1)], name(2), SyncPriority::CommitCritical, true) {
        SendPlan::Send { fanout, .. } => assert_eq!(fanout, 3),
        _ => panic!("not to be sent"),
    }
}

#[test]
fn a_commit_upgrades_a_background_wait_once() {
    let mut s = synchronizer_of(5, 2);
    s.on_message(PrimaryWorkerMessage::Synchronize(vec![digest(1)], name(3)), 100);
    let o = s.on_message(PrimaryWorkerMessage::SynchronizeCommitted(vec![digest(1)], name(4), 30), 200);
    assert_eq!(o.awaited.len(), 0);
    assert_eq!(o.request.unwrap().digests, vec![digest(1)]);
    let p = s.pending.get(&digest(1)).unwrap();
    assert_eq!((p.priority, p.target, p.timestamp, p.blocked_height), (SyncPriority::CommitCritical, name(4), 200, 30));
    assert!(p.attempted_targets.contains(&name(3)));
    assert!(p.attempted_targets.contains(&name(4)));
    // Asking again requests nothing, but a lower height counts.
    let o = s.on_message(PrimaryWorkerMessage::SynchronizeCommitted(vec![digest(1)], name(5), 20), 300);
    let r = o.request.unwrap();
    assert_eq!(r.digests.len(), 0);
    assert!(matches!(r.plan, SendPlan::Nothing));
    let p = s.pending.get(&digest(1)).unwrap();
    assert_eq!((p.target, p.timestamp, p.blocked_height, p.dependents), (name(4), 200, 20, 3));
    // A background request changes nothing but the count.
    let o = s.on_message(PrimaryWorkerMessage::Synchronize(vec![digest(1)], name(2)), 400);
    assert_eq!(o.request.unwrap().digests.len(), 0);
    assert_eq!(s.pending.get(&digest(1)).unwrap().priority, SyncPriority::CommitCritical);
}

#[test]
fn an_unsent_first_request_is_due_at_once() {
    let mut s = synchronizer_of(5, 2);
    s.on_message(PrimaryWorkerMessage::Synchronize(vec![digest(1), digest(2)], name(3)), 5_000);
    s.on_sent(&vec![digest(1)], false, false, 5_000);
    assert_eq!(s.pending.get(&digest(1)).unwrap().timestamp, 0);
    assert_eq!(s.pending.get(&digest(2)).unwrap().timestamp, 5_000);
    s.on_sent(&vec![digest(2)], false, true, 6_000);
    assert_eq!(s.pending.get(&digest(2)).unwrap().timestamp, 5_000);
    let requests = s.on_timer(5_100);
    assert_eq!(requests.len(), 1);
    assert_eq!(requests[0].digests, vec![digest(1)]);
}

#[test]
fn a_retry_counts_only_if_it_was_sent() {
    let mut s = synchronizer_of(5, 2);
    s.on_message(PrimaryWorkerMessage::Synchronize(vec![digest(1)], name(3)), 100);
    let r = s.on_timer(2_000);
    s.on_sent(&r[0].digests, true, false, 2_000);
    assert_eq!(s.pending.get(&digest(1)).unwrap().timestamp, 100);
    let r = s.on_timer(2_001);
    assert_eq!(r.len(), 1);
    s.on_sent(&r[0].digests, true, true, 2_001);
    assert_eq!(s.pending.get(&digest(1)).unwrap().timestamp, 2_001);
    assert_eq!(s.on_timer(3_001).len(), 0);
    assert_eq!(s.on_timer(3_002).len(), 1);
}

#[test]
fn retries_go_round_the_candidates() {
    let mut s = synchronizer_of(4, 2);
    assert_eq!(s.candidate_targets(), vec![name(2), name(3), name(4)]);
    s.on_message(PrimaryWorkerMessage::Synchronize(vec![digest(1)], name(2)), 0);
    let mut seen: Vec<PublicKey> = vec![];
    for i in 0..4u128 {
        let r = s.on_timer(2_000 + i);
        assert!(r[0].retry);
        seen.push(r[0].target);
    }
    // The first target was asked once already; the others come first, and ties go to the one that
    // was not asked last.
    assert_eq!(seen, vec![name(3), name(4), name(2), name(3)]);
}

#[test]
fn a_target_that_is_asked_too_often_is_passed_over() {
    let mut s = synchronizer_of(3, 2);
    s.on_message(PrimaryWorkerMessage::Synchronize(vec![digest(1)], name(2)), 0);
    // Asked so far: 2 once. Then 3, 3 or 2 by turns until one of them has been asked three times.
    let mut asked: Vec<PublicKey> = vec![];
    for i in 0..4u128 {
        asked.push(s.on_timer(2_000 + i)[0].target);
    }
    assert_eq!(asked, vec![name(3), name(2), name(3), name(2)]);
    assert_eq!(s.target_cooldowns.len(), 1);
    assert_eq!(*s.target_cooldowns.get(&name(2)).unwrap(), 2_003 + 5_000);
    assert_eq!(*s.pending.get(&digest(1)).unwrap().target_attempts.get(&name(2)).unwrap(), 0);
    // The count of the one that cools down starts anew, but it is passed over all the same.
    assert_eq!(s.on_timer(2_004)[0].target, name(3));
    // Now both cool down: the one that was asked less often is asked nevertheless.
    assert_eq!(s.target_cooldowns.len(), 2);
    assert_eq!(s.on_timer(2_005)[0].target, name(2));
    // Once the cooldowns are over they are dropped.
    s.on_timer(9_000);
    assert_eq!(s.target_cooldowns.len(), 0);
}

#[test]
fn a_lone_worker_keeps_its_target() {
    let mut s = synchronizer_of(1, 2);
    s.on_message(PrimaryWorkerMessage::Synchronize(vec![digest(1)], name(9)), 0);
    let r = s.on_timer(2_000);
    assert_eq!(r[0].target, name(9));
    assert!(matches!(r[0].plan, SendPlan::UnknownTarget));
}

#[test]
fn committed_batches_are_retried_first_and_lowest_first() {
    let mut s = synchronizer_of(2, 2);
    s.on_message(PrimaryWorkerMessage::Synchronize(vec![digest(1)], name(2)), 0);
    s.on_message(PrimaryWorkerMessage::SynchronizeCommitted(vec![digest(2)], name(2), 90), 0);
    s.on_message(PrimaryWorkerMessage::SynchronizeCommitted(vec![digest(3)], name(2), 40), 0);
    let r = s.on_timer(2_000);
    assert_eq!(r.len(), 2);
    assert_eq!((r[0].priority, &r[0].digests), (SyncPriority::CommitCritical, &vec![digest(3), digest(2)]));
    assert_eq!((r[1].priority, &r[1].digests), (SyncPriority::Background, &vec![digest(1)]));
}

#[test]
fn no_more_than_a_fixed_number_is_retried() {
    let mut s = synchronizer_of(2, 2);
    let many: Vec<Digest> = (0..200u8).map(digest).collect();
    s.on_message(PrimaryWorkerMessage::Synchronize(many, name(2)), 0);
    s.on_message(PrimaryWorkerMessage::SynchronizeCommitted(vec![digest(250)], name(2), 5), 0);
    let r = s.on_timer(2_000);
    let total: usize = r.iter().map(|x| x.digests.len()).sum();
    assert_eq!(total, 128);
    assert_eq!(r[0].digests, vec![digest(250)]);
}

#[test]
fn cleanup_spares_committed_batches() {
    let mut s = synchronizer_of(3, 2);
    s.on_message(PrimaryWorkerMessage::Synchronize(vec![digest(1)], name(2)), 0);
    s.on_message(PrimaryWorkerMessage::SynchronizeCommitted(vec![digest(2)], name(2), 5), 0);
    let o = s.on_message(PrimaryWorkerMessage::Cleanup(49), 0);
    assert_eq!((o.cancelled.len(), s.pending.len(), s.round), (0, 2, 49));
    s.on_message(PrimaryWorkerMessage::Synchronize(vec![digest(3)], name(2)), 0);
    let o = s.on_message(PrimaryWorkerMessage::Cleanup(50), 0);
    assert_eq!(o.cancelled, vec![digest(1)]);
    assert_eq!(o.awaited.len(), 0);
    assert!(o.request.is_none());
    assert_eq!(s.pending.len(), 2);
    let o = s.on_message(PrimaryWorkerMessage::Cleanup(99), 0);
    assert_eq!(o.cancelled, vec![digest(3)]);
    assert!(s.pending.contains_key(&digest(2)));
}

#[test]
fn a_batch_that_arrives_is_no_longer_waited_for() {
    let mut s = synchronizer_of(3, 2);
    s.on_message(PrimaryWorkerMessage::Synchronize(vec![digest(1), digest(2)], name(2)), 1_000);
    assert_eq!(s.gauges(5_999), SyncGauges { pending: 2, stalled: 0 });
    assert_eq!(s.gauges(6_000), SyncGauges { pending: 2, stalled: 2 });
    assert_eq!(s.gauges(10), SyncGauges { pending: 2, stalled: 0 });
    s.on_delivered(&digest(1));
    assert_eq!(s.gauges(6_000), SyncGauges { pending: 1, stalled: 1 });
}

#[test]
fn everybody_asked_starts_a_new_round() {
    let mut attempted: KeySet<PublicKey> = KeySet::new();
    attempted.insert(name(2));
    attempted.insert(name(3));
    let mut attempts: Table<PublicKey, u32> = Table::new();
    attempts.insert(name(2), 2);
    attempts.insert(name(3), 1);
    let mut r = PendingBatchSync {
        round: 0,
        blocked_height: 0,
        timestamp: 0,
        target: name(3),
        priority: SyncPriority::Background,
        dependents: 1,
        attempted_targets: attempted,
        target_attempts: attempts,
    };
    let mut cooldowns: Table<PublicKey, u128> = Table::new();
    let list = vec![name(2), name(3)];
    let next = Synchronizer::select_retry_target_from_candidates(&list, &mut r, &cooldowns, 10);
    assert_eq!(next, name(3));
    assert_eq!(r.attempted_targets.len(), 1);
    assert!(r.attempted_targets.contains(&name(3)));
    cooldowns.insert(name(3), 11);
    assert_eq!(Synchronizer::select_retry_target_from_candidates(&list, &mut r, &cooldowns, 10), name(2));
    assert_eq!(Synchronizer::select_retry_target_from_candidates(&list, &mut r, &cooldowns, 11), name(3));
}

#[test]
fn counts_and_clocks_have_limits() {
    let mut s = synchronizer_of(3, 2);
    s.on_message(PrimaryWorkerMessage::Synchronize(vec![digest(1)], name(2)), 1_000);
    let two = vec![digest(1), digest(2)];
    assert!(s.counts_fit(&two));
    let mut r = s.pending.remove(&digest(1)).unwrap();
    r.dependents = u64::MAX - 1;
    s.pending.insert(digest(1), r);
    assert!(!s.counts_fit(&two));
    assert!(s.counts_fit(&vec![digest(1)]));
    assert!(s.clock_fits(2_000));
    assert!(s.clock_fits(u128::MAX - 5_000));
    assert!(!s.clock_fits(u128::MAX - 4_999));
    s.on_sent(&vec![digest(1)], true, true, u128::MAX - 999);
    assert!(!s.clock_fits(2_000));
}
