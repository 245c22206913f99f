use sailfish::ident::{Digest, PublicKey};
use sailfish::messages::{Certificate, ConsensusMessage, Instance, Proposal};
use sailfish::primary::committer::{Committer, SlotPlan, State};
use sailfish::table::Table;

fn digest(n: u8) -> Digest {
    Digest([n; 32])
}

fn name(n: u8) -> PublicKey {
    PublicKey([n; 32])
}

fn certificate(author: u8, height: u64) -> Certificate {
    Certificate {
        author: name(author),
        header_digest: digest(height as u8),
        height,
        digest: digest(200 + author),
        votes: vec![],
    }
}

fn state() -> State {
    State::new(vec![certificate(1, 0), certificate(2, 0), certificate(3, 0)])
}

fn instance(slot: u64, proposals: &[(u8, u64)]) -> Instance {
    Instance {
        slot,
        view: 1,
        digest: digest(slot as u8),
        proposal_digest: digest(slot as u8),
        proposals: proposals
            .iter()
            .map(|(a, h)| {
                (
                    name(*a),
                    Proposal {
                        header_digest: digest(10 * a + *h as u8),
                        height: *h,
                        certificate: certificate(*a, *h),
                    },
                )
            })
            .collect(),
    }
}

fn commit(slot: u64, proposals: &[(u8, u64)]) -> ConsensusMessage {
    ConsensusMessage::Commit(instance(slot, proposals))
}

fn summary(plans: &[SlotPlan]) -> Vec<(u64, Vec<(u8, u64, u64)>)> {
    plans
        .iter()
        .map(|p| {
            (
                p.slot,
                p.fetches
                    .iter()
                    .map(|f| (f.author.0[0], f.stop_height, f.proposal.height))
                    .collect(),
            )
        })
        .collect()
}

#[test]
fn genesis_state() {
    let s = state();
    assert_eq!((s.last_committed_round, s.last_executed_slot), (0, 0));
    assert_eq!(s.last_executed_heights.len(), 3);
    assert_eq!(*s.last_executed_heights.get(&name(2)).unwrap(), 0);
    assert_eq!(s.dag.len(), 1);
    assert_eq!(s.dag.get(&0).unwrap().len(), 3);
    assert_eq!(s.dag.get(&0).unwrap().get(&name(3)).unwrap().0, digest(203));
    assert_eq!(Committer::pending_slots(&s), 0);
}

#[test]
fn a_slot_commits_its_proposals() {
    let mut s = state();
    let plans = Committer::process_commit_message(&mut s, commit(1, &[(1, 3), (2, 0), (3, 1)]));
    assert_eq!(summary(&plans), vec![(1, vec![(1, 0, 3), (3, 0, 1)])]);
    assert_eq!(plans[0].fetches[0].proposal.header_digest, digest(13));
    assert_eq!(s.last_executed_slot, 1);
    assert_eq!(*s.last_executed_heights.get(&name(1)).unwrap(), 3);
    assert_eq!(*s.last_executed_heights.get(&name(2)).unwrap(), 0);
    assert_eq!(Committer::pending_slots(&s), 0);
}

#[test]
fn slots_wait_for_those_before_them() {
    let mut s = state();
    assert_eq!(Committer::process_commit_message(&mut s, commit(3, &[(1, 9)])).len(), 0);
    assert_eq!(Committer::process_commit_message(&mut s, commit(2, &[(1, 5), (2, 2)])).len(), 0);
    assert_eq!(Committer::pending_slots(&s), 2);
    let plans = Committer::process_commit_message(&mut s, commit(1, &[(1, 4)]));
    assert_eq!(
        summary(&plans),
        vec![(1, vec![(1, 0, 4)]), (2, vec![(1, 4, 5), (2, 0, 2)]), (3, vec![(1, 5, 9)])]
    );
    assert_eq!((s.last_executed_slot, Committer::pending_slots(&s)), (3, 0));
}

#[test]
fn executed_slots_are_ignored() {
    let mut s = state();
    Committer::process_commit_message(&mut s, commit(1, &[(1, 4)]));
    assert_eq!(Committer::process_commit_message(&mut s, commit(1, &[(1, 7)])).len(), 0);
    assert_eq!(*s.last_executed_heights.get(&name(1)).unwrap(), 4);
    assert_eq!(Committer::process_commit_message(&mut s, commit(0, &[(1, 7)])).len(), 0);
}

#[test]
fn only_commits_commit() {
    let mut s = state();
    let prepare = ConsensusMessage::Prepare(instance(1, &[(1, 4)]));
    let confirm = ConsensusMessage::Confirm(instance(1, &[(1, 4)]));
    assert_eq!(Committer::process_commit_message(&mut s, prepare).len(), 0);
    assert_eq!(Committer::process_commit_message(&mut s, confirm).len(), 0);
    assert_eq!(Committer::pending_slots(&s), 0);
}

#[test]
fn a_slot_without_new_headers_is_executed_all_the_same() {
    let mut s = state();
    Committer::process_commit_message(&mut s, commit(1, &[(1, 4)]));
    let plans = Committer::process_commit_message(&mut s, commit(2, &[(1, 4)]));
    assert_eq!(summary(&plans), vec![(2, vec![])]);
    assert_eq!(s.last_executed_slot, 2);
}

#[test]
fn no_header_is_committed_twice() {
    let mut s = state();
    Committer::process_commit_message(&mut s, commit(2, &[(1, 6)]));
    let plans = Committer::process_commit_message(&mut s, commit(1, &[(1, 8)]));
    assert_eq!(summary(&plans), vec![(1, vec![(1, 0, 8)]), (2, vec![])]);
}

#[test]
fn an_update_drops_old_certificates() {
    let mut s = state();
    s.update(&certificate(1, 4), 10);
    assert_eq!(s.last_committed_round, 4);
    assert_eq!(*s.last_executed_heights.get(&name(1)).unwrap(), 4);
    // The genesis certificate of the first authority is older than what was executed of its chain.
    assert_eq!(s.dag.get(&0).unwrap().len(), 2);
    assert!(!s.dag.get(&0).unwrap().contains_key(&name(1)));
    // A lower certificate lowers nothing.
    s.update(&certificate(1, 2), 10);
    assert_eq!(*s.last_executed_heights.get(&name(1)).unwrap(), 4);
    // Behind the garbage collection nothing is left.
    s.update(&certificate(9, 11), 10);
    assert_eq!(s.last_committed_round, 11);
    assert_eq!(*s.last_executed_heights.get(&name(9)).unwrap(), 11);
    assert_eq!(s.dag.len(), 0);
}

#[test]
fn a_height_at_the_garbage_collection_depth_stays() {
    let mut s = state();
    s.update(&certificate(9, 10), 10);
    assert_eq!(s.dag.get(&0).unwrap().len(), 3);
}

#[test]
fn committed_bytes_are_capped() {
    assert_eq!(Committer::committed_bytes(&vec![]), 0);
    assert_eq!(Committer::committed_bytes(&vec![3, 4, 5]), 12);
    assert_eq!(Committer::committed_bytes(&vec![u64::MAX, 1, 2]), u64::MAX);
}

/// A state whose DAG also holds the certificates of the first authority at `heights`.
fn state_with(heights: &[u64]) -> State {
    let mut s = state();
    for h in heights {
        let mut authorities: Table<PublicKey, (Digest, Certificate)> = Table::new();
        authorities.insert(name(1), (digest(201), certificate(1, *h)));
        s.dag.insert(*h, authorities);
    }
    s
}

fn order(s: &State, tip: &Certificate) -> Vec<(u8, u64)> {
    let c = Committer { gc_depth: 5 };
    c.order_dag(tip, s).iter().map(|c| (c.author.0[0], c.height)).collect()
}

#[test]
fn the_dag_is_flattened_from_its_tip() {
    let s = state_with(&[1, 2, 3, 5]);
    assert_eq!(order(&s, &certificate(1, 4)), vec![(1, 4), (1, 3), (1, 2), (1, 1)]);
    // The chain ends where a certificate is missing.
    assert_eq!(order(&s, &certificate(1, 6)), vec![(1, 6), (1, 5)]);
    // The certificates of others do not belong to it.
    assert_eq!(order(&s, &certificate(2, 4)), vec![(2, 4)]);
    assert_eq!(order(&s, &certificate(1, 0)), vec![(1, 0)]);
}

#[test]
fn the_order_stops_at_what_was_executed() {
    let mut s = state_with(&[1, 2, 3]);
    s.last_executed_heights.insert(name(1), 2);
    assert_eq!(order(&s, &certificate(1, 4)), vec![(1, 4), (1, 3)]);
    s.last_executed_heights.insert(name(1), 9);
    assert_eq!(order(&s, &certificate(1, 4)), vec![(1, 4)]);
    // Nothing is known to be executed of an unknown authority, down to its first certificate.
    s.last_executed_heights.remove(&name(1));
    assert_eq!(order(&s, &certificate(1, 2)), vec![(1, 2), (1, 1), (1, 0)]);
}

#[test]
fn slots_of_strangers_cannot_be_executed() {
    let mut s = state();
    assert!(!Committer::can_take(&s, &commit(1, &[(1, 4), (9, 4)])));
    // They can wait, as long as a slot before them is missing.
    assert!(Committer::can_take(&s, &commit(2, &[(9, 4)])));
    Committer::process_commit_message(&mut s, commit(2, &[(9, 4)]));
    assert!(!Committer::can_take(&s, &commit(1, &[(1, 4)])));
    assert!(Committer::can_take(&s, &commit(0, &[(9, 4)])));
    assert!(Committer::can_take(&s, &commit(3, &[(9, 4)])));
    assert!(Committer::can_take(&s, &ConsensusMessage::Prepare(instance(1, &[(9, 4)]))));
}

#[test]
fn the_last_slot_number_cannot_be_executed() {
    let mut s = state();
    s.last_executed_slot = u64::MAX - 1;
    assert!(!Committer::can_take(&s, &commit(u64::MAX, &[])));
    s.last_executed_slot = u64::MAX - 2;
    assert!(Committer::can_take(&s, &commit(u64::MAX, &[])));
    assert!(Committer::can_take(&s, &commit(u64::MAX - 1, &[])));
}

#[test]
fn commits_in_every_order_end_alike() {
    let slots: [(u64, &[(u8, u64)]); 3] =
        [(1, &[(1, 4), (2, 1)]), (2, &[(1, 3), (2, 6)]), (3, &[(1, 5), (3, 2)])];
    let orders = [[0, 1, 2], [0, 2, 1], [1, 0, 2], [1, 2, 0], [2, 0, 1], [2, 1, 0]];
    for order in orders {
        let mut s = state();
        for i in order {
            Committer::process_commit_message(&mut s, commit(slots[i].0, slots[i].1));
        }
        assert_eq!((s.last_executed_slot, Committer::pending_slots(&s)), (3, 0));
        let heights: Vec<u64> =
            (1..=3).map(|n| *s.last_executed_heights.get(&name(n)).unwrap()).collect();
        assert_eq!(heights, vec![5, 6, 2]);
    }
}

/// What an update can change: the heights, the last round, and who has a certificate at which height.
fn chains(s: &State) -> (Vec<(u8, u64)>, u64, Vec<(u64, Vec<u8>)>) {
    let heights = (0..s.last_executed_heights.len())
        .map(|i| (s.last_executed_heights.key_at(i).0[0], *s.last_executed_heights.value_at(i)))
        .collect();
    let dag = (0..s.dag.len())
        .map(|i| {
            let at = s.dag.value_at(i);
            (s.dag.key_at(i), (0..at.len()).map(|j| at.key_at(j).0[0]).collect())
        })
        .collect();
    (heights, s.last_committed_round, dag)
}

#[test]
fn updates_commute_and_repeat_without_effect() {
    let (a, b) = (certificate(1, 7), certificate(2, 4));
    let mut ab = state_with(&[3, 7, 9]);
    ab.update(&a, 5);
    ab.update(&b, 5);
    let expected = (
        vec![(1, 7), (2, 4), (3, 0)],
        7,
        vec![(7, vec![1]), (9, vec![1])],
    );
    assert_eq!(chains(&ab), expected);
    let mut ba = state_with(&[3, 7, 9]);
    ba.update(&b, 5);
    ba.update(&a, 5);
    assert_eq!(chains(&ba), expected);
    ba.update(&a, 5);
    assert_eq!(chains(&ba), expected);
}
