use sailfish::ident::{Digest, PublicKey};
use sailfish::messages::{Certificate, ConsensusMessage, Instance};
use sailfish::primary::proposer::{Proposer, MAX_HEADER_DIGESTS};

fn digest(n: u8) -> Digest {
    Digest([n; 32])
}

fn name(n: u8) -> PublicKey {
    PublicKey([n; 32])
}

fn certificate(height: u64) -> Certificate {
    Certificate {
        author: name(1),
        header_digest: digest(height as u8),
        height,
        digest: digest(100 + height as u8),
        votes: vec![],
    }
}

fn instance(d: u8) -> Instance {
    Instance { slot: 1, view: 1, digest: digest(d), proposal_digest: digest(d), proposals: vec![] }
}

fn proposer() -> Proposer {
    Proposer::new(name(1), 64, 200, certificate(0))
}

#[test]
fn enough_batches_make_a_header() {
    let mut p = proposer();
    assert!(p.try_propose(false).is_none());
    p.on_digest(digest(2), 0);
    assert_eq!(p.payload_size, 32);
    assert!(p.try_propose(false).is_none());
    p.on_digest(digest(1), 3);
    let d = p.try_propose(false).unwrap();
    assert_eq!((d.author, d.height, d.special), (name(1), 0, false));
    assert_eq!(d.payload.len(), 2);
    assert_eq!((d.payload.key_at(0), *d.payload.value_at(0)), (digest(1), 3));
    assert_eq!((d.payload.key_at(1), *d.payload.value_at(1)), (digest(2), 0));
    assert_eq!(d.parent_cert.as_ref().unwrap().height, 0);
    assert_eq!((p.digests.len(), p.payload_size), (0, 0));
    assert!(p.last_parent.is_none());
}

#[test]
fn the_timer_makes_a_header_with_what_there_is() {
    let mut p = proposer();
    let d = p.try_propose(true).unwrap();
    assert_eq!(d.payload.len(), 0);
    // Without a new parent there is no other.
    p.on_digest(digest(1), 0);
    assert!(p.try_propose(true).is_none());
}

#[test]
fn a_parent_raises_the_height() {
    let mut p = proposer();
    p.on_parent(certificate(0));
    assert_eq!(p.height, 1);
    p.on_parent(certificate(0));
    assert_eq!(p.height, 1);
    assert_eq!(p.last_parent.as_ref().unwrap().height, 0);
    p.on_parent(certificate(1));
    assert_eq!(p.height, 2);
    let d = p.try_propose(true).unwrap();
    assert_eq!((d.height, d.parent_cert.as_ref().unwrap().height), (2, 1));
}

#[test]
fn headers_are_capped_and_nothing_is_lost() {
    let mut p = proposer();
    for i in 0..1_250u32 {
        let mut bytes = [0u8; 32];
        bytes[0] = (i / 256) as u8;
        bytes[1] = (i % 256) as u8;
        p.on_digest(Digest(bytes), i);
    }
    let d = p.make_header();
    assert_eq!(d.payload.len(), MAX_HEADER_DIGESTS);
    assert_eq!((p.digests.len(), p.payload_size), (250, 8_000));
    assert_eq!(p.digests[0].1, 1_000);
    p.on_parent(certificate(0));
    let d = p.try_propose(false).unwrap();
    assert_eq!(d.payload.len(), 250);
}

#[test]
fn of_two_entries_for_a_batch_the_later_counts() {
    let mut p = proposer();
    p.on_digest(digest(1), 0);
    p.on_digest(digest(1), 5);
    let d = p.try_propose(false).unwrap();
    assert_eq!(d.payload.len(), 1);
    assert_eq!(*d.payload.get(&digest(1)).unwrap(), 5);
}

#[test]
fn consensus_messages_ride_along() {
    let mut p = proposer();
    p.on_instance(ConsensusMessage::Prepare(instance(1)));
    p.on_instance(ConsensusMessage::Confirm(instance(2)));
    p.on_instance(ConsensusMessage::Commit(instance(3)));
    assert_eq!(p.num_active_instances, 2);
    assert!(!p.is_special);
    let d = p.try_propose(true).unwrap();
    assert_eq!((d.consensus_instances.len(), d.num_active_instances), (3, 2));
    assert_eq!((p.consensus_instances.len(), p.num_active_instances), (0, 0));
}

#[test]
fn with_the_rule_headers_are_special() {
    let mut p = proposer();
    p.use_special_rule = true;
    p.on_instance(ConsensusMessage::Commit(instance(3)));
    assert!(!p.is_special);
    p.on_instance(ConsensusMessage::Prepare(instance(1)));
    assert!(p.is_special);
    assert!(p.try_propose(true).unwrap().special);
}

#[test]
fn a_special_header_needs_no_parent() {
    let mut p = proposer();
    p.use_special_rule = true;
    p.on_instance(ConsensusMessage::Prepare(instance(1)));
    assert!(p.try_propose(true).unwrap().parent_cert.is_some());
    // The parent is used up, and the next header does without.
    assert!(p.last_parent.is_none());
    assert!(p.try_propose(false).is_none());
    p.on_digest(digest(1), 0);
    p.on_digest(digest(2), 0);
    let d = p.try_propose(false).unwrap();
    assert!(d.special);
    assert!(d.parent_cert.is_none());
    assert_eq!(d.payload.len(), 2);
    assert!(p.make_header().parent_cert.is_none());
}
