use sailfish::ident::{Address, Digest, PublicKey};
use sailfish::primary::primary::WorkerPrimaryMessage;
use sailfish::worker::batch_maker::BatchMaker;
use sailfish::worker::primary_connector::{
    NetworkHealth, Percentiles, PrimaryConnector, SendSpeed,
};
use sailfish::worker::processor::{digest_of_hash, Processor, SLOW_STORE_WRITE_MS};
use sailfish::worker::stats::LatencyStats;

fn peer(n: u8) -> (PublicKey, Address) {
    (PublicKey([n; 32]), Address::V4 { ip: 1, port: n as u16 })
}

fn maker() -> BatchMaker {
    BatchMaker::new(10, 200, vec![peer(2), peer(3)])
}

const ABC: [u8; 32] = [
    0xdd, 0xaf, 0x35, 0xa1, 0x93, 0x61, 0x7a, 0xba, 0xcc, 0x41, 0x73, 0x49, 0xae, 0x20, 0x41,
    0x31, 0x12, 0xe6, 0xfa, 0x4e, 0x89, 0xa9, 0x7e, 0xa2, 0x0a, 0x9e, 0xee, 0xe6, 0x4b, 0x55,
    0xd3, 0x9a,
];

#[test]
fn a_batch_is_named_by_its_hash() {
    assert_eq!(Processor::digest(&b"abc".to_vec()), Digest(ABC));
    assert!(Processor::digest(&b"abd".to_vec()) != Digest(ABC));
}

#[test]
fn a_digest_is_the_first_bytes_of_a_hash() {
    let hash: Vec<u8> = (0..64).collect();
    let d = digest_of_hash(&hash);
    assert_eq!(d.0[0], 0);
    assert_eq!(d.0[31], 31);
}

#[test]
fn own_batches_are_reported_with_their_time() {
    let p = Processor::process(4, true, &b"abc".to_vec(), Some(99), 7);
    assert_eq!(p.digest, Digest(ABC));
    match p.message {
        WorkerPrimaryMessage::OurBatch(d, id, ms, size, count) => {
            assert_eq!((d, id, ms, size, count), (Digest(ABC), 4, 99, 3, 7))
        }
        _ => panic!("not ours"),
    }
    match Processor::process(4, true, &b"abc".to_vec(), None, 7).message {
        WorkerPrimaryMessage::OurBatch(_, _, ms, _, _) => assert_eq!(ms, 0),
        _ => panic!("not ours"),
    }
}

#[test]
fn others_batches_are_reported_by_size() {
    match Processor::process(4, false, &b"abc".to_vec(), Some(99), 7).message {
        WorkerPrimaryMessage::OthersBatch(d, id, size) => {
            assert_eq!((d, id, size), (Digest(ABC), 4, 3))
        }
        _ => panic!("ours"),
    }
    match Processor::report_batch(1, false, Digest(ABC), 8, None, 0) {
        WorkerPrimaryMessage::OthersBatch(_, id, size) => assert_eq!((id, size), (1, 8)),
        _ => panic!("ours"),
    }
}

#[test]
fn a_batch_is_sealed_when_it_is_large_enough() {
    let mut m = maker();
    assert!(m.on_transaction(vec![1; 4], 100).is_none());
    assert!(m.on_transaction(vec![2; 5], 110).is_none());
    assert_eq!(m.current_batch_size, 9);
    let b = m.on_transaction(vec![3; 1], 120).unwrap();
    assert_eq!(b.transactions, vec![vec![1; 4], vec![2; 5], vec![3; 1]]);
    assert_eq!((b.size, b.first_tx_submit_ms), (10, Some(100)));
    assert_eq!(b.addresses, vec![peer(2).1, peer(3).1]);
    assert_eq!((m.current_batch.len(), m.current_batch_size, m.first_tx_submit_ms), (0, 0, None));
    assert!(m.on_transaction(vec![4; 1], 130).is_none());
    assert_eq!(m.first_tx_submit_ms, Some(130));
}

#[test]
fn the_timer_seals_what_waits() {
    let mut m = maker();
    assert!(m.on_timer().is_none());
    m.on_transaction(vec![1; 4], 100);
    let b = m.on_timer().unwrap();
    assert_eq!((b.transactions.len(), b.size), (1, 4));
    assert!(m.on_timer().is_none());
}

#[test]
fn an_empty_transaction_waits_like_any_other() {
    let mut m = maker();
    assert!(m.on_transaction(vec![], 100).is_none());
    let b = m.seal();
    assert_eq!((b.transactions, b.size, b.first_tx_submit_ms), (vec![vec![]], 0, Some(100)));
}

#[test]
fn samples_are_numbered_by_their_eight_bytes() {
    let batch = vec![
        vec![0, 0, 0, 0, 0, 0, 0, 1, 2, 99],
        vec![1, 0, 0, 0, 0, 0, 0, 0, 5],
        vec![0, 1],
        vec![0, 255, 255, 255, 255, 255, 255, 255, 255],
        vec![0, 0, 0, 0, 0, 0, 0, 0, 7],
    ];
    assert_eq!(BatchMaker::sample_ids(&batch), vec![258, u64::MAX, 7]);
}

#[test]
fn slow_operations_are_counted() {
    let mut s = LatencyStats::new();
    assert!(!s.record(10, SLOW_STORE_WRITE_MS));
    assert!(s.record(11, SLOW_STORE_WRITE_MS));
    assert_eq!(s, LatencyStats { count: 2, total_ms: 21, slow: 1 });
}

#[test]
fn sends_are_judged_by_their_time() {
    let mut c = PrimaryConnector::new();
    assert_eq!(c.on_sent(10), SendSpeed::Normal);
    assert_eq!(c.on_sent(11), SendSpeed::Slow);
    assert_eq!(c.on_sent(50), SendSpeed::Slow);
    assert_eq!(c.on_sent(51), SendSpeed::Severe);
    assert_eq!(c.stats, LatencyStats { count: 4, total_ms: 122, slow: 3 });
}

#[test]
fn percentiles_are_places_in_order() {
    let mut c = PrimaryConnector::new();
    for ms in [9, 3, 7, 1, 5] {
        c.on_sent(ms);
    }
    assert_eq!(c.percentiles(2, 4, 4), Percentiles { p50: 5, p95: 9, p99: 9, max: 9 });
    assert_eq!(c.percentiles(0, 5, 9), Percentiles { p50: 1, p95: 0, p99: 0, max: 9 });
    assert_eq!(c.latencies, vec![9, 3, 7, 1, 5]);
    c.reset();
    assert_eq!(c.percentiles(0, 0, 0), Percentiles { p50: 0, p95: 0, p99: 0, max: 0 });
    assert_eq!(c.stats.count, 0);
}

#[test]
fn health_follows_the_percentile() {
    assert_eq!(PrimaryConnector::health(20), NetworkHealth::Good);
    assert_eq!(PrimaryConnector::health(21), NetworkHealth::Degraded);
    assert_eq!(PrimaryConnector::health(50), NetworkHealth::Degraded);
    assert_eq!(PrimaryConnector::health(51), NetworkHealth::SeverelyDegraded);
}
