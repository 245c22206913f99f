use sailfish::ident::{Digest, PublicKey};
use sailfish::primary::metrics::{
    gc_batch_timestamps, gc_batch_timestamps_at, now_ms, observe_batches_committed,
    observe_batches_executed, observe_header_poa, observe_slot_executed, record_batch_created,
    record_header_created, record_slot_committed, BatchTimestamps, HeaderTimestamps,
    SlotTimestamps,
};
use sailfish::table::Table;

fn digest(n: u8) -> Digest {
    Digest([n; 32])
}

#[test]
fn digest_size() {
    assert_eq!(digest(1).size(), 32);
    assert_eq!(digest(7).to_vec(), vec![7u8; 32]);
    assert!(PublicKey([1; 32]) != PublicKey([2; 32]));
}

#[test]
fn batch_latencies_of_noted_batches() {
    let mut t = BatchTimestamps { created: Table::new() };
    record_batch_created(&mut t, &digest(1), 100);
    record_batch_created(&mut t, &digest(2), 250);
    let batches = [digest(1), digest(9), digest(2)];
    assert_eq!(observe_batches_committed(&t, &batches, 300), vec![200, 50]);
    assert_eq!(observe_batches_executed(&t, &batches, 200), vec![100, 0]);
    assert_eq!(observe_batches_committed(&t, &[], 300), Vec::<u64>::new());
}

#[test]
fn later_note_replaces_earlier() {
    let mut t = BatchTimestamps { created: Table::new() };
    record_batch_created(&mut t, &digest(1), 100);
    record_batch_created(&mut t, &digest(1), 180);
    assert_eq!(observe_batches_executed(&t, &[digest(1)], 200), vec![20]);
}

#[test]
fn header_and_slot_are_observed_once() {
    let mut h = HeaderTimestamps { created: Table::new() };
    record_header_created(&mut h, &digest(3), 40);
    assert_eq!(observe_header_poa(&mut h, &digest(4), 90), None);
    assert_eq!(observe_header_poa(&mut h, &digest(3), 90), Some(50));
    assert_eq!(observe_header_poa(&mut h, &digest(3), 95), None);

    let mut s = SlotTimestamps { committed: Table::new() };
    record_slot_committed(&mut s, 5, 1_000);
    assert_eq!(observe_slot_executed(&mut s, 6, 1_500), None);
    assert_eq!(observe_slot_executed(&mut s, 5, 1_500), Some(500));
    assert_eq!(observe_slot_executed(&mut s, 5, 1_500), None);
}

#[test]
fn slot_executed_before_it_was_noted_takes_no_time() {
    let mut s = SlotTimestamps { committed: Table::new() };
    record_slot_committed(&mut s, 5, 1_000);
    assert_eq!(observe_slot_executed(&mut s, 5, 900), Some(0));
}

#[test]
fn old_batch_timestamps_are_dropped() {
    let mut t = BatchTimestamps { created: Table::new() };
    record_batch_created(&mut t, &digest(1), 899);
    record_batch_created(&mut t, &digest(2), 900);
    record_batch_created(&mut t, &digest(3), 901);
    gc_batch_timestamps_at(&mut t, 100, 1_000);
    assert_eq!(t.created.len(), 2);
    assert!(!t.created.contains_key(&digest(1)));
    assert!(t.created.contains_key(&digest(2)));
    gc_batch_timestamps_at(&mut t, 5_000, 1_000);
    assert_eq!(t.created.len(), 2);
}

#[test]
fn a_timestamp_of_the_greatest_age_is_kept() {
    let mut t = BatchTimestamps { created: Table::new() };
    record_batch_created(&mut t, &digest(1), 9_000);
    gc_batch_timestamps_at(&mut t, 1_000, 10_000);
    assert!(t.created.contains_key(&digest(1)));
    gc_batch_timestamps_at(&mut t, 1_000, 10_001);
    assert!(!t.created.contains_key(&digest(1)));
}

#[test]
fn nothing_is_old_before_the_greatest_age() {
    let mut t = BatchTimestamps { created: Table::new() };
    record_batch_created(&mut t, &digest(1), 0);
    gc_batch_timestamps_at(&mut t, 1_000, 999);
    assert!(t.created.contains_key(&digest(1)));
}

#[test]
fn the_clock_drops_what_is_old() {
    let before = now_ms();
    assert!(before > 1_600_000_000_000);
    let mut t = BatchTimestamps { created: Table::new() };
    record_batch_created(&mut t, &digest(1), 5);
    record_batch_created(&mut t, &digest(2), before + 1_000_000);
    gc_batch_timestamps(&mut t, 60_000);
    assert!(!t.created.contains_key(&digest(1)));
    assert!(t.created.contains_key(&digest(2)));
}
