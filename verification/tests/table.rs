use sailfish::ident::{Digest, PublicKey};
use sailfish::key::{Key, Rank};
use sailfish::table::{KeySet, Table};

#[test]
fn a_table_keeps_its_keys_in_order() {
    let mut t: Table<u64, &str> = Table::new();
    assert!(t.is_empty());
    assert_eq!(t.insert(5, "five"), None);
    assert_eq!(t.insert(1, "one"), None);
    assert_eq!(t.insert(3, "three"), None);
    assert_eq!(t.insert(3, "drei"), Some("three"));
    assert_eq!(t.len(), 3);
    assert_eq!((t.key_at(0), t.key_at(1), t.key_at(2)), (1, 3, 5));
    assert_eq!(*t.value_at(1), "drei");
    assert_eq!(t.get(&5), Some(&"five"));
    assert_eq!(t.get(&4), None);
    assert_eq!(t.remove(&4), None);
    assert_eq!(t.remove(&1), Some("one"));
    assert!(!t.contains_key(&1));
    t.clear();
    assert_eq!(t.len(), 0);
}

#[test]
fn a_set_tells_whether_it_changed() {
    let mut s: KeySet<u32> = KeySet::new();
    assert!(s.insert(4));
    assert!(!s.insert(4));
    assert!(s.remove(&4));
    assert!(!s.remove(&4));
    let mut t: Table<u32, ()> = Table::new();
    t.insert(1, ());
    t.insert(2, ());
    s.insert(2);
    s.insert_keys_of(&t);
    assert_eq!(s.len(), 2);
    assert!(s.contains(&1));
    s.clear();
    assert_eq!(s.len(), 0);
}

#[test]
fn digests_are_ordered_byte_by_byte() {
    let mut a = [0u8; 32];
    let mut b = [0u8; 32];
    a[31] = 1;
    b[0] = 1;
    assert_eq!(Digest(a).rank(&Digest(b)), Rank::Below);
    assert_eq!(Digest(b).rank(&Digest(a)), Rank::Above);
    assert_eq!(PublicKey(a).rank(&PublicKey(a)), Rank::Same);
}
