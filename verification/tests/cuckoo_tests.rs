use shortener::cuckoo_filter::cuckoo_error::CuckooError;
use shortener::cuckoo_filter::cuckoo_filter::CuckooFilter;

#[test]
fn empty_filter_holds_nothing() {
    let f: CuckooFilter<4, 12> = CuckooFilter::new(16);
    assert!(!f.contains(&"https://example.com"));
    assert!(!f.contains(&42u64));
}

#[test]
fn inserted_item_is_found() {
    let mut f: CuckooFilter<4, 12> = CuckooFilter::new(16);
    assert!(f.insert(&"abc"));
    assert!(f.contains(&"abc"));
}

#[test]
fn delete_removes_inserted_item() {
    let mut f: CuckooFilter<4, 12> = CuckooFilter::new(16);
    assert!(f.insert(&"abc"));
    assert!(f.delete(&"abc"));
    assert!(!f.contains(&"abc"));
    assert!(!f.delete(&"abc"));
}

#[test]
fn delete_of_absent_item_reports_false() {
    let mut f: CuckooFilter<2, 8> = CuckooFilter::new(8);
    assert!(!f.delete(&"never inserted"));
}

#[test]
fn many_inserts_are_all_found() {
    let mut f: CuckooFilter<4, 16> = CuckooFilter::new(64);
    for i in 0..100u32 {
        assert!(f.insert(&i));
    }
    for i in 0..100u32 {
        assert!(f.contains(&i));
    }
}

#[test]
fn hashed_operations_follow_the_bucket_layout() {
    let mut f: CuckooFilter<2, 4> = CuckooFilter::new(1024);
    // h = 0x015: fingerprint 5, home bucket 0x015; ht = 0x100: other bucket 0x115.
    let h: u64 = 0x015;
    let ht: u64 = 0x100;
    assert!(!f.contains_hashed(h, ht));
    assert!(f.place_hashed(h, ht));
    assert!(f.contains_hashed(h, ht));
    // The same fingerprint at home in bucket 0x115 finds it through its other bucket.
    assert!(f.contains_hashed(0x115, ht));
    // A different fingerprint in the same buckets is not held.
    assert!(!f.contains_hashed(0x016, ht));
    assert!(f.delete_hashed(h, ht));
    assert!(!f.contains_hashed(h, ht));
}

#[test]
fn place_fills_home_then_other_bucket_then_refuses() {
    let mut f: CuckooFilter<1, 8> = CuckooFilter::new(4);
    // fingerprint 1, home bucket 1, other bucket 1 ^ 2 == 3.
    assert!(f.place_hashed(0x01, 2));
    assert!(f.place_hashed(0x01, 2));
    assert!(!f.place_hashed(0x01, 2));
    assert!(f.delete_hashed(0x01, 2));
    assert!(f.delete_hashed(0x01, 2));
    assert!(!f.delete_hashed(0x01, 2));
}

#[test]
fn zero_fingerprint_is_stored_as_one() {
    let mut f: CuckooFilter<2, 8> = CuckooFilter::new(8);
    // low 8 bits 0 give fingerprint 1, like a hash whose low byte is 1.
    assert!(f.place_hashed(0x0200, 0));
    // fingerprint 1 at home in bucket 1, whose other bucket (ht = 1) is bucket 0.
    assert!(f.contains_hashed(0x0201, 1));
}

#[test]
fn bare_filter_is_built_empty() {
    let _f: shortener::cuckoo_filter::CuckooFilter<4> = shortener::cuckoo_filter::CuckooFilter::new(32);
}

#[test]
fn error_messages() {
    assert_eq!(CuckooError::InvalidCapacity.message(), "invalid capacity (must be > 0)");
    assert_eq!(CuckooError::FilterFull.message(), "filter is full");
    assert_eq!(CuckooError::TooLarge.message(), "capacity too large to allocate table");
}

#[test]
fn full_filter_refuses_after_evictions() {
    // two buckets of one slot: at most two fingerprints fit.
    let mut f: CuckooFilter<1, 16> = CuckooFilter::new(2);
    let stored = (0..10u32).filter(|i| f.insert(i)).count();
    assert!(stored <= 2);
    assert!(!f.insert(&1000u32) || stored < 2);
}

#[test]
fn one_bucket_takes_b_fingerprints_then_refuses() {
    let mut f: CuckooFilter<4, 12> = CuckooFilter::new(1);
    assert!(f.insert(&1u32));
    assert!(f.insert(&2u32));
    assert!(f.insert(&3u32));
    assert!(f.insert(&4u32));
    for i in 1..=4u32 {
        assert!(f.contains(&i));
    }
    assert!(!f.insert(&5u32));
}

#[test]
fn insert_hashed_evicts_to_the_other_bucket() {
    // two buckets of one slot; fingerprints hash to 1, so the other bucket of 0 is 1.
    let mut f: CuckooFilter<1, 8> = CuckooFilter::new(2);
    let hash_one = |_t: u16| -> u64 { 1 };
    let slots = vec![0usize; 500];
    // fingerprint 0x10 at home in bucket 0
    assert!(f.insert_hashed(0x10, 1, true, &slots, &hash_one));
    assert!(f.contains_hashed(0x10, 1));
    // fingerprint 0x20 also at home in bucket 0: it is placed in bucket 1
    assert!(f.insert_hashed(0x20, 1, true, &slots, &hash_one));
    assert!(f.contains_hashed(0x20, 1));
    // a third fingerprint finds no room; evictions cycle between the two
    // buckets and after 500 rounds the insert fails, losing one fingerprint.
    assert!(!f.insert_hashed(0x30, 1, true, &slots, &hash_one));
    let held = [0x10u64, 0x20, 0x30].iter().filter(|h| f.contains_hashed(**h, 1)).count();
    assert_eq!(held, 2);
}

#[test]
fn insert_hashed_kicks_into_a_free_other_bucket() {
    // four buckets of one slot; every fingerprint hashes to 2.
    let mut f: CuckooFilter<1, 8> = CuckooFilter::new(4);
    let hash_two = |_t: u16| -> u64 { 2 };
    let slots = vec![0usize; 500];
    // 0x10 at home in bucket 0, then 0x20 (home 0) goes to bucket 2.
    assert!(f.insert_hashed(0x10, 2, true, &slots, &hash_two));
    assert!(f.insert_hashed(0x20, 2, true, &slots, &hash_two));
    // 0x24 (home 0x24 & 3 == 0): both of its buckets are full; it
    // evicts 0x10 from bucket 0, which moves to bucket 2, evicting 0x20,
    // which moves back to bucket 0, and so on until 500 rounds end.
    assert!(!f.insert_hashed(0x24, 2, true, &slots, &hash_two));
    // 0x11 (home 1) has room in bucket 1.
    assert!(f.insert_hashed(0x11, 2, true, &slots, &hash_two));
    assert!(f.contains_hashed(0x11, 2));
}
