use zsync_core::util::chaininghash::ChainingHash;
use zsync_core::util::checksumpair::ChecksumPair;

fn pair(weak: u32, strong: Vec<u8>, seq: u32) -> ChecksumPair {
    ChecksumPair {
        weak,
        strong,
        offset: (seq as u64) * 16,
        length: 16,
        seq,
    }
}

#[test]
fn insert_and_find_weak() {
    let mut t = ChainingHash::new(16);
    t.insert(&pair(0x01020304, vec![1, 1], 0));
    t.insert(&pair(0x0A0B0C0D, vec![2, 2], 1));
    let probe = pair(0x01020304, vec![], 9);
    let hit = t.find(&probe);
    assert!(hit.is_some());
    assert_eq!(hit.unwrap().seq, 0);
    let miss = t.find(&pair(0x01020305, vec![], 9));
    assert!(miss.is_none());
}

#[test]
fn find_match_needs_strong() {
    let mut t = ChainingHash::new(16);
    t.insert(&pair(0x01020304, vec![1, 1], 0));
    let wrong_strong = t.find_match(&pair(0x01020304, vec![9, 9], 0));
    assert!(wrong_strong.is_none());
    let exact = t.find_match(&pair(0x01020304, vec![1, 1], 0));
    assert!(exact.is_some());
    assert_eq!(exact.unwrap().seq, 0);
}

#[test]
fn ties_resolve_to_first_inserted() {
    let mut t = ChainingHash::new(16);
    t.insert(&pair(0x11223344, vec![5], 3));
    t.insert(&pair(0x11223344, vec![5], 7));
    let hit = t.find_match(&pair(0x11223344, vec![5], 0));
    assert_eq!(hit.unwrap().seq, 3);
}

#[test]
fn delete_removes_first_match_only() {
    let mut t = ChainingHash::new(16);
    t.insert(&pair(0x11223344, vec![5], 3));
    t.insert(&pair(0x11223344, vec![5], 7));
    t.delete(&pair(0x11223344, vec![5], 0));
    let hit = t.find_match(&pair(0x11223344, vec![5], 0));
    assert_eq!(hit.unwrap().seq, 7);
    t.delete(&pair(0x11223344, vec![5], 0));
    assert!(t.find_match(&pair(0x11223344, vec![5], 0)).is_none());
}

#[test]
fn delete_of_absent_key_is_no_op() {
    let mut t = ChainingHash::new(16);
    t.insert(&pair(0x11223344, vec![5], 3));
    t.delete(&pair(0x11223344, vec![6], 0));
    assert!(t.find_match(&pair(0x11223344, vec![5], 0)).is_some());
}

#[test]
fn hash_function_spreads_by_folded_weak() {
    let t = ChainingHash::new(16);
    let p = pair(0x12345678, vec![], 0);
    // folded key 0x46CE, 16 buckets
    assert_eq!(t.hash_function(&p), 0x46CE % 16);
}

#[test]
fn clone_preserves_contents() {
    let mut t = ChainingHash::new(16);
    t.insert(&pair(0x11223344, vec![5], 3));
    let mut c = t.clone();
    let hit = c.find_match(&pair(0x11223344, vec![5], 0));
    assert_eq!(hit.unwrap().seq, 3);
    // deleting from the clone leaves the original untouched
    c.delete(&pair(0x11223344, vec![5], 0));
    assert!(t.find_match(&pair(0x11223344, vec![5], 0)).is_some());
}
