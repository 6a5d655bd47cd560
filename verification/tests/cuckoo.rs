use dakv_cuckoo::cuckoo_filter::gen_size;
use dakv_cuckoo::cuckoo_filter::trailing_zeros;
use dakv_cuckoo::CuckooError;
use dakv_cuckoo::CuckooFilter;

#[test]
fn test_trailing_zeros() {
    assert_eq!(trailing_zeros(1 << 24), 24);
    assert_eq!(trailing_zeros(100), 2);
    assert_eq!(trailing_zeros(64), 6);
    assert_eq!(trailing_zeros(0), 64);
    assert_eq!(trailing_zeros(1), 0);
    assert_eq!(trailing_zeros(3), 0);
    assert_eq!(trailing_zeros(8), 3);
}

#[test]
fn test_gen_size() {
    assert_eq!(gen_size(100), 32);
    assert_eq!(gen_size(64), 32);
}

#[test]
fn test_add() {
    let mut cf = CuckooFilter::new(100);
    for _ in 0..8 {
        let result = cf.add(b"test");
        assert!(result.is_ok());
    }
    assert_eq!(cf.size(), 8);
    for _ in 0..8 {
        let result = cf.add(b"test");
        assert!(!result.is_ok());
    }
    assert_eq!(cf.size(), 8);
}

#[test]
fn test_delete() {
    let mut cf = CuckooFilter::default();
    let _ = cf.add(b"test");
    assert_eq!(cf.size(), 1);
    assert!(cf.contains(b"test"));
    assert!(cf.delete(b"test"));
    assert_eq!(cf.size(), 0);
    assert!(!cf.contains(b"test"));
}

// A key added successfully immediately tests as contained.
#[test]
fn test_add_then_contains() {
    let mut cf = CuckooFilter::new(100);
    assert!(cf.add(b"alpha").is_ok());
    assert!(cf.contains(b"alpha"));
    assert!(cf.add(b"").is_ok());
    assert!(cf.contains(b""));
}

// Add, delete, add again: the delete frees a slot, so the second add
// must succeed and restore membership.
#[test]
fn test_round_trip() {
    let mut cf = CuckooFilter::new(100);
    assert!(cf.add(b"round").is_ok());
    assert!(cf.delete(b"round"));
    assert!(cf.add(b"round").is_ok());
    assert!(cf.contains(b"round"));
    assert_eq!(cf.size(), 1);
}

// The counter equals successful adds minus successful deletes.
#[test]
fn test_size_tracks_adds_and_deletes() {
    let mut cf = CuckooFilter::new(100);
    let keys: [&[u8]; 5] = [b"one", b"two", b"three", b"four", b"five"];
    let mut added: usize = 0;
    for k in keys.iter() {
        if cf.add(k).is_ok() {
            added += 1;
        }
    }
    assert_eq!(added, 5);
    assert_eq!(cf.size(), 5);
    assert!(cf.delete(b"two"));
    assert!(cf.delete(b"four"));
    assert_eq!(cf.size(), 3);
    // Deleting an absent key is a no-op and does not touch the count.
    assert!(!cf.delete(b"absent"));
    assert_eq!(cf.size(), 3);
}

// An empty filter answers false for every key.
#[test]
fn test_empty_filter_has_no_positives() {
    let cf = CuckooFilter::new(100);
    assert_eq!(cf.size(), 0);
    for i in 0..200 {
        let key = format!("key{}", i);
        assert!(!cf.contains(key.as_bytes()));
    }
}

// A filter with a single bucket fills up after four copies of one
// key; the fifth add has nowhere to kick to and reports the space
// error, leaving the count unchanged.
#[test]
fn test_not_enough_space_error() {
    let mut cf = CuckooFilter::with_capacity(1);
    for _ in 0..4 {
        assert!(cf.add(b"same").is_ok());
    }
    assert_eq!(cf.size(), 4);
    let r = cf.add(b"same");
    assert!(matches!(r, Err(CuckooError::NotEnoughSpace)));
    assert_eq!(cf.size(), 4);
}

// A zero capacity request is floored to one bucket and still works.
#[test]
fn test_zero_capacity_floored() {
    let mut cf = CuckooFilter::with_capacity(0);
    assert_eq!(cf.size(), 0);
    assert!(cf.add(b"x").is_ok());
    assert!(cf.contains(b"x"));
    assert!(cf.delete(b"x"));
    assert_eq!(cf.size(), 0);
}

// Forces the eviction path: with four buckets, the key "a" maps to
// buckets 0 and 2; the eight filler keys fill exactly those two
// buckets, and each filler's own alternate bucket (1 or 3) is free.
// Adding "a" then must evict one filler, succeed, raise the count by
// exactly one, and leave every earlier key still contained.
#[test]
fn test_eviction_keeps_all_keys() {
    let mut cf = CuckooFilter::with_capacity(4);
    let fillers: [&[u8]; 8] = [b"ad", b"ah", b"al", b"ap", b"ab", b"af", b"aj", b"an"];
    for k in fillers.iter() {
        assert!(cf.add(k).is_ok());
    }
    assert_eq!(cf.size(), 8);
    assert!(cf.add(b"a").is_ok());
    assert_eq!(cf.size(), 9);
    assert!(cf.contains(b"a"));
    for k in fillers.iter() {
        assert!(cf.contains(k));
    }
}
