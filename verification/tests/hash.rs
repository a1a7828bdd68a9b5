use lib::try_alloc::hash::hasher::{HashKey, KeyHasher, RollingKeyHasher};
use lib::try_alloc::hash::map::HashMap;
use lib::try_alloc::hash::seed::{SeedSupplier, SimpleGlobalSeed};
use lib::try_alloc::hash::set::HashSet;

#[test]
fn rolling_hash_values() {
    let h = RollingKeyHasher;
    assert_eq!(h.hash_with_seed(&1u64, 1), 27512614111);
    assert_eq!(h.hash_with_seed(&0x0102030405060708u64, 12345), 2416043057342727145);
    assert_eq!(h.hash_with_seed(&7u32, 3), 625611);
    assert_eq!(h.hash_with_seed(&0u64, 99), 0);
}

#[test]
fn rolling_hash_depends_on_seed() {
    let h = RollingKeyHasher;
    assert_ne!(h.hash_with_seed(&5u64, 1), h.hash_with_seed(&5u64, 2));
}

#[test]
fn key_bytes_little_endian() {
    assert_eq!(0x0102u64.key_bytes(), vec![2, 1, 0, 0, 0, 0, 0, 0]);
    assert_eq!(0x0102u32.key_bytes(), vec![2, 1, 0, 0]);
    assert!(3u64.key_eq(&3));
    assert!(!3u64.key_eq(&4));
}

#[test]
fn seed_supplier_scrambles_a_counter() {
    let mut s = SimpleGlobalSeed::new();
    assert_eq!(s.gen_seed(), 0);
    assert_eq!(s.gen_seed(), 8193);
    assert_eq!(s.gen_seed(), 16386);
}

#[test]
fn hash_map_new_is_empty() {
    let mut m: HashMap<u64, u32, RollingKeyHasher, SimpleGlobalSeed> =
        HashMap::new(RollingKeyHasher, SimpleGlobalSeed::new());
    assert!(m.get(&1).is_none());
    assert!(m.remove(&1).is_none());
}

#[test]
fn hash_set_new_is_empty() {
    let mut s: HashSet<u64, RollingKeyHasher, SimpleGlobalSeed> =
        HashSet::new(RollingKeyHasher, SimpleGlobalSeed::new());
    assert!(!s.contains(&1));
    assert!(!s.remove(&1));
}

#[test]
fn hash_map_insert_get_remove_after_reserve() {
    let mut m: HashMap<u64, u32, RollingKeyHasher, SimpleGlobalSeed> =
        HashMap::new(RollingKeyHasher, SimpleGlobalSeed::new());
    assert!(m.reserve(8).is_ok());
    assert_eq!(m.insert(1, 10), Ok(None));
    assert_eq!(m.insert(2, 20), Ok(None));
    assert_eq!(m.insert(1, 11), Ok(Some(10)));
    assert_eq!(m.get(&1), Some(&11));
    assert_eq!(m.get(&2), Some(&20));
    assert_eq!(m.get(&3), None);
    assert_eq!(m.remove(&2), Some(20));
    assert_eq!(m.get(&2), None);
    for k in 10..40u64 {
        assert_eq!(m.insert(k, k as u32), Ok(None));
    }
    for k in 10..40u64 {
        assert_eq!(m.get(&k), Some(&(k as u32)));
    }
    assert_eq!(m.get(&1), Some(&11));
}

#[test]
fn hash_set_insert_contains_after_reserve() {
    let mut s: HashSet<u64, RollingKeyHasher, SimpleGlobalSeed> =
        HashSet::new(RollingKeyHasher, SimpleGlobalSeed::new());
    assert!(s.reserve(4).is_ok());
    assert!(s.insert(5).is_ok());
    assert!(s.insert(5).is_ok());
    assert!(s.contains(&5));
    assert!(!s.contains(&6));
    assert!(s.remove(&5));
    assert!(!s.contains(&5));
}
