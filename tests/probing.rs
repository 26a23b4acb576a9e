use atom_hash::probing::{HashMap, HashMapErr};

#[test]
fn lib_test_1() {
    let mut map = HashMap::<u64, 1024>::new();

    let _ = map.insert(1337, 41);
    let _ = map.insert(1338, 0);
    let _ = map.insert(1, 1337);
    let _ = map.insert(1012312, 55);
    let _ = map.insert(11111, 999999);

    assert_eq!(41, *map.lookup(1337).unwrap());
    assert_eq!(0, *map.lookup(1338).unwrap());
    assert_eq!(1337, *map.lookup(1).unwrap());
    assert_eq!(55, *map.lookup(1012312).unwrap());
    assert_eq!(999999, *map.lookup(11111).unwrap());

    assert_eq!(map.entries(), 5);
}

/// Keys with one start slot end up probed into the slots after it.
#[test]
fn lib_test_2() {
    let mut map = HashMap::<String, 8>::new_with_seed(12311);

    let s1 = "first string".into();
    let s2 = "second string".into();
    let s3 = "third string".into();
    let s4 = "foasodfjiosdg".into();
    let s5 = "collision please?".into();
    let s6 = "fasdafzxvng".into();
    let s7 = "fixccccing".into();
    let s8 = "fi1231211111ng".into();

    let _ = map.insert(0, s1);
    let _ = map.insert(1, s2);
    let _ = map.insert(16, s3);
    let _ = map.insert(24, s4);
    let _ = map.insert(32, s5);
    let _ = map.insert(40, s6);
    let _ = map.insert(48, s7);
    let _ = map.insert(56, s8);

    assert_eq!(map.lookup(0).unwrap(), "first string");
    assert_eq!(map.lookup(32).unwrap(), "collision please?");

    assert_eq!(map.entries(), 8);
}

/// A second insert of a key is refused and reports the first value.
#[test]
fn lib_test_3() {
    let mut map = HashMap::<String, 8>::new_with_seed(12311);

    let s1 = "first string".into();
    let s2 = "second string".into();

    let _ = map.insert(0, s1);
    let v = map.insert(0, s2).err().unwrap();
    match v {
        HashMapErr::HashMapFull => assert!(false),
        HashMapErr::ExistentEntry(x) => {
            assert_eq!(x, "first string");
        }
    }

    assert_eq!(map.lookup(0).unwrap(), "first string");

    assert_eq!(map.entries(), 1);
}

#[test]
fn lib_test_4() {
    let mut map = HashMap::<u64, 8>::new_with_seed(12311);

    let _ = map.insert(0, 1337);
    let _ = map.insert(4, 2020);
    let _ = map.insert(8, 2023);
    let _ = map.insert(12, 1990);
}

#[test]
fn lib_test_5() {
    let mut map = HashMap::<u64, 8>::new_with_seed(12311);

    let _ = map.insert(0, 1337);
    let _ = map.insert(8, 2020);
    let _ = map.insert(16, 2023);
    let _ = map.insert(24, 1990);

    assert_eq!(*map.lookup(24).unwrap(), 1990);
    assert_eq!(*map.lookup(0).unwrap(), 1337);
    assert_eq!(*map.lookup(16).unwrap(), 2023);
    assert_eq!(*map.lookup(8).unwrap(), 2020);
}

#[test]
fn probing_overflow_is_refused_as_full() {
    let mut map = HashMap::<u64, 8>::new_with_seed(7);
    for k in 0..8usize {
        assert!(map.insert(k * 8, k as u64).is_ok());
    }
    assert_eq!(map.entries(), 8);
    match map.insert(1000, 1) {
        Err(HashMapErr::HashMapFull) => {}
        _ => assert!(false),
    }
    assert_eq!(map.entries(), 8);
    assert_eq!(map.lookup(1000), None);
    for k in 0..8usize {
        assert_eq!(*map.lookup(k * 8).unwrap(), k as u64);
    }
}

#[test]
fn probing_full_table_still_reports_present_key() {
    let mut map = HashMap::<u64, 4>::new();
    for k in 0..4usize {
        let _ = map.insert(k, 10 + k as u64);
    }
    match map.insert(3, 0) {
        Err(HashMapErr::ExistentEntry(v)) => assert_eq!(*v, 13),
        _ => assert!(false),
    }
}

#[test]
fn probing_displaced_key_is_not_stored_twice() {
    let mut map = HashMap::<u64, 8>::new_with_seed(12311);
    let _ = map.insert(0, 1);
    let _ = map.insert(8, 2);
    let _ = map.insert(16, 3);
    match map.insert(16, 4) {
        Err(HashMapErr::ExistentEntry(v)) => assert_eq!(*v, 3),
        _ => assert!(false),
    }
    assert_eq!(map.entries(), 3);
    assert_eq!(*map.lookup(16).unwrap(), 3);
}

#[test]
fn probing_insert_returns_stored_value() {
    let mut map = HashMap::<u64, 16>::new();
    match map.insert(99, 5) {
        Ok(v) => assert_eq!(*v, 5),
        Err(_) => assert!(false),
    }
    assert_eq!(map.lookup(98), None);
    assert_eq!(map.entries(), 1);
}

#[test]
fn probing_single_slot() {
    let mut map = HashMap::<u64, 1>::new_with_seed(3);
    assert!(map.insert(42, 1).is_ok());
    assert!(matches!(map.insert(43, 2), Err(HashMapErr::HashMapFull)));
    assert!(matches!(map.insert(42, 2), Err(HashMapErr::ExistentEntry(&1))));
    assert_eq!(map.entries(), 1);
}

#[test]
fn probing_same_key_only_first_succeeds() {
    let mut map = HashMap::<u64, 8>::new_with_seed(99);
    assert_eq!(map.insert(3, 100).ok().copied(), Some(100));
    for v in 0..20u64 {
        match map.insert(3, v) {
            Err(HashMapErr::ExistentEntry(x)) => assert_eq!(*x, 100),
            _ => assert!(false),
        }
    }
    assert_eq!(*map.lookup(3).unwrap(), 100);
    assert_eq!(map.entries(), 1);
}

#[test]
fn probing_slot_keys_hold_each_key_once() {
    let mut map = HashMap::<u64, 8>::new_with_seed(12311);
    for k in [0usize, 8, 16, 3] {
        let _ = map.insert(k, 1);
    }
    let slots = map.slot_keys();
    assert_eq!(slots.len(), 8);
    let mut keys: Vec<usize> = slots.iter().flatten().copied().collect();
    keys.sort();
    assert_eq!(keys, vec![0, 3, 8, 16]);
}

#[test]
fn probing_default_matches_tenth_draw_seed() {
    let mut rng = atom_hash::xorshift::Rng::new(1);
    for _ in 1..10 {
        rng.rand();
    }
    let seed = rng.rand();
    let mut a = HashMap::<u64, 16>::new();
    let mut b = HashMap::<u64, 16>::new_with_seed(seed);
    for k in [0usize, 16, 32, 5] {
        let _ = a.insert(k, 0);
        let _ = b.insert(k, 0);
    }
    assert_eq!(a.slot_keys(), b.slot_keys());
}
