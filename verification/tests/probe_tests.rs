use elastic_hash::hashing::gcd;
use elastic_hash::SubArray;

#[test]
fn t_probe_step_coprime_to_capacity() {
    // The derived probe step must be coprime to the capacity for every key,
    // so that the probe sequence covers the whole sub-array. Sample the
    // cascade sizes of a ~1112-slot table and a band of small capacities.
    let caps: Vec<usize> = vec![
        1, 2, 3, 4, 5, 6, 7, 8, 9, 10, 11, 12, 13, 14, 15, 16, 17, 24, 30, 35, 36, 48, 64, 70,
        100, 128, 139, 210, 278, 556, 1112,
    ];
    for &cap in &caps {
        let sub = SubArray::<u64>::new(cap);
        for key in 0u64..200 {
            let (_h1, h2) = sub.hash_key(key * 2_654_435_761 + 1);
            assert_eq!(
                gcd(h2, cap as u64),
                1,
                "step {} shares a factor with capacity {}",
                h2,
                cap
            );
        }
    }
}

#[test]
fn t_hash_params_are_deterministic() {
    let a = SubArray::<u64>::new(17);
    let b = SubArray::<u64>::new(17);
    for key in 0u64..50 {
        assert_eq!(a.hash_key(key), b.hash_key(key));
    }
}

#[test]
fn t_hash_params_depend_on_capacity() {
    // Identical keys should probe independently in differently sized
    // sub-arrays; the mixed hash is seeded by the capacity.
    let a = SubArray::<u64>::new(64);
    let b = SubArray::<u64>::new(128);
    let mut differing: usize = 0;
    for key in 0u64..100 {
        if a.hash_key(key).0 != b.hash_key(key).0 {
            differing += 1;
        }
    }
    assert!(differing > 90);
}

#[test]
fn t_sub_array_zero_capacity_is_inert() {
    let mut sub = SubArray::<u64>::new(0);
    assert_eq!(sub.load_factor(), 1_000_000);
    assert_eq!(sub.epsilon(), 0);
    assert_eq!(sub.insert_probe(1, 10, 5, true), (false, 0, Some(10)));
    assert_eq!(sub.get(1), None);
}

#[test]
fn t_sub_array_bounded_and_forced_probes() {
    let mut sub = SubArray::<u64>::new(4);
    // A bounded attempt with no probe budget inspects nothing and fails.
    assert_eq!(sub.insert_probe(1, 10, 0, false), (false, 0, Some(10)));
    // A forced attempt walks the whole array and must find an empty slot.
    let (ok, probes, back) = sub.insert_probe(1, 10, 0, true);
    assert!(ok);
    assert!(probes >= 1 && probes <= 4);
    assert_eq!(back, None);
    assert_eq!(sub.get(1), Some(&10));
    // Overwriting the same key keeps the occupied count at one.
    let (ok2, _probes2, _back2) = sub.insert_probe(1, 11, 0, true);
    assert!(ok2);
    assert_eq!(sub.count, 1);
    assert_eq!(sub.get(1), Some(&11));
    assert_eq!(sub.load_factor(), 250_000);
    assert_eq!(sub.epsilon(), 750_000);
}
