use elastic_hash::ElasticTable;
use elastic_hash::TableError;
use elastic_hash::PPM;

#[test]
fn t_construction_validity() {
    assert!(matches!(
        ElasticTable::<u64>::new(100, 0),
        Err(TableError::InvalidParameter)
    ));
    assert!(matches!(
        ElasticTable::<u64>::new(100, PPM),
        Err(TableError::InvalidParameter)
    ));
    assert!(matches!(
        ElasticTable::<u64>::for_items(1000, 500_000),
        Err(TableError::InvalidParameter)
    ));
    assert!(matches!(
        ElasticTable::<u64>::for_items(1000, 990_000),
        Err(TableError::InvalidParameter)
    ));
    assert!(ElasticTable::<u64>::new(100, 50_000).is_ok());
    assert!(ElasticTable::<u64>::for_items(1000, 900_000).is_ok());
}

#[test]
fn t_zero_capacity_table() {
    let mut table = ElasticTable::<u64>::new(0, 50_000).unwrap();
    assert!(table.stats().is_empty());
    assert_eq!(table.get(1), None);
    assert_eq!(table.insert(1, 10), Err(TableError::InsertFailed));
}

#[test]
fn t_get_on_empty_table() {
    let table = ElasticTable::<u64>::new(64, 50_000).unwrap();
    assert_eq!(table.get(0), None);
    assert_eq!(table.get(123_456_789), None);
}

#[test]
fn t_first_insert_uses_one_probe() {
    let mut table = ElasticTable::<u64>::new(8, 100_000).unwrap();
    assert_eq!(table.insert(42, 4200), Ok(1));
}

#[test]
fn t_round_trip_and_update() {
    let mut table = ElasticTable::<u64>::new(8, 100_000).unwrap();
    for k in 0u64..5 {
        assert!(table.insert(k, k * 10).is_ok());
    }
    for k in 0u64..5 {
        assert_eq!(table.get(k), Some(&(k * 10)));
    }
    let before: usize = table.stats().iter().map(|t| t.1).sum();
    assert!(table.insert(3, 999).is_ok());
    assert_eq!(table.get(3), Some(&999));
    assert_eq!(table.get(2), Some(&20));
    let after: usize = table.stats().iter().map(|t| t.1).sum();
    assert_eq!(before, after);
}

#[test]
fn t_round_trip_string_values() {
    let mut table = ElasticTable::<String>::new(32, 50_000).unwrap();
    assert!(table.insert(7, String::from("seven")).is_ok());
    assert!(table.insert(11, String::from("eleven")).is_ok());
    assert_eq!(table.get(7).map(|s| s.as_str()), Some("seven"));
    assert_eq!(table.get(11).map(|s| s.as_str()), Some("eleven"));
    assert_eq!(table.get(13), None);
}

#[test]
fn t_capacity_pressure() {
    let mut table = ElasticTable::<u64>::new(2, 500_000).unwrap();
    assert!(table.insert(1, 10).is_ok());
    assert!(table.insert(2, 20).is_ok());
    // The last sub-array is always scanned exhaustively, so the third key
    // finds it full and the table reports exhaustion.
    assert_eq!(table.insert(3, 30), Err(TableError::CapacityExhausted));
}

#[test]
fn t_fill_behavior() {
    let mut table = ElasticTable::<u64>::for_items(1000, 900_000).unwrap();
    for k in 0u64..1000 {
        assert!(table.insert(k, k + 1).is_ok(), "insert of key {} failed", k);
    }
    for k in 0u64..1000 {
        assert_eq!(table.get(k), Some(&(k + 1)));
    }
    let total: usize = table.stats().iter().map(|t| t.1).sum();
    assert_eq!(total, 1000);
}

#[test]
fn t_for_items_capacity_partition() {
    // ceil(1000 / 0.9) = 1112 slots, split as 556 278 139 70 35 17 9 8.
    let table = ElasticTable::<u64>::for_items(1000, 900_000).unwrap();
    let stats = table.stats();
    assert_eq!(stats.len(), 8);
    for (i, entry) in stats.iter().enumerate() {
        assert_eq!(entry.0, i);
        assert_eq!(entry.1, 0);
        assert_eq!(entry.2, 0);
    }
}

#[test]
fn t_stats_consistency() {
    let mut table = ElasticTable::<u64>::new(8, 100_000).unwrap();
    for k in 0u64..5 {
        assert!(table.insert(k, k).is_ok());
    }
    let sum: usize = table.stats().iter().map(|t| t.1).sum();
    assert_eq!(sum, 5);
    for k in 0u64..3 {
        assert!(table.insert(k, k + 100).is_ok());
    }
    let sum_after: usize = table.stats().iter().map(|t| t.1).sum();
    assert_eq!(sum_after, 5);
}

#[test]
fn t_stats_exact_load_factors() {
    // 64 slots split as 32 16 8 8. The cascade back-fills from the smallest
    // sub-array, and a sub-array starts taking forced inserts once the next
    // one's emptiness falls to a quarter: the last two fill to 6 of 8, the
    // 16-slot one to 12, and the remaining 16 keys land in the largest.
    let mut table = ElasticTable::<u64>::new(64, 100_000).unwrap();
    for k in 0u64..40 {
        assert!(table.insert(k, k).is_ok());
    }
    let stats = table.stats();
    assert_eq!(stats.len(), 4);
    assert_eq!(stats[0], (0, 16, 500_000));
    assert_eq!(stats[1], (1, 12, 750_000));
    assert_eq!(stats[2], (2, 6, 750_000));
    assert_eq!(stats[3], (3, 6, 750_000));
}

#[test]
fn t_non_mutation_on_failure() {
    let mut table = ElasticTable::<u64>::new(2, 500_000).unwrap();
    assert!(table.insert(1, 10).is_ok());
    assert!(table.insert(2, 20).is_ok());
    let stats_before = table.stats();
    assert!(table.insert(3, 30).is_err());
    assert_eq!(table.get(1), Some(&10));
    assert_eq!(table.get(2), Some(&20));
    assert_eq!(table.get(3), None);
    assert_eq!(table.stats(), stats_before);
}

#[test]
fn t_update_of_deep_key_stays_in_place() {
    // 64 slots split as 32 16 8 8; the first keys land in the smallest
    // sub-array. Updating one of them must replace the value where it lies
    // and leave the occupied counts untouched.
    let mut table = ElasticTable::<u64>::new(64, 100_000).unwrap();
    for k in 0u64..40 {
        assert!(table.insert(k, k).is_ok());
    }
    let counts_before: usize = table.stats().iter().map(|t| t.1).sum();
    assert!(table.insert(0, 777).is_ok());
    assert!(table.insert(39, 888).is_ok());
    assert_eq!(table.get(0), Some(&777));
    assert_eq!(table.get(39), Some(&888));
    let counts_after: usize = table.stats().iter().map(|t| t.1).sum();
    assert_eq!(counts_before, counts_after);
    assert_eq!(table.stats(), {
        let mut t2 = ElasticTable::<u64>::new(64, 100_000).unwrap();
        for k in 0u64..40 {
            t2.insert(k, k).unwrap();
        }
        t2.stats()
    });
}

#[test]
fn t_insert_updates_keep_values_of_other_keys() {
    let mut table = ElasticTable::<u64>::new(100, 50_000).unwrap();
    for k in 0u64..60 {
        assert!(table.insert(k, k * 2).is_ok());
    }
    assert!(table.insert(30, 12345).is_ok());
    assert_eq!(table.get(30), Some(&12345));
    for k in 0u64..60 {
        if k != 30 {
            assert_eq!(table.get(k), Some(&(k * 2)));
        }
    }
}
