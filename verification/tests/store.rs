use pick9::database::{Collector, CollectorStore, DataBase, StoreError};

fn zero_batch() -> Collector {
    Collector {
        three_digit_number: vec![0u128; 670],
        mod_by_9: vec![0u128; 9],
        divided_by_9_count: vec![0u128; 5],
        coin_head_calc: vec![0u128; 17],
        coin_tail_calc: vec![0u128; 6],
    }
}

fn batch_with_d9c(d9c: [u128; 5]) -> Collector {
    let mut b = zero_batch();
    b.divided_by_9_count = d9c.to_vec();
    b
}

#[test]
fn merge_commutes_on_concrete_batches() {
    let mut a = zero_batch();
    a.three_digit_number[114] = 7;
    a.divided_by_9_count[0] = 3;
    let mut b = zero_batch();
    b.three_digit_number[114] = 5;
    b.mod_by_9[8] = 2;
    b.divided_by_9_count[4] = 1;

    let mut left = zero_batch();
    left.merge(&a);
    left.merge(&b);
    let mut right = zero_batch();
    right.merge(&b);
    right.merge(&a);
    assert!(left.equals(&right));
    assert_eq!(left.three_digit_number[114], 12);
}

#[test]
fn merge_associates_on_concrete_batches() {
    let mut a = zero_batch();
    a.coin_head_calc[16] = 1;
    let mut b = zero_batch();
    b.coin_head_calc[16] = 2;
    let mut c = zero_batch();
    c.coin_tail_calc[5] = 4;

    let mut x = zero_batch();
    x.merge(&a);
    let mut ab = zero_batch();
    ab.merge(&a);
    ab.merge(&b);
    x.merge(&b);
    x.merge(&c);
    let mut y = zero_batch();
    y.merge(&b);
    y.merge(&c);
    let mut z = zero_batch();
    z.merge(&a);
    z.merge(&y);
    assert!(x.equals(&z));
    assert!(ab.coin_head_calc[16] == 3);
}

#[test]
fn round_trip_beyond_64_bit() {
    let mut c = zero_batch();
    let huge: u128 = (u64::MAX as u128) * 1000 + 123456789;
    c.three_digit_number[0] = huge;
    c.three_digit_number[669] = u128::MAX;
    c.divided_by_9_count[2] = (u64::MAX as u128) + 1;
    c.coin_tail_calc[5] = 1;

    let text = CollectorStore::from_collector(&c).encode_json();
    let parsed = CollectorStore::parse_json(&text).unwrap();
    let back = parsed.into_collector().unwrap();
    assert!(back.equals(&c));
    assert_eq!(back.three_digit_number[0], huge);
    assert_eq!(back.three_digit_number[669], u128::MAX);
}

#[test]
fn grand_total_accumulates_over_batches() {
    let mut db = DataBase::new(String::from("data/db.json"), None).unwrap();
    let t1 = db.add(&batch_with_d9c([1, 2, 3, 4, 5])).unwrap();
    assert_eq!(t1, 15);
    let t2 = db.add(&batch_with_d9c([5, 0, 0, 0, 0])).unwrap();
    assert_eq!(t2, 20);
    let t3 = db.add(&batch_with_d9c([0, 0, 0, 0, 0])).unwrap();
    assert_eq!(t3, 20);
    assert_eq!(db.total, 20);
}

#[test]
fn startup_recovery_preserves_grand_total() {
    let mut db = DataBase::new(String::from("data/db.json"), None).unwrap();
    let mut batch = batch_with_d9c([10, 0, 0, 7, 0]);
    batch.mod_by_9[3] = 99;
    let before = db.add(&batch).unwrap();
    assert_eq!(before, 17);

    let text = db.serialize();
    let mut db2 = DataBase::new(String::from("data/db.json"), Some(&text)).unwrap();
    assert_eq!(db2.total, before);
    let after = db2.add(&zero_batch()).unwrap();
    assert_eq!(after, before);
    assert!(db2.collector.equals(&db.collector));
}

#[test]
fn adds_in_any_order_reach_the_same_state() {
    let batches = [
        batch_with_d9c([1, 0, 0, 0, 0]),
        batch_with_d9c([0, 2, 0, 0, 0]),
        batch_with_d9c([0, 0, 3, 0, 0]),
        batch_with_d9c([0, 0, 0, 4, 0]),
    ];
    let mut db_fwd = DataBase::new(String::from("a"), None).unwrap();
    for b in batches.iter() {
        db_fwd.add(b).unwrap();
    }
    let mut db_rev = DataBase::new(String::from("b"), None).unwrap();
    for b in batches.iter().rev() {
        db_rev.add(b).unwrap();
    }
    assert_eq!(db_fwd.total, 10);
    assert_eq!(db_rev.total, 10);
    assert!(db_fwd.collector.equals(&db_rev.collector));
}

#[test]
fn shape_mismatch_is_rejected_and_changes_nothing() {
    let mut db = DataBase::new(String::from("data/db.json"), None).unwrap();
    db.add(&batch_with_d9c([1, 1, 1, 1, 1])).unwrap();
    let mut bad = zero_batch();
    bad.mod_by_9 = vec![0u128; 8];
    let r = db.add(&bad);
    assert_eq!(r, Err(StoreError::ShapeMismatch));
    assert_eq!(db.total, 5);
}

#[test]
fn corrupt_snapshot_wrong_table_length_is_rejected() {
    let mut c = zero_batch();
    c.divided_by_9_count = vec![0u128; 4];
    let text = CollectorStore::from_collector(&c).encode_json();
    let r = DataBase::new(String::from("data/db.json"), Some(&text));
    assert!(matches!(r, Err(StoreError::CorruptSnapshot)));
}

#[test]
fn corrupt_snapshot_non_digit_string_is_rejected() {
    let good = CollectorStore::from_collector(&zero_batch()).encode_json();
    let bad = good.replacen("\"0\"", "\"x0\"", 1);
    let r = DataBase::new(String::from("data/db.json"), Some(&bad));
    assert!(matches!(r, Err(StoreError::CorruptSnapshot)));
}

#[test]
fn corrupt_snapshot_garbage_is_rejected() {
    for bad in ["", "{", "not json at all", "{\"three_digit_number\":[]}"] {
        let r = DataBase::new(String::from("p"), Some(bad));
        assert!(matches!(r, Err(StoreError::CorruptSnapshot)));
    }
}

#[test]
fn corrupt_snapshot_overflowing_counter_is_rejected() {
    let good = CollectorStore::from_collector(&zero_batch()).encode_json();
    // one more than u128::MAX, as a digit string
    let too_big = "340282366920938463463374607431768211456";
    let bad = good.replacen("\"0\"", &format!("\"{}\"", too_big), 1);
    let r = DataBase::new(String::from("p"), Some(&bad));
    assert!(matches!(r, Err(StoreError::CorruptSnapshot)));
}

#[test]
fn worked_example_two_identical_batches() {
    let mut db = DataBase::new(String::from("data/db.json"), None).unwrap();
    let batch = batch_with_d9c([1, 0, 0, 0, 0]);
    let t1 = db.add(&batch).unwrap();
    assert_eq!(t1, 1);
    let t2 = db.add(&batch).unwrap();
    assert_eq!(t2, 2);

    let text = db.serialize();
    let store = CollectorStore::parse_json(&text).unwrap();
    let expected: Vec<String> = vec![
        String::from("2"),
        String::from("0"),
        String::from("0"),
        String::from("0"),
        String::from("0"),
    ];
    assert_eq!(store.divided_by_9_count, expected);
}

#[test]
fn fresh_store_starts_at_zero() {
    let db = DataBase::new(String::from("data/db.json"), None).unwrap();
    assert_eq!(db.total, 0);
    assert!(db.collector.equals(&zero_batch()));
}

#[test]
fn can_merge_detects_counter_overflow() {
    let mut db = DataBase::new(String::from("p"), None).unwrap();
    let mut near_max = zero_batch();
    near_max.coin_head_calc[0] = u128::MAX - 1;
    db.add(&near_max).unwrap();
    let mut two = zero_batch();
    two.coin_head_calc[0] = 2;
    assert!(!db.collector.can_merge(&two));
    let mut one = zero_batch();
    one.coin_head_calc[0] = 1;
    assert!(db.collector.can_merge(&one));
}

#[test]
fn snapshot_keys_must_be_in_canonical_order() {
    // The codec accepts exactly the canonical document it writes; a snapshot
    // with its keys reordered did not come from this store.
    let good = CollectorStore::from_collector(&zero_batch()).encode_json();
    let swapped = good
        .replace("mod_by_9", "TMP")
        .replace("divided_by_9_count", "mod_by_9")
        .replace("TMP", "divided_by_9_count");
    let r = DataBase::new(String::from("p"), Some(&swapped));
    assert!(matches!(r, Err(StoreError::CorruptSnapshot)));
}
