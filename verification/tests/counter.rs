use reducto::counter::Counter;

#[test]
fn a_new_counter_has_seen_nothing() {
    let counter: Counter<u32> = Counter::new();
    assert_eq!(counter.len(), 0);
    assert_eq!(counter.get(&7), 0);
}

#[test]
fn values_are_counted() {
    let mut counter: Counter<u32> = Counter::new();
    assert_eq!(counter.get(&97), 0);
    counter.update_from_value(97);
    assert_eq!(counter.get(&97), 1);
    counter.update_from_value(97);
    counter.update_from_value(98);
    assert_eq!(counter.get(&97), 2);
    assert_eq!(counter.get(&98), 1);
    assert_eq!(counter.get(&99), 0);
    assert_eq!(counter.len(), 2);
}

#[test]
fn a_sequence_of_values_is_counted() {
    let mut counter: Counter<u8> = Counter::new();
    counter.update_from_iter(b"a string".to_vec());
    for byte in b"a sting" {
        assert_eq!(counter.get(byte), 1);
    }
    assert_eq!(counter.get(&b'r'), 1);
    assert_eq!(counter.get(&b'z'), 0);
    assert_eq!(counter.len(), 8);
    counter.update_from_iter(b"aaa".to_vec());
    assert_eq!(counter.get(&b'a'), 4);
    assert_eq!(counter.len(), 8);
}

#[test]
fn a_counter_from_a_sequence() {
    let counter: Counter<i64> = Counter::from_iter(vec![3, -1, 3, 3, 0]);
    assert_eq!(counter.get(&3), 3);
    assert_eq!(counter.get(&-1), 1);
    assert_eq!(counter.get(&0), 1);
    assert_eq!(counter.len(), 3);
    let empty: Counter<i64> = Counter::from_iter(Vec::new());
    assert_eq!(empty.len(), 0);
}

#[test]
fn counters_with_the_same_counts_are_equal() {
    let a: Counter<u32> = Counter::from_iter(vec![1, 2, 2, 3]);
    let b: Counter<u32> = Counter::from_iter(vec![2, 3, 1, 2]);
    let c: Counter<u32> = Counter::from_iter(vec![1, 2, 3, 3]);
    let d: Counter<u32> = Counter::from_iter(vec![1, 2, 2]);
    let e: Counter<u32> = Counter::from_iter(vec![1, 2, 2, 4]);
    assert!(a.eq(&b));
    assert!(b.eq(&a));
    assert!(!a.eq(&c));
    assert!(!a.eq(&d));
    assert!(!d.eq(&a));
    assert!(!a.eq(&e));
    let empty: Counter<u32> = Counter::new();
    assert!(empty.eq(&Counter::new()));
    assert!(!empty.eq(&a));
}

#[test]
fn entries_come_in_ascending_order() {
    let counter: Counter<u32> = Counter::from_iter(vec![30, 10, 20, 10, 30, 10]);
    assert_eq!(counter.entries(), vec![(10, 3), (20, 1), (30, 2)]);
    let empty: Counter<u32> = Counter::new();
    assert_eq!(empty.entries(), Vec::new());
}
