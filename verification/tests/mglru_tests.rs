use mglru::mglru::MGLRU;

/// Collects the flattened traversal: tier by tier, most recent first
/// within each tier.
fn items<const N: usize, const CAP: usize>(cache: &MGLRU<i32, N, CAP>) -> Vec<i32> {
    let mut out = Vec::new();
    let mut it = cache.iter();
    while let Some(v) = it.next() {
        out.push(v);
    }
    out
}

#[test]
fn mglru_test_empty() {
    let cache = MGLRU::<i32, 2, 1>::new();

    assert_eq!(cache.len(), 0);
    assert_eq!(items(&cache), []);
}

#[test]
fn test_basic_insert_order_and_touch() {
    let mut cache = MGLRU::<i32, 2, 1>::new();

    cache.insert(1);

    assert_eq!(cache.len(), 1);
    assert_eq!(items(&cache), [1]);

    cache.insert(2);

    assert_eq!(cache.len(), 2);
    assert_eq!(items(&cache), [2, 1]);

    cache.touch(|x: &i32| *x == 1);

    assert_eq!(cache.len(), 2);
    assert_eq!(items(&cache), [1, 2]);
}

#[test]
fn mglru_touch_miss_then_hit() {
    let num = 17;
    let first = num;
    let second = num + 1;
    let third = num + 2;
    let fourth = num + 3;

    let mut cache = MGLRU::<i32, 2, 2>::new();

    cache.insert(first);
    cache.insert(second);
    cache.insert(third);
    cache.insert(fourth);

    assert!(!cache.touch(|x: &i32| *x == fourth + 1));

    assert_eq!(items(&cache), [fourth, third, second, first], "Nothing is touched.");

    assert!(cache.touch(|x: &i32| *x == second));

    assert_eq!(
        items(&cache),
        [second, fourth, third, first],
        "Touched item is moved to front."
    );
}

#[test]
fn mglru_test_clear() {
    let mut cache = MGLRU::<i32, 4, 1>::new();

    cache.insert(1);
    cache.clear();

    assert_eq!(cache.len(), 0);
    assert_eq!(items(&cache), [], "All items evicted");

    cache.insert(1);
    cache.insert(2);
    cache.insert(3);
    cache.insert(4);
    assert_eq!(items(&cache), [4, 3, 2, 1]);
    cache.clear();
    assert_eq!(items(&cache), [], "All items evicted again");
}

#[test]
fn cascading_fills_old_tiers() {
    let mut cache = MGLRU::<i32, 2, 2>::new();
    // four distinct values: the two most recent land in tier 0, the two
    // older ones cascade into tier 1
    assert_eq!(cache.insert(1), None);
    assert_eq!(cache.insert(2), None);
    assert_eq!(cache.insert(3), None);
    assert_eq!(cache.insert(4), None);
    assert_eq!(cache.len(), 4);
    assert_eq!(items(&cache), [4, 3, 2, 1]);
    // full: the oldest value falls out of the last tier
    assert_eq!(cache.insert(5), Some(1));
    assert_eq!(cache.len(), 4);
    assert_eq!(items(&cache), [5, 4, 3, 2]);
}

#[test]
fn touch_promotes_from_old_tier_to_front() {
    let mut cache = MGLRU::<i32, 2, 2>::new();
    cache.insert(1);
    cache.insert(2);
    cache.insert(3);
    cache.insert(4);
    // state [4, 3 | 2, 1]; touching 2 moves it to the front of tier 0
    assert!(cache.touch(|x: &i32| *x == 2));
    assert_eq!(items(&cache), [2, 4, 3, 1]);
    assert_eq!(cache.front(), Some(&2));
    assert_eq!(cache.len(), 4);
}

#[test]
fn front_repeated_reads_agree() {
    let mut cache = MGLRU::<i32, 2, 2>::new();
    assert_eq!(cache.front(), None);
    cache.insert(8);
    cache.insert(9);
    assert_eq!(cache.front(), Some(&9));
    assert_eq!(cache.front(), Some(&9), "Reading the front changes nothing.");
}

#[test]
fn mglru_front_mut_writes_through() {
    let mut cache = MGLRU::<i32, 2, 1>::new();
    assert!(cache.front_mut().is_none());
    cache.insert(1);
    cache.insert(2);
    if let Some(v) = cache.front_mut() {
        *v = 7;
    }
    assert_eq!(items(&cache), [7, 1]);
    assert_eq!(cache.front(), Some(&7));
}
