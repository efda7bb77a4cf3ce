use mglru::lru::LRUCache;

/// Collects the cache's values from most- to least-recently-used.
fn items<const CAP: usize>(cache: &LRUCache<i32, CAP>) -> Vec<i32> {
    let mut out = Vec::new();
    let mut it = cache.iter();
    while let Some((_, v)) = it.next() {
        out.push(*v);
    }
    out
}

#[test]
fn lib_test_empty() {
    let cache = LRUCache::<i32, 1>::new();
    assert_eq!(cache.len(), 0);
    assert_eq!(items(&cache), []);
}

#[test]
fn test_insert() {
    let mut cache = LRUCache::<i32, 4>::new();

    cache.insert(1);
    assert_eq!(cache.len(), 1);

    cache.insert(2);
    assert_eq!(cache.len(), 2);

    cache.insert(3);
    assert_eq!(cache.len(), 3);

    cache.insert(4);
    assert_eq!(cache.len(), 4);

    assert_eq!(items(&cache), [4, 3, 2, 1], "Ordered from most- to least-recent");

    cache.insert(5);
    assert_eq!(cache.len(), 4);
    assert_eq!(items(&cache), [5, 4, 3, 2], "Least-recently-used item evicted");

    cache.insert(6);
    cache.insert(7);
    cache.insert(8);
    cache.insert(9);

    assert_eq!(cache.len(), 4);
    assert_eq!(items(&cache), [9, 8, 7, 6], "Least-recently-used item evicted");
}

#[test]
fn test_lookup() {
    let mut cache = LRUCache::<i32, 4>::new();

    cache.insert(1);
    cache.insert(2);
    cache.insert(3);
    cache.insert(4);

    let result = cache.lookup(|x: &i32| if *x == 5 { Some(()) } else { None });
    assert_eq!(result, None, "Cache miss.");
    assert_eq!(items(&cache), [4, 3, 2, 1], "Order not changed.");

    // Cache hit
    let result = cache.lookup(|x: &i32| if *x == 3 { Some(*x * 2) } else { None });
    assert_eq!(result, Some(6), "Cache hit.");
    assert_eq!(items(&cache), [3, 4, 2, 1], "Matching item moved to front.");
}

#[test]
fn test_clear() {
    let mut cache = LRUCache::<i32, 4>::new();

    cache.insert(1);
    cache.clear();

    assert_eq!(cache.len(), 0);
    assert_eq!(items(&cache), [], "All items evicted");

    cache.insert(1);
    cache.insert(2);
    cache.insert(3);
    cache.insert(4);
    assert_eq!(items(&cache), [4, 3, 2, 1]);
    cache.clear();
    assert_eq!(items(&cache), [], "All items evicted again");
}

#[test]
fn lru_touch_miss_then_hit() {
    let num = 41;
    let first = num;
    let second = num + 1;
    let third = num + 2;
    let fourth = num + 3;

    let mut cache = LRUCache::<i32, 4>::new();

    cache.insert(first);
    cache.insert(second);
    cache.insert(third);
    cache.insert(fourth);

    assert!(!cache.touch(|x: &i32| *x == fourth + 1));

    assert_eq!(items(&cache), [fourth, third, second, first], "Nothing is touched.");

    assert!(cache.touch(|x: &i32| *x == second));

    assert_eq!(
        items(&cache),
        [second, fourth, third, first],
        "Touched item is moved to front."
    );
}

#[test]
fn lru_front_tracks_recency() {
    let num = -7;
    let first = num;
    let second = num + 1;

    let mut cache = LRUCache::<i32, 4>::new();

    assert_eq!(cache.front(), None, "Nothing is in the front.");

    cache.insert(first);
    cache.insert(second);

    assert_eq!(cache.front(), Some(&second), "The last inserted item should be in the front.");
    assert_eq!(cache.front(), Some(&second), "Reading the front changes nothing.");

    cache.touch(|x: &i32| *x == first);

    assert_eq!(cache.front(), Some(&first), "Touched item should be in the front.");
}

#[test]
fn insert_reports_evicted_value() {
    let mut cache = LRUCache::<i32, 2>::new();
    assert_eq!(cache.insert(10), None);
    assert_eq!(cache.insert(20), None);
    assert_eq!(cache.insert(30), Some(10));
    assert_eq!(cache.insert(40), Some(20));
    assert_eq!(items(&cache), [40, 30]);
}

#[test]
fn touch_of_front_keeps_order() {
    let mut cache = LRUCache::<i32, 3>::new();
    cache.insert(1);
    cache.insert(2);
    cache.insert(3);
    assert!(cache.touch(|x: &i32| *x == 3));
    assert_eq!(items(&cache), [3, 2, 1]);
}

#[test]
fn lru_clear_when_empty() {
    let mut cache = LRUCache::<i32, 3>::new();
    cache.clear();
    assert_eq!(cache.len(), 0);
    assert_eq!(items(&cache), []);
}

#[test]
fn lru_front_mut_writes_through() {
    let mut cache = LRUCache::<i32, 3>::new();
    assert!(cache.front_mut().is_none());
    cache.insert(1);
    cache.insert(2);
    if let Some(v) = cache.front_mut() {
        *v = 9;
    }
    assert_eq!(items(&cache), [9, 1]);
    assert_eq!(cache.front(), Some(&9));
}

#[test]
fn remove_by_slot_index() {
    let mut cache = LRUCache::<i32, 4>::new();
    cache.insert(1);
    cache.insert(2);
    cache.insert(3);

    // find the slot holding 2 and remove it
    let mut slot = None;
    let mut it = cache.iter();
    while let Some((i, v)) = it.next() {
        if *v == 2 {
            slot = Some(i);
        }
    }
    cache.remove(slot.expect("2 is in the cache"));
    assert_eq!(cache.len(), 2);
    assert_eq!(items(&cache), [3, 1]);
}

#[test]
fn iter_mut_and_get_mut_update_every_value() {
    let mut cache = LRUCache::<i32, 4>::new();
    cache.insert(1);
    cache.insert(2);
    cache.insert(3);

    let mut it = cache.iter_mut();
    while let Some(i) = it.next() {
        let v = cache.get_mut(i);
        *v *= 10;
    }
    assert_eq!(items(&cache), [30, 20, 10]);
}

#[test]
fn iter_yields_slot_indices_with_values() {
    let mut cache = LRUCache::<i32, 3>::new();
    cache.insert(5);
    cache.insert(6);

    let mut pairs = Vec::new();
    let mut it = cache.iter();
    while let Some((i, v)) = it.next() {
        pairs.push((i, *v));
    }
    // values entered slots 0 and 1 in insertion order; traversal is most
    // recent first
    assert_eq!(pairs, [(1, 6), (0, 5)]);
}
