use data_structures::lru::LRUCache;

type TestCache = LRUCache<i32, 4>;

/// Convenience function for test assertions
fn items<T: Clone, const N: usize>(cache: &LRUCache<T, N>) -> Vec<T> {
    cache.values().into_iter().map(|x| x.clone()).collect()
}

#[test]
fn test_empty() {
    let cache = TestCache::default();
    assert_eq!(cache.len(), 0);
    assert_eq!(items(&cache), []);
}

#[test]
fn test_insert() {
    let mut cache = TestCache::default();

    cache.insert(1);
    assert_eq!(cache.len(), 1);

    cache.insert(2);
    assert_eq!(cache.len(), 2);

    cache.insert(3);
    assert_eq!(cache.len(), 3);

    cache.insert(4);
    assert_eq!(cache.len(), 4);

    assert_eq!(
        items(&cache),
        [4, 3, 2, 1],
        "Ordered from most- to least-recent"
    );

    cache.insert(5);
    assert_eq!(cache.len(), 4);
    assert_eq!(
        items(&cache),
        [5, 4, 3, 2],
        "Least-recently-used item evicted"
    );

    cache.insert(6);
    cache.insert(7);
    cache.insert(8);
    cache.insert(9);

    assert_eq!(cache.len(), 4);
    assert_eq!(
        items(&cache),
        [9, 8, 7, 6],
        "Least-recently-used item evicted"
    );
}

#[test]
fn test_lookup() {
    let mut cache = TestCache::default();
    cache.insert(1);
    cache.insert(2);
    cache.insert(3);
    cache.insert(4);

    let result = cache.lookup(|x| if *x == 5 { Some(()) } else { None });
    assert_eq!(result, None, "Cache miss.");
    assert_eq!(items(&cache), [4, 3, 2, 1], "Order not changed.");

    // Cache hit
    let result = cache.lookup(|x| if *x == 3 { Some(*x * 2) } else { None });
    assert_eq!(result, Some(6), "Cache hit.");
    assert_eq!(
        items(&cache),
        [3, 4, 2, 1],
        "Matching item moved to front."
    );
}

#[test]
fn lib_test_clear() {
    let mut cache = TestCache::default();
    cache.insert(1);
    cache.clear();

    assert_eq!(cache.len(), 0);
    assert_eq!(items(&cache), [], "All items evicted");

    cache.insert(1);
    cache.insert(2);
    cache.insert(3);
    cache.insert(4);
    assert_eq!(items(&cache), [4, 3, 2, 1]);
    cache.clear();
    assert_eq!(items(&cache), [], "All items evicted again");
}

fn touch_of(num: i32) {
    let first = num;
    let second = num + 1;
    let third = num + 2;
    let fourth = num + 3;

    let mut cache = TestCache::default();

    cache.insert(first);
    cache.insert(second);
    cache.insert(third);
    cache.insert(fourth);

    assert!(!cache.touch(|x| *x == fourth + 1));

    assert_eq!(
        items(&cache),
        [fourth, third, second, first],
        "Nothing is touched."
    );

    assert!(cache.touch(|x| *x == second));

    assert_eq!(
        items(&cache),
        [second, fourth, third, first],
        "Touched item is moved to front."
    );
}

#[test]
fn lru_touch() {
    for num in [0, 1, -7, 1000, i32::MIN, i32::MAX - 4] {
        touch_of(num);
    }
}

fn fetch_of(num: i32) {
    let first = num;
    let second = num + 1;
    let third = num + 2;
    let fourth = num + 3;

    let mut cache = TestCache::default();

    cache.insert(first);
    cache.insert(second);
    cache.insert(third);
    cache.insert(fourth);

    assert!(cache.fetch(|x| *x == fourth + 1).is_none());

    assert_eq!(
        items(&cache),
        [fourth, third, second, first],
        "Nothing is touched."
    );

    assert_eq!(cache.fetch(|x| *x == second), Some(&mut (num + 1)));

    assert_eq!(
        items(&cache),
        [second, fourth, third, first],
        "Touched item is moved to front."
    );
}

#[test]
fn lru_fetch() {
    for num in [0, 1, -7, 1000, i32::MIN, i32::MAX - 4] {
        fetch_of(num);
    }
}

#[test]
fn lru_fetch_gives_the_value_for_changing() {
    let mut cache = LRUCache::<String, 3>::new();
    cache.insert("a".to_string());
    cache.insert("b".to_string());
    cache.insert("c".to_string());
    if let Some(v) = cache.fetch(|x| x == "a") {
        v.push('!');
    }
    assert_eq!(items(&cache), ["a!", "c", "b"]);
    if let Some(v) = cache.front_mut() {
        v.push('?');
    }
    assert_eq!(cache.front(), Some(&"a!?".to_string()));
}

fn front_of(num: i32) {
    let first = num;
    let second = num + 1;

    let mut cache = TestCache::default();

    assert_eq!(cache.front(), None, "Nothing is in the front.");

    cache.insert(first);
    cache.insert(second);

    assert_eq!(
        cache.front(),
        Some(&second),
        "The last inserted item should be in the front."
    );

    cache.touch(|x| *x == first);

    assert_eq!(
        cache.front(),
        Some(&first),
        "Touched item should be in the front."
    );
}

#[test]
fn lru_front() {
    for num in [0, 5, -3, i32::MAX - 1] {
        front_of(num);
    }
}

#[test]
fn lru_of_one_value() {
    let mut cache = LRUCache::<u8, 1>::new();
    assert!(cache.is_empty());
    cache.insert(1);
    cache.insert(2);
    assert_eq!(items(&cache), [2]);
    assert!(cache.touch(|x| *x == 2));
    assert!(!cache.touch(|x| *x == 1));
    assert_eq!(cache.len(), 1);
    assert_eq!(cache.front_mut(), Some(&mut 2));
}

#[test]
fn lru_touches_the_first_match_and_the_last_entry() {
    let mut cache = LRUCache::<(u8, char), 4>::new();
    for v in [(1, 'a'), (2, 'b'), (1, 'c'), (3, 'd')] {
        cache.insert(v);
    }
    // most recent first: (3,d) (1,c) (2,b) (1,a); the first match is (1,c)
    assert!(cache.touch(|x| x.0 == 1));
    assert_eq!(items(&cache), [(1, 'c'), (3, 'd'), (2, 'b'), (1, 'a')]);
    // the entry at the end of the list
    assert!(cache.touch(|x| x.1 == 'a'));
    assert_eq!(items(&cache), [(1, 'a'), (1, 'c'), (3, 'd'), (2, 'b')]);
    cache.insert((9, 'z'));
    assert_eq!(items(&cache), [(9, 'z'), (1, 'a'), (1, 'c'), (3, 'd')]);
}

#[test]
fn lru_clone_is_a_cache_of_its_own() {
    let mut cache = TestCache::default();
    cache.insert(1);
    cache.insert(2);
    cache.insert(3);
    let mut copy = cache.clone();
    assert_eq!(items(&copy), [3, 2, 1]);
    copy.insert(4);
    copy.touch(|x| *x == 1);
    assert_eq!(items(&copy), [1, 4, 3, 2]);
    assert_eq!(items(&cache), [3, 2, 1]);
}
