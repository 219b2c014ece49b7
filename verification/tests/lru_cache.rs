use datastructs::lru::{LRUCache, Node};

#[test]
fn simple_use_case() {
    let mut lru = LRUCache::<2>::new().unwrap();

    lru.insert(1, 1);
    lru.insert(2, 2);
    lru.insert(3, 3);

    assert_eq!(None, lru.get(1));
    assert_eq!(Some(2), lru.get(2));
    assert_eq!(Some(3), lru.get(3));
}

#[test]
fn duplicate_keys() {
    let mut lru = LRUCache::<2>::new().unwrap();

    lru.insert(1, 1);
    lru.insert(3, 3);
    lru.insert(1, 2);
    lru.insert(4, 4);

    assert_eq!(Some(2), lru.get(1));
    assert_eq!(None, lru.get(3));
    assert_eq!(Some(4), lru.get(4));
}

#[test]
fn zero_capacity_rejected() {
    assert!(LRUCache::<0>::new().is_none());
    assert!(LRUCache::<1>::new().is_some());
}

#[test]
fn size_never_exceeds_capacity() {
    let mut lru = LRUCache::<2>::new().unwrap();
    assert_eq!(0, lru.len());
    for k in 0..10 {
        lru.insert(k, 10 * k);
        assert!(lru.len() <= 2);
    }
    lru.get(9);
    lru.get(0);
    assert!(lru.len() <= 2);
    assert_eq!(2, lru.len());
}

#[test]
fn eviction_removes_least_recently_touched() {
    let mut lru = LRUCache::<2>::new().unwrap();
    lru.insert(1, 1);
    lru.insert(2, 2);
    // Touching key 1 makes key 2 the least recently used.
    assert_eq!(Some(1), lru.get(1));
    lru.insert(3, 3);
    assert_eq!(None, lru.get(2));
    assert_eq!(Some(1), lru.get(1));
    assert_eq!(Some(3), lru.get(3));
}

#[test]
fn update_in_place_promotes() {
    let mut lru = LRUCache::<2>::new().unwrap();
    lru.insert(1, 1);
    lru.insert(2, 2);
    assert_eq!(2, lru.len());
    // Rewriting key 1 keeps the size and makes key 2 the eviction victim.
    lru.insert(1, 9);
    assert_eq!(2, lru.len());
    lru.insert(3, 3);
    assert_eq!(None, lru.get(2));
    assert_eq!(Some(9), lru.get(1));
    assert_eq!(Some(3), lru.get(3));
}

#[test]
fn get_on_empty_cache_is_absent() {
    let mut lru = LRUCache::<3>::new().unwrap();
    assert_eq!(None, lru.get(7));
    assert_eq!(0, lru.len());
}

#[test]
fn negative_values_are_not_absent() {
    let mut lru = LRUCache::<2>::new().unwrap();
    lru.insert(5, -1);
    assert_eq!(Some(-1), lru.get(5));
    assert_eq!(None, lru.get(-1));
}

#[test]
fn append_head_inserts_fresh_entry() {
    let mut lru = LRUCache::<3>::new().unwrap();
    lru.append_head(Node::new(4, 40));
    lru.append_head(Node::new(5, 50));
    assert_eq!(2, lru.len());
    assert_eq!(Some(40), lru.get(4));
    assert_eq!(Some(50), lru.get(5));
}
