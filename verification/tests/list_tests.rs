use lru_cache::list::LRUList;

#[test]
fn test_blockcache_lru_remove() {
    let mut lru = LRUList::<usize>::new();

    let h_56 = lru.insert(56);
    lru.insert(22);
    lru.insert(223);
    let h_244 = lru.insert(244);
    lru.insert(1111);
    let h_12 = lru.insert(12);

    assert_eq!(lru.count(), 6);
    assert_eq!(244, lru.remove(h_244));
    assert_eq!(lru.count(), 5);
    assert_eq!(12, lru.remove(h_12));
    assert_eq!(lru.count(), 4);
    assert_eq!(56, lru.remove(h_56));
    assert_eq!(lru.count(), 3);
}

#[test]
fn test_blockcache_lru_1() {
    let mut lru = LRUList::<usize>::new();

    lru.insert(56);
    lru.insert(22);
    lru.insert(244);
    lru.insert(12);

    assert_eq!(lru.count(), 4);

    assert_eq!(Some(56), lru.remove_last());
    assert_eq!(Some(22), lru.remove_last());
    assert_eq!(Some(244), lru.remove_last());

    assert_eq!(lru.count(), 1);

    assert_eq!(Some(12), lru.remove_last());

    assert_eq!(lru.count(), 0);

    assert_eq!(None, lru.remove_last());
}

#[test]
fn test_blockcache_lru_reinsert() {
    let mut lru = LRUList::<usize>::new();

    let handle1 = lru.insert(56);
    let handle2 = lru.insert(22);
    let handle3 = lru.insert(244);

    assert_eq!(lru._testing_head_ref().map(|r| (*r)).unwrap(), 244);

    lru.reinsert_front(handle1);

    assert_eq!(lru._testing_head_ref().map(|r| (*r)).unwrap(), 56);

    lru.reinsert_front(handle3);

    assert_eq!(lru._testing_head_ref().map(|r| (*r)).unwrap(), 244);

    lru.reinsert_front(handle2);

    assert_eq!(lru._testing_head_ref().map(|r| (*r)).unwrap(), 22);

    assert_eq!(lru.remove_last(), Some(56));
    assert_eq!(lru.remove_last(), Some(244));
    assert_eq!(lru.remove_last(), Some(22));
}

#[test]
fn test_blockcache_lru_reinsert_2() {
    let mut lru = LRUList::<usize>::new();

    let handles = vec![
        lru.insert(0),
        lru.insert(1),
        lru.insert(2),
        lru.insert(3),
        lru.insert(4),
        lru.insert(5),
        lru.insert(6),
        lru.insert(7),
        lru.insert(8),
    ];

    for i in 0..9 {
        lru.reinsert_front(handles[i]);
        assert_eq!(lru._testing_head_ref().map(|x| *x), Some(i));
    }
}

#[test]
fn test_blockcache_lru_edge_cases() {
    let mut lru = LRUList::<usize>::new();

    let handle = lru.insert(3);

    lru.reinsert_front(handle);
    assert_eq!(lru._testing_head_ref().map(|x| *x), Some(3));
    assert_eq!(lru.remove_last(), Some(3));
    assert_eq!(lru.remove_last(), None);
    assert_eq!(lru.remove_last(), None);
}

// An empty list answers every observer consistently.
#[test]
fn test_empty_list() {
    let mut lru = LRUList::<u32>::new();
    assert_eq!(lru.count(), 0);
    assert_eq!(lru._testing_head_ref(), None);
    assert_eq!(lru.remove_last(), None);
}

// Removing the sole element by handle leaves both ends empty and the list
// usable again.
#[test]
fn test_remove_sole_element_by_handle() {
    let mut lru = LRUList::<u32>::new();
    let h = lru.insert(7);
    assert_eq!(lru.remove(h), 7);
    assert_eq!(lru.count(), 0);
    assert_eq!(lru._testing_head_ref(), None);
    assert_eq!(lru.remove_last(), None);

    let h2 = lru.insert(8);
    lru.reinsert_front(h2);
    assert_eq!(lru._testing_head_ref().map(|x| *x), Some(8));
    assert_eq!(lru.count(), 1);
}
