use algokit::actor::{apply, Command};
use algokit::lru::LRUCache;

#[test]
fn test_lru() {
    let mut cache = LRUCache::new_with_capacity(5);
    for i in 0..5 {
        cache.put(i, i);
    }
    cache.get(1).unwrap();
    assert_eq!(cache.show_keys(), [1, 4, 3, 2, 0]);

    cache.put(5, 5);
    cache.put(6, 6);
    assert_eq!(cache.show_keys(), [6, 5, 1, 4, 3]);

    assert!(cache.get(0).is_none());
    assert!(cache.get(2).is_none());
    assert_eq!(cache.get(5).unwrap(), 5);
    assert_eq!(cache.get(6).unwrap(), 6);
}

#[test]
fn lru_capacity_bound() {
    let mut cache = LRUCache::new_with_capacity(3);
    for i in 0..10 {
        cache.put(i, i * 100);
        assert!(cache.show_keys().len() <= 3);
    }
    for i in 0..10 {
        cache.get(i);
        assert!(cache.show_keys().len() <= 3);
    }
}

#[test]
fn lru_fifo_eviction() {
    let mut cache = LRUCache::new_with_capacity(3);
    cache.put(10, 1);
    cache.put(11, 2);
    cache.put(12, 3);
    cache.put(13, 4);
    assert!(cache.get(10).is_none());
    assert_eq!(cache.get(11), Some(2));
    assert_eq!(cache.get(12), Some(3));
    assert_eq!(cache.get(13), Some(4));
}

#[test]
fn lru_get_promotes() {
    let mut cache = LRUCache::new_with_capacity(4);
    cache.put(1, 1);
    cache.put(2, 2);
    cache.put(3, 3);
    assert_eq!(cache.get(1), Some(1));
    assert_eq!(cache.show_keys()[0], 1);
    assert_eq!(cache.show_keys(), [1, 3, 2]);
}

#[test]
fn lru_put_updates_value() {
    let mut cache = LRUCache::new_with_capacity(3);
    cache.put(7, 70);
    cache.put(8, 80);
    cache.put(7, 71);
    assert_eq!(cache.show_keys().len(), 2);
    assert_eq!(cache.get(7), Some(71));
    assert_eq!(cache.get(8), Some(80));
}

#[test]
fn lru_round_trip() {
    let mut cache = LRUCache::new_with_capacity(2);
    cache.put(100, 1000);
    assert_eq!(cache.get(100), Some(1000));
    cache.put(100, 2000);
    assert_eq!(cache.get(100), Some(2000));
}

#[test]
fn lru_actor_replies() {
    let mut cache = LRUCache::new_with_capacity(2);
    assert_eq!(apply(&mut cache, Command::Put(1, 10)), None);
    assert_eq!(apply(&mut cache, Command::Get(1)), Some(10));
    assert_eq!(apply(&mut cache, Command::Get(2)), None);
}

#[test]
fn lru_actor_disjoint_writers() {
    // Two writers' command streams, interleaved as an owner thread
    // could have dequeued them; each writer's own keys keep the values
    // that writer wrote.
    let mut cache = LRUCache::new_with_capacity(8);
    let writer_a = [(1, 100), (2, 200), (3, 300)];
    let writer_b = [(10, 111), (20, 222), (30, 333)];
    for i in 0..3 {
        apply(&mut cache, Command::Put(writer_a[i].0, writer_a[i].1));
        apply(&mut cache, Command::Put(writer_b[i].0, writer_b[i].1));
    }
    assert_eq!(apply(&mut cache, Command::Get(3)), Some(300));
    assert_eq!(apply(&mut cache, Command::Get(30)), Some(333));
    for i in 0..3 {
        assert_eq!(cache.get(writer_a[i].0), Some(writer_a[i].1));
        assert_eq!(cache.get(writer_b[i].0), Some(writer_b[i].1));
    }
}
