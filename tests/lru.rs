use std::sync::{Arc, Mutex};

use storage_core::lru::LRU;

#[test]
fn should_work() {
    let mut lru = LRU::new();
    lru.add(1);
    lru.add(2);
    lru.add(3);
    lru.add(4);
    lru.add(5);
    lru.add(6);
    assert_eq!(lru.size(), 6);
    assert_eq!(lru.remove_last(), Some(1));
    assert_eq!(lru.remove_last(), Some(2));
    assert_eq!(lru.remove_last(), Some(3));
    lru.remove(3);
    lru.remove(4);
    assert_eq!(lru.size(), 2);
    lru.add(4);
    assert_eq!(lru.remove_last(), Some(5));
    assert_eq!(lru.remove_last(), Some(6));
    assert_eq!(lru.remove_last(), Some(4));
    assert_eq!(lru.size(), 0);
}

#[test]
fn should_remove_from_empty_lru() {
    let mut lru = LRU::new();
    lru.remove(0);
    assert_eq!(lru.size(), 0)
}

#[test]
fn should_find_no_last_in_empty_lru() {
    let mut lru = LRU::new();
    assert_eq!(lru.remove_last(), None)
}

#[test]
fn should_add_remove_when_interleave() {
    let mut lru = LRU::new();
    lru.add(1);
    lru.add(2);
    lru.remove(2);
    lru.remove(1);
    assert_eq!(lru.size(), 0)
}

#[test]
fn lru_should_work_concurrently() {
    let lru = Arc::new(Mutex::new(LRU::new()));
    let lru1 = lru.clone();
    let lru2 = lru.clone();
    for _ in 0..100 {
        lru1.lock().unwrap().add(1);
        lru2.lock().unwrap().add(2);
        lru1.lock().unwrap().remove(1);
        lru2.lock().unwrap().remove(2);
    }
    assert_eq!(lru.lock().unwrap().size(), 0);
}

#[test]
fn add_of_present_id_does_not_move_it() {
    let mut lru = LRU::new();
    lru.add(1);
    lru.add(2);
    lru.add(1);
    assert_eq!(lru.size(), 2);
    assert_eq!(lru.remove_last(), Some(1));
    assert_eq!(lru.remove_last(), Some(2));
}

#[test]
fn remove_from_the_middle_keeps_order() {
    let mut lru = LRU::new();
    for id in [7usize, 8, 9] {
        lru.add(id);
    }
    lru.remove(8);
    lru.remove(100);
    assert_eq!(lru.remove_last(), Some(7));
    assert_eq!(lru.remove_last(), Some(9));
    assert_eq!(lru.remove_last(), None);
}

#[test]
fn last_frame_peeks_without_removing() {
    let mut lru = LRU::new();
    assert_eq!(lru.last_frame(), None);
    lru.add(4);
    lru.add(5);
    assert_eq!(lru.last_frame(), Some(4));
    assert_eq!(lru.size(), 2);
}
