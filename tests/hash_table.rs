use storage_core::hash_table::HashTable;

#[test]
fn should_find_least_significant_bits() {
    assert_eq!(HashTable::mask(0b1111, 2), 0b11);
    assert_eq!(HashTable::mask(0b11, 32), 0b11);
    assert_eq!(HashTable::mask(u32::MAX, 32), u32::MAX);
    assert_eq!(HashTable::mask(0b1010, 2), 0b10);
    assert_eq!(HashTable::mask(0, 2), 0);
    assert_eq!(HashTable::mask(0b0, 2), 0);
}

#[test]
fn should_get_split_image_idx() {
    assert_eq!(HashTable::split_image_idx(0, 1), 1);
    assert_eq!(HashTable::split_image_idx(0b1, 1), 0);
    assert_eq!(HashTable::split_image_idx(0b11, 2), 0b01);
    assert_eq!(HashTable::split_image_idx(0b1111, 4), 0b0111);
    assert_eq!(HashTable::split_image_idx(0b101, 3), 0b0001);
    assert_eq!(HashTable::split_image_idx(0b0001, 3), 0b0101);
}

#[test]
fn should_not_find_non_existent_value() {
    let table = HashTable::new(3);

    assert!(table.get(10).is_empty())
}

#[test]
fn should_put_get() {
    let mut table = HashTable::new(3);

    table.put(10, 11);
    assert_eq!(table.get(10), vec![11])
}

#[test]
fn should_put_get_multiple_values() {
    let mut table = HashTable::new(3);

    table.put(10, 11);
    table.put(10, 12);
    assert_eq!(table.get(10), vec![11, 12])
}

#[test]
fn should_put_get_multiple() {
    let mut table = HashTable::new(3);
    let keys = [16u32, 4, 6, 22, 24, 10, 31, 7, 9, 20, 26];
    for k in keys {
        table.put(k, k);
        assert_eq!(table.get(k), vec![k]);
    }
    for k in keys {
        assert_eq!(table.get(k), vec![k]);
    }
}

#[test]
fn should_put_get_many() {
    let mut table = HashTable::new(491);

    for i in 1..10000 {
        table.put(i, i);
        table.put(i, 2 * i);
        assert_eq!(table.get(i), vec![i, 2 * i]);
    }

    for i in 1..10000 {
        assert_eq!(table.get(i), vec![i, 2 * i]);
    }
}

#[test]
fn mask_and_split_image_at_the_top_bit() {
    assert_eq!(HashTable::mask(0xFFFF_FFFF, 31), 0x7FFF_FFFF);
    assert_eq!(HashTable::mask(0xABCD, 0), 0);
    assert_eq!(HashTable::split_image_idx(0, 32), 0x8000_0000);
    assert_eq!(HashTable::split_image_idx(5, 33), 5);
}

#[test]
fn values_come_back_in_insertion_order_under_collisions() {
    let mut table = HashTable::new(2);
    let keys = [0u32, 8, 16, 24, 32, 0, 8, 64, 128, 0];
    for (n, k) in keys.iter().enumerate() {
        table.put(*k, n as u32);
    }
    assert_eq!(table.get(0), vec![0, 5, 9]);
    assert_eq!(table.get(8), vec![1, 6]);
    assert_eq!(table.get(128), vec![8]);
    assert!(table.get(1).is_empty());
}

#[test]
fn directory_slots_agree_with_bucket_keys() {
    let mut table = HashTable::new(2);
    for k in 0u32..64 {
        table.put(k * 3, k);
    }
    for (slot, b) in table.directories.iter().enumerate() {
        let bucket = &table.buckets[*b];
        assert!(bucket.depth >= 1 && bucket.depth <= table.depth);
        for t in &bucket.tuples {
            assert_eq!(HashTable::mask(t.key, bucket.depth), HashTable::mask(slot as u32, bucket.depth));
        }
    }
    assert_eq!(table.directories.len(), 1usize << table.depth);
}

#[test]
fn split_moves_only_the_split_image_slot() {
    let mut table = HashTable::new(1);
    table.put(0, 0);
    table.put(2, 2);
    table.put(1, 1);
    assert_eq!(table.depth, 2);
    let before = table.directories.clone();
    table.put(3, 3);
    assert_eq!(table.depth, 2);
    let changed: Vec<usize> = (0..before.len()).filter(|j| before[*j] != table.directories[*j]).collect();
    assert_eq!(changed, vec![HashTable::split_image_idx(3, 2) as usize]);
    assert_eq!(changed, vec![1]);
    for k in [0u32, 1, 2, 3] {
        assert_eq!(table.get(k), vec![k]);
    }
}

#[test]
fn global_depth_grows_only_when_a_full_bucket_is_at_global_depth() {
    let mut table = HashTable::new(1);
    table.put(0, 0);
    assert_eq!(table.depth, 1);
    table.put(2, 2);
    assert_eq!(table.depth, 2);
    table.put(1, 1);
    assert_eq!(table.depth, 2);
    table.put(3, 3);
    assert_eq!(table.depth, 2);
}
