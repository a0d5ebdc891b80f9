use storage_core::aa_tree::Node;

#[test]
fn should_create_tree() {
    let node = Node::new_leaf(2);
    let (values, _) = node.collect_to_vec();
    assert_eq!(values, vec![2]);

    let node = node.put(5);
    let (values, _) = node.collect_to_vec();
    assert_eq!(values, vec![2, 5]);

    let node = node.put(1);
    let (values, _) = node.collect_to_vec();
    assert_eq!(values, vec![1, 2, 5]);

    let node = node.put(3);
    let (values, _) = node.collect_to_vec();
    assert_eq!(values, vec![1, 2, 3, 5]);

    let node = node.put(4);
    let (values, _) = node.collect_to_vec();
    assert_eq!(values, vec![1, 2, 3, 4, 5]);
}

#[test]
fn should_not_mutate_existing_tree() {
    let node = Node::new_leaf(2);
    let node = node.put(3);
    let node = node.put(2);
    let node = node.put(4);
    let node = node.put(11);
    let node = node.put(5);

    let (values, levels) = node.collect_to_vec();
    assert_eq!(values, vec![2, 3, 4, 5, 11]);
    assert_eq!(levels, vec![1, 2, 1, 2, 1]);

    let node2 = node.put(6);
    let (values, levels) = node2.collect_to_vec();
    assert_eq!(values, vec![2, 3, 4, 5, 6, 11]);
    assert_eq!(levels, vec![1, 2, 1, 2, 1, 1]);

    let (values, levels) = node.collect_to_vec();
    assert_eq!(values, vec![2, 3, 4, 5, 11]);
    assert_eq!(levels, vec![1, 2, 1, 2, 1]);
}

#[test]
fn should_build_example_1() {
    let node = Node::new_leaf(10);
    let node = node.put(85);
    let node = node.put(15);
    let node = node.put(70);
    let node = node.put(20);
    let node = node.put(60);
    let node = node.put(30);
    let node = node.put(50);
    let node = node.put(65);
    let node = node.put(80);
    let node = node.put(90);
    let node = node.put(40);
    let node = node.put(5);
    let node = node.put(55);
    let node = node.put(35);
    let node = node.put(95);
    let node = node.put(99);

    let (values, levels) = node.collect_to_vec();
    assert_eq!(values, vec![5, 10, 15, 20, 30, 35, 40, 50, 55, 60, 65, 70, 80, 85, 90, 95, 99]);
    assert_eq!(levels, vec![1, 1, 2, 1, 3, 1, 1, 2, 1, 2, 1, 3, 1, 2, 1, 2, 1]);
}

fn build(input: &[u32]) -> Node {
    let mut node = Node::new_leaf(input[0]);
    for v in &input[1..] {
        node = node.put(*v);
    }
    node
}

#[test]
fn in_order_is_sorted_and_deduplicated() {
    let input = vec![7, 3, 9, 3, 1, 7, 7, 20, 0, 15, 9];
    let node = build(&input);
    let (values, _) = node.collect_to_vec();
    let mut expected = input.clone();
    expected.sort();
    expected.dedup();
    assert_eq!(values, expected);
}

#[test]
fn depth_is_logarithmic() {
    for n in 1u32..200 {
        let input: Vec<u32> = (0..n).map(|i| (i * 7919) % 1000).collect();
        let node = build(&input);
        let (values, _) = node.collect_to_vec();
        let distinct = values.len() as u32;
        assert!(node.depth() <= 2 * distinct.ilog2() + 1);
    }
}

#[test]
fn ascending_inserts_stay_balanced() {
    let input: Vec<u32> = (0..1024).collect();
    let node = build(&input);
    assert!(node.depth() <= 2 * 10 + 1);
    let (values, _) = node.collect_to_vec();
    assert_eq!(values, input);
}

#[test]
fn duplicate_put_keeps_tree() {
    let node = build(&[4, 2, 6, 1, 3]);
    let again = node.put(3);
    assert_eq!(again.collect_to_vec(), node.collect_to_vec());
}

#[test]
fn single_leaf_has_depth_one() {
    let node = Node::new_leaf(42);
    assert_eq!(node.depth(), 1);
    assert_eq!(node.collect_to_vec(), (vec![42], vec![1]));
    let node = Node::new(42, 3);
    assert_eq!(node.collect_to_vec(), (vec![42], vec![3]));
}

#[test]
fn aa_levels_hold_after_each_put() {
    let mut node = Node::new_leaf(50);
    for v in [10u32, 90, 30, 70, 20, 80, 40, 60, 5, 95, 55, 45, 35, 25, 15] {
        node = node.put(v);
        check_levels(&node);
    }
}

fn check_levels(n: &Node) {
    if n.left.is_none() && n.right.is_none() {
        assert_eq!(n.level, 1);
    }
    if let Some(l) = &n.left {
        assert!(l.level < n.level);
        check_levels(l);
    }
    if let Some(r) = &n.right {
        assert!(r.level <= n.level);
        if let Some(rr) = &r.right {
            assert!(rr.level < n.level);
        }
        check_levels(r);
    }
}
