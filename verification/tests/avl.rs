use persistent_ds::avl::AVL;

fn height<K, V>(t: &AVL<K, V>) -> i64 {
    match t {
        AVL::Empty => -1,
        AVL::Node { left, right, .. } => 1 + height(left).max(height(right)),
    }
}

fn same_shape<K, V>(a: &AVL<K, V>, b: &AVL<K, V>) -> bool {
    match (a, b) {
        (AVL::Empty, AVL::Empty) => true,
        (
            AVL::Node { left: l1, right: r1, .. },
            AVL::Node { left: l2, right: r2, .. },
        ) => same_shape(l1, l2) && same_shape(r1, r2),
        _ => false,
    }
}

fn balanced<K, V>(t: &AVL<K, V>) -> bool {
    match t {
        AVL::Empty => true,
        AVL::Node { left, right, .. } => {
            balanced(left) && balanced(right) && (height(left) - height(right)).abs() <= 1
        }
    }
}

fn in_order<K: Clone, V: Clone>(t: &AVL<K, V>, out: &mut Vec<(K, V)>) {
    if let AVL::Node {
        key,
        value,
        left,
        right,
    } = t
    {
        in_order(left, out);
        out.push(((**key).clone(), (**value).clone()));
        in_order(right, out);
    }
}

fn entries<K: Clone, V: Clone>(t: &AVL<K, V>) -> Vec<(K, V)> {
    let mut out = Vec::new();
    in_order(t, &mut out);
    out
}

#[test]
fn test_avl_set() {
    let l = AVL::empty().insert(1).insert(2).insert(3).insert(4);
    let l2 = l.clone().insert(5);
    for i in 1..=4 {
        assert!(l.search(&i));
        assert!(l2.search(&i));
    }
    assert!(!l.search(&5));
    assert!(l2.search(&5));
}

#[test]
fn test_avl_map() {
    let l = AVL::empty().put(1, 999);
    let l2 = l.clone().put(1, 123).put(2, 3);
    assert_eq!(l.find(&1), Some(&999));
    assert_eq!(l2.find(&1), Some(&123));
    assert!(l.find(&2).is_none());
    assert!(l2.find(&2).is_some());
}

#[test]
fn test_avl_delete() {
    let l = AVL::empty()
        .insert(1)
        .insert(2)
        .insert(3)
        .insert(4)
        .insert(5);
    let l = l.delete(&3);
    assert!(!l.search(&3));
    assert!(l.search(&1));
    assert!(l.search(&2));
    assert!(l.search(&4));
    assert!(l.search(&5));
}

#[test]
fn avl_insert_four_delete_three() {
    let t0 = AVL::empty();
    assert!(balanced(&t0));
    let t1 = t0.insert(1);
    assert!(balanced(&t1));
    let t2 = t1.insert(2);
    assert!(balanced(&t2));
    let t3 = t2.insert(3);
    assert!(balanced(&t3));
    let t4 = t3.insert(4);
    assert!(balanced(&t4));
    let t5 = t4.delete(&3);
    assert!(balanced(&t5));
    assert!(!t5.search(&3));
    assert!(t5.search(&1));
    assert!(t5.search(&2));
    assert!(t5.search(&4));
}

#[test]
fn avl_empty_tree() {
    let t: AVL<i32, i32> = AVL::empty();
    assert!(t.is_empty());
    assert_eq!(t.find(&7), None);
    assert!(t.delete(&7).is_empty());
    assert!(!t.put(7, 1).is_empty());
}

#[test]
fn avl_ascending_inserts_stay_balanced_and_ordered() {
    let mut t = AVL::empty();
    for i in 0..200 {
        t = t.put(i, i * 10);
        assert!(balanced(&t));
    }
    assert_eq!(height(&t), 7);
    let all = entries(&t);
    assert_eq!(all.len(), 200);
    for (i, (k, v)) in all.iter().enumerate() {
        assert_eq!(*k, i as i32);
        assert_eq!(*v, (i as i32) * 10);
    }
}

#[test]
fn avl_mixed_updates_stay_balanced_and_ordered() {
    let mut t = AVL::empty();
    let mut x: u64 = 12345;
    for _ in 0..500 {
        x = x.wrapping_mul(6364136223846793005).wrapping_add(1442695040888963407);
        let k = ((x >> 33) % 64) as i32;
        if (x >> 20) % 3 == 0 {
            t = t.delete(&k);
            assert_eq!(t.find(&k), None);
        } else {
            t = t.put(k, k + 1);
            assert_eq!(t.find(&k), Some(&(k + 1)));
        }
        assert!(balanced(&t));
        let all = entries(&t);
        for w in all.windows(2) {
            assert!(w[0].0 < w[1].0);
        }
    }
}

#[test]
fn avl_rotations_keep_entries() {
    // left-left, right-right, left-right and right-left shapes
    for keys in [[3, 2, 1], [1, 2, 3], [3, 1, 2], [1, 3, 2]] {
        let mut t = AVL::empty();
        for k in keys {
            t = t.put(k, ());
        }
        assert_eq!(height(&t), 1);
        assert_eq!(entries(&t), vec![(1, ()), (2, ()), (3, ())]);
    }
}

#[test]
fn avl_put_replaces_value_and_keeps_shape() {
    let t = AVL::empty().put(2, "b").put(1, "a").put(3, "c");
    let t2 = t.put(2, "z");
    assert_eq!(t2.find(&2), Some(&"z"));
    assert_eq!(t.find(&2), Some(&"b"));
    assert_eq!(height(&t2), height(&t));
    assert!(same_shape(&t2, &t));
    assert_eq!(entries(&t2), vec![(1, "a"), (2, "z"), (3, "c")]);
}

#[test]
fn avl_delete_node_with_two_children_takes_predecessor() {
    let t = AVL::empty().put(2, 20).put(1, 10).put(3, 30);
    let t2 = t.delete(&2);
    match &t2 {
        AVL::Node {
            key,
            value,
            left,
            right,
        } => {
            assert_eq!(**key, 1);
            assert_eq!(**value, 10);
            assert!(left.is_empty());
            assert_eq!(entries(right), vec![(3, 30)]);
            assert_eq!(height(right), 0);
        }
        AVL::Empty => panic!("two entries are left"),
    }
    assert_eq!(entries(&t2), vec![(1, 10), (3, 30)]);
    assert_eq!(entries(&t), vec![(1, 10), (2, 20), (3, 30)]);
}

#[test]
fn avl_delete_absent_key_changes_nothing() {
    let t = AVL::empty().put(1, 1).put(2, 2);
    let t2 = t.delete(&5);
    assert_eq!(entries(&t2), entries(&t));
}

#[test]
fn avl_put_then_delete_restores_other_keys() {
    let t = AVL::empty().put(1, 1).put(5, 5).put(9, 9);
    let t2 = t.put(4, 4).delete(&4);
    assert_eq!(t2.find(&4), None);
    for k in [1, 5, 9] {
        assert_eq!(t2.find(&k), t.find(&k));
    }
}

#[test]
fn avl_old_version_unchanged_by_new_ones() {
    let t = AVL::empty().put(1, 1);
    let before = t.find(&1).copied();
    let newer = t.put(1, 2);
    let gone = t.delete(&1);
    assert_eq!(t.find(&1).copied(), before);
    assert_eq!(newer.find(&1), Some(&2));
    assert_eq!(gone.find(&1), None);
}

#[test]
fn avl_height_counts_edges() {
    let empty: AVL<i32> = AVL::empty();
    assert_eq!(height(&empty), -1);
    let one = empty.insert(7);
    assert_eq!(height(&one), 0);
    match &one {
        AVL::Node { left, right, .. } => assert!(left.is_empty() && right.is_empty()),
        AVL::Empty => panic!("one entry was put"),
    }
    let two = one.insert(8);
    assert_eq!(height(&two), 1);
    let three = two.insert(9);
    assert_eq!(height(&three), 1);
    let four = three.insert(10);
    assert_eq!(height(&four), 2);
}

#[test]
fn avl_put_on_present_key_keeps_every_node_in_place() {
    let mut t = AVL::empty();
    for k in [50, 20, 70, 10, 30, 60, 80, 5, 25, 65] {
        t = t.put(k, k);
    }
    for k in [50, 20, 70, 10, 30, 60, 80, 5, 25, 65] {
        let t2 = t.put(k, -k);
        assert!(same_shape(&t2, &t));
        assert_eq!(height(&t2), height(&t));
        assert_eq!(entries(&t2).len(), 10);
        assert_eq!(t2.find(&k), Some(&-k));
    }
}

#[test]
fn avl_delete_node_with_one_child_lifts_that_child() {
    let t = AVL::empty().put(2, 2).put(1, 1).put(3, 3).put(4, 4);
    let t2 = t.delete(&3);
    assert_eq!(entries(&t2), vec![(1, 1), (2, 2), (4, 4)]);
    match &t2 {
        AVL::Node { key, right, .. } => {
            assert_eq!(**key, 2);
            assert_eq!(entries(right), vec![(4, 4)]);
        }
        AVL::Empty => panic!("three entries are left"),
    }
}
