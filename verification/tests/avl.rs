use grpc::attributes::avl::Avl;

fn pairs(t: &Avl<i32, i32>) -> Vec<(i32, i32)> {
    let mut it = t.iter();
    let mut out = Vec::new();
    while let Some((k, v)) = it.next() {
        out.push((*k, *v));
    }
    out
}

#[test]
fn test_insert_and_get() {
    let t = Avl::new();
    let t = t.add(1, "one");
    let t = t.add(2, "two");
    let t = t.add(3, "three");

    assert_eq!(t.get(&1), Some(&"one"));
    assert_eq!(t.get(&2), Some(&"two"));
    assert_eq!(t.get(&3), Some(&"three"));
    assert_eq!(t.get(&4), None);
}

#[test]
fn avl_test_overwrite() {
    let t = Avl::new();
    let t = t.add(1, "one");
    let t = t.add(1, "ONE");
    assert_eq!(t.get(&1), Some(&"ONE"));
}

#[test]
fn avl_test_persistence() {
    let t1 = Avl::new().add(1, "one");
    let t2 = t1.add(2, "two");

    assert_eq!(t1.get(&1), Some(&"one"));
    assert_eq!(t1.get(&2), None);

    assert_eq!(t2.get(&1), Some(&"one"));
    assert_eq!(t2.get(&2), Some(&"two"));
}

#[test]
fn avl_test_remove() {
    let t = Avl::new().add(1, 1).add(2, 2).add(3, 3);
    let t2 = t.remove(&2);

    assert_eq!(t.get(&2), Some(&2));
    assert_eq!(t2.get(&2), None);
    assert_eq!(t2.get(&1), Some(&1));
    assert_eq!(t2.get(&3), Some(&3));
}

#[test]
fn test_iter() {
    let t = Avl::new().add(3, 3).add(1, 1).add(2, 2).add(4, 4);
    let pairs = pairs(&t);
    assert_eq!(pairs, vec![(1, 1), (2, 2), (3, 3), (4, 4)]);
}

#[test]
fn test_empty_tree_behavior() {
    let t: Avl<i32, i32> = Avl::new();
    assert!(t.is_empty());
    assert_eq!(t.height(), 0);
    assert_eq!(t.get(&1), None);

    let t2 = t.remove(&1);
    assert!(t2.is_empty());

    assert_eq!(t.iter().next(), None);
}

#[test]
fn test_rotations() {
    // Left Rotation (Right Heavy)
    let t = Avl::new().add(1, 1).add(2, 2).add(3, 3);
    assert_eq!(t.height(), 2);
    assert_eq!(*t.root_key().unwrap(), 2);

    // Right Rotation (Left Heavy)
    let t = Avl::new().add(3, 3).add(2, 2).add(1, 1);
    assert_eq!(t.height(), 2);
    assert_eq!(*t.root_key().unwrap(), 2);

    // Left-Right Rotation
    let t = Avl::new().add(3, 3).add(1, 1).add(2, 2);
    assert_eq!(t.height(), 2);
    assert_eq!(*t.root_key().unwrap(), 2);

    // Right-Left Rotation
    let t = Avl::new().add(1, 1).add(3, 3).add(2, 2);
    assert_eq!(t.height(), 2);
    assert_eq!(*t.root_key().unwrap(), 2);
}

#[test]
fn test_remove_root_with_children() {
    let t = Avl::new()
        .add(4, 4)
        .add(2, 2)
        .add(6, 6)
        .add(1, 1)
        .add(3, 3)
        .add(5, 5)
        .add(7, 7);

    assert_eq!(t.height(), 3);

    // Both subtrees of the root have height 2, so the largest key of the left
    // subtree (3) replaces the removed root.
    let t2 = t.remove(&4);

    assert_eq!(*t2.root_key().unwrap(), 3);
    assert_eq!(t2.get(&4), None);
    assert_eq!(t2.get(&1), Some(&1));
    assert_eq!(t2.get(&2), Some(&2));
    assert_eq!(t2.get(&3), Some(&3));
    assert_eq!(t2.get(&5), Some(&5));
    assert_eq!(t2.get(&6), Some(&6));
    assert_eq!(t2.get(&7), Some(&7));
}

#[test]
fn test_rebalance_after_remove() {
    let t = Avl::new().add(4, 4).add(2, 2).add(5, 5).add(1, 1).add(3, 3);

    // Removing 5 leaves the root left heavy; a right rotation makes 2 the root.
    let t2 = t.remove(&5);

    assert_eq!(*t2.root_key().unwrap(), 2);
    assert_eq!(t2.height(), 3);
}

#[test]
fn test_eq_ord() {
    let t1 = Avl::new().add(1, 1).add(2, 2);
    let t2 = Avl::new().add(2, 2).add(1, 1);
    let t3 = Avl::new().add(1, 1);

    assert_eq!(t1, t2);
    assert!(t1 > t3);
    assert!(t3 < t1);

    let t4 = Avl::new().add(1, 2);
    assert_ne!(t1, t4);
}

#[test]
fn avl_remove_missing_key_keeps_pairs() {
    let t = Avl::new().add(10, 1).add(20, 2);
    let t2 = t.remove(&15);
    assert_eq!(pairs(&t2), vec![(10, 1), (20, 2)]);
    assert_eq!(t2.height(), t.height());
}

#[test]
fn avl_many_keys_stay_sorted_and_balanced() {
    let mut t = Avl::new();
    for i in 0..100 {
        t = t.add((i * 37) % 100, i);
    }
    let p = pairs(&t);
    assert_eq!(p.len(), 100);
    for (i, (k, _)) in p.iter().enumerate() {
        assert_eq!(*k, i as i32);
    }
    // An AVL tree of 100 keys is at most 9 levels high.
    assert!(t.height() <= 9);
    for i in 0..50 {
        t = t.remove(&(i * 2));
    }
    let p = pairs(&t);
    assert_eq!(p.len(), 50);
    assert!(p.iter().all(|(k, _)| k % 2 == 1));
    assert!(t.height() <= 8);
}

#[test]
fn avl_clone_shares_contents() {
    let t = Avl::new().add(1, 10).add(2, 20);
    let c = t.clone();
    assert_eq!(c, t);
    assert_eq!(c.get(&2), Some(&20));
}

#[test]
fn avl_default_is_empty() {
    let t: Avl<i32, i32> = Avl::default();
    assert!(t.is_empty());
    assert_eq!(t.root_key(), None);
}

#[test]
fn avl_partial_cmp_on_values() {
    let a = Avl::new().add(1, 1).add(2, 5);
    let b = Avl::new().add(1, 1).add(2, 6);
    assert!(a < b);
    assert_eq!(a.partial_cmp(&a.clone()), Some(std::cmp::Ordering::Equal));
    let empty: Avl<i32, i32> = Avl::new();
    assert!(empty < a);
}

fn fib(n: u32) -> u64 {
    let (mut a, mut b) = (0u64, 1u64);
    for _ in 0..n {
        let c = a + b;
        a = b;
        b = c;
    }
    a
}

#[test]
fn avl_size_stays_within_the_balance_bounds() {
    let mut t = Avl::new();
    for i in 0..300 {
        t = t.add(i, i);
        let n = (i + 1) as u64;
        let h = t.height() as u32;
        assert!(n + 1 <= 1u64 << h);
        assert!(n + 1 >= fib(h + 2));
    }
    assert_eq!(Avl::<i32, i32>::new().height(), 0);
    let three = Avl::new().add(5, 5).add(1, 1).add(9, 9);
    assert_eq!(three.height(), 2);
    let four = Avl::new().add(2, 2).add(1, 1).add(3, 3).add(4, 4);
    assert_eq!(four.height(), 3);
    let after = four.remove(&1);
    assert_eq!(after.height(), 2);
    assert_eq!(pairs(&after), vec![(2, 2), (3, 3), (4, 4)]);
}

#[test]
fn avl_removed_root_is_replaced_from_the_higher_side() {
    let t = Avl::new().add(2, 2).add(1, 1).add(3, 3).add(4, 4);
    assert_eq!(*t.root_key().unwrap(), 2);
    // The right subtree is the higher one: the smallest key above 2 moves up.
    let r = t.remove(&2);
    assert_eq!(*r.root_key().unwrap(), 3);
    assert_eq!(pairs(&r), vec![(1, 1), (3, 3), (4, 4)]);
    // Subtrees of equal height: the largest key below the root moves up.
    let s = Avl::new().add(2, 2).add(1, 1).add(3, 3).remove(&2);
    assert_eq!(*s.root_key().unwrap(), 1);
}

#[test]
fn avl_iteration_after_updates_keeps_the_order() {
    let t = Avl::new().add(5, 50).add(1, 10).add(3, 30);
    assert_eq!(pairs(&t.add(4, 40)), vec![(1, 10), (3, 30), (4, 40), (5, 50)]);
    assert_eq!(pairs(&t.add(0, 0)), vec![(0, 0), (1, 10), (3, 30), (5, 50)]);
    assert_eq!(pairs(&t.add(3, 33)), vec![(1, 10), (3, 33), (5, 50)]);
    assert_eq!(pairs(&t.remove(&3)), vec![(1, 10), (5, 50)]);
    assert_eq!(pairs(&t.remove(&4)), pairs(&t));
    let u = Avl::new().add(3, 30).add(5, 50).add(1, 10);
    assert_eq!(pairs(&u), pairs(&t));
}
