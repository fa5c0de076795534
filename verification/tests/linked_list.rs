use grpc::attributes::linked_list::LinkedList;

fn collect(l: &LinkedList<i32, &'static str>) -> Vec<(i32, &'static str)> {
    let mut it = l.iter();
    let mut out = Vec::new();
    while let Some((k, v)) = it.next() {
        out.push((*k, *v));
    }
    out
}

#[test]
fn test_add_and_iter() {
    let l = LinkedList::new().add(1, "a").add(2, "b").add(3, "c");
    let v = collect(&l);
    assert_eq!(v, vec![(3, "c"), (2, "b"), (1, "a")]);
}

#[test]
fn linked_list_test_persistence() {
    let l1 = LinkedList::new().add(1, "a");
    let l2 = l1.add(2, "b");

    let v1 = collect(&l1);
    assert_eq!(v1, vec![(1, "a")]);

    let v2 = collect(&l2);
    assert_eq!(v2, vec![(2, "b"), (1, "a")]);
}

#[test]
fn test_shadowing() {
    let l = LinkedList::new().add(1, "a").add(1, "b");
    let v = collect(&l);
    assert_eq!(v, vec![(1, "b")]);
}

#[test]
fn linked_list_get_returns_newest() {
    let l = LinkedList::new().add(1, "a").add(2, "b").add(1, "c");
    assert_eq!(l.get(&1), Some(&"c"));
    assert_eq!(l.get(&2), Some(&"b"));
    assert_eq!(l.get(&3), None);
}

#[test]
fn linked_list_remove_hides_key() {
    let l1 = LinkedList::new().add(1, "a").add(2, "b");
    let l2 = l1.remove(1);
    assert_eq!(l2.get(&1), None);
    assert_eq!(l2.get(&2), Some(&"b"));
    assert_eq!(collect(&l2), vec![(2, "b")]);
    // The older version still has the key.
    assert_eq!(l1.get(&1), Some(&"a"));
    // Adding the key again after its removal makes it visible again.
    let l3 = l2.add(1, "z");
    assert_eq!(l3.get(&1), Some(&"z"));
    assert_eq!(collect(&l3), vec![(1, "z"), (2, "b")]);
}

#[test]
fn linked_list_iteration_puts_the_newest_write_first() {
    let l = LinkedList::new().add(1, "a").add(2, "b").add(3, "c");
    assert_eq!(collect(&l.add(2, "B")), vec![(2, "B"), (3, "c"), (1, "a")]);
    assert_eq!(collect(&l.remove(2)), vec![(3, "c"), (1, "a")]);
    assert_eq!(collect(&l.remove(7)), vec![(3, "c"), (2, "b"), (1, "a")]);
    assert_eq!(collect(&l.remove(2).add(2, "x")), vec![(2, "x"), (3, "c"), (1, "a")]);
}

#[test]
fn linked_list_get_after_add_and_iteration_of_adds() {
    let l = LinkedList::new().add(1, "a").add(2, "b");
    let added = l.add(1, "c");
    assert_eq!(added.get(&1), Some(&"c"));
    assert_eq!(added.get(&2), l.get(&2));
    assert_eq!(LinkedList::<i32, &str>::new().get(&1), None);
    assert_eq!(collect(&added.add(3, "d")), vec![(3, "d"), (1, "c"), (2, "b")]);
}
