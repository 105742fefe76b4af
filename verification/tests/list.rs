use persistent_ds::list::List;

#[test]
fn test_iter() {
    let l = List::empty()
        .push_front(4)
        .push_front(3)
        .push_front(2)
        .push_front(1);
    let v = [1, 2, 3, 4];
    let mut iter = l.iter();
    let mut idx = 0;
    while let Some(val) = iter.next() {
        assert_eq!(v[idx], *val);
        idx += 1;
    }
    assert_eq!(idx, 4);
}

#[test]
fn test_split() {
    let l = List::empty()
        .push_front(4)
        .push_front(3)
        .push_front(2)
        .push_front(1);
    let (a, b) = l.split();
    assert_eq!(a.length(), 2);
    assert_eq!(b.length(), 2);
}

#[test]
fn test_list() {
    // Create an empty list and verify its properties.
    let empty_list = List::empty();
    assert_eq!(empty_list.length(), 0);
    assert!(empty_list.is_empty());
    assert!(empty_list.pop_front().is_none());
    assert!(empty_list.front().is_none());

    // Push elements and check its properties.
    let list = empty_list.push_front(123).push_front(987);
    assert_eq!(list.length(), 2);
    assert!(!list.is_empty());
    assert_eq!(list.front(), Some(&987));

    // Pop front and verify the popped element and remaining list.
    let (popped_element, remaining_list) = list.pop_front().unwrap();
    assert_eq!(*popped_element, 987);
    assert_eq!(remaining_list.length(), 1);
    assert_eq!(remaining_list.front(), Some(&123));
}

#[test]
fn test_list_reverse() {
    let list = List::empty().push_front(1).push_front(2);
    let reversed_list = list.reverse();

    // Verify that reversed_list indeed contains elements in reverse order
    let (first_element, list_after_first_pop) = reversed_list.pop_front().unwrap();
    assert_eq!(*first_element, 1);

    let (second_element, _) = list_after_first_pop.pop_front().unwrap();
    assert_eq!(*second_element, 2);
}

fn items(l: &List<i32>) -> Vec<i32> {
    let mut out = Vec::new();
    let mut iter = l.iter();
    while let Some(v) = iter.next() {
        out.push(*v);
    }
    out
}

#[test]
fn list_split_of_odd_length() {
    let l = List::empty()
        .push_front(5)
        .push_front(4)
        .push_front(3)
        .push_front(2)
        .push_front(1);
    let (a, b) = l.split();
    assert_eq!(items(&a), vec![1, 2]);
    assert_eq!(items(&b), vec![3, 4, 5]);
    assert_eq!(items(&l), vec![1, 2, 3, 4, 5]);
}

#[test]
fn list_split_of_empty_and_single() {
    let e: List<i32> = List::empty();
    let (a, b) = e.split();
    assert!(a.is_empty() && b.is_empty());
    let (a, b) = e.push_front(1).split();
    assert!(a.is_empty());
    assert_eq!(items(&b), vec![1]);
}

#[test]
fn list_reverse_leaves_the_list_as_it_was() {
    let l = List::empty().push_front(3).push_front(2).push_front(1);
    let r = l.reverse();
    assert_eq!(items(&r), vec![3, 2, 1]);
    assert_eq!(items(&l), vec![1, 2, 3]);
    assert_eq!(r.length(), 3);
    assert!(List::<i32>::empty().reverse().is_empty());
}

#[test]
fn list_pop_front_rc_shares_value() {
    let l = List::empty().push_front(2).push_front(1);
    let (v, rest) = l.pop_front_rc().unwrap();
    assert_eq!(*v, 1);
    assert_eq!(items(&rest), vec![2]);
    assert!(List::<i32>::empty().pop_front_rc().is_none());
    assert_eq!(items(&l.clone()), vec![1, 2]);
}
