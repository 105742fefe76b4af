use persistent_ds::deque::Deque;
use persistent_ds::RefCounter;

#[test]
fn test_deque_push_pop() {
    let deque: Deque<i32> = Deque::empty();
    let deque = deque.push_front(1).push_back(2).push_front(0).push_back(3);
    assert_eq!(deque.length(), 4);

    let (value, deque) = deque.pop_front().unwrap();
    assert_eq!(*value, 0);
    let (value, deque) = deque.pop_back().unwrap();
    assert_eq!(*value, 3);
    let (value, deque) = deque.pop_front().unwrap();
    assert_eq!(*value, 1);
    let (value, deque) = deque.pop_back().unwrap();
    assert_eq!(*value, 2);

    assert_eq!(deque.length(), 0);
    assert!(deque.pop_front().is_none());
    assert!(deque.pop_back().is_none());
}

#[test]
fn test_deque_iter() {
    let deque: Deque<String> = Deque::empty();
    let deque = deque
        .push_front("World".to_string())
        .push_front("Hello".to_string());
    let mut iter = deque.iter();
    assert_eq!(iter.next(), Some(RefCounter::new("Hello".to_string())));
    assert_eq!(iter.next(), Some(RefCounter::new("World".to_string())));
    assert_eq!(iter.next(), None);
}

#[test]
fn demonstrate_readme() {
    // deque: [2, 1]
    let deque: Deque<i32> = Deque::empty().push_front(1).push_front(2);

    // Even with pop_back, deque is still unaltered, since it's immutable
    let (value, _) = deque.pop_back().unwrap();
    assert_eq!(*value, 1);
    assert_eq!(deque.length(), 2);

    // The "new" deque with pop_back is returned as part of the call
    let (value, deque_updated) = deque.pop_front().unwrap();
    assert_eq!(*value, 2);
    assert_eq!(deque_updated.length(), 1);
}

fn items(d: &Deque<i32>) -> Vec<i32> {
    let mut out = Vec::new();
    let mut iter = d.iter();
    while let Some(v) = iter.next() {
        out.push(*v);
    }
    out
}

#[test]
fn deque_pushes_keep_order() {
    let mut d: Deque<i32> = Deque::empty();
    for i in 0..5 {
        d = d.push_back(i);
    }
    for i in 1..4 {
        d = d.push_front(-i);
    }
    assert_eq!(items(&d), vec![-3, -2, -1, 0, 1, 2, 3, 4]);
    assert_eq!(d.length(), 8);
    assert!(!d.is_empty());
}

#[test]
fn deque_single_value_pops_from_either_end() {
    let d: Deque<i32> = Deque::empty().push_back(7);
    let (v, rest) = d.pop_front().unwrap();
    assert_eq!(*v, 7);
    assert!(rest.is_empty());
    let (v, rest) = d.pop_back().unwrap();
    assert_eq!(*v, 7);
    assert!(rest.is_empty());
}

#[test]
fn deque_pop_front_with_empty_front_part_takes_from_back_part() {
    // front part [0], back part [3, 2]: the queue is 0, 2, 3
    let d: Deque<i32> = Deque::empty().push_front(0).push_back(2).push_back(3);
    assert_eq!(items(&d), vec![0, 2, 3]);
    let (v, d) = d.pop_front().unwrap();
    assert_eq!(*v, 0);
    // the front part is empty now, and pops do not rebalance
    let (v, d) = d.pop_front().unwrap();
    assert_eq!(*v, 3);
    assert_eq!(items(&d), vec![2]);
}

#[test]
fn deque_empty() {
    let d: Deque<i32> = Deque::empty();
    assert!(d.is_empty());
    assert_eq!(d.length(), 0);
    assert!(d.iter().next().is_none());
    assert!(d.clone().pop_front().is_none());
}
