use persistent_ds::hashmap::{path_of, HashMap};
use std::hash::{Hash, Hasher};

#[derive(PartialEq, Clone)]
struct K {
    x: i8,
}

impl Hash for K {
    fn hash<H: Hasher>(&self, _: &mut H) {}
}

#[test]
fn insert_and_retrieve_values_set() {
    let m1 = HashMap::new();
    let m2 = m1.insert(1238).insert(-1).insert(1238);
    assert!(m2.search(&1238));
    assert!(!m1.search(&-1));
    // 1238 was inserted twice and each delete takes one entry away
    let once = m2.delete(1238).unwrap();
    assert!(!once.delete(1238).unwrap().search(&1238))
}

#[test]
fn insert_and_retrieve_values() {
    let m1 = HashMap::new();
    let m2 = m1.put(1238, 1).put(-1, 10);
    assert_eq!(m2.get(&1238), Some(&1));
    assert_eq!(m1.get(&-1), None);
}

#[test]
fn handle_hash_collisions() {
    let m = HashMap::new().put(K { x: 1 }, 1).put(K { x: -1 }, 10);
    assert_eq!(m.get(&K { x: 1 }), Some(&1));
    assert_eq!(m.get(&K { x: -1 }), Some(&10));
}

#[test]
fn delete_entries() {
    let m = HashMap::new()
        .put(K { x: 1 }, 1)
        .put(K { x: -1 }, 10)
        .delete(K { x: 1 });
    assert!(m.is_some());
    let m2 = m.unwrap();
    assert_eq!(m2.get(&K { x: 1 }), None);
    assert_eq!(m2.get(&K { x: -1 }), Some(&10));
}

#[test]
fn hashmap_put_get_delete() {
    let m = HashMap::new().put(1238, 1).put(-1, 10);
    assert_eq!(m.get(&1238), Some(&1));
    assert_eq!(m.get(&-1), Some(&10));
    let m2 = m.delete(1238).unwrap();
    assert_eq!(m2.get(&1238), None);
    assert_eq!(m2.get(&-1), Some(&10));
    assert_eq!(m.get(&1238), Some(&1));
}

#[test]
fn hashmap_delete_absent_key_is_none() {
    let m = HashMap::new().put(1, 1);
    assert!(m.delete(2).is_none());
    let empty: HashMap<i32, i32> = HashMap::new();
    assert!(empty.delete(1).is_none());
}

#[test]
fn hashmap_oldest_entry_of_a_key_is_found() {
    let m = HashMap::new().put(7, "old").put(7, "new");
    assert_eq!(m.get(&7), Some(&"old"));
    let m2 = m.delete(7).unwrap();
    assert_eq!(m2.get(&7), Some(&"new"));
    let m3 = m2.delete(7).unwrap();
    assert_eq!(m3.get(&7), None);
}

#[test]
fn hashmap_default_is_empty() {
    let m: HashMap<i32, i32> = HashMap::default();
    assert_eq!(m.get(&1), None);
    assert!(!HashMap::<i32>::default().search(&1));
}

#[test]
fn hashmap_clone_shares_entries() {
    let m = HashMap::new().put(1, 1);
    let c = m.clone();
    assert_eq!(c.get(&1), Some(&1));
}

#[test]
fn hashmap_same_bucket_given_hash() {
    let m = HashMap::new()
        .put_hashed(5, "a", 1)
        .put_hashed(5, "b", 2)
        .put_hashed(6, "a", 3);
    assert_eq!(m.get_hashed(5, &"a"), Some(&1));
    assert_eq!(m.get_hashed(5, &"b"), Some(&2));
    assert_eq!(m.get_hashed(6, &"a"), Some(&3));
    assert_eq!(m.get_hashed(6, &"b"), None);
    assert_eq!(m.get_hashed(7, &"a"), None);
    let m2 = m.delete_hashed(5, "a").unwrap();
    assert_eq!(m2.get_hashed(5, &"a"), None);
    assert_eq!(m2.get_hashed(5, &"b"), Some(&2));
    assert_eq!(m2.get_hashed(6, &"a"), Some(&3));
    assert!(m2.delete_hashed(5, "a").is_none());
    assert!(m.delete_hashed(7, "a").is_none());
}

#[test]
fn hash_path_is_lowest_bit_first() {
    let one = path_of(1);
    assert_eq!(one.len(), 64);
    assert!(one[0]);
    assert!(one[1..].iter().all(|b| !*b));
    let top = path_of(1u64 << 63);
    assert!(top[63]);
    assert!(top[..63].iter().all(|b| !*b));
    let six = path_of(6);
    assert_eq!(&six[..4], &[false, true, true, false]);
    assert!(path_of(0).iter().all(|b| !*b));
    assert!(path_of(u64::MAX).iter().all(|b| *b));
}
