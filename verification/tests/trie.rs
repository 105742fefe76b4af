use persistent_ds::trie::Trie;

#[test]
fn test_trie_store() {
    let t = Trie::empty_store().insert_store("aab".as_bytes(), 123);
    let t2 = t.insert_store("adc".as_bytes(), 459);
    let boxed_array: Box<[&i32]> = Box::new([&123]);
    let boxed_array_2: Box<[&i32]> = Box::new([&459]);
    assert_eq!(t.get_store("aab".as_bytes()), Option::Some(boxed_array.clone()));
    assert!(t.get_store("adc".as_bytes()).is_none());
    assert_eq!(t2.get_store("aab".as_bytes()), Option::Some(boxed_array));
    assert_eq!(t2.get_store("adc".as_bytes()), Option::Some(boxed_array_2));
}

#[test]
fn test_trie_persistance_simple() {
    let t = Trie::empty().insert("aab".as_bytes()).insert("adc".as_bytes());
    assert!(t.search("aab".as_bytes()));
    assert!(t.search("adc".as_bytes()));
}

#[test]
fn test_trie_persistance() {
    let vs = vec!["aab", "adc", "acd", "dca"];
    let snapshots: Vec<_> = vs
        .iter()
        .scan(Trie::empty(), |tree, value| {
            *tree = tree.insert(value.as_bytes());
            Option::Some(tree.clone())
        })
        .collect();
    for (index, tree) in snapshots.iter().enumerate() {
        let found = vs
            .iter()
            .map(|s| tree.search(s.as_bytes()))
            .filter(|found| *found == true)
            .count();
        assert_eq!(found, index + 1);
    }
}

#[test]
fn test_search_present() {
    let v = vec![1, 5, 9];
    let not_v = vec![1, 15, 9];
    let t = Trie::empty().insert(&v);
    assert!(t.search(&v));
    assert!(!t.search(&not_v));
}

#[test]
fn test_search_absent() {
    let s = "test";
    let not_s = "tett";
    let t = Trie::empty().insert(s.as_bytes());
    assert!(t.search(s.as_bytes()));
    assert!(!t.search(not_s.as_bytes()));
}

#[test]
fn test_trie_deletion() {
    let t = Trie::empty().insert("aab".as_bytes()).delete("aab".as_bytes());
    assert!(t.is_some());
    assert_eq!(t.unwrap().search("aab".as_bytes()), false);
    let t2 = Trie::empty();
    assert!(t2.delete("a".as_bytes()).is_none());
}

#[test]
fn test_insert_empty_string() {
    let t = Trie::empty().insert("".as_bytes());
    assert!(t.search("".as_bytes()));
}

#[test]
fn test_multiple_values_for_same_key() {
    let t = Trie::empty_store()
        .insert_store("key".as_bytes(), 1)
        .insert_store("key".as_bytes(), 2);
    let values = t.get_store("key".as_bytes()).unwrap();
    assert!(values.contains(&&1) && values.contains(&&2));
}

#[test]
fn test_delete_internal_node() {
    let t = Trie::empty()
        .insert("abc".as_bytes())
        .insert("ab".as_bytes())
        .delete("ab".as_bytes())
        .unwrap();
    assert!(!t.search("ab".as_bytes()));
    assert!(t.search("abc".as_bytes()));
}

#[test]
fn test_persistence_after_delete() {
    let t1 = Trie::empty().insert("key".as_bytes());
    let t2 = t1.delete("key".as_bytes()).unwrap_or_else(|| t1.clone());
    assert!(t1.search("key".as_bytes()));
    assert!(!t2.search("key".as_bytes()));
}

#[test]
fn test_search_nonexistent_key() {
    let t = Trie::empty().insert("key".as_bytes());
    assert!(!t.search("not_key".as_bytes()));
}

#[test]
fn test_delete_nonexistent_key() {
    let t = Trie::empty().insert("key".as_bytes());
    assert!(t.delete("not_key".as_bytes()).is_none());
}

#[test]
fn test_readme() {
    // Insert words
    let mut trie = Trie::empty()
        .insert("apple".as_bytes())
        .insert("app".as_bytes())
        .insert("banana".as_bytes());

    // Snapshot the current trie. This operation is lightweight.
    let snapshot = trie.clone();

    // Insert more words
    trie = trie.insert("grape".as_bytes()).insert("banana-split".as_bytes());

    // Check for words in current trie
    assert_eq!(trie.search("grape".as_bytes()), true);

    // Restore trie to a previous of moment in time
    trie = snapshot;

    // Word was not present at snapshop moment
    assert_eq!(trie.search("grape".as_bytes()), false);
}

#[test]
fn trie_store_two_paths() {
    let t = Trie::empty_store()
        .insert_store("aab".as_bytes(), 123)
        .insert_store("adc".as_bytes(), 459);
    let first: Box<[&i32]> = Box::new([&123]);
    let second: Box<[&i32]> = Box::new([&459]);
    assert_eq!(t.get_store("aab".as_bytes()), Some(first));
    assert_eq!(t.get_store("adc".as_bytes()), Some(second));
    assert_eq!(t.get_store("ab".as_bytes()), None);
}

#[test]
fn trie_bag_keeps_insertion_order_and_duplicates() {
    let t = Trie::empty_store()
        .insert_store("k".as_bytes(), 2)
        .insert_store("k".as_bytes(), 1)
        .insert_store("k".as_bytes(), 2);
    let expected: Box<[&i32]> = Box::new([&2, &1, &2]);
    assert_eq!(t.get_store("k".as_bytes()), Some(expected));
}

#[test]
fn trie_delete_store_takes_first_equal_entry_only() {
    let t = Trie::empty_store()
        .insert_store("k".as_bytes(), 2)
        .insert_store("k".as_bytes(), 1)
        .insert_store("k".as_bytes(), 2);
    let once = t.delete_store("k".as_bytes(), &2).unwrap();
    let left: Box<[&i32]> = Box::new([&1, &2]);
    assert_eq!(once.get_store("k".as_bytes()), Some(left));
    let twice = once.delete_store("k".as_bytes(), &2).unwrap();
    let last: Box<[&i32]> = Box::new([&1]);
    assert_eq!(twice.get_store("k".as_bytes()), Some(last));
    assert!(twice.delete_store("k".as_bytes(), &2).is_none());
    let all: Box<[&i32]> = Box::new([&2, &1, &2]);
    assert_eq!(t.get_store("k".as_bytes()), Some(all));
}

#[test]
fn trie_delete_store_without_match_is_none() {
    let t = Trie::empty_store().insert_store("k".as_bytes(), 1);
    assert!(t.delete_store("k".as_bytes(), &7).is_none());
    assert!(t.delete_store("x".as_bytes(), &1).is_none());
    assert!(t.delete_store("kk".as_bytes(), &1).is_none());
    assert!(t.delete_store("".as_bytes(), &1).is_none());
}

#[test]
fn trie_root_bag() {
    let t = Trie::empty_store().insert_store("".as_bytes(), 5);
    let at_root: Box<[&i32]> = Box::new([&5]);
    assert_eq!(t.get_store("".as_bytes()), Some(at_root));
    assert_eq!(t.get_store("a".as_bytes()), None);
    let t2 = t.delete_store("".as_bytes(), &5).unwrap();
    assert_eq!(t2.get_store("".as_bytes()), None);
}

#[test]
fn trie_prefix_of_stored_path_is_empty() {
    let t = Trie::empty_store().insert_store("abc".as_bytes(), 1);
    assert_eq!(t.get_store("ab".as_bytes()), None);
    assert_eq!(t.get_store("abcd".as_bytes()), None);
    assert!(t.get_store("abc".as_bytes()).is_some());
}

#[test]
fn trie_delete_leaves_other_paths() {
    let t = Trie::empty()
        .insert("ab".as_bytes())
        .insert("ac".as_bytes())
        .insert("b".as_bytes());
    let t2 = t.delete("ac".as_bytes()).unwrap();
    assert!(t2.search("ab".as_bytes()));
    assert!(!t2.search("ac".as_bytes()));
    assert!(t2.search("b".as_bytes()));
    assert!(t.search("ac".as_bytes()));
}

#[test]
fn trie_empty_has_nothing() {
    let t: Trie<u8, i32> = Trie::empty();
    assert_eq!(t.get_store("".as_bytes()), None);
    assert_eq!(t.get_store("a".as_bytes()), None);
    let s: Trie<u8, i32> = Trie::empty_store();
    assert_eq!(s.get_store("".as_bytes()), None);
}
