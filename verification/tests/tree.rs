use bst::AVLTreeMap;

#[test]
fn map_starts_empty() {
    let map: AVLTreeMap<i32, i32> = AVLTreeMap::new();
    assert_eq!(map.len(), 0);
    assert!(map.is_empty());
    assert_eq!(map.get(&1), None);
    assert_eq!(map.get_key_value(&1), None);
    assert!(!map.contains_key(&1));
    assert_eq!(map.nth_key_value(0), None);
    let map: AVLTreeMap<i32, i32> = AVLTreeMap::default();
    assert!(map.is_empty());
}

#[test]
fn map_insert_and_get() {
    let mut map = AVLTreeMap::new();
    assert_eq!(map.insert(3, "three"), None);
    assert_eq!(map.insert(1, "one"), None);
    assert_eq!(map.insert(2, "two"), None);
    assert_eq!(map.len(), 3);
    assert!(!map.is_empty());
    assert_eq!(map.get(&1), Some(&"one"));
    assert_eq!(map.get(&2), Some(&"two"));
    assert_eq!(map.get(&3), Some(&"three"));
    assert_eq!(map.get(&4), None);
    assert_eq!(map.get_key_value(&2), Some((&2, &"two")));
    assert!(map.contains_key(&3));
    assert!(!map.contains_key(&0));
}

#[test]
fn map_insert_overwrites() {
    let mut map = AVLTreeMap::new();
    assert_eq!(map.insert(7, 70), None);
    assert_eq!(map.insert(7, 71), Some(70));
    assert_eq!(map.insert(7, 72), Some(71));
    assert_eq!(map.len(), 1);
    assert_eq!(map.get(&7), Some(&72));
    assert_eq!(map.nth_key_value(0), Some((&7, &72)));
}

#[test]
fn map_nth_key_value_is_in_key_order() {
    let mut map = AVLTreeMap::new();
    for key in [4, 6, 2, 5, 1, 7, 3] {
        map.insert(key, key * key);
    }
    for i in 0..7 {
        let key = i as i32 + 1;
        assert_eq!(map.nth_key_value(i), Some((&key, &(key * key))));
    }
    assert_eq!(map.nth_key_value(7), None);
    assert_eq!(map.nth_key_value(8), None);
    assert_eq!(map.nth_key_value(usize::MAX), None);
}

#[test]
fn map_remove_gives_value() {
    let mut map = AVLTreeMap::new();
    for key in [2, 1, 3] {
        map.insert(key, key + 100);
    }
    assert_eq!(map.remove(&1), Some(101));
    assert_eq!(map.remove(&1), None);
    assert_eq!(map.len(), 2);
    assert_eq!(map.nth_key_value(0), Some((&2, &102)));
    assert_eq!(map.nth_key_value(1), Some((&3, &103)));
    assert_eq!(map.nth_key_value(2), None);
}

#[test]
fn map_remove_entry_gives_entry() {
    let mut map = AVLTreeMap::new();
    for key in [4, 2, 6, 1, 3, 5, 7] {
        map.insert(key, key.to_string());
    }
    assert_eq!(map.remove_entry(&5), Some((5, "5".to_string())));
    assert_eq!(map.remove_entry(&5), None);
    assert_eq!(map.len(), 6);
    let keys: Vec<i32> = (0..map.len()).map(|i| *map.nth_key_value(i).unwrap().0).collect();
    assert_eq!(keys, [1, 2, 3, 4, 6, 7]);
    assert!(!map.contains_key(&5));
}

#[test]
fn map_remove_absent_changes_nothing() {
    let mut map = AVLTreeMap::new();
    for key in [10, 20, 30] {
        map.insert(key, ());
    }
    assert_eq!(map.remove(&15), None);
    assert_eq!(map.remove_entry(&35), None);
    assert_eq!(map.len(), 3);
    let keys: Vec<i32> = (0..map.len()).map(|i| *map.nth_key_value(i).unwrap().0).collect();
    assert_eq!(keys, [10, 20, 30]);
}

#[test]
fn map_insert_then_remove_restores() {
    let mut map = AVLTreeMap::new();
    for key in [8, 3, 10, 1, 6, 14, 4, 7, 13] {
        map.insert(key, key);
    }
    let before: Vec<i32> = (0..map.len()).map(|i| *map.nth_key_value(i).unwrap().0).collect();
    assert_eq!(map.insert(5, 5), None);
    assert_eq!(map.len(), 10);
    assert_eq!(map.remove(&5), Some(5));
    assert_eq!(map.len(), 9);
    let after: Vec<i32> = (0..map.len()).map(|i| *map.nth_key_value(i).unwrap().0).collect();
    assert_eq!(after, before);
}

#[test]
fn map_len_follows_inserts_and_removes() {
    let mut map = AVLTreeMap::new();
    let mut held = std::collections::BTreeMap::new();
    let mut seed: u64 = 99;
    for _ in 0..2000 {
        seed = seed.wrapping_mul(6364136223846793005).wrapping_add(1442695040888963407);
        let key = (seed >> 33) % 97;
        seed = seed.wrapping_mul(6364136223846793005).wrapping_add(1442695040888963407);
        if (seed >> 33) % 3 == 0 {
            assert_eq!(map.remove(&key), held.remove(&key));
        } else {
            assert_eq!(map.insert(key, seed), held.insert(key, seed));
        }
        assert_eq!(map.len(), held.len());
        assert_eq!(map.is_empty(), held.is_empty());
    }
    for (i, (key, val)) in held.iter().enumerate() {
        assert_eq!(map.nth_key_value(i), Some((key, val)));
        assert_eq!(map.get(key), Some(val));
    }
    assert_eq!(map.nth_key_value(held.len()), None);
}

#[test]
fn map_with_owned_string_keys() {
    let mut map = AVLTreeMap::new();
    map.insert("b".to_string(), 2);
    map.insert("a".to_string(), 1);
    map.insert("c".to_string(), 3);
    assert_eq!(map.get(&"a".to_string()), Some(&1));
    assert_eq!(map.nth_key_value(2), Some((&"c".to_string(), &3)));
    assert_eq!(map.remove_entry(&"b".to_string()), Some(("b".to_string(), 2)));
    assert_eq!(map.len(), 2);
}
