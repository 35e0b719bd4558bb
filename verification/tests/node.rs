use bst::NodeRef;

fn make_tree<K: Ord + Clone>(keys: &[K]) -> NodeRef<K, ()> {
    let mut root = NodeRef::Nil;
    for k in keys {
        let k = k.clone();
        (root, _) = root.insert(k, ())
    }
    root
}

#[test]
fn node_insert() {
    let t = make_tree(&[4, 6, 2, 5, 1, 7, 3]);
    assert_eq!(t.lnr(Vec::new()), &[&1, &2, &3, &4, &5, &6, &7]);
    assert_eq!(t.nlr(Vec::new()), &[&4, &2, &1, &3, &6, &5, &7]);
    assert_eq!(t.size(), 7);
    assert_eq!(t.height(), 3);

    let t = make_tree(&[4, 2, 6, 1, 3, 5, 7]);
    assert_eq!(t.lnr(Vec::new()), &[&1, &2, &3, &4, &5, &6, &7]);
    assert_eq!(t.nlr(Vec::new()), &[&4, &2, &1, &3, &6, &5, &7]);
    assert_eq!(t.size(), 7);
    assert_eq!(t.height(), 3);

    let t = make_tree(&[1, 2, 3, 4, 5, 6, 7]);
    assert_eq!(t.lnr(Vec::new()), &[&1, &2, &3, &4, &5, &6, &7]);
    assert_eq!(t.nlr(Vec::new()), &[&4, &2, &1, &3, &6, &5, &7]);
    assert_eq!(t.size(), 7);
    assert_eq!(t.height(), 3);

    let t = make_tree(&[7, 6, 5, 4, 3, 2, 1]);
    assert_eq!(t.lnr(Vec::new()), &[&1, &2, &3, &4, &5, &6, &7]);
    assert_eq!(t.nlr(Vec::new()), &[&4, &2, &1, &3, &6, &5, &7]);
    assert_eq!(t.size(), 7);
    assert_eq!(t.height(), 3);
}

#[test]
fn node_remove() {
    let mut t = make_tree(&[2, 1, 3]);
    (t, _) = t.remove(&1);
    assert_eq!(t.lnr(Vec::new()), &[&2, &3]);
    assert_eq!(t.nlr(Vec::new()), &[&2, &3]);
    assert_eq!(t.size(), 2);
    assert_eq!(t.height(), 2);

    let mut t = make_tree(&[2, 1, 3]);
    (t, _) = t.remove(&3);
    assert_eq!(t.lnr(Vec::new()), &[&1, &2]);
    assert_eq!(t.nlr(Vec::new()), &[&2, &1]);
    assert_eq!(t.size(), 2);
    assert_eq!(t.height(), 2);

    let mut t = make_tree(&[2, 1, 3]);
    (t, _) = t.remove(&2);
    assert_eq!(t.lnr(Vec::new()), &[&1, &3]);
    assert_eq!(t.nlr(Vec::new()), &[&3, &1]);
    assert_eq!(t.size(), 2);
    assert_eq!(t.height(), 2);

    let mut t = make_tree(&[4, 2, 6, 1, 3, 5, 7]);
    (t, _) = t.remove(&5);
    assert_eq!(t.lnr(Vec::new()), &[&1, &2, &3, &4, &6, &7]);
    assert_eq!(t.nlr(Vec::new()), &[&4, &2, &1, &3, &6, &7]);
    assert_eq!(t.size(), 6);
    assert_eq!(t.height(), 3);
}

fn keys_of(t: &NodeRef<i32, ()>) -> Vec<i32> {
    t.lnr(Vec::new()).into_iter().copied().collect()
}

fn preorder_of(t: &NodeRef<i32, ()>) -> Vec<i32> {
    t.nlr(Vec::new()).into_iter().copied().collect()
}

// the height of the tree with this pre-order and in-order, and the greatest
// difference in height between the two children of one of its nodes
fn height_and_lean(pre: &[i32], ino: &[i32]) -> (usize, usize) {
    if pre.is_empty() {
        return (0, 0);
    }
    let at = ino.iter().position(|k| *k == pre[0]).unwrap();
    let (lh, ll) = height_and_lean(&pre[1..1 + at], &ino[..at]);
    let (rh, rl) = height_and_lean(&pre[1 + at..], &ino[at + 1..]);
    let lean = if lh > rh { lh - rh } else { rh - lh };
    (1 + lh.max(rh), lean.max(ll).max(rl))
}

fn scrambled(count: usize, range: u64, mut seed: u64) -> Vec<i32> {
    let mut keys = Vec::new();
    for _ in 0..count {
        seed = seed.wrapping_mul(6364136223846793005).wrapping_add(1442695040888963407);
        keys.push(((seed >> 33) % range) as i32);
    }
    keys
}

#[test]
fn node_new_is_a_leaf() {
    let t = NodeRef::new(5, "five");
    assert!(!t.is_nil());
    assert_eq!(t.key(), Some(&5));
    assert_eq!(t.val(), Some(&"five"));
    assert_eq!(t.entry(), Some((&5, &"five")));
    assert_eq!(t.size(), 1);
    assert_eq!(t.height(), 1);
    assert_eq!(t.lnr(Vec::new()), &[&5]);
}

#[test]
fn node_nil_is_empty() {
    let t: NodeRef<i32, i32> = NodeRef::Nil;
    assert!(t.is_nil());
    assert_eq!(t.key(), None);
    assert_eq!(t.val(), None);
    assert_eq!(t.entry(), None);
    assert_eq!(t.size(), 0);
    assert_eq!(t.height(), 0);
    assert!(t.lnr(Vec::new()).is_empty());
    assert!(t.nlr(Vec::new()).is_empty());
    assert!(t.lrn(Vec::new()).is_empty());
    assert!(t.get(&1).is_nil());
    assert!(t.get_nth(0).is_nil());
    let (t, gone) = t.remove(&1);
    assert!(t.is_nil());
    assert_eq!(gone, None);
}

#[test]
fn node_take_leaves_nil() {
    let mut t = make_tree(&[2, 1, 3]);
    let moved = t.take();
    assert!(t.is_nil());
    assert_eq!(moved.size(), 3);
    assert_eq!(moved.nlr(Vec::new()), &[&2, &1, &3]);
}

#[test]
fn node_traversals_append() {
    let t = make_tree(&[4, 2, 6, 1, 3, 5, 7]);
    let zero = 0;
    assert_eq!(t.lnr(vec![&zero]), &[&0, &1, &2, &3, &4, &5, &6, &7]);
    assert_eq!(t.nlr(vec![&zero]), &[&0, &4, &2, &1, &3, &6, &5, &7]);
    assert_eq!(t.lrn(vec![&zero]), &[&0, &1, &3, &2, &5, &7, &6, &4]);
}

#[test]
fn node_insert_returns_previous_value() {
    let t = NodeRef::Nil;
    let (t, old) = t.insert(1, "a");
    assert_eq!(old, None);
    let (t, old) = t.insert(2, "b");
    assert_eq!(old, None);
    let (t, old) = t.insert(1, "c");
    assert_eq!(old, Some("a"));
    assert_eq!(t.size(), 2);
    assert_eq!(t.lnr(Vec::new()), &[&1, &2]);
    assert_eq!(t.get(&1).val(), Some(&"c"));
    assert_eq!(t.get(&2).val(), Some(&"b"));
}

#[test]
fn node_remove_returns_entry() {
    let mut t = NodeRef::Nil;
    for (k, v) in [(2, "two"), (1, "one"), (3, "three")] {
        (t, _) = t.insert(k, v);
    }
    let (t, gone) = t.remove(&2);
    assert_eq!(gone, Some((2, "two")));
    let (t, gone) = t.remove(&2);
    assert_eq!(gone, None);
    assert_eq!(t.lnr(Vec::new()), &[&1, &3]);
    assert_eq!(t.size(), 2);
}

#[test]
fn node_get_finds_subtree() {
    let t = make_tree(&[4, 2, 6, 1, 3, 5, 7]);
    let found = t.get(&6);
    assert_eq!(found.key(), Some(&6));
    assert_eq!(found.size(), 3);
    assert_eq!(found.height(), 2);
    assert_eq!(found.lnr(Vec::new()), &[&5, &6, &7]);
    assert!(t.get(&8).is_nil());
    assert!(t.get(&0).is_nil());
}

#[test]
fn node_get_nth_follows_order() {
    let t = make_tree(&[4, 6, 2, 5, 1, 7, 3]);
    for i in 0..7 {
        assert_eq!(t.get_nth(i).key(), Some(&(i as i32 + 1)));
    }
    assert!(t.get_nth(7).is_nil());
    assert!(t.get_nth(100).is_nil());
    assert!(t.get_nth(usize::MAX).is_nil());
}

#[test]
fn node_single_rotations() {
    let t = make_tree(&[1, 2, 3]);
    assert_eq!(t.nlr(Vec::new()), &[&2, &1, &3]);
    let t = make_tree(&[3, 2, 1]);
    assert_eq!(t.nlr(Vec::new()), &[&2, &1, &3]);
}

#[test]
fn node_double_rotations() {
    let t = make_tree(&[1, 3, 2]);
    assert_eq!(t.nlr(Vec::new()), &[&2, &1, &3]);
    assert_eq!(t.height(), 2);
    let t = make_tree(&[3, 1, 2]);
    assert_eq!(t.nlr(Vec::new()), &[&2, &1, &3]);
    assert_eq!(t.height(), 2);
    let t = make_tree(&[5, 2, 8, 1, 3, 4]);
    assert_eq!(t.nlr(Vec::new()), &[&3, &2, &1, &5, &4, &8]);
    assert_eq!(t.lrn(Vec::new()), &[&1, &2, &4, &8, &5, &3]);
}

#[test]
fn node_remove_with_two_children_takes_successor() {
    let mut t = make_tree(&[4, 2, 6, 1, 3, 5, 7]);
    (t, _) = t.remove(&4);
    assert_eq!(t.nlr(Vec::new()), &[&5, &2, &1, &3, &6, &7]);
    assert_eq!(t.lnr(Vec::new()), &[&1, &2, &3, &5, &6, &7]);
    assert_eq!(t.size(), 6);
    assert_eq!(t.height(), 3);
}

#[test]
fn node_remove_rotation_without_tie() {
    let mut t = make_tree(&[2, 1, 3, 4]);
    (t, _) = t.remove(&1);
    assert_eq!(t.nlr(Vec::new()), &[&3, &2, &4]);
    assert_eq!(t.height(), 2);
}

#[test]
fn node_remove_tie_takes_double_rotation() {
    // both children of 2 are equally tall when 4 goes: the grandchild 3 of
    // the root becomes the root
    let mut t = make_tree(&[4, 2, 5, 1, 3]);
    (t, _) = t.remove(&5);
    assert_eq!(t.nlr(Vec::new()), &[&3, &2, &1, &4]);
    assert_eq!(t.lnr(Vec::new()), &[&1, &2, &3, &4]);
    assert_eq!(t.height(), 3);
}

#[test]
fn node_remove_tie_can_unbalance() {
    let mut t = make_tree(&[7, 3, 8, 2, 5, 9, 1, 6]);
    assert_eq!(t.nlr(Vec::new()), &[&7, &3, &2, &1, &5, &6, &8, &9]);
    let (_, lean) = height_and_lean(&preorder_of(&t), &keys_of(&t));
    assert_eq!(lean, 1);
    (t, _) = t.remove(&9);
    assert_eq!(t.lnr(Vec::new()), &[&1, &2, &3, &5, &6, &7, &8]);
    assert_eq!(t.nlr(Vec::new()), &[&5, &3, &2, &1, &7, &6, &8]);
    assert_eq!(t.size(), 7);
    assert_eq!(t.height(), 4);
    let (height, lean) = height_and_lean(&preorder_of(&t), &keys_of(&t));
    assert_eq!(height, 4);
    assert_eq!(lean, 2);
    // the tree still works as a search tree
    assert_eq!(t.get(&1).key(), Some(&1));
    assert_eq!(t.get_nth(3).key(), Some(&5));
    (t, _) = t.insert(0, ());
    assert_eq!(t.lnr(Vec::new()), &[&0, &1, &2, &3, &5, &6, &7, &8]);
    assert_eq!(t.size(), 8);
}

#[test]
fn node_inorder_ascends() {
    for seed in 1..20u64 {
        let keys = scrambled(200, 150, seed);
        let t = make_tree(&keys);
        let inorder = keys_of(&t);
        for pair in inorder.windows(2) {
            assert!(pair[0] < pair[1]);
        }
    }
}

#[test]
fn node_size_counts_distinct_keys() {
    let keys = scrambled(300, 64, 7);
    let gone = scrambled(300, 64, 8);
    let mut t: NodeRef<i32, ()> = NodeRef::Nil;
    let mut held: Vec<i32> = Vec::new();
    for step in 0..300 {
        let key = keys[step];
        let (next, old) = t.insert(key, ());
        t = next;
        assert_eq!(old.is_some(), held.contains(&key));
        if !held.contains(&key) {
            held.push(key);
        }
        assert_eq!(t.size(), held.len());
        let key = gone[step];
        let (next, entry) = t.remove(&key);
        t = next;
        assert_eq!(entry.is_some(), held.contains(&key));
        held.retain(|k| *k != key);
        assert_eq!(t.size(), held.len());
        held.sort();
        assert_eq!(keys_of(&t), held);
    }
}

#[test]
fn node_insert_keeps_balance() {
    for seed in 1..20u64 {
        let keys = scrambled(150, 1000, seed);
        let mut t: NodeRef<i32, ()> = NodeRef::Nil;
        for key in keys {
            (t, _) = t.insert(key, ());
            let (height, lean) = height_and_lean(&preorder_of(&t), &keys_of(&t));
            assert!(lean <= 1);
            assert_eq!(height, t.height());
        }
    }
}

#[test]
fn node_height_is_logarithmic() {
    let mut t: NodeRef<i32, ()> = NodeRef::Nil;
    for key in 0..2000 {
        (t, _) = t.insert(key, ());
        let n = t.size();
        let bound = (1.4405f64 * ((n + 2) as f64).log2()).ceil() as usize;
        assert!(t.height() <= bound);
    }
    assert_eq!(t.size(), 2000);
    assert_eq!(t.height(), 11);
}

#[test]
fn node_reinsert_changes_value_only() {
    let mut t = NodeRef::Nil;
    for key in [4, 6, 2, 5, 1, 7, 3] {
        (t, _) = t.insert(key, key * 10);
    }
    let before: Vec<i32> = t.lnr(Vec::new()).into_iter().copied().collect();
    let shape: Vec<i32> = t.nlr(Vec::new()).into_iter().copied().collect();
    let (t, old) = t.insert(5, 55);
    assert_eq!(old, Some(50));
    assert_eq!(t.size(), 7);
    assert_eq!(t.lnr(Vec::new()).into_iter().copied().collect::<Vec<i32>>(), before);
    assert_eq!(t.nlr(Vec::new()).into_iter().copied().collect::<Vec<i32>>(), shape);
    assert_eq!(t.get(&5).val(), Some(&55));
}

#[test]
fn node_remove_absent_changes_nothing() {
    let t = make_tree(&[4, 6, 2, 5, 1, 7, 3]);
    let (t, gone) = t.remove(&9);
    assert_eq!(gone, None);
    assert_eq!(t.lnr(Vec::new()), &[&1, &2, &3, &4, &5, &6, &7]);
    assert_eq!(t.nlr(Vec::new()), &[&4, &2, &1, &3, &6, &5, &7]);
    assert_eq!(t.size(), 7);
    assert_eq!(t.height(), 3);
}

#[test]
fn node_insert_then_remove_restores() {
    for seed in 1..10u64 {
        let keys = scrambled(40, 1000, seed);
        let t = make_tree(&keys);
        let before = keys_of(&t);
        let size = t.size();
        let (t, old) = t.insert(5000, ());
        assert_eq!(old, None);
        assert_eq!(t.size(), size + 1);
        let (t, gone) = t.remove(&5000);
        assert_eq!(gone, Some((5000, ())));
        assert_eq!(t.size(), size);
        assert_eq!(keys_of(&t), before);
    }
}

#[test]
fn node_string_keys() {
    let mut t = NodeRef::Nil;
    for word in ["pear", "apple", "fig", "plum", "kiwi"] {
        (t, _) = t.insert(word.to_string(), word.len());
    }
    let keys: Vec<&String> = t.lnr(Vec::new());
    assert_eq!(keys, ["apple", "fig", "kiwi", "pear", "plum"]);
    assert_eq!(t.get(&"fig".to_string()).val(), Some(&3));
    let (t, gone) = t.remove(&"pear".to_string());
    assert_eq!(gone, Some(("pear".to_string(), 4)));
    assert_eq!(t.size(), 4);
}
