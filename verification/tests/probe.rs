use bst::order::Probe;
use bst::{AVLTreeMap, NodeRef};

// a borrowed name that is looked up among owned names
struct Name<'a>(&'a str);

impl<'a> Probe<String> for Name<'a> {
    fn stands_for(&self) -> String {
        self.0.to_string()
    }

    fn before(&self, k: &String) -> bool {
        self.0 < k.as_str()
    }

    fn after(&self, k: &String) -> bool {
        self.0 > k.as_str()
    }
}

#[test]
fn probe_map_lookup_by_borrowed_name() {
    let mut map = AVLTreeMap::new();
    for (name, age) in [("ann", 31), ("bob", 27), ("cat", 45), ("dan", 19)] {
        map.insert(name.to_string(), age);
    }
    assert_eq!(map.get(&Name("bob")), Some(&27));
    assert_eq!(map.get(&Name("eve")), None);
    assert!(map.contains_key(&Name("dan")));
    assert!(!map.contains_key(&Name("")));
    assert_eq!(map.get_key_value(&Name("cat")), Some((&"cat".to_string(), &45)));
    assert_eq!(map.remove(&Name("ann")), Some(31));
    assert_eq!(map.remove(&Name("ann")), None);
    assert_eq!(map.remove_entry(&Name("cat")), Some(("cat".to_string(), 45)));
    assert_eq!(map.len(), 2);
    assert_eq!(map.get(&"bob".to_string()), Some(&27));
}

#[test]
fn probe_node_lookup_by_borrowed_name() {
    let mut t = NodeRef::Nil;
    for name in ["m", "c", "x", "a", "e"] {
        (t, _) = t.insert(name.to_string(), ());
    }
    assert_eq!(t.get(&Name("c")).size(), 3);
    assert!(t.get(&Name("d")).is_nil());
    let (t, gone) = t.remove(&Name("m"));
    assert_eq!(gone, Some(("m".to_string(), ())));
    assert_eq!(t.lnr(Vec::new()), ["a", "c", "e", "x"]);
}

#[test]
fn probe_key_stands_for_itself() {
    assert!(3.before(&4));
    assert!(!4.before(&4));
    assert!(5.after(&4));
    assert!(!4.after(&4));
    assert!("a".to_string().before(&"b".to_string()));
}
