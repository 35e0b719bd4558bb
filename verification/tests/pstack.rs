use bst::pstack::PStack;

#[test]
fn pstack_push_and_pop() {
    let empty: PStack<i32> = PStack::new();
    assert!(empty.is_empty());
    assert_eq!(empty.len(), 0);
    assert!(empty.pop().is_none());
    let one = empty.push(1);
    let two = one.push(2);
    assert_eq!(two.len(), 2);
    assert!(!two.is_empty());
    let (top, rest) = two.pop().unwrap();
    assert_eq!(*top, 2);
    assert_eq!(rest.len(), 1);
    let (top, rest) = rest.pop().unwrap();
    assert_eq!(*top, 1);
    assert!(rest.is_empty());
    assert!(rest.pop().is_none());
}

#[test]
fn pstack_old_versions_stay() {
    let base = PStack::new().push("a").push("b");
    let left = base.push("c");
    let right = base.push("d");
    assert_eq!(base.len(), 2);
    assert_eq!(left.len(), 3);
    assert_eq!(right.len(), 3);
    assert_eq!(*left.pop().unwrap().0, "c");
    assert_eq!(*right.pop().unwrap().0, "d");
    assert_eq!(*base.pop().unwrap().0, "b");
    let (_, below) = left.pop().unwrap();
    assert_eq!(*below.pop().unwrap().0, "b");
    assert_eq!(below.len(), 2);
}

#[test]
fn pstack_clone_and_default() {
    let stack = PStack::new().push(1).push(2).push(3);
    let copy = stack.clone();
    assert_eq!(copy.len(), 3);
    assert_eq!(*copy.pop().unwrap().0, 3);
    let fresh: PStack<u8> = PStack::default();
    assert!(fresh.is_empty());
}

#[test]
fn pstack_iter_goes_from_the_top_down() {
    let stack = PStack::new().push(1).push(2).push(3);
    let mut walk = stack.iter();
    let mut seen = Vec::new();
    while let Some(item) = walk.next() {
        seen.push(*item);
    }
    assert_eq!(seen, [3, 2, 1]);
    assert!(walk.next().is_none());
    assert_eq!(stack.len(), 3);
    let empty: PStack<i32> = PStack::new();
    assert!(empty.iter().next().is_none());
}
