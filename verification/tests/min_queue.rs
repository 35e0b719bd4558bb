use bst::min_queue::{MinQueue, MinStack};

#[test]
fn min_stack_tracks_minimum() {
    let mut stack = MinStack::new();
    assert!(stack.is_empty());
    assert_eq!(stack.len(), 0);
    assert_eq!(stack.min(), None);
    assert_eq!(stack.last(), None);
    assert_eq!(stack.pop(), None);
    stack.push(5);
    assert_eq!(stack.min(), Some(&5));
    stack.push(7);
    assert_eq!(stack.min(), Some(&5));
    stack.push(3);
    assert_eq!(stack.min(), Some(&3));
    stack.push(3);
    stack.push(9);
    assert_eq!(stack.len(), 5);
    assert_eq!(stack.last(), Some(&9));
    assert_eq!(stack.min(), Some(&3));
    assert_eq!(stack.pop(), Some(9));
    assert_eq!(stack.pop(), Some(3));
    assert_eq!(stack.min(), Some(&3));
    assert_eq!(stack.pop(), Some(3));
    assert_eq!(stack.min(), Some(&5));
    assert_eq!(stack.pop(), Some(7));
    assert_eq!(stack.pop(), Some(5));
    assert_eq!(stack.min(), None);
    assert!(stack.is_empty());
}

#[test]
fn min_stack_move_to_reverses() {
    let mut from = MinStack::new();
    let mut to = MinStack::new();
    to.push(10);
    for x in [4, 2, 8] {
        from.push(x);
    }
    from.move_to(&mut to);
    assert!(from.is_empty());
    assert_eq!(from.min(), None);
    assert_eq!(to.len(), 4);
    assert_eq!(to.min(), Some(&2));
    assert_eq!(to.pop(), Some(4));
    assert_eq!(to.min(), Some(&2));
    assert_eq!(to.pop(), Some(2));
    assert_eq!(to.min(), Some(&8));
    assert_eq!(to.pop(), Some(8));
    assert_eq!(to.pop(), Some(10));
    assert_eq!(to.pop(), None);
}

#[test]
fn min_queue_is_first_in_first_out() {
    let mut queue = MinQueue::new();
    assert!(queue.is_empty());
    assert_eq!(queue.front(), None);
    assert_eq!(queue.pop(), None);
    assert_eq!(queue.min(), None);
    for x in [3, 1, 2] {
        queue.push(x);
    }
    assert_eq!(queue.len(), 3);
    assert_eq!(queue.front(), Some(&3));
    assert_eq!(queue.min(), Some(&1));
    assert_eq!(queue.pop(), Some(3));
    queue.push(0);
    assert_eq!(queue.min(), Some(&0));
    assert_eq!(queue.front(), Some(&1));
    assert_eq!(queue.pop(), Some(1));
    assert_eq!(queue.min(), Some(&0));
    assert_eq!(queue.pop(), Some(2));
    assert_eq!(queue.pop(), Some(0));
    assert_eq!(queue.pop(), None);
    assert!(queue.is_empty());
    assert_eq!(queue.len(), 0);
}

#[test]
fn min_queue_min_over_both_stacks() {
    let mut queue = MinQueue::new();
    for x in [5, 6, 7] {
        queue.push(x);
    }
    assert_eq!(queue.pop(), Some(5));
    queue.push(9);
    queue.push(8);
    // 6 and 7 wait in one stack, 9 and 8 in the other
    assert_eq!(queue.min(), Some(&6));
    assert_eq!(queue.pop(), Some(6));
    assert_eq!(queue.min(), Some(&7));
    assert_eq!(queue.pop(), Some(7));
    assert_eq!(queue.min(), Some(&8));
    assert_eq!(queue.len(), 2);
}

#[test]
fn min_queue_against_a_plain_queue() {
    let mut queue = MinQueue::new();
    let mut plain = std::collections::VecDeque::new();
    let mut seed: u64 = 5;
    for _ in 0..3000 {
        seed = seed.wrapping_mul(6364136223846793005).wrapping_add(1442695040888963407);
        let x = (seed >> 33) % 50;
        if x % 3 == 0 {
            assert_eq!(queue.pop(), plain.pop_front());
        } else {
            queue.push(x);
            plain.push_back(x);
        }
        assert_eq!(queue.len(), plain.len());
        assert_eq!(queue.min(), plain.iter().min());
        assert_eq!(queue.front(), plain.front());
    }
}
