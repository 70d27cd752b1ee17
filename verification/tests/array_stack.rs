use lists::util::allocate;
use lists::ArrayStack;

fn check(stack: &ArrayStack<char>, s: &str, length: usize) {
    assert_eq!(stack.size(), s.len());
    assert_eq!(stack.length(), length);

    for (i, c) in s.chars().enumerate() {
        assert_eq!(stack.get(i), Some(&c));
    }

    for i in s.len()..length {
        assert!(stack.get(i).is_none());
    }
}

#[test]
fn array_stack_scenario() {
    let mut stack = ArrayStack::<char>::new(6);
    check(&stack, "", 6);
    for (i, c) in "bred".chars().enumerate() {
        stack.add(i, c);
    }
    check(&stack, "bred", 6);
    stack.add(2, 'e');
    check(&stack, "breed", 6);
    stack.add(5, 'r');
    check(&stack, "breedr", 6);
    stack.add(5, 'e');
    check(&stack, "breeder", 12);
    stack.remove(4);
    check(&stack, "breeer", 12);
    stack.remove(4);
    check(&stack, "breer", 12);
    stack.remove(4);
    check(&stack, "bree", 8);
    stack.set(2, 'i');
    check(&stack, "brie", 8);
}

#[test]
fn allocate_successful() {
    let a = allocate::<u32>(3);

    assert_eq!(a.len(), 3);

    for v in a {
        assert_eq!(v, None);
    }
}

#[test]
fn allocate_nothing() {
    let a = allocate::<u32>(0);
    assert!(a.is_empty());
}

#[test]
fn array_stack_set_then_get() {
    let mut stack = ArrayStack::new(4);
    for (i, c) in "abc".chars().enumerate() {
        stack.add(i, c);
    }
    for i in 0..3 {
        assert_eq!(stack.set(i, 'z'), Some("abc".chars().nth(i).unwrap()));
        assert_eq!(stack.get(i), Some(&'z'));
    }
    check(&stack, "zzz", 4);
}

#[test]
fn array_stack_set_past_the_end_stores_nothing() {
    let mut stack = ArrayStack::new(4);
    stack.add(0, 'a');
    assert_eq!(stack.set(1, 'b'), None);
    assert_eq!(stack.set(3, 'b'), None);
    assert_eq!(stack.set(4, 'b'), None);
    assert_eq!(stack.set(100, 'b'), None);
    check(&stack, "a", 4);
}

#[test]
fn array_stack_remove_past_the_end_changes_nothing() {
    let mut stack = ArrayStack::new(4);
    assert_eq!(stack.remove(0), None);
    check(&stack, "", 4);
    stack.add(0, 'a');
    stack.add(1, 'b');
    assert_eq!(stack.remove(2), None);
    assert_eq!(stack.remove(7), None);
    check(&stack, "ab", 4);
}

#[test]
fn array_stack_grows_from_nothing() {
    let mut stack = ArrayStack::new(0);
    check(&stack, "", 0);
    stack.add(0, 'a');
    check(&stack, "a", 1);
    stack.add(0, 'b');
    check(&stack, "ba", 2);
    stack.add(1, 'c');
    check(&stack, "bca", 4);
}

#[test]
fn array_stack_shrinks_to_one_slot() {
    let mut stack = ArrayStack::new(2);
    stack.add(0, 'a');
    check(&stack, "a", 2);
    assert_eq!(stack.remove(0), Some('a'));
    check(&stack, "", 1);
}

#[test]
fn array_stack_size_counts_adds_and_removes() {
    let mut stack = ArrayStack::new(1);
    let mut expected = 0;
    for round in 0..50usize {
        stack.add(round % (expected + 1), round);
        expected += 1;
        assert_eq!(stack.size(), expected);
    }
    for round in 0..80usize {
        if stack.remove(round % 7).is_some() {
            expected -= 1;
        }
        assert_eq!(stack.size(), expected);
    }
}

#[test]
fn array_stack_capacity_stays_within_three_times_the_size() {
    let n = 200;
    let mut stack = ArrayStack::new(1);
    for x in 0..n {
        stack.add(0, x);
        assert!(stack.length() >= stack.size());
        assert!(stack.length() <= 2 * stack.size());
    }
    for _ in 0..n {
        assert!(stack.remove(0).is_some());
        assert!(stack.length() >= stack.size());
        assert!(stack.length() <= std::cmp::max(3 * stack.size(), 1));
    }
    assert_eq!(stack.size(), 0);
    assert_eq!(stack.length(), 1);
}

#[test]
fn array_stack_resize_gives_twice_the_size() {
    let mut stack = ArrayStack::new(10);
    for (i, c) in "abc".chars().enumerate() {
        stack.add(i, c);
    }
    stack.resize();
    check(&stack, "abc", 6);
    let mut empty = ArrayStack::<char>::new(10);
    empty.resize();
    check(&empty, "", 1);
}

#[test]
fn array_stack_from_raw_accepts_a_filled_prefix() {
    let stack = ArrayStack::from_raw(vec![Some('a'), Some('b'), None], 2).unwrap();
    check(&stack, "ab", 3);
}

#[test]
fn array_stack_from_raw_rejects_holes_and_strays() {
    assert!(ArrayStack::from_raw(vec![Some('a'), None, Some('b')], 2).is_none());
    assert!(ArrayStack::from_raw(vec![Some('a'), Some('b'), Some('c')], 2).is_none());
    assert!(ArrayStack::from_raw(vec![Some('a'), None], 2).is_none());
    assert!(ArrayStack::from_raw(vec![Some('a')], 2).is_none());
    assert!(ArrayStack::<char>::from_raw(vec![], 0).is_some());
}
