use lists::util::allocate;
use lists::ArrayQueue;

fn setup(queue: &mut ArrayQueue<char>, s: &str, offset: usize) {
    assert!(s.len() <= queue.length());
    let mut a = allocate(queue.length());
    for (i, c) in s.chars().enumerate() {
        a[(i + offset) % queue.length()] = Some(c);
    }
    *queue = ArrayQueue::from_raw(a, offset, s.len()).unwrap();
}

fn slots(queue: &ArrayQueue<char>) -> Vec<Option<char>> {
    (0..queue.length()).map(|k| queue.slot(k).copied()).collect()
}

fn check(queue: &ArrayQueue<char>, s: &str, offset: usize) {
    assert_eq!(queue.size(), s.chars().filter(|c| c != &'_').count());
    assert_eq!(queue.length(), s.len());
    assert_eq!(queue.offset(), offset);

    for (v, c) in std::iter::zip(slots(queue), s.chars()) {
        let expected = if c != '_' { Some(c) } else { None };
        assert_eq!(v, expected);
    }
}

#[test]
fn array_queue_test_setup_helper() {
    // i: 01234
    // a: _____
    let mut queue = ArrayQueue::new(5);

    // i: 01234
    // a: d_abc
    setup(&mut queue, "abcd", 2);

    assert_eq!(queue.offset(), 2);
    assert_eq!(queue.size(), 4);

    let expected = vec![Some('d'), None, Some('a'), Some('b'), Some('c')];
    assert_eq!(slots(&queue), expected);
}

#[test]
fn array_queue_test_check_helper() {
    let mut queue = ArrayQueue::new(5);
    setup(&mut queue, "abcd", 2);
    check(&queue, "d_abc", 2);
}

#[test]
fn array_queue_get() {
    let mut queue = ArrayQueue::new(6);
    setup(&mut queue, "abc", 2);
    check(&queue, "__abc_", 2);

    assert_eq!(queue.get(0), Some(&'a'));
    assert_eq!(queue.get(1), Some(&'b'));
    assert_eq!(queue.get(2), Some(&'c'));
    assert_eq!(queue.get(3), None);
    assert_eq!(queue.get(4), None);
    assert_eq!(queue.get(5), None);
    assert_eq!(queue.get(6), None);
    assert_eq!(queue.get(7), None);
    assert_eq!(queue.get(8), None);
    assert_eq!(queue.get(9), None);
    assert_eq!(queue.get(10), None);
    assert_eq!(queue.get(11), None);
}

#[test]
fn array_queue_set() {
    let mut queue = ArrayQueue::new(6);
    setup(&mut queue, "abc", 2);
    check(&queue, "__abc_", 2);

    assert_eq!(queue.set(0, 'A'), Some('a'));
    check(&queue, "__Abc_", 2);

    assert_eq!(queue.set(6, 'B'), None);
    check(&queue, "__Abc_", 2);

    assert_eq!(queue.set(12, 'C'), None);
    check(&queue, "__Abc_", 2);
}

#[test]
fn array_queue_resize_larger() {
    for j in 0..12 {
        let mut queue = ArrayQueue::new(6);
        setup(&mut queue, "abcdef", j);
        queue.resize();
        check(&queue, "abcdef______", 0);
    }
}

#[test]
fn array_queue_resize_smaller() {
    for j in 0..18 {
        let mut queue = ArrayQueue::new(9);
        setup(&mut queue, "abc", j);
        queue.resize();
        check(&queue, "abc___", 0);
    }
}

#[test]
fn array_queue_scenario() {
    let mut queue = ArrayQueue::new(6);
    check(&queue, "______", 0);

    setup(&mut queue, "abc", 2);
    check(&queue, "__abc_", 2);

    queue.add('d');
    check(&queue, "__abcd", 2);

    queue.add('e');
    check(&queue, "e_abcd", 2);

    assert_eq!(queue.remove(), Some('a'));
    check(&queue, "e__bcd", 3);

    queue.add('f');
    check(&queue, "ef_bcd", 3);

    queue.add('g');
    check(&queue, "efgbcd", 3);

    queue.add('h');
    check(&queue, "bcdefgh_____", 0);

    assert_eq!(queue.remove(), Some('b'));
    check(&queue, "_cdefgh_____", 1);
}

#[test]
fn array_queue_add_returns_true() {
    let mut queue = ArrayQueue::new(0);
    assert!(queue.add('a'));
    check(&queue, "a", 0);
    assert!(queue.add('b'));
    check(&queue, "ab", 0);
    assert!(queue.add('c'));
    check(&queue, "abc_", 0);
}

#[test]
fn array_queue_remove_from_empty_changes_nothing() {
    let mut queue = ArrayQueue::<char>::new(3);
    assert_eq!(queue.remove(), None);
    check(&queue, "___", 0);
    let mut none = ArrayQueue::<char>::new(0);
    assert_eq!(none.remove(), None);
    assert_eq!(none.get(0), None);
    assert_eq!(none.set(0, 'a'), None);
    check(&none, "", 0);
}

#[test]
fn array_queue_set_past_the_end_stores_nothing() {
    let mut queue = ArrayQueue::new(6);
    setup(&mut queue, "abc", 2);
    assert_eq!(queue.set(3, 'x'), None);
    assert_eq!(queue.set(5, 'x'), None);
    assert_eq!(queue.set(9, 'x'), None);
    check(&queue, "__abc_", 2);
}

#[test]
fn array_queue_set_then_get() {
    let mut queue = ArrayQueue::new(5);
    setup(&mut queue, "abcd", 3);
    for i in 0..4 {
        assert_eq!(queue.set(i, 'z'), Some("abcd".chars().nth(i).unwrap()));
        assert_eq!(queue.get(i), Some(&'z'));
    }
    check(&queue, "zz_zz", 3);
}

#[test]
fn array_queue_is_first_in_first_out() {
    let mut queue = ArrayQueue::new(1);
    let mut next_out = 0;
    let mut size = 0;
    for x in 0..300 {
        assert!(queue.add(x));
        size += 1;
        if x % 3 == 2 {
            assert_eq!(queue.remove(), Some(next_out));
            next_out += 1;
            size -= 1;
        }
        assert_eq!(queue.size(), size);
        assert!(queue.length() >= queue.size());
        assert!(queue.length() <= std::cmp::max(3 * queue.size(), 1));
    }
    while let Some(x) = queue.remove() {
        assert_eq!(x, next_out);
        next_out += 1;
        assert!(queue.length() <= std::cmp::max(3 * queue.size(), 1));
    }
    assert_eq!(next_out, 300);
    assert_eq!(queue.size(), 0);
}

#[test]
fn array_queue_from_raw_rejects_a_wrong_layout() {
    assert!(ArrayQueue::from_raw(vec![Some('a'), None, Some('b')], 2, 2).is_some());
    assert!(ArrayQueue::from_raw(vec![Some('a'), None, Some('b')], 0, 2).is_none());
    assert!(ArrayQueue::from_raw(vec![Some('a'), None, Some('b')], 2, 3).is_none());
    assert!(ArrayQueue::from_raw(vec![Some('a'), None, Some('b')], 2, 4).is_none());
    assert!(ArrayQueue::<char>::from_raw(vec![], 5, 0).is_some());
    assert!(ArrayQueue::<char>::from_raw(vec![], 0, 1).is_none());
}
