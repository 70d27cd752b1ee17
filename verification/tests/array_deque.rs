use lists::util::allocate;
use lists::ArrayDeque;

fn setup(deque: &mut ArrayDeque<char>, s: &str, offset: usize) {
    assert!(s.len() <= deque.length());
    let mut a = allocate(deque.length());
    for (i, c) in s.chars().enumerate() {
        a[(i + offset) % deque.length()] = Some(c);
    }
    *deque = ArrayDeque::from_raw(a, offset, s.len()).unwrap();
}

fn slots(deque: &ArrayDeque<char>) -> Vec<Option<char>> {
    (0..deque.length()).map(|k| deque.slot(k).copied()).collect()
}

fn check(deque: &ArrayDeque<char>, s: &str, offset: usize) {
    assert_eq!(deque.size(), s.chars().filter(|c| c != &'_').count());
    assert_eq!(deque.length(), s.len());
    assert_eq!(deque.offset(), offset);

    for (v, c) in std::iter::zip(slots(deque), s.chars()) {
        let expected = if c != '_' { Some(c) } else { None };
        assert_eq!(v, expected);
    }
}

#[test]
fn array_deque_test_setup_helper() {
    // i: 01234
    // a: _____
    let mut deque = ArrayDeque::new(5);

    // i: 01234
    // a: d_abc
    setup(&mut deque, "abcd", 2);

    assert_eq!(deque.offset(), 2);
    assert_eq!(deque.size(), 4);

    let expected = vec![Some('d'), None, Some('a'), Some('b'), Some('c')];
    assert_eq!(slots(&deque), expected);
}

#[test]
fn array_deque_test_check_helper() {
    let mut deque = ArrayDeque::new(5);
    setup(&mut deque, "abcd", 2);
    check(&deque, "d_abc", 2);
}

#[test]
fn array_deque_get() {
    let mut deque = ArrayDeque::new(6);
    setup(&mut deque, "abc", 2);
    check(&deque, "__abc_", 2);

    assert_eq!(deque.get(0), Some(&'a'));
    assert_eq!(deque.get(1), Some(&'b'));
    assert_eq!(deque.get(2), Some(&'c'));
    assert_eq!(deque.get(3), None);
    assert_eq!(deque.get(4), None);
    assert_eq!(deque.get(5), None);
    assert_eq!(deque.get(6), None);
    assert_eq!(deque.get(7), None);
    assert_eq!(deque.get(8), None);
    assert_eq!(deque.get(9), None);
    assert_eq!(deque.get(10), None);
    assert_eq!(deque.get(11), None);
}

#[test]
fn array_deque_set() {
    let mut deque = ArrayDeque::new(6);
    setup(&mut deque, "abc", 2);
    check(&deque, "__abc_", 2);

    assert_eq!(deque.set(0, 'A'), Some('a'));
    check(&deque, "__Abc_", 2);

    assert_eq!(deque.set(6, 'B'), None);
    check(&deque, "__Abc_", 2);

    assert_eq!(deque.set(12, 'C'), None);
    check(&deque, "__Abc_", 2);
}

#[test]
fn array_deque_resize_larger() {
    for j in 0..12 {
        let mut deque = ArrayDeque::new(6);
        setup(&mut deque, "abcdef", j);
        deque.resize();
        check(&deque, "abcdef______", 0);
    }
}

#[test]
fn array_deque_resize_smaller() {
    for j in 0..18 {
        let mut deque = ArrayDeque::new(9);
        setup(&mut deque, "abc", j);
        deque.resize();
        check(&deque, "abc___", 0);
    }
}

#[test]
fn array_deque_scenario() {
    let mut deque = ArrayDeque::new(12);
    check(&deque, "____________", 0);

    setup(&mut deque, "abcdefgh", 0);
    check(&deque, "abcdefgh____", 0);

    assert_eq!(deque.remove(2), Some('c'));
    check(&deque, "_abdefgh____", 1);

    deque.add(4, 'x');
    check(&deque, "_abdexfgh___", 1);

    deque.add(3, 'y');
    check(&deque, "abdyexfgh___", 0);

    deque.add(4, 'z');
    check(&deque, "bdyzexfgh__a", 11);

    deque.add(1, 'A');
    check(&deque, "bdyzexfgh_aA", 10);

    deque.add(2, 'B');
    check(&deque, "bdyzexfghaAB", 9);

    deque.add(3, 'C');
    check(&deque, "ABCbdyzexfgh___________a", 23);

    assert_eq!(deque.remove(0), Some('a'));
    check(&deque, "ABCbdyzexfgh____________", 0);
}

#[test]
fn array_deque_add_remove_add() {
    let mut deque = ArrayDeque::new(6);
    deque.add(0, 'a');
    deque.add(1, 'b');
    deque.add(2, 'c');
    assert_eq!(deque.remove(0), Some('a'));
    assert_eq!(deque.size(), 2);
    deque.add(0, 'x');
    assert_eq!(deque.size(), 3);
    for (i, c) in "xbc".chars().enumerate() {
        assert_eq!(deque.get(i), Some(&c));
    }
}

#[test]
fn array_deque_remove_past_the_end_changes_nothing() {
    let mut deque = ArrayDeque::new(6);
    setup(&mut deque, "abc", 2);
    assert_eq!(deque.remove(3), None);
    assert_eq!(deque.remove(6), None);
    assert_eq!(deque.remove(100), None);
    check(&deque, "__abc_", 2);
    let mut none = ArrayDeque::<char>::new(0);
    assert_eq!(none.remove(0), None);
    assert_eq!(none.get(0), None);
    assert_eq!(none.set(0, 'a'), None);
    check(&none, "", 0);
}

#[test]
fn array_deque_set_past_the_end_stores_nothing() {
    let mut deque = ArrayDeque::new(6);
    setup(&mut deque, "abc", 2);
    assert_eq!(deque.set(3, 'x'), None);
    assert_eq!(deque.set(5, 'x'), None);
    assert_eq!(deque.set(9, 'x'), None);
    check(&deque, "__abc_", 2);
}

#[test]
fn array_deque_set_then_get() {
    let mut deque = ArrayDeque::new(5);
    setup(&mut deque, "abcd", 3);
    for i in 0..4 {
        assert_eq!(deque.set(i, 'z'), Some("abcd".chars().nth(i).unwrap()));
        assert_eq!(deque.get(i), Some(&'z'));
    }
    check(&deque, "zz_zz", 3);
}

#[test]
fn array_deque_grows_from_nothing() {
    let mut deque = ArrayDeque::new(0);
    deque.add(0, 'a');
    check(&deque, "a", 0);
    deque.add(1, 'b');
    check(&deque, "ab", 0);
    deque.add(0, 'c');
    check(&deque, "ab_c", 3);
}

#[test]
fn array_deque_behaves_like_a_vector() {
    let mut deque = ArrayDeque::new(1);
    let mut model: Vec<usize> = Vec::new();
    for x in 0..400usize {
        let i = (x * 7) % (model.len() + 1);
        deque.add(i, x);
        model.insert(i, x);
        if x % 4 == 3 {
            let at = (x * 5) % model.len();
            assert_eq!(deque.remove(at), Some(model.remove(at)));
        }
        assert_eq!(deque.size(), model.len());
        assert!(deque.length() >= deque.size());
        assert!(deque.length() <= std::cmp::max(3 * deque.size(), 1));
    }
    for (i, x) in model.iter().enumerate() {
        assert_eq!(deque.get(i), Some(x));
    }
    while !model.is_empty() {
        let at = model.len() / 3;
        assert_eq!(deque.remove(at), Some(model.remove(at)));
        assert_eq!(deque.size(), model.len());
        assert!(deque.length() <= std::cmp::max(3 * deque.size(), 1));
    }
    assert_eq!(deque.remove(0), None);
}

#[test]
fn array_deque_from_raw_rejects_a_wrong_layout() {
    assert!(ArrayDeque::from_raw(vec![Some('a'), None, Some('b')], 2, 2).is_some());
    assert!(ArrayDeque::from_raw(vec![Some('a'), None, Some('b')], 1, 2).is_none());
    assert!(ArrayDeque::from_raw(vec![Some('a'), None, Some('b')], 2, 1).is_none());
    assert!(ArrayDeque::<char>::from_raw(vec![], 5, 0).is_some());
}
