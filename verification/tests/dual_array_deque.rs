use lists::ArrayStack;
use lists::DualArrayDeque;

#[test]
fn length() {
    let deque = DualArrayDeque::<i32>::new(9);

    assert_eq!(deque.length(), 9);
    assert_eq!(deque.front().length(), 4);
    assert_eq!(deque.back().length(), 5);
}

#[test]
fn dual_array_deque_layout() {
    let mut front = ArrayStack::new(5);
    front.add(0, 'b');
    front.add(1, 'a');

    let mut back = ArrayStack::new(5);
    back.add(0, 'c');
    back.add(1, 'd');

    // front|back
    // 43210|01234
    // ___ab|cd___
    let deque = DualArrayDeque::from_stacks(front, back).unwrap();

    assert_eq!(deque.length(), 10);
    assert_eq!(deque.size(), 4);

    for (i, v) in "abcd".chars().enumerate() {
        assert_eq!(deque.get(i), Some(&v))
    }
}

fn create(
    front_content: &str,
    front_length: usize,
    back_content: &str,
    back_length: usize,
) -> DualArrayDeque<char> {
    assert!(front_content.len() <= front_length);
    assert!(back_content.len() <= back_length);

    let mut front = ArrayStack::new(front_length);
    for (i, v) in front_content.chars().rev().enumerate() {
        front.add(i, v);
    }

    let mut back = ArrayStack::new(back_length);
    for (i, v) in back_content.chars().enumerate() {
        back.add(i, v);
    }

    DualArrayDeque::from_stacks(front, back).unwrap()
}

#[test]
fn test_create_helper() {
    let deque = create("ab", 5, "cd", 5);

    assert_eq!(deque.length(), 10);
    assert_eq!(deque.size(), 4);

    for (i, v) in "abcd".chars().enumerate() {
        assert_eq!(deque.get(i), Some(&v))
    }
}

fn check(
    deque: &DualArrayDeque<char>,
    front_content: &str,
    front_length: usize,
    back_content: &str,
    back_length: usize,
) {
    assert_eq!(deque.front().length(), front_length);
    assert_eq!(deque.front().size(), front_content.len());
    for (i, v) in front_content.chars().rev().enumerate() {
        assert_eq!(deque.front().get(i), Some(&v));
    }

    assert_eq!(deque.back().length(), back_length);
    assert_eq!(deque.back().size(), back_content.len());
    for (i, v) in back_content.chars().enumerate() {
        assert_eq!(deque.back().get(i), Some(&v));
    }

    assert_eq!(deque.length(), front_length + back_length);
    assert_eq!(deque.size(), front_content.len() + back_content.len());
    for (i, v) in format!("{front_content}{back_content}").chars().enumerate() {
        assert_eq!(deque.get(i), Some(&v));
    }
}

#[test]
fn dual_array_deque_test_check_helper() {
    let deque = create("ab", 5, "cd", 5);
    check(&deque, "ab", 5, "cd", 5);
}

#[test]
fn balance_to_front() {
    let mut deque = create("a", 5, "bcde", 5);
    deque.balance();
    check(&deque, "ab", 4, "cde", 6);
}

#[test]
fn balance_to_back() {
    let mut deque = create("abcd", 5, "e", 5);
    deque.balance();
    check(&deque, "ab", 4, "cde", 6);
}

#[test]
fn dual_array_deque_scenario() {
    let mut deque = create("ab", 5, "cd", 5);

    deque.add(3, 'x');
    check(&deque, "ab", 5, "cxd", 5);

    deque.add(4, 'y');
    check(&deque, "ab", 5, "cxyd", 5);

    deque.remove(0);
    check(&deque, "bc", 4, "xyd", 6);
}

#[test]
fn dual_array_deque_balance_leaves_an_even_deque_alone() {
    let mut deque = create("a", 5, "bcd", 7);
    deque.balance();
    check(&deque, "a", 5, "bcd", 7);
    let mut deque = create("abc", 3, "d", 9);
    deque.balance();
    check(&deque, "abc", 3, "d", 9);
}

#[test]
fn dual_array_deque_balance_of_one_element() {
    let mut deque = create("", 3, "a", 3);
    deque.balance();
    check(&deque, "", 1, "a", 2);
    let mut deque = create("a", 3, "", 3);
    deque.balance();
    check(&deque, "", 1, "a", 2);
}

#[test]
fn dual_array_deque_set_then_get() {
    let mut deque = create("ab", 5, "cd", 5);
    for i in 0..4 {
        assert_eq!(deque.set(i, 'z'), Some("abcd".chars().nth(i).unwrap()));
        assert_eq!(deque.get(i), Some(&'z'));
    }
    check(&deque, "zz", 5, "zz", 5);
}

#[test]
fn dual_array_deque_past_the_end() {
    let mut deque = create("ab", 5, "cd", 5);
    assert_eq!(deque.get(4), None);
    assert_eq!(deque.get(9), None);
    assert_eq!(deque.set(4, 'x'), None);
    assert_eq!(deque.remove(4), None);
    assert_eq!(deque.remove(40), None);
    check(&deque, "ab", 5, "cd", 5);
    let mut empty = DualArrayDeque::<char>::new(0);
    assert_eq!(empty.remove(0), None);
    assert_eq!(empty.get(0), None);
    assert_eq!(empty.size(), 0);
    assert_eq!(empty.length(), 0);
}

#[test]
fn dual_array_deque_add_at_the_front() {
    let mut deque = create("ab", 5, "cd", 5);
    deque.add(0, 'x');
    check(&deque, "xab", 5, "cd", 5);
    deque.add(1, 'y');
    check(&deque, "xyab", 5, "cd", 5);
}

#[test]
fn dual_array_deque_stays_even() {
    let mut deque = DualArrayDeque::new(0);
    let mut model: Vec<usize> = Vec::new();
    for x in 0..300usize {
        let i = if x % 2 == 0 { 0 } else { (x * 11) % (model.len() + 1) };
        deque.add(i, x);
        model.insert(i, x);
        if x % 5 == 4 {
            let at = (x * 3) % model.len();
            assert_eq!(deque.remove(at), Some(model.remove(at)));
        }
        let f = deque.front().size();
        let b = deque.back().size();
        assert_eq!(f + b, model.len());
        assert_eq!(deque.size(), model.len());
        assert!(f <= 3 * b);
        assert!(b <= 3 * f + 1);
    }
    for (i, x) in model.iter().enumerate() {
        assert_eq!(deque.get(i), Some(x));
    }
    while !model.is_empty() {
        assert_eq!(deque.remove(0), Some(model.remove(0)));
        let f = deque.front().size();
        let b = deque.back().size();
        assert!(f <= 3 * b);
        assert!(b <= 3 * f + 1);
    }
}
