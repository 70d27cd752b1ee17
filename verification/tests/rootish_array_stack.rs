use lists::i2b;
use lists::triangular::{locate, triangle};
use lists::ArrayStack;
use lists::RootishArrayStack;

#[test]
fn i2b_successful() {
    let mut i = 0;
    for b in 0..=100 {
        for _ in 0..b + 1 {
            assert_eq!(i2b(i), b);
            i += 1;
        }
    }
}

#[test]
fn constructor() {
    for (min_length, blocks_length, stack_length) in [
        (0, 0, 0),
        (1, 1, 1),
        (2, 2, 3),
        (3, 2, 3),
        (4, 3, 6),
        (5, 3, 6),
        (6, 3, 6),
        (7, 4, 10),
    ] {
        let stack = RootishArrayStack::<bool>::new(min_length);
        assert_eq!(stack.blocks().length(), blocks_length);
        assert_eq!(stack.length(), stack_length);
        assert_eq!(stack.size(), 0);
    }
}

fn check(stack: &RootishArrayStack<char>, expected: &str) {
    if expected.is_empty() {
        assert_eq!(stack.size(), 0);
        return;
    }

    for (i, v) in expected.chars().enumerate() {
        assert_eq!(stack.get(i), Some(&v));
    }

    let mut count = 0;
    let mut start = 0;

    const MAX_LOOP: usize = 100;

    for b in 0..MAX_LOOP {
        let end = (start + b + 1).min(expected.len());

        let block = stack.blocks().get(b).unwrap();
        for (i, v) in expected[start..end].chars().enumerate() {
            assert_eq!(block[i], Some(v));
            count += 1;
        }

        if end == expected.len() {
            break;
        }

        start = end;
    }

    // All alements have been checked.
    assert_eq!(stack.size(), expected.len());
    assert_eq!(stack.size(), count);
}

#[test]
fn rootish_array_stack_layout() {
    let a0 = vec![Some('a')];
    let a1 = vec![Some('b'), Some('c')];
    let a2 = vec![Some('d'), Some('e'), Some('f')];
    let a3 = vec![Some('g'), Some('h'), None, None];

    let a = vec![Some(a0), Some(a1), Some(a2), Some(a3)];
    let blocks = ArrayStack::from_raw(a, 4).unwrap();

    let stack = RootishArrayStack::from_raw(blocks, 8).unwrap();

    check(&stack, "abcdefgh");
    assert_eq!(stack.length(), 10);
}

#[test]
fn add() {
    let mut stack = RootishArrayStack::new(8);
    for (i, v) in "abcdefgh".chars().enumerate() {
        stack.add(i, v);
    }
    check(&stack, "abcdefgh");
    stack.add(1, 'x');
    check(&stack, "axbcdefgh");
}

#[test]
fn grow() {
    let mut stack = RootishArrayStack::new(0);
    assert_eq!(stack.blocks().size(), 0);

    stack.add(0, 'a');
    check(&stack, "a");
    assert_eq!(stack.blocks().size(), 1);

    stack.add(0, 'b');
    check(&stack, "ba");
    assert_eq!(stack.blocks().size(), 2);

    stack.add(0, 'c');
    check(&stack, "cba");
    assert_eq!(stack.blocks().size(), 2);

    stack.add(0, 'd');
    check(&stack, "dcba");
    assert_eq!(stack.blocks().size(), 3);

    stack.add(0, 'e');
    check(&stack, "edcba");
    assert_eq!(stack.blocks().size(), 3);

    stack.add(0, 'f');
    check(&stack, "fedcba");
    assert_eq!(stack.blocks().size(), 3);

    stack.add(0, 'g');
    check(&stack, "gfedcba");
    assert_eq!(stack.blocks().size(), 4);
}

#[test]
fn shrink() {
    let mut stack = RootishArrayStack::new(11);
    for (i, v) in "abcdefgh".chars().enumerate() {
        stack.add(i, v);
    }
    check(&stack, "abcdefgh");
    assert_eq!(stack.blocks().size(), 5);

    stack.remove(0);
    check(&stack, "bcdefgh");
    assert_eq!(stack.blocks().size(), 5);

    stack.remove(0);
    check(&stack, "cdefgh");
    assert_eq!(stack.blocks().size(), 4);

    stack.remove(0);
    check(&stack, "defgh");
    assert_eq!(stack.blocks().size(), 4);

    stack.remove(0);
    check(&stack, "efgh");
    assert_eq!(stack.blocks().size(), 4);

    stack.remove(0);
    check(&stack, "fgh");
    assert_eq!(stack.blocks().size(), 3);
}

#[test]
fn rootish_array_stack_scenario() {
    let mut stack = RootishArrayStack::new(0);

    let mut expected = String::new();
    check(&stack, &expected);
    for (i, v) in "abcdefgh".chars().enumerate() {
        stack.add(i, v);
        expected.push(v);
        check(&stack, &expected);
    }

    assert_eq!(expected, "abcdefgh");
    check(&stack, "abcdefgh");

    stack.add(2, 'x');
    check(&stack, "abxcdefgh");

    assert_eq!(stack.remove(1), Some('b'));
    check(&stack, "axcdefgh");

    assert_eq!(stack.remove(7), Some('h'));
    check(&stack, "axcdefg");

    assert_eq!(stack.remove(6), Some('g'));
    check(&stack, "axcdef");
}

#[test]
fn rootish_eight_elements_take_four_blocks() {
    let mut stack = RootishArrayStack::new(0);
    for (i, v) in "abcdefgh".chars().enumerate() {
        stack.add(i, v);
    }
    for (i, v) in "abcdefgh".chars().enumerate() {
        assert_eq!(stack.get(i), Some(&v));
    }
    assert_eq!(stack.blocks().size(), 4);
    assert_eq!(stack.length(), 10);
}

#[test]
fn i2b_at_the_block_boundaries() {
    assert_eq!(i2b(0), 0);
    assert_eq!(i2b(1), 1);
    assert_eq!(i2b(2), 1);
    assert_eq!(i2b(3), 2);
    assert_eq!(i2b(5), 2);
    assert_eq!(i2b(6), 3);
    assert_eq!(i2b(5049), 99);
    assert_eq!(i2b(5050), 100);
    assert_eq!(i2b(5150), 100);
    assert_eq!(i2b(5151), 101);
    let mut start: usize = 0;
    for b in 0..100_000usize {
        assert_eq!(i2b(start), b);
        assert_eq!(i2b(start + b), b);
        start += b + 1;
    }
}

#[test]
fn i2b_of_the_largest_index() {
    let b = i2b(usize::MAX);
    let start = (b as u128) * (b as u128 + 1) / 2;
    let next = (b as u128 + 1) * (b as u128 + 2) / 2;
    assert!(start <= usize::MAX as u128);
    assert!((usize::MAX as u128) < next);
}

#[test]
fn locate_gives_block_and_place() {
    assert_eq!(locate(0), (0, 0));
    assert_eq!(locate(1), (1, 0));
    assert_eq!(locate(2), (1, 1));
    assert_eq!(locate(3), (2, 0));
    assert_eq!(locate(9), (3, 3));
    assert_eq!(locate(10), (4, 0));
    assert_eq!(triangle(0), 0);
    assert_eq!(triangle(1), 1);
    assert_eq!(triangle(4), 10);
    assert_eq!(triangle(100), 5050);
}

#[test]
fn rootish_length_is_least_after_inserting() {
    let mut stack = RootishArrayStack::new(0);
    for n in 1..=300usize {
        stack.add(n - 1, n);
        let mut r = 0;
        while r * (r + 1) / 2 < n {
            r += 1;
        }
        assert_eq!(stack.blocks().size(), r);
        assert_eq!(stack.length(), r * (r + 1) / 2);
        let unused = stack.length() - n;
        assert!(unused < r);
        assert!(unused * unused <= 2 * n);
    }
}

#[test]
fn rootish_set_then_get() {
    let mut stack = RootishArrayStack::new(0);
    for (i, v) in "abcdefgh".chars().enumerate() {
        stack.add(i, v);
    }
    for i in 0..8 {
        assert_eq!(stack.set(i, 'z'), Some("abcdefgh".chars().nth(i).unwrap()));
        assert_eq!(stack.get(i), Some(&'z'));
    }
    check(&stack, "zzzzzzzz");
}

#[test]
fn rootish_past_the_end() {
    let mut stack = RootishArrayStack::new(7);
    assert_eq!(stack.remove(0), None);
    assert_eq!(stack.blocks().size(), 4);
    stack.add(0, 'a');
    stack.add(1, 'b');
    assert_eq!(stack.get(2), None);
    assert_eq!(stack.get(9), None);
    assert_eq!(stack.get(10), None);
    assert_eq!(stack.set(2, 'x'), None);
    assert_eq!(stack.set(50, 'x'), None);
    assert_eq!(stack.remove(2), None);
    assert_eq!(stack.remove(50), None);
    check(&stack, "ab");
    assert_eq!(stack.blocks().size(), 4);
}

#[test]
fn rootish_removing_everything_drops_every_block() {
    let mut stack = RootishArrayStack::new(0);
    for (i, v) in "abcd".chars().enumerate() {
        stack.add(i, v);
    }
    assert_eq!(stack.blocks().size(), 3);
    assert_eq!(stack.remove(3), Some('d'));
    assert_eq!(stack.blocks().size(), 3);
    assert_eq!(stack.remove(0), Some('a'));
    assert_eq!(stack.blocks().size(), 3);
    assert_eq!(stack.remove(0), Some('b'));
    assert_eq!(stack.blocks().size(), 2);
    assert_eq!(stack.remove(0), Some('c'));
    assert_eq!(stack.blocks().size(), 0);
    assert_eq!(stack.length(), 0);
    assert_eq!(stack.size(), 0);
}

#[test]
fn rootish_behaves_like_a_vector() {
    let mut stack = RootishArrayStack::new(3);
    let mut model: Vec<usize> = Vec::new();
    for x in 0..200usize {
        let i = (x * 7) % (model.len() + 1);
        stack.add(i, x);
        model.insert(i, x);
        if x % 4 == 3 {
            let at = (x * 5) % model.len();
            assert_eq!(stack.remove(at), Some(model.remove(at)));
        }
        assert_eq!(stack.size(), model.len());
        assert!(stack.length() >= stack.size());
    }
    for (i, x) in model.iter().enumerate() {
        assert_eq!(stack.get(i), Some(x));
    }
}

#[test]
fn rootish_from_raw_rejects_a_wrong_layout() {
    let blocks = |a: Vec<Vec<Option<char>>>| {
        let n = a.len();
        ArrayStack::from_raw(a.into_iter().map(Some).collect(), n).unwrap()
    };
    assert!(RootishArrayStack::from_raw(blocks(vec![vec![Some('a')], vec![None, None]]), 1)
        .is_some());
    assert!(RootishArrayStack::from_raw(blocks(vec![vec![Some('a')], vec![None, None]]), 2)
        .is_none());
    assert!(RootishArrayStack::from_raw(blocks(vec![vec![Some('a')], vec![None, None]]), 4)
        .is_none());
    assert!(RootishArrayStack::from_raw(blocks(vec![vec![Some('a')], vec![None]]), 1).is_none());
    assert!(RootishArrayStack::from_raw(blocks(vec![vec![None], vec![Some('a'), None]]), 1)
        .is_none());
    assert!(RootishArrayStack::<char>::from_raw(blocks(vec![]), 0).is_some());
}
