use lists::DLList;

fn check(list: &DLList<char>, expected: &str) {
    for (i, v) in expected.chars().enumerate() {
        assert_eq!(list.get(i), Some(v));
    }
    assert_eq!(list.size(), expected.len());
}

fn setup(list: &mut DLList<char>, s: &str) {
    for (i, v) in s.chars().enumerate() {
        assert!(list.add(i, v))
    }
}

#[test]
fn doubly_linked_list_test_setup_helper() {
    let mut list = DLList::new();
    let s = "abcdefg";
    setup(&mut list, s);
    check(&list, s);
}

#[test]
fn doubly_linked_list_scenario() {
    let mut list = DLList::new();
    setup(&mut list, "abcde");

    assert!(list.add(0, 'x'));
    check(&list, "xabcde");

    assert!(list.add(1, 'y'));
    check(&list, "xyabcde");

    assert!(list.add(7, 'B'));
    check(&list, "xyabcdeB");

    assert!(list.add(7, 'A'));
    check(&list, "xyabcdeAB");

    assert_eq!(list.remove(2), Some('a'));
    check(&list, "xybcdeAB");

    assert_eq!(list.remove(0), Some('x'));
    check(&list, "ybcdeAB");

    assert_eq!(list.remove(6), Some('B'));
    check(&list, "ybcdeA");

    assert_eq!(list.remove(4), Some('e'));
    check(&list, "ybcdA");
}

#[test]
fn doubly_linked_list_remove_from_empty() {
    let mut list = DLList::new();
    for i in 0..100 {
        assert!(list.remove(i).is_none());
        check(&list, "");
    }
}

#[test]
fn remove_from_out_of_bound() {
    let mut list = DLList::new();
    let initial = "abcde";
    setup(&mut list, initial);

    for i in initial.len()..100 {
        assert!(list.remove(i).is_none());
    }
}

#[test]
fn doubly_linked_list_remove_from_one() {
    let mut list = DLList::new();
    setup(&mut list, "a");

    assert_eq!(list.remove(0), Some('a'));
    check(&list, "");
    assert!(list.next(list.next(list.head()).unwrap()).is_none());
    assert!(list.prev(list.prev(list.tail()).unwrap()).is_none());
}

#[test]
fn add_to_out_of_bound() {
    let mut list = DLList::new();
    let initial = "abcde";
    setup(&mut list, "abcde");

    for i in initial.len() + 1..100 {
        assert!(!list.add(i, 'Z'));
    }
}

#[test]
fn doubly_linked_list_get_past_the_end() {
    let mut list = DLList::new();
    setup(&mut list, "ab");
    assert_eq!(list.get(2), None);
    assert_eq!(list.get(70), None);
    assert_eq!(list.set(2, 'x'), None);
    assert_eq!(list.set(70, 'x'), None);
    check(&list, "ab");
    assert_eq!(list.get(2), None);
}

#[test]
fn doubly_linked_list_set_then_get() {
    let mut list = DLList::new();
    setup(&mut list, "abcde");
    for i in 0..5 {
        assert_eq!(list.set(i, 'z'), Some("abcde".chars().nth(i).unwrap()));
        assert_eq!(list.get(i), Some('z'));
    }
    check(&list, "zzzzz");
}

#[test]
fn doubly_linked_list_get_node_walks_from_either_end() {
    let mut list = DLList::new();
    setup(&mut list, "abcdefg");
    let mut at = list.head();
    for i in 0..7 {
        at = list.next(at).unwrap();
        assert_eq!(list.get_node(i), Some(at));
    }
    assert_eq!(list.next(at), Some(list.tail()));
    assert_eq!(list.get_node(7), Some(list.tail()));
    assert_eq!(list.get_node(8), None);
    let mut at = list.tail();
    for i in (0..7).rev() {
        at = list.prev(at).unwrap();
        assert_eq!(list.get_node(i), Some(at));
    }
    assert_eq!(list.prev(at), Some(list.head()));
    assert_eq!(list.prev(list.head()), None);
    assert_eq!(list.next(list.tail()), None);
}

#[test]
fn doubly_linked_list_add_before_a_node() {
    let mut list = DLList::new();
    setup(&mut list, "ac");
    let c = list.get_node(1);
    let b = list.add_before(c, 'b');
    assert!(b.is_some());
    check(&list, "abc");
    assert_eq!(list.get_node(1), b);
    assert_eq!(list.get_node(2), c);
    let tail = Some(list.tail());
    assert!(list.add_before(tail, 'd').is_some());
    check(&list, "abcd");
}

#[test]
fn doubly_linked_list_add_before_without_a_node() {
    let mut list = DLList::new();
    setup(&mut list, "ab");
    assert_eq!(list.add_before(None, 'x'), None);
    let head = Some(list.head());
    assert_eq!(list.add_before(head, 'x'), None);
    assert_eq!(list.add_before(Some(1000), 'x'), None);
    check(&list, "ab");
}

#[test]
fn doubly_linked_list_remove_node() {
    let mut list = DLList::new();
    setup(&mut list, "abc");
    let b = list.get_node(1);
    assert_eq!(list.remove_node(b), Some('b'));
    check(&list, "ac");
    assert_eq!(list.remove_node(b), None);
    assert_eq!(list.remove_node(None), None);
    let head = Some(list.head());
    let tail = Some(list.tail());
    assert_eq!(list.remove_node(head), None);
    assert_eq!(list.remove_node(tail), None);
    assert_eq!(list.remove_node(Some(1000)), None);
    check(&list, "ac");
    assert_eq!(list.add_before(b, 'x'), None);
    check(&list, "ac");
}

#[test]
fn doubly_linked_list_default_is_empty() {
    let list = DLList::<char>::default();
    assert_eq!(list.size(), 0);
    assert_eq!(list.next(list.head()), Some(list.tail()));
    assert_eq!(list.prev(list.tail()), Some(list.head()));
}

#[test]
fn doubly_linked_list_behaves_like_a_vector() {
    let mut list = DLList::new();
    let mut model: Vec<usize> = Vec::new();
    for x in 0..400usize {
        let i = (x * 7) % (model.len() + 1);
        assert!(list.add(i, x));
        model.insert(i, x);
        if x % 3 == 2 {
            let at = (x * 5) % model.len();
            assert_eq!(list.remove(at), Some(model.remove(at)));
        }
        assert_eq!(list.size(), model.len());
    }
    for (i, x) in model.iter().enumerate() {
        assert_eq!(list.get(i), Some(*x));
    }
    while !model.is_empty() {
        let at = model.len() / 2;
        assert_eq!(list.remove(at), Some(model.remove(at)));
    }
    assert_eq!(list.size(), 0);
    assert_eq!(list.next(list.head()), Some(list.tail()));
}
