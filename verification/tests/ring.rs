use lists::ring::{is_ring, reduce, relocate, slot};
use lists::util::is_filled_to;

#[test]
fn slot_counts_round_the_array() {
    assert_eq!(slot(0, 0, 1), 0);
    assert_eq!(slot(2, 0, 6), 2);
    assert_eq!(slot(2, 3, 6), 5);
    assert_eq!(slot(2, 4, 6), 0);
    assert_eq!(slot(5, 5, 6), 4);
    for origin in 0..7 {
        for i in 0..7 {
            assert_eq!(slot(origin, i, 7), (origin + i) % 7);
        }
    }
    assert_eq!(slot(usize::MAX - 1, usize::MAX - 1, usize::MAX), usize::MAX - 2);
}

#[test]
fn reduce_takes_the_offset_modulo_the_capacity() {
    assert_eq!(reduce(0, 0), 0);
    assert_eq!(reduce(5, 0), 0);
    assert_eq!(reduce(5, 6), 5);
    assert_eq!(reduce(6, 6), 0);
    assert_eq!(reduce(13, 6), 1);
}

#[test]
fn is_ring_tells_a_ring_in_order() {
    let a = vec![Some('d'), None, Some('a'), Some('b'), Some('c')];
    assert!(is_ring(&a, 2, 4));
    assert!(!is_ring(&a, 2, 3));
    assert!(!is_ring(&a, 2, 5));
    assert!(!is_ring(&a, 1, 4));
    assert!(!is_ring(&a, 5, 4));
    assert!(!is_ring(&a, 2, 6));
    let full = vec![Some(1), Some(2)];
    assert!(is_ring(&full, 0, 2));
    assert!(is_ring(&full, 1, 2));
    assert!(!is_ring(&full, 2, 2));
    let none: Vec<Option<u8>> = Vec::new();
    assert!(is_ring(&none, 0, 0));
    assert!(!is_ring(&none, 1, 0));
    assert!(!is_ring(&none, 0, 1));
}

#[test]
fn relocate_moves_the_elements_to_the_front() {
    let mut a = vec![Some('d'), None, Some('a'), Some('b'), Some('c')];
    let b = relocate(&mut a, 2, 4, 8);
    assert_eq!(
        b,
        vec![Some('a'), Some('b'), Some('c'), Some('d'), None, None, None, None]
    );
    assert_eq!(a, vec![None, None, None, None, None]);
    let mut e: Vec<Option<char>> = vec![None, None];
    assert_eq!(relocate(&mut e, 1, 0, 1), vec![None]);
}

#[test]
fn is_filled_to_tells_a_filled_prefix() {
    let a = vec![Some(1), Some(2), None];
    assert!(is_filled_to(&a, 2));
    assert!(!is_filled_to(&a, 1));
    assert!(!is_filled_to(&a, 3));
    assert!(!is_filled_to(&a, 4));
    let none: Vec<Option<u8>> = Vec::new();
    assert!(is_filled_to(&none, 0));
    assert!(!is_filled_to(&none, 1));
}
