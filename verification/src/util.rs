use vstd::prelude::*;

verus! {

/// A slot array is filled to `n` when its first `n` slots hold an element
/// and every other slot is empty.
pub open spec fn filled_to<T>(slots: Seq<Option<T>>, n: int) -> bool {
    &&& 0 <= n <= slots.len()
    &&& forall|k: int| 0 <= k < slots.len() ==> ((#[trigger] slots[k]) is Some <==> k < n)
}

/// The elements held by the first `n` slots of a slot array, in slot order.
pub open spec fn prefix_items<T>(slots: Seq<Option<T>>, n: int) -> Seq<T> {
    Seq::new(n as nat, |k: int| slots[k].unwrap())
}

/// What the place `d` holds when `items` are laid out in order with one
/// empty place, the gap, at position `k`.
pub open spec fn gapped_item<T>(items: Seq<T>, d: int, k: int) -> Option<T> {
    if d < k {
        Some(items[d])
    } else if d == k {
        None
    } else if d <= items.len() {
        Some(items[d - 1])
    } else {
        None
    }
}

/// The element at index `i` of a list, or nothing past its end.
pub open spec fn item_at<T>(items: Seq<T>, i: int) -> Option<T> {
    if 0 <= i < items.len() {
        Some(items[i])
    } else {
        None
    }
}

/// The element that a borrowed option refers to, if any.
pub open spec fn referent<T>(o: Option<&T>) -> Option<T> {
    match o {
        Some(v) => Some(*v),
        None => None,
    }
}

/// The capacity chosen whenever a store holding `n` elements is reallocated:
/// twice the number of elements, and never zero.
pub open spec fn resized_capacity(n: int) -> int {
    if 2 * n > 1 {
        2 * n
    } else {
        1
    }
}

/// The capacity after an element is added to a store of `length` slots
/// that holds `size` elements: a full store is reallocated, any other
/// keeps its slots.
pub open spec fn grown_capacity(size: int, length: int) -> int {
    if size == length {
        resized_capacity(size)
    } else {
        length
    }
}

/// The capacity after an element is removed from a store of `length`
/// slots and `size` elements are left: a store at least three times as
/// long as what it holds is reallocated, any other keeps its slots.
pub open spec fn shrunk_capacity(size: int, length: int) -> int {
    if length >= 3 * size {
        resized_capacity(size)
    } else {
        length
    }
}

/// A reallocated store has room for its elements and at most twice as
/// many slots, or one slot.
pub proof fn lemma_resized_capacity(size: int)
    requires
        0 <= size,
    ensures
        size <= resized_capacity(size),
        resized_capacity(size) == 2 * size || resized_capacity(size) == 1,
        resized_capacity(size) <= resized_capacity(size + 1),
{
}

/// After an element is added the store has room for all elements, and
/// where it was reallocated it has at most twice as many slots as
/// elements.
pub proof fn lemma_grown_capacity(size: int, length: int)
    requires
        0 <= size <= length,
    ensures
        size + 1 <= grown_capacity(size, length),
        size == length ==> grown_capacity(size, length) <= resized_capacity(size + 1),
        size < length ==> grown_capacity(size, length) == length,
{
}

/// After an element is removed the store has room for the `size` elements
/// left, and fewer than three times as many slots unless it was
/// reallocated to twice as many, or to one slot.
pub proof fn lemma_shrunk_capacity(size: int, length: int)
    requires
        0 <= size < length,
    ensures
        size <= shrunk_capacity(size, length) <= length,
        shrunk_capacity(size, length) < 3 * size || shrunk_capacity(size, length)
            == resized_capacity(size),
        length >= 3 * size ==> shrunk_capacity(size, length) == resized_capacity(size),
{
}

/// Allocates a backing store of `length` slots, all of them empty.
pub fn allocate<T>(length: usize) -> (a: Vec<Option<T>>)
    ensures
        a@.len() == length,
        forall|k: int| 0 <= k < length ==> a@[k] is None,
        filled_to(a@, 0),
{
    let mut a: Vec<Option<T>> = Vec::with_capacity(length);
    let mut k: usize = 0;
    while k < length
        invariant
            k <= length,
            a@.len() == k,
            forall|m: int| 0 <= m < k ==> a@[m] is None,
        decreases length - k,
    {
        a.push(None);
        k += 1;
    }
    a
}

/// Tells whether the first `n` slots of `a` are populated and the rest empty.
pub fn is_filled_to<T>(a: &Vec<Option<T>>, n: usize) -> (ok: bool)
    ensures
        ok == filled_to(a@, n as int),
{
    if n > a.len() {
        return false;
    }
    let mut k: usize = 0;
    while k < a.len()
        invariant
            k <= a@.len(),
            n <= a@.len(),
            forall|m: int| 0 <= m < k ==> ((#[trigger] a@[m]) is Some <==> m < n),
        decreases a@.len() - k,
    {
        if a[k].is_some() != (k < n) {
            return false;
        }
        k += 1;
    }
    true
}

} // verus!
