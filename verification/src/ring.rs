use vstd::prelude::*;
use crate::util::{allocate, filled_to, gapped_item, prefix_items};

verus! {

/// The slot that holds the element `i` places after the one in slot
/// `origin`, in a circular array of `cap` slots.
pub open spec fn slot_of(origin: int, i: int, cap: int) -> int {
    if origin + i < cap {
        origin + i
    } else {
        origin + i - cap
    }
}

/// How many places after slot `origin` slot `k` lies, going round a
/// circular array of `cap` slots.
pub open spec fn index_of(origin: int, k: int, cap: int) -> int {
    if k >= origin {
        k - origin
    } else {
        k - origin + cap
    }
}

/// A circular slot array is in order when its origin is a slot of the array
/// (slot 0 for an array without slots) and exactly the `n` slots from the
/// origin on, going round, are populated.
pub open spec fn ring_wf<T>(slots: Seq<Option<T>>, origin: int, n: int) -> bool {
    &&& 0 <= n <= slots.len()
    &&& 0 <= origin
    &&& origin < slots.len() || origin == 0
    &&& forall|k: int|
        0 <= k < slots.len() ==> ((#[trigger] slots[k]) is Some <==> index_of(
            origin,
            k,
            slots.len() as int,
        ) < n)
}

/// The `n` elements of a circular slot array, starting at its origin.
pub open spec fn ring_items<T>(slots: Seq<Option<T>>, origin: int, n: int) -> Seq<T> {
    Seq::new(n as nat, |i: int| slots[slot_of(origin, i, slots.len() as int)].unwrap())
}

/// The origin that a caller's offset stands for: the offset taken modulo
/// the capacity, and 0 where there are no slots.
pub open spec fn reduced(offset: int, cap: int) -> int {
    if cap > 0 {
        offset % cap
    } else {
        0
    }
}

/// The slot before `origin`, going round a circular array of `cap` slots.
pub open spec fn prev_slot(origin: int, cap: int) -> int {
    if origin == 0 {
        cap - 1
    } else {
        origin - 1
    }
}

/// The circular slot array holds `items` from `origin` on, in order, with
/// a gap of one empty slot at position `k`; all other slots are empty.
#[verifier::opaque]
pub open spec fn gapped<T>(slots: Seq<Option<T>>, items: Seq<T>, origin: int, k: int) -> bool {
    forall|p: int|
        0 <= p < slots.len() ==> #[trigger] slots[p] == gapped_item(
            items,
            index_of(origin, p, slots.len() as int),
            k,
        )
}

/// A circular slot array in order holds its elements with the gap behind
/// the last of them.
pub proof fn lemma_ring_is_gapped<T>(slots: Seq<Option<T>>, origin: int, n: int)
    requires
        ring_wf(slots, origin, n),
    ensures
        gapped(slots, ring_items(slots, origin, n), origin, n),
{
    reveal(gapped);
    let items = ring_items(slots, origin, n);
    let cap = slots.len() as int;
    assert forall|p: int| 0 <= p < slots.len() implies #[trigger] slots[p] == gapped_item(
        items,
        index_of(origin, p, cap),
        n,
    ) by {
        let d = index_of(origin, p, cap);
        if d < n {
            assert(slot_of(origin, d, cap) == p);
            assert(items[d] == slots[p].unwrap());
        }
    }
}

/// Elements laid out with the gap behind the last of them make a circular
/// slot array in order, and they are its elements.
pub proof fn lemma_gapped_is_ring<T>(slots: Seq<Option<T>>, items: Seq<T>, origin: int)
    requires
        gapped(slots, items, origin, items.len() as int),
        items.len() <= slots.len(),
        0 <= origin,
        origin < slots.len() || origin == 0,
    ensures
        ring_wf(slots, origin, items.len() as int),
        ring_items(slots, origin, items.len() as int) == items,
{
    reveal(gapped);
    let cap = slots.len() as int;
    let n = items.len() as int;
    assert forall|i: int| 0 <= i < n implies #[trigger] ring_items(slots, origin, n)[i]
        == items[i] by {
        let p = slot_of(origin, i, cap);
        assert(index_of(origin, p, cap) == i);
        assert(slots[p] == gapped_item(items, i, n));
    }
    assert(ring_items(slots, origin, n) =~= items);
}

/// With the gap behind the last element and a free slot left, the same
/// slots read from the slot before the origin have the gap in front.
pub proof fn lemma_gap_wraps_to_front<T>(slots: Seq<Option<T>>, items: Seq<T>, origin: int)
    requires
        gapped(slots, items, origin, items.len() as int),
        items.len() < slots.len(),
        0 <= origin < slots.len(),
    ensures
        gapped(slots, items, prev_slot(origin, slots.len() as int), 0),
{
    reveal(gapped);
    let cap = slots.len() as int;
    let before = prev_slot(origin, cap);
    assert forall|p: int| 0 <= p < slots.len() implies #[trigger] slots[p] == gapped_item(
        items,
        index_of(before, p, cap),
        0,
    ) by {
        let d = index_of(origin, p, cap);
        assert(slots[p] == gapped_item(items, d, items.len() as int));
    }
}

/// With the gap in front, the same slots read from the slot after the
/// origin have the gap behind the last element.
pub proof fn lemma_gap_wraps_to_back<T>(slots: Seq<Option<T>>, items: Seq<T>, origin: int)
    requires
        gapped(slots, items, origin, 0),
        items.len() < slots.len(),
        0 <= origin < slots.len(),
    ensures
        gapped(slots, items, slot_of(origin, 1, slots.len() as int), items.len() as int),
{
    reveal(gapped);
    let cap = slots.len() as int;
    let after = slot_of(origin, 1, cap);
    assert forall|p: int| 0 <= p < slots.len() implies #[trigger] slots[p] == gapped_item(
        items,
        index_of(after, p, cap),
        items.len() as int,
    ) by {
        let d = index_of(origin, p, cap);
        assert(slots[p] == gapped_item(items, d, 0));
    }
}

/// Putting `x` into the gap at position `i` lays out the elements with `x`
/// inserted at `i`, the gap behind the last of them.
pub proof fn lemma_gap_filled<T>(slots: Seq<Option<T>>, items: Seq<T>, origin: int, i: int, x: T)
    requires
        gapped(slots, items, origin, i),
        0 <= i <= items.len() < slots.len(),
        0 <= origin < slots.len(),
    ensures
        gapped(
            slots.update(slot_of(origin, i, slots.len() as int), Some(x)),
            items.insert(i, x),
            origin,
            items.len() as int + 1,
        ),
{
    reveal(gapped);
    let cap = slots.len() as int;
    let target = slot_of(origin, i, cap);
    let filled = slots.update(target, Some(x));
    let grown = items.insert(i, x);
    assert forall|p: int| 0 <= p < filled.len() implies #[trigger] filled[p] == gapped_item(
        grown,
        index_of(origin, p, cap),
        items.len() as int + 1,
    ) by {
        let d = index_of(origin, p, cap);
        assert(slots[p] == gapped_item(items, d, i));
        if p != target {
            assert(d != i);
            assert(filled[p] == slots[p]);
        }
    }
}

/// Emptying the slot of the element at position `i` lays out the
/// remaining elements with the gap at `i`.
pub proof fn lemma_gap_opened<T>(slots: Seq<Option<T>>, items: Seq<T>, origin: int, i: int)
    requires
        gapped(slots, items, origin, items.len() as int),
        0 <= i < items.len() <= slots.len(),
        0 <= origin < slots.len(),
    ensures
        slots[slot_of(origin, i, slots.len() as int)] == Some(items[i]),
        gapped(
            slots.update(slot_of(origin, i, slots.len() as int), None),
            items.remove(i),
            origin,
            i,
        ),
{
    reveal(gapped);
    let cap = slots.len() as int;
    let target = slot_of(origin, i, cap);
    let opened = slots.update(target, None);
    let rest = items.remove(i);
    assert(index_of(origin, target, cap) == i);
    assert(slots[target] == gapped_item(items, i, items.len() as int));
    assert forall|p: int| 0 <= p < opened.len() implies #[trigger] opened[p] == gapped_item(
        rest,
        index_of(origin, p, cap),
        i,
    ) by {
        let d = index_of(origin, p, cap);
        assert(slots[p] == gapped_item(items, d, items.len() as int));
        if p != target {
            assert(d != i);
            assert(opened[p] == slots[p]);
        }
    }
}

/// Going round the array is counting modulo its capacity.
pub proof fn lemma_slot_of_is_modulo(origin: int, i: int, cap: int)
    requires
        0 <= origin < cap,
        0 <= i < cap,
    ensures
        slot_of(origin, i, cap) == (origin + i) % cap,
        0 <= slot_of(origin, i, cap) < cap,
        index_of(origin, slot_of(origin, i, cap), cap) == i,
{
    if origin + i < cap {
        vstd::arithmetic::div_mod::lemma_small_mod((origin + i) as nat, cap as nat);
    } else {
        vstd::arithmetic::div_mod::lemma_small_mod((origin + i - cap) as nat, cap as nat);
        vstd::arithmetic::div_mod::lemma_mod_sub_multiples_vanish(origin + i, cap);
    }
}

/// Computes `slot_of` without overflow.
pub fn slot(origin: usize, i: usize, cap: usize) -> (k: usize)
    requires
        origin < cap,
        i < cap,
    ensures
        k == slot_of(origin as int, i as int, cap as int),
        k < cap,
{
    if i < cap - origin {
        origin + i
    } else {
        i - (cap - origin)
    }
}

/// Computes `reduced`.
pub fn reduce(offset: usize, cap: usize) -> (origin: usize)
    ensures
        origin == reduced(offset as int, cap as int),
        origin < cap || origin == 0,
{
    if cap > 0 {
        offset % cap
    } else {
        0
    }
}

/// Tells whether exactly the `n` slots from `origin` on are populated.
pub fn is_ring<T>(a: &Vec<Option<T>>, origin: usize, n: usize) -> (ok: bool)
    ensures
        ok == ring_wf(a@, origin as int, n as int),
{
    let cap = a.len();
    if n > cap || (origin >= cap && origin != 0) {
        return false;
    }
    let mut k: usize = 0;
    while k < cap
        invariant
            k <= cap,
            cap == a@.len(),
            n <= cap,
            origin < cap || origin == 0,
            forall|m: int|
                0 <= m < k ==> ((#[trigger] a@[m]) is Some <==> index_of(
                    origin as int,
                    m,
                    cap as int,
                ) < n),
        decreases cap - k,
    {
        let d = if k >= origin {
            k - origin
        } else {
            k + (cap - origin)
        };
        if a[k].is_some() != (d < n) {
            return false;
        }
        k += 1;
    }
    true
}

/// Moves the `n` elements of a circular slot array into the first slots of
/// a fresh array of `cap` slots, in order, leaving the old array empty.
pub fn relocate<T>(a: &mut Vec<Option<T>>, origin: usize, n: usize, cap: usize) -> (b: Vec<
    Option<T>,
>)
    requires
        ring_wf(old(a)@, origin as int, n as int),
        n <= cap,
    ensures
        b@.len() == cap,
        filled_to(b@, n as int),
        prefix_items(b@, n as int) == ring_items(old(a)@, origin as int, n as int),
        final(a)@.len() == old(a)@.len(),
{
    let mut b: Vec<Option<T>> = allocate(cap);
    let len = a.len();
    let mut k: usize = 0;
    while k < n
        invariant
            k <= n <= cap,
            n <= len,
            len == a@.len(),
            len == old(a)@.len(),
            b@.len() == cap,
            ring_wf(old(a)@, origin as int, n as int),
            forall|m: int|
                0 <= m < k ==> #[trigger] b@[m] == old(a)@[slot_of(origin as int, m, len as int)],
            forall|m: int| k <= m < cap ==> (#[trigger] b@[m]) is None,
            forall|m: int|
                0 <= m < len && index_of(origin as int, m, len as int) >= k ==> #[trigger] a@[m]
                    == old(a)@[m],
        decreases n - k,
    {
        let p = slot(origin, k, len);
        let t = a[p].take();
        b[k] = t;
        k += 1;
    }
    assert(prefix_items(b@, n as int) =~= ring_items(old(a)@, origin as int, n as int));
    b
}

/// Moves the gap from position `from` to position `to`, one element at a
/// time, each element stepping into the empty slot beside it.
pub(crate) fn shift_gap<T>(
    a: &mut Vec<Option<T>>,
    origin: usize,
    from: usize,
    to: usize,
    Ghost(items): Ghost<Seq<T>>,
)
    requires
        origin < old(a)@.len(),
        items.len() < old(a)@.len(),
        from <= items.len(),
        to <= items.len(),
        gapped(old(a)@, items, origin as int, from as int),
    ensures
        final(a)@.len() == old(a)@.len(),
        gapped(final(a)@, items, origin as int, to as int),
{
    let cap = a.len();
    let mut k: usize = from;
    while k < to
        invariant
            k <= to || k == from,
            k <= items.len(),
            to <= items.len(),
            items.len() < cap,
            origin < cap,
            cap == a@.len(),
            gapped(a@, items, origin as int, k as int),
        decreases to - k,
    {
        let src = slot(origin, k + 1, cap);
        let dst = slot(origin, k, cap);
        proof {
            reveal(gapped);
        }
        let t = a[src].take();
        a[dst] = t;
        k += 1;
    }
    while k > to
        invariant
            to <= k,
            k <= items.len(),
            items.len() < cap,
            origin < cap,
            cap == a@.len(),
            gapped(a@, items, origin as int, k as int),
        decreases k,
    {
        let src = slot(origin, k - 1, cap);
        let dst = slot(origin, k, cap);
        proof {
            reveal(gapped);
        }
        let t = a[src].take();
        a[dst] = t;
        k -= 1;
    }
}

} // verus!
