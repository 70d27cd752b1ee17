use vstd::prelude::*;
use crate::history::{
    all_allowed,
    count_added,
    count_removed,
    lemma_size_counts_calls,
    replay,
    Step,
};
use crate::array_stack::ArrayStack;
use crate::triangular::{
    block_of,
    blocks_after_add,
    blocks_after_adds,
    blocks_for,
    i2b,
    lemma_block_of,
    lemma_block_of_holds,
    lemma_blocks_after_adds,
    lemma_blocks_for,
    lemma_tri_monotone,
    lemma_tri_step,
    lemma_waste_is_small,
    locate,
    tri,
    triangle,
};
use crate::util::{allocate, gapped_item, grown_capacity, item_at, referent, shrunk_capacity};

verus! {

/// Slot `i` of a list of blocks, counting through the blocks laid end to
/// end.
pub open spec fn flat<T>(blocks: Seq<Vec<Option<T>>>, i: int) -> Option<T> {
    blocks[block_of(i)]@[i - tri(block_of(i))]
}

/// Block `b` has `b + 1` slots.
pub open spec fn stepped<T>(blocks: Seq<Vec<Option<T>>>) -> bool {
    forall|b: int| 0 <= b < blocks.len() ==> (#[trigger] blocks[b])@.len() == b + 1
}

/// The blocks are stepped, their slots can be counted in a `usize`, and
/// counting through them exactly the first `n` slots are populated.
pub open spec fn rootish_wf<T>(blocks: Seq<Vec<Option<T>>>, n: int) -> bool {
    &&& stepped(blocks)
    &&& tri(blocks.len() as int) <= usize::MAX
    &&& 0 <= n <= tri(blocks.len() as int)
    &&& forall|i: int|
        0 <= i < tri(blocks.len() as int) ==> ((#[trigger] flat(blocks, i)) is Some <==> i < n)
}

/// The elements of the first `n` slots, counting through the blocks.
pub open spec fn flat_items<T>(blocks: Seq<Vec<Option<T>>>, n: int) -> Seq<T> {
    Seq::new(n as nat, |i: int| flat(blocks, i).unwrap())
}

/// Counting through the blocks, the slots hold `items` in order with a gap
/// of one empty slot at position `k`; all slots behind the items are empty.
#[verifier::opaque]
pub open spec fn flat_gapped<T>(blocks: Seq<Vec<Option<T>>>, items: Seq<T>, k: int) -> bool {
    forall|p: int|
        0 <= p < tri(blocks.len() as int) ==> #[trigger] flat(blocks, p) == gapped_item(
            items,
            p,
            k,
        )
}

/// An index below `tri(r)` lies in one of the first `r` blocks, at a place
/// that the block has.
pub proof fn lemma_block_in_range(p: int, r: int)
    requires
        0 <= p < tri(r),
        0 <= r,
    ensures
        0 <= block_of(p) < r,
        0 <= p - tri(block_of(p)) <= block_of(p),
{
    lemma_block_of_holds(p);
    let b = block_of(p);
    lemma_tri_step(b);
    if b >= r {
        lemma_tri_monotone(r, b);
    }
}

/// Blocks in order hold their elements with the gap behind the last.
pub proof fn lemma_full_is_gapped<T>(blocks: Seq<Vec<Option<T>>>, n: int)
    requires
        rootish_wf(blocks, n),
    ensures
        flat_gapped(blocks, flat_items(blocks, n), n),
{
    reveal(flat_gapped);
}

/// Elements laid out with the gap behind the last of them make blocks in
/// order, and they are the elements of those blocks.
pub proof fn lemma_gapped_is_full<T>(blocks: Seq<Vec<Option<T>>>, items: Seq<T>)
    requires
        flat_gapped(blocks, items, items.len() as int),
        stepped(blocks),
        items.len() <= tri(blocks.len() as int) <= usize::MAX,
    ensures
        rootish_wf(blocks, items.len() as int),
        flat_items(blocks, items.len() as int) == items,
{
    reveal(flat_gapped);
    assert forall|i: int| 0 <= i < items.len() implies #[trigger] flat_items(
        blocks,
        items.len() as int,
    )[i] == items[i] by {
        assert(flat(blocks, i) == gapped_item(items, i, items.len() as int));
    }
    assert(flat_items(blocks, items.len() as int) =~= items);
}

/// Moving the element beside the gap into the gap moves the gap one
/// position, to where that element was.
pub proof fn lemma_gap_moved<T>(
    before: Seq<Vec<Option<T>>>,
    mid: Seq<Vec<Option<T>>>,
    after: Seq<Vec<Option<T>>>,
    items: Seq<T>,
    from: int,
    to: int,
)
    requires
        flat_gapped(before, items, from),
        before.len() == mid.len() == after.len(),
        0 <= from <= items.len() < tri(before.len() as int),
        0 <= to <= items.len(),
        to == from + 1 || to == from - 1,
        forall|p: int|
            0 <= p < tri(before.len() as int) ==> #[trigger] flat(mid, p) == if p == to {
                None
            } else {
                flat(before, p)
            },
        forall|p: int|
            0 <= p < tri(before.len() as int) ==> #[trigger] flat(after, p) == if p == from {
                flat(before, to)
            } else {
                flat(mid, p)
            },
    ensures
        flat_gapped(after, items, to),
{
    reveal(flat_gapped);
    assert forall|p: int| 0 <= p < tri(after.len() as int) implies #[trigger] flat(after, p)
        == gapped_item(items, p, to) by {
        assert(flat(before, p) == gapped_item(items, p, from));
        assert(flat(before, to) == gapped_item(items, to, from));
        assert(flat(mid, p) == if p == to {
            None
        } else {
            flat(before, p)
        });
    }
}

/// Putting `x` into the gap at position `i` lays out the elements with `x`
/// inserted at `i`, the gap behind the last of them.
pub proof fn lemma_gap_filled_flat<T>(
    before: Seq<Vec<Option<T>>>,
    after: Seq<Vec<Option<T>>>,
    items: Seq<T>,
    i: int,
    x: T,
)
    requires
        flat_gapped(before, items, i),
        before.len() == after.len(),
        0 <= i <= items.len() < tri(before.len() as int),
        forall|p: int|
            0 <= p < tri(before.len() as int) ==> #[trigger] flat(after, p) == if p == i {
                Some(x)
            } else {
                flat(before, p)
            },
    ensures
        flat_gapped(after, items.insert(i, x), items.len() as int + 1),
{
    reveal(flat_gapped);
    let grown = items.insert(i, x);
    assert forall|p: int| 0 <= p < tri(after.len() as int) implies #[trigger] flat(after, p)
        == gapped_item(grown, p, items.len() as int + 1) by {
        assert(flat(before, p) == gapped_item(items, p, i));
    }
}

/// Emptying the slot of the element at position `i` lays out the
/// remaining elements with the gap at `i`.
pub proof fn lemma_gap_opened_flat<T>(
    before: Seq<Vec<Option<T>>>,
    after: Seq<Vec<Option<T>>>,
    items: Seq<T>,
    i: int,
)
    requires
        flat_gapped(before, items, items.len() as int),
        before.len() == after.len(),
        0 <= i < items.len() <= tri(before.len() as int),
        forall|p: int|
            0 <= p < tri(before.len() as int) ==> #[trigger] flat(after, p) == if p == i {
                None
            } else {
                flat(before, p)
            },
    ensures
        flat(before, i) == Some(items[i]),
        flat_gapped(after, items.remove(i), i),
{
    reveal(flat_gapped);
    let rest = items.remove(i);
    assert(flat(before, i) == gapped_item(items, i, items.len() as int));
    assert forall|p: int| 0 <= p < tri(after.len() as int) implies #[trigger] flat(after, p)
        == gapped_item(rest, p, i) by {
        assert(flat(before, p) == gapped_item(items, p, items.len() as int));
    }
}

/// Dropping the last block, where it is not needed, leaves the blocks in
/// order with the same elements.
pub proof fn lemma_last_block_dropped<T>(blocks: Seq<Vec<Option<T>>>, n: int)
    requires
        rootish_wf(blocks, n),
        blocks.len() > 0,
        n <= tri(blocks.len() - 1),
    ensures
        rootish_wf(blocks.drop_last(), n),
        flat_items(blocks.drop_last(), n) == flat_items(blocks, n),
{
    let r = blocks.len() - 1;
    let rest = blocks.drop_last();
    lemma_tri_step(r);
    lemma_tri_monotone(r, r);
    assert forall|i: int| 0 <= i < tri(r) implies #[trigger] flat(rest, i) == flat(blocks, i) by {
        lemma_block_in_range(i, r);
    }
    assert forall|b: int| 0 <= b < rest.len() implies (#[trigger] rest[b])@.len() == b + 1 by {
        assert(rest[b] == blocks[b]);
    }
    assert forall|i: int| 0 <= i < tri(r) implies ((#[trigger] flat(rest, i)) is Some <==> i
        < n) by {
        assert(flat(rest, i) == flat(blocks, i));
    }
    assert(flat_items(rest, n) =~= flat_items(blocks, n));
}

/// Appending an empty block with one slot more than the last leaves the
/// blocks in order with the same elements.
pub proof fn lemma_block_appended<T>(blocks: Seq<Vec<Option<T>>>, n: int, fresh: Vec<Option<T>>)
    requires
        rootish_wf(blocks, n),
        fresh@.len() == blocks.len() + 1,
        forall|j: int| 0 <= j < fresh@.len() ==> (#[trigger] fresh@[j]) is None,
        tri(blocks.len() as int + 1) <= usize::MAX,
    ensures
        rootish_wf(blocks.push(fresh), n),
        flat_items(blocks.push(fresh), n) == flat_items(blocks, n),
{
    let r = blocks.len() as int;
    let more = blocks.push(fresh);
    lemma_tri_step(r);
    lemma_tri_monotone(r, r);
    assert forall|i: int| 0 <= i < tri(r) implies #[trigger] flat(more, i) == flat(blocks, i) by {
        lemma_block_in_range(i, r);
    }
    assert forall|i: int| 0 <= i < tri(r + 1) implies ((#[trigger] flat(more, i)) is Some <==> i
        < n) by {
        if i < tri(r) {
            assert(flat(more, i) == flat(blocks, i));
        } else {
            lemma_block_of(i, r);
            assert(flat(more, i) == fresh@[i - tri(r)]);
        }
    }
    assert(flat_items(more, n) =~= flat_items(blocks, n));
}

/// The capacity of a stack's backing array after `k` of its `r` elements
/// were removed from its end, one at a time.
pub open spec fn popped_length(len: int, r: int, k: nat) -> int
    decreases k,
{
    if k == 0 {
        len
    } else {
        let before = popped_length(len, r, (k - 1) as nat);
        let left = r - k;
        shrunk_capacity(left, before)
    }
}

/// The number of blocks left when blocks are dropped from the end for as
/// long as the blocks without the last two still have room for `n`
/// elements.
pub open spec fn kept_blocks(r: int, n: int) -> int {
    if n <= 0 {
        0
    } else if r <= blocks_for(n) + 1 {
        r
    } else {
        blocks_for(n) + 1
    }
}

/// A list stored in blocks of 1, 2, 3, ... slots, so that the slots left
/// unused are few: about the square root of twice the number of elements.
#[derive(Debug)]
pub struct RootishArrayStack<T> {
    blocks: ArrayStack<Vec<Option<T>>>,
    n: usize,
}

impl<T> View for RootishArrayStack<T> {
    type V = Seq<T>;

    /// The list itself: the first `size` slots, counting through the
    /// blocks.
    open spec fn view(&self) -> Seq<T> {
        flat_items(self.spec_blocks()@, self.spec_size() as int)
    }
}

impl<T> RootishArrayStack<T> {
    /// The stack of blocks.
    pub closed spec fn spec_blocks(&self) -> ArrayStack<Vec<Option<T>>> {
        self.blocks
    }

    /// The number of elements in the list.
    pub closed spec fn spec_size(&self) -> usize {
        self.n
    }

    /// The number of blocks.
    pub open spec fn block_count(&self) -> int {
        self.spec_blocks()@.len() as int
    }

    /// The number of slots in all blocks together.
    pub open spec fn spec_length(&self) -> usize {
        tri(self.block_count()) as usize
    }

    /// The stack of blocks is in order, and so are the blocks.
    pub open spec fn wf(&self) -> bool {
        &&& self.spec_blocks().wf()
        &&& rootish_wf(self.spec_blocks()@, self.spec_size() as int)
    }

    /// The blocks are stepped and can be counted through, whatever they
    /// hold.
    pub open spec fn framed(&self) -> bool {
        &&& self.spec_blocks().wf()
        &&& stepped(self.spec_blocks()@)
        &&& tri(self.block_count()) <= usize::MAX
    }

    /// What `get(i)` returns: the `i`-th element, or nothing past the end.
    pub open spec fn spec_get(&self, i: int) -> Option<T> {
        item_at(self@, i)
    }

    /// An empty list with the least number of blocks that have
    /// `min_length` slots.
    pub fn new(min_length: usize) -> (s: Self)
        requires
            min_length <= usize::MAX / 2,
        ensures
            s.wf(),
            s@ == Seq::<T>::empty(),
            s.block_count() == blocks_for(min_length as int),
            s.spec_blocks().spec_length() == blocks_for(min_length as int),
    {
        let r: usize = if min_length == 0 {
            0
        } else {
            proof {
                lemma_block_of_holds(min_length - 1);
            }
            i2b(min_length - 1) + 1
        };
        proof {
            lemma_blocks_for(min_length as int, r as int);
            lemma_tri_step(0);
            if r > 0 {
                lemma_tri_step(r - 1);
                lemma_block_of_holds(min_length - 1);
            }
        }
        let mut blocks: ArrayStack<Vec<Option<T>>> = ArrayStack::new(r);
        let mut b: usize = 0;
        while b < r
            invariant
                b <= r,
                r <= usize::MAX / 2,
                blocks.wf(),
                blocks@.len() == b,
                blocks.spec_length() == r,
                stepped(blocks@),
                forall|c: int, j: int|
                    0 <= c < b && 0 <= j <= c ==> (#[trigger] blocks@[c]@[j]) is None,
            decreases r - b,
        {
            let block: Vec<Option<T>> = allocate(b + 1);
            blocks.add(b, block);
            b += 1;
        }
        let s = Self { blocks, n: 0 };
        proof {
            assert forall|i: int| 0 <= i < tri(r as int) implies (#[trigger] flat(
                blocks@,
                i,
            )) is None by {
                lemma_block_in_range(i, r as int);
            }
            assert(s@ =~= Seq::<T>::empty());
        }
        s
    }

    /// The stack of blocks.
    pub fn blocks(&self) -> (b: &ArrayStack<Vec<Option<T>>>)
        ensures
            *b == self.spec_blocks(),
    {
        &self.blocks
    }

    /// The number of elements.
    #[verifier::when_used_as_spec(spec_size)]
    pub fn size(&self) -> (n: usize)
        ensures
            n == self.spec_size(),
            n == self@.len(),
    {
        self.n
    }

    /// The number of slots in all blocks together.
    #[verifier::when_used_as_spec(spec_length)]
    pub fn length(&self) -> (l: usize)
        requires
            self.wf(),
        ensures
            l == self.spec_length(),
            l == tri(self.block_count()),
    {
        let r = self.blocks.size();
        let mut length: usize = 0;
        let mut b: usize = 0;
        proof {
            lemma_tri_step(0);
        }
        while b < r
            invariant
                b <= r,
                r == self.blocks@.len(),
                self.wf(),
                length == tri(b as int),
            decreases r - b,
        {
            proof {
                lemma_tri_step(b as int);
                lemma_tri_monotone(b + 1, r as int);
            }
            let block = self.blocks.get(b).unwrap();
            length = length + block.len();
            b += 1;
        }
        length
    }

    /// The element at index `i`, if there is one.
    pub fn get(&self, i: usize) -> (r: Option<&T>)
        requires
            self.wf(),
        ensures
            referent(r) == self.spec_get(i as int),
    {
        if i >= self.n {
            return None;
        }
        let (b, j) = locate(i);
        proof {
            lemma_block_in_range(i as int, self.block_count());
            assert(flat(self.blocks@, i as int) is Some);
            assert(self@[i as int] == flat(self.blocks@, i as int).unwrap());
        }
        let block = self.blocks.get(b).unwrap();
        assert(block@[j as int] == flat(self.blocks@, i as int));
        block[j].as_ref()
    }

    /// Empties slot `i`, counting through the blocks, and returns what it
    /// held, leaving the element count as it is.
    pub(crate) fn take(&mut self, i: usize) -> (r: Option<T>)
        requires
            old(self).framed(),
            i < tri(old(self).block_count()),
        ensures
            final(self).framed(),
            final(self).block_count() == old(self).block_count(),
            final(self).spec_blocks().spec_length() == old(self).spec_blocks().spec_length(),
            final(self).spec_size() == old(self).spec_size(),
            r == flat(old(self).spec_blocks()@, i as int),
            forall|p: int|
                0 <= p < tri(old(self).block_count()) ==> #[trigger] flat(
                    final(self).spec_blocks()@,
                    p,
                ) == if p == i {
                    None
                } else {
                    flat(old(self).spec_blocks()@, p)
                },
    {
        let (b, j) = locate(i);
        proof {
            lemma_block_in_range(i as int, self.block_count());
        }
        let mut block = self.blocks.set(b, Vec::new()).unwrap();
        let r = block[j].take();
        let spare = self.blocks.set(b, block);
        proof {
            assert forall|p: int| 0 <= p < tri(old(self).block_count()) implies #[trigger] flat(
                self.blocks@,
                p,
            ) == if p == i {
                None
            } else {
                flat(old(self).blocks@, p)
            } by {
                lemma_block_in_range(p, old(self).block_count());
            }
        }
        r
    }

    /// Stores `v` in slot `i`, counting through the blocks, leaving the
    /// element count as it is.
    fn put(&mut self, i: usize, v: Option<T>)
        requires
            old(self).framed(),
            i < tri(old(self).block_count()),
        ensures
            final(self).framed(),
            final(self).block_count() == old(self).block_count(),
            final(self).spec_blocks().spec_length() == old(self).spec_blocks().spec_length(),
            final(self).spec_size() == old(self).spec_size(),
            forall|p: int|
                0 <= p < tri(old(self).block_count()) ==> #[trigger] flat(
                    final(self).spec_blocks()@,
                    p,
                ) == if p == i {
                    v
                } else {
                    flat(old(self).spec_blocks()@, p)
                },
    {
        let (b, j) = locate(i);
        proof {
            lemma_block_in_range(i as int, self.block_count());
        }
        let mut block = self.blocks.set(b, Vec::new()).unwrap();
        block[j] = v;
        let spare = self.blocks.set(b, block);
        proof {
            assert forall|p: int| 0 <= p < tri(old(self).block_count()) implies #[trigger] flat(
                self.blocks@,
                p,
            ) == if p == i {
                v
            } else {
                flat(old(self).blocks@, p)
            } by {
                lemma_block_in_range(p, old(self).block_count());
            }
        }
    }

    /// Replaces the element at index `i` by `x` and returns the element
    /// that was there. Past the end nothing is stored and nothing returned.
    pub fn set(&mut self, i: usize, x: T) -> (r: Option<T>)
        requires
            old(self).wf(),
        ensures
            final(self).wf(),
            final(self).block_count() == old(self).block_count(),
            final(self).spec_blocks().spec_length() == old(self).spec_blocks().spec_length(),
            i < old(self)@.len() ==> r == Some(old(self)@[i as int])
                && final(self)@ == old(self)@.update(i as int, x),
            i >= old(self)@.len() ==> r is None && *final(self) == *old(self),
    {
        if i >= self.n {
            return None;
        }
        let r = self.take(i);
        self.put(i, Some(x));
        assert(self@ =~= old(self)@.update(i as int, x));
        r
    }
    /// Appends one empty block, with one slot more than the last.
    fn grow(&mut self)
        requires
            old(self).wf(),
            tri(old(self).block_count() + 1) <= usize::MAX,
        ensures
            final(self).wf(),
            final(self)@ == old(self)@,
            final(self).spec_size() == old(self).spec_size(),
            final(self).block_count() == old(self).block_count() + 1,
            final(self).spec_blocks().spec_length() == grown_capacity(
                old(self).block_count(),
                old(self).spec_blocks().spec_length() as int,
            ),
    {
        let r = self.blocks.size();
        proof {
            lemma_tri_step(r as int);
            lemma_tri_monotone(r as int, r as int);
        }
        let block: Vec<Option<T>> = allocate(r + 1);
        proof {
            lemma_block_appended(self.blocks@, self.n as int, block);
        }
        self.blocks.add(r, block);
        assert(self.blocks@ =~= old(self).blocks@.push(block));
    }

    /// Tells whether `r - 2` blocks have room for all elements.
    fn room_without_two(&self, r: usize) -> (yes: bool)
        requires
            self.wf(),
            0 < r <= self.block_count(),
        ensures
            yes == (tri(r - 2) >= self.spec_size()),
    {
        proof {
            lemma_tri_step(-1);
            lemma_tri_step(0);
            if r >= 2 {
                lemma_tri_monotone(r - 2, self.block_count());
            }
        }
        if r >= 2 {
            triangle(r - 2) >= self.n
        } else {
            self.n == 0
        }
    }

    /// Drops blocks from the end for as long as the blocks without the
    /// last two still have room for all elements.
    fn shrink(&mut self)
        requires
            old(self).wf(),
        ensures
            final(self).wf(),
            final(self)@ == old(self)@,
            final(self).spec_size() == old(self).spec_size(),
            final(self).block_count() == kept_blocks(
                old(self).block_count(),
                old(self)@.len() as int,
            ),
            final(self).spec_blocks().spec_length() == popped_length(
                old(self).spec_blocks().spec_length() as int,
                old(self).block_count(),
                (old(self).block_count() - final(self).block_count()) as nat,
            ),
    {
        let ghost r0 = self.block_count();
        let ghost len0 = self.blocks.spec_length() as int;
        let n = self.n;
        let mut r = self.blocks.size();
        while r > 0 && self.room_without_two(r)
            invariant
                self.wf(),
                self.n == n,
                n == old(self).n,
                self@ == old(self)@,
                r == self.block_count(),
                0 <= r <= r0,
                r0 == old(self).block_count(),
                len0 == old(self).spec_blocks().spec_length(),
                r == r0 || tri(r - 1) >= n,
                self.blocks.spec_length() == popped_length(len0, r0, (r0 - r) as nat),
            decreases r,
        {
            proof {
                lemma_tri_step(r as int - 2);
                lemma_tri_step(r as int - 1);
                lemma_tri_step(-1);
                if r >= 2 {
                    lemma_tri_monotone(r as int - 2, r as int - 1);
                }
                lemma_last_block_dropped(self.blocks@, n as int);
            }
            let ghost before = self.blocks@;
            let last = self.blocks.remove(r - 1);
            assert(self.blocks@ =~= before.drop_last());
            r -= 1;
        }
        proof {
            lemma_tri_step(0);
            lemma_kept_blocks(r0, n as int, r as int);
        }
    }

    /// Inserts `x` at index `i`, moving the elements from `i` on one slot
    /// up, where a slot is left to move into.
    fn insert(&mut self, i: usize, x: T)
        requires
            old(self).wf(),
            i <= old(self)@.len() < tri(old(self).block_count()),
        ensures
            final(self).wf(),
            final(self)@ == old(self)@.insert(i as int, x),
            final(self).block_count() == old(self).block_count(),
            final(self).spec_blocks().spec_length() == old(self).spec_blocks().spec_length(),
    {
        let n = self.n;
        let ghost items = self@;
        proof {
            lemma_full_is_gapped(self.blocks@, n as int);
        }
        let mut k: usize = n;
        while k > i
            invariant
                i <= k <= n,
                n == self.n,
                items.len() == n,
                n < tri(self.block_count()),
                self.framed(),
                self.block_count() == old(self).block_count(),
                self.spec_blocks().spec_length() == old(self).spec_blocks().spec_length(),
                flat_gapped(self.blocks@, items, k as int),
            decreases k,
        {
            let ghost before = self.blocks@;
            let t = self.take(k - 1);
            let ghost mid = self.blocks@;
            self.put(k, t);
            proof {
                lemma_gap_moved(before, mid, self.blocks@, items, k as int, k - 1);
            }
            k -= 1;
        }
        let ghost before = self.blocks@;
        self.put(i, Some(x));
        self.n = n + 1;
        proof {
            lemma_gap_filled_flat(before, self.blocks@, items, i as int, x);
            lemma_gapped_is_full(self.blocks@, items.insert(i as int, x));
        }
    }

    /// Removes the element at index `i` and returns it, moving the
    /// elements after it one slot down.
    fn extract(&mut self, i: usize) -> (r: Option<T>)
        requires
            old(self).wf(),
            i < old(self)@.len(),
        ensures
            final(self).wf(),
            r == Some(old(self)@[i as int]),
            final(self)@ == old(self)@.remove(i as int),
            final(self).block_count() == old(self).block_count(),
            final(self).spec_blocks().spec_length() == old(self).spec_blocks().spec_length(),
    {
        let n = self.n;
        let ghost items = self@.remove(i as int);
        let ghost before = self.blocks@;
        proof {
            lemma_full_is_gapped(self.blocks@, n as int);
        }
        let r = self.take(i);
        proof {
            lemma_gap_opened_flat(before, self.blocks@, old(self)@, i as int);
        }
        let mut k: usize = i;
        while k + 1 < n
            invariant
                i <= k < n,
                n == self.n,
                n == old(self).n,
                items.len() == n - 1,
                n <= tri(self.block_count()),
                self.framed(),
                self.block_count() == old(self).block_count(),
                self.spec_blocks().spec_length() == old(self).spec_blocks().spec_length(),
                flat_gapped(self.blocks@, items, k as int),
            decreases n - k,
        {
            let ghost before = self.blocks@;
            let t = self.take(k + 1);
            let ghost mid = self.blocks@;
            self.put(k, t);
            proof {
                lemma_gap_moved(before, mid, self.blocks@, items, k as int, k + 1);
            }
            k += 1;
        }
        self.n = n - 1;
        proof {
            lemma_gapped_is_full(self.blocks@, items);
        }
        r
    }

    /// Inserts `x` at index `i`, moving the elements from `i` on one slot
    /// up, after appending a block if every slot is taken.
    pub fn add(&mut self, i: usize, x: T)
        requires
            old(self).wf(),
            i <= old(self)@.len(),
            old(self)@.len() + old(self).block_count() + 1 <= usize::MAX,
        ensures
            final(self)@ == Step::Add(i as int, x).after(old(self)@),
            final(self).wf(),
            final(self)@ == old(self)@.insert(i as int, x),
            final(self)@.len() == old(self)@.len() + 1,
            final(self).block_count() == blocks_after_add(
                old(self).block_count(),
                old(self)@.len() as int,
            ),
            final(self).spec_blocks().spec_length() == if final(self).block_count() == old(
                self,
            ).block_count() {
                old(self).spec_blocks().spec_length() as int
            } else {
                grown_capacity(
                    old(self).block_count(),
                    old(self).spec_blocks().spec_length() as int,
                )
            },
            old(self).block_count() == blocks_for(old(self)@.len() as int)
                ==> final(self).block_count() == blocks_for(old(self)@.len() as int + 1),
    {
        let r = self.blocks.size();
        let n = self.n;
        proof {
            lemma_tri_step(r as int);
            lemma_blocks_for(n as int, r as int);
            lemma_blocks_for(n + 1, r as int);
            lemma_blocks_for(n + 1, r + 1);
            lemma_blocks_for(n as int, blocks_for(n + 1));
        }
        if triangle(r) < n + 1 {
            self.grow();
        }
        self.insert(i, x);
    }

    /// Removes the element at index `i` and returns it, moving the
    /// elements after it one slot down and dropping blocks that are no
    /// longer needed; past the end nothing happens.
    pub fn remove(&mut self, i: usize) -> (r: Option<T>)
        requires
            old(self).wf(),
        ensures
            final(self)@ == Step::Remove(i as int).after(old(self)@),
            r is Some <==> Step::<T>::Remove(i as int).yields(old(self)@.len() as int),
            final(self).wf(),
            i >= old(self)@.len() ==> r is None && *final(self) == *old(self),
            i < old(self)@.len() ==> r == Some(old(self)@[i as int])
                && final(self)@ == old(self)@.remove(i as int)
                && final(self)@.len() == old(self)@.len() - 1,
            i < old(self)@.len() ==> final(self).block_count() == kept_blocks(
                old(self).block_count(),
                old(self)@.len() - 1,
            ),
            i < old(self)@.len() ==> final(self).spec_blocks().spec_length() == popped_length(
                old(self).spec_blocks().spec_length() as int,
                old(self).block_count(),
                (old(self).block_count() - final(self).block_count()) as nat,
            ),
    {
        if i >= self.n {
            return None;
        }
        let r = self.extract(i);
        self.shrink();
        r
    }

    /// Builds a list from a stack of blocks and an element count, provided
    /// that the blocks are stepped and that, counting through them,
    /// exactly the first `n` slots are populated.
    pub fn from_raw(blocks: ArrayStack<Vec<Option<T>>>, n: usize) -> (r: Option<Self>)
        requires
            blocks.wf(),
        ensures
            r is Some <==> rootish_wf(blocks@, n as int),
            r matches Some(s) ==> s.wf() && s.spec_blocks() == blocks && s.spec_size() == n,
    {
        let count = blocks.size();
        let mut total: usize = 0;
        let mut b: usize = 0;
        proof {
            lemma_tri_step(0);
        }
        while b < count
            invariant
                b <= count,
                count == blocks@.len(),
                blocks.wf(),
                total == tri(b as int),
                forall|c: int| 0 <= c < b ==> (#[trigger] blocks@[c])@.len() == c + 1,
                forall|p: int|
                    0 <= p < total ==> ((#[trigger] flat(blocks@, p)) is Some <==> p < n),
            decreases count - b,
        {
            let block = blocks.get(b).unwrap();
            proof {
                lemma_tri_step(b as int);
                lemma_tri_monotone(b + 1, count as int);
            }
            if block.len() != b + 1 || total > usize::MAX - (b + 1) {
                return None;
            }
            let mut j: usize = 0;
            while j <= b
                invariant
                    j <= b + 1,
                    b < count,
                    count == blocks@.len(),
                    blocks.wf(),
                    *block == blocks@[b as int],
                    block@.len() == b + 1,
                    total == tri(b as int),
                    total + b + 1 <= usize::MAX,
                    total + b + 1 == tri(b + 1),
                    tri(b + 1) <= tri(count as int),
                    forall|m: int|
                        0 <= m < j ==> ((#[trigger] block@[m]) is Some <==> total + m < n),
                decreases b + 1 - j,
            {
                if block[j].is_some() != (total + j < n) {
                    proof {
                        lemma_block_of(total + j, b as int);
                        assert(flat(blocks@, total + j) == block@[j as int]);
                    }
                    return None;
                }
                j += 1;
            }
            proof {
                assert forall|p: int| 0 <= p < total + b + 1 implies ((#[trigger] flat(
                    blocks@,
                    p,
                )) is Some <==> p < n) by {
                    if p >= total {
                        lemma_block_of(p, b as int);
                        assert(flat(blocks@, p) == block@[p - total]);
                    }
                }
            }
            total = total + (b + 1);
            b += 1;
        }
        if n > total {
            return None;
        }
        Some(Self { blocks, n })
    }

    /// What `set` stores at an index of the list, `get` finds there.
    pub proof fn lemma_set_then_get(before: &Self, after: &Self, i: usize, x: T)
        requires
            before.wf(),
            after.wf(),
            i < before@.len(),
            after@ == before@.update(i as int, x),
        ensures
            after.spec_get(i as int) == Some(x),
    {
    }

    /// A list that got its elements by insertions alone, into a list
    /// without blocks, has the least number of blocks for them: its slots
    /// number the least triangular number that is not below its size.
    pub proof fn lemma_least_after_adds(&self)
        requires
            self.wf(),
            self.block_count() == blocks_after_adds(self@.len()),
        ensures
            self.block_count() == blocks_for(self@.len() as int),
            self.spec_length() == tri(blocks_for(self@.len() as int)),
            self@.len() <= self.spec_length(),
    {
        lemma_blocks_after_adds(self@.len());
    }

    /// A list that has the least number of blocks for its elements leaves
    /// fewer slots unused than it has blocks, and the square of their
    /// number is at most twice the number of elements.
    pub proof fn lemma_unused_slots_are_few(&self)
        requires
            self.wf(),
            self.block_count() == blocks_for(self@.len() as int),
        ensures
            self@.len() <= self.spec_length(),
            self@.len() > 0 ==> self.spec_length() - self@.len() < self.block_count(),
            (self.spec_length() - self@.len()) * (self.spec_length() - self@.len()) <= 2
                * self@.len(),
    {
        lemma_waste_is_small(self@.len() as int);
    }

    /// A list that came from an empty one by a sequence of insertions and
    /// removals has as many elements as there were insertions, less the
    /// removals that returned an element, and they fit in its slots.
    pub proof fn lemma_size_counts_calls(&self, steps: Seq<Step<T>>)
        requires
            self.wf(),
            all_allowed(Seq::<T>::empty(), steps),
            self@ == replay(Seq::<T>::empty(), steps),
        ensures
            self@.len() == count_added(steps) - count_removed(Seq::<T>::empty(), steps),
            self.spec_size() == self@.len(),
            self@.len() <= self.spec_length(),
    {
        lemma_size_counts_calls(Seq::<T>::empty(), steps);
    }
}

/// Dropping blocks stops at `kept_blocks`: a count `r` reached from `r0`
/// at which no further block is dropped, each block dropped before having
/// been one too many.
pub proof fn lemma_kept_blocks(r0: int, n: int, r: int)
    requires
        0 <= n <= tri(r),
        0 <= r <= r0,
        r == r0 || tri(r - 1) >= n,
        !(r > 0 && tri(r - 2) >= n),
    ensures
        r == kept_blocks(r0, n),
{
    lemma_tri_step(0);
    lemma_tri_step(-1);
    if n > 0 {
        let m = blocks_for(n);
        lemma_blocks_for(n, r);
        if r >= 2 {
            lemma_blocks_for(n, r - 2);
        }
        if r >= 1 {
            lemma_blocks_for(n, r - 1);
        }
    } else {
        if r > 0 {
            if r >= 2 {
                lemma_tri_monotone(0, r - 2);
            }
        }
    }
}

} // verus!
