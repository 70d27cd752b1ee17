use vstd::prelude::*;

verus! {

/// The `r`-th triangular number: the number of slots in blocks of 1, 2,
/// ..., `r` slots.
#[verifier::opaque]
pub open spec fn tri(r: int) -> int {
    r * (r + 1) / 2
}

/// The block that holds index `i` when blocks of 1, 2, 3, ... slots are
/// numbered from 0 and laid end to end: the `b` with
/// `tri(b) <= i < tri(b + 1)`.
pub open spec fn block_of(i: int) -> int {
    choose|b: int| 0 <= b && #[trigger] tri(b) <= i < tri(b + 1)
}

/// The least number of blocks that together have at least `n` slots.
pub open spec fn blocks_for(n: int) -> int {
    if n <= 0 {
        0
    } else {
        block_of(n - 1) + 1
    }
}

/// The number of blocks after an element is added to `n` elements in `r`
/// blocks: one block more where every slot is taken.
pub open spec fn blocks_after_add(r: int, n: int) -> int {
    if tri(r) < n + 1 {
        r + 1
    } else {
        r
    }
}

/// The number of blocks after `k` elements were added, one at a time, to
/// a list without blocks.
pub open spec fn blocks_after_adds(k: nat) -> int
    decreases k,
{
    if k == 0 {
        0
    } else {
        blocks_after_add(blocks_after_adds((k - 1) as nat), k - 1)
    }
}

/// Each triangular number exceeds the one before by its own index.
pub proof fn lemma_tri_step(r: int)
    ensures
        tri(r + 1) == tri(r) + r + 1,
        tri(0) == 0,
        tri(-1) == 0,
{
    reveal(tri);
    assert((r + 1) * (r + 2) == r * (r + 1) + 2 * (r + 1)) by (nonlinear_arith);
}

/// From 0 on the triangular numbers grow, and none is below its index.
pub proof fn lemma_tri_monotone(a: int, b: int)
    requires
        0 <= a <= b,
    ensures
        0 <= a <= tri(a) <= tri(b),
        a < b ==> tri(a) + a + 1 <= tri(b),
    decreases b,
{
    lemma_tri_step(a);
    if a == 0 && b == 0 {
    } else if a < b {
        lemma_tri_monotone(a, b - 1);
        lemma_tri_step(b - 1);
    } else {
        lemma_tri_monotone(a - 1, b - 1);
        lemma_tri_step(a - 1);
    }
}

/// Every index from 0 on lies in some block.
pub proof fn lemma_block_exists(i: int) -> (b: int)
    requires
        0 <= i,
    ensures
        0 <= b <= i,
        tri(b) <= i < tri(b + 1),
    decreases i,
{
    lemma_tri_step(0);
    if i == 0 {
        lemma_tri_step(1);
        0
    } else {
        let p = lemma_block_exists(i - 1);
        lemma_tri_step(p);
        lemma_tri_step(p + 1);
        if i < tri(p + 1) {
            p
        } else {
            lemma_tri_monotone(p + 1, p + 1);
            p + 1
        }
    }
}

/// An index lies in one block only: `block_of(i)` is `b` exactly when
/// `tri(b) <= i < tri(b + 1)`.
pub proof fn lemma_block_of(i: int, b: int)
    requires
        0 <= b,
        tri(b) <= i < tri(b + 1),
    ensures
        block_of(i) == b,
{
    let c = block_of(i);
    assert(0 <= c && tri(c) <= i < tri(c + 1));
    if c < b {
        lemma_tri_monotone(c + 1, b);
    } else if b < c {
        lemma_tri_monotone(b + 1, c);
    }
}

/// `block_of(i)` is a block from 0 on that holds `i`.
pub proof fn lemma_block_of_holds(i: int)
    requires
        0 <= i,
    ensures
        0 <= block_of(i) <= i,
        tri(block_of(i)) <= i < tri(block_of(i) + 1),
{
    let b = lemma_block_exists(i);
    lemma_block_of(i, b);
}

/// `blocks_for(n)` blocks have at least `n` slots, and fewer blocks have
/// fewer than `n`.
pub proof fn lemma_blocks_for(n: int, r: int)
    requires
        0 <= n,
        0 <= r,
    ensures
        0 <= blocks_for(n) <= n,
        tri(blocks_for(n)) >= n,
        tri(r) >= n <==> r >= blocks_for(n),
{
    lemma_tri_step(0);
    if n > 0 {
        lemma_block_of_holds(n - 1);
        let m = blocks_for(n);
        if r >= m {
            lemma_tri_monotone(m, r);
        } else {
            lemma_tri_monotone(r, m - 1);
        }
    } else {
        lemma_tri_monotone(0, r);
    }
}

/// Adding an element to a list that has the least number of blocks for
/// its elements leaves it with the least number of blocks again.
pub proof fn lemma_least_blocks_kept(n: int)
    requires
        0 <= n,
    ensures
        blocks_after_add(blocks_for(n), n) == blocks_for(n + 1),
        tri(blocks_for(n + 1)) >= n + 1,
{
    let r = blocks_for(n);
    lemma_blocks_for(n, 0);
    lemma_blocks_for(n + 1, 0);
    lemma_blocks_for(n, r);
    lemma_tri_step(r);
    lemma_blocks_for(n + 1, r);
    lemma_blocks_for(n + 1, r + 1);
    lemma_blocks_for(n, blocks_for(n + 1));
}

/// After `k` elements were added to a list without blocks it has the
/// least number of blocks that have `k` slots.
pub proof fn lemma_blocks_after_adds(k: nat)
    ensures
        blocks_after_adds(k) == blocks_for(k as int),
        tri(blocks_after_adds(k)) >= k,
    decreases k,
{
    lemma_blocks_for(k as int, 0);
    if k > 0 {
        lemma_blocks_after_adds((k - 1) as nat);
        lemma_least_blocks_kept(k - 1);
    }
}

/// With the least number of blocks for `n` elements, the unused slots are
/// fewer than the blocks, and their square is at most `2 * n`.
pub proof fn lemma_waste_is_small(n: int)
    requires
        0 <= n,
    ensures
        0 <= tri(blocks_for(n)) - n,
        n > 0 ==> tri(blocks_for(n)) - n < blocks_for(n),
        (tri(blocks_for(n)) - n) * (tri(blocks_for(n)) - n) <= 2 * n,
{
    lemma_tri_step(0);
    if n > 0 {
        reveal(tri);
        let b = block_of(n - 1);
        lemma_block_of_holds(n - 1);
        lemma_tri_step(b);
        let w = tri(b + 1) - n;
        let p = b * (b + 1);
        assert(0 <= w <= b);
        assert(p / 2 <= n - 1);
        assert(p <= 2 * n - 1);
        assert(w * w <= p) by (nonlinear_arith)
            requires
                0 <= w <= b,
                p == b * (b + 1),
        ;
        assert(w == tri(blocks_for(n)) - n);
    } else {
        assert(tri(blocks_for(n)) - n == 0);
    }
}

/// The block that holds index `i`, found by bisection on the block number.
pub fn i2b(i: usize) -> (b: usize)
    ensures
        b == block_of(i as int),
        tri(b as int) <= i < tri(b as int + 1),
{
    let target: u128 = i as u128;
    let mut lo: u128 = 0;
    let mut hi: u128 = 0x2_0000_0000;
    proof {
        reveal(tri);
        assert(0x2_0000_0000int * (0x2_0000_0000int + 1) / 2 > 0xffff_ffff_ffff_ffff)
            by (nonlinear_arith);
    }
    while hi - lo > 1
        invariant
            0 <= lo < hi <= 0x2_0000_0000,
            tri(lo as int) <= target < tri(hi as int),
        decreases hi - lo,
    {
        let mid: u128 = lo + (hi - lo) / 2;
        proof {
            reveal(tri);
        }
        assert(mid * (mid + 1) <= 0x2_0000_0000 * 0x2_0000_0001) by (nonlinear_arith)
            requires
                0 <= mid <= 0x2_0000_0000,
        ;
        let t: u128 = mid * (mid + 1) / 2;
        if t <= target {
            lo = mid;
        } else {
            hi = mid;
        }
    }
    proof {
        lemma_tri_monotone(lo as int, lo as int);
        lemma_block_of(i as int, lo as int);
    }
    lo as usize
}

/// The block that holds index `i`, and the place of `i` within that block.
pub fn locate(i: usize) -> (at: (usize, usize))
    ensures
        at.0 == block_of(i as int),
        at.1 == i - tri(block_of(i as int)),
        at.1 <= at.0,
{
    let b = i2b(i);
    proof {
        lemma_tri_step(b as int);
    }
    let start = triangle(b);
    (b, i - start)
}

/// The `r`-th triangular number, where a `usize` holds it.
pub fn triangle(r: usize) -> (t: usize)
    requires
        tri(r as int) <= usize::MAX,
    ensures
        t == tri(r as int),
{
    let wide: u128 = r as u128;
    proof {
        reveal(tri);
    }
    assert(wide * (wide + 1) <= 0xffff_ffff_ffff_ffff * 0x1_0000_0000_0000_0000)
        by (nonlinear_arith)
        requires
            0 <= wide <= 0xffff_ffff_ffff_ffff,
    ;
    (wide * (wide + 1) / 2) as usize
}

} // verus!
