//! Buddy-system memory allocator.
//!
//! Memory is divided into power-of-two blocks between `2^MIN_ORDER` and
//! `2^MAX_ORDER` bytes. Allocation takes the first free block of sufficient
//! order and splits it down, pushing each upper half (the "buddy") one order
//! below; deallocation recomputes the block's order from the layout, then
//! merges with its buddy as long as the buddy is free. A block's buddy is
//! found by flipping one address bit, which is sound because every block is
//! aligned to its own size. The per-order free lists hold block addresses in
//! an owned vector (the side-table form of lists linked through the free
//! memory itself); the head of each list is its last element.

use vstd::prelude::*;

verus! {

/// The minimum allocation size is `2^MIN_ORDER` bytes.
pub const MIN_ORDER: usize = 5;

/// The maximum allocation size is `2^MAX_ORDER` bytes.
pub const MAX_ORDER: usize = 15;

/// The number of possible block sizes.
pub const NUM_ORDERS: usize = MAX_ORDER - MIN_ORDER + 1;

/// The minimum block size in bytes.
pub const MIN_BLOCK_SIZE: usize = 32;

/// Size in bytes of a block of the given order: `2^(order + MIN_ORDER)`.
pub open spec fn block_size(o: int) -> int
    decreases o,
{
    if o <= 0 {
        32
    } else {
        2 * block_size(o - 1)
    }
}

/// Block sizes are positive, grow with the order, and stay within `usize`
/// for the orders in use.
#[verifier::rlimit(100)]
pub proof fn lemma_block_size_bounds(o: int)
    requires
        o <= NUM_ORDERS,
    ensures
        32 <= block_size(o),
        block_size(o) <= 0x10000,
{
    if o <= 0 {
    } else {
        lemma_block_size_shift(o - 1);
        lemma_block_size_shift(o);
        let k = (o + MIN_ORDER) as usize;
        assert(5 <= k <= 16 ==> 32 <= (1usize << k) && (1usize << k) <= 0x10000) by (bit_vector);
    }
}

/// The executable shift computes the model block size.
pub proof fn lemma_block_size_shift(o: int)
    requires
        0 <= o <= NUM_ORDERS,
    ensures
        block_size(o) == (1usize << ((o + MIN_ORDER) as usize)),
    decreases o,
{
    if o == 0 {
        assert(1usize << 5usize == 32) by (bit_vector);
    } else {
        lemma_block_size_shift(o - 1);
        let k = (o - 1 + MIN_ORDER) as usize;
        let j = (o + MIN_ORDER) as usize;
        assert(j == k + 1 && k < 20 ==> (1usize << j) == 2 * (1usize << k)) by (bit_vector);
    }
}

/// The buddy of an order-`o` block: the other half of the order-`o + 1`
/// block it came from. For a block aligned to its own size the two differ
/// in exactly one address bit.
pub open spec fn buddy_of(addr: int, o: int) -> int {
    if addr % (2 * block_size(o)) == 0 {
        addr + block_size(o)
    } else {
        addr - block_size(o)
    }
}

/// An address aligned to a higher order is aligned to every lower order.
#[verifier::rlimit(100)]
pub proof fn lemma_align_descend(a: usize, lo: int, hi: int)
    requires
        0 <= lo <= hi <= NUM_ORDERS,
        (a as int) % block_size(hi) == 0,
    ensures
        (a as int) % block_size(lo) == 0,
{
    lemma_block_size_shift(lo);
    lemma_block_size_shift(hi);
    let kl = (lo + MIN_ORDER) as usize;
    let kh = (hi + MIN_ORDER) as usize;
    let sl = block_size(lo) as usize;
    let sh = block_size(hi) as usize;
    assert((kl <= kh <= 16 && sl == 1usize << kl && sh == 1usize << kh && a % sh == 0) ==> a % sl
        == 0) by (bit_vector);
}

/// Everything the split/merge arithmetic needs about a block and its buddy:
/// the executable XOR computes it, the relation is a symmetric involution,
/// the pair is contiguous, and the lower half is aligned one order up.
#[verifier::rlimit(100)]
pub proof fn lemma_buddy_arith(addr: usize, o: int)
    requires
        0 <= o < NUM_ORDERS,
        (addr as int) % block_size(o) == 0,
        addr + block_size(o) <= usize::MAX,
    ensures
        (addr ^ (block_size(o) as usize)) as int == buddy_of(addr as int, o),
        buddy_of(addr as int, o) % block_size(o) == 0,
        buddy_of(buddy_of(addr as int, o), o) == addr as int,
        buddy_of(addr as int, o) != addr as int,
        buddy_of(addr as int, o) == addr + block_size(o) || buddy_of(addr as int, o) == addr
            - block_size(o),
        (if buddy_of(addr as int, o) < addr as int {
            buddy_of(addr as int, o)
        } else {
            addr as int
        }) % block_size(o + 1) == 0,
        (if buddy_of(addr as int, o) < addr as int {
            buddy_of(addr as int, o)
        } else {
            addr as int
        }) + block_size(o + 1) == (if buddy_of(addr as int, o) < addr as int {
            addr as int
        } else {
            buddy_of(addr as int, o)
        }) + block_size(o),
{
    lemma_block_size_shift(o);
    lemma_block_size_shift(o + 1);
    lemma_block_size_bounds(o);
    let k = (o + MIN_ORDER) as usize;
    let s = block_size(o) as usize;
    let s2 = block_size(o + 1) as usize;
    assert(5 <= k <= 15 && s == 1usize << k ==> (s == 32 || s == 64 || s == 128 || s == 256 || s
        == 512 || s == 1024 || s == 2048 || s == 4096 || s == 8192 || s == 16384 || s == 32768))
        by (bit_vector);
    assert(
        (s == 32 ==> ((addr % 64 == 0 ==> (addr ^ 32) == addr + 32 && ((addr + 32) as usize) % 32 == 0 && ((addr + 32) as usize) % 64 != 0) && (addr % 64 != 0 && addr % 32 == 0 ==> (addr ^ 32) == addr - 32 && addr >= 32 && ((addr - 32) as usize) % 32 == 0 && ((addr - 32) as usize) % 64 == 0))) &&
        (s == 64 ==> ((addr % 128 == 0 ==> (addr ^ 64) == addr + 64 && ((addr + 64) as usize) % 64 == 0 && ((addr + 64) as usize) % 128 != 0) && (addr % 128 != 0 && addr % 64 == 0 ==> (addr ^ 64) == addr - 64 && addr >= 64 && ((addr - 64) as usize) % 64 == 0 && ((addr - 64) as usize) % 128 == 0))) &&
        (s == 128 ==> ((addr % 256 == 0 ==> (addr ^ 128) == addr + 128 && ((addr + 128) as usize) % 128 == 0 && ((addr + 128) as usize) % 256 != 0) && (addr % 256 != 0 && addr % 128 == 0 ==> (addr ^ 128) == addr - 128 && addr >= 128 && ((addr - 128) as usize) % 128 == 0 && ((addr - 128) as usize) % 256 == 0))) &&
        (s == 256 ==> ((addr % 512 == 0 ==> (addr ^ 256) == addr + 256 && ((addr + 256) as usize) % 256 == 0 && ((addr + 256) as usize) % 512 != 0) && (addr % 512 != 0 && addr % 256 == 0 ==> (addr ^ 256) == addr - 256 && addr >= 256 && ((addr - 256) as usize) % 256 == 0 && ((addr - 256) as usize) % 512 == 0))) &&
        (s == 512 ==> ((addr % 1024 == 0 ==> (addr ^ 512) == addr + 512 && ((addr + 512) as usize) % 512 == 0 && ((addr + 512) as usize) % 1024 != 0) && (addr % 1024 != 0 && addr % 512 == 0 ==> (addr ^ 512) == addr - 512 && addr >= 512 && ((addr - 512) as usize) % 512 == 0 && ((addr - 512) as usize) % 1024 == 0))) &&
        (s == 1024 ==> ((addr % 2048 == 0 ==> (addr ^ 1024) == addr + 1024 && ((addr + 1024) as usize) % 1024 == 0 && ((addr + 1024) as usize) % 2048 != 0) && (addr % 2048 != 0 && addr % 1024 == 0 ==> (addr ^ 1024) == addr - 1024 && addr >= 1024 && ((addr - 1024) as usize) % 1024 == 0 && ((addr - 1024) as usize) % 2048 == 0))) &&
        (s == 2048 ==> ((addr % 4096 == 0 ==> (addr ^ 2048) == addr + 2048 && ((addr + 2048) as usize) % 2048 == 0 && ((addr + 2048) as usize) % 4096 != 0) && (addr % 4096 != 0 && addr % 2048 == 0 ==> (addr ^ 2048) == addr - 2048 && addr >= 2048 && ((addr - 2048) as usize) % 2048 == 0 && ((addr - 2048) as usize) % 4096 == 0))) &&
        (s == 4096 ==> ((addr % 8192 == 0 ==> (addr ^ 4096) == addr + 4096 && ((addr + 4096) as usize) % 4096 == 0 && ((addr + 4096) as usize) % 8192 != 0) && (addr % 8192 != 0 && addr % 4096 == 0 ==> (addr ^ 4096) == addr - 4096 && addr >= 4096 && ((addr - 4096) as usize) % 4096 == 0 && ((addr - 4096) as usize) % 8192 == 0))) &&
        (s == 8192 ==> ((addr % 16384 == 0 ==> (addr ^ 8192) == addr + 8192 && ((addr + 8192) as usize) % 8192 == 0 && ((addr + 8192) as usize) % 16384 != 0) && (addr % 16384 != 0 && addr % 8192 == 0 ==> (addr ^ 8192) == addr - 8192 && addr >= 8192 && ((addr - 8192) as usize) % 8192 == 0 && ((addr - 8192) as usize) % 16384 == 0))) &&
        (s == 16384 ==> ((addr % 32768 == 0 ==> (addr ^ 16384) == addr + 16384 && ((addr + 16384) as usize) % 16384 == 0 && ((addr + 16384) as usize) % 32768 != 0) && (addr % 32768 != 0 && addr % 16384 == 0 ==> (addr ^ 16384) == addr - 16384 && addr >= 16384 && ((addr - 16384) as usize) % 16384 == 0 && ((addr - 16384) as usize) % 32768 == 0))) &&
        (s == 32768 ==> ((addr % 65536 == 0 ==> (addr ^ 32768) == addr + 32768 && ((addr + 32768) as usize) % 32768 == 0 && ((addr + 32768) as usize) % 65536 != 0) && (addr % 65536 != 0 && addr % 32768 == 0 ==> (addr ^ 32768) == addr - 32768 && addr >= 32768 && ((addr - 32768) as usize) % 32768 == 0 && ((addr - 32768) as usize) % 65536 == 0)))
    ) by (bit_vector);
    assert(s2 == 2 * s);
    assert((addr as int) % (2 * block_size(o)) == (addr % s2) as int);
    if (addr as int) % (2 * block_size(o)) == 0 {
        let b = (addr + s) as usize;
        assert((b as int) % (2 * block_size(o)) == (b % s2) as int);
    } else {
        let b = (addr - s) as usize;
        assert((b as int) % (2 * block_size(o)) == (b % s2) as int);
    }
}

/// First position of `a` in `l`, or -1.
pub open spec fn find_idx(l: Seq<usize>, a: usize) -> int
    decreases l.len(),
{
    if l.len() == 0 {
        -1
    } else if l[0] == a {
        0
    } else {
        let r = find_idx(l.drop_first(), a);
        if r < 0 {
            -1
        } else {
            r + 1
        }
    }
}

pub proof fn lemma_find_idx_props(l: Seq<usize>, a: usize)
    ensures
        find_idx(l, a) >= 0 <==> l.contains(a),
        find_idx(l, a) >= 0 ==> find_idx(l, a) < l.len() && l[find_idx(l, a)] == a,
    decreases l.len(),
{
    if l.len() > 0 && l[0] != a {
        lemma_find_idx_props(l.drop_first(), a);
        if l.drop_first().contains(a) {
            let j = choose|j: int| 0 <= j < l.drop_first().len() && l.drop_first()[j] == a;
            assert(l[j + 1] == a);
        }
        if l.contains(a) {
            let j = choose|j: int| 0 <= j < l.len() && l[j] == a;
            assert(j >= 1 && l.drop_first()[j - 1] == a);
        }
    }
}

/// If nothing before position `i` matches, the first match is at `i`.
pub proof fn lemma_find_idx_first_match(l: Seq<usize>, a: usize, i: int)
    requires
        0 <= i < l.len(),
        l[i] == a,
        forall|k: int| 0 <= k < i ==> l[k] != a,
    ensures
        find_idx(l, a) == i,
    decreases i,
{
    if i > 0 {
        assert(l.drop_first()[i - 1] == a);
        assert forall|k: int| 0 <= k < i - 1 implies l.drop_first()[k] != a by {
            assert(l[k + 1] != a);
        }
        lemma_find_idx_first_match(l.drop_first(), a, i - 1);
    }
}

/// The order `add_memory_region` carves at address `cs` with `rem` bytes
/// remaining, examined upward from `o`: the largest order whose block fits
/// the remaining span and the address's own alignment, capped at the top
/// order.
pub open spec fn carve_order_from(cs: int, rem: int, o: int) -> int
    decreases (if o < 0 || o >= NUM_ORDERS - 1 {
        0int
    } else {
        NUM_ORDERS - 1 - o
    }),
{
    if o < 0 || o >= NUM_ORDERS - 1 {
        NUM_ORDERS - 1
    } else if !(block_size(o + 1) <= rem && cs % block_size(o + 1) == 0) {
        o
    } else {
        carve_order_from(cs, rem, o + 1)
    }
}

/// The order carved at address `cs` with `rem` bytes remaining.
pub open spec fn carve_order(cs: int, rem: int) -> int {
    carve_order_from(cs, rem, 0)
}

pub proof fn lemma_carve_order_range(cs: int, rem: int, o: int)
    requires
        0 <= o <= NUM_ORDERS - 1,
    ensures
        o <= carve_order_from(cs, rem, o) <= NUM_ORDERS - 1,
    decreases NUM_ORDERS - o,
{
    if o < NUM_ORDERS - 1 && block_size(o + 1) <= rem && cs % block_size(o + 1) == 0 {
        lemma_carve_order_range(cs, rem, o + 1);
    }
}

/// The free lists after greedily carving the span `[cs, end)`: while at
/// least one minimum block remains, the block of the carve order joins its
/// list and the carve point advances past it; the final remainder, smaller
/// than one minimum block, is abandoned.
pub open spec fn carve(ls: Seq<Seq<usize>>, cs: int, end: int) -> Seq<Seq<usize>>
    decreases end - cs,
    via carve_dec
{
    if end - cs < 32 {
        ls
    } else {
        let o = carve_order(cs, end - cs);
        carve(push_at(ls, o, cs as usize), cs + block_size(o), end)
    }
}

#[via_fn]
proof fn carve_dec(ls: Seq<Seq<usize>>, cs: int, end: int) {
    if end - cs >= 32 {
        lemma_carve_order_range(cs, end - cs, 0);
        lemma_block_size_bounds(carve_order(cs, end - cs));
        lemma_carve_order_fits(cs, end - cs, 0);
    }
}

/// The carved block never exceeds the remaining span.
pub proof fn lemma_carve_order_fits(cs: int, rem: int, o: int)
    requires
        0 <= o <= NUM_ORDERS - 1,
        block_size(o) <= rem,
    ensures
        block_size(carve_order_from(cs, rem, o)) <= rem,
    decreases NUM_ORDERS - o,
{
    if o < NUM_ORDERS - 1 && block_size(o + 1) <= rem && cs % block_size(o + 1) == 0 {
        lemma_carve_order_fits(cs, rem, o + 1);
    }
}

/// One empty free list per order: the state of a fresh allocator.
pub open spec fn empty_free_lists() -> Seq<Seq<usize>> {
    Seq::new(NUM_ORDERS as nat, |o: int| Seq::<usize>::empty())
}

/// What carving a raw region puts on the free lists: nothing when the
/// region cannot hold one minimum block after aligning its start up, else
/// the greedy carve of the aligned span.
pub open spec fn carve_region(ls: Seq<Seq<usize>>, start: int, size: int) -> Seq<Seq<usize>> {
    let aligned = ((start + 31) / 32) * 32;
    if size < 32 || aligned >= start + size {
        ls
    } else {
        carve(ls, aligned, start + size)
    }
}

/// The free lists with one address appended at order `o`.
pub open spec fn push_at(ls: Seq<Seq<usize>>, o: int, a: usize) -> Seq<Seq<usize>> {
    ls.update(o, ls[o].push(a))
}

/// The free lists after splitting the block at `addr` from order `hi` down
/// to order `lo`: at each order below `hi` the upper half is set free.
pub open spec fn split_chain(ls: Seq<Seq<usize>>, addr: usize, hi: int, lo: int) -> Seq<Seq<usize>>
    decreases hi - lo,
{
    if hi <= lo {
        ls
    } else {
        split_chain(push_at(ls, hi - 1, (addr + block_size(hi - 1)) as usize), addr, hi - 1, lo)
    }
}

/// Smallest order at or above `o` with a free block, or `NUM_ORDERS`.
pub open spec fn first_free_order(ls: Seq<Seq<usize>>, o: int) -> int
    decreases (if o >= NUM_ORDERS { 0int } else { NUM_ORDERS - o }),
{
    if o < 0 || o >= NUM_ORDERS {
        NUM_ORDERS as int
    } else if ls[o].len() > 0 {
        o
    } else {
        first_free_order(ls, o + 1)
    }
}

pub proof fn lemma_first_free_order_props(ls: Seq<Seq<usize>>, o: int)
    requires
        0 <= o <= NUM_ORDERS,
    ensures
        o <= first_free_order(ls, o) <= NUM_ORDERS,
        first_free_order(ls, o) < NUM_ORDERS ==> ls[first_free_order(ls, o)].len() > 0,
        forall|k: int| o <= k < first_free_order(ls, o) ==> ls[k].len() == 0,
        (first_free_order(ls, o) < NUM_ORDERS) <==> (exists|k: int|
            o <= k < NUM_ORDERS && ls[k].len() > 0),
    decreases NUM_ORDERS - o,
{
    if o < NUM_ORDERS && ls[o].len() == 0 {
        lemma_first_free_order_props(ls, o + 1);
    }
}

/// The free lists, the block address and the order after merging the block
/// at `addr` upward with every free buddy: while the buddy of the current
/// block is free, it is removed and the two halves join, until the buddy is
/// absent or the top order is reached.
pub open spec fn merge_chain(ls: Seq<Seq<usize>>, addr: int, o: int) -> (Seq<Seq<usize>>, int, int)
    decreases (if o >= NUM_ORDERS - 1 { 0int } else { NUM_ORDERS - 1 - o }),
{
    if o < 0 || o >= NUM_ORDERS - 1 {
        (ls, addr, o)
    } else {
        let b = buddy_of(addr, o);
        let i = find_idx(ls[o], b as usize);
        if i < 0 || b < 0 {
            (ls, addr, o)
        } else {
            merge_chain(
                ls.update(o, ls[o].remove(i)),
                if b < addr {
                    b
                } else {
                    addr
                },
                o + 1,
            )
        }
    }
}

/// The free lists after freeing the block at `addr` of order `o`: the
/// upward merge runs, then the final block joins its order's list. This is
/// exactly what `deallocate` ensures it leaves behind.
pub open spec fn dealloc_lists(ls: Seq<Seq<usize>>, addr: int, o: int) -> Seq<Seq<usize>> {
    let mc = merge_chain(ls, addr, o);
    push_at(mc.0, mc.2, mc.1 as usize)
}

/// Freeing two buddy blocks, in either order, merges them into one block
/// one order larger: with `a` the aligned lower half and `b` its buddy,
/// and no further buddy free above, freeing both leaves the lists exactly
/// as before plus one block of the next order at `a`.
pub proof fn lemma_buddies_merge_either_order(ls: Seq<Seq<usize>>, a: usize, o: int)
    requires
        0 <= o < NUM_ORDERS - 1,
        ls.len() == NUM_ORDERS,
        (a as int) % block_size(o + 1) == 0,
        a + block_size(o + 1) <= usize::MAX,
        find_idx(ls[o], a) < 0,
        find_idx(ls[o], (buddy_of(a as int, o)) as usize) < 0,
        o + 1 == NUM_ORDERS - 1 || find_idx(
            ls[o + 1],
            (buddy_of(a as int, o + 1)) as usize,
        ) < 0,
    ensures
        dealloc_lists(dealloc_lists(ls, a as int, o), buddy_of(a as int, o), o) == push_at(
            ls,
            o + 1,
            a,
        ),
        dealloc_lists(dealloc_lists(ls, buddy_of(a as int, o), o), a as int, o) == push_at(
            ls,
            o + 1,
            a,
        ),
{
    lemma_block_size_bounds(o);
    lemma_block_size_bounds(o + 1);
    lemma_align_descend(a, o, o + 1);
    lemma_buddy_arith(a, o);
    let b = (buddy_of(a as int, o)) as usize;
    assert(b as int == a + block_size(o));
    lemma_buddy_arith(b, o);
    assert(buddy_of(b as int, o) == a as int);
    // Freeing the first of the pair finds no buddy and just pushes it.
    assert(merge_chain(ls, a as int, o) == (ls, a as int, o));
    assert(dealloc_lists(ls, a as int, o) == push_at(ls, o, a));
    assert(merge_chain(ls, b as int, o) == (ls, b as int, o));
    assert(dealloc_lists(ls, b as int, o) == push_at(ls, o, b));
    // Freeing the second finds the first at the end of the list, removes
    // it, and the merged block (the lower half) moves one order up.
    lemma_second_free_merges(ls, a, b, o);
    lemma_second_free_merges(ls, b, a, o);
    assert(dealloc_lists(push_at(ls, o, a), b as int, o) == push_at(ls, o + 1, a));
    assert(dealloc_lists(push_at(ls, o, b), a as int, o) == push_at(ls, o + 1, a));
}

/// Freeing `second` when its buddy `first` was just pushed removes the
/// buddy and yields one merged block of the next order.
proof fn lemma_second_free_merges(ls: Seq<Seq<usize>>, first: usize, second: usize, o: int)
    requires
        0 <= o < NUM_ORDERS - 1,
        ls.len() == NUM_ORDERS,
        (first as int) % block_size(o) == 0,
        first + block_size(o) <= usize::MAX,
        (second as int) % block_size(o) == 0,
        second + block_size(o) <= usize::MAX,
        buddy_of(second as int, o) == first as int,
        buddy_of(first as int, o) == second as int,
        find_idx(ls[o], first) < 0,
        ({
            let m = if first < second {
                first as int
            } else {
                second as int
            };
            (o + 1 == NUM_ORDERS - 1 || find_idx(ls[o + 1], (buddy_of(m, o + 1)) as usize) < 0)
                && m % block_size(o + 1) == 0 && m + block_size(o + 1) <= usize::MAX
        }),
    ensures
        dealloc_lists(push_at(ls, o, first), second as int, o) == push_at(
            ls,
            o + 1,
            (if first < second {
                first
            } else {
                second
            }),
        ),
{
    lemma_block_size_bounds(o);
    lemma_block_size_bounds(o + 1);
    let d1 = push_at(ls, o, first);
    let n = ls[o].len() as int;
    assert(d1[o] == ls[o].push(first));
    // The pushed buddy is the only occurrence, at the end.
    lemma_find_idx_props(ls[o], first);
    assert forall|k: int| 0 <= k < n implies ls[o][k] != first by {
        if ls[o][k] == first {
            assert(ls[o].contains(first));
        }
    }
    assert(d1[o][n] == first);
    assert forall|k: int| 0 <= k < n implies d1[o][k] != first by {
        assert(d1[o][k] == ls[o][k]);
    }
    lemma_find_idx_first_match(d1[o], first, n);
    assert(find_idx(d1[o], first) == n);
    // One merge step runs and restores the order-`o` list.
    assert(d1[o].remove(n) =~= ls[o]);
    let after_remove = d1.update(o, d1[o].remove(n));
    assert(after_remove =~= ls);
    let m = if (first as int) < second as int {
        first as int
    } else {
        second as int
    };
    assert(merge_chain(d1, second as int, o) == merge_chain(ls, m, o + 1));
    // The merged block's own buddy is absent (or the top order is
    // reached), so the merge stops there.
    if o + 1 < NUM_ORDERS - 1 {
        lemma_align_descend((m as usize), o + 1, o + 1);
        lemma_buddy_arith(m as usize, o + 1);
        assert(merge_chain(ls, m, o + 1) == (ls, m, o + 1));
    } else {
        assert(merge_chain(ls, m, o + 1) == (ls, m, o + 1));
    }
    assert(dealloc_lists(push_at(ls, o, first), second as int, o) == push_at(ls, o + 1, m as usize));
}

/// Block sizes grow strictly with the order.
pub proof fn lemma_block_size_mono(o1: int, o2: int)
    requires
        0 <= o1 < o2 <= NUM_ORDERS,
    ensures
        block_size(o1) < block_size(o2),
    decreases o2 - o1,
{
    lemma_block_size_bounds(o1);
    lemma_block_size_bounds(o2 - 1);
    if o1 + 1 < o2 {
        lemma_block_size_mono(o1, o2 - 1);
    }
}

/// Splitting does not change the number of lists.
proof fn lemma_split_chain_len(ls: Seq<Seq<usize>>, addr: usize, hi: int, lo: int)
    requires
        0 <= lo,
        hi <= ls.len(),
    ensures
        split_chain(ls, addr, hi, lo).len() == ls.len(),
    decreases hi - lo,
{
    if hi > lo {
        let stepped = push_at(ls, hi - 1, (addr + block_size(hi - 1)) as usize);
        assert(stepped.len() == ls.len());
        assert(split_chain(ls, addr, hi, lo) == split_chain(stepped, addr, hi - 1, lo));
        lemma_split_chain_len(stepped, addr, hi - 1, lo);
    }
}

/// Splitting only touches the lists between the two orders.
proof fn lemma_split_chain_untouched(ls: Seq<Seq<usize>>, addr: usize, hi: int, lo: int, o: int)
    requires
        0 <= o < ls.len(),
        0 <= lo,
        hi <= ls.len(),
        o < lo || o >= hi,
    ensures
        split_chain(ls, addr, hi, lo)[o] == ls[o],
    decreases hi - lo,
{
    if hi > lo {
        lemma_split_chain_untouched(
            push_at(ls, hi - 1, (addr + block_size(hi - 1)) as usize),
            addr,
            hi - 1,
            lo,
            o,
        );
    }
}

/// Merging a freed block back undoes the split chain that carved it out:
/// from the lists right after the pop, splitting down to the request order
/// and then freeing the block pushes it back whole at the order it was
/// popped from.
proof fn lemma_merge_undoes_split(ls: Seq<Seq<usize>>, a: usize, f: int, q: int)
    requires
        ls.len() == NUM_ORDERS,
        0 <= q <= f < NUM_ORDERS,
        (a as int) % block_size(f) == 0,
        a + block_size(f) <= usize::MAX,
        forall|o: int| q <= o < f ==>find_idx(ls[o], (a + block_size(o)) as usize) < 0,
        f == NUM_ORDERS - 1 || find_idx(ls[f], (buddy_of(a as int, f)) as usize) < 0,
    ensures
        dealloc_lists(split_chain(ls, a, f, q), a as int, q) == push_at(ls, f, a),
    decreases f - q,
{
    lemma_block_size_bounds(q);
    lemma_block_size_bounds(f);
    if q == f {
        assert(split_chain(ls, a, f, q) == ls);
        if f < NUM_ORDERS - 1 {
            lemma_buddy_arith(a, f);
            assert(merge_chain(ls, a as int, f) == (ls, a as int, f));
        } else {
            assert(merge_chain(ls, a as int, f) == (ls, a as int, f));
        }
    } else {
        lemma_align_descend(a, q + 1, f);
        lemma_align_descend(a, q, f);
        lemma_block_size_mono(q, f);
        assert(a + block_size(q) <= usize::MAX);
        lemma_buddy_arith(a, q);
        assert((a as int) % (2 * block_size(q)) == 0);
        let b = (a + block_size(q)) as usize;
        assert(buddy_of(a as int, q) == b as int);
        let inner = split_chain(ls, a, f, q + 1);
        lemma_split_chain_len(ls, a, f, q + 1);
        assert(inner.len() == NUM_ORDERS);
        lemma_split_chain_compose(ls, a, f, q + 1, q);
        assert(split_chain(inner, a, q + 1, q) == push_at(inner, q, b)) by {
            assert(split_chain(push_at(inner, q, b), a, q, q) == push_at(inner, q, b));
        }
        let d = split_chain(ls, a, f, q);
        assert(d == push_at(inner, q, b));
        // The pushed buddy is the only occurrence at order `q`, at the end.
        lemma_split_chain_untouched(ls, a, f, q + 1, q);
        assert(inner[q] == ls[q]);
        let n = ls[q].len() as int;
        lemma_find_idx_props(ls[q], b);
        assert forall|k: int| 0 <= k < n implies d[q][k] != b by {
            assert(d[q] == inner[q].push(b));
            assert(inner[q] == ls[q]);
            assert(d[q][k] == ls[q][k]);
            if ls[q][k] == b {
                assert(ls[q].contains(b));
            }
        }
        assert(d[q][n] == b);
        lemma_find_idx_first_match(d[q], b, n);
        // The first merge step removes it and hands the merge to the next
        // order with exactly the remaining split state.
        assert(d[q].remove(n) =~= ls[q]);
        assert(d.update(q, d[q].remove(n)) =~= inner);
        assert(merge_chain(d, a as int, q) == merge_chain(inner, a as int, q + 1));
        lemma_merge_undoes_split(ls, a, f, q + 1);
        assert(dealloc_lists(inner, a as int, q + 1) == push_at(ls, f, a));
    }
}

/// An allocation immediately followed by a deallocation with the identical
/// layout restores the free lists to the pre-allocation snapshot: popping
/// the first free block, splitting it down and merging it back is the
/// identity on a well-formed allocator.
pub proof fn lemma_allocate_deallocate_roundtrip(b0: BuddyAllocator, size: int, align: int)
    requires
        buddy_wf(b0),
        b0.initialized,
        first_free_order(lists(b0), request_order(size, align)) < NUM_ORDERS,
    ensures
        ({
            let q = request_order(size, align);
            let f = first_free_order(lists(b0), q);
            let a = lists(b0)[f].last();
            dealloc_lists(
                split_chain(lists(b0).update(f, lists(b0)[f].drop_last()), a, f, q),
                a as int,
                q,
            ) == lists(b0)
        }),
{
    let ls0 = lists(b0);
    let q = request_order(size, align);
    let f = first_free_order(ls0, q);
    lemma_order_for_props(if size >= align {
        size
    } else {
        align
    }, 0);
    lemma_first_free_order_props(ls0, q);
    let a = ls0[f].last();
    let n = ls0[f].len() as int;
    assert(idx_ok(ls0, f, n - 1));
    assert((a as int) % block_size(f) == 0 && block_in_region(b0, a as int, f));
    lemma_block_size_bounds(f);
    let ls1 = ls0.update(f, ls0[f].drop_last());
    // Below the popped order, the popped block's sub-addresses are free of
    // blocks: any would overlap the free block itself.
    assert forall|o: int| q <= o < f implies find_idx(ls1[o], (a + block_size(o)) as usize) < 0 by {
        lemma_block_size_bounds(o);
        lemma_block_size_mono(o, f);
        assert(ls1[o] == ls0[o]);
        lemma_find_idx_props(ls0[o], (a + block_size(o)) as usize);
        if ls0[o].contains((a + block_size(o)) as usize) {
            let k = choose|k: int|
                0 <= k < ls0[o].len() && ls0[o][k] == ((a + block_size(o)) as usize);
            assert(idx_ok(ls0, o, k));
            assert(!(o == f && k == n - 1));
            assert(blocks_disjoint(ls0[o][k] as int, o, ls0[f][n - 1] as int, f));
        }
    }
    // The popped block's own buddy is not free: two free buddies would
    // have merged already.
    if f < NUM_ORDERS - 1 {
        assert(find_idx(ls1[f], (buddy_of(a as int, f)) as usize) < 0) by {
            lemma_buddy_arith(a, f);
            assert(0 <= buddy_of(a as int, f) <= usize::MAX);
            lemma_find_idx_props(ls1[f], (buddy_of(a as int, f)) as usize);
            if ls1[f].contains((buddy_of(a as int, f)) as usize) {
                let k = choose|k: int|
                    0 <= k < ls1[f].len() && ls1[f][k] == ((buddy_of(a as int, f)) as usize);
                assert(ls1[f][k] == ls0[f][k]);
                assert(0 <= k < ls0[f].len() && 0 <= n - 1 < ls0[f].len());
                assert(a == ls0[f][n - 1]);
                assert(ls0[f][k] as int == buddy_of(ls0[f][n - 1] as int, f));
            }
        }
    }
    assert(a + block_size(f) <= usize::MAX) by {
        assert(block_in_region(b0, a as int, f));
    }
    lemma_merge_undoes_split(ls1, a, f, q);
    assert(push_at(ls1, f, a) =~= ls0) by {
        assert(ls1[f].push(a) =~= ls0[f]);
    }
}

/// Freeing two same-order blocks that are not buddies never merges: both
/// simply join the order's free list.
pub proof fn lemma_non_buddies_never_merge(ls: Seq<Seq<usize>>, x: usize, y: usize, o: int)
    requires
        0 <= o < NUM_ORDERS - 1,
        ls.len() == NUM_ORDERS,
        (x as int) % block_size(o) == 0,
        x + block_size(o) <= usize::MAX,
        (y as int) % block_size(o) == 0,
        y + block_size(o) <= usize::MAX,
        buddy_of(x as int, o) != y as int,
        find_idx(ls[o], (buddy_of(x as int, o)) as usize) < 0,
        find_idx(ls[o], (buddy_of(y as int, o)) as usize) < 0,
    ensures
        dealloc_lists(dealloc_lists(ls, x as int, o), y as int, o) == push_at(
            push_at(ls, o, x),
            o,
            y,
        ),
{
    lemma_block_size_bounds(o);
    lemma_buddy_arith(x, o);
    lemma_buddy_arith(y, o);
    assert(buddy_of(y as int, o) != x as int) by {
        if buddy_of(y as int, o) == x as int {
            assert(buddy_of(buddy_of(y as int, o), o) == y as int);
        }
    }
    assert(merge_chain(ls, x as int, o) == (ls, x as int, o));
    let d1 = push_at(ls, o, x);
    assert(dealloc_lists(ls, x as int, o) == d1);
    // The second block's buddy is neither the first block nor on the list.
    let by_ = (buddy_of(y as int, o)) as usize;
    lemma_find_idx_props(ls[o], by_);
    assert(find_idx(d1[o], by_) < 0) by {
        lemma_find_idx_props(d1[o], by_);
        if d1[o].contains(by_) {
            let k = choose|k: int| 0 <= k < d1[o].len() && d1[o][k] == by_;
            if k < ls[o].len() {
                assert(ls[o][k] == by_);
                assert(ls[o].contains(by_));
            } else {
                assert(d1[o][k] == x);
                assert(by_ as int == buddy_of(y as int, o));
            }
        }
    }
    assert(merge_chain(d1, y as int, o) == (d1, y as int, o));
    assert(dealloc_lists(d1, y as int, o) == push_at(d1, o, y));
}

/// Thread-unsafe core of the buddy allocator; callers serialize access.
pub struct BuddyAllocator {
    /// Start of the managed memory region.
    pub memory_start: usize,
    /// Size of the managed memory region in bytes.
    pub memory_size: usize,
    /// Free lists, one per order; each holds the addresses of the free
    /// blocks of that order, head last.
    pub free_lists: Vec<Vec<usize>>,
    /// Whether the allocator has been initialized (the once-latch).
    pub initialized: bool,
}

/// The free lists as mathematical sequences, indexed by order.
pub open spec fn lists(b: BuddyAllocator) -> Seq<Seq<usize>> {
    b.free_lists@.map_values(|v: Vec<usize>| v@)
}

/// Total bytes on the free lists at order `o` and above.
pub open spec fn free_bytes_from(ls: Seq<Seq<usize>>, o: int) -> int
    decreases (if o >= NUM_ORDERS { 0int } else { NUM_ORDERS - o }),
{
    if o < 0 || o >= NUM_ORDERS {
        0
    } else {
        ls[o].len() * block_size(o) + free_bytes_from(ls, o + 1)
    }
}

/// Total bytes on all free lists.
pub open spec fn free_bytes(b: BuddyAllocator) -> int {
    free_bytes_from(lists(b), 0)
}

/// Valid position in the free-list table.
pub open spec fn idx_ok(ls: Seq<Seq<usize>>, o: int, i: int) -> bool {
    0 <= o < NUM_ORDERS && 0 <= i < ls[o].len()
}

/// A block is wholly inside the managed region.
pub open spec fn block_in_region(b: BuddyAllocator, addr: int, o: int) -> bool {
    b.memory_start <= addr && addr + block_size(o) <= b.memory_start + b.memory_size
}

/// Two blocks occupy disjoint byte ranges.
pub open spec fn blocks_disjoint(a1: int, o1: int, a2: int, o2: int) -> bool {
    a1 + block_size(o1) <= a2 || a2 + block_size(o2) <= a1
}

/// Well-formedness of the allocator: tracked blocks are aligned to their
/// own size, inside the region, pairwise disjoint, and below the top order
/// no two free blocks of one order are buddies (they would have merged).
pub open spec fn buddy_wf(b: BuddyAllocator) -> bool {
    &&& b.free_lists@.len() == NUM_ORDERS
    &&& b.memory_start + b.memory_size <= usize::MAX
    &&& (!b.initialized ==> forall|o: int|
        0 <= o < NUM_ORDERS ==> lists(b)[o].len() == 0)
    &&& forall|o: int, i: int|
        idx_ok(lists(b), o, i) ==> ((#[trigger] lists(b)[o][i]) as int) % block_size(o) == 0
            && block_in_region(b, lists(b)[o][i] as int, o)
    &&& forall|o1: int, i1: int, o2: int, i2: int|
        #![trigger lists(b)[o1][i1], lists(b)[o2][i2]]
        idx_ok(lists(b), o1, i1) && idx_ok(lists(b), o2, i2) && !(o1 == o2 && i1 == i2)
            ==> blocks_disjoint(lists(b)[o1][i1] as int, o1, lists(b)[o2][i2] as int, o2)
    &&& forall|o: int, i1: int, i2: int|
        #![trigger lists(b)[o][i1], lists(b)[o][i2]]
        0 <= o < NUM_ORDERS - 1 && 0 <= i1 < lists(b)[o].len() && 0 <= i2 < lists(b)[o].len()
            ==> lists(b)[o][i2] as int != buddy_of(lists(b)[o][i1] as int, o)
}

/// Aligns an address upward to the given alignment.
pub fn align_up(addr: usize, align: usize) -> (r: usize)
    requires
        align >= 1,
        addr + align <= usize::MAX,
    ensures
        (r as int) % (align as int) == 0,
        addr <= r < addr + align,
{
    proof {
        assert((((addr + align - 1) / (align as int)) * (align as int)) % (align as int) == 0
            && addr <= ((addr + align - 1) / (align as int)) * (align as int) < addr + align)
            by (nonlinear_arith)
            requires
                align >= 1,
        ;
    }
    (addr + align - 1) / align * align
}

/// Smallest order at or above `o` whose block holds `size` bytes, capped at
/// the top order.
pub open spec fn order_for(size: int, o: int) -> int
    decreases (if o >= NUM_ORDERS - 1 { 0int } else { NUM_ORDERS - 1 - o }),
{
    if o < 0 || o >= NUM_ORDERS - 1 {
        NUM_ORDERS - 1
    } else if block_size(o) >= size {
        o
    } else {
        order_for(size, o + 1)
    }
}

pub proof fn lemma_order_for_props(size: int, o: int)
    requires
        0 <= o <= NUM_ORDERS - 1,
    ensures
        o <= order_for(size, o) <= NUM_ORDERS - 1,
        block_size(order_for(size, o)) >= size || order_for(size, o) == NUM_ORDERS - 1,
        forall|k: int| o <= k < order_for(size, o) ==> block_size(k) < size,
    decreases NUM_ORDERS - o,
{
    if o < NUM_ORDERS - 1 && block_size(o) < size {
        lemma_order_for_props(size, o + 1);
    }
}

/// The order an allocation request of `size` bytes with alignment `align`
/// occupies: the block must hold `max(size, align)` bytes, floored at the
/// minimum block size, capped at the top order.
pub open spec fn request_order(size: int, align: int) -> int {
    order_for(if size >= align { size } else { align }, 0)
}

impl BuddyAllocator {
    /// Creates a new, uninitialized buddy allocator with no memory.
    pub fn new() -> (r: BuddyAllocator)
        ensures
            buddy_wf(r),
            !r.initialized,
            r.memory_start == 0,
            r.memory_size == 0,
            forall|o: int| 0 <= o < NUM_ORDERS ==> lists(r)[o].len() == 0,
    {
        let mut free_lists: Vec<Vec<usize>> = Vec::new();
        let mut o: usize = 0;
        while o < NUM_ORDERS
            invariant
                o <= NUM_ORDERS,
                free_lists@.len() == o,
                forall|k: int| 0 <= k < o ==> (#[trigger] free_lists@[k])@.len() == 0,
            decreases NUM_ORDERS - o,
        {
            free_lists.push(Vec::new());
            o = o + 1;
        }
        BuddyAllocator { memory_start: 0, memory_size: 0, free_lists, initialized: false }
    }

    /// The block size of the given order, in bytes.
    fn order_size(&self, order: usize) -> (r: usize)
        requires
            order < NUM_ORDERS,
        ensures
            r == block_size(order as int),
    {
        proof {
            lemma_block_size_shift(order as int);
        }
        1usize << (order + MIN_ORDER)
    }

    /// Gets the smallest order whose block holds `size` bytes (capped at
    /// the top order).
    pub fn get_order_for_size(&self, size: usize) -> (r: usize)
        ensures
            r == order_for(size as int, 0),
            r < NUM_ORDERS,
    {
        proof {
            lemma_order_for_props(size as int, 0);
        }
        let mut o: usize = 0;
        while o < NUM_ORDERS - 1 && self.order_size(o) < size
            invariant
                0 <= o <= NUM_ORDERS - 1,
                forall|k: int| 0 <= k < o ==> block_size(k) < size,
                order_for(size as int, 0) == order_for(size as int, o as int),
            decreases NUM_ORDERS - o,
        {
            o = o + 1;
        }
        o
    }

    /// Finds the smallest order that can serve a request of `size` bytes
    /// with alignment `align`.
    pub fn find_order_for_request(&self, size: usize, align: usize) -> (r: usize)
        ensures
            r == request_order(size as int, align as int),
            r < NUM_ORDERS,
    {
        let needed = if size >= align {
            size
        } else {
            align
        };
        self.get_order_for_size(needed)
    }
}

/// Splitting from `hi` to `mid` and on to `lo` is splitting from `hi` to
/// `lo`.
proof fn lemma_split_chain_compose(ls: Seq<Seq<usize>>, addr: usize, hi: int, mid: int, lo: int)
    requires
        lo <= mid <= hi,
    ensures
        split_chain(ls, addr, hi, lo) == split_chain(split_chain(ls, addr, hi, mid), addr, mid, lo),
    decreases hi - mid,
{
    if mid < hi {
        lemma_split_chain_compose(push_at(ls, hi - 1, (addr + block_size(hi - 1)) as usize), addr, hi - 1, mid, lo);
    }
}

impl BuddyAllocator {
    /// Initializes the buddy allocator with a memory region. Idempotent:
    /// guarded by the once-latch, a second call leaves the allocator, free
    /// lists included, exactly as the first left it.
    pub fn init(&mut self, start_addr: usize, size: usize)
        requires
            buddy_wf(*old(self)),
            start_addr + size <= usize::MAX,
        ensures
            buddy_wf(*final(self)),
            old(self).initialized ==> *final(self) == *old(self),
            final(self).initialized,
            !old(self).initialized ==> final(self).memory_start == start_addr
                && final(self).memory_size == size,
            // The first call carves the region into the free lists.
            !old(self).initialized ==> lists(*final(self)) == carve_region(
                empty_free_lists(),
                start_addr as int,
                size as int,
            ),
    {
        if self.initialized {
            return ;
        }
        self.memory_start = start_addr;
        self.memory_size = size;
        // The latch is set before the region is carved so that the free
        // lists are never non-empty on an uninitialized allocator.
        self.initialized = true;
        proof {
            assert(self.free_lists@ == old(self).free_lists@);
            assert forall|o: int| 0 <= o < NUM_ORDERS implies lists(*self)[o].len() == 0 by {
                assert(lists(*self)[o] == lists(*old(self))[o]);
            }
            assert(buddy_wf(*self));
        }
        proof {
            assert(lists(*self) =~~= empty_free_lists());
        }
        self.add_memory_region(start_addr, size);
    }

    /// Carves a memory region into free blocks: aligns the start up to the
    /// minimum block size, then repeatedly takes the largest power-of-two
    /// block that fits the remaining span, its alignment and the top order,
    /// until the remainder is smaller than the minimum block (that
    /// remainder is abandoned, a bounded one-time cost).
    fn add_memory_region(&mut self, start: usize, size: usize)
        requires
            buddy_wf(*old(self)),
            old(self).initialized,
            old(self).memory_start == start,
            old(self).memory_size == size,
            forall|o: int| 0 <= o < NUM_ORDERS ==> lists(*old(self))[o].len() == 0,
            start + size <= usize::MAX,
        ensures
            buddy_wf(*final(self)),
            final(self).initialized == old(self).initialized,
            final(self).memory_start == old(self).memory_start,
            final(self).memory_size == old(self).memory_size,
            lists(*final(self)) == carve_region(lists(*old(self)), start as int, size as int),
    {
        let ghost ls0 = lists(*old(self));
        if size < MIN_BLOCK_SIZE {
            return ;
        }
        let aligned_start = align_up(start, MIN_BLOCK_SIZE);
        proof {
            assert((((start + 31) as int) / 32) * 32 == aligned_start) by (nonlinear_arith)
                requires
                    (aligned_start as int) % 32 == 0,
                    start <= aligned_start < start + 32,
            ;
        }
        if aligned_start >= start + size {
            return ;
        }
        let end = start + size;
        let mut current_start = aligned_start;
        while end - current_start >= MIN_BLOCK_SIZE
            invariant
                buddy_wf(*self),
                self.initialized,
                self.initialized == old(self).initialized,
                self.memory_start == start,
                self.memory_size == size,
                start + size <= usize::MAX,
                end == start + size,
                start <= aligned_start <= current_start <= end,
                (current_start as int) % 32 == 0,
                forall|o: int, i: int|
                    idx_ok(lists(*self), o, i) ==> (#[trigger] lists(*self)[o][i]) + block_size(o)
                        <= current_start,
                forall|o: int, i: int|
                    idx_ok(lists(*self), o, i) && o < NUM_ORDERS - 1 && (
                    #[trigger] lists(*self)[o][i]) + block_size(o) == current_start ==> (
                    block_size(o + 1) > end - lists(*self)[o][i] || (lists(*self)[o][i] as int)
                        % block_size(o + 1) != 0),
                carve(ls0, aligned_start as int, end as int) == carve(
                    lists(*self),
                    current_start as int,
                    end as int,
                ),
            decreases end - current_start,
        {
            let ghost ls_pre = lists(*self);
            let ghost cs = current_start;
            let ghost self_pre = *self;
            // Pick the largest order whose block fits the remaining span,
            // the current address's alignment, and the top order.
            let mut order: usize = 0;
            while order < NUM_ORDERS - 1
                invariant
                    *self == self_pre,
                    end - current_start >= 32,
                    order < NUM_ORDERS,
                    (current_start as int) % block_size(order as int) == 0,
                    block_size(order as int) <= end - current_start,
                    carve_order(current_start as int, end - current_start) == carve_order_from(
                        current_start as int,
                        end - current_start,
                        order as int,
                    ),
                ensures
                    order < NUM_ORDERS,
                    (current_start as int) % block_size(order as int) == 0,
                    block_size(order as int) <= end - current_start,
                    *self == self_pre,
                    order as int == NUM_ORDERS - 1 || block_size(order as int + 1) > end
                        - current_start || (current_start as int) % block_size(order as int + 1)
                        != 0,
                    carve_order(current_start as int, end - current_start) == order,
                decreases NUM_ORDERS - order,
            {
                let next_size = self.order_size(order + 1);
                proof {
                    lemma_block_size_bounds(order as int + 1);
                }
                if !(next_size <= end - current_start && current_start % next_size == 0) {
                    break ;
                }
                order = order + 1;
            }
            let block_len = self.order_size(order);
            proof {
                lemma_block_size_bounds(order as int);
                lemma_block_size_bounds(order as int + 1);
                // The chosen order's cap facts.
                assert(order as int == NUM_ORDERS - 1 || block_size(order as int + 1) > end
                    - current_start || (current_start as int) % block_size(order as int + 1) != 0);
            }
            self.add_free_block(current_start, order);
            proof {
                let o = order as int;
                let lsn = lists(*self);
                assert(lsn == push_at(ls_pre, o, cs));
                // The carve model takes the same step.
                assert(carve_order(cs as int, end - cs) == o);
                assert(carve(ls_pre, cs as int, end as int) == carve(
                    push_at(ls_pre, o, cs),
                    cs + block_size(o),
                    end as int,
                ));
                let ni = ls_pre[o].len() as int;
                assert(lsn[o][ni] == cs);
                if o < NUM_ORDERS - 1 {
                    lemma_align_descend(cs, o, o);
                    lemma_buddy_arith(cs, o);
                }
                assert(buddy_wf(*self)) by {
                    assert forall|o2: int, i2: int| idx_ok(lsn, o2, i2) implies ((
                    #[trigger] lsn[o2][i2]) as int) % block_size(o2) == 0 && block_in_region(
                        *self,
                        lsn[o2][i2] as int,
                        o2,
                    ) by {
                        if o2 == o && i2 == ni {
                            assert(lsn[o2][i2] == cs);
                        } else {
                            assert(lsn[o2][i2] == ls_pre[o2][i2] && idx_ok(ls_pre, o2, i2));
                        }
                    }
                    assert forall|o1: int, i1: int, o2: int, i2: int|
                        idx_ok(lsn, o1, i1) && idx_ok(lsn, o2, i2) && !(o1 == o2 && i1 == i2)
                        implies blocks_disjoint(
                        (#[trigger] lsn[o1][i1]) as int,
                        o1,
                        (#[trigger] lsn[o2][i2]) as int,
                        o2,
                    ) by {
                        lemma_block_size_bounds(o1);
                        lemma_block_size_bounds(o2);
                        if o1 == o && i1 == ni {
                            assert(lsn[o2][i2] == ls_pre[o2][i2] && idx_ok(ls_pre, o2, i2));
                            assert(ls_pre[o2][i2] + block_size(o2) <= cs);
                        } else if o2 == o && i2 == ni {
                            assert(lsn[o1][i1] == ls_pre[o1][i1] && idx_ok(ls_pre, o1, i1));
                            assert(ls_pre[o1][i1] + block_size(o1) <= cs);
                        } else {
                            assert(lsn[o1][i1] == ls_pre[o1][i1] && lsn[o2][i2] == ls_pre[o2][i2]);
                            assert(idx_ok(ls_pre, o1, i1) && idx_ok(ls_pre, o2, i2));
                        }
                    }
                    assert forall|o2: int, i1: int, i2: int|
                        0 <= o2 < NUM_ORDERS - 1 && 0 <= i1 < lsn[o2].len() && 0 <= i2 < lsn[o2].len()
                        implies (#[trigger] lsn[o2][i2]) as int != buddy_of(
                        (#[trigger] lsn[o2][i1]) as int,
                        o2,
                    ) by {
                        lemma_block_size_bounds(o2);
                        let new1 = o2 == o && i1 == ni;
                        let new2 = o2 == o && i2 == ni;
                        if !new1 && !new2 {
                            assert(lsn[o2][i1] == ls_pre[o2][i1] && lsn[o2][i2] == ls_pre[o2][i2]);
                            assert(idx_ok(ls_pre, o2, i1) && idx_ok(ls_pre, o2, i2));
                        } else {
                            // One of the pair is the block just carved.
                            assert(o2 == o && o < NUM_ORDERS - 1);
                            let p = buddy_of(cs as int, o);
                            if new1 && new2 {
                                assert(lsn[o2][i1] == cs && lsn[o2][i2] == cs);
                            } else {
                                let iother = if new1 {
                                    i2
                                } else {
                                    i1
                                };
                                let x = ls_pre[o][iother];
                                assert(lsn[o2][if new1 {
                                    i2
                                } else {
                                    i1
                                }] == x && idx_ok(ls_pre, o, iother));
                                assert(x + block_size(o) <= cs);
                                lemma_buddy_arith(x, o);
                                // The carved block's buddy below it would have
                                // to end exactly at the carve point, which the
                                // cap facts rule out.
                                if x as int == p || cs as int == buddy_of(x as int, o) {
                                    assert(x as int == p);
                                    assert(p == cs + block_size(o) || p == cs - block_size(o));
                                    assert(x as int == cs - block_size(o));
                                    assert(x + block_size(o) == cs);
                                    assert((cs as int) % (2 * block_size(o)) != 0);
                                    assert((x as int) % block_size(o + 1) == 0);
                                    assert(block_size(o + 1) > end - x || (x as int) % block_size(
                                        o + 1,
                                    ) != 0);
                                    assert(block_size(o + 1) > end - x);
                                    assert(block_size(o) <= end - cs);
                                    assert(false);
                                }
                            }
                        }
                    }
                }
                // Every block still ends at or before the new carve point,
                // and only the new block ends exactly there.
                assert forall|o2: int, i2: int| idx_ok(lsn, o2, i2) implies (
                #[trigger] lsn[o2][i2]) + block_size(o2) <= cs + block_size(o) by {
                    if o2 == o && i2 == ni {
                    } else {
                        assert(lsn[o2][i2] == ls_pre[o2][i2] && idx_ok(ls_pre, o2, i2));
                        assert(ls_pre[o2][i2] + block_size(o2) <= cs);
                        lemma_block_size_bounds(o);
                    }
                }
                assert forall|o2: int, i2: int|
                    idx_ok(lsn, o2, i2) && o2 < NUM_ORDERS - 1 && (#[trigger] lsn[o2][i2])
                        + block_size(o2) == cs + block_size(o) implies (block_size(o2 + 1) > end
                    - lsn[o2][i2] || (lsn[o2][i2] as int) % block_size(o2 + 1) != 0) by {
                    if o2 == o && i2 == ni {
                        assert(lsn[o2][i2] == cs);
                        assert(o as int == NUM_ORDERS - 1 || block_size(o + 1) > end - cs || (
                        cs as int) % block_size(o + 1) != 0);
                    } else {
                        assert(lsn[o2][i2] == ls_pre[o2][i2] && idx_ok(ls_pre, o2, i2));
                        assert(ls_pre[o2][i2] + block_size(o2) <= cs);
                        lemma_block_size_bounds(o);
                        assert(false);
                    }
                }
            }
            current_start = current_start + block_len;
            proof {
                let o = order as int;
                lemma_block_size_shift(o);
                let k = (o + MIN_ORDER) as usize;
                assert(5 <= k <= 16 ==> ((1usize << k) % 32) == 0) by (bit_vector);
                assert(block_size(o) % 32 == 0);
                assert(((cs as int) + block_size(o)) % 32 == 0) by (nonlinear_arith)
                    requires
                        (cs as int) % 32 == 0,
                        block_size(o) % 32 == 0,
                ;
            }
        }
        proof {
            assert(carve(lists(*self), current_start as int, end as int) == lists(*self));
            assert(carve_region(ls0, start as int, size as int) == carve(
                ls0,
                aligned_start as int,
                end as int,
            ));
        }
    }

    /// Allocates a block able to hold `size` bytes at alignment `align`.
    ///
    /// The required order is the smallest whose block holds
    /// `max(size, align)` bytes, capped at the top order. The free lists are
    /// scanned upward from it for the first non-empty one; if none exists up
    /// to the top order the allocator is out of memory and returns `None`.
    /// Otherwise the head block is taken and halved until it has the
    /// required order, each upper half going back one order down; the
    /// address of the remaining lower half is returned.
    pub fn allocate(&mut self, size: usize, align: usize) -> (r: Option<usize>)
        requires
            buddy_wf(*old(self)),
        ensures
            buddy_wf(*final(self)),
            final(self).initialized == old(self).initialized,
            final(self).memory_start == old(self).memory_start,
            final(self).memory_size == old(self).memory_size,
            (r is Some) <==> (old(self).initialized && exists|o: int|
                request_order(size as int, align as int) <= o < NUM_ORDERS && lists(
                    *old(self),
                )[o].len() > 0),
            r is None ==> *final(self) == *old(self),
            r is Some ==> ({
                let q = request_order(size as int, align as int);
                let f = first_free_order(lists(*old(self)), q);
                let a = lists(*old(self))[f].last();
                &&& r == Some(a)
                &&& lists(*final(self)) == split_chain(
                    lists(*old(self)).update(f, lists(*old(self))[f].drop_last()),
                    a,
                    f,
                    q,
                )
                &&& (a as int) % block_size(q) == 0
                &&& block_in_region(*old(self), a as int, q)
                &&& forall|o: int, i: int|
                    idx_ok(lists(*final(self)), o, i) ==> blocks_disjoint(
                        a as int,
                        q,
                        (#[trigger] lists(*final(self))[o][i]) as int,
                        o,
                    )
            }),
    {
        if !self.initialized {
            return None;
        }
        let ghost ls0 = lists(*old(self));
        let required_order = self.find_order_for_request(size, align);
        proof {
            lemma_first_free_order_props(ls0, required_order as int);
        }
        let mut current_order = required_order;
        while current_order < NUM_ORDERS && self.free_lists[current_order].len() == 0
            invariant
                *self == *old(self),
                ls0 == lists(*self),
                buddy_wf(*self),
                required_order <= current_order <= NUM_ORDERS,
                required_order == request_order(size as int, align as int),
                first_free_order(ls0, required_order as int) == first_free_order(
                    ls0,
                    current_order as int,
                ),
            decreases NUM_ORDERS - current_order,
        {
            proof {
                assert(ls0[current_order as int].len() == 0);
            }
            current_order = current_order + 1;
        }
        if current_order >= NUM_ORDERS {
            proof {
                lemma_first_free_order_props(ls0, current_order as int);
                lemma_first_free_order_props(ls0, required_order as int);
            }
            return None;
        }
        let ghost f = current_order as int;
        proof {
            assert(lists(*self)[f].len() > 0);
            assert(first_free_order(ls0, required_order as int) == f);
            lemma_first_free_order_props(ls0, required_order as int);
        }
        let block_addr = match self.free_lists[current_order].pop() {
            Some(a) => a,
            None => {
                return None;
            },
        };
        let ghost ls1 = ls0.update(f, ls0[f].drop_last());
        proof {
            assert(lists(*self) =~= ls1);
            assert(block_addr == ls0[f].last());
            // The popped block's facts come from the old state's invariant.
            assert((block_addr as int) % block_size(f) == 0 && block_in_region(
                *old(self),
                block_addr as int,
                f,
            )) by {
                assert(idx_ok(ls0, f, ls0[f].len() - 1));
                assert(ls0[f][ls0[f].len() - 1] == block_addr);
            }
            assert(buddy_wf(*self)) by {
                assert forall|o: int, i: int| idx_ok(lists(*self), o, i) implies ((
                #[trigger] lists(*self)[o][i]) as int) % block_size(o) == 0 && block_in_region(
                    *self,
                    lists(*self)[o][i] as int,
                    o,
                ) by {
                    assert(lists(*self)[o][i] == ls0[o][i]);
                    assert(idx_ok(ls0, o, i));
                }
                assert forall|o1: int, i1: int, o2: int, i2: int|
                    idx_ok(lists(*self), o1, i1) && idx_ok(lists(*self), o2, i2) && !(o1 == o2 && i1
                        == i2) implies blocks_disjoint(
                    (#[trigger] lists(*self)[o1][i1]) as int,
                    o1,
                    (#[trigger] lists(*self)[o2][i2]) as int,
                    o2,
                ) by {
                    assert(lists(*self)[o1][i1] == ls0[o1][i1] && lists(*self)[o2][i2]
                        == ls0[o2][i2]);
                    assert(idx_ok(ls0, o1, i1) && idx_ok(ls0, o2, i2));
                }
                assert forall|o: int, i1: int, i2: int|
                    0 <= o < NUM_ORDERS - 1 && 0 <= i1 < lists(*self)[o].len() && 0 <= i2 < lists(
                        *self,
                    )[o].len() implies (#[trigger] lists(*self)[o][i2]) as int != buddy_of(
                    (#[trigger] lists(*self)[o][i1]) as int,
                    o,
                ) by {
                    assert(lists(*self)[o][i1] == ls0[o][i1] && lists(*self)[o][i2] == ls0[o][i2]);
                }
            }
            assert forall|o: int, i: int| idx_ok(lists(*self), o, i) implies blocks_disjoint(
                block_addr as int,
                f,
                (#[trigger] lists(*self)[o][i]) as int,
                o,
            ) by {
                assert(lists(*self)[o][i] == ls0[o][i]);
                assert(idx_ok(ls0, o, i));
                assert(!(o == f && i == ls0[f].len() - 1));
                assert(blocks_disjoint(ls0[f][ls0[f].len() - 1] as int, f, ls0[o][i] as int, o));
            }
        }
        let mut block_order = current_order;
        while block_order > required_order
            invariant
                buddy_wf(*self),
                self.initialized,
                self.initialized == old(self).initialized,
                self.memory_start == old(self).memory_start,
                self.memory_size == old(self).memory_size,
                required_order <= block_order <= f < NUM_ORDERS,
                required_order == request_order(size as int, align as int),
                (block_addr as int) % block_size(block_order as int) == 0,
                block_in_region(*old(self), block_addr as int, block_order as int),
                lists(*self) == split_chain(ls1, block_addr, f, block_order as int),
                forall|o: int, i: int|
                    idx_ok(lists(*self), o, i) ==> blocks_disjoint(
                        block_addr as int,
                        block_order as int,
                        (#[trigger] lists(*self)[o][i]) as int,
                        o,
                    ),
            decreases block_order,
        {
            let ghost ls_pre = lists(*self);
            block_order = block_order - 1;
            let buddy_size = self.order_size(block_order);
            let buddy_addr = block_addr + buddy_size;
            proof {
                lemma_block_size_bounds(block_order as int);
                lemma_block_size_bounds(block_order as int + 1);
                lemma_align_descend(block_addr, block_order as int, block_order as int + 1);
                lemma_buddy_arith(block_addr, block_order as int);
                assert((block_addr as int) % (2 * block_size(block_order as int)) == 0);
                assert(buddy_of(block_addr as int, block_order as int) == buddy_addr);
            }
            self.free_lists[block_order].push(buddy_addr);
            proof {
                let o_new = block_order as int;
                let lsn = lists(*self);
                assert(lsn =~= push_at(ls_pre, o_new, buddy_addr));
                lemma_split_chain_compose(ls1, block_addr, f, o_new + 1, o_new);
                assert(buddy_addr == (block_addr + block_size(o_new)) as usize);
                assert(split_chain(push_at(ls_pre, o_new, buddy_addr), block_addr, o_new, o_new)
                    == push_at(ls_pre, o_new, buddy_addr));
                assert(split_chain(ls_pre, block_addr, o_new + 1, o_new) == split_chain(
                    push_at(ls_pre, o_new, buddy_addr),
                    block_addr,
                    o_new,
                    o_new,
                ));
                assert(lsn == split_chain(ls1, block_addr, f, o_new));
                // Every clause of wf survives the push of the upper half.
                assert forall|o: int, i: int| idx_ok(lsn, o, i) implies ((
                #[trigger] lsn[o][i]) as int) % block_size(o) == 0 && block_in_region(
                    *self,
                    lsn[o][i] as int,
                    o,
                ) by {
                    if o == o_new && i == ls_pre[o].len() {
                        assert(lsn[o][i] == buddy_addr);
                    } else {
                        assert(lsn[o][i] == ls_pre[o][i]);
                        assert(idx_ok(ls_pre, o, i));
                    }
                }
                assert forall|o1: int, i1: int, o2: int, i2: int|
                    idx_ok(lsn, o1, i1) && idx_ok(lsn, o2, i2) && !(o1 == o2 && i1 == i2)
                    implies blocks_disjoint(
                    (#[trigger] lsn[o1][i1]) as int,
                    o1,
                    (#[trigger] lsn[o2][i2]) as int,
                    o2,
                ) by {
                    if o1 == o_new && i1 == ls_pre[o1].len() {
                        assert(lsn[o2][i2] == ls_pre[o2][i2] && idx_ok(ls_pre, o2, i2));
                        assert(blocks_disjoint(
                            block_addr as int,
                            o_new + 1,
                            ls_pre[o2][i2] as int,
                            o2,
                        ));
                    } else if o2 == o_new && i2 == ls_pre[o2].len() {
                        assert(lsn[o1][i1] == ls_pre[o1][i1] && idx_ok(ls_pre, o1, i1));
                        assert(blocks_disjoint(
                            block_addr as int,
                            o_new + 1,
                            ls_pre[o1][i1] as int,
                            o1,
                        ));
                    } else {
                        assert(lsn[o1][i1] == ls_pre[o1][i1] && lsn[o2][i2] == ls_pre[o2][i2]);
                        assert(idx_ok(ls_pre, o1, i1) && idx_ok(ls_pre, o2, i2));
                    }
                }
                assert forall|o: int, i1: int, i2: int|
                    0 <= o < NUM_ORDERS - 1 && 0 <= i1 < lsn[o].len() && 0 <= i2 < lsn[o].len()
                    implies (#[trigger] lsn[o][i2]) as int != buddy_of(
                    (#[trigger] lsn[o][i1]) as int,
                    o,
                ) by {
                    let was1 = !(o == o_new && i1 == ls_pre[o].len());
                    let was2 = !(o == o_new && i2 == ls_pre[o].len());
                    if was1 && was2 {
                        assert(lsn[o][i1] == ls_pre[o][i1] && lsn[o][i2] == ls_pre[o][i2]);
                    } else if !was1 && !was2 {
                        assert(lsn[o][i1] == buddy_addr && lsn[o][i2] == buddy_addr);
                        assert(buddy_of(buddy_addr as int, o) == block_addr as int);
                        assert(buddy_addr as int != block_addr as int);
                    } else if !was1 && was2 {
                        // The new element's partner is the kept lower half,
                        // whose address no free block can carry.
                        assert(lsn[o][i1] == buddy_addr && lsn[o][i2] == ls_pre[o][i2]);
                        assert(buddy_of(buddy_addr as int, o) == block_addr as int);
                        assert(idx_ok(ls_pre, o, i2));
                        assert(blocks_disjoint(
                            block_addr as int,
                            o_new + 1,
                            ls_pre[o][i2] as int,
                            o,
                        ));
                        lemma_block_size_bounds(o);
                    } else {
                        assert(lsn[o][i2] == buddy_addr && lsn[o][i1] == ls_pre[o][i1]);
                        assert(idx_ok(ls_pre, o, i1));
                        assert(blocks_disjoint(
                            block_addr as int,
                            o_new + 1,
                            ls_pre[o][i1] as int,
                            o,
                        ));
                        lemma_block_size_bounds(o);
                        // If the old block's buddy were the new element, the
                        // involution would put the old block at the kept
                        // address.
                        if ls_pre[o][i1] as int == buddy_of(buddy_addr as int, o) {
                        }
                        lemma_buddy_arith(ls_pre[o][i1], o);
                    }
                }
                assert forall|o: int, i: int| idx_ok(lsn, o, i) implies blocks_disjoint(
                    block_addr as int,
                    block_order as int,
                    (#[trigger] lsn[o][i]) as int,
                    o,
                ) by {
                    if o == o_new && i == ls_pre[o].len() {
                        assert(lsn[o][i] == buddy_addr);
                    } else {
                        assert(lsn[o][i] == ls_pre[o][i] && idx_ok(ls_pre, o, i));
                        assert(blocks_disjoint(
                            block_addr as int,
                            o_new + 1,
                            ls_pre[o][i] as int,
                            o,
                        ));
                    }
                }
            }
        }
        Some(block_addr)
    }

    /// Adds a free block to the head of its order's free list.
    fn add_free_block(&mut self, addr: usize, order: usize)
        requires
            old(self).free_lists@.len() == NUM_ORDERS,
            order < NUM_ORDERS,
        ensures
            final(self).free_lists@.len() == NUM_ORDERS,
            final(self).initialized == old(self).initialized,
            final(self).memory_start == old(self).memory_start,
            final(self).memory_size == old(self).memory_size,
            lists(*final(self)) == push_at(lists(*old(self)), order as int, addr),
    {
        self.free_lists[order].push(addr);
        proof {
            assert(lists(*self) =~= push_at(lists(*old(self)), order as int, addr));
        }
    }

    /// Checks whether the block at `addr` of the given order is free: it
    /// must lie in the managed region and be on the order's free list.
    fn is_buddy_free(&self, addr: usize, order: usize) -> (r: bool)
        requires
            buddy_wf(*self),
            order < NUM_ORDERS,
        ensures
            r == (find_idx(lists(*self)[order as int], addr) >= 0),
    {
        let ghost l = lists(*self)[order as int];
        if addr < self.memory_start || addr - self.memory_start >= self.memory_size {
            proof {
                lemma_find_idx_props(l, addr);
                if l.contains(addr) {
                    let j = choose|j: int| 0 <= j < l.len() && l[j] == addr;
                    assert(idx_ok(lists(*self), order as int, j));
                    lemma_block_size_bounds(order as int);
                }
            }
            return false;
        }
        let list = &self.free_lists[order];
        let n = list.len();
        let mut i: usize = 0;
        while i < n
            invariant
                n == l.len(),
                l == list@,
                order < NUM_ORDERS,
                self.free_lists@.len() == NUM_ORDERS,
                l == lists(*self)[order as int],
                i <= n,
                forall|k: int| 0 <= k < i ==> l[k] != addr,
            decreases n - i,
        {
            if list[i] == addr {
                proof {
                    assert(lists(*self)[order as int] == l);
                    lemma_find_idx_first_match(l, addr, i as int);
                }
                return true;
            }
            i = i + 1;
        }
        proof {
            assert(lists(*self)[order as int] == l);
            lemma_find_idx_props(l, addr);
            if l.contains(addr) {
                let j = choose|j: int| 0 <= j < l.len() && l[j] == addr;
            }
        }
        false
    }

    /// Removes the block at `addr` from its order's free list.
    fn remove_free_block(&mut self, addr: usize, order: usize)
        requires
            old(self).free_lists@.len() == NUM_ORDERS,
            order < NUM_ORDERS,
            find_idx(lists(*old(self))[order as int], addr) >= 0,
        ensures
            final(self).free_lists@.len() == NUM_ORDERS,
            final(self).initialized == old(self).initialized,
            final(self).memory_start == old(self).memory_start,
            final(self).memory_size == old(self).memory_size,
            lists(*final(self)) == lists(*old(self)).update(
                order as int,
                lists(*old(self))[order as int].remove(
                    find_idx(lists(*old(self))[order as int], addr),
                ),
            ),
    {
        let ghost l = lists(*old(self))[order as int];
        proof {
            lemma_find_idx_props(l, addr);
        }
        let list = &self.free_lists[order];
        let n = list.len();
        let mut i: usize = 0;
        while i < n
            invariant
                n == l.len(),
                l == self.free_lists@[order as int]@,
                *self == *old(self),
                order < NUM_ORDERS,
                old(self).free_lists@.len() == NUM_ORDERS,
                i <= n,
                forall|k: int| 0 <= k < i ==> l[k] != addr,
                find_idx(l, addr) >= 0,
            decreases n - i,
        {
            if self.free_lists[order][i] == addr {
                proof {
                    lemma_find_idx_first_match(l, addr, i as int);
                }
                let _ = self.free_lists[order].remove(i);
                proof {
                    assert(lists(*self) =~= lists(*old(self)).update(
                        order as int,
                        l.remove(i as int),
                    ));
                }
                return ;
            }
            i = i + 1;
        }
        proof {
            lemma_find_idx_props(l, addr);
            assert(l[find_idx(l, addr)] == addr);
            assert(false);
        }
    }

    /// Deallocates the block at `ptr` that was allocated with the given
    /// `size` and `align` (the caller must pass the layout used at
    /// allocation time; the order is recomputed from it, as no per-block
    /// metadata is stored). The block merges with its buddy as long as the
    /// buddy is free, moving one order up each time, and the final block
    /// joins its order's free list. Calls before `init` or with a pointer
    /// outside the managed region do nothing.
    pub fn deallocate(&mut self, ptr: usize, size: usize, align: usize)
        requires
            buddy_wf(*old(self)),
            (old(self).initialized && old(self).memory_start <= ptr && ptr - old(
                self,
            ).memory_start < old(self).memory_size) ==> ({
                let q = request_order(size as int, align as int);
                &&& (ptr as int) % block_size(q) == 0
                &&& ptr + block_size(q) <= old(self).memory_start + old(self).memory_size
                &&& forall|o: int, i: int|
                    idx_ok(lists(*old(self)), o, i) ==> blocks_disjoint(
                        ptr as int,
                        q,
                        (#[trigger] lists(*old(self))[o][i]) as int,
                        o,
                    )
            }),
        ensures
            buddy_wf(*final(self)),
            final(self).initialized == old(self).initialized,
            final(self).memory_start == old(self).memory_start,
            final(self).memory_size == old(self).memory_size,
            !old(self).initialized ==> *final(self) == *old(self),
            (old(self).initialized && !(old(self).memory_start <= ptr && ptr - old(
                self,
            ).memory_start < old(self).memory_size)) ==> *final(self) == *old(self),
            (old(self).initialized && old(self).memory_start <= ptr && ptr - old(
                self,
            ).memory_start < old(self).memory_size) ==> ({
                let q = request_order(size as int, align as int);
                let mc = merge_chain(lists(*old(self)), ptr as int, q);
                lists(*final(self)) == push_at(mc.0, mc.2, mc.1 as usize)
            }),
    {
        if !self.initialized {
            return ;
        }
        if ptr < self.memory_start || ptr - self.memory_start >= self.memory_size {
            return ;
        }
        let ghost ls0 = lists(*old(self));
        let mut order = self.find_order_for_request(size, align);
        let mut block_addr = ptr;
        proof {
            lemma_block_size_bounds(order as int);
        }
        while order < NUM_ORDERS - 1
            invariant
                buddy_wf(*self),
                self.initialized,
                self.initialized == old(self).initialized,
                self.memory_start == old(self).memory_start,
                self.memory_size == old(self).memory_size,
                order < NUM_ORDERS,
                (block_addr as int) % block_size(order as int) == 0,
                block_in_region(*self, block_addr as int, order as int),
                forall|o: int, i: int|
                    idx_ok(lists(*self), o, i) ==> blocks_disjoint(
                        block_addr as int,
                        order as int,
                        (#[trigger] lists(*self)[o][i]) as int,
                        o,
                    ),
                merge_chain(ls0, ptr as int, request_order(size as int, align as int))
                    == merge_chain(lists(*self), block_addr as int, order as int),
            ensures
                order as int == NUM_ORDERS - 1 || find_idx(
                    lists(*self)[order as int],
                    (buddy_of(block_addr as int, order as int)) as usize,
                ) < 0,
            decreases NUM_ORDERS - order,
        {
            let ghost ls_pre = lists(*self);
            proof {
                lemma_block_size_bounds(order as int);
                lemma_buddy_arith(block_addr, order as int);
            }
            let buddy_addr = block_addr ^ self.order_size(order);
            proof {
                assert(buddy_addr as int == buddy_of(block_addr as int, order as int));
            }
            if !self.is_buddy_free(buddy_addr, order) {
                proof {
                    assert(find_idx(ls_pre[order as int], buddy_addr) < 0);
                }
                break ;
            }
            proof {
                lemma_find_idx_props(ls_pre[order as int], buddy_addr);
            }
            let ghost ri = find_idx(ls_pre[order as int], buddy_addr);
            self.remove_free_block(buddy_addr, order);
            let merged = if block_addr < buddy_addr {
                block_addr
            } else {
                buddy_addr
            };
            proof {
                let o = order as int;
                let lsn = lists(*self);
                assert(lsn == ls_pre.update(o, ls_pre[o].remove(ri)));
                assert(ls_pre[o][ri] == buddy_addr);
                assert(idx_ok(ls_pre, o, ri));
                // Facts about the buddy from the old invariant.
                assert((buddy_addr as int) % block_size(o) == 0 && block_in_region(
                    *self,
                    buddy_addr as int,
                    o,
                ));
                // The merged block: aligned one order up, contiguous union.
                assert((merged as int) % block_size(o + 1) == 0);
                assert(merged as int + block_size(o + 1) == (if block_addr < buddy_addr {
                    buddy_addr as int
                } else {
                    block_addr as int
                }) + block_size(o));
                assert(block_in_region(*self, merged as int, o + 1));
                // Every remaining block is disjoint from both halves.
                assert forall|o2: int, i2: int| idx_ok(lsn, o2, i2) implies blocks_disjoint(
                    merged as int,
                    o + 1,
                    (#[trigger] lsn[o2][i2]) as int,
                    o2,
                ) by {
                    let iold = if o2 == o && i2 >= ri {
                        i2 + 1
                    } else {
                        i2
                    };
                    assert(lsn[o2][i2] == ls_pre[o2][iold]);
                    assert(idx_ok(ls_pre, o2, iold));
                    assert(blocks_disjoint(
                        block_addr as int,
                        o,
                        ls_pre[o2][iold] as int,
                        o2,
                    ));
                    assert(!(o2 == o && iold == ri));
                    assert(blocks_disjoint(
                        buddy_addr as int,
                        o,
                        ls_pre[o2][iold] as int,
                        o2,
                    ));
                    lemma_block_size_bounds(o2);
                    lemma_block_size_bounds(o);
                }
                // Well-formedness survives the removal.
                assert(buddy_wf(*self)) by {
                    assert forall|o2: int, i2: int| idx_ok(lsn, o2, i2) implies ((
                    #[trigger] lsn[o2][i2]) as int) % block_size(o2) == 0 && block_in_region(
                        *self,
                        lsn[o2][i2] as int,
                        o2,
                    ) by {
                        let iold = if o2 == o && i2 >= ri {
                            i2 + 1
                        } else {
                            i2
                        };
                        assert(lsn[o2][i2] == ls_pre[o2][iold]);
                        assert(idx_ok(ls_pre, o2, iold));
                    }
                    assert forall|o1: int, i1: int, o2: int, i2: int|
                        idx_ok(lsn, o1, i1) && idx_ok(lsn, o2, i2) && !(o1 == o2 && i1 == i2)
                        implies blocks_disjoint(
                        (#[trigger] lsn[o1][i1]) as int,
                        o1,
                        (#[trigger] lsn[o2][i2]) as int,
                        o2,
                    ) by {
                        let j1 = if o1 == o && i1 >= ri {
                            i1 + 1
                        } else {
                            i1
                        };
                        let j2 = if o2 == o && i2 >= ri {
                            i2 + 1
                        } else {
                            i2
                        };
                        assert(lsn[o1][i1] == ls_pre[o1][j1] && lsn[o2][i2] == ls_pre[o2][j2]);
                        assert(idx_ok(ls_pre, o1, j1) && idx_ok(ls_pre, o2, j2));
                        assert(!(o1 == o2 && j1 == j2));
                    }
                    assert forall|o2: int, i1: int, i2: int|
                        0 <= o2 < NUM_ORDERS - 1 && 0 <= i1 < lsn[o2].len() && 0 <= i2 < lsn[o2].len() implies (#[trigger] lsn[o2][i2]) as int != buddy_of(
                        (#[trigger] lsn[o2][i1]) as int,
                        o2,
                    ) by {
                        let j1 = if o2 == o && i1 >= ri {
                            i1 + 1
                        } else {
                            i1
                        };
                        let j2 = if o2 == o && i2 >= ri {
                            i2 + 1
                        } else {
                            i2
                        };
                        assert(lsn[o2][i1] == ls_pre[o2][j1] && lsn[o2][i2] == ls_pre[o2][j2]);
                        assert(idx_ok(ls_pre, o2, j1) && idx_ok(ls_pre, o2, j2));
                    }
                }
                // The model merge takes the same step.
                assert(merge_chain(ls_pre, block_addr as int, o) == merge_chain(
                    lsn,
                    merged as int,
                    o + 1,
                ));
            }
            block_addr = merged;
            order = order + 1;
        }
        proof {
            lemma_block_size_bounds(order as int);
            if order < NUM_ORDERS - 1 {
                lemma_buddy_arith(block_addr, order as int);
            }
        }
        let ghost ls_fin = lists(*self);
        let ghost fo = order as int;
        self.add_free_block(block_addr, order);
        proof {
            let lsn = lists(*self);
            assert(lsn == push_at(ls_fin, fo, block_addr));
            let mc = merge_chain(ls0, ptr as int, request_order(size as int, align as int));
            assert(mc.0 == ls_fin && mc.1 == block_addr as int && mc.2 == fo) by {
                if fo < NUM_ORDERS - 1 {
                    assert(find_idx(ls_fin[fo], (buddy_of(block_addr as int, fo)) as usize) < 0);
                    assert(merge_chain(ls_fin, block_addr as int, fo) == (
                    ls_fin,
                    block_addr as int,
                    fo,
                    ));
                }
            }
            // Well-formedness of the final push.
            assert(buddy_wf(*self)) by {
                assert forall|o2: int, i2: int| idx_ok(lsn, o2, i2) implies ((
                #[trigger] lsn[o2][i2]) as int) % block_size(o2) == 0 && block_in_region(
                    *self,
                    lsn[o2][i2] as int,
                    o2,
                ) by {
                    if !(o2 == fo && i2 == ls_fin[fo].len()) {
                        assert(lsn[o2][i2] == ls_fin[o2][i2]);
                        assert(idx_ok(ls_fin, o2, i2));
                    }
                }
                assert forall|o1: int, i1: int, o2: int, i2: int|
                    idx_ok(lsn, o1, i1) && idx_ok(lsn, o2, i2) && !(o1 == o2 && i1 == i2)
                    implies blocks_disjoint(
                    (#[trigger] lsn[o1][i1]) as int,
                    o1,
                    (#[trigger] lsn[o2][i2]) as int,
                    o2,
                ) by {
                    if o1 == fo && i1 == ls_fin[fo].len() {
                        assert(lsn[o2][i2] == ls_fin[o2][i2] && idx_ok(ls_fin, o2, i2));
                    } else if o2 == fo && i2 == ls_fin[fo].len() {
                        assert(lsn[o1][i1] == ls_fin[o1][i1] && idx_ok(ls_fin, o1, i1));
                    } else {
                        assert(lsn[o1][i1] == ls_fin[o1][i1] && lsn[o2][i2] == ls_fin[o2][i2]);
                        assert(idx_ok(ls_fin, o1, i1) && idx_ok(ls_fin, o2, i2));
                    }
                }
                assert forall|o2: int, i1: int, i2: int|
                    0 <= o2 < NUM_ORDERS - 1 && 0 <= i1 < lsn[o2].len() && 0 <= i2 < lsn[o2].len()
                    implies (#[trigger] lsn[o2][i2]) as int != buddy_of(
                    (#[trigger] lsn[o2][i1]) as int,
                    o2,
                ) by {
                    let new1 = o2 == fo && i1 == ls_fin[fo].len();
                    let new2 = o2 == fo && i2 == ls_fin[fo].len();
                    if !new1 && !new2 {
                        assert(lsn[o2][i1] == ls_fin[o2][i1] && lsn[o2][i2] == ls_fin[o2][i2]);
                        assert(idx_ok(ls_fin, o2, i1) && idx_ok(ls_fin, o2, i2));
                    } else if new1 && new2 {
                        assert(lsn[o2][i1] == block_addr && lsn[o2][i2] == block_addr);
                        lemma_buddy_arith(block_addr, o2);
                    } else if new1 && !new2 {
                        assert(lsn[o2][i1] == block_addr && lsn[o2][i2] == ls_fin[o2][i2]);
                        assert(idx_ok(ls_fin, o2, i2));
                        lemma_buddy_arith(block_addr, o2);
                        lemma_find_idx_props(ls_fin[o2], (buddy_of(block_addr as int, o2)) as usize);
                        if ls_fin[o2][i2] as int == buddy_of(block_addr as int, o2) {
                            assert(ls_fin[o2].contains((buddy_of(block_addr as int, o2)) as usize));
                        }
                    } else {
                        assert(lsn[o2][i2] == block_addr && lsn[o2][i1] == ls_fin[o2][i1]);
                        assert(idx_ok(ls_fin, o2, i1));
                        lemma_buddy_arith(block_addr, o2);
                        lemma_buddy_arith(ls_fin[o2][i1], o2);
                        if block_addr as int == buddy_of(ls_fin[o2][i1] as int, o2) {
                            assert(ls_fin[o2][i1] as int == buddy_of(block_addr as int, o2));
                            lemma_find_idx_props(
                                ls_fin[o2],
                                (buddy_of(block_addr as int, o2)) as usize,
                            );
                            assert(ls_fin[o2].contains((buddy_of(block_addr as int, o2)) as usize));
                        }
                    }
                }
            }
        }
    }
}

} // verus!