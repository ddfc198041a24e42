//! First-fit heap allocator over a linked list of free blocks.
//!
//! The free list and the records of live allocations are held as owned
//! vectors of block records (the side-table form of headers stored in the
//! blocks themselves); the head of the free list is index 0. Over-aligned
//! requests are served only from blocks whose payload address already has
//! the requested alignment; an unaligned block is skipped, never adjusted.
//! Freed blocks return to the head of the free list; adjacent free blocks
//! are not coalesced.

use vstd::prelude::*;

verus! {

/// The minimum payload size, keeping blocks usefully sized.
pub const MIN_BLOCK_SIZE: usize = 16;

/// Bytes reserved for a block's on-target header (its size and free-list
/// link).
pub const HEADER_SIZE: usize = 16;

/// Alignment of the on-target header.
pub const HEADER_ALIGN: usize = 8;

/// One block record: where the block starts and how many bytes it spans,
/// header included.
#[derive(Copy, Clone, PartialEq, Eq, Structural, Debug)]
pub struct BlockHeader {
    /// Address of the block's header.
    pub addr: usize,
    /// Size of the block including the header.
    pub size: usize,
}

/// A block can serve a request of `total` bytes at payload alignment
/// `align`: it is large enough and its payload address is already aligned.
pub open spec fn block_fits(b: BlockHeader, total: int, align: int) -> bool {
    b.size >= total && align > 0 && ((b.addr + HEADER_SIZE) as int) % align == 0
}

/// Index of the first free block that fits, or -1.
pub open spec fn fit_idx(l: Seq<BlockHeader>, total: int, align: int) -> int
    decreases l.len(),
{
    if l.len() == 0 {
        -1
    } else if block_fits(l[0], total, align) {
        0
    } else {
        let r = fit_idx(l.drop_first(), total, align);
        if r < 0 {
            -1
        } else {
            r + 1
        }
    }
}

pub proof fn lemma_fit_idx_first(l: Seq<BlockHeader>, total: int, align: int, i: int)
    requires
        0 <= i < l.len(),
        block_fits(l[i], total, align),
        forall|k: int| 0 <= k < i ==> !block_fits(#[trigger] l[k], total, align),
    ensures
        fit_idx(l, total, align) == i,
    decreases i,
{
    if i > 0 {
        assert(l.drop_first()[i - 1] == l[i]);
        assert forall|k: int| 0 <= k < i - 1 implies !block_fits(
            #[trigger] l.drop_first()[k],
            total,
            align,
        ) by {
            assert(l.drop_first()[k] == l[k + 1]);
        }
        lemma_fit_idx_first(l.drop_first(), total, align, i - 1);
    }
}

pub proof fn lemma_fit_idx_none(l: Seq<BlockHeader>, total: int, align: int)
    requires
        forall|k: int| 0 <= k < l.len() ==> !block_fits(#[trigger] l[k], total, align),
    ensures
        fit_idx(l, total, align) == -1,
    decreases l.len(),
{
    if l.len() > 0 {
        assert forall|k: int| 0 <= k < l.drop_first().len() implies !block_fits(
            #[trigger] l.drop_first()[k],
            total,
            align,
        ) by {
            assert(l.drop_first()[k] == l[k + 1]);
        }
        lemma_fit_idx_none(l.drop_first(), total, align);
    }
}

/// Index of the first allocation record at `addr`, or -1.
pub open spec fn alloc_idx(l: Seq<BlockHeader>, addr: usize) -> int
    decreases l.len(),
{
    if l.len() == 0 {
        -1
    } else if l[0].addr == addr {
        0
    } else {
        let r = alloc_idx(l.drop_first(), addr);
        if r < 0 {
            -1
        } else {
            r + 1
        }
    }
}

pub proof fn lemma_alloc_idx_first(l: Seq<BlockHeader>, addr: usize, i: int)
    requires
        0 <= i < l.len(),
        l[i].addr == addr,
        forall|k: int| 0 <= k < i ==> (#[trigger] l[k]).addr != addr,
    ensures
        alloc_idx(l, addr) == i,
    decreases i,
{
    if i > 0 {
        assert(l.drop_first()[i - 1] == l[i]);
        assert forall|k: int| 0 <= k < i - 1 implies (#[trigger] l.drop_first()[k]).addr
            != addr by {
            assert(l.drop_first()[k] == l[k + 1]);
        }
        lemma_alloc_idx_first(l.drop_first(), addr, i - 1);
    }
}

/// Heap allocator state: explicit free list, records of live allocations,
/// and counters.
pub struct Heap {
    /// Free blocks; index 0 is the head of the list.
    pub free_list: Vec<BlockHeader>,
    /// One record per live allocation, holding the block size chosen at
    /// allocation time.
    pub allocated: Vec<BlockHeader>,
    /// Total size of the heap region given to `init`.
    pub total_size: usize,
    /// Number of live allocations.
    pub allocations: usize,
}

/// The allocation counter counts the live allocation records.
pub open spec fn heap_wf(h: Heap) -> bool {
    h.allocations == h.allocated@.len()
}

impl Heap {
    /// Creates a new empty heap.
    pub fn new() -> (r: Heap)
        ensures
            heap_wf(r),
            r.free_list@.len() == 0,
            r.allocated@.len() == 0,
            r.total_size == 0,
            r.allocations == 0,
    {
        Heap { free_list: Vec::new(), allocated: Vec::new(), total_size: 0, allocations: 0 }
    }

    /// Initializes the heap with the given memory region: one free block
    /// covering the whole region from the first header-aligned address.
    /// A region too small for a single header is ignored.
    pub fn init(&mut self, start_addr: usize, size: usize)
        requires
            heap_wf(*old(self)),
            start_addr + size + HEADER_ALIGN <= usize::MAX,
        ensures
            heap_wf(*final(self)),
            final(self).allocated@ == old(self).allocated@,
            ({
                let aligned_start = (((start_addr + HEADER_ALIGN - 1) as int) / (
                HEADER_ALIGN as int)) * (HEADER_ALIGN as int);
                if start_addr + size >= aligned_start + HEADER_SIZE {
                    final(self).free_list@ == old(self).free_list@.push(
                        BlockHeader {
                            addr: aligned_start as usize,
                            size: (start_addr + size - aligned_start) as usize,
                        },
                    ) && final(self).total_size == start_addr + size - aligned_start
                } else {
                    *final(self) == *old(self)
                }
            }),
    {
        let aligned_start = crate::buddy::align_up(start_addr, HEADER_ALIGN);
        let end_addr = start_addr + size;
        if end_addr < aligned_start || end_addr - aligned_start < HEADER_SIZE {
            proof {
                assert((((start_addr + HEADER_ALIGN - 1) as int) / (HEADER_ALIGN as int)) * (
                HEADER_ALIGN as int) == aligned_start) by (nonlinear_arith)
                    requires
                        (aligned_start as int) % (HEADER_ALIGN as int) == 0,
                        start_addr <= aligned_start < start_addr + HEADER_ALIGN,
                ;
            }
            return ;
        }
        let aligned_size = end_addr - aligned_start;
        self.free_list.push(BlockHeader { addr: aligned_start, size: aligned_size });
        self.total_size = aligned_size;
        proof {
            assert((((start_addr + HEADER_ALIGN - 1) as int) / (HEADER_ALIGN as int)) * (
            HEADER_ALIGN as int) == aligned_start) by (nonlinear_arith)
                requires
                    (aligned_start as int) % (HEADER_ALIGN as int) == 0,
                    start_addr <= aligned_start < start_addr + HEADER_ALIGN,
            ;
        }
    }

    /// Allocates memory: first fit over the free list. The needed span is
    /// the payload (at least the minimum block size) plus the header. A
    /// much larger block is split, the remainder going back to the head of
    /// the free list. Returns the payload address, or `None` when no block
    /// fits.
    pub fn allocate(&mut self, size: usize, align: usize) -> (r: Option<usize>)
        requires
            heap_wf(*old(self)),
            align >= 1,
            size + HEADER_SIZE <= usize::MAX,
            forall|k: int|
                0 <= k < old(self).free_list@.len() ==> (#[trigger] old(
                    self,
                ).free_list@[k]).addr + old(self).free_list@[k].size <= usize::MAX,
        ensures
            heap_wf(*final(self)),
            final(self).total_size == old(self).total_size,
            ({
                let total = (if size >= MIN_BLOCK_SIZE {
                    size as int
                } else {
                    MIN_BLOCK_SIZE as int
                }) + HEADER_SIZE;
                let fi = fit_idx(old(self).free_list@, total as int, align as int);
                if fi < 0 {
                    r is None && *final(self) == *old(self)
                } else {
                    let b = old(self).free_list@[fi];
                    let rest = old(self).free_list@.remove(fi);
                    &&& r == Some((b.addr + HEADER_SIZE) as usize)
                    &&& final(self).allocations == old(self).allocations + 1
                    &&& (if b.size - total > MIN_BLOCK_SIZE + HEADER_SIZE {
                        final(self).free_list@ == seq![
                            BlockHeader {
                                addr: (b.addr + total) as usize,
                                size: (b.size - total) as usize,
                            },
                        ] + rest && final(self).allocated@ == old(self).allocated@.push(
                            BlockHeader { addr: b.addr, size: total as usize },
                        )
                    } else {
                        final(self).free_list@ == rest && final(self).allocated@ == old(
                            self,
                        ).allocated@.push(BlockHeader { addr: b.addr, size: b.size })
                    })
                }
            }),
    {
        let payload = if size >= MIN_BLOCK_SIZE {
            size
        } else {
            MIN_BLOCK_SIZE
        };
        let total = payload + HEADER_SIZE;
        let ghost l = self.free_list@;
        let n = self.free_list.len();
        let mut i: usize = 0;
        while i < n
            invariant
                heap_wf(*self),
                *self == *old(self),
                l == self.free_list@,
                n == l.len(),
                i <= n,
                align >= 1,
                total == (if size >= MIN_BLOCK_SIZE {
                    size as int
                } else {
                    MIN_BLOCK_SIZE as int
                }) + HEADER_SIZE,
                forall|k: int|
                    0 <= k < l.len() ==> (#[trigger] l[k]).addr + l[k].size <= usize::MAX,
                forall|k: int| 0 <= k < i ==> !block_fits(#[trigger] l[k], total as int, align as int),
            decreases n - i,
        {
            let b = self.free_list[i];
            if b.size >= total && (b.addr + HEADER_SIZE) % align == 0 {
                proof {
                    lemma_fit_idx_first(l, total as int, align as int, i as int);
                }
                let removed = self.free_list.remove(i);
                let remaining_size = removed.size - total;
                if remaining_size > MIN_BLOCK_SIZE + HEADER_SIZE {
                    self.free_list.insert(0, BlockHeader {
                        addr: removed.addr + total,
                        size: remaining_size,
                    });
                    self.allocated.push(BlockHeader { addr: removed.addr, size: total });
                } else {
                    self.allocated.push(BlockHeader { addr: removed.addr, size: removed.size });
                }
                let live = self.allocated.len();
                self.allocations = live;
                proof {
                    assert(seq![
                        BlockHeader {
                            addr: (removed.addr + total) as usize,
                            size: (removed.size - total) as usize,
                        },
                    ] + l.remove(i as int) =~= self.free_list@ || self.free_list@ == l.remove(
                        i as int,
                    ));
                }
                return Some(removed.addr + HEADER_SIZE);
            }
            i = i + 1;
        }
        proof {
            lemma_fit_idx_none(l, total as int, align as int);
        }
        None
    }

    /// Deallocates a live allocation: its record leaves the allocation
    /// table and its block returns to the head of the free list. Adjacent
    /// free blocks are not coalesced.
    pub fn deallocate(&mut self, ptr: usize)
        requires
            heap_wf(*old(self)),
            ptr >= HEADER_SIZE,
            alloc_idx(old(self).allocated@, (ptr - HEADER_SIZE) as usize) >= 0,
        ensures
            heap_wf(*final(self)),
            final(self).total_size == old(self).total_size,
            final(self).allocations == old(self).allocations - 1,
            ({
                let ai = alloc_idx(old(self).allocated@, (ptr - HEADER_SIZE) as usize);
                final(self).allocated@ == old(self).allocated@.remove(ai)
                    && final(self).free_list@ == seq![old(self).allocated@[ai]] + old(
                    self,
                ).free_list@
            }),
    {
        let header_addr = ptr - HEADER_SIZE;
        let ghost l = self.allocated@;
        let n = self.allocated.len();
        let mut i: usize = 0;
        while i < n
            invariant
                *self == *old(self),
                heap_wf(*old(self)),
                l == self.allocated@,
                n == l.len(),
                i <= n,
                header_addr == ptr - HEADER_SIZE,
                alloc_idx(l, header_addr) >= 0,
                forall|k: int| 0 <= k < i ==> (#[trigger] l[k]).addr != header_addr,
            decreases n - i,
        {
            if self.allocated[i].addr == header_addr {
                proof {
                    lemma_alloc_idx_first(l, header_addr, i as int);
                }
                let record = self.allocated.remove(i);
                self.free_list.insert(0, record);
                let live = self.allocated.len();
                self.allocations = live;
                proof {
                    assert(self.allocated@ == l.remove(i as int));
                    assert(self.allocated@.len() == n - 1);
                    assert(old(self).allocations == n);
                    assert(self.free_list@ =~= seq![record] + old(self).free_list@);
                }
                return ;
            }
            i = i + 1;
        }
        proof {
            lemma_alloc_idx_bounds(l, header_addr);
            let ai = alloc_idx(l, header_addr);
            assert(0 <= ai < l.len() && l[ai].addr == header_addr);
            assert(false);
        }
    }

    /// Returns the total size of the heap.
    pub fn total_size(&self) -> (r: usize)
        ensures
            r == self.total_size,
    {
        self.total_size
    }

    /// Returns the current number of allocations.
    pub fn allocation_count(&self) -> (r: usize)
        ensures
            r == self.allocations,
    {
        self.allocations
    }
}

pub proof fn lemma_alloc_idx_bounds(l: Seq<BlockHeader>, addr: usize)
    ensures
        alloc_idx(l, addr) >= 0 ==> alloc_idx(l, addr) < l.len() && l[alloc_idx(l, addr)].addr
            == addr,
    decreases l.len(),
{
    if l.len() > 0 && l[0].addr != addr {
        lemma_alloc_idx_bounds(l.drop_first(), addr);
        if alloc_idx(l.drop_first(), addr) >= 0 {
            assert(l[alloc_idx(l.drop_first(), addr) + 1] == l.drop_first()[alloc_idx(
                l.drop_first(),
                addr,
            )]);
        }
    }
}

/// Aligns an address upward to the given alignment.
pub fn align_up(addr: usize, align: usize) -> (r: usize)
    requires
        align >= 1,
        addr + align <= usize::MAX,
    ensures
        (r as int) % (align as int) == 0,
        addr <= r < addr + align,
{
    crate::buddy::align_up(addr, align)
}

} // verus!
