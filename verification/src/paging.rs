//! Sv39 page-table construction, translation and teardown.
//!
//! The table tree is held in owned storage: every allocated table frame is an
//! element of `tables`, and `table_addrs` records the physical frame address
//! each table lives at, so an entry's physical page number can be resolved
//! back to owned storage without raw memory access. The embedded physical
//! frame allocator is a bump pointer plus an explicit list of free frame
//! addresses (the side-table form of a free list linked through free memory).

use vstd::prelude::*;

use crate::flags::VALID;
use crate::pte::{
    lemma_pte_make_fields, lemma_pte_zero, pte_is_leaf, pte_is_valid, pte_make, pte_ppn,
    PageTableEntry, FLAG_LIMIT, PPN_LIMIT,
};

verus! {

/// Size of one base page and of one table frame, in bytes.
pub const PAGE_SIZE: u64 = 4096;

/// Size of one megapage (a level-1 leaf mapping), in bytes.
pub const MEGAPAGE_SIZE: u64 = 0x20_0000;

/// One past the largest virtual address Sv39 translates (39 significant bits).
pub const VA_LIMIT: u64 = 0x80_0000_0000;

/// One past the largest physical address whose page number fits the 44-bit
/// entry field.
pub const PA_LIMIT: u64 = 0x100_0000_0000_0000;

/// Errors returned by the paging operations; none is fatal at this layer.
#[derive(Copy, Clone, PartialEq, Eq, Structural, Debug)]
pub enum MapError {
    /// An address was not a multiple of the requested page size.
    InvalidAlignment,
    /// The requested page size is neither 4KiB nor 2MiB.
    UnsupportedPageSize,
    /// The walked-to entry (at some level) is invalid.
    NotMapped,
    /// The root table has not been created yet.
    RootNotInitialized,
}

/// One level of the translation tree: a frame of 512 entries.
pub struct PageTable {
    pub entries: Vec<PageTableEntry>,
}

/// The virtual memory manager: owns the table tree and the embedded physical
/// frame allocator.
pub struct PageSystem {
    /// Index into `tables` of the root table, once `init` has run.
    pub root_page_table: Option<usize>,
    /// Owned storage for every allocated table frame.
    pub tables: Vec<PageTable>,
    /// The physical frame address of each element of `tables`.
    pub table_addrs: Vec<u64>,
    /// Bump pointer: the next never-allocated frame address.
    pub next_highest_page: u64,
    /// Addresses of freed frames, reused before the bump pointer moves.
    pub free_pages: Vec<u64>,
}

/// Level-0 (bottom) index of a virtual address: bits 12..=20.
pub open spec fn l0_index(va: u64) -> int {
    ((va >> 12) & 0x1FF) as int
}

/// Level-1 (middle) index of a virtual address: bits 21..=29.
pub open spec fn l1_index(va: u64) -> int {
    ((va >> 21) & 0x1FF) as int
}

/// Level-2 (root) index of a virtual address: bits 30..=38.
pub open spec fn l2_index(va: u64) -> int {
    ((va >> 30) & 0x1FF) as int
}

/// Index of the first element of `addrs` equal to `a`, or -1.
pub open spec fn addr_index(addrs: Seq<u64>, a: u64) -> int
    decreases addrs.len(),
{
    if addrs.len() == 0 {
        -1
    } else if addrs[0] == a {
        0
    } else {
        let r = addr_index(addrs.drop_first(), a);
        if r < 0 {
            -1
        } else {
            r + 1
        }
    }
}

pub proof fn lemma_addr_index_props(addrs: Seq<u64>, a: u64)
    ensures
        addr_index(addrs, a) >= 0 <==> addrs.contains(a),
        addr_index(addrs, a) >= 0 ==> addr_index(addrs, a) < addrs.len() && addrs[addr_index(
            addrs,
            a,
        )] == a,
    decreases addrs.len(),
{
    if addrs.len() > 0 && addrs[0] != a {
        lemma_addr_index_props(addrs.drop_first(), a);
        if addrs.drop_first().contains(a) {
            let j = choose|j: int| 0 <= j < addrs.drop_first().len() && addrs.drop_first()[j] == a;
            assert(addrs[j + 1] == a);
        }
        if addrs.contains(a) {
            let j = choose|j: int| 0 <= j < addrs.len() && addrs[j] == a;
            assert(j >= 1 && addrs.drop_first()[j - 1] == a);
        }
    }
}

pub proof fn lemma_addr_index_push(addrs: Seq<u64>, a: u64, b: u64)
    ensures
        addrs.contains(a) ==> addr_index(addrs.push(b), a) == addr_index(addrs, a),
        !addrs.contains(a) && a == b ==> addr_index(addrs.push(b), a) == addrs.len(),
        !addrs.contains(a) && a != b ==> addr_index(addrs.push(b), a) == -1,
    decreases addrs.len(),
{
    lemma_addr_index_props(addrs, a);
    lemma_addr_index_props(addrs.push(b), a);
    if addrs.len() == 0 {
        assert(addrs.push(b)[0] == b);
        if a == b {
            assert(addr_index(addrs.push(b), a) == 0);
        }
    } else {
        assert(addrs.push(b)[0] == addrs[0]);
        assert(addrs.push(b).drop_first() =~= addrs.drop_first().push(b));
        lemma_addr_index_push(addrs.drop_first(), a, b);
        if addrs[0] != a {
            if addrs.contains(a) {
                let j = choose|j: int| 0 <= j < addrs.len() && addrs[j] == a;
                assert(addrs.drop_first()[j - 1] == a);
            }
            if addrs.drop_first().contains(a) {
                let j = choose|j: int|
                    0 <= j < addrs.drop_first().len() && addrs.drop_first()[j] == a;
                assert(addrs[j + 1] == a);
            }
        }
    }
}

/// Index of the root table in `tables` (meaningful when the root exists).
pub open spec fn root_idx(s: PageSystem) -> int {
    s.root_page_table.unwrap() as int
}

/// Physical frame address of the root table.
pub open spec fn root_addr(s: PageSystem) -> u64 {
    s.table_addrs@[root_idx(s)]
}

/// Whether a table frame at address `a` is owned by the system.
pub open spec fn has_table(s: PageSystem, a: u64) -> bool {
    s.table_addrs@.contains(a)
}

/// The entries of the owned table at frame address `a`.
pub open spec fn table_at(s: PageSystem, a: u64) -> Seq<PageTableEntry> {
    s.tables@[addr_index(s.table_addrs@, a)].entries@
}

/// The root-table entry word at level-2 index `i2`.
pub open spec fn re(s: PageSystem, i2: int) -> u64 {
    s.tables@[root_idx(s)].entries@[i2].0
}

/// Frame address the root entry at `i2` points to.
pub open spec fn child_addr(s: PageSystem, i2: int) -> u64 {
    pte_ppn(re(s, i2)) << 12
}

/// The middle-level entry word on the path `(i2, i1)`.
pub open spec fn ae(s: PageSystem, i2: int, i1: int) -> u64 {
    table_at(s, child_addr(s, i2))[i1].0
}

/// Frame address the middle-level entry at `(i2, i1)` points to.
pub open spec fn gchild_addr(s: PageSystem, i2: int, i1: int) -> u64 {
    pte_ppn(ae(s, i2, i1)) << 12
}

/// The bottom-level entry word on the path `(i2, i1, i0)`.
pub open spec fn ge(s: PageSystem, i2: int, i1: int, i0: int) -> u64 {
    table_at(s, gchild_addr(s, i2, i1))[i0].0
}

/// The root entry at `i2` is a valid pointer (guard for the level-1 clauses).
pub open spec fn c_ok(s: PageSystem, i2: int) -> bool {
    0 <= i2 < 512 && pte_is_valid(re(s, i2))
}

/// The middle entry at `(i2, i1)` is a valid non-leaf pointer (guard for the
/// level-0 clauses).
pub open spec fn g_ok(s: PageSystem, i2: int, i1: int) -> bool {
    c_ok(s, i2) && 0 <= i1 < 512 && pte_is_valid(ae(s, i2, i1)) && !pte_is_leaf(ae(s, i2, i1))
}

/// What one walk of the tree yields for `va`: `None` when any level on the
/// path is invalid, the physical address otherwise. A valid middle-level
/// entry with permission bits is a 2MiB leaf and ends the walk there.
pub open spec fn translate_spec(s: PageSystem, va: u64) -> Option<u64> {
    if s.root_page_table is None {
        None
    } else {
        let i2 = l2_index(va);
        let e2 = re(s, i2);
        if !pte_is_valid(e2) || pte_is_leaf(e2) || !has_table(s, child_addr(s, i2)) {
            None
        } else {
            let i1 = l1_index(va);
            let e1 = ae(s, i2, i1);
            if !pte_is_valid(e1) {
                None
            } else if pte_is_leaf(e1) {
                Some((pte_ppn(e1) << 12) | (va & 0x1F_FFFF))
            } else if !has_table(s, gchild_addr(s, i2, i1)) {
                None
            } else {
                let e0 = ge(s, i2, i1, l0_index(va));
                if !pte_is_valid(e0) {
                    None
                } else {
                    Some((pte_ppn(e0) << 12) | (va & 0xFFF))
                }
            }
        }
    }
}

/// Whether `va` currently translates through a 2MiB leaf at the middle level.
pub open spec fn megapage_at(s: PageSystem, va: u64) -> bool {
    &&& s.root_page_table is Some
    &&& pte_is_valid(re(s, l2_index(va)))
    &&& !pte_is_leaf(re(s, l2_index(va)))
    &&& has_table(s, child_addr(s, l2_index(va)))
    &&& pte_is_valid(ae(s, l2_index(va), l1_index(va)))
    &&& pte_is_leaf(ae(s, l2_index(va), l1_index(va)))
}

/// The checks `map` performs before it touches the tree: a supported page
/// size, an initialized root, and both addresses multiples of the page size.
pub open spec fn map_checks_pass(s: PageSystem, virt_addr: u64, phys_addr: u64, page_size: u64) -> bool {
    &&& (page_size == PAGE_SIZE || page_size == MEGAPAGE_SIZE)
    &&& s.root_page_table is Some
    &&& virt_addr % page_size == 0
    &&& phys_addr % page_size == 0
}

/// A table frame is 512 entries.
pub open spec fn table_wf(t: PageTable) -> bool {
    t.entries@.len() == 512
}

/// A frame address handed out by the frame allocator: page-aligned and below
/// the bump pointer.
pub open spec fn frame_addr_ok(a: u64, bump: u64) -> bool {
    a % 4096 == 0 && a + 4096 <= bump
}

/// Bookkeeping invariant of the frame allocator and table storage.
pub open spec fn frames_wf(s: PageSystem) -> bool {
    &&& s.tables@.len() == s.table_addrs@.len()
    &&& forall|i: int| 0 <= i < s.tables@.len() ==> table_wf(#[trigger] s.tables@[i])
    &&& forall|i: int|
        0 <= i < s.table_addrs@.len() ==> frame_addr_ok(
            #[trigger] s.table_addrs@[i],
            s.next_highest_page,
        )
    &&& forall|i: int, j: int|
        #![trigger s.table_addrs@[i], s.table_addrs@[j]]
        0 <= i < j < s.table_addrs@.len() ==> s.table_addrs@[i] != s.table_addrs@[j]
    &&& s.next_highest_page % 4096 == 0
    &&& s.next_highest_page <= PA_LIMIT
    &&& forall|i: int|
        0 <= i < s.free_pages@.len() ==> frame_addr_ok(
            #[trigger] s.free_pages@[i],
            s.next_highest_page,
        )
    &&& forall|i: int|
        0 <= i < s.free_pages@.len() ==> !s.table_addrs@.contains(#[trigger] s.free_pages@[i])
    &&& forall|i: int, j: int|
        #![trigger s.free_pages@[i], s.free_pages@[j]]
        0 <= i < j < s.free_pages@.len() ==> s.free_pages@[i] != s.free_pages@[j]
}

/// Structural invariant of the tree reachable from the root: valid root
/// entries are pointers to distinct owned level-1 tables, valid non-leaf
/// middle entries are pointers to distinct owned level-0 tables, and no
/// pointer targets the root or crosses levels.
pub open spec fn tree_wf(s: PageSystem) -> bool {
    match s.root_page_table {
        Option::None => true,
        Option::Some(r) => {
            &&& (r as int) < s.tables@.len()
            &&& forall|i2: int|
                c_ok(s, i2) ==> {
                    &&& !pte_is_leaf(#[trigger] re(s, i2))
                    &&& has_table(s, child_addr(s, i2))
                    &&& child_addr(s, i2) != root_addr(s)
                }
            &&& forall|i2: int, j2: int|
                c_ok(s, i2) && c_ok(s, j2) && i2 != j2 ==> #[trigger] child_addr(s, i2)
                    != #[trigger] child_addr(s, j2)
            &&& forall|i2: int, i1: int|
                #[trigger] g_ok(s, i2, i1) ==> {
                    &&& has_table(s, gchild_addr(s, i2, i1))
                    &&& gchild_addr(s, i2, i1) != root_addr(s)
                    &&& forall|j2: int|
                        c_ok(s, j2) ==> gchild_addr(s, i2, i1) != #[trigger] child_addr(s, j2)
                }
            &&& forall|i2: int, i1: int, j2: int, j1: int|
                g_ok(s, i2, i1) && g_ok(s, j2, j1) && !(i2 == j2 && i1 == j1)
                    ==> #[trigger] gchild_addr(s, i2, i1) != #[trigger] gchild_addr(s, j2, j1)
        },
    }
}

/// Full well-formedness of the page system.
pub open spec fn wf(s: PageSystem) -> bool {
    frames_wf(s) && tree_wf(s)
}

impl PageSystem {
    /// Creates a new page system whose frame allocator starts handing out
    /// frames at `first_frame`. Must be initialized with `init` before the
    /// mapping operations are used.
    pub fn new(first_frame: u64) -> (r: PageSystem)
        requires
            first_frame % 4096 == 0,
            first_frame <= PA_LIMIT,
        ensures
            wf(r),
            r.root_page_table is None,
            r.tables@.len() == 0,
            r.free_pages@.len() == 0,
            r.next_highest_page == first_frame,
    {
        PageSystem {
            root_page_table: None,
            tables: Vec::new(),
            table_addrs: Vec::new(),
            next_highest_page: first_frame,
            free_pages: Vec::new(),
        }
    }

    /// Check if an address is page-aligned.
    pub fn is_page_aligned(&self, addr: u64) -> (r: bool)
        ensures
            r == (addr % PAGE_SIZE == 0),
    {
        addr % PAGE_SIZE == 0
    }

    /// Splits a virtual address into its three 9-bit table indices,
    /// bottom level first.
    pub fn get_table_indices(&self, virt_addr: u64) -> (r: [u64; 3])
        ensures
            r[0] == l0_index(virt_addr),
            r[1] == l1_index(virt_addr),
            r[2] == l2_index(virt_addr),
    {
        [(virt_addr >> 12) & 0x1FF, (virt_addr >> 21) & 0x1FF, (virt_addr >> 30) & 0x1FF]
    }

    /// Allocate a frame: pop the free list if it is non-empty, else take the
    /// bump pointer and advance it by one frame.
    fn alloc_page(&mut self) -> (r: u64)
        requires
            frames_wf(*old(self)),
            old(self).next_highest_page + 4096 <= PA_LIMIT,
        ensures
            frames_wf(*final(self)),
            final(self).root_page_table == old(self).root_page_table,
            final(self).tables@ == old(self).tables@,
            final(self).table_addrs@ == old(self).table_addrs@,
            r % 4096 == 0,
            r + 4096 <= final(self).next_highest_page,
            !old(self).table_addrs@.contains(r),
            !final(self).free_pages@.contains(r),
            old(self).next_highest_page <= final(self).next_highest_page <= old(
                self,
            ).next_highest_page + 4096,
            if old(self).free_pages@.len() > 0 {
                r == old(self).free_pages@.last() && final(self).free_pages@ == old(
                    self,
                ).free_pages@.drop_last() && final(self).next_highest_page == old(
                    self,
                ).next_highest_page
            } else {
                r == old(self).next_highest_page && final(self).free_pages@ == old(
                    self,
                ).free_pages@ && final(self).next_highest_page == old(self).next_highest_page
                    + 4096
            },
    {
        if self.free_pages.len() > 0 {
            let r = self.free_pages.pop().unwrap();
            proof {
                assert(old(self).free_pages@.last() == old(self).free_pages@[old(
                    self,
                ).free_pages@.len() - 1]);
                assert forall|i: int| 0 <= i < self.free_pages@.len() implies self.free_pages@[i]
                    != r by {
                    assert(old(self).free_pages@[i] != old(self).free_pages@[old(
                        self,
                    ).free_pages@.len() - 1]);
                }
            }
            r
        } else {
            let r = self.next_highest_page;
            self.next_highest_page = self.next_highest_page + 4096;
            proof {
                assert forall|i: int| 0 <= i < self.table_addrs@.len() implies self.table_addrs@[i]
                    != r by {
                    assert(frame_addr_ok(self.table_addrs@[i], old(self).next_highest_page));
                }
                if self.table_addrs@.contains(r) {
                    let j = choose|j: int|
                        0 <= j < self.table_addrs@.len() && self.table_addrs@[j] == r;
                }
            }
            r
        }
    }

    /// Allocate a frame and install an owned zero-filled table at it, so
    /// that unmapped entries in the fresh table read as invalid by
    /// construction. Returns the new frame's address; the new table is the
    /// last element of `tables`.
    fn alloc_zeroed_page(&mut self) -> (r: u64)
        requires
            wf(*old(self)),
            old(self).next_highest_page + 4096 <= PA_LIMIT,
        ensures
            wf(*final(self)),
            final(self).root_page_table == old(self).root_page_table,
            final(self).tables@.len() == old(self).tables@.len() + 1,
            forall|i: int|
                0 <= i < old(self).tables@.len() ==> final(self).tables@[i] == old(
                    self,
                ).tables@[i],
            final(self).table_addrs@ == old(self).table_addrs@.push(r),
            !old(self).table_addrs@.contains(r),
            r % 4096 == 0,
            r + 4096 <= final(self).next_highest_page,
            addr_index(final(self).table_addrs@, r) == old(self).tables@.len(),
            forall|k: int| 0 <= k < 512 ==> final(self).tables@.last().entries@[k].0 == 0,
            table_wf(final(self).tables@.last()),
            old(self).next_highest_page <= final(self).next_highest_page <= old(
                self,
            ).next_highest_page + 4096,
            // The frame is chosen by `alloc_page`'s pop-else-bump policy.
            if old(self).free_pages@.len() > 0 {
                r == old(self).free_pages@.last() && final(self).free_pages@ == old(
                    self,
                ).free_pages@.drop_last() && final(self).next_highest_page == old(
                    self,
                ).next_highest_page
            } else {
                r == old(self).next_highest_page && final(self).free_pages@ == old(
                    self,
                ).free_pages@ && final(self).next_highest_page == old(self).next_highest_page
                    + 4096
            },
            forall|va: u64|
                translate_spec(*final(self), va) == translate_spec(*old(self), va),
            forall|va: u64| megapage_at(*final(self), va) == megapage_at(*old(self), va),
            old(self).root_page_table is Some ==> {
                &&& root_addr(*final(self)) == root_addr(*old(self))
                &&& forall|i2: int| re(*final(self), i2) == #[trigger] re(*old(self), i2)
                &&& forall|i2: int, i1: int|
                    c_ok(*old(self), i2) ==> ae(*final(self), i2, i1) == #[trigger] ae(
                        *old(self),
                        i2,
                        i1,
                    )
                &&& forall|i2: int, i1: int, i0: int|
                    g_ok(*old(self), i2, i1) ==> ge(*final(self), i2, i1, i0) == #[trigger] ge(
                        *old(self),
                        i2,
                        i1,
                        i0,
                    )
            },
    {
        let addr = self.alloc_page();
        let mut entries: Vec<PageTableEntry> = Vec::new();
        let mut k: usize = 0;
        while k < 512
            invariant
                k <= 512,
                entries@.len() == k,
                forall|j: int| 0 <= j < k ==> entries@[j].0 == 0,
            decreases 512 - k,
        {
            entries.push(PageTableEntry(0));
            k = k + 1;
        }
        self.tables.push(PageTable { entries });
        self.table_addrs.push(addr);
        proof {
            let s1 = *old(self);
            let s2 = *self;
            assert(s2.table_addrs@.last() == addr);
            lemma_addr_index_props(s1.table_addrs@, addr);
            lemma_addr_index_push(s1.table_addrs@, addr, addr);
            assert forall|i: int| 0 <= i < s2.table_addrs@.len() implies frame_addr_ok(
                #[trigger] s2.table_addrs@[i],
                s2.next_highest_page,
            ) by {
                if i < s1.table_addrs@.len() {
                    assert(frame_addr_ok(s1.table_addrs@[i], s1.next_highest_page));
                }
            }
            assert forall|i: int, j: int|
                #![trigger s2.table_addrs@[i], s2.table_addrs@[j]]
                0 <= i < j < s2.table_addrs@.len() implies s2.table_addrs@[i]
                != s2.table_addrs@[j] by {
                if j == s1.table_addrs@.len() {
                    assert(!s1.table_addrs@.contains(addr));
                    assert(s1.table_addrs@[i] == s2.table_addrs@[i]);
                }
            }
            assert forall|i: int| 0 <= i < s2.free_pages@.len() implies !s2.table_addrs@.contains(
                #[trigger] s2.free_pages@[i],
            ) by {
                assert(!s1.table_addrs@.contains(s2.free_pages@[i]));
                if s2.table_addrs@.contains(s2.free_pages@[i]) {
                    let j = choose|j: int|
                        0 <= j < s2.table_addrs@.len() && s2.table_addrs@[j] == s2.free_pages@[i];
                    assert(j == s1.table_addrs@.len());
                }
            }
            assert(frames_wf(s2));
            lemma_push_table_preserves(s1, s2);
        }
        addr
    }

    /// Initialize the page system: allocates and zero-fills the root table.
    /// Must be called once, before any mapping operation; afterwards every
    /// address translates as unmapped.
    pub fn init(&mut self)
        requires
            wf(*old(self)),
            old(self).root_page_table is None,
            old(self).next_highest_page + 4096 <= PA_LIMIT,
        ensures
            wf(*final(self)),
            final(self).root_page_table is Some,
            forall|va: u64| translate_spec(*final(self), va) is None,
            forall|va: u64| !megapage_at(*final(self), va),
            old(self).next_highest_page <= final(self).next_highest_page <= old(
                self,
            ).next_highest_page + 4096,
    {
        let _addr = self.alloc_zeroed_page();
        let idx = self.tables.len() - 1;
        self.root_page_table = Some(idx);
        proof {
            let s = *self;
            assert(root_idx(s) == s.tables@.len() - 1);
            assert forall|i2: int| !c_ok(s, i2) by {
                if 0 <= i2 < 512 {
                    assert(re(s, i2) == 0);
                    lemma_pte_zero();
                }
            }
            assert(tree_wf(s));
            assert forall|va: u64| translate_spec(s, va) is None by {
                assert(re(s, l2_index(va)) == s.tables@.last().entries@[l2_index(va)].0);
                lemma_index_ranges(va);
                assert(re(s, l2_index(va)) == 0);
                lemma_pte_zero();
            }
            assert forall|va: u64| !megapage_at(s, va) by {
                lemma_index_ranges(va);
                assert(re(s, l2_index(va)) == 0);
                lemma_pte_zero();
            }
        }
    }

    /// Find or create the next-level table behind `parent`'s entry at
    /// `index`: if the entry is invalid, allocate a new zero-filled table,
    /// install it with the valid flag and return it; if it is valid, decode
    /// the stored physical page number and return the existing table. This
    /// create-on-demand step is the core tree-population algorithm. No
    /// translation changes either way.
    pub(crate) fn get_or_create_table(&mut self, parent: usize, index: usize) -> (child: usize)
        requires
            wf(*old(self)),
            old(self).root_page_table is Some,
            (parent as int) < old(self).tables@.len(),
            index < 512,
            old(self).next_highest_page + 4096 <= PA_LIMIT,
            !pte_is_leaf(old(self).tables@[parent as int].entries@[index as int].0),
            pte_is_valid(old(self).tables@[parent as int].entries@[index as int].0)
                ==> has_table(
                *old(self),
                pte_ppn(old(self).tables@[parent as int].entries@[index as int].0) << 12,
            ),
            parent_is_upper(*old(self), parent),
        ensures
            wf(*final(self)),
            final(self).root_page_table == old(self).root_page_table,
            (child as int) < final(self).tables@.len(),
            final(self).tables@.len() == final(self).table_addrs@.len(),
            old(self).tables@.len() <= final(self).tables@.len() <= old(self).tables@.len() + 1,
            forall|i: int|
                0 <= i < old(self).table_addrs@.len() ==> final(self).table_addrs@[i] == old(
                    self,
                ).table_addrs@[i],
            old(self).next_highest_page <= final(self).next_highest_page <= old(
                self,
            ).next_highest_page + 4096,
            pte_is_valid(final(self).tables@[parent as int].entries@[index as int].0),
            !pte_is_leaf(final(self).tables@[parent as int].entries@[index as int].0),
            (pte_ppn(final(self).tables@[parent as int].entries@[index as int].0) << 12)
                == final(self).table_addrs@[child as int],
            addr_index(
                final(self).table_addrs@,
                pte_ppn(final(self).tables@[parent as int].entries@[index as int].0) << 12,
            ) == child as int,
            pte_is_valid(old(self).tables@[parent as int].entries@[index as int].0)
                ==> *final(self) == *old(self),
            !pte_is_valid(old(self).tables@[parent as int].entries@[index as int].0) ==> {
                &&& final(self).tables@.len() == old(self).tables@.len() + 1
                &&& child as int == old(self).tables@.len()
                &&& forall|k: int|
                    0 <= k < 512 ==> final(self).tables@[child as int].entries@[k].0 == 0
                &&& !old(self).table_addrs@.contains(final(self).table_addrs@[child as int])
                // The installed pointer word is exactly the fresh frame's
                // page number with the valid flag alone.
                &&& final(self).tables@[parent as int].entries@[index as int].0 == pte_make(
                    final(self).table_addrs@[child as int] >> 12,
                    VALID,
                )
            },
            forall|t: int, k: int|
                0 <= t < old(self).tables@.len() && 0 <= k < 512 && !(t == parent as int && k
                    == index as int) ==> final(self).tables@[t].entries@[k] == old(
                    self,
                ).tables@[t].entries@[k],
            forall|va: u64| translate_spec(*final(self), va) == translate_spec(*old(self), va),
            forall|va: u64| megapage_at(*final(self), va) == megapage_at(*old(self), va),
    {
        let ghost s0 = *old(self);
        proof {
            assert(table_wf(s0.tables@[parent as int]));
        }
        let e = self.tables[parent].entries[index];
        if !e.is_valid() {
            let addr = self.alloc_zeroed_page();
            let ghost s1 = *self;
            let child = self.tables.len() - 1;
            let mut ne = PageTableEntry::new();
            ne.set_address(addr, VALID);
            proof {
                lemma_frame_ppn_roundtrip(addr);
                assert(ne == PageTableEntry(pte_make(addr >> 12, VALID)));
            }
            self.tables[parent].entries[index] = ne;
            proof {
                let s2 = *self;
                assert(root_idx(s1) == root_idx(s0) && root_idx(s0) < s0.tables@.len());
                assert(s1.tables@[root_idx(s1)] == s0.tables@[root_idx(s0)]);
                assert(s1.tables@[parent as int] == s0.tables@[parent as int]);
                assert(!pte_is_valid(s1.tables@[parent as int].entries@[index as int].0));
                // The fresh frame is no table the tree reaches.
                assert(root_addr(s1) != addr) by {
                    assert(s0.table_addrs@[root_idx(s0)] == root_addr(s0));
                    assert(s0.table_addrs@.contains(root_addr(s0)));
                    assert(root_addr(s1) == root_addr(s0));
                }
                assert forall|j2: int| c_ok(s1, j2) implies #[trigger] child_addr(s1, j2)
                    != addr by {
                    assert(re(s1, j2) == re(s0, j2));
                    assert(c_ok(s0, j2));
                    assert(has_table(s0, child_addr(s0, j2)));
                }
                assert forall|j2: int, j1: int| g_ok(s1, j2, j1) implies #[trigger] gchild_addr(
                    s1,
                    j2,
                    j1,
                ) != addr by {
                    assert(re(s1, j2) == re(s0, j2));
                    assert(c_ok(s0, j2));
                    assert(ae(s1, j2, j1) == ae(s0, j2, j1));
                    assert(g_ok(s0, j2, j1));
                    assert(has_table(s0, gchild_addr(s0, j2, j1)));
                    assert(gchild_addr(s1, j2, j1) == gchild_addr(s0, j2, j1));
                }
                assert(parent as int == root_idx(s1) || (exists|i2: int|
                    c_ok(s1, i2) && child_addr(s1, i2) == s1.table_addrs@[parent as int])) by {
                    if parent as int != root_idx(s0) {
                        let i2w = choose|i2: int|
                            c_ok(s0, i2) && child_addr(s0, i2) == s0.table_addrs@[parent as int];
                        assert(re(s1, i2w) == re(s0, i2w));
                        assert(c_ok(s1, i2w) && child_addr(s1, i2w)
                            == s1.table_addrs@[parent as int]);
                    }
                }
                lemma_install_pointer(s1, s2, parent as int, index as int, addr);
                lemma_pte_make_fields(addr >> 12, VALID);
                assert(0x01u64 & 0x01 != 0 && 0x01u64 & (0x02u64 | 0x04 | 0x08) == 0)
                    by (bit_vector);
                assert(s2.tables@[parent as int].entries@[index as int].0 == pte_make(
                    addr >> 12,
                    VALID,
                ));
                assert(pte_ppn(pte_make(addr >> 12, VALID)) << 12 == addr);
                assert(s2.table_addrs@[child as int] == addr);
                assert(addr_index(s2.table_addrs@, addr) == child as int);
                assert forall|k: int| 0 <= k < 512 implies s2.tables@[child as int].entries@[k].0
                    == 0 by {
                    assert(s2.tables@[child as int] == s1.tables@[child as int]);
                    assert(s1.tables@[child as int] == s1.tables@.last());
                }
            }
            child
        } else {
            let ppn = e.get_ppn();
            let addr = ppn << 12;
            let r = self.find_table(addr);
            proof {
                assert(has_table(s0, pte_ppn(e.0) << 12));
                assert(r is Some);
            }
            let child = match r {
                Some(j) => j,
                None => 0,
            };
            child
        }
    }

    /// Maps a virtual address to a physical address with the given page size
    /// (4KiB or 2MiB) and flag bits.
    ///
    /// For 4KiB the walk descends through the two upper levels, creating
    /// tables as needed, and writes the leaf at the bottom level. For 2MiB it
    /// descends only to the middle level and writes a leaf there directly;
    /// the alignment check already forces the low nine bits of the stored
    /// page number to zero. On success the whole page (or megapage) around
    /// `virt_addr` translates to the page around `phys_addr`, offset for
    /// offset, and no other translation changes.
    pub fn map(
        &mut self,
        virt_addr: u64,
        phys_addr: u64,
        page_size: u64,
        flag_bits: u64,
    ) -> (r: Result<(), MapError>)
        requires
            wf(*old(self)),
            virt_addr < VA_LIMIT,
            phys_addr < PA_LIMIT,
            flag_bits < FLAG_LIMIT,
            flag_bits & VALID != 0,
            page_size == MEGAPAGE_SIZE ==> flag_bits & (crate::flags::READABLE
                | crate::flags::WRITABLE | crate::flags::EXECUTABLE) != 0,
            map_checks_pass(*old(self), virt_addr, phys_addr, page_size) ==> old(
                self,
            ).next_highest_page + 2 * 4096 <= PA_LIMIT,
            (page_size == PAGE_SIZE && map_checks_pass(*old(self), virt_addr, phys_addr, page_size))
                ==> !megapage_at(*old(self), virt_addr),
        ensures
            wf(*final(self)),
            final(self).root_page_table == old(self).root_page_table,
            old(self).next_highest_page <= final(self).next_highest_page <= old(
                self,
            ).next_highest_page + 2 * 4096,
            final(self).table_addrs@.len() <= old(self).table_addrs@.len() + 2,
            r is Ok <==> map_checks_pass(*old(self), virt_addr, phys_addr, page_size),
            r == Err::<(), MapError>(MapError::UnsupportedPageSize) <==> !(page_size == PAGE_SIZE
                || page_size == MEGAPAGE_SIZE),
            r == Err::<(), MapError>(MapError::RootNotInitialized) <==> ((page_size == PAGE_SIZE
                || page_size == MEGAPAGE_SIZE) && old(self).root_page_table is None),
            r == Err::<(), MapError>(MapError::InvalidAlignment) <==> ((page_size == PAGE_SIZE
                || page_size == MEGAPAGE_SIZE) && old(self).root_page_table is Some && !(virt_addr
                % page_size == 0 && phys_addr % page_size == 0)),
            r is Err ==> *final(self) == *old(self),
            r is Ok && page_size == PAGE_SIZE ==> {
                &&& forall|va: u64|
                    va < VA_LIMIT && va >> 12 == virt_addr >> 12 ==> translate_spec(
                        *final(self),
                        va,
                    ) == Some((phys_addr + (va & 0xFFF)) as u64)
                &&& forall|va: u64|
                    va < VA_LIMIT && va >> 12 != virt_addr >> 12 ==> translate_spec(
                        *final(self),
                        va,
                    ) == translate_spec(*old(self), va)
                &&& forall|va: u64|
                    va < VA_LIMIT && va >> 21 == virt_addr >> 21 ==> !megapage_at(*final(self), va)
                &&& forall|va: u64|
                    va < VA_LIMIT && va >> 21 != virt_addr >> 21 ==> megapage_at(*final(self), va)
                        == megapage_at(*old(self), va)
            },
            r is Ok && page_size == MEGAPAGE_SIZE ==> {
                // Exactly one middle-level leaf carries the megapage; its
                // stored page number is the aligned physical page number,
                // low nine bits zero by the alignment check.
                &&& ae(*final(self), l2_index(virt_addr), l1_index(virt_addr)) == pte_make(
                    phys_addr >> 12,
                    flag_bits,
                )
                &&& pte_ppn(ae(*final(self), l2_index(virt_addr), l1_index(virt_addr))) & 0x1FF
                    == 0
                &&& forall|va: u64|
                    va < VA_LIMIT && va >> 21 == virt_addr >> 21 ==> translate_spec(
                        *final(self),
                        va,
                    ) == Some((phys_addr + (va & 0x1F_FFFF)) as u64)
                &&& forall|va: u64|
                    va < VA_LIMIT && va >> 21 != virt_addr >> 21 ==> translate_spec(
                        *final(self),
                        va,
                    ) == translate_spec(*old(self), va)
                &&& forall|va: u64|
                    va < VA_LIMIT && va >> 21 == virt_addr >> 21 ==> megapage_at(*final(self), va)
                &&& forall|va: u64|
                    va < VA_LIMIT && va >> 21 != virt_addr >> 21 ==> megapage_at(*final(self), va)
                        == megapage_at(*old(self), va)
            },
    {
        let ghost s0 = *old(self);
        if page_size != PAGE_SIZE && page_size != MEGAPAGE_SIZE {
            return Err(MapError::UnsupportedPageSize);
        }
        let root = match self.root_page_table {
            Some(r) => r,
            None => {
                return Err(MapError::RootNotInitialized);
            },
        };
        if virt_addr % page_size != 0 || phys_addr % page_size != 0 {
            return Err(MapError::InvalidAlignment);
        }
        proof {
            lemma_index_ranges(virt_addr);
        }
        let indices = self.get_table_indices(virt_addr);
        let i2 = indices[2] as usize;
        let i1 = indices[1] as usize;
        let i0 = indices[0] as usize;
        proof {
            assert(root as int == root_idx(s0));
            assert(re(s0, i2 as int) == s0.tables@[root as int].entries@[i2 as int].0);
            if pte_is_valid(re(s0, i2 as int)) {
                assert(c_ok(s0, i2 as int));
            }
        }
        let a = self.get_or_create_table(root, i2);
        let ghost sa = *self;
        proof {
            assert(root_idx(sa) == root as int);
            assert(re(sa, i2 as int) == sa.tables@[root as int].entries@[i2 as int].0);
            assert(pte_is_valid(re(sa, i2 as int)) && !pte_is_leaf(re(sa, i2 as int)));
            assert(child_addr(sa, i2 as int) == sa.table_addrs@[a as int]);
            assert(addr_index(sa.table_addrs@, child_addr(sa, i2 as int)) == a as int);
            assert(c_ok(sa, i2 as int));
            assert(has_table(sa, child_addr(sa, i2 as int))) by {
                assert(sa.table_addrs@[a as int] == child_addr(sa, i2 as int));
            }
            assert(ae(sa, i2 as int, i1 as int) == sa.tables@[a as int].entries@[i1 as int].0);
            assert(table_wf(sa.tables@[a as int]));
        }
        if page_size == MEGAPAGE_SIZE {
            let mut ne = PageTableEntry::new();
            ne.set_address(phys_addr, flag_bits);
            proof {
                lemma_or_offset_2m(phys_addr, 0);
                lemma_frame_ppn_roundtrip(phys_addr);
                lemma_pte_make_fields(phys_addr >> 12, flag_bits);
                assert(pte_is_valid(ne.0) && pte_is_leaf(ne.0));
                assert(pte_ppn(ne.0) == phys_addr >> 12);
            }
            self.tables[a].entries[i1] = ne;
            proof {
                let s2 = *self;
                lemma_write_l1(sa, s2, i2 as int, i1 as int, ne.0);
                assert(ae(s2, l2_index(virt_addr), l1_index(virt_addr)) == pte_make(
                    phys_addr >> 12,
                    flag_bits,
                ));
                assert(phys_addr % 0x20_0000 == 0 ==> ((phys_addr >> 12) & 0x1FF) == 0)
                    by (bit_vector);
                assert forall|va: u64| va < VA_LIMIT && va >> 21 == virt_addr >> 21 implies
                    translate_spec(s2, va) == Some((phys_addr + (va & 0x1F_FFFF)) as u64)
                    && megapage_at(s2, va) by {
                    lemma_mega_eq_indices(va, virt_addr);
                    lemma_or_offset_2m(phys_addr, va);
                }
                assert forall|va: u64| va < VA_LIMIT && va >> 21 != virt_addr >> 21 implies
                    translate_spec(s2, va) == translate_spec(s0, va) && megapage_at(s2, va)
                    == megapage_at(s0, va) by {
                    lemma_mega_eq_indices(va, virt_addr);
                }
            }
            Ok(())
        } else {
            proof {
                assert(!megapage_at(s0, virt_addr));
                assert(megapage_at(sa, virt_addr) == megapage_at(s0, virt_addr));
                assert(!pte_is_leaf(ae(sa, i2 as int, i1 as int))) by {
                    if pte_is_valid(ae(sa, i2 as int, i1 as int)) && pte_is_leaf(
                        ae(sa, i2 as int, i1 as int),
                    ) {
                        assert(megapage_at(sa, virt_addr));
                    }
                }
                if pte_is_valid(ae(sa, i2 as int, i1 as int)) {
                    assert(g_ok(sa, i2 as int, i1 as int));
                    assert(has_table(sa, gchild_addr(sa, i2 as int, i1 as int)));
                }
                assert(parent_is_upper(sa, a)) by {
                    assert(c_ok(sa, i2 as int) && child_addr(sa, i2 as int)
                        == sa.table_addrs@[a as int]);
                }
            }
            let b = self.get_or_create_table(a, i1);
            let ghost sb = *self;
            proof {
                // The path through `(i2, i1)` now reads the entry goc wrote.
                assert(re(sb, i2 as int) == re(sa, i2 as int)) by {
                    assert(root as int != a as int) by {
                        assert(child_addr(sa, i2 as int) != root_addr(sa));
                        assert(sa.table_addrs@[a as int] != sa.table_addrs@[root as int]);
                    }
                    assert(sb.tables@[root as int].entries@[i2 as int] == sa.tables@[root as
                        int].entries@[i2 as int]);
                }
                assert(c_ok(sb, i2 as int));
                assert(child_addr(sb, i2 as int) == sb.table_addrs@[a as int]);
                lemma_addr_index_self(sb.table_addrs@, a as int);
                assert(addr_index(sb.table_addrs@, child_addr(sb, i2 as int)) == a as int);
                assert(ae(sb, i2 as int, i1 as int) == sb.tables@[a as int].entries@[i1 as int].0);
                assert(pte_is_valid(ae(sb, i2 as int, i1 as int)) && !pte_is_leaf(
                    ae(sb, i2 as int, i1 as int),
                ));
                assert(g_ok(sb, i2 as int, i1 as int));
                assert(gchild_addr(sb, i2 as int, i1 as int) == sb.table_addrs@[b as int]);
                lemma_addr_index_self(sb.table_addrs@, b as int);
                assert(addr_index(sb.table_addrs@, gchild_addr(sb, i2 as int, i1 as int))
                    == b as int);
                assert(table_wf(sb.tables@[b as int]));
            }
            let mut ne = PageTableEntry::new();
            ne.set_address(phys_addr, flag_bits);
            proof {
                lemma_frame_ppn_roundtrip(phys_addr);
                lemma_pte_make_fields(phys_addr >> 12, flag_bits);
                assert(pte_is_valid(ne.0));
                assert(pte_ppn(ne.0) == phys_addr >> 12);
            }
            self.tables[b].entries[i0] = ne;
            proof {
                let s2 = *self;
                lemma_write_l0(sb, s2, i2 as int, i1 as int, i0 as int, ne.0);
                assert forall|va: u64| va < VA_LIMIT && va >> 12 == virt_addr >> 12 implies
                    translate_spec(s2, va) == Some((phys_addr + (va & 0xFFF)) as u64) by {
                    lemma_page_eq_indices(va, virt_addr);
                    lemma_or_offset_4k(phys_addr, va);
                }
                assert forall|va: u64| va < VA_LIMIT && va >> 12 != virt_addr >> 12 implies
                    translate_spec(s2, va) == translate_spec(s0, va) by {
                    lemma_page_eq_indices(va, virt_addr);
                }
                assert forall|va: u64| va < VA_LIMIT && va >> 21 == virt_addr >> 21 implies
                    !megapage_at(s2, va) by {
                    lemma_mega_eq_indices(va, virt_addr);
                    assert(megapage_at(s2, va) == megapage_at(sb, va));
                    assert(!pte_is_leaf(ae(sb, i2 as int, i1 as int)));
                }
                assert forall|va: u64| va < VA_LIMIT && va >> 21 != virt_addr >> 21 implies
                    megapage_at(s2, va) == megapage_at(s0, va) by {
                    lemma_mega_eq_indices(va, virt_addr);
                }
            }
            Ok(())
        }
    }

    /// Maps one 4KiB page: `map` with the base page size.
    pub fn map_page(&mut self, virt_addr: u64, phys_addr: u64, flag_bits: u64) -> (r: Result<
        (),
        MapError,
    >)
        requires
            wf(*old(self)),
            virt_addr < VA_LIMIT,
            phys_addr < PA_LIMIT,
            flag_bits < FLAG_LIMIT,
            flag_bits & VALID != 0,
            map_checks_pass(*old(self), virt_addr, phys_addr, PAGE_SIZE) ==> old(
                self,
            ).next_highest_page + 2 * 4096 <= PA_LIMIT,
            map_checks_pass(*old(self), virt_addr, phys_addr, PAGE_SIZE) ==> !megapage_at(
                *old(self),
                virt_addr,
            ),
        ensures
            wf(*final(self)),
            final(self).root_page_table == old(self).root_page_table,
            old(self).next_highest_page <= final(self).next_highest_page <= old(
                self,
            ).next_highest_page + 2 * 4096,
            final(self).table_addrs@.len() <= old(self).table_addrs@.len() + 2,
            r is Ok <==> map_checks_pass(*old(self), virt_addr, phys_addr, PAGE_SIZE),
            r == Err::<(), MapError>(MapError::RootNotInitialized) <==> old(
                self,
            ).root_page_table is None,
            r == Err::<(), MapError>(MapError::InvalidAlignment) <==> (old(
                self,
            ).root_page_table is Some && !(virt_addr % PAGE_SIZE == 0 && phys_addr % PAGE_SIZE
                == 0)),
            r is Err ==> *final(self) == *old(self),
            r is Ok ==> {
                &&& forall|va: u64|
                    va < VA_LIMIT && va >> 12 == virt_addr >> 12 ==> translate_spec(
                        *final(self),
                        va,
                    ) == Some((phys_addr + (va & 0xFFF)) as u64)
                &&& forall|va: u64|
                    va < VA_LIMIT && va >> 12 != virt_addr >> 12 ==> translate_spec(
                        *final(self),
                        va,
                    ) == translate_spec(*old(self), va)
                &&& forall|va: u64|
                    va < VA_LIMIT && va >> 21 == virt_addr >> 21 ==> !megapage_at(*final(self), va)
                &&& forall|va: u64|
                    va < VA_LIMIT && va >> 21 != virt_addr >> 21 ==> megapage_at(*final(self), va)
                        == megapage_at(*old(self), va)
            },
    {
        self.map(virt_addr, phys_addr, PAGE_SIZE, flag_bits)
    }

    /// Translate a virtual address to a physical address by walking the
    /// tree. Reports `None` ("unmapped") when the root is missing or any
    /// level on the path is invalid; a 2MiB leaf at the middle level
    /// resolves with a 21-bit page offset.
    pub fn translate(&self, virt_addr: u64) -> (r: Option<u64>)
        requires
            wf(*self),
        ensures
            r == translate_spec(*self, virt_addr),
    {
        let root = match self.root_page_table {
            Some(r) => r,
            None => {
                return None;
            },
        };
        proof {
            lemma_index_ranges(virt_addr);
            assert(table_wf(self.tables@[root as int]));
        }
        let indices = self.get_table_indices(virt_addr);
        let i2 = indices[2] as usize;
        let i1 = indices[1] as usize;
        let i0 = indices[0] as usize;
        let page_offset = virt_addr & 0xFFF;
        let e2 = self.tables[root].entries[i2];
        proof {
            assert(e2.0 == re(*self, i2 as int));
        }
        if !e2.is_valid() || e2.is_leaf() {
            return None;
        }
        let a = match self.find_table(e2.get_ppn() << 12) {
            Some(a) => a,
            None => {
                return None;
            },
        };
        proof {
            assert(table_wf(self.tables@[a as int]));
            assert(self.tables@[a as int].entries@ == table_at(*self, child_addr(*self, i2 as int)));
        }
        let e1 = self.tables[a].entries[i1];
        proof {
            assert(e1.0 == ae(*self, i2 as int, i1 as int));
        }
        if !e1.is_valid() {
            return None;
        }
        if e1.is_leaf() {
            return Some((e1.get_ppn() << 12) | (virt_addr & 0x1F_FFFF));
        }
        let b = match self.find_table(e1.get_ppn() << 12) {
            Some(b) => b,
            None => {
                return None;
            },
        };
        proof {
            assert(table_wf(self.tables@[b as int]));
            assert(self.tables@[b as int].entries@ == table_at(
                *self,
                gchild_addr(*self, i2 as int, i1 as int),
            ));
        }
        let e0 = self.tables[b].entries[i0];
        proof {
            assert(e0.0 == ge(*self, i2 as int, i1 as int, i0 as int));
        }
        if !e0.is_valid() {
            return None;
        }
        Some((e0.get_ppn() << 12) | page_offset)
    }

    /// Unmap a virtual address: walks to the leaf and zeroes it completely.
    /// Fails with `NotMapped` exactly when the address does not translate.
    /// Unmapping a 2MiB leaf clears the whole megapage.
    pub fn unmap(&mut self, virt_addr: u64) -> (r: Result<(), MapError>)
        requires
            wf(*old(self)),
            virt_addr < VA_LIMIT,
        ensures
            wf(*final(self)),
            final(self).root_page_table == old(self).root_page_table,
            final(self).next_highest_page == old(self).next_highest_page,
            final(self).table_addrs@ == old(self).table_addrs@,
            r == Err::<(), MapError>(MapError::RootNotInitialized) <==> old(
                self,
            ).root_page_table is None,
            r == Err::<(), MapError>(MapError::NotMapped) <==> (old(self).root_page_table is Some
                && translate_spec(*old(self), virt_addr) is None),
            r is Ok <==> translate_spec(*old(self), virt_addr) is Some,
            r is Err ==> *final(self) == *old(self),
            r is Ok ==> forall|va: u64|
                va < VA_LIMIT && va >> 12 == virt_addr >> 12 ==> translate_spec(
                    *final(self),
                    va,
                ) is None,
            // The walked-to leaf word is zeroed completely, not just its
            // valid bit.
            r is Ok && megapage_at(*old(self), virt_addr) ==> ae(
                *final(self),
                l2_index(virt_addr),
                l1_index(virt_addr),
            ) == 0,
            r is Ok && !megapage_at(*old(self), virt_addr) ==> ge(
                *final(self),
                l2_index(virt_addr),
                l1_index(virt_addr),
                l0_index(virt_addr),
            ) == 0,
            r is Ok && megapage_at(*old(self), virt_addr) ==> {
                &&& forall|va: u64|
                    va < VA_LIMIT && va >> 21 == virt_addr >> 21 ==> translate_spec(
                        *final(self),
                        va,
                    ) is None && !megapage_at(*final(self), va)
                &&& forall|va: u64|
                    va < VA_LIMIT && va >> 21 != virt_addr >> 21 ==> translate_spec(
                        *final(self),
                        va,
                    ) == translate_spec(*old(self), va) && megapage_at(*final(self), va)
                        == megapage_at(*old(self), va)
            },
            r is Ok && !megapage_at(*old(self), virt_addr) ==> {
                &&& forall|va: u64|
                    va < VA_LIMIT && va >> 12 != virt_addr >> 12 ==> translate_spec(
                        *final(self),
                        va,
                    ) == translate_spec(*old(self), va)
                &&& forall|va: u64|
                    va < VA_LIMIT ==> megapage_at(*final(self), va) == megapage_at(
                        *old(self),
                        va,
                    )
            },
    {
        let ghost s0 = *old(self);
        let root = match self.root_page_table {
            Some(r) => r,
            None => {
                return Err(MapError::RootNotInitialized);
            },
        };
        proof {
            lemma_index_ranges(virt_addr);
            assert(table_wf(self.tables@[root as int]));
        }
        let indices = self.get_table_indices(virt_addr);
        let i2 = indices[2] as usize;
        let i1 = indices[1] as usize;
        let i0 = indices[0] as usize;
        let e2 = self.tables[root].entries[i2];
        proof {
            assert(e2.0 == re(s0, i2 as int));
        }
        if !e2.is_valid() || e2.is_leaf() {
            return Err(MapError::NotMapped);
        }
        let a = match self.find_table(e2.get_ppn() << 12) {
            Some(a) => a,
            None => {
                return Err(MapError::NotMapped);
            },
        };
        proof {
            assert(table_wf(self.tables@[a as int]));
            assert(self.tables@[a as int].entries@ == table_at(s0, child_addr(s0, i2 as int)));
        }
        let e1 = self.tables[a].entries[i1];
        proof {
            assert(e1.0 == ae(s0, i2 as int, i1 as int));
        }
        if !e1.is_valid() {
            return Err(MapError::NotMapped);
        }
        if e1.is_leaf() {
            // A 2MiB leaf: clear the whole megapage entry.
            self.tables[a].entries[i1] = PageTableEntry(0);
            proof {
                let s2 = *self;
                lemma_pte_zero();
                lemma_write_l1(s0, s2, i2 as int, i1 as int, 0);
                assert(megapage_at(s0, virt_addr));
                assert forall|va: u64| va < VA_LIMIT && va >> 21 == virt_addr >> 21 implies
                    translate_spec(s2, va) is None && !megapage_at(s2, va) by {
                    lemma_mega_eq_indices(va, virt_addr);
                }
                assert forall|va: u64| va < VA_LIMIT && va >> 21 != virt_addr >> 21 implies
                    translate_spec(s2, va) == translate_spec(s0, va) && megapage_at(s2, va)
                    == megapage_at(s0, va) by {
                    lemma_mega_eq_indices(va, virt_addr);
                }
                assert forall|va: u64| va < VA_LIMIT && va >> 12 == virt_addr >> 12 implies
                    translate_spec(s2, va) is None by {
                    lemma_page_eq_indices(va, virt_addr);
                    lemma_mega_eq_indices(va, virt_addr);
                }
            }
            return Ok(());
        }
        proof {
            assert(g_ok(s0, i2 as int, i1 as int));
        }
        let b = match self.find_table(e1.get_ppn() << 12) {
            Some(b) => b,
            None => {
                return Err(MapError::NotMapped);
            },
        };
        proof {
            assert(table_wf(self.tables@[b as int]));
            assert(self.tables@[b as int].entries@ == table_at(
                s0,
                gchild_addr(s0, i2 as int, i1 as int),
            ));
        }
        let e0 = self.tables[b].entries[i0];
        proof {
            assert(e0.0 == ge(s0, i2 as int, i1 as int, i0 as int));
        }
        if !e0.is_valid() {
            return Err(MapError::NotMapped);
        }
        // Clear the 4KiB leaf entry completely.
        self.tables[b].entries[i0] = PageTableEntry(0);
        proof {
            let s2 = *self;
            lemma_pte_zero();
            lemma_write_l0(s0, s2, i2 as int, i1 as int, i0 as int, 0);
            assert(!megapage_at(s0, virt_addr));
            assert forall|va: u64| va < VA_LIMIT && va >> 12 == virt_addr >> 12 implies
                translate_spec(s2, va) is None by {
                lemma_page_eq_indices(va, virt_addr);
            }
            assert forall|va: u64| va < VA_LIMIT && va >> 12 != virt_addr >> 12 implies
                translate_spec(s2, va) == translate_spec(s0, va) by {
                lemma_page_eq_indices(va, virt_addr);
            }
        }
        Ok(())
    }

    /// The value the hardware translation-root register takes for this
    /// address space: the 3-level-paging mode tag in the top four bits,
    /// or-ed with the root table's physical page number. `None` while the
    /// root is uninitialized (activation is then a no-op).
    pub fn satp_value(&self) -> (r: Option<u64>)
        requires
            wf(*self),
        ensures
            match self.root_page_table {
                Option::Some(_) => r == Some((8u64 << 60) | (root_addr(*self) >> 12)),
                Option::None => r is None,
            },
    {
        match self.root_page_table {
            Some(root) => Some((8u64 << 60) | (self.table_addrs[root] >> 12)),
            None => None,
        }
    }

    /// Maps a contiguous range, greedily using 2MiB megapages: at each step,
    /// if both current addresses are 2MiB-aligned and at least 2MiB of the
    /// range remains, one 2MiB mapping is issued and the walk advances 2MiB;
    /// otherwise one 4KiB mapping is issued. Leftmost-greedy, not globally
    /// optimal, but exact for aligned identity-style ranges: an exactly
    /// 2MiB-aligned 2MiB span becomes a single megapage leaf, never 512
    /// 4KiB leaves.
    #[verifier::rlimit(100)]
    pub fn map_range_optimized(
        &mut self,
        virt_start: u64,
        virt_end: u64,
        phys_start: u64,
        flag_bits: u64,
    ) -> (r: Result<(), MapError>)
        requires
            wf(*old(self)),
            virt_start % PAGE_SIZE == 0,
            phys_start % PAGE_SIZE == 0,
            virt_start <= virt_end <= VA_LIMIT,
            phys_start + (round_up_4k(virt_end) - virt_start) <= PA_LIMIT,
            flag_bits < FLAG_LIMIT,
            flag_bits & VALID != 0,
            flag_bits & (crate::flags::READABLE | crate::flags::WRITABLE
                | crate::flags::EXECUTABLE) != 0,
            old(self).next_highest_page + 2 * (round_up_4k(virt_end) - virt_start) <= PA_LIMIT,
            forall|va: u64|
                va < VA_LIMIT && virt_start <= va < round_up_4k(virt_end) ==> !megapage_at(
                    *old(self),
                    va,
                ),
        ensures
            wf(*final(self)),
            final(self).root_page_table == old(self).root_page_table,
            r is Ok <==> old(self).root_page_table is Some,
            r == Err::<(), MapError>(MapError::RootNotInitialized) <==> old(
                self,
            ).root_page_table is None,
            r is Err ==> *final(self) == *old(self),
            r is Ok ==> forall|va: u64|
                virt_start <= va < virt_end ==> translate_spec(*final(self), va) == Some(
                    (phys_start + (va - virt_start)) as u64,
                ),
            r is Ok ==> forall|va: u64|
                va < VA_LIMIT && !(virt_start <= va < round_up_4k(virt_end)) ==> translate_spec(
                    *final(self),
                    va,
                ) == translate_spec(*old(self), va),
            // An exactly aligned 2MiB span becomes a single middle-level
            // leaf (its stored page number's low nine bits zero), with at
            // most the two upper-level tables created.
            (r is Ok && virt_start % MEGAPAGE_SIZE == 0 && phys_start % MEGAPAGE_SIZE == 0
                && virt_end == virt_start + MEGAPAGE_SIZE) ==> (megapage_at(
                *final(self),
                virt_start,
            ) && ae(*final(self), l2_index(virt_start), l1_index(virt_start)) == pte_make(
                phys_start >> 12,
                flag_bits,
            ) && pte_ppn(ae(*final(self), l2_index(virt_start), l1_index(virt_start))) & 0x1FF
                == 0 && final(self).table_addrs@.len() <= old(self).table_addrs@.len() + 2),
            final(self).next_highest_page <= old(self).next_highest_page + 2 * (round_up_4k(
                virt_end,
            ) - virt_start),
            r is Ok ==> forall|va: u64|
                va < VA_LIMIT && !(virt_start <= va < round_up_4k(virt_end)) ==> megapage_at(
                    *final(self),
                    va,
                ) == megapage_at(*old(self), va),
    {
        let ghost s0 = *old(self);
        if self.root_page_table.is_none() {
            return Err(MapError::RootNotInitialized);
        }
        proof {
            lemma_round_up_4k(virt_end);
        }
        let ghost p2_span = virt_start % MEGAPAGE_SIZE == 0 && phys_start % MEGAPAGE_SIZE == 0
            && virt_end == virt_start + MEGAPAGE_SIZE;
        let mut virt = virt_start;
        let mut phys = phys_start;
        while virt < virt_end
            invariant
                wf(*self),
                self.root_page_table == s0.root_page_table,
                self.root_page_table is Some,
                virt_start <= virt,
                virt % PAGE_SIZE == 0,
                virt < virt_end || virt <= round_up_4k(virt_end),
                virt <= round_up_4k(virt_end),
                virt_end <= VA_LIMIT,
                phys == phys_start + (virt - virt_start),
                phys % PAGE_SIZE == 0,
                phys_start + (round_up_4k(virt_end) - virt_start) <= PA_LIMIT,
                flag_bits < FLAG_LIMIT,
                flag_bits & VALID != 0,
                flag_bits & (crate::flags::READABLE | crate::flags::WRITABLE
                    | crate::flags::EXECUTABLE) != 0,
                self.next_highest_page + 2 * (round_up_4k(virt_end) - virt) <= PA_LIMIT,
                forall|va: u64|
                    virt_start <= va < virt ==> translate_spec(*self, va) == Some(
                        (phys_start + (va - virt_start)) as u64,
                    ),
                forall|va: u64|
                    va < VA_LIMIT && !(virt_start <= va < round_up_4k(virt_end))
                        ==> translate_spec(*self, va) == translate_spec(s0, va),
                forall|va: u64|
                    va < VA_LIMIT && virt <= va < round_up_4k(virt_end) ==> !megapage_at(
                        *self,
                        va,
                    ),
                self.next_highest_page <= s0.next_highest_page + 2 * (virt - virt_start),
                forall|va: u64|
                    va < VA_LIMIT && !(virt_start <= va < round_up_4k(virt_end)) ==> megapage_at(
                        *self,
                        va,
                    ) == megapage_at(s0, va),
                p2_span == (virt_start % MEGAPAGE_SIZE == 0 && phys_start % MEGAPAGE_SIZE == 0
                    && virt_end == virt_start + MEGAPAGE_SIZE),
                p2_span ==> ((virt == virt_start && self.table_addrs@.len()
                    == s0.table_addrs@.len()) || (virt == virt_end && megapage_at(
                    *self,
                    virt_start,
                ) && ae(*self, l2_index(virt_start), l1_index(virt_start)) == pte_make(
                    phys_start >> 12,
                    flag_bits,
                ) && pte_ppn(ae(*self, l2_index(virt_start), l1_index(virt_start))) & 0x1FF == 0
                    && self.table_addrs@.len() <= s0.table_addrs@.len() + 2)),
            decreases round_up_4k(virt_end) - virt,
        {
            let ghost s_it = *self;
            if virt % MEGAPAGE_SIZE == 0 && phys % MEGAPAGE_SIZE == 0 && virt_end - virt
                >= MEGAPAGE_SIZE {
                let res = self.map(virt, phys, MEGAPAGE_SIZE, flag_bits);
                proof {
                    assert(res is Ok);
                    assert forall|va: u64|
                        virt_start <= va < virt + MEGAPAGE_SIZE implies translate_spec(*self, va)
                        == Some((phys_start + (va - virt_start)) as u64) by {
                        lemma_mega_of_aligned(va, virt);
                        if va < virt {
                            assert(va >> 21 != virt >> 21);
                        } else {
                            assert(va >> 21 == virt >> 21);
                            assert(translate_spec(*self, va) == Some(
                                (phys + (va & 0x1F_FFFF)) as u64,
                            ));
                        }
                    }
                    assert forall|va: u64|
                        va < VA_LIMIT && !(virt_start <= va < round_up_4k(virt_end))
                        implies translate_spec(*self, va) == translate_spec(s0, va) by {
                        lemma_mega_of_aligned(va, virt);
                    }
                    assert forall|va: u64|
                        va < VA_LIMIT && virt + MEGAPAGE_SIZE <= va < round_up_4k(virt_end)
                        implies !megapage_at(*self, va) by {
                        lemma_mega_of_aligned(va, virt);
                    }
                    assert forall|va: u64|
                        va < VA_LIMIT && !(virt_start <= va < round_up_4k(virt_end))
                        implies megapage_at(*self, va) == megapage_at(s0, va) by {
                        lemma_mega_of_aligned(va, virt);
                        assert(va >> 21 != virt >> 21);
                    }
                }
                virt = virt + MEGAPAGE_SIZE;
                phys = phys + MEGAPAGE_SIZE;
                proof {
                    if p2_span {
                        assert(virt == virt_end);
                        assert(megapage_at(*self, virt_start)) by {
                            lemma_mega_of_aligned(virt_start, virt_start);
                        }
                        assert(ae(*self, l2_index(virt_start), l1_index(virt_start)) == pte_make(
                            phys_start >> 12,
                            flag_bits,
                        ));
                        assert(pte_ppn(ae(*self, l2_index(virt_start), l1_index(virt_start)))
                            & 0x1FF == 0);
                    }
                }
            } else {
                proof {
                    lemma_aligned_below_round(virt, virt_end);
                }
                let res = self.map(virt, phys, PAGE_SIZE, flag_bits);
                proof {
                    assert(res is Ok);
                    assert forall|va: u64|
                        virt_start <= va < virt + PAGE_SIZE implies translate_spec(*self, va)
                        == Some((phys_start + (va - virt_start)) as u64) by {
                        lemma_page_of_aligned(va, virt);
                        if va < virt {
                            assert(va >> 12 != virt >> 12);
                        } else {
                            assert(va >> 12 == virt >> 12);
                            assert(translate_spec(*self, va) == Some((phys + (va & 0xFFF)) as u64));
                        }
                    }
                    assert forall|va: u64|
                        va < VA_LIMIT && !(virt_start <= va < round_up_4k(virt_end))
                        implies translate_spec(*self, va) == translate_spec(s0, va) by {
                        lemma_page_of_aligned(va, virt);
                    }
                    assert forall|va: u64|
                        va < VA_LIMIT && virt + PAGE_SIZE <= va < round_up_4k(virt_end)
                        implies !megapage_at(*self, va) by {
                        if va >> 21 != virt >> 21 {
                            assert(megapage_at(*self, va) == megapage_at(s_it, va));
                        }
                    }
                    assert forall|va: u64|
                        va < VA_LIMIT && !(virt_start <= va < round_up_4k(virt_end))
                        implies megapage_at(*self, va) == megapage_at(s0, va) by {
                        if va >> 21 == virt >> 21 {
                            assert(!megapage_at(*self, va));
                            assert(!megapage_at(s_it, virt));
                            lemma_mega_eq_indices(va, virt);
                            assert(megapage_at(s_it, va) == megapage_at(s_it, virt));
                            assert(megapage_at(s_it, va) == megapage_at(s0, va));
                        } else {
                            assert(megapage_at(*self, va) == megapage_at(s_it, va));
                        }
                    }
                    if p2_span {
                        // An exactly aligned 2MiB span always takes the
                        // megapage branch on its first step.
                        assert(virt == virt_start);
                        assert(virt_end - virt >= MEGAPAGE_SIZE);
                        assert(false);
                    }
                }
                virt = virt + PAGE_SIZE;
                phys = phys + PAGE_SIZE;
            }
        }
        Ok(())
    }

    /// Maps a range of virtual addresses to physical addresses page by page
    /// with 4KiB pages, after widening both ends to page boundaries: the
    /// virtual start and the physical start round down, the virtual end
    /// rounds up, and the virtual-to-physical offset is kept constant.
    pub fn map_range(
        &mut self,
        virt_start: u64,
        virt_end: u64,
        phys_start: u64,
        flag_bits: u64,
    ) -> (r: Result<(), MapError>)
        requires
            wf(*old(self)),
            virt_start <= virt_end <= VA_LIMIT,
            align_down_4k(phys_start) + (round_up_4k(virt_end) - align_down_4k(virt_start))
                <= PA_LIMIT,
            flag_bits < FLAG_LIMIT,
            flag_bits & VALID != 0,
            old(self).next_highest_page + 2 * (round_up_4k(virt_end) - align_down_4k(virt_start))
                <= PA_LIMIT,
            forall|va: u64|
                va < VA_LIMIT && align_down_4k(virt_start) <= va < round_up_4k(virt_end)
                    ==> !megapage_at(*old(self), va),
        ensures
            wf(*final(self)),
            final(self).root_page_table == old(self).root_page_table,
            r is Ok <==> old(self).root_page_table is Some,
            r == Err::<(), MapError>(MapError::RootNotInitialized) <==> old(
                self,
            ).root_page_table is None,
            r is Err ==> *final(self) == *old(self),
            r is Ok ==> forall|va: u64|
                align_down_4k(virt_start) <= va < round_up_4k(virt_end) ==> translate_spec(
                    *final(self),
                    va,
                ) == Some((align_down_4k(phys_start) + (va - align_down_4k(virt_start))) as u64),
            r is Ok ==> forall|va: u64|
                va < VA_LIMIT && !(align_down_4k(virt_start) <= va < round_up_4k(virt_end))
                    ==> translate_spec(*final(self), va) == translate_spec(*old(self), va),
    {
        let ghost s0 = *old(self);
        if self.root_page_table.is_none() {
            return Err(MapError::RootNotInitialized);
        }
        let virt_start_aligned = virt_start / PAGE_SIZE * PAGE_SIZE;
        let virt_end_aligned = (virt_end + PAGE_SIZE - 1) / PAGE_SIZE * PAGE_SIZE;
        let phys_start_aligned = phys_start / PAGE_SIZE * PAGE_SIZE;
        proof {
            lemma_align_down_4k(virt_start);
            lemma_align_down_4k(phys_start);
            lemma_round_up_4k(virt_end);
            assert(virt_start_aligned == align_down_4k(virt_start));
            assert(virt_end_aligned == round_up_4k(virt_end));
            assert(phys_start_aligned == align_down_4k(phys_start));
        }
        let mut virt = virt_start_aligned;
        let mut phys = phys_start_aligned;
        while virt < virt_end_aligned
            invariant
                wf(*self),
                self.root_page_table == s0.root_page_table,
                self.root_page_table is Some,
                virt_start_aligned == align_down_4k(virt_start),
                virt_end_aligned == round_up_4k(virt_end),
                phys_start_aligned == align_down_4k(phys_start),
                virt_end <= VA_LIMIT,
                virt_start_aligned <= virt <= virt_end_aligned,
                virt % PAGE_SIZE == 0,
                virt_end_aligned % 4096 == 0,
                virt_end_aligned <= round_up_4k(virt_end),
                phys == phys_start_aligned + (virt - virt_start_aligned),
                phys % PAGE_SIZE == 0,
                phys_start_aligned + (virt_end_aligned - virt_start_aligned) <= PA_LIMIT,
                flag_bits < FLAG_LIMIT,
                flag_bits & VALID != 0,
                self.next_highest_page + 2 * (virt_end_aligned - virt) <= PA_LIMIT,
                forall|va: u64|
                    virt_start_aligned <= va < virt ==> translate_spec(*self, va) == Some(
                        (phys_start_aligned + (va - virt_start_aligned)) as u64,
                    ),
                forall|va: u64|
                    va < VA_LIMIT && !(virt_start_aligned <= va < virt_end_aligned)
                        ==> translate_spec(*self, va) == translate_spec(s0, va),
                forall|va: u64|
                    va < VA_LIMIT && virt <= va < virt_end_aligned ==> !megapage_at(*self, va),
            decreases virt_end_aligned - virt,
        {
            let ghost s_it = *self;
            let res = self.map_page(virt, phys, flag_bits);
            proof {
                assert(res is Ok);
                assert forall|va: u64|
                    virt_start_aligned <= va < virt + PAGE_SIZE implies translate_spec(*self, va)
                    == Some((phys_start_aligned + (va - virt_start_aligned)) as u64) by {
                    lemma_page_of_aligned(va, virt);
                    if va < virt {
                        assert(va >> 12 != virt >> 12);
                    } else {
                        assert(va >> 12 == virt >> 12);
                        assert(translate_spec(*self, va) == Some((phys + (va & 0xFFF)) as u64));
                    }
                }
                assert forall|va: u64|
                    va < VA_LIMIT && !(virt_start_aligned <= va < virt_end_aligned)
                    implies translate_spec(*self, va) == translate_spec(s0, va) by {
                    lemma_page_of_aligned(va, virt);
                }
                assert forall|va: u64|
                    va < VA_LIMIT && virt + PAGE_SIZE <= va < virt_end_aligned
                    implies !megapage_at(*self, va) by {
                    if va >> 21 != virt >> 21 {
                        assert(megapage_at(*self, va) == megapage_at(s_it, va));
                    }
                }
            }
            virt = virt + PAGE_SIZE;
            phys = phys + PAGE_SIZE;
        }
        Ok(())
    }

    /// Finds the owned table whose frame address is `addr`.
    fn find_table(&self, addr: u64) -> (r: Option<usize>)
        requires
            self.tables@.len() == self.table_addrs@.len(),
        ensures
            match r {
                Option::Some(j) => j < self.tables@.len() && addr_index(self.table_addrs@, addr)
                    == j as int && self.table_addrs@[j as int] == addr,
                Option::None => !has_table(*self, addr),
            },
    {
        let ghost addrs = self.table_addrs@;
        let n = self.table_addrs.len();
        let mut i: usize = 0;
        while i < n
            invariant
                n == addrs.len(),
                addrs == self.table_addrs@,
                self.tables@.len() == self.table_addrs@.len(),
                i <= n,
                forall|k: int| 0 <= k < i ==> addrs[k] != addr,
            decreases n - i,
        {
            if self.table_addrs[i] == addr {
                proof {
                    lemma_addr_index_first_match(addrs, addr, i as int);
                }
                return Some(i);
            }
            i = i + 1;
        }
        proof {
            lemma_addr_index_props(addrs, addr);
            if addrs.contains(addr) {
                let j = choose|j: int| 0 <= j < addrs.len() && addrs[j] == addr;
            }
        }
        None
    }
}

/// Each 9-bit table index is below 512.
pub proof fn lemma_index_ranges(va: u64)
    ensures
        0 <= l0_index(va) < 512,
        0 <= l1_index(va) < 512,
        0 <= l2_index(va) < 512,
{
    assert((va >> 12) & 0x1FF < 512 && (va >> 21) & 0x1FF < 512 && (va >> 30) & 0x1FF < 512)
        by (bit_vector);
}

/// A page-aligned frame address below the physical limit round-trips
/// through the 44-bit page-number field.
pub proof fn lemma_frame_ppn_roundtrip(a: u64)
    requires
        a % 4096 == 0,
        a < 0x100_0000_0000_0000,
    ensures
        (a >> 12) & 0xFFF_FFFF_FFFF == a >> 12,
        a >> 12 < 0x1000_0000_0000,
        ((a >> 12) << 12) == a,
{
    assert((a >> 12) & 0xFFF_FFFF_FFFF == a >> 12 && a >> 12 < 0x1000_0000_0000 && ((a >> 12)
        << 12) == a) by (bit_vector)
        requires
            a % 4096 == 0,
            a < 0x100_0000_0000_0000,
    ;
}

/// Membership survives a push.
pub proof fn lemma_contains_push(addrs: Seq<u64>, a: u64, b: u64)
    ensures
        addrs.contains(a) ==> addrs.push(b).contains(a),
{
    if addrs.contains(a) {
        let j = choose|j: int| 0 <= j < addrs.len() && addrs[j] == a;
        assert(addrs.push(b)[j] == a);
    }
}

/// Adding one owned table frame at a fresh address changes no translation
/// and no reachable-tree structure.
pub proof fn lemma_push_table_preserves(s1: PageSystem, s2: PageSystem)
    requires
        wf(s1),
        s2.root_page_table == s1.root_page_table,
        s2.tables@.len() == s1.tables@.len() + 1,
        forall|i: int| 0 <= i < s1.tables@.len() ==> s2.tables@[i] == s1.tables@[i],
        s2.table_addrs@ == s1.table_addrs@.push(s2.table_addrs@.last()),
        !s1.table_addrs@.contains(s2.table_addrs@.last()),
    ensures
        tree_wf(s2),
        forall|va: u64| translate_spec(s2, va) == translate_spec(s1, va),
        forall|va: u64| megapage_at(s2, va) == megapage_at(s1, va),
        s1.root_page_table is Some ==> {
            &&& root_addr(s2) == root_addr(s1)
            &&& forall|i2: int| re(s2, i2) == #[trigger] re(s1, i2)
            &&& forall|i2: int, i1: int|
                c_ok(s1, i2) ==> ae(s2, i2, i1) == #[trigger] ae(s1, i2, i1)
            &&& forall|i2: int, i1: int, i0: int|
                g_ok(s1, i2, i1) ==> ge(s2, i2, i1, i0) == #[trigger] ge(s1, i2, i1, i0)
        },
{
    let fresh = s2.table_addrs@.last();
    if s1.root_page_table is Some {
        assert(root_addr(s2) == root_addr(s1));
        assert(forall|i2: int| re(s2, i2) == #[trigger] re(s1, i2));
        assert forall|i2: int| c_ok(s1, i2) implies table_at(s2, child_addr(s1, i2)) == table_at(
            s1,
            child_addr(s1, i2),
        ) by {
            lemma_addr_index_props(s1.table_addrs@, child_addr(s1, i2));
            lemma_addr_index_push(s1.table_addrs@, child_addr(s1, i2), fresh);
        }
        assert forall|i2: int, i1: int| c_ok(s1, i2) implies ae(s2, i2, i1) == #[trigger] ae(
            s1,
            i2,
            i1,
        ) by {
            assert(child_addr(s2, i2) == child_addr(s1, i2));
        }
        assert(forall|i2: int| c_ok(s2, i2) == c_ok(s1, i2));
        assert(forall|i2: int, i1: int| g_ok(s2, i2, i1) == #[trigger] g_ok(s1, i2, i1));
        assert forall|i2: int, i1: int| g_ok(s1, i2, i1) implies table_at(
            s2,
            gchild_addr(s1, i2, i1),
        ) == table_at(s1, gchild_addr(s1, i2, i1)) by {
            lemma_addr_index_props(s1.table_addrs@, gchild_addr(s1, i2, i1));
            lemma_addr_index_push(s1.table_addrs@, gchild_addr(s1, i2, i1), fresh);
        }
        assert forall|i2: int, i1: int, i0: int| g_ok(s1, i2, i1) implies ge(s2, i2, i1, i0)
            == #[trigger] ge(s1, i2, i1, i0) by {
            assert(gchild_addr(s2, i2, i1) == gchild_addr(s1, i2, i1));
        }
        assert forall|va: u64| translate_spec(s2, va) == translate_spec(s1, va) by {
            lemma_index_ranges(va);
            let i2 = l2_index(va);
            let i1 = l1_index(va);
            if pte_is_valid(re(s1, i2)) && !pte_is_leaf(re(s1, i2)) {
                assert(c_ok(s1, i2));
                assert(child_addr(s2, i2) == child_addr(s1, i2));
                assert(has_table(s1, child_addr(s1, i2)));
                lemma_contains_push(s1.table_addrs@, child_addr(s1, i2), fresh);
                assert(has_table(s2, child_addr(s2, i2)));
                if pte_is_valid(ae(s1, i2, i1)) && !pte_is_leaf(ae(s1, i2, i1)) {
                    assert(g_ok(s1, i2, i1));
                    assert(gchild_addr(s2, i2, i1) == gchild_addr(s1, i2, i1));
                    assert(has_table(s1, gchild_addr(s1, i2, i1)));
                    lemma_contains_push(s1.table_addrs@, gchild_addr(s1, i2, i1), fresh);
                    assert(has_table(s2, gchild_addr(s2, i2, i1)));
                }
            }
        }
        assert forall|va: u64| megapage_at(s2, va) == megapage_at(s1, va) by {
            lemma_index_ranges(va);
            let i2 = l2_index(va);
            if pte_is_valid(re(s1, i2)) && !pte_is_leaf(re(s1, i2)) {
                assert(c_ok(s1, i2));
                assert(child_addr(s2, i2) == child_addr(s1, i2));
                assert(has_table(s1, child_addr(s1, i2)));
                lemma_contains_push(s1.table_addrs@, child_addr(s1, i2), fresh);
                assert(has_table(s2, child_addr(s2, i2)));
            }
        }
        assert(tree_wf(s2)) by {
            assert(root_idx(s2) < s2.tables@.len());
            assert(forall|i2: int| #[trigger] child_addr(s2, i2) == child_addr(s1, i2));
            assert forall|i2: int, j2: int|
                c_ok(s2, i2) && c_ok(s2, j2) && i2 != j2 implies #[trigger] child_addr(s2, i2)
                != #[trigger] child_addr(s2, j2) by {
                assert(c_ok(s1, i2) && c_ok(s1, j2));
            }
            assert forall|i2: int, i1: int|
                g_ok(s2, i2, i1) implies #[trigger] gchild_addr(s2, i2, i1) == gchild_addr(
                s1,
                i2,
                i1,
            ) by {
                assert(g_ok(s1, i2, i1));
                assert(c_ok(s1, i2));
                assert(ae(s2, i2, i1) == ae(s1, i2, i1));
            }
            assert forall|i2: int, i1: int, j2: int, j1: int|
                g_ok(s2, i2, i1) && g_ok(s2, j2, j1) && !(i2 == j2 && i1 == j1)
                implies #[trigger] gchild_addr(s2, i2, i1) != #[trigger] gchild_addr(
                s2,
                j2,
                j1,
            ) by {
                assert(g_ok(s1, i2, i1) && g_ok(s1, j2, j1));
                assert(gchild_addr(s1, i2, i1) != gchild_addr(s1, j2, j1));
            }
            assert forall|i2: int| c_ok(s2, i2) implies {
                &&& !pte_is_leaf(re(s2, i2))
                &&& has_table(s2, child_addr(s2, i2))
                &&& child_addr(s2, i2) != root_addr(s2)
            } by {
                assert(c_ok(s1, i2));
                lemma_contains_push(s1.table_addrs@, child_addr(s1, i2), fresh);
            }
            assert forall|i2: int, i1: int| #[trigger] g_ok(s2, i2, i1) implies {
                &&& has_table(s2, gchild_addr(s2, i2, i1))
                &&& gchild_addr(s2, i2, i1) != root_addr(s2)
                &&& forall|j2: int|
                    c_ok(s2, j2) ==> gchild_addr(s2, i2, i1) != #[trigger] child_addr(s2, j2)
            } by {
                assert(g_ok(s1, i2, i1));
                assert(c_ok(s1, i2));
                assert(ae(s2, i2, i1) == ae(s1, i2, i1));
                lemma_contains_push(s1.table_addrs@, gchild_addr(s1, i2, i1), fresh);
            }
        }
    }
}

/// Under pairwise-distinct addresses, looking an element up finds its own
/// position.
pub proof fn lemma_addr_index_self(addrs: Seq<u64>, p: int)
    requires
        0 <= p < addrs.len(),
        forall|i: int, j: int|
            #![trigger addrs[i], addrs[j]]
            0 <= i < j < addrs.len() ==> addrs[i] != addrs[j],
    ensures
        addr_index(addrs, addrs[p]) == p,
{
    assert forall|k: int| 0 <= k < p implies addrs[k] != addrs[p] by {}
    lemma_addr_index_first_match(addrs, addrs[p], p);
}

/// The parent handed to `get_or_create_table` is the root table or one of
/// the root's direct children.
pub open spec fn parent_is_upper(s: PageSystem, parent: usize) -> bool {
    s.root_page_table is Some && ((parent as int == root_idx(s)) || (exists|i2: int|
        c_ok(s, i2) && child_addr(s, i2) == s.table_addrs@[parent as int]))
}

/// Installing, into an upper-level table, a pointer entry to a freshly
/// allocated zero-filled table changes no translation, keeps the tree well
/// formed, and leaves every other entry alone.
proof fn lemma_install_pointer(s1: PageSystem, s2: PageSystem, parent: int, index: int, fresh: u64)
    requires
        wf(s1),
        s1.root_page_table is Some,
        root_idx(s1) < s1.tables@.len() - 1,
        0 <= parent < s1.tables@.len() - 1,
        0 <= index < 512,
        fresh == s1.table_addrs@.last(),
        addr_index(s1.table_addrs@, fresh) == s1.tables@.len() - 1,
        forall|k: int| 0 <= k < 512 ==> s1.tables@.last().entries@[k].0 == 0,
        !pte_is_valid(s1.tables@[parent].entries@[index].0),
        parent == root_idx(s1) || (exists|i2: int|
            c_ok(s1, i2) && child_addr(s1, i2) == s1.table_addrs@[parent]),
        root_addr(s1) != fresh,
        forall|j2: int| c_ok(s1, j2) ==> #[trigger] child_addr(s1, j2) != fresh,
        forall|j2: int, j1: int| g_ok(s1, j2, j1) ==> #[trigger] gchild_addr(s1, j2, j1) != fresh,
        fresh % 4096 == 0,
        fresh < PA_LIMIT,
        s2.root_page_table == s1.root_page_table,
        s2.table_addrs@ == s1.table_addrs@,
        s2.next_highest_page == s1.next_highest_page,
        s2.free_pages@ == s1.free_pages@,
        s2.tables@.len() == s1.tables@.len(),
        forall|t: int| 0 <= t < s1.tables@.len() && t != parent ==> s2.tables@[t] == s1.tables@[t],
        s2.tables@[parent].entries@ == s1.tables@[parent].entries@.update(
            index,
            PageTableEntry(pte_make(fresh >> 12, VALID)),
        ),
    ensures
        wf(s2),
        forall|va: u64| translate_spec(s2, va) == translate_spec(s1, va),
        forall|va: u64| megapage_at(s2, va) == megapage_at(s1, va),
{
    let n = s1.tables@.len() as int;
    let ne = pte_make(fresh >> 12, VALID);
    lemma_frame_ppn_roundtrip(fresh);
    lemma_pte_make_fields(fresh >> 12, VALID);
    assert(0x01u64 & 0x01 != 0 && 0x01u64 & (0x02u64 | 0x04 | 0x08) == 0) by (bit_vector);
    assert(pte_is_valid(ne) && !pte_is_leaf(ne) && pte_ppn(ne) << 12 == fresh);
    assert(table_wf(s2.tables@[parent])) by {
        assert(table_wf(s1.tables@[parent]));
    }
    assert(frames_wf(s2)) by {
        assert forall|i: int| 0 <= i < s2.tables@.len() implies table_wf(
            #[trigger] s2.tables@[i],
        ) by {
            assert(table_wf(s1.tables@[i]));
        }
    }
    // The freshly pushed table is untouched and zero-filled.
    assert(s2.tables@[n - 1] == s1.tables@[n - 1]);
    assert(table_at(s2, fresh) == s2.tables@[n - 1].entries@);
    assert forall|k: int| 0 <= k < 512 implies table_at(s2, fresh)[k].0 == 0 by {
        assert(s1.tables@.last() == s1.tables@[n - 1]);
        assert(s1.tables@.last().entries@[k].0 == 0);
    }
    if parent == root_idx(s1) {
        // Installing a child under the root.
        assert(root_idx(s2) == root_idx(s1));
        assert(forall|i2: int|
            0 <= i2 < 512 && i2 != index ==> #[trigger] re(s2, i2) == re(s1, i2));
        assert(re(s2, index) == ne);
        assert(child_addr(s2, index) == fresh);
        // Old children keep their tables and entries.
        assert forall|i2: int, i1: int| c_ok(s1, i2) && i2 != index implies #[trigger] ae(
            s2,
            i2,
            i1,
        ) == ae(s1, i2, i1) by {
            assert(child_addr(s2, i2) == child_addr(s1, i2));
            assert(has_table(s1, child_addr(s1, i2)));
            lemma_addr_index_props(s1.table_addrs@, child_addr(s1, i2));
            let j = addr_index(s1.table_addrs@, child_addr(s1, i2));
            assert(s1.table_addrs@[j] == child_addr(s1, i2));
            assert(child_addr(s1, i2) != root_addr(s1));
            assert(j != parent) by {
                if j == parent {
                    assert(s1.table_addrs@[parent] == root_addr(s1));
                }
            }
            assert(s2.tables@[j] == s1.tables@[j]);
        }
        assert forall|i2: int, i1: int, i0: int| g_ok(s1, i2, i1) && i2 != index implies #[trigger] ge(
            s2,
            i2,
            i1,
            i0,
        ) == ge(s1, i2, i1, i0) by {
            assert(ae(s2, i2, i1) == ae(s1, i2, i1));
            assert(gchild_addr(s2, i2, i1) == gchild_addr(s1, i2, i1));
            assert(has_table(s1, gchild_addr(s1, i2, i1)));
            lemma_addr_index_props(s1.table_addrs@, gchild_addr(s1, i2, i1));
            let j = addr_index(s1.table_addrs@, gchild_addr(s1, i2, i1));
            assert(j != parent) by {
                if j == parent {
                    assert(s1.table_addrs@[parent] == root_addr(s1));
                }
            }
            assert(s2.tables@[j] == s1.tables@[j]);
        }
        // The new child's entries are all invalid.
        assert(forall|i1: int| 0 <= i1 < 512 ==> ae(s2, index, i1) == 0);
        assert forall|va: u64| translate_spec(s2, va) == translate_spec(s1, va) by {
            lemma_index_ranges(va);
            let i2 = l2_index(va);
            let i1 = l1_index(va);
            lemma_pte_zero();
            if i2 == index {
                assert(!pte_is_valid(re(s1, i2)));
                assert(!pte_is_valid(ae(s2, i2, i1)));
            } else {
                if pte_is_valid(re(s1, i2)) && !pte_is_leaf(re(s1, i2)) {
                    assert(c_ok(s1, i2));
                    assert(ae(s2, i2, i1) == ae(s1, i2, i1));
                    if pte_is_valid(ae(s1, i2, i1)) && !pte_is_leaf(ae(s1, i2, i1)) {
                        assert(g_ok(s1, i2, i1));
                        assert(ge(s2, i2, i1, l0_index(va)) == ge(s1, i2, i1, l0_index(va)));
                    }
                }
            }
        }
        assert forall|va: u64| megapage_at(s2, va) == megapage_at(s1, va) by {
            lemma_index_ranges(va);
            let i2 = l2_index(va);
            lemma_pte_zero();
            if i2 == index {
                assert(!pte_is_valid(re(s1, i2)));
                assert(!pte_is_valid(ae(s2, i2, l1_index(va))));
            } else {
                if pte_is_valid(re(s1, i2)) && !pte_is_leaf(re(s1, i2)) {
                    assert(c_ok(s1, i2));
                    assert(ae(s2, i2, l1_index(va)) == ae(s1, i2, l1_index(va)));
                }
            }
        }
        assert(tree_wf(s2)) by {
            lemma_pte_zero();
            assert forall|i2: int| c_ok(s2, i2) implies {
                &&& !pte_is_leaf(re(s2, i2))
                &&& has_table(s2, child_addr(s2, i2))
                &&& child_addr(s2, i2) != root_addr(s2)
            } by {
                if i2 != index {
                    assert(c_ok(s1, i2));
                }
            }
            assert forall|i2: int, j2: int|
                c_ok(s2, i2) && c_ok(s2, j2) && i2 != j2 implies #[trigger] child_addr(s2, i2)
                != #[trigger] child_addr(s2, j2) by {
                if i2 != index && j2 != index {
                    assert(c_ok(s1, i2) && c_ok(s1, j2));
                } else if i2 == index {
                    assert(c_ok(s1, j2));
                    assert(child_addr(s2, j2) == child_addr(s1, j2));
                } else {
                    assert(c_ok(s1, i2));
                    assert(child_addr(s2, i2) == child_addr(s1, i2));
                }
            }
            assert forall|i2: int, i1: int| #[trigger] g_ok(s2, i2, i1) implies {
                &&& has_table(s2, gchild_addr(s2, i2, i1))
                &&& gchild_addr(s2, i2, i1) != root_addr(s2)
                &&& forall|j2: int|
                    c_ok(s2, j2) ==> gchild_addr(s2, i2, i1) != #[trigger] child_addr(s2, j2)
            } by {
                assert(i2 != index);
                assert(c_ok(s1, i2));
                assert(ae(s2, i2, i1) == ae(s1, i2, i1));
                assert(g_ok(s1, i2, i1));
                assert(gchild_addr(s2, i2, i1) == gchild_addr(s1, i2, i1));
                assert forall|j2: int| c_ok(s2, j2) implies gchild_addr(s2, i2, i1)
                    != #[trigger] child_addr(s2, j2) by {
                    if j2 != index {
                        assert(c_ok(s1, j2));
                        assert(child_addr(s2, j2) == child_addr(s1, j2));
                    }
                }
            }
            assert forall|i2: int, i1: int, j2: int, j1: int|
                g_ok(s2, i2, i1) && g_ok(s2, j2, j1) && !(i2 == j2 && i1 == j1)
                implies #[trigger] gchild_addr(s2, i2, i1) != #[trigger] gchild_addr(
                s2,
                j2,
                j1,
            ) by {
                assert(i2 != index && j2 != index);
                assert(c_ok(s1, i2) && c_ok(s1, j2));
                assert(ae(s2, i2, i1) == ae(s1, i2, i1));
                assert(ae(s2, j2, j1) == ae(s1, j2, j1));
                assert(g_ok(s1, i2, i1) && g_ok(s1, j2, j1));
            }
        }
    } else {
        // Installing a grandchild under one of the root's children.
        let i2p = choose|i2: int| c_ok(s1, i2) && child_addr(s1, i2) == s1.table_addrs@[parent];
        assert(c_ok(s1, i2p) && child_addr(s1, i2p) == s1.table_addrs@[parent]);
        assert(parent != root_idx(s1)) by {
            assert(child_addr(s1, i2p) != root_addr(s1));
        }
        assert(root_idx(s2) == root_idx(s1));
        assert(forall|i2: int| #[trigger] re(s2, i2) == re(s1, i2));
        assert(forall|i2: int| #[trigger] child_addr(s2, i2) == child_addr(s1, i2));
        assert(addr_index(s1.table_addrs@, s1.table_addrs@[parent]) == parent) by {
            lemma_addr_index_self(s1.table_addrs@, parent);
        }
        // Only the parent's entry list changed, and only at `index`.
        assert forall|i2: int, i1: int|
            c_ok(s1, i2) && 0 <= i1 < 512 && !(i2 == i2p && i1 == index) implies #[trigger] ae(
            s2,
            i2,
            i1,
        ) == ae(s1, i2, i1) by {
            assert(has_table(s1, child_addr(s1, i2)));
            lemma_addr_index_props(s1.table_addrs@, child_addr(s1, i2));
            let j = addr_index(s1.table_addrs@, child_addr(s1, i2));
            if i2 == i2p {
                assert(j == parent);
                assert(s2.tables@[parent].entries@[i1] == s1.tables@[parent].entries@[i1]);
            } else {
                assert(j != parent) by {
                    if j == parent {
                        assert(child_addr(s1, i2) == s1.table_addrs@[parent]);
                        assert(child_addr(s1, i2) == child_addr(s1, i2p));
                    }
                }
                assert(s2.tables@[j] == s1.tables@[j]);
            }
        }
        assert(ae(s2, i2p, index) == ne);
        assert(gchild_addr(s2, i2p, index) == fresh);
        assert(forall|i0: int| 0 <= i0 < 512 ==> ge(s2, i2p, index, i0) == 0);
        assert forall|i2: int, i1: int, i0: int|
            g_ok(s1, i2, i1) && !(i2 == i2p && i1 == index) implies #[trigger] ge(s2, i2, i1, i0)
            == ge(s1, i2, i1, i0) by {
            assert(ae(s2, i2, i1) == ae(s1, i2, i1));
            assert(gchild_addr(s2, i2, i1) == gchild_addr(s1, i2, i1));
            assert(has_table(s1, gchild_addr(s1, i2, i1)));
            lemma_addr_index_props(s1.table_addrs@, gchild_addr(s1, i2, i1));
            let j = addr_index(s1.table_addrs@, gchild_addr(s1, i2, i1));
            assert(j != parent) by {
                if j == parent {
                    assert(gchild_addr(s1, i2, i1) == s1.table_addrs@[parent]);
                    assert(gchild_addr(s1, i2, i1) == child_addr(s1, i2p));
                }
            }
            assert(s2.tables@[j] == s1.tables@[j]);
        }
        assert(ae(s1, i2p, index) == s1.tables@[parent].entries@[index].0);
        assert forall|va: u64| translate_spec(s2, va) == translate_spec(s1, va) by {
            lemma_index_ranges(va);
            let i2 = l2_index(va);
            let i1 = l1_index(va);
            lemma_pte_zero();
            if pte_is_valid(re(s1, i2)) && !pte_is_leaf(re(s1, i2)) {
                assert(c_ok(s1, i2));
                if i2 == i2p && i1 == index {
                    assert(!pte_is_valid(ae(s1, i2, i1)));
                    assert(ae(s2, i2, i1) == ne);
                    assert(!pte_is_valid(ge(s2, i2, i1, l0_index(va))));
                } else {
                    assert(ae(s2, i2, i1) == ae(s1, i2, i1));
                    if pte_is_valid(ae(s1, i2, i1)) && !pte_is_leaf(ae(s1, i2, i1)) {
                        assert(g_ok(s1, i2, i1));
                        assert(ge(s2, i2, i1, l0_index(va)) == ge(s1, i2, i1, l0_index(va)));
                    }
                }
            }
        }
        assert forall|va: u64| megapage_at(s2, va) == megapage_at(s1, va) by {
            lemma_index_ranges(va);
            let i2 = l2_index(va);
            let i1 = l1_index(va);
            lemma_pte_zero();
            if pte_is_valid(re(s1, i2)) && !pte_is_leaf(re(s1, i2)) {
                assert(c_ok(s1, i2));
                if i2 == i2p && i1 == index {
                    assert(!pte_is_valid(ae(s1, i2, i1)));
                    assert(ae(s2, i2, i1) == ne);
                    assert(!pte_is_leaf(ae(s2, i2, i1)));
                } else {
                    assert(ae(s2, i2, i1) == ae(s1, i2, i1));
                }
            }
        }
        assert(tree_wf(s2)) by {
            lemma_pte_zero();
            assert forall|i2: int| c_ok(s2, i2) implies {
                &&& !pte_is_leaf(re(s2, i2))
                &&& has_table(s2, child_addr(s2, i2))
                &&& child_addr(s2, i2) != root_addr(s2)
            } by {
                assert(c_ok(s1, i2));
            }
            assert forall|i2: int, j2: int|
                c_ok(s2, i2) && c_ok(s2, j2) && i2 != j2 implies #[trigger] child_addr(s2, i2)
                != #[trigger] child_addr(s2, j2) by {
                assert(c_ok(s1, i2) && c_ok(s1, j2));
            }
            assert forall|i2: int, i1: int| #[trigger] g_ok(s2, i2, i1) implies {
                &&& has_table(s2, gchild_addr(s2, i2, i1))
                &&& gchild_addr(s2, i2, i1) != root_addr(s2)
                &&& forall|j2: int|
                    c_ok(s2, j2) ==> gchild_addr(s2, i2, i1) != #[trigger] child_addr(s2, j2)
            } by {
                assert(c_ok(s1, i2));
                if i2 == i2p && i1 == index {
                    assert(gchild_addr(s2, i2, i1) == fresh);
                    assert forall|j2: int| c_ok(s2, j2) implies gchild_addr(s2, i2, i1)
                        != #[trigger] child_addr(s2, j2) by {
                        assert(c_ok(s1, j2));
                        assert(child_addr(s1, j2) != fresh);
                    }
                } else {
                    assert(ae(s2, i2, i1) == ae(s1, i2, i1));
                    assert(g_ok(s1, i2, i1));
                    assert(gchild_addr(s2, i2, i1) == gchild_addr(s1, i2, i1));
                    assert forall|j2: int| c_ok(s2, j2) implies gchild_addr(s2, i2, i1)
                        != #[trigger] child_addr(s2, j2) by {
                        assert(c_ok(s1, j2));
                    }
                }
            }
            assert forall|i2: int, i1: int, j2: int, j1: int|
                g_ok(s2, i2, i1) && g_ok(s2, j2, j1) && !(i2 == j2 && i1 == j1)
                implies #[trigger] gchild_addr(s2, i2, i1) != #[trigger] gchild_addr(
                s2,
                j2,
                j1,
            ) by {
                assert(c_ok(s1, i2) && c_ok(s1, j2));
                if i2 == i2p && i1 == index {
                    assert(ae(s2, j2, j1) == ae(s1, j2, j1));
                    assert(g_ok(s1, j2, j1));
                    assert(gchild_addr(s2, j2, j1) == gchild_addr(s1, j2, j1));
                    assert(gchild_addr(s1, j2, j1) != fresh);
                } else if j2 == i2p && j1 == index {
                    assert(ae(s2, i2, i1) == ae(s1, i2, i1));
                    assert(g_ok(s1, i2, i1));
                    assert(gchild_addr(s2, i2, i1) == gchild_addr(s1, i2, i1));
                    assert(gchild_addr(s1, i2, i1) != fresh);
                } else {
                    assert(ae(s2, i2, i1) == ae(s1, i2, i1));
                    assert(ae(s2, j2, j1) == ae(s1, j2, j1));
                    assert(g_ok(s1, i2, i1) && g_ok(s1, j2, j1));
                }
            }
        }
    }
}

/// Writing the middle-level entry on path `(i2, i1)` with a 2MiB leaf (or
/// clearing it) retargets exactly the addresses whose walk goes through that
/// slot and leaves every other translation alone.
proof fn lemma_write_l1(s1: PageSystem, s2: PageSystem, i2: int, i1: int, word: u64)
    requires
        wf(s1),
        s1.root_page_table is Some,
        0 <= i2 < 512,
        0 <= i1 < 512,
        pte_is_valid(re(s1, i2)),
        pte_is_valid(word) ==> pte_is_leaf(word),
        s2.root_page_table == s1.root_page_table,
        s2.table_addrs@ == s1.table_addrs@,
        s2.next_highest_page == s1.next_highest_page,
        s2.free_pages@ == s1.free_pages@,
        s2.tables@.len() == s1.tables@.len(),
        forall|t: int|
            0 <= t < s1.tables@.len() && t != addr_index(s1.table_addrs@, child_addr(s1, i2))
                ==> s2.tables@[t] == s1.tables@[t],
        s2.tables@[addr_index(s1.table_addrs@, child_addr(s1, i2))].entries@ == s1.tables@[addr_index(
            s1.table_addrs@,
            child_addr(s1, i2),
        )].entries@.update(i1, PageTableEntry(word)),
    ensures
        wf(s2),
        forall|va: u64|
            l2_index(va) == i2 && l1_index(va) == i1 ==> translate_spec(s2, va) == (if pte_is_valid(
                word,
            ) {
                Some((pte_ppn(word) << 12) | (va & 0x1F_FFFF))
            } else {
                None
            }),
        ae(s2, i2, i1) == word,
        forall|va: u64|
            l2_index(va) == i2 && l1_index(va) == i1 ==> megapage_at(s2, va) == pte_is_valid(word),
        forall|va: u64|
            !(l2_index(va) == i2 && l1_index(va) == i1) ==> translate_spec(s2, va)
                == translate_spec(s1, va),
        forall|va: u64|
            !(l2_index(va) == i2 && l1_index(va) == i1) ==> megapage_at(s2, va) == megapage_at(
                s1,
                va,
            ),
{
    assert(c_ok(s1, i2));
    assert(has_table(s1, child_addr(s1, i2)));
    lemma_addr_index_props(s1.table_addrs@, child_addr(s1, i2));
    let a = addr_index(s1.table_addrs@, child_addr(s1, i2));
    assert(s1.table_addrs@[a] == child_addr(s1, i2));
    assert(a != root_idx(s1)) by {
        assert(child_addr(s1, i2) != root_addr(s1));
    }
    assert(table_wf(s1.tables@[a]));
    assert(frames_wf(s2)) by {
        assert forall|i: int| 0 <= i < s2.tables@.len() implies table_wf(
            #[trigger] s2.tables@[i],
        ) by {
            assert(table_wf(s1.tables@[i]));
        }
    }
    assert(forall|k: int| #[trigger] re(s2, k) == re(s1, k));
    assert(forall|k: int| #[trigger] child_addr(s2, k) == child_addr(s1, k));
    assert forall|j2: int, j1: int|
        c_ok(s1, j2) && 0 <= j1 < 512 && !(j2 == i2 && j1 == i1) implies #[trigger] ae(s2, j2, j1)
        == ae(s1, j2, j1) by {
        assert(has_table(s1, child_addr(s1, j2)));
        lemma_addr_index_props(s1.table_addrs@, child_addr(s1, j2));
        let j = addr_index(s1.table_addrs@, child_addr(s1, j2));
        if j2 == i2 {
            assert(j == a);
            assert(s2.tables@[a].entries@[j1] == s1.tables@[a].entries@[j1]);
        } else {
            assert(j != a) by {
                if j == a {
                    assert(child_addr(s1, j2) == child_addr(s1, i2));
                }
            }
            assert(s2.tables@[j] == s1.tables@[j]);
        }
    }
    assert(ae(s2, i2, i1) == word);
    assert forall|j2: int, j1: int, j0: int|
        g_ok(s1, j2, j1) && !(j2 == i2 && j1 == i1) implies #[trigger] ge(s2, j2, j1, j0) == ge(
        s1,
        j2,
        j1,
        j0,
    ) by {
        assert(ae(s2, j2, j1) == ae(s1, j2, j1));
        assert(gchild_addr(s2, j2, j1) == gchild_addr(s1, j2, j1));
        assert(has_table(s1, gchild_addr(s1, j2, j1)));
        lemma_addr_index_props(s1.table_addrs@, gchild_addr(s1, j2, j1));
        let j = addr_index(s1.table_addrs@, gchild_addr(s1, j2, j1));
        assert(j != a) by {
            if j == a {
                assert(gchild_addr(s1, j2, j1) == child_addr(s1, i2));
            }
        }
        assert(s2.tables@[j] == s1.tables@[j]);
    }
    assert forall|va: u64|
        !(l2_index(va) == i2 && l1_index(va) == i1) implies translate_spec(s2, va)
        == translate_spec(s1, va) && megapage_at(s2, va) == megapage_at(s1, va) by {
        lemma_index_ranges(va);
        let k2 = l2_index(va);
        let k1 = l1_index(va);
        if pte_is_valid(re(s1, k2)) && !pte_is_leaf(re(s1, k2)) {
            assert(c_ok(s1, k2));
            assert(ae(s2, k2, k1) == ae(s1, k2, k1));
            if pte_is_valid(ae(s1, k2, k1)) && !pte_is_leaf(ae(s1, k2, k1)) {
                assert(g_ok(s1, k2, k1));
                assert(ge(s2, k2, k1, l0_index(va)) == ge(s1, k2, k1, l0_index(va)));
            }
        }
    }
    assert forall|va: u64| l2_index(va) == i2 && l1_index(va) == i1 implies translate_spec(s2, va)
        == (if pte_is_valid(word) {
        Some((pte_ppn(word) << 12) | (va & 0x1F_FFFF))
    } else {
        None
    }) && megapage_at(s2, va) == pte_is_valid(word) by {
        assert(re(s2, i2) == re(s1, i2));
        assert(!pte_is_leaf(re(s1, i2)));
        assert(has_table(s2, child_addr(s2, i2)));
        assert(ae(s2, i2, i1) == word);
    }
    assert(tree_wf(s2)) by {
        assert forall|k2: int| c_ok(s2, k2) implies {
            &&& !pte_is_leaf(re(s2, k2))
            &&& has_table(s2, child_addr(s2, k2))
            &&& child_addr(s2, k2) != root_addr(s2)
        } by {
            assert(c_ok(s1, k2));
        }
        assert forall|k2: int, j2: int|
            c_ok(s2, k2) && c_ok(s2, j2) && k2 != j2 implies #[trigger] child_addr(s2, k2)
            != #[trigger] child_addr(s2, j2) by {
            assert(c_ok(s1, k2) && c_ok(s1, j2));
        }
        assert forall|k2: int, k1: int| #[trigger] g_ok(s2, k2, k1) implies {
            &&& has_table(s2, gchild_addr(s2, k2, k1))
            &&& gchild_addr(s2, k2, k1) != root_addr(s2)
            &&& forall|j2: int|
                c_ok(s2, j2) ==> gchild_addr(s2, k2, k1) != #[trigger] child_addr(s2, j2)
        } by {
            assert(!(k2 == i2 && k1 == i1)) by {
                if k2 == i2 && k1 == i1 {
                    assert(ae(s2, i2, i1) == word);
                }
            }
            assert(c_ok(s1, k2));
            assert(ae(s2, k2, k1) == ae(s1, k2, k1));
            assert(g_ok(s1, k2, k1));
            assert(gchild_addr(s2, k2, k1) == gchild_addr(s1, k2, k1));
            assert forall|j2: int| c_ok(s2, j2) implies gchild_addr(s2, k2, k1)
                != #[trigger] child_addr(s2, j2) by {
                assert(c_ok(s1, j2));
            }
        }
        assert forall|k2: int, k1: int, j2: int, j1: int|
            g_ok(s2, k2, k1) && g_ok(s2, j2, j1) && !(k2 == j2 && k1 == j1)
            implies #[trigger] gchild_addr(s2, k2, k1) != #[trigger] gchild_addr(s2, j2, j1) by {
            assert(!(k2 == i2 && k1 == i1) && !(j2 == i2 && j1 == i1)) by {
                if k2 == i2 && k1 == i1 {
                    assert(ae(s2, i2, i1) == word);
                }
                if j2 == i2 && j1 == i1 {
                    assert(ae(s2, i2, i1) == word);
                }
            }
            assert(c_ok(s1, k2) && c_ok(s1, j2));
            assert(ae(s2, k2, k1) == ae(s1, k2, k1));
            assert(ae(s2, j2, j1) == ae(s1, j2, j1));
            assert(g_ok(s1, k2, k1) && g_ok(s1, j2, j1));
        }
    }
}

/// Writing the bottom-level entry on path `(i2, i1, i0)` retargets exactly
/// the one 4KiB page whose walk reads that slot.
proof fn lemma_write_l0(s1: PageSystem, s2: PageSystem, i2: int, i1: int, i0: int, word: u64)
    requires
        wf(s1),
        s1.root_page_table is Some,
        0 <= i2 < 512,
        0 <= i1 < 512,
        0 <= i0 < 512,
        pte_is_valid(re(s1, i2)),
        g_ok(s1, i2, i1),
        s2.root_page_table == s1.root_page_table,
        s2.table_addrs@ == s1.table_addrs@,
        s2.next_highest_page == s1.next_highest_page,
        s2.free_pages@ == s1.free_pages@,
        s2.tables@.len() == s1.tables@.len(),
        forall|t: int|
            0 <= t < s1.tables@.len() && t != addr_index(s1.table_addrs@, gchild_addr(s1, i2, i1))
                ==> s2.tables@[t] == s1.tables@[t],
        s2.tables@[addr_index(s1.table_addrs@, gchild_addr(s1, i2, i1))].entries@ == s1.tables@[addr_index(
            s1.table_addrs@,
            gchild_addr(s1, i2, i1),
        )].entries@.update(i0, PageTableEntry(word)),
    ensures
        wf(s2),
        forall|va: u64|
            l2_index(va) == i2 && l1_index(va) == i1 && l0_index(va) == i0 ==> translate_spec(
                s2,
                va,
            ) == (if pte_is_valid(word) {
                Some((pte_ppn(word) << 12) | (va & 0xFFF))
            } else {
                None
            }),
        ge(s2, i2, i1, i0) == word,
        forall|va: u64|
            !(l2_index(va) == i2 && l1_index(va) == i1 && l0_index(va) == i0) ==> translate_spec(
                s2,
                va,
            ) == translate_spec(s1, va),
        forall|va: u64| megapage_at(s2, va) == megapage_at(s1, va),
{
    assert(c_ok(s1, i2));
    assert(has_table(s1, child_addr(s1, i2)));
    assert(has_table(s1, gchild_addr(s1, i2, i1)));
    lemma_addr_index_props(s1.table_addrs@, gchild_addr(s1, i2, i1));
    let b = addr_index(s1.table_addrs@, gchild_addr(s1, i2, i1));
    assert(s1.table_addrs@[b] == gchild_addr(s1, i2, i1));
    assert(b != root_idx(s1)) by {
        assert(gchild_addr(s1, i2, i1) != root_addr(s1));
    }
    assert(table_wf(s1.tables@[b]));
    assert(frames_wf(s2)) by {
        assert forall|i: int| 0 <= i < s2.tables@.len() implies table_wf(
            #[trigger] s2.tables@[i],
        ) by {
            assert(table_wf(s1.tables@[i]));
        }
    }
    assert(forall|k: int| #[trigger] re(s2, k) == re(s1, k));
    assert(forall|k: int| #[trigger] child_addr(s2, k) == child_addr(s1, k));
    // No middle-level entry changes: the written table is no root child.
    assert forall|j2: int, j1: int| c_ok(s1, j2) implies #[trigger] ae(s2, j2, j1) == ae(
        s1,
        j2,
        j1,
    ) by {
        assert(has_table(s1, child_addr(s1, j2)));
        lemma_addr_index_props(s1.table_addrs@, child_addr(s1, j2));
        let j = addr_index(s1.table_addrs@, child_addr(s1, j2));
        assert(j != b) by {
            if j == b {
                assert(child_addr(s1, j2) == gchild_addr(s1, i2, i1));
            }
        }
        assert(s2.tables@[j] == s1.tables@[j]);
    }
    assert forall|j2: int, j1: int, j0: int|
        g_ok(s1, j2, j1) && 0 <= j0 < 512 && !(j2 == i2 && j1 == i1 && j0 == i0)
        implies #[trigger] ge(s2, j2, j1, j0) == ge(s1, j2, j1, j0) by {
        assert(ae(s2, j2, j1) == ae(s1, j2, j1));
        assert(gchild_addr(s2, j2, j1) == gchild_addr(s1, j2, j1));
        assert(has_table(s1, gchild_addr(s1, j2, j1)));
        lemma_addr_index_props(s1.table_addrs@, gchild_addr(s1, j2, j1));
        let j = addr_index(s1.table_addrs@, gchild_addr(s1, j2, j1));
        if j2 == i2 && j1 == i1 {
            assert(j == b);
            assert(s2.tables@[b].entries@[j0] == s1.tables@[b].entries@[j0]);
        } else {
            assert(j != b) by {
                if j == b {
                    assert(gchild_addr(s1, j2, j1) == gchild_addr(s1, i2, i1));
                }
            }
            assert(s2.tables@[j] == s1.tables@[j]);
        }
    }
    assert(ge(s2, i2, i1, i0) == word);
    assert forall|va: u64|
        !(l2_index(va) == i2 && l1_index(va) == i1 && l0_index(va) == i0) implies translate_spec(
        s2,
        va,
    ) == translate_spec(s1, va) by {
        lemma_index_ranges(va);
        let k2 = l2_index(va);
        let k1 = l1_index(va);
        if pte_is_valid(re(s1, k2)) && !pte_is_leaf(re(s1, k2)) {
            assert(c_ok(s1, k2));
            assert(ae(s2, k2, k1) == ae(s1, k2, k1));
            if pte_is_valid(ae(s1, k2, k1)) && !pte_is_leaf(ae(s1, k2, k1)) {
                assert(g_ok(s1, k2, k1));
                assert(ge(s2, k2, k1, l0_index(va)) == ge(s1, k2, k1, l0_index(va)));
            }
        }
    }
    assert forall|va: u64| megapage_at(s2, va) == megapage_at(s1, va) by {
        lemma_index_ranges(va);
        let k2 = l2_index(va);
        if pte_is_valid(re(s1, k2)) && !pte_is_leaf(re(s1, k2)) {
            assert(c_ok(s1, k2));
            assert(ae(s2, k2, l1_index(va)) == ae(s1, k2, l1_index(va)));
        }
    }
    assert forall|va: u64|
        l2_index(va) == i2 && l1_index(va) == i1 && l0_index(va) == i0 implies translate_spec(
        s2,
        va,
    ) == (if pte_is_valid(word) {
        Some((pte_ppn(word) << 12) | (va & 0xFFF))
    } else {
        None
    }) by {
        assert(re(s2, i2) == re(s1, i2));
        assert(!pte_is_leaf(re(s1, i2)));
        assert(has_table(s2, child_addr(s2, i2)));
        assert(ae(s2, i2, i1) == ae(s1, i2, i1));
        assert(!pte_is_leaf(ae(s2, i2, i1)));
        assert(has_table(s2, gchild_addr(s2, i2, i1)));
        assert(ge(s2, i2, i1, i0) == word);
    }
    assert(tree_wf(s2)) by {
        assert forall|k2: int| c_ok(s2, k2) implies {
            &&& !pte_is_leaf(re(s2, k2))
            &&& has_table(s2, child_addr(s2, k2))
            &&& child_addr(s2, k2) != root_addr(s2)
        } by {
            assert(c_ok(s1, k2));
        }
        assert forall|k2: int, j2: int|
            c_ok(s2, k2) && c_ok(s2, j2) && k2 != j2 implies #[trigger] child_addr(s2, k2)
            != #[trigger] child_addr(s2, j2) by {
            assert(c_ok(s1, k2) && c_ok(s1, j2));
        }
        assert forall|k2: int, k1: int| #[trigger] g_ok(s2, k2, k1) implies {
            &&& has_table(s2, gchild_addr(s2, k2, k1))
            &&& gchild_addr(s2, k2, k1) != root_addr(s2)
            &&& forall|j2: int|
                c_ok(s2, j2) ==> gchild_addr(s2, k2, k1) != #[trigger] child_addr(s2, j2)
        } by {
            assert(c_ok(s1, k2));
            assert(ae(s2, k2, k1) == ae(s1, k2, k1));
            assert(g_ok(s1, k2, k1));
            assert(gchild_addr(s2, k2, k1) == gchild_addr(s1, k2, k1));
            assert forall|j2: int| c_ok(s2, j2) implies gchild_addr(s2, k2, k1)
                != #[trigger] child_addr(s2, j2) by {
                assert(c_ok(s1, j2));
            }
        }
        assert forall|k2: int, k1: int, j2: int, j1: int|
            g_ok(s2, k2, k1) && g_ok(s2, j2, j1) && !(k2 == j2 && k1 == j1)
            implies #[trigger] gchild_addr(s2, k2, k1) != #[trigger] gchild_addr(s2, j2, j1) by {
            assert(c_ok(s1, k2) && c_ok(s1, j2));
            assert(ae(s2, k2, k1) == ae(s1, k2, k1));
            assert(ae(s2, j2, j1) == ae(s1, j2, j1));
            assert(g_ok(s1, k2, k1) && g_ok(s1, j2, j1));
        }
    }
}

/// Two addresses below the Sv39 limit are in the same 4KiB page exactly
/// when all three table indices agree.
pub proof fn lemma_page_eq_indices(va: u64, vb: u64)
    by (bit_vector)
    requires
        va < 0x80_0000_0000,
        vb < 0x80_0000_0000,
    ensures
        (va >> 12 == vb >> 12) <==> ((va >> 30) & 0x1FF == (vb >> 30) & 0x1FF && (va >> 21) & 0x1FF
            == (vb >> 21) & 0x1FF && (va >> 12) & 0x1FF == (vb >> 12) & 0x1FF),
{
}

/// Two addresses below the Sv39 limit are in the same 2MiB region exactly
/// when the two upper table indices agree.
pub proof fn lemma_mega_eq_indices(va: u64, vb: u64)
    by (bit_vector)
    requires
        va < 0x80_0000_0000,
        vb < 0x80_0000_0000,
    ensures
        (va >> 21 == vb >> 21) <==> ((va >> 30) & 0x1FF == (vb >> 30) & 0x1FF && (va >> 21) & 0x1FF
            == (vb >> 21) & 0x1FF),
{
}

/// For a 4KiB-aligned base, or-ing in a page offset is addition.
pub proof fn lemma_or_offset_4k(a: u64, x: u64)
    by (bit_vector)
    requires
        a % 4096 == 0,
    ensures
        (a | (x & 0xFFF)) == a + (x & 0xFFF),
        x & 0xFFF < 4096,
{
}

/// For a 2MiB-aligned base, or-ing in a megapage offset is addition, and
/// 2MiB alignment implies 4KiB alignment.
pub proof fn lemma_or_offset_2m(a: u64, x: u64)
    by (bit_vector)
    requires
        a % 0x20_0000 == 0,
    ensures
        (a | (x & 0x1F_FFFF)) == a + (x & 0x1F_FFFF),
        x & 0x1F_FFFF < 0x20_0000,
        a % 4096 == 0,
{
}

/// `x` rounded down to a multiple of 4096.
pub open spec fn align_down_4k(x: u64) -> int {
    (x / 4096) * 4096
}

/// Basic facts about rounding down to a page boundary.
pub proof fn lemma_align_down_4k(x: u64)
    by (nonlinear_arith)
    ensures
        x - 4096 < align_down_4k(x) <= x,
        align_down_4k(x) % 4096 == 0,
{
}

/// `x` rounded up to the next multiple of 4096.
pub open spec fn round_up_4k(x: u64) -> int {
    ((x + 4095) / 4096) * 4096
}

/// Basic facts about rounding up to a page boundary.
pub proof fn lemma_round_up_4k(x: u64)
    by (nonlinear_arith)
    ensures
        x <= round_up_4k(x) < x + 4096,
        round_up_4k(x) % 4096 == 0,
{
}

/// A page-aligned address below `x` is at least one whole page below the
/// rounded-up end.
pub proof fn lemma_aligned_below_round(v: u64, x: u64)
    by (nonlinear_arith)
    requires
        v % 4096 == 0,
        v < x,
    ensures
        v + 4096 <= round_up_4k(x),
{
}

/// Which addresses share the 4KiB page of an aligned base, and their
/// offsets within it.
pub proof fn lemma_page_of_aligned(va: u64, v: u64)
    by (bit_vector)
    requires
        v % 4096 == 0,
        v < 0x80_0000_0000,
    ensures
        (va >> 12 == v >> 12) <==> (v <= va < v + 4096),
        v <= va < v + 4096 ==> (va & 0xFFF) == va - v,
{
}

/// Which addresses share the 2MiB region of an aligned base, and their
/// offsets within it.
pub proof fn lemma_mega_of_aligned(va: u64, v: u64)
    by (bit_vector)
    requires
        v % 0x20_0000 == 0,
        v < 0x80_0000_0000,
    ensures
        (va >> 21 == v >> 21) <==> (v <= va < v + 0x20_0000),
        v <= va < v + 0x20_0000 ==> (va & 0x1F_FFFF) == va - v,
{
}

/// If nothing before position `i` matches, the first match is at `i`.
pub proof fn lemma_addr_index_first_match(addrs: Seq<u64>, a: u64, i: int)
    requires
        0 <= i < addrs.len(),
        addrs[i] == a,
        forall|k: int| 0 <= k < i ==> addrs[k] != a,
    ensures
        addr_index(addrs, a) == i,
    decreases i,
{
    if i == 0 {
    } else {
        assert(addrs.drop_first()[i - 1] == a);
        assert forall|k: int| 0 <= k < i - 1 implies addrs.drop_first()[k] != a by {
            assert(addrs[k + 1] != a);
        }
        lemma_addr_index_first_match(addrs.drop_first(), a, i - 1);
    }
}

} // verus!
