//! Bit-packed page-table entry for RISC-V Sv39 paging.
//!
//! Wire format (one 64-bit word): bit 0 Valid, bit 1 Readable, bit 2
//! Writable, bit 3 Executable, bit 4 User, bit 5 Global, bit 6 Accessed,
//! bit 7 Dirty; bits 10..=53 hold the physical page number (address >> 12).
//! The all-zero pattern decodes as invalid.

use vstd::prelude::*;

use crate::flags::{EXECUTABLE, READABLE, VALID, WRITABLE};

verus! {

/// Mask of the 44-bit physical page number field.
pub const PPN_MASK: u64 = 0xFFF_FFFF_FFFF;

/// Largest flag word that fits the flag bits (bits 0..=7).
pub const FLAG_LIMIT: u64 = 0x100;

/// Largest physical page number that fits the 44-bit field.
pub const PPN_LIMIT: u64 = 0x1000_0000_0000;

/// True when the entry's valid bit (V) is set.
pub open spec fn pte_is_valid(e: u64) -> bool {
    e & VALID != 0
}

/// True when the entry is a leaf mapping: valid with at least one of R/W/X.
/// A valid entry with R=W=X=0 is a pointer to the next-level table.
pub open spec fn pte_is_leaf(e: u64) -> bool {
    pte_is_valid(e) && (e & (READABLE | WRITABLE | EXECUTABLE)) != 0
}

/// The physical page number stored in bits 10..=53.
pub open spec fn pte_ppn(e: u64) -> u64 {
    (e >> 10) & PPN_MASK
}

/// The full entry word built from a physical page number and flag bits.
pub open spec fn pte_make(ppn: u64, flag_bits: u64) -> u64 {
    (ppn << 10) | flag_bits
}

/// Field extraction inverts construction while the fields stay in range.
pub proof fn lemma_pte_make_fields(ppn: u64, f: u64)
    requires
        ppn < PPN_LIMIT,
        f < FLAG_LIMIT,
    ensures
        pte_ppn(pte_make(ppn, f)) == ppn,
        pte_is_valid(pte_make(ppn, f)) == (f & VALID != 0),
        pte_is_leaf(pte_make(ppn, f)) == (f & VALID != 0 && f & (READABLE | WRITABLE
            | EXECUTABLE) != 0),
{
    assert((((ppn << 10) | f) >> 10) & 0xFFF_FFFF_FFFF == ppn) by (bit_vector)
        requires
            ppn < 0x1000_0000_0000u64,
            f < 0x100u64,
    ;
    assert(((ppn << 10) | f) & 0x01 == f & 0x01) by (bit_vector)
        requires
            f < 0x100u64,
    ;
    assert(((ppn << 10) | f) & (0x02u64 | 0x04 | 0x08) == f & (0x02u64 | 0x04 | 0x08))
        by (bit_vector)
        requires
            f < 0x100u64,
    ;
}

/// The zero entry has no flag set and no page number.
pub proof fn lemma_pte_zero()
    ensures
        !pte_is_valid(0),
        !pte_is_leaf(0),
        pte_ppn(0) == 0,
{
    assert(0u64 & 0x01 == 0) by (bit_vector);
    assert((0u64 >> 10) & 0xFFF_FFFF_FFFF == 0) by (bit_vector);
}

/// One 64-bit translation slot.
#[derive(Copy, Clone, PartialEq, Eq, Structural, Debug)]
pub struct PageTableEntry(pub u64);

impl PageTableEntry {
    /// Creates a new empty (invalid) page table entry.
    pub fn new() -> (r: Self)
        ensures
            r.0 == 0,
    {
        PageTableEntry(0)
    }

    /// Checks if the entry is valid (V=1).
    pub fn is_valid(&self) -> (r: bool)
        ensures
            r == pte_is_valid(self.0),
    {
        self.0 & VALID != 0
    }

    /// Checks if this is a leaf entry (valid and has R, W, or X permissions).
    pub fn is_leaf(&self) -> (r: bool)
        ensures
            r == pte_is_leaf(self.0),
    {
        self.is_valid() && (self.0 & (READABLE | WRITABLE | EXECUTABLE)) != 0
    }

    /// Sets the given flag bits, leaving all other bits alone.
    pub fn set_flags(&mut self, flag_bits: u64)
        ensures
            final(self).0 == old(self).0 | flag_bits,
    {
        self.0 = self.0 | flag_bits;
    }

    /// Clears the given flag bits, leaving all other bits alone.
    pub fn clear_flags(&mut self, flag_bits: u64)
        ensures
            final(self).0 == old(self).0 & !flag_bits,
    {
        self.0 = self.0 & !flag_bits;
    }

    /// Checks if all of the given flag bits are set.
    pub fn has_flags(&self, flag_bits: u64) -> (r: bool)
        ensures
            r == (self.0 & flag_bits == flag_bits),
    {
        (self.0 & flag_bits) == flag_bits
    }

    /// Sets the physical page number, preserving the low flag bits.
    pub fn set_ppn(&mut self, ppn: u64)
        requires
            ppn < PPN_LIMIT,
        ensures
            final(self).0 == (old(self).0 & 0x3FF) | (ppn << 10),
    {
        self.0 = (self.0 & 0x3FF) | (ppn << 10);
    }

    /// Gets the physical page number.
    pub fn get_ppn(&self) -> (r: u64)
        ensures
            r == pte_ppn(self.0),
    {
        (self.0 >> 10) & PPN_MASK
    }

    /// Sets both the physical address and flags in one operation, recomputing
    /// the full word so that no stale bits survive.
    pub fn set_address(&mut self, addr: u64, flag_bits: u64)
        requires
            flag_bits < FLAG_LIMIT,
        ensures
            final(self).0 == pte_make((addr >> 12) & PPN_MASK, flag_bits),
    {
        let ppn = (addr >> 12) & PPN_MASK;
        self.0 = (ppn << 10) | flag_bits;
    }

    /// Completely clears the entry, making it invalid.
    pub fn clear(&mut self)
        ensures
            final(self).0 == 0,
    {
        self.0 = 0;
    }
}

/// A physical page number as its own type.
pub struct PPN(pub u64);

/// Converts a physical address to its page number, truncated to the
/// 44 bits that fit a page-table entry.
pub fn physical_addr_to_ppn(addr: u64) -> (r: PPN)
    ensures
        r.0 == (addr >> 12) & PPN_MASK,
{
    proof {
        assert((addr << 8) >> 20 == (addr >> 12) & 0xFFF_FFFF_FFFF) by (bit_vector);
    }
    PPN((addr << 8) >> 20)
}

/// The individual flag bits, named.
#[derive(Copy, Clone, PartialEq, Eq, Structural, Debug)]
pub enum PageTableEntryFlag {
    Valid,
    Readable,
    Writable,
    Executable,
    User,
    Global,
    Accessed,
    Dirty,
}

/// The single-bit mask a named flag stands for.
pub open spec fn flag_mask(f: PageTableEntryFlag) -> u64 {
    match f {
        PageTableEntryFlag::Valid => 0x01,
        PageTableEntryFlag::Readable => 0x02,
        PageTableEntryFlag::Writable => 0x04,
        PageTableEntryFlag::Executable => 0x08,
        PageTableEntryFlag::User => 0x10,
        PageTableEntryFlag::Global => 0x20,
        PageTableEntryFlag::Accessed => 0x40,
        PageTableEntryFlag::Dirty => 0x80,
    }
}

impl PageTableEntryFlag {
    /// The flag's bit mask.
    pub fn mask(self) -> (r: u64)
        ensures
            r == flag_mask(self),
    {
        match self {
            PageTableEntryFlag::Valid => 0x01,
            PageTableEntryFlag::Readable => 0x02,
            PageTableEntryFlag::Writable => 0x04,
            PageTableEntryFlag::Executable => 0x08,
            PageTableEntryFlag::User => 0x10,
            PageTableEntryFlag::Global => 0x20,
            PageTableEntryFlag::Accessed => 0x40,
            PageTableEntryFlag::Dirty => 0x80,
        }
    }
}

impl PageTableEntry {
    /// Sets or clears one named flag.
    pub fn set_flag(&mut self, flag: PageTableEntryFlag, value: bool)
        ensures
            final(self).0 == if value {
                old(self).0 | flag_mask(flag)
            } else {
                old(self).0 & !flag_mask(flag)
            },
    {
        if value {
            self.0 = self.0 | flag.mask();
        } else {
            self.0 = self.0 & !flag.mask();
        }
    }

    /// Reads one named flag.
    pub fn get_flag(&self, flag: PageTableEntryFlag) -> (r: bool)
        ensures
            r == (self.0 & flag_mask(flag) != 0),
    {
        self.0 & flag.mask() != 0
    }
}

} // verus!
