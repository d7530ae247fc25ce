//! Page-table entry decoding: the pure bit-level views of entries and
//! addresses.  Walking live page tables is left to the surrounding
//! kernel glue.

use vstd::prelude::*;

verus! {

/// A physical address.
#[derive(Clone, Copy, PartialEq, Eq, Structural, Debug)]
pub struct PhysicalAddress(pub u64);

/// A virtual address.
#[derive(Clone, Copy, PartialEq, Eq, Structural, Debug)]
pub struct VirtualAddress(pub u64);

/// One entry of a page table.
#[derive(Clone, Copy, PartialEq, Eq, Structural, Debug)]
pub struct PageTableEntry {
    pub entry: u64,
}

/// One page table: 512 entries.
pub struct PageTable {
    pub entries: Vec<PageTableEntry>,
}

impl PageTableEntry {
    /// The physical frame address held in the entry, with the flag and
    /// sign-extension bits masked off.
    pub fn address(&self) -> (r: PhysicalAddress)
        ensures
            r.0 == self.entry & 0x000f_ffff_ffff_f000,
    {
        PhysicalAddress(self.entry & 0x000f_ffff_ffff_f000)
    }

    /// Whether the entry maps a huge page rather than a further table.
    pub fn is_huge(&self) -> (r: bool)
        ensures
            r == ((self.entry & 0x80) != 0),
    {
        (self.entry & 0x80) != 0
    }
}

} // verus!
