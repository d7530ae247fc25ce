//! Global descriptor table: pure construction of the descriptor words
//! and segment selectors.  Loading the table into the CPU is left to the
//! surrounding kernel glue.

use vstd::prelude::*;

verus! {

/// Pointer handed to the CPU when a descriptor table is loaded: the
/// table's byte limit and linear base address.
pub struct DescriptorTablePointer {
    pub limit: u16,
    pub base: u64,
}

/// The global descriptor table: eight descriptor slots and the count of
/// slots in use.  Slot 0 stays the mandatory null descriptor.
pub struct GlobalDescriptorTable {
    pub descriptors: Vec<u64>,
    pub size: usize,
}

/// A segment selector: table index in the high bits, requested privilege
/// level in the low two.
#[derive(Clone, Copy, PartialEq, Eq, Structural, Debug)]
pub struct SegmentSelector(pub u16);

/// One descriptor to add: a code/data segment in one word, or a system
/// segment (such as a TSS descriptor) spanning two.
#[derive(Clone, Copy)]
pub enum SegmentDescriptor {
    UserSegment(u64),
    SystemSegment(u128),
}

/// Number of table slots the descriptor occupies.
pub open spec fn descriptor_slots(d: SegmentDescriptor) -> int {
    match d {
        SegmentDescriptor::UserSegment(_) => 1,
        SegmentDescriptor::SystemSegment(_) => 2,
    }
}

/// Requested privilege level encoded into the selector for a descriptor.
pub open spec fn descriptor_rpl(d: SegmentDescriptor) -> u64 {
    match d {
        SegmentDescriptor::UserSegment(value) => (value & 0x3) >> 45,
        SegmentDescriptor::SystemSegment(_) => 0,
    }
}

impl SegmentSelector {
    /// Packs a table index and a requested privilege level.
    pub fn new(index: u16, rpl: u8) -> (r: SegmentSelector)
        ensures
            r.0 == index << 3 | rpl as u16,
    {
        SegmentSelector(index << 3 | rpl as u16)
    }
}

impl GlobalDescriptorTable {
    /// Eight slots in use; the table starts holding only the null
    /// descriptor.
    pub open spec fn wf(self) -> bool {
        self.descriptors.len() == 8 && 1 <= self.size <= 8
    }

    /// A table of eight empty slots, with slot 0 the null descriptor.
    pub fn new() -> (r: GlobalDescriptorTable)
        ensures
            r.wf(),
            r.size == 1,
            forall|i: int| 0 <= i < 8 ==> #[trigger] r.descriptors@[i] == 0,
    {
        let mut descriptors: Vec<u64> = Vec::new();
        let mut i: usize = 0;
        while i < 8
            invariant
                descriptors.len() == i,
                i <= 8,
                forall|k: int| 0 <= k < i ==> #[trigger] descriptors@[k] == 0,
            decreases 8 - i,
        {
            descriptors.push(0);
            i = i + 1;
        }
        GlobalDescriptorTable { descriptors, size: 1 }
    }

    /// Writes the descriptor into the next free slot (two slots for a
    /// system segment) and returns the selector for it.
    pub fn add_entry(&mut self, descriptor: SegmentDescriptor) -> (r: SegmentSelector)
        requires
            old(self).wf(),
            old(self).size + descriptor_slots(descriptor) <= 8,
        ensures
            final(self).wf(),
            final(self).size == old(self).size + descriptor_slots(descriptor),
            final(self).descriptors@ == (match descriptor {
                SegmentDescriptor::UserSegment(value) => old(self).descriptors@.update(
                    old(self).size as int,
                    value,
                ),
                SegmentDescriptor::SystemSegment(value) => old(self).descriptors@
                    .update(old(self).size as int, value as u64)
                    .update(old(self).size + 1, (value >> 64) as u64),
            }),
            r.0 == (old(self).size as u16) << 3 | descriptor_rpl(descriptor) as u16,
    {
        let index = self.size;
        match descriptor {
            SegmentDescriptor::UserSegment(value) => {
                self.descriptors[index] = value;
                self.size = self.size + 1;
            }
            SegmentDescriptor::SystemSegment(value) => {
                self.descriptors[index] = #[verifier::truncate] (value as u64);
                self.descriptors[index + 1] = (value >> 64) as u64;
                self.size = self.size + 2;
            }
        }
        let rpl: u64 = match descriptor {
            SegmentDescriptor::UserSegment(value) => (value & 0x3) >> 45,
            SegmentDescriptor::SystemSegment(_) => 0,
        };
        proof {
            if let SegmentDescriptor::UserSegment(value) = descriptor {
                assert((value & 0x3) >> 45 == 0u64) by (bit_vector);
            }
        }
        SegmentSelector::new(index as u16, #[verifier::truncate] (rpl as u8))
    }
}

} // verus!
