//! Interrupt descriptor table: pure construction of gate entries.
//! Loading the table and taking interrupts are left to the surrounding
//! kernel glue, which also supplies the handler address and the current
//! code-segment selector when a gate is installed.

use vstd::prelude::*;
use crate::paging::VirtualAddress;

verus! {

/// Gate option bits; a fresh gate carries only the must-be-one bits and
/// is marked not-present.
#[derive(Clone, Copy, PartialEq, Eq, Structural, Debug)]
pub struct EntryOptions(pub u16);

/// One interrupt gate: the handler address in three slices, the code
/// segment to run it in, and the option bits.
#[derive(Clone, Copy, PartialEq, Eq, Structural, Debug)]
pub struct Entry {
    pub pointer_low: u16,
    pub gdt_selector: u16,
    pub options: EntryOptions,
    pub pointer_middle: u16,
    pub pointer_high: u32,
    pub reserved: u32,
}

/// Entry value of a vacant table slot.
pub open spec fn missing_entry() -> Entry {
    Entry {
        pointer_low: 0,
        gdt_selector: 0,
        options: EntryOptions(0b1110_0000_0000),
        pointer_middle: 0,
        pointer_high: 0,
        reserved: 0,
    }
}

impl Entry {
    /// A gate marked not-present, for unused slots.
    pub fn missing() -> (r: Entry)
        ensures
            r == missing_entry(),
    {
        Entry {
            gdt_selector: 0,
            pointer_low: 0,
            pointer_middle: 0,
            pointer_high: 0,
            options: EntryOptions(0b1110_0000_0000),
            reserved: 0,
        }
    }

    /// Installs a handler: slices its address into the three pointer
    /// fields, records the given code-segment selector, and marks the
    /// gate present.
    pub fn set_handler_fn(&mut self, addr: u64, gdt_selector: u16)
        ensures
            final(self).pointer_low == (addr % 0x1_0000) as u16,
            final(self).pointer_middle == ((addr >> 16) % 0x1_0000) as u16,
            final(self).pointer_high == (addr >> 32) as u32,
            final(self).gdt_selector == gdt_selector,
            final(self).options == EntryOptions(0b1000_1110_0000_0000),
            final(self).reserved == old(self).reserved,
    {
        self.pointer_low = (addr % 0x1_0000) as u16;
        self.pointer_middle = ((addr >> 16) % 0x1_0000) as u16;
        self.pointer_high = (addr >> 32) as u32;
        self.gdt_selector = gdt_selector;
        self.options = EntryOptions(0b1000_1110_0000_0000);
    }
}

/// The interrupt descriptor table: one named gate per CPU exception and
/// a block of gates for the remaining interrupt vectors.
pub struct InterruptDescriptorTable {
    pub divide_error: Entry,
    pub debug: Entry,
    pub non_maskable_interrupt: Entry,
    pub breakpoint: Entry,
    pub overflow: Entry,
    pub bound_range_exceeded: Entry,
    pub invalid_opcode: Entry,
    pub device_not_available: Entry,
    pub double_fault: Entry,
    pub coprocessor_segment_overrun: Entry,
    pub invalid_tss: Entry,
    pub segment_not_present: Entry,
    pub stack_segment_fault: Entry,
    pub general_protection_fault: Entry,
    pub page_fault: Entry,
    pub reserved_0x0f: Entry,
    pub x87_floating_point: Entry,
    pub alignment_check: Entry,
    pub machine_check: Entry,
    pub simd_floating_point: Entry,
    pub virtualization: Entry,
    pub reserved_0x15: Entry,
    pub reserved_0x16: Entry,
    pub reserved_0x17: Entry,
    pub reserved_0x18: Entry,
    pub reserved_0x19: Entry,
    pub reserved_0x1a: Entry,
    pub reserved_0x1b: Entry,
    pub reserved_0x1c: Entry,
    pub reserved_0x1d: Entry,
    pub security_exception: Entry,
    pub reserved_0x1f: Entry,
    pub interrupts: Vec<Entry>,
}

impl InterruptDescriptorTable {
    /// All gates unused: the named exception slots and the 224 vector
    /// slots all hold the not-present gate.
    pub fn new() -> (r: InterruptDescriptorTable)
        ensures
            r.breakpoint == missing_entry(),
            r.divide_error == missing_entry(),
            r.double_fault == missing_entry(),
            r.page_fault == missing_entry(),
            r.general_protection_fault == missing_entry(),
            r.interrupts.len() == 224,
            forall|i: int| 0 <= i < 224 ==> #[trigger] r.interrupts@[i] == missing_entry(),
    {
        let mut interrupts: Vec<Entry> = Vec::new();
        let mut i: usize = 0;
        while i < 224
            invariant
                interrupts.len() == i,
                i <= 224,
                forall|k: int| 0 <= k < i ==> #[trigger] interrupts@[k] == missing_entry(),
            decreases 224 - i,
        {
            interrupts.push(Entry::missing());
            i = i + 1;
        }
        InterruptDescriptorTable {
            divide_error: Entry::missing(),
            debug: Entry::missing(),
            non_maskable_interrupt: Entry::missing(),
            breakpoint: Entry::missing(),
            overflow: Entry::missing(),
            bound_range_exceeded: Entry::missing(),
            invalid_opcode: Entry::missing(),
            device_not_available: Entry::missing(),
            double_fault: Entry::missing(),
            coprocessor_segment_overrun: Entry::missing(),
            invalid_tss: Entry::missing(),
            segment_not_present: Entry::missing(),
            stack_segment_fault: Entry::missing(),
            general_protection_fault: Entry::missing(),
            page_fault: Entry::missing(),
            reserved_0x0f: Entry::missing(),
            x87_floating_point: Entry::missing(),
            alignment_check: Entry::missing(),
            machine_check: Entry::missing(),
            simd_floating_point: Entry::missing(),
            virtualization: Entry::missing(),
            reserved_0x15: Entry::missing(),
            reserved_0x16: Entry::missing(),
            reserved_0x17: Entry::missing(),
            reserved_0x18: Entry::missing(),
            reserved_0x19: Entry::missing(),
            reserved_0x1a: Entry::missing(),
            reserved_0x1b: Entry::missing(),
            reserved_0x1c: Entry::missing(),
            reserved_0x1d: Entry::missing(),
            security_exception: Entry::missing(),
            reserved_0x1f: Entry::missing(),
            interrupts,
        }
    }
}

/// What the CPU pushes when an interrupt is taken.
#[derive(Clone, Copy)]
pub struct InterruptStackFrameValue {
    pub instruction_pointer: VirtualAddress,
    pub code_segment: u64,
    pub cpu_flags: u64,
    pub stack_pointer: VirtualAddress,
    pub stack_segment: u64,
}

/// The stack frame as a handler receives it.
#[derive(Clone, Copy)]
pub struct InterruptStackFrame {
    pub value: InterruptStackFrameValue,
}

} // verus!
