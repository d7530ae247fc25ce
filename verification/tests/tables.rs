//! Descriptor tables, page-table entries, serial device and the frame
//! allocator.

use kernel::frame_allocator::{FrameAllocator, FrameRange, MemRegion};
use kernel::gdt::{GlobalDescriptorTable, SegmentDescriptor, SegmentSelector};
use kernel::idt::{Entry, InterruptDescriptorTable};
use kernel::ktty::Device;
use kernel::paging::PageTableEntry;

#[test]
fn gdt_starts_with_only_the_null_descriptor() {
    let gdt = GlobalDescriptorTable::new();
    assert_eq!(gdt.size, 1);
    assert!(gdt.descriptors.iter().all(|&d| d == 0));
}

#[test]
fn gdt_add_entry_packs_the_selector() {
    let mut gdt = GlobalDescriptorTable::new();
    let kernel_code = gdt.add_entry(SegmentDescriptor::UserSegment(0x0020_9a00_0000_0000));
    let kernel_data = gdt.add_entry(SegmentDescriptor::UserSegment(0x0000_9200_0000_0000));
    assert_eq!(kernel_code, SegmentSelector(1 << 3));
    assert_eq!(kernel_data, SegmentSelector(2 << 3));
    assert_eq!(gdt.size, 3);
    assert_eq!(gdt.descriptors[1], 0x0020_9a00_0000_0000);
    assert_eq!(gdt.descriptors[2], 0x0000_9200_0000_0000);
}

#[test]
fn gdt_system_segment_takes_two_slots() {
    let mut gdt = GlobalDescriptorTable::new();
    let value: u128 = (0x1111_2222_3333_4444u128 << 64) | 0x5555_6666_7777_8888u128;
    let sel = gdt.add_entry(SegmentDescriptor::SystemSegment(value));
    assert_eq!(sel, SegmentSelector(1 << 3));
    assert_eq!(gdt.size, 3);
    assert_eq!(gdt.descriptors[1], 0x5555_6666_7777_8888);
    assert_eq!(gdt.descriptors[2], 0x1111_2222_3333_4444);
}

#[test]
fn segment_selector_packs_index_and_rpl() {
    let sel = SegmentSelector::new(2, 3);
    assert_eq!(sel.0, (2 << 3) | 3);
}

#[test]
fn idt_starts_with_every_gate_missing() {
    let idt = InterruptDescriptorTable::new();
    assert_eq!(idt.breakpoint, Entry::missing());
    assert_eq!(idt.double_fault, Entry::missing());
    assert_eq!(idt.interrupts.len(), 224);
    assert!(idt.interrupts.iter().all(|&e| e == Entry::missing()));
    assert_eq!(Entry::missing().options.0, 0b1110_0000_0000);
}

#[test]
fn set_handler_slices_the_address() {
    let mut idt = InterruptDescriptorTable::new();
    idt.breakpoint.set_handler_fn(0x1234_5678_9abc_def0, 8);
    assert_eq!(idt.breakpoint.pointer_low, 0xdef0);
    assert_eq!(idt.breakpoint.pointer_middle, 0x9abc);
    assert_eq!(idt.breakpoint.pointer_high, 0x1234_5678);
    assert_eq!(idt.breakpoint.gdt_selector, 8);
    assert_eq!(idt.breakpoint.options.0, 0b1000_1110_0000_0000);
}

#[test]
fn page_table_entry_decodes_address_and_huge_bit() {
    let entry = PageTableEntry { entry: 0x0000_0000_dead_b083 };
    assert_eq!(entry.address().0, 0x0000_0000_dead_b000);
    assert!(entry.is_huge());
    let entry = PageTableEntry { entry: 0x0000_0000_dead_b003 };
    assert!(!entry.is_huge());
}

#[test]
fn serial_device_keeps_its_port() {
    let device = Device::new(0x3f8);
    assert_eq!(device.iobase, 0x3f8);
}

#[test]
fn frame_allocator_keeps_usable_regions_as_frame_numbers() {
    let mut frames = FrameAllocator::new();
    let regions = vec![
        MemRegion { start_addr: 0x0000, end_addr: 0x4000, usable: false },
        MemRegion { start_addr: 0x4000, end_addr: 0x8000, usable: true },
        MemRegion { start_addr: 0x8000, end_addr: 0x9000, usable: false },
        MemRegion { start_addr: 0x10000, end_addr: 0x13000, usable: true },
    ];
    frames.init(&regions);
    assert_eq!(frames.ranges[0], FrameRange(0x4, 0x8));
    assert_eq!(frames.ranges[1], FrameRange(0x10, 0x13));
    assert_eq!(frames.ranges[2], FrameRange(0, 0));
}

#[test]
fn frames_are_served_in_order_until_exhausted() {
    let mut frames = FrameAllocator::new();
    let regions = vec![
        MemRegion { start_addr: 0x1000, end_addr: 0x3000, usable: true },
        MemRegion { start_addr: 0x5000, end_addr: 0x6000, usable: true },
    ];
    frames.init(&regions);
    assert_eq!(frames.allocate_frame(), Some(0x1000));
    assert_eq!(frames.allocate_frame(), Some(0x2000));
    assert_eq!(frames.allocate_frame(), Some(0x5000));
    assert_eq!(frames.allocate_frame(), None);
}
