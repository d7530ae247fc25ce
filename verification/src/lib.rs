//! Core logic of a minimal freestanding kernel.
//!
//! The heart of the crate is the heap memory manager: an in-place
//! boundary-tag block layer ([`node`]), a segregated free-list index
//! ([`arena`]) and the allocate/split/coalesce front-end ([`allocator`]).
//! The backing region is modelled as an explicitly sized, bounds-checked
//! buffer of 64-bit words; block addresses are word offsets into it.
//!
//! Around the heap stand the other pure parts of the kernel: descriptor
//! tables ([`gdt`], [`idt`]), page-table entry decoding ([`paging`]), the
//! physical frame allocator ([`frame_allocator`]) and the serial device
//! descriptor ([`ktty`]).

pub mod node;
pub mod arena;
pub mod allocator;
pub mod gdt;
pub mod idt;
pub mod paging;
pub mod ktty;
pub mod frame_allocator;
