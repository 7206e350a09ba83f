//! Memory management and boot logic of the Asteria x86-64 kernel and its
//! UEFI bootloader: the buddy, frame and slab allocators, the kernel heap's
//! routing, four-level page tables, the ELF64 loader, interrupt gates and
//! the UEFI data types.

pub mod buddy;
pub mod memory;
pub mod slab;
pub mod allocator;
pub mod parser;
pub mod paging;
pub mod idt;
pub mod uefi;
