# asteria

The memory management and boot logic of the Asteria x86-64 kernel and its
UEFI bootloader, verified with Verus.

`src/` is the verified library:

- `buddy` — buddy allocator: carving a region into power-of-two blocks and
  allocating with splitting.
- `memory` — UEFI memory map entries and the bitmap frame allocator.
- `slab` — slabs of fixed-size slots and the slab allocator's size classes.
- `allocator` — the kernel heap's routing between slabs and page frames.
- `paging` — page table entries, page tables in physical memory, mapping a
  page through the four levels, and the identity map.
- `parser` — the ELF64 loader: header checks, segment loading and
  `R_X86_64_RELATIVE` relocations.
- `idt` — interrupt gates and exception names.
- `uefi` — plain UEFI data types and the kernel buffer sizes.

Physical memory the kernel manages through raw pointers (free lists inside
free blocks, the frame bitmap, page tables, the ELF load buffer) is held in
the library as ordinary values: vectors of addresses, a byte vector, a map
of tables by frame address, and a byte slice.

`app/` holds what stays outside verification: the GDT and IDT loading, the
exception stubs, serial output, the global allocator behind a spin lock,
reading the memory map, writing the page tables to their frames, and the
UEFI boot flow.
