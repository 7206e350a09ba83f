use asteria::memory::{init as memory_init, EfiMemoryDescriptor, FrameAllocator};
use asteria::paging::{
    init, map_page, try_map_page, PageTableEntry, PageTableMemory, ENTRY_ADDR_MASK, PRESENT,
    WRITABLE,
};

fn conventional(num_pages: u64) -> FrameAllocator {
    memory_init(&[EfiMemoryDescriptor {
        mem_type: 7,
        padding: 0,
        phys_start: 0,
        virt_start: 0,
        num_pages,
        attr: 0,
    }])
}

/// Follows the walk for `virt` through present entries; the PT entry.
fn walk(mem: &PageTableMemory, pml4: u64, virt: u64) -> Option<u64> {
    let mut table = pml4;
    for shift in [39u64, 30, 21] {
        let e = mem.entry(table, ((virt >> shift) & 0x1ff) as usize);
        if e & PRESENT == 0 || !mem.contains(e & ENTRY_ADDR_MASK) {
            return None;
        }
        table = e & ENTRY_ADDR_MASK;
    }
    Some(mem.entry(table, ((virt >> 12) & 0x1ff) as usize))
}

#[test]
fn entry_new_is_not_present() {
    let e = PageTableEntry::new();
    assert!(!e.is_present());
    assert_eq!(e.addr(), 0);
}

#[test]
fn entry_set_keeps_address_bits_and_flags() {
    let mut e = PageTableEntry::new();
    e.set(0x1234_5678_9abc, PRESENT | WRITABLE);
    assert!(e.is_present());
    assert_eq!(e.addr(), 0x1234_5678_9000);
    e.set(0xfff0_0000_0000_1fff, WRITABLE);
    assert!(!e.is_present());
    assert_eq!(e.addr(), 0x1000);
}

#[test]
fn entry_flags_outside_mask_can_spill_into_address() {
    let mut e = PageTableEntry::new();
    e.set(0x2000, 0x1000 | PRESENT);
    assert_eq!(e.addr(), 0x2000 | 0x1000);
}

#[test]
fn map_page_creates_missing_tables() {
    let mut f = conventional(4096);
    let mut mem = PageTableMemory::new();
    let pml4 = f.allocate_page().unwrap();
    mem.install_zeroed(pml4);
    map_page(&mut mem, pml4, 0xffff_8000_0020_3000, 0x55_5000, WRITABLE, &mut f);
    // The PDPT, PD and PT took the next three frames.
    assert_eq!(pml4, 0x10_0000);
    assert_eq!(mem.entry(pml4, 256), 0x10_1000 | PRESENT | WRITABLE);
    assert_eq!(mem.entry(0x10_1000, 0), 0x10_2000 | PRESENT | WRITABLE);
    assert_eq!(mem.entry(0x10_2000, 1), 0x10_3000 | PRESENT | WRITABLE);
    assert_eq!(mem.entry(0x10_3000, 3), 0x55_5000 | WRITABLE | PRESENT);
    assert_eq!(walk(&mem, pml4, 0xffff_8000_0020_3000), Some(0x55_5003));
    assert_eq!(f.allocate_page(), Some(0x10_4000));
}

#[test]
fn map_page_reuses_present_tables() {
    let mut f = conventional(4096);
    let mut mem = PageTableMemory::new();
    let pml4 = f.allocate_page().unwrap();
    mem.install_zeroed(pml4);
    map_page(&mut mem, pml4, 0x40_0000, 0x80_0000, 0, &mut f);
    map_page(&mut mem, pml4, 0x40_1000, 0x90_0000, 0, &mut f);
    assert_eq!(walk(&mem, pml4, 0x40_0000), Some(0x80_0001));
    assert_eq!(walk(&mem, pml4, 0x40_1000), Some(0x90_0001));
    // No table was created for the second page.
    assert_eq!(f.allocate_page(), Some(0x10_4000));
}

#[test]
fn map_page_overwrites_earlier_mapping() {
    let mut f = conventional(4096);
    let mut mem = PageTableMemory::new();
    let pml4 = f.allocate_page().unwrap();
    mem.install_zeroed(pml4);
    map_page(&mut mem, pml4, 0x5000, 0x6000, WRITABLE, &mut f);
    map_page(&mut mem, pml4, 0x5000, 0x7000, 0, &mut f);
    assert_eq!(walk(&mem, pml4, 0x5000), Some(0x7001));
    assert_eq!(walk(&mem, pml4, 0x6000), Some(0));
}

#[test]
fn init_identity_maps_all_pages() {
    let mut f = conventional(2048);
    let mut mem = PageTableMemory::new();
    let pml4 = init(&mut f, &mut mem).unwrap();
    assert_eq!(pml4, 0x10_0000);
    for page in 0..2048u64 {
        let addr = page * 4096;
        assert_eq!(walk(&mem, pml4, addr), Some(addr | PRESENT | WRITABLE));
    }
    assert_eq!(walk(&mem, pml4, 2048 * 4096), None);
    // PML4, PDPT, PD and 4 PTs (8 MiB).
    assert_eq!(f.allocate_page(), Some(0x10_7000));
}

#[test]
fn map_page_twice_changes_nothing() {
    let mut f = conventional(4096);
    let mut mem = PageTableMemory::new();
    let pml4 = f.allocate_page().unwrap();
    mem.install_zeroed(pml4);
    map_page(&mut mem, pml4, 0x7000_0000, 0x9000, WRITABLE, &mut f);
    let frames = mem.frames();
    map_page(&mut mem, pml4, 0x7000_0000, 0x9000, WRITABLE, &mut f);
    assert_eq!(mem.frames(), frames);
    assert_eq!(walk(&mem, pml4, 0x7000_0000), Some(0x9003));
    assert_eq!(f.allocate_page(), Some(0x10_4000));
}


#[test]
fn init_running_out_of_frames_returns_none() {
    // 258 pages: two free frames, enough for the PML4 and the PDPT only.
    let mut f = conventional(258);
    let mut mem = PageTableMemory::new();
    assert_eq!(init(&mut f, &mut mem), None);
    // The PML4 and the PDPT were installed before the PD could not be.
    assert_eq!(mem.frames(), vec![0x10_0000, 0x10_1000]);
    assert_eq!(mem.entry(0x10_0000, 0), 0x10_1000 | PRESENT | WRITABLE);
    assert_eq!(f.allocate_page(), None);
}

#[test]
fn try_map_page_reports_missing_pml4_and_exhaustion() {
    let mut f = conventional(258);
    let mut mem = PageTableMemory::new();
    // No table at 0x100000 yet.
    assert!(!try_map_page(&mut mem, 0x10_0000, 0, 0x1000, WRITABLE, &mut f));
    let pml4 = f.allocate_page().unwrap();
    mem.install_zeroed(pml4);
    // One frame left: the PDPT takes it, the PD cannot be made.
    assert!(!try_map_page(&mut mem, pml4, 0, 0x1000, WRITABLE, &mut f));
    assert_eq!(mem.entry(pml4, 0), 0x10_1000 | PRESENT | WRITABLE);
    assert_eq!(f.allocate_page(), None);
}
