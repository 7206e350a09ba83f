use asteria::allocator::KernelAllocatorInner;
use asteria::buddy::{size_to_order, BuddyAllocator};
use asteria::memory::{init, memory_map_supported, EfiMemoryDescriptor, FrameAllocator};
use asteria::slab::{Slab, SlabAllocator};

fn region(mem_type: u32, phys_start: u64, num_pages: u64) -> EfiMemoryDescriptor {
    EfiMemoryDescriptor {
        mem_type,
        padding: 0,
        phys_start,
        virt_start: 0,
        num_pages,
        attr: 0,
    }
}

/// A machine with 16 MiB of conventional memory starting at 0.
fn sixteen_mib() -> FrameAllocator {
    init(&[region(7, 0, 4096)])
}

#[test]
fn size_to_order_picks_smallest_fitting_block() {
    assert_eq!(size_to_order(0), 0);
    assert_eq!(size_to_order(1), 0);
    assert_eq!(size_to_order(4096), 0);
    assert_eq!(size_to_order(4097), 1);
    assert_eq!(size_to_order(8192), 1);
    assert_eq!(size_to_order(8193), 2);
    assert_eq!(size_to_order(4096 << 10), 10);
    assert_eq!(size_to_order((4096 << 10) + 1), 11);
    assert_eq!(size_to_order(4096 << 11), 11);
    assert_eq!(size_to_order((4096 << 11) + 1), 11);
    assert_eq!(size_to_order(u64::MAX), 11);
}

#[test]
fn buddy_new_has_nothing_to_hand_out() {
    let mut b = BuddyAllocator::new();
    assert_eq!(b.allocate(1), None);
    assert_eq!(b.allocate(4096 << 11), None);
}

#[test]
fn buddy_splits_a_block_and_hands_out_its_halves() {
    let mut b = BuddyAllocator::new();
    b.init(0, 8192);
    assert_eq!(b.allocate(4096), Some(0));
    assert_eq!(b.allocate(4096), Some(4096));
    assert_eq!(b.allocate(4096), None);
}

#[test]
fn buddy_split_leaves_one_buddy_per_order() {
    let base = 0x40_0000u64;
    let mut b = BuddyAllocator::new();
    b.init(base, 4096 << 10);
    assert_eq!(b.allocate(100), Some(base));
    assert_eq!(b.allocate(4096), Some(base + 4096));
    assert_eq!(b.allocate(8192), Some(base + 8192));
    assert_eq!(b.allocate(16384), Some(base + 16384));
    assert_eq!(b.allocate(4096 << 9), Some(base + (4096 << 9)));
    assert_eq!(b.allocate(4096 << 5), Some(base + (4096 << 5)));
    // The remaining buddies are of orders 3, 4, 6, 7 and 8.
    assert_eq!(b.allocate(1), Some(base + (4096 << 3)));
    assert_eq!(b.allocate(4096 << 8), Some(base + (4096 << 8)));
}

#[test]
fn buddy_init_cuts_largest_blocks_then_the_rest() {
    let mut b = BuddyAllocator::new();
    b.init(0, (4096 << 11) + 4096);
    assert_eq!(b.allocate(4096), Some(4096 << 11));
    assert_eq!(b.allocate(4096 << 11), Some(0));
    assert_eq!(b.allocate(1), None);
}

#[test]
fn buddy_largest_block_is_eight_mib() {
    let mut b = BuddyAllocator::new();
    b.init(0, 0x80_0000);
    assert_eq!(b.allocate(0x80_0000), Some(0));
    assert_eq!(b.allocate(1), None);
}

#[test]
fn buddy_init_on_unaligned_region_uses_pages_and_overshoots_by_less_than_a_page() {
    let mut b = BuddyAllocator::new();
    b.init(100, 10000);
    // Blocks at 100, 4196 and 8292, all single pages (the start is not
    // aligned to anything larger); the last one ends past 10100.
    assert_eq!(b.allocate(1), Some(8292));
    assert_eq!(b.allocate(1), Some(4196));
    assert_eq!(b.allocate(1), Some(100));
    assert_eq!(b.allocate(1), None);
}

#[test]
fn buddy_init_takes_aligned_blocks_as_large_as_fit() {
    let mut b = BuddyAllocator::new();
    // 12 KiB at 16 KiB: an 8 KiB block (16 KiB is 8 KiB aligned), then a page.
    b.init(0x4000, 0x3000);
    assert_eq!(b.allocate(8192), Some(0x4000));
    assert_eq!(b.allocate(4096), Some(0x6000));
    assert_eq!(b.allocate(4096), None);
}

#[test]
fn buddy_request_larger_than_any_block_gets_a_largest_block() {
    let mut b = BuddyAllocator::new();
    b.init(0, 4096 << 11);
    assert_eq!(b.allocate(u64::MAX), Some(0));
    assert_eq!(b.allocate(1), None);
}

#[test]
fn slab_hands_out_slots_in_address_order() {
    let mut s = Slab::new(0x1000, 1024);
    assert_eq!(s.allocate(), Some(0x1000));
    assert_eq!(s.allocate(), Some(0x1400));
    assert_eq!(s.allocate(), Some(0x1800));
    assert_eq!(s.allocate(), Some(0x1c00));
    assert_eq!(s.allocate(), None);
}

#[test]
fn slab_free_then_allocate_returns_freed_slot() {
    let mut s = Slab::new(0x2000, 2048);
    assert_eq!(s.allocate(), Some(0x2000));
    s.free(0x2000);
    assert_eq!(s.allocate(), Some(0x2000));
    assert_eq!(s.allocate(), Some(0x2800));
    s.free(0x2800);
    s.free(0x2000);
    assert_eq!(s.allocate(), Some(0x2000));
    assert_eq!(s.allocate(), Some(0x2800));
    assert_eq!(s.allocate(), None);
}

#[test]
fn slab_at_page_zero_is_empty() {
    let mut s = Slab::new(0, 32);
    assert_eq!(s.allocate(), None);
}

#[test]
fn slab_with_page_sized_objects_has_one_slot() {
    let mut s = Slab::new(0x5000, 4096);
    assert_eq!(s.allocate(), Some(0x5000));
    assert_eq!(s.allocate(), None);
}

#[test]
fn slab_with_odd_object_size_leaves_tail_unused() {
    let mut s = Slab::new(0x1000, 3000);
    assert_eq!(s.allocate(), Some(0x1000));
    assert_eq!(s.allocate(), None);
}

#[test]
fn frame_init_reserves_low_memory_and_bitmap() {
    let mut f = sixteen_mib();
    // Page 0 holds the bitmap and the low 1 MiB is reserved.
    assert_eq!(f.allocate_page(), Some(0x10_0000));
    assert_eq!(f.allocate_page(), Some(0x10_1000));
}

#[test]
fn frame_init_places_bitmap_in_largest_conventional_region() {
    let descs = [
        region(0, 0, 256),
        region(7, 0x10_0000, 16),
        region(7, 0x40_0000, 1024),
        region(2, 0x20_0000, 16),
    ];
    let mut f = init(&descs);
    for i in 0..16u64 {
        assert_eq!(f.allocate_page(), Some(0x10_0000 + i * 4096));
    }
    // Page 0x400 holds the bitmap (2048 pages need one page of bitmap).
    assert_eq!(f.allocate_page(), Some(0x40_1000));
}

#[test]
fn frame_init_first_of_equally_large_regions_holds_bitmap() {
    let descs = [region(7, 0x20_0000, 8), region(7, 0x10_0000, 8)];
    let mut f = init(&descs);
    for i in 0..8u64 {
        assert_eq!(f.allocate_page(), Some(0x10_0000 + i * 4096));
    }
    // 0x200000 is the bitmap's page.
    assert_eq!(f.allocate_page(), Some(0x20_1000));
}

#[test]
fn frame_allocator_runs_out() {
    let descs = [region(7, 0, 258)];
    let mut f = init(&descs);
    assert_eq!(f.allocate_page(), Some(0x10_0000));
    assert_eq!(f.allocate_page(), Some(0x10_1000));
    assert_eq!(f.allocate_page(), None);
}

#[test]
fn frame_free_undoes_allocate() {
    let mut f = sixteen_mib();
    let a = f.allocate_page().unwrap();
    let b = f.allocate_page().unwrap();
    f.free_page(a);
    assert_eq!(f.allocate_page(), Some(a));
    f.free_page(b);
    f.free_page(a);
    assert_eq!(f.allocate_page(), Some(a));
    assert_eq!(f.allocate_page(), Some(b));
}

#[test]
fn frame_free_of_inner_address_frees_its_page() {
    let mut f = sixteen_mib();
    let a = f.allocate_page().unwrap();
    f.free_page(a + 123);
    assert_eq!(f.allocate_page(), Some(a));
}

#[test]
fn frame_max_address_is_end_of_highest_region() {
    let descs = [region(7, 0x10_0000, 16), region(0, 0x80_0000, 4)];
    let f = init(&descs);
    assert_eq!(f.max_address(), 0x80_4000);
}

#[test]
fn slab_allocator_routes_by_size_class() {
    let mut f = sixteen_mib();
    let mut s = SlabAllocator::init(&mut f);
    // Classes 32..2048 got pages 0x100000..0x106000 in order.
    assert_eq!(s.allocate(0), Some(0x10_0000));
    assert_eq!(s.allocate(32), Some(0x10_0020));
    assert_eq!(s.allocate(33), Some(0x10_1000));
    assert_eq!(s.allocate(64), Some(0x10_1040));
    assert_eq!(s.allocate(100), Some(0x10_2000));
    assert_eq!(s.allocate(256), Some(0x10_3000));
    assert_eq!(s.allocate(512), Some(0x10_4000));
    assert_eq!(s.allocate(1000), Some(0x10_5000));
    assert_eq!(s.allocate(2048), Some(0x10_6000));
    assert_eq!(s.allocate(2049), None);
    assert_eq!(f.allocate_page(), Some(0x10_7000));
}

#[test]
fn slab_allocator_free_returns_slot_to_its_class() {
    let mut f = sixteen_mib();
    let mut s = SlabAllocator::init(&mut f);
    let a = s.allocate(2000).unwrap();
    let b = s.allocate(2000).unwrap();
    assert_eq!(s.allocate(2000), None);
    s.free(a, 1500);
    assert_eq!(s.allocate(2048), Some(a));
    s.free(b, 5000);
    assert_eq!(s.allocate(2048), None);
}

#[test]
fn kernel_allocator_uses_slabs_then_pages() {
    let mut f = sixteen_mib();
    let s = SlabAllocator::init(&mut f);
    let mut k = KernelAllocatorInner::new(f, s);
    assert_eq!(k.allocate(16, 8), Some(0x10_0000));
    // 5000 bytes take two contiguous pages.
    assert_eq!(k.allocate(5000, 8), Some(0x10_7000));
    assert_eq!(k.allocate(2048, 8), Some(0x10_6000));
    assert_eq!(k.allocate(2048, 8), Some(0x10_6800));
    // The 2048-byte slab is empty: the request falls back to a page.
    assert_eq!(k.allocate(2048, 8), Some(0x10_9000));
    k.deallocate(0x10_6800, 2048, 8);
    assert_eq!(k.allocate(1025, 8), Some(0x10_6800));
}

#[test]
fn kernel_allocator_serves_alignment_from_larger_classes() {
    let mut f = sixteen_mib();
    let s = SlabAllocator::init(&mut f);
    let mut k = KernelAllocatorInner::new(f, s);
    // 8 bytes aligned to 64 come from the 64-byte class (page 0x101000).
    assert_eq!(k.allocate(8, 64), Some(0x10_1000));
    assert_eq!(k.allocate(8, 64), Some(0x10_1040));
    // Alignment of a page: one page.
    assert_eq!(k.allocate(8, 4096), Some(0x10_7000));
    // Alignment above a page is refused.
    assert_eq!(k.allocate(8, 8192), None);
    assert_eq!(k.allocate(8, 64), Some(0x10_1080));
    k.deallocate(0x10_1080, 8, 64);
    assert_eq!(k.allocate(64, 1), Some(0x10_1080));
}

#[test]
fn kernel_allocator_returns_large_frees_to_frames() {
    let mut f = sixteen_mib();
    let s = SlabAllocator::init(&mut f);
    let mut k = KernelAllocatorInner::new(f, s);
    let a = k.allocate(3 * 4096, 8).unwrap();
    assert_eq!(a, 0x10_7000);
    assert_eq!(k.allocate(4096 + 1, 8), Some(0x10_a000));
    k.deallocate(a, 3 * 4096, 8);
    // The three pages are free again: a request for three pages reuses them.
    assert_eq!(k.allocate(3 * 4096, 16), Some(a));
    // A free that reaches past the tracked pages is ignored.
    k.deallocate(0xffff_f000, 8192, 8);
    assert_eq!(k.allocate(4096 * 2, 8), Some(0x10_c000));
}

#[test]
fn frame_allocate_pages_takes_lowest_run() {
    let mut f = sixteen_mib();
    assert_eq!(f.allocate_pages(3), Some(0x10_0000));
    assert_eq!(f.allocate_page(), Some(0x10_3000));
    f.free_pages(0x10_0000, 3);
    assert_eq!(f.allocate_pages(2), Some(0x10_0000));
    // Page 0x102 is free but a run of two starting there would hit 0x103.
    assert_eq!(f.allocate_pages(2), Some(0x10_4000));
    assert_eq!(f.allocate_page(), Some(0x10_2000));
    assert_eq!(f.allocate_pages(0), None);
    assert_eq!(f.allocate_pages(4096), None);
    assert_eq!(f.free_page_count(), 4096 - 256 - 6);
}

#[test]
fn frame_allocate_pages_fails_without_a_long_enough_run() {
    let mut f = init(&[region(7, 0, 260)]);
    // Pages 0x100 to 0x103 are free.
    assert_eq!(f.allocate_pages(5), None);
    assert_eq!(f.allocate_page(), Some(0x10_0000));
    assert_eq!(f.allocate_pages(3), Some(0x10_1000));
    assert_eq!(f.allocate_pages(1), None);
}

#[test]
fn frame_init_on_tiny_map_has_no_free_page() {
    let mut f = init(&[region(7, 0, 16)]);
    assert_eq!(f.max_address(), 16 * 4096);
    assert_eq!(f.free_page_count(), 0);
    assert_eq!(f.allocate_page(), None);
}

#[test]
fn frame_free_page_count_tracks_allocations() {
    let mut f = init(&[region(7, 0, 300)]);
    assert_eq!(f.free_page_count(), 44);
    f.allocate_page();
    assert_eq!(f.free_page_count(), 43);
    f.free_page(0x10_0000);
    assert_eq!(f.free_page_count(), 44);
}

#[test]
fn memory_map_supported_checks_what_init_needs() {
    assert!(memory_map_supported(&[region(7, 0, 4096)]));
    // No conventional region.
    assert!(!memory_map_supported(&[region(0, 0, 4096)]));
    // Little memory: the bitmap still covers the low 1 MiB.
    assert!(memory_map_supported(&[region(7, 0, 16)]));
    // A region ending past the address space.
    assert!(!memory_map_supported(&[region(7, 0, 4096), region(0, u64::MAX - 4095, 2)]));
    // The bitmap's own pages would lie past what it covers.
    assert!(!memory_map_supported(&[region(0, 0, 40000), region(7, 39999 * 4096, 1)]));
}

#[test]
fn kernel_allocator_blocks_never_overlap() {
    let mut f = sixteen_mib();
    let s = SlabAllocator::init(&mut f);
    let mut k = KernelAllocatorInner::new(f, s);
    let requests: [(u64, u64); 12] = [
        (16, 8),
        (2048, 8),
        (2048, 8),
        (2048, 8),
        (5000, 8),
        (100, 128),
        (8, 4096),
        (3 * 4096, 8),
        (32, 32),
        (1024, 8),
        (4096, 8),
        (600, 8),
    ];
    let mut blocks: Vec<(u64, u64)> = Vec::new();
    for &(size, align) in requests.iter() {
        let a = k.allocate(size, align).unwrap();
        assert_eq!(a % align, 0);
        blocks.push((a, size));
    }
    for i in 0..blocks.len() {
        for j in 0..blocks.len() {
            if i != j {
                let (a, sa) = blocks[i];
                let (b, sb) = blocks[j];
                assert!(a + sa <= b || b + sb <= a, "{:#x} and {:#x} overlap", a, b);
            }
        }
    }
}
