use vstd::prelude::*;

verus! {

/// Size of a physical page frame.
pub const PAGE_SIZE: u64 = 4096;

/// Memory type of the regions the firmware leaves free for the kernel
/// (EfiConventionalMemory).
pub const CONVENTIONAL_MEMORY: u32 = 7;

/// Number of pages below 1 MiB, which the frame allocator never hands out.
pub const LOW_RESERVED_PAGES: usize = 256;

/// One entry of the UEFI memory map, as the kernel reads it.
pub struct EfiMemoryDescriptor {
    pub mem_type: u32,
    pub padding: u32,
    pub phys_start: u64,
    pub virt_start: u64,
    pub num_pages: u64,
    pub attr: u64,
}

/// End address (exclusive) of the region a descriptor describes.
pub open spec fn desc_end(d: EfiMemoryDescriptor) -> int {
    d.phys_start + d.num_pages * 4096
}

/// First page frame of the region a descriptor describes.
pub open spec fn desc_start_page(d: EfiMemoryDescriptor) -> int {
    d.phys_start as int / 4096
}

/// The largest end address among the first `n` descriptors (0 when `n` is 0).
pub open spec fn max_end(descs: Seq<EfiMemoryDescriptor>, n: nat) -> int
    decreases n,
{
    if n == 0 {
        0
    } else {
        let m = max_end(descs, (n - 1) as nat);
        if desc_end(descs[n - 1]) > m {
            desc_end(descs[n - 1])
        } else {
            m
        }
    }
}

/// The region at index `l` is the largest conventional region, the first one
/// when several are equally large.
pub open spec fn is_largest_conventional(descs: Seq<EfiMemoryDescriptor>, l: int) -> bool {
    &&& 0 <= l < descs.len()
    &&& descs[l].mem_type == CONVENTIONAL_MEMORY
    &&& forall|j: int|
        0 <= j < descs.len() && #[trigger] descs[j].mem_type == CONVENTIONAL_MEMORY ==> descs[j].num_pages
            <= descs[l].num_pages
    &&& forall|j: int|
        0 <= j < l && #[trigger] descs[j].mem_type == CONVENTIONAL_MEMORY ==> descs[j].num_pages
            < descs[l].num_pages
}

/// Index of the largest conventional region (where the bitmap is placed).
pub open spec fn largest_conventional(descs: Seq<EfiMemoryDescriptor>) -> int {
    choose|l: int| is_largest_conventional(descs, l)
}

/// Page `p` lies in one of the conventional regions among the first `n`
/// descriptors.
pub open spec fn conventional_upto(descs: Seq<EfiMemoryDescriptor>, n: int, p: int) -> bool {
    exists|j: int|
        0 <= j < n && #[trigger] descs[j].mem_type == CONVENTIONAL_MEMORY && desc_start_page(
            descs[j],
        ) <= p < desc_start_page(descs[j]) + descs[j].num_pages
}

/// Page `p` lies in a conventional region.
pub open spec fn conventional_page(descs: Seq<EfiMemoryDescriptor>, p: int) -> bool {
    conventional_upto(descs, descs.len() as int, p)
}

/// Number of page frames the bitmap tracks.
pub open spec fn tracked_pages(descs: Seq<EfiMemoryDescriptor>) -> int {
    max_end(descs, descs.len()) / 4096
}

/// Size in bytes of a bitmap for `total` pages: one bit per page, and at
/// least enough bytes to cover the low 1 MiB.
pub open spec fn bitmap_len(total: int) -> int {
    if (total + 7) / 8 >= 32 {
        (total + 7) / 8
    } else {
        32
    }
}

/// Size in bytes of the bitmap `init` builds.
pub open spec fn bitmap_bytes(descs: Seq<EfiMemoryDescriptor>) -> int {
    bitmap_len(tracked_pages(descs))
}

/// First page frame the bitmap itself occupies.
pub open spec fn bitmap_start_page(descs: Seq<EfiMemoryDescriptor>) -> int {
    desc_start_page(descs[largest_conventional(descs)])
}

/// Number of page frames the bitmap itself occupies.
pub open spec fn bitmap_page_count(descs: Seq<EfiMemoryDescriptor>) -> int {
    (bitmap_bytes(descs) + 4095) / 4096
}

/// Whether `init` leaves page `p` free: it lies in a conventional region,
/// not under the bitmap and not below 1 MiB.
pub open spec fn initially_free(descs: Seq<EfiMemoryDescriptor>, p: int) -> bool {
    &&& conventional_page(descs, p)
    &&& !(bitmap_start_page(descs) <= p < bitmap_start_page(descs) + bitmap_page_count(descs))
    &&& p >= LOW_RESERVED_PAGES
}

/// What `init` accepts: every region's end is representable, one region is
/// conventional, and the bitmap covers the pages it occupies itself.
pub open spec fn memory_map_ok(descs: Seq<EfiMemoryDescriptor>) -> bool {
    &&& forall|i: int| 0 <= i < descs.len() ==> desc_end(#[trigger] descs[i]) <= u64::MAX
    &&& exists|i: int| 0 <= i < descs.len() && #[trigger] descs[i].mem_type == CONVENTIONAL_MEMORY
    &&& bitmap_start_page(descs) + bitmap_page_count(descs) <= 8 * bitmap_bytes(descs)
}

/// Bit `p` of a bitmap: whether page `p` is free.
pub open spec fn bit(bytes: Seq<u8>, p: int) -> bool {
    bytes[p / 8] & (1u8 << ((p % 8) as u8)) != 0
}

/// Smallest free page from `k` up to (not including) `total`, or `total`
/// when there is none.
pub open spec fn first_free_from(bits: Seq<bool>, total: nat, k: nat) -> nat
    decreases total - k,
{
    if k >= total {
        total
    } else if bits[k as int] {
        k
    } else {
        first_free_from(bits, total, k + 1)
    }
}

/// Smallest free page below `total`, or `total` when there is none.
pub open spec fn first_free(bits: Seq<bool>, total: nat) -> nat {
    first_free_from(bits, total, 0)
}

/// Number of free pages below `n`.
pub open spec fn count_free(bits: Seq<bool>, n: nat) -> nat
    decreases n,
{
    if n == 0 {
        0
    } else {
        count_free(bits, (n - 1) as nat) + if bits[n - 1] {
            1nat
        } else {
            0nat
        }
    }
}

/// The bitmap after one page allocation: the smallest free page is taken.
pub open spec fn after_allocation(bits: Seq<bool>, total: nat) -> Seq<bool> {
    let p = first_free(bits, total);
    if p < total {
        bits.update(p as int, false)
    } else {
        bits
    }
}

/// The bitmap after `n` successive page allocations.
pub open spec fn after_allocations(bits: Seq<bool>, total: nat, n: nat) -> Seq<bool>
    decreases n,
{
    if n == 0 {
        bits
    } else {
        after_allocation(after_allocations(bits, total, (n - 1) as nat), total)
    }
}

/// Pages `start` to `start + count - 1` are all free.
pub open spec fn run_free(bits: Seq<bool>, start: int, count: int) -> bool {
    forall|q: int| start <= q < start + count ==> #[trigger] bits[q]
}

/// Lowest page `s` from `k` up such that pages `s` to `s + count - 1` lie
/// below `total` and are all free; `total` when there is none.
pub open spec fn first_run_from(bits: Seq<bool>, total: nat, count: nat, k: nat) -> nat
    decreases total - k,
{
    if k >= total || k + count > total {
        total
    } else if run_free(bits, k as int, count as int) {
        k
    } else {
        first_run_from(bits, total, count, k + 1)
    }
}

/// Lowest start of `count` contiguous free pages below `total`, or `total`
/// when there is none.
pub open spec fn first_run(bits: Seq<bool>, total: nat, count: nat) -> nat {
    first_run_from(bits, total, count, 0)
}

/// The bitmap with pages `start` to `start + count - 1` marked free (or
/// used) and the others as they were.
pub open spec fn mark_pages(bits: Seq<bool>, start: int, count: int, free: bool) -> Seq<bool> {
    Seq::new(bits.len(), |q: int| if start <= q < start + count { free } else { bits[q] })
}

/// What `allocate_pages(count)` returns on a bitmap: the address of the
/// lowest run of `count` free pages below `total`, or `None` when `count` is
/// 0 or there is no such run.
pub open spec fn pages_handed_out(bits: Seq<bool>, total: nat, count: nat) -> Option<u64> {
    if count > 0 && first_run(bits, total, count) < total {
        Some((first_run(bits, total, count) * 4096) as u64)
    } else {
        None
    }
}

/// The bitmap after `allocate_pages(count)`: the run handed out is used.
pub open spec fn after_run_allocation(bits: Seq<bool>, total: nat, count: nat) -> Seq<bool> {
    if count > 0 && first_run(bits, total, count) < total {
        mark_pages(bits, first_run(bits, total, count) as int, count as int, false)
    } else {
        bits
    }
}

/// Page frame that the allocation after `n` earlier ones hands out.
pub open spec fn nth_allocation(bits: Seq<bool>, total: nat, n: nat) -> nat {
    first_free(after_allocations(bits, total, n), total)
}

proof fn lemma_first_free_from(bits: Seq<bool>, total: nat, k: nat)
    requires
        total <= bits.len(),
    ensures
        first_free_from(bits, total, k) <= total,
        k <= total ==> k <= first_free_from(bits, total, k),
        first_free_from(bits, total, k) < total ==> bits[first_free_from(bits, total, k) as int],
        forall|q: int| k <= q < first_free_from(bits, total, k) ==> !bits[q],
    decreases total - k,
{
    if k < total && !bits[k as int] {
        lemma_first_free_from(bits, total, k + 1);
    }
}

/// What `first_free` is: a free page with no free page below it, or `total`
/// when no page below `total` is free.
pub proof fn lemma_first_free(bits: Seq<bool>, total: nat)
    requires
        total <= bits.len(),
    ensures
        first_free(bits, total) <= total,
        first_free(bits, total) < total ==> bits[first_free(bits, total) as int],
        forall|q: int| 0 <= q < first_free(bits, total) ==> !bits[q],
{
    lemma_first_free_from(bits, total, 0);
}

proof fn lemma_count_free_zero(bits: Seq<bool>, n: nat)
    requires
        n <= bits.len(),
        forall|q: int| 0 <= q < n ==> !bits[q],
    ensures
        count_free(bits, n) == 0,
    decreases n,
{
    if n > 0 {
        lemma_count_free_zero(bits, (n - 1) as nat);
    }
}

proof fn lemma_count_free_clear(bits: Seq<bool>, n: nat, p: int)
    requires
        n <= bits.len(),
        0 <= p < bits.len(),
        bits[p],
    ensures
        count_free(bits.update(p, false), n) + (if p < n {
            1nat
        } else {
            0nat
        }) == count_free(bits, n),
    decreases n,
{
    if n > 0 {
        lemma_count_free_clear(bits, (n - 1) as nat, p);
    }
}

proof fn lemma_first_run_from(bits: Seq<bool>, total: nat, count: nat, k: nat)
    ensures
        first_run_from(bits, total, count, k) <= total,
        first_run_from(bits, total, count, k) < total ==> {
            let r = first_run_from(bits, total, count, k);
            &&& k <= r
            &&& r + count <= total
            &&& run_free(bits, r as int, count as int)
        },
        forall|s: int|
            k <= s < first_run_from(bits, total, count, k) && s + count <= total ==> !run_free(
                bits,
                s,
                count as int,
            ),
    decreases total - k,
{
    if !(k >= total || k + count > total) && !run_free(bits, k as int, count as int) {
        lemma_first_run_from(bits, total, count, k + 1);
    }
}

/// What `first_run` is: the start of a run of `count` free pages below
/// `total` with no such run starting lower, or `total` when there is none.
pub proof fn lemma_first_run(bits: Seq<bool>, total: nat, count: nat)
    ensures
        first_run(bits, total, count) <= total,
        first_run(bits, total, count) < total ==> first_run(bits, total, count) + count <= total
            && run_free(bits, first_run(bits, total, count) as int, count as int),
        forall|s: int|
            0 <= s < first_run(bits, total, count) && s + count <= total ==> !run_free(
                bits,
                s,
                count as int,
            ),
{
    lemma_first_run_from(bits, total, count, 0);
}

/// Counting free pages: while some page below `total` is free, an allocation
/// succeeds and leaves exactly one free page fewer.
pub proof fn lemma_allocation_counts(bits: Seq<bool>, total: nat)
    requires
        total <= bits.len(),
    ensures
        count_free(bits, total) > 0 <==> first_free(bits, total) < total,
        count_free(bits, total) > 0 ==> count_free(after_allocation(bits, total), total) + 1
            == count_free(bits, total),
        after_allocation(bits, total).len() == bits.len(),
{
    lemma_first_free(bits, total);
    let p = first_free(bits, total);
    if p < total {
        lemma_count_free_clear(bits, total, p as int);
    } else {
        lemma_count_free_zero(bits, total);
    }
}

/// A bitmap frame allocator: one bit per page frame, set while the frame is
/// free.
pub struct FrameAllocator {
    bitmap: Vec<u8>,
    total_pages: u64,
    max_address: u64,
}

impl View for FrameAllocator {
    type V = Seq<bool>;

    /// One flag per bit of the bitmap: whether that page frame is free.
    closed spec fn view(&self) -> Seq<bool> {
        Seq::new((8 * self.bitmap@.len()) as nat, |p: int| bit(self.bitmap@, p))
    }
}

/// Setting bit `i` of a byte sets that bit and keeps the others; clearing
/// it clears that bit and keeps the others.
proof fn lemma_byte_bits(b: u8, i: u8, j: u8)
    by (bit_vector)
    requires
        i < 8,
        j < 8,
    ensures
        ((b | (1u8 << i)) & (1u8 << j) != 0) == (i == j || b & (1u8 << j) != 0),
        ((b & !(1u8 << i)) & (1u8 << j) != 0) == (i != j && b & (1u8 << j) != 0),
        (0u8 & (1u8 << j)) == 0,
{
}

/// A byte with bit `p % 8` set (or cleared) changes page `p`'s flag and no
/// other.
proof fn lemma_update_bit(bytes: Seq<u8>, p: int, set: bool, new_byte: u8)
    requires
        0 <= p < 8 * bytes.len(),
        set ==> new_byte == bytes[p / 8] | (1u8 << ((p % 8) as u8)),
        !set ==> new_byte == bytes[p / 8] & !(1u8 << ((p % 8) as u8)),
    ensures
        forall|q: int|
            0 <= q < 8 * bytes.len() ==> #[trigger] bit(bytes.update(p / 8, new_byte), q) == if q
                == p {
                set
            } else {
                bit(bytes, q)
            },
{
    assert forall|q: int| 0 <= q < 8 * bytes.len() implies #[trigger] bit(
        bytes.update(p / 8, new_byte),
        q,
    ) == if q == p {
        set
    } else {
        bit(bytes, q)
    } by {
        let nb = bytes.update(p / 8, new_byte);
        if q / 8 == p / 8 {
            lemma_byte_bits(bytes[p / 8], (p % 8) as u8, (q % 8) as u8);
            assert(q == p <==> q % 8 == p % 8);
        } else {
            assert(nb[q / 8] == bytes[q / 8]);
        }
    }
}

proof fn lemma_largest_unique(descs: Seq<EfiMemoryDescriptor>, a: int, b: int)
    requires
        is_largest_conventional(descs, a),
        is_largest_conventional(descs, b),
    ensures
        a == b,
{
    if a < b {
        assert(descs[a].mem_type == CONVENTIONAL_MEMORY);
    } else if b < a {
        assert(descs[b].mem_type == CONVENTIONAL_MEMORY);
    }
}

proof fn lemma_max_end_nonneg(descs: Seq<EfiMemoryDescriptor>, n: nat)
    requires
        n <= descs.len(),
    ensures
        0 <= max_end(descs, n),
        forall|i: int| 0 <= i < n ==> max_end(descs, n) >= desc_end(#[trigger] descs[i]),
        (forall|i: int| 0 <= i < descs.len() ==> desc_end(#[trigger] descs[i]) <= u64::MAX)
            ==> max_end(descs, n) <= u64::MAX,
    decreases n,
{
    if n > 0 {
        lemma_max_end_nonneg(descs, (n - 1) as nat);
    }
}

/// Sets (or clears) the bit of page `page` in `bitmap`.
fn write_page_bit(bitmap: &mut Vec<u8>, page: u64, set: bool)
    requires
        page < 8 * old(bitmap)@.len(),
    ensures
        final(bitmap)@.len() == old(bitmap)@.len(),
        forall|q: int|
            0 <= q < 8 * old(bitmap)@.len() ==> #[trigger] bit(final(bitmap)@, q) == if q == page {
                set
            } else {
                bit(old(bitmap)@, q)
            },
{
    assert(page / 8 < bitmap.len());
    let byte_index = (page / 8) as usize;
    let bit_index = (page % 8) as u8;
    assert(byte_index == page as int / 8 && bit_index == ((page as int % 8) as u8));
    let new_byte = if set {
        bitmap[byte_index] | (1u8 << bit_index)
    } else {
        bitmap[byte_index] & !(1u8 << bit_index)
    };
    let ghost before = bitmap@;
    proof {
        lemma_update_bit(before, page as int, set, new_byte);
    }
    bitmap[byte_index] = new_byte;
    assert(bitmap@ == before.update(page as int / 8, new_byte));
}

/// Whether `init` accepts the memory map: every region's end is
/// representable, one region is conventional, and the bitmap (which must
/// fit in memory) covers the pages it occupies itself.
pub fn memory_map_supported(descs: &[EfiMemoryDescriptor]) -> (r: bool)
    ensures
        r == (memory_map_ok(descs@) && bitmap_bytes(descs@) <= usize::MAX),
{
    let ghost ds = descs@;
    let count = descs.len();
    let mut max_address: u64 = 0;
    let mut largest: Option<usize> = None;
    let mut i: usize = 0;
    proof {
        lemma_max_end_nonneg(ds, 0);
    }
    while i < count
        invariant
            count == ds.len(),
            ds == descs@,
            i <= count,
            forall|j: int| 0 <= j < i ==> desc_end(#[trigger] ds[j]) <= u64::MAX,
            max_address == max_end(ds, i as nat),
            largest is None ==> forall|j: int|
                0 <= j < i ==> #[trigger] ds[j].mem_type != CONVENTIONAL_MEMORY,
            largest matches Some(l) ==> {
                &&& l < i
                &&& ds[l as int].mem_type == CONVENTIONAL_MEMORY
                &&& forall|j: int|
                    0 <= j < i && #[trigger] ds[j].mem_type == CONVENTIONAL_MEMORY
                        ==> ds[j].num_pages <= ds[l as int].num_pages
                &&& forall|j: int|
                    0 <= j < l && #[trigger] ds[j].mem_type == CONVENTIONAL_MEMORY
                        ==> ds[j].num_pages < ds[l as int].num_pages
            },
        decreases count - i,
    {
        let end = match descs[i].num_pages.checked_mul(4096) {
            Some(size) => match descs[i].phys_start.checked_add(size) {
                Some(end) => end,
                None => {
                    assert(!memory_map_ok(ds)) by {
                        assert(desc_end(ds[i as int]) > u64::MAX);
                    }
                    return false;
                },
            },
            None => {
                assert(!memory_map_ok(ds)) by {
                    assert(desc_end(ds[i as int]) > u64::MAX);
                }
                return false;
            },
        };
        if end > max_address {
            max_address = end;
        }
        if descs[i].mem_type == CONVENTIONAL_MEMORY {
            match largest {
                None => {
                    largest = Some(i);
                },
                Some(l) => {
                    if descs[i].num_pages > descs[l].num_pages {
                        largest = Some(i);
                    }
                },
            }
        }
        i = i + 1;
    }
    let l = match largest {
        Some(l) => l,
        None => {
            assert(!memory_map_ok(ds)) by {
                if memory_map_ok(ds) {
                    let w = choose|w: int|
                        0 <= w < ds.len() && #[trigger] ds[w].mem_type == CONVENTIONAL_MEMORY;
                    assert(ds[w].mem_type != CONVENTIONAL_MEMORY);
                }
            }
            return false;
        },
    };
    proof {
        assert(is_largest_conventional(ds, l as int));
        lemma_largest_unique(ds, l as int, largest_conventional(ds));
    }
    let mut bitmap_size = (max_address / 4096 + 7) / 8;
    if bitmap_size < 32 {
        bitmap_size = 32;
    }
    let bitmap_pages = (bitmap_size + 4095) / 4096;
    let start_page = descs[l].phys_start / 4096;
    start_page + bitmap_pages <= 8 * bitmap_size && bitmap_size <= usize::MAX as u64
}

/// Builds the frame allocator from the UEFI memory map. The bitmap is placed
/// at the start of the largest conventional region and covers every page up
/// to the end of the highest region (and at least the low 1 MiB); it marks
/// free exactly the pages of the conventional regions, except the pages the
/// bitmap occupies and the low 1 MiB.
pub fn init(descs: &[EfiMemoryDescriptor]) -> (r: FrameAllocator)
    requires
        memory_map_ok(descs@),
        bitmap_bytes(descs@) <= usize::MAX,
    ensures
        r.wf(),
        r.total_pages_spec() == tracked_pages(descs@),
        r.max_address_spec() == max_end(descs@, descs@.len()),
        r@.len() == 8 * bitmap_bytes(descs@),
        forall|p: int| 0 <= p < r@.len() ==> #[trigger] r@[p] == initially_free(descs@, p),
{
    let ghost ds = descs@;
    let count = descs.len();
    // Find the largest conventional region.
    let mut largest: Option<usize> = None;
    let mut i: usize = 0;
    while i < count
        invariant
            count == ds.len(),
            ds == descs@,
            i <= count,
            largest is None ==> forall|j: int|
                0 <= j < i ==> #[trigger] ds[j].mem_type != CONVENTIONAL_MEMORY,
            largest matches Some(l) ==> {
                &&& l < i
                &&& ds[l as int].mem_type == CONVENTIONAL_MEMORY
                &&& forall|j: int|
                    0 <= j < i && #[trigger] ds[j].mem_type == CONVENTIONAL_MEMORY
                        ==> ds[j].num_pages <= ds[l as int].num_pages
                &&& forall|j: int|
                    0 <= j < l && #[trigger] ds[j].mem_type == CONVENTIONAL_MEMORY
                        ==> ds[j].num_pages < ds[l as int].num_pages
            },
        decreases count - i,
    {
        if descs[i].mem_type == CONVENTIONAL_MEMORY {
            match largest {
                None => {
                    largest = Some(i);
                },
                Some(l) => {
                    if descs[i].num_pages > descs[l].num_pages {
                        largest = Some(i);
                    }
                },
            }
        }
        i = i + 1;
    }
    let l = match largest {
        Some(l) => l,
        None => {
            proof {
                let w = choose|w: int| 0 <= w < ds.len() && #[trigger] ds[w].mem_type
                    == CONVENTIONAL_MEMORY;
                assert(ds[w].mem_type != CONVENTIONAL_MEMORY);
            }
            0
        },
    };
    proof {
        assert(is_largest_conventional(ds, l as int));
        lemma_largest_unique(ds, l as int, largest_conventional(ds));
    }
    // End of the highest region.
    let mut max_address: u64 = 0;
    let mut i: usize = 0;
    proof {
        lemma_max_end_nonneg(ds, ds.len());
    }
    while i < count
        invariant
            count == ds.len(),
            ds == descs@,
            i <= count,
            memory_map_ok(ds),
            max_address == max_end(ds, i as nat),
        decreases count - i,
    {
        proof {
            lemma_max_end_nonneg(ds, (i + 1) as nat);
        }
        let end = descs[i].phys_start + descs[i].num_pages * 4096;
        if end > max_address {
            max_address = end;
        }
        i = i + 1;
    }
    let total_pages = max_address / 4096;
    let mut bitmap_size = ((total_pages + 7) / 8) as usize;
    if bitmap_size < 32 {
        bitmap_size = 32;
    }
    let mut bitmap: Vec<u8> = Vec::new();
    let mut k: usize = 0;
    while k < bitmap_size
        invariant
            k <= bitmap_size,
            bitmap@.len() == k,
            forall|j: int| 0 <= j < k ==> bitmap@[j] == 0u8,
        decreases bitmap_size - k,
    {
        bitmap.push(0u8);
        k = k + 1;
    }
    let ghost nbits = 8 * bitmap_size as int;
    proof {
        assert forall|q: int| 0 <= q < nbits implies !#[trigger] bit(bitmap@, q) by {
            lemma_byte_bits(bitmap@[q / 8], 0, (q % 8) as u8);
        }
    }
    // Mark the pages of conventional regions free.
    let mut i: usize = 0;
    while i < count
        invariant
            count == ds.len(),
            ds == descs@,
            i <= count,
            memory_map_ok(ds),
            max_address == max_end(ds, ds.len()),
            total_pages == max_address / 4096,
            bitmap_size == bitmap_len(total_pages as int),
            bitmap@.len() == bitmap_size,
            nbits == 8 * bitmap_size,
            forall|q: int|
                0 <= q < nbits ==> #[trigger] bit(bitmap@, q) == conventional_upto(ds, i as int, q),
        decreases count - i,
    {
        if descs[i].mem_type == CONVENTIONAL_MEMORY {
            let start_page = descs[i].phys_start / 4096;
            proof {
                lemma_max_end_nonneg(ds, ds.len());
                assert(desc_end(ds[i as int]) <= max_address);
                assert(start_page * 4096 <= ds[i as int].phys_start);
                assert((start_page + ds[i as int].num_pages) * 4096 <= max_address) by (
                nonlinear_arith)
                    requires
                        start_page * 4096 <= ds[i as int].phys_start,
                        ds[i as int].phys_start + ds[i as int].num_pages * 4096 <= max_address,
                ;
            }
            let mut p: u64 = 0;
            while p < descs[i].num_pages
                invariant
                    count == ds.len(),
                    ds == descs@,
                    i < count,
                    ds[i as int].mem_type == CONVENTIONAL_MEMORY,
                    start_page == desc_start_page(ds[i as int]),
                    (start_page + ds[i as int].num_pages) * 4096 <= max_address,
                    total_pages == max_address / 4096,
                    bitmap_size == bitmap_len(total_pages as int),
                    bitmap@.len() == bitmap_size,
                    nbits == 8 * bitmap_size,
                    p <= ds[i as int].num_pages,
                    forall|q: int|
                        0 <= q < nbits ==> #[trigger] bit(bitmap@, q) == (conventional_upto(
                            ds,
                            i as int,
                            q,
                        ) || start_page <= q < start_page + p),
                decreases ds[i as int].num_pages - p,
            {
                let page = start_page + p;
                write_page_bit(&mut bitmap, page, true);
                p = p + 1;
            }
            proof {
                assert forall|q: int| 0 <= q < nbits implies #[trigger] bit(bitmap@, q)
                    == conventional_upto(ds, i + 1, q) by {
                    if conventional_upto(ds, i as int, q) {
                        let j = choose|j: int|
                            0 <= j < i && #[trigger] ds[j].mem_type == CONVENTIONAL_MEMORY
                                && desc_start_page(ds[j]) <= q < desc_start_page(ds[j])
                                + ds[j].num_pages;
                        assert(ds[j].mem_type == CONVENTIONAL_MEMORY);
                    }
                    if conventional_upto(ds, i + 1, q) && !conventional_upto(ds, i as int, q) {
                        let j = choose|j: int|
                            0 <= j < i + 1 && #[trigger] ds[j].mem_type == CONVENTIONAL_MEMORY
                                && desc_start_page(ds[j]) <= q < desc_start_page(ds[j])
                                + ds[j].num_pages;
                        if j < i {
                            assert(ds[j].mem_type == CONVENTIONAL_MEMORY);
                        }
                    }
                    if start_page <= q < start_page + ds[i as int].num_pages {
                        assert(ds[i as int].mem_type == CONVENTIONAL_MEMORY);
                    }
                }
            }
        } else {
            proof {
                assert forall|q: int| 0 <= q < nbits implies #[trigger] bit(bitmap@, q)
                    == conventional_upto(ds, i + 1, q) by {
                    if conventional_upto(ds, i as int, q) {
                        let j = choose|j: int|
                            0 <= j < i && #[trigger] ds[j].mem_type == CONVENTIONAL_MEMORY
                                && desc_start_page(ds[j]) <= q < desc_start_page(ds[j])
                                + ds[j].num_pages;
                        assert(ds[j].mem_type == CONVENTIONAL_MEMORY);
                    }
                    if conventional_upto(ds, i + 1, q) {
                        let j = choose|j: int|
                            0 <= j < i + 1 && #[trigger] ds[j].mem_type == CONVENTIONAL_MEMORY
                                && desc_start_page(ds[j]) <= q < desc_start_page(ds[j])
                                + ds[j].num_pages;
                        assert(ds[j].mem_type == CONVENTIONAL_MEMORY);
                    }
                }
            }
        }
        i = i + 1;
    }
    // Mark the pages the bitmap occupies used.
    let bm_start = descs[l].phys_start / 4096;
    let bitmap_pages = ((bitmap_size as u64) + 4095) / 4096;
    let mut p: u64 = 0;
    while p < bitmap_pages
        invariant
            ds == descs@,
            memory_map_ok(ds),
            l as int == largest_conventional(ds),
            bm_start == bitmap_start_page(ds),
            bitmap_pages == bitmap_page_count(ds),
            bitmap_size == bitmap_bytes(ds),
            bitmap@.len() == bitmap_size,
            nbits == 8 * bitmap_size,
            p <= bitmap_pages,
            forall|q: int|
                0 <= q < nbits ==> #[trigger] bit(bitmap@, q) == (conventional_page(ds, q) && !(
                bm_start <= q < bm_start + p)),
        decreases bitmap_pages - p,
    {
        let page = bm_start + p;
        write_page_bit(&mut bitmap, page, false);
        p = p + 1;
    }
    // Reserve the low 1 MiB.
    let mut p: u64 = 0;
    while p < 256
        invariant
            ds == descs@,
            memory_map_ok(ds),
            bitmap_size == bitmap_bytes(ds),
            bitmap@.len() == bitmap_size,
            nbits == 8 * bitmap_size,
            p <= 256,
            forall|q: int|
                0 <= q < nbits ==> #[trigger] bit(bitmap@, q) == (conventional_page(ds, q) && !(
                bitmap_start_page(ds) <= q < bitmap_start_page(ds) + bitmap_page_count(ds)) && !(
                q < p)),
        decreases 256 - p,
    {
        write_page_bit(&mut bitmap, p, false);
        p = p + 1;
    }
    let r = FrameAllocator { bitmap, total_pages, max_address };
    assert forall|p: int| 0 <= p < r@.len() implies #[trigger] r@[p] == initially_free(ds, p) by {
        assert(r@[p] == bit(r.bitmap@, p));
    }
    r
}

impl FrameAllocator {
    /// Number of page frames the allocator scans.
    pub closed spec fn total_pages_spec(&self) -> nat {
        self.total_pages as nat
    }

    /// End of the highest region in the memory map.
    pub closed spec fn max_address_spec(&self) -> u64 {
        self.max_address
    }

    /// The bitmap holds one bit per tracked page (rounded up to bytes, and
    /// at least enough for the low 1 MiB), and every tracked page's address
    /// is representable.
    pub closed spec fn wf(&self) -> bool {
        &&& self.bitmap@.len() == bitmap_len(self.total_pages as int)
        &&& self.total_pages == self.max_address / 4096
    }

    /// End of the highest region in the memory map: the allocator tracks the
    /// pages below it.
    pub fn max_address(&self) -> (r: u64)
        requires
            self.wf(),
        ensures
            r == self.max_address_spec(),
            r / 4096 == self.total_pages_spec(),
    {
        self.max_address
    }

    /// Number of free page frames below `total_pages`.
    pub fn free_page_count(&self) -> (r: u64)
        requires
            self.wf(),
        ensures
            r == count_free(self@, self.total_pages_spec()),
    {
        let ghost bits = self@;
        let mut count: u64 = 0;
        let mut page: u64 = 0;
        while page < self.total_pages
            invariant
                self.wf(),
                bits == self@,
                page <= self.total_pages,
                self.total_pages <= bits.len(),
                count == count_free(bits, page as nat),
                count <= page,
            decreases self.total_pages - page,
        {
            assert(page / 8 < self.bitmap.len());
            let byte_index = (page / 8) as usize;
            let bit_index = (page % 8) as u8;
            assert(byte_index == page as int / 8 && bit_index == ((page as int % 8) as u8));
            assert(bits[page as int] == bit(self.bitmap@, page as int));
            if self.bitmap[byte_index] & (1u8 << bit_index) != 0 {
                count = count + 1;
            }
            page = page + 1;
        }
        count
    }

    /// Facts callers need from `wf`.
    pub proof fn lemma_wf(&self)
        requires
            self.wf(),
        ensures
            self.total_pages_spec() <= self@.len(),
            self@.len() <= self.total_pages_spec() + 256,
            self.total_pages_spec() * 4096 <= self.max_address_spec(),
    {
    }

    /// Hands out the lowest free page frame below `total_pages`, marking it
    /// used, and returns its address; `None` when no frame is free.
    pub fn allocate_page(&mut self) -> (r: Option<u64>)
        requires
            old(self).wf(),
        ensures
            final(self).wf(),
            final(self).total_pages_spec() == old(self).total_pages_spec(),
            final(self).max_address_spec() == old(self).max_address_spec(),
            final(self)@ == after_allocation(old(self)@, old(self).total_pages_spec()),
            first_free(old(self)@, old(self).total_pages_spec()) == old(self).total_pages_spec()
                ==> r is None,
            first_free(old(self)@, old(self).total_pages_spec()) < old(self).total_pages_spec()
                ==> r == Some((first_free(old(self)@, old(self).total_pages_spec()) * 4096) as u64),
    {
        let ghost bits = self@;
        let ghost total = self.total_pages as nat;
        proof {
            lemma_first_free(bits, total);
        }
        let mut page: u64 = 0;
        while page < self.total_pages
            invariant
                self@ == bits,
                self.wf(),
                total == self.total_pages,
                old(self)@ == bits,
                old(self).total_pages == self.total_pages,
                old(self).max_address == self.max_address,
                total <= bits.len(),
                page <= total,
                first_free(bits, total) == first_free_from(bits, total, page as nat),
            decreases total - page,
        {
            assert(page / 8 < self.bitmap.len());
            let byte_index = (page / 8) as usize;
            let bit_index = (page % 8) as u8;
            assert(byte_index == page as int / 8 && bit_index == ((page as int % 8) as u8));
            assert(bits[page as int] == bit(self.bitmap@, page as int));
            if self.bitmap[byte_index] & (1u8 << bit_index) != 0 {
                let new_byte = self.bitmap[byte_index] & !(1u8 << bit_index);
                proof {
                    lemma_update_bit(self.bitmap@, page as int, false, new_byte);
                }
                let ghost before = self.bitmap@;
                self.bitmap[byte_index] = new_byte;
                proof {
                    assert(self.bitmap@ == before.update(page as int / 8, new_byte));
                    assert(self@ =~= bits.update(page as int, false)) by {
                        assert forall|q: int| 0 <= q < self@.len() implies self@[q] == bits.update(
                            page as int,
                            false,
                        )[q] by {
                            assert(bit(before.update(page as int / 8, new_byte), q) == if q == page {
                                false
                            } else {
                                bit(before, q)
                            });
                        }
                    }
                    assert(self.max_address / 4096 == self.total_pages);
                }
                return Some(page * 4096);
            }
            page = page + 1;
        }
        None
    }

    /// Whether page frame `page` is free.
    fn page_is_free(&self, page: u64) -> (r: bool)
        requires
            page < self@.len(),
        ensures
            r == self@[page as int],
    {
        assert(page / 8 < self.bitmap.len());
        let byte_index = (page / 8) as usize;
        let bit_index = (page % 8) as u8;
        assert(byte_index == page as int / 8 && bit_index == ((page as int % 8) as u8));
        self.bitmap[byte_index] & (1u8 << bit_index) != 0
    }

    /// Sets the flags of pages `start` to `start + count - 1` to `free`.
    fn mark_range(&mut self, start: u64, count: u64, free: bool)
        requires
            old(self).wf(),
            start + count <= old(self)@.len(),
        ensures
            final(self).wf(),
            final(self).bitmap@.len() == old(self).bitmap@.len(),
            final(self).total_pages == old(self).total_pages,
            final(self).max_address == old(self).max_address,
            final(self)@ == mark_pages(old(self)@, start as int, count as int, free),
    {
        let ghost bits = self@;
        proof {
            self.lemma_wf();
        }
        let mut j: u64 = 0;
        while j < count
            invariant
                self.wf(),
                start + count <= bits.len(),
                bits.len() <= self.total_pages + 256,
                self.total_pages * 4096 <= u64::MAX,
                self.bitmap@.len() == old(self).bitmap@.len(),
                self.total_pages == old(self).total_pages,
                self.max_address == old(self).max_address,
                bits == old(self)@,
                j <= count,
                self@ == mark_pages(bits, start as int, j as int, free),
            decreases count - j,
        {
            let ghost before = self@;
            let ghost before_bm = self.bitmap@;
            write_page_bit(&mut self.bitmap, start + j, free);
            proof {
                assert(self@ =~= mark_pages(bits, start as int, j + 1, free)) by {
                    assert forall|q: int| 0 <= q < self@.len() implies self@[q] == mark_pages(
                        bits,
                        start as int,
                        j + 1,
                        free,
                    )[q] by {
                        assert(self@[q] == bit(self.bitmap@, q));
                        assert(before[q] == bit(before_bm, q));
                    }
                }
            }
            j = j + 1;
        }
    }

    /// Hands out the lowest run of `count` contiguous free page frames
    /// below `total_pages`, marking them used, and returns the address of
    /// the first; `None` (nothing changed) when `count` is 0 or no such run
    /// exists.
    pub fn allocate_pages(&mut self, count: u64) -> (r: Option<u64>)
        requires
            old(self).wf(),
        ensures
            final(self).wf(),
            final(self).total_pages_spec() == old(self).total_pages_spec(),
            final(self).max_address_spec() == old(self).max_address_spec(),
            r == pages_handed_out(old(self)@, old(self).total_pages_spec(), count as nat),
            final(self)@ == after_run_allocation(
                old(self)@,
                old(self).total_pages_spec(),
                count as nat,
            ),
    {
        let ghost bits = self@;
        let ghost total = self.total_pages as nat;
        proof {
            lemma_first_run(bits, total, count as nat);
        }
        if count == 0 {
            return None;
        }
        let mut run_start: u64 = 0;
        let mut page: u64 = 0;
        while page < self.total_pages
            invariant
                self.wf(),
                self@ == bits,
                old(self)@ == bits,
                self.total_pages == old(self).total_pages,
                self.max_address == old(self).max_address,
                total == self.total_pages,
                total <= bits.len(),
                count > 0,
                run_start <= page <= total,
                page - run_start < count,
                forall|q: int| run_start <= q < page ==> #[trigger] bits[q],
                forall|s: int|
                    0 <= s < run_start && s + count <= total ==> !run_free(bits, s, count as int),
            decreases total - page,
        {
            if self.page_is_free(page) {
                if page + 1 - run_start == count {
                    let start = run_start;
                    proof {
                        assert(run_free(bits, start as int, count as int));
                        assert(start + count <= total);
                        let f = first_run(bits, total, count as nat);
                        if f < start {
                            assert(!run_free(bits, f as int, count as int));
                        }
                        lemma_first_run(bits, total, count as nat);
                        if start < f {
                            assert(!run_free(bits, start as int, count as int));
                        }
                        assert(f == start);
                    }
                    self.mark_range(start, count, false);
                    assert(start * 4096 <= total * 4096) by (nonlinear_arith)
                        requires
                            start <= total,
                    ;
                    return Some(start * 4096);
                }
                page = page + 1;
            } else {
                proof {
                    assert forall|s: int|
                        0 <= s < page + 1 && s + count <= total implies !run_free(
                        bits,
                        s,
                        count as int,
                    ) by {
                        if s >= run_start {
                            assert(!bits[page as int]);
                        }
                    }
                }
                page = page + 1;
                run_start = page;
            }
        }
        proof {
            let f = first_run(bits, total, count as nat);
            if f < total {
                assert(!run_free(bits, f as int, count as int));
            }
        }
        None
    }

    /// Marks the `count` page frames from the one containing `addr` free
    /// again.
    pub fn free_pages(&mut self, addr: u64, count: u64)
        requires
            old(self).wf(),
            addr / 4096 + count <= old(self)@.len(),
        ensures
            final(self).wf(),
            final(self).total_pages_spec() == old(self).total_pages_spec(),
            final(self).max_address_spec() == old(self).max_address_spec(),
            final(self)@ == mark_pages(old(self)@, addr as int / 4096, count as int, true),
    {
        self.mark_range(addr / 4096, count, true);
    }

    /// Marks the page frame containing `addr` free again.
    pub fn free_page(&mut self, addr: u64)
        requires
            old(self).wf(),
            addr / 4096 < old(self)@.len(),
        ensures
            final(self).wf(),
            final(self).total_pages_spec() == old(self).total_pages_spec(),
            final(self).max_address_spec() == old(self).max_address_spec(),
            final(self)@ == old(self)@.update(addr as int / 4096, true),
    {
        let page = addr / 4096;
        assert(page / 8 < self.bitmap.len());
        let byte_index = (page / 8) as usize;
        let bit_index = (page % 8) as u8;
        assert(byte_index == page as int / 8 && bit_index == ((page as int % 8) as u8));
        let new_byte = self.bitmap[byte_index] | (1u8 << bit_index);
        let ghost before = self.bitmap@;
        let ghost bits = self@;
        proof {
            lemma_update_bit(before, page as int, true, new_byte);
        }
        self.bitmap[byte_index] = new_byte;
        proof {
            assert(self.bitmap@ == before.update(page as int / 8, new_byte));
            assert(self@ =~= bits.update(page as int, true)) by {
                assert forall|q: int| 0 <= q < self@.len() implies self@[q] == bits.update(
                    page as int,
                    true,
                )[q] by {
                    assert(bit(before.update(page as int / 8, new_byte), q) == if q == page {
                        true
                    } else {
                        bit(before, q)
                    });
                }
            }
        }
    }
}

} // verus!

verus! {

/// Law: freeing the page that an allocation handed out undoes it; the
/// bitmap is as before the allocation.
pub proof fn lemma_free_undoes_allocate(bits: Seq<bool>, total: nat)
    requires
        total <= bits.len(),
        first_free(bits, total) < total,
    ensures
        after_allocation(bits, total).update(first_free(bits, total) as int, true) == bits,
{
    lemma_first_free(bits, total);
    assert(after_allocation(bits, total).update(first_free(bits, total) as int, true) =~= bits);
}

/// Law: the allocator hands out only free pages, each only once, and never
/// a page below 1 MiB while none of those is free (as `init` leaves them):
/// the page handed out was free and lies at or above 1 MiB, afterwards it is
/// used, and the low pages stay used.
pub proof fn lemma_allocation_hands_out_free_pages(bits: Seq<bool>, total: nat)
    requires
        total <= bits.len(),
    ensures
        first_free(bits, total) < total ==> bits[first_free(bits, total) as int] && !after_allocation(
            bits,
            total,
        )[first_free(bits, total) as int],
        (forall|q: int| 0 <= q < LOW_RESERVED_PAGES && q < bits.len() ==> !#[trigger] bits[q]) ==> {
            &&& (first_free(bits, total) < total ==> first_free(bits, total) >= LOW_RESERVED_PAGES)
            &&& forall|q: int|
                0 <= q < LOW_RESERVED_PAGES && q < bits.len() ==> !#[trigger] after_allocation(
                    bits,
                    total,
                )[q]
        },
{
    lemma_first_free(bits, total);
}

/// The frame allocator agrees with the memory map and the pages handed
/// out (`live`): every free page below `total` is initially free and not
/// handed out, and every page handed out lies below `total`, is initially
/// free and is not free.
pub open spec fn frames_consistent(
    descs: Seq<EfiMemoryDescriptor>,
    bits: Seq<bool>,
    total: nat,
    live: Set<int>,
) -> bool {
    &&& total <= bits.len()
    &&& forall|p: int|
        0 <= p < total && #[trigger] bits[p] ==> initially_free(descs, p) && !live.contains(p)
    &&& forall|p: int|
        #[trigger] live.contains(p) ==> 0 <= p < total && initially_free(descs, p) && !bits[p]
}

/// Law of `init`: the bitmap `init` builds agrees with the memory map, with
/// nothing handed out yet.
pub proof fn lemma_init_consistent(descs: Seq<EfiMemoryDescriptor>, bits: Seq<bool>, total: nat)
    requires
        total <= bits.len(),
        forall|p: int| 0 <= p < bits.len() ==> #[trigger] bits[p] == initially_free(descs, p),
    ensures
        frames_consistent(descs, bits, total, Set::empty()),
{
}

/// Law of `allocate_page` over any sequence of calls: the page handed out
/// was initially free (conventional memory, not the bitmap's own pages, at
/// or above 1 MiB) and is not already handed out; afterwards the allocator
/// still agrees, with that page handed out.
pub proof fn lemma_allocate_page_consistent(
    descs: Seq<EfiMemoryDescriptor>,
    bits: Seq<bool>,
    total: nat,
    live: Set<int>,
)
    requires
        frames_consistent(descs, bits, total, live),
        first_free(bits, total) < total,
    ensures
        ({
            let p = first_free(bits, total) as int;
            &&& initially_free(descs, p)
            &&& p >= LOW_RESERVED_PAGES
            &&& !live.contains(p)
            &&& frames_consistent(descs, after_allocation(bits, total), total, live.insert(p))
        }),
{
    lemma_first_free(bits, total);
    let p = first_free(bits, total) as int;
    assert(bits[p]);
    let nb = after_allocation(bits, total);
    assert forall|q: int| #[trigger] live.insert(p).contains(q) implies 0 <= q < total
        && initially_free(descs, q) && !nb[q] by {
        if q != p {
            assert(live.contains(q));
        }
    }
}

/// Law of `free_page` over any sequence of calls: freeing a page that was
/// handed out keeps the allocator in agreement, with that page no longer
/// handed out.
pub proof fn lemma_free_page_consistent(
    descs: Seq<EfiMemoryDescriptor>,
    bits: Seq<bool>,
    total: nat,
    live: Set<int>,
    p: int,
)
    requires
        frames_consistent(descs, bits, total, live),
        live.contains(p),
    ensures
        frames_consistent(descs, bits.update(p, true), total, live.remove(p)),
{
    let nb = bits.update(p, true);
    assert forall|q: int| 0 <= q < total && #[trigger] nb[q] implies initially_free(descs, q)
        && !live.remove(p).contains(q) by {
        if q != p {
            assert(bits[q]);
        }
    }
}

/// Law of `allocate_pages` over any sequence of calls: each page of the run
/// handed out was initially free and is not already handed out; afterwards
/// the allocator still agrees, with the run handed out.
pub proof fn lemma_allocate_pages_consistent(
    descs: Seq<EfiMemoryDescriptor>,
    bits: Seq<bool>,
    total: nat,
    live: Set<int>,
    count: nat,
)
    requires
        frames_consistent(descs, bits, total, live),
        count > 0,
        first_run(bits, total, count) < total,
    ensures
        ({
            let s = first_run(bits, total, count) as int;
            let run = Set::new(|q: int| s <= q < s + count);
            &&& forall|q: int|
                s <= q < s + count ==> initially_free(descs, q) && !live.contains(q)
            &&& frames_consistent(
                descs,
                after_run_allocation(bits, total, count),
                total,
                live.union(run),
            )
        }),
{
    lemma_first_run(bits, total, count);
    let s = first_run(bits, total, count) as int;
    let run = Set::new(|q: int| s <= q < s + count);
    let nb = after_run_allocation(bits, total, count);
    assert forall|q: int| s <= q < s + count implies initially_free(descs, q) && !live.contains(q) by {
        assert(bits[q]);
    }
    assert forall|q: int| 0 <= q < total && #[trigger] nb[q] implies initially_free(descs, q)
        && !live.union(run).contains(q) by {
        assert(bits[q]);
    }
    assert forall|q: int| #[trigger] live.union(run).contains(q) implies 0 <= q < total
        && initially_free(descs, q) && !nb[q] by {
        if !live.contains(q) {
            assert(bits[q]);
        }
    }
}

/// Law of `free_pages` over any sequence of calls: freeing a run of pages
/// that were all handed out keeps the allocator in agreement, with the run
/// no longer handed out.
pub proof fn lemma_free_pages_consistent(
    descs: Seq<EfiMemoryDescriptor>,
    bits: Seq<bool>,
    total: nat,
    live: Set<int>,
    start: int,
    count: nat,
)
    requires
        frames_consistent(descs, bits, total, live),
        forall|q: int| start <= q < start + count ==> #[trigger] live.contains(q),
    ensures
        frames_consistent(
            descs,
            mark_pages(bits, start, count as int, true),
            total,
            live.difference(Set::new(|q: int| start <= q < start + count)),
        ),
{
    let run = Set::new(|q: int| start <= q < start + count);
    let nb = mark_pages(bits, start, count as int, true);
    assert forall|q: int| 0 <= q < total && #[trigger] nb[q] implies initially_free(descs, q)
        && !live.difference(run).contains(q) by {
        if start <= q < start + count {
            assert(live.contains(q));
        } else {
            assert(bits[q]);
        }
    }
}

/// Law: freeing the run that `allocate_pages` handed out undoes it; the
/// bitmap is as before the allocation.
pub proof fn lemma_free_pages_undoes_allocate_pages(bits: Seq<bool>, total: nat, count: nat)
    requires
        total <= bits.len(),
        count > 0,
        first_run(bits, total, count) < total,
    ensures
        mark_pages(
            after_run_allocation(bits, total, count),
            first_run(bits, total, count) as int,
            count as int,
            true,
        ) == bits,
{
    lemma_first_run(bits, total, count);
    let s = first_run(bits, total, count) as int;
    let r = mark_pages(after_run_allocation(bits, total, count), s, count as int, true);
    assert forall|q: int| 0 <= q < bits.len() implies r[q] == bits[q] by {
        if s <= q < s + count {
            assert(bits[q]);
        }
    }
    assert(r =~= bits);
}

/// The first `n` allocations from a bitmap with at least `n` free pages
/// below `total`: each hands out a page below `total` that was free, which
/// stays used afterwards; no two hand out the same page; and the bitmap only
/// loses free pages, `n` of them.
pub proof fn lemma_nth_allocations(bits: Seq<bool>, total: nat, n: nat)
    requires
        total <= bits.len(),
        count_free(bits, total) >= n,
    ensures
        after_allocations(bits, total, n).len() == bits.len(),
        forall|q: int|
            0 <= q < bits.len() && #[trigger] after_allocations(bits, total, n)[q] ==> bits[q],
        forall|i: nat|
            i < n ==> {
                let p = #[trigger] nth_allocation(bits, total, i);
                &&& p < total
                &&& bits[p as int]
                &&& !after_allocations(bits, total, n)[p as int]
            },
        forall|i: nat, j: nat|
            i < j < n ==> #[trigger] nth_allocation(bits, total, i) != #[trigger] nth_allocation(
                bits,
                total,
                j,
            ),
        count_free(after_allocations(bits, total, n), total) + n == count_free(bits, total),
    decreases n,
{
    if n > 0 {
        let k = (n - 1) as nat;
        lemma_nth_allocations(bits, total, k);
        let a = after_allocations(bits, total, k);
        lemma_allocation_counts(a, total);
        lemma_first_free(a, total);
        let f = first_free(a, total);
        assert(nth_allocation(bits, total, k) == f);
        assert(after_allocations(bits, total, n) == a.update(f as int, false));
        assert forall|i: nat| i < n implies {
            let p = #[trigger] nth_allocation(bits, total, i);
            &&& p < total
            &&& bits[p as int]
            &&& !after_allocations(bits, total, n)[p as int]
        } by {
            if i < k {
                let p = nth_allocation(bits, total, i);
                assert(!a[p as int]);
            }
        }
        assert forall|i: nat, j: nat| i < j < n implies #[trigger] nth_allocation(bits, total, i)
            != #[trigger] nth_allocation(bits, total, j) by {
            if j == k {
                let p = nth_allocation(bits, total, i);
                assert(!a[p as int]);
                assert(a[f as int]);
            }
        }
    }
}

/// Law of `init`: a page is left free exactly when a descriptor of type 7
/// (EfiConventionalMemory, and no other type) covers it, the bitmap does not
/// occupy it, and it lies at or above 1 MiB. A page covered only by
/// descriptors of other types is never free.
pub proof fn lemma_initially_free_exact(descs: Seq<EfiMemoryDescriptor>, p: int)
    ensures
        initially_free(descs, p) <==> {
            &&& exists|j: int|
                0 <= j < descs.len() && (#[trigger] descs[j]).mem_type == 7u32 && descs[j].phys_start
                    / 4096 <= p < descs[j].phys_start / 4096 + descs[j].num_pages
            &&& !(bitmap_start_page(descs) <= p < bitmap_start_page(descs) + bitmap_page_count(
                descs,
            ))
            &&& p >= 256
        },
{
    if conventional_page(descs, p) {
        let j = choose|j: int|
            0 <= j < descs.len() && #[trigger] descs[j].mem_type == CONVENTIONAL_MEMORY
                && desc_start_page(descs[j]) <= p < desc_start_page(descs[j]) + descs[j].num_pages;
        assert(descs[j].mem_type == 7u32);
    }
    if exists|j: int|
        0 <= j < descs.len() && (#[trigger] descs[j]).mem_type == 7u32 && descs[j].phys_start
            / 4096 <= p < descs[j].phys_start / 4096 + descs[j].num_pages {
        let j = choose|j: int|
            0 <= j < descs.len() && (#[trigger] descs[j]).mem_type == 7u32 && descs[j].phys_start
                / 4096 <= p < descs[j].phys_start / 4096 + descs[j].num_pages;
        assert(descs[j].mem_type == CONVENTIONAL_MEMORY);
    }
}

} // verus!
