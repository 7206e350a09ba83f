use vstd::prelude::*;
use crate::memory::{
    FrameAllocator, after_allocation, after_allocations, after_run_allocation, count_free,
    first_free, first_run, lemma_first_free, lemma_first_run,
    lemma_free_pages_undoes_allocate_pages, lemma_nth_allocations, mark_pages, nth_allocation,
    pages_handed_out,
};
use crate::slab::{
    Slab, SlabAllocator, class_for, fresh_free_list, is_slot, lemma_class_for,
    lemma_fresh_slab_consistent, lemma_size_class_pow2, lemma_slab_allocate_consistent,
    lemma_slab_free_consistent, lemma_slot_aligned, size_class, slab_consistent, NUM_SIZE_CLASSES,
};
use crate::buddy::ranges_disjoint;
use vstd::arithmetic::div_mod::lemma_mod_multiples_basic;
use vstd::arithmetic::power2::{
    lemma2_to64, lemma_pow2_adds, lemma_pow2_pos, lemma_pow2_strictly_increases, pow2,
};

verus! {

/// The kernel heap's state: the frame allocator and the slab allocator that
/// serve its requests.
pub struct KernelAllocatorInner {
    frame_allocator: FrameAllocator,
    slab_allocator: SlabAllocator,
}

/// Bytes a request of `size` bytes aligned to `align` takes: the larger of
/// the two, so that a slab slot of that class is aligned as asked.
pub open spec fn request_bytes(size: nat, align: nat) -> nat {
    if size >= align {
        size
    } else {
        align
    }
}

/// Pages a request above 2048 bytes takes: its bytes rounded up to pages.
pub open spec fn request_pages(size: nat, align: nat) -> nat {
    (request_bytes(size, align) + 4095) / 4096
}

/// The slab of the size class of a `size`-byte request has a free slot.
pub open spec fn slab_serves(slabs: SlabAllocator, size: nat) -> bool {
    class_for(size) < NUM_SIZE_CLASSES && slabs.slabs_spec()[class_for(size) as int]@.len() > 0
}

impl KernelAllocatorInner {
    /// The frame allocator large requests (and requests no slab can serve)
    /// fall back to.
    pub closed spec fn frames(&self) -> FrameAllocator {
        self.frame_allocator
    }

    /// The slab allocator that serves requests up to 2048 bytes.
    pub closed spec fn slabs(&self) -> SlabAllocator {
        self.slab_allocator
    }

    /// Both allocators are well-formed.
    pub open spec fn wf(&self) -> bool {
        self.frames().wf() && self.slabs().wf()
    }

    /// Puts the two allocators together.
    pub fn new(frame_allocator: FrameAllocator, slab_allocator: SlabAllocator) -> (r: Self)
        ensures
            r.frames() == frame_allocator,
            r.slabs() == slab_allocator,
    {
        KernelAllocatorInner { frame_allocator, slab_allocator }
    }

    /// Serves a request of `size` bytes aligned to `align` (a power of two).
    /// Requests that need at most 2048 bytes (the larger of size and
    /// alignment) come from the slab of that class, whose slots are aligned
    /// to the class size, or one page when that slab is empty; larger ones
    /// take `request_pages` contiguous pages. Alignments above a page are
    /// refused. `None` when there is no memory left.
    pub fn allocate(&mut self, size: u64, align: u64) -> (r: Option<u64>)
        requires
            old(self).wf(),
        ensures
            final(self).wf(),
            align > 4096 ==> r is None && *final(self) == *old(self),
            align <= 4096 && request_bytes(size as nat, align as nat) <= 2048 && slab_serves(
                old(self).slabs(),
                request_bytes(size as nat, align as nat),
            ) ==> {
                let c = class_for(request_bytes(size as nat, align as nat)) as int;
                &&& r == Some(old(self).slabs().slabs_spec()[c]@.last())
                &&& final(self).frames() == old(self).frames()
                &&& final(self).slabs().slabs_spec()[c]@ == old(self).slabs().slabs_spec()[c]@.drop_last()
                &&& final(self).slabs().slabs_spec()[c].page_spec() == old(self).slabs().slabs_spec()[c].page_spec()
                &&& forall|j: int|
                    0 <= j < NUM_SIZE_CLASSES && j != c ==> #[trigger] final(self).slabs().slabs_spec()[j]
                        == old(self).slabs().slabs_spec()[j]
            },
            align <= 4096 && request_bytes(size as nat, align as nat) <= 2048 && !slab_serves(
                old(self).slabs(),
                request_bytes(size as nat, align as nat),
            ) ==> {
                &&& final(self).slabs().slabs_spec() == old(self).slabs().slabs_spec()
                &&& final(self).frames().total_pages_spec() == old(self).frames().total_pages_spec()
                &&& final(self).frames()@ == after_allocation(
                    old(self).frames()@,
                    old(self).frames().total_pages_spec(),
                )
                &&& r == if first_free(old(self).frames()@, old(self).frames().total_pages_spec())
                    < old(self).frames().total_pages_spec() {
                    Some(
                        (first_free(old(self).frames()@, old(self).frames().total_pages_spec())
                            * 4096) as u64,
                    )
                } else {
                    None
                }
            },
            align <= 4096 && request_bytes(size as nat, align as nat) > 2048 ==> {
                &&& final(self).slabs().slabs_spec() == old(self).slabs().slabs_spec()
                &&& final(self).frames().total_pages_spec() == old(self).frames().total_pages_spec()
                &&& final(self).frames()@ == after_run_allocation(
                    old(self).frames()@,
                    old(self).frames().total_pages_spec(),
                    request_pages(size as nat, align as nat),
                )
                &&& r == pages_handed_out(
                    old(self).frames()@,
                    old(self).frames().total_pages_spec(),
                    request_pages(size as nat, align as nat),
                )
            },
    {
        if align > 4096 {
            return None;
        }
        let need = if size >= align {
            size
        } else {
            align
        };
        if need <= 2048 {
            let from_slab = self.slab_allocator.allocate(need);
            proof {
                lemma_class_for(need as nat);
            }
            if let Some(ptr) = from_slab {
                return Some(ptr);
            }
            assert(!slab_serves(old(self).slabs(), need as nat));
            proof {
                self.frame_allocator.lemma_wf();
                lemma_first_free(self.frame_allocator@, self.frame_allocator.total_pages_spec());
            }
            self.frame_allocator.allocate_page()
        } else {
            let pages = need / 4096 + if need % 4096 == 0 {
                0
            } else {
                1
            };
            assert(pages == request_pages(size as nat, align as nat));
            self.frame_allocator.allocate_pages(pages)
        }
    }

    /// Returns the memory at `ptr` of a request of `size` bytes aligned to
    /// `align`: to the slab of its class when it needed at most 2048 bytes,
    /// otherwise its `request_pages` pages to the frame allocator (ignored
    /// when they would reach past the pages the allocator tracks). Requests
    /// aligned above a page were never served and are ignored.
    pub fn deallocate(&mut self, ptr: u64, size: u64, align: u64)
        requires
            old(self).wf(),
            ptr != 0,
        ensures
            final(self).wf(),
            align > 4096 ==> *final(self) == *old(self),
            align <= 4096 && request_bytes(size as nat, align as nat) <= 2048 ==> {
                let c = class_for(request_bytes(size as nat, align as nat)) as int;
                &&& final(self).frames() == old(self).frames()
                &&& final(self).slabs().slabs_spec()[c]@ == old(self).slabs().slabs_spec()[c]@.push(
                    ptr,
                )
                &&& final(self).slabs().slabs_spec()[c].page_spec() == old(self).slabs().slabs_spec()[c].page_spec()
                &&& forall|j: int|
                    0 <= j < NUM_SIZE_CLASSES && j != c ==> #[trigger] final(self).slabs().slabs_spec()[j]
                        == old(self).slabs().slabs_spec()[j]
            },
            align <= 4096 && request_bytes(size as nat, align as nat) > 2048 ==> {
                let n = request_pages(size as nat, align as nat);
                &&& final(self).slabs() == old(self).slabs()
                &&& final(self).frames().total_pages_spec() == old(self).frames().total_pages_spec()
                &&& final(self).frames()@ == if ptr / 4096 + n <= old(self).frames().total_pages_spec() {
                    mark_pages(old(self).frames()@, ptr as int / 4096, n as int, true)
                } else {
                    old(self).frames()@
                }
            },
    {
        if align > 4096 {
            return ;
        }
        let need = if size >= align {
            size
        } else {
            align
        };
        if need <= 2048 {
            proof {
                lemma_class_for(need as nat);
            }
            self.slab_allocator.free(ptr, need);
        } else {
            let pages = need / 4096 + if need % 4096 == 0 {
                0
            } else {
                1
            };
            assert(pages == request_pages(size as nat, align as nat));
            proof {
                self.frame_allocator.lemma_wf();
            }
            let total = self.frame_allocator.max_address() / 4096;
            if ptr / 4096 + pages <= total {
                self.frame_allocator.free_pages(ptr, pages);
            }
        }
    }
}

/// Law of the heap's alignment, for a request served from a slab: when the
/// alignment is a power of two, the slot handed out (a slot of the slab of
/// the request's class, whose page starts on a page boundary) is aligned to
/// it.
pub proof fn lemma_heap_slot_aligned(page: u64, size: nat, m: nat, a: u64)
    requires
        request_bytes(size, pow2(m)) <= 2048,
        is_slot(page, size_class(class_for(request_bytes(size, pow2(m)))) as u64, a),
        page % 4096 == 0,
    ensures
        a as int % (pow2(m) as int) == 0,
{
    let rb = request_bytes(size, pow2(m));
    let c = class_for(rb);
    lemma_class_for(rb);
    lemma_size_class_pow2(c);
    lemma_pow2_pos(m);
    if m > c + 5 {
        lemma_pow2_strictly_increases(c + 5, m);
    }
    let d = (c + 5 - m) as nat;
    lemma_pow2_adds(m, d);
    assert(m + d == c + 5);
    assert(size_class(c) == pow2(d) * pow2(m));
    lemma_mod_multiples_basic(pow2(d) as int, pow2(m) as int);
    lemma_slot_aligned(page, size_class(c) as u64, a, pow2(m) as int);
}

/// Law of the heap's alignment, for a request served from pages: a page's
/// address is aligned to every power of two up to the page size.
pub proof fn lemma_heap_page_aligned(page: nat, m: nat)
    requires
        pow2(m) <= 4096,
    ensures
        (page * 4096) as int % (pow2(m) as int) == 0,
{
    lemma2_to64();
    lemma_pow2_pos(m);
    if m > 12 {
        lemma_pow2_strictly_increases(12, m);
    }
    let d = (12 - m) as nat;
    lemma_pow2_adds(m, d);
    assert(m + d == 12);
    assert(page * 4096 == (page * pow2(d)) * pow2(m)) by (nonlinear_arith)
        requires
            4096 == pow2(m) * pow2(d),
    ;
    lemma_mod_multiples_basic((page * pow2(d)) as int, pow2(m) as int);
}

/// Law of the heap: freeing a request above 2048 bytes that was served from
/// pages undoes it. The pages handed out lie below `total_pages`, so
/// `deallocate` returns them, and the frame allocator's bitmap is as before
/// the allocation.
pub proof fn lemma_large_free_undoes_allocate(bits: Seq<bool>, total: nat, size: nat, align: nat)
    requires
        total <= bits.len(),
        total * 4096 <= u64::MAX,
        request_bytes(size, align) > 2048,
        pages_handed_out(bits, total, request_pages(size, align)) is Some,
    ensures
        ({
            let n = request_pages(size, align);
            let a = pages_handed_out(bits, total, n)->0;
            &&& a / 4096 + n <= total
            &&& mark_pages(after_run_allocation(bits, total, n), a as int / 4096, n as int, true)
                == bits
        }),
{
    let n = request_pages(size, align);
    lemma_first_run(bits, total, n);
    let s = first_run(bits, total, n);
    assert(s * 4096 <= total * 4096) by (nonlinear_arith)
        requires
            s <= total,
    ;
    assert((s * 4096) as u64 as int / 4096 == s);
    lemma_free_pages_undoes_allocate_pages(bits, total, n);
}

/// The slab of class `c` sits in the heap: its page starts on a page
/// boundary below `total`, is used in the frame bitmap and is not among the
/// pages handed out whole; its slots are of the class's size; and it agrees
/// with the class's slots handed out (`slab_consistent`).
pub open spec fn slab_in_heap(
    bits: Seq<bool>,
    total: nat,
    slab: Slab,
    pages: Set<int>,
    slots: Set<u64>,
    c: nat,
) -> bool {
    let pg = slab.page_spec();
    &&& pg % 4096 == 0
    &&& pg / 4096 < total
    &&& !bits[(pg / 4096) as int]
    &&& !pages.contains((pg / 4096) as int)
    &&& slab.object_size_spec() == size_class(c)
    &&& slab_consistent(pg, slab.object_size_spec(), slab@, slots)
}

/// The heap's allocators agree with what the heap has handed out: `pages`
/// holds the page frames handed out whole (requests above 2048 bytes, and
/// smaller ones served by a page), `slots[i]` the slots of class `i` handed
/// out. Every page handed out lies below `total` and is used in the bitmap,
/// every slab sits in the heap (`slab_in_heap`), and no two slabs share a
/// page.
pub open spec fn heap_consistent(
    bits: Seq<bool>,
    total: nat,
    slabs: Seq<Slab>,
    pages: Set<int>,
    slots: Seq<Set<u64>>,
) -> bool {
    &&& total <= bits.len()
    &&& slabs.len() == NUM_SIZE_CLASSES
    &&& slots.len() == NUM_SIZE_CLASSES
    &&& forall|p: int| #[trigger] pages.contains(p) ==> 0 <= p < total && !bits[p]
    &&& forall|i: int|
        0 <= i < NUM_SIZE_CLASSES ==> slab_in_heap(
            bits,
            total,
            #[trigger] slabs[i],
            pages,
            slots[i],
            i as nat,
        )
    &&& forall|i: int, j: int|
        0 <= i < NUM_SIZE_CLASSES && 0 <= j < NUM_SIZE_CLASSES && i != j ==> (#[trigger] slabs[i]).page_spec()
            != (#[trigger] slabs[j]).page_spec()
}

/// Two different multiples of the page size are at least a page apart.
proof fn lemma_distinct_page_starts(x: int, y: int)
    requires
        x % 4096 == 0,
        y % 4096 == 0,
        x != y,
    ensures
        x + 4096 <= y || y + 4096 <= x,
{
    vstd::arithmetic::div_mod::lemma_fundamental_div_mod(x, 4096);
    vstd::arithmetic::div_mod::lemma_fundamental_div_mod(y, 4096);
    let qx = x / 4096;
    let qy = y / 4096;
    assert(qx != qy);
    assert(x + 4096 <= y || y + 4096 <= x) by (nonlinear_arith)
        requires
            x == 4096 * qx,
            y == 4096 * qy,
            qx != qy,
    ;
}

/// Two different slots of one slab do not overlap.
proof fn lemma_distinct_slots(page: u64, object_size: u64, a: u64, b: u64)
    requires
        object_size > 0,
        is_slot(page, object_size, a),
        is_slot(page, object_size, b),
        a != b,
    ensures
        ranges_disjoint(a as int, object_size as int, b as int, object_size as int),
{
    let os = object_size as int;
    vstd::arithmetic::div_mod::lemma_fundamental_div_mod(a - page, os);
    vstd::arithmetic::div_mod::lemma_fundamental_div_mod(b - page, os);
    let ka = (a - page) / os;
    let kb = (b - page) / os;
    assert(a + os <= b || b + os <= a) by (nonlinear_arith)
        requires
            a - page == os * ka,
            b - page == os * kb,
            a != b,
            os > 0,
    ;
}

/// Law of the heap: no two blocks it has handed out overlap. Two different
/// slots (of one class or of two) are disjoint, and a slot is disjoint from
/// every page handed out whole.
pub proof fn lemma_heap_blocks_disjoint(
    bits: Seq<bool>,
    total: nat,
    slabs: Seq<Slab>,
    pages: Set<int>,
    slots: Seq<Set<u64>>,
)
    requires
        heap_consistent(bits, total, slabs, pages, slots),
    ensures
        forall|i: int, j: int, a: u64, b: u64|
            0 <= i < NUM_SIZE_CLASSES && 0 <= j < NUM_SIZE_CLASSES && #[trigger] slots[i].contains(a)
                && #[trigger] slots[j].contains(b) && (i != j || a != b) ==> ranges_disjoint(
                a as int,
                size_class(i as nat) as int,
                b as int,
                size_class(j as nat) as int,
            ),
        forall|i: int, a: u64, p: int|
            0 <= i < NUM_SIZE_CLASSES && #[trigger] slots[i].contains(a) && #[trigger] pages.contains(
                p,
            ) ==> ranges_disjoint(a as int, size_class(i as nat) as int, p * 4096, 4096),
{
    assert forall|i: int, j: int, a: u64, b: u64|
        0 <= i < NUM_SIZE_CLASSES && 0 <= j < NUM_SIZE_CLASSES && #[trigger] slots[i].contains(a)
            && #[trigger] slots[j].contains(b) && (i != j || a != b) implies ranges_disjoint(
        a as int,
        size_class(i as nat) as int,
        b as int,
        size_class(j as nat) as int,
    ) by {
        assert(slab_in_heap(bits, total, slabs[i], pages, slots[i], i as nat));
        assert(slab_in_heap(bits, total, slabs[j], pages, slots[j], j as nat));
        lemma_size_class_pow2(i as nat);
        lemma_size_class_pow2(j as nat);
        if i == j {
            lemma_pow2_pos((i + 5) as nat);
            lemma_distinct_slots(slabs[i].page_spec(), slabs[i].object_size_spec(), a, b);
        } else {
            lemma_distinct_page_starts(slabs[i].page_spec() as int, slabs[j].page_spec() as int);
        }
    }
    assert forall|i: int, a: u64, p: int|
        0 <= i < NUM_SIZE_CLASSES && #[trigger] slots[i].contains(a) && #[trigger] pages.contains(
            p,
        ) implies ranges_disjoint(a as int, size_class(i as nat) as int, p * 4096, 4096) by {
        assert(slab_in_heap(bits, total, slabs[i], pages, slots[i], i as nat));
        lemma_size_class_pow2(i as nat);
        let pg = slabs[i].page_spec() as int;
        assert(pg / 4096 != p);
        vstd::arithmetic::div_mod::lemma_fundamental_div_mod(pg, 4096);
        assert((p * 4096) % 4096 == 0) by {
            lemma_mod_multiples_basic(p, 4096);
        }
        assert(pg != p * 4096) by {
            if pg == p * 4096 {
                vstd::arithmetic::div_mod::lemma_div_multiples_vanish(p, 4096);
            }
        }
        lemma_distinct_page_starts(pg, p * 4096);
    }
}

/// Law of the heap's start: the frame allocator after `SlabAllocator::init`
/// took its seven pages (the lowest free ones, in class order) and the fresh
/// slabs on them agree, with nothing handed out. Page 0 must be used, as
/// `memory::init` leaves it.
pub proof fn lemma_heap_start(bits: Seq<bool>, total: nat, slabs: Seq<Slab>)
    requires
        total <= bits.len(),
        total * 4096 <= u64::MAX,
        count_free(bits, total) >= NUM_SIZE_CLASSES,
        !bits[0],
        slabs.len() == NUM_SIZE_CLASSES,
        forall|i: int|
            0 <= i < NUM_SIZE_CLASSES ==> {
                let page = (nth_allocation(bits, total, i as nat) * 4096) as u64;
                &&& (#[trigger] slabs[i]).page_spec() == page
                &&& slabs[i].object_size_spec() == size_class(i as nat)
                &&& slabs[i]@ == fresh_free_list(page, size_class(i as nat) as u64)
            },
    ensures
        heap_consistent(
            after_allocations(bits, total, NUM_SIZE_CLASSES as nat),
            total,
            slabs,
            Set::empty(),
            Seq::new(NUM_SIZE_CLASSES as nat, |i: int| Set::<u64>::empty()),
        ),
{
    let n = NUM_SIZE_CLASSES as nat;
    let after = after_allocations(bits, total, n);
    let slots = Seq::new(n, |i: int| Set::<u64>::empty());
    lemma_nth_allocations(bits, total, n);
    assert forall|i: int| 0 <= i < NUM_SIZE_CLASSES implies slab_in_heap(
        after,
        total,
        #[trigger] slabs[i],
        Set::empty(),
        slots[i],
        i as nat,
    ) by {
        let p = nth_allocation(bits, total, i as nat);
        assert(p < total && bits[p as int] && !after[p as int]);
        assert(p != 0);
        assert(p * 4096 + 4096 <= total * 4096) by (nonlinear_arith)
            requires
                p < total,
        ;
        let page = (p * 4096) as u64;
        assert(page == p * 4096);
        assert(page % 4096 == 0 && page / 4096 == p) by (nonlinear_arith)
            requires
                page == p * 4096,
        ;
        lemma_size_class_pow2(i as nat);
        lemma_pow2_pos((i + 5) as nat);
        lemma_fresh_slab_consistent(page, size_class(i as nat) as u64);
        assert(slots[i] == Set::<u64>::empty());
    }
    assert forall|i: int, j: int|
        0 <= i < NUM_SIZE_CLASSES && 0 <= j < NUM_SIZE_CLASSES && i != j implies (
        #[trigger] slabs[i]).page_spec() != (#[trigger] slabs[j]).page_spec() by {
        let pi = nth_allocation(bits, total, i as nat);
        let pj = nth_allocation(bits, total, j as nat);
        assert(pi != pj);
        assert(pi < total && pj < total);
        assert(pi * 4096 != pj * 4096) by (nonlinear_arith)
            requires
                pi != pj,
        ;
        assert(pi * 4096 < total * 4096 && pj * 4096 < total * 4096) by (nonlinear_arith)
            requires
                pi < total,
                pj < total,
        ;
    }
}

/// Law of the heap: serving a request from the slab of class `c` (the
/// slab's head slot, `new_slabs` being the slabs afterwards) keeps the heap
/// in agreement, with that slot handed out; it was not handed out before.
pub proof fn lemma_heap_slab_allocate(
    bits: Seq<bool>,
    total: nat,
    slabs: Seq<Slab>,
    pages: Set<int>,
    slots: Seq<Set<u64>>,
    c: int,
    new_slabs: Seq<Slab>,
)
    requires
        heap_consistent(bits, total, slabs, pages, slots),
        0 <= c < NUM_SIZE_CLASSES,
        slabs[c]@.len() > 0,
        new_slabs.len() == NUM_SIZE_CLASSES,
        new_slabs[c]@ == slabs[c]@.drop_last(),
        new_slabs[c].page_spec() == slabs[c].page_spec(),
        new_slabs[c].object_size_spec() == slabs[c].object_size_spec(),
        forall|j: int| 0 <= j < NUM_SIZE_CLASSES && j != c ==> #[trigger] new_slabs[j] == slabs[j],
    ensures
        !slots[c].contains(slabs[c]@.last()),
        heap_consistent(
            bits,
            total,
            new_slabs,
            pages,
            slots.update(c, slots[c].insert(slabs[c]@.last())),
        ),
{
    let a = slabs[c]@.last();
    let new_slots = slots.update(c, slots[c].insert(a));
    assert(slab_in_heap(bits, total, slabs[c], pages, slots[c], c as nat));
    lemma_slab_allocate_consistent(slabs[c].page_spec(), slabs[c].object_size_spec(), slabs[c]@, slots[c]);
    assert forall|i: int| 0 <= i < NUM_SIZE_CLASSES implies slab_in_heap(
        bits,
        total,
        #[trigger] new_slabs[i],
        pages,
        new_slots[i],
        i as nat,
    ) by {
        if i != c {
            assert(new_slabs[i] == slabs[i]);
            assert(slab_in_heap(bits, total, slabs[i], pages, slots[i], i as nat));
        }
    }
    assert forall|i: int, j: int|
        0 <= i < NUM_SIZE_CLASSES && 0 <= j < NUM_SIZE_CLASSES && i != j implies (
        #[trigger] new_slabs[i]).page_spec() != (#[trigger] new_slabs[j]).page_spec() by {
        assert(slabs[i].page_spec() != slabs[j].page_spec());
        if i != c {
            assert(new_slabs[i] == slabs[i]);
        }
        if j != c {
            assert(new_slabs[j] == slabs[j]);
        }
    }
}

/// Law of the heap: returning a slot of class `c` that was handed out to
/// its slab (`new_slabs` being the slabs afterwards) keeps the heap in
/// agreement, with that slot no longer handed out.
pub proof fn lemma_heap_slab_free(
    bits: Seq<bool>,
    total: nat,
    slabs: Seq<Slab>,
    pages: Set<int>,
    slots: Seq<Set<u64>>,
    c: int,
    a: u64,
    new_slabs: Seq<Slab>,
)
    requires
        heap_consistent(bits, total, slabs, pages, slots),
        0 <= c < NUM_SIZE_CLASSES,
        slots[c].contains(a),
        new_slabs.len() == NUM_SIZE_CLASSES,
        new_slabs[c]@ == slabs[c]@.push(a),
        new_slabs[c].page_spec() == slabs[c].page_spec(),
        new_slabs[c].object_size_spec() == slabs[c].object_size_spec(),
        forall|j: int| 0 <= j < NUM_SIZE_CLASSES && j != c ==> #[trigger] new_slabs[j] == slabs[j],
    ensures
        heap_consistent(bits, total, new_slabs, pages, slots.update(c, slots[c].remove(a))),
{
    let new_slots = slots.update(c, slots[c].remove(a));
    assert(slab_in_heap(bits, total, slabs[c], pages, slots[c], c as nat));
    lemma_slab_free_consistent(slabs[c].page_spec(), slabs[c].object_size_spec(), slabs[c]@, slots[c], a);
    assert forall|i: int| 0 <= i < NUM_SIZE_CLASSES implies slab_in_heap(
        bits,
        total,
        #[trigger] new_slabs[i],
        pages,
        new_slots[i],
        i as nat,
    ) by {
        if i != c {
            assert(new_slabs[i] == slabs[i]);
            assert(slab_in_heap(bits, total, slabs[i], pages, slots[i], i as nat));
        }
    }
    assert forall|i: int, j: int|
        0 <= i < NUM_SIZE_CLASSES && 0 <= j < NUM_SIZE_CLASSES && i != j implies (
        #[trigger] new_slabs[i]).page_spec() != (#[trigger] new_slabs[j]).page_spec() by {
        assert(slabs[i].page_spec() != slabs[j].page_spec());
        if i != c {
            assert(new_slabs[i] == slabs[i]);
        }
        if j != c {
            assert(new_slabs[j] == slabs[j]);
        }
    }
}

/// Law of the heap: serving a request with one page from the frame
/// allocator keeps the heap in agreement, with that page handed out; it
/// was neither handed out nor a slab's page.
pub proof fn lemma_heap_page_allocate(
    bits: Seq<bool>,
    total: nat,
    slabs: Seq<Slab>,
    pages: Set<int>,
    slots: Seq<Set<u64>>,
)
    requires
        heap_consistent(bits, total, slabs, pages, slots),
        first_free(bits, total) < total,
    ensures
        !pages.contains(first_free(bits, total) as int),
        heap_consistent(
            after_allocation(bits, total),
            total,
            slabs,
            pages.insert(first_free(bits, total) as int),
            slots,
        ),
{
    lemma_first_free(bits, total);
    let p = first_free(bits, total) as int;
    let nb = after_allocation(bits, total);
    assert(bits[p]);
    assert forall|q: int| #[trigger] pages.insert(p).contains(q) implies 0 <= q < total && !nb[q] by {}
    assert forall|i: int| 0 <= i < NUM_SIZE_CLASSES implies slab_in_heap(
        nb,
        total,
        #[trigger] slabs[i],
        pages.insert(p),
        slots[i],
        i as nat,
    ) by {
        assert(slab_in_heap(bits, total, slabs[i], pages, slots[i], i as nat));
    }
}

/// Law of the heap: serving a request with a run of `count` pages keeps the
/// heap in agreement, with the run handed out; none of its pages was handed
/// out or a slab's page.
pub proof fn lemma_heap_run_allocate(
    bits: Seq<bool>,
    total: nat,
    slabs: Seq<Slab>,
    pages: Set<int>,
    slots: Seq<Set<u64>>,
    count: nat,
)
    requires
        heap_consistent(bits, total, slabs, pages, slots),
        count > 0,
        first_run(bits, total, count) < total,
    ensures
        ({
            let s = first_run(bits, total, count) as int;
            let run = Set::new(|q: int| s <= q < s + count);
            &&& forall|q: int| s <= q < s + count ==> !pages.contains(q)
            &&& heap_consistent(
                after_run_allocation(bits, total, count),
                total,
                slabs,
                pages.union(run),
                slots,
            )
        }),
{
    lemma_first_run(bits, total, count);
    let s = first_run(bits, total, count) as int;
    let run = Set::new(|q: int| s <= q < s + count);
    let nb = after_run_allocation(bits, total, count);
    assert forall|q: int| s <= q < s + count implies !pages.contains(q) by {
        assert(bits[q]);
    }
    assert forall|q: int| #[trigger] pages.union(run).contains(q) implies 0 <= q < total && !nb[q] by {
    }
    assert forall|i: int| 0 <= i < NUM_SIZE_CLASSES implies slab_in_heap(
        nb,
        total,
        #[trigger] slabs[i],
        pages.union(run),
        slots[i],
        i as nat,
    ) by {
        assert(slab_in_heap(bits, total, slabs[i], pages, slots[i], i as nat));
        let pg = (slabs[i].page_spec() / 4096) as int;
        if s <= pg < s + count {
            assert(bits[pg]);
        }
    }
}

/// Law of the heap: returning a run of pages that were all handed out whole
/// keeps the heap in agreement, with the run no longer handed out.
pub proof fn lemma_heap_run_free(
    bits: Seq<bool>,
    total: nat,
    slabs: Seq<Slab>,
    pages: Set<int>,
    slots: Seq<Set<u64>>,
    start: int,
    count: nat,
)
    requires
        heap_consistent(bits, total, slabs, pages, slots),
        forall|q: int| start <= q < start + count ==> #[trigger] pages.contains(q),
    ensures
        heap_consistent(
            mark_pages(bits, start, count as int, true),
            total,
            slabs,
            pages.difference(Set::new(|q: int| start <= q < start + count)),
            slots,
        ),
{
    let run = Set::new(|q: int| start <= q < start + count);
    let nb = mark_pages(bits, start, count as int, true);
    let np = pages.difference(run);
    assert forall|q: int| #[trigger] np.contains(q) implies 0 <= q < total && !nb[q] by {}
    assert forall|i: int| 0 <= i < NUM_SIZE_CLASSES implies slab_in_heap(
        nb,
        total,
        #[trigger] slabs[i],
        np,
        slots[i],
        i as nat,
    ) by {
        assert(slab_in_heap(bits, total, slabs[i], pages, slots[i], i as nat));
        let pg = (slabs[i].page_spec() / 4096) as int;
        if start <= pg < start + count {
            assert(pages.contains(pg));
        }
    }
}

/// Law of the heap's sizing: a request takes at least its size and at least
/// its alignment (exactly the larger of the two), so the block it gets holds
/// it: a slab slot of a class at least that large, or whole pages covering
/// it.
pub proof fn lemma_request_holds(size: nat, align: nat)
    ensures
        request_bytes(size, align) >= size,
        request_bytes(size, align) >= align,
        request_bytes(size, align) == size || request_bytes(size, align) == align,
        request_bytes(size, align) <= 2048 ==> size_class(class_for(request_bytes(size, align)))
            >= size && size_class(class_for(request_bytes(size, align))) >= align,
        request_pages(size, align) * 4096 >= size,
        request_pages(size, align) * 4096 >= align,
{
    lemma_class_for(request_bytes(size, align));
    let rb = request_bytes(size, align);
    assert(((rb + 4095) / 4096) * 4096 >= rb) by (nonlinear_arith);
}

} // verus!
