use vstd::prelude::*;
use vstd::arithmetic::power2::{lemma2_to64, lemma_pow2_unfold, pow2};
use crate::memory::{
    FrameAllocator, after_allocations, count_free, nth_allocation, lemma_allocation_counts,
    first_free,
};

verus! {

/// Number of size classes of the slab allocator.
pub const NUM_SIZE_CLASSES: usize = 7;

/// Object size of size class `i`: 32 bytes doubled `i` times (32 to 2048).
pub open spec fn size_class(i: nat) -> nat
    decreases i,
{
    if i == 0 {
        32
    } else {
        2 * size_class((i - 1) as nat)
    }
}

/// The smallest size class from `k` up whose objects hold `size` bytes, or
/// `NUM_SIZE_CLASSES` when none does.
pub open spec fn class_for_from(size: nat, k: nat) -> nat
    decreases NUM_SIZE_CLASSES - k,
{
    if k >= NUM_SIZE_CLASSES {
        NUM_SIZE_CLASSES as nat
    } else if size <= size_class(k) {
        k
    } else {
        class_for_from(size, k + 1)
    }
}

/// The size class that serves a request of `size` bytes, or
/// `NUM_SIZE_CLASSES` when the request is larger than every class.
pub open spec fn class_for(size: nat) -> nat {
    class_for_from(size, 0)
}

proof fn lemma_size_class_values()
    ensures
        size_class(0) == 32,
        size_class(1) == 64,
        size_class(2) == 128,
        size_class(3) == 256,
        size_class(4) == 512,
        size_class(5) == 1024,
        size_class(6) == 2048,
{
    reveal_with_fuel(size_class, 7);
}

proof fn lemma_class_for_from(size: nat, k: nat)
    requires
        k <= NUM_SIZE_CLASSES,
    ensures
        k <= class_for_from(size, k) <= NUM_SIZE_CLASSES,
        class_for_from(size, k) < NUM_SIZE_CLASSES ==> size <= size_class(class_for_from(size, k)),
        forall|j: nat| k <= j < class_for_from(size, k) ==> size_class(j) < size,
    decreases NUM_SIZE_CLASSES - k,
{
    if k < NUM_SIZE_CLASSES && size > size_class(k) {
        lemma_class_for_from(size, k + 1);
    }
}

/// What `class_for` is: the smallest class whose objects hold the request;
/// requests above 2048 bytes have none.
pub proof fn lemma_class_for(size: nat)
    ensures
        class_for(size) <= NUM_SIZE_CLASSES,
        class_for(size) < NUM_SIZE_CLASSES <==> size <= 2048,
        class_for(size) < NUM_SIZE_CLASSES ==> size <= size_class(class_for(size)),
        forall|j: nat| j < class_for(size) ==> size_class(j) < size,
{
    lemma_class_for_from(size, 0);
    lemma_size_class_values();
    if size <= 2048 && class_for(size) == NUM_SIZE_CLASSES {
        assert(size_class(6) < size);
    }
}

/// Object size of size class `i`.
fn class_size(i: usize) -> (s: u64)
    requires
        i < NUM_SIZE_CLASSES,
    ensures
        s == size_class(i as nat),
{
    proof {
        lemma_size_class_values();
    }
    match i {
        0 => 32,
        1 => 64,
        2 => 128,
        3 => 256,
        4 => 512,
        5 => 1024,
        _ => 2048,
    }
}

/// The free list of a freshly carved page: the page cut into
/// `4096 / object_size` slots, held so that the slot at `page` is the head
/// (the last element) and the slots come out in ascending order. A page at
/// address 0 gives an empty list, as its first slot reads as the list's end.
pub open spec fn fresh_free_list(page: u64, object_size: u64) -> Seq<u64> {
    if page == 0 {
        Seq::empty()
    } else {
        let n = 4096int / (object_size as int);
        Seq::new(n as nat, |j: int| (page + (n - 1 - j) * object_size) as u64)
    }
}

/// No slot of a fresh free list is at address 0.
proof fn lemma_fresh_nonzero(page: u64, object_size: u64)
    requires
        0 < object_size <= 4096,
        page + (4096u64 / object_size - 1) * object_size <= u64::MAX,
    ensures
        forall|k: int|
            0 <= k < fresh_free_list(page, object_size).len() ==> #[trigger] fresh_free_list(
                page,
                object_size,
            )[k] != 0,
{
    if page != 0 {
        let n = 4096int / (object_size as int);
        let fl = fresh_free_list(page, object_size);
        assert forall|k: int| 0 <= k < fl.len() implies #[trigger] fl[k] != 0 by {
            assert(0 <= (n - 1 - k) * object_size <= (n - 1) * object_size) by (nonlinear_arith)
                requires
                    0 <= k < n,
                    object_size > 0,
            ;
        }
    }
}

/// One page divided into slots of one object size, with a free list of the
/// slots not handed out.
pub struct Slab {
    page: u64,
    object_size: u64,
    free_list: Vec<u64>,
}

impl View for Slab {
    type V = Seq<u64>;

    /// The free slots; the last element is the head, handed out next.
    closed spec fn view(&self) -> Seq<u64> {
        self.free_list@
    }
}

impl Slab {
    /// Address of the page the slab divides.
    pub closed spec fn page_spec(&self) -> u64 {
        self.page
    }

    /// Size of the slab's slots.
    pub closed spec fn object_size_spec(&self) -> u64 {
        self.object_size
    }

    /// Divides the page at `page` into slots of `object_size` bytes, all
    /// free, the one at `page` first.
    pub fn new(page: u64, object_size: u64) -> (r: Self)
        requires
            0 < object_size <= 4096,
            page + (4096u64 / object_size - 1) * object_size <= u64::MAX,
        ensures
            r.page_spec() == page,
            r.object_size_spec() == object_size,
            r@ == fresh_free_list(page, object_size),
    {
        let count = 4096 / object_size;
        let mut free_list: Vec<u64> = Vec::new();
        if page != 0 {
            assert(count >= 1) by (nonlinear_arith)
                requires
                    0 < object_size <= 4096,
                    count == 4096u64 / object_size,
            ;
            let mut i = count;
            while i > 0
                invariant
                    0 < object_size <= 4096,
                    count == 4096u64 / object_size,
                    count >= 1,
                    page != 0,
                    page + (count - 1) * object_size <= u64::MAX,
                    i <= count,
                    free_list@.len() == count - i,
                    forall|j: int|
                        0 <= j < count - i ==> #[trigger] free_list@[j] == (page + (count - 1 - j)
                            * object_size) as u64,
                decreases i,
            {
                i = i - 1;
                assert(i * object_size <= (count - 1) * object_size) by (nonlinear_arith)
                    requires
                        i <= count - 1,
                ;
                assert(i * object_size <= 4096) by (nonlinear_arith)
                    requires
                        i < count,
                        count == 4096u64 / object_size,
                        object_size > 0,
                ;
                free_list.push(page + i * object_size);
            }
        }
        let r = Slab { page, object_size, free_list };
        assert(r@ =~= fresh_free_list(page, object_size));
        r
    }

    /// Hands out the slot at the head of the free list; `None` when no slot
    /// is free.
    pub fn allocate(&mut self) -> (r: Option<u64>)
        ensures
            final(self).page_spec() == old(self).page_spec(),
            final(self).object_size_spec() == old(self).object_size_spec(),
            old(self)@.len() == 0 ==> r is None && *final(self) == *old(self),
            old(self)@.len() > 0 ==> r == Some(old(self)@.last()) && final(self)@ == old(self)@.drop_last(),
    {
        if self.free_list.len() == 0 {
            return None;
        }
        self.free_list.pop()
    }

    /// Returns the slot at `obj` to the free list, as its new head.
    pub fn free(&mut self, obj: u64)
        requires
            obj != 0,
        ensures
            final(self).page_spec() == old(self).page_spec(),
            final(self).object_size_spec() == old(self).object_size_spec(),
            final(self)@ == old(self)@.push(obj),
    {
        self.free_list.push(obj);
    }
}

/// A slab per size class, serving requests up to 2048 bytes.
pub struct SlabAllocator {
    slabs: Vec<Slab>,
}

impl SlabAllocator {
    /// The slabs, one per size class, the smallest class first.
    pub closed spec fn slabs_spec(&self) -> Seq<Slab> {
        self.slabs@
    }

    /// One slab per size class, each of its class's object size, and no
    /// free list holds address 0.
    pub open spec fn wf(&self) -> bool {
        &&& self.slabs_spec().len() == NUM_SIZE_CLASSES
        &&& forall|i: int|
            0 <= i < NUM_SIZE_CLASSES ==> #[trigger] self.slabs_spec()[i].object_size_spec()
                == size_class(i as nat)
        &&& forall|i: int, k: int|
            0 <= i < NUM_SIZE_CLASSES && 0 <= k < self.slabs_spec()[i]@.len() ==> #[trigger] self.slabs_spec()[i]@[k]
                != 0
    }

    /// Takes one page per size class from `allocator`, in class order, and
    /// divides each into slots of its class's size.
    pub fn init(allocator: &mut FrameAllocator) -> (r: SlabAllocator)
        requires
            old(allocator).wf(),
            count_free(old(allocator)@, old(allocator).total_pages_spec()) >= NUM_SIZE_CLASSES,
        ensures
            final(allocator).wf(),
            final(allocator).total_pages_spec() == old(allocator).total_pages_spec(),
            final(allocator).max_address_spec() == old(allocator).max_address_spec(),
            final(allocator)@ == after_allocations(
                old(allocator)@,
                old(allocator).total_pages_spec(),
                NUM_SIZE_CLASSES as nat,
            ),
            r.wf(),
            forall|i: int|
                0 <= i < NUM_SIZE_CLASSES ==> {
                    let page = nth_allocation(
                        old(allocator)@,
                        old(allocator).total_pages_spec(),
                        i as nat,
                    ) * 4096;
                    &&& (#[trigger] r.slabs_spec()[i]).page_spec() == page
                    &&& r.slabs_spec()[i]@ == fresh_free_list(
                        page as u64,
                        size_class(i as nat) as u64,
                    )
                },
    {
        let ghost bits = allocator@;
        let ghost total = allocator.total_pages_spec();
        let mut slabs: Vec<Slab> = Vec::new();
        let mut i: usize = 0;
        while i < NUM_SIZE_CLASSES
            invariant
                i <= NUM_SIZE_CLASSES,
                allocator.wf(),
                allocator.total_pages_spec() == total,
                allocator.max_address_spec() == old(allocator).max_address_spec(),
                old(allocator)@ == bits,
                old(allocator).total_pages_spec() == total,
                allocator@ == after_allocations(bits, total, i as nat),
                count_free(allocator@, total) + i >= NUM_SIZE_CLASSES,
                slabs@.len() == i,
                forall|j: int|
                    0 <= j < i ==> {
                        let page = nth_allocation(bits, total, j as nat) * 4096;
                        &&& (#[trigger] slabs@[j]).page_spec() == page
                        &&& slabs@[j].object_size_spec() == size_class(j as nat)
                        &&& slabs@[j]@ == fresh_free_list(page as u64, size_class(j as nat) as u64)
                    },
                forall|j: int, k: int|
                    0 <= j < i && 0 <= k < slabs@[j]@.len() ==> #[trigger] slabs@[j]@[k] != 0,
            decreases NUM_SIZE_CLASSES - i,
        {
            proof {
                allocator.lemma_wf();
                lemma_allocation_counts(allocator@, total);
            }
            let page = match allocator.allocate_page() {
                Some(p) => p,
                None => { return SlabAllocator { slabs } },
            };
            let size = class_size(i);
            proof {
                lemma_size_class_values();
                assert((4096u64 / size) * size <= 4096) by (nonlinear_arith)
                    requires
                        size > 0,
                ;
                allocator.lemma_wf();
                let f = first_free(after_allocations(bits, total, i as nat), total);
                assert(page == f * 4096);
                assert(f < total);
                assert(page + 4096 <= total * 4096) by (nonlinear_arith)
                    requires
                        page == f * 4096,
                        f < total,
                ;
                assert((4096u64 / size - 1) * size == (4096u64 / size) * size - size)
                    by (nonlinear_arith);
            }
            proof {
                lemma_fresh_nonzero(page, size);
            }
            let slab = Slab::new(page, size);
            slabs.push(slab);
            i = i + 1;
        }
        SlabAllocator { slabs }
    }

    /// Serves a request of `size` bytes from the slab of the smallest class
    /// that holds it; `None` when the request exceeds 2048 bytes or that slab
    /// has no free slot.
    pub fn allocate(&mut self, size: u64) -> (r: Option<u64>)
        requires
            old(self).wf(),
        ensures
            final(self).wf(),
            class_for(size as nat) == NUM_SIZE_CLASSES ==> r is None && final(self).slabs_spec()
                == old(self).slabs_spec(),
            class_for(size as nat) < NUM_SIZE_CLASSES ==> {
                let c = class_for(size as nat) as int;
                let slab = old(self).slabs_spec()[c];
                &&& slab@.len() == 0 ==> r is None && final(self).slabs_spec() == old(self).slabs_spec()
                &&& slab@.len() > 0 ==> r == Some(slab@.last()) && final(self).slabs_spec()[c]@
                    == slab@.drop_last()
                &&& final(self).slabs_spec()[c].page_spec() == slab.page_spec()
                &&& final(self).slabs_spec()[c].object_size_spec() == slab.object_size_spec()
                &&& forall|j: int|
                    0 <= j < NUM_SIZE_CLASSES && j != c ==> #[trigger] final(self).slabs_spec()[j]
                        == old(self).slabs_spec()[j]
            },
    {
        let mut i: usize = 0;
        proof {
            lemma_class_for_from(size as nat, 0);
        }
        while i < NUM_SIZE_CLASSES
            invariant
                i <= NUM_SIZE_CLASSES,
                self.slabs@ == old(self).slabs@,
                old(self).wf(),
                class_for(size as nat) == class_for_from(size as nat, i as nat),
            decreases NUM_SIZE_CLASSES - i,
        {
            if size <= class_size(i) {
                let ghost before = self.slabs@;
                let r = self.slabs[i].allocate();
                proof {
                    if before[i as int]@.len() == 0 {
                        assert(self.slabs@ =~= before);
                    }
                    assert forall|j: int|
                        0 <= j < NUM_SIZE_CLASSES && j != i implies #[trigger] self.slabs@[j]
                        == before[j] by {}
                    assert forall|j: int|
                        0 <= j < NUM_SIZE_CLASSES implies #[trigger] self.slabs_spec()[j].object_size_spec()
                        == size_class(j as nat) by {
                        if j != i {
                            assert(self.slabs@[j] == before[j]);
                        }
                    }
                }
                return r;
            }
            i = i + 1;
        }
        None
    }

    /// Returns the slot at `ptr`, of a request of `size` bytes, to the slab
    /// of the smallest class that holds `size`; ignored when `size` exceeds
    /// 2048 bytes.
    pub fn free(&mut self, ptr: u64, size: u64)
        requires
            old(self).wf(),
            class_for(size as nat) < NUM_SIZE_CLASSES ==> ptr != 0,
        ensures
            final(self).wf(),
            class_for(size as nat) == NUM_SIZE_CLASSES ==> final(self).slabs_spec() == old(self).slabs_spec(),
            class_for(size as nat) < NUM_SIZE_CLASSES ==> {
                let c = class_for(size as nat) as int;
                let slab = old(self).slabs_spec()[c];
                &&& final(self).slabs_spec()[c]@ == slab@.push(ptr)
                &&& final(self).slabs_spec()[c].page_spec() == slab.page_spec()
                &&& final(self).slabs_spec()[c].object_size_spec() == slab.object_size_spec()
                &&& forall|j: int|
                    0 <= j < NUM_SIZE_CLASSES && j != c ==> #[trigger] final(self).slabs_spec()[j]
                        == old(self).slabs_spec()[j]
            },
    {
        let mut i: usize = 0;
        proof {
            lemma_class_for_from(size as nat, 0);
        }
        while i < NUM_SIZE_CLASSES
            invariant
                i <= NUM_SIZE_CLASSES,
                self.slabs@ == old(self).slabs@,
                old(self).wf(),
                class_for(size as nat) < NUM_SIZE_CLASSES ==> ptr != 0,
                class_for(size as nat) == class_for_from(size as nat, i as nat),
            decreases NUM_SIZE_CLASSES - i,
        {
            if size <= class_size(i) {
                let ghost before = self.slabs@;
                self.slabs[i].free(ptr);
                proof {
                    assert forall|j: int|
                        0 <= j < NUM_SIZE_CLASSES && j != i implies #[trigger] self.slabs@[j]
                        == before[j] by {}
                    assert forall|j: int|
                        0 <= j < NUM_SIZE_CLASSES implies #[trigger] self.slabs_spec()[j].object_size_spec()
                        == size_class(j as nat) by {
                        if j != i {
                            assert(self.slabs@[j] == before[j]);
                        }
                    }
                }
                return ;
            }
            i = i + 1;
        }
    }
}

} // verus!

verus! {

/// Law of `Slab::new`: the slots of a fresh slab tile its page. There are
/// `4096 / object_size` of them, the head is the page's start, each lies
/// inside the page, and no two overlap.
pub proof fn lemma_fresh_slots_tile_page(page: u64, object_size: u64)
    requires
        page != 0,
        0 < object_size <= 4096,
        page + 4096 <= u64::MAX + 1,
    ensures
        fresh_free_list(page, object_size).len() == 4096int / (object_size as int),
        fresh_free_list(page, object_size).last() == page,
        forall|j: int|
            0 <= j < fresh_free_list(page, object_size).len() ==> page <= #[trigger] fresh_free_list(
                page,
                object_size,
            )[j] && fresh_free_list(page, object_size)[j] + object_size <= page + 4096,
        forall|j1: int, j2: int|
            0 <= j1 < fresh_free_list(page, object_size).len() && 0 <= j2 < fresh_free_list(
                page,
                object_size,
            ).len() && j1 != j2 ==> #[trigger] fresh_free_list(page, object_size)[j1] + object_size
                <= #[trigger] fresh_free_list(page, object_size)[j2] || fresh_free_list(
                page,
                object_size,
            )[j2] + object_size <= fresh_free_list(page, object_size)[j1],
{
    let n = 4096int / (object_size as int);
    let l = fresh_free_list(page, object_size);
    assert(n >= 1 && n * object_size <= 4096) by (nonlinear_arith)
        requires
            0 < object_size <= 4096,
            n == 4096int / (object_size as int),
    ;
    assert forall|j: int| 0 <= j < n implies page <= #[trigger] l[j] && l[j] + object_size <= page
        + 4096 by {
        assert(0 <= (n - 1 - j) * object_size && (n - 1 - j) * object_size + object_size <= n
            * object_size) by (nonlinear_arith)
            requires
                0 <= j < n,
                object_size > 0,
        ;
    }
    assert forall|j1: int, j2: int|
        0 <= j1 < n && 0 <= j2 < n && j1 != j2 implies #[trigger] l[j1] + object_size
        <= #[trigger] l[j2] || l[j2] + object_size <= l[j1] by {
        assert(0 <= (n - 1 - j1) * object_size && (n - 1 - j1) * object_size + object_size <= n
            * object_size) by (nonlinear_arith)
            requires
                0 <= j1 < n,
                object_size > 0,
        ;
        assert(0 <= (n - 1 - j2) * object_size && (n - 1 - j2) * object_size + object_size <= n
            * object_size) by (nonlinear_arith)
            requires
                0 <= j2 < n,
                object_size > 0,
        ;
        assert((n - 1 - j1) * object_size + object_size <= (n - 1 - j2) * object_size || (n - 1
            - j2) * object_size + object_size <= (n - 1 - j1) * object_size) by (nonlinear_arith)
            requires
                j1 != j2,
                object_size > 0,
        ;
    }
}

/// Law: freeing the slot an allocation handed out undoes it; the free list
/// is as before.
pub proof fn lemma_slab_free_undoes_allocate(free_list: Seq<u64>)
    requires
        free_list.len() > 0,
    ensures
        free_list.drop_last().push(free_list.last()) == free_list,
{
    assert(free_list.drop_last().push(free_list.last()) =~= free_list);
}

/// Law: a slab hands slots out last-freed first; after freeing `obj`, the
/// next allocation returns `obj` and leaves the free list as before the free.
pub proof fn lemma_slab_allocate_after_free(free_list: Seq<u64>, obj: u64)
    ensures
        free_list.push(obj).last() == obj,
        free_list.push(obj).drop_last() == free_list,
{
    assert(free_list.push(obj).drop_last() =~= free_list);
}

/// `a` starts one of the slots into which the slab at `page` divides its
/// page, slots of `object_size` bytes.
pub open spec fn is_slot(page: u64, object_size: u64, a: u64) -> bool {
    &&& page <= a
    &&& a + object_size <= page + 4096
    &&& (a - page) % (object_size as int) == 0
}

/// A slab's free list and the slots handed out (`live`) agree: the free
/// list holds distinct slots of the page, every address handed out is a
/// slot, and no slot is both free and handed out.
pub open spec fn slab_consistent(page: u64, object_size: u64, free_list: Seq<u64>, live: Set<u64>) -> bool {
    &&& page != 0
    &&& free_list.no_duplicates()
    &&& forall|i: int| 0 <= i < free_list.len() ==> is_slot(page, object_size, #[trigger] free_list[i])
    &&& forall|a: u64| #[trigger] live.contains(a) ==> is_slot(page, object_size, a)
    &&& forall|i: int| 0 <= i < free_list.len() ==> !live.contains(#[trigger] free_list[i])
}

/// Law of `Slab::new`: a fresh slab agrees with nothing handed out.
pub proof fn lemma_fresh_slab_consistent(page: u64, object_size: u64)
    requires
        page != 0,
        0 < object_size <= 4096,
        page + 4096 <= u64::MAX + 1,
    ensures
        slab_consistent(page, object_size, fresh_free_list(page, object_size), Set::empty()),
{
    lemma_fresh_slots_tile_page(page, object_size);
    let n = 4096int / (object_size as int);
    let l = fresh_free_list(page, object_size);
    assert(n * object_size <= 4096) by (nonlinear_arith)
        requires
            0 < object_size <= 4096,
            n == 4096int / (object_size as int),
    ;
    assert forall|i: int| 0 <= i < l.len() implies is_slot(page, object_size, #[trigger] l[i]) by {
        let d = (n - 1 - i) * object_size;
        assert(0 <= d && d + object_size <= n * object_size) by (nonlinear_arith)
            requires
                0 <= i < n,
                object_size > 0,
                d == (n - 1 - i) * object_size,
        ;
        assert(l[i] == page + d);
        assert(d % (object_size as int) == 0) by (nonlinear_arith)
            requires
                object_size > 0,
                d == (n - 1 - i) * object_size,
        ;
    }
    assert forall|i: int, j: int| 0 <= i < l.len() && 0 <= j < l.len() && i != j implies l[i]
        != l[j] by {
        assert(l[i] + object_size <= l[j] || l[j] + object_size <= l[i]);
    }
}

/// Law of `Slab::allocate` over any sequence of calls: the slot handed out
/// is a slot of the page, not address 0, and not already handed out; the
/// slab still agrees afterwards, with that slot handed out.
pub proof fn lemma_slab_allocate_consistent(
    page: u64,
    object_size: u64,
    free_list: Seq<u64>,
    live: Set<u64>,
)
    requires
        slab_consistent(page, object_size, free_list, live),
        free_list.len() > 0,
    ensures
        is_slot(page, object_size, free_list.last()),
        free_list.last() != 0,
        !live.contains(free_list.last()),
        slab_consistent(page, object_size, free_list.drop_last(), live.insert(free_list.last())),
{
    let a = free_list.last();
    let top = free_list.len() - 1;
    assert(free_list[top] == a);
    let rest = free_list.drop_last();
    assert forall|i: int| 0 <= i < rest.len() implies !live.insert(a).contains(
        #[trigger] rest[i],
    ) by {
        assert(rest[i] == free_list[i]);
        assert(free_list[i] != free_list[top]);
    }
}

/// Law of `Slab::free` over any sequence of calls: returning a slot that
/// was handed out keeps the slab in agreement, with that slot free again.
pub proof fn lemma_slab_free_consistent(
    page: u64,
    object_size: u64,
    free_list: Seq<u64>,
    live: Set<u64>,
    a: u64,
)
    requires
        slab_consistent(page, object_size, free_list, live),
        live.contains(a),
    ensures
        a != 0,
        slab_consistent(page, object_size, free_list.push(a), live.remove(a)),
{
    let l = free_list.push(a);
    assert forall|i: int, j: int| 0 <= i < l.len() && 0 <= j < l.len() && i != j implies l[i]
        != l[j] by {
        if i < free_list.len() && j < free_list.len() {
            assert(free_list[i] != free_list[j]);
        } else if i < free_list.len() {
            assert(!live.contains(free_list[i]));
        } else {
            assert(!live.contains(free_list[j]));
        }
    }
    assert forall|i: int| 0 <= i < l.len() implies is_slot(page, object_size, #[trigger] l[i]) by {
        if i < free_list.len() {
            assert(l[i] == free_list[i]);
        }
    }
    assert forall|i: int| 0 <= i < l.len() implies !live.remove(a).contains(#[trigger] l[i]) by {
        if i < free_list.len() {
            assert(l[i] == free_list[i]);
        }
    }
}

/// The free list after `k` allocations, each taking the head (the last
/// element).
pub open spec fn after_slot_allocations(free_list: Seq<u64>, k: nat) -> Seq<u64>
    decreases k,
{
    if k == 0 {
        free_list
    } else {
        after_slot_allocations(free_list, (k - 1) as nat).drop_last()
    }
}

proof fn lemma_after_slot_allocations(free_list: Seq<u64>, k: nat)
    requires
        k <= free_list.len(),
    ensures
        after_slot_allocations(free_list, k) == free_list.subrange(0, free_list.len() - k),
    decreases k,
{
    if k > 0 {
        lemma_after_slot_allocations(free_list, (k - 1) as nat);
        assert(free_list.subrange(0, free_list.len() - (k - 1)).drop_last() =~= free_list.subrange(
            0,
            free_list.len() - k,
        ));
    }
}

/// Law of a fresh slab: its first `4096 / object_size` allocations hand out
/// `page`, `page + object_size`, `page + 2 * object_size`, ... in ascending
/// order, and the one after them finds the free list empty.
pub proof fn lemma_fresh_slab_hands_out_in_order(page: u64, object_size: u64)
    requires
        page != 0,
        0 < object_size <= 4096,
        page + 4096 <= u64::MAX + 1,
    ensures
        forall|k: nat|
            k < 4096int / (object_size as int) ==> {
                let l = #[trigger] after_slot_allocations(fresh_free_list(page, object_size), k);
                &&& l.len() > 0
                &&& l.last() == page + k * object_size
            },
        after_slot_allocations(
            fresh_free_list(page, object_size),
            (4096int / (object_size as int)) as nat,
        ).len() == 0,
{
    lemma_fresh_slots_tile_page(page, object_size);
    let n = 4096int / (object_size as int);
    let l = fresh_free_list(page, object_size);
    assert(n * object_size <= 4096) by (nonlinear_arith)
        requires
            0 < object_size <= 4096,
            n == 4096int / (object_size as int),
    ;
    assert forall|k: nat| k < n implies {
        let a = #[trigger] after_slot_allocations(l, k);
        &&& a.len() > 0
        &&& a.last() == page + k * object_size
    } by {
        lemma_after_slot_allocations(l, k);
        let j = n - k - 1;
        assert(0 <= j < n);
        assert(l[j] == (page + (n - 1 - j) * object_size) as u64);
        assert(n - 1 - j == k);
        assert((n - 1 - j) * object_size == k * object_size);
        assert(k * object_size + object_size <= 4096) by (nonlinear_arith)
            requires
                k < n,
                n * object_size <= 4096,
                object_size > 0,
        ;
        assert(l[j] == page + k * object_size);
    }
    lemma_after_slot_allocations(l, n as nat);
}

/// Law of slab alignment: a slot of a slab whose page starts on a page
/// boundary, with a slot size dividing the page size, is aligned to every
/// `align` that divides the slot size (so a slot of the class a heap request
/// of size and alignment at most the class size is served from meets the
/// request's alignment).
pub proof fn lemma_slot_aligned(page: u64, object_size: u64, a: u64, align: int)
    requires
        is_slot(page, object_size, a),
        page % 4096 == 0,
        0 < object_size,
        4096int % (object_size as int) == 0,
        align > 0,
        (object_size as int) % align == 0,
    ensures
        (a as int) % align == 0,
{
    let os = object_size as int;
    let m = (a - page) / os;
    let p = page as int / 4096;
    let q = 4096int / os;
    let r = os / align;
    vstd::arithmetic::div_mod::lemma_fundamental_div_mod(a - page, os);
    vstd::arithmetic::div_mod::lemma_fundamental_div_mod(page as int, 4096);
    vstd::arithmetic::div_mod::lemma_fundamental_div_mod(4096int, os);
    vstd::arithmetic::div_mod::lemma_fundamental_div_mod(os, align);
    assert(a == ((p * q + m) * r) * align) by (nonlinear_arith)
        requires
            a - page == os * m,
            page == 4096 * p,
            4096 == os * q,
            os == align * r,
    ;
    vstd::arithmetic::div_mod::lemma_mod_multiples_basic((p * q + m) * r, align);
}

/// Every size class is a power of two, 2^(i + 5), and divides the page size.
pub proof fn lemma_size_class_pow2(i: nat)
    ensures
        size_class(i) == pow2(i + 5),
        i < NUM_SIZE_CLASSES ==> size_class(i) <= 2048,
        i < NUM_SIZE_CLASSES ==> 4096int % (size_class(i) as int) == 0,
    decreases i,
{
    lemma2_to64();
    if i > 0 {
        lemma_size_class_pow2((i - 1) as nat);
        lemma_pow2_unfold(i + 5);
    }
    lemma_size_class_values();
    if i < NUM_SIZE_CLASSES {
        assert(i == 0 || i == 1 || i == 2 || i == 3 || i == 4 || i == 5 || i == 6);
    }
}

} // verus!
