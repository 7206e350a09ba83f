use vstd::prelude::*;

verus! {

/// The largest block order: a block of order `MAX_ORDER` spans 2^11 pages
/// (2048 pages, 8 MiB).
pub const MAX_ORDER: usize = 11;

/// Number of free lists the buddy allocator keeps: order `k` holds blocks of
/// `4096 << k` bytes, for `k` from 0 to `MAX_ORDER`.
pub const ORDER_COUNT: usize = 12;

/// Size in bytes of a block of the given order: one 4 KiB page doubled `order` times.
pub open spec fn block_size(order: nat) -> nat
    decreases order,
{
    if order == 0 {
        4096
    } else {
        2 * block_size((order - 1) as nat)
    }
}

/// Size of the largest block the allocator manages (order `MAX_ORDER`).
pub open spec fn max_block_size() -> nat {
    block_size(MAX_ORDER as nat)
}

/// Every block is at least a page.
pub proof fn lemma_block_size_pos(order: nat)
    ensures
        block_size(order) >= 4096,
    decreases order,
{
    if order > 0 {
        lemma_block_size_pos((order - 1) as nat);
    }
}

/// Block sizes grow with the order; a higher order's block holds two blocks
/// of any lower order.
pub proof fn lemma_block_size_monotone(i: nat, j: nat)
    requires
        i <= j,
    ensures
        block_size(i) <= block_size(j),
        i < j ==> block_size(i) + block_size(i) <= block_size(j),
    decreases j,
{
    if i < j {
        lemma_block_size_monotone(i, (j - 1) as nat);
        lemma_block_size_pos((j - 1) as nat);
    }
}

proof fn lemma_block_size_values()
    ensures
        block_size(0) == 4096,
        block_size(1) == 8192,
        block_size(2) == 16384,
        block_size(3) == 32768,
        block_size(4) == 65536,
        block_size(5) == 131072,
        block_size(6) == 262144,
        block_size(7) == 524288,
        block_size(8) == 1048576,
        block_size(9) == 2097152,
        block_size(10) == 4194304,
        block_size(11) == 8388608,
        max_block_size() == 8388608,
{
    reveal_with_fuel(block_size, 12);
}

/// `4096 << order` computes the block size of `order`.
proof fn lemma_shift_is_block_size(order: usize)
    requires
        order < ORDER_COUNT,
    ensures
        4096u64 << order == block_size(order as nat),
{
    lemma_block_size_values();
    assert(order < 12 ==> {
        &&& (order == 0 ==> 4096u64 << order == 4096u64)
        &&& (order == 1 ==> 4096u64 << order == 8192u64)
        &&& (order == 2 ==> 4096u64 << order == 16384u64)
        &&& (order == 3 ==> 4096u64 << order == 32768u64)
        &&& (order == 4 ==> 4096u64 << order == 65536u64)
        &&& (order == 5 ==> 4096u64 << order == 131072u64)
        &&& (order == 6 ==> 4096u64 << order == 262144u64)
        &&& (order == 7 ==> 4096u64 << order == 524288u64)
        &&& (order == 8 ==> 4096u64 << order == 1048576u64)
        &&& (order == 9 ==> 4096u64 << order == 2097152u64)
        &&& (order == 10 ==> 4096u64 << order == 4194304u64)
        &&& (order == 11 ==> 4096u64 << order == 8388608u64)
    }) by (bit_vector);
}

/// The smallest order from `k` up whose block holds `size` bytes; the largest
/// order when none does.
pub open spec fn fitting_order_from(size: nat, k: nat) -> nat
    decreases ORDER_COUNT - k,
{
    if k >= MAX_ORDER || block_size(k) >= size {
        k
    } else {
        fitting_order_from(size, k + 1)
    }
}

/// The order `size_to_order` picks for a request of `size` bytes.
pub open spec fn fitting_order(size: nat) -> nat {
    fitting_order_from(size, 0)
}

proof fn lemma_fitting_order_from(size: nat, k: nat)
    requires
        k <= MAX_ORDER,
    ensures
        k <= fitting_order_from(size, k) <= MAX_ORDER,
        fitting_order_from(size, k) == MAX_ORDER || block_size(fitting_order_from(size, k)) >= size,
        forall|j: nat| k <= j < fitting_order_from(size, k) ==> block_size(j) < size,
    decreases ORDER_COUNT - k,
{
    if !(k >= MAX_ORDER || block_size(k) >= size) {
        lemma_fitting_order_from(size, k + 1);
    }
}

/// What `fitting_order` is: the smallest order whose block holds `size`
/// bytes, or the largest order when the request exceeds every block.
pub proof fn lemma_fitting_order(size: nat)
    ensures
        fitting_order(size) < ORDER_COUNT,
        size <= max_block_size() ==> block_size(fitting_order(size)) >= size,
        size > max_block_size() ==> fitting_order(size) == MAX_ORDER,
        forall|j: nat| j < fitting_order(size) ==> block_size(j) < size,
{
    lemma_fitting_order_from(size, 0);
    lemma_block_size_monotone(fitting_order(size), MAX_ORDER as nat);
}

/// Returns the order of the smallest block that holds `size` bytes, or the
/// largest order when `size` exceeds the largest block.
pub fn size_to_order(size: u64) -> (order: usize)
    ensures
        order == fitting_order(size as nat),
        order < ORDER_COUNT,
{
    let mut order: usize = 0;
    let mut s: u64 = 4096;
    proof {
        lemma_block_size_values();
    }
    while s < size && order < MAX_ORDER
        invariant
            order <= MAX_ORDER,
            s as nat == block_size(order as nat),
            fitting_order_from(size as nat, order as nat) == fitting_order(size as nat),
        decreases ORDER_COUNT - order,
    {
        proof {
            lemma_block_size_values();
            assert(s <= 4194304) by {
                lemma_block_size_monotone(order as nat, 10);
            }
        }
        s = s * 2;
        order = order + 1;
    }
    order
}

/// Index of the first non-empty free list from order `k` up, or `ORDER_COUNT`
/// when all of them are empty.
pub open spec fn first_nonempty(lists: Seq<Seq<u64>>, k: nat) -> nat
    decreases ORDER_COUNT - k,
{
    if k >= ORDER_COUNT {
        ORDER_COUNT as nat
    } else if lists[k as int].len() > 0 {
        k
    } else {
        first_nonempty(lists, k + 1)
    }
}

/// Law of `allocate`: it takes from the lowest non-empty list at or above
/// the order it needs; every list between is empty, and `None` comes only
/// when all lists from that order up are empty.
pub proof fn lemma_first_nonempty(lists: Seq<Seq<u64>>, k: nat)
    requires
        k <= ORDER_COUNT,
    ensures
        k <= first_nonempty(lists, k) <= ORDER_COUNT,
        first_nonempty(lists, k) < ORDER_COUNT ==> lists[first_nonempty(lists, k) as int].len() > 0,
        forall|j: nat| k <= j < first_nonempty(lists, k) ==> lists[j as int].len() == 0,
    decreases ORDER_COUNT - k,
{
    if k < ORDER_COUNT && lists[k as int].len() == 0 {
        lemma_first_nonempty(lists, k + 1);
    }
}

/// The free lists after the block on top of list `from` is taken and split
/// down to order `target`: the upper halves of orders `target .. from` are
/// pushed, one on each of those lists.
pub open spec fn split_lists(lists: Seq<Seq<u64>>, target: nat, from: nat) -> Seq<Seq<u64>> {
    let block = lists[from as int].last();
    Seq::new(
        lists.len(),
        |j: int|
            if j == from {
                lists[j].drop_last()
            } else if target <= j < from {
                lists[j].push((block + block_size(j as nat)) as u64)
            } else {
                lists[j]
            },
    )
}

/// The largest order at most `k` whose block fits in `remaining` bytes and to
/// whose size `addr` is aligned; order 0 when no larger order qualifies.
pub open spec fn largest_aligned_order(addr: nat, remaining: nat, k: nat) -> nat
    decreases k,
{
    if k == 0 {
        0
    } else if block_size(k) <= remaining && addr % block_size(k) == 0 {
        k
    } else {
        largest_aligned_order(addr, remaining, (k - 1) as nat)
    }
}

/// Order of the block `init` cuts at `addr` when `remaining` bytes of the
/// region are left: a largest block while one fits, otherwise the largest
/// block that both fits and is aligned at `addr` (a single page when none is).
pub open spec fn carve_order(addr: nat, remaining: nat) -> nat {
    if remaining >= max_block_size() {
        MAX_ORDER as nat
    } else {
        largest_aligned_order(addr, remaining, MAX_ORDER as nat)
    }
}

/// Distance from `addr` up to `end`, zero once `addr` has reached it.
pub open spec fn distance(addr: nat, end: nat) -> nat {
    if addr < end {
        (end - addr) as nat
    } else {
        0
    }
}

/// The free lists after the range from `addr` to `end` is cut into blocks:
/// from `addr` on, a block of `carve_order` is pushed onto its list and the
/// cut moves past it, until it reaches or passes `end`.
pub open spec fn carve(lists: Seq<Seq<u64>>, addr: nat, end: nat) -> Seq<Seq<u64>>
    decreases distance(addr, end),
{
    if addr < end {
        let order = carve_order(addr, (end - addr) as nat);
        proof {
            lemma_block_size_pos(order);
        }
        carve(
            lists.update(order as int, lists[order as int].push(addr as u64)),
            addr + block_size(order),
            end,
        )
    } else {
        lists
    }
}

proof fn lemma_largest_aligned_order(addr: nat, remaining: nat, k: nat)
    ensures
        largest_aligned_order(addr, remaining, k) <= k,
        largest_aligned_order(addr, remaining, k) == 0 || (block_size(
            largest_aligned_order(addr, remaining, k),
        ) <= remaining && addr % block_size(largest_aligned_order(addr, remaining, k)) == 0),
    decreases k,
{
    if k > 0 && !(block_size(k) <= remaining && addr % block_size(k) == 0) {
        lemma_largest_aligned_order(addr, remaining, (k - 1) as nat);
    }
}

proof fn lemma_largest_aligned_order_maximal(addr: nat, remaining: nat, k: nat)
    ensures
        forall|j: nat|
            largest_aligned_order(addr, remaining, k) < j <= k ==> !(block_size(j) <= remaining
                && addr % block_size(j) == 0),
    decreases k,
{
    if k > 0 && !(block_size(k) <= remaining && addr % block_size(k) == 0) {
        lemma_largest_aligned_order_maximal(addr, remaining, (k - 1) as nat);
    }
}

/// Law of `init`: each block it cuts is as large as it can be. A block of
/// order `k` cut at `addr` with `remaining` bytes left fits and is aligned
/// (or is a single page), and no larger order up to the largest both fits
/// in `remaining` bytes and has `addr` aligned to its size.
pub proof fn lemma_carve_order_maximal(addr: nat, remaining: nat)
    requires
        remaining > 0,
    ensures
        block_size(carve_order(addr, remaining)) <= remaining || carve_order(addr, remaining)
            == 0,
        carve_order(addr, remaining) == MAX_ORDER || carve_order(addr, remaining) == 0 || addr
            % block_size(carve_order(addr, remaining)) == 0,
        forall|j: nat|
            carve_order(addr, remaining) < j <= MAX_ORDER ==> !(block_size(j) <= remaining && addr
                % block_size(j) == 0),
{
    lemma_carve_order(addr, remaining);
    lemma_largest_aligned_order_maximal(addr, remaining, MAX_ORDER as nat);
}

/// What `carve_order` picks: an order whose block ends no later than a page
/// past the region's end, and which is a largest block while one fits.
pub proof fn lemma_carve_order(addr: nat, remaining: nat)
    requires
        remaining > 0,
    ensures
        carve_order(addr, remaining) < ORDER_COUNT,
        block_size(carve_order(addr, remaining)) <= remaining || carve_order(addr, remaining)
            == 0,
        remaining < max_block_size() && carve_order(addr, remaining) > 0 ==> addr % block_size(
            carve_order(addr, remaining),
        ) == 0,
{
    lemma_largest_aligned_order(addr, remaining, MAX_ORDER as nat);
}

/// The low bits of an address below each block size are its offset in a
/// block of that size.
proof fn lemma_masks_are_mod(addr: u64)
    by (bit_vector)
    ensures
        addr & 4095u64 == addr % 4096u64,
        addr & 8191u64 == addr % 8192u64,
        addr & 16383u64 == addr % 16384u64,
        addr & 32767u64 == addr % 32768u64,
        addr & 65535u64 == addr % 65536u64,
        addr & 131071u64 == addr % 131072u64,
        addr & 262143u64 == addr % 262144u64,
        addr & 524287u64 == addr % 524288u64,
        addr & 1048575u64 == addr % 1048576u64,
        addr & 2097151u64 == addr % 2097152u64,
        addr & 4194303u64 == addr % 4194304u64,
        addr & 8388607u64 == addr % 8388608u64,
{
}

proof fn lemma_mask_is_mod(addr: u64, order: usize)
    requires
        order < ORDER_COUNT,
    ensures
        4096u64 << order == block_size(order as nat),
        addr & (((4096u64 << order) - 1) as u64) == addr % (4096u64 << order),
{
    lemma_shift_is_block_size(order);
    lemma_block_size_values();
    lemma_masks_are_mod(addr);
}

/// Every free block lies inside the 64-bit address space.
pub open spec fn blocks_fit(lists: Seq<Seq<u64>>) -> bool {
    forall|k: int, i: int|
        0 <= k < lists.len() && 0 <= i < lists[k].len() ==> #[trigger] lists[k][i] + block_size(
            k as nat,
        ) <= u64::MAX + 1
}

/// Pushing a block that fits in the address space onto a list keeps every
/// free block fitting.
proof fn lemma_push_keeps_fit(lists: Seq<Seq<u64>>, k: int, a: u64)
    requires
        blocks_fit(lists),
        0 <= k < lists.len(),
        a + block_size(k as nat) <= u64::MAX + 1,
    ensures
        blocks_fit(lists.update(k, lists[k].push(a))),
{
    let new_lists = lists.update(k, lists[k].push(a));
    assert forall|j: int, i: int| 0 <= j < new_lists.len() && 0 <= i < new_lists[j].len() implies #[trigger] new_lists[j][i]
        + block_size(j as nat) <= u64::MAX + 1 by {
        if j != k || i < lists[j].len() {
            assert(new_lists[j][i] == lists[j][i]);
        }
    }
}

/// The address ranges `[a1, a1 + s1)` and `[a2, a2 + s2)` do not overlap.
pub open spec fn ranges_disjoint(a1: int, s1: int, a2: int, s2: int) -> bool {
    a1 + s1 <= a2 || a2 + s2 <= a1
}

/// No two free blocks (at distinct places in the lists) overlap.
pub open spec fn blocks_disjoint(lists: Seq<Seq<u64>>) -> bool {
    forall|k1: int, i1: int, k2: int, i2: int|
        0 <= k1 < lists.len() && 0 <= i1 < lists[k1].len() && 0 <= k2 < lists.len() && 0 <= i2
            < lists[k2].len() && (k1 != k2 || i1 != i2) ==> ranges_disjoint(
            #[trigger] lists[k1][i1] as int,
            block_size(k1 as nat) as int,
            #[trigger] lists[k2][i2] as int,
            block_size(k2 as nat) as int,
        )
}

/// Total number of free bytes held in the lists of orders below `n`.
pub open spec fn free_bytes_below(lists: Seq<Seq<u64>>, n: nat) -> nat
    decreases n,
{
    if n == 0 {
        0
    } else {
        free_bytes_below(lists, (n - 1) as nat) + lists[n - 1].len() * block_size((n - 1) as nat)
    }
}

/// Total number of free bytes the allocator holds.
pub open spec fn free_bytes(lists: Seq<Seq<u64>>) -> nat {
    free_bytes_below(lists, ORDER_COUNT as nat)
}

/// A buddy allocator over physical memory: one free list of block addresses
/// per order; the block on top of a list is the one handed out next.
pub struct BuddyAllocator {
    free_lists: Vec<Vec<u64>>,
    base: u64,
    size: u64,
}

impl View for BuddyAllocator {
    type V = Seq<Seq<u64>>;

    /// The free lists, order by order; each list's last element is its head.
    closed spec fn view(&self) -> Seq<Seq<u64>> {
        self.free_lists@.map_values(|l: Vec<u64>| l@)
    }
}

impl BuddyAllocator {
    /// Start of the managed region as recorded by `init`.
    pub closed spec fn base_spec(&self) -> u64 {
        self.base
    }

    /// Size of the managed region as recorded by `init`.
    pub closed spec fn size_spec(&self) -> u64 {
        self.size
    }

    /// Well-formedness: one list per order, and every free block fits in the
    /// address space.
    pub open spec fn wf(&self) -> bool {
        &&& self@.len() == ORDER_COUNT
        &&& blocks_fit(self@)
    }

    /// An allocator with every free list empty and no region.
    pub fn new() -> (r: Self)
        ensures
            r.wf(),
            forall|k: int| 0 <= k < ORDER_COUNT ==> (#[trigger] r@[k]).len() == 0,
            r.base_spec() == 0,
            r.size_spec() == 0,
    {
        let mut free_lists: Vec<Vec<u64>> = Vec::new();
        let mut k: usize = 0;
        while k < ORDER_COUNT
            invariant
                k <= ORDER_COUNT,
                free_lists@.len() == k,
                forall|j: int| 0 <= j < k ==> (#[trigger] free_lists@[j])@.len() == 0,
            decreases ORDER_COUNT - k,
        {
            free_lists.push(Vec::new());
            k = k + 1;
        }
        BuddyAllocator { free_lists, base: 0, size: 0 }
    }

    /// Records the region `[base, base + size)` and cuts it into free blocks,
    /// pushed onto the lists of their orders: largest blocks first, then the
    /// rest in blocks as large as fit and are aligned (see `carve`).
    pub fn init(&mut self, base: u64, size: u64)
        requires
            old(self).wf(),
            base + size + max_block_size() <= u64::MAX,
        ensures
            final(self).wf(),
            final(self)@ == carve(old(self)@, base as nat, (base + size) as nat),
            final(self).base_spec() == base,
            final(self).size_spec() == size,
    {
        self.base = base;
        self.size = size;
        proof {
            lemma_block_size_values();
            lemma_shift_is_block_size(MAX_ORDER as usize);
        }
        let max_block = 4096u64 << MAX_ORDER;
        let mut addr = base;
        let end = base + size;
        let ghost target = carve(old(self)@, base as nat, end as nat);
        while addr + max_block <= end
            invariant
                self.wf(),
                self.base == base,
                self.size == size,
                base <= addr <= end,
                end == base + size,
                end + max_block_size() <= u64::MAX,
                max_block == max_block_size(),
                max_block == 8388608,
                carve(self@, addr as nat, end as nat) == target,
            decreases end - addr,
        {
            let ghost before = self@;
            proof {
                lemma_block_size_values();
                assert(carve_order(addr as nat, (end - addr) as nat) == MAX_ORDER);
            }
            self.free_lists[MAX_ORDER].push(addr);
            proof {
                assert(self@ =~= before.update(
                    MAX_ORDER as int,
                    before[MAX_ORDER as int].push(addr),
                ));
                lemma_push_keeps_fit(before, MAX_ORDER as int, addr);
            }
            addr = addr + max_block;
        }
        while addr < end
            invariant
                self.wf(),
                self.base == base,
                self.size == size,
                base <= addr,
                addr < end + 4096,
                end == base + size,
                end + max_block_size() <= u64::MAX,
                addr + max_block_size() > end,
                carve(self@, addr as nat, end as nat) == target,
            decreases end + 4096 - addr,
        {
            let remaining = end - addr;
            let mut order: usize = MAX_ORDER;
            proof {
                lemma_block_size_values();
            }
            while order > 0 && (4096u64 << order) > remaining
                invariant
                    order < ORDER_COUNT,
                    largest_aligned_order(addr as nat, remaining as nat, order as nat)
                        == largest_aligned_order(
                        addr as nat,
                        remaining as nat,
                        MAX_ORDER as nat,
                    ),
                decreases order,
            {
                proof {
                    lemma_shift_is_block_size(order);
                }
                order = order - 1;
            }
            proof {
                lemma_shift_is_block_size(order);
            }
            let chosen_size = 4096u64 << order;
            if addr & (chosen_size - 1) != 0 {
                while order > 0 && addr & ((4096u64 << order) - 1) != 0
                    invariant
                        order < ORDER_COUNT,
                        4096u64 << order >= 4096,
                        order == 0 || block_size(order as nat) <= remaining,
                        largest_aligned_order(addr as nat, remaining as nat, order as nat)
                            == largest_aligned_order(
                            addr as nat,
                            remaining as nat,
                            MAX_ORDER as nat,
                        ),
                    decreases order,
                {
                    proof {
                        lemma_shift_is_block_size(order);
                        lemma_mask_is_mod(addr, order);
                        lemma_block_size_monotone((order - 1) as nat, order as nat);
                    }
                    order = order - 1;
                    proof {
                        lemma_mask_is_mod(addr, order);
                        lemma_block_size_pos(order as nat);
                    }
                }
            }
            proof {
                lemma_shift_is_block_size(order);
                lemma_mask_is_mod(addr, order);
                lemma_block_size_pos(order as nat);
                assert(order as nat == carve_order(addr as nat, remaining as nat));
            }
            let ghost before = self@;
            self.free_lists[order].push(addr);
            proof {
                assert(self@ =~= before.update(order as int, before[order as int].push(addr)));
                lemma_push_keeps_fit(before, order as int, addr);
            }
            addr = addr + (4096u64 << order);
        }
    }

    /// Takes a block of the smallest order that holds `size` bytes. It pops
    /// the head of the first non-empty list at or above that order and splits
    /// it down, pushing the upper half of each split onto the list one order
    /// below. Returns `None` when every such list is empty.
    pub fn allocate(&mut self, size: u64) -> (r: Option<u64>)
        requires
            old(self).wf(),
        ensures
            final(self).wf(),
            final(self).base_spec() == old(self).base_spec(),
            final(self).size_spec() == old(self).size_spec(),
            first_nonempty(old(self)@, fitting_order(size as nat)) == ORDER_COUNT ==> r is None
                && final(self)@ == old(self)@,
            first_nonempty(old(self)@, fitting_order(size as nat)) < ORDER_COUNT ==> r == Some(
                old(self)@[first_nonempty(old(self)@, fitting_order(size as nat)) as int].last(),
            ),
            first_nonempty(old(self)@, fitting_order(size as nat)) < ORDER_COUNT ==> final(self)@
                == split_lists(
                old(self)@,
                fitting_order(size as nat),
                first_nonempty(old(self)@, fitting_order(size as nat)),
            ),
    {
        let target = size_to_order(size);
        let ghost old_lists = self@;
        proof {
            lemma_first_nonempty(old_lists, target as nat);
        }
        let mut order: usize = target;
        while order < ORDER_COUNT
            invariant
                self@ == old_lists,
                old(self)@ == old_lists,
                target == fitting_order(size as nat),
                self.wf(),
                self.base == old(self).base,
                self.size == old(self).size,
                target <= order <= ORDER_COUNT,
                old_lists.len() == ORDER_COUNT,
                first_nonempty(old_lists, target as nat) == first_nonempty(
                    old_lists,
                    order as nat,
                ),
            decreases ORDER_COUNT - order,
        {
            if !self.free_lists[order].is_empty() {
                let from = order;
                assert(self.free_lists@[from as int]@ == old_lists[from as int]);
                let block = match self.free_lists[order].pop() {
                    Some(b) => b,
                    None => { return None },
                };
                assert(block == old_lists[from as int].last());
                assert(first_nonempty(old_lists, target as nat) == from);
                proof {
                    assert(old_lists[from as int].contains(block)) by {
                        assert(old_lists[from as int][old_lists[from as int].len() - 1] == block);
                    }
                    let i = old_lists[from as int].len() - 1;
                    assert(old_lists[from as int][i] + block_size(from as nat) <= u64::MAX + 1);
                }
                while order > target
                    invariant
                        target <= order <= from < ORDER_COUNT,
                        self.base == old(self).base,
                        self.size == old(self).size,
                        old_lists.len() == ORDER_COUNT,
                        blocks_fit(old_lists),
                        block == old_lists[from as int].last(),
                        first_nonempty(old_lists, target as nat) == from,
                        old(self)@ == old_lists,
                        target == fitting_order(size as nat),
                        old_lists[from as int].len() > 0,
                        block + block_size(from as nat) <= u64::MAX + 1,
                        self@.len() == ORDER_COUNT,
                        forall|j: int|
                            #![trigger self@[j]]
                            0 <= j < ORDER_COUNT ==> self@[j] == if j == from {
                                old_lists[j].drop_last()
                            } else if order <= j < from {
                                old_lists[j].push((block + block_size(j as nat)) as u64)
                            } else {
                                old_lists[j]
                            },
                    decreases order,
                {
                    order = order - 1;
                    proof {
                        lemma_shift_is_block_size(order);
                        lemma_block_size_monotone(order as nat, from as nat);
                    }
                    let buddy = block + (4096u64 << order);
                    let ghost before = self@;
                    self.free_lists[order].push(buddy);
                    proof {
                        assert(before[order as int] == old_lists[order as int]);
                        assert(self@[order as int] == before[order as int].push(buddy));
                        assert forall|j: int|
                            #![trigger self@[j]]
                            0 <= j < ORDER_COUNT implies self@[j] == if j == from {
                                old_lists[j].drop_last()
                            } else if order <= j < from {
                                old_lists[j].push((block + block_size(j as nat)) as u64)
                            } else {
                                old_lists[j]
                            } by {
                            if j != order {
                                assert(self@[j] == before[j]);
                            }
                        }
                    }
                }
                proof {
                    assert(self@ =~= split_lists(old_lists, target as nat, from as nat));
                    lemma_split_keeps_fit(old_lists, target as nat, from as nat);
                }
                return Some(block);
            }
            order = order + 1;
        }
        None
    }
}

proof fn lemma_split_keeps_fit(lists: Seq<Seq<u64>>, target: nat, from: nat)
    requires
        lists.len() == ORDER_COUNT,
        blocks_fit(lists),
        target <= from < ORDER_COUNT,
        lists[from as int].len() > 0,
    ensures
        blocks_fit(split_lists(lists, target, from)),
{
    let block = lists[from as int].last();
    let new_lists = split_lists(lists, target, from);
    assert(lists[from as int][lists[from as int].len() - 1] + block_size(from) <= u64::MAX + 1);
    assert forall|k: int, i: int|
        0 <= k < new_lists.len() && 0 <= i < new_lists[k].len() implies #[trigger] new_lists[k][i]
        + block_size(k as nat) <= u64::MAX + 1 by {
        if target <= k < from && i == lists[k].len() {
            lemma_block_size_monotone(k as nat, from);
            lemma_block_size_pos(k as nat);
            assert(new_lists[k][i] == block + block_size(k as nat));
        } else {
            assert(new_lists[k][i] == lists[k][i]);
        }
    }
}

} // verus!

verus! {

/// Lists with no free block at any order.
pub open spec fn empty_lists() -> Seq<Seq<u64>> {
    Seq::new(ORDER_COUNT as nat, |k: int| Seq::<u64>::empty())
}

/// Address `x` lies in the block at position `i` of the list of order `k`.
pub open spec fn in_block(lists: Seq<Seq<u64>>, k: int, i: int, x: int) -> bool {
    &&& 0 <= k < lists.len()
    &&& 0 <= i < lists[k].len()
    &&& lists[k][i] <= x < lists[k][i] + block_size(k as nat)
}

/// Address `x` lies in some free block.
pub open spec fn covered(lists: Seq<Seq<u64>>, x: int) -> bool {
    exists|k: int, i: int| #[trigger] in_block(lists, k, i, x)
}

/// Every free block starts at or above `lo` and ends at or below `hi`.
pub open spec fn blocks_within(lists: Seq<Seq<u64>>, lo: int, hi: int) -> bool {
    forall|k: int, i: int|
        0 <= k < lists.len() && 0 <= i < lists[k].len() ==> lo <= #[trigger] lists[k][i] && lists[k][i]
            + block_size(k as nat) <= hi
}

/// Every free block of an order strictly between the smallest and the
/// largest is aligned to its size.
pub open spec fn middle_blocks_aligned(lists: Seq<Seq<u64>>) -> bool {
    forall|k: int, i: int|
        0 < k < MAX_ORDER && k < lists.len() && 0 <= i < lists[k].len() ==> (#[trigger] lists[k][i]) as int
            % (block_size(k as nat) as int) == 0
}

/// Every free block starts on a page boundary.
pub open spec fn blocks_page_aligned(lists: Seq<Seq<u64>>) -> bool {
    forall|k: int, i: int|
        0 <= k < lists.len() && 0 <= i < lists[k].len() ==> #[trigger] lists[k][i] % 4096 == 0
}

proof fn lemma_block_size_page_multiple(order: nat)
    ensures
        block_size(order) % 4096 == 0,
    decreases order,
{
    if order > 0 {
        lemma_block_size_page_multiple((order - 1) as nat);
    }
}

proof fn lemma_carve_tiles_from(lists: Seq<Seq<u64>>, base: int, addr: int, end: int)
    requires
        lists.len() == ORDER_COUNT,
        0 <= base <= addr,
        addr < end + 4096,
        0 <= end <= u64::MAX,
        blocks_disjoint(lists),
        blocks_within(lists, base, addr),
        forall|x: int| base <= x < addr ==> #[trigger] covered(lists, x),
        base % 4096 == 0 && end % 4096 == 0 ==> addr % 4096 == 0 && addr <= end,
        middle_blocks_aligned(lists),
        base % 4096 == 0 ==> addr % 4096 == 0 && blocks_page_aligned(lists),
    ensures
        carve(lists, addr as nat, end as nat).len() == ORDER_COUNT,
        middle_blocks_aligned(carve(lists, addr as nat, end as nat)),
        base % 4096 == 0 ==> blocks_page_aligned(carve(lists, addr as nat, end as nat)),
        blocks_disjoint(carve(lists, addr as nat, end as nat)),
        blocks_within(carve(lists, addr as nat, end as nat), base, end + 4095),
        base % 4096 == 0 && end % 4096 == 0 ==> blocks_within(
            carve(lists, addr as nat, end as nat),
            base,
            end,
        ),
        forall|x: int| base <= x < end ==> #[trigger] covered(carve(lists, addr as nat, end as nat), x),
    decreases distance(addr as nat, end as nat),
{
    if addr < end {
        let order = carve_order(addr as nat, (end - addr) as nat);
        lemma_carve_order(addr as nat, (end - addr) as nat);
        lemma_block_size_pos(order);
        let bs = block_size(order);
        let new_lists = lists.update(order as int, lists[order as int].push(addr as u64));
        let n = lists[order as int].len() as int;
        let next = addr + bs;
        assert(new_lists[order as int][n] == addr);
        assert forall|k: int, i: int|
            0 <= k < new_lists.len() && 0 <= i < new_lists[k].len() && !(k == order && i
                == n) implies #[trigger] new_lists[k][i] == lists[k][i] by {}
        assert(blocks_disjoint(new_lists)) by {
            assert forall|k1: int, i1: int, k2: int, i2: int|
                0 <= k1 < new_lists.len() && 0 <= i1 < new_lists[k1].len() && 0 <= k2
                    < new_lists.len() && 0 <= i2 < new_lists[k2].len() && (k1 != k2 || i1 != i2)
                implies ranges_disjoint(
                #[trigger] new_lists[k1][i1] as int,
                block_size(k1 as nat) as int,
                #[trigger] new_lists[k2][i2] as int,
                block_size(k2 as nat) as int,
            ) by {
                if k1 == order && i1 == n {
                    assert(new_lists[k2][i2] == lists[k2][i2]);
                    assert(lists[k2][i2] + block_size(k2 as nat) <= addr);
                } else if k2 == order && i2 == n {
                    assert(new_lists[k1][i1] == lists[k1][i1]);
                    assert(lists[k1][i1] + block_size(k1 as nat) <= addr);
                } else {
                    assert(new_lists[k1][i1] == lists[k1][i1]);
                    assert(new_lists[k2][i2] == lists[k2][i2]);
                }
            }
        }
        assert(blocks_within(new_lists, base, next)) by {
            assert forall|k: int, i: int|
                0 <= k < new_lists.len() && 0 <= i < new_lists[k].len() implies base
                <= #[trigger] new_lists[k][i] && new_lists[k][i] + block_size(k as nat)
                <= next by {
                if !(k == order && i == n) {
                    assert(new_lists[k][i] == lists[k][i]);
                }
            }
        }
        assert forall|x: int| base <= x < next implies #[trigger] covered(new_lists, x) by {
            if x < addr {
                assert(covered(lists, x));
                let (k, i) = choose|k: int, i: int| #[trigger] in_block(lists, k, i, x);
                assert(new_lists[k][i] == lists[k][i]);
                assert(in_block(new_lists, k, i, x));
            } else {
                assert(in_block(new_lists, order as int, n, x));
            }
        }
        if base % 4096 == 0 && end % 4096 == 0 {
            lemma_block_size_page_multiple(order);
            assert(bs <= end - addr);
        }
        lemma_block_size_page_multiple(order);
        lemma_block_size_values();
        assert(middle_blocks_aligned(new_lists)) by {
            assert forall|k: int, i: int|
                0 < k < MAX_ORDER && k < new_lists.len() && 0 <= i
                    < new_lists[k].len() implies (#[trigger] new_lists[k][i]) as int % (block_size(
                    k as nat,
                ) as int) == 0 by {
                if !(k == order && i == n) {
                    assert(new_lists[k][i] == lists[k][i]);
                }
            }
        }
        if base % 4096 == 0 {
            assert(blocks_page_aligned(new_lists)) by {
                assert forall|k: int, i: int|
                    0 <= k < new_lists.len() && 0 <= i < new_lists[k].len() implies #[trigger] new_lists[k][i]
                    % 4096 == 0 by {
                    if !(k == order && i == n) {
                        assert(new_lists[k][i] == lists[k][i]);
                    }
                }
            }
        }
        lemma_carve_tiles_from(new_lists, base, next, end);
        assert(carve(lists, addr as nat, end as nat) == carve(new_lists, next as nat, end as nat));
    } else {
        assert forall|x: int| base <= x < end implies #[trigger] covered(lists, x) by {}
        assert forall|k: int, i: int|
            0 <= k < lists.len() && 0 <= i < lists[k].len() implies base <= #[trigger] lists[k][i]
            && lists[k][i] + block_size(k as nat) <= end + 4095 by {}
    }
}

/// Law of `init` on a fresh allocator: cutting the region `[base, end)` into
/// blocks tiles it. The blocks do not overlap, every byte of the region lies
/// in one of them, and none starts below `base` or ends more than a page past
/// `end` (less than a page: at most `end + 4095`); when `base` and `end` are
/// page-aligned, none ends past `end` at all. The leftover below the largest
/// blocks is cut with proper alignment: every block of an order between the
/// smallest and the largest is aligned to its size, and when `base` is
/// page-aligned every block starts on a page boundary.
pub proof fn lemma_init_tiles_region(base: nat, end: nat)
    requires
        base <= end <= u64::MAX,
    ensures
        carve(empty_lists(), base, end).len() == ORDER_COUNT,
        blocks_disjoint(carve(empty_lists(), base, end)),
        blocks_within(carve(empty_lists(), base, end), base as int, end + 4095int),
        base % 4096 == 0 && end % 4096 == 0 ==> blocks_within(
            carve(empty_lists(), base, end),
            base as int,
            end as int,
        ),
        forall|x: int| base <= x < end ==> #[trigger] covered(carve(empty_lists(), base, end), x),
        middle_blocks_aligned(carve(empty_lists(), base, end)),
        base % 4096 == 0 ==> blocks_page_aligned(carve(empty_lists(), base, end)),
{
    lemma_carve_tiles_from(empty_lists(), base as int, base as int, end as int);
}

} // verus!

verus! {

/// Law of `allocate`: splitting hands out memory that nothing else holds.
/// When the free blocks do not overlap before the call, then afterwards they
/// still do not, none of them overlaps the handed-out block (the first
/// `block_size(target)` bytes of the block taken from list `from`), and the
/// handed-out block lies inside the block that was taken.
pub proof fn lemma_allocate_disjoint(lists: Seq<Seq<u64>>, target: nat, from: nat)
    requires
        lists.len() == ORDER_COUNT,
        blocks_fit(lists),
        blocks_disjoint(lists),
        target <= from < ORDER_COUNT,
        lists[from as int].len() > 0,
    ensures
        blocks_disjoint(split_lists(lists, target, from)),
        forall|k: int, i: int|
            0 <= k < ORDER_COUNT && 0 <= i < split_lists(lists, target, from)[k].len()
                ==> ranges_disjoint(
                #[trigger] split_lists(lists, target, from)[k][i] as int,
                block_size(k as nat) as int,
                lists[from as int].last() as int,
                block_size(target) as int,
            ),
        block_size(target) <= block_size(from),
{
    let block = lists[from as int].last() as int;
    let top = lists[from as int].len() - 1;
    let new_lists = split_lists(lists, target, from);
    lemma_block_size_monotone(target, from);
    assert(lists[from as int][top] == block);
    assert(lists[from as int][top] + block_size(from) <= u64::MAX + 1);
    // Each place in the new lists is either an old block other than the one
    // taken, or the upper half `block + block_size(k)` of a split at order `k`.
    assert forall|k: int, i: int|
        0 <= k < ORDER_COUNT && 0 <= i < new_lists[k].len() && !(target <= k < from && i
            == lists[k].len()) implies #[trigger] new_lists[k][i] == lists[k][i] && !(k == from
        && i == top) by {}
    assert forall|k: int|
        target <= k < from implies #[trigger] new_lists[k][lists[k].len() as int] == block
        + block_size(k as nat) && block + block_size(k as nat) + block_size(k as nat) <= block
        + block_size(from) && block_size(target) <= block_size(k as nat) by {
        lemma_block_size_monotone(k as nat, from);
        lemma_block_size_monotone(target, k as nat);
    }
    assert forall|k1: int, i1: int, k2: int, i2: int|
        0 <= k1 < new_lists.len() && 0 <= i1 < new_lists[k1].len() && 0 <= k2 < new_lists.len()
            && 0 <= i2 < new_lists[k2].len() && (k1 != k2 || i1 != i2) implies ranges_disjoint(
        #[trigger] new_lists[k1][i1] as int,
        block_size(k1 as nat) as int,
        #[trigger] new_lists[k2][i2] as int,
        block_size(k2 as nat) as int,
    ) by {
        let half1 = target <= k1 < from && i1 == lists[k1].len();
        let half2 = target <= k2 < from && i2 == lists[k2].len();
        if half1 && half2 {
            if k1 < k2 {
                lemma_block_size_monotone((k1 + 1) as nat, k2 as nat);
            } else {
                lemma_block_size_monotone((k2 + 1) as nat, k1 as nat);
            }
        } else if half1 {
            assert(ranges_disjoint(
                lists[k2][i2] as int,
                block_size(k2 as nat) as int,
                lists[from as int][top] as int,
                block_size(from) as int,
            ));
        } else if half2 {
            assert(ranges_disjoint(
                lists[k1][i1] as int,
                block_size(k1 as nat) as int,
                lists[from as int][top] as int,
                block_size(from) as int,
            ));
        } else {
            assert(lists[k1][i1] == new_lists[k1][i1]);
            assert(lists[k2][i2] == new_lists[k2][i2]);
        }
    }
    assert forall|k: int, i: int|
        0 <= k < ORDER_COUNT && 0 <= i < new_lists[k].len() implies ranges_disjoint(
        #[trigger] new_lists[k][i] as int,
        block_size(k as nat) as int,
        block,
        block_size(target) as int,
    ) by {
        if !(target <= k < from && i == lists[k].len()) {
            assert(ranges_disjoint(
                lists[k][i] as int,
                block_size(k as nat) as int,
                lists[from as int][top] as int,
                block_size(from) as int,
            ));
        }
    }
}

/// Sum of the block sizes of orders `lo` up to (not including) `hi`.
pub open spec fn sizes_between(lo: nat, hi: nat) -> nat
    decreases hi,
{
    if hi <= lo {
        0
    } else {
        sizes_between(lo, (hi - 1) as nat) + block_size((hi - 1) as nat)
    }
}

proof fn lemma_sizes_between(lo: nat, hi: nat)
    requires
        lo <= hi,
    ensures
        sizes_between(lo, hi) + block_size(lo) == block_size(hi),
    decreases hi,
{
    if lo < hi {
        lemma_sizes_between(lo, (hi - 1) as nat);
    }
}

proof fn lemma_split_free_bytes_below(lists: Seq<Seq<u64>>, target: nat, from: nat, n: nat)
    requires
        lists.len() == ORDER_COUNT,
        target <= from < ORDER_COUNT,
        lists[from as int].len() > 0,
        n <= ORDER_COUNT,
    ensures
        free_bytes_below(split_lists(lists, target, from), n) + (if from < n {
            block_size(from)
        } else {
            0
        }) == free_bytes_below(lists, n) + sizes_between(
            target,
            if n < from {
                n
            } else {
                from
            },
        ),
    decreases n,
{
    if n > 0 {
        let m = (n - 1) as nat;
        lemma_split_free_bytes_below(lists, target, from, m);
        let new_lists = split_lists(lists, target, from);
        let len = lists[m as int].len();
        let bs = block_size(m);
        if m == from {
            assert(new_lists[m as int].len() == len - 1);
            assert((len - 1) * bs + bs == len * bs) by (nonlinear_arith);
        } else if target <= m && m < from {
            assert(new_lists[m as int].len() == len + 1);
            assert((len + 1) * bs == len * bs + bs) by (nonlinear_arith);
        } else {
            assert(new_lists[m as int].len() == len);
        }
    }
}

/// Law of `allocate`: the free memory drops by exactly the handed-out block.
/// Taking a block of order `from` and splitting it down to order `target`
/// leaves `block_size(target)` bytes fewer in the free lists.
pub proof fn lemma_allocate_free_bytes(lists: Seq<Seq<u64>>, target: nat, from: nat)
    requires
        lists.len() == ORDER_COUNT,
        target <= from < ORDER_COUNT,
        lists[from as int].len() > 0,
    ensures
        free_bytes(split_lists(lists, target, from)) + block_size(target) == free_bytes(lists),
{
    lemma_split_free_bytes_below(lists, target, from, ORDER_COUNT as nat);
    lemma_sizes_between(target, from);
}

/// Every free block starts at a multiple of its own size.
pub open spec fn blocks_aligned(lists: Seq<Seq<u64>>) -> bool {
    forall|k: int, i: int|
        0 <= k < lists.len() && 0 <= i < lists[k].len() ==> (#[trigger] lists[k][i]) as int
            % (block_size(k as nat) as int) == 0
}

/// An address aligned to a block size is aligned to every smaller block
/// size, and so is the address one smaller block further on.
proof fn lemma_aligned_down(b: int, j: nat, k: nat)
    requires
        j <= k,
        b % (block_size(k) as int) == 0,
    ensures
        b % (block_size(j) as int) == 0,
        (b + block_size(j)) % (block_size(j) as int) == 0,
    decreases k,
{
    lemma_block_size_pos(j);
    lemma_block_size_pos(k);
    if j < k {
        let m = block_size((k - 1) as nat) as int;
        lemma_block_size_pos((k - 1) as nat);
        assert(b % m == 0) by {
            vstd::arithmetic::div_mod::lemma_mod_mod(b, m, 2);
            assert(m * 2 == 2 * m);
            assert(0int % m == 0);
        }
        lemma_aligned_down(b, j, (k - 1) as nat);
    } else {
        let m = block_size(j) as int;
        assert((b + m) % m == 0) by (nonlinear_arith)
            requires
                b % m == 0,
                m > 0,
        ;
    }
}

/// The block `[b, b + block_size(from))` is the block `[b, b +
/// block_size(target))` together with the upper halves `[b + block_size(j),
/// b + 2 * block_size(j))` of the orders `target <= j < from`.
proof fn lemma_split_covers(b: int, target: nat, from: nat, x: int)
    requires
        target <= from,
        b <= x < b + block_size(from),
    ensures
        x < b + block_size(target) || exists|j: nat|
            target <= j < from && b + #[trigger] block_size(j) <= x < b + block_size(j) + block_size(j),
    decreases from,
{
    if from > target && x >= b + block_size((from - 1) as nat) {
        let j = (from - 1) as nat;
        assert(target <= j < from && b + block_size(j) <= x < b + block_size(j) + block_size(j));
    } else if from > target {
        lemma_split_covers(b, target, (from - 1) as nat, x);
    }
}

/// Law of `allocate`: splitting keeps the free blocks aligned and loses no
/// memory. When every free block is aligned to its size, so is every free
/// block afterwards and the handed-out block (the first `block_size(target)`
/// bytes of the block taken from list `from`); and an address lies in a
/// free block before the call exactly when afterwards it lies in a free
/// block or in the handed-out block.
pub proof fn lemma_allocate_aligned_and_covers(lists: Seq<Seq<u64>>, target: nat, from: nat)
    requires
        lists.len() == ORDER_COUNT,
        blocks_fit(lists),
        target <= from < ORDER_COUNT,
        lists[from as int].len() > 0,
    ensures
        blocks_aligned(lists) ==> blocks_aligned(split_lists(lists, target, from)),
        blocks_aligned(lists) ==> (lists[from as int].last() as int) % (block_size(target) as int)
            == 0,
        forall|x: int|
            covered(lists, x) <==> (covered(split_lists(lists, target, from), x) || lists[from as int].last()
                <= x < lists[from as int].last() + block_size(target)),
{
    let block = lists[from as int].last() as int;
    let top = lists[from as int].len() - 1;
    let new_lists = split_lists(lists, target, from);
    lemma_block_size_monotone(target, from);
    assert(lists[from as int][top] == block);
    assert(lists[from as int][top] + block_size(from) <= u64::MAX + 1);
    assert forall|k: int|
        target <= k < from implies #[trigger] new_lists[k][lists[k].len() as int] == block
        + block_size(k as nat) && block + block_size(k as nat) + block_size(k as nat) <= block
        + block_size(from) by {
        lemma_block_size_monotone(k as nat, from);
    }
    if blocks_aligned(lists) {
        assert(block % (block_size(from) as int) == 0);
        lemma_aligned_down(block, target, from);
        assert forall|k: int, i: int|
            0 <= k < new_lists.len() && 0 <= i < new_lists[k].len() implies (
            #[trigger] new_lists[k][i]) as int % (block_size(k as nat) as int) == 0 by {
            if target <= k < from && i == lists[k].len() {
                lemma_aligned_down(block, k as nat, from);
            } else {
                assert(new_lists[k][i] == lists[k][i]);
            }
        }
    }
    assert forall|x: int|
        covered(lists, x) <==> (covered(new_lists, x) || block <= x < block + block_size(
            target,
        )) by {
        if covered(lists, x) {
            let (k, i) = choose|k: int, i: int| #[trigger] in_block(lists, k, i, x);
            if k == from && i == top {
                lemma_split_covers(block, target, from, x);
                if x >= block + block_size(target) {
                    let j = choose|j: nat|
                        target <= j < from && block + #[trigger] block_size(j) <= x < block
                            + block_size(j) + block_size(j);
                    assert(in_block(new_lists, j as int, lists[j as int].len() as int, x));
                }
            } else {
                assert(new_lists[k][i] == lists[k][i]);
                assert(in_block(new_lists, k, i, x));
            }
        }
        if covered(new_lists, x) {
            let (k, i) = choose|k: int, i: int| #[trigger] in_block(new_lists, k, i, x);
            if target <= k < from && i == lists[k].len() {
                assert(in_block(lists, from as int, top, x));
            } else {
                assert(new_lists[k][i] == lists[k][i]);
                assert(in_block(lists, k, i, x));
            }
        }
        if block <= x < block + block_size(target) {
            assert(in_block(lists, from as int, top, x));
        }
    }
}

} // verus!
