use vstd::prelude::*;
use crate::memory::{FrameAllocator, after_allocation, first_free, lemma_first_free};

verus! {

/// Entry flag: the entry maps a page or references a table.
pub const PRESENT: u64 = 1;

/// Entry flag: writes are allowed through the entry.
pub const WRITABLE: u64 = 2;

/// Bits of an entry that hold the physical address (bits 12 to 51).
pub const ENTRY_ADDR_MASK: u64 = 0x000f_ffff_ffff_f000;

/// Number of entries in a page table.
pub const ENTRIES_PER_TABLE: usize = 512;

/// One 64-bit entry of a page table at any level.
pub struct PageTableEntry(u64);

impl View for PageTableEntry {
    type V = u64;

    /// The raw 64-bit entry.
    closed spec fn view(&self) -> u64 {
        self.0
    }
}

/// The entry value `set` stores for a physical address and flags.
pub open spec fn entry_value(phys_addr: u64, flags: u64) -> u64 {
    (phys_addr & ENTRY_ADDR_MASK) | flags
}

impl PageTableEntry {
    /// An empty entry (not present).
    pub fn new() -> (r: Self)
        ensures
            r@ == 0,
    {
        PageTableEntry(0)
    }

    /// Whether the entry's present flag is set.
    pub fn is_present(&self) -> (r: bool)
        ensures
            r == (self@ & PRESENT != 0),
    {
        (self.0 & PRESENT) != 0
    }

    /// Points the entry at `phys_addr` (its address bits) with `flags`.
    pub fn set(&mut self, phys_addr: u64, flags: u64)
        ensures
            final(self)@ == entry_value(phys_addr, flags),
    {
        self.0 = (phys_addr & ENTRY_ADDR_MASK) | flags;
    }

    /// The physical address the entry points at.
    pub fn addr(&self) -> (r: u64)
        ensures
            r == self@ & ENTRY_ADDR_MASK,
    {
        self.0 & ENTRY_ADDR_MASK
    }
}

/// Law of entries: after `set(phys_addr, flags)` with flags outside the
/// address bits, `addr` gives back the address bits of `phys_addr`, and the
/// entry is present exactly when `flags` holds the present flag. An empty
/// entry is not present.
pub proof fn lemma_entry_set_then_read(phys_addr: u64, flags: u64)
    ensures
        flags & ENTRY_ADDR_MASK == 0 ==> entry_value(phys_addr, flags) & ENTRY_ADDR_MASK == phys_addr
            & ENTRY_ADDR_MASK,
        (entry_value(phys_addr, flags) & PRESENT != 0) == (flags & PRESENT != 0),
        0u64 & PRESENT == 0,
{
    assert(flags & 0x000f_ffff_ffff_f000u64 == 0 ==> ((phys_addr & 0x000f_ffff_ffff_f000u64) | flags)
        & 0x000f_ffff_ffff_f000u64 == phys_addr & 0x000f_ffff_ffff_f000u64) by (bit_vector);
    assert((((phys_addr & 0x000f_ffff_ffff_f000u64) | flags) & 1u64 != 0) == (flags & 1u64 != 0))
        by (bit_vector);
    assert(0u64 & 1u64 == 0) by (bit_vector);
}

/// A page table: 512 entries.
pub struct PageTable {
    entries: Vec<PageTableEntry>,
}

/// The entries of a table whose memory was zeroed.
pub open spec fn zeroed_entries() -> Seq<u64> {
    Seq::new(ENTRIES_PER_TABLE as nat, |i: int| 0u64)
}

impl View for PageTable {
    type V = Seq<u64>;

    /// The raw entries.
    closed spec fn view(&self) -> Seq<u64> {
        self.entries@.map_values(|e: PageTableEntry| e@)
    }
}

impl PageTable {
    /// A table whose memory is all zero: no entry present.
    pub fn zeroed() -> (r: Self)
        ensures
            r@ == zeroed_entries(),
    {
        let mut entries: Vec<PageTableEntry> = Vec::new();
        let mut i: usize = 0;
        while i < ENTRIES_PER_TABLE
            invariant
                i <= ENTRIES_PER_TABLE,
                entries@.len() == i,
                forall|j: int| 0 <= j < i ==> (#[trigger] entries@[j])@ == 0,
            decreases ENTRIES_PER_TABLE - i,
        {
            entries.push(PageTableEntry::new());
            i = i + 1;
        }
        let r = PageTable { entries };
        assert(r@ =~= zeroed_entries());
        r
    }
}

} // verus!

verus! {

/// The page tables in physical memory, each at the address of its frame.
pub struct PageTableMemory {
    frames: Vec<u64>,
    tables: Vec<PageTable>,
}

impl View for PageTableMemory {
    type V = Map<u64, Seq<u64>>;

    /// The entries of the table at each frame address that holds one.
    closed spec fn view(&self) -> Map<u64, Seq<u64>> {
        Map::new(
            |a: u64| self.frames@.contains(a),
            |a: u64| self.tables@[self.frames@.index_of(a)]@,
        )
    }
}

/// Every table has 512 entries.
pub open spec fn tables_wf(mem: Map<u64, Seq<u64>>) -> bool {
    forall|a: u64| #[trigger] mem.contains_key(a) ==> mem[a].len() == ENTRIES_PER_TABLE
}

impl PageTableMemory {
    /// One table per frame, each of 512 entries.
    pub closed spec fn wf(&self) -> bool {
        &&& self.frames@.len() == self.tables@.len()
        &&& self.frames@.no_duplicates()
        &&& forall|i: int|
            0 <= i < self.tables@.len() ==> (#[trigger] self.tables@[i])@.len() == ENTRIES_PER_TABLE
    }

    proof fn lemma_index_of(&self, i: int)
        requires
            self.wf(),
            0 <= i < self.frames@.len(),
        ensures
            self.frames@.index_of(self.frames@[i]) == i,
            self.frames@.contains(self.frames@[i]),
    {
        assert(self.frames@[i] == self.frames@[i]);
        let j = self.frames@.index_of(self.frames@[i]);
        assert(0 <= j < self.frames@.len() && self.frames@[j] == self.frames@[i]);
    }

    /// Facts callers need from `wf`.
    pub proof fn lemma_wf(&self)
        requires
            self.wf(),
        ensures
            tables_wf(self@),
    {
        assert forall|a: u64| #[trigger] self@.contains_key(a) implies self@[a].len()
            == ENTRIES_PER_TABLE by {
            let j = self.frames@.index_of(a);
            assert(0 <= j < self.frames@.len() && self.frames@[j] == a);
        }
    }

    /// No page tables.
    pub fn new() -> (r: Self)
        ensures
            r.wf(),
            r@ == Map::<u64, Seq<u64>>::empty(),
    {
        let r = PageTableMemory { frames: Vec::new(), tables: Vec::new() };
        assert(r@ =~= Map::<u64, Seq<u64>>::empty());
        r
    }

    /// Position of the table at `addr`, if there is one.
    fn find(&self, addr: u64) -> (r: Option<usize>)
        requires
            self.wf(),
        ensures
            r is None ==> !self@.contains_key(addr),
            r matches Some(i) ==> i < self.frames@.len() && self.frames@[i as int] == addr,
    {
        let mut i: usize = 0;
        while i < self.frames.len()
            invariant
                i <= self.frames@.len(),
                forall|j: int| 0 <= j < i ==> self.frames@[j] != addr,
            decreases self.frames@.len() - i,
        {
            if self.frames[i] == addr {
                return Some(i);
            }
            i = i + 1;
        }
        None
    }

    /// Addresses of the frames that hold tables.
    pub fn frames(&self) -> (r: Vec<u64>)
        requires
            self.wf(),
        ensures
            forall|a: u64| #[trigger] r@.contains(a) <==> self@.contains_key(a),
    {
        let mut r: Vec<u64> = Vec::new();
        let mut i: usize = 0;
        while i < self.frames.len()
            invariant
                i <= self.frames@.len(),
                r@ == self.frames@.subrange(0, i as int),
            decreases self.frames@.len() - i,
        {
            r.push(self.frames[i]);
            i = i + 1;
            assert(r@ =~= self.frames@.subrange(0, i as int));
        }
        assert(r@ =~= self.frames@);
        r
    }

    /// Whether a table lies at `addr`.
    pub fn contains(&self, addr: u64) -> (r: bool)
        requires
            self.wf(),
        ensures
            r == self@.contains_key(addr),
    {
        match self.find(addr) {
            Some(_) => true,
            None => false,
        }
    }

    /// Entry `index` of the table at `addr`.
    pub fn entry(&self, addr: u64, index: usize) -> (r: u64)
        requires
            self.wf(),
            self@.contains_key(addr),
            index < ENTRIES_PER_TABLE,
        ensures
            r == self@[addr][index as int],
    {
        match self.find(addr) {
            Some(i) => {
                proof {
                    self.lemma_index_of(i as int);
                }
                assert(self.tables@[i as int].entries@.len() == ENTRIES_PER_TABLE);
                self.tables[i].entries[index].0
            },
            None => 0,
        }
    }

    /// Sets entry `index` of the table at `addr` to point at `phys_addr`
    /// with `flags`.
    pub fn set_entry(&mut self, addr: u64, index: usize, phys_addr: u64, flags: u64)
        requires
            old(self).wf(),
            old(self)@.contains_key(addr),
            index < ENTRIES_PER_TABLE,
        ensures
            final(self).wf(),
            final(self)@ == old(self)@.insert(
                addr,
                old(self)@[addr].update(index as int, entry_value(phys_addr, flags)),
            ),
    {
        let ghost before = *self;
        match self.find(addr) {
            Some(i) => {
                proof {
                    self.lemma_index_of(i as int);
                }
                assert(self.tables@[i as int].entries@.len() == ENTRIES_PER_TABLE);
                self.tables[i].entries[index].set(phys_addr, flags);
                proof {
                    let new_table = old(self)@[addr].update(index as int, entry_value(phys_addr, flags));
                    assert(self.tables@[i as int]@ =~= new_table);
                    assert forall|j: int|
                        0 <= j < self.tables@.len() implies (#[trigger] self.tables@[j])@.len()
                        == ENTRIES_PER_TABLE by {
                        if j != i {
                            assert(self.tables@[j] == before.tables@[j]);
                        }
                    }
                    assert forall|a: u64| #[trigger] self@.contains_key(a) implies self@[a] == old(
                        self,
                    )@.insert(addr, new_table)[a] by {
                        let j = self.frames@.index_of(a);
                        assert(0 <= j < self.frames@.len() && self.frames@[j] == a);
                        if a != addr {
                            assert(j != i);
                            assert(self.tables@[j] == before.tables@[j]);
                        }
                    }
                    assert(self@ =~= old(self)@.insert(addr, new_table));
                }
            },
            None => {},
        }
    }

    /// Places a zeroed table at `addr` (replacing what table was there).
    pub fn install_zeroed(&mut self, addr: u64)
        requires
            old(self).wf(),
        ensures
            final(self).wf(),
            final(self)@ == old(self)@.insert(addr, zeroed_entries()),
    {
        let ghost before = *self;
        let table = PageTable::zeroed();
        match self.find(addr) {
            Some(i) => {
                proof {
                    self.lemma_index_of(i as int);
                }
                self.tables.set(i, table);
                proof {
                    assert forall|j: int|
                        0 <= j < self.tables@.len() implies (#[trigger] self.tables@[j])@.len()
                        == ENTRIES_PER_TABLE by {
                        if j != i {
                            assert(self.tables@[j] == before.tables@[j]);
                        }
                    }
                    assert forall|a: u64| #[trigger] self@.contains_key(a) implies self@[a] == old(
                        self,
                    )@.insert(addr, zeroed_entries())[a] by {
                        let j = self.frames@.index_of(a);
                        assert(0 <= j < self.frames@.len() && self.frames@[j] == a);
                        if a != addr {
                            assert(j != i);
                            assert(self.tables@[j] == before.tables@[j]);
                        }
                    }
                    assert(self@ =~= old(self)@.insert(addr, zeroed_entries()));
                }
            },
            None => {
                self.frames.push(addr);
                self.tables.push(table);
                proof {
                    let n = before.frames@.len() as int;
                    assert(self.frames@[n] == addr);
                    assert forall|j: int|
                        0 <= j < self.tables@.len() implies (#[trigger] self.tables@[j])@.len()
                        == ENTRIES_PER_TABLE by {
                        if j != n {
                            assert(self.tables@[j] == before.tables@[j]);
                        }
                    }
                    assert(self.frames@.no_duplicates()) by {
                        assert forall|x: int, y: int|
                            0 <= x < self.frames@.len() && 0 <= y < self.frames@.len() && x
                                != y implies self.frames@[x] != self.frames@[y] by {
                            if x == n {
                                assert(!before.frames@.contains(addr));
                                assert(self.frames@[y] == before.frames@[y]);
                            } else if y == n {
                                assert(!before.frames@.contains(addr));
                                assert(self.frames@[x] == before.frames@[x]);
                            } else {
                                assert(self.frames@[x] == before.frames@[x]);
                                assert(self.frames@[y] == before.frames@[y]);
                            }
                        }
                    }
                    self.lemma_index_of(n);
                    assert forall|a: u64| #[trigger] self@.contains_key(a) implies self@[a] == old(
                        self,
                    )@.insert(addr, zeroed_entries())[a] by {
                        let j = self.frames@.index_of(a);
                        assert(0 <= j < self.frames@.len() && self.frames@[j] == a);
                        if a != addr {
                            assert(j != n);
                            assert(self.frames@[j] == before.frames@[j]);
                            before.lemma_index_of(j);
                            assert(self.tables@[j] == before.tables@[j]);
                        }
                    }
                    assert forall|a: u64|
                        #[trigger] old(self)@.insert(addr, zeroed_entries()).contains_key(
                            a,
                        ) implies self@.contains_key(a) by {
                        if a != addr {
                            let j = before.frames@.index_of(a);
                            assert(0 <= j < before.frames@.len() && before.frames@[j] == a);
                            assert(self.frames@[j] == a);
                        }
                    }
                    assert(self@ =~= old(self)@.insert(addr, zeroed_entries()));
                }
            },
        }
    }
}

} // verus!

verus! {

/// Index into the table at `level` (0: PML4, 1: PDPT, 2: PD, 3: PT) that
/// `virt` selects: bits 39-47, 30-38, 21-29 and 12-20 of the address.
pub open spec fn table_index(virt: u64, level: nat) -> u64 {
    if level == 0 {
        (virt >> 39u64) & 0x1ffu64
    } else if level == 1 {
        (virt >> 30u64) & 0x1ffu64
    } else if level == 2 {
        (virt >> 21u64) & 0x1ffu64
    } else {
        (virt >> 12u64) & 0x1ffu64
    }
}

proof fn lemma_index_bound(x: u64)
    by (bit_vector)
    ensures
        x & 0x1ffu64 < 512,
{
}

/// One directory step of `map_page` at entry `idx` of the table at `t`: a
/// present entry is followed; otherwise the allocator's lowest free frame
/// becomes a zeroed table and the entry is pointed at it, present and
/// writable. Gives the tables, the allocator's bitmap and the next table's
/// address (the entry's address bits).
pub open spec fn descend(mem: Map<u64, Seq<u64>>, bits: Seq<bool>, total: nat, t: u64, idx: int) -> (
    Map<u64, Seq<u64>>,
    Seq<bool>,
    u64,
) {
    if mem[t][idx] & PRESENT != 0 {
        (mem, bits, mem[t][idx] & ENTRY_ADDR_MASK)
    } else {
        let page = (first_free(bits, total) * 4096) as u64;
        let zeroed = mem.insert(page, zeroed_entries());
        let m = zeroed.insert(t, zeroed[t].update(idx, entry_value(page, PRESENT | WRITABLE)));
        (m, after_allocation(bits, total), m[t][idx] & ENTRY_ADDR_MASK)
    }
}

/// `descend` can run: the table exists and, when its entry is not present,
/// the allocator has a free frame.
pub open spec fn descend_ok(mem: Map<u64, Seq<u64>>, bits: Seq<bool>, total: nat, t: u64, idx: int) -> bool {
    &&& mem.contains_key(t)
    &&& mem[t][idx] & PRESENT == 0 ==> first_free(bits, total) < total
}

/// The tables and the allocator's bitmap after `map_page`: the walk for
/// `virt` descends through the PML4 at `pml4`, the PDPT and the PD
/// (creating missing tables), and the PT's entry is set to `phys` with
/// `flags` and the present flag.
pub open spec fn map_page_spec(
    mem: Map<u64, Seq<u64>>,
    bits: Seq<bool>,
    total: nat,
    pml4: u64,
    virt: u64,
    phys: u64,
    flags: u64,
) -> (Map<u64, Seq<u64>>, Seq<bool>) {
    let s1 = descend(mem, bits, total, pml4, table_index(virt, 0) as int);
    let s2 = descend(s1.0, s1.1, total, s1.2, table_index(virt, 1) as int);
    let s3 = descend(s2.0, s2.1, total, s2.2, table_index(virt, 2) as int);
    (
        s3.0.insert(
            s3.2,
            s3.0[s3.2].update(table_index(virt, 3) as int, entry_value(phys, flags | PRESENT)),
        ),
        s3.1,
    )
}

/// `map_page` can run: each table on the walk exists (present entries
/// point at tables) and the allocator has a frame for each missing table.
pub open spec fn map_page_ok(mem: Map<u64, Seq<u64>>, bits: Seq<bool>, total: nat, pml4: u64, virt: u64) -> bool {
    let s1 = descend(mem, bits, total, pml4, table_index(virt, 0) as int);
    let s2 = descend(s1.0, s1.1, total, s1.2, table_index(virt, 1) as int);
    let s3 = descend(s2.0, s2.1, total, s2.2, table_index(virt, 2) as int);
    &&& descend_ok(mem, bits, total, pml4, table_index(virt, 0) as int)
    &&& descend_ok(s1.0, s1.1, total, s1.2, table_index(virt, 1) as int)
    &&& descend_ok(s2.0, s2.1, total, s2.2, table_index(virt, 2) as int)
    &&& s3.0.contains_key(s3.2)
}

/// The tables and the allocator's bitmap after `try_map_page`: those of
/// `map_page_spec` when the walk can run; otherwise those after the
/// directory steps before the first one that cannot run.
pub open spec fn map_page_progress(
    mem: Map<u64, Seq<u64>>,
    bits: Seq<bool>,
    total: nat,
    pml4: u64,
    virt: u64,
    phys: u64,
    flags: u64,
) -> (Map<u64, Seq<u64>>, Seq<bool>) {
    let i0 = table_index(virt, 0) as int;
    let i1 = table_index(virt, 1) as int;
    let i2 = table_index(virt, 2) as int;
    if !descend_ok(mem, bits, total, pml4, i0) {
        (mem, bits)
    } else {
        let s1 = descend(mem, bits, total, pml4, i0);
        if !descend_ok(s1.0, s1.1, total, s1.2, i1) {
            (s1.0, s1.1)
        } else {
            let s2 = descend(s1.0, s1.1, total, s1.2, i1);
            if !descend_ok(s2.0, s2.1, total, s2.2, i2) {
                (s2.0, s2.1)
            } else {
                let s3 = descend(s2.0, s2.1, total, s2.2, i2);
                if !s3.0.contains_key(s3.2) {
                    (s3.0, s3.1)
                } else {
                    map_page_spec(mem, bits, total, pml4, virt, phys, flags)
                }
            }
        }
    }
}

/// One directory step of `map_page` (see `descend`); `None`, with nothing
/// changed, when the step cannot run (`descend_ok` fails).
fn descend_table(mem: &mut PageTableMemory, table: u64, index: u64, allocator: &mut FrameAllocator) -> (next: Option<u64>)
    requires
        old(mem).wf(),
        old(allocator).wf(),
        index < ENTRIES_PER_TABLE,
    ensures
        final(mem).wf(),
        final(allocator).wf(),
        final(allocator).total_pages_spec() == old(allocator).total_pages_spec(),
        final(allocator).max_address_spec() == old(allocator).max_address_spec(),
        next is Some == descend_ok(old(mem)@, old(allocator)@, old(allocator).total_pages_spec(), table, index as int),
        next is Some ==> (final(mem)@, final(allocator)@, next->0) == descend(
            old(mem)@,
            old(allocator)@,
            old(allocator).total_pages_spec(),
            table,
            index as int,
        ),
        next is None ==> final(mem)@ == old(mem)@ && final(allocator)@ == old(allocator)@,
{
    if !mem.contains(table) {
        return None;
    }
    let entry = mem.entry(table, index as usize);
    if entry & PRESENT == 0 {
        proof {
            allocator.lemma_wf();
            lemma_first_free(allocator@, allocator.total_pages_spec());
        }
        let new_table = match allocator.allocate_page() {
            Some(page) => page,
            None => {
                return None;
            },
        };
        mem.install_zeroed(new_table);
        mem.set_entry(table, index as usize, new_table, PRESENT | WRITABLE);
    }
    Some(mem.entry(table, index as usize) & ENTRY_ADDR_MASK)
}

/// `map_page`, checked: returns `false` when the walk cannot run
/// (`map_page_ok` fails: a table on the walk is missing or the allocator has
/// no frame for a missing table); the steps before the failing one are done
/// (`map_page_progress`).
pub fn try_map_page(
    mem: &mut PageTableMemory,
    pml4: u64,
    virt_addr: u64,
    phys_addr: u64,
    flags: u64,
    allocator: &mut FrameAllocator,
) -> (ok: bool)
    requires
        old(mem).wf(),
        old(allocator).wf(),
    ensures
        final(mem).wf(),
        final(allocator).wf(),
        final(allocator).total_pages_spec() == old(allocator).total_pages_spec(),
        final(allocator).max_address_spec() == old(allocator).max_address_spec(),
        ok == map_page_ok(old(mem)@, old(allocator)@, old(allocator).total_pages_spec(), pml4, virt_addr),
        (final(mem)@, final(allocator)@) == map_page_progress(
            old(mem)@,
            old(allocator)@,
            old(allocator).total_pages_spec(),
            pml4,
            virt_addr,
            phys_addr,
            flags,
        ),
        ok ==> (final(mem)@, final(allocator)@) == map_page_spec(
            old(mem)@,
            old(allocator)@,
            old(allocator).total_pages_spec(),
            pml4,
            virt_addr,
            phys_addr,
            flags,
        ),
{
    let pml4_index = (virt_addr >> 39) & 0x1ff;
    let pdpt_index = (virt_addr >> 30) & 0x1ff;
    let pd_index = (virt_addr >> 21) & 0x1ff;
    let pt_index = (virt_addr >> 12) & 0x1ff;
    proof {
        lemma_index_bound(virt_addr >> 39);
        lemma_index_bound(virt_addr >> 30);
        lemma_index_bound(virt_addr >> 21);
        lemma_index_bound(virt_addr >> 12);
    }
    let pdpt = match descend_table(mem, pml4, pml4_index, allocator) {
        Some(t) => t,
        None => {
            return false;
        },
    };
    let pd = match descend_table(mem, pdpt, pdpt_index, allocator) {
        Some(t) => t,
        None => {
            return false;
        },
    };
    let pt = match descend_table(mem, pd, pd_index, allocator) {
        Some(t) => t,
        None => {
            return false;
        },
    };
    if !mem.contains(pt) {
        return false;
    }
    mem.set_entry(pt, pt_index as usize, phys_addr, flags | PRESENT);
    true
}

/// Maps the page at `virt_addr` to `phys_addr` with `flags` in the page
/// tables rooted at the PML4 at `pml4`, creating missing tables from
/// frames of `allocator`.
pub fn map_page(
    mem: &mut PageTableMemory,
    pml4: u64,
    virt_addr: u64,
    phys_addr: u64,
    flags: u64,
    allocator: &mut FrameAllocator,
)
    requires
        old(mem).wf(),
        old(allocator).wf(),
        map_page_ok(old(mem)@, old(allocator)@, old(allocator).total_pages_spec(), pml4, virt_addr),
    ensures
        final(mem).wf(),
        final(allocator).wf(),
        final(allocator).total_pages_spec() == old(allocator).total_pages_spec(),
        final(allocator).max_address_spec() == old(allocator).max_address_spec(),
        (final(mem)@, final(allocator)@) == map_page_spec(
            old(mem)@,
            old(allocator)@,
            old(allocator).total_pages_spec(),
            pml4,
            virt_addr,
            phys_addr,
            flags,
        ),
{
    try_map_page(mem, pml4, virt_addr, phys_addr, flags, allocator);
}

} // verus!

verus! {

/// The tables and the allocator's bitmap after identity-mapping pages `i`
/// to `n - 1` (each page's address to itself, present and writable), one
/// `map_page` after another; `None` when one of them cannot run.
pub open spec fn identity_map_from(
    mem: Map<u64, Seq<u64>>,
    bits: Seq<bool>,
    total: nat,
    pml4: u64,
    i: nat,
    n: nat,
) -> Option<(Map<u64, Seq<u64>>, Seq<bool>)>
    decreases n - i,
{
    if i >= n {
        Some((mem, bits))
    } else if !map_page_ok(mem, bits, total, pml4, (i * 4096) as u64) {
        None
    } else {
        let r = map_page_spec(
            mem,
            bits,
            total,
            pml4,
            (i * 4096) as u64,
            (i * 4096) as u64,
            PRESENT | WRITABLE,
        );
        identity_map_from(r.0, r.1, total, pml4, i + 1, n)
    }
}

/// The tables and the allocator's bitmap after `init`'s loop from page `i`
/// on: as `identity_map_from` while every `map_page` can run; at the first
/// one that cannot, the state `try_map_page` leaves (`map_page_progress`).
pub open spec fn identity_map_progress_from(
    mem: Map<u64, Seq<u64>>,
    bits: Seq<bool>,
    total: nat,
    pml4: u64,
    i: nat,
    n: nat,
) -> (Map<u64, Seq<u64>>, Seq<bool>)
    decreases n - i,
{
    if i >= n {
        (mem, bits)
    } else if !map_page_ok(mem, bits, total, pml4, (i * 4096) as u64) {
        map_page_progress(
            mem,
            bits,
            total,
            pml4,
            (i * 4096) as u64,
            (i * 4096) as u64,
            PRESENT | WRITABLE,
        )
    } else {
        let r = map_page_spec(
            mem,
            bits,
            total,
            pml4,
            (i * 4096) as u64,
            (i * 4096) as u64,
            PRESENT | WRITABLE,
        );
        identity_map_progress_from(r.0, r.1, total, pml4, i + 1, n)
    }
}

/// The PML4 `init` takes: the allocator's lowest free frame.
pub open spec fn pml4_frame(bits: Seq<bool>, total: nat) -> u64 {
    (first_free(bits, total) * 4096) as u64
}

/// The tables and bitmap `init` leaves whether or not it succeeds: a zeroed
/// PML4 in the lowest free frame, then pages mapped to themselves up to the
/// first that cannot be mapped (see `identity_map_progress_from`).
pub open spec fn identity_map_state(mem: Map<u64, Seq<u64>>, bits: Seq<bool>, total: nat) -> (
    Map<u64, Seq<u64>>,
    Seq<bool>,
) {
    let pml4 = pml4_frame(bits, total);
    identity_map_progress_from(
        mem.insert(pml4, zeroed_entries()),
        after_allocation(bits, total),
        total,
        pml4,
        0,
        total,
    )
}

/// The tables and bitmap `init` produces: a zeroed PML4 in the lowest free
/// frame, then every page below the allocator's highest address mapped to
/// itself.
pub open spec fn identity_map(mem: Map<u64, Seq<u64>>, bits: Seq<bool>, total: nat) -> Option<
    (Map<u64, Seq<u64>>, Seq<bool>),
> {
    let pml4 = pml4_frame(bits, total);
    identity_map_from(
        mem.insert(pml4, zeroed_entries()),
        after_allocation(bits, total),
        total,
        pml4,
        0,
        total,
    )
}

/// Builds the kernel's page tables: takes a frame for the PML4, zeroes it,
/// and maps every page below the allocator's highest address to itself,
/// present and writable. Returns the PML4's address (to be loaded into CR3),
/// or `None` when the allocator runs out of frames for the tables on the
/// way; the tables and the allocator are then as the mapping left them
/// (`identity_map_state`). The allocator must have a frame for the PML4.
pub fn init(allocator: &mut FrameAllocator, mem: &mut PageTableMemory) -> (r: Option<u64>)
    requires
        old(allocator).wf(),
        old(mem).wf(),
        first_free(old(allocator)@, old(allocator).total_pages_spec()) < old(
            allocator,
        ).total_pages_spec(),
    ensures
        final(allocator).wf(),
        final(mem).wf(),
        final(allocator).total_pages_spec() == old(allocator).total_pages_spec(),
        r is Some <==> identity_map(
            old(mem)@,
            old(allocator)@,
            old(allocator).total_pages_spec(),
        ) is Some,
        (final(mem)@, final(allocator)@) == identity_map_state(
            old(mem)@,
            old(allocator)@,
            old(allocator).total_pages_spec(),
        ),
        r is Some ==> r == Some(pml4_frame(old(allocator)@, old(allocator).total_pages_spec()))
            && Some((final(mem)@, final(allocator)@)) == identity_map(
            old(mem)@,
            old(allocator)@,
            old(allocator).total_pages_spec(),
        ),
{
    let ghost total = allocator.total_pages_spec();
    let ghost target = identity_map(mem@, allocator@, total);
    let ghost ptarget = identity_map_state(mem@, allocator@, total);
    proof {
        allocator.lemma_wf();
        lemma_first_free(allocator@, total);
    }
    let pml4_addr = match allocator.allocate_page() {
        Some(page) => page,
        None => {
            proof {
                assert(false);
            }
            return None;
        },
    };
    mem.install_zeroed(pml4_addr);
    proof {
        allocator.lemma_wf();
    }
    let pages = allocator.max_address() / 4096;
    let mut i: u64 = 0;
    while i < pages
        invariant
            allocator.wf(),
            mem.wf(),
            allocator.total_pages_spec() == total,
            pages == total,
            total * 4096 <= allocator.max_address_spec(),
            i <= pages,
            old(allocator).total_pages_spec() == total,
            target == identity_map(old(mem)@, old(allocator)@, total),
            first_free(old(allocator)@, total) < total,
            identity_map_from(mem@, allocator@, total, pml4_addr, i as nat, total) == target,
            ptarget == identity_map_state(old(mem)@, old(allocator)@, total),
            identity_map_progress_from(mem@, allocator@, total, pml4_addr, i as nat, total)
                == ptarget,
        decreases pages - i,
    {
        let addr = i * 4096;
        if !try_map_page(mem, pml4_addr, addr, addr, PRESENT | WRITABLE, allocator) {
            return None;
        }
        i = i + 1;
    }
    Some(pml4_addr)
}

} // verus!

verus! {

/// The PT entry the MMU's walk for `virt` reaches, starting at the PML4 at
/// `pml4` and following the address bits of present entries through the
/// PDPT and the PD; `None` when an entry on the way is not present or points
/// at no table.
pub open spec fn walk(mem: Map<u64, Seq<u64>>, pml4: u64, virt: u64) -> Option<u64> {
    if !mem.contains_key(pml4) {
        None
    } else {
        let e0 = mem[pml4][table_index(virt, 0) as int];
        let t1 = e0 & ENTRY_ADDR_MASK;
        if e0 & PRESENT == 0 || !mem.contains_key(t1) {
            None
        } else {
            let e1 = mem[t1][table_index(virt, 1) as int];
            let t2 = e1 & ENTRY_ADDR_MASK;
            if e1 & PRESENT == 0 || !mem.contains_key(t2) {
                None
            } else {
                let e2 = mem[t2][table_index(virt, 2) as int];
                let t3 = e2 & ENTRY_ADDR_MASK;
                if e2 & PRESENT == 0 || !mem.contains_key(t3) {
                    None
                } else {
                    Some(mem[t3][table_index(virt, 3) as int])
                }
            }
        }
    }
}

/// No free frame below `total` holds a table.
pub open spec fn free_frames_hold_no_table(mem: Map<u64, Seq<u64>>, bits: Seq<bool>, total: nat) -> bool {
    forall|p: int| 0 <= p < total && #[trigger] bits[p] ==> !mem.contains_key((p * 4096) as u64)
}

proof fn lemma_frame_address_bits(x: u64)
    by (bit_vector)
    requires
        x & 4095 == 0,
        x < 0x10_0000_0000_0000u64,
    ensures
        x & 0x000f_ffff_ffff_f000u64 == x,
        ((x & 0x000f_ffff_ffff_f000u64) | 3u64) & 1u64 != 0,
        ((x & 0x000f_ffff_ffff_f000u64) | 3u64) & 0x000f_ffff_ffff_f000u64 == x,
{
}

proof fn lemma_page_aligned(p: int)
    requires
        0 <= p,
        p * 4096 < 0x10_0000_0000_0000,
    ensures
        (p * 4096) as u64 & 4095 == 0,
{
    let x = (p * 4096) as u64;
    assert(x % 4096 == 0);
    assert(x & 4095 == x % 4096) by (bit_vector);
}

proof fn lemma_descend(mem: Map<u64, Seq<u64>>, bits: Seq<bool>, total: nat, t: u64, idx: int)
    requires
        tables_wf(mem),
        descend_ok(mem, bits, total, t, idx),
        0 <= idx < ENTRIES_PER_TABLE,
        total <= bits.len(),
        total * 4096 <= 0x10_0000_0000_0000,
        free_frames_hold_no_table(mem, bits, total),
    ensures
        ({
            let (m, b, n) = descend(mem, bits, total, t, idx);
            &&& tables_wf(m)
            &&& b.len() == bits.len()
            &&& free_frames_hold_no_table(m, b, total)
            &&& m.contains_key(t)
            &&& m[t][idx] & PRESENT != 0
            &&& m[t][idx] & ENTRY_ADDR_MASK == n
            &&& mem[t][idx] & PRESENT == 0 ==> m.contains_key(n) && !mem.contains_key(n)
            &&& forall|a: u64| #[trigger] mem.contains_key(a) ==> m.contains_key(a)
            &&& forall|a: u64| #[trigger] mem.contains_key(a) && a != t ==> m[a] == mem[a]
            &&& forall|k: int| 0 <= k < ENTRIES_PER_TABLE && k != idx ==> #[trigger] m[t][k] == mem[t][k]
        }),
{
    if mem[t][idx] & PRESENT == 0 {
        lemma_first_free(bits, total);
        let f = first_free(bits, total);
        let page = (f * 4096) as u64;
        assert(f * 4096 < 0x10_0000_0000_0000) by (nonlinear_arith)
            requires
                f < total,
                total * 4096 <= 0x10_0000_0000_0000,
        ;
        lemma_page_aligned(f as int);
        lemma_frame_address_bits(page);
        assert(!mem.contains_key(page));
        assert(PRESENT | WRITABLE == 3u64) by (bit_vector);
        let (m, b, n) = descend(mem, bits, total, t, idx);
        assert(m[t][idx] == entry_value(page, 3u64));
        assert(n == page);
        assert forall|p: int| 0 <= p < total && #[trigger] b[p] implies !m.contains_key(
            (p * 4096) as u64,
        ) by {
            assert(p != f);
            assert(bits[p]);
            assert(p * 4096 < 0x10_0000_0000_0000) by (nonlinear_arith)
                requires
                    p < total,
                    total * 4096 <= 0x10_0000_0000_0000,
            ;
            assert(p * 4096 != f * 4096) by (nonlinear_arith)
                requires
                    p != f,
            ;
        }
    }
}

/// Law of `map_page`: afterwards the MMU's walk for `virt_addr` reaches an
/// entry mapping `phys_addr` with `flags` and the present flag. This holds
/// when the free frames hold no table (the allocator does not hand out
/// frames in use as tables), every frame lies in the 52-bit physical address
/// space, and the walk's four tables are distinct.
pub proof fn lemma_map_page_walk(
    mem: Map<u64, Seq<u64>>,
    bits: Seq<bool>,
    total: nat,
    pml4: u64,
    virt_addr: u64,
    phys_addr: u64,
    flags: u64,
)
    requires
        tables_wf(mem),
        map_page_ok(mem, bits, total, pml4, virt_addr),
        total <= bits.len(),
        total * 4096 <= 0x10_0000_0000_0000,
        free_frames_hold_no_table(mem, bits, total),
        ({
            let s1 = descend(mem, bits, total, pml4, table_index(virt_addr, 0) as int);
            let s2 = descend(s1.0, s1.1, total, s1.2, table_index(virt_addr, 1) as int);
            let s3 = descend(s2.0, s2.1, total, s2.2, table_index(virt_addr, 2) as int);
            &&& pml4 != s1.2 && pml4 != s2.2 && pml4 != s3.2
            &&& s1.2 != s2.2 && s1.2 != s3.2
            &&& s2.2 != s3.2
        }),
    ensures
        walk(
            map_page_spec(mem, bits, total, pml4, virt_addr, phys_addr, flags).0,
            pml4,
            virt_addr,
        ) == Some(entry_value(phys_addr, flags | PRESENT)),
{
    let i0 = table_index(virt_addr, 0) as int;
    let i1 = table_index(virt_addr, 1) as int;
    let i2 = table_index(virt_addr, 2) as int;
    let i3 = table_index(virt_addr, 3) as int;
    lemma_index_bound(virt_addr >> 39u64);
    lemma_index_bound(virt_addr >> 30u64);
    lemma_index_bound(virt_addr >> 21u64);
    lemma_index_bound(virt_addr >> 12u64);
    let s1 = descend(mem, bits, total, pml4, i0);
    lemma_descend(mem, bits, total, pml4, i0);
    let s2 = descend(s1.0, s1.1, total, s1.2, i1);
    lemma_descend(s1.0, s1.1, total, s1.2, i1);
    let s3 = descend(s2.0, s2.1, total, s2.2, i2);
    lemma_descend(s2.0, s2.1, total, s2.2, i2);
    let t1 = s1.2;
    let t2 = s2.2;
    let t3 = s3.2;
    let r = s3.0.insert(t3, s3.0[t3].update(i3, entry_value(phys_addr, flags | PRESENT)));
    assert(r == map_page_spec(mem, bits, total, pml4, virt_addr, phys_addr, flags).0);
    assert(s2.0.contains_key(pml4));
    assert(r[pml4] == s3.0[pml4]);
    assert(s3.0[pml4] == s2.0[pml4]);
    assert(s2.0[pml4] == s1.0[pml4]);
    assert(r[pml4][i0] & PRESENT != 0 && r[pml4][i0] & ENTRY_ADDR_MASK == t1);
    assert(s2.0.contains_key(t1));
    assert(r[t1] == s3.0[t1]);
    assert(s3.0[t1] == s2.0[t1]);
    assert(r[t1][i1] & PRESENT != 0 && r[t1][i1] & ENTRY_ADDR_MASK == t2);
    assert(r[t2] == s3.0[t2]);
    assert(r[t2][i2] & PRESENT != 0 && r[t2][i2] & ENTRY_ADDR_MASK == t3);
    assert(r.contains_key(t1) && r.contains_key(t2) && r.contains_key(t3));
}

/// Law of `map_page`: mapping a page the tables already map that way (its
/// walk reaches an entry with the same frame and flags) allocates no frame
/// and changes no table.
pub proof fn lemma_map_page_when_mapped(
    mem: Map<u64, Seq<u64>>,
    bits: Seq<bool>,
    total: nat,
    pml4: u64,
    virt_addr: u64,
    phys_addr: u64,
    flags: u64,
)
    requires
        tables_wf(mem),
        walk(mem, pml4, virt_addr) == Some(entry_value(phys_addr, flags | PRESENT)),
    ensures
        map_page_ok(mem, bits, total, pml4, virt_addr),
        map_page_spec(mem, bits, total, pml4, virt_addr, phys_addr, flags) == (mem, bits),
{
    let i3 = table_index(virt_addr, 3) as int;
    lemma_index_bound(virt_addr >> 12u64);
    let s1 = descend(mem, bits, total, pml4, table_index(virt_addr, 0) as int);
    let s2 = descend(s1.0, s1.1, total, s1.2, table_index(virt_addr, 1) as int);
    let s3 = descend(s2.0, s2.1, total, s2.2, table_index(virt_addr, 2) as int);
    assert(s1.0 == mem && s1.1 == bits);
    assert(s2.0 == mem && s2.1 == bits);
    assert(s3.0 == mem && s3.1 == bits);
    let t3 = s3.2;
    assert(mem.contains_key(t3));
    let ev = entry_value(phys_addr, flags | PRESENT);
    assert(mem[t3][i3] == ev);
    assert(mem[t3].update(i3, ev) =~= mem[t3]);
    assert(mem.insert(t3, mem[t3].update(i3, ev)) =~= mem);
}

/// Law of `map_page`: a second identical `map_page` allocates no frame and
/// changes no table (under the hypotheses of `lemma_map_page_walk`).
pub proof fn lemma_map_page_twice(
    mem: Map<u64, Seq<u64>>,
    bits: Seq<bool>,
    total: nat,
    pml4: u64,
    virt_addr: u64,
    phys_addr: u64,
    flags: u64,
)
    requires
        tables_wf(mem),
        map_page_ok(mem, bits, total, pml4, virt_addr),
        total <= bits.len(),
        total * 4096 <= 0x10_0000_0000_0000,
        free_frames_hold_no_table(mem, bits, total),
        ({
            let s1 = descend(mem, bits, total, pml4, table_index(virt_addr, 0) as int);
            let s2 = descend(s1.0, s1.1, total, s1.2, table_index(virt_addr, 1) as int);
            let s3 = descend(s2.0, s2.1, total, s2.2, table_index(virt_addr, 2) as int);
            &&& pml4 != s1.2 && pml4 != s2.2 && pml4 != s3.2
            &&& s1.2 != s2.2 && s1.2 != s3.2
            &&& s2.2 != s3.2
        }),
    ensures
        ({
            let r = map_page_spec(mem, bits, total, pml4, virt_addr, phys_addr, flags);
            &&& map_page_ok(r.0, r.1, total, pml4, virt_addr)
            &&& map_page_spec(r.0, r.1, total, pml4, virt_addr, phys_addr, flags) == r
        }),
{
    lemma_map_page_walk(mem, bits, total, pml4, virt_addr, phys_addr, flags);
    let i0 = table_index(virt_addr, 0) as int;
    let i1 = table_index(virt_addr, 1) as int;
    let i2 = table_index(virt_addr, 2) as int;
    let i3 = table_index(virt_addr, 3) as int;
    lemma_index_bound(virt_addr >> 39u64);
    lemma_index_bound(virt_addr >> 30u64);
    lemma_index_bound(virt_addr >> 21u64);
    lemma_index_bound(virt_addr >> 12u64);
    let s1 = descend(mem, bits, total, pml4, i0);
    lemma_descend(mem, bits, total, pml4, i0);
    let s2 = descend(s1.0, s1.1, total, s1.2, i1);
    lemma_descend(s1.0, s1.1, total, s1.2, i1);
    let s3 = descend(s2.0, s2.1, total, s2.2, i2);
    lemma_descend(s2.0, s2.1, total, s2.2, i2);
    let r = map_page_spec(mem, bits, total, pml4, virt_addr, phys_addr, flags);
    assert(tables_wf(r.0)) by {
        assert forall|a: u64| #[trigger] r.0.contains_key(a) implies r.0[a].len() == ENTRIES_PER_TABLE by {
            if a != s3.2 {
                assert(s3.0.contains_key(a));
            }
        }
    }
    lemma_map_page_when_mapped(r.0, r.1, total, pml4, virt_addr, phys_addr, flags);
}

} // verus!

verus! {

/// The tables form a tree of levels: the PML4 is level 0; a present entry
/// of a table above level 3 points at a table one level down; no two such
/// entries point at the same table; every table has 512 entries; and no
/// free frame holds a table.
pub open spec fn table_tree(
    m: Map<u64, Seq<u64>>,
    b: Seq<bool>,
    total: nat,
    pml4: u64,
    lvl: Map<u64, nat>,
) -> bool {
    &&& tables_wf(m)
    &&& lvl.dom() == m.dom()
    &&& m.contains_key(pml4)
    &&& lvl[pml4] == 0
    &&& forall|a: u64| #[trigger] lvl.contains_key(a) ==> lvl[a] <= 3
    &&& forall|a: u64, k: int|
        m.contains_key(a) && lvl[a] < 3 && 0 <= k < ENTRIES_PER_TABLE && #[trigger] m[a][k] & PRESENT
            != 0 ==> m.contains_key(m[a][k] & ENTRY_ADDR_MASK) && lvl[m[a][k] & ENTRY_ADDR_MASK]
            == lvl[a] + 1
    &&& forall|a1: u64, k1: int, a2: u64, k2: int|
        m.contains_key(a1) && lvl[a1] < 3 && 0 <= k1 < ENTRIES_PER_TABLE && #[trigger] m[a1][k1]
            & PRESENT != 0 && m.contains_key(a2) && lvl[a2] < 3 && 0 <= k2 < ENTRIES_PER_TABLE
            && #[trigger] m[a2][k2] & PRESENT != 0 && (a1 != a2 || k1 != k2) ==> m[a1][k1]
            & ENTRY_ADDR_MASK != m[a2][k2] & ENTRY_ADDR_MASK
    &&& free_frames_hold_no_table(m, b, total)
    &&& total <= b.len()
}

proof fn lemma_descend_tree(
    m: Map<u64, Seq<u64>>,
    b: Seq<bool>,
    total: nat,
    pml4: u64,
    lvl: Map<u64, nat>,
    t: u64,
    idx: int,
) -> (lvl2: Map<u64, nat>)
    requires
        table_tree(m, b, total, pml4, lvl),
        m.contains_key(t),
        lvl[t] < 3,
        0 <= idx < ENTRIES_PER_TABLE,
        descend_ok(m, b, total, t, idx),
        total * 4096 <= 0x10_0000_0000_0000,
    ensures
        ({
            let (m2, b2, n) = descend(m, b, total, t, idx);
            &&& table_tree(m2, b2, total, pml4, lvl2)
            &&& m2.contains_key(n)
            &&& lvl2[n] == lvl[t] + 1
            &&& m2[t][idx] & PRESENT != 0
            &&& m2[t][idx] & ENTRY_ADDR_MASK == n
            &&& forall|a: u64| #[trigger] m.contains_key(a) ==> m2.contains_key(a) && lvl2[a] == lvl[a]
            &&& forall|a: u64, k: int|
                m.contains_key(a) && 0 <= k < ENTRIES_PER_TABLE && (a != t || k != idx
                    || m[a][k] & PRESENT != 0) ==> #[trigger] m2[a][k] == m[a][k]
        }),
{
    lemma_descend(m, b, total, t, idx);
    let (m2, b2, n) = descend(m, b, total, t, idx);
    if m[t][idx] & PRESENT != 0 {
        lvl
    } else {
        let lvl2 = lvl.insert(n, lvl[t] + 1);
        assert(!m.contains_key(n));
        assert forall|a: u64, k: int|
            m.contains_key(a) && 0 <= k < ENTRIES_PER_TABLE && (a != t || k != idx || m[a][k]
                & PRESENT != 0) implies #[trigger] m2[a][k] == m[a][k] by {}
        assert(lvl2.dom() =~= m2.dom());
        // Entries of the new table are zero, hence not present.
        assert forall|k: int| 0 <= k < ENTRIES_PER_TABLE implies #[trigger] m2[n][k] & PRESENT == 0 by {
            assert(m2[n][k] == 0u64);
            assert(0u64 & 1u64 == 0) by (bit_vector);
        }
        assert forall|a: u64, k: int|
            m2.contains_key(a) && lvl2[a] < 3 && 0 <= k < ENTRIES_PER_TABLE && #[trigger] m2[a][k]
                & PRESENT != 0 implies m2.contains_key(m2[a][k] & ENTRY_ADDR_MASK) && lvl2[m2[a][k]
            & ENTRY_ADDR_MASK] == lvl2[a] + 1 by {
            if a == n {
                assert(m2[n][k] & PRESENT == 0);
            } else if a == t && k == idx {
            } else {
                assert(m2[a][k] == m[a][k]);
                assert(m[a][k] & ENTRY_ADDR_MASK != n);
            }
        }
        assert forall|a1: u64, k1: int, a2: u64, k2: int|
            m2.contains_key(a1) && lvl2[a1] < 3 && 0 <= k1 < ENTRIES_PER_TABLE && #[trigger] m2[a1][k1]
                & PRESENT != 0 && m2.contains_key(a2) && lvl2[a2] < 3 && 0 <= k2 < ENTRIES_PER_TABLE
                && #[trigger] m2[a2][k2] & PRESENT != 0 && (a1 != a2 || k1 != k2) implies m2[a1][k1]
            & ENTRY_ADDR_MASK != m2[a2][k2] & ENTRY_ADDR_MASK by {
            if a1 == n {
                assert(m2[n][k1] & PRESENT == 0);
            } else if a2 == n {
                assert(m2[n][k2] & PRESENT == 0);
            } else if a1 == t && k1 == idx {
                assert(m2[a2][k2] == m[a2][k2]);
            } else if a2 == t && k2 == idx {
                assert(m2[a1][k1] == m[a1][k1]);
            } else {
                assert(m2[a1][k1] == m[a1][k1]);
                assert(m2[a2][k2] == m[a2][k2]);
            }
        }
        assert forall|a: u64| #[trigger] lvl2.contains_key(a) implies lvl2[a] <= 3 by {}
        lvl2
    }
}

/// Walking `virt` from the PML4 stays within the tree's levels: the tables
/// reached are at levels 1, 2 and 3.
proof fn lemma_walk_levels(
    m: Map<u64, Seq<u64>>,
    b: Seq<bool>,
    total: nat,
    pml4: u64,
    lvl: Map<u64, nat>,
    virt: u64,
)
    requires
        table_tree(m, b, total, pml4, lvl),
        walk(m, pml4, virt) is Some,
    ensures
        ({
            let q1 = m[pml4][table_index(virt, 0) as int] & ENTRY_ADDR_MASK;
            let q2 = m[q1][table_index(virt, 1) as int] & ENTRY_ADDR_MASK;
            let q3 = m[q2][table_index(virt, 2) as int] & ENTRY_ADDR_MASK;
            &&& m[pml4][table_index(virt, 0) as int] & PRESENT != 0
            &&& m[q1][table_index(virt, 1) as int] & PRESENT != 0
            &&& m[q2][table_index(virt, 2) as int] & PRESENT != 0
            &&& lvl[q1] == 1 && lvl[q2] == 2 && lvl[q3] == 3
            &&& m.contains_key(q1) && m.contains_key(q2) && m.contains_key(q3)
            &&& walk(m, pml4, virt) == Some(m[q3][table_index(virt, 3) as int])
        }),
{
    lemma_index_bound(virt >> 39u64);
    lemma_index_bound(virt >> 30u64);
    lemma_index_bound(virt >> 21u64);
    let q1 = m[pml4][table_index(virt, 0) as int] & ENTRY_ADDR_MASK;
    let q2 = m[q1][table_index(virt, 1) as int] & ENTRY_ADDR_MASK;
    assert(lvl[q1] == 1);
    assert(lvl[q2] == 2);
}

/// Two page-aligned addresses below 256 TiB that select the same entry at
/// every level are equal.
proof fn lemma_indices_determine_address(x: u64, y: u64)
    requires
        x < 0x1_0000_0000_0000,
        y < 0x1_0000_0000_0000,
        x & 0xfff == 0,
        y & 0xfff == 0,
        table_index(x, 0) == table_index(y, 0),
        table_index(x, 1) == table_index(y, 1),
        table_index(x, 2) == table_index(y, 2),
        table_index(x, 3) == table_index(y, 3),
    ensures
        x == y,
{
    assert(x < 0x1_0000_0000_0000u64 && y < 0x1_0000_0000_0000u64 && x & 0xfffu64 == 0 && y
        & 0xfffu64 == 0 && (x >> 39u64) & 0x1ffu64 == (y >> 39u64) & 0x1ffu64 && (x >> 30u64)
        & 0x1ffu64 == (y >> 30u64) & 0x1ffu64 && (x >> 21u64) & 0x1ffu64 == (y >> 21u64) & 0x1ffu64
        && (x >> 12u64) & 0x1ffu64 == (y >> 12u64) & 0x1ffu64 ==> x == y) by (bit_vector);
}

} // verus!

verus! {

proof fn lemma_map_page_tree(
    m: Map<u64, Seq<u64>>,
    b: Seq<bool>,
    total: nat,
    pml4: u64,
    lvl: Map<u64, nat>,
    virt: u64,
    phys: u64,
    flags: u64,
) -> (lvl2: Map<u64, nat>)
    requires
        table_tree(m, b, total, pml4, lvl),
        map_page_ok(m, b, total, pml4, virt),
        total * 4096 <= 0x10_0000_0000_0000,
    ensures
        ({
            let (m2, b2) = map_page_spec(m, b, total, pml4, virt, phys, flags);
            let s1 = descend(m, b, total, pml4, table_index(virt, 0) as int);
            let s2 = descend(s1.0, s1.1, total, s1.2, table_index(virt, 1) as int);
            let s3 = descend(s2.0, s2.1, total, s2.2, table_index(virt, 2) as int);
            &&& table_tree(m2, b2, total, pml4, lvl2)
            &&& walk(m2, pml4, virt) == Some(entry_value(phys, flags | PRESENT))
            &&& forall|a: u64| #[trigger] m.contains_key(a) ==> m2.contains_key(a) && lvl2[a] == lvl[a]
            &&& forall|a: u64, k: int|
                m.contains_key(a) && 0 <= k < ENTRIES_PER_TABLE && #[trigger] m[a][k] & PRESENT != 0
                    && lvl[a] < 3 ==> m2[a][k] == m[a][k]
            &&& forall|a: u64, k: int|
                m.contains_key(a) && 0 <= k < ENTRIES_PER_TABLE && lvl[a] == 3 && (a != s3.2 || k
                    != table_index(virt, 3)) ==> #[trigger] m2[a][k] == m[a][k]
            &&& m2.contains_key(s1.2) && m2.contains_key(s2.2) && m2.contains_key(s3.2)
            &&& lvl2[s1.2] == 1 && lvl2[s2.2] == 2 && lvl2[s3.2] == 3
            &&& m2[pml4][table_index(virt, 0) as int] & PRESENT != 0
            &&& m2[pml4][table_index(virt, 0) as int] & ENTRY_ADDR_MASK == s1.2
            &&& m2[s1.2][table_index(virt, 1) as int] & PRESENT != 0
            &&& m2[s1.2][table_index(virt, 1) as int] & ENTRY_ADDR_MASK == s2.2
            &&& m2[s2.2][table_index(virt, 2) as int] & PRESENT != 0
            &&& m2[s2.2][table_index(virt, 2) as int] & ENTRY_ADDR_MASK == s3.2
        }),
{
    let i0 = table_index(virt, 0) as int;
    let i1 = table_index(virt, 1) as int;
    let i2 = table_index(virt, 2) as int;
    let i3 = table_index(virt, 3) as int;
    lemma_index_bound(virt >> 39u64);
    lemma_index_bound(virt >> 30u64);
    lemma_index_bound(virt >> 21u64);
    lemma_index_bound(virt >> 12u64);
    let s1 = descend(m, b, total, pml4, i0);
    let lvl_a = lemma_descend_tree(m, b, total, pml4, lvl, pml4, i0);
    let s2 = descend(s1.0, s1.1, total, s1.2, i1);
    let lvl_b = lemma_descend_tree(s1.0, s1.1, total, pml4, lvl_a, s1.2, i1);
    let s3 = descend(s2.0, s2.1, total, s2.2, i2);
    let lvl_c = lemma_descend_tree(s2.0, s2.1, total, pml4, lvl_b, s2.2, i2);
    let t3 = s3.2;
    let leaf = entry_value(phys, flags | PRESENT);
    let m2 = s3.0.insert(t3, s3.0[t3].update(i3, leaf));
    assert(m2 == map_page_spec(m, b, total, pml4, virt, phys, flags).0);
    assert(lvl_c[pml4] == 0 && lvl_c[s1.2] == 1 && lvl_c[s2.2] == 2 && lvl_c[t3] == 3);
    lemma_map_page_walk(m, b, total, pml4, virt, phys, flags);
    // Entries of tables above level 3 are as after the descents.
    assert forall|a: u64, k: int|
        s3.0.contains_key(a) && lvl_c[a] < 3 && 0 <= k < ENTRIES_PER_TABLE implies #[trigger] m2[a][k]
        == s3.0[a][k] by {}
    assert(m2.dom() =~= s3.0.dom());
    assert(table_tree(m2, s3.1, total, pml4, lvl_c)) by {
        assert forall|a: u64, k: int|
            m2.contains_key(a) && lvl_c[a] < 3 && 0 <= k < ENTRIES_PER_TABLE && #[trigger] m2[a][k]
                & PRESENT != 0 implies m2.contains_key(m2[a][k] & ENTRY_ADDR_MASK) && lvl_c[m2[a][k]
            & ENTRY_ADDR_MASK] == lvl_c[a] + 1 by {
            assert(m2[a][k] == s3.0[a][k]);
        }
        assert forall|a1: u64, k1: int, a2: u64, k2: int|
            m2.contains_key(a1) && lvl_c[a1] < 3 && 0 <= k1 < ENTRIES_PER_TABLE && #[trigger] m2[a1][k1]
                & PRESENT != 0 && m2.contains_key(a2) && lvl_c[a2] < 3 && 0 <= k2 < ENTRIES_PER_TABLE
                && #[trigger] m2[a2][k2] & PRESENT != 0 && (a1 != a2 || k1 != k2) implies m2[a1][k1]
            & ENTRY_ADDR_MASK != m2[a2][k2] & ENTRY_ADDR_MASK by {
            assert(m2[a1][k1] == s3.0[a1][k1]);
            assert(m2[a2][k2] == s3.0[a2][k2]);
        }
        assert forall|p: int| 0 <= p < total && #[trigger] s3.1[p] implies !m2.contains_key(
            (p * 4096) as u64,
        ) by {}
        assert forall|a: u64| #[trigger] m2.contains_key(a) implies m2[a].len() == ENTRIES_PER_TABLE by {}
    }
    assert forall|a: u64, k: int|
        m.contains_key(a) && 0 <= k < ENTRIES_PER_TABLE && #[trigger] m[a][k] & PRESENT != 0 && lvl[a]
            < 3 implies m2[a][k] == m[a][k] by {
        assert(s1.0[a][k] == m[a][k]);
        assert(s2.0[a][k] == s1.0[a][k]);
        assert(s3.0[a][k] == s2.0[a][k]);
    }
    assert forall|a: u64, k: int|
        m.contains_key(a) && 0 <= k < ENTRIES_PER_TABLE && lvl[a] == 3 && (a != t3 || k
            != i3) implies #[trigger] m2[a][k] == m[a][k] by {
        assert(a != pml4);
        assert(s1.0[a][k] == m[a][k]);
        assert(a != s1.2);
        assert(s2.0[a][k] == s1.0[a][k]);
        assert(a != s2.2);
        assert(s3.0[a][k] == s2.0[a][k]);
    }
    assert(s3.0[pml4][i0] == s2.0[pml4][i0]);
    assert(s2.0[pml4][i0] == s1.0[pml4][i0]);
    assert(s3.0[s1.2][i1] == s2.0[s1.2][i1]);
    lvl_c
}

/// Law of `map_page`: it leaves the walks of other pages alone. When the
/// tables form a tree (see `table_tree`), a page whose walk reached an entry
/// before, and which differs from `virt` in some table index, reaches the
/// same entry afterwards.
pub proof fn lemma_map_page_keeps_other_walks(
    m: Map<u64, Seq<u64>>,
    b: Seq<bool>,
    total: nat,
    pml4: u64,
    lvl: Map<u64, nat>,
    virt: u64,
    phys: u64,
    flags: u64,
    w: u64,
)
    requires
        table_tree(m, b, total, pml4, lvl),
        map_page_ok(m, b, total, pml4, virt),
        total * 4096 <= 0x10_0000_0000_0000,
        walk(m, pml4, w) is Some,
        table_index(w, 0) != table_index(virt, 0) || table_index(w, 1) != table_index(virt, 1)
            || table_index(w, 2) != table_index(virt, 2) || table_index(w, 3) != table_index(
            virt,
            3,
        ),
    ensures
        walk(map_page_spec(m, b, total, pml4, virt, phys, flags).0, pml4, w) == walk(m, pml4, w),
{
    let lvl2 = lemma_map_page_tree(m, b, total, pml4, lvl, virt, phys, flags);
    let m2 = map_page_spec(m, b, total, pml4, virt, phys, flags).0;
    let s1 = descend(m, b, total, pml4, table_index(virt, 0) as int);
    let s2 = descend(s1.0, s1.1, total, s1.2, table_index(virt, 1) as int);
    let s3 = descend(s2.0, s2.1, total, s2.2, table_index(virt, 2) as int);
    lemma_walk_levels(m, b, total, pml4, lvl, w);
    lemma_index_bound(w >> 39u64);
    lemma_index_bound(w >> 30u64);
    lemma_index_bound(w >> 21u64);
    lemma_index_bound(w >> 12u64);
    lemma_index_bound(virt >> 39u64);
    lemma_index_bound(virt >> 30u64);
    lemma_index_bound(virt >> 21u64);
    let j0 = table_index(w, 0) as int;
    let j1 = table_index(w, 1) as int;
    let j2 = table_index(w, 2) as int;
    let j3 = table_index(w, 3) as int;
    let q1 = m[pml4][j0] & ENTRY_ADDR_MASK;
    let q2 = m[q1][j1] & ENTRY_ADDR_MASK;
    let q3 = m[q2][j2] & ENTRY_ADDR_MASK;
    assert(m2[pml4][j0] == m[pml4][j0]);
    assert(m2[q1][j1] == m[q1][j1]);
    assert(m2[q2][j2] == m[q2][j2]);
    if q3 == s3.2 && j3 == table_index(virt, 3) {
        // The walk would share every table and index with `virt`'s walk.
        assert(q2 == s2.2 && j2 == table_index(virt, 2) as int);
        assert(q1 == s1.2 && j1 == table_index(virt, 1) as int);
        assert(j0 == table_index(virt, 0) as int);
        assert(false);
    }
    assert(m2[q3][j3] == m[q3][j3]);
}

proof fn lemma_page_address(j: int)
    requires
        0 <= j,
        j * 4096 < 0x1_0000_0000_0000,
    ensures
        ((j * 4096) as u64) < 0x1_0000_0000_0000,
        ((j * 4096) as u64) & 0xfff == 0,
{
    let x = (j * 4096) as u64;
    assert(x % 4096 == 0);
    assert(x & 0xfff == x % 4096) by (bit_vector);
}

/// The PT entry of an identity mapping of `v`: `v`'s address bits, present
/// and writable.
pub open spec fn identity_entry(v: u64) -> u64 {
    entry_value(v, PRESENT | WRITABLE | PRESENT)
}

proof fn lemma_identity_map_from_walks(
    m: Map<u64, Seq<u64>>,
    b: Seq<bool>,
    total: nat,
    pml4: u64,
    lvl: Map<u64, nat>,
    i: nat,
    n: nat,
)
    requires
        table_tree(m, b, total, pml4, lvl),
        total * 4096 <= 0x1_0000_0000_0000,
        i <= n <= total,
        forall|j: int|
            0 <= j < i ==> walk(m, pml4, #[trigger] ((j * 4096) as u64)) == Some(
                identity_entry((j * 4096) as u64),
            ),
        identity_map_from(m, b, total, pml4, i, n) is Some,
    ensures
        forall|j: int|
            0 <= j < n ==> walk(
                (identity_map_from(m, b, total, pml4, i, n)->0).0,
                pml4,
                #[trigger] ((j * 4096) as u64),
            ) == Some(identity_entry((j * 4096) as u64)),
    decreases n - i,
{
    if i < n {
        let v = (i * 4096) as u64;
        assert(map_page_ok(m, b, total, pml4, v));
        let lvl2 = lemma_map_page_tree(m, b, total, pml4, lvl, v, v, PRESENT | WRITABLE);
        let (m2, b2) = map_page_spec(m, b, total, pml4, v, v, PRESENT | WRITABLE);
        let s1 = descend(m, b, total, pml4, table_index(v, 0) as int);
        let s2 = descend(s1.0, s1.1, total, s1.2, table_index(v, 1) as int);
        let s3 = descend(s2.0, s2.1, total, s2.2, table_index(v, 2) as int);
        assert(i * 4096 < 0x1_0000_0000_0000) by (nonlinear_arith)
            requires
                i < total,
                total * 4096 <= 0x1_0000_0000_0000,
        ;
        lemma_page_address(i as int);
        lemma_index_bound(v >> 39u64);
        lemma_index_bound(v >> 30u64);
        lemma_index_bound(v >> 21u64);
        lemma_index_bound(v >> 12u64);
        assert forall|j: int| 0 <= j < i + 1 implies walk(m2, pml4, #[trigger] ((j * 4096) as u64))
            == Some(identity_entry((j * 4096) as u64)) by {
            if j < i {
                let w = (j * 4096) as u64;
                assert(j * 4096 < 0x1_0000_0000_0000) by (nonlinear_arith)
                    requires
                        j < total,
                        total * 4096 <= 0x1_0000_0000_0000,
                ;
                lemma_page_address(j);
                assert(walk(m, pml4, w) == Some(identity_entry(w)));
                lemma_walk_levels(m, b, total, pml4, lvl, w);
                lemma_index_bound(w >> 39u64);
                lemma_index_bound(w >> 30u64);
                lemma_index_bound(w >> 21u64);
                lemma_index_bound(w >> 12u64);
                let j0 = table_index(w, 0) as int;
                let j1 = table_index(w, 1) as int;
                let j2 = table_index(w, 2) as int;
                let j3 = table_index(w, 3) as int;
                let q1 = m[pml4][j0] & ENTRY_ADDR_MASK;
                let q2 = m[q1][j1] & ENTRY_ADDR_MASK;
                let q3 = m[q2][j2] & ENTRY_ADDR_MASK;
                assert(m2[pml4][j0] == m[pml4][j0]);
                assert(m2[q1][j1] == m[q1][j1]);
                assert(m2[q2][j2] == m[q2][j2]);
                if q3 == s3.2 && j3 == table_index(v, 3) {
                    // Both PD entries point at the same PT, so they are one entry;
                    // likewise up the tree: `w` and `v` select the same entries.
                    let v2 = table_index(v, 2) as int;
                    let v1 = table_index(v, 1) as int;
                    assert(m2.contains_key(q2) && lvl2[q2] == 2);
                    assert(m2[q2][j2] & PRESENT != 0 && m2[q2][j2] & ENTRY_ADDR_MASK == q3);
                    assert(m2[s2.2][v2] & PRESENT != 0 && m2[s2.2][v2] & ENTRY_ADDR_MASK == q3);
                    assert(q2 == s2.2 && j2 == v2);
                    assert(m2.contains_key(q1) && lvl2[q1] == 1);
                    assert(m2[q1][j1] & PRESENT != 0 && m2[q1][j1] & ENTRY_ADDR_MASK == q2);
                    assert(m2[s1.2][v1] & PRESENT != 0 && m2[s1.2][v1] & ENTRY_ADDR_MASK == q2);
                    assert(q1 == s1.2 && j1 == v1);
                    assert(m2[pml4][j0] & PRESENT != 0);
                    assert(j0 == table_index(v, 0));
                    lemma_indices_determine_address(w, v);
                    assert(j * 4096 == i * 4096);
                }
                assert(m2[q3][j3] == m[q3][j3]);
            }
        }
        lemma_identity_map_from_walks(m2, b2, total, pml4, lvl2, i + 1, n);
    }
}

/// Law of `init`: the kernel's page tables identity-map all memory. Starting
/// from no tables, after `init` the MMU's walk for the address of every page
/// below the allocator's highest address reaches an entry that maps that
/// very address, present and writable. This holds when the tracked memory
/// lies below 256 TiB (above it, the walk's indices repeat, and a later
/// mapping replaces an earlier one).
pub proof fn lemma_init_identity_maps(bits: Seq<bool>, total: nat)
    requires
        total <= bits.len(),
        total * 4096 <= 0x1_0000_0000_0000,
        first_free(bits, total) < total,
        identity_map(Map::empty(), bits, total) is Some,
    ensures
        forall|j: int|
            0 <= j < total ==> walk(
                (identity_map(Map::empty(), bits, total)->0).0,
                pml4_frame(bits, total),
                #[trigger] ((j * 4096) as u64),
            ) == Some(identity_entry((j * 4096) as u64)),
{
    let pml4 = pml4_frame(bits, total);
    let f = first_free(bits, total);
    lemma_first_free(bits, total);
    let m0 = Map::<u64, Seq<u64>>::empty().insert(pml4, zeroed_entries());
    let b0 = after_allocation(bits, total);
    let lvl0 = Map::<u64, nat>::empty().insert(pml4, 0nat);
    assert(lvl0.dom() =~= m0.dom());
    assert forall|k: int| 0 <= k < ENTRIES_PER_TABLE implies #[trigger] m0[pml4][k] & PRESENT == 0 by {
        assert(0u64 & 1u64 == 0) by (bit_vector);
    }
    assert forall|p: int| 0 <= p < total && #[trigger] b0[p] implies !m0.contains_key(
        (p * 4096) as u64,
    ) by {
        assert(p != f);
        assert(p * 4096 < 0x1_0000_0000_0000 && f * 4096 < 0x1_0000_0000_0000) by (nonlinear_arith)
            requires
                p < total,
                f < total,
                total * 4096 <= 0x1_0000_0000_0000,
        ;
        assert(p * 4096 != f * 4096) by (nonlinear_arith)
            requires
                p != f,
        ;
    }
    assert(table_tree(m0, b0, total, pml4, lvl0));
    lemma_identity_map_from_walks(m0, b0, total, pml4, lvl0, 0, total);
}

} // verus!
