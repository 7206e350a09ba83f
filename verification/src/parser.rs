use vstd::prelude::*;
use vstd::arithmetic::div_mod::{lemma_div_basics, lemma_div_denominator};

verus! {

/// Little-endian 16-bit value of the two bytes at `off`.
pub open spec fn le_u16(s: Seq<u8>, off: int) -> int {
    s[off] as int + 256 * (s[off + 1] as int)
}

/// Little-endian 32-bit value of the four bytes at `off`.
pub open spec fn le_u32(s: Seq<u8>, off: int) -> int {
    le_u16(s, off) + 65536 * le_u16(s, off + 2)
}

/// Little-endian 64-bit value of the eight bytes at `off`.
pub open spec fn le_u64(s: Seq<u8>, off: int) -> int {
    le_u32(s, off) + 4294967296 * le_u32(s, off + 4)
}

proof fn lemma_le_bounds(s: Seq<u8>, off: int)
    requires
        0 <= off,
        off + 8 <= s.len(),
    ensures
        0 <= le_u16(s, off) < 65536,
        0 <= le_u32(s, off) < 4294967296,
        0 <= le_u64(s, off) <= u64::MAX,
        0 <= le_u16(s, off + 2) < 65536,
        0 <= le_u32(s, off + 4) < 4294967296,
{
}

fn read_u8(s: &[u8], off: usize) -> (r: u8)
    requires
        off < s.len(),
    ensures
        r == s@[off as int],
{
    s[off]
}

fn read_u16(s: &[u8], off: usize) -> (r: u16)
    requires
        off + 2 <= s.len(),
    ensures
        r == le_u16(s@, off as int),
{
    let lo = s[off] as u16;
    let hi = s[off + 1] as u16;
    lo + 256 * hi
}

fn read_u32(s: &[u8], off: usize) -> (r: u32)
    requires
        off + 4 <= s.len(),
    ensures
        r == le_u32(s@, off as int),
{
    let lo = read_u16(s, off) as u32;
    let hi = read_u16(s, off + 2) as u32;
    lo + 65536 * hi
}

fn read_u64(s: &[u8], off: usize) -> (r: u64)
    requires
        off + 8 <= s.len(),
    ensures
        r == le_u64(s@, off as int),
{
    let lo = read_u32(s, off) as u64;
    let hi = read_u32(s, off + 4) as u64;
    lo + 4294967296 * hi
}

/// The ELF64 file header.
pub struct ELF64Header {
    pub e_ident: [u8; 16],
    pub e_type: u16,
    pub e_machine: u16,
    pub e_version: u32,
    pub e_entry: u64,
    pub e_phoff: u64,
    pub e_shoff: u64,
    pub e_flags: u32,
    pub e_ehsize: u16,
    pub e_phentsize: u16,
    pub e_phnum: u16,
    pub e_shentsize: u16,
    pub e_shnum: u16,
    pub e_shstrndx: u16,
}

/// Size of the ELF64 file header.
pub const ELF64_HEADER_SIZE: usize = 64;

/// Size of an ELF64 program header.
pub const ELF64_PROGRAM_HEADER_SIZE: usize = 56;

/// Size of an ELF64 relocation entry with addend.
pub const ELF64_RELA_SIZE: usize = 24;

/// Size of an ELF64 dynamic section entry.
pub const ELF64_DYN_SIZE: usize = 16;

/// The header fields read from the bytes at the start of `s`.
pub open spec fn header_matches(h: ELF64Header, s: Seq<u8>) -> bool {
    &&& h.e_ident@ == s.subrange(0, 16)
    &&& h.e_type == le_u16(s, 16)
    &&& h.e_machine == le_u16(s, 18)
    &&& h.e_version == le_u32(s, 20)
    &&& h.e_entry == le_u64(s, 24)
    &&& h.e_phoff == le_u64(s, 32)
    &&& h.e_shoff == le_u64(s, 40)
    &&& h.e_flags == le_u32(s, 48)
    &&& h.e_ehsize == le_u16(s, 52)
    &&& h.e_phentsize == le_u16(s, 54)
    &&& h.e_phnum == le_u16(s, 56)
    &&& h.e_shentsize == le_u16(s, 58)
    &&& h.e_shnum == le_u16(s, 60)
    &&& h.e_shstrndx == le_u16(s, 62)
}

impl ELF64Header {
    /// Reads the header from the first 64 bytes of `data`.
    pub fn parse(data: &[u8]) -> (h: Self)
        requires
            data.len() >= ELF64_HEADER_SIZE,
        ensures
            header_matches(h, data@),
    {
        proof {
            lemma_le_bounds(data@, 16);
            lemma_le_bounds(data@, 24);
            lemma_le_bounds(data@, 32);
            lemma_le_bounds(data@, 40);
            lemma_le_bounds(data@, 48);
            lemma_le_bounds(data@, 56);
        }
        let e_ident = [
            data[0],
            data[1],
            data[2],
            data[3],
            data[4],
            data[5],
            data[6],
            data[7],
            data[8],
            data[9],
            data[10],
            data[11],
            data[12],
            data[13],
            data[14],
            data[15],
        ];
        let h = ELF64Header {
            e_ident,
            e_type: read_u16(data, 16),
            e_machine: read_u16(data, 18),
            e_version: read_u32(data, 20),
            e_entry: read_u64(data, 24),
            e_phoff: read_u64(data, 32),
            e_shoff: read_u64(data, 40),
            e_flags: read_u32(data, 48),
            e_ehsize: read_u16(data, 52),
            e_phentsize: read_u16(data, 54),
            e_phnum: read_u16(data, 56),
            e_shentsize: read_u16(data, 58),
            e_shnum: read_u16(data, 60),
            e_shstrndx: read_u16(data, 62),
        };
        assert(h.e_ident@ =~= data@.subrange(0, 16));
        h
    }
}

/// An ELF64 program header (one segment of the file).
pub struct ELF64ProgramHeader {
    pub p_type: u32,
    pub p_flags: u32,
    pub p_offset: u64,
    pub p_vaddr: u64,
    pub p_paddr: u64,
    pub p_filesz: u64,
    pub p_memsz: u64,
    pub p_align: u64,
}

/// The program header fields read from the bytes at `off` of `s`.
pub open spec fn program_header_matches(ph: ELF64ProgramHeader, s: Seq<u8>, off: int) -> bool {
    &&& ph.p_type == le_u32(s, off)
    &&& ph.p_flags == le_u32(s, off + 4)
    &&& ph.p_offset == le_u64(s, off + 8)
    &&& ph.p_vaddr == le_u64(s, off + 16)
    &&& ph.p_paddr == le_u64(s, off + 24)
    &&& ph.p_filesz == le_u64(s, off + 32)
    &&& ph.p_memsz == le_u64(s, off + 40)
    &&& ph.p_align == le_u64(s, off + 48)
}

impl ELF64ProgramHeader {
    /// Reads the program header at `off` of `data`.
    pub fn parse(data: &[u8], off: usize) -> (ph: Self)
        requires
            off + ELF64_PROGRAM_HEADER_SIZE <= data.len(),
        ensures
            program_header_matches(ph, data@, off as int),
    {
        proof {
            lemma_le_bounds(data@, off as int);
            lemma_le_bounds(data@, off + 8);
            lemma_le_bounds(data@, off + 16);
            lemma_le_bounds(data@, off + 24);
            lemma_le_bounds(data@, off + 32);
            lemma_le_bounds(data@, off + 40);
            lemma_le_bounds(data@, off + 48);
        }
        ELF64ProgramHeader {
            p_type: read_u32(data, off),
            p_flags: read_u32(data, off + 4),
            p_offset: read_u64(data, off + 8),
            p_vaddr: read_u64(data, off + 16),
            p_paddr: read_u64(data, off + 24),
            p_filesz: read_u64(data, off + 32),
            p_memsz: read_u64(data, off + 40),
            p_align: read_u64(data, off + 48),
        }
    }
}

/// An ELF64 relocation entry with addend.
pub struct ELF64Rela {
    pub r_offset: u64,
    pub r_info: u64,
    pub r_addend: i64,
}

impl ELF64Rela {
    /// Reads the relocation entry at `off` of `data`.
    pub fn parse(data: &[u8], off: usize) -> (r: Self)
        requires
            off + ELF64_RELA_SIZE <= data.len(),
        ensures
            r.r_offset == le_u64(data@, off as int),
            r.r_info == le_u64(data@, off + 8),
            r.r_addend == (le_u64(data@, off + 16) as u64) as i64,
    {
        proof {
            lemma_le_bounds(data@, off as int);
            lemma_le_bounds(data@, off + 8);
            lemma_le_bounds(data@, off + 16);
        }
        ELF64Rela {
            r_offset: read_u64(data, off),
            r_info: read_u64(data, off + 8),
            r_addend: #[verifier::truncate] (read_u64(data, off + 16) as i64),
        }
    }
}

/// An entry of the dynamic section.
struct ELF64Dyn {
    d_tag: i64,
    d_un: u64,
}

impl ELF64Dyn {
    fn parse(data: &[u8], off: usize) -> (d: Self)
        requires
            off + ELF64_DYN_SIZE <= data.len(),
        ensures
            d.d_tag == (le_u64(data@, off as int) as u64) as i64,
            d.d_un == le_u64(data@, off + 8),
    {
        proof {
            lemma_le_bounds(data@, off as int);
            lemma_le_bounds(data@, off + 8);
        }
        ELF64Dyn {
            d_tag: #[verifier::truncate] (read_u64(data, off) as i64),
            d_un: read_u64(data, off + 8),
        }
    }
}

} // verus!

verus! {

/// Segment type of a loadable segment.
pub const PT_LOAD: u32 = 1;

/// Segment type of the dynamic section.
pub const PT_DYNAMIC: u32 = 2;

/// Dynamic tags: end of the section, the relocation table's address, its
/// size, and the size of one of its entries.
pub const DT_NULL: i64 = 0;

pub const DT_RELA: i64 = 7;

pub const DT_RELASZ: i64 = 8;

pub const DT_RELAENT: i64 = 9;

/// Relocation type that adds the load base to an addend.
pub const R_X86_64_RELATIVE: u64 = 8;

/// The first bytes of the file mark a little-endian ELF64 executable or
/// shared object of the current ELF version.
pub open spec fn header_valid(s: Seq<u8>) -> bool {
    &&& s[0] == 0x7f
    &&& s[1] == 0x45
    &&& s[2] == 0x4c
    &&& s[3] == 0x46
    &&& s[4] == 2
    &&& s[5] == 1
    &&& s[6] == 1
    &&& (le_u16(s, 16) == 2 || le_u16(s, 16) == 3)
}

/// 256 to the power `i`.
pub open spec fn pow256(i: nat) -> int
    decreases i,
{
    if i == 0 {
        1
    } else {
        256 * pow256((i - 1) as nat)
    }
}

/// Byte `i` (from the least significant) of `v`.
pub open spec fn byte_of(v: int, i: nat) -> u8 {
    ((v / pow256(i)) % 256) as u8
}

/// The image with the eight bytes at `off` replaced by `v` in little-endian
/// order.
pub open spec fn write_u64(img: Seq<u8>, off: int, v: int) -> Seq<u8> {
    Seq::new(
        img.len(),
        |k: int|
            if off <= k < off + 8 {
                byte_of(v, (k - off) as nat)
            } else {
                img[k]
            },
    )
}

/// The image after loading a segment: the `filesz` bytes at `offset` of the
/// file copied to `paddr`, and the rest of the segment's `memsz` bytes
/// zeroed. `None` when the copy would read past the file or write past the
/// image, or when `paddr + load_base` overflows.
pub open spec fn load_segment(
    img: Seq<u8>,
    data: Seq<u8>,
    offset: int,
    paddr: int,
    filesz: int,
    memsz: int,
    load_base: int,
) -> Option<Seq<u8>> {
    if paddr + load_base > u64::MAX || offset + filesz > data.len() || paddr + filesz > img.len()
        || paddr + memsz > img.len() {
        None
    } else {
        Some(
            Seq::new(
                img.len(),
                |k: int|
                    if paddr <= k < paddr + filesz {
                        data[offset + k - paddr]
                    } else if paddr + filesz <= k < paddr + memsz {
                        0u8
                    } else {
                        img[k]
                    },
            ),
        )
    }
}

/// The relocation table's address, size and entry size found by scanning
/// the `count` dynamic entries at `base` of the image from entry `j` on,
/// stopping at a `DT_NULL` entry; `acc` holds what entries before `j` gave.
/// `None` when an entry read lies past the image.
pub open spec fn scan_dynamic(img: Seq<u8>, base: int, count: int, j: int, acc: (u64, u64, u64))
    -> Option<(u64, u64, u64)>
    decreases count - j,
{
    if j >= count {
        Some(acc)
    } else if base + 16 * j + 16 > img.len() {
        None
    } else {
        let tag = (le_u64(img, base + 16 * j) as u64) as i64;
        let val = le_u64(img, base + 16 * j + 8) as u64;
        if tag == DT_NULL {
            Some(acc)
        } else if tag == DT_RELA {
            scan_dynamic(img, base, count, j + 1, (val, acc.1, acc.2))
        } else if tag == DT_RELASZ {
            scan_dynamic(img, base, count, j + 1, (acc.0, val, acc.2))
        } else if tag == DT_RELAENT {
            scan_dynamic(img, base, count, j + 1, (acc.0, acc.1, val))
        } else {
            scan_dynamic(img, base, count, j + 1, acc)
        }
    }
}

/// The value an `R_X86_64_RELATIVE` relocation stores: the load base plus
/// the signed addend, modulo 2^64.
pub open spec fn relative_value(load_base: int, addend: int) -> int {
    (load_base + addend) % 0x1_0000_0000_0000_0000
}

/// The image after applying relocation entries `j` to `count` of the table
/// at `rela` (entries `ent` bytes apart): each `R_X86_64_RELATIVE` entry
/// stores `relative_value(load_base, addend)` at its offset. `None` when an
/// address computation overflows or an access lies past the image.
pub open spec fn apply_relocations(
    img: Seq<u8>,
    load_base: int,
    rela: int,
    ent: int,
    count: int,
    j: int,
) -> Option<Seq<u8>>
    decreases count - j,
{
    if j >= count || j < 0 {
        Some(img)
    } else {
        let off = rela + j * ent;
        if load_base + off > u64::MAX || off + 24 > img.len() {
            None
        } else {
            let r_offset = le_u64(img, off);
            let info = le_u64(img, off + 8);
            let addend = (le_u64(img, off + 16) as u64) as i64;
            if info % 256 == R_X86_64_RELATIVE {
                let value = relative_value(load_base, addend as int);
                if load_base + r_offset > u64::MAX || r_offset + 8 > img.len() {
                    None
                } else {
                    apply_relocations(
                        write_u64(img, r_offset, value),
                        load_base,
                        rela,
                        ent,
                        count,
                        j + 1,
                    )
                }
            } else {
                apply_relocations(img, load_base, rela, ent, count, j + 1)
            }
        }
    }
}

/// The image after applying relocation entries `j` to `count` up to the
/// first that fails (its address computation overflows or an access lies
/// past the image): the entries before it are applied. The whole table when
/// none fails.
pub open spec fn relocations_applied(
    img: Seq<u8>,
    load_base: int,
    rela: int,
    ent: int,
    count: int,
    j: int,
) -> Seq<u8>
    decreases count - j,
{
    if j >= count || j < 0 {
        img
    } else {
        let off = rela + j * ent;
        if load_base + off > u64::MAX || off + 24 > img.len() {
            img
        } else {
            let r_offset = le_u64(img, off);
            let info = le_u64(img, off + 8);
            let addend = (le_u64(img, off + 16) as u64) as i64;
            if info % 256 == R_X86_64_RELATIVE {
                let value = relative_value(load_base, addend as int);
                if load_base + r_offset > u64::MAX || r_offset + 8 > img.len() {
                    img
                } else {
                    relocations_applied(
                        write_u64(img, r_offset, value),
                        load_base,
                        rela,
                        ent,
                        count,
                        j + 1,
                    )
                }
            } else {
                relocations_applied(img, load_base, rela, ent, count, j + 1)
            }
        }
    }
}

/// The image after processing a dynamic segment at `vaddr` of `filesz`
/// bytes: its relocation table, when it names one, is applied.
pub open spec fn load_dynamic(img: Seq<u8>, vaddr: int, filesz: int, load_base: int) -> Option<
    Seq<u8>,
> {
    if load_base + vaddr > u64::MAX {
        None
    } else {
        match scan_dynamic(img, vaddr, filesz / 16, 0, (0u64, 0u64, 0u64)) {
            None => None,
            Some(info) => if info.0 != 0 && info.2 != 0 {
                apply_relocations(img, load_base, info.0 as int, info.2 as int, (info.1 / info.2) as int, 0)
            } else {
                Some(img)
            },
        }
    }
}

/// The image after processing the segment whose program header is at
/// `ph` of the file: loadable segments are copied, dynamic ones relocated,
/// others skipped.
pub open spec fn load_program_header(img: Seq<u8>, data: Seq<u8>, ph: int, load_base: int) -> Option<
    Seq<u8>,
> {
    let p_type = le_u32(data, ph);
    if p_type == PT_LOAD {
        load_segment(
            img,
            data,
            le_u64(data, ph + 8),
            le_u64(data, ph + 24),
            le_u64(data, ph + 32),
            le_u64(data, ph + 40),
            load_base,
        )
    } else if p_type == PT_DYNAMIC {
        load_dynamic(img, le_u64(data, ph + 16), le_u64(data, ph + 32), load_base)
    } else {
        Some(img)
    }
}

/// The image after processing program headers `i` onwards, in file order.
/// `None` when a header lies past the file or its offset overflows, or
/// processing a segment fails.
pub open spec fn load_from(img: Seq<u8>, data: Seq<u8>, load_base: int, i: int) -> Option<Seq<u8>>
    decreases le_u16(data, 56) - i,
{
    if i >= le_u16(data, 56) || i < 0 {
        Some(img)
    } else {
        let ph = le_u64(data, 32) + i * le_u16(data, 54);
        if ph > u64::MAX || ph + 56 > data.len() {
            None
        } else {
            match load_program_header(img, data, ph, load_base) {
                None => None,
                Some(next) => load_from(next, data, load_base, i + 1),
            }
        }
    }
}

/// The image after processing the program header at `ph`, also when that
/// fails: a loadable segment that does not fit, or a dynamic segment whose
/// table cannot be found, leaves the image as it was; a failing relocation
/// leaves the relocations before it applied.
pub open spec fn program_header_progress(img: Seq<u8>, data: Seq<u8>, ph: int, load_base: int) -> Seq<
    u8,
> {
    let p_type = le_u32(data, ph);
    if p_type == PT_LOAD {
        match load_program_header(img, data, ph, load_base) {
            Some(next) => next,
            None => img,
        }
    } else if p_type == PT_DYNAMIC {
        let vaddr = le_u64(data, ph + 16);
        if load_base + vaddr > u64::MAX {
            img
        } else {
            match scan_dynamic(img, vaddr, le_u64(data, ph + 32) / 16, 0, (0u64, 0u64, 0u64)) {
                None => img,
                Some(info) => if info.0 != 0 && info.2 != 0 {
                    relocations_applied(
                        img,
                        load_base,
                        info.0 as int,
                        info.2 as int,
                        (info.1 / info.2) as int,
                        0,
                    )
                } else {
                    img
                },
            }
        }
    } else {
        img
    }
}

/// The image after processing program headers `i` onwards up to the first
/// that fails: the headers before it are processed, and the failing one as
/// far as `program_header_progress` says. The whole file when none fails.
pub open spec fn load_progress_from(img: Seq<u8>, data: Seq<u8>, load_base: int, i: int) -> Seq<u8>
    decreases le_u16(data, 56) - i,
{
    if i >= le_u16(data, 56) || i < 0 {
        img
    } else {
        let ph = le_u64(data, 32) + i * le_u16(data, 54);
        if ph > u64::MAX || ph + 56 > data.len() {
            img
        } else {
            match load_program_header(img, data, ph, load_base) {
                None => program_header_progress(img, data, ph, load_base),
                Some(next) => load_progress_from(next, data, load_base, i + 1),
            }
        }
    }
}

/// The image after loading the whole file, when loading succeeds.
pub open spec fn loaded_image(img: Seq<u8>, data: Seq<u8>, load_base: int) -> Option<Seq<u8>> {
    load_from(img, data, load_base, 0)
}

} // verus!

verus! {

proof fn lemma_pow256_pos(i: nat)
    ensures
        pow256(i) > 0,
    decreases i,
{
    if i > 0 {
        lemma_pow256_pos((i - 1) as nat);
    }
}

/// Stores `v` in little-endian order in the eight bytes at `off`.
fn store_u64(img: &mut [u8], off: usize, v: u64)
    requires
        off + 8 <= old(img).len(),
    ensures
        final(img)@ == write_u64(old(img)@, off as int, v as int),
{
    let ghost before = img@;
    let mut x = v;
    let mut k: usize = 0;
    while k < 8
        invariant
            k <= 8,
            off + 8 <= img.len(),
            img@.len() == before.len(),
            x as int == v as int / pow256(k as nat),
            forall|t: int|
                0 <= t < img@.len() ==> #[trigger] img@[t] == if off <= t < off + k {
                    byte_of(v as int, (t - off) as nat)
                } else {
                    before[t]
                },
        decreases 8 - k,
    {
        proof {
            lemma_pow256_pos(k as nat);
            lemma_div_denominator(v as int, pow256(k as nat), 256);
            assert(pow256((k + 1) as nat) == 256 * pow256(k as nat));
            assert(pow256(k as nat) * 256 == 256 * pow256(k as nat)) by (nonlinear_arith);
        }
        let ghost prev = img@;
        img[off + k] = (x % 256) as u8;
        proof {
            assert forall|t: int| 0 <= t < img@.len() implies #[trigger] img@[t] == if off <= t < off
                + k + 1 {
                byte_of(v as int, (t - off) as nat)
            } else {
                before[t]
            } by {
                if t != off + k {
                    assert(img@[t] == prev[t]);
                }
            }
        }
        x = x / 256;
        k = k + 1;
    }
    assert(img@ =~= write_u64(before, off as int, v as int));
}

/// Copies a segment's file bytes into the image and zeroes the rest of its
/// memory size; returns `false`, leaving the image as it was, when the
/// segment does not fit the file or the image.
fn copy_segment(
    data: &[u8],
    image: &mut [u8],
    offset: u64,
    paddr: u64,
    filesz: u64,
    memsz: u64,
    load_base: u64,
) -> (ok: bool)
    ensures
        ok == load_segment(
            old(image)@,
            data@,
            offset as int,
            paddr as int,
            filesz as int,
            memsz as int,
            load_base as int,
        ) is Some,
        ok ==> Some(final(image)@) == load_segment(
            old(image)@,
            data@,
            offset as int,
            paddr as int,
            filesz as int,
            memsz as int,
            load_base as int,
        ),
        !ok ==> final(image)@ == old(image)@,
{
    let data_len = data.len() as u64;
    let image_len = image.len() as u64;
    if paddr.checked_add(load_base).is_none() {
        return false;
    }
    match offset.checked_add(filesz) {
        None => {
            return false;
        },
        Some(end) => {
            if end > data_len {
                return false;
            }
        },
    }
    match paddr.checked_add(filesz) {
        None => {
            return false;
        },
        Some(end) => {
            if end > image_len {
                return false;
            }
        },
    }
    match paddr.checked_add(memsz) {
        None => {
            return false;
        },
        Some(end) => {
            if end > image_len {
                return false;
            }
        },
    }
    let ghost before = image@;
    let ghost target = load_segment(
        before,
        data@,
        offset as int,
        paddr as int,
        filesz as int,
        memsz as int,
        load_base as int,
    )->0;
    let mut k: u64 = 0;
    while k < filesz
        invariant
            k <= filesz,
            offset + filesz <= data.len(),
            paddr + filesz <= image.len(),
            image@.len() == before.len(),
            forall|t: int|
                0 <= t < image@.len() ==> #[trigger] image@[t] == if paddr <= t < paddr + k {
                    data@[offset + t - paddr]
                } else {
                    before[t]
                },
        decreases filesz - k,
    {
        let ghost prev = image@;
        let b = data[(offset + k) as usize];
        image[(paddr + k) as usize] = b;
        proof {
            assert forall|t: int| 0 <= t < image@.len() implies #[trigger] image@[t] == if paddr <= t
                < paddr + k + 1 {
                data@[offset + t - paddr]
            } else {
                before[t]
            } by {
                if t != paddr + k {
                    assert(image@[t] == prev[t]);
                }
            }
        }
        k = k + 1;
    }
    if memsz > filesz {
        let mut k: u64 = filesz;
        while k < memsz
            invariant
                filesz <= k <= memsz,
                paddr + memsz <= image.len(),
                image@.len() == before.len(),
                forall|t: int|
                    0 <= t < image@.len() ==> #[trigger] image@[t] == if paddr <= t < paddr + filesz {
                        data@[offset + t - paddr]
                    } else if paddr + filesz <= t < paddr + k {
                        0u8
                    } else {
                        before[t]
                    },
            decreases memsz - k,
        {
            let ghost prev = image@;
            image[(paddr + k) as usize] = 0;
            proof {
                assert forall|t: int| 0 <= t < image@.len() implies #[trigger] image@[t] == if paddr
                    <= t < paddr + filesz {
                    data@[offset + t - paddr]
                } else if paddr + filesz <= t < paddr + k + 1 {
                    0u8
                } else {
                    before[t]
                } by {
                    if t != paddr + k {
                        assert(image@[t] == prev[t]);
                    }
                }
            }
            k = k + 1;
        }
    }
    assert(image@ =~= target);
    true
}

} // verus!

verus! {

proof fn lemma_low_byte(x: u64)
    by (bit_vector)
    ensures
        x & 0xff == x % 256,
{
}

/// Scans the `count` dynamic entries at `base` of the image for the
/// relocation table's address, size and entry size (0 where absent);
/// `None` when an entry lies past the image.
fn find_relocation_table(image: &[u8], base: u64, count: u64) -> (r: Option<(u64, u64, u64)>)
    requires
        16 * count <= u64::MAX,
    ensures
        r == scan_dynamic(image@, base as int, count as int, 0, (0u64, 0u64, 0u64)),
{
    let ghost target = scan_dynamic(image@, base as int, count as int, 0, (0u64, 0u64, 0u64));
    let image_len = image.len() as u64;
    let mut rela: u64 = 0;
    let mut rela_size: u64 = 0;
    let mut rela_ent: u64 = 0;
    let mut j: u64 = 0;
    while j < count
        invariant
            j <= count,
            image_len == image@.len(),
            16 * count <= u64::MAX,
            target == scan_dynamic(image@, base as int, count as int, 0, (0u64, 0u64, 0u64)),
            scan_dynamic(image@, base as int, count as int, j as int, (rela, rela_size, rela_ent))
                == target,
        decreases count - j,
    {
        match base.checked_add(16 * j + 16) {
            None => {
                return None;
            },
            Some(end) => {
                if end > image_len {
                    return None;
                }
            },
        }
        let entry = ELF64Dyn::parse(image, (base + 16 * j) as usize);
        if entry.d_tag == DT_NULL {
            assert(scan_dynamic(image@, base as int, count as int, j as int, (rela, rela_size, rela_ent))
                == Some((rela, rela_size, rela_ent)));
            return Some((rela, rela_size, rela_ent));
        } else if entry.d_tag == DT_RELA {
            rela = entry.d_un;
        } else if entry.d_tag == DT_RELASZ {
            rela_size = entry.d_un;
        } else if entry.d_tag == DT_RELAENT {
            rela_ent = entry.d_un;
        }
        j = j + 1;
    }
    Some((rela, rela_size, rela_ent))
}

/// Applies the `count` relocation entries of the table at `rela` (entries
/// `ent` bytes apart): each `R_X86_64_RELATIVE` entry stores the load base
/// plus its signed addend (modulo 2^64) at its offset. Returns `false` when
/// an entry or a target lies past the image (entries before it are applied).
fn relocate(image: &mut [u8], load_base: u64, rela: u64, ent: u64, count: u64) -> (ok: bool)
    ensures
        final(image)@.len() == old(image)@.len(),
        ok == apply_relocations(old(image)@, load_base as int, rela as int, ent as int, count as int, 0) is Some,
        ok ==> Some(final(image)@) == apply_relocations(
            old(image)@,
            load_base as int,
            rela as int,
            ent as int,
            count as int,
            0,
        ),
        !ok ==> final(image)@ == relocations_applied(
            old(image)@,
            load_base as int,
            rela as int,
            ent as int,
            count as int,
            0,
        ),
{
    let ghost target = apply_relocations(
        image@,
        load_base as int,
        rela as int,
        ent as int,
        count as int,
        0,
    );
    let image_len = image.len() as u64;
    let mut j: u64 = 0;
    while j < count
        invariant
            j <= count,
            image@.len() == old(image)@.len(),
            image_len == image@.len(),
            image@.len() <= usize::MAX,
            target == apply_relocations(
                old(image)@,
                load_base as int,
                rela as int,
                ent as int,
                count as int,
                0,
            ),
            apply_relocations(image@, load_base as int, rela as int, ent as int, count as int, j as int)
                == target,
            relocations_applied(
                old(image)@,
                load_base as int,
                rela as int,
                ent as int,
                count as int,
                0,
            ) == relocations_applied(
                image@,
                load_base as int,
                rela as int,
                ent as int,
                count as int,
                j as int,
            ),
        decreases count - j,
    {
        let off = match j.checked_mul(ent) {
            None => {
                return false;
            },
            Some(step) => match rela.checked_add(step) {
                None => {
                    return false;
                },
                Some(off) => off,
            },
        };
        if load_base.checked_add(off).is_none() {
            return false;
        }
        match off.checked_add(24) {
            None => {
                return false;
            },
            Some(end) => {
                if end > image_len {
                    return false;
                }
            },
        }
        let entry = ELF64Rela::parse(&*image, off as usize);
        proof {
            lemma_low_byte(entry.r_info);
        }
        if entry.r_info & 0xff == R_X86_64_RELATIVE {
            if load_base.checked_add(entry.r_offset).is_none() {
                return false;
            }
            match entry.r_offset.checked_add(8) {
                None => {
                    return false;
                },
                Some(end) => {
                    if end > image_len {
                        return false;
                    }
                },
            }
            let value = load_base.wrapping_add_signed(entry.r_addend);
            proof {
                lemma_relative_value(load_base, entry.r_addend);
            }
            store_u64(image, entry.r_offset as usize, value);
        }
        j = j + 1;
    }
    true
}

/// `wrapping_add_signed` computes `relative_value`.
proof fn lemma_relative_value(load_base: u64, addend: i64)
    ensures
        load_base.wrapping_add_signed(addend) as int == relative_value(load_base as int, addend as int),
{
    let s = load_base as int + addend as int;
    let m = 0x1_0000_0000_0000_0000int;
    if s > u64::MAX {
        assert((s - m) % m == s % m) by (nonlinear_arith)
            requires
                m > 0,
        ;
        assert(s % m == s - m);
    } else if s < 0 {
        assert(s % m == s + m);
    } else {
        assert(s % m == s);
    }
}

/// Processes the program header at `ph_offset` of the file: copies a
/// loadable segment, applies the relocations a dynamic segment names, and
/// skips other segments. Returns `false` when that fails.
fn load_program(data: &[u8], image: &mut [u8], ph_offset: u64, load_base: u64) -> (ok: bool)
    requires
        ph_offset + ELF64_PROGRAM_HEADER_SIZE <= data.len(),
    ensures
        final(image)@.len() == old(image)@.len(),
        ok == load_program_header(old(image)@, data@, ph_offset as int, load_base as int) is Some,
        ok ==> Some(final(image)@) == load_program_header(
            old(image)@,
            data@,
            ph_offset as int,
            load_base as int,
        ),
        !ok ==> final(image)@ == program_header_progress(
            old(image)@,
            data@,
            ph_offset as int,
            load_base as int,
        ),
{
    let ph = ELF64ProgramHeader::parse(data, ph_offset as usize);
    if ph.p_type == PT_LOAD {
        copy_segment(data, image, ph.p_offset, ph.p_paddr, ph.p_filesz, ph.p_memsz, load_base)
    } else if ph.p_type == PT_DYNAMIC {
        if load_base.checked_add(ph.p_vaddr).is_none() {
            return false;
        }
        let count = ph.p_filesz / 16;
        let (rela, rela_size, rela_ent) = match find_relocation_table(&*image, ph.p_vaddr, count) {
            None => {
                return false;
            },
            Some(t) => t,
        };
        if rela != 0 && rela_ent != 0 {
            relocate(image, load_base, rela, rela_ent, rela_size / rela_ent)
        } else {
            true
        }
    } else {
        true
    }
}

/// Whether the file starts with a whole ELF64 header that marks a
/// little-endian ELF64 executable or shared object.
pub open spec fn elf_accepted(data: Seq<u8>) -> bool {
    data.len() >= ELF64_HEADER_SIZE && header_valid(data)
}

/// Loads an ELF64 file into the image at `load_base` (the image's first
/// byte is at `load_base`): checks the header, copies each loadable
/// segment to its physical address and zeroes the rest of its memory size,
/// and applies the `R_X86_64_RELATIVE` relocations the dynamic segment
/// names. Returns the entry point's address. `None`, with the image
/// untouched, when the header is missing or does not mark a little-endian
/// ELF64 executable or shared object, or when the entry point's address
/// overflows; `None` also when a segment, a program header, a dynamic
/// entry or a relocation lies outside the file or the image (the segments
/// and relocations before it are loaded: `load_progress_from`).
pub fn load_elf(data: &[u8], load_base: u64, image: &mut [u8]) -> (r: Option<u64>)
    ensures
        final(image)@.len() == old(image)@.len(),
        !elf_accepted(data@) ==> r is None && final(image)@ == old(image)@,
        elf_accepted(data@) && load_base + le_u64(data@, 24) > u64::MAX ==> r is None
            && final(image)@ == old(image)@,
        elf_accepted(data@) && load_base + le_u64(data@, 24) <= u64::MAX ==> match loaded_image(
            old(image)@,
            data@,
            load_base as int,
        ) {
            Some(img) => r == Some((load_base + le_u64(data@, 24)) as u64) && final(image)@ == img,
            None => r is None && final(image)@ == load_progress_from(
                old(image)@,
                data@,
                load_base as int,
                0,
            ),
        },
{
    if data.len() < ELF64_HEADER_SIZE {
        return None;
    }
    let header = ELF64Header::parse(data);
    if header.e_ident[0] != 0x7f || header.e_ident[1] != 0x45 || header.e_ident[2] != 0x4c
        || header.e_ident[3] != 0x46 {
        return None;
    }
    if header.e_ident[4] != 2 {
        return None;
    }
    if header.e_ident[5] != 1 {
        return None;
    }
    if header.e_ident[6] != 1 {
        return None;
    }
    if header.e_type != 2 && header.e_type != 3 {
        return None;
    }
    assert(header_valid(data@));
    let entry = match load_base.checked_add(header.e_entry) {
        None => {
            return None;
        },
        Some(entry) => entry,
    };
    let ghost target = loaded_image(image@, data@, load_base as int);
    let data_len = data.len() as u64;
    let mut i: u16 = 0;
    while i < header.e_phnum
        invariant
            header_matches(header, data@),
            data_len == data@.len(),
            elf_accepted(data@),
            entry == load_base + le_u64(data@, 24),
            image@.len() == old(image)@.len(),
            target == loaded_image(old(image)@, data@, load_base as int),
            load_from(image@, data@, load_base as int, i as int) == target,
            load_progress_from(old(image)@, data@, load_base as int, 0) == load_progress_from(
                image@,
                data@,
                load_base as int,
                i as int,
            ),
        decreases header.e_phnum - i,
    {
        assert((i as u64) * (header.e_phentsize as u64) <= 65535 * 65535) by (nonlinear_arith)
            requires
                i <= 65535,
                header.e_phentsize <= 65535,
        ;
        let ph_offset = match header.e_phoff.checked_add((i as u64) * (header.e_phentsize as u64)) {
            None => {
                return None;
            },
            Some(off) => off,
        };
        match ph_offset.checked_add(56) {
            None => {
                return None;
            },
            Some(end) => {
                if end > data_len {
                    return None;
                }
            },
        }
        let ghost before = image@;
        assert(load_from(before, data@, load_base as int, i as int) == match load_program_header(
            before,
            data@,
            ph_offset as int,
            load_base as int,
        ) {
            None => None,
            Some(next) => load_from(next, data@, load_base as int, i + 1),
        });
        if !load_program(data, image, ph_offset, load_base) {
            return None;
        }
        i = i + 1;
    }
    Some(entry)
}

} // verus!

verus! {

proof fn lemma_digit(v: int, k: nat)
    requires
        v >= 0,
    ensures
        v / pow256(k) == byte_of(v, k) as int + 256 * (v / pow256(k + 1)),
        0 <= byte_of(v, k) as int == (v / pow256(k)) % 256,
{
    lemma_pow256_pos(k);
    let y = v / pow256(k);
    assert(y >= 0) by (nonlinear_arith)
        requires
            v >= 0,
            pow256(k) > 0,
            y == v / pow256(k),
    ;
    lemma_div_denominator(v, pow256(k), 256);
    assert(pow256(k + 1) == 256 * pow256(k));
    assert(pow256(k) * 256 == 256 * pow256(k)) by (nonlinear_arith);
    assert(y == 256 * (y / 256) + y % 256) by (nonlinear_arith);
}

/// Law: reading the eight bytes that `store_u64` wrote gives back the value
/// (what a relocation stores reads back as the relocated value).
pub proof fn lemma_read_back_written_u64(img: Seq<u8>, off: int, v: u64)
    requires
        0 <= off,
        off + 8 <= img.len(),
    ensures
        le_u64(write_u64(img, off, v as int), off) == v,
        forall|k: int|
            0 <= k < img.len() && !(off <= k < off + 8) ==> #[trigger] write_u64(img, off, v as int)[k]
                == img[k],
{
    let w = write_u64(img, off, v as int);
    let x = v as int;
    reveal_with_fuel(pow256, 9);
    lemma_digit(x, 0);
    lemma_digit(x, 1);
    lemma_digit(x, 2);
    lemma_digit(x, 3);
    lemma_digit(x, 4);
    lemma_digit(x, 5);
    lemma_digit(x, 6);
    lemma_digit(x, 7);
    assert(x / pow256(8) == 0);
    assert(pow256(0) == 1);
    lemma_div_basics(x);
    assert(x / pow256(0) == x);
    let b0 = byte_of(x, 0) as int;
    let b1 = byte_of(x, 1) as int;
    let b2 = byte_of(x, 2) as int;
    let b3 = byte_of(x, 3) as int;
    let b4 = byte_of(x, 4) as int;
    let b5 = byte_of(x, 5) as int;
    let b6 = byte_of(x, 6) as int;
    let b7 = byte_of(x, 7) as int;
    assert(x == b0 + 256 * b1 + 65536 * b2 + 16777216 * b3 + 4294967296 * b4 + 1099511627776 * b5
        + 281474976710656 * b6 + 72057594037927936 * b7);
    assert(w[off] == byte_of(x, 0));
    assert(w[off + 1] == byte_of(x, 1));
    assert(w[off + 2] == byte_of(x, 2));
    assert(w[off + 3] == byte_of(x, 3));
    assert(w[off + 4] == byte_of(x, 4));
    assert(w[off + 5] == byte_of(x, 5));
    assert(w[off + 6] == byte_of(x, 6));
    assert(w[off + 7] == byte_of(x, 7));
}

/// Law of loading a segment: afterwards the segment's memory holds the
/// file's bytes for its file size and zeroes for the rest of its memory
/// size (its zero-initialized data), and the rest of the image is as before.
pub proof fn lemma_loaded_segment_contents(
    img: Seq<u8>,
    data: Seq<u8>,
    offset: int,
    paddr: int,
    filesz: int,
    memsz: int,
    load_base: int,
)
    requires
        0 <= offset,
        0 <= paddr,
        0 <= filesz,
        load_segment(img, data, offset, paddr, filesz, memsz, load_base) is Some,
    ensures
        ({
            let out = load_segment(img, data, offset, paddr, filesz, memsz, load_base)->0;
            &&& out.len() == img.len()
            &&& forall|k: int| 0 <= k < filesz ==> #[trigger] out[paddr + k] == data[offset + k]
            &&& forall|k: int| filesz <= k < memsz ==> #[trigger] out[paddr + k] == 0u8
            &&& forall|k: int|
                0 <= k < img.len() && !(paddr <= k < paddr + filesz) && !(paddr + filesz <= k
                    < paddr + memsz) ==> #[trigger] out[k] == img[k]
        }),
{
}

/// Tag of entry `j` of the dynamic section at `base` of the image.
pub open spec fn dyn_tag(img: Seq<u8>, base: int, j: int) -> i64 {
    (le_u64(img, base + 16 * j) as u64) as i64
}

/// Value of entry `j` of the dynamic section at `base` of the image.
pub open spec fn dyn_value(img: Seq<u8>, base: int, j: int) -> u64 {
    le_u64(img, base + 16 * j + 8) as u64
}

/// Index of the first `DT_NULL` entry among entries `j` to `count - 1`,
/// or `count` when there is none.
pub open spec fn first_null_from(img: Seq<u8>, base: int, count: int, j: int) -> int
    decreases count - j,
{
    if j >= count {
        count
    } else if dyn_tag(img, base, j) == DT_NULL {
        j
    } else {
        first_null_from(img, base, count, j + 1)
    }
}

/// Value of the last entry with `tag` among entries `0` to `n - 1`, or 0
/// when none has it.
pub open spec fn last_tag_value(img: Seq<u8>, base: int, tag: i64, n: int) -> u64
    decreases n,
{
    if n <= 0 {
        0
    } else if dyn_tag(img, base, n - 1) == tag {
        dyn_value(img, base, n - 1)
    } else {
        last_tag_value(img, base, tag, n - 1)
    }
}

proof fn lemma_scan_dynamic_from(img: Seq<u8>, base: int, count: int, j: int)
    requires
        0 <= base,
        0 <= j <= count,
        base + 16 * count <= img.len(),
        forall|k: int| 0 <= k < j ==> dyn_tag(img, base, k) != DT_NULL,
    ensures
        ({
            let e = first_null_from(img, base, count, j);
            scan_dynamic(
                img,
                base,
                count,
                j,
                (
                    last_tag_value(img, base, DT_RELA, j),
                    last_tag_value(img, base, DT_RELASZ, j),
                    last_tag_value(img, base, DT_RELAENT, j),
                ),
            ) == Some(
                (
                    last_tag_value(img, base, DT_RELA, e),
                    last_tag_value(img, base, DT_RELASZ, e),
                    last_tag_value(img, base, DT_RELAENT, e),
                ),
            )
        }),
    decreases count - j,
{
    if j < count {
        assert(base + 16 * j + 16 <= base + 16 * count);
        if dyn_tag(img, base, j) != DT_NULL {
            lemma_scan_dynamic_from(img, base, count, j + 1);
        }
    }
}

/// Law of the dynamic section scan: the relocation table it finds holds,
/// for each of `DT_RELA`, `DT_RELASZ` and `DT_RELAENT`, the value of the
/// last entry with that tag before the first `DT_NULL` (or the section's
/// end), and 0 where there is none; entries with any other tag change
/// nothing and do not end the scan.
pub proof fn lemma_scan_dynamic_finds_last_tags(img: Seq<u8>, base: int, count: int)
    requires
        0 <= base,
        0 <= count,
        base + 16 * count <= img.len(),
    ensures
        ({
            let e = first_null_from(img, base, count, 0);
            scan_dynamic(img, base, count, 0, (0u64, 0u64, 0u64)) == Some(
                (
                    last_tag_value(img, base, DT_RELA, e),
                    last_tag_value(img, base, DT_RELASZ, e),
                    last_tag_value(img, base, DT_RELAENT, e),
                ),
            )
        }),
{
    lemma_scan_dynamic_from(img, base, count, 0);
}

/// Offset in the file of program header `i`.
pub open spec fn ph_offset(data: Seq<u8>, i: int) -> int {
    le_u64(data, 32) + i * le_u16(data, 54)
}

/// Program header `i` lies in the file and is neither a loadable nor a
/// dynamic segment.
pub open spec fn other_header(data: Seq<u8>, i: int) -> bool {
    &&& ph_offset(data, i) <= u64::MAX
    &&& ph_offset(data, i) + 56 <= data.len()
    &&& le_u32(data, ph_offset(data, i)) != PT_LOAD
    &&& le_u32(data, ph_offset(data, i)) != PT_DYNAMIC
}

/// Law of loading: a program header of another type (such as `PT_PHDR` or
/// `PT_INTERP`) changes nothing and does not end loading; loading goes on
/// with the next header, whether it succeeds or stops on a failure.
pub proof fn lemma_other_header_skipped(img: Seq<u8>, data: Seq<u8>, load_base: int, i: int)
    requires
        0 <= i < le_u16(data, 56),
        other_header(data, i),
    ensures
        load_from(img, data, load_base, i) == load_from(img, data, load_base, i + 1),
        load_progress_from(img, data, load_base, i) == load_progress_from(
            img,
            data,
            load_base,
            i + 1,
        ),
{
}

/// The image after processing program headers `0` to `i - 1`, or `None`
/// when one of them fails.
pub open spec fn loaded_upto(img: Seq<u8>, data: Seq<u8>, load_base: int, i: nat) -> Option<
    Seq<u8>,
>
    decreases i,
{
    if i == 0 {
        Some(img)
    } else {
        match loaded_upto(img, data, load_base, (i - 1) as nat) {
            None => None,
            Some(m) => {
                let ph = ph_offset(data, i - 1);
                if ph > u64::MAX || ph + 56 > data.len() {
                    None
                } else {
                    load_program_header(m, data, ph, load_base)
                }
            },
        }
    }
}

proof fn lemma_loaded_upto(img: Seq<u8>, data: Seq<u8>, load_base: int, i: nat)
    requires
        i <= le_u16(data, 56),
    ensures
        loaded_image(img, data, load_base) == match loaded_upto(img, data, load_base, i) {
            Some(m) => load_from(m, data, load_base, i as int),
            None => None,
        },
    decreases i,
{
    if i > 0 {
        lemma_loaded_upto(img, data, load_base, (i - 1) as nat);
    }
}

proof fn lemma_other_headers_to_end(m: Seq<u8>, data: Seq<u8>, load_base: int, i: int)
    requires
        0 <= i <= le_u16(data, 56),
        forall|k: int| i <= k < le_u16(data, 56) ==> #[trigger] other_header(data, k),
    ensures
        load_from(m, data, load_base, i) == Some(m),
    decreases le_u16(data, 56) - i,
{
    if i < le_u16(data, 56) {
        assert(other_header(data, i));
        lemma_other_headers_to_end(m, data, load_base, i + 1);
    }
}

/// Law of loading: when loading succeeds, a loadable segment that no later
/// header touches (every later header is of another type) holds its file
/// bytes at its physical address and zeros up to its memory size, whatever
/// headers come before it.
pub proof fn lemma_loaded_image_holds_segment(img: Seq<u8>, data: Seq<u8>, load_base: int, i: int)
    requires
        loaded_image(img, data, load_base) is Some,
        0 <= i < le_u16(data, 56),
        ph_offset(data, i) + 56 <= data.len(),
        le_u32(data, ph_offset(data, i)) == PT_LOAD,
        forall|k: int| i < k < le_u16(data, 56) ==> #[trigger] other_header(data, k),
    ensures
        ({
            let ph = ph_offset(data, i);
            let out = loaded_image(img, data, load_base)->0;
            let offset = le_u64(data, ph + 8);
            let paddr = le_u64(data, ph + 24);
            let filesz = le_u64(data, ph + 32);
            let memsz = le_u64(data, ph + 40);
            &&& forall|k: int| 0 <= k < filesz ==> #[trigger] out[paddr + k] == data[offset + k]
            &&& forall|k: int| filesz <= k < memsz ==> #[trigger] out[paddr + k] == 0u8
        }),
{
    let ph = ph_offset(data, i);
    lemma_loaded_upto(img, data, load_base, (i + 1) as nat);
    lemma_loaded_upto(img, data, load_base, i as nat);
    let m = loaded_upto(img, data, load_base, i as nat)->0;
    let next = loaded_upto(img, data, load_base, (i + 1) as nat)->0;
    lemma_other_headers_to_end(next, data, load_base, i + 1);
    assert(ph >= 0 && ph + 56 <= data.len()) by {
        assert(le_u64(data, 32) >= 0 && le_u16(data, 54) >= 0);
        assert(i * le_u16(data, 54) >= 0) by (nonlinear_arith)
            requires
                i >= 0,
                le_u16(data, 54) >= 0,
        ;
    }
    lemma_le_bounds(data, ph + 8);
    lemma_le_bounds(data, ph + 24);
    lemma_le_bounds(data, ph + 32);
    lemma_loaded_segment_contents(
        m,
        data,
        le_u64(data, ph + 8),
        le_u64(data, ph + 24),
        le_u64(data, ph + 32),
        le_u64(data, ph + 40),
        load_base,
    );
}

/// Law of `R_X86_64_RELATIVE`: the value stored is the load base plus the
/// signed addend, taken modulo 2^64 (a 64-bit value that differs from the
/// exact sum by a multiple of 2^64).
pub proof fn lemma_relative_value_is_sum(load_base: int, addend: int)
    ensures
        0 <= relative_value(load_base, addend) < 0x1_0000_0000_0000_0000,
        (load_base + addend - relative_value(load_base, addend)) % 0x1_0000_0000_0000_0000 == 0,
        0 <= load_base + addend < 0x1_0000_0000_0000_0000 ==> relative_value(load_base, addend)
            == load_base + addend,
{
    let m = 0x1_0000_0000_0000_0000int;
    let s = load_base + addend;
    vstd::arithmetic::div_mod::lemma_fundamental_div_mod(s, m);
    vstd::arithmetic::div_mod::lemma_mod_multiples_basic(s / m, m);
    assert(s - s % m == (s / m) * m) by (nonlinear_arith)
        requires
            s == m * (s / m) + s % m,
    ;
    if 0 <= s < m {
        vstd::arithmetic::div_mod::lemma_small_mod(s as nat, m as nat);
    }
}

/// Law of relocation: an entry whose type is not `R_X86_64_RELATIVE`
/// changes nothing and does not end the table; processing goes on with the
/// next entry.
pub proof fn lemma_relocation_skips_other_types(
    img: Seq<u8>,
    load_base: int,
    rela: int,
    ent: int,
    count: int,
    j: int,
)
    requires
        0 <= j < count,
        load_base + rela + j * ent <= u64::MAX,
        rela + j * ent + 24 <= img.len(),
        le_u64(img, rela + j * ent + 8) % 256 != R_X86_64_RELATIVE,
    ensures
        apply_relocations(img, load_base, rela, ent, count, j) == apply_relocations(
            img,
            load_base,
            rela,
            ent,
            count,
            j + 1,
        ),
        relocations_applied(img, load_base, rela, ent, count, j) == relocations_applied(
            img,
            load_base,
            rela,
            ent,
            count,
            j + 1,
        ),
{
}

/// Law of relocation: an `R_X86_64_RELATIVE` entry whose target lies in the
/// image stores the load base plus its signed addend (modulo 2^64) at its
/// offset, reading back as that 64-bit value with every other byte as it
/// was, and processing goes on with the next entry on that image.
pub proof fn lemma_relocation_stores_value(
    img: Seq<u8>,
    load_base: int,
    rela: int,
    ent: int,
    count: int,
    j: int,
)
    requires
        0 <= j < count,
        0 <= load_base,
        load_base + rela + j * ent <= u64::MAX,
        0 <= rela + j * ent,
        rela + j * ent + 24 <= img.len(),
        le_u64(img, rela + j * ent + 8) % 256 == R_X86_64_RELATIVE,
        load_base + le_u64(img, rela + j * ent) <= u64::MAX,
        le_u64(img, rela + j * ent) + 8 <= img.len(),
    ensures
        ({
            let off = rela + j * ent;
            let target = le_u64(img, off);
            let v = relative_value(load_base, ((le_u64(img, off + 16) as u64) as i64) as int);
            let out = write_u64(img, target, v);
            &&& apply_relocations(img, load_base, rela, ent, count, j) == apply_relocations(
                out,
                load_base,
                rela,
                ent,
                count,
                j + 1,
            )
            &&& le_u64(out, target) == v
            &&& forall|k: int|
                0 <= k < img.len() && !(target <= k < target + 8) ==> #[trigger] out[k] == img[k]
        }),
{
    let off = rela + j * ent;
    lemma_le_bounds(img, off);
    let target = le_u64(img, off);
    let v = relative_value(load_base, ((le_u64(img, off + 16) as u64) as i64) as int);
    lemma_relative_value_is_sum(load_base, ((le_u64(img, off + 16) as u64) as i64) as int);
    lemma_read_back_written_u64(img, target, v as u64);
}

} // verus!
