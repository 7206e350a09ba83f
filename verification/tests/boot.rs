use asteria::idt::{exception_name, IdtEntry, INTERRUPT_GATE, KERNEL_CODE_SELECTOR};
use asteria::parser::{load_elf, ELF64Header, ELF64ProgramHeader, ELF64Rela};
use asteria::uefi::{
    kernel_buffer_pages, AllocateType, BackgroundColors, ForegroundColors, MemoryType,
};

fn put_u16(buf: &mut [u8], off: usize, v: u16) {
    buf[off..off + 2].copy_from_slice(&v.to_le_bytes());
}

fn put_u32(buf: &mut [u8], off: usize, v: u32) {
    buf[off..off + 4].copy_from_slice(&v.to_le_bytes());
}

fn put_u64(buf: &mut [u8], off: usize, v: u64) {
    buf[off..off + 8].copy_from_slice(&v.to_le_bytes());
}

/// An ELF64 shared object with one loadable segment (file bytes 0x100 to
/// 0x180, loaded at image offset 0 with 0x100 bytes of memory) and a dynamic
/// segment at image offset 0x20 whose relocation table, at image offset
/// 0x60, holds one relative relocation that patches image offset 0x90.
fn sample_elf() -> Vec<u8> {
    let mut f = vec![0u8; 0x180];
    f[0..4].copy_from_slice(&[0x7f, b'E', b'L', b'F']);
    f[4] = 2;
    f[5] = 1;
    f[6] = 1;
    put_u16(&mut f, 16, 3);
    put_u16(&mut f, 18, 0x3e);
    put_u32(&mut f, 20, 1);
    put_u64(&mut f, 24, 0x10);
    put_u64(&mut f, 32, 64);
    put_u16(&mut f, 52, 64);
    put_u16(&mut f, 54, 56);
    put_u16(&mut f, 56, 2);
    // Program header 0: PT_LOAD.
    put_u32(&mut f, 64, 1);
    put_u64(&mut f, 64 + 8, 0x100);
    put_u64(&mut f, 64 + 16, 0);
    put_u64(&mut f, 64 + 24, 0);
    put_u64(&mut f, 64 + 32, 0x80);
    put_u64(&mut f, 64 + 40, 0x100);
    // Program header 1: PT_DYNAMIC.
    put_u32(&mut f, 120, 2);
    put_u64(&mut f, 120 + 8, 0x120);
    put_u64(&mut f, 120 + 16, 0x20);
    put_u64(&mut f, 120 + 24, 0x20);
    put_u64(&mut f, 120 + 32, 0x40);
    put_u64(&mut f, 120 + 40, 0x40);
    // Code bytes.
    for i in 0..0x20 {
        f[0x100 + i] = 0x90;
    }
    // Dynamic entries: DT_RELA, DT_RELASZ, DT_RELAENT, DT_NULL.
    put_u64(&mut f, 0x120, 7);
    put_u64(&mut f, 0x128, 0x60);
    put_u64(&mut f, 0x130, 8);
    put_u64(&mut f, 0x138, 24);
    put_u64(&mut f, 0x140, 9);
    put_u64(&mut f, 0x148, 24);
    put_u64(&mut f, 0x150, 0);
    // The relocation: R_X86_64_RELATIVE at 0x90 with addend 0x1234.
    put_u64(&mut f, 0x160, 0x90);
    put_u64(&mut f, 0x168, 8);
    put_u64(&mut f, 0x170, 0x1234);
    f
}

#[test]
fn header_parse_reads_fields() {
    let f = sample_elf();
    let h = ELF64Header::parse(&f);
    assert_eq!(h.e_ident[0], 0x7f);
    assert_eq!(h.e_type, 3);
    assert_eq!(h.e_machine, 0x3e);
    assert_eq!(h.e_version, 1);
    assert_eq!(h.e_entry, 0x10);
    assert_eq!(h.e_phoff, 64);
    assert_eq!(h.e_phentsize, 56);
    assert_eq!(h.e_phnum, 2);
}

#[test]
fn program_header_parse_reads_fields() {
    let f = sample_elf();
    let ph = ELF64ProgramHeader::parse(&f, 120);
    assert_eq!(ph.p_type, 2);
    assert_eq!(ph.p_offset, 0x120);
    assert_eq!(ph.p_vaddr, 0x20);
    assert_eq!(ph.p_paddr, 0x20);
    assert_eq!(ph.p_filesz, 0x40);
    assert_eq!(ph.p_memsz, 0x40);
}

#[test]
fn rela_parse_reads_signed_addend() {
    let mut b = vec![0u8; 24];
    put_u64(&mut b, 0, 0x1000);
    put_u64(&mut b, 8, 0x1_0000_0008);
    put_u64(&mut b, 16, (-16i64) as u64);
    let r = ELF64Rela::parse(&b, 0);
    assert_eq!(r.r_offset, 0x1000);
    assert_eq!(r.r_info, 0x1_0000_0008);
    assert_eq!(r.r_addend, -16);
}

#[test]
fn load_elf_copies_zeroes_and_relocates() {
    let f = sample_elf();
    let mut image = vec![0xaau8; 0x200];
    let entry = load_elf(&f, 0x20_0000, &mut image);
    assert_eq!(entry, Some(0x20_0010));
    assert_eq!(&image[0..0x20], &[0x90u8; 0x20][..]);
    // The relocated slot holds load_base + addend.
    assert_eq!(
        u64::from_le_bytes(image[0x90..0x98].try_into().unwrap()),
        0x20_1234
    );
    // Zero-initialized memory between file size and memory size.
    assert!(image[0x98..0x100].iter().all(|&b| b == 0));
    assert!(image[0x80..0x90].iter().all(|&b| b == 0));
    assert_eq!(&image[0x20..0x80], &f[0x120..0x180]);
    // Past the segment the image is untouched.
    assert!(image[0x100..].iter().all(|&b| b == 0xaa));
}

#[test]
fn load_elf_rejects_bad_magic() {
    let mut f = sample_elf();
    f[1] = b'X';
    let mut image = vec![0xaau8; 0x200];
    assert_eq!(load_elf(&f, 0x20_0000, &mut image), None);
    assert!(image.iter().all(|&b| b == 0xaa));
}

#[test]
fn load_elf_rejects_32_bit_big_endian_old_version_and_relocatable() {
    let mut image = vec![0u8; 0x200];
    let mut f = sample_elf();
    f[4] = 1;
    assert_eq!(load_elf(&f, 0, &mut image), None);
    let mut f = sample_elf();
    f[5] = 2;
    assert_eq!(load_elf(&f, 0, &mut image), None);
    let mut f = sample_elf();
    f[6] = 0;
    assert_eq!(load_elf(&f, 0, &mut image), None);
    let mut f = sample_elf();
    put_u16(&mut f, 16, 1);
    assert_eq!(load_elf(&f, 0, &mut image), None);
}

#[test]
fn load_elf_accepts_executable_without_segments() {
    let mut f = sample_elf();
    put_u16(&mut f, 16, 2);
    put_u16(&mut f, 56, 0);
    let mut image = vec![0x11u8; 16];
    assert_eq!(load_elf(&f, 0x1000, &mut image), Some(0x1010));
    assert!(image.iter().all(|&b| b == 0x11));
}

#[test]
fn load_elf_skips_other_relocation_types() {
    let mut f = sample_elf();
    put_u64(&mut f, 0x168, 0x0000_0001_0000_0001);
    let mut image = vec![0u8; 0x200];
    assert_eq!(load_elf(&f, 0x20_0000, &mut image), Some(0x20_0010));
    assert_eq!(
        u64::from_le_bytes(image[0x90..0x98].try_into().unwrap()),
        0
    );
}

#[test]
fn load_elf_applies_negative_addend() {
    let mut f = sample_elf();
    put_u64(&mut f, 0x170, (-0x10i64) as u64);
    let mut image = vec![0u8; 0x200];
    assert_eq!(load_elf(&f, 0x20_0000, &mut image), Some(0x20_0010));
    assert_eq!(
        u64::from_le_bytes(image[0x90..0x98].try_into().unwrap()),
        0x1f_fff0
    );
}

#[test]
fn load_elf_relocation_wraps_modulo_two_to_the_64() {
    let mut f = sample_elf();
    put_u64(&mut f, 0x170, (-0x30_0000i64) as u64);
    let mut image = vec![0u8; 0x200];
    assert_eq!(load_elf(&f, 0x20_0000, &mut image), Some(0x20_0010));
    assert_eq!(
        u64::from_le_bytes(image[0x90..0x98].try_into().unwrap()),
        0u64.wrapping_sub(0x10_0000)
    );
}

#[test]
fn load_elf_rejects_short_file() {
    let f = sample_elf();
    let mut image = vec![0x55u8; 0x200];
    assert_eq!(load_elf(&f[..63], 0, &mut image), None);
    assert!(image.iter().all(|&b| b == 0x55));
}

#[test]
fn load_elf_rejects_entry_overflow() {
    let mut f = sample_elf();
    put_u64(&mut f, 24, u64::MAX);
    let mut image = vec![0x55u8; 0x200];
    assert_eq!(load_elf(&f, 0x1000, &mut image), None);
    assert!(image.iter().all(|&b| b == 0x55));
}

#[test]
fn load_elf_rejects_segment_past_image() {
    let f = sample_elf();
    let mut image = vec![0u8; 0x80];
    assert_eq!(load_elf(&f, 0x20_0000, &mut image), None);
}

#[test]
fn load_elf_rejects_relocation_past_image() {
    let mut f = sample_elf();
    put_u64(&mut f, 0x160, 0x1f9);
    let mut image = vec![0u8; 0x200];
    assert_eq!(load_elf(&f, 0x20_0000, &mut image), None);
    // The loadable segment before the dynamic one was loaded.
    assert_eq!(&image[0..0x20], &[0x90u8; 0x20][..]);
}

#[test]
fn interrupt_gate_splits_handler_address() {
    let e = IdtEntry::interrupt_gate(0x1122_3344_5566_7788);
    assert_eq!(e.offset_low, 0x7788);
    assert_eq!(e.offset_mid, 0x5566);
    assert_eq!(e.offset_high, 0x1122_3344);
    assert_eq!(e.selector, KERNEL_CODE_SELECTOR);
    assert_eq!(e.selector, 0x08);
    assert_eq!(e.attributes, INTERRUPT_GATE);
    assert_eq!(e.attributes, 0x8e);
    assert_eq!(e.ist_offset, 0);
    assert_eq!(e.reserved, 0);
}

#[test]
fn exception_names() {
    assert_eq!(exception_name(0), "Divide-by-zero");
    assert_eq!(exception_name(6), "Invalid opcode");
    assert_eq!(exception_name(8), "Double fault");
    assert_eq!(exception_name(13), "General protection fault");
    assert_eq!(exception_name(14), "Page fault");
    assert_eq!(exception_name(3), "Unknown exception");
    assert_eq!(exception_name(u64::MAX), "Unknown exception");
}

#[test]
fn uefi_values() {
    assert_eq!(AllocateType::AllocateAnyPages.value(), 0);
    assert_eq!(AllocateType::MaxAllocateType.value(), 3);
    assert_eq!(MemoryType::EfiLoaderData.value(), 2);
    assert_eq!(MemoryType::EfiConventionalMemory.value(), 7);
    assert_eq!(MemoryType::EfiMaxMemoryType.value(), 16);
    assert_eq!(ForegroundColors::Yellow.value(), 0x0e);
    assert_eq!(BackgroundColors::Blue.value(), 0x10);
    let attr = ForegroundColors::White.value() | BackgroundColors::Red.value();
    assert_eq!(attr, 0x4f);
    assert_eq!(attr & 0x0f, ForegroundColors::White.value());
    assert_eq!(attr & 0xf0, BackgroundColors::Red.value());
}

#[test]
fn kernel_buffer_pages_round_up() {
    assert_eq!(kernel_buffer_pages(0), (0, 16));
    assert_eq!(kernel_buffer_pages(1), (1, 17));
    assert_eq!(kernel_buffer_pages(4096), (1, 17));
    assert_eq!(kernel_buffer_pages(4097), (2, 18));
}

#[test]
fn load_elf_failing_relocation_keeps_earlier_ones() {
    let mut f = sample_elf();
    f.resize(0x1a0, 0);
    // The loadable segment now also carries a second relocation entry.
    put_u64(&mut f, 64 + 32, 0x98);
    put_u64(&mut f, 0x138, 48);
    put_u64(&mut f, 0x178, 0x1f9);
    put_u64(&mut f, 0x180, 8);
    put_u64(&mut f, 0x188, 0);
    let mut image = vec![0u8; 0x200];
    assert_eq!(load_elf(&f, 0x20_0000, &mut image), None);
    // The first relocation was applied before the second one failed.
    assert_eq!(
        u64::from_le_bytes(image[0x90..0x98].try_into().unwrap()),
        0x20_1234
    );
    assert!(image[0x1f9..].iter().all(|&b| b == 0));
}
