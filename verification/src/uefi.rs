use vstd::prelude::*;

verus! {

/// Header at the start of each UEFI table.
pub struct EfiTableHeader {
    pub signature: u64,
    pub revision: u32,
    pub header_size: u32,
    pub crc32: u32,
    pub reserved: u32,
}

/// A UEFI GUID.
pub struct EfiGuid {
    pub data1: u32,
    pub data2: u16,
    pub data3: u16,
    pub data4: [u8; 8],
}

/// One entry of the memory map `GetMemoryMap` returns to the bootloader.
pub struct EfiMemoryDescriptor {
    pub typ: u32,
    pub physical_start: u64,
    pub virtual_start: u64,
    pub number_of_pages: u64,
    pub attribute: u64,
}

/// How `AllocatePages` chooses the pages.
pub enum AllocateType {
    AllocateAnyPages,
    AllocateMaxAddress,
    AllocateAddress,
    MaxAllocateType,
}

impl AllocateType {
    /// The value the firmware expects for this allocation type.
    pub fn value(&self) -> (r: usize)
        ensures
            r == match self {
                AllocateType::AllocateAnyPages => 0usize,
                AllocateType::AllocateMaxAddress => 1,
                AllocateType::AllocateAddress => 2,
                AllocateType::MaxAllocateType => 3,
            },
    {
        match self {
            AllocateType::AllocateAnyPages => 0,
            AllocateType::AllocateMaxAddress => 1,
            AllocateType::AllocateAddress => 2,
            AllocateType::MaxAllocateType => 3,
        }
    }
}

/// Types of memory in the UEFI memory map.
pub enum MemoryType {
    EfiReservedMemoryType,
    EfiLoaderCode,
    EfiLoaderData,
    EfiBootServicesCode,
    EfiBootServicesData,
    EfiConventionalMemory,
    EfiUnusableMemory,
    EfiACPIReclaimMemory,
    EfiAPCIMemoryNVS,
    EfiMemoryMappedIO,
    EfiMemoryMappedIOPortSpace,
    EfiPalCode,
    EfiPersistentMemory,
    EfiUnacceptedMemoryType,
    EfiMaxMemoryType,
}

/// The firmware's number for a memory type.
pub open spec fn memory_type_value(t: MemoryType) -> usize {
    match t {
        MemoryType::EfiReservedMemoryType => 0,
        MemoryType::EfiLoaderCode => 1,
        MemoryType::EfiLoaderData => 2,
        MemoryType::EfiBootServicesCode => 3,
        MemoryType::EfiBootServicesData => 4,
        MemoryType::EfiConventionalMemory => 7,
        MemoryType::EfiUnusableMemory => 8,
        MemoryType::EfiACPIReclaimMemory => 9,
        MemoryType::EfiAPCIMemoryNVS => 10,
        MemoryType::EfiMemoryMappedIO => 11,
        MemoryType::EfiMemoryMappedIOPortSpace => 12,
        MemoryType::EfiPalCode => 13,
        MemoryType::EfiPersistentMemory => 14,
        MemoryType::EfiUnacceptedMemoryType => 15,
        MemoryType::EfiMaxMemoryType => 16,
    }
}

impl MemoryType {
    /// The firmware's number for this memory type.
    pub fn value(&self) -> (r: usize)
        ensures
            r == memory_type_value(*self),
    {
        match self {
            MemoryType::EfiReservedMemoryType => 0,
            MemoryType::EfiLoaderCode => 1,
            MemoryType::EfiLoaderData => 2,
            MemoryType::EfiBootServicesCode => 3,
            MemoryType::EfiBootServicesData => 4,
            MemoryType::EfiConventionalMemory => 7,
            MemoryType::EfiUnusableMemory => 8,
            MemoryType::EfiACPIReclaimMemory => 9,
            MemoryType::EfiAPCIMemoryNVS => 10,
            MemoryType::EfiMemoryMappedIO => 11,
            MemoryType::EfiMemoryMappedIOPortSpace => 12,
            MemoryType::EfiPalCode => 13,
            MemoryType::EfiPersistentMemory => 14,
            MemoryType::EfiUnacceptedMemoryType => 15,
            MemoryType::EfiMaxMemoryType => 16,
        }
    }
}

/// Foreground colors of the text console.
pub enum ForegroundColors {
    Black,
    Blue,
    Green,
    Cyan,
    Red,
    Magenta,
    Brown,
    LightGray,
    DarkGray,
    LightBlue,
    LightGreen,
    LightCyan,
    LightRed,
    LightMagenta,
    Yellow,
    White,
}

/// Attribute bits of a foreground color (the low four bits).
pub open spec fn foreground_value(c: ForegroundColors) -> usize {
    match c {
        ForegroundColors::Black => 0x00,
        ForegroundColors::Blue => 0x01,
        ForegroundColors::Green => 0x02,
        ForegroundColors::Cyan => 0x03,
        ForegroundColors::Red => 0x04,
        ForegroundColors::Magenta => 0x05,
        ForegroundColors::Brown => 0x06,
        ForegroundColors::LightGray => 0x07,
        ForegroundColors::DarkGray => 0x08,
        ForegroundColors::LightBlue => 0x09,
        ForegroundColors::LightGreen => 0x0a,
        ForegroundColors::LightCyan => 0x0b,
        ForegroundColors::LightRed => 0x0c,
        ForegroundColors::LightMagenta => 0x0d,
        ForegroundColors::Yellow => 0x0e,
        ForegroundColors::White => 0x0f,
    }
}

impl ForegroundColors {
    /// The attribute bits of this foreground color.
    pub fn value(&self) -> (r: usize)
        ensures
            r == foreground_value(*self),
    {
        match self {
            ForegroundColors::Black => 0x00,
            ForegroundColors::Blue => 0x01,
            ForegroundColors::Green => 0x02,
            ForegroundColors::Cyan => 0x03,
            ForegroundColors::Red => 0x04,
            ForegroundColors::Magenta => 0x05,
            ForegroundColors::Brown => 0x06,
            ForegroundColors::LightGray => 0x07,
            ForegroundColors::DarkGray => 0x08,
            ForegroundColors::LightBlue => 0x09,
            ForegroundColors::LightGreen => 0x0a,
            ForegroundColors::LightCyan => 0x0b,
            ForegroundColors::LightRed => 0x0c,
            ForegroundColors::LightMagenta => 0x0d,
            ForegroundColors::Yellow => 0x0e,
            ForegroundColors::White => 0x0f,
        }
    }
}

/// Background colors of the text console.
pub enum BackgroundColors {
    Black,
    Blue,
    Green,
    Cyan,
    Red,
    Magenta,
    Brown,
    LightGray,
}

/// Attribute bits of a background color (the upper four bits).
pub open spec fn background_value(c: BackgroundColors) -> usize {
    match c {
        BackgroundColors::Black => 0x00,
        BackgroundColors::Blue => 0x10,
        BackgroundColors::Green => 0x20,
        BackgroundColors::Cyan => 0x30,
        BackgroundColors::Red => 0x40,
        BackgroundColors::Magenta => 0x50,
        BackgroundColors::Brown => 0x60,
        BackgroundColors::LightGray => 0x70,
    }
}

impl BackgroundColors {
    /// The attribute bits of this background color.
    pub fn value(&self) -> (r: usize)
        ensures
            r == background_value(*self),
    {
        match self {
            BackgroundColors::Black => 0x00,
            BackgroundColors::Blue => 0x10,
            BackgroundColors::Green => 0x20,
            BackgroundColors::Cyan => 0x30,
            BackgroundColors::Red => 0x40,
            BackgroundColors::Magenta => 0x50,
            BackgroundColors::Brown => 0x60,
            BackgroundColors::LightGray => 0x70,
        }
    }
}

/// Law of console colors: a foreground color lies in the low four bits of
/// an attribute and a background color in the upper four, so the two
/// combine without overlap and each can be read back from the combination.
pub proof fn lemma_colors_combine(fg: ForegroundColors, bg: BackgroundColors)
    ensures
        foreground_value(fg) < 16,
        background_value(bg) % 16 == 0,
        background_value(bg) < 256,
        (foreground_value(fg) + background_value(bg)) % 16 == foreground_value(fg),
        (foreground_value(fg) + background_value(bg)) / 16 * 16 == background_value(bg),
{
}

/// Pages of the buffer that receives the kernel file, and of the buffer the
/// kernel is loaded into: the file's size rounded up to whole pages, and 16
/// pages more for its zero-initialized data (stack, BSS).
pub fn kernel_buffer_pages(file_size: u64) -> (r: (u64, u64))
    requires
        file_size + 0xfff + 16 * 0x1000 <= u64::MAX,
    ensures
        r.0 == (file_size + 0xfff) / 0x1000,
        r.0 * 0x1000 >= file_size,
        r.0 * 0x1000 < file_size + 0x1000,
        r.1 == r.0 + 16,
{
    let pages = (file_size + 0xfff) / 0x1000;
    (pages, pages + 16)
}

} // verus!
