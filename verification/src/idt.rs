use vstd::prelude::*;

verus! {

/// Selector of the kernel code segment in the GDT.
pub const KERNEL_CODE_SELECTOR: u16 = 0x08;

/// Gate attributes: present, privilege level 0, 64-bit interrupt gate.
pub const INTERRUPT_GATE: u8 = 0x8e;

/// One 16-byte entry of the interrupt descriptor table.
pub struct IdtEntry {
    pub offset_low: u16,
    pub selector: u16,
    pub ist_offset: u8,
    pub attributes: u8,
    pub offset_mid: u16,
    pub offset_high: u32,
    pub reserved: u32,
}

impl IdtEntry {
    /// The handler address an entry holds, split over its three offset fields.
    pub open spec fn handler_address(self) -> int {
        self.offset_low + self.offset_mid * 0x1_0000 + self.offset_high * 0x1_0000_0000
    }

    /// The interrupt gate for the handler at `handler`: its address split
    /// into the low 16, middle 16 and high 32 bits, the kernel code
    /// selector, no interrupt stack, and present ring-0 interrupt-gate
    /// attributes.
    pub fn interrupt_gate(handler: u64) -> (r: Self)
        ensures
            r.offset_low == handler % 0x1_0000,
            r.offset_mid == (handler / 0x1_0000) % 0x1_0000,
            r.offset_high == handler / 0x1_0000_0000,
            r.selector == KERNEL_CODE_SELECTOR,
            r.ist_offset == 0,
            r.attributes == INTERRUPT_GATE,
            r.reserved == 0,
    {
        proof {
            assert((handler as u16) == handler % 0x1_0000) by (bit_vector);
            assert(((handler >> 16u64) as u16) == (handler / 0x1_0000) % 0x1_0000) by (bit_vector);
            assert(((handler >> 32u64) as u32) == handler / 0x1_0000_0000) by (bit_vector);
        }
        IdtEntry {
            offset_low: handler as u16,
            selector: KERNEL_CODE_SELECTOR,
            ist_offset: 0,
            attributes: INTERRUPT_GATE,
            offset_mid: (handler >> 16) as u16,
            offset_high: (handler >> 32) as u32,
            reserved: 0,
        }
    }
}

/// Law of IDT entries: the entry made for a handler holds its whole
/// address; low, middle and high offsets combined give the handler's address.
pub proof fn lemma_gate_holds_handler(handler: u64, entry: IdtEntry)
    requires
        entry.offset_low == handler % 0x1_0000,
        entry.offset_mid == (handler / 0x1_0000) % 0x1_0000,
        entry.offset_high == handler / 0x1_0000_0000,
    ensures
        entry.handler_address() == handler,
{
    let h = handler as int;
    assert(h == h % 0x1_0000 + (h / 0x1_0000) * 0x1_0000);
    assert(h / 0x1_0000 == (h / 0x1_0000) % 0x1_0000 + (h / 0x1_0000 / 0x1_0000) * 0x1_0000);
    assert(h / 0x1_0000 / 0x1_0000 == h / 0x1_0000_0000);
}

/// Name of the CPU exception with the given vector, for the ones the kernel
/// installs handlers for.
pub fn exception_name(vector: u64) -> (r: &'static str)
    ensures
        vector == 0 ==> r@ == "Divide-by-zero"@,
        vector == 6 ==> r@ == "Invalid opcode"@,
        vector == 8 ==> r@ == "Double fault"@,
        vector == 13 ==> r@ == "General protection fault"@,
        vector == 14 ==> r@ == "Page fault"@,
        vector != 0 && vector != 6 && vector != 8 && vector != 13 && vector != 14 ==> r@
            == "Unknown exception"@,
{
    match vector {
        0 => "Divide-by-zero",
        6 => "Invalid opcode",
        8 => "Double fault",
        13 => "General protection fault",
        14 => "Page fault",
        _ => "Unknown exception",
    }
}

} // verus!
