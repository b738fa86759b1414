//! Interrupt descriptors and the registers saved on an interrupt.
use crate::common::Privilege;
use vstd::prelude::*;

verus! {

/// Number of entries of the interrupt descriptor table.
pub const IDT_LEN: usize = 256;

/// The kernel code segment selector.
pub const KERNEL_CS: u16 = 8;

/// The kind of a gate.
#[derive(Debug, Clone, Copy, PartialEq, Eq, Structural)]
pub enum GateTyp {
    Intrpt,
    Trap,
}

impl GateTyp {
    /// Bits 8 to 11 of a descriptor's attributes for this kind of gate.
    pub open spec fn num(self) -> u16 {
        match self {
            GateTyp::Intrpt => 0b1110,
            GateTyp::Trap => 0b1111,
        }
    }
}

/// An interrupt descriptor.
#[derive(Debug, Clone, Copy, PartialEq, Eq, Structural)]
pub struct InterruptDesc {
    pub low_low_offset: u16,
    pub segment_selector: u16,
    pub attributes: u16,
    pub high_low_offset: u16,
    pub high_offset: u32,
    pub reserved: u32,
}

impl InterruptDesc {
    /// A gate to the handler at `addr`: its address split in three, the
    /// kernel code segment, and the attributes type in bits 8-11, privilege
    /// in bits 13-14, present in bit 15.
    pub fn new(addr: u64, typ: GateTyp, dpl: Privilege) -> (r: Self)
        ensures
            r.low_low_offset == (addr & 0xFFFF) as u16,
            r.high_low_offset == ((addr >> 16u64) & 0xFFFF) as u16,
            r.high_offset == (addr >> 32u64) as u32,
            r.low_low_offset as int + r.high_low_offset as int * 0x1_0000 + r.high_offset as int
                * 0x1_0000_0000 == addr,
            r.segment_selector == KERNEL_CS,
            r.attributes == typ.num() * 0x100 + (if dpl == Privilege::User {
                3int
            } else {
                0int
            }) * 0x2000 + 0x8000,
            r.reserved == 0,
    {
        let low_low_offset = (addr & 0xFFFF) as u16;
        let high_low_offset = ((addr >> 16u64) & 0xFFFF) as u16;
        let high_offset = (addr >> 32u64) as u32;
        proof {
            assert((addr & 0xFFFF) + ((addr >> 16u64) & 0xFFFF) * 0x1_0000 + (addr >> 32u64)
                * 0x1_0000_0000 == addr) by (bit_vector);
            assert((addr & 0xFFFF) < 0x1_0000 && ((addr >> 16u64) & 0xFFFF) < 0x1_0000 && (addr
                >> 32u64) < 0x1_0000_0000) by (bit_vector);
        }
        let t: u16 = match typ {
            GateTyp::Intrpt => 0b1110,
            GateTyp::Trap => 0b1111,
        };
        let d: u16 = dpl.ring() as u16;
        let attributes = t * 0x100 + d * 0x2000 + 0x8000;
        InterruptDesc {
            low_low_offset,
            segment_selector: KERNEL_CS,
            attributes,
            high_low_offset,
            high_offset,
            reserved: 0,
        }
    }

    /// A trap gate for an exception handler.
    pub fn exn(addr: u64) -> (r: Self)
        ensures
            r == Self::spec_new(addr, GateTyp::Trap),
    {
        Self::new(addr, GateTyp::Trap, Privilege::Kernel)
    }

    /// An interrupt gate for an interrupt handler.
    pub fn irq(addr: u64) -> (r: Self)
        ensures
            r == Self::spec_new(addr, GateTyp::Intrpt),
    {
        Self::new(addr, GateTyp::Intrpt, Privilege::Kernel)
    }

    /// The kernel gate of type `typ` to `addr`.
    pub open spec fn spec_new(addr: u64, typ: GateTyp) -> Self {
        InterruptDesc {
            low_low_offset: (addr & 0xFFFF) as u16,
            segment_selector: KERNEL_CS,
            attributes: (typ.num() * 0x100 + 0x8000) as u16,
            high_low_offset: ((addr >> 16u64) & 0xFFFF) as u16,
            high_offset: (addr >> 32u64) as u32,
            reserved: 0,
        }
    }

    /// The empty descriptor.
    pub fn null() -> (r: Self)
        ensures
            r == (InterruptDesc {
                low_low_offset: 0,
                segment_selector: 0,
                attributes: 0,
                high_low_offset: 0,
                high_offset: 0,
                reserved: 0,
            }),
    {
        InterruptDesc {
            low_low_offset: 0,
            segment_selector: 0,
            attributes: 0,
            high_low_offset: 0,
            high_offset: 0,
            reserved: 0,
        }
    }
}

/// Installs the exception handlers of vectors 0 to 21 (those whose handler
/// address in `isr_table` is not zero) as trap gates.
pub fn init_exn_handlers(idt: &mut Vec<InterruptDesc>, isr_table: &Vec<u64>)
    requires
        old(idt)@.len() == IDT_LEN,
        isr_table@.len() == IDT_LEN,
    ensures
        final(idt)@.len() == IDT_LEN,
        forall|i: int|
            0 <= i < IDT_LEN ==> #[trigger] final(idt)@[i] == if i <= 21 && isr_table@[i] != 0 {
                InterruptDesc::spec_new(isr_table@[i], GateTyp::Trap)
            } else {
                old(idt)@[i]
            },
{
    let mut i: usize = 0;
    while i <= 21
        invariant
            idt@.len() == IDT_LEN,
            isr_table@.len() == IDT_LEN,
            i <= 22,
            forall|k: int|
                0 <= k < IDT_LEN ==> #[trigger] idt@[k] == if k < i && isr_table@[k] != 0 {
                    InterruptDesc::spec_new(isr_table@[k], GateTyp::Trap)
                } else {
                    old(idt)@[k]
                },
        decreases 22 - i,
    {
        let addr = isr_table[i];
        if addr != 0 {
            idt.set(i, InterruptDesc::exn(addr));
        }
        i = i + 1;
    }
}

/// Installs the interrupt handlers of vectors 32 to 47 (those whose handler
/// address in `isr_table` is not zero) as interrupt gates.
pub fn init_irq_handlers(idt: &mut Vec<InterruptDesc>, isr_table: &Vec<u64>)
    requires
        old(idt)@.len() == IDT_LEN,
        isr_table@.len() == IDT_LEN,
    ensures
        final(idt)@.len() == IDT_LEN,
        forall|i: int|
            0 <= i < IDT_LEN ==> #[trigger] final(idt)@[i] == if 32 <= i <= 47 && isr_table@[i]
                != 0 {
                InterruptDesc::spec_new(isr_table@[i], GateTyp::Intrpt)
            } else {
                old(idt)@[i]
            },
{
    let mut i: usize = 32;
    while i <= 47
        invariant
            idt@.len() == IDT_LEN,
            isr_table@.len() == IDT_LEN,
            32 <= i <= 48,
            forall|k: int|
                0 <= k < IDT_LEN ==> #[trigger] idt@[k] == if 32 <= k < i && isr_table@[k] != 0 {
                    InterruptDesc::spec_new(isr_table@[k], GateTyp::Intrpt)
                } else {
                    old(idt)@[k]
                },
        decreases 48 - i,
    {
        let addr = isr_table[i];
        if addr != 0 {
            idt.set(i, InterruptDesc::irq(addr));
        }
        i = i + 1;
    }
}

/// The registers the processor saves on an interrupt.
#[derive(Debug, Clone, Copy)]
pub struct IntrptStack {
    pub errno: u64,
    pub ip: u64,
    pub cs: u64,
    pub flags: u64,
    pub sp: u64,
    pub ss: u64,
}

} // verus!
