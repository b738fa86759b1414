//! The 8259 programmable interrupt controllers: what to write to their
//! ports to set them up, mask, unmask and acknowledge interrupt lines.
use crate::arch::pmio::Port;
use vstd::prelude::*;

verus! {

/// The first interrupt vector of the PIC lines.
pub const VECTOR_PIC: u8 = 32;

/// Command port of the master PIC.
pub const PIC1_CMD_PORT: u16 = 0x20;

/// Data port of the master PIC.
pub const PIC1_DATA_PORT: u16 = 0x21;

/// Command port of the slave PIC.
pub const PIC2_CMD_PORT: u16 = 0xA0;

/// Data port of the slave PIC.
pub const PIC2_DATA_PORT: u16 = 0xA1;

/// Initialize, and send the fourth control word later.
pub const ICW1: u8 = 0b0001_0001;

/// Map the master's lines to the vectors from `VECTOR_PIC`.
pub const ICW2_PIC1: u8 = 32;

/// Map the slave's lines to the vectors from `VECTOR_PIC + 8`.
pub const ICW2_PIC2: u8 = 40;

/// The slave hangs on line 2 of the master.
pub const ICW3_PIC1: u8 = 0b100;

/// The slave's cascade identity.
pub const ICW3_PIC2: u8 = 2;

/// 80x86 mode.
pub const ICW4: u8 = 0b0000_0001;

/// End of interrupt.
pub const EOI: u8 = 0x20;

/// The port writes that set up both PICs, in order.
pub fn init_pic() -> (r: Vec<(Port, u8)>)
    ensures
        r@ == seq![
            (Port(PIC1_CMD_PORT), ICW1),
            (Port(PIC2_CMD_PORT), ICW1),
            (Port(PIC1_DATA_PORT), ICW2_PIC1),
            (Port(PIC2_DATA_PORT), ICW2_PIC2),
            (Port(PIC1_DATA_PORT), ICW3_PIC1),
            (Port(PIC2_DATA_PORT), ICW3_PIC2),
            (Port(PIC1_DATA_PORT), ICW4),
            (Port(PIC2_DATA_PORT), ICW4),
        ],
{
    let mut v = Vec::new();
    v.push((Port(PIC1_CMD_PORT), ICW1));
    v.push((Port(PIC2_CMD_PORT), ICW1));
    v.push((Port(PIC1_DATA_PORT), ICW2_PIC1));
    v.push((Port(PIC2_DATA_PORT), ICW2_PIC2));
    v.push((Port(PIC1_DATA_PORT), ICW3_PIC1));
    v.push((Port(PIC2_DATA_PORT), ICW3_PIC2));
    v.push((Port(PIC1_DATA_PORT), ICW4));
    v.push((Port(PIC2_DATA_PORT), ICW4));
    v
}

/// The port writes that mask every line.
pub fn mask_all() -> (r: [(Port, u8); 2])
    ensures
        r@ == seq![(Port(PIC1_DATA_PORT), 0xFFu8), (Port(PIC2_DATA_PORT), 0xFFu8)],
{
    [(Port(PIC1_DATA_PORT), 0xFF), (Port(PIC2_DATA_PORT), 0xFF)]
}

/// The port writes that unmask every line.
pub fn unmask_all() -> (r: [(Port, u8); 2])
    ensures
        r@ == seq![(Port(PIC1_DATA_PORT), 0u8), (Port(PIC2_DATA_PORT), 0u8)],
{
    [(Port(PIC1_DATA_PORT), 0), (Port(PIC2_DATA_PORT), 0)]
}

/// The port write that acknowledges line `irq`: end of interrupt to the
/// PIC serving it; nothing for an invalid line.
pub fn ack(irq: u8) -> (r: Option<(Port, u8)>)
    ensures
        irq < 8 ==> r == Some((Port(PIC1_CMD_PORT), EOI)),
        8 <= irq < 16 ==> r == Some((Port(PIC2_CMD_PORT), EOI)),
        irq >= 16 ==> r.is_none(),
{
    if irq < 8 {
        Some((Port(PIC1_CMD_PORT), EOI))
    } else if irq < 16 {
        Some((Port(PIC2_CMD_PORT), EOI))
    } else {
        None
    }
}

/// The data port of the PIC serving line `irq`, and the line's bit in its
/// mask; `None` for an invalid line.
pub fn line(irq: u8) -> (r: Option<(Port, u8)>)
    ensures
        irq < 8 ==> r == Some((Port(PIC1_DATA_PORT), irq)),
        8 <= irq < 16 ==> r == Some((Port(PIC2_DATA_PORT), (irq - 8) as u8)),
        irq >= 16 ==> r.is_none(),
{
    if irq < 8 {
        Some((Port(PIC1_DATA_PORT), irq))
    } else if irq < 16 {
        Some((Port(PIC2_DATA_PORT), irq - 8))
    } else {
        None
    }
}

/// The port write that masks line `irq`, given the mask `current` read
/// from the data port of its PIC; nothing for an invalid line.
pub fn mask(irq: u8, current: u8) -> (r: Option<(Port, u8)>)
    ensures
        irq < 8 ==> r == Some((Port(PIC1_DATA_PORT), current | (1u8 << irq))),
        8 <= irq < 16 ==> r == Some((Port(PIC2_DATA_PORT), current | (1u8 << ((irq - 8) as u8)))),
        irq >= 16 ==> r.is_none(),
{
    match line(irq) {
        Some((port, offset)) => Some((port, current | (1u8 << offset))),
        None => None,
    }
}

/// The port write that unmasks line `irq`, given the mask `current` read
/// from the data port of its PIC; nothing for an invalid line.
pub fn unmask(irq: u8, current: u8) -> (r: Option<(Port, u8)>)
    ensures
        irq < 8 ==> r == Some((Port(PIC1_DATA_PORT), current & !(1u8 << irq))),
        8 <= irq < 16 ==> r == Some((Port(PIC2_DATA_PORT), current & !(1u8 << ((irq - 8) as u8)))),
        irq >= 16 ==> r.is_none(),
{
    match line(irq) {
        Some((port, offset)) => Some((port, current & !(1u8 << offset))),
        None => None,
    }
}

/// Masking line `irq` sets its bit and keeps the others; unmasking clears
/// it and keeps the others.
pub proof fn lemma_mask_bit(current: u8, offset: u8, j: u8)
    by (bit_vector)
    requires
        offset < 8,
        j < 8,
    ensures
        ((current | (1u8 << offset)) >> j) & 1 == if j == offset {
            1u8
        } else {
            (current >> j) & 1
        },
        ((current & !(1u8 << offset)) >> j) & 1 == if j == offset {
            0u8
        } else {
            (current >> j) & 1
        },
{
}

} // verus!
