//! The serial port COM1: what to write to its ports to set it up, and what
//! to do with the line status it reports when reading or writing a byte.
use crate::arch::pmio::Port;
use vstd::prelude::*;

verus! {

/// The data port of COM1 (the divisor's low byte while DLAB is set).
pub const COM1: u16 = 0x3F8;

/// The interrupt enable port of COM1 (the divisor's high byte while DLAB
/// is set).
pub const COM1_INT_ENABLE: u16 = 0x3F9;

/// The FIFO control port of COM1.
pub const COM1_FIFO_CTRL: u16 = 0x3FA;

/// The line control port of COM1.
pub const COM1_LINE_CTRL: u16 = 0x3FB;

/// The modem control port of COM1.
pub const COM1_MODEM_CTRL: u16 = 0x3FC;

/// The line status port of COM1.
pub const COM1_LINE_STATUS: u16 = 0x3FD;

/// The byte sent through the loopback to test the chip.
pub const TEST_BYTE: u8 = 0xAE;

/// The line status bit set when a byte has been received.
pub const DATA_READY: u8 = 0x01;

/// The line status bit set when the transmitter can take a byte.
pub const TRANSMIT_EMPTY: u8 = 0x20;

/// The port that reports the line status.
pub fn status_port() -> (r: Port)
    ensures
        r == Port(COM1_LINE_STATUS),
{
    Port(COM1_LINE_STATUS)
}

/// The port writes that set COM1 up (no interrupts, 38400 baud, 8 bits, no
/// parity, one stop bit, FIFOs on) and put it in loopback, sending
/// [`TEST_BYTE`] through it; the data port is to be read back next.
pub fn init_writes() -> (r: Vec<(Port, u8)>)
    ensures
        r@ == seq![
            (Port(COM1_INT_ENABLE), 0x00u8),
            (Port(COM1_LINE_CTRL), 0x80u8),
            (Port(COM1), 0x03u8),
            (Port(COM1_INT_ENABLE), 0x00u8),
            (Port(COM1_LINE_CTRL), 0x03u8),
            (Port(COM1_FIFO_CTRL), 0xC7u8),
            (Port(COM1_MODEM_CTRL), 0x0Bu8),
            (Port(COM1_MODEM_CTRL), 0x1Eu8),
            (Port(COM1), TEST_BYTE),
        ],
{
    let mut v = Vec::new();
    v.push((Port(COM1_INT_ENABLE), 0x00));
    v.push((Port(COM1_LINE_CTRL), 0x80));
    v.push((Port(COM1), 0x03));
    v.push((Port(COM1_INT_ENABLE), 0x00));
    v.push((Port(COM1_LINE_CTRL), 0x03));
    v.push((Port(COM1_FIFO_CTRL), 0xC7));
    v.push((Port(COM1_MODEM_CTRL), 0x0B));
    v.push((Port(COM1_MODEM_CTRL), 0x1E));
    v.push((Port(COM1), TEST_BYTE));
    v
}

/// Concludes the set-up from the byte `echo` read back from the data port:
/// the chip is faulty (`true`) when it is not [`TEST_BYTE`]; otherwise it
/// is not, and the write that leaves loopback for normal operation (IRQs
/// enabled, OUT#1 and OUT#2 set) is returned.
pub fn init(echo: u8) -> (r: (bool, Option<(Port, u8)>))
    ensures
        r == if echo != TEST_BYTE {
            (true, None::<(Port, u8)>)
        } else {
            (false, Some((Port(COM1_MODEM_CTRL), 0x0Fu8)))
        },
{
    if echo != TEST_BYTE {
        return (true, None);
    }
    (false, Some((Port(COM1_MODEM_CTRL), 0x0F)))
}

/// Given the line status `status`, the port to read a received byte from;
/// `None` while no byte has been received, so the status is to be read
/// again.
pub fn read(status: u8) -> (r: Option<Port>)
    ensures
        r == if status & DATA_READY != 0 {
            Some(Port(COM1))
        } else {
            None
        },
{
    if status & DATA_READY != 0 {
        Some(Port(COM1))
    } else {
        None
    }
}

/// Given the line status `status`, the write that sends `byte`; `None`
/// while the transmitter is busy, so the status is to be read again.
pub fn write(status: u8, byte: u8) -> (r: Option<(Port, u8)>)
    ensures
        r == if status & TRANSMIT_EMPTY != 0 {
            Some((Port(COM1), byte))
        } else {
            None
        },
{
    if status & TRANSMIT_EMPTY != 0 {
        Some((Port(COM1), byte))
    } else {
        None
    }
}

} // verus!
