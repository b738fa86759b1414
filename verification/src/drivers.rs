//! Device drivers: the text-mode screen, the PS/2 keyboard decoder and the
//! serial port.

pub mod ps2;
pub mod serial;
pub mod vga;
