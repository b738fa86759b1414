//! x86-64 specifics: I/O ports, the PIC, and descriptor encodings.

pub mod gdt;
pub mod isr;
pub mod pic;
pub mod pmio;
