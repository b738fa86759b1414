//! Keyboard input and the monitor that echoes it.

pub mod keyboard;
pub mod monitor;
