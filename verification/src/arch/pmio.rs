//! I/O port numbers.
use vstd::prelude::*;

verus! {

/// An I/O port that can be read and written.
#[derive(Debug, Clone, Copy, PartialEq, Eq, Structural)]
pub struct Port(pub u16);

/// An I/O port that can be read.
#[derive(Debug, Clone, Copy, PartialEq, Eq, Structural)]
pub struct RPort(pub u16);

/// An I/O port that can be written.
#[derive(Debug, Clone, Copy, PartialEq, Eq, Structural)]
pub struct WPort(pub u16);

impl Port {
    /// The port, to be read.
    pub fn reader(self) -> (r: RPort)
        ensures
            r.0 == self.0,
    {
        RPort(self.0)
    }

    /// The port, to be written.
    pub fn writer(self) -> (r: WPort)
        ensures
            r.0 == self.0,
    {
        WPort(self.0)
    }
}

} // verus!
