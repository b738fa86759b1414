use vstd::arithmetic::power2::pow2;
use vstd::prelude::*;

pub mod array_forest;
pub mod fixed_vec;
pub mod log;

verus! {

/// One kibibyte.
#[allow(non_upper_case_globals)]
pub const KiB: u64 = 0x400;

/// One mebibyte.
#[allow(non_upper_case_globals)]
pub const MiB: u64 = 0x10_0000;

/// One gibibyte.
#[allow(non_upper_case_globals)]
pub const GiB: u64 = 0x4000_0000;

/// One tebibyte.
#[allow(non_upper_case_globals)]
pub const TiB: u64 = 0x100_0000_0000;

/// CPU privilege ring.
#[derive(Debug, Clone, Copy, PartialEq, Eq, Structural)]
pub enum Privilege {
    User,
    Kernel,
}

impl Privilege {
    /// The ring number of the privilege level.
    pub fn ring(self) -> (r: u8)
        ensures
            self == Privilege::User ==> r == 3,
            self == Privilege::Kernel ==> r == 0,
    {
        match self {
            Privilege::User => 3,
            Privilege::Kernel => 0,
        }
    }
}

} // verus!

verus! {

/// `x << s`, that is `x * 2^s`.
pub fn shl_usize(x: usize, s: usize) -> (r: usize)
    requires
        s < usize::BITS,
        x * pow2(s as nat) <= usize::MAX,
    ensures
        r == x * pow2(s as nat),
{
    proof {
        vstd::bits::lemma_usize_shl_is_mul(x, s);
    }
    x << s
}

} // verus!
