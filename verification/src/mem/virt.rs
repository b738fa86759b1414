//! Virtual address spaces of the kernel.
//!
//! | Address                               | Description               | Size  |
//! |:--------------------------------------|--------------------------:|:-----:|
//! | 0xFFFF888000000000:0xFFFFC88000000000 | Physical Memory Remap     | 64 TB |
//! | 0xFFFFC90000000000:0xFFFFE90000000000 | Data Stack                | 32 TB |
//! | 0xFFFFFE8000000000:0xFFFFFF0000000000 | Recursive Paging          | 0.5TB |
//! | 0xFFFFFFFF80000000:0xFFFFFFFFFF600000 | Kernel Text/Data          |       |
use crate::mem::addr::{Addr, AddrSpace};
use crate::mem::phy::UMASpace;
use vstd::prelude::*;

verus! {

/// A virtual address space.
pub trait VirtSpace: AddrSpace {
    /// Whether the space lies in the upper (kernel) half.
    fn is_kernel_space() -> (r: bool)
        ensures
            r == (Self::range_start() >= 0xFFFF_8000_0000_0000u64),
    {
        Self::start() >= 0xFFFF_8000_0000_0000u64
    }
}

/// A virtual address space of the kernel.
pub trait KernelSpace: VirtSpace {

}

/// The space where the kernel image is mapped.
#[derive(Debug, Clone, Copy, PartialEq, Eq, Structural)]
pub struct KernelImageSpace;

impl AddrSpace for KernelImageSpace {
    open spec fn range_start() -> u64 {
        0xFFFF_FFFF_8000_0000
    }

    open spec fn range_end() -> u64 {
        0xFFFF_FFFF_FF60_0000
    }

    fn start() -> (r: u64) {
        0xFFFF_FFFF_8000_0000
    }

    fn end() -> (r: u64) {
        0xFFFF_FFFF_FF60_0000
    }

    proof fn lemma_range() {
    }
}

impl VirtSpace for KernelImageSpace {

}

impl KernelSpace for KernelImageSpace {

}

impl KernelImageSpace {
    /// The physical address of a kernel image address.
    pub fn v2p(vaddr: Addr<Self>) -> (r: Addr<UMASpace>)
        requires
            vaddr@ < Self::range_end(),
        ensures
            r@ == vaddr@ - Self::range_start(),
    {
        proof {
            use_type_invariant(vaddr);
        }
        Addr::new(vaddr.usize() - Self::start())
    }
}

/// The space where all physical memory is mapped, at a fixed offset.
#[derive(Debug, Clone, Copy, PartialEq, Eq, Structural)]
pub struct PhysicalRemapSpace;

impl AddrSpace for PhysicalRemapSpace {
    open spec fn range_start() -> u64 {
        0xFFFF_8880_0000_0000
    }

    open spec fn range_end() -> u64 {
        0xFFFF_C880_0000_0000
    }

    fn start() -> (r: u64) {
        0xFFFF_8880_0000_0000
    }

    fn end() -> (r: u64) {
        0xFFFF_C880_0000_0000
    }

    proof fn lemma_range() {
    }
}

impl VirtSpace for PhysicalRemapSpace {

}

impl KernelSpace for PhysicalRemapSpace {

}

impl PhysicalRemapSpace {
    /// The offset of the remapping.
    pub const OFFSET: u64 = 0xFFFF_8880_0000_0000;

    /// The remapped virtual address of a physical address.
    pub fn p2v(paddr: Addr<UMASpace>) -> (r: Addr<Self>)
        requires
            paddr@ < UMASpace::range_end(),
        ensures
            r@ == paddr@ + Self::OFFSET,
    {
        proof {
            use_type_invariant(paddr);
        }
        Addr::new(paddr.usize() + Self::OFFSET)
    }

    /// The physical address of a remapped virtual address.
    pub fn v2p(vaddr: Addr<Self>) -> (r: Addr<UMASpace>)
        requires
            vaddr@ < Self::range_end(),
        ensures
            r@ == vaddr@ - Self::OFFSET,
    {
        proof {
            use_type_invariant(vaddr);
        }
        Addr::new(vaddr.usize() - Self::OFFSET)
    }
}

/// The space of kernel data stacks.
#[derive(Debug, Clone, Copy, PartialEq, Eq, Structural)]
pub struct DataStackSpace;

impl AddrSpace for DataStackSpace {
    open spec fn range_start() -> u64 {
        0xFFFF_C900_0000_0000
    }

    open spec fn range_end() -> u64 {
        0xFFFF_E900_0000_0000
    }

    fn start() -> (r: u64) {
        0xFFFF_C900_0000_0000
    }

    fn end() -> (r: u64) {
        0xFFFF_E900_0000_0000
    }

    proof fn lemma_range() {
    }
}

impl VirtSpace for DataStackSpace {

}

impl KernelSpace for DataStackSpace {

}

/// The space through which the page tables map themselves.
#[derive(Debug, Clone, Copy, PartialEq, Eq, Structural)]
pub struct RecursivePagingSpace;

impl AddrSpace for RecursivePagingSpace {
    open spec fn range_start() -> u64 {
        0xFFFF_FE80_0000_0000
    }

    open spec fn range_end() -> u64 {
        0xFFFF_FF00_0000_0000
    }

    fn start() -> (r: u64) {
        0xFFFF_FE80_0000_0000
    }

    fn end() -> (r: u64) {
        0xFFFF_FF00_0000_0000
    }

    proof fn lemma_range() {
    }
}

impl VirtSpace for RecursivePagingSpace {

}

impl KernelSpace for RecursivePagingSpace {

}

} // verus!
