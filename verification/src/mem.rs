//! Memory management.
use crate::mem::addr::Addr;
use crate::mem::addr::AddrSpace;
use crate::mem::phy::UMASpace;
use crate::mem::virt::KernelImageSpace;
use vstd::prelude::*;

pub mod addr;
pub mod allocator;
pub mod memblock;
pub mod page;
pub mod paging;
pub mod phy;
pub mod virt;

verus! {

/// The virtual address the kernel is linked at, past its physical address.
pub const KERNEL_OFFSET_VMA: u64 = 0xFFFF_FFFF_8000_0000;

/// Returns the virtual offset of the kernel.
pub fn kernel_offset_vma() -> (r: u64)
    ensures
        r == KERNEL_OFFSET_VMA,
{
    KERNEL_OFFSET_VMA
}

/// Returns the size of the kernel image, from its virtual start and end,
/// which must not come before the start.
pub fn kernel_size(start_vma: Addr<KernelImageSpace>, end_vma: Addr<KernelImageSpace>) -> (r: u64)
    requires
        start_vma@ <= end_vma@,
    ensures
        r == end_vma@ - start_vma@,
{
    let diff = end_vma.addr_sub(start_vma);
    diff as u64
}

/// Returns the physical end of the kernel image: its physical start plus
/// its size.
pub fn kernel_end_lma(
    start_lma: Addr<UMASpace>,
    start_vma: Addr<KernelImageSpace>,
    end_vma: Addr<KernelImageSpace>,
) -> (r: Addr<UMASpace>)
    requires
        start_vma@ <= end_vma@,
        start_lma@ + (end_vma@ - start_vma@) <= UMASpace::range_end(),
    ensures
        r@ == start_lma@ + (end_vma@ - start_vma@),
{
    start_lma.byte_add(kernel_size(start_vma, end_vma))
}

} // verus!
