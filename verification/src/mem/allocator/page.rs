//! Allocation of whole pages, seen through the remapping of physical
//! memory.
use crate::mem::addr::{next_multiple, Addr, AddrRange, PageRange, PageSize};
use crate::mem::allocator::{allocate_if_zst, deallocate_if_zst};
use crate::mem::phy::{alloc_order_of, PhysicalMemoryManager, FRAME_SIZE};
use crate::mem::virt::PhysicalRemapSpace;
use vstd::arithmetic::power2::pow2;
use vstd::prelude::*;

verus! {

/// The frames a call of [`PhysicalMemoryManager::allocate_pages`] for `cnt`
/// small pages hands out: the first, `idx`, was not held and now is, and
/// the block spans `2^order` frames for the order of `cnt`.
pub open spec fn pages_granted(old_pmm: PhysicalMemoryManager, new_pmm: PhysicalMemoryManager, cnt: int, r: (u64, u64)) -> bool {
    exists|idx: int|
        {
            let order = (#[trigger] new_pmm.frame_records()[idx]).order as nat;
            &&& 0 <= idx < old_pmm.frame_records().len()
            &&& !old_pmm.buddies().held(idx)
            &&& new_pmm.buddies().held(idx)
            &&& alloc_order_of(cnt, order)
            &&& r.0 == PhysicalRemapSpace::OFFSET + old_pmm.base_addr() + idx * FRAME_SIZE
            &&& r.1 == pow2(order) * FRAME_SIZE
            &&& new_pmm.buddies().allocated(new_pmm.buddies().top() - order, idx / pow2(order) as int)
            &&& idx < new_pmm.frame_records().len()
        }
}

/// Why [`PhysicalMemoryManager::allocate_pages`] found no block for `cnt`
/// small pages: the order is above the maximum, no block of it is free, or
/// the block found lies past the frames or off a page boundary.
pub open spec fn pages_refused(old_pmm: PhysicalMemoryManager, new_pmm: PhysicalMemoryManager, cnt: int) -> bool {
    forall|o: nat|
        #[trigger] alloc_order_of(cnt, o) ==> {
            let t = old_pmm.buddies().top() - o;
            ||| o > old_pmm.buddies().top()
            ||| forall|j: int|
                0 <= j < old_pmm.buddies().roots() ==> #[trigger] old_pmm.buddies().value(0, j) <= o
            ||| exists|x: int|
                {
                    &&& #[trigger] old_pmm.buddies().available(t, x)
                    &&& new_pmm.buddies().allocated(t, x)
                    &&& (x * pow2(o) >= old_pmm.frame_records().len() || (old_pmm.base_addr() + x * pow2(o)
                        * FRAME_SIZE) % (FRAME_SIZE as int) != 0)
                }
        }
}

/// Allocates the small pages holding `size` bytes from `pmm` and returns
/// their remapped address and their length in bytes; a zero-sized block
/// gets the dangling address 1 and length 0. `None` if the size rounded up
/// to a page overflows or `pmm` gives no block.
fn allocate_pages_for(size: u64, align: u64, pmm: &mut PhysicalMemoryManager) -> (r: Option<(u64, u64)>)
    requires
        old(pmm).wf(),
        0 < align,
        PageSize::Small.bytes() % (align as nat) == 0,
    ensures
        final(pmm).wf(),
        final(pmm).base_addr() == old(pmm).base_addr(),
        final(pmm).buddies().top() == old(pmm).buddies().top(),
        forall|f: int| old(pmm).buddies().held(f) ==> #[trigger] final(pmm).buddies().held(f),
        size == 0 ==> r == Some((1u64, 0u64)) && *final(pmm) == *old(pmm),
        size > 0 && next_multiple(size as int, FRAME_SIZE as int) > u64::MAX ==> r.is_none() && *final(pmm)
            == *old(pmm),
        size > 0 && next_multiple(size as int, FRAME_SIZE as int) <= u64::MAX ==> {
            let cnt = next_multiple(size as int, FRAME_SIZE as int) / (FRAME_SIZE as int);
            &&& r.is_some() ==> pages_granted(*old(pmm), *final(pmm), cnt, r.unwrap())
            &&& r.is_none() ==> pages_refused(*old(pmm), *final(pmm), cnt)
        },
{
    if let Some(r) = allocate_if_zst(size) {
        return Some((r, 0));
    }
    let rounded = if size % FRAME_SIZE == 0 {
        size
    } else {
        match (size - size % FRAME_SIZE).checked_add(FRAME_SIZE) {
            Some(v) => v,
            None => {
                return None;
            },
        }
    };
    let page_cnt = rounded / FRAME_SIZE;
    proof {
        vstd::arithmetic::power2::lemma2_to64();
        assert(crate::mem::phy::frames_per_page(PageSize::Small) == 1);
    }
    let prange = match pmm.allocate_pages(page_cnt, PageSize::Small) {
        Some(p) => p,
        None => {
            proof {
                assert forall|o: nat| #[trigger] alloc_order_of(page_cnt as int, o) implies alloc_order_of(
                    page_cnt * crate::mem::phy::frames_per_page(PageSize::Small),
                    o,
                ) by {
                }
            }
            return None;
        },
    };
    let ghost idx = choose|idx: int|
        {
            let order = (#[trigger] pmm.frame_records()[idx]).order as nat;
            &&& 0 <= idx < old(pmm).frame_records().len()
            &&& !old(pmm).buddies().held(idx)
            &&& pmm.buddies().held(idx)
            &&& pow2(order) >= page_cnt * crate::mem::phy::frames_per_page(PageSize::Small)
            &&& (order == 0 || pow2((order - 1) as nat) < page_cnt * crate::mem::phy::frames_per_page(PageSize::Small))
            &&& prange.base.spec_addr()@ == old(pmm).base_addr() + idx * FRAME_SIZE
            &&& prange.base.size() == PageSize::Small
            &&& prange.len == pow2(order) / crate::mem::phy::frames_per_page(PageSize::Small)
            &&& pmm.buddies().allocated(pmm.buddies().top() - order, idx / pow2(order) as int)
        };
    proof {
        old(pmm).lemma_wf();
        let len = old(pmm).frame_records().len() as int;
        assert(idx * FRAME_SIZE + FRAME_SIZE <= len * FRAME_SIZE) by (nonlinear_arith)
            requires
                idx < len,
        ;
    }
    let vbase = PhysicalRemapSpace::p2v(prange.base.addr());
    proof {
        let order = pmm.frame_records()[idx].order as nat;
        assert(prange.len == pow2(order));
        pmm.lemma_wf();
        pmm.buddies().lemma_top_bound(pmm.buddies().top() - order, idx / pow2(order) as int);
        assert(order <= pmm.buddies().top());
        if order < 18 {
            vstd::arithmetic::power2::lemma_pow2_strictly_increases(order, 18);
        }
        assert(pow2(18) == 0x4_0000) by {
            vstd::arithmetic::power2::lemma2_to64();
        }
    }
    Some((vbase.usize(), prange.len * PageSize::Small.usize()))
}

/// Gives back the small pages holding `size` bytes at the remapped address
/// `addr` to `pmm`; a zero-sized block at the dangling address is ignored.
fn deallocate_pages_for(addr: u64, size: u64, pmm: &mut PhysicalMemoryManager)
    requires
        old(pmm).wf(),
        size == 0 ==> addr == 1,
        size > 0 ==> {
            &&& next_multiple(size as int, FRAME_SIZE as int) <= u64::MAX
            &&& PhysicalRemapSpace::OFFSET <= addr < 0xFFFF_C880_0000_0000u64
            &&& addr % FRAME_SIZE == 0
            &&& addr - PhysicalRemapSpace::OFFSET + next_multiple(size as int, FRAME_SIZE as int) <= 0x4000_0000_0000
            &&& old(pmm).block_handed_out(addr - PhysicalRemapSpace::OFFSET)
        },
    ensures
        final(pmm).wf(),
        size == 0 ==> *final(pmm) == *old(pmm),
        size > 0 ==> {
            let paddr = addr - PhysicalRemapSpace::OFFSET;
            let idx = old(pmm).frame_index(paddr);
            let order = old(pmm).frame_records()[idx].order;
            let top = old(pmm).buddies().top();
            &&& final(pmm).buddies().whole_free(top - order, idx / pow2(order as nat) as int)
            &&& final(pmm).buddies().top() == top
            &&& final(pmm).base_addr() == old(pmm).base_addr()
            &&& forall|f: int|
                f >= 0 && old(pmm).buddies().held(f) && crate::mem::phy::buddy::anc_at(top, f, top - order) != idx
                    / pow2(order as nat) as int ==> #[trigger] final(pmm).buddies().held(f)
        },
{
    if deallocate_if_zst(addr, size) {
        return;
    }
    let rounded = if size % FRAME_SIZE == 0 {
        size
    } else {
        size - size % FRAME_SIZE + FRAME_SIZE
    };
    let vbase: Addr<PhysicalRemapSpace> = Addr::new(addr);
    let pbase = PhysicalRemapSpace::v2p(vbase);
    let prange = AddrRange::new(pbase, rounded);
    let pages = match PageRange::try_from_range(prange, PageSize::Small) {
        Some(p) => p,
        None => {
            proof {
                assert(false);
            }
            return;
        },
    };
    pmm.deallocate_pages(pages);
}

/// The page allocator: whole small pages from the physical memory manager,
/// seen through the remapping of physical memory.
#[derive(Debug, Clone, Copy)]
pub struct PageAllocator;

impl PageAllocator {
    /// Allocates the small pages holding `size` bytes and returns their
    /// remapped address and their length in bytes; a zero-sized block gets
    /// the dangling address 1. `None` if the size rounded up to a page
    /// overflows or `pmm` gives no block.
    pub fn allocate(&self, size: u64, align: u64, pmm: &mut PhysicalMemoryManager) -> (r: Option<(u64, u64)>)
        requires
            old(pmm).wf(),
            0 < align,
            PageSize::Small.bytes() % (align as nat) == 0,
        ensures
            final(pmm).wf(),
            final(pmm).base_addr() == old(pmm).base_addr(),
            final(pmm).buddies().top() == old(pmm).buddies().top(),
            forall|f: int| old(pmm).buddies().held(f) ==> #[trigger] final(pmm).buddies().held(f),
            size == 0 ==> r == Some((1u64, 0u64)) && *final(pmm) == *old(pmm),
            size > 0 && next_multiple(size as int, FRAME_SIZE as int) > u64::MAX ==> r.is_none() && *final(pmm)
                == *old(pmm),
            size > 0 && next_multiple(size as int, FRAME_SIZE as int) <= u64::MAX ==> {
                let cnt = next_multiple(size as int, FRAME_SIZE as int) / (FRAME_SIZE as int);
                &&& r.is_some() ==> pages_granted(*old(pmm), *final(pmm), cnt, r.unwrap())
                &&& r.is_none() ==> pages_refused(*old(pmm), *final(pmm), cnt)
            },
    {
        allocate_pages_for(size, align, pmm)
    }

    /// Gives back the small pages holding `size` bytes at the remapped
    /// address `addr`; a zero-sized block at the dangling address is
    /// ignored.
    pub fn deallocate(&self, addr: u64, size: u64, pmm: &mut PhysicalMemoryManager)
        requires
            old(pmm).wf(),
            size == 0 ==> addr == 1,
            size > 0 ==> {
                &&& next_multiple(size as int, FRAME_SIZE as int) <= u64::MAX
                &&& PhysicalRemapSpace::OFFSET <= addr < 0xFFFF_C880_0000_0000u64
                &&& addr % FRAME_SIZE == 0
                &&& addr - PhysicalRemapSpace::OFFSET + next_multiple(size as int, FRAME_SIZE as int) <= 0x4000_0000_0000
                &&& old(pmm).block_handed_out(addr - PhysicalRemapSpace::OFFSET)
            },
        ensures
            final(pmm).wf(),
            size == 0 ==> *final(pmm) == *old(pmm),
            size > 0 ==> {
                let paddr = addr - PhysicalRemapSpace::OFFSET;
                let idx = old(pmm).frame_index(paddr);
                let order = old(pmm).frame_records()[idx].order;
                let top = old(pmm).buddies().top();
                &&& final(pmm).buddies().whole_free(top - order, idx / pow2(order as nat) as int)
                &&& final(pmm).buddies().top() == top
                &&& final(pmm).base_addr() == old(pmm).base_addr()
                &&& forall|f: int|
                    f >= 0 && old(pmm).buddies().held(f) && crate::mem::phy::buddy::anc_at(top, f, top - order) != idx
                        / pow2(order as nat) as int ==> #[trigger] final(pmm).buddies().held(f)
            },
    {
        deallocate_pages_for(addr, size, pmm)
    }
}

/// The frame allocator: the same service as [`PageAllocator`], for memory
/// handed to devices and page tables.
#[derive(Debug, Clone, Copy)]
pub struct PhysicalPageManager;

impl PhysicalPageManager {
    /// Allocates the small pages holding `size` bytes and returns their
    /// remapped address and their length in bytes; a zero-sized block gets
    /// the dangling address 1. `None` if the size rounded up to a page
    /// overflows or `pmm` gives no block.
    pub fn allocate(&self, size: u64, align: u64, pmm: &mut PhysicalMemoryManager) -> (r: Option<(u64, u64)>)
        requires
            old(pmm).wf(),
            0 < align,
            PageSize::Small.bytes() % (align as nat) == 0,
        ensures
            final(pmm).wf(),
            final(pmm).base_addr() == old(pmm).base_addr(),
            final(pmm).buddies().top() == old(pmm).buddies().top(),
            forall|f: int| old(pmm).buddies().held(f) ==> #[trigger] final(pmm).buddies().held(f),
            size == 0 ==> r == Some((1u64, 0u64)) && *final(pmm) == *old(pmm),
            size > 0 && next_multiple(size as int, FRAME_SIZE as int) > u64::MAX ==> r.is_none() && *final(pmm)
                == *old(pmm),
            size > 0 && next_multiple(size as int, FRAME_SIZE as int) <= u64::MAX ==> {
                let cnt = next_multiple(size as int, FRAME_SIZE as int) / (FRAME_SIZE as int);
                &&& r.is_some() ==> pages_granted(*old(pmm), *final(pmm), cnt, r.unwrap())
                &&& r.is_none() ==> pages_refused(*old(pmm), *final(pmm), cnt)
            },
    {
        allocate_pages_for(size, align, pmm)
    }

    /// Gives back the small pages holding `size` bytes at the remapped
    /// address `addr`; a zero-sized block at the dangling address is
    /// ignored.
    pub fn deallocate(&self, addr: u64, size: u64, pmm: &mut PhysicalMemoryManager)
        requires
            old(pmm).wf(),
            size == 0 ==> addr == 1,
            size > 0 ==> {
                &&& next_multiple(size as int, FRAME_SIZE as int) <= u64::MAX
                &&& PhysicalRemapSpace::OFFSET <= addr < 0xFFFF_C880_0000_0000u64
                &&& addr % FRAME_SIZE == 0
                &&& addr - PhysicalRemapSpace::OFFSET + next_multiple(size as int, FRAME_SIZE as int) <= 0x4000_0000_0000
                &&& old(pmm).block_handed_out(addr - PhysicalRemapSpace::OFFSET)
            },
        ensures
            final(pmm).wf(),
            size == 0 ==> *final(pmm) == *old(pmm),
            size > 0 ==> {
                let paddr = addr - PhysicalRemapSpace::OFFSET;
                let idx = old(pmm).frame_index(paddr);
                let order = old(pmm).frame_records()[idx].order;
                let top = old(pmm).buddies().top();
                &&& final(pmm).buddies().whole_free(top - order, idx / pow2(order as nat) as int)
                &&& final(pmm).buddies().top() == top
                &&& final(pmm).base_addr() == old(pmm).base_addr()
                &&& forall|f: int|
                    f >= 0 && old(pmm).buddies().held(f) && crate::mem::phy::buddy::anc_at(top, f, top - order) != idx
                        / pow2(order as nat) as int ==> #[trigger] final(pmm).buddies().held(f)
            },
    {
        deallocate_pages_for(addr, size, pmm)
    }
}

} // verus!
