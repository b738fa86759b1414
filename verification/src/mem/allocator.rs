//! Allocation of memory: slots of small power-of-two sizes from slabs, and
//! whole pages from the physical memory manager.
use crate::mem::addr::{next_multiple, PageSize};
use crate::mem::allocator::page::{pages_granted, pages_refused, PageAllocator};
use crate::mem::allocator::slab::{
    frame_of, is_pow2, slot_order_of, slot_released, slot_reserved, SlabAllocator,
};
use crate::mem::phy::buddy::anc_at;
use crate::mem::phy::{PhysicalMemoryManager, FRAME_SIZE};
use crate::mem::virt::PhysicalRemapSpace;
use vstd::arithmetic::power2::pow2;
use vstd::prelude::*;

pub mod page;
pub mod slab;

verus! {

/// The dangling address handed out for zero-sized blocks.
pub const DANGLING: u64 = 1;

/// Returns the dangling address if the block is zero-sized, otherwise
/// `None`.
pub fn allocate_if_zst(size: u64) -> (r: Option<u64>)
    ensures
        r == if size == 0 {
            Some(DANGLING)
        } else {
            None::<u64>
        },
{
    if size != 0 {
        return None;
    }
    Some(DANGLING)
}

/// Whether the block at `addr` of `size` bytes is a zero-sized block at the
/// dangling address, which needs no deallocation.
pub fn deallocate_if_zst(addr: u64, size: u64) -> (r: bool)
    ensures
        r == (size == 0 && addr == DANGLING),
{
    size == 0 && addr == DANGLING
}

/// No slab page of `slab` lies in the block that `pmm` records at the
/// frame of physical address `paddr`.
pub open spec fn outside_slabs(slab: SlabAllocator, pmm: PhysicalMemoryManager, paddr: int) -> bool {
    let idx = pmm.frame_index(paddr);
    let order = pmm.frame_records()[idx].order;
    let top = pmm.buddies().top();
    forall|i: int, k: int|
        0 <= i < 8 && 0 <= k < slab.cache_seq()[i].slab_seq().len() ==> anc_at(
            top,
            frame_of(#[trigger] slab.cache_seq()[i].slab_seq()[k].base_addr(), &pmm),
            top - order,
        ) != idx / pow2(order as nat) as int
}

/// The global allocator: blocks of at most [`SlabAllocator::MAX_SIZE`]
/// bytes, once rounded up to their alignment, come from the slab
/// allocator, larger ones from the page allocator.
#[derive(Debug, Clone, Copy)]
pub struct GlobalAllocator;

impl GlobalAllocator {
    /// Allocates a block of `size` bytes aligned to `align` from the slab
    /// allocator or the page allocator, by its size rounded up to the
    /// alignment; returns its address and length.
    pub fn allocate(
        &self,
        size: u64,
        align: u64,
        slab: &mut SlabAllocator,
        pmm: &mut PhysicalMemoryManager,
    ) -> (r: Option<(u64, u64)>)
        requires
            old(slab).wf(),
            old(pmm).wf(),
            old(slab).pages_held(old(pmm)),
            is_pow2(align),
            next_multiple(size as int, align as int) <= u64::MAX,
            next_multiple(size as int, align as int) > SlabAllocator::MAX_SIZE ==> PageSize::Small.bytes() % (
            align as nat) == 0,
        ensures
            final(slab).wf(),
            final(pmm).wf(),
            final(slab).pages_held(final(pmm)),
            final(pmm).base_addr() == old(pmm).base_addr(),
            forall|f: int| old(pmm).buddies().held(f) ==> #[trigger] final(pmm).buddies().held(f),
            size == 0 ==> r == Some((DANGLING, 0u64)) && *final(slab) == *old(slab) && *final(pmm) == *old(pmm),
            size > 0 && next_multiple(size as int, align as int) <= SlabAllocator::MAX_SIZE ==> {
                &&& forall|o: nat|
                    #[trigger] slot_order_of(size as int, align as int, o) ==> slot_reserved(
                        *old(slab),
                        *final(slab),
                        *old(pmm),
                        *final(pmm),
                        o,
                        align,
                        match r {
                            Some(p) => Some(p.0),
                            None => None,
                        },
                    ) && (r.is_some() ==> r.unwrap().1 == pow2(o))
            },
            next_multiple(size as int, align as int) > SlabAllocator::MAX_SIZE ==> {
                let cnt = next_multiple(size as int, FRAME_SIZE as int) / (FRAME_SIZE as int);
                &&& *final(slab) == *old(slab)
                &&& next_multiple(size as int, FRAME_SIZE as int) > u64::MAX ==> r.is_none() && *final(pmm)
                    == *old(pmm)
                &&& next_multiple(size as int, FRAME_SIZE as int) <= u64::MAX ==> {
                    &&& r.is_some() ==> pages_granted(*old(pmm), *final(pmm), cnt, r.unwrap())
                    &&& r.is_none() ==> pages_refused(*old(pmm), *final(pmm), cnt)
                }
            },
    {
        proof {
            crate::mem::allocator::slab::lemma_pow2_align(align);
        }
        let padded = if size % align == 0 {
            size
        } else {
            proof {
                vstd::arithmetic::div_mod::lemma_fundamental_div_mod(size as int, align as int);
                vstd::arithmetic::div_mod::lemma_mod_pos_bound(size as int, align as int);
                vstd::arithmetic::div_mod::lemma_div_pos_is_pos(size as int, align as int);
                vstd::arithmetic::mul::lemma_mul_nonnegative(align as int, size as int / align as int);
            }
            size - size % align + align
        };
        if padded <= SlabAllocator::MAX_SIZE {
            let r = slab.allocate(size, align, pmm);
            match r {
                Some(a) => {
                    if size == 0 {
                        Some((a, 0))
                    } else {
                        proof {
                            vstd::arithmetic::power2::lemma2_to64();
                        }
                        let o = crate::mem::allocator::slab::slot_order(size, align);
                        proof {
                            vstd::bits::lemma_u64_shl_is_mul(1, o as u64);
                        }
                        Some((a, 1u64 << (o as u64)))
                    }
                },
                None => None,
            }
        } else {
            let r = PageAllocator.allocate(size, align, pmm);
            proof {
                assert forall|i: int| 0 <= i < 8 implies (#[trigger] slab.cache_seq()[i]).pages_held(pmm) by {
                    let c = slab.cache_seq()[i];
                    assert(c.pages_held(old(pmm)));
                    assert forall|k: int| 0 <= k < c.slab_seq().len() implies pmm.buddies().held(
                        frame_of(#[trigger] c.slab_seq()[k].base_addr(), pmm),
                    ) by {
                        assert(old(pmm).buddies().held(frame_of(c.slab_seq()[k].base_addr(), old(pmm))));
                    }
                }
            }
            r
        }
    }

    /// Gives back the block at `addr` of `size` bytes aligned to `align` to
    /// the allocator that handed it out, chosen as in [`Self::allocate`].
    pub fn deallocate(
        &self,
        addr: u64,
        size: u64,
        align: u64,
        slab: &mut SlabAllocator,
        pmm: &mut PhysicalMemoryManager,
    )
        requires
            old(slab).wf(),
            old(pmm).wf(),
            old(slab).pages_held(old(pmm)),
            0 < align,
            next_multiple(size as int, align as int) <= u64::MAX,
            size == 0 ==> addr == DANGLING,
            size > 0 && next_multiple(size as int, align as int) <= SlabAllocator::MAX_SIZE ==> forall|o: nat|
                #[trigger] slot_order_of(size as int, align as int, o) ==> old(slab).cache_of(
                    o as int,
                ).allocated().contains(addr as int),
            next_multiple(size as int, align as int) > SlabAllocator::MAX_SIZE ==> {
                &&& next_multiple(size as int, FRAME_SIZE as int) <= u64::MAX
                &&& PhysicalRemapSpace::OFFSET <= addr < 0xFFFF_C880_0000_0000u64
                &&& addr % FRAME_SIZE == 0
                &&& addr - PhysicalRemapSpace::OFFSET + next_multiple(size as int, FRAME_SIZE as int)
                    <= 0x4000_0000_0000
                &&& old(pmm).block_handed_out(addr - PhysicalRemapSpace::OFFSET)
                &&& outside_slabs(*old(slab), *old(pmm), addr - PhysicalRemapSpace::OFFSET)
            },
        ensures
            final(slab).wf(),
            final(pmm).wf(),
            final(slab).pages_held(final(pmm)),
            size == 0 ==> *final(slab) == *old(slab) && *final(pmm) == *old(pmm),
            size > 0 && next_multiple(size as int, align as int) <= SlabAllocator::MAX_SIZE ==> *final(pmm)
                == *old(pmm) && forall|o: nat|
                #[trigger] slot_order_of(size as int, align as int, o) ==> slot_released(
                    *old(slab),
                    *final(slab),
                    o,
                    addr,
                ),
            next_multiple(size as int, align as int) > SlabAllocator::MAX_SIZE ==> {
                let paddr = addr - PhysicalRemapSpace::OFFSET;
                let idx = old(pmm).frame_index(paddr);
                let order = old(pmm).frame_records()[idx].order;
                let top = old(pmm).buddies().top();
                &&& *final(slab) == *old(slab)
                &&& final(pmm).buddies().whole_free(top - order, idx / pow2(order as nat) as int)
            },
    {
        let padded = if size % align == 0 {
            size
        } else {
            proof {
                vstd::arithmetic::div_mod::lemma_fundamental_div_mod(size as int, align as int);
                vstd::arithmetic::div_mod::lemma_mod_pos_bound(size as int, align as int);
                vstd::arithmetic::div_mod::lemma_div_pos_is_pos(size as int, align as int);
                vstd::arithmetic::mul::lemma_mul_nonnegative(align as int, size as int / align as int);
            }
            size - size % align + align
        };
        if padded <= SlabAllocator::MAX_SIZE {
            let ghost old_slab = *slab;
            slab.deallocate(addr, size, align);
            proof {
                assert forall|i: int| 0 <= i < 8 implies (#[trigger] slab.cache_seq()[i]).pages_held(pmm) by {
                    let c = slab.cache_seq()[i];
                    let oc = old_slab.cache_seq()[i];
                    assert(oc.pages_held(pmm));
                    assert forall|k: int| 0 <= k < c.slab_seq().len() implies pmm.buddies().held(
                        frame_of(#[trigger] c.slab_seq()[k].base_addr(), pmm),
                    ) by {
                        assert(c.slab_seq()[k].base_addr() == oc.slab_seq()[k].base_addr());
                    }
                }
            }
        } else {
            PageAllocator.deallocate(addr, size, pmm);
            proof {
                let top = old(pmm).buddies().top();
                assert forall|i: int| 0 <= i < 8 implies (#[trigger] slab.cache_seq()[i]).pages_held(pmm) by {
                    let c = slab.cache_seq()[i];
                    assert(c.pages_held(old(pmm)));
                    assert forall|k: int| 0 <= k < c.slab_seq().len() implies pmm.buddies().held(
                        frame_of(#[trigger] c.slab_seq()[k].base_addr(), pmm),
                    ) by {
                        let f = frame_of(c.slab_seq()[k].base_addr(), old(pmm));
                        assert(old(pmm).buddies().held(f));
                        assert(f >= 0) by {
                            if f < 0 {
                                old(pmm).lemma_wf();
                                let d = choose|d: int| 0 <= d <= top && #[trigger] old(pmm).buddies().allocated(d, anc_at(top, f, d));
                                old(pmm).buddies().lemma_top_bound(d, anc_at(top, f, d));
                                crate::mem::phy::buddy::lemma_anc_neg(top, f, d);
                            }
                        }
                    }
                }
            }
        }
    }
}

} // verus!
