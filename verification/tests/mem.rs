use kernel::mem::addr::{Addr, AddrRange, Page, PageRange, PageSize};
use kernel::mem::allocator::page::{PageAllocator, PhysicalPageManager};
use kernel::mem::allocator::slab::{Cache, SlabAllocator, Slab, SlabFillLevel};
use kernel::mem::allocator::{allocate_if_zst, deallocate_if_zst, GlobalAllocator, DANGLING};
use kernel::mem::memblock::{BootMemoryManagerBuilder, Memblock, Memblocks};
use kernel::mem::page::PageBitmap;
use kernel::mem::phy::buddy::BuddySystem;
use kernel::mem::phy::memblock::Memblocks as PhyMemblocks;
use kernel::mem::phy::{PhysicalMemoryManager, UMASpace};
use kernel::mem::virt::{KernelImageSpace, PhysicalRemapSpace, VirtSpace};
use kernel::mem::{kernel_offset_vma, kernel_size};

const REMAP: u64 = 0xFFFF_8880_0000_0000;

fn range(base: u64, size: u64) -> AddrRange<UMASpace> {
    AddrRange::new(Addr::new(base), size)
}

fn bounds(r: &AddrRange<UMASpace>) -> (u64, u64) {
    (r.start().usize(), r.end().usize())
}

fn pmm_with_free(managed_size: u64, free: &[(u64, u64)]) -> PhysicalMemoryManager {
    let regions: Vec<AddrRange<UMASpace>> = free.iter().map(|(b, s)| range(*b, *s)).collect();
    PhysicalMemoryManager::new(range(0, managed_size), &regions)
}

#[test]
fn addresses_move_and_align() {
    let a: Addr<UMASpace> = Addr::new(0x1234);
    assert_eq!(a.byte_add(0x10).usize(), 0x1244);
    assert_eq!(a.byte_sub(0x234).usize(), 0x1000);
    assert_eq!(a.checked_byte_add(1).unwrap().usize(), 0x1235);
    assert!(a.checked_byte_sub(0x1235).is_none());
    assert!(a.checked_byte_add(0x4000_0000_0000).is_none());
    assert_eq!(Addr::<UMASpace>::new(0x3000).addr_sub(Addr::new(0x1000)), 0x2000);
    assert_eq!(Addr::<UMASpace>::new(0x1000).addr_sub(Addr::new(0x3000)), -0x2000);
    assert_eq!(a.align_ceil(0x1000).unwrap().usize(), 0x2000);
    assert_eq!(a.align_floor(0x1000).unwrap().usize(), 0x1000);
    assert!(!a.is_aligned_to(0x1000));
    assert!(Addr::<UMASpace>::new(0x2000).is_aligned_to(0x1000));
    assert!(Addr::<UMASpace>::new(0x3FFF_FFFF_F001).align_ceil(0x1000).is_none());
}

#[test]
fn ranges_intersect_and_contain() {
    let a = range(0x1000, 0x3000);
    let b = range(0x2000, 0x4000);
    let i = a.range_intersect(&b);
    assert_eq!(bounds(&i), (0x2000, 0x4000));
    let c = range(0x8000, 0x1000);
    let j = a.range_intersect(&c);
    assert!(j.is_empty());
    assert_eq!(j.start().usize(), 0x8000);
    assert!(a.overlaps(&b));
    assert!(!a.overlaps(&c));
    assert!(a.contains(&range(0x1800, 0x100)));
    assert!(!a.contains(&b));
    assert!(AddrRange::<UMASpace>::empty().is_empty());
}

#[test]
fn ranges_sum_and_subtract() {
    let a = range(0x1000, 0x2000);
    let b = range(0x2000, 0x2000);
    let [s0, s1] = a.range_sum(&b);
    assert_eq!(bounds(&s0), (0x1000, 0x4000));
    assert!(s1.is_empty());
    let far = range(0x9000, 0x1000);
    let [t0, t1] = a.range_sum(&far);
    assert_eq!(bounds(&t0), (0x1000, 0x3000));
    assert_eq!(bounds(&t1), (0x9000, 0xA000));
    assert_eq!(bounds(&a.range_sum_strict(&b).unwrap()), (0x1000, 0x4000));
    assert!(a.range_sum_strict(&range(0x3000, 0x10)).is_none());
    let whole = range(0x1000, 0x3000);
    let [lo, hi] = whole.range_sub(range(0x1800, 0x800));
    assert_eq!(bounds(&lo), (0x1000, 0x1800));
    assert_eq!(bounds(&hi), (0x2000, 0x4000));
    let [lo, hi] = whole.range_sub(range(0, 0x10));
    assert!(lo.is_empty());
    assert_eq!(bounds(&hi), (0x1000, 0x4000));
    let [lo, hi] = range(0x2000, 0).range_sub(range(0x1000, 0x3000));
    assert!(lo.is_empty() && hi.is_empty());
}

#[test]
fn range_difference_law_on_samples() {
    let whole = range(0x1000, 0x5000);
    for (b, s) in [(0u64, 0x1800u64), (0x2000, 0x1000), (0x5000, 0x2000), (0x8000, 0x100), (0x1000, 0x5000)] {
        let rhs = range(b, s);
        let [p, q] = whole.range_sub(rhs);
        for addr in (0..0x9000u64).step_by(0x100) {
            let inside = |r: &AddrRange<UMASpace>| r.start().usize() <= addr && addr < r.end().usize();
            assert_eq!(inside(&p) || inside(&q), inside(&whole) && !inside(&rhs), "addr {:x} minus {:x}+{:x}", addr, b, s);
        }
    }
}

#[test]
fn page_sizes() {
    assert_eq!(PageSize::Small.usize(), 0x1000);
    assert_eq!(PageSize::Large.layout(), (0x20_0000, 0x20_0000));
    assert_eq!(PageSize::Large.align(), 0x20_0000);
    assert_eq!(PageSize::Huge.order(), 30);
    assert_eq!(PageSize::MIN, PageSize::Small);
    assert_eq!(PageSize::MAX, PageSize::Huge);
    assert_eq!(PageSize::fit(0x1000, 8), Some(PageSize::Small));
    assert_eq!(PageSize::fit(0x1001, 8), Some(PageSize::Large));
    assert_eq!(PageSize::fit(0x20_0001, 0x1000), Some(PageSize::Huge));
    assert_eq!(PageSize::fit(0x4000_0001, 1), None);
    assert_eq!(PageSize::fit(0xFF0, 0x800), Some(PageSize::Small));
}

#[test]
fn pages_step_and_convert() {
    let p = Page::new(Addr::<UMASpace>::new(0x4000), PageSize::Small);
    assert_eq!(p.addr().usize(), 0x4000);
    assert_eq!(p.start().usize(), 0x4000);
    assert_eq!(p.page_size(), PageSize::Small);
    assert_eq!(p.checked_page_add(3).unwrap().addr().usize(), 0x7000);
    assert_eq!(p.checked_page_sub(4).unwrap().addr().usize(), 0);
    assert!(p.checked_page_sub(5).is_none());
    assert!(p.checked_page_add(u64::MAX / 2).is_none());
    assert!(p.checked_page_sub(u64::MAX / 2).is_none());
    let pr = PageRange::try_from_range(range(0x2000, 0x3000), PageSize::Small).unwrap();
    assert_eq!((pr.base.addr().usize(), pr.len), (0x2000, 3));
    assert!(PageRange::try_from_range(range(0x2001, 0x1000), PageSize::Small).is_none());
    let back = pr.to_range();
    assert_eq!((back.start().usize(), back.size), (0x2000, 0x3000));
    assert!(PageRange::try_from_range(range(0x2000, 0x1001), PageSize::Small).is_none());
    assert_eq!(PageRange::<UMASpace>::empty(PageSize::Large).len, 0);
    let inner = range(0x1800, 0x2000).contained_pages(PageSize::Small);
    assert_eq!((inner.base.addr().usize(), inner.len), (0x2000, 1));
    let outer = range(0x1800, 0x2000).overlapped_pages(PageSize::Small);
    assert_eq!((outer.base.addr().usize(), outer.len), (0x1000, 3));
}

#[test]
fn ranges_split_into_aligned_pieces() {
    let mut split = range(0x1000, 0x7000).split_aligned(12, 14);
    let mut pieces = Vec::new();
    while let Some(p) = split.next() {
        pieces.push(bounds(&p));
    }
    assert_eq!(pieces, vec![(0x1000, 0x2000), (0x2000, 0x4000), (0x4000, 0x8000)]);
    let mut split = range(0x1800, 0x2000).split_aligned(12, 20);
    let mut pieces = Vec::new();
    while let Some(p) = split.next() {
        pieces.push(bounds(&p));
    }
    assert_eq!(pieces, vec![(0x2000, 0x3000)]);
    let mut split = range(0x10_0000, 0x40_0000).split_aligned(12, 21);
    let mut sizes = Vec::new();
    while let Some(p) = split.next() {
        sizes.push((p.start().usize(), p.size));
    }
    assert_eq!(sizes, vec![(0x10_0000, 0x10_0000), (0x20_0000, 0x20_0000), (0x40_0000, 0x10_0000)]);
    // Each piece starts at a multiple of its size.
    let mut split = range(0x1000, 0x3000).split_aligned(12, 20);
    let mut sizes = Vec::new();
    while let Some(p) = split.next() {
        sizes.push((p.start().usize(), p.size));
    }
    assert_eq!(sizes, vec![(0x1000, 0x1000), (0x2000, 0x2000)]);
}

#[test]
fn buddy_reserves_depth_first() {
    let mut buddy = BuddySystem::new(8);
    assert_eq!(buddy.max_order(), 3);
    assert_eq!(buddy.reserve(0), None);
    assert!(buddy.is_block(0, 3));
    assert!(!buddy.is_block(1, 1));
    buddy.free_forced(0, 3);
    assert_eq!(buddy.reserve(0), Some(0));
    assert_eq!(buddy.reserve(1), Some(2));
    assert_eq!(buddy.reserve(2), Some(4));
    assert_eq!(buddy.reserve(0), Some(1));
    assert_eq!(buddy.reserve(0), None);
    buddy.free(2, 1);
    assert_eq!(buddy.reserve(0), Some(2));
    assert_eq!(buddy.reserve(0), Some(3));
}

#[test]
fn buddy_reserves_the_only_free_block() {
    let mut b = BuddySystem::new(4);
    assert_eq!(b.max_order(), 2);
    assert_eq!(b.reserve(0), None);
    b.free_forced(2, 1);
    assert_eq!(b.reserve(2), None);
    assert_eq!(b.reserve(1), Some(2));
    assert_eq!(b.reserve(0), None);
}

#[test]
fn buddy_reserve_then_free_restores() {
    let mut buddy = BuddySystem::new(16);
    buddy.free_forced(0, 4);
    let idx = buddy.reserve(2).unwrap();
    assert_eq!(idx, 0);
    buddy.free(idx, 2);
    assert_eq!(buddy.reserve(2), Some(0));
    buddy.free(0, 2);
    assert_eq!(buddy.reserve(3), Some(8));
    buddy.free(8, 3);
    assert_eq!(buddy.reserve(3), Some(8));
}

#[test]
fn physical_memory_manager_allocates_free_frames() {
    let mut pmm = pmm_with_free(0x10_0000, &[(0x1_0000, 0x1_0000)]);
    let a = pmm.allocate_pages(1, PageSize::Small).unwrap();
    assert_eq!((a.base.addr().usize(), a.len), (0x1_0000, 1));
    let b = pmm.allocate_pages(2, PageSize::Small).unwrap();
    assert_eq!((b.base.addr().usize(), b.len), (0x1_2000, 2));
    let c = pmm.allocate_pages(3, PageSize::Small).unwrap();
    assert_eq!((c.base.addr().usize(), c.len), (0x1_4000, 4));
    let d = pmm.allocate_pages(8, PageSize::Small).unwrap();
    assert_eq!((d.base.addr().usize(), d.len), (0x1_8000, 8));
    let f = pmm.allocate_pages(1, PageSize::Small).unwrap();
    assert_eq!(f.base.addr().usize(), 0x1_1000);
    assert!(pmm.allocate_pages(1, PageSize::Small).is_none());
    pmm.deallocate_pages(b);
    let e = pmm.allocate_pages(1, PageSize::Small).unwrap();
    assert_eq!(e.base.addr().usize(), 0x1_2000);
    assert!(pmm.allocate_pages(1, PageSize::Large).is_none());
}

#[test]
fn frame_index_of_addresses() {
    let pmm = pmm_with_free(0x10_0000, &[]);
    assert_eq!(pmm.frame_idx(Addr::new(0x3456)), Some(3));
    assert_eq!(pmm.frame_idx(Addr::new(0x10_0000)), None);
}

#[test]
fn unaligned_free_regions_free_every_frame() {
    let mut pmm = pmm_with_free(0x10_0000, &[(0x1000, 0xF000)]);
    let a = pmm.allocate_pages(1, PageSize::Small).unwrap();
    assert_eq!(a.base.addr().usize(), 0x1000);
    let b = pmm.allocate_pages(2, PageSize::Small).unwrap();
    assert_eq!(b.base.addr().usize(), 0x2000);
    let c = pmm.allocate_pages(4, PageSize::Small).unwrap();
    assert_eq!(c.base.addr().usize(), 0x4000);
    let d = pmm.allocate_pages(8, PageSize::Small).unwrap();
    assert_eq!(d.base.addr().usize(), 0x8000);
    assert!(pmm.allocate_pages(1, PageSize::Small).is_none());
}

#[test]
fn pieces_off_the_block_grid_are_freed_frame_by_frame() {
    // The frames start at 0x1000, so the piece at 0x2000 of two frames
    // starts at frame 1 and is no block: its frames are freed one by one.
    let regions = vec![range(0x2000, 0x2000)];
    let mut pmm = PhysicalMemoryManager::new(range(0x1000, 0x10_0000), &regions);
    assert!(pmm.allocate_pages(2, PageSize::Small).is_none());
    let a = pmm.allocate_pages(1, PageSize::Small).unwrap();
    assert_eq!(a.base.addr().usize(), 0x2000);
    let b = pmm.allocate_pages(1, PageSize::Small).unwrap();
    assert_eq!(b.base.addr().usize(), 0x3000);
    assert!(pmm.allocate_pages(1, PageSize::Small).is_none());
}

#[test]
fn slabs_hand_out_distinct_slots() {
    let mut slab = Slab::new(0x10_0000, 4);
    assert_eq!(slab.fill_level(4), SlabFillLevel::Empty);
    assert!(slab.is_empty(4));
    let a = slab.reserve(4).unwrap();
    let b = slab.reserve(4).unwrap();
    assert_eq!(a, 0x10_0000 + 96);
    assert_eq!(b, a + 16);
    assert_eq!(slab.fill_level(4), SlabFillLevel::Partial);
    slab.free(4, 0);
    assert_eq!(slab.reserve(4), Some(a));
    let mut last = Slab::new(0x20_0000, 10);
    assert_eq!(last.reserve(10), Some(0x20_0000 + 1024));
    assert_eq!(last.reserve(10), Some(0x20_0000 + 2048));
    assert!(last.is_full(10));
    assert_eq!(last.reserve(10), None);
}

#[test]
fn caches_grow_and_shrink() {
    let mut pmm = pmm_with_free(0x20_0000, &[(0x10_0000, 0x10_0000)]);
    let mut cache = Cache::new(10);
    let a = cache.reserve(&mut pmm).unwrap();
    assert_eq!(a, REMAP + 0x10_0000 + 1024);
    let b = cache.reserve(&mut pmm).unwrap();
    assert_eq!(b, REMAP + 0x10_0000 + 2048);
    let c = cache.reserve(&mut pmm).unwrap();
    assert_eq!(c, REMAP + 0x10_1000 + 1024);
    cache.free(b);
    let d = cache.reserve(&mut pmm).unwrap();
    assert_eq!(d, b);
    cache.free(a);
    cache.free(d);
    cache.free(c);
    let e = cache.reserve(&mut pmm).unwrap();
    assert!(e == REMAP + 0x10_0000 + 1024 || e == REMAP + 0x10_1000 + 1024);
}

#[test]
fn test_mem() {
    let mut pmm = pmm_with_free(0x20_0000, &[(0x10_0000, 0x10_0000)]);
    let mut slab = SlabAllocator::new();
    let mut test: Vec<usize> = Vec::new();
    for i in 0..2000 {
        test.push(i);
    }
    let mut test2: Vec<u32> = Vec::new();
    for i in 0..2000 {
        test2.push(i);
    }
    for (i, v) in test.iter().enumerate() {
        assert!(i == *v);
    }
    for (i, v) in test2.iter().enumerate() {
        assert!(i == *v as usize);
    }
    drop(test);
    for (i, v) in test2.iter().enumerate() {
        assert!(i == *v as usize);
    }
    let mut ptrs = Vec::new();
    for _ in 0..1000 {
        ptrs.push(slab.allocate(8, 8, &mut pmm).expect("alloc should be successful"));
    }
    let mut sorted = ptrs.clone();
    sorted.sort();
    sorted.dedup();
    assert_eq!(sorted.len(), 1000);
    assert!(ptrs.iter().all(|p| p % 8 == 0));
    for p in ptrs {
        slab.deallocate(p, 8, 8);
    }
}

#[test]
fn slab_allocator_picks_the_slot_order() {
    let mut pmm = pmm_with_free(0x20_0000, &[(0x10_0000, 0x10_0000)]);
    let mut slab = SlabAllocator::new();
    assert_eq!(slab.allocate(0, 1, &mut pmm), Some(1));
    let a = slab.allocate(100, 8, &mut pmm).unwrap();
    assert_eq!(a % 128, 0);
    let b = slab.allocate(1, 64, &mut pmm).unwrap();
    assert_eq!(b % 64, 0);
    let c = slab.allocate(1024, 1, &mut pmm).unwrap();
    assert_eq!(c % 1024, 0);
    slab.deallocate(a, 100, 8);
    assert_eq!(slab.allocate(100, 8, &mut pmm), Some(a));
    slab.deallocate(1, 0, 1);
    // Blocks larger than the largest slot are refused.
    assert_eq!(slab.allocate(2048, 8, &mut pmm), None);
    assert_eq!(slab.allocate(1000, 2048, &mut pmm), None);
    assert_eq!(slab.allocate(1025, 1, &mut pmm), None);
}

#[test]
fn zero_sized_blocks() {
    assert_eq!(allocate_if_zst(0), Some(DANGLING));
    assert_eq!(allocate_if_zst(1), None);
    assert!(deallocate_if_zst(DANGLING, 0));
    assert!(!deallocate_if_zst(DANGLING, 4));
    assert!(!deallocate_if_zst(0x1000, 0));
}

#[test]
fn page_allocator_rounds_to_pages() {
    let mut pmm = pmm_with_free(0x20_0000, &[(0x10_0000, 0x10_0000)]);
    assert_eq!(PageAllocator.allocate(0, 8, &mut pmm), Some((1, 0)));
    assert_eq!(PageAllocator.allocate(u64::MAX, 8, &mut pmm), None);
    let (a, len) = PageAllocator.allocate(0x1800, 8, &mut pmm).unwrap();
    assert_eq!(len, 0x2000);
    assert_eq!(a, REMAP + 0x10_0000);
    let (b, len) = PhysicalPageManager.allocate(1, 1, &mut pmm).unwrap();
    assert_eq!((b, len), (REMAP + 0x10_2000, 0x1000));
    PageAllocator.deallocate(a, 0x1800, &mut pmm);
    let (c, _) = PageAllocator.allocate(0x2000, 0x1000, &mut pmm).unwrap();
    assert_eq!(c, a);
    PhysicalPageManager.deallocate(b, 1, &mut pmm);
    PageAllocator.deallocate(1, 0, &mut pmm);
}

#[test]
fn global_allocator_routes_by_size() {
    let mut pmm = pmm_with_free(0x20_0000, &[(0x10_0000, 0x10_0000)]);
    let mut slab = SlabAllocator::new();
    let (small, small_len) = GlobalAllocator.allocate(24, 8, &mut slab, &mut pmm).unwrap();
    assert_eq!(small_len, 32);
    assert_eq!(small % 32, 0);
    let (big, big_len) = GlobalAllocator.allocate(2000, 8, &mut slab, &mut pmm).unwrap();
    assert_eq!(big_len, 0x1000);
    assert_eq!(big % 0x1000, 0);
    assert_ne!(big - big % 0x1000, small - small % 0x1000);
    assert_eq!(GlobalAllocator.allocate(0, 8, &mut slab, &mut pmm), Some((1, 0)));
    GlobalAllocator.deallocate(small, 24, 8, &mut slab, &mut pmm);
    GlobalAllocator.deallocate(big, 2000, 8, &mut slab, &mut pmm);
    GlobalAllocator.deallocate(1, 0, 8, &mut slab, &mut pmm);
    let (again, _) = GlobalAllocator.allocate(2000, 8, &mut slab, &mut pmm).unwrap();
    assert_eq!(again, big);
}

#[test]
fn memblocks_merge_neighbours() {
    let mut blocks = Memblocks::new(4);
    assert!(blocks.put_block(Memblock::new(0x1000, 0x1000)));
    assert!(blocks.put_block(Memblock::new(0x3000, 0x1000)));
    assert_eq!(blocks.len(), 2);
    assert!(blocks.put_block(Memblock::new(0x2000, 0x1000)));
    assert_eq!(blocks.len(), 1);
    assert!(!blocks.put_block(Memblock::new(0x1800, 0x100)));
    assert!(!blocks.put_block(Memblock::new(0x1000, 0x10)));
    // A block that meets a stored one by a single byte is refused.
    assert!(!blocks.put_block(Memblock::new(0x0F00, 0x101)));
    assert!(!blocks.put_block(Memblock::new(0x3FFF, 0x10)));
    assert_eq!(blocks.len(), 1);
    let cut = blocks.cut_block(0x1000, 0x1000, None).unwrap();
    assert_eq!((cut.base(), cut.size()), (0x3000, 0x1000));
    let taken = blocks.take_block(0x1000).unwrap();
    assert_eq!((taken.base(), taken.size()), (0x1000, 0x2000));
    assert_eq!(blocks.len(), 0);
    assert!(blocks.take_block(0x1000).is_none());
    assert!(Memblock::empty().is_empty());
    assert_eq!(blocks.capacity_len(), 4);
}

#[test]
fn boot_memory_manager_allocates_from_the_top() {
    let mut builder = BootMemoryManagerBuilder::new();
    assert!(builder.add_free(0x1000, 0x9000));
    assert!(builder.add_reserved(0x0, 0x1000));
    let mut bmm = builder.build();
    assert_eq!(bmm.allocate(0x1000, 0x1000), Some(0x9000));
    bmm.deallocate(0x9000);
    assert_eq!(bmm.allocate(0x800, 0x800), Some(0x9800));
    assert_eq!(bmm.allocate_at(0x1000, 0x1000, 0x2000), Some(0x2000));
    assert_eq!(bmm.allocate(0x10_0000, 0x1000), None);
}

#[test]
fn boot_memory_manager_frees_adjacent_allocations_apart() {
    let mut builder = BootMemoryManagerBuilder::new();
    assert!(builder.add_free(0, 0x3000));
    let mut bmm = builder.build();
    assert_eq!(bmm.allocate(0x1000, 0x1000), Some(0x2000));
    assert_eq!(bmm.allocate(0x1000, 0x1000), Some(0x1000));
    bmm.deallocate(0x2000);
    // 0x1000..0x2000 stays allocated: only the freed range is given out.
    assert_eq!(bmm.allocate(0x2000, 0x1000), None);
    bmm.deallocate(0x1000);
    assert_eq!(bmm.allocate(0x3000, 0x1000), Some(0));
}

#[test]
fn boot_memory_manager_allocates_at_the_address_asked() {
    let mut builder = BootMemoryManagerBuilder::new();
    assert!(builder.add_free(0, 0x10000));
    let mut bmm = builder.build();
    assert_eq!(bmm.allocate_at(0x1000, 0x1000, 0x2000), Some(0x2000));
    // The range is taken: the next request there is served from the top of
    // the extent that follows it.
    assert_eq!(bmm.allocate_at(0x1000, 0x1000, 0x2000), Some(0xF000));
    // An unaligned address is not taken as such.
    assert_eq!(bmm.allocate_at(0x1000, 0x1000, 0x800), Some(0xE000));
    bmm.deallocate(0x2000);
    assert_eq!(bmm.allocate_at(0x1000, 0x1000, 0x2000), Some(0x2000));
}

#[test]
fn page_bitmap_finds_free_runs() {
    let mut map: PageBitmap<4096, UMASpace> = PageBitmap::init(Addr::new(0x10_0000), 8);
    assert_eq!(PageBitmap::<4096, UMASpace>::bytes_required(2), 18);
    assert_eq!(PageBitmap::<4096, UMASpace>::align_required(), 8);
    assert!(map.find_unoccupied(1).is_none());
    map.set(Addr::new(0x10_8000), 0x4000, false);
    assert!(map.find_unoccupied(1).is_none());
    map.set(Addr::new(0x10_2000), 0x3000, false);
    assert_eq!(map.find_unoccupied(3).unwrap().usize(), 0x10_2000);
    assert!(map.find_unoccupied(4).is_none());
    map.set(Addr::new(0x10_3000), 0x1000, true);
    assert_eq!(map.find_unoccupied(1).unwrap().usize(), 0x10_2000);
    assert!(map.find_unoccupied(2).is_none());
    let r = map.managed_range();
    assert_eq!((r.start.usize(), r.end.usize()), (0x10_0000, 0x10_8000));
}

#[test]
fn remapping_and_kernel_layout() {
    let p: Addr<UMASpace> = Addr::new(0x1234);
    let v = PhysicalRemapSpace::p2v(p);
    assert_eq!(v.usize(), REMAP + 0x1234);
    assert_eq!(PhysicalRemapSpace::v2p(v).usize(), 0x1234);
    assert!(PhysicalRemapSpace::is_kernel_space());
    let start: Addr<KernelImageSpace> = Addr::new(0xFFFF_FFFF_8000_0000);
    let end: Addr<KernelImageSpace> = Addr::new(0xFFFF_FFFF_8040_0000);
    assert_eq!(kernel_size(start, end), 0x40_0000);
    assert_eq!(kernel_offset_vma(), 0xFFFF_FFFF_8000_0000);
    assert_eq!(KernelImageSpace::v2p(end).usize(), 0x40_0000);
}

#[test]
fn phy_memblocks_insert_reports_overlap() {
    let mut blocks = PhyMemblocks::new();
    assert!(!blocks.insert(range(0x1000, 0x1000)));
    // Overlapping the first range: merged.
    assert!(blocks.insert(range(0x1800, 0x1800)));
    // Apart from everything: a range of its own.
    assert!(!blocks.insert(range(0x5000, 0x1000)));
    // Inside the merged range.
    assert!(blocks.insert(range(0x2000, 0x100)));
}
