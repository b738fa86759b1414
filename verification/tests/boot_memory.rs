use kernel::mem::addr::{Addr, AddrRange};
use kernel::mem::phy::memblock::{init, IntersectRanges, MemblockSystem};
use kernel::mem::phy::UMASpace;

const SPACE_END: u64 = 0x4000_0000_0000;

fn range(base: u64, size: u64) -> AddrRange<UMASpace> {
    AddrRange::new(Addr::new(base), size)
}

fn span(start: u64, end: u64) -> AddrRange<UMASpace> {
    range(start, end - start)
}

fn bounds(ranges: &[AddrRange<UMASpace>]) -> Vec<(u64, u64)> {
    ranges.iter().map(|r| (r.start().usize(), r.end().usize())).collect()
}

#[test]
fn empty_system_has_nothing_available() {
    let mb = MemblockSystem::init();
    assert!(mb.available_regions().is_empty());
    assert!(mb.memory_regions().is_empty());
    assert!(mb.reserved_regions().is_empty());
    let managed = mb.managed_range();
    assert_eq!((managed.start().usize(), managed.size), (0, 0));
}

#[test]
fn added_regions_are_kept_sorted() {
    let mut mb = MemblockSystem::init();
    mb.add(span(0x20000, 0x30000));
    mb.add(span(0x1000, 0x8000));
    mb.add(span(0x10000, 0x18000));
    assert_eq!(
        bounds(&mb.memory_regions()),
        vec![(0x1000, 0x8000), (0x10000, 0x18000), (0x20000, 0x30000)]
    );
    let managed = mb.managed_range();
    assert_eq!((managed.start().usize(), managed.end().usize()), (0x1000, 0x30000));
}

#[test]
fn overlapping_regions_merge() {
    let mut mb = MemblockSystem::init();
    mb.add(span(0x4000, 0x8000));
    mb.add(span(0x6000, 0x9000));
    // A region overlapping the range before it is merged with it.
    assert_eq!(bounds(&mb.memory_regions()), vec![(0x4000, 0x9000)]);
    mb.add(span(0x0, 0x1000));
    mb.add(span(0x500, 0x2500));
    assert_eq!(bounds(&mb.memory_regions()), vec![(0x0, 0x2500), (0x4000, 0x9000)]);
    mb.add(span(0x2000, 0x5000));
    assert_eq!(bounds(&mb.memory_regions()), vec![(0x0, 0x9000)]);
    assert_eq!(bounds(&mb.available_regions()), vec![(0x0, 0x9000)]);
}

#[test]
fn adjacent_regions_stay_apart() {
    let mut mb = MemblockSystem::init();
    mb.add(span(0x1000, 0x2000));
    mb.add(span(0x2000, 0x3000));
    assert_eq!(bounds(&mb.memory_regions()), vec![(0x1000, 0x2000), (0x2000, 0x3000)]);
}

#[test]
fn empty_region_is_ignored() {
    let mut mb = MemblockSystem::init();
    mb.add(range(0x5000, 0));
    mb.reserve(range(0x5000, 0));
    assert!(mb.memory_regions().is_empty());
    assert!(mb.reserved_regions().is_empty());
}

#[test]
fn reserved_ranges_are_cut_out() {
    let mut mb = MemblockSystem::init();
    mb.add(span(0, 0x10000));
    mb.add(span(0x20000, 0x30000));
    mb.reserve(span(0, 0x1000));
    mb.reserve(span(0x4000, 0x6000));
    mb.reserve(span(0x22000, 0x24000));
    assert_eq!(
        bounds(&mb.available_regions()),
        vec![(0x1000, 0x4000), (0x6000, 0x10000), (0x20000, 0x22000), (0x24000, 0x30000)]
    );
    assert_eq!(
        bounds(&mb.reserved_regions()),
        vec![(0, 0x1000), (0x4000, 0x6000), (0x22000, 0x24000)]
    );
}

#[test]
fn reservation_outside_memory_changes_nothing_available() {
    let mut mb = MemblockSystem::init();
    mb.add(span(0x10000, 0x20000));
    mb.reserve(span(0x40000, 0x50000));
    assert_eq!(bounds(&mb.available_regions()), vec![(0x10000, 0x20000)]);
}

#[test]
fn last_address_of_space_is_never_available() {
    let mut mb = MemblockSystem::init();
    mb.add(span(SPACE_END - 0x2000, SPACE_END));
    assert_eq!(bounds(&mb.available_regions()), vec![(SPACE_END - 0x2000, SPACE_END - 1)]);
}

#[test]
fn sweep_hands_out_intersections_in_turn() {
    let first = vec![span(0, 0x5000), span(0x3000, 0x14000)];
    let second = vec![span(0, 0x10000), span(0x12000, 0x30000)];
    let mut sweep = IntersectRanges::new(first, second);
    let mut out = Vec::new();
    while let Some(r) = sweep.next() {
        out.push(r);
    }
    assert_eq!(bounds(&out), vec![(0, 0x5000), (0x3000, 0x10000), (0x12000, 0x14000)]);
}

#[test]
fn boot_record_reserves_kernel_info_and_modules() {
    let available = vec![span(0, 0x9F000), span(0x100000, 0x800000)];
    let kernel = span(0x100000, 0x200000);
    let boot_info = span(0x300000, 0x301000);
    let modules = vec![span(0x400000, 0x480000), range(0x500000, 0)];
    let mb = init(&available, kernel, boot_info, &modules);
    assert_eq!(
        bounds(&mb.available_regions()),
        vec![
            (0x1000, 0x9F000),
            (0x200000, 0x300000),
            (0x301000, 0x400000),
            (0x480000, 0x800000)
        ]
    );
    assert_eq!(
        bounds(&mb.reserved_regions()),
        vec![(0, 0x1000), (0x100000, 0x200000), (0x300000, 0x301000), (0x400000, 0x480000)]
    );
}

#[test]
fn overlapping_reservations_merge() {
    let mut mb = MemblockSystem::init();
    mb.add(span(0, 0x10000));
    mb.reserve(span(0x4000, 0x6000));
    mb.reserve(span(0x5000, 0x7000));
    mb.reserve(span(0x3000, 0x4800));
    assert_eq!(bounds(&mb.reserved_regions()), vec![(0x3000, 0x7000)]);
    assert_eq!(bounds(&mb.available_regions()), vec![(0, 0x3000), (0x7000, 0x10000)]);
}
