use kernel::mem::addr::{Addr, AddrRange, Page, PageSize};
use kernel::mem::paging::entry::{EntryRef, EntryTarget, Flags, RawEntry};
use kernel::mem::paging::memory::TableMemory;
use kernel::mem::paging::table::{RawTable, TableRef};
use kernel::mem::paging::{Level, X86_64MemoryManager, X86_64MemoryMap};
use kernel::mem::phy::{PhysicalMemoryManager, UMASpace};
use kernel::mem::virt::{KernelImageSpace, PhysicalRemapSpace};
use kernel::sched::{
    init_scheduler, preempt, write_init_stack, Dispatcher, KThread, PreemptGuard, Scheduler, Tcb,
    ThreadId, ThreadState, IDLE_PRIORITY, KERNEL_STACK_ARRAY_LEN, TCB_MAGIC,
};

fn kaddr(v: u64) -> Addr<KernelImageSpace> {
    Addr::new(v)
}

#[test]
fn levels_step_down_and_up() {
    assert_eq!(Level::CR3.next_level(), Some(Level::PML4));
    assert_eq!(Level::PD.next_level(), Some(Level::PT));
    assert_eq!(Level::PT.next_level(), None);
    assert_eq!(Level::PT.prev_level(), Some(Level::PD));
    assert_eq!(Level::CR3.prev_level(), None);
    assert_eq!(Level::from_page_size(PageSize::Large), Level::PD);
    assert_eq!(Level::from_page_size(PageSize::Huge), Level::PDPT);
    assert_eq!(Level::PDPT.page_size(), PageSize::Huge);
    let r = Level::PML4.page_table_idx_range();
    assert_eq!((r.start, r.end), (39, 48));
    let r = Level::PD.page_idx_range();
    assert_eq!((r.start, r.end), (0, 21));
}

#[test]
fn flags_keep_and_truncate_bits() {
    let mut f = Flags::from_bits_retain(0x3FF);
    assert!(f.contains(Flags::PRESENT | Flags::GLOBAL));
    f.truncate();
    assert_eq!(f.bits(), Flags::ALL);
    assert!(!Flags::from_bits_retain(Flags::PRESENT).contains(Flags::WRITEABLE));
}

#[test]
fn entries_point_to_pages_and_tables() {
    let flags = Flags::from_bits_retain(Flags::PRESENT | Flags::WRITEABLE);
    let pt = EntryRef::init(RawEntry::default(), Level::PT, Addr::new(0x5000), flags);
    assert_eq!(pt.raw().0, 0x5003);
    assert!(pt.is_present());
    assert!(pt.is_page());
    match pt.target() {
        EntryTarget::Page(l, a) => {
            assert_eq!(l, Level::PT);
            assert_eq!(a.usize(), 0x5000);
        },
        _ => panic!("expected a page"),
    }
    let table = EntryRef::init(RawEntry::default(), Level::PD, Addr::new(0x7000), flags);
    assert!(table.is_table());
    match table.target() {
        EntryTarget::Table(l, a) => {
            assert_eq!(l, Level::PT);
            assert_eq!(a.usize(), 0x7000);
        },
        _ => panic!("expected a table"),
    }
    let big = Flags::from_bits_retain(Flags::PRESENT | Flags::BIG_PAGE);
    let large = EntryRef::init(RawEntry::default(), Level::PD, Addr::new(0x20_0000), big);
    assert_eq!(large.raw().0, 0x20_0081);
    let misaligned = EntryRef::init(RawEntry::default(), Level::PD, Addr::new(0x1000), big);
    assert_eq!(misaligned.raw().0, 0x81);
    let absent = EntryRef::init(RawEntry::default(), Level::PT, Addr::new(0x5000), Flags::from_bits_retain(0));
    assert_eq!(absent.raw().0, 0);
    assert!(matches!(absent.target(), EntryTarget::NotPresent));
}

#[test]
fn entry_flags_and_address_updates() {
    let flags = Flags::from_bits_retain(Flags::PRESENT | Flags::WRITEABLE);
    let mut e = EntryRef::init(RawEntry::default(), Level::PT, Addr::new(0x5000), flags);
    e.set_flags(Flags::from_bits_retain(Flags::WRITEABLE), false);
    assert_eq!(e.raw().0, 0x5001);
    e.toggle_flags(Flags::from_bits_retain(Flags::DIRTY));
    assert_eq!(e.flags().bits() & Flags::ALL, 0x41);
    assert!(e.set_addr(Addr::new(0x9000)));
    assert_eq!(e.raw().0, 0x9041);
    assert!(!e.set_addr(Addr::new(0x9001)));
    e.reinit(Addr::new(0xA000), flags);
    assert_eq!(e.raw().0, 0xA003);
    assert_eq!(e.level(), Level::PT);
    let back = EntryRef::from_raw(RawEntry(0xA003), Level::PT);
    assert_eq!(back.raw().0, 0xA003);
}

#[test]
fn tables_index_by_address_bits() {
    let mut t = TableRef::from_raw(Level::PML4, RawTable::default());
    let e = EntryRef::init(RawEntry::default(), Level::PML4, Addr::new(0x3000), Flags::from_bits_retain(3));
    t.write(511, e);
    assert_eq!(t.index(511).raw().0, 0x3003);
    assert_eq!(t.index(0).raw().0, 0);
    let via = t.index_with_vaddr(kaddr(0xFFFF_FFFF_8000_0000));
    assert_eq!(via.raw().0, 0x3003);
    assert_eq!(t.raw().0[511].0, 0x3003);
}

#[test]
fn reborrowed_tables_write_through() {
    let mut t = TableRef::from_raw(Level::PD, RawTable::default());
    let e = EntryRef::init(RawEntry::default(), Level::PD, Addr::new(0x4000), Flags::from_bits_retain(3));
    t.reborrow().write(7, e);
    assert_eq!(t.index(7).raw().0, 0x4003);
}

#[test]
fn initial_kernel_tables() {
    let (mm, tables) = X86_64MemoryManager::init(
        0x1_0000_0000,
        kaddr(0xFFFF_FFFF_8040_0000),
        kaddr(0xFFFF_FFFF_8010_0000),
        kaddr(0xFFFF_FFFF_8020_0000),
        kaddr(0xFFFF_FFFF_8030_0000),
    );
    assert_eq!(mm.current_cr3(), 0x10_0000);
    assert_eq!(tables.pml4.0[0].0, 0);
    assert_eq!(tables.pml4.0[255].0, 0);
    assert_eq!(tables.pml4.0[256].0, 0x20_0003);
    assert_eq!(tables.pml4.0[511].0, 0x20_0000 + 255 * 0x1000 + 3);
    assert_eq!(tables.pdpts.len(), 256);
    assert_eq!(tables.pdpts[255].0[510].0, 0x30_0003);
    assert_eq!(tables.pdpts[255].0[0].0, 0);
    assert_eq!(tables.pdpts[17].0[0].0, 0x183);
    assert_eq!(tables.pdpts[17].0[3].0, 0xC000_0183);
    assert_eq!(tables.pdpts[18].0[0].0, 0);
    assert_eq!(tables.kernel_pd.0[0].0, 0x183);
    assert_eq!(tables.kernel_pd.0[1].0, 0x20_0183);
    assert_eq!(tables.kernel_pd.0[2].0, 0);
}

#[test]
fn initial_tables_translate_the_kernel_and_the_remap() {
    let (mm, tables) = X86_64MemoryManager::init(
        0x1_0000_0000,
        kaddr(0xFFFF_FFFF_8040_0000),
        kaddr(0xFFFF_FFFF_8010_0000),
        kaddr(0xFFFF_FFFF_8020_0000),
        kaddr(0xFFFF_FFFF_8030_0000),
    );
    let mut mem = TableMemory::new();
    mem.insert(0x10_0000, TableRef::from_raw(Level::PML4, tables.pml4));
    let mut i: u64 = 0;
    for pdpt in tables.pdpts {
        mem.insert(0x20_0000 + i * 0x1000, TableRef::from_raw(Level::PDPT, pdpt));
        i += 1;
    }
    mem.insert(0x30_0000, TableRef::from_raw(Level::PD, tables.kernel_pd));
    let map = mm.current_map();
    let t = map.translate(&mem, kaddr(0xFFFF_FFFF_8012_3456));
    assert_eq!(t.map(|a| a.usize()), Some(0x12_3456));
    let t = map.translate(&mem, kaddr(0xFFFF_FFFF_803F_FFFF));
    assert_eq!(t.map(|a| a.usize()), Some(0x3F_FFFF));
    assert!(map.translate(&mem, kaddr(0xFFFF_FFFF_8040_0000)).is_none());
    let t = map.translate(&mem, Addr::<PhysicalRemapSpace>::new(0xFFFF_8880_8765_4321));
    assert_eq!(t.map(|a| a.usize()), Some(0x8765_4321));
}

#[test]
fn new_maps_share_the_kernel_half() {
    let mut pmm = PhysicalMemoryManager::new(
        AddrRange::new(Addr::<UMASpace>::new(0), 0x10_0000),
        &vec![AddrRange::new(Addr::<UMASpace>::new(0x1_0000), 0x1_0000)],
    );
    let mut current = RawTable::default();
    current.0[3] = RawEntry(0x1234_5003);
    current.0[300] = RawEntry(0x5003);
    current.0[511] = RawEntry(0x6003);
    let (map, table): (X86_64MemoryMap, RawTable) = X86_64MemoryMap::new(&current, &mut pmm).unwrap();
    assert_eq!(map.cr3_entry(), 0x1_0000);
    assert_eq!(table.0[3].0, 0);
    assert_eq!(table.0[300].0, 0x5003);
    assert_eq!(table.0[511].0, 0x6003);
    let (map2, _) = X86_64MemoryMap::new(&current, &mut pmm).unwrap();
    assert_eq!(map2.cr3_entry(), 0x1_1000);
}

fn tcb(tid: u64, priority: u8, state: ThreadState) -> Tcb {
    Tcb { tid: ThreadId(tid), sp: 0x1000 * tid, cpu_id: 0, priority, is_usr: false, state }
}

#[test]
fn dispatcher_queues_by_state() {
    let mut d = Dispatcher::new();
    d.put(tcb(1, 1, ThreadState::Ready));
    d.put(tcb(2, 1, ThreadState::Zombie));
    d.put(tcb(3, 1, ThreadState::Ready));
    d.put(tcb(0, IDLE_PRIORITY, ThreadState::Ready));
    d.put(tcb(9, IDLE_PRIORITY, ThreadState::Ready));
    assert_eq!(d.next().unwrap().tid, ThreadId(1));
    assert_eq!(d.next().unwrap().tid, ThreadId(3));
    assert_eq!(d.next().unwrap().tid, ThreadId(0));
    assert!(d.next().is_none());
}

#[test]
fn scheduler_switches_round_robin() {
    let mut s = init_scheduler(0xA000, 0xB000);
    let sp = s.force_switch();
    assert_eq!(sp, 0xB000);
    let t2 = s.launch(1, 0xC000);
    assert_eq!(t2, ThreadId(2));
    let sw = s.reschedule(ThreadState::Ready).unwrap();
    assert_eq!((sw.from, sw.to, sw.to_sp), (ThreadId(1), ThreadId(2), 0xC000));
    let sw = s.reschedule(ThreadState::Zombie).unwrap();
    assert_eq!((sw.from, sw.to), (ThreadId(2), ThreadId(1)));
    let sw = s.reschedule(ThreadState::Ready).unwrap();
    assert_eq!((sw.from, sw.to, sw.to_sp), (ThreadId(1), ThreadId(0), 0xA000));
    assert!(s.reschedule(ThreadState::Running).is_none());
    let sw = s.reschedule(ThreadState::Ready).unwrap();
    assert_eq!(sw.to, ThreadId(1));
}

#[test]
fn scheduler_without_other_threads_keeps_running() {
    let mut s = Scheduler::new(0xA000);
    let sp = s.force_switch();
    assert_eq!(sp, 0xA000);
    assert!(s.reschedule(ThreadState::Ready).is_none());
    let t = s.launch(5, 0xD000);
    assert_eq!(t, ThreadId(1));
    assert!(preempt(&mut s, 1).is_none());
    let sw = preempt(&mut s, 0).unwrap();
    assert_eq!((sw.from, sw.to), (ThreadId(0), ThreadId(1)));
}

#[test]
fn preempt_guards_count() {
    let mut cnt = 0u64;
    let g = PreemptGuard::new(&mut cnt);
    let h = PreemptGuard::new(&mut cnt);
    assert_eq!(PreemptGuard::cnt(&cnt), 2);
    g.release(&mut cnt);
    h.leak();
    assert_eq!(cnt, 1);
    PreemptGuard::reclaim().release(&mut cnt);
    assert_eq!(cnt, 0);
}

#[test]
fn initial_stacks_hold_the_entry_frame() {
    let mut stack = vec![7u64; 10];
    assert_eq!(write_init_stack(&mut stack, 0xDEAD), 8);
    assert_eq!(stack, vec![7, 7, 0, 0, 0, 0, 0, 0, 0xDEAD, 0]);
    let mut small = vec![1u64; 7];
    assert_eq!(write_init_stack(&mut small, 0xDEAD), 0);
    assert_eq!(small, vec![1u64; 7]);
}

#[test]
fn threads_start_ready_on_their_frame() {
    let base = 0x40_0000u64;
    let t = KThread::new(base, 0xBEEF, 0xF00D, 0, 3, false, ThreadId(7));
    let tcb = t.tcb();
    assert_eq!(tcb.tid, ThreadId(7));
    assert_eq!(tcb.priority, 3);
    assert_eq!(tcb.state, ThreadState::Ready);
    assert_eq!(tcb.sp, base + (KERNEL_STACK_ARRAY_LEN as u64 - 8) * 8);
    assert_eq!(t.stack_base(), base + KERNEL_STACK_ARRAY_LEN as u64 * 8);
    assert_eq!(KThread::thread_of(base + 0x1234), base);
    assert_eq!(KThread::thread_of(base + 0x4000), base + 0x4000);
    assert_eq!(TCB_MAGIC, 0xBCDB_BAAA);
}

fn fresh_map() -> (X86_64MemoryMap, TableMemory, PhysicalMemoryManager) {
    let mut pmm = PhysicalMemoryManager::new(
        AddrRange::new(Addr::<UMASpace>::new(0), 0x10_0000),
        &vec![AddrRange::new(Addr::<UMASpace>::new(0x1_0000), 0x1_0000)],
    );
    let (map, pml4) = X86_64MemoryMap::new(&RawTable::default(), &mut pmm).unwrap();
    let mut mem = TableMemory::new();
    mem.insert(map.cr3_entry(), TableRef::from_raw(Level::PML4, pml4));
    (map, mem, pmm)
}

#[test]
fn mapped_page_translates_to_its_frame() {
    let (mut map, mut mem, mut pmm) = fresh_map();
    let vpage = Page::new(kaddr(0xFFFF_FFFF_8000_1000), PageSize::Small);
    let ppage = Page::new(Addr::<UMASpace>::new(0x5_0000), PageSize::Small);
    let flags = Flags::from_bits_retain(Flags::PRESENT | Flags::WRITEABLE);
    assert!(map.translate(&mem, kaddr(0xFFFF_FFFF_8000_1000)).is_none());
    assert_eq!(map.map(&mut mem, vpage, ppage, flags, &mut pmm), Some(()));
    let t = map.translate(&mem, kaddr(0xFFFF_FFFF_8000_1000));
    assert_eq!(t.map(|a| a.usize()), Some(0x5_0000));
    // An address within the page keeps its offset in the frame.
    let t = map.translate(&mem, kaddr(0xFFFF_FFFF_8000_1234));
    assert_eq!(t.map(|a| a.usize()), Some(0x5_0234));
    // The neighbouring page stays unmapped.
    assert!(map.translate(&mem, kaddr(0xFFFF_FFFF_8000_2000)).is_none());
}

#[test]
fn mapping_fails_when_no_frame_is_left_for_a_table() {
    let mut pmm = PhysicalMemoryManager::new(
        AddrRange::new(Addr::<UMASpace>::new(0), 0x10_0000),
        &vec![AddrRange::new(Addr::<UMASpace>::new(0x1_0000), 0x1000)],
    );
    let (mut map, pml4) = X86_64MemoryMap::new(&RawTable::default(), &mut pmm).unwrap();
    let mut mem = TableMemory::new();
    mem.insert(map.cr3_entry(), TableRef::from_raw(Level::PML4, pml4));
    let vpage = Page::new(kaddr(0xFFFF_FFFF_8000_1000), PageSize::Small);
    let ppage = Page::new(Addr::<UMASpace>::new(0x5_0000), PageSize::Small);
    let flags = Flags::from_bits_retain(Flags::PRESENT | Flags::WRITEABLE);
    assert_eq!(map.map(&mut mem, vpage, ppage, flags, &mut pmm), None);
    assert!(pmm.allocate_pages(1, PageSize::Small).is_none());
    assert!(map.translate(&mem, kaddr(0xFFFF_FFFF_8000_1000)).is_none());
}

#[test]
fn mapping_again_reuses_the_tables() {
    let (mut map, mut mem, mut pmm) = fresh_map();
    let flags = Flags::from_bits_retain(Flags::PRESENT | Flags::WRITEABLE);
    let v1 = Page::new(kaddr(0xFFFF_FFFF_8000_1000), PageSize::Small);
    let v2 = Page::new(kaddr(0xFFFF_FFFF_8000_2000), PageSize::Small);
    let p1 = Page::new(Addr::<UMASpace>::new(0x5_0000), PageSize::Small);
    let p2 = Page::new(Addr::<UMASpace>::new(0x7_0000), PageSize::Small);
    assert_eq!(map.map(&mut mem, v1, p1, flags, &mut pmm), Some(()));
    let spare = pmm.allocate_pages(1, PageSize::Small).map(|r| r.base.addr().usize());
    assert_eq!(map.map(&mut mem, v2, p2, flags, &mut pmm), Some(()));
    assert_eq!(map.translate(&mem, kaddr(0xFFFF_FFFF_8000_1000)).map(|a| a.usize()), Some(0x5_0000));
    assert_eq!(map.translate(&mem, kaddr(0xFFFF_FFFF_8000_2000)).map(|a| a.usize()), Some(0x7_0000));
    // The second mapping needed no new table: the next frame is the one
    // after the spare.
    let next = pmm.allocate_pages(1, PageSize::Small).map(|r| r.base.addr().usize());
    assert_eq!(next, spare.map(|a| a + 0x1000));
    // Remapping a page replaces its frame.
    assert_eq!(map.map(&mut mem, v1, p2, flags, &mut pmm), Some(()));
    assert_eq!(map.translate(&mem, kaddr(0xFFFF_FFFF_8000_1000)).map(|a| a.usize()), Some(0x7_0000));
}

#[test]
fn large_page_maps_at_the_directory_level() {
    let (mut map, mut mem, mut pmm) = fresh_map();
    let flags = Flags::from_bits_retain(Flags::PRESENT | Flags::WRITEABLE | Flags::BIG_PAGE);
    let vpage = Page::new(kaddr(0xFFFF_FFFF_8020_0000), PageSize::Large);
    let ppage = Page::new(Addr::<UMASpace>::new(0x40_0000), PageSize::Large);
    assert_eq!(map.map(&mut mem, vpage, ppage, flags, &mut pmm), Some(()));
    let t = map.translate(&mem, kaddr(0xFFFF_FFFF_8031_2345));
    assert_eq!(t.map(|a| a.usize()), Some(0x51_2345));
}

#[test]
fn unpresent_mapping_translates_to_nothing() {
    let (mut map, mut mem, mut pmm) = fresh_map();
    let vpage = Page::new(kaddr(0xFFFF_FFFF_8000_1000), PageSize::Small);
    let ppage = Page::new(Addr::<UMASpace>::new(0x5_0000), PageSize::Small);
    let flags = Flags::from_bits_retain(Flags::WRITEABLE);
    assert_eq!(map.map(&mut mem, vpage, ppage, flags, &mut pmm), Some(()));
    assert!(map.translate(&mem, kaddr(0xFFFF_FFFF_8000_1000)).is_none());
}

#[test]
fn mapping_fails_without_frames_for_tables() {
    let mut pmm = PhysicalMemoryManager::new(
        AddrRange::new(Addr::<UMASpace>::new(0), 0x10_0000),
        &vec![AddrRange::new(Addr::<UMASpace>::new(0x1_0000), 0x2000)],
    );
    let (mut map, pml4) = X86_64MemoryMap::new(&RawTable::default(), &mut pmm).unwrap();
    let mut mem = TableMemory::new();
    mem.insert(map.cr3_entry(), TableRef::from_raw(Level::PML4, pml4));
    let vpage = Page::new(kaddr(0xFFFF_FFFF_8000_1000), PageSize::Small);
    let ppage = Page::new(Addr::<UMASpace>::new(0x5_0000), PageSize::Small);
    let flags = Flags::from_bits_retain(Flags::PRESENT | Flags::WRITEABLE);
    assert_eq!(map.map(&mut mem, vpage, ppage, flags, &mut pmm), None);
    assert!(map.translate(&mem, kaddr(0xFFFF_FFFF_8000_1000)).is_none());
}

#[test]
fn dropping_a_map_frees_its_lower_half() {
    let mut pmm = PhysicalMemoryManager::new(
        AddrRange::new(Addr::<UMASpace>::new(0), 0x10_0000),
        &vec![AddrRange::new(Addr::<UMASpace>::new(0x1_0000), 0x1_0000)],
    );
    let (map, pml4) = X86_64MemoryMap::new(&RawTable::default(), &mut pmm).unwrap();
    let root = map.cr3_entry();
    let pdpt = pmm.allocate_pages(1, PageSize::Small).unwrap().base.addr();
    let kernel_pdpt = pmm.allocate_pages(1, PageSize::Small).unwrap().base.addr();
    let flags = Flags::from_bits_retain(Flags::PRESENT | Flags::WRITEABLE);
    let mut pml4 = TableRef::from_raw(Level::PML4, pml4);
    pml4.write(0, EntryRef::init(RawEntry::default(), Level::PML4, pdpt, flags));
    pml4.write(300, EntryRef::init(RawEntry::default(), Level::PML4, kernel_pdpt, flags));
    let mut mem = TableMemory::new();
    mem.insert(root, pml4);
    mem.insert(pdpt.usize(), TableRef::from_raw(Level::PDPT, RawTable::default()));
    mem.insert(kernel_pdpt.usize(), TableRef::from_raw(Level::PDPT, RawTable::default()));
    map.drop(&mut mem, &mut pmm);
    assert!(!mem.holds(root));
    assert!(!mem.holds(pdpt.usize()));
    assert!(mem.holds(kernel_pdpt.usize()));
    // The two frames freed are handed out again, lowest first.
    let again = pmm.allocate_pages(1, PageSize::Small).unwrap().base.addr().usize();
    assert_eq!(again, root);
}
