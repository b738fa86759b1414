use kernel::common::array_forest::ArrayForest;
use kernel::arch::gdt::{Gdt, SegmentDesc, TSS_SIZE};
use kernel::arch::isr::{init_exn_handlers, init_irq_handlers, GateTyp, InterruptDesc, IntrptStack, IDT_LEN};
use kernel::arch::pic::{ack, init_pic, mask, mask_all, unmask, unmask_all};
use kernel::arch::pmio::Port;
use kernel::common::{shl_usize, Privilege, GiB, KiB, MiB, TiB};
use kernel::interrupt::{
    build_irq_info, from_intrpt_vector, register_handler, timer_handler, HandlerTable, IntrptGuard,
};
use kernel::sync::InitCell;

#[test]
fn segment_descriptors_encode_access_and_flags() {
    assert_eq!(SegmentDesc::invalid().0, 0);
    assert_eq!(SegmentDesc::kcode().0, (0x9A << 40) | (0xA << 52));
    assert_eq!(SegmentDesc::kdata().0, (0x92 << 40) | (0xC << 52));
    assert_eq!(SegmentDesc::ucode().0, (0xFA << 40) | (0xA << 52));
    assert_eq!(SegmentDesc::udata().0, (0xF2 << 40) | (0xC << 52));
}

#[test]
fn tss_descriptor_splits_the_base() {
    let base: u64 = 0x1234_5678_9ABC_DEF0;
    let [low, high] = SegmentDesc::tss(base, TSS_SIZE);
    assert_eq!(low.0 & 0xFFFF, TSS_SIZE as u64);
    assert_eq!(high.0, base >> 32);
    // bits 16..40 hold base bits 0..24, bits 56..64 base bits 24..32
    assert_eq!((low.0 >> 16) & 0xFF_FFFF, base & 0xFF_FFFF);
    assert_eq!((low.0 >> 56) & 0xFF, (base >> 24) & 0xFF);
    assert_eq!((low.0 >> 40) & 0xFF, 0x89);
}

#[test]
fn gdt_layout() {
    let gdt = Gdt::new(0x10_0000);
    assert_eq!(gdt.0[0].0, 0);
    assert_eq!(gdt.0[1].0, SegmentDesc::kcode().0);
    assert_eq!(gdt.0[2].0, SegmentDesc::kdata().0);
    assert_eq!(gdt.0[3].0, SegmentDesc::ucode().0);
    assert_eq!(gdt.0[4].0, SegmentDesc::udata().0);
    assert_eq!(gdt.0[5].0 & 0xFFFF, 104);
    assert_eq!(gdt.0[6].0, 0);
    assert_eq!(Gdt::limit(), 55);
}

#[test]
fn interrupt_descriptor_fields() {
    let addr: u64 = 0xFFFF_FFFF_8012_3456;
    let d = InterruptDesc::new(addr, GateTyp::Intrpt, Privilege::Kernel);
    assert_eq!(d.low_low_offset, 0x3456);
    assert_eq!(d.high_low_offset, 0x8012);
    assert_eq!(d.high_offset, 0xFFFF_FFFF);
    assert_eq!(d.segment_selector, 8);
    assert_eq!(d.attributes, 0x8E00);
    assert_eq!(d.reserved, 0);
    let u = InterruptDesc::new(addr, GateTyp::Trap, Privilege::User);
    assert_eq!(u.attributes, 0xEF00);
    assert_eq!(InterruptDesc::exn(addr).attributes, 0x8F00);
    assert_eq!(InterruptDesc::irq(addr), d);
    let n = InterruptDesc::null();
    assert_eq!(n.attributes, 0);
    assert_eq!(n.segment_selector, 0);
}

#[test]
fn descriptor_offset_reassembles_the_address() {
    for addr in [0u64, 1, 0xFFFF, 0x1_0000, 0xDEAD_BEEF_CAFE_F00D, u64::MAX] {
        let d = InterruptDesc::irq(addr);
        let back = d.low_low_offset as u64 | (d.high_low_offset as u64) << 16 | (d.high_offset as u64) << 32;
        assert_eq!(back, addr);
    }
}

#[test]
fn idt_installs_exception_and_irq_gates() {
    let mut idt = vec![InterruptDesc::null(); IDT_LEN];
    let mut table = vec![0u64; IDT_LEN];
    table[0] = 0x1000;
    table[21] = 0x2100;
    table[22] = 0x2200;
    table[32] = 0x3200;
    table[47] = 0x4700;
    table[48] = 0x4800;
    init_exn_handlers(&mut idt, &table);
    assert_eq!(idt[0], InterruptDesc::exn(0x1000));
    assert_eq!(idt[21], InterruptDesc::exn(0x2100));
    assert_eq!(idt[22], InterruptDesc::null());
    assert_eq!(idt[5], InterruptDesc::null());
    init_irq_handlers(&mut idt, &table);
    assert_eq!(idt[32], InterruptDesc::irq(0x3200));
    assert_eq!(idt[47], InterruptDesc::irq(0x4700));
    assert_eq!(idt[48], InterruptDesc::null());
    assert_eq!(idt[0], InterruptDesc::exn(0x1000));
}

#[test]
fn pic_initialisation_sequence() {
    let writes = init_pic();
    let expected: [(u16, u8); 8] = [
        (0x20, 0x11),
        (0xA0, 0x11),
        (0x21, 32),
        (0xA1, 40),
        (0x21, 4),
        (0xA1, 2),
        (0x21, 1),
        (0xA1, 1),
    ];
    assert_eq!(writes.len(), 8);
    for (w, e) in writes.iter().zip(expected.iter()) {
        assert_eq!(w.0 .0, e.0);
        assert_eq!(w.1, e.1);
    }
    let m = mask_all();
    assert_eq!((m[0].0 .0, m[0].1, m[1].0 .0, m[1].1), (0x21, 0xFF, 0xA1, 0xFF));
    let u = unmask_all();
    assert_eq!((u[0].0 .0, u[0].1, u[1].0 .0, u[1].1), (0x21, 0, 0xA1, 0));
}

#[test]
fn pic_acknowledge_and_lines() {
    assert_eq!(ack(3), Some((Port(0x20), 0x20)));
    assert_eq!(ack(12), Some((Port(0xA0), 0x20)));
    assert_eq!(ack(16), None);
    assert_eq!(kernel::arch::pic::line(7), Some((Port(0x21), 7)));
    assert_eq!(kernel::arch::pic::line(8), Some((Port(0xA1), 0)));
    assert_eq!(kernel::arch::pic::line(20), None);
}

#[test]
fn pic_mask_then_unmask_restores_the_mask() {
    assert_eq!(mask(1, 0b0000_0100), Some((Port(0x21), 0b0000_0110)));
    assert_eq!(mask(10, 0), Some((Port(0xA1), 0b100)));
    assert_eq!(unmask(10, 0b111), Some((Port(0xA1), 0b011)));
    assert_eq!(mask(16, 0), None);
    assert_eq!(unmask(200, 0), None);
    for irq in 0u8..16 {
        let current = 0b1010_0101u8;
        let (_, masked) = mask(irq, current).unwrap();
        let (_, restored) = unmask(irq, masked).unwrap();
        let bit = 1u8 << (irq % 8);
        assert_eq!(restored, current & !bit);
        assert_eq!(masked & bit, bit);
    }
}

#[test]
fn port_reader_and_writer_keep_the_port() {
    assert_eq!(Port(0x60).reader().0, 0x60);
    assert_eq!(Port(0x64).writer().0, 0x64);
}

#[test]
fn interrupt_guard_counts_nesting() {
    let mut cnt = 0u64;
    let g1 = IntrptGuard::new(&mut cnt);
    let g2 = IntrptGuard::new(&mut cnt);
    assert_eq!(IntrptGuard::cnt(&cnt), 2);
    assert!(!g2.release(&mut cnt));
    assert_eq!(cnt, 1);
    g1.leak();
    assert_eq!(cnt, 1);
    let g3 = IntrptGuard::reclaim();
    assert!(g3.release(&mut cnt));
    assert_eq!(cnt, 0);
}

#[test]
fn irq_info_and_vectors() {
    let stack = IntrptStack { errno: 7, ip: 0x1234, cs: 8, flags: 0x202, sp: 0x8000, ss: 16 };
    let info = build_irq_info(&stack);
    assert_eq!((info.errno, info.ip, info.sp), (7, 0x1234, 0x8000));
    assert_eq!(from_intrpt_vector(32), 0);
    assert_eq!(from_intrpt_vector(33), 1);
}

#[test]
fn handlers_register_in_order_and_refuse_reserved_vectors() {
    let mut table = HandlerTable::new();
    assert!(register_handler(&mut table, 33, 0xAAAA));
    assert!(register_handler(&mut table, 33, 0xBBBB));
    assert!(register_handler(&mut table, 47, 0xCCCC));
    assert!(!register_handler(&mut table, 32, 0xDDDD));
    assert!(!register_handler(&mut table, 48, 0xDDDD));
    assert!(!register_handler(&mut table, 5, 0xDDDD));
    assert_eq!(table.handlers(1).as_slice(), &[0xAAAA, 0xBBBB]);
    assert_eq!(table.handlers(15).as_slice(), &[0xCCCC]);
    assert!(table.handlers(0).is_empty());
}

#[test]
fn timer_preempts_every_sixteenth_tick() {
    let mut tick = 0u64;
    let mut preempted = Vec::new();
    for _ in 0..40 {
        preempted.push(timer_handler(&mut tick));
    }
    assert_eq!(tick, 40);
    let at: Vec<usize> = preempted.iter().enumerate().filter(|(_, p)| **p).map(|(i, _)| i).collect();
    assert_eq!(at, vec![0, 16, 32]);
    let mut last = u64::MAX;
    assert!(timer_handler(&mut last) == (u64::MAX % 16 == 0));
    assert_eq!(last, 0);
}

#[test]
fn init_cell_holds_its_value() {
    let mut cell: InitCell<u32> = InitCell::new();
    assert_eq!(*cell.init(42), 42);
    assert_eq!(*cell.get(), 42);
}

#[test]
fn size_units_and_privilege() {
    assert_eq!(KiB, 1024);
    assert_eq!(MiB, 1024 * 1024);
    assert_eq!(GiB, 1024 * 1024 * 1024);
    assert_eq!(TiB, 1024 * GiB);
    assert_eq!(Privilege::User.ring(), 3);
    assert_eq!(Privilege::Kernel.ring(), 0);
    assert_eq!(shl_usize(3, 4), 48);
}

#[test]
fn array_forest_levels() {
    let mut forest = ArrayForest::new(2, 3, 0u8);
    assert_eq!(forest.tree_cnt(), 2);
    assert_eq!(forest.tree_depth(), 3);
    assert_eq!(forest.slice(0).len(), 2);
    assert_eq!(forest.slice(2).len(), 8);
    forest.fill_level_range(2, 1, 3, 7);
    assert_eq!(forest.slice(2), &[0, 7, 7, 0, 0, 0, 0, 0]);
    assert_eq!(forest.slice(1), &[0, 0, 0, 0]);
    let c = forest.cursor(1, 3);
    assert_eq!(c.depth(), 1);
    assert_eq!(*c.get(&forest), 0);
    c.set(&mut forest, 9);
    assert_eq!(forest.slice(1), &[0, 0, 0, 9]);
    assert_eq!(ArrayForest::<u8>::buf_layout(2, 3), 16);
}
