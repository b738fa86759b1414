use kernel::arch::pmio::Port;
use kernel::drivers::serial;
use kernel::drivers::ps2::{Ps2Keyboard, KEY_QUEUE_LEN};
use kernel::common::log::{center, error, info, log, ok, HEADER_WIDTH};
use kernel::drivers::ps2::Sc1;
use kernel::drivers::vga::{color_code, vga_entry, Color, VGABuffer, CELL_CNT};
use kernel::io::keyboard::keycode::{
    KEY_1, KEY_A, KEY_BACKSPACE, KEY_CAPSLOCK, KEY_ENTER, KEY_LEFTSHIFT, KEY_Q, KEY_SPACE, KEY_Z, KEY_0, KEY_9,
};
use kernel::io::keyboard::{KeyEvent, Keyboard, Modifier, VirtKeyboard};
use kernel::io::monitor::{echo, ketoa, Monitor};

#[test]
fn vga_entry_and_color_code() {
    assert_eq!(vga_entry(0x0F, b'A'), 0x0F41);
    assert_eq!(vga_entry(0, 0), 0);
    assert_eq!(color_code(Color::Gray, Color::Black, true), 0x0F);
    assert_eq!(color_code(Color::Green, Color::Blue, false), 0x12);
    assert_eq!(color_code(Color::Red, Color::Gray, true), 0x7C);
    assert_eq!(Color::Purple.value(), 5);
}

#[test]
fn vga_buffer_writes_and_wraps_lines() {
    let mut vga = VGABuffer::init();
    assert_eq!(vga.cells().len(), CELL_CNT);
    assert_eq!(vga.get_cursor_pos(), (0, 0));
    vga.set_color(Color::Gray, Color::Black, false);
    assert_eq!(vga.color(), 0x07);
    vga.write(b"hi\nyo");
    assert_eq!(vga.cells()[0], 0x0768);
    assert_eq!(vga.cells()[1], 0x0769);
    assert_eq!(vga.cells()[2], 0);
    assert_eq!(vga.cells()[80], 0x0779);
    assert_eq!(vga.cells()[81], 0x076F);
    assert_eq!(vga.get_cursor_pos(), (2, 1));
    assert_eq!(vga.get_viewport_dim(), (80, 25));
}

#[test]
fn vga_writing_in_two_parts_is_writing_the_whole() {
    let mut parts = VGABuffer::init();
    parts.write(b"ab\nc");
    parts.write(b"d\nef");
    let mut whole = VGABuffer::init();
    whole.write(b"ab\ncd\nef");
    assert_eq!(parts.cells(), whole.cells());
    assert_eq!(parts.get_cursor_pos(), whole.get_cursor_pos());
}

#[test]
fn vga_newline_at_line_start_stays() {
    let mut vga = VGABuffer::init();
    vga.write_u8(b'\n');
    assert_eq!(vga.get_cursor_pos(), (0, 0));
    vga.write_u8(b'x');
    vga.write_u8(b'\n');
    assert_eq!(vga.get_cursor_pos(), (0, 1));
}

#[test]
fn vga_stops_past_the_last_cell() {
    let mut vga = VGABuffer::init();
    for _ in 0..2000 {
        vga.write_u8(b'a');
    }
    assert_eq!(vga.get_cursor_pos(), (0, 25));
    vga.write_u8(b'b');
    assert_eq!(vga.get_cursor_pos(), (0, 25));
    assert_eq!(vga.cells()[2000], 0);
    assert_eq!(vga.cells()[1999] & 0xFF, b'a' as u16);
}

#[test]
fn vga_clear_and_cursor() {
    let mut vga = VGABuffer::init();
    vga.set_color(Color::Blue, Color::Green, false);
    vga.write(b"abc");
    vga.clear();
    assert_eq!(vga.get_cursor_pos(), (0, 0));
    assert!(vga.cells().iter().all(|c| *c == 0x2100));
    vga.set_cursor_pos(4, 5);
    assert_eq!(vga.get_cursor_pos(), (20, 0));
}

#[test]
fn center_pads_both_sides() {
    assert_eq!(center(b"ok", 6), b"  ok  ".to_vec());
    assert_eq!(center(b"info", 6), b" info ".to_vec());
    assert_eq!(center(b"abc", 6), b" abc  ".to_vec());
    assert_eq!(center(b"toolong", 4), b"toolong".to_vec());
    assert_eq!(HEADER_WIDTH, 6);
}

#[test]
fn log_lines_carry_a_colored_header() {
    let mut vga = VGABuffer::init();
    ok(&mut vga, b"booted");
    let first_line: Vec<u8> = vga.cells()[..16].iter().map(|c| (*c & 0xFF) as u8).collect();
    assert_eq!(&first_line, b"[  OK  ] booted\0");
    assert_eq!(vga.cells()[1] >> 8, 0x0A);
    assert_eq!(vga.cells()[0] >> 8, 0x0F);
    assert_eq!(vga.get_cursor_pos(), (0, 1));
    info(&mut vga, b"x");
    error(&mut vga, b"y");
    kernel::common::log::panic(&mut vga, b"z");
    log(&mut vga, b"DBG", Color::Cyan, b"w");
    assert_eq!(vga.get_cursor_pos(), (0, 5));
    let line: Vec<u8> = vga.cells()[80..90].iter().map(|c| (*c & 0xFF) as u8).collect();
    assert_eq!(&line, b"[ INFO ] x");
}

#[test]
fn ps2_scan_codes() {
    let mut sc = Sc1::Normal;
    assert_eq!(sc.parse(0x1E), Some((KEY_A, true)));
    assert_eq!(sc.parse(0x9E), Some((KEY_A, false)));
    assert_eq!(sc.parse(0x57), Some((87, true)));
    assert_eq!(sc.parse(0xD8), Some((88, false)));
    assert_eq!(sc.parse(0xE0), None);
    assert_eq!(sc.parse(0x54), None);
    assert_eq!(sc, Sc1::Normal);
}

#[test]
fn modifier_bits() {
    let mut m = Modifier::empty();
    assert_eq!(m.bits(), 0);
    m.set(Modifier::SHIFT, true);
    m.toggle(Modifier::CAPSLOCK);
    assert!(m.contains(Modifier::SHIFT));
    assert!(m.contains(Modifier::CAPSLOCK));
    assert_eq!(m.bits(), 0b1010);
    m.set(Modifier::SHIFT, false);
    m.toggle(Modifier::CAPSLOCK);
    assert_eq!(m.bits(), 0);
    assert_eq!(Modifier::from_bits(0b100).bits(), Modifier::CTRL);
}

#[test]
fn virtual_keyboard_tracks_modifiers() {
    let mut kb = VirtKeyboard::new();
    let e = kb.parse((KEY_LEFTSHIFT, true)).unwrap();
    assert!(e.modifier.contains(Modifier::SHIFT));
    let e = kb.parse((KEY_A, true)).unwrap();
    assert_eq!(e.key, KEY_A);
    assert!(e.is_press);
    assert_eq!(ketoa(e), Some(b'A'));
    let e = kb.parse((KEY_LEFTSHIFT, false)).unwrap();
    assert!(!e.modifier.contains(Modifier::SHIFT));
    let e = kb.parse((KEY_CAPSLOCK, true)).unwrap();
    assert!(e.modifier.contains(Modifier::CAPSLOCK));
    let e = kb.parse((KEY_CAPSLOCK, false)).unwrap();
    assert!(e.modifier.contains(Modifier::CAPSLOCK));
    let e = kb.parse((KEY_Z, true)).unwrap();
    assert_eq!(ketoa(e), Some(b'Z'));
    let e = kb.parse((KEY_LEFTSHIFT, true)).unwrap();
    let e2 = kb.parse((KEY_Q, true)).unwrap();
    assert!(e.modifier.contains(Modifier::SHIFT));
    assert_eq!(ketoa(e2), Some(b'q'));
}

fn event(key: u16, is_press: bool, bits: u8) -> KeyEvent {
    KeyEvent { key, is_press, modifier: Modifier::from_bits(bits) }
}

#[test]
fn key_events_to_characters() {
    assert_eq!(ketoa(event(KEY_0, true, 0)), Some(b'0'));
    assert_eq!(ketoa(event(KEY_1, true, 0)), Some(b'1'));
    assert_eq!(ketoa(event(KEY_9, true, 0)), Some(b'9'));
    assert_eq!(ketoa(event(KEY_A, true, 0)), Some(b'a'));
    assert_eq!(ketoa(event(KEY_A, true, Modifier::SHIFT)), Some(b'A'));
    assert_eq!(ketoa(event(KEY_A, true, Modifier::CAPSLOCK | Modifier::SHIFT)), Some(b'a'));
    assert_eq!(ketoa(event(KEY_ENTER, true, 0)), Some(b'\n'));
    assert_eq!(ketoa(event(KEY_SPACE, true, 0)), Some(b' '));
    assert_eq!(ketoa(event(KEY_BACKSPACE, true, 0)), Some(8));
    assert_eq!(ketoa(event(KEY_A, false, 0)), None);
    assert_eq!(ketoa(event(KEY_LEFTSHIFT, true, 0)), None);
}

struct Script(Vec<KeyEvent>);

impl Keyboard for Script {
    fn next(&mut self) -> Option<KeyEvent> {
        if self.0.is_empty() {
            None
        } else {
            Some(self.0.remove(0))
        }
    }
}

#[test]
fn monitor_echoes_typed_characters() {
    let script = Script(vec![
        event(KEY_A, true, 0),
        event(KEY_A, false, 0),
        event(KEY_1, true, Modifier::SHIFT),
    ]);
    let mut monitor = Monitor::new(script);
    let mut vga = VGABuffer::init();
    assert_eq!(monitor.step(&mut vga), Some(b'a'));
    assert_eq!(monitor.step(&mut vga), None);
    assert_eq!(monitor.step(&mut vga), Some(b'1'));
    assert_eq!(monitor.step(&mut vga), None);
    assert_eq!(vga.cells()[0] & 0xFF, b'a' as u16);
    assert_eq!(vga.cells()[1] & 0xFF, b'1' as u16);
    assert_eq!(vga.get_cursor_pos(), (2, 0));
}

#[test]
fn ps2_keyboard_queues_decoded_packets() {
    let mut kb = Ps2Keyboard::new();
    assert!(kb.next().is_none());
    assert!(kb.handle_byte(0x2A));
    assert!(kb.handle_byte(0x1E));
    assert!(!kb.handle_byte(0xE0));
    assert!(kb.handle_byte(0x9E));
    let shift = kb.next().unwrap();
    assert_eq!(shift.key, KEY_LEFTSHIFT);
    let a = kb.next().unwrap();
    assert_eq!((a.key, a.is_press), (KEY_A, true));
    assert_eq!(ketoa(a), Some(b'A'));
    let up = kb.next().unwrap();
    assert_eq!((up.key, up.is_press), (KEY_A, false));
    assert!(kb.next().is_none());
    for _ in 0..KEY_QUEUE_LEN {
        assert!(kb.handle_byte(0x10));
    }
    assert!(!kb.handle_byte(0x10));
    assert_eq!(kb.next().unwrap().key, KEY_Q);
    assert!(kb.handle_byte(0x10));
}

#[test]
fn echo_writes_what_an_event_types() {
    let mut vga = VGABuffer::init();
    assert_eq!(echo(None, &mut vga), None);
    assert_eq!(echo(Some(event(KEY_A, false, 0)), &mut vga), None);
    assert_eq!(vga.get_cursor_pos(), (0, 0));
    assert_eq!(echo(Some(event(KEY_A, true, Modifier::CAPSLOCK)), &mut vga), Some(b'A'));
    assert_eq!(vga.cells()[0] & 0xFF, b'A' as u16);
    assert_eq!(vga.get_cursor_pos(), (1, 0));
}

#[test]
fn serial_setup_tests_the_chip_through_loopback() {
    let w = serial::init_writes();
    assert_eq!(w.len(), 9);
    assert_eq!(w[0], (Port(0x3F9), 0x00));
    assert_eq!(w[1], (Port(0x3FB), 0x80));
    assert_eq!(w[2], (Port(0x3F8), 0x03));
    assert_eq!(w[5], (Port(0x3FA), 0xC7));
    assert_eq!(w[7], (Port(0x3FC), 0x1E));
    assert_eq!(w[8], (Port(0x3F8), 0xAE));
    assert_eq!(serial::init(0xAE), (false, Some((Port(0x3FC), 0x0F))));
    assert_eq!(serial::init(0xAF), (true, None));
}

#[test]
fn serial_reads_and_writes_when_the_line_is_ready() {
    assert_eq!(serial::status_port(), Port(0x3FD));
    assert_eq!(serial::read(0x60), None);
    assert_eq!(serial::read(0x61), Some(Port(0x3F8)));
    assert_eq!(serial::write(0x01, b'x'), None);
    assert_eq!(serial::write(0x21, b'x'), Some((Port(0x3F8), b'x')));
}
