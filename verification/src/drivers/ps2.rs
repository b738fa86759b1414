//! Decoding the bytes of a PS/2 keyboard in scan code set 1.
use crate::io::keyboard::keycode::{KeyCode, KEY_F11, KEY_F12, KEY_KPDOT, KEY_RESERVED};
use crate::io::keyboard::{KeyEvent, Keyboard, Modifier, VirtKeyboard, STATES_LEN};
use ringbuf::HeapRb;
use vstd::prelude::*;

verus! {

/// The state of the scan code set 1 decoder.
#[derive(Debug, Clone, Copy, PartialEq, Eq, Structural)]
pub enum Sc1 {
    Normal,
    Extra(u8),
    Pause(u8),
    Command,
}

/// The packet of a byte in the normal state: a key code and whether it went
/// down, for the codes of the base set; `None` for a prefix or another byte.
pub open spec fn normal_packet(byte: u8) -> Option<(KeyCode, bool)> {
    if byte <= KEY_KPDOT || KEY_F11 <= byte <= KEY_F12 {
        Some((byte as KeyCode, true))
    } else if 0x80 <= byte <= KEY_KPDOT + 0x80 || KEY_F11 + 0x80 <= byte <= KEY_F12 + 0x80 {
        Some(((byte - 0x80) as KeyCode, false))
    } else {
        None
    }
}

impl Sc1 {
    /// Decodes one byte. Only the normal state is decoded; the prefixes that
    /// would lead to the others are dropped, so the state stays normal.
    pub fn parse(&mut self, byte: u8) -> (r: Option<(KeyCode, bool)>)
        requires
            *old(self) == Sc1::Normal,
        ensures
            *final(self) == Sc1::Normal,
            r == normal_packet(byte),
    {
        let b = byte as u16;
        if b <= KEY_KPDOT || (KEY_F11 <= b && b <= KEY_F12) {
            Some((b, true))
        } else if (KEY_RESERVED + 0x80 <= b && b <= KEY_KPDOT + 0x80) || (KEY_F11 + 0x80 <= b && b
            <= KEY_F12 + 0x80) {
            Some((b - 0x80, false))
        } else {
            None
        }
    }
}

/// Capacity of the queue of key packets.
pub const KEY_QUEUE_LEN: usize = 128;

/// The queue of decoded key packets, from the interrupt handler to the
/// keyboard: a `ringbuf` heap ring buffer.
#[verifier::external_body]
pub struct KeyQueue {
    rb: HeapRb<(KeyCode, bool)>,
}

/// The packets a queue holds, oldest first.
pub uninterp spec fn queue_items(q: KeyQueue) -> Seq<(KeyCode, bool)>;

/// The number of packets a queue can hold.
pub uninterp spec fn queue_capacity(q: KeyQueue) -> nat;

/// `HeapRb::new`: an empty ring buffer of `capacity` slots.
#[verifier::external_body]
fn queue_new(capacity: usize) -> (r: KeyQueue)
    requires
        0 < capacity <= usize::MAX / 2,
    ensures
        queue_items(r) == Seq::<(KeyCode, bool)>::empty(),
        queue_capacity(r) == capacity,
{
    KeyQueue { rb: HeapRb::new(capacity) }
}

/// `HeapRb::try_push`: appends `packet` unless the buffer is full; returns
/// whether it was appended.
#[verifier::external_body]
fn queue_push(q: &mut KeyQueue, packet: (KeyCode, bool)) -> (r: bool)
    ensures
        queue_capacity(*final(q)) == queue_capacity(*old(q)),
        r == (queue_items(*old(q)).len() < queue_capacity(*old(q))),
        r ==> queue_items(*final(q)) == queue_items(*old(q)).push(packet),
        !r ==> queue_items(*final(q)) == queue_items(*old(q)),
{
    q.rb.try_push(packet).is_ok()
}

/// `HeapRb::try_pop`: removes and returns the oldest packet, if any.
#[verifier::external_body]
fn queue_pop(q: &mut KeyQueue) -> (r: Option<(KeyCode, bool)>)
    ensures
        queue_capacity(*final(q)) == queue_capacity(*old(q)),
        queue_items(*old(q)).len() == 0 ==> r.is_none() && queue_items(*final(q)) == queue_items(*old(q)),
        queue_items(*old(q)).len() > 0 ==> r == Some(queue_items(*old(q))[0]) && queue_items(*final(q))
            == queue_items(*old(q)).drop_first(),
{
    q.rb.try_pop()
}

/// A PS/2 keyboard: the decoder state of the interrupt handler, the queue
/// of packets it fills, and the software keyboard that turns them into
/// events.
pub struct Ps2Keyboard {
    cur_sc: Sc1,
    src: KeyQueue,
    virt: VirtKeyboard,
}

impl Ps2Keyboard {
    /// The packets waiting, oldest first.
    pub closed spec fn pending(&self) -> Seq<(KeyCode, bool)> {
        queue_items(self.src)
    }

    /// The number of packets the queue holds at most.
    pub closed spec fn capacity(&self) -> nat {
        queue_capacity(self.src)
    }

    /// The modifiers in force.
    pub closed spec fn modifiers(&self) -> Modifier {
        self.virt.modifiers()
    }

    /// The decoder is in its normal state.
    pub closed spec fn wf(&self) -> bool {
        self.cur_sc == Sc1::Normal
    }

    /// A keyboard with an empty queue of [`KEY_QUEUE_LEN`] packets and no
    /// key down.
    pub fn new() -> (r: Self)
        ensures
            r.wf(),
            r.pending() == Seq::<(KeyCode, bool)>::empty(),
            r.capacity() == KEY_QUEUE_LEN,
    {
        Ps2Keyboard { cur_sc: Sc1::Normal, src: queue_new(KEY_QUEUE_LEN), virt: VirtKeyboard::new() }
    }

    /// The interrupt handler's work on `byte`, read from the data port: it
    /// is decoded, and the packet, if any, is queued unless the queue is
    /// full. Returns whether a packet was queued.
    pub fn handle_byte(&mut self, byte: u8) -> (r: bool)
        requires
            old(self).wf(),
        ensures
            final(self).wf(),
            final(self).capacity() == old(self).capacity(),
            r == (normal_packet(byte).is_some() && old(self).pending().len() < old(self).capacity()),
            r ==> final(self).pending() == old(self).pending().push(normal_packet(byte).unwrap()),
            !r ==> final(self).pending() == old(self).pending(),
    {
        match self.cur_sc.parse(byte) {
            Some(packet) => queue_push(&mut self.src, packet),
            None => false,
        }
    }
}

impl Keyboard for Ps2Keyboard {
    /// The next key event: the oldest packet, taken from the queue and
    /// recorded by the software keyboard; `None` when the queue is empty.
    /// A packet whose key code lies beyond the software keyboard is dropped.
    fn next(&mut self) -> (r: Option<KeyEvent>)
        ensures
            old(self).pending().len() == 0 ==> r.is_none() && final(self).pending() == old(self).pending(),
            old(self).pending().len() > 0 ==> final(self).pending() == old(self).pending().drop_first(),
            old(self).pending().len() > 0 && old(self).pending()[0].0 < 64 * STATES_LEN ==> {
                &&& final(self).modifiers()@ == VirtKeyboard::next_modifier(
                    old(self).modifiers()@,
                    old(self).pending()[0],
                )
                &&& r == Some(
                    KeyEvent {
                        key: old(self).pending()[0].0,
                        is_press: old(self).pending()[0].1,
                        modifier: final(self).modifiers(),
                    },
                )
            },
            old(self).pending().len() > 0 && old(self).pending()[0].0 >= 64 * STATES_LEN ==> r.is_none()
                && final(self).modifiers() == old(self).modifiers(),
    {
        let packet = queue_pop(&mut self.src)?;
        if packet.0 < (64 * STATES_LEN) as u16 {
            self.virt.parse(packet)
        } else {
            None
        }
    }
}

} // verus!
