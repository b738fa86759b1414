//! A virtual keyboard: key states and modifiers driven by key packets.
use crate::io::keyboard::keycode::{
    KeyCode, KEY_CAPSLOCK, KEY_LEFTALT, KEY_LEFTCTRL, KEY_LEFTSHIFT, KEY_NUMLOCK, KEY_RIGHTSHIFT,
    KEY_SCROLLLOCK,
};
use vstd::prelude::*;

pub mod keycode;

verus! {

/// Number of 64-bit words holding one state bit per key code.
pub const STATES_LEN: usize = 2;

/// A set of modifier keys, as bits.
#[derive(Debug, Clone, Copy, PartialEq, Eq, Structural)]
pub struct Modifier {
    bits: u8,
}

impl View for Modifier {
    type V = u8;

    closed spec fn view(&self) -> u8 {
        self.bits
    }
}

impl Modifier {
    /// Alt.
    pub const ALT: u8 = 0b1;

    /// Shift.
    pub const SHIFT: u8 = 0b10;

    /// Control.
    pub const CTRL: u8 = 0b100;

    /// Caps lock.
    pub const CAPSLOCK: u8 = 0b1000;

    /// Scroll lock.
    pub const SCROLLLOCK: u8 = 0b1_0000;

    /// Num lock.
    pub const NUMLOCK: u8 = 0b10_0000;

    /// No modifier.
    pub fn empty() -> (r: Self)
        ensures
            r@ == 0,
    {
        Modifier { bits: 0 }
    }

    /// The modifiers of the bits `bits`.
    pub fn from_bits(bits: u8) -> (r: Self)
        ensures
            r@ == bits,
    {
        Modifier { bits }
    }

    /// The bits of the set.
    pub fn bits(&self) -> (r: u8)
        ensures
            r == self@,
    {
        self.bits
    }

    /// Whether every modifier of `flag` is in the set.
    pub fn contains(&self, flag: u8) -> (r: bool)
        ensures
            r == (self@ & flag == flag),
    {
        self.bits & flag == flag
    }

    /// Adds the modifiers of `flag` when `value`, else removes them.
    pub fn set(&mut self, flag: u8, value: bool)
        ensures
            final(self)@ == if value {
                old(self)@ | flag
            } else {
                old(self)@ & !flag
            },
    {
        if value {
            self.bits = self.bits | flag;
        } else {
            self.bits = self.bits & !flag;
        }
    }

    /// Flips the modifiers of `flag`.
    pub fn toggle(&mut self, flag: u8)
        ensures
            final(self)@ == old(self)@ ^ flag,
    {
        self.bits = self.bits ^ flag;
    }
}

/// A key going down or up, with the modifiers in force after it.
#[derive(Debug, Clone, Copy)]
pub struct KeyEvent {
    pub key: KeyCode,
    pub is_press: bool,
    pub modifier: Modifier,
}

/// A source of key events.
pub trait Keyboard {
    /// The next key event, if one is waiting.
    fn next(&mut self) -> Option<KeyEvent>;
}

/// Bit `b` of word `w`.
pub open spec fn bit_of(w: u64, b: u64) -> bool {
    (w >> b) & 1 == 1
}

/// Setting or clearing bit `b` of `w` changes that bit alone.
proof fn lemma_set_bit(w: u64, b: u64, j: u64)
    by (bit_vector)
    requires
        b < 64,
        j < 64,
    ensures
        bit_of(w | (1u64 << b), j) == (j == b || bit_of(w, j)),
        bit_of(w & !(1u64 << b), j) == (j != b && bit_of(w, j)),
{
}

/// A keyboard kept in software: which keys are down, and the modifiers.
pub struct VirtKeyboard {
    states: [u64; STATES_LEN],
    modifier: Modifier,
}

impl VirtKeyboard {
    /// Key `k` is down.
    pub closed spec fn pressed(&self, k: int) -> bool {
        bit_of(self.states[k / 64], (k % 64) as u64)
    }

    /// The modifiers in force.
    pub closed spec fn modifiers(&self) -> Modifier {
        self.modifier
    }

    /// The modifiers after `packet`, from `m` before it.
    pub open spec fn next_modifier(m: u8, packet: (KeyCode, bool)) -> u8 {
        let (key, down) = packet;
        if key == KEY_LEFTALT {
            if down {
                m | Modifier::ALT
            } else {
                m & !Modifier::ALT
            }
        } else if key == KEY_LEFTCTRL {
            if down {
                m | Modifier::CTRL
            } else {
                m & !Modifier::CTRL
            }
        } else if key == KEY_LEFTSHIFT || key == KEY_RIGHTSHIFT {
            if down {
                m | Modifier::SHIFT
            } else {
                m & !Modifier::SHIFT
            }
        } else if key == KEY_CAPSLOCK && down {
            m ^ Modifier::CAPSLOCK
        } else if key == KEY_SCROLLLOCK && down {
            m ^ Modifier::SCROLLLOCK
        } else if key == KEY_NUMLOCK && down {
            m ^ Modifier::NUMLOCK
        } else {
            m
        }
    }

    /// A keyboard with no key down and no modifier.
    pub fn new() -> (r: Self)
        ensures
            forall|k: int| 0 <= k < 64 * STATES_LEN ==> !#[trigger] r.pressed(k),
            r.modifiers()@ == 0,
    {
        let r = VirtKeyboard { states: [0u64; STATES_LEN], modifier: Modifier::empty() };
        proof {
            assert forall|k: int| 0 <= k < 64 * STATES_LEN implies !#[trigger] r.pressed(k) by {
                let b = (k % 64) as u64;
                assert(r.states[k / 64] == 0);
                assert(!bit_of(0, b)) by (bit_vector)
                    requires
                        b < 64,
                ;
            }
        }
        r
    }

    /// Records `packet` (a key and whether it went down) and returns the
    /// resulting event.
    pub fn parse(&mut self, packet: (KeyCode, bool)) -> (r: Option<KeyEvent>)
        requires
            packet.0 < 64 * STATES_LEN,
        ensures
            r == Some(
                KeyEvent { key: packet.0, is_press: packet.1, modifier: final(self).modifiers() },
            ),
            final(self).modifiers()@ == Self::next_modifier(old(self).modifiers()@, packet),
            forall|k: int|
                0 <= k < 64 * STATES_LEN ==> #[trigger] final(self).pressed(k) == if k
                    == packet.0 {
                    packet.1
                } else {
                    old(self).pressed(k)
                },
    {
        self.update(packet);
        Some(self.event(packet))
    }

    fn update(&mut self, packet: (KeyCode, bool))
        requires
            packet.0 < 64 * STATES_LEN,
        ensures
            final(self).modifiers()@ == Self::next_modifier(old(self).modifiers()@, packet),
            forall|k: int|
                0 <= k < 64 * STATES_LEN ==> #[trigger] final(self).pressed(k) == if k
                    == packet.0 {
                    packet.1
                } else {
                    old(self).pressed(k)
                },
    {
        let (k, down) = packet;
        if k == KEY_LEFTALT {
            self.modifier.set(Modifier::ALT, down);
        } else if k == KEY_LEFTCTRL {
            self.modifier.set(Modifier::CTRL, down);
        } else if k == KEY_LEFTSHIFT || k == KEY_RIGHTSHIFT {
            self.modifier.set(Modifier::SHIFT, down);
        } else if k == KEY_CAPSLOCK && down {
            self.modifier.toggle(Modifier::CAPSLOCK);
        } else if k == KEY_SCROLLLOCK && down {
            self.modifier.toggle(Modifier::SCROLLLOCK);
        } else if k == KEY_NUMLOCK && down {
            self.modifier.toggle(Modifier::NUMLOCK);
        }
        let key = packet.0 as usize;
        let word = key / 64;
        let b = (key % 64) as u64;
        let w = self.states[word];
        let nw = if packet.1 {
            w | (1u64 << b)
        } else {
            w & !(1u64 << b)
        };
        self.states[word] = nw;
        proof {
            assert forall|k: int| 0 <= k < 64 * STATES_LEN implies #[trigger] self.pressed(k) == if k
                == packet.0 {
                packet.1
            } else {
                old(self).pressed(k)
            } by {
                let j = (k % 64) as u64;
                lemma_set_bit(w, b, j);
                if k / 64 == word {
                    assert(j == b <==> k == packet.0);
                } else {
                    assert(k != packet.0);
                }
            }
        }
    }

    fn event(&self, packet: (KeyCode, bool)) -> (r: KeyEvent)
        ensures
            r == (KeyEvent { key: packet.0, is_press: packet.1, modifier: self.modifiers() }),
    {
        KeyEvent { key: packet.0, is_press: packet.1, modifier: self.modifier }
    }
}

/// The law of the shift keys: pressing either shift key, left or right,
/// turns the shift modifier on and releasing it turns it off, leaving every
/// other modifier as it was.
pub proof fn lemma_shift_keys(m: u8, key: KeyCode, down: bool)
    requires
        key == KEY_LEFTSHIFT || key == KEY_RIGHTSHIFT,
    ensures
        VirtKeyboard::next_modifier(m, (key, down)) & Modifier::SHIFT == if down {
            Modifier::SHIFT
        } else {
            0u8
        },
        VirtKeyboard::next_modifier(m, (key, down)) & !Modifier::SHIFT == m & !Modifier::SHIFT,
{
    assert((m | 2u8) & 2u8 == 2u8 && (m & !2u8) & 2u8 == 0u8 && (m | 2u8) & !2u8 == m & !2u8 && (m & !2u8)
        & !2u8 == m & !2u8) by (bit_vector);
}

/// The law of caps lock: pressing it flips the caps-lock modifier, leaving
/// every other modifier as it was; releasing it changes nothing.
pub proof fn lemma_caps_lock_key(m: u8, down: bool)
    ensures
        VirtKeyboard::next_modifier(m, (KEY_CAPSLOCK, down)) & !Modifier::CAPSLOCK == m & !Modifier::CAPSLOCK,
        VirtKeyboard::next_modifier(m, (KEY_CAPSLOCK, down)) & Modifier::CAPSLOCK == if down {
            (m & Modifier::CAPSLOCK) ^ Modifier::CAPSLOCK
        } else {
            m & Modifier::CAPSLOCK
        },
{
    assert((m ^ 8u8) & !8u8 == m & !8u8 && (m ^ 8u8) & 8u8 == (m & 8u8) ^ 8u8) by (bit_vector);
}

/// The law of the other modifier keys: pressing left alt or left ctrl
/// turns its modifier on and releasing it turns it off, leaving every other
/// modifier as it was; a key that is none of the modifier and lock keys
/// changes no modifier.
pub proof fn lemma_alt_ctrl_and_other_keys(m: u8, key: KeyCode, down: bool)
    ensures
        key == KEY_LEFTALT ==> VirtKeyboard::next_modifier(m, (key, down)) & Modifier::ALT == (if down {
            Modifier::ALT
        } else {
            0u8
        }) && VirtKeyboard::next_modifier(m, (key, down)) & !Modifier::ALT == m & !Modifier::ALT,
        key == KEY_LEFTCTRL ==> VirtKeyboard::next_modifier(m, (key, down)) & Modifier::CTRL == (if down {
            Modifier::CTRL
        } else {
            0u8
        }) && VirtKeyboard::next_modifier(m, (key, down)) & !Modifier::CTRL == m & !Modifier::CTRL,
        key != KEY_LEFTALT && key != KEY_LEFTCTRL && key != KEY_LEFTSHIFT && key != KEY_RIGHTSHIFT && key
            != KEY_CAPSLOCK && key != KEY_SCROLLLOCK && key != KEY_NUMLOCK ==> VirtKeyboard::next_modifier(
            m,
            (key, down),
        ) == m,
{
    assert((m | 1u8) & 1u8 == 1u8 && (m & !1u8) & 1u8 == 0u8 && (m | 1u8) & !1u8 == m & !1u8 && (m & !1u8)
        & !1u8 == m & !1u8) by (bit_vector);
    assert((m | 4u8) & 4u8 == 4u8 && (m & !4u8) & 4u8 == 0u8 && (m | 4u8) & !4u8 == m & !4u8 && (m & !4u8)
        & !4u8 == m & !4u8) by (bit_vector);
}

} // verus!
