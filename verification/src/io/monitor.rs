//! Turning key events into the characters the monitor echoes.
use crate::io::keyboard::keycode::{
    KeyCode, KEY_0, KEY_1, KEY_9, KEY_A, KEY_B, KEY_BACKSPACE, KEY_C, KEY_D, KEY_E, KEY_ENTER, KEY_F,
    KEY_G, KEY_H, KEY_I, KEY_J, KEY_K, KEY_L, KEY_M, KEY_N, KEY_O, KEY_P, KEY_Q, KEY_R, KEY_S,
    KEY_SPACE, KEY_T, KEY_U, KEY_V, KEY_W, KEY_X, KEY_Y, KEY_Z,
};
use crate::drivers::vga::{after_u8, VGABuffer};
use crate::io::keyboard::{KeyEvent, Keyboard, Modifier};
use vstd::prelude::*;

verus! {

/// The lower-case letter of a letter key.
pub open spec fn letter_of(key: KeyCode) -> Option<u8> {
    if key == KEY_A { Some(0x61u8) }
    else if key == KEY_B { Some(0x62u8) }
    else if key == KEY_C { Some(0x63u8) }
    else if key == KEY_D { Some(0x64u8) }
    else if key == KEY_E { Some(0x65u8) }
    else if key == KEY_F { Some(0x66u8) }
    else if key == KEY_G { Some(0x67u8) }
    else if key == KEY_H { Some(0x68u8) }
    else if key == KEY_I { Some(0x69u8) }
    else if key == KEY_J { Some(0x6au8) }
    else if key == KEY_K { Some(0x6bu8) }
    else if key == KEY_L { Some(0x6cu8) }
    else if key == KEY_M { Some(0x6du8) }
    else if key == KEY_N { Some(0x6eu8) }
    else if key == KEY_O { Some(0x6fu8) }
    else if key == KEY_P { Some(0x70u8) }
    else if key == KEY_Q { Some(0x71u8) }
    else if key == KEY_R { Some(0x72u8) }
    else if key == KEY_S { Some(0x73u8) }
    else if key == KEY_T { Some(0x74u8) }
    else if key == KEY_U { Some(0x75u8) }
    else if key == KEY_V { Some(0x76u8) }
    else if key == KEY_W { Some(0x77u8) }
    else if key == KEY_X { Some(0x78u8) }
    else if key == KEY_Y { Some(0x79u8) }
    else if key == KEY_Z { Some(0x7au8) }
    else { None }
}

/// Caps lock and shift, one but not both, make letters upper case.
pub open spec fn is_cap(m: u8) -> bool {
    (m & Modifier::CAPSLOCK == Modifier::CAPSLOCK) != (m & Modifier::SHIFT == Modifier::SHIFT)
}

/// The character a key event types, if any.
pub open spec fn char_of(ke: KeyEvent) -> Option<u8> {
    if !ke.is_press {
        None
    } else if ke.key == KEY_0 {
        Some(0x30u8)
    } else if KEY_1 <= ke.key <= KEY_9 {
        Some((0x31 + (ke.key - KEY_1)) as u8)
    } else if letter_of(ke.key).is_some() {
        if is_cap(ke.modifier@) {
            Some((letter_of(ke.key).unwrap() - 32) as u8)
        } else {
            letter_of(ke.key)
        }
    } else if ke.key == KEY_ENTER {
        Some(0x0au8)
    } else if ke.key == KEY_SPACE {
        Some(0x20u8)
    } else if ke.key == KEY_BACKSPACE {
        Some(0x08u8)
    } else {
        None
    }
}

/// The character a key event types: digits, letters (upper case under caps
/// lock or shift, but not both), newline, space and backspace; `None` for a
/// release or another key.
pub fn ketoa(ke: KeyEvent) -> (r: Option<u8>)
    ensures
        r == char_of(ke),
{
    if !ke.is_press {
        return None;
    }
    let cap = ke.modifier.contains(Modifier::CAPSLOCK) != ke.modifier.contains(Modifier::SHIFT);
    let cap_offset: u8 = if cap {
        32
    } else {
        0
    };
    let k = ke.key;
    if k == KEY_0 {
        Some(0x30u8)
    } else if KEY_1 <= k && k <= KEY_9 {
        Some(0x31u8 + (k - KEY_1) as u8)
    } else if k == KEY_A {
        Some(0x61u8 - cap_offset)
    } else if k == KEY_B {
        Some(0x62u8 - cap_offset)
    } else if k == KEY_C {
        Some(0x63u8 - cap_offset)
    } else if k == KEY_D {
        Some(0x64u8 - cap_offset)
    } else if k == KEY_E {
        Some(0x65u8 - cap_offset)
    } else if k == KEY_F {
        Some(0x66u8 - cap_offset)
    } else if k == KEY_G {
        Some(0x67u8 - cap_offset)
    } else if k == KEY_H {
        Some(0x68u8 - cap_offset)
    } else if k == KEY_I {
        Some(0x69u8 - cap_offset)
    } else if k == KEY_J {
        Some(0x6au8 - cap_offset)
    } else if k == KEY_K {
        Some(0x6bu8 - cap_offset)
    } else if k == KEY_L {
        Some(0x6cu8 - cap_offset)
    } else if k == KEY_M {
        Some(0x6du8 - cap_offset)
    } else if k == KEY_N {
        Some(0x6eu8 - cap_offset)
    } else if k == KEY_O {
        Some(0x6fu8 - cap_offset)
    } else if k == KEY_P {
        Some(0x70u8 - cap_offset)
    } else if k == KEY_Q {
        Some(0x71u8 - cap_offset)
    } else if k == KEY_R {
        Some(0x72u8 - cap_offset)
    } else if k == KEY_S {
        Some(0x73u8 - cap_offset)
    } else if k == KEY_T {
        Some(0x74u8 - cap_offset)
    } else if k == KEY_U {
        Some(0x75u8 - cap_offset)
    } else if k == KEY_V {
        Some(0x76u8 - cap_offset)
    } else if k == KEY_W {
        Some(0x77u8 - cap_offset)
    } else if k == KEY_X {
        Some(0x78u8 - cap_offset)
    } else if k == KEY_Y {
        Some(0x79u8 - cap_offset)
    } else if k == KEY_Z {
        Some(0x7au8 - cap_offset)
    } else if k == KEY_ENTER {
        Some(0x0au8)
    } else if k == KEY_SPACE {
        Some(0x20u8)
    } else if k == KEY_BACKSPACE {
        Some(0x8)
    } else {
        None
    }
}

/// The character that the key event `ke`, if any, types.
pub open spec fn typed(ke: Option<KeyEvent>) -> Option<u8> {
    match ke {
        Some(k) => char_of(k),
        None => None,
    }
}

/// Writes the character that the key event `ke`, if any, types to
/// `console`, and returns it; nothing is written for no event, a release or
/// a key that types nothing.
pub fn echo(ke: Option<KeyEvent>, console: &mut VGABuffer) -> (r: Option<u8>)
    requires
        old(console).wf(),
    ensures
        final(console).wf(),
        r == typed(ke),
        r.is_none() ==> final(console)@ == old(console)@,
        r.is_some() ==> final(console)@ == after_u8(old(console)@, r.unwrap()),
{
    match ke {
        Some(k) => {
            let c = ketoa(k);
            match c {
                Some(ascii) => {
                    console.write_u8(ascii);
                },
                None => {},
            }
            c
        },
        None => None,
    }
}

/// Echoes the characters typed on a keyboard.
pub struct Monitor<K: Keyboard> {
    keyboard: K,
}

impl<K: Keyboard> Monitor<K> {
    /// The keyboard read.
    pub closed spec fn source(&self) -> K {
        self.keyboard
    }

    /// A monitor reading `kb`.
    pub fn new(kb: K) -> (r: Self)
        ensures
            r.source() == kb,
    {
        Monitor { keyboard: kb }
    }

    /// One turn of the monitor: takes the next key event, if any, from the
    /// keyboard and echoes it to `console` (see [`echo`]). Returns the
    /// character written. Which event comes is the keyboard's to say.
    pub fn step(&mut self, console: &mut VGABuffer) -> (r: Option<u8>)
        requires
            old(console).wf(),
        ensures
            final(console).wf(),
            exists|ke: Option<KeyEvent>| #[trigger] typed(ke) == r,
            r.is_none() ==> final(console)@ == old(console)@,
            r.is_some() ==> final(console)@ == after_u8(old(console)@, r.unwrap()),
    {
        let ke = self.keyboard.next();
        echo(ke, console)
    }
}

} // verus!

verus! {

/// The Linux input-event codes of the letter keys, in the order of the
/// alphabet: `A` is 30, `B` is 48, ..., `Z` is 44.
pub open spec fn alphabet_keys() -> Seq<u16> {
    seq![
        30u16, 48, 46, 32, 18, 33, 34, 35, 23, 36, 37, 38, 50, 49, 24, 25, 16, 19, 31, 20, 22, 47, 17,
        45, 21, 44,
    ]
}

/// The law of the letter keys, for [`ketoa`] (whose result is
/// [`char_of`]): pressing the `i`-th letter key of the alphabet types the `i`-th lower-case ASCII letter, or the `i`-th
/// upper-case one when exactly one of caps lock and shift is on.
pub proof fn lemma_letter_keys_type_letters(ke: KeyEvent, i: int)
    requires
        ke.is_press,
        0 <= i < 26,
        ke.key == alphabet_keys()[i],
    ensures
        char_of(ke) == Some(
            if (ke.modifier@ & 0b1000 == 0b1000) != (ke.modifier@ & 0b10 == 0b10) {
                (0x41 + i) as u8
            } else {
                (0x61 + i) as u8
            },
        ),
{
    let k = alphabet_keys();
    assert(k[0] == 30 && k[1] == 48 && k[2] == 46 && k[3] == 32 && k[4] == 18 && k[5] == 33);
    assert(k[6] == 34 && k[7] == 35 && k[8] == 23 && k[9] == 36 && k[10] == 37 && k[11] == 38);
    assert(k[12] == 50 && k[13] == 49 && k[14] == 24 && k[15] == 25 && k[16] == 16 && k[17] == 19);
    assert(k[18] == 31 && k[19] == 20 && k[20] == 22 && k[21] == 47 && k[22] == 17 && k[23] == 45);
    assert(k[24] == 21 && k[25] == 44);
    if i < 13 {
        if i < 6 {
            assert(i == 0 || i == 1 || i == 2 || i == 3 || i == 4 || i == 5);
        } else {
            assert(i == 6 || i == 7 || i == 8 || i == 9 || i == 10 || i == 11 || i == 12);
        }
    } else if i < 19 {
        assert(i == 13 || i == 14 || i == 15 || i == 16 || i == 17 || i == 18);
    } else {
        assert(i == 19 || i == 20 || i == 21 || i == 22 || i == 23 || i == 24 || i == 25);
    }
}

/// A release types nothing, whatever the key.
pub proof fn lemma_release_types_nothing(ke: KeyEvent)
    requires
        !ke.is_press,
    ensures
        char_of(ke).is_none(),
{
}

/// The Linux input-event codes of the digit keys, from `0` to `9`: `0` is
/// 11, `1` to `9` are 2 to 10.
pub open spec fn digit_keys() -> Seq<u16> {
    seq![11u16, 2, 3, 4, 5, 6, 7, 8, 9, 10]
}

/// The law of the digit keys and the keys that type control characters:
/// pressing the `i`-th digit key types the ASCII digit `i`, enter (28) a
/// newline, space (57) a space and backspace (14) a backspace, whatever
/// the modifiers.
pub proof fn lemma_digit_and_control_keys(ke: KeyEvent, i: int)
    requires
        ke.is_press,
    ensures
        0 <= i < 10 && ke.key == digit_keys()[i] ==> char_of(ke) == Some((0x30 + i) as u8),
        ke.key == 28 ==> char_of(ke) == Some(0x0au8),
        ke.key == 57 ==> char_of(ke) == Some(0x20u8),
        ke.key == 14 ==> char_of(ke) == Some(0x08u8),
{
    let k = digit_keys();
    assert(k[0] == 11 && k[1] == 2 && k[2] == 3 && k[3] == 4 && k[4] == 5 && k[5] == 6 && k[6] == 7
        && k[7] == 8 && k[8] == 9 && k[9] == 10);
}

/// Any other key types nothing: a key that is no letter, no digit, and
/// none of enter, space and backspace.
pub proof fn lemma_other_keys_type_nothing(ke: KeyEvent)
    requires
        forall|i: int| 0 <= i < 26 ==> ke.key != #[trigger] alphabet_keys()[i],
        forall|i: int| 0 <= i < 10 ==> ke.key != #[trigger] digit_keys()[i],
        ke.key != 28 && ke.key != 57 && ke.key != 14,
    ensures
        char_of(ke).is_none(),
{
    let k = alphabet_keys();
    assert(k[0] == 30 && k[1] == 48 && k[2] == 46 && k[3] == 32 && k[4] == 18 && k[5] == 33);
    assert(k[6] == 34 && k[7] == 35 && k[8] == 23 && k[9] == 36 && k[10] == 37 && k[11] == 38);
    assert(k[12] == 50 && k[13] == 49 && k[14] == 24 && k[15] == 25 && k[16] == 16 && k[17] == 19);
    assert(k[18] == 31 && k[19] == 20 && k[20] == 22 && k[21] == 47 && k[22] == 17 && k[23] == 45);
    assert(k[24] == 21 && k[25] == 44);
    let d = digit_keys();
    assert(d[0] == 11 && d[1] == 2 && d[2] == 3 && d[3] == 4 && d[4] == 5 && d[5] == 6 && d[6] == 7
        && d[7] == 8 && d[8] == 9 && d[9] == 10);
}

} // verus!
