//! Log lines on the screen: a colored, centered header in brackets, then
//! the message.
use crate::drivers::vga::{after_text, after_u8, Color, VGABuffer, VgaState};
use vstd::prelude::*;

verus! {

/// Width of the header field.
pub const HEADER_WIDTH: usize = 6;

/// `text` centered in a field of `width` spaces, the odd space going to
/// the right; unchanged if it is not shorter than the field.
pub open spec fn centered(text: Seq<u8>, width: int) -> Seq<u8> {
    if text.len() >= width {
        text
    } else {
        let left = (width - text.len()) / 2;
        let right = width - text.len() - left;
        Seq::new(left as nat, |i: int| 0x20u8) + text + Seq::new(right as nat, |i: int| 0x20u8)
    }
}

/// Centers `text` in a field of `width` spaces.
pub fn center(text: &[u8], width: usize) -> (r: Vec<u8>)
    ensures
        r@ == centered(text@, width as int),
{
    let len = text.len();
    let (left, right) = if len >= width {
        (0, 0)
    } else {
        ((width - len) / 2, width - len - (width - len) / 2)
    };
    let mut out: Vec<u8> = Vec::new();
    let mut i: usize = 0;
    while i < left
        invariant
            i <= left,
            out@ == Seq::new(i as nat, |k: int| 0x20u8),
        decreases left - i,
    {
        out.push(0x20);
        i = i + 1;
    }
    let mut j: usize = 0;
    while j < len
        invariant
            len == text@.len(),
            j <= len,
            out@ == Seq::new(left as nat, |k: int| 0x20u8) + text@.take(j as int),
        decreases len - j,
    {
        out.push(text[j]);
        j = j + 1;
        assert(out@ =~= Seq::new(left as nat, |k: int| 0x20u8) + text@.take(j as int));
    }
    let mut k: usize = 0;
    while k < right
        invariant
            len == text@.len(),
            k <= right,
            out@ == Seq::new(left as nat, |m: int| 0x20u8) + text@ + Seq::new(
                k as nat,
                |m: int| 0x20u8,
            ),
        decreases right - k,
    {
        out.push(0x20);
        k = k + 1;
        assert(out@ =~= Seq::new(left as nat, |m: int| 0x20u8) + text@ + Seq::new(
            k as nat,
            |m: int| 0x20u8,
        ));
    }
    proof {
        assert(text@.take(len as int) =~= text@);
        if len >= width {
            assert(out@ =~= text@);
        } else {
            assert(out@ =~= centered(text@, width as int));
        }
    }
    out
}

/// The color code of bright `fg` on black.
pub open spec fn bright_on_black(fg: Color) -> u8 {
    (fg.num() + 8) as u8
}

/// The screen after a log line: `[` in bright gray, the header centered in
/// six columns in bright `color`, then `] `, the message and a newline in
/// bright gray.
pub open spec fn after_log(s: VgaState, header: Seq<u8>, color: Color, msg: Seq<u8>) -> VgaState {
    let s1 = after_text(VgaState { color_code: bright_on_black(Color::Gray), ..s }, seq![0x5bu8]);
    let s2 = after_text(
        VgaState { color_code: bright_on_black(color), ..s1 },
        centered(header, HEADER_WIDTH as int),
    );
    after_text(
        VgaState { color_code: bright_on_black(Color::Gray), ..s2 },
        seq![0x5du8, 0x20u8] + msg + seq![0x0au8],
    )
}

/// Writes a log line to `console`; see [`after_log`].
pub fn log(console: &mut VGABuffer, header: &[u8], color: Color, msg: &[u8])
    requires
        old(console).wf(),
    ensures
        final(console).wf(),
        final(console)@ == after_log(old(console)@, header@, color, msg@),
{
    console.set_color(Color::Gray, Color::Black, true);
    console.write_u8(0x5b);
    let ghost s1 = console@;
    assert(s1 == after_text(
        VgaState { color_code: bright_on_black(Color::Gray), ..old(console)@ },
        seq![0x5bu8],
    )) by {
        reveal_with_fuel(after_text, 2);
        assert(seq![0x5bu8].drop_last() =~= Seq::<u8>::empty());
    }
    console.set_color(color, Color::Black, true);
    let field = center(header, HEADER_WIDTH);
    console.write(field.as_slice());
    console.set_color(Color::Gray, Color::Black, true);
    let mut tail: Vec<u8> = Vec::new();
    tail.push(0x5d);
    tail.push(0x20);
    let mut i: usize = 0;
    while i < msg.len()
        invariant
            i <= msg@.len(),
            tail@ == seq![0x5du8, 0x20u8] + msg@.take(i as int),
        decreases msg@.len() - i,
    {
        tail.push(msg[i]);
        i = i + 1;
        assert(tail@ =~= seq![0x5du8, 0x20u8] + msg@.take(i as int));
    }
    tail.push(0x0a);
    assert(msg@.take(i as int) =~= msg@);
    assert(tail@ =~= seq![0x5du8, 0x20u8] + msg@ + seq![0x0au8]);
    console.write(tail.as_slice());
}

/// Logs a success.
pub fn ok(console: &mut VGABuffer, msg: &[u8])
    requires
        old(console).wf(),
    ensures
        final(console).wf(),
        final(console)@ == after_log(old(console)@, seq![0x4fu8, 0x4bu8], Color::Green, msg@),
{
    let header: [u8; 2] = [0x4f, 0x4b];
    assert(header@ =~= seq![0x4fu8, 0x4bu8]);
    log(console, header.as_slice(), Color::Green, msg);
}

/// Logs information.
pub fn info(console: &mut VGABuffer, msg: &[u8])
    requires
        old(console).wf(),
    ensures
        final(console).wf(),
        final(console)@ == after_log(
            old(console)@,
            seq![0x49u8, 0x4eu8, 0x46u8, 0x4fu8],
            Color::Blue,
            msg@,
        ),
{
    let header: [u8; 4] = [0x49, 0x4e, 0x46, 0x4f];
    assert(header@ =~= seq![0x49u8, 0x4eu8, 0x46u8, 0x4fu8]);
    log(console, header.as_slice(), Color::Blue, msg);
}

/// Logs an error.
pub fn error(console: &mut VGABuffer, msg: &[u8])
    requires
        old(console).wf(),
    ensures
        final(console).wf(),
        final(console)@ == after_log(
            old(console)@,
            seq![0x45u8, 0x52u8, 0x52u8, 0x4fu8, 0x52u8, 0x21u8],
            Color::Red,
            msg@,
        ),
{
    let header: [u8; 6] = [0x45, 0x52, 0x52, 0x4f, 0x52, 0x21];
    assert(header@ =~= seq![0x45u8, 0x52u8, 0x52u8, 0x4fu8, 0x52u8, 0x21u8]);
    log(console, header.as_slice(), Color::Red, msg);
}

/// Logs a panic.
pub fn panic(console: &mut VGABuffer, msg: &[u8])
    requires
        old(console).wf(),
    ensures
        final(console).wf(),
        final(console)@ == after_log(
            old(console)@,
            seq![0x50u8, 0x41u8, 0x4eu8, 0x49u8, 0x43u8, 0x21u8],
            Color::Purple,
            msg@,
        ),
{
    let header: [u8; 6] = [0x50, 0x41, 0x4e, 0x49, 0x43, 0x21];
    assert(header@ =~= seq![0x50u8, 0x41u8, 0x4eu8, 0x49u8, 0x43u8, 0x21u8]);
    log(console, header.as_slice(), Color::Purple, msg);
}

} // verus!
