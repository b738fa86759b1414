//! The VGA text-mode screen, as a buffer of character cells.
use vstd::prelude::*;

verus! {

/// Length of the VGA buffer in bytes.
pub const BUFFER_LEN: usize = 0x8000;

/// Number of character cells in the VGA buffer.
pub const CELL_CNT: usize = 0x4000;

/// Height of the terminal.
pub const VIEW_HEIGHT: u8 = 25;

/// Width of the terminal.
pub const VIEW_WIDTH: u8 = 80;

/// Number of cells on the screen.
pub const VIEW_CELLS: u16 = 2000;

/// A text-mode color.
#[derive(Debug, Clone, Copy, PartialEq, Eq, Structural)]
pub enum Color {
    Black,
    Blue,
    Green,
    Cyan,
    Red,
    Purple,
    Brown,
    Gray,
}

impl Color {
    /// The hardware number of the color.
    pub open spec fn num(self) -> u8 {
        match self {
            Color::Black => 0,
            Color::Blue => 1,
            Color::Green => 2,
            Color::Cyan => 3,
            Color::Red => 4,
            Color::Purple => 5,
            Color::Brown => 6,
            Color::Gray => 7,
        }
    }

    /// Returns the hardware number of the color.
    pub fn value(self) -> (r: u8)
        ensures
            r == self.num(),
    {
        match self {
            Color::Black => 0,
            Color::Blue => 1,
            Color::Green => 2,
            Color::Cyan => 3,
            Color::Red => 4,
            Color::Purple => 5,
            Color::Brown => 6,
            Color::Gray => 7,
        }
    }
}

/// A cell holding `char` in the colors `color_code`: the code in the high
/// byte, the character in the low byte.
pub fn vga_entry(color_code: u8, char: u8) -> (r: u16)
    ensures
        r == color_code * 256 + char,
{
    proof {
        vstd::arithmetic::power2::lemma2_to64();
        vstd::bits::lemma_u16_shl_is_mul(color_code as u16, 8);
    }
    ((color_code as u16) << 8u16) + char as u16
}

/// The color code of foreground `fg`, background `bg` and brightness: bits
/// 3-0 hold the foreground (bit 3 the brightness), bits 6-4 the background.
pub fn color_code(fg: Color, bg: Color, is_bright: bool) -> (r: u8)
    ensures
        r == fg.num() + (if is_bright {
            8int
        } else {
            0int
        }) + 16 * bg.num(),
{
    let mut code: u8 = 0;
    code = code + fg.value();
    code = code + if is_bright {
        8u8
    } else {
        0u8
    };
    code = code + bg.value() * 16;
    code
}

/// What a screen holds: the color code, the cursor position and the cells.
pub struct VgaState {
    pub color_code: u8,
    pub cursor_pos: u16,
    pub cells: Seq<u16>,
}

/// The screen after writing byte `c`: nothing changes once the cursor is
/// past the last cell; a newline moves the cursor to the start of the next
/// row; another byte is stored at the cursor, which moves on.
pub open spec fn after_u8(s: VgaState, c: u8) -> VgaState {
    if s.cursor_pos == VIEW_CELLS {
        s
    } else if c == 0x0a {
        VgaState {
            cursor_pos: (if s.cursor_pos % 80 == 0 {
                s.cursor_pos as int
            } else {
                s.cursor_pos - s.cursor_pos % 80 + 80
            }) as u16,
            ..s
        }
    } else {
        VgaState {
            cursor_pos: (s.cursor_pos + 1) as u16,
            cells: s.cells.update(s.cursor_pos as int, (s.color_code * 256 + c) as u16),
            ..s
        }
    }
}

/// The screen after writing the bytes of `text` in turn.
pub open spec fn after_text(s: VgaState, text: Seq<u8>) -> VgaState
    decreases text.len(),
{
    if text.len() == 0 {
        s
    } else {
        after_u8(after_text(s, text.drop_last()), text.last())
    }
}

/// The law of writing text: writing `a` and then `b` leaves the screen
/// that writing `a` followed by `b` at once leaves.
pub proof fn lemma_write_concat(s: VgaState, a: Seq<u8>, b: Seq<u8>)
    ensures
        after_text(after_text(s, a), b) == after_text(s, a + b),
    decreases b.len(),
{
    if b.len() == 0 {
        assert(a + b =~= a);
    } else {
        lemma_write_concat(s, a, b.drop_last());
        assert((a + b).drop_last() =~= a + b.drop_last());
        assert((a + b).last() == b.last());
    }
}

/// The VGA text buffer.
pub struct VGABuffer {
    color_code: u8,
    cursor_pos: u16,
    buffer: Vec<u16>,
}

impl View for VGABuffer {
    type V = VgaState;

    closed spec fn view(&self) -> VgaState {
        VgaState { color_code: self.color_code, cursor_pos: self.cursor_pos, cells: self.buffer@ }
    }
}

impl VGABuffer {
    /// The buffer has all its cells and the cursor is on the screen or just
    /// past it.
    pub closed spec fn wf(&self) -> bool {
        &&& self.buffer@.len() == CELL_CNT
        &&& self.cursor_pos <= VIEW_CELLS
    }

    /// A buffer is well formed exactly when it holds all its cells and the
    /// cursor is on the screen or just past it.
    pub proof fn lemma_wf(&self)
        ensures
            self.wf() <==> (self@.cells.len() == CELL_CNT && self@.cursor_pos <= VIEW_CELLS),
    {
    }

    /// A buffer in black on black, every cell blank, the cursor at the start.
    pub fn init() -> (r: Self)
        ensures
            r.wf(),
            r@.color_code == 0,
            r@.cursor_pos == 0,
            r@.cells == Seq::new(CELL_CNT as nat, |i: int| 0u16),
    {
        let code = color_code(Color::Black, Color::Black, false);
        let filler = vga_entry(code, 0);
        let mut buffer: Vec<u16> = Vec::new();
        while buffer.len() < CELL_CNT
            invariant
                buffer@.len() <= CELL_CNT,
                forall|i: int| 0 <= i < buffer@.len() ==> buffer@[i] == filler,
                filler == 0,
            decreases CELL_CNT - buffer@.len(),
        {
            buffer.push(filler);
        }
        let r = VGABuffer { color_code: code, cursor_pos: 0, buffer };
        assert(r@.cells =~= Seq::new(CELL_CNT as nat, |i: int| 0u16));
        r
    }

    /// Clears the buffer, filling it with blanks of the current color, and
    /// moves the cursor to the start.
    pub fn clear(&mut self)
        requires
            old(self).wf(),
        ensures
            final(self).wf(),
            final(self)@.color_code == old(self)@.color_code,
            final(self)@.cursor_pos == 0,
            final(self)@.cells == Seq::new(
                CELL_CNT as nat,
                |i: int| (old(self)@.color_code * 256) as u16,
            ),
    {
        let filler = vga_entry(self.color_code, 0);
        let mut i: usize = 0;
        while i < self.buffer.len()
            invariant
                self.buffer@.len() == CELL_CNT,
                self.color_code == old(self).color_code,
                self.cursor_pos == old(self).cursor_pos,
                self.cursor_pos <= VIEW_CELLS,
                i <= CELL_CNT,
                filler == self.color_code * 256,
                forall|j: int| 0 <= j < i ==> self.buffer@[j] == filler,
            decreases CELL_CNT - i,
        {
            self.buffer.set(i, filler);
            i = i + 1;
        }
        self.set_cursor_pos(0, 0);
        assert(self@.cells =~= Seq::new(
            CELL_CNT as nat,
            |i: int| (old(self)@.color_code * 256) as u16,
        ));
    }

    /// Sets the color of the text written from now on.
    pub fn set_color(&mut self, fg: Color, bg: Color, is_bright: bool)
        requires
            old(self).wf(),
        ensures
            final(self).wf(),
            final(self)@ == (VgaState {
                color_code: (fg.num() + (if is_bright {
                    8int
                } else {
                    0int
                }) + 16 * bg.num()) as u8,
                ..old(self)@
            }),
    {
        self.color_code = color_code(fg, bg, is_bright);
    }

    /// Moves the cursor to the cell numbered `x * y`, which must lie on
    /// the screen.
    pub fn set_cursor_pos(&mut self, x: u8, y: u8)
        requires
            old(self).wf(),
            x * y < VIEW_CELLS,
        ensures
            final(self).wf(),
            final(self)@ == (VgaState { cursor_pos: (x * y) as u16, ..old(self)@ }),
    {
        let new_pos = x as u16 * y as u16;
        self.cursor_pos = new_pos;
    }

    /// Returns the column and row of the cursor.
    pub fn get_cursor_pos(&self) -> (r: (u8, u8))
        requires
            self.wf(),
        ensures
            r.0 == self@.cursor_pos % 80,
            r.1 == self@.cursor_pos / 80,
    {
        let x = (self.cursor_pos % VIEW_WIDTH as u16) as u8;
        let y = (self.cursor_pos / VIEW_WIDTH as u16) as u8;
        (x, y)
    }

    /// Returns the cells of the buffer.
    pub fn cells(&self) -> (r: &[u16])
        ensures
            r@ == self@.cells,
    {
        self.buffer.as_slice()
    }

    /// Returns the color code of the text written from now on.
    pub fn color(&self) -> (r: u8)
        ensures
            r == self@.color_code,
    {
        self.color_code
    }

    /// Returns the width and height of the screen.
    pub fn get_viewport_dim(&self) -> (r: (u8, u8))
        ensures
            r == (VIEW_WIDTH, VIEW_HEIGHT),
    {
        (VIEW_WIDTH, VIEW_HEIGHT)
    }

    /// Writes byte `char` at the cursor; see [`after_u8`].
    pub fn write_u8(&mut self, char: u8)
        requires
            old(self).wf(),
        ensures
            final(self).wf(),
            final(self)@ == after_u8(old(self)@, char),
    {
        if self.cursor_pos == VIEW_CELLS {
            return;
        }
        if char == 0x0a {
            let rem = self.cursor_pos % (VIEW_WIDTH as u16);
            if rem != 0 {
                self.cursor_pos = self.cursor_pos - rem + VIEW_WIDTH as u16;
            }
        } else {
            let entry = vga_entry(self.color_code, char);
            self.buffer.set(self.cursor_pos as usize, entry);
            self.cursor_pos = self.cursor_pos + 1;
        }
    }

    /// Writes the bytes of `text` in turn.
    pub fn write(&mut self, text: &[u8])
        requires
            old(self).wf(),
        ensures
            final(self).wf(),
            final(self)@ == after_text(old(self)@, text@),
    {
        let mut i: usize = 0;
        while i < text.len()
            invariant
                i <= text@.len(),
                self.wf(),
                self@ == after_text(old(self)@, text@.take(i as int)),
            decreases text@.len() - i,
        {
            proof {
                assert(text@.take(i + 1).drop_last() =~= text@.take(i as int));
            }
            self.write_u8(text[i]);
            i = i + 1;
        }
        assert(text@.take(i as int) =~= text@);
    }
}

} // verus!
