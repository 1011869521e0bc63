//! A writer for the VGA text-mode buffer: a fixed grid of characters, each
//! an ASCII byte paired with a foreground/background colour code. The writer
//! fills the bottom row left to right; moving to a new line is not performed
//! yet, so a newline byte leaves the writer unchanged.

use vstd::prelude::*;
use vstd::string::StringSliceAdditionalSpecFns;
use vstd::string::StrSliceExecFns;

verus! {

/// Rows in the text buffer.
pub const BUFFER_HEIGHT: usize = 25;

/// Columns in the text buffer.
pub const BUFFER_WIDTH: usize = 80;

/// The sixteen VGA text-mode colours.
#[derive(Clone, Copy, PartialEq, Eq, Structural, Debug)]
pub enum Color {
    Black,
    Blue,
    Green,
    Cyan,
    Red,
    Magenta,
    Brown,
    LightGray,
    DarkGray,
    LightBlue,
    LightGreen,
    LightCyan,
    LightRed,
    Pink,
    Yellow,
    White,
}

impl Color {
    /// The colour's four-bit hardware code.
    pub open spec fn spec_code(self) -> u8 {
        match self {
            Color::Black => 0,
            Color::Blue => 1,
            Color::Green => 2,
            Color::Cyan => 3,
            Color::Red => 4,
            Color::Magenta => 5,
            Color::Brown => 6,
            Color::LightGray => 7,
            Color::DarkGray => 8,
            Color::LightBlue => 9,
            Color::LightGreen => 10,
            Color::LightCyan => 11,
            Color::LightRed => 12,
            Color::Pink => 13,
            Color::Yellow => 14,
            Color::White => 15,
        }
    }

    /// The colour's four-bit hardware code.
    pub fn code(self) -> (r: u8)
        ensures
            r == self.spec_code(),
            r <= 15,
    {
        match self {
            Color::Black => 0,
            Color::Blue => 1,
            Color::Green => 2,
            Color::Cyan => 3,
            Color::Red => 4,
            Color::Magenta => 5,
            Color::Brown => 6,
            Color::LightGray => 7,
            Color::DarkGray => 8,
            Color::LightBlue => 9,
            Color::LightGreen => 10,
            Color::LightCyan => 11,
            Color::LightRed => 12,
            Color::Pink => 13,
            Color::Yellow => 14,
            Color::White => 15,
        }
    }
}

/// A full colour byte: background colour in the high four bits, foreground
/// colour in the low four.
#[derive(Clone, Copy, PartialEq, Eq, Structural, Debug)]
pub struct ColorCode(pub u8);

impl ColorCode {
    pub fn new(foreground: Color, background: Color) -> (r: ColorCode)
        ensures
            r.0 == background.spec_code() * 16 + foreground.spec_code(),
    {
        let fg = foreground.code();
        let bg = background.code();
        proof {
            assert((bg << 4) | fg == bg * 16 + fg) by (bit_vector)
                requires
                    fg <= 15 && bg <= 15,
            ;
        }
        ColorCode((bg << 4) | fg)
    }
}

/// One cell of the text buffer: a character byte and its colours.
#[derive(Clone, Copy, PartialEq, Eq, Structural, Debug)]
pub struct ScreenChar {
    pub ascii_character: u8,
    pub color_code: ColorCode,
}

/// The text buffer's character grid. The hardware keeps this grid at a fixed
/// memory address; this owned grid holds the same rows and columns.
pub struct Buffer {
    pub chars: Vec<Vec<ScreenChar>>,
}

impl View for Buffer {
    type V = Seq<Seq<ScreenChar>>;

    open spec fn view(&self) -> Seq<Seq<ScreenChar>> {
        self.chars@.map_values(|row: Vec<ScreenChar>| row@)
    }
}

impl Buffer {
    /// A grid of exactly `BUFFER_HEIGHT` rows of `BUFFER_WIDTH` cells.
    pub open spec fn wf(&self) -> bool {
        &&& self@.len() == BUFFER_HEIGHT
        &&& forall|r: int| 0 <= r < self@.len() ==> (#[trigger] self@[r]).len() == BUFFER_WIDTH
    }
}

/// The writer's whole visible state: the column the next byte lands in, the
/// colours it is written with, and the character grid.
pub struct VgaState {
    pub col: int,
    pub color: ColorCode,
    pub grid: Seq<Seq<ScreenChar>>,
}

/// What one byte does to the writer: a newline leaves it unchanged (line
/// handling is not performed), any other byte lands at the bottom row's
/// current column and advances the column by one.
pub open spec fn spec_write_byte(s: VgaState, byte: u8) -> VgaState {
    if byte == 10 {
        s
    } else {
        VgaState {
            col: s.col + 1,
            color: s.color,
            grid: s.grid.update(
                BUFFER_HEIGHT - 1,
                s.grid[BUFFER_HEIGHT - 1].update(
                    s.col,
                    ScreenChar { ascii_character: byte, color_code: s.color },
                ),
            ),
        }
    }
}

/// Whether `byte` prints as itself: printable ASCII or the newline.
pub open spec fn printable(byte: u8) -> bool {
    byte == 10 || (0x20 <= byte && byte <= 0x7e)
}

/// The byte actually written: unprintable bytes become the replacement
/// character `0xfe`.
pub open spec fn translate_byte(byte: u8) -> u8 {
    if printable(byte) {
        byte
    } else {
        0xfe
    }
}

/// Whether a byte sequence fits from column `col` on: every byte but a
/// newline needs a column left of `BUFFER_WIDTH`. Writing further would walk
/// off the fixed bottom row.
pub open spec fn can_write(col: int, bytes: Seq<u8>) -> bool
    decreases bytes.len(),
{
    bytes.len() == 0 || (if bytes[0] == 10 {
        can_write(col, bytes.drop_first())
    } else {
        col < BUFFER_WIDTH && can_write(col + 1, bytes.drop_first())
    })
}

/// What a byte sequence does to the writer: each byte translated, then
/// written in turn.
pub open spec fn spec_write_bytes(s: VgaState, bytes: Seq<u8>) -> VgaState
    decreases bytes.len(),
{
    if bytes.len() == 0 {
        s
    } else {
        spec_write_bytes(spec_write_byte(s, translate_byte(bytes[0])), bytes.drop_first())
    }
}

/// Writes characters and colours into the text grid, always on the bottom
/// row, advancing one column per byte.
pub struct Writer {
    pub column_position: usize,
    pub color_code: ColorCode,
    pub buffer: Buffer,
}

impl View for Writer {
    type V = VgaState;

    open spec fn view(&self) -> VgaState {
        VgaState {
            col: self.column_position as int,
            color: self.color_code,
            grid: self.buffer@,
        }
    }
}

impl Writer {
    /// A well-formed grid, with the column at most one past the last cell.
    pub open spec fn wf(&self) -> bool {
        &&& self.buffer.wf()
        &&& self.column_position <= BUFFER_WIDTH
    }

    /// A writer over a blank grid, writing with the given colours from the
    /// first column.
    pub fn new(color_code: ColorCode) -> (r: Writer)
        ensures
            r.wf(),
            r@.col == 0,
            r@.color == color_code,
            forall|row: int, col: int|
                0 <= row < BUFFER_HEIGHT && 0 <= col < BUFFER_WIDTH ==> #[trigger] r@.grid[row][col]
                    == (ScreenChar { ascii_character: 0x20, color_code }),
    {
        let blank = ScreenChar { ascii_character: 0x20, color_code };
        let mut chars: Vec<Vec<ScreenChar>> = Vec::new();
        let mut row: usize = 0;
        while row < BUFFER_HEIGHT
            invariant
                row <= BUFFER_HEIGHT,
                chars@.len() == row,
                forall|r: int|
                    0 <= r < row ==> (#[trigger] chars@[r])@ =~= Seq::new(
                        BUFFER_WIDTH as nat,
                        |c: int| blank,
                    ),
            decreases BUFFER_HEIGHT - row,
        {
            let mut line: Vec<ScreenChar> = Vec::new();
            let mut col: usize = 0;
            while col < BUFFER_WIDTH
                invariant
                    col <= BUFFER_WIDTH,
                    line@ =~= Seq::new(col as nat, |c: int| blank),
                decreases BUFFER_WIDTH - col,
            {
                line.push(blank);
                col = col + 1;
            }
            chars.push(line);
            row = row + 1;
        }
        let w = Writer { column_position: 0, color_code, buffer: Buffer { chars } };
        proof {
            assert forall|row: int, col: int|
                0 <= row < BUFFER_HEIGHT && 0 <= col < BUFFER_WIDTH implies #[trigger] w@.grid[row][col]
                == blank by {
                assert(w.buffer@[row] == w.buffer.chars@[row]@);
            }
            assert forall|r: int| 0 <= r < w.buffer@.len() implies (#[trigger] w.buffer@[r]).len()
                == BUFFER_WIDTH by {
                assert(w.buffer@[r] == w.buffer.chars@[r]@);
            }
        }
        w
    }

    /// Writes one byte: a newline leaves the writer unchanged, any other
    /// byte lands at the bottom row's current column, in the writer's
    /// colours, and the column advances. The byte is written as given; the
    /// caller screens unprintable bytes.
    pub fn write_byte(&mut self, byte: u8)
        requires
            old(self).wf(),
            byte == 10 || old(self).column_position < BUFFER_WIDTH,
        ensures
            final(self).wf(),
            final(self)@ == spec_write_byte(old(self)@, byte),
    {
        if byte == 10 {
            self.new_line();
        } else {
            if self.column_position >= BUFFER_WIDTH {
                self.new_line();
            }
            let row = BUFFER_HEIGHT - 1;
            let col = self.column_position;
            let color_code = self.color_code;
            proof {
                assert(self.buffer@[row as int] == self.buffer.chars@[row as int]@);
            }
            self.buffer.chars[row][col] = ScreenChar { ascii_character: byte, color_code };
            self.column_position = self.column_position + 1;
            proof {
                assert(self.buffer@ =~~= spec_write_byte(old(self)@, byte).grid);
            }
        }
    }

    /// Writes a string's bytes in order, replacing each byte that is neither
    /// printable ASCII nor a newline with `0xfe`.
    pub fn write_string(&mut self, s: &str)
        requires
            old(self).wf(),
            can_write(old(self).column_position as int, s.spec_bytes()),
        ensures
            final(self).wf(),
            final(self)@ == spec_write_bytes(old(self)@, s.spec_bytes()),
    {
        let bytes = s.as_bytes_vec();
        let ghost all = s.spec_bytes();
        proof {
            assert(all.skip(0) =~= all);
        }
        let mut i: usize = 0;
        while i < bytes.len()
            invariant
                bytes@ == all,
                i <= all.len(),
                self.wf(),
                can_write(self.column_position as int, all.skip(i as int)),
                spec_write_bytes(old(self)@, all) == spec_write_bytes(self@, all.skip(i as int)),
            decreases all.len() - i,
        {
            let byte = bytes[i];
            proof {
                assert(all.skip(i as int)[0] == byte);
                assert(all.skip(i as int).drop_first() =~= all.skip(i as int + 1));
            }
            if (0x20 <= byte && byte <= 0x7e) || byte == 10 {
                self.write_byte(byte);
            } else {
                self.write_byte(0xfe);
            }
            i = i + 1;
        }
        proof {
            assert(all.skip(all.len() as int) =~= Seq::<u8>::empty());
        }
    }

    /// Moving to a new line is not performed: the writer stays on the bottom
    /// row with its column unchanged.
    fn new_line(&mut self)
        ensures
            *final(self) == *old(self),
    {
    }
}

} // verus!
