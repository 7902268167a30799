//! Text-mode display output: colors, the 16-bit character cells of the
//! 80x25 text buffer, and a writer that appends to the last row and
//! scrolls.
//!
//! The writer here owns its cells as plain data. The thin layer that backs
//! them with the memory-mapped hardware buffer lives outside this crate.

use vstd::prelude::*;
use vstd::string::*;

verus! {

/// Number of rows of the text buffer.
pub const BUFFER_HEIGHT: usize = 25;

/// Number of columns of the text buffer.
pub const BUFFER_WIDTH: usize = 80;

/// The sixteen standard text-mode colors.
#[derive(Clone, Copy, Debug, PartialEq, Eq, Structural)]
pub enum Color {
    Black,
    Blue,
    Green,
    Cyan,
    Red,
    Magenta,
    Brown,
    LightGray,
    DarkGray,
    LightBlue,
    LightGreen,
    LightCyan,
    LightRed,
    Pink,
    Yellow,
    White,
}

/// The hardware number of a color: 0 for black up to 15 for white.
pub open spec fn color_num(c: Color) -> u8 {
    match c {
        Color::Black => 0,
        Color::Blue => 1,
        Color::Green => 2,
        Color::Cyan => 3,
        Color::Red => 4,
        Color::Magenta => 5,
        Color::Brown => 6,
        Color::LightGray => 7,
        Color::DarkGray => 8,
        Color::LightBlue => 9,
        Color::LightGreen => 10,
        Color::LightCyan => 11,
        Color::LightRed => 12,
        Color::Pink => 13,
        Color::Yellow => 14,
        Color::White => 15,
    }
}

impl Color {
    /// The hardware number of the color.
    pub fn code(self) -> (r: u8)
        ensures
            r == color_num(self),
            r < 16,
    {
        match self {
            Color::Black => 0,
            Color::Blue => 1,
            Color::Green => 2,
            Color::Cyan => 3,
            Color::Red => 4,
            Color::Magenta => 5,
            Color::Brown => 6,
            Color::LightGray => 7,
            Color::DarkGray => 8,
            Color::LightBlue => 9,
            Color::LightGreen => 10,
            Color::LightCyan => 11,
            Color::LightRed => 12,
            Color::Pink => 13,
            Color::Yellow => 14,
            Color::White => 15,
        }
    }
}

/// The color half of a character cell: background color in the high four
/// bits, foreground color in the low four.
#[derive(Clone, Copy, Debug, PartialEq, Eq, Structural)]
pub struct ColorCode(pub u8);

impl ColorCode {
    /// Packs a foreground and a background color into one attribute byte:
    /// sixteen times the background number plus the foreground number.
    pub fn new(foreground: Color, background: Color) -> (r: ColorCode)
        ensures
            r.0 == color_num(background) * 16 + color_num(foreground),
    {
        let f = foreground.code();
        let b = background.code();
        proof {
            assert((b < 16 && f < 16) ==> ((b << 4) | f) == b * 16 + f) by (bit_vector);
        }
        ColorCode((b << 4) | f)
    }
}

/// One cell of the text buffer: a code-page character and its colors.
#[derive(Clone, Copy, Debug, PartialEq, Eq, Structural)]
pub struct ScreenChar {
    /// The code-page byte shown in the cell.
    pub ascii_character: u8,
    /// The cell's color attribute.
    pub color_code: ColorCode,
}

/// The writer's abstract state: the 25 rows of 80 cells, the cursor column
/// on the last row, and the current color.
pub struct WriterModel {
    /// The cells, row by row.
    pub rows: Seq<Seq<ScreenChar>>,
    /// The column the next character lands in.
    pub col: int,
    /// The attribute byte given to written and blanked cells.
    pub color: ColorCode,
}

/// A row of blank cells in the given color.
pub open spec fn blank_row(color: ColorCode) -> Seq<ScreenChar> {
    Seq::new(80, |i: int| ScreenChar { ascii_character: 32, color_code: color })
}

/// The rows after scrolling: every row moves up one place and the last
/// row becomes blank.
pub open spec fn scrolled(rows: Seq<Seq<ScreenChar>>, color: ColorCode) -> Seq<Seq<ScreenChar>> {
    Seq::new(25, |r: int| if r < 24 { rows[r + 1] } else { blank_row(color) })
}

/// What writing one raw byte does: a newline scrolls and returns the
/// cursor to column zero; anything else lands in the last row at the
/// cursor, scrolling first when the row is full.
pub open spec fn model_write_byte(w: WriterModel, byte: u8) -> WriterModel {
    if byte == 10 {
        WriterModel { rows: scrolled(w.rows, w.color), col: 0, color: w.color }
    } else {
        let rows0 = if w.col >= 80 {
            scrolled(w.rows, w.color)
        } else {
            w.rows
        };
        let col0 = if w.col >= 80 {
            0int
        } else {
            w.col
        };
        let cell = ScreenChar { ascii_character: byte, color_code: w.color };
        WriterModel {
            rows: rows0.update(24, rows0[24].update(col0, cell)),
            col: col0 + 1,
            color: w.color,
        }
    }
}

/// The byte a string byte turns into: printable code-page bytes and the
/// newline pass through, anything else shows as the 0xfe block.
pub open spec fn printable(byte: u8) -> u8 {
    if (0x20 <= byte && byte <= 0x7e) || byte == 10 {
        byte
    } else {
        0xfe
    }
}

/// What writing a whole byte string does, front to back.
pub open spec fn model_write_bytes(w: WriterModel, bytes: Seq<u8>) -> WriterModel
    decreases bytes.len(),
{
    if bytes.len() == 0 {
        w
    } else {
        model_write_bytes(model_write_byte(w, printable(bytes[0])), bytes.skip(1))
    }
}

proof fn lemma_model_write_bytes_snoc(w: WriterModel, bytes: Seq<u8>, byte: u8)
    ensures
        model_write_bytes(w, bytes.push(byte)) == model_write_byte(
            model_write_bytes(w, bytes),
            printable(byte),
        ),
    decreases bytes.len(),
{
    let snoc = bytes.push(byte);
    assert(snoc.len() == bytes.len() + 1);
    if bytes.len() == 0 {
        assert(snoc[0] == byte);
        assert(snoc.skip(1) =~= Seq::<u8>::empty());
        let w1 = model_write_byte(w, printable(byte));
        assert(model_write_bytes(w, snoc) == model_write_bytes(w1, snoc.skip(1)));
        assert(model_write_bytes(w1, Seq::<u8>::empty()) == w1);
        assert(model_write_bytes(w, bytes) == w);
    } else {
        assert(snoc[0] == bytes[0]);
        assert(snoc.skip(1) =~= bytes.skip(1).push(byte));
        let w1 = model_write_byte(w, printable(bytes[0]));
        assert(model_write_bytes(w, snoc) == model_write_bytes(w1, snoc.skip(1)));
        lemma_model_write_bytes_snoc(w1, bytes.skip(1), byte);
        assert(model_write_bytes(w, bytes) == model_write_bytes(w1, bytes.skip(1)));
    }
}

/// Writes characters into the last row of the text buffer, scrolling all
/// rows up one place when the row fills or a newline arrives.
pub struct Writer {
    /// The column of the last row the next character lands in.
    pub column_position: usize,
    /// The attribute byte given to written and blanked cells.
    pub color_code: ColorCode,
    /// The buffer cells this writer owns, 25 rows of 80.
    pub buffer: Vec<Vec<ScreenChar>>,
}

impl Writer {
    /// The shape every writer keeps: 25 rows of 80 cells, cursor within
    /// the row.
    pub open spec fn wf(self) -> bool {
        &&& self.buffer@.len() == 25
        &&& forall|r: int| 0 <= r < 25 ==> (#[trigger] self.buffer@[r])@.len() == 80
        &&& self.column_position <= 80
    }

    /// The writer's abstract state.
    pub open spec fn view(self) -> WriterModel {
        WriterModel {
            rows: self.buffer@.map_values(|row: Vec<ScreenChar>| row@),
            col: self.column_position as int,
            color: self.color_code,
        }
    }

    /// A fresh row of blank cells in the given color.
    fn blank_line(color_code: ColorCode) -> (r: Vec<ScreenChar>)
        ensures
            r@ == blank_row(color_code),
    {
        let mut row: Vec<ScreenChar> = Vec::new();
        let mut c: usize = 0;
        while c < 80
            invariant
                c <= 80,
                row@.len() == c,
                forall|k: int| 0 <= k < c ==> row@[k] == (ScreenChar { ascii_character: 32, color_code }),
            decreases 80 - c,
        {
            let blank = ScreenChar { ascii_character: 32, color_code };
            row.push(blank);
            c += 1;
        }
        proof {
            assert(row@ =~= blank_row(color_code));
        }
        row
    }

    /// A copy of row `r` of the buffer, cell by cell.
    fn copy_row(&self, r: usize) -> (ret: Vec<ScreenChar>)
        requires
            self.wf(),
            r < 25,
        ensures
            ret@ == self.buffer@[r as int]@,
    {
        let mut row: Vec<ScreenChar> = Vec::new();
        let mut c: usize = 0;
        while c < 80
            invariant
                self.wf(),
                r < 25,
                c <= 80,
                row@.len() == c,
                forall|k: int| 0 <= k < c ==> row@[k] == self.buffer@[r as int]@[k],
            decreases 80 - c,
        {
            let cell = self.buffer[r][c];
            row.push(cell);
            c += 1;
        }
        proof {
            assert(row@ =~= self.buffer@[r as int]@);
        }
        row
    }

    /// A writer over a blank buffer, at column zero.
    pub fn new(color_code: ColorCode) -> (r: Writer)
        ensures
            r.wf(),
            r.view().col == 0,
            r.view().color == color_code,
            forall|row: int| 0 <= row < 25 ==> #[trigger] r.view().rows[row] == blank_row(
                color_code),
    {
        let mut buffer: Vec<Vec<ScreenChar>> = Vec::new();
        let mut r: usize = 0;
        while r < 25
            invariant
                r <= 25,
                buffer@.len() == r,
                forall|j: int| 0 <= j < r ==> (#[trigger] buffer@[j])@ == blank_row(color_code),
            decreases 25 - r,
        {
            let row: Vec<ScreenChar> = Writer::blank_line(color_code);
            buffer.push(row);
            r += 1;
        }
        let w = Writer { column_position: 0, color_code, buffer };
        proof {
            assert forall|row: int| 0 <= row < 25 implies #[trigger] w.view().rows[row]
                == blank_row(color_code) by {
                assert(w.buffer@[row]@ =~= blank_row(color_code));
            }
        }
        w
    }

    /// Scrolls: every row moves up one place, the last row becomes blank,
    /// and the cursor returns to column zero.
    fn new_line(&mut self)
        requires
            old(self).wf(),
        ensures
            final(self).wf(),
            final(self).view() == (WriterModel {
                rows: scrolled(old(self).view().rows, old(self).color_code),
                col: 0,
                color: old(self).color_code,
            }),
    {
        let mut fresh: Vec<Vec<ScreenChar>> = Vec::new();
        let mut r: usize = 1;
        while r < 25
            invariant
                old(self).wf(),
                *self == *old(self),
                1 <= r <= 25,
                fresh@.len() == r - 1,
                forall|j: int| 0 <= j < r - 1 ==> (#[trigger] fresh@[j])@ == self.buffer@[j + 1]@,
            decreases 25 - r,
        {
            let row_copy = self.copy_row(r);
            fresh.push(row_copy);
            r += 1;
        }
        let blank_vec: Vec<ScreenChar> = Writer::blank_line(self.color_code);
        fresh.push(blank_vec);
        self.buffer = fresh;
        self.column_position = 0;
        proof {
            assert(self.view().rows =~= scrolled(old(self).view().rows, old(self).color_code));
        }
    }

    /// Writes one raw byte: a newline scrolls; anything else lands at the
    /// cursor in the last row, scrolling first when the row is full.
    pub fn write_byte(&mut self, byte: u8)
        requires
            old(self).wf(),
        ensures
            final(self).wf(),
            final(self).view() == model_write_byte(old(self).view(), byte),
    {
        if byte == 10 {
            self.new_line();
        } else {
            let ghost w0 = self.view();
            if self.column_position >= 80 {
                self.new_line();
            }
            let ghost w1 = self.view();
            let col = self.column_position;
            let cell = ScreenChar { ascii_character: byte, color_code: self.color_code };
            self.buffer[24][col] = cell;
            self.column_position = col + 1;
            proof {
                assert(self.view().rows =~= w1.rows.update(24, w1.rows[24].update(col as int, cell)));
            }
        }
    }

    /// Writes a string's bytes in order: printable code-page bytes and the
    /// newline as they are, anything else as the 0xfe block.
    pub fn write_string(&mut self, s: &str)
        requires
            old(self).wf(),
        ensures
            final(self).wf(),
            final(self).view() == model_write_bytes(old(self).view(), s.spec_bytes()),
    {
        let bytes = s.as_bytes();
        let n = bytes.len();
        let mut i: usize = 0;
        while i < n
            invariant
                self.wf(),
                bytes@ == s.spec_bytes(),
                n == bytes@.len(),
                i <= n,
                self.view() == model_write_bytes(old(self).view(), bytes@.take(i as int)),
            decreases n - i,
        {
            let b = bytes[i];
            let shown: u8 = if (0x20 <= b && b <= 0x7e) || b == 10 {
                b
            } else {
                0xfe
            };
            self.write_byte(shown);
            proof {
                assert(bytes@.take(i + 1) =~= bytes@.take(i as int).push(b));
                lemma_model_write_bytes_snoc(old(self).view(), bytes@.take(i as int), b);
            }
            i += 1;
        }
        proof {
            assert(bytes@.take(n as int) =~= bytes@);
        }
    }
}

} // verus!
