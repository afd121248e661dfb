//! The text screen: 25 rows of 80 characters, each with a color code. The writer
//! appends bytes to the bottom row and scrolls the screen up on a newline or when
//! the row is full. The cells are kept here; copying them to the hardware buffer is
//! left to the caller.
use vstd::prelude::*;
use vstd::string::StringSliceAdditionalSpecFns;

verus! {

pub const BUFFER_HEIGHT: usize = 25;

pub const BUFFER_WIDTH: usize = 80;

/// Number of cells on the screen.
pub const BUFFER_CELLS: usize = 2000;

/// The byte shown in place of one that is not printable ASCII.
pub const REPLACEMENT_BYTE: u8 = 0xfe;

/// The sixteen text-mode colors.
#[derive(Clone, Copy, Debug, PartialEq, Eq)]
pub enum Color {
    Black,
    Blue,
    Green,
    Cyan,
    Red,
    Magenta,
    Brown,
    LightGray,
    DarkGray,
    LightBlue,
    LightGreen,
    LightCyan,
    LightRed,
    Pink,
    Yellow,
    White,
}

impl Color {
    /// The color's 4-bit hardware number.
    pub open spec fn spec_code(self) -> u8 {
        match self {
            Color::Black => 0,
            Color::Blue => 1,
            Color::Green => 2,
            Color::Cyan => 3,
            Color::Red => 4,
            Color::Magenta => 5,
            Color::Brown => 6,
            Color::LightGray => 7,
            Color::DarkGray => 8,
            Color::LightBlue => 9,
            Color::LightGreen => 10,
            Color::LightCyan => 11,
            Color::LightRed => 12,
            Color::Pink => 13,
            Color::Yellow => 14,
            Color::White => 15,
        }
    }

    pub fn code(self) -> (r: u8)
        ensures
            r == self.spec_code(),
            r < 16,
    {
        match self {
            Color::Black => 0,
            Color::Blue => 1,
            Color::Green => 2,
            Color::Cyan => 3,
            Color::Red => 4,
            Color::Magenta => 5,
            Color::Brown => 6,
            Color::LightGray => 7,
            Color::DarkGray => 8,
            Color::LightBlue => 9,
            Color::LightGreen => 10,
            Color::LightCyan => 11,
            Color::LightRed => 12,
            Color::Pink => 13,
            Color::Yellow => 14,
            Color::White => 15,
        }
    }
}

/// A foreground and a background color in one byte: background in the high four bits.
#[derive(Clone, Copy, Debug, PartialEq, Eq)]
pub struct ColorCode(pub u8);

impl ColorCode {
    pub fn new(foreground: Color, background: Color) -> (r: ColorCode)
        ensures
            r.0 == background.spec_code() * 16 + foreground.spec_code(),
    {
        let f = foreground.code();
        let b = background.code();
        let v = (b << 4u8) | f;
        assert(v == b * 16 + f) by (bit_vector)
            requires
                v == (b << 4u8) | f,
                b < 16,
                f < 16,
        ;
        ColorCode(v)
    }
}

/// One cell of the screen.
#[derive(Clone, Copy, Debug, PartialEq, Eq)]
pub struct ScreenChar {
    pub ascii_character: u8,
    pub color_code: ColorCode,
}

pub open spec fn blank(color: ColorCode) -> ScreenChar {
    ScreenChar { ascii_character: 0x20, color_code: color }
}

/// The screen moved up one row, with a blank bottom row.
pub open spec fn scrolled(cells: Seq<ScreenChar>, color: ColorCode) -> Seq<ScreenChar> {
    Seq::new(
        BUFFER_CELLS as nat,
        |i: int|
            if i < (BUFFER_HEIGHT - 1) * BUFFER_WIDTH {
                cells[i + BUFFER_WIDTH]
            } else {
                blank(color)
            },
    )
}

/// Column and cells after writing byte `b` at column `col` with `color`.
pub open spec fn byte_written(col: nat, cells: Seq<ScreenChar>, color: ColorCode, b: u8) -> (
    nat,
    Seq<ScreenChar>,
) {
    if b == 10 {
        (0, scrolled(cells, color))
    } else {
        let ch = ScreenChar { ascii_character: b, color_code: color };
        let bottom = ((BUFFER_HEIGHT - 1) * BUFFER_WIDTH) as int;
        if col >= BUFFER_WIDTH {
            (1, scrolled(cells, color).update(bottom, ch))
        } else {
            ((col + 1) as nat, cells.update(bottom + col, ch))
        }
    }
}

/// The byte shown for `b`: printable ASCII and newline as they are, others replaced.
pub open spec fn shown_byte(b: u8) -> u8 {
    if (0x20 <= b && b <= 0x7e) || b == 10 {
        b
    } else {
        REPLACEMENT_BYTE
    }
}

/// Column and cells after writing the bytes `bs` in order, each as `shown_byte` shows it.
pub open spec fn bytes_written(col: nat, cells: Seq<ScreenChar>, color: ColorCode, bs: Seq<u8>) -> (
    nat,
    Seq<ScreenChar>,
)
    decreases bs.len(),
{
    if bs.len() == 0 {
        (col, cells)
    } else {
        let prev = bytes_written(col, cells, color, bs.drop_last());
        byte_written(prev.0, prev.1, color, shown_byte(bs.last()))
    }
}

/// Writes text to the bottom row of the screen.
pub struct Writer {
    column_position: usize,
    color_code: ColorCode,
    buffer: Vec<ScreenChar>,
}

impl Writer {
    pub closed spec fn column(&self) -> nat {
        self.column_position as nat
    }

    pub closed spec fn color(&self) -> ColorCode {
        self.color_code
    }

    /// The cells, row after row, top row first.
    pub closed spec fn cells(&self) -> Seq<ScreenChar> {
        self.buffer@
    }

    pub open spec fn wf(&self) -> bool {
        self.cells().len() == BUFFER_CELLS && self.column() <= BUFFER_WIDTH
    }

    /// A writer at column 0 of a blank screen.
    pub fn new(color_code: ColorCode) -> (r: Writer)
        ensures
            r.wf(),
            r.column() == 0,
            r.color() == color_code,
            r.cells() == Seq::new(BUFFER_CELLS as nat, |i: int| blank(color_code)),
    {
        let mut buffer: Vec<ScreenChar> = Vec::new();
        let mut k: usize = 0;
        while k < BUFFER_CELLS
            invariant
                k <= BUFFER_CELLS,
                buffer@ == Seq::new(k as nat, |i: int| blank(color_code)),
            decreases BUFFER_CELLS - k,
        {
            buffer.push(ScreenChar { ascii_character: 0x20, color_code });
            k = k + 1;
            assert(buffer@ =~= Seq::new(k as nat, |i: int| blank(color_code)));
        }
        Writer { column_position: 0, color_code, buffer }
    }

    pub fn column_position(&self) -> (r: usize)
        ensures
            r == self.column(),
    {
        self.column_position
    }

    pub fn color_code(&self) -> (r: ColorCode)
        ensures
            r == self.color(),
    {
        self.color_code
    }

    /// The cell at `row` and `col`.
    pub fn char_at(&self, row: usize, col: usize) -> (r: ScreenChar)
        requires
            self.wf(),
            row < BUFFER_HEIGHT,
            col < BUFFER_WIDTH,
        ensures
            r == self.cells()[row * BUFFER_WIDTH + col],
    {
        self.buffer[row * BUFFER_WIDTH + col]
    }

    /// Writes one byte: a newline scrolls, any other byte goes to the next column of
    /// the bottom row, after a scroll if the row is full.
    pub fn write_byte(&mut self, byte: u8)
        requires
            old(self).wf(),
        ensures
            final(self).wf(),
            final(self).color() == old(self).color(),
            (final(self).column(), final(self).cells()) == byte_written(
                old(self).column(),
                old(self).cells(),
                old(self).color(),
                byte,
            ),
    {
        if byte == 10u8 {
            self.new_line();
        } else {
            if self.column_position >= BUFFER_WIDTH {
                self.new_line();
            }
            let row = BUFFER_HEIGHT - 1;
            let col = self.column_position;
            let color_code = self.color_code;
            self.buffer.set(row * BUFFER_WIDTH + col, ScreenChar { ascii_character: byte, color_code });
            self.column_position = self.column_position + 1;
        }
    }

    /// Moves every row up one, blanks the bottom row, and goes back to column 0.
    fn new_line(&mut self)
        requires
            old(self).wf(),
        ensures
            final(self).wf(),
            final(self).color() == old(self).color(),
            final(self).column() == 0,
            final(self).cells() == scrolled(old(self).cells(), old(self).color()),
    {
        let ghost old_cells = self.buffer@;
        let mut i: usize = 0;
        while i < (BUFFER_HEIGHT - 1) * BUFFER_WIDTH
            invariant
                self.buffer@.len() == BUFFER_CELLS,
                self.color_code == old(self).color_code,
                self.column_position == old(self).column_position,
                i <= (BUFFER_HEIGHT - 1) * BUFFER_WIDTH,
                forall|k: int| 0 <= k < i ==> #[trigger] self.buffer@[k] == old_cells[k + BUFFER_WIDTH],
                forall|k: int| i <= k < BUFFER_CELLS ==> #[trigger] self.buffer@[k] == old_cells[k],
            decreases (BUFFER_HEIGHT - 1) * BUFFER_WIDTH - i,
        {
            let ch = self.buffer[i + BUFFER_WIDTH];
            self.buffer.set(i, ch);
            i = i + 1;
        }
        self.clear_row(BUFFER_HEIGHT - 1);
        self.column_position = 0;
        assert(self.buffer@ =~= scrolled(old_cells, self.color_code));
    }

    /// Fills `row` with blanks in the writer's color.
    fn clear_row(&mut self, row: usize)
        requires
            old(self).wf(),
            row < BUFFER_HEIGHT,
        ensures
            final(self).wf(),
            final(self).color() == old(self).color(),
            final(self).column() == old(self).column(),
            forall|k: int|
                0 <= k < BUFFER_CELLS ==> #[trigger] final(self).cells()[k] == if row * BUFFER_WIDTH
                    <= k < row * BUFFER_WIDTH + BUFFER_WIDTH {
                    blank(old(self).color())
                } else {
                    old(self).cells()[k]
                },
    {
        let blank_char = ScreenChar { ascii_character: 0x20u8, color_code: self.color_code };
        let mut col: usize = 0;
        while col < BUFFER_WIDTH
            invariant
                old(self).wf(),
                row < BUFFER_HEIGHT,
                self.buffer@.len() == BUFFER_CELLS,
                self.color_code == old(self).color_code,
                self.column_position == old(self).column_position,
                blank_char == blank(self.color_code),
                col <= BUFFER_WIDTH,
                forall|k: int|
                    0 <= k < BUFFER_CELLS ==> #[trigger] self.buffer@[k] == if row * BUFFER_WIDTH
                        <= k < row * BUFFER_WIDTH + col {
                        blank_char
                    } else {
                        old(self).buffer@[k]
                    },
            decreases BUFFER_WIDTH - col,
        {
            self.buffer.set(row * BUFFER_WIDTH + col, blank_char);
            col = col + 1;
        }
    }

    /// Writes the bytes of `s`; a byte that is neither printable ASCII nor a newline is
    /// shown as `REPLACEMENT_BYTE`.
    pub fn write_string(&mut self, s: &str)
        requires
            old(self).wf(),
        ensures
            final(self).wf(),
            final(self).color() == old(self).color(),
            (final(self).column(), final(self).cells()) == bytes_written(
                old(self).column(),
                old(self).cells(),
                old(self).color(),
                s.spec_bytes(),
            ),
    {
        let bytes = s.as_bytes();
        let mut i: usize = 0;
        while i < bytes.len()
            invariant
                self.wf(),
                self.color() == old(self).color(),
                bytes@ == s.spec_bytes(),
                i <= bytes@.len(),
                (self.column(), self.cells()) == bytes_written(
                    old(self).column(),
                    old(self).cells(),
                    old(self).color(),
                    bytes@.take(i as int),
                ),
            decreases bytes@.len() - i,
        {
            let byte = bytes[i];
            proof {
                assert(bytes@.take(i + 1).drop_last() =~= bytes@.take(i as int));
            }
            if (0x20 <= byte && byte <= 0x7e) || byte == 10u8 {
                self.write_byte(byte);
            } else {
                self.write_byte(REPLACEMENT_BYTE);
            }
            i = i + 1;
        }
        proof {
            assert(bytes@.take(bytes@.len() as int) =~= bytes@);
        }
    }
}

} // verus!
