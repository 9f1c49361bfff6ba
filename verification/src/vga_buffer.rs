//! The text screen: 25 rows of 80 cells, each a character and its colours.
//!
//! A `Writer` writes on the last row and moves all rows up when that row is
//! full or a line ends. It works on a buffer of its own; showing the buffer
//! on the display is left to the code that owns the display memory.

use vstd::prelude::*;
use vstd::string::StringSliceAdditionalSpecFns;

verus! {

/// The number of rows of the screen.
pub const BUFFER_HEIGHT: usize = 25;

/// The number of cells of a row.
pub const BUFFER_WIDTH: usize = 80;

/// The number of cells of the screen.
pub const BUFFER_CELLS: usize = BUFFER_HEIGHT * BUFFER_WIDTH;

/// The byte that ends a line.
pub const LINE_FEED: u8 = 0x0a;

/// The character that shows nothing.
pub const SPACE: u8 = 0x20;

/// The character written for a byte that cannot be shown: a small block.
pub const UNPRINTABLE: u8 = 0xfe;

/// The sixteen colours of the text mode.
#[allow(dead_code)]
#[derive(Debug, Clone, Copy, PartialEq, Eq, Structural)]
pub enum Color {
    Black,
    Blue,
    Green,
    Cyan,
    Red,
    Magenta,
    Brown,
    LightGray,
    DarkGray,
    LightBlue,
    LightGreen,
    LightCyan,
    LightRed,
    Pink,
    Yellow,
    White,
}

impl Color {
    /// The number of the colour, 0 for black up to 15 for white.
    pub open spec fn code(self) -> int {
        match self {
            Color::Black => 0,
            Color::Blue => 1,
            Color::Green => 2,
            Color::Cyan => 3,
            Color::Red => 4,
            Color::Magenta => 5,
            Color::Brown => 6,
            Color::LightGray => 7,
            Color::DarkGray => 8,
            Color::LightBlue => 9,
            Color::LightGreen => 10,
            Color::LightCyan => 11,
            Color::LightRed => 12,
            Color::Pink => 13,
            Color::Yellow => 14,
            Color::White => 15,
        }
    }

    /// The number of the colour as a byte.
    pub fn as_u8(self) -> (r: u8)
        ensures
            r == self.code(),
            r < 16,
    {
        match self {
            Color::Black => 0,
            Color::Blue => 1,
            Color::Green => 2,
            Color::Cyan => 3,
            Color::Red => 4,
            Color::Magenta => 5,
            Color::Brown => 6,
            Color::LightGray => 7,
            Color::DarkGray => 8,
            Color::LightBlue => 9,
            Color::LightGreen => 10,
            Color::LightCyan => 11,
            Color::LightRed => 12,
            Color::Pink => 13,
            Color::Yellow => 14,
            Color::White => 15,
        }
    }
}

/// The colours of a cell in one byte: the background in the high four bits,
/// the foreground in the low four.
#[derive(Debug, Clone, Copy, PartialEq, Eq, Structural)]
pub struct ColorCode(pub u8);

impl ColorCode {
    /// The byte for `foreground` on `background`.
    pub fn new(foreground: Color, background: Color) -> (r: ColorCode)
        ensures
            r.0 == background.code() * 16 + foreground.code(),
    {
        let high: u8 = background.as_u8();
        let low: u8 = foreground.as_u8();
        assert((high << 4) | low == high * 16 + low) by (bit_vector)
            requires
                high < 16,
                low < 16,
        ;
        ColorCode((high << 4) | low)
    }
}

/// A cell of the screen: a character of code page 437 and its colours.
#[derive(Debug, Clone, Copy, PartialEq, Eq, Structural)]
pub struct ScreenChar {
    pub ascii_character: u8,
    pub color_code: ColorCode,
}

/// The cell that shows nothing, in the given colours.
pub open spec fn blank(color_code: ColorCode) -> ScreenChar {
    ScreenChar { ascii_character: SPACE, color_code }
}

/// A row of cells that show nothing.
pub open spec fn blank_row(color_code: ColorCode) -> Seq<ScreenChar> {
    Seq::new(BUFFER_WIDTH as nat, |col: int| blank(color_code))
}

/// The cell at `row` and `col` of a screen given row by row.
pub open spec fn cell(screen: Seq<ScreenChar>, row: int, col: int) -> ScreenChar {
    screen[row * BUFFER_WIDTH + col]
}

/// The screen with one cell replaced.
pub open spec fn with_cell(screen: Seq<ScreenChar>, row: int, col: int, ch: ScreenChar) -> Seq<
    ScreenChar,
> {
    screen.update(row * BUFFER_WIDTH + col, ch)
}

/// The screen with one row of cells that show nothing.
pub open spec fn with_blank_row(screen: Seq<ScreenChar>, row: int, color_code: ColorCode) -> Seq<
    ScreenChar,
> {
    screen.subrange(0, row * BUFFER_WIDTH) + blank_row(color_code) + screen.subrange(
        (row + 1) * BUFFER_WIDTH,
        screen.len() as int,
    )
}

/// The screen moved up by one row: the first row is gone, and the last row
/// shows nothing.
pub open spec fn scrolled(screen: Seq<ScreenChar>, color_code: ColorCode) -> Seq<ScreenChar> {
    screen.subrange(BUFFER_WIDTH as int, screen.len() as int) + blank_row(color_code)
}

/// The cells of the screen, row by row.
pub struct Buffer {
    chars: [ScreenChar; BUFFER_CELLS],
}

impl View for Buffer {
    type V = Seq<ScreenChar>;

    closed spec fn view(&self) -> Seq<ScreenChar> {
        self.chars@
    }
}

impl Buffer {
    /// A screen on which every cell is `fill`.
    pub fn new(fill: ScreenChar) -> (r: Self)
        ensures
            r@ == Seq::new(BUFFER_CELLS as nat, |i: int| fill),
    {
        let r = Buffer { chars: [fill; BUFFER_CELLS] };
        assert(r.chars@ =~= Seq::new(BUFFER_CELLS as nat, |i: int| fill));
        r
    }

    /// The cell at `row` and `col`.
    pub fn read(&self, row: usize, col: usize) -> (r: ScreenChar)
        requires
            row < BUFFER_HEIGHT,
            col < BUFFER_WIDTH,
        ensures
            r == cell(self@, row as int, col as int),
            self@.len() == BUFFER_CELLS,
    {
        self.chars[row * BUFFER_WIDTH + col]
    }

    /// Replaces the cell at `row` and `col`.
    pub fn write(&mut self, row: usize, col: usize, ch: ScreenChar)
        requires
            row < BUFFER_HEIGHT,
            col < BUFFER_WIDTH,
        ensures
            final(self)@ == with_cell(old(self)@, row as int, col as int, ch),
            final(self)@.len() == BUFFER_CELLS,
    {
        self.chars[row * BUFFER_WIDTH + col] = ch;
    }
}

/// What a writer holds, as plain values: the column of the next character,
/// the colours it writes in, and the screen row by row.
pub struct WriterState {
    pub column: int,
    pub color_code: ColorCode,
    pub screen: Seq<ScreenChar>,
}

impl WriterState {
    /// The state after a line ends: the screen moved up by one row, the
    /// next character in the first column.
    pub open spec fn new_line(self) -> WriterState {
        WriterState {
            column: 0,
            color_code: self.color_code,
            screen: scrolled(self.screen, self.color_code),
        }
    }

    /// The state after one byte. A line feed ends the line. Any other byte
    /// is put on the last row at the column of the writer, after a new line
    /// if the row is full, and the column moves on by one.
    pub open spec fn write_byte(self, byte: u8) -> WriterState {
        if byte == LINE_FEED {
            self.new_line()
        } else {
            let at = if self.column >= BUFFER_WIDTH {
                self.new_line()
            } else {
                self
            };
            WriterState {
                column: at.column + 1,
                color_code: at.color_code,
                screen: with_cell(
                    at.screen,
                    BUFFER_HEIGHT - 1,
                    at.column,
                    ScreenChar { ascii_character: byte, color_code: at.color_code },
                ),
            }
        }
    }

    /// The state after the bytes of a string, first to last, each shown as
    /// `shown` gives it.
    pub open spec fn write_string(self, bytes: Seq<u8>) -> WriterState
        decreases bytes.len(),
    {
        if bytes.len() == 0 {
            self
        } else {
            self.write_string(bytes.drop_last()).write_byte(shown(bytes.last()))
        }
    }
}

/// The byte that is written for a byte of a string: the byte itself if it is
/// a printable ASCII character or a line feed, else `UNPRINTABLE`.
pub open spec fn shown(byte: u8) -> u8 {
    if (0x20 <= byte <= 0x7e) || byte == LINE_FEED {
        byte
    } else {
        UNPRINTABLE
    }
}

/// Writes to the last row of the screen, and moves all rows up when that
/// row is full or a line ends.
pub struct Writer {
    column_position: usize,
    color_code: ColorCode,
    buffer: Buffer,
}

impl View for Writer {
    type V = WriterState;

    closed spec fn view(&self) -> WriterState {
        WriterState {
            column: self.column_position as int,
            color_code: self.color_code,
            screen: self.buffer@,
        }
    }
}

impl Writer {
    /// A writer in the given colours at the first column of a screen that
    /// shows nothing.
    pub fn new(color_code: ColorCode) -> (r: Self)
        ensures
            r@ == (WriterState {
                column: 0,
                color_code,
                screen: Seq::new(BUFFER_CELLS as nat, |i: int| blank(color_code)),
            }),
    {
        Writer {
            column_position: 0,
            color_code,
            buffer: Buffer::new(ScreenChar { ascii_character: SPACE, color_code }),
        }
    }

    /// The column at which the next character is written.
    pub fn column_position(&self) -> (r: usize)
        ensures
            r == self@.column,
    {
        self.column_position
    }

    /// The colours in which the writer writes.
    pub fn color_code(&self) -> (r: ColorCode)
        ensures
            r == self@.color_code,
    {
        self.color_code
    }

    /// The cell of the screen at `row` and `col`.
    pub fn read(&self, row: usize, col: usize) -> (r: ScreenChar)
        requires
            row < BUFFER_HEIGHT,
            col < BUFFER_WIDTH,
        ensures
            r == cell(self@.screen, row as int, col as int),
    {
        self.buffer.read(row, col)
    }

    /// Writes one byte: see `WriterState::write_byte`.
    pub fn write_byte(&mut self, byte: u8)
        ensures
            final(self)@ == old(self)@.write_byte(byte),
    {
        if byte == LINE_FEED {
            self.new_line();
        } else {
            if self.column_position >= BUFFER_WIDTH {
                self.new_line();
            }
            let row = BUFFER_HEIGHT - 1;
            let col = self.column_position;
            let color_code = self.color_code;
            self.buffer.write(row, col, ScreenChar { ascii_character: byte, color_code });
            self.column_position += 1;
        }
    }

    /// Ends the line: every row moves up by one, the first is lost, the
    /// last shows nothing, and the next character goes to the first column.
    pub fn new_line(&mut self)
        ensures
            final(self)@ == old(self)@.new_line(),
    {
        let ghost before = self.buffer@;
        let mut row: usize = 1;
        while row < BUFFER_HEIGHT
            invariant
                1 <= row <= BUFFER_HEIGHT,
                before.len() == BUFFER_CELLS,
                self.buffer@.len() == before.len(),
                self.column_position == old(self).column_position,
                self.color_code == old(self).color_code,
                forall|i: int|
                    0 <= i < (row - 1) * BUFFER_WIDTH ==> #[trigger] self.buffer@[i] == before[i
                        + BUFFER_WIDTH],
                forall|i: int|
                    (row - 1) * BUFFER_WIDTH <= i < before.len() ==> #[trigger] self.buffer@[i]
                        == before[i],
            decreases BUFFER_HEIGHT - row,
        {
            let mut col: usize = 0;
            while col < BUFFER_WIDTH
                invariant
                    1 <= row < BUFFER_HEIGHT,
                    col <= BUFFER_WIDTH,
                    before.len() == BUFFER_CELLS,
                    self.buffer@.len() == before.len(),
                    self.column_position == old(self).column_position,
                    self.color_code == old(self).color_code,
                    forall|i: int|
                        0 <= i < (row - 1) * BUFFER_WIDTH + col ==> #[trigger] self.buffer@[i]
                            == before[i + BUFFER_WIDTH],
                    forall|i: int|
                        (row - 1) * BUFFER_WIDTH + col <= i < before.len()
                            ==> #[trigger] self.buffer@[i] == before[i],
                decreases BUFFER_WIDTH - col,
            {
                let character = self.buffer.read(row, col);
                self.buffer.write(row - 1, col, character);
                col += 1;
            }
            row += 1;
        }
        self.clear_row(BUFFER_HEIGHT - 1);
        self.column_position = 0;
        proof {
            assert(self.buffer@ =~= scrolled(before, self.color_code));
        }
    }

    /// Makes the row `row` show nothing, in the colours of the writer.
    pub fn clear_row(&mut self, row: usize)
        requires
            row < BUFFER_HEIGHT,
        ensures
            final(self)@ == (WriterState {
                column: old(self)@.column,
                color_code: old(self)@.color_code,
                screen: with_blank_row(old(self)@.screen, row as int, old(self)@.color_code),
            }),
            final(self)@.screen.len() == BUFFER_CELLS,
            old(self)@.screen.len() == BUFFER_CELLS,
    {
        let blank = ScreenChar { ascii_character: SPACE, color_code: self.color_code };
        let ghost before = self.buffer@;
        let mut col: usize = 0;
        while col < BUFFER_WIDTH
            invariant
                row < BUFFER_HEIGHT,
                col <= BUFFER_WIDTH,
                before.len() == BUFFER_CELLS,
                self.buffer@.len() == before.len(),
                self.column_position == old(self).column_position,
                self.color_code == old(self).color_code,
                blank == (ScreenChar { ascii_character: SPACE, color_code: self.color_code }),
                forall|i: int|
                    row * BUFFER_WIDTH <= i < row * BUFFER_WIDTH + col
                        ==> #[trigger] self.buffer@[i] == blank,
                forall|i: int|
                    0 <= i < before.len() && !(row * BUFFER_WIDTH <= i < row * BUFFER_WIDTH + col)
                        ==> #[trigger] self.buffer@[i] == before[i],
            decreases BUFFER_WIDTH - col,
        {
            self.buffer.write(row, col, blank);
            col += 1;
        }
        proof {
            assert(self.buffer@ =~= with_blank_row(before, row as int, self.color_code));
        }
    }

    /// Writes a string byte by byte. Printable ASCII characters and line
    /// feeds are written as they are, every other byte as `UNPRINTABLE`.
    pub fn write_string(&mut self, str: &str)
        ensures
            final(self)@ == old(self)@.write_string(str.spec_bytes()),
    {
        let bytes = str.as_bytes();
        let mut i: usize = 0;
        while i < bytes.len()
            invariant
                i <= bytes@.len(),
                bytes@ == str.spec_bytes(),
                self@ == old(self)@.write_string(bytes@.take(i as int)),
            decreases bytes@.len() - i,
        {
            let byte = bytes[i];
            proof {
                assert(bytes@.take(i + 1).drop_last() =~= bytes@.take(i as int));
            }
            if (0x20 <= byte && byte <= 0x7e) || byte == LINE_FEED {
                self.write_byte(byte);
            } else {
                self.write_byte(UNPRINTABLE);
            }
            i += 1;
        }
        proof {
            assert(bytes@.take(i as int) =~= bytes@);
        }
    }
}

} // verus!
