//! The text screen: 25 rows of 80 characters, each with a colour, and a
//! writer that puts bytes on it.
//!
//! The cells of the screen are volatile: the writer goes through
//! `volatile::Volatile` for every read and write of a cell.

use vstd::prelude::*;
use volatile::Volatile;
use vstd::string::StringSliceAdditionalSpecFns;

verus! {

pub const BUFFER_HEIGHT: usize = 25;

pub const BUFFER_WIDTH: usize = 80;

/// `volatile::Volatile`: a cell that is read and written by volatile
/// accesses only. Nothing of what is inside it is known here.
#[verifier::external_type_specification]
#[verifier::external_body]
#[verifier::reject_recursive_types(T)]
pub struct ExVolatile<T: Copy>(Volatile<T>);

/// The value that a volatile cell holds: what `Volatile::read` returns of it,
/// and what `Volatile::new` and `Volatile::write` put into it.
pub uninterp spec fn cell_value(cell: Volatile<ScreenChar>) -> ScreenChar;

/// `Volatile::new`: a cell that holds the value.
#[verifier::external_body]
fn cell_new(value: ScreenChar) -> (cell: Volatile<ScreenChar>)
    ensures
        cell_value(cell) == value,
{
    Volatile::new(value)
}

/// `Volatile::read`: the value that the cell holds.
#[verifier::external_body]
fn cell_read(cell: &Volatile<ScreenChar>) -> (value: ScreenChar)
    ensures
        value == cell_value(*cell),
{
    cell.read()
}

/// `Volatile::write`: afterwards the cell holds the value.
#[verifier::external_body]
fn cell_write(cell: &mut Volatile<ScreenChar>, value: ScreenChar)
    ensures
        cell_value(*final(cell)) == value,
{
    cell.write(value)
}

/// The colours of the text screen, in the order of their codes from 0 to 15.
#[derive(Debug, Clone, Copy, PartialEq, Eq, Structural)]
pub enum Color {
    Black,
    Blue,
    Green,
    Cyan,
    Red,
    Magenta,
    Brown,
    LightGray,
    DarkGray,
    LightBlue,
    LightGreen,
    LightCyan,
    LightRed,
    Pink,
    Yellow,
    White,
}

impl Color {
    pub open spec fn spec_code(self) -> u8 {
        match self {
            Color::Black => 0,
            Color::Blue => 1,
            Color::Green => 2,
            Color::Cyan => 3,
            Color::Red => 4,
            Color::Magenta => 5,
            Color::Brown => 6,
            Color::LightGray => 7,
            Color::DarkGray => 8,
            Color::LightBlue => 9,
            Color::LightGreen => 10,
            Color::LightCyan => 11,
            Color::LightRed => 12,
            Color::Pink => 13,
            Color::Yellow => 14,
            Color::White => 15,
        }
    }

    /// The code of the colour.
    #[verifier::when_used_as_spec(spec_code)]
    pub fn code(self) -> (code: u8)
        ensures
            code == self.code(),
            code < 16,
    {
        match self {
            Color::Black => 0,
            Color::Blue => 1,
            Color::Green => 2,
            Color::Cyan => 3,
            Color::Red => 4,
            Color::Magenta => 5,
            Color::Brown => 6,
            Color::LightGray => 7,
            Color::DarkGray => 8,
            Color::LightBlue => 9,
            Color::LightGreen => 10,
            Color::LightCyan => 11,
            Color::LightRed => 12,
            Color::Pink => 13,
            Color::Yellow => 14,
            Color::White => 15,
        }
    }
}

/// A foreground and a background colour in one byte: the background in the
/// upper four bits, the foreground in the lower four.
#[derive(Debug, Clone, Copy, PartialEq, Eq, Structural)]
pub struct ColorCode(pub u8);

impl ColorCode {
    pub fn new(foreground: Color, background: Color) -> (code: ColorCode)
        ensures
            code.0 == background.code() * 16 + foreground.code(),
    {
        let high: u8 = background.code();
        let low: u8 = foreground.code();
        assert((high << 4) | low == high * 16 + low) by (bit_vector)
            requires
                high < 16,
                low < 16,
        ;
        ColorCode((high << 4) | low)
    }
}

/// A character of the screen with its colours.
#[derive(Debug, Clone, Copy, PartialEq, Eq, Structural)]
pub struct ScreenChar {
    pub ascii_character: u8,
    pub color_code: ColorCode,
}

/// The cells of the screen, row by row.
pub struct Buffer {
    chars: Vec<Vec<Volatile<ScreenChar>>>,
}

impl Buffer {
    /// The cells are 25 rows of 80.
    pub closed spec fn wf(&self) -> bool {
        &&& self.chars@.len() == BUFFER_HEIGHT
        &&& forall|row: int| 0 <= row < BUFFER_HEIGHT ==> (#[trigger] self.chars@[row])@.len() == BUFFER_WIDTH
    }

    /// The character in the cell of the row and the column.
    pub closed spec fn at(&self, row: int, column: int) -> ScreenChar {
        cell_value(self.chars@[row]@[column])
    }

    /// What the cells show, row by row.
    pub closed spec fn shown(&self) -> Seq<Seq<ScreenChar>> {
        screen_of(*self)
    }

    /// What the cells show is 25 rows of 80 characters, each the character
    /// in its cell.
    pub proof fn lemma_shown(&self)
        ensures
            self.shown().len() == BUFFER_HEIGHT,
            forall|row: int|
                0 <= row < BUFFER_HEIGHT ==> (#[trigger] self.shown()[row]).len() == BUFFER_WIDTH,
            forall|row: int, column: int|
                0 <= row < BUFFER_HEIGHT && 0 <= column < BUFFER_WIDTH
                    ==> #[trigger] self.shown()[row][column] == self.at(row, column),
    {
    }

    /// A screen that shows `filler` in every cell.
    pub fn new(filler: ScreenChar) -> (buffer: Buffer)
        ensures
            buffer.wf(),
            forall|row: int, column: int|
                0 <= row < BUFFER_HEIGHT && 0 <= column < BUFFER_WIDTH ==> #[trigger] buffer.at(
                    row,
                    column,
                ) == filler,
    {
        let mut chars: Vec<Vec<Volatile<ScreenChar>>> = Vec::new();
        let mut row: usize = 0;
        while row < BUFFER_HEIGHT
            invariant
                row <= BUFFER_HEIGHT,
                chars@.len() == row,
                forall|r: int| 0 <= r < row ==> (#[trigger] chars@[r])@.len() == BUFFER_WIDTH,
                forall|r: int, c: int|
                    0 <= r < row && 0 <= c < BUFFER_WIDTH ==> cell_value(#[trigger] chars@[r]@[c])
                        == filler,
            decreases BUFFER_HEIGHT - row,
        {
            let mut cells: Vec<Volatile<ScreenChar>> = Vec::new();
            let mut column: usize = 0;
            while column < BUFFER_WIDTH
                invariant
                    column <= BUFFER_WIDTH,
                    cells@.len() == column,
                    forall|c: int| 0 <= c < column ==> cell_value(#[trigger] cells@[c]) == filler,
                decreases BUFFER_WIDTH - column,
            {
                cells.push(cell_new(filler));
                column += 1;
            }
            chars.push(cells);
            row += 1;
        }
        Buffer { chars }
    }

    /// Reads the cell of the row and the column.
    pub fn read(&self, row: usize, column: usize) -> (value: ScreenChar)
        requires
            self.wf(),
            row < BUFFER_HEIGHT,
            column < BUFFER_WIDTH,
        ensures
            value == self.at(row as int, column as int),
    {
        cell_read(&self.chars[row][column])
    }

    /// Writes the cell of the row and the column.
    pub fn write(&mut self, row: usize, column: usize, value: ScreenChar)
        requires
            old(self).wf(),
            row < BUFFER_HEIGHT,
            column < BUFFER_WIDTH,
        ensures
            final(self).wf(),
            forall|r: int, c: int|
                0 <= r < BUFFER_HEIGHT && 0 <= c < BUFFER_WIDTH ==> #[trigger] final(self).at(r, c) == (
                if r == row && c == column {
                    value
                } else {
                    old(self).at(r, c)
                }),
    {
        cell_write(&mut self.chars[row][column], value);
    }
}

/// The state of a writer as mathematics: where the next character goes,
/// in which colours, and what the screen shows.
pub struct WriterView {
    pub column: int,
    pub row: int,
    pub color_code: ColorCode,
    pub screen: Seq<Seq<ScreenChar>>,
}

impl WriterView {
    /// The screen has 25 rows of 80 characters, and the row of the writer is
    /// one of them.
    pub open spec fn wf(self) -> bool {
        &&& 0 <= self.row < BUFFER_HEIGHT
        &&& 0 <= self.column
        &&& self.screen.len() == BUFFER_HEIGHT
        &&& forall|row: int| 0 <= row < BUFFER_HEIGHT ==> (#[trigger] self.screen[row]).len() == BUFFER_WIDTH
    }

    /// A space in the colours of the writer.
    pub open spec fn blank(self) -> ScreenChar {
        ScreenChar { ascii_character: 0x20, color_code: self.color_code }
    }

    /// The state after the row was filled with blanks.
    pub open spec fn clear_row(self, row: int) -> WriterView {
        WriterView {
            screen: self.screen.update(row, Seq::new(BUFFER_WIDTH as nat, |c: int| self.blank())),
            ..self
        }
    }

    /// The state after a new line: every row moves up by one, the last row
    /// is blank, and the writer stands at the start of its row.
    pub open spec fn new_line(self) -> WriterView {
        WriterView {
            column: 0,
            screen: Seq::new(
                BUFFER_HEIGHT as nat,
                |r: int|
                    if r < BUFFER_HEIGHT - 1 {
                        self.screen[r + 1]
                    } else {
                        Seq::new(BUFFER_WIDTH as nat, |c: int| self.blank())
                    },
            ),
            ..self
        }
    }

    /// The state after the byte was put at the place of the writer, in a new
    /// line if the row is full. A line feed only makes a new line.
    pub open spec fn write_byte(self, byte: u8) -> WriterView {
        if byte == 0x0a {
            self.new_line()
        } else {
            let start = if self.column >= BUFFER_WIDTH {
                self.new_line()
            } else {
                self
            };
            WriterView {
                column: start.column + 1,
                screen: start.screen.update(
                    start.row,
                    start.screen[start.row].update(
                        start.column,
                        ScreenChar { ascii_character: byte, color_code: start.color_code },
                    ),
                ),
                ..start
            }
        }
    }

    /// The state after the bytes were written one after the other.
    pub open spec fn write_all(self, bytes: Seq<u8>) -> WriterView
        decreases bytes.len(),
    {
        if bytes.len() == 0 {
            self
        } else {
            self.write_all(bytes.drop_last()).write_byte(bytes.last())
        }
    }

    /// The state after the bytes were written `count` times.
    pub open spec fn write_times(self, bytes: Seq<u8>, count: nat) -> WriterView
        decreases count,
    {
        if count == 0 {
            self
        } else {
            self.write_times(bytes, (count - 1) as nat).write_all(bytes)
        }
    }

    /// The state after the writer went down one row, if it was not in the
    /// last one.
    pub open spec fn down_one_row(self) -> WriterView {
        WriterView {
            row: if self.row + 1 == BUFFER_HEIGHT {
                self.row
            } else {
                self.row + 1
            },
            ..self
        }
    }

    /// The state after the writer went `count` columns forward, at most to
    /// the last column.
    pub open spec fn cursor_forward(self, count: int) -> WriterView {
        WriterView {
            column: if self.column + count >= BUFFER_WIDTH {
                BUFFER_WIDTH - 1
            } else {
                self.column + count
            },
            ..self
        }
    }

    /// The state after the writer went `count` columns back, at most to the
    /// first column.
    pub open spec fn cursor_backward(self, count: int) -> WriterView {
        WriterView {
            column: if self.column < count {
                0
            } else {
                self.column - count
            },
            ..self
        }
    }
}

/// A screen of spaces in the given colours, with the writer at the given
/// place.
pub open spec fn fresh_screen(column: int, row: int, color_code: ColorCode) -> WriterView {
    WriterView {
        column,
        row,
        color_code,
        screen: Seq::new(
            BUFFER_HEIGHT as nat,
            |r: int|
                Seq::new(
                    BUFFER_WIDTH as nat,
                    |c: int| ScreenChar { ascii_character: 0x20, color_code },
                ),
        ),
    }
}

/// Puts bytes on the screen, from a place that moves on with every byte.
pub struct Writer {
    column_position: usize,
    row_position: usize,
    color_code: ColorCode,
    buffer: Buffer,
}

impl View for Writer {
    type V = WriterView;

    closed spec fn view(&self) -> WriterView {
        WriterView {
            column: self.column_position as int,
            row: self.row_position as int,
            color_code: self.color_code,
            screen: screen_of(self.buffer),
        }
    }
}

impl Writer {
    /// The screen of the writer has 25 rows of 80 cells, and the writer
    /// stands in one of the rows.
    pub closed spec fn wf(&self) -> bool {
        self.buffer.wf() && self.row_position < BUFFER_HEIGHT
    }

    /// A writer at the given place of a screen of spaces in the given
    /// colours.
    pub fn new(column_position: usize, row_position: usize, color_code: ColorCode) -> (writer: Writer)
        requires
            row_position < BUFFER_HEIGHT,
        ensures
            writer.wf(),
            writer@ == fresh_screen(column_position as int, row_position as int, color_code),
    {
        let blank = ScreenChar { ascii_character: 0x20, color_code };
        let writer = Writer {
            column_position,
            row_position,
            color_code,
            buffer: Buffer::new(blank),
        };
        proof {
            let goal = fresh_screen(column_position as int, row_position as int, color_code).screen;
            assert(writer@.screen =~= goal) by {
                assert forall|r: int| 0 <= r < BUFFER_HEIGHT implies #[trigger] writer@.screen[r]
                    =~= goal[r] by {}
            }
        }
        writer
    }

    /// A writer at the given place of the screen, which goes on showing
    /// what it showed.
    pub fn over(screen: Buffer, column_position: usize, row_position: usize, color_code: ColorCode) -> (writer:
        Writer)
        requires
            screen.wf(),
            row_position < BUFFER_HEIGHT,
        ensures
            writer.wf(),
            writer@ == (WriterView {
                column: column_position as int,
                row: row_position as int,
                color_code,
                screen: screen.shown(),
            }),
    {
        Writer { column_position, row_position, color_code, buffer: screen }
    }

    /// The screen of the writer, as the writer leaves it.
    pub fn into_screen(self) -> (screen: Buffer)
        requires
            self.wf(),
        ensures
            screen.wf(),
            screen.shown() == self@.screen,
    {
        self.buffer
    }

    /// The colours of the next character.
    pub fn color_code(&self) -> (color_code: ColorCode)
        ensures
            color_code == self@.color_code,
    {
        self.color_code
    }

    /// The column of the next character.
    pub fn column_position(&self) -> (column: usize)
        ensures
            column == self@.column,
    {
        self.column_position
    }

    /// The row of the next character.
    pub fn row_position(&self) -> (row: usize)
        ensures
            row == self@.row,
    {
        self.row_position
    }

    /// The character that the screen shows in the row and the column.
    pub fn char_at(&self, row: usize, column: usize) -> (value: ScreenChar)
        requires
            self.wf(),
            row < BUFFER_HEIGHT,
            column < BUFFER_WIDTH,
        ensures
            value == self@.screen[row as int][column as int],
    {
        self.buffer.read(row, column)
    }
}

impl Writer {
    /// Fills the row with spaces in the colours of the writer.
    pub fn clear_row(&mut self, row: usize)
        requires
            old(self).wf(),
            row < BUFFER_HEIGHT,
        ensures
            final(self)@ == old(self)@.clear_row(row as int),
            final(self).wf(),
    {
        let blank = ScreenChar { ascii_character: 0x20, color_code: self.color_code };
        let ghost before = old(self)@;
        let mut column: usize = 0;
        while column < BUFFER_WIDTH
            invariant
                column <= BUFFER_WIDTH,
                row < BUFFER_HEIGHT,
                self.wf(),
                self.column_position == old(self).column_position,
                self.row_position == old(self).row_position,
                self.color_code == old(self).color_code,
                blank == before.blank(),
                forall|r: int, c: int|
                    0 <= r < BUFFER_HEIGHT && 0 <= c < BUFFER_WIDTH ==> #[trigger] self.buffer.at(r, c) == (
                    if r == row && c < column {
                        blank
                    } else {
                        before.screen[r][c]
                    }),
            decreases BUFFER_WIDTH - column,
        {
            self.buffer.write(row, column, blank);
            column += 1;
        }
        proof {
            let after = screen_of(self.buffer);
            assert(after =~= before.clear_row(row as int).screen) by {
                assert forall|r: int| 0 <= r < BUFFER_HEIGHT implies #[trigger] after[r]
                    =~= before.clear_row(row as int).screen[r] by {}
            }
        }
    }

    /// Moves every row up by one, fills the last row with spaces, and puts
    /// the writer at the start of its row.
    pub fn new_line(&mut self)
        requires
            old(self).wf(),
        ensures
            final(self)@ == old(self)@.new_line(),
            final(self).wf(),
            final(self)@.wf(),
    {
        let ghost before = old(self)@;
        let mut row: usize = 1;
        while row < BUFFER_HEIGHT
            invariant
                1 <= row <= BUFFER_HEIGHT,
                self.wf(),
                self.column_position == old(self).column_position,
                self.row_position == old(self).row_position,
                self.color_code == old(self).color_code,
                before == old(self)@,
                forall|r: int, c: int|
                    0 <= r < BUFFER_HEIGHT && 0 <= c < BUFFER_WIDTH ==> #[trigger] self.buffer.at(r, c)
                        == (if r < row - 1 {
                        before.screen[r + 1][c]
                    } else {
                        before.screen[r][c]
                    }),
            decreases BUFFER_HEIGHT - row,
        {
            let mut column: usize = 0;
            while column < BUFFER_WIDTH
                invariant
                    1 <= row < BUFFER_HEIGHT,
                    column <= BUFFER_WIDTH,
                    self.wf(),
                    self.column_position == old(self).column_position,
                    self.row_position == old(self).row_position,
                    self.color_code == old(self).color_code,
                    before == old(self)@,
                    forall|r: int, c: int|
                        0 <= r < BUFFER_HEIGHT && 0 <= c < BUFFER_WIDTH ==> #[trigger] self.buffer.at(
                            r,
                            c,
                        ) == (if r < row - 1 || (r == row - 1 && c < column) {
                            before.screen[r + 1][c]
                        } else {
                            before.screen[r][c]
                        }),
                decreases BUFFER_WIDTH - column,
            {
                let character = self.buffer.read(row, column);
                self.buffer.write(row - 1, column, character);
                column += 1;
            }
            row += 1;
        }
        proof {
            let after = screen_of(self.buffer);
            let goal = Seq::new(
                BUFFER_HEIGHT as nat,
                |r: int|
                    if r < BUFFER_HEIGHT - 1 {
                        before.screen[r + 1]
                    } else {
                        before.screen[r]
                    },
            );
            assert(after =~= goal) by {
                assert forall|r: int| 0 <= r < BUFFER_HEIGHT implies #[trigger] after[r] =~= goal[r] by {}
            }
        }
        self.clear_row(BUFFER_HEIGHT - 1);
        self.column_position = 0;
        proof {
            assert(self@.screen =~= before.new_line().screen);
        }
    }

    /// Puts the byte on the screen at the place of the writer and moves the
    /// writer on by one column. A full row, or a line feed, makes a new line.
    pub fn write_byte(&mut self, byte: u8)
        requires
            old(self).wf(),
        ensures
            final(self)@ == old(self)@.write_byte(byte),
            final(self).wf(),
    {
        if byte == 0x0a {
            self.new_line();
        } else {
            if self.column_position >= BUFFER_WIDTH {
                self.new_line();
            }
            let ghost start = self@;
            let row = self.row_position;
            let col = self.column_position;
            let color_code = self.color_code;
            self.buffer.write(row, col, ScreenChar { ascii_character: byte, color_code });
            self.column_position += 1;
            proof {
                let after = self@.screen;
                let goal = old(self)@.write_byte(byte).screen;
                assert(after =~= goal) by {
                    assert forall|r: int| 0 <= r < BUFFER_HEIGHT implies #[trigger] after[r]
                        =~= goal[r] by {}
                }
            }
        }
    }

    /// Puts the bytes of the string on the screen, one after the other.
    pub fn write_string(&mut self, s: &str)
        requires
            old(self).wf(),
        ensures
            final(self)@ == old(self)@.write_all(s.spec_bytes()),
            final(self).wf(),
    {
        let bytes = s.as_bytes();
        let mut index: usize = 0;
        while index < bytes.len()
            invariant
                index <= bytes@.len(),
                bytes@ == s.spec_bytes(),
                self.wf(),
                self@ == old(self)@.write_all(bytes@.subrange(0, index as int)),
            decreases bytes@.len() - index,
        {
            proof {
                assert(bytes@.subrange(0, index as int + 1).drop_last() =~= bytes@.subrange(
                    0,
                    index as int,
                ));
            }
            self.write_byte(bytes[index]);
            index += 1;
        }
        proof {
            assert(bytes@.subrange(0, index as int) =~= bytes@);
        }
    }

    /// As `write_string`.
    pub fn write_str(&mut self, s: &str)
        requires
            old(self).wf(),
        ensures
            final(self)@ == old(self)@.write_all(s.spec_bytes()),
            final(self).wf(),
    {
        self.write_string(s);
    }

    /// Goes down one row, but not below the last one.
    pub fn down_one_row(&mut self)
        requires
            old(self).wf(),
        ensures
            final(self)@ == old(self)@.down_one_row(),
            final(self).wf(),
    {
        self.row_position += 1;
        if self.row_position == BUFFER_HEIGHT {
            self.row_position -= 1;
        }
    }

    /// Goes `pos` columns forward, at most to the last column.
    pub fn cursor_forward(&mut self, pos: usize)
        requires
            old(self).wf(),
            old(self)@.column + pos <= usize::MAX,
        ensures
            final(self)@ == old(self)@.cursor_forward(pos as int),
            final(self).wf(),
    {
        self.column_position += pos;
        if self.column_position >= BUFFER_WIDTH {
            self.column_position = BUFFER_WIDTH - 1;
        }
    }

    /// Goes `pos` columns back, at most to the first column.
    pub fn cursor_backward(&mut self, pos: usize)
        requires
            old(self).wf(),
        ensures
            final(self)@ == old(self)@.cursor_backward(pos as int),
            final(self).wf(),
    {
        if self.column_position < pos {
            self.column_position = 0;
        } else {
            self.column_position -= pos;
        }
    }

    /// Writes the string `n` times.
    pub fn repeat_n_times(&mut self, s: &str, n: usize)
        requires
            old(self).wf(),
        ensures
            final(self)@ == old(self)@.write_times(s.spec_bytes(), n as nat),
            final(self).wf(),
    {
        let mut count: usize = 0;
        while count < n
            invariant
                count <= n,
                self.wf(),
                self@ == old(self)@.write_times(s.spec_bytes(), count as nat),
            decreases n - count,
        {
            self.write_string(s);
            count += 1;
        }
    }
}

impl WriterView {
    /// The state after the bytes were put side by side in the row of the
    /// writer, from its column on, in its colours.
    pub open spec fn put(self, bytes: Seq<u8>) -> WriterView {
        WriterView {
            column: self.column + bytes.len(),
            screen: self.screen.update(
                self.row,
                Seq::new(
                    BUFFER_WIDTH as nat,
                    |c: int|
                        if self.column <= c < self.column + bytes.len() {
                            ScreenChar {
                                ascii_character: bytes[c - self.column],
                                color_code: self.color_code,
                            }
                        } else {
                            self.screen[self.row][c]
                        },
                ),
            ),
            ..self
        }
    }
}

/// Bytes without a line feed that fit in the rest of the row are put side by
/// side in the row: nothing else on the screen changes.
pub proof fn lemma_write_in_row(v: WriterView, bytes: Seq<u8>)
    requires
        v.wf(),
        v.column + bytes.len() <= BUFFER_WIDTH,
        forall|i: int| 0 <= i < bytes.len() ==> bytes[i] != 0x0a,
    ensures
        v.write_all(bytes) == v.put(bytes),
    decreases bytes.len(),
{
    let goal = v.put(bytes);
    if bytes.len() == 0 {
        assert(goal.screen =~= v.screen) by {
            assert forall|r: int| 0 <= r < BUFFER_HEIGHT implies #[trigger] goal.screen[r]
                =~= v.screen[r] by {}
        }
    } else {
        lemma_write_in_row(v, bytes.drop_last());
        let after = v.put(bytes.drop_last()).write_byte(bytes.last());
        assert(after.screen =~= goal.screen) by {
            assert forall|r: int| 0 <= r < BUFFER_HEIGHT implies #[trigger] after.screen[r]
                =~= goal.screen[r] by {}
        }
    }
}

/// A byte that is no line feed, written as often as fits in the rest of the
/// row, fills that many cells of the row: nothing else on the screen changes.
pub proof fn lemma_times_in_row(v: WriterView, sep: Seq<u8>, count: nat)
    requires
        v.wf(),
        sep.len() == 1,
        sep[0] != 0x0a,
        v.column + count <= BUFFER_WIDTH,
    ensures
        v.write_times(sep, count) == v.put(Seq::new(count, |i: int| sep[0])),
    decreases count,
{
    let goal = v.put(Seq::new(count, |i: int| sep[0]));
    if count == 0 {
        assert(goal.screen =~= v.screen) by {
            assert forall|r: int| 0 <= r < BUFFER_HEIGHT implies #[trigger] goal.screen[r]
                =~= v.screen[r] by {}
        }
    } else {
        lemma_times_in_row(v, sep, (count - 1) as nat);
        let before = v.put(Seq::new((count - 1) as nat, |i: int| sep[0]));
        lemma_write_in_row(before, sep);
        let after = before.put(sep);
        assert(after.screen =~= goal.screen) by {
            assert forall|r: int| 0 <= r < BUFFER_HEIGHT implies #[trigger] after.screen[r]
                =~= goal.screen[r] by {}
        }
    }
}

/// The bytes of the line of a banner: the text between two asterisks, with
/// a space on each side.
pub open spec fn banner(text: Seq<u8>) -> Seq<u8> {
    seq![0x2au8, 0x20u8] + text + seq![0x20u8, 0x2au8]
}

/// The screen with the banner of the text in its middle, in yellow on blue:
/// in the rows 11 to 13, from the column that centres it, a line of
/// asterisks, the line of the banner, and a line of asterisks. Every other
/// cell shows what it showed.
pub open spec fn centered(screen: Seq<Seq<ScreenChar>>, text: Seq<u8>) -> Seq<Seq<ScreenChar>> {
    let len = text.len() + 4;
    let start = 40 - len / 2;
    Seq::new(
        BUFFER_HEIGHT as nat,
        |r: int|
            Seq::new(
                BUFFER_WIDTH as nat,
                |c: int|
                    if 11 <= r <= 13 && start <= c < start + len {
                        ScreenChar {
                            ascii_character: if r == 12 {
                                banner(text)[c - start]
                            } else {
                                0x2a
                            },
                            color_code: ColorCode(0x1e),
                        }
                    } else {
                        screen[r][c]
                    },
            ),
    )
}

impl WriterView {
    /// The state after a line of `len` separators was written and the
    /// writer went to the start of the line below it.
    pub open spec fn separator(self, sep: Seq<u8>, len: nat) -> WriterView {
        self.write_times(sep, len).down_one_row().cursor_backward(len as int)
    }

    /// The state after the text was written between two separators, with a
    /// space on each side, and the writer went to the start of the line
    /// below it.
    pub open spec fn framed(self, text: Seq<u8>, len: nat, sep: Seq<u8>) -> WriterView {
        self.write_all(sep).write_all(" ".spec_bytes()).write_all(text).write_all(
            " ".spec_bytes(),
        ).write_all(sep).down_one_row().cursor_backward(len as int)
    }
}

/// Writes the string between two separators, with a space on each side,
/// and goes to the start of the line below.
pub fn write_string_in_separator(writer: &mut Writer, s: &str, s_len: usize, sep: &str)
    requires
        old(writer).wf(),
    ensures
        final(writer).wf(),
        final(writer)@ == old(writer)@.framed(s.spec_bytes(), s_len as nat, sep.spec_bytes()),
{
    writer.write_str(sep);
    writer.write_str(" ");
    writer.write_str(s);
    writer.write_str(" ");
    writer.write_str(sep);
    writer.down_one_row();
    writer.cursor_backward(s_len);
}

/// Writes a line of `len` separators and goes to the start of the line
/// below.
pub fn write_separator(writer: &mut Writer, sep: &str, len: usize)
    requires
        old(writer).wf(),
    ensures
        final(writer).wf(),
        final(writer)@ == old(writer)@.separator(sep.spec_bytes(), len as nat),
{
    writer.repeat_n_times(sep, len);
    writer.down_one_row();
    writer.cursor_backward(len);
}

/// Puts the string in the middle of the screen, in yellow on blue, in a
/// frame of asterisks, and returns the writer that did it, which stands
/// below the frame. Where the string holds no line feed, the rest of the
/// screen shows what it showed.
pub fn print_centered(screen: Buffer, s: &str) -> (writer: Writer)
    requires
        screen.wf(),
        s.spec_bytes().len() <= 76,
    ensures
        writer.wf(),
        writer@ == (WriterView {
            column: 40 - (s.spec_bytes().len() + 4) / 2,
            row: 11,
            color_code: ColorCode(0x1e),
            screen: screen.shown(),
        }).separator("*".spec_bytes(), (s.spec_bytes().len() + 4) as nat).framed(
            s.spec_bytes(),
            (s.spec_bytes().len() + 4) as nat,
            "*".spec_bytes(),
        ).separator("*".spec_bytes(), (s.spec_bytes().len() + 4) as nat),
        !s.spec_bytes().contains(0x0a) ==> writer@ == (WriterView {
            column: 40 - (s.spec_bytes().len() + 4) / 2,
            row: 14,
            color_code: ColorCode(0x1e),
            screen: centered(screen.shown(), s.spec_bytes()),
        }),
{
    let len = s.len() + 4;
    let mut writer = Writer::over(
        screen,
        40 - (len / 2),
        11,
        ColorCode::new(Color::Yellow, Color::Blue),
    );
    let ghost start = writer@;
    let sep = "*";
    write_separator(&mut writer, sep, len);
    write_string_in_separator(&mut writer, s, len, sep);
    write_separator(&mut writer, sep, len);
    proof {
        screen.lemma_shown();
        if !s.spec_bytes().contains(0x0a) {
            reveal_strlit("*");
            reveal_strlit(" ");
            vstd::string::is_ascii_spec_bytes("*");
            vstd::string::is_ascii_spec_bytes(" ");
            assert("*".spec_bytes() =~= seq![0x2au8]);
            assert(" ".spec_bytes() =~= seq![0x20u8]);
            lemma_centered(start, s.spec_bytes(), sep.spec_bytes());
        }
    }
    writer
}

/// What the three lines of a banner make of a screen, written from row 11
/// and from the column that centres them.
proof fn lemma_centered(v: WriterView, text: Seq<u8>, star: Seq<u8>)
    requires
        v.wf(),
        v.row == 11,
        v.column == 40 - (text.len() + 4) / 2,
        v.color_code == ColorCode(0x1e),
        text.len() <= 76,
        !text.contains(0x0a),
        star == seq![0x2au8],
        " ".spec_bytes() == seq![0x20u8],
    ensures
        v.separator(star, (text.len() + 4) as nat).framed(
            text,
            (text.len() + 4) as nat,
            star,
        ).separator(star, (text.len() + 4) as nat) == (WriterView {
            column: v.column,
            row: 14,
            color_code: v.color_code,
            screen: centered(v.screen, text),
        }),
{
    let len = (text.len() + 4) as nat;
    let stars = Seq::new(len, |i: int| star[0]);
    let space = " ".spec_bytes();
    lemma_times_in_row(v, star, len);
    let a1 = v.put(stars);
    let a = a1.down_one_row().cursor_backward(len as int);
    assert(a == v.separator(star, len));
    lemma_write_in_row(a, star);
    let b1 = a.put(star);
    lemma_write_in_row(b1, space);
    let b2 = b1.put(space);
    assert forall|i: int| 0 <= i < text.len() implies text[i] != 0x0a by {
        if text[i] == 0x0a {
            assert(text.contains(0x0a));
        }
    }
    lemma_write_in_row(b2, text);
    let b3 = b2.put(text);
    lemma_write_in_row(b3, space);
    let b4 = b3.put(space);
    lemma_write_in_row(b4, star);
    let b5 = b4.put(star);
    let b = b5.down_one_row().cursor_backward(len as int);
    assert(b == a.framed(text, len, star));
    lemma_times_in_row(b, star, len);
    let c1 = b.put(stars);
    let c = c1.down_one_row().cursor_backward(len as int);
    assert(c == b.separator(star, len));
    let goal = centered(v.screen, text);
    assert(c.screen =~= goal) by {
        assert forall|r: int| 0 <= r < BUFFER_HEIGHT implies #[trigger] c.screen[r] =~= goal[r] by {}
    }
}

/// Clears the screen: as many new lines as the screen has rows.
pub fn clear_screen(writer: &mut Writer)
    requires
        old(writer).wf(),
    ensures
        final(writer).wf(),
        final(writer)@.column == 0,
        final(writer)@.row == old(writer)@.row,
        final(writer)@.color_code == old(writer)@.color_code,
        forall|row: int, column: int|
            0 <= row < BUFFER_HEIGHT && 0 <= column < BUFFER_WIDTH
                ==> #[trigger] final(writer)@.screen[row][column] == old(writer)@.blank(),
{
    let mut count: usize = 0;
    while count < BUFFER_HEIGHT
        invariant
            count <= BUFFER_HEIGHT,
            writer.wf(),
            writer@.wf(),
            writer@.row == old(writer)@.row,
            writer@.color_code == old(writer)@.color_code,
            count > 0 ==> writer@.column == 0,
            forall|row: int, column: int|
                BUFFER_HEIGHT - count <= row < BUFFER_HEIGHT && 0 <= column < BUFFER_WIDTH
                    ==> #[trigger] writer@.screen[row][column] == old(writer)@.blank(),
        decreases BUFFER_HEIGHT - count,
    {
        writer.new_line();
        count += 1;
    }
}

/// What the cells of the screen show, row by row.
spec fn screen_of(buffer: Buffer) -> Seq<Seq<ScreenChar>> {
    Seq::new(BUFFER_HEIGHT as nat, |r: int| Seq::new(BUFFER_WIDTH as nat, |c: int| buffer.at(r, c)))
}

} // verus!
