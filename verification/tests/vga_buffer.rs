use degrados::vga_buffer::{
    clear_screen, print_centered, write_separator, write_string_in_separator, Buffer, Color,
    ColorCode, ScreenChar, Writer, BUFFER_HEIGHT, BUFFER_WIDTH,
};

fn row_text(writer: &Writer, row: usize) -> String {
    (0..BUFFER_WIDTH).map(|column| writer.char_at(row, column).ascii_character as char).collect()
}

#[test]
fn color_codes() {
    assert_eq!(Color::Black.code(), 0);
    assert_eq!(Color::LightGreen.code(), 10);
    assert_eq!(Color::White.code(), 15);
    assert_eq!(ColorCode::new(Color::Yellow, Color::Blue), ColorCode(0x1e));
    assert_eq!(ColorCode::new(Color::LightGreen, Color::Black), ColorCode(0x0a));
    assert_eq!(ColorCode::new(Color::White, Color::White), ColorCode(0xff));
}

#[test]
fn buffer_cells_hold_what_was_written() {
    let blank = ScreenChar { ascii_character: b' ', color_code: ColorCode(7) };
    let mut buffer = Buffer::new(blank);
    assert_eq!(buffer.read(24, 79), blank);
    let x = ScreenChar { ascii_character: b'x', color_code: ColorCode(0x1e) };
    buffer.write(3, 4, x);
    assert_eq!(buffer.read(3, 4), x);
    assert_eq!(buffer.read(3, 5), blank);
    assert_eq!(buffer.read(4, 4), blank);
}

#[test]
fn write_byte_puts_the_byte_and_moves_on() {
    let color = ColorCode::new(Color::Yellow, Color::Blue);
    let mut writer = Writer::new(15, 12, color);
    writer.write_byte(b'H');
    writer.write_byte(b'y');
    assert_eq!(writer.char_at(12, 15), ScreenChar { ascii_character: b'H', color_code: color });
    assert_eq!(writer.char_at(12, 16), ScreenChar { ascii_character: b'y', color_code: color });
    assert_eq!(writer.char_at(12, 17), ScreenChar { ascii_character: b' ', color_code: color });
    assert_eq!(writer.column_position(), 17);
    assert_eq!(writer.row_position(), 12);
}

#[test]
fn a_line_feed_moves_the_rows_up() {
    let mut writer = Writer::new(0, 24, ColorCode(0x0a));
    writer.write_string("first\nsecond");
    assert_eq!(row_text(&writer, 23).trim_end(), "first");
    assert_eq!(row_text(&writer, 24).trim_end(), "second");
    assert_eq!(writer.column_position(), 6);
    writer.new_line();
    assert_eq!(row_text(&writer, 22).trim_end(), "first");
    assert_eq!(row_text(&writer, 23).trim_end(), "second");
    assert_eq!(row_text(&writer, 24).trim_end(), "");
    assert_eq!(writer.column_position(), 0);
    assert_eq!(writer.row_position(), 24);
}

#[test]
fn a_full_row_makes_a_new_line() {
    let mut writer = Writer::new(78, 24, ColorCode(0x0a));
    writer.write_str("abc");
    assert_eq!(&row_text(&writer, 23)[78..], "ab");
    assert_eq!(row_text(&writer, 24).trim_end(), "c");
    assert_eq!(writer.column_position(), 1);
}

#[test]
fn the_cursor_stays_on_the_screen() {
    let mut writer = Writer::new(10, 23, ColorCode(0x0a));
    writer.down_one_row();
    assert_eq!(writer.row_position(), 24);
    writer.down_one_row();
    assert_eq!(writer.row_position(), 24);
    writer.cursor_forward(5);
    assert_eq!(writer.column_position(), 15);
    writer.cursor_forward(100);
    assert_eq!(writer.column_position(), 79);
    writer.cursor_backward(9);
    assert_eq!(writer.column_position(), 70);
    writer.cursor_backward(71);
    assert_eq!(writer.column_position(), 0);
}

#[test]
fn rows_are_cleared_with_spaces_in_the_colours_of_the_writer() {
    let color = ColorCode(0x2f);
    let mut writer = Writer::new(0, 5, color);
    writer.repeat_n_times("ab", 3);
    assert_eq!(row_text(&writer, 5).trim_end(), "ababab");
    writer.clear_row(5);
    assert_eq!(row_text(&writer, 5).trim_end(), "");
    assert_eq!(writer.char_at(5, 0), ScreenChar { ascii_character: b' ', color_code: color });
    writer.write_string("x");
    writer.down_one_row();
    writer.write_string("y");
    clear_screen(&mut writer);
    for row in 0..BUFFER_HEIGHT {
        assert_eq!(row_text(&writer, row).trim_end(), "");
    }
    assert_eq!(writer.column_position(), 0);
    assert_eq!(writer.row_position(), 6);
}

#[test]
fn separators_frame_a_string() {
    let mut writer = Writer::new(3, 2, ColorCode(0x0a));
    write_separator(&mut writer, "*", 6);
    assert_eq!(row_text(&writer, 2).trim_end(), "   ******");
    assert_eq!(writer.row_position(), 3);
    assert_eq!(writer.column_position(), 3);
    write_string_in_separator(&mut writer, "hi", 6, "*");
    assert_eq!(row_text(&writer, 3).trim_end(), "   * hi *");
    assert_eq!(writer.row_position(), 4);
    assert_eq!(writer.column_position(), 3);
}

#[test]
fn print_centered_puts_the_string_in_the_middle() {
    let blank = ScreenChar { ascii_character: b' ', color_code: ColorCode(0x1e) };
    let writer = print_centered(Buffer::new(blank), "DegradOS");
    assert_eq!(row_text(&writer, 10).trim_end(), "");
    assert_eq!(row_text(&writer, 11), format!("{:34}{:46}", "", "************"));
    assert_eq!(row_text(&writer, 12), format!("{:34}{:46}", "", "* DegradOS *"));
    assert_eq!(row_text(&writer, 13), format!("{:34}{:46}", "", "************"));
    assert_eq!(writer.char_at(12, 36).color_code, ColorCode(0x1e));
    assert_eq!(writer.row_position(), 14);
    assert_eq!(writer.column_position(), 34);
}

#[test]
fn print_centered_leaves_the_rest_of_the_screen() {
    // a screen that shows a different character in every cell
    let mut screen = Buffer::new(ScreenChar { ascii_character: 0, color_code: ColorCode(0) });
    let shown = |row: usize, column: usize| ScreenChar {
        ascii_character: (row * 7 + column) as u8,
        color_code: ColorCode((row + column * 3) as u8),
    };
    for row in 0..BUFFER_HEIGHT {
        for column in 0..BUFFER_WIDTH {
            screen.write(row, column, shown(row, column));
        }
    }
    let writer = print_centered(screen, "DegradOS");
    let star = ScreenChar { ascii_character: b'*', color_code: ColorCode(0x1e) };
    for row in 0..BUFFER_HEIGHT {
        for column in 0..BUFFER_WIDTH {
            let expected = if (11..=13).contains(&row) && (34..46).contains(&column) {
                if row == 12 {
                    ScreenChar {
                        ascii_character: b"* DegradOS *"[column - 34],
                        color_code: ColorCode(0x1e),
                    }
                } else {
                    star
                }
            } else {
                shown(row, column)
            };
            assert_eq!(writer.char_at(row, column), expected, "row {} column {}", row, column);
        }
    }
    assert_eq!(writer.color_code(), ColorCode(0x1e));
}

#[test]
fn writer_over_a_screen_goes_on_from_what_it_shows() {
    let mut first = Writer::new(0, 3, ColorCode(0x0a));
    first.write_str("ab");
    let mut second = Writer::over(first.into_screen(), 5, 3, ColorCode(0x1e));
    second.write_byte(b'c');
    assert_eq!(row_text(&second, 3).trim_end(), "ab   c");
    assert_eq!(second.char_at(3, 0).color_code, ColorCode(0x0a));
    assert_eq!(second.char_at(3, 5).color_code, ColorCode(0x1e));
    let screen = second.into_screen();
    assert_eq!(screen.read(3, 1).ascii_character, b'b');
}
