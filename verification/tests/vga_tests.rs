use os_626::vga::{Color, ColorCode, Writer, BUFFER_HEIGHT, BUFFER_WIDTH};

#[test]
fn color_code_packs_background_high_foreground_low() {
    assert_eq!(ColorCode::new(Color::Yellow, Color::Black).0, 14);
    assert_eq!(ColorCode::new(Color::White, Color::Blue).0, 16 + 15);
    assert_eq!(ColorCode::new(Color::Black, Color::White).0, 15 * 16);
    assert_eq!(ColorCode::new(Color::LightCyan, Color::Red).0, 4 * 16 + 11);
}

#[test]
fn new_writer_is_blank() {
    let w = Writer::new(ColorCode::new(Color::Yellow, Color::Black));
    assert_eq!(w.buffer.len(), BUFFER_HEIGHT);
    for row in &w.buffer {
        assert_eq!(row.len(), BUFFER_WIDTH);
        for cell in row {
            assert_eq!(cell.ascii_character, b' ');
        }
    }
    assert_eq!(w.column_position, 0);
}

#[test]
fn write_string_fills_the_last_row() {
    let code = ColorCode::new(Color::Yellow, Color::Black);
    let mut w = Writer::new(code);
    w.write_string("Hello");
    let row = &w.buffer[BUFFER_HEIGHT - 1];
    for (i, b) in b"Hello".iter().enumerate() {
        assert_eq!(row[i].ascii_character, *b);
        assert_eq!(row[i].color_code, code);
    }
    assert_eq!(row[5].ascii_character, b' ');
    assert_eq!(w.column_position, 5);
}

#[test]
fn newline_scrolls_rows_up() {
    let code = ColorCode::new(Color::Yellow, Color::Black);
    let mut w = Writer::new(code);
    w.write_string("ab\n");
    let above = &w.buffer[BUFFER_HEIGHT - 2];
    assert_eq!(above[0].ascii_character, b'a');
    assert_eq!(above[1].ascii_character, b'b');
    let last = &w.buffer[BUFFER_HEIGHT - 1];
    for cell in last {
        assert_eq!(cell.ascii_character, b' ');
    }
    assert_eq!(w.column_position, 0);
}

#[test]
fn full_row_wraps_to_a_fresh_line() {
    let code = ColorCode::new(Color::Yellow, Color::Black);
    let mut w = Writer::new(code);
    let long = "x".repeat(80);
    w.write_string(&long);
    assert_eq!(w.column_position, 80);
    w.write_string("y");
    assert_eq!(w.column_position, 1);
    assert_eq!(w.buffer[BUFFER_HEIGHT - 1][0].ascii_character, b'y');
    for cell in &w.buffer[BUFFER_HEIGHT - 2] {
        assert_eq!(cell.ascii_character, b'x');
    }
}

#[test]
fn unprintable_bytes_show_as_blocks() {
    let code = ColorCode::new(Color::Yellow, Color::Black);
    let mut w = Writer::new(code);
    w.write_string("\u{1}");
    assert_eq!(w.buffer[BUFFER_HEIGHT - 1][0].ascii_character, 0xfe);
    // A two-byte character shows as one block per byte.
    let mut w2 = Writer::new(code);
    w2.write_string("é");
    assert_eq!(w2.buffer[BUFFER_HEIGHT - 1][0].ascii_character, 0xfe);
    assert_eq!(w2.buffer[BUFFER_HEIGHT - 1][1].ascii_character, 0xfe);
    assert_eq!(w2.column_position, 2);
}

#[test]
fn line_ended_output_lands_one_row_up() {
    let code = ColorCode::new(Color::Yellow, Color::Black);
    let mut w = Writer::new(code);
    let s = "Some test string that fits on a single line";
    w.write_string("\n");
    w.write_string(s);
    w.write_string("\n");
    for (i, c) in s.bytes().enumerate() {
        let cell = w.buffer[BUFFER_HEIGHT - 2][i];
        assert_eq!(cell.ascii_character, c);
    }
}

#[test]
fn write_byte_places_one_cell() {
    let code = ColorCode::new(Color::LightGreen, Color::Black);
    let mut w = Writer::new(code);
    w.write_byte(b'H');
    w.write_byte(b'i');
    let row = &w.buffer[BUFFER_HEIGHT - 1];
    assert_eq!(row[0].ascii_character, b'H');
    assert_eq!(row[1].ascii_character, b'i');
    assert_eq!(w.column_position, 2);
}
