use rust_os::vga_buffer::{Color, ColorCode, ScreenChar, Writer, BUFFER_HEIGHT, BUFFER_WIDTH};

fn yellow_writer() -> Writer {
    Writer::new(ColorCode::new(Color::Yellow, Color::Black))
}

fn bottom_row(w: &Writer) -> Vec<u8> {
    (0..BUFFER_WIDTH).map(|c| w.char_at(BUFFER_HEIGHT - 1, c).ascii_character).collect()
}

#[test]
fn color_code_puts_background_high() {
    assert_eq!(ColorCode::new(Color::Yellow, Color::Black), ColorCode(0x0e));
    assert_eq!(ColorCode::new(Color::White, Color::Blue), ColorCode(0x1f));
    assert_eq!(Color::LightRed.code(), 12);
}

#[test]
fn bytes_go_to_bottom_row() {
    let mut w = yellow_writer();
    w.write_byte(b'H');
    w.write_string("ello");
    assert_eq!(&bottom_row(&w)[..6], b"Hello ");
    assert_eq!(w.column_position(), 5);
    assert_eq!(
        w.char_at(BUFFER_HEIGHT - 1, 0),
        ScreenChar { ascii_character: b'H', color_code: ColorCode(0x0e) }
    );
}

#[test]
fn newline_scrolls_up() {
    let mut w = yellow_writer();
    w.write_string("ab\ncd");
    assert_eq!(w.char_at(BUFFER_HEIGHT - 2, 0).ascii_character, b'a');
    assert_eq!(w.char_at(BUFFER_HEIGHT - 2, 1).ascii_character, b'b');
    assert_eq!(&bottom_row(&w)[..3], b"cd ");
    assert_eq!(w.column_position(), 2);
}

#[test]
fn full_row_wraps_to_new_line() {
    let mut w = yellow_writer();
    let line: String = std::iter::repeat('x').take(BUFFER_WIDTH).collect();
    w.write_string(&line);
    assert_eq!(w.column_position(), BUFFER_WIDTH);
    w.write_byte(b'y');
    assert_eq!(w.column_position(), 1);
    assert_eq!(w.char_at(BUFFER_HEIGHT - 2, BUFFER_WIDTH - 1).ascii_character, b'x');
    assert_eq!(w.char_at(BUFFER_HEIGHT - 1, 0).ascii_character, b'y');
    assert_eq!(w.char_at(BUFFER_HEIGHT - 1, 1).ascii_character, b' ');
}

#[test]
fn unprintable_bytes_are_replaced() {
    let mut w = yellow_writer();
    w.write_string("a\u{e4}\tb");
    assert_eq!(&bottom_row(&w)[..5], &[b'a', 0xfe, 0xfe, 0xfe, b'b']);
}

#[test]
fn top_row_leaves_the_screen() {
    let mut w = yellow_writer();
    w.write_string("top");
    for _ in 0..BUFFER_HEIGHT {
        w.write_byte(b'\n');
    }
    for row in 0..BUFFER_HEIGHT {
        for col in 0..BUFFER_WIDTH {
            assert_eq!(w.char_at(row, col).ascii_character, b' ');
        }
    }
}
