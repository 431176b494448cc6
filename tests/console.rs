use serial_loader::console::{cursor_port_writes, Color, VgaChar, Writer, HEIGHT, SIZE, WIDTH};
use serial_loader::serial::PortWrite;

fn cleared() -> Writer {
    let mut w = Writer::get();
    w.clear_screen();
    w
}

fn glyph(i: usize) -> char {
    (b'a' + (i % 26) as u8) as char
}

#[test]
fn one_screen_and_five_more_scrolls_once() {
    let mut w = cleared();
    w.set_bg_color(Color::Blue);
    for i in 0..SIZE + 5 {
        w.put_char(glyph(i));
    }
    let last_row = WIDTH * (HEIGHT - 1);
    // Rows moved up by exactly one: the first row's content is gone.
    for row in 0..HEIGHT - 1 {
        for col in 0..WIDTH {
            let cell = w.cell(row * WIDTH + col);
            assert_eq!(cell.char, glyph((row + 1) * WIDTH + col) as u8);
        }
    }
    for col in 0..5 {
        assert_eq!(w.cell(last_row + col).char, glyph(SIZE + col) as u8);
    }
    for col in 5..WIDTH {
        assert_eq!(w.cell(last_row + col), VgaChar { char: 0, attrs: 0x17 });
    }
    assert_eq!(w.get_position(), last_row + 5);
    assert_eq!(w.cursor() as usize, last_row + 5);
}

#[test]
fn position_past_the_screen_is_rejected() {
    let mut w = cleared();
    assert_eq!(w.set_position(123), Ok(()));
    assert_eq!(w.set_position(SIZE), Err(SIZE));
    assert_eq!(w.get_position(), 123);
    assert_eq!(w.cursor(), 123);
    assert_eq!(w.set_position(SIZE - 1), Ok(()));
    assert_eq!(w.get_position(), SIZE - 1);
    assert_eq!(w.cursor() as usize, SIZE - 1);
}

#[test]
fn colors_set_their_own_nibble() {
    let mut w = cleared();
    assert_eq!(w.attrs(), 0x07);
    w.set_text_color(Color::LightRed);
    assert_eq!(w.attrs(), 0x0c);
    w.set_bg_color(Color::Green);
    assert_eq!(w.attrs(), 0x2c);
    w.set_text_color(Color::White);
    assert_eq!(w.attrs(), 0x2f);
    w.put_char('x');
    assert_eq!(w.cell(0), VgaChar { char: b'x', attrs: 0x2f });
}

#[test]
fn control_characters() {
    let mut w = cleared();
    w.put_char('a');
    w.put_char('\t');
    assert_eq!(w.get_position(), 1);
    w.put_char('\n');
    assert_eq!(w.get_position(), WIDTH);
    w.put_char('\0');
    assert_eq!(w.cell(WIDTH), VgaChar { char: 0, attrs: 0x07 });
    assert_eq!(w.get_position(), WIDTH + 1);
    w.put_char('é');
    assert_eq!(w.cell(WIDTH + 1).char, 0xfe);
    w.put_char('\u{7f}');
    assert_eq!(w.get_position(), WIDTH + 2);
    w.put_char('~');
    assert_eq!(w.cell(WIDTH + 2).char, b'~');
}

#[test]
fn newline_at_start_of_row_moves_a_whole_row() {
    let mut w = cleared();
    w.set_position(2 * WIDTH).unwrap();
    w.put_char('\n');
    assert_eq!(w.get_position(), 3 * WIDTH);
}

#[test]
fn newline_on_last_row_scrolls() {
    let mut w = cleared();
    w.set_position(WIDTH + 3).unwrap();
    w.put_char('q');
    w.set_position(SIZE - 10).unwrap();
    w.put_char('\n');
    assert_eq!(w.get_position(), SIZE - WIDTH);
    assert_eq!(w.cell(3).char, b'q');
    assert_eq!(w.cell(WIDTH + 3).char, 0);
}

#[test]
fn clear_screen_blanks_everything() {
    let mut w = Writer::get();
    w.set_bg_color(Color::Red);
    w.write_str("hello");
    w.clear_screen();
    assert_eq!(w.get_position(), 0);
    assert_eq!(w.attrs(), 0x07);
    for i in 0..SIZE {
        assert_eq!(w.cell(i), VgaChar { char: 0, attrs: 0x07 });
    }
}

#[test]
fn write_str_puts_each_char() {
    let mut w = cleared();
    w.write_str("hi\nyo");
    assert_eq!(w.cell(0).char, b'h');
    assert_eq!(w.cell(1).char, b'i');
    assert_eq!(w.cell(WIDTH).char, b'y');
    assert_eq!(w.cell(WIDTH + 1).char, b'o');
    assert_eq!(w.get_position(), WIDTH + 2);
}

#[test]
fn color_palette_indices() {
    assert_eq!(Color::try_from(15), Ok(Color::White));
    assert_eq!(Color::try_from(7), Ok(Color::LightGray));
    assert_eq!(Color::try_from(16), Err(16));
    assert_eq!(Color::Yellow.as_u8(), 14);
}

#[test]
fn cursor_register_writes() {
    let pw = |port: u16, value: u8| PortWrite { port, value };
    assert_eq!(
        cursor_port_writes(1925),
        vec![pw(0x3d4, 0x0f), pw(0x3d5, 0x85), pw(0x3d4, 0x0e), pw(0x3d5, 0x07)]
    );
}

#[test]
fn clear_screen_moves_cursor_home() {
    let mut w = Writer::get();
    w.set_position(500).unwrap();
    assert_eq!(w.cursor(), 500);
    w.clear_screen();
    assert_eq!(w.cursor(), 0);
    assert_eq!(w.get_position(), 0);
}

#[test]
fn newline_from_last_cell_scrolls_once() {
    let mut w = cleared();
    w.set_position(SIZE - 1).unwrap();
    w.put_char('z');
    assert_eq!(w.get_position(), SIZE - WIDTH);
    assert_eq!(w.cell(SIZE - WIDTH - 1).char, b'z');
}
