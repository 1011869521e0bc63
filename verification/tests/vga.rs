use mooos::vga_buffer::{Color, ColorCode, Writer, BUFFER_HEIGHT, BUFFER_WIDTH};

fn bottom_row(w: &Writer, len: usize) -> Vec<u8> {
    w.buffer.chars[BUFFER_HEIGHT - 1][..len]
        .iter()
        .map(|sc| sc.ascii_character)
        .collect()
}

#[test]
fn color_code_packs_background_high() {
    assert_eq!(ColorCode::new(Color::Yellow, Color::Black).0, 14);
    assert_eq!(ColorCode::new(Color::White, Color::Blue).0, 16 + 15);
    assert_eq!(ColorCode::new(Color::Black, Color::White).0, 15 * 16);
    assert_eq!(ColorCode::new(Color::Cyan, Color::Pink).0, 13 * 16 + 3);
}

#[test]
fn new_writer_is_blank() {
    let code = ColorCode::new(Color::Yellow, Color::Black);
    let w = Writer::new(code);
    assert_eq!(w.column_position, 0);
    assert_eq!(w.buffer.chars.len(), BUFFER_HEIGHT);
    for row in &w.buffer.chars {
        assert_eq!(row.len(), BUFFER_WIDTH);
        for sc in row {
            assert_eq!(sc.ascii_character, 0x20);
            assert_eq!(sc.color_code, code);
        }
    }
}

#[test]
fn write_byte_lands_on_bottom_row() {
    let code = ColorCode::new(Color::Yellow, Color::Black);
    let mut w = Writer::new(code);
    w.write_byte(b'H');
    assert_eq!(w.column_position, 1);
    let sc = w.buffer.chars[BUFFER_HEIGHT - 1][0];
    assert_eq!(sc.ascii_character, b'H');
    assert_eq!(sc.color_code, code);
    // other rows stay blank
    assert_eq!(w.buffer.chars[0][0].ascii_character, 0x20);
}

#[test]
fn newline_changes_nothing() {
    let code = ColorCode::new(Color::Yellow, Color::Black);
    let mut w = Writer::new(code);
    w.write_byte(b'a');
    w.write_byte(b'\n');
    assert_eq!(w.column_position, 1);
    assert_eq!(bottom_row(&w, 2), vec![b'a', 0x20]);
}

#[test]
fn write_string_replaces_unprintable_bytes() {
    let code = ColorCode::new(Color::Yellow, Color::Black);
    let mut w = Writer::new(code);
    w.write_byte(b'H');
    w.write_string("ello ");
    w.write_string("W\u{f6}rld!");
    // the two UTF-8 bytes of the non-ASCII character each print as 0xfe
    let mut expected = b"Hello W".to_vec();
    expected.push(0xfe);
    expected.push(0xfe);
    expected.extend_from_slice(b"rld!");
    assert_eq!(bottom_row(&w, expected.len()), expected);
    assert_eq!(w.column_position, expected.len());
}

#[test]
fn write_string_with_newlines() {
    let code = ColorCode::new(Color::Green, Color::Black);
    let mut w = Writer::new(code);
    w.write_string("ab\ncd");
    // the newline itself prints nothing and keeps the column
    assert_eq!(bottom_row(&w, 4), vec![b'a', b'b', b'c', b'd']);
    assert_eq!(w.column_position, 4);
}

#[test]
fn control_byte_prints_replacement() {
    let code = ColorCode::new(Color::Red, Color::Black);
    let mut w = Writer::new(code);
    w.write_string("\u{1}");
    assert_eq!(bottom_row(&w, 1), vec![0xfe]);
}
