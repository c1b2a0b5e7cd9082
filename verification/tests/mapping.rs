use wordcomplete::position::{offset_of, Position};

fn pos(line: usize, character: usize) -> Position {
    Position { line, character }
}

#[test]
fn offset_within_second_line() {
    let text = b"ab\ncd".to_vec();
    assert_eq!(offset_of(&text, pos(1, 1)), 4);
}

#[test]
fn offset_line_starts() {
    let text = b"ab\ncd".to_vec();
    assert_eq!(offset_of(&text, pos(0, 0)), 0);
    assert_eq!(offset_of(&text, pos(0, 2)), 2);
    assert_eq!(offset_of(&text, pos(1, 0)), 3);
    assert_eq!(offset_of(&text, pos(1, 2)), 5);
}

#[test]
fn offset_clamps_column_past_line_end() {
    let text = b"abc".to_vec();
    assert_eq!(offset_of(&text, pos(0, 99)), 3);
}

#[test]
fn offset_clamps_line_past_buffer_end() {
    let text = b"abc".to_vec();
    assert_eq!(offset_of(&text, pos(5, 0)), 3);
    assert_eq!(offset_of(&text, pos(1, 0)), 3);
    assert_eq!(offset_of(&text, pos(7, 12)), 3);
}

#[test]
fn offset_on_empty_buffer() {
    let text: Vec<u8> = Vec::new();
    assert_eq!(offset_of(&text, pos(0, 0)), 0);
    assert_eq!(offset_of(&text, pos(3, 4)), 0);
}

#[test]
fn offset_counts_trailing_newline() {
    let text = b"ab\n".to_vec();
    assert_eq!(offset_of(&text, pos(1, 0)), 3);
    assert_eq!(offset_of(&text, pos(2, 0)), 3);
}
