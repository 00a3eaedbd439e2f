use emet::positions::{offset_at, position_at, span_to_range, Position};

fn pos(line: u32, character: u32) -> Position {
    Position { line, character }
}

#[test]
fn offsets_count_lines_and_utf16_columns() {
    let src = "ab\ncd\nef";
    assert_eq!(offset_at(src, pos(0, 0)), 0);
    assert_eq!(offset_at(src, pos(1, 1)), 4);
    assert_eq!(offset_at(src, pos(2, 2)), 8);
}

#[test]
fn a_column_past_the_line_stops_at_its_end() {
    assert_eq!(offset_at("ab\ncd", pos(0, 9)), 2);
}

#[test]
fn a_line_past_the_last_is_the_end_of_the_text() {
    assert_eq!(offset_at("ab\ncd", pos(7, 0)), 5);
}

#[test]
fn astral_characters_take_two_units_and_four_bytes() {
    let src = "😀x";
    assert_eq!(offset_at(src, pos(0, 2)), 4);
    assert_eq!(position_at(src, 4), pos(0, 2));
    let src = "é=1";
    assert_eq!(position_at(src, 2), pos(0, 1));
}

#[test]
fn positions_of_byte_offsets() {
    let src = "main = x\n  foo";
    assert_eq!(position_at(src, 0), pos(0, 0));
    assert_eq!(position_at(src, 11), pos(1, 2));
    assert_eq!(position_at(src, 999), pos(1, 5));
}

#[test]
fn a_span_maps_to_a_range() {
    let src = "a\nbc";
    let r = span_to_range(src, &(2..4));
    assert_eq!(r.start, pos(1, 0));
    assert_eq!(r.end, pos(1, 2));
    let r = span_to_range("abc", &(0..0));
    assert_eq!(r.start, pos(0, 0));
    assert_eq!(r.end, pos(0, 0));
}
