use emet::underline;

#[test]
fn a_span_inside_the_source_underlines_itself() {
    assert_eq!(underline(&(2..5), "abcdefg"), 2..5);
}

#[test]
fn the_unlocated_span_underlines_the_first_character() {
    assert_eq!(underline(&(0..0), "abcdefg"), 0..1);
}

#[test]
fn a_span_reaching_past_the_end_of_the_source_underlines_the_first_character() {
    assert_eq!(underline(&(120..140), "abcdefg"), 0..1);
    assert_eq!(underline(&(5..9), "abcdefg"), 0..1);
}

#[test]
fn a_zero_width_span_at_the_end_of_input_is_left_alone() {
    assert_eq!(underline(&(7..7), "abcdefg"), 7..7);
}

#[test]
fn an_empty_source_underlines_nothing_rather_than_panicking() {
    assert_eq!(underline(&(3..9), ""), 0..0);
}
