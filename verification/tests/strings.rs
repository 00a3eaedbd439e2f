use emet::strings::{
    char_from_code, int_div, list_range, mod_by, remainder_by, scalar_slice, string_concat,
    string_contains, string_drop_left, string_drop_right, string_ends_with, string_indexes,
    string_join, string_left, string_lines, string_pad, string_pad_left, string_pad_right,
    string_repeat, string_replace, string_reverse, string_right, string_split,
    string_starts_with, string_to_int, string_trim, string_trim_left, string_trim_right,
};

fn strs(v: &[&str]) -> Vec<String> {
    v.iter().map(|s| s.to_string()).collect()
}

#[test]
fn slice_counts_negative_bounds_from_the_end() {
    assert_eq!(scalar_slice("snakes on a plane!", 7, 9), "on");
    assert_eq!(scalar_slice("snakes on a plane!", 0, 6), "snakes");
    assert_eq!(scalar_slice("snakes on a plane!", 0, -7), "snakes on a");
    assert_eq!(scalar_slice("snakes on a plane!", -6, -1), "plane");
}

#[test]
fn slice_clamps_and_crossed_bounds_are_empty() {
    assert_eq!(scalar_slice("abc", -10, 10), "abc");
    assert_eq!(scalar_slice("abc", 2, 1), "");
    assert_eq!(scalar_slice("héllo", 1, 3), "él");
}

#[test]
fn left_right_and_drops_count_characters() {
    assert_eq!(string_left(2, "Mulder"), "Mu");
    assert_eq!(string_right(2, "Scully"), "ly");
    assert_eq!(string_drop_left(2, "The Lone Gunmen"), "e Lone Gunmen");
    assert_eq!(string_drop_right(2, "Cigarette Smoking Man"), "Cigarette Smoking M");
    assert_eq!(string_left(-1, "abc"), "");
    assert_eq!(string_right(10, "abc"), "abc");
    assert_eq!(string_drop_left(0, "abc"), "abc");
    assert_eq!(string_drop_right(9, "abc"), "");
}

#[test]
fn reverse_and_repeat() {
    assert_eq!(string_reverse("stressed"), "desserts");
    assert_eq!(string_repeat(3, "ha"), "hahaha");
    assert_eq!(string_repeat(0, "ha"), "");
    assert_eq!(string_repeat(-2, "ha"), "");
}

#[test]
fn padding_centres_with_the_extra_on_the_left() {
    assert_eq!(string_pad(5, ' ', "1"), "  1  ");
    assert_eq!(string_pad(5, ' ', "11"), "  11 ");
    assert_eq!(string_pad(5, ' ', "121"), " 121 ");
    assert_eq!(string_pad(2, '.', "toolong"), "toolong");
    assert_eq!(string_pad_left(5, '.', "1"), "....1");
    assert_eq!(string_pad_right(5, '.', "1"), "1....");
    assert_eq!(string_pad_left(1, '.', "123"), "123");
}

#[test]
fn lines_break_on_every_terminator() {
    assert_eq!(string_lines("How are you?\nGood?"), strs(&["How are you?", "Good?"]));
    assert_eq!(string_lines("a\r\nb\rc\n"), strs(&["a", "b", "c", ""]));
    assert_eq!(string_lines(""), strs(&[""]));
}

#[test]
fn split_on_a_separator_and_on_nothing() {
    assert_eq!(string_split(",", "cat,dog,cow"), strs(&["cat", "dog", "cow"]));
    assert_eq!(string_split("/", "home/evan/Desktop/"), strs(&["home", "evan", "Desktop", ""]));
    assert_eq!(string_split("", "abc"), strs(&["a", "b", "c"]));
    assert_eq!(string_split("aa", "aaa"), strs(&["", "a"]));
}

#[test]
fn join_and_concat() {
    assert_eq!(string_join("a", &strs(&["H", "w", "ii", "n"])), "Hawaiian");
    assert_eq!(string_join(", ", &strs(&["cat", "dog", "cow"])), "cat, dog, cow");
    assert_eq!(string_join(", ", &strs(&[])), "");
    assert_eq!(string_concat(&strs(&["never", "the", "less"])), "nevertheless");
}

#[test]
fn replace_every_occurrence_from_the_left() {
    assert_eq!(string_replace(".", "-", "Json.Decode.succeed"), "Json-Decode-succeed");
    assert_eq!(string_replace(",", "/", "a,b,c,d,e"), "a/b/c/d/e");
    assert_eq!(string_replace("aa", "b", "aaa"), "ba");
    assert_eq!(string_replace("", "x", "abc"), "abc");
}

#[test]
fn replacing_a_string_by_itself_changes_nothing() {
    for s in ["", "a,b", ",,", "x, y, z"] {
        assert_eq!(string_replace(",", ",", s), s);
    }
}

#[test]
fn indexes_find_overlapping_matches() {
    assert_eq!(string_indexes("i", "Mississippi"), vec![1, 4, 7, 10]);
    assert_eq!(string_indexes("ss", "Mississippi"), vec![2, 5]);
    assert_eq!(string_indexes("needle", "haystack"), Vec::<i64>::new());
    assert_eq!(string_indexes("aa", "aaaa"), vec![0, 1, 2]);
    assert_eq!(string_indexes("", "abc"), Vec::<i64>::new());
}

#[test]
fn contains_starts_and_ends() {
    assert!(string_contains("the", "theory"));
    assert!(!string_contains("hat", "theory"));
    assert!(string_contains("", "theory"));
    assert!(string_starts_with("the", "theory"));
    assert!(!string_starts_with("ory", "theory"));
    assert!(string_ends_with("ory", "theory"));
    assert!(!string_ends_with("the", "theory"));
}

#[test]
fn trims_remove_whitespace_at_the_ends() {
    assert_eq!(string_trim("  hats  \n"), "hats");
    assert_eq!(string_trim_left("  hats  \n"), "hats  \n");
    assert_eq!(string_trim_right("  hats  \n"), "  hats");
    assert_eq!(string_trim("\u{3000}x\u{3000}"), "x");
}

#[test]
fn to_int_accepts_a_sign_and_digits_that_fit() {
    assert_eq!(string_to_int("123"), Some(123));
    assert_eq!(string_to_int("-42"), Some(-42));
    assert_eq!(string_to_int("+7"), Some(7));
    assert_eq!(string_to_int("3.1"), None);
    assert_eq!(string_to_int("31a"), None);
    assert_eq!(string_to_int(""), None);
    assert_eq!(string_to_int("-"), None);
    assert_eq!(string_to_int("9223372036854775807"), Some(i64::MAX));
    assert_eq!(string_to_int("-9223372036854775808"), Some(i64::MIN));
    assert_eq!(string_to_int("9223372036854775808"), None);
}

#[test]
fn range_is_inclusive() {
    assert_eq!(list_range(1, 4), vec![1, 2, 3, 4]);
    assert_eq!(list_range(3, 3), vec![3]);
    assert_eq!(list_range(5, 3), Vec::<i64>::new());
}

#[test]
fn from_code_replaces_what_is_no_scalar() {
    assert_eq!(char_from_code(97), 'a');
    assert_eq!(char_from_code(0x1F600), '😀');
    assert_eq!(char_from_code(-1), '\u{FFFD}');
    assert_eq!(char_from_code(0xD800), '\u{FFFD}');
    assert_eq!(char_from_code(0x110000), '\u{FFFD}');
}

#[test]
fn integer_division_is_total() {
    assert_eq!(int_div(7, 2), 3);
    assert_eq!(int_div(-7, 2), -3);
    assert_eq!(int_div(7, 0), 0);
    assert_eq!(int_div(i64::MIN, -1), i64::MIN);
    assert_eq!(mod_by(3, -1), 2);
    assert_eq!(mod_by(-3, 7), 1);
    assert_eq!(mod_by(0, 5), 0);
    assert_eq!(remainder_by(3, -7), -1);
    assert_eq!(remainder_by(3, 7), 1);
    assert_eq!(remainder_by(0, 7), 0);
    assert_eq!(remainder_by(-1, i64::MIN), 0);
}

#[test]
fn joining_the_lines_with_newlines_gives_back_the_text() {
    for s in ["", "a", "a\nb", "\n\nx\n", "line one\nline two\n"] {
        assert_eq!(string_join("\n", &string_lines(s)), s);
    }
}

#[test]
fn splitting_then_joining_with_the_separator_gives_back_the_text() {
    for s in ["", ",", "a,,b", "abc", ",x,"] {
        assert_eq!(string_join(",", &string_split(",", s)), s);
    }
}
