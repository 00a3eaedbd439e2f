use emet::lexer::{lex, Tok};
use emet::strings;
use emet::strings::Order;
use emet::Phase;

fn one_scroll(glyphs_src: &str) -> String {
    format!("main : List Scroll\nmain = [ scroll {{ name = \"test\", glyphs = {glyphs_src} }} ]\n")
}

fn source(expr: &str) -> String {
    one_scroll(&format!("[ systemdService {{ unit = {expr} }} ]"))
}

fn lex_err(expr: &str) -> Phase {
    lex(&source(expr)).err().expect("a lex error").into_error().phase
}

fn chars_in(expr: &str) -> Vec<char> {
    lex(&source(expr))
        .expect("lex ok")
        .into_iter()
        .filter_map(|t| match t.tok {
            Tok::Char(c) => Some(c),
            _ => None,
        })
        .collect()
}

fn strings_in(expr: &str) -> Vec<String> {
    lex(&source(expr))
        .expect("lex ok")
        .into_iter()
        .filter_map(|t| match t.tok {
            Tok::Str(s) => Some(s),
            _ => None,
        })
        .skip(1)
        .collect()
}

fn yes_no(b: bool) -> String {
    (if b { "yes" } else { "no" }).to_string()
}

fn joined(parts: Vec<String>) -> String {
    parts.join("|")
}

fn ints(xs: Vec<i64>) -> String {
    xs.iter().map(|x| x.to_string()).collect::<Vec<_>>().join(",")
}

#[test]
fn char_literal_lexes_and_evaluates() {
    let c = chars_in("String.fromChar ('a')")[0];
    assert_eq!(strings::string_from_char(c), "a");
}

#[test]
fn char_escape_newline() {
    assert_eq!(strings::char_to_code(chars_in("Char.toCode '\\n'")[0]).to_string(), "10");
}

#[test]
fn char_escape_tab() {
    assert_eq!(strings::char_to_code(chars_in("Char.toCode '\\t'")[0]).to_string(), "9");
}

#[test]
fn char_escape_backslash() {
    assert_eq!(strings::char_to_code(chars_in("Char.toCode '\\\\'")[0]).to_string(), "92");
}

#[test]
fn char_escape_single_quote() {
    assert_eq!(strings::char_to_code(chars_in("Char.toCode '\\''")[0]).to_string(), "39");
}

#[test]
fn char_escape_unicode() {
    assert_eq!(strings::char_to_code(chars_in("Char.toCode '\\u{1F600}'")[0]).to_string(), "128512");
}

#[test]
fn char_literal_empty_is_lex_error() {
    assert_eq!(lex_err("''"), Phase::Lex);
}

#[test]
fn char_literal_multi_scalar_is_lex_error() {
    assert_eq!(lex_err("'ab'"), Phase::Lex);
}

#[test]
fn char_literal_unterminated_is_lex_error() {
    assert_eq!(lex_err("'a"), Phase::Lex);
}

#[test]
fn char_literal_raw_newline_is_lex_error() {
    assert_eq!(lex_err("'\n'"), Phase::Lex);
}

#[test]
fn char_literal_bad_unicode_empty_is_lex_error() {
    assert_eq!(lex_err("'\\u{}'"), Phase::Lex);
}

#[test]
fn char_literal_bad_unicode_nonhex_is_lex_error() {
    assert_eq!(lex_err("'\\u{zz}'"), Phase::Lex);
}

#[test]
fn char_literal_bad_unicode_surrogate_is_lex_error() {
    assert_eq!(lex_err("'\\u{D800}'"), Phase::Lex);
}

#[test]
fn unicode_escape_in_string_literal() {
    let s = strings_in("String.length \"\\u{1F600}\"");
    assert_eq!(strings::string_length(&s[0]).to_string(), "1");
    let s = strings_in("\"\\u{41}\" == \"A\"");
    assert_eq!(yes_no(strings::compare_strings(&s[0], &s[1]) == Order::Eq), "yes");
}

#[test]
fn string_bad_unicode_escape_is_lex_error() {
    assert_eq!(lex_err("\"\\u{D800}\""), Phase::Lex);
}

#[test]
fn char_to_code() {
    assert_eq!(strings::char_to_code('a').to_string(), "97");
}

#[test]
fn char_from_code() {
    assert_eq!(strings::string_from_char(strings::char_from_code(97)), "a");
}

#[test]
fn char_from_code_out_of_range_is_replacement() {
    assert_eq!(yes_no(strings::compare_chars(strings::char_from_code(55296), '\u{FFFD}') == Order::Eq), "yes");
    assert_eq!(yes_no(strings::compare_chars(strings::char_from_code(1114112), '\u{FFFD}') == Order::Eq), "yes");
    assert_eq!(yes_no(strings::compare_chars(strings::char_from_code(-1), '\u{FFFD}') == Order::Eq), "yes");
}

#[test]
fn char_to_upper() {
    assert_eq!(strings::string_from_char(strings::char_to_upper('a')), "A");
}

#[test]
fn char_to_lower() {
    assert_eq!(strings::string_from_char(strings::char_to_lower('A')), "a");
}

#[test]
fn char_is_upper() {
    assert_eq!(yes_no(strings::char_is_upper('A')), "yes");
    assert_eq!(yes_no(strings::char_is_upper('a')), "no");
}

#[test]
fn char_is_lower() {
    assert_eq!(yes_no(strings::char_is_lower('a')), "yes");
    assert_eq!(yes_no(strings::char_is_lower('A')), "no");
}

#[test]
fn char_is_alpha() {
    assert_eq!(yes_no(strings::char_is_alpha('a')), "yes");
    assert_eq!(yes_no(strings::char_is_alpha('0')), "no");
}

#[test]
fn char_is_alpha_num() {
    assert_eq!(yes_no(strings::char_is_alpha_num('9')), "yes");
    assert_eq!(yes_no(strings::char_is_alpha_num('-')), "no");
}

#[test]
fn char_is_digit() {
    assert_eq!(yes_no(strings::char_is_digit('0')), "yes");
    assert_eq!(yes_no(strings::char_is_digit('a')), "no");
}

#[test]
fn char_is_oct_digit() {
    assert_eq!(yes_no(strings::char_is_oct_digit('7')), "yes");
    assert_eq!(yes_no(strings::char_is_oct_digit('8')), "no");
}

#[test]
fn char_is_hex_digit() {
    assert_eq!(yes_no(strings::char_is_hex_digit('f')), "yes");
    assert_eq!(yes_no(strings::char_is_hex_digit('g')), "no");
}

#[test]
fn char_is_space() {
    assert_eq!(yes_no(strings::char_is_space(' ')), "yes");
    assert_eq!(yes_no(strings::char_is_space('\t')), "yes");
    assert_eq!(yes_no(strings::char_is_space('x')), "no");
}

#[test]
fn char_is_comparable() {
    assert_eq!(yes_no(strings::compare_chars('a', 'b') == Order::Lt), "yes");
    assert_eq!(yes_no(strings::compare_chars('a', 'a') == Order::Eq), "yes");
}

#[test]
fn string_is_empty() {
    assert_eq!(yes_no(strings::string_is_empty("")), "yes");
    assert_eq!(yes_no(strings::string_is_empty("x")), "no");
}

#[test]
fn string_reverse() {
    assert_eq!(strings::string_reverse("stressed"), "desserts");
}

#[test]
fn string_repeat() {
    assert_eq!(strings::string_repeat(3, "ha"), "hahaha");
    assert_eq!(strings::string_repeat(0, "ha"), "");
}

#[test]
fn string_replace() {
    assert_eq!(strings::string_replace(".", "-", "Json.Decode.succeed"), "Json-Decode-succeed");
}

#[test]
fn string_split() {
    assert_eq!(joined(strings::string_split(",", "cat,dog,cow")), "cat|dog|cow");
}

#[test]
fn string_split_empty_separator() {
    assert_eq!(joined(strings::string_split("", "abc")), "a|b|c");
}

#[test]
fn string_words() {
    assert_eq!(joined(strings::string_words("How are \t you? \n Good?")), "How|are|you?|Good?");
}

#[test]
fn string_lines() {
    assert_eq!(joined(strings::string_lines("How are you?\nGood?")), "How are you?|Good?");
    assert_eq!(joined(strings::string_lines("a\nb\nc")), "a|b|c");
}

#[test]
fn string_slice_positive() {
    assert_eq!(strings::scalar_slice("snakes on a plane!", 7, 9), "on");
}

#[test]
fn string_slice_negative() {
    assert_eq!(strings::scalar_slice("snakes on a plane!", -6, -1), "plane");
}

#[test]
fn string_left() {
    assert_eq!(strings::string_left(2, "Mulder"), "Mu");
}

#[test]
fn string_right() {
    assert_eq!(strings::string_right(2, "Scully"), "ly");
}

#[test]
fn string_drop_left() {
    assert_eq!(strings::string_drop_left(2, "The Lone Gunmen"), "e Lone Gunmen");
}

#[test]
fn string_drop_right() {
    assert_eq!(strings::string_drop_right(2, "Cigarette Smoking Man"), "Cigarette Smoking M");
}

#[test]
fn string_contains() {
    assert_eq!(yes_no(strings::string_contains("the", "theory")), "yes");
    assert_eq!(yes_no(strings::string_contains("z", "theory")), "no");
}

#[test]
fn string_starts_with() {
    assert_eq!(yes_no(strings::string_starts_with("the", "theory")), "yes");
}

#[test]
fn string_ends_with() {
    assert_eq!(yes_no(strings::string_ends_with("ory", "theory")), "yes");
}

#[test]
fn string_indexes() {
    assert_eq!(ints(strings::string_indexes("i", "Mississippi")), "1,4,7,10");
}

#[test]
fn string_indexes_empty_needle() {
    assert_eq!(ints(strings::string_indexes("", "abc")), "");
}

#[test]
fn string_indices_alias() {
    assert_eq!(ints(strings::string_indexes("i", "Mississippi")), "1,4,7,10");
}

#[test]
fn string_to_list() {
    assert_eq!(strings::string_from_list(&strings::string_to_list("abc")), "abc");
    assert_eq!(strings::string_from_list(&vec!['a', 'b', 'c']), "abc");
}

#[test]
fn string_from_list() {
    assert_eq!(strings::string_from_list(&vec!['a', 'b', 'c']), "abc");
}

#[test]
fn string_from_char() {
    assert_eq!(strings::string_from_char('x'), "x");
}

#[test]
fn string_trim() {
    assert_eq!(strings::string_trim("  hats  "), "hats");
}

#[test]
fn string_trim_left() {
    assert_eq!(strings::string_trim_left("  hats  "), "hats  ");
}

#[test]
fn string_trim_right() {
    assert_eq!(strings::string_trim_right("  hats  "), "  hats");
}

#[test]
fn string_pad() {
    assert_eq!(strings::string_pad(5, ' ', "1"), "  1  ");
}

#[test]
fn string_pad_left() {
    assert_eq!(strings::string_pad_left(5, '.', "1"), "....1");
}

#[test]
fn string_pad_right() {
    assert_eq!(strings::string_pad_right(5, '.', "1"), "1....");
}

#[test]
fn string_any() {
    assert_eq!(yes_no(strings::string_any(strings::char_is_digit, "90210")), "yes");
    assert_eq!(yes_no(strings::string_any(strings::char_is_digit, "abc")), "no");
}

#[test]
fn string_all() {
    assert_eq!(yes_no(strings::string_all(strings::char_is_digit, "90210")), "yes");
    assert_eq!(yes_no(strings::string_all(strings::char_is_digit, "9021a")), "no");
}

#[test]
fn string_to_list_round_trips() {
    let back = strings::string_from_list(&strings::string_to_list("héllo!"));
    assert_eq!(yes_no(strings::compare_strings(&back, "héllo!") == Order::Eq), "yes");
}

#[test]
fn string_cons() {
    assert_eq!(strings::string_cons('T', "he truth"), "The truth");
}

#[test]
fn string_to_upper() {
    assert_eq!(strings::string_to_upper("skinner"), "SKINNER");
}

#[test]
fn string_to_lower() {
    assert_eq!(strings::string_to_lower("X FILES"), "x files");
}

#[test]
fn string_map() {
    assert_eq!(strings::string_map(|c| if c == '/' { '.' } else { c }, "a/b/c"), "a.b.c");
}

#[test]
fn string_filter() {
    assert_eq!(strings::string_filter(strings::char_is_digit, "R2-D2"), "22");
}
