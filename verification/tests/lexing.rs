use emet::lexer::{lex, Tok};

fn kinds(src: &str) -> Vec<Tok> {
    lex(src).expect("lex ok").into_iter().map(|t| t.tok).collect()
}

fn lex_err(src: &str) -> String {
    lex(src).err().expect("a lex error").msg
}

#[test]
fn a_binding_lexes_to_its_tokens() {
    assert_eq!(
        kinds("x = 42"),
        vec![Tok::Ident("x".to_string()), Tok::Equals, Tok::Int(42), Tok::Eof]
    );
}

#[test]
fn upper_names_operators_and_floats() {
    assert_eq!(
        kinds("Just 1.5 ++ y"),
        vec![
            Tok::Upper("Just".to_string()),
            Tok::Float("1.5".to_string()),
            Tok::Op("++".to_string()),
            Tok::Ident("y".to_string()),
            Tok::Eof
        ]
    );
}

#[test]
fn keywords_are_their_own_tokens() {
    assert_eq!(
        kinds("let in case of if then else"),
        vec![Tok::Let, Tok::In, Tok::Case, Tok::Of, Tok::If, Tok::Then, Tok::Else, Tok::Eof]
    );
}

#[test]
fn char_literals_and_escapes() {
    assert_eq!(kinds("'a'"), vec![Tok::Char('a'), Tok::Eof]);
    assert_eq!(kinds("'\\n'"), vec![Tok::Char('\n'), Tok::Eof]);
    assert_eq!(kinds("'\\u{1F600}'"), vec![Tok::Char('😀'), Tok::Eof]);
}

#[test]
fn bad_char_literals_are_rejected() {
    assert_eq!(lex_err("''"), "empty char literal");
    assert_eq!(lex_err("'ab'"), "char literal must be a single scalar");
    assert_eq!(lex_err("'a"), "unterminated char literal");
}

#[test]
fn strings_and_their_escapes() {
    assert_eq!(kinds("\"a\\tb\""), vec![Tok::Str("a\tb".to_string()), Tok::Eof]);
    assert_eq!(lex_err("\"abc"), "unterminated string literal");
}

#[test]
fn an_integer_too_large_is_rejected() {
    assert_eq!(lex_err("99999999999999999999"), "integer literal `99999999999999999999` out of range");
}

#[test]
fn spans_are_byte_ranges() {
    let toks = lex("é = 1").err();
    assert!(toks.is_some());
    let toks = lex("x = \"é\" ").unwrap();
    assert_eq!(toks[2].span, 4..8);
    assert_eq!(toks[3].span, 9..9);
}
