use emet::ast::{Expr, Pattern};
use emet::{parse_source, Error, Phase};

fn err(src: &str) -> Error {
    match parse_source(src) {
        Ok(_) => panic!("expected a parse error, but parsing succeeded"),
        Err(e) => e,
    }
}

fn assert_anchored_away_from_module_start(e: &Error) {
    assert_ne!(e.span, 0..0, "span must not be the empty sentinel: {e:?}");
    assert_ne!(e.span, 0..4, "span must not be the whole-module anchor: {e:?}");
}

#[test]
fn unclosed_bracket_reports_closing_bracket() {
    let e = err(r#"main = [ "a" "#);
    assert_eq!(e.phase, Phase::Parse);
    assert!(e.msg.contains("']'"), "msg: {}", e.msg);
    assert_eq!(e.span, 13..13);
}

#[test]
fn leading_junk_reports_the_offending_token() {
    let e = err(r#"main = )"#);
    assert_eq!(e.phase, Phase::Parse);
    assert!(e.msg.contains("')'"), "msg: {}", e.msg);
    assert!(e.msg.contains("expected"), "msg: {}", e.msg);
    assert_eq!(e.span, 7..8);
}

#[test]
fn bad_type_after_colon() {
    let e = err(r#"foo : )"#);
    assert_eq!(e.phase, Phase::Parse);
    assert!(e.msg.contains("a type"), "msg: {}", e.msg);
    assert_eq!(e.span, 6..7);
}

#[test]
fn let_without_in_is_a_parse_error() {
    let e = err(r#"main = let x = "a""#);
    assert_eq!(e.phase, Phase::Parse);
    assert!(e.msg.contains("expected"), "msg: {}", e.msg);
    assert_anchored_away_from_module_start(&e);
}

#[test]
fn lambda_without_arrow_is_a_parse_error() {
    let e = err(r#"main = \x"#);
    assert_eq!(e.phase, Phase::Parse);
    assert_eq!(e.span, 7..8);
}

#[test]
fn lambda_without_params_is_a_parse_error() {
    let e = err(r#"main = \ -> x"#);
    assert_eq!(e.phase, Phase::Parse);
    assert_eq!(e.span, 7..8);
}

#[test]
fn field_access_without_name() {
    let e = err(r#"main = x."#);
    assert_eq!(e.phase, Phase::Parse);
    assert_anchored_away_from_module_start(&e);
    assert_eq!(e.span, 8..9);
}

#[test]
fn expected_set_has_no_virtual_semicolon() {
    let e = err("main =\n  let x = 1\n  x");
    assert_eq!(e.phase, Phase::Parse);
    assert!(!e.msg.contains("';'"), "virtual ; leaked: {}", e.msg);
}

#[test]
fn expected_set_has_no_something_else() {
    let e = err("f x x + 1\n\nmain = f 2");
    assert_eq!(e.phase, Phase::Parse);
    assert!(!e.msg.contains("something else"), "jargon leaked: {}", e.msg);
    assert!(e.msg.contains("an expression"), "expected replacement: {}", e.msg);
}

#[test]
fn expected_set_dedupes_repeated_brace() {
    let e = err("main = x + * y");
    assert_eq!(e.phase, Phase::Parse);
    let n = e.msg.matches("'}'").count();
    assert!(n <= 1, "duplicate '}}' in: {}", e.msg);
}

#[test]
fn unclosed_bracket_message_mentions_unclosed() {
    let e = err(r#"main = [ "a" "#);
    assert_eq!(e.phase, Phase::Parse);
    assert!(
        e.msg.to_lowercase().contains("close") || e.msg.to_lowercase().contains("unclosed"),
        "expected an unclosed hint: {}",
        e.msg
    );
    assert!(e.msg.contains("']'"), "should still name the delimiter: {}", e.msg);
}

#[test]
fn arrow_typo_hint() {
    let e = err("f x =\n  case x of\n    1 => \"a\"\n    _ => \"b\"\n\nmain = f 1");
    assert_eq!(e.phase, Phase::Parse);
    assert!(e.msg.contains("=>") && e.msg.contains("->"), "msg: {}", e.msg);
}

#[test]
fn missing_equals_hint() {
    let e = err("f x x + 1\n\nmain = f 2");
    assert_eq!(e.phase, Phase::Parse);
    assert!(e.msg.contains("="), "should mention '=': {}", e.msg);
    assert!(e.msg.to_lowercase().contains("definition") || e.msg.contains("'='"), "msg: {}", e.msg);
}

// The audit corpus files are not part of this tree; each case below is the
// program its file name describes.

#[test]
fn c16_reserved_word_binding() {
    let e = err("keep n = n + 1\n\nmain = [ ]");
    assert_eq!(e.phase, Phase::Parse, "{}", e.msg);
    assert!(e.msg.contains("reserved"), "{}", e.msg);
    assert!(!e.msg.contains("t9"), "leaked typevar: {}", e.msg);
}

#[test]
fn c19_braced_rollback() {
    let e = err(r#"main = [ scroll { name = "w", glyphs = [], policy = rollback { } } ]"#);
    assert!(e.msg.contains("without braces"), "{}", e.msg);
}

#[test]
fn c12_arrow_typo_hint() {
    let e = err("f x =\n  case x of\n    Just y => y\n    Nothing => 0\n\nmain = [ ]");
    assert_eq!(e.phase, Phase::Parse, "{}", e.msg);
    assert!(e.msg.contains("=>") && e.msg.contains("->"), "{}", e.msg);
}

#[test]
fn well_formed_module_parses_into_declarations() {
    let src = "type Color = Red | Green\n\nf : Int -> Int\nf x = x + 1\n\nmain = [ scroll { name = \"n\", glyphs = [] } ]";
    let m = parse_source(src).expect("parses");
    assert_eq!(m.type_decls.len(), 1);
    assert_eq!(m.type_decls[0].variants.len(), 2);
    assert_eq!(m.decls.len(), 2);
    assert_eq!(m.decls[0].name, "f");
    assert!(m.decls[0].sig.is_some());
    assert_eq!(m.decls[0].params.len(), 1);
    assert!(matches!(m.decls[0].params[0].0, Pattern::Var(ref n) if n == "x"));
    assert!(matches!(m.decls[1].body.0, Expr::List(ref items) if items.len() == 1));
}

#[test]
fn operators_desugar_to_builtin_applications() {
    let m = parse_source("main = 1 + 2 * 3").expect("parses");
    // `1 + (2 * 3)`: the outer application's function is `add 1`
    match &m.decls[0].body.0 {
        Expr::App(f, _) => match &f.0 {
            Expr::App(g, _) => assert!(matches!(g.0, Expr::Var(ref n) if n == "add")),
            other => panic!("unexpected {other:?}"),
        },
        other => panic!("unexpected {other:?}"),
    }
}

#[test]
fn two_bad_declarations_are_both_reported() {
    let errors = emet::parse_source_multi("f = )\ng = )\nmain = [ ]").err().expect("errors");
    assert_eq!(errors.len(), 2);
    assert_eq!(errors[0].span, 4..5);
    assert_eq!(errors[1].span, 10..11);
}

fn parse_errors(src: &str) -> Vec<Error> {
    match emet::parse_source_multi(src) {
        Ok(_) => panic!("expected parse errors, but parsing succeeded"),
        Err(errors) => errors,
    }
}

#[test]
fn two_malformed_decls_report_two_parse_errors() {
    let errors = parse_errors("a = )\nb = )\nmain = [ ]");
    let parse: Vec<_> = errors.iter().filter(|e| e.phase == Phase::Parse).collect();
    assert_eq!(parse.len(), 2, "expected both malformed decls reported, got {parse:?}");
    assert_ne!(parse[0].span, parse[1].span, "the two errors must carry distinct spans");
}

#[test]
fn single_malformed_decl_reports_exactly_one_parse_error() {
    let errors = parse_errors("main = )");
    let parse: Vec<_> = errors.iter().filter(|e| e.phase == Phase::Parse).collect();
    assert_eq!(parse.len(), 1, "one bad decl reports one error, got {parse:?}");
}

#[test]
fn recovery_does_not_cascade_into_a_following_valid_decl() {
    let errors = parse_errors("bad = )\ngood = \"ok\"\nmain = [ ]");
    let parse: Vec<_> = errors.iter().filter(|e| e.phase == Phase::Parse).collect();
    assert_eq!(parse.len(), 1, "a valid decl after a bad one must not produce a spurious error, got {parse:?}");
}
