use emet::ast::{Expr, Exposing, Pattern, Spanned};
use emet::grammar::{parse, parse_expr, parse_pattern};
use emet::lexer::{lex, Tok, Token};

fn pat(src: &str) -> (Spanned<Pattern>, usize) {
    let toks = lex(src).expect("lex ok");
    match parse_pattern(&toks, 0) {
        Ok(r) => r,
        Err(e) => panic!("expected a pattern, got an error: {}", e.msg),
    }
}

fn var_named(p: &Pattern, name: &str) -> bool {
    matches!(p, Pattern::Var(v) if v == name)
}

fn token(tok: Tok, start: usize) -> Token {
    Token { tok, span: start..start + 1, line: 1, col: start + 1, first_on_line: start == 0 }
}

#[test]
fn a_cons_pattern_keeps_its_head_before_its_tail() {
    let (p, end) = pat("x :: xs");
    assert_eq!(end, 3);
    assert_eq!(p.1, 0..7);
    match p.0 {
        Pattern::Cons(h, t) => {
            assert!(var_named(&h.0, "x"));
            assert_eq!(h.1, 0..1);
            assert!(var_named(&t.0, "xs"));
            assert_eq!(t.1, 5..7);
        },
        other => panic!("expected a cons pattern, got {:?}", other),
    }
}

#[test]
fn cons_patterns_nest_to_the_right() {
    let (p, _) = pat("a :: b :: rest");
    match p.0 {
        Pattern::Cons(h, t) => {
            assert!(var_named(&h.0, "a"));
            match t.0 {
                Pattern::Cons(h2, t2) => {
                    assert!(var_named(&h2.0, "b"));
                    assert!(var_named(&t2.0, "rest"));
                },
                other => panic!("expected a nested cons, got {:?}", other),
            }
        },
        other => panic!("expected a cons pattern, got {:?}", other),
    }
}

#[test]
fn a_list_literal_pattern_folds_into_cells_ending_in_nil() {
    let (p, end) = pat("[a, _]");
    assert_eq!(end, 5);
    assert_eq!(p.1, 0..6);
    match p.0 {
        Pattern::Cons(h, t) => {
            assert!(var_named(&h.0, "a"));
            assert_eq!(t.1, 4..6);
            match t.0 {
                Pattern::Cons(h2, t2) => {
                    assert!(matches!(h2.0, Pattern::Wildcard));
                    assert!(matches!(t2.0, Pattern::Nil));
                    assert_eq!(t2.1, 6..6);
                },
                other => panic!("expected a second cell, got {:?}", other),
            }
        },
        other => panic!("expected a cons cell, got {:?}", other),
    }
}

#[test]
fn a_constructor_takes_the_atoms_after_it() {
    let (p, _) = pat("Just 3");
    assert_eq!(p.1, 0..6);
    match p.0 {
        Pattern::Ctor(name, args) => {
            assert_eq!(name, "Just");
            assert_eq!(args.len(), 1);
            assert!(matches!(args[0].0, Pattern::Int(3)));
        },
        other => panic!("expected a constructor pattern, got {:?}", other),
    }
}

#[test]
fn a_parenthesized_pair_is_a_tuple_and_one_item_is_itself() {
    match pat("(a, 'c')").0 .0 {
        Pattern::Tuple(items) => {
            assert_eq!(items.len(), 2);
            assert!(var_named(&items[0].0, "a"));
            assert!(matches!(items[1].0, Pattern::Char('c')));
        },
        other => panic!("expected a tuple pattern, got {:?}", other),
    }
    let (inner, _) = pat("(n)");
    assert!(var_named(&inner.0, "n"));
    assert_eq!(inner.1, 1..2);
}

#[test]
fn a_minus_before_an_integer_is_a_negative_literal() {
    let (p, _) = pat("-7");
    assert!(matches!(p.0, Pattern::Int(-7)));
    assert_eq!(p.1, 0..2);
}

#[test]
fn empty_source_lexes_to_a_lone_end_of_input() {
    let toks = lex("").expect("lex ok");
    assert_eq!(toks.len(), 1);
    assert_eq!(toks[0].tok, Tok::Eof);
    assert_eq!(toks[0].span, 0..0);
    assert_eq!(toks[0].line, 1);
    assert_eq!(toks[0].col, 1);
    assert!(toks[0].first_on_line);
}

#[test]
fn an_empty_laid_out_block_parses_to_an_empty_module() {
    let toks = vec![token(Tok::VLBrace, 0), token(Tok::VRBrace, 1), token(Tok::Eof, 2)];
    let m = match parse(&toks, None, Exposing::All, Vec::new()) {
        Ok(m) => m,
        Err(es) => panic!("expected an empty module, got {} errors", es.len()),
    };
    assert!(m.name.is_none());
    assert!(m.type_decls.is_empty());
    assert!(m.decls.is_empty());
}

#[test]
fn juxtaposed_names_apply_left_to_right() {
    let toks = lex("f x 1").expect("lex ok");
    let (e, end) = match parse_expr(&toks, 0) {
        Ok(r) => r,
        Err(err) => panic!("expected an expression, got an error: {}", err.msg),
    };
    assert_eq!(end, 3);
    assert_eq!(e.1, 0..5);
    match e.0 {
        Expr::App(f, arg) => {
            assert!(matches!(arg.0, Expr::Int(1)));
            assert_eq!(arg.1, 4..5);
            assert_eq!(f.1, 0..3);
            match f.0 {
                Expr::App(g, x) => {
                    assert!(matches!(&g.0, Expr::Var(n) if n == "f"));
                    assert!(matches!(&x.0, Expr::Var(n) if n == "x"));
                },
                other => panic!("expected an inner application, got {:?}", other),
            }
        },
        other => panic!("expected an application, got {:?}", other),
    }
}
