use emet::ast::{ContentsExpr, EntryExpr, Expr, Spanned, Type};
use emet::parser::{
    build_constructor, fold_decls, fold_decls_check_duplicates, humanize_expected,
    is_reserved_constructor, DeclItem,
};

fn s(text: &str, at: usize) -> Spanned<Expr> {
    Spanned(Expr::Str(text.to_string()), at..at + 1)
}

fn fields(names: &[&str]) -> Vec<(String, Spanned<Expr>)> {
    let mut v: Vec<(String, Spanned<Expr>)> =
        names.iter().enumerate().map(|(k, n)| (n.to_string(), s(n, k))).collect();
    v.sort_by(|a, b| a.0.cmp(&b.0));
    v
}

fn text(e: &Spanned<Expr>) -> String {
    match &e.0 {
        Expr::Str(t) => t.clone(),
        other => format!("{other:?}"),
    }
}

#[test]
fn reserved_words_are_the_constructor_words() {
    for w in ["aptPackage", "systemdService", "file", "directory", "symlink", "lineInFile", "scroll", "rollback", "keep", "retry"] {
        assert!(is_reserved_constructor(w), "{w}");
    }
    assert!(!is_reserved_constructor("files"));
    assert!(!is_reserved_constructor("main"));
}

#[test]
fn file_takes_path_contents_and_mode() {
    let e = build_constructor("file", fields(&["path", "contents", "mode"]), 3..9).ok().unwrap();
    match e {
        Expr::Filesystem { path, entry: EntryExpr::File { contents, mode } } => {
            assert_eq!(text(&path), "path");
            assert_eq!(text(&contents), "contents");
            assert_eq!(text(&mode), "mode");
        }
        other => panic!("unexpected {other:?}"),
    }
}

#[test]
fn a_missing_field_is_named() {
    let err = build_constructor("file", fields(&["path", "mode"]), 3..9).err().unwrap();
    assert_eq!(err.msg, "`file` requires a `contents` field");
    assert_eq!(err.span, 3..9);
    let err = build_constructor("aptPackage", fields(&[]), 0..1).err().unwrap();
    assert_eq!(err.msg, "`aptPackage` requires a `name` field");
}

#[test]
fn a_symlink_has_no_mode() {
    let err = build_constructor("symlink", fields(&["path", "target", "mode"]), 0..4).err().unwrap();
    assert_eq!(err.msg, "unknown symlink field `mode`");
}

#[test]
fn the_first_unknown_field_in_name_order_is_reported() {
    let err = build_constructor("aptPackage", fields(&["name", "zeta", "alpha"]), 0..4).err().unwrap();
    assert_eq!(err.msg, "unknown aptPackage field `alpha`");
}

#[test]
fn a_scroll_needs_exactly_one_of_glyphs_or_groups() {
    let err = build_constructor("scroll", fields(&["name"]), 0..1).err().unwrap();
    assert_eq!(err.msg, "`scroll` needs exactly one of `glyphs` or `groups`");
    let err = build_constructor("scroll", fields(&["name", "glyphs", "groups"]), 0..1).err().unwrap();
    assert_eq!(
        err.msg,
        "`scroll` has both `glyphs` and `groups`, but needs exactly one of `glyphs` or `groups`"
    );
    let err = build_constructor("scroll", fields(&["glyphs"]), 0..1).err().unwrap();
    assert_eq!(err.msg, "`scroll` requires a `name` field");
}

#[test]
fn a_scroll_keeps_its_optional_fields() {
    let e = build_constructor("scroll", fields(&["name", "groups", "policy"]), 0..1).ok().unwrap();
    match e {
        Expr::Scroll { name, policy, notifies, contents } => {
            assert_eq!(text(&name), "name");
            assert_eq!(text(&policy.unwrap()), "policy");
            assert!(notifies.is_none());
            match contents {
                ContentsExpr::Groups(g) => assert_eq!(text(&g), "groups"),
                ContentsExpr::Glyphs(_) => panic!("expected groups"),
            }
        }
        other => panic!("unexpected {other:?}"),
    }
}

#[test]
fn retry_takes_every_field() {
    let e = build_constructor("retry", fields(&["maxAttempts", "baseDelayMs"]), 0..1).ok().unwrap();
    match e {
        Expr::PolicyRetry(fs) => {
            let names: Vec<&str> = fs.iter().map(|f| f.0.as_str()).collect();
            assert_eq!(names, vec!["baseDelayMs", "maxAttempts"]);
        }
        other => panic!("unexpected {other:?}"),
    }
}

#[test]
fn braced_policy_words_point_at_the_braceless_form() {
    let err = build_constructor("keep", fields(&[]), 2..6).err().unwrap();
    assert_eq!(err.msg, "`keep` is written without braces (e.g. `policy = keep`)");
}

fn sig(name: &str, at: usize) -> DeclItem {
    DeclItem::Sig {
        name: name.to_string(),
        ty: Spanned(Type::Con("Int".to_string(), vec![]), at..at + 3),
        span: at..at + 5,
    }
}

fn bind(name: &str, at: usize) -> DeclItem {
    DeclItem::Bind { name: name.to_string(), params: vec![], body: s("v", at + 4), span: at..at + 6 }
}

#[test]
fn signatures_attach_to_the_binding_that_follows() {
    let decls = fold_decls(vec![sig("x", 0), bind("x", 10), bind("y", 20)]).ok().unwrap();
    assert_eq!(decls.len(), 2);
    assert_eq!(decls[0].name, "x");
    assert!(decls[0].sig.is_some());
    assert_eq!(decls[0].span, 10..16);
    assert_eq!(decls[1].name, "y");
    assert!(decls[1].sig.is_none());
}

#[test]
fn a_signature_for_another_name_is_rejected() {
    let err = fold_decls(vec![sig("x", 0), bind("y", 10)]).err().unwrap();
    assert_eq!(err.msg, "signature names `x` but next binding is `y`");
    assert_eq!(err.span, 0..5);
}

#[test]
fn two_signatures_in_a_row_are_rejected() {
    let err = fold_decls(vec![sig("x", 0), sig("y", 10), bind("y", 20)]).err().unwrap();
    assert_eq!(err.msg, "signature for `y` follows an unused signature for `x`");
    assert_eq!(err.span, 10..15);
}

#[test]
fn a_trailing_signature_is_rejected() {
    let err = fold_decls(vec![bind("x", 0), sig("y", 10)]).err().unwrap();
    assert_eq!(err.msg, "signature for `y` has no accompanying binding");
    assert_eq!(err.span, 10..15);
}

#[test]
fn a_name_bound_twice_is_rejected_at_the_second_binding() {
    let items = vec![sig("x", 0), bind("x", 10), bind("y", 20), bind("x", 30)];
    let err = fold_decls_check_duplicates(&items).err().unwrap();
    assert_eq!(err.msg, "`x` is defined twice \u{2014} remove or rename one");
    assert_eq!(err.span, 30..36);
    assert!(fold_decls_check_duplicates(&vec![sig("x", 0), bind("x", 10)]).is_ok());
}

#[test]
fn expected_lists_lose_the_virtual_semicolon_and_duplicates() {
    assert_eq!(
        humanize_expected("found 'in' expected ';', '}', '}', or something else"),
        "found 'in' expected '}' or an expression"
    );
    assert_eq!(
        humanize_expected("found 'x' expected ';'"),
        "found 'x' expected an expression"
    );
}

#[test]
fn expected_lists_join_with_a_final_or() {
    assert_eq!(
        humanize_expected("found end of input expected ')', 'a', or 'b'"),
        "found end of input expected ')', 'a', or 'b'"
    );
}

#[test]
fn only_closers_expected_hints_at_an_unclosed_bracket() {
    assert_eq!(
        humanize_expected("found end of input expected ',', or ']'"),
        "found end of input expected ',' or ']' \u{2014} this looks like an unclosed ']'"
    );
}

#[test]
fn hints_name_the_found_token_or_a_missing_equals() {
    assert_eq!(
        humanize_expected("found '=>' expected '->'"),
        "found '=>' expected '->' \u{2014} case arms use `->`, not `=>`"
    );
    assert_eq!(
        humanize_expected("found 'x' expected '=', or ':'"),
        "found 'x' expected '=' or ':' \u{2014} this looks like a definition missing its `=`"
    );
}

#[test]
fn a_message_without_an_expected_list_only_renames_something_else() {
    assert_eq!(humanize_expected("found something else"), "found an expression");
}
