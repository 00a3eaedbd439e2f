use emet::ast::{Pattern, Spanned};
use emet::exhaust::{default_matrix, head_of, lower_pattern, missing_report, specialize, Head, UPat};

fn sp(p: Pattern) -> Spanned<Pattern> {
    Spanned(p, 0..1)
}

fn show(p: &UPat) -> String {
    match p {
        UPat::Wild => "_".to_string(),
        UPat::Str(s) => format!("{s:?}"),
        UPat::Ctor(n, subs) if subs.is_empty() => n.clone(),
        UPat::Ctor(n, subs) => {
            let inner: Vec<String> = subs.iter().map(show).collect();
            format!("({} {})", n, inner.join(" "))
        }
    }
}

fn rows(m: &[Vec<UPat>]) -> Vec<String> {
    m.iter().map(|r| r.iter().map(show).collect::<Vec<_>>().join(" ")).collect()
}

fn ctor(n: &str, subs: Vec<UPat>) -> UPat {
    UPat::Ctor(n.to_string(), subs)
}

#[test]
fn bindings_lower_to_wildcards_and_lists_to_constructors() {
    let p = Pattern::Cons(
        Box::new(sp(Pattern::Var("x".to_string()))),
        Box::new(sp(Pattern::Nil)),
    );
    assert_eq!(show(&lower_pattern(&p)), "(:: _ [])");
    let p = Pattern::Ctor(
        "Just".to_string(),
        vec![sp(Pattern::Str("a".to_string()))],
    );
    assert_eq!(show(&lower_pattern(&p)), "(Just \"a\")");
    assert_eq!(show(&lower_pattern(&Pattern::Wildcard)), "_");
}

#[test]
fn heads_name_the_constructor_and_its_arity() {
    match head_of(&ctor("Just", vec![UPat::Wild])) {
        Some(Head::Ctor(n, a)) => {
            assert_eq!(n, "Just");
            assert_eq!(a, 1);
        }
        _ => panic!("expected a constructor head"),
    }
    assert!(head_of(&UPat::Wild).is_none());
}

#[test]
fn specialising_keeps_matching_rows_and_expands_wildcards() {
    let m = vec![
        vec![ctor("Just", vec![UPat::Str("a".to_string())]), UPat::Wild],
        vec![ctor("Nothing", vec![]), UPat::Wild],
        vec![UPat::Wild, UPat::Str("b".to_string())],
    ];
    let s = specialize(&m, &Head::Ctor("Just".to_string(), 1));
    assert_eq!(rows(&s), vec!["\"a\" _", "_ \"b\""]);
    let s = specialize(&m, &Head::Ctor("Nothing".to_string(), 0));
    assert_eq!(rows(&s), vec!["_", "\"b\""]);
}

#[test]
fn specialising_on_a_string_keeps_equal_strings_and_wildcards() {
    let m = vec![
        vec![UPat::Str("a".to_string())],
        vec![UPat::Str("b".to_string())],
        vec![UPat::Wild],
    ];
    let s = specialize(&m, &Head::Str("a".to_string()));
    assert_eq!(s.len(), 2);
    assert!(s.iter().all(|r| r.is_empty()));
}

#[test]
fn the_default_matrix_keeps_the_wildcard_rows() {
    let m = vec![
        vec![ctor("Nothing", vec![]), UPat::Str("x".to_string())],
        vec![UPat::Wild, UPat::Str("y".to_string())],
    ];
    assert_eq!(rows(&default_matrix(&m)), vec!["\"y\""]);
}

#[test]
fn the_report_names_the_uncovered_constructors() {
    let sig = Some(vec![("Red".to_string(), 0), ("Green".to_string(), 0), ("Blue".to_string(), 0)]);
    let m = vec![vec![ctor("Green", vec![])]];
    assert_eq!(missing_report(&sig, &m), "missing constructor(s): Red, Blue");
    let m = vec![vec![ctor("Red", vec![])], vec![ctor("Green", vec![])], vec![ctor("Blue", vec![])]];
    assert_eq!(missing_report(&sig, &m), "some values are not matched");
    assert_eq!(
        missing_report(&None, &vec![vec![UPat::Str("a".to_string())]]),
        "add a `_` catch-all arm to cover all remaining values"
    );
}
