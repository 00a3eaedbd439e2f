use emet::ast::{Expr, Spanned};
use emet::operators::{fold_operators, operator_builtin, operator_fixity, OpAssoc};

fn var(name: &str, at: usize) -> Spanned<Expr> {
    Spanned(Expr::Var(name.to_string()), at..at + 1)
}

fn show(e: &Spanned<Expr>) -> String {
    match &e.0 {
        Expr::Var(n) => n.clone(),
        Expr::App(f, x) => match &f.0 {
            Expr::App(g, a) => format!("({} {} {})", show(g), show(a), show(x)),
            _ => format!("({} {})", show(f), show(x)),
        },
        other => format!("{other:?}"),
    }
}

/// Folds `a op1 b op2 c …` with single-letter operands at even offsets.
fn fold(ops: &[&str]) -> Result<Spanned<Expr>, String> {
    let names = ["a", "b", "c", "d", "e"];
    let rest = ops
        .iter()
        .enumerate()
        .map(|(k, op)| ((op.to_string(), 2 * k + 1..2 * k + 2), var(names[k + 1], 2 * k + 2)))
        .collect();
    fold_operators(var("a", 0), rest)
}

#[test]
fn fixity_follows_the_elm_table() {
    assert_eq!(operator_fixity("^"), Some((7, OpAssoc::Right)));
    assert_eq!(operator_fixity("//"), Some((7, OpAssoc::Left)));
    assert_eq!(operator_fixity("-"), Some((6, OpAssoc::Left)));
    assert_eq!(operator_fixity("::"), Some((5, OpAssoc::Right)));
    assert_eq!(operator_fixity("/="), Some((4, OpAssoc::NonAssoc)));
    assert_eq!(operator_fixity("&&"), Some((3, OpAssoc::Right)));
    assert_eq!(operator_fixity("||"), Some((2, OpAssoc::Right)));
    assert_eq!(operator_fixity("<|"), None);
}

#[test]
fn operators_desugar_to_prelude_builtins() {
    assert_eq!(operator_builtin("+"), "add");
    assert_eq!(operator_builtin("++"), "append");
    assert_eq!(operator_builtin("::"), "cons");
    assert_eq!(operator_builtin("/="), "neq");
    assert_eq!(operator_builtin("//"), "idiv");
}

#[test]
fn multiplication_binds_tighter_than_addition() {
    assert_eq!(show(&fold(&["+", "*"]).unwrap()), "(add a (mul b c))");
    assert_eq!(show(&fold(&["*", "+"]).unwrap()), "(add (mul a b) c)");
}

#[test]
fn left_and_right_associativity() {
    assert_eq!(show(&fold(&["-", "-"]).unwrap()), "(sub (sub a b) c)");
    assert_eq!(show(&fold(&["::", "::"]).unwrap()), "(cons a (cons b c))");
    assert_eq!(show(&fold(&["^", "^"]).unwrap()), "(pow a (pow b c))");
}

#[test]
fn mixed_associativity_at_one_level_follows_the_earlier_operator() {
    assert_eq!(show(&fold(&["*", "^"]).unwrap()), "(pow (mul a b) c)");
    assert_eq!(show(&fold(&["^", "*"]).unwrap()), "(pow a (mul b c))");
}

#[test]
fn comparisons_group_under_boolean_operators() {
    assert_eq!(
        show(&fold(&["<", "&&", "=="]).unwrap()),
        "(and (lt a b) (eq c d))"
    );
}

#[test]
fn chained_comparisons_are_rejected() {
    let err = fold(&["<", "<"]).err().unwrap();
    assert_eq!(err, "operator `<` is non-associative; add parentheses");
    let err = fold(&["<", "+", "=="]).err().unwrap();
    assert_eq!(err, "operator `<` is non-associative; add parentheses");
}

#[test]
fn unknown_operators_are_rejected_first() {
    let err = fold(&["<", "<", "<|"]).err().unwrap();
    assert_eq!(err, "unknown operator `<|`");
}

#[test]
fn the_application_spans_its_operands() {
    let e = fold(&["+"]).unwrap();
    assert_eq!(e.1, 0..3);
    match &e.0 {
        Expr::App(f, _) => match &f.0 {
            Expr::App(g, _) => assert_eq!(g.1, 0..0),
            _ => panic!("expected an application"),
        },
        _ => panic!("expected an application"),
    }
}

#[test]
fn a_single_operand_is_returned_as_is() {
    assert_eq!(show(&fold(&[]).unwrap()), "a");
}
