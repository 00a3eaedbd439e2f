use emet::ast::{Constraint, Row, Scheme, Type};
use emet::engine::Infer;
use emet::infer::{con, merge_constraints, TyEnv};
use emet::schemes::uncurry;

fn list(t: Type) -> Type {
    Type::Con("List".to_string(), vec![t])
}

fn fun(a: Type, b: Type) -> Type {
    Type::Fun(Box::new(a), Box::new(b))
}

#[test]
fn a_variable_unifies_with_a_concrete_type() {
    let mut inf = Infer::new();
    let v = inf.fresh();
    assert!(inf.unify(&v, &con("Int"), &(3..4)).is_ok());
    assert_eq!(inf.apply(&v).to_text(), "Int");
}

#[test]
fn different_constructors_do_not_unify() {
    let mut inf = Infer::new();
    let err = inf.unify(&con("Int"), &con("String"), &(5..9)).err().unwrap();
    assert_eq!(err.msg, "type mismatch: expected `Int`, found `String`");
    assert_eq!(err.span, 5..9);
}

#[test]
fn a_variable_cannot_contain_itself() {
    let mut inf = Infer::new();
    let v = inf.fresh();
    let err = inf.unify(&v, &list(v.duplicate()), &(0..1)).err().unwrap();
    assert_eq!(err.msg, "infinite type: t0 occurs in `List t0`");
}

#[test]
fn a_number_variable_rejects_a_string() {
    let mut inf = Infer::new();
    let n = inf.fresh_constrained(Constraint::Number);
    let err = inf.unify(&n, &con("String"), &(0..1)).err().unwrap();
    assert_eq!(err.msg, "type `String` does not satisfy `number`");
    let m = inf.fresh_constrained(Constraint::Number);
    assert!(inf.unify(&m, &con("Float"), &(0..1)).is_ok());
}

#[test]
fn functions_unify_argument_and_result() {
    let mut inf = Infer::new();
    let a = inf.fresh();
    let b = inf.fresh();
    let f = fun(a.duplicate(), b.duplicate());
    assert!(inf.unify(&f, &fun(con("Int"), list(con("Bool"))), &(0..1)).is_ok());
    assert_eq!(inf.apply(&f).to_text(), "Int -> List Bool");
}

#[test]
fn a_concrete_glyph_type_widens_to_glyph() {
    let mut inf = Infer::new();
    // expected `Glyph`, found `AptPackage`: the subtype widens
    assert!(inf.unify(&con("Glyph"), &con("AptPackage"), &(0..1)).is_ok());
    // expected `AptPackage`, found `Glyph`: no narrowing
    assert!(inf.unify(&con("AptPackage"), &con("Glyph"), &(0..1)).is_err());
}

#[test]
fn closed_records_with_the_same_fields_unify() {
    let mut inf = Infer::new();
    let v = inf.fresh();
    let a = Type::Record(vec![("name".to_string(), v.duplicate())], Row::Closed);
    let b = Type::Record(vec![("name".to_string(), con("String"))], Row::Closed);
    assert!(inf.unify(&a, &b, &(0..1)).is_ok());
    assert_eq!(inf.apply(&v).to_text(), "String");
}

#[test]
fn an_open_record_absorbs_extra_fields() {
    let mut inf = Infer::new();
    let r = inf.fresh_row();
    let demanded = Type::Record(vec![("port".to_string(), con("Int"))], r);
    let actual = Type::Record(
        vec![("host".to_string(), con("String")), ("port".to_string(), con("Int"))],
        Row::Closed,
    );
    assert!(inf.unify(&demanded, &actual, &(0..1)).is_ok());
}

#[test]
fn a_closed_record_missing_a_field_is_rejected() {
    let mut inf = Infer::new();
    let a = Type::Record(vec![("port".to_string(), con("Int"))], Row::Closed);
    let b = Type::Record(vec![("host".to_string(), con("String"))], Row::Closed);
    let err = inf.unify(&a, &b, &(0..1)).err().unwrap();
    assert!(err.msg.starts_with("record types differ"));
}

#[test]
fn generalising_quantifies_what_the_environment_does_not_mention() {
    let mut inf = Infer::new();
    let a = inf.fresh();
    let scheme = inf.generalize(&TyEnv::new(), &fun(a.duplicate(), a.duplicate()));
    assert_eq!(scheme.vars.len(), 1);
    let t1 = inf.instantiate(&scheme);
    let t2 = inf.instantiate(&scheme);
    assert_ne!(t1.to_text(), t2.to_text());
    assert_eq!(t1.to_text(), "t1 -> t1");
}

#[test]
fn instantiating_a_monotype_copies_it() {
    let mut inf = Infer::new();
    let s = Scheme { vars: vec![], row_vars: vec![], ty: list(con("Int")) };
    assert_eq!(inf.instantiate(&s).to_text(), "List Int");
}

#[test]
fn uncurrying_splits_arguments_from_the_result() {
    let (args, result) = uncurry(&fun(con("Int"), fun(con("String"), con("Bool"))));
    let args: Vec<String> = args.iter().map(|t| t.to_text()).collect();
    assert_eq!(args, vec!["Int", "String"]);
    assert_eq!(result.to_text(), "Bool");
}

#[test]
fn constraints_merge_to_the_stronger_one() {
    assert_eq!(merge_constraints(Constraint::Free, Constraint::Number), Some(Constraint::Number));
    assert_eq!(merge_constraints(Constraint::Number, Constraint::Comparable), Some(Constraint::Number));
    assert_eq!(merge_constraints(Constraint::Number, Constraint::Appendable), None);
    assert_eq!(merge_constraints(Constraint::Comparable, Constraint::Appendable), None);
}

#[test]
fn a_constructor_unifies_with_itself() {
    let mut inf = Infer::new();
    assert!(inf.unify(&con("Int"), &con("Int"), &(0..3)).is_ok());
    assert!(inf.unify(&con("Glyph"), &con("Glyph"), &(0..5)).is_ok());
}

#[test]
fn a_concrete_glyph_type_is_accepted_only_where_glyph_is_expected() {
    let mut inf = Infer::new();
    assert!(inf.unify(&con("Glyph"), &con("AptPackage"), &(0..1)).is_ok());
    assert!(inf.unify(&con("AptPackage"), &con("Glyph"), &(0..1)).is_err());
    assert!(inf.unify(&con("AptPackage"), &con("SystemdService"), &(0..1)).is_err());
}

#[test]
fn glyph_injection_reaches_inside_lists_and_functions() {
    let mut inf = Infer::new();
    assert!(inf.unify(&list(con("Glyph")), &list(con("LineInFile")), &(0..1)).is_ok());
    assert!(inf.unify(&list(con("LineInFile")), &list(con("Glyph")), &(0..1)).is_err());
    assert!(inf.unify(&fun(con("Int"), con("Glyph")), &fun(con("Int"), con("File")), &(0..1)).is_err());
    assert!(inf.unify(&fun(con("Int"), con("Glyph")), &fun(con("Int"), con("Filesystem")), &(0..1)).is_ok());
}
