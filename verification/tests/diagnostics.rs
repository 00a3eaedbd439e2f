use emet::parser::check_binding_name;
use emet::{parse_source, Error, Phase};

fn err(src: &str) -> Error {
    match parse_source(src) {
        Ok(_) => panic!("expected a parse error, but parsing succeeded"),
        Err(e) => e,
    }
}

#[test]
fn apt_package_missing_name_field() {
    let e = err(r#"main = [ aptPackage { unit = "u" } ]"#);
    assert_eq!(e.phase, Phase::Parse);
    assert!(e.msg.contains("`aptPackage` requires a `name` field"), "msg: {}", e.msg);
    assert_eq!(e.span, 9..19);
}

#[test]
fn systemd_service_missing_unit_field() {
    let e = err(r#"main = [ systemdService { name = "n" } ]"#);
    assert_eq!(e.phase, Phase::Parse);
    assert!(e.msg.contains("`systemdService` requires a `unit` field"), "msg: {}", e.msg);
    assert_eq!(e.span, 9..23);
}

#[test]
fn apt_package_unknown_field() {
    let e = err(r#"main = [ aptPackage { name = "n", foo = "x" } ]"#);
    assert_eq!(e.phase, Phase::Parse);
    assert!(e.msg.contains("unknown aptPackage field `foo`"), "msg: {}", e.msg);
    assert_eq!(e.span, 9..19);
}

#[test]
fn systemd_service_unknown_field() {
    let e = err(r#"main = [ systemdService { unit = "u", foo = "x" } ]"#);
    assert_eq!(e.phase, Phase::Parse);
    assert!(e.msg.contains("unknown systemdService field `foo`"), "msg: {}", e.msg);
    assert_eq!(e.span, 9..23);
}

#[test]
fn signature_name_mismatch() {
    let e = err("f : String\ng = f");
    assert_eq!(e.phase, Phase::Parse);
    assert!(e.msg.contains("signature names"), "msg: {}", e.msg);
    assert!(e.msg.contains("`f`"), "msg: {}", e.msg);
    assert!(e.msg.contains("`g`"), "msg: {}", e.msg);
}

#[test]
fn signature_with_no_binding() {
    let e = err(r#"f : String"#);
    assert_eq!(e.phase, Phase::Parse);
    assert!(e.msg.contains("no accompanying binding"), "msg: {}", e.msg);
}

#[test]
fn trailing_signature_with_no_binding() {
    let e = err("f : String\nf = \"a\"\ng : String");
    assert_eq!(e.phase, Phase::Parse);
    assert!(e.msg.contains("no accompanying binding"), "msg: {}", e.msg);
    assert!(e.msg.contains("`g`"), "msg: {}", e.msg);
}

#[test]
fn two_signatures_for_same_name() {
    let e = err("f : String\nf : String\nf = \"a\"");
    assert_eq!(e.phase, Phase::Parse);
    assert!(e.msg.contains("unused signature"), "msg: {}", e.msg);
}

#[test]
fn binding_a_reserved_word_is_rejected() {
    let e = err("keep n = n + 1\n\nmain = [ ]");
    assert_eq!(e.phase, Phase::Parse);
    assert!(e.msg.contains("`keep`"), "should name the word: {}", e.msg);
    assert!(e.msg.contains("reserved"), "should say reserved: {}", e.msg);
}

#[test]
fn braced_rollback_points_at_braceless_form() {
    let src = r#"main = [ scroll { name = "w", glyphs = [], policy = rollback { } } ]"#;
    let e = err(src);
    assert_eq!(e.phase, Phase::Parse);
    assert!(e.msg.contains("without braces"), "msg: {}", e.msg);
}

#[test]
fn a_name_that_is_no_constructor_word_may_be_bound() {
    assert!(check_binding_name("keeper", &(0..6)).is_ok());
}
