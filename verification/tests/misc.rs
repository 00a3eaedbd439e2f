use aes_siv::aead::{Aead, KeyInit};
use emet::ast::Span;
use emet::ir::Secret;
use emet::manifest::search_path_for;
use emet::names::NameMap;
use emet::query::{doc_comment_above_definition, smallest_covering};
use emet::ast::Expr;
use emet::resolve::{bare_name, owner_of, qualified_constructor_name, qualify_expr_constructors, ConstructorScope};
use emet::secrets::{seal, FleetKey, ResolvedSecret};

const KEY_HEX: &str = "000102030405060708090a0b0c0d0e0f101112131415161718191a1b1c1d1e1f202122232425262728292a2b2c2d2e2f303132333435363738393a3b3c3d3e3f";

#[test]
fn the_search_path_lists_each_directory_once_entry_first() {
    let sp = search_path_for(
        "/p/app".to_string(),
        Some(("/p".to_string(), vec!["lib".to_string(), "app".to_string(), "lib".to_string()])),
    );
    assert_eq!(sp.directories(), &["/p/app".to_string(), "/p/lib".to_string()]);
    let sp = search_path_for("/p/app".to_string(), None);
    assert_eq!(sp.directories(), &["/p/app".to_string()]);
}

#[test]
fn a_resolved_secret_describes_itself_by_key_only() {
    let s = ResolvedSecret::new("db/password".to_string(), "hunter2".to_string());
    assert_eq!(s.describe(), "<secret db/password>");
    assert!(!s.describe().contains("hunter2"));
}

#[test]
fn a_fleet_key_is_named_by_its_blake3_prefix() {
    let key = FleetKey::from_key_text("fleet.key", &format!("  {KEY_HEX}\n")).ok().unwrap();
    let bytes = hex::decode(KEY_HEX).unwrap();
    let digest = blake3::hash(&bytes);
    assert_eq!(key.key_id(), hex::encode(&digest.as_bytes()[..8]));
}

#[test]
fn a_malformed_key_is_rejected_with_its_path() {
    let err = FleetKey::from_key_text("k.txt", "abcd").err().unwrap();
    assert_eq!(err, "the fleet secret key k.txt must be 128 hexadecimal characters (a 64-byte AES-SIV key)");
    assert!(FleetKey::from_key_text("k.txt", &"zz".repeat(64)).is_err());
}

#[test]
fn sealing_encrypts_under_the_key_and_decrypts_back() {
    let key = FleetKey::from_key_text("fleet.key", KEY_HEX).ok().unwrap();
    let Secret::Sealed { key_id, ciphertext } = seal(Some(&key), "hunter2").ok().unwrap();
    assert_eq!(key_id, key.key_id());
    assert_ne!(ciphertext, b"hunter2".to_vec());
    let cipher = aes_siv::Aes256SivAead::new_from_slice(&hex::decode(KEY_HEX).unwrap()).unwrap();
    let plain = cipher.decrypt(&aes_siv::Nonce::default(), ciphertext.as_slice()).unwrap();
    assert_eq!(plain, b"hunter2".to_vec());
    let Secret::Sealed { ciphertext: again, .. } = seal(Some(&key), "hunter2").ok().unwrap();
    assert_eq!(again, ciphertext);
}

#[test]
fn sealing_without_a_key_fails() {
    let err = seal(None, "x").err().unwrap();
    assert_eq!(err, "no fleet secret key is loaded, so this value cannot be sealed");
}

#[test]
fn a_name_map_keeps_the_last_value_per_name() {
    let mut m: NameMap<u32> = NameMap::new();
    m.insert("b".to_string(), 1);
    m.insert("a".to_string(), 2);
    m.insert("b".to_string(), 3);
    assert_eq!(m.get("b"), Some(&3));
    assert_eq!(m.get("a"), Some(&2));
    assert!(!m.contains("c"));
}

#[test]
fn the_smallest_covering_span_wins() {
    let entries: Vec<(Span, &str)> = vec![(0..10, "outer"), (2..5, "inner"), (20..30, "far")];
    assert_eq!(smallest_covering(&entries, 3), Some(1));
    assert_eq!(smallest_covering(&entries, 7), Some(0));
    assert_eq!(smallest_covering(&entries, 15), None);
}

#[test]
fn doc_comments_above_a_signature_are_collected() {
    let src = "-- Greets.\n-- Politely.\ngreet : String\ngreet = \"hi\"\n";
    let at = src.find("greet =").unwrap();
    assert_eq!(doc_comment_above_definition(src, &(at..at + 5)), Some("Greets.\nPolitely.".to_string()));
    let plain = "x = 1\n";
    assert_eq!(doc_comment_above_definition(plain, &(0..1)), None);
}

#[test]
fn identities_split_at_the_last_dot() {
    assert_eq!(bare_name("Split.Database.Config"), "Config");
    assert_eq!(owner_of("Split.Database.Config"), "Split.Database");
    assert_eq!(bare_name("Config"), "Config");
    assert_eq!(qualified_constructor_name("Shapes", "Circle"), "Shapes.Circle");
}

#[test]
fn constructor_names_resolve_through_the_scope() {
    let mut aliases: NameMap<Vec<String>> = NameMap::new();
    aliases.insert("Circle".to_string(), vec!["Shapes.Circle".to_string()]);
    aliases.insert("Red".to_string(), vec!["A.Red".to_string(), "B.Red".to_string()]);
    let mut quals: NameMap<String> = NameMap::new();
    quals.insert("S".to_string(), "Shapes".to_string());
    let scope = ConstructorScope {
        aliases,
        modules_by_qualifier: quals,
        identities: vec!["Shapes.Circle".to_string()],
    };
    assert_eq!(scope.resolve("Circle", &(0..6)).ok().unwrap(), Some("Shapes.Circle".to_string()));
    assert_eq!(scope.resolve("S.Circle", &(0..8)).ok().unwrap(), Some("Shapes.Circle".to_string()));
    assert_eq!(scope.resolve("Other", &(0..5)).ok().unwrap(), None);
    let err = scope.resolve("S.Square", &(2..10)).err().unwrap();
    assert_eq!(err.msg, "`Shapes` has no constructor named `Square` in scope here");
    assert_eq!(err.span, 2..10);
    let err = scope.resolve("Red", &(0..3)).err().unwrap();
    assert!(err.msg.starts_with("`Red` is ambiguous here: "));
}

fn shapes_scope() -> ConstructorScope {
    let mut aliases: NameMap<Vec<String>> = NameMap::new();
    aliases.insert("Circle".to_string(), vec!["Shapes.Circle".to_string()]);
    aliases.insert("Red".to_string(), vec!["A.Red".to_string(), "B.Red".to_string()]);
    ConstructorScope { aliases, modules_by_qualifier: NameMap::new(), identities: vec!["Shapes.Circle".to_string()] }
}

#[test]
fn expression_constructors_are_qualified_inside_applications_and_lists() {
    let src = "main = [ f Circle, Nothing ]";
    let m = emet::parse_source(src).expect("parses");
    let q = qualify_expr_constructors(&m.decls[0].body, &shapes_scope()).ok().expect("resolves");
    let items = match &q.0 {
        Expr::List(items) => items,
        other => panic!("unexpected {other:?}"),
    };
    match &items[0].0 {
        Expr::App(_, x) => assert!(matches!(x.0, Expr::Ctor(ref n) if n == "Shapes.Circle")),
        other => panic!("unexpected {other:?}"),
    }
    assert!(matches!(items[1].0, Expr::Ctor(ref n) if n == "Nothing"));
    assert_eq!(q.1, m.decls[0].body.1);
}

#[test]
fn an_ambiguous_constructor_in_a_case_arm_is_an_error() {
    let src = "main = case x of\n  Red -> 1\n  _ -> 2";
    let m = emet::parse_source(src).expect("parses");
    let err = qualify_expr_constructors(&m.decls[0].body, &shapes_scope()).err().expect("ambiguous");
    assert!(err.msg.starts_with("`Red` is ambiguous here: "), "{}", err.msg);
}
