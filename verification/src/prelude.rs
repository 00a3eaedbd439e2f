//! The prelude: the built-in constructors and functions every module starts
//! with, as type schemes. `ty_env` seeds inference from the `ctors()` and
//! `builtins()` tables. The sum-type constructors `Just`/`Nothing`,
//! `True`/`False`, `LT`/`EQ`/`GT` live here; `Maybe`/`Bool`/`Order` are
//! ordinary types defined by their constructors. The match-only glyph and
//! `Entry` constructors are reachable only from `case` patterns.
use vstd::prelude::*;

use crate::ast::{tv, tvs, fvs, Constraint, Row, Scheme, SchemeV, Type, TypeV};
use crate::infer::TyEnv;
use crate::text::str_eq;

verus! {

// Sentinel type-variable ids for the polymorphic schemes below, at the top of
// the u32 space so they never collide with the ids inference mints upward.
pub const A: u32 = 4294967295u32;
pub const B: u32 = 4294967294u32;
pub const N: u32 = 4294967293u32;
pub const C: u32 = 4294967292u32;
pub const P: u32 = 4294967291u32;
pub const X: u32 = 4294967290u32;
pub const Y: u32 = 4294967289u32;

/// The synthetic name of the empty-list constructor, matched by `[]`.
pub const NIL: &'static str = "[]";
/// The synthetic name of the cons constructor, matched by `head :: tail`.
pub const CONS: &'static str = "::";

fn var(n: u32) -> (r: Type)
    ensures
        tv(r) == TypeV::Var(n, Constraint::Free),
{
    Type::Var(n, Constraint::Free)
}

fn number(n: u32) -> (r: Type)
    ensures
        tv(r) == TypeV::Var(n, Constraint::Number),
{
    Type::Var(n, Constraint::Number)
}

fn comparable(n: u32) -> (r: Type)
    ensures
        tv(r) == TypeV::Var(n, Constraint::Comparable),
{
    Type::Var(n, Constraint::Comparable)
}

fn appendable(n: u32) -> (r: Type)
    ensures
        tv(r) == TypeV::Var(n, Constraint::Appendable),
{
    Type::Var(n, Constraint::Appendable)
}

fn a() -> (r: Type)
    ensures
        tv(r) == TypeV::Var(A, Constraint::Free),
{
    var(A)
}

fn b() -> (r: Type)
    ensures
        tv(r) == TypeV::Var(B, Constraint::Free),
{
    var(B)
}

/// The applied constructor `name args`.
fn app(name: &str, args: Vec<Type>) -> (r: Type)
    ensures
        tv(r) == TypeV::Con(name@, tvs(args@)),
{
    Type::Con(name.to_string(), args)
}

fn one(t: Type) -> (r: Vec<Type>)
    ensures
        tvs(r@) == seq![tv(t)],
{
    let mut v = Vec::new();
    v.push(t);
    proof {
        assert(tvs(v@).len() == 1) by {
            crate::ast::lemma_tvs(v@);
        }
        crate::ast::lemma_tvs(v@);
        assert(tvs(v@) =~= seq![tv(t)]);
    }
    v
}

fn list(elem: Type) -> (r: Type)
    ensures
        tv(r) == TypeV::Con("List"@, seq![tv(elem)]),
{
    app("List", one(elem))
}

fn maybe(elem: Type) -> (r: Type)
    ensures
        tv(r) == TypeV::Con("Maybe"@, seq![tv(elem)]),
{
    app("Maybe", one(elem))
}

fn nullary(name: &str) -> (r: Type)
    ensures
        tv(r) == TypeV::Con(name@, Seq::empty()),
{
    crate::infer::con(name)
}

fn bool_ty() -> (r: Type)
    ensures
        tv(r) == TypeV::Con("Bool"@, Seq::empty()),
{
    nullary("Bool")
}

fn int_ty() -> (r: Type)
    ensures
        tv(r) == TypeV::Con("Int"@, Seq::empty()),
{
    nullary("Int")
}

fn float_ty() -> (r: Type)
    ensures
        tv(r) == TypeV::Con("Float"@, Seq::empty()),
{
    nullary("Float")
}

fn string() -> (r: Type)
    ensures
        tv(r) == TypeV::Con("String"@, Seq::empty()),
{
    nullary("String")
}

fn char() -> (r: Type)
    ensures
        tv(r) == TypeV::Con("Char"@, Seq::empty()),
{
    nullary("Char")
}

fn order() -> (r: Type)
    ensures
        tv(r) == TypeV::Con("Order"@, Seq::empty()),
{
    nullary("Order")
}

fn glyph() -> (r: Type)
    ensures
        tv(r) == TypeV::Con("Glyph"@, Seq::empty()),
{
    nullary("Glyph")
}

fn entry() -> (r: Type)
    ensures
        tv(r) == TypeV::Con("Entry"@, Seq::empty()),
{
    nullary("Entry")
}

fn fun(from: Type, to: Type) -> (r: Type)
    ensures
        tv(r) == TypeV::Fun(Box::new(tv(from)), Box::new(tv(to))),
{
    Type::Fun(Box::new(from), Box::new(to))
}

/// The 2-tuple type `(a, b)`.
fn pair(x: Type, y: Type) -> (r: Type)
    ensures
        tv(r) == TypeV::Tuple(seq![tv(x), tv(y)]),
{
    let mut v = Vec::new();
    v.push(x);
    v.push(y);
    proof {
        crate::ast::lemma_tvs(v@);
        assert(tvs(v@) =~= seq![tv(x), tv(y)]);
    }
    Type::Tuple(v)
}

/// A closed record of the given fields, which must be listed in name order.
fn record(fields: Vec<(String, Type)>) -> (r: Type)
    ensures
        tv(r) == TypeV::Record(fvs(fields@), Row::Closed),
{
    Type::Record(fields, Row::Closed)
}

fn field(name: &str, t: Type) -> (r: (String, Type))
    ensures
        r.0@ == name@,
        r.1 == t,
{
    (name.to_string(), t)
}

fn fields1(f1: (String, Type)) -> (r: Vec<(String, Type)>)
    ensures
        r@ == seq![f1],
        fvs(r@) == seq![(f1.0@, tv(f1.1))],
{
    let mut v = Vec::new();
    v.push(f1);
    proof {
        assert(v@ =~= seq![f1]);
        crate::ast::lemma_fvs(v@);
        assert(fvs(v@) =~= seq![(f1.0@, tv(f1.1))]);
    }
    v
}

fn fields2(f1: (String, Type), f2: (String, Type)) -> (r: Vec<(String, Type)>)
    ensures
        r@ == seq![f1, f2],
        fvs(r@) == seq![(f1.0@, tv(f1.1)), (f2.0@, tv(f2.1))],
{
    let mut v = Vec::new();
    v.push(f1);
    v.push(f2);
    proof {
        assert(v@ =~= seq![f1, f2]);
        crate::ast::lemma_fvs(v@);
        assert(fvs(v@) =~= seq![(f1.0@, tv(f1.1)), (f2.0@, tv(f2.1))]);
    }
    v
}

fn fields3(f1: (String, Type), f2: (String, Type), f3: (String, Type)) -> (r: Vec<(String, Type)>)
    ensures
        r@ == seq![f1, f2, f3],
{
    let mut v = Vec::new();
    v.push(f1);
    v.push(f2);
    v.push(f3);
    proof {
        assert(v@ =~= seq![f1, f2, f3]);
    }
    v
}

/// `{ group : Maybe String, mode : Int, owner : Maybe String }`.
fn perms() -> (r: Type)
    ensures
        tv(r) == TypeV::Record(
            seq![
                ("group"@, TypeV::Con("Maybe"@, seq![TypeV::Con("String"@, Seq::empty())])),
                ("mode"@, TypeV::Con("Int"@, Seq::empty())),
                ("owner"@, TypeV::Con("Maybe"@, seq![TypeV::Con("String"@, Seq::empty())])),
            ],
            Row::Closed,
        ),
{
    let fs = fields3(
        field("group", maybe(string())),
        field("mode", int_ty()),
        field("owner", maybe(string())),
    );
    proof {
        crate::ast::lemma_fvs(fs@);
        assert(fvs(fs@) =~= seq![
            ("group"@, TypeV::Con("Maybe"@, seq![TypeV::Con("String"@, Seq::empty())])),
            ("mode"@, TypeV::Con("Int"@, Seq::empty())),
            ("owner"@, TypeV::Con("Maybe"@, seq![TypeV::Con("String"@, Seq::empty())])),
        ]);
    }
    record(fs)
}

pub open spec fn constraint_for_spec(v: u32) -> Constraint {
    if v == N {
        Constraint::Number
    } else if v == C {
        Constraint::Comparable
    } else if v == P {
        Constraint::Appendable
    } else {
        Constraint::Free
    }
}

/// The bound carried by a sentinel var id: `N` is `number`, `C` is
/// `comparable`, `P` is `appendable`, everything else unconstrained.
pub fn constraint_for(v: u32) -> (r: Constraint)
    ensures
        r == constraint_for_spec(v),
{
    if v == N {
        Constraint::Number
    } else if v == C {
        Constraint::Comparable
    } else if v == P {
        Constraint::Appendable
    } else {
        Constraint::Free
    }
}

/// A scheme quantifying `vars`, each with its sentinel bound.
fn scheme(vars: &[u32], ty: Type) -> (r: Scheme)
    ensures
        r.ty == ty,
        r.row_vars@.len() == 0,
        r.vars@.len() == vars@.len(),
        forall|i: int| 0 <= i < vars@.len() ==> #[trigger] r.vars@[i] == (vars@[i], constraint_for_spec(vars@[i])),
{
    let mut out: Vec<(u32, Constraint)> = Vec::new();
    let mut i: usize = 0;
    while i < vars.len()
        invariant
            i <= vars@.len(),
            out@.len() == i,
            forall|j: int| 0 <= j < i ==> #[trigger] out@[j] == (vars@[j], constraint_for_spec(vars@[j])),
        decreases vars.len() - i,
    {
        out.push((vars[i], constraint_for(vars[i])));
        i = i + 1;
    }
    Scheme { vars: out, row_vars: Vec::new(), ty }
}

/// The name of the type a constructor's scheme produces: the final result of
/// its arrows, when that is an applied constructor.
pub open spec fn result_type_spec(t: TypeV) -> Option<Seq<char>>
    decreases t,
{
    match t {
        TypeV::Fun(_, to) => result_type_spec(*to),
        TypeV::Con(name, _) => Some(name),
        _ => None,
    }
}

/// The number of arrows in front of a constructor scheme's result.
pub open spec fn arity_spec(t: TypeV) -> nat
    decreases t,
{
    match t {
        TypeV::Fun(_, to) => 1 + arity_spec(*to),
        _ => 0,
    }
}

pub fn result_type_name(ty: &Type) -> (r: Option<String>)
    ensures
        r matches Some(s) ==> result_type_spec(tv(*ty)) == Some(s@),
        r is None ==> result_type_spec(tv(*ty)) is None,
    decreases ty,
{
    match ty {
        Type::Fun(_, to) => result_type_name(to),
        Type::Con(name, _) => Some(name.clone()),
        _ => None,
    }
}

/// A data constructor: name, arity, and scheme.
pub struct Ctor {
    pub name: &'static str,
    pub arity: usize,
    pub scheme: Scheme,
}

/// Name, arity and produced type of every prelude constructor, the
/// value-level sums first, then the match-only glyph and `Entry` ones.
pub open spec fn ctor_table() -> Seq<(Seq<char>, nat, Seq<char>)> {
    seq![
        ("Just"@, 1, "Maybe"@),
        ("Nothing"@, 0, "Maybe"@),
        ("True"@, 0, "Bool"@),
        ("False"@, 0, "Bool"@),
        ("LT"@, 0, "Order"@),
        ("EQ"@, 0, "Order"@),
        ("GT"@, 0, "Order"@),
        ("AptPackage"@, 1, "Glyph"@),
        ("SystemdService"@, 1, "Glyph"@),
        ("Filesystem"@, 1, "Glyph"@),
        ("LineInFile"@, 1, "Glyph"@),
        ("File"@, 1, "Entry"@),
        ("Directory"@, 1, "Entry"@),
        ("Symlink"@, 1, "Entry"@)
    ]
}

pub open spec fn ctor_ok(c: Ctor, row: (Seq<char>, nat, Seq<char>)) -> bool {
    &&& c.name@ == row.0
    &&& c.arity == row.1
    &&& arity_spec(tv(c.scheme.ty)) == row.1
    &&& result_type_spec(tv(c.scheme.ty)) == Some(row.2)
}


/// The record type of the given fields, closed.
pub open spec fn srec(fs: Seq<(Seq<char>, TypeV)>) -> TypeV {
    TypeV::Record(fs, Row::Closed)
}

/// The permissions record a filesystem entry carries.
pub open spec fn sperms() -> TypeV {
    srec(
        seq![
            ("group"@, smaybe(scon("String"@))),
            ("mode"@, scon("Int"@)),
            ("owner"@, smaybe(scon("String"@))),
        ],
    )
}

/// The quantified variables and type of each prelude constructor, in
/// `ctor_table` order.
pub open spec fn ctor_schemes() -> Seq<(Seq<u32>, TypeV)> {
    seq![
        (seq![A], sfun(sa(), smaybe(sa()))),
        (seq![A], smaybe(sa())),
        (Seq::empty(), scon("Bool"@)),
        (Seq::empty(), scon("Bool"@)),
        (Seq::empty(), scon("Order"@)),
        (Seq::empty(), scon("Order"@)),
        (Seq::empty(), scon("Order"@)),
        (Seq::empty(), sfun(srec(seq![("name"@, scon("String"@))]), scon("Glyph"@))),
        (Seq::empty(), sfun(srec(seq![("unit"@, scon("String"@))]), scon("Glyph"@))),
        (Seq::empty(), sfun(srec(seq![("entry"@, scon("Entry"@)), ("path"@, scon("String"@))]), scon("Glyph"@))),
        (Seq::empty(), sfun(srec(seq![("line"@, scon("String"@)), ("path"@, scon("String"@))]), scon("Glyph"@))),
        (Seq::empty(), sfun(srec(seq![("contents"@, scon("String"@)), ("perms"@, sperms())]), scon("Entry"@))),
        (Seq::empty(), sfun(srec(seq![("perms"@, sperms())]), scon("Entry"@))),
        (Seq::empty(), sfun(srec(seq![("target"@, scon("String"@))]), scon("Entry"@)))
    ]
}

/// `s` quantifies exactly `vars` (each with its sentinel bound), no row
/// variable, over the type `ty`.
pub open spec fn scheme_is(s: Scheme, vars: Seq<u32>, ty: TypeV) -> bool {
    &&& s.vars@.len() == vars.len()
    &&& forall|j: int| 0 <= j < vars.len() ==> #[trigger] s.vars@[j] == (vars[j], constraint_for_spec(vars[j]))
    &&& s.row_vars@.len() == 0
    &&& tv(s.ty) == ty
}

/// `c` has the scheme of row `i` of `ctor_schemes`.
pub open spec fn ctor_exact(c: Ctor, i: int) -> bool {
    scheme_is(c.scheme, ctor_schemes()[i].0, ctor_schemes()[i].1)
}

/// The value-level sum constructors (the first seven rows of `ctor_table`).
fn ctors() -> (r: Vec<Ctor>)
    ensures
        r@.len() == 7,
        forall|i: int| 0 <= i < 7 ==> ctor_ok(#[trigger] r@[i], ctor_table()[i]),
        forall|i: int| 0 <= i < 7 ==> ctor_exact(#[trigger] r@[i], i),
{
    let mut v: Vec<Ctor> = Vec::new();
    v.push(Ctor { name: "Just", arity: 1, scheme: scheme(&[A], fun(a(), maybe(a()))) });
    v.push(Ctor { name: "Nothing", arity: 0, scheme: scheme(&[A], maybe(a())) });
    v.push(Ctor { name: "True", arity: 0, scheme: scheme(&[], bool_ty()) });
    v.push(Ctor { name: "False", arity: 0, scheme: scheme(&[], bool_ty()) });
    v.push(Ctor { name: "LT", arity: 0, scheme: scheme(&[], order()) });
    v.push(Ctor { name: "EQ", arity: 0, scheme: scheme(&[], order()) });
    v.push(Ctor { name: "GT", arity: 0, scheme: scheme(&[], order()) });
    proof {
        reveal_with_fuel(arity_spec, 2);
        reveal_with_fuel(result_type_spec, 2);
        assert(ctor_ok(v@[0], ctor_table()[0]));
        assert(ctor_ok(v@[1], ctor_table()[1]));
        assert(ctor_ok(v@[2], ctor_table()[2]));
        assert(ctor_ok(v@[3], ctor_table()[3]));
        assert(ctor_ok(v@[4], ctor_table()[4]));
        assert(ctor_ok(v@[5], ctor_table()[5]));
        assert(ctor_ok(v@[6], ctor_table()[6]));
        assert(ctor_exact(v@[0], 0));
        assert(ctor_exact(v@[1], 1));
        assert(ctor_exact(v@[2], 2));
        assert(ctor_exact(v@[3], 3));
        assert(ctor_exact(v@[4], 4));
        assert(ctor_exact(v@[5], 5));
        assert(ctor_exact(v@[6], 6));
    }
    v
}

/// The match-only glyph and `Entry` constructors (the last seven rows of
/// `ctor_table`): each takes the field record a match sees.
fn glyph_ctors() -> (r: Vec<Ctor>)
    ensures
        r@.len() == 7,
        forall|i: int| 0 <= i < 7 ==> ctor_ok(#[trigger] r@[i], ctor_table()[i + 7]),
        forall|i: int| 0 <= i < 7 ==> ctor_exact(#[trigger] r@[i], i + 7),
{
    let mut v: Vec<Ctor> = Vec::new();
    v.push(
        Ctor {
            name: "AptPackage",
            arity: 1,
            scheme: scheme(&[], fun(record(fields1(field("name", string()))), glyph())),
        },
    );
    v.push(
        Ctor {
            name: "SystemdService",
            arity: 1,
            scheme: scheme(&[], fun(record(fields1(field("unit", string()))), glyph())),
        },
    );
    v.push(
        Ctor {
            name: "Filesystem",
            arity: 1,
            scheme: scheme(
                &[],
                fun(record(fields2(field("entry", entry()), field("path", string()))), glyph()),
            ),
        },
    );
    v.push(
        Ctor {
            name: "LineInFile",
            arity: 1,
            scheme: scheme(
                &[],
                fun(record(fields2(field("line", string()), field("path", string()))), glyph()),
            ),
        },
    );
    v.push(
        Ctor {
            name: "File",
            arity: 1,
            scheme: scheme(
                &[],
                fun(record(fields2(field("contents", string()), field("perms", perms()))), entry()),
            ),
        },
    );
    v.push(
        Ctor {
            name: "Directory",
            arity: 1,
            scheme: scheme(&[], fun(record(fields1(field("perms", perms()))), entry())),
        },
    );
    v.push(
        Ctor {
            name: "Symlink",
            arity: 1,
            scheme: scheme(&[], fun(record(fields1(field("target", string()))), entry())),
        },
    );
    proof {
        reveal_with_fuel(arity_spec, 2);
        reveal_with_fuel(result_type_spec, 2);
        assert(ctor_ok(v@[0], ctor_table()[7]));
        assert(ctor_ok(v@[1], ctor_table()[8]));
        assert(ctor_ok(v@[2], ctor_table()[9]));
        assert(ctor_ok(v@[3], ctor_table()[10]));
        assert(ctor_ok(v@[4], ctor_table()[11]));
        assert(ctor_ok(v@[5], ctor_table()[12]));
        assert(ctor_ok(v@[6], ctor_table()[13]));
        assert(ctor_exact(v@[0], 7));
        assert(ctor_exact(v@[1], 8));
        assert(ctor_exact(v@[2], 9));
        assert(ctor_exact(v@[3], 10));
        assert(ctor_exact(v@[4], 11));
        assert(ctor_exact(v@[5], 12));
        assert(ctor_exact(v@[6], 13));
    }
    v
}

/// Every prelude constructor, in `ctor_table` order.
fn all_ctors() -> (r: Vec<Ctor>)
    ensures
        r@.len() == 14,
        forall|i: int| 0 <= i < 14 ==> ctor_ok(#[trigger] r@[i], ctor_table()[i]),
        forall|i: int| 0 <= i < 14 ==> ctor_exact(#[trigger] r@[i], i),
{
    let mut v = ctors();
    let mut g = glyph_ctors();
    let ghost v0 = v@;
    let ghost g0 = g@;
    v.append(&mut g);
    proof {
        assert forall|i: int| 0 <= i < 14 implies ctor_ok(#[trigger] v@[i], ctor_table()[i]) by {
            if i < 7 {
                assert(v@[i] == v0[i]);
            } else {
                assert(v@[i] == g0[i - 7]);
            }
        }
        assert forall|i: int| 0 <= i < 14 implies ctor_exact(#[trigger] v@[i], i) by {
            if i < 7 {
                assert(v@[i] == v0[i]);
            } else {
                assert(v@[i] == g0[i - 7]);
            }
        }
    }
    v
}

/// The row of `ctor_table` naming `name`, if any.
pub open spec fn ctor_row(name: Seq<char>) -> Option<(Seq<char>, nat, Seq<char>)> {
    if exists|i: int| 0 <= i < 14 && (#[trigger] ctor_table()[i]).0 == name {
        Some(ctor_table()[choose|i: int| 0 <= i < 14 && (#[trigger] ctor_table()[i]).0 == name])
    } else {
        None
    }
}

/// The type scheme of a data constructor, for pattern inference: the prelude
/// sum and glyph constructors, plus the two synthetic list constructors
/// `[]` (`∀a. List a`) and `::` (`∀a. a -> List a -> List a`).
pub fn constructor_scheme(name: &str) -> (r: Option<Scheme>)
    ensures
        name@ == NIL@ ==> (r matches Some(s) && tv(s.ty) == TypeV::Con("List"@, seq![TypeV::Var(A, Constraint::Free)]) && s.vars@ == seq![(A, Constraint::Free)]),
        name@ == CONS@ ==> (r matches Some(s) && arity_spec(tv(s.ty)) == 2 && result_type_spec(tv(s.ty)) == Some("List"@)),
        name@ == CONS@ ==> (r matches Some(s) && scheme_is(s, seq![A], sfun(sa(), sfun(slist(sa()), slist(sa()))))),
        name@ == NIL@ ==> (r matches Some(s) && scheme_is(s, seq![A], slist(sa()))),
        forall|i: int| 0 <= i < 14 && (#[trigger] ctor_table()[i]).0 == name@ ==> (r matches Some(s) && scheme_is(
            s,
            ctor_schemes()[i].0,
            ctor_schemes()[i].1,
        )),
        name@ != NIL@ && name@ != CONS@ ==> (r is Some <==> ctor_row(name@) is Some),
        name@ != NIL@ && name@ != CONS@ ==> (r matches Some(s) ==> arity_spec(tv(s.ty)) == ctor_row(name@).unwrap().1 && result_type_spec(tv(s.ty)) == Some(ctor_row(name@).unwrap().2)),
{
    proof {
        reveal_strlit("[]");
        reveal_strlit("::");
        reveal_with_fuel(arity_spec, 3);
        reveal_with_fuel(result_type_spec, 3);
        assert(NIL@ == "[]"@);
        assert(CONS@ == "::"@);
        assert(NIL@[0] != CONS@[0]);
    }
    proof {
        lemma_ctor_names_not_list();
    }
    if str_eq(name, NIL) {
        let s = scheme(&[A], list(var(A)));
        proof {
            assert(s.vars@ =~= seq![(A, Constraint::Free)]);
        }
        return Some(s);
    }
    if str_eq(name, CONS) {
        let s = scheme(&[A], fun(var(A), fun(list(var(A)), list(var(A)))));
        return Some(s);
    }
    let all = all_ctors();
    let mut i: usize = 0;
    let mut found: Option<usize> = None;
    while i < all.len()
        invariant
            all@.len() == 14,
            i <= 14,
            forall|j: int| 0 <= j < 14 ==> ctor_ok(#[trigger] all@[j], ctor_table()[j]),
            forall|j: int| 0 <= j < 14 ==> ctor_exact(#[trigger] all@[j], j),
            name@ != NIL@ && name@ != CONS@,
            found is None ==> forall|j: int| 0 <= j < i ==> (#[trigger] ctor_table()[j]).0 != name@,
            found matches Some(k) ==> k < 14 && ctor_table()[k as int].0 == name@,
        decreases 14 - i,
    {
        if found.is_none() && str_eq(all[i].name, name) {
            proof {
                assert(ctor_ok(all@[i as int], ctor_table()[i as int]));
            }
            found = Some(i);
        }
        i = i + 1;
    }
    proof {
        lemma_ctor_names_distinct();
    }
    match found {
        None => None,
        Some(k) => {
            let mut all = all;
            let c = all.swap_remove(k);
            proof {
                assert(ctor_ok(c, ctor_table()[k as int]));
                assert(ctor_exact(c, k as int));
                assert(ctor_row(name@) == Some(ctor_table()[k as int]));
            }
            Some(c.scheme)
        },
    }
}

/// No built-in is named like a match-only glyph or `Entry` tag.
proof fn lemma_glyph_tags_unbound()
    ensures
        forall|i: int, j: int| 0 <= i < 106 && 7 <= j < 14 ==> (#[trigger] builtin_row(i)).0 != (#[trigger] ctor_table()[j]).0,
{
    reveal_strlit("List.map");
    reveal_strlit("List.foldr");
    reveal_strlit("List.foldl");
    reveal_strlit("List.concat");
    reveal_strlit("List.concatMap");
    reveal_strlit("List.append");
    reveal_strlit("cons");
    reveal_strlit("List.filter");
    reveal_strlit("List.isEmpty");
    reveal_strlit("Maybe.map");
    reveal_strlit("Maybe.withDefault");
    reveal_strlit("Maybe.andThen");
    reveal_strlit("List.length");
    reveal_strlit("List.range");
    reveal_strlit("List.sum");
    reveal_strlit("Tuple.pair");
    reveal_strlit("Tuple.first");
    reveal_strlit("Tuple.second");
    reveal_strlit("Tuple.mapFirst");
    reveal_strlit("Tuple.mapSecond");
    reveal_strlit("Tuple.mapBoth");
    reveal_strlit("String.uncons");
    reveal_strlit("String.append");
    reveal_strlit("append");
    reveal_strlit("String.concat");
    reveal_strlit("String.join");
    reveal_strlit("String.length");
    reveal_strlit("String.fromInt");
    reveal_strlit("String.fromFloat");
    reveal_strlit("String.toInt");
    reveal_strlit("String.toFloat");
    reveal_strlit("Char.toCode");
    reveal_strlit("Char.fromCode");
    reveal_strlit("Char.toUpper");
    reveal_strlit("Char.toLower");
    reveal_strlit("Char.isUpper");
    reveal_strlit("Char.isLower");
    reveal_strlit("Char.isAlpha");
    reveal_strlit("Char.isAlphaNum");
    reveal_strlit("Char.isDigit");
    reveal_strlit("Char.isOctDigit");
    reveal_strlit("Char.isHexDigit");
    reveal_strlit("Char.isSpace");
    reveal_strlit("String.isEmpty");
    reveal_strlit("String.reverse");
    reveal_strlit("String.repeat");
    reveal_strlit("String.replace");
    reveal_strlit("String.split");
    reveal_strlit("String.words");
    reveal_strlit("String.lines");
    reveal_strlit("String.slice");
    reveal_strlit("String.left");
    reveal_strlit("String.right");
    reveal_strlit("String.dropLeft");
    reveal_strlit("String.dropRight");
    reveal_strlit("String.contains");
    reveal_strlit("String.startsWith");
    reveal_strlit("String.endsWith");
    reveal_strlit("String.indexes");
    reveal_strlit("String.indices");
    reveal_strlit("String.toList");
    reveal_strlit("String.fromList");
    reveal_strlit("String.fromChar");
    reveal_strlit("String.cons");
    reveal_strlit("String.toUpper");
    reveal_strlit("String.toLower");
    reveal_strlit("String.trim");
    reveal_strlit("String.trimLeft");
    reveal_strlit("String.trimRight");
    reveal_strlit("String.pad");
    reveal_strlit("String.padLeft");
    reveal_strlit("String.padRight");
    reveal_strlit("String.map");
    reveal_strlit("String.filter");
    reveal_strlit("String.foldl");
    reveal_strlit("String.foldr");
    reveal_strlit("String.any");
    reveal_strlit("String.all");
    reveal_strlit("toFloat");
    reveal_strlit("round");
    reveal_strlit("floor");
    reveal_strlit("ceiling");
    reveal_strlit("truncate");
    reveal_strlit("negate");
    reveal_strlit("abs");
    reveal_strlit("clamp");
    reveal_strlit("modBy");
    reveal_strlit("remainderBy");
    reveal_strlit("min");
    reveal_strlit("max");
    reveal_strlit("compare");
    reveal_strlit("not");
    reveal_strlit("add");
    reveal_strlit("sub");
    reveal_strlit("mul");
    reveal_strlit("pow");
    reveal_strlit("fdiv");
    reveal_strlit("idiv");
    reveal_strlit("lt");
    reveal_strlit("gt");
    reveal_strlit("le");
    reveal_strlit("ge");
    reveal_strlit("eq");
    reveal_strlit("neq");
    reveal_strlit("and");
    reveal_strlit("or");
    reveal_strlit("AptPackage");
    reveal_strlit("SystemdService");
    reveal_strlit("Filesystem");
    reveal_strlit("LineInFile");
    reveal_strlit("File");
    reveal_strlit("Directory");
    reveal_strlit("Symlink");
    assert forall|i: int, j: int| 0 <= i < 106 && 7 <= j < 14 implies (#[trigger] builtin_row(i)).0 != (#[trigger] ctor_table()[j]).0 by {
        let n = builtin_row(i).0;
        let t = ctor_table()[j].0;
        assert(n.len() != t.len() || n[0] != t[0] || n[1] != t[1] || n[2] != t[2] || n[3] != t[3]);
    }
}

/// No row of `ctor_table` is one of the two list constructors.
proof fn lemma_ctor_names_not_list()
    ensures
        forall|i: int| 0 <= i < 14 ==> (#[trigger] ctor_table()[i]).0 != NIL@ && ctor_table()[i].0 != CONS@,
{
    reveal_strlit("[]");
    reveal_strlit("::");
    reveal_strlit("Just");
    reveal_strlit("Nothing");
    reveal_strlit("True");
    reveal_strlit("False");
    reveal_strlit("LT");
    reveal_strlit("EQ");
    reveal_strlit("GT");
    reveal_strlit("AptPackage");
    reveal_strlit("SystemdService");
    reveal_strlit("Filesystem");
    reveal_strlit("LineInFile");
    reveal_strlit("File");
    reveal_strlit("Directory");
    reveal_strlit("Symlink");
    assert(NIL@ == "[]"@);
    assert(CONS@ == "::"@);
    assert forall|i: int| 0 <= i < 14 implies (#[trigger] ctor_table()[i]).0 != NIL@ && ctor_table()[i].0 != CONS@ by {
        let t = ctor_table();
        assert(t[i].0[0] != NIL@[0]);
        assert(t[i].0[0] != CONS@[0]);
    }
}

/// No two rows of `ctor_table` share a name.
proof fn lemma_ctor_names_distinct()
    ensures
        forall|i: int, j: int| 0 <= i < 14 && 0 <= j < 14 && i != j ==> (#[trigger] ctor_table()[i]).0 != (#[trigger] ctor_table()[j]).0,
{
    reveal_strlit("Just");
    reveal_strlit("Nothing");
    reveal_strlit("True");
    reveal_strlit("False");
    reveal_strlit("LT");
    reveal_strlit("EQ");
    reveal_strlit("GT");
    reveal_strlit("AptPackage");
    reveal_strlit("SystemdService");
    reveal_strlit("Filesystem");
    reveal_strlit("LineInFile");
    reveal_strlit("File");
    reveal_strlit("Directory");
    reveal_strlit("Symlink");
    assert forall|i: int, j: int| 0 <= i < 14 && 0 <= j < 14 && i != j implies (#[trigger] ctor_table()[i]).0 != (#[trigger] ctor_table()[j]).0 by {
        let t = ctor_table();
        assert(t[i].0.len() != t[j].0.len() || t[i].0[0] != t[j].0[0]);
    }
}

/// Whether a constructor row produces the type `sum_name`.
pub open spec fn produces(sum_name: Seq<char>) -> spec_fn((Seq<char>, nat, Seq<char>)) -> bool {
    |row: (Seq<char>, nat, Seq<char>)| row.2 == sum_name
}

/// A constructor row's name and arity.
pub open spec fn name_and_arity() -> spec_fn((Seq<char>, nat, Seq<char>)) -> (Seq<char>, nat) {
    |row: (Seq<char>, nat, Seq<char>)| (row.0, row.1)
}

/// The constructors of the sum type `sum_name`, each with its arity.
pub open spec fn members_spec(sum_name: Seq<char>) -> Seq<(Seq<char>, nat)> {
    ctor_table().filter(produces(sum_name)).map_values(name_and_arity())
}

/// The constructors (name + arity) of a sum type, by result-type name — the
/// complete signature the exhaustiveness checker needs. `List` is the
/// two-constructor sum `[]`/`::`; `None` when no constructor produces the
/// type (e.g. `String`).
pub fn sum_type_constructors(sum_name: &str) -> (r: Option<Vec<(String, usize)>>)
    ensures
        sum_name@ == "List"@ ==> (r matches Some(v) && v@.len() == 2 && v@[0].0@ == NIL@ && v@[0].1 == 0 && v@[1].0@ == CONS@ && v@[1].1 == 2),
        sum_name@ != "List"@ ==> (r is None <==> members_spec(sum_name@).len() == 0),
        sum_name@ != "List"@ ==> (r matches Some(v) ==> v@.map_values(|m: (String, usize)| (m.0@, m.1 as nat)) == members_spec(sum_name@)),
{
    if str_eq(sum_name, "List") {
        let mut v: Vec<(String, usize)> = Vec::new();
        v.push((NIL.to_string(), 0));
        v.push((CONS.to_string(), 2));
        return Some(v);
    }
    let all = all_ctors();
    let mut members: Vec<(String, usize)> = Vec::new();
    let mut i: usize = 0;
    while i < all.len()
        invariant
            all@.len() == 14,
            i <= 14,
            forall|j: int| 0 <= j < 14 ==> ctor_ok(#[trigger] all@[j], ctor_table()[j]),
            members@.map_values(|m: (String, usize)| (m.0@, m.1 as nat)) == ctor_table().subrange(0, i as int).filter(produces(sum_name@)).map_values(name_and_arity()),
        decreases 14 - i,
    {
        let produced = result_type_name(&all[i].scheme.ty);
        let ghost pre = ctor_table().subrange(0, i as int);
        let ghost row = ctor_table()[i as int];
        proof {
            assert(ctor_ok(all@[i as int], row));
            assert(ctor_table().subrange(0, i + 1) =~= pre.push(row));
            let f = produces(sum_name@);
            reveal_with_fuel(Seq::filter, 1);
            assert(pre.push(row).filter(f) == if f(row) { pre.filter(f).push(row) } else { pre.filter(f) }) by {
                assert(pre.push(row).drop_last() =~= pre);
            }
        }
        let matches = match &produced {
            Some(n) => str_eq(n.as_str(), sum_name),
            None => false,
        };
        if matches {
            let ghost before = members@;
            members.push((all[i].name.to_string(), all[i].arity));
            proof {
                assert(members@.map_values(|m: (String, usize)| (m.0@, m.1 as nat)) =~= before.map_values(|m: (String, usize)| (m.0@, m.1 as nat)).push((row.0, row.1)));
            }
        }
        i = i + 1;
    }
    proof {
        assert(ctor_table().subrange(0, 14) =~= ctor_table());
    }
    if members.len() == 0 {
        None
    } else {
        Some(members)
    }
}

/// Every constructor a sum type lists has a scheme producing that type with
/// the listed number of arguments: the two registries agree.
pub proof fn law_signature_members_have_schemes(sum_name: Seq<char>, k: int)
    requires
        0 <= k < members_spec(sum_name).len(),
    ensures
        ctor_row(members_spec(sum_name)[k].0) matches Some(row) && row.1 == members_spec(sum_name)[k].1 && row.2 == sum_name,
{
    let f = produces(sum_name);
    let filtered = ctor_table().filter(f);
    lemma_ctor_names_distinct();
    assert(members_spec(sum_name).len() == filtered.len());
    let m = filtered[k];
    assert(filtered[k] == m);
    ctor_table().lemma_filter_contains_rev(f, m);
    assert(filtered.contains(m));
    let i = choose|i: int| 0 <= i < ctor_table().len() && ctor_table()[i] == m;
    assert(ctor_table()[i].0 == m.0);
    assert(ctor_row(m.0) == Some(ctor_table()[i]));
}

/// A built-in function: its name, arity, and type scheme.
pub struct Builtin {
    pub name: &'static str,
    pub arity: usize,
    pub scheme: Scheme,
}


// The type language of the tables below, on type views.

pub open spec fn svar(n: u32) -> TypeV {
    TypeV::Var(n, Constraint::Free)
}

pub open spec fn snum(n: u32) -> TypeV {
    TypeV::Var(n, Constraint::Number)
}

pub open spec fn scmp(n: u32) -> TypeV {
    TypeV::Var(n, Constraint::Comparable)
}

pub open spec fn sapd(n: u32) -> TypeV {
    TypeV::Var(n, Constraint::Appendable)
}

pub open spec fn sa() -> TypeV {
    svar(A)
}

pub open spec fn sb() -> TypeV {
    svar(B)
}

pub open spec fn scon(name: Seq<char>) -> TypeV {
    TypeV::Con(name, Seq::empty())
}

pub open spec fn slist(t: TypeV) -> TypeV {
    TypeV::Con("List"@, seq![t])
}

pub open spec fn smaybe(t: TypeV) -> TypeV {
    TypeV::Con("Maybe"@, seq![t])
}

pub open spec fn sfun(a: TypeV, b: TypeV) -> TypeV {
    TypeV::Fun(Box::new(a), Box::new(b))
}

pub open spec fn spair(a: TypeV, b: TypeV) -> TypeV {
    TypeV::Tuple(seq![a, b])
}

/// Rows 0.. of the built-in table: name, arity, quantified variables, type.
pub open spec fn builtin_rows_0() -> Seq<(Seq<char>, nat, Seq<u32>, TypeV)> {
    seq![
        ("List.map"@, 2, seq![A, B], sfun(sfun(sa(), sb()), sfun(slist(sa()), slist(sb())))),
        ("List.foldr"@, 3, seq![A, B], sfun(sfun(sa(), sfun(sb(), sb())), sfun(sb(), sfun(slist(sa()), sb())))),
        ("List.foldl"@, 3, seq![A, B], sfun(sfun(sa(), sfun(sb(), sb())), sfun(sb(), sfun(slist(sa()), sb())))),
        ("List.concat"@, 1, seq![A], sfun(slist(slist(sa())), slist(sa()))),
        ("List.concatMap"@, 2, seq![A, B], sfun(sfun(sa(), slist(sb())), sfun(slist(sa()), slist(sb())))),
        ("List.append"@, 2, seq![A], sfun(slist(sa()), sfun(slist(sa()), slist(sa())))),
        ("cons"@, 2, seq![A], sfun(sa(), sfun(slist(sa()), slist(sa())))),
        ("List.filter"@, 2, seq![A], sfun(sfun(sa(), scon("Bool"@)), sfun(slist(sa()), slist(sa())))),
        ("List.isEmpty"@, 1, seq![A], sfun(slist(sa()), scon("Bool"@))),
        ("Maybe.map"@, 2, seq![A, B], sfun(sfun(sa(), sb()), sfun(smaybe(sa()), smaybe(sb())))),
        ("Maybe.withDefault"@, 2, seq![A], sfun(sa(), sfun(smaybe(sa()), sa()))),
        ("Maybe.andThen"@, 2, seq![A, B], sfun(sfun(sa(), smaybe(sb())), sfun(smaybe(sa()), smaybe(sb()))))
    ]
}

/// Rows 12.. of the built-in table: name, arity, quantified variables, type.
pub open spec fn builtin_rows_1() -> Seq<(Seq<char>, nat, Seq<u32>, TypeV)> {
    seq![
        ("List.length"@, 1, seq![A], sfun(slist(sa()), scon("Int"@))),
        ("List.range"@, 2, Seq::<u32>::empty(), sfun(scon("Int"@), sfun(scon("Int"@), slist(scon("Int"@))))),
        ("List.sum"@, 1, seq![N], sfun(slist(snum(N)), snum(N))),
        ("Tuple.pair"@, 2, seq![A, B], sfun(sa(), sfun(sb(), spair(sa(), sb())))),
        ("Tuple.first"@, 1, seq![A, B], sfun(spair(sa(), sb()), sa())),
        ("Tuple.second"@, 1, seq![A, B], sfun(spair(sa(), sb()), sb())),
        ("Tuple.mapFirst"@, 2, seq![A, B, X], sfun(sfun(sa(), svar(X)), sfun(spair(sa(), sb()), spair(svar(X), sb())))),
        ("Tuple.mapSecond"@, 2, seq![A, B, Y], sfun(sfun(sb(), svar(Y)), sfun(spair(sa(), sb()), spair(sa(), svar(Y))))),
        ("Tuple.mapBoth"@, 3, seq![A, B, X, Y], sfun(sfun(sa(), svar(X)), sfun(sfun(sb(), svar(Y)), sfun(spair(sa(), sb()), spair(svar(X), svar(Y)))))),
        ("String.uncons"@, 1, Seq::<u32>::empty(), sfun(scon("String"@), smaybe(spair(scon("Char"@), scon("String"@))))),
        ("String.append"@, 2, Seq::<u32>::empty(), sfun(scon("String"@), sfun(scon("String"@), scon("String"@)))),
        ("append"@, 2, seq![P], sfun(sapd(P), sfun(sapd(P), sapd(P))))
    ]
}

/// Rows 24.. of the built-in table: name, arity, quantified variables, type.
pub open spec fn builtin_rows_2() -> Seq<(Seq<char>, nat, Seq<u32>, TypeV)> {
    seq![
        ("String.concat"@, 1, Seq::<u32>::empty(), sfun(slist(scon("String"@)), scon("String"@))),
        ("String.join"@, 2, Seq::<u32>::empty(), sfun(scon("String"@), sfun(slist(scon("String"@)), scon("String"@)))),
        ("String.length"@, 1, Seq::<u32>::empty(), sfun(scon("String"@), scon("Int"@))),
        ("String.fromInt"@, 1, Seq::<u32>::empty(), sfun(scon("Int"@), scon("String"@))),
        ("String.fromFloat"@, 1, Seq::<u32>::empty(), sfun(scon("Float"@), scon("String"@))),
        ("String.toInt"@, 1, Seq::<u32>::empty(), sfun(scon("String"@), smaybe(scon("Int"@)))),
        ("String.toFloat"@, 1, Seq::<u32>::empty(), sfun(scon("String"@), smaybe(scon("Float"@)))),
        ("Char.toCode"@, 1, Seq::<u32>::empty(), sfun(scon("Char"@), scon("Int"@))),
        ("Char.fromCode"@, 1, Seq::<u32>::empty(), sfun(scon("Int"@), scon("Char"@))),
        ("Char.toUpper"@, 1, Seq::<u32>::empty(), sfun(scon("Char"@), scon("Char"@))),
        ("Char.toLower"@, 1, Seq::<u32>::empty(), sfun(scon("Char"@), scon("Char"@))),
        ("Char.isUpper"@, 1, Seq::<u32>::empty(), sfun(scon("Char"@), scon("Bool"@)))
    ]
}

/// Rows 36.. of the built-in table: name, arity, quantified variables, type.
pub open spec fn builtin_rows_3() -> Seq<(Seq<char>, nat, Seq<u32>, TypeV)> {
    seq![
        ("Char.isLower"@, 1, Seq::<u32>::empty(), sfun(scon("Char"@), scon("Bool"@))),
        ("Char.isAlpha"@, 1, Seq::<u32>::empty(), sfun(scon("Char"@), scon("Bool"@))),
        ("Char.isAlphaNum"@, 1, Seq::<u32>::empty(), sfun(scon("Char"@), scon("Bool"@))),
        ("Char.isDigit"@, 1, Seq::<u32>::empty(), sfun(scon("Char"@), scon("Bool"@))),
        ("Char.isOctDigit"@, 1, Seq::<u32>::empty(), sfun(scon("Char"@), scon("Bool"@))),
        ("Char.isHexDigit"@, 1, Seq::<u32>::empty(), sfun(scon("Char"@), scon("Bool"@))),
        ("Char.isSpace"@, 1, Seq::<u32>::empty(), sfun(scon("Char"@), scon("Bool"@))),
        ("String.isEmpty"@, 1, Seq::<u32>::empty(), sfun(scon("String"@), scon("Bool"@))),
        ("String.reverse"@, 1, Seq::<u32>::empty(), sfun(scon("String"@), scon("String"@))),
        ("String.repeat"@, 2, Seq::<u32>::empty(), sfun(scon("Int"@), sfun(scon("String"@), scon("String"@)))),
        ("String.replace"@, 3, Seq::<u32>::empty(), sfun(scon("String"@), sfun(scon("String"@), sfun(scon("String"@), scon("String"@))))),
        ("String.split"@, 2, Seq::<u32>::empty(), sfun(scon("String"@), sfun(scon("String"@), slist(scon("String"@)))))
    ]
}

/// Rows 48.. of the built-in table: name, arity, quantified variables, type.
pub open spec fn builtin_rows_4() -> Seq<(Seq<char>, nat, Seq<u32>, TypeV)> {
    seq![
        ("String.words"@, 1, Seq::<u32>::empty(), sfun(scon("String"@), slist(scon("String"@)))),
        ("String.lines"@, 1, Seq::<u32>::empty(), sfun(scon("String"@), slist(scon("String"@)))),
        ("String.slice"@, 3, Seq::<u32>::empty(), sfun(scon("Int"@), sfun(scon("Int"@), sfun(scon("String"@), scon("String"@))))),
        ("String.left"@, 2, Seq::<u32>::empty(), sfun(scon("Int"@), sfun(scon("String"@), scon("String"@)))),
        ("String.right"@, 2, Seq::<u32>::empty(), sfun(scon("Int"@), sfun(scon("String"@), scon("String"@)))),
        ("String.dropLeft"@, 2, Seq::<u32>::empty(), sfun(scon("Int"@), sfun(scon("String"@), scon("String"@)))),
        ("String.dropRight"@, 2, Seq::<u32>::empty(), sfun(scon("Int"@), sfun(scon("String"@), scon("String"@)))),
        ("String.contains"@, 2, Seq::<u32>::empty(), sfun(scon("String"@), sfun(scon("String"@), scon("Bool"@)))),
        ("String.startsWith"@, 2, Seq::<u32>::empty(), sfun(scon("String"@), sfun(scon("String"@), scon("Bool"@)))),
        ("String.endsWith"@, 2, Seq::<u32>::empty(), sfun(scon("String"@), sfun(scon("String"@), scon("Bool"@)))),
        ("String.indexes"@, 2, Seq::<u32>::empty(), sfun(scon("String"@), sfun(scon("String"@), slist(scon("Int"@))))),
        ("String.indices"@, 2, Seq::<u32>::empty(), sfun(scon("String"@), sfun(scon("String"@), slist(scon("Int"@)))))
    ]
}

/// Rows 60.. of the built-in table: name, arity, quantified variables, type.
pub open spec fn builtin_rows_5() -> Seq<(Seq<char>, nat, Seq<u32>, TypeV)> {
    seq![
        ("String.toList"@, 1, Seq::<u32>::empty(), sfun(scon("String"@), slist(scon("Char"@)))),
        ("String.fromList"@, 1, Seq::<u32>::empty(), sfun(slist(scon("Char"@)), scon("String"@))),
        ("String.fromChar"@, 1, Seq::<u32>::empty(), sfun(scon("Char"@), scon("String"@))),
        ("String.cons"@, 2, Seq::<u32>::empty(), sfun(scon("Char"@), sfun(scon("String"@), scon("String"@)))),
        ("String.toUpper"@, 1, Seq::<u32>::empty(), sfun(scon("String"@), scon("String"@))),
        ("String.toLower"@, 1, Seq::<u32>::empty(), sfun(scon("String"@), scon("String"@))),
        ("String.trim"@, 1, Seq::<u32>::empty(), sfun(scon("String"@), scon("String"@))),
        ("String.trimLeft"@, 1, Seq::<u32>::empty(), sfun(scon("String"@), scon("String"@))),
        ("String.trimRight"@, 1, Seq::<u32>::empty(), sfun(scon("String"@), scon("String"@))),
        ("String.pad"@, 3, Seq::<u32>::empty(), sfun(scon("Int"@), sfun(scon("Char"@), sfun(scon("String"@), scon("String"@))))),
        ("String.padLeft"@, 3, Seq::<u32>::empty(), sfun(scon("Int"@), sfun(scon("Char"@), sfun(scon("String"@), scon("String"@))))),
        ("String.padRight"@, 3, Seq::<u32>::empty(), sfun(scon("Int"@), sfun(scon("Char"@), sfun(scon("String"@), scon("String"@)))))
    ]
}

/// Rows 72.. of the built-in table: name, arity, quantified variables, type.
pub open spec fn builtin_rows_6() -> Seq<(Seq<char>, nat, Seq<u32>, TypeV)> {
    seq![
        ("String.map"@, 2, Seq::<u32>::empty(), sfun(sfun(scon("Char"@), scon("Char"@)), sfun(scon("String"@), scon("String"@)))),
        ("String.filter"@, 2, Seq::<u32>::empty(), sfun(sfun(scon("Char"@), scon("Bool"@)), sfun(scon("String"@), scon("String"@)))),
        ("String.foldl"@, 3, seq![B], sfun(sfun(scon("Char"@), sfun(sb(), sb())), sfun(sb(), sfun(scon("String"@), sb())))),
        ("String.foldr"@, 3, seq![B], sfun(sfun(scon("Char"@), sfun(sb(), sb())), sfun(sb(), sfun(scon("String"@), sb())))),
        ("String.any"@, 2, Seq::<u32>::empty(), sfun(sfun(scon("Char"@), scon("Bool"@)), sfun(scon("String"@), scon("Bool"@)))),
        ("String.all"@, 2, Seq::<u32>::empty(), sfun(sfun(scon("Char"@), scon("Bool"@)), sfun(scon("String"@), scon("Bool"@)))),
        ("toFloat"@, 1, Seq::<u32>::empty(), sfun(scon("Int"@), scon("Float"@))),
        ("round"@, 1, Seq::<u32>::empty(), sfun(scon("Float"@), scon("Int"@))),
        ("floor"@, 1, Seq::<u32>::empty(), sfun(scon("Float"@), scon("Int"@))),
        ("ceiling"@, 1, Seq::<u32>::empty(), sfun(scon("Float"@), scon("Int"@))),
        ("truncate"@, 1, Seq::<u32>::empty(), sfun(scon("Float"@), scon("Int"@))),
        ("negate"@, 1, seq![N], sfun(snum(N), snum(N)))
    ]
}

/// Rows 84.. of the built-in table: name, arity, quantified variables, type.
pub open spec fn builtin_rows_7() -> Seq<(Seq<char>, nat, Seq<u32>, TypeV)> {
    seq![
        ("abs"@, 1, seq![N], sfun(snum(N), snum(N))),
        ("clamp"@, 3, seq![N], sfun(snum(N), sfun(snum(N), sfun(snum(N), snum(N))))),
        ("modBy"@, 2, Seq::<u32>::empty(), sfun(scon("Int"@), sfun(scon("Int"@), scon("Int"@)))),
        ("remainderBy"@, 2, Seq::<u32>::empty(), sfun(scon("Int"@), sfun(scon("Int"@), scon("Int"@)))),
        ("min"@, 2, seq![C], sfun(scmp(C), sfun(scmp(C), scmp(C)))),
        ("max"@, 2, seq![C], sfun(scmp(C), sfun(scmp(C), scmp(C)))),
        ("compare"@, 2, seq![C], sfun(scmp(C), sfun(scmp(C), scon("Order"@)))),
        ("not"@, 1, Seq::<u32>::empty(), sfun(scon("Bool"@), scon("Bool"@))),
        ("add"@, 2, seq![N], sfun(snum(N), sfun(snum(N), snum(N)))),
        ("sub"@, 2, seq![N], sfun(snum(N), sfun(snum(N), snum(N)))),
        ("mul"@, 2, seq![N], sfun(snum(N), sfun(snum(N), snum(N)))),
        ("pow"@, 2, seq![N], sfun(snum(N), sfun(snum(N), snum(N))))
    ]
}

/// Rows 96.. of the built-in table: name, arity, quantified variables, type.
pub open spec fn builtin_rows_8() -> Seq<(Seq<char>, nat, Seq<u32>, TypeV)> {
    seq![
        ("fdiv"@, 2, Seq::<u32>::empty(), sfun(scon("Float"@), sfun(scon("Float"@), scon("Float"@)))),
        ("idiv"@, 2, Seq::<u32>::empty(), sfun(scon("Int"@), sfun(scon("Int"@), scon("Int"@)))),
        ("lt"@, 2, seq![C], sfun(scmp(C), sfun(scmp(C), scon("Bool"@)))),
        ("gt"@, 2, seq![C], sfun(scmp(C), sfun(scmp(C), scon("Bool"@)))),
        ("le"@, 2, seq![C], sfun(scmp(C), sfun(scmp(C), scon("Bool"@)))),
        ("ge"@, 2, seq![C], sfun(scmp(C), sfun(scmp(C), scon("Bool"@)))),
        ("eq"@, 2, seq![C], sfun(scmp(C), sfun(scmp(C), scon("Bool"@)))),
        ("neq"@, 2, seq![C], sfun(scmp(C), sfun(scmp(C), scon("Bool"@)))),
        ("and"@, 2, Seq::<u32>::empty(), sfun(scon("Bool"@), sfun(scon("Bool"@), scon("Bool"@)))),
        ("or"@, 2, Seq::<u32>::empty(), sfun(scon("Bool"@), sfun(scon("Bool"@), scon("Bool"@))))
    ]
}

/// Row `i` of the built-in table.
pub open spec fn builtin_row(i: int) -> (Seq<char>, nat, Seq<u32>, TypeV) {
    if i < 12 {
        builtin_rows_0()[i - 0]
    } else if i < 24 {
        builtin_rows_1()[i - 12]
    } else if i < 36 {
        builtin_rows_2()[i - 24]
    } else if i < 48 {
        builtin_rows_3()[i - 36]
    } else if i < 60 {
        builtin_rows_4()[i - 48]
    } else if i < 72 {
        builtin_rows_5()[i - 60]
    } else if i < 84 {
        builtin_rows_6()[i - 72]
    } else if i < 96 {
        builtin_rows_7()[i - 84]
    } else {
        builtin_rows_8()[i - 96]
    }
}

/// `b` is the built-in of table row `row`: its name, arity, quantified
/// variables (each with its sentinel bound) and type.
pub open spec fn builtin_ok(b: Builtin, row: (Seq<char>, nat, Seq<u32>, TypeV)) -> bool {
    &&& b.name@ == row.0
    &&& b.arity == row.1
    &&& b.scheme.vars@.len() == row.2.len()
    &&& forall|j: int| 0 <= j < row.2.len() ==> #[trigger] b.scheme.vars@[j] == (row.2[j], constraint_for_spec(row.2[j]))
    &&& b.scheme.row_vars@.len() == 0
    &&& tv(b.scheme.ty) == row.3
}

/// The names of every built-in function, in table order.
pub open spec fn builtin_names() -> Seq<Seq<char>> {
    seq![
        "List.map"@,
        "List.foldr"@,
        "List.foldl"@,
        "List.concat"@,
        "List.concatMap"@,
        "List.append"@,
        "cons"@,
        "List.filter"@,
        "List.isEmpty"@,
        "Maybe.map"@,
        "Maybe.withDefault"@,
        "Maybe.andThen"@,
        "List.length"@,
        "List.range"@,
        "List.sum"@,
        "Tuple.pair"@,
        "Tuple.first"@,
        "Tuple.second"@,
        "Tuple.mapFirst"@,
        "Tuple.mapSecond"@,
        "Tuple.mapBoth"@,
        "String.uncons"@,
        "String.append"@,
        "append"@,
        "String.concat"@,
        "String.join"@,
        "String.length"@,
        "String.fromInt"@,
        "String.fromFloat"@,
        "String.toInt"@,
        "String.toFloat"@,
        "Char.toCode"@,
        "Char.fromCode"@,
        "Char.toUpper"@,
        "Char.toLower"@,
        "Char.isUpper"@,
        "Char.isLower"@,
        "Char.isAlpha"@,
        "Char.isAlphaNum"@,
        "Char.isDigit"@,
        "Char.isOctDigit"@,
        "Char.isHexDigit"@,
        "Char.isSpace"@,
        "String.isEmpty"@,
        "String.reverse"@,
        "String.repeat"@,
        "String.replace"@,
        "String.split"@,
        "String.words"@,
        "String.lines"@,
        "String.slice"@,
        "String.left"@,
        "String.right"@,
        "String.dropLeft"@,
        "String.dropRight"@,
        "String.contains"@,
        "String.startsWith"@,
        "String.endsWith"@,
        "String.indexes"@,
        "String.indices"@,
        "String.toList"@,
        "String.fromList"@,
        "String.fromChar"@,
        "String.cons"@,
        "String.toUpper"@,
        "String.toLower"@,
        "String.trim"@,
        "String.trimLeft"@,
        "String.trimRight"@,
        "String.pad"@,
        "String.padLeft"@,
        "String.padRight"@,
        "String.map"@,
        "String.filter"@,
        "String.foldl"@,
        "String.foldr"@,
        "String.any"@,
        "String.all"@,
        "toFloat"@,
        "round"@,
        "floor"@,
        "ceiling"@,
        "truncate"@,
        "negate"@,
        "abs"@,
        "clamp"@,
        "modBy"@,
        "remainderBy"@,
        "min"@,
        "max"@,
        "compare"@,
        "not"@,
        "add"@,
        "sub"@,
        "mul"@,
        "pow"@,
        "fdiv"@,
        "idiv"@,
        "lt"@,
        "gt"@,
        "le"@,
        "ge"@,
        "eq"@,
        "neq"@,
        "and"@,
        "or"@
    ]
}

/// Appends rows 0..12 of the built-in table.
fn push_builtins_0(v: &mut Vec<Builtin>)
    requires
        old(v)@.len() == 0,
    ensures
        final(v)@.len() == 12,
        forall|i: int| 0 <= i < 0 ==> #[trigger] final(v)@[i] == old(v)@[i],
        forall|i: int| 0 <= i < 12 ==> (#[trigger] final(v)@[i]).name@ == builtin_names()[i],
        forall|i: int| 0 <= i < 12 ==> builtin_ok(#[trigger] final(v)@[i], builtin_row(i)),
{
    v.push(Builtin { name: "List.map", arity: 2, scheme: scheme(&[A, B], fun(fun(a(), b()), fun(list(a()), list(b())))) });
    v.push(Builtin { name: "List.foldr", arity: 3, scheme: scheme(&[A, B], fun(fun(a(), fun(b(), b())), fun(b(), fun(list(a()), b())))) });
    v.push(Builtin { name: "List.foldl", arity: 3, scheme: scheme(&[A, B], fun(fun(a(), fun(b(), b())), fun(b(), fun(list(a()), b())))) });
    v.push(Builtin { name: "List.concat", arity: 1, scheme: scheme(&[A], fun(list(list(a())), list(a()))) });
    v.push(Builtin { name: "List.concatMap", arity: 2, scheme: scheme(&[A, B], fun(fun(a(), list(b())), fun(list(a()), list(b())))) });
    v.push(Builtin { name: "List.append", arity: 2, scheme: scheme(&[A], fun(list(a()), fun(list(a()), list(a())))) });
    v.push(Builtin { name: "cons", arity: 2, scheme: scheme(&[A], fun(a(), fun(list(a()), list(a())))) });
    v.push(Builtin { name: "List.filter", arity: 2, scheme: scheme(&[A], fun(fun(a(), bool_ty()), fun(list(a()), list(a())))) });
    v.push(Builtin { name: "List.isEmpty", arity: 1, scheme: scheme(&[A], fun(list(a()), bool_ty())) });
    v.push(Builtin { name: "Maybe.map", arity: 2, scheme: scheme(&[A, B], fun(fun(a(), b()), fun(maybe(a()), maybe(b())))) });
    v.push(Builtin { name: "Maybe.withDefault", arity: 2, scheme: scheme(&[A], fun(a(), fun(maybe(a()), a()))) });
    v.push(Builtin { name: "Maybe.andThen", arity: 2, scheme: scheme(&[A, B], fun(fun(a(), maybe(b())), fun(maybe(a()), maybe(b())))) });
    proof {
        assert(builtin_ok(v@[0], builtin_row(0)));
        assert(builtin_ok(v@[1], builtin_row(1)));
        assert(builtin_ok(v@[2], builtin_row(2)));
        assert(builtin_ok(v@[3], builtin_row(3)));
        assert(builtin_ok(v@[4], builtin_row(4)));
        assert(builtin_ok(v@[5], builtin_row(5)));
        assert(builtin_ok(v@[6], builtin_row(6)));
        assert(builtin_ok(v@[7], builtin_row(7)));
        assert(builtin_ok(v@[8], builtin_row(8)));
        assert(builtin_ok(v@[9], builtin_row(9)));
        assert(builtin_ok(v@[10], builtin_row(10)));
        assert(builtin_ok(v@[11], builtin_row(11)));
    }
}

/// Appends rows 12..24 of the built-in table.
fn push_builtins_1(v: &mut Vec<Builtin>)
    requires
        old(v)@.len() == 12,
    ensures
        final(v)@.len() == 24,
        forall|i: int| 0 <= i < 12 ==> #[trigger] final(v)@[i] == old(v)@[i],
        forall|i: int| 12 <= i < 24 ==> (#[trigger] final(v)@[i]).name@ == builtin_names()[i],
        forall|i: int| 12 <= i < 24 ==> builtin_ok(#[trigger] final(v)@[i], builtin_row(i)),
{
    v.push(Builtin { name: "List.length", arity: 1, scheme: scheme(&[A], fun(list(a()), int_ty())) });
    v.push(Builtin { name: "List.range", arity: 2, scheme: scheme(&[], fun(int_ty(), fun(int_ty(), list(int_ty())))) });
    v.push(Builtin { name: "List.sum", arity: 1, scheme: scheme(&[N], fun(list(number(N)), number(N))) });
    v.push(Builtin { name: "Tuple.pair", arity: 2, scheme: scheme(&[A, B], fun(a(), fun(b(), pair(a(), b())))) });
    v.push(Builtin { name: "Tuple.first", arity: 1, scheme: scheme(&[A, B], fun(pair(a(), b()), a())) });
    v.push(Builtin { name: "Tuple.second", arity: 1, scheme: scheme(&[A, B], fun(pair(a(), b()), b())) });
    v.push(Builtin { name: "Tuple.mapFirst", arity: 2, scheme: scheme(&[A, B, X], fun(fun(a(), var(X)), fun(pair(a(), b()), pair(var(X), b())))) });
    v.push(Builtin { name: "Tuple.mapSecond", arity: 2, scheme: scheme(&[A, B, Y], fun(fun(b(), var(Y)), fun(pair(a(), b()), pair(a(), var(Y))))) });
    v.push(Builtin { name: "Tuple.mapBoth", arity: 3, scheme: scheme(&[A, B, X, Y], fun(fun(a(), var(X)), fun(fun(b(), var(Y)), fun(pair(a(), b()), pair(var(X), var(Y)))))) });
    v.push(Builtin { name: "String.uncons", arity: 1, scheme: scheme(&[], fun(string(), maybe(pair(char(), string())))) });
    v.push(Builtin { name: "String.append", arity: 2, scheme: scheme(&[], fun(string(), fun(string(), string()))) });
    v.push(Builtin { name: "append", arity: 2, scheme: scheme(&[P], fun(appendable(P), fun(appendable(P), appendable(P)))) });
    proof {
        assert(builtin_ok(v@[12], builtin_row(12)));
        assert(builtin_ok(v@[13], builtin_row(13)));
        assert(builtin_ok(v@[14], builtin_row(14)));
        assert(builtin_ok(v@[15], builtin_row(15)));
        assert(builtin_ok(v@[16], builtin_row(16)));
        assert(builtin_ok(v@[17], builtin_row(17)));
        assert(builtin_ok(v@[18], builtin_row(18)));
        assert(builtin_ok(v@[19], builtin_row(19)));
        assert(builtin_ok(v@[20], builtin_row(20)));
        assert(builtin_ok(v@[21], builtin_row(21)));
        assert(builtin_ok(v@[22], builtin_row(22)));
        assert(builtin_ok(v@[23], builtin_row(23)));
    }
}

/// Appends rows 24..36 of the built-in table.
fn push_builtins_2(v: &mut Vec<Builtin>)
    requires
        old(v)@.len() == 24,
    ensures
        final(v)@.len() == 36,
        forall|i: int| 0 <= i < 24 ==> #[trigger] final(v)@[i] == old(v)@[i],
        forall|i: int| 24 <= i < 36 ==> (#[trigger] final(v)@[i]).name@ == builtin_names()[i],
        forall|i: int| 24 <= i < 36 ==> builtin_ok(#[trigger] final(v)@[i], builtin_row(i)),
{
    v.push(Builtin { name: "String.concat", arity: 1, scheme: scheme(&[], fun(list(string()), string())) });
    v.push(Builtin { name: "String.join", arity: 2, scheme: scheme(&[], fun(string(), fun(list(string()), string()))) });
    v.push(Builtin { name: "String.length", arity: 1, scheme: scheme(&[], fun(string(), int_ty())) });
    v.push(Builtin { name: "String.fromInt", arity: 1, scheme: scheme(&[], fun(int_ty(), string())) });
    v.push(Builtin { name: "String.fromFloat", arity: 1, scheme: scheme(&[], fun(float_ty(), string())) });
    v.push(Builtin { name: "String.toInt", arity: 1, scheme: scheme(&[], fun(string(), maybe(int_ty()))) });
    v.push(Builtin { name: "String.toFloat", arity: 1, scheme: scheme(&[], fun(string(), maybe(float_ty()))) });
    v.push(Builtin { name: "Char.toCode", arity: 1, scheme: scheme(&[], fun(char(), int_ty())) });
    v.push(Builtin { name: "Char.fromCode", arity: 1, scheme: scheme(&[], fun(int_ty(), char())) });
    v.push(Builtin { name: "Char.toUpper", arity: 1, scheme: scheme(&[], fun(char(), char())) });
    v.push(Builtin { name: "Char.toLower", arity: 1, scheme: scheme(&[], fun(char(), char())) });
    v.push(Builtin { name: "Char.isUpper", arity: 1, scheme: scheme(&[], fun(char(), bool_ty())) });
    proof {
        assert(builtin_ok(v@[24], builtin_row(24)));
        assert(builtin_ok(v@[25], builtin_row(25)));
        assert(builtin_ok(v@[26], builtin_row(26)));
        assert(builtin_ok(v@[27], builtin_row(27)));
        assert(builtin_ok(v@[28], builtin_row(28)));
        assert(builtin_ok(v@[29], builtin_row(29)));
        assert(builtin_ok(v@[30], builtin_row(30)));
        assert(builtin_ok(v@[31], builtin_row(31)));
        assert(builtin_ok(v@[32], builtin_row(32)));
        assert(builtin_ok(v@[33], builtin_row(33)));
        assert(builtin_ok(v@[34], builtin_row(34)));
        assert(builtin_ok(v@[35], builtin_row(35)));
    }
}

/// Appends rows 36..48 of the built-in table.
fn push_builtins_3(v: &mut Vec<Builtin>)
    requires
        old(v)@.len() == 36,
    ensures
        final(v)@.len() == 48,
        forall|i: int| 0 <= i < 36 ==> #[trigger] final(v)@[i] == old(v)@[i],
        forall|i: int| 36 <= i < 48 ==> (#[trigger] final(v)@[i]).name@ == builtin_names()[i],
        forall|i: int| 36 <= i < 48 ==> builtin_ok(#[trigger] final(v)@[i], builtin_row(i)),
{
    v.push(Builtin { name: "Char.isLower", arity: 1, scheme: scheme(&[], fun(char(), bool_ty())) });
    v.push(Builtin { name: "Char.isAlpha", arity: 1, scheme: scheme(&[], fun(char(), bool_ty())) });
    v.push(Builtin { name: "Char.isAlphaNum", arity: 1, scheme: scheme(&[], fun(char(), bool_ty())) });
    v.push(Builtin { name: "Char.isDigit", arity: 1, scheme: scheme(&[], fun(char(), bool_ty())) });
    v.push(Builtin { name: "Char.isOctDigit", arity: 1, scheme: scheme(&[], fun(char(), bool_ty())) });
    v.push(Builtin { name: "Char.isHexDigit", arity: 1, scheme: scheme(&[], fun(char(), bool_ty())) });
    v.push(Builtin { name: "Char.isSpace", arity: 1, scheme: scheme(&[], fun(char(), bool_ty())) });
    v.push(Builtin { name: "String.isEmpty", arity: 1, scheme: scheme(&[], fun(string(), bool_ty())) });
    v.push(Builtin { name: "String.reverse", arity: 1, scheme: scheme(&[], fun(string(), string())) });
    v.push(Builtin { name: "String.repeat", arity: 2, scheme: scheme(&[], fun(int_ty(), fun(string(), string()))) });
    v.push(Builtin { name: "String.replace", arity: 3, scheme: scheme(&[], fun(string(), fun(string(), fun(string(), string())))) });
    v.push(Builtin { name: "String.split", arity: 2, scheme: scheme(&[], fun(string(), fun(string(), list(string())))) });
    proof {
        assert(builtin_ok(v@[36], builtin_row(36)));
        assert(builtin_ok(v@[37], builtin_row(37)));
        assert(builtin_ok(v@[38], builtin_row(38)));
        assert(builtin_ok(v@[39], builtin_row(39)));
        assert(builtin_ok(v@[40], builtin_row(40)));
        assert(builtin_ok(v@[41], builtin_row(41)));
        assert(builtin_ok(v@[42], builtin_row(42)));
        assert(builtin_ok(v@[43], builtin_row(43)));
        assert(builtin_ok(v@[44], builtin_row(44)));
        assert(builtin_ok(v@[45], builtin_row(45)));
        assert(builtin_ok(v@[46], builtin_row(46)));
        assert(builtin_ok(v@[47], builtin_row(47)));
    }
}

/// Appends rows 48..60 of the built-in table.
fn push_builtins_4(v: &mut Vec<Builtin>)
    requires
        old(v)@.len() == 48,
    ensures
        final(v)@.len() == 60,
        forall|i: int| 0 <= i < 48 ==> #[trigger] final(v)@[i] == old(v)@[i],
        forall|i: int| 48 <= i < 60 ==> (#[trigger] final(v)@[i]).name@ == builtin_names()[i],
        forall|i: int| 48 <= i < 60 ==> builtin_ok(#[trigger] final(v)@[i], builtin_row(i)),
{
    v.push(Builtin { name: "String.words", arity: 1, scheme: scheme(&[], fun(string(), list(string()))) });
    v.push(Builtin { name: "String.lines", arity: 1, scheme: scheme(&[], fun(string(), list(string()))) });
    v.push(Builtin { name: "String.slice", arity: 3, scheme: scheme(&[], fun(int_ty(), fun(int_ty(), fun(string(), string())))) });
    v.push(Builtin { name: "String.left", arity: 2, scheme: scheme(&[], fun(int_ty(), fun(string(), string()))) });
    v.push(Builtin { name: "String.right", arity: 2, scheme: scheme(&[], fun(int_ty(), fun(string(), string()))) });
    v.push(Builtin { name: "String.dropLeft", arity: 2, scheme: scheme(&[], fun(int_ty(), fun(string(), string()))) });
    v.push(Builtin { name: "String.dropRight", arity: 2, scheme: scheme(&[], fun(int_ty(), fun(string(), string()))) });
    v.push(Builtin { name: "String.contains", arity: 2, scheme: scheme(&[], fun(string(), fun(string(), bool_ty()))) });
    v.push(Builtin { name: "String.startsWith", arity: 2, scheme: scheme(&[], fun(string(), fun(string(), bool_ty()))) });
    v.push(Builtin { name: "String.endsWith", arity: 2, scheme: scheme(&[], fun(string(), fun(string(), bool_ty()))) });
    v.push(Builtin { name: "String.indexes", arity: 2, scheme: scheme(&[], fun(string(), fun(string(), list(int_ty())))) });
    v.push(Builtin { name: "String.indices", arity: 2, scheme: scheme(&[], fun(string(), fun(string(), list(int_ty())))) });
    proof {
        assert(builtin_ok(v@[48], builtin_row(48)));
        assert(builtin_ok(v@[49], builtin_row(49)));
        assert(builtin_ok(v@[50], builtin_row(50)));
        assert(builtin_ok(v@[51], builtin_row(51)));
        assert(builtin_ok(v@[52], builtin_row(52)));
        assert(builtin_ok(v@[53], builtin_row(53)));
        assert(builtin_ok(v@[54], builtin_row(54)));
        assert(builtin_ok(v@[55], builtin_row(55)));
        assert(builtin_ok(v@[56], builtin_row(56)));
        assert(builtin_ok(v@[57], builtin_row(57)));
        assert(builtin_ok(v@[58], builtin_row(58)));
        assert(builtin_ok(v@[59], builtin_row(59)));
    }
}

/// Appends rows 60..72 of the built-in table.
fn push_builtins_5(v: &mut Vec<Builtin>)
    requires
        old(v)@.len() == 60,
    ensures
        final(v)@.len() == 72,
        forall|i: int| 0 <= i < 60 ==> #[trigger] final(v)@[i] == old(v)@[i],
        forall|i: int| 60 <= i < 72 ==> (#[trigger] final(v)@[i]).name@ == builtin_names()[i],
        forall|i: int| 60 <= i < 72 ==> builtin_ok(#[trigger] final(v)@[i], builtin_row(i)),
{
    v.push(Builtin { name: "String.toList", arity: 1, scheme: scheme(&[], fun(string(), list(char()))) });
    v.push(Builtin { name: "String.fromList", arity: 1, scheme: scheme(&[], fun(list(char()), string())) });
    v.push(Builtin { name: "String.fromChar", arity: 1, scheme: scheme(&[], fun(char(), string())) });
    v.push(Builtin { name: "String.cons", arity: 2, scheme: scheme(&[], fun(char(), fun(string(), string()))) });
    v.push(Builtin { name: "String.toUpper", arity: 1, scheme: scheme(&[], fun(string(), string())) });
    v.push(Builtin { name: "String.toLower", arity: 1, scheme: scheme(&[], fun(string(), string())) });
    v.push(Builtin { name: "String.trim", arity: 1, scheme: scheme(&[], fun(string(), string())) });
    v.push(Builtin { name: "String.trimLeft", arity: 1, scheme: scheme(&[], fun(string(), string())) });
    v.push(Builtin { name: "String.trimRight", arity: 1, scheme: scheme(&[], fun(string(), string())) });
    v.push(Builtin { name: "String.pad", arity: 3, scheme: scheme(&[], fun(int_ty(), fun(char(), fun(string(), string())))) });
    v.push(Builtin { name: "String.padLeft", arity: 3, scheme: scheme(&[], fun(int_ty(), fun(char(), fun(string(), string())))) });
    v.push(Builtin { name: "String.padRight", arity: 3, scheme: scheme(&[], fun(int_ty(), fun(char(), fun(string(), string())))) });
    proof {
        assert(builtin_ok(v@[60], builtin_row(60)));
        assert(builtin_ok(v@[61], builtin_row(61)));
        assert(builtin_ok(v@[62], builtin_row(62)));
        assert(builtin_ok(v@[63], builtin_row(63)));
        assert(builtin_ok(v@[64], builtin_row(64)));
        assert(builtin_ok(v@[65], builtin_row(65)));
        assert(builtin_ok(v@[66], builtin_row(66)));
        assert(builtin_ok(v@[67], builtin_row(67)));
        assert(builtin_ok(v@[68], builtin_row(68)));
        assert(builtin_ok(v@[69], builtin_row(69)));
        assert(builtin_ok(v@[70], builtin_row(70)));
        assert(builtin_ok(v@[71], builtin_row(71)));
    }
}

/// Appends rows 72..84 of the built-in table.
fn push_builtins_6(v: &mut Vec<Builtin>)
    requires
        old(v)@.len() == 72,
    ensures
        final(v)@.len() == 84,
        forall|i: int| 0 <= i < 72 ==> #[trigger] final(v)@[i] == old(v)@[i],
        forall|i: int| 72 <= i < 84 ==> (#[trigger] final(v)@[i]).name@ == builtin_names()[i],
        forall|i: int| 72 <= i < 84 ==> builtin_ok(#[trigger] final(v)@[i], builtin_row(i)),
{
    v.push(Builtin { name: "String.map", arity: 2, scheme: scheme(&[], fun(fun(char(), char()), fun(string(), string()))) });
    v.push(Builtin { name: "String.filter", arity: 2, scheme: scheme(&[], fun(fun(char(), bool_ty()), fun(string(), string()))) });
    v.push(Builtin { name: "String.foldl", arity: 3, scheme: scheme(&[B], fun(fun(char(), fun(b(), b())), fun(b(), fun(string(), b())))) });
    v.push(Builtin { name: "String.foldr", arity: 3, scheme: scheme(&[B], fun(fun(char(), fun(b(), b())), fun(b(), fun(string(), b())))) });
    v.push(Builtin { name: "String.any", arity: 2, scheme: scheme(&[], fun(fun(char(), bool_ty()), fun(string(), bool_ty()))) });
    v.push(Builtin { name: "String.all", arity: 2, scheme: scheme(&[], fun(fun(char(), bool_ty()), fun(string(), bool_ty()))) });
    v.push(Builtin { name: "toFloat", arity: 1, scheme: scheme(&[], fun(int_ty(), float_ty())) });
    v.push(Builtin { name: "round", arity: 1, scheme: scheme(&[], fun(float_ty(), int_ty())) });
    v.push(Builtin { name: "floor", arity: 1, scheme: scheme(&[], fun(float_ty(), int_ty())) });
    v.push(Builtin { name: "ceiling", arity: 1, scheme: scheme(&[], fun(float_ty(), int_ty())) });
    v.push(Builtin { name: "truncate", arity: 1, scheme: scheme(&[], fun(float_ty(), int_ty())) });
    v.push(Builtin { name: "negate", arity: 1, scheme: scheme(&[N], fun(number(N), number(N))) });
    proof {
        assert(builtin_ok(v@[72], builtin_row(72)));
        assert(builtin_ok(v@[73], builtin_row(73)));
        assert(builtin_ok(v@[74], builtin_row(74)));
        assert(builtin_ok(v@[75], builtin_row(75)));
        assert(builtin_ok(v@[76], builtin_row(76)));
        assert(builtin_ok(v@[77], builtin_row(77)));
        assert(builtin_ok(v@[78], builtin_row(78)));
        assert(builtin_ok(v@[79], builtin_row(79)));
        assert(builtin_ok(v@[80], builtin_row(80)));
        assert(builtin_ok(v@[81], builtin_row(81)));
        assert(builtin_ok(v@[82], builtin_row(82)));
        assert(builtin_ok(v@[83], builtin_row(83)));
    }
}

/// Appends rows 84..96 of the built-in table.
fn push_builtins_7(v: &mut Vec<Builtin>)
    requires
        old(v)@.len() == 84,
    ensures
        final(v)@.len() == 96,
        forall|i: int| 0 <= i < 84 ==> #[trigger] final(v)@[i] == old(v)@[i],
        forall|i: int| 84 <= i < 96 ==> (#[trigger] final(v)@[i]).name@ == builtin_names()[i],
        forall|i: int| 84 <= i < 96 ==> builtin_ok(#[trigger] final(v)@[i], builtin_row(i)),
{
    v.push(Builtin { name: "abs", arity: 1, scheme: scheme(&[N], fun(number(N), number(N))) });
    v.push(Builtin { name: "clamp", arity: 3, scheme: scheme(&[N], fun(number(N), fun(number(N), fun(number(N), number(N))))) });
    v.push(Builtin { name: "modBy", arity: 2, scheme: scheme(&[], fun(int_ty(), fun(int_ty(), int_ty()))) });
    v.push(Builtin { name: "remainderBy", arity: 2, scheme: scheme(&[], fun(int_ty(), fun(int_ty(), int_ty()))) });
    v.push(Builtin { name: "min", arity: 2, scheme: scheme(&[C], fun(comparable(C), fun(comparable(C), comparable(C)))) });
    v.push(Builtin { name: "max", arity: 2, scheme: scheme(&[C], fun(comparable(C), fun(comparable(C), comparable(C)))) });
    v.push(Builtin { name: "compare", arity: 2, scheme: scheme(&[C], fun(comparable(C), fun(comparable(C), order()))) });
    v.push(Builtin { name: "not", arity: 1, scheme: scheme(&[], fun(bool_ty(), bool_ty())) });
    v.push(Builtin { name: "add", arity: 2, scheme: scheme(&[N], fun(number(N), fun(number(N), number(N)))) });
    v.push(Builtin { name: "sub", arity: 2, scheme: scheme(&[N], fun(number(N), fun(number(N), number(N)))) });
    v.push(Builtin { name: "mul", arity: 2, scheme: scheme(&[N], fun(number(N), fun(number(N), number(N)))) });
    v.push(Builtin { name: "pow", arity: 2, scheme: scheme(&[N], fun(number(N), fun(number(N), number(N)))) });
    proof {
        assert(builtin_ok(v@[84], builtin_row(84)));
        assert(builtin_ok(v@[85], builtin_row(85)));
        assert(builtin_ok(v@[86], builtin_row(86)));
        assert(builtin_ok(v@[87], builtin_row(87)));
        assert(builtin_ok(v@[88], builtin_row(88)));
        assert(builtin_ok(v@[89], builtin_row(89)));
        assert(builtin_ok(v@[90], builtin_row(90)));
        assert(builtin_ok(v@[91], builtin_row(91)));
        assert(builtin_ok(v@[92], builtin_row(92)));
        assert(builtin_ok(v@[93], builtin_row(93)));
        assert(builtin_ok(v@[94], builtin_row(94)));
        assert(builtin_ok(v@[95], builtin_row(95)));
    }
}

/// Appends rows 96..106 of the built-in table.
fn push_builtins_8(v: &mut Vec<Builtin>)
    requires
        old(v)@.len() == 96,
    ensures
        final(v)@.len() == 106,
        forall|i: int| 0 <= i < 96 ==> #[trigger] final(v)@[i] == old(v)@[i],
        forall|i: int| 96 <= i < 106 ==> (#[trigger] final(v)@[i]).name@ == builtin_names()[i],
        forall|i: int| 96 <= i < 106 ==> builtin_ok(#[trigger] final(v)@[i], builtin_row(i)),
{
    v.push(Builtin { name: "fdiv", arity: 2, scheme: scheme(&[], fun(float_ty(), fun(float_ty(), float_ty()))) });
    v.push(Builtin { name: "idiv", arity: 2, scheme: scheme(&[], fun(int_ty(), fun(int_ty(), int_ty()))) });
    v.push(Builtin { name: "lt", arity: 2, scheme: scheme(&[C], fun(comparable(C), fun(comparable(C), bool_ty()))) });
    v.push(Builtin { name: "gt", arity: 2, scheme: scheme(&[C], fun(comparable(C), fun(comparable(C), bool_ty()))) });
    v.push(Builtin { name: "le", arity: 2, scheme: scheme(&[C], fun(comparable(C), fun(comparable(C), bool_ty()))) });
    v.push(Builtin { name: "ge", arity: 2, scheme: scheme(&[C], fun(comparable(C), fun(comparable(C), bool_ty()))) });
    v.push(Builtin { name: "eq", arity: 2, scheme: scheme(&[C], fun(comparable(C), fun(comparable(C), bool_ty()))) });
    v.push(Builtin { name: "neq", arity: 2, scheme: scheme(&[C], fun(comparable(C), fun(comparable(C), bool_ty()))) });
    v.push(Builtin { name: "and", arity: 2, scheme: scheme(&[], fun(bool_ty(), fun(bool_ty(), bool_ty()))) });
    v.push(Builtin { name: "or", arity: 2, scheme: scheme(&[], fun(bool_ty(), fun(bool_ty(), bool_ty()))) });
    proof {
        assert(builtin_ok(v@[96], builtin_row(96)));
        assert(builtin_ok(v@[97], builtin_row(97)));
        assert(builtin_ok(v@[98], builtin_row(98)));
        assert(builtin_ok(v@[99], builtin_row(99)));
        assert(builtin_ok(v@[100], builtin_row(100)));
        assert(builtin_ok(v@[101], builtin_row(101)));
        assert(builtin_ok(v@[102], builtin_row(102)));
        assert(builtin_ok(v@[103], builtin_row(103)));
        assert(builtin_ok(v@[104], builtin_row(104)));
        assert(builtin_ok(v@[105], builtin_row(105)));
    }
}

/// Every built-in function with its Elm-accurate scheme: the list
/// combinators, `Maybe.*`, `Tuple.*`, `String.*`, `Char.*`, the numeric and
/// comparison functions, and the operator desugar targets.
pub fn builtins() -> (r: Vec<Builtin>)
    ensures
        r@.len() == builtin_names().len(),
        forall|i: int| 0 <= i < r@.len() ==> (#[trigger] r@[i]).name@ == builtin_names()[i],
        forall|i: int| 0 <= i < r@.len() ==> builtin_ok(#[trigger] r@[i], builtin_row(i)),
{
    let mut v: Vec<Builtin> = Vec::new();
    push_builtins_0(&mut v);
    push_builtins_1(&mut v);
    push_builtins_2(&mut v);
    push_builtins_3(&mut v);
    push_builtins_4(&mut v);
    push_builtins_5(&mut v);
    push_builtins_6(&mut v);
    push_builtins_7(&mut v);
    push_builtins_8(&mut v);
    v
}

/// `s` is the view of a scheme quantifying exactly `vars` (each with its
/// sentinel bound), no row variable, over `ty`.
pub open spec fn scheme_view_is(s: SchemeV, vars: Seq<u32>, ty: TypeV) -> bool {
    &&& s.vars.len() == vars.len()
    &&& forall|j: int| 0 <= j < vars.len() ==> #[trigger] s.vars[j] == (vars[j], constraint_for_spec(vars[j]))
    &&& s.row_vars.len() == 0
    &&& s.ty == ty
}

/// `k : s` is the binding of one of the first `n` constructors.
pub open spec fn ctor_binding(k: Seq<char>, s: SchemeV, n: int) -> bool {
    exists|i: int| 0 <= i < n && (#[trigger] ctor_table()[i]).0 == k && scheme_view_is(s, ctor_schemes()[i].0, ctor_schemes()[i].1)
}

/// `k : s` is the binding of one of the first `n` built-ins.
pub open spec fn builtin_binding(k: Seq<char>, s: SchemeV, n: int) -> bool {
    exists|i: int| 0 <= i < n && (#[trigger] builtin_row(i)).0 == k && scheme_view_is(s, builtin_row(i).2, builtin_row(i).3)
}

/// The initial type environment for inference: every value-level constructor
/// and every built-in function bound to its scheme, and nothing else (the
/// match-only glyph and `Entry` tags are not bound, so no glyph is built
/// through them).
pub fn ty_env() -> (r: TyEnv)
    ensures
        forall|i: int| 0 <= i < 7 ==> (r.lookup((#[trigger] ctor_table()[i]).0) is Some),
        forall|i: int| 0 <= i < builtin_names().len() ==> (r.lookup(#[trigger] builtin_names()[i]) is Some),
        forall|k: Seq<char>| #[trigger] r.lookup(k) matches Some(s) ==> ctor_binding(k, s, 7) || builtin_binding(k, s, 106),
        forall|i: int| 7 <= i < 14 ==> (r.lookup((#[trigger] ctor_table()[i]).0) is None),
{
    let mut env = TyEnv::new();
    let cs = ctors();
    let mut cs = cs;
    let ghost c0 = cs@;
    let mut k: usize = 0;
    while cs.len() > 0
        invariant
            k + cs@.len() == 7,
            c0.len() == 7,
            forall|j: int| 0 <= j < cs@.len() ==> #[trigger] cs@[j] == c0[j + k],
            forall|j: int| 0 <= j < 7 ==> ctor_ok(#[trigger] c0[j], ctor_table()[j]),
            forall|j: int| 0 <= j < 7 ==> ctor_exact(#[trigger] c0[j], j),
            forall|j: int| 0 <= j < k ==> env.lookup((#[trigger] ctor_table()[j]).0) is Some,
            forall|q: Seq<char>| #[trigger] env.lookup(q) matches Some(s) ==> ctor_binding(q, s, k as int),
        decreases cs.len(),
    {
        let c = cs.remove(0);
        proof {
            assert(c == c0[k as int]);
            assert(ctor_ok(c0[k as int], ctor_table()[k as int]));
            assert(ctor_exact(c0[k as int], k as int));
        }
        let ghost e0 = env;
        env = env.bind(c.name.to_string(), c.scheme);
        proof {
            assert forall|q: Seq<char>| #[trigger] env.lookup(q) is Some implies ctor_binding(q, env.lookup(q)->Some_0, k + 1) by {
                if q == c.name@ {
                    assert(ctor_table()[k as int].0 == q);
                } else {
                    assert(env.lookup(q) == e0.lookup(q));
                    let s = env.lookup(q)->Some_0;
                    assert(ctor_binding(q, s, k as int));
                    let w = choose|i: int| 0 <= i < k && (#[trigger] ctor_table()[i]).0 == q && scheme_view_is(s, ctor_schemes()[i].0, ctor_schemes()[i].1);
                    assert(ctor_table()[w].0 == q);
                }
            }
        }
        k = k + 1;
    }
    let mut bs = builtins();
    let ghost b0 = bs@;
    let mut k2: usize = 0;
    while bs.len() > 0
        invariant
            k2 + bs@.len() == builtin_names().len(),
            b0.len() == builtin_names().len(),
            builtin_names().len() == 106,
            forall|j: int| 0 <= j < bs@.len() ==> #[trigger] bs@[j] == b0[j + k2],
            forall|j: int| 0 <= j < b0.len() ==> (#[trigger] b0[j]).name@ == builtin_names()[j],
            forall|j: int| 0 <= j < b0.len() ==> builtin_ok(#[trigger] b0[j], builtin_row(j)),
            forall|j: int| 0 <= j < 7 ==> env.lookup((#[trigger] ctor_table()[j]).0) is Some,
            forall|j: int| 0 <= j < k2 ==> env.lookup(#[trigger] builtin_names()[j]) is Some,
            forall|q: Seq<char>| #[trigger] env.lookup(q) matches Some(s) ==> ctor_binding(q, s, 7) || builtin_binding(q, s, k2 as int),
        decreases bs.len(),
    {
        let bi = bs.remove(0);
        proof {
            assert(bi == b0[k2 as int]);
            assert(builtin_ok(b0[k2 as int], builtin_row(k2 as int)));
        }
        let ghost e0 = env;
        env = env.bind(bi.name.to_string(), bi.scheme);
        proof {
            assert forall|q: Seq<char>| #[trigger] env.lookup(q) is Some implies ctor_binding(q, env.lookup(q)->Some_0, 7) || builtin_binding(q, env.lookup(q)->Some_0, k2 + 1) by {
                if q == bi.name@ {
                    assert(builtin_row(k2 as int).0 == q);
                } else {
                    assert(env.lookup(q) == e0.lookup(q));
                    let s = env.lookup(q)->Some_0;
                    if builtin_binding(q, s, k2 as int) {
                        let w = choose|i: int| 0 <= i < k2 && (#[trigger] builtin_row(i)).0 == q && scheme_view_is(s, builtin_row(i).2, builtin_row(i).3);
                        assert(builtin_row(w).0 == q);
                    }
                }
            }
        }
        k2 = k2 + 1;
    }
    proof {
        lemma_glyph_tags_unbound();
        assert forall|i: int| 7 <= i < 14 implies (env.lookup((#[trigger] ctor_table()[i]).0) is None) by {
            let q = ctor_table()[i].0;
            if env.lookup(q) is Some {
                let s = env.lookup(q)->Some_0;
                if ctor_binding(q, s, 7) {
                    let w = choose|j: int| 0 <= j < 7 && (#[trigger] ctor_table()[j]).0 == q && scheme_view_is(s, ctor_schemes()[j].0, ctor_schemes()[j].1);
                    lemma_ctor_names_distinct();
                    assert(ctor_table()[w].0 == ctor_table()[i].0);
                } else {
                    let w = choose|j: int| 0 <= j < 106 && (#[trigger] builtin_row(j)).0 == q && scheme_view_is(s, builtin_row(j).2, builtin_row(j).3);
                    assert(builtin_row(w).0 == ctor_table()[i].0);
                }
            }
        }
    }
    env
}

} // verus!
