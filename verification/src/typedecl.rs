//! User `type` declarations and signatures: the arity of every type
//! constructor, the type parameters of a declaration as scheme variables,
//! the check that a type only names known constructors at their arity and
//! bound type variables, and the registration of each variant's
//! value-constructor scheme.
use vstd::prelude::*;

use crate::ast::{fvs, lemma_fvs, lemma_tvs, sv, tv, tvs, Constraint, Decl, Scheme, SchemeV, Span, Spanned, Type, TypeDecl, TypeV, Variant};
use crate::engine::{prelude_ctor, Infer};
use crate::infer::TyEnv;
use crate::infer::TypeError;
use crate::names::NameMap;
use crate::schemes::{rigid_names, rigid_names_fields, rigid_names_seq};
use crate::text::{decimal, push_decimal, push_str, str_eq};

verus! {

// ---------------------------------------------------------------------------
// Built-in type constructors.
// ---------------------------------------------------------------------------

/// The arity of a built-in type constructor: the ground, glyph and scroll
/// types take none, `List` and `Maybe` one.
pub open spec fn builtin_arity_spec(name: Seq<char>) -> Option<nat> {
    if name == "String"@ || name == "AptPackage"@ || name == "SystemdService"@ || name == "Filesystem"@
        || name == "LineInFile"@ || name == "Glyph"@ || name == "Entry"@ || name == "Scroll"@ || name == "Bool"@
        || name == "Int"@ || name == "Float"@ || name == "Order"@ {
        Some(0)
    } else if name == "List"@ || name == "Maybe"@ {
        Some(1)
    } else {
        None
    }
}

/// The arity of the built-in type constructor `name`, if it is one.
pub fn builtin_type_arity(name: &str) -> (r: Option<usize>)
    ensures
        match r {
            Some(a) => builtin_arity_spec(name@) == Some(a as nat),
            None => builtin_arity_spec(name@) is None,
        },
{
    if str_eq(name, "String") || str_eq(name, "AptPackage") || str_eq(name, "SystemdService") || str_eq(
        name,
        "Filesystem",
    ) || str_eq(name, "LineInFile") || str_eq(name, "Glyph") || str_eq(name, "Entry") || str_eq(name, "Scroll")
        || str_eq(name, "Bool") || str_eq(name, "Int") || str_eq(name, "Float") || str_eq(name, "Order") {
        Some(0)
    } else if str_eq(name, "List") || str_eq(name, "Maybe") {
        Some(1)
    } else {
        None
    }
}

/// The built-in type constructors with their arities.
pub open spec fn builtin_types_spec() -> Seq<(Seq<char>, nat)> {
    seq![
        ("String"@, 0nat),
        ("AptPackage"@, 0nat),
        ("SystemdService"@, 0nat),
        ("Filesystem"@, 0nat),
        ("LineInFile"@, 0nat),
        ("Glyph"@, 0nat),
        ("Entry"@, 0nat),
        ("Scroll"@, 0nat),
        ("Bool"@, 0nat),
        ("Int"@, 0nat),
        ("Float"@, 0nat),
        ("Order"@, 0nat),
        ("List"@, 1nat),
        ("Maybe"@, 1nat),
    ]
}

pub open spec fn arity_pairs(v: Seq<(String, usize)>) -> Seq<(Seq<char>, nat)> {
    v.map_values(|p: (String, usize)| (p.0@, p.1 as nat))
}

/// Every built-in type constructor with its arity.
pub fn builtin_types() -> (r: Vec<(String, usize)>)
    ensures
        arity_pairs(r@) == builtin_types_spec(),
{
    let names = ["String", "AptPackage", "SystemdService", "Filesystem", "LineInFile", "Glyph", "Entry", "Scroll",
        "Bool", "Int", "Float", "Order"];
    let mut out: Vec<(String, usize)> = Vec::new();
    out.push(("String".to_string(), 0));
    out.push(("AptPackage".to_string(), 0));
    out.push(("SystemdService".to_string(), 0));
    out.push(("Filesystem".to_string(), 0));
    out.push(("LineInFile".to_string(), 0));
    out.push(("Glyph".to_string(), 0));
    out.push(("Entry".to_string(), 0));
    out.push(("Scroll".to_string(), 0));
    out.push(("Bool".to_string(), 0));
    out.push(("Int".to_string(), 0));
    out.push(("Float".to_string(), 0));
    out.push(("Order".to_string(), 0));
    out.push(("List".to_string(), 1));
    out.push(("Maybe".to_string(), 1));
    proof {
        assert(arity_pairs(out@) =~= builtin_types_spec());
    }
    out
}

// ---------------------------------------------------------------------------
// Type parameters.
// ---------------------------------------------------------------------------

/// The scheme variable each parameter stands for: the `i`th parameter gets
/// `u32::MAX - i`, drawn from the top so it never meets a variable that
/// inference mints upward from zero.
pub open spec fn param_ids_spec(params: Seq<String>) -> Seq<(Seq<char>, u32)> {
    Seq::new(params.len(), |i: int| (params[i]@, (u32::MAX - i) as u32))
}

pub open spec fn ids_view(pv: Seq<(String, u32)>) -> Seq<(Seq<char>, u32)> {
    pv.map_values(|p: (String, u32)| (p.0@, p.1))
}

/// The id of the last entry named `n`.
pub open spec fn param_lookup(pv: Seq<(Seq<char>, u32)>, n: Seq<char>) -> Option<u32>
    decreases pv.len(),
{
    if pv.len() == 0 {
        None
    } else if pv.last().0 == n {
        Some(pv.last().1)
    } else {
        param_lookup(pv.drop_last(), n)
    }
}

/// Assigns each type parameter its scheme variable; a name given twice
/// keeps the later one.
pub fn param_var_ids(params: &Vec<String>) -> (r: Vec<(String, u32)>)
    requires
        params@.len() <= u32::MAX,
    ensures
        ids_view(r@) == param_ids_spec(params@),
{
    let mut out: Vec<(String, u32)> = Vec::new();
    let mut i: usize = 0;
    while i < params.len()
        invariant
            params@.len() <= u32::MAX,
            i <= params@.len(),
            ids_view(out@) == param_ids_spec(params@).subrange(0, i as int),
        decreases params.len() - i,
    {
        let id: u32 = u32::MAX - (i as u32);
        let ghost before = out@;
        out.push((params[i].clone(), id));
        proof {
            assert(id == (u32::MAX - i) as u32);
            assert(ids_view(out@) =~= ids_view(before).push((params@[i as int]@, id)));
            assert(param_ids_spec(params@)[i as int] == (params@[i as int]@, id));
            assert(ids_view(out@) =~= param_ids_spec(params@).subrange(0, i + 1));
        }
        i = i + 1;
    }
    proof {
        assert(param_ids_spec(params@).subrange(0, i as int) =~= param_ids_spec(params@));
    }
    out
}

fn find_param(pv: &Vec<(String, u32)>, n: &String) -> (r: Option<u32>)
    ensures
        r == param_lookup(ids_view(pv@), n@),
{
    let mut i: usize = pv.len();
    proof {
        assert(ids_view(pv@).subrange(0, pv@.len() as int) =~= ids_view(pv@));
    }
    while i > 0
        invariant
            i <= pv@.len(),
            param_lookup(ids_view(pv@), n@) == param_lookup(ids_view(pv@).subrange(0, i as int), n@),
        decreases i,
    {
        proof {
            assert(ids_view(pv@).subrange(0, i as int).drop_last() =~= ids_view(pv@).subrange(0, i - 1));
        }
        if str_eq(pv[i - 1].0.as_str(), n.as_str()) {
            return Some(pv[i - 1].1);
        }
        i = i - 1;
    }
    proof {
        assert(ids_view(pv@).subrange(0, 0) =~= Seq::<(Seq<char>, u32)>::empty());
    }
    None
}

/// A type with each rigid variable that is a declared parameter replaced by
/// its scheme variable.
pub open spec fn with_params(t: TypeV, pv: Seq<(Seq<char>, u32)>) -> TypeV
    decreases t,
{
    match t {
        TypeV::Rigid(n) => match param_lookup(pv, n) {
            Some(id) => TypeV::Var(id, Constraint::Free),
            None => t,
        },
        TypeV::Var(_, _) => t,
        TypeV::Con(n, args) => TypeV::Con(n, with_params_seq(args, pv)),
        TypeV::Fun(a, b) => TypeV::Fun(Box::new(with_params(*a, pv)), Box::new(with_params(*b, pv))),
        TypeV::Record(fs, row) => TypeV::Record(with_params_fields(fs, pv), row),
        TypeV::Tuple(es) => TypeV::Tuple(with_params_seq(es, pv)),
    }
}

pub open spec fn with_params_seq(s: Seq<TypeV>, pv: Seq<(Seq<char>, u32)>) -> Seq<TypeV>
    decreases s,
{
    if s.len() == 0 {
        Seq::empty()
    } else {
        with_params_seq(s.drop_last(), pv).push(with_params(s.last(), pv))
    }
}

pub open spec fn with_params_fields(s: Seq<(Seq<char>, TypeV)>, pv: Seq<(Seq<char>, u32)>) -> Seq<(Seq<char>, TypeV)>
    decreases s,
{
    if s.len() == 0 {
        Seq::empty()
    } else {
        with_params_fields(s.drop_last(), pv).push((s.last().0, with_params(s.last().1, pv)))
    }
}

/// Replaces each rigid variable bound by the declaration's parameters with
/// its scheme variable; other rigid names stay.
pub fn type_with_param_vars(ty: &Type, pv: &Vec<(String, u32)>) -> (r: Type)
    ensures
        tv(r) == with_params(tv(*ty), ids_view(pv@)),
    decreases ty,
{
    match ty {
        Type::Rigid(name) => match find_param(pv, name) {
            Some(id) => Type::Var(id, Constraint::Free),
            None => Type::Rigid(name.clone()),
        },
        Type::Var(v, c) => Type::Var(*v, *c),
        Type::Con(name, args) => Type::Con(name.clone(), with_params_all(args, pv)),
        Type::Tuple(es) => Type::Tuple(with_params_all(es, pv)),
        Type::Fun(a, b) => Type::Fun(Box::new(type_with_param_vars(a, pv)), Box::new(type_with_param_vars(b, pv))),
        Type::Record(fs, row) => Type::Record(with_params_field_list(fs, pv), *row),
    }
}

fn with_params_field_list(fs: &Vec<(String, Type)>, pv: &Vec<(String, u32)>) -> (r: Vec<(String, Type)>)
    ensures
        fvs(r@) == with_params_fields(fvs(fs@), ids_view(pv@)),
    decreases fs,
{
    let mut out: Vec<(String, Type)> = Vec::new();
    let mut i: usize = 0;
    proof {
        lemma_fvs(fs@);
    }
    while i < fs.len()
        invariant
            i <= fs@.len(),
            fvs(fs@).len() == fs@.len(),
            forall|k: int| 0 <= k < fs@.len() ==> #[trigger] fvs(fs@)[k] == (fs@[k].0@, tv(fs@[k].1)),
            fvs(out@) == with_params_fields(fvs(fs@).subrange(0, i as int), ids_view(pv@)),
        decreases fs.len() - i,
    {
        proof {
            assert(decreases_to!(fs => fs[i as int]));
            assert(decreases_to!(fs[i as int] => fs[i as int].1));
        }
        let x = type_with_param_vars(&fs[i].1, pv);
        let f = (fs[i].0.clone(), x);
        let ghost before = out@;
        out.push(f);
        proof {
            crate::ast::lemma_fvs_push(before, f);
            assert(fvs(fs@).subrange(0, i + 1).drop_last() =~= fvs(fs@).subrange(0, i as int));
        }
        i = i + 1;
    }
    proof {
        assert(fvs(fs@).subrange(0, i as int) =~= fvs(fs@));
    }
    out
}

fn with_params_all(ts: &Vec<Type>, pv: &Vec<(String, u32)>) -> (r: Vec<Type>)
    ensures
        tvs(r@) == with_params_seq(tvs(ts@), ids_view(pv@)),
    decreases ts,
{
    let mut out: Vec<Type> = Vec::new();
    let mut i: usize = 0;
    proof {
        lemma_tvs(ts@);
    }
    while i < ts.len()
        invariant
            i <= ts@.len(),
            tvs(ts@).len() == ts@.len(),
            forall|k: int| 0 <= k < ts@.len() ==> #[trigger] tvs(ts@)[k] == tv(ts@[k]),
            tvs(out@) == with_params_seq(tvs(ts@).subrange(0, i as int), ids_view(pv@)),
        decreases ts.len() - i,
    {
        proof {
            assert(decreases_to!(ts => ts[i as int]));
        }
        let x = type_with_param_vars(&ts[i], pv);
        let ghost before = out@;
        out.push(x);
        proof {
            crate::ast::lemma_tvs_push(before, x);
            assert(tvs(ts@).subrange(0, i + 1).drop_last() =~= tvs(ts@).subrange(0, i as int));
        }
        i = i + 1;
    }
    proof {
        assert(tvs(ts@).subrange(0, i as int) =~= tvs(ts@));
    }
    out
}

// ---------------------------------------------------------------------------
// Rigid names of a signature.
// ---------------------------------------------------------------------------

pub open spec fn name_set(v: Seq<String>) -> Set<Seq<char>> {
    Set::new(|n: Seq<char>| exists|i: int| 0 <= i < v.len() && (#[trigger] v[i])@ == n)
}

fn add_name(acc: &mut Vec<String>, n: &String)
    ensures
        name_set(final(acc)@) == name_set(old(acc)@).insert(n@),
{
    let mut i: usize = 0;
    while i < acc.len()
        invariant
            i <= acc@.len(),
            forall|k: int| 0 <= k < i ==> (#[trigger] acc@[k])@ != n@,
        decreases acc.len() - i,
    {
        if str_eq(acc[i].as_str(), n.as_str()) {
            proof {
                assert(name_set(acc@).contains(n@));
                assert(name_set(acc@).insert(n@) =~= name_set(acc@));
            }
            return;
        }
        i = i + 1;
    }
    let ghost a0 = acc@;
    acc.push(n.clone());
    proof {
        assert(name_set(acc@) =~= name_set(a0).insert(n@)) by {
            assert forall|u: Seq<char>| name_set(acc@).contains(u) implies name_set(a0).insert(n@).contains(u) by {
                let k = choose|k: int| 0 <= k < acc@.len() && (#[trigger] acc@[k])@ == u;
                if k < a0.len() {
                    assert(a0[k] == acc@[k]);
                }
            }
            assert forall|u: Seq<char>| name_set(a0).insert(n@).contains(u) implies name_set(acc@).contains(u) by {
                if u == n@ {
                    assert(acc@[a0.len() as int]@ == u);
                } else {
                    let k = choose|k: int| 0 <= k < a0.len() && (#[trigger] a0[k])@ == u;
                    assert(acc@[k] == a0[k]);
                }
            }
        }
    }
}

/// Adds the rigid type variable names of `ty` to `acc`.
pub fn collect_rigids(ty: &Type, acc: &mut Vec<String>)
    ensures
        name_set(final(acc)@) == name_set(old(acc)@).union(rigid_names(tv(*ty))),
    decreases ty,
{
    let ghost a0 = name_set(acc@);
    match ty {
        Type::Rigid(name) => {
            add_name(acc, name);
            proof {
                assert(a0.insert(name@) =~= a0.union(set![name@]));
            }
        },
        Type::Var(_, _) => {
            proof {
                assert(a0.union(Set::empty()) =~= a0);
            }
        },
        Type::Con(_, args) => collect_rigids_all(args, acc),
        Type::Tuple(es) => collect_rigids_all(es, acc),
        Type::Fun(a, b) => {
            collect_rigids(a, acc);
            collect_rigids(b, acc);
            proof {
                assert(name_set(acc@) =~= a0.union(rigid_names(tv(*ty))));
            }
        },
        Type::Record(fs, _) => collect_rigids_fields(fs, acc),
    }
}

fn collect_rigids_fields(fs: &Vec<(String, Type)>, acc: &mut Vec<String>)
    ensures
        name_set(final(acc)@) == name_set(old(acc)@).union(rigid_names_fields(fvs(fs@))),
    decreases fs,
{
    let ghost a0 = name_set(acc@);
    let mut i: usize = 0;
    proof {
        lemma_fvs(fs@);
        assert(fvs(fs@).subrange(0, 0) =~= Seq::<(Seq<char>, TypeV)>::empty());
        assert(a0.union(Set::empty()) =~= a0);
    }
    while i < fs.len()
        invariant
            i <= fs@.len(),
            fvs(fs@).len() == fs@.len(),
            forall|k: int| 0 <= k < fs@.len() ==> #[trigger] fvs(fs@)[k] == (fs@[k].0@, tv(fs@[k].1)),
            name_set(acc@) == a0.union(rigid_names_fields(fvs(fs@).subrange(0, i as int))),
        decreases fs.len() - i,
    {
        proof {
            assert(decreases_to!(fs => fs[i as int]));
            assert(decreases_to!(fs[i as int] => fs[i as int].1));
        }
        collect_rigids(&fs[i].1, acc);
        proof {
            assert(fvs(fs@).subrange(0, i + 1).drop_last() =~= fvs(fs@).subrange(0, i as int));
            assert(name_set(acc@) =~= a0.union(rigid_names_fields(fvs(fs@).subrange(0, i + 1))));
        }
        i = i + 1;
    }
    proof {
        assert(fvs(fs@).subrange(0, i as int) =~= fvs(fs@));
    }
}

fn collect_rigids_all(ts: &Vec<Type>, acc: &mut Vec<String>)
    ensures
        name_set(final(acc)@) == name_set(old(acc)@).union(rigid_names_seq(tvs(ts@))),
    decreases ts,
{
    let ghost a0 = name_set(acc@);
    let mut i: usize = 0;
    proof {
        lemma_tvs(ts@);
        assert(tvs(ts@).subrange(0, 0) =~= Seq::<TypeV>::empty());
        assert(a0.union(Set::empty()) =~= a0);
    }
    while i < ts.len()
        invariant
            i <= ts@.len(),
            tvs(ts@).len() == ts@.len(),
            forall|k: int| 0 <= k < ts@.len() ==> #[trigger] tvs(ts@)[k] == tv(ts@[k]),
            name_set(acc@) == a0.union(rigid_names_seq(tvs(ts@).subrange(0, i as int))),
        decreases ts.len() - i,
    {
        proof {
            assert(decreases_to!(ts => ts[i as int]));
        }
        collect_rigids(&ts[i], acc);
        proof {
            assert(tvs(ts@).subrange(0, i + 1).drop_last() =~= tvs(ts@).subrange(0, i as int));
            assert(name_set(acc@) =~= a0.union(rigid_names_seq(tvs(ts@).subrange(0, i + 1))));
        }
        i = i + 1;
    }
    proof {
        assert(tvs(ts@).subrange(0, i as int) =~= tvs(ts@));
    }
}

/// The rigid names a signature may mention: every lowercase type variable
/// it uses, since a signature introduces its own type variables.
pub fn signature_rigids(ty: &Type) -> (r: Vec<String>)
    ensures
        name_set(r@) == rigid_names(tv(*ty)),
{
    let mut acc: Vec<String> = Vec::new();
    proof {
        assert(name_set(acc@) =~= Set::<Seq<char>>::empty());
    }
    collect_rigids(ty, &mut acc);
    proof {
        assert(name_set(acc@) =~= rigid_names(tv(*ty)));
    }
    acc
}


// ---------------------------------------------------------------------------
// Checking the type references of a type.
// ---------------------------------------------------------------------------

pub open spec fn arity_msg(name: Seq<char>, a: nat, n: nat) -> Seq<char> {
    "type constructor `"@ + name + "` expects "@ + decimal(a) + " argument(s), found "@ + decimal(n)
}

pub open spec fn unknown_msg(name: Seq<char>) -> Seq<char> {
    "unknown type constructor `"@ + name + "`"@
}

pub open spec fn unbound_msg(name: Seq<char>) -> Seq<char> {
    "unbound type variable `"@ + name + "`"@
}

/// The first problem, left to right, with what `t` refers to: a type
/// constructor that is unknown or given the wrong number of arguments, or a
/// rigid type variable that is not bound.
pub open spec fn ref_error(t: TypeV, ar: Map<Seq<char>, nat>, bound: Set<Seq<char>>) -> Option<Seq<char>>
    decreases t,
{
    match t {
        TypeV::Con(name, args) => if ar.contains_key(name) {
            if ar[name] == args.len() {
                ref_error_seq(args, ar, bound)
            } else {
                Some(arity_msg(name, ar[name], args.len()))
            }
        } else {
            Some(unknown_msg(name))
        },
        TypeV::Fun(a, b) => match ref_error(*a, ar, bound) {
            Some(m) => Some(m),
            None => ref_error(*b, ar, bound),
        },
        TypeV::Record(fs, _) => ref_error_fields(fs, ar, bound),
        TypeV::Tuple(es) => ref_error_seq(es, ar, bound),
        TypeV::Rigid(n) => if bound.contains(n) {
            None
        } else {
            Some(unbound_msg(n))
        },
        TypeV::Var(_, _) => None,
    }
}

pub open spec fn ref_error_seq(s: Seq<TypeV>, ar: Map<Seq<char>, nat>, bound: Set<Seq<char>>) -> Option<Seq<char>>
    decreases s,
{
    if s.len() == 0 {
        None
    } else {
        match ref_error_seq(s.drop_last(), ar, bound) {
            Some(m) => Some(m),
            None => ref_error(s.last(), ar, bound),
        }
    }
}

pub open spec fn ref_error_fields(s: Seq<(Seq<char>, TypeV)>, ar: Map<Seq<char>, nat>, bound: Set<Seq<char>>) -> Option<Seq<char>>
    decreases s,
{
    if s.len() == 0 {
        None
    } else {
        match ref_error_fields(s.drop_last(), ar, bound) {
            Some(m) => Some(m),
            None => ref_error(s.last().1, ar, bound),
        }
    }
}

/// The arities a name-keyed map holds.
pub open spec fn arity_view(m: NameMap<usize>) -> Map<Seq<char>, nat> {
    Map::new(|k: Seq<char>| m.get_spec(k) is Some, |k: Seq<char>| m.get_spec(k).unwrap() as nat)
}

fn has_name(v: &Vec<String>, n: &String) -> (r: bool)
    ensures
        r == name_set(v@).contains(n@),
{
    let mut i: usize = 0;
    while i < v.len()
        invariant
            i <= v@.len(),
            forall|k: int| 0 <= k < i ==> (#[trigger] v@[k])@ != n@,
        decreases v.len() - i,
    {
        if str_eq(v[i].as_str(), n.as_str()) {
            return true;
        }
        i = i + 1;
    }
    false
}

fn message3(a: &str, b: &str, c: &str) -> (r: String)
    ensures
        r@ == a@ + b@ + c@,
{
    let mut s = String::new();
    push_str(&mut s, a);
    push_str(&mut s, b);
    push_str(&mut s, c);
    s
}

/// Checks that `ty` names only known type constructors, each at its arity,
/// and only bound rigid type variables; the error is the first problem met.
pub fn validate_type_refs(ty: &Type, span: &Span, arities: &NameMap<usize>, bound: &Vec<String>) -> (r: Result<
    (),
    TypeError,
>)
    requires
        arities.wf(),
    ensures
        match ref_error(tv(*ty), arity_view(*arities), name_set(bound@)) {
            None => r is Ok,
            Some(m) => r matches Err(e) && e.msg@ == m && e.span == *span,
        },
    decreases ty,
{
    match ty {
        Type::Con(name, args) => match arities.get(name.as_str()) {
            Some(arity) => {
                proof {
                    lemma_tvs(args@);
                }
                if *arity == args.len() {
                    validate_all(args, span, arities, bound)
                } else {
                    let mut msg = String::new();
                    push_str(&mut msg, "type constructor `");
                    push_str(&mut msg, name.as_str());
                    push_str(&mut msg, "` expects ");
                    push_decimal(&mut msg, *arity as u64);
                    push_str(&mut msg, " argument(s), found ");
                    push_decimal(&mut msg, args.len() as u64);
                    Err(TypeError::new(msg, span.start..span.end))
                }
            },
            None => Err(TypeError::new(message3("unknown type constructor `", name.as_str(), "`"), span.start..span.end)),
        },
        Type::Fun(a, b) => {
            let ra = validate_type_refs(a, span, arities, bound);
            if ra.is_err() {
                return ra;
            }
            validate_type_refs(b, span, arities, bound)
        },
        Type::Record(fs, _) => validate_fields(fs, span, arities, bound),
        Type::Tuple(es) => validate_all(es, span, arities, bound),
        Type::Rigid(name) => {
            if has_name(bound, name) {
                Ok(())
            } else {
                Err(TypeError::new(message3("unbound type variable `", name.as_str(), "`"), span.start..span.end))
            }
        },
        Type::Var(_, _) => Ok(()),
    }
}

fn validate_all(ts: &Vec<Type>, span: &Span, arities: &NameMap<usize>, bound: &Vec<String>) -> (r: Result<(), TypeError>)
    requires
        arities.wf(),
    ensures
        match ref_error_seq(tvs(ts@), arity_view(*arities), name_set(bound@)) {
            None => r is Ok,
            Some(m) => r matches Err(e) && e.msg@ == m && e.span == *span,
        },
    decreases ts,
{
    let ghost ar = arity_view(*arities);
    let ghost bs = name_set(bound@);
    let mut i: usize = 0;
    proof {
        lemma_tvs(ts@);
        assert(tvs(ts@).subrange(0, 0) =~= Seq::<TypeV>::empty());
    }
    while i < ts.len()
        invariant
            arities.wf(),
            ar == arity_view(*arities),
            bs == name_set(bound@),
            i <= ts@.len(),
            tvs(ts@).len() == ts@.len(),
            forall|k: int| 0 <= k < ts@.len() ==> #[trigger] tvs(ts@)[k] == tv(ts@[k]),
            ref_error_seq(tvs(ts@).subrange(0, i as int), ar, bs) is None,
        decreases ts.len() - i,
    {
        proof {
            assert(decreases_to!(ts => ts[i as int]));
        }
        let r = validate_type_refs(&ts[i], span, arities, bound);
        proof {
            assert(tvs(ts@).subrange(0, i + 1).drop_last() =~= tvs(ts@).subrange(0, i as int));
            if r.is_err() {
                lemma_first_error_seq(tvs(ts@), i + 1, ar, bs);
            }
        }
        if r.is_err() {
            return r;
        }
        i = i + 1;
    }
    proof {
        assert(tvs(ts@).subrange(0, i as int) =~= tvs(ts@));
    }
    Ok(())
}

/// An error in a prefix is the error of the whole list.
proof fn lemma_first_error_seq(s: Seq<TypeV>, i: int, ar: Map<Seq<char>, nat>, bs: Set<Seq<char>>)
    requires
        0 <= i <= s.len(),
        ref_error_seq(s.subrange(0, i), ar, bs) is Some,
    ensures
        ref_error_seq(s, ar, bs) == ref_error_seq(s.subrange(0, i), ar, bs),
    decreases s.len() - i,
{
    if i < s.len() {
        assert(s.subrange(0, i + 1).drop_last() =~= s.subrange(0, i));
        lemma_first_error_seq(s, i + 1, ar, bs);
    } else {
        assert(s.subrange(0, i) =~= s);
    }
}

proof fn lemma_first_error_fields(s: Seq<(Seq<char>, TypeV)>, i: int, ar: Map<Seq<char>, nat>, bs: Set<Seq<char>>)
    requires
        0 <= i <= s.len(),
        ref_error_fields(s.subrange(0, i), ar, bs) is Some,
    ensures
        ref_error_fields(s, ar, bs) == ref_error_fields(s.subrange(0, i), ar, bs),
    decreases s.len() - i,
{
    if i < s.len() {
        assert(s.subrange(0, i + 1).drop_last() =~= s.subrange(0, i));
        lemma_first_error_fields(s, i + 1, ar, bs);
    } else {
        assert(s.subrange(0, i) =~= s);
    }
}

fn validate_fields(fs: &Vec<(String, Type)>, span: &Span, arities: &NameMap<usize>, bound: &Vec<String>) -> (r: Result<
    (),
    TypeError,
>)
    requires
        arities.wf(),
    ensures
        match ref_error_fields(fvs(fs@), arity_view(*arities), name_set(bound@)) {
            None => r is Ok,
            Some(m) => r matches Err(e) && e.msg@ == m && e.span == *span,
        },
    decreases fs,
{
    let ghost ar = arity_view(*arities);
    let ghost bs = name_set(bound@);
    let mut i: usize = 0;
    proof {
        lemma_fvs(fs@);
        assert(fvs(fs@).subrange(0, 0) =~= Seq::<(Seq<char>, TypeV)>::empty());
    }
    while i < fs.len()
        invariant
            arities.wf(),
            ar == arity_view(*arities),
            bs == name_set(bound@),
            i <= fs@.len(),
            fvs(fs@).len() == fs@.len(),
            forall|k: int| 0 <= k < fs@.len() ==> #[trigger] fvs(fs@)[k] == (fs@[k].0@, tv(fs@[k].1)),
            ref_error_fields(fvs(fs@).subrange(0, i as int), ar, bs) is None,
        decreases fs.len() - i,
    {
        proof {
            assert(decreases_to!(fs => fs[i as int]));
            assert(decreases_to!(fs[i as int] => fs[i as int].1));
        }
        let r = validate_type_refs(&fs[i].1, span, arities, bound);
        proof {
            assert(fvs(fs@).subrange(0, i + 1).drop_last() =~= fvs(fs@).subrange(0, i as int));
            if r.is_err() {
                lemma_first_error_fields(fvs(fs@), i + 1, ar, bs);
            }
        }
        if r.is_err() {
            return r;
        }
        i = i + 1;
    }
    proof {
        assert(fvs(fs@).subrange(0, i as int) =~= fvs(fs@));
    }
    Ok(())
}


// ---------------------------------------------------------------------------
// Registering `type` declarations.
// ---------------------------------------------------------------------------

/// The arity of each declared type, a name's first declaration winning.
pub open spec fn decl_arities(tds: Seq<TypeDecl>) -> Map<Seq<char>, nat>
    decreases tds.len(),
{
    if tds.len() == 0 {
        Map::empty()
    } else {
        let m = decl_arities(tds.drop_last());
        if m.contains_key(tds.last().name@) {
            m
        } else {
            m.insert(tds.last().name@, tds.last().params@.len())
        }
    }
}

/// No declared type redefines a built-in one, and none is declared twice.
pub open spec fn decl_names_ok(tds: Seq<TypeDecl>) -> bool {
    &&& forall|i: int| 0 <= i < tds.len() ==> builtin_arity_spec((#[trigger] tds[i]).name@) is None
    &&& forall|i: int, j: int| 0 <= i < j < tds.len() ==> (#[trigger] tds[i]).name@ != (#[trigger] tds[j]).name@
}

/// `base` with each entry of `e` added whose name it does not have yet.
pub open spec fn overlay(base: Map<Seq<char>, nat>, e: Seq<(Seq<char>, nat)>) -> Map<Seq<char>, nat>
    decreases e.len(),
{
    if e.len() == 0 {
        base
    } else {
        let b = overlay(base, e.drop_last());
        if b.contains_key(e.last().0) {
            b
        } else {
            b.insert(e.last().0, e.last().1)
        }
    }
}

/// Every type constructor the declarations can name, with its arity: the
/// declared types, then the imported ones, then the built-ins.
pub open spec fn all_arities(tds: Seq<TypeDecl>, imported: Seq<(Seq<char>, nat)>) -> Map<Seq<char>, nat> {
    overlay(overlay(decl_arities(tds), imported), builtin_types_spec())
}

/// The name of variant `j` of declaration `i`.
pub open spec fn vname(tds: Seq<TypeDecl>, i: int, j: int) -> Seq<char> {
    tds[i].variants@[j].name@
}

pub open spec fn is_variant(tds: Seq<TypeDecl>, i: int, j: int) -> bool {
    0 <= i < tds.len() && 0 <= j < tds[i].variants@.len()
}

/// Every constructor is declared once, and none is the prelude's.
pub open spec fn ctor_names_ok(tds: Seq<TypeDecl>) -> bool {
    &&& forall|i: int, j: int| is_variant(tds, i, j) ==> !prelude_ctor(#[trigger] vname(tds, i, j))
    &&& forall|i: int, j: int, p: int, q: int|
        is_variant(tds, i, j) && is_variant(tds, p, q) && (i != p || j != q) ==> #[trigger] vname(tds, i, j)
            != #[trigger] vname(tds, p, q)
}

/// Every variant field refers only to known type constructors at their
/// arity and to its declaration's parameters.
pub open spec fn fields_ok(tds: Seq<TypeDecl>, ar: Map<Seq<char>, nat>) -> bool {
    forall|i: int, j: int, k: int|
        is_variant(tds, i, j) && 0 <= k < tds[i].variants@[j].fields@.len() ==> ref_error(
            tv(#[trigger] tds[i].variants@[j].fields@[k].0),
            ar,
            name_set(tds[i].params@),
        ) is None
}

/// The type a declaration's parameters make of it: `Name p1 p2`.
pub open spec fn decl_result(td: TypeDecl) -> TypeV {
    TypeV::Con(
        td.name@,
        Seq::new(
            td.params@.len(),
            |k: int| TypeV::Var(param_lookup(param_ids_spec(td.params@), td.params@[k]@).unwrap(), Constraint::Free),
        ),
    )
}

/// The scheme variables a declaration quantifies.
pub open spec fn decl_quantified(td: TypeDecl) -> Seq<(u32, Constraint)> {
    Seq::new(
        td.params@.len(),
        |k: int| (param_lookup(param_ids_spec(td.params@), td.params@[k]@).unwrap(), Constraint::Free),
    )
}

/// `f1 -> f2 -> ... -> result`, parameters as scheme variables.
pub open spec fn ctor_type(fs: Seq<TypeV>, pv: Seq<(Seq<char>, u32)>, result: TypeV) -> TypeV
    decreases fs.len(),
{
    if fs.len() == 0 {
        result
    } else {
        TypeV::Fun(Box::new(with_params(fs[0], pv)), Box::new(ctor_type(fs.drop_first(), pv, result)))
    }
}

pub open spec fn field_types(v: Variant) -> Seq<TypeV> {
    v.fields@.map_values(|f: Spanned<Type>| tv(f.0))
}

/// The value-constructor scheme of variant `v` of declaration `td`.
pub open spec fn ctor_scheme_spec(td: TypeDecl, v: Variant) -> SchemeV {
    SchemeV {
        vars: decl_quantified(td),
        row_vars: Seq::empty(),
        ty: ctor_type(field_types(v), param_ids_spec(td.params@), decl_result(td)),
    }
}

/// The variants of a declaration, name and arity.
pub open spec fn decl_members(td: TypeDecl) -> Seq<(Seq<char>, nat)> {
    td.variants@.map_values(|v: Variant| (v.name@, v.fields@.len() as nat))
}

proof fn lemma_decl_arities_has(tds: Seq<TypeDecl>, k: Seq<char>)
    ensures
        decl_arities(tds).contains_key(k) <==> exists|i: int| 0 <= i < tds.len() && (#[trigger] tds[i]).name@ == k,
    decreases tds.len(),
{
    if tds.len() > 0 {
        lemma_decl_arities_has(tds.drop_last(), k);
        if exists|i: int| 0 <= i < tds.len() && (#[trigger] tds[i]).name@ == k {
            let i = choose|i: int| 0 <= i < tds.len() && (#[trigger] tds[i]).name@ == k;
            if i < tds.len() - 1 {
                assert(tds.drop_last()[i] == tds[i]);
            }
        }
        if exists|i: int| 0 <= i < tds.drop_last().len() && (#[trigger] tds.drop_last()[i]).name@ == k {
            let i = choose|i: int| 0 <= i < tds.drop_last().len() && (#[trigger] tds.drop_last()[i]).name@ == k;
            assert(tds[i] == tds.drop_last()[i]);
        }
    }
}

/// The declared types with their arities: an error for a name that is a
/// built-in type or is declared twice.
fn declared_arities(tds: &Vec<TypeDecl>) -> (r: Result<NameMap<usize>, TypeError>)
    ensures
        r is Ok <==> decl_names_ok(tds@),
        r matches Ok(m) ==> m.wf() && arity_view(m) == decl_arities(tds@),
{
    let mut m: NameMap<usize> = NameMap::new();
    let mut i: usize = 0;
    proof {
        assert(tds@.subrange(0, 0) =~= Seq::<TypeDecl>::empty());
        assert(arity_view(m) =~= Map::<Seq<char>, nat>::empty());
    }
    while i < tds.len()
        invariant
            i <= tds@.len(),
            m.wf(),
            decl_names_ok(tds@.subrange(0, i as int)),
            arity_view(m) == decl_arities(tds@.subrange(0, i as int)),
        decreases tds.len() - i,
    {
        let name = &tds[i].name;
        let ghost pre = tds@.subrange(0, i as int);
        proof {
            assert(tds@.subrange(0, i + 1).drop_last() =~= pre);
            assert(tds@.subrange(0, i + 1).last() == tds@[i as int]);
            lemma_decl_arities_has(pre, name@);
        }
        if builtin_type_arity(name.as_str()).is_some() {
            proof {
                assert(!decl_names_ok(tds@)) by {
                    assert(builtin_arity_spec(tds@[i as int].name@) is Some);
                }
            }
            return Err(TypeError::new(message3("type `", name.as_str(), "` redefines a built-in type"), tds[i].span.start..tds[i].span.end));
        }
        if m.contains(name.as_str()) {
            proof {
                assert(arity_view(m).contains_key(name@));
                let j = choose|j: int| 0 <= j < pre.len() && (#[trigger] pre[j]).name@ == name@;
                assert(tds@[j] == pre[j]);
                assert(!decl_names_ok(tds@)) by {
                    assert(tds@[j].name@ == tds@[i as int].name@);
                }
            }
            return Err(TypeError::new(message3("duplicate type declaration `", name.as_str(), "`"), tds[i].span.start..tds[i].span.end));
        }
        let ghost m0 = m;
        m.insert(name.clone(), tds[i].params.len());
        proof {
            let post = tds@.subrange(0, i + 1);
            assert(arity_view(m) =~= arity_view(m0).insert(name@, tds@[i as int].params@.len()));
            assert(decl_names_ok(post)) by {
                assert forall|p: int| 0 <= p < post.len() implies builtin_arity_spec((#[trigger] post[p]).name@) is None by {
                    if p < i {
                        assert(post[p] == pre[p]);
                    }
                }
                assert forall|p: int, q: int| 0 <= p < q < post.len() implies (#[trigger] post[p]).name@ != (#[trigger] post[q]).name@ by {
                    if q < i {
                        assert(post[p] == pre[p]);
                        assert(post[q] == pre[q]);
                    } else {
                        assert(post[p] == pre[p]);
                        if pre[p].name@ == name@ {
                            assert(decl_arities(pre).contains_key(name@));
                        }
                    }
                }
            }
        }
        i = i + 1;
    }
    proof {
        assert(tds@.subrange(0, i as int) =~= tds@);
    }
    Ok(m)
}

/// Adds `name` with arity `a` unless the map has the name.
fn insert_absent(m: &mut NameMap<usize>, name: &String, a: usize)
    requires
        old(m).wf(),
    ensures
        final(m).wf(),
        arity_view(*final(m)) == if arity_view(*old(m)).contains_key(name@) {
            arity_view(*old(m))
        } else {
            arity_view(*old(m)).insert(name@, a as nat)
        },
{
    if !m.contains(name.as_str()) {
        let ghost m0 = *m;
        m.insert(name.clone(), a);
        proof {
            assert(arity_view(*m) =~= arity_view(m0).insert(name@, a as nat));
        }
    }
}


/// Adds each entry whose name the map lacks.
fn overlay_entries(m: &mut NameMap<usize>, e: &Vec<(String, usize)>)
    requires
        old(m).wf(),
    ensures
        final(m).wf(),
        arity_view(*final(m)) == overlay(arity_view(*old(m)), arity_pairs(e@)),
{
    let ghost base = arity_view(*m);
    let mut i: usize = 0;
    proof {
        assert(arity_pairs(e@).subrange(0, 0) =~= Seq::<(Seq<char>, nat)>::empty());
    }
    while i < e.len()
        invariant
            m.wf(),
            i <= e@.len(),
            arity_view(*m) == overlay(base, arity_pairs(e@).subrange(0, i as int)),
        decreases e.len() - i,
    {
        insert_absent(m, &e[i].0, e[i].1);
        proof {
            let s = arity_pairs(e@).subrange(0, i + 1);
            assert(s.drop_last() =~= arity_pairs(e@).subrange(0, i as int));
            assert(s.last() == (e@[i as int].0@, e@[i as int].1 as nat));
        }
        i = i + 1;
    }
    proof {
        assert(arity_pairs(e@).subrange(0, i as int) =~= arity_pairs(e@));
    }
}

/// The result type of a declaration, `Name p1 p2`, with its parameters as
/// scheme variables, and the variables it quantifies.
fn decl_result_type(td: &TypeDecl, pv: &Vec<(String, u32)>) -> (r: (Type, Vec<(u32, Constraint)>))
    requires
        ids_view(pv@) == param_ids_spec(td.params@),
    ensures
        tv(r.0) == decl_result(*td),
        r.1@ == decl_quantified(*td),
{
    let mut args: Vec<Type> = Vec::new();
    let mut q: Vec<(u32, Constraint)> = Vec::new();
    let mut k: usize = 0;
    while k < td.params.len()
        invariant
            ids_view(pv@) == param_ids_spec(td.params@),
            k <= td.params@.len(),
            args@.len() == k,
            forall|p: int| 0 <= p < k ==> #[trigger] tv(args@[p]) == decl_result(*td)->Con_1[p],
            q@ == decl_quantified(*td).subrange(0, k as int),
        decreases td.params.len() - k,
    {
        let id = match find_param(pv, &td.params[k]) {
            Some(id) => id,
            None => {
                proof {
                    let ps = param_ids_spec(td.params@);
                    assert(ps[k as int].0 == td.params@[k as int]@);
                    lemma_param_lookup_some(ps, k as int);
                }
                0
            },
        };
        proof {
            let ps = param_ids_spec(td.params@);
            assert(ps[k as int].0 == td.params@[k as int]@);
            lemma_param_lookup_some(ps, k as int);
        }
        args.push(Type::Var(id, Constraint::Free));
        q.push((id, Constraint::Free));
        proof {
            assert(q@ =~= decl_quantified(*td).subrange(0, k + 1));
        }
        k = k + 1;
    }
    proof {
        lemma_tvs(args@);
        assert(tvs(args@) =~= decl_result(*td)->Con_1);
        assert(decl_quantified(*td).subrange(0, k as int) =~= decl_quantified(*td));
    }
    (Type::Con(td.name.clone(), args), q)
}

proof fn lemma_param_lookup_some(ps: Seq<(Seq<char>, u32)>, k: int)
    requires
        0 <= k < ps.len(),
    ensures
        param_lookup(ps, ps[k].0) is Some,
    decreases ps.len(),
{
    if ps.last().0 != ps[k].0 {
        assert(ps.drop_last()[k] == ps[k]);
        lemma_param_lookup_some(ps.drop_last(), k);
    }
}

/// The constructor type of a variant: its fields, parameters as scheme
/// variables, curried onto the declaration's result type.
fn ctor_type_of(v: &Variant, pv: &Vec<(String, u32)>, result: &Type) -> (r: Type)
    ensures
        tv(r) == ctor_type(field_types(*v), ids_view(pv@), tv(*result)),
{
    let ghost fs = field_types(*v);
    let mut t = result.duplicate();
    let mut i: usize = v.fields.len();
    proof {
        assert(fs.subrange(i as int, fs.len() as int) =~= Seq::<TypeV>::empty());
    }
    while i > 0
        invariant
            fs == field_types(*v),
            fs.len() == v.fields@.len(),
            i <= fs.len(),
            tv(t) == ctor_type(fs.subrange(i as int, fs.len() as int), ids_view(pv@), tv(*result)),
        decreases i,
    {
        i = i - 1;
        let f = type_with_param_vars(&v.fields[i].0, pv);
        t = Type::Fun(Box::new(f), Box::new(t));
        proof {
            let tail = fs.subrange(i as int, fs.len() as int);
            assert(tail[0] == tv(v.fields@[i as int].0));
            assert(tail.drop_first() =~= fs.subrange(i + 1, fs.len() as int));
        }
    }
    proof {
        assert(fs.subrange(0, fs.len() as int) =~= fs);
    }
    t
}


/// The declarations are in order: names, constructors and field types.
pub open spec fn decls_ok(tds: Seq<TypeDecl>, imported: Seq<(Seq<char>, nat)>) -> bool {
    &&& decl_names_ok(tds)
    &&& ctor_names_ok(tds)
    &&& fields_ok(tds, all_arities(tds, imported))
}

/// Variant `(p, q)` comes before variant `(i, j)`.
pub open spec fn done(i: int, j: int, p: int, q: int) -> bool {
    p < i || (p == i && q < j)
}

pub open spec fn ctors_ok_before(tds: Seq<TypeDecl>, i: int, j: int) -> bool {
    &&& forall|p: int, q: int| is_variant(tds, p, q) && done(i, j, p, q) ==> !prelude_ctor(#[trigger] vname(tds, p, q))
    &&& forall|p: int, q: int, a: int, b: int|
        is_variant(tds, p, q) && is_variant(tds, a, b) && done(i, j, p, q) && done(i, j, a, b) && (p != a || q != b)
            ==> #[trigger] vname(tds, p, q) != #[trigger] vname(tds, a, b)
}

pub open spec fn fields_ok_before(tds: Seq<TypeDecl>, ar: Map<Seq<char>, nat>, i: int, j: int) -> bool {
    forall|p: int, q: int, k: int|
        is_variant(tds, p, q) && done(i, j, p, q) && 0 <= k < tds[p].variants@[q].fields@.len() ==> ref_error(
            tv(#[trigger] tds[p].variants@[q].fields@[k].0),
            ar,
            name_set(tds[p].params@),
        ) is None
}

pub open spec fn names_before(tds: Seq<TypeDecl>, i: int, j: int) -> Set<Seq<char>> {
    Set::new(|n: Seq<char>| exists|p: int, q: int| is_variant(tds, p, q) && done(i, j, p, q) && #[trigger] vname(tds, p, q) == n)
}

/// What registering the variants before `(i, j)` has done to the
/// environment and the engine.
pub open spec fn registered_before(out: TyEnv, inf: Infer, tds: Seq<TypeDecl>, env: TyEnv, i: int, j: int) -> bool {
    &&& forall|p: int, q: int| is_variant(tds, p, q) && done(i, j, p, q) ==> out.lookup(#[trigger] vname(tds, p, q)) == Some(
        ctor_scheme_spec(tds[p], tds[p].variants@[q]),
    ) && inf.user_ctor(vname(tds, p, q)) == Some(ctor_scheme_spec(tds[p], tds[p].variants@[q]))
    &&& forall|n: Seq<char>| !names_before(tds, i, j).contains(n) ==> #[trigger] out.lookup(n) == env.lookup(n)
}

proof fn lemma_name_set_push(v: Seq<String>, x: String)
    ensures
        name_set(v.push(x)) == name_set(v).insert(x@),
{
    assert forall|n: Seq<char>| name_set(v.push(x)).contains(n) implies name_set(v).insert(x@).contains(n) by {
        let k = choose|k: int| 0 <= k < v.push(x).len() && (#[trigger] v.push(x)[k])@ == n;
        if k < v.len() {
            assert(v.push(x)[k] == v[k]);
        }
    }
    assert forall|n: Seq<char>| name_set(v).insert(x@).contains(n) implies name_set(v.push(x)).contains(n) by {
        if n == x@ {
            assert(v.push(x)[v.len() as int] == x);
        } else {
            let k = choose|k: int| 0 <= k < v.len() && (#[trigger] v[k])@ == n;
            assert(v.push(x)[k] == v[k]);
        }
    }
    assert(name_set(v.push(x)) =~= name_set(v).insert(x@));
}

proof fn lemma_names_before_step(tds: Seq<TypeDecl>, i: int, j: int)
    requires
        is_variant(tds, i, j),
    ensures
        names_before(tds, i, j + 1) == names_before(tds, i, j).insert(vname(tds, i, j)),
{
    assert forall|n: Seq<char>| names_before(tds, i, j + 1).contains(n) implies names_before(tds, i, j).insert(vname(tds, i, j)).contains(n) by {
        let (p, q) = choose|p: int, q: int| is_variant(tds, p, q) && done(i, j + 1, p, q) && #[trigger] vname(tds, p, q) == n;
        if done(i, j, p, q) {
            assert(names_before(tds, i, j).contains(n));
        }
    }
    assert forall|n: Seq<char>| names_before(tds, i, j).insert(vname(tds, i, j)).contains(n) implies names_before(tds, i, j + 1).contains(n) by {
        if n == vname(tds, i, j) {
            assert(is_variant(tds, i, j) && done(i, j + 1, i, j) && vname(tds, i, j) == n);
        } else {
            let (p, q) = choose|p: int, q: int| is_variant(tds, p, q) && done(i, j, p, q) && #[trigger] vname(tds, p, q) == n;
            assert(done(i, j + 1, p, q));
        }
    }
    assert(names_before(tds, i, j + 1) =~= names_before(tds, i, j).insert(vname(tds, i, j)));
}

/// Registers the module's `type` declarations, before any value is
/// inferred: every declared type gets its arity, and every variant its
/// value-constructor scheme `f1 -> ... -> Name p1 p2` quantified over the
/// parameters, in the environment and in the engine, whose sum-type table
/// gets each type's variants. A declaration may name any declared type, an
/// imported one, or a built-in one, in any order.
pub fn register_type_decls(inf: &mut Infer, env: &TyEnv, type_decls: &Vec<TypeDecl>, imported_types: &NameMap<usize>) -> (r:
    Result<TyEnv, TypeError>)
    requires
        old(inf).wf(),
        imported_types.wf(),
        forall|i: int| 0 <= i < type_decls@.len() ==> (#[trigger] type_decls@[i]).params@.len() <= u32::MAX,
    ensures
        final(inf).wf(),
        final(inf).next_var() == old(inf).next_var(),
        final(inf).tsub() == old(inf).tsub(),
        final(inf).rsub() == old(inf).rsub(),
        r is Ok <==> decls_ok(type_decls@, arity_pairs(imported_types.entries@)),
        r matches Ok(e2) ==> registered_before(e2, *final(inf), type_decls@, *env, type_decls@.len() as int, 0),
        r matches Ok(e2) ==> forall|i: int| 0 <= i < type_decls@.len() ==> final(inf).user_sum(#[trigger] type_decls@[i].name@)
            == Some(decl_members(type_decls@[i])),
{
    let ghost tds = type_decls@;
    let ghost imp = arity_pairs(imported_types.entries@);
    let mut ar = match declared_arities(type_decls) {
        Ok(m) => m,
        Err(e) => {
            return Err(e);
        },
    };
    overlay_entries(&mut ar, &imported_types.entries);
    let b = builtin_types();
    overlay_entries(&mut ar, &b);
    let ghost all = all_arities(tds, imp);
    let mut out = env.duplicate();
    let mut ctor_names: Vec<String> = Vec::new();
    let mut i: usize = 0;
    proof {
        assert(names_before(tds, 0, 0) =~= Set::<Seq<char>>::empty());
        assert(name_set(ctor_names@) =~= Set::<Seq<char>>::empty());
    }
    while i < type_decls.len()
        invariant
            tds == type_decls@,
            imp == arity_pairs(imported_types.entries@),
            all == all_arities(tds, imp),
            inf.wf(),
            inf.next_var() == old(inf).next_var(),
            inf.tsub() == old(inf).tsub(),
            inf.rsub() == old(inf).rsub(),
            ar.wf(),
            arity_view(ar) == all,
            decl_names_ok(tds),
            forall|p: int| 0 <= p < tds.len() ==> (#[trigger] tds[p]).params@.len() <= u32::MAX,
            i <= tds.len(),
            ctors_ok_before(tds, i as int, 0),
            fields_ok_before(tds, all, i as int, 0),
            name_set(ctor_names@) == names_before(tds, i as int, 0),
            registered_before(out, *inf, tds, *env, i as int, 0),
            forall|p: int| 0 <= p < i ==> inf.user_sum(#[trigger] tds[p].name@) == Some(decl_members(tds[p])),
        decreases type_decls.len() - i,
    {
        let td = &type_decls[i];
        let pv = param_var_ids(&td.params);
        let (result_ty, quantified) = decl_result_type(td, &pv);
        let mut members: Vec<(String, usize)> = Vec::new();
        let mut m: usize = 0;
        while m < td.variants.len()
            invariant
                m <= td.variants@.len(),
                members@.len() == m,
                forall|x: int| 0 <= x < m ==> (#[trigger] members@[x]).0@ == td.variants@[x].name@ && members@[x].1 == td.variants@[x].fields@.len(),
            decreases td.variants.len() - m,
        {
            members.push((td.variants[m].name.clone(), td.variants[m].fields.len()));
            m = m + 1;
        }
        proof {
            assert(members@.map_values(|c: (String, usize)| (c.0@, c.1 as nat)) =~= decl_members(*td));
        }
        inf.add_user_sum(td.name.clone(), members);
        proof {
            assert forall|p: int| 0 <= p < i + 1 implies inf.user_sum(#[trigger] tds[p].name@) == Some(decl_members(tds[p])) by {
                if p < i {
                    assert(tds[p].name@ != tds[i as int].name@);
                }
            }
            assert forall|p: int, q: int| is_variant(tds, p, q) && done(i as int, 0, p, q) implies inf.user_ctor(#[trigger] vname(tds, p, q)) == Some(ctor_scheme_spec(tds[p], tds[p].variants@[q])) by {
            }
        }
        let mut j: usize = 0;
        while j < td.variants.len()
            invariant
                tds == type_decls@,
                imp == arity_pairs(imported_types.entries@),
                all == all_arities(tds, imp),
                inf.wf(),
                inf.next_var() == old(inf).next_var(),
                inf.tsub() == old(inf).tsub(),
                inf.rsub() == old(inf).rsub(),
                ar.wf(),
                arity_view(ar) == all,
                decl_names_ok(tds),
                i < tds.len(),
                td == &tds[i as int],
                ids_view(pv@) == param_ids_spec(td.params@),
                tv(result_ty) == decl_result(*td),
                quantified@ == decl_quantified(*td),
                j <= td.variants@.len(),
                ctors_ok_before(tds, i as int, j as int),
                fields_ok_before(tds, all, i as int, j as int),
                name_set(ctor_names@) == names_before(tds, i as int, j as int),
                registered_before(out, *inf, tds, *env, i as int, j as int),
                forall|p: int| 0 <= p <= i ==> inf.user_sum(#[trigger] tds[p].name@) == Some(decl_members(tds[p])),
            decreases td.variants.len() - j,
        {
            let v = &td.variants[j];
            let dup = has_name(&ctor_names, &v.name);
            let known = crate::prelude::constructor_scheme(v.name.as_str()).is_some();
            if dup || known {
                proof {
                    assert(vname(tds, i as int, j as int) == v.name@);
                    assert(!ctor_names_ok(tds)) by {
                        if dup {
                            assert(names_before(tds, i as int, j as int).contains(v.name@));
                            let (p, q) = choose|p: int, q: int| is_variant(tds, p, q) && done(i as int, j as int, p, q) && #[trigger] vname(tds, p, q) == v.name@;
                            assert(vname(tds, p, q) == vname(tds, i as int, j as int));
                        } else {
                            assert(prelude_ctor(vname(tds, i as int, j as int)));
                        }
                    }
                }
                return Err(TypeError::new(message3("duplicate constructor `", v.name.as_str(), "`"), v.span.start..v.span.end));
            }
            let ghost ctor_names_before = ctor_names@;
            ctor_names.push(v.name.clone());
            proof {
                assert(vname(tds, i as int, j as int) == v.name@);
                lemma_name_set_push(ctor_names_before, v.name);
                lemma_names_before_step(tds, i as int, j as int);
                assert(name_set(ctor_names@) =~= names_before(tds, i as int, j + 1));
                assert(ctors_ok_before(tds, i as int, j + 1)) by {
                    assert forall|p: int, q: int, a: int, c: int|
                        is_variant(tds, p, q) && is_variant(tds, a, c) && done(i as int, j + 1, p, q) && done(i as int, j + 1, a, c) && (p != a || q != c)
                        implies #[trigger] vname(tds, p, q) != #[trigger] vname(tds, a, c) by {
                        if !done(i as int, j as int, p, q) {
                            assert(p == i && q == j);
                            assert(names_before(tds, i as int, j as int).contains(vname(tds, a, c)));
                        } else if !done(i as int, j as int, a, c) {
                            assert(names_before(tds, i as int, j as int).contains(vname(tds, p, q)));
                        }
                    }
                }
            }
            let mut k: usize = 0;
            while k < v.fields.len()
                invariant
                    tds == type_decls@,
                    imp == arity_pairs(imported_types.entries@),
                    all == all_arities(tds, imp),
                    inf.wf(),
                    inf.next_var() == old(inf).next_var(),
                    inf.tsub() == old(inf).tsub(),
                    inf.rsub() == old(inf).rsub(),
                    ar.wf(),
                    arity_view(ar) == all,
                    i < tds.len(),
                    td == &tds[i as int],
                    j < td.variants@.len(),
                    v == &td.variants@[j as int],
                    k <= v.fields@.len(),
                    fields_ok_before(tds, all, i as int, j as int),
                    forall|x: int| 0 <= x < k ==> ref_error(tv(#[trigger] v.fields@[x].0), all, name_set(td.params@)) is None,
                decreases v.fields.len() - k,
            {
                let res = validate_type_refs(&v.fields[k].0, &v.fields[k].1, &ar, &td.params);
                if res.is_err() {
                    proof {
                        assert(!fields_ok(tds, all)) by {
                            assert(tds[i as int].variants@[j as int].fields@[k as int] == v.fields@[k as int]);
                        }
                    }
                    return match res {
                        Err(e) => Err(e),
                        Ok(()) => Ok(out),
                    };
                }
                k = k + 1;
            }
            proof {
                assert(fields_ok_before(tds, all, i as int, j + 1)) by {
                    assert forall|p: int, q: int, x: int|
                        is_variant(tds, p, q) && done(i as int, j + 1, p, q) && 0 <= x < tds[p].variants@[q].fields@.len()
                        implies ref_error(tv(#[trigger] tds[p].variants@[q].fields@[x].0), all, name_set(tds[p].params@)) is None by {
                        if !done(i as int, j as int, p, q) {
                            assert(tds[p].variants@[q] == *v);
                        }
                    }
                }
            }
            let ctor_ty = ctor_type_of(v, &pv, &result_ty);
            let mut vars: Vec<(u32, Constraint)> = Vec::new();
            let mut x: usize = 0;
            while x < quantified.len()
                invariant
                    x <= quantified@.len(),
                    vars@ == quantified@.subrange(0, x as int),
                decreases quantified.len() - x,
            {
                vars.push(quantified[x]);
                proof {
                    assert(vars@ =~= quantified@.subrange(0, x + 1));
                }
                x = x + 1;
            }
            proof {
                assert(quantified@.subrange(0, x as int) =~= quantified@);
            }
            let scheme = Scheme { vars, row_vars: Vec::new(), ty: ctor_ty };
            proof {
                assert(sv(scheme) == ctor_scheme_spec(tds[i as int], tds[i as int].variants@[j as int]));
            }
            inf.add_user_ctor(v.name.clone(), scheme.duplicate());
            out = out.insert(v.name.clone(), scheme);
            proof {
                let n = v.name@;
                assert(registered_before(out, *inf, tds, *env, i as int, j + 1)) by {
                    assert forall|p: int, q: int| is_variant(tds, p, q) && done(i as int, j + 1, p, q) implies out.lookup(#[trigger] vname(tds, p, q)) == Some(
                        ctor_scheme_spec(tds[p], tds[p].variants@[q]),
                    ) && inf.user_ctor(vname(tds, p, q)) == Some(ctor_scheme_spec(tds[p], tds[p].variants@[q])) by {
                        if done(i as int, j as int, p, q) {
                            assert(vname(tds, p, q) != vname(tds, i as int, j as int));
                        }
                    }
                    assert forall|m2: Seq<char>| !names_before(tds, i as int, j + 1).contains(m2) implies #[trigger] out.lookup(m2) == env.lookup(m2) by {
                        assert(names_before(tds, i as int, j + 1).contains(vname(tds, i as int, j as int)));
                        if names_before(tds, i as int, j as int).contains(m2) {
                            let (p, q) = choose|p: int, q: int| is_variant(tds, p, q) && done(i as int, j as int, p, q) && #[trigger] vname(tds, p, q) == m2;
                            assert(names_before(tds, i as int, j + 1).contains(m2));
                        }
                    }
                }
            }
            j = j + 1;
        }
        proof {
            assert(names_before(tds, i as int, j as int) =~= names_before(tds, i + 1, 0));
            assert(ctors_ok_before(tds, i + 1, 0)) by {
                assert forall|p: int, q: int| is_variant(tds, p, q) && done(i + 1, 0, p, q) implies !prelude_ctor(#[trigger] vname(tds, p, q)) by {
                    assert(done(i as int, j as int, p, q));
                }
                assert forall|p: int, q: int, a: int, c: int|
                    is_variant(tds, p, q) && is_variant(tds, a, c) && done(i + 1, 0, p, q) && done(i + 1, 0, a, c) && (p != a || q != c)
                    implies #[trigger] vname(tds, p, q) != #[trigger] vname(tds, a, c) by {
                    assert(done(i as int, j as int, p, q));
                    assert(done(i as int, j as int, a, c));
                }
            }
            assert(fields_ok_before(tds, all, i + 1, 0)) by {
                assert forall|p: int, q: int, x: int|
                    is_variant(tds, p, q) && done(i + 1, 0, p, q) && 0 <= x < tds[p].variants@[q].fields@.len()
                    implies ref_error(tv(#[trigger] tds[p].variants@[q].fields@[x].0), all, name_set(tds[p].params@)) is None by {
                    assert(done(i as int, j as int, p, q));
                }
            }
            assert(registered_before(out, *inf, tds, *env, i + 1, 0)) by {
                assert forall|p: int, q: int| is_variant(tds, p, q) && done(i + 1, 0, p, q) implies out.lookup(#[trigger] vname(tds, p, q)) == Some(
                    ctor_scheme_spec(tds[p], tds[p].variants@[q]),
                ) && inf.user_ctor(vname(tds, p, q)) == Some(ctor_scheme_spec(tds[p], tds[p].variants@[q])) by {
                    assert(done(i as int, j as int, p, q));
                }
            }
        }
        i = i + 1;
    }
    proof {
        assert(ctor_names_ok(tds)) by {
            assert forall|p: int, q: int| is_variant(tds, p, q) implies !prelude_ctor(#[trigger] vname(tds, p, q)) by {
                assert(done(i as int, 0, p, q));
            }
            assert forall|p: int, q: int, a: int, c: int|
                is_variant(tds, p, q) && is_variant(tds, a, c) && (p != a || q != c) implies #[trigger] vname(tds, p, q) != #[trigger] vname(tds, a, c) by {
                assert(done(i as int, 0, p, q));
                assert(done(i as int, 0, a, c));
            }
        }
        assert(fields_ok(tds, all)) by {
            assert forall|p: int, q: int, x: int| is_variant(tds, p, q) && 0 <= x < tds[p].variants@[q].fields@.len() implies ref_error(
                tv(#[trigger] tds[p].variants@[q].fields@[x].0),
                all,
                name_set(tds[p].params@),
            ) is None by {
                assert(done(i as int, 0, p, q));
            }
        }
    }
    Ok(out)
}


// ---------------------------------------------------------------------------
// Signatures of value declarations.
// ---------------------------------------------------------------------------

/// `base` with each entry of `e` stored in turn, a later entry replacing an
/// earlier one.
pub open spec fn assign(base: Map<Seq<char>, nat>, e: Seq<(Seq<char>, nat)>) -> Map<Seq<char>, nat>
    decreases e.len(),
{
    if e.len() == 0 {
        base
    } else {
        assign(base, e.drop_last()).insert(e.last().0, e.last().1)
    }
}

/// The declared types with their arities, in order.
pub open spec fn decl_pairs(tds: Seq<TypeDecl>) -> Seq<(Seq<char>, nat)> {
    tds.map_values(|td: TypeDecl| (td.name@, td.params@.len()))
}

/// The arities a signature is checked against: the built-ins, replaced by
/// imported types, replaced by the module's own.
pub open spec fn sig_arities(tds: Seq<TypeDecl>, imported: Seq<(Seq<char>, nat)>) -> Map<Seq<char>, nat> {
    assign(assign(assign(Map::empty(), builtin_types_spec()), imported), decl_pairs(tds))
}

/// The first problem with the signatures of `ds`.
pub open spec fn sig_error(ds: Seq<Decl>, ar: Map<Seq<char>, nat>) -> Option<(Seq<char>, Span)>
    decreases ds.len(),
{
    if ds.len() == 0 {
        None
    } else {
        match sig_error(ds.drop_last(), ar) {
            Some(e) => Some(e),
            None => match ds.last().sig {
                Some(sig) => match ref_error(tv(sig.0), ar, rigid_names(tv(sig.0))) {
                    Some(m) => Some((m, sig.1)),
                    None => None,
                },
                None => None,
            },
        }
    }
}

fn assign_entries(m: &mut NameMap<usize>, e: &Vec<(String, usize)>)
    requires
        old(m).wf(),
    ensures
        final(m).wf(),
        arity_view(*final(m)) == assign(arity_view(*old(m)), arity_pairs(e@)),
{
    let ghost base = arity_view(*m);
    let mut i: usize = 0;
    proof {
        assert(arity_pairs(e@).subrange(0, 0) =~= Seq::<(Seq<char>, nat)>::empty());
    }
    while i < e.len()
        invariant
            m.wf(),
            i <= e@.len(),
            arity_view(*m) == assign(base, arity_pairs(e@).subrange(0, i as int)),
        decreases e.len() - i,
    {
        let ghost m0 = *m;
        m.insert(e[i].0.clone(), e[i].1);
        proof {
            let s = arity_pairs(e@).subrange(0, i + 1);
            assert(s.drop_last() =~= arity_pairs(e@).subrange(0, i as int));
            assert(s.last() == (e@[i as int].0@, e@[i as int].1 as nat));
            assert(arity_view(*m) =~= arity_view(m0).insert(e@[i as int].0@, e@[i as int].1 as nat));
        }
        i = i + 1;
    }
    proof {
        assert(arity_pairs(e@).subrange(0, i as int) =~= arity_pairs(e@));
    }
}

/// Checks every type constructor a value declaration's signature names
/// against the built-in, imported and declared types; a signature's own
/// type variables are all in scope.
pub fn validate_signature_refs(type_decls: &Vec<TypeDecl>, decls: &Vec<Decl>, imported_types: &NameMap<usize>) -> (r: Result<
    (),
    TypeError,
>)
    ensures
        match sig_error(decls@, sig_arities(type_decls@, arity_pairs(imported_types.entries@))) {
            None => r is Ok,
            Some((m, sp)) => r matches Err(e) && e.msg@ == m && e.span == sp,
        },
{
    let mut ar: NameMap<usize> = NameMap::new();
    let b = builtin_types();
    proof {
        assert(arity_view(ar) =~= Map::<Seq<char>, nat>::empty());
    }
    assign_entries(&mut ar, &b);
    assign_entries(&mut ar, &imported_types.entries);
    let mut pairs: Vec<(String, usize)> = Vec::new();
    let mut t: usize = 0;
    while t < type_decls.len()
        invariant
            t <= type_decls@.len(),
            arity_pairs(pairs@) == decl_pairs(type_decls@).subrange(0, t as int),
        decreases type_decls.len() - t,
    {
        let ghost before = pairs@;
        pairs.push((type_decls[t].name.clone(), type_decls[t].params.len()));
        proof {
            assert(arity_pairs(pairs@) =~= arity_pairs(before).push((type_decls@[t as int].name@, type_decls@[t as int].params@.len())));
            assert(decl_pairs(type_decls@).subrange(0, t + 1) =~= decl_pairs(type_decls@).subrange(0, t as int).push(decl_pairs(type_decls@)[t as int]));
            assert(arity_pairs(pairs@) =~= decl_pairs(type_decls@).subrange(0, t + 1));
        }
        t = t + 1;
    }
    proof {
        assert(decl_pairs(type_decls@).subrange(0, t as int) =~= decl_pairs(type_decls@));
    }
    assign_entries(&mut ar, &pairs);
    let ghost all = sig_arities(type_decls@, arity_pairs(imported_types.entries@));
    let mut i: usize = 0;
    proof {
        assert(decls@.subrange(0, 0) =~= Seq::<Decl>::empty());
    }
    while i < decls.len()
        invariant
            ar.wf(),
            all == sig_arities(type_decls@, arity_pairs(imported_types.entries@)),
            arity_view(ar) == all,
            i <= decls@.len(),
            sig_error(decls@.subrange(0, i as int), all) is None,
        decreases decls.len() - i,
    {
        proof {
            assert(decls@.subrange(0, i + 1).drop_last() =~= decls@.subrange(0, i as int));
        }
        match &decls[i].sig {
            Some(sig) => {
                let bound = signature_rigids(&sig.0);
                let res = validate_type_refs(&sig.0, &sig.1, &ar, &bound);
                if res.is_err() {
                    proof {
                        let pre = decls@.subrange(0, i + 1);
                        assert(pre.last() == decls@[i as int]);
                        assert(sig_error(pre, all) is Some);
                        lemma_first_sig_error(decls@, i + 1, all);
                    }
                    return res;
                }
            },
            None => {},
        }
        proof {
            assert(decls@.subrange(0, i + 1).last() == decls@[i as int]);
        }
        i = i + 1;
    }
    proof {
        assert(decls@.subrange(0, i as int) =~= decls@);
    }
    Ok(())
}

proof fn lemma_first_sig_error(ds: Seq<Decl>, i: int, ar: Map<Seq<char>, nat>)
    requires
        0 <= i <= ds.len(),
        sig_error(ds.subrange(0, i), ar) is Some,
    ensures
        sig_error(ds, ar) == sig_error(ds.subrange(0, i), ar),
    decreases ds.len() - i,
{
    if i < ds.len() {
        assert(ds.subrange(0, i + 1).drop_last() =~= ds.subrange(0, i));
        lemma_first_sig_error(ds, i + 1, ar);
    } else {
        assert(ds.subrange(0, i) =~= ds);
    }
}

} // verus!
