//! Hindley-Milner type inference support: constrained type variables,
//! the glyph subtype injection, and the type environment.
//!
//! A `Var` carries a `Constraint` bound (`number`/`comparable`/`appendable`):
//! binding it to an inadmissible concrete type is an error, and two bounded
//! vars merge to the stronger bound. Each concrete glyph type unifies with
//! `Glyph` but not with the other glyph types.
use vstd::prelude::*;

use crate::ast::{sv, tv, Constraint, Scheme, SchemeV, Span, Type, TypeV};
use crate::names::NameMap;
use crate::text::push_str;

verus! {

pub struct TypeError {
    pub msg: String,
    pub span: Span,
    pub note: Option<String>,
}

impl TypeError {
    pub fn new(msg: String, span: Span) -> (r: TypeError)
        ensures
            r.msg == msg,
            r.span == span,
            r.note is None,
    {
        TypeError { msg, span, note: None }
    }

    pub fn note(self, n: &str) -> (r: TypeError)
        ensures
            r.msg == self.msg,
            r.span == self.span,
            r.note matches Some(s) && s@ == n@,
    {
        TypeError { msg: self.msg, span: self.span, note: Some(n.to_string()) }
    }
}

/// The stronger of two bounds, or `None` when no type can satisfy both.
pub open spec fn merge_spec(a: Constraint, b: Constraint) -> Option<Constraint> {
    match (a, b) {
        (Constraint::Free, other) => Some(other),
        (other, Constraint::Free) => Some(other),
        (Constraint::Number, Constraint::Number) => Some(Constraint::Number),
        (Constraint::Comparable, Constraint::Comparable) => Some(Constraint::Comparable),
        (Constraint::Appendable, Constraint::Appendable) => Some(Constraint::Appendable),
        (Constraint::Number, Constraint::Comparable) => Some(Constraint::Number),
        (Constraint::Comparable, Constraint::Number) => Some(Constraint::Number),
        _ => None,
    }
}

/// The stronger of two bounds when two constrained vars unify, or `None`
/// when no type can satisfy both. `Free` is the identity; `number` is inside
/// `comparable`; `appendable` merges with neither.
pub fn merge_constraints(a: Constraint, b: Constraint) -> (r: Option<Constraint>)
    ensures
        r == merge_spec(a, b),
{
    match (a, b) {
        (Constraint::Free, other) => Some(other),
        (other, Constraint::Free) => Some(other),
        (Constraint::Number, Constraint::Number) => Some(Constraint::Number),
        (Constraint::Comparable, Constraint::Comparable) => Some(Constraint::Comparable),
        (Constraint::Appendable, Constraint::Appendable) => Some(Constraint::Appendable),
        (Constraint::Number, Constraint::Comparable) => Some(Constraint::Number),
        (Constraint::Comparable, Constraint::Number) => Some(Constraint::Number),
        _ => None,
    }
}

/// Whether a type satisfies a bound: `number` admits `Int`/`Float`,
/// `comparable` also `String`, `appendable` admits `String`/`List a`; a
/// non-constructor type only satisfies `Free`.
pub open spec fn admits_spec(c: Constraint, t: TypeV) -> bool {
    match t {
        TypeV::Con(name, _) => match c {
            Constraint::Free => true,
            Constraint::Number => name == "Int"@ || name == "Float"@,
            Constraint::Comparable => name == "Int"@ || name == "Float"@ || name == "String"@,
            Constraint::Appendable => name == "String"@ || name == "List"@,
        },
        _ => c == Constraint::Free,
    }
}

/// Merging two bounds keeps exactly the types both admit.
pub proof fn law_merge_keeps_common_types(a: Constraint, b: Constraint, t: TypeV)
    requires
        merge_spec(a, b) is Some,
    ensures
        admits_spec(merge_spec(a, b)->0, t) == (admits_spec(a, t) && admits_spec(b, t)),
{
}

/// Merging bounds does not depend on their order, and `Free` changes nothing.
pub proof fn law_merge_commutes(a: Constraint, b: Constraint)
    ensures
        merge_spec(a, b) == merge_spec(b, a),
        merge_spec(a, Constraint::Free) == Some(a),
{
}

/// An unsatisfiable merge leaves no numeric type admitted by both bounds.
pub proof fn law_unsatisfiable_merge_excludes_numbers(a: Constraint, b: Constraint, t: TypeV)
    requires
        merge_spec(a, b) is None,
        a != Constraint::Comparable || b != Constraint::Appendable,
        a != Constraint::Appendable || b != Constraint::Comparable,
    ensures
        !(admits_spec(a, t) && admits_spec(b, t)),
{
    reveal_strlit("Int");
    reveal_strlit("Float");
    reveal_strlit("String");
    reveal_strlit("List");
    assert("Int"@.len() == 3 && "Float"@.len() == 5 && "String"@.len() == 6 && "List"@.len() == 4);
    assert("Int"@ != "String"@ && "Int"@ != "List"@ && "Float"@ != "String"@ && "Float"@ != "List"@);
}

pub fn constraint_admits(c: Constraint, t: &Type) -> (r: bool)
    ensures
        r == admits_spec(c, tv(*t)),
{
    match t {
        Type::Con(name, _) => match c {
            Constraint::Free => true,
            Constraint::Number => name_is(name, "Int") || name_is(name, "Float"),
            Constraint::Comparable => name_is(name, "Int") || name_is(name, "Float") || name_is(
                name,
                "String",
            ),
            Constraint::Appendable => name_is(name, "String") || name_is(name, "List"),
        },
        _ => match c {
            Constraint::Free => true,
            _ => false,
        },
    }
}

/// Whether a name is the given literal.
pub fn name_is(name: &String, lit: &str) -> (r: bool)
    ensures
        r == (name@ == lit@),
{
    crate::text::str_eq(name.as_str(), lit)
}

pub open spec fn constraint_name_spec(c: Constraint) -> Seq<char> {
    match c {
        Constraint::Free => "unconstrained"@,
        Constraint::Number => "number"@,
        Constraint::Comparable => "comparable"@,
        Constraint::Appendable => "appendable"@,
    }
}

pub fn constraint_name(c: Constraint) -> (r: &'static str)
    ensures
        r@ == constraint_name_spec(c),
{
    match c {
        Constraint::Free => "unconstrained",
        Constraint::Number => "number",
        Constraint::Comparable => "comparable",
        Constraint::Appendable => "appendable",
    }
}

pub open spec fn glyph_subtype_spec(name: Seq<char>) -> bool {
    name == "AptPackage"@ || name == "SystemdService"@ || name == "Filesystem"@ || name
        == "LineInFile"@
}

/// The concrete glyph types, each of which injects into `Glyph`.
pub fn is_glyph_subtype(name: &String) -> (r: bool)
    ensures
        r == glyph_subtype_spec(name@),
{
    name_is(name, "AptPackage") || name_is(name, "SystemdService") || name_is(name, "Filesystem")
        || name_is(name, "LineInFile")
}

/// Whether the nullary glyph type `from` widens into the nullary `to`: only
/// into `Glyph`, never into a sibling glyph type.
pub fn glyph_widens_into(from: &String, from_args: &Vec<Type>, to: &String, to_args: &Vec<Type>) -> (r:
    bool)
    ensures
        r == (from_args@.len() == 0 && to_args@.len() == 0 && to@ == "Glyph"@
            && glyph_subtype_spec(from@)),
{
    from_args.len() == 0 && to_args.len() == 0 && name_is(to, "Glyph") && is_glyph_subtype(from)
}

/// The nullary type constructor `name`.
pub fn con(name: &str) -> (r: Type)
    ensures
        tv(r) == TypeV::Con(name@, Seq::empty()),
{
    let r = Type::Con(name.to_string(), Vec::new());
    proof {
        assert(crate::ast::tvs(Seq::<Type>::empty()) =~= Seq::<TypeV>::empty());
    }
    r
}

/// A scheme quantifying nothing.
pub fn mono(t: Type) -> (r: Scheme)
    ensures
        r.vars@.len() == 0,
        r.row_vars@.len() == 0,
        r.ty == t,
{
    Scheme { vars: Vec::new(), row_vars: Vec::new(), ty: t }
}

/// The constructor-scope contribution of a module's open-exposed imports:
/// each imported constructor's scheme and each imported type's variant set.
pub struct ImportedConstructors {
    pub ctor_schemes: NameMap<Scheme>,
    pub sum_ctors: NameMap<Vec<(String, usize)>>,
}

impl ImportedConstructors {
    pub fn empty() -> (r: ImportedConstructors)
        ensures
            r.ctor_schemes.wf(),
            r.sum_ctors.wf(),
            r.ctor_schemes.entries@.len() == 0,
            r.sum_ctors.entries@.len() == 0,
    {
        ImportedConstructors { ctor_schemes: NameMap::new(), sum_ctors: NameMap::new() }
    }
}

/// The type environment: each bound name's scheme, sorted by name.
pub struct TyEnv(NameMap<Scheme>);

impl TyEnv {
    #[verifier::type_invariant]
    spec fn inv(self) -> bool {
        self.0.wf()
    }

    /// The scheme bound to `k`, if any.
    pub closed spec fn lookup(self, k: Seq<char>) -> Option<SchemeV> {
        match self.0.get_spec(k) {
            Some(s) => Some(sv(s)),
            None => None,
        }
    }

    /// The bound names with their schemes, in name order.
    pub closed spec fn listing(self) -> Seq<(Seq<char>, SchemeV)> {
        self.0.entries@.map_values(|e: (String, Scheme)| (e.0@, sv(e.1)))
    }

    pub fn new() -> (r: TyEnv)
        ensures
            forall|k: Seq<char>| #[trigger] r.lookup(k) is None,
            r.listing().len() == 0,
    {
        TyEnv(NameMap::new())
    }

    pub fn get(&self, k: &str) -> (r: Option<&Scheme>)
        ensures
            r matches Some(s) ==> self.lookup(k@) == Some(sv(*s)),
            r is None ==> self.lookup(k@) is None,
    {
        proof {
            use_type_invariant(self);
        }
        self.0.get(k)
    }

    /// A copy of the scheme bound to `k`.
    pub fn scheme(&self, k: &str) -> (r: Option<Scheme>)
        ensures
            r matches Some(s) ==> self.lookup(k@) == Some(sv(s)),
            r is None ==> self.lookup(k@) is None,
    {
        match self.get(k) {
            Some(s) => Some(s.duplicate()),
            None => None,
        }
    }

    /// Whether `k` is bound.
    pub fn has(&self, k: &str) -> (r: bool)
        ensures
            r == self.lookup(k@) is Some,
    {
        proof {
            use_type_invariant(self);
        }
        self.0.contains(k)
    }

    /// A copy of the environment.
    pub fn duplicate(&self) -> (r: TyEnv)
        ensures
            forall|k: Seq<char>| #[trigger] r.lookup(k) == self.lookup(k),
            r.listing() == self.listing(),
    {
        proof {
            use_type_invariant(self);
        }
        let mut entries: Vec<(String, Scheme)> = Vec::new();
        let mut i: usize = 0;
        let ghost src = self.0.entries@;
        while i < self.0.entries.len()
            invariant
                i <= src.len(),
                src == self.0.entries@,
                entries@.len() == i,
                forall|j: int| 0 <= j < i ==> #[trigger] entries@[j].0@ == src[j].0@ && sv(entries@[j].1) == sv(src[j].1),
            decreases src.len() - i,
        {
            let name = self.0.entries[i].0.clone();
            let s = self.0.entries[i].1.duplicate();
            entries.push((name, s));
            i = i + 1;
        }
        let m = NameMap { entries };
        proof {
            assert(crate::names::sorted_keys(m.entries@)) by {
                assert forall|a: int, b: int| 0 <= a < b < m.entries@.len() implies crate::text::seq_lt(#[trigger] m.entries@[a].0@, #[trigger] m.entries@[b].0@) by {
                    assert(entries@[a].0@ == src[a].0@);
                    assert(entries@[b].0@ == src[b].0@);
                }
            }
            assert forall|k: Seq<char>| #[trigger] TyEnv(m).lookup(k) == self.lookup(k) by {
                lemma_lookup_sv(m.entries@, src, k);
            }
            assert(TyEnv(m).listing() =~= self.listing());
        }
        TyEnv(m)
    }

    /// The environment extended with `k : s` (the original is left as is).
    pub fn insert(&self, k: String, s: Scheme) -> (r: TyEnv)
        ensures
            r.lookup(k@) == Some(sv(s)),
            forall|j: Seq<char>| j != k@ ==> #[trigger] r.lookup(j) == self.lookup(j),
    {
        let mut d = self.duplicate();
        d.bind_in_place(k, s);
        d
    }

    fn bind_in_place(&mut self, k: String, s: Scheme)
        ensures
            final(self).lookup(k@) == Some(sv(s)),
            forall|j: Seq<char>| j != k@ ==> #[trigger] final(self).lookup(j) == old(self).lookup(j),
    {
        proof {
            use_type_invariant(&*self);
        }
        let mut m = NameMap { entries: Vec::new() };
        std::mem::swap(&mut m, &mut self.0);
        m.insert(k, s);
        self.0 = m;
    }

    /// The environment extended with `k : s`, consuming the original.
    pub fn bind(self, k: String, s: Scheme) -> (r: TyEnv)
        ensures
            r.lookup(k@) == Some(sv(s)),
            forall|j: Seq<char>| j != k@ ==> #[trigger] r.lookup(j) == self.lookup(j),
    {
        let mut e = self;
        e.bind_in_place(k, s);
        e
    }

    /// The bound names and schemes, in name order.
    pub fn entries(&self) -> (r: &Vec<(String, Scheme)>)
        ensures
            r@.map_values(|e: (String, Scheme)| (e.0@, sv(e.1))) == self.listing(),
            forall|i: int, j: int| 0 <= i < j < r@.len() ==> crate::text::seq_lt(#[trigger] r@[i].0@, #[trigger] r@[j].0@),
            forall|i: int| 0 <= i < r@.len() ==> self.lookup(#[trigger] r@[i].0@) == Some(sv(r@[i].1)),
            forall|k: Seq<char>| #[trigger] self.lookup(k) is Some ==> exists|i: int| 0 <= i < r@.len() && #[trigger] r@[i].0@ == k,
    {
        proof {
            use_type_invariant(self);
            let e = self.0.entries@;
            assert forall|i: int| 0 <= i < e.len() implies self.lookup(#[trigger] e[i].0@) == Some(sv(e[i].1)) by {
                crate::names::lemma_lookup_index(e, e[i].0@);
            }
            assert forall|k: Seq<char>| #[trigger] self.lookup(k) is Some implies exists|i: int| 0 <= i < e.len() && #[trigger] e[i].0@ == k by {
                crate::names::lemma_lookup_index(e, k);
            }
        }
        &self.0.entries
    }
}

proof fn lemma_lookup_sv(a: Seq<(String, Scheme)>, b: Seq<(String, Scheme)>, k: Seq<char>)
    requires
        a.len() == b.len(),
        forall|j: int| 0 <= j < a.len() ==> #[trigger] a[j].0@ == b[j].0@ && sv(a[j].1) == sv(b[j].1),
    ensures
        (match crate::names::lookup(a, k) {
            Some(s) => Some(sv(s)),
            None => None::<crate::ast::SchemeV>,
        }) == (match crate::names::lookup(b, k) {
            Some(s) => Some(sv(s)),
            None => None::<crate::ast::SchemeV>,
        }),
    decreases a.len(),
{
    if a.len() > 0 {
        assert(a[0].0@ == b[0].0@);
        lemma_lookup_sv(a.drop_first(), b.drop_first(), k);
    }
}

/// Render a message `prefix` + constraint name + `suffix`.
pub fn constraint_message(prefix: &str, c: Constraint, suffix: &str) -> (r: String)
    ensures
        r@ == prefix@ + constraint_name_spec(c) + suffix@,
{
    let mut s = String::new();
    push_str(&mut s, prefix);
    push_str(&mut s, constraint_name(c));
    push_str(&mut s, suffix);
    proof {
        assert(s@ =~= prefix@ + constraint_name_spec(c) + suffix@);
    }
    s
}

} // verus!
