//! Type schemes: the free variables of a type, generalizing a type over the
//! variables its environment does not mention, and instantiating a scheme or
//! a signature with fresh variables.
use vstd::prelude::*;

use crate::ast::{lemma_tvs, tv, tvs, fvs, lemma_fvs, Constraint, Row, Type, TypeV};
use crate::engine::{rvars, rvars_fields, rvars_seq, tvars, tvars_fields, tvars_seq};
use crate::ast::{sv, Scheme, SchemeV};
use crate::engine::{app, compose_tsub, lemma_compose_v, sub_ok, substv, wf_ty, below, clean, Infer, RSub, TSub};
use crate::unify::{lemma_refines_bind_v, lemma_refines_self, lemma_refines_trans, refines, tsize, tsize_seq, tsize_fields};
use crate::text::str_eq;
use crate::infer::{glyph_subtype_spec, is_glyph_subtype, name_is, TyEnv};

verus! {

// ---------------------------------------------------------------------------
// Function types.
// ---------------------------------------------------------------------------

/// The parameter types and the result type of a curried function type.
pub open spec fn uncurry_spec(t: TypeV) -> (Seq<TypeV>, TypeV)
    decreases t,
{
    match t {
        TypeV::Fun(a, b) => (seq![*a] + uncurry_spec(*b).0, uncurry_spec(*b).1),
        _ => (Seq::empty(), t),
    }
}

/// Splits `a -> b -> r` into `[a, b]` and `r`.
pub fn uncurry(ty: &Type) -> (r: (Vec<Type>, Type))
    ensures
        tvs(r.0@) == uncurry_spec(tv(*ty)).0,
        tv(r.1) == uncurry_spec(tv(*ty)).1,
    decreases ty,
{
    match ty {
        Type::Fun(a, b) => {
            let (rest, res) = uncurry(b);
            let mut args: Vec<Type> = Vec::new();
            args.push(a.duplicate());
            let mut i: usize = 0;
            proof {
                lemma_tvs(rest@);
            }
            while i < rest.len()
                invariant
                    i <= rest@.len(),
                    args@.len() == i + 1,
                    tv(args@[0]) == tv(**a),
                    tvs(rest@).len() == rest@.len(),
                    forall|k: int| 0 <= k < rest@.len() ==> #[trigger] tvs(rest@)[k] == tv(rest@[k]),
                    forall|k: int| 0 <= k < i ==> #[trigger] tv(args@[k + 1]) == tv(rest@[k]),
                decreases rest.len() - i,
            {
                args.push(rest[i].duplicate());
                i = i + 1;
            }
            proof {
                lemma_tvs(args@);
                assert(tvs(args@) =~= seq![tv(**a)] + tvs(rest@)) by {
                    assert forall|k: int| 0 <= k < args@.len() implies #[trigger] tvs(args@)[k] == (seq![tv(**a)] + tvs(rest@))[k] by {
                        if k > 0 {
                            assert(tv(args@[(k - 1) + 1]) == tv(rest@[k - 1]));
                        }
                    }
                }
            }
            (args, res)
        },
        _ => {
            proof {
                assert(tvs(Seq::<Type>::empty()) =~= Seq::<TypeV>::empty());
            }
            (Vec::new(), ty.duplicate())
        },
    }
}

// ---------------------------------------------------------------------------
// Glyph types.
// ---------------------------------------------------------------------------

/// A concrete glyph type read as `Glyph`, also as the element of a list.
pub open spec fn widen_glyph_spec(t: TypeV) -> TypeV
    decreases t,
{
    match t {
        TypeV::Con(n, args) => if args.len() == 0 && glyph_subtype_spec(n) {
            TypeV::Con("Glyph"@, Seq::empty())
        } else if n == "List"@ && args.len() == 1 {
            TypeV::Con(n, seq![widen_glyph_spec(args[0])])
        } else {
            t
        },
        _ => t,
    }
}

/// Promotes a concrete glyph type (`AptPackage`, ...) to `Glyph`, also as a
/// list's element type, so that a mixed list of glyphs is a `List Glyph`.
pub fn widen_glyph_type(t: &Type) -> (r: Type)
    ensures
        tv(r) == widen_glyph_spec(tv(*t)),
    decreases t,
{
    match t {
        Type::Con(name, args) => {
            proof {
                lemma_tvs(args@);
            }
            if args.len() == 0 && is_glyph_subtype(name) {
                crate::infer::con("Glyph")
            } else if name_is(name, "List") && args.len() == 1 {
                proof {
                    assert(decreases_to!(args => args[0]));
                }
                let inner = widen_glyph_type(&args[0]);
                let v = vec![inner];
                proof {
                    lemma_tvs(v@);
                    assert(tvs(v@) =~= seq![widen_glyph_spec(tvs(args@)[0])]);
                }
                Type::Con(name.clone(), v)
            } else {
                t.duplicate()
            }
        },
        _ => t.duplicate(),
    }
}

// ---------------------------------------------------------------------------
// Free variables.
// ---------------------------------------------------------------------------

/// The type variables of a type, each with the bound it carries there.
pub open spec fn tvar_occ(t: TypeV) -> Set<(u32, Constraint)>
    decreases t,
{
    match t {
        TypeV::Var(v, c) => set![(v, c)],
        TypeV::Rigid(_) => Set::empty(),
        TypeV::Con(_, args) => tvar_occ_seq(args),
        TypeV::Fun(a, b) => tvar_occ(*a).union(tvar_occ(*b)),
        TypeV::Record(fs, _) => tvar_occ_fields(fs),
        TypeV::Tuple(es) => tvar_occ_seq(es),
    }
}

pub open spec fn tvar_occ_seq(s: Seq<TypeV>) -> Set<(u32, Constraint)>
    decreases s,
{
    if s.len() == 0 {
        Set::empty()
    } else {
        tvar_occ_seq(s.drop_last()).union(tvar_occ(s.last()))
    }
}

pub open spec fn tvar_occ_fields(s: Seq<(Seq<char>, TypeV)>) -> Set<(u32, Constraint)>
    decreases s,
{
    if s.len() == 0 {
        Set::empty()
    } else {
        tvar_occ_fields(s.drop_last()).union(tvar_occ(s.last().1))
    }
}

/// The ids of a list of variables with bounds.
pub open spec fn var_ids(s: Seq<(u32, Constraint)>) -> Set<u32> {
    Set::new(|v: u32| exists|i: int| 0 <= i < s.len() && (#[trigger] s[i]).0 == v)
}

/// No id appears twice.
pub open spec fn ids_distinct(s: Seq<(u32, Constraint)>) -> bool {
    forall|i: int, j: int| 0 <= i < j < s.len() ==> (#[trigger] s[i]).0 != (#[trigger] s[j]).0
}

/// A well-kept accumulator of type variables for `t`: it extends `acc0`,
/// has no id twice, and holds the ids of `acc0` and of `t`, each new one
/// with a bound it carries in `t`.
pub open spec fn tv_collected(acc: Seq<(u32, Constraint)>, acc0: Seq<(u32, Constraint)>, vars: Set<u32>, occ: Set<(u32, Constraint)>) -> bool {
    &&& acc0.len() <= acc.len()
    &&& acc.subrange(0, acc0.len() as int) == acc0
    &&& ids_distinct(acc)
    &&& var_ids(acc) == var_ids(acc0).union(vars)
    &&& forall|i: int| acc0.len() <= i < acc.len() ==> occ.contains(#[trigger] acc[i])
}

proof fn lemma_collected_refl(acc: Seq<(u32, Constraint)>, occ: Set<(u32, Constraint)>)
    requires
        ids_distinct(acc),
    ensures
        tv_collected(acc, acc, Set::empty(), occ),
{
    assert(acc.subrange(0, acc.len() as int) =~= acc);
    assert(var_ids(acc).union(Set::empty()) =~= var_ids(acc));
}

proof fn lemma_collected_trans(
    a2: Seq<(u32, Constraint)>,
    a1: Seq<(u32, Constraint)>,
    a0: Seq<(u32, Constraint)>,
    v1: Set<u32>,
    v2: Set<u32>,
    o1: Set<(u32, Constraint)>,
    o2: Set<(u32, Constraint)>,
)
    requires
        tv_collected(a1, a0, v1, o1),
        tv_collected(a2, a1, v2, o2),
    ensures
        tv_collected(a2, a0, v1.union(v2), o1.union(o2)),
{
    assert(a2.subrange(0, a0.len() as int) =~= a1.subrange(0, a0.len() as int)) by {
        assert forall|i: int| 0 <= i < a0.len() implies a2.subrange(0, a0.len() as int)[i] == a1.subrange(0, a0.len() as int)[i] by {
            assert(a2.subrange(0, a1.len() as int)[i] == a1[i]);
        }
    }
    assert(var_ids(a2) =~= var_ids(a0).union(v1.union(v2)));
    assert forall|i: int| a0.len() <= i < a2.len() implies o1.union(o2).contains(#[trigger] a2[i]) by {
        if i < a1.len() {
            assert(a2.subrange(0, a1.len() as int)[i] == a1[i]);
        }
    }
}

/// Adds the type variables of `t` to `acc`, each id once, keeping the first
/// bound met.
fn collect_tv(t: &Type, acc: &mut Vec<(u32, Constraint)>)
    requires
        ids_distinct(old(acc)@),
    ensures
        tv_collected(final(acc)@, old(acc)@, tvars(tv(*t)), tvar_occ(tv(*t))),
    decreases t,
{
    let ghost a0 = acc@;
    match t {
        Type::Var(v, c) => {
            let mut i: usize = 0;
            while i < acc.len()
                invariant
                    acc@ == a0,
                    ids_distinct(a0),
                    tv(*t) == TypeV::Var(*v, *c),
                    i <= acc@.len(),
                    forall|k: int| 0 <= k < i ==> (#[trigger] acc@[k]).0 != *v,
                decreases acc.len() - i,
            {
                if acc[i].0 == *v {
                    proof {
                        lemma_collected_refl(a0, tvar_occ(tv(*t)));
                        assert(a0[i as int].0 == *v);
                        assert(var_ids(a0).contains(*v));
                        assert(var_ids(a0).union(set![*v]) =~= var_ids(a0));
                        assert(tvars(tv(*t)) == set![*v]);
                    }
                    return;
                }
                i = i + 1;
            }
            acc.push((*v, *c));
            proof {
                assert(acc@.subrange(0, a0.len() as int) =~= a0);
                assert(var_ids(acc@) =~= var_ids(a0).union(set![*v])) by {
                    assert(acc@[a0.len() as int].0 == *v);
                    assert forall|u: u32| var_ids(acc@).contains(u) implies var_ids(a0).union(set![*v]).contains(u) by {
                        let k = choose|k: int| 0 <= k < acc@.len() && (#[trigger] acc@[k]).0 == u;
                        if k < a0.len() {
                            assert(a0[k] == acc@[k]);
                        }
                    }
                    assert forall|u: u32| var_ids(a0).contains(u) implies var_ids(acc@).contains(u) by {
                        let k = choose|k: int| 0 <= k < a0.len() && (#[trigger] a0[k]).0 == u;
                        assert(acc@[k] == a0[k]);
                    }
                }
            }
        },
        Type::Rigid(_) => {
            proof {
                lemma_collected_refl(a0, tvar_occ(tv(*t)));
            }
        },
        Type::Con(_, args) => collect_tv_all(args, acc),
        Type::Tuple(es) => collect_tv_all(es, acc),
        Type::Fun(a, b) => {
            collect_tv(a, acc);
            let ghost a1 = acc@;
            collect_tv(b, acc);
            proof {
                lemma_collected_trans(acc@, a1, a0, tvars(tv(**a)), tvars(tv(**b)), tvar_occ(tv(**a)), tvar_occ(tv(**b)));
            }
        },
        Type::Record(fs, _) => collect_tv_fields(fs, acc),
    }
}

fn collect_tv_all(ts: &Vec<Type>, acc: &mut Vec<(u32, Constraint)>)
    requires
        ids_distinct(old(acc)@),
    ensures
        tv_collected(final(acc)@, old(acc)@, tvars_seq(tvs(ts@)), tvar_occ_seq(tvs(ts@))),
    decreases ts,
{
    let ghost a0 = acc@;
    let mut i: usize = 0;
    proof {
        lemma_tvs(ts@);
        lemma_collected_refl(a0, Set::empty());
        assert(tvs(ts@).subrange(0, 0) =~= Seq::<TypeV>::empty());
    }
    while i < ts.len()
        invariant
            i <= ts@.len(),
            tvs(ts@).len() == ts@.len(),
            forall|k: int| 0 <= k < ts@.len() ==> #[trigger] tvs(ts@)[k] == tv(ts@[k]),
            tv_collected(acc@, a0, tvars_seq(tvs(ts@).subrange(0, i as int)), tvar_occ_seq(tvs(ts@).subrange(0, i as int))),
        decreases ts.len() - i,
    {
        proof {
            assert(decreases_to!(ts => ts[i as int]));
        }
        let ghost a1 = acc@;
        collect_tv(&ts[i], acc);
        proof {
            let s = tvs(ts@);
            assert(s.subrange(0, i + 1).drop_last() =~= s.subrange(0, i as int));
            lemma_collected_trans(acc@, a1, a0, tvars_seq(s.subrange(0, i as int)), tvars(s[i as int]), tvar_occ_seq(s.subrange(0, i as int)), tvar_occ(s[i as int]));
        }
        i = i + 1;
    }
    proof {
        assert(tvs(ts@).subrange(0, i as int) =~= tvs(ts@));
    }
}

fn collect_tv_fields(fs: &Vec<(String, Type)>, acc: &mut Vec<(u32, Constraint)>)
    requires
        ids_distinct(old(acc)@),
    ensures
        tv_collected(final(acc)@, old(acc)@, tvars_fields(fvs(fs@)), tvar_occ_fields(fvs(fs@))),
    decreases fs,
{
    let ghost a0 = acc@;
    let mut i: usize = 0;
    proof {
        lemma_fvs(fs@);
        lemma_collected_refl(a0, Set::empty());
        assert(fvs(fs@).subrange(0, 0) =~= Seq::<(Seq<char>, TypeV)>::empty());
    }
    while i < fs.len()
        invariant
            i <= fs@.len(),
            fvs(fs@).len() == fs@.len(),
            forall|k: int| 0 <= k < fs@.len() ==> #[trigger] fvs(fs@)[k] == (fs@[k].0@, tv(fs@[k].1)),
            tv_collected(acc@, a0, tvars_fields(fvs(fs@).subrange(0, i as int)), tvar_occ_fields(fvs(fs@).subrange(0, i as int))),
        decreases fs.len() - i,
    {
        proof {
            assert(decreases_to!(fs => fs[i as int]));
            assert(decreases_to!(fs[i as int] => fs[i as int].1));
        }
        let ghost a1 = acc@;
        collect_tv(&fs[i].1, acc);
        proof {
            let s = fvs(fs@);
            assert(s.subrange(0, i + 1).drop_last() =~= s.subrange(0, i as int));
            lemma_collected_trans(acc@, a1, a0, tvars_fields(s.subrange(0, i as int)), tvars(s[i as int].1), tvar_occ_fields(s.subrange(0, i as int)), tvar_occ(s[i as int].1));
        }
        i = i + 1;
    }
    proof {
        assert(fvs(fs@).subrange(0, i as int) =~= fvs(fs@));
    }
}


/// Adds `v` to a list of distinct ids, unless it is there.
fn push_unique(acc: &mut Vec<u32>, v: u32)
    requires
        old(acc)@.no_duplicates(),
    ensures
        final(acc)@.no_duplicates(),
        final(acc)@.to_set() == old(acc)@.to_set().insert(v),
        old(acc)@.len() <= final(acc)@.len(),
        final(acc)@.subrange(0, old(acc)@.len() as int) == old(acc)@,
{
    let ghost a0 = acc@;
    let mut i: usize = 0;
    while i < acc.len()
        invariant
            acc@ == a0,
            a0.no_duplicates(),
            i <= acc@.len(),
            forall|k: int| 0 <= k < i ==> acc@[k] != v,
        decreases acc.len() - i,
    {
        if acc[i] == v {
            proof {
                assert(a0.to_set().contains(v));
                assert(a0.to_set().insert(v) =~= a0.to_set());
                assert(a0.subrange(0, a0.len() as int) =~= a0);
            }
            return;
        }
        i = i + 1;
    }
    acc.push(v);
    proof {
        assert(acc@.subrange(0, a0.len() as int) =~= a0);
        assert(acc@.to_set() =~= a0.to_set().insert(v)) by {
            assert forall|u: u32| acc@.to_set().contains(u) implies a0.to_set().insert(v).contains(u) by {
                let k = choose|k: int| 0 <= k < acc@.len() && acc@[k] == u;
                if k < a0.len() {
                    assert(a0[k] == acc@[k]);
                }
            }
            assert forall|u: u32| a0.to_set().insert(v).contains(u) implies acc@.to_set().contains(u) by {
                if u == v {
                    assert(acc@[a0.len() as int] == v);
                } else {
                    let k = choose|k: int| 0 <= k < a0.len() && a0[k] == u;
                    assert(acc@[k] == a0[k]);
                }
            }
        }
    }
}

/// Adds the row variables of `t` to a list of distinct ids.
fn collect_rv(t: &Type, acc: &mut Vec<u32>)
    requires
        old(acc)@.no_duplicates(),
    ensures
        final(acc)@.no_duplicates(),
        final(acc)@.to_set() == old(acc)@.to_set().union(rvars(tv(*t))),
    decreases t,
{
    let ghost a0 = acc@;
    match t {
        Type::Var(_, _) | Type::Rigid(_) => {
            proof {
                assert(a0.to_set().union(Set::empty()) =~= a0.to_set());
            }
        },
        Type::Con(_, args) => collect_rv_all(args, acc),
        Type::Tuple(es) => collect_rv_all(es, acc),
        Type::Fun(a, b) => {
            collect_rv(a, acc);
            collect_rv(b, acc);
            proof {
                assert(acc@.to_set() =~= a0.to_set().union(rvars(tv(*t))));
            }
        },
        Type::Record(fs, row) => {
            collect_rv_fields(fs, acc);
            let ghost a1 = acc@;
            match row {
                Row::Open(x) => {
                    push_unique(acc, *x);
                },
                Row::Closed => {},
            }
            proof {
                assert(acc@.to_set() =~= a0.to_set().union(rvars(tv(*t))));
            }
        },
    }
}

fn collect_rv_all(ts: &Vec<Type>, acc: &mut Vec<u32>)
    requires
        old(acc)@.no_duplicates(),
    ensures
        final(acc)@.no_duplicates(),
        final(acc)@.to_set() == old(acc)@.to_set().union(rvars_seq(tvs(ts@))),
    decreases ts,
{
    let ghost a0 = acc@;
    let mut i: usize = 0;
    proof {
        lemma_tvs(ts@);
        assert(tvs(ts@).subrange(0, 0) =~= Seq::<TypeV>::empty());
        assert(a0.to_set().union(Set::empty()) =~= a0.to_set());
    }
    while i < ts.len()
        invariant
            i <= ts@.len(),
            tvs(ts@).len() == ts@.len(),
            forall|k: int| 0 <= k < ts@.len() ==> #[trigger] tvs(ts@)[k] == tv(ts@[k]),
            acc@.no_duplicates(),
            acc@.to_set() == a0.to_set().union(rvars_seq(tvs(ts@).subrange(0, i as int))),
        decreases ts.len() - i,
    {
        proof {
            assert(decreases_to!(ts => ts[i as int]));
        }
        collect_rv(&ts[i], acc);
        proof {
            let s = tvs(ts@);
            assert(s.subrange(0, i + 1).drop_last() =~= s.subrange(0, i as int));
            assert(acc@.to_set() =~= a0.to_set().union(rvars_seq(s.subrange(0, i + 1))));
        }
        i = i + 1;
    }
    proof {
        assert(tvs(ts@).subrange(0, i as int) =~= tvs(ts@));
    }
}

fn collect_rv_fields(fs: &Vec<(String, Type)>, acc: &mut Vec<u32>)
    requires
        old(acc)@.no_duplicates(),
    ensures
        final(acc)@.no_duplicates(),
        final(acc)@.to_set() == old(acc)@.to_set().union(rvars_fields(fvs(fs@))),
    decreases fs,
{
    let ghost a0 = acc@;
    let mut i: usize = 0;
    proof {
        lemma_fvs(fs@);
        assert(fvs(fs@).subrange(0, 0) =~= Seq::<(Seq<char>, TypeV)>::empty());
        assert(a0.to_set().union(Set::empty()) =~= a0.to_set());
    }
    while i < fs.len()
        invariant
            i <= fs@.len(),
            fvs(fs@).len() == fs@.len(),
            forall|k: int| 0 <= k < fs@.len() ==> #[trigger] fvs(fs@)[k] == (fs@[k].0@, tv(fs@[k].1)),
            acc@.no_duplicates(),
            acc@.to_set() == a0.to_set().union(rvars_fields(fvs(fs@).subrange(0, i as int))),
        decreases fs.len() - i,
    {
        proof {
            assert(decreases_to!(fs => fs[i as int]));
            assert(decreases_to!(fs[i as int] => fs[i as int].1));
        }
        collect_rv(&fs[i].1, acc);
        proof {
            let s = fvs(fs@);
            assert(s.subrange(0, i + 1).drop_last() =~= s.subrange(0, i as int));
            assert(acc@.to_set() =~= a0.to_set().union(rvars_fields(s.subrange(0, i + 1))));
        }
        i = i + 1;
    }
    proof {
        assert(fvs(fs@).subrange(0, i as int) =~= fvs(fs@));
    }
}

// ---------------------------------------------------------------------------
// Generalization.
// ---------------------------------------------------------------------------

/// The type variables free in an environment: those of each scheme's type,
/// substitutions applied, that the scheme does not quantify.
pub open spec fn env_tv(s: TSub, r: RSub, l: Seq<(Seq<char>, SchemeV)>) -> Set<u32>
    decreases l.len(),
{
    if l.len() == 0 {
        Set::empty()
    } else {
        env_tv(s, r, l.drop_last()).union(tvars(app(s, r, l.last().1.ty)).difference(var_ids(l.last().1.vars)))
    }
}

/// The row variables free in an environment.
pub open spec fn env_rv(s: TSub, r: RSub, l: Seq<(Seq<char>, SchemeV)>) -> Set<u32>
    decreases l.len(),
{
    if l.len() == 0 {
        Set::empty()
    } else {
        env_rv(s, r, l.drop_last()).union(rvars(app(s, r, l.last().1.ty)).difference(l.last().1.row_vars.to_set()))
    }
}

impl Infer {
    /// The free type variables of `t` under the substitutions, each id once
    /// with a bound it carries.
    pub fn ftv(&self, t: &Type) -> (r: Vec<(u32, Constraint)>)
        ensures
            ids_distinct(r@),
            var_ids(r@) == tvars(self.applied(tv(*t))),
            forall|i: int| 0 <= i < r@.len() ==> tvar_occ(self.applied(tv(*t))).contains(#[trigger] r@[i]),
    {
        let a = self.apply(t);
        let mut acc: Vec<(u32, Constraint)> = Vec::new();
        proof {
            assert(var_ids(acc@) =~= Set::<u32>::empty());
        }
        collect_tv(&a, &mut acc);
        proof {
            assert(var_ids(acc@) =~= tvars(tv(a)));
        }
        acc
    }

    /// The free row variables of `t` under the substitutions.
    pub fn frv(&self, t: &Type) -> (r: Vec<u32>)
        ensures
            r@.no_duplicates(),
            r@.to_set() == rvars(self.applied(tv(*t))),
    {
        let a = self.apply(t);
        let mut acc: Vec<u32> = Vec::new();
        proof {
            assert(acc@.to_set() =~= Set::<u32>::empty());
        }
        collect_rv(&a, &mut acc);
        proof {
            assert(acc@.to_set() =~= rvars(tv(a)));
        }
        acc
    }

    /// The type variables free in `env`.
    pub fn ftv_env(&self, env: &TyEnv) -> (r: Vec<u32>)
        ensures
            r@.no_duplicates(),
            r@.to_set() == env_tv(self.tsub(), self.rsub(), env.listing()),
    {
        let es = env.entries();
        let ghost l = env.listing();
        let mut acc: Vec<u32> = Vec::new();
        let mut i: usize = 0;
        proof {
            assert(l.subrange(0, 0) =~= Seq::<(Seq<char>, SchemeV)>::empty());
            assert(acc@.to_set() =~= Set::<u32>::empty());
        }
        while i < es.len()
            invariant
                es@.map_values(|e: (String, Scheme)| (e.0@, sv(e.1))) == l,
                i <= es@.len(),
                acc@.no_duplicates(),
                acc@.to_set() == env_tv(self.tsub(), self.rsub(), l.subrange(0, i as int)),
            decreases es.len() - i,
        {
            let inner = self.ftv(&es[i].1.ty);
            let quantified = &es[i].1.vars;
            let ghost before = acc@.to_set();
            let mut j: usize = 0;
            while j < inner.len()
                invariant
                    j <= inner@.len(),
                    acc@.no_duplicates(),
                    acc@.to_set() == before.union(var_ids(inner@.subrange(0, j as int)).difference(var_ids(quantified@))),
                decreases inner.len() - j,
            {
                let v = inner[j].0;
                let mut bound = false;
                let mut k: usize = 0;
                while k < quantified.len()
                    invariant
                        k <= quantified@.len(),
                        bound == exists|q: int| 0 <= q < k && (#[trigger] quantified@[q]).0 == v,
                    decreases quantified.len() - k,
                {
                    if quantified[k].0 == v {
                        bound = true;
                    }
                    k = k + 1;
                }
                if !bound {
                    push_unique(&mut acc, v);
                }
                proof {
                    assert(inner@.subrange(0, j + 1) =~= inner@.subrange(0, j as int).push(inner@[j as int]));
                    assert(var_ids(inner@.subrange(0, j + 1)) =~= var_ids(inner@.subrange(0, j as int)).insert(v)) by {
                        let a = inner@.subrange(0, j as int);
                        let b = inner@.subrange(0, j + 1);
                        assert forall|u: u32| var_ids(b).contains(u) implies var_ids(a).insert(v).contains(u) by {
                            let p = choose|p: int| 0 <= p < b.len() && (#[trigger] b[p]).0 == u;
                            if p < a.len() {
                                assert(a[p] == b[p]);
                            }
                        }
                        assert forall|u: u32| var_ids(a).insert(v).contains(u) implies var_ids(b).contains(u) by {
                            if u == v {
                                assert(b[j as int].0 == v);
                            } else {
                                let p = choose|p: int| 0 <= p < a.len() && (#[trigger] a[p]).0 == u;
                                assert(b[p] == a[p]);
                            }
                        }
                    }
                    assert(acc@.to_set() =~= before.union(var_ids(inner@.subrange(0, j + 1)).difference(var_ids(quantified@))));
                }
                j = j + 1;
            }
            proof {
                assert(inner@.subrange(0, j as int) =~= inner@);
                assert(l[i as int] == (es@[i as int].0@, sv(es@[i as int].1)));
                assert(l.subrange(0, i + 1).drop_last() =~= l.subrange(0, i as int));
                assert(acc@.to_set() =~= env_tv(self.tsub(), self.rsub(), l.subrange(0, i + 1)));
            }
            i = i + 1;
        }
        proof {
            assert(l.subrange(0, i as int) =~= l);
        }
        acc
    }

    /// The row variables free in `env`.
    pub fn frv_env(&self, env: &TyEnv) -> (r: Vec<u32>)
        ensures
            r@.no_duplicates(),
            r@.to_set() == env_rv(self.tsub(), self.rsub(), env.listing()),
    {
        let es = env.entries();
        let ghost l = env.listing();
        let mut acc: Vec<u32> = Vec::new();
        let mut i: usize = 0;
        proof {
            assert(l.subrange(0, 0) =~= Seq::<(Seq<char>, SchemeV)>::empty());
            assert(acc@.to_set() =~= Set::<u32>::empty());
        }
        while i < es.len()
            invariant
                es@.map_values(|e: (String, Scheme)| (e.0@, sv(e.1))) == l,
                i <= es@.len(),
                acc@.no_duplicates(),
                acc@.to_set() == env_rv(self.tsub(), self.rsub(), l.subrange(0, i as int)),
            decreases es.len() - i,
        {
            let inner = self.frv(&es[i].1.ty);
            let quantified = &es[i].1.row_vars;
            let ghost before = acc@.to_set();
            let mut j: usize = 0;
            while j < inner.len()
                invariant
                    j <= inner@.len(),
                    acc@.no_duplicates(),
                    acc@.to_set() == before.union(inner@.subrange(0, j as int).to_set().difference(quantified@.to_set())),
                decreases inner.len() - j,
            {
                let v = inner[j];
                let mut bound = false;
                let mut k: usize = 0;
                while k < quantified.len()
                    invariant
                        k <= quantified@.len(),
                        bound == exists|q: int| 0 <= q < k && quantified@[q] == v,
                    decreases quantified.len() - k,
                {
                    if quantified[k] == v {
                        bound = true;
                    }
                    k = k + 1;
                }
                if !bound {
                    push_unique(&mut acc, v);
                }
                proof {
                    assert(inner@.subrange(0, j + 1).to_set() =~= inner@.subrange(0, j as int).to_set().insert(v)) by {
                        let a = inner@.subrange(0, j as int);
                        let b = inner@.subrange(0, j + 1);
                        assert forall|u: u32| b.to_set().contains(u) implies a.to_set().insert(v).contains(u) by {
                            let p = choose|p: int| 0 <= p < b.len() && b[p] == u;
                            if p < a.len() {
                                assert(a[p] == b[p]);
                            }
                        }
                        assert forall|u: u32| a.to_set().insert(v).contains(u) implies b.to_set().contains(u) by {
                            if u == v {
                                assert(b[j as int] == v);
                            } else {
                                let p = choose|p: int| 0 <= p < a.len() && a[p] == u;
                                assert(b[p] == a[p]);
                            }
                        }
                    }
                    if bound {
                        let q = choose|q: int| 0 <= q < quantified@.len() && quantified@[q] == v;
                        assert(quantified@.to_set().contains(v));
                    }
                    assert(acc@.to_set() =~= before.union(inner@.subrange(0, j + 1).to_set().difference(quantified@.to_set())));
                }
                j = j + 1;
            }
            proof {
                assert(inner@.subrange(0, j as int) =~= inner@);
                assert(l[i as int] == (es@[i as int].0@, sv(es@[i as int].1)));
                assert(l.subrange(0, i + 1).drop_last() =~= l.subrange(0, i as int));
                assert(acc@.to_set() =~= env_rv(self.tsub(), self.rsub(), l.subrange(0, i + 1)));
            }
            i = i + 1;
        }
        proof {
            assert(l.subrange(0, i as int) =~= l);
        }
        acc
    }

    /// Generalizes `t` into a scheme quantifying the type and row variables
    /// free in `t` but not in `env`, over `t` with the substitutions applied.
    pub fn generalize(&self, env: &TyEnv, t: &Type) -> (r: Scheme)
        ensures
            sv(r).ty == self.applied(tv(*t)),
            ids_distinct(r.vars@),
            var_ids(r.vars@) == tvars(self.applied(tv(*t))).difference(env_tv(self.tsub(), self.rsub(), env.listing())),
            forall|i: int| 0 <= i < r.vars@.len() ==> tvar_occ(self.applied(tv(*t))).contains(#[trigger] r.vars@[i]),
            r.row_vars@.no_duplicates(),
            r.row_vars@.to_set() == rvars(self.applied(tv(*t))).difference(env_rv(self.tsub(), self.rsub(), env.listing())),
    {
        let tvs_all = self.ftv(t);
        let env_tvs = self.ftv_env(env);
        let ghost et = env_tv(self.tsub(), self.rsub(), env.listing());
        let mut vars: Vec<(u32, Constraint)> = Vec::new();
        let mut i: usize = 0;
        proof {
            assert(var_ids(vars@) =~= Set::<u32>::empty());
            assert(var_ids(tvs_all@.subrange(0, 0)) =~= Set::<u32>::empty());
        }
        while i < tvs_all.len()
            invariant
                i <= tvs_all@.len(),
                ids_distinct(tvs_all@),
                env_tvs@.to_set() == et,
                ids_distinct(vars@),
                var_ids(vars@) == var_ids(tvs_all@.subrange(0, i as int)).difference(et),
                forall|k: int| 0 <= k < vars@.len() ==> exists|q: int| 0 <= q < i && tvs_all@[q] == #[trigger] vars@[k],
            decreases tvs_all.len() - i,
        {
            let (v, c) = tvs_all[i];
            let mut in_env = false;
            let mut k: usize = 0;
            while k < env_tvs.len()
                invariant
                    k <= env_tvs@.len(),
                    in_env == exists|q: int| 0 <= q < k && env_tvs@[q] == v,
                decreases env_tvs.len() - k,
            {
                if env_tvs[k] == v {
                    in_env = true;
                }
                k = k + 1;
            }
            let ghost before = vars@;
            if !in_env {
                vars.push((v, c));
            }
            proof {
                let a = tvs_all@.subrange(0, i as int);
                let b = tvs_all@.subrange(0, i + 1);
                assert(var_ids(b) =~= var_ids(a).insert(v)) by {
                    assert forall|u: u32| var_ids(b).contains(u) implies var_ids(a).insert(v).contains(u) by {
                        let p = choose|p: int| 0 <= p < b.len() && (#[trigger] b[p]).0 == u;
                        if p < a.len() {
                            assert(a[p] == b[p]);
                        }
                    }
                    assert forall|u: u32| var_ids(a).insert(v).contains(u) implies var_ids(b).contains(u) by {
                        if u == v {
                            assert(b[i as int].0 == v);
                        } else {
                            let p = choose|p: int| 0 <= p < a.len() && (#[trigger] a[p]).0 == u;
                            assert(b[p] == a[p]);
                        }
                    }
                }
                if in_env {
                    let q = choose|q: int| 0 <= q < env_tvs@.len() && env_tvs@[q] == v;
                    assert(env_tvs@.to_set().contains(v));
                    assert(var_ids(vars@) =~= var_ids(b).difference(et));
                } else {
                    assert(!env_tvs@.to_set().contains(v));
                    assert forall|p: int| 0 <= p < before.len() implies (#[trigger] before[p]).0 != v by {
                        let q = choose|q: int| 0 <= q < i && tvs_all@[q] == before[p];
                        assert(tvs_all@[q].0 != tvs_all@[i as int].0);
                    }
                    assert(var_ids(vars@) =~= var_ids(b).difference(et)) by {
                        assert forall|u: u32| var_ids(vars@).contains(u) implies var_ids(b).difference(et).contains(u) by {
                            let p = choose|p: int| 0 <= p < vars@.len() && (#[trigger] vars@[p]).0 == u;
                            if p < before.len() {
                                assert(before[p] == vars@[p]);
                                assert(var_ids(before).contains(u));
                            }
                        }
                        assert forall|u: u32| var_ids(b).difference(et).contains(u) implies var_ids(vars@).contains(u) by {
                            if u == v {
                                assert(vars@[before.len() as int].0 == v);
                            } else {
                                assert(var_ids(before).contains(u));
                                let p = choose|p: int| 0 <= p < before.len() && (#[trigger] before[p]).0 == u;
                                assert(vars@[p] == before[p]);
                            }
                        }
                    }
                    assert forall|k: int| 0 <= k < vars@.len() implies exists|q: int| 0 <= q < i + 1 && tvs_all@[q] == #[trigger] vars@[k] by {
                        if k < before.len() {
                            assert(vars@[k] == before[k]);
                        } else {
                            assert(tvs_all@[i as int] == vars@[k]);
                        }
                    }
                }
            }
            i = i + 1;
        }
        let rvs_all = self.frv(t);
        let env_rvs = self.frv_env(env);
        let ghost er = env_rv(self.tsub(), self.rsub(), env.listing());
        let mut row_vars: Vec<u32> = Vec::new();
        let mut j: usize = 0;
        proof {
            assert(tvs_all@.subrange(0, i as int) =~= tvs_all@);
            assert(row_vars@.to_set() =~= Set::<u32>::empty());
            assert(rvs_all@.subrange(0, 0).to_set() =~= Set::<u32>::empty());
        }
        while j < rvs_all.len()
            invariant
                j <= rvs_all@.len(),
                rvs_all@.no_duplicates(),
                env_rvs@.to_set() == er,
                row_vars@.no_duplicates(),
                row_vars@.to_set() == rvs_all@.subrange(0, j as int).to_set().difference(er),
            decreases rvs_all.len() - j,
        {
            let v = rvs_all[j];
            let mut in_env = false;
            let mut k: usize = 0;
            while k < env_rvs.len()
                invariant
                    k <= env_rvs@.len(),
                    in_env == exists|q: int| 0 <= q < k && env_rvs@[q] == v,
                decreases env_rvs.len() - k,
            {
                if env_rvs[k] == v {
                    in_env = true;
                }
                k = k + 1;
            }
            if !in_env {
                push_unique(&mut row_vars, v);
            }
            proof {
                let a = rvs_all@.subrange(0, j as int);
                let b = rvs_all@.subrange(0, j + 1);
                assert(b.to_set() =~= a.to_set().insert(v)) by {
                    assert forall|u: u32| b.to_set().contains(u) implies a.to_set().insert(v).contains(u) by {
                        let p = choose|p: int| 0 <= p < b.len() && b[p] == u;
                        if p < a.len() {
                            assert(a[p] == b[p]);
                        }
                    }
                    assert forall|u: u32| a.to_set().insert(v).contains(u) implies b.to_set().contains(u) by {
                        if u == v {
                            assert(b[j as int] == v);
                        } else {
                            let p = choose|p: int| 0 <= p < a.len() && a[p] == u;
                            assert(b[p] == a[p]);
                        }
                    }
                }
                if in_env {
                    let q = choose|q: int| 0 <= q < env_rvs@.len() && env_rvs@[q] == v;
                    assert(env_rvs@.to_set().contains(v));
                }
                assert(row_vars@.to_set() =~= b.to_set().difference(er));
            }
            j = j + 1;
        }
        proof {
            assert(rvs_all@.subrange(0, j as int) =~= rvs_all@);
        }
        let ty = self.apply(t);
        Scheme { vars, row_vars, ty }
    }
}


// ---------------------------------------------------------------------------
// Instantiation.
// ---------------------------------------------------------------------------

/// What the last entry for `v` gives, if any.
pub open spec fn assoc_last<A>(s: Seq<(u32, A)>, v: u32) -> Option<A>
    decreases s.len(),
{
    if s.len() == 0 {
        None
    } else if s.last().0 == v {
        Some(s.last().1)
    } else {
        assoc_last(s.drop_last(), v)
    }
}

/// A type with type variables replaced as `ms` says and record tails as
/// `rs` says; other variables stay.
pub open spec fn rename(t: TypeV, ms: Seq<(u32, TypeV)>, rs: Seq<(u32, u32)>) -> TypeV
    decreases t,
{
    match t {
        TypeV::Var(v, _) => match assoc_last(ms, v) {
            Some(u) => u,
            None => t,
        },
        TypeV::Rigid(_) => t,
        TypeV::Con(n, args) => TypeV::Con(n, rename_seq(args, ms, rs)),
        TypeV::Fun(a, b) => TypeV::Fun(Box::new(rename(*a, ms, rs)), Box::new(rename(*b, ms, rs))),
        TypeV::Record(fs, row) => TypeV::Record(
            rename_fields(fs, ms, rs),
            match row {
                Row::Open(x) => match assoc_last(rs, x) {
                    Some(y) => Row::Open(y),
                    None => row,
                },
                Row::Closed => row,
            },
        ),
        TypeV::Tuple(es) => TypeV::Tuple(rename_seq(es, ms, rs)),
    }
}

pub open spec fn rename_seq(s: Seq<TypeV>, ms: Seq<(u32, TypeV)>, rs: Seq<(u32, u32)>) -> Seq<TypeV>
    decreases s,
{
    if s.len() == 0 {
        Seq::empty()
    } else {
        rename_seq(s.drop_last(), ms, rs).push(rename(s.last(), ms, rs))
    }
}

pub open spec fn rename_fields(s: Seq<(Seq<char>, TypeV)>, ms: Seq<(u32, TypeV)>, rs: Seq<(u32, u32)>) -> Seq<(Seq<char>, TypeV)>
    decreases s,
{
    if s.len() == 0 {
        Seq::empty()
    } else {
        rename_fields(s.drop_last(), ms, rs).push((s.last().0, rename(s.last().1, ms, rs)))
    }
}

/// Fresh variables for quantified type variables: the `i`th gets number
/// `base + i`, keeping its bound.
pub open spec fn fresh_vars(vars: Seq<(u32, Constraint)>, base: nat) -> Seq<(u32, TypeV)> {
    Seq::new(vars.len(), |i: int| (vars[i].0, TypeV::Var((base + i) as u32, vars[i].1)))
}

/// Fresh tails for quantified row variables: the `j`th gets number
/// `base + j`.
pub open spec fn fresh_rows(rows: Seq<u32>, base: nat) -> Seq<(u32, u32)> {
    Seq::new(rows.len(), |j: int| (rows[j], (base + j) as u32))
}

pub open spec fn mview(ms: Seq<(u32, Type)>) -> Seq<(u32, TypeV)> {
    ms.map_values(|e: (u32, Type)| (e.0, tv(e.1)))
}

/// The last entry for `v` in a list of pairs.
fn lookup_last(ms: &Vec<(u32, Type)>, v: u32) -> (r: Option<&Type>)
    ensures
        match r {
            Some(t) => assoc_last(mview(ms@), v) == Some(tv(*t)),
            None => assoc_last(mview(ms@), v) is None,
        },
{
    let mut i: usize = ms.len();
    proof {
        assert(mview(ms@).subrange(0, ms@.len() as int) =~= mview(ms@));
    }
    while i > 0
        invariant
            i <= ms@.len(),
            assoc_last(mview(ms@), v) == assoc_last(mview(ms@).subrange(0, i as int), v),
        decreases i,
    {
        let ghost pre = mview(ms@).subrange(0, i as int);
        proof {
            assert(pre.drop_last() =~= mview(ms@).subrange(0, i - 1));
            assert(pre.last() == (ms@[i - 1].0, tv(ms@[i - 1].1)));
        }
        if ms[i - 1].0 == v {
            return Some(&ms[i - 1].1);
        }
        i = i - 1;
    }
    proof {
        assert(mview(ms@).subrange(0, 0) =~= Seq::<(u32, TypeV)>::empty());
    }
    None
}

fn lookup_row(rs: &Vec<(u32, u32)>, x: u32) -> (r: Option<u32>)
    ensures
        r == assoc_last(rs@, x),
{
    let mut i: usize = rs.len();
    proof {
        assert(rs@.subrange(0, rs@.len() as int) =~= rs@);
    }
    while i > 0
        invariant
            i <= rs@.len(),
            assoc_last(rs@, x) == assoc_last(rs@.subrange(0, i as int), x),
        decreases i,
    {
        proof {
            assert(rs@.subrange(0, i as int).drop_last() =~= rs@.subrange(0, i - 1));
        }
        if rs[i - 1].0 == x {
            return Some(rs[i - 1].1);
        }
        i = i - 1;
    }
    proof {
        assert(rs@.subrange(0, 0) =~= Seq::<(u32, u32)>::empty());
    }
    None
}

/// `t` with type variables and record tails renamed.
fn rename_type(t: &Type, ms: &Vec<(u32, Type)>, rs: &Vec<(u32, u32)>) -> (r: Type)
    ensures
        tv(r) == rename(tv(*t), mview(ms@), rs@),
    decreases t,
{
    match t {
        Type::Var(v, c) => match lookup_last(ms, *v) {
            Some(u) => u.duplicate(),
            None => Type::Var(*v, *c),
        },
        Type::Rigid(n) => Type::Rigid(n.clone()),
        Type::Con(n, args) => Type::Con(n.clone(), rename_all(args, ms, rs)),
        Type::Tuple(es) => Type::Tuple(rename_all(es, ms, rs)),
        Type::Fun(a, b) => Type::Fun(Box::new(rename_type(a, ms, rs)), Box::new(rename_type(b, ms, rs))),
        Type::Record(fs, row) => {
            let fs2 = rename_field_list(fs, ms, rs);
            let row2 = match row {
                Row::Open(x) => match lookup_row(rs, *x) {
                    Some(y) => Row::Open(y),
                    None => Row::Open(*x),
                },
                Row::Closed => Row::Closed,
            };
            Type::Record(fs2, row2)
        },
    }
}

fn rename_all(ts: &Vec<Type>, ms: &Vec<(u32, Type)>, rs: &Vec<(u32, u32)>) -> (r: Vec<Type>)
    ensures
        tvs(r@) == rename_seq(tvs(ts@), mview(ms@), rs@),
    decreases ts,
{
    let mut out: Vec<Type> = Vec::new();
    let mut i: usize = 0;
    proof {
        lemma_tvs(ts@);
    }
    while i < ts.len()
        invariant
            i <= ts@.len(),
            tvs(ts@).len() == ts@.len(),
            forall|k: int| 0 <= k < ts@.len() ==> #[trigger] tvs(ts@)[k] == tv(ts@[k]),
            tvs(out@) == rename_seq(tvs(ts@).subrange(0, i as int), mview(ms@), rs@),
        decreases ts.len() - i,
    {
        proof {
            assert(decreases_to!(ts => ts[i as int]));
        }
        let x = rename_type(&ts[i], ms, rs);
        let ghost before = out@;
        out.push(x);
        proof {
            crate::ast::lemma_tvs_push(before, x);
            assert(tvs(ts@).subrange(0, i + 1).drop_last() =~= tvs(ts@).subrange(0, i as int));
        }
        i = i + 1;
    }
    proof {
        assert(tvs(ts@).subrange(0, i as int) =~= tvs(ts@));
    }
    out
}

fn rename_field_list(fs: &Vec<(String, Type)>, ms: &Vec<(u32, Type)>, rs: &Vec<(u32, u32)>) -> (r: Vec<(String, Type)>)
    ensures
        fvs(r@) == rename_fields(fvs(fs@), mview(ms@), rs@),
    decreases fs,
{
    let mut out: Vec<(String, Type)> = Vec::new();
    let mut i: usize = 0;
    proof {
        lemma_fvs(fs@);
    }
    while i < fs.len()
        invariant
            i <= fs@.len(),
            fvs(fs@).len() == fs@.len(),
            forall|k: int| 0 <= k < fs@.len() ==> #[trigger] fvs(fs@)[k] == (fs@[k].0@, tv(fs@[k].1)),
            fvs(out@) == rename_fields(fvs(fs@).subrange(0, i as int), mview(ms@), rs@),
        decreases fs.len() - i,
    {
        proof {
            assert(decreases_to!(fs => fs[i as int]));
            assert(decreases_to!(fs[i as int] => fs[i as int].1));
        }
        let x = rename_type(&fs[i].1, ms, rs);
        let f = (fs[i].0.clone(), x);
        let ghost before = out@;
        out.push(f);
        proof {
            crate::ast::lemma_fvs_push(before, f);
            assert(fvs(fs@).subrange(0, i + 1).drop_last() =~= fvs(fs@).subrange(0, i as int));
        }
        i = i + 1;
    }
    proof {
        assert(fvs(fs@).subrange(0, i as int) =~= fvs(fs@));
    }
    out
}

impl Infer {
    /// Instantiates a scheme: each quantified type variable becomes a fresh
    /// variable with its bound, each quantified row variable a fresh tail,
    /// numbered in order from the counter.
    pub fn instantiate(&mut self, s: &Scheme) -> (r: Type)
        requires
            old(self).wf(),
            old(self).next_var() + s.vars@.len() + s.row_vars@.len() <= u32::MAX,
        ensures
            final(self).wf(),
            final(self).next_var() == old(self).next_var() + s.vars@.len() + s.row_vars@.len(),
            final(self).tsub() == old(self).tsub(),
            final(self).rsub() == old(self).rsub(),
            tv(r) == rename(
                sv(*s).ty,
                fresh_vars(s.vars@, old(self).next_var() as nat),
                fresh_rows(s.row_vars@, (old(self).next_var() + s.vars@.len()) as nat),
            ),
    {
        let ghost n0 = self.next_var();
        let ghost k = s.vars@.len();
        let mut mapping: Vec<(u32, Type)> = Vec::new();
        let mut i: usize = 0;
        while i < s.vars.len()
            invariant
                self.wf(),
                self.tsub() == old(self).tsub(),
                self.rsub() == old(self).rsub(),
                n0 == old(self).next_var(),
                k == s.vars@.len(),
                n0 + s.vars@.len() + s.row_vars@.len() <= u32::MAX,
                i <= s.vars@.len(),
                self.next_var() == n0 + i,
                mview(mapping@) == fresh_vars(s.vars@, n0 as nat).subrange(0, i as int),
            decreases s.vars.len() - i,
        {
            let (v, c) = s.vars[i];
            let f = self.fresh_constrained(c);
            let ghost before = mapping@;
            mapping.push((v, f));
            proof {
                assert(mview(mapping@) =~= fresh_vars(s.vars@, n0 as nat).subrange(0, i + 1)) by {
                    assert(mview(mapping@) =~= mview(before).push((v, tv(f))));
                }
            }
            i = i + 1;
        }
        let mut rows: Vec<(u32, u32)> = Vec::new();
        let mut j: usize = 0;
        while j < s.row_vars.len()
            invariant
                self.wf(),
                self.tsub() == old(self).tsub(),
                self.rsub() == old(self).rsub(),
                n0 == old(self).next_var(),
                k == s.vars@.len(),
                n0 + s.vars@.len() + s.row_vars@.len() <= u32::MAX,
                j <= s.row_vars@.len(),
                self.next_var() == n0 + k + j,
                rows@ == fresh_rows(s.row_vars@, (n0 + k) as nat).subrange(0, j as int),
            decreases s.row_vars.len() - j,
        {
            let f = self.fresh_row();
            match f {
                Row::Open(x) => {
                    rows.push((s.row_vars[j], x));
                },
                Row::Closed => {},
            }
            proof {
                assert(rows@ =~= fresh_rows(s.row_vars@, (n0 + k) as nat).subrange(0, j + 1));
            }
            j = j + 1;
        }
        proof {
            assert(fresh_vars(s.vars@, n0 as nat).subrange(0, i as int) =~= fresh_vars(s.vars@, n0 as nat));
            assert(fresh_rows(s.row_vars@, (n0 + k) as nat).subrange(0, j as int) =~= fresh_rows(s.row_vars@, (n0 + k) as nat));
        }
        rename_type(&s.ty, &mapping, &rows)
    }
}


// ---------------------------------------------------------------------------
// Signatures.
// ---------------------------------------------------------------------------

/// The names of the rigid type variables of a type.
pub open spec fn rigid_names(t: TypeV) -> Set<Seq<char>>
    decreases t,
{
    match t {
        TypeV::Rigid(n) => set![n],
        TypeV::Var(_, _) => Set::empty(),
        TypeV::Con(_, args) => rigid_names_seq(args),
        TypeV::Fun(a, b) => rigid_names(*a).union(rigid_names(*b)),
        TypeV::Record(fs, _) => rigid_names_fields(fs),
        TypeV::Tuple(es) => rigid_names_seq(es),
    }
}

pub open spec fn rigid_names_seq(s: Seq<TypeV>) -> Set<Seq<char>>
    decreases s,
{
    if s.len() == 0 {
        Set::empty()
    } else {
        rigid_names_seq(s.drop_last()).union(rigid_names(s.last()))
    }
}

pub open spec fn rigid_names_fields(s: Seq<(Seq<char>, TypeV)>) -> Set<Seq<char>>
    decreases s,
{
    if s.len() == 0 {
        Set::empty()
    } else {
        rigid_names_fields(s.drop_last()).union(rigid_names(s.last().1))
    }
}

/// What the last entry named `n` gives, if any.
pub open spec fn name_last(m: Seq<(Seq<char>, TypeV)>, n: Seq<char>) -> Option<TypeV>
    decreases m.len(),
{
    if m.len() == 0 {
        None
    } else if m.last().0 == n {
        Some(m.last().1)
    } else {
        name_last(m.drop_last(), n)
    }
}

/// A type with each rigid variable replaced by what `m` names it, if it does.
pub open spec fn rigid_sub(t: TypeV, m: Seq<(Seq<char>, TypeV)>) -> TypeV
    decreases t,
{
    match t {
        TypeV::Rigid(n) => match name_last(m, n) {
            Some(u) => u,
            None => t,
        },
        TypeV::Var(_, _) => t,
        TypeV::Con(n, args) => TypeV::Con(n, rigid_sub_seq(args, m)),
        TypeV::Fun(a, b) => TypeV::Fun(Box::new(rigid_sub(*a, m)), Box::new(rigid_sub(*b, m))),
        TypeV::Record(fs, row) => TypeV::Record(rigid_sub_fields(fs, m), row),
        TypeV::Tuple(es) => TypeV::Tuple(rigid_sub_seq(es, m)),
    }
}

pub open spec fn rigid_sub_seq(s: Seq<TypeV>, m: Seq<(Seq<char>, TypeV)>) -> Seq<TypeV>
    decreases s,
{
    if s.len() == 0 {
        Seq::empty()
    } else {
        rigid_sub_seq(s.drop_last(), m).push(rigid_sub(s.last(), m))
    }
}

pub open spec fn rigid_sub_fields(s: Seq<(Seq<char>, TypeV)>, m: Seq<(Seq<char>, TypeV)>) -> Seq<(Seq<char>, TypeV)>
    decreases s,
{
    if s.len() == 0 {
        Seq::empty()
    } else {
        rigid_sub_fields(s.drop_last(), m).push((s.last().0, rigid_sub(s.last().1, m)))
    }
}

/// The names a mapping gives.
pub open spec fn mapped_names(m: Seq<(Seq<char>, TypeV)>) -> Set<Seq<char>> {
    Set::new(|n: Seq<char>| exists|i: int| 0 <= i < m.len() && (#[trigger] m[i]).0 == n)
}

pub open spec fn names_distinct(m: Seq<(Seq<char>, TypeV)>) -> bool {
    forall|i: int, j: int| 0 <= i < j < m.len() ==> (#[trigger] m[i]).0 != (#[trigger] m[j]).0
}

/// How a mapping grew while a type's rigid variables were instantiated: it
/// kept its entries, added fresh unbounded variables numbered from `n0`, and
/// now names every rigid variable of the type.
pub open spec fn rigids_mapped(
    m1: Seq<(Seq<char>, TypeV)>,
    m0: Seq<(Seq<char>, TypeV)>,
    n0: u32,
    n1: u32,
    names: Set<Seq<char>>,
    size: nat,
) -> bool {
    &&& m0.len() <= m1.len()
    &&& m1.subrange(0, m0.len() as int) == m0
    &&& names_distinct(m1)
    &&& mapped_names(m1) == mapped_names(m0).union(names)
    &&& n1 == n0 + (m1.len() - m0.len())
    &&& m1.len() - m0.len() <= size
    &&& forall|i: int| m0.len() <= i < m1.len() ==> (#[trigger] m1[i]).1 == TypeV::Var((n0 + (i - m0.len())) as u32, Constraint::Free)
}

proof fn lemma_rigids_refl(m: Seq<(Seq<char>, TypeV)>, n: u32)
    requires
        names_distinct(m),
    ensures
        rigids_mapped(m, m, n, n, Set::empty(), 0),
{
    assert(m.subrange(0, m.len() as int) =~= m);
    assert(mapped_names(m).union(Set::empty()) =~= mapped_names(m));
}

proof fn lemma_rigids_trans(
    m2: Seq<(Seq<char>, TypeV)>,
    m1: Seq<(Seq<char>, TypeV)>,
    m0: Seq<(Seq<char>, TypeV)>,
    n0: u32,
    n1: u32,
    n2: u32,
    a: Set<Seq<char>>,
    b: Set<Seq<char>>,
    sa: nat,
    sb: nat,
)
    requires
        rigids_mapped(m1, m0, n0, n1, a, sa),
        rigids_mapped(m2, m1, n1, n2, b, sb),
    ensures
        rigids_mapped(m2, m0, n0, n2, a.union(b), sa + sb),
{
    assert(m2.subrange(0, m0.len() as int) =~= m0) by {
        assert forall|i: int| 0 <= i < m0.len() implies m2.subrange(0, m0.len() as int)[i] == m0[i] by {
            assert(m2.subrange(0, m1.len() as int)[i] == m1[i]);
            assert(m1.subrange(0, m0.len() as int)[i] == m0[i]);
        }
    }
    assert(mapped_names(m2) =~= mapped_names(m0).union(a.union(b)));
    assert forall|i: int| m0.len() <= i < m2.len() implies (#[trigger] m2[i]).1 == TypeV::Var((n0 + (i - m0.len())) as u32, Constraint::Free) by {
        if i < m1.len() {
            assert(m2.subrange(0, m1.len() as int)[i] == m1[i]);
        }
    }
}

/// The last entry named `n` is the only one, with names distinct.
proof fn lemma_name_at(m: Seq<(Seq<char>, TypeV)>, i: int)
    requires
        names_distinct(m),
        0 <= i < m.len(),
    ensures
        name_last(m, m[i].0) == Some(m[i].1),
    decreases m.len(),
{
    if i < m.len() - 1 {
        assert(m[m.len() - 1].0 != m[i].0);
        assert(names_distinct(m.drop_last()));
        assert(m.drop_last()[i] == m[i]);
        lemma_name_at(m.drop_last(), i);
    }
}

proof fn lemma_name_absent(m: Seq<(Seq<char>, TypeV)>, n: Seq<char>)
    requires
        !mapped_names(m).contains(n),
    ensures
        name_last(m, n) is None,
    decreases m.len(),
{
    if m.len() > 0 {
        assert(m[m.len() - 1].0 != n);
        assert forall|i: int| 0 <= i < m.drop_last().len() implies (#[trigger] m.drop_last()[i]).0 != n by {
            assert(m.drop_last()[i] == m[i]);
        }
        lemma_name_absent(m.drop_last(), n);
    }
}

/// A name of the first part of a grown mapping finds the same entry in it.
proof fn lemma_name_stable(m1: Seq<(Seq<char>, TypeV)>, m0: Seq<(Seq<char>, TypeV)>, n: Seq<char>)
    requires
        m0.len() <= m1.len(),
        m1.subrange(0, m0.len() as int) == m0,
        names_distinct(m1),
        mapped_names(m0).contains(n),
    ensures
        name_last(m1, n) == name_last(m0, n),
{
    let i = choose|i: int| 0 <= i < m0.len() && (#[trigger] m0[i]).0 == n;
    assert(m1[i] == m0[i]) by {
        assert(m1.subrange(0, m0.len() as int)[i] == m1[i]);
    }
    assert(names_distinct(m0)) by {
        assert forall|p: int, q: int| 0 <= p < q < m0.len() implies (#[trigger] m0[p]).0 != (#[trigger] m0[q]).0 by {
            assert(m1.subrange(0, m0.len() as int)[p] == m1[p]);
            assert(m1.subrange(0, m0.len() as int)[q] == m1[q]);
        }
    }
    lemma_name_at(m1, i);
    lemma_name_at(m0, i);
}

/// Substituting rigid variables all named by the first part of a grown
/// mapping gives the same type with the whole mapping.
proof fn lemma_rigid_sub_stable(t: TypeV, m1: Seq<(Seq<char>, TypeV)>, m0: Seq<(Seq<char>, TypeV)>)
    requires
        m0.len() <= m1.len(),
        m1.subrange(0, m0.len() as int) == m0,
        names_distinct(m1),
        rigid_names(t).subset_of(mapped_names(m0)),
    ensures
        rigid_sub(t, m1) == rigid_sub(t, m0),
    decreases t,
{
    match t {
        TypeV::Rigid(n) => {
            lemma_name_stable(m1, m0, n);
        },
        TypeV::Con(_, args) => lemma_rigid_sub_stable_seq(args, m1, m0),
        TypeV::Tuple(es) => lemma_rigid_sub_stable_seq(es, m1, m0),
        TypeV::Fun(a, b) => {
            lemma_rigid_sub_stable(*a, m1, m0);
            lemma_rigid_sub_stable(*b, m1, m0);
        },
        TypeV::Record(fs, _) => lemma_rigid_sub_stable_fields(fs, m1, m0),
        _ => {},
    }
}

proof fn lemma_rigid_sub_stable_seq(s: Seq<TypeV>, m1: Seq<(Seq<char>, TypeV)>, m0: Seq<(Seq<char>, TypeV)>)
    requires
        m0.len() <= m1.len(),
        m1.subrange(0, m0.len() as int) == m0,
        names_distinct(m1),
        rigid_names_seq(s).subset_of(mapped_names(m0)),
    ensures
        rigid_sub_seq(s, m1) == rigid_sub_seq(s, m0),
    decreases s,
{
    if s.len() > 0 {
        lemma_rigid_sub_stable_seq(s.drop_last(), m1, m0);
        lemma_rigid_sub_stable(s.last(), m1, m0);
    }
}

proof fn lemma_rigid_sub_stable_fields(s: Seq<(Seq<char>, TypeV)>, m1: Seq<(Seq<char>, TypeV)>, m0: Seq<(Seq<char>, TypeV)>)
    requires
        m0.len() <= m1.len(),
        m1.subrange(0, m0.len() as int) == m0,
        names_distinct(m1),
        rigid_names_fields(s).subset_of(mapped_names(m0)),
    ensures
        rigid_sub_fields(s, m1) == rigid_sub_fields(s, m0),
    decreases s,
{
    if s.len() > 0 {
        lemma_rigid_sub_stable_fields(s.drop_last(), m1, m0);
        lemma_rigid_sub_stable(s.last().1, m1, m0);
    }
}

/// The position of the entry named `n`, if any.
fn find_name(m: &Vec<(String, Type)>, n: &String) -> (r: Option<usize>)
    ensures
        r matches Some(i) ==> i < m@.len() && m@[i as int].0@ == n@,
        r is None ==> forall|i: int| 0 <= i < m@.len() ==> (#[trigger] m@[i]).0@ != n@,
{
    let mut i: usize = 0;
    while i < m.len()
        invariant
            i <= m@.len(),
            forall|k: int| 0 <= k < i ==> (#[trigger] m@[k]).0@ != n@,
        decreases m.len() - i,
    {
        if str_eq(m[i].0.as_str(), n.as_str()) {
            return Some(i);
        }
        i = i + 1;
    }
    None
}

impl Infer {
    /// Replaces the rigid type variables of `t` by unification variables, one
    /// per name: a name `mapping` already has keeps its variable, and a new
    /// name gets a fresh one, recorded in `mapping`.
    pub fn instantiate_rigids(&mut self, t: &Type, mapping: &mut Vec<(String, Type)>) -> (r: Type)
        requires
            old(self).wf(),
            names_distinct(fvs(old(mapping)@)),
            old(self).next_var() + tsize(tv(*t)) <= u32::MAX,
        ensures
            final(self).wf(),
            final(self).tsub() == old(self).tsub(),
            final(self).rsub() == old(self).rsub(),
            rigids_mapped(
                fvs(final(mapping)@),
                fvs(old(mapping)@),
                old(self).next_var(),
                final(self).next_var(),
                rigid_names(tv(*t)),
                tsize(tv(*t)),
            ),
            tv(r) == rigid_sub(tv(*t), fvs(final(mapping)@)),
        decreases t,
    {
        let ghost m0 = fvs(mapping@);
        let ghost n0 = self.next_var();
        match t {
            Type::Rigid(name) => {
                proof {
                    lemma_fvs(mapping@);
                }
                match find_name(mapping, name) {
                    Some(i) => {
                        proof {
                            lemma_rigids_refl(m0, n0);
                            lemma_name_at(m0, i as int);
                            assert(mapped_names(m0).contains(name@));
                            assert(mapped_names(m0).union(set![name@]) =~= mapped_names(m0));
                        }
                        mapping[i].1.duplicate()
                    },
                    None => {
                        let f = self.fresh();
                        let entry = (name.clone(), f.duplicate());
                        let ghost before = mapping@;
                        mapping.push(entry);
                        proof {
                            crate::ast::lemma_fvs_push(before, entry);
                            let m1 = fvs(mapping@);
                            lemma_fvs(mapping@);
                            assert(m1 == m0.push((name@, tv(f))));
                            assert(m1.subrange(0, m0.len() as int) =~= m0);
                            assert(mapped_names(m1) =~= mapped_names(m0).union(set![name@])) by {
                                assert forall|u: Seq<char>| mapped_names(m1).contains(u) implies mapped_names(m0).union(set![name@]).contains(u) by {
                                    let k = choose|k: int| 0 <= k < m1.len() && (#[trigger] m1[k]).0 == u;
                                    if k < m0.len() {
                                        assert(m1[k] == m0[k]);
                                    }
                                }
                                assert forall|u: Seq<char>| mapped_names(m0).union(set![name@]).contains(u) implies mapped_names(m1).contains(u) by {
                                    if u == name@ {
                                        assert(m1[m0.len() as int].0 == u);
                                    } else {
                                        let k = choose|k: int| 0 <= k < m0.len() && (#[trigger] m0[k]).0 == u;
                                        assert(m1[k] == m0[k]);
                                    }
                                }
                            }
                            assert(names_distinct(m1)) by {
                                assert forall|p: int, q: int| 0 <= p < q < m1.len() implies (#[trigger] m1[p]).0 != (#[trigger] m1[q]).0 by {
                                    if q == m0.len() {
                                        assert(m1[p] == m0[p]);
                                        assert(m0[p].0 == mapping@[p].0@);
                                    } else {
                                        assert(m1[p] == m0[p]);
                                        assert(m1[q] == m0[q]);
                                    }
                                }
                            }
                            assert(name_last(m1, name@) == Some(tv(f)));
                        }
                        f
                    },
                }
            },
            Type::Var(v, c) => {
                proof {
                    lemma_rigids_refl(m0, n0);
                }
                Type::Var(*v, *c)
            },
            Type::Con(n, args) => {
                let a2 = self.instantiate_rigids_all(args, mapping);
                Type::Con(n.clone(), a2)
            },
            Type::Tuple(es) => {
                let e2 = self.instantiate_rigids_all(es, mapping);
                Type::Tuple(e2)
            },
            Type::Fun(a, b) => {
                let a2 = self.instantiate_rigids(a, mapping);
                let ghost m1 = fvs(mapping@);
                let ghost n1 = self.next_var();
                let b2 = self.instantiate_rigids(b, mapping);
                proof {
                    let m2 = fvs(mapping@);
                    lemma_rigids_trans(m2, m1, m0, n0, n1, self.next_var(), rigid_names(tv(**a)), rigid_names(tv(**b)), tsize(tv(**a)), tsize(tv(**b)));
                    lemma_rigid_sub_stable(tv(**a), m2, m1);
                }
                Type::Fun(Box::new(a2), Box::new(b2))
            },
            Type::Record(fs, row) => {
                let fs2 = self.instantiate_rigids_fields(fs, mapping);
                Type::Record(fs2, *row)
            },
        }
    }

    fn instantiate_rigids_all(&mut self, ts: &Vec<Type>, mapping: &mut Vec<(String, Type)>) -> (r: Vec<Type>)
        requires
            old(self).wf(),
            names_distinct(fvs(old(mapping)@)),
            old(self).next_var() + tsize_seq(tvs(ts@)) <= u32::MAX,
        ensures
            final(self).wf(),
            final(self).tsub() == old(self).tsub(),
            final(self).rsub() == old(self).rsub(),
            rigids_mapped(
                fvs(final(mapping)@),
                fvs(old(mapping)@),
                old(self).next_var(),
                final(self).next_var(),
                rigid_names_seq(tvs(ts@)),
                tsize_seq(tvs(ts@)),
            ),
            tvs(r@) == rigid_sub_seq(tvs(ts@), fvs(final(mapping)@)),
        decreases ts,
    {
        let ghost m0 = fvs(mapping@);
        let ghost n0 = self.next_var();
        let mut out: Vec<Type> = Vec::new();
        let mut i: usize = 0;
        proof {
            lemma_tvs(ts@);
            lemma_rigids_refl(m0, n0);
            assert(tvs(ts@).subrange(0, 0) =~= Seq::<TypeV>::empty());
        }
        while i < ts.len()
            invariant
                self.wf(),
                self.tsub() == old(self).tsub(),
                self.rsub() == old(self).rsub(),
                m0 == fvs(old(mapping)@),
                n0 == old(self).next_var(),
                n0 + tsize_seq(tvs(ts@)) <= u32::MAX,
                i <= ts@.len(),
                tvs(ts@).len() == ts@.len(),
                forall|k: int| 0 <= k < ts@.len() ==> #[trigger] tvs(ts@)[k] == tv(ts@[k]),
                rigids_mapped(fvs(mapping@), m0, n0, self.next_var(), rigid_names_seq(tvs(ts@).subrange(0, i as int)), tsize_seq(tvs(ts@).subrange(0, i as int))),
                tvs(out@) == rigid_sub_seq(tvs(ts@).subrange(0, i as int), fvs(mapping@)),
            decreases ts.len() - i,
        {
            proof {
                assert(decreases_to!(ts => ts[i as int]));
                let s = tvs(ts@);
                assert(s.subrange(0, i + 1).drop_last() =~= s.subrange(0, i as int));
                crate::unify::lemma_tsize_seq_prefix(s, i + 1);
            }
            let ghost m1 = fvs(mapping@);
            let ghost n1 = self.next_var();
            let x = self.instantiate_rigids(&ts[i], mapping);
            let ghost before = out@;
            out.push(x);
            proof {
                let s = tvs(ts@);
                let m2 = fvs(mapping@);
                crate::ast::lemma_tvs_push(before, x);
                lemma_rigids_trans(m2, m1, m0, n0, n1, self.next_var(), rigid_names_seq(s.subrange(0, i as int)), rigid_names(s[i as int]), tsize_seq(s.subrange(0, i as int)), tsize(s[i as int]));
                lemma_rigid_sub_stable_seq(s.subrange(0, i as int), m2, m1);
            }
            i = i + 1;
        }
        proof {
            assert(tvs(ts@).subrange(0, i as int) =~= tvs(ts@));
        }
        out
    }

    fn instantiate_rigids_fields(&mut self, fs: &Vec<(String, Type)>, mapping: &mut Vec<(String, Type)>) -> (r: Vec<(String, Type)>)
        requires
            old(self).wf(),
            names_distinct(fvs(old(mapping)@)),
            old(self).next_var() + tsize_fields(fvs(fs@)) <= u32::MAX,
        ensures
            final(self).wf(),
            final(self).tsub() == old(self).tsub(),
            final(self).rsub() == old(self).rsub(),
            rigids_mapped(
                fvs(final(mapping)@),
                fvs(old(mapping)@),
                old(self).next_var(),
                final(self).next_var(),
                rigid_names_fields(fvs(fs@)),
                tsize_fields(fvs(fs@)),
            ),
            fvs(r@) == rigid_sub_fields(fvs(fs@), fvs(final(mapping)@)),
        decreases fs,
    {
        let ghost m0 = fvs(mapping@);
        let ghost n0 = self.next_var();
        let mut out: Vec<(String, Type)> = Vec::new();
        let mut i: usize = 0;
        proof {
            lemma_fvs(fs@);
            lemma_rigids_refl(m0, n0);
            assert(fvs(fs@).subrange(0, 0) =~= Seq::<(Seq<char>, TypeV)>::empty());
        }
        while i < fs.len()
            invariant
                self.wf(),
                self.tsub() == old(self).tsub(),
                self.rsub() == old(self).rsub(),
                m0 == fvs(old(mapping)@),
                n0 == old(self).next_var(),
                n0 + tsize_fields(fvs(fs@)) <= u32::MAX,
                i <= fs@.len(),
                fvs(fs@).len() == fs@.len(),
                forall|k: int| 0 <= k < fs@.len() ==> #[trigger] fvs(fs@)[k] == (fs@[k].0@, tv(fs@[k].1)),
                rigids_mapped(fvs(mapping@), m0, n0, self.next_var(), rigid_names_fields(fvs(fs@).subrange(0, i as int)), tsize_fields(fvs(fs@).subrange(0, i as int))),
                fvs(out@) == rigid_sub_fields(fvs(fs@).subrange(0, i as int), fvs(mapping@)),
            decreases fs.len() - i,
        {
            proof {
                assert(decreases_to!(fs => fs[i as int]));
                assert(decreases_to!(fs[i as int] => fs[i as int].1));
                let s = fvs(fs@);
                assert(s.subrange(0, i + 1).drop_last() =~= s.subrange(0, i as int));
                crate::unify::lemma_tsize_fields_prefix(s, i + 1);
            }
            let ghost m1 = fvs(mapping@);
            let ghost n1 = self.next_var();
            let x = self.instantiate_rigids(&fs[i].1, mapping);
            let f = (fs[i].0.clone(), x);
            let ghost before = out@;
            out.push(f);
            proof {
                let s = fvs(fs@);
                let m2 = fvs(mapping@);
                crate::ast::lemma_fvs_push(before, f);
                lemma_rigids_trans(m2, m1, m0, n0, n1, self.next_var(), rigid_names_fields(s.subrange(0, i as int)), rigid_names(s[i as int].1), tsize_fields(s.subrange(0, i as int)), tsize(s[i as int].1));
                lemma_rigid_sub_stable_fields(s.subrange(0, i as int), m2, m1);
            }
            i = i + 1;
        }
        proof {
            assert(fvs(fs@).subrange(0, i as int) =~= fvs(fs@));
        }
        out
    }

    /// Instantiates a signature: each rigid type variable name becomes one
    /// fresh unification variable, so the annotation can be unified with
    /// what was inferred.
    pub fn instantiate_signature(&mut self, sig: &Type) -> (r: Type)
        requires
            old(self).wf(),
            old(self).next_var() + tsize(tv(*sig)) <= u32::MAX,
        ensures
            final(self).wf(),
            final(self).tsub() == old(self).tsub(),
            final(self).rsub() == old(self).rsub(),
            exists|m: Seq<(Seq<char>, TypeV)>| #[trigger] rigids_mapped(
                m,
                Seq::empty(),
                old(self).next_var(),
                final(self).next_var(),
                rigid_names(tv(*sig)),
                tsize(tv(*sig)),
            ) && tv(r) == rigid_sub(tv(*sig), m),
    {
        let mut mapping: Vec<(String, Type)> = Vec::new();
        proof {
            assert(fvs(mapping@) =~= Seq::<(Seq<char>, TypeV)>::empty());
        }
        let r = self.instantiate_rigids(sig, &mut mapping);
        r
    }
}


// ---------------------------------------------------------------------------
// Number defaulting.
// ---------------------------------------------------------------------------

impl Infer {
    /// Pins every still-unbound `number` variable of `t` to `Int`: the
    /// default for a numeric literal used at no other type.
    pub fn default_number_vars(&mut self, t: &Type)
        requires
            old(self).wf(),
            wf_ty(tv(*t)),
            below(tv(*t), old(self).next_var()),
        ensures
            final(self).wf(),
            final(self).next_var() == old(self).next_var(),
            refines(final(self).tsub(), final(self).rsub(), old(self).tsub(), old(self).rsub(), old(self).next_var()),
            forall|v: u32| #[trigger] final(self).tsub().contains_key(v) ==> old(self).tsub().contains_key(v)
                || (tvar_occ(old(self).applied(tv(*t))).contains((v, Constraint::Number))
                && final(self).tsub()[v] == TypeV::Con("Int"@, Seq::empty())),
            forall|v: u32|
                #![trigger tvar_occ(old(self).applied(tv(*t))).contains((v, Constraint::Number))]
                tvar_occ(old(self).applied(tv(*t))).contains((v, Constraint::Number)) && (forall|c: Constraint|
                    #[trigger] tvar_occ(old(self).applied(tv(*t))).contains((v, c)) ==> c == Constraint::Number)
                    ==> final(self).tsub().contains_key(v) && final(self).tsub()[v] == TypeV::Con("Int"@, Seq::empty()),
    {
        let ghost s0 = self.tsub();
        let ghost r0 = self.rsub();
        let ghost n0 = self.next_var();
        let ghost occ = tvar_occ(self.applied(tv(*t)));
        let vars = self.ftv(t);
        let ghost int_ty = TypeV::Con("Int"@, Seq::empty());
        proof {
            self.lemma_wf();
            lemma_refines_self(s0, r0, n0);
            crate::engine::lemma_app_ok(s0, r0, n0, tv(*t));
            crate::engine::lemma_vars_finite(self.applied(tv(*t)));
        }
        let mut i: usize = 0;
        while i < vars.len()
            invariant
                self.wf(),
                self.next_var() == n0,
                s0 == old(self).tsub(),
                r0 == old(self).rsub(),
                n0 == old(self).next_var(),
                occ == tvar_occ(old(self).applied(tv(*t))),
                int_ty == TypeV::Con("Int"@, Seq::empty()),
                sub_ok(s0, r0, n0),
                refines(self.tsub(), self.rsub(), s0, r0, n0),
                ids_distinct(vars@),
                var_ids(vars@) == tvars(old(self).applied(tv(*t))),
                clean(s0, r0, old(self).applied(tv(*t))),
                crate::engine::below(old(self).applied(tv(*t)), n0),
                forall|k: int| 0 <= k < vars@.len() ==> occ.contains(#[trigger] vars@[k]),
                i <= vars@.len(),
                forall|k: int| i <= k < vars@.len() ==> !self.tsub().contains_key(#[trigger] vars@[k].0),
                forall|v: u32| #[trigger] self.tsub().contains_key(v) ==> s0.contains_key(v) || (occ.contains((v, Constraint::Number))
                    && self.tsub()[v] == int_ty),
                forall|k: int| 0 <= k < i && (#[trigger] vars@[k]).1 == Constraint::Number ==> self.tsub().contains_key(vars@[k].0)
                    && self.tsub()[vars@[k].0] == int_ty,
            decreases vars.len() - i,
        {
            let (v, c) = vars[i];
            if c == Constraint::Number {
                let ghost s = self.tsub();
                let ghost r = self.rsub();
                let int_con = crate::infer::con("Int");
                proof {
                    self.lemma_wf();
                    assert(var_ids(vars@).contains(v));
                    assert(tvars(old(self).applied(tv(*t))).contains(v));
                    assert(v < n0);
                    assert(crate::ast::tvs(Seq::<Type>::empty()) =~= Seq::<TypeV>::empty());
                    assert(tvars(int_ty) =~= Set::<u32>::empty()) by {
                        assert(tvars_seq(Seq::<TypeV>::empty()) == Set::<u32>::empty());
                    }
                    assert(crate::engine::rvars(int_ty) =~= Set::<u32>::empty()) by {
                        assert(crate::engine::rvars_seq(Seq::<TypeV>::empty()) == Set::<u32>::empty());
                    }
                    lemma_refines_bind_v(s, r, n0, v, int_ty);
                    assert(wf_ty(int_ty)) by {
                        assert(crate::engine::wf_seq(Seq::<TypeV>::empty()));
                    }
                }
                self.bind_type(v, int_con);
                proof {
                    lemma_refines_trans(self.tsub(), self.rsub(), s, r, n0, s0, r0, n0);
                    assert(substv(int_ty, v, int_ty) == int_ty) by {
                        assert(crate::engine::substv_seq(Seq::<TypeV>::empty(), v, int_ty) =~= Seq::<TypeV>::empty());
                    }
                    assert forall|u: u32| #[trigger] self.tsub().contains_key(u) implies s0.contains_key(u) || (occ.contains((u, Constraint::Number))
                        && self.tsub()[u] == int_ty) by {
                        if u != v && !s0.contains_key(u) {
                            assert(s.contains_key(u));
                            assert(s[u] == int_ty);
                            assert(self.tsub()[u] == substv(s[u], v, int_ty));
                            assert(crate::engine::substv_seq(Seq::<TypeV>::empty(), v, int_ty) =~= Seq::<TypeV>::empty());
                        }
                        if u == v {
                            assert(occ.contains(vars@[i as int]));
                        }
                    }
                    assert forall|k: int| 0 <= k < i + 1 && (#[trigger] vars@[k]).1 == Constraint::Number implies self.tsub().contains_key(vars@[k].0)
                        && self.tsub()[vars@[k].0] == int_ty by {
                        if k < i {
                            let u = vars@[k].0;
                            assert(u != v);
                            assert(s[u] == int_ty);
                            assert(crate::engine::substv_seq(Seq::<TypeV>::empty(), v, int_ty) =~= Seq::<TypeV>::empty());
                        }
                    }
                    assert forall|k: int| i + 1 <= k < vars@.len() implies !self.tsub().contains_key(#[trigger] vars@[k].0) by {
                        assert(vars@[k].0 != v);
                    }
                }
            }
            i = i + 1;
        }
        proof {
            assert forall|v: u32|
                occ.contains((v, Constraint::Number)) && (forall|c: Constraint| #[trigger] occ.contains((v, c)) ==> c == Constraint::Number)
                implies self.tsub().contains_key(v) && self.tsub()[v] == int_ty by {
                lemma_occ_vars(old(self).applied(tv(*t)), v, Constraint::Number);
                assert(var_ids(vars@).contains(v));
                let k = choose|k: int| 0 <= k < vars@.len() && (#[trigger] vars@[k]).0 == v;
                assert(occ.contains(vars@[k]));
                assert(vars@[k].1 == Constraint::Number);
                assert(!s0.contains_key(v)) by {
                    assert(tvars(old(self).applied(tv(*t))).contains(v));
                }
            }
        }
    }
}

/// A variable occurring with a bound is one of the type's variables.
proof fn lemma_occ_vars(t: TypeV, v: u32, c: Constraint)
    ensures
        tvar_occ(t).contains((v, c)) ==> tvars(t).contains(v),
    decreases t,
{
    match t {
        TypeV::Con(_, args) => lemma_occ_vars_seq(args, v, c),
        TypeV::Tuple(es) => lemma_occ_vars_seq(es, v, c),
        TypeV::Fun(a, b) => {
            lemma_occ_vars(*a, v, c);
            lemma_occ_vars(*b, v, c);
        },
        TypeV::Record(fs, _) => lemma_occ_vars_fields(fs, v, c),
        _ => {},
    }
}

proof fn lemma_occ_vars_seq(s: Seq<TypeV>, v: u32, c: Constraint)
    ensures
        tvar_occ_seq(s).contains((v, c)) ==> tvars_seq(s).contains(v),
    decreases s,
{
    if s.len() > 0 {
        lemma_occ_vars_seq(s.drop_last(), v, c);
        lemma_occ_vars(s.last(), v, c);
    }
}

proof fn lemma_occ_vars_fields(s: Seq<(Seq<char>, TypeV)>, v: u32, c: Constraint)
    ensures
        tvar_occ_fields(s).contains((v, c)) ==> tvars_fields(s).contains(v),
    decreases s,
{
    if s.len() > 0 {
        lemma_occ_vars_fields(s.drop_last(), v, c);
        lemma_occ_vars(s.last().1, v, c);
    }
}

} // verus!
