//! Unification. Two types are unified through a stack of pending pairs:
//! each step takes the top pair with the current substitutions applied, and
//! either binds a variable, splits the pair into the pairs of its parts, or
//! fails. A binding removes one variable from everything still pending, and a
//! split strictly shrinks what is pending, which is why the loop ends.
use vstd::prelude::*;

use crate::ast::{duplicate_fields, fvs, lemma_fvs, lemma_tvs, tv, tvs, Constraint, Row, Span, Type, TypeV};
use crate::engine::{
    app, app_fields, app_seq, below, clean, clean_fields, lt_all, row_set, substr, substr_fields,
    lemma_substr_merge, lemma_substr_fields_keys, compose_rsub, compose_rsub_v, compose_tsub, compose_tsub_r,
    lemma_app_clean_id, lemma_app_ok, lemma_compose_r, lemma_compose_v, lemma_substr_vars,
    lemma_substv_vars, lemma_vars_finite, rvars, rvars_fields, rvars_seq, sub_ok, tvars,
    tvars_fields, tvars_seq, wf_ty, RSub, TSub, flookup, fsorted, merge_fields, lemma_merge_sorted,
    lemma_fsorted_ext, lemma_fsorted_tail, lemma_fsorted_same_keys, lemma_app_fields, lemma_app_seq,
    wf_fields, wf_seq, lemma_wf_fields_iff, lemma_wf_seq_iff,
};
use crate::names::{lemma_seq_lt_irrefl, lemma_seq_lt_trans};
use crate::infer::{
    constraint_admits, constraint_name, constraint_name_spec, glyph_subtype_spec, merge_constraints,
    TypeError,
};
use crate::render::type_text;
use crate::infer::glyph_widens_into;
use crate::text::{decimal, push_decimal, push_str, str_eq};

verus! {

// ---------------------------------------------------------------------------
// Occurrence of a variable.
// ---------------------------------------------------------------------------

proof fn lemma_tvars_seq_step(s: Seq<TypeV>, i: int)
    requires
        0 <= i < s.len(),
    ensures
        tvars_seq(s.subrange(0, i + 1)) == tvars_seq(s.subrange(0, i)).union(tvars(s[i])),
        rvars_seq(s.subrange(0, i + 1)) == rvars_seq(s.subrange(0, i)).union(rvars(s[i])),
{
    assert(s.subrange(0, i + 1).drop_last() =~= s.subrange(0, i));
}

proof fn lemma_tvars_fields_step(s: Seq<(Seq<char>, TypeV)>, i: int)
    requires
        0 <= i < s.len(),
    ensures
        tvars_fields(s.subrange(0, i + 1)) == tvars_fields(s.subrange(0, i)).union(tvars(s[i].1)),
        rvars_fields(s.subrange(0, i + 1)) == rvars_fields(s.subrange(0, i)).union(rvars(s[i].1)),
{
    assert(s.subrange(0, i + 1).drop_last() =~= s.subrange(0, i));
}

/// Whether type variable `v` occurs in `t`.
pub fn occurs(v: u32, t: &Type) -> (r: bool)
    ensures
        r == tvars(tv(*t)).contains(v),
    decreases t,
{
    match t {
        Type::Var(w, _) => *w == v,
        Type::Rigid(_) => false,
        Type::Con(_, args) => occurs_all(v, args),
        Type::Fun(a, b) => occurs(v, a) || occurs(v, b),
        Type::Tuple(es) => occurs_all(v, es),
        Type::Record(fs, _) => occurs_fields(v, fs),
    }
}

fn occurs_all(v: u32, ts: &Vec<Type>) -> (r: bool)
    ensures
        r == tvars_seq(tvs(ts@)).contains(v),
    decreases ts,
{
    let mut i: usize = 0;
    proof {
        lemma_tvs(ts@);
        assert(tvs(ts@).subrange(0, 0) =~= Seq::<TypeV>::empty());
    }
    while i < ts.len()
        invariant
            i <= ts@.len(),
            tvs(ts@).len() == ts@.len(),
            forall|k: int| 0 <= k < ts@.len() ==> #[trigger] tvs(ts@)[k] == tv(ts@[k]),
            !tvars_seq(tvs(ts@).subrange(0, i as int)).contains(v),
        decreases ts.len() - i,
    {
        proof {
            assert(decreases_to!(ts => ts[i as int]));
            lemma_tvars_seq_step(tvs(ts@), i as int);
        }
        if occurs(v, &ts[i]) {
            proof {
                lemma_tvars_seq_step(tvs(ts@), i as int);
                lemma_tvars_seq_sub(tvs(ts@), i + 1);
            }
            return true;
        }
        i = i + 1;
    }
    proof {
        assert(tvs(ts@).subrange(0, i as int) =~= tvs(ts@));
    }
    false
}

proof fn lemma_tvars_seq_sub(s: Seq<TypeV>, i: int)
    requires
        0 <= i <= s.len(),
    ensures
        tvars_seq(s.subrange(0, i)).subset_of(tvars_seq(s)),
        rvars_seq(s.subrange(0, i)).subset_of(rvars_seq(s)),
    decreases s.len() - i,
{
    if i < s.len() {
        lemma_tvars_seq_sub(s, i + 1);
        lemma_tvars_seq_step(s, i);
    } else {
        assert(s.subrange(0, i) =~= s);
    }
}

proof fn lemma_tvars_fields_sub(s: Seq<(Seq<char>, TypeV)>, i: int)
    requires
        0 <= i <= s.len(),
    ensures
        tvars_fields(s.subrange(0, i)).subset_of(tvars_fields(s)),
        rvars_fields(s.subrange(0, i)).subset_of(rvars_fields(s)),
    decreases s.len() - i,
{
    if i < s.len() {
        lemma_tvars_fields_sub(s, i + 1);
        lemma_tvars_fields_step(s, i);
    } else {
        assert(s.subrange(0, i) =~= s);
    }
}

fn occurs_fields(v: u32, fs: &Vec<(String, Type)>) -> (r: bool)
    ensures
        r == tvars_fields(fvs(fs@)).contains(v),
    decreases fs,
{
    let mut i: usize = 0;
    proof {
        lemma_fvs(fs@);
        assert(fvs(fs@).subrange(0, 0) =~= Seq::<(Seq<char>, TypeV)>::empty());
    }
    while i < fs.len()
        invariant
            i <= fs@.len(),
            fvs(fs@).len() == fs@.len(),
            forall|k: int| 0 <= k < fs@.len() ==> #[trigger] fvs(fs@)[k] == (fs@[k].0@, tv(fs@[k].1)),
            !tvars_fields(fvs(fs@).subrange(0, i as int)).contains(v),
        decreases fs.len() - i,
    {
        proof {
            assert(decreases_to!(fs => fs[i as int]));
            assert(decreases_to!(fs[i as int] => fs[i as int].1));
            lemma_tvars_fields_step(fvs(fs@), i as int);
        }
        if occurs(v, &fs[i].1) {
            proof {
                lemma_tvars_fields_sub(fvs(fs@), i + 1);
            }
            return true;
        }
        i = i + 1;
    }
    proof {
        assert(fvs(fs@).subrange(0, i as int) =~= fvs(fs@));
    }
    false
}

/// Whether row variable `x` occurs in `t`, in a field's type or as a
/// record's own tail.
pub fn row_occurs(x: u32, t: &Type) -> (r: bool)
    ensures
        r == rvars(tv(*t)).contains(x),
    decreases t,
{
    match t {
        Type::Var(_, _) => false,
        Type::Rigid(_) => false,
        Type::Con(_, args) => row_occurs_all(x, args),
        Type::Fun(a, b) => row_occurs(x, a) || row_occurs(x, b),
        Type::Tuple(es) => row_occurs_all(x, es),
        Type::Record(fs, row) => {
            let here = match row {
                Row::Open(y) => *y == x,
                Row::Closed => false,
            };
            here || row_occurs_fields(x, fs)
        },
    }
}

fn row_occurs_all(x: u32, ts: &Vec<Type>) -> (r: bool)
    ensures
        r == rvars_seq(tvs(ts@)).contains(x),
    decreases ts,
{
    let mut i: usize = 0;
    proof {
        lemma_tvs(ts@);
        assert(tvs(ts@).subrange(0, 0) =~= Seq::<TypeV>::empty());
    }
    while i < ts.len()
        invariant
            i <= ts@.len(),
            tvs(ts@).len() == ts@.len(),
            forall|k: int| 0 <= k < ts@.len() ==> #[trigger] tvs(ts@)[k] == tv(ts@[k]),
            !rvars_seq(tvs(ts@).subrange(0, i as int)).contains(x),
        decreases ts.len() - i,
    {
        proof {
            assert(decreases_to!(ts => ts[i as int]));
            lemma_tvars_seq_step(tvs(ts@), i as int);
        }
        if row_occurs(x, &ts[i]) {
            proof {
                lemma_tvars_seq_sub(tvs(ts@), i + 1);
            }
            return true;
        }
        i = i + 1;
    }
    proof {
        assert(tvs(ts@).subrange(0, i as int) =~= tvs(ts@));
    }
    false
}

fn row_occurs_fields(x: u32, fs: &Vec<(String, Type)>) -> (r: bool)
    ensures
        r == rvars_fields(fvs(fs@)).contains(x),
    decreases fs,
{
    let mut i: usize = 0;
    proof {
        lemma_fvs(fs@);
        assert(fvs(fs@).subrange(0, 0) =~= Seq::<(Seq<char>, TypeV)>::empty());
    }
    while i < fs.len()
        invariant
            i <= fs@.len(),
            fvs(fs@).len() == fs@.len(),
            forall|k: int| 0 <= k < fs@.len() ==> #[trigger] fvs(fs@)[k] == (fs@[k].0@, tv(fs@[k].1)),
            !rvars_fields(fvs(fs@).subrange(0, i as int)).contains(x),
        decreases fs.len() - i,
    {
        proof {
            assert(decreases_to!(fs => fs[i as int]));
            assert(decreases_to!(fs[i as int] => fs[i as int].1));
            lemma_tvars_fields_step(fvs(fs@), i as int);
        }
        if row_occurs(x, &fs[i].1) {
            proof {
                lemma_tvars_fields_sub(fvs(fs@), i + 1);
            }
            return true;
        }
        i = i + 1;
    }
    proof {
        assert(fvs(fs@).subrange(0, i as int) =~= fvs(fs@));
    }
    false
}


// ---------------------------------------------------------------------------
// What unification establishes.
// ---------------------------------------------------------------------------

/// A type with every concrete glyph type read as `Glyph`: the view under
/// which unification treats a glyph type and `Glyph` as the same.
pub open spec fn widen(t: TypeV) -> TypeV
    decreases t,
{
    match t {
        TypeV::Con(n, args) => if args.len() == 0 && glyph_subtype_spec(n) {
            TypeV::Con("Glyph"@, Seq::empty())
        } else {
            TypeV::Con(n, widen_seq(args))
        },
        TypeV::Fun(a, b) => TypeV::Fun(Box::new(widen(*a)), Box::new(widen(*b))),
        TypeV::Record(fs, row) => TypeV::Record(widen_fields(fs), row),
        TypeV::Tuple(es) => TypeV::Tuple(widen_seq(es)),
        TypeV::Var(v, _) => TypeV::Var(v, Constraint::Free),
        _ => t,
    }
}

pub open spec fn widen_seq(s: Seq<TypeV>) -> Seq<TypeV>
    decreases s,
{
    if s.len() == 0 {
        Seq::empty()
    } else {
        widen_seq(s.drop_last()).push(widen(s.last()))
    }
}

pub open spec fn widen_fields(s: Seq<(Seq<char>, TypeV)>) -> Seq<(Seq<char>, TypeV)>
    decreases s,
{
    if s.len() == 0 {
        Seq::empty()
    } else {
        widen_fields(s.drop_last()).push((s.last().0, widen(s.last().1)))
    }
}

/// Glyph injection on constructors applied to nothing: where `Glyph` is
/// expected, `Glyph` and exactly the four concrete glyph types (`AptPackage`,
/// `SystemdService`, `Filesystem`, `LineInFile`) are accepted; where any
/// other constructor is expected, only that constructor is.
pub proof fn law_glyph_injection(t: Seq<char>, u: Seq<char>)
    ensures
        accepts(TypeV::Con("Glyph"@, Seq::empty()), TypeV::Con(t, Seq::empty())) <==> (t == "Glyph"@ || t == "AptPackage"@
            || t == "SystemdService"@ || t == "Filesystem"@ || t == "LineInFile"@),
        u != "Glyph"@ ==> (accepts(TypeV::Con(u, Seq::empty()), TypeV::Con(t, Seq::empty())) <==> t == u),
{
    reveal_strlit("Glyph");
    reveal_strlit("AptPackage");
    reveal_strlit("SystemdService");
    reveal_strlit("Filesystem");
    reveal_strlit("LineInFile");
    assert(accepts_seq(Seq::<TypeV>::empty(), Seq::<TypeV>::empty()));
}

/// Both properties of a list of pairs hold of it exactly when they hold of
/// its two parts.
proof fn lemma_all_split(ps: Seq<(TypeV, TypeV)>, m: int)
    requires
        0 <= m <= ps.len(),
    ensures
        all_accept(ps) <==> all_accept(ps.subrange(0, m)) && all_accept(ps.subrange(m, ps.len() as int)),
        all_ground(ps) <==> all_ground(ps.subrange(0, m)) && all_ground(ps.subrange(m, ps.len() as int)),
{
    let l = ps.subrange(0, m);
    let h = ps.subrange(m, ps.len() as int);
    assert forall|k: int| 0 <= k < l.len() implies #[trigger] l[k] == ps[k] by {}
    assert forall|k: int| 0 <= k < h.len() implies #[trigger] h[k] == ps[m + k] by {}
    if all_accept(l) && all_accept(h) {
        assert forall|k: int| 0 <= k < ps.len() implies accepts(#[trigger] ps[k].0, ps[k].1) by {
            if k < m {
                assert(l[k] == ps[k]);
            } else {
                assert(h[k - m] == ps[k]);
            }
        }
    }
    if all_ground(l) && all_ground(h) {
        assert forall|k: int| 0 <= k < ps.len() implies ground(#[trigger] ps[k].0) && ground(ps[k].1) by {
            if k < m {
                assert(l[k] == ps[k]);
                assert(ground(l[k].0) && ground(l[k].1));
            } else {
                let j = k - m;
                assert(0 <= j < h.len());
                assert(h[j] == ps[k]);
                assert(all_ground(h));
                assert(ground(h[j].0));
                assert(ground(h[j].1));
            }
        }
    }
    if all_accept(ps) {
        assert forall|k: int| 0 <= k < h.len() implies accepts(#[trigger] h[k].0, h[k].1) by {
            assert(h[k] == ps[m + k]);
        }
        assert forall|k: int| 0 <= k < l.len() implies accepts(#[trigger] l[k].0, l[k].1) by {
            assert(l[k] == ps[k]);
        }
    }
    if all_ground(ps) {
        assert forall|k: int| 0 <= k < h.len() implies ground(#[trigger] h[k].0) && ground(h[k].1) by {
            assert(h[k] == ps[m + k]);
        }
        assert forall|k: int| 0 <= k < l.len() implies ground(#[trigger] l[k].0) && ground(l[k].1) by {
            assert(l[k] == ps[k]);
        }
    }
}

/// A type with no variable of either kind and no record in it.
pub open spec fn ground(t: TypeV) -> bool
    decreases t,
{
    match t {
        TypeV::Rigid(_) => true,
        TypeV::Con(_, args) => ground_seq(args),
        TypeV::Fun(a, b) => ground(*a) && ground(*b),
        TypeV::Tuple(es) => ground_seq(es),
        _ => false,
    }
}

pub open spec fn ground_seq(ts: Seq<TypeV>) -> bool
    decreases ts,
{
    if ts.len() == 0 {
        true
    } else {
        ground_seq(ts.drop_last()) && ground(ts.last())
    }
}

/// `b`, found where `a` is expected, is accepted: the two are the same type,
/// except that a concrete glyph type is accepted where `Glyph` is expected
/// (never the other way round, and never one concrete glyph type for
/// another).
pub open spec fn accepts(a: TypeV, b: TypeV) -> bool
    decreases a,
{
    match a {
        TypeV::Rigid(_) => b == a,
        TypeV::Con(n1, a1) => match b {
            TypeV::Con(n2, a2) => (a1.len() == 0 && a2.len() == 0 && n1 == "Glyph"@ && glyph_subtype_spec(n2)) || (n1
                == n2 && a1.len() == a2.len() && accepts_seq(a1, a2)),
            _ => false,
        },
        TypeV::Fun(x1, y1) => match b {
            TypeV::Fun(x2, y2) => accepts(*x1, *x2) && accepts(*y1, *y2),
            _ => false,
        },
        TypeV::Tuple(e1) => match b {
            TypeV::Tuple(e2) => e1.len() == e2.len() && accepts_seq(e1, e2),
            _ => false,
        },
        _ => false,
    }
}

pub open spec fn accepts_seq(xs: Seq<TypeV>, ys: Seq<TypeV>) -> bool
    decreases xs,
{
    if xs.len() == 0 {
        true
    } else {
        accepts_seq(xs.drop_last(), ys.drop_last()) && accepts(xs.last(), ys[xs.len() - 1])
    }
}

/// Every pending pair is ground on both sides.
pub open spec fn all_ground(ps: Seq<(TypeV, TypeV)>) -> bool {
    forall|k: int| 0 <= k < ps.len() ==> ground(#[trigger] ps[k].0) && ground(ps[k].1)
}

/// Every pending pair is accepted.
pub open spec fn all_accept(ps: Seq<(TypeV, TypeV)>) -> bool {
    forall|k: int| 0 <= k < ps.len() ==> accepts(#[trigger] ps[k].0, ps[k].1)
}

proof fn lemma_ground_seq(ts: Seq<TypeV>)
    ensures
        ground_seq(ts) <==> forall|j: int| 0 <= j < ts.len() ==> ground(#[trigger] ts[j]),
    decreases ts.len(),
{
    if ts.len() > 0 {
        lemma_ground_seq(ts.drop_last());
        assert forall|j: int| 0 <= j < ts.len() - 1 implies ts.drop_last()[j] == ts[j] by {}
        if forall|j: int| 0 <= j < ts.len() ==> ground(#[trigger] ts[j]) {
            assert forall|j: int| 0 <= j < ts.drop_last().len() implies ground(#[trigger] ts.drop_last()[j]) by {
                assert(ts.drop_last()[j] == ts[j]);
            }
        }
        if ground_seq(ts) {
            assert forall|j: int| 0 <= j < ts.len() implies ground(#[trigger] ts[j]) by {
                if j < ts.len() - 1 {
                    assert(ts.drop_last()[j] == ts[j]);
                }
            }
        }
    }
}

proof fn lemma_accepts_seq(xs: Seq<TypeV>, ys: Seq<TypeV>)
    requires
        xs.len() == ys.len(),
    ensures
        accepts_seq(xs, ys) <==> forall|j: int| 0 <= j < xs.len() ==> accepts(#[trigger] xs[j], ys[j]),
    decreases xs.len(),
{
    if xs.len() > 0 {
        lemma_accepts_seq(xs.drop_last(), ys.drop_last());
        if forall|j: int| 0 <= j < xs.len() ==> accepts(#[trigger] xs[j], ys[j]) {
            assert forall|j: int| 0 <= j < xs.drop_last().len() implies accepts(#[trigger] xs.drop_last()[j], ys.drop_last()[j]) by {
                assert(xs.drop_last()[j] == xs[j]);
                assert(ys.drop_last()[j] == ys[j]);
            }
        }
        if accepts_seq(xs, ys) {
            assert forall|j: int| 0 <= j < xs.len() implies accepts(#[trigger] xs[j], ys[j]) by {
                if j < xs.len() - 1 {
                    assert(xs.drop_last()[j] == xs[j]);
                    assert(ys.drop_last()[j] == ys[j]);
                }
            }
        }
    }
}

/// A ground type mentions no variable.
proof fn lemma_ground_vars(t: TypeV)
    requires
        ground(t),
    ensures
        tvars(t) =~= Set::<u32>::empty(),
        rvars(t) =~= Set::<u32>::empty(),
    decreases t,
{
    match t {
        TypeV::Con(_, args) => lemma_ground_vars_seq(args),
        TypeV::Fun(a, b) => {
            lemma_ground_vars(*a);
            lemma_ground_vars(*b);
        },
        TypeV::Tuple(es) => lemma_ground_vars_seq(es),
        _ => {},
    }
}

proof fn lemma_ground_vars_seq(ts: Seq<TypeV>)
    requires
        ground_seq(ts),
    ensures
        tvars_seq(ts) =~= Set::<u32>::empty(),
        rvars_seq(ts) =~= Set::<u32>::empty(),
    decreases ts,
{
    if ts.len() > 0 {
        lemma_ground_vars_seq(ts.drop_last());
        lemma_ground_vars(ts.last());
    }
}

/// Children pushed last-first: all of them are accepted exactly when the
/// argument lists are, and they are ground when the lists are.
proof fn lemma_pushed_args(a: Seq<TypeV>, b: Seq<TypeV>, ks: Seq<(TypeV, TypeV)>)
    requires
        a.len() == b.len(),
        ks.len() == a.len(),
        forall|j: int| 0 <= j < a.len() ==> #[trigger] ks[a.len() - 1 - j] == (a[j], b[j]),
    ensures
        all_accept(ks) <==> accepts_seq(a, b),
        ground_seq(a) && ground_seq(b) ==> all_ground(ks),
{
    lemma_accepts_seq(a, b);
    lemma_ground_seq(a);
    lemma_ground_seq(b);
    assert forall|k: int| 0 <= k < ks.len() implies #[trigger] ks[k] == (a[a.len() - 1 - k], b[a.len() - 1 - k]) by {
        let j = a.len() - 1 - k;
        assert(ks[a.len() - 1 - j] == (a[j], b[j]));
    }
    if all_accept(ks) {
        assert forall|j: int| 0 <= j < a.len() implies accepts(#[trigger] a[j], b[j]) by {
            let k = a.len() - 1 - j;
            assert(ks[k] == (a[j], b[j]));
            assert(accepts(ks[k].0, ks[k].1));
        }
    }
    if accepts_seq(a, b) {
        assert forall|k: int| 0 <= k < ks.len() implies accepts(#[trigger] ks[k].0, ks[k].1) by {
            assert(ks[k] == (a[a.len() - 1 - k], b[a.len() - 1 - k]));
        }
    }
}

/// The two sides of a pair agree under the substitutions, glyph types read
/// as `Glyph`.
pub open spec fn solved(s: TSub, r: RSub, p: (TypeV, TypeV)) -> bool {
    widen(app(s, r, p.0)) == widen(app(s, r, p.1))
}

pub open spec fn all_solved(s: TSub, r: RSub, ps: Seq<(TypeV, TypeV)>) -> bool {
    forall|i: int| 0 <= i < ps.len() ==> solved(s, r, #[trigger] ps[i])
}

/// Substitutions `(s2, r2)` carry on from `(s1, r1)`: applying `(s1, r1)`
/// first changes nothing once `(s2, r2)` is applied, for every well-formed
/// type over variables below `n`.
pub open spec fn refines(s2: TSub, r2: RSub, s1: TSub, r1: RSub, n: u32) -> bool {
    forall|t: TypeV| wf_ty(t) && below(t, n) ==> #[trigger] app(s2, r2, app(s1, r1, t)) == app(s2, r2, t)
}

/// Whatever carries on from `(s, r)` and agrees on every pending pair also
/// agrees on `goal`.
pub open spec fn goal_kept(s: TSub, r: RSub, n: u32, ps: Seq<(TypeV, TypeV)>, goal: (TypeV, TypeV)) -> bool {
    forall|s2: TSub, r2: RSub, n2: u32|
        #![trigger refines(s2, r2, s, r, n), sub_ok(s2, r2, n2)]
        sub_ok(s2, r2, n2) && n <= n2 && refines(s2, r2, s, r, n) && all_solved(s2, r2, ps) ==> solved(s2, r2, goal)
}

/// A step from pending `ps` to pending `ps2` loses nothing: whatever carries
/// on from the new substitutions and agrees on `ps2` agrees on `ps`.
pub open spec fn step_sound(s: TSub, r: RSub, n: u32, ps2: Seq<(TypeV, TypeV)>, ps: Seq<(TypeV, TypeV)>) -> bool {
    forall|s2: TSub, r2: RSub, n2: u32|
        #![trigger refines(s2, r2, s, r, n), sub_ok(s2, r2, n2)]
        sub_ok(s2, r2, n2) && n <= n2 && refines(s2, r2, s, r, n) && all_solved(s2, r2, ps2) ==> all_solved(s2, r2, ps)
}

/// An idempotent substitution carries on from itself.
pub proof fn lemma_refines_self(s: TSub, r: RSub, n: u32)
    requires
        sub_ok(s, r, n),
    ensures
        refines(s, r, s, r, n),
{
    assert forall|t: TypeV| wf_ty(t) && below(t, n) implies #[trigger] app(s, r, app(s, r, t)) == app(s, r, t) by {
        lemma_app_ok(s, r, n, t);
        lemma_app_clean_id(s, r, app(s, r, t));
    }
}

pub proof fn lemma_refines_trans(s3: TSub, r3: RSub, s2: TSub, r2: RSub, n2: u32, s1: TSub, r1: RSub, n1: u32)
    requires
        refines(s3, r3, s2, r2, n2),
        refines(s2, r2, s1, r1, n1),
        sub_ok(s1, r1, n1),
        n1 <= n2,
    ensures
        refines(s3, r3, s1, r1, n1),
{
    assert forall|t: TypeV| wf_ty(t) && below(t, n1) implies #[trigger] app(s3, r3, app(s1, r1, t)) == app(s3, r3, t) by {
        lemma_app_ok(s1, r1, n1, t);
        let u = app(s1, r1, t);
        assert(below(u, n2)) by {
            assert forall|y: u32| tvars(u).contains(y) implies y < n2 by {}
            assert forall|y: u32| rvars(u).contains(y) implies y < n2 by {}
        }
        assert(below(t, n2)) by {
            assert forall|y: u32| tvars(t).contains(y) implies y < n2 by {}
            assert forall|y: u32| rvars(t).contains(y) implies y < n2 by {}
        }
        assert(app(s3, r3, app(s2, r2, u)) == app(s3, r3, u));
        assert(app(s2, r2, app(s1, r1, t)) == app(s2, r2, t));
        assert(app(s3, r3, app(s2, r2, t)) == app(s3, r3, t));
    }
}

/// Binding a type variable carries on from the substitutions before.
pub proof fn lemma_refines_bind_v(s: TSub, r: RSub, n: u32, v: u32, b: TypeV)
    requires
        sub_ok(s, r, n),
        !s.contains_key(v),
    ensures
        refines(compose_tsub(s, v, b), compose_rsub_v(r, v, b), s, r, n),
{
    let s2 = compose_tsub(s, v, b);
    let r2 = compose_rsub_v(r, v, b);
    assert forall|t: TypeV| wf_ty(t) && below(t, n) implies #[trigger] app(s2, r2, app(s, r, t)) == app(s2, r2, t) by {
        lemma_app_ok(s, r, n, t);
        let y = app(s, r, t);
        lemma_app_clean_id(s, r, y);
        lemma_compose_v(s, r, v, b, y);
        lemma_compose_v(s, r, v, b, t);
    }
}

/// Binding a row variable carries on from the substitutions before.
pub proof fn lemma_refines_bind_r(s: TSub, r: RSub, n: u32, x: u32, more: Seq<(Seq<char>, TypeV)>, tail: Row)
    requires
        sub_ok(s, r, n),
        !r.contains_key(x),
        crate::engine::fsorted(more),
    ensures
        refines(compose_tsub_r(s, x, more, tail), compose_rsub(r, x, more, tail), s, r, n),
{
    let s2 = compose_tsub_r(s, x, more, tail);
    let r2 = compose_rsub(r, x, more, tail);
    assert forall|t: TypeV| wf_ty(t) && below(t, n) implies #[trigger] app(s2, r2, app(s, r, t)) == app(s2, r2, t) by {
        lemma_app_ok(s, r, n, t);
        let y = app(s, r, t);
        lemma_app_clean_id(s, r, y);
        lemma_compose_r(s, r, x, more, tail, y);
        lemma_compose_r(s, r, x, more, tail, t);
    }
}

/// The goal is kept across a sound step.
pub proof fn lemma_goal_step(
    s: TSub,
    r: RSub,
    n: u32,
    ps: Seq<(TypeV, TypeV)>,
    s1: TSub,
    r1: RSub,
    n1: u32,
    ps1: Seq<(TypeV, TypeV)>,
    goal: (TypeV, TypeV),
)
    requires
        goal_kept(s, r, n, ps, goal),
        sub_ok(s, r, n),
        n <= n1,
        refines(s1, r1, s, r, n),
        step_sound(s1, r1, n1, ps1, ps),
    ensures
        goal_kept(s1, r1, n1, ps1, goal),
{
    assert forall|s2: TSub, r2: RSub, n2: u32|
        sub_ok(s2, r2, n2) && n1 <= n2 && refines(s2, r2, s1, r1, n1) && all_solved(s2, r2, ps1) implies solved(s2, r2, goal) by {
        lemma_refines_trans(s2, r2, s1, r1, n1, s, r, n);
        assert(all_solved(s2, r2, ps));
        assert(refines(s2, r2, s, r, n));
        assert(sub_ok(s2, r2, n2));
    }
}

// ---------------------------------------------------------------------------
// What is pending, and how much of it.
// ---------------------------------------------------------------------------

/// Every pending pair is made of well-formed types.
pub open spec fn pend_wf(ps: Seq<(TypeV, TypeV)>) -> bool {
    forall|i: int| 0 <= i < ps.len() ==> wf_ty(#[trigger] ps[i].0) && wf_ty(ps[i].1)
}

/// The unbound type variables of the pending pairs.
pub open spec fn pend_tv(s: TSub, r: RSub, ps: Seq<(TypeV, TypeV)>) -> Set<u32>
    decreases ps.len(),
{
    if ps.len() == 0 {
        Set::empty()
    } else {
        pend_tv(s, r, ps.drop_last()).union(tvars(app(s, r, ps.last().0))).union(tvars(app(s, r, ps.last().1)))
    }
}

/// The unbound row variables of the pending pairs.
pub open spec fn pend_rv(s: TSub, r: RSub, ps: Seq<(TypeV, TypeV)>) -> Set<u32>
    decreases ps.len(),
{
    if ps.len() == 0 {
        Set::empty()
    } else {
        pend_rv(s, r, ps.drop_last()).union(rvars(app(s, r, ps.last().0))).union(rvars(app(s, r, ps.last().1)))
    }
}

/// The size of a type: one for each node, and one for each record field.
pub open spec fn tsize(t: TypeV) -> nat
    decreases t,
{
    match t {
        TypeV::Con(_, args) => 1 + tsize_seq(args),
        TypeV::Fun(a, b) => 1 + tsize(*a) + tsize(*b),
        TypeV::Record(fs, _) => 1 + tsize_fields(fs),
        TypeV::Tuple(es) => 1 + tsize_seq(es),
        _ => 1,
    }
}

pub open spec fn tsize_seq(s: Seq<TypeV>) -> nat
    decreases s,
{
    if s.len() == 0 {
        0
    } else {
        tsize_seq(s.drop_last()) + tsize(s.last())
    }
}

pub open spec fn tsize_fields(s: Seq<(Seq<char>, TypeV)>) -> nat
    decreases s,
{
    if s.len() == 0 {
        0
    } else {
        tsize_fields(s.drop_last()) + 1 + tsize(s.last().1)
    }
}

/// The total size of the pending pairs, substitutions applied.
pub open spec fn pend_size(s: TSub, r: RSub, ps: Seq<(TypeV, TypeV)>) -> nat
    decreases ps.len(),
{
    if ps.len() == 0 {
        0
    } else {
        pend_size(s, r, ps.drop_last()) + tsize(app(s, r, ps.last().0)) + tsize(app(s, r, ps.last().1))
    }
}

/// How many unbound variables are pending.
pub open spec fn pend_count(s: TSub, r: RSub, ps: Seq<(TypeV, TypeV)>) -> nat {
    pend_tv(s, r, ps).len() + pend_rv(s, r, ps).len()
}

pub proof fn lemma_pend_finite(s: TSub, r: RSub, ps: Seq<(TypeV, TypeV)>)
    ensures
        pend_tv(s, r, ps).finite(),
        pend_rv(s, r, ps).finite(),
    decreases ps.len(),
{
    if ps.len() > 0 {
        lemma_pend_finite(s, r, ps.drop_last());
        lemma_vars_finite(app(s, r, ps.last().0));
        lemma_vars_finite(app(s, r, ps.last().1));
    }
}

/// Binding type variable `v` to `b` removes `v` from what is pending and
/// brings in at most the variables of `b`.
pub proof fn lemma_pend_bind_v(s: TSub, r: RSub, v: u32, b: TypeV, ps: Seq<(TypeV, TypeV)>)
    requires
        !s.contains_key(v),
    ensures
        pend_tv(compose_tsub(s, v, b), compose_rsub_v(r, v, b), ps).subset_of(pend_tv(s, r, ps).remove(v).union(tvars(b))),
        pend_rv(compose_tsub(s, v, b), compose_rsub_v(r, v, b), ps).subset_of(pend_rv(s, r, ps).union(rvars(b))),
    decreases ps.len(),
{
    if ps.len() > 0 {
        lemma_pend_bind_v(s, r, v, b, ps.drop_last());
        let (x, y) = ps.last();
        lemma_compose_v(s, r, v, b, x);
        lemma_compose_v(s, r, v, b, y);
        lemma_substv_vars(app(s, r, x), v, b);
        lemma_substv_vars(app(s, r, y), v, b);
    }
}

/// Binding row variable `x` removes `x` from what is pending and brings in
/// at most the variables of the new fields and tail.
pub proof fn lemma_pend_bind_r(s: TSub, r: RSub, x: u32, more: Seq<(Seq<char>, TypeV)>, tail: Row, ps: Seq<(TypeV, TypeV)>)
    requires
        !r.contains_key(x),
        crate::engine::fsorted(more),
        forall|z: u32| #[trigger] r.contains_key(z) ==> crate::engine::fsorted(r[z].0),
        pend_wf(ps),
    ensures
        pend_tv(compose_tsub_r(s, x, more, tail), compose_rsub(r, x, more, tail), ps).subset_of(
            pend_tv(s, r, ps).union(tvars_fields(more)),
        ),
        pend_rv(compose_tsub_r(s, x, more, tail), compose_rsub(r, x, more, tail), ps).subset_of(
            pend_rv(s, r, ps).remove(x).union(rvars_fields(more)).union(crate::engine::row_set(tail)),
        ),
    decreases ps.len(),
{
    if ps.len() > 0 {
        assert(pend_wf(ps.drop_last())) by {
            assert forall|i: int| 0 <= i < ps.drop_last().len() implies wf_ty(#[trigger] ps.drop_last()[i].0) && wf_ty(ps.drop_last()[i].1) by {
                assert(ps.drop_last()[i] == ps[i]);
            }
        }
        lemma_pend_bind_r(s, r, x, more, tail, ps.drop_last());
        let (a, b) = ps.last();
        assert(wf_ty(ps[ps.len() - 1].0));
        lemma_compose_r(s, r, x, more, tail, a);
        lemma_compose_r(s, r, x, more, tail, b);
        lemma_substr_vars(app(s, r, a), x, more, tail);
        lemma_substr_vars(app(s, r, b), x, more, tail);
    }
}


// ---------------------------------------------------------------------------
// Field lists.
// ---------------------------------------------------------------------------

/// In a sorted list, a field's position gives its lookup.
pub proof fn lemma_flookup_at(fs: Seq<(Seq<char>, TypeV)>, i: int)
    requires
        fsorted(fs),
        0 <= i < fs.len(),
    ensures
        flookup(fs, fs[i].0) == Some(fs[i].1),
    decreases fs.len(),
{
    if i > 0 {
        assert(crate::text::seq_lt(fs[0].0, fs[i].0));
        lemma_seq_lt_irrefl(fs[i].0);
        lemma_fsorted_tail(fs);
        assert(fs.drop_first()[i - 1] == fs[i]);
        lemma_flookup_at(fs.drop_first(), i - 1);
    }
}

/// A name that no field has is not found.
pub proof fn lemma_flookup_none(fs: Seq<(Seq<char>, TypeV)>, k: Seq<char>)
    requires
        forall|i: int| 0 <= i < fs.len() ==> (#[trigger] fs[i]).0 != k,
    ensures
        flookup(fs, k) is None,
    decreases fs.len(),
{
    if fs.len() > 0 {
        assert(fs[0].0 != k);
        assert forall|i: int| 0 <= i < fs.drop_first().len() implies (#[trigger] fs.drop_first()[i]).0 != k by {
            assert(fs.drop_first()[i] == fs[i + 1]);
        }
        lemma_flookup_none(fs.drop_first(), k);
    }
}

/// A name that is found is some field's.
pub proof fn lemma_flookup_some(fs: Seq<(Seq<char>, TypeV)>, k: Seq<char>)
    requires
        flookup(fs, k) is Some,
    ensures
        exists|i: int| 0 <= i < fs.len() && (#[trigger] fs[i]).0 == k && flookup(fs, k) == Some(fs[i].1),
    decreases fs.len(),
{
    if fs[0].0 == k {
        assert(fs[0].0 == k && flookup(fs, k) == Some(fs[0].1));
    } else {
        lemma_flookup_some(fs.drop_first(), k);
        let i = choose|i: int| 0 <= i < fs.drop_first().len() && (#[trigger] fs.drop_first()[i]).0 == k && flookup(fs.drop_first(), k) == Some(fs.drop_first()[i].1);
        assert(fs[i + 1] == fs.drop_first()[i]);
    }
}

proof fn lemma_tsize_fields_concat(a: Seq<(Seq<char>, TypeV)>, b: Seq<(Seq<char>, TypeV)>)
    ensures
        tsize_fields(a + b) == tsize_fields(a) + tsize_fields(b),
        tvars_fields(a + b) == tvars_fields(a).union(tvars_fields(b)),
        rvars_fields(a + b) == rvars_fields(a).union(rvars_fields(b)),
    decreases b.len(),
{
    if b.len() == 0 {
        assert(a + b =~= a);
        assert(tvars_fields(a).union(Set::empty()) =~= tvars_fields(a));
        assert(rvars_fields(a).union(Set::empty()) =~= rvars_fields(a));
    } else {
        lemma_tsize_fields_concat(a, b.drop_last());
        assert((a + b).drop_last() =~= a + b.drop_last());
        assert((a + b).last() == b.last());
        assert(tvars_fields(a + b) =~= tvars_fields(a).union(tvars_fields(b)));
        assert(rvars_fields(a + b) =~= rvars_fields(a).union(rvars_fields(b)));
    }
}

/// Removing field `i` from a sorted list keeps it sorted, hides that field's
/// name and no other, and takes away that field's size.
pub proof fn lemma_remove_field(fs: Seq<(Seq<char>, TypeV)>, i: int)
    requires
        fsorted(fs),
        0 <= i < fs.len(),
    ensures
        fsorted(fs.remove(i)),
        forall|k: Seq<char>| k != fs[i].0 ==> #[trigger] flookup(fs.remove(i), k) == flookup(fs, k),
        flookup(fs.remove(i), fs[i].0) is None,
        tsize_fields(fs.remove(i)) + 1 + tsize(fs[i].1) == tsize_fields(fs),
        tvars_fields(fs.remove(i)).subset_of(tvars_fields(fs)),
        rvars_fields(fs.remove(i)).subset_of(rvars_fields(fs)),
        wf_fields(fs) ==> wf_fields(fs.remove(i)),
{
    let g = fs.remove(i);
    assert forall|p: int, q: int| 0 <= p < q < g.len() implies crate::text::seq_lt(#[trigger] g[p].0, #[trigger] g[q].0) by {
        let p2 = if p < i { p } else { p + 1 };
        let q2 = if q < i { q } else { q + 1 };
        assert(g[p] == fs[p2]);
        assert(g[q] == fs[q2]);
    }
    assert forall|k: Seq<char>| k != fs[i].0 implies #[trigger] flookup(g, k) == flookup(fs, k) by {
        if flookup(fs, k) is Some {
            lemma_flookup_some(fs, k);
            let j = choose|j: int| 0 <= j < fs.len() && (#[trigger] fs[j]).0 == k && flookup(fs, k) == Some(fs[j].1);
            let j2 = if j < i { j } else { j - 1 };
            assert(g[j2] == fs[j]);
            lemma_flookup_at(g, j2);
        } else {
            assert forall|p: int| 0 <= p < g.len() implies (#[trigger] g[p]).0 != k by {
                let p2 = if p < i { p } else { p + 1 };
                assert(g[p] == fs[p2]);
                if fs[p2].0 == k {
                    lemma_flookup_at(fs, p2);
                }
            }
            lemma_flookup_none(g, k);
        }
    }
    assert forall|p: int| 0 <= p < g.len() implies (#[trigger] g[p]).0 != fs[i].0 by {
        let p2 = if p < i { p } else { p + 1 };
        assert(g[p] == fs[p2]);
        lemma_seq_lt_irrefl(fs[i].0);
        if p2 < i {
            assert(crate::text::seq_lt(fs[p2].0, fs[i].0));
        } else {
            assert(crate::text::seq_lt(fs[i].0, fs[p2].0));
        }
    }
    lemma_flookup_none(g, fs[i].0);
    let a = fs.subrange(0, i);
    let b = fs.subrange(i + 1, fs.len() as int);
    assert(g =~= a + b);
    assert(fs =~= (a + seq![fs[i]]) + b);
    lemma_tsize_fields_concat(a, b);
    lemma_tsize_fields_concat(a + seq![fs[i]], b);
    lemma_tsize_fields_concat(a, seq![fs[i]]);
    assert(seq![fs[i]].drop_last() =~= Seq::<(Seq<char>, TypeV)>::empty());
    assert(tsize_fields(seq![fs[i]]) == 1 + tsize(fs[i].1)) by {
        let one = seq![fs[i]];
        assert(one.len() == 1);
        assert(one.last() == fs[i]);
        assert(tsize_fields(one.drop_last()) == 0);
    }
    assert(tsize_fields(g) == tsize_fields(a) + tsize_fields(b));
    assert(tsize_fields(a + seq![fs[i]]) == tsize_fields(a) + 1 + tsize(fs[i].1));
    if wf_fields(fs) {
        lemma_wf_fields_iff(fs);
        lemma_wf_fields_iff(g);
        assert forall|p: int| 0 <= p < g.len() implies wf_ty(#[trigger] g[p].1) by {
            let p2 = if p < i { p } else { p + 1 };
            assert(g[p] == fs[p2]);
        }
    }
}

/// Applying substitutions to a field list keeps its names.
pub proof fn lemma_flookup_app(s: TSub, r: RSub, fs: Seq<(Seq<char>, TypeV)>, k: Seq<char>)
    ensures
        flookup(app_fields(s, r, fs), k) == match flookup(fs, k) {
            Some(t) => Some(app(s, r, t)),
            None => None,
        },
    decreases fs.len(),
{
    lemma_app_fields(s, r, fs);
    if fs.len() > 0 {
        lemma_app_fields(s, r, fs.drop_first());
        assert(app_fields(s, r, fs).drop_first() =~= app_fields(s, r, fs.drop_first()));
        lemma_flookup_app(s, r, fs.drop_first(), k);
    }
}

pub proof fn lemma_widen_seq(s: Seq<TypeV>)
    ensures
        widen_seq(s).len() == s.len(),
        forall|i: int| 0 <= i < s.len() ==> #[trigger] widen_seq(s)[i] == widen(s[i]),
    decreases s.len(),
{
    if s.len() > 0 {
        lemma_widen_seq(s.drop_last());
    }
}

pub proof fn lemma_widen_fields(s: Seq<(Seq<char>, TypeV)>)
    ensures
        widen_fields(s).len() == s.len(),
        forall|i: int| 0 <= i < s.len() ==> #[trigger] widen_fields(s)[i] == (s[i].0, widen(s[i].1)),
    decreases s.len(),
{
    if s.len() > 0 {
        lemma_widen_fields(s.drop_last());
    }
}

/// Widening a field list keeps its names.
pub proof fn lemma_flookup_widen(fs: Seq<(Seq<char>, TypeV)>, k: Seq<char>)
    ensures
        flookup(widen_fields(fs), k) == match flookup(fs, k) {
            Some(t) => Some(widen(t)),
            None => None,
        },
        fsorted(fs) ==> fsorted(widen_fields(fs)),
    decreases fs.len(),
{
    lemma_widen_fields(fs);
    if fsorted(fs) {
        lemma_fsorted_same_keys(fs, widen_fields(fs));
    }
    if fs.len() > 0 {
        lemma_widen_fields(fs.drop_first());
        assert(widen_fields(fs).drop_first() =~= widen_fields(fs.drop_first()));
        lemma_flookup_widen(fs.drop_first(), k);
    }
}

/// The option of a widened type.
pub open spec fn owiden(o: Option<TypeV>) -> Option<TypeV> {
    match o {
        Some(t) => Some(widen(t)),
        None => None,
    }
}

/// Two records agree once widened when their tails are the same and every
/// name finds agreeing fields.
pub proof fn lemma_records_agree(f1: Seq<(Seq<char>, TypeV)>, f2: Seq<(Seq<char>, TypeV)>, t: Row)
    requires
        fsorted(f1),
        fsorted(f2),
        forall|k: Seq<char>| #[trigger] owiden(flookup(f1, k)) == owiden(flookup(f2, k)),
    ensures
        widen(TypeV::Record(f1, t)) == widen(TypeV::Record(f2, t)),
{
    assert forall|k: Seq<char>| #[trigger] flookup(widen_fields(f1), k) == flookup(widen_fields(f2), k) by {
        lemma_flookup_widen(f1, k);
        lemma_flookup_widen(f2, k);
        assert(owiden(flookup(f1, k)) == owiden(flookup(f2, k)));
    }
    lemma_flookup_widen(f1, Seq::empty());
    lemma_flookup_widen(f2, Seq::empty());
    lemma_fsorted_ext(widen_fields(f1), widen_fields(f2));
}

/// Records that agree once widened have the same tail and agreeing fields.
pub proof fn lemma_records_agree_inv(f1: Seq<(Seq<char>, TypeV)>, t1: Row, f2: Seq<(Seq<char>, TypeV)>, t2: Row, k: Seq<char>)
    requires
        widen(TypeV::Record(f1, t1)) == widen(TypeV::Record(f2, t2)),
    ensures
        t1 == t2,
        owiden(flookup(f1, k)) == owiden(flookup(f2, k)),
{
    lemma_flookup_widen(f1, k);
    lemma_flookup_widen(f2, k);
}

/// The fields and tail of a record once the substitutions are applied.
pub open spec fn rec_fields(s: TSub, r: RSub, fs: Seq<(Seq<char>, TypeV)>, row: Row) -> Seq<(Seq<char>, TypeV)> {
    match row {
        Row::Open(x) => if r.contains_key(x) {
            merge_fields(app_fields(s, r, fs), r[x].0)
        } else {
            app_fields(s, r, fs)
        },
        Row::Closed => app_fields(s, r, fs),
    }
}

pub open spec fn rec_tail(r: RSub, row: Row) -> Row {
    match row {
        Row::Open(x) => if r.contains_key(x) {
            r[x].1
        } else {
            row
        },
        Row::Closed => row,
    }
}

/// A record with the substitutions applied: its fields are sorted, a name
/// of the record finds its own field applied, and any other name finds what
/// the bound tail adds.
pub proof fn lemma_app_record(s: TSub, r: RSub, fs: Seq<(Seq<char>, TypeV)>, row: Row, k: Seq<char>)
    requires
        fsorted(fs),
        forall|z: u32| #[trigger] r.contains_key(z) ==> fsorted(r[z].0),
    ensures
        app(s, r, TypeV::Record(fs, row)) == TypeV::Record(rec_fields(s, r, fs, row), rec_tail(r, row)),
        fsorted(rec_fields(s, r, fs, row)),
        flookup(rec_fields(s, r, fs, row), k) == if flookup(fs, k) is Some {
            Some(app(s, r, flookup(fs, k).unwrap()))
        } else {
            match row {
                Row::Open(x) => if r.contains_key(x) {
                    flookup(r[x].0, k)
                } else {
                    None
                },
                Row::Closed => None,
            }
        },
{
    lemma_app_fields(s, r, fs);
    lemma_fsorted_same_keys(fs, app_fields(s, r, fs));
    lemma_flookup_app(s, r, fs, k);
    match row {
        Row::Open(x) => if r.contains_key(x) {
            lemma_merge_sorted(app_fields(s, r, fs), r[x].0);
        },
        Row::Closed => {},
    }
}

/// Merging lists with no name in common does not depend on their order.
pub proof fn lemma_merge_comm(a: Seq<(Seq<char>, TypeV)>, b: Seq<(Seq<char>, TypeV)>)
    requires
        fsorted(a),
        fsorted(b),
        forall|k: Seq<char>| !(#[trigger] flookup(a, k) is Some && flookup(b, k) is Some),
    ensures
        merge_fields(a, b) == merge_fields(b, a),
{
    lemma_merge_sorted(a, b);
    lemma_merge_sorted(b, a);
    assert forall|k: Seq<char>| #[trigger] flookup(merge_fields(a, b), k) == flookup(merge_fields(b, a), k) by {
        assert(!(flookup(a, k) is Some && flookup(b, k) is Some));
    }
    lemma_fsorted_ext(merge_fields(a, b), merge_fields(b, a));
}


// ---------------------------------------------------------------------------
// Messages.
// ---------------------------------------------------------------------------

fn both_message(c: Constraint, d: Constraint) -> (r: String)
    ensures
        r@ == "no type satisfies both `"@ + constraint_name_spec(c) + "` and `"@ + constraint_name_spec(d) + "`"@,
{
    let mut s = String::new();
    push_str(&mut s, "no type satisfies both `");
    push_str(&mut s, constraint_name(c));
    push_str(&mut s, "` and `");
    push_str(&mut s, constraint_name(d));
    push_str(&mut s, "`");
    s
}

fn infinite_message(v: u32, t: &Type) -> (r: String)
    ensures
        r@ == "infinite type: t"@ + decimal(v as nat) + " occurs in `"@ + type_text(tv(*t)) + "`"@,
{
    let mut s = String::new();
    push_str(&mut s, "infinite type: t");
    push_decimal(&mut s, v as u64);
    push_str(&mut s, " occurs in `");
    let text = t.to_text();
    push_str(&mut s, text.as_str());
    push_str(&mut s, "`");
    s
}

fn unsatisfied_message(t: &Type, c: Constraint) -> (r: String)
    ensures
        r@ == "type `"@ + type_text(tv(*t)) + "` does not satisfy `"@ + constraint_name_spec(c) + "`"@,
{
    let mut s = String::new();
    push_str(&mut s, "type `");
    let text = t.to_text();
    push_str(&mut s, text.as_str());
    push_str(&mut s, "` does not satisfy `");
    push_str(&mut s, constraint_name(c));
    push_str(&mut s, "`");
    s
}

/// `prefix`, the first type, `middle`, the second type, and a closing quote.
fn two_types_message(prefix: &str, a: &Type, middle: &str, b: &Type) -> (r: String)
    ensures
        r@ == prefix@ + type_text(tv(*a)) + middle@ + type_text(tv(*b)) + "`"@,
{
    let mut s = String::new();
    push_str(&mut s, prefix);
    let ta = a.to_text();
    push_str(&mut s, ta.as_str());
    push_str(&mut s, middle);
    let tb = b.to_text();
    push_str(&mut s, tb.as_str());
    push_str(&mut s, "`");
    s
}

// ---------------------------------------------------------------------------
// Steps.
// ---------------------------------------------------------------------------

/// What one step of unification owes, from substitutions `(s, r)` below `n`
/// with pending pairs `ps` to `(s1, r1)` below `n1` with pending `ps1`: the
/// new substitutions carry on from the old ones, nothing is lost, fewer
/// unbound variables are pending or as many and less to do, and the counter
/// grew by no more than the variables that went.
pub open spec fn step_ok(
    s: TSub,
    r: RSub,
    n: u32,
    ps: Seq<(TypeV, TypeV)>,
    s1: TSub,
    r1: RSub,
    n1: u32,
    ps1: Seq<(TypeV, TypeV)>,
) -> bool {
    &&& n <= n1
    &&& refines(s1, r1, s, r, n)
    &&& step_sound(s1, r1, n1, ps1, ps)
    &&& (pend_count(s1, r1, ps1) < pend_count(s, r, ps) || (pend_count(s1, r1, ps1) == pend_count(s, r, ps)
        && pend_size(s1, r1, ps1) < pend_size(s, r, ps)))
    &&& n1 + pend_count(s1, r1, ps1) <= n + pend_count(s, r, ps)
}

proof fn lemma_card_drop(a: Set<u32>, b: Set<u32>, v: u32)
    requires
        b.finite(),
        b.contains(v),
        a.subset_of(b.remove(v)),
    ensures
        a.finite(),
        a.len() < b.len(),
{
    vstd::set_lib::lemma_len_subset(a, b.remove(v));
    vstd::set::axiom_set_remove_len(b, v);
}

proof fn lemma_card_le(a: Set<u32>, b: Set<u32>)
    requires
        b.finite(),
        a.subset_of(b),
    ensures
        a.finite(),
        a.len() <= b.len(),
{
    vstd::set_lib::lemma_len_subset(a, b);
}

/// The variables and size pending with one more pair on top.
proof fn lemma_pend_top(s: TSub, r: RSub, ps: Seq<(TypeV, TypeV)>, p: (TypeV, TypeV))
    ensures
        pend_tv(s, r, ps.push(p)) == pend_tv(s, r, ps).union(tvars(app(s, r, p.0))).union(tvars(app(s, r, p.1))),
        pend_rv(s, r, ps.push(p)) == pend_rv(s, r, ps).union(rvars(app(s, r, p.0))).union(rvars(app(s, r, p.1))),
        pend_size(s, r, ps.push(p)) == pend_size(s, r, ps) + tsize(app(s, r, p.0)) + tsize(app(s, r, p.1)),
        pend_tv(s, r, ps).subset_of(pend_tv(s, r, ps.push(p))),
        pend_rv(s, r, ps).subset_of(pend_rv(s, r, ps.push(p))),
        tvars(app(s, r, p.0)).subset_of(pend_tv(s, r, ps.push(p))),
        tvars(app(s, r, p.1)).subset_of(pend_tv(s, r, ps.push(p))),
        rvars(app(s, r, p.0)).subset_of(pend_rv(s, r, ps.push(p))),
        rvars(app(s, r, p.1)).subset_of(pend_rv(s, r, ps.push(p))),
{
    assert(ps.push(p).drop_last() =~= ps);
    assert(ps.push(p).last() == p);
}

/// Every pair of a pending list is solved when its first part and the new
/// top are.
proof fn lemma_all_solved_push(s: TSub, r: RSub, ps: Seq<(TypeV, TypeV)>, p: (TypeV, TypeV))
    ensures
        all_solved(s, r, ps.push(p)) <==> all_solved(s, r, ps) && solved(s, r, p),
{
    if all_solved(s, r, ps.push(p)) {
        assert forall|i: int| 0 <= i < ps.len() implies solved(s, r, #[trigger] ps[i]) by {
            assert(ps.push(p)[i] == ps[i]);
        }
        assert(ps.push(p)[ps.len() as int] == p);
    }
    if all_solved(s, r, ps) && solved(s, r, p) {
        assert forall|i: int| 0 <= i < ps.push(p).len() implies solved(s, r, #[trigger] ps.push(p)[i]) by {
            if i < ps.len() {
                assert(ps.push(p)[i] == ps[i]);
            }
        }
    }
}

/// A pair whose sides the new substitutions make equal is solved by
/// whatever carries on from them.
proof fn lemma_solved_by(s: TSub, r: RSub, n: u32, s2: TSub, r2: RSub, x: TypeV, y: TypeV)
    requires
        refines(s2, r2, s, r, n),
        wf_ty(x),
        below(x, n),
        wf_ty(y),
        below(y, n),
        app(s, r, x) == app(s, r, y),
    ensures
        solved(s2, r2, (x, y)),
        solved(s2, r2, (y, x)),
{
    assert(app(s2, r2, app(s, r, x)) == app(s2, r2, x));
    assert(app(s2, r2, app(s, r, y)) == app(s2, r2, y));
}

proof fn lemma_below_mono(t: TypeV, n: u32, m: u32)
    requires
        below(t, n),
        n <= m,
    ensures
        below(t, m),
{
    assert forall|y: u32| tvars(t).contains(y) implies y < m by {}
    assert forall|y: u32| rvars(t).contains(y) implies y < m by {}
}

impl crate::engine::Infer {
    /// Binds unbound type variable `v` (with bound `c`) to the applied type
    /// `y`: two variables merge their bounds, and a concrete type must pass
    /// the occurs check and satisfy the bound.
    fn step_var(
        &mut self,
        v: u32,
        c: Constraint,
        y: &Type,
        span: &Span,
        Ghost(ps): Ghost<Seq<(TypeV, TypeV)>>,
        Ghost(pair): Ghost<(TypeV, TypeV)>,
    ) -> (res: Result<(), TypeError>)
        requires
            old(self).wf(),
            pair == (TypeV::Var(v, c), tv(*y)) || pair == (tv(*y), TypeV::Var(v, c)),
            !old(self).tsub().contains_key(v),
            v < old(self).next_var(),
            clean(old(self).tsub(), old(self).rsub(), tv(*y)),
            wf_ty(tv(*y)),
            below(tv(*y), old(self).next_var()),
            old(self).next_var() + pend_count(old(self).tsub(), old(self).rsub(), ps.push(pair)) <= u32::MAX,
        ensures
            final(self).wf(),
            old(self).next_var() <= final(self).next_var(),
            refines(final(self).tsub(), final(self).rsub(), old(self).tsub(), old(self).rsub(), old(self).next_var()),
            res is Ok ==> step_ok(
                old(self).tsub(),
                old(self).rsub(),
                old(self).next_var(),
                ps.push(pair),
                final(self).tsub(),
                final(self).rsub(),
                final(self).next_var(),
                ps,
            ),
            res matches Err(e) ==> e.span == *span,
    {
        let ghost s = self.tsub();
        let ghost r = self.rsub();
        let ghost n = self.next_var();
        let ghost x = TypeV::Var(v, c);
        let ghost yv = tv(*y);
        proof {
            self.lemma_wf();
            lemma_refines_self(s, r, n);
            lemma_app_clean_id(s, r, yv);
            assert(app(s, r, x) == x);
            lemma_pend_top(s, r, ps, pair);
            lemma_pend_finite(s, r, ps.push(pair));
            lemma_pend_finite(s, r, ps);
            assert(tvars(x) == set![v]);
            assert(pend_tv(s, r, ps.push(pair)).contains(v));
        }
        match y {
            Type::Var(w, cw) => {
                if *w == v {
                    proof {
                        lemma_card_le(pend_tv(s, r, ps), pend_tv(s, r, ps.push(pair)));
                        lemma_card_le(pend_rv(s, r, ps), pend_rv(s, r, ps.push(pair)));
                        assert forall|s2: TSub, r2: RSub, n2: u32|
                            sub_ok(s2, r2, n2) && n <= n2 && refines(s2, r2, s, r, n) && all_solved(s2, r2, ps) implies all_solved(s2, r2, ps.push(pair)) by {
                            assert(app(s2, r2, app(s, r, x)) == app(s2, r2, x));
                            assert(app(s2, r2, app(s, r, yv)) == app(s2, r2, yv));
                            lemma_all_solved_push(s2, r2, ps, pair);
                        }
                    }
                    return Ok(());
                }
                let merged = merge_constraints(c, *cw);
                match merged {
                    None => {
                        return Err(TypeError::new(both_message(c, *cw), span.start..span.end));
                    },
                    Some(m) => {
                        if m == *cw {
                            proof {
                                assert(tvars(yv) == set![*w]);
                                lemma_compose_v(s, r, v, yv, x);
                                lemma_compose_v(s, r, v, yv, yv);
                                lemma_substv_vars(yv, v, yv);
                                lemma_refines_bind_v(s, r, n, v, yv);
                                lemma_pend_bind_v(s, r, v, yv, ps);
                            }
                            self.bind_type(v, Type::Var(*w, m));
                            proof {
                                let s1 = self.tsub();
                                let r1 = self.rsub();
                                let big = pend_tv(s, r, ps.push(pair));
                                assert(pend_tv(s1, r1, ps).subset_of(big.remove(v)));
                                lemma_card_drop(pend_tv(s1, r1, ps), big, v);
                                lemma_card_le(pend_rv(s1, r1, ps), pend_rv(s, r, ps.push(pair)));
                                assert forall|s2: TSub, r2: RSub, n2: u32|
                                    sub_ok(s2, r2, n2) && n <= n2 && refines(s2, r2, s1, r1, n) && all_solved(s2, r2, ps) implies all_solved(s2, r2, ps.push(pair)) by {
                                    lemma_solved_by(s1, r1, n, s2, r2, x, yv);
                                    lemma_all_solved_push(s2, r2, ps, pair);
                                }
                            }
                            Ok(())
                        } else {
                            proof {
                                assert(pend_tv(s, r, ps.push(pair)).contains(*w));
                                assert(pend_tv(s, r, ps.push(pair)).remove(v).contains(*w));
                                vstd::set::axiom_set_remove_len(pend_tv(s, r, ps.push(pair)), v);
                                vstd::set::axiom_set_remove_len(pend_tv(s, r, ps.push(pair)).remove(v), *w);
                            }
                            let rep = self.fresh_constrained(m);
                            let ghost n1 = self.next_var();
                            let ghost rv = tv(rep);
                            proof {
                                self.lemma_wf();
                                assert(tvars(rv) == set![n]);
                                lemma_compose_v(s, r, v, rv, x);
                                lemma_compose_v(s, r, v, rv, yv);
                                lemma_refines_bind_v(s, r, n1, v, rv);
                                lemma_pend_bind_v(s, r, v, rv, ps);
                            }
                            self.bind_type(v, rep.duplicate());
                            let ghost s1 = self.tsub();
                            let ghost r1 = self.rsub();
                            proof {
                                self.lemma_wf();
                                lemma_compose_v(s1, r1, *w, rv, x);
                                lemma_compose_v(s1, r1, *w, rv, yv);
                                lemma_refines_bind_v(s1, r1, n1, *w, rv);
                                lemma_pend_bind_v(s1, r1, *w, rv, ps);
                            }
                            self.bind_type(*w, rep);
                            proof {
                                let s2x = self.tsub();
                                let r2x = self.rsub();
                                lemma_refines_trans(s2x, r2x, s1, r1, n1, s, r, n1);
                                assert(refines(s2x, r2x, s, r, n)) by {
                                    assert forall|t: TypeV| wf_ty(t) && below(t, n) implies #[trigger] app(s2x, r2x, app(s, r, t)) == app(s2x, r2x, t) by {
                                        lemma_below_mono(t, n, n1);
                                    }
                                }
                                let big = pend_tv(s, r, ps.push(pair));
                                let mid = big.remove(v).remove(*w);
                                assert(pend_tv(s2x, r2x, ps).subset_of(mid.insert(n)));
                                vstd::set::axiom_set_remove_finite(big, v);
                                vstd::set::axiom_set_remove_finite(big.remove(v), *w);
                                vstd::set::axiom_set_insert_len(mid, n);
                                lemma_card_le(pend_tv(s2x, r2x, ps), mid.insert(n));
                                lemma_card_le(pend_rv(s2x, r2x, ps), pend_rv(s, r, ps.push(pair)));
                                assert(app(s2x, r2x, x) == rv);
                                assert(app(s2x, r2x, yv) == rv);
                                assert forall|s2: TSub, r2: RSub, n2: u32|
                                    sub_ok(s2, r2, n2) && n1 <= n2 && refines(s2, r2, s2x, r2x, n1) && all_solved(s2, r2, ps) implies all_solved(s2, r2, ps.push(pair)) by {
                                    lemma_below_mono(x, n, n1);
                                    lemma_below_mono(yv, n, n1);
                                    lemma_solved_by(s2x, r2x, n1, s2, r2, x, yv);
                                    lemma_all_solved_push(s2, r2, ps, pair);
                                }
                            }
                            Ok(())
                        }
                    },
                }
            },
            _ => {
                if occurs(v, y) {
                    return Err(TypeError::new(infinite_message(v, y), span.start..span.end));
                }
                if !constraint_admits(c, y) {
                    return Err(TypeError::new(unsatisfied_message(y, c), span.start..span.end));
                }
                proof {
                    lemma_compose_v(s, r, v, yv, x);
                    lemma_compose_v(s, r, v, yv, yv);
                    lemma_substv_vars(yv, v, yv);
                    lemma_refines_bind_v(s, r, n, v, yv);
                    lemma_pend_bind_v(s, r, v, yv, ps);
                }
                self.bind_type(v, y.duplicate());
                proof {
                    let s1 = self.tsub();
                    let r1 = self.rsub();
                    let big = pend_tv(s, r, ps.push(pair));
                    assert(pend_tv(s1, r1, ps).subset_of(big.remove(v)));
                    lemma_card_drop(pend_tv(s1, r1, ps), big, v);
                    lemma_card_le(pend_rv(s1, r1, ps), pend_rv(s, r, ps.push(pair)));
                    assert forall|s2: TSub, r2: RSub, n2: u32|
                        sub_ok(s2, r2, n2) && n <= n2 && refines(s2, r2, s1, r1, n) && all_solved(s2, r2, ps) implies all_solved(s2, r2, ps.push(pair)) by {
                        lemma_solved_by(s1, r1, n, s2, r2, x, yv);
                        lemma_all_solved_push(s2, r2, ps, pair);
                    }
                }
                Ok(())
            },
        }
    }
}


// ---------------------------------------------------------------------------
// The pending stack.
// ---------------------------------------------------------------------------

/// A pair still to unify, and the pair of records it is what is left of,
/// if it is one (a record mismatch names the whole records).
pub struct Pending {
    pub left: Type,
    pub right: Type,
    pub whole: Option<(Type, Type)>,
}

pub open spec fn pview(ps: Seq<Pending>) -> Seq<(TypeV, TypeV)> {
    ps.map_values(|p: Pending| (tv(p.left), tv(p.right)))
}

pub open spec fn type_ok(t: TypeV, n: u32) -> bool {
    wf_ty(t) && below(t, n)
}

pub open spec fn item_ok(p: Pending, n: u32) -> bool {
    &&& type_ok(tv(p.left), n)
    &&& type_ok(tv(p.right), n)
    &&& match p.whole {
        Some(w) => type_ok(tv(w.0), n) && type_ok(tv(w.1), n),
        None => true,
    }
}

pub open spec fn items_ok(ps: Seq<Pending>, n: u32) -> bool {
    forall|i: int| 0 <= i < ps.len() ==> item_ok(#[trigger] ps[i], n)
}

proof fn lemma_items_ok_mono(ps: Seq<Pending>, n: u32, m: u32)
    requires
        items_ok(ps, n),
        n <= m,
    ensures
        items_ok(ps, m),
{
    assert forall|i: int| 0 <= i < ps.len() implies item_ok(#[trigger] ps[i], m) by {
        let p = ps[i];
        assert(item_ok(p, n));
        lemma_below_mono(tv(p.left), n, m);
        lemma_below_mono(tv(p.right), n, m);
        match p.whole {
            Some(w) => {
                lemma_below_mono(tv(w.0), n, m);
                lemma_below_mono(tv(w.1), n, m);
            },
            None => {},
        }
    }
}

proof fn lemma_tsize_seq_concat(a: Seq<TypeV>, b: Seq<TypeV>)
    ensures
        tsize_seq(a + b) == tsize_seq(a) + tsize_seq(b),
    decreases b.len(),
{
    if b.len() == 0 {
        assert(a + b =~= a);
    } else {
        lemma_tsize_seq_concat(a, b.drop_last());
        assert((a + b).drop_last() =~= a + b.drop_last());
        assert((a + b).last() == b.last());
    }
}

proof fn lemma_tsize_seq_front(s: Seq<TypeV>, i: int)
    requires
        0 <= i < s.len(),
    ensures
        tsize_seq(s.subrange(i, s.len() as int)) == tsize(s[i]) + tsize_seq(s.subrange(i + 1, s.len() as int)),
{
    let one = seq![s[i]];
    assert(s.subrange(i, s.len() as int) =~= one + s.subrange(i + 1, s.len() as int));
    lemma_tsize_seq_concat(one, s.subrange(i + 1, s.len() as int));
    assert(tsize_seq(one) == tsize(s[i])) by {
        assert(one.len() == 1);
        assert(one.last() == s[i]);
        assert(one.drop_last() =~= Seq::<TypeV>::empty());
        assert(tsize_seq(one.drop_last()) == 0);
    }
}

proof fn lemma_elem_vars(s: Seq<TypeV>, i: int)
    requires
        0 <= i < s.len(),
    ensures
        tvars(s[i]).subset_of(tvars_seq(s)),
        rvars(s[i]).subset_of(rvars_seq(s)),
{
    lemma_tvars_seq_step(s, i);
    lemma_tvars_seq_sub(s, i + 1);
}

/// Pushes the pairs `(xs[i], ys[i])`, the last first, so that the first pair
/// ends on top.
fn push_pairs(
    work: &mut Vec<Pending>,
    xs: &Vec<Type>,
    ys: &Vec<Type>,
    Ghost(s): Ghost<TSub>,
    Ghost(r): Ghost<RSub>,
    Ghost(n): Ghost<u32>,
)
    requires
        xs@.len() == ys@.len(),
        items_ok(old(work)@, n),
        forall|j: int| 0 <= j < xs@.len() ==> clean(s, r, #[trigger] tv(xs@[j])) && type_ok(tv(xs@[j]), n),
        forall|j: int| 0 <= j < ys@.len() ==> clean(s, r, #[trigger] tv(ys@[j])) && type_ok(tv(ys@[j]), n),
    ensures
        items_ok(final(work)@, n),
        final(work)@.len() == old(work)@.len() + xs@.len(),
        forall|k: int| 0 <= k < old(work)@.len() ==> #[trigger] pview(final(work)@)[k] == pview(old(work)@)[k],
        forall|j: int| 0 <= j < xs@.len() ==> #[trigger] pview(final(work)@)[old(work)@.len() + xs@.len() - 1 - j] == (tv(xs@[j]), tv(ys@[j])),
        pend_tv(s, r, pview(final(work)@)).subset_of(
            pend_tv(s, r, pview(old(work)@)).union(tvars_seq(tvs(xs@))).union(tvars_seq(tvs(ys@))),
        ),
        pend_rv(s, r, pview(final(work)@)).subset_of(
            pend_rv(s, r, pview(old(work)@)).union(rvars_seq(tvs(xs@))).union(rvars_seq(tvs(ys@))),
        ),
        pend_size(s, r, pview(final(work)@)) == pend_size(s, r, pview(old(work)@)) + tsize_seq(tvs(xs@)) + tsize_seq(tvs(ys@)),
{
    let ghost w0 = work@;
    let ghost len = xs@.len();
    let ghost tx = tvs(xs@);
    let ghost ty = tvs(ys@);
    proof {
        lemma_tvs(xs@);
        lemma_tvs(ys@);
        assert(tx.subrange(len as int, len as int) =~= Seq::<TypeV>::empty());
        assert(ty.subrange(len as int, len as int) =~= Seq::<TypeV>::empty());
    }
    let mut i: usize = xs.len();
    while i > 0
        invariant
            i <= len,
            len == xs@.len(),
            len == ys@.len(),
            tx == tvs(xs@),
            ty == tvs(ys@),
            tx.len() == len,
            ty.len() == len,
            forall|k: int| 0 <= k < len ==> #[trigger] tx[k] == tv(xs@[k]),
            forall|k: int| 0 <= k < len ==> #[trigger] ty[k] == tv(ys@[k]),
            forall|j: int| 0 <= j < xs@.len() ==> clean(s, r, #[trigger] tv(xs@[j])) && type_ok(tv(xs@[j]), n),
            forall|j: int| 0 <= j < ys@.len() ==> clean(s, r, #[trigger] tv(ys@[j])) && type_ok(tv(ys@[j]), n),
            items_ok(work@, n),
            work@.len() == w0.len() + (len - i),
            forall|k: int| 0 <= k < w0.len() ==> #[trigger] pview(work@)[k] == pview(w0)[k],
            forall|j: int| i <= j < len ==> #[trigger] pview(work@)[w0.len() + len - 1 - j] == (tv(xs@[j]), tv(ys@[j])),
            pend_tv(s, r, pview(work@)).subset_of(pend_tv(s, r, pview(w0)).union(tvars_seq(tx)).union(tvars_seq(ty))),
            pend_rv(s, r, pview(work@)).subset_of(pend_rv(s, r, pview(w0)).union(rvars_seq(tx)).union(rvars_seq(ty))),
            pend_size(s, r, pview(work@)) == pend_size(s, r, pview(w0)) + tsize_seq(tx.subrange(i as int, len as int))
                + tsize_seq(ty.subrange(i as int, len as int)),
        decreases i,
    {
        i = i - 1;
        let item = Pending { left: xs[i].duplicate(), right: ys[i].duplicate(), whole: None };
        let ghost before = work@;
        work.push(item);
        proof {
            let pi = (tv(xs@[i as int]), tv(ys@[i as int]));
            assert(pview(work@) =~= pview(before).push(pi));
            lemma_pend_top(s, r, pview(before), pi);
            lemma_app_clean_id(s, r, pi.0);
            lemma_app_clean_id(s, r, pi.1);
            lemma_elem_vars(tx, i as int);
            lemma_elem_vars(ty, i as int);
            lemma_tsize_seq_front(tx, i as int);
            lemma_tsize_seq_front(ty, i as int);
            assert forall|k: int| 0 <= k < work@.len() implies item_ok(#[trigger] work@[k], n) by {
                if k < before.len() {
                    assert(work@[k] == before[k]);
                }
            }
            assert forall|k: int| 0 <= k < w0.len() implies #[trigger] pview(work@)[k] == pview(w0)[k] by {
                assert(pview(work@)[k] == pview(before)[k]);
            }
            assert forall|j: int| i <= j < len implies #[trigger] pview(work@)[w0.len() + len - 1 - j] == (tv(xs@[j]), tv(ys@[j])) by {
                if j > i {
                    assert(pview(work@)[w0.len() + len - 1 - j] == pview(before)[w0.len() + len - 1 - j]);
                }
            }
        }
    }
    proof {
        assert(tx.subrange(0, len as int) =~= tx);
        assert(ty.subrange(0, len as int) =~= ty);
    }
}


/// Argument lists that agree pairwise agree as lists.
proof fn lemma_seq_solved(s2: TSub, r2: RSub, a: Seq<TypeV>, b: Seq<TypeV>)
    requires
        a.len() == b.len(),
        forall|j: int| 0 <= j < a.len() ==> solved(s2, r2, (#[trigger] a[j], b[j])),
    ensures
        app_seq(s2, r2, a).len() == a.len(),
        app_seq(s2, r2, b).len() == b.len(),
        widen_seq(app_seq(s2, r2, a)) == widen_seq(app_seq(s2, r2, b)),
{
    lemma_app_seq(s2, r2, a);
    lemma_app_seq(s2, r2, b);
    lemma_widen_seq(app_seq(s2, r2, a));
    lemma_widen_seq(app_seq(s2, r2, b));
    assert forall|j: int| 0 <= j < a.len() implies #[trigger] widen_seq(app_seq(s2, r2, a))[j] == widen_seq(app_seq(s2, r2, b))[j] by {
        assert(solved(s2, r2, (a[j], b[j])));
    }
    assert(widen_seq(app_seq(s2, r2, a)) =~= widen_seq(app_seq(s2, r2, b)));
}

/// A step that binds nothing owes only that nothing grows, that less is to
/// do, and that what it leaves pending covers the pair it took.
proof fn lemma_plain_step(s: TSub, r: RSub, n: u32, ps: Seq<(TypeV, TypeV)>, ps1: Seq<(TypeV, TypeV)>)
    requires
        sub_ok(s, r, n),
        pend_tv(s, r, ps1).subset_of(pend_tv(s, r, ps)),
        pend_rv(s, r, ps1).subset_of(pend_rv(s, r, ps)),
        pend_size(s, r, ps1) < pend_size(s, r, ps),
        forall|s2: TSub, r2: RSub| #[trigger] all_solved(s2, r2, ps1) ==> all_solved(s2, r2, ps),
    ensures
        step_ok(s, r, n, ps, s, r, n, ps1),
{
    lemma_refines_self(s, r, n);
    lemma_pend_finite(s, r, ps);
    lemma_card_le(pend_tv(s, r, ps1), pend_tv(s, r, ps));
    lemma_card_le(pend_rv(s, r, ps1), pend_rv(s, r, ps));
    assert forall|s2: TSub, r2: RSub, n2: u32|
        sub_ok(s2, r2, n2) && n <= n2 && refines(s2, r2, s, r, n) && all_solved(s2, r2, ps1) implies all_solved(s2, r2, ps) by {
        assert(all_solved(s2, r2, ps1));
    }
}

/// Taking a pair off that always agrees is a plain step.
proof fn lemma_drop_step(s: TSub, r: RSub, n: u32, ps: Seq<(TypeV, TypeV)>, pair: (TypeV, TypeV))
    requires
        sub_ok(s, r, n),
        forall|s2: TSub, r2: RSub| #[trigger] solved(s2, r2, pair),
    ensures
        step_ok(s, r, n, ps.push(pair), s, r, n, ps),
{
    lemma_pend_top(s, r, ps, pair);
    assert forall|s2: TSub, r2: RSub| #[trigger] all_solved(s2, r2, ps) implies all_solved(s2, r2, ps.push(pair)) by {
        assert(solved(s2, r2, pair));
        lemma_all_solved_push(s2, r2, ps, pair);
    }
    lemma_plain_step(s, r, n, ps.push(pair), ps);
}

/// Splitting a pair of argument lists into the pairs of their arguments is a
/// plain step, once the split agreeing implies the pair agreeing.
proof fn lemma_args_step(
    s: TSub,
    r: RSub,
    n: u32,
    ps: Seq<(TypeV, TypeV)>,
    pair: (TypeV, TypeV),
    ps1: Seq<(TypeV, TypeV)>,
    a: Seq<TypeV>,
    b: Seq<TypeV>,
)
    requires
        sub_ok(s, r, n),
        a.len() == b.len(),
        app(s, r, pair.0) == pair.0,
        app(s, r, pair.1) == pair.1,
        tvars_seq(a) == tvars(pair.0),
        rvars_seq(a) == rvars(pair.0),
        tvars_seq(b) == tvars(pair.1),
        rvars_seq(b) == rvars(pair.1),
        tsize_seq(a) < tsize(pair.0),
        tsize_seq(b) <= tsize(pair.1),
        ps1.len() == ps.len() + a.len(),
        forall|k: int| 0 <= k < ps.len() ==> #[trigger] ps1[k] == ps[k],
        forall|j: int| 0 <= j < a.len() ==> #[trigger] ps1[ps.len() + a.len() - 1 - j] == (a[j], b[j]),
        pend_tv(s, r, ps1).subset_of(pend_tv(s, r, ps).union(tvars_seq(a)).union(tvars_seq(b))),
        pend_rv(s, r, ps1).subset_of(pend_rv(s, r, ps).union(rvars_seq(a)).union(rvars_seq(b))),
        pend_size(s, r, ps1) == pend_size(s, r, ps) + tsize_seq(a) + tsize_seq(b),
        forall|s2: TSub, r2: RSub|
            (forall|j: int| 0 <= j < a.len() ==> solved(s2, r2, (#[trigger] a[j], b[j]))) ==> #[trigger] solved(s2, r2, pair),
    ensures
        step_ok(s, r, n, ps.push(pair), s, r, n, ps1),
{
    lemma_pend_top(s, r, ps, pair);
    assert forall|s2: TSub, r2: RSub| #[trigger] all_solved(s2, r2, ps1) implies all_solved(s2, r2, ps.push(pair)) by {
        assert forall|j: int| 0 <= j < a.len() implies solved(s2, r2, (#[trigger] a[j], b[j])) by {
            assert(solved(s2, r2, ps1[ps.len() + a.len() - 1 - j]));
        }
        assert(solved(s2, r2, pair));
        assert forall|i: int| 0 <= i < ps.len() implies solved(s2, r2, #[trigger] ps[i]) by {
            assert(solved(s2, r2, ps1[i]));
        }
        lemma_all_solved_push(s2, r2, ps, pair);
    }
    lemma_plain_step(s, r, n, ps.push(pair), ps1);
}

/// The arguments of a clean, well-formed type below `n` are each clean,
/// well formed and below `n`.
proof fn lemma_args_ok(s: TSub, r: RSub, n: u32, a: Seq<TypeV>)
    requires
        tvars_seq(a).disjoint(s.dom()),
        rvars_seq(a).disjoint(r.dom()),
        wf_seq(a),
        crate::engine::lt_all(tvars_seq(a), n),
        crate::engine::lt_all(rvars_seq(a), n),
    ensures
        forall|j: int| 0 <= j < a.len() ==> clean(s, r, #[trigger] a[j]) && type_ok(a[j], n),
{
    lemma_wf_seq_iff(a);
    assert forall|j: int| 0 <= j < a.len() implies clean(s, r, #[trigger] a[j]) && type_ok(a[j], n) by {
        lemma_elem_vars(a, j);
        assert forall|y: u32| tvars(a[j]).contains(y) implies y < n by {
            assert(tvars_seq(a).contains(y));
        }
        assert forall|y: u32| rvars(a[j]).contains(y) implies y < n by {
            assert(rvars_seq(a).contains(y));
        }
    }
}

impl crate::engine::Infer {
    /// Unifies two applied types that are neither variables nor both
    /// records: equal rigid variables agree, a glyph type widens into
    /// `Glyph`, and constructors, functions and tuples of the same shape
    /// split into the pairs of their parts.
    #[verifier::rlimit(60)]
    fn step_struct(&self, x: &Type, y: &Type, work: &mut Vec<Pending>, span: &Span) -> (res: Result<(), TypeError>)
        requires
            self.wf(),
            items_ok(old(work)@, self.next_var()),
            clean(self.tsub(), self.rsub(), tv(*x)),
            clean(self.tsub(), self.rsub(), tv(*y)),
            type_ok(tv(*x), self.next_var()),
            type_ok(tv(*y), self.next_var()),
        ensures
            res is Ok ==> items_ok(final(work)@, self.next_var()) && step_ok(
                self.tsub(),
                self.rsub(),
                self.next_var(),
                pview(old(work)@).push((tv(*x), tv(*y))),
                self.tsub(),
                self.rsub(),
                self.next_var(),
                pview(final(work)@),
            ),
            res matches Err(e) ==> e.span == *span,
            ground(tv(*x)) && ground(tv(*y)) && res is Ok ==> final(work)@.len() >= old(work)@.len() && pview(
                final(work)@,
            ).subrange(0, old(work)@.len() as int) == pview(old(work)@) && all_ground(
                pview(final(work)@).subrange(old(work)@.len() as int, final(work)@.len() as int),
            ) && (accepts(tv(*x), tv(*y)) <==> all_accept(
                pview(final(work)@).subrange(old(work)@.len() as int, final(work)@.len() as int),
            )),
            ground(tv(*x)) && ground(tv(*y)) && res is Err ==> !accepts(tv(*x), tv(*y)),
    {
        let ghost s = self.tsub();
        let ghost r = self.rsub();
        let ghost n = self.next_var();
        let ghost ps = pview(work@);
        let ghost xv = tv(*x);
        let ghost yv = tv(*y);
        let ghost pair = (xv, yv);
        proof {
            self.lemma_wf();
            lemma_app_clean_id(s, r, xv);
            lemma_app_clean_id(s, r, yv);
        }
        let mismatch = match (x, y) {
            (Type::Rigid(p), Type::Rigid(q)) => {
                let differ = !str_eq(p.as_str(), q.as_str());
                proof {
                    if !differ {
                        lemma_drop_step(s, r, n, ps, pair);
                    }
                    if ground(xv) && ground(yv) {
                        assert(pview(work@).subrange(0, ps.len() as int) =~= ps);
                        assert(pview(work@).subrange(ps.len() as int, work@.len() as int) =~= Seq::<(TypeV, TypeV)>::empty());
                    }
                }
                differ
            },
            (Type::Con(n1, a1), Type::Con(n2, a2)) => {
                proof {
                    lemma_tvs(a1@);
                    lemma_tvs(a2@);
                }
                if glyph_widens_into(n2, a2, n1, a1) {
                    proof {
                        assert(tvs(a1@) =~= Seq::<TypeV>::empty());
                        assert(tvs(a2@) =~= Seq::<TypeV>::empty());
                        assert forall|s2: TSub, r2: RSub| #[trigger] solved(s2, r2, pair) by {
                            assert(app_seq(s2, r2, Seq::<TypeV>::empty()) =~= Seq::<TypeV>::empty());
                            assert(widen_seq(Seq::<TypeV>::empty()) =~= Seq::<TypeV>::empty());
                        }
                        lemma_drop_step(s, r, n, ps, pair);
                        if ground(xv) && ground(yv) {
                            assert(pview(work@).subrange(0, ps.len() as int) =~= ps);
                            assert(pview(work@).subrange(ps.len() as int, work@.len() as int) =~= Seq::<(TypeV, TypeV)>::empty());
                        }
                    }
                    false
                } else if !str_eq(n1.as_str(), n2.as_str()) || a1.len() != a2.len() {
                    true
                } else {
                    proof {
                        lemma_args_ok(s, r, n, tvs(a1@));
                        lemma_args_ok(s, r, n, tvs(a2@));
                        assert forall|j: int| 0 <= j < a1@.len() implies clean(s, r, #[trigger] tv(a1@[j])) && type_ok(tv(a1@[j]), n) by {
                            assert(tvs(a1@)[j] == tv(a1@[j]));
                        }
                        assert forall|j: int| 0 <= j < a2@.len() implies clean(s, r, #[trigger] tv(a2@[j])) && type_ok(tv(a2@[j]), n) by {
                            assert(tvs(a2@)[j] == tv(a2@[j]));
                        }
                    }
                    push_pairs(work, a1, a2, Ghost(s), Ghost(r), Ghost(n));
                    proof {
                        let a = tvs(a1@);
                        let b = tvs(a2@);
                        assert forall|s2: TSub, r2: RSub|
                            (forall|j: int| 0 <= j < a.len() ==> solved(s2, r2, (#[trigger] a[j], b[j]))) implies #[trigger] solved(s2, r2, pair) by {
                            lemma_seq_solved(s2, r2, a, b);
                        }
                        assert forall|j: int| 0 <= j < a.len() implies #[trigger] pview(work@)[ps.len() + a.len() - 1 - j] == (a[j], b[j]) by {
                            assert(pview(work@)[ps.len() + a1@.len() - 1 - j] == (tv(a1@[j]), tv(a2@[j])));
                        }
                        lemma_args_step(s, r, n, ps, pair, pview(work@), a, b);
                        if ground(xv) && ground(yv) {
                            let ks = pview(work@).subrange(ps.len() as int, work@.len() as int);
                            assert(pview(work@).subrange(0, ps.len() as int) =~= ps);
                            assert forall|j: int| 0 <= j < a.len() implies #[trigger] ks[a.len() - 1 - j] == (a[j], b[j]) by {
                                assert(pview(work@)[ps.len() + a.len() - 1 - j] == (a[j], b[j]));
                            }
                            lemma_pushed_args(a, b, ks);
                            lemma_accepts_seq(a, b);
                            lemma_ground_seq(a);
                            lemma_ground_seq(b);
                        }
                    }
                    false
                }
            },
            (Type::Tuple(e1), Type::Tuple(e2)) => {
                proof {
                    lemma_tvs(e1@);
                    lemma_tvs(e2@);
                }
                if e1.len() != e2.len() {
                    true
                } else {
                    proof {
                        lemma_args_ok(s, r, n, tvs(e1@));
                        lemma_args_ok(s, r, n, tvs(e2@));
                        assert forall|j: int| 0 <= j < e1@.len() implies clean(s, r, #[trigger] tv(e1@[j])) && type_ok(tv(e1@[j]), n) by {
                            assert(tvs(e1@)[j] == tv(e1@[j]));
                        }
                        assert forall|j: int| 0 <= j < e2@.len() implies clean(s, r, #[trigger] tv(e2@[j])) && type_ok(tv(e2@[j]), n) by {
                            assert(tvs(e2@)[j] == tv(e2@[j]));
                        }
                    }
                    push_pairs(work, e1, e2, Ghost(s), Ghost(r), Ghost(n));
                    proof {
                        let a = tvs(e1@);
                        let b = tvs(e2@);
                        assert forall|s2: TSub, r2: RSub|
                            (forall|j: int| 0 <= j < a.len() ==> solved(s2, r2, (#[trigger] a[j], b[j]))) implies #[trigger] solved(s2, r2, pair) by {
                            lemma_seq_solved(s2, r2, a, b);
                        }
                        assert forall|j: int| 0 <= j < a.len() implies #[trigger] pview(work@)[ps.len() + a.len() - 1 - j] == (a[j], b[j]) by {
                            assert(pview(work@)[ps.len() + e1@.len() - 1 - j] == (tv(e1@[j]), tv(e2@[j])));
                        }
                        lemma_args_step(s, r, n, ps, pair, pview(work@), a, b);
                        if ground(xv) && ground(yv) {
                            let ks = pview(work@).subrange(ps.len() as int, work@.len() as int);
                            assert(pview(work@).subrange(0, ps.len() as int) =~= ps);
                            assert forall|j: int| 0 <= j < a.len() implies #[trigger] ks[a.len() - 1 - j] == (a[j], b[j]) by {
                                assert(pview(work@)[ps.len() + a.len() - 1 - j] == (a[j], b[j]));
                            }
                            lemma_pushed_args(a, b, ks);
                            lemma_accepts_seq(a, b);
                            lemma_ground_seq(a);
                            lemma_ground_seq(b);
                        }
                    }
                    false
                }
            },
            (Type::Fun(a1, a2), Type::Fun(b1, b2)) => {
                let xs = vec![a1.duplicate(), a2.duplicate()];
                let ys = vec![b1.duplicate(), b2.duplicate()];
                proof {
                    lemma_tvs(xs@);
                    lemma_tvs(ys@);
                    let a = tvs(xs@);
                    let b = tvs(ys@);
                    assert(a.drop_last().drop_last() =~= Seq::<TypeV>::empty());
                    assert(b.drop_last().drop_last() =~= Seq::<TypeV>::empty());
                    assert(a.drop_last() =~= seq![a[0]]);
                    assert(b.drop_last() =~= seq![b[0]]);
                    assert(a[0] == tv(**a1) && a[1] == tv(**a2));
                    assert(b[0] == tv(**b1) && b[1] == tv(**b2));
                    assert(tvars_seq(a.drop_last().drop_last()) == Set::<u32>::empty());
                    assert(rvars_seq(a.drop_last().drop_last()) == Set::<u32>::empty());
                    assert(tvars_seq(b.drop_last().drop_last()) == Set::<u32>::empty());
                    assert(rvars_seq(b.drop_last().drop_last()) == Set::<u32>::empty());
                    assert(tvars_seq(a.drop_last()) =~= tvars(a[0]));
                    assert(rvars_seq(a.drop_last()) =~= rvars(a[0]));
                    assert(tvars_seq(b.drop_last()) =~= tvars(b[0]));
                    assert(rvars_seq(b.drop_last()) =~= rvars(b[0]));
                    assert(tsize_seq(a.drop_last().drop_last()) == 0);
                    assert(tsize_seq(b.drop_last().drop_last()) == 0);
                    assert(a.drop_last().last() == a[0]);
                    assert(b.drop_last().last() == b[0]);
                    assert(tsize_seq(a.drop_last()) == tsize(a[0]));
                    assert(tsize_seq(b.drop_last()) == tsize(b[0]));
                    assert forall|j: int| 0 <= j < xs@.len() implies clean(s, r, #[trigger] tv(xs@[j])) && type_ok(tv(xs@[j]), n) by {
                        assert(tv(xs@[j]) == a[j]);
                        assert forall|q: u32| tvars(a[j]).contains(q) implies q < n by {
                            assert(tvars(xv).contains(q));
                        }
                        assert forall|q: u32| rvars(a[j]).contains(q) implies q < n by {
                            assert(rvars(xv).contains(q));
                        }
                    }
                    assert forall|j: int| 0 <= j < ys@.len() implies clean(s, r, #[trigger] tv(ys@[j])) && type_ok(tv(ys@[j]), n) by {
                        assert(tv(ys@[j]) == b[j]);
                        assert forall|q: u32| tvars(b[j]).contains(q) implies q < n by {
                            assert(tvars(yv).contains(q));
                        }
                        assert forall|q: u32| rvars(b[j]).contains(q) implies q < n by {
                            assert(rvars(yv).contains(q));
                        }
                    }
                    assert(tvars_seq(a) =~= tvars(xv));
                    assert(rvars_seq(a) =~= rvars(xv));
                    assert(tvars_seq(b) =~= tvars(yv));
                    assert(rvars_seq(b) =~= rvars(yv));
                    assert(tsize_seq(a) == tsize(a[0]) + tsize(a[1]));
                    assert(tsize_seq(b) == tsize(b[0]) + tsize(b[1]));
                    lemma_app_ok(s, r, n, xv);
                    lemma_app_ok(s, r, n, yv);
                }
                push_pairs(work, &xs, &ys, Ghost(s), Ghost(r), Ghost(n));
                proof {
                    let a = tvs(xs@);
                    let b = tvs(ys@);
                    assert forall|s2: TSub, r2: RSub|
                        (forall|j: int| 0 <= j < a.len() ==> solved(s2, r2, (#[trigger] a[j], b[j]))) implies #[trigger] solved(s2, r2, pair) by {
                        assert(solved(s2, r2, (a[0], b[0])));
                        assert(solved(s2, r2, (a[1], b[1])));
                    }
                    assert forall|j: int| 0 <= j < a.len() implies #[trigger] pview(work@)[ps.len() + a.len() - 1 - j] == (a[j], b[j]) by {
                        assert(pview(work@)[ps.len() + xs@.len() - 1 - j] == (tv(xs@[j]), tv(ys@[j])));
                    }
                    lemma_args_step(s, r, n, ps, pair, pview(work@), a, b);
                    if ground(xv) && ground(yv) {
                        let ks = pview(work@).subrange(ps.len() as int, work@.len() as int);
                        assert(pview(work@).subrange(0, ps.len() as int) =~= ps);
                        assert forall|j: int| 0 <= j < a.len() implies #[trigger] ks[a.len() - 1 - j] == (a[j], b[j]) by {
                            assert(pview(work@)[ps.len() + a.len() - 1 - j] == (a[j], b[j]));
                        }
                        lemma_pushed_args(a, b, ks);
                        lemma_accepts_seq(a, b);
                        lemma_ground_seq(a);
                        lemma_ground_seq(b);
                    }
                }
                false
            },
            _ => true,
        };
        if mismatch {
            return Err(TypeError::new(two_types_message("type mismatch: expected `", x, "`, found `", y), span.start..span.end));
        }
        Ok(())
    }
}


// ---------------------------------------------------------------------------
// Records.
// ---------------------------------------------------------------------------

/// The first field of `fa` whose name `fb` also has, by position in each.
fn find_shared(fa: &Vec<(String, Type)>, fb: &Vec<(String, Type)>) -> (r: Option<(usize, usize)>)
    ensures
        r matches Some(p) ==> p.0 < fa@.len() && p.1 < fb@.len() && fa@[p.0 as int].0@ == fb@[p.1 as int].0@,
        r is None ==> forall|i: int, j: int|
            0 <= i < fa@.len() && 0 <= j < fb@.len() ==> (#[trigger] fa@[i]).0@ != (#[trigger] fb@[j]).0@,
{
    let mut i: usize = 0;
    while i < fa.len()
        invariant
            i <= fa@.len(),
            forall|p: int, q: int| 0 <= p < i && 0 <= q < fb@.len() ==> (#[trigger] fa@[p]).0@ != (#[trigger] fb@[q]).0@,
        decreases fa.len() - i,
    {
        let mut j: usize = 0;
        while j < fb.len()
            invariant
                i < fa@.len(),
                j <= fb@.len(),
                forall|p: int, q: int| 0 <= p < i && 0 <= q < fb@.len() ==> (#[trigger] fa@[p]).0@ != (#[trigger] fb@[q]).0@,
                forall|q: int| 0 <= q < j ==> fa@[i as int].0@ != (#[trigger] fb@[q]).0@,
            decreases fb.len() - j,
        {
            if str_eq(fa[i].0.as_str(), fb[j].0.as_str()) {
                return Some((i, j));
            }
            j = j + 1;
        }
        i = i + 1;
    }
    None
}

proof fn lemma_fvs_remove(fs: Seq<(String, Type)>, i: int)
    requires
        0 <= i < fs.len(),
    ensures
        fvs(fs.remove(i)) == fvs(fs).remove(i),
{
    lemma_fvs(fs);
    lemma_fvs(fs.remove(i));
    assert(fvs(fs.remove(i)) =~= fvs(fs).remove(i));
}

proof fn lemma_field_vars(fs: Seq<(Seq<char>, TypeV)>, i: int)
    requires
        0 <= i < fs.len(),
    ensures
        tvars(fs[i].1).subset_of(tvars_fields(fs)),
        rvars(fs[i].1).subset_of(rvars_fields(fs)),
        tsize(fs[i].1) < tsize_fields(fs) + 1,
{
    lemma_tvars_fields_step(fs, i);
    lemma_tvars_fields_sub(fs, i + 1);
    let a = fs.subrange(0, i);
    let b = fs.subrange(i, fs.len() as int);
    assert(fs =~= a + b);
    lemma_tsize_fields_concat(a, b);
    let c = fs.subrange(i + 1, fs.len() as int);
    assert(b =~= seq![fs[i]] + c);
    lemma_tsize_fields_concat(seq![fs[i]], c);
    assert(tsize_fields(seq![fs[i]]) == 1 + tsize(fs[i].1)) by {
        let one = seq![fs[i]];
        assert(one.len() == 1);
        assert(one.last() == fs[i]);
        assert(one.drop_last() =~= Seq::<(Seq<char>, TypeV)>::empty());
        assert(tsize_fields(one.drop_last()) == 0);
    }
}

/// Lists with the same names at the same places find the same names.
proof fn lemma_same_names(a: Seq<(Seq<char>, TypeV)>, b: Seq<(Seq<char>, TypeV)>, k: Seq<char>)
    requires
        a.len() == b.len(),
        forall|i: int| 0 <= i < a.len() ==> (#[trigger] a[i]).0 == b[i].0,
    ensures
        (flookup(a, k) is Some) == (flookup(b, k) is Some),
    decreases a.len(),
{
    if a.len() > 0 {
        assert(a[0].0 == b[0].0);
        assert forall|i: int| 0 <= i < a.drop_first().len() implies (#[trigger] a.drop_first()[i]).0 == b.drop_first()[i].0 by {
            assert(a.drop_first()[i] == a[i + 1]);
            assert(b.drop_first()[i] == b[i + 1]);
        }
        lemma_same_names(a.drop_first(), b.drop_first(), k);
    }
}

/// Taking a shared field out of two records: the records agree when the
/// field types agree and what is left of the records agrees.
proof fn lemma_record_split_solved(
    s2: TSub,
    r2: RSub,
    fa: Seq<(Seq<char>, TypeV)>,
    ra: Row,
    fb: Seq<(Seq<char>, TypeV)>,
    rb: Row,
    i: int,
    j: int,
)
    requires
        fsorted(fa),
        fsorted(fb),
        0 <= i < fa.len(),
        0 <= j < fb.len(),
        fa[i].0 == fb[j].0,
        forall|z: u32| #[trigger] r2.contains_key(z) ==> fsorted(r2[z].0),
        solved(s2, r2, (fa[i].1, fb[j].1)),
        solved(s2, r2, (TypeV::Record(fa.remove(i), ra), TypeV::Record(fb.remove(j), rb))),
    ensures
        solved(s2, r2, (TypeV::Record(fa, ra), TypeV::Record(fb, rb))),
{
    let key = fa[i].0;
    let ga = fa.remove(i);
    let gb = fb.remove(j);
    lemma_remove_field(fa, i);
    lemma_remove_field(fb, j);
    lemma_flookup_at(fa, i);
    lemma_flookup_at(fb, j);
    let fa2 = rec_fields(s2, r2, fa, ra);
    let fb2 = rec_fields(s2, r2, fb, rb);
    let ga2 = rec_fields(s2, r2, ga, ra);
    let gb2 = rec_fields(s2, r2, gb, rb);
    lemma_app_record(s2, r2, fa, ra, key);
    lemma_app_record(s2, r2, fb, rb, key);
    lemma_app_record(s2, r2, ga, ra, key);
    lemma_app_record(s2, r2, gb, rb, key);
    lemma_records_agree_inv(ga2, rec_tail(r2, ra), gb2, rec_tail(r2, rb), key);
    assert forall|k: Seq<char>| #[trigger] owiden(flookup(fa2, k)) == owiden(flookup(fb2, k)) by {
        lemma_app_record(s2, r2, fa, ra, k);
        lemma_app_record(s2, r2, fb, rb, k);
        lemma_app_record(s2, r2, ga, ra, k);
        lemma_app_record(s2, r2, gb, rb, k);
        lemma_records_agree_inv(ga2, rec_tail(r2, ra), gb2, rec_tail(r2, rb), k);
        if k != key {
            assert(flookup(ga, k) == flookup(fa, k));
            assert(flookup(gb, k) == flookup(fb, k));
        }
    }
    lemma_records_agree(fa2, fb2, rec_tail(r2, ra));
}

impl crate::engine::Infer {
    /// Binds unbound row variable `x` to the applied fields `more` and the
    /// tail `tail`, unless `x` occurs in one of the fields' types.
    fn bind_row(&mut self, x: u32, more: Vec<(String, Type)>, tail: Row, span: &Span) -> (res: Result<(), TypeError>)
        requires
            old(self).wf(),
            !old(self).rsub().contains_key(x),
            x < old(self).next_var(),
            clean_fields(old(self).tsub(), old(self).rsub(), fvs(more@)),
            fsorted(fvs(more@)),
            wf_fields(fvs(more@)),
            lt_all(tvars_fields(fvs(more@)), old(self).next_var()),
            lt_all(rvars_fields(fvs(more@)), old(self).next_var()),
            row_set(tail).disjoint(old(self).rsub().dom()),
            tail != Row::Open(x),
            lt_all(row_set(tail), old(self).next_var()),
        ensures
            final(self).wf(),
            final(self).next_var() == old(self).next_var(),
            res is Err ==> final(self).tsub() == old(self).tsub() && final(self).rsub() == old(self).rsub(),
            res matches Err(e) ==> e.span == *span,
            res is Ok <==> !rvars_fields(fvs(more@)).contains(x),
            res is Ok ==> final(self).tsub() == compose_tsub_r(old(self).tsub(), x, fvs(more@), tail)
                && final(self).rsub() == compose_rsub(old(self).rsub(), x, fvs(more@), tail),
    {
        if row_occurs_fields(x, &more) {
            let mut msg = String::new();
            push_str(&mut msg, "infinite record row");
            return Err(TypeError::new(msg, span.start..span.end));
        }
        self.bind_row_entry(x, more, tail);
        Ok(())
    }
}


/// A plain step whose pending pairs cover the pair taken, for whatever
/// substitutions keep their record tails sorted.
proof fn lemma_plain_step_sorted(s: TSub, r: RSub, n: u32, ps: Seq<(TypeV, TypeV)>, ps1: Seq<(TypeV, TypeV)>)
    requires
        sub_ok(s, r, n),
        pend_tv(s, r, ps1).subset_of(pend_tv(s, r, ps)),
        pend_rv(s, r, ps1).subset_of(pend_rv(s, r, ps)),
        pend_size(s, r, ps1) < pend_size(s, r, ps),
        forall|s2: TSub, r2: RSub, n2: u32|
            #![trigger all_solved(s2, r2, ps1), sub_ok(s2, r2, n2)]
            sub_ok(s2, r2, n2) && all_solved(s2, r2, ps1) ==> all_solved(s2, r2, ps),
    ensures
        step_ok(s, r, n, ps, s, r, n, ps1),
{
    lemma_refines_self(s, r, n);
    lemma_pend_finite(s, r, ps);
    lemma_card_le(pend_tv(s, r, ps1), pend_tv(s, r, ps));
    lemma_card_le(pend_rv(s, r, ps1), pend_rv(s, r, ps));
    assert forall|s2: TSub, r2: RSub, n2: u32|
        sub_ok(s2, r2, n2) && n <= n2 && refines(s2, r2, s, r, n) && all_solved(s2, r2, ps1) implies all_solved(s2, r2, ps) by {
        assert(sub_ok(s2, r2, n2) && all_solved(s2, r2, ps1));
    }
}

/// A record's variables and size, from its fields and tail.
proof fn lemma_record_parts(fs: Seq<(Seq<char>, TypeV)>, row: Row)
    ensures
        tvars(TypeV::Record(fs, row)) == tvars_fields(fs),
        rvars(TypeV::Record(fs, row)) == rvars_fields(fs).union(row_set(row)),
        tsize(TypeV::Record(fs, row)) == 1 + tsize_fields(fs),
        wf_ty(TypeV::Record(fs, row)) == (fsorted(fs) && wf_fields(fs)),
{
}

impl crate::engine::Infer {
    /// The record mismatch error, naming the whole records when `x` and `y`
    /// are what is left of them.
    fn record_mismatch(&self, x: &Type, y: &Type, whole: &Option<(Type, Type)>, span: &Span) -> (e: TypeError)
        ensures
            e.span == *span,
    {
        let msg = match whole {
            Some(w) => {
                let a = self.apply(&w.0);
                let b = self.apply(&w.1);
                two_types_message("record types differ: `", &a, "` vs `", &b)
            },
            None => two_types_message("record types differ: `", x, "` vs `", y),
        };
        TypeError::new(msg, span.start..span.end)
    }

    /// Unifies two applied records: a field name both have splits off the
    /// pair of its types, ahead of what is left of the records; with no
    /// name shared, the tails decide.
    fn step_record(
        &mut self,
        x: &Type,
        y: &Type,
        whole: Option<(Type, Type)>,
        work: &mut Vec<Pending>,
        span: &Span,
    ) -> (res: Result<(), TypeError>)
        requires
            old(self).wf(),
            items_ok(old(work)@, old(self).next_var()),
            tv(*x) is Record,
            tv(*y) is Record,
            clean(old(self).tsub(), old(self).rsub(), tv(*x)),
            clean(old(self).tsub(), old(self).rsub(), tv(*y)),
            type_ok(tv(*x), old(self).next_var()),
            type_ok(tv(*y), old(self).next_var()),
            whole matches Some(w) ==> type_ok(tv(w.0), old(self).next_var()) && type_ok(tv(w.1), old(self).next_var()),
            old(self).next_var() + pend_count(old(self).tsub(), old(self).rsub(), pview(old(work)@).push((tv(*x), tv(*y))))
                <= u32::MAX,
        ensures
            final(self).wf(),
            old(self).next_var() <= final(self).next_var(),
            refines(final(self).tsub(), final(self).rsub(), old(self).tsub(), old(self).rsub(), old(self).next_var()),
            res is Ok ==> items_ok(final(work)@, final(self).next_var()) && step_ok(
                old(self).tsub(),
                old(self).rsub(),
                old(self).next_var(),
                pview(old(work)@).push((tv(*x), tv(*y))),
                final(self).tsub(),
                final(self).rsub(),
                final(self).next_var(),
                pview(final(work)@),
            ),
            res matches Err(e) ==> e.span == *span,
    {
        let ghost s = self.tsub();
        let ghost r = self.rsub();
        let ghost n = self.next_var();
        let ghost ps = pview(work@);
        let ghost xv = tv(*x);
        let ghost yv = tv(*y);
        let ghost pair = (xv, yv);
        proof {
            self.lemma_wf();
            lemma_refines_self(s, r, n);
        }
        match (x, y) {
            (Type::Record(fa, ra), Type::Record(fb, rb)) => {
                match find_shared(fa, fb) {
                    Some((i, j)) => {
                        let mut fa2 = duplicate_fields(fa);
                        let mut fb2 = duplicate_fields(fb);
                        proof {
                            lemma_fvs(fa@);
                            lemma_fvs(fa2@);
                            lemma_fvs(fb@);
                            lemma_fvs(fb2@);
                        }
                        let ghost fa2_0 = fa2@;
                        let ghost fb2_0 = fb2@;
                        let ta = fa2.remove(i);
                        let tb = fb2.remove(j);
                        let whole2 = match whole {
                            Some(w) => Some(w),
                            None => Some((x.duplicate(), y.duplicate())),
                        };
                        let rest = Pending { left: Type::Record(fa2, *ra), right: Type::Record(fb2, *rb), whole: whole2 };
                        let field = Pending { left: ta.1, right: tb.1, whole: None };
                        let ghost w0 = work@;
                        let ghost rest_v = (tv(rest.left), tv(rest.right));
                        let ghost field_v = (tv(field.left), tv(field.right));
                        proof {
                            let fav = fvs(fa@);
                            let fbv = fvs(fb@);
                            lemma_fvs(fa@);
                            lemma_fvs(fb@);
                            lemma_fvs_remove(fa2_0, i as int);
                            lemma_fvs_remove(fb2_0, j as int);
                            lemma_fvs(fa2_0);
                            lemma_fvs(fb2_0);
                            assert(rest_v.0 == TypeV::Record(fav.remove(i as int), *ra));
                            assert(rest_v.1 == TypeV::Record(fbv.remove(j as int), *rb));
                            assert(field_v.0 == fav[i as int].1);
                            assert(field_v.1 == fbv[j as int].1);
                            assert(fav[i as int].0 == fbv[j as int].0);
                            lemma_record_parts(fav, *ra);
                            lemma_record_parts(fbv, *rb);
                            lemma_record_parts(fav.remove(i as int), *ra);
                            lemma_record_parts(fbv.remove(j as int), *rb);
                            lemma_remove_field(fav, i as int);
                            lemma_remove_field(fbv, j as int);
                            lemma_field_vars(fav, i as int);
                            lemma_field_vars(fbv, j as int);
                            lemma_wf_fields_iff(fav);
                            lemma_wf_fields_iff(fbv);
                            assert(wf_ty(field_v.0));
                            assert(wf_ty(field_v.1));
                            assert(clean(s, r, rest_v.0));
                            assert(clean(s, r, rest_v.1));
                            assert(clean(s, r, field_v.0));
                            assert(clean(s, r, field_v.1));
                            lemma_app_clean_id(s, r, xv);
                            lemma_app_clean_id(s, r, yv);
                            lemma_app_clean_id(s, r, rest_v.0);
                            lemma_app_clean_id(s, r, rest_v.1);
                            lemma_app_clean_id(s, r, field_v.0);
                            lemma_app_clean_id(s, r, field_v.1);
                            assert(item_ok(rest, n)) by {
                                lemma_tvars_fields_sub(fav, 0);
                                assert forall|q: u32| tvars(rest_v.0).contains(q) implies q < n by {
                                    assert(tvars(xv).contains(q));
                                }
                                assert forall|q: u32| rvars(rest_v.0).contains(q) implies q < n by {
                                    assert(rvars(xv).contains(q));
                                }
                                assert forall|q: u32| tvars(rest_v.1).contains(q) implies q < n by {
                                    assert(tvars(yv).contains(q));
                                }
                                assert forall|q: u32| rvars(rest_v.1).contains(q) implies q < n by {
                                    assert(rvars(yv).contains(q));
                                }
                            }
                            assert(item_ok(field, n)) by {
                                assert forall|q: u32| tvars(field_v.0).contains(q) implies q < n by {
                                    assert(tvars(xv).contains(q));
                                }
                                assert forall|q: u32| rvars(field_v.0).contains(q) implies q < n by {
                                    assert(rvars(xv).contains(q));
                                }
                                assert forall|q: u32| tvars(field_v.1).contains(q) implies q < n by {
                                    assert(tvars(yv).contains(q));
                                }
                                assert forall|q: u32| rvars(field_v.1).contains(q) implies q < n by {
                                    assert(rvars(yv).contains(q));
                                }
                            }
                        }
                        work.push(rest);
                        work.push(field);
                        proof {
                            let fav = fvs(fa@);
                            let fbv = fvs(fb@);
                            let ps1 = ps.push(rest_v).push(field_v);
                            assert(pview(work@) =~= ps1);
                            assert(items_ok(work@, n)) by {
                                assert forall|k: int| 0 <= k < work@.len() implies item_ok(#[trigger] work@[k], n) by {
                                    if k < w0.len() {
                                        assert(work@[k] == w0[k]);
                                    }
                                }
                            }
                            lemma_pend_top(s, r, ps, pair);
                            lemma_pend_top(s, r, ps, rest_v);
                            lemma_pend_top(s, r, ps.push(rest_v), field_v);
                            assert forall|s2: TSub, r2: RSub, n2: u32|
                                #![trigger all_solved(s2, r2, ps1), sub_ok(s2, r2, n2)]
                                sub_ok(s2, r2, n2) && all_solved(s2, r2, ps1) implies all_solved(s2, r2, ps.push(pair)) by {
                                lemma_all_solved_push(s2, r2, ps.push(rest_v), field_v);
                                lemma_all_solved_push(s2, r2, ps, rest_v);
                                lemma_record_split_solved(s2, r2, fav, *ra, fbv, *rb, i as int, j as int);
                                lemma_all_solved_push(s2, r2, ps, pair);
                            }
                            lemma_plain_step_sorted(s, r, n, ps.push(pair), ps1);
                        }
                        Ok(())
                    },
                    None => {
                        proof {
                            assert forall|k: int| 0 <= k < ps.len() implies wf_ty(#[trigger] ps[k].0) && wf_ty(ps[k].1) by {
                                assert(item_ok(work@[k], n));
                            }
                            assert(pend_wf(ps));
                        }
                        self.record_tails(fa, *ra, fb, *rb, x, y, &whole, span, Ghost(ps))
                    },
                }
            },
            _ => {
                proof {
                    assert(false);
                }
                Ok(())
            },
        }
    }

    /// Unifies two applied records with no field name in common, by their
    /// tails: closed tails need both records empty of extra fields, an open
    /// tail takes the other record's fields, and two distinct open tails
    /// each take the other's fields and share one fresh tail.
    fn record_tails(
        &mut self,
        fa: &Vec<(String, Type)>,
        ra: Row,
        fb: &Vec<(String, Type)>,
        rb: Row,
        x: &Type,
        y: &Type,
        whole: &Option<(Type, Type)>,
        span: &Span,
        Ghost(ps): Ghost<Seq<(TypeV, TypeV)>>,
    ) -> (res: Result<(), TypeError>)
        requires
            old(self).wf(),
            tv(*x) == TypeV::Record(fvs(fa@), ra),
            tv(*y) == TypeV::Record(fvs(fb@), rb),
            forall|i: int, j: int|
                0 <= i < fa@.len() && 0 <= j < fb@.len() ==> (#[trigger] fa@[i]).0@ != (#[trigger] fb@[j]).0@,
            clean(old(self).tsub(), old(self).rsub(), tv(*x)),
            clean(old(self).tsub(), old(self).rsub(), tv(*y)),
            type_ok(tv(*x), old(self).next_var()),
            type_ok(tv(*y), old(self).next_var()),
            old(self).next_var() + pend_count(old(self).tsub(), old(self).rsub(), ps.push((tv(*x), tv(*y)))) <= u32::MAX,
            pend_wf(ps),
        ensures
            final(self).wf(),
            old(self).next_var() <= final(self).next_var(),
            refines(final(self).tsub(), final(self).rsub(), old(self).tsub(), old(self).rsub(), old(self).next_var()),
            res is Ok ==> step_ok(
                old(self).tsub(),
                old(self).rsub(),
                old(self).next_var(),
                ps.push((tv(*x), tv(*y))),
                final(self).tsub(),
                final(self).rsub(),
                final(self).next_var(),
                ps,
            ),
            res matches Err(e) ==> e.span == *span,
    {
        let ghost s = self.tsub();
        let ghost r = self.rsub();
        let ghost n = self.next_var();
        let ghost xv = tv(*x);
        let ghost yv = tv(*y);
        let ghost pair = (xv, yv);
        let ghost fav = fvs(fa@);
        let ghost fbv = fvs(fb@);
        proof {
            self.lemma_wf();
            lemma_refines_self(s, r, n);
            lemma_record_parts(fav, ra);
            lemma_record_parts(fbv, rb);
            lemma_app_clean_id(s, r, xv);
            lemma_app_clean_id(s, r, yv);
            lemma_pend_top(s, r, ps, pair);
            lemma_pend_finite(s, r, ps);
            lemma_pend_finite(s, r, ps.push(pair));
            lemma_fvs(fa@);
            lemma_fvs(fb@);
            assert forall|k: Seq<char>| !(#[trigger] flookup(fav, k) is Some && flookup(fbv, k) is Some) by {
                if flookup(fav, k) is Some && flookup(fbv, k) is Some {
                    lemma_flookup_some(fav, k);
                    lemma_flookup_some(fbv, k);
                    let i = choose|i: int| 0 <= i < fav.len() && (#[trigger] fav[i]).0 == k && flookup(fav, k) == Some(fav[i].1);
                    let j = choose|j: int| 0 <= j < fbv.len() && (#[trigger] fbv[j]).0 == k && flookup(fbv, k) == Some(fbv[j].1);
                    assert(fa@[i].0@ != fb@[j].0@);
                }
            }
        }
        match (ra, rb) {
            (Row::Closed, Row::Closed) => {
                if fa.len() == 0 && fb.len() == 0 {
                    proof {
                        assert(fav =~= fbv);
                        lemma_drop_step(s, r, n, ps, pair);
                    }
                    Ok(())
                } else {
                    Err(self.record_mismatch(x, y, whole, span))
                }
            },
            (Row::Open(q), Row::Closed) => {
                if fa.len() != 0 {
                    return Err(self.record_mismatch(x, y, whole, span));
                }
                let more = duplicate_fields(fb);
                proof {
                    assert(rvars(xv).contains(q));
                    assert(!r.contains_key(q));
                    assert(wf_ty(yv));
                    assert forall|z: u32| rvars_fields(fbv).contains(z) implies z < n by {
                        assert(rvars(yv).contains(z));
                    }
                    assert forall|z: u32| tvars_fields(fbv).contains(z) implies z < n by {
                        assert(tvars(yv).contains(z));
                    }
                }
                let res = self.bind_row(q, more, Row::Closed, span);
                if res.is_err() {
                    return res;
                }
                proof {
                    let s1 = self.tsub();
                    let r1 = self.rsub();
                    assert(fav =~= Seq::<(Seq<char>, TypeV)>::empty());
                    lemma_compose_r(s, r, q, fbv, Row::Closed, xv);
                    lemma_compose_r(s, r, q, fbv, Row::Closed, yv);
                    lemma_substr_vars(yv, q, fbv, Row::Closed);
                    assert(substr_fields(fav, q, fbv, Row::Closed) =~= Seq::<(Seq<char>, TypeV)>::empty());
                    assert(merge_fields(Seq::<(Seq<char>, TypeV)>::empty(), fbv) == fbv);
                    assert(app(s1, r1, xv) == app(s1, r1, yv));
                    lemma_refines_bind_r(s, r, n, q, fbv, Row::Closed);
                    lemma_pend_bind_r(s, r, q, fbv, Row::Closed, ps);
                    let bt = pend_tv(s, r, ps.push(pair));
                    let br = pend_rv(s, r, ps.push(pair));
                    assert(pend_rv(s1, r1, ps).subset_of(br.remove(q)));
                    lemma_card_drop(pend_rv(s1, r1, ps), br, q);
                    lemma_card_le(pend_tv(s1, r1, ps), bt);
                    assert forall|s2: TSub, r2: RSub, n2: u32|
                        sub_ok(s2, r2, n2) && n <= n2 && refines(s2, r2, s1, r1, n) && all_solved(s2, r2, ps) implies all_solved(s2, r2, ps.push(pair)) by {
                        lemma_solved_by(s1, r1, n, s2, r2, xv, yv);
                        lemma_all_solved_push(s2, r2, ps, pair);
                    }
                }
                Ok(())
            },
            (Row::Closed, Row::Open(q)) => {
                if fb.len() != 0 {
                    return Err(self.record_mismatch(x, y, whole, span));
                }
                let more = duplicate_fields(fa);
                proof {
                    assert(rvars(yv).contains(q));
                    assert(!r.contains_key(q));
                    assert(wf_ty(xv));
                    assert forall|z: u32| rvars_fields(fav).contains(z) implies z < n by {
                        assert(rvars(xv).contains(z));
                    }
                    assert forall|z: u32| tvars_fields(fav).contains(z) implies z < n by {
                        assert(tvars(xv).contains(z));
                    }
                }
                let res = self.bind_row(q, more, Row::Closed, span);
                if res.is_err() {
                    return res;
                }
                proof {
                    let s1 = self.tsub();
                    let r1 = self.rsub();
                    assert(fbv =~= Seq::<(Seq<char>, TypeV)>::empty());
                    lemma_compose_r(s, r, q, fav, Row::Closed, xv);
                    lemma_compose_r(s, r, q, fav, Row::Closed, yv);
                    lemma_substr_vars(xv, q, fav, Row::Closed);
                    assert(substr_fields(fbv, q, fav, Row::Closed) =~= Seq::<(Seq<char>, TypeV)>::empty());
                    assert(merge_fields(Seq::<(Seq<char>, TypeV)>::empty(), fav) == fav);
                    assert(app(s1, r1, xv) == app(s1, r1, yv));
                    lemma_refines_bind_r(s, r, n, q, fav, Row::Closed);
                    lemma_pend_bind_r(s, r, q, fav, Row::Closed, ps);
                    let bt = pend_tv(s, r, ps.push(pair));
                    let br = pend_rv(s, r, ps.push(pair));
                    assert(pend_rv(s1, r1, ps).subset_of(br.remove(q)));
                    lemma_card_drop(pend_rv(s1, r1, ps), br, q);
                    lemma_card_le(pend_tv(s1, r1, ps), bt);
                    assert forall|s2: TSub, r2: RSub, n2: u32|
                        sub_ok(s2, r2, n2) && n <= n2 && refines(s2, r2, s1, r1, n) && all_solved(s2, r2, ps) implies all_solved(s2, r2, ps.push(pair)) by {
                        lemma_solved_by(s1, r1, n, s2, r2, xv, yv);
                        lemma_all_solved_push(s2, r2, ps, pair);
                    }
                }
                Ok(())
            },
            (Row::Open(q1), Row::Open(q2)) => {
                if q1 == q2 {
                    if fa.len() == 0 && fb.len() == 0 {
                        proof {
                            assert(fav =~= fbv);
                            lemma_drop_step(s, r, n, ps, pair);
                        }
                        return Ok(());
                    }
                    return Err(self.record_mismatch(x, y, whole, span));
                }
                self.unify_open_rows(fa, q1, fb, q2, x, y, span, Ghost(ps))
            },
        }
    }
}


impl crate::engine::Infer {
    /// Unifies records with distinct open tails and no field name in
    /// common: each tail takes the other record's fields, and both end in
    /// one fresh tail.
    fn unify_open_rows(
        &mut self,
        fa: &Vec<(String, Type)>,
        q1: u32,
        fb: &Vec<(String, Type)>,
        q2: u32,
        x: &Type,
        y: &Type,
        span: &Span,
        Ghost(ps): Ghost<Seq<(TypeV, TypeV)>>,
    ) -> (res: Result<(), TypeError>)
        requires
            old(self).wf(),
            q1 != q2,
            tv(*x) == TypeV::Record(fvs(fa@), Row::Open(q1)),
            tv(*y) == TypeV::Record(fvs(fb@), Row::Open(q2)),
            forall|k: Seq<char>| !(#[trigger] flookup(fvs(fa@), k) is Some && flookup(fvs(fb@), k) is Some),
            clean(old(self).tsub(), old(self).rsub(), tv(*x)),
            clean(old(self).tsub(), old(self).rsub(), tv(*y)),
            type_ok(tv(*x), old(self).next_var()),
            type_ok(tv(*y), old(self).next_var()),
            old(self).next_var() + pend_count(old(self).tsub(), old(self).rsub(), ps.push((tv(*x), tv(*y)))) <= u32::MAX,
            pend_wf(ps),
        ensures
            final(self).wf(),
            old(self).next_var() <= final(self).next_var(),
            refines(final(self).tsub(), final(self).rsub(), old(self).tsub(), old(self).rsub(), old(self).next_var()),
            res is Ok ==> step_ok(
                old(self).tsub(),
                old(self).rsub(),
                old(self).next_var(),
                ps.push((tv(*x), tv(*y))),
                final(self).tsub(),
                final(self).rsub(),
                final(self).next_var(),
                ps,
            ),
            res matches Err(e) ==> e.span == *span,
    {
        let ghost s = self.tsub();
        let ghost r = self.rsub();
        let ghost n = self.next_var();
        let ghost xv = tv(*x);
        let ghost yv = tv(*y);
        let ghost pair = (xv, yv);
        let ghost fav = fvs(fa@);
        let ghost fbv = fvs(fb@);
        let ghost bt = pend_tv(s, r, ps.push(pair));
        let ghost br = pend_rv(s, r, ps.push(pair));
        proof {
            self.lemma_wf();
            lemma_refines_self(s, r, n);
            lemma_record_parts(fav, Row::Open(q1));
            lemma_record_parts(fbv, Row::Open(q2));
            assert forall|q: u32| rvars_fields(fbv).contains(q) implies q < n by {
                assert(rvars(yv).contains(q));
            }
            assert forall|q: u32| tvars_fields(fbv).contains(q) implies q < n by {
                assert(tvars(yv).contains(q));
            }
            lemma_app_clean_id(s, r, xv);
            lemma_app_clean_id(s, r, yv);
            lemma_pend_top(s, r, ps, pair);
            lemma_pend_finite(s, r, ps);
            lemma_pend_finite(s, r, ps.push(pair));
            assert(br.contains(q1));
            assert(br.contains(q2));
            assert(br.remove(q1).contains(q2));
            vstd::set::axiom_set_remove_len(br, q1);
            vstd::set::axiom_set_remove_finite(br, q1);
            vstd::set::axiom_set_remove_len(br.remove(q1), q2);
            lemma_card_le(bt, bt);
        }
        let tail = self.fresh_row();
        let ghost n1 = self.next_var();
        proof {
            self.lemma_wf();
            assert(!r.contains_key(n));
            assert(!r.contains_key(q1));
            lemma_refines_bind_r(s, r, n1, q1, fbv, tail);
            lemma_pend_bind_r(s, r, q1, fbv, tail, ps);
            lemma_below_mono(xv, n, n1);
            lemma_below_mono(yv, n, n1);
        }
        let res1 = self.bind_row(q1, duplicate_fields(fb), tail, span);
        if res1.is_err() {
            return res1;
        }
        let ghost sb = self.tsub();
        let ghost rb = self.rsub();
        proof {
            self.lemma_wf();
            let rec_a = TypeV::Record(fav, Row::Closed);
            lemma_record_parts(fav, Row::Closed);
            lemma_app_clean_id(s, r, rec_a);
            lemma_compose_r(s, r, q1, fbv, tail, rec_a);
            lemma_substr_vars(rec_a, q1, fbv, tail);
            assert(below(rec_a, n)) by {
                assert forall|q: u32| tvars(rec_a).contains(q) implies q < n by {
                    assert(tvars(xv).contains(q));
                }
                assert forall|q: u32| rvars(rec_a).contains(q) implies q < n by {
                    assert(rvars(xv).contains(q));
                }
            }
            lemma_below_mono(rec_a, n, n1);
            lemma_app_ok(sb, rb, n1, rec_a);
        }
        let fa2 = self.apply_fields(fa);
        let ghost fa2v = fvs(fa2@);
        proof {
            let rec_a = TypeV::Record(fav, Row::Closed);
            assert(app(sb, rb, rec_a) == TypeV::Record(fa2v, Row::Closed));
            assert(fa2v == substr_fields(fav, q1, fbv, tail));
            lemma_record_parts(fa2v, Row::Closed);
            assert forall|q: u32| rvars_fields(fa2v).contains(q) implies q < n1 by {
                assert(rvars(TypeV::Record(fa2v, Row::Closed)).contains(q));
            }
            assert forall|q: u32| tvars_fields(fa2v).contains(q) implies q < n1 by {
                assert(tvars(TypeV::Record(fa2v, Row::Closed)).contains(q));
            }
            assert(!rb.contains_key(q2));
            lemma_refines_bind_r(sb, rb, n1, q2, fa2v, tail);
            lemma_pend_bind_r(sb, rb, q2, fa2v, tail, ps);
        }
        let res2 = self.bind_row(q2, fa2, tail, span);
        if res2.is_err() {
            proof {
                assert forall|t: TypeV| wf_ty(t) && below(t, n) implies #[trigger] app(sb, rb, app(s, r, t)) == app(sb, rb, t) by {
                    lemma_below_mono(t, n, n1);
                }
            }
            return res2;
        }
        proof {
            let sc = self.tsub();
            let rc = self.rsub();
            lemma_refines_trans(sc, rc, sb, rb, n1, s, r, n1);
            assert forall|t: TypeV| wf_ty(t) && below(t, n) implies #[trigger] app(sc, rc, app(s, r, t)) == app(sc, rc, t) by {
                lemma_below_mono(t, n, n1);
            }
            // The records after both bindings.
            lemma_compose_r(s, r, q1, fbv, tail, xv);
            lemma_compose_r(s, r, q1, fbv, tail, yv);
            lemma_substr_vars(yv, q1, fbv, tail);
            assert(app(sb, rb, yv) == yv);
            assert(app(sb, rb, xv) == TypeV::Record(merge_fields(fa2v, fbv), tail));
            lemma_compose_r(sb, rb, q2, fa2v, tail, xv);
            lemma_compose_r(sb, rb, q2, fa2v, tail, yv);
            let g = substr_fields(fbv, q2, fa2v, tail);
            lemma_substr_merge(fa2v, fbv, q2, fa2v, tail);
            lemma_substr_vars(TypeV::Record(fa2v, Row::Closed), q2, fa2v, tail);
            assert(substr_fields(fa2v, q2, fa2v, tail) == fa2v);
            assert(app(sc, rc, xv) == TypeV::Record(merge_fields(fa2v, g), tail));
            assert(app(sc, rc, yv) == TypeV::Record(merge_fields(g, fa2v), tail));
            lemma_substr_fields_keys(fbv, q2, fa2v, tail);
            lemma_fsorted_same_keys(fbv, g);
            lemma_substr_fields_keys(fav, q1, fbv, tail);
            lemma_fsorted_same_keys(fav, fa2v);
            assert forall|k: Seq<char>| !(#[trigger] flookup(fa2v, k) is Some && flookup(g, k) is Some) by {
                lemma_same_names(fav, fa2v, k);
                lemma_same_names(fbv, g, k);
            }
            lemma_merge_comm(fa2v, g);
            assert(app(sc, rc, xv) == app(sc, rc, yv));
            // What is pending.
            let m = br.remove(q1).remove(q2);
            assert(pend_rv(sb, rb, ps).subset_of(br.remove(q1).insert(n)));
            assert(!rvars_fields(fa2v).contains(q2));
            assert(rvars(TypeV::Record(fav, Row::Closed)).subset_of(br)) by {
                assert forall|q: u32| rvars(TypeV::Record(fav, Row::Closed)).contains(q) implies br.contains(q) by {
                    assert(rvars(xv).contains(q));
                }
            }
            assert(substr(TypeV::Record(fav, Row::Closed), q1, fbv, tail) == TypeV::Record(fa2v, Row::Closed));
            assert(!rvars_fields(fbv).contains(q1));
            assert forall|q: u32| rvars_fields(fa2v).contains(q) implies br.remove(q1).insert(n).contains(q) by {
                assert(rvars(TypeV::Record(fa2v, Row::Closed)).contains(q));
                if q != n && q != q1 {
                    if rvars_fields(fbv).contains(q) {
                        assert(rvars(yv).contains(q));
                    }
                }
            }
            assert(rvars_fields(fa2v).subset_of(br.remove(q1).insert(n)));
            assert(n != q2);
            assert(pend_rv(sc, rc, ps).subset_of(m.insert(n)));
            vstd::set::axiom_set_remove_finite(br.remove(q1), q2);
            vstd::set::axiom_set_insert_len(m, n);
            lemma_card_le(pend_rv(sc, rc, ps), m.insert(n));
            assert(pend_tv(sc, rc, ps).subset_of(bt));
            lemma_card_le(pend_tv(sc, rc, ps), bt);
            assert forall|s2: TSub, r2: RSub, n2: u32|
                sub_ok(s2, r2, n2) && n1 <= n2 && refines(s2, r2, sc, rc, n1) && all_solved(s2, r2, ps) implies all_solved(s2, r2, ps.push(pair)) by {
                lemma_solved_by(sc, rc, n1, s2, r2, xv, yv);
                lemma_all_solved_push(s2, r2, ps, pair);
            }
        }
        Ok(())
    }
}



// ---------------------------------------------------------------------------
// The unification loop.
// ---------------------------------------------------------------------------

/// A step on the applied form of the pair taken is a step on the pair.
proof fn lemma_bridge(
    s: TSub,
    r: RSub,
    n: u32,
    ps: Seq<(TypeV, TypeV)>,
    pair: (TypeV, TypeV),
    s1: TSub,
    r1: RSub,
    n1: u32,
    ps1: Seq<(TypeV, TypeV)>,
)
    requires
        sub_ok(s, r, n),
        type_ok(pair.0, n),
        type_ok(pair.1, n),
        step_ok(s, r, n, ps.push((app(s, r, pair.0), app(s, r, pair.1))), s1, r1, n1, ps1),
    ensures
        step_ok(s, r, n, ps.push(pair), s1, r1, n1, ps1),
        pend_count(s, r, ps.push(pair)) == pend_count(s, r, ps.push((app(s, r, pair.0), app(s, r, pair.1)))),
{
    let q = (app(s, r, pair.0), app(s, r, pair.1));
    lemma_app_ok(s, r, n, pair.0);
    lemma_app_ok(s, r, n, pair.1);
    lemma_app_clean_id(s, r, q.0);
    lemma_app_clean_id(s, r, q.1);
    lemma_pend_top(s, r, ps, pair);
    lemma_pend_top(s, r, ps, q);
    assert forall|s2: TSub, r2: RSub, n2: u32|
        sub_ok(s2, r2, n2) && n1 <= n2 && refines(s2, r2, s1, r1, n1) && all_solved(s2, r2, ps1) implies all_solved(s2, r2, ps.push(pair)) by {
        assert(all_solved(s2, r2, ps.push(q)));
        lemma_all_solved_push(s2, r2, ps, q);
        lemma_refines_trans(s2, r2, s1, r1, n1, s, r, n);
        assert(app(s2, r2, app(s, r, pair.0)) == app(s2, r2, pair.0));
        assert(app(s2, r2, app(s, r, pair.1)) == app(s2, r2, pair.1));
        lemma_all_solved_push(s2, r2, ps, pair);
    }
}

impl crate::engine::Infer {
    /// Takes one pair: applies the substitutions to it, then binds a
    /// variable, splits records, or splits other types.
    fn step(&mut self, item: Pending, work: &mut Vec<Pending>, span: &Span) -> (res: Result<(), TypeError>)
        requires
            old(self).wf(),
            item_ok(item, old(self).next_var()),
            items_ok(old(work)@, old(self).next_var()),
            old(self).next_var() + pend_count(
                old(self).tsub(),
                old(self).rsub(),
                pview(old(work)@).push((tv(item.left), tv(item.right))),
            ) <= u32::MAX,
        ensures
            final(self).wf(),
            old(self).next_var() <= final(self).next_var(),
            refines(final(self).tsub(), final(self).rsub(), old(self).tsub(), old(self).rsub(), old(self).next_var()),
            res is Ok ==> items_ok(final(work)@, final(self).next_var()) && step_ok(
                old(self).tsub(),
                old(self).rsub(),
                old(self).next_var(),
                pview(old(work)@).push((tv(item.left), tv(item.right))),
                final(self).tsub(),
                final(self).rsub(),
                final(self).next_var(),
                pview(final(work)@),
            ),
            res matches Err(e) ==> e.span == *span,
            ground(tv(item.left)) && ground(tv(item.right)) ==> final(self).tsub() == old(self).tsub() && final(self).rsub()
                == old(self).rsub() && final(self).next_var() == old(self).next_var(),
            ground(tv(item.left)) && ground(tv(item.right)) && res is Ok ==> final(work)@.len() >= old(work)@.len() && pview(
                final(work)@,
            ).subrange(0, old(work)@.len() as int) == pview(old(work)@) && all_ground(
                pview(final(work)@).subrange(old(work)@.len() as int, final(work)@.len() as int),
            ) && (accepts(tv(item.left), tv(item.right)) <==> all_accept(
                pview(final(work)@).subrange(old(work)@.len() as int, final(work)@.len() as int),
            )),
            ground(tv(item.left)) && ground(tv(item.right)) && res is Err ==> !accepts(tv(item.left), tv(item.right)),
    {
        let ghost s = self.tsub();
        let ghost r = self.rsub();
        let ghost n = self.next_var();
        let ghost ps = pview(work@);
        let ghost pair = (tv(item.left), tv(item.right));
        let x = self.apply(&item.left);
        let y = self.apply(&item.right);
        let ghost q = (tv(x), tv(y));
        proof {
            self.lemma_wf();
            lemma_refines_self(s, r, n);
            lemma_app_ok(s, r, n, pair.0);
            lemma_app_ok(s, r, n, pair.1);
            lemma_pend_top(s, r, ps, pair);
            lemma_pend_top(s, r, ps, q);
            lemma_app_clean_id(s, r, q.0);
            lemma_app_clean_id(s, r, q.1);
            if ground(pair.0) && ground(pair.1) {
                lemma_ground_vars(pair.0);
                lemma_ground_vars(pair.1);
                lemma_app_clean_id(s, r, pair.0);
                lemma_app_clean_id(s, r, pair.1);
                assert(q == pair);
            }
            assert(pend_count(s, r, ps.push(q)) == pend_count(s, r, ps.push(pair)));
            assert forall|k: int| 0 <= k < ps.len() implies wf_ty(#[trigger] ps[k].0) && wf_ty(ps[k].1) by {
                assert(item_ok(work@[k], n));
            }
        }
        let res = match (&x, &y) {
            (Type::Var(v, c), _) => {
                proof {
                    assert(tvars(q.0).contains(*v));
                }
                let res = self.step_var(*v, *c, &y, span, Ghost(ps), Ghost(q));
                proof {
                    lemma_items_ok_mono(work@, n, self.next_var());
                }
                res
            },
            (_, Type::Var(v, c)) => {
                proof {
                    assert(tvars(q.1).contains(*v));
                }
                let res = self.step_var(*v, *c, &x, span, Ghost(ps), Ghost(q));
                proof {
                    lemma_items_ok_mono(work@, n, self.next_var());
                }
                res
            },
            (Type::Record(_, _), Type::Record(_, _)) => self.step_record(&x, &y, item.whole, work, span),
            _ => self.step_struct(&x, &y, work, span),
        };
        proof {
            if res is Ok {
                lemma_bridge(s, r, n, ps, pair, self.tsub(), self.rsub(), self.next_var(), pview(work@));
            }
        }
        res
    }

    /// Unifies `a` (expected) with `b` (found): afterwards both read the
    /// same once the substitutions are applied, a concrete glyph type
    /// counting as `Glyph` and a variable's bound not counting. On types with
    /// no variable and no record it succeeds exactly when `b` is accepted
    /// where `a` is expected, and binds nothing.
    pub fn unify(&mut self, a: &Type, b: &Type, span: &Span) -> (res: Result<(), TypeError>)
        requires
            old(self).wf(),
            type_ok(tv(*a), old(self).next_var()),
            type_ok(tv(*b), old(self).next_var()),
            old(self).next_var() + pend_count(old(self).tsub(), old(self).rsub(), seq![(tv(*a), tv(*b))]) <= u32::MAX,
        ensures
            final(self).wf(),
            old(self).next_var() <= final(self).next_var(),
            refines(final(self).tsub(), final(self).rsub(), old(self).tsub(), old(self).rsub(), old(self).next_var()),
            res is Ok ==> widen(final(self).applied(tv(*a))) == widen(final(self).applied(tv(*b))),
            res matches Err(e) ==> e.span == *span,
            ground(tv(*a)) && ground(tv(*b)) ==> (res is Ok <==> accepts(tv(*a), tv(*b))) && final(self).tsub()
                == old(self).tsub() && final(self).rsub() == old(self).rsub() && final(self).next_var() == old(self).next_var(),
    {
        let ghost g = ground(tv(*a)) && ground(tv(*b));
        let ghost s0 = self.tsub();
        let ghost r0 = self.rsub();
        let ghost n0 = self.next_var();
        let ghost goal = (tv(*a), tv(*b));
        let ghost c0 = pend_count(s0, r0, seq![goal]);
        let mut work: Vec<Pending> = Vec::new();
        work.push(Pending { left: a.duplicate(), right: b.duplicate(), whole: None });
        proof {
            self.lemma_wf();
            assert(pview(work@) =~= seq![goal]);
            lemma_refines_self(s0, r0, n0);
            assert forall|s2: TSub, r2: RSub, n2: u32|
                sub_ok(s2, r2, n2) && n0 <= n2 && refines(s2, r2, s0, r0, n0) && all_solved(s2, r2, seq![goal]) implies solved(s2, r2, goal) by {
                assert(seq![goal][0] == goal);
            }
            assert(items_ok(work@, n0)) by {
                assert(item_ok(work@[0], n0));
            }
        }
        while work.len() > 0
            invariant
                self.wf(),
                s0 == old(self).tsub(),
                r0 == old(self).rsub(),
                n0 == old(self).next_var(),
                sub_ok(s0, r0, n0),
                n0 <= self.next_var(),
                n0 + c0 <= u32::MAX,
                self.next_var() + pend_count(self.tsub(), self.rsub(), pview(work@)) <= n0 + c0,
                refines(self.tsub(), self.rsub(), s0, r0, n0),
                goal_kept(self.tsub(), self.rsub(), self.next_var(), pview(work@), goal),
                items_ok(work@, self.next_var()),
                g == (ground(tv(*a)) && ground(tv(*b))),
                g ==> all_ground(pview(work@)) && (accepts(tv(*a), tv(*b)) <==> all_accept(pview(work@))),
                g ==> self.tsub() == s0 && self.rsub() == r0 && self.next_var() == n0,
            decreases pend_count(self.tsub(), self.rsub(), pview(work@)), pend_size(self.tsub(), self.rsub(), pview(work@)),
        {
            let ghost s = self.tsub();
            let ghost r = self.rsub();
            let ghost n = self.next_var();
            let ghost before = work@;
            let item = work.pop().unwrap();
            proof {
                self.lemma_wf();
                assert(before =~= work@.push(item));
                assert(pview(before) =~= pview(work@).push((tv(item.left), tv(item.right))));
                assert(item_ok(before[before.len() - 1], n));
                assert forall|k: int| 0 <= k < work@.len() implies item_ok(#[trigger] work@[k], n) by {
                    assert(work@[k] == before[k]);
                }
            }
            let ghost mid = pview(work@);
            proof {
                if g {
                    lemma_all_split(pview(before), mid.len() as int);
                    assert(pview(before).subrange(0, mid.len() as int) =~= mid);
                    assert(pview(before).subrange(mid.len() as int, pview(before).len() as int) =~= seq![
                        (tv(item.left), tv(item.right)),
                    ]);
                    assert(pview(before)[mid.len() as int] == (tv(item.left), tv(item.right)));
                }
            }
            let res = self.step(item, &mut work, span);
            match res {
                Err(e) => {
                    proof {
                        lemma_refines_trans(self.tsub(), self.rsub(), s, r, n, s0, r0, n0);
                    }
                    return Err(e);
                },
                Ok(()) => {
                    proof {
                        lemma_refines_trans(self.tsub(), self.rsub(), s, r, n, s0, r0, n0);
                        lemma_goal_step(s, r, n, pview(before), self.tsub(), self.rsub(), self.next_var(), pview(work@), goal);
                        if g {
                            lemma_all_split(pview(work@), mid.len() as int);
                        }
                    }
                },
            }
        }
        proof {
            let s = self.tsub();
            let r = self.rsub();
            let n = self.next_var();
            self.lemma_wf();
            lemma_refines_self(s, r, n);
            assert(pview(work@) =~= Seq::<(TypeV, TypeV)>::empty());
            assert(all_solved(s, r, pview(work@)));
            assert(solved(s, r, goal));
        }
        Ok(())
    }
}


/// A finite set of numbers below `n` has at most `n` members.
proof fn lemma_below_card(a: Set<u32>, n: u32)
    requires
        a.finite(),
        lt_all(a, n),
    ensures
        a.len() <= n,
    decreases n,
{
    if n == 0 {
        assert(a =~= Set::<u32>::empty());
    } else {
        let m = (n - 1) as u32;
        let b = a.remove(m);
        vstd::set::axiom_set_remove_finite(a, m);
        vstd::set::axiom_set_remove_len(a, m);
        assert forall|y: u32| #[trigger] b.contains(y) implies y < m by {
            assert(a.contains(y));
        }
        lemma_below_card(b, m);
    }
}

/// Two types below `n` hold at most `2 * n` unbound variables between them,
/// so an engine whose counter is below a third of the range can unify them.
pub proof fn lemma_unify_count(s: TSub, r: RSub, n: u32, a: TypeV, b: TypeV)
    requires
        sub_ok(s, r, n),
        type_ok(a, n),
        type_ok(b, n),
    ensures
        pend_count(s, r, seq![(a, b)]) <= 2 * n,
{
    let ps = seq![(a, b)];
    lemma_app_ok(s, r, n, a);
    lemma_app_ok(s, r, n, b);
    lemma_pend_finite(s, r, ps);
    assert(ps.drop_last() =~= Seq::<(TypeV, TypeV)>::empty());
    assert(ps.last() == (a, b));
    let tv_set = pend_tv(s, r, ps);
    let rv_set = pend_rv(s, r, ps);
    let e = Seq::<(TypeV, TypeV)>::empty();
    assert(ps == e.push((a, b)));
    lemma_pend_top(s, r, e, (a, b));
    assert(pend_tv(s, r, e) == Set::<u32>::empty());
    assert(pend_rv(s, r, e) == Set::<u32>::empty());
    assert forall|y: u32| #[trigger] tv_set.contains(y) implies y < n by {
        if tvars(app(s, r, a)).contains(y) {
            assert(lt_all(tvars(app(s, r, a)), n));
        } else {
            assert(tvars(app(s, r, b)).contains(y));
            assert(lt_all(tvars(app(s, r, b)), n));
        }
    }
    assert forall|y: u32| #[trigger] rv_set.contains(y) implies y < n by {
        if rvars(app(s, r, a)).contains(y) {
            assert(lt_all(rvars(app(s, r, a)), n));
        } else {
            assert(rvars(app(s, r, b)).contains(y));
            assert(lt_all(rvars(app(s, r, b)), n));
        }
    }
    lemma_below_card(tv_set, n);
    lemma_below_card(rv_set, n);
}


/// A prefix of an argument list is no larger than the list.
pub proof fn lemma_tsize_seq_prefix(s: Seq<TypeV>, i: int)
    requires
        0 <= i <= s.len(),
    ensures
        tsize_seq(s.subrange(0, i)) <= tsize_seq(s),
        0 < i ==> tsize_seq(s.subrange(0, i)) == tsize_seq(s.subrange(0, i - 1)) + tsize(s[i - 1]),
{
    let a = s.subrange(0, i);
    let b = s.subrange(i, s.len() as int);
    assert(s =~= a + b);
    lemma_tsize_seq_concat(a, b);
    if 0 < i {
        assert(a.drop_last() =~= s.subrange(0, i - 1));
    }
}

/// A prefix of a field list is no larger than the list.
pub proof fn lemma_tsize_fields_prefix(s: Seq<(Seq<char>, TypeV)>, i: int)
    requires
        0 <= i <= s.len(),
    ensures
        tsize_fields(s.subrange(0, i)) <= tsize_fields(s),
        0 < i ==> tsize_fields(s.subrange(0, i)) == tsize_fields(s.subrange(0, i - 1)) + 1 + tsize(s[i - 1].1),
{
    let a = s.subrange(0, i);
    let b = s.subrange(i, s.len() as int);
    assert(s =~= a + b);
    lemma_tsize_fields_concat(a, b);
    if 0 < i {
        assert(a.drop_last() =~= s.subrange(0, i - 1));
    }
}

} // verus!
