//! The unification engine of type inference. Unification variables and
//! record-row variables are bound in two substitutions, kept idempotent: a
//! bound variable never occurs in any binding, so applying the substitution to
//! a type is a single structural pass. Unifying two types works through a
//! stack of pending pairs, which is what makes its termination provable: each
//! step either binds a variable that then disappears from every pending type,
//! or replaces a pair by strictly smaller ones.
use std::collections::HashMap;

use vstd::prelude::*;

use crate::ast::{fvs, lemma_fvs, lemma_tvs, sv, tv, tvs, Constraint, Row, Scheme, SchemeV, Type, TypeV};
use crate::names::NameMap;
use crate::names::{lemma_seq_lt_irrefl, lemma_seq_lt_total, lemma_seq_lt_trans};
use crate::text::seq_lt;

verus! {

broadcast use vstd::std_specs::hash::group_hash_axioms;

// ---------------------------------------------------------------------------
// Variables of a type.
// ---------------------------------------------------------------------------

/// The unification variables a type mentions.
pub open spec fn tvars(t: TypeV) -> Set<u32>
    decreases t,
{
    match t {
        TypeV::Var(v, _) => set![v],
        TypeV::Rigid(_) => Set::empty(),
        TypeV::Con(_, args) => tvars_seq(args),
        TypeV::Fun(a, b) => tvars(*a).union(tvars(*b)),
        TypeV::Record(fs, _) => tvars_fields(fs),
        TypeV::Tuple(es) => tvars_seq(es),
    }
}

pub open spec fn tvars_seq(s: Seq<TypeV>) -> Set<u32>
    decreases s,
{
    if s.len() == 0 {
        Set::empty()
    } else {
        tvars_seq(s.drop_last()).union(tvars(s.last()))
    }
}

pub open spec fn tvars_fields(s: Seq<(Seq<char>, TypeV)>) -> Set<u32>
    decreases s,
{
    if s.len() == 0 {
        Set::empty()
    } else {
        tvars_fields(s.drop_last()).union(tvars(s.last().1))
    }
}

/// The row variable a record tail holds, if any.
pub open spec fn row_set(r: Row) -> Set<u32> {
    match r {
        Row::Open(x) => set![x],
        Row::Closed => Set::empty(),
    }
}

/// The row variables a type mentions.
pub open spec fn rvars(t: TypeV) -> Set<u32>
    decreases t,
{
    match t {
        TypeV::Var(_, _) => Set::empty(),
        TypeV::Rigid(_) => Set::empty(),
        TypeV::Con(_, args) => rvars_seq(args),
        TypeV::Fun(a, b) => rvars(*a).union(rvars(*b)),
        TypeV::Record(fs, row) => rvars_fields(fs).union(row_set(row)),
        TypeV::Tuple(es) => rvars_seq(es),
    }
}

pub open spec fn rvars_seq(s: Seq<TypeV>) -> Set<u32>
    decreases s,
{
    if s.len() == 0 {
        Set::empty()
    } else {
        rvars_seq(s.drop_last()).union(rvars(s.last()))
    }
}

pub open spec fn rvars_fields(s: Seq<(Seq<char>, TypeV)>) -> Set<u32>
    decreases s,
{
    if s.len() == 0 {
        Set::empty()
    } else {
        rvars_fields(s.drop_last()).union(rvars(s.last().1))
    }
}

// ---------------------------------------------------------------------------
// Substitutions.
// ---------------------------------------------------------------------------

/// The type-variable substitution, as values.
pub type TSub = Map<u32, TypeV>;

/// The row-variable substitution: each bound row variable carries the extra
/// fields it was found to have, and its own remaining tail.
pub type RSub = Map<u32, (Seq<(Seq<char>, TypeV)>, Row)>;

/// A type none of whose variables is bound.
pub open spec fn clean(s: TSub, r: RSub, t: TypeV) -> bool {
    &&& tvars(t).disjoint(s.dom())
    &&& rvars(t).disjoint(r.dom())
}

pub open spec fn clean_fields(s: TSub, r: RSub, fs: Seq<(Seq<char>, TypeV)>) -> bool {
    &&& tvars_fields(fs).disjoint(s.dom())
    &&& rvars_fields(fs).disjoint(r.dom())
}

/// Both substitutions are idempotent: no binding mentions a bound variable.
pub open spec fn idempotent(s: TSub, r: RSub) -> bool {
    &&& forall|v: u32| #[trigger] s.contains_key(v) ==> clean(s, r, s[v])
    &&& forall|x: u32| #[trigger] r.contains_key(x) ==> {
        &&& clean_fields(s, r, r[x].0)
        &&& row_set(r[x].1).disjoint(r.dom())
    }
}

/// Two sorted field lists merged by name; on a shared name the first list's
/// field is kept.
pub open spec fn merge_fields(a: Seq<(Seq<char>, TypeV)>, b: Seq<(Seq<char>, TypeV)>) -> Seq<(Seq<char>, TypeV)>
    decreases a.len() + b.len(),
{
    if a.len() == 0 {
        b
    } else if b.len() == 0 {
        a
    } else if a[0].0 == b[0].0 {
        seq![a[0]] + merge_fields(a.drop_first(), b.drop_first())
    } else if seq_lt(a[0].0, b[0].0) {
        seq![a[0]] + merge_fields(a.drop_first(), b)
    } else {
        seq![b[0]] + merge_fields(a, b.drop_first())
    }
}

/// A type with the substitutions applied.
pub open spec fn app(s: TSub, r: RSub, t: TypeV) -> TypeV
    decreases t,
{
    match t {
        TypeV::Var(v, c) => if s.contains_key(v) {
            s[v]
        } else {
            t
        },
        TypeV::Rigid(_) => t,
        TypeV::Con(n, args) => TypeV::Con(n, app_seq(s, r, args)),
        TypeV::Fun(a, b) => TypeV::Fun(Box::new(app(s, r, *a)), Box::new(app(s, r, *b))),
        TypeV::Record(fs, row) => {
            let fs2 = app_fields(s, r, fs);
            match row {
                Row::Open(x) => if r.contains_key(x) {
                    TypeV::Record(merge_fields(fs2, r[x].0), r[x].1)
                } else {
                    TypeV::Record(fs2, row)
                },
                Row::Closed => TypeV::Record(fs2, row),
            }
        },
        TypeV::Tuple(es) => TypeV::Tuple(app_seq(s, r, es)),
    }
}

pub open spec fn app_seq(s: TSub, r: RSub, ts: Seq<TypeV>) -> Seq<TypeV>
    decreases ts,
{
    if ts.len() == 0 {
        Seq::empty()
    } else {
        app_seq(s, r, ts.drop_last()).push(app(s, r, ts.last()))
    }
}

pub open spec fn app_fields(s: TSub, r: RSub, fs: Seq<(Seq<char>, TypeV)>) -> Seq<(Seq<char>, TypeV)>
    decreases fs,
{
    if fs.len() == 0 {
        Seq::empty()
    } else {
        app_fields(s, r, fs.drop_last()).push((fs.last().0, app(s, r, fs.last().1)))
    }
}

// ---------------------------------------------------------------------------
// The engine's state.
// ---------------------------------------------------------------------------

/// The state of inference: the next fresh variable, and the two
/// substitutions.
pub struct Infer {
    next: u32,
    subst: HashMap<u32, Type>,
    row_subst: HashMap<u32, (Vec<(String, Type)>, Row)>,
    bound_vars: Vec<u32>,
    bound_rows: Vec<u32>,
    /// The value-constructor schemes of the user's `type` declarations (and
    /// of imported ones), consulted ahead of the prelude's.
    user_ctor_schemes: NameMap<Scheme>,
    /// Each user sum type's variants, name and arity, for the exhaustiveness
    /// check.
    user_sum_ctors: NameMap<Vec<(String, usize)>>,
}

impl Infer {
    /// The next fresh variable.
    pub closed spec fn next_var(&self) -> u32 {
        self.next
    }

    /// The type substitution as values.
    pub closed spec fn tsub(&self) -> TSub {
        self.subst@.map_values(|t: Type| tv(t))
    }

    /// The row substitution as values.
    pub closed spec fn rsub(&self) -> RSub {
        self.row_subst@.map_values(|e: (Vec<(String, Type)>, Row)| (fvs(e.0@), e.1))
    }

    /// The substitutions are idempotent and well formed, mention only
    /// variables below `next`, and the lists of bound variables match them.
    pub closed spec fn wf(&self) -> bool {
        &&& sub_ok(self.tsub(), self.rsub(), self.next)
        &&& self.bound_vars@.no_duplicates()
        &&& forall|v: u32| #[trigger] self.subst@.contains_key(v) <==> self.bound_vars@.contains(v)
        &&& self.bound_rows@.no_duplicates()
        &&& forall|x: u32| #[trigger] self.row_subst@.contains_key(x) <==> self.bound_rows@.contains(x)
        &&& self.user_ctor_schemes.wf()
        &&& self.user_sum_ctors.wf()
    }

    /// The scheme a user or imported constructor has.
    pub closed spec fn user_ctor(&self, name: Seq<char>) -> Option<SchemeV> {
        match self.user_ctor_schemes.get_spec(name) {
            Some(s) => Some(sv(s)),
            None => None,
        }
    }

    /// The variants a user or imported sum type has.
    pub closed spec fn user_sum(&self, name: Seq<char>) -> Option<Seq<(Seq<char>, nat)>> {
        match self.user_sum_ctors.get_spec(name) {
            Some(v) => Some(v@.map_values(|m: (String, usize)| (m.0@, m.1 as nat))),
            None => None,
        }
    }

    /// A type with the current substitutions applied.
    pub open spec fn applied(&self, t: TypeV) -> TypeV {
        app(self.tsub(), self.rsub(), t)
    }

    /// An engine with nothing bound.
    pub fn new() -> (r: Infer)
        ensures
            r.wf(),
            r.next_var() == 0,
            r.tsub() == Map::<u32, TypeV>::empty(),
            r.rsub() == Map::<u32, (Seq<(Seq<char>, TypeV)>, Row)>::empty(),
            forall|n: Seq<char>| #[trigger] r.user_ctor(n) is None,
            forall|n: Seq<char>| #[trigger] r.user_sum(n) is None,
    {
        let r = Infer {
            next: 0,
            subst: HashMap::new(),
            row_subst: HashMap::new(),
            bound_vars: Vec::new(),
            bound_rows: Vec::new(),
            user_ctor_schemes: NameMap::new(),
            user_sum_ctors: NameMap::new(),
        };
        proof {
            assert(r.tsub() =~= Map::<u32, TypeV>::empty());
            assert(r.rsub() =~= Map::<u32, (Seq<(Seq<char>, TypeV)>, Row)>::empty());
            assert(r.bound_vars@ =~= Seq::<u32>::empty());
            assert(r.bound_rows@ =~= Seq::<u32>::empty());
        }
        r
    }
}

pub proof fn lemma_app_seq(s: TSub, r: RSub, ts: Seq<TypeV>)
    ensures
        app_seq(s, r, ts).len() == ts.len(),
        forall|i: int| 0 <= i < ts.len() ==> #[trigger] app_seq(s, r, ts)[i] == app(s, r, ts[i]),
    decreases ts.len(),
{
    if ts.len() > 0 {
        lemma_app_seq(s, r, ts.drop_last());
    }
}

pub proof fn lemma_app_fields(s: TSub, r: RSub, fs: Seq<(Seq<char>, TypeV)>)
    ensures
        app_fields(s, r, fs).len() == fs.len(),
        forall|i: int| 0 <= i < fs.len() ==> #[trigger] app_fields(s, r, fs)[i] == (fs[i].0, app(s, r, fs[i].1)),
    decreases fs.len(),
{
    if fs.len() > 0 {
        lemma_app_fields(s, r, fs.drop_last());
    }
}

/// Merges two sorted field lists by name, the first list winning on a
/// shared name.
fn merge_field_lists(a: Vec<(String, Type)>, b: &Vec<(String, Type)>) -> (r: Vec<(String, Type)>)
    ensures
        fvs(r@) == merge_fields(fvs(a@), fvs(b@)),
{
    let ghost fa = fvs(a@);
    let ghost fb = fvs(b@);
    proof {
        lemma_fvs(a@);
        lemma_fvs(b@);
    }
    let mut out: Vec<(String, Type)> = Vec::new();
    let ghost a0 = a@;
    let mut i: usize = 0;
    let mut j: usize = 0;
    proof {
        assert(fa.subrange(0, fa.len() as int) =~= fa);
        assert(fb.subrange(0, fb.len() as int) =~= fb);
        assert(fvs(out@) =~= Seq::<(Seq<char>, TypeV)>::empty());
        assert(fvs(out@) + merge_fields(fa, fb) =~= merge_fields(fa, fb));
    }
    while i < a.len() || j < b.len()
        invariant
            a@ == a0,
            fa == fvs(a0),
            fb == fvs(b@),
            fa.len() == a0.len(),
            fb.len() == b@.len(),
            forall|k: int| 0 <= k < a0.len() ==> #[trigger] fa[k] == (a0[k].0@, tv(a0[k].1)),
            forall|k: int| 0 <= k < b@.len() ==> #[trigger] fb[k] == (b@[k].0@, tv(b@[k].1)),
            i <= a@.len(),
            j <= b@.len(),
            fvs(out@) + merge_fields(fa.subrange(i as int, fa.len() as int), fb.subrange(j as int, fb.len() as int)) == merge_fields(fa, fb),
        decreases a@.len() - i + b@.len() - j,
    {
        let ghost ra = fa.subrange(i as int, fa.len() as int);
        let ghost rb = fb.subrange(j as int, fb.len() as int);
        let ghost before = out@;
        if i < a.len() && j < b.len() {
            let same = crate::text::str_eq(a[i].0.as_str(), b[j].0.as_str());
            if same {
                let f = (a[i].0.clone(), a[i].1.duplicate());
                out.push(f);
                proof {
                    crate::ast::lemma_fvs_push(before, f);
                    assert(ra[0] == fa[i as int]);
                    assert(rb[0] == fb[j as int]);
                    assert(ra.drop_first() =~= fa.subrange(i + 1, fa.len() as int));
                    assert(rb.drop_first() =~= fb.subrange(j + 1, fb.len() as int));
                    assert(fvs(out@) =~= fvs(before) + seq![ra[0]]);
                }
                i = i + 1;
                j = j + 1;
            } else if crate::text::str_lt(a[i].0.as_str(), b[j].0.as_str()) {
                let f = (a[i].0.clone(), a[i].1.duplicate());
                out.push(f);
                proof {
                    crate::ast::lemma_fvs_push(before, f);
                    assert(ra[0] == fa[i as int]);
                    assert(rb[0] == fb[j as int]);
                    assert(ra.drop_first() =~= fa.subrange(i + 1, fa.len() as int));
                    assert(fvs(out@) =~= fvs(before) + seq![ra[0]]);
                }
                i = i + 1;
            } else {
                let f = (b[j].0.clone(), b[j].1.duplicate());
                out.push(f);
                proof {
                    crate::ast::lemma_fvs_push(before, f);
                    assert(ra[0] == fa[i as int]);
                    assert(rb[0] == fb[j as int]);
                    assert(rb.drop_first() =~= fb.subrange(j + 1, fb.len() as int));
                    assert(fvs(out@) =~= fvs(before) + seq![rb[0]]);
                }
                j = j + 1;
            }
        } else if i < a.len() {
            let f = (a[i].0.clone(), a[i].1.duplicate());
            out.push(f);
            proof {
                crate::ast::lemma_fvs_push(before, f);
                assert(rb.len() == 0);
                assert(ra[0] == fa[i as int]);
                assert(ra =~= seq![ra[0]] + fa.subrange(i + 1, fa.len() as int));
                assert(merge_fields(fa.subrange(i + 1, fa.len() as int), rb) == fa.subrange(i + 1, fa.len() as int));
                assert(fvs(out@) =~= fvs(before) + seq![ra[0]]);
            }
            i = i + 1;
        } else {
            let f = (b[j].0.clone(), b[j].1.duplicate());
            out.push(f);
            proof {
                crate::ast::lemma_fvs_push(before, f);
                assert(ra.len() == 0);
                assert(rb[0] == fb[j as int]);
                assert(rb =~= seq![rb[0]] + fb.subrange(j + 1, fb.len() as int));
                assert(fvs(out@) =~= fvs(before) + seq![rb[0]]);
            }
            j = j + 1;
        }
    }
    proof {
        assert(fa.subrange(i as int, fa.len() as int) =~= Seq::<(Seq<char>, TypeV)>::empty());
        assert(fb.subrange(j as int, fb.len() as int) =~= Seq::<(Seq<char>, TypeV)>::empty());
        assert(fvs(out@) + Seq::<(Seq<char>, TypeV)>::empty() =~= fvs(out@));
    }
    out
}

impl Infer {
    /// A type with the substitutions applied.
    pub fn apply(&self, t: &Type) -> (r: Type)
        ensures
            tv(r) == self.applied(tv(*t)),
        decreases t,
    {
        match t {
            Type::Var(v, c) => {
                match self.subst.get(v) {
                    Some(b) => {
                        proof {
                            assert(self.tsub().contains_key(*v));
                            assert(self.tsub()[*v] == tv(*b));
                        }
                        b.duplicate()
                    },
                    None => {
                        proof {
                            assert(!self.tsub().contains_key(*v));
                        }
                        Type::Var(*v, *c)
                    },
                }
            },
            Type::Rigid(n) => Type::Rigid(n.clone()),
            Type::Con(n, args) => {
                let a2 = self.apply_all(args);
                Type::Con(n.clone(), a2)
            },
            Type::Fun(a, b) => {
                let a2 = self.apply(a);
                let b2 = self.apply(b);
                Type::Fun(Box::new(a2), Box::new(b2))
            },
            Type::Tuple(es) => {
                let e2 = self.apply_all(es);
                Type::Tuple(e2)
            },
            Type::Record(fs, row) => {
                let fs2 = self.apply_fields(fs);
                match row {
                    Row::Open(x) => {
                        match self.row_subst.get(x) {
                            Some(entry) => {
                                proof {
                                    assert(self.rsub().contains_key(*x));
                                    assert(self.rsub()[*x] == (fvs(entry.0@), entry.1));
                                }
                                let more = crate::ast::duplicate_fields(&entry.0);
                                let merged = merge_field_lists(fs2, &more);
                                Type::Record(merged, entry.1)
                            },
                            None => {
                                proof {
                                    assert(!self.rsub().contains_key(*x));
                                }
                                Type::Record(fs2, *row)
                            },
                        }
                    },
                    Row::Closed => Type::Record(fs2, *row),
                }
            },
        }
    }

    fn apply_all(&self, ts: &Vec<Type>) -> (r: Vec<Type>)
        ensures
            tvs(r@) == app_seq(self.tsub(), self.rsub(), tvs(ts@)),
        decreases ts,
    {
        let mut out: Vec<Type> = Vec::new();
        let mut i: usize = 0;
        proof {
            lemma_tvs(ts@);
        }
        while i < ts.len()
            invariant
                i <= ts@.len(),
                tvs(ts@).len() == ts@.len(),
                forall|k: int| 0 <= k < ts@.len() ==> #[trigger] tvs(ts@)[k] == tv(ts@[k]),
                tvs(out@) == app_seq(self.tsub(), self.rsub(), tvs(ts@).subrange(0, i as int)),
            decreases ts.len() - i,
        {
            proof {
                assert(decreases_to!(ts => ts[i as int]));
            }
            let x = self.apply(&ts[i]);
            let ghost before = out@;
            out.push(x);
            proof {
                crate::ast::lemma_tvs_push(before, x);
                let nxt = tvs(ts@).subrange(0, i + 1);
                assert(nxt.drop_last() =~= tvs(ts@).subrange(0, i as int));
            }
            i = i + 1;
        }
        proof {
            assert(tvs(ts@).subrange(0, i as int) =~= tvs(ts@));
        }
        out
    }

    pub(crate) fn apply_fields(&self, fs: &Vec<(String, Type)>) -> (r: Vec<(String, Type)>)
        ensures
            fvs(r@) == app_fields(self.tsub(), self.rsub(), fvs(fs@)),
        decreases fs,
    {
        let mut out: Vec<(String, Type)> = Vec::new();
        let mut i: usize = 0;
        proof {
            lemma_fvs(fs@);
        }
        while i < fs.len()
            invariant
                i <= fs@.len(),
                fvs(fs@).len() == fs@.len(),
                forall|k: int| 0 <= k < fs@.len() ==> #[trigger] fvs(fs@)[k] == (fs@[k].0@, tv(fs@[k].1)),
                fvs(out@) == app_fields(self.tsub(), self.rsub(), fvs(fs@).subrange(0, i as int)),
            decreases fs.len() - i,
        {
            proof {
                assert(decreases_to!(fs => fs[i as int]));
                assert(decreases_to!(fs[i as int] => fs[i as int].1));
            }
            let x = self.apply(&fs[i].1);
            let f = (fs[i].0.clone(), x);
            let ghost before = out@;
            out.push(f);
            proof {
                crate::ast::lemma_fvs_push(before, f);
                let nxt = fvs(fs@).subrange(0, i + 1);
                assert(nxt.drop_last() =~= fvs(fs@).subrange(0, i as int));
            }
            i = i + 1;
        }
        proof {
            assert(fvs(fs@).subrange(0, i as int) =~= fvs(fs@));
        }
        out
    }
}

// ---------------------------------------------------------------------------
// Sorted field lists.
// ---------------------------------------------------------------------------

/// Field names strictly increasing.
pub open spec fn fsorted(fs: Seq<(Seq<char>, TypeV)>) -> bool {
    forall|i: int, j: int| 0 <= i < j < fs.len() ==> seq_lt(#[trigger] fs[i].0, #[trigger] fs[j].0)
}

/// The type of field `k`, if present (the first occurrence).
pub open spec fn flookup(fs: Seq<(Seq<char>, TypeV)>, k: Seq<char>) -> Option<TypeV>
    decreases fs.len(),
{
    if fs.len() == 0 {
        None
    } else if fs[0].0 == k {
        Some(fs[0].1)
    } else {
        flookup(fs.drop_first(), k)
    }
}

pub proof fn lemma_fsorted_tail(fs: Seq<(Seq<char>, TypeV)>)
    requires
        fsorted(fs),
        fs.len() > 0,
    ensures
        fsorted(fs.drop_first()),
{
    assert forall|i: int, j: int| 0 <= i < j < fs.drop_first().len() implies seq_lt(#[trigger] fs.drop_first()[i].0, #[trigger] fs.drop_first()[j].0) by {
        assert(fs.drop_first()[i] == fs[i + 1]);
        assert(fs.drop_first()[j] == fs[j + 1]);
    }
}

/// A name below every name of a sorted list is not in it.
proof fn lemma_flookup_below(fs: Seq<(Seq<char>, TypeV)>, k: Seq<char>)
    requires
        fsorted(fs),
        fs.len() > 0 ==> seq_lt(k, fs[0].0),
    ensures
        flookup(fs, k) is None,
    decreases fs.len(),
{
    if fs.len() > 0 {
        lemma_seq_lt_irrefl(k);
        lemma_fsorted_tail(fs);
        if fs.len() > 1 {
            assert(seq_lt(fs[0].0, fs[1].0));
            lemma_seq_lt_trans(k, fs[0].0, fs[1].0);
            assert(fs.drop_first()[0] == fs[1]);
        }
        lemma_flookup_below(fs.drop_first(), k);
    }
}

/// Every field of a merge comes from one of the two lists.
proof fn lemma_merge_from(a: Seq<(Seq<char>, TypeV)>, b: Seq<(Seq<char>, TypeV)>)
    ensures
        forall|i: int| 0 <= i < merge_fields(a, b).len() ==> a.contains(#[trigger] merge_fields(a, b)[i]) || b.contains(merge_fields(a, b)[i]),
    decreases a.len() + b.len(),
{
    let m = merge_fields(a, b);
    if a.len() == 0 || b.len() == 0 {
        assert forall|i: int| 0 <= i < m.len() implies a.contains(#[trigger] m[i]) || b.contains(m[i]) by {
            if a.len() == 0 {
                assert(m[i] == b[i]);
            } else {
                assert(m[i] == a[i]);
            }
        }
    } else {
        let x = if a[0].0 == b[0].0 || seq_lt(a[0].0, b[0].0) {
            a[0]
        } else {
            b[0]
        };
        let (ra, rb) = if a[0].0 == b[0].0 {
            (a.drop_first(), b.drop_first())
        } else if seq_lt(a[0].0, b[0].0) {
            (a.drop_first(), b)
        } else {
            (a, b.drop_first())
        };
        lemma_merge_from(ra, rb);
        let rest = merge_fields(ra, rb);
        assert(m == seq![x] + rest);
        assert forall|i: int| 0 <= i < m.len() implies a.contains(#[trigger] m[i]) || b.contains(m[i]) by {
            if i == 0 {
                assert(m[0] == x);
                if x == a[0] {
                    assert(a.contains(a[0]));
                } else {
                    assert(b.contains(b[0]));
                }
            } else {
                assert(m[i] == rest[i - 1]);
                let y = rest[i - 1];
                if ra.contains(y) {
                    let q = choose|q: int| 0 <= q < ra.len() && ra[q] == y;
                    if ra == a {
                        assert(a.contains(y));
                    } else {
                        assert(ra[q] == a[q + 1]);
                        assert(a.contains(y));
                    }
                } else {
                    let q = choose|q: int| 0 <= q < rb.len() && rb[q] == y;
                    if rb == b {
                        assert(b.contains(y));
                    } else {
                        assert(rb[q] == b[q + 1]);
                        assert(b.contains(y));
                    }
                }
            }
        }
    }
}

/// A key above both lists' first keys is above everything their merge holds.
proof fn lemma_sorted_min(fs: Seq<(Seq<char>, TypeV)>, k: Seq<char>, j: int)
    requires
        fsorted(fs),
        0 <= j < fs.len(),
        seq_lt(k, fs[0].0) || k == fs[0].0,
        j > 0 || seq_lt(k, fs[0].0),
    ensures
        seq_lt(k, fs[j].0),
{
    if j > 0 {
        assert(seq_lt(fs[0].0, fs[j].0));
        if k != fs[0].0 {
            lemma_seq_lt_trans(k, fs[0].0, fs[j].0);
        }
    }
}

/// Merging sorted lists gives a sorted list, in which a field has the type
/// the first list gives it, else the type the second gives it.
pub proof fn lemma_merge_sorted(a: Seq<(Seq<char>, TypeV)>, b: Seq<(Seq<char>, TypeV)>)
    requires
        fsorted(a),
        fsorted(b),
    ensures
        fsorted(merge_fields(a, b)),
        forall|k: Seq<char>| #[trigger] flookup(merge_fields(a, b), k) == if flookup(a, k) is Some {
            flookup(a, k)
        } else {
            flookup(b, k)
        },
    decreases a.len() + b.len(),
{
    let m = merge_fields(a, b);
    if a.len() == 0 {
        assert forall|k: Seq<char>| #[trigger] flookup(m, k) == if flookup(a, k) is Some {
            flookup(a, k)
        } else {
            flookup(b, k)
        } by {}
    } else if b.len() == 0 {
        assert forall|k: Seq<char>| #[trigger] flookup(m, k) == if flookup(a, k) is Some {
            flookup(a, k)
        } else {
            flookup(b, k)
        } by {}
    } else {
        lemma_fsorted_tail(a);
        lemma_fsorted_tail(b);
        let x = if a[0].0 == b[0].0 || seq_lt(a[0].0, b[0].0) {
            a[0]
        } else {
            b[0]
        };
        let (ra, rb) = if a[0].0 == b[0].0 {
            (a.drop_first(), b.drop_first())
        } else if seq_lt(a[0].0, b[0].0) {
            (a.drop_first(), b)
        } else {
            (a, b.drop_first())
        };
        lemma_merge_sorted(ra, rb);
        lemma_merge_from(ra, rb);
        let rest = merge_fields(ra, rb);
        assert(m == seq![x] + rest);
        lemma_seq_lt_total(a[0].0, b[0].0);
        // everything in `ra` and `rb` sorts after `x`
        assert forall|j: int| 0 <= j < ra.len() implies seq_lt(x.0, #[trigger] ra[j].0) by {
            if a[0].0 == b[0].0 || seq_lt(a[0].0, b[0].0) {
                assert(ra[j] == a[j + 1]);
                assert(seq_lt(a[0].0, a[j + 1].0));
            } else {
                lemma_sorted_min(a, x.0, j);
            }
        }
        assert forall|j: int| 0 <= j < rb.len() implies seq_lt(x.0, #[trigger] rb[j].0) by {
            if a[0].0 == b[0].0 {
                assert(rb[j] == b[j + 1]);
                assert(seq_lt(b[0].0, b[j + 1].0));
            } else if seq_lt(a[0].0, b[0].0) {
                lemma_sorted_min(b, x.0, j);
            } else {
                assert(rb[j] == b[j + 1]);
                assert(seq_lt(b[0].0, b[j + 1].0));
            }
        }
        assert forall|i: int, j: int| 0 <= i < j < m.len() implies seq_lt(#[trigger] m[i].0, #[trigger] m[j].0) by {
            if i == 0 {
                assert(m[j] == rest[j - 1]);
                let y = rest[j - 1];
                if ra.contains(y) {
                    let q = choose|q: int| 0 <= q < ra.len() && ra[q] == y;
                    assert(seq_lt(x.0, ra[q].0));
                } else {
                    let q = choose|q: int| 0 <= q < rb.len() && rb[q] == y;
                    assert(seq_lt(x.0, rb[q].0));
                }
            } else {
                assert(m[i] == rest[i - 1]);
                assert(m[j] == rest[j - 1]);
            }
        }
        assert forall|k: Seq<char>| #[trigger] flookup(m, k) == if flookup(a, k) is Some {
            flookup(a, k)
        } else {
            flookup(b, k)
        } by {
            assert(m.drop_first() =~= rest);
            assert(m[0] == x);
            assert(flookup(m, k) == if x.0 == k { Some(x.1) } else { flookup(rest, k) });
            assert(flookup(a, k) == if a[0].0 == k { Some(a[0].1) } else { flookup(a.drop_first(), k) });
            assert(flookup(b, k) == if b[0].0 == k { Some(b[0].1) } else { flookup(b.drop_first(), k) });
            assert(flookup(rest, k) == if flookup(ra, k) is Some { flookup(ra, k) } else { flookup(rb, k) });
            if a[0].0 == b[0].0 {
            } else if seq_lt(a[0].0, b[0].0) {
                if b[0].0 == k {
                    lemma_seq_lt_irrefl(k);
                }
            } else {
                if b[0].0 == k {
                    lemma_flookup_below(a, k);
                }
            }
        }
    }
}

/// Two sorted lists giving every name the same type are the same list.
pub proof fn lemma_fsorted_ext(x: Seq<(Seq<char>, TypeV)>, y: Seq<(Seq<char>, TypeV)>)
    requires
        fsorted(x),
        fsorted(y),
        forall|k: Seq<char>| #[trigger] flookup(x, k) == flookup(y, k),
    ensures
        x == y,
    decreases x.len(),
{
    if x.len() == 0 {
        if y.len() > 0 {
            assert(flookup(y, y[0].0) is Some);
            assert(flookup(x, y[0].0) is None);
        }
        assert(x =~= y);
    } else {
        if y.len() == 0 {
            assert(flookup(x, x[0].0) is Some);
        }
        lemma_fsorted_tail(x);
        lemma_fsorted_tail(y);
        lemma_seq_lt_total(x[0].0, y[0].0);
        if x[0].0 != y[0].0 {
            if seq_lt(x[0].0, y[0].0) {
                lemma_flookup_below(y, x[0].0);
                assert(flookup(x, x[0].0) is Some);
            } else {
                lemma_flookup_below(x, y[0].0);
                assert(flookup(y, y[0].0) is Some);
            }
        }
        assert(flookup(x, x[0].0) == Some(x[0].1));
        assert(x[0] == y[0]);
        assert forall|k: Seq<char>| #[trigger] flookup(x.drop_first(), k) == flookup(y.drop_first(), k) by {
            if k == x[0].0 {
                if x.len() > 1 {
                    assert(x.drop_first()[0] == x[1]);
                    assert(seq_lt(x[0].0, x[1].0));
                }
                if y.len() > 1 {
                    assert(y.drop_first()[0] == y[1]);
                    assert(seq_lt(y[0].0, y[1].0));
                }
                lemma_flookup_below(x.drop_first(), k);
                lemma_flookup_below(y.drop_first(), k);
            } else {
                assert(flookup(x, k) == flookup(x.drop_first(), k));
                assert(flookup(y, k) == flookup(y.drop_first(), k));
            }
        }
        lemma_fsorted_ext(x.drop_first(), y.drop_first());
        assert(x =~= seq![x[0]] + x.drop_first());
        assert(y =~= seq![y[0]] + y.drop_first());
    }
}

/// Merging sorted field lists is associative.
pub proof fn lemma_merge_assoc(a: Seq<(Seq<char>, TypeV)>, b: Seq<(Seq<char>, TypeV)>, c: Seq<(Seq<char>, TypeV)>)
    requires
        fsorted(a),
        fsorted(b),
        fsorted(c),
    ensures
        merge_fields(merge_fields(a, b), c) == merge_fields(a, merge_fields(b, c)),
{
    lemma_merge_sorted(a, b);
    lemma_merge_sorted(b, c);
    lemma_merge_sorted(merge_fields(a, b), c);
    lemma_merge_sorted(a, merge_fields(b, c));
    assert forall|k: Seq<char>| #[trigger] flookup(merge_fields(merge_fields(a, b), c), k) == flookup(merge_fields(a, merge_fields(b, c)), k) by {
        assert(flookup(merge_fields(a, b), k) == if flookup(a, k) is Some { flookup(a, k) } else { flookup(b, k) });
        assert(flookup(merge_fields(b, c), k) == if flookup(b, k) is Some { flookup(b, k) } else { flookup(c, k) });
    }
    lemma_fsorted_ext(merge_fields(merge_fields(a, b), c), merge_fields(a, merge_fields(b, c)));
}

// ---------------------------------------------------------------------------
// Replacing one variable, and well-formed types.
// ---------------------------------------------------------------------------

/// A type with type variable `v` replaced by `b`.
pub open spec fn substv(t: TypeV, v: u32, b: TypeV) -> TypeV
    decreases t,
{
    match t {
        TypeV::Var(u, _) => if u == v {
            b
        } else {
            t
        },
        TypeV::Rigid(_) => t,
        TypeV::Con(n, args) => TypeV::Con(n, substv_seq(args, v, b)),
        TypeV::Fun(x, y) => TypeV::Fun(Box::new(substv(*x, v, b)), Box::new(substv(*y, v, b))),
        TypeV::Record(fs, row) => TypeV::Record(substv_fields(fs, v, b), row),
        TypeV::Tuple(es) => TypeV::Tuple(substv_seq(es, v, b)),
    }
}

pub open spec fn substv_seq(s: Seq<TypeV>, v: u32, b: TypeV) -> Seq<TypeV>
    decreases s,
{
    if s.len() == 0 {
        Seq::empty()
    } else {
        substv_seq(s.drop_last(), v, b).push(substv(s.last(), v, b))
    }
}

pub open spec fn substv_fields(s: Seq<(Seq<char>, TypeV)>, v: u32, b: TypeV) -> Seq<(Seq<char>, TypeV)>
    decreases s,
{
    if s.len() == 0 {
        Seq::empty()
    } else {
        substv_fields(s.drop_last(), v, b).push((s.last().0, substv(s.last().1, v, b)))
    }
}

/// Every record in the type lists its fields in name order.
pub open spec fn wf_ty(t: TypeV) -> bool
    decreases t,
{
    match t {
        TypeV::Con(_, args) => wf_seq(args),
        TypeV::Fun(x, y) => wf_ty(*x) && wf_ty(*y),
        TypeV::Record(fs, _) => fsorted(fs) && wf_fields(fs),
        TypeV::Tuple(es) => wf_seq(es),
        _ => true,
    }
}

pub open spec fn wf_seq(s: Seq<TypeV>) -> bool
    decreases s,
{
    s.len() == 0 || (wf_seq(s.drop_last()) && wf_ty(s.last()))
}

pub open spec fn wf_fields(s: Seq<(Seq<char>, TypeV)>) -> bool
    decreases s,
{
    s.len() == 0 || (wf_fields(s.drop_last()) && wf_ty(s.last().1))
}

pub proof fn lemma_substv_fields_keys(s: Seq<(Seq<char>, TypeV)>, v: u32, b: TypeV)
    ensures
        substv_fields(s, v, b).len() == s.len(),
        forall|i: int| 0 <= i < s.len() ==> #[trigger] substv_fields(s, v, b)[i] == (s[i].0, substv(s[i].1, v, b)),
    decreases s.len(),
{
    if s.len() > 0 {
        lemma_substv_fields_keys(s.drop_last(), v, b);
    }
}

/// Replacing a variable's values commutes with merging field lists.
proof fn lemma_substv_merge(a: Seq<(Seq<char>, TypeV)>, c: Seq<(Seq<char>, TypeV)>, v: u32, b: TypeV)
    ensures
        substv_fields(merge_fields(a, c), v, b) == merge_fields(substv_fields(a, v, b), substv_fields(c, v, b)),
    decreases a.len() + c.len(),
{
    lemma_substv_fields_keys(a, v, b);
    lemma_substv_fields_keys(c, v, b);
    let a2 = substv_fields(a, v, b);
    let c2 = substv_fields(c, v, b);
    let m = merge_fields(a, c);
    lemma_substv_fields_keys(m, v, b);
    if a.len() == 0 {
        assert(a2 =~= Seq::<(Seq<char>, TypeV)>::empty());
    } else if c.len() == 0 {
        assert(c2 =~= Seq::<(Seq<char>, TypeV)>::empty());
    } else {
        let (ra, rc) = if a[0].0 == c[0].0 {
            (a.drop_first(), c.drop_first())
        } else if seq_lt(a[0].0, c[0].0) {
            (a.drop_first(), c)
        } else {
            (a, c.drop_first())
        };
        lemma_substv_merge(ra, rc, v, b);
        lemma_substv_fields_keys(ra, v, b);
        lemma_substv_fields_keys(rc, v, b);
        assert(a2.drop_first() =~= substv_fields(a.drop_first(), v, b)) by {
            lemma_substv_fields_keys(a.drop_first(), v, b);
        }
        assert(c2.drop_first() =~= substv_fields(c.drop_first(), v, b)) by {
            lemma_substv_fields_keys(c.drop_first(), v, b);
        }
        let rest = merge_fields(ra, rc);
        lemma_substv_fields_keys(rest, v, b);
        assert(substv_fields(m, v, b) =~= merge_fields(a2, c2));
    }
}

/// Replacing one type variable by a type: each binding gets it replaced, and
/// the variable itself is bound to the type.
pub open spec fn compose_tsub(s: TSub, v: u32, b: TypeV) -> TSub {
    s.map_values(|t: TypeV| substv(t, v, b)).insert(v, b)
}

pub open spec fn compose_rsub_v(r: RSub, v: u32, b: TypeV) -> RSub {
    r.map_values(|e: (Seq<(Seq<char>, TypeV)>, Row)| (substv_fields(e.0, v, b), e.1))
}

/// Applying the substitutions after binding `v` to `b` is applying them
/// before, then replacing `v` by `b`.
pub proof fn lemma_compose_v(s: TSub, r: RSub, v: u32, b: TypeV, y: TypeV)
    requires
        !s.contains_key(v),
    ensures
        app(compose_tsub(s, v, b), compose_rsub_v(r, v, b), y) == substv(app(s, r, y), v, b),
    decreases y,
{
    let s2 = compose_tsub(s, v, b);
    let r2 = compose_rsub_v(r, v, b);
    match y {
        TypeV::Var(u, c) => {
            if u == v {
            } else if s.contains_key(u) {
                assert(s2[u] == substv(s[u], v, b));
            } else {
            }
        },
        TypeV::Rigid(_) => {},
        TypeV::Con(n, args) => {
            lemma_compose_v_seq(s, r, v, b, args);
        },
        TypeV::Fun(x, z) => {
            lemma_compose_v(s, r, v, b, *x);
            lemma_compose_v(s, r, v, b, *z);
        },
        TypeV::Tuple(es) => {
            lemma_compose_v_seq(s, r, v, b, es);
        },
        TypeV::Record(fs, row) => {
            lemma_compose_v_fields(s, r, v, b, fs);
            let a = app_fields(s, r, fs);
            match row {
                Row::Open(x) => {
                    if r.contains_key(x) {
                        assert(r2[x] == (substv_fields(r[x].0, v, b), r[x].1));
                        lemma_substv_merge(a, r[x].0, v, b);
                    }
                },
                Row::Closed => {},
            }
        },
    }
}

proof fn lemma_compose_v_seq(s: TSub, r: RSub, v: u32, b: TypeV, ys: Seq<TypeV>)
    requires
        !s.contains_key(v),
    ensures
        app_seq(compose_tsub(s, v, b), compose_rsub_v(r, v, b), ys) == substv_seq(app_seq(s, r, ys), v, b),
    decreases ys,
{
    if ys.len() > 0 {
        lemma_compose_v_seq(s, r, v, b, ys.drop_last());
        lemma_compose_v(s, r, v, b, ys.last());
        let a = app_seq(s, r, ys);
        assert(a.drop_last() =~= app_seq(s, r, ys.drop_last()));
    }
}

proof fn lemma_compose_v_fields(s: TSub, r: RSub, v: u32, b: TypeV, fs: Seq<(Seq<char>, TypeV)>)
    requires
        !s.contains_key(v),
    ensures
        app_fields(compose_tsub(s, v, b), compose_rsub_v(r, v, b), fs) == substv_fields(app_fields(s, r, fs), v, b),
    decreases fs,
{
    if fs.len() > 0 {
        lemma_compose_v_fields(s, r, v, b, fs.drop_last());
        lemma_compose_v(s, r, v, b, fs.last().1);
        let a = app_fields(s, r, fs);
        assert(a.drop_last() =~= app_fields(s, r, fs.drop_last()));
    }
}

/// A type with every record whose tail is row variable `x` given the extra
/// fields `more` (its own fields winning) and the tail `tail`.
pub open spec fn substr(t: TypeV, x: u32, more: Seq<(Seq<char>, TypeV)>, tail: Row) -> TypeV
    decreases t,
{
    match t {
        TypeV::Var(_, _) => t,
        TypeV::Rigid(_) => t,
        TypeV::Con(n, args) => TypeV::Con(n, substr_seq(args, x, more, tail)),
        TypeV::Fun(p, q) => TypeV::Fun(Box::new(substr(*p, x, more, tail)), Box::new(substr(*q, x, more, tail))),
        TypeV::Record(fs, row) => {
            let fs2 = substr_fields(fs, x, more, tail);
            if row == Row::Open(x) {
                TypeV::Record(merge_fields(fs2, more), tail)
            } else {
                TypeV::Record(fs2, row)
            }
        },
        TypeV::Tuple(es) => TypeV::Tuple(substr_seq(es, x, more, tail)),
    }
}

pub open spec fn substr_seq(s: Seq<TypeV>, x: u32, more: Seq<(Seq<char>, TypeV)>, tail: Row) -> Seq<TypeV>
    decreases s,
{
    if s.len() == 0 {
        Seq::empty()
    } else {
        substr_seq(s.drop_last(), x, more, tail).push(substr(s.last(), x, more, tail))
    }
}

pub open spec fn substr_fields(s: Seq<(Seq<char>, TypeV)>, x: u32, more: Seq<(Seq<char>, TypeV)>, tail: Row) -> Seq<(Seq<char>, TypeV)>
    decreases s,
{
    if s.len() == 0 {
        Seq::empty()
    } else {
        substr_fields(s.drop_last(), x, more, tail).push((s.last().0, substr(s.last().1, x, more, tail)))
    }
}

pub proof fn lemma_substr_fields_keys(s: Seq<(Seq<char>, TypeV)>, x: u32, more: Seq<(Seq<char>, TypeV)>, tail: Row)
    ensures
        substr_fields(s, x, more, tail).len() == s.len(),
        forall|i: int| 0 <= i < s.len() ==> #[trigger] substr_fields(s, x, more, tail)[i] == (s[i].0, substr(s[i].1, x, more, tail)),
    decreases s.len(),
{
    if s.len() > 0 {
        lemma_substr_fields_keys(s.drop_last(), x, more, tail);
    }
}

pub proof fn lemma_substr_merge(a: Seq<(Seq<char>, TypeV)>, c: Seq<(Seq<char>, TypeV)>, x: u32, more: Seq<(Seq<char>, TypeV)>, tail: Row)
    ensures
        substr_fields(merge_fields(a, c), x, more, tail) == merge_fields(substr_fields(a, x, more, tail), substr_fields(c, x, more, tail)),
    decreases a.len() + c.len(),
{
    lemma_substr_fields_keys(a, x, more, tail);
    lemma_substr_fields_keys(c, x, more, tail);
    let a2 = substr_fields(a, x, more, tail);
    let c2 = substr_fields(c, x, more, tail);
    let m = merge_fields(a, c);
    lemma_substr_fields_keys(m, x, more, tail);
    if a.len() == 0 {
        assert(a2 =~= Seq::<(Seq<char>, TypeV)>::empty());
    } else if c.len() == 0 {
        assert(c2 =~= Seq::<(Seq<char>, TypeV)>::empty());
    } else {
        let (ra, rc) = if a[0].0 == c[0].0 {
            (a.drop_first(), c.drop_first())
        } else if seq_lt(a[0].0, c[0].0) {
            (a.drop_first(), c)
        } else {
            (a, c.drop_first())
        };
        lemma_substr_merge(ra, rc, x, more, tail);
        lemma_substr_fields_keys(ra, x, more, tail);
        lemma_substr_fields_keys(rc, x, more, tail);
        assert(a2.drop_first() =~= substr_fields(a.drop_first(), x, more, tail)) by {
            lemma_substr_fields_keys(a.drop_first(), x, more, tail);
        }
        assert(c2.drop_first() =~= substr_fields(c.drop_first(), x, more, tail)) by {
            lemma_substr_fields_keys(c.drop_first(), x, more, tail);
        }
        let rest = merge_fields(ra, rc);
        lemma_substr_fields_keys(rest, x, more, tail);
        assert(substr_fields(m, x, more, tail) =~= merge_fields(a2, c2));
    }
}

/// A row binding entry after row variable `x` gets bound.
pub open spec fn substr_entry(e: (Seq<(Seq<char>, TypeV)>, Row), x: u32, more: Seq<(Seq<char>, TypeV)>, tail: Row) -> (Seq<(Seq<char>, TypeV)>, Row) {
    let f2 = substr_fields(e.0, x, more, tail);
    if e.1 == Row::Open(x) {
        (merge_fields(f2, more), tail)
    } else {
        (f2, e.1)
    }
}

pub open spec fn compose_tsub_r(s: TSub, x: u32, more: Seq<(Seq<char>, TypeV)>, tail: Row) -> TSub {
    s.map_values(|t: TypeV| substr(t, x, more, tail))
}

pub open spec fn compose_rsub(r: RSub, x: u32, more: Seq<(Seq<char>, TypeV)>, tail: Row) -> RSub {
    r.map_values(|e: (Seq<(Seq<char>, TypeV)>, Row)| substr_entry(e, x, more, tail)).insert(x, (more, tail))
}

pub proof fn lemma_fsorted_same_keys(a: Seq<(Seq<char>, TypeV)>, b: Seq<(Seq<char>, TypeV)>)
    requires
        fsorted(a),
        a.len() == b.len(),
        forall|i: int| 0 <= i < a.len() ==> (#[trigger] b[i]).0 == a[i].0,
    ensures
        fsorted(b),
{
    assert forall|i: int, j: int| 0 <= i < j < b.len() implies seq_lt(#[trigger] b[i].0, #[trigger] b[j].0) by {
        assert(seq_lt(a[i].0, a[j].0));
    }
}

/// Applying the substitutions after binding row variable `x` is applying
/// them before, then giving every record with tail `x` its new fields.
pub proof fn lemma_compose_r(s: TSub, r: RSub, x: u32, more: Seq<(Seq<char>, TypeV)>, tail: Row, y: TypeV)
    requires
        !r.contains_key(x),
        fsorted(more),
        forall|z: u32| #[trigger] r.contains_key(z) ==> fsorted(r[z].0),
        wf_ty(y),
    ensures
        app(compose_tsub_r(s, x, more, tail), compose_rsub(r, x, more, tail), y) == substr(app(s, r, y), x, more, tail),
    decreases y,
{
    let s2 = compose_tsub_r(s, x, more, tail);
    let r2 = compose_rsub(r, x, more, tail);
    match y {
        TypeV::Var(u, c) => {
            if s.contains_key(u) {
                assert(s2[u] == substr(s[u], x, more, tail));
            }
        },
        TypeV::Rigid(_) => {},
        TypeV::Con(n, args) => {
            lemma_compose_r_seq(s, r, x, more, tail, args);
        },
        TypeV::Fun(p, q) => {
            lemma_compose_r(s, r, x, more, tail, *p);
            lemma_compose_r(s, r, x, more, tail, *q);
        },
        TypeV::Tuple(es) => {
            lemma_compose_r_seq(s, r, x, more, tail, es);
        },
        TypeV::Record(fs, row) => {
            lemma_compose_r_fields(s, r, x, more, tail, fs);
            let a = app_fields(s, r, fs);
            lemma_app_fields(s, r, fs);
            lemma_fsorted_same_keys(fs, a);
            lemma_substr_fields_keys(a, x, more, tail);
            let a2 = substr_fields(a, x, more, tail);
            lemma_fsorted_same_keys(a, a2);
            match row {
                Row::Open(z) => {
                    if r.contains_key(z) {
                        let b = r[z].0;
                        lemma_substr_merge(a, b, x, more, tail);
                        lemma_substr_fields_keys(b, x, more, tail);
                        let b2 = substr_fields(b, x, more, tail);
                        lemma_fsorted_same_keys(b, b2);
                        assert(r2[z] == substr_entry(r[z], x, more, tail));
                        if r[z].1 == Row::Open(x) {
                            lemma_merge_assoc(a2, b2, more);
                        }
                    } else if z == x {
                        assert(r2[x] == (more, tail));
                    }
                },
                Row::Closed => {},
            }
        },
    }
}

proof fn lemma_compose_r_seq(s: TSub, r: RSub, x: u32, more: Seq<(Seq<char>, TypeV)>, tail: Row, ys: Seq<TypeV>)
    requires
        !r.contains_key(x),
        fsorted(more),
        forall|z: u32| #[trigger] r.contains_key(z) ==> fsorted(r[z].0),
        wf_seq(ys),
    ensures
        app_seq(compose_tsub_r(s, x, more, tail), compose_rsub(r, x, more, tail), ys) == substr_seq(app_seq(s, r, ys), x, more, tail),
    decreases ys,
{
    if ys.len() > 0 {
        lemma_compose_r_seq(s, r, x, more, tail, ys.drop_last());
        lemma_compose_r(s, r, x, more, tail, ys.last());
        let a = app_seq(s, r, ys);
        assert(a.drop_last() =~= app_seq(s, r, ys.drop_last()));
    }
}

proof fn lemma_compose_r_fields(s: TSub, r: RSub, x: u32, more: Seq<(Seq<char>, TypeV)>, tail: Row, fs: Seq<(Seq<char>, TypeV)>)
    requires
        !r.contains_key(x),
        fsorted(more),
        forall|z: u32| #[trigger] r.contains_key(z) ==> fsorted(r[z].0),
        wf_fields(fs),
    ensures
        app_fields(compose_tsub_r(s, x, more, tail), compose_rsub(r, x, more, tail), fs) == substr_fields(app_fields(s, r, fs), x, more, tail),
    decreases fs,
{
    if fs.len() > 0 {
        lemma_compose_r_fields(s, r, x, more, tail, fs.drop_last());
        lemma_compose_r(s, r, x, more, tail, fs.last().1);
        let a = app_fields(s, r, fs);
        assert(a.drop_last() =~= app_fields(s, r, fs.drop_last()));
    }
}

// ---------------------------------------------------------------------------
// Facts about variables.
// ---------------------------------------------------------------------------

pub proof fn lemma_vars_finite(t: TypeV)
    ensures
        tvars(t).finite(),
        rvars(t).finite(),
    decreases t,
{
    match t {
        TypeV::Con(_, args) => lemma_vars_finite_seq(args),
        TypeV::Fun(a, b) => {
            lemma_vars_finite(*a);
            lemma_vars_finite(*b);
        },
        TypeV::Record(fs, _) => lemma_vars_finite_fields(fs),
        TypeV::Tuple(es) => lemma_vars_finite_seq(es),
        _ => {},
    }
}

pub proof fn lemma_vars_finite_seq(s: Seq<TypeV>)
    ensures
        tvars_seq(s).finite(),
        rvars_seq(s).finite(),
    decreases s,
{
    if s.len() > 0 {
        lemma_vars_finite_seq(s.drop_last());
        lemma_vars_finite(s.last());
    }
}

pub proof fn lemma_vars_finite_fields(s: Seq<(Seq<char>, TypeV)>)
    ensures
        tvars_fields(s).finite(),
        rvars_fields(s).finite(),
    decreases s,
{
    if s.len() > 0 {
        lemma_vars_finite_fields(s.drop_last());
        lemma_vars_finite(s.last().1);
    }
}

/// A variable of a field list is a variable of one of its fields.
proof fn lemma_fields_vars(s: Seq<(Seq<char>, TypeV)>)
    ensures
        forall|x: u32| tvars_fields(s).contains(x) <==> exists|i: int| 0 <= i < s.len() && #[trigger] tvars(s[i].1).contains(x),
        forall|x: u32| rvars_fields(s).contains(x) <==> exists|i: int| 0 <= i < s.len() && #[trigger] rvars(s[i].1).contains(x),
    decreases s.len(),
{
    if s.len() > 0 {
        lemma_fields_vars(s.drop_last());
        assert(tvars_fields(s) == tvars_fields(s.drop_last()).union(tvars(s.last().1)));
        assert(rvars_fields(s) == rvars_fields(s.drop_last()).union(rvars(s.last().1)));
        assert(s.last() == s[s.len() - 1]);
        assert forall|x: u32| tvars_fields(s).contains(x) <==> exists|i: int| 0 <= i < s.len() && #[trigger] tvars(s[i].1).contains(x) by {
            if tvars_fields(s.drop_last()).contains(x) {
                let i = choose|i: int| 0 <= i < s.drop_last().len() && #[trigger] tvars(s.drop_last()[i].1).contains(x);
                assert(s[i] == s.drop_last()[i]);
            }
            if exists|i: int| 0 <= i < s.len() && #[trigger] tvars(s[i].1).contains(x) {
                let i = choose|i: int| 0 <= i < s.len() && #[trigger] tvars(s[i].1).contains(x);
                if i < s.len() - 1 {
                    assert(s.drop_last()[i] == s[i]);
                }
            }
        }
        assert forall|x: u32| rvars_fields(s).contains(x) <==> exists|i: int| 0 <= i < s.len() && #[trigger] rvars(s[i].1).contains(x) by {
            if rvars_fields(s.drop_last()).contains(x) {
                let i = choose|i: int| 0 <= i < s.drop_last().len() && #[trigger] rvars(s.drop_last()[i].1).contains(x);
                assert(s[i] == s.drop_last()[i]);
            }
            if exists|i: int| 0 <= i < s.len() && #[trigger] rvars(s[i].1).contains(x) {
                let i = choose|i: int| 0 <= i < s.len() && #[trigger] rvars(s[i].1).contains(x);
                if i < s.len() - 1 {
                    assert(s.drop_last()[i] == s[i]);
                }
            }
        }
    }
}

/// The variables of a merge come from the merged lists.
proof fn lemma_merge_vars(a: Seq<(Seq<char>, TypeV)>, b: Seq<(Seq<char>, TypeV)>)
    ensures
        tvars_fields(merge_fields(a, b)).subset_of(tvars_fields(a).union(tvars_fields(b))),
        rvars_fields(merge_fields(a, b)).subset_of(rvars_fields(a).union(rvars_fields(b))),
{
    let m = merge_fields(a, b);
    lemma_merge_from(a, b);
    lemma_fields_vars(a);
    lemma_fields_vars(b);
    lemma_fields_vars(m);
    assert forall|x: u32| tvars_fields(m).contains(x) implies tvars_fields(a).union(tvars_fields(b)).contains(x) by {
        let i = choose|i: int| 0 <= i < m.len() && #[trigger] tvars(m[i].1).contains(x);
        if a.contains(m[i]) {
            let j = choose|j: int| 0 <= j < a.len() && a[j] == m[i];
            assert(tvars(a[j].1).contains(x));
        } else {
            let j = choose|j: int| 0 <= j < b.len() && b[j] == m[i];
            assert(tvars(b[j].1).contains(x));
        }
    }
    assert forall|x: u32| rvars_fields(m).contains(x) implies rvars_fields(a).union(rvars_fields(b)).contains(x) by {
        let i = choose|i: int| 0 <= i < m.len() && #[trigger] rvars(m[i].1).contains(x);
        if a.contains(m[i]) {
            let j = choose|j: int| 0 <= j < a.len() && a[j] == m[i];
            assert(rvars(a[j].1).contains(x));
        } else {
            let j = choose|j: int| 0 <= j < b.len() && b[j] == m[i];
            assert(rvars(b[j].1).contains(x));
        }
    }
}

/// Replacing `v` by `b` removes `v` and adds at most the variables of `b`;
/// it changes nothing when `v` does not occur.
pub proof fn lemma_substv_vars(t: TypeV, v: u32, b: TypeV)
    ensures
        tvars(substv(t, v, b)).subset_of(tvars(t).remove(v).union(tvars(b))),
        rvars(substv(t, v, b)).subset_of(rvars(t).union(rvars(b))),
        !tvars(t).contains(v) ==> substv(t, v, b) == t,
    decreases t,
{
    match t {
        TypeV::Con(_, args) => lemma_substv_vars_seq(args, v, b),
        TypeV::Fun(p, q) => {
            lemma_substv_vars(*p, v, b);
            lemma_substv_vars(*q, v, b);
        },
        TypeV::Record(fs, _) => lemma_substv_vars_fields(fs, v, b),
        TypeV::Tuple(es) => lemma_substv_vars_seq(es, v, b),
        _ => {},
    }
}

proof fn lemma_substv_vars_seq(s: Seq<TypeV>, v: u32, b: TypeV)
    ensures
        tvars_seq(substv_seq(s, v, b)).subset_of(tvars_seq(s).remove(v).union(tvars(b))),
        rvars_seq(substv_seq(s, v, b)).subset_of(rvars_seq(s).union(rvars(b))),
        !tvars_seq(s).contains(v) ==> substv_seq(s, v, b) == s,
    decreases s,
{
    if s.len() > 0 {
        let r = substv_seq(s, v, b);
        assert(r.drop_last() == substv_seq(s.drop_last(), v, b));
        assert(r.last() == substv(s.last(), v, b));
        assert(r.len() > 0);
        lemma_substv_vars_seq(s.drop_last(), v, b);
        lemma_substv_vars(s.last(), v, b);
        if !tvars_seq(s).contains(v) {
            assert(s =~= s.drop_last().push(s.last()));
        }
    } else {
        assert(substv_seq(s, v, b) =~= s);
    }
}

proof fn lemma_substv_vars_fields(s: Seq<(Seq<char>, TypeV)>, v: u32, b: TypeV)
    ensures
        tvars_fields(substv_fields(s, v, b)).subset_of(tvars_fields(s).remove(v).union(tvars(b))),
        rvars_fields(substv_fields(s, v, b)).subset_of(rvars_fields(s).union(rvars(b))),
        !tvars_fields(s).contains(v) ==> substv_fields(s, v, b) == s,
    decreases s,
{
    if s.len() > 0 {
        let r = substv_fields(s, v, b);
        assert(r.drop_last() == substv_fields(s.drop_last(), v, b));
        assert(r.last() == (s.last().0, substv(s.last().1, v, b)));
        assert(r.len() > 0);
        lemma_substv_vars_fields(s.drop_last(), v, b);
        lemma_substv_vars(s.last().1, v, b);
        if !tvars_fields(s).contains(v) {
            assert(s =~= s.drop_last().push(s.last()));
        }
    } else {
        assert(substv_fields(s, v, b) =~= s);
    }
}

/// Binding row `x` removes `x` and adds at most the variables of the new
/// fields and tail; it changes nothing when `x` does not occur.
pub proof fn lemma_substr_vars(t: TypeV, x: u32, more: Seq<(Seq<char>, TypeV)>, tail: Row)
    ensures
        tvars(substr(t, x, more, tail)).subset_of(tvars(t).union(tvars_fields(more))),
        rvars(substr(t, x, more, tail)).subset_of(rvars(t).remove(x).union(rvars_fields(more)).union(row_set(tail))),
        !rvars(t).contains(x) ==> substr(t, x, more, tail) == t,
    decreases t,
{
    match t {
        TypeV::Con(_, args) => lemma_substr_vars_seq(args, x, more, tail),
        TypeV::Fun(p, q) => {
            lemma_substr_vars(*p, x, more, tail);
            lemma_substr_vars(*q, x, more, tail);
        },
        TypeV::Record(fs, row) => {
            lemma_substr_vars_fields(fs, x, more, tail);
            let fs2 = substr_fields(fs, x, more, tail);
            lemma_merge_vars(fs2, more);
        },
        TypeV::Tuple(es) => lemma_substr_vars_seq(es, x, more, tail),
        _ => {},
    }
}

proof fn lemma_substr_vars_seq(s: Seq<TypeV>, x: u32, more: Seq<(Seq<char>, TypeV)>, tail: Row)
    ensures
        tvars_seq(substr_seq(s, x, more, tail)).subset_of(tvars_seq(s).union(tvars_fields(more))),
        rvars_seq(substr_seq(s, x, more, tail)).subset_of(rvars_seq(s).remove(x).union(rvars_fields(more)).union(row_set(tail))),
        !rvars_seq(s).contains(x) ==> substr_seq(s, x, more, tail) == s,
    decreases s,
{
    if s.len() > 0 {
        let r = substr_seq(s, x, more, tail);
        assert(r.drop_last() == substr_seq(s.drop_last(), x, more, tail));
        assert(r.last() == substr(s.last(), x, more, tail));
        assert(r.len() > 0);
        lemma_substr_vars_seq(s.drop_last(), x, more, tail);
        lemma_substr_vars(s.last(), x, more, tail);
        if !rvars_seq(s).contains(x) {
            assert(s =~= s.drop_last().push(s.last()));
        }
    } else {
        assert(substr_seq(s, x, more, tail) =~= s);
    }
}

proof fn lemma_substr_vars_fields(s: Seq<(Seq<char>, TypeV)>, x: u32, more: Seq<(Seq<char>, TypeV)>, tail: Row)
    ensures
        tvars_fields(substr_fields(s, x, more, tail)).subset_of(tvars_fields(s).union(tvars_fields(more))),
        rvars_fields(substr_fields(s, x, more, tail)).subset_of(rvars_fields(s).remove(x).union(rvars_fields(more)).union(row_set(tail))),
        !rvars_fields(s).contains(x) ==> substr_fields(s, x, more, tail) == s,
    decreases s,
{
    if s.len() > 0 {
        let r = substr_fields(s, x, more, tail);
        assert(r.drop_last() == substr_fields(s.drop_last(), x, more, tail));
        assert(r.last() == (s.last().0, substr(s.last().1, x, more, tail)));
        assert(r.len() > 0);
        lemma_substr_vars_fields(s.drop_last(), x, more, tail);
        lemma_substr_vars(s.last().1, x, more, tail);
        if !rvars_fields(s).contains(x) {
            assert(s =~= s.drop_last().push(s.last()));
        }
    } else {
        assert(substr_fields(s, x, more, tail) =~= s);
    }
}

// ---------------------------------------------------------------------------
// Applying an idempotent substitution.
// ---------------------------------------------------------------------------

pub proof fn lemma_wf_fields_iff(s: Seq<(Seq<char>, TypeV)>)
    ensures
        wf_fields(s) <==> forall|i: int| 0 <= i < s.len() ==> wf_ty(#[trigger] s[i].1),
    decreases s.len(),
{
    if s.len() > 0 {
        lemma_wf_fields_iff(s.drop_last());
        if wf_fields(s) {
            assert forall|i: int| 0 <= i < s.len() implies wf_ty(#[trigger] s[i].1) by {
                if i < s.len() - 1 {
                    assert(s.drop_last()[i] == s[i]);
                }
            }
        }
        if forall|i: int| 0 <= i < s.len() ==> wf_ty(#[trigger] s[i].1) {
            assert forall|i: int| 0 <= i < s.drop_last().len() implies wf_ty(#[trigger] s.drop_last()[i].1) by {
                assert(s.drop_last()[i] == s[i]);
            }
            assert(wf_ty(s[s.len() - 1].1));
        }
    }
}

pub proof fn lemma_wf_seq_iff(s: Seq<TypeV>)
    ensures
        wf_seq(s) <==> forall|i: int| 0 <= i < s.len() ==> wf_ty(#[trigger] s[i]),
    decreases s.len(),
{
    if s.len() > 0 {
        lemma_wf_seq_iff(s.drop_last());
        if wf_seq(s) {
            assert forall|i: int| 0 <= i < s.len() implies wf_ty(#[trigger] s[i]) by {
                if i < s.len() - 1 {
                    assert(s.drop_last()[i] == s[i]);
                }
            }
        }
        if forall|i: int| 0 <= i < s.len() ==> wf_ty(#[trigger] s[i]) {
            assert forall|i: int| 0 <= i < s.drop_last().len() implies wf_ty(#[trigger] s.drop_last()[i]) by {
                assert(s.drop_last()[i] == s[i]);
            }
            assert(wf_ty(s[s.len() - 1]));
        }
    }
}

proof fn lemma_merge_wf(a: Seq<(Seq<char>, TypeV)>, b: Seq<(Seq<char>, TypeV)>)
    requires
        wf_fields(a),
        wf_fields(b),
    ensures
        wf_fields(merge_fields(a, b)),
{
    let m = merge_fields(a, b);
    lemma_merge_from(a, b);
    lemma_wf_fields_iff(a);
    lemma_wf_fields_iff(b);
    lemma_wf_fields_iff(m);
    assert forall|i: int| 0 <= i < m.len() implies wf_ty(#[trigger] m[i].1) by {
        if a.contains(m[i]) {
            let j = choose|j: int| 0 <= j < a.len() && a[j] == m[i];
            assert(wf_ty(a[j].1));
        } else {
            let j = choose|j: int| 0 <= j < b.len() && b[j] == m[i];
            assert(wf_ty(b[j].1));
        }
    }
}

/// The substitutions are idempotent, every binding is well formed and made
/// of variables below `next`.
pub open spec fn sub_ok(s: TSub, r: RSub, next: u32) -> bool {
    &&& idempotent(s, r)
    &&& forall|v: u32| #[trigger] s.contains_key(v) ==> v < next && wf_ty(s[v]) && below(s[v], next)
    &&& forall|x: u32| #[trigger] r.contains_key(x) ==> {
        &&& x < next
        &&& fsorted(r[x].0)
        &&& wf_fields(r[x].0)
        &&& lt_all(tvars_fields(r[x].0), next)
        &&& lt_all(rvars_fields(r[x].0), next)
        &&& lt_all(row_set(r[x].1), next)
    }
}

/// Every variable in the set is below `n`.
pub open spec fn lt_all(a: Set<u32>, n: u32) -> bool {
    forall|y: u32| #[trigger] a.contains(y) ==> y < n
}

pub proof fn lemma_lt_all_union(a: Set<u32>, b: Set<u32>, n: u32)
    ensures
        lt_all(a.union(b), n) <==> (lt_all(a, n) && lt_all(b, n)),
{
    if lt_all(a.union(b), n) {
        assert forall|y: u32| #[trigger] a.contains(y) implies y < n by {
            assert(a.union(b).contains(y));
        }
        assert forall|y: u32| #[trigger] b.contains(y) implies y < n by {
            assert(a.union(b).contains(y));
        }
    }
}

/// Every variable of the type is below `next`.
pub open spec fn below(t: TypeV, next: u32) -> bool {
    &&& lt_all(tvars(t), next)
    &&& lt_all(rvars(t), next)
}

/// A type none of whose variables is bound is its own application.
pub proof fn lemma_app_clean_id(s: TSub, r: RSub, t: TypeV)
    requires
        clean(s, r, t),
    ensures
        app(s, r, t) == t,
    decreases t,
{
    match t {
        TypeV::Con(_, args) => lemma_app_clean_id_seq(s, r, args),
        TypeV::Fun(a, b) => {
            lemma_app_clean_id(s, r, *a);
            lemma_app_clean_id(s, r, *b);
        },
        TypeV::Record(fs, row) => {
            lemma_app_clean_id_fields(s, r, fs);
        },
        TypeV::Tuple(es) => lemma_app_clean_id_seq(s, r, es),
        _ => {},
    }
}

proof fn lemma_app_clean_id_seq(s: TSub, r: RSub, ts: Seq<TypeV>)
    requires
        tvars_seq(ts).disjoint(s.dom()),
        rvars_seq(ts).disjoint(r.dom()),
    ensures
        app_seq(s, r, ts) == ts,
    decreases ts,
{
    if ts.len() > 0 {
        lemma_app_clean_id_seq(s, r, ts.drop_last());
        lemma_app_clean_id(s, r, ts.last());
        assert(ts =~= ts.drop_last().push(ts.last()));
    } else {
        assert(app_seq(s, r, ts) =~= ts);
    }
}

proof fn lemma_app_clean_id_fields(s: TSub, r: RSub, fs: Seq<(Seq<char>, TypeV)>)
    requires
        tvars_fields(fs).disjoint(s.dom()),
        rvars_fields(fs).disjoint(r.dom()),
    ensures
        app_fields(s, r, fs) == fs,
    decreases fs,
{
    if fs.len() > 0 {
        lemma_app_clean_id_fields(s, r, fs.drop_last());
        lemma_app_clean_id(s, r, fs.last().1);
        assert(fs =~= fs.drop_last().push(fs.last()));
    } else {
        assert(app_fields(s, r, fs) =~= fs);
    }
}

/// Applying an idempotent substitution leaves no bound variable, keeps
/// types well formed, and brings in only variables below `next`.
pub proof fn lemma_app_ok(s: TSub, r: RSub, next: u32, t: TypeV)
    requires
        sub_ok(s, r, next),
        wf_ty(t),
        below(t, next),
    ensures
        clean(s, r, app(s, r, t)),
        wf_ty(app(s, r, t)),
        below(app(s, r, t), next),
    decreases t,
{
    match t {
        TypeV::Var(v, _) => {
            if s.contains_key(v) {
            }
        },
        TypeV::Con(_, args) => {
            assert(tvars(t) == tvars_seq(args) && rvars(t) == rvars_seq(args));
            lemma_app_ok_seq(s, r, next, args);
        },
        TypeV::Fun(a, b) => {
            assert(tvars(t) == tvars(*a).union(tvars(*b)) && rvars(t) == rvars(*a).union(rvars(*b)));
            lemma_lt_all_union(tvars(*a), tvars(*b), next);
            lemma_lt_all_union(rvars(*a), rvars(*b), next);
            lemma_lt_all_union(tvars(app(s, r, *a)), tvars(app(s, r, *b)), next);
            lemma_lt_all_union(rvars(app(s, r, *a)), rvars(app(s, r, *b)), next);
            lemma_app_ok(s, r, next, *a);
            lemma_app_ok(s, r, next, *b);
        },
        TypeV::Tuple(es) => {
            assert(tvars(t) == tvars_seq(es) && rvars(t) == rvars_seq(es));
            lemma_app_ok_seq(s, r, next, es);
        },
        TypeV::Record(fs, row) => {
            assert(tvars(t) == tvars_fields(fs) && rvars(t) == rvars_fields(fs).union(row_set(row)));
            lemma_lt_all_union(rvars_fields(fs), row_set(row), next);
            lemma_app_ok_fields(s, r, next, fs);
            let a = app_fields(s, r, fs);
            lemma_app_fields(s, r, fs);
            lemma_fsorted_same_keys(fs, a);
            match row {
                Row::Open(x) => {
                    if r.contains_key(x) {
                        lemma_lt_all_union(tvars_fields(a), tvars_fields(r[x].0), next);
                        lemma_lt_all_union(rvars_fields(a), rvars_fields(r[x].0), next);
                        lemma_lt_all_union(rvars_fields(merge_fields(a, r[x].0)), row_set(r[x].1), next);
                        lemma_merge_vars(a, r[x].0);
                        lemma_merge_sorted(a, r[x].0);
                        lemma_merge_wf(a, r[x].0);
                    }
                },
                Row::Closed => {},
            }
        },
        _ => {},
    }
}

proof fn lemma_app_ok_seq(s: TSub, r: RSub, next: u32, ts: Seq<TypeV>)
    requires
        sub_ok(s, r, next),
        wf_seq(ts),
        lt_all(tvars_seq(ts), next),
        lt_all(rvars_seq(ts), next),
    ensures
        tvars_seq(app_seq(s, r, ts)).disjoint(s.dom()),
        rvars_seq(app_seq(s, r, ts)).disjoint(r.dom()),
        wf_seq(app_seq(s, r, ts)),
        lt_all(tvars_seq(app_seq(s, r, ts)), next),
        lt_all(rvars_seq(app_seq(s, r, ts)), next),
    decreases ts,
{
    if ts.len() > 0 {
        assert(tvars_seq(ts) == tvars_seq(ts.drop_last()).union(tvars(ts.last())));
        assert(rvars_seq(ts) == rvars_seq(ts.drop_last()).union(rvars(ts.last())));
        lemma_lt_all_union(tvars_seq(ts.drop_last()), tvars(ts.last()), next);
        lemma_lt_all_union(rvars_seq(ts.drop_last()), rvars(ts.last()), next);
        lemma_app_ok_seq(s, r, next, ts.drop_last());
        lemma_app_ok(s, r, next, ts.last());
        let a = app_seq(s, r, ts);
        assert(a.drop_last() == app_seq(s, r, ts.drop_last()));
        assert(a.last() == app(s, r, ts.last()));
        lemma_lt_all_union(tvars_seq(a.drop_last()), tvars(a.last()), next);
        lemma_lt_all_union(rvars_seq(a.drop_last()), rvars(a.last()), next);
    }
}

proof fn lemma_app_ok_fields(s: TSub, r: RSub, next: u32, fs: Seq<(Seq<char>, TypeV)>)
    requires
        sub_ok(s, r, next),
        wf_fields(fs),
        lt_all(tvars_fields(fs), next),
        lt_all(rvars_fields(fs), next),
    ensures
        tvars_fields(app_fields(s, r, fs)).disjoint(s.dom()),
        rvars_fields(app_fields(s, r, fs)).disjoint(r.dom()),
        wf_fields(app_fields(s, r, fs)),
        lt_all(tvars_fields(app_fields(s, r, fs)), next),
        lt_all(rvars_fields(app_fields(s, r, fs)), next),
    decreases fs,
{
    if fs.len() > 0 {
        assert(tvars_fields(fs) == tvars_fields(fs.drop_last()).union(tvars(fs.last().1)));
        assert(rvars_fields(fs) == rvars_fields(fs.drop_last()).union(rvars(fs.last().1)));
        lemma_lt_all_union(tvars_fields(fs.drop_last()), tvars(fs.last().1), next);
        lemma_lt_all_union(rvars_fields(fs.drop_last()), rvars(fs.last().1), next);
        lemma_app_ok_fields(s, r, next, fs.drop_last());
        lemma_app_ok(s, r, next, fs.last().1);
        let a = app_fields(s, r, fs);
        assert(a.drop_last() == app_fields(s, r, fs.drop_last()));
        assert(a.last() == (fs.last().0, app(s, r, fs.last().1)));
        lemma_lt_all_union(tvars_fields(a.drop_last()), tvars(a.last().1), next);
        lemma_lt_all_union(rvars_fields(a.drop_last()), rvars(a.last().1), next);
    }
}

proof fn lemma_substv_wf(t: TypeV, v: u32, b: TypeV)
    requires
        wf_ty(t),
        wf_ty(b),
    ensures
        wf_ty(substv(t, v, b)),
    decreases t,
{
    match t {
        TypeV::Con(_, args) => lemma_substv_wf_seq(args, v, b),
        TypeV::Fun(p, q) => {
            lemma_substv_wf(*p, v, b);
            lemma_substv_wf(*q, v, b);
        },
        TypeV::Record(fs, _) => {
            lemma_substv_wf_fields(fs, v, b);
            lemma_substv_fields_keys(fs, v, b);
            lemma_fsorted_same_keys(fs, substv_fields(fs, v, b));
        },
        TypeV::Tuple(es) => lemma_substv_wf_seq(es, v, b),
        _ => {},
    }
}

proof fn lemma_substv_wf_seq(s: Seq<TypeV>, v: u32, b: TypeV)
    requires
        wf_seq(s),
        wf_ty(b),
    ensures
        wf_seq(substv_seq(s, v, b)),
    decreases s,
{
    if s.len() > 0 {
        lemma_substv_wf_seq(s.drop_last(), v, b);
        lemma_substv_wf(s.last(), v, b);
        let r = substv_seq(s, v, b);
        assert(r.drop_last() == substv_seq(s.drop_last(), v, b));
        assert(r.last() == substv(s.last(), v, b));
    }
}

proof fn lemma_substv_wf_fields(s: Seq<(Seq<char>, TypeV)>, v: u32, b: TypeV)
    requires
        wf_fields(s),
        wf_ty(b),
    ensures
        wf_fields(substv_fields(s, v, b)),
    decreases s,
{
    if s.len() > 0 {
        lemma_substv_wf_fields(s.drop_last(), v, b);
        lemma_substv_wf(s.last().1, v, b);
        let r = substv_fields(s, v, b);
        assert(r.drop_last() == substv_fields(s.drop_last(), v, b));
        assert(r.last() == (s.last().0, substv(s.last().1, v, b)));
    }
}

proof fn lemma_substr_wf(t: TypeV, x: u32, more: Seq<(Seq<char>, TypeV)>, tail: Row)
    requires
        wf_ty(t),
        fsorted(more),
        wf_fields(more),
    ensures
        wf_ty(substr(t, x, more, tail)),
    decreases t,
{
    match t {
        TypeV::Con(_, args) => lemma_substr_wf_seq(args, x, more, tail),
        TypeV::Fun(p, q) => {
            lemma_substr_wf(*p, x, more, tail);
            lemma_substr_wf(*q, x, more, tail);
        },
        TypeV::Record(fs, _) => {
            lemma_substr_wf_fields(fs, x, more, tail);
            lemma_substr_fields_keys(fs, x, more, tail);
            let f2 = substr_fields(fs, x, more, tail);
            lemma_fsorted_same_keys(fs, f2);
            lemma_merge_sorted(f2, more);
            lemma_merge_wf(f2, more);
        },
        TypeV::Tuple(es) => lemma_substr_wf_seq(es, x, more, tail),
        _ => {},
    }
}

proof fn lemma_substr_wf_seq(s: Seq<TypeV>, x: u32, more: Seq<(Seq<char>, TypeV)>, tail: Row)
    requires
        wf_seq(s),
        fsorted(more),
        wf_fields(more),
    ensures
        wf_seq(substr_seq(s, x, more, tail)),
    decreases s,
{
    if s.len() > 0 {
        lemma_substr_wf_seq(s.drop_last(), x, more, tail);
        lemma_substr_wf(s.last(), x, more, tail);
        let r = substr_seq(s, x, more, tail);
        assert(r.drop_last() == substr_seq(s.drop_last(), x, more, tail));
        assert(r.last() == substr(s.last(), x, more, tail));
    }
}

proof fn lemma_substr_wf_fields(s: Seq<(Seq<char>, TypeV)>, x: u32, more: Seq<(Seq<char>, TypeV)>, tail: Row)
    requires
        wf_fields(s),
        fsorted(more),
        wf_fields(more),
    ensures
        wf_fields(substr_fields(s, x, more, tail)),
    decreases s,
{
    if s.len() > 0 {
        lemma_substr_wf_fields(s.drop_last(), x, more, tail);
        lemma_substr_wf(s.last().1, x, more, tail);
        let r = substr_fields(s, x, more, tail);
        assert(r.drop_last() == substr_fields(s.drop_last(), x, more, tail));
        assert(r.last() == (s.last().0, substr(s.last().1, x, more, tail)));
    }
}

proof fn lemma_lt_all_subset(a: Set<u32>, b: Set<u32>, n: u32)
    requires
        a.subset_of(b),
        lt_all(b, n),
    ensures
        lt_all(a, n),
{
    assert forall|y: u32| #[trigger] a.contains(y) implies y < n by {
        assert(b.contains(y));
    }
}

/// Binding a type variable to a clean type keeps the substitutions in order.
pub proof fn lemma_compose_v_ok(s: TSub, r: RSub, next: u32, v: u32, b: TypeV)
    requires
        sub_ok(s, r, next),
        !s.contains_key(v),
        v < next,
        clean(s, r, b),
        !tvars(b).contains(v),
        wf_ty(b),
        below(b, next),
    ensures
        sub_ok(compose_tsub(s, v, b), compose_rsub_v(r, v, b), next),
{
    let s2 = compose_tsub(s, v, b);
    let r2 = compose_rsub_v(r, v, b);
    assert(s2.dom() == s.dom().insert(v));
    assert(r2.dom() == r.dom());
    assert forall|u: u32| #[trigger] s2.contains_key(u) implies clean(s2, r2, s2[u]) && u < next && wf_ty(s2[u]) && below(s2[u], next) by {
        if u == v {
            assert(s2[u] == b);
        } else {
            assert(s2[u] == substv(s[u], v, b));
            lemma_substv_vars(s[u], v, b);
            lemma_substv_wf(s[u], v, b);
            lemma_lt_all_union(tvars(s[u]).remove(v), tvars(b), next);
            lemma_lt_all_subset(tvars(s[u]).remove(v), tvars(s[u]), next);
            lemma_lt_all_subset(tvars(s2[u]), tvars(s[u]).remove(v).union(tvars(b)), next);
            lemma_lt_all_union(rvars(s[u]), rvars(b), next);
            lemma_lt_all_subset(rvars(s2[u]), rvars(s[u]).union(rvars(b)), next);
        }
    }
    assert forall|x: u32| #[trigger] r2.contains_key(x) implies {
        &&& clean_fields(s2, r2, r2[x].0)
        &&& row_set(r2[x].1).disjoint(r2.dom())
        &&& x < next
        &&& fsorted(r2[x].0)
        &&& wf_fields(r2[x].0)
        &&& lt_all(tvars_fields(r2[x].0), next)
        &&& lt_all(rvars_fields(r2[x].0), next)
        &&& lt_all(row_set(r2[x].1), next)
    } by {
        let f = r[x].0;
        assert(r2[x] == (substv_fields(f, v, b), r[x].1));
        lemma_substv_vars_fields(f, v, b);
        lemma_substv_wf_fields(f, v, b);
        lemma_substv_fields_keys(f, v, b);
        lemma_fsorted_same_keys(f, substv_fields(f, v, b));
        lemma_lt_all_union(tvars_fields(f).remove(v), tvars(b), next);
        lemma_lt_all_subset(tvars_fields(f).remove(v), tvars_fields(f), next);
        lemma_lt_all_subset(tvars_fields(r2[x].0), tvars_fields(f).remove(v).union(tvars(b)), next);
        lemma_lt_all_union(rvars_fields(f), rvars(b), next);
        lemma_lt_all_subset(rvars_fields(r2[x].0), rvars_fields(f).union(rvars(b)), next);
    }
}

/// Binding a row variable to clean fields and an unbound tail keeps the
/// substitutions in order.
pub proof fn lemma_compose_r_ok(s: TSub, r: RSub, next: u32, x: u32, more: Seq<(Seq<char>, TypeV)>, tail: Row)
    requires
        sub_ok(s, r, next),
        !r.contains_key(x),
        x < next,
        clean_fields(s, r, more),
        !rvars_fields(more).contains(x),
        fsorted(more),
        wf_fields(more),
        lt_all(tvars_fields(more), next),
        lt_all(rvars_fields(more), next),
        row_set(tail).disjoint(r.dom()),
        tail != Row::Open(x),
        lt_all(row_set(tail), next),
    ensures
        sub_ok(compose_tsub_r(s, x, more, tail), compose_rsub(r, x, more, tail), next),
{
    let s2 = compose_tsub_r(s, x, more, tail);
    let r2 = compose_rsub(r, x, more, tail);
    assert(s2.dom() == s.dom());
    assert(r2.dom() == r.dom().insert(x));
    assert(!row_set(tail).contains(x));
    assert forall|u: u32| #[trigger] s2.contains_key(u) implies clean(s2, r2, s2[u]) && u < next && wf_ty(s2[u]) && below(s2[u], next) by {
        assert(s2[u] == substr(s[u], x, more, tail));
        lemma_substr_vars(s[u], x, more, tail);
        lemma_substr_wf(s[u], x, more, tail);
        lemma_lt_all_union(tvars(s[u]), tvars_fields(more), next);
        lemma_lt_all_subset(tvars(s2[u]), tvars(s[u]).union(tvars_fields(more)), next);
        lemma_lt_all_subset(rvars(s[u]).remove(x), rvars(s[u]), next);
        lemma_lt_all_union(rvars(s[u]).remove(x), rvars_fields(more), next);
        lemma_lt_all_union(rvars(s[u]).remove(x).union(rvars_fields(more)), row_set(tail), next);
        lemma_lt_all_subset(rvars(s2[u]), rvars(s[u]).remove(x).union(rvars_fields(more)).union(row_set(tail)), next);
    }
    assert forall|z: u32| #[trigger] r2.contains_key(z) implies {
        &&& clean_fields(s2, r2, r2[z].0)
        &&& row_set(r2[z].1).disjoint(r2.dom())
        &&& z < next
        &&& fsorted(r2[z].0)
        &&& wf_fields(r2[z].0)
        &&& lt_all(tvars_fields(r2[z].0), next)
        &&& lt_all(rvars_fields(r2[z].0), next)
        &&& lt_all(row_set(r2[z].1), next)
    } by {
        if z == x {
            assert(r2[z] == (more, tail));
        } else {
            let f = r[z].0;
            let f2 = substr_fields(f, x, more, tail);
            assert(r2[z] == substr_entry(r[z], x, more, tail));
            lemma_substr_vars_fields(f, x, more, tail);
            lemma_substr_wf_fields(f, x, more, tail);
            lemma_substr_fields_keys(f, x, more, tail);
            lemma_fsorted_same_keys(f, f2);
            lemma_lt_all_union(tvars_fields(f), tvars_fields(more), next);
            lemma_lt_all_subset(tvars_fields(f2), tvars_fields(f).union(tvars_fields(more)), next);
            lemma_lt_all_subset(rvars_fields(f).remove(x), rvars_fields(f), next);
            lemma_lt_all_union(rvars_fields(f).remove(x), rvars_fields(more), next);
            lemma_lt_all_union(rvars_fields(f).remove(x).union(rvars_fields(more)), row_set(tail), next);
            lemma_lt_all_subset(rvars_fields(f2), rvars_fields(f).remove(x).union(rvars_fields(more)).union(row_set(tail)), next);
            if r[z].1 == Row::Open(x) {
                lemma_merge_vars(f2, more);
                lemma_merge_sorted(f2, more);
                lemma_merge_wf(f2, more);
                lemma_lt_all_union(tvars_fields(f2), tvars_fields(more), next);
                lemma_lt_all_subset(tvars_fields(merge_fields(f2, more)), tvars_fields(f2).union(tvars_fields(more)), next);
                lemma_lt_all_union(rvars_fields(f2), rvars_fields(more), next);
                lemma_lt_all_subset(rvars_fields(merge_fields(f2, more)), rvars_fields(f2).union(rvars_fields(more)), next);
            }
        }
    }
}

// ---------------------------------------------------------------------------
// Replacing variables, executably.
// ---------------------------------------------------------------------------

/// The type with type variable `v` replaced by `b`.
fn subst_var(t: &Type, v: u32, b: &Type) -> (r: Type)
    ensures
        tv(r) == substv(tv(*t), v, tv(*b)),
    decreases t,
{
    match t {
        Type::Var(u, c) => {
            if *u == v {
                b.duplicate()
            } else {
                Type::Var(*u, *c)
            }
        },
        Type::Rigid(n) => Type::Rigid(n.clone()),
        Type::Con(n, args) => Type::Con(n.clone(), subst_var_all(args, v, b)),
        Type::Fun(p, q) => Type::Fun(Box::new(subst_var(p, v, b)), Box::new(subst_var(q, v, b))),
        Type::Record(fs, row) => Type::Record(subst_var_fields(fs, v, b), *row),
        Type::Tuple(es) => Type::Tuple(subst_var_all(es, v, b)),
    }
}

fn subst_var_all(ts: &Vec<Type>, v: u32, b: &Type) -> (r: Vec<Type>)
    ensures
        tvs(r@) == substv_seq(tvs(ts@), v, tv(*b)),
    decreases ts,
{
    let mut out: Vec<Type> = Vec::new();
    let mut i: usize = 0;
    proof {
        lemma_tvs(ts@);
    }
    while i < ts.len()
        invariant
            i <= ts@.len(),
            tvs(ts@).len() == ts@.len(),
            forall|k: int| 0 <= k < ts@.len() ==> #[trigger] tvs(ts@)[k] == tv(ts@[k]),
            tvs(out@) == substv_seq(tvs(ts@).subrange(0, i as int), v, tv(*b)),
        decreases ts.len() - i,
    {
        proof {
            assert(decreases_to!(ts => ts[i as int]));
        }
        let x = subst_var(&ts[i], v, b);
        let ghost before = out@;
        out.push(x);
        proof {
            crate::ast::lemma_tvs_push(before, x);
            let nxt = tvs(ts@).subrange(0, i + 1);
            assert(nxt.drop_last() =~= tvs(ts@).subrange(0, i as int));
        }
        i = i + 1;
    }
    proof {
        assert(tvs(ts@).subrange(0, i as int) =~= tvs(ts@));
    }
    out
}

fn subst_var_fields(fs: &Vec<(String, Type)>, v: u32, b: &Type) -> (r: Vec<(String, Type)>)
    ensures
        fvs(r@) == substv_fields(fvs(fs@), v, tv(*b)),
    decreases fs,
{
    let mut out: Vec<(String, Type)> = Vec::new();
    let mut i: usize = 0;
    proof {
        lemma_fvs(fs@);
    }
    while i < fs.len()
        invariant
            i <= fs@.len(),
            fvs(fs@).len() == fs@.len(),
            forall|k: int| 0 <= k < fs@.len() ==> #[trigger] fvs(fs@)[k] == (fs@[k].0@, tv(fs@[k].1)),
            fvs(out@) == substv_fields(fvs(fs@).subrange(0, i as int), v, tv(*b)),
        decreases fs.len() - i,
    {
        proof {
            assert(decreases_to!(fs => fs[i as int]));
            assert(decreases_to!(fs[i as int] => fs[i as int].1));
        }
        let x = subst_var(&fs[i].1, v, b);
        let f = (fs[i].0.clone(), x);
        let ghost before = out@;
        out.push(f);
        proof {
            crate::ast::lemma_fvs_push(before, f);
            let nxt = fvs(fs@).subrange(0, i + 1);
            assert(nxt.drop_last() =~= fvs(fs@).subrange(0, i as int));
        }
        i = i + 1;
    }
    proof {
        assert(fvs(fs@).subrange(0, i as int) =~= fvs(fs@));
    }
    out
}

/// The type with every record whose tail is `x` given the fields `more` and
/// the tail `tail`.
fn subst_row(t: &Type, x: u32, more: &Vec<(String, Type)>, tail: Row) -> (r: Type)
    ensures
        tv(r) == substr(tv(*t), x, fvs(more@), tail),
    decreases t,
{
    match t {
        Type::Var(u, c) => Type::Var(*u, *c),
        Type::Rigid(n) => Type::Rigid(n.clone()),
        Type::Con(n, args) => Type::Con(n.clone(), subst_row_all(args, x, more, tail)),
        Type::Fun(p, q) => Type::Fun(Box::new(subst_row(p, x, more, tail)), Box::new(subst_row(q, x, more, tail))),
        Type::Record(fs, row) => {
            let fs2 = subst_row_fields(fs, x, more, tail);
            let hit = match row {
                Row::Open(y) => *y == x,
                Row::Closed => false,
            };
            if hit {
                let extra = crate::ast::duplicate_fields(more);
                Type::Record(merge_field_lists(fs2, &extra), tail)
            } else {
                Type::Record(fs2, *row)
            }
        },
        Type::Tuple(es) => Type::Tuple(subst_row_all(es, x, more, tail)),
    }
}

fn subst_row_all(ts: &Vec<Type>, x: u32, more: &Vec<(String, Type)>, tail: Row) -> (r: Vec<Type>)
    ensures
        tvs(r@) == substr_seq(tvs(ts@), x, fvs(more@), tail),
    decreases ts,
{
    let mut out: Vec<Type> = Vec::new();
    let mut i: usize = 0;
    proof {
        lemma_tvs(ts@);
    }
    while i < ts.len()
        invariant
            i <= ts@.len(),
            tvs(ts@).len() == ts@.len(),
            forall|k: int| 0 <= k < ts@.len() ==> #[trigger] tvs(ts@)[k] == tv(ts@[k]),
            tvs(out@) == substr_seq(tvs(ts@).subrange(0, i as int), x, fvs(more@), tail),
        decreases ts.len() - i,
    {
        proof {
            assert(decreases_to!(ts => ts[i as int]));
        }
        let y = subst_row(&ts[i], x, more, tail);
        let ghost before = out@;
        out.push(y);
        proof {
            crate::ast::lemma_tvs_push(before, y);
            let nxt = tvs(ts@).subrange(0, i + 1);
            assert(nxt.drop_last() =~= tvs(ts@).subrange(0, i as int));
        }
        i = i + 1;
    }
    proof {
        assert(tvs(ts@).subrange(0, i as int) =~= tvs(ts@));
    }
    out
}

fn subst_row_fields(fs: &Vec<(String, Type)>, x: u32, more: &Vec<(String, Type)>, tail: Row) -> (r: Vec<(String, Type)>)
    ensures
        fvs(r@) == substr_fields(fvs(fs@), x, fvs(more@), tail),
    decreases fs,
{
    let mut out: Vec<(String, Type)> = Vec::new();
    let mut i: usize = 0;
    proof {
        lemma_fvs(fs@);
    }
    while i < fs.len()
        invariant
            i <= fs@.len(),
            fvs(fs@).len() == fs@.len(),
            forall|k: int| 0 <= k < fs@.len() ==> #[trigger] fvs(fs@)[k] == (fs@[k].0@, tv(fs@[k].1)),
            fvs(out@) == substr_fields(fvs(fs@).subrange(0, i as int), x, fvs(more@), tail),
        decreases fs.len() - i,
    {
        proof {
            assert(decreases_to!(fs => fs[i as int]));
            assert(decreases_to!(fs[i as int] => fs[i as int].1));
        }
        let y = subst_row(&fs[i].1, x, more, tail);
        let f = (fs[i].0.clone(), y);
        let ghost before = out@;
        out.push(f);
        proof {
            crate::ast::lemma_fvs_push(before, f);
            let nxt = fvs(fs@).subrange(0, i + 1);
            assert(nxt.drop_last() =~= fvs(fs@).subrange(0, i as int));
        }
        i = i + 1;
    }
    proof {
        assert(fvs(fs@).subrange(0, i as int) =~= fvs(fs@));
    }
    out
}

impl Infer {
    /// Binds unbound type variable `v` to the clean type `b`, replacing `v`
    /// by `b` in every binding so that the substitutions stay idempotent.
    pub(crate) fn bind_type(&mut self, v: u32, b: Type)
        requires
            old(self).wf(),
            !old(self).tsub().contains_key(v),
            v < old(self).next_var(),
            clean(old(self).tsub(), old(self).rsub(), tv(b)),
            !tvars(tv(b)).contains(v),
            wf_ty(tv(b)),
            below(tv(b), old(self).next_var()),
        ensures
            final(self).wf(),
            final(self).next_var() == old(self).next_var(),
            final(self).tsub() == compose_tsub(old(self).tsub(), v, tv(b)),
            final(self).rsub() == compose_rsub_v(old(self).rsub(), v, tv(b)),
    {
        let ghost s0 = self.tsub();
        let ghost r0 = self.rsub();
        let ghost m0 = self.subst@;
        let ghost n0 = self.row_subst@;
        let mut i: usize = 0;
        while i < self.bound_vars.len()
            invariant
                self.user_ctor_schemes.wf(),
                self.user_sum_ctors.wf(),
                s0 == old(self).tsub(),
                m0 == old(self).subst@,
                self.bound_vars@ == old(self).bound_vars@,
                self.row_subst@ == old(self).row_subst@,
                self.next == old(self).next,
                self.bound_rows@ == old(self).bound_rows@,
                i <= self.bound_vars@.len(),
                old(self).bound_vars@.no_duplicates(),
                forall|u: u32| #[trigger] m0.contains_key(u) <==> old(self).bound_vars@.contains(u),
                forall|u: u32| #[trigger] self.subst@.contains_key(u) <==> m0.contains_key(u),
                forall|u: u32| #[trigger] m0.contains_key(u) ==> tv(self.subst@[u]) == if self.bound_vars@.subrange(0, i as int).contains(u) {
                    substv(tv(m0[u]), v, tv(b))
                } else {
                    tv(m0[u])
                },
            decreases self.bound_vars.len() - i,
        {
            let u = self.bound_vars[i];
            let ghost before = self.subst@;
            proof {
                assert(old(self).bound_vars@.contains(u));
                assert(!self.bound_vars@.subrange(0, i as int).contains(u)) by {
                    if self.bound_vars@.subrange(0, i as int).contains(u) {
                        let q = choose|q: int| 0 <= q < i && self.bound_vars@.subrange(0, i as int)[q] == u;
                        assert(self.bound_vars@[q] == self.bound_vars@[i as int]);
                    }
                }
            }
            let replaced = match self.subst.get(&u) {
                Some(t) => Some(subst_var(t, v, &b)),
                None => None,
            };
            match replaced {
                Some(n) => {
                    self.subst.insert(u, n);
                },
                None => {},
            }
            proof {
                assert(self.bound_vars@.subrange(0, i + 1) =~= self.bound_vars@.subrange(0, i as int).push(u));
                assert forall|w: u32| #[trigger] m0.contains_key(w) implies tv(self.subst@[w]) == if self.bound_vars@.subrange(0, i + 1).contains(w) {
                    substv(tv(m0[w]), v, tv(b))
                } else {
                    tv(m0[w])
                } by {
                    if w != u {
                        assert(self.subst@[w] == before[w]);
                        assert(self.bound_vars@.subrange(0, i + 1).contains(w) == self.bound_vars@.subrange(0, i as int).contains(w));
                    } else {
                        assert(self.bound_vars@.subrange(0, i + 1)[i as int] == u);
                        assert(self.bound_vars@.subrange(0, i + 1).contains(u));
                    }
                }
            }
            i = i + 1;
        }
        proof {
            assert(self.bound_vars@.subrange(0, i as int) =~= self.bound_vars@);
            assert forall|u: u32| #[trigger] m0.contains_key(u) implies tv(self.subst@[u]) == substv(tv(m0[u]), v, tv(b)) by {
                assert(old(self).bound_vars@.contains(u));
            }
            assert(self.bound_rows@.subrange(0, 0) =~= Seq::<u32>::empty());
        }
        let mut j: usize = 0;
        while j < self.bound_rows.len()
            invariant
                self.user_ctor_schemes.wf(),
                self.user_sum_ctors.wf(),
                s0 == old(self).tsub(),
                m0 == old(self).subst@,
                n0 == old(self).row_subst@,
                self.bound_vars@ == old(self).bound_vars@,
                self.bound_rows@ == old(self).bound_rows@,
                self.next == old(self).next,
                forall|u: u32| #[trigger] self.subst@.contains_key(u) <==> m0.contains_key(u),
                forall|u: u32| #[trigger] m0.contains_key(u) ==> tv(self.subst@[u]) == substv(tv(m0[u]), v, tv(b)),
                j <= self.bound_rows@.len(),
                old(self).bound_rows@.no_duplicates(),
                forall|x: u32| #[trigger] n0.contains_key(x) <==> old(self).bound_rows@.contains(x),
                forall|x: u32| #[trigger] self.row_subst@.contains_key(x) <==> n0.contains_key(x),
                forall|x: u32| #[trigger] n0.contains_key(x) ==> self.row_subst@[x].1 == n0[x].1 && fvs(self.row_subst@[x].0@) == if self.bound_rows@.subrange(0, j as int).contains(x) {
                    substv_fields(fvs(n0[x].0@), v, tv(b))
                } else {
                    fvs(n0[x].0@)
                },
            decreases self.bound_rows.len() - j,
        {
            let x = self.bound_rows[j];
            let ghost before = self.row_subst@;
            proof {
                assert(old(self).bound_rows@.contains(x));
                assert(!self.bound_rows@.subrange(0, j as int).contains(x)) by {
                    if self.bound_rows@.subrange(0, j as int).contains(x) {
                        let q = choose|q: int| 0 <= q < j && self.bound_rows@.subrange(0, j as int)[q] == x;
                        assert(self.bound_rows@[q] == self.bound_rows@[j as int]);
                    }
                }
            }
            let replaced = match self.row_subst.get(&x) {
                Some(e) => Some((subst_var_fields(&e.0, v, &b), e.1)),
                None => None,
            };
            match replaced {
                Some(e) => {
                    self.row_subst.insert(x, e);
                },
                None => {},
            }
            proof {
                assert(self.bound_rows@.subrange(0, j + 1) =~= self.bound_rows@.subrange(0, j as int).push(x));
                assert forall|y: u32| #[trigger] n0.contains_key(y) implies self.row_subst@[y].1 == n0[y].1 && fvs(self.row_subst@[y].0@) == if self.bound_rows@.subrange(0, j + 1).contains(y) {
                    substv_fields(fvs(n0[y].0@), v, tv(b))
                } else {
                    fvs(n0[y].0@)
                } by {
                    if y != x {
                        assert(self.row_subst@[y] == before[y]);
                        assert(self.bound_rows@.subrange(0, j + 1).contains(y) == self.bound_rows@.subrange(0, j as int).contains(y));
                    } else {
                        assert(self.bound_rows@.subrange(0, j + 1)[j as int] == x);
                        assert(self.bound_rows@.subrange(0, j + 1).contains(x));
                    }
                }
            }
            j = j + 1;
        }
        proof {
            assert(self.bound_vars@.subrange(0, self.bound_vars@.len() as int) =~= self.bound_vars@);
            assert(self.bound_rows@.subrange(0, j as int) =~= self.bound_rows@);
        }
        let ghost bb = tv(b);
        self.subst.insert(v, b);
        self.bound_vars.push(v);
        proof {
            let s2 = compose_tsub(s0, v, bb);
            let r2 = compose_rsub_v(r0, v, bb);
            assert(self.tsub() =~= s2) by {
                assert forall|u: u32| self.tsub().contains_key(u) <==> s2.contains_key(u) by {}
                assert forall|u: u32| #[trigger] self.tsub().contains_key(u) implies self.tsub()[u] == s2[u] by {
                    if u != v {
                        assert(m0.contains_key(u));
                        assert(old(self).bound_vars@.contains(u));
                    }
                }
            }
            assert(self.rsub() =~= r2) by {
                assert forall|x: u32| #[trigger] self.rsub().contains_key(x) implies self.rsub()[x] == r2[x] by {
                    assert(old(self).bound_rows@.contains(x));
                }
            }
            lemma_compose_v_ok(s0, r0, self.next, v, bb);
            assert(!old(self).bound_vars@.contains(v));
            assert(self.bound_vars@.no_duplicates()) by {
                let bv = self.bound_vars@;
                assert forall|p: int, q: int| 0 <= p < bv.len() && 0 <= q < bv.len() && p != q implies bv[p] != bv[q] by {
                    if p < bv.len() - 1 && q < bv.len() - 1 {
                        assert(old(self).bound_vars@[p] == bv[p]);
                        assert(old(self).bound_vars@[q] == bv[q]);
                    } else if p == bv.len() - 1 {
                        assert(old(self).bound_vars@.contains(bv[q]));
                    } else {
                        assert(old(self).bound_vars@.contains(bv[p]));
                    }
                }
            }
            assert forall|u: u32| #[trigger] self.subst@.contains_key(u) <==> self.bound_vars@.contains(u) by {
                if self.bound_vars@.contains(u) && u != v {
                    let q = choose|q: int| 0 <= q < self.bound_vars@.len() && self.bound_vars@[q] == u;
                    assert(old(self).bound_vars@[q] == u);
                }
                if old(self).bound_vars@.contains(u) {
                    let q = choose|q: int| 0 <= q < old(self).bound_vars@.len() && old(self).bound_vars@[q] == u;
                    assert(self.bound_vars@[q] == u);
                }
                if u == v {
                    assert(self.bound_vars@[self.bound_vars@.len() - 1] == v);
                }
            }
        }
    }
}

impl Infer {
    /// Binds unbound row variable `x` to the clean fields `more` and the
    /// unbound tail `tail`, giving every record in the bindings whose tail is
    /// `x` those fields and that tail.
    pub(crate) fn bind_row_entry(&mut self, x: u32, more: Vec<(String, Type)>, tail: Row)
        requires
            old(self).wf(),
            !old(self).rsub().contains_key(x),
            x < old(self).next_var(),
            clean_fields(old(self).tsub(), old(self).rsub(), fvs(more@)),
            !rvars_fields(fvs(more@)).contains(x),
            fsorted(fvs(more@)),
            wf_fields(fvs(more@)),
            lt_all(tvars_fields(fvs(more@)), old(self).next_var()),
            lt_all(rvars_fields(fvs(more@)), old(self).next_var()),
            row_set(tail).disjoint(old(self).rsub().dom()),
            tail != Row::Open(x),
            lt_all(row_set(tail), old(self).next_var()),
        ensures
            final(self).wf(),
            final(self).next_var() == old(self).next_var(),
            final(self).tsub() == compose_tsub_r(old(self).tsub(), x, fvs(more@), tail),
            final(self).rsub() == compose_rsub(old(self).rsub(), x, fvs(more@), tail),
    {
        let ghost s0 = self.tsub();
        let ghost r0 = self.rsub();
        let ghost m0 = self.subst@;
        let ghost n0 = self.row_subst@;
        let ghost mv = fvs(more@);
        let mut i: usize = 0;
        while i < self.bound_vars.len()
            invariant
                self.user_ctor_schemes.wf(),
                self.user_sum_ctors.wf(),
                m0 == old(self).subst@,
                self.bound_vars@ == old(self).bound_vars@,
                self.row_subst@ == old(self).row_subst@,
                self.next == old(self).next,
                self.bound_rows@ == old(self).bound_rows@,
                mv == fvs(more@),
                i <= self.bound_vars@.len(),
                old(self).bound_vars@.no_duplicates(),
                forall|u: u32| #[trigger] m0.contains_key(u) <==> old(self).bound_vars@.contains(u),
                forall|u: u32| #[trigger] self.subst@.contains_key(u) <==> m0.contains_key(u),
                forall|u: u32| #[trigger] m0.contains_key(u) ==> tv(self.subst@[u]) == if self.bound_vars@.subrange(0, i as int).contains(u) {
                    substr(tv(m0[u]), x, mv, tail)
                } else {
                    tv(m0[u])
                },
            decreases self.bound_vars.len() - i,
        {
            let u = self.bound_vars[i];
            let ghost before = self.subst@;
            proof {
                assert(!self.bound_vars@.subrange(0, i as int).contains(u)) by {
                    if self.bound_vars@.subrange(0, i as int).contains(u) {
                        let q = choose|q: int| 0 <= q < i && self.bound_vars@.subrange(0, i as int)[q] == u;
                        assert(self.bound_vars@[q] == self.bound_vars@[i as int]);
                    }
                }
            }
            let replaced = match self.subst.get(&u) {
                Some(t) => Some(subst_row(t, x, &more, tail)),
                None => None,
            };
            match replaced {
                Some(n) => {
                    self.subst.insert(u, n);
                },
                None => {},
            }
            proof {
                assert(self.bound_vars@.subrange(0, i + 1) =~= self.bound_vars@.subrange(0, i as int).push(u));
                assert forall|w: u32| #[trigger] m0.contains_key(w) implies tv(self.subst@[w]) == if self.bound_vars@.subrange(0, i + 1).contains(w) {
                    substr(tv(m0[w]), x, mv, tail)
                } else {
                    tv(m0[w])
                } by {
                    if w != u {
                        assert(self.subst@[w] == before[w]);
                        assert(self.bound_vars@.subrange(0, i + 1).contains(w) == self.bound_vars@.subrange(0, i as int).contains(w));
                    } else {
                        assert(old(self).bound_vars@.contains(u));
                        assert(self.bound_vars@.subrange(0, i + 1)[i as int] == u);
                    }
                }
            }
            i = i + 1;
        }
        proof {
            assert(self.bound_vars@.subrange(0, i as int) =~= self.bound_vars@);
            assert forall|u: u32| #[trigger] m0.contains_key(u) implies tv(self.subst@[u]) == substr(tv(m0[u]), x, mv, tail) by {
                assert(old(self).bound_vars@.contains(u));
            }
        }
        let mut j: usize = 0;
        while j < self.bound_rows.len()
            invariant
                self.user_ctor_schemes.wf(),
                self.user_sum_ctors.wf(),
                m0 == old(self).subst@,
                n0 == old(self).row_subst@,
                self.bound_vars@ == old(self).bound_vars@,
                self.bound_rows@ == old(self).bound_rows@,
                self.next == old(self).next,
                mv == fvs(more@),
                forall|u: u32| #[trigger] self.subst@.contains_key(u) <==> m0.contains_key(u),
                forall|u: u32| #[trigger] m0.contains_key(u) ==> tv(self.subst@[u]) == substr(tv(m0[u]), x, mv, tail),
                j <= self.bound_rows@.len(),
                old(self).bound_rows@.no_duplicates(),
                forall|y: u32| #[trigger] n0.contains_key(y) <==> old(self).bound_rows@.contains(y),
                forall|y: u32| #[trigger] self.row_subst@.contains_key(y) <==> n0.contains_key(y),
                forall|y: u32| #[trigger] n0.contains_key(y) ==> (fvs(self.row_subst@[y].0@), self.row_subst@[y].1) == if self.bound_rows@.subrange(0, j as int).contains(y) {
                    substr_entry((fvs(n0[y].0@), n0[y].1), x, mv, tail)
                } else {
                    (fvs(n0[y].0@), n0[y].1)
                },
            decreases self.bound_rows.len() - j,
        {
            let y = self.bound_rows[j];
            let ghost before = self.row_subst@;
            proof {
                assert(!self.bound_rows@.subrange(0, j as int).contains(y)) by {
                    if self.bound_rows@.subrange(0, j as int).contains(y) {
                        let q = choose|q: int| 0 <= q < j && self.bound_rows@.subrange(0, j as int)[q] == y;
                        assert(self.bound_rows@[q] == self.bound_rows@[j as int]);
                    }
                }
            }
            let replaced = match self.row_subst.get(&y) {
                Some(e) => {
                    let f2 = subst_row_fields(&e.0, x, &more, tail);
                    let hit = match e.1 {
                        Row::Open(z) => z == x,
                        Row::Closed => false,
                    };
                    if hit {
                        let extra = crate::ast::duplicate_fields(&more);
                        Some((merge_field_lists(f2, &extra), tail))
                    } else {
                        Some((f2, e.1))
                    }
                },
                None => None,
            };
            match replaced {
                Some(e) => {
                    self.row_subst.insert(y, e);
                },
                None => {},
            }
            proof {
                assert(self.bound_rows@.subrange(0, j + 1) =~= self.bound_rows@.subrange(0, j as int).push(y));
                assert forall|z: u32| #[trigger] n0.contains_key(z) implies (fvs(self.row_subst@[z].0@), self.row_subst@[z].1) == if self.bound_rows@.subrange(0, j + 1).contains(z) {
                    substr_entry((fvs(n0[z].0@), n0[z].1), x, mv, tail)
                } else {
                    (fvs(n0[z].0@), n0[z].1)
                } by {
                    if z != y {
                        assert(self.row_subst@[z] == before[z]);
                        assert(self.bound_rows@.subrange(0, j + 1).contains(z) == self.bound_rows@.subrange(0, j as int).contains(z));
                    } else {
                        assert(old(self).bound_rows@.contains(y));
                        assert(self.bound_rows@.subrange(0, j + 1)[j as int] == y);
                    }
                }
            }
            j = j + 1;
        }
        proof {
            assert(self.bound_rows@.subrange(0, j as int) =~= self.bound_rows@);
        }
        self.row_subst.insert(x, (more, tail));
        self.bound_rows.push(x);
        proof {
            let s2 = compose_tsub_r(s0, x, mv, tail);
            let r2 = compose_rsub(r0, x, mv, tail);
            assert(self.tsub() =~= s2) by {
                assert forall|u: u32| #[trigger] self.tsub().contains_key(u) implies self.tsub()[u] == s2[u] by {}
            }
            assert(self.rsub() =~= r2) by {
                assert forall|z: u32| self.rsub().contains_key(z) <==> r2.contains_key(z) by {}
                assert forall|z: u32| #[trigger] self.rsub().contains_key(z) implies self.rsub()[z] == r2[z] by {
                    if z != x {
                        assert(n0.contains_key(z));
                        assert(old(self).bound_rows@.contains(z));
                        assert(r0[z] == (fvs(n0[z].0@), n0[z].1));
                    }
                }
            }
            lemma_compose_r_ok(s0, r0, self.next, x, mv, tail);
            assert(!old(self).bound_rows@.contains(x));
            assert(self.bound_rows@.no_duplicates()) by {
                let br = self.bound_rows@;
                assert forall|p: int, q: int| 0 <= p < br.len() && 0 <= q < br.len() && p != q implies br[p] != br[q] by {
                    if p < br.len() - 1 && q < br.len() - 1 {
                        assert(old(self).bound_rows@[p] == br[p]);
                        assert(old(self).bound_rows@[q] == br[q]);
                    } else if p == br.len() - 1 {
                        assert(old(self).bound_rows@.contains(br[q]));
                    } else {
                        assert(old(self).bound_rows@.contains(br[p]));
                    }
                }
            }
            assert forall|z: u32| #[trigger] self.row_subst@.contains_key(z) <==> self.bound_rows@.contains(z) by {
                if self.bound_rows@.contains(z) && z != x {
                    let q = choose|q: int| 0 <= q < self.bound_rows@.len() && self.bound_rows@[q] == z;
                    assert(old(self).bound_rows@[q] == z);
                }
                if old(self).bound_rows@.contains(z) {
                    let q = choose|q: int| 0 <= q < old(self).bound_rows@.len() && old(self).bound_rows@[q] == z;
                    assert(self.bound_rows@[q] == z);
                }
                if z == x {
                    assert(self.bound_rows@[self.bound_rows@.len() - 1] == x);
                }
            }
        }
    }
}


/// A bound of the variables can be raised.
pub proof fn lemma_sub_ok_mono(s: TSub, r: RSub, n: u32, m: u32)
    requires
        sub_ok(s, r, n),
        n <= m,
    ensures
        sub_ok(s, r, m),
{
    assert forall|v: u32| #[trigger] s.contains_key(v) implies v < m && wf_ty(s[v]) && below(s[v], m) by {
        assert(lt_all(tvars(s[v]), n));
        assert(lt_all(rvars(s[v]), n));
    }
    assert forall|x: u32| #[trigger] r.contains_key(x) implies {
        &&& x < m
        &&& fsorted(r[x].0)
        &&& wf_fields(r[x].0)
        &&& lt_all(tvars_fields(r[x].0), m)
        &&& lt_all(rvars_fields(r[x].0), m)
        &&& lt_all(row_set(r[x].1), m)
    } by {
        assert(lt_all(tvars_fields(r[x].0), n));
        assert(lt_all(rvars_fields(r[x].0), n));
        assert(lt_all(row_set(r[x].1), n));
    }
}

impl Infer {
    /// The substitutions of a well-formed engine are in order.
    pub proof fn lemma_wf(&self)
        requires
            self.wf(),
        ensures
            sub_ok(self.tsub(), self.rsub(), self.next_var()),
    {
    }

    /// A fresh type variable carrying bound `c`.
    pub fn fresh_constrained(&mut self, c: Constraint) -> (r: Type)
        requires
            old(self).wf(),
            old(self).next_var() < u32::MAX,
        ensures
            final(self).wf(),
            final(self).next_var() == old(self).next_var() + 1,
            final(self).tsub() == old(self).tsub(),
            final(self).rsub() == old(self).rsub(),
            tv(r) == TypeV::Var(old(self).next_var(), c),
    {
        let v = self.next;
        proof {
            lemma_sub_ok_mono(self.tsub(), self.rsub(), v, (v + 1) as u32);
        }
        self.next = v + 1;
        Type::Var(v, c)
    }

    /// A fresh unbounded type variable.
    pub fn fresh(&mut self) -> (r: Type)
        requires
            old(self).wf(),
            old(self).next_var() < u32::MAX,
        ensures
            final(self).wf(),
            final(self).next_var() == old(self).next_var() + 1,
            final(self).tsub() == old(self).tsub(),
            final(self).rsub() == old(self).rsub(),
            tv(r) == TypeV::Var(old(self).next_var(), Constraint::Free),
    {
        self.fresh_constrained(Constraint::Free)
    }

    /// A fresh open record tail. It draws from the same counter as `fresh`,
    /// so a row variable never shares its number with a type variable.
    pub fn fresh_row(&mut self) -> (r: Row)
        requires
            old(self).wf(),
            old(self).next_var() < u32::MAX,
        ensures
            final(self).wf(),
            final(self).next_var() == old(self).next_var() + 1,
            final(self).tsub() == old(self).tsub(),
            final(self).rsub() == old(self).rsub(),
            r == Row::Open(old(self).next_var()),
    {
        let x = self.next;
        proof {
            lemma_sub_ok_mono(self.tsub(), self.rsub(), x, (x + 1) as u32);
        }
        self.next = x + 1;
        Row::Open(x)
    }
}


/// A constructor the prelude knows: the list constructors and the rows of
/// its constructor table.
pub open spec fn prelude_ctor(name: Seq<char>) -> bool {
    name == crate::prelude::NIL@ || name == crate::prelude::CONS@ || crate::prelude::ctor_row(name) is Some
}

impl Infer {
    /// The scheme of a value constructor: a user (or imported) constructor
    /// first, else the prelude's.
    pub fn constructor_scheme(&self, name: &str) -> (r: Option<Scheme>)
        requires
            self.wf(),
        ensures
            self.user_ctor(name@) matches Some(s) ==> r matches Some(t) && sv(t) == s,
            self.user_ctor(name@) is None ==> (r is Some <==> prelude_ctor(name@)),
    {
        match self.user_ctor_schemes.get(name) {
            Some(s) => Some(s.duplicate()),
            None => crate::prelude::constructor_scheme(name),
        }
    }

    /// The variants (name and arity) of a sum type: a user (or imported) sum
    /// first, else the prelude's.
    pub fn sum_type_constructors(&self, sum_name: &str) -> (r: Option<Vec<(String, usize)>>)
        requires
            self.wf(),
        ensures
            self.user_sum(sum_name@) matches Some(m) ==> r matches Some(v) && v@.map_values(|c: (String, usize)| (c.0@, c.1 as nat)) == m,
            self.user_sum(sum_name@) is None && sum_name@ != "List"@ ==> (r is None <==> crate::prelude::members_spec(sum_name@).len() == 0),
            self.user_sum(sum_name@) is None && sum_name@ != "List"@ ==> (r matches Some(v) ==> v@.map_values(|c: (String, usize)| (c.0@, c.1 as nat)) == crate::prelude::members_spec(sum_name@)),
            self.user_sum(sum_name@) is None && sum_name@ == "List"@ ==> r is Some,
    {
        match self.user_sum_ctors.get(sum_name) {
            Some(v) => {
                let mut out: Vec<(String, usize)> = Vec::new();
                let mut i: usize = 0;
                while i < v.len()
                    invariant
                        i <= v@.len(),
                        out@.len() == i,
                        forall|q: int| 0 <= q < i ==> (#[trigger] out@[q]).0@ == v@[q].0@ && out@[q].1 == v@[q].1,
                    decreases v.len() - i,
                {
                    out.push((v[i].0.clone(), v[i].1));
                    i = i + 1;
                }
                proof {
                    let f = |c: (String, usize)| (c.0@, c.1 as nat);
                    assert(out@.map_values(f) =~= v@.map_values(f)) by {
                        assert forall|q: int| 0 <= q < out@.len() implies #[trigger] out@.map_values(f)[q] == v@.map_values(f)[q] by {
                            assert(out@[q].0@ == v@[q].0@);
                        }
                    }
                }
                Some(out)
            },
            None => crate::prelude::sum_type_constructors(sum_name),
        }
    }

    /// Records a user or imported constructor's scheme.
    pub fn add_user_ctor(&mut self, name: String, s: Scheme)
        requires
            old(self).wf(),
        ensures
            final(self).wf(),
            final(self).next_var() == old(self).next_var(),
            final(self).tsub() == old(self).tsub(),
            final(self).rsub() == old(self).rsub(),
            final(self).user_ctor(name@) == Some(sv(s)),
            forall|n: Seq<char>| n != name@ ==> #[trigger] final(self).user_ctor(n) == old(self).user_ctor(n),
            forall|n: Seq<char>| #[trigger] final(self).user_sum(n) == old(self).user_sum(n),
    {
        let ghost k = name@;
        self.user_ctor_schemes.insert(name, s);
        proof {
            assert forall|n: Seq<char>| n != k implies #[trigger] self.user_ctor(n) == old(self).user_ctor(n) by {
                assert(self.user_ctor_schemes.get_spec(n) == old(self).user_ctor_schemes.get_spec(n));
            }
        }
    }

    /// Records a user or imported sum type's variants.
    pub fn add_user_sum(&mut self, name: String, members: Vec<(String, usize)>)
        requires
            old(self).wf(),
        ensures
            final(self).wf(),
            final(self).next_var() == old(self).next_var(),
            final(self).tsub() == old(self).tsub(),
            final(self).rsub() == old(self).rsub(),
            final(self).user_sum(name@) == Some(members@.map_values(|m: (String, usize)| (m.0@, m.1 as nat))),
            forall|n: Seq<char>| n != name@ ==> #[trigger] final(self).user_sum(n) == old(self).user_sum(n),
            forall|n: Seq<char>| #[trigger] final(self).user_ctor(n) == old(self).user_ctor(n),
    {
        let ghost k = name@;
        self.user_sum_ctors.insert(name, members);
        proof {
            assert forall|n: Seq<char>| n != k implies #[trigger] self.user_sum(n) == old(self).user_sum(n) by {
                assert(self.user_sum_ctors.get_spec(n) == old(self).user_sum_ctors.get_spec(n));
            }
        }
    }

    /// Seeds the constructor scope with the open-exposed constructors a
    /// module imports, into the same tables the module's own `type`
    /// declarations use.
    pub fn seed_imported_constructors(&mut self, imported: &crate::infer::ImportedConstructors)
        requires
            old(self).wf(),
        ensures
            final(self).wf(),
            final(self).next_var() == old(self).next_var(),
            final(self).tsub() == old(self).tsub(),
            final(self).rsub() == old(self).rsub(),
            forall|i: int| 0 <= i < imported.ctor_schemes.entries@.len() ==> final(self).user_ctor(
                #[trigger] imported.ctor_schemes.entries@[i].0@,
            ) is Some,
            forall|i: int| 0 <= i < imported.sum_ctors.entries@.len() ==> final(self).user_sum(
                #[trigger] imported.sum_ctors.entries@[i].0@,
            ) is Some,
    {
        let cs = &imported.ctor_schemes.entries;
        let mut i: usize = 0;
        while i < cs.len()
            invariant
                self.wf(),
                self.next_var() == old(self).next_var(),
                self.tsub() == old(self).tsub(),
                self.rsub() == old(self).rsub(),
                forall|n: Seq<char>| #[trigger] self.user_sum(n) == old(self).user_sum(n),
                i <= cs@.len(),
                forall|k: int| 0 <= k < i ==> self.user_ctor(#[trigger] cs@[k].0@) is Some,
            decreases cs.len() - i,
        {
            let name = cs[i].0.clone();
            let s = cs[i].1.duplicate();
            self.add_user_ctor(name, s);
            proof {
                assert forall|k: int| 0 <= k < i + 1 implies self.user_ctor(#[trigger] cs@[k].0@) is Some by {
                    if cs@[k].0@ != cs@[i as int].0@ {
                    }
                }
            }
            i = i + 1;
        }
        let ss = &imported.sum_ctors.entries;
        let mut j: usize = 0;
        while j < ss.len()
            invariant
                self.wf(),
                self.next_var() == old(self).next_var(),
                self.tsub() == old(self).tsub(),
                self.rsub() == old(self).rsub(),
                j <= ss@.len(),
                forall|k: int| 0 <= k < cs@.len() ==> self.user_ctor(#[trigger] cs@[k].0@) is Some,
                forall|k: int| 0 <= k < j ==> self.user_sum(#[trigger] ss@[k].0@) is Some,
            decreases ss.len() - j,
        {
            let name = ss[j].0.clone();
            let mut members: Vec<(String, usize)> = Vec::new();
            let mut k: usize = 0;
            while k < ss[j].1.len()
                invariant
                    j < ss@.len(),
                    k <= ss@[j as int].1@.len(),
                decreases ss@[j as int].1@.len() - k,
            {
                members.push((ss[j].1[k].0.clone(), ss[j].1[k].1));
                k = k + 1;
            }
            self.add_user_sum(name, members);
            j = j + 1;
        }
    }
}

} // verus!
