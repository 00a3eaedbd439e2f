//! The matrix operations of the `case` coverage check (Maranget's usefulness
//! algorithm): patterns lowered to constructor trees, the specialised and
//! default matrices, and the report naming the constructors no arm covers.
use vstd::prelude::*;
use crate::ast::{Pattern, Spanned, Type};
use crate::engine::Infer;
use crate::strings::{join_spec, string_join, views};
use crate::text::{push_str, str_eq};

verus! {

/// A pattern as coverage sees it: variable bindings are erased to `Wild`.
pub enum UPat {
    Wild,
    Ctor(String, Vec<UPat>),
    Str(String),
}

/// The mathematical value of a lowered pattern.
pub enum UPatV {
    Wild,
    Ctor(Seq<char>, Seq<UPatV>),
    Str(Seq<char>),
}

pub open spec fn uv(p: UPat) -> UPatV
    decreases p,
{
    match p {
        UPat::Wild => UPatV::Wild,
        UPat::Ctor(n, ps) => UPatV::Ctor(n@, uvs(ps@)),
        UPat::Str(s) => UPatV::Str(s@),
    }
}

pub open spec fn uvs(s: Seq<UPat>) -> Seq<UPatV>
    decreases s,
{
    if s.len() == 0 {
        Seq::empty()
    } else {
        seq![uv(s[0])] + uvs(s.drop_first())
    }
}

pub proof fn lemma_uvs(s: Seq<UPat>)
    ensures
        uvs(s).len() == s.len(),
        forall|i: int| 0 <= i < s.len() ==> #[trigger] uvs(s)[i] == uv(s[i]),
    decreases s.len(),
{
    if s.len() > 0 {
        lemma_uvs(s.drop_first());
        assert forall|i: int| 0 <= i < s.len() implies #[trigger] uvs(s)[i] == uv(s[i]) by {
            if i > 0 {
                assert(s.drop_first()[i - 1] == s[i]);
            }
        }
    }
}

proof fn lemma_uvs_eq(a: Seq<UPat>, b: Seq<UPatV>)
    requires
        a.len() == b.len(),
        forall|i: int| 0 <= i < a.len() ==> #[trigger] uv(a[i]) == b[i],
    ensures
        uvs(a) == b,
{
    lemma_uvs(a);
    assert(uvs(a) =~= b);
}

/// The rows of a matrix, by value.
pub open spec fn mv(m: Seq<Vec<UPat>>) -> Seq<Seq<UPatV>> {
    m.map_values(|r: Vec<UPat>| uvs(r@))
}

impl UPat {
    /// A structural copy of the pattern.
    pub fn duplicate(&self) -> (r: UPat)
        ensures
            uv(r) == uv(*self),
        decreases self,
    {
        match self {
            UPat::Wild => UPat::Wild,
            UPat::Ctor(n, ps) => UPat::Ctor(n.clone(), duplicate_row(ps)),
            UPat::Str(s) => UPat::Str(s.clone()),
        }
    }
}

/// A structural copy of a row of patterns.
pub fn duplicate_row(ps: &Vec<UPat>) -> (r: Vec<UPat>)
    ensures
        uvs(r@) == uvs(ps@),
    decreases ps,
{
    let mut out: Vec<UPat> = Vec::new();
    let mut i: usize = 0;
    proof {
        lemma_uvs(ps@);
    }
    while i < ps.len()
        invariant
            i <= ps.len(),
            out.len() == i,
            forall|k: int| 0 <= k < i ==> #[trigger] uv(out@[k]) == uv(ps@[k]),
        decreases ps.len() - i,
    {
        proof {
            assert(decreases_to!(ps => ps[i as int]));
        }
        let p = ps[i].duplicate();
        out.push(p);
        i = i + 1;
    }
    proof {
        lemma_uvs(out@);
        assert(uvs(out@) =~= uvs(ps@));
    }
    out
}

/// A pattern lowered for coverage: bindings and `_` become `Wild`, `[]` and
/// `::` the list constructors of the prelude.
pub open spec fn lower_spec(p: Pattern) -> UPatV
    decreases p,
{
    match p {
        Pattern::Wildcard => UPatV::Wild,
        Pattern::Var(_) => UPatV::Wild,
        Pattern::Str(s) => UPatV::Str(s@),
        Pattern::Ctor(n, subs) => UPatV::Ctor(n@, lowers(subs@)),
        Pattern::Nil => UPatV::Ctor(crate::prelude::NIL@, Seq::empty()),
        Pattern::Cons(h, t) => UPatV::Ctor(crate::prelude::CONS@, seq![lower_spec(h.0), lower_spec(t.0)]),
        _ => UPatV::Wild,
    }
}

pub open spec fn lowers(s: Seq<Spanned<Pattern>>) -> Seq<UPatV>
    decreases s,
{
    if s.len() == 0 {
        Seq::empty()
    } else {
        seq![lower_spec(s[0].0)] + lowers(s.drop_first())
    }
}

proof fn lemma_lowers(s: Seq<Spanned<Pattern>>)
    ensures
        lowers(s).len() == s.len(),
        forall|i: int| 0 <= i < s.len() ==> #[trigger] lowers(s)[i] == lower_spec(s[i].0),
    decreases s.len(),
{
    if s.len() > 0 {
        lemma_lowers(s.drop_first());
        assert forall|i: int| 0 <= i < s.len() implies #[trigger] lowers(s)[i] == lower_spec(s[i].0) by {
            if i > 0 {
                assert(s.drop_first()[i - 1] == s[i]);
            }
        }
    }
}

/// The patterns coverage handles: no integer, character or tuple patterns
/// anywhere inside.
pub open spec fn coverable(p: Pattern) -> bool
    decreases p,
{
    match p {
        Pattern::Int(_) => false,
        Pattern::Char(_) => false,
        Pattern::Tuple(_) => false,
        Pattern::Ctor(_, subs) => coverables(subs@),
        Pattern::Cons(h, t) => coverable(h.0) && coverable(t.0),
        _ => true,
    }
}

pub open spec fn coverables(s: Seq<Spanned<Pattern>>) -> bool
    decreases s,
{
    s.len() == 0 || (coverable(s[0].0) && coverables(s.drop_first()))
}

proof fn lemma_coverables(s: Seq<Spanned<Pattern>>, i: int)
    requires
        coverables(s),
        0 <= i < s.len(),
    ensures
        coverable(s[i].0),
    decreases s.len(),
{
    if i > 0 {
        lemma_coverables(s.drop_first(), i - 1);
        assert(s.drop_first()[i - 1] == s[i]);
    }
}

fn string_of(lit: &str) -> (r: String)
    ensures
        r@ == lit@,
{
    let mut s = String::new();
    push_str(&mut s, lit);
    proof {
        assert(s@ =~= lit@);
    }
    s
}

/// Lowers a pattern for the coverage check.
pub fn lower_pattern(pat: &Pattern) -> (r: UPat)
    requires
        coverable(*pat),
    ensures
        uv(r) == lower_spec(*pat),
    decreases pat,
{
    match pat {
        Pattern::Wildcard => UPat::Wild,
        Pattern::Var(_) => UPat::Wild,
        Pattern::Str(s) => UPat::Str(s.clone()),
        Pattern::Ctor(name, subs) => UPat::Ctor(name.clone(), lower_patterns(subs)),
        Pattern::Nil => UPat::Ctor(string_of(crate::prelude::NIL), Vec::new()),
        Pattern::Cons(h, t) => {
            let hp = lower_pattern(&h.0);
            let tp = lower_pattern(&t.0);
            let mut out: Vec<UPat> = Vec::new();
            out.push(hp);
            out.push(tp);
            proof {
                lemma_uvs_eq(out@, seq![lower_spec(h.0), lower_spec(t.0)]);
            }
            UPat::Ctor(string_of(crate::prelude::CONS), out)
        },
        _ => UPat::Wild,
    }
}

/// Lowers each pattern of a list.
fn lower_patterns(subs: &Vec<Spanned<Pattern>>) -> (r: Vec<UPat>)
    requires
        coverables(subs@),
    ensures
        uvs(r@) == lowers(subs@),
    decreases subs,
{
    let mut out: Vec<UPat> = Vec::new();
    let mut i: usize = 0;
    proof {
        lemma_lowers(subs@);
    }
    while i < subs.len()
        invariant
            i <= subs.len(),
            coverables(subs@),
            out.len() == i,
            forall|k: int| 0 <= k < i ==> #[trigger] uv(out@[k]) == lower_spec(subs@[k].0),
        decreases subs.len() - i,
    {
        proof {
            lemma_coverables(subs@, i as int);
            assert(decreases_to!(subs => subs[i as int]));
        }
        let p = lower_pattern(&subs[i].0);
        out.push(p);
        i = i + 1;
    }
    proof {
        lemma_uvs_eq(out@, lowers(subs@));
    }
    out
}

/// The head of a column entry: a constructor with its arity, or a string.
pub enum Head {
    Ctor(String, usize),
    Str(String),
}

pub enum HeadV {
    Ctor(Seq<char>, nat),
    Str(Seq<char>),
}

pub open spec fn hv(h: Head) -> HeadV {
    match h {
        Head::Ctor(n, a) => HeadV::Ctor(n@, a as nat),
        Head::Str(s) => HeadV::Str(s@),
    }
}

/// The head of a pattern, if it is not a wildcard.
pub open spec fn head_spec(p: UPatV) -> Option<HeadV> {
    match p {
        UPatV::Wild => None,
        UPatV::Ctor(n, subs) => Some(HeadV::Ctor(n, subs.len())),
        UPatV::Str(s) => Some(HeadV::Str(s)),
    }
}

/// The head of a pattern.
pub fn head_of(pat: &UPat) -> (r: Option<Head>)
    ensures
        r matches Some(h) ==> head_spec(uv(*pat)) == Some(hv(h)),
        r is None ==> head_spec(uv(*pat)) is None,
{
    match pat {
        UPat::Wild => None,
        UPat::Ctor(name, subs) => {
            proof {
                lemma_uvs(subs@);
            }
            Some(Head::Ctor(name.clone(), subs.len()))
        },
        UPat::Str(s) => Some(Head::Str(s.clone())),
    }
}

/// `n` wildcards.
pub open spec fn wilds(n: nat) -> Seq<UPatV> {
    Seq::new(n, |i: int| UPatV::Wild)
}

/// One row specialised to `head`: dropped when its first pattern is another
/// constructor or string, its first column replaced by the sub-patterns (or
/// by `arity` wildcards for a wildcard) otherwise.
pub open spec fn specialize_row(row: Seq<UPatV>, head: HeadV) -> Option<Seq<UPatV>> {
    let arity: nat = match head {
        HeadV::Ctor(_, a) => a,
        HeadV::Str(_) => 0,
    };
    match row[0] {
        UPatV::Wild => Some(wilds(arity) + row.skip(1)),
        UPatV::Ctor(n, subs) => match head {
            HeadV::Ctor(hn, _) => if n == hn {
                Some(subs + row.skip(1))
            } else {
                None
            },
            HeadV::Str(_) => None,
        },
        UPatV::Str(s) => match head {
            HeadV::Str(hs) => if s == hs {
                Some(row.skip(1))
            } else {
                None
            },
            HeadV::Ctor(_, _) => None,
        },
    }
}

/// Maranget's S(head, matrix): the rows that can match `head`, specialised.
pub open spec fn specialize_spec(m: Seq<Seq<UPatV>>, head: HeadV) -> Seq<Seq<UPatV>>
    decreases m.len(),
{
    if m.len() == 0 {
        Seq::empty()
    } else {
        let rest = specialize_spec(m.drop_last(), head);
        match specialize_row(m.last(), head) {
            Some(r) => rest.push(r),
            None => rest,
        }
    }
}

/// Maranget's D(matrix): the rows starting with a wildcard, first column
/// dropped.
pub open spec fn default_spec(m: Seq<Seq<UPatV>>) -> Seq<Seq<UPatV>>
    decreases m.len(),
{
    if m.len() == 0 {
        Seq::empty()
    } else {
        let rest = default_spec(m.drop_last());
        if m.last()[0] is Wild {
            rest.push(m.last().skip(1))
        } else {
            rest
        }
    }
}

/// Every row has a first column.
pub open spec fn rows_nonempty(m: Seq<Vec<UPat>>) -> bool {
    forall|i: int| 0 <= i < m.len() ==> (#[trigger] m[i]).len() > 0
}

fn copy_from(row: &Vec<UPat>, out: &mut Vec<UPat>, from: usize)
    requires
        from <= row.len(),
    ensures
        uvs(final(out)@) == uvs(old(out)@) + uvs(row@).skip(from as int),
{
    let mut i: usize = from;
    proof {
        lemma_uvs(row@);
        lemma_uvs(old(out)@);
    }
    while i < row.len()
        invariant
            from <= i <= row.len(),
            uvs(row@).len() == row.len(),
            forall|k: int| 0 <= k < row.len() ==> #[trigger] uvs(row@)[k] == uv(row@[k]),
            out.len() == old(out).len() + (i - from),
            forall|k: int| 0 <= k < old(out).len() ==> #[trigger] uv(out@[k]) == uv(old(out)@[k]),
            forall|k: int| old(out).len() <= k < out.len() ==> #[trigger] uv(out@[k]) == uv(row@[from + k - old(out).len()]),
        decreases row.len() - i,
    {
        let p = row[i].duplicate();
        out.push(p);
        i = i + 1;
    }
    proof {
        lemma_uvs(out@);
        lemma_uvs(old(out)@);
        assert(uvs(out@) =~= uvs(old(out)@) + uvs(row@).skip(from as int));
    }
}

/// Maranget's S(head, matrix).
pub fn specialize(matrix: &Vec<Vec<UPat>>, head: &Head) -> (r: Vec<Vec<UPat>>)
    requires
        rows_nonempty(matrix@),
    ensures
        mv(r@) == specialize_spec(mv(matrix@), hv(*head)),
{
    let arity: usize = match head {
        Head::Ctor(_, n) => *n,
        Head::Str(_) => 0,
    };
    let mut out: Vec<Vec<UPat>> = Vec::new();
    let mut i: usize = 0;
    while i < matrix.len()
        invariant
            i <= matrix.len(),
            rows_nonempty(matrix@),
            arity as nat == (match hv(*head) {
                HeadV::Ctor(_, a) => a,
                HeadV::Str(_) => 0nat,
            }),
            mv(out@) == specialize_spec(mv(matrix@.subrange(0, i as int)), hv(*head)),
        decreases matrix.len() - i,
    {
        let row = &matrix[i];
        let ghost rv = uvs(row@);
        proof {
            lemma_uvs(row@);
            assert(mv(matrix@.subrange(0, i + 1)).drop_last() =~= mv(matrix@.subrange(0, i as int)));
            assert(mv(matrix@.subrange(0, i + 1)).last() == rv);
            assert(rv[0] == uv(row@[0]));
        }
        let ghost before = mv(out@);
        match &row[0] {
            UPat::Wild => {
                let mut new_row: Vec<UPat> = Vec::new();
                let mut k: usize = 0;
                while k < arity
                    invariant
                        k <= arity,
                        new_row.len() == k,
                        forall|x: int| 0 <= x < k ==> #[trigger] uv(new_row@[x]) == UPatV::Wild,
                    decreases arity - k,
                {
                    new_row.push(UPat::Wild);
                    k = k + 1;
                }
                proof {
                    lemma_uvs_eq(new_row@, wilds(arity as nat));
                }
                copy_from(row, &mut new_row, 1);
                out.push(new_row);
                proof {
                    assert(mv(out@) =~= before.push(wilds(arity as nat) + rv.skip(1)));
                }
            },
            UPat::Ctor(name, subs) => {
                match head {
                    Head::Ctor(hname, _) => {
                        if str_eq(name.as_str(), hname.as_str()) {
                            let mut new_row = duplicate_row(subs);
                            copy_from(row, &mut new_row, 1);
                            out.push(new_row);
                            proof {
                                assert(mv(out@) =~= before.push(uvs(subs@) + rv.skip(1)));
                            }
                        }
                    },
                    Head::Str(_) => {},
                }
            },
            UPat::Str(s) => {
                match head {
                    Head::Str(hs) => {
                        if str_eq(s.as_str(), hs.as_str()) {
                            let mut new_row: Vec<UPat> = Vec::new();
                            proof {
                                assert(uvs(new_row@) =~= Seq::<UPatV>::empty());
                            }
                            copy_from(row, &mut new_row, 1);
                            out.push(new_row);
                            proof {
                                assert(Seq::<UPatV>::empty() + rv.skip(1) =~= rv.skip(1));
                                assert(mv(out@) =~= before.push(rv.skip(1)));
                            }
                        }
                    },
                    Head::Ctor(_, _) => {},
                }
            },
        }
        i = i + 1;
    }
    proof {
        assert(matrix@.subrange(0, i as int) =~= matrix@);
    }
    out
}

/// Maranget's D(matrix).
pub fn default_matrix(matrix: &Vec<Vec<UPat>>) -> (r: Vec<Vec<UPat>>)
    requires
        rows_nonempty(matrix@),
    ensures
        mv(r@) == default_spec(mv(matrix@)),
{
    let mut out: Vec<Vec<UPat>> = Vec::new();
    let mut i: usize = 0;
    while i < matrix.len()
        invariant
            i <= matrix.len(),
            rows_nonempty(matrix@),
            mv(out@) == default_spec(mv(matrix@.subrange(0, i as int))),
        decreases matrix.len() - i,
    {
        let row = &matrix[i];
        let ghost rv = uvs(row@);
        proof {
            lemma_uvs(row@);
            assert(mv(matrix@.subrange(0, i + 1)).drop_last() =~= mv(matrix@.subrange(0, i as int)));
            assert(mv(matrix@.subrange(0, i + 1)).last() == rv);
            assert(rv[0] == uv(row@[0]));
        }
        let ghost before = mv(out@);
        if let UPat::Wild = &row[0] {
            let mut new_row: Vec<UPat> = Vec::new();
            proof {
                assert(uvs(new_row@) =~= Seq::<UPatV>::empty());
            }
            copy_from(row, &mut new_row, 1);
            out.push(new_row);
            proof {
                assert(Seq::<UPatV>::empty() + rv.skip(1) =~= rv.skip(1));
                assert(mv(out@) =~= before.push(rv.skip(1)));
            }
        }
        i = i + 1;
    }
    proof {
        assert(matrix@.subrange(0, i as int) =~= matrix@);
    }
    out
}

/// Some row's first pattern is constructor `name` with `arity` arguments.
pub open spec fn covers_ctor(m: Seq<Seq<UPatV>>, name: Seq<char>, arity: nat) -> bool {
    exists|i: int| 0 <= i < m.len() && #[trigger] head_spec(m[i][0]) == Some(HeadV::Ctor(name, arity))
}

/// The constructors of a signature that no row starts with, in order.
pub open spec fn uncovered(sig: Seq<(Seq<char>, nat)>, m: Seq<Seq<UPatV>>) -> Seq<Seq<char>>
    decreases sig.len(),
{
    if sig.len() == 0 {
        Seq::empty()
    } else {
        let rest = uncovered(sig.drop_last(), m);
        if covers_ctor(m, sig.last().0, sig.last().1) {
            rest
        } else {
            rest.push(sig.last().0)
        }
    }
}

/// A signature by value: constructor names with their arities.
pub open spec fn sig_view(sig: Seq<(String, usize)>) -> Seq<(Seq<char>, nat)> {
    sig.map_values(|c: (String, usize)| (c.0@, c.1 as nat))
}

/// The report for a `case` that leaves values unmatched: the constructors no
/// arm covers, or a demand for a catch-all when the type has no finite set
/// of constructors.
pub open spec fn missing_text(sig: Option<Seq<(Seq<char>, nat)>>, m: Seq<Seq<UPatV>>) -> Seq<char> {
    match sig {
        Some(ctors) => if uncovered(ctors, m).len() == 0 {
            "some values are not matched"@
        } else {
            "missing constructor(s): "@ + join_spec(", "@, uncovered(ctors, m))
        },
        None => "add a `_` catch-all arm to cover all remaining values"@,
    }
}

fn first_is_ctor(row: &Vec<UPat>, name: &String, arity: usize) -> (r: bool)
    requires
        row.len() > 0,
    ensures
        r == (head_spec(uvs(row@)[0]) == Some(HeadV::Ctor(name@, arity as nat))),
{
    proof {
        lemma_uvs(row@);
    }
    match &row[0] {
        UPat::Ctor(n, subs) => {
            proof {
                lemma_uvs(subs@);
            }
            str_eq(n.as_str(), name.as_str()) && subs.len() == arity
        },
        _ => false,
    }
}

/// The report for the unmatched values of a `case` whose first column is
/// `matrix`, given the scrutinee type's constructors (`None` for a type with
/// no finite set of them).
pub fn missing_report(sig: &Option<Vec<(String, usize)>>, matrix: &Vec<Vec<UPat>>) -> (r: String)
    requires
        rows_nonempty(matrix@),
    ensures
        r@ == missing_text(
            match sig {
                Some(v) => Some(sig_view(v@)),
                None => None,
            },
            mv(matrix@),
        ),
{
    match sig {
        None => string_of("add a `_` catch-all arm to cover all remaining values"),
        Some(ctors) => {
            let mut names: Vec<String> = Vec::new();
            let mut c: usize = 0;
            while c < ctors.len()
                invariant
                    c <= ctors.len(),
                    rows_nonempty(matrix@),
                    views(names@) == uncovered(sig_view(ctors@).subrange(0, c as int), mv(matrix@)),
                decreases ctors.len() - c,
            {
                let mut covered = false;
                let mut i: usize = 0;
                while i < matrix.len()
                    invariant
                        i <= matrix.len(),
                        c < ctors.len(),
                        rows_nonempty(matrix@),
                        covered == exists|x: int| 0 <= x < i && #[trigger] head_spec(mv(matrix@)[x][0]) == Some(
                            HeadV::Ctor(ctors@[c as int].0@, ctors@[c as int].1 as nat),
                        ),
                    decreases matrix.len() - i,
                {
                    if first_is_ctor(&matrix[i], &ctors[c].0, ctors[c].1) {
                        covered = true;
                    }
                    proof {
                        assert(mv(matrix@)[i as int] == uvs(matrix@[i as int]@));
                    }
                    i = i + 1;
                }
                let ghost before = views(names@);
                proof {
                    let sv = sig_view(ctors@).subrange(0, c + 1);
                    assert(sv.drop_last() =~= sig_view(ctors@).subrange(0, c as int));
                    assert(sv.last() == (ctors@[c as int].0@, ctors@[c as int].1 as nat));
                    assert(covered == covers_ctor(mv(matrix@), sv.last().0, sv.last().1));
                }
                if !covered {
                    names.push(ctors[c].0.clone());
                    proof {
                        assert(views(names@) =~= before.push(ctors@[c as int].0@));
                    }
                }
                c = c + 1;
            }
            proof {
                assert(sig_view(ctors@).subrange(0, c as int) =~= sig_view(ctors@));
            }
            if names.len() == 0 {
                string_of("some values are not matched")
            } else {
                let mut out = string_of("missing constructor(s): ");
                let joined = string_join(", ", &names);
                push_str(&mut out, joined.as_str());
                out
            }
        },
    }
}

/// A signature by value, if there is one.
pub open spec fn opt_sig_view(sig: Option<Vec<(String, usize)>>) -> Option<Seq<(Seq<char>, nat)>> {
    match sig {
        Some(v) => Some(sig_view(v@)),
        None => None,
    }
}

/// `r` is what the scrutinee type's constructors can be: none for a type
/// that is not a constructor application, those of the sum type it names
/// otherwise, as far as `Infer::sum_type_constructors` states them.
pub open spec fn signature_of(inf: Infer, ty: Type, r: Option<Vec<(String, usize)>>) -> bool {
    &&& !(inf.applied(crate::ast::tv(ty)) is Con) ==> r is None
    &&& inf.applied(crate::ast::tv(ty)) matches crate::ast::TypeV::Con(n, _) ==> {
        &&& inf.user_sum(n) matches Some(m) ==> r matches Some(v) && sig_view(v@) == m
        &&& inf.user_sum(n) is None && n != "List"@ ==> (r is None <==> crate::prelude::members_spec(n).len() == 0)
        &&& inf.user_sum(n) is None && n != "List"@ ==> (r matches Some(v) ==> sig_view(v@) == crate::prelude::members_spec(n))
        &&& inf.user_sum(n) is None && n == "List"@ ==> r is Some
    }
}

/// The constructors of the scrutinee type: those of the sum type it names,
/// or `None` for a type with no finite set of them.
pub fn complete_signature(inf: &Infer, ty: &Type) -> (r: Option<Vec<(String, usize)>>)
    requires
        inf.wf(),
    ensures
        signature_of(*inf, *ty, r),
{
    let t = inf.apply(ty);
    match &t {
        Type::Con(name, _) => inf.sum_type_constructors(name.as_str()),
        _ => None,
    }
}

/// `text` reports the unmatched values of a `case` on `ty` with first column
/// `m`, for some signature the scrutinee type can have.
pub open spec fn reported(inf: Infer, ty: Type, m: Seq<Seq<UPatV>>, text: Seq<char>) -> bool {
    exists|sig: Option<Vec<(String, usize)>>| #[trigger] signature_of(inf, ty, sig) && text == missing_text(opt_sig_view(sig), m)
}

/// The report for the unmatched values of a `case` on `scrutinee`.
pub fn missing_constructors(inf: &Infer, scrutinee: &Type, matrix: &Vec<Vec<UPat>>) -> (r: String)
    requires
        inf.wf(),
        rows_nonempty(matrix@),
    ensures
        reported(*inf, *scrutinee, mv(matrix@), r@),
{
    let sig = complete_signature(inf, scrutinee);
    let r = missing_report(&sig, matrix);
    proof {
        assert(signature_of(*inf, *scrutinee, sig) && r@ == missing_text(opt_sig_view(sig), mv(matrix@)));
    }
    r
}

} // verus!
