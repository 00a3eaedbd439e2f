//! Dependency analysis over a group of sibling declarations. A declaration
//! depends on a sibling when it uses the sibling's name free (not shadowed by a
//! parameter, lambda, `let` or pattern binder). Tarjan's algorithm collapses
//! those edges into strongly connected components, emitted dependencies first,
//! so each mutually recursive clique can be handled together.
use vstd::prelude::*;

use crate::ast::{Arm, ContentsExpr, Decl, EntryExpr, Expr, Pattern, Spanned};
use crate::text::str_eq;

verus! {

// ---------------------------------------------------------------------------
// Binders and free uses.
// ---------------------------------------------------------------------------

/// The names a pattern binds.
pub open spec fn pat_binders(p: Pattern) -> Set<Seq<char>>
    decreases p,
{
    match p {
        Pattern::Var(n) => set![n@],
        Pattern::Ctor(_, subs) => pats_binders(subs@),
        Pattern::Cons(h, t) => pat_binders(h.0).union(pat_binders(t.0)),
        Pattern::Tuple(subs) => pats_binders(subs@),
        _ => Set::empty(),
    }
}

/// The names a list of patterns binds.
pub open spec fn pats_binders(ps: Seq<Spanned<Pattern>>) -> Set<Seq<char>>
    decreases ps,
{
    if ps.len() == 0 {
        Set::empty()
    } else {
        pats_binders(ps.drop_last()).union(pat_binders(ps.last().0))
    }
}

/// The names a group of bindings binds.
pub open spec fn decl_names(ds: Seq<Decl>) -> Set<Seq<char>> {
    Set::new(|n: Seq<char>| exists|i: int| 0 <= i < ds.len() && (#[trigger] ds[i]).name@ == n)
}

/// The names an expression uses that are not in `b`, the names bound around
/// it: its free names outside `b`.
pub open spec fn uses(e: Expr, b: Set<Seq<char>>) -> Set<Seq<char>>
    decreases e,
{
    match e {
        Expr::Var(n) => if b.contains(n@) {
            Set::empty()
        } else {
            set![n@]
        },
        Expr::Str(_) | Expr::Int(_) | Expr::Float(_) | Expr::Char(_) | Expr::Ctor(_)
        | Expr::PolicyExhaust(_) => Set::empty(),
        Expr::AptPackage(x) | Expr::SystemdService(x) => uses(x.0, b),
        Expr::Filesystem { path, entry } => uses(path.0, b).union(
            match entry {
                EntryExpr::File { contents, mode } => uses(contents.0, b).union(uses(mode.0, b)),
                EntryExpr::Directory { mode } => uses(mode.0, b),
                EntryExpr::Symlink { target } => uses(target.0, b),
            },
        ),
        Expr::LineInFile { path, line } => uses(path.0, b).union(uses(line.0, b)),
        Expr::Scroll { name, policy, notifies, contents } => uses(name.0, b).union(
            match policy {
                Some(x) => uses(x.0, b),
                None => Set::empty(),
            },
        ).union(
            match notifies {
                Some(x) => uses(x.0, b),
                None => Set::empty(),
            },
        ).union(
            match contents {
                ContentsExpr::Glyphs(x) => uses(x.0, b),
                ContentsExpr::Groups(x) => uses(x.0, b),
            },
        ),
        Expr::PolicyRetry(fields) => fields_uses(fields@, b),
        Expr::List(items) => seq_uses(items@, b),
        Expr::Lam { param, body } => uses(body.0, b.union(pat_binders(param.0))),
        Expr::App(f, x) => uses(f.0, b).union(uses(x.0, b)),
        Expr::Let { decls, body } => {
            let inner = b.union(decl_names(decls@));
            decls_uses(decls@, inner).union(uses(body.0, inner))
        },
        Expr::Record(fields) => fields_uses(fields@, b),
        Expr::RecordUpdate { base, fields } => uses(base.0, b).union(updates_uses(fields@, b)),
        Expr::Tuple(items) => seq_uses(items@, b),
        Expr::Field(base, _) => uses(base.0, b),
        Expr::Case { scrutinee, arms } => uses(scrutinee.0, b).union(arms_uses(arms@, b)),
        Expr::If { cond, then_, else_ } => uses(cond.0, b).union(uses(then_.0, b)).union(
            uses(else_.0, b),
        ),
    }
}

pub open spec fn seq_uses(s: Seq<Spanned<Expr>>, b: Set<Seq<char>>) -> Set<Seq<char>>
    decreases s,
{
    if s.len() == 0 {
        Set::empty()
    } else {
        seq_uses(s.drop_last(), b).union(uses(s.last().0, b))
    }
}

pub open spec fn fields_uses(s: Seq<(String, Spanned<Expr>)>, b: Set<Seq<char>>) -> Set<Seq<char>>
    decreases s,
{
    if s.len() == 0 {
        Set::empty()
    } else {
        fields_uses(s.drop_last(), b).union(uses(s.last().1.0, b))
    }
}

pub open spec fn updates_uses(s: Seq<(Spanned<String>, Spanned<Expr>)>, b: Set<Seq<char>>) -> Set<Seq<char>>
    decreases s,
{
    if s.len() == 0 {
        Set::empty()
    } else {
        updates_uses(s.drop_last(), b).union(uses(s.last().1.0, b))
    }
}

/// Each binding's body, with its own parameters bound.
pub open spec fn decls_uses(s: Seq<Decl>, b: Set<Seq<char>>) -> Set<Seq<char>>
    decreases s,
{
    if s.len() == 0 {
        Set::empty()
    } else {
        decls_uses(s.drop_last(), b).union(
            uses(s.last().body.0, b.union(pats_binders(s.last().params@))),
        )
    }
}

/// Each arm's body, with its pattern's binders bound.
pub open spec fn arms_uses(s: Seq<Arm>, b: Set<Seq<char>>) -> Set<Seq<char>>
    decreases s,
{
    if s.len() == 0 {
        Set::empty()
    } else {
        arms_uses(s.drop_last(), b).union(uses(s.last().body.0, b.union(pat_binders(s.last().pat.0))))
    }
}

// ---------------------------------------------------------------------------
// The executable walk.
// ---------------------------------------------------------------------------

/// The names held in a list of strings.
pub open spec fn bset(s: Seq<String>) -> Set<Seq<char>> {
    Set::new(|n: Seq<char>| exists|j: int| 0 <= j < s.len() && (#[trigger] s[j])@ == n)
}

/// The index a name resolves to among `(name, index)` entries: the last entry
/// with that name wins.
pub open spec fn lookup_last(names: Seq<(Seq<char>, usize)>, n: Seq<char>) -> Option<usize>
    decreases names.len(),
{
    if names.len() == 0 {
        None
    } else if names.last().0 == n {
        Some(names.last().1)
    } else {
        lookup_last(names.drop_last(), n)
    }
}

/// Index `k` is the target of some used name.
pub open spec fn hit(names: Seq<(Seq<char>, usize)>, u: Set<Seq<char>>, k: int) -> bool {
    exists|n: Seq<char>| u.contains(n) && lookup_index(names, n) == k
}

/// The index a name resolves to, or -1 when it names no entry.
pub open spec fn lookup_index(names: Seq<(Seq<char>, usize)>, n: Seq<char>) -> int {
    match lookup_last(names, n) {
        Some(v) => v as int,
        None => -1,
    }
}

/// `f` is `o` with every index some name in `u` resolves to marked.
pub open spec fn marks(o: Seq<bool>, f: Seq<bool>, names: Seq<(Seq<char>, usize)>, u: Set<Seq<char>>) -> bool {
    &&& f.len() == o.len()
    &&& forall|k: int| 0 <= k < f.len() ==> (#[trigger] f[k] <==> (o[k] || hit(names, u, k)))
}

proof fn lemma_marks_none(o: Seq<bool>, names: Seq<(Seq<char>, usize)>)
    ensures
        marks(o, o, names, Set::empty()),
{
}

proof fn lemma_marks_chain(
    a: Seq<bool>,
    b: Seq<bool>,
    c: Seq<bool>,
    names: Seq<(Seq<char>, usize)>,
    u1: Set<Seq<char>>,
    u2: Set<Seq<char>>,
)
    requires
        marks(a, b, names, u1),
        marks(b, c, names, u2),
    ensures
        marks(a, c, names, u1.union(u2)),
{
    assert forall|k: int| 0 <= k < c.len() implies (#[trigger] c[k] <==> (a[k] || hit(names, u1.union(u2), k))) by {
        if hit(names, u1.union(u2), k) {
            let n = choose|n: Seq<char>| u1.union(u2).contains(n) && lookup_index(names, n) == k;
            if u1.contains(n) {
                assert(hit(names, u1, k));
            } else {
                assert(hit(names, u2, k));
            }
        }
        if hit(names, u1, k) {
            let n = choose|n: Seq<char>| u1.contains(n) && lookup_index(names, n) == k;
            assert(u1.union(u2).contains(n));
        }
        if hit(names, u2, k) {
            let n = choose|n: Seq<char>| u2.contains(n) && lookup_index(names, n) == k;
            assert(u1.union(u2).contains(n));
        }
    }
}

proof fn lemma_marks_same(o: Seq<bool>, f: Seq<bool>, names: Seq<(Seq<char>, usize)>, u: Set<Seq<char>>, v: Set<Seq<char>>)
    requires
        marks(o, f, names, u),
        u == v,
    ensures
        marks(o, f, names, v),
{
}

pub open spec fn names_view(names: Seq<(String, usize)>) -> Seq<(Seq<char>, usize)> {
    names.map_values(|e: (String, usize)| (e.0@, e.1))
}

pub open spec fn ids_below(names: Seq<(String, usize)>, n: nat) -> bool {
    forall|i: int| 0 <= i < names.len() ==> (#[trigger] names[i]).1 < n
}

proof fn lemma_lookup_below(names: Seq<(Seq<char>, usize)>, x: Seq<char>, n: nat)
    requires
        forall|i: int| 0 <= i < names.len() ==> (#[trigger] names[i]).1 < n,
    ensures
        lookup_last(names, x) matches Some(k) ==> k < n,
    decreases names.len(),
{
    if names.len() > 0 && names.last().0 != x {
        lemma_lookup_below(names.drop_last(), x, n);
    }
}

fn find_name(names: &Vec<(String, usize)>, x: &String) -> (r: Option<usize>)
    ensures
        r == lookup_last(names_view(names@), x@),
{
    let mut i = names.len();
    proof {
        assert(names_view(names@).subrange(0, names@.len() as int) =~= names_view(names@));
    }
    while i > 0
        invariant
            i <= names@.len(),
            lookup_last(names_view(names@).subrange(0, i as int), x@) == lookup_last(
                names_view(names@),
                x@,
            ),
        decreases i,
    {
        let ghost pre = names_view(names@).subrange(0, i as int);
        proof {
            assert(pre.drop_last() =~= names_view(names@).subrange(0, i - 1));
            assert(pre.last() == (names@[i - 1].0@, names@[i - 1].1));
        }
        if str_eq(names[i - 1].0.as_str(), x.as_str()) {
            return Some(names[i - 1].1);
        }
        i = i - 1;
    }
    proof {
        assert(names_view(names@).subrange(0, 0) =~= Seq::<(Seq<char>, usize)>::empty());
        assert(names_view(names@).subrange(0, names@.len() as int) =~= names_view(names@));
    }
    None
}

fn is_bound(bound: &Vec<String>, x: &String) -> (r: bool)
    ensures
        r == bset(bound@).contains(x@),
{
    let mut i: usize = 0;
    while i < bound.len()
        invariant
            i <= bound@.len(),
            forall|j: int| 0 <= j < i ==> (#[trigger] bound@[j])@ != x@,
        decreases bound.len() - i,
    {
        if str_eq(bound[i].as_str(), x.as_str()) {
            return true;
        }
        i = i + 1;
    }
    false
}

proof fn lemma_bset_push(s: Seq<String>, x: String)
    ensures
        bset(s.push(x)) == bset(s).insert(x@),
{
    assert forall|n: Seq<char>| bset(s.push(x)).contains(n) <==> bset(s).insert(x@).contains(n) by {
        if bset(s.push(x)).contains(n) {
            let j = choose|j: int| 0 <= j < s.push(x).len() && (#[trigger] s.push(x)[j])@ == n;
            if j < s.len() {
                assert(s[j]@ == n);
            }
        }
        if bset(s).contains(n) {
            let j = choose|j: int| 0 <= j < s.len() && (#[trigger] s[j])@ == n;
            assert(s.push(x)[j] == s[j]);
        }
        if n == x@ {
            assert(s.push(x)[s.len() as int] == x);
        }
    }
    assert(bset(s.push(x)) =~= bset(s).insert(x@));
}

/// Pushes the names a pattern binds onto `out`.
fn push_binders(p: &Pattern, out: &mut Vec<String>)
    ensures
        final(out)@.len() >= old(out)@.len(),
        final(out)@.subrange(0, old(out)@.len() as int) == old(out)@,
        bset(final(out)@) == bset(old(out)@).union(pat_binders(*p)),
    decreases p,
{
    let ghost start = out@;
    match p {
        Pattern::Var(n) => {
            let c = n.clone();
            out.push(c);
            proof {
                lemma_bset_push(start, c);
                assert(out@.subrange(0, start.len() as int) =~= start);
                assert(bset(start).insert(n@) =~= bset(start).union(set![n@]));
            }
        },
        Pattern::Ctor(_, subs) => {
            push_pats_binders(subs, out);
        },
        Pattern::Tuple(subs) => {
            push_pats_binders(subs, out);
        },
        Pattern::Cons(h, t) => {
            push_binders(&h.0, out);
            let ghost mid = out@;
            push_binders(&t.0, out);
            proof {
                assert(out@.subrange(0, start.len() as int) =~= mid.subrange(0, start.len() as int));
                assert(bset(out@) =~= bset(start).union(pat_binders(*p)));
            }
        },
        _ => {
            proof {
                assert(out@.subrange(0, start.len() as int) =~= start);
                assert(bset(out@) =~= bset(start).union(pat_binders(*p)));
            }
        },
    }
}

fn push_pats_binders(ps: &Vec<Spanned<Pattern>>, out: &mut Vec<String>)
    ensures
        final(out)@.len() >= old(out)@.len(),
        final(out)@.subrange(0, old(out)@.len() as int) == old(out)@,
        bset(final(out)@) == bset(old(out)@).union(pats_binders(ps@)),
    decreases ps,
{
    let ghost start = out@;
    let mut i: usize = 0;
    proof {
        assert(ps@.subrange(0, 0) =~= Seq::<Spanned<Pattern>>::empty());
        assert(out@.subrange(0, start.len() as int) =~= start);
        assert(bset(out@) =~= bset(start).union(pats_binders(ps@.subrange(0, 0))));
    }
    while i < ps.len()
        invariant
            i <= ps@.len(),
            out@.len() >= start.len(),
            out@.subrange(0, start.len() as int) == start,
            bset(out@) == bset(start).union(pats_binders(ps@.subrange(0, i as int))),
        decreases ps.len() - i,
    {
        proof {
            assert(decreases_to!(ps => ps[i as int]));
        }
        let ghost before = out@;
        push_binders(&ps[i].0, out);
        proof {
            let next = ps@.subrange(0, i + 1);
            assert(next.drop_last() =~= ps@.subrange(0, i as int));
            assert(out@.subrange(0, start.len() as int) =~= before.subrange(0, start.len() as int));
            assert(bset(out@) =~= bset(start).union(pats_binders(next)));
        }
        i = i + 1;
    }
    proof {
        assert(ps@.subrange(0, i as int) =~= ps@);
    }
}

proof fn lemma_truncate_back(s: Seq<String>, t: Seq<String>)
    requires
        s.len() >= t.len(),
        s.subrange(0, t.len() as int) == t,
    ensures
        s.subrange(0, t.len() as int) =~= t,
{
}

/// Marks in `refs` every index a name used free in `e` (outside `bound`)
/// resolves to; `bound` comes back as it was.
fn walk(e: &Expr, bound: &mut Vec<String>, names: &Vec<(String, usize)>, refs: &mut Vec<bool>)
    requires
        ids_below(names@, old(refs)@.len() as nat),
    ensures
        final(bound)@ == old(bound)@,
        marks(old(refs)@, final(refs)@, names_view(names@), uses(*e, bset(old(bound)@))),
    decreases e,
{
    let ghost r0 = refs@;
    let ghost b0 = bound@;
    let ghost nm = names_view(names@);
    let ghost bs = bset(b0);
    match e {
        Expr::Var(n) => {
            if !is_bound(bound, n) {
                match find_name(names, n) {
                    Some(k) => {
                        proof {
                            assert forall|i: int| 0 <= i < nm.len() implies (#[trigger] nm[i]).1 < r0.len() by {
                                assert(nm[i].1 == names@[i].1);
                            }
                            lemma_lookup_below(nm, n@, r0.len() as nat);
                        }
                        refs.set(k, true);
                        proof {
                            assert(uses(*e, bs) =~= set![n@]);
                            assert(uses(*e, bs).contains(n@) && lookup_last(nm, n@) == Some(k));
                            assert(hit(nm, uses(*e, bs), k as int));
                            assert forall|j: int| 0 <= j < refs@.len() implies (#[trigger] refs@[j] <==> (r0[j] || hit(nm, uses(*e, bs), j))) by {
                                if j == k {
                                    assert(refs@[j]);
                                    assert(hit(nm, uses(*e, bs), j));
                                } else {
                                    assert(refs@[j] == r0[j]);
                                    if hit(nm, uses(*e, bs), j) {
                                        let m = choose|m: Seq<char>| uses(*e, bs).contains(m) && lookup_index(nm, m) == j;
                                        assert(m == n@);
                                        assert(false);
                                    }
                                }
                            }
                        }
                    },
                    None => {
                        proof {
                            assert forall|j: int| 0 <= j < refs@.len() implies (#[trigger] refs@[j] <==> (r0[j] || hit(nm, uses(*e, bs), j))) by {
                                if hit(nm, uses(*e, bs), j) {
                                    let m = choose|m: Seq<char>| uses(*e, bs).contains(m) && lookup_index(nm, m) == j;
                                    assert(m == n@);
                                }
                            }
                        }
                    },
                }
            } else {
                proof {
                    assert(uses(*e, bs) =~= Set::<Seq<char>>::empty());
                    lemma_marks_none(r0, nm);
                }
            }
        },
        Expr::Str(_) | Expr::Int(_) | Expr::Float(_) | Expr::Char(_) | Expr::Ctor(_)
        | Expr::PolicyExhaust(_) => {
            proof {
                lemma_marks_none(r0, nm);
            }
        },
        Expr::AptPackage(x) | Expr::SystemdService(x) => {
            walk(&x.0, bound, names, refs);
        },
        Expr::Filesystem { path, entry } => {
            walk(&path.0, bound, names, refs);
            let ghost r1 = refs@;
            match entry {
                EntryExpr::File { contents, mode } => {
                    walk(&contents.0, bound, names, refs);
                    let ghost r2 = refs@;
                    walk(&mode.0, bound, names, refs);
                    proof {
                        lemma_marks_chain(r1, r2, refs@, nm, uses(contents.0, bs), uses(mode.0, bs));
                    }
                },
                EntryExpr::Directory { mode } => {
                    walk(&mode.0, bound, names, refs);
                },
                EntryExpr::Symlink { target } => {
                    walk(&target.0, bound, names, refs);
                },
            }
            proof {
                let eu = match entry {
                    EntryExpr::File { contents, mode } => uses(contents.0, bs).union(uses(mode.0, bs)),
                    EntryExpr::Directory { mode } => uses(mode.0, bs),
                    EntryExpr::Symlink { target } => uses(target.0, bs),
                };
                lemma_marks_chain(r0, r1, refs@, nm, uses(path.0, bs), eu);
            }
        },
        Expr::LineInFile { path, line } => {
            walk(&path.0, bound, names, refs);
            let ghost r1 = refs@;
            walk(&line.0, bound, names, refs);
            proof {
                lemma_marks_chain(r0, r1, refs@, nm, uses(path.0, bs), uses(line.0, bs));
            }
        },
        Expr::Scroll { name, policy, notifies, contents } => {
            walk(&name.0, bound, names, refs);
            let ghost r1 = refs@;
            match policy {
                Some(x) => walk(&x.0, bound, names, refs),
                None => {
                    proof {
                        lemma_marks_none(r1, nm);
                    }
                },
            }
            let ghost r2 = refs@;
            match notifies {
                Some(x) => walk(&x.0, bound, names, refs),
                None => {
                    proof {
                        lemma_marks_none(r2, nm);
                    }
                },
            }
            let ghost r3 = refs@;
            match contents {
                ContentsExpr::Glyphs(x) => walk(&x.0, bound, names, refs),
                ContentsExpr::Groups(x) => walk(&x.0, bound, names, refs),
            }
            proof {
                let pu = match policy {
                    Some(x) => uses(x.0, bs),
                    None => Set::empty(),
                };
                let nu = match notifies {
                    Some(x) => uses(x.0, bs),
                    None => Set::empty(),
                };
                let cu = match contents {
                    ContentsExpr::Glyphs(x) => uses(x.0, bs),
                    ContentsExpr::Groups(x) => uses(x.0, bs),
                };
                lemma_marks_chain(r0, r1, r2, nm, uses(name.0, bs), pu);
                lemma_marks_chain(r0, r2, r3, nm, uses(name.0, bs).union(pu), nu);
                lemma_marks_chain(r0, r3, refs@, nm, uses(name.0, bs).union(pu).union(nu), cu);
            }
        },
        Expr::PolicyRetry(fields) => {
            walk_fields(fields, bound, names, refs);
        },
        Expr::Record(fields) => {
            walk_fields(fields, bound, names, refs);
        },
        Expr::List(items) => {
            walk_seq(items, bound, names, refs);
        },
        Expr::Tuple(items) => {
            walk_seq(items, bound, names, refs);
        },
        Expr::Lam { param, body } => {
            let mark = bound.len();
            push_binders(&param.0, bound);
            walk(&body.0, bound, names, refs);
            bound.truncate(mark);
            proof {
                assert(bound@ =~= b0);
            }
        },
        Expr::App(f, x) => {
            walk(&f.0, bound, names, refs);
            let ghost r1 = refs@;
            walk(&x.0, bound, names, refs);
            proof {
                lemma_marks_chain(r0, r1, refs@, nm, uses(f.0, bs), uses(x.0, bs));
            }
        },
        Expr::Let { decls, body } => {
            let mark = bound.len();
            let mut i: usize = 0;
            while i < decls.len()
                invariant
                    i <= decls@.len(),
                    bound@.len() == mark + i,
                    bound@.subrange(0, mark as int) == b0,
                    forall|j: int| 0 <= j < i ==> (#[trigger] bound@[mark + j])@ == decls@[j].name@,
                decreases decls.len() - i,
            {
                bound.push(decls[i].name.clone());
                proof {
                    assert(bound@.subrange(0, mark as int) =~= b0);
                }
                i = i + 1;
            }
            let ghost inner = bs.union(decl_names(decls@));
            proof {
                assert forall|n: Seq<char>| bset(bound@).contains(n) <==> inner.contains(n) by {
                    if bset(bound@).contains(n) {
                        let j = choose|j: int| 0 <= j < bound@.len() && (#[trigger] bound@[j])@ == n;
                        if j < mark {
                            assert(bound@.subrange(0, mark as int)[j] == bound@[j]);
                            assert(bs.contains(n));
                        } else {
                            assert(bound@[mark + (j - mark)] == bound@[j]);
                            assert(decls@[j - mark].name@ == n);
                            assert(decl_names(decls@).contains(n));
                        }
                    }
                    if bs.contains(n) {
                        let j = choose|j: int| 0 <= j < b0.len() && (#[trigger] b0[j])@ == n;
                        assert(bound@.subrange(0, mark as int)[j] == bound@[j]);
                        assert(bound@[j]@ == n);
                    }
                    if decl_names(decls@).contains(n) {
                        let j = choose|j: int| 0 <= j < decls@.len() && (#[trigger] decls@[j]).name@ == n;
                        assert(bound@[mark + j]@ == n);
                    }
                }
                assert(bset(bound@) =~= inner);
            }
            walk_decls(decls, bound, names, refs);
            let ghost r1 = refs@;
            walk(&body.0, bound, names, refs);
            proof {
                lemma_marks_chain(r0, r1, refs@, nm, decls_uses(decls@, inner), uses(body.0, inner));
            }
            bound.truncate(mark);
            proof {
                assert(bound@ =~= b0);
            }
        },
        Expr::RecordUpdate { base, fields } => {
            walk(&base.0, bound, names, refs);
            let ghost r1 = refs@;
            walk_updates(fields, bound, names, refs);
            proof {
                lemma_marks_chain(r0, r1, refs@, nm, uses(base.0, bs), updates_uses(fields@, bs));
            }
        },
        Expr::Field(base, _) => {
            walk(&base.0, bound, names, refs);
        },
        Expr::Case { scrutinee, arms } => {
            walk(&scrutinee.0, bound, names, refs);
            let ghost r1 = refs@;
            walk_arms(arms, bound, names, refs);
            proof {
                lemma_marks_chain(r0, r1, refs@, nm, uses(scrutinee.0, bs), arms_uses(arms@, bs));
            }
        },
        Expr::If { cond, then_, else_ } => {
            walk(&cond.0, bound, names, refs);
            let ghost r1 = refs@;
            walk(&then_.0, bound, names, refs);
            let ghost r2 = refs@;
            walk(&else_.0, bound, names, refs);
            proof {
                lemma_marks_chain(r0, r1, r2, nm, uses(cond.0, bs), uses(then_.0, bs));
                lemma_marks_chain(r0, r2, refs@, nm, uses(cond.0, bs).union(uses(then_.0, bs)), uses(else_.0, bs));
            }
        },
    }
}

fn walk_seq(s: &Vec<Spanned<Expr>>, bound: &mut Vec<String>, names: &Vec<(String, usize)>, refs: &mut Vec<bool>)
    requires
        ids_below(names@, old(refs)@.len() as nat),
    ensures
        final(bound)@ == old(bound)@,
        marks(old(refs)@, final(refs)@, names_view(names@), seq_uses(s@, bset(old(bound)@))),
    decreases s,
{
    let ghost r0 = refs@;
    let ghost bs = bset(bound@);
    let ghost b0 = bound@;
    let ghost nm = names_view(names@);
    let mut i: usize = 0;
    proof {
        assert(s@.subrange(0, 0) =~= Seq::<Spanned<Expr>>::empty());
        lemma_marks_none(r0, nm);
    }
    while i < s.len()
        invariant
            i <= s@.len(),
            bound@ == b0,
            bs == bset(b0),
            nm == names_view(names@),
            ids_below(names@, r0.len() as nat),
            marks(r0, refs@, nm, seq_uses(s@.subrange(0, i as int), bs)),
        decreases s.len() - i,
    {
        proof {
            assert(decreases_to!(s => s[i as int]));
        }
        let ghost r1 = refs@;
        walk(&s[i].0, bound, names, refs);
        proof {
            let next = s@.subrange(0, i + 1);
            assert(next.drop_last() =~= s@.subrange(0, i as int));
            lemma_marks_chain(r0, r1, refs@, nm, seq_uses(s@.subrange(0, i as int), bs), uses(s@[i as int].0, bs));
        }
        i = i + 1;
    }
    proof {
        assert(s@.subrange(0, i as int) =~= s@);
    }
}

fn walk_fields(s: &Vec<(String, Spanned<Expr>)>, bound: &mut Vec<String>, names: &Vec<(String, usize)>, refs: &mut Vec<bool>)
    requires
        ids_below(names@, old(refs)@.len() as nat),
    ensures
        final(bound)@ == old(bound)@,
        marks(old(refs)@, final(refs)@, names_view(names@), fields_uses(s@, bset(old(bound)@))),
    decreases s,
{
    let ghost r0 = refs@;
    let ghost bs = bset(bound@);
    let ghost b0 = bound@;
    let ghost nm = names_view(names@);
    let mut i: usize = 0;
    proof {
        assert(s@.subrange(0, 0) =~= Seq::<(String, Spanned<Expr>)>::empty());
        lemma_marks_none(r0, nm);
    }
    while i < s.len()
        invariant
            i <= s@.len(),
            bound@ == b0,
            bs == bset(b0),
            nm == names_view(names@),
            ids_below(names@, r0.len() as nat),
            marks(r0, refs@, nm, fields_uses(s@.subrange(0, i as int), bs)),
        decreases s.len() - i,
    {
        proof {
            assert(decreases_to!(s => s[i as int]));
            assert(decreases_to!(s[i as int] => s[i as int].1));
        }
        let ghost r1 = refs@;
        walk(&s[i].1.0, bound, names, refs);
        proof {
            let next = s@.subrange(0, i + 1);
            assert(next.drop_last() =~= s@.subrange(0, i as int));
            lemma_marks_chain(r0, r1, refs@, nm, fields_uses(s@.subrange(0, i as int), bs), uses(s@[i as int].1.0, bs));
        }
        i = i + 1;
    }
    proof {
        assert(s@.subrange(0, i as int) =~= s@);
    }
}

fn walk_updates(s: &Vec<(Spanned<String>, Spanned<Expr>)>, bound: &mut Vec<String>, names: &Vec<(String, usize)>, refs: &mut Vec<bool>)
    requires
        ids_below(names@, old(refs)@.len() as nat),
    ensures
        final(bound)@ == old(bound)@,
        marks(old(refs)@, final(refs)@, names_view(names@), updates_uses(s@, bset(old(bound)@))),
    decreases s,
{
    let ghost r0 = refs@;
    let ghost bs = bset(bound@);
    let ghost b0 = bound@;
    let ghost nm = names_view(names@);
    let mut i: usize = 0;
    proof {
        assert(s@.subrange(0, 0) =~= Seq::<(Spanned<String>, Spanned<Expr>)>::empty());
        lemma_marks_none(r0, nm);
    }
    while i < s.len()
        invariant
            i <= s@.len(),
            bound@ == b0,
            bs == bset(b0),
            nm == names_view(names@),
            ids_below(names@, r0.len() as nat),
            marks(r0, refs@, nm, updates_uses(s@.subrange(0, i as int), bs)),
        decreases s.len() - i,
    {
        proof {
            assert(decreases_to!(s => s[i as int]));
            assert(decreases_to!(s[i as int] => s[i as int].1));
        }
        let ghost r1 = refs@;
        walk(&s[i].1.0, bound, names, refs);
        proof {
            let next = s@.subrange(0, i + 1);
            assert(next.drop_last() =~= s@.subrange(0, i as int));
            lemma_marks_chain(r0, r1, refs@, nm, updates_uses(s@.subrange(0, i as int), bs), uses(s@[i as int].1.0, bs));
        }
        i = i + 1;
    }
    proof {
        assert(s@.subrange(0, i as int) =~= s@);
    }
}

fn walk_decls(s: &Vec<Decl>, bound: &mut Vec<String>, names: &Vec<(String, usize)>, refs: &mut Vec<bool>)
    requires
        ids_below(names@, old(refs)@.len() as nat),
    ensures
        final(bound)@ == old(bound)@,
        marks(old(refs)@, final(refs)@, names_view(names@), decls_uses(s@, bset(old(bound)@))),
    decreases s,
{
    let ghost r0 = refs@;
    let ghost bs = bset(bound@);
    let ghost b0 = bound@;
    let ghost nm = names_view(names@);
    let mut i: usize = 0;
    proof {
        assert(s@.subrange(0, 0) =~= Seq::<Decl>::empty());
        lemma_marks_none(r0, nm);
    }
    while i < s.len()
        invariant
            i <= s@.len(),
            bound@ == b0,
            bs == bset(b0),
            nm == names_view(names@),
            ids_below(names@, r0.len() as nat),
            marks(r0, refs@, nm, decls_uses(s@.subrange(0, i as int), bs)),
        decreases s.len() - i,
    {
        proof {
            assert(decreases_to!(s => s[i as int]));
            assert(decreases_to!(s[i as int] => s[i as int].body));
        }
        let ghost r1 = refs@;
        let mark = bound.len();
        push_pats_binders(&s[i].params, bound);
        walk(&s[i].body.0, bound, names, refs);
        bound.truncate(mark);
        proof {
            assert(bound@ =~= b0);
            let next = s@.subrange(0, i + 1);
            assert(next.drop_last() =~= s@.subrange(0, i as int));
            lemma_marks_chain(
                r0,
                r1,
                refs@,
                nm,
                decls_uses(s@.subrange(0, i as int), bs),
                uses(s@[i as int].body.0, bs.union(pats_binders(s@[i as int].params@))),
            );
        }
        i = i + 1;
    }
    proof {
        assert(s@.subrange(0, i as int) =~= s@);
    }
}

fn walk_arms(s: &Vec<Arm>, bound: &mut Vec<String>, names: &Vec<(String, usize)>, refs: &mut Vec<bool>)
    requires
        ids_below(names@, old(refs)@.len() as nat),
    ensures
        final(bound)@ == old(bound)@,
        marks(old(refs)@, final(refs)@, names_view(names@), arms_uses(s@, bset(old(bound)@))),
    decreases s,
{
    let ghost r0 = refs@;
    let ghost bs = bset(bound@);
    let ghost b0 = bound@;
    let ghost nm = names_view(names@);
    let mut i: usize = 0;
    proof {
        assert(s@.subrange(0, 0) =~= Seq::<Arm>::empty());
        lemma_marks_none(r0, nm);
    }
    while i < s.len()
        invariant
            i <= s@.len(),
            bound@ == b0,
            bs == bset(b0),
            nm == names_view(names@),
            ids_below(names@, r0.len() as nat),
            marks(r0, refs@, nm, arms_uses(s@.subrange(0, i as int), bs)),
        decreases s.len() - i,
    {
        proof {
            assert(decreases_to!(s => s[i as int]));
            assert(decreases_to!(s[i as int] => s[i as int].body));
        }
        let ghost r1 = refs@;
        let mark = bound.len();
        push_binders(&s[i].pat.0, bound);
        walk(&s[i].body.0, bound, names, refs);
        bound.truncate(mark);
        proof {
            assert(bound@ =~= b0);
            let next = s@.subrange(0, i + 1);
            assert(next.drop_last() =~= s@.subrange(0, i as int));
            lemma_marks_chain(
                r0,
                r1,
                refs@,
                nm,
                arms_uses(s@.subrange(0, i as int), bs),
                uses(s@[i as int].body.0, bs.union(pat_binders(s@[i as int].pat.0))),
            );
        }
        i = i + 1;
    }
    proof {
        assert(s@.subrange(0, i as int) =~= s@);
    }
}

// ---------------------------------------------------------------------------
// Dependency edges.
// ---------------------------------------------------------------------------

/// The names a binding uses free: its body, with its parameters bound.
pub open spec fn decl_uses(d: Decl) -> Set<Seq<char>> {
    uses(d.body.0, pats_binders(d.params@))
}

pub open spec fn strictly_sorted(s: Seq<usize>) -> bool {
    forall|i: int, j: int| 0 <= i < j < s.len() ==> s[i] < s[j]
}

/// The indices the names a binding uses free resolve to among `names`
/// (`(name, index)` entries, the last of a name winning), in increasing
/// order: the binding's edges in the dependency graph.
fn dependency_indices(decl: &Decl, names: &Vec<(String, usize)>, n: usize) -> (r: Vec<usize>)
    requires
        ids_below(names@, n as nat),
    ensures
        strictly_sorted(r@),
        forall|k: int| 0 <= k < r@.len() ==> r@[k] < n,
        forall|k: int| 0 <= k < n ==> (r@.contains(k as usize) <==> hit(names_view(names@), decl_uses(*decl), k)),
{
    let mut bound: Vec<String> = Vec::new();
    push_pats_binders(&decl.params, &mut bound);
    proof {
        assert forall|x: Seq<char>| bset(Seq::<String>::empty()).contains(x) <==> false by {}
        assert(bset(Seq::<String>::empty()) =~= Set::<Seq<char>>::empty());
        assert(bset(bound@) =~= pats_binders(decl.params@));
    }
    let mut refs: Vec<bool> = Vec::new();
    let mut i: usize = 0;
    while i < n
        invariant
            i <= n,
            refs@.len() == i,
            forall|k: int| 0 <= k < i ==> !(#[trigger] refs@[k]),
        decreases n - i,
    {
        refs.push(false);
        i = i + 1;
    }
    let ghost r0 = refs@;
    walk(&decl.body.0, &mut bound, names, &mut refs);
    let mut out: Vec<usize> = Vec::new();
    let mut k: usize = 0;
    while k < n
        invariant
            k <= n,
            refs@.len() == n,
            strictly_sorted(out@),
            forall|m: int| 0 <= m < out@.len() ==> out@[m] < k,
            forall|m: int| 0 <= m < k ==> (out@.contains(m as usize) <==> refs@[m]),
        decreases n - k,
    {
        let ghost before = out@;
        if refs[k] {
            out.push(k);
        }
        proof {
            assert forall|m: int| 0 <= m < k + 1 implies (out@.contains(m as usize) <==> refs@[m]) by {
                if out@.contains(m as usize) {
                    let q = choose|q: int| 0 <= q < out@.len() && out@[q] == m as usize;
                    if q < before.len() {
                        assert(before[q] == m as usize);
                        assert(before.contains(m as usize));
                    }
                }
                if m < k && before.contains(m as usize) {
                    let q = choose|q: int| 0 <= q < before.len() && before[q] == m as usize;
                    assert(out@[q] == m as usize);
                }
                if m == k && refs@[m] {
                    assert(out@[out@.len() - 1] == k);
                }
            }
        }
        k = k + 1;
    }
    proof {
        assert forall|m: int| 0 <= m < n implies (out@.contains(m as usize) <==> hit(names_view(names@), decl_uses(*decl), m)) by {
            assert(refs@[m] <==> (r0[m] || hit(names_view(names@), decl_uses(*decl), m)));
        }
    }
    out
}

/// Whether a group of bindings must be handled as recursive: any group of
/// several is, and a single binding is when it uses its own name.
pub fn group_is_recursive(decls: &Vec<Decl>, group: &Vec<usize>) -> (r: bool)
    requires
        group@.len() > 0,
        group@[0] < decls@.len(),
    ensures
        r <==> (group@.len() > 1 || decl_uses(decls@[group@[0] as int]).contains(
            decls@[group@[0] as int].name@,
        )),
{
    if group.len() > 1 {
        return true;
    }
    let idx = group[0];
    let decl = &decls[idx];
    let mut names: Vec<(String, usize)> = Vec::new();
    names.push((decl.name.clone(), idx));
    let ghost nm = names_view(names@);
    proof {
        assert(nm =~= seq![(decl.name@, idx)]);
        assert(lookup_last(nm.drop_last(), decl.name@) is None);
    }
    assert(idx < decls.len());
    let deps = dependency_indices(decl, &names, idx + 1);
    let mut found = false;
    let mut j: usize = 0;
    while j < deps.len()
        invariant
            j <= deps@.len(),
            found <==> exists|q: int| 0 <= q < j && deps@[q] == idx,
        decreases deps.len() - j,
    {
        if deps[j] == idx {
            found = true;
        }
        j = j + 1;
    }
    proof {
        assert(found <==> deps@.contains(idx));
        let u = decl_uses(*decl);
        assert forall|x: Seq<char>| lookup_index(nm, x) == idx as int <==> x == decl.name@ by {
            assert(nm.drop_last() =~= Seq::<(Seq<char>, usize)>::empty());
            assert(lookup_last(nm.drop_last(), x) is None);
        }
        if hit(nm, u, idx as int) {
            let x = choose|x: Seq<char>| u.contains(x) && lookup_index(nm, x) == idx as int;
        }
        if u.contains(decl.name@) {
            assert(lookup_index(nm, decl.name@) == idx as int);
        }
    }
    found
}

// ---------------------------------------------------------------------------
// Tarjan's strongly connected components.
// ---------------------------------------------------------------------------

/// Every edge leads to a vertex of the graph.
pub open spec fn edges_ok(edges: Seq<Vec<usize>>) -> bool {
    forall|u: int, j: int| 0 <= u < edges.len() && 0 <= j < edges[u]@.len() ==> (#[trigger] edges[u]@[j]) < edges.len()
}

/// The number of vertices not yet visited.
pub open spec fn unvisited(ind: Seq<Option<usize>>) -> nat
    decreases ind.len(),
{
    if ind.len() == 0 {
        0
    } else {
        unvisited(ind.drop_last()) + if ind.last() is None {
            1nat
        } else {
            0nat
        }
    }
}

proof fn lemma_unvisited_set(ind: Seq<Option<usize>>, v: int, x: usize)
    requires
        0 <= v < ind.len(),
        ind[v] is None,
    ensures
        unvisited(ind.update(v, Some(x))) + 1 == unvisited(ind),
    decreases ind.len(),
{
    let u = ind.update(v, Some(x));
    if v == ind.len() - 1 {
        assert(u.drop_last() =~= ind.drop_last());
    } else {
        lemma_unvisited_set(ind.drop_last(), v, x);
        assert(u.drop_last() =~= ind.drop_last().update(v, Some(x)));
    }
}

proof fn lemma_unvisited_bound(ind: Seq<Option<usize>>)
    ensures
        unvisited(ind) <= ind.len(),
        unvisited(ind) == 0 ==> forall|u: int| 0 <= u < ind.len() ==> (#[trigger] ind[u]) is Some,
    decreases ind.len(),
{
    if ind.len() > 0 {
        lemma_unvisited_bound(ind.drop_last());
        if unvisited(ind) == 0 {
            assert forall|u: int| 0 <= u < ind.len() implies (#[trigger] ind[u]) is Some by {
                if u < ind.len() - 1 {
                    assert(ind.drop_last()[u] == ind[u]);
                }
            }
        }
    }
}

/// How many of the components hold `u`.
pub open spec fn occ(comps: Seq<Seq<usize>>, u: usize) -> nat
    decreases comps.len(),
{
    if comps.len() == 0 {
        0
    } else {
        occ(comps.drop_last(), u) + if comps.last().contains(u) {
            1nat
        } else {
            0nat
        }
    }
}

pub open spec fn comps_view(c: Seq<Vec<usize>>) -> Seq<Seq<usize>> {
    c.map_values(|v: Vec<usize>| v@)
}

/// Every edge out of a component leads into it or into one listed before
/// it: dependencies come first.
pub open spec fn deps_first(comps: Seq<Seq<usize>>, edges: Seq<Vec<usize>>) -> bool {
    forall|c: int, k: int, j: int|
        #![trigger edges[comps[c][k] as int]@[j]]
        0 <= c < comps.len() && 0 <= k < comps[c].len() && comps[c][k] < edges.len() && 0 <= j < edges[comps[c][k] as int]@.len()
            ==> listed_by(comps, edges[comps[c][k] as int]@[j], c)
}

/// `y` lies in one of the components up to the `c`-th.
pub open spec fn listed_by(comps: Seq<Seq<usize>>, y: usize, c: int) -> bool {
    exists|d: int| 0 <= d <= c && #[trigger] comps[d].contains(y)
}

struct Tarjan {
    index: usize,
    stack: Vec<usize>,
    on_stack: Vec<bool>,
    indices: Vec<Option<usize>>,
    lowlink: Vec<usize>,
    components: Vec<Vec<usize>>,
}

impl Tarjan {
    spec fn idx(&self, u: usize) -> int {
        self.indices@[u as int]->Some_0 as int
    }

    /// The edge from `x` to `w` is settled: `w` is visited, and while it is
    /// on the stack `x`'s low link is at most `w`'s number.
    spec fn edge_ok(&self, x: int, w: usize) -> bool {
        &&& (w as int) < self.indices@.len()
        &&& self.indices@[w as int] is Some
        &&& self.on_stack@[w as int] ==> self.lowlink@[x] <= self.idx(w)
    }

    spec fn wf(&self, n: nat) -> bool {
        &&& self.on_stack@.len() == n
        &&& self.indices@.len() == n
        &&& self.lowlink@.len() == n
        &&& self.index + unvisited(self.indices@) == n
        &&& self.stack@.no_duplicates()
        &&& forall|j: int| 0 <= j < self.stack@.len() ==> (#[trigger] self.stack@[j]) < n && self.indices@[self.stack@[j] as int] is Some
        &&& forall|u: int| 0 <= u < n ==> (#[trigger] self.on_stack@[u] <==> self.stack@.contains(u as usize))
        &&& forall|u: int| 0 <= u < n ==> #[trigger] occ(comps_view(self.components@), u as usize) == if self.indices@[u] is Some && !self.on_stack@[u] {
            1nat
        } else {
            0nat
        }
        &&& forall|c: int| 0 <= c < self.components@.len() ==> {
            let comp = #[trigger] self.components@[c]@;
            &&& comp.len() > 0
            &&& strictly_sorted(comp)
            &&& forall|k: int| 0 <= k < comp.len() ==> comp[k] < n
        }
        &&& forall|u: int| 0 <= u < n && (#[trigger] self.indices@[u]) is Some ==> self.indices@[u]->Some_0 < self.index
    }
}

/// A list of distinct vertices, sorted.
fn sort_distinct(v: &Vec<usize>) -> (r: Vec<usize>)
    requires
        v@.no_duplicates(),
    ensures
        r@.len() == v@.len(),
        strictly_sorted(r@),
        forall|x: usize| r@.contains(x) <==> v@.contains(x),
{
    let mut out: Vec<usize> = Vec::new();
    let mut i: usize = 0;
    while i < v.len()
        invariant
            i <= v@.len(),
            v@.no_duplicates(),
            out@.len() == i,
            strictly_sorted(out@),
            forall|x: usize| out@.contains(x) <==> v@.subrange(0, i as int).contains(x),
        decreases v.len() - i,
    {
        let x = v[i];
        proof {
            if out@.contains(x) {
                let q = choose|q: int| 0 <= q < i && v@.subrange(0, i as int)[q] == x;
                assert(v@[q] == v@[i as int]);
            }
        }
        let mut p: usize = 0;
        while p < out.len() && out[p] < x
            invariant
                p <= out@.len(),
                forall|q: int| 0 <= q < p ==> out@[q] < x,
            decreases out.len() - p,
        {
            p = p + 1;
        }
        let ghost before = out@;
        out.insert(p, x);
        proof {
            assert(out@ =~= before.subrange(0, p as int).push(x) + before.subrange(p as int, before.len() as int));
            assert forall|q: int| p <= q < before.len() implies before[q] > x by {
                assert(before[p as int] >= x);
                assert(before[p as int] != x);
                if q > p {
                    assert(before[p as int] < before[q]);
                }
            }
            assert forall|a: int, b: int| 0 <= a < b < out@.len() implies out@[a] < out@[b] by {
                if b < p {
                } else if b == p {
                } else if a < p {
                    assert(out@[b] == before[b - 1]);
                } else if a == p {
                    assert(out@[b] == before[b - 1]);
                } else {
                    assert(out@[a] == before[a - 1]);
                    assert(out@[b] == before[b - 1]);
                }
            }
            assert forall|y: usize| out@.contains(y) <==> v@.subrange(0, i + 1).contains(y) by {
                let pre = v@.subrange(0, i as int);
                let nxt = v@.subrange(0, i + 1);
                assert(nxt =~= pre.push(x));
                if nxt.contains(y) {
                    let q = choose|q: int| 0 <= q < nxt.len() && nxt[q] == y;
                    if q < i {
                        assert(pre[q] == y);
                        assert(pre.contains(y));
                    }
                }
                if pre.contains(y) {
                    let q = choose|q: int| 0 <= q < pre.len() && pre[q] == y;
                    assert(nxt[q] == y);
                }
                if y == x {
                    assert(nxt[i as int] == x);
                }
                if out@.contains(y) {
                    let q = choose|q: int| 0 <= q < out@.len() && out@[q] == y;
                    if q < p {
                        assert(before[q] == y);
                        assert(before.contains(y));
                    } else if q > p {
                        assert(before[q - 1] == y);
                        assert(before.contains(y));
                    }
                }
                if before.contains(y) {
                    let q = choose|q: int| 0 <= q < before.len() && before[q] == y;
                    if q < p {
                        assert(out@[q] == y);
                    } else {
                        assert(out@[q + 1] == y);
                    }
                }
                if y == x {
                    assert(out@[p as int] == x);
                }
            }
        }
        i = i + 1;
    }
    proof {
        assert(v@.subrange(0, i as int) =~= v@);
    }
    out
}

/// A vertex counted in the components lies in one of them.
proof fn lemma_occ_member(comps: Seq<Seq<usize>>, u: usize)
    requires
        occ(comps, u) >= 1,
    ensures
        exists|c: int| 0 <= c < comps.len() && #[trigger] comps[c].contains(u),
    decreases comps.len(),
{
    if comps.last().contains(u) {
        assert(comps[comps.len() - 1].contains(u));
    } else {
        lemma_occ_member(comps.drop_last(), u);
        let c = choose|c: int| 0 <= c < comps.drop_last().len() && #[trigger] comps.drop_last()[c].contains(u);
        assert(comps[c] == comps.drop_last()[c]);
    }
}

proof fn lemma_occ_push(comps: Seq<Seq<usize>>, c: Seq<usize>, u: usize)
    ensures
        occ(comps.push(c), u) == occ(comps, u) + if c.contains(u) {
            1nat
        } else {
            0nat
        },
{
    assert(comps.push(c).drop_last() =~= comps);
}

impl Tarjan {
    /// Visits `v`: numbers it, pushes it, walks its edges, and when `v` turns
    /// out to be the root of a component, pops that component off the stack.
    fn strongconnect(&mut self, edges: &Vec<Vec<usize>>, v: usize)
        requires
            old(self).wf(edges@.len() as nat),
            edges_ok(edges@),
            v < edges@.len(),
            old(self).indices@[v as int] is None,
            deps_first(comps_view(old(self).components@), edges@),
        ensures
            final(self).wf(edges@.len() as nat),
            deps_first(comps_view(final(self).components@), edges@),
            forall|x: int, j: int|
                #![trigger edges@[x]@[j], final(self).indices@[x]]
                0 <= x < edges@.len() && old(self).indices@[x] is None && final(self).indices@[x] is Some && 0 <= j
                    < edges@[x]@.len() ==> final(self).edge_ok(x, edges@[x]@[j]),
            forall|u: int|
                0 <= u < edges@.len() && (#[trigger] old(self).indices@[u]) is Some && !old(self).on_stack@[u]
                    ==> !final(self).on_stack@[u],
            final(self).lowlink@[v as int] <= old(self).index,
            forall|q: int|
                old(self).stack@.len() <= q < final(self).stack@.len() ==> final(self).lowlink@[v as int]
                    <= final(self).lowlink@[#[trigger] final(self).stack@[q] as int],
            unvisited(final(self).indices@) < unvisited(old(self).indices@),
            final(self).indices@[v as int] == Some(old(self).index),
            forall|u: int| 0 <= u < edges@.len() && (#[trigger] old(self).indices@[u]) is Some ==> final(self).indices@[u] == old(self).indices@[u],
            forall|u: int| 0 <= u < edges@.len() && (#[trigger] old(self).indices@[u]) is Some ==> final(self).lowlink@[u] == old(self).lowlink@[u],
            final(self).index >= old(self).index,
            final(self).stack@.len() >= old(self).stack@.len(),
            final(self).stack@.subrange(0, old(self).stack@.len() as int) == old(self).stack@,
            forall|j: int| old(self).stack@.len() <= j < final(self).stack@.len() ==> final(self).idx(#[trigger] final(self).stack@[j]) >= old(self).index,
            final(self).lowlink@[v as int] >= old(self).index || exists|j: int| 0 <= j < old(self).stack@.len() && final(self).idx(#[trigger] old(self).stack@[j]) <= final(self).lowlink@[v as int],
            old(self).stack@.len() == 0 ==> final(self).stack@.len() == 0,
        decreases unvisited(old(self).indices@),
    {
        let ghost n = edges@.len() as nat;
        let ghost s0 = self.stack@;
        let ghost i0 = self.indices@;
        let ghost u0 = unvisited(self.indices@);
        let iv = self.index;
        let n_exec = edges.len();
        proof {
            lemma_unvisited_bound(self.indices@);
            assert(u0 >= 1) by {
                if u0 == 0 {
                    lemma_unvisited_bound(self.indices@);
                }
            }
            lemma_unvisited_set(self.indices@, v as int, iv);
        }
        proof {
            assert(unvisited(i0) >= 1);
            assert(iv < n_exec);
        }
        self.indices.set(v, Some(iv));
        self.lowlink.set(v, iv);
        self.index = iv + 1;
        proof {
            assert(!s0.contains(v)) by {
                if s0.contains(v) {
                    let j = choose|j: int| 0 <= j < s0.len() && s0[j] == v;
                }
            }
        }
        self.stack.push(v);
        self.on_stack.set(v, true);
        let ghost p0 = s0.len();
        proof {
            assert(self.stack@.no_duplicates());
            assert forall|u: int| 0 <= u < n implies (#[trigger] self.on_stack@[u] <==> self.stack@.contains(u as usize)) by {
                if u == v {
                    assert(self.stack@[p0 as int] == v);
                } else {
                    if self.stack@.contains(u as usize) {
                        let j = choose|j: int| 0 <= j < self.stack@.len() && self.stack@[j] == u as usize;
                        assert(j != p0);
                        assert(self.stack@[j] == s0[j]);
                        assert(s0[j] == u as usize);
                    }
                    if s0.contains(u as usize) {
                        let j = choose|j: int| 0 <= j < s0.len() && s0[j] == u as usize;
                        assert(self.stack@[j] == u as usize);
                    }
                }
            }
            assert(self.wf(n));
        }
        let mut j: usize = 0;
        while j < edges[v].len()
            invariant
                n == edges@.len(),
                edges_ok(edges@),
                v < n,
                self.wf(n),
                iv == old(self).index,
                s0 == old(self).stack@,
                p0 == s0.len(),
                u0 == unvisited(old(self).indices@),
                unvisited(self.indices@) < u0,
                self.indices@[v as int] == Some(iv),
                forall|u: int| 0 <= u < n && (#[trigger] i0[u]) is Some ==> self.indices@[u] == i0[u],
                forall|u: int| 0 <= u < n && (#[trigger] i0[u]) is Some ==> self.lowlink@[u] == old(self).lowlink@[u],
                forall|q: int| 0 <= q < p0 ==> i0[(#[trigger] s0[q]) as int] is Some,
                i0 == old(self).indices@,
                i0[v as int] is None,
                self.index > iv,
                self.stack@.len() > p0,
                self.stack@.subrange(0, p0 as int) == s0,
                self.stack@[p0 as int] == v,
                forall|q: int| p0 <= q < self.stack@.len() ==> self.idx(#[trigger] self.stack@[q]) >= iv,
                self.lowlink@[v as int] <= iv,
                self.lowlink@[v as int] >= iv || exists|q: int| 0 <= q < p0 && self.idx(#[trigger] s0[q]) <= self.lowlink@[v as int],
                deps_first(comps_view(self.components@), edges@),
                forall|x: int, jj: int|
                    #![trigger edges@[x]@[jj], self.indices@[x]]
                    0 <= x < n && x != v && i0[x] is None && self.indices@[x] is Some && 0 <= jj < edges@[x]@.len()
                        ==> self.edge_ok(x, edges@[x]@[jj]),
                forall|jj: int| 0 <= jj < j ==> self.edge_ok(v as int, #[trigger] edges@[v as int]@[jj]),
                forall|q: int| p0 <= q < self.stack@.len() ==> self.lowlink@[v as int] <= self.lowlink@[#[trigger] self.stack@[q] as int],
                forall|u: int| 0 <= u < n && (#[trigger] i0[u]) is Some && !old(self).on_stack@[u] ==> !self.on_stack@[u],
            decreases edges[v as int]@.len() - j,
        {
            let w = edges[v][j];
            let ghost pre = *self;
            proof {
                assert(w < n);
            }
            match self.indices[w] {
                None => {
                    let ghost st = self.stack@;
                    let ghost ind1 = self.indices@;
                    let ghost on1 = self.on_stack@;
                    let ghost low1 = self.lowlink@;
                    let ghost idx1 = self.index;
                    self.strongconnect(edges, w);
                    proof {
                        assert forall|u: int| 0 <= u < n && (#[trigger] i0[u]) is Some implies self.indices@[u] == i0[u] by {
                            assert(ind1[u] is Some);
                        }
                        assert(self.indices@[v as int] == Some(iv)) by {
                            assert(ind1[v as int] is Some);
                        }
                        assert forall|u: int| 0 <= u < n && (#[trigger] i0[u]) is Some implies self.lowlink@[u] == old(self).lowlink@[u] by {
                            assert(ind1[u] is Some);
                        }
                        assert(ind1[v as int] is Some);
                        assert(self.stack@.subrange(0, p0 as int) =~= st.subrange(0, p0 as int));
                        assert(self.stack@[p0 as int] == st[p0 as int]);
                        assert forall|q: int| p0 <= q < self.stack@.len() implies self.idx(#[trigger] self.stack@[q]) >= iv by {
                            if q < st.len() {
                                assert(self.stack@[q] == st[q]);
                                let x = st[q];
                                assert(ind1[x as int] is Some);
                            }
                        }
                        assert forall|q: int| 0 <= q < p0 implies self.idx(#[trigger] s0[q]) == old(self).idx(s0[q]) by {
                            assert(i0[s0[q] as int] is Some);
                        }
                    }
                    let lw = self.lowlink[w];
                    let ghost mid = *self;
                    if lw < self.lowlink[v] {
                        let ghost lv = self.lowlink@[v as int];
                        self.lowlink.set(v, lw);
                        proof {
                            // lw >= idx(w) >= iv, or some node of the stack at the
                            // call bounds it from below.
                            if lw < iv {
                                let q = choose|q: int| 0 <= q < st.len() && self.idx(#[trigger] st[q]) <= lw;
                                if q < p0 {
                                    assert(st[q] == s0[q]);
                                } else {
                                    assert(self.stack@[q] == st[q]);
                                    assert(self.idx(st[q]) >= iv);
                                }
                            }
                        }
                    }
                    proof {
                        assert(self.lowlink@[v as int] <= mid.lowlink@[v as int]);
                        assert(self.lowlink@[v as int] <= mid.lowlink@[w as int]);
                        assert forall|x: int, jj: int|
                            0 <= x < n && x != v && i0[x] is None && self.indices@[x] is Some && 0 <= jj < edges@[x]@.len()
                                implies self.edge_ok(x, #[trigger] edges@[x]@[jj]) by {
                            let y = edges@[x]@[jj];
                            if pre.indices@[x] is None {
                                assert(mid.edge_ok(x, y));
                            } else {
                                assert(pre.edge_ok(x, y));
                                assert(pre.indices@[y as int] is Some);
                                if mid.on_stack@[y as int] {
                                    assert(pre.on_stack@[y as int]);
                                }
                            }
                        }
                        assert forall|jj: int| 0 <= jj < j + 1 implies self.edge_ok(v as int, #[trigger] edges@[v as int]@[jj]) by {
                            let y = edges@[v as int]@[jj];
                            if jj < j {
                                assert(pre.edge_ok(v as int, y));
                                assert(pre.indices@[y as int] is Some);
                                if mid.on_stack@[y as int] {
                                    assert(pre.on_stack@[y as int]);
                                }
                            } else {
                                assert(y == w);
                            }
                        }
                        assert forall|q: int| p0 <= q < self.stack@.len() implies self.lowlink@[v as int]
                            <= self.lowlink@[#[trigger] self.stack@[q] as int] by {
                            let z = self.stack@[q];
                            if z != v {
                                if q < st.len() {
                                    assert(st[q] == z);
                                    assert(pre.lowlink@[v as int] <= pre.lowlink@[z as int]);
                                    assert(ind1[z as int] is Some);
                                } else {
                                    assert(mid.lowlink@[w as int] <= mid.lowlink@[z as int]);
                                }
                            }
                        }
                        assert forall|u: int| 0 <= u < n && (#[trigger] i0[u]) is Some && !old(self).on_stack@[u] implies !self.on_stack@[u] by {
                            assert(!pre.on_stack@[u]);
                            assert(pre.indices@[u] is Some);
                        }
                    }
                },
                Some(wi) => {
                    if self.on_stack[w] {
                        if wi < self.lowlink[v] {
                            self.lowlink.set(v, wi);
                            proof {
                                if wi < iv {
                                    let q = choose|q: int| 0 <= q < self.stack@.len() && self.stack@[q] == w;
                                    if q < p0 {
                                        assert(self.stack@[q] == s0[q]);
                                        assert(self.idx(s0[q]) <= self.lowlink@[v as int]);
                                    } else {
                                        assert(self.idx(self.stack@[q]) >= iv);
                                    }
                                }
                            }
                        }
                    }
                    proof {
                        assert(self.lowlink@[v as int] <= pre.lowlink@[v as int]);
                        assert forall|x: int, jj: int|
                            0 <= x < n && x != v && i0[x] is None && self.indices@[x] is Some && 0 <= jj < edges@[x]@.len()
                                implies self.edge_ok(x, #[trigger] edges@[x]@[jj]) by {
                            assert(pre.edge_ok(x, edges@[x]@[jj]));
                        }
                        assert forall|jj: int| 0 <= jj < j + 1 implies self.edge_ok(v as int, #[trigger] edges@[v as int]@[jj]) by {
                            if jj < j {
                                assert(pre.edge_ok(v as int, edges@[v as int]@[jj]));
                            } else {
                                assert(edges@[v as int]@[jj] == w);
                            }
                        }
                        assert forall|q: int| p0 <= q < self.stack@.len() implies self.lowlink@[v as int]
                            <= self.lowlink@[#[trigger] self.stack@[q] as int] by {
                            let z = self.stack@[q];
                            if z != v {
                                assert(pre.lowlink@[v as int] <= pre.lowlink@[z as int]);
                            }
                        }
                    }
                },
            }
            j = j + 1;
        }
        proof {
            assert(self.lowlink@[v as int] <= iv);
        }
        if self.lowlink[v] == iv {
            let ghost ind_s = self.indices@;
            let ghost low_s = self.lowlink@;
            let ghost index_s = self.index;
            let ghost top = self.stack@;
            let ghost comps0 = self.components@;
            let ghost cs0 = comps_view(self.components@);
            proof {
                // Every edge out of the vertices pushed during this visit stays
                // among them or reaches a component already listed.
                assert forall|q: int, jj: int|
                    p0 <= q < top.len() && 0 <= jj < edges@[top[q] as int]@.len() implies {
                    let y = #[trigger] edges@[top[q] as int]@[jj];
                    (exists|r: int| p0 <= r < top.len() && top[r] == y) || (exists|c: int|
                        0 <= c < cs0.len() && #[trigger] cs0[c].contains(y))
                } by {
                    let x = top[q];
                    let y = edges@[x as int]@[jj];
                    assert(self.idx(x) >= iv);
                    if x == v {
                        assert(self.edge_ok(v as int, y));
                    } else {
                        assert(i0[x as int] is None) by {
                            if i0[x as int] is Some {
                                assert(self.indices@[x as int] == i0[x as int]);
                            }
                        }
                        assert(self.edge_ok(x as int, y));
                    }
                    assert(y < n);
                    if self.on_stack@[y as int] {
                        assert(top.contains(y));
                        let r = choose|r: int| 0 <= r < top.len() && top[r] == y;
                        if r < p0 {
                            assert(top.subrange(0, p0 as int)[r] == s0[r]);
                            assert(s0[r] == y);
                            assert(i0[y as int] is Some);
                            assert(self.indices@[y as int] == i0[y as int]);
                            assert(self.lowlink@[v as int] <= self.lowlink@[top[q] as int]);
                            assert(false);
                        }
                    } else {
                        assert(occ(cs0, y) == 1);
                        lemma_occ_member(cs0, y);
                    }
                }
            }
            let mut component: Vec<usize> = Vec::new();
            let mut done = false;
            while !done
                invariant
                    self.indices@ == ind_s,
                    self.lowlink@ == low_s,
                    self.index == index_s,
                    n == edges@.len(),
                    v < n,
                    p0 == s0.len(),
                    self.on_stack@.len() == n,
                    self.indices@.len() == n,
                    self.lowlink@.len() == n,
                    self.index + unvisited(self.indices@) == n,
                    self.stack@.no_duplicates(),
                    forall|q: int| 0 <= q < self.stack@.len() ==> (#[trigger] self.stack@[q]) < n && self.indices@[self.stack@[q] as int] is Some,
                    component@.no_duplicates(),
                    forall|q: int| 0 <= q < component@.len() ==> (#[trigger] component@[q]) < n && !self.stack@.contains(component@[q]),
                    forall|u: int| 0 <= u < n ==> (#[trigger] self.on_stack@[u] <==> self.stack@.contains(u as usize)),
                    forall|u: int| 0 <= u < n ==> #[trigger] occ(comps_view(self.components@), u as usize) + (if component@.contains(u as usize) {
                        1nat
                    } else {
                        0nat
                    }) == if self.indices@[u] is Some && !self.on_stack@[u] {
                        1nat
                    } else {
                        0nat
                    },
                    forall|c: int| 0 <= c < self.components@.len() ==> {
                        let comp = #[trigger] self.components@[c]@;
                        &&& comp.len() > 0
                        &&& strictly_sorted(comp)
                        &&& forall|k: int| 0 <= k < comp.len() ==> comp[k] < n
                    },
                    forall|u: int| 0 <= u < n && (#[trigger] self.indices@[u]) is Some ==> self.indices@[u]->Some_0 < self.index,
                    !done ==> self.stack@.len() > p0 && self.stack@.subrange(0, p0 as int) == s0 && self.stack@[p0 as int] == v,
                    done ==> self.stack@ == s0 && component@.len() > 0,
                    self.components@ == comps0,
                    self.stack@.len() <= top.len(),
                    self.stack@ == top.subrange(0, self.stack@.len() as int),
                    forall|u: usize| #[trigger] component@.contains(u) <==> exists|r: int| self.stack@.len() <= r < top.len() && top[r] == u,
                decreases self.stack@.len(),
            {
                let ghost before = self.stack@;
                let ghost cbefore = component@;
                let w = self.stack.pop().unwrap();
                proof {
                    assert(self.stack@ =~= before.drop_last());
                    assert(w == before.last());
                    assert(!self.stack@.contains(w)) by {
                        if self.stack@.contains(w) {
                            let q = choose|q: int| 0 <= q < self.stack@.len() && self.stack@[q] == w;
                            assert(before[q] == before[before.len() - 1]);
                        }
                    }
                }
                let ghost ob = self.on_stack@;
                self.on_stack.set(w, false);
                component.push(w);
                proof {
                    assert(!cbefore.contains(w)) by {
                        if cbefore.contains(w) {
                            let q = choose|q: int| 0 <= q < cbefore.len() && cbefore[q] == w;
                            assert(!before.contains(cbefore[q]));
                            assert(before[before.len() - 1] == w);
                        }
                    }
                    assert(self.stack@.no_duplicates());
                    assert forall|q: int| 0 <= q < component@.len() implies (#[trigger] component@[q]) < n && !self.stack@.contains(component@[q]) by {
                        if q < cbefore.len() {
                            assert(component@[q] == cbefore[q]);
                            if self.stack@.contains(cbefore[q]) {
                                let r = choose|r: int| 0 <= r < self.stack@.len() && self.stack@[r] == cbefore[q];
                                assert(before[r] == cbefore[q]);
                            }
                        }
                    }
                    assert forall|u: int| 0 <= u < n implies (#[trigger] self.on_stack@[u] <==> self.stack@.contains(u as usize)) by {
                        if u != w {
                            if before.contains(u as usize) {
                                let r = choose|r: int| 0 <= r < before.len() && before[r] == u as usize;
                                assert(before[before.len() - 1] == w);
                                assert(n == edges.len());
                                assert((u as usize) as int == u);
                                assert(r < before.len() - 1);
                                assert(self.stack@[r] == u as usize);
                            }
                            if self.stack@.contains(u as usize) {
                                let r = choose|r: int| 0 <= r < self.stack@.len() && self.stack@[r] == u as usize;
                                assert(before[r] == u as usize);
                            }
                        }
                    }
                    assert forall|u: int| 0 <= u < n implies #[trigger] occ(comps_view(self.components@), u as usize) + (if component@.contains(u as usize) {
                        1nat
                    } else {
                        0nat
                    }) == if self.indices@[u] is Some && !self.on_stack@[u] {
                        1nat
                    } else {
                        0nat
                    } by {
                        assert(occ(comps_view(self.components@), u as usize) + (if cbefore.contains(u as usize) {
                            1nat
                        } else {
                            0nat
                        }) == if self.indices@[u] is Some && !ob[u] {
                            1nat
                        } else {
                            0nat
                        });
                        if u != w {
                            assert(self.on_stack@[u] == ob[u]);
                        } else {
                            assert(ob[u] <==> before.contains(u as usize));
                            assert(before[before.len() - 1] == w);
                            assert(before.contains(w));
                            assert(ob[u]);
                        }
                        if component@.contains(u as usize) {
                            let r = choose|r: int| 0 <= r < component@.len() && component@[r] == u as usize;
                            if r < cbefore.len() {
                                assert(cbefore.contains(u as usize));
                            }
                        }
                        if cbefore.contains(u as usize) {
                            let r = choose|r: int| 0 <= r < cbefore.len() && cbefore[r] == u as usize;
                            assert(component@[r] == u as usize);
                        }
                        if u == w {
                            assert(component@[component@.len() - 1] == w);
                            assert(before.contains(w));
                        }
                    }
                }
                proof {
                    assert(self.stack@ =~= top.subrange(0, self.stack@.len() as int));
                    assert(w == top[self.stack@.len() as int]);
                    assert forall|u: usize| #[trigger] component@.contains(u) <==> exists|r: int| self.stack@.len() <= r < top.len() && top[r] == u by {
                        if component@.contains(u) {
                            let r = choose|r: int| 0 <= r < component@.len() && component@[r] == u;
                            if r < cbefore.len() {
                                assert(cbefore.contains(u));
                            } else {
                                assert(top[self.stack@.len() as int] == u);
                            }
                        }
                        if exists|r: int| self.stack@.len() <= r < top.len() && top[r] == u {
                            let r = choose|r: int| self.stack@.len() <= r < top.len() && top[r] == u;
                            if r == self.stack@.len() {
                                assert(component@[component@.len() - 1] == u);
                            } else {
                                assert(cbefore.contains(u));
                                let r2 = choose|r2: int| 0 <= r2 < cbefore.len() && cbefore[r2] == u;
                                assert(component@[r2] == u);
                            }
                        }
                    }
                }
                if w == v {
                    done = true;
                    proof {
                        assert(self.stack@ =~= s0);
                    }
                } else {
                    proof {
                        assert(before.len() - 1 != p0) by {
                            if before.len() - 1 == p0 {
                                assert(before[p0 as int] == v);
                            }
                        }
                        assert(self.stack@.subrange(0, p0 as int) =~= before.subrange(0, p0 as int));
                        assert(self.stack@[p0 as int] == before[p0 as int]);
                    }
                }
            }
            let sorted = sort_distinct(&component);
            let ghost cs = comps_view(self.components@);
            self.components.push(sorted);
            proof {
                assert forall|k: int| 0 <= k < sorted@.len() implies sorted@[k] < n by {
                    assert(sorted@.contains(sorted@[k]));
                    assert(component@.contains(sorted@[k]));
                    let q = choose|q: int| 0 <= q < component@.len() && component@[q] == sorted@[k];
                }
                assert forall|c: int| 0 <= c < self.components@.len() implies {
                    let comp = #[trigger] self.components@[c]@;
                    &&& comp.len() > 0
                    &&& strictly_sorted(comp)
                    &&& forall|k: int| 0 <= k < comp.len() ==> comp[k] < n
                } by {
                    if c == self.components@.len() - 1 {
                        assert(self.components@[c] == sorted);
                    }
                }
                assert(comps_view(self.components@) =~= cs.push(sorted@));
                assert(cs == cs0);
                assert(self.stack@.len() == p0);
                let ncs = comps_view(self.components@);
                assert forall|c: int, k: int, jj: int|
                    #![trigger edges@[ncs[c][k] as int]@[jj]]
                    0 <= c < ncs.len() && 0 <= k < ncs[c].len() && ncs[c][k] < edges@.len() && 0 <= jj < edges@[ncs[c][k] as int]@.len()
                        implies listed_by(ncs, edges@[ncs[c][k] as int]@[jj], c) by {
                    let y = edges@[ncs[c][k] as int]@[jj];
                    if c < cs0.len() {
                        assert(ncs[c] == cs0[c]);
                        assert(listed_by(cs0, y, c));
                        let d = choose|d: int| 0 <= d <= c && #[trigger] cs0[d].contains(y);
                        assert(ncs[d] == cs0[d]);
                    } else {
                        let x = sorted@[k];
                        assert(ncs[c] == sorted@);
                        assert(sorted@.contains(x));
                        assert(component@.contains(x));
                        let q = choose|r: int| p0 <= r < top.len() && top[r] == x;
                        assert(edges@[top[q] as int]@[jj] == y);
                        if exists|r: int| p0 <= r < top.len() && top[r] == y {
                            assert(component@.contains(y));
                            assert(sorted@.contains(y));
                            assert(ncs[c].contains(y));
                        } else {
                            let d = choose|d: int| 0 <= d < cs0.len() && #[trigger] cs0[d].contains(y);
                            assert(ncs[d] == cs0[d]);
                            assert(ncs[d].contains(y));
                        }
                    }
                }
                assert(deps_first(ncs, edges@));
                assert forall|u: int| 0 <= u < n implies #[trigger] occ(comps_view(self.components@), u as usize) == if self.indices@[u] is Some && !self.on_stack@[u] {
                    1nat
                } else {
                    0nat
                } by {
                    lemma_occ_push(cs, sorted@, u as usize);
                }
                assert(self.wf(n));
            }
        }
    }
}

/// The sibling names of a module's bindings, each with its index.
pub open spec fn sibling_names(decls: Seq<Decl>) -> Seq<(Seq<char>, usize)> {
    Seq::new(decls.len(), |i: int| (decls[i].name@, i as usize))
}

/// Binding `u` refers, free, to its sibling `w` (when a name is bound twice,
/// the later binding is the one referred to).
pub open spec fn depends(decls: Seq<Decl>, u: int, w: int) -> bool {
    hit(sibling_names(decls), decl_uses(decls[u]), w)
}

/// `comps` groups the bindings of `decls` into dependency groups: each
/// binding lies in exactly one group, and every sibling a binding refers to
/// lies in the binding's own group or in one listed before it.
pub open spec fn dependency_groups(decls: Seq<Decl>, comps: Seq<Seq<usize>>) -> bool {
    &&& decls.len() <= usize::MAX
    &&& forall|u: int| 0 <= u < decls.len() ==> #[trigger] occ(comps, u as usize) == 1
    &&& forall|c: int, k: int| 0 <= c < comps.len() && 0 <= k < comps[c].len() ==> #[trigger] comps[c][k] < decls.len()
    &&& forall|c: int, k: int, w: int|
        0 <= c < comps.len() && 0 <= k < comps[c].len() && 0 <= w < decls.len() && #[trigger] depends(
            decls,
            comps[c][k] as int,
            w,
        ) ==> listed_by(comps, w as usize, c)
}

/// The dependency graph's strongly connected components, each sorted: every
/// declaration lies in exactly one component, and a component with more than
/// one member, or one using its own name, is a recursive group.
pub fn scc_order(decls: &Vec<Decl>) -> (r: Vec<Vec<usize>>)
    ensures
        forall|c: int| 0 <= c < r@.len() ==> {
            let comp = #[trigger] r@[c]@;
            &&& comp.len() > 0
            &&& strictly_sorted(comp)
            &&& forall|k: int| 0 <= k < comp.len() ==> comp[k] < decls@.len()
        },
        forall|u: int| 0 <= u < decls@.len() ==> #[trigger] occ(comps_view(r@), u as usize) == 1,
        dependency_groups(decls@, comps_view(r@)),
{
    let n = decls.len();
    let mut names: Vec<(String, usize)> = Vec::new();
    let mut i: usize = 0;
    while i < n
        invariant
            i <= n,
            n == decls@.len(),
            names@.len() == i,
            forall|q: int| 0 <= q < i ==> (#[trigger] names@[q]).1 == q,
            forall|q: int| 0 <= q < i ==> (#[trigger] names@[q]).0@ == decls@[q].name@,
        decreases n - i,
    {
        names.push((decls[i].name.clone(), i));
        i = i + 1;
    }
    proof {
        assert forall|q: int| 0 <= q < names@.len() implies (#[trigger] names@[q]).1 < n by {}
        assert(names_view(names@) =~= sibling_names(decls@));
    }
    let mut edges: Vec<Vec<usize>> = Vec::new();
    let mut k: usize = 0;
    while k < n
        invariant
            k <= n,
            n == decls@.len(),
            ids_below(names@, n as nat),
            edges@.len() == k,
            forall|u: int, q: int| 0 <= u < k && 0 <= q < edges@[u]@.len() ==> (#[trigger] edges@[u]@[q]) < n,
            names_view(names@) == sibling_names(decls@),
            forall|u: int, w: int|
                0 <= u < k && 0 <= w < n ==> (edges@[u]@.contains(w as usize) <==> #[trigger] depends(decls@, u, w)),
        decreases n - k,
    {
        let d = dependency_indices(&decls[k], &names, n);
        edges.push(d);
        proof {
            assert forall|u: int, q: int| 0 <= u < k + 1 && 0 <= q < edges@[u]@.len() implies (#[trigger] edges@[u]@[q]) < n by {
                if u == k {
                    assert(edges@[u] == d);
                }
            }
            assert forall|u: int, w: int|
                0 <= u < k + 1 && 0 <= w < n implies (edges@[u]@.contains(w as usize) <==> #[trigger] depends(decls@, u, w)) by {}
        }
        k = k + 1;
    }
    let mut on_stack: Vec<bool> = Vec::new();
    let mut indices: Vec<Option<usize>> = Vec::new();
    let mut lowlink: Vec<usize> = Vec::new();
    let mut m: usize = 0;
    while m < n
        invariant
            m <= n,
            on_stack@.len() == m,
            indices@.len() == m,
            lowlink@.len() == m,
            forall|u: int| 0 <= u < m ==> !(#[trigger] on_stack@[u]),
            forall|u: int| 0 <= u < m ==> (#[trigger] indices@[u]) is None,
            unvisited(indices@) == m,
        decreases n - m,
    {
        let ghost before = indices@;
        on_stack.push(false);
        indices.push(None);
        lowlink.push(0);
        proof {
            assert(indices@.drop_last() =~= before);
        }
        m = m + 1;
    }
    let mut t = Tarjan { index: 0, stack: Vec::new(), on_stack, indices, lowlink, components: Vec::new() };
    proof {
        assert(t.stack@ =~= Seq::<usize>::empty());
        assert(t.stack@.no_duplicates());
        assert(t.index + unvisited(t.indices@) == n);
        assert(t.on_stack@.len() == n && t.indices@.len() == n && t.lowlink@.len() == n);
        assert(forall|j: int| 0 <= j < t.stack@.len() ==> (#[trigger] t.stack@[j]) < n && t.indices@[t.stack@[j] as int] is Some);
        assert(forall|c: int| 0 <= c < t.components@.len() ==> #[trigger] t.components@[c]@.len() > 0);
        assert(forall|u: int| 0 <= u < n && (#[trigger] t.indices@[u]) is Some ==> t.indices@[u]->Some_0 < t.index);
        assert forall|u: int| 0 <= u < n implies #[trigger] occ(comps_view(t.components@), u as usize) == if t.indices@[u] is Some && !t.on_stack@[u] {
            1nat
        } else {
            0nat
        } by {
            assert(comps_view(t.components@) =~= Seq::<Seq<usize>>::empty());
        }
        assert forall|u: int| 0 <= u < n implies (#[trigger] t.on_stack@[u] <==> t.stack@.contains(u as usize)) by {
            assert(t.stack@ =~= Seq::<usize>::empty());
        }
        assert(t.wf(n as nat));
        assert(comps_view(t.components@) =~= Seq::<Seq<usize>>::empty());
    }
    let mut v: usize = 0;
    while v < n
        invariant
            v <= n,
            n == edges@.len(),
            edges_ok(edges@),
            t.wf(n as nat),
            t.stack@.len() == 0,
            forall|u: int| 0 <= u < v ==> (#[trigger] t.indices@[u]) is Some,
            deps_first(comps_view(t.components@), edges@),
            forall|u: int, w: int| 0 <= u < n && 0 <= w < n ==> (edges@[u]@.contains(w as usize) <==> #[trigger] depends(decls@, u, w)),
        decreases n - v,
    {
        if t.indices[v].is_none() {
            let ghost before = t.indices@;
            t.strongconnect(&edges, v);
            proof {
                assert forall|u: int| 0 <= u < v + 1 implies (#[trigger] t.indices@[u]) is Some by {
                    if u < v {
                        assert(before[u] is Some);
                    }
                }
            }
        }
        v = v + 1;
    }
    proof {
        assert forall|u: int| 0 <= u < n implies #[trigger] occ(comps_view(t.components@), u as usize) == 1 by {
            assert(t.indices@[u] is Some);
            assert(!t.stack@.contains(u as usize));
        }
        let cs = comps_view(t.components@);
        assert forall|c: int, k: int| 0 <= c < cs.len() && 0 <= k < cs[c].len() implies #[trigger] cs[c][k] < decls@.len() by {
            assert(cs[c] == t.components@[c]@);
        }
        assert forall|c: int, k: int, w: int|
            0 <= c < cs.len() && 0 <= k < cs[c].len() && 0 <= w < decls@.len() && #[trigger] depends(decls@, cs[c][k] as int, w)
                implies listed_by(cs, w as usize, c) by {
            assert(cs[c] == t.components@[c]@);
            let x = cs[c][k];
            assert(edges@[x as int]@.contains(w as usize));
            let jj = choose|jj: int| 0 <= jj < edges@[x as int]@.len() && edges@[x as int]@[jj] == w as usize;
            assert(edges@[cs[c][k] as int]@[jj] == w as usize);
        }
    }
    t.components
}


/// A vertex counted once lies in one component only.
proof fn lemma_occ_unique(comps: Seq<Seq<usize>>, u: usize, a: int, b: int)
    requires
        occ(comps, u) == 1,
        0 <= a < comps.len(),
        0 <= b < comps.len(),
        comps[a].contains(u),
        comps[b].contains(u),
    ensures
        a == b,
    decreases comps.len(),
{
    let last = comps.len() - 1;
    if a != b {
        if a == last || b == last {
            let other = if a == last { b } else { a };
            assert(comps.drop_last()[other] == comps[other]);
            assert(occ(comps.drop_last(), u) >= 1) by {
                lemma_occ_positive(comps.drop_last(), u, other);
            }
        } else {
            assert(comps.drop_last()[a] == comps[a]);
            assert(comps.drop_last()[b] == comps[b]);
            lemma_occ_positive(comps.drop_last(), u, a);
            lemma_occ_unique(comps.drop_last(), u, a, b);
        }
    }
}

proof fn lemma_occ_positive(comps: Seq<Seq<usize>>, u: usize, a: int)
    requires
        0 <= a < comps.len(),
        comps[a].contains(u),
    ensures
        occ(comps, u) >= 1,
    decreases comps.len(),
{
    if a < comps.len() - 1 {
        assert(comps.drop_last()[a] == comps[a]);
        lemma_occ_positive(comps.drop_last(), u, a);
    }
}

/// Dependencies first: when a binding refers to a sibling, the sibling's
/// group is the binding's own or comes before it.
pub proof fn law_scc_dependencies_first(decls: Seq<Decl>, comps: Seq<Seq<usize>>, u: int, w: int, cu: int, cw: int)
    requires
        dependency_groups(decls, comps),
        0 <= u < decls.len(),
        0 <= w < decls.len(),
        depends(decls, u, w),
        0 <= cu < comps.len(),
        0 <= cw < comps.len(),
        comps[cu].contains(u as usize),
        comps[cw].contains(w as usize),
    ensures
        cw <= cu,
{
    let k = choose|k: int| 0 <= k < comps[cu].len() && comps[cu][k] == u as usize;
    assert(comps[cu][k] as int == u);
    assert(depends(decls, comps[cu][k] as int, w));
    assert(listed_by(comps, w as usize, cu));
    let d = choose|d: int| 0 <= d <= cu && #[trigger] comps[d].contains(w as usize);
    assert(occ(comps, w as usize) == 1);
    lemma_occ_unique(comps, w as usize, d, cw);
}

/// A chain of bindings each referring to the next.
pub open spec fn refers_along(decls: Seq<Decl>, p: Seq<int>) -> bool {
    &&& p.len() >= 1
    &&& forall|i: int| 0 <= i < p.len() ==> 0 <= #[trigger] p[i] < decls.len()
    &&& forall|i: int, j: int| #![trigger p[i], p[j]] 0 <= i && j == i + 1 && j < p.len() ==> depends(decls, p[i], p[j])
}

/// Along a chain of references, groups never come later.
proof fn lemma_chain_groups(decls: Seq<Decl>, comps: Seq<Seq<usize>>, p: Seq<int>, c0: int, c1: int)
    requires
        dependency_groups(decls, comps),
        refers_along(decls, p),
        0 <= c0 < comps.len(),
        0 <= c1 < comps.len(),
        comps[c0].contains(p[0] as usize),
        comps[c1].contains(p.last() as usize),
    ensures
        c1 <= c0,
    decreases p.len(),
{
    if p.len() > 1 {
        let m = p[1];
        assert(0 <= m < decls.len());
        assert(occ(comps, m as usize) == 1);
        lemma_occ_member(comps, m as usize);
        let cm = choose|c: int| 0 <= c < comps.len() && #[trigger] comps[c].contains(m as usize);
        assert(p[0] == p[0] && p[1] == p[1]);
        assert(depends(decls, p[0], p[1]));
        law_scc_dependencies_first(decls, comps, p[0], m, c0, cm);
        let q = p.drop_first();
        assert forall|i: int| 0 <= i < q.len() implies 0 <= #[trigger] q[i] < decls.len() by {
            assert(q[i] == p[i + 1]);
        }
        assert forall|i: int, j: int| #![trigger q[i], q[j]] 0 <= i && j == i + 1 && j < q.len() implies depends(decls, q[i], q[j]) by {
            assert(q[i] == p[i + 1]);
            assert(q[j] == p[j + 1]);
        }
        assert(q.last() == p.last());
        lemma_chain_groups(decls, comps, q, cm, c1);
    } else {
        assert(p.last() == p[0]);
        assert(occ(comps, p[0] as usize) == 1);
        lemma_occ_unique(comps, p[0] as usize, c0, c1);
    }
}

/// Bindings that reach each other through references to siblings share a
/// group: mutual recursion is never split apart.
pub proof fn law_scc_mutual(decls: Seq<Decl>, comps: Seq<Seq<usize>>, there: Seq<int>, back: Seq<int>, cu: int, cw: int)
    requires
        dependency_groups(decls, comps),
        refers_along(decls, there),
        refers_along(decls, back),
        back[0] == there.last(),
        back.last() == there[0],
        0 <= cu < comps.len(),
        0 <= cw < comps.len(),
        comps[cu].contains(there[0] as usize),
        comps[cw].contains(there.last() as usize),
    ensures
        cu == cw,
{
    lemma_chain_groups(decls, comps, there, cu, cw);
    lemma_chain_groups(decls, comps, back, cw, cu);
}

} // verus!
