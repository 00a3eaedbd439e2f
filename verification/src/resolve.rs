//! Names across modules: a type or constructor declared in module `M` is
//! known everywhere as the identity `M.Name`. This module splits identities,
//! rewrites the type names a module writes to the identities they mean, and
//! resolves the constructor names a pattern writes, bare or qualified.
use vstd::prelude::*;

use crate::ast::{copy_string, fvs, lemma_fvs, lemma_tvs, tv, tvs, Arm, ContentsExpr, Decl, EntryExpr, Expr, Module, Pattern, Span, Spanned, Type, TypeV};
use crate::names::NameMap;
use crate::text::{chars_of, push_str, str_eq, string_of_range};
use crate::{Error, Phase};

verus! {

// ---------------------------------------------------------------------------
// Identities.
// ---------------------------------------------------------------------------

/// The position of the last `.` in `s`.
pub open spec fn last_dot(s: Seq<char>) -> Option<int>
    decreases s.len(),
{
    if s.len() == 0 {
        None
    } else if s.last() == '.' {
        Some(s.len() - 1)
    } else {
        last_dot(s.drop_last())
    }
}

/// The bare tail of an identity: what follows its last dot.
pub open spec fn bare_spec(s: Seq<char>) -> Seq<char> {
    match last_dot(s) {
        Some(d) => s.subrange(d + 1, s.len() as int),
        None => s,
    }
}

/// The owner of an identity: what precedes its last dot.
pub open spec fn owner_spec(s: Seq<char>) -> Seq<char> {
    match last_dot(s) {
        Some(d) => s.subrange(0, d),
        None => s,
    }
}

proof fn lemma_last_dot(s: Seq<char>)
    ensures
        last_dot(s) matches Some(d) ==> 0 <= d < s.len() && s[d] == '.' && forall|k: int| d < k < s.len() ==> s[k] != '.',
        last_dot(s) is None ==> forall|k: int| 0 <= k < s.len() ==> s[k] != '.',
    decreases s.len(),
{
    if s.len() > 0 {
        lemma_last_dot(s.drop_last());
        if s.last() != '.' {
            assert forall|k: int| 0 <= k < s.len() - 1 implies s[k] == s.drop_last()[k] by {}
        }
    }
}

/// The position of the last `.` of `cs`.
fn find_last_dot(cs: &Vec<char>) -> (r: Option<usize>)
    ensures
        match r {
            Some(d) => last_dot(cs@) == Some(d as int),
            None => last_dot(cs@) is None,
        },
{
    let mut i: usize = cs.len();
    proof {
        assert(cs@.subrange(0, cs@.len() as int) =~= cs@);
    }
    while i > 0
        invariant
            i <= cs@.len(),
            last_dot(cs@) == last_dot(cs@.subrange(0, i as int)),
        decreases i,
    {
        proof {
            assert(cs@.subrange(0, i as int).drop_last() =~= cs@.subrange(0, i - 1));
        }
        if cs[i - 1] == '.' {
            return Some(i - 1);
        }
        i = i - 1;
    }
    proof {
        assert(cs@.subrange(0, 0) =~= Seq::<char>::empty());
    }
    None
}

/// The bare tail of an identity: `Split.Database.Config` is `Config`.
pub fn bare_name(identity: &str) -> (r: String)
    ensures
        r@ == bare_spec(identity@),
{
    let cs = chars_of(identity);
    match find_last_dot(&cs) {
        Some(d) => {
            proof {
                lemma_last_dot(cs@);
                assert(last_dot(cs@) == Some(d as int));
                assert(0 <= d < cs@.len());
            }
            string_of_range(&cs, d + 1, cs.len())
        },
        None => identity.to_string(),
    }
}

/// The owner of an identity: `Split.Database.Config` is `Split.Database`.
pub fn owner_of(identity: &str) -> (r: String)
    ensures
        r@ == owner_spec(identity@),
{
    let cs = chars_of(identity);
    match find_last_dot(&cs) {
        Some(d) => {
            proof {
                lemma_last_dot(cs@);
                assert(last_dot(cs@) == Some(d as int));
                assert(0 <= d < cs@.len());
            }
            string_of_range(&cs, 0, d)
        },
        None => identity.to_string(),
    }
}

/// `module.bare`.
pub open spec fn qualified(module: Seq<char>, bare: Seq<char>) -> Seq<char> {
    module + "."@ + bare
}

/// The identity of type `bare` declared in `module_name`.
pub fn qualified_type_name(module_name: &str, bare: &str) -> (r: String)
    ensures
        r@ == qualified(module_name@, bare@),
{
    let mut s = String::new();
    push_str(&mut s, module_name);
    push_str(&mut s, ".");
    push_str(&mut s, bare);
    s
}

/// The identity of constructor `bare` declared in `module_name`.
pub fn qualified_constructor_name(module_name: &str, bare: &str) -> (r: String)
    ensures
        r@ == qualified(module_name@, bare@),
{
    qualified_type_name(module_name, bare)
}

// ---------------------------------------------------------------------------
// Type constructor names.
// ---------------------------------------------------------------------------

/// The names of the type constructors a type applies.
pub open spec fn con_names(t: TypeV) -> Set<Seq<char>>
    decreases t,
{
    match t {
        TypeV::Con(n, args) => set![n].union(con_names_seq(args)),
        TypeV::Fun(a, b) => con_names(*a).union(con_names(*b)),
        TypeV::Record(fs, _) => con_names_fields(fs),
        TypeV::Tuple(es) => con_names_seq(es),
        _ => Set::empty(),
    }
}

pub open spec fn con_names_seq(s: Seq<TypeV>) -> Set<Seq<char>>
    decreases s,
{
    if s.len() == 0 {
        Set::empty()
    } else {
        con_names_seq(s.drop_last()).union(con_names(s.last()))
    }
}

pub open spec fn con_names_fields(s: Seq<(Seq<char>, TypeV)>) -> Set<Seq<char>>
    decreases s,
{
    if s.len() == 0 {
        Set::empty()
    } else {
        con_names_fields(s.drop_last()).union(con_names(s.last().1))
    }
}

pub open spec fn str_set(v: Seq<String>) -> Set<Seq<char>> {
    Set::new(|n: Seq<char>| exists|i: int| 0 <= i < v.len() && (#[trigger] v[i])@ == n)
}

fn add_str(acc: &mut Vec<String>, n: &String)
    ensures
        str_set(final(acc)@) == str_set(old(acc)@).insert(n@),
{
    let mut i: usize = 0;
    while i < acc.len()
        invariant
            i <= acc@.len(),
            forall|k: int| 0 <= k < i ==> (#[trigger] acc@[k])@ != n@,
        decreases acc.len() - i,
    {
        if str_eq(acc[i].as_str(), n.as_str()) {
            proof {
                assert(str_set(acc@).contains(n@));
                assert(str_set(acc@).insert(n@) =~= str_set(acc@));
            }
            return;
        }
        i = i + 1;
    }
    let ghost a0 = acc@;
    acc.push(n.clone());
    proof {
        assert(str_set(acc@) =~= str_set(a0).insert(n@)) by {
            assert forall|u: Seq<char>| str_set(acc@).contains(u) implies str_set(a0).insert(n@).contains(u) by {
                let k = choose|k: int| 0 <= k < acc@.len() && (#[trigger] acc@[k])@ == u;
                if k < a0.len() {
                    assert(a0[k] == acc@[k]);
                }
            }
            assert forall|u: Seq<char>| str_set(a0).insert(n@).contains(u) implies str_set(acc@).contains(u) by {
                if u == n@ {
                    assert(acc@[a0.len() as int]@ == u);
                } else {
                    let k = choose|k: int| 0 <= k < a0.len() && (#[trigger] a0[k])@ == u;
                    assert(acc@[k] == a0[k]);
                }
            }
        }
    }
}

/// Adds the names of the type constructors `ty` applies to `found`.
pub fn type_con_names(ty: &Type, found: &mut Vec<String>)
    ensures
        str_set(final(found)@) == str_set(old(found)@).union(con_names(tv(*ty))),
    decreases ty,
{
    let ghost f0 = str_set(found@);
    match ty {
        Type::Var(_, _) | Type::Rigid(_) => {
            proof {
                assert(f0.union(Set::empty()) =~= f0);
            }
        },
        Type::Con(name, args) => {
            add_str(found, name);
            con_names_all(args, found);
            proof {
                assert(str_set(found@) =~= f0.union(con_names(tv(*ty))));
            }
        },
        Type::Fun(a, b) => {
            type_con_names(a, found);
            type_con_names(b, found);
            proof {
                assert(str_set(found@) =~= f0.union(con_names(tv(*ty))));
            }
        },
        Type::Record(fs, _) => con_names_field_list(fs, found),
        Type::Tuple(es) => con_names_all(es, found),
    }
}

fn con_names_all(ts: &Vec<Type>, found: &mut Vec<String>)
    ensures
        str_set(final(found)@) == str_set(old(found)@).union(con_names_seq(tvs(ts@))),
    decreases ts,
{
    let ghost f0 = str_set(found@);
    let mut i: usize = 0;
    proof {
        lemma_tvs(ts@);
        assert(tvs(ts@).subrange(0, 0) =~= Seq::<TypeV>::empty());
        assert(f0.union(Set::empty()) =~= f0);
    }
    while i < ts.len()
        invariant
            i <= ts@.len(),
            tvs(ts@).len() == ts@.len(),
            forall|k: int| 0 <= k < ts@.len() ==> #[trigger] tvs(ts@)[k] == tv(ts@[k]),
            str_set(found@) == f0.union(con_names_seq(tvs(ts@).subrange(0, i as int))),
        decreases ts.len() - i,
    {
        proof {
            assert(decreases_to!(ts => ts[i as int]));
        }
        type_con_names(&ts[i], found);
        proof {
            assert(tvs(ts@).subrange(0, i + 1).drop_last() =~= tvs(ts@).subrange(0, i as int));
            assert(str_set(found@) =~= f0.union(con_names_seq(tvs(ts@).subrange(0, i + 1))));
        }
        i = i + 1;
    }
    proof {
        assert(tvs(ts@).subrange(0, i as int) =~= tvs(ts@));
    }
}

fn con_names_field_list(fs: &Vec<(String, Type)>, found: &mut Vec<String>)
    ensures
        str_set(final(found)@) == str_set(old(found)@).union(con_names_fields(fvs(fs@))),
    decreases fs,
{
    let ghost f0 = str_set(found@);
    let mut i: usize = 0;
    proof {
        lemma_fvs(fs@);
        assert(fvs(fs@).subrange(0, 0) =~= Seq::<(Seq<char>, TypeV)>::empty());
        assert(f0.union(Set::empty()) =~= f0);
    }
    while i < fs.len()
        invariant
            i <= fs@.len(),
            fvs(fs@).len() == fs@.len(),
            forall|k: int| 0 <= k < fs@.len() ==> #[trigger] fvs(fs@)[k] == (fs@[k].0@, tv(fs@[k].1)),
            str_set(found@) == f0.union(con_names_fields(fvs(fs@).subrange(0, i as int))),
        decreases fs.len() - i,
    {
        proof {
            assert(decreases_to!(fs => fs[i as int]));
            assert(decreases_to!(fs[i as int] => fs[i as int].1));
        }
        type_con_names(&fs[i].1, found);
        proof {
            assert(fvs(fs@).subrange(0, i + 1).drop_last() =~= fvs(fs@).subrange(0, i as int));
            assert(str_set(found@) =~= f0.union(con_names_fields(fvs(fs@).subrange(0, i + 1))));
        }
        i = i + 1;
    }
    proof {
        assert(fvs(fs@).subrange(0, i as int) =~= fvs(fs@));
    }
}


// ---------------------------------------------------------------------------
// Joining.
// ---------------------------------------------------------------------------

/// The parts with `sep` between each two.
pub open spec fn join(parts: Seq<Seq<char>>, sep: Seq<char>) -> Seq<char>
    decreases parts.len(),
{
    if parts.len() == 0 {
        Seq::empty()
    } else if parts.len() == 1 {
        parts[0]
    } else {
        join(parts.drop_last(), sep) + sep + parts.last()
    }
}

pub open spec fn views(v: Seq<String>) -> Seq<Seq<char>> {
    v.map_values(|s: String| s@)
}

/// Each candidate's owner, in backquotes.
pub open spec fn quoted_owners(c: Seq<Seq<char>>) -> Seq<Seq<char>> {
    c.map_values(|x: Seq<char>| "`"@ + owner_spec(x) + "`"@)
}

/// Each candidate in backquotes.
pub open spec fn quoted(c: Seq<Seq<char>>) -> Seq<Seq<char>> {
    c.map_values(|x: Seq<char>| "`"@ + x + "`"@)
}

/// Each candidate's owner.
pub open spec fn owners(c: Seq<Seq<char>>) -> Seq<Seq<char>> {
    c.map_values(|x: Seq<char>| owner_spec(x))
}

/// Joins the pieces that `piece` makes of each string.
fn join_pieces(items: &Vec<String>, sep: &str, quote: bool, owner: bool) -> (r: String)
    ensures
        r@ == join(
            if owner {
                if quote {
                    quoted_owners(views(items@))
                } else {
                    owners(views(items@))
                }
            } else {
                quoted(views(items@))
            },
            sep@,
        ),
{
    let ghost parts = if owner {
        if quote {
            quoted_owners(views(items@))
        } else {
            owners(views(items@))
        }
    } else {
        quoted(views(items@))
    };
    let mut out = String::new();
    let mut i: usize = 0;
    proof {
        assert(parts.subrange(0, 0) =~= Seq::<Seq<char>>::empty());
    }
    while i < items.len()
        invariant
            i <= items@.len(),
            parts.len() == items@.len(),
            parts == (if owner {
                if quote {
                    quoted_owners(views(items@))
                } else {
                    owners(views(items@))
                }
            } else {
                quoted(views(items@))
            }),
            out@ == join(parts.subrange(0, i as int), sep@),
        decreases items.len() - i,
    {
        if i > 0 {
            push_str(&mut out, sep);
        }
        let piece = if owner {
            let o = owner_of(items[i].as_str());
            if quote {
                let mut p = String::new();
                push_str(&mut p, "`");
                push_str(&mut p, o.as_str());
                push_str(&mut p, "`");
                p
            } else {
                o
            }
        } else {
            let mut p = String::new();
            push_str(&mut p, "`");
            push_str(&mut p, items[i].as_str());
            push_str(&mut p, "`");
            p
        };
        push_str(&mut out, piece.as_str());
        proof {
            let pre = parts.subrange(0, i + 1);
            assert(pre.drop_last() =~= parts.subrange(0, i as int));
            assert(pre.last() == parts[i as int]);
            assert(piece@ == parts[i as int]);
            if i == 0 {
                assert(pre.len() == 1);
            }
        }
        i = i + 1;
    }
    proof {
        assert(parts.subrange(0, i as int) =~= parts);
    }
    out
}

// ---------------------------------------------------------------------------
// Qualifying type names.
// ---------------------------------------------------------------------------

/// Every alias names at least one identity.
pub open spec fn aliases_ok(al: NameMap<Vec<String>>) -> bool {
    forall|k: Seq<char>| #[trigger] al.get_spec(k) matches Some(c) ==> c@.len() > 0
}

/// The type with each constructor name that an alias maps to one identity
/// replaced by that identity; the error is the first name several
/// identities share.
pub open spec fn qual_type(t: TypeV, al: NameMap<Vec<String>>) -> Result<TypeV, Seq<char>>
    decreases t,
{
    match t {
        TypeV::Con(name, args) => match al.get_spec(name) {
            Some(c) => if c@.len() > 1 {
                Err(name)
            } else {
                match qual_seq(args, al) {
                    Ok(a2) => Ok(TypeV::Con(c@[0]@, a2)),
                    Err(e) => Err(e),
                }
            },
            None => match qual_seq(args, al) {
                Ok(a2) => Ok(TypeV::Con(name, a2)),
                Err(e) => Err(e),
            },
        },
        TypeV::Fun(a, b) => match qual_type(*a, al) {
            Err(e) => Err(e),
            Ok(a2) => match qual_type(*b, al) {
                Err(e) => Err(e),
                Ok(b2) => Ok(TypeV::Fun(Box::new(a2), Box::new(b2))),
            },
        },
        TypeV::Record(fs, row) => match qual_fields(fs, al) {
            Ok(f2) => Ok(TypeV::Record(f2, row)),
            Err(e) => Err(e),
        },
        TypeV::Tuple(es) => match qual_seq(es, al) {
            Ok(e2) => Ok(TypeV::Tuple(e2)),
            Err(e) => Err(e),
        },
        _ => Ok(t),
    }
}

pub open spec fn qual_seq(s: Seq<TypeV>, al: NameMap<Vec<String>>) -> Result<Seq<TypeV>, Seq<char>>
    decreases s,
{
    if s.len() == 0 {
        Ok(Seq::empty())
    } else {
        match qual_seq(s.drop_last(), al) {
            Err(e) => Err(e),
            Ok(p) => match qual_type(s.last(), al) {
                Err(e) => Err(e),
                Ok(x) => Ok(p.push(x)),
            },
        }
    }
}

pub open spec fn qual_fields(s: Seq<(Seq<char>, TypeV)>, al: NameMap<Vec<String>>) -> Result<Seq<(Seq<char>, TypeV)>, Seq<char>>
    decreases s,
{
    if s.len() == 0 {
        Ok(Seq::empty())
    } else {
        match qual_fields(s.drop_last(), al) {
            Err(e) => Err(e),
            Ok(p) => match qual_type(s.last().1, al) {
                Err(e) => Err(e),
                Ok(x) => Ok(p.push((s.last().0, x))),
            },
        }
    }
}

/// The message for a type name several imported types share.
pub open spec fn type_ambiguity_msg(name: Seq<char>, al: NameMap<Vec<String>>) -> Seq<char> {
    "`"@ + name + "` is ambiguous here: `"@ + join(owners(views(al.get_spec(name).unwrap()@)), "` and `"@)
        + "` both expose one"@
}

fn type_ambiguity(name: &String, candidates: &Vec<String>) -> (e: Error)
    requires
        candidates@.len() > 0,
    ensures
        e.phase == Phase::Type,
        e.msg@ == "`"@ + name@ + "` is ambiguous here: `"@ + join(owners(views(candidates@)), "` and `"@) + "` both expose one"@,
        e.span == (0usize..0usize),
{
    let mut msg = String::new();
    push_str(&mut msg, "`");
    push_str(&mut msg, name.as_str());
    push_str(&mut msg, "` is ambiguous here: `");
    let owners_text = join_pieces(candidates, "` and `", false, true);
    push_str(&mut msg, owners_text.as_str());
    push_str(&mut msg, "` both expose one");
    let mut note = String::new();
    push_str(&mut note, "name the one you mean in full \u{2014} `");
    push_str(&mut note, candidates[0].as_str());
    push_str(&mut note, "` \u{2014} or import only one of them");
    Error { phase: Phase::Type, msg, span: 0..0, note: Some(note), file: None }
}

/// Rewrites the type constructor names of `ty` to the identities the
/// module's aliases give them; a name two imported types share is an error.
pub fn qualify_type(ty: &Type, aliases: &NameMap<Vec<String>>) -> (r: Result<Type, Error>)
    requires
        aliases.wf(),
        aliases_ok(*aliases),
    ensures
        match qual_type(tv(*ty), *aliases) {
            Ok(t2) => r matches Ok(t) && tv(t) == t2,
            Err(n) => r matches Err(e) && e.phase == Phase::Type && e.msg@ == type_ambiguity_msg(n, *aliases)
                && e.span == (0usize..0usize),
        },
    decreases ty,
{
    match ty {
        Type::Con(name, args) => {
            proof {
                lemma_tvs(args@);
            }
            let target = match aliases.get(name.as_str()) {
                Some(candidates) => {
                    proof {
                        assert(aliases.get_spec(name@) == Some(*candidates));
                    }
                    if candidates.len() > 1 {
                        return Err(type_ambiguity(name, candidates));
                    }
                    proof {
                        assert(candidates@.len() > 0);
                    }
                    candidates[0].clone()
                },
                None => name.clone(),
            };
            match qualify_all(args, aliases) {
                Ok(a2) => Ok(Type::Con(target, a2)),
                Err(e) => Err(e),
            }
        },
        Type::Fun(a, b) => {
            let a2 = match qualify_type(a, aliases) {
                Ok(t) => t,
                Err(e) => {
                    return Err(e);
                },
            };
            let b2 = match qualify_type(b, aliases) {
                Ok(t) => t,
                Err(e) => {
                    return Err(e);
                },
            };
            Ok(Type::Fun(Box::new(a2), Box::new(b2)))
        },
        Type::Record(fs, row) => match qualify_field_list(fs, aliases) {
            Ok(f2) => Ok(Type::Record(f2, *row)),
            Err(e) => Err(e),
        },
        Type::Tuple(es) => match qualify_all(es, aliases) {
            Ok(e2) => Ok(Type::Tuple(e2)),
            Err(e) => Err(e),
        },
        Type::Var(v, c) => Ok(Type::Var(*v, *c)),
        Type::Rigid(n) => Ok(Type::Rigid(n.clone())),
    }
}

fn qualify_all(ts: &Vec<Type>, aliases: &NameMap<Vec<String>>) -> (r: Result<Vec<Type>, Error>)
    requires
        aliases.wf(),
        aliases_ok(*aliases),
    ensures
        match qual_seq(tvs(ts@), *aliases) {
            Ok(s2) => r matches Ok(v) && tvs(v@) == s2,
            Err(n) => r matches Err(e) && e.phase == Phase::Type && e.msg@ == type_ambiguity_msg(n, *aliases)
                && e.span == (0usize..0usize),
        },
    decreases ts,
{
    let mut out: Vec<Type> = Vec::new();
    let mut i: usize = 0;
    proof {
        lemma_tvs(ts@);
        assert(tvs(ts@).subrange(0, 0) =~= Seq::<TypeV>::empty());
    }
    while i < ts.len()
        invariant
            aliases.wf(),
            aliases_ok(*aliases),
            i <= ts@.len(),
            tvs(ts@).len() == ts@.len(),
            forall|k: int| 0 <= k < ts@.len() ==> #[trigger] tvs(ts@)[k] == tv(ts@[k]),
            qual_seq(tvs(ts@).subrange(0, i as int), *aliases) == Ok::<Seq<TypeV>, Seq<char>>(tvs(out@)),
        decreases ts.len() - i,
    {
        proof {
            assert(decreases_to!(ts => ts[i as int]));
            assert(tvs(ts@).subrange(0, i + 1).drop_last() =~= tvs(ts@).subrange(0, i as int));
        }
        match qualify_type(&ts[i], aliases) {
            Ok(x) => {
                let ghost before = out@;
                out.push(x);
                proof {
                    crate::ast::lemma_tvs_push(before, x);
                }
            },
            Err(e) => {
                proof {
                    lemma_qual_seq_err(tvs(ts@), i + 1, *aliases);
                }
                return Err(e);
            },
        }
        i = i + 1;
    }
    proof {
        assert(tvs(ts@).subrange(0, i as int) =~= tvs(ts@));
    }
    Ok(out)
}

proof fn lemma_qual_seq_err(s: Seq<TypeV>, i: int, al: NameMap<Vec<String>>)
    requires
        0 <= i <= s.len(),
        qual_seq(s.subrange(0, i), al) is Err,
    ensures
        qual_seq(s, al) == qual_seq(s.subrange(0, i), al),
    decreases s.len() - i,
{
    if i < s.len() {
        assert(s.subrange(0, i + 1).drop_last() =~= s.subrange(0, i));
        lemma_qual_seq_err(s, i + 1, al);
    } else {
        assert(s.subrange(0, i) =~= s);
    }
}

proof fn lemma_qual_fields_err(s: Seq<(Seq<char>, TypeV)>, i: int, al: NameMap<Vec<String>>)
    requires
        0 <= i <= s.len(),
        qual_fields(s.subrange(0, i), al) is Err,
    ensures
        qual_fields(s, al) == qual_fields(s.subrange(0, i), al),
    decreases s.len() - i,
{
    if i < s.len() {
        assert(s.subrange(0, i + 1).drop_last() =~= s.subrange(0, i));
        lemma_qual_fields_err(s, i + 1, al);
    } else {
        assert(s.subrange(0, i) =~= s);
    }
}

fn qualify_field_list(fs: &Vec<(String, Type)>, aliases: &NameMap<Vec<String>>) -> (r: Result<Vec<(String, Type)>, Error>)
    requires
        aliases.wf(),
        aliases_ok(*aliases),
    ensures
        match qual_fields(fvs(fs@), *aliases) {
            Ok(s2) => r matches Ok(v) && fvs(v@) == s2,
            Err(n) => r matches Err(e) && e.phase == Phase::Type && e.msg@ == type_ambiguity_msg(n, *aliases)
                && e.span == (0usize..0usize),
        },
    decreases fs,
{
    let mut out: Vec<(String, Type)> = Vec::new();
    let mut i: usize = 0;
    proof {
        lemma_fvs(fs@);
        assert(fvs(fs@).subrange(0, 0) =~= Seq::<(Seq<char>, TypeV)>::empty());
    }
    while i < fs.len()
        invariant
            aliases.wf(),
            aliases_ok(*aliases),
            i <= fs@.len(),
            fvs(fs@).len() == fs@.len(),
            forall|k: int| 0 <= k < fs@.len() ==> #[trigger] fvs(fs@)[k] == (fs@[k].0@, tv(fs@[k].1)),
            qual_fields(fvs(fs@).subrange(0, i as int), *aliases) == Ok::<Seq<(Seq<char>, TypeV)>, Seq<char>>(fvs(out@)),
        decreases fs.len() - i,
    {
        proof {
            assert(decreases_to!(fs => fs[i as int]));
            assert(decreases_to!(fs[i as int] => fs[i as int].1));
            assert(fvs(fs@).subrange(0, i + 1).drop_last() =~= fvs(fs@).subrange(0, i as int));
        }
        match qualify_type(&fs[i].1, aliases) {
            Ok(x) => {
                let f = (fs[i].0.clone(), x);
                let ghost before = out@;
                out.push(f);
                proof {
                    crate::ast::lemma_fvs_push(before, f);
                }
            },
            Err(e) => {
                proof {
                    lemma_qual_fields_err(fvs(fs@), i + 1, *aliases);
                }
                return Err(e);
            },
        }
        i = i + 1;
    }
    proof {
        assert(fvs(fs@).subrange(0, i as int) =~= fvs(fs@));
    }
    Ok(out)
}


// ---------------------------------------------------------------------------
// Constructor names.
// ---------------------------------------------------------------------------

/// Everything one module can mean by a constructor name: each bare name
/// with the identities it may stand for, each qualifier an author may write
/// with the module it stands for, and every constructor identity in scope.
pub struct ConstructorScope {
    pub aliases: NameMap<Vec<String>>,
    pub modules_by_qualifier: NameMap<String>,
    pub identities: Vec<String>,
}

/// What a constructor name written in a module means.
pub enum Resolution {
    /// The name stands for this identity.
    Identity(Seq<char>),
    /// The name is none of the module's: it passes through untouched.
    Untouched,
    /// The qualifier names a module that has no such constructor in scope.
    NotInScope(Seq<char>, Seq<char>),
    /// Several identities share the bare name.
    Ambiguous(Seq<Seq<char>>),
}

impl ConstructorScope {
    /// What `name` means here: a dotted name is split at its last dot into a
    /// qualifier and a bare name, a bare name is looked up among the aliases.
    pub open spec fn meaning(&self, name: Seq<char>) -> Resolution {
        match last_dot(name) {
            Some(d) => {
                let q = name.subrange(0, d);
                let bare = name.subrange(d + 1, name.len() as int);
                match self.modules_by_qualifier.get_spec(q) {
                    None => Resolution::Untouched,
                    Some(owner) => if str_set(self.identities@).contains(qualified(owner@, bare)) {
                        Resolution::Identity(qualified(owner@, bare))
                    } else {
                        Resolution::NotInScope(owner@, bare)
                    },
                }
            },
            None => match self.aliases.get_spec(name) {
                None => Resolution::Untouched,
                Some(c) => if c@.len() == 1 {
                    Resolution::Identity(c@[0]@)
                } else {
                    Resolution::Ambiguous(views(c@))
                },
            },
        }
    }

    /// The identity a written constructor name means here, `None` for a
    /// name this stage leaves alone (a prelude constructor, a glyph tag, an
    /// unknown name), or an error: a qualified name the qualifier's module
    /// does not have in scope, or a bare name several identities share.
    pub fn resolve(&self, name: &str, span: &Span) -> (r: Result<Option<String>, Error>)
        requires
            self.aliases.wf(),
            self.modules_by_qualifier.wf(),
        ensures
            match self.meaning(name@) {
                Resolution::Identity(id) => r matches Ok(Some(s)) && s@ == id,
                Resolution::Untouched => r matches Ok(None),
                Resolution::NotInScope(owner, bare) => r matches Err(e) && e.phase == Phase::Type && e.span == *span
                    && e.msg@ == "`"@ + owner + "` has no constructor named `"@ + bare + "` in scope here"@,
                Resolution::Ambiguous(c) => r matches Err(e) && e.phase == Phase::Type && e.span == *span && e.msg@
                    == ambiguity_msg(name@, c),
            },
    {
        let cs = chars_of(name);
        match find_last_dot(&cs) {
            Some(d) => {
                proof {
                    lemma_last_dot(cs@);
                    assert(last_dot(cs@) == Some(d as int));
                }
                let qualifier = string_of_range(&cs, 0, d);
                let bare = string_of_range(&cs, d + 1, cs.len());
                match self.modules_by_qualifier.get(qualifier.as_str()) {
                    None => Ok(None),
                    Some(owner) => {
                        let identity = qualified_constructor_name(owner.as_str(), bare.as_str());
                        if !contains_str(&self.identities, &identity) {
                            let mut msg = String::new();
                            push_str(&mut msg, "`");
                            push_str(&mut msg, owner.as_str());
                            push_str(&mut msg, "` has no constructor named `");
                            push_str(&mut msg, bare.as_str());
                            push_str(&mut msg, "` in scope here");
                            let mut note = String::new();
                            push_str(&mut note, "a constructor is in scope only where its type is exposed open \u{2014} check that `");
                            push_str(&mut note, owner.as_str());
                            push_str(&mut note, "` declares `");
                            push_str(&mut note, bare.as_str());
                            push_str(&mut note, "` and exposes its type as `Type(..)`");
                            return Err(Error { phase: Phase::Type, msg, span: span.start..span.end, note: Some(note), file: None });
                        }
                        Ok(Some(identity))
                    },
                }
            },
            None => match self.aliases.get(name) {
                None => Ok(None),
                Some(candidates) => {
                    if candidates.len() == 1 {
                        Ok(Some(candidates[0].clone()))
                    } else {
                        Err(ambiguous_constructor(name, candidates, span))
                    }
                },
            },
        }
    }
}

fn contains_str(v: &Vec<String>, n: &String) -> (r: bool)
    ensures
        r == str_set(v@).contains(n@),
{
    let mut i: usize = 0;
    while i < v.len()
        invariant
            i <= v@.len(),
            forall|k: int| 0 <= k < i ==> (#[trigger] v@[k])@ != n@,
        decreases v.len() - i,
    {
        if str_eq(v[i].as_str(), n.as_str()) {
            return true;
        }
        i = i + 1;
    }
    false
}

/// The message for a bare constructor name several identities share.
pub open spec fn ambiguity_msg(name: Seq<char>, c: Seq<Seq<char>>) -> Seq<char> {
    "`"@ + name + "` is ambiguous here: "@ + join(quoted_owners(c), " and "@) + " both define one"@
}

/// The error for a bare constructor name that several identities share,
/// reported where it is used; its note offers each qualified spelling.
pub fn ambiguous_constructor(name: &str, candidates: &Vec<String>, span: &Span) -> (e: Error)
    ensures
        e.phase == Phase::Type,
        e.span == *span,
        e.msg@ == ambiguity_msg(name@, views(candidates@)),
        e.note matches Some(n) && n@ == "name the one you mean in full \u{2014} "@ + join(quoted(views(candidates@)), " or "@)
            + " \u{2014} or import only one of them"@,
{
    let owners_text = join_pieces(candidates, " and ", true, true);
    let spellings = join_pieces(candidates, " or ", false, false);
    let mut msg = String::new();
    push_str(&mut msg, "`");
    push_str(&mut msg, name);
    push_str(&mut msg, "` is ambiguous here: ");
    push_str(&mut msg, owners_text.as_str());
    push_str(&mut msg, " both define one");
    let mut note = String::new();
    push_str(&mut note, "name the one you mean in full \u{2014} ");
    push_str(&mut note, spellings.as_str());
    push_str(&mut note, " \u{2014} or import only one of them");
    Error { phase: Phase::Type, msg, span: span.start..span.end, note: Some(note), file: None }
}

// ---------------------------------------------------------------------------
// Qualifying the constructors of a pattern.
// ---------------------------------------------------------------------------

/// `q` is `p` with each constructor name replaced by the identity it means
/// in `sc`, names that mean none kept, spans kept.
pub open spec fn pattern_qualified(p: Spanned<Pattern>, q: Spanned<Pattern>, sc: ConstructorScope) -> bool
    decreases p,
{
    &&& q.1 == p.1
    &&& match (p.0, q.0) {
        (Pattern::Ctor(n, subs), Pattern::Ctor(m, subs2)) => {
            &&& match sc.meaning(n@) {
                Resolution::Identity(id) => m@ == id,
                Resolution::Untouched => m@ == n@,
                _ => false,
            }
            &&& subs2@.len() == subs@.len()
            &&& forall|k: int| 0 <= k < subs@.len() ==> pattern_qualified(#[trigger] subs@[k], subs2@[k], sc)
        },
        (Pattern::Cons(h, t), Pattern::Cons(h2, t2)) => pattern_qualified(*h, *h2, sc) && pattern_qualified(*t, *t2, sc),
        (Pattern::Tuple(es), Pattern::Tuple(es2)) => {
            &&& es2@.len() == es@.len()
            &&& forall|k: int| 0 <= k < es@.len() ==> pattern_qualified(#[trigger] es@[k], es2@[k], sc)
        },
        (Pattern::Wildcard, Pattern::Wildcard) => true,
        (Pattern::Var(a), Pattern::Var(b)) => a@ == b@,
        (Pattern::Str(a), Pattern::Str(b)) => a@ == b@,
        (Pattern::Int(a), Pattern::Int(b)) => a == b,
        (Pattern::Char(a), Pattern::Char(b)) => a == b,
        (Pattern::Nil, Pattern::Nil) => true,
        _ => false,
    }
}

/// Every constructor name of `p` means an identity or passes through.
pub open spec fn pattern_resolves(p: Spanned<Pattern>, sc: ConstructorScope) -> bool
    decreases p,
{
    match p.0 {
        Pattern::Ctor(n, subs) => {
            &&& (sc.meaning(n@) is Identity || sc.meaning(n@) is Untouched)
            &&& forall|k: int| 0 <= k < subs@.len() ==> pattern_resolves(#[trigger] subs@[k], sc)
        },
        Pattern::Cons(h, t) => pattern_resolves(*h, sc) && pattern_resolves(*t, sc),
        Pattern::Tuple(es) => forall|k: int| 0 <= k < es@.len() ==> pattern_resolves(#[trigger] es@[k], sc),
        _ => true,
    }
}

/// Rewrites the constructor names of a pattern to the identities they mean
/// here; a name that cannot be resolved is an error.
pub fn qualify_pattern_constructors(pattern: &Spanned<Pattern>, scope: &ConstructorScope) -> (r: Result<Spanned<Pattern>, Error>)
    requires
        scope.aliases.wf(),
        scope.modules_by_qualifier.wf(),
    ensures
        r is Ok <==> pattern_resolves(*pattern, *scope),
        r matches Ok(q) ==> pattern_qualified(*pattern, q, *scope),
    decreases pattern,
{
    let span = pattern.1.start..pattern.1.end;
    match &pattern.0 {
        Pattern::Wildcard => Ok(Spanned(Pattern::Wildcard, span)),
        Pattern::Var(v) => Ok(Spanned(Pattern::Var(v.clone()), span)),
        Pattern::Str(v) => Ok(Spanned(Pattern::Str(v.clone()), span)),
        Pattern::Int(v) => Ok(Spanned(Pattern::Int(*v), span)),
        Pattern::Char(v) => Ok(Spanned(Pattern::Char(*v), span)),
        Pattern::Nil => Ok(Spanned(Pattern::Nil, span)),
        Pattern::Ctor(name, subs) => {
            let resolved = match scope.resolve(name.as_str(), &pattern.1) {
                Ok(x) => x,
                Err(e) => {
                    return Err(e);
                },
            };
            let name2 = match resolved {
                Some(identity) => identity,
                None => name.clone(),
            };
            match qualify_patterns(subs, scope) {
                Ok(subs2) => Ok(Spanned(Pattern::Ctor(name2, subs2), span)),
                Err(e) => Err(e),
            }
        },
        Pattern::Cons(h, t) => {
            let h2 = match qualify_pattern_constructors(h, scope) {
                Ok(x) => x,
                Err(e) => {
                    return Err(e);
                },
            };
            let t2 = match qualify_pattern_constructors(t, scope) {
                Ok(x) => x,
                Err(e) => {
                    return Err(e);
                },
            };
            Ok(Spanned(Pattern::Cons(Box::new(h2), Box::new(t2)), span))
        },
        Pattern::Tuple(es) => match qualify_patterns(es, scope) {
            Ok(es2) => Ok(Spanned(Pattern::Tuple(es2), span)),
            Err(e) => Err(e),
        },
    }
}

fn qualify_patterns(ps: &Vec<Spanned<Pattern>>, scope: &ConstructorScope) -> (r: Result<Vec<Spanned<Pattern>>, Error>)
    requires
        scope.aliases.wf(),
        scope.modules_by_qualifier.wf(),
    ensures
        r is Ok <==> forall|k: int| 0 <= k < ps@.len() ==> pattern_resolves(#[trigger] ps@[k], *scope),
        r matches Ok(qs) ==> qs@.len() == ps@.len() && forall|k: int| 0 <= k < ps@.len() ==> pattern_qualified(#[trigger] ps@[k], qs@[k], *scope),
    decreases ps,
{
    let mut out: Vec<Spanned<Pattern>> = Vec::new();
    let mut i: usize = 0;
    while i < ps.len()
        invariant
            scope.aliases.wf(),
            scope.modules_by_qualifier.wf(),
            i <= ps@.len(),
            out@.len() == i,
            forall|k: int| 0 <= k < i ==> pattern_resolves(#[trigger] ps@[k], *scope),
            forall|k: int| 0 <= k < i ==> pattern_qualified(#[trigger] ps@[k], out@[k], *scope),
        decreases ps.len() - i,
    {
        proof {
            assert(decreases_to!(ps => ps[i as int]));
        }
        match qualify_pattern_constructors(&ps[i], scope) {
            Ok(q) => {
                out.push(q);
            },
            Err(e) => {
                return Err(e);
            },
        }
        i = i + 1;
    }
    Ok(out)
}


// ---------------------------------------------------------------------------
// Qualifying the constructors of an expression.
// ---------------------------------------------------------------------------

/// Every constructor name in `e`, in expressions and in the patterns of its
/// lambdas, `let` parameters and `case` arms, means an identity here or
/// passes through.
pub open spec fn expr_resolves(e: Spanned<Expr>, sc: ConstructorScope) -> bool
    decreases e,
{
    match e.0 {
        Expr::Ctor(n) => sc.meaning(n@) is Identity || sc.meaning(n@) is Untouched,
        Expr::AptPackage(x) => expr_resolves(*x, sc),
        Expr::SystemdService(x) => expr_resolves(*x, sc),
        Expr::Filesystem { path, entry } => expr_resolves(*path, sc) && match entry {
            EntryExpr::File { contents, mode } => expr_resolves(*contents, sc) && expr_resolves(*mode, sc),
            EntryExpr::Directory { mode } => expr_resolves(*mode, sc),
            EntryExpr::Symlink { target } => expr_resolves(*target, sc),
        },
        Expr::LineInFile { path, line } => expr_resolves(*path, sc) && expr_resolves(*line, sc),
        Expr::Scroll { name, policy, notifies, contents } => {
            &&& expr_resolves(*name, sc)
            &&& match policy {
                Some(x) => expr_resolves(*x, sc),
                None => true,
            }
            &&& match notifies {
                Some(x) => expr_resolves(*x, sc),
                None => true,
            }
            &&& match contents {
                ContentsExpr::Glyphs(x) => expr_resolves(*x, sc),
                ContentsExpr::Groups(x) => expr_resolves(*x, sc),
            }
        },
        Expr::PolicyRetry(fs) => forall|k: int| 0 <= k < fs@.len() ==> expr_resolves(#[trigger] fs@[k].1, sc),
        Expr::Record(fs) => forall|k: int| 0 <= k < fs@.len() ==> expr_resolves(#[trigger] fs@[k].1, sc),
        Expr::List(items) => forall|k: int| 0 <= k < items@.len() ==> expr_resolves(#[trigger] items@[k], sc),
        Expr::Tuple(items) => forall|k: int| 0 <= k < items@.len() ==> expr_resolves(#[trigger] items@[k], sc),
        Expr::Lam { param, body } => pattern_resolves(param, sc) && expr_resolves(*body, sc),
        Expr::App(f, x) => expr_resolves(*f, sc) && expr_resolves(*x, sc),
        Expr::Let { decls, body } => (forall|k: int| 0 <= k < decls@.len() ==> decl_resolves(#[trigger] decls@[k], sc))
            && expr_resolves(*body, sc),
        Expr::RecordUpdate { base, fields } => expr_resolves(*base, sc) && forall|k: int|
            0 <= k < fields@.len() ==> expr_resolves(#[trigger] fields@[k].1, sc),
        Expr::Field(x, _) => expr_resolves(*x, sc),
        Expr::Case { scrutinee, arms } => expr_resolves(*scrutinee, sc) && forall|k: int|
            0 <= k < arms@.len() ==> arm_resolves(#[trigger] arms@[k], sc),
        Expr::If { cond, then_, else_ } => expr_resolves(*cond, sc) && expr_resolves(*then_, sc) && expr_resolves(
            *else_,
            sc,
        ),
        _ => true,
    }
}

/// A binding's parameter patterns and body resolve.
pub open spec fn decl_resolves(d: Decl, sc: ConstructorScope) -> bool
    decreases d,
{
    (forall|j: int| 0 <= j < d.params@.len() ==> pattern_resolves(#[trigger] d.params@[j], sc)) && expr_resolves(
        d.body,
        sc,
    )
}

/// An arm's pattern and body resolve.
pub open spec fn arm_resolves(a: Arm, sc: ConstructorScope) -> bool
    decreases a,
{
    pattern_resolves(a.pat, sc) && expr_resolves(a.body, sc)
}

/// `q` is `p` with every constructor name (in expressions and patterns)
/// replaced by the identity it means in `sc`, names that mean none kept,
/// everything else, spans included, kept.
pub open spec fn expr_qualified(p: Spanned<Expr>, q: Spanned<Expr>, sc: ConstructorScope) -> bool
    decreases p,
{
    &&& q.1 == p.1
    &&& match (p.0, q.0) {
        (Expr::Ctor(n), Expr::Ctor(m)) => match sc.meaning(n@) {
            Resolution::Identity(id) => m@ == id,
            Resolution::Untouched => m@ == n@,
            _ => false,
        },
        (Expr::Str(a), Expr::Str(b)) => a@ == b@,
        (Expr::Int(a), Expr::Int(b)) => a == b,
        (Expr::Float(a), Expr::Float(b)) => a@ == b@,
        (Expr::Char(a), Expr::Char(b)) => a == b,
        (Expr::Var(a), Expr::Var(b)) => a@ == b@,
        (Expr::PolicyExhaust(a), Expr::PolicyExhaust(b)) => a == b,
        (Expr::AptPackage(x), Expr::AptPackage(y)) => expr_qualified(*x, *y, sc),
        (Expr::SystemdService(x), Expr::SystemdService(y)) => expr_qualified(*x, *y, sc),
        (Expr::Filesystem { path, entry }, Expr::Filesystem { path: path2, entry: entry2 }) => expr_qualified(
            *path,
            *path2,
            sc,
        ) && match (entry, entry2) {
            (EntryExpr::File { contents, mode }, EntryExpr::File { contents: c2, mode: m2 }) => expr_qualified(
                *contents,
                *c2,
                sc,
            ) && expr_qualified(*mode, *m2, sc),
            (EntryExpr::Directory { mode }, EntryExpr::Directory { mode: m2 }) => expr_qualified(*mode, *m2, sc),
            (EntryExpr::Symlink { target }, EntryExpr::Symlink { target: t2 }) => expr_qualified(*target, *t2, sc),
            _ => false,
        },
        (Expr::LineInFile { path, line }, Expr::LineInFile { path: p2, line: l2 }) => expr_qualified(*path, *p2, sc)
            && expr_qualified(*line, *l2, sc),
        (
            Expr::Scroll { name, policy, notifies, contents },
            Expr::Scroll { name: n2, policy: po2, notifies: no2, contents: c2 },
        ) => {
            &&& expr_qualified(*name, *n2, sc)
            &&& match (policy, po2) {
                (Some(x), Some(y)) => expr_qualified(*x, *y, sc),
                (None, None) => true,
                _ => false,
            }
            &&& match (notifies, no2) {
                (Some(x), Some(y)) => expr_qualified(*x, *y, sc),
                (None, None) => true,
                _ => false,
            }
            &&& match (contents, c2) {
                (ContentsExpr::Glyphs(x), ContentsExpr::Glyphs(y)) => expr_qualified(*x, *y, sc),
                (ContentsExpr::Groups(x), ContentsExpr::Groups(y)) => expr_qualified(*x, *y, sc),
                _ => false,
            }
        },
        (Expr::PolicyRetry(fs), Expr::PolicyRetry(fs2)) => fields_qualified(fs@, fs2@, sc),
        (Expr::Record(fs), Expr::Record(fs2)) => fields_qualified(fs@, fs2@, sc),
        (Expr::List(xs), Expr::List(ys)) => xs@.len() == ys@.len() && forall|k: int|
            0 <= k < xs@.len() ==> expr_qualified(#[trigger] xs@[k], ys@[k], sc),
        (Expr::Tuple(xs), Expr::Tuple(ys)) => xs@.len() == ys@.len() && forall|k: int|
            0 <= k < xs@.len() ==> expr_qualified(#[trigger] xs@[k], ys@[k], sc),
        (Expr::Lam { param, body }, Expr::Lam { param: p2, body: b2 }) => pattern_qualified(param, p2, sc)
            && expr_qualified(*body, *b2, sc),
        (Expr::App(f, x), Expr::App(g, y)) => expr_qualified(*f, *g, sc) && expr_qualified(*x, *y, sc),
        (Expr::Let { decls, body }, Expr::Let { decls: d2, body: b2 }) => {
            &&& decls@.len() == d2@.len()
            &&& forall|k: int| 0 <= k < decls@.len() ==> decl_qualified(#[trigger] decls@[k], d2@[k], sc)
            &&& expr_qualified(*body, *b2, sc)
        },
        (Expr::RecordUpdate { base, fields }, Expr::RecordUpdate { base: b2, fields: f2 }) => {
            &&& expr_qualified(*base, *b2, sc)
            &&& fields@.len() == f2@.len()
            &&& forall|k: int| 0 <= k < fields@.len() ==> f2@[k].0.0@ == (#[trigger] fields@[k]).0.0@ && f2@[k].0.1
                == fields@[k].0.1 && expr_qualified(fields@[k].1, f2@[k].1, sc)
        },
        (Expr::Field(x, f), Expr::Field(y, g)) => f@ == g@ && expr_qualified(*x, *y, sc),
        (Expr::Case { scrutinee, arms }, Expr::Case { scrutinee: s2, arms: a2 }) => {
            &&& expr_qualified(*scrutinee, *s2, sc)
            &&& arms@.len() == a2@.len()
            &&& forall|k: int| 0 <= k < arms@.len() ==> arm_qualified(#[trigger] arms@[k], a2@[k], sc)
        },
        (Expr::If { cond, then_, else_ }, Expr::If { cond: c2, then_: t2, else_: e2 }) => expr_qualified(
            *cond,
            *c2,
            sc,
        ) && expr_qualified(*then_, *t2, sc) && expr_qualified(*else_, *e2, sc),
        _ => false,
    }
}

/// Named fields, names kept and values qualified.
pub open spec fn fields_qualified(fs: Seq<(String, Spanned<Expr>)>, fs2: Seq<(String, Spanned<Expr>)>, sc: ConstructorScope) -> bool
    decreases fs,
{
    &&& fs.len() == fs2.len()
    &&& forall|k: int| 0 <= k < fs.len() ==> fs2[k].0@ == (#[trigger] fs[k]).0@ && expr_qualified(fs[k].1, fs2[k].1, sc)
}

/// A binding with its parameters and body qualified, the rest kept.
pub open spec fn decl_qualified(d: Decl, d2: Decl, sc: ConstructorScope) -> bool
    decreases d,
{
    &&& d2.name@ == d.name@
    &&& d2.span == d.span
    &&& match (d.sig, d2.sig) {
        (None, None) => true,
        (Some(t), Some(t2)) => tv(t2.0) == tv(t.0) && t2.1 == t.1,
        _ => false,
    }
    &&& d.params@.len() == d2.params@.len()
    &&& forall|j: int| 0 <= j < d.params@.len() ==> pattern_qualified(#[trigger] d.params@[j], d2.params@[j], sc)
    &&& expr_qualified(d.body, d2.body, sc)
}

/// An arm with its pattern and body qualified.
pub open spec fn arm_qualified(a: Arm, a2: Arm, sc: ConstructorScope) -> bool
    decreases a,
{
    pattern_qualified(a.pat, a2.pat, sc) && expr_qualified(a.body, a2.body, sc)
}


fn sp_copy(s: &Span) -> (r: Span)
    ensures
        r == *s,
{
    s.start..s.end
}

/// Rewrites the constructor names of an expression (and of the patterns in
/// it) to the identities they mean here; a name that cannot be resolved is
/// an error.
pub fn qualify_expr_constructors(expr: &Spanned<Expr>, scope: &ConstructorScope) -> (r: Result<Spanned<Expr>, Error>)
    requires
        scope.aliases.wf(),
        scope.modules_by_qualifier.wf(),
    ensures
        r is Ok <==> expr_resolves(*expr, *scope),
        r matches Ok(q) ==> expr_qualified(*expr, q, *scope),
    decreases expr,
{
    let span = sp_copy(&expr.1);
    match &expr.0 {
        Expr::Str(v) => Ok(Spanned(Expr::Str(copy_string(v)), span)),
        Expr::Int(v) => Ok(Spanned(Expr::Int(*v), span)),
        Expr::Float(v) => Ok(Spanned(Expr::Float(copy_string(v)), span)),
        Expr::Char(v) => Ok(Spanned(Expr::Char(*v), span)),
        Expr::Var(v) => Ok(Spanned(Expr::Var(copy_string(v)), span)),
        Expr::PolicyExhaust(t) => Ok(Spanned(Expr::PolicyExhaust(*t), span)),
        Expr::Ctor(name) => {
            let resolved = scope.resolve(name.as_str(), &expr.1)?;
            let name2 = match resolved {
                Some(identity) => identity,
                None => copy_string(name),
            };
            Ok(Spanned(Expr::Ctor(name2), span))
        },
        Expr::AptPackage(x) => {
            let y = qualify_expr_constructors(x, scope)?;
            Ok(Spanned(Expr::AptPackage(Box::new(y)), span))
        },
        Expr::SystemdService(x) => {
            let y = qualify_expr_constructors(x, scope)?;
            Ok(Spanned(Expr::SystemdService(Box::new(y)), span))
        },
        Expr::Filesystem { path, entry } => {
            let path2 = qualify_expr_constructors(path, scope)?;
            let entry2 = match entry {
                EntryExpr::File { contents, mode } => {
                    let c2 = qualify_expr_constructors(contents, scope)?;
                    let m2 = qualify_expr_constructors(mode, scope)?;
                    EntryExpr::File { contents: Box::new(c2), mode: Box::new(m2) }
                },
                EntryExpr::Directory { mode } => {
                    let m2 = qualify_expr_constructors(mode, scope)?;
                    EntryExpr::Directory { mode: Box::new(m2) }
                },
                EntryExpr::Symlink { target } => {
                    let t2 = qualify_expr_constructors(target, scope)?;
                    EntryExpr::Symlink { target: Box::new(t2) }
                },
            };
            Ok(Spanned(Expr::Filesystem { path: Box::new(path2), entry: entry2 }, span))
        },
        Expr::LineInFile { path, line } => {
            let p2 = qualify_expr_constructors(path, scope)?;
            let l2 = qualify_expr_constructors(line, scope)?;
            Ok(Spanned(Expr::LineInFile { path: Box::new(p2), line: Box::new(l2) }, span))
        },
        Expr::Scroll { name, policy, notifies, contents } => {
            let n2 = qualify_expr_constructors(name, scope)?;
            let po2 = match policy {
                Some(x) => Some(Box::new(qualify_expr_constructors(x, scope)?)),
                None => None,
            };
            let no2 = match notifies {
                Some(x) => Some(Box::new(qualify_expr_constructors(x, scope)?)),
                None => None,
            };
            let c2 = match contents {
                ContentsExpr::Glyphs(x) => ContentsExpr::Glyphs(Box::new(qualify_expr_constructors(x, scope)?)),
                ContentsExpr::Groups(x) => ContentsExpr::Groups(Box::new(qualify_expr_constructors(x, scope)?)),
            };
            Ok(Spanned(Expr::Scroll { name: Box::new(n2), policy: po2, notifies: no2, contents: c2 }, span))
        },
        Expr::PolicyRetry(fs) => {
            let fs2 = qualify_fields(fs, scope)?;
            Ok(Spanned(Expr::PolicyRetry(fs2), span))
        },
        Expr::Record(fs) => {
            let fs2 = qualify_fields(fs, scope)?;
            Ok(Spanned(Expr::Record(fs2), span))
        },
        Expr::List(xs) => {
            let ys = qualify_exprs(xs, scope)?;
            Ok(Spanned(Expr::List(ys), span))
        },
        Expr::Tuple(xs) => {
            let ys = qualify_exprs(xs, scope)?;
            Ok(Spanned(Expr::Tuple(ys), span))
        },
        Expr::Lam { param, body } => {
            let p2 = qualify_pattern_constructors(param, scope)?;
            let b2 = qualify_expr_constructors(body, scope)?;
            Ok(Spanned(Expr::Lam { param: p2, body: Box::new(b2) }, span))
        },
        Expr::App(f, x) => {
            let f2 = qualify_expr_constructors(f, scope)?;
            let x2 = qualify_expr_constructors(x, scope)?;
            Ok(Spanned(Expr::App(Box::new(f2), Box::new(x2)), span))
        },
        Expr::Let { decls, body } => {
            let d2 = qualify_decls(decls, scope)?;
            let b2 = qualify_expr_constructors(body, scope)?;
            Ok(Spanned(Expr::Let { decls: d2, body: Box::new(b2) }, span))
        },
        Expr::RecordUpdate { base, fields } => {
            let b2 = qualify_expr_constructors(base, scope)?;
            let f2 = qualify_updates(fields, scope)?;
            Ok(Spanned(Expr::RecordUpdate { base: Box::new(b2), fields: f2 }, span))
        },
        Expr::Field(x, f) => {
            let x2 = qualify_expr_constructors(x, scope)?;
            Ok(Spanned(Expr::Field(Box::new(x2), copy_string(f)), span))
        },
        Expr::Case { scrutinee, arms } => {
            let s2 = qualify_expr_constructors(scrutinee, scope)?;
            let a2 = qualify_arms(arms, scope)?;
            Ok(Spanned(Expr::Case { scrutinee: Box::new(s2), arms: a2 }, span))
        },
        Expr::If { cond, then_, else_ } => {
            let c2 = qualify_expr_constructors(cond, scope)?;
            let t2 = qualify_expr_constructors(then_, scope)?;
            let e2 = qualify_expr_constructors(else_, scope)?;
            Ok(Spanned(Expr::If { cond: Box::new(c2), then_: Box::new(t2), else_: Box::new(e2) }, span))
        },
    }
}

fn qualify_exprs(xs: &Vec<Spanned<Expr>>, scope: &ConstructorScope) -> (r: Result<Vec<Spanned<Expr>>, Error>)
    requires
        scope.aliases.wf(),
        scope.modules_by_qualifier.wf(),
    ensures
        r is Ok <==> forall|k: int| 0 <= k < xs@.len() ==> expr_resolves(#[trigger] xs@[k], *scope),
        r matches Ok(ys) ==> ys@.len() == xs@.len() && forall|k: int| 0 <= k < xs@.len() ==> expr_qualified(#[trigger] xs@[k], ys@[k], *scope),
    decreases xs,
{
    let mut out: Vec<Spanned<Expr>> = Vec::new();
    let mut i: usize = 0;
    while i < xs.len()
        invariant
            scope.aliases.wf(),
            scope.modules_by_qualifier.wf(),
            i <= xs@.len(),
            out@.len() == i,
            forall|k: int| 0 <= k < i ==> expr_resolves(#[trigger] xs@[k], *scope),
            forall|k: int| 0 <= k < i ==> expr_qualified(#[trigger] xs@[k], out@[k], *scope),
        decreases xs.len() - i,
    {
        proof {
            assert(decreases_to!(xs => xs[i as int]));
        }
        let q = qualify_expr_constructors(&xs[i], scope)?;
        out.push(q);
        i = i + 1;
    }
    Ok(out)
}

fn qualify_fields(fs: &Vec<(String, Spanned<Expr>)>, scope: &ConstructorScope) -> (r: Result<Vec<(String, Spanned<Expr>)>, Error>)
    requires
        scope.aliases.wf(),
        scope.modules_by_qualifier.wf(),
    ensures
        r is Ok <==> forall|k: int| 0 <= k < fs@.len() ==> expr_resolves(#[trigger] fs@[k].1, *scope),
        r matches Ok(fs2) ==> fields_qualified(fs@, fs2@, *scope),
    decreases fs,
{
    let mut out: Vec<(String, Spanned<Expr>)> = Vec::new();
    let mut i: usize = 0;
    while i < fs.len()
        invariant
            scope.aliases.wf(),
            scope.modules_by_qualifier.wf(),
            i <= fs@.len(),
            out@.len() == i,
            forall|k: int| 0 <= k < i ==> expr_resolves(#[trigger] fs@[k].1, *scope),
            forall|k: int| 0 <= k < i ==> out@[k].0@ == (#[trigger] fs@[k]).0@ && expr_qualified(fs@[k].1, out@[k].1, *scope),
        decreases fs.len() - i,
    {
        proof {
            assert(decreases_to!(fs => fs[i as int]));
            assert(decreases_to!(fs[i as int] => fs[i as int].1));
        }
        let q = qualify_expr_constructors(&fs[i].1, scope)?;
        out.push((copy_string(&fs[i].0), q));
        i = i + 1;
    }
    Ok(out)
}

fn qualify_updates(fs: &Vec<(Spanned<String>, Spanned<Expr>)>, scope: &ConstructorScope) -> (r: Result<
    Vec<(Spanned<String>, Spanned<Expr>)>,
    Error,
>)
    requires
        scope.aliases.wf(),
        scope.modules_by_qualifier.wf(),
    ensures
        r is Ok <==> forall|k: int| 0 <= k < fs@.len() ==> expr_resolves(#[trigger] fs@[k].1, *scope),
        r matches Ok(f2) ==> f2@.len() == fs@.len() && forall|k: int| 0 <= k < fs@.len() ==> f2@[k].0.0@ == (#[trigger] fs@[k]).0.0@
            && f2@[k].0.1 == fs@[k].0.1 && expr_qualified(fs@[k].1, f2@[k].1, *scope),
    decreases fs,
{
    let mut out: Vec<(Spanned<String>, Spanned<Expr>)> = Vec::new();
    let mut i: usize = 0;
    while i < fs.len()
        invariant
            scope.aliases.wf(),
            scope.modules_by_qualifier.wf(),
            i <= fs@.len(),
            out@.len() == i,
            forall|k: int| 0 <= k < i ==> expr_resolves(#[trigger] fs@[k].1, *scope),
            forall|k: int| 0 <= k < i ==> out@[k].0.0@ == (#[trigger] fs@[k]).0.0@ && out@[k].0.1 == fs@[k].0.1
                && expr_qualified(fs@[k].1, out@[k].1, *scope),
        decreases fs.len() - i,
    {
        proof {
            assert(decreases_to!(fs => fs[i as int]));
            assert(decreases_to!(fs[i as int] => fs[i as int].1));
        }
        let q = qualify_expr_constructors(&fs[i].1, scope)?;
        let name = Spanned(copy_string(&fs[i].0.0), sp_copy(&fs[i].0.1));
        out.push((name, q));
        i = i + 1;
    }
    Ok(out)
}

fn qualify_decls(ds: &Vec<Decl>, scope: &ConstructorScope) -> (r: Result<Vec<Decl>, Error>)
    requires
        scope.aliases.wf(),
        scope.modules_by_qualifier.wf(),
    ensures
        r is Ok <==> forall|k: int| 0 <= k < ds@.len() ==> decl_resolves(#[trigger] ds@[k], *scope),
        r matches Ok(d2) ==> d2@.len() == ds@.len() && forall|k: int| 0 <= k < ds@.len() ==> decl_qualified(#[trigger] ds@[k], d2@[k], *scope),
    decreases ds,
{
    let mut out: Vec<Decl> = Vec::new();
    let mut i: usize = 0;
    while i < ds.len()
        invariant
            scope.aliases.wf(),
            scope.modules_by_qualifier.wf(),
            i <= ds@.len(),
            out@.len() == i,
            forall|k: int| 0 <= k < i ==> decl_resolves(#[trigger] ds@[k], *scope),
            forall|k: int| 0 <= k < i ==> decl_qualified(#[trigger] ds@[k], out@[k], *scope),
        decreases ds.len() - i,
    {
        proof {
            assert(decreases_to!(ds => ds[i as int]));
            assert(decreases_to!(ds[i as int] => ds[i as int].body));
        }
        let d = &ds[i];
        let params = qualify_patterns(&d.params, scope)?;
        let body = qualify_expr_constructors(&d.body, scope)?;
        let sig = match &d.sig {
            Some(t) => Some(Spanned(t.0.duplicate(), sp_copy(&t.1))),
            None => None,
        };
        out.push(Decl { name: copy_string(&d.name), sig, params, body, span: sp_copy(&d.span) });
        i = i + 1;
    }
    Ok(out)
}

fn qualify_arms(arms: &Vec<Arm>, scope: &ConstructorScope) -> (r: Result<Vec<Arm>, Error>)
    requires
        scope.aliases.wf(),
        scope.modules_by_qualifier.wf(),
    ensures
        r is Ok <==> forall|k: int| 0 <= k < arms@.len() ==> arm_resolves(#[trigger] arms@[k], *scope),
        r matches Ok(a2) ==> a2@.len() == arms@.len() && forall|k: int| 0 <= k < arms@.len() ==> arm_qualified(#[trigger] arms@[k], a2@[k], *scope),
    decreases arms,
{
    let mut out: Vec<Arm> = Vec::new();
    let mut i: usize = 0;
    while i < arms.len()
        invariant
            scope.aliases.wf(),
            scope.modules_by_qualifier.wf(),
            i <= arms@.len(),
            out@.len() == i,
            forall|k: int| 0 <= k < i ==> arm_resolves(#[trigger] arms@[k], *scope),
            forall|k: int| 0 <= k < i ==> arm_qualified(#[trigger] arms@[k], out@[k], *scope),
        decreases arms.len() - i,
    {
        proof {
            assert(decreases_to!(arms => arms[i as int]));
            assert(decreases_to!(arms[i as int] => arms[i as int].body));
        }
        let a = &arms[i];
        let pat = qualify_pattern_constructors(&a.pat, scope)?;
        let body = qualify_expr_constructors(&a.body, scope)?;
        out.push(Arm { pat, body });
        i = i + 1;
    }
    Ok(out)
}

} // verus!
