//! The parts of parsing that are decisions rather than grammar: building the
//! reserved constructors (`file { … }`, `scroll { … }`, …) from their fields,
//! pairing signatures with bindings, and rejecting names bound twice.
use vstd::prelude::*;
use crate::ast::{ContentsExpr, Decl, EntryExpr, Expr, Pattern, Span, Spanned, Type};
use crate::names::lemma_seq_lt_irrefl;
use crate::text::{push_str, seq_lt, str_eq};

verus! {

/// A parse failure: a message and the source span to underline.
pub struct ParseError {
    pub msg: String,
    pub span: Span,
}

impl ParseError {
    /// The pipeline's error for this parse failure: phase `Parse`, no note,
    /// in the entry file.
    pub fn into_error(self) -> (r: crate::Error)
        ensures
            r.phase == crate::Phase::Parse,
            r.msg == self.msg,
            r.span == self.span,
            r.note is None,
            r.file is None,
    {
        crate::Error { phase: crate::Phase::Parse, msg: self.msg, span: self.span, note: None, file: None }
    }
}

/// The lowercase words reserved as glyph, scroll and policy constructors.
pub open spec fn reserved_spec(c: Seq<char>) -> bool {
    ||| c == "aptPackage"@
    ||| c == "systemdService"@
    ||| c == "file"@
    ||| c == "directory"@
    ||| c == "symlink"@
    ||| c == "lineInFile"@
    ||| c == "scroll"@
    ||| c == "rollback"@
    ||| c == "keep"@
    ||| c == "retry"@
}

/// Whether a lowercase word is reserved as a constructor, so that it cannot
/// name a variable or a binding.
pub fn is_reserved_constructor(name: &str) -> (r: bool)
    ensures
        r == reserved_spec(name@),
{
    str_eq(name, "aptPackage") || str_eq(name, "systemdService") || str_eq(name, "file") || str_eq(
        name,
        "directory",
    ) || str_eq(name, "symlink") || str_eq(name, "lineInFile") || str_eq(name, "scroll") || str_eq(
        name,
        "rollback",
    ) || str_eq(name, "keep") || str_eq(name, "retry")
}

/// Accepts `name` as the name a declaration binds, unless it is a reserved
/// constructor word: such a name could never be used, since every later
/// mention reads as the constructor.
pub fn check_binding_name(name: &str, span: &Span) -> (r: Result<(), ParseError>)
    ensures
        !reserved_spec(name@) ==> r is Ok,
        reserved_spec(name@) ==> (r matches Err(e) && e.span == *span && e.msg@ == "`"@ + name@
            + "` is a reserved word and can't be used as a name to bind"@),
{
    if is_reserved_constructor(name) {
        let mut msg = String::new();
        push_str(&mut msg, "`");
        push_str(&mut msg, name);
        push_str(&mut msg, "` is a reserved word and can't be used as a name to bind");
        Err(ParseError { msg, span: span.start..span.end })
    } else {
        Ok(())
    }
}

/// The name of field `i` of a constructor's field list.
pub open spec fn key_of(fs: Seq<(String, Spanned<Expr>)>, i: int) -> Seq<char> {
    fs[i].0@
}

/// Field names strictly increase, as in a map ordered by name.
pub open spec fn sorted_keys(fs: Seq<(String, Spanned<Expr>)>) -> bool {
    forall|i: int, j: int| 0 <= i < j < fs.len() ==> seq_lt(#[trigger] key_of(fs, i), #[trigger] key_of(fs, j))
}

/// Whether the field list has field `k`.
pub open spec fn has_field(fs: Seq<(String, Spanned<Expr>)>, k: Seq<char>) -> bool {
    exists|i: int| 0 <= i < fs.len() && #[trigger] key_of(fs, i) == k
}

/// The value of field `k`.
pub open spec fn field_value(fs: Seq<(String, Spanned<Expr>)>, k: Seq<char>) -> Spanned<Expr> {
    fs[choose|i: int| 0 <= i < fs.len() && #[trigger] key_of(fs, i) == k].1
}

proof fn lemma_key_unique(fs: Seq<(String, Spanned<Expr>)>, i: int, j: int)
    requires
        sorted_keys(fs),
        0 <= i < fs.len(),
        0 <= j < fs.len(),
        key_of(fs, i) == key_of(fs, j),
    ensures
        i == j,
{
    lemma_seq_lt_irrefl(key_of(fs, i));
    if i < j {
        assert(seq_lt(key_of(fs, i), key_of(fs, j)));
    } else if j < i {
        assert(seq_lt(key_of(fs, j), key_of(fs, i)));
    }
}

proof fn lemma_field_value(fs: Seq<(String, Spanned<Expr>)>, i: int)
    requires
        sorted_keys(fs),
        0 <= i < fs.len(),
    ensures
        has_field(fs, key_of(fs, i)),
        field_value(fs, key_of(fs, i)) == fs[i].1,
{
    let k = key_of(fs, i);
    assert(has_field(fs, k));
    let c = choose|x: int| 0 <= x < fs.len() && #[trigger] key_of(fs, x) == k;
    lemma_key_unique(fs, c, i);
}

/// The fields a constructor must have, in the order it asks for them.
pub open spec fn required(c: Seq<char>) -> Seq<Seq<char>> {
    if c == "aptPackage"@ {
        seq!["name"@]
    } else if c == "systemdService"@ {
        seq!["unit"@]
    } else if c == "file"@ {
        seq!["path"@, "contents"@, "mode"@]
    } else if c == "directory"@ {
        seq!["path"@, "mode"@]
    } else if c == "symlink"@ {
        seq!["path"@, "target"@]
    } else if c == "lineInFile"@ {
        seq!["path"@, "line"@]
    } else if c == "scroll"@ {
        seq!["name"@]
    } else {
        seq![]
    }
}

/// The fields a constructor accepts.
pub open spec fn allowed(c: Seq<char>) -> Seq<Seq<char>> {
    if c == "scroll"@ {
        seq!["name"@, "policy"@, "notifies"@, "glyphs"@, "groups"@]
    } else {
        required(c)
    }
}

/// The first required field that is missing.
pub open spec fn first_missing(fs: Seq<(String, Spanned<Expr>)>, req: Seq<Seq<char>>) -> Option<Seq<char>>
    decreases req.len(),
{
    if req.len() == 0 {
        None
    } else if !has_field(fs, req[0]) {
        Some(req[0])
    } else {
        first_missing(fs, req.skip(1))
    }
}

/// The first field, from index `i` on, that the constructor does not accept.
pub open spec fn unknown_from(fs: Seq<(String, Spanned<Expr>)>, ok: Seq<Seq<char>>, i: int) -> Option<Seq<char>>
    decreases fs.len() - i,
{
    if i < 0 || i >= fs.len() {
        None
    } else if !ok.contains(key_of(fs, i)) {
        Some(key_of(fs, i))
    } else {
        unknown_from(fs, ok, i + 1)
    }
}

/// Why a constructor cannot be built from these fields, if it cannot.
pub open spec fn ctor_error(c: Seq<char>, fs: Seq<(String, Spanned<Expr>)>) -> Option<Seq<char>> {
    if c == "rollback"@ || c == "keep"@ {
        Some("`"@ + c + "` is written without braces (e.g. `policy = "@ + c + "`)"@)
    } else if c == "retry"@ {
        None
    } else if first_missing(fs, required(c)) is Some {
        Some("`"@ + c + "` requires a `"@ + first_missing(fs, required(c))->0 + "` field"@)
    } else if c == "scroll"@ && has_field(fs, "glyphs"@) && has_field(fs, "groups"@) {
        Some("`scroll` has both `glyphs` and `groups`, but needs exactly one of `glyphs` or `groups`"@)
    } else if c == "scroll"@ && !has_field(fs, "glyphs"@) && !has_field(fs, "groups"@) {
        Some("`scroll` needs exactly one of `glyphs` or `groups`"@)
    } else if unknown_from(fs, allowed(c), 0) is Some {
        Some("unknown "@ + c + " field `"@ + unknown_from(fs, allowed(c), 0)->0 + "`"@)
    } else {
        None
    }
}

/// A field's value, boxed.
pub open spec fn boxed(fs: Seq<(String, Spanned<Expr>)>, k: Seq<char>) -> Box<Spanned<Expr>> {
    Box::new(field_value(fs, k))
}

/// A field's value, boxed, if the field is there.
pub open spec fn boxed_opt(fs: Seq<(String, Spanned<Expr>)>, k: Seq<char>) -> Option<Box<Spanned<Expr>>> {
    if has_field(fs, k) {
        Some(boxed(fs, k))
    } else {
        None
    }
}

/// The expression a constructor builds from its fields, when it can.
pub open spec fn ctor_expr(c: Seq<char>, fields: Vec<(String, Spanned<Expr>)>) -> Expr {
    let fs = fields@;
    if c == "aptPackage"@ {
        Expr::AptPackage(boxed(fs, "name"@))
    } else if c == "systemdService"@ {
        Expr::SystemdService(boxed(fs, "unit"@))
    } else if c == "file"@ {
        Expr::Filesystem {
            path: boxed(fs, "path"@),
            entry: EntryExpr::File { contents: boxed(fs, "contents"@), mode: boxed(fs, "mode"@) },
        }
    } else if c == "directory"@ {
        Expr::Filesystem { path: boxed(fs, "path"@), entry: EntryExpr::Directory { mode: boxed(fs, "mode"@) } }
    } else if c == "symlink"@ {
        Expr::Filesystem { path: boxed(fs, "path"@), entry: EntryExpr::Symlink { target: boxed(fs, "target"@) } }
    } else if c == "lineInFile"@ {
        Expr::LineInFile { path: boxed(fs, "path"@), line: boxed(fs, "line"@) }
    } else if c == "scroll"@ {
        Expr::Scroll {
            name: boxed(fs, "name"@),
            policy: boxed_opt(fs, "policy"@),
            notifies: boxed_opt(fs, "notifies"@),
            contents: if has_field(fs, "glyphs"@) {
                ContentsExpr::Glyphs(boxed(fs, "glyphs"@))
            } else {
                ContentsExpr::Groups(boxed(fs, "groups"@))
            },
        }
    } else {
        Expr::PolicyRetry(fields)
    }
}

/// Whether the field list has a field named `k`.
fn find_field(fields: &Vec<(String, Spanned<Expr>)>, k: &str) -> (r: bool)
    ensures
        r == has_field(fields@, k@),
{
    let mut i: usize = 0;
    while i < fields.len()
        invariant
            i <= fields.len(),
            forall|j: int| 0 <= j < i ==> key_of(fields@, j) != k@,
        decreases fields.len() - i,
    {
        if str_eq(fields[i].0.as_str(), k) {
            proof {
                assert(key_of(fields@, i as int) == k@);
            }
            return true;
        }
        i = i + 1;
    }
    false
}

/// Where `k` stands in `keys`, if it does.
fn key_position(keys: &Vec<&str>, k: &str) -> (r: Option<usize>)
    ensures
        r matches Some(m) ==> m < keys.len() && keys@[m as int]@ == k@,
        r is None ==> forall|x: int| 0 <= x < keys.len() ==> (#[trigger] keys@[x])@ != k@,
{
    let mut m: usize = 0;
    while m < keys.len()
        invariant
            m <= keys.len(),
            forall|x: int| 0 <= x < m ==> (#[trigger] keys@[x])@ != k@,
        decreases keys.len() - m,
    {
        if str_eq(keys[m], k) {
            return Some(m);
        }
        m = m + 1;
    }
    None
}

/// The field value for each of `keys`, where the field is present.
fn take_fields(fields: Vec<(String, Spanned<Expr>)>, keys: &Vec<&str>) -> (r: Vec<Option<Spanned<Expr>>>)
    requires
        sorted_keys(fields@),
        forall|a: int, b: int| 0 <= a < b < keys.len() ==> (#[trigger] keys@[a])@ != (#[trigger] keys@[b])@,
    ensures
        r.len() == keys.len(),
        forall|j: int| 0 <= j < keys.len() ==> #[trigger] r@[j] == (if has_field(fields@, keys@[j]@) {
            Some(field_value(fields@, keys@[j]@))
        } else {
            None
        }),
{
    let ghost fs = fields@;
    let mut out: Vec<Option<Spanned<Expr>>> = Vec::new();
    let mut j: usize = 0;
    while j < keys.len()
        invariant
            j <= keys.len(),
            out.len() == j,
            forall|m: int| 0 <= m < j ==> #[trigger] out@[m] is None,
        decreases keys.len() - j,
    {
        out.push(None);
        j = j + 1;
    }
    let mut rest = fields;
    proof {
        assert forall|m: int| 0 <= m < keys.len() implies !has_field(
            fs.subrange(fs.len() as int, fs.len() as int),
            #[trigger] keys@[m]@,
        ) by {}
    }
    while rest.len() > 0
        invariant
            sorted_keys(fs),
            forall|a: int, b: int| 0 <= a < b < keys.len() ==> (#[trigger] keys@[a])@ != (#[trigger] keys@[b])@,
            rest@.len() <= fs.len(),
            rest@ == fs.subrange(0, rest@.len() as int),
            out.len() == keys.len(),
            forall|m: int| 0 <= m < keys.len() ==> #[trigger] out@[m] == (if has_field(
                fs.subrange(rest@.len() as int, fs.len() as int),
                keys@[m]@,
            ) {
                Some(field_value(fs, keys@[m]@))
            } else {
                None
            }),
        decreases rest.len(),
    {
        let ghost n = rest@.len() - 1;
        let ghost before = out@;
        let (k, v) = rest.pop().unwrap();
        let ghost suf = fs.subrange(n + 1, fs.len() as int);
        let ghost suf2 = fs.subrange(n, fs.len() as int);
        proof {
            assert(k == fs[n].0 && v == fs[n].1);
            lemma_field_value(fs, n);
            assert forall|key: Seq<char>| has_field(suf2, key) <==> (has_field(suf, key) || key == k@) by {
                if has_field(suf2, key) {
                    let x = choose|x: int| 0 <= x < suf2.len() && #[trigger] key_of(suf2, x) == key;
                    if x > 0 {
                        assert(key_of(suf, x - 1) == key);
                    } else {
                        assert(key_of(fs, n) == key);
                    }
                }
                if has_field(suf, key) {
                    let x = choose|x: int| 0 <= x < suf.len() && #[trigger] key_of(suf, x) == key;
                    assert(key_of(suf2, x + 1) == key);
                }
                if key == k@ {
                    assert(key_of(suf2, 0) == key);
                }
            }
        }
        match key_position(keys, k.as_str()) {
            Some(m) => {
                out.set(m, Some(v));
                proof {
                    assert forall|x: int| 0 <= x < keys.len() implies #[trigger] out@[x] == (if has_field(
                        suf2,
                        keys@[x]@,
                    ) {
                        Some(field_value(fs, keys@[x]@))
                    } else {
                        None
                    }) by {
                        if x != m {
                            assert(keys@[x]@ != keys@[m as int]@);
                            assert(out@[x] == before[x]);
                        }
                    }
                }
            },
            None => {
                proof {
                    assert forall|x: int| 0 <= x < keys.len() implies #[trigger] out@[x] == (if has_field(
                        suf2,
                        keys@[x]@,
                    ) {
                        Some(field_value(fs, keys@[x]@))
                    } else {
                        None
                    }) by {
                        assert(keys@[x]@ != k@);
                    }
                }
            },
        }
        proof {
            assert(rest@.len() == n);
        }
    }
    proof {
        assert(fs.subrange(0, fs.len() as int) =~= fs);
    }
    out
}

/// The spellings of the reserved words and field names, enough to tell any
/// two apart.
proof fn lemma_words()
    ensures
        "aptPackage"@.len() == 10,
        "aptPackage"@[0] == 'a',
        "aptPackage"@[1] == 'p',
        "systemdService"@.len() == 14,
        "systemdService"@[0] == 's',
        "systemdService"@[1] == 'y',
        "file"@.len() == 4,
        "file"@[0] == 'f',
        "file"@[1] == 'i',
        "directory"@.len() == 9,
        "directory"@[0] == 'd',
        "directory"@[1] == 'i',
        "symlink"@.len() == 7,
        "symlink"@[0] == 's',
        "symlink"@[1] == 'y',
        "lineInFile"@.len() == 10,
        "lineInFile"@[0] == 'l',
        "lineInFile"@[1] == 'i',
        "scroll"@.len() == 6,
        "scroll"@[0] == 's',
        "scroll"@[1] == 'c',
        "rollback"@.len() == 8,
        "rollback"@[0] == 'r',
        "rollback"@[1] == 'o',
        "keep"@.len() == 4,
        "keep"@[0] == 'k',
        "keep"@[1] == 'e',
        "retry"@.len() == 5,
        "retry"@[0] == 'r',
        "retry"@[1] == 'e',
        "name"@.len() == 4,
        "name"@[0] == 'n',
        "name"@[1] == 'a',
        "unit"@.len() == 4,
        "unit"@[0] == 'u',
        "unit"@[1] == 'n',
        "path"@.len() == 4,
        "path"@[0] == 'p',
        "path"@[1] == 'a',
        "contents"@.len() == 8,
        "contents"@[0] == 'c',
        "contents"@[1] == 'o',
        "mode"@.len() == 4,
        "mode"@[0] == 'm',
        "mode"@[1] == 'o',
        "target"@.len() == 6,
        "target"@[0] == 't',
        "target"@[1] == 'a',
        "line"@.len() == 4,
        "line"@[0] == 'l',
        "line"@[1] == 'i',
        "policy"@.len() == 6,
        "policy"@[0] == 'p',
        "policy"@[1] == 'o',
        "notifies"@.len() == 8,
        "notifies"@[0] == 'n',
        "notifies"@[1] == 'o',
        "glyphs"@.len() == 6,
        "glyphs"@[0] == 'g',
        "glyphs"@[1] == 'l',
        "groups"@.len() == 6,
        "groups"@[0] == 'g',
        "groups"@[1] == 'r',
{
    reveal_strlit("aptPackage");
    reveal_strlit("systemdService");
    reveal_strlit("file");
    reveal_strlit("directory");
    reveal_strlit("symlink");
    reveal_strlit("lineInFile");
    reveal_strlit("scroll");
    reveal_strlit("rollback");
    reveal_strlit("keep");
    reveal_strlit("retry");
    reveal_strlit("name");
    reveal_strlit("unit");
    reveal_strlit("path");
    reveal_strlit("contents");
    reveal_strlit("mode");
    reveal_strlit("target");
    reveal_strlit("line");
    reveal_strlit("policy");
    reveal_strlit("notifies");
    reveal_strlit("glyphs");
    reveal_strlit("groups");
}

/// The fields a constructor accepts, as a list.
fn allowed_list(ctor: &str) -> (r: Vec<&'static str>)
    requires
        reserved_spec(ctor@),
        !(ctor@ == "rollback"@ || ctor@ == "keep"@ || ctor@ == "retry"@),
    ensures
        r@.len() == allowed(ctor@).len(),
        forall|i: int| 0 <= i < r@.len() ==> (#[trigger] r@[i])@ == allowed(ctor@)[i],
        forall|a: int, b: int| 0 <= a < b < r@.len() ==> (#[trigger] r@[a])@ != (#[trigger] r@[b])@,
{
    proof {
        lemma_words();
    }
    let mut r: Vec<&'static str> = Vec::new();
    if str_eq(ctor, "aptPackage") {
        r.push("name");
    } else if str_eq(ctor, "systemdService") {
        r.push("unit");
    } else if str_eq(ctor, "file") {
        r.push("path");
        r.push("contents");
        r.push("mode");
    } else if str_eq(ctor, "directory") {
        r.push("path");
        r.push("mode");
    } else if str_eq(ctor, "symlink") {
        r.push("path");
        r.push("target");
    } else if str_eq(ctor, "lineInFile") {
        r.push("path");
        r.push("line");
    } else {
        r.push("name");
        r.push("policy");
        r.push("notifies");
        r.push("glyphs");
        r.push("groups");
    }
    r
}

fn error_at(msg: String, span: Span) -> (r: ParseError)
    ensures
        r.msg == msg,
        r.span == span,
{
    ParseError { msg, span }
}

/// The field value from a list built by `take_fields`, taken from its end.
fn pop_value(vals: &mut Vec<Option<Spanned<Expr>>>) -> (r: Spanned<Expr>)
    requires
        old(vals).len() > 0,
        old(vals)@.last() is Some,
    ensures
        final(vals)@ == old(vals)@.drop_last(),
        r == old(vals)@.last()->0,
{
    vals.pop().unwrap().unwrap()
}

/// Builds a reserved constructor written `ctor { field = …, … }` from its
/// fields (listed by name, each once): each constructor takes exactly its own
/// fields, a `scroll` exactly one of `glyphs` and `groups`, and `retry` all of
/// them. Missing and unknown fields, and braces after `rollback` or `keep`,
/// are errors at `span`.
pub fn build_constructor(ctor: &str, fields: Vec<(String, Spanned<Expr>)>, span: Span) -> (r: Result<Expr, ParseError>)
    requires
        reserved_spec(ctor@),
        sorted_keys(fields@),
    ensures
        ctor_error(ctor@, fields@) matches Some(m) ==> (r is Err && r->Err_0.msg@ == m && r->Err_0.span == span),
        ctor_error(ctor@, fields@) is None ==> r == Ok::<Expr, ParseError>(ctor_expr(ctor@, fields)),
{
    proof {
        lemma_words();
    }
    if str_eq(ctor, "rollback") || str_eq(ctor, "keep") {
        let mut msg = String::new();
        push_str(&mut msg, "`");
        push_str(&mut msg, ctor);
        push_str(&mut msg, "` is written without braces (e.g. `policy = ");
        push_str(&mut msg, ctor);
        push_str(&mut msg, "`)");
        return Err(error_at(msg, span));
    }
    if str_eq(ctor, "retry") {
        return Ok(Expr::PolicyRetry(fields));
    }
    let keys = allowed_list(ctor);
    let is_scroll = str_eq(ctor, "scroll");
    let n_required: usize = if is_scroll { 1 } else { keys.len() };
    let ghost req = required(ctor@);
    proof {
        assert(req =~= allowed(ctor@).subrange(0, n_required as int));
        assert(req.skip(0) =~= req);
    }
    let mut i: usize = 0;
    while i < n_required
        invariant
            n_required <= keys.len(),
            req.len() == n_required,
            forall|x: int| 0 <= x < n_required ==> (#[trigger] keys@[x])@ == req[x],
            i <= n_required,
            first_missing(fields@, req) == first_missing(fields@, req.skip(i as int)),
            forall|x: int| 0 <= x < i ==> has_field(fields@, #[trigger] req[x]),
            req == required(ctor@),
            reserved_spec(ctor@),
            !(ctor@ == "rollback"@ || ctor@ == "keep"@ || ctor@ == "retry"@),
            is_scroll == (ctor@ == "scroll"@),
        decreases n_required - i,
    {
        proof {
            lemma_words();
            assert(req.skip(i as int)[0] == req[i as int]);
            assert(req.skip(i as int).skip(1) =~= req.skip(i + 1));
        }
        if !find_field(&fields, keys[i]) {
            let mut msg = String::new();
            push_str(&mut msg, "`");
            push_str(&mut msg, ctor);
            push_str(&mut msg, "` requires a `");
            push_str(&mut msg, keys[i]);
            push_str(&mut msg, "` field");
            return Err(error_at(msg, span));
        }
        i = i + 1;
    }
    proof {
        assert(req.skip(i as int).len() == 0);
    }
    if is_scroll {
        let has_glyphs = find_field(&fields, "glyphs");
        let has_groups = find_field(&fields, "groups");
        if has_glyphs && has_groups {
            let mut msg = String::new();
            push_str(
                &mut msg,
                "`scroll` has both `glyphs` and `groups`, but needs exactly one of `glyphs` or `groups`",
            );
            return Err(error_at(msg, span));
        }
        if !has_glyphs && !has_groups {
            let mut msg = String::new();
            push_str(&mut msg, "`scroll` needs exactly one of `glyphs` or `groups`");
            return Err(error_at(msg, span));
        }
    }
    let mut j: usize = 0;
    while j < fields.len()
        invariant
            j <= fields.len(),
            keys@.len() == allowed(ctor@).len(),
            forall|x: int| 0 <= x < keys@.len() ==> (#[trigger] keys@[x])@ == allowed(ctor@)[x],
            unknown_from(fields@, allowed(ctor@), 0) == unknown_from(fields@, allowed(ctor@), j as int),
            first_missing(fields@, required(ctor@)) is None,
            forall|x: int| 0 <= x < required(ctor@).len() ==> has_field(fields@, #[trigger] required(ctor@)[x]),
            reserved_spec(ctor@),
            !(ctor@ == "rollback"@ || ctor@ == "keep"@ || ctor@ == "retry"@),
            ctor@ == "scroll"@ ==> (has_field(fields@, "glyphs"@) != has_field(fields@, "groups"@)),
        decreases fields.len() - j,
    {
        proof {
            lemma_words();
        }
        match key_position(&keys, fields[j].0.as_str()) {
            None => {
                proof {
                    assert(!allowed(ctor@).contains(key_of(fields@, j as int))) by {
                        if allowed(ctor@).contains(key_of(fields@, j as int)) {
                            let x = choose|x: int| 0 <= x < allowed(ctor@).len() && allowed(ctor@)[x] == key_of(fields@, j as int);
                            assert(keys@[x]@ == allowed(ctor@)[x]);
                        }
                    }
                }
                let mut msg = String::new();
                push_str(&mut msg, "unknown ");
                push_str(&mut msg, ctor);
                push_str(&mut msg, " field `");
                push_str(&mut msg, fields[j].0.as_str());
                push_str(&mut msg, "`");
                return Err(error_at(msg, span));
            },
            Some(m) => {
                proof {
                    assert(allowed(ctor@).contains(key_of(fields@, j as int))) by {
                        assert(allowed(ctor@)[m as int] == key_of(fields@, j as int));
                    }
                }
            },
        }
        j = j + 1;
    }
    let ghost fs = fields@;
    let mut vals = take_fields(fields, &keys);
    proof {
        assert(ctor_error(ctor@, fs) is None);
    }
    if str_eq(ctor, "aptPackage") {
        let name = pop_value(&mut vals);
        Ok(Expr::AptPackage(Box::new(name)))
    } else if str_eq(ctor, "systemdService") {
        let unit = pop_value(&mut vals);
        Ok(Expr::SystemdService(Box::new(unit)))
    } else if str_eq(ctor, "file") {
        let mode = pop_value(&mut vals);
        let contents = pop_value(&mut vals);
        let path = pop_value(&mut vals);
        Ok(
            Expr::Filesystem {
                path: Box::new(path),
                entry: EntryExpr::File { contents: Box::new(contents), mode: Box::new(mode) },
            },
        )
    } else if str_eq(ctor, "directory") {
        let mode = pop_value(&mut vals);
        let path = pop_value(&mut vals);
        Ok(Expr::Filesystem { path: Box::new(path), entry: EntryExpr::Directory { mode: Box::new(mode) } })
    } else if str_eq(ctor, "symlink") {
        let target = pop_value(&mut vals);
        let path = pop_value(&mut vals);
        Ok(
            Expr::Filesystem {
                path: Box::new(path),
                entry: EntryExpr::Symlink { target: Box::new(target) },
            },
        )
    } else if str_eq(ctor, "lineInFile") {
        let line = pop_value(&mut vals);
        let path = pop_value(&mut vals);
        Ok(Expr::LineInFile { path: Box::new(path), line: Box::new(line) })
    } else {
        let groups = vals.pop().unwrap();
        let glyphs = vals.pop().unwrap();
        let notifies = vals.pop().unwrap();
        let policy = vals.pop().unwrap();
        let name = pop_value(&mut vals);
        let contents = match glyphs {
            Some(g) => ContentsExpr::Glyphs(Box::new(g)),
            None => ContentsExpr::Groups(Box::new(groups.unwrap())),
        };
        let policy = match policy {
            Some(p) => Some(Box::new(p)),
            None => None,
        };
        let notifies = match notifies {
            Some(x) => Some(Box::new(x)),
            None => None,
        };
        Ok(Expr::Scroll { name: Box::new(name), policy, notifies, contents })
    }
}

/// One item of a declaration block, before signatures are paired with the
/// bindings they describe.
pub enum DeclItem {
    Sig { name: String, ty: Spanned<Type>, span: Span },
    Bind { name: String, params: Vec<Spanned<Pattern>>, body: Spanned<Expr>, span: Span },
}

/// A signature waiting for its binding: name, type and span.
pub type PendingSig = Option<(String, Spanned<Type>, Span)>;

/// `r` with `d` in front of its declarations, if it is a success.
pub open spec fn cons_decl(d: Decl, r: Result<Seq<Decl>, (Seq<char>, Span)>) -> Result<Seq<Decl>, (Seq<char>, Span)> {
    match r {
        Ok(ds) => Ok(seq![d] + ds),
        Err(e) => Err(e),
    }
}

/// `prefix` followed by the declarations of `r`, if it is a success.
pub open spec fn after(prefix: Seq<Decl>, r: Result<Seq<Decl>, (Seq<char>, Span)>) -> Result<Seq<Decl>, (Seq<char>, Span)> {
    match r {
        Ok(ds) => Ok(prefix + ds),
        Err(e) => Err(e),
    }
}

/// Pairing from item `i` on, with `pending` the signature read just before:
/// a signature must be followed by the binding of the same name, and every
/// binding becomes a declaration carrying the signature it had, if any.
pub open spec fn pair_from(items: Seq<DeclItem>, i: int, pending: PendingSig) -> Result<Seq<Decl>, (Seq<char>, Span)>
    decreases items.len() - i,
{
    if i < 0 || i >= items.len() {
        match pending {
            Some((n, _, sp)) => Err(("signature for `"@ + n@ + "` has no accompanying binding"@, sp)),
            None => Ok(Seq::empty()),
        }
    } else {
        match items[i] {
            DeclItem::Sig { name, ty, span } => match pending {
                Some((prev, _, _)) => Err(
                    ("signature for `"@ + name@ + "` follows an unused signature for `"@ + prev@ + "`"@, span),
                ),
                None => pair_from(items, i + 1, Some((name, ty, span))),
            },
            DeclItem::Bind { name, params, body, span } => match pending {
                Some((sn, ty, ssp)) => if sn@ == name@ {
                    cons_decl(Decl { name, sig: Some(ty), params, body, span }, pair_from(items, i + 1, None))
                } else {
                    Err(("signature names `"@ + sn@ + "` but next binding is `"@ + name@ + "`"@, ssp))
                },
                None => cons_decl(Decl { name, sig: None, params, body, span }, pair_from(items, i + 1, None)),
            },
        }
    }
}

proof fn lemma_after_cons(prefix: Seq<Decl>, d: Decl, r: Result<Seq<Decl>, (Seq<char>, Span)>)
    ensures
        after(prefix, cons_decl(d, r)) == after(prefix.push(d), r),
{
    match r {
        Ok(ds) => {
            assert(prefix + (seq![d] + ds) =~= prefix.push(d) + ds);
        },
        Err(_) => {},
    }
}

/// Pairs each signature with the binding that follows it, turning the items
/// of a block into declarations. A signature followed by another signature, by
/// a binding of another name, or by nothing, is an error.
pub fn fold_decls(items: Vec<DeclItem>) -> (r: Result<Vec<Decl>, ParseError>)
    ensures
        r is Ok <==> pair_from(items@, 0, None) is Ok,
        r is Ok ==> r->Ok_0@ == pair_from(items@, 0, None)->Ok_0,
        r is Err ==> r->Err_0.msg@ == pair_from(items@, 0, None)->Err_0.0 && r->Err_0.span == pair_from(items@, 0, None)->Err_0.1,
{
    let ghost all = items@;
    let mut src = items;
    let mut rev: Vec<DeclItem> = Vec::new();
    while src.len() > 0
        invariant
            src@.len() <= all.len(),
            src@ == all.subrange(0, src@.len() as int),
            rev@ == all.subrange(src@.len() as int, all.len() as int).reverse(),
        decreases src.len(),
    {
        let it = src.pop().unwrap();
        rev.push(it);
        proof {
            assert(rev@ =~= all.subrange(src@.len() as int, all.len() as int).reverse());
        }
    }
    proof {
        assert(all.subrange(0, all.len() as int) =~= all);
    }
    let mut pending: PendingSig = None;
    let mut out: Vec<Decl> = Vec::new();
    while rev.len() > 0
        invariant
            all == items@,
            rev@.len() <= all.len(),
            rev@ == all.subrange(all.len() - rev@.len(), all.len() as int).reverse(),
            pair_from(all, 0, None) == after(out@, pair_from(all, all.len() - rev@.len(), pending)),
        decreases rev.len(),
    {
        let ghost i = all.len() - rev@.len();
        let item = rev.pop().unwrap();
        proof {
            assert(item == all[i]);
        }
        match item {
            DeclItem::Sig { name, ty, span } => {
                match pending {
                    Some((prev, _, _)) => {
                        let mut msg = String::new();
                        push_str(&mut msg, "signature for `");
                        push_str(&mut msg, name.as_str());
                        push_str(&mut msg, "` follows an unused signature for `");
                        push_str(&mut msg, prev.as_str());
                        push_str(&mut msg, "`");
                        return Err(ParseError { msg, span });
                    },
                    None => {
                        pending = Some((name, ty, span));
                    },
                }
            },
            DeclItem::Bind { name, params, body, span } => {
                let sig = match pending {
                    Some((signame, ty, sig_span)) => {
                        if str_eq(signame.as_str(), name.as_str()) {
                            Some(ty)
                        } else {
                            let mut msg = String::new();
                            push_str(&mut msg, "signature names `");
                            push_str(&mut msg, signame.as_str());
                            push_str(&mut msg, "` but next binding is `");
                            push_str(&mut msg, name.as_str());
                            push_str(&mut msg, "`");
                            return Err(ParseError { msg, span: sig_span });
                        }
                    },
                    None => None,
                };
                let d = Decl { name, sig, params, body, span };
                proof {
                    lemma_after_cons(out@, d, pair_from(all, i + 1, None));
                }
                out.push(d);
                pending = None;
            },
        }
    }
    match pending {
        Some((signame, _, sig_span)) => {
            let mut msg = String::new();
            push_str(&mut msg, "signature for `");
            push_str(&mut msg, signame.as_str());
            push_str(&mut msg, "` has no accompanying binding");
            Err(ParseError { msg, span: sig_span })
        },
        None => {
            proof {
                assert(out@ + Seq::<Decl>::empty() =~= out@);
            }
            Ok(out)
        },
    }
}

/// Item `j` binds a name that an earlier item already binds.
pub open spec fn rebinds(items: Seq<DeclItem>, j: int) -> bool {
    &&& 0 <= j < items.len()
    &&& items[j] is Bind
    &&& exists|k: int| 0 <= k < j && (#[trigger] items[k]) is Bind && items[k]->Bind_name@ == items[j]->Bind_name@
}

/// Rejects a name bound twice in one block, at the first binding that repeats
/// an earlier one. A signature and its binding share a name without clashing.
pub fn fold_decls_check_duplicates(items: &Vec<DeclItem>) -> (r: Result<(), ParseError>)
    ensures
        r is Ok <==> forall|j: int| !rebinds(items@, j),
        forall|j: int| #![trigger rebinds(items@, j)] rebinds(items@, j) && (forall|m: int| 0 <= m < j ==> !rebinds(items@, m))
            ==> (r is Err && r->Err_0.msg@ == "`"@ + items@[j]->Bind_name@ + "` is defined twice \u{2014} remove or rename one"@
                && r->Err_0.span == items@[j]->Bind_span),
{
    let mut seen: Vec<&str> = Vec::new();
    let ghost mut seen_at: Seq<int> = Seq::empty();
    let ghost mut pos_of: Seq<int> = Seq::empty();
    let mut j: usize = 0;
    while j < items.len()
        invariant
            j <= items.len(),
            seen_at.len() == seen@.len(),
            pos_of.len() == j,
            forall|x: int| #![trigger seen_at[x]] 0 <= x < seen@.len() ==> 0 <= seen_at[x] < j && items@[seen_at[x]] is Bind
                && items@[seen_at[x]]->Bind_name@ == seen@[x]@,
            forall|k: int| #![trigger pos_of[k]] 0 <= k < j && items@[k] is Bind ==> 0 <= pos_of[k] < seen@.len()
                && seen@[pos_of[k]]@ == items@[k]->Bind_name@,
            forall|m: int| 0 <= m < j ==> !rebinds(items@, m),
        decreases items.len() - j,
    {
        match &items[j] {
            DeclItem::Bind { name, span, .. } => {
                let mut x: usize = 0;
                while x < seen.len()
                    invariant
                        x <= seen.len(),
                        forall|y: int| 0 <= y < x ==> (#[trigger] seen@[y])@ != name@,
                        j < items.len(),
                        items@[j as int] is Bind,
                        items@[j as int]->Bind_name@ == name@,
                        items@[j as int]->Bind_span == *span,
                        seen_at.len() == seen@.len(),
                        forall|m: int| 0 <= m < j ==> !rebinds(items@, m),
                        forall|x: int| #![trigger seen_at[x]] 0 <= x < seen@.len() ==> 0 <= seen_at[x] < j && items@[seen_at[x]] is Bind
                            && items@[seen_at[x]]->Bind_name@ == seen@[x]@,
                    decreases seen.len() - x,
                {
                    if str_eq(seen[x], name.as_str()) {
                        proof {
                            let k = seen_at[x as int];
                            assert(0 <= k < j && items@[k] is Bind && items@[k]->Bind_name@ == items@[j as int]->Bind_name@);
                            assert(rebinds(items@, j as int));
                            assert forall|j2: int| #![trigger rebinds(items@, j2)] rebinds(items@, j2) && (forall|m: int| 0 <= m < j2 ==> !rebinds(items@, m)) implies j2 == j by {
                                if j2 > j {
                                    assert(!rebinds(items@, j as int));
                                }
                            }
                        }
                        let mut msg = String::new();
                        push_str(&mut msg, "`");
                        push_str(&mut msg, name.as_str());
                        push_str(&mut msg, "` is defined twice \u{2014} remove or rename one");
                        return Err(ParseError { msg, span: span.start..span.end });
                    }
                    x = x + 1;
                }
                proof {
                    assert(!rebinds(items@, j as int)) by {
                        if rebinds(items@, j as int) {
                            let k = choose|k: int| 0 <= k < j && (#[trigger] items@[k]) is Bind && items@[k]->Bind_name@ == items@[j as int]->Bind_name@;
                            let y = pos_of[k];
                            assert(seen@[y]@ != name@);
                        }
                    }
                }
                let ghost old_seen = seen@;
                seen.push(name.as_str());
                proof {
                    seen_at = seen_at.push(j as int);
                    pos_of = pos_of.push(old_seen.len() as int);
                    assert forall|x: int| #![trigger seen_at[x]] 0 <= x < seen@.len() implies 0 <= seen_at[x] < j + 1 && items@[seen_at[x]] is Bind
                        && items@[seen_at[x]]->Bind_name@ == seen@[x]@ by {
                        if x < old_seen.len() {
                            assert(seen@[x] == old_seen[x]);
                        }
                    }
                    assert forall|k: int| #![trigger pos_of[k]] 0 <= k < j + 1 && items@[k] is Bind implies 0 <= pos_of[k] < seen@.len()
                        && seen@[pos_of[k]]@ == items@[k]->Bind_name@ by {
                        if k < j {
                            assert(seen@[pos_of[k]] == old_seen[pos_of[k]]);
                        }
                    }
                }
            },
            DeclItem::Sig { .. } => {
                proof {
                    pos_of = pos_of.push(0);
                    assert(!rebinds(items@, j as int));
                }
            },
        }
        j = j + 1;
    }
    Ok(())
}

/// `s` with every occurrence of a non-empty `before` replaced by `after`.
pub open spec fn replace_spec(s: Seq<char>, before: Seq<char>, after: Seq<char>) -> Seq<char> {
    if before.len() == 0 {
        s
    } else {
        crate::strings::join_spec(after, crate::strings::split_spec(s, before))
    }
}

/// A piece of an expected-list without a leading `or `.
pub open spec fn strip_or(p: Seq<char>) -> Seq<char> {
    if crate::strings::occurs_at(p, "or "@, 0) {
        p.skip("or "@.len() as int)
    } else {
        p
    }
}

/// One expected item in plain words: no `or `, no surrounding whitespace,
/// and `an expression` in place of `something else`.
pub open spec fn clean_piece(p: Seq<char>) -> Seq<char> {
    replace_spec(
        crate::strings::trim_end_spec(crate::strings::trim_start_spec(strip_or(p))),
        "something else"@,
        "an expression"@,
    )
}

/// The cleaned items of an expected-list, in order, each once, without the
/// virtual `';'` of the layout pass.
pub open spec fn expected_items(ps: Seq<Seq<char>>) -> Seq<Seq<char>>
    decreases ps.len(),
{
    if ps.len() == 0 {
        Seq::empty()
    } else {
        let prev = expected_items(ps.drop_last());
        let c = clean_piece(ps.last());
        if c == "';'"@ || prev.contains(c) {
            prev
        } else {
            prev.push(c)
        }
    }
}

/// A closing delimiter (or the comma before one).
pub open spec fn is_closer(i: Seq<char>) -> bool {
    i == "','"@ || i == "')'"@ || i == "']'"@ || i == "'}'"@ || i == "`}`"@
}

/// A closing bracket.
pub open spec fn is_bracket(i: Seq<char>) -> bool {
    i == "')'"@ || i == "']'"@ || i == "'}'"@ || i == "`}`"@
}

/// The first closing bracket among the items.
pub open spec fn first_bracket(items: Seq<Seq<char>>) -> Option<Seq<char>>
    decreases items.len(),
{
    if items.len() == 0 {
        None
    } else if is_bracket(items[0]) {
        Some(items[0])
    } else {
        first_bracket(items.drop_first())
    }
}

/// When only closers are expected, the hint that an opener was left
/// unclosed, naming the first bracket expected.
pub open spec fn close_hint(items: Seq<Seq<char>>) -> Seq<char> {
    if forall|k: int| 0 <= k < items.len() ==> is_closer(#[trigger] items[k]) {
        match first_bracket(items) {
            Some(d) => " \u{2014} this looks like an unclosed "@ + d,
            None => ""@,
        }
    } else {
        ""@
    }
}

/// The hint keyed on the token that was found, or on an expected `=`.
pub open spec fn found_hint(raw: Seq<char>, items: Seq<Seq<char>>) -> Seq<char> {
    if crate::strings::contains_spec(raw, "found '=>'"@) {
        " \u{2014} case arms use `->`, not `=>`"@
    } else if crate::strings::contains_spec(raw, "found '\\'"@) {
        " \u{2014} a lambda is written `\\x -> body`"@
    } else if items.contains("'='"@) {
        " \u{2014} this looks like a definition missing its `=`"@
    } else {
        ""@
    }
}

/// The items joined with commas and a final `or`.
pub open spec fn joined(items: Seq<Seq<char>>) -> Seq<char> {
    if items.len() == 1 {
        items[0]
    } else if items.len() == 2 {
        items[0] + " or "@ + items[1]
    } else {
        crate::strings::join_spec(", "@, items.drop_last()) + ", or "@ + items.last()
    }
}

/// A raw `… expected a, b, or c` message in plain language: the part before
/// `expected ` kept, then the cleaned expected items, then the hints.
pub open spec fn humanize_spec(raw: Seq<char>) -> Seq<char> {
    let occ = crate::strings::indexes_from(raw, "expected "@, 0);
    if occ.len() == 0 {
        replace_spec(raw, "something else"@, "an expression"@)
    } else {
        let head = raw.subrange(0, occ[0]);
        let list = raw.skip(occ[0] + "expected "@.len());
        let items = expected_items(crate::strings::split_spec(list, ", "@));
        if items.len() == 0 {
            head + "expected an expression"@
        } else {
            head + "expected "@ + joined(items) + close_hint(items) + found_hint(raw, items)
        }
    }
}

proof fn lemma_indexes_bound(cs: Seq<char>, p: Seq<char>, i: int)
    requires
        p.len() > 0,
        i >= 0,
    ensures
        forall|k: int| 0 <= k < crate::strings::indexes_from(cs, p, i).len() ==> i <= #[trigger] crate::strings::indexes_from(cs, p, i)[k]
            && crate::strings::indexes_from(cs, p, i)[k] + p.len() <= cs.len(),
    decreases cs.len() + 1 - i,
{
    if i + p.len() <= cs.len() {
        lemma_indexes_bound(cs, p, i + 1);
        let r = crate::strings::indexes_from(cs, p, i + 1);
        if crate::strings::occurs_at(cs, p, i) {
            assert forall|k: int| 0 <= k < crate::strings::indexes_from(cs, p, i).len() implies i <= #[trigger] crate::strings::indexes_from(cs, p, i)[k]
                && crate::strings::indexes_from(cs, p, i)[k] + p.len() <= cs.len() by {
                if k > 0 {
                    assert((seq![i] + r)[k] == r[k - 1]);
                }
            }
        }
    }
}

fn clean(piece: &String) -> (r: String)
    ensures
        r@ == clean_piece(piece@),
{
    proof {
        reveal_strlit("or ");
        reveal_strlit("something else");
    }
    let stripped = if crate::strings::string_starts_with("or ", piece.as_str()) {
        crate::strings::string_drop_left(3, piece.as_str())
    } else {
        piece.clone()
    };
    let trimmed = crate::strings::string_trim(stripped.as_str());
    crate::strings::string_replace("something else", "an expression", trimmed.as_str())
}

fn in_list(items: &Vec<String>, x: &String) -> (r: bool)
    ensures
        r == crate::strings::views(items@).contains(x@),
{
    let mut i: usize = 0;
    while i < items.len()
        invariant
            i <= items.len(),
            forall|k: int| 0 <= k < i ==> items@[k]@ != x@,
        decreases items.len() - i,
    {
        if str_eq(items[i].as_str(), x.as_str()) {
            proof {
                assert(crate::strings::views(items@)[i as int] == x@);
            }
            return true;
        }
        i = i + 1;
    }
    proof {
        if crate::strings::views(items@).contains(x@) {
            let k = choose|k: int| 0 <= k < crate::strings::views(items@).len() && crate::strings::views(items@)[k] == x@;
            assert(items@[k]@ == x@);
        }
    }
    false
}

/// Rewrites a raw `found X expected a, b, or c` parse error into plain
/// language: duplicates and the virtual `';'` dropped, `something else` read
/// as `an expression`, the list joined with a final `or`, and hints added for
/// an unclosed bracket, a `=>` arm, a misspelt lambda or a missing `=`.
pub fn humanize_expected(raw: &str) -> (r: String)
    requires
        raw@.len() <= i64::MAX,
    ensures
        r@ == humanize_spec(raw@),
{
    proof {
        reveal_strlit("expected ");
        reveal_strlit("or ");
        reveal_strlit("';'");
    }
    let occ = crate::strings::string_indexes("expected ", raw);
    proof {
        lemma_indexes_bound(raw@, "expected "@, 0);
    }
    if occ.len() == 0 {
        return crate::strings::string_replace("something else", "an expression", raw);
    }
    let idx = occ[0];
    proof {
        assert(crate::strings::indexes_from(raw@, "expected "@, 0)[0] == idx as int);
    }
    let head = crate::strings::string_left(idx, raw);
    let list = crate::strings::string_drop_left(idx + 9, raw);
    proof {
        assert(head@ == raw@.subrange(0, idx as int));
        assert(list@ =~= raw@.skip(idx + "expected "@.len()));
    }
    let pieces = crate::strings::string_split(", ", list.as_str());
    let ghost ps = crate::strings::views(pieces@);
    proof {
        reveal_strlit(", ");
        assert(", "@.len() == 2);
        assert(ps == crate::strings::split_spec(list@, ", "@));
    }
    let mut items: Vec<String> = Vec::new();
    let mut k: usize = 0;
    while k < pieces.len()
        invariant
            k <= pieces.len(),
            ps == crate::strings::views(pieces@),
            crate::strings::views(items@) == expected_items(ps.subrange(0, k as int)),
        decreases pieces.len() - k,
    {
        let c = clean(&pieces[k]);
        proof {
            reveal_strlit("';'");
            assert(ps.subrange(0, k + 1).drop_last() =~= ps.subrange(0, k as int));
            assert(ps.subrange(0, k + 1).last() == pieces@[k as int]@);
        }
        let ghost before = crate::strings::views(items@);
        if !str_eq(c.as_str(), "';'") && !in_list(&items, &c) {
            items.push(c);
            proof {
                assert(crate::strings::views(items@) =~= before.push(items@.last()@));
            }
        }
        k = k + 1;
    }
    proof {
        assert(ps.subrange(0, k as int) =~= ps);
    }
    let ghost it = crate::strings::views(items@);
    let mut out = String::new();
    push_str(&mut out, head.as_str());
    if items.len() == 0 {
        push_str(&mut out, "expected an expression");
        return out;
    }
    push_str(&mut out, "expected ");
    let n = items.len();
    if n == 1 {
        push_str(&mut out, items[0].as_str());
    } else if n == 2 {
        push_str(&mut out, items[0].as_str());
        push_str(&mut out, " or ");
        push_str(&mut out, items[1].as_str());
    } else {
        let last = items.pop().unwrap();
        let front = crate::strings::string_join(", ", &items);
        proof {
            assert(crate::strings::views(items@) =~= it.drop_last());
        }
        push_str(&mut out, front.as_str());
        push_str(&mut out, ", or ");
        push_str(&mut out, last.as_str());
        items.push(last);
        proof {
            assert(crate::strings::views(items@) =~= it);
        }
    }
    proof {
        assert(out@ == head@ + "expected "@ + joined(it));
    }
    let ghost base = out@;
    let mut only_closers = true;
    let mut bracket: Option<usize> = None;
    let mut i: usize = 0;
    proof {
        assert(it.skip(0) =~= it);
    }
    while i < items.len()
        invariant
            i <= items.len(),
            crate::strings::views(items@) == it,
            only_closers == forall|x: int| 0 <= x < i ==> is_closer(#[trigger] it[x]),
            bracket matches Some(b) ==> b < i && is_bracket(it[b as int]) && first_bracket(it) == Some(it[b as int]),
            bracket is None ==> first_bracket(it) == first_bracket(it.skip(i as int)),
        decreases items.len() - i,
    {
        let x = items[i].as_str();
        let closer = str_eq(x, "','") || str_eq(x, "')'") || str_eq(x, "']'") || str_eq(x, "'}'") || str_eq(x, "`}`");
        let br = str_eq(x, "')'") || str_eq(x, "']'") || str_eq(x, "'}'") || str_eq(x, "`}`");
        proof {
            assert(it[i as int] == x@);
            assert(it.skip(i as int)[0] == it[i as int]);
            assert(it.skip(i as int).drop_first() =~= it.skip(i + 1));
        }
        if !closer {
            only_closers = false;
        }
        if br && bracket.is_none() {
            bracket = Some(i);
        }
        i = i + 1;
    }
    let ghost mid = out@;
    if only_closers {
        proof {
            assert(close_hint(it) == match first_bracket(it) {
                Some(d) => " \u{2014} this looks like an unclosed "@ + d,
                None => ""@,
            });
        }
        match bracket {
            Some(b) => {
                push_str(&mut out, " \u{2014} this looks like an unclosed ");
                push_str(&mut out, items[b].as_str());
            },
            None => {
                proof {
                    assert(it.skip(i as int).len() == 0);
                }
            },
        }
    } else {
        proof {
            assert(!(forall|x: int| 0 <= x < it.len() ==> is_closer(#[trigger] it[x])));
        }
    }
    proof {
        reveal_strlit("");
        assert(out@ =~= base + close_hint(it));
    }
    let ghost with_close = out@;
    if crate::strings::string_contains("found '=>'", raw) {
        push_str(&mut out, " \u{2014} case arms use `->`, not `=>`");
    } else if crate::strings::string_contains("found '\\'", raw) {
        push_str(&mut out, " \u{2014} a lambda is written `\\x -> body`");
    } else {
        let eq = string_of_lit("'='");
        if in_list(&items, &eq) {
            push_str(&mut out, " \u{2014} this looks like a definition missing its `=`");
        }
    }
    proof {
        reveal_strlit("");
        assert(out@ =~= with_close + found_hint(raw@, it));
        assert(out@ =~= humanize_spec(raw@));
    }
    out
}

fn string_of_lit(lit: &str) -> (r: String)
    ensures
        r@ == lit@,
{
    let mut s = String::new();
    push_str(&mut s, lit);
    proof {
        assert(s@ =~= lit@);
    }
    s
}

} // verus!
