//! The AST and the type language shared by every stage after parsing.
//!
//! Every executable type here has a mathematical model (`TypeV`, `SchemeV`,
//! …) built from `Seq`s, so contracts can speak of structural equality:
//! two `Vec`s are compared through their views, never as Rust values.
use vstd::prelude::*;

verus! {

/// Byte range into the original source, carried on every node for diagnostics.
pub type Span = std::ops::Range<usize>;

/// A value paired with the source span it came from.
#[derive(Debug)]
pub struct Spanned<T>(pub T, pub Span);

/// A bound on a unification variable: Elm's `number` / `comparable` /
/// `appendable`, or none.
#[derive(Clone, Copy, PartialEq, Eq, Structural, Debug)]
pub enum Constraint {
    /// No bound (spelled `None` in the surface language's design).
    Free,
    Number,
    Comparable,
    Appendable,
}

/// The tail of a record type: exactly the known fields, or at least them plus
/// whatever a row variable stands for.
#[derive(Clone, Copy, PartialEq, Eq, Structural, Debug)]
pub enum Row {
    Closed,
    Open(u32),
}

/// A type, in the uniform applied-constructor representation. Record fields
/// are kept sorted by name with no name twice (see `fields_wf`).
#[derive(Debug)]
pub enum Type {
    Var(u32, Constraint),
    Rigid(String),
    Con(String, Vec<Type>),
    Fun(Box<Type>, Box<Type>),
    Record(Vec<(String, Type)>, Row),
    Tuple(Vec<Type>),
}

/// The mathematical model of a `Type`.
pub enum TypeV {
    Var(u32, Constraint),
    Rigid(Seq<char>),
    Con(Seq<char>, Seq<TypeV>),
    Fun(Box<TypeV>, Box<TypeV>),
    Record(Seq<(Seq<char>, TypeV)>, Row),
    Tuple(Seq<TypeV>),
}

pub open spec fn tv(t: Type) -> TypeV
    decreases t,
{
    match t {
        Type::Var(v, c) => TypeV::Var(v, c),
        Type::Rigid(n) => TypeV::Rigid(n@),
        Type::Con(n, args) => TypeV::Con(n@, tvs(args@)),
        Type::Fun(a, b) => TypeV::Fun(Box::new(tv(*a)), Box::new(tv(*b))),
        Type::Record(fs, row) => TypeV::Record(fvs(fs@), row),
        Type::Tuple(es) => TypeV::Tuple(tvs(es@)),
    }
}

pub open spec fn tvs(s: Seq<Type>) -> Seq<TypeV>
    decreases s,
{
    if s.len() == 0 {
        Seq::empty()
    } else {
        seq![tv(s[0])] + tvs(s.drop_first())
    }
}

pub open spec fn fvs(s: Seq<(String, Type)>) -> Seq<(Seq<char>, TypeV)>
    decreases s,
{
    if s.len() == 0 {
        Seq::empty()
    } else {
        seq![(s[0].0@, tv(s[0].1))] + fvs(s.drop_first())
    }
}

pub proof fn lemma_tvs(s: Seq<Type>)
    ensures
        tvs(s).len() == s.len(),
        forall|i: int| 0 <= i < s.len() ==> #[trigger] tvs(s)[i] == tv(s[i]),
    decreases s.len(),
{
    if s.len() > 0 {
        lemma_tvs(s.drop_first());
        assert forall|i: int| 0 <= i < s.len() implies #[trigger] tvs(s)[i] == tv(s[i]) by {
            if i > 0 {
                assert(s.drop_first()[i - 1] == s[i]);
            }
        }
    }
}

pub proof fn lemma_fvs(s: Seq<(String, Type)>)
    ensures
        fvs(s).len() == s.len(),
        forall|i: int|
            0 <= i < s.len() ==> #[trigger] fvs(s)[i] == (s[i].0@, tv(s[i].1)),
    decreases s.len(),
{
    if s.len() > 0 {
        lemma_fvs(s.drop_first());
        assert forall|i: int| 0 <= i < s.len() implies #[trigger] fvs(s)[i] == (
            s[i].0@,
            tv(s[i].1),
        ) by {
            if i > 0 {
                assert(s.drop_first()[i - 1] == s[i]);
            }
        }
    }
}

/// `tvs` distributes over concatenation.
pub proof fn lemma_tvs_push(s: Seq<Type>, t: Type)
    ensures
        tvs(s.push(t)) == tvs(s).push(tv(t)),
{
    lemma_tvs(s.push(t));
    lemma_tvs(s);
    assert(tvs(s.push(t)) =~= tvs(s).push(tv(t)));
}

pub proof fn lemma_fvs_push(s: Seq<(String, Type)>, f: (String, Type))
    ensures
        fvs(s.push(f)) == fvs(s).push((f.0@, tv(f.1))),
{
    lemma_fvs(s.push(f));
    lemma_fvs(s);
    assert(fvs(s.push(f)) =~= fvs(s).push((f.0@, tv(f.1))));
}

/// A type scheme `∀ vars . ty`; quantified row variables are kept apart.
#[derive(Debug)]
pub struct Scheme {
    pub vars: Vec<(u32, Constraint)>,
    pub row_vars: Vec<u32>,
    pub ty: Type,
}

pub struct SchemeV {
    pub vars: Seq<(u32, Constraint)>,
    pub row_vars: Seq<u32>,
    pub ty: TypeV,
}

pub open spec fn sv(s: Scheme) -> SchemeV {
    SchemeV { vars: s.vars@, row_vars: s.row_vars@, ty: tv(s.ty) }
}

/// Copy a string, keeping its contents.
pub fn copy_string(s: &String) -> (r: String)
    ensures
        r@ == s@,
{
    s.clone()
}

impl Type {
    /// A structural copy of the type.
    pub fn duplicate(&self) -> (r: Type)
        ensures
            tv(r) == tv(*self),
        decreases self,
    {
        match self {
            Type::Var(v, c) => Type::Var(*v, *c),
            Type::Rigid(n) => Type::Rigid(copy_string(n)),
            Type::Con(n, args) => Type::Con(copy_string(n), duplicate_types(args)),
            Type::Fun(a, b) => {
                let a2 = (**a).duplicate();
                let b2 = (**b).duplicate();
                Type::Fun(Box::new(a2), Box::new(b2))
            },
            Type::Record(fs, row) => Type::Record(duplicate_fields(fs), *row),
            Type::Tuple(es) => Type::Tuple(duplicate_types(es)),
        }
    }
}

/// A structural copy of a list of types.
pub fn duplicate_types(ts: &Vec<Type>) -> (r: Vec<Type>)
    ensures
        tvs(r@) == tvs(ts@),
    decreases ts,
{
    let mut out: Vec<Type> = Vec::new();
    let mut i: usize = 0;
    proof {
        lemma_tvs(ts@);
    }
    while i < ts.len()
        invariant
            i <= ts.len(),
            tvs(out@) == tvs(ts@.subrange(0, i as int)),
        decreases ts.len() - i,
    {
        proof {
            assert(decreases_to!(ts => ts[i as int]));
        }
        let t = ts[i].duplicate();
        proof {
            lemma_tvs_push(out@, t);
            lemma_tvs_push(ts@.subrange(0, i as int), ts@[i as int]);
            assert(ts@.subrange(0, i as int).push(ts@[i as int]) =~= ts@.subrange(0, i + 1));
        }
        out.push(t);
        i = i + 1;
    }
    proof {
        assert(ts@.subrange(0, i as int) =~= ts@);
    }
    out
}

/// A structural copy of a record's field list.
pub fn duplicate_fields(fs: &Vec<(String, Type)>) -> (r: Vec<(String, Type)>)
    ensures
        fvs(r@) == fvs(fs@),
    decreases fs,
{
    let mut out: Vec<(String, Type)> = Vec::new();
    let mut i: usize = 0;
    while i < fs.len()
        invariant
            i <= fs.len(),
            fvs(out@) == fvs(fs@.subrange(0, i as int)),
        decreases fs.len() - i,
    {
        proof {
            assert(decreases_to!(fs => fs[i as int]));
            assert(decreases_to!(fs[i as int] => fs[i as int].1));
        }
        let t = fs[i].1.duplicate();
        let n = copy_string(&fs[i].0);
        proof {
            lemma_fvs_push(out@, (n, t));
            lemma_fvs_push(fs@.subrange(0, i as int), fs@[i as int]);
            assert(fs@.subrange(0, i as int).push(fs@[i as int]) =~= fs@.subrange(0, i + 1));
        }
        out.push((n, t));
        i = i + 1;
    }
    proof {
        assert(fs@.subrange(0, i as int) =~= fs@);
    }
    out
}

impl Scheme {
    /// A structural copy of the scheme.
    pub fn duplicate(&self) -> (r: Scheme)
        ensures
            sv(r) == sv(*self),
    {
        let vars = copy_vars(&self.vars);
        let row_vars = copy_u32s(&self.row_vars);
        Scheme { vars, row_vars, ty: self.ty.duplicate() }
    }
}

pub fn copy_vars(v: &Vec<(u32, Constraint)>) -> (r: Vec<(u32, Constraint)>)
    ensures
        r@ == v@,
{
    let mut out: Vec<(u32, Constraint)> = Vec::new();
    let mut i: usize = 0;
    while i < v.len()
        invariant
            i <= v.len(),
            out@ == v@.subrange(0, i as int),
        decreases v.len() - i,
    {
        out.push(v[i]);
        i = i + 1;
        proof {
            assert(out@ =~= v@.subrange(0, i as int));
        }
    }
    proof {
        assert(v@.subrange(0, i as int) =~= v@);
    }
    out
}

pub fn copy_u32s(v: &Vec<u32>) -> (r: Vec<u32>)
    ensures
        r@ == v@,
{
    let mut out: Vec<u32> = Vec::new();
    let mut i: usize = 0;
    while i < v.len()
        invariant
            i <= v.len(),
            out@ == v@.subrange(0, i as int),
        decreases v.len() - i,
    {
        out.push(v[i]);
        i = i + 1;
        proof {
            assert(out@ =~= v@.subrange(0, i as int));
        }
    }
    proof {
        assert(v@.subrange(0, i as int) =~= v@);
    }
    out
}

/// The `on_exhaust` choice a braceless policy word carries.
#[derive(Clone, Copy, PartialEq, Eq, Structural, Debug)]
pub enum OnExhaustTag {
    Rollback,
    Keep,
}

/// A `case` pattern.
#[derive(Debug)]
pub enum Pattern {
    Wildcard,
    Var(String),
    Str(String),
    Int(i64),
    Char(char),
    Ctor(String, Vec<Spanned<Pattern>>),
    Nil,
    Cons(Box<Spanned<Pattern>>, Box<Spanned<Pattern>>),
    Tuple(Vec<Spanned<Pattern>>),
}

/// One variant of a user `type` declaration.
#[derive(Debug)]
pub struct Variant {
    pub name: String,
    pub fields: Vec<Spanned<Type>>,
    pub span: Span,
}

/// A user sum-type declaration: `type Name p1 p2 = V1 f1 | V2`.
#[derive(Debug)]
pub struct TypeDecl {
    pub name: String,
    pub params: Vec<String>,
    pub variants: Vec<Variant>,
    pub span: Span,
}

#[derive(Debug)]
pub enum Exposing {
    All,
    Explicit(Vec<Exposed>),
}

#[derive(Debug)]
pub enum Exposed {
    Value { name: String, span: Span },
    Type { name: String, open: bool, span: Span },
}

impl Exposed {
    /// The exposed item's name, whichever kind it is.
    pub fn name(&self) -> (r: &String)
        ensures
            r@ == match self {
                Exposed::Value { name, .. } => name@,
                Exposed::Type { name, .. } => name@,
            },
    {
        match self {
            Exposed::Value { name, .. } => name,
            Exposed::Type { name, .. } => name,
        }
    }

    /// The exposed item's source span, whichever kind it is.
    pub fn span(&self) -> (r: &Span)
        ensures
            *r == match self {
                Exposed::Value { span, .. } => *span,
                Exposed::Type { span, .. } => *span,
            },
    {
        match self {
            Exposed::Value { span, .. } => span,
            Exposed::Type { span, .. } => span,
        }
    }
}

#[derive(Debug)]
pub enum ImportExposing {
    Nothing,
    Explicit(Vec<Exposed>),
}

#[derive(Debug)]
pub struct Import {
    pub module: String,
    pub alias: Option<String>,
    pub exposing: ImportExposing,
    pub span: Span,
}

/// The surface expression language. Interpolation and infix operators are
/// already desugared into applications of builtins. A float literal keeps its
/// source text. Record literals and retry policies list their fields in name
/// order.
#[derive(Debug)]
pub enum Expr {
    Str(String),
    Int(i64),
    Float(String),
    Char(char),
    Var(String),
    AptPackage(Box<Spanned<Expr>>),
    SystemdService(Box<Spanned<Expr>>),
    Filesystem { path: Box<Spanned<Expr>>, entry: EntryExpr },
    LineInFile { path: Box<Spanned<Expr>>, line: Box<Spanned<Expr>> },
    Scroll {
        name: Box<Spanned<Expr>>,
        policy: Option<Box<Spanned<Expr>>>,
        notifies: Option<Box<Spanned<Expr>>>,
        contents: ContentsExpr,
    },
    PolicyExhaust(OnExhaustTag),
    PolicyRetry(Vec<(String, Spanned<Expr>)>),
    List(Vec<Spanned<Expr>>),
    Ctor(String),
    Lam { param: Spanned<Pattern>, body: Box<Spanned<Expr>> },
    App(Box<Spanned<Expr>>, Box<Spanned<Expr>>),
    Let { decls: Vec<Decl>, body: Box<Spanned<Expr>> },
    Record(Vec<(String, Spanned<Expr>)>),
    RecordUpdate { base: Box<Spanned<Expr>>, fields: Vec<(Spanned<String>, Spanned<Expr>)> },
    Tuple(Vec<Spanned<Expr>>),
    Field(Box<Spanned<Expr>>, String),
    Case { scrutinee: Box<Spanned<Expr>>, arms: Vec<Arm> },
    If { cond: Box<Spanned<Expr>>, then_: Box<Spanned<Expr>>, else_: Box<Spanned<Expr>> },
}

/// The entry a filesystem glyph builds: a file, a directory or a symlink.
#[derive(Debug)]
pub enum EntryExpr {
    File { contents: Box<Spanned<Expr>>, mode: Box<Spanned<Expr>> },
    Directory { mode: Box<Spanned<Expr>> },
    Symlink { target: Box<Spanned<Expr>> },
}

/// A scroll's contents: glyphs for a leaf, sub-scrolls for a branch.
#[derive(Debug)]
pub enum ContentsExpr {
    Glyphs(Box<Spanned<Expr>>),
    Groups(Box<Spanned<Expr>>),
}

/// One `pattern -> body` arm of a `case`.
#[derive(Debug)]
pub struct Arm {
    pub pat: Spanned<Pattern>,
    pub body: Spanned<Expr>,
}

/// A binding `name p1 p2 = body`, with its optional signature.
#[derive(Debug)]
pub struct Decl {
    pub name: String,
    pub sig: Option<Spanned<Type>>,
    pub params: Vec<Spanned<Pattern>>,
    pub body: Spanned<Expr>,
    pub span: Span,
}

/// A whole module: header, imports, type declarations and bindings.
#[derive(Debug)]
pub struct Module {
    pub name: Option<String>,
    pub exposing: Exposing,
    pub imports: Vec<Import>,
    pub type_decls: Vec<TypeDecl>,
    pub decls: Vec<Decl>,
}

} // verus!
