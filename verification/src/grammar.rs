//! The grammar: a recursive-descent parser over the laid-out token stream
//! (offside `{`/`;`/`}` already inserted by `layout`).
//!
//! ```text
//! module    = '{' { type_decl | decl } '}'
//! type_decl = 'type' Upper ident* '=' variant ('|' variant)*
//! variant   = Upper type_atom*
//! decl      = name ':' type | name ident* '=' expr
//! expr      = '\' ident+ '->' expr | 'let' block 'in' expr
//!           | 'if' expr 'then' expr 'else' expr | 'case' expr 'of' arms
//!           | unary (op unary)*
//! unary     = '-'* app          app = postfix postfix*
//! postfix   = atom ('.' field)*
//! ```
//!
//! Operators are resolved by `operators::fold_operators`, reserved
//! constructors by `parser::build_constructor`, signature pairing by
//! `parser::fold_decls`. Every parsing function consumes at least one token
//! when it succeeds and never consumes the final `Eof`, which is what makes
//! the recursion terminate.
use vstd::prelude::*;
use crate::ast::{copy_string, Arm, Decl, Exposing, Expr, Import, Module, OnExhaustTag, Pattern, Row, Span, Spanned, Type, TypeDecl, Variant};
use crate::lexer::{Tok, Token};
use crate::names::NameMap;
use crate::operators::fold_operators;
use crate::parser::{reserved_spec, build_constructor, check_binding_name, fold_decls, fold_decls_check_duplicates, humanize_expected, is_reserved_constructor, DeclItem, ParseError, pair_from, rebinds};
use crate::text::{push_str, str_eq};

verus! {

/// A laid-out token stream: non-empty and ending in `Eof`.
pub open spec fn stream(toks: Seq<Token>) -> bool {
    toks.len() >= 1 && toks[toks.len() - 1].tok is Eof
}

/// A successful parse starting at `pos` consumed at least one token and
/// stopped before the final `Eof`.
pub open spec fn moved<T>(toks: Seq<Token>, pos: usize, r: Result<(T, usize), ParseError>) -> bool {
    r matches Ok(x) ==> pos < x.1 < toks.len()
}

/// A successful parse starting at `pos` consumed nothing or more, and stopped
/// before the final `Eof`.
pub open spec fn kept<T>(toks: Seq<Token>, pos: usize, r: Result<(T, usize), ParseError>) -> bool {
    r matches Ok(x) ==> pos <= x.1 < toks.len()
}

/// The position after the token at `pos`, which is not the final `Eof`.
fn step(toks: &Vec<Token>, pos: usize) -> (r: usize)
    requires
        stream(toks@),
        pos < toks@.len(),
        !(toks@[pos as int].tok is Eof),
    ensures
        r == pos + 1,
        r < toks@.len(),
{
    let n = toks.len();
    pos + 1
}

fn sp(s: &Span) -> (r: Span)
    ensures
        r == *s,
{
    s.start..s.end
}

fn is_eof(t: &Tok) -> (r: bool)
    ensures
        r == (*t is Eof),
{
    match t {
        Tok::Eof => true,
        _ => false,
    }
}

fn is_op(t: &Tok, s: &str) -> (r: bool)
    ensures
        r == (*t matches Tok::Op(o) && o@ == s@),
{
    match t {
        Tok::Op(o) => str_eq(o.as_str(), s),
        _ => false,
    }
}

fn is_ident(t: &Tok, s: &str) -> (r: bool)
    ensures
        r == (*t matches Tok::Ident(o) && o@ == s@),
{
    match t {
        Tok::Ident(o) => str_eq(o.as_str(), s),
        _ => false,
    }
}

fn is_block_open(t: &Tok) -> (r: bool)
    ensures
        r == (*t is VLBrace || *t is LBrace),
{
    match t {
        Tok::VLBrace | Tok::LBrace => true,
        _ => false,
    }
}

fn is_block_close(t: &Tok) -> (r: bool)
    ensures
        r == (*t is VRBrace || *t is RBrace),
{
    match t {
        Tok::VRBrace | Tok::RBrace => true,
        _ => false,
    }
}

fn is_vsemi(t: &Tok) -> (r: bool)
    ensures
        r == (*t is VSemi),
{
    match t {
        Tok::VSemi => true,
        _ => false,
    }
}

/// How the parser names the token it stopped at.
/// How a message names a token: quoted, or `end of input` for `Eof`.
pub open spec fn found_spec(t: Tok) -> Seq<char> {
    if t is Eof {
        "end of input"@
    } else {
        "'"@ + crate::lexer::tok_text(t) + "'"@
    }
}

fn found_text(t: &Tok) -> (r: String)
    ensures
        r@ == found_spec(*t),
{
    let mut s = String::new();
    if is_eof(t) {
        push_str(&mut s, "end of input");
    } else {
        push_str(&mut s, "'");
        let d = t.describe();
        push_str(&mut s, d.as_str());
        push_str(&mut s, "'");
    }
    proof {
        assert(s@ =~= found_spec(*t));
    }
    s
}

/// The error for stopping at token `pos` when one of `items` was needed,
/// worded as `found X expected A, B, or C` and then put in plain language by
/// `humanize_expected`.
fn expected(toks: &Vec<Token>, pos: usize, items: Vec<&str>) -> (r: ParseError)
    requires
        pos < toks@.len(),
    ensures
        r.span == toks@[pos as int].span,
{
    let mut raw = String::new();
    push_str(&mut raw, "found ");
    let f = found_text(&toks[pos].tok);
    push_str(&mut raw, f.as_str());
    push_str(&mut raw, " expected ");
    let n = items.len();
    if n == 0 {
        push_str(&mut raw, "something else");
    } else {
        let mut i: usize = 0;
        while i < n
            invariant
                n == items.len(),
                i <= n,
            decreases n - i,
        {
            if i > 0 {
                push_str(&mut raw, ", ");
                if i + 1 == n {
                    push_str(&mut raw, "or ");
                }
            }
            push_str(&mut raw, items[i]);
            i = i + 1;
        }
    }
    let l = raw.as_str().unicode_len();
    let msg = if (l as u64) <= 0x7fff_ffff_ffff_ffffu64 {
        humanize_expected(raw.as_str())
    } else {
        raw
    };
    ParseError { msg, span: sp(&toks[pos].span) }
}

fn custom(msg: &str, span: Span) -> (r: ParseError)
    ensures
        r.span == span,
        r.msg@ == msg@,
{
    let mut m = String::new();
    push_str(&mut m, msg);
    ParseError { msg: m, span }
}

/// The redirect for a parenthesized form of four or more elements.
pub const TUPLE_TOO_LARGE_MESSAGE: &'static str = "A tuple can have at most 3 elements. For a larger grouping, use a record with named fields instead.";

/// The redirect for a float literal in a pattern.
pub const FLOAT_PATTERN_MESSAGE: &'static str = "`Float` literals can't be matched in a pattern. Floating-point equality is unreliable, so Emet \u{2014} like Elm \u{2014} forbids it. Bind the value with a name and compare it with `<`, `>`, `<=`, or `>=` in an `if` instead.";


// ------------------------------------------------- what each parse accepts
//
// Each recognizer below says, for the token stream and a start position,
// where the corresponding parsing function stops when it succeeds, or `None`
// where it fails.

/// `r` succeeds exactly when `o` is `Some`, stopping at that position.
pub open spec fn ends<T>(r: Result<(T, usize), ParseError>, o: Option<int>) -> bool {
    match o {
        Some(e) => r matches Ok(x) && x.1 == e,
        None => r is Err,
    }
}

/// `r` succeeds exactly when `o` is `Some`, stopping at its position with
/// as many items as it counts.
pub open spec fn ends_list<T>(r: Result<(Vec<T>, usize), ParseError>, o: Option<(int, int)>) -> bool {
    match o {
        Some(e) => r matches Ok(x) && x.1 == e.0 && x.0@.len() == e.1,
        None => r is Err,
    }
}

/// `o` with `k` more items counted.
pub open spec fn shift(o: Option<(int, int)>, k: int) -> Option<(int, int)> {
    match o {
        Some(e) => Some((e.0, e.1 + k)),
        None => None,
    }
}

/// Where `type` read from `p` ends.
pub open spec fn type_end(toks: Seq<Token>, p: int) -> Option<int>
    decreases toks.len() - p, 4int,
{
    if !(0 <= p < toks.len()) {
        None
    } else {
        match btype_end(toks, p) {
            Some(q) => if p < q < toks.len() && toks[q].tok is Arrow {
                type_end(toks, q + 1)
            } else {
                Some(q)
            },
            None => None,
        }
    }
}

/// Where `btype` read from `p` ends.
pub open spec fn btype_end(toks: Seq<Token>, p: int) -> Option<int>
    decreases toks.len() - p, 3int,
{
    if !(0 <= p < toks.len() - 1) {
        None
    } else if toks[p].tok is Upper && type_atom_start(toks[p + 1].tok) {
        type_apps_end(toks, p + 1)
    } else {
        type_atom_end(toks, p)
    }
}

/// Where a run of type atoms read from `p` ends.
pub open spec fn type_apps_end(toks: Seq<Token>, p: int) -> Option<int>
    decreases toks.len() - p, 2int,
{
    if !(0 <= p < toks.len()) {
        None
    } else if type_atom_start(toks[p].tok) {
        match type_atom_end(toks, p) {
            Some(q) => if p < q < toks.len() {
                type_apps_end(toks, q)
            } else {
                None
            },
            None => None,
        }
    } else {
        Some(p)
    }
}

/// Where a type atom read from `p` ends.
pub open spec fn type_atom_end(toks: Seq<Token>, p: int) -> Option<int>
    decreases toks.len() - p, 1int,
{
    if !(0 <= p < toks.len() - 1) {
        None
    } else {
        match toks[p].tok {
            Tok::Upper(_) => Some(p + 1),
            Tok::Ident(_) => Some(p + 1),
            Tok::LBracket => match type_end(toks, p + 1) {
                Some(q) => if p < q < toks.len() && toks[q].tok is RBracket {
                    Some(q + 1)
                } else {
                    None
                },
                None => None,
            },
            Tok::LBrace => type_fields_end(toks, p + 1),
            Tok::LParen => match type_items_end(toks, p + 1, true) {
                Some(e) => if e.1 <= 3 {
                    Some(e.0)
                } else {
                    None
                },
                None => None,
            },
            _ => None,
        }
    }
}

/// Where comma-separated types up to `)` read from `p` end, and how many
/// there are; `first` when none was read yet (only then may `)` close).
pub open spec fn type_items_end(toks: Seq<Token>, p: int, first: bool) -> Option<(int, int)>
    decreases toks.len() - p, 5int,
{
    if !(0 <= p < toks.len()) {
        None
    } else if first && toks[p].tok is RParen {
        Some((p + 1, 0))
    } else {
        match type_end(toks, p) {
            Some(q) => if !(p < q < toks.len()) {
                None
            } else if toks[q].tok is Comma {
                shift(type_items_end(toks, q + 1, false), 1)
            } else if toks[q].tok is RParen {
                Some((q + 1, 1))
            } else {
                None
            },
            None => None,
        }
    }
}

/// Where `name : type` fields up to `}` read from `p` end.
pub open spec fn type_fields_end(toks: Seq<Token>, p: int) -> Option<int>
    decreases toks.len() - p, 5int,
{
    if !(0 <= p < toks.len() - 2) {
        if 0 <= p < toks.len() && toks[p].tok is RBrace {
            Some(p + 1)
        } else {
            None
        }
    } else {
        match toks[p].tok {
            Tok::RBrace => Some(p + 1),
            Tok::Ident(_) => if toks[p + 1].tok is Colon {
                match type_end(toks, p + 2) {
                    Some(q) => if !(p < q < toks.len()) {
                        None
                    } else if toks[q].tok is Comma {
                        type_fields_end(toks, q + 1)
                    } else if toks[q].tok is RBrace {
                        Some(q + 1)
                    } else {
                        None
                    },
                    None => None,
                }
            } else {
                None
            },
            _ => None,
        }
    }
}


/// Where `pattern` read from `p` ends.
pub open spec fn pattern_end(toks: Seq<Token>, p: int) -> Option<int>
    decreases toks.len() - p, 4int,
{
    if !(0 <= p < toks.len()) {
        None
    } else {
        match ctor_or_atom_end(toks, p) {
            Some(q) => if p < q < toks.len() && (toks[q].tok matches Tok::Op(o) && o@ == "::"@) {
                pattern_end(toks, q + 1)
            } else {
                Some(q)
            },
            None => None,
        }
    }
}

/// Where a constructor applied to pattern atoms, or one atom, read from `p`
/// ends.
pub open spec fn ctor_or_atom_end(toks: Seq<Token>, p: int) -> Option<int>
    decreases toks.len() - p, 3int,
{
    if !(0 <= p < toks.len() - 1) {
        None
    } else if toks[p].tok is Upper && pattern_atom_start(toks[p + 1].tok) {
        pattern_apps_end(toks, p + 1)
    } else {
        pattern_atom_end(toks, p)
    }
}

/// Where a run of pattern atoms read from `p` ends.
pub open spec fn pattern_apps_end(toks: Seq<Token>, p: int) -> Option<int>
    decreases toks.len() - p, 2int,
{
    if !(0 <= p < toks.len()) {
        None
    } else if pattern_atom_start(toks[p].tok) {
        match pattern_atom_end(toks, p) {
            Some(q) => if p < q < toks.len() {
                pattern_apps_end(toks, q)
            } else {
                None
            },
            None => None,
        }
    } else {
        Some(p)
    }
}

/// Where a pattern atom read from `p` ends. A float, and a `-` not directly
/// before an integer, are no pattern.
pub open spec fn pattern_atom_end(toks: Seq<Token>, p: int) -> Option<int>
    decreases toks.len() - p, 1int,
{
    if !(0 <= p < toks.len() - 1) {
        None
    } else {
        match toks[p].tok {
            Tok::Ident(_) => Some(p + 1),
            Tok::Str(_) => Some(p + 1),
            Tok::Char(_) => Some(p + 1),
            Tok::Int(_) => Some(p + 1),
            Tok::Upper(_) => Some(p + 1),
            Tok::Op(o) => if o@ == "-"@ && toks[p + 1].tok is Int && toks[p].span.end == toks[p + 1].span.start
                && toks[p + 1].tok->Int_0 > i64::MIN {
                Some(p + 2)
            } else {
                None
            },
            Tok::LBracket => match pattern_items_end(toks, p + 1, true, true) {
                Some(e) => Some(e.0),
                None => None,
            },
            Tok::LParen => match pattern_items_end(toks, p + 1, false, true) {
                Some(e) => if e.1 <= 3 {
                    Some(e.0)
                } else {
                    None
                },
                None => None,
            },
            _ => None,
        }
    }
}

/// Whether `t` closes a pattern list: `]` for a list literal (`square`),
/// else `)`.
pub open spec fn closes(t: Tok, square: bool) -> bool {
    if square {
        t is RBracket
    } else {
        t is RParen
    }
}

/// Where comma-separated patterns up to the closer read from `p` end, and
/// how many there are; `first` when none was read yet. A list literal may
/// close after a trailing comma, a parenthesized form only when empty.
pub open spec fn pattern_items_end(toks: Seq<Token>, p: int, square: bool, first: bool) -> Option<(int, int)>
    decreases toks.len() - p, 5int,
{
    if !(0 <= p < toks.len()) {
        None
    } else if closes(toks[p].tok, square) && (first || square) {
        Some((p + 1, 0))
    } else {
        match pattern_end(toks, p) {
            Some(q) => if !(p < q < toks.len()) {
                None
            } else if toks[q].tok is Comma {
                shift(pattern_items_end(toks, q + 1, square, false), 1)
            } else if closes(toks[q].tok, square) {
                Some((q + 1, 1))
            } else {
                None
            },
            None => None,
        }
    }
}


/// `t` is the operator `s`.
pub open spec fn op_is(t: Tok, s: Seq<char>) -> bool {
    t matches Tok::Op(o) && o@ == s
}

/// `d` is a binding with `n` parameters.
pub open spec fn binds_with(d: DeclItem, n: int) -> bool {
    d matches DeclItem::Bind { params, .. } && params@.len() == n
}

/// `e` is the expression the literal or name at `pos` denotes, with its span.
pub open spec fn atom_value(toks: Seq<Token>, pos: int, e: Spanned<Expr>) -> bool {
    &&& e.1 == toks[pos].span
    &&& match toks[pos].tok {
        Tok::Int(n) => e.0 == Expr::Int(n),
        Tok::Char(c) => e.0 == Expr::Char(c),
        Tok::Str(t) => e.0 matches Expr::Str(u) && u@ == t@,
        Tok::Ident(v) => var_named(e.0, v@),
        _ => false,
    }
}

/// A literal or a plain name: an atom that is one token.
pub open spec fn simple_atom(t: Tok) -> bool {
    t is Int || t is Char || t is Str || (t is Ident && !reserved_spec(t->Ident_0@))
}

/// How many one-token atoms stand one after another from `p`.
pub open spec fn simple_len(toks: Seq<Token>, p: int) -> nat
    decreases toks.len() - p,
{
    if 0 <= p < toks.len() && simple_atom(toks[p].tok) {
        1 + simple_len(toks, p + 1)
    } else {
        0
    }
}

/// One-token atoms stand from `pos`, and what follows them cannot continue
/// an expression: no atom, no `.` and no operator.
pub open spec fn app_chain(toks: Seq<Token>, pos: int) -> bool {
    let n = simple_len(toks, pos);
    &&& n >= 1
    &&& pos + n < toks.len()
    &&& !atom_start(toks[pos + n].tok)
    &&& !(toks[pos + n].tok is Dot)
    &&& !(toks[pos + n].tok is Op)
}

/// `e` is the first of the `n` one-token atoms from `pos` applied to the
/// others in turn, each application spanning from the first atom to its
/// argument.
pub open spec fn app_value(toks: Seq<Token>, pos: int, n: nat, e: Spanned<Expr>) -> bool
    decreases n,
{
    if n <= 1 {
        atom_value(toks, pos, e)
    } else {
        e.0 matches Expr::App(f, x) && app_value(toks, pos, (n - 1) as nat, *f) && atom_value(toks, pos + n - 1, *x)
            && e.1 == (toks[pos].span.start..toks[pos + n - 1].span.end)
    }
}

/// The tokens an expression can start with.
pub open spec fn expr_start(t: Tok) -> bool {
    atom_start(t) || (t matches Tok::Op(o) && o@ == "-"@) || t is Backslash || t is Let || t is If || t is Case
}

/// Where a run of virtual `;` read from `p` ends.
pub open spec fn semis_end(toks: Seq<Token>, p: int) -> int
    decreases toks.len() - p,
{
    if 0 <= p < toks.len() && toks[p].tok is VSemi {
        semis_end(toks, p + 1)
    } else {
        p
    }
}

/// Whether `t` closes a block, written or laid out.
pub open spec fn block_close(t: Tok) -> bool {
    t is VRBrace || t is RBrace
}

/// A declaration cannot start at `p`: no name there, or a reserved word.
pub open spec fn head_fails(toks: Seq<Token>, p: int) -> bool {
    !(toks[p].tok is Ident) || reserved_spec(toks[p].tok->Ident_0@)
}

/// A signature `name :` starts at `p`.
pub open spec fn is_sig(toks: Seq<Token>, p: int) -> bool {
    !head_fails(toks, p) && p + 1 < toks.len() && toks[p + 1].tok is Colon
}

/// Where the `k`-th item of a comma-separated pattern list read from `c`
/// starts (each item but the first follows the comma after the one before).
pub open spec fn item_pos(toks: Seq<Token>, c: int, k: nat) -> int
    decreases k,
{
    if k == 0 {
        c
    } else {
        match pattern_end(toks, item_pos(toks, c, (k - 1) as nat)) {
            Some(q) => q + 1,
            None => c,
        }
    }
}

/// The cons cells a list literal of `items` folds into, ending in `[]` at
/// `end`; each cell spans from its head to `end`.
pub open spec fn chain_of(items: Seq<Spanned<Pattern>>, end: usize) -> Spanned<Pattern>
    decreases items.len(),
{
    if items.len() == 0 {
        Spanned(Pattern::Nil, end..end)
    } else {
        Spanned(
            Pattern::Cons(Box::new(items[0]), Box::new(chain_of(items.drop_first(), end))),
            items[0].1.start..end,
        )
    }
}

/// `x` is the pattern the parser builds from `p`: a constructor applied to
/// atoms, or one atom, then optionally `::` and the tail.
pub open spec fn pattern_built(toks: Seq<Token>, p: int, x: Spanned<Pattern>) -> bool
    decreases toks.len() - p, 4int, 0int,
{
    if !(0 <= p < toks.len()) {
        false
    } else {
        match ctor_or_atom_end(toks, p) {
            Some(q) => if p < q < toks.len() && op_is(toks[q].tok, "::"@) {
                x.0 matches Pattern::Cons(h, t) && ctor_or_atom_built(toks, p, *h) && pattern_built(toks, q + 1, *t)
                    && x.1 == (h.1.start..t.1.end)
            } else {
                ctor_or_atom_built(toks, p, x)
            },
            None => false,
        }
    }
}

/// `x` is the constructor applied to atoms, or the atom, built from `p`.
pub open spec fn ctor_or_atom_built(toks: Seq<Token>, p: int, x: Spanned<Pattern>) -> bool
    decreases toks.len() - p, 3int, 0int,
{
    if !(0 <= p < toks.len() - 1) {
        false
    } else if toks[p].tok is Upper && pattern_atom_start(toks[p + 1].tok) {
        match pattern_apps_end(toks, p + 1) {
            Some(e) => x.0 matches Pattern::Ctor(n, args) && n@ == toks[p].tok->Upper_0@ && args_upto(
                toks,
                p + 1,
                e,
                args@,
            ) && args@.len() > 0 && x.1 == (toks[p].span.start..args@.last().1.end),
            None => false,
        }
    } else {
        pattern_atom_built(toks, p, x)
    }
}

/// `args` are the atoms read one after another from `c`, the last ending
/// at `e`.
pub open spec fn args_upto(toks: Seq<Token>, c: int, e: int, args: Seq<Spanned<Pattern>>) -> bool
    decreases toks.len() - c, 2int, 0int,
{
    if args.len() == 0 {
        c == e
    } else if !(0 <= c < toks.len()) {
        false
    } else {
        pattern_atom_built(toks, c, args[0]) && match pattern_atom_end(toks, c) {
            Some(q) => c < q <= toks.len() && args_upto(toks, q, e, args.drop_first()),
            None => false,
        }
    }
}

/// `xs` are the items of the pattern list read from `c`, one after another.
pub open spec fn items_built(toks: Seq<Token>, c: int, xs: Seq<Spanned<Pattern>>) -> bool
    decreases toks.len() - c, 5int, xs.len(),
{
    if xs.len() == 0 {
        true
    } else {
        let at = item_pos(toks, c, (xs.len() - 1) as nat);
        items_built(toks, c, xs.drop_last()) && c <= at < toks.len() && pattern_built(toks, at, xs.last())
    }
}

/// The heads of the cons cells of `p`, outermost first.
pub open spec fn chain_items(p: Pattern) -> Seq<Spanned<Pattern>>
    decreases p,
{
    match p {
        Pattern::Cons(h, t) => seq![*h] + chain_items(t.0),
        _ => Seq::empty(),
    }
}

/// `x` is the pattern atom built from `p`.
pub open spec fn pattern_atom_built(toks: Seq<Token>, p: int, x: Spanned<Pattern>) -> bool
    decreases toks.len() - p, 1int, 0int,
{
    if !(0 <= p < toks.len() - 1) {
        false
    } else {
        match toks[p].tok {
            Tok::Ident(n) => x.1 == toks[p].span && (if n@ == "_"@ {
                x.0 is Wildcard
            } else {
                x.0 matches Pattern::Var(v) && v@ == n@
            }),
            Tok::Str(t) => x.1 == toks[p].span && (x.0 matches Pattern::Str(v) && v@ == t@),
            Tok::Char(c) => x.1 == toks[p].span && x.0 == Pattern::Char(c),
            Tok::Int(n) => x.1 == toks[p].span && x.0 == Pattern::Int(n),
            Tok::Upper(u) => x.1 == toks[p].span && (x.0 matches Pattern::Ctor(v, args) && v@ == u@ && args@.len() == 0),
            Tok::Op(_) => pattern_atom_end(toks, p) is Some && x.1 == (toks[p].span.start..toks[p + 1].span.end)
                && x.0 == Pattern::Int((0 - toks[p + 1].tok->Int_0) as i64),
            Tok::LBracket => match pattern_items_end(toks, p + 1, true, true) {
                Some(e) => p + 1 < e.0 <= toks.len() && chain_items(x.0).len() == e.1 && items_built(
                    toks,
                    p + 1,
                    chain_items(x.0),
                ) && x.0 == chain_of(chain_items(x.0), toks[e.0 - 1].span.end).0 && x.1 == (toks[p].span.start
                    ..toks[e.0 - 1].span.end),
                None => false,
            },
            Tok::LParen => match pattern_items_end(toks, p + 1, false, true) {
                Some(e) => p + 1 < e.0 <= toks.len() && e.1 <= 3 && if e.1 == 1 {
                    pattern_built(toks, p + 1, x)
                } else {
                    x.1 == (toks[p].span.start..toks[e.0 - 1].span.end) && (x.0 matches Pattern::Tuple(xs)
                        && xs@.len() == e.1 && items_built(toks, p + 1, xs@))
                },
                None => false,
            },
            _ => false,
        }
    }
}

// ---------------------------------------------------------------- types

/// `t` is the constructor `u` applied to nothing.
pub open spec fn nullary_con(t: Type, u: Seq<char>) -> bool {
    t matches Type::Con(n, args) && n@ == u && args@.len() == 0
}

/// `t` is the type variable written `v`.
pub open spec fn rigid_named(t: Type, v: Seq<char>) -> bool {
    t matches Type::Rigid(n) && n@ == v
}

/// The tokens a type atom can start with.
pub open spec fn type_atom_start(t: Tok) -> bool {
    t is Upper || t is Ident || t is LBracket || t is LBrace || t is LParen
}

fn starts_type_atom(t: &Tok) -> (r: bool)
    ensures
        r == type_atom_start(*t),
{
    match t {
        Tok::Upper(_) | Tok::Ident(_) | Tok::LBracket | Tok::LBrace | Tok::LParen => true,
        _ => false,
    }
}

/// `type = btype ('->' type)?`
pub fn parse_type(toks: &Vec<Token>, pos: usize) -> (r: Result<(Spanned<Type>, usize), ParseError>)
    requires
        stream(toks@),
        pos < toks@.len(),
    ensures
        ends(r, type_end(toks@, pos as int)),
        moved(toks@, pos, r),
    decreases toks@.len() - pos, 3nat,
{
    let (a, p1) = parse_btype(toks, pos)?;
    match &toks[p1].tok {
        Tok::Arrow => {
            let (b, p2) = parse_type(toks, step(toks, p1))?;
            let span = a.1.start..b.1.end;
            Ok((Spanned(Type::Fun(Box::new(a.0), Box::new(b.0)), span), p2))
        },
        _ => Ok((a, p1)),
    }
}

/// `btype = Upper type_atom+ | type_atom`
fn parse_btype(toks: &Vec<Token>, pos: usize) -> (r: Result<(Spanned<Type>, usize), ParseError>)
    requires
        stream(toks@),
        pos < toks@.len(),
    ensures
        ends(r, btype_end(toks@, pos as int)),
        moved(toks@, pos, r),
    decreases toks@.len() - pos, 2nat,
{
    match &toks[pos].tok {
        Tok::Upper(u) => {
            if starts_type_atom(&toks[step(toks, pos)].tok) {
                let mut args: Vec<Type> = Vec::new();
                let mut cur = step(toks, pos);
                let mut end = toks[pos].span.end;
                while starts_type_atom(&toks[cur].tok)
                    invariant
                        stream(toks@),
                        pos < cur < toks@.len(),
                        btype_end(toks@, pos as int) == type_apps_end(toks@, cur as int),
                    decreases toks@.len() - cur,
                {
                    let (t, c2) = parse_type_atom(toks, cur)?;
                    end = t.1.end;
                    args.push(t.0);
                    cur = c2;
                }
                let start = toks[pos].span.start;
                Ok((Spanned(Type::Con(copy_string(u), args), start..end), cur))
            } else {
                parse_type_atom(toks, pos)
            }
        },
        _ => parse_type_atom(toks, pos),
    }
}

/// Types separated by commas up to `)`; the closer is consumed.
fn parse_type_list(toks: &Vec<Token>, pos: usize) -> (r: Result<(Vec<Spanned<Type>>, usize), ParseError>)
    requires
        stream(toks@),
        pos < toks@.len(),
    ensures
        ends_list(r, type_items_end(toks@, pos as int, true)),
        moved(toks@, pos, r),
    decreases toks@.len() - pos, 4nat,
{
    let mut items: Vec<Spanned<Type>> = Vec::new();
    let mut cur = pos;
    match &toks[cur].tok {
        Tok::RParen => {
            return Ok((items, step(toks, cur)));
        },
        _ => {},
    }
    loop
        invariant
            stream(toks@),
            pos <= cur < toks@.len(),
            items@.len() == 0 ==> cur == pos && !(toks@[pos as int].tok is RParen),
            type_items_end(toks@, pos as int, true) == shift(type_items_end(toks@, cur as int, items@.len() == 0), items@.len() as int),
        decreases toks@.len() - cur,
    {
        let (t, c2) = parse_type(toks, cur)?;
        items.push(t);
        cur = c2;
        match &toks[cur].tok {
            Tok::Comma => {
                cur = step(toks, cur);
            },
            Tok::RParen => {
                return Ok((items, step(toks, cur)));
            },
            _ => {
                return Err(expected(toks, cur, vec!["','", "')'"]));
            },
        }
    }
}

/// A record type's fields up to `}`; the closer is consumed.
fn parse_type_fields(toks: &Vec<Token>, pos: usize) -> (r: Result<(NameMap<Type>, usize), ParseError>)
    requires
        stream(toks@),
        pos < toks@.len(),
    ensures
        ends(r, type_fields_end(toks@, pos as int)),
        moved(toks@, pos, r),
        r matches Ok(x) ==> x.0.wf(),
    decreases toks@.len() - pos, 4nat,
{
    let mut fields: NameMap<Type> = NameMap::new();
    let mut cur = pos;
    loop
        invariant
            stream(toks@),
            pos <= cur < toks@.len(),
            fields.wf(),
            type_fields_end(toks@, pos as int) == type_fields_end(toks@, cur as int),
        decreases toks@.len() - cur,
    {
        match &toks[cur].tok {
            Tok::RBrace => {
                return Ok((fields, step(toks, cur)));
            },
            Tok::Ident(name) => {
                match &toks[step(toks, cur)].tok {
                    Tok::Colon => {},
                    _ => {
                        return Err(expected(toks, step(toks, cur), vec!["':'"]));
                    },
                }
                let (t, c2) = parse_type(toks, step(toks, step(toks, cur)))?;
                fields.insert(copy_string(name), t.0);
                cur = c2;
                match &toks[cur].tok {
                    Tok::Comma => {
                        cur = step(toks, cur);
                    },
                    Tok::RBrace => {},
                    _ => {
                        return Err(expected(toks, cur, vec!["','", "'}'"]));
                    },
                }
            },
            _ => {
                return Err(expected(toks, cur, vec!["something else", "'}'"]));
            },
        }
    }
}

/// `type_atom = Upper | ident | '[' type ']' | '{' fields '}' | '(' types ')'`
pub fn parse_type_atom(toks: &Vec<Token>, pos: usize) -> (r: Result<(Spanned<Type>, usize), ParseError>)
    requires
        stream(toks@),
        pos < toks@.len(),
    ensures
        ends(r, type_atom_end(toks@, pos as int)),
        moved(toks@, pos, r),
        toks@[pos as int].tok matches Tok::Upper(u) ==> (r matches Ok(x) && x.1 == pos + 1
            && x.0.1 == toks@[pos as int].span && nullary_con(x.0.0, u@)),
        toks@[pos as int].tok matches Tok::Ident(v) ==> (r matches Ok(x) && x.1 == pos + 1
            && x.0.1 == toks@[pos as int].span && rigid_named(x.0.0, v@)),
        !(toks@[pos as int].tok is Upper || toks@[pos as int].tok is Ident || toks@[pos as int].tok is LBracket
            || toks@[pos as int].tok is LBrace || toks@[pos as int].tok is LParen) ==> fails_at(toks@, pos, r),
    decreases toks@.len() - pos, 1nat,
{
    let start = toks[pos].span.start;
    match &toks[pos].tok {
        Tok::Upper(u) => Ok((Spanned(Type::Con(copy_string(u), Vec::new()), sp(&toks[pos].span)), step(toks, pos))),
        Tok::Ident(n) => Ok((Spanned(Type::Rigid(copy_string(n)), sp(&toks[pos].span)), step(toks, pos))),
        Tok::LBracket => {
            let (t, p1) = parse_type(toks, step(toks, pos))?;
            match &toks[p1].tok {
                Tok::RBracket => {
                    let mut args: Vec<Type> = Vec::new();
                    args.push(t.0);
                    let end = toks[p1].span.end;
                    Ok((Spanned(Type::Con("List".to_string(), args), start..end), step(toks, p1)))
                },
                _ => Err(expected(toks, p1, vec!["']'"])),
            }
        },
        Tok::LBrace => {
            let (fields, p1) = parse_type_fields(toks, step(toks, pos))?;
            let end = toks[(p1 - 1) as usize].span.end;
            Ok((Spanned(Type::Record(fields.entries, Row::Closed), start..end), p1))
        },
        Tok::LParen => {
            let (mut items, p1) = parse_type_list(toks, step(toks, pos))?;
            let end = toks[(p1 - 1) as usize].span.end;
            let n = items.len();
            if n == 0 {
                Ok((Spanned(Type::Tuple(Vec::new()), start..end), p1))
            } else if n == 1 {
                let t = items.pop().unwrap();
                Ok((t, p1))
            } else if n <= 3 {
                let mut ts: Vec<Type> = Vec::new();
                let mut rev: Vec<Type> = Vec::new();
                while items.len() > 0
                    decreases items.len(),
                {
                    let t = items.pop().unwrap();
                    rev.push(t.0);
                }
                while rev.len() > 0
                    decreases rev.len(),
                {
                    let t = rev.pop().unwrap();
                    ts.push(t);
                }
                Ok((Spanned(Type::Tuple(ts), start..end), p1))
            } else {
                Err(custom(TUPLE_TOO_LARGE_MESSAGE, start..end))
            }
        },
        _ => Err(expected(toks, pos, vec!["a type"])),
    }
}


// ------------------------------------------------------------- patterns

/// The tokens a pattern atom can start with.
pub open spec fn pattern_atom_start(t: Tok) -> bool {
    t is Float || t is Ident || t is Str || t is Char || t is Int || t is Upper || t is LBracket || t is LParen
        || (t matches Tok::Op(o) && o@ == "-"@)
}

fn starts_pattern_atom(t: &Tok) -> (r: bool)
    ensures
        r == pattern_atom_start(*t),
{
    match t {
        Tok::Float(_) | Tok::Ident(_) | Tok::Str(_) | Tok::Char(_) | Tok::Int(_) | Tok::Upper(_)
        | Tok::LBracket | Tok::LParen => true,
        Tok::Op(o) => str_eq(o.as_str(), "-"),
        _ => false,
    }
}

/// `pattern = (Upper atom+ | atom) ('::' pattern)?`
pub fn parse_pattern(toks: &Vec<Token>, pos: usize) -> (r: Result<(Spanned<Pattern>, usize), ParseError>)
    requires
        stream(toks@),
        pos < toks@.len(),
    ensures
        ends(r, pattern_end(toks@, pos as int)),
        moved(toks@, pos, r),
        r matches Ok(x) ==> pattern_built(toks@, pos as int, x.0),
    decreases toks@.len() - pos, 3nat,
{
    let (head, p1) = parse_ctor_or_atom(toks, pos)?;
    if is_op(&toks[p1].tok, "::") {
        let (tail, p2) = parse_pattern(toks, step(toks, p1))?;
        let span = head.1.start..tail.1.end;
        Ok((Spanned(Pattern::Cons(Box::new(head), Box::new(tail)), span), p2))
    } else {
        Ok((head, p1))
    }
}

fn parse_ctor_or_atom(toks: &Vec<Token>, pos: usize) -> (r: Result<(Spanned<Pattern>, usize), ParseError>)
    requires
        stream(toks@),
        pos < toks@.len(),
    ensures
        ends(r, ctor_or_atom_end(toks@, pos as int)),
        moved(toks@, pos, r),
        r matches Ok(x) ==> ctor_or_atom_built(toks@, pos as int, x.0),
    decreases toks@.len() - pos, 2nat,
{
    match &toks[pos].tok {
        Tok::Upper(u) => {
            if starts_pattern_atom(&toks[step(toks, pos)].tok) {
                let start = toks[pos].span.start;
                let mut end = toks[pos].span.end;
                let mut args: Vec<Spanned<Pattern>> = Vec::new();
                let mut cur = step(toks, pos);
                while starts_pattern_atom(&toks[cur].tok)
                    invariant
                        stream(toks@),
                        pos < cur < toks@.len(),
                        ctor_or_atom_end(toks@, pos as int) == pattern_apps_end(toks@, cur as int),
                        pattern_atom_start(toks@[pos + 1].tok),
                        args@.len() == 0 ==> cur == pos + 1,
                        args@.len() > 0 ==> end == args@.last().1.end,
                        args_upto(toks@, pos + 1, cur as int, args@),
                    decreases toks@.len() - cur,
                {
                    let (a, c2) = parse_pattern_atom(toks, cur)?;
                    proof {
                        lemma_args_snoc(toks@, pos + 1, cur as int, args@, a, c2 as int);
                    }
                    end = a.1.end;
                    args.push(a);
                    cur = c2;
                }
                Ok((Spanned(Pattern::Ctor(copy_string(u), args), start..end), cur))
            } else {
                parse_pattern_atom(toks, pos)
            }
        },
        _ => parse_pattern_atom(toks, pos),
    }
}

/// Patterns separated by commas up to `]` (with `square`, where a trailing
/// comma is allowed) or `)`; the closer is consumed.
fn parse_pattern_list(toks: &Vec<Token>, pos: usize, square: bool) -> (r: Result<(Vec<Spanned<Pattern>>, usize), ParseError>)
    requires
        stream(toks@),
        pos < toks@.len(),
    ensures
        ends_list(r, pattern_items_end(toks@, pos as int, square, true)),
        moved(toks@, pos, r),
        r matches Ok(x) ==> items_built(toks@, pos as int, x.0@),
    decreases toks@.len() - pos, 4nat,
{
    let mut items: Vec<Spanned<Pattern>> = Vec::new();
    let mut cur = pos;
    loop
        invariant
            stream(toks@),
            pos <= cur < toks@.len(),
            items@.len() == 0 ==> cur == pos,
            cur == item_pos(toks@, pos as int, items@.len()),
            items_built(toks@, pos as int, items@),
            pattern_items_end(toks@, pos as int, square, true) == shift(
                pattern_items_end(toks@, cur as int, square, items@.len() == 0),
                items@.len() as int,
            ),
        decreases toks@.len() - cur,
    {
        let closes = match &toks[cur].tok {
            Tok::RBracket => square,
            Tok::RParen => !square,
            _ => false,
        };
        if closes && (items.len() == 0 || square) {
            return Ok((items, step(toks, cur)));
        }
        let (p, c2) = parse_pattern(toks, cur)?;
        let ghost before = items@;
        items.push(p);
        proof {
            assert(item_pos(toks@, pos as int, (before.len() + 1) as nat) == c2 + 1);
            assert(items@.drop_last() =~= before);
            assert(items@.last() == p);
            assert(items_built(toks@, pos as int, items@));
        }
        cur = c2;
        match &toks[cur].tok {
            Tok::Comma => {
                cur = step(toks, cur);
            },
            Tok::RBracket if square => {
                return Ok((items, step(toks, cur)));
            },
            Tok::RParen if !square => {
                return Ok((items, step(toks, cur)));
            },
            _ => {
                return Err(expected(toks, cur, vec!["','", if square { "']'" } else { "')'" }]));
            },
        }
    }
}

/// Inside a run of one-token atoms, each token is one, and the run goes on
/// to the same end.
proof fn lemma_simple_len(toks: Seq<Token>, p: int, i: int)
    requires
        p <= i < p + simple_len(toks, p),
    ensures
        simple_atom(toks[i].tok),
        0 <= i < toks.len(),
        simple_len(toks, i) == simple_len(toks, p) - (i - p),
    decreases i - p,
{
    if i > p {
        lemma_simple_len(toks, p + 1, i);
    }
}

/// The span of an application run goes from its first atom to its last.
proof fn lemma_app_value_span(toks: Seq<Token>, pos: int, n: nat, e: Spanned<Expr>)
    requires
        n >= 1,
        app_value(toks, pos, n, e),
    ensures
        e.1.start == toks[pos].span.start,
        e.1.end == toks[pos + n - 1].span.end,
{
}

/// The cells of a folded list literal give back its items.
proof fn lemma_chain_items(xs: Seq<Spanned<Pattern>>, end: usize)
    ensures
        chain_items(chain_of(xs, end).0) == xs,
    decreases xs.len(),
{
    if xs.len() > 0 {
        lemma_chain_items(xs.drop_first(), end);
        assert(seq![xs[0]] + xs.drop_first() =~= xs);
    }
}

/// Appending an atom read where the others stopped extends the run.
proof fn lemma_args_snoc(toks: Seq<Token>, c: int, e: int, args: Seq<Spanned<Pattern>>, a: Spanned<Pattern>, q: int)
    requires
        args_upto(toks, c, e, args),
        0 <= e < toks.len(),
        pattern_atom_built(toks, e, a),
        pattern_atom_end(toks, e) == Some(q),
        e < q <= toks.len(),
    ensures
        args_upto(toks, c, q, args.push(a)),
    decreases args.len(),
{
    if args.len() == 0 {
        assert(args.push(a).drop_first() =~= Seq::<Spanned<Pattern>>::empty());
        assert(args_upto(toks, q, q, args.push(a).drop_first()));
        assert(args.push(a)[0] == a);
    } else {
        let q1 = pattern_atom_end(toks, c)->Some_0;
        lemma_args_snoc(toks, q1, e, args.drop_first(), a, q);
        assert(args.push(a).drop_first() =~= args.drop_first().push(a));
        assert(args.push(a)[0] == args[0]);
        assert(args_upto(toks, q1, q, args.push(a).drop_first()));
    }
}

/// One pattern atom: a literal, a name, `_`, a nullary constructor, a list
/// literal (folded into `::` cells ending in `[]`) or a parenthesized form.
fn parse_pattern_atom(toks: &Vec<Token>, pos: usize) -> (r: Result<(Spanned<Pattern>, usize), ParseError>)
    requires
        stream(toks@),
        pos < toks@.len(),
    ensures
        ends(r, pattern_atom_end(toks@, pos as int)),
        moved(toks@, pos, r),
        r matches Ok(x) ==> pattern_atom_built(toks@, pos as int, x.0),
    decreases toks@.len() - pos, 1nat,
{
    let start = toks[pos].span.start;
    let here = sp(&toks[pos].span);
    match &toks[pos].tok {
        Tok::Float(_) => Err(custom(FLOAT_PATTERN_MESSAGE, here)),
        Tok::Ident(n) => {
            if str_eq(n.as_str(), "_") {
                Ok((Spanned(Pattern::Wildcard, here), step(toks, pos)))
            } else {
                Ok((Spanned(Pattern::Var(copy_string(n)), here), step(toks, pos)))
            }
        },
        Tok::Str(s) => Ok((Spanned(Pattern::Str(copy_string(s)), here), step(toks, pos))),
        Tok::Char(c) => Ok((Spanned(Pattern::Char(*c), here), step(toks, pos))),
        Tok::Int(n) => Ok((Spanned(Pattern::Int(*n), here), step(toks, pos))),
        Tok::Upper(u) => Ok((Spanned(Pattern::Ctor(copy_string(u), Vec::new()), here), step(toks, pos))),
        Tok::Op(o) => {
            if !str_eq(o.as_str(), "-") {
                return Err(expected(toks, pos, vec!["a pattern"]));
            }
            let p1 = step(toks, pos);
            match &toks[p1].tok {
                Tok::Float(_) => Err(custom(FLOAT_PATTERN_MESSAGE, start..toks[p1].span.end)),
                Tok::Int(n) => {
                    if toks[pos].span.end == toks[p1].span.start && *n > i64::MIN {
                        Ok((Spanned(Pattern::Int(0 - *n), start..toks[p1].span.end), step(toks, p1)))
                    } else {
                        Err(custom("expected a pattern", start..toks[p1].span.end))
                    }
                },
                _ => Err(expected(toks, p1, vec!["something else"])),
            }
        },
        Tok::LBracket => {
            let (mut items, p1) = parse_pattern_list(toks, step(toks, pos), true)?;
            let ghost all = items@;
            let end = toks[(p1 - 1) as usize].span.end;
            let mut acc = Spanned(Pattern::Nil, end..end);
            proof {
                assert(all.subrange(all.len() as int, all.len() as int) =~= Seq::<Spanned<Pattern>>::empty());
            }
            while items.len() > 0
                invariant
                    items@.len() <= all.len(),
                    items@ == all.subrange(0, items@.len() as int),
                    acc == chain_of(all.subrange(items@.len() as int, all.len() as int), end),
                decreases items.len(),
            {
                let ghost k = items@.len() - 1;
                let h = items.pop().unwrap();
                proof {
                    assert(items@ =~= all.subrange(0, k));
                    assert(all.subrange(k, all.len() as int).drop_first() =~= all.subrange(k + 1, all.len() as int));
                    assert(all.subrange(k, all.len() as int)[0] == h);
                }
                let s2 = h.1.start..end;
                acc = Spanned(Pattern::Cons(Box::new(h), Box::new(acc)), s2);
            }
            proof {
                assert(all.subrange(0, all.len() as int) =~= all);
                lemma_chain_items(all, end);
            }
            Ok((Spanned(acc.0, start..end), p1))
        },
        Tok::LParen => {
            let (mut items, p1) = parse_pattern_list(toks, step(toks, pos), false)?;
            let ghost all = items@;
            proof {
                if all.len() == 1 {
                    assert(all.drop_last() =~= Seq::<Spanned<Pattern>>::empty());
                    assert(item_pos(toks@, pos + 1, 0) == pos + 1);
                }
            }
            let end = toks[(p1 - 1) as usize].span.end;
            let n = items.len();
            if n == 0 {
                Ok((Spanned(Pattern::Tuple(Vec::new()), start..end), p1))
            } else if n == 1 {
                let p = items.pop().unwrap();
                Ok((p, p1))
            } else if n <= 3 {
                Ok((Spanned(Pattern::Tuple(items), start..end), p1))
            } else {
                Err(custom(TUPLE_TOO_LARGE_MESSAGE, start..end))
            }
        },
        _ => Err(expected(toks, pos, vec!["a pattern"])),
    }
}


// ---------------------------------------------------------- expressions

/// The tokens an atom can start with.
pub open spec fn atom_start(t: Tok) -> bool {
    t is Str || t is StrPart || t is Int || t is Float || t is Char || t is Ident || t is Upper
        || t is LParen || t is LBracket || t is LBrace
}

/// `r` is an error located at token `pos`.
pub open spec fn fails_at<T>(toks: Seq<Token>, pos: usize, r: Result<T, ParseError>) -> bool {
    r matches Err(e) && e.span == toks[pos as int].span
}

/// `e` is the variable written `v`.
pub open spec fn var_named(e: Expr, v: Seq<char>) -> bool {
    e matches Expr::Var(n) && n@ == v
}

fn starts_atom(t: &Tok) -> (r: bool)
    ensures
        r == atom_start(*t),
{
    match t {
        Tok::Str(_) | Tok::StrPart(_) | Tok::Int(_) | Tok::Float(_) | Tok::Char(_) | Tok::Ident(_)
        | Tok::Upper(_) | Tok::LParen | Tok::LBracket | Tok::LBrace => true,
        _ => false,
    }
}

fn var_at(name: &str, at: usize) -> (r: Spanned<Expr>)
    ensures
        r.0 matches Expr::Var(n) && n@ == name@,
        r.1 == (at..at),
{
    let mut n = String::new();
    push_str(&mut n, name);
    Spanned(Expr::Var(n), at..at)
}

/// `expr = lambda | let | if | case | unary (op unary)*`
pub fn parse_expr(toks: &Vec<Token>, pos: usize) -> (r: Result<(Spanned<Expr>, usize), ParseError>)
    requires
        stream(toks@),
        pos < toks@.len(),
    ensures
        app_chain(toks@, pos as int) ==> (r matches Ok(x) && x.1 == pos + simple_len(toks@, pos as int) && app_value(
            toks@,
            pos as int,
            simple_len(toks@, pos as int),
            x.0,
        )),
        moved(toks@, pos, r),
        !atom_start(toks@[pos as int].tok) && !(toks@[pos as int].tok matches Tok::Op(o) && o@ == "-"@)
            && !(toks@[pos as int].tok is Backslash) && !(toks@[pos as int].tok is Let) && !(toks@[pos as int].tok is If)
            && !(toks@[pos as int].tok is Case) ==> fails_at(toks@, pos, r),
        toks@[pos as int].tok is Backslash && !(toks@[pos + 1].tok is Ident) ==> fails_at(toks@, pos, r),
    decreases toks@.len() - pos, 9nat,
{
    let start = toks[pos].span.start;
    match &toks[pos].tok {
        Tok::Backslash => {
            let mut cur = step(toks, pos);
            let mut params: Vec<Spanned<Pattern>> = Vec::new();
            loop
                invariant
                    stream(toks@),
                    pos < cur < toks@.len(),
                    params@.len() == 0 ==> cur == pos + 1,
                    params@.len() > 0 ==> toks@[pos + 1].tok is Ident,
                decreases toks@.len() - cur,
            {
                match &toks[cur].tok {
                    Tok::Ident(n) => {
                        params.push(Spanned(Pattern::Var(copy_string(n)), sp(&toks[cur].span)));
                        cur = step(toks, cur);
                    },
                    _ => {
                        break;
                    },
                }
            }
            let has_arrow = match &toks[cur].tok {
                Tok::Arrow => true,
                _ => false,
            };
            if params.len() == 0 || !has_arrow {
                // a lambda missing its parameters or its arrow is reported at
                // the backslash, with the shape of a lambda as a hint
                return Err(expected(toks, pos, vec!["something else"]));
            }
            let (body, p2) = parse_expr(toks, step(toks, cur))?;
            let end = body.1.end;
            let mut e = body;
            while params.len() > 0
                decreases params.len(),
            {
                let p = params.pop().unwrap();
                e = Spanned(Expr::Lam { param: p, body: Box::new(e) }, start..end);
            }
            Ok((e, p2))
        },
        Tok::Let => {
            let p1 = step(toks, pos);
            if !is_block_open(&toks[p1].tok) {
                return Err(expected(toks, p1, vec!["'{'"]));
            }
            let block_start = toks[p1].span.start;
            let (items, p2) = parse_decl_block(toks, step(toks, p1))?;
            let block_end = toks[(p2 - 1) as usize].span.end;
            match fold_decls_check_duplicates(&items) {
                Err(pe) => {
                    return Err(ParseError { msg: pe.msg, span: block_start..block_end });
                },
                Ok(()) => {},
            }
            match &toks[p2].tok {
                Tok::In => {},
                _ => {
                    return Err(expected(toks, p2, vec!["'in'"]));
                },
            }
            let (body, p3) = parse_expr(toks, step(toks, p2))?;
            let end = body.1.end;
            match fold_decls(items) {
                Err(pe) => Err(ParseError { msg: pe.msg, span: start..end }),
                Ok(decls) => Ok((Spanned(Expr::Let { decls, body: Box::new(body) }, start..end), p3)),
            }
        },
        Tok::If => {
            let (cond, p1) = parse_expr(toks, step(toks, pos))?;
            match &toks[p1].tok {
                Tok::Then => {},
                _ => {
                    return Err(expected(toks, p1, vec!["'then'"]));
                },
            }
            let (then_, p2) = parse_expr(toks, step(toks, p1))?;
            match &toks[p2].tok {
                Tok::Else => {},
                _ => {
                    return Err(expected(toks, p2, vec!["'else'"]));
                },
            }
            let (else_, p3) = parse_expr(toks, step(toks, p2))?;
            let end = else_.1.end;
            Ok((Spanned(Expr::If { cond: Box::new(cond), then_: Box::new(then_), else_: Box::new(else_) }, start..end), p3))
        },
        Tok::Case => {
            let (scrutinee, p1) = parse_expr(toks, step(toks, pos))?;
            match &toks[p1].tok {
                Tok::Of => {},
                _ => {
                    return Err(expected(toks, p1, vec!["'of'"]));
                },
            }
            let p2 = step(toks, p1);
            if !is_block_open(&toks[p2].tok) {
                return Err(expected(toks, p2, vec!["'{'"]));
            }
            let (arms, p3) = parse_arms(toks, step(toks, p2))?;
            let end = scrutinee.1.end;
            Ok((Spanned(Expr::Case { scrutinee: Box::new(scrutinee), arms }, start..end), p3))
        },
        _ => parse_binary(toks, pos),
    }
}

/// `binary = unary (op unary)*`, grouped by `fold_operators`.
fn parse_binary(toks: &Vec<Token>, pos: usize) -> (r: Result<(Spanned<Expr>, usize), ParseError>)
    requires
        stream(toks@),
        pos < toks@.len(),
    ensures
        app_chain(toks@, pos as int) ==> (r matches Ok(x) && x.1 == pos + simple_len(toks@, pos as int) && app_value(
            toks@,
            pos as int,
            simple_len(toks@, pos as int),
            x.0,
        )),
        moved(toks@, pos, r),
        !atom_start(toks@[pos as int].tok) && !(toks@[pos as int].tok matches Tok::Op(o) && o@ == "-"@) ==> fails_at(toks@, pos, r),
    decreases toks@.len() - pos, 8nat,
{
    let (head, p1) = parse_unary(toks, pos)?;
    let start = head.1.start;
    let mut end = head.1.end;
    let mut rest: Vec<((String, Span), Spanned<Expr>)> = Vec::new();
    let mut cur = p1;
    loop
        invariant
            stream(toks@),
            pos < cur < toks@.len(),
            atom_start(toks@[pos as int].tok) || (toks@[pos as int].tok matches Tok::Op(o) && o@ == "-"@),
            app_chain(toks@, pos as int) ==> cur == pos + simple_len(toks@, pos as int) && rest@.len() == 0 && app_value(
                toks@,
                pos as int,
                simple_len(toks@, pos as int),
                head,
            ),
        decreases toks@.len() - cur,
    {
        match &toks[cur].tok {
            Tok::Op(o) => {
                let op = copy_string(o);
                let op_span = sp(&toks[cur].span);
                let (operand, c2) = parse_unary(toks, step(toks, cur))?;
                end = operand.1.end;
                rest.push(((op, op_span), operand));
                cur = c2;
            },
            _ => {
                break;
            },
        }
    }
    if rest.len() == 0 {
        return Ok((head, cur));
    }
    match fold_operators(head, rest) {
        Ok(e) => Ok((e, cur)),
        Err(msg) => Err(ParseError { msg, span: start..end }),
    }
}

/// `unary = '-'* app`: each `-` negates what follows.
fn parse_unary(toks: &Vec<Token>, pos: usize) -> (r: Result<(Spanned<Expr>, usize), ParseError>)
    requires
        stream(toks@),
        pos < toks@.len(),
    ensures
        app_chain(toks@, pos as int) ==> (r matches Ok(x) && x.1 == pos + simple_len(toks@, pos as int) && app_value(
            toks@,
            pos as int,
            simple_len(toks@, pos as int),
            x.0,
        )),
        moved(toks@, pos, r),
        !atom_start(toks@[pos as int].tok) && !(toks@[pos as int].tok matches Tok::Op(o) && o@ == "-"@) ==> fails_at(toks@, pos, r),
    decreases toks@.len() - pos, 7nat,
{
    let mut starts: Vec<usize> = Vec::new();
    let mut cur = pos;
    while is_op(&toks[cur].tok, "-")
        invariant
            stream(toks@),
            pos <= cur < toks@.len(),
            cur == pos || (toks@[pos as int].tok matches Tok::Op(o) && o@ == "-"@),
            app_chain(toks@, pos as int) ==> cur == pos && starts@.len() == 0,
        decreases toks@.len() - cur,
    {
        starts.push(toks[cur].span.start);
        cur = step(toks, cur);
    }
    let (operand, p1) = parse_app(toks, cur)?;
    let end = operand.1.end;
    let mut e = operand;
    while starts.len() > 0
        invariant
            app_chain(toks@, pos as int) ==> starts@.len() == 0 && app_value(toks@, pos as int, simple_len(toks@, pos as int), e)
                && p1 == pos + simple_len(toks@, pos as int),
        decreases starts.len(),
    {
        let s = starts.pop().unwrap();
        let negate = var_at("negate", s);
        e = Spanned(Expr::App(Box::new(negate), Box::new(e)), s..end);
    }
    Ok((e, p1))
}

/// `app = postfix postfix*`: application by juxtaposition.
fn parse_app(toks: &Vec<Token>, pos: usize) -> (r: Result<(Spanned<Expr>, usize), ParseError>)
    requires
        stream(toks@),
        pos < toks@.len(),
    ensures
        app_chain(toks@, pos as int) ==> (r matches Ok(x) && x.1 == pos + simple_len(toks@, pos as int) && app_value(
            toks@,
            pos as int,
            simple_len(toks@, pos as int),
            x.0,
        )),
        moved(toks@, pos, r),
        !atom_start(toks@[pos as int].tok) ==> fails_at(toks@, pos, r),
    decreases toks@.len() - pos, 6nat,
{
    proof {
        if app_chain(toks@, pos as int) {
            lemma_simple_len(toks@, pos as int, pos as int);
            if 1 < simple_len(toks@, pos as int) {
                lemma_simple_len(toks@, pos as int, pos + 1);
            }
        }
    }
    let (f, p1) = parse_postfix(toks, pos)?;
    let mut e = f;
    let mut cur = p1;
    while starts_atom(&toks[cur].tok)
        invariant
            stream(toks@),
            pos < cur < toks@.len(),
            atom_start(toks@[pos as int].tok),
            app_chain(toks@, pos as int) ==> pos < cur <= pos + simple_len(toks@, pos as int) && app_value(
                toks@,
                pos as int,
                (cur - pos) as nat,
                e,
            ),
        decreases toks@.len() - cur,
    {
        proof {
            if app_chain(toks@, pos as int) {
                let n = simple_len(toks@, pos as int);
                if cur < pos + n {
                    lemma_simple_len(toks@, pos as int, cur as int);
                    if cur + 1 < pos + n {
                        lemma_simple_len(toks@, pos as int, cur + 1);
                    }
                    lemma_app_value_span(toks@, pos as int, (cur - pos) as nat, e);
                }
            }
        }
        let (x, c2) = parse_postfix(toks, cur)?;
        let span = e.1.start..x.1.end;
        e = Spanned(Expr::App(Box::new(e), Box::new(x)), span);
        cur = c2;
    }
    proof {
        if app_chain(toks@, pos as int) && cur < pos + simple_len(toks@, pos as int) {
            lemma_simple_len(toks@, pos as int, cur as int);
        }
    }
    Ok((e, cur))
}

/// `postfix = atom ('.' field)*`: record field access.
fn parse_postfix(toks: &Vec<Token>, pos: usize) -> (r: Result<(Spanned<Expr>, usize), ParseError>)
    requires
        stream(toks@),
        pos < toks@.len(),
    ensures
        simple_atom(toks@[pos as int].tok) && pos + 1 < toks@.len() && !(toks@[pos + 1].tok is Dot) ==> (r matches Ok(x)
            && x.1 == pos + 1 && atom_value(toks@, pos as int, x.0)),
        moved(toks@, pos, r),
        !atom_start(toks@[pos as int].tok) ==> fails_at(toks@, pos, r),
    decreases toks@.len() - pos, 5nat,
{
    let (a, p1) = parse_atom(toks, pos)?;
    let mut e = a;
    let mut cur = p1;
    loop
        invariant
            stream(toks@),
            pos < cur < toks@.len(),
            simple_atom(toks@[pos as int].tok) && pos + 1 < toks@.len() && !(toks@[pos + 1].tok is Dot) ==> cur == pos + 1
                && atom_value(toks@, pos as int, e),
        decreases toks@.len() - cur,
    {
        let is_dot = match &toks[cur].tok {
            Tok::Dot => true,
            _ => false,
        };
        if !is_dot {
            break;
        }
        let c1 = step(toks, cur);
        match &toks[c1].tok {
            Tok::Ident(field) => {
                let span = sp(&e.1);
                e = Spanned(Expr::Field(Box::new(e), copy_string(field)), span);
                cur = step(toks, c1);
            },
            _ => {
                break;
            },
        }
    }
    Ok((e, cur))
}

/// Expressions separated by commas up to `]` (with `square`, where a trailing
/// comma is allowed) or `)`; the closer is consumed.
fn parse_expr_list(toks: &Vec<Token>, pos: usize, square: bool) -> (r: Result<(Vec<Spanned<Expr>>, usize), ParseError>)
    requires
        stream(toks@),
        pos < toks@.len(),
    ensures
        closes(toks@[pos as int].tok, square) ==> (r matches Ok(x) && x.1 == pos + 1 && x.0@.len() == 0),
        !closes(toks@[pos as int].tok, square) && !expr_start(toks@[pos as int].tok) ==> fails_at(toks@, pos, r),
        moved(toks@, pos, r),
    decreases toks@.len() - pos, 10nat,
{
    let mut items: Vec<Spanned<Expr>> = Vec::new();
    let mut cur = pos;
    loop
        invariant
            stream(toks@),
            pos <= cur < toks@.len(),
            items@.len() == 0 ==> cur == pos,
            items@.len() > 0 ==> expr_start(toks@[pos as int].tok),
        decreases toks@.len() - cur,
    {
        let closes = match &toks[cur].tok {
            Tok::RBracket => square,
            Tok::RParen => !square,
            _ => false,
        };
        if closes && (items.len() == 0 || square) {
            return Ok((items, step(toks, cur)));
        }
        let (x, c2) = parse_expr(toks, cur)?;
        items.push(x);
        cur = c2;
        match &toks[cur].tok {
            Tok::Comma => {
                cur = step(toks, cur);
            },
            Tok::RBracket if square => {
                return Ok((items, step(toks, cur)));
            },
            Tok::RParen if !square => {
                return Ok((items, step(toks, cur)));
            },
            _ => {
                return Err(expected(toks, cur, vec!["','", if square { "']'" } else { "')'" }]));
            },
        }
    }
}

/// `field = expr` pairs separated by commas up to `}`; the closer is
/// consumed. A field written twice keeps its last value.
fn parse_expr_fields(toks: &Vec<Token>, pos: usize) -> (r: Result<(NameMap<Spanned<Expr>>, usize), ParseError>)
    requires
        stream(toks@),
        pos < toks@.len(),
    ensures
        toks@[pos as int].tok is RBrace ==> (r matches Ok(x) && x.1 == pos + 1 && x.0.entries@.len() == 0),
        !(toks@[pos as int].tok is RBrace || toks@[pos as int].tok is Ident) ==> fails_at(toks@, pos, r),
        toks@[pos as int].tok is Ident && !(toks@[pos + 1].tok is Equals) ==> fails_at(toks@, (pos + 1) as usize, r),
        toks@[pos as int].tok is Ident && toks@[pos + 1].tok is Equals && !expr_start(toks@[pos + 2].tok)
            ==> fails_at(toks@, (pos + 2) as usize, r),
        moved(toks@, pos, r),
        r matches Ok(x) ==> x.0.wf(),
    decreases toks@.len() - pos, 10nat,
{
    let mut fields: NameMap<Spanned<Expr>> = NameMap::new();
    let mut cur = pos;
    loop
        invariant
            stream(toks@),
            pos <= cur < toks@.len(),
            fields.wf(),
            cur == pos ==> fields.entries@.len() == 0,
            cur > pos ==> toks@[pos as int].tok is Ident && toks@[pos + 1].tok is Equals && expr_start(toks@[pos + 2].tok),
        decreases toks@.len() - cur,
    {
        match &toks[cur].tok {
            Tok::RBrace => {
                return Ok((fields, step(toks, cur)));
            },
            Tok::Ident(name) => {
                let c1 = step(toks, cur);
                match &toks[c1].tok {
                    Tok::Equals => {},
                    _ => {
                        return Err(expected(toks, c1, vec!["'='"]));
                    },
                }
                let (x, c2) = parse_expr(toks, step(toks, c1))?;
                fields.insert(copy_string(name), x);
                cur = c2;
                match &toks[cur].tok {
                    Tok::Comma => {
                        cur = step(toks, cur);
                    },
                    Tok::RBrace => {},
                    _ => {
                        return Err(expected(toks, cur, vec!["','", "'}'"]));
                    },
                }
            },
            _ => {
                return Err(expected(toks, cur, vec!["something else", "'}'"]));
            },
        }
    }
}

proof fn lemma_sorted_fields(fs: Seq<(String, Spanned<Expr>)>)
    requires
        crate::names::sorted_keys(fs),
    ensures
        crate::parser::sorted_keys(fs),
{
    assert forall|i: int, j: int| 0 <= i < j < fs.len() implies crate::text::seq_lt(
        #[trigger] crate::parser::key_of(fs, i),
        #[trigger] crate::parser::key_of(fs, j),
    ) by {
        assert(crate::text::seq_lt(fs[i].0@, fs[j].0@));
    }
}

/// One atom: a literal, an interpolated string, a name, a qualified name, a
/// constructor, a reserved constructor with its fields, a policy word, a
/// parenthesized form, a list or a record.
fn parse_atom(toks: &Vec<Token>, pos: usize) -> (r: Result<(Spanned<Expr>, usize), ParseError>)
    requires
        stream(toks@),
        pos < toks@.len(),
    ensures
        simple_atom(toks@[pos as int].tok) ==> (r matches Ok(x) && x.1 == pos + 1 && atom_value(toks@, pos as int, x.0)),
        moved(toks@, pos, r),
        !atom_start(toks@[pos as int].tok) ==> fails_at(toks@, pos, r),
        toks@[pos as int].tok matches Tok::Int(n) ==> (r matches Ok(x) && x.1 == pos + 1
            && x.0.1 == toks@[pos as int].span && x.0.0 == Expr::Int(n)),
        toks@[pos as int].tok matches Tok::Char(c) ==> (r matches Ok(x) && x.1 == pos + 1
            && x.0.1 == toks@[pos as int].span && x.0.0 == Expr::Char(c)),
        toks@[pos as int].tok is Ident && !reserved_spec(toks@[pos as int].tok->Ident_0@) ==> (r matches Ok(x) && x.1
            == pos + 1 && x.0.1 == toks@[pos as int].span && var_named(x.0.0, toks@[pos as int].tok->Ident_0@)),
    decreases toks@.len() - pos, 4nat,
{
    let start = toks[pos].span.start;
    let here = sp(&toks[pos].span);
    match &toks[pos].tok {
        Tok::Str(s) => Ok((Spanned(Expr::Str(copy_string(s)), here), step(toks, pos))),
        Tok::Int(n) => Ok((Spanned(Expr::Int(*n), here), step(toks, pos))),
        Tok::Float(x) => Ok((Spanned(Expr::Float(copy_string(x)), here), step(toks, pos))),
        Tok::Char(c) => Ok((Spanned(Expr::Char(*c), here), step(toks, pos))),
        Tok::StrPart(s) => {
            let mut pieces: Vec<Spanned<Expr>> = Vec::new();
            pieces.push(Spanned(Expr::Str(copy_string(s)), here));
            let mut cur = step(toks, pos);
            loop
                invariant
                    stream(toks@),
                    pos < cur < toks@.len(),
                    toks@[pos as int].tok is StrPart,
                decreases toks@.len() - cur,
            {
                let opens = match &toks[cur].tok {
                    Tok::InterpStart => true,
                    _ => false,
                };
                if !opens {
                    break;
                }
                let (embedded, c2) = parse_expr(toks, step(toks, cur))?;
                match &toks[c2].tok {
                    Tok::InterpEnd => {},
                    _ => {
                        return Err(expected(toks, c2, vec!["'}'"]));
                    },
                }
                let c3 = step(toks, c2);
                match &toks[c3].tok {
                    Tok::StrPart(lit) => {
                        pieces.push(embedded);
                        pieces.push(Spanned(Expr::Str(copy_string(lit)), sp(&toks[c3].span)));
                        cur = step(toks, c3);
                    },
                    _ => {
                        return Err(expected(toks, c3, vec!["something else"]));
                    },
                }
            }
            if pieces.len() == 1 {
                return Err(expected(toks, cur, vec!["'${'"]));
            }
            let end = toks[(cur - 1) as usize].span.end;
            let list = Spanned(Expr::List(pieces), start..end);
            let concat = var_at("String.concat", start);
            Ok((Spanned(Expr::App(Box::new(concat), Box::new(list)), start..end), cur))
        },
        Tok::Ident(name) => {
            let p1 = step(toks, pos);
            if str_eq(name.as_str(), "rollback") || str_eq(name.as_str(), "keep") {
                let braced = match &toks[p1].tok {
                    Tok::LBrace => true,
                    _ => false,
                };
                if braced {
                    let mut msg = String::new();
                    push_str(&mut msg, "`");
                    push_str(&mut msg, name.as_str());
                    push_str(&mut msg, "` is written without braces (e.g. `policy = ");
                    push_str(&mut msg, name.as_str());
                    push_str(&mut msg, "`)");
                    return Err(ParseError { msg, span: here });
                }
                let tag = if str_eq(name.as_str(), "rollback") {
                    OnExhaustTag::Rollback
                } else {
                    OnExhaustTag::Keep
                };
                return Ok((Spanned(Expr::PolicyExhaust(tag), here), p1));
            }
            if is_reserved_constructor(name.as_str()) {
                match &toks[p1].tok {
                    Tok::LBrace => {},
                    _ => {
                        return Err(expected(toks, p1, vec!["'{'"]));
                    },
                }
                let (fields, p2) = parse_expr_fields(toks, step(toks, p1))?;
                let entries = fields.entries;
                proof {
                    lemma_sorted_fields(entries@);
                }
                // a constructor and its field errors are located at its word
                let e = build_constructor(name.as_str(), entries, sp(&here))?;
                return Ok((Spanned(e, here), p2));
            }
            Ok((Spanned(Expr::Var(copy_string(name)), here), p1))
        },
        Tok::Upper(u) => {
            let p1 = step(toks, pos);
            let dot_adjacent = match &toks[p1].tok {
                Tok::Dot => toks[pos].span.end == toks[p1].span.start,
                _ => false,
            };
            if dot_adjacent {
                let p2 = step(toks, p1);
                match &toks[p2].tok {
                    Tok::Ident(member) => {
                        if toks[p1].span.end == toks[p2].span.start {
                            let mut q = String::new();
                            push_str(&mut q, u.as_str());
                            push_str(&mut q, ".");
                            push_str(&mut q, member.as_str());
                            let end = toks[p2].span.end;
                            return Ok((Spanned(Expr::Var(q), start..end), step(toks, p2)));
                        }
                    },
                    _ => {},
                }
            }
            Ok((Spanned(Expr::Ctor(copy_string(u)), here), p1))
        },
        Tok::LParen => {
            let (mut items, p1) = parse_expr_list(toks, step(toks, pos), false)?;
            let end = toks[(p1 - 1) as usize].span.end;
            let n = items.len();
            if n == 0 {
                Ok((Spanned(Expr::Tuple(Vec::new()), start..end), p1))
            } else if n == 1 {
                let e = items.pop().unwrap();
                Ok((e, p1))
            } else if n <= 3 {
                Ok((Spanned(Expr::Tuple(items), start..end), p1))
            } else {
                Err(custom(TUPLE_TOO_LARGE_MESSAGE, start..end))
            }
        },
        Tok::LBracket => {
            let (items, p1) = parse_expr_list(toks, step(toks, pos), true)?;
            let end = toks[(p1 - 1) as usize].span.end;
            Ok((Spanned(Expr::List(items), start..end), p1))
        },
        Tok::LBrace => {
            let (fields, p1) = parse_expr_fields(toks, step(toks, pos))?;
            let end = toks[(p1 - 1) as usize].span.end;
            Ok((Spanned(Expr::Record(fields.entries), start..end), p1))
        },
        _ => Err(expected(toks, pos, vec!["something else"])),
    }
}

/// The arms of a `case` after its opening brace, up to and including the
/// closing one.
fn parse_arms(toks: &Vec<Token>, pos: usize) -> (r: Result<(Vec<Arm>, usize), ParseError>)
    requires
        stream(toks@),
        pos < toks@.len(),
    ensures
        block_close(toks@[semis_end(toks@, pos as int)].tok) ==> (r matches Ok(x) && x.1 == semis_end(toks@, pos as int) + 1
            && x.0@.len() == 0),
        !block_close(toks@[semis_end(toks@, pos as int)].tok) && pattern_end(toks@, semis_end(toks@, pos as int)) is None
            ==> r is Err,
        ({
            let q = semis_end(toks@, pos as int);
            let e = pattern_end(toks@, q)->Some_0;
            !block_close(toks@[q].tok) && pattern_end(toks@, q) is Some && op_is(toks@[e].tok, "=>"@) ==> (r matches Err(
                err,
            ) && err.span == toks@[e].span && err.msg@ == "case arms use `->`, not `=>`"@)
        }),
        ({
            let q = semis_end(toks@, pos as int);
            let e = pattern_end(toks@, q)->Some_0;
            !block_close(toks@[q].tok) && pattern_end(toks@, q) is Some && !(toks@[e].tok is Arrow) && !op_is(
                toks@[e].tok,
                "=>"@,
            ) ==> fails_at(toks@, e as usize, r)
        }),
        moved(toks@, pos, r),
    decreases toks@.len() - pos, 10nat,
{
    let mut arms: Vec<Arm> = Vec::new();
    let mut cur = pos;
    loop
        invariant
            stream(toks@),
            pos <= cur < toks@.len(),
            arms@.len() == 0 ==> semis_end(toks@, pos as int) == semis_end(toks@, cur as int),
            arms@.len() > 0 ==> ({
                let q = semis_end(toks@, pos as int);
                !block_close(toks@[q].tok) && pattern_end(toks@, q) is Some && toks@[pattern_end(toks@, q)->Some_0].tok is Arrow
            }),
        decreases toks@.len() - cur,
    {
        if is_vsemi(&toks[cur].tok) {
            cur = step(toks, cur);
        } else if is_block_close(&toks[cur].tok) {
            return Ok((arms, step(toks, cur)));
        } else {
            let (pat, c1) = parse_pattern(toks, cur)?;
            match &toks[c1].tok {
                Tok::Arrow => {},
                Tok::Op(o) => {
                    if str_eq(o.as_str(), "=>") {
                        return Err(custom("case arms use `->`, not `=>`", sp(&toks[c1].span)));
                    }
                    return Err(expected(toks, c1, vec!["'->'"]));
                },
                _ => {
                    return Err(expected(toks, c1, vec!["'->'"]));
                },
            }
            let (body, c2) = parse_expr(toks, step(toks, c1))?;
            let is_let = match &body.0 {
                Expr::Let { .. } => true,
                _ => false,
            };
            if is_let {
                return Err(custom(
                    "`let \u{2026} in` inside a `case` arm is not yet supported here \u{2014} lift the binding out of the arm",
                    sp(&body.1),
                ));
            }
            arms.push(Arm { pat, body });
            cur = c2;
            if !is_vsemi(&toks[cur].tok) && !is_block_close(&toks[cur].tok) {
                return Err(expected(toks, cur, vec!["';'", "'}'"]));
            }
        }
    }
}

/// One item of a declaration block: a signature `name : type` or a binding
/// `name param* = expr`. A reserved constructor word cannot be bound.
fn parse_decl_item(toks: &Vec<Token>, pos: usize) -> (r: Result<(DeclItem, usize), ParseError>)
    requires
        stream(toks@),
        pos < toks@.len(),
    ensures
        head_fails(toks@, pos as int) ==> fails_at(toks@, pos, r),
        is_sig(toks@, pos as int) ==> ends(r, type_end(toks@, pos + 2)) && (r matches Ok(x) ==> x.0 is Sig),
        ({
            let q = idents_end(toks@, pos + 1);
            !head_fails(toks@, pos as int) && !is_sig(toks@, pos as int) && !(toks@[q].tok is Equals)
                ==> fails_at(toks@, q as usize, r)
        }),
        ({
            let q = idents_end(toks@, pos + 1);
            !head_fails(toks@, pos as int) && !is_sig(toks@, pos as int) && toks@[q].tok is Equals && !expr_start(
                toks@[q + 1].tok,
            ) ==> fails_at(toks@, (q + 1) as usize, r)
        }),
        r is Ok && !is_sig(toks@, pos as int) ==> binds_with(r->Ok_0.0, idents_end(toks@, pos + 1) - (pos + 1)),
        moved(toks@, pos, r),
    decreases toks@.len() - pos, 10nat,
{
    let start = toks[pos].span.start;
    match &toks[pos].tok {
        Tok::Ident(name) => {
            check_binding_name(name.as_str(), &toks[pos].span)?;
            let p1 = step(toks, pos);
            match &toks[p1].tok {
                Tok::Colon => {
                    let (ty, p2) = parse_type(toks, step(toks, p1))?;
                    let end = ty.1.end;
                    return Ok((DeclItem::Sig { name: copy_string(name), ty, span: start..end }, p2));
                },
                _ => {},
            }
            let mut params: Vec<Spanned<Pattern>> = Vec::new();
            let mut cur = p1;
            loop
                invariant
                    stream(toks@),
                    pos < cur < toks@.len(),
                    p1 == pos + 1,
                    idents_end(toks@, pos + 1) == idents_end(toks@, cur as int),
                    params@.len() == cur - (pos + 1),
                ensures
                    pos < cur < toks@.len(),
                    idents_end(toks@, pos + 1) == cur,
                    params@.len() == cur - (pos + 1),
                decreases toks@.len() - cur,
            {
                match &toks[cur].tok {
                    Tok::Ident(n) => {
                        params.push(Spanned(Pattern::Var(copy_string(n)), sp(&toks[cur].span)));
                        cur = step(toks, cur);
                    },
                    _ => {
                        break;
                    },
                }
            }
            match &toks[cur].tok {
                Tok::Equals => {},
                _ => {
                    if params.len() == 0 {
                        return Err(expected(toks, cur, vec!["':'", "something else", "'='"]));
                    }
                    return Err(expected(toks, cur, vec!["something else", "'='"]));
                },
            }
            let (body, p2) = parse_expr(toks, step(toks, cur))?;
            let end = body.1.end;
            Ok((DeclItem::Bind { name: copy_string(name), params, body, span: start..end }, p2))
        },
        _ => Err(expected(toks, pos, vec!["something else"])),
    }
}

/// The items of a `let` block after its opening brace, up to and including
/// the closing one.
fn parse_decl_block(toks: &Vec<Token>, pos: usize) -> (r: Result<(Vec<DeclItem>, usize), ParseError>)
    requires
        stream(toks@),
        pos < toks@.len(),
    ensures
        block_close(toks@[semis_end(toks@, pos as int)].tok) ==> (r matches Ok(x) && x.1 == semis_end(toks@, pos as int) + 1
            && x.0@.len() == 0),
        !block_close(toks@[semis_end(toks@, pos as int)].tok) && head_fails(toks@, semis_end(toks@, pos as int))
            ==> fails_at(toks@, semis_end(toks@, pos as int) as usize, r),
        !block_close(toks@[semis_end(toks@, pos as int)].tok) && is_sig(toks@, semis_end(toks@, pos as int))
            && type_end(toks@, semis_end(toks@, pos as int) + 2) is None ==> r is Err,
        moved(toks@, pos, r),
    decreases toks@.len() - pos, 11nat,
{
    let mut items: Vec<DeclItem> = Vec::new();
    let mut cur = pos;
    loop
        invariant
            stream(toks@),
            pos <= cur < toks@.len(),
            items@.len() == 0 ==> semis_end(toks@, pos as int) == semis_end(toks@, cur as int),
            items@.len() > 0 ==> ({
                let q = semis_end(toks@, pos as int);
                !block_close(toks@[q].tok) && !head_fails(toks@, q) && (is_sig(toks@, q) ==> type_end(toks@, q + 2) is Some)
            }),
        decreases toks@.len() - cur,
    {
        if is_vsemi(&toks[cur].tok) {
            cur = step(toks, cur);
        } else if is_block_close(&toks[cur].tok) {
            return Ok((items, step(toks, cur)));
        } else {
            let (item, c1) = parse_decl_item(toks, cur)?;
            items.push(item);
            cur = c1;
            if !is_vsemi(&toks[cur].tok) && !is_block_close(&toks[cur].tok) {
                return Err(expected(toks, cur, vec!["';'", "'}'"]));
            }
        }
    }
}


// --------------------------------------------------------------- module

/// Where a run of identifiers read from `p` ends.
pub open spec fn idents_end(toks: Seq<Token>, p: int) -> int
    decreases toks.len() - p,
{
    if 0 <= p < toks.len() && toks[p].tok is Ident {
        idents_end(toks, p + 1)
    } else {
        p
    }
}

/// Where `Variant atom* ('|' Variant atom*)*` read from `p` ends.
pub open spec fn variants_end(toks: Seq<Token>, p: int) -> Option<int>
    decreases toks.len() - p,
{
    if !(0 <= p < toks.len() - 1) || !(toks[p].tok is Upper) {
        None
    } else {
        match type_apps_end(toks, p + 1) {
            Some(e) => if p < e < toks.len() && (toks[e].tok matches Tok::Op(o) && o@ == "|"@) {
                variants_end(toks, e + 1)
            } else {
                Some(e)
            },
            None => None,
        }
    }
}

/// Where `type Name param* = variants` read from `p` (at `type`) ends.
pub open spec fn type_decl_end(toks: Seq<Token>, p: int) -> Option<int> {
    if !(0 <= p < toks.len() - 2) || !(toks[p + 1].tok is Upper) {
        None
    } else {
        let q = idents_end(toks, p + 2);
        if q < toks.len() && toks[q].tok is Equals {
            variants_end(toks, q + 1)
        } else {
            None
        }
    }
}

/// `type Name param* = Variant atom* ('|' Variant atom*)*`
fn parse_type_decl(toks: &Vec<Token>, pos: usize) -> (r: Result<(TypeDecl, usize), ParseError>)
    requires
        stream(toks@),
        pos < toks@.len(),
        toks@[pos as int].tok is Type,
    ensures
        moved(toks@, pos, r),
        ends(r, type_decl_end(toks@, pos as int)),
{
    let start = toks[pos].span.start;
    let p1 = step(toks, pos);
    let name = match &toks[p1].tok {
        Tok::Upper(u) => copy_string(u),
        _ => {
            return Err(expected(toks, p1, vec!["something else"]));
        },
    };
    let mut params: Vec<String> = Vec::new();
    let mut cur = step(toks, p1);
    loop
        invariant
            stream(toks@),
            pos < cur < toks@.len(),
            toks@[pos + 1].tok is Upper,
            idents_end(toks@, pos + 2) == idents_end(toks@, cur as int),
        ensures
            stream(toks@),
            pos < cur < toks@.len(),
            toks@[pos + 1].tok is Upper,
            idents_end(toks@, pos + 2) == idents_end(toks@, cur as int),
            !(toks@[cur as int].tok is Ident),
        decreases toks@.len() - cur,
    {
        match &toks[cur].tok {
            Tok::Ident(n) => {
                params.push(copy_string(n));
                cur = step(toks, cur);
            },
            _ => {
                break;
            },
        }
    }
    proof {
        assert(idents_end(toks@, cur as int) == cur);
        assert(toks@[toks@.len() - 1].tok is Eof);
        assert(pos + 1 < toks@.len() - 1);
    }
    match &toks[cur].tok {
        Tok::Equals => {},
        _ => {
            return Err(expected(toks, cur, vec!["something else", "'='"]));
        },
    }
    cur = step(toks, cur);
    let ghost v0 = cur as int;
    let mut variants: Vec<Variant> = Vec::new();
    let mut end = toks[pos].span.end;
    loop
        invariant_except_break
            variants_end(toks@, v0) == variants_end(toks@, cur as int),
        invariant
            stream(toks@),
            pos < cur < toks@.len(),
            type_decl_end(toks@, pos as int) == variants_end(toks@, v0),
        ensures
            variants_end(toks@, v0) == Some(cur as int),
        decreases toks@.len() - cur,
    {
        let vname = match &toks[cur].tok {
            Tok::Upper(u) => copy_string(u),
            _ => {
                return Err(expected(toks, cur, vec!["something else"]));
            },
        };
        let vstart = toks[cur].span.start;
        let mut vend = toks[cur].span.end;
        let mut fields: Vec<Spanned<Type>> = Vec::new();
        let ghost c0 = cur;
        cur = step(toks, cur);
        while starts_type_atom(&toks[cur].tok)
            invariant
                stream(toks@),
                pos < cur < toks@.len(),
                c0 < cur,
                toks@[c0 as int].tok is Upper,
                variants_end(toks@, v0) == variants_end(toks@, c0 as int),
                type_decl_end(toks@, pos as int) == variants_end(toks@, v0),
                type_apps_end(toks@, c0 + 1) == type_apps_end(toks@, cur as int),
            decreases toks@.len() - cur,
        {
            let (t, c2) = parse_type_atom(toks, cur)?;
            vend = t.1.end;
            fields.push(t);
            cur = c2;
        }
        variants.push(Variant { name: vname, fields, span: vstart..vend });
        end = vend;
        if is_op(&toks[cur].tok, "|") {
            cur = step(toks, cur);
        } else {
            break;
        }
    }
    Ok((TypeDecl { name, params, variants, span: start..end }, cur))
}

/// A top-level item: a type declaration, or a signature or binding.
pub enum TopItem {
    Type(TypeDecl),
    Value(DeclItem),
}

fn parse_top_item(toks: &Vec<Token>, pos: usize) -> (r: Result<(TopItem, usize), ParseError>)
    requires
        stream(toks@),
        pos < toks@.len(),
    ensures
        toks@[pos as int].tok is Type ==> ends(r, type_decl_end(toks@, pos as int)),
        !(toks@[pos as int].tok is Type) && head_fails(toks@, pos as int) ==> fails_at(toks@, pos, r),
        !(toks@[pos as int].tok is Type) && is_sig(toks@, pos as int) ==> ends(r, type_end(toks@, pos + 2)),
        moved(toks@, pos, r),
{
    let is_type = match &toks[pos].tok {
        Tok::Type => true,
        _ => false,
    };
    if is_type {
        let (t, c) = parse_type_decl(toks, pos)?;
        Ok((TopItem::Type(t), c))
    } else {
        let (d, c) = parse_decl_item(toks, pos)?;
        Ok((TopItem::Value(d), c))
    }
}

fn skip_semis(toks: &Vec<Token>, pos: usize) -> (r: (usize, bool))
    requires
        stream(toks@),
        pos < toks@.len(),
    ensures
        pos <= r.0 < toks@.len(),
        r.1 == (r.0 > pos),
        toks@[pos as int].tok is VSemi ==> r.1,
        !(toks@[pos as int].tok is VSemi) ==> r.0 == pos,
{
    let mut cur = pos;
    while is_vsemi(&toks[cur].tok)
        invariant
            stream(toks@),
            pos <= cur < toks@.len(),
            !(toks@[pos as int].tok is VSemi) ==> cur == pos,
        decreases toks@.len() - cur,
    {
        cur = step(toks, cur);
    }
    (cur, cur > pos)
}

/// The module's items. A malformed item is reported and skipped up to the
/// next virtual `;`, so that every independent error is found.
fn parse_items(toks: &Vec<Token>, pos: usize) -> (r: (Vec<TopItem>, Vec<ParseError>, usize))
    requires
        stream(toks@),
        pos < toks@.len(),
    ensures
        pos <= r.2 < toks@.len(),
        block_close(toks@[pos as int].tok) ==> r.0@.len() == 0 && r.1@.len() == 0 && r.2 == pos,
{
    let mut items: Vec<TopItem> = Vec::new();
    let mut errors: Vec<ParseError> = Vec::new();
    let (mut cur, _) = skip_semis(toks, pos);
    loop
        invariant
            stream(toks@),
            pos <= cur < toks@.len(),
            block_close(toks@[pos as int].tok) ==> cur == pos && items@.len() == 0 && errors@.len() == 0,
        decreases toks@.len() - cur,
    {
        if is_eof(&toks[cur].tok) || is_block_close(&toks[cur].tok) {
            break;
        }
        let parsed = parse_top_item(toks, cur);
        match parsed {
            Ok((item, c)) => {
                items.push(item);
                let (c2, skipped) = skip_semis(toks, c);
                cur = c2;
                if !skipped && !is_eof(&toks[cur].tok) && !is_block_close(&toks[cur].tok) {
                    errors.push(expected(toks, cur, vec!["';'", "'}'"]));
                    break;
                }
            },
            Err(e) => {
                errors.push(e);
                // recover at the next declaration boundary
                let ghost c0 = cur;
                while !is_eof(&toks[cur].tok) && !is_vsemi(&toks[cur].tok)
                    invariant
                        stream(toks@),
                        pos <= cur < toks@.len(),
                        c0 <= cur,
                    decreases toks@.len() - cur,
                {
                    cur = step(toks, cur);
                }
                if is_eof(&toks[cur].tok) {
                    break;
                }
                let (c2, _) = skip_semis(toks, cur);
                cur = c2;
            },
        }
    }
    (items, errors, cur)
}

/// Parses a laid-out token stream into a module, or returns every error
/// found, the first one first. Type declarations and value declarations are
/// collected apart; signatures are paired with their bindings by
/// `fold_decls`, and a name bound twice is rejected.
pub fn parse(toks: &Vec<Token>, name: Option<String>, exposing: Exposing, imports: Vec<Import>) -> (r: Result<Module, Vec<ParseError>>)
    requires
        stream(toks@),
    ensures
        r matches Err(es) ==> es@.len() >= 1,
        r matches Ok(m) ==> m.name == name && m.exposing == exposing && m.imports == imports,
        toks@.len() == 3 && toks@[0].tok is VLBrace && block_close(toks@[1].tok) ==> (r matches Ok(m)
            && m.type_decls@.len() == 0 && m.decls@.len() == 0),
{
    let ghost bare = toks@.len() == 3 && toks@[0].tok is VLBrace && block_close(toks@[1].tok);
    let mut errors: Vec<ParseError> = Vec::new();
    let opens = match &toks[0].tok {
        Tok::VLBrace => true,
        _ => false,
    };
    if !opens {
        errors.push(expected(toks, 0, vec!["'{'"]));
        return Err(errors);
    }
    let (items, errs, mut cur) = parse_items(toks, step(toks, 0));
    errors = errs;
    if errors.len() == 0 {
        while is_block_close(&toks[cur].tok)
            invariant
                stream(toks@),
                cur < toks@.len(),
                bare == (toks@.len() == 3 && toks@[0].tok is VLBrace && block_close(toks@[1].tok)),
                bare ==> 1 <= cur <= 2,
            decreases toks@.len() - cur,
        {
            cur = step(toks, cur);
        }
        if !is_eof(&toks[cur].tok) {
            errors.push(expected(toks, cur, vec!["end of input"]));
        }
    }
    if errors.len() > 0 {
        return Err(errors);
    }
    let mut type_decls: Vec<TypeDecl> = Vec::new();
    let mut values: Vec<DeclItem> = Vec::new();
    let ghost count = items@.len();
    let mut rest = items;
    let mut rev: Vec<TopItem> = Vec::new();
    while rest.len() > 0
        invariant
            rest@.len() + rev@.len() == count,
        decreases rest.len(),
    {
        let it = rest.pop().unwrap();
        rev.push(it);
    }
    while rev.len() > 0
        invariant
            rev@.len() + type_decls@.len() + values@.len() == count,
        decreases rev.len(),
    {
        match rev.pop().unwrap() {
            TopItem::Type(t) => type_decls.push(t),
            TopItem::Value(d) => values.push(d),
        }
    }
    proof {
        if bare {
            assert(values@.len() == 0);
            assert forall|j: int| !rebinds(values@, j) by {}
            assert(pair_from(values@, 0, None) == Ok::<Seq<Decl>, (Seq<char>, Span)>(Seq::empty()));
        }
    }
    match fold_decls_check_duplicates(&values) {
        Err(e) => {
            errors.push(e);
            return Err(errors);
        },
        Ok(()) => {},
    }
    match fold_decls(values) {
        Err(e) => {
            errors.push(e);
            Err(errors)
        },
        Ok(decls) => Ok(Module { name, exposing, imports, type_decls, decls }),
    }
}

} // verus!
