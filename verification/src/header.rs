//! The module header, peeled off the raw token stream before layout runs.
//!
//! `module Name exposing (..)` and the `import` lines sit at column zero and do
//! not follow the offside rule, so [`split`] consumes them as a flat token
//! prefix and hands the remaining `body` tokens to layout. A file with no
//! `module` line is an entry module: `name` is `None` and everything is
//! exposed.
use vstd::prelude::*;

use crate::ast::{Exposed, Exposing, Import, ImportExposing, Span};
use crate::lexer::{tok_text, Tok, Token};
use crate::text::push_str;

verus! {

#[derive(Debug)]
pub struct HeaderError {
    pub msg: String,
    pub span: Span,
}

/// The split result: the optional module name and its `exposing` list, the
/// `import` declarations, and the body tokens that still need laying out.
#[derive(Debug)]
pub struct Header {
    pub name: Option<String>,
    pub exposing: Exposing,
    pub imports: Vec<Import>,
    pub body: Vec<Token>,
}


/// The token the cursor sees at `p`: the last one once past the end.
pub open spec fn tk(toks: Seq<Token>, p: int) -> Token {
    toks[if p < toks.len() { p } else { toks.len() - 1 }]
}

/// The cursor position after stepping past `p` (it stays at the end).
pub open spec fn nx(toks: Seq<Token>, p: int) -> int {
    if p < toks.len() {
        p + 1
    } else {
        p
    }
}

/// Whether `t` is the token of kind `kind`: 0 `module`, 1 `import`,
/// 2 `exposing`, 3 `(`, 4 `)`, 5 `.`, 6 `,`, 7 `as`.
pub open spec fn kind_tok(t: Tok, kind: u8) -> bool {
    if kind == 0 {
        t is Module
    } else if kind == 1 {
        t is Import
    } else if kind == 2 {
        t is Exposing
    } else if kind == 3 {
        t is LParen
    } else if kind == 4 {
        t is RParen
    } else if kind == 5 {
        t is Dot
    } else if kind == 6 {
        t is Comma
    } else if kind == 7 {
        t is As
    } else {
        false
    }
}

/// Where `(` .. `)`-free `..` read from `p` ends, if it is there.
pub open spec fn dd_end(toks: Seq<Token>, p: int) -> Option<int> {
    if tk(toks, p).tok is Dot && tk(toks, nx(toks, p)).tok is Dot {
        Some(nx(toks, nx(toks, p)))
    } else {
        None
    }
}

/// Where one exposed item read from `p` ends: a value name, or a type name
/// optionally followed by `(..)`.
pub open spec fn exposed_end(toks: Seq<Token>, p: int) -> Option<int> {
    if tk(toks, p).tok is Ident {
        Some(nx(toks, p))
    } else if tk(toks, p).tok is Upper {
        let q = nx(toks, p);
        if tk(toks, q).tok is LParen {
            match dd_end(toks, nx(toks, q)) {
                Some(e) => if tk(toks, e).tok is RParen {
                    Some(nx(toks, e))
                } else {
                    None
                },
                None => None,
            }
        } else {
            Some(q)
        }
    } else {
        None
    }
}

/// Where a comma-separated list of exposed items read from `p` ends.
pub open spec fn exposed_list_end(toks: Seq<Token>, p: int) -> Option<int>
    decreases toks.len() - p,
{
    if p < 0 || p > toks.len() {
        None
    } else {
        match exposed_end(toks, p) {
            None => None,
            Some(e) => if tk(toks, e).tok is Comma {
                if p <= e < toks.len() {
                    exposed_list_end(toks, e + 1)
                } else {
                    None
                }
            } else {
                Some(e)
            },
        }
    }
}

/// Where an `exposing` list read from `p` (at its `(`) ends.
pub open spec fn exposing_end(toks: Seq<Token>, p: int) -> Option<int> {
    if !(tk(toks, p).tok is LParen) {
        None
    } else {
        let q = nx(toks, p);
        let inner = if tk(toks, q).tok is Dot {
            dd_end(toks, q)
        } else {
            exposed_list_end(toks, q)
        };
        match inner {
            Some(e) => if tk(toks, e).tok is RParen {
                Some(nx(toks, e))
            } else {
                None
            },
            None => None,
        }
    }
}

/// Where `module Name exposing (…)` read from `p` (at `module`) ends.
pub open spec fn module_header_end(toks: Seq<Token>, p: int) -> Option<int> {
    let q = nx(toks, p);
    if tk(toks, q).tok is Upper && tk(toks, nx(toks, q)).tok is Exposing {
        exposing_end(toks, nx(toks, nx(toks, q)))
    } else {
        None
    }
}

/// Where `import Name (as Alias)? (exposing (…))?` read from `p` (at
/// `import`) ends.
pub open spec fn import_end(toks: Seq<Token>, p: int) -> Option<int> {
    let q = nx(toks, p);
    if q == p || !(tk(toks, q).tok is Upper) {
        None
    } else {
        let a = nx(toks, q);
        let b = if tk(toks, a).tok is As {
            if tk(toks, nx(toks, a)).tok is Upper {
                Some(nx(toks, nx(toks, a)))
            } else {
                None
            }
        } else {
            Some(a)
        };
        match b {
            None => None,
            Some(b) => if tk(toks, b).tok is Exposing {
                let c = nx(toks, b);
                if tk(toks, c).tok is LParen {
                    match exposed_list_end(toks, nx(toks, c)) {
                        Some(e) => if tk(toks, e).tok is RParen {
                            Some(nx(toks, e))
                        } else {
                            None
                        },
                        None => None,
                    }
                } else {
                    None
                }
            } else {
                Some(b)
            },
        }
    }
}

/// `x` is the exposed item that token `t` starts, `after` being the token
/// that follows it.
pub open spec fn exposed_value(t: Token, after: Tok, x: Exposed) -> bool {
    match t.tok {
        Tok::Ident(n) => x matches Exposed::Value { name, span } && name@ == n@ && span == t.span,
        Tok::Upper(n) => x matches Exposed::Type { name, open, span } && name@ == n@ && span == t.span && open == (
        after is LParen),
        _ => false,
    }
}

/// Where the `k`-th item of an exposed list read from `p` starts: each item
/// after the first follows the comma after the one before.
pub open spec fn item_at(toks: Seq<Token>, p: int, k: nat) -> int
    decreases k,
{
    if k == 0 {
        p
    } else {
        match exposed_end(toks, item_at(toks, p, (k - 1) as nat)) {
            Some(e) => nx(toks, e),
            None => p,
        }
    }
}

/// `xs` are exactly the items of the exposed list read from `p`, in order:
/// one per item written, each naming the token it starts at, a comma after
/// every item but the last.
pub open spec fn exposed_items(toks: Seq<Token>, p: int, xs: Seq<Exposed>) -> bool {
    &&& xs.len() >= 1
    &&& forall|k: int|
        0 <= k < xs.len() ==> exposed_value(
            tk(toks, item_at(toks, p, k as nat)),
            tk(toks, nx(toks, item_at(toks, p, k as nat))).tok,
            #[trigger] xs[k],
        )
    &&& forall|k: int|
        0 <= k < xs.len() - 1 ==> (exposed_end(toks, #[trigger] item_at(toks, p, k as nat)) matches Some(e) && tk(
            toks,
            e,
        ).tok is Comma)
    &&& exposed_end(toks, item_at(toks, p, (xs.len() - 1) as nat)) matches Some(e) && !(tk(toks, e).tok is Comma)
}

/// Where an `import` line read from `p` stands after its module name and
/// optional alias.
pub open spec fn import_tail(toks: Seq<Token>, p: int) -> int {
    let a = nx(toks, nx(toks, p));
    if tk(toks, a).tok is As {
        nx(toks, nx(toks, a))
    } else {
        a
    }
}

/// `imp` is what the `import` line read from `p` says: its module name, an
/// alias exactly when `as` follows the name, and an exposing list exactly
/// when `exposing` follows, holding the items written there.
pub open spec fn import_read(toks: Seq<Token>, p: int, imp: Import) -> bool {
    let b = import_tail(toks, p);
    &&& tk(toks, nx(toks, p)).tok == Tok::Upper(imp.module)
    &&& (imp.alias is Some <==> tk(toks, nx(toks, nx(toks, p))).tok is As)
    &&& (imp.exposing is Explicit <==> tk(toks, b).tok is Exposing)
    &&& (imp.exposing matches ImportExposing::Explicit(xs) ==> exposed_items(toks, nx(toks, nx(toks, b)), xs@))
}

/// Where the `import` lines start: after the `module` line when there is
/// one, else at the first token.
pub open spec fn imports_start(toks: Seq<Token>) -> int {
    if tk(toks, 0).tok is Module {
        match module_header_end(toks, 0) {
            Some(p) => p,
            None => 0,
        }
    } else {
        0
    }
}

/// Where the `i`-th `import` line read from `p` starts.
pub open spec fn import_at(toks: Seq<Token>, p: int, i: nat) -> int
    decreases i,
{
    if i == 0 {
        p
    } else {
        match import_end(toks, import_at(toks, p, (i - 1) as nat)) {
            Some(q) => q,
            None => p,
        }
    }
}

/// `imps` are what the `import` lines read from `p` say, one per line, in
/// order.
pub open spec fn imports_read(toks: Seq<Token>, p: int, imps: Seq<Import>) -> bool
    decreases imps.len(),
{
    if imps.len() == 0 {
        true
    } else {
        let at = import_at(toks, p, (imps.len() - 1) as nat);
        imports_read(toks, p, imps.drop_last()) && tk(toks, at).tok is Import && import_read(toks, at, imps.last())
    }
}

/// Where the `import` lines read from `p` end.
pub open spec fn imports_end(toks: Seq<Token>, p: int) -> Option<int>
    decreases toks.len() - p,
{
    if !(0 <= p <= toks.len()) {
        None
    } else if tk(toks, p).tok is Import {
        match import_end(toks, p) {
            Some(q) => if p < q <= toks.len() {
                imports_end(toks, q)
            } else {
                None
            },
            None => None,
        }
    } else {
        Some(p)
    }
}

/// Where the whole header (an optional `module` line, then the imports)
/// ends, if it is well formed.
pub open spec fn header_end(toks: Seq<Token>) -> Option<int> {
    if tk(toks, 0).tok is Module {
        match module_header_end(toks, 0) {
            Some(p) => imports_end(toks, p),
            None => None,
        }
    } else {
        imports_end(toks, 0)
    }
}

struct Cursor<'a> {
    tokens: &'a Vec<Token>,
    pos: usize,
}

impl<'a> Cursor<'a> {
    spec fn ok(&self) -> bool {
        self.tokens@.len() >= 1 && self.pos <= self.tokens@.len()
    }

    spec fn at(&self) -> Token {
        self.tokens@[if self.pos < self.tokens@.len() {
            self.pos as int
        } else {
            self.tokens@.len() - 1
        }]
    }

    /// The current token (the last one once the end is reached).
    fn peek(&self) -> (r: &Tok)
        requires
            self.ok(),
        ensures
            *r == self.at().tok,
    {
        let k = if self.pos < self.tokens.len() {
            self.pos
        } else {
            self.tokens.len() - 1
        };
        &self.tokens[k].tok
    }

    fn span(&self) -> (r: Span)
        requires
            self.ok(),
        ensures
            r == self.at().span,
    {
        let k = if self.pos < self.tokens.len() {
            self.pos
        } else {
            self.tokens.len() - 1
        };
        self.tokens[k].span.start..self.tokens[k].span.end
    }

    /// Step past the current token (staying put at the end).
    fn bump(&mut self)
        requires
            old(self).ok(),
        ensures
            final(self).ok(),
            final(self).tokens == old(self).tokens,
            final(self).pos == if old(self).pos < old(self).tokens@.len() {
                old(self).pos + 1
            } else {
                old(self).pos as int
            },
    {
        if self.pos < self.tokens.len() {
            self.pos = self.pos + 1;
        }
    }

    /// A "expected `what`, found `tok`" error at the current token.
    fn unexpected(&self, what: &str) -> (r: HeaderError)
        requires
            self.ok(),
        ensures
            r.msg@ == "expected "@ + what@ + ", found `"@ + tok_text(self.at().tok) + "`"@,
            r.span == self.at().span,
    {
        let mut msg = String::new();
        push_str(&mut msg, "expected ");
        push_str(&mut msg, what);
        push_str(&mut msg, ", found `");
        self.peek().write_to(&mut msg);
        push_str(&mut msg, "`");
        proof {
            assert(msg@ =~= "expected "@ + what@ + ", found `"@ + tok_text(self.at().tok) + "`"@);
        }
        HeaderError { msg, span: self.span() }
    }
}

fn is_tok(t: &Tok, kind: u8) -> (r: bool)
    ensures
        r == kind_tok(*t, kind),
        kind == 0 ==> r == (*t is Module),
        kind == 1 ==> r == (*t is Import),
        kind == 2 ==> r == (*t is Exposing),
        kind == 3 ==> r == (*t is LParen),
        kind == 4 ==> r == (*t is RParen),
        kind == 5 ==> r == (*t is Dot),
        kind == 6 ==> r == (*t is Comma),
        kind == 7 ==> r == (*t is As),
{
    match t {
        Tok::Module => kind == 0,
        Tok::Import => kind == 1,
        Tok::Exposing => kind == 2,
        Tok::LParen => kind == 3,
        Tok::RParen => kind == 4,
        Tok::Dot => kind == 5,
        Tok::Comma => kind == 6,
        Tok::As => kind == 7,
        _ => false,
    }
}

/// Consume the token of kind `kind` (see `is_tok`) or fail with
/// "expected `what`".
fn expect(cursor: &mut Cursor, kind: u8, what: &str) -> (r: Result<(), HeaderError>)
    requires
        old(cursor).ok(),
    ensures
        final(cursor).ok(),
        final(cursor).tokens == old(cursor).tokens,
        final(cursor).pos >= old(cursor).pos,
        r is Ok <==> kind_tok(old(cursor).at().tok, kind),
        r is Ok ==> final(cursor).pos == nx(old(cursor).tokens@, old(cursor).pos as int),
        r matches Err(e) ==> final(cursor).pos == old(cursor).pos && e.span == old(cursor).at().span && e.msg@
            == "expected "@ + what@ + ", found `"@ + tok_text(old(cursor).at().tok) + "`"@,
{
    if is_tok(cursor.peek(), kind) {
        cursor.bump();
        Ok(())
    } else {
        Err(cursor.unexpected(what))
    }
}

/// Consume the leading `module` header (if any) and every `import` line,
/// returning them alongside the untouched body tokens. A file that does not
/// start with `module` is a header-less entry module.
#[verifier::loop_isolation(false)]
pub fn split(tokens: Vec<Token>) -> (r: Result<Header, HeaderError>)
    requires
        tokens@.len() >= 1,
    ensures
        r matches Ok(h) ==> exists|k: int|
            0 <= k <= tokens@.len() && h.body@ == tokens@.subrange(k, tokens@.len() as int),
        r matches Ok(h) ==> (h.name is None <==> !(tokens@[0].tok is Module)),
        !(tokens@[0].tok is Module) && !(tokens@[0].tok is Import) ==> (r matches Ok(h) && h.body@
            == tokens@ && h.name is None && h.exposing is All && h.imports@.len() == 0),
        r is Ok <==> header_end(tokens@) is Some,
        r matches Ok(h) ==> h.body@ == tokens@.subrange(header_end(tokens@)->Some_0, tokens@.len() as int),
        r matches Ok(h) ==> (h.name matches Some(n) ==> tk(tokens@, 1).tok == Tok::Upper(n)),
        r matches Ok(h) ==> (tokens@[0].tok is Module ==> (h.exposing is All <==> tk(tokens@, 4).tok is Dot)),
        r matches Ok(h) ==> imports_read(tokens@, imports_start(tokens@), h.imports@),
        r matches Ok(h) ==> !(tk(tokens@, import_at(tokens@, imports_start(tokens@), h.imports@.len())).tok is Import),
{
    let mut tokens = tokens;
    let ghost orig = tokens@;
    let mut cursor = Cursor { tokens: &tokens, pos: 0 };
    let starts_module = is_tok(cursor.peek(), 0);
    let mut name: Option<String> = None;
    let mut exposing = Exposing::All;
    if starts_module {
        match parse_module_header(&mut cursor) {
            Err(e) => {
                return Err(e);
            },
            Ok((n, x)) => {
                proof {
                    assert(tk(orig, 0) == orig[0]);
                    assert(nx(orig, 0) == 1);
                    assert(tk(orig, nx(orig, nx(orig, nx(orig, nx(orig, 0))))) == tk(orig, 4));
                }
                name = Some(n);
                exposing = x;
            },
        }
    } else {
        proof {
            assert(tk(orig, 0) == orig[0]);
        }
    }
    let mut imports: Vec<Import> = Vec::new();
    while is_tok(cursor.peek(), 1)
        invariant
            cursor.ok(),
            cursor.tokens == &tokens,
            tokens@ == orig,
            !starts_module ==> name is None,
            starts_module ==> name is Some,
            starts_module == (orig[0].tok is Module),
            !starts_module && !(orig[0].tok is Import) ==> cursor.pos == 0 && imports@.len() == 0,
            header_end(orig) == imports_end(orig, cursor.pos as int),
            name matches Some(n) ==> tk(orig, 1).tok == Tok::Upper(n),
            starts_module ==> (exposing is All <==> tk(orig, 4).tok is Dot),
            cursor.pos == import_at(orig, imports_start(orig), imports@.len()),
            imports_read(orig, imports_start(orig), imports@),
        decreases tokens@.len() - cursor.pos,
    {
        proof {
            if !starts_module && !(orig[0].tok is Import) {
                assert(cursor.at() == orig[0]);
            }
        }
        let ghost pc = cursor.pos as int;
        proof {
            assert(cursor.at() == tk(orig, pc));
        }
        match parse_import(&mut cursor) {
            Err(e) => {
                return Err(e);
            },
            Ok(imp) => {
                let ghost before = imports@;
                let ghost pb = import_at(orig, imports_start(orig), before.len());
                proof {
                    assert(pb == pc);
                    assert(import_read(orig, pb, imp));
                    assert(tk(orig, pb).tok is Import);
                }
                imports.push(imp);
                proof {
                    assert forall|i: int| 0 <= i < before.len() implies #[trigger] imports@[i] == before[i] by {}
                    assert(imports@[before.len() as int] == imp);
                    assert(import_at(orig, imports_start(orig), (before.len() + 1) as nat) == cursor.pos);
                    assert(imports@.drop_last() =~= before);
                    assert(imports_read(orig, imports_start(orig), imports@));
                }
            },
        }
    }
    proof {
        assert(imports_end(orig, cursor.pos as int) == Some(cursor.pos as int));
    }
    let pos = cursor.pos;
    let body = tokens.split_off(pos);
    Ok(Header { name, exposing, imports, body })
}

fn parse_module_header(cursor: &mut Cursor) -> (r: Result<(String, Exposing), HeaderError>)
    requires
        old(cursor).ok(),
    ensures
        final(cursor).ok(),
        final(cursor).tokens == old(cursor).tokens,
        final(cursor).pos >= old(cursor).pos,
        r is Ok <==> module_header_end(old(cursor).tokens@, old(cursor).pos as int) is Some,
        r is Ok ==> final(cursor).pos == module_header_end(old(cursor).tokens@, old(cursor).pos as int)->Some_0,
        r matches Ok(x) ==> tk(old(cursor).tokens@, nx(old(cursor).tokens@, old(cursor).pos as int)).tok
            == Tok::Upper(x.0),
        r matches Ok(x) ==> (x.1 is All <==> tk(
            old(cursor).tokens@,
            nx(old(cursor).tokens@, nx(old(cursor).tokens@, nx(old(cursor).tokens@, nx(old(cursor).tokens@, old(cursor).pos as int)))),
        ).tok is Dot),
{
    cursor.bump();
    let name = parse_module_name(cursor)?;
    expect(cursor, 2, "`exposing`")?;
    let exposing = parse_exposing(cursor)?;
    Ok((name, exposing))
}

fn parse_module_name(cursor: &mut Cursor) -> (r: Result<String, HeaderError>)
    requires
        old(cursor).ok(),
    ensures
        final(cursor).ok(),
        final(cursor).tokens == old(cursor).tokens,
        final(cursor).pos >= old(cursor).pos,
        r matches Ok(n) ==> old(cursor).at().tok == Tok::Upper(n),
        r is Ok <==> old(cursor).at().tok is Upper,
        r is Ok ==> final(cursor).pos == nx(old(cursor).tokens@, old(cursor).pos as int),
        r matches Err(e) ==> e.span == old(cursor).at().span && e.msg@ == "expected a module name, found `"@
            + tok_text(old(cursor).at().tok) + "`"@,
{
    let found = match cursor.peek() {
        Tok::Upper(name) => Some(name.clone()),
        _ => None,
    };
    match found {
        Some(name) => {
            cursor.bump();
            Ok(name)
        },
        None => {
            let mut msg = String::new();
            push_str(&mut msg, "expected a module name, found `");
            cursor.peek().write_to(&mut msg);
            push_str(&mut msg, "`");
            Err(HeaderError { msg, span: cursor.span() })
        },
    }
}

fn parse_exposing(cursor: &mut Cursor) -> (r: Result<Exposing, HeaderError>)
    requires
        old(cursor).ok(),
    ensures
        final(cursor).ok(),
        final(cursor).tokens == old(cursor).tokens,
        final(cursor).pos >= old(cursor).pos,
        r is Ok <==> exposing_end(old(cursor).tokens@, old(cursor).pos as int) is Some,
        r is Ok ==> final(cursor).pos == exposing_end(old(cursor).tokens@, old(cursor).pos as int)->Some_0,
        r matches Ok(x) ==> (x is All <==> tk(old(cursor).tokens@, nx(old(cursor).tokens@, old(cursor).pos as int)).tok is Dot),
{
    expect(cursor, 3, "`(`")?;
    if is_tok(cursor.peek(), 5) {
        parse_double_dot(cursor)?;
        expect(cursor, 4, "`)`")?;
        return Ok(Exposing::All);
    }
    let items = parse_exposed_list(cursor)?;
    expect(cursor, 4, "`)`")?;
    Ok(Exposing::Explicit(items))
}

fn parse_exposed_list(cursor: &mut Cursor) -> (r: Result<Vec<Exposed>, HeaderError>)
    requires
        old(cursor).ok(),
    ensures
        final(cursor).ok(),
        final(cursor).tokens == old(cursor).tokens,
        final(cursor).pos >= old(cursor).pos,
        r is Ok <==> exposed_list_end(old(cursor).tokens@, old(cursor).pos as int) is Some,
        r is Ok ==> final(cursor).pos == exposed_list_end(old(cursor).tokens@, old(cursor).pos as int)->Some_0,
        r matches Ok(items) ==> items@.len() >= 1,
        r matches Ok(items) ==> exposed_items(old(cursor).tokens@, old(cursor).pos as int, items@),
{
    let mut items: Vec<Exposed> = Vec::new();
    let ghost toks = cursor.tokens@;
    let ghost p0 = cursor.pos as int;
    loop
        invariant_except_break
            exposed_list_end(toks, p0) == exposed_list_end(toks, cursor.pos as int),
            cursor.pos == item_at(toks, p0, items@.len()),
            forall|k: int|
                0 <= k < items@.len() ==> (exposed_end(toks, #[trigger] item_at(toks, p0, k as nat)) matches Some(e)
                    && tk(toks, e).tok is Comma),
        invariant
            cursor.ok(),
            cursor.tokens == old(cursor).tokens,
            toks == cursor.tokens@,
            p0 == old(cursor).pos,
            cursor.pos >= old(cursor).pos,
            forall|k: int|
                0 <= k < items@.len() ==> exposed_value(
                    tk(toks, item_at(toks, p0, k as nat)),
                    tk(toks, nx(toks, item_at(toks, p0, k as nat))).tok,
                    #[trigger] items@[k],
                ),
        ensures
            exposed_list_end(toks, p0) == Some(cursor.pos as int),
            items@.len() >= 1,
            forall|k: int|
                0 <= k < items@.len() - 1 ==> (exposed_end(toks, #[trigger] item_at(toks, p0, k as nat)) matches Some(e)
                    && tk(toks, e).tok is Comma),
            exposed_end(toks, item_at(toks, p0, (items@.len() - 1) as nat)) matches Some(e) && !(tk(toks, e).tok is Comma),
        decreases cursor.tokens@.len() - cursor.pos,
    {
        let ghost pb = cursor.pos as int;
        let ghost before = items@;
        let item = parse_exposed(cursor)?;
        items.push(item);
        proof {
            assert(cursor.tokens@ == toks);
            assert forall|k: int| 0 <= k < before.len() implies #[trigger] items@[k] == before[k] by {}
            assert(items@[before.len() as int] == item);
            assert(item_at(toks, p0, before.len()) == pb);
            assert(item_at(toks, p0, (before.len() + 1) as nat) == nx(toks, cursor.pos as int));
        }
        if is_tok(cursor.peek(), 6) {
            if cursor.pos < cursor.tokens.len() {
                cursor.bump();
            } else {
                // a trailing `,` that is the last token: the next item is missing
                parse_exposed(cursor)?;
                break ;
            }
        } else {
            break ;
        }
    }
    Ok(items)
}

fn parse_exposed(cursor: &mut Cursor) -> (r: Result<Exposed, HeaderError>)
    requires
        old(cursor).ok(),
    ensures
        final(cursor).ok(),
        final(cursor).tokens == old(cursor).tokens,
        final(cursor).pos >= old(cursor).pos,
        r is Ok <==> exposed_end(old(cursor).tokens@, old(cursor).pos as int) is Some,
        r is Ok ==> final(cursor).pos == exposed_end(old(cursor).tokens@, old(cursor).pos as int)->Some_0,
        r matches Ok(x) ==> exposed_value(
            old(cursor).at(),
            tk(old(cursor).tokens@, nx(old(cursor).tokens@, old(cursor).pos as int)).tok,
            x,
        ),
{
    let span = cursor.span();
    let found: Option<(String, bool)> = match cursor.peek() {
        Tok::Ident(name) => Some((name.clone(), false)),
        Tok::Upper(name) => Some((name.clone(), true)),
        _ => None,
    };
    match found {
        Some((name, false)) => {
            cursor.bump();
            Ok(Exposed::Value { name, span })
        },
        Some((name, true)) => {
            cursor.bump();
            let open = if is_tok(cursor.peek(), 3) {
                cursor.bump();
                parse_double_dot(cursor)?;
                expect(cursor, 4, "`)`")?;
                true
            } else {
                false
            };
            Ok(Exposed::Type { name, open, span })
        },
        None => {
            let mut msg = String::new();
            push_str(&mut msg, "expected an exposed name, found `");
            cursor.peek().write_to(&mut msg);
            push_str(&mut msg, "`");
            Err(HeaderError { msg, span: cursor.span() })
        },
    }
}

fn parse_double_dot(cursor: &mut Cursor) -> (r: Result<(), HeaderError>)
    requires
        old(cursor).ok(),
    ensures
        final(cursor).ok(),
        final(cursor).tokens == old(cursor).tokens,
        final(cursor).pos >= old(cursor).pos,
        r is Ok <==> dd_end(old(cursor).tokens@, old(cursor).pos as int) is Some,
        r is Ok ==> final(cursor).pos == dd_end(old(cursor).tokens@, old(cursor).pos as int)->Some_0,
{
    expect(cursor, 5, "`..`")?;
    expect(cursor, 5, "`..`")?;
    Ok(())
}

fn parse_import(cursor: &mut Cursor) -> (r: Result<Import, HeaderError>)
    requires
        old(cursor).ok(),
        old(cursor).at().tok is Import,
    ensures
        final(cursor).ok(),
        final(cursor).tokens == old(cursor).tokens,
        r is Ok ==> final(cursor).pos > old(cursor).pos,
        r is Ok <==> import_end(old(cursor).tokens@, old(cursor).pos as int) is Some,
        r is Ok ==> final(cursor).pos == import_end(old(cursor).tokens@, old(cursor).pos as int)->Some_0,
        r matches Ok(imp) ==> tk(old(cursor).tokens@, nx(old(cursor).tokens@, old(cursor).pos as int)).tok
            == Tok::Upper(imp.module) && imp.span.start == old(cursor).at().span.start
            && (imp.alias is Some <==> tk(
            old(cursor).tokens@,
            nx(old(cursor).tokens@, nx(old(cursor).tokens@, old(cursor).pos as int)),
        ).tok is As),
        r matches Ok(imp) ==> import_read(old(cursor).tokens@, old(cursor).pos as int, imp),
{
    let start = cursor.span().start;
    let p0 = cursor.pos;
    cursor.bump();
    if cursor.pos == p0 {
        // at the end the cursor cannot move; report it as a malformed header
        return Err(cursor.unexpected("a module name"));
    }
    let module = parse_module_name(cursor)?;
    let alias = if is_tok(cursor.peek(), 7) {
        cursor.bump();
        Some(parse_module_name(cursor)?)
    } else {
        None
    };
    let exposing = if is_tok(cursor.peek(), 2) {
        cursor.bump();
        expect(cursor, 3, "`(`")?;
        let items = parse_exposed_list(cursor)?;
        expect(cursor, 4, "`)`")?;
        ImportExposing::Explicit(items)
    } else {
        ImportExposing::Nothing
    };
    let end = cursor.span().start;
    Ok(Import { module, alias, exposing, span: start..end })
}


/// The `i`-th of the imports read from the header's `import` lines.
proof fn lemma_imports_read_at(toks: Seq<Token>, p: int, imps: Seq<Import>, i: int)
    requires
        imports_read(toks, p, imps),
        0 <= i < imps.len(),
    ensures
        tk(toks, import_at(toks, p, i as nat)).tok is Import,
        import_read(toks, import_at(toks, p, i as nat), imps[i]),
    decreases imps.len(),
{
    if i < imps.len() - 1 {
        lemma_imports_read_at(toks, p, imps.drop_last(), i);
        assert(imps.drop_last()[i] == imps[i]);
    }
}

/// What an import exposes is what its line lists: an `import` line with no
/// `exposing` exposes nothing, and one followed by `exposing ( … )` exposes
/// exactly the names written there, in order, one per name, a lowercase name
/// as a value and a capitalized one as a type (open exactly when `(..)`
/// follows it).
pub proof fn law_import_exposing(toks: Seq<Token>, imps: Seq<Import>, i: int)
    requires
        imports_read(toks, imports_start(toks), imps),
        0 <= i < imps.len(),
    ensures
        ({
            let b = import_tail(toks, import_at(toks, imports_start(toks), i as nat));
            &&& (imps[i].exposing is Nothing <==> !(tk(toks, b).tok is Exposing))
            &&& tk(toks, b).tok is Exposing ==> (imps[i].exposing matches ImportExposing::Explicit(xs) && xs@.len() >= 1
                && forall|k: int|
                #![trigger xs@[k]]
                0 <= k < xs@.len() ==> {
                    let t = tk(toks, item_at(toks, nx(toks, nx(toks, b)), k as nat));
                    match t.tok {
                        Tok::Ident(n) => xs@[k] matches Exposed::Value { name, span } && name@ == n@ && span == t.span,
                        Tok::Upper(n) => xs@[k] matches Exposed::Type { name, open, span } && name@ == n@ && span
                            == t.span && open == (tk(
                            toks,
                            nx(toks, item_at(toks, nx(toks, nx(toks, b)), k as nat)),
                        ).tok is LParen),
                        _ => false,
                    }
                })
        }),
{
    lemma_imports_read_at(toks, imports_start(toks), imps, i);
}

} // verus!
