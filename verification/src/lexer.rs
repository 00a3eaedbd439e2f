//! Lexer: source text -> `Vec<Token>` with spans.
//!
//! The lexer is layout-agnostic: it records the line and column of every token
//! and whether it is the first on its line, so the separate layout pass can
//! apply the offside rule. Newlines are not tokens. A digit run lexes to `Int`,
//! or `Float` when a `.` with a following digit is present; operator symbols
//! lex by maximal munch into one `Op`, with `->` and `--` taking priority.
//! An interpolated string lexes into `StrPart` chunks around `InterpStart` /
//! embedded tokens / `InterpEnd`; brace depth is tracked so a record or `case`
//! brace inside `${ … }` does not close the interpolation early.
use vstd::prelude::*;

use crate::ast::Span;
use crate::text::{
    byte_offset, byte_offsets, char_from_u32, chars_of, decimal_i64, is_scalar, push_decimal_i64, lemma_byte_offset_mono, push_char, push_str, str_eq,
    string_of_range,
};

verus! {

/// A token kind. A float literal keeps its source text (`1.5`): the lexer
/// only recognizes its shape, and messages show the literal as written.
#[derive(Debug, PartialEq)]
pub enum Tok {
    Ident(String),
    Upper(String),
    Str(String),
    StrPart(String),
    InterpStart,
    InterpEnd,
    Int(i64),
    Float(String),
    Char(char),
    Op(String),
    Let,
    In,
    Where,
    Of,
    Case,
    If,
    Then,
    Else,
    Type,
    Module,
    Import,
    Exposing,
    As,
    Equals,
    Backslash,
    Arrow,
    Colon,
    Comma,
    Dot,
    LParen,
    RParen,
    LBracket,
    RBracket,
    LBrace,
    RBrace,
    VLBrace,
    VRBrace,
    VSemi,
    Eof,
}

/// `format!("{:?}", s)`: a string literal as Rust's `Debug` writes it —
/// quoted, with quotes, backslashes and control characters escaped.
pub uninterp spec fn debug_string(s: Seq<char>) -> Seq<char>;

/// `format!("{:?}", c)`: a char literal as Rust's `Debug` writes it.
pub uninterp spec fn debug_char(c: char) -> Seq<char>;

/// Rust's `Debug` formatting of a string (`format!("{:?}")`).
#[verifier::external_body]
pub(crate) fn debug_string_of(s: &String) -> (r: String)
    ensures
        r@ == debug_string(s@),
{
    format!("{:?}", s)
}

/// Rust's `Debug` formatting of a char (`format!("{:?}")`).
#[verifier::external_body]
fn debug_char_of(c: char) -> (r: String)
    ensures
        r@ == debug_char(c),
{
    format!("{:?}", c)
}

/// How a token kind is written in messages.
pub open spec fn tok_text(t: Tok) -> Seq<char> {
    match t {
        Tok::Ident(s) => s@,
        Tok::Upper(s) => s@,
        Tok::Str(s) => debug_string(s@),
        Tok::StrPart(s) => debug_string(s@),
        Tok::InterpStart => "${"@,
        Tok::InterpEnd => "}"@,
        Tok::Int(n) => decimal_i64(n),
        Tok::Float(x) => x@,
        Tok::Char(c) => debug_char(c),
        Tok::Op(s) => s@,
        Tok::Let => "let"@,
        Tok::In => "in"@,
        Tok::Where => "where"@,
        Tok::Of => "of"@,
        Tok::Case => "case"@,
        Tok::If => "if"@,
        Tok::Then => "then"@,
        Tok::Else => "else"@,
        Tok::Type => "type"@,
        Tok::Module => "module"@,
        Tok::Import => "import"@,
        Tok::Exposing => "exposing"@,
        Tok::As => "as"@,
        Tok::Equals => "="@,
        Tok::Backslash => "\\"@,
        Tok::Arrow => "->"@,
        Tok::Colon => ":"@,
        Tok::Comma => ","@,
        Tok::Dot => "."@,
        Tok::LParen => "("@,
        Tok::RParen => ")"@,
        Tok::LBracket => "["@,
        Tok::RBracket => "]"@,
        Tok::LBrace => "{"@,
        Tok::RBrace => "}"@,
        Tok::VLBrace => "{"@,
        Tok::VRBrace => "}"@,
        Tok::VSemi => ";"@,
        Tok::Eof => "<eof>"@,
    }
}

impl Tok {
    /// Append how this token is written in messages to `out`.
    pub fn write_to(&self, out: &mut String)
        ensures
            final(out)@ == old(out)@ + tok_text(*self),
    {
        match self {
            Tok::Ident(s) => push_str(out, s.as_str()),
            Tok::Upper(s) => push_str(out, s.as_str()),
            Tok::Str(s) => {
                let d = debug_string_of(s);
                push_str(out, d.as_str());
            },
            Tok::StrPart(s) => {
                let d = debug_string_of(s);
                push_str(out, d.as_str());
            },
            Tok::InterpStart => push_str(out, "${"),
            Tok::InterpEnd => push_str(out, "}"),
            Tok::Int(n) => push_decimal_i64(out, *n),
            Tok::Float(x) => push_str(out, x.as_str()),
            Tok::Char(c) => {
                let d = debug_char_of(*c);
                push_str(out, d.as_str());
            },
            Tok::Op(s) => push_str(out, s.as_str()),
            Tok::Let => push_str(out, "let"),
            Tok::In => push_str(out, "in"),
            Tok::Where => push_str(out, "where"),
            Tok::Of => push_str(out, "of"),
            Tok::Case => push_str(out, "case"),
            Tok::If => push_str(out, "if"),
            Tok::Then => push_str(out, "then"),
            Tok::Else => push_str(out, "else"),
            Tok::Type => push_str(out, "type"),
            Tok::Module => push_str(out, "module"),
            Tok::Import => push_str(out, "import"),
            Tok::Exposing => push_str(out, "exposing"),
            Tok::As => push_str(out, "as"),
            Tok::Equals => push_str(out, "="),
            Tok::Backslash => push_str(out, "\\"),
            Tok::Arrow => push_str(out, "->"),
            Tok::Colon => push_str(out, ":"),
            Tok::Comma => push_str(out, ","),
            Tok::Dot => push_str(out, "."),
            Tok::LParen => push_str(out, "("),
            Tok::RParen => push_str(out, ")"),
            Tok::LBracket => push_str(out, "["),
            Tok::RBracket => push_str(out, "]"),
            Tok::LBrace => push_str(out, "{"),
            Tok::RBrace => push_str(out, "}"),
            Tok::VLBrace => push_str(out, "{"),
            Tok::VRBrace => push_str(out, "}"),
            Tok::VSemi => push_str(out, ";"),
            Tok::Eof => push_str(out, "<eof>"),
        }
    }

    /// How this token is written in messages (its `Display`).
    pub fn describe(&self) -> (r: String)
        ensures
            r@ == tok_text(*self),
    {
        let mut s = String::new();
        self.write_to(&mut s);
        proof {
            assert(s@ =~= tok_text(*self));
        }
        s
    }
}

#[derive(Debug)]
pub struct Token {
    pub tok: Tok,
    pub span: Span,
    pub line: usize,
    /// 1-based column of this token's first character.
    pub col: usize,
    pub first_on_line: bool,
}

#[derive(Debug)]
pub struct LexError {
    pub msg: String,
    pub span: Span,
}

impl LexError {
    /// The pipeline's error for this lexing failure: phase `Lex`, no note,
    /// in the entry file.
    pub fn into_error(self) -> (r: crate::Error)
        ensures
            r.phase == crate::Phase::Lex,
            r.msg == self.msg,
            r.span == self.span,
            r.note is None,
            r.file is None,
    {
        crate::Error { phase: crate::Phase::Lex, msg: self.msg, span: self.span, note: None, file: None }
    }
}

/// Whether a token kind is one the layout pass inserts.
pub open spec fn is_virtual(t: Tok) -> bool {
    t is VLBrace || t is VRBrace || t is VSemi
}

/// The tokens `toks` lie, in order and without overlapping, between byte
/// offsets `lo` and `hi`, and none is virtual or `Eof`.
pub open spec fn tokens_between(toks: Seq<Token>, lo: int, hi: int) -> bool {
    &&& forall|k: int| #![trigger toks[k]] 0 <= k < toks.len() ==> lo <= toks[k].span.start <= toks[k].span.end <= hi
    &&& forall|a: int, b: int| #![trigger toks[a], toks[b]] 0 <= a < b < toks.len() ==> toks[a].span.end <= toks[b].span.start
    &&& forall|k: int| #![trigger toks[k]] 0 <= k < toks.len() ==> !is_virtual(toks[k].tok) && !(toks[k].tok is Eof)
}

/// What a successful `lex` returns for a source of characters `cs`: tokens in
/// source order with disjoint spans inside the source, no virtual token, and a
/// single final zero-width `Eof` at the end of input.
pub open spec fn lexed(cs: Seq<char>, toks: Seq<Token>) -> bool {
    let total = byte_offset(cs, cs.len() as int);
    &&& toks.len() >= 1
    &&& tokens_between(toks.drop_last(), 0, total as int)
    &&& toks.last().tok is Eof
    &&& toks.last().span.start == total
    &&& toks.last().span.end == total
}

pub open spec fn is_operator_char_spec(c: char) -> bool {
    c == '+' || c == '-' || c == '*' || c == '/' || c == '^' || c == '<' || c == '>' || c
        == '=' || c == '&' || c == '|'
}

/// The characters that run together into one operator token.
pub fn is_operator_char(c: char) -> (r: bool)
    ensures
        r == is_operator_char_spec(c),
{
    c == '+' || c == '-' || c == '*' || c == '/' || c == '^' || c == '<' || c == '>' || c == '='
        || c == '&' || c == '|'
}

pub open spec fn is_digit(c: char) -> bool {
    '0' <= c && c <= '9'
}

pub open spec fn is_lower(c: char) -> bool {
    'a' <= c && c <= 'z'
}

pub open spec fn is_upper(c: char) -> bool {
    'A' <= c && c <= 'Z'
}

pub open spec fn is_ident_cont(c: char) -> bool {
    is_digit(c) || is_lower(c) || is_upper(c) || c == '_' || c == '\''
}

/// The value of a hexadecimal digit.
pub open spec fn hex_digit_value(c: char) -> Option<nat> {
    if is_digit(c) {
        Some((c as u32 - '0' as u32) as nat)
    } else if 'a' <= c && c <= 'f' {
        Some((c as u32 - 'a' as u32 + 10) as nat)
    } else if 'A' <= c && c <= 'F' {
        Some((c as u32 - 'A' as u32 + 10) as nat)
    } else {
        None
    }
}

/// The number a run of hex digits denotes, or `None` if one is not a digit.
pub open spec fn hex_run(ds: Seq<char>) -> Option<nat>
    decreases ds.len(),
{
    if ds.len() == 0 {
        Some(0)
    } else {
        match (hex_run(ds.drop_last()), hex_digit_value(ds.last())) {
            (Some(v), Some(d)) => Some(v * 16 + d),
            _ => None,
        }
    }
}

/// `u32::from_str_radix(ds, 16)`: an optional leading `+`, then at least one
/// hex digit, the value fitting in 32 bits.
pub open spec fn parse_hex_u32(ds: Seq<char>) -> Option<u32> {
    let body = if ds.len() > 0 && ds[0] == '+' {
        ds.drop_first()
    } else {
        ds
    };
    if body.len() == 0 {
        None
    } else {
        match hex_run(body) {
            Some(v) => if v <= u32::MAX {
                Some(v as u32)
            } else {
                None
            },
            None => None,
        }
    }
}


/// The index of the first `}` at or after `from`, if any.
pub open spec fn first_close_brace(cs: Seq<char>, from: int) -> Option<int>
    decreases cs.len() - from,
{
    if from >= cs.len() || from < 0 {
        None
    } else if cs[from] == '}' {
        Some(from)
    } else {
        first_close_brace(cs, from + 1)
    }
}

proof fn lemma_first_close_brace(cs: Seq<char>, from: int)
    requires
        0 <= from,
    ensures
        first_close_brace(cs, from) matches Some(j) ==> from <= j < cs.len() && cs[j] == '}' && (
        forall|k: int| from <= k < j ==> cs[k] != '}'),
        first_close_brace(cs, from) is None ==> forall|k: int| from <= k < cs.len() ==> cs[k]
            != '}',
    decreases cs.len() - from,
{
    if from < cs.len() && cs[from] != '}' {
        lemma_first_close_brace(cs, from + 1);
    }
}

fn hex_value(c: char) -> (r: Option<u32>)
    ensures
        r matches Some(v) ==> hex_digit_value(c) == Some(v as nat),
        r is None ==> hex_digit_value(c) is None,
{
    if '0' <= c && c <= '9' {
        Some(c as u32 - '0' as u32)
    } else if 'a' <= c && c <= 'f' {
        Some(c as u32 - 'a' as u32 + 10)
    } else if 'A' <= c && c <= 'F' {
        Some(c as u32 - 'A' as u32 + 10)
    } else {
        None
    }
}

proof fn lemma_hex_run_mono(ds: Seq<char>, i: int)
    requires
        0 <= i <= ds.len(),
        hex_run(ds) is Some,
    ensures
        hex_run(ds.subrange(0, i)) is Some,
        hex_run(ds.subrange(0, i))->0 <= hex_run(ds)->0,
    decreases ds.len() - i,
{
    if i < ds.len() {
        assert(ds.subrange(0, ds.len() as int) =~= ds);
        lemma_hex_run_mono(ds.drop_last(), i);
        assert(ds.drop_last().subrange(0, i) =~= ds.subrange(0, i));
    } else {
        assert(ds.subrange(0, i) =~= ds);
    }
}

/// `u32::from_str_radix(&cs[lo..hi], 16)`.
fn parse_hex_range(cs: &Vec<char>, lo: usize, hi: usize) -> (r: Option<u32>)
    requires
        lo <= hi <= cs.len(),
    ensures
        r == parse_hex_u32(cs@.subrange(lo as int, hi as int)),
{
    let ghost ds = cs@.subrange(lo as int, hi as int);
    let mut start = lo;
    if lo < hi && cs[lo] == '+' {
        start = lo + 1;
    }
    let ghost body = cs@.subrange(start as int, hi as int);
    proof {
        if lo < hi && cs@[lo as int] == '+' {
            assert(body =~= ds.drop_first());
        } else {
            assert(body =~= ds);
        }
    }
    assert(parse_hex_u32(ds) == if body.len() == 0 {
        None
    } else {
        match hex_run(body) {
            Some(v) => if v <= u32::MAX {
                Some(v as u32)
            } else {
                None
            },
            None => None,
        }
    });
    if start == hi {
        return None;
    }
    let mut v: u64 = 0;
    let mut i = start;
    while i < hi
        invariant
            start <= i <= hi <= cs.len(),
            body == cs@.subrange(start as int, hi as int),
            ds == cs@.subrange(lo as int, hi as int),
            body.len() > 0,
            parse_hex_u32(ds) == match hex_run(body) {
                Some(v) => if v <= u32::MAX {
                    Some(v as u32)
                } else {
                    None
                },
                None => None,
            },
            hex_run(cs@.subrange(start as int, i as int)) == Some(v as nat),
            v <= u32::MAX,
        decreases hi - i,
    {
        let d = hex_value(cs[i]);
        proof {
            let pre = cs@.subrange(start as int, i + 1);
            assert(pre.drop_last() =~= cs@.subrange(start as int, i as int));
            assert(pre.last() == cs@[i as int]);
        }
        match d {
            None => {
                proof {
                    // a bad digit anywhere makes the whole run fail
                    if hex_run(body) is Some {
                        lemma_hex_run_mono(body, i - start + 1);
                        assert(body.subrange(0, i - start + 1) =~= cs@.subrange(
                            start as int,
                            i + 1,
                        ));
                    }
                }
                return None;
            },
            Some(dv) => {
                let nv = v * 16 + dv as u64;
                if nv > 0xFFFF_FFFFu64 {
                    proof {
                        if hex_run(body) is Some {
                            lemma_hex_run_mono(body, i - start + 1);
                            assert(body.subrange(0, i - start + 1) =~= cs@.subrange(
                                start as int,
                                i + 1,
                            ));
                            lemma_hex_run_mono(body, body.len() as int);
                            assert(body.subrange(0, body.len() as int) =~= body);
                        }
                    }
                    return None;
                }
                v = nv;
            },
        }
        i = i + 1;
    }
    proof {
        assert(cs@.subrange(start as int, i as int) =~= body);
    }
    Some(v as u32)
}

pub struct UnicodeEscape {
    pub scalar: char,
    pub next_i: usize,
    pub next_col: usize,
}

/// What `\u{…}` at `backslash` denotes: the scalar, or `None` when the braces
/// are missing, the body is not hex, or the value is not a scalar.
pub open spec fn unicode_escape_spec(cs: Seq<char>, backslash: int) -> Option<(char, int)> {
    if backslash + 2 >= cs.len() || cs[backslash + 2] != '{' {
        None
    } else {
        match first_close_brace(cs, backslash + 3) {
            None => None,
            Some(j) => match parse_hex_u32(cs.subrange(backslash + 3, j)) {
                Some(v) => if is_scalar(v) {
                    Some((v as char, j + 1))
                } else {
                    None
                },
                None => None,
            },
        }
    }
}

/// The index whose byte offset ends the error span of a malformed `\u{…}`
/// escape at `backslash`: the `{` that is missing, else the end of input
/// when there is no `}`, else just past the `}`.
pub open spec fn unicode_escape_err_end(cs: Seq<char>, backslash: int) -> int {
    if backslash + 2 >= cs.len() || cs[backslash + 2] != '{' {
        if backslash + 2 < cs.len() {
            backslash + 2
        } else {
            cs.len() as int
        }
    } else {
        match first_close_brace(cs, backslash + 3) {
            None => cs.len() as int,
            Some(j) => j + 1,
        }
    }
}

fn lex_err(msg: &str, lo: usize, hi: usize) -> (r: LexError)
    ensures
        r.msg@ == msg@,
        r.span.start == lo,
        r.span.end == hi,
{
    LexError { msg: msg.to_string(), span: lo..hi }
}

/// Decode a `\u{HHHH}` escape, `backslash` indexing the `\`.
fn scan_unicode_escape(
    chars: &Vec<char>,
    byte_at: &Vec<usize>,
    backslash: usize,
    backslash_col: usize,
    literal_start_byte: usize,
) -> (r: Result<UnicodeEscape, LexError>)
    requires
        byte_at.len() == chars.len() + 1,
        backslash < chars.len(),
        backslash_col <= backslash + 1,
        chars.len() * 4 + 8 <= usize::MAX,
        forall|a: int, b: int| 0 <= a <= b <= chars.len() ==> byte_at[a] <= byte_at[b],
        literal_start_byte <= byte_at[backslash as int],
    ensures
        r matches Ok(e) ==> unicode_escape_spec(chars@, backslash as int) == Some(
            (e.scalar, e.next_i as int),
        ) && e.next_col == backslash_col + (e.next_i - backslash) && backslash < e.next_i
            <= chars.len(),
        r is Err <==> unicode_escape_spec(chars@, backslash as int) is None,
        r matches Err(e) ==> e.msg@ == "invalid \\u{...} escape"@ && e.span.start
            == literal_start_byte && e.span.start <= e.span.end <= byte_at[chars.len() as int],
        r matches Err(e) ==> e.span.end == byte_at[unicode_escape_err_end(chars@, backslash as int)],
{
    let bad = "invalid \\u{...} escape";
    let n = chars.len();
    if backslash + 2 >= n || chars[backslash + 2] != '{' {
        let k = if backslash + 2 < n {
            backslash + 2
        } else {
            n
        };
        return Err(lex_err(bad, literal_start_byte, byte_at[k]));
    }
    let mut j = backslash + 3;
    while j < n && chars[j] != '}'
        invariant
            backslash + 3 <= j <= n,
            n == chars.len(),
            first_close_brace(chars@, backslash + 3) == first_close_brace(chars@, j as int),
        decreases n - j,
    {
        j = j + 1;
    }
    if j >= n {
        return Err(lex_err(bad, literal_start_byte, byte_at[n]));
    }
    proof {
        assert(first_close_brace(chars@, j as int) == Some(j as int));
    }
    let code = parse_hex_range(chars, backslash + 3, j);
    match code {
        None => {
            return Err(lex_err(bad, literal_start_byte, byte_at[j + 1]));
        },
        Some(v) => {
            if v > 0x10FFFF || (0xD800 <= v && v <= 0xDFFF) {
                return Err(lex_err(bad, literal_start_byte, byte_at[j + 1]));
            }
            let scalar = match char_from_u32(v) {
                Some(c) => c,
                None => {
                    return Err(lex_err(bad, literal_start_byte, byte_at[j + 1]));
                },
            };
            Ok(UnicodeEscape { scalar, next_i: j + 1, next_col: backslash_col + (j + 1 - backslash) })
        },
    }
}

pub struct CharLiteral {
    pub scalar: char,
    pub next_i: usize,
    pub next_col: usize,
}

/// The scalar a `'…'` literal opening at `open` denotes, and the index just
/// past its closing quote; `None` for every malformed literal.
pub open spec fn char_literal_spec(cs: Seq<char>, open: int) -> Option<(char, int)> {
    let content = open + 1;
    if content >= cs.len() || cs[content] == '\'' || cs[content] == '\n' {
        None
    } else {
        let body: Option<(char, int)> = if cs[content] == '\\' {
            if content + 1 >= cs.len() {
                None
            } else if cs[content + 1] == 'u' {
                unicode_escape_spec(cs, content)
            } else if cs[content + 1] == 'n' {
                Some(('\n', content + 2))
            } else if cs[content + 1] == 't' {
                Some(('\t', content + 2))
            } else if cs[content + 1] == '\\' {
                Some(('\\', content + 2))
            } else if cs[content + 1] == '\'' {
                Some(('\'', content + 2))
            } else {
                None
            }
        } else {
            Some((cs[content], content + 1))
        };
        match body {
            None => None,
            Some((c, after)) => if after >= cs.len() || cs[after] != '\'' {
                None
            } else {
                Some((c, after + 1))
            },
        }
    }
}

/// The message and the end index (its byte offset ends the span) of the
/// error for a malformed char literal opening at `open`.
pub open spec fn char_literal_err(cs: Seq<char>, open: int) -> (Seq<char>, int) {
    let n = cs.len() as int;
    let content = open + 1;
    if content >= n {
        ("unterminated char literal"@, n)
    } else if cs[content] == '\'' {
        ("empty char literal"@, content + 1)
    } else if cs[content] == '\n' {
        ("unterminated char literal"@, content)
    } else {
        let body: Result<int, (Seq<char>, int)> = if cs[content] == '\\' {
            if content + 1 >= n {
                Err(("unterminated char literal"@, n))
            } else if cs[content + 1] == 'u' {
                match unicode_escape_spec(cs, content) {
                    Some((_, j)) => Ok(j),
                    None => Err(("invalid \\u{...} escape"@, unicode_escape_err_end(cs, content))),
                }
            } else if cs[content + 1] == 'n' || cs[content + 1] == 't' || cs[content + 1] == '\\' || cs[content + 1] == '\'' {
                Ok(content + 2)
            } else {
                Err(("invalid char literal escape"@, if content + 2 < n { content + 2 } else { n }))
            }
        } else {
            Ok(content + 1)
        };
        match body {
            Err(e) => e,
            Ok(after) => if after >= n {
                ("unterminated char literal"@, n)
            } else {
                ("char literal must be a single scalar"@, if after + 1 < n { after + 1 } else { n })
            },
        }
    }
}

/// Scan a `'…'` char literal, `open` indexing the opening `'`: one plain
/// scalar or one escape (`\n`, `\t`, `\\`, `\'`, `\u{…}`), then `'`.
fn scan_char_literal(
    chars: &Vec<char>,
    byte_at: &Vec<usize>,
    open: usize,
    open_col: usize,
    open_byte: usize,
) -> (r: Result<CharLiteral, LexError>)
    requires
        byte_at.len() == chars.len() + 1,
        open < chars.len(),
        open_col <= open + 1,
        chars.len() * 4 + 8 <= usize::MAX,
        forall|a: int, b: int| 0 <= a <= b <= chars.len() ==> byte_at[a] <= byte_at[b],
        open_byte == byte_at[open as int],
    ensures
        r matches Ok(l) ==> char_literal_spec(chars@, open as int) == Some(
            (l.scalar, l.next_i as int),
        ) && open < l.next_i <= chars.len() && l.next_col == open_col + (l.next_i - open),
        r is Err <==> char_literal_spec(chars@, open as int) is None,
        r matches Err(e) ==> e.span.start == open_byte && e.span.start <= e.span.end <= byte_at[chars.len() as int],
        r matches Err(e) ==> e.msg@ == char_literal_err(chars@, open as int).0 && e.span.end
            == byte_at[char_literal_err(chars@, open as int).1],
{
    let n = chars.len();
    let content = open + 1;
    if content >= n {
        return Err(lex_err("unterminated char literal", open_byte, byte_at[n]));
    }
    let first = chars[content];
    if first == '\'' {
        return Err(lex_err("empty char literal", open_byte, byte_at[content + 1]));
    }
    if first == '\n' {
        return Err(lex_err("unterminated char literal", open_byte, byte_at[content]));
    }
    let scalar: char;
    let after: usize;
    let after_col: usize;
    if first == '\\' {
        if content + 1 >= n {
            return Err(lex_err("unterminated char literal", open_byte, byte_at[n]));
        }
        let next = chars[content + 1];
        if next == 'u' {
            let scan = scan_unicode_escape(chars, byte_at, content, open_col + 1, open_byte);
            match scan {
                Err(e) => {
                    return Err(e);
                },
                Ok(s) => {
                    scalar = s.scalar;
                    after = s.next_i;
                    after_col = s.next_col;
                },
            }
        } else {
            let repl = if next == 'n' {
                '\n'
            } else if next == 't' {
                '\t'
            } else if next == '\\' {
                '\\'
            } else if next == '\'' {
                '\''
            } else {
                let k = if content + 2 < n {
                    content + 2
                } else {
                    n
                };
                return Err(lex_err("invalid char literal escape", open_byte, byte_at[k]));
            };
            scalar = repl;
            after = content + 2;
            after_col = open_col + 3;
        }
    } else {
        scalar = first;
        after = content + 1;
        after_col = open_col + 2;
    }
    if after >= n {
        return Err(lex_err("unterminated char literal", open_byte, byte_at[n]));
    }
    if chars[after] != '\'' {
        let k = if after + 1 < n {
            after + 1
        } else {
            n
        };
        return Err(lex_err("char literal must be a single scalar", open_byte, byte_at[k]));
    }
    Ok(CharLiteral { scalar, next_i: after + 1, next_col: after_col + 1 })
}

pub enum SegmentEnd {
    ClosingQuote,
    Interpolation,
}

pub struct Segment {
    pub literal: String,
    pub end: SegmentEnd,
    pub next_i: usize,
    pub next_col: usize,
}

/// The string segment starting at `i`, escapes resolved: the decoded text,
/// whether it stopped at `${` (else at the closing quote), and the index
/// just past what stopped it; `None` when it is unterminated or holds a bad
/// `\u{…}` escape.
pub open spec fn segment_spec(cs: Seq<char>, i: int) -> Option<(Seq<char>, bool, int)>
    decreases cs.len() - i,
{
    let n = cs.len() as int;
    if i < 0 || i >= n {
        None
    } else if cs[i] == '"' {
        Some((Seq::empty(), false, i + 1))
    } else if cs[i] == '$' && i + 1 < n && cs[i + 1] == '{' {
        Some((Seq::empty(), true, i + 2))
    } else if cs[i] == '\\' && i + 1 < n {
        let next = cs[i + 1];
        if next == '$' && i + 2 < n && cs[i + 2] == '{' {
            prefix_segment(seq!['$', '{'], segment_spec(cs, i + 3))
        } else if next == 'u' {
            match unicode_escape_spec(cs, i) {
                None => None,
                Some((c, j)) => if i < j <= n {
                    prefix_segment(seq![c], segment_spec(cs, j))
                } else {
                    None
                },
            }
        } else {
            let repl = if next == 'n' {
                '\n'
            } else if next == 't' {
                '\t'
            } else {
                next
            };
            prefix_segment(seq![repl], segment_spec(cs, i + 2))
        }
    } else if cs[i] == '\n' {
        None
    } else {
        prefix_segment(seq![cs[i]], segment_spec(cs, i + 1))
    }
}

/// A segment result with `p` in front of its text.
pub open spec fn prefix_segment(p: Seq<char>, o: Option<(Seq<char>, bool, int)>) -> Option<(Seq<char>, bool, int)> {
    match o {
        Some(x) => Some((p + x.0, x.1, x.2)),
        None => None,
    }
}

/// Consume one string segment, from `start` up to the next `"` or `${`,
/// resolving escapes (`\n`, `\t`, `\"`, `\\`, `\${`, `\u{…}`, and `\x` → `x`).
/// A raw newline or end of input first is an unterminated string.
fn scan_string_segment(
    chars: &Vec<char>,
    byte_at: &Vec<usize>,
    start: usize,
    start_col: usize,
    string_start_byte: usize,
) -> (r: Result<Segment, LexError>)
    requires
        byte_at.len() == chars.len() + 1,
        start <= chars.len(),
        start_col <= start + 1,
        chars.len() * 4 + 8 <= usize::MAX,
        forall|a: int, b: int| 0 <= a <= b <= chars.len() ==> byte_at[a] <= byte_at[b],
        string_start_byte <= byte_at[start as int],
    ensures
        r matches Ok(s) ==> start < s.next_i <= chars.len() && s.next_col == start_col + (
        s.next_i - start) && match s.end {
            SegmentEnd::ClosingQuote => chars@[s.next_i - 1] == '"',
            SegmentEnd::Interpolation => start + 2 <= s.next_i && chars@[s.next_i - 2] == '$'
                && chars@[s.next_i - 1] == '{',
        },
        r matches Err(e) ==> e.span.start == string_start_byte && e.span.start <= e.span.end <= byte_at[chars.len() as int],
        r is Ok <==> segment_spec(chars@, start as int) is Some,
        r matches Ok(s) ==> segment_spec(chars@, start as int) == Some(
            (s.literal@, s.end is Interpolation, s.next_i as int),
        ),
{
    let n = chars.len();
    let mut i = start;
    let mut col = start_col;
    let mut literal = String::new();
    proof {
        assert(literal@ + Seq::<char>::empty() =~= Seq::<char>::empty());
    }
    loop
        invariant
            segment_spec(chars@, start as int) == prefix_segment(literal@, segment_spec(chars@, i as int)),
            n == chars.len(),
            byte_at.len() == n + 1,
            start <= i <= n,
            col == start_col + (i - start),
            start_col <= start + 1,
            n * 4 + 8 <= usize::MAX,
            forall|a: int, b: int| 0 <= a <= b <= n ==> byte_at[a] <= byte_at[b],
            string_start_byte <= byte_at[start as int],
        decreases n - i,
    {
        if i >= n {
            return Err(lex_err("unterminated string literal", string_start_byte, byte_at[n]));
        }
        let c = chars[i];
        if c == '"' {
            return Ok(
                Segment {
                    literal,
                    end: SegmentEnd::ClosingQuote,
                    next_i: i + 1,
                    next_col: col + 1,
                },
            );
        }
        if c == '$' && i + 1 < n && chars[i + 1] == '{' {
            return Ok(
                Segment {
                    literal,
                    end: SegmentEnd::Interpolation,
                    next_i: i + 2,
                    next_col: col + 2,
                },
            );
        }
        if c == '\\' && i + 1 < n {
            let next = chars[i + 1];
            if next == '$' && i + 2 < n && chars[i + 2] == '{' {
                push_char(&mut literal, '$');
                push_char(&mut literal, '{');
                i = i + 3;
                col = col + 3;
                continue ;
            }
            if next == 'u' {
                let scan = scan_unicode_escape(chars, byte_at, i, col, string_start_byte);
                match scan {
                    Err(e) => {
                        return Err(e);
                    },
                    Ok(s) => {
                        push_char(&mut literal, s.scalar);
                        i = s.next_i;
                        col = s.next_col;
                        continue ;
                    },
                }
            }
            let repl = if next == 'n' {
                '\n'
            } else if next == 't' {
                '\t'
            } else {
                next
            };
            push_char(&mut literal, repl);
            i = i + 2;
            col = col + 2;
            continue ;
        }
        if c == '\n' {
            return Err(lex_err("unterminated string literal", string_start_byte, byte_at[i]));
        }
        push_char(&mut literal, c);
        i = i + 1;
        col = col + 1;
    }
}

pub struct SegmentEmission {
    pub next_i: usize,
    pub next_col: usize,
    pub entered_interpolation: bool,
}

/// Scan and push one string segment, then (if it ended at a `${`) push an
/// `InterpStart`. The first segment of a string that ends at its closing
/// quote becomes one plain `Str` spanning the whole `"…"`; every other
/// segment becomes a `StrPart`.
fn emit_string_segment(
    toks: &mut Vec<Token>,
    chars: &Vec<char>,
    byte_at: &Vec<usize>,
    string_start_byte: usize,
    line: usize,
    first_on_line: bool,
    is_first_segment: bool,
    seg_start_i: usize,
    seg_start_col: usize,
) -> (r: Result<SegmentEmission, LexError>)
    requires
        byte_at.len() == chars.len() + 1,
        1 <= seg_start_i <= chars.len(),
        seg_start_col >= 1,
        seg_start_col <= seg_start_i + 1,
        chars.len() * 4 + 8 <= usize::MAX,
        forall|a: int, b: int| 0 <= a <= b <= chars.len() ==> byte_at[a] <= byte_at[b],
        string_start_byte <= byte_at[seg_start_i as int],
    ensures
        r matches Ok(e) ==> {
            &&& seg_start_i < e.next_i <= chars.len()
            &&& e.next_col == seg_start_col + (e.next_i - seg_start_i)
            &&& final(toks)@.len() > old(toks)@.len()
            &&& final(toks)@.subrange(0, old(toks)@.len() as int) == old(toks)@
            &&& tokens_between(
                final(toks)@.subrange(old(toks)@.len() as int, final(toks)@.len() as int),
                if is_first_segment {
                    string_start_byte as int
                } else {
                    byte_at[seg_start_i as int] as int
                },
                byte_at[e.next_i as int] as int,
            )
            &&& (e.entered_interpolation ==> final(toks)@.last().tok is InterpStart)
        },
        r is Err ==> final(toks)@ == old(toks)@,
        r matches Err(e) ==> e.span.start <= e.span.end <= byte_at[chars.len() as int],
{
    let seg = scan_string_segment(chars, byte_at, seg_start_i, seg_start_col, string_start_byte);
    let seg = match seg {
        Err(e) => {
            return Err(e);
        },
        Ok(s) => s,
    };
    let entered_interpolation = match seg.end {
        SegmentEnd::Interpolation => true,
        SegmentEnd::ClosingQuote => false,
    };
    let content_end_i = match seg.end {
        SegmentEnd::ClosingQuote => seg.next_i - 1,
        SegmentEnd::Interpolation => seg.next_i - 2,
    };
    let coalesced_literal = is_first_segment && !entered_interpolation;
    let part_span = if coalesced_literal {
        string_start_byte..byte_at[seg.next_i]
    } else {
        byte_at[seg_start_i]..byte_at[content_end_i]
    };
    let part_col = if coalesced_literal {
        seg_start_col - 1
    } else {
        seg_start_col
    };
    let part_tok = if coalesced_literal {
        Tok::Str(seg.literal)
    } else {
        Tok::StrPart(seg.literal)
    };
    let ghost old_len = toks@.len();
    toks.push(Token { tok: part_tok, span: part_span, line, col: part_col, first_on_line });
    if entered_interpolation {
        toks.push(
            Token {
                tok: Tok::InterpStart,
                span: byte_at[content_end_i]..byte_at[seg.next_i],
                line,
                col: seg.next_col - 2,
                first_on_line: false,
            },
        );
    }
    proof {
        let added = toks@.subrange(old_len as int, toks@.len() as int);
        assert(toks@.subrange(0, old_len as int) =~= old(toks)@);
        if entered_interpolation {
            assert(added.len() == 2);
            assert(added[0] == toks@[old_len as int]);
            assert(added[1] == toks@[old_len as int + 1]);
        } else {
            assert(added.len() == 1);
            assert(added[0] == toks@[old_len as int]);
        }
    }
    Ok(
        SegmentEmission {
            next_i: seg.next_i,
            next_col: seg.next_col,
            entered_interpolation,
        },
    )
}

/// The keyword token `w` spells, if it is one.
pub open spec fn keyword(w: Seq<char>) -> Option<Tok> {
    if w == "let"@ {
        Some(Tok::Let)
    } else if w == "in"@ {
        Some(Tok::In)
    } else if w == "where"@ {
        Some(Tok::Where)
    } else if w == "of"@ {
        Some(Tok::Of)
    } else if w == "case"@ {
        Some(Tok::Case)
    } else if w == "if"@ {
        Some(Tok::If)
    } else if w == "then"@ {
        Some(Tok::Then)
    } else if w == "else"@ {
        Some(Tok::Else)
    } else if w == "type"@ {
        Some(Tok::Type)
    } else if w == "module"@ {
        Some(Tok::Module)
    } else if w == "import"@ {
        Some(Tok::Import)
    } else if w == "exposing"@ {
        Some(Tok::Exposing)
    } else if w == "as"@ {
        Some(Tok::As)
    } else {
        None
    }
}

/// `t` is the token a lowercase word `w` reads as: its keyword, or else an
/// identifier spelled `w`.
pub open spec fn word_token(w: Seq<char>, t: Tok) -> bool {
    match keyword(w) {
        Some(k) => t == k,
        None => t matches Tok::Ident(n) && n@ == w,
    }
}

fn keyword_or_ident(word: String) -> (t: Tok)
    ensures
        !is_virtual(t),
        !(t is Eof),
        word_token(word@, t),
{
    if str_eq(word.as_str(), "let") {
        Tok::Let
    } else if str_eq(word.as_str(), "in") {
        Tok::In
    } else if str_eq(word.as_str(), "where") {
        Tok::Where
    } else if str_eq(word.as_str(), "of") {
        Tok::Of
    } else if str_eq(word.as_str(), "case") {
        Tok::Case
    } else if str_eq(word.as_str(), "if") {
        Tok::If
    } else if str_eq(word.as_str(), "then") {
        Tok::Then
    } else if str_eq(word.as_str(), "else") {
        Tok::Else
    } else if str_eq(word.as_str(), "type") {
        Tok::Type
    } else if str_eq(word.as_str(), "module") {
        Tok::Module
    } else if str_eq(word.as_str(), "import") {
        Tok::Import
    } else if str_eq(word.as_str(), "exposing") {
        Tok::Exposing
    } else if str_eq(word.as_str(), "as") {
        Tok::As
    } else {
        Tok::Ident(word)
    }
}

/// The reserved words of the language: each of them reads as its own
/// keyword token and never as a name, and any other lowercase word reads as
/// the name it spells.
pub proof fn law_keywords(w: Seq<char>, t: Tok)
    requires
        word_token(w, t),
    ensures
        t is Ident <==> !(w == "let"@ || w == "in"@ || w == "where"@ || w == "of"@ || w == "case"@ || w == "if"@ || w == "then"@ || w == "else"@ || w == "type"@ || w == "module"@ || w == "import"@ || w == "exposing"@ || w == "as"@),
        t is Ident ==> t->Ident_0@ == w,
        w == "let"@ ==> t == Tok::Let,
        w == "in"@ ==> t == Tok::In,
        w == "where"@ ==> t == Tok::Where,
        w == "of"@ ==> t == Tok::Of,
        w == "case"@ ==> t == Tok::Case,
        w == "if"@ ==> t == Tok::If,
        w == "then"@ ==> t == Tok::Then,
        w == "else"@ ==> t == Tok::Else,
        w == "type"@ ==> t == Tok::Type,
        w == "module"@ ==> t == Tok::Module,
        w == "import"@ ==> t == Tok::Import,
        w == "exposing"@ ==> t == Tok::Exposing,
        w == "as"@ ==> t == Tok::As,
{
    reveal_strlit("let");
    reveal_strlit("in");
    reveal_strlit("where");
    reveal_strlit("of");
    reveal_strlit("case");
    reveal_strlit("if");
    reveal_strlit("then");
    reveal_strlit("else");
    reveal_strlit("type");
    reveal_strlit("module");
    reveal_strlit("import");
    reveal_strlit("exposing");
    reveal_strlit("as");
    if w == "let"@ {
        assert(w.len() == 3 && w[0] == 'l' && w[1] == 'e' && w[2] == 't');
    }
    if w == "in"@ {
        assert(w.len() == 2 && w[0] == 'i' && w[1] == 'n');
    }
    if w == "where"@ {
        assert(w.len() == 5 && w[0] == 'w' && w[1] == 'h' && w[2] == 'e' && w[3] == 'r' && w[4] == 'e');
    }
    if w == "of"@ {
        assert(w.len() == 2 && w[0] == 'o' && w[1] == 'f');
    }
    if w == "case"@ {
        assert(w.len() == 4 && w[0] == 'c' && w[1] == 'a' && w[2] == 's' && w[3] == 'e');
    }
    if w == "if"@ {
        assert(w.len() == 2 && w[0] == 'i' && w[1] == 'f');
    }
    if w == "then"@ {
        assert(w.len() == 4 && w[0] == 't' && w[1] == 'h' && w[2] == 'e' && w[3] == 'n');
    }
    if w == "else"@ {
        assert(w.len() == 4 && w[0] == 'e' && w[1] == 'l' && w[2] == 's' && w[3] == 'e');
    }
    if w == "type"@ {
        assert(w.len() == 4 && w[0] == 't' && w[1] == 'y' && w[2] == 'p' && w[3] == 'e');
    }
    if w == "module"@ {
        assert(w.len() == 6 && w[0] == 'm' && w[1] == 'o' && w[2] == 'd' && w[3] == 'u' && w[4] == 'l' && w[5] == 'e');
    }
    if w == "import"@ {
        assert(w.len() == 6 && w[0] == 'i' && w[1] == 'm' && w[2] == 'p' && w[3] == 'o' && w[4] == 'r' && w[5] == 't');
    }
    if w == "exposing"@ {
        assert(w.len() == 8 && w[0] == 'e' && w[1] == 'x' && w[2] == 'p' && w[3] == 'o' && w[4] == 's' && w[5] == 'i' && w[6] == 'n' && w[7] == 'g');
    }
    if w == "as"@ {
        assert(w.len() == 2 && w[0] == 'a' && w[1] == 's');
    }
}

fn is_ident_cont_char(c: char) -> (r: bool)
    ensures
        r == is_ident_cont(c),
{
    ('0' <= c && c <= '9') || ('a' <= c && c <= 'z') || ('A' <= c && c <= 'Z') || c == '_' || c
        == '\''
}

/// The value of a run of decimal digits.
pub open spec fn digits_val(s: Seq<char>) -> int
    decreases s.len(),
{
    if s.len() == 0 {
        0
    } else {
        digits_val(s.drop_last()) * 10 + (s.last() as int - '0' as int)
    }
}

proof fn lemma_digits_grow(cs: Seq<char>, lo: int, a: int, b: int)
    requires
        0 <= lo <= a <= b <= cs.len(),
        forall|k: int| lo <= k < b ==> is_digit(#[trigger] cs[k]),
    ensures
        0 <= digits_val(cs.subrange(lo, a)) <= digits_val(cs.subrange(lo, b)),
    decreases b - a,
{
    if a == b {
        lemma_digits_nonneg(cs, lo, a);
    } else {
        lemma_digits_grow(cs, lo, a, b - 1);
        assert(cs.subrange(lo, b).drop_last() =~= cs.subrange(lo, b - 1));
        lemma_digits_nonneg(cs, lo, b - 1);
    }
}

proof fn lemma_digits_nonneg(cs: Seq<char>, lo: int, a: int)
    requires
        0 <= lo <= a <= cs.len(),
        forall|k: int| lo <= k < a ==> is_digit(#[trigger] cs[k]),
    ensures
        0 <= digits_val(cs.subrange(lo, a)),
    decreases a - lo,
{
    if a > lo {
        lemma_digits_nonneg(cs, lo, a - 1);
        assert(cs.subrange(lo, a).drop_last() =~= cs.subrange(lo, a - 1));
    }
}

/// The decimal value of `cs[lo..hi]`, all digits, if it fits in `i64`.
fn parse_decimal_range(cs: &Vec<char>, lo: usize, hi: usize) -> (r: Option<i64>)
    requires
        lo <= hi <= cs.len(),
        forall|k: int| lo <= k < hi ==> is_digit(#[trigger] cs@[k]),
    ensures
        r is Some <==> digits_val(cs@.subrange(lo as int, hi as int)) <= i64::MAX,
        r matches Some(v) ==> v == digits_val(cs@.subrange(lo as int, hi as int)),
{
    let mut v: i64 = 0;
    let mut i = lo;
    proof {
        assert(cs@.subrange(lo as int, lo as int) =~= Seq::<char>::empty());
    }
    while i < hi
        invariant
            lo <= i <= hi <= cs.len(),
            v >= 0,
            v == digits_val(cs@.subrange(lo as int, i as int)),
            forall|k: int| lo <= k < hi ==> is_digit(#[trigger] cs@[k]),
        decreases hi - i,
    {
        let d = (cs[i] as u32 - '0' as u32) as i64;
        proof {
            assert(cs@.subrange(lo as int, i + 1).drop_last() =~= cs@.subrange(lo as int, i as int));
            assert(cs@.subrange(lo as int, i + 1).last() == cs@[i as int]);
        }
        if v > (i64::MAX - d) / 10 {
            proof {
                assert(v * 10 + d > i64::MAX) by (nonlinear_arith)
                    requires
                        v > (i64::MAX - d) / 10,
                        0 <= d <= 9,
                ;
                lemma_digits_grow(cs@, lo as int, i + 1, hi as int);
            }
            return None;
        }
        proof {
            assert(v * 10 + d <= i64::MAX) by (nonlinear_arith)
                requires
                    v <= (i64::MAX - d) / 10,
                    0 <= d <= 9,
                    v >= 0,
            ;
        }
        v = v * 10 + d;
        i = i + 1;
    }
    Some(v)
}

fn push_token(
    toks: &mut Vec<Token>,
    tok: Tok,
    start_byte: usize,
    end_byte: usize,
    line: usize,
    col: usize,
    first_on_line: bool,
)
    ensures
        final(toks)@ == old(toks)@.push(
            Token { tok, span: start_byte..end_byte, line, col, first_on_line },
        ),
{
    toks.push(Token { tok, span: start_byte..end_byte, line, col, first_on_line });
}

proof fn lemma_extend(toks: Seq<Token>, more: Seq<Token>, lo: int, mid: int, hi: int)
    requires
        lo <= mid <= hi,
        tokens_between(toks, lo, mid),
        tokens_between(more, mid, hi),
    ensures
        tokens_between(toks + more, lo, hi),
{
    let all = toks + more;
    assert forall|k: int| 0 <= k < all.len() implies lo <= #[trigger] all[k].span.start
        <= all[k].span.end <= hi by {
        if k < toks.len() {
            assert(all[k] == toks[k]);
        } else {
            assert(all[k] == more[k - toks.len()]);
        }
    }
    assert forall|k: int| 0 <= k < all.len() implies !is_virtual(#[trigger] all[k].tok) && !(all[k].tok is Eof) by {
        if k < toks.len() {
            assert(all[k] == toks[k]);
        } else {
            assert(all[k] == more[k - toks.len()]);
        }
    }
    lemma_extend_order(toks, more, lo, mid, hi);
}

proof fn lemma_extend_order(toks: Seq<Token>, more: Seq<Token>, lo: int, mid: int, hi: int)
    requires
        tokens_between(toks, lo, mid),
        tokens_between(more, mid, hi),
    ensures
        forall|a: int, b: int| #![trigger (toks + more)[a], (toks + more)[b]] 0 <= a < b < (toks + more).len() ==> (toks + more)[a].span.end <= (toks + more)[b].span.start,
{
    let all = toks + more;
    assert forall|a: int, b: int| 0 <= a < b < all.len() implies #[trigger] all[a].span.end <= #[trigger] all[b].span.start by {
        if b < toks.len() {
            assert(all[a] == toks[a]);
            assert(all[b] == toks[b]);
        } else if a < toks.len() {
            assert(all[a] == toks[a]);
            assert(all[b] == more[b - toks.len()]);
        } else {
            assert(all[a] == more[a - toks.len()]);
            assert(all[b] == more[b - toks.len()]);
        }
    }
}

proof fn lemma_push_one(toks: Seq<Token>, t: Token, lo: int, hi: int)
    requires
        lo <= t.span.start,
        tokens_between(toks, lo, t.span.start as int),
        t.span.start <= t.span.end <= hi,
        !is_virtual(t.tok),
        !(t.tok is Eof),
    ensures
        tokens_between(toks.push(t), lo, hi),
{
    let more = seq![t];
    assert(tokens_between(more, t.span.start as int, hi));
    lemma_extend(toks, more, lo, t.span.start as int, hi);
    assert(toks + more =~= toks.push(t));
}

proof fn lemma_weaken(toks: Seq<Token>, lo: int, hi: int, hi2: int)
    requires
        tokens_between(toks, lo, hi),
        hi <= hi2,
    ensures
        tokens_between(toks, lo, hi2),
{
}

/// Whether `c` continues a run of the given kind: 0 digits, 1 operator
/// characters, otherwise identifier characters.
pub open spec fn in_run(c: char, kind: int) -> bool {
    if kind == 0 {
        is_digit(c)
    } else if kind == 1 {
        is_operator_char_spec(c)
    } else {
        is_ident_cont(c)
    }
}

/// Where the run of `kind` characters starting at `j` ends (longest match).
pub open spec fn run_end(cs: Seq<char>, j: int, kind: int) -> int
    decreases cs.len() - j,
{
    if 0 <= j < cs.len() && in_run(cs[j], kind) {
        run_end(cs, j + 1, kind)
    } else {
        j
    }
}

/// The one-character punctuation tokens.
pub open spec fn punct(c: char) -> Option<Tok> {
    if c == '\\' {
        Some(Tok::Backslash)
    } else if c == ':' {
        Some(Tok::Colon)
    } else if c == ',' {
        Some(Tok::Comma)
    } else if c == '.' {
        Some(Tok::Dot)
    } else if c == '(' {
        Some(Tok::LParen)
    } else if c == ')' {
        Some(Tok::RParen)
    } else if c == '[' {
        Some(Tok::LBracket)
    } else if c == ']' {
        Some(Tok::RBracket)
    } else {
        None
    }
}

/// What scanning the one-token lexeme at `i` of `cs` gives, by longest
/// match: `->`, a lone `=`, `::`, punctuation, a number, an operator, or a
/// word; `Ok(None)` when none starts there.
pub open spec fn scans(cs: Seq<char>, i: int, r: Result<Option<(Tok, usize)>, LexError>) -> bool {
    let n = cs.len();
    let c = cs[i];
    if c == '-' && i + 1 < n && cs[i + 1] == '>' {
        r == Ok::<Option<(Tok, usize)>, LexError>(Some((Tok::Arrow, (i + 2) as usize)))
    } else if c == '=' && !(i + 1 < n && is_operator_char_spec(cs[i + 1])) {
        r == Ok::<Option<(Tok, usize)>, LexError>(Some((Tok::Equals, (i + 1) as usize)))
    } else if c == ':' && i + 1 < n && cs[i + 1] == ':' {
        r matches Ok(Some((Tok::Op(x), k))) && x@ == "::"@ && k == i + 2
    } else if punct(c) is Some {
        r == Ok::<Option<(Tok, usize)>, LexError>(Some((punct(c)->Some_0, (i + 1) as usize)))
    } else if is_digit(c) {
        let j0 = run_end(cs, i + 1, 0);
        if j0 + 1 < n && cs[j0] == '.' && is_digit(cs[j0 + 1]) {
            r matches Ok(Some((Tok::Float(x), k))) && x@ == cs.subrange(i, run_end(cs, j0 + 1, 0)) && k
                == run_end(cs, j0 + 1, 0)
        } else if digits_val(cs.subrange(i, j0)) <= i64::MAX {
            r == Ok::<Option<(Tok, usize)>, LexError>(Some((Tok::Int(digits_val(cs.subrange(i, j0)) as i64), j0 as usize)))
        } else {
            r matches Err(e) && e.msg@ == "integer literal `"@ + cs.subrange(i, j0) + "` out of range"@
        }
    } else if is_operator_char_spec(c) {
        r matches Ok(Some((Tok::Op(x), k))) && x@ == cs.subrange(i, run_end(cs, i + 1, 1)) && k == run_end(
            cs,
            i + 1,
            1,
        )
    } else if is_lower(c) || c == '_' || is_upper(c) {
        let j = run_end(cs, i + 1, 2);
        r matches Ok(Some((t, k))) && k == j && (if is_upper(c) {
            t matches Tok::Upper(x) && x@ == cs.subrange(i, j)
        } else {
            word_token(cs.subrange(i, j), t)
        })
    } else {
        r == Ok::<Option<(Tok, usize)>, LexError>(None)
    }
}

/// Recognize the one-token lexemes at `i`: punctuation, numbers, operators,
/// identifiers, keywords and constructor names. `Ok(None)` means no such
/// lexeme starts here; otherwise the token and the index just past it.
fn scan_token(chars: &Vec<char>, byte_at: &Vec<usize>, i: usize) -> (r: Result<
    Option<(Tok, usize)>,
    LexError,
>)
    requires
        byte_at.len() == chars.len() + 1,
        i < chars.len(),
        forall|a: int, b: int| 0 <= a <= b <= chars.len() ==> byte_at[a] <= byte_at[b],
    ensures
        r matches Ok(Some((t, j))) ==> i < j <= chars.len() && !is_virtual(t) && !(t is Eof),
        r matches Err(e) ==> byte_at[i as int] <= e.span.start <= e.span.end <= byte_at[chars.len() as int],
        scans(chars@, i as int, r),
{
    let n = chars.len();
    let c = chars[i];
    let start_byte = byte_at[i];
    if c == '-' && i + 1 < n && chars[i + 1] == '>' {
        return Ok(Some((Tok::Arrow, i + 2)));
    }
    if c == '=' && !(i + 1 < n && is_operator_char(chars[i + 1])) {
        return Ok(Some((Tok::Equals, i + 1)));
    }
    // `::` is the cons operator, lexed before the single `:` annotation colon.
    if c == ':' && i + 1 < n && chars[i + 1] == ':' {
        let mut cons = String::new();
        push_str(&mut cons, "::");
        return Ok(Some((Tok::Op(cons), i + 2)));
    }
    if c == '\\' {
        return Ok(Some((Tok::Backslash, i + 1)));
    }
    if c == ':' {
        return Ok(Some((Tok::Colon, i + 1)));
    }
    if c == ',' {
        return Ok(Some((Tok::Comma, i + 1)));
    }
    if c == '.' {
        return Ok(Some((Tok::Dot, i + 1)));
    }
    if c == '(' {
        return Ok(Some((Tok::LParen, i + 1)));
    }
    if c == ')' {
        return Ok(Some((Tok::RParen, i + 1)));
    }
    if c == '[' {
        return Ok(Some((Tok::LBracket, i + 1)));
    }
    if c == ']' {
        return Ok(Some((Tok::RBracket, i + 1)));
    }
    if '0' <= c && c <= '9' {
        let mut j = i + 1;
        while j < n && '0' <= chars[j] && chars[j] <= '9'
            invariant
                i < j <= n,
                n == chars.len(),
                forall|k: int| i <= k < j ==> is_digit(#[trigger] chars@[k]),
                run_end(chars@, j as int, 0) == run_end(chars@, i + 1, 0),
            decreases n - j,
        {
            j = j + 1;
        }
        let is_float = j + 1 < n && chars[j] == '.' && '0' <= chars[j + 1] && chars[j + 1] <= '9';
        if is_float {
            j = j + 1;
            let ghost j1 = j;
            while j < n && '0' <= chars[j] && chars[j] <= '9'
                invariant
                    i < j <= n,
                    n == chars.len(),
                    run_end(chars@, j as int, 0) == run_end(chars@, j1 as int, 0),
                decreases n - j,
            {
                j = j + 1;
            }
            let text = string_of_range(chars, i, j);
            return Ok(Some((Tok::Float(text), j)));
        }
        return match parse_decimal_range(chars, i, j) {
            None => {
                let mut msg = String::new();
                push_str(&mut msg, "integer literal `");
                let text = string_of_range(chars, i, j);
                push_str(&mut msg, text.as_str());
                push_str(&mut msg, "` out of range");
                Err(LexError { msg, span: start_byte..byte_at[j] })
            },
            Some(v) => Ok(Some((Tok::Int(v), j))),
        };
    }
    if is_operator_char(c) {
        let mut j = i + 1;
        while j < n && is_operator_char(chars[j])
            invariant
                i < j <= n,
                n == chars.len(),
                run_end(chars@, j as int, 1) == run_end(chars@, i + 1, 1),
            decreases n - j,
        {
            j = j + 1;
        }
        let sym = string_of_range(chars, i, j);
        return Ok(Some((Tok::Op(sym), j)));
    }
    if ('a' <= c && c <= 'z') || c == '_' || ('A' <= c && c <= 'Z') {
        let mut j = i + 1;
        while j < n && is_ident_cont_char(chars[j])
            invariant
                i < j <= n,
                n == chars.len(),
                run_end(chars@, j as int, 2) == run_end(chars@, i + 1, 2),
            decreases n - j,
        {
            j = j + 1;
        }
        let word = string_of_range(chars, i, j);
        let tok = if 'A' <= c && c <= 'Z' {
            Tok::Upper(word)
        } else {
            keyword_or_ident(word)
        };
        return Ok(Some((tok, j)));
    }
    Ok(None)
}

/// The state the main lexing loop carries from one lexeme to the next.
struct LexState {
    toks: Vec<Token>,
    i: usize,
    line: usize,
    col: usize,
    seen_on_line: bool,
    interp_open_depths: Vec<usize>,
    brace_depth: usize,
}

pub open spec fn byte_table(cs: Seq<char>, byte_at: Seq<usize>) -> bool {
    &&& byte_at.len() == cs.len() + 1
    &&& forall|a: int, b: int| 0 <= a <= b <= cs.len() ==> byte_at[a] <= byte_at[b]
    &&& forall|a: int| 0 <= a <= cs.len() ==> #[trigger] byte_at[a] == byte_offset(cs, a)
}

spec fn state_ok(st: LexState, cs: Seq<char>, byte_at: Seq<usize>) -> bool {
    &&& st.i <= cs.len()
    &&& 1 <= st.line <= st.i + 1
    &&& 1 <= st.col <= st.i + 1
    &&& tokens_between(st.toks@, 0, byte_at[st.i as int] as int)
}

/// Lex one lexeme (or skip one run of layout-irrelevant text) at `st.i`.
#[verifier::rlimit(80)]
fn lex_step(st: &mut LexState, chars: &Vec<char>, byte_at: &Vec<usize>) -> (r: Result<
    (),
    LexError,
>)
    requires
        byte_table(chars@, byte_at@),
        chars.len() * 4 + 8 <= usize::MAX,
        state_ok(*old(st), chars@, byte_at@),
        old(st).i < chars.len(),
    ensures
        r is Ok ==> state_ok(*final(st), chars@, byte_at@) && final(st).i > old(st).i,
        r matches Err(e) ==> e.span.start <= e.span.end <= byte_at[chars.len() as int],
{
    let n = chars.len();
    let i = st.i;
    let c = chars[i];
    if c == '\n' {
        st.i = i + 1;
        st.line = st.line + 1;
        st.col = 1;
        st.seen_on_line = false;
        return Ok(());
    }
    if c == ' ' || c == '\t' || c == '\r' {
        st.i = i + 1;
        st.col = st.col + 1;
        return Ok(());
    }
    // line comment `-- ...`
    if c == '-' && i + 1 < n && chars[i + 1] == '-' {
        let mut j = i;
        while j < n && chars[j] != '\n'
            invariant
                i <= j <= n,
                n == chars.len(),
            decreases n - j,
        {
            j = j + 1;
        }
        st.col = st.col + (j - i);
        st.i = j;
        return Ok(());
    }
    let start_col = st.col;
    let start_byte = byte_at[i];
    let first_on_line = !st.seen_on_line;
    st.seen_on_line = true;
    let line = st.line;
    if c == '{' {
        st.brace_depth = st.brace_depth.wrapping_add(1);
        proof {
            lemma_push_one(
                st.toks@,
                Token { tok: Tok::LBrace, span: start_byte..byte_at[i + 1], line, col: start_col, first_on_line },
                0,
                byte_at[i + 1] as int,
            );
        }
        push_token(&mut st.toks, Tok::LBrace, start_byte, byte_at[i + 1], line, start_col, first_on_line);
        st.i = i + 1;
        st.col = start_col + 1;
        return Ok(());
    }
    if c == '}' {
        // A `}` closes an interpolation only at the exact brace depth where
        // that `${` opened; otherwise it is an ordinary closing brace.
        let depth_count = st.interp_open_depths.len();
        let closes = depth_count > 0 && st.interp_open_depths[depth_count - 1] == st.brace_depth;
        if closes {
            st.interp_open_depths.pop();
            proof {
                lemma_push_one(
                    st.toks@,
                    Token { tok: Tok::InterpEnd, span: start_byte..byte_at[i + 1], line, col: start_col, first_on_line },
                    0,
                    byte_at[i + 1] as int,
                );
            }
            push_token(&mut st.toks, Tok::InterpEnd, start_byte, byte_at[i + 1], line, start_col, first_on_line);
            let ghost before = st.toks@;
            let emission = emit_string_segment(
                &mut st.toks,
                chars,
                byte_at,
                start_byte,
                line,
                false,
                false,
                i + 1,
                start_col + 1,
            );
            match emission {
                Err(e) => {
                    return Err(e);
                },
                Ok(em) => {
                    proof {
                        let more = st.toks@.subrange(before.len() as int, st.toks@.len() as int);
                        assert(st.toks@ =~= before + more);
                        lemma_extend(before, more, 0, byte_at[i + 1] as int, byte_at[em.next_i as int] as int);
                    }
                    if em.entered_interpolation {
                        st.interp_open_depths.push(st.brace_depth);
                    }
                    st.i = em.next_i;
                    st.col = em.next_col;
                    return Ok(());
                },
            }
        }
        st.brace_depth = st.brace_depth.wrapping_sub(1);
        proof {
            lemma_push_one(
                st.toks@,
                Token { tok: Tok::RBrace, span: start_byte..byte_at[i + 1], line, col: start_col, first_on_line },
                0,
                byte_at[i + 1] as int,
            );
        }
        push_token(&mut st.toks, Tok::RBrace, start_byte, byte_at[i + 1], line, start_col, first_on_line);
        st.i = i + 1;
        st.col = start_col + 1;
        return Ok(());
    }
    // A leading `'` opens a char literal; a `'` mid-word is a prime.
    if c == '\'' {
        let lit = scan_char_literal(chars, byte_at, i, start_col, start_byte);
        match lit {
            Err(e) => {
                return Err(e);
            },
            Ok(l) => {
                proof {
                    lemma_push_one(
                        st.toks@,
                        Token { tok: Tok::Char(l.scalar), span: start_byte..byte_at[l.next_i as int], line, col: start_col, first_on_line },
                        0,
                        byte_at[l.next_i as int] as int,
                    );
                }
                push_token(&mut st.toks, Tok::Char(l.scalar), start_byte, byte_at[l.next_i], line, start_col, first_on_line);
                st.i = l.next_i;
                st.col = l.next_col;
                return Ok(());
            },
        }
    }
    if c == '"' {
        let ghost before = st.toks@;
        let emission = emit_string_segment(
            &mut st.toks,
            chars,
            byte_at,
            start_byte,
            line,
            first_on_line,
            true,
            i + 1,
            start_col + 1,
        );
        match emission {
            Err(e) => {
                return Err(e);
            },
            Ok(em) => {
                proof {
                    let more = st.toks@.subrange(before.len() as int, st.toks@.len() as int);
                    assert(st.toks@ =~= before + more);
                    lemma_extend(before, more, 0, start_byte as int, byte_at[em.next_i as int] as int);
                }
                if em.entered_interpolation {
                    st.interp_open_depths.push(st.brace_depth);
                }
                st.i = em.next_i;
                st.col = em.next_col;
                return Ok(());
            },
        }
    }
    match scan_token(chars, byte_at, i) {
        Err(e) => Err(e),
        Ok(Some((tok, j))) => {
            proof {
                lemma_push_one(
                    st.toks@,
                    Token { tok, span: start_byte..byte_at[j as int], line, col: start_col, first_on_line },
                    0,
                    byte_at[j as int] as int,
                );
            }
            push_token(&mut st.toks, tok, start_byte, byte_at[j], line, start_col, first_on_line);
            st.i = j;
            st.col = start_col + (j - i);
            Ok(())
        },
        Ok(None) => {
            let mut msg = String::new();
            push_str(&mut msg, "unexpected character `");
            push_char(&mut msg, c);
            push_char(&mut msg, '`');
            Err(LexError { msg, span: start_byte..byte_at[i + 1] })
        },
    }
}

/// Lex a whole source into tokens ending in one `Eof`.
pub fn lex(src: &str) -> (r: Result<Vec<Token>, LexError>)
    requires
        src@.len() * 4 + 8 <= usize::MAX,
    ensures
        r matches Ok(toks) ==> lexed(src@, toks@),
        r matches Err(e) ==> e.span.start <= e.span.end <= byte_offset(
            src@,
            src@.len() as int,
        ),
        src@.len() == 0 ==> (r matches Ok(toks) && toks@.len() == 1 && toks@[0].tok is Eof && toks@[0].span.start == 0
            && toks@[0].span.end == 0 && toks@[0].line == 1 && toks@[0].col == 1 && toks@[0].first_on_line),
{
    let chars = chars_of(src);
    let byte_at = byte_offsets(&chars);
    let n = chars.len();
    proof {
        assert forall|a: int, b: int| 0 <= a <= b <= n implies byte_at[a] <= byte_at[b] by {
            lemma_byte_offset_mono(chars@, a, b);
        }
    }
    let mut st = LexState {
        toks: Vec::new(),
        i: 0,
        line: 1,
        col: 1,
        seen_on_line: false,
        interp_open_depths: Vec::new(),
        brace_depth: 0,
    };
    while st.i < n
        invariant
            n == chars.len(),
            chars@ == src@,
            byte_table(chars@, byte_at@),
            n * 4 + 8 <= usize::MAX,
            state_ok(st, chars@, byte_at@),
            n == 0 ==> st.toks@.len() == 0 && st.line == 1 && st.col == 1 && !st.seen_on_line,
        decreases n - st.i,
    {
        let step = lex_step(&mut st, &chars, &byte_at);
        if let Err(e) = step {
            return Err(e);
        }
    }
    let mut toks = st.toks;
    let eof = Token {
        tok: Tok::Eof,
        span: byte_at[n]..byte_at[n],
        line: st.line,
        col: st.col,
        first_on_line: !st.seen_on_line,
    };
    let ghost body = toks@;
    toks.push(eof);
    proof {
        assert(toks@.drop_last() =~= body);
    }
    Ok(toks)
}

} // verus!
