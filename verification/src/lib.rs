//! emet: a small total, typed, functional configuration language with
//! Elm/Haskell-style surface syntax. This crate holds its verified core.
pub mod ast;
pub mod text;
pub mod names;
pub mod lexer;
pub mod layout;
pub mod header;
pub mod infer;
pub mod prelude;
pub mod render;
pub mod query;
pub mod ir;
pub mod secrets;
pub mod manifest;
pub mod depgraph;
pub mod engine;
pub mod unify;
pub mod schemes;
pub mod typedecl;
pub mod resolve;
pub mod strings;
pub mod operators;
pub mod parser;
pub mod exhaust;
pub mod positions;
pub mod grammar;

use vstd::prelude::*;
use vstd::string::StringSliceAdditionalSpecFns;

verus! {

/// The phase of the pipeline an error comes from.
#[derive(Debug, Clone, Copy, PartialEq, Eq, Structural)]
pub enum Phase {
    Lex,
    Parse,
    Type,
    Analyze,
}

/// A compilation error: its phase, message, source span, an optional note,
/// and the file the span indexes (`None` for the entry file).
#[derive(Debug)]
pub struct Error {
    pub phase: Phase,
    pub msg: String,
    pub span: std::ops::Range<usize>,
    pub note: Option<String>,
    pub file: Option<std::path::PathBuf>,
}

/// What an editor-facing analysis yields: the diagnostics, and the position
/// index for hover, completion and go-to-definition.
pub struct Analysis {
    pub diagnostics: Vec<Error>,
    pub index: query::QueryIndex,
}

/// The part of `src` a diagnostic span underlines: the span itself when it
/// lies inside the source, else the first character (or nothing for an empty
/// source) when the span is the unlocated `0..0` or reaches past the end.
pub fn underline(span: &std::ops::Range<usize>, src: &str) -> (r: std::ops::Range<usize>)
    ensures
        ((span.start == 0 && span.end == 0) || span.end > src.len()) ==> (r.start == 0
            && r.end == if src.len() == 0 { 0int } else { 1int }),
        !((span.start == 0 && span.end == 0) || span.end > src.len()) ==> r == *span,
{
    let unlocated = span.start == 0 && span.end == 0;
    let reaches_past_this_source = span.end > src.len();
    if unlocated || reaches_past_this_source {
        let n = src.len();
        0..(if n < 1 { n } else { 1 })
    } else {
        span.start..span.end
    }
}


/// Whether a token stream is ready for layout: it ends in `Eof`, has no other
/// `Eof`, and holds no layout token yet.
fn layout_ready(toks: &Vec<lexer::Token>) -> (r: bool)
    ensures
        r == layout::layout_input(toks@),
{
    let n = toks.len();
    if n == 0 {
        return false;
    }
    let mut i: usize = 0;
    while i < n
        invariant
            n == toks@.len(),
            n >= 1,
            i <= n,
            forall|k: int| 0 <= k < i ==> !lexer::is_virtual(#[trigger] toks@[k].tok),
            forall|k: int| 0 <= k < i && k < n - 1 ==> !(#[trigger] toks@[k].tok is Eof),
            i == n ==> toks@[n - 1].tok is Eof,
        decreases n - i,
    {
        let t = &toks[i].tok;
        let virt = match t {
            lexer::Tok::VLBrace | lexer::Tok::VRBrace | lexer::Tok::VSemi => true,
            _ => false,
        };
        let eof = match t {
            lexer::Tok::Eof => true,
            _ => false,
        };
        if virt || (eof && i + 1 < n) || (!eof && i + 1 == n) {
            return false;
        }
        i = i + 1;
    }
    proof {
        assert(toks@.last() == toks@[n - 1]);
    }
    true
}

fn parse_phase(msg: String, span: std::ops::Range<usize>) -> (r: Error)
    ensures
        r.phase == Phase::Parse,
        r.msg == msg,
        r.span == span,
{
    Error { phase: Phase::Parse, msg, span, note: None, file: None }
}

/// Lexes `src`, splits off its module header and imports, lays out the body
/// and parses it. A lexing or header failure comes back alone; the parser
/// recovers at top-level declarations and reports every error it finds, the
/// first one first.
pub fn parse_source_multi(src: &str) -> (r: Result<ast::Module, Vec<Error>>)
    requires
        src@.len() * 4 + 8 <= usize::MAX,
    ensures
        r matches Err(es) ==> es@.len() >= 1,
        r matches Err(es) ==> forall|i: int| 0 <= i < es@.len() ==> (#[trigger] es@[i].phase == Phase::Lex
            || es@[i].phase == Phase::Parse),
        r matches Err(es) ==> (es@[0].phase == Phase::Lex ==> es@.len() == 1),
{
    let tokens = match lexer::lex(src) {
        Ok(t) => t,
        Err(e) => {
            let mut v: Vec<Error> = Vec::new();
            v.push(e.into_error());
            return Err(v);
        },
    };
    let h = match header::split(tokens) {
        Ok(h) => h,
        Err(e) => {
            let mut v: Vec<Error> = Vec::new();
            v.push(parse_phase(e.msg, e.span));
            return Err(v);
        },
    };
    if !layout_ready(&h.body) {
        let mut v: Vec<Error> = Vec::new();
        let mut msg = String::new();
        text::push_str(&mut msg, "unexpected end of input");
        v.push(parse_phase(msg, src.len()..src.len()));
        return Err(v);
    }
    let laid = layout::layout_all(h.body);
    match grammar::parse(&laid, h.name, h.exposing, h.imports) {
        Ok(m) => Ok(m),
        Err(errs) => {
            let mut out: Vec<Error> = Vec::new();
            let mut es = errs;
            let mut rev: Vec<parser::ParseError> = Vec::new();
            while es.len() > 0
                invariant
                    rev@.len() + es@.len() >= 1,
                decreases es.len(),
            {
                rev.push(es.pop().unwrap());
            }
            while rev.len() > 0
                invariant
                    out@.len() + rev@.len() >= 1,
                    forall|i: int| 0 <= i < out@.len() ==> #[trigger] out@[i].phase == Phase::Parse,
                decreases rev.len(),
            {
                let pe = rev.pop().unwrap();
                out.push(pe.into_error());
            }
            Err(out)
        },
    }
}

/// `parse_source_multi` reporting only the first error.
pub fn parse_source(src: &str) -> (r: Result<ast::Module, Error>)
    requires
        src@.len() * 4 + 8 <= usize::MAX,
    ensures
        r matches Err(e) ==> (e.phase == Phase::Lex || e.phase == Phase::Parse),
{
    match parse_source_multi(src) {
        Ok(m) => Ok(m),
        Err(mut errors) => {
            let e = errors.remove(0);
            Err(e)
        },
    }
}

} // verus!
