//! The position index editor queries read. Inference records, per source
//! span, the type it inferred, the scope in effect, and where each used name
//! is defined; the lookups here resolve a byte offset against those records
//! by smallest enclosing span, so the innermost fact at the cursor wins.
use std::collections::HashMap;

use vstd::prelude::*;

use crate::ast::{tv, Scheme, Span, Type};
use crate::render::type_text;
use crate::text::{
    byte_offset, byte_offsets, chars_of, is_alphanumeric, is_whitespace, lemma_byte_offset_mono,
    string_of_range, unicode_alphanumeric, unicode_whitespace,
};

verus! {

broadcast use vstd::std_specs::hash::group_hash_axioms;

/// Where a name is defined: the span of its defining occurrence, and the
/// owning module when that lies in another file (`None` for this file).
#[derive(Debug)]
pub struct DefSite {
    pub span: Span,
    pub module: Option<String>,
}

/// The span-keyed facts inference leaves behind: types of expressions, the
/// scope in effect over each span, each scope's names, and definition sites.
pub struct QueryIndex {
    pub types: Vec<(Span, Type)>,
    pub scopes: Vec<(Span, usize)>,
    pub scope_table: HashMap<usize, Vec<(String, Scheme)>>,
    pub defs: Vec<(Span, DefSite)>,
}

/// A span covers an offset when the offset lies inside it or at its start
/// (so an empty span still covers its own position).
pub open spec fn covers(s: Span, off: usize) -> bool {
    (s.start <= off && off < s.end) || s.start == off
}

/// The length of a span, zero when it is reversed.
pub open spec fn width(s: Span) -> int {
    if s.end >= s.start {
        s.end - s.start
    } else {
        0
    }
}

/// Some entry covers the offset.
pub open spec fn covered<T>(e: Seq<(Span, T)>, off: usize) -> bool {
    exists|j: int| 0 <= j < e.len() && covers(#[trigger] e[j].0, off)
}

/// Entry `i` is the narrowest entry covering the offset, and the first of the
/// narrowest ones.
pub open spec fn is_smallest<T>(e: Seq<(Span, T)>, off: usize, i: int) -> bool {
    &&& 0 <= i < e.len()
    &&& covers(e[i].0, off)
    &&& forall|j: int| 0 <= j < e.len() && covers(#[trigger] e[j].0, off) ==> width(e[i].0) <= width(e[j].0)
    &&& forall|j: int| 0 <= j < i && covers(#[trigger] e[j].0, off) ==> width(e[i].0) < width(e[j].0)
}

/// The narrowest entry covering the offset is unique.
pub proof fn lemma_smallest_unique<T>(e: Seq<(Span, T)>, off: usize, i: int, j: int)
    requires
        is_smallest(e, off, i),
        is_smallest(e, off, j),
    ensures
        i == j,
{
    if i < j {
        assert(covers(e[i].0, off));
    } else if j < i {
        assert(covers(e[j].0, off));
    }
}

fn span_width(s: &Span) -> (r: usize)
    ensures
        r == width(*s),
{
    if s.end >= s.start {
        s.end - s.start
    } else {
        0
    }
}

fn span_covers(s: &Span, off: usize) -> (r: bool)
    ensures
        r == covers(*s, off),
{
    (s.start <= off && off < s.end) || s.start == off
}

/// The index of the narrowest entry covering `off` (the first such when
/// several are equally narrow).
pub fn smallest_covering<T>(e: &Vec<(Span, T)>, off: usize) -> (r: Option<usize>)
    ensures
        match r {
            Some(i) => is_smallest(e@, off, i as int),
            None => !covered(e@, off),
        },
{
    let mut best: Option<usize> = None;
    let mut i: usize = 0;
    while i < e.len()
        invariant
            i <= e.len(),
            match best {
                Some(b) => {
                    &&& b < i
                    &&& covers(e@[b as int].0, off)
                    &&& forall|j: int| 0 <= j < i && covers(#[trigger] e@[j].0, off) ==> width(e@[b as int].0) <= width(e@[j].0)
                    &&& forall|j: int| 0 <= j < b && covers(#[trigger] e@[j].0, off) ==> width(e@[b as int].0) < width(e@[j].0)
                },
                None => forall|j: int| 0 <= j < i ==> !covers(#[trigger] e@[j].0, off),
            },
        decreases e.len() - i,
    {
        if span_covers(&e[i].0, off) {
            match best {
                None => {
                    best = Some(i);
                },
                Some(b) => {
                    if span_width(&e[i].0) < span_width(&e[b].0) {
                        best = Some(i);
                    }
                },
            }
        }
        i = i + 1;
    }
    best
}

/// The text a scheme is shown with: its type, quantifiers left implicit.
pub fn display_scheme(scheme: &Scheme) -> (r: String)
    ensures
        r@ == type_text(tv(scheme.ty)),
{
    scheme.ty.to_text()
}

impl QueryIndex {
    /// The inferred type of the narrowest recorded expression covering
    /// `offset`: what hovering there shows.
    pub fn type_at(&self, offset: usize) -> (r: Option<&Type>)
        ensures
            match r {
                Some(t) => exists|i: int| is_smallest(self.types@, offset, i) && *t == self.types@[i].1,
                None => !covered(self.types@, offset),
            },
    {
        match smallest_covering(&self.types, offset) {
            Some(i) => Some(&self.types[i].1),
            None => None,
        }
    }

    /// Where the name used at `offset` is defined: the site of the narrowest
    /// recorded use covering it.
    pub fn definition_at(&self, offset: usize) -> (r: Option<&DefSite>)
        ensures
            match r {
                Some(d) => exists|i: int| is_smallest(self.defs@, offset, i) && *d == self.defs@[i].1,
                None => !covered(self.defs@, offset),
            },
    {
        match smallest_covering(&self.defs, offset) {
            Some(i) => Some(&self.defs[i].1),
            None => None,
        }
    }

    /// Every name visible at `offset` with its rendered type: the names of
    /// the narrowest scope covering it, in the order the scope lists them;
    /// nothing when no scope covers it or the scope has no table entry.
    pub fn names_in_scope(&self, offset: usize) -> (r: Vec<(String, String)>)
        ensures
            !covered(self.scopes@, offset) ==> r@.len() == 0,
            forall|i: int|
                is_smallest(self.scopes@, offset, i) ==> {
                    let id = self.scopes@[i].1;
                    if self.scope_table@.contains_key(id) {
                        let names = self.scope_table@[id]@;
                        &&& r@.len() == names.len()
                        &&& forall|k: int|
                            0 <= k < names.len() ==> (#[trigger] r@[k]).0@ == names[k].0@ && r@[k].1@
                                == type_text(tv(names[k].1.ty))
                    } else {
                        r@.len() == 0
                    }
                },
    {
        let scope = smallest_covering(&self.scopes, offset);
        let mut out: Vec<(String, String)> = Vec::new();
        match scope {
            None => {},
            Some(si) => {
                let id = self.scopes[si].1;
                match self.scope_table.get(&id) {
                    None => {},
                    Some(names) => {
                        let mut k: usize = 0;
                        while k < names.len()
                            invariant
                                k <= names.len(),
                                out@.len() == k,
                                forall|m: int|
                                    0 <= m < k ==> (#[trigger] out@[m]).0@ == names@[m].0@ && out@[m].1@
                                        == type_text(tv(names@[m].1.ty)),
                            decreases names.len() - k,
                        {
                            let shown = display_scheme(&names[k].1);
                            out.push((names[k].0.clone(), shown));
                            k = k + 1;
                        }
                    },
                }
                proof {
                    assert forall|i: int| is_smallest(self.scopes@, offset, i) implies i == si by {
                        lemma_smallest_unique(self.scopes@, offset, i, si as int);
                    }
                }
            },
        }
        out
    }
}

// ---------------------------------------------------------------------------
// Doc comments: the `--` comment lines stacked directly above a top-level
// binding (and above its type signature, when one sits right on top of it).
// Positions below are character indices into the source.
// ---------------------------------------------------------------------------

/// The start of the line holding character index `k`.
pub open spec fn line_start(cs: Seq<char>, k: int) -> int
    decreases k,
{
    if k <= 0 {
        0
    } else if cs[k - 1] == '\n' {
        k
    } else {
        line_start(cs, k - 1)
    }
}

/// The index of the newline ending the line from `k`, or the end of input.
pub open spec fn line_end(cs: Seq<char>, k: int) -> int
    decreases cs.len() - k,
{
    if k >= cs.len() {
        cs.len() as int
    } else if cs[k] == '\n' {
        k
    } else {
        line_end(cs, k + 1)
    }
}

/// A line without its trailing carriage returns.
pub open spec fn trim_cr(line: Seq<char>) -> Seq<char>
    decreases line.len(),
{
    if line.len() > 0 && line[line.len() - 1] == '\r' {
        trim_cr(line.drop_last())
    } else {
        line
    }
}

/// The text of the line starting at `ls`.
pub open spec fn line_text(cs: Seq<char>, ls: int) -> Seq<char> {
    trim_cr(cs.subrange(ls, line_end(cs, ls)))
}

/// A character that may appear in an identifier.
pub open spec fn ident_char(c: char) -> bool {
    unicode_alphanumeric(c) || c == '_' || c == '\''
}

/// Where the identifier characters from `j` on stop.
pub open spec fn ident_end(line: Seq<char>, j: int) -> int
    decreases line.len() - j,
{
    if j >= line.len() || !ident_char(line[j]) {
        j
    } else {
        ident_end(line, j + 1)
    }
}

/// The identifier a line begins with (possibly empty).
pub open spec fn leading_identifier(line: Seq<char>) -> Seq<char> {
    line.subrange(0, ident_end(line, 0))
}

/// A string without its leading whitespace.
pub open spec fn trim_ws_start(s: Seq<char>) -> Seq<char>
    decreases s.len(),
{
    if s.len() > 0 && unicode_whitespace(s[0]) {
        trim_ws_start(s.drop_first())
    } else {
        s
    }
}

/// The line is a type signature `name : ...` for the (non-empty) name.
pub open spec fn is_signature_for(line: Seq<char>, name: Seq<char>) -> bool {
    &&& name.len() > 0
    &&& name.len() <= line.len()
    &&& line.subrange(0, name.len() as int) == name
    &&& {
        let rest = trim_ws_start(line.subrange(name.len() as int, line.len() as int));
        rest.len() > 0 && rest[0] == ':'
    }
}

/// The text of a `--` comment line, one space after the dashes dropped.
pub open spec fn comment_body(line: Seq<char>) -> Option<Seq<char>> {
    if line.len() >= 2 && line[0] == '-' && line[1] == '-' {
        let b = line.subrange(2, line.len() as int);
        Some(
            if b.len() > 0 && b[0] == ' ' {
                b.drop_first()
            } else {
                b
            },
        )
    } else {
        None
    }
}

pub proof fn lemma_line_start_bounds(cs: Seq<char>, k: int)
    requires
        0 <= k <= cs.len(),
    ensures
        0 <= line_start(cs, k) <= k,
        line_start(cs, k) > 0 ==> cs[line_start(cs, k) - 1] == '\n',
        forall|j: int| line_start(cs, k) <= j < k ==> cs[j] != '\n',
    decreases k,
{
    if k > 0 && cs[k - 1] != '\n' {
        lemma_line_start_bounds(cs, k - 1);
    }
}

/// The comment lines stacked directly above the line starting at `ls`, top
/// line first.
pub open spec fn comment_block(cs: Seq<char>, ls: int) -> Seq<Seq<char>>
    decreases ls,
{
    if ls <= 0 || ls > cs.len() {
        Seq::empty()
    } else {
        let p = line_start(cs, ls - 1);
        proof {
            lemma_line_start_bounds(cs, ls - 1);
        }
        match comment_body(line_text(cs, p)) {
            Some(b) => comment_block(cs, p).push(b),
            None => Seq::empty(),
        }
    }
}

/// Lines joined with `\n`.
pub open spec fn join_lines(ps: Seq<Seq<char>>) -> Seq<char>
    decreases ps.len(),
{
    if ps.len() == 0 {
        Seq::empty()
    } else if ps.len() == 1 {
        ps[0]
    } else {
        join_lines(ps.drop_last()) + seq!['\n'] + ps[ps.len() - 1]
    }
}

/// A string without leading newlines.
pub open spec fn trim_nl_start(s: Seq<char>) -> Seq<char>
    decreases s.len(),
{
    if s.len() > 0 && s[0] == '\n' {
        trim_nl_start(s.drop_first())
    } else {
        s
    }
}

/// A string without trailing newlines.
pub open spec fn trim_nl_end(s: Seq<char>) -> Seq<char>
    decreases s.len(),
{
    if s.len() > 0 && s[s.len() - 1] == '\n' {
        trim_nl_end(s.drop_last())
    } else {
        s
    }
}

/// The doc comment of the binding whose definition starts at character `k`:
/// none unless `k` starts its line; the comment block sits above the
/// binding's signature line when that line directly precedes it.
pub open spec fn doc_spec(cs: Seq<char>, k: int) -> Option<Seq<char>> {
    if line_start(cs, k) != k {
        None
    } else {
        let name = leading_identifier(line_text(cs, k));
        let bs = if k > 0 && is_signature_for(line_text(cs, line_start(cs, k - 1)), name) {
            line_start(cs, k - 1)
        } else {
            k
        };
        let doc = trim_nl_end(trim_nl_start(join_lines(comment_block(cs, bs))));
        if doc.len() == 0 {
            None
        } else {
            Some(doc)
        }
    }
}

fn find_line_start(cs: &Vec<char>, k: usize) -> (r: usize)
    requires
        k <= cs.len(),
    ensures
        r == line_start(cs@, k as int),
{
    let mut j = k;
    while j > 0 && cs[j - 1] != '\n'
        invariant
            j <= k <= cs.len(),
            line_start(cs@, j as int) == line_start(cs@, k as int),
        decreases j,
    {
        j = j - 1;
    }
    j
}

fn find_line_end(cs: &Vec<char>, k: usize) -> (r: usize)
    requires
        k <= cs.len(),
    ensures
        r == line_end(cs@, k as int),
        k <= r <= cs.len(),
{
    let mut j = k;
    while j < cs.len() && cs[j] != '\n'
        invariant
            k <= j <= cs.len(),
            line_end(cs@, j as int) == line_end(cs@, k as int),
        decreases cs.len() - j,
    {
        j = j + 1;
    }
    j
}

proof fn lemma_trim_cr_sub(cs: Seq<char>, lo: int, hi: int)
    requires
        0 <= lo < hi <= cs.len(),
        cs[hi - 1] == '\r',
    ensures
        trim_cr(cs.subrange(lo, hi)) == trim_cr(cs.subrange(lo, hi - 1)),
{
    assert(cs.subrange(lo, hi).drop_last() =~= cs.subrange(lo, hi - 1));
}

/// The bounds `(ls, e)` of the text of the line starting at `ls`.
fn line_bounds(cs: &Vec<char>, ls: usize) -> (r: usize)
    requires
        ls <= cs.len(),
    ensures
        ls <= r <= cs.len(),
        cs@.subrange(ls as int, r as int) == line_text(cs@, ls as int),
{
    let end = find_line_end(cs, ls);
    let mut e = end;
    while e > ls && cs[e - 1] == '\r'
        invariant
            ls <= e <= end <= cs.len(),
            trim_cr(cs@.subrange(ls as int, e as int)) == line_text(cs@, ls as int),
        decreases e,
    {
        proof {
            lemma_trim_cr_sub(cs@, ls as int, e as int);
        }
        e = e - 1;
    }
    proof {
        let l = cs@.subrange(ls as int, e as int);
        assert(!(l.len() > 0 && l[l.len() - 1] == '\r'));
    }
    e
}

fn is_ident_char(c: char) -> (r: bool)
    ensures
        r == ident_char(c),
{
    is_alphanumeric(c) || c == '_' || c == '\''
}

/// The end of the identifier starting at `lo`, within `lo..hi`.
fn identifier_end(cs: &Vec<char>, lo: usize, hi: usize) -> (r: usize)
    requires
        lo <= hi <= cs.len(),
    ensures
        lo <= r <= hi,
        r - lo == ident_end(cs@.subrange(lo as int, hi as int), 0),
{
    let ghost line = cs@.subrange(lo as int, hi as int);
    let mut j = lo;
    while j < hi && is_ident_char(cs[j])
        invariant
            lo <= j <= hi <= cs.len(),
            line == cs@.subrange(lo as int, hi as int),
            ident_end(line, (j - lo) as int) == ident_end(line, 0),
        decreases hi - j,
    {
        j = j + 1;
    }
    j
}

proof fn lemma_trim_ws_sub(cs: Seq<char>, lo: int, hi: int)
    requires
        0 <= lo < hi <= cs.len(),
        unicode_whitespace(cs[lo]),
    ensures
        trim_ws_start(cs.subrange(lo, hi)) == trim_ws_start(cs.subrange(lo + 1, hi)),
{
    assert(cs.subrange(lo, hi).drop_first() =~= cs.subrange(lo + 1, hi));
}

/// Whether the line `lo..hi` is a signature for the name `nlo..nhi`.
fn signature_for(cs: &Vec<char>, lo: usize, hi: usize, nlo: usize, nhi: usize) -> (r: bool)
    requires
        lo <= hi <= cs.len(),
        nlo <= nhi <= cs.len(),
    ensures
        r == is_signature_for(cs@.subrange(lo as int, hi as int), cs@.subrange(nlo as int, nhi as int)),
{
    let ghost line = cs@.subrange(lo as int, hi as int);
    let ghost name = cs@.subrange(nlo as int, nhi as int);
    let n = nhi - nlo;
    if n == 0 || n > hi - lo {
        return false;
    }
    let mut i: usize = 0;
    while i < n
        invariant
            n == nhi - nlo,
            lo + n <= hi <= cs.len(),
            nhi <= cs.len(),
            i <= n,
            line == cs@.subrange(lo as int, hi as int),
            name == cs@.subrange(nlo as int, nhi as int),
            forall|m: int| 0 <= m < i ==> #[trigger] line[m] == name[m],
        decreases n - i,
    {
        if cs[lo + i] != cs[nlo + i] {
            proof {
                assert(line.subrange(0, n as int)[i as int] != name[i as int]);
            }
            return false;
        }
        i = i + 1;
    }
    proof {
        assert(line.subrange(0, n as int) =~= name);
    }
    proof {
        assert(line.subrange(n as int, line.len() as int) =~= cs@.subrange((lo + n) as int, hi as int));
    }
    let mut j = lo + n;
    while j < hi && is_whitespace(cs[j])
        invariant
            lo + n <= j <= hi <= cs.len(),
            trim_ws_start(cs@.subrange(j as int, hi as int)) == trim_ws_start(
                line.subrange(n as int, line.len() as int),
            ),
        decreases hi - j,
    {
        proof {
            lemma_trim_ws_sub(cs@, j as int, hi as int);
        }
        j = j + 1;
    }
    j < hi && cs[j] == ':'
}

/// The start of the body of the comment line `lo..hi`, if it is one.
fn comment_start(cs: &Vec<char>, lo: usize, hi: usize) -> (r: Option<usize>)
    requires
        lo <= hi <= cs.len(),
    ensures
        match r {
            Some(b) => lo <= b <= hi && comment_body(cs@.subrange(lo as int, hi as int)) == Some(
                cs@.subrange(b as int, hi as int),
            ),
            None => comment_body(cs@.subrange(lo as int, hi as int)) is None,
        },
{
    let ghost line = cs@.subrange(lo as int, hi as int);
    if hi - lo >= 2 && cs[lo] == '-' && cs[lo + 1] == '-' {
        proof {
            assert(line.subrange(2, line.len() as int) =~= cs@.subrange(lo + 2, hi as int));
        }
        if lo + 2 < hi && cs[lo + 2] == ' ' {
            proof {
                assert(cs@.subrange(lo + 2, hi as int).drop_first() =~= cs@.subrange(
                    lo + 3,
                    hi as int,
                ));
            }
            Some(lo + 3)
        } else {
            Some(lo + 2)
        }
    } else {
        None
    }
}

/// The doc comment written above the binding whose definition starts at
/// byte `definition.start`: the `--` lines stacked directly above it (or above
/// its signature line), markers and one following space dropped, joined with
/// newlines and trimmed of blank ends; `None` when the definition does not
/// start its line or no comment is there.
pub fn doc_comment_above_definition(source: &str, definition: &Span) -> (r: Option<String>)
    requires
        4 * source@.len() <= usize::MAX,
        definition.start >= byte_offset(source@, source@.len() as int) || exists|k: int|
            0 <= k <= source@.len() && byte_offset(source@, k) == definition.start,
    ensures
        definition.start > byte_offset(source@, source@.len() as int) ==> r is None,
        forall|k: int|
            0 <= k <= source@.len() && byte_offset(source@, k) == definition.start ==> match r {
                Some(d) => doc_spec(source@, k) == Some(d@),
                None => doc_spec(source@, k) is None,
            },
{
    let cs = chars_of(source);
    let offs = byte_offsets(&cs);
    let total = offs[cs.len()];
    if definition.start > total {
        proof {
            assert forall|k: int| 0 <= k <= source@.len() implies byte_offset(source@, k) <= total by {
                lemma_byte_offset_mono(cs@, k, cs@.len() as int);
            }
        }
        return None;
    }
    let mut k: usize = 0;
    while k < cs.len() && offs[k] != definition.start
        invariant
            k <= cs.len(),
            offs@.len() == cs@.len() + 1,
            forall|i: int| 0 <= i <= cs@.len() ==> #[trigger] offs@[i] == byte_offset(cs@, i),
            forall|i: int| 0 <= i < k ==> byte_offset(cs@, i) != definition.start,
        decreases cs.len() - k,
    {
        k = k + 1;
    }
    proof {
        assert forall|i: int|
            0 <= i <= cs@.len() && byte_offset(cs@, i) == definition.start implies i == k by {
            if i < k {
            } else if i > k {
                lemma_strict_offsets(cs@, k as int, i);
            }
        }
    }
    let ls = find_line_start(&cs, k);
    if ls != k {
        return None;
    }
    let line_hi = line_bounds(&cs, k);
    let name_hi = identifier_end(&cs, k, line_hi);
    proof {
        let line = cs@.subrange(k as int, line_hi as int);
        assert(line.subrange(0, (name_hi - k) as int) =~= cs@.subrange(k as int, name_hi as int));
    }
    let mut block_start = k;
    if k > 0 {
        let prev = find_line_start(&cs, k - 1);
        proof {
            lemma_line_start_bounds(cs@, k - 1);
        }
        let prev_hi = line_bounds(&cs, prev);
        if signature_for(&cs, prev, prev_hi, k, name_hi) {
            block_start = prev;
        }
    }
    let ghost bs = block_start as int;
    // Walk upwards collecting comment bodies, as (start, end) pairs.
    let mut bodies: Vec<(usize, usize)> = Vec::new();
    let mut cur = block_start;
    let mut stop = false;
    while cur > 0 && !stop
        invariant
            stop ==> comment_block(cs@, cur as int) =~= Seq::<Seq<char>>::empty(),
            cur <= block_start <= cs.len(),
            bs == block_start,
            forall|m: int|
                0 <= m < bodies@.len() ==> (#[trigger] bodies@[m]).0 <= bodies@[m].1 <= cs@.len(),
            comment_block(cs@, bs) == comment_block(cs@, cur as int) + rev_bodies(cs@, bodies@),
        decreases cur + if stop {
            0int
        } else {
            1int
        },
    {
        let prev = find_line_start(&cs, cur - 1);
        proof {
            lemma_line_start_bounds(cs@, cur - 1);
        }
        let prev_hi = line_bounds(&cs, prev);
        match comment_start(&cs, prev, prev_hi) {
            Some(b) => {
                let ghost old_bodies = bodies@;
                bodies.push((b, prev_hi));
                proof {
                    let body = cs@.subrange(b as int, prev_hi as int);
                    assert(comment_block(cs@, cur as int) == comment_block(cs@, prev as int).push(
                        body,
                    ));
                    assert(bodies@.drop_last() =~= old_bodies);
                    assert(rev_bodies(cs@, bodies@) =~= seq![body] + rev_bodies(cs@, old_bodies));
                    assert(comment_block(cs@, prev as int).push(body) + rev_bodies(cs@, old_bodies)
                        =~= comment_block(cs@, prev as int) + (seq![body] + rev_bodies(
                        cs@,
                        old_bodies,
                    )));
                }
                cur = prev;
            },
            None => {
                stop = true;
            },
        }
    }
    proof {
        assert(comment_block(cs@, cur as int) =~= Seq::<Seq<char>>::empty());
        assert(comment_block(cs@, bs) =~= rev_bodies(cs@, bodies@));
    }
    // Join top-down (the collected bodies run bottom-up), with newlines.
    let mut joined: Vec<char> = Vec::new();
    let mut idx = bodies.len();
    while idx > 0
        invariant
            idx <= bodies.len(),
            forall|m: int|
                0 <= m < bodies@.len() ==> (#[trigger] bodies@[m]).0 <= bodies@[m].1 <= cs@.len(),
            joined@ == join_lines(rev_bodies(cs@, bodies@.subrange(idx as int, bodies@.len() as int))),
        decreases idx,
    {
        idx = idx - 1;
        let (lo, hi) = bodies[idx];
        let ghost before = joined@;
        let ghost done = bodies@.subrange(idx + 1, bodies@.len() as int);
        let ghost now = bodies@.subrange(idx as int, bodies@.len() as int);
        if idx + 1 < bodies.len() {
            joined.push('\n');
        }
        let mut c = lo;
        while c < hi
            invariant
                lo <= c <= hi <= cs.len(),
                joined@ == (if idx + 1 < bodies@.len() { before.push('\n') } else { before })
                    + cs@.subrange(lo as int, c as int),
            decreases hi - c,
        {
            joined.push(cs[c]);
            c = c + 1;
            proof {
                assert(cs@.subrange(lo as int, c as int) =~= cs@.subrange(lo as int, c - 1).push(
                    cs@[c - 1],
                ));
            }
        }
        proof {
            let body = cs@.subrange(lo as int, hi as int);
            assert(now.drop_first() =~= done);
            assert(now[0] == bodies@[idx as int]);
            lemma_rev_bodies_first(cs@, now);
            assert(rev_bodies(cs@, now) == rev_bodies(cs@, done).push(body));
            if idx + 1 < bodies@.len() {
                lemma_rev_bodies_len(cs@, done);
                assert(rev_bodies(cs@, now).drop_last() =~= rev_bodies(cs@, done));
                assert(joined@ =~= join_lines(rev_bodies(cs@, done)) + seq!['\n'] + body);
            } else {
                assert(done.len() == 0);
                assert(rev_bodies(cs@, done) =~= Seq::<Seq<char>>::empty());
                assert(joined@ =~= body);
            }
        }
    }
    proof {
        assert(bodies@.subrange(0, bodies@.len() as int) =~= bodies@);
    }
    // Trim newlines at both ends.
    let mut lo: usize = 0;
    let mut hi: usize = joined.len();
    proof {
        assert(joined@.subrange(0, joined@.len() as int) =~= joined@);
    }
    while lo < hi && joined[lo] == '\n'
        invariant
            lo <= hi == joined.len(),
            trim_nl_start(joined@.subrange(lo as int, hi as int)) == trim_nl_start(joined@),
        decreases hi - lo,
    {
        proof {
            assert(joined@.subrange(lo as int, hi as int).drop_first() =~= joined@.subrange(
                lo + 1,
                hi as int,
            ));
        }
        lo = lo + 1;
    }
    proof {
        assert(joined@.subrange(0, joined@.len() as int) =~= joined@);
    }
    while hi > lo && joined[hi - 1] == '\n'
        invariant
            lo <= hi <= joined.len(),
            trim_nl_end(joined@.subrange(lo as int, hi as int)) == trim_nl_end(
                trim_nl_start(joined@),
            ),
        decreases hi,
    {
        proof {
            assert(joined@.subrange(lo as int, hi as int).drop_last() =~= joined@.subrange(
                lo as int,
                hi - 1,
            ));
        }
        hi = hi - 1;
    }
    if hi == lo {
        None
    } else {
        Some(string_of_range(&joined, lo, hi))
    }
}

/// The collected comment bodies, as text, in top-down order (the vector holds
/// them bottom-up).
pub open spec fn rev_bodies(cs: Seq<char>, b: Seq<(usize, usize)>) -> Seq<Seq<char>>
    decreases b.len(),
{
    if b.len() == 0 {
        Seq::empty()
    } else {
        seq![cs.subrange(b.last().0 as int, b.last().1 as int)] + rev_bodies(cs, b.drop_last())
    }
}

proof fn lemma_rev_bodies_len(cs: Seq<char>, b: Seq<(usize, usize)>)
    ensures
        rev_bodies(cs, b).len() == b.len(),
    decreases b.len(),
{
    if b.len() > 0 {
        lemma_rev_bodies_len(cs, b.drop_last());
    }
}

proof fn lemma_rev_bodies_first(cs: Seq<char>, b: Seq<(usize, usize)>)
    requires
        b.len() > 0,
    ensures
        rev_bodies(cs, b) == rev_bodies(cs, b.drop_first()).push(cs.subrange(b[0].0 as int, b[0].1 as int)),
    decreases b.len(),
{
    if b.len() == 1 {
        assert(b.drop_first() =~= Seq::<(usize, usize)>::empty());
        assert(b.drop_last() =~= Seq::<(usize, usize)>::empty());
        assert(rev_bodies(cs, Seq::<(usize, usize)>::empty()) =~= Seq::<Seq<char>>::empty());
        assert(rev_bodies(cs, b) =~= seq![cs.subrange(b[0].0 as int, b[0].1 as int)]);
    } else {
        lemma_rev_bodies_first(cs, b.drop_last());
        assert(b.drop_last().drop_first() =~= b.drop_first().drop_last());
        assert(b.drop_first().last() == b.last());
        assert(b.drop_last()[0] == b[0]);
        assert(rev_bodies(cs, b) =~= rev_bodies(cs, b.drop_first()).push(
            cs.subrange(b[0].0 as int, b[0].1 as int),
        ));
    }
}

proof fn lemma_strict_offsets(cs: Seq<char>, i: int, j: int)
    requires
        0 <= i < j <= cs.len(),
    ensures
        byte_offset(cs, i) < byte_offset(cs, j),
    decreases j - i,
{
    lemma_byte_offset_mono(cs, i, j - 1);
    assert(byte_offset(cs, j) == byte_offset(cs, j - 1) + crate::text::utf8_width(cs[j - 1]));
}

} // verus!
