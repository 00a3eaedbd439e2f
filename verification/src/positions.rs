//! Editor positions: a zero-based line and a column counted in UTF-16 code
//! units, converted to and from UTF-8 byte offsets into the source.
use vstd::prelude::*;
use crate::text::{byte_offset, char_width, chars_of, lemma_byte_offset_mono};

verus! {

/// A position as editors count it: line, and UTF-16 units into the line.
#[derive(Debug, Clone, Copy, PartialEq, Eq, Structural)]
pub struct Position {
    pub line: u32,
    pub character: u32,
}

/// The UTF-16 code units a character takes.
pub open spec fn utf16_width(c: char) -> nat {
    if (c as u32) < 0x10000 {
        1
    } else {
        2
    }
}

/// The UTF-16 code units of a character sequence.
pub open spec fn utf16_len(cs: Seq<char>) -> nat
    decreases cs.len(),
{
    if cs.len() == 0 {
        0
    } else {
        utf16_len(cs.drop_last()) + utf16_width(cs.last())
    }
}

/// The index just past the first newline at or after `i`, if there is one.
pub open spec fn after_newline(cs: Seq<char>, i: int) -> Option<int>
    decreases cs.len() - i,
{
    if i < 0 || i >= cs.len() {
        None
    } else if cs[i] == '\n' {
        Some(i + 1)
    } else {
        after_newline(cs, i + 1)
    }
}

/// The character index where line `n` starts, if the text has that line.
pub open spec fn line_start(cs: Seq<char>, n: nat) -> Option<int>
    decreases n,
{
    if n == 0 {
        Some(0)
    } else {
        match line_start(cs, (n - 1) as nat) {
            Some(l) => after_newline(cs, l),
            None => None,
        }
    }
}

/// Scanning a line from its start `l`, the first index `k >= from` that ends
/// the line or reaches `ch` UTF-16 units.
pub open spec fn column_stop(cs: Seq<char>, l: int, from: int, ch: nat) -> int
    decreases cs.len() - from,
{
    if from < l || from >= cs.len() {
        cs.len() as int
    } else if cs[from] == '\n' || utf16_len(cs.subrange(l, from)) >= ch {
        from
    } else {
        column_stop(cs, l, from + 1, ch)
    }
}

/// The byte offset a position names: the start of its line plus its
/// columns, stopping at the line's end; the end of the text for a line past
/// the last.
pub open spec fn offset_spec(cs: Seq<char>, p: Position) -> nat {
    match line_start(cs, p.line as nat) {
        Some(l) => byte_offset(cs, column_stop(cs, l, l, p.character as nat)),
        None => byte_offset(cs, cs.len() as int),
    }
}

proof fn lemma_after_newline_bounds(cs: Seq<char>, i: int)
    requires
        0 <= i,
    ensures
        after_newline(cs, i) matches Some(k) ==> i < k <= cs.len() && cs[k - 1] == '\n',
        after_newline(cs, i) is None ==> forall|j: int| i <= j < cs.len() ==> cs[j] != '\n',
    decreases cs.len() - i,
{
    if i < cs.len() && cs[i] != '\n' {
        lemma_after_newline_bounds(cs, i + 1);
    }
}

proof fn lemma_line_start_bounds(cs: Seq<char>, n: nat)
    ensures
        line_start(cs, n) matches Some(l) ==> 0 <= l <= cs.len(),
    decreases n,
{
    if n > 0 {
        lemma_line_start_bounds(cs, (n - 1) as nat);
        if let Some(l) = line_start(cs, (n - 1) as nat) {
            lemma_after_newline_bounds(cs, l);
        }
    }
}

proof fn lemma_utf16_push(cs: Seq<char>, l: int, k: int)
    requires
        0 <= l <= k < cs.len(),
    ensures
        utf16_len(cs.subrange(l, k + 1)) == utf16_len(cs.subrange(l, k)) + utf16_width(cs[k]),
{
    assert(cs.subrange(l, k + 1).drop_last() =~= cs.subrange(l, k));
}

proof fn lemma_utf16_bound(cs: Seq<char>)
    ensures
        utf16_len(cs) <= 2 * cs.len(),
    decreases cs.len(),
{
    if cs.len() > 0 {
        lemma_utf16_bound(cs.drop_last());
    }
}

/// The byte offset of a position in `source`.
pub fn offset_at(source: &str, position: Position) -> (r: usize)
    requires
        4 * source@.len() <= usize::MAX,
    ensures
        r == offset_spec(source@, position),
{
    let cs = chars_of(source);
    let ghost s = source@;
    let mut i: usize = 0;
    let mut b: usize = 0;
    let mut line: u32 = 0;
    let mut line_start_i: usize = 0;
    proof {
        lemma_byte_offset_mono(s, 0, 0);
    }
    while i < cs.len() && line != position.line
        invariant
            cs@ == s,
            4 * s.len() <= usize::MAX,
            i <= cs.len(),
            b == byte_offset(s, i as int),
            line <= position.line,
            line_start(s, line as nat) == Some(line_start_i as int),
            line_start_i <= i,
            forall|j: int| line_start_i <= j < i ==> s[j] != '\n',
            line_start_i > 0 ==> s[line_start_i - 1] == '\n',
        decreases cs.len() - i,
    {
        proof {
            lemma_byte_offset_mono(s, i as int, i + 1);
            lemma_byte_offset_mono(s, i + 1, s.len() as int);
            lemma_byte_offset_mono(s, 0, s.len() as int);
        }
        let c = cs[i];
        b = b + char_width(c);
        i = i + 1;
        if c == '\n' {
            proof {
                assert(after_newline(s, line_start_i as int) == Some(i as int)) by {
                    lemma_after_newline_from(s, line_start_i as int, (i - 1) as int);
                }
                assert(line_start(s, (line + 1) as nat) == after_newline(s, line_start_i as int));
            }
            line = line + 1;
            line_start_i = i;
        }
    }
    if line != position.line {
        proof {
            assert(i == cs.len());
            lemma_after_newline_bounds(s, line_start_i as int);
            assert(after_newline(s, line_start_i as int) is None);
            lemma_no_later_lines(s, line as nat, position.line as nat);
        }
        return b;
    }
    let l = line_start_i;
    let mut k: usize = l;
    let mut bk: usize = byte_offset_at(&cs, l);
    let mut units: u64 = 0;
    proof {
        lemma_line_start_bounds(s, position.line as nat);
        assert(s.subrange(l as int, l as int) =~= Seq::<char>::empty());
    }
    while k < cs.len()
        invariant
            cs@ == s,
            s == source@,
            4 * s.len() <= usize::MAX,
            l <= k <= cs.len(),
            bk == byte_offset(s, k as int),
            units == utf16_len(s.subrange(l as int, k as int)),
            units <= 2 * s.len(),
            line_start(s, position.line as nat) == Some(l as int),
            column_stop(s, l as int, l as int, position.character as nat) == column_stop(s, l as int, k as int, position.character as nat),
        decreases cs.len() - k,
    {
        let c = cs[k];
        if c == '\n' || units >= position.character as u64 {
            proof {
                assert(s[k as int] == c);
                assert(column_stop(s, l as int, k as int, position.character as nat) == k);
                assert(offset_spec(s, position) == byte_offset(s, k as int));
            }
            return bk;
        }
        proof {
            lemma_utf16_push(s, l as int, k as int);
            lemma_utf16_bound(s.subrange(l as int, k + 1));
            lemma_byte_offset_mono(s, k as int, k + 1);
            lemma_byte_offset_mono(s, k + 1, s.len() as int);
            lemma_byte_offset_mono(s, 0, s.len() as int);
        }
        units = units + if (c as u32) < 0x10000 { 1 } else { 2 };
        bk = bk + char_width(c);
        k = k + 1;
    }
    bk
}

proof fn lemma_after_newline_from(cs: Seq<char>, i: int, k: int)
    requires
        0 <= i <= k < cs.len(),
        cs[k] == '\n',
        forall|j: int| i <= j < k ==> cs[j] != '\n',
    ensures
        after_newline(cs, i) == Some(k + 1),
    decreases k - i,
{
    if i < k {
        lemma_after_newline_from(cs, i + 1, k);
    }
}

proof fn lemma_no_later_lines(cs: Seq<char>, n: nat, m: nat)
    requires
        n <= m,
        line_start(cs, n) matches Some(l) && after_newline(cs, l) is None,
    ensures
        n < m ==> line_start(cs, m) is None,
    decreases m - n,
{
    if n + 1 < m {
        assert(line_start(cs, n + 1) is None);
        lemma_none_stays(cs, n + 1, m);
    }
}

proof fn lemma_none_stays(cs: Seq<char>, n: nat, m: nat)
    requires
        n <= m,
        line_start(cs, n) is None,
    ensures
        line_start(cs, m) is None,
    decreases m - n,
{
    if n < m {
        lemma_none_stays(cs, n, (m - 1) as nat);
    }
}

/// The byte offset of character index `k`.
fn byte_offset_at(cs: &Vec<char>, k: usize) -> (r: usize)
    requires
        k <= cs.len(),
        4 * cs.len() <= usize::MAX,
    ensures
        r == byte_offset(cs@, k as int),
{
    let mut i: usize = 0;
    let mut b: usize = 0;
    while i < k
        invariant
            i <= k <= cs.len(),
            4 * cs.len() <= usize::MAX,
            b == byte_offset(cs@, i as int),
        decreases k - i,
    {
        proof {
            lemma_byte_offset_mono(cs@, i as int, i + 1);
            lemma_byte_offset_mono(cs@, 0, i + 1);
        }
        b = b + char_width(cs[i]);
        i = i + 1;
    }
    b
}

/// The newlines of a character sequence.
pub open spec fn newlines(cs: Seq<char>) -> nat
    decreases cs.len(),
{
    if cs.len() == 0 {
        0
    } else {
        newlines(cs.drop_last()) + if cs.last() == '\n' { 1nat } else { 0nat }
    }
}

/// Where the line holding character index `k` starts: just past the last
/// newline before `k`.
pub open spec fn start_of_line(cs: Seq<char>, k: int) -> int
    decreases k,
{
    if k <= 0 {
        0
    } else if cs[k - 1] == '\n' {
        k
    } else {
        start_of_line(cs, k - 1)
    }
}

/// The editor position of character index `k`: the newlines before it, and
/// the UTF-16 units between its line's start and it.
pub open spec fn position_of(cs: Seq<char>, k: int) -> (nat, nat) {
    (newlines(cs.subrange(0, k)), utf16_len(cs.subrange(start_of_line(cs, k), k)))
}

/// A byte offset clamped to the end of the text.
pub open spec fn clamped(cs: Seq<char>, b: nat) -> nat {
    if b < byte_offset(cs, cs.len() as int) {
        b
    } else {
        byte_offset(cs, cs.len() as int)
    }
}

/// The position of byte offset `b` fits in 32-bit line and column counts,
/// at a character boundary.
pub open spec fn representable(cs: Seq<char>, b: nat) -> bool {
    exists|k: int| 0 <= k <= cs.len() && byte_offset(cs, k) == clamped(cs, b) && position_of(cs, k).0 <= u32::MAX
        && position_of(cs, k).1 <= u32::MAX
}

proof fn lemma_byte_offset_strict(cs: Seq<char>, i: int, j: int)
    requires
        0 <= i < j <= cs.len(),
    ensures
        byte_offset(cs, i) < byte_offset(cs, j),
    decreases j - i,
{
    if i + 1 < j {
        lemma_byte_offset_strict(cs, i, j - 1);
    }
}

proof fn lemma_newlines_push(cs: Seq<char>, k: int)
    requires
        0 <= k < cs.len(),
    ensures
        newlines(cs.subrange(0, k + 1)) == newlines(cs.subrange(0, k)) + if cs[k] == '\n' { 1nat } else { 0nat },
{
    assert(cs.subrange(0, k + 1).drop_last() =~= cs.subrange(0, k));
}

proof fn lemma_newlines_mono(cs: Seq<char>, i: int, j: int)
    requires
        0 <= i <= j <= cs.len(),
    ensures
        newlines(cs.subrange(0, i)) <= newlines(cs.subrange(0, j)),
    decreases j - i,
{
    if i < j {
        lemma_newlines_mono(cs, i, j - 1);
        lemma_newlines_push(cs, j - 1);
    }
}

proof fn lemma_start_of_line_bounds(cs: Seq<char>, k: int)
    requires
        0 <= k <= cs.len(),
    ensures
        0 <= start_of_line(cs, k) <= k,
    decreases k,
{
    if k > 0 && cs[k - 1] != '\n' {
        lemma_start_of_line_bounds(cs, k - 1);
    }
}

proof fn lemma_utf16_mono(cs: Seq<char>, l: int, i: int, j: int)
    requires
        0 <= l <= i <= j <= cs.len(),
    ensures
        utf16_len(cs.subrange(l, i)) <= utf16_len(cs.subrange(l, j)),
    decreases j - i,
{
    if i < j {
        lemma_utf16_mono(cs, l, i, j - 1);
        lemma_utf16_push(cs, l, j - 1);
    }
}

/// The editor position of a byte offset into `source`, clamped to its end.
pub fn position_at(source: &str, byte: usize) -> (r: Position)
    requires
        4 * source@.len() <= usize::MAX,
        representable(source@, byte as nat),
    ensures
        forall|k: int| 0 <= k <= source@.len() && byte_offset(source@, k) == clamped(source@, byte as nat)
            ==> (r.line as nat, r.character as nat) == position_of(source@, k),
{
    let cs = chars_of(source);
    let ghost s = source@;
    let total = byte_offset_at(&cs, cs.len());
    let target = if byte < total { byte } else { total };
    let ghost kt = choose|k: int| 0 <= k <= s.len() && byte_offset(s, k) == clamped(s, byte as nat) && position_of(s, k).0 <= u32::MAX
        && position_of(s, k).1 <= u32::MAX;
    let mut i: usize = 0;
    let mut b: usize = 0;
    let mut line: u32 = 0;
    let mut start: usize = 0;
    proof {
        assert(s.subrange(0, 0) =~= Seq::<char>::empty());
    }
    while b < target
        invariant
            cs@ == s,
            s == source@,
            4 * s.len() <= usize::MAX,
            0 <= kt <= s.len(),
            byte_offset(s, kt) == target,
            position_of(s, kt).0 <= u32::MAX,
            i <= kt,
            b == byte_offset(s, i as int),
            line as nat == newlines(s.subrange(0, i as int)),
            start as int == start_of_line(s, i as int),
        decreases kt - i,
    {
        proof {
            if i == kt {
                assert(false);
            }
            if i < kt {
                lemma_newlines_mono(s, i + 1, kt);
            }
            lemma_newlines_push(s, i as int);
            lemma_byte_offset_mono(s, i as int, i + 1);
            lemma_byte_offset_mono(s, i + 1, s.len() as int);
            lemma_byte_offset_mono(s, 0, s.len() as int);
        }
        let c = cs[i];
        b = b + char_width(c);
        i = i + 1;
        if c == '\n' {
            line = line + 1;
            start = i;
        }
    }
    proof {
        if i < kt {
            lemma_byte_offset_strict(s, i as int, kt);
        }
        assert(i == kt);
        lemma_start_of_line_bounds(s, i as int);
    }
    let mut units: u64 = 0;
    let mut k: usize = start;
    proof {
        assert(s.subrange(start as int, start as int) =~= Seq::<char>::empty());
    }
    while k < i
        invariant
            cs@ == s,
            start <= k <= i <= s.len(),
            i == kt,
            position_of(s, kt).1 <= u32::MAX,
            start as int == start_of_line(s, i as int),
            units == utf16_len(s.subrange(start as int, k as int)),
        decreases i - k,
    {
        proof {
            lemma_utf16_push(s, start as int, k as int);
            lemma_utf16_mono(s, start as int, k + 1, i as int);
        }
        let c = cs[k];
        units = units + if (c as u32) < 0x10000 { 1 } else { 2 };
        k = k + 1;
    }
    let r = Position { line, character: units as u32 };
    proof {
        assert forall|k2: int| 0 <= k2 <= s.len() && byte_offset(s, k2) == clamped(s, byte as nat) implies (r.line as nat, r.character as nat) == position_of(s, k2) by {
            if k2 < kt {
                lemma_byte_offset_strict(s, k2, kt);
            } else if k2 > kt {
                lemma_byte_offset_strict(s, kt, k2);
            }
        }
    }
    r
}

/// A range of editor positions.
#[derive(Debug, Clone, Copy, PartialEq, Eq, Structural)]
pub struct Range {
    pub start: Position,
    pub end: Position,
}

/// The editor range of a byte span of `source`.
pub fn span_to_range(source: &str, span: &std::ops::Range<usize>) -> (r: Range)
    requires
        4 * source@.len() <= usize::MAX,
        representable(source@, span.start as nat),
        representable(source@, span.end as nat),
    ensures
        forall|k: int| 0 <= k <= source@.len() && byte_offset(source@, k) == clamped(source@, span.start as nat)
            ==> (r.start.line as nat, r.start.character as nat) == position_of(source@, k),
        forall|k: int| 0 <= k <= source@.len() && byte_offset(source@, k) == clamped(source@, span.end as nat)
            ==> (r.end.line as nat, r.end.character as nat) == position_of(source@, k),
{
    Range { start: position_at(source, span.start), end: position_at(source, span.end) }
}

} // verus!
