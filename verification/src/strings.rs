//! The `String` surface of the language's prelude, on plain strings. Every
//! length, index and slice bound counts Unicode scalars (characters), never
//! bytes, and every operation is total: out-of-range bounds clamp, and empty
//! needles and separators have a fixed meaning.
use vstd::prelude::*;
use crate::text::{chars_of, push_char, push_str, string_of_range};

verus! {

/// A slice bound resolved against a length: a negative index counts from the
/// end, then the result is clamped into `0..=len`.
pub open spec fn slice_bound(idx: int, len: int) -> int {
    let shifted = if idx < 0 { idx + len } else { idx };
    if shifted < 0 {
        0
    } else if shifted > len {
        len
    } else {
        shifted
    }
}

/// `String.slice start end s`: the scalars between the two resolved bounds,
/// empty when they cross.
pub open spec fn slice_spec(cs: Seq<char>, start: int, end: int) -> Seq<char> {
    let lo = slice_bound(start, cs.len() as int);
    let hi = slice_bound(end, cs.len() as int);
    if lo >= hi {
        Seq::empty()
    } else {
        cs.subrange(lo, hi)
    }
}

fn resolve_bound(idx: i64, len: usize) -> (r: usize)
    requires
        len <= i64::MAX,
    ensures
        r == slice_bound(idx as int, len as int),
{
    let n = len as i64;
    let shifted: i64 = if idx < 0 { idx + n } else { idx };
    if shifted < 0 {
        0
    } else if shifted > n {
        len
    } else {
        shifted as usize
    }
}

/// `String.slice`: characters `start..end` of `s`, where negative bounds count
/// from the end and both bounds clamp into the string.
pub fn scalar_slice(s: &str, start: i64, end: i64) -> (r: String)
    requires
        s@.len() <= i64::MAX,
    ensures
        r@ == slice_spec(s@, start as int, end as int),
{
    let cs = chars_of(s);
    let lo = resolve_bound(start, cs.len());
    let hi = resolve_bound(end, cs.len());
    if lo >= hi {
        String::new()
    } else {
        string_of_range(&cs, lo, hi)
    }
}

/// The number of characters `String.left n` / `String.dropLeft n` act on:
/// `n` clamped into `0..=len`.
pub open spec fn count_bound(n: int, len: int) -> int {
    if n < 1 {
        0
    } else if n > len {
        len
    } else {
        n
    }
}

fn clamp_count(n: i64, len: usize) -> (r: usize)
    ensures
        r == count_bound(n as int, len as int),
{
    if n < 1 {
        0
    } else if n as u64 > len as u64 {
        len
    } else {
        n as usize
    }
}

/// `String.left n s`: the first `n` characters (none when `n < 1`).
pub fn string_left(n: i64, s: &str) -> (r: String)
    ensures
        r@ == s@.subrange(0, count_bound(n as int, s@.len() as int)),
{
    let cs = chars_of(s);
    let k = clamp_count(n, cs.len());
    string_of_range(&cs, 0, k)
}

/// `String.right n s`: the last `n` characters (none when `n < 1`).
pub fn string_right(n: i64, s: &str) -> (r: String)
    ensures
        r@ == s@.subrange(s@.len() - count_bound(n as int, s@.len() as int), s@.len() as int),
{
    let cs = chars_of(s);
    let k = clamp_count(n, cs.len());
    string_of_range(&cs, cs.len() - k, cs.len())
}

/// `String.dropLeft n s`: all but the first `n` characters.
pub fn string_drop_left(n: i64, s: &str) -> (r: String)
    ensures
        r@ == s@.subrange(count_bound(n as int, s@.len() as int), s@.len() as int),
{
    let cs = chars_of(s);
    let k = clamp_count(n, cs.len());
    string_of_range(&cs, k, cs.len())
}

/// `String.dropRight n s`: all but the last `n` characters.
pub fn string_drop_right(n: i64, s: &str) -> (r: String)
    ensures
        r@ == s@.subrange(0, s@.len() - count_bound(n as int, s@.len() as int)),
{
    let cs = chars_of(s);
    let k = clamp_count(n, cs.len());
    string_of_range(&cs, 0, cs.len() - k)
}

/// `String.reverse`.
pub fn string_reverse(s: &str) -> (r: String)
    ensures
        r@ == s@.reverse(),
{
    let cs = chars_of(s);
    let mut out = String::new();
    let mut i: usize = cs.len();
    while i > 0
        invariant
            i <= cs.len(),
            cs@ == s@,
            out@ == s@.subrange(i as int, s@.len() as int).reverse(),
        decreases i,
    {
        i = i - 1;
        push_char(&mut out, cs[i]);
        proof {
            assert(out@ =~= s@.subrange(i as int, s@.len() as int).reverse());
        }
    }
    proof {
        assert(s@.subrange(0, s@.len() as int) =~= s@);
    }
    out
}

/// `n` copies of a sequence, one after another.
pub open spec fn repeat_spec(cs: Seq<char>, n: nat) -> Seq<char>
    decreases n,
{
    if n == 0 {
        Seq::empty()
    } else {
        repeat_spec(cs, (n - 1) as nat) + cs
    }
}

/// `String.repeat n s`: `s` repeated `n` times (empty when `n <= 0`).
pub fn string_repeat(n: i64, s: &str) -> (r: String)
    ensures
        r@ == repeat_spec(s@, if n <= 0 { 0nat } else { n as nat }),
{
    let mut out = String::new();
    if n <= 0 {
        return out;
    }
    let mut k: i64 = 0;
    while k < n
        invariant
            0 <= k <= n,
            out@ == repeat_spec(s@, k as nat),
        decreases n - k,
    {
        push_str(&mut out, s);
        k = k + 1;
    }
    out
}

/// `n` copies of one character.
pub open spec fn fill(c: char, n: nat) -> Seq<char> {
    Seq::new(n, |i: int| c)
}

fn push_fill(out: &mut String, c: char, n: usize)
    ensures
        final(out)@ == old(out)@ + fill(c, n as nat),
{
    let mut k: usize = 0;
    while k < n
        invariant
            k <= n,
            out@ == old(out)@ + fill(c, k as nat),
        decreases n - k,
    {
        push_char(out, c);
        k = k + 1;
        proof {
            assert(out@ =~= old(out)@ + fill(c, k as nat));
        }
    }
}

/// How many characters short of width `n` a string of length `len` is.
pub open spec fn deficit(n: int, len: int) -> nat {
    if n > len {
        (n - len) as nat
    } else {
        0
    }
}

fn deficit_of(n: i64, len: usize) -> (r: usize)
    requires
        len <= i64::MAX,
        n <= usize::MAX,
    ensures
        r == deficit(n as int, len as int),
{
    let l = len as i64;
    if n > l {
        (n - l) as usize
    } else {
        0
    }
}

/// `String.padLeft n c s`: `s` preceded by enough `c`s to reach width `n`.
pub fn string_pad_left(n: i64, c: char, s: &str) -> (r: String)
    requires
        s@.len() <= i64::MAX,
        n <= usize::MAX,
    ensures
        r@ == fill(c, deficit(n as int, s@.len() as int)) + s@,
{
    let cs = chars_of(s);
    let d = deficit_of(n, cs.len());
    let mut out = String::new();
    push_fill(&mut out, c, d);
    push_str(&mut out, s);
    proof {
        assert(out@ =~= fill(c, deficit(n as int, s@.len() as int)) + s@);
    }
    out
}

/// `String.padRight n c s`: `s` followed by enough `c`s to reach width `n`.
pub fn string_pad_right(n: i64, c: char, s: &str) -> (r: String)
    requires
        s@.len() <= i64::MAX,
        n <= usize::MAX,
    ensures
        r@ == s@ + fill(c, deficit(n as int, s@.len() as int)),
{
    let cs = chars_of(s);
    let d = deficit_of(n, cs.len());
    let mut out = String::new();
    push_str(&mut out, s);
    push_fill(&mut out, c, d);
    proof {
        assert(out@ =~= s@ + fill(c, deficit(n as int, s@.len() as int)));
    }
    out
}

/// `String.pad n c s`: `s` centred in width `n`; an odd shortfall puts the
/// extra character on the left.
pub fn string_pad(n: i64, c: char, s: &str) -> (r: String)
    requires
        s@.len() <= i64::MAX,
        n <= usize::MAX,
    ensures
        r@ == fill(c, (deficit(n as int, s@.len() as int) + 1) / 2) + s@ + fill(
            c,
            deficit(n as int, s@.len() as int) / 2,
        ),
{
    let cs = chars_of(s);
    let d = deficit_of(n, cs.len());
    let left = d - d / 2;
    let right = d / 2;
    let mut out = String::new();
    push_fill(&mut out, c, left);
    push_str(&mut out, s);
    push_fill(&mut out, c, right);
    proof {
        assert(left == (d + 1) / 2);
    }
    out
}

/// The strings' character sequences.
pub open spec fn views(v: Seq<String>) -> Seq<Seq<char>> {
    v.map_values(|x: String| x@)
}

/// `cur` prefixed to the first piece of a non-empty list of pieces.
pub open spec fn prefix_first(cur: Seq<char>, ps: Seq<Seq<char>>) -> Seq<Seq<char>> {
    ps.update(0, cur + ps[0])
}

/// Whether a character ends a line.
pub open spec fn is_terminator(c: char) -> bool {
    c == '\n' || c == '\r'
}

/// The lines of a character sequence, split at `\r\n`, a lone `\r` or `\n`.
/// A terminator at the end leaves an empty last line.
pub open spec fn lines_spec(cs: Seq<char>) -> Seq<Seq<char>>
    decreases cs.len(),
{
    if cs.len() == 0 {
        seq![Seq::empty()]
    } else if cs.len() >= 2 && cs[0] == '\r' && cs[1] == '\n' {
        seq![Seq::<char>::empty()] + lines_spec(cs.skip(2))
    } else if is_terminator(cs[0]) {
        seq![Seq::<char>::empty()] + lines_spec(cs.skip(1))
    } else {
        prefix_first(seq![cs[0]], lines_spec(cs.skip(1)))
    }
}

pub proof fn lemma_lines_nonempty(cs: Seq<char>)
    ensures
        lines_spec(cs).len() >= 1,
    decreases cs.len(),
{
    if cs.len() >= 2 && cs[0] == '\r' && cs[1] == '\n' {
        lemma_lines_nonempty(cs.skip(2));
    } else if cs.len() > 0 {
        lemma_lines_nonempty(cs.skip(1));
    }
}

proof fn lemma_prefix_first_push(done: Seq<Seq<char>>, cur: Seq<char>, ps: Seq<Seq<char>>)
    requires
        ps.len() >= 1,
    ensures
        done + prefix_first(cur, seq![Seq::<char>::empty()] + ps) =~= done.push(cur) + ps,
{
    assert(cur + Seq::<char>::empty() =~= cur);
}

proof fn lemma_prefix_first_char(done: Seq<Seq<char>>, cur: Seq<char>, c: char, ps: Seq<Seq<char>>)
    requires
        ps.len() >= 1,
    ensures
        done + prefix_first(cur, prefix_first(seq![c], ps)) =~= done + prefix_first(cur.push(c), ps),
{
    assert(cur + (seq![c] + ps[0]) =~= cur.push(c) + ps[0]);
}

/// `String.lines`: the string broken at every `\r\n`, lone `\r` or `\n`.
pub fn string_lines(s: &str) -> (r: Vec<String>)
    ensures
        views(r@) == lines_spec(s@),
{
    let cs = chars_of(s);
    let mut lines: Vec<String> = Vec::new();
    let mut current = String::new();
    let mut i: usize = 0;
    proof {
        assert(s@.skip(0) =~= s@);
        lemma_lines_nonempty(s@);
        assert(current@ + lines_spec(s@)[0] =~= lines_spec(s@)[0]);
        assert(prefix_first(current@, lines_spec(s@)) =~= lines_spec(s@));
    }
    while i < cs.len()
        invariant
            i <= cs.len(),
            cs@ == s@,
            views(lines@) + prefix_first(current@, lines_spec(s@.skip(i as int))) == lines_spec(s@),
        decreases cs.len() - i,
    {
        let c = cs[i];
        let ghost rest = s@.skip(i as int);
        proof {
            assert(rest[0] == c);
            lemma_lines_nonempty(rest.skip(1));
        }
        if c == '\r' && i + 1 < cs.len() && cs[i + 1] == '\n' {
            proof {
                assert(rest[1] == '\n');
                assert(rest.skip(2) =~= s@.skip(i + 2));
                lemma_lines_nonempty(rest.skip(2));
                lemma_prefix_first_push(views(lines@), current@, lines_spec(rest.skip(2)));
            }
            lines.push(current);
            current = String::new();
            i = i + 2;
            proof {
                assert(views(lines@) =~= views(lines@.drop_last()).push(lines@.last()@));
                assert(current@ + lines_spec(s@.skip(i as int))[0] =~= lines_spec(s@.skip(i as int))[0]);
                assert(prefix_first(current@, lines_spec(s@.skip(i as int))) =~= lines_spec(s@.skip(i as int)));
            }
        } else if c == '\n' || c == '\r' {
            proof {
                assert(rest.skip(1) =~= s@.skip(i + 1));
                lemma_prefix_first_push(views(lines@), current@, lines_spec(rest.skip(1)));
            }
            lines.push(current);
            current = String::new();
            i = i + 1;
            proof {
                assert(views(lines@) =~= views(lines@.drop_last()).push(lines@.last()@));
                assert(current@ + lines_spec(s@.skip(i as int))[0] =~= lines_spec(s@.skip(i as int))[0]);
                assert(prefix_first(current@, lines_spec(s@.skip(i as int))) =~= lines_spec(s@.skip(i as int)));
            }
        } else {
            proof {
                assert(rest.skip(1) =~= s@.skip(i + 1));
                lemma_prefix_first_char(views(lines@), current@, c, lines_spec(rest.skip(1)));
            }
            push_char(&mut current, c);
            i = i + 1;
        }
    }
    proof {
        assert(s@.skip(i as int) =~= Seq::<char>::empty());
    }
    let ghost before = views(lines@);
    lines.push(current);
    proof {
        assert(views(lines@) =~= before.push(lines@.last()@));
        assert(before + prefix_first(lines@.last()@, seq![Seq::<char>::empty()]) =~= before.push(lines@.last()@));
    }
    lines
}

/// The pieces of `cs` between the non-overlapping occurrences of a non-empty
/// separator `p`, found from the left.
pub open spec fn split_spec(cs: Seq<char>, p: Seq<char>) -> Seq<Seq<char>>
    decreases cs.len(),
{
    if p.len() == 0 || cs.len() < p.len() {
        seq![cs]
    } else if cs.subrange(0, p.len() as int) == p {
        seq![Seq::<char>::empty()] + split_spec(cs.skip(p.len() as int), p)
    } else {
        prefix_first(seq![cs[0]], split_spec(cs.skip(1), p))
    }
}

pub proof fn lemma_split_nonempty(cs: Seq<char>, p: Seq<char>)
    ensures
        split_spec(cs, p).len() >= 1,
    decreases cs.len(),
{
    if p.len() == 0 || cs.len() < p.len() {
    } else if cs.subrange(0, p.len() as int) == p {
        lemma_split_nonempty(cs.skip(p.len() as int), p);
    } else {
        lemma_split_nonempty(cs.skip(1), p);
    }
}

/// Each character as a one-character string.
pub open spec fn singletons(cs: Seq<char>) -> Seq<Seq<char>> {
    cs.map_values(|c: char| seq![c])
}

/// Whether `p` occurs in `cs` at position `i`.
pub open spec fn occurs_at(cs: Seq<char>, p: Seq<char>, i: int) -> bool {
    0 <= i && i + p.len() <= cs.len() && cs.subrange(i, i + p.len()) == p
}

fn matches_at(cs: &Vec<char>, i: usize, p: &Vec<char>) -> (r: bool)
    requires
        i <= cs.len(),
    ensures
        r == occurs_at(cs@, p@, i as int),
{
    if p.len() > cs.len() - i {
        return false;
    }
    let mut k: usize = 0;
    while k < p.len()
        invariant
            i + p.len() <= cs.len(),
            k <= p.len(),
            forall|j: int| 0 <= j < k ==> cs@[i + j] == p@[j],
        decreases p.len() - k,
    {
        if cs[i + k] != p[k] {
            proof {
                assert(cs@.subrange(i as int, i + p.len())[k as int] != p@[k as int]);
            }
            return false;
        }
        k = k + 1;
    }
    proof {
        assert(cs@.subrange(i as int, i + p.len()) =~= p@);
    }
    true
}

/// `String.split sep s`: the pieces of `s` between occurrences of `sep`; an
/// empty separator gives each character as its own string.
pub fn string_split(sep: &str, s: &str) -> (r: Vec<String>)
    ensures
        views(r@) == if sep@.len() == 0 { singletons(s@) } else { split_spec(s@, sep@) },
{
    let cs = chars_of(s);
    let p = chars_of(sep);
    let mut parts: Vec<String> = Vec::new();
    if p.len() == 0 {
        let mut i: usize = 0;
        while i < cs.len()
            invariant
                i <= cs.len(),
                cs@ == s@,
                views(parts@) == singletons(s@.subrange(0, i as int)),
            decreases cs.len() - i,
        {
            let mut one = String::new();
            push_char(&mut one, cs[i]);
            let ghost before = views(parts@);
            parts.push(one);
            i = i + 1;
            proof {
                assert(views(parts@) =~= before.push(seq![s@[i - 1]]));
                assert(views(parts@) =~= singletons(s@.subrange(0, i as int)));
            }
        }
        proof {
            assert(s@.subrange(0, i as int) =~= s@);
        }
        return parts;
    }
    let mut current = String::new();
    let mut i: usize = 0;
    proof {
        assert(s@.skip(0) =~= s@);
        lemma_split_nonempty(s@, p@);
        assert(current@ + split_spec(s@, p@)[0] =~= split_spec(s@, p@)[0]);
        assert(prefix_first(current@, split_spec(s@, p@)) =~= split_spec(s@, p@));
    }
    while i < cs.len()
        invariant
            i <= cs.len(),
            cs@ == s@,
            p@ == sep@,
            p.len() > 0,
            views(parts@) + prefix_first(current@, split_spec(s@.skip(i as int), p@)) == split_spec(s@, p@),
        decreases cs.len() - i,
    {
        let ghost rest = s@.skip(i as int);
        let hit = matches_at(&cs, i, &p);
        if hit {
            proof {
                assert(rest.subrange(0, p.len() as int) =~= s@.subrange(i as int, i + p.len()));
                assert(rest.skip(p.len() as int) =~= s@.skip(i + p.len()));
                lemma_split_nonempty(rest.skip(p.len() as int), p@);
                lemma_prefix_first_push(views(parts@), current@, split_spec(rest.skip(p.len() as int), p@));
            }
            parts.push(current);
            current = String::new();
            i = i + p.len();
            proof {
                assert(views(parts@) =~= views(parts@.drop_last()).push(parts@.last()@));
                lemma_split_nonempty(s@.skip(i as int), p@);
                assert(current@ + split_spec(s@.skip(i as int), p@)[0] =~= split_spec(s@.skip(i as int), p@)[0]);
                assert(prefix_first(current@, split_spec(s@.skip(i as int), p@)) =~= split_spec(s@.skip(i as int), p@));
            }
        } else {
            let c = cs[i];
            proof {
                assert(rest[0] == c);
                assert(rest.skip(1) =~= s@.skip(i + 1));
                if rest.len() >= p.len() {
                    assert(rest.subrange(0, p.len() as int) =~= s@.subrange(i as int, i + p.len()));
                } else {
                    assert(seq![c] + rest.skip(1) =~= rest);
                    assert(split_spec(rest.skip(1), p@) == seq![rest.skip(1)]);
                    assert(prefix_first(seq![c], seq![rest.skip(1)]) =~= seq![rest]);
                }
                assert(split_spec(rest, p@) == prefix_first(seq![c], split_spec(rest.skip(1), p@)));
                lemma_split_nonempty(rest.skip(1), p@);
                lemma_prefix_first_char(views(parts@), current@, c, split_spec(rest.skip(1), p@));
            }
            push_char(&mut current, c);
            i = i + 1;
        }
    }
    proof {
        assert(s@.skip(i as int) =~= Seq::<char>::empty());
    }
    let ghost before = views(parts@);
    parts.push(current);
    proof {
        assert(views(parts@) =~= before.push(parts@.last()@));
        assert(before + prefix_first(parts@.last()@, seq![Seq::<char>::empty()]) =~= before.push(parts@.last()@));
    }
    parts
}

/// The pieces joined with `sep` between each neighbouring pair.
pub open spec fn join_spec(sep: Seq<char>, ps: Seq<Seq<char>>) -> Seq<char>
    decreases ps.len(),
{
    if ps.len() == 0 {
        Seq::empty()
    } else if ps.len() == 1 {
        ps[0]
    } else {
        ps[0] + sep + join_spec(sep, ps.skip(1))
    }
}

proof fn lemma_join_push(sep: Seq<char>, ps: Seq<Seq<char>>, x: Seq<char>)
    requires
        ps.len() >= 1,
    ensures
        join_spec(sep, ps.push(x)) =~= join_spec(sep, ps) + sep + x,
    decreases ps.len(),
{
    assert(ps.push(x)[0] == ps[0]);
    if ps.len() == 1 {
        assert(ps.push(x).skip(1) =~= seq![x]);
        assert(join_spec(sep, seq![x]) == x);
    } else {
        assert(ps.push(x).skip(1) =~= ps.skip(1).push(x));
        lemma_join_push(sep, ps.skip(1), x);
        let a = ps[0];
        let j = join_spec(sep, ps.skip(1));
        assert(join_spec(sep, ps.push(x)) == a + sep + (j + sep + x));
        assert(join_spec(sep, ps) == a + sep + j);
        assert(a + sep + (j + sep + x) =~= (a + sep + j) + sep + x);
    }
}

/// `String.join sep parts`: the parts with `sep` between neighbours.
pub fn string_join(sep: &str, parts: &Vec<String>) -> (r: String)
    ensures
        r@ == join_spec(sep@, views(parts@)),
{
    let mut out = String::new();
    if parts.len() == 0 {
        return out;
    }
    push_str(&mut out, parts[0].as_str());
    let mut i: usize = 1;
    proof {
        assert(views(parts@).subrange(0, 1) =~= seq![parts@[0]@]);
    }
    while i < parts.len()
        invariant
            1 <= i <= parts.len(),
            out@ == join_spec(sep@, views(parts@).subrange(0, i as int)),
        decreases parts.len() - i,
    {
        proof {
            lemma_join_push(sep@, views(parts@).subrange(0, i as int), parts@[i as int]@);
            assert(views(parts@).subrange(0, i as int).push(parts@[i as int]@) =~= views(parts@).subrange(0, i + 1));
        }
        push_str(&mut out, sep);
        push_str(&mut out, parts[i].as_str());
        i = i + 1;
        proof {
            assert(out@ =~= join_spec(sep@, views(parts@).subrange(0, i as int)));
        }
    }
    proof {
        assert(views(parts@).subrange(0, i as int) =~= views(parts@));
    }
    out
}

/// `String.concat parts`: the parts one after another.
pub fn string_concat(parts: &Vec<String>) -> (r: String)
    ensures
        r@ == join_spec(Seq::empty(), views(parts@)),
{
    proof {
        reveal_strlit("");
    }
    let r = string_join("", parts);
    proof {
        assert(""@ =~= Seq::<char>::empty());
    }
    r
}

/// `String.replace before after s`: every occurrence of `before`, found from
/// the left without overlap, replaced by `after`; an empty `before` leaves
/// `s` unchanged.
pub fn string_replace(before: &str, after: &str, s: &str) -> (r: String)
    ensures
        r@ == if before@.len() == 0 { s@ } else { join_spec(after@, split_spec(s@, before@)) },
{
    if before.unicode_len() == 0 {
        let mut out = String::new();
        push_str(&mut out, s);
        proof {
            assert(out@ =~= s@);
        }
        return out;
    }
    let parts = string_split(before, s);
    string_join(after, &parts)
}

/// Joining the pieces of a split with its own separator gives back the
/// string: splitting loses nothing.
pub proof fn lemma_split_join(cs: Seq<char>, p: Seq<char>)
    requires
        p.len() > 0,
    ensures
        join_spec(p, split_spec(cs, p)) == cs,
    decreases cs.len(),
{
    if cs.len() < p.len() {
    } else if cs.subrange(0, p.len() as int) == p {
        let rest = split_spec(cs.skip(p.len() as int), p);
        lemma_split_join(cs.skip(p.len() as int), p);
        lemma_split_nonempty(cs.skip(p.len() as int), p);
        let whole = seq![Seq::<char>::empty()] + rest;
        assert(whole[0] == Seq::<char>::empty());
        assert(whole.skip(1) =~= rest);
        assert(cs =~= Seq::<char>::empty() + p + cs.skip(p.len() as int));
    } else {
        let rest = split_spec(cs.skip(1), p);
        lemma_split_join(cs.skip(1), p);
        lemma_split_nonempty(cs.skip(1), p);
        let whole = prefix_first(seq![cs[0]], rest);
        if rest.len() == 1 {
            assert(cs =~= seq![cs[0]] + cs.skip(1));
        } else {
            assert(whole.skip(1) =~= rest.skip(1));
            assert(cs =~= seq![cs[0]] + (rest[0] + p + join_spec(p, rest.skip(1))));
        }
    }
}

/// The start of every occurrence of `p` in `cs` at or after `i`, in order;
/// occurrences may overlap.
pub open spec fn indexes_from(cs: Seq<char>, p: Seq<char>, i: int) -> Seq<int>
    decreases cs.len() + 1 - i,
{
    if i < 0 || i + p.len() > cs.len() {
        Seq::empty()
    } else if occurs_at(cs, p, i) {
        seq![i] + indexes_from(cs, p, i + 1)
    } else {
        indexes_from(cs, p, i + 1)
    }
}

/// `String.indexes needle s`: where every (possibly overlapping) occurrence of
/// a non-empty `needle` starts; none for an empty needle.
pub fn string_indexes(needle: &str, s: &str) -> (r: Vec<i64>)
    requires
        s@.len() <= i64::MAX,
    ensures
        r@.map_values(|x: i64| x as int) == if needle@.len() == 0 {
            Seq::<int>::empty()
        } else {
            indexes_from(s@, needle@, 0)
        },
{
    let mut out: Vec<i64> = Vec::new();
    let p = chars_of(needle);
    if p.len() == 0 {
        proof {
            assert(out@.map_values(|x: i64| x as int) =~= Seq::<int>::empty());
        }
        return out;
    }
    let cs = chars_of(s);
    let mut i: usize = 0;
    proof {
        assert(out@.map_values(|x: i64| x as int) =~= Seq::<int>::empty());
    }
    while i < cs.len() && p.len() <= cs.len() - i
        invariant
            i <= cs.len(),
            cs@ == s@,
            p@ == needle@,
            p.len() > 0,
            s@.len() <= i64::MAX,
            out@.map_values(|x: i64| x as int) + indexes_from(s@, needle@, i as int) == indexes_from(s@, needle@, 0),
        decreases cs.len() - i,
    {
        let ghost before = out@.map_values(|x: i64| x as int);
        if matches_at(&cs, i, &p) {
            out.push(i as i64);
            proof {
                assert(out@.map_values(|x: i64| x as int) =~= before.push(i as int));
                assert(before + (seq![i as int] + indexes_from(s@, needle@, i + 1)) =~= before.push(i as int) + indexes_from(s@, needle@, i + 1));
            }
        }
        i = i + 1;
    }
    proof {
        assert(indexes_from(s@, needle@, i as int) =~= Seq::<int>::empty());
        assert(out@.map_values(|x: i64| x as int) + Seq::<int>::empty() =~= out@.map_values(|x: i64| x as int));
    }
    out
}

/// Whether `p` occurs anywhere in `cs` (the empty sequence occurs everywhere).
pub open spec fn contains_spec(cs: Seq<char>, p: Seq<char>) -> bool {
    exists|i: int| occurs_at(cs, p, i)
}

/// `String.contains needle s`.
pub fn string_contains(needle: &str, s: &str) -> (r: bool)
    ensures
        r == contains_spec(s@, needle@),
{
    let cs = chars_of(s);
    let p = chars_of(needle);
    if p.len() == 0 {
        proof {
            assert(s@.subrange(0, 0) =~= needle@);
            assert(occurs_at(s@, needle@, 0));
        }
        return true;
    }
    if p.len() > cs.len() {
        proof {
            assert forall|i: int| !occurs_at(s@, needle@, i) by {}
        }
        return false;
    }
    let mut i: usize = 0;
    while i <= cs.len() - p.len()
        invariant
            0 < p.len() <= cs.len(),
            i <= cs.len() - p.len() + 1,
            cs@ == s@,
            p@ == needle@,
            forall|k: int| 0 <= k < i ==> !occurs_at(s@, needle@, k),
        decreases cs.len() - p.len() + 1 - i,
    {
        if matches_at(&cs, i, &p) {
            return true;
        }
        i = i + 1;
    }
    proof {
        assert forall|k: int| !occurs_at(s@, needle@, k) by {
            if 0 <= k < i {
            }
        }
    }
    false
}

/// `String.startsWith prefix s`.
pub fn string_starts_with(prefix: &str, s: &str) -> (r: bool)
    ensures
        r == occurs_at(s@, prefix@, 0),
{
    let cs = chars_of(s);
    let p = chars_of(prefix);
    matches_at(&cs, 0, &p)
}

/// `String.endsWith suffix s`.
pub fn string_ends_with(suffix: &str, s: &str) -> (r: bool)
    ensures
        r == (suffix@.len() <= s@.len() && occurs_at(s@, suffix@, s@.len() - suffix@.len())),
{
    let cs = chars_of(s);
    let p = chars_of(suffix);
    if p.len() > cs.len() {
        return false;
    }
    matches_at(&cs, cs.len() - p.len(), &p)
}

/// `cs` without its leading whitespace.
pub open spec fn trim_start_spec(cs: Seq<char>) -> Seq<char>
    decreases cs.len(),
{
    if cs.len() > 0 && crate::text::unicode_whitespace(cs[0]) {
        trim_start_spec(cs.skip(1))
    } else {
        cs
    }
}

/// `cs` without its trailing whitespace.
pub open spec fn trim_end_spec(cs: Seq<char>) -> Seq<char>
    decreases cs.len(),
{
    if cs.len() > 0 && crate::text::unicode_whitespace(cs.last()) {
        trim_end_spec(cs.drop_last())
    } else {
        cs
    }
}

fn first_kept(cs: &Vec<char>) -> (r: usize)
    ensures
        r <= cs.len(),
        trim_start_spec(cs@) == cs@.skip(r as int),
{
    let mut i: usize = 0;
    proof {
        assert(cs@.skip(0) =~= cs@);
    }
    while i < cs.len() && crate::text::is_whitespace(cs[i])
        invariant
            i <= cs.len(),
            trim_start_spec(cs@) == trim_start_spec(cs@.skip(i as int)),
        decreases cs.len() - i,
    {
        proof {
            assert(cs@.skip(i as int)[0] == cs@[i as int]);
            assert(cs@.skip(i as int).skip(1) =~= cs@.skip(i + 1));
        }
        i = i + 1;
    }
    proof {
        if i < cs.len() {
            assert(cs@.skip(i as int)[0] == cs@[i as int]);
        }
    }
    i
}

fn last_kept(cs: &Vec<char>, lo: usize) -> (r: usize)
    requires
        lo <= cs.len(),
    ensures
        lo <= r <= cs.len(),
        trim_end_spec(cs@.subrange(lo as int, cs.len() as int)) == cs@.subrange(lo as int, r as int),
{
    let mut j: usize = cs.len();
    while j > lo && crate::text::is_whitespace(cs[j - 1])
        invariant
            lo <= j <= cs.len(),
            trim_end_spec(cs@.subrange(lo as int, cs.len() as int)) == trim_end_spec(cs@.subrange(lo as int, j as int)),
        decreases j,
    {
        proof {
            assert(cs@.subrange(lo as int, j as int).last() == cs@[j - 1]);
            assert(cs@.subrange(lo as int, j as int).drop_last() =~= cs@.subrange(lo as int, j - 1));
        }
        j = j - 1;
    }
    proof {
        if j > lo {
            assert(cs@.subrange(lo as int, j as int).last() == cs@[j - 1]);
        }
    }
    j
}

/// `String.trimLeft`: `s` without leading whitespace.
pub fn string_trim_left(s: &str) -> (r: String)
    ensures
        r@ == trim_start_spec(s@),
{
    let cs = chars_of(s);
    let lo = first_kept(&cs);
    let r = string_of_range(&cs, lo, cs.len());
    proof {
        assert(cs@.subrange(lo as int, cs.len() as int) =~= cs@.skip(lo as int));
    }
    r
}

/// `String.trimRight`: `s` without trailing whitespace.
pub fn string_trim_right(s: &str) -> (r: String)
    ensures
        r@ == trim_end_spec(s@),
{
    let cs = chars_of(s);
    let hi = last_kept(&cs, 0);
    proof {
        assert(cs@.subrange(0, cs.len() as int) =~= cs@);
    }
    string_of_range(&cs, 0, hi)
}

/// `String.trim`: `s` without leading or trailing whitespace.
pub fn string_trim(s: &str) -> (r: String)
    ensures
        r@ == trim_end_spec(trim_start_spec(s@)),
{
    let cs = chars_of(s);
    let lo = first_kept(&cs);
    let hi = last_kept(&cs, lo);
    proof {
        assert(cs@.subrange(lo as int, cs.len() as int) =~= cs@.skip(lo as int));
    }
    string_of_range(&cs, lo, hi)
}

/// The value of a decimal digit character.
pub open spec fn digit_value(c: char) -> int {
    c as int - '0' as int
}

/// Whether every character is an ASCII digit.
pub open spec fn all_digits(ds: Seq<char>) -> bool {
    forall|i: int| 0 <= i < ds.len() ==> '0' <= #[trigger] ds[i] && ds[i] <= '9'
}

/// The number a run of decimal digits spells.
pub open spec fn digits_value(ds: Seq<char>) -> int
    decreases ds.len(),
{
    if ds.len() == 0 {
        0
    } else {
        digits_value(ds.drop_last()) * 10 + digit_value(ds.last())
    }
}

/// The sign and the digits of an integer literal: an optional `-` or `+`,
/// then the rest.
pub open spec fn sign_split(cs: Seq<char>) -> (bool, Seq<char>) {
    if cs.len() > 0 && cs[0] == '-' {
        (true, cs.skip(1))
    } else if cs.len() > 0 && cs[0] == '+' {
        (false, cs.skip(1))
    } else {
        (false, cs)
    }
}

/// `String.toInt`: an optional sign and at least one decimal digit, nothing
/// else, with a value that fits a 64-bit signed integer.
pub open spec fn to_int_spec(cs: Seq<char>) -> Option<int> {
    let ds = sign_split(cs).1;
    if ds.len() == 0 || !all_digits(ds) {
        None
    } else {
        let v = if sign_split(cs).0 { -digits_value(ds) } else { digits_value(ds) };
        if i64::MIN <= v && v <= i64::MAX {
            Some(v)
        } else {
            None
        }
    }
}

proof fn lemma_digits_value_nonneg(ds: Seq<char>)
    requires
        all_digits(ds),
    ensures
        digits_value(ds) >= 0,
    decreases ds.len(),
{
    if ds.len() > 0 {
        assert(all_digits(ds.drop_last()));
        lemma_digits_value_nonneg(ds.drop_last());
        assert('0' <= ds[ds.len() - 1]);
    }
}

/// `String.toInt s`: the integer `s` spells, if it spells one that fits.
pub fn string_to_int(s: &str) -> (r: Option<i64>)
    ensures
        r matches Some(v) ==> to_int_spec(s@) == Some(v as int),
        r is None ==> to_int_spec(s@) is None,
{
    let cs = chars_of(s);
    let mut start: usize = 0;
    let mut neg = false;
    if cs.len() > 0 && cs[0] == '-' {
        start = 1;
        neg = true;
    } else if cs.len() > 0 && cs[0] == '+' {
        start = 1;
    }
    let ghost ds = sign_split(s@).1;
    proof {
        assert(ds =~= s@.skip(start as int));
    }
    if start == cs.len() {
        return None;
    }
    let limit: u64 = 9223372036854775808u64;
    let mut acc: u64 = 0;
    let mut over = false;
    let mut i: usize = start;
    proof {
        assert(ds.subrange(0, 0) =~= Seq::<char>::empty());
    }
    while i < cs.len()
        invariant
            start <= i <= cs.len(),
            cs@ == s@,
            ds == s@.skip(start as int),
            ds == sign_split(s@).1,
            neg == sign_split(s@).0,
            all_digits(ds.subrange(0, i - start)),
            !over ==> acc == digits_value(ds.subrange(0, i - start)) && acc <= limit,
            over ==> digits_value(ds.subrange(0, i - start)) > limit,
            limit == 9223372036854775808u64,
        decreases cs.len() - i,
    {
        let c = cs[i];
        if c < '0' || c > '9' {
            proof {
                assert(ds[i - start] == c);
                assert(!('0' <= ds[i - start] && ds[i - start] <= '9'));
                assert(!all_digits(ds));
                assert(sign_split(s@).1 == ds);
                assert(to_int_spec(s@) is None);
            }
            return None;
        }
        let d: u64 = (c as u32 - '0' as u32) as u64;
        let ghost pre = ds.subrange(0, i - start);
        proof {
            assert(ds.subrange(0, i + 1 - start).drop_last() =~= pre);
            assert(ds.subrange(0, i + 1 - start).last() == c);
            assert(digit_value(c) == d);
            assert(all_digits(ds.subrange(0, i + 1 - start)));
            lemma_digits_value_nonneg(pre);
        }
        if !over {
            if acc > (limit - d) / 10 {
                over = true;
                proof {
                    assert(acc * 10 + d > limit) by (nonlinear_arith)
                        requires
                            acc > (limit - d) / 10,
                            d < 10,
                            limit == 9223372036854775808u64,
                    ;
                }
            } else {
                proof {
                    assert(acc * 10 + d <= limit) by (nonlinear_arith)
                        requires
                            acc <= (limit - d) / 10,
                            d < 10,
                            limit == 9223372036854775808u64,
                    ;
                }
                acc = acc * 10 + d;
            }
        }
        i = i + 1;
    }
    proof {
        assert(ds.subrange(0, i - start) =~= ds);
        lemma_digits_value_nonneg(ds);
    }
    if over {
        return None;
    }
    if neg {
        if acc == limit {
            Some(i64::MIN)
        } else {
            Some(-(acc as i64))
        }
    } else if acc == limit {
        None
    } else {
        Some(acc as i64)
    }
}

/// `List.range lo hi`: the integers from `lo` to `hi` inclusive (none when
/// `lo > hi`).
pub fn list_range(lo: i64, hi: i64) -> (r: Vec<i64>)
    requires
        hi - lo < usize::MAX,
    ensures
        r@.len() == if lo <= hi { hi - lo + 1 } else { 0 },
        forall|k: int| 0 <= k < r@.len() ==> #[trigger] r@[k] == lo + k,
{
    let mut out: Vec<i64> = Vec::new();
    if lo > hi {
        return out;
    }
    let mut x: i64 = lo;
    loop
        invariant_except_break
            lo <= x <= hi,
            out@.len() == x - lo,
            forall|k: int| 0 <= k < out@.len() ==> #[trigger] out@[k] == lo + k,
        ensures
            out@.len() == hi - lo + 1,
            forall|k: int| 0 <= k < out@.len() ==> #[trigger] out@[k] == lo + k,
        decreases hi - x,
    {
        out.push(x);
        if x == hi {
            break;
        }
        x = x + 1;
    }
    out
}

/// `Char.fromCode`: the character with this code point, or the replacement
/// character `U+FFFD` when the code is negative, too large or a surrogate.
pub fn char_from_code(code: i64) -> (r: char)
    ensures
        (0 <= code && code <= u32::MAX && crate::text::is_scalar(code as u32)) ==> r == (code as u32) as char,
        !(0 <= code && code <= u32::MAX && crate::text::is_scalar(code as u32)) ==> r == '\u{FFFD}',
{
    if code < 0 || code > 4294967295i64 {
        return '\u{FFFD}';
    }
    match crate::text::char_from_u32(code as u32) {
        Some(c) => c,
        None => '\u{FFFD}',
    }
}

/// Truncating quotient with the language's total division: zero for a zero
/// divisor, and the wrapped quotient for the one overflowing case.
pub open spec fn idiv_spec(a: int, b: int) -> int {
    if b == 0 {
        0
    } else if a == i64::MIN && b == -1 {
        i64::MIN as int
    } else {
        let q = (if a >= 0 { a } else { -a }) / (if b >= 0 { b } else { -b });
        if (a >= 0) == (b >= 0) { q } else { -q }
    }
}

/// Integer `//`: truncating division that yields 0 on a zero divisor.
pub fn int_div(a: i64, b: i64) -> (r: i64)
    ensures
        r == idiv_spec(a as int, b as int),
{
    if b == 0 {
        return 0;
    }
    if a == i64::MIN && b == -1 {
        return i64::MIN;
    }
    let ua: u64 = if a >= 0 { a as u64 } else if a == i64::MIN { 9223372036854775808u64 } else { (-a) as u64 };
    let ub: u64 = if b >= 0 { b as u64 } else if b == i64::MIN { 9223372036854775808u64 } else { (-b) as u64 };
    let q: u64 = ua / ub;
    proof {
        assert(q <= ua) by (nonlinear_arith)
            requires
                q == ua / ub,
                ub >= 1,
        ;
        if ub == 1 {
            vstd::arithmetic::div_mod::lemma_div_basics(ua as int);
            assert(q == ua);
        } else {
            assert(q <= ua / 2) by (nonlinear_arith)
                requires
                    q == ua / ub,
                    ub >= 2,
            ;
        }
    }
    if (a >= 0) == (b >= 0) {
        q as i64
    } else if q == 9223372036854775808u64 {
        i64::MIN
    } else {
        -(q as i64)
    }
}

/// `modBy m x`: the remainder of floored-by-sign Euclidean division, in
/// `0..|m|`; 0 for a zero modulus.
pub open spec fn mod_by_spec(m: int, x: int) -> int {
    if m == 0 {
        0
    } else {
        x % (if m >= 0 { m } else { -m })
    }
}

/// `modBy m x`.
pub fn mod_by(m: i64, x: i64) -> (r: i64)
    ensures
        r == mod_by_spec(m as int, x as int),
{
    if m == 0 {
        return 0;
    }
    let um: u64 = if m >= 0 { m as u64 } else if m == i64::MIN { 9223372036854775808u64 } else { (-m) as u64 };
    let ux: u64 = if x >= 0 { x as u64 } else if x == i64::MIN { 9223372036854775808u64 } else { (-x) as u64 };
    let rem: u64 = ux % um;
    proof {
        assert(rem < um) by (nonlinear_arith)
            requires
                rem == ux % um,
                um >= 1,
        ;
    }
    if x >= 0 || rem == 0 {
        proof {
            if x < 0 {
                let q = (ux as int) / (um as int);
                vstd::arithmetic::div_mod::lemma_fundamental_div_mod(ux as int, um as int);
                assert(x as int == (-q) * (um as int) + 0) by (nonlinear_arith)
                    requires
                        ux as int == (um as int) * q + 0,
                        x as int == -(ux as int),
                ;
                vstd::arithmetic::div_mod::lemma_fundamental_div_mod_converse(x as int, um as int, -q, 0);
            }
        }
        rem as i64
    } else {
        proof {
            let q = (ux as int) / (um as int);
            vstd::arithmetic::div_mod::lemma_fundamental_div_mod(ux as int, um as int);
            assert(x as int == (-(q + 1)) * (um as int) + (um - rem)) by (nonlinear_arith)
                requires
                    ux as int == (um as int) * q + rem,
                    x as int == -(ux as int),
            ;
            vstd::arithmetic::div_mod::lemma_fundamental_div_mod_converse(
                x as int,
                um as int,
                -(q + 1),
                um - rem,
            );
        }
        (um - rem) as i64
    }
}

/// `remainderBy d x`: the remainder of truncating division, with the sign of
/// `x`; 0 for a zero divisor.
pub open spec fn remainder_by_spec(d: int, x: int) -> int {
    if d == 0 {
        0
    } else {
        let r = (if x >= 0 { x } else { -x }) % (if d >= 0 { d } else { -d });
        if x >= 0 { r } else { -r }
    }
}

/// `remainderBy d x`.
pub fn remainder_by(d: i64, x: i64) -> (r: i64)
    ensures
        r == remainder_by_spec(d as int, x as int),
{
    if d == 0 {
        return 0;
    }
    let ud: u64 = if d >= 0 { d as u64 } else if d == i64::MIN { 9223372036854775808u64 } else { (-d) as u64 };
    let ux: u64 = if x >= 0 { x as u64 } else if x == i64::MIN { 9223372036854775808u64 } else { (-x) as u64 };
    let rem: u64 = ux % ud;
    proof {
        assert(rem < ud) by (nonlinear_arith)
            requires
                rem == ux % ud,
                ud >= 1,
        ;
        assert(rem <= ux) by (nonlinear_arith)
            requires
                rem == ux % ud,
                ud >= 1,
        ;
    }
    if x >= 0 {
        rem as i64
    } else if rem == 9223372036854775808u64 {
        i64::MIN
    } else {
        -(rem as i64)
    }
}

/// `String.fromChar c`.
pub fn string_from_char(c: char) -> (r: String)
    ensures
        r@ == seq![c],
{
    let mut s = String::new();
    push_char(&mut s, c);
    proof {
        assert(s@ =~= seq![c]);
    }
    s
}

/// `Char.toCode c`: the code point.
pub fn char_to_code(c: char) -> (r: i64)
    ensures
        r == c as u32,
{
    (c as u32) as i64
}

/// `String.length s`: the number of characters.
pub fn string_length(s: &str) -> (r: i64)
    requires
        s@.len() <= i64::MAX,
    ensures
        r == s@.len(),
{
    s.unicode_len() as i64
}

/// `String.isEmpty s`.
pub fn string_is_empty(s: &str) -> (r: bool)
    ensures
        r == (s@.len() == 0),
{
    s.unicode_len() == 0
}

/// `String.toList s`: the characters of `s`.
pub fn string_to_list(s: &str) -> (r: Vec<char>)
    ensures
        r@ == s@,
{
    chars_of(s)
}

/// `String.fromList cs`: the string of these characters.
pub fn string_from_list(cs: &Vec<char>) -> (r: String)
    ensures
        r@ == cs@,
{
    crate::text::string_of_chars(cs.as_slice())
}

/// `Char.isUpper`: an ASCII capital letter.
pub fn char_is_upper(c: char) -> (r: bool)
    ensures
        r == ('A' <= c && c <= 'Z'),
{
    'A' <= c && c <= 'Z'
}

/// `Char.isLower`: an ASCII small letter.
pub fn char_is_lower(c: char) -> (r: bool)
    ensures
        r == ('a' <= c && c <= 'z'),
{
    'a' <= c && c <= 'z'
}

/// `Char.isAlpha`: an ASCII letter.
pub fn char_is_alpha(c: char) -> (r: bool)
    ensures
        r == (('A' <= c && c <= 'Z') || ('a' <= c && c <= 'z')),
{
    char_is_upper(c) || char_is_lower(c)
}

/// `Char.isDigit`: an ASCII decimal digit.
pub fn char_is_digit(c: char) -> (r: bool)
    ensures
        r == ('0' <= c && c <= '9'),
{
    '0' <= c && c <= '9'
}

/// `Char.isAlphaNum`: an ASCII letter or digit.
pub fn char_is_alpha_num(c: char) -> (r: bool)
    ensures
        r == (('A' <= c && c <= 'Z') || ('a' <= c && c <= 'z') || ('0' <= c && c <= '9')),
{
    char_is_alpha(c) || char_is_digit(c)
}

/// `Char.isOctDigit`: `0` to `7`.
pub fn char_is_oct_digit(c: char) -> (r: bool)
    ensures
        r == ('0' <= c && c <= '7'),
{
    '0' <= c && c <= '7'
}

/// `Char.isHexDigit`: a decimal digit or `a`–`f` in either case.
pub fn char_is_hex_digit(c: char) -> (r: bool)
    ensures
        r == (('0' <= c && c <= '9') || ('a' <= c && c <= 'f') || ('A' <= c && c <= 'F')),
{
    char_is_digit(c) || ('a' <= c && c <= 'f') || ('A' <= c && c <= 'F')
}

/// `Char.isSpace`: space, tab, newline, carriage return, vertical tab or
/// form feed.
pub fn char_is_space(c: char) -> (r: bool)
    ensures
        r == (c == ' ' || c == '\t' || c == '\n' || c == '\r' || c == '\u{000B}' || c == '\u{000C}'),
{
    c == ' ' || c == '\t' || c == '\n' || c == '\r' || c == '\u{000B}' || c == '\u{000C}'
}

/// The first character of `c`'s Unicode upper-case mapping.
pub uninterp spec fn upper_first(c: char) -> char;

/// The first character of `c`'s Unicode lower-case mapping.
pub uninterp spec fn lower_first(c: char) -> char;

/// `char::to_uppercase`, first character of the mapping. Its result is
/// named by `upper_first`; on ASCII it is the capital of a small letter and
/// any other character unchanged.
#[verifier::external_body]
fn to_upper_first(c: char) -> (r: char)
    ensures
        r == upper_first(c),
        (c as u32) < 128 ==> r == (if 'a' <= c && c <= 'z' { ((c as u32) - 32) as char } else { c }),
{
    c.to_uppercase().next().unwrap_or(c)
}

/// `char::to_lowercase`, first character of the mapping. Its result is
/// named by `lower_first`; on ASCII it is the small letter of a capital and
/// any other character unchanged.
#[verifier::external_body]
fn to_lower_first(c: char) -> (r: char)
    ensures
        r == lower_first(c),
        (c as u32) < 128 ==> r == (if 'A' <= c && c <= 'Z' { ((c as u32) + 32) as char } else { c }),
{
    c.to_lowercase().next().unwrap_or(c)
}

/// `Char.toUpper c`.
pub fn char_to_upper(c: char) -> (r: char)
    ensures
        r == upper_first(c),
        (c as u32) < 128 ==> r == (if 'a' <= c && c <= 'z' { ((c as u32) - 32) as char } else { c }),
{
    to_upper_first(c)
}

/// `Char.toLower c`.
pub fn char_to_lower(c: char) -> (r: char)
    ensures
        r == lower_first(c),
        (c as u32) < 128 ==> r == (if 'A' <= c && c <= 'Z' { ((c as u32) + 32) as char } else { c }),
{
    to_lower_first(c)
}

/// The result of comparing two values: `LT`, `EQ` or `GT`.
#[derive(Debug, Clone, Copy, PartialEq, Eq, Structural)]
pub enum Order {
    Lt,
    Eq,
    Gt,
}

/// How two integers compare.
pub fn compare_ints(a: i64, b: i64) -> (r: Order)
    ensures
        r == (if a < b { Order::Lt } else if a == b { Order::Eq } else { Order::Gt }),
{
    if a < b {
        Order::Lt
    } else if a == b {
        Order::Eq
    } else {
        Order::Gt
    }
}

/// How two characters compare: by code point.
pub fn compare_chars(a: char, b: char) -> (r: Order)
    ensures
        r == (if a < b { Order::Lt } else if a == b { Order::Eq } else { Order::Gt }),
{
    if a < b {
        Order::Lt
    } else if a == b {
        Order::Eq
    } else {
        Order::Gt
    }
}

/// How two strings compare: code point by code point.
pub fn compare_strings(a: &str, b: &str) -> (r: Order)
    ensures
        r == (if crate::text::seq_lt(a@, b@) {
            Order::Lt
        } else if a@ == b@ {
            Order::Eq
        } else {
            Order::Gt
        }),
{
    if crate::text::str_lt(a, b) {
        Order::Lt
    } else if crate::text::str_eq(a, b) {
        Order::Eq
    } else {
        Order::Gt
    }
}

/// The runs of non-whitespace characters of `cs`, in order.
pub open spec fn words_spec(cs: Seq<char>) -> Seq<Seq<char>>
    decreases cs.len(),
{
    if cs.len() == 0 {
        Seq::empty()
    } else {
        let rest = words_spec(cs.drop_last());
        if crate::text::unicode_whitespace(cs.last()) {
            rest
        } else if cs.len() >= 2 && !crate::text::unicode_whitespace(cs[cs.len() - 2]) {
            rest.update(rest.len() - 1, rest.last().push(cs.last()))
        } else {
            rest.push(seq![cs.last()])
        }
    }
}

proof fn lemma_words_nonempty(cs: Seq<char>)
    requires
        cs.len() >= 1,
        !crate::text::unicode_whitespace(cs.last()),
    ensures
        words_spec(cs).len() >= 1,
    decreases cs.len(),
{
    if cs.len() >= 2 && !crate::text::unicode_whitespace(cs[cs.len() - 2]) {
        assert(cs.drop_last().last() == cs[cs.len() - 2]);
        lemma_words_nonempty(cs.drop_last());
    }
}

/// `String.words s`: the runs of non-whitespace characters, or the single
/// empty string when `s` is blank.
pub fn string_words(s: &str) -> (r: Vec<String>)
    ensures
        views(r@) == (if words_spec(s@).len() == 0 { seq![Seq::<char>::empty()] } else { words_spec(s@) }),
{
    let cs = chars_of(s);
    let mut out: Vec<String> = Vec::new();
    let mut i: usize = 0;
    while i < cs.len()
        invariant
            i <= cs.len(),
            cs@ == s@,
            views(out@) == words_spec(s@.subrange(0, i as int)),
        decreases cs.len() - i,
    {
        let c = cs[i];
        let ws = crate::text::is_whitespace(c);
        let ghost pre = s@.subrange(0, i as int);
        let ghost next = s@.subrange(0, i + 1);
        proof {
            assert(next.drop_last() =~= pre);
            assert(next.last() == c);
            if i >= 1 {
                assert(next[next.len() - 2] == cs@[i - 1]);
            }
        }
        if !ws {
            let joins = i >= 1 && !crate::text::is_whitespace(cs[i - 1]);
            if joins {
                proof {
                    assert(pre.last() == cs@[i - 1]);
                    lemma_words_nonempty(pre);
                }
                let mut last = out.pop().unwrap();
                push_char(&mut last, c);
                let ghost before = views(out@);
                out.push(last);
                proof {
                    assert(views(out@) =~= before.push(last@));
                    assert(views(out@) =~= words_spec(next));
                }
            } else {
                let ghost before = views(out@);
                out.push(crate::strings::string_from_char(c));
                proof {
                    assert(views(out@) =~= before.push(seq![c]));
                }
            }
        }
        i = i + 1;
    }
    proof {
        assert(s@.subrange(0, i as int) =~= s@);
    }
    if out.len() == 0 {
        out.push(String::new());
        proof {
            assert(views(out@) =~= seq![Seq::<char>::empty()]);
        }
    }
    out
}

/// `String.any p s`: whether `p` holds of some character of `s`.
pub fn string_any<F: Fn(char) -> bool>(p: F, s: &str) -> (r: bool)
    requires
        forall|c: char| call_requires(p, (c,)),
    ensures
        r ==> exists|i: int| 0 <= i < s@.len() && call_ensures(p, (s@[i],), true),
        !r ==> forall|i: int| 0 <= i < s@.len() ==> call_ensures(p, (#[trigger] s@[i],), false),
{
    let cs = chars_of(s);
    let mut i: usize = 0;
    while i < cs.len()
        invariant
            i <= cs.len(),
            cs@ == s@,
            forall|c: char| call_requires(p, (c,)),
            forall|k: int| 0 <= k < i ==> call_ensures(p, (#[trigger] s@[k],), false),
        decreases cs.len() - i,
    {
        if p(cs[i]) {
            return true;
        }
        i = i + 1;
    }
    false
}

/// `String.all p s`: whether `p` holds of every character of `s`.
pub fn string_all<F: Fn(char) -> bool>(p: F, s: &str) -> (r: bool)
    requires
        forall|c: char| call_requires(p, (c,)),
    ensures
        r ==> forall|i: int| 0 <= i < s@.len() ==> call_ensures(p, (#[trigger] s@[i],), true),
        !r ==> exists|i: int| 0 <= i < s@.len() && call_ensures(p, (s@[i],), false),
{
    let cs = chars_of(s);
    let mut i: usize = 0;
    while i < cs.len()
        invariant
            i <= cs.len(),
            cs@ == s@,
            forall|c: char| call_requires(p, (c,)),
            forall|k: int| 0 <= k < i ==> call_ensures(p, (#[trigger] s@[k],), true),
        decreases cs.len() - i,
    {
        if !p(cs[i]) {
            return false;
        }
        i = i + 1;
    }
    true
}

/// `String.cons c s`: `c` in front of `s`.
pub fn string_cons(c: char, s: &str) -> (r: String)
    ensures
        r@ == seq![c] + s@,
{
    let mut out = string_from_char(c);
    push_str(&mut out, s);
    out
}

/// The Unicode upper-case mapping of a text.
pub uninterp spec fn upper_text(s: Seq<char>) -> Seq<char>;

/// The Unicode lower-case mapping of a text.
pub uninterp spec fn lower_text(s: Seq<char>) -> Seq<char>;

/// Whether every character is ASCII.
pub open spec fn all_ascii(s: Seq<char>) -> bool {
    forall|i: int| 0 <= i < s.len() ==> (#[trigger] s[i] as u32) < 128
}

/// The ASCII capital of a small letter; any other character unchanged.
pub open spec fn ascii_upper(c: char) -> char {
    if 'a' <= c && c <= 'z' {
        ((c as u32) - 32) as char
    } else {
        c
    }
}

/// The ASCII small letter of a capital; any other character unchanged.
pub open spec fn ascii_lower(c: char) -> char {
    if 'A' <= c && c <= 'Z' {
        ((c as u32) + 32) as char
    } else {
        c
    }
}

/// `str::to_uppercase`. Its result is named by `upper_text`; on an ASCII
/// text it maps each small letter to its capital and keeps the rest.
#[verifier::external_body]
fn upper_of(s: &str) -> (r: String)
    ensures
        r@ == upper_text(s@),
        all_ascii(s@) ==> r@ == s@.map_values(|c: char| ascii_upper(c)),
{
    s.to_uppercase()
}

/// `str::to_lowercase`. Its result is named by `lower_text`; on an ASCII
/// text it maps each capital to its small letter and keeps the rest.
#[verifier::external_body]
fn lower_of(s: &str) -> (r: String)
    ensures
        r@ == lower_text(s@),
        all_ascii(s@) ==> r@ == s@.map_values(|c: char| ascii_lower(c)),
{
    s.to_lowercase()
}

/// `String.toUpper s`.
pub fn string_to_upper(s: &str) -> (r: String)
    ensures
        r@ == upper_text(s@),
        all_ascii(s@) ==> r@ == s@.map_values(|c: char| ascii_upper(c)),
{
    upper_of(s)
}

/// `String.toLower s`.
pub fn string_to_lower(s: &str) -> (r: String)
    ensures
        r@ == lower_text(s@),
        all_ascii(s@) ==> r@ == s@.map_values(|c: char| ascii_lower(c)),
{
    lower_of(s)
}

/// `String.map f s`: `f` applied to each character.
pub fn string_map<F: Fn(char) -> char>(f: F, s: &str) -> (r: String)
    requires
        forall|c: char| call_requires(f, (c,)),
    ensures
        r@.len() == s@.len(),
        forall|i: int| 0 <= i < s@.len() ==> call_ensures(f, (#[trigger] s@[i],), r@[i]),
{
    let cs = chars_of(s);
    let mut out = String::new();
    let mut i: usize = 0;
    while i < cs.len()
        invariant
            i <= cs.len(),
            cs@ == s@,
            out@.len() == i,
            forall|c: char| call_requires(f, (c,)),
            forall|k: int| 0 <= k < i ==> call_ensures(f, (#[trigger] s@[k],), out@[k]),
        decreases cs.len() - i,
    {
        let d = f(cs[i]);
        push_char(&mut out, d);
        i = i + 1;
    }
    out
}

/// The characters of `cs` for which `keep` says yes, in order.
pub open spec fn kept(cs: Seq<char>, keep: Seq<bool>) -> Seq<char>
    decreases cs.len(),
{
    if cs.len() == 0 || keep.len() < cs.len() {
        Seq::empty()
    } else {
        let rest = kept(cs.drop_last(), keep.subrange(0, cs.len() - 1));
        if keep[cs.len() - 1] {
            rest.push(cs.last())
        } else {
            rest
        }
    }
}

/// `String.filter p s`: the characters of `s` that `p` keeps, in order.
pub fn string_filter<F: Fn(char) -> bool>(p: F, s: &str) -> (r: String)
    requires
        forall|c: char| call_requires(p, (c,)),
    ensures
        exists|keep: Seq<bool>| #![trigger kept(s@, keep)] keep.len() == s@.len() && (forall|i: int|
            0 <= i < s@.len() ==> call_ensures(p, (#[trigger] s@[i],), keep[i])) && r@ == kept(s@, keep),
{
    let cs = chars_of(s);
    let mut out = String::new();
    let ghost mut keep: Seq<bool> = Seq::empty();
    let mut i: usize = 0;
    while i < cs.len()
        invariant
            i <= cs.len(),
            cs@ == s@,
            keep.len() == i,
            forall|c: char| call_requires(p, (c,)),
            forall|k: int| 0 <= k < i ==> call_ensures(p, (#[trigger] s@[k],), keep[k]),
            out@ == kept(s@.subrange(0, i as int), keep),
        decreases cs.len() - i,
    {
        let b = p(cs[i]);
        proof {
            let next = s@.subrange(0, i + 1);
            let nk = keep.push(b);
            assert(next.drop_last() =~= s@.subrange(0, i as int));
            assert(nk.subrange(0, i as int) =~= keep);
            keep = nk;
        }
        if b {
            push_char(&mut out, cs[i]);
        }
        i = i + 1;
    }
    proof {
        assert(s@.subrange(0, i as int) =~= s@);
    }
    out
}

proof fn lemma_join_prefix_first(sep: Seq<char>, cur: Seq<char>, ps: Seq<Seq<char>>)
    requires
        ps.len() >= 1,
    ensures
        join_spec(sep, prefix_first(cur, ps)) == cur + join_spec(sep, ps),
{
    let q = prefix_first(cur, ps);
    if ps.len() == 1 {
        assert(q.len() == 1);
    } else {
        assert(q.skip(1) =~= ps.skip(1));
        assert(cur + ps[0] + sep + join_spec(sep, ps.skip(1)) =~= cur + (ps[0] + sep + join_spec(sep, ps.skip(1))));
    }
}

/// For a text without carriage returns, joining its lines with newlines
/// gives back the text.
pub proof fn lemma_lines_join(cs: Seq<char>)
    requires
        !cs.contains('\r'),
    ensures
        join_spec(seq!['\n'], lines_spec(cs)) == cs,
    decreases cs.len(),
{
    if cs.len() == 0 {
        assert(join_spec(seq!['\n'], seq![Seq::<char>::empty()]) == Seq::<char>::empty());
    } else {
        let rest = cs.skip(1);
        assert(!rest.contains('\r')) by {
            if rest.contains('\r') {
                let k = choose|k: int| 0 <= k < rest.len() && rest[k] == '\r';
                assert(cs[k + 1] == '\r');
            }
        }
        assert(cs[0] != '\r');
        lemma_lines_join(rest);
        lemma_lines_nonempty(rest);
        if cs[0] == '\n' {
            let whole = seq![Seq::<char>::empty()] + lines_spec(rest);
            assert(whole.skip(1) =~= lines_spec(rest));
            assert(whole[0] == Seq::<char>::empty());
            assert(cs =~= Seq::<char>::empty() + seq!['\n'] + rest);
        } else {
            lemma_join_prefix_first(seq!['\n'], seq![cs[0]], lines_spec(rest));
            assert(cs =~= seq![cs[0]] + rest);
        }
    }
}

} // verus!
