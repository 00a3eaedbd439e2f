//! Infix operators: their fixity, the prelude builtin each one stands for, and
//! the precedence-climbing pass that turns a flat `operand (op operand)*` run
//! into an application tree.
//!
//! The climb first builds a `Shape` over operand and operator indices, whose
//! contract says exactly which trees are allowed (every operand and operator
//! in order, each operator's neighbours bound tighter as fixity demands), then
//! lowers the shape to nested applications of the builtins.
use vstd::prelude::*;
use crate::ast::{Expr, Span, Spanned};
use crate::text::chars_of;

verus! {

/// How operators of equal precedence group.
#[derive(Clone, Copy, PartialEq, Eq, Structural, Debug)]
pub enum OpAssoc {
    Left,
    Right,
    NonAssoc,
}

/// The fixity table (Elm's): precedence and associativity of each infix
/// operator, `None` for an unknown one.
pub open spec fn fixity_spec(op: Seq<char>) -> Option<(u8, OpAssoc)> {
    if op == seq!['^'] {
        Some((7u8, OpAssoc::Right))
    } else if op == seq!['*'] || op == seq!['/'] || op == seq!['/', '/'] {
        Some((7u8, OpAssoc::Left))
    } else if op == seq!['+'] || op == seq!['-'] {
        Some((6u8, OpAssoc::Left))
    } else if op == seq!['+', '+'] || op == seq![':', ':'] {
        Some((5u8, OpAssoc::Right))
    } else if op == seq!['=', '='] || op == seq!['/', '='] || op == seq!['<'] || op == seq!['>']
        || op == seq!['<', '='] || op == seq!['>', '='] {
        Some((4u8, OpAssoc::NonAssoc))
    } else if op == seq!['&', '&'] {
        Some((3u8, OpAssoc::Right))
    } else if op == seq!['|', '|'] {
        Some((2u8, OpAssoc::Right))
    } else {
        None
    }
}

fn is1(cs: &Vec<char>, a: char) -> (r: bool)
    ensures
        r == (cs@ == seq![a]),
{
    let r = cs.len() == 1 && cs[0] == a;
    proof {
        if cs.len() == 1 && cs[0] == a {
            assert(cs@ =~= seq![a]);
        }
    }
    r
}

fn is2(cs: &Vec<char>, a: char, b: char) -> (r: bool)
    ensures
        r == (cs@ == seq![a, b]),
{
    let r = cs.len() == 2 && cs[0] == a && cs[1] == b;
    proof {
        if r {
            assert(cs@ =~= seq![a, b]);
        }
    }
    r
}

/// The precedence and associativity of an infix operator.
pub fn operator_fixity(op: &str) -> (r: Option<(u8, OpAssoc)>)
    ensures
        r == fixity_spec(op@),
{
    let cs = chars_of(op);
    if is1(&cs, '^') {
        Some((7, OpAssoc::Right))
    } else if is1(&cs, '*') || is1(&cs, '/') || is2(&cs, '/', '/') {
        Some((7, OpAssoc::Left))
    } else if is1(&cs, '+') || is1(&cs, '-') {
        Some((6, OpAssoc::Left))
    } else if is2(&cs, '+', '+') || is2(&cs, ':', ':') {
        Some((5, OpAssoc::Right))
    } else if is2(&cs, '=', '=') || is2(&cs, '/', '=') || is1(&cs, '<') || is1(&cs, '>') || is2(
        &cs,
        '<',
        '=',
    ) || is2(&cs, '>', '=') {
        Some((4, OpAssoc::NonAssoc))
    } else if is2(&cs, '&', '&') {
        Some((3, OpAssoc::Right))
    } else if is2(&cs, '|', '|') {
        Some((2, OpAssoc::Right))
    } else {
        None
    }
}

/// The prelude builtin an operator stands for.
pub open spec fn builtin_spec(op: Seq<char>) -> Seq<char> {
    if op == seq!['+'] {
        seq!['a', 'd', 'd']
    } else if op == seq!['-'] {
        seq!['s', 'u', 'b']
    } else if op == seq!['*'] {
        seq!['m', 'u', 'l']
    } else if op == seq!['/'] {
        seq!['f', 'd', 'i', 'v']
    } else if op == seq!['/', '/'] {
        seq!['i', 'd', 'i', 'v']
    } else if op == seq!['^'] {
        seq!['p', 'o', 'w']
    } else if op == seq!['+', '+'] {
        seq!['a', 'p', 'p', 'e', 'n', 'd']
    } else if op == seq![':', ':'] {
        seq!['c', 'o', 'n', 's']
    } else if op == seq!['<'] {
        seq!['l', 't']
    } else if op == seq!['>'] {
        seq!['g', 't']
    } else if op == seq!['<', '='] {
        seq!['l', 'e']
    } else if op == seq!['>', '='] {
        seq!['g', 'e']
    } else if op == seq!['=', '='] {
        seq!['e', 'q']
    } else if op == seq!['/', '='] {
        seq!['n', 'e', 'q']
    } else if op == seq!['&', '&'] {
        seq!['a', 'n', 'd']
    } else {
        seq!['o', 'r']
    }
}

/// The name of the prelude builtin a known operator desugars to.
pub fn operator_builtin(op: &str) -> (r: String)
    requires
        fixity_spec(op@) is Some,
    ensures
        r@ == builtin_spec(op@),
{
    let cs = chars_of(op);
    let name: &str = if is1(&cs, '+') {
        proof { reveal_strlit("add"); }
        "add"
    } else if is1(&cs, '-') {
        proof { reveal_strlit("sub"); }
        "sub"
    } else if is1(&cs, '*') {
        proof { reveal_strlit("mul"); }
        "mul"
    } else if is1(&cs, '/') {
        proof { reveal_strlit("fdiv"); }
        "fdiv"
    } else if is2(&cs, '/', '/') {
        proof { reveal_strlit("idiv"); }
        "idiv"
    } else if is1(&cs, '^') {
        proof { reveal_strlit("pow"); }
        "pow"
    } else if is2(&cs, '+', '+') {
        proof { reveal_strlit("append"); }
        "append"
    } else if is2(&cs, ':', ':') {
        proof { reveal_strlit("cons"); }
        "cons"
    } else if is1(&cs, '<') {
        proof { reveal_strlit("lt"); }
        "lt"
    } else if is1(&cs, '>') {
        proof { reveal_strlit("gt"); }
        "gt"
    } else if is2(&cs, '<', '=') {
        proof { reveal_strlit("le"); }
        "le"
    } else if is2(&cs, '>', '=') {
        proof { reveal_strlit("ge"); }
        "ge"
    } else if is2(&cs, '=', '=') {
        proof { reveal_strlit("eq"); }
        "eq"
    } else if is2(&cs, '/', '=') {
        proof { reveal_strlit("neq"); }
        "neq"
    } else if is2(&cs, '&', '&') {
        proof { reveal_strlit("and"); }
        "and"
    } else {
        proof { reveal_strlit("or"); }
        "or"
    };
    name.to_string()
}

/// The grouping of an operator run, over indices: operand `k` is `Leaf(k)`,
/// and `Node(i, l, r)` applies operator `i` to the groups on either side.
pub enum Shape {
    Leaf(usize),
    Node(usize, Box<Shape>, Box<Shape>),
}

/// The precedence of operator `i`.
pub open spec fn prec(fx: Seq<(u8, OpAssoc)>, i: int) -> int {
    fx[i].0 as int
}

/// The associativity of operator `i`.
pub open spec fn assoc(fx: Seq<(u8, OpAssoc)>, i: int) -> OpAssoc {
    fx[i].1
}

/// `s` groups exactly operands `lo..=hi` and operators `lo..hi`, in order.
pub open spec fn covers(s: Shape, lo: int, hi: int) -> bool
    decreases s,
{
    match s {
        Shape::Leaf(k) => k == lo && lo == hi,
        Shape::Node(i, l, r) => lo <= i < hi && covers(*l, lo, i as int) && covers(*r, i + 1, hi),
    }
}

/// The group left of operator `i` binds at least as tightly as `i` may
/// demand: its own operator has higher precedence, or equal precedence and
/// does not associate to the right.
pub open spec fn binds_left(fx: Seq<(u8, OpAssoc)>, l: Shape, i: int) -> bool {
    match l {
        Shape::Leaf(_) => true,
        Shape::Node(j, _, _) => prec(fx, j as int) > prec(fx, i) || (prec(fx, j as int) == prec(
            fx,
            i,
        ) && assoc(fx, j as int) != OpAssoc::Right),
    }
}

/// The group right of operator `i` binds more tightly than `i`, or equally
/// tightly when `i` associates to the right.
pub open spec fn binds_right(fx: Seq<(u8, OpAssoc)>, r: Shape, i: int) -> bool {
    match r {
        Shape::Leaf(_) => true,
        Shape::Node(k, _, _) => prec(fx, k as int) > prec(fx, i) || (prec(fx, k as int) == prec(
            fx,
            i,
        ) && assoc(fx, i) == OpAssoc::Right),
    }
}

/// Every operator of `s` respects precedence and associativity towards its
/// two operands.
pub open spec fn grouped(fx: Seq<(u8, OpAssoc)>, s: Shape) -> bool
    decreases s,
{
    match s {
        Shape::Leaf(_) => true,
        Shape::Node(i, l, r) => binds_left(fx, *l, i as int) && binds_right(fx, *r, i as int)
            && grouped(fx, *l) && grouped(fx, *r),
    }
}

/// Operators `i < j` are non-associative, of one precedence, and nothing
/// between them binds as loosely: `a < b < c` written without parentheses.
pub open spec fn clash(fx: Seq<(u8, OpAssoc)>, i: int, j: int) -> bool {
    &&& 0 <= i < j < fx.len()
    &&& assoc(fx, i) == OpAssoc::NonAssoc
    &&& assoc(fx, j) == OpAssoc::NonAssoc
    &&& prec(fx, i) == prec(fx, j)
    &&& forall|k: int| i < k < j ==> prec(fx, k) > prec(fx, i)
}

/// Precedences below the top value, so one more always fits.
pub open spec fn bounded(fx: Seq<(u8, OpAssoc)>) -> bool {
    forall|k: int| 0 <= k < fx.len() ==> #[trigger] fx[k].0 < 255
}

/// Precedence climbing from operand `*pos`: groups the operators of
/// precedence at least `min` that follow, and stops at the first looser one.
/// A non-associative operator followed at its own level by another is an
/// error, reported with the first one's index.
fn climb(fx: &Vec<(u8, OpAssoc)>, pos: &mut usize, min: u8) -> (r: Result<Shape, usize>)
    requires
        *old(pos) <= fx.len(),
        bounded(fx@),
    ensures
        r matches Ok(s) ==> {
            &&& *old(pos) <= *final(pos) <= fx.len()
            &&& covers(s, *old(pos) as int, *final(pos) as int)
            &&& grouped(fx@, s)
            &&& forall|k: int| *old(pos) <= k < *final(pos) ==> prec(fx@, k) >= min
            &&& *final(pos) < fx.len() ==> prec(fx@, *final(pos) as int) < min
            &&& forall|i: int, j: int| *old(pos) <= i < *final(pos) ==> !clash(fx@, i, j)
        },
        r is Err ==> clash(fx@, r->Err_0 as int, *final(pos) as int),
    decreases fx.len() - *old(pos),
{
    let ghost p0: int = *pos as int;
    let mut lhs = Shape::Leaf(*pos);
    while *pos < fx.len() && fx[*pos].0 >= min
        invariant
            p0 == *old(pos),
            p0 <= *pos <= fx.len(),
            bounded(fx@),
            covers(lhs, p0, *pos as int),
            grouped(fx@, lhs),
            forall|k: int| p0 <= k < *pos ==> prec(fx@, k) >= min,
            *pos < fx.len() ==> binds_left(fx@, lhs, *pos as int),
            forall|i: int, j: int| p0 <= i < *pos ==> !clash(fx@, i, j),
        decreases fx.len() - *pos,
    {
        let i = *pos;
        let (p, a) = fx[i];
        let next_min: u8 = match a {
            OpAssoc::Right => p,
            _ => p + 1,
        };
        *pos = i + 1;
        let rhs = match climb(fx, pos, next_min) {
            Ok(s) => s,
            Err(e) => {
                return Err(e);
            },
        };
        if a == OpAssoc::NonAssoc && *pos < fx.len() {
            let (np, na) = fx[*pos];
            if na == OpAssoc::NonAssoc && np == p {
                proof {
                    assert(clash(fx@, i as int, *pos as int));
                }
                return Err(i);
            }
        }
        let ghost p1: int = *pos as int;
        proof {
            match rhs {
                Shape::Leaf(_) => {},
                Shape::Node(k, _, _) => {
                    assert(i + 1 <= k < p1);
                    assert(prec(fx@, k as int) >= next_min);
                },
            }
            assert(binds_right(fx@, rhs, i as int));
            assert forall|x: int, y: int| p0 <= x < p1 implies !clash(fx@, x, y) by {
                if x == i && clash(fx@, x, y) {
                    if y < p1 {
                        assert(prec(fx@, y) >= next_min);
                    } else if y > p1 {
                        assert(i < p1 < y);
                        assert(prec(fx@, p1) > prec(fx@, i as int));
                    }
                }
            }
            assert forall|k: int| p0 <= k < p1 implies prec(fx@, k) >= min by {
                if k > i {
                    assert(prec(fx@, k) >= next_min);
                }
            }
        }
        lhs = Shape::Node(i, Box::new(lhs), Box::new(rhs));
    }
    Ok(lhs)
}

/// `a op b` as the parser desugars it: the builtin named `name` applied to
/// `a`, then to `b`, spanning from `a`'s start to `b`'s end.
pub open spec fn apply_op(name: String, a: Spanned<Expr>, b: Spanned<Expr>) -> Spanned<Expr> {
    let span = std::ops::Range { start: a.1.start, end: b.1.end };
    let f = Spanned(Expr::Var(name), std::ops::Range { start: a.1.start, end: a.1.start });
    Spanned(Expr::App(Box::new(Spanned(Expr::App(Box::new(f), Box::new(a)), span)), Box::new(b)), span)
}

/// The expression a shape stands for, over the operands and the builtin
/// names of the operators.
pub open spec fn shape_expr(s: Shape, operands: Seq<Spanned<Expr>>, names: Seq<String>) -> Spanned<Expr>
    decreases s,
{
    match s {
        Shape::Leaf(k) => operands[k as int],
        Shape::Node(i, l, r) => apply_op(
            names[i as int],
            shape_expr(*l, operands, names),
            shape_expr(*r, operands, names),
        ),
    }
}

/// Lowers a shape to its expression, taking operand `lo` first from the back
/// of `rev` (which holds the operands from `lo` on, last first).
fn build(
    s: Shape,
    rev: &mut Vec<Spanned<Expr>>,
    names: &Vec<String>,
    Ghost(operands): Ghost<Seq<Spanned<Expr>>>,
    Ghost(lo): Ghost<int>,
    Ghost(hi): Ghost<int>,
) -> (e: Spanned<Expr>)
    requires
        covers(s, lo, hi),
        0 <= lo,
        hi < operands.len(),
        names.len() + 1 == operands.len(),
        old(rev)@ == operands.subrange(lo, operands.len() as int).reverse(),
    ensures
        final(rev)@ == operands.subrange(hi + 1, operands.len() as int).reverse(),
        e == shape_expr(s, operands, names@),
    decreases s,
{
    match s {
        Shape::Leaf(k) => {
            proof {
                assert(operands.subrange(lo, operands.len() as int).reverse().last() == operands[lo]);
                assert(operands.subrange(lo, operands.len() as int).reverse().drop_last()
                    =~= operands.subrange(lo + 1, operands.len() as int).reverse());
            }
            let e = rev.pop().unwrap();
            e
        },
        Shape::Node(i, l, r) => {
            let a = build(*l, rev, names, Ghost(operands), Ghost(lo), Ghost(i as int));
            let b = build(*r, rev, names, Ghost(operands), Ghost(i + 1), Ghost(hi));
            let start = a.1.start;
            let end = b.1.end;
            let f = Spanned(Expr::Var(names[i].clone()), start..start);
            let left = Spanned(Expr::App(Box::new(f), Box::new(a)), start..end);
            Spanned(Expr::App(Box::new(left), Box::new(b)), start..end)
        },
    }
}

/// The text of operator `k` of an operator run.
pub open spec fn op_text(rest: Seq<((String, Span), Spanned<Expr>)>, k: int) -> Seq<char> {
    rest[k].0.0@
}

/// Every operator of the run is in the fixity table.
pub open spec fn all_known(rest: Seq<((String, Span), Spanned<Expr>)>) -> bool {
    forall|k: int| 0 <= k < rest.len() ==> (#[trigger] fixity_spec(op_text(rest, k))) is Some
}

/// Operator `k` is the first one missing from the fixity table.
pub open spec fn first_unknown(rest: Seq<((String, Span), Spanned<Expr>)>, k: int) -> bool {
    &&& 0 <= k < rest.len()
    &&& fixity_spec(op_text(rest, k)) is None
    &&& forall|m: int| 0 <= m < k ==> (#[trigger] fixity_spec(op_text(rest, m))) is Some
}

/// The fixities of the run's operators.
pub open spec fn fixities(rest: Seq<((String, Span), Spanned<Expr>)>) -> Seq<(u8, OpAssoc)> {
    Seq::new(rest.len(), |k: int| fixity_spec(op_text(rest, k)).unwrap())
}

/// The operands of the run, in order.
pub open spec fn operand_seq(head: Spanned<Expr>, rest: Seq<((String, Span), Spanned<Expr>)>) -> Seq<Spanned<Expr>> {
    seq![head] + rest.map_values(|x: ((String, Span), Spanned<Expr>)| x.1)
}

/// The error for an operator missing from the table.
pub open spec fn unknown_msg(op: Seq<char>) -> Seq<char> {
    "unknown operator `"@ + op + "`"@
}

/// The error for two non-associative operators at one level.
pub open spec fn nonassoc_msg(op: Seq<char>) -> Seq<char> {
    "operator `"@ + op + "` is non-associative; add parentheses"@
}

/// The run's operators with their builtin names, and the shape it groups as.
pub open spec fn lowered(
    head: Spanned<Expr>,
    rest: Seq<((String, Span), Spanned<Expr>)>,
    s: Shape,
    names: Seq<String>,
    e: Spanned<Expr>,
) -> bool {
    &&& names.len() == rest.len()
    &&& forall|k: int| 0 <= k < rest.len() ==> (#[trigger] names[k])@ == builtin_spec(op_text(rest, k))
    &&& covers(s, 0, rest.len() as int)
    &&& grouped(fixities(rest), s)
    &&& e == shape_expr(s, operand_seq(head, rest), names)
}

/// `e` is the run lowered along some well-grouped shape.
pub open spec fn lowers_to(head: Spanned<Expr>, rest: Seq<((String, Span), Spanned<Expr>)>, e: Spanned<Expr>) -> bool {
    exists|s: Shape, names: Seq<String>| #[trigger] lowered(head, rest, s, names, e)
}

/// Resolves `head (op operand)*` into one expression by precedence climbing:
/// each `a op b` becomes the operator's builtin applied to `a` and `b`.
/// Fails on the first operator missing from the fixity table, and on two
/// non-associative operators at one level (`a < b < c`).
pub fn fold_operators(head: Spanned<Expr>, rest: Vec<((String, Span), Spanned<Expr>)>) -> (r: Result<
    Spanned<Expr>,
    String,
>)
    ensures
        forall|k: int| #[trigger] first_unknown(rest@, k) ==> (r is Err && r->Err_0@ == unknown_msg(op_text(rest@, k))),
        all_known(rest@) ==> (r is Ok <==> forall|i: int, j: int| !clash(fixities(rest@), i, j)),
        all_known(rest@) && r is Ok ==> lowers_to(head, rest@, r->Ok_0),
        all_known(rest@) && r is Err ==> exists|i: int, j: int| #[trigger] clash(fixities(rest@), i, j) && r->Err_0@ == nonassoc_msg(op_text(rest@, i)),
{
    let ghost rest0 = rest@;
    let mut fx: Vec<(u8, OpAssoc)> = Vec::new();
    let mut names: Vec<String> = Vec::new();
    let mut texts: Vec<String> = Vec::new();
    let mut k: usize = 0;
    while k < rest.len()
        invariant
            rest@ == rest0,
            k <= rest.len(),
            fx.len() == k,
            names.len() == k,
            texts.len() == k,
            forall|m: int| 0 <= m < k ==> (#[trigger] fixity_spec(op_text(rest0, m))) is Some,
            forall|m: int| 0 <= m < k ==> fx@[m] == fixity_spec(op_text(rest0, m)).unwrap(),
            forall|m: int| 0 <= m < k ==> (#[trigger] names@[m])@ == builtin_spec(op_text(rest0, m)),
            forall|m: int| 0 <= m < k ==> (#[trigger] texts@[m])@ == op_text(rest0, m),
            forall|m: int| 0 <= m < k ==> #[trigger] fx@[m].0 <= 7,
        decreases rest.len() - k,
    {
        let op: &str = rest[k].0.0.as_str();
        match operator_fixity(op) {
            None => {
                let mut msg = String::new();
                crate::text::push_str(&mut msg, "unknown operator `");
                crate::text::push_str(&mut msg, op);
                crate::text::push_str(&mut msg, "`");
                proof {
                    assert(first_unknown(rest0, k as int));
                    assert forall|k2: int| #[trigger] first_unknown(rest0, k2) implies k2 == k by {
                        if k2 < k {
                            assert(fixity_spec(op_text(rest0, k2)) is Some);
                        } else if k2 > k {
                            assert(fixity_spec(op_text(rest0, k as int)) is Some);
                        }
                    }
                    assert(!all_known(rest0)) by {
                        assert(fixity_spec(op_text(rest0, k as int)) is None);
                    }
                }
                return Err(msg);
            },
            Some(f) => {
                fx.push(f);
                names.push(operator_builtin(op));
                texts.push(rest[k].0.0.clone());
            },
        }
        k = k + 1;
    }
    proof {
        assert(fx@ =~= fixities(rest0));
        assert(all_known(rest0));
        assert forall|k2: int| !first_unknown(rest0, k2) by {}
        assert(bounded(fx@));
    }
    let ghost operands = operand_seq(head, rest0);
    let mut rev: Vec<Spanned<Expr>> = Vec::new();
    let mut pending = rest;
    while pending.len() > 0
        invariant
            pending@.len() <= rest0.len(),
            pending@ == rest0.subrange(0, pending@.len() as int),
            operands == operand_seq(head, rest0),
            rev@ == operands.subrange(pending@.len() as int + 1, operands.len() as int).reverse(),
        decreases pending.len(),
    {
        let ghost before = rev@;
        let item = pending.pop().unwrap();
        rev.push(item.1);
        proof {
            assert(item == rest0[pending@.len() as int]);
            assert(operands[pending@.len() as int + 1] == item.1);
            assert(rev@ =~= operands.subrange(pending@.len() as int + 1, operands.len() as int).reverse());
        }
    }
    rev.push(head);
    proof {
        assert(rev@ =~= operands.subrange(0, operands.len() as int).reverse());
    }
    let mut pos: usize = 0;
    match climb(&fx, &mut pos, 0) {
        Err(i) => {
            let mut msg = String::new();
            crate::text::push_str(&mut msg, "operator `");
            crate::text::push_str(&mut msg, texts[i].as_str());
            crate::text::push_str(&mut msg, "` is non-associative; add parentheses");
            proof {
                assert(clash(fixities(rest0), i as int, pos as int));
            }
            Err(msg)
        },
        Ok(s) => {
            proof {
                assert(pos == fx.len());
            }
            let ghost sh = s;
            let e = build(s, &mut rev, &names, Ghost(operands), Ghost(0), Ghost(fx.len() as int));
            proof {
                assert(lowered(head, rest0, sh, names@, e));
                assert(lowers_to(head, rest0, e));
            }
            Ok(e)
        },
    }
}

/// Every operator of a well-grouped shape binds at least as tightly as its
/// root.
proof fn lemma_root_loosest(fx: Seq<(u8, OpAssoc)>, s: Shape, lo: int, hi: int)
    requires
        covers(s, lo, hi),
        grouped(fx, s),
        s is Node,
    ensures
        forall|k: int| lo <= k < hi ==> #[trigger] prec(fx, k) >= prec(fx, s->Node_0 as int),
    decreases s,
{
    match s {
        Shape::Node(i, l, r) => {
            if (*l) is Node {
                lemma_root_loosest(fx, *l, lo, i as int);
            }
            if (*r) is Node {
                lemma_root_loosest(fx, *r, i + 1, hi);
            }
            assert forall|k: int| lo <= k < hi implies #[trigger] prec(fx, k) >= prec(fx, i as int) by {
                assert(binds_left(fx, *l, i as int));
                assert(binds_right(fx, *r, i as int));
                assert(covers(*l, lo, i as int));
                assert(covers(*r, i + 1, hi));
                if k < i {
                    match *l {
                        Shape::Leaf(_) => {
                            assert(lo == i);
                        },
                        Shape::Node(j, _, _) => {
                            assert(prec(fx, k) >= prec(fx, j as int));
                        },
                    }
                }
                if k > i {
                    match *r {
                        Shape::Leaf(_) => {
                            assert(i + 1 == hi);
                        },
                        Shape::Node(j, _, _) => {
                            assert(prec(fx, k) >= prec(fx, j as int));
                        },
                    }
                }
            }
        },
        Shape::Leaf(_) => {},
    }
}

/// In a group that binds left of a level-`p` operator, no operator of level
/// `p` associates to the right.
proof fn lemma_left_group(fx: Seq<(u8, OpAssoc)>, t: Shape, lo: int, hi: int, p: int)
    requires
        covers(t, lo, hi),
        grouped(fx, t),
        t is Node ==> (prec(fx, t->Node_0 as int) > p || (prec(fx, t->Node_0 as int) == p && assoc(
            fx,
            t->Node_0 as int,
        ) != OpAssoc::Right)),
    ensures
        forall|k: int| lo <= k < hi && #[trigger] prec(fx, k) == p ==> assoc(fx, k) != OpAssoc::Right,
    decreases t,
{
    match t {
        Shape::Leaf(_) => {},
        Shape::Node(j, l, r) => {
            lemma_root_loosest(fx, t, lo, hi);
            if prec(fx, j as int) == p {
                assert(covers(*l, lo, j as int));
                assert(covers(*r, j + 1, hi));
                assert(binds_left(fx, *l, j as int));
                assert(binds_right(fx, *r, j as int));
                lemma_left_group(fx, *l, lo, j as int, p);
                assert forall|k: int| lo <= k < hi && #[trigger] prec(fx, k) == p implies assoc(fx, k) != OpAssoc::Right by {
                    if k > j {
                        match *r {
                            Shape::Leaf(_) => {
                                assert(j + 1 == hi);
                            },
                            Shape::Node(m, _, _) => {
                                lemma_root_loosest(fx, *r, j + 1, hi);
                                assert(prec(fx, k) >= prec(fx, m as int));
                            },
                        }
                    }
                }
            }
        },
    }
}

/// An operator run has exactly one well-grouped shape: the grouping the
/// fixity table demands is unique.
pub proof fn lemma_grouping_unique(fx: Seq<(u8, OpAssoc)>, s1: Shape, s2: Shape, lo: int, hi: int)
    requires
        covers(s1, lo, hi),
        covers(s2, lo, hi),
        grouped(fx, s1),
        grouped(fx, s2),
    ensures
        s1 == s2,
    decreases s1,
{
    match (s1, s2) {
        (Shape::Node(i1, l1, r1), Shape::Node(i2, l2, r2)) => {
            lemma_root_loosest(fx, s1, lo, hi);
            lemma_root_loosest(fx, s2, lo, hi);
            if i1 < i2 {
                assert(covers(*r1, i1 + 1, hi));
                assert(binds_right(fx, *r1, i1 as int));
                assert(covers(*l2, lo, i2 as int));
                assert(binds_left(fx, *l2, i2 as int));
                match *r1 {
                    Shape::Leaf(_) => {
                        assert(i1 + 1 == hi);
                    },
                    Shape::Node(m, _, _) => {
                        lemma_root_loosest(fx, *r1, i1 + 1, hi);
                        assert(prec(fx, i2 as int) >= prec(fx, m as int));
                    },
                }
                assert(assoc(fx, i1 as int) == OpAssoc::Right);
                lemma_left_group(fx, *l2, lo, i2 as int, prec(fx, i2 as int));
                assert(false);
            } else if i2 < i1 {
                assert(covers(*r2, i2 + 1, hi));
                assert(binds_right(fx, *r2, i2 as int));
                assert(covers(*l1, lo, i1 as int));
                assert(binds_left(fx, *l1, i1 as int));
                match *r2 {
                    Shape::Leaf(_) => {
                        assert(i2 + 1 == hi);
                    },
                    Shape::Node(m, _, _) => {
                        lemma_root_loosest(fx, *r2, i2 + 1, hi);
                        assert(prec(fx, i1 as int) >= prec(fx, m as int));
                    },
                }
                assert(assoc(fx, i2 as int) == OpAssoc::Right);
                lemma_left_group(fx, *l1, lo, i1 as int, prec(fx, i1 as int));
                assert(false);
            }
            lemma_grouping_unique(fx, *l1, *l2, lo, i1 as int);
            lemma_grouping_unique(fx, *r1, *r2, i1 + 1, hi);
        },
        _ => {},
    }
}


/// `e` is the builtin `name` applied to `a` and then to `b`, spanning from
/// `a`'s start to `b`'s end.
pub open spec fn op_app(e: Spanned<Expr>, name: Seq<char>, a: Spanned<Expr>, b: Spanned<Expr>) -> bool {
    &&& e.0 matches Expr::App(l, r) && *r == b && (l.0 matches Expr::App(f, x) && *x == a && (f.0 matches Expr::Var(
        n,
    ) && n@ == name))
    &&& e.1.start == a.1.start
    &&& e.1.end == b.1.end
}

/// `e` is `a op0 (b op1 c)`, over the builtin names of the two operators.
pub open spec fn nests_right(e: Spanned<Expr>, n0: Seq<char>, n1: Seq<char>, a: Spanned<Expr>, b: Spanned<Expr>, c: Spanned<Expr>) -> bool {
    e.0 matches Expr::App(_, r) && op_app(e, n0, a, *r) && op_app(*r, n1, b, c)
}

/// `e` is `(a op0 b) op1 c`, over the builtin names of the two operators.
pub open spec fn nests_left(e: Spanned<Expr>, n0: Seq<char>, n1: Seq<char>, a: Spanned<Expr>, b: Spanned<Expr>, c: Spanned<Expr>) -> bool {
    e.0 matches Expr::App(l, _) && (l.0 matches Expr::App(_, x) && op_app(*x, n0, a, b) && op_app(e, n1, *x, c))
}

/// Elm's fixity table, as relations between its operators: `*`, `/` and
/// `//` share one left-associative level, `+` and `-` share the one below
/// it, `^` is as tight as `*` but groups to the right, `++` and `::` group
/// to the right below `+`, the comparisons sit below those and do not
/// associate, and `&&` binds tighter than `||`, both to the right.
pub proof fn law_fixity_table()
    ensures
        fixity_spec(seq!['/']) == fixity_spec(seq!['*']),
        fixity_spec(seq!['/', '/']) == fixity_spec(seq!['*']),
        fixity_spec(seq!['-']) == fixity_spec(seq!['+']),
        fixity_spec(seq!['*']) == Some((7u8, OpAssoc::Left)),
        fixity_spec(seq!['+']) == Some((6u8, OpAssoc::Left)),
        fixity_spec(seq!['^']) == Some((7u8, OpAssoc::Right)),
        fixity_spec(seq!['+', '+']) == Some((5u8, OpAssoc::Right)),
        fixity_spec(seq![':', ':']) == fixity_spec(seq!['+', '+']),
        fixity_spec(seq!['=', '=']) == Some((4u8, OpAssoc::NonAssoc)),
        fixity_spec(seq!['/', '=']) == fixity_spec(seq!['=', '=']),
        fixity_spec(seq!['<']) == fixity_spec(seq!['=', '=']),
        fixity_spec(seq!['>']) == fixity_spec(seq!['=', '=']),
        fixity_spec(seq!['<', '=']) == fixity_spec(seq!['=', '=']),
        fixity_spec(seq!['>', '=']) == fixity_spec(seq!['=', '=']),
        fixity_spec(seq!['&', '&']) == Some((3u8, OpAssoc::Right)),
        fixity_spec(seq!['|', '|']) == Some((2u8, OpAssoc::Right)),
{
    assert(seq!['&', '&'].len() == 2 && seq!['&', '&'][0] == '&' && seq!['&', '&'][1] == '&');
    assert(seq!['*'].len() == 1 && seq!['*'][0] == '*');
    assert(seq!['+', '+'].len() == 2 && seq!['+', '+'][0] == '+' && seq!['+', '+'][1] == '+');
    assert(seq!['+'].len() == 1 && seq!['+'][0] == '+');
    assert(seq!['-'].len() == 1 && seq!['-'][0] == '-');
    assert(seq!['/', '/'].len() == 2 && seq!['/', '/'][0] == '/' && seq!['/', '/'][1] == '/');
    assert(seq!['/', '='].len() == 2 && seq!['/', '='][0] == '/' && seq!['/', '='][1] == '=');
    assert(seq!['/'].len() == 1 && seq!['/'][0] == '/');
    assert(seq![':', ':'].len() == 2 && seq![':', ':'][0] == ':' && seq![':', ':'][1] == ':');
    assert(seq!['<', '='].len() == 2 && seq!['<', '='][0] == '<' && seq!['<', '='][1] == '=');
    assert(seq!['<'].len() == 1 && seq!['<'][0] == '<');
    assert(seq!['=', '='].len() == 2 && seq!['=', '='][0] == '=' && seq!['=', '='][1] == '=');
    assert(seq!['>', '='].len() == 2 && seq!['>', '='][0] == '>' && seq!['>', '='][1] == '=');
    assert(seq!['>'].len() == 1 && seq!['>'][0] == '>');
    assert(seq!['^'].len() == 1 && seq!['^'][0] == '^');
    assert(seq!['a', 'd', 'd'].len() == 3 && seq!['a', 'd', 'd'][0] == 'a' && seq!['a', 'd', 'd'][1] == 'd' && seq!['a', 'd', 'd'][2] == 'd');
    assert(seq!['a', 'n', 'd'].len() == 3 && seq!['a', 'n', 'd'][0] == 'a' && seq!['a', 'n', 'd'][1] == 'n' && seq!['a', 'n', 'd'][2] == 'd');
    assert(seq!['a', 'p', 'p', 'e', 'n', 'd'].len() == 6 && seq!['a', 'p', 'p', 'e', 'n', 'd'][0] == 'a' && seq!['a', 'p', 'p', 'e', 'n', 'd'][1] == 'p' && seq!['a', 'p', 'p', 'e', 'n', 'd'][2] == 'p' && seq!['a', 'p', 'p', 'e', 'n', 'd'][3] == 'e' && seq!['a', 'p', 'p', 'e', 'n', 'd'][4] == 'n' && seq!['a', 'p', 'p', 'e', 'n', 'd'][5] == 'd');
    assert(seq!['c', 'o', 'n', 's'].len() == 4 && seq!['c', 'o', 'n', 's'][0] == 'c' && seq!['c', 'o', 'n', 's'][1] == 'o' && seq!['c', 'o', 'n', 's'][2] == 'n' && seq!['c', 'o', 'n', 's'][3] == 's');
    assert(seq!['e', 'q'].len() == 2 && seq!['e', 'q'][0] == 'e' && seq!['e', 'q'][1] == 'q');
    assert(seq!['f', 'd', 'i', 'v'].len() == 4 && seq!['f', 'd', 'i', 'v'][0] == 'f' && seq!['f', 'd', 'i', 'v'][1] == 'd' && seq!['f', 'd', 'i', 'v'][2] == 'i' && seq!['f', 'd', 'i', 'v'][3] == 'v');
    assert(seq!['g', 'e'].len() == 2 && seq!['g', 'e'][0] == 'g' && seq!['g', 'e'][1] == 'e');
    assert(seq!['g', 't'].len() == 2 && seq!['g', 't'][0] == 'g' && seq!['g', 't'][1] == 't');
    assert(seq!['i', 'd', 'i', 'v'].len() == 4 && seq!['i', 'd', 'i', 'v'][0] == 'i' && seq!['i', 'd', 'i', 'v'][1] == 'd' && seq!['i', 'd', 'i', 'v'][2] == 'i' && seq!['i', 'd', 'i', 'v'][3] == 'v');
    assert(seq!['l', 'e'].len() == 2 && seq!['l', 'e'][0] == 'l' && seq!['l', 'e'][1] == 'e');
    assert(seq!['l', 't'].len() == 2 && seq!['l', 't'][0] == 'l' && seq!['l', 't'][1] == 't');
    assert(seq!['m', 'u', 'l'].len() == 3 && seq!['m', 'u', 'l'][0] == 'm' && seq!['m', 'u', 'l'][1] == 'u' && seq!['m', 'u', 'l'][2] == 'l');
    assert(seq!['n', 'e', 'q'].len() == 3 && seq!['n', 'e', 'q'][0] == 'n' && seq!['n', 'e', 'q'][1] == 'e' && seq!['n', 'e', 'q'][2] == 'q');
    assert(seq!['o', 'r'].len() == 2 && seq!['o', 'r'][0] == 'o' && seq!['o', 'r'][1] == 'r');
    assert(seq!['p', 'o', 'w'].len() == 3 && seq!['p', 'o', 'w'][0] == 'p' && seq!['p', 'o', 'w'][1] == 'o' && seq!['p', 'o', 'w'][2] == 'w');
    assert(seq!['s', 'u', 'b'].len() == 3 && seq!['s', 'u', 'b'][0] == 's' && seq!['s', 'u', 'b'][1] == 'u' && seq!['s', 'u', 'b'][2] == 'b');
    assert(seq!['|', '|'].len() == 2 && seq!['|', '|'][0] == '|' && seq!['|', '|'][1] == '|');
}

/// Two operators in a row group as their fixities say: the tighter one takes
/// the operand between them, and at one level a left-associative pair groups
/// to the left and a right-associative one to the right.
pub proof fn law_fold_pair(head: Spanned<Expr>, rest: Seq<((String, Span), Spanned<Expr>)>, e: Spanned<Expr>)
    requires
        rest.len() == 2,
        all_known(rest),
        lowers_to(head, rest, e),
    ensures
        ({
            let f0 = fixity_spec(op_text(rest, 0)).unwrap();
            let f1 = fixity_spec(op_text(rest, 1)).unwrap();
            let n0 = builtin_spec(op_text(rest, 0));
            let n1 = builtin_spec(op_text(rest, 1));
            &&& (f0.0 < f1.0 || (f0.0 == f1.0 && f0.1 == OpAssoc::Right)) ==> nests_right(e, n0, n1, head, rest[0].1, rest[1].1)
            &&& (f0.0 > f1.0 || (f0.0 == f1.0 && f0.1 != OpAssoc::Right)) ==> nests_left(e, n0, n1, head, rest[0].1, rest[1].1)
        }),
{
    reveal_with_fuel(covers, 3);
    reveal_with_fuel(grouped, 3);
    reveal_with_fuel(shape_expr, 3);
    let (s, names) = choose|s: Shape, names: Seq<String>| lowered(head, rest, s, names, e);
    let fx = fixities(rest);
    let ops = operand_seq(head, rest);
    assert(fixity_spec(op_text(rest, 0)) is Some);
    assert(fixity_spec(op_text(rest, 1)) is Some);
    assert(fx[0] == fixity_spec(op_text(rest, 0)).unwrap());
    assert(fx[1] == fixity_spec(op_text(rest, 1)).unwrap());
    assert(ops[0] == head);
    assert(ops[1] == rest[0].1);
    assert(ops[2] == rest[1].1);
    assert(names[0]@ == builtin_spec(op_text(rest, 0)));
    assert(names[1]@ == builtin_spec(op_text(rest, 1)));
    match s {
        Shape::Leaf(_) => {},
        Shape::Node(i, l, r) => {
            if i == 0 {
                match *l {
                    Shape::Leaf(_) => {},
                    Shape::Node(_, _, _) => {},
                }
                match *r {
                    Shape::Leaf(_) => {},
                    Shape::Node(j, rl, rr) => {
                        assert(j == 1);
                        match *rl {
                            Shape::Leaf(_) => {},
                            Shape::Node(_, _, _) => {},
                        }
                        match *rr {
                            Shape::Leaf(_) => {},
                            Shape::Node(_, _, _) => {},
                        }
                        assert(binds_right(fx, *r, 0));
                    },
                }
            } else {
                assert(i == 1);
                match *r {
                    Shape::Leaf(_) => {},
                    Shape::Node(_, _, _) => {},
                }
                match *l {
                    Shape::Leaf(_) => {},
                    Shape::Node(j, ll, lr) => {
                        assert(j == 0);
                        match *ll {
                            Shape::Leaf(_) => {},
                            Shape::Node(_, _, _) => {},
                        }
                        match *lr {
                            Shape::Leaf(_) => {},
                            Shape::Node(_, _, _) => {},
                        }
                        assert(binds_left(fx, *l, 1));
                    },
                }
            }
        },
    }
}

/// `a + b / c` is `a + (b / c)`: whatever the operands, division takes the
/// operand between the two operators, as multiplication does.
pub proof fn law_sum_of_quotient(head: Spanned<Expr>, rest: Seq<((String, Span), Spanned<Expr>)>, e: Spanned<Expr>)
    requires
        rest.len() == 2,
        op_text(rest, 0) == seq!['+'],
        op_text(rest, 1) == seq!['/'],
        lowers_to(head, rest, e),
    ensures
        nests_right(e, seq!['a', 'd', 'd'], seq!['f', 'd', 'i', 'v'], head, rest[0].1, rest[1].1),
{
    law_fixity_table();
    assert(seq!['&', '&'].len() == 2 && seq!['&', '&'][0] == '&' && seq!['&', '&'][1] == '&');
    assert(seq!['*'].len() == 1 && seq!['*'][0] == '*');
    assert(seq!['+', '+'].len() == 2 && seq!['+', '+'][0] == '+' && seq!['+', '+'][1] == '+');
    assert(seq!['+'].len() == 1 && seq!['+'][0] == '+');
    assert(seq!['-'].len() == 1 && seq!['-'][0] == '-');
    assert(seq!['/', '/'].len() == 2 && seq!['/', '/'][0] == '/' && seq!['/', '/'][1] == '/');
    assert(seq!['/', '='].len() == 2 && seq!['/', '='][0] == '/' && seq!['/', '='][1] == '=');
    assert(seq!['/'].len() == 1 && seq!['/'][0] == '/');
    assert(seq![':', ':'].len() == 2 && seq![':', ':'][0] == ':' && seq![':', ':'][1] == ':');
    assert(seq!['<', '='].len() == 2 && seq!['<', '='][0] == '<' && seq!['<', '='][1] == '=');
    assert(seq!['<'].len() == 1 && seq!['<'][0] == '<');
    assert(seq!['=', '='].len() == 2 && seq!['=', '='][0] == '=' && seq!['=', '='][1] == '=');
    assert(seq!['>', '='].len() == 2 && seq!['>', '='][0] == '>' && seq!['>', '='][1] == '=');
    assert(seq!['>'].len() == 1 && seq!['>'][0] == '>');
    assert(seq!['^'].len() == 1 && seq!['^'][0] == '^');
    assert(seq!['a', 'd', 'd'].len() == 3 && seq!['a', 'd', 'd'][0] == 'a' && seq!['a', 'd', 'd'][1] == 'd' && seq!['a', 'd', 'd'][2] == 'd');
    assert(seq!['a', 'n', 'd'].len() == 3 && seq!['a', 'n', 'd'][0] == 'a' && seq!['a', 'n', 'd'][1] == 'n' && seq!['a', 'n', 'd'][2] == 'd');
    assert(seq!['a', 'p', 'p', 'e', 'n', 'd'].len() == 6 && seq!['a', 'p', 'p', 'e', 'n', 'd'][0] == 'a' && seq!['a', 'p', 'p', 'e', 'n', 'd'][1] == 'p' && seq!['a', 'p', 'p', 'e', 'n', 'd'][2] == 'p' && seq!['a', 'p', 'p', 'e', 'n', 'd'][3] == 'e' && seq!['a', 'p', 'p', 'e', 'n', 'd'][4] == 'n' && seq!['a', 'p', 'p', 'e', 'n', 'd'][5] == 'd');
    assert(seq!['c', 'o', 'n', 's'].len() == 4 && seq!['c', 'o', 'n', 's'][0] == 'c' && seq!['c', 'o', 'n', 's'][1] == 'o' && seq!['c', 'o', 'n', 's'][2] == 'n' && seq!['c', 'o', 'n', 's'][3] == 's');
    assert(seq!['e', 'q'].len() == 2 && seq!['e', 'q'][0] == 'e' && seq!['e', 'q'][1] == 'q');
    assert(seq!['f', 'd', 'i', 'v'].len() == 4 && seq!['f', 'd', 'i', 'v'][0] == 'f' && seq!['f', 'd', 'i', 'v'][1] == 'd' && seq!['f', 'd', 'i', 'v'][2] == 'i' && seq!['f', 'd', 'i', 'v'][3] == 'v');
    assert(seq!['g', 'e'].len() == 2 && seq!['g', 'e'][0] == 'g' && seq!['g', 'e'][1] == 'e');
    assert(seq!['g', 't'].len() == 2 && seq!['g', 't'][0] == 'g' && seq!['g', 't'][1] == 't');
    assert(seq!['i', 'd', 'i', 'v'].len() == 4 && seq!['i', 'd', 'i', 'v'][0] == 'i' && seq!['i', 'd', 'i', 'v'][1] == 'd' && seq!['i', 'd', 'i', 'v'][2] == 'i' && seq!['i', 'd', 'i', 'v'][3] == 'v');
    assert(seq!['l', 'e'].len() == 2 && seq!['l', 'e'][0] == 'l' && seq!['l', 'e'][1] == 'e');
    assert(seq!['l', 't'].len() == 2 && seq!['l', 't'][0] == 'l' && seq!['l', 't'][1] == 't');
    assert(seq!['m', 'u', 'l'].len() == 3 && seq!['m', 'u', 'l'][0] == 'm' && seq!['m', 'u', 'l'][1] == 'u' && seq!['m', 'u', 'l'][2] == 'l');
    assert(seq!['n', 'e', 'q'].len() == 3 && seq!['n', 'e', 'q'][0] == 'n' && seq!['n', 'e', 'q'][1] == 'e' && seq!['n', 'e', 'q'][2] == 'q');
    assert(seq!['o', 'r'].len() == 2 && seq!['o', 'r'][0] == 'o' && seq!['o', 'r'][1] == 'r');
    assert(seq!['p', 'o', 'w'].len() == 3 && seq!['p', 'o', 'w'][0] == 'p' && seq!['p', 'o', 'w'][1] == 'o' && seq!['p', 'o', 'w'][2] == 'w');
    assert(seq!['s', 'u', 'b'].len() == 3 && seq!['s', 'u', 'b'][0] == 's' && seq!['s', 'u', 'b'][1] == 'u' && seq!['s', 'u', 'b'][2] == 'b');
    assert(seq!['|', '|'].len() == 2 && seq!['|', '|'][0] == '|' && seq!['|', '|'][1] == '|');
    assert(builtin_spec(seq!['+']) == seq!['a', 'd', 'd']);
    assert(builtin_spec(seq!['/']) == seq!['f', 'd', 'i', 'v']);
    assert(all_known(rest));
    law_fold_pair(head, rest, e);
}


/// The builtin each infix operator stands for: arithmetic `add`, `sub`,
/// `mul`, `fdiv`, `idiv`, `pow`; `append` and `cons`; the comparisons `lt`,
/// `gt`, `le`, `ge`, `eq`, `neq`; and `and`, `or`.
pub proof fn law_operator_builtins()
    ensures
        builtin_spec(seq!['+']) == seq!['a', 'd', 'd'],
        builtin_spec(seq!['-']) == seq!['s', 'u', 'b'],
        builtin_spec(seq!['*']) == seq!['m', 'u', 'l'],
        builtin_spec(seq!['/']) == seq!['f', 'd', 'i', 'v'],
        builtin_spec(seq!['/', '/']) == seq!['i', 'd', 'i', 'v'],
        builtin_spec(seq!['^']) == seq!['p', 'o', 'w'],
        builtin_spec(seq!['+', '+']) == seq!['a', 'p', 'p', 'e', 'n', 'd'],
        builtin_spec(seq![':', ':']) == seq!['c', 'o', 'n', 's'],
        builtin_spec(seq!['<']) == seq!['l', 't'],
        builtin_spec(seq!['>']) == seq!['g', 't'],
        builtin_spec(seq!['<', '=']) == seq!['l', 'e'],
        builtin_spec(seq!['>', '=']) == seq!['g', 'e'],
        builtin_spec(seq!['=', '=']) == seq!['e', 'q'],
        builtin_spec(seq!['/', '=']) == seq!['n', 'e', 'q'],
        builtin_spec(seq!['&', '&']) == seq!['a', 'n', 'd'],
        builtin_spec(seq!['|', '|']) == seq!['o', 'r'],
{
    assert(seq!['&', '&'].len() == 2 && seq!['&', '&'][0] == '&' && seq!['&', '&'][1] == '&');
    assert(seq!['*'].len() == 1 && seq!['*'][0] == '*');
    assert(seq!['+', '+'].len() == 2 && seq!['+', '+'][0] == '+' && seq!['+', '+'][1] == '+');
    assert(seq!['+'].len() == 1 && seq!['+'][0] == '+');
    assert(seq!['-'].len() == 1 && seq!['-'][0] == '-');
    assert(seq!['/', '/'].len() == 2 && seq!['/', '/'][0] == '/' && seq!['/', '/'][1] == '/');
    assert(seq!['/', '='].len() == 2 && seq!['/', '='][0] == '/' && seq!['/', '='][1] == '=');
    assert(seq!['/'].len() == 1 && seq!['/'][0] == '/');
    assert(seq![':', ':'].len() == 2 && seq![':', ':'][0] == ':' && seq![':', ':'][1] == ':');
    assert(seq!['<', '='].len() == 2 && seq!['<', '='][0] == '<' && seq!['<', '='][1] == '=');
    assert(seq!['<'].len() == 1 && seq!['<'][0] == '<');
    assert(seq!['=', '='].len() == 2 && seq!['=', '='][0] == '=' && seq!['=', '='][1] == '=');
    assert(seq!['>', '='].len() == 2 && seq!['>', '='][0] == '>' && seq!['>', '='][1] == '=');
    assert(seq!['>'].len() == 1 && seq!['>'][0] == '>');
    assert(seq!['^'].len() == 1 && seq!['^'][0] == '^');
    assert(seq!['a', 'd', 'd'].len() == 3 && seq!['a', 'd', 'd'][0] == 'a' && seq!['a', 'd', 'd'][1] == 'd' && seq!['a', 'd', 'd'][2] == 'd');
    assert(seq!['a', 'n', 'd'].len() == 3 && seq!['a', 'n', 'd'][0] == 'a' && seq!['a', 'n', 'd'][1] == 'n' && seq!['a', 'n', 'd'][2] == 'd');
    assert(seq!['a', 'p', 'p', 'e', 'n', 'd'].len() == 6 && seq!['a', 'p', 'p', 'e', 'n', 'd'][0] == 'a' && seq!['a', 'p', 'p', 'e', 'n', 'd'][1] == 'p' && seq!['a', 'p', 'p', 'e', 'n', 'd'][2] == 'p' && seq!['a', 'p', 'p', 'e', 'n', 'd'][3] == 'e' && seq!['a', 'p', 'p', 'e', 'n', 'd'][4] == 'n' && seq!['a', 'p', 'p', 'e', 'n', 'd'][5] == 'd');
    assert(seq!['c', 'o', 'n', 's'].len() == 4 && seq!['c', 'o', 'n', 's'][0] == 'c' && seq!['c', 'o', 'n', 's'][1] == 'o' && seq!['c', 'o', 'n', 's'][2] == 'n' && seq!['c', 'o', 'n', 's'][3] == 's');
    assert(seq!['e', 'q'].len() == 2 && seq!['e', 'q'][0] == 'e' && seq!['e', 'q'][1] == 'q');
    assert(seq!['f', 'd', 'i', 'v'].len() == 4 && seq!['f', 'd', 'i', 'v'][0] == 'f' && seq!['f', 'd', 'i', 'v'][1] == 'd' && seq!['f', 'd', 'i', 'v'][2] == 'i' && seq!['f', 'd', 'i', 'v'][3] == 'v');
    assert(seq!['g', 'e'].len() == 2 && seq!['g', 'e'][0] == 'g' && seq!['g', 'e'][1] == 'e');
    assert(seq!['g', 't'].len() == 2 && seq!['g', 't'][0] == 'g' && seq!['g', 't'][1] == 't');
    assert(seq!['i', 'd', 'i', 'v'].len() == 4 && seq!['i', 'd', 'i', 'v'][0] == 'i' && seq!['i', 'd', 'i', 'v'][1] == 'd' && seq!['i', 'd', 'i', 'v'][2] == 'i' && seq!['i', 'd', 'i', 'v'][3] == 'v');
    assert(seq!['l', 'e'].len() == 2 && seq!['l', 'e'][0] == 'l' && seq!['l', 'e'][1] == 'e');
    assert(seq!['l', 't'].len() == 2 && seq!['l', 't'][0] == 'l' && seq!['l', 't'][1] == 't');
    assert(seq!['m', 'u', 'l'].len() == 3 && seq!['m', 'u', 'l'][0] == 'm' && seq!['m', 'u', 'l'][1] == 'u' && seq!['m', 'u', 'l'][2] == 'l');
    assert(seq!['n', 'e', 'q'].len() == 3 && seq!['n', 'e', 'q'][0] == 'n' && seq!['n', 'e', 'q'][1] == 'e' && seq!['n', 'e', 'q'][2] == 'q');
    assert(seq!['o', 'r'].len() == 2 && seq!['o', 'r'][0] == 'o' && seq!['o', 'r'][1] == 'r');
    assert(seq!['p', 'o', 'w'].len() == 3 && seq!['p', 'o', 'w'][0] == 'p' && seq!['p', 'o', 'w'][1] == 'o' && seq!['p', 'o', 'w'][2] == 'w');
    assert(seq!['s', 'u', 'b'].len() == 3 && seq!['s', 'u', 'b'][0] == 's' && seq!['s', 'u', 'b'][1] == 'u' && seq!['s', 'u', 'b'][2] == 'b');
    assert(seq!['|', '|'].len() == 2 && seq!['|', '|'][0] == '|' && seq!['|', '|'][1] == '|');
}

} // verus!
