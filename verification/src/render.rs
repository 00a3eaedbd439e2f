//! How a type is written back out: `t3` for a unification variable,
//! `List (Maybe a)` for an applied constructor, `(a -> b) -> c` for arrows,
//! `{ x : Int | r7 }` for records and `(A, B)` for tuples.
use vstd::prelude::*;

use crate::ast::{fvs, lemma_fvs, lemma_tvs, tv, tvs, Row, Type, TypeV};
use crate::text::{decimal, push_char, push_decimal};

verus! {

/// Whether an argument of an applied constructor is written in parentheses:
/// a constructor that itself has arguments, or an arrow.
pub open spec fn needs_parens(t: TypeV) -> bool {
    ||| (t matches TypeV::Con(_, inner) && inner.len() > 0)
    ||| t is Fun
}

/// The text of a type.
pub open spec fn type_text(t: TypeV) -> Seq<char>
    decreases t,
{
    match t {
        TypeV::Var(n, _) => seq!['t'] + decimal(n as nat),
        TypeV::Rigid(name) => name,
        TypeV::Con(name, args) => name + args_text(args),
        TypeV::Fun(a, b) => if (*a) is Fun {
            seq!['('] + type_text(*a) + seq![')', ' ', '-', '>', ' '] + type_text(*b)
        } else {
            type_text(*a) + seq![' ', '-', '>', ' '] + type_text(*b)
        },
        TypeV::Record(fields, row) => seq!['{', ' '] + fields_text(fields) + row_text(row) + seq![
            ' ',
            '}',
        ],
        TypeV::Tuple(elems) => seq!['('] + elems_text(elems) + seq![')'],
    }
}

/// The arguments of an applied constructor, each after a space.
pub open spec fn args_text(s: Seq<TypeV>) -> Seq<char>
    decreases s,
{
    if s.len() == 0 {
        Seq::empty()
    } else {
        let a = s[s.len() - 1];
        args_text(s.drop_last()) + if needs_parens(a) {
            seq![' ', '('] + type_text(a) + seq![')']
        } else {
            seq![' '] + type_text(a)
        }
    }
}

/// Record fields, `name : type`, separated by `, `.
pub open spec fn fields_text(s: Seq<(Seq<char>, TypeV)>) -> Seq<char>
    decreases s,
{
    if s.len() == 0 {
        Seq::empty()
    } else {
        let f = s[s.len() - 1];
        fields_text(s.drop_last()) + (if s.len() > 1 {
            seq![',', ' ']
        } else {
            Seq::empty()
        }) + f.0 + seq![' ', ':', ' '] + type_text(f.1)
    }
}

/// Tuple components separated by `, `.
pub open spec fn elems_text(s: Seq<TypeV>) -> Seq<char>
    decreases s,
{
    if s.len() == 0 {
        Seq::empty()
    } else {
        elems_text(s.drop_last()) + (if s.len() > 1 {
            seq![',', ' ']
        } else {
            Seq::empty()
        }) + type_text(s[s.len() - 1])
    }
}

/// The open tail of a record, ` | r7`, or nothing for a closed one.
pub open spec fn row_text(r: Row) -> Seq<char> {
    match r {
        Row::Closed => Seq::empty(),
        Row::Open(n) => seq![' ', '|', ' ', 'r'] + decimal(n as nat),
    }
}

fn push_chars2(out: &mut String, a: char, b: char)
    ensures
        final(out)@ == old(out)@ + seq![a, b],
{
    push_char(out, a);
    push_char(out, b);
    proof {
        assert(old(out)@.push(a).push(b) =~= old(out)@ + seq![a, b]);
    }
}

fn push_str_of(out: &mut String, s: &String)
    ensures
        final(out)@ == old(out)@ + s@,
{
    crate::text::push_str(out, s.as_str());
}

impl Type {
    /// Appends the text of the type to `out`.
    pub fn write_text(&self, out: &mut String)
        ensures
            final(out)@ == old(out)@ + type_text(tv(*self)),
        decreases self,
    {
        let ghost start = out@;
        match self {
            Type::Var(n, _) => {
                push_char(out, 't');
                push_decimal(out, *n as u64);
                proof {
                    assert(start.push('t') + decimal(*n as nat) =~= start + (seq!['t'] + decimal(
                        *n as nat,
                    )));
                }
            },
            Type::Rigid(name) => {
                push_str_of(out, name);
            },
            Type::Con(name, args) => {
                push_str_of(out, name);
                proof {
                    lemma_tvs(args@);
                }
                let mut i: usize = 0;
                proof {
                    assert(decreases_to!(self => args));
                }
                while i < args.len()
                    invariant
                        decreases_to!(self => args),
                        i <= args.len(),
                        tvs(args@).len() == args@.len(),
                        forall|j: int| 0 <= j < args@.len() ==> #[trigger] tvs(args@)[j] == tv(args@[j]),
                        out@ == start + name@ + args_text(tvs(args@).subrange(0, i as int)),
                    decreases args.len() - i,
                {
                    let ghost before = out@;
                    let ghost pre = tvs(args@).subrange(0, i as int);
                    proof {
                        assert(decreases_to!(args => args[i as int]));
                    }
                    let arg = &args[i];
                    let paren = match arg {
                        Type::Con(_, inner) => inner.len() > 0,
                        Type::Fun(_, _) => true,
                        _ => false,
                    };
                    proof {
                        lemma_tvs(args@[i as int]->Con_1@);
                    }
                    if paren {
                        push_chars2(out, ' ', '(');
                        arg.write_text(out);
                        push_char(out, ')');
                    } else {
                        push_char(out, ' ');
                        arg.write_text(out);
                    }
                    proof {
                        let a = tv(args@[i as int]);
                        let next = tvs(args@).subrange(0, i + 1);
                        assert(next.drop_last() =~= pre);
                        assert(next[next.len() - 1] == a);
                        if paren {
                            assert(needs_parens(a));
                            assert(out@ =~= before + (seq![' ', '('] + type_text(a) + seq![')']));
                        } else {
                            assert(!needs_parens(a));
                            assert(out@ =~= before + (seq![' '] + type_text(a)));
                        }
                        assert(out@ =~= start + name@ + args_text(next));
                    }
                    i = i + 1;
                }
                proof {
                    assert(tvs(args@).subrange(0, i as int) =~= tvs(args@));
                }
            },
            Type::Fun(a, b) => {
                let arrow_left = match &**a {
                    Type::Fun(_, _) => true,
                    _ => false,
                };
                if arrow_left {
                    push_char(out, '(');
                    (**a).write_text(out);
                    push_chars2(out, ')', ' ');
                    push_chars2(out, '-', '>');
                    push_char(out, ' ');
                    (**b).write_text(out);
                    proof {
                        assert(out@ =~= start + (seq!['('] + type_text(tv(**a)) + seq![
                            ')',
                            ' ',
                            '-',
                            '>',
                            ' ',
                        ] + type_text(tv(**b))));
                    }
                } else {
                    (**a).write_text(out);
                    push_chars2(out, ' ', '-');
                    push_chars2(out, '>', ' ');
                    (**b).write_text(out);
                    proof {
                        assert(out@ =~= start + (type_text(tv(**a)) + seq![' ', '-', '>', ' ']
                            + type_text(tv(**b))));
                    }
                }
            },
            Type::Record(fields, row) => {
                push_chars2(out, '{', ' ');
                proof {
                    lemma_fvs(fields@);
                }
                let mut i: usize = 0;
                proof {
                    assert(decreases_to!(self => fields));
                }
                while i < fields.len()
                    invariant
                        decreases_to!(self => fields),
                        i <= fields.len(),
                        fvs(fields@).len() == fields@.len(),
                        forall|j: int|
                            0 <= j < fields@.len() ==> #[trigger] fvs(fields@)[j] == (
                                fields@[j].0@,
                                tv(fields@[j].1),
                            ),
                        out@ == start + seq!['{', ' '] + fields_text(
                            fvs(fields@).subrange(0, i as int),
                        ),
                    decreases fields.len() - i,
                {
                    let ghost before = out@;
                    let ghost pre = fvs(fields@).subrange(0, i as int);
                    proof {
                        assert(decreases_to!(fields => fields[i as int]));
                        assert(decreases_to!(fields[i as int] => fields[i as int].1));
                    }
                    if i > 0 {
                        push_chars2(out, ',', ' ');
                    }
                    let ghost mid = out@;
                    push_str_of(out, &fields[i].0);
                    push_chars2(out, ' ', ':');
                    push_char(out, ' ');
                    fields[i].1.write_text(out);
                    proof {
                        let f = fvs(fields@)[i as int];
                        let next = fvs(fields@).subrange(0, i + 1);
                        assert(next.drop_last() =~= pre);
                        assert(next[next.len() - 1] == f);
                        let sep: Seq<char> = if next.len() > 1 {
                            seq![',', ' ']
                        } else {
                            Seq::empty()
                        };
                        assert(mid =~= before + sep);
                        assert(out@ =~= before + (sep + f.0 + seq![' ', ':', ' '] + type_text(
                            f.1,
                        )));
                        assert(out@ =~= start + seq!['{', ' '] + fields_text(next));
                    }
                    i = i + 1;
                }
                proof {
                    assert(fvs(fields@).subrange(0, i as int) =~= fvs(fields@));
                }
                let ghost mid = out@;
                match row {
                    Row::Open(r) => {
                        push_chars2(out, ' ', '|');
                        push_chars2(out, ' ', 'r');
                        push_decimal(out, *r as u64);
                    },
                    Row::Closed => {},
                }
                push_chars2(out, ' ', '}');
                proof {
                    assert(out@ =~= start + (seq!['{', ' '] + fields_text(fvs(fields@))
                        + row_text(*row) + seq![' ', '}']));
                }
            },
            Type::Tuple(elems) => {
                push_char(out, '(');
                proof {
                    lemma_tvs(elems@);
                }
                let mut i: usize = 0;
                proof {
                    assert(decreases_to!(self => elems));
                }
                while i < elems.len()
                    invariant
                        decreases_to!(self => elems),
                        i <= elems.len(),
                        tvs(elems@).len() == elems@.len(),
                        forall|j: int| 0 <= j < elems@.len() ==> #[trigger] tvs(elems@)[j] == tv(elems@[j]),
                        out@ == start + seq!['('] + elems_text(tvs(elems@).subrange(0, i as int)),
                    decreases elems.len() - i,
                {
                    let ghost before = out@;
                    let ghost pre = tvs(elems@).subrange(0, i as int);
                    proof {
                        assert(decreases_to!(elems => elems[i as int]));
                    }
                    if i > 0 {
                        push_chars2(out, ',', ' ');
                    }
                    let ghost mid = out@;
                    elems[i].write_text(out);
                    proof {
                        let e = tvs(elems@)[i as int];
                        let next = tvs(elems@).subrange(0, i + 1);
                        assert(next.drop_last() =~= pre);
                        assert(next[next.len() - 1] == e);
                        let sep: Seq<char> = if next.len() > 1 {
                            seq![',', ' ']
                        } else {
                            Seq::empty()
                        };
                        assert(mid =~= before + sep);
                        assert(out@ =~= before + (sep + type_text(e)));
                        assert(out@ =~= start + seq!['('] + elems_text(next));
                    }
                    i = i + 1;
                }
                proof {
                    assert(tvs(elems@).subrange(0, i as int) =~= tvs(elems@));
                }
                push_char(out, ')');
                proof {
                    assert(out@ =~= start + (seq!['('] + elems_text(tvs(elems@)) + seq![')']));
                }
            },
        }
    }

    /// The text of the type, as `Display` writes it.
    pub fn to_text(&self) -> (r: String)
        ensures
            r@ == type_text(tv(*self)),
    {
        let mut out = String::new();
        self.write_text(&mut out);
        proof {
            assert(Seq::<char>::empty() + type_text(tv(*self)) =~= type_text(tv(*self)));
        }
        out
    }
}

} // verus!
