//! Layout (the "offside rule"), following the Haskell 2010 report §10.3.
//!
//! A stack of layout contexts turns indentation into virtual `{`, `;` and `}`
//! tokens. The one parse-error(t) rule this language needs — closing a
//! `let`/`where`/`of` block on reaching `in`, so a single-line
//! `let x = e in e` parses — is realised here directly: a keyword-opened
//! context on top of the stack is closed when `in` arrives.
use vstd::prelude::*;

use crate::lexer::{is_virtual, Tok, Token};

verus! {

/// Where an implicit layout context came from: the block wrapping the whole
/// module, or one opened by a layout keyword (`let`/`where`/`of`). Only a
/// keyword context is closed by the close-on-`in` rule.
#[derive(Debug, Clone, Copy, PartialEq, Eq, Structural)]
pub enum Origin {
    Module,
    Keyword,
}

/// A layout context: a literal `{` the user wrote (no implicit `;`/`}`
/// inside), or an implicit block whose reference column is `column`.
#[derive(Debug, Clone, Copy, PartialEq, Eq, Structural)]
pub enum Ctx {
    Explicit,
    Implicit { column: usize, origin: Origin },
}

/// The column of the innermost context when it is an implicit block.
pub open spec fn implicit_top(stack: Seq<Ctx>) -> Option<usize> {
    if stack.len() > 0 && stack.last() is Implicit {
        Some(stack.last()->Implicit_column)
    } else {
        None
    }
}

/// The offside rule for one step, where the next token `t` starts a line
/// inside an implicit block at column `m` that was not opened just before
/// it: at `m` a virtual `;` comes first, left of `m` the block is closed by
/// a virtual `}` and `t` waits, right of `m` the line continues and `t`
/// itself comes first (unless it is an `in`, which may close a block).
pub open spec fn offside_step(before: Seq<Token>, after: Seq<Token>, t: Token, m: usize, rest0: Seq<Token>, rest1: Seq<Token>, stack0: Seq<Ctx>, stack1: Seq<Ctx>) -> bool {
    let k = before.len() as int;
    &&& t.col == m ==> after.len() > k && after[k].tok is VSemi
    &&& t.col < m ==> after.len() == k + 1 && after.subrange(0, k) == before && after[k].tok is VRBrace
        && rest1 == rest0 && stack1 == stack0.drop_last()
    &&& t.col > m && !(t.tok is In) ==> after.len() > k && after[k] == t
}

/// The tokens of `s` that are not inserted by layout, in order.
pub open spec fn erase_virtual(s: Seq<Token>) -> Seq<Token>
    decreases s.len(),
{
    if s.len() == 0 {
        Seq::empty()
    } else if is_virtual(s.last().tok) {
        erase_virtual(s.drop_last())
    } else {
        erase_virtual(s.drop_last()).push(s.last())
    }
}

proof fn lemma_erase_push(s: Seq<Token>, t: Token)
    ensures
        erase_virtual(s.push(t)) == if is_virtual(t.tok) {
            erase_virtual(s)
        } else {
            erase_virtual(s).push(t)
        },
{
    assert(s.push(t).drop_last() =~= s);
}

/// What layout accepts: tokens ending in one `Eof`, none of them virtual.
pub open spec fn layout_input(input: Seq<Token>) -> bool {
    &&& input.len() >= 1
    &&& input.last().tok is Eof
    &&& forall|k: int| 0 <= k < input.len() - 1 ==> !(#[trigger] input[k].tok is Eof)
    &&& forall|k: int| 0 <= k < input.len() ==> !is_virtual(#[trigger] input[k].tok)
}

/// The column of the innermost implicit context of a stack, or 0 when it
/// has none.
pub open spec fn enclosing_col(s: Seq<Ctx>) -> usize
    decreases s.len(),
{
    if s.len() == 0 {
        0
    } else {
        match s.last() {
            Ctx::Implicit { column, .. } => column,
            Ctx::Explicit => enclosing_col(s.drop_last()),
        }
    }
}

/// A zero-width layout token of kind `kind` placed at `model`.
fn vtok(kind: Tok, model: &Token) -> (r: Token)
    ensures
        r.tok == kind,
        r.span.start == model.span.start,
        r.span.end == model.span.start,
        r.line == model.line,
        r.col == model.col,
        !r.first_on_line,
{
    Token {
        tok: kind,
        span: model.span.start..model.span.start,
        line: model.line,
        col: model.col,
        first_on_line: false,
    }
}

/// Whether a token opens a layout block (`let` / `where` / `of`).
fn opens_layout(t: &Tok) -> (r: bool)
    ensures
        r == (t is Let || t is Where || t is Of),
{
    match t {
        Tok::Let | Tok::Where | Tok::Of => true,
        _ => false,
    }
}

/// The layout machine. `rest` holds the unconsumed input in reverse, so its
/// last element is the next token; `out` is everything emitted so far.
struct Layout {
    rest: Vec<Token>,
    out: Vec<Token>,
    stack: Vec<Ctx>,
    /// whether the very first token has been examined (the module block opens
    /// there unless the module begins with `{`)
    started: bool,
    /// set right after opening an implicit block, so the block's first token
    /// is not treated as a same-column `;` continuation of that very block
    just_opened: bool,
    done: bool,
}

impl Layout {
    spec fn consumed(&self, input: Seq<Token>) -> int {
        input.len() - self.rest@.len()
    }

    spec fn inv(&self, input: Seq<Token>) -> bool {
        &&& layout_input(input)
        &&& self.rest@.len() <= input.len()
        &&& forall|k: int|
            0 <= k < self.rest@.len() ==> #[trigger] self.rest@[k] == input[input.len() - 1 - k]
        &&& erase_virtual(self.out@) == input.subrange(0, self.consumed(input))
        &&& !self.done ==> self.rest@.len() >= 1
        &&& self.done ==> self.rest@.len() == 0 && self.out@.len() >= 1 && self.out@.last().tok is Eof
        &&& !self.done ==> forall|k: int| 0 <= k < self.out@.len() ==> !(#[trigger] self.out@[k].tok is Eof)
    }

    spec fn measure(&self) -> nat {
        if self.done {
            0
        } else {
            3 * self.rest@.len() + self.stack@.len() + 1
        }
    }

    /// The next input token.
    fn peek(&self) -> (r: &Token)
        requires
            self.rest@.len() >= 1,
        ensures
            *r == self.rest@.last(),
    {
        &self.rest[self.rest.len() - 1]
    }

    /// Consume the next input token.
    fn take(&mut self) -> (r: Token)
        requires
            old(self).rest@.len() >= 1,
        ensures
            r == old(self).rest@.last(),
            final(self).rest@ == old(self).rest@.drop_last(),
            final(self).out == old(self).out,
            final(self).stack == old(self).stack,
            final(self).started == old(self).started,
            final(self).just_opened == old(self).just_opened,
            final(self).done == old(self).done,
    {
        match self.rest.pop() {
            Some(t) => t,
            None => {
                proof {
                    assert(false);
                }
                vtok(Tok::Eof, &Token { tok: Tok::Eof, span: 0..0, line: 0, col: 0, first_on_line: false })
            },
        }
    }

    /// Emit a virtual token.
    fn emit_virtual(&mut self, t: Token, Ghost(input): Ghost<Seq<Token>>)
        requires
            old(self).inv(input),
            !old(self).done,
            is_virtual(t.tok),
        ensures
            final(self).inv(input),
            final(self).rest == old(self).rest,
            final(self).stack == old(self).stack,
            final(self).started == old(self).started,
            final(self).just_opened == old(self).just_opened,
            final(self).done == old(self).done,
            final(self).out@.len() == old(self).out@.len() + 1,
            final(self).out@ == old(self).out@.push(t),
    {
        proof {
            lemma_erase_push(self.out@, t);
        }
        self.out.push(t);
    }

    /// The column of the innermost implicit context, or 0 when there is none.
    fn enclosing_column(&self) -> (r: usize)
        ensures
            r == enclosing_col(self.stack@),
    {
        let mut k = self.stack.len();
        proof {
            assert(self.stack@.subrange(0, k as int) =~= self.stack@);
        }
        while k > 0
            invariant
                k <= self.stack.len(),
                enclosing_col(self.stack@) == enclosing_col(self.stack@.subrange(0, k as int)),
            decreases k,
        {
            proof {
                assert(self.stack@.subrange(0, k as int).drop_last() =~= self.stack@.subrange(0, k - 1));
            }
            match self.stack[k - 1] {
                Ctx::Implicit { column, .. } => {
                    return column;
                },
                Ctx::Explicit => {},
            }
            k = k - 1;
        }
        0
    }

    /// Drive the layout algorithm one step, emitting at least one token.
    #[verifier::rlimit(40)]
    fn advance(&mut self, Ghost(input): Ghost<Seq<Token>>)
        requires
            old(self).inv(input),
            !old(self).done,
        ensures
            final(self).inv(input),
            final(self).measure() < old(self).measure(),
            final(self).started,
            old(self).out@.len() <= final(self).out@.len(),
            forall|k: int| 0 <= k < old(self).out@.len() ==> #[trigger] final(self).out@[k] == old(self).out@[k],
            !old(self).started && old(self).out@.len() == 0 && !(old(self).rest@.last().tok is Eof) && !(
            old(self).rest@.last().tok is LBrace) ==> final(self).out@.len() >= 1 && final(self).out@[0].tok is VLBrace,
            old(self).started && !old(self).just_opened && old(self).rest@.last().first_on_line && !(
            old(self).rest@.last().tok is Eof) && implicit_top(old(self).stack@) is Some ==> offside_step(
                old(self).out@,
                final(self).out@,
                old(self).rest@.last(),
                implicit_top(old(self).stack@)->Some_0,
                old(self).rest@,
                final(self).rest@,
                old(self).stack@,
                final(self).stack@,
            ),
    {
        let ghost out0 = self.out@;
        // Module-level implicit open: unless the module begins with `{`, an
        // implicit block opens at the column of the first token.
        if !self.started {
            self.started = true;
            let first_is_eof = match self.peek().tok {
                Tok::Eof => true,
                _ => false,
            };
            if first_is_eof {
                let first = self.take();
                proof {
                    lemma_erase_push(self.out@, first);
                    assert(input.subrange(0, self.consumed(input)) =~= input.subrange(
                        0,
                        old(self).consumed(input),
                    ).push(first));
                }
                self.out.push(first);
                self.done = true;
                return ;
            }
            let first_is_lbrace = match self.peek().tok {
                Tok::LBrace => true,
                _ => false,
            };
            if !first_is_lbrace {
                let n = self.peek().col;
                self.stack.push(Ctx::Implicit { column: n, origin: Origin::Module });
                let v = vtok(Tok::VLBrace, self.peek());
                self.emit_virtual(v, Ghost(input));
                self.just_opened = true;
            }
        }
        let ghost mid = *self;
        let is_eof = match self.peek().tok {
            Tok::Eof => true,
            _ => false,
        };
        // End of input: close all implicit contexts.
        if is_eof {
            while self.stack.len() > 0
                invariant
                    self.inv(input),
                    !self.done,
                    self.started,
                    mid.out@.len() <= self.out@.len(),
                    forall|k: int| 0 <= k < mid.out@.len() ==> #[trigger] self.out@[k] == mid.out@[k],
                    self.rest@.len() >= 1,
                    self.rest@.last().tok is Eof,
                decreases self.stack.len(),
            {
                let top = self.stack[self.stack.len() - 1];
                self.stack.pop();
                match top {
                    Ctx::Implicit { .. } => {
                        let v = vtok(Tok::VRBrace, self.peek());
                        self.emit_virtual(v, Ghost(input));
                    },
                    // unmatched explicit brace at EOF: the parser reports it
                    Ctx::Explicit => {},
                }
            }
            let t = self.take();
            proof {
                lemma_erase_push(self.out@, t);
                assert(input.subrange(0, self.consumed(input)) =~= input.subrange(
                    0,
                    self.consumed(input) - 1,
                ).push(t));
            }
            self.out.push(t);
            self.done = true;
            return ;
        }
        // Newline handling (the `<n>` rule): the first token on a line, inside
        // an implicit context, is compared against the context's column.
        let opened = self.just_opened;
        self.just_opened = false;
        let first_on_line = self.peek().first_on_line;
        let col = self.peek().col;
        if first_on_line && !opened && self.stack.len() > 0 {
            match self.stack[self.stack.len() - 1] {
                Ctx::Implicit { column: m, .. } => {
                    if col == m {
                        // same indentation: a new item in the block
                        let v = vtok(Tok::VSemi, self.peek());
                        self.emit_virtual(v, Ghost(input));
                    } else if col < m {
                        // dedent: close this context and re-examine the token at
                        // the enclosing one on the next step
                        self.stack.pop();
                        let v = vtok(Tok::VRBrace, self.peek());
                        self.emit_virtual(v, Ghost(input));
                        self.just_opened = opened;
                        proof {
                            assert(self.out@.subrange(0, out0.len() as int) =~= out0);
                        }
                        return ;
                    }
                },
                Ctx::Explicit => {},
            }
        }
        // parse-error(t) for `in`: close a keyword-opened block still on top.
        let is_in = match self.peek().tok {
            Tok::In => true,
            _ => false,
        };
        if is_in && self.stack.len() > 0 {
            match self.stack[self.stack.len() - 1] {
                Ctx::Implicit { origin: Origin::Keyword, .. } => {
                    self.stack.pop();
                    let v = vtok(Tok::VRBrace, self.peek());
                    self.emit_virtual(v, Ghost(input));
                },
                _ => {},
            }
        }
        // Emit the token itself.
        let ghost before_take = *self;
        let t = self.take();
        let opens = opens_layout(&t.tok);
        let t_is_lbrace = match t.tok {
            Tok::LBrace => true,
            _ => false,
        };
        let t_is_rbrace = match t.tok {
            Tok::RBrace => true,
            _ => false,
        };
        proof {
            let c = before_take.consumed(input);
            assert(t == input[c]);
            assert(c < input.len() - 1);
            lemma_erase_push(self.out@, t);
            assert(input.subrange(0, c + 1) =~= input.subrange(0, c).push(t));
        }
        self.out.push(t);
        // A layout keyword opens a block at the next token's column.
        if opens {
            let next_is_lbrace = match self.peek().tok {
                Tok::LBrace => true,
                _ => false,
            };
            let next_is_eof = match self.peek().tok {
                Tok::Eof => true,
                _ => false,
            };
            if next_is_lbrace {
                // explicit brace follows: the user overrides layout
                let ghost before2 = *self;
                let nx = self.take();
                proof {
                    let c = before2.consumed(input);
                    assert(nx == input[c]);
                    lemma_erase_push(self.out@, nx);
                    assert(input.subrange(0, c + 1) =~= input.subrange(0, c).push(nx));
                }
                self.stack.push(Ctx::Explicit);
                self.out.push(nx);
            } else if next_is_eof {
                // a layout keyword at end of input: an empty block
                let v1 = vtok(Tok::VLBrace, self.peek());
                self.emit_virtual(v1, Ghost(input));
                let v2 = vtok(Tok::VRBrace, self.peek());
                self.emit_virtual(v2, Ghost(input));
            } else {
                let n = self.peek().col;
                let enclosing = self.enclosing_column();
                if n > enclosing {
                    self.stack.push(Ctx::Implicit { column: n, origin: Origin::Keyword });
                    let v = vtok(Tok::VLBrace, self.peek());
                    self.emit_virtual(v, Ghost(input));
                    self.just_opened = true;
                } else {
                    // not indented past the enclosing block: the block is empty
                    let v1 = vtok(Tok::VLBrace, self.peek());
                    self.emit_virtual(v1, Ghost(input));
                    let v2 = vtok(Tok::VRBrace, self.peek());
                    self.emit_virtual(v2, Ghost(input));
                }
            }
        }
        // Explicit braces the user wrote adjust the stack too.
        if t_is_lbrace {
            self.stack.push(Ctx::Explicit);
        } else if t_is_rbrace && self.stack.len() > 0 {
            match self.stack[self.stack.len() - 1] {
                Ctx::Explicit => {
                    self.stack.pop();
                },
                _ => {},
            }
        }
    }
}

/// Run layout to completion: the laid-out token stream, ending in `Eof`.
/// Layout only inserts virtual tokens: erasing them gives back the input.
pub fn layout_all(input: Vec<Token>) -> (out: Vec<Token>)
    requires
        layout_input(input@),
    ensures
        erase_virtual(out@) == input@,
        out@.len() >= 1,
        out@.last().tok is Eof,
        !(input@[0].tok is Eof) && !(input@[0].tok is LBrace) ==> out@[0].tok is VLBrace,
{
    let ghost inp = input@;
    let mut rest: Vec<Token> = Vec::new();
    let mut src = input;
    while src.len() > 0
        invariant
            rest@.len() + src@.len() == inp.len(),
            src@ == inp.subrange(0, src@.len() as int),
            forall|k: int|
                0 <= k < rest@.len() ==> #[trigger] rest@[k] == inp[inp.len() - 1 - k],
        decreases src.len(),
    {
        let ghost before = src@;
        let t = src.pop().unwrap();
        proof {
            assert(t == inp[src@.len() as int]);
            assert(src@ =~= inp.subrange(0, src@.len() as int));
        }
        rest.push(t);
    }
    let mut l = Layout {
        rest,
        out: Vec::new(),
        stack: Vec::new(),
        started: false,
        just_opened: false,
        done: false,
    };
    proof {
        assert(inp.subrange(0, 0) =~= Seq::<Token>::empty());
        assert(erase_virtual(l.out@) == Seq::<Token>::empty());
    }
    proof {
        assert(l.rest@.last() == inp[0]);
    }
    while !l.done
        invariant
            l.inv(inp),
            !l.started ==> l.out@.len() == 0 && l.rest@.len() >= 1 && l.rest@.last() == inp[0],
            l.started && !(inp[0].tok is Eof) && !(inp[0].tok is LBrace) ==> l.out@.len() >= 1 && l.out@[0].tok is VLBrace,
        decreases l.measure(),
    {
        l.advance(Ghost(inp));
    }
    proof {
        assert(inp.subrange(0, inp.len() as int) =~= inp);
    }
    l.out
}

} // verus!
