//! Secret-carrying text. A program may read secrets; a string built from one
//! stays tainted: it is held as pieces (literal text, resolved secrets, and
//! already-sealed secrets) so that it can only ever leave the compiler sealed
//! under the fleet key, never as plaintext.
use std::ops::Range;
use std::path::PathBuf;

use aes_siv::aead::{Aead, KeyInit};
use vstd::prelude::*;
use vstd::string::StringSliceAdditionalSpecFns;
use vstd::utf8::encode_utf8;

use crate::ir::{chunks_view, Chunk, ChunkV, Secret, Text};
use crate::lexer::{debug_string, debug_string_of};
use crate::text::{is_whitespace, push_char, push_str, string_of_range, unicode_whitespace};

verus! {

#[verifier::external_type_specification]
#[verifier::external_body]
pub struct ExPathBuf(PathBuf);

/// The builtin that reads a secret.
pub const GET: &'static str = "Secretspec.get";

/// The builtin that asks whether a string carries a secret.
pub const IS_SECRET: &'static str = "String.isSecret";

/// The size of the fleet key: a 512-bit AES-SIV key.
pub const KEY_BYTES: usize = 64;

/// Where secrets come from: the fleet key file, and the provider and
/// profile to read secret values with.
#[derive(Debug, Default)]
pub struct SecretOptions {
    pub key_file: Option<PathBuf>,
    pub provider: Option<String>,
    pub profile: Option<String>,
}

/// A secret read from the provider: its key and its plaintext. Its
/// description shows the key only.
pub struct ResolvedSecret {
    key: String,
    plaintext: String,
}

impl View for ResolvedSecret {
    type V = (Seq<char>, Seq<char>);

    closed spec fn view(&self) -> (Seq<char>, Seq<char>) {
        (self.key@, self.plaintext@)
    }
}

impl ResolvedSecret {
    /// A secret with the given key and plaintext.
    pub fn new(key: String, plaintext: String) -> (r: ResolvedSecret)
        ensures
            r@ == (key@, plaintext@),
    {
        ResolvedSecret { key, plaintext }
    }

    /// The key the secret was read under.
    pub fn key(&self) -> (r: &str)
        ensures
            r@ == self@.0,
    {
        self.key.as_str()
    }

    pub fn duplicate(&self) -> (r: ResolvedSecret)
        ensures
            r@ == self@,
    {
        ResolvedSecret { key: self.key.clone(), plaintext: self.plaintext.clone() }
    }

    /// `<secret KEY>`: the key, never the plaintext.
    pub fn describe(&self) -> (r: String)
        ensures
            r@ == "<secret "@ + self@.0 + ">"@,
    {
        let mut out = String::new();
        push_str(&mut out, "<secret ");
        push_str(&mut out, self.key.as_str());
        push_str(&mut out, ">");
        proof {
            assert(Seq::<char>::empty() + "<secret "@ + self@.0 + ">"@ =~= "<secret "@ + self@.0
                + ">"@);
        }
        out
    }
}

/// One piece of secret-carrying text.
pub enum TextPiece {
    Literal(String),
    Resolved(ResolvedSecret),
    Sealed(Secret),
}

/// What a piece holds: literal text, a resolved secret's key and plaintext,
/// or a sealed secret's key id and ciphertext.
pub enum PieceV {
    Literal(Seq<char>),
    Resolved(Seq<char>, Seq<char>),
    Sealed((Seq<char>, Seq<u8>)),
}

impl View for TextPiece {
    type V = PieceV;

    open spec fn view(&self) -> PieceV {
        match self {
            TextPiece::Literal(s) => PieceV::Literal(s@),
            TextPiece::Resolved(r) => PieceV::Resolved(r@.0, r@.1),
            TextPiece::Sealed(s) => PieceV::Sealed(s@),
        }
    }
}

/// Pieces as values.
pub open spec fn pieces_view(s: Seq<TextPiece>) -> Seq<PieceV> {
    s.map_values(|p: TextPiece| p@)
}

/// The description of a piece: a literal shows its text, a resolved secret
/// its key, a sealed one nothing.
pub open spec fn piece_description(p: PieceV) -> Seq<char> {
    match p {
        PieceV::Literal(s) => "Literal("@ + debug_string(s) + ")"@,
        PieceV::Resolved(k, _) => "<secret "@ + k + ">"@,
        PieceV::Sealed(_) => "<sealed secret>"@,
    }
}

impl TextPiece {
    pub fn duplicate(&self) -> (r: TextPiece)
        ensures
            r@ == self@,
    {
        match self {
            TextPiece::Literal(s) => TextPiece::Literal(s.clone()),
            TextPiece::Resolved(r) => TextPiece::Resolved(r.duplicate()),
            TextPiece::Sealed(s) => TextPiece::Sealed(s.duplicate()),
        }
    }

    /// The piece as `Debug` would show it, with no plaintext.
    pub fn describe(&self) -> (r: String)
        ensures
            r@ == piece_description(self@),
    {
        match self {
            TextPiece::Literal(s) => {
                let mut out = String::new();
                push_str(&mut out, "Literal(");
                let d = debug_string_of(s);
                push_str(&mut out, d.as_str());
                push_str(&mut out, ")");
                proof {
                    assert(Seq::<char>::empty() + "Literal("@ + debug_string(s@) + ")"@
                        =~= "Literal("@ + debug_string(s@) + ")"@);
                }
                out
            },
            TextPiece::Resolved(r) => r.describe(),
            TextPiece::Sealed(_) => {
                let mut out = String::new();
                push_str(&mut out, "<sealed secret>");
                proof {
                    assert(Seq::<char>::empty() + "<sealed secret>"@ =~= "<sealed secret>"@);
                }
                out
            },
        }
    }
}

/// Text that carries at least one secret, kept as pieces.
pub struct SecretText(Vec<TextPiece>);

impl View for SecretText {
    type V = Seq<PieceV>;

    closed spec fn view(&self) -> Seq<PieceV> {
        pieces_view(self.0@)
    }
}

/// The keys of the resolved secrets among the pieces, in order.
pub open spec fn keys(s: Seq<PieceV>) -> Seq<Seq<char>>
    decreases s.len(),
{
    if s.len() == 0 {
        Seq::empty()
    } else {
        match s.last() {
            PieceV::Resolved(k, _) => keys(s.drop_last()).push(k),
            _ => keys(s.drop_last()),
        }
    }
}

/// The keys of several texts, one after another.
pub open spec fn all_keys(srcs: Seq<Seq<PieceV>>) -> Seq<Seq<char>>
    decreases srcs.len(),
{
    if srcs.len() == 0 {
        Seq::empty()
    } else {
        all_keys(srcs.drop_last()) + keys(srcs.last())
    }
}

/// Strings joined with a separator character.
pub open spec fn join_with(sep: char, ks: Seq<Seq<char>>) -> Seq<char>
    decreases ks.len(),
{
    if ks.len() == 0 {
        Seq::empty()
    } else if ks.len() == 1 {
        ks[0]
    } else {
        join_with(sep, ks.drop_last()) + seq![sep] + ks.last()
    }
}

/// Some piece is already sealed.
pub open spec fn has_sealed(s: Seq<PieceV>) -> bool {
    exists|i: int| 0 <= i < s.len() && #[trigger] s[i] is Sealed
}

/// Some piece is a resolved secret.
pub open spec fn has_resolved(s: Seq<PieceV>) -> bool {
    exists|i: int| 0 <= i < s.len() && #[trigger] s[i] is Resolved
}

/// Some piece is not a literal.
pub open spec fn any_secret(s: Seq<PieceV>) -> bool {
    exists|i: int| 0 <= i < s.len() && !(#[trigger] s[i] is Literal)
}

/// The text the pieces spell, secrets by their plaintext (sealed ones add
/// nothing).
pub open spec fn plain_text(s: Seq<PieceV>) -> Seq<char>
    decreases s.len(),
{
    if s.len() == 0 {
        Seq::empty()
    } else {
        plain_text(s.drop_last()) + match s.last() {
            PieceV::Literal(t) => t,
            PieceV::Resolved(_, p) => p,
            PieceV::Sealed(_) => Seq::empty(),
        }
    }
}

/// A single character of literal text, as an atom.
pub open spec fn letter(c: char) -> PieceV {
    PieceV::Literal(seq![c])
}

/// The literal characters, one atom each: the one-character literal.
pub open spec fn char_atoms(t: Seq<char>) -> Seq<PieceV>
    decreases t.len(),
{
    if t.len() == 0 {
        Seq::empty()
    } else {
        char_atoms(t.drop_last()).push(letter(t.last()))
    }
}

/// The atoms one piece spells.
pub open spec fn piece_atoms(p: PieceV) -> Seq<PieceV> {
    match p {
        PieceV::Literal(t) => char_atoms(t),
        p => seq![p],
    }
}

/// The atoms a sequence of pieces spells.
pub open spec fn atoms(s: Seq<PieceV>) -> Seq<PieceV>
    decreases s.len(),
{
    if s.len() == 0 {
        Seq::empty()
    } else {
        atoms(s.drop_last()) + piece_atoms(s.last())
    }
}

/// The normal form of pieces: no empty literal, and no two literals side by
/// side.
pub open spec fn canonical(s: Seq<PieceV>) -> bool {
    &&& forall|i: int| 0 <= i < s.len() ==> !(#[trigger] s[i] matches PieceV::Literal(t) && t.len() == 0)
    &&& forall|i: int| 0 <= i < s.len() - 1 ==> !(#[trigger] s[i] is Literal && s[i + 1] is Literal)
}

proof fn lemma_pieces_view_push(s: Seq<TextPiece>, p: TextPiece)
    ensures
        pieces_view(s.push(p)) == pieces_view(s).push(p@),
{
    assert(pieces_view(s.push(p)) =~= pieces_view(s).push(p@));
}

proof fn lemma_char_atoms_add(a: Seq<char>, b: Seq<char>)
    ensures
        char_atoms(a + b) == char_atoms(a) + char_atoms(b),
    decreases b.len(),
{
    if b.len() == 0 {
        assert(a + b =~= a);
        assert(char_atoms(a) + char_atoms(b) =~= char_atoms(a));
    } else {
        let b0 = b.drop_last();
        lemma_char_atoms_add(a, b0);
        assert((a + b).drop_last() =~= a + b0);
        assert((a + b).last() == b.last());
        assert(char_atoms(a + b) == char_atoms(a + b0).push(letter(b.last())));
        assert(char_atoms(b) == char_atoms(b0).push(letter(b.last())));
        assert((char_atoms(a) + char_atoms(b0)).push(letter(b.last())) =~= char_atoms(a) + char_atoms(
            b0,
        ).push(letter(b.last())));
    }
}

proof fn lemma_atoms_push(s: Seq<PieceV>, p: PieceV)
    ensures
        atoms(s.push(p)) == atoms(s) + piece_atoms(p),
{
    assert(s.push(p).drop_last() =~= s);
}

/// Pushing a piece that is not an empty literal, and not a literal after a
/// literal, keeps the normal form.
proof fn lemma_push_canonical(s: Seq<PieceV>, p: PieceV)
    requires
        canonical(s),
        !(p matches PieceV::Literal(t) && t.len() == 0),
        !(p is Literal && s.len() > 0 && s.last() is Literal),
    ensures
        canonical(s.push(p)),
        atoms(s.push(p)) == atoms(s) + piece_atoms(p),
{
    lemma_atoms_push(s, p);
    let t = s.push(p);
    assert forall|i: int| 0 <= i < t.len() - 1 implies !(#[trigger] t[i] is Literal && t[i + 1] is Literal) by {
        if i < s.len() - 1 {
            assert(t[i] == s[i] && t[i + 1] == s[i + 1]);
        }
    }
}

/// Appending text to a trailing literal keeps the normal form.
proof fn lemma_extend_last(s: Seq<PieceV>, p0: Seq<char>, x: Seq<char>)
    requires
        canonical(s),
        s.len() > 0,
        s.last() == PieceV::Literal(p0),
    ensures
        canonical(s.drop_last().push(PieceV::Literal(p0 + x))),
        atoms(s.drop_last().push(PieceV::Literal(p0 + x))) == atoms(s) + char_atoms(x),
{
    let d = s.drop_last();
    let t = d.push(PieceV::Literal(p0 + x));
    lemma_atoms_push(d, PieceV::Literal(p0 + x));
    lemma_char_atoms_add(p0, x);
    assert(s =~= d.push(PieceV::Literal(p0)));
    lemma_atoms_push(d, PieceV::Literal(p0));
    assert(atoms(t) =~= atoms(s) + char_atoms(x));
    assert forall|i: int| 0 <= i < t.len() implies !(#[trigger] t[i] matches PieceV::Literal(q) && q.len() == 0) by {
        if i < t.len() - 1 {
            assert(t[i] == s[i]);
        } else {
            assert(s[s.len() - 1] == PieceV::Literal(p0));
        }
    }
    assert forall|i: int| 0 <= i < t.len() - 1 implies !(#[trigger] t[i] is Literal && t[i + 1] is Literal) by {
        assert(t[i] == s[i]);
        if i + 1 < t.len() - 1 {
            assert(t[i + 1] == s[i + 1]);
        }
    }
}

proof fn lemma_pieces_view_pop_push(s: Seq<TextPiece>, p: TextPiece)
    requires
        s.len() > 0,
    ensures
        pieces_view(s.drop_last().push(p)) == pieces_view(s).drop_last().push(p@),
        pieces_view(s).last() == s.last()@,
{
    assert(pieces_view(s.drop_last().push(p)) =~= pieces_view(s).drop_last().push(p@));
}

impl SecretText {
    /// Text that is exactly one resolved secret.
    pub fn of_secret(secret: ResolvedSecret) -> (r: SecretText)
        ensures
            r@ == seq![PieceV::Resolved(secret@.0, secret@.1)],
    {
        let mut v: Vec<TextPiece> = Vec::new();
        v.push(TextPiece::Resolved(secret));
        let r = SecretText(v);
        proof {
            assert(r@ =~= seq![PieceV::Resolved(secret@.0, secret@.1)]);
        }
        r
    }

    /// A secret computed from other secret texts: its plaintext is given, its
    /// key names every secret it came from, joined with `+`.
    pub fn derived_from(plaintext: String, sources: &[&SecretText]) -> (r: SecretText)
        ensures
            r@ == seq![
                PieceV::Resolved(
                    join_with('+', all_keys(sources@.map_values(|t: &SecretText| t@))),
                    plaintext@,
                ),
            ],
    {
        let mut ks: Vec<String> = Vec::new();
        let mut i: usize = 0;
        while i < sources.len()
            invariant
                i <= sources@.len(),
                ks@.map_values(|k: String| k@) == all_keys(
                    sources@.subrange(0, i as int).map_values(|t: &SecretText| t@),
                ),
            decreases sources.len() - i,
        {
            let more = sources[i].secret_keys();
            let ghost before = ks@;
            let mut j: usize = 0;
            while j < more.len()
                invariant
                    j <= more@.len(),
                    ks@ == before + more@.subrange(0, j as int),
                decreases more.len() - j,
            {
                ks.push(more[j].clone());
                j = j + 1;
                proof {
                    assert(ks@ =~= before + more@.subrange(0, j as int));
                }
            }
            proof {
                let prev = sources@.subrange(0, i as int).map_values(|t: &SecretText| t@);
                let next = sources@.subrange(0, i + 1).map_values(|t: &SecretText| t@);
                assert(next.drop_last() =~= prev);
                assert(next.last() == sources@[i as int]@);
                assert(more@.subrange(0, j as int) =~= more@);
                assert(ks@.map_values(|k: String| k@) =~= before.map_values(|k: String| k@)
                    + more@.map_values(|k: String| k@));
            }
            i = i + 1;
        }
        proof {
            assert(sources@.subrange(0, i as int) =~= sources@);
        }
        let mut key = String::new();
        let mut k: usize = 0;
        while k < ks.len()
            invariant
                k <= ks@.len(),
                key@ == join_with('+', ks@.subrange(0, k as int).map_values(|s: String| s@)),
            decreases ks.len() - k,
        {
            let ghost before = key@;
            if k > 0 {
                push_char(&mut key, '+');
            }
            push_str(&mut key, ks[k].as_str());
            proof {
                let prev = ks@.subrange(0, k as int).map_values(|s: String| s@);
                let next = ks@.subrange(0, k + 1).map_values(|s: String| s@);
                assert(next.drop_last() =~= prev);
                if k == 0 {
                    assert(key@ =~= next[0]);
                } else {
                    assert(key@ =~= join_with('+', prev) + seq!['+'] + next.last());
                }
            }
            k = k + 1;
        }
        proof {
            assert(ks@.subrange(0, k as int) =~= ks@);
        }
        SecretText::of_secret(ResolvedSecret { key, plaintext })
    }

    /// The keys of the resolved secrets in the text, in order.
    pub fn secret_keys(&self) -> (r: Vec<String>)
        ensures
            r@.map_values(|k: String| k@) == keys(self@),
    {
        let mut out: Vec<String> = Vec::new();
        let mut i: usize = 0;
        while i < self.0.len()
            invariant
                i <= self.0@.len(),
                out@.map_values(|k: String| k@) == keys(pieces_view(self.0@.subrange(0, i as int))),
            decreases self.0.len() - i,
        {
            let ghost before = out@;
            let ghost pre = self.0@.subrange(0, i as int);
            match &self.0[i] {
                TextPiece::Resolved(secret) => {
                    out.push(secret.key.clone());
                },
                _ => {},
            }
            proof {
                assert(self.0@.subrange(0, i + 1) =~= pre.push(self.0@[i as int]));
                lemma_pieces_view_push(pre, self.0@[i as int]);
                let nv = pieces_view(pre.push(self.0@[i as int]));
                assert(nv.drop_last() =~= pieces_view(pre));
                assert(out@.map_values(|k: String| k@) =~= keys(nv));
            }
            i = i + 1;
        }
        proof {
            assert(self.0@.subrange(0, i as int) =~= self.0@);
        }
        out
    }

    /// The pieces of the text, in order.
    pub fn pieces(&self) -> (r: &[TextPiece])
        ensures
            pieces_view(r@) == self@,
    {
        self.0.as_slice()
    }

    /// The plaintext the text spells, or `None` when a piece is already
    /// sealed (its plaintext is gone).
    pub fn plaintext(&self) -> (r: Option<String>)
        ensures
            r is None <==> has_sealed(self@),
            r matches Some(s) ==> s@ == plain_text(self@),
    {
        let mut out = String::new();
        let mut i: usize = 0;
        while i < self.0.len()
            invariant
                i <= self.0@.len(),
                out@ == plain_text(pieces_view(self.0@.subrange(0, i as int))),
                forall|j: int| 0 <= j < i ==> !(#[trigger] self.0@[j] is Sealed),
            decreases self.0.len() - i,
        {
            let ghost pre = self.0@.subrange(0, i as int);
            match &self.0[i] {
                TextPiece::Literal(s) => push_str(&mut out, s.as_str()),
                TextPiece::Resolved(secret) => push_str(&mut out, secret.plaintext.as_str()),
                TextPiece::Sealed(_) => {
                    proof {
                        assert(self@[i as int] is Sealed);
                    }
                    return None;
                },
            }
            proof {
                assert(self.0@.subrange(0, i + 1) =~= pre.push(self.0@[i as int]));
                lemma_pieces_view_push(pre, self.0@[i as int]);
                let nv = pieces_view(pre.push(self.0@[i as int]));
                assert(nv.drop_last() =~= pieces_view(pre));
            }
            i = i + 1;
        }
        proof {
            assert(self.0@.subrange(0, i as int) =~= self.0@);
            assert forall|j: int| 0 <= j < self@.len() implies !(#[trigger] self@[j] is Sealed) by {
                assert(self@[j] == self.0@[j]@);
            }
        }
        Some(out)
    }

    /// The text as manifest text: literals stay literal, resolved secrets are
    /// sealed under the key, sealed ones pass through. Fails when a secret
    /// needs sealing and no key is loaded.
    pub fn seal(&self, key: Option<&FleetKey>) -> (r: Result<Text, String>)
        ensures
            (key is None && has_resolved(self@)) ==> (r matches Err(m) && m@ == no_key_message()),
            (key is Some || !has_resolved(self@)) ==> (r matches Ok(t) && t@ == sealed_chunks(
                self@,
                key,
            )),
    {
        let mut chunks: Vec<Chunk> = Vec::new();
        let mut i: usize = 0;
        while i < self.0.len()
            invariant
                i <= self.0@.len(),
                chunks_view(chunks@) == sealed_chunks(pieces_view(self.0@.subrange(0, i as int)), key),
                key is None ==> forall|j: int| 0 <= j < i ==> !(#[trigger] self.0@[j] is Resolved),
            decreases self.0.len() - i,
        {
            let ghost pre = self.0@.subrange(0, i as int);
            let c = match &self.0[i] {
                TextPiece::Literal(s) => Chunk::Lit(s.clone()),
                TextPiece::Resolved(secret) => {
                    match seal(key, secret.plaintext.as_str()) {
                        Ok(sealed) => Chunk::Hole(sealed),
                        Err(e) => {
                            proof {
                                assert(self@[i as int] is Resolved);
                            }
                            return Err(e);
                        },
                    }
                },
                TextPiece::Sealed(s) => Chunk::Hole(s.duplicate()),
            };
            let ghost before = chunks@;
            chunks.push(c);
            proof {
                assert(self.0@.subrange(0, i + 1) =~= pre.push(self.0@[i as int]));
                lemma_pieces_view_push(pre, self.0@[i as int]);
                let nv = pieces_view(pre.push(self.0@[i as int]));
                assert(nv.drop_last() =~= pieces_view(pre));
                assert(chunks_view(chunks@) =~= chunks_view(before).push(c@));
            }
            i = i + 1;
        }
        proof {
            assert(self.0@.subrange(0, i as int) =~= self.0@);
            if key is None {
                assert forall|j: int| 0 <= j < self@.len() implies !(#[trigger] self@[j] is Resolved) by {
                    assert(self@[j] == self.0@[j]@);
                }
            }
        }
        Ok(Text::composed(chunks))
    }

    /// The text as `Debug` shows it: `SecretText([...])` with each piece
    /// described, plaintexts left out.
    pub fn describe(&self) -> (r: String)
        ensures
            r@ == "SecretText(["@ + join_descriptions(self@) + "])"@,
    {
        let mut out = String::new();
        push_str(&mut out, "SecretText([");
        let ghost head = out@;
        let mut i: usize = 0;
        while i < self.0.len()
            invariant
                i <= self.0@.len(),
                head == "SecretText(["@,
                out@ == head + join_descriptions(pieces_view(self.0@.subrange(0, i as int))),
            decreases self.0.len() - i,
        {
            let ghost pre = self.0@.subrange(0, i as int);
            let ghost before = out@;
            if i > 0 {
                push_str(&mut out, ", ");
            }
            let d = self.0[i].describe();
            push_str(&mut out, d.as_str());
            proof {
                assert(self.0@.subrange(0, i + 1) =~= pre.push(self.0@[i as int]));
                lemma_pieces_view_push(pre, self.0@[i as int]);
                let nv = pieces_view(pre.push(self.0@[i as int]));
                assert(nv.drop_last() =~= pieces_view(pre));
                if i == 0 {
                    assert(out@ =~= head + piece_description(nv.last()));
                } else {
                    assert(out@ =~= head + (join_descriptions(pieces_view(pre)) + ", "@
                        + piece_description(nv.last())));
                }
            }
            i = i + 1;
        }
        proof {
            assert(self.0@.subrange(0, i as int) =~= self.0@);
        }
        push_str(&mut out, "])");
        proof {
            assert(Seq::<char>::empty() + "SecretText(["@ =~= "SecretText(["@);
        }
        out
    }
}

/// The piece descriptions separated by `, `.
pub open spec fn join_descriptions(s: Seq<PieceV>) -> Seq<char>
    decreases s.len(),
{
    if s.len() == 0 {
        Seq::empty()
    } else if s.len() == 1 {
        piece_description(s[0])
    } else {
        join_descriptions(s.drop_last()) + ", "@ + piece_description(s.last())
    }
}

/// The chunk a piece becomes when sealed under the key.
pub open spec fn sealed_chunk(p: PieceV, key: Option<&FleetKey>) -> ChunkV {
    match p {
        PieceV::Literal(s) => ChunkV::Lit(s),
        PieceV::Resolved(_, plain) => ChunkV::Hole(
            (key.unwrap().key_id_view(), siv_ciphertext(key.unwrap().key_view(), encode_utf8(plain))),
        ),
        PieceV::Sealed(s) => ChunkV::Hole(s),
    }
}

/// The chunks pieces become when sealed under the key.
pub open spec fn sealed_chunks(s: Seq<PieceV>, key: Option<&FleetKey>) -> Seq<ChunkV> {
    s.map_values(|p: PieceV| sealed_chunk(p, key))
}

/// The result of joining pieces: plain text when none carries a secret,
/// else the tainted text.
pub enum Composed {
    Plain(String),
    Tainted(SecretText),
}

/// The literal text of the pieces (non-literals contribute nothing).
pub open spec fn literal_text(s: Seq<PieceV>) -> Seq<char>
    decreases s.len(),
{
    if s.len() == 0 {
        Seq::empty()
    } else {
        literal_text(s.drop_last()) + match s.last() {
            PieceV::Literal(t) => t,
            _ => Seq::empty(),
        }
    }
}

fn carries_secret(piece: &TextPiece) -> (r: bool)
    ensures
        r == !(piece@ is Literal),
{
    match piece {
        TextPiece::Literal(_) => false,
        _ => true,
    }
}

/// The pieces in normal form: empty literals dropped and neighbouring
/// literals joined, spelling the same atoms.
#[verifier::spinoff_prover]
#[verifier::rlimit(50)]
fn merge_literals(pieces: &Vec<TextPiece>) -> (r: Vec<TextPiece>)
    ensures
        atoms(pieces_view(r@)) == atoms(pieces_view(pieces@)),
        canonical(pieces_view(r@)),
{
    let mut merged: Vec<TextPiece> = Vec::new();
    let mut i: usize = 0;
    while i < pieces.len()
        invariant
            i <= pieces@.len(),
            atoms(pieces_view(merged@)) == atoms(pieces_view(pieces@.subrange(0, i as int))),
            canonical(pieces_view(merged@)),
        decreases pieces.len() - i,
    {
        let ghost pre = pieces@.subrange(0, i as int);
        let ghost before = merged@;
        proof {
            assert(pieces@.subrange(0, i + 1) =~= pre.push(pieces@[i as int]));
            lemma_pieces_view_push(pre, pieces@[i as int]);
            lemma_atoms_push(pieces_view(pre), pieces@[i as int]@);
        }
        match &pieces[i] {
            TextPiece::Literal(s) => {
                if s.as_str().is_empty() {
                    proof {
                        assert(s@.len() == 0);
                    }
                } else {
                    let n = merged.len();
                    let last_is_literal = n > 0 && match &merged[n - 1] {
                        TextPiece::Literal(_) => true,
                        _ => false,
                    };
                    if last_is_literal {
                        let last = merged.pop().unwrap();
                        match last {
                            TextPiece::Literal(prior) => {
                                let mut joined = prior;
                                let ghost p0 = joined@;
                                push_str(&mut joined, s.as_str());
                                let piece = TextPiece::Literal(joined);
                                merged.push(piece);
                                proof {
                                    lemma_pieces_view_pop_push(before, piece);
                                    lemma_extend_last(pieces_view(before), p0, s@);
                                }
                            },
                            other => {
                                merged.push(other);
                            },
                        }
                    } else {
                        let piece = TextPiece::Literal(s.clone());
                        merged.push(piece);
                        proof {
                            lemma_pieces_view_push(before, piece);
                            if before.len() > 0 {
                                assert(pieces_view(before).last() == before.last()@);
                            }
                            lemma_push_canonical(pieces_view(before), piece@);
                        }
                    }
                }
            },
            other => {
                let p = other.duplicate();
                merged.push(p);
                proof {
                    lemma_pieces_view_push(before, p);
                    lemma_push_canonical(pieces_view(before), p@);
                }
            },
        }
        i = i + 1;
    }
    proof {
        assert(pieces@.subrange(0, i as int) =~= pieces@);
    }
    merged
}

/// Joins pieces: plain text when none carries a secret; otherwise the
/// tainted text, in normal form (no empty literal, no two literals side by
/// side) and spelling the same atoms.
pub fn compose(pieces: Vec<TextPiece>) -> (r: Composed)
    ensures
        match r {
            Composed::Plain(s) => !any_secret(pieces_view(pieces@)) && s@ == literal_text(
                pieces_view(pieces@),
            ),
            Composed::Tainted(t) => any_secret(pieces_view(pieces@)) && atoms(t@) == atoms(
                pieces_view(pieces@),
            ) && canonical(t@),
        },
{
    let mut any = false;
    let mut i: usize = 0;
    while i < pieces.len()
        invariant
            i <= pieces@.len(),
            any <==> exists|j: int| 0 <= j < i && !(#[trigger] pieces@[j]@ is Literal),
        decreases pieces.len() - i,
    {
        if carries_secret(&pieces[i]) {
            any = true;
        }
        i = i + 1;
    }
    proof {
        if any {
            let j = choose|j: int| 0 <= j < i && !(#[trigger] pieces@[j]@ is Literal);
            assert(!(pieces_view(pieces@)[j] is Literal));
        } else {
            assert forall|j: int| 0 <= j < pieces_view(pieces@).len() implies #[trigger] pieces_view(
                pieces@,
            )[j] is Literal by {
                assert(pieces_view(pieces@)[j] == pieces@[j]@);
            }
        }
    }
    if any {
        Composed::Tainted(SecretText(merge_literals(&pieces)))
    } else {
        let mut out = String::new();
        let mut k: usize = 0;
        while k < pieces.len()
            invariant
                k <= pieces@.len(),
                out@ == literal_text(pieces_view(pieces@.subrange(0, k as int))),
            decreases pieces.len() - k,
        {
            let ghost pre = pieces@.subrange(0, k as int);
            match &pieces[k] {
                TextPiece::Literal(s) => push_str(&mut out, s.as_str()),
                _ => {},
            }
            proof {
                assert(pieces@.subrange(0, k + 1) =~= pre.push(pieces@[k as int]));
                lemma_pieces_view_push(pre, pieces@[k as int]);
                let nv = pieces_view(pre.push(pieces@[k as int]));
                assert(nv.drop_last() =~= pieces_view(pre));
            }
            k = k + 1;
        }
        proof {
            assert(pieces@.subrange(0, k as int) =~= pieces@);
        }
        Composed::Plain(out)
    }
}

/// The piece a manifest chunk is read back as.
pub open spec fn chunk_piece(c: ChunkV) -> PieceV {
    match c {
        ChunkV::Lit(s) => PieceV::Literal(s),
        ChunkV::Hole(s) => PieceV::Sealed(s),
    }
}


proof fn lemma_char_atoms_literal(t: Seq<char>)
    ensures
        forall|i: int| 0 <= i < char_atoms(t).len() ==> #[trigger] char_atoms(t)[i] is Literal,
    decreases t.len(),
{
    if t.len() > 0 {
        lemma_char_atoms_literal(t.drop_last());
    }
}

/// A resolved or sealed piece shows as itself among the atoms, and a
/// literal's atoms are literals: `s` has a resolved (sealed) piece exactly
/// when its atoms do.
proof fn lemma_atoms_secret_kinds(s: Seq<PieceV>)
    ensures
        has_resolved(s) <==> has_resolved(atoms(s)),
        has_sealed(s) <==> has_sealed(atoms(s)),
    decreases s.len(),
{
    if s.len() > 0 {
        let d = s.drop_last();
        let p = s.last();
        lemma_atoms_secret_kinds(d);
        lemma_char_atoms_literal(match p {
            PieceV::Literal(t) => t,
            _ => Seq::empty(),
        });
        let ad = atoms(d);
        let pa = piece_atoms(p);
        assert(atoms(s) == ad + pa);
        if has_resolved(s) {
            let i = choose|i: int| 0 <= i < s.len() && #[trigger] s[i] is Resolved;
            if i < d.len() {
                assert(d[i] is Resolved);
                let j = choose|j: int| 0 <= j < ad.len() && #[trigger] ad[j] is Resolved;
                assert((ad + pa)[j] is Resolved);
            } else {
                assert((ad + pa)[ad.len() as int] is Resolved);
            }
        }
        if has_resolved(atoms(s)) {
            let j = choose|j: int| 0 <= j < atoms(s).len() && #[trigger] atoms(s)[j] is Resolved;
            if j < ad.len() {
                assert(ad[j] is Resolved);
                let i = choose|i: int| 0 <= i < d.len() && #[trigger] d[i] is Resolved;
                assert(s[i] is Resolved);
            } else {
                assert(pa[j - ad.len()] is Resolved);
                assert(s[s.len() - 1] is Resolved);
            }
        }
        if has_sealed(s) {
            let i = choose|i: int| 0 <= i < s.len() && #[trigger] s[i] is Sealed;
            if i < d.len() {
                assert(d[i] is Sealed);
                let j = choose|j: int| 0 <= j < ad.len() && #[trigger] ad[j] is Sealed;
                assert((ad + pa)[j] is Sealed);
            } else {
                assert((ad + pa)[ad.len() as int] is Sealed);
            }
        }
        if has_sealed(atoms(s)) {
            let j = choose|j: int| 0 <= j < atoms(s).len() && #[trigger] atoms(s)[j] is Sealed;
            if j < ad.len() {
                assert(ad[j] is Sealed);
                let i = choose|i: int| 0 <= i < d.len() && #[trigger] d[i] is Sealed;
                assert(s[i] is Sealed);
            } else {
                assert(pa[j - ad.len()] is Sealed);
                assert(s[s.len() - 1] is Sealed);
            }
        }
    }
}

proof fn lemma_keys_without_resolved(s: Seq<PieceV>)
    requires
        !has_resolved(s),
    ensures
        keys(s) == Seq::<Seq<char>>::empty(),
    decreases s.len(),
{
    if s.len() > 0 {
        let d = s.drop_last();
        assert forall|i: int| 0 <= i < d.len() implies !(#[trigger] d[i] is Resolved) by {
            assert(s[i] == d[i]);
        }
        lemma_keys_without_resolved(d);
        assert(!(s[s.len() - 1] is Resolved));
    }
}

/// Reading manifest text back gives secret text that round-trips: when the
/// text holds a sealed hole, every reading in normal form with the text's
/// atoms (what `reify` returns) carries a sealed piece, so it has no
/// plaintext; it has no resolved piece, so it names no secret key and seals
/// without any key; and sealing it gives back chunks that read as that same
/// normal form, so they spell the original text.
pub proof fn law_reify_round_trip(text: Seq<ChunkV>, t: Seq<PieceV>, key: Option<&FleetKey>)
    requires
        any_secret(text.map_values(|c: ChunkV| chunk_piece(c))),
        atoms(t) == atoms(text.map_values(|c: ChunkV| chunk_piece(c))),
        canonical(t),
    ensures
        has_sealed(t),
        !has_resolved(t),
        keys(t) == Seq::<Seq<char>>::empty(),
        sealed_chunks(t, key).map_values(|c: ChunkV| chunk_piece(c)) == t,
        atoms(sealed_chunks(t, key).map_values(|c: ChunkV| chunk_piece(c))) == atoms(
            text.map_values(|c: ChunkV| chunk_piece(c)),
        ),
{
    let tp = text.map_values(|c: ChunkV| chunk_piece(c));
    lemma_atoms_secret_kinds(tp);
    lemma_atoms_secret_kinds(t);
    assert(!has_resolved(tp)) by {
        if has_resolved(tp) {
            let i = choose|i: int| 0 <= i < tp.len() && #[trigger] tp[i] is Resolved;
            assert(tp[i] == chunk_piece(text[i]));
        }
    }
    assert(has_sealed(tp)) by {
        let i = choose|i: int| 0 <= i < tp.len() && !(#[trigger] tp[i] is Literal);
        assert(tp[i] == chunk_piece(text[i]));
        assert(tp[i] is Sealed);
    }
    lemma_keys_without_resolved(t);
    let back = sealed_chunks(t, key).map_values(|c: ChunkV| chunk_piece(c));
    assert forall|i: int| 0 <= i < t.len() implies #[trigger] back[i] == t[i] by {
        assert(!(t[i] is Resolved));
    }
    assert(back =~= t);
}

/// Manifest text read back as secret-carrying text: `None` when it holds no
/// sealed hole, else its chunks (holes as sealed secrets) in normal form.
pub fn reify(text: &Text) -> (r: Option<SecretText>)
    ensures
        r is None <==> !any_secret(text@.map_values(|c: ChunkV| chunk_piece(c))),
        r matches Some(t) ==> atoms(t@) == atoms(text@.map_values(|c: ChunkV| chunk_piece(c)))
            && canonical(t@),
{
    let chunks = text.chunks();
    let mut pieces: Vec<TextPiece> = Vec::new();
    let mut i: usize = 0;
    while i < chunks.len()
        invariant
            i <= chunks@.len(),
            chunks_view(chunks@) == text@,
            pieces_view(pieces@) == chunks_view(chunks@.subrange(0, i as int)).map_values(
                |c: ChunkV| chunk_piece(c),
            ),
        decreases chunks.len() - i,
    {
        let p = match &chunks[i] {
            Chunk::Lit(s) => TextPiece::Literal(s.clone()),
            Chunk::Hole(s) => TextPiece::Sealed(s.duplicate()),
        };
        let ghost before = pieces@;
        pieces.push(p);
        proof {
            lemma_pieces_view_push(before, p);
            assert(chunks_view(chunks@.subrange(0, i + 1)).map_values(|c: ChunkV| chunk_piece(c))
                =~= chunks_view(chunks@.subrange(0, i as int)).map_values(
                |c: ChunkV| chunk_piece(c),
            ).push(p@));
        }
        i = i + 1;
    }
    proof {
        assert(chunks@.subrange(0, i as int) =~= chunks@);
    }
    match compose(pieces) {
        Composed::Tainted(t) => Some(t),
        Composed::Plain(_) => None,
    }
}

// ---------------------------------------------------------------------------
// The first failure noted while evaluating, kept until taken.
// ---------------------------------------------------------------------------

/// Notes a failure unless one is already noted: the first one wins.
pub fn note_failure(noted: &mut Option<(String, Range<usize>)>, msg: String, span: Range<usize>)
    ensures
        (*old(noted)) is None ==> *final(noted) == Some((msg, span)),
        (*old(noted)) is Some ==> *final(noted) == *old(noted),
{
    if noted.is_none() {
        *noted = Some((msg, span));
    }
}

/// The message for inspecting a secret in a way only plaintext allows.
pub open spec fn inspection_message(what: Seq<char>) -> Seq<char> {
    "a secret cannot be "@ + what
        + " — only transforming it into other text, or joining it into a larger string, is defined on a sealed value"@
}

/// Notes that a secret was inspected (`what` says how), at no position.
pub fn note_inspection(noted: &mut Option<(String, Range<usize>)>, what: &str)
    ensures
        (*old(noted)) is None ==> ((*final(noted)) matches Some(n) && n.0@ == inspection_message(what@)
            && n.1.start == 0 && n.1.end == 0),
        (*old(noted)) is Some ==> *final(noted) == *old(noted),
{
    let mut msg = String::new();
    push_str(&mut msg, "a secret cannot be ");
    push_str(&mut msg, what);
    push_str(
        &mut msg,
        " — only transforming it into other text, or joining it into a larger string, is defined on a sealed value",
    );
    proof {
        assert(msg@ =~= inspection_message(what@));
    }
    note_failure(noted, msg, 0..0);
}

/// The noted failure, leaving nothing noted.
pub fn take_failure(noted: &mut Option<(String, Range<usize>)>) -> (r: Option<(String, Range<usize>)>)
    ensures
        r == *old(noted),
        (*final(noted)) is None,
{
    noted.take()
}

// ---------------------------------------------------------------------------
// The fleet key and sealing.
// ---------------------------------------------------------------------------

/// What AES-SIV (512-bit key, all-zero nonce, no associated data) makes of a
/// plaintext under a key.
pub uninterp spec fn siv_ciphertext(key: Seq<u8>, plaintext: Seq<u8>) -> Seq<u8>;

/// The BLAKE3 digest of some bytes.
pub uninterp spec fn blake3_digest(data: Seq<u8>) -> Seq<u8>;

/// The value of an ASCII hexadecimal digit, either case.
pub open spec fn hex_digit(b: u8) -> Option<u8> {
    if 0x30 <= b && b <= 0x39 {
        Some((b - 0x30) as u8)
    } else if 0x41 <= b && b <= 0x46 {
        Some((b - 0x41 + 10) as u8)
    } else if 0x61 <= b && b <= 0x66 {
        Some((b - 0x61 + 10) as u8)
    } else {
        None
    }
}

/// Bytes that are an even number of hexadecimal digits.
pub open spec fn hex_ok(s: Seq<u8>) -> bool {
    &&& s.len() % 2 == 0
    &&& forall|i: int| 0 <= i < s.len() ==> (#[trigger] hex_digit(s[i])) is Some
}

/// The bytes a run of hexadecimal digit pairs stands for.
pub open spec fn hex_value(s: Seq<u8>) -> Seq<u8> {
    Seq::new(
        s.len() / 2,
        |i: int| (hex_digit(s[2 * i]).unwrap() * 16 + hex_digit(s[2 * i + 1]).unwrap()) as u8,
    )
}

/// The lower-case hexadecimal digit for a value below 16.
pub open spec fn lower_hex(v: int) -> char {
    if v < 10 {
        (0x30 + v) as char
    } else {
        (0x61 + v - 10) as char
    }
}

/// Bytes as lower-case hexadecimal, two digits each.
pub open spec fn hex_text(b: Seq<u8>) -> Seq<char> {
    Seq::new(
        2 * b.len(),
        |i: int|
            if i % 2 == 0 {
                lower_hex(b[i / 2] as int / 16)
            } else {
                lower_hex(b[i / 2] as int % 16)
            },
    )
}

/// `hex::decode`: `None` unless the text is an even number of hexadecimal
/// digits; else the bytes they spell.
#[verifier::external_body]
fn hex_decode(s: &str) -> (r: Option<Vec<u8>>)
    ensures
        r is Some <==> hex_ok(s.spec_bytes()),
        r matches Some(b) ==> b@ == hex_value(s.spec_bytes()),
{
    hex::decode(s).ok()
}

/// `hex::encode`: the bytes as lower-case hexadecimal.
#[verifier::external_body]
fn hex_encode(data: &[u8]) -> (r: String)
    ensures
        r@ == hex_text(data@),
{
    hex::encode(data)
}

/// `blake3::hash`: the 32-byte digest of the data.
#[verifier::external_body]
fn blake3_hash(data: &[u8]) -> (r: Vec<u8>)
    ensures
        r@ == blake3_digest(data@),
        r@.len() == 32,
{
    blake3::hash(data).as_bytes().to_vec()
}

/// `Aead::encrypt` of `Aes256SivAead` under the 64-byte key, with the
/// all-zero nonce and no associated data. With two S2V headers it cannot
/// fail; the result is named by `siv_ciphertext`.
#[verifier::external_body]
fn siv_encrypt(key: &[u8], plaintext: &[u8]) -> (r: Option<Vec<u8>>)
    requires
        key@.len() == 64,
    ensures
        r is Some,
        r matches Some(c) ==> c@ == siv_ciphertext(key@, plaintext@),
{
    let cipher = aes_siv::Aes256SivAead::new_from_slice(key).ok()?;
    cipher.encrypt(&aes_siv::Nonce::default(), plaintext).ok()
}

/// The fleet's sealing key: 64 key bytes, identified by the first eight bytes
/// of their BLAKE3 digest in hexadecimal.
pub struct FleetKey {
    key_id: String,
    key: Vec<u8>,
}

/// The identifier of a key: the first eight bytes of its digest, in hex.
pub open spec fn key_id_of(key: Seq<u8>) -> Seq<char> {
    hex_text(blake3_digest(key).subrange(0, 8))
}

/// A key text without its surrounding whitespace.
pub open spec fn trim_ws(s: Seq<char>) -> Seq<char> {
    trim_ws_end(trim_ws_front(s))
}

pub open spec fn trim_ws_front(s: Seq<char>) -> Seq<char>
    decreases s.len(),
{
    if s.len() > 0 && unicode_whitespace(s[0]) {
        trim_ws_front(s.drop_first())
    } else {
        s
    }
}

pub open spec fn trim_ws_end(s: Seq<char>) -> Seq<char>
    decreases s.len(),
{
    if s.len() > 0 && unicode_whitespace(s.last()) {
        trim_ws_end(s.drop_last())
    } else {
        s
    }
}

/// The complaint about a key file that is not a hex-encoded 64-byte key.
pub open spec fn malformed_key_message(path: Seq<char>) -> Seq<char> {
    "the fleet secret key "@ + path + " must be 128 hexadecimal characters (a 64-byte AES-SIV key)"@
}

/// The complaint when a secret must be sealed and no key is loaded.
pub open spec fn no_key_message() -> Seq<char> {
    "no fleet secret key is loaded, so this value cannot be sealed"@
}

fn no_key() -> (r: String)
    ensures
        r@ == no_key_message(),
{
    let mut out = String::new();
    push_str(&mut out, "no fleet secret key is loaded, so this value cannot be sealed");
    proof {
        assert(out@ =~= no_key_message());
    }
    out
}

/// The message for a key that failed to seal a value.
pub open spec fn cannot_seal_message() -> Seq<char> {
    "the fleet secret key could not seal a value"@
}

fn cannot_seal() -> (r: String)
    ensures
        r@ == cannot_seal_message(),
{
    let mut out = String::new();
    push_str(&mut out, "the fleet secret key could not seal a value");
    out
}

impl FleetKey {
    #[verifier::type_invariant]
    spec fn well_formed(self) -> bool {
        &&& self.key@.len() == KEY_BYTES
        &&& self.key_id@ == key_id_of(self.key@)
    }

    /// The key bytes.
    pub closed spec fn key_view(&self) -> Seq<u8> {
        self.key@
    }

    /// The key's identifier.
    pub closed spec fn key_id_view(&self) -> Seq<char> {
        self.key_id@
    }

    /// The key written in a key file (`path` names the file in messages):
    /// the text, trimmed of whitespace, must be 128 hexadecimal digits.
    pub fn from_key_text(path: &str, text: &str) -> (r: Result<FleetKey, String>)
        ensures
            match r {
                Ok(k) => {
                    let bytes = encode_utf8(trim_ws(text@));
                    &&& hex_ok(bytes)
                    &&& hex_value(bytes).len() == KEY_BYTES
                    &&& k.key_view() == hex_value(bytes)
                    &&& k.key_id_view() == key_id_of(k.key_view())
                },
                Err(m) => {
                    let bytes = encode_utf8(trim_ws(text@));
                    &&& !(hex_ok(bytes) && hex_value(bytes).len() == KEY_BYTES)
                    &&& m@ == malformed_key_message(path@)
                },
            },
    {
        let trimmed = trim_whitespace(text);
        let decoded = hex_decode(trimmed.as_str());
        match decoded {
            Some(bytes) => {
                if bytes.len() != KEY_BYTES {
                    return Err(malformed_key(path));
                }
                let digest = blake3_hash(bytes.as_slice());
                let mut head: Vec<u8> = Vec::new();
                let mut i: usize = 0;
                while i < 8
                    invariant
                        i <= 8,
                        digest@.len() == 32,
                        head@ == digest@.subrange(0, i as int),
                    decreases 8 - i,
                {
                    head.push(digest[i]);
                    i = i + 1;
                    proof {
                        assert(head@ =~= digest@.subrange(0, i as int));
                    }
                }
                let key_id = hex_encode(head.as_slice());
                Ok(FleetKey { key_id, key: bytes })
            },
            None => Err(malformed_key(path)),
        }
    }

    /// The key's identifier.
    pub fn key_id(&self) -> (r: &str)
        ensures
            r@ == self.key_id_view(),
    {
        self.key_id.as_str()
    }

    /// Seals a plaintext under the key.
    pub fn seal(&self, plaintext: &str) -> (r: Result<Secret, String>)
        ensures
            r matches Ok(s) && s@ == (self.key_id_view(), siv_ciphertext(
                self.key_view(),
                encode_utf8(plaintext@),
            )),
    {
        proof {
            use_type_invariant(self);
        }
        match siv_encrypt(self.key.as_slice(), plaintext.as_bytes()) {
            Some(ciphertext) => Ok(Secret::Sealed { key_id: self.key_id.clone(), ciphertext }),
            None => Err(cannot_seal()),
        }
    }
}

fn malformed_key(path: &str) -> (r: String)
    ensures
        r@ == malformed_key_message(path@),
{
    let mut out = String::new();
    push_str(&mut out, "the fleet secret key ");
    push_str(&mut out, path);
    push_str(&mut out, " must be 128 hexadecimal characters (a 64-byte AES-SIV key)");
    proof {
        assert(out@ =~= malformed_key_message(path@));
    }
    out
}

/// The text without leading or trailing whitespace (`str::trim`).
fn trim_whitespace(text: &str) -> (r: String)
    ensures
        r@ == trim_ws(text@),
{
    let cs = crate::text::chars_of(text);
    let mut lo: usize = 0;
    proof {
        assert(cs@.subrange(0, cs@.len() as int) =~= cs@);
    }
    while lo < cs.len() && is_whitespace(cs[lo])
        invariant
            lo <= cs@.len(),
            cs@ == text@,
            trim_ws_front(cs@.subrange(lo as int, cs@.len() as int)) == trim_ws_front(text@),
        decreases cs.len() - lo,
    {
        proof {
            assert(cs@.subrange(lo as int, cs@.len() as int).drop_first() =~= cs@.subrange(
                lo + 1,
                cs@.len() as int,
            ));
        }
        lo = lo + 1;
    }
    let mut hi: usize = cs.len();
    proof {
        let rest = cs@.subrange(lo as int, cs@.len() as int);
        assert(trim_ws_front(rest) == rest);
    }
    while hi > lo && is_whitespace(cs[hi - 1])
        invariant
            lo <= hi <= cs@.len(),
            cs@ == text@,
            trim_ws_end(cs@.subrange(lo as int, hi as int)) == trim_ws(text@),
        decreases hi,
    {
        proof {
            assert(cs@.subrange(lo as int, hi as int).drop_last() =~= cs@.subrange(
                lo as int,
                hi - 1,
            ));
        }
        hi = hi - 1;
    }
    string_of_range(&cs, lo, hi)
}

/// Seals a plaintext with the loaded key, or fails when none is loaded.
pub fn seal(key: Option<&FleetKey>, plaintext: &str) -> (r: Result<Secret, String>)
    ensures
        key is None ==> (r matches Err(m) && m@ == no_key_message()),
        key matches Some(k) ==> (r matches Ok(s) && s@ == (k.key_id_view(), siv_ciphertext(
            k.key_view(),
            encode_utf8(plaintext@),
        ))),
{
    match key {
        Some(k) => k.seal(plaintext),
        None => Err(no_key()),
    }
}

} // verus!
