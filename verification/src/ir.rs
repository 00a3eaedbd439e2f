//! The pieces of the compiled manifest that secrets travel in: a sealed
//! secret, and text made of literal chunks and sealed holes.
use vstd::prelude::*;

verus! {

/// A secret sealed under the fleet key: the key's identifier and the
/// AES-SIV ciphertext.
#[derive(Debug)]
pub enum Secret {
    Sealed { key_id: String, ciphertext: Vec<u8> },
}

impl View for Secret {
    type V = (Seq<char>, Seq<u8>);

    open spec fn view(&self) -> (Seq<char>, Seq<u8>) {
        match self {
            Secret::Sealed { key_id, ciphertext } => (key_id@, ciphertext@),
        }
    }
}

impl Secret {
    /// A copy of the sealed secret.
    pub fn duplicate(&self) -> (r: Secret)
        ensures
            r@ == self@,
    {
        match self {
            Secret::Sealed { key_id, ciphertext } => {
                let c = ciphertext.clone();
                proof {
                    assert(c@ =~= ciphertext@);
                }
                Secret::Sealed { key_id: key_id.clone(), ciphertext: c }
            },
        }
    }
}

/// One chunk of composed text: a literal, or a sealed hole.
#[derive(Debug)]
pub enum Chunk {
    Lit(String),
    Hole(Secret),
}

/// What a chunk holds.
pub enum ChunkV {
    Lit(Seq<char>),
    Hole((Seq<char>, Seq<u8>)),
}

impl View for Chunk {
    type V = ChunkV;

    open spec fn view(&self) -> ChunkV {
        match self {
            Chunk::Lit(s) => ChunkV::Lit(s@),
            Chunk::Hole(s) => ChunkV::Hole(s@),
        }
    }
}

/// The chunks of a sequence, as values.
pub open spec fn chunks_view(cs: Seq<Chunk>) -> Seq<ChunkV> {
    cs.map_values(|c: Chunk| c@)
}

/// Text that carries sealed secrets between literal chunks.
#[derive(Debug)]
pub struct Text {
    chunks: Vec<Chunk>,
}

impl View for Text {
    type V = Seq<ChunkV>;

    closed spec fn view(&self) -> Seq<ChunkV> {
        chunks_view(self.chunks@)
    }
}

impl Text {
    /// Text made of the given chunks, in order.
    pub fn composed(chunks: Vec<Chunk>) -> (r: Text)
        ensures
            r@ == chunks_view(chunks@),
    {
        Text { chunks }
    }

    /// The chunks of the text, in order.
    pub fn chunks(&self) -> (r: &[Chunk])
        ensures
            chunks_view(r@) == self@,
    {
        self.chunks.as_slice()
    }
}

} // verus!
