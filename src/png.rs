use vstd::prelude::*;

use crate::chunk::{
    chunk_end, decode_chunk_at, encode_chunk, lemma_decode_encoded_at, lemma_decoded_chunk_encodes, well_formed, Chunk, ChunkDecodingError, ChunkModel,
    DecodingReason,
};
use crate::chunk_type::ChunkType;

verus! {

/// The eight bytes that open every file of the format.
pub open spec fn png_signature() -> Seq<u8> {
    seq![137u8, 80u8, 78u8, 71u8, 13u8, 10u8, 26u8, 10u8]
}

/// Why a file could not be read, or a chunk not removed.
#[derive(PartialEq, Eq, Structural, Debug, Clone, Copy)]
pub enum PngError {
    /// The bytes do not open with the signature.
    InvalidSignature,
    /// A chunk failed to decode.
    BadChunk(ChunkDecodingError),
    /// No chunk has the requested type.
    ChunkNotFound,
}

/// The encoding of a sequence of chunks, one after the other.
pub open spec fn encode_chunks(cs: Seq<ChunkModel>) -> Seq<u8>
    decreases cs.len(),
{
    if cs.len() == 0 {
        Seq::empty()
    } else {
        encode_chunk(cs[0].0, cs[0].1) + encode_chunks(cs.drop_first())
    }
}

/// Puts `first` before the chunks of a successful decoding; passes an error on.
pub open spec fn prepend(first: Seq<ChunkModel>, r: Result<Seq<ChunkModel>, DecodingReason>) -> Result<
    Seq<ChunkModel>,
    DecodingReason,
> {
    match r {
        Ok(rest) => Ok(first + rest),
        Err(e) => Err(e),
    }
}

/// What decoding the chunks from index `i` of `b` to its end gives.
pub open spec fn parse_chunks(b: Seq<u8>, i: int) -> Result<Seq<ChunkModel>, DecodingReason>
    decreases b.len() - i,
{
    if i >= b.len() {
        Ok(Seq::empty())
    } else {
        match decode_chunk_at(b, i) {
            Ok(c) => prepend(seq![c], parse_chunks(b, chunk_end(b, i))),
            Err(e) => Err(e),
        }
    }
}

/// What reading a whole file gives: the signature, then chunks up to the last byte.
pub open spec fn parse_png(b: Seq<u8>) -> Result<Seq<ChunkModel>, PngError> {
    if b.len() < 8 || b.subrange(0, 8) != png_signature() {
        Err(PngError::InvalidSignature)
    } else {
        match parse_chunks(b, 8) {
            Ok(cs) => Ok(cs),
            Err(e) => Err(PngError::BadChunk(ChunkDecodingError { reason: e })),
        }
    }
}

/// The chunk at index `k` is the first one of type `ty`.
pub open spec fn is_first_of_type(cs: Seq<ChunkModel>, ty: Seq<u8>, k: int) -> bool {
    0 <= k < cs.len() && cs[k].0 == ty && forall|j: int| 0 <= j < k ==> #[trigger] cs[j].0 != ty
}

/// Some chunk has type `ty`.
pub open spec fn has_type(cs: Seq<ChunkModel>, ty: Seq<u8>) -> bool {
    exists|k: int| 0 <= k < cs.len() && #[trigger] cs[k].0 == ty
}

/// The views of a vector of chunks.
pub open spec fn chunk_models(v: Seq<Chunk>) -> Seq<ChunkModel> {
    v.map_values(|c: Chunk| c@)
}

/// The chunks decoded from index `i` of `b`, encoded again, are the bytes from `i` on.
pub proof fn lemma_parse_chunks_encode(b: Seq<u8>, i: int)
    requires
        0 <= i <= b.len(),
        parse_chunks(b, i) is Ok,
    ensures
        encode_chunks(parse_chunks(b, i)->Ok_0) == b.subrange(i, b.len() as int),
    decreases b.len() - i,
{
    if i >= b.len() {
        assert(b.subrange(i, b.len() as int) =~= Seq::<u8>::empty());
    } else {
        let c = decode_chunk_at(b, i)->Ok_0;
        let end = chunk_end(b, i);
        lemma_decoded_chunk_encodes(b, i);
        lemma_parse_chunks_encode(b, end);
        let rest = parse_chunks(b, end)->Ok_0;
        let cs = parse_chunks(b, i)->Ok_0;
        assert(cs == seq![c] + rest);
        assert(cs.drop_first() =~= rest);
        assert(b.subrange(i, b.len() as int) =~= b.subrange(i, end) + b.subrange(
            end,
            b.len() as int,
        ));
    }
}

/// Where the encodings of well-formed chunks fill `b` from index `i` to its end, the chunks
/// decode from there, in order.
pub proof fn lemma_parse_encoded_chunks(b: Seq<u8>, i: int, cs: Seq<ChunkModel>)
    requires
        0 <= i <= b.len(),
        forall|k: int| 0 <= k < cs.len() ==> well_formed(#[trigger] cs[k]),
        b.subrange(i, b.len() as int) == encode_chunks(cs),
    ensures
        parse_chunks(b, i) == Ok::<Seq<ChunkModel>, DecodingReason>(cs),
    decreases cs.len(),
{
    if cs.len() == 0 {
        assert(b.subrange(i, b.len() as int).len() == 0);
        assert(cs =~= Seq::<ChunkModel>::empty());
    } else {
        let c = cs[0];
        let rest = cs.drop_first();
        let n = c.1.len() as int;
        assert(well_formed(c));
        let e = encode_chunk(c.0, c.1);
        assert(e.len() == 12 + n);
        assert(encode_chunks(cs) == e + encode_chunks(rest));
        assert(b.len() - i == encode_chunks(cs).len());
        assert(b.subrange(i, i + 12 + n) =~= b.subrange(i, b.len() as int).subrange(0, 12 + n));
        assert(encode_chunks(cs).subrange(0, 12 + n) =~= e);
        lemma_decode_encoded_at(b, i, c);
        assert(b.subrange(i + 12 + n, b.len() as int) =~= b.subrange(i, b.len() as int).subrange(
            12 + n,
            b.len() - i,
        ));
        assert(encode_chunks(cs).subrange(12 + n, encode_chunks(cs).len() as int)
            =~= encode_chunks(rest));
        assert forall|k: int| 0 <= k < rest.len() implies well_formed(#[trigger] rest[k]) by {
            assert(rest[k] == cs[k + 1]);
        }
        lemma_parse_encoded_chunks(b, i + 12 + n, rest);
        assert(i < b.len());
        assert(parse_chunks(b, i) == prepend(seq![c], parse_chunks(b, i + 12 + n)));
        assert(seq![c] + rest =~= cs);
    }
}

/// Writing out any well-formed chunks after the signature and reading the bytes back gives
/// the same chunks in the same order.
pub proof fn lemma_encode_then_parse(cs: Seq<ChunkModel>)
    requires
        forall|k: int| 0 <= k < cs.len() ==> well_formed(#[trigger] cs[k]),
    ensures
        parse_png(png_signature() + encode_chunks(cs)) == Ok::<Seq<ChunkModel>, PngError>(cs),
{
    let b = png_signature() + encode_chunks(cs);
    assert(b.subrange(0, 8) =~= png_signature());
    assert(b.subrange(8, b.len() as int) =~= encode_chunks(cs));
    lemma_parse_encoded_chunks(b, 8, cs);
}

/// Writing out a file that was read gives back the bytes it was read from, and reading
/// those again gives the same chunks in the same order.
pub proof fn lemma_round_trip(b: Seq<u8>)
    requires
        parse_png(b) is Ok,
    ensures
        png_signature() + encode_chunks(parse_png(b)->Ok_0) == b,
        parse_png(png_signature() + encode_chunks(parse_png(b)->Ok_0)) == parse_png(b),
{
    lemma_parse_chunks_encode(b, 8);
    assert(b =~= b.subrange(0, 8) + b.subrange(8, b.len() as int));
}

/// A chunk appended to chunks that hold none of its type is then the first of its type,
/// and taking that first one out again leaves chunks with none of its type, as before.
pub proof fn lemma_append_then_find(cs: Seq<ChunkModel>, c: ChunkModel)
    requires
        !has_type(cs, c.0),
    ensures
        has_type(cs.push(c), c.0),
        is_first_of_type(cs.push(c), c.0, cs.len() as int),
        forall|k: int| is_first_of_type(cs.push(c), c.0, k) ==> k == cs.len(),
        cs.push(c).remove(cs.len() as int) == cs,
        !has_type(cs.push(c).remove(cs.len() as int), c.0),
{
    let pushed = cs.push(c);
    assert(pushed[cs.len() as int] == c);
    assert forall|j: int| 0 <= j < cs.len() implies #[trigger] pushed[j].0 != c.0 by {
        assert(pushed[j] == cs[j]);
    }
    assert(pushed.remove(cs.len() as int) =~= cs);
}

/// The encoding of two runs of chunks, one after the other, is the encoding of the first
/// followed by that of the second.
pub proof fn lemma_encode_chunks_concat(a: Seq<ChunkModel>, b: Seq<ChunkModel>)
    ensures
        encode_chunks(a + b) == encode_chunks(a) + encode_chunks(b),
    decreases a.len(),
{
    if a.len() == 0 {
        assert(a + b =~= b);
        assert(encode_chunks(a) + encode_chunks(b) =~= encode_chunks(b));
    } else {
        assert((a + b).drop_first() =~= a.drop_first() + b);
        lemma_encode_chunks_concat(a.drop_first(), b);
        assert(encode_chunks(a + b) =~= encode_chunks(a) + encode_chunks(b));
    }
}

/// Taking out the chunk at index `k` cuts exactly its encoding out of the file's bytes.
pub proof fn lemma_remove_cuts_encoding(cs: Seq<ChunkModel>, k: int)
    requires
        0 <= k < cs.len(),
    ensures
        encode_chunks(cs) == encode_chunks(cs.subrange(0, k)) + encode_chunk(cs[k].0, cs[k].1)
            + encode_chunks(cs.subrange(k + 1, cs.len() as int)),
        encode_chunks(cs.remove(k)) == encode_chunks(cs.subrange(0, k)) + encode_chunks(
            cs.subrange(k + 1, cs.len() as int),
        ),
{
    let front = cs.subrange(0, k);
    let back = cs.subrange(k + 1, cs.len() as int);
    let mid = cs.subrange(k, cs.len() as int);
    assert(cs =~= front + mid);
    lemma_encode_chunks_concat(front, mid);
    assert(mid.drop_first() =~= back);
    assert(mid[0] == cs[k]);
    assert(cs.remove(k) =~= front + back);
    lemma_encode_chunks_concat(front, back);
    assert(encode_chunks(front) + (encode_chunk(cs[k].0, cs[k].1) + encode_chunks(back))
        =~= encode_chunks(front) + encode_chunk(cs[k].0, cs[k].1) + encode_chunks(back));
}

/// A file of the format: the signature, then an ordered sequence of chunks.
#[derive(Debug)]
pub struct Png {
    chunks: Vec<Chunk>,
}

impl View for Png {
    type V = Seq<ChunkModel>;

    closed spec fn view(&self) -> Seq<ChunkModel> {
        chunk_models(self.chunks@)
    }
}

impl Png {
    /// The signature bytes.
    pub fn signature() -> (r: [u8; 8])
        ensures
            r@ == png_signature(),
    {
        let r: [u8; 8] = [137, 80, 78, 71, 13, 10, 26, 10];
        assert(r@ =~= png_signature());
        r
    }

    /// A file holding the given chunks, in their order.
    pub fn from_chunks(chunks: Vec<Chunk>) -> (r: Png)
        ensures
            r@ == chunk_models(chunks@),
    {
        Png { chunks }
    }

    /// Reads a whole file: the signature, then chunks until the bytes are used up.
    pub fn parse(bytes: &[u8]) -> (r: Result<Png, PngError>)
        ensures
            r is Ok <==> parse_png(bytes@) is Ok,
            r is Ok ==> Ok::<Seq<ChunkModel>, PngError>(r->Ok_0@) == parse_png(bytes@),
            r is Err ==> Err::<Seq<ChunkModel>, PngError>(r->Err_0) == parse_png(bytes@),
            bytes@.len() < 8 || bytes@.subrange(0, 8) != png_signature() ==> r == Err::<
                Png,
                PngError,
            >(PngError::InvalidSignature),
    {
        let sig = Png::signature();
        if bytes.len() < 8 {
            return Err(PngError::InvalidSignature);
        }
        let mut k: usize = 0;
        while k < 8
            invariant
                k <= 8 <= bytes@.len(),
                sig@ == png_signature(),
                forall|j: int| 0 <= j < k ==> bytes@[j] == #[trigger] sig@[j],
            decreases 8 - k,
        {
            if bytes[k] != sig[k] {
                assert(bytes@.subrange(0, 8)[k as int] != png_signature()[k as int]);
                return Err(PngError::InvalidSignature);
            }
            k = k + 1;
        }
        assert(bytes@.subrange(0, 8) =~= png_signature());
        let mut chunks: Vec<Chunk> = Vec::new();
        let mut pos: usize = 8;
        while pos < bytes.len()
            invariant
                8 <= pos <= bytes@.len(),
                bytes@.subrange(0, 8) == png_signature(),
                parse_chunks(bytes@, 8) == prepend(
                    chunk_models(chunks@),
                    parse_chunks(bytes@, pos as int),
                ),
            decreases bytes@.len() - pos,
        {
            match Chunk::decode_at(bytes, pos) {
                Ok((chunk, end)) => {
                    let ghost prefix = chunk_models(chunks@);
                    let ghost c = chunk@;
                    chunks.push(chunk);
                    assert(chunk_models(chunks@) =~= prefix + seq![c]);
                    proof {
                        match parse_chunks(bytes@, end as int) {
                            Ok(rest) => {
                                assert(prefix + (seq![c] + rest) =~= (prefix + seq![c]) + rest);
                            },
                            Err(_) => {},
                        }
                    }
                    pos = end;
                },
                Err(e) => {
                    return Err(PngError::BadChunk(e));
                },
            }
        }
        assert(chunk_models(chunks@) + Seq::<ChunkModel>::empty() =~= chunk_models(chunks@));
        Ok(Png { chunks })
    }

    /// The file's bytes: the signature, then each chunk's encoding in order.
    pub fn as_bytes(&self) -> (r: Vec<u8>)
        ensures
            r@ == png_signature() + encode_chunks(self@),
    {
        let sig = Png::signature();
        let mut out: Vec<u8> = Vec::new();
        let mut k: usize = 0;
        while k < 8
            invariant
                k <= 8,
                sig@ == png_signature(),
                out@ == png_signature().subrange(0, k as int),
            decreases 8 - k,
        {
            out.push(sig[k]);
            assert(out@ =~= png_signature().subrange(0, k + 1));
            k = k + 1;
        }
        assert(out@ =~= png_signature());
        assert(self@.subrange(0, self@.len() as int) =~= self@);
        let mut i: usize = 0;
        while i < self.chunks.len()
            invariant
                i <= self.chunks@.len(),
                self@.len() == self.chunks@.len(),
                out@ + encode_chunks(self@.subrange(i as int, self@.len() as int))
                    == png_signature() + encode_chunks(self@),
            decreases self.chunks@.len() - i,
        {
            let ghost before = out@;
            let ghost rest = self@.subrange(i as int, self@.len() as int);
            self.chunks[i].write_to(&mut out);
            assert(rest.drop_first() =~= self@.subrange(i + 1, self@.len() as int));
            assert(rest[0] == self.chunks@[i as int]@);
            assert(before + encode_chunks(rest) =~= out@ + encode_chunks(rest.drop_first()));
            i = i + 1;
        }
        assert(encode_chunks(self@.subrange(i as int, self@.len() as int)) =~= Seq::<u8>::empty());
        assert(out@ =~= out@ + Seq::<u8>::empty());
        out
    }

    /// Adds `chunk` after the last chunk.
    pub fn append_chunk(&mut self, chunk: Chunk)
        ensures
            final(self)@ == old(self)@.push(chunk@),
    {
        self.chunks.push(chunk);
        assert(chunk_models(self.chunks@) =~= chunk_models(old(self).chunks@).push(chunk@));
    }

    /// Where the first chunk of type `chunk_type` stands, if one does.
    fn position_of(&self, chunk_type: &ChunkType) -> (r: Option<usize>)
        ensures
            r is None <==> !has_type(self@, chunk_type@),
            r is Some ==> is_first_of_type(self@, chunk_type@, r->Some_0 as int),
    {
        let mut i: usize = 0;
        while i < self.chunks.len()
            invariant
                i <= self.chunks@.len(),
                self@.len() == self.chunks@.len(),
                forall|j: int| 0 <= j < i ==> #[trigger] self@[j].0 != chunk_type@,
            decreases self.chunks@.len() - i,
        {
            assert(self@[i as int] == self.chunks@[i as int]@);
            if self.chunks[i].chunk_type().same_code(chunk_type) {
                return Some(i);
            }
            i = i + 1;
        }
        None
    }

    /// The first chunk of type `chunk_type`, if any.
    pub fn chunk_by_type(&self, chunk_type: ChunkType) -> (r: Option<&Chunk>)
        ensures
            r is None <==> !has_type(self@, chunk_type@),
            r is Some ==> exists|k: int|
                is_first_of_type(self@, chunk_type@, k) && #[trigger] self@[k] == r->Some_0@,
    {
        match self.position_of(&chunk_type) {
            Some(i) => {
                assert(self@[i as int] == self.chunks@[i as int]@);
                Some(&self.chunks[i])
            },
            None => None,
        }
    }

    /// Takes out the first chunk of type `chunk_type` and returns it; the others keep their order.
    pub fn remove_chunk(&mut self, chunk_type: ChunkType) -> (r: Result<Chunk, PngError>)
        ensures
            r is Err <==> !has_type(old(self)@, chunk_type@),
            r is Err ==> r->Err_0 == PngError::ChunkNotFound && final(self)@ == old(self)@,
            r is Ok ==> exists|k: int|
                is_first_of_type(old(self)@, chunk_type@, k) && #[trigger] old(self)@[k]
                    == r->Ok_0@ && final(self)@ == old(self)@.remove(k),
    {
        match self.position_of(&chunk_type) {
            Some(i) => {
                let ghost k = i as int;
                let chunk = self.chunks.remove(i);
                assert(chunk_models(self.chunks@) =~= chunk_models(old(self).chunks@).remove(k));
                assert(old(self)@[k] == chunk@);
                Ok(chunk)
            },
            None => Err(PngError::ChunkNotFound),
        }
    }

    /// The chunks, in order.
    pub fn chunks(&self) -> (r: &[Chunk])
        ensures
            chunk_models(r@) == self@,
            r@.len() == self@.len(),
    {
        self.chunks.as_slice()
    }
}

/// The trait's own result function is left unused: `try_from` below states its result, as `Png::parse` does.
impl<'a> vstd::std_specs::convert::TryFromSpecImpl<&'a [u8]> for Png {
    open spec fn obeys_try_from_spec() -> bool {
        false
    }

    closed spec fn try_from_spec(bytes: &'a [u8]) -> Result<Png, PngError> {
        arbitrary()
    }
}

impl<'a> core::convert::TryFrom<&'a [u8]> for Png {
    type Error = PngError;

    fn try_from(bytes: &'a [u8]) -> (r: Result<Png, PngError>)
        ensures
            r is Ok <==> parse_png(bytes@) is Ok,
            r is Ok ==> Ok::<Seq<ChunkModel>, PngError>(r->Ok_0@) == parse_png(bytes@),
            r is Err ==> Err::<Seq<ChunkModel>, PngError>(r->Err_0) == parse_png(bytes@),
            bytes@.len() < 8 || bytes@.subrange(0, 8) != png_signature() ==> r == Err::<
                Png,
                PngError,
            >(PngError::InvalidSignature),
    {
        Png::parse(bytes)
    }
}

} // verus!
