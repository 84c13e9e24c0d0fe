use vstd::prelude::*;
use vstd::utf8::*;

use crate::chunk_type::{all_letters, ChunkType};
use crate::text::utf8_to_string;

verus! {

/// The CRC-32 (ISO-HDLC, reflected polynomial 0xEDB88320) of a byte sequence.
pub uninterp spec fn crc32_iso_hdlc(bytes: Seq<u8>) -> u32;

/// Relies on `crc::Crc::<u32>::checksum` with the `CRC_32_ISO_HDLC` algorithm: the checksum
/// is a function of the bytes alone.
#[verifier::external_body]
fn crc32(bytes: &[u8]) -> (r: u32)
    ensures
        r == crc32_iso_hdlc(bytes@),
{
    crc::Crc::<u32>::new(&crc::CRC_32_ISO_HDLC).checksum(bytes)
}

/// A chunk as a value: its four type bytes and its data.
pub type ChunkModel = (Seq<u8>, Seq<u8>);

/// The four big-endian bytes of `v`.
pub open spec fn be_bytes(v: u32) -> Seq<u8> {
    seq![(v >> 24u32) as u8, (v >> 16u32) as u8, (v >> 8u32) as u8, v as u8]
}

/// The big-endian number held by the four bytes of `b` from index `i`.
pub open spec fn be_value(b: Seq<u8>, i: int) -> u32 {
    ((b[i] as u32) << 24u32) | ((b[i + 1] as u32) << 16u32) | ((b[i + 2] as u32) << 8u32) | (
    b[i + 3] as u32)
}

/// The checksum of a chunk: over its type bytes followed by its data.
pub open spec fn checksum_of(ty: Seq<u8>, data: Seq<u8>) -> u32 {
    crc32_iso_hdlc(ty + data)
}

/// The encoding of a chunk: length, type, data, checksum.
pub open spec fn encode_chunk(ty: Seq<u8>, data: Seq<u8>) -> Seq<u8> {
    be_bytes(data.len() as u32) + ty + data + be_bytes(checksum_of(ty, data))
}

/// Why bytes did not decode to a chunk.
#[derive(PartialEq, Eq, Structural, Debug, Clone, Copy)]
pub enum DecodingReason {
    /// The bytes end before the chunk that its length field announces.
    Truncated,
    /// The type bytes are not four ASCII letters.
    InvalidType,
    /// The stored checksum differs from the one computed over type and data.
    CrcMismatch { received: u32, computed: u32 },
    /// Bytes follow the chunk.
    TrailingBytes,
}

/// A chunk could not be decoded.
#[derive(PartialEq, Eq, Structural, Debug, Clone, Copy)]
pub struct ChunkDecodingError {
    pub reason: DecodingReason,
}

/// Text could not be read from a chunk's data: it is not valid UTF-8.
#[derive(PartialEq, Eq, Structural, Debug, Clone, Copy)]
pub struct TextDecodeError;

/// Where the chunk that starts at index `i` of `b` ends, by its length field.
pub open spec fn chunk_end(b: Seq<u8>, i: int) -> int {
    i + 12 + be_value(b, i)
}

/// What decoding the chunk that starts at index `i` of `b` gives; bytes after it are ignored.
pub open spec fn decode_chunk_at(b: Seq<u8>, i: int) -> Result<ChunkModel, DecodingReason> {
    if b.len() - i < 8 {
        Err(DecodingReason::Truncated)
    } else if !all_letters(b.subrange(i + 4, i + 8)) {
        Err(DecodingReason::InvalidType)
    } else if b.len() < chunk_end(b, i) {
        Err(DecodingReason::Truncated)
    } else {
        let ty = b.subrange(i + 4, i + 8);
        let data = b.subrange(i + 8, chunk_end(b, i) - 4);
        let stored = be_value(b, chunk_end(b, i) - 4);
        if stored != checksum_of(ty, data) {
            Err(DecodingReason::CrcMismatch { received: stored, computed: checksum_of(ty, data) })
        } else {
            Ok((ty, data))
        }
    }
}

/// What decoding `b` as exactly one chunk gives.
pub open spec fn decode_chunk(b: Seq<u8>) -> Result<ChunkModel, DecodingReason> {
    match decode_chunk_at(b, 0) {
        Ok(c) => if chunk_end(b, 0) == b.len() {
            Ok(c)
        } else {
            Err(DecodingReason::TrailingBytes)
        },
        Err(e) => Err(e),
    }
}

/// Reading back the four big-endian bytes of a number gives the number.
pub proof fn lemma_be_value_of_bytes(v: u32)
    ensures
        be_value(be_bytes(v), 0) == v,
{
    assert(((((v >> 24u32) as u8) as u32) << 24u32) | ((((v >> 16u32) as u8) as u32) << 16u32) | ((
    ((v >> 8u32) as u8) as u32) << 8u32) | ((v as u8) as u32) == v) by (bit_vector);
}

/// Four bytes that spell out `v` in big-endian order hold `v`.
pub proof fn lemma_be_value_at(b: Seq<u8>, i: int, v: u32)
    requires
        0 <= i,
        i + 4 <= b.len(),
        b.subrange(i, i + 4) == be_bytes(v),
    ensures
        be_value(b, i) == v,
{
    let w = be_bytes(v);
    assert(b[i] == b.subrange(i, i + 4)[0]);
    assert(b[i + 1] == b.subrange(i, i + 4)[1]);
    assert(b[i + 2] == b.subrange(i, i + 4)[2]);
    assert(b[i + 3] == b.subrange(i, i + 4)[3]);
    lemma_be_value_of_bytes(v);
}

/// Writing out the number that four bytes hold gives those bytes back.
pub proof fn lemma_be_bytes_of_value(b: Seq<u8>, i: int)
    requires
        0 <= i,
        i + 4 <= b.len(),
    ensures
        be_bytes(be_value(b, i)) == b.subrange(i, i + 4),
{
    let b0 = b[i];
    let b1 = b[i + 1];
    let b2 = b[i + 2];
    let b3 = b[i + 3];
    let v = be_value(b, i);
    assert(v == ((b0 as u32) << 24u32) | ((b1 as u32) << 16u32) | ((b2 as u32) << 8u32) | (
    b3 as u32));
    assert(((((b0 as u32) << 24u32) | ((b1 as u32) << 16u32) | ((b2 as u32) << 8u32) | (b3 as u32))
        >> 24u32) as u8 == b0) by (bit_vector);
    assert(((((b0 as u32) << 24u32) | ((b1 as u32) << 16u32) | ((b2 as u32) << 8u32) | (b3 as u32))
        >> 16u32) as u8 == b1) by (bit_vector);
    assert(((((b0 as u32) << 24u32) | ((b1 as u32) << 16u32) | ((b2 as u32) << 8u32) | (b3 as u32))
        >> 8u32) as u8 == b2) by (bit_vector);
    assert((((b0 as u32) << 24u32) | ((b1 as u32) << 16u32) | ((b2 as u32) << 8u32) | (b3 as u32))
        as u8 == b3) by (bit_vector);
    assert(be_bytes(v) =~= b.subrange(i, i + 4));
}

/// A chunk that decodes from index `i` encodes back to the bytes it was decoded from.
pub proof fn lemma_decoded_chunk_encodes(b: Seq<u8>, i: int)
    requires
        0 <= i <= b.len(),
        decode_chunk_at(b, i) is Ok,
    ensures
        i + 12 <= chunk_end(b, i) <= b.len(),
        encode_chunk(decode_chunk_at(b, i)->Ok_0.0, decode_chunk_at(b, i)->Ok_0.1) == b.subrange(
            i,
            chunk_end(b, i),
        ),
{
    let end = chunk_end(b, i);
    let ty = b.subrange(i + 4, i + 8);
    let data = b.subrange(i + 8, end - 4);
    lemma_be_bytes_of_value(b, i);
    lemma_be_bytes_of_value(b, end - 4);
    assert(data.len() as u32 == be_value(b, i));
    assert(encode_chunk(ty, data) =~= b.subrange(i, end));
}

/// A chunk with a type of four letters and a length that fits in 32 bits.
pub open spec fn well_formed(c: ChunkModel) -> bool {
    c.0.len() == 4 && all_letters(c.0) && c.1.len() <= u32::MAX
}

/// Where the encoding of a well-formed chunk stands in `b` from index `i`, the chunk
/// decodes from there and ends where its encoding does.
pub proof fn lemma_decode_encoded_at(b: Seq<u8>, i: int, c: ChunkModel)
    requires
        well_formed(c),
        0 <= i,
        i + 12 + c.1.len() <= b.len(),
        b.subrange(i, i + 12 + c.1.len()) == encode_chunk(c.0, c.1),
    ensures
        decode_chunk_at(b, i) == Ok::<ChunkModel, DecodingReason>(c),
        chunk_end(b, i) == i + 12 + c.1.len(),
{
    let (ty, data) = c;
    let n = data.len() as int;
    let e = encode_chunk(ty, data);
    assert(b.subrange(i, i + 4) =~= e.subrange(0, 4));
    assert(e.subrange(0, 4) =~= be_bytes(n as u32));
    lemma_be_value_at(b, i, n as u32);
    assert(b.subrange(i + 4, i + 8) =~= e.subrange(4, 8));
    assert(e.subrange(4, 8) =~= ty);
    assert(b.subrange(i + 8, i + 8 + n) =~= e.subrange(8, 8 + n));
    assert(e.subrange(8, 8 + n) =~= data);
    assert(b.subrange(i + 8 + n, i + 12 + n) =~= e.subrange(8 + n, 12 + n));
    assert(e.subrange(8 + n, 12 + n) =~= be_bytes(checksum_of(ty, data)));
    lemma_be_value_at(b, i + 8 + n, checksum_of(ty, data));
}

/// Decoding the encoding of a chunk gives the same type and data back, and so the same
/// checksum.
pub proof fn lemma_decode_encode(ty: Seq<u8>, data: Seq<u8>)
    requires
        ty.len() == 4,
        all_letters(ty),
        data.len() <= u32::MAX,
    ensures
        decode_chunk(encode_chunk(ty, data)) == Ok::<ChunkModel, DecodingReason>((ty, data)),
        checksum_of(decode_chunk(encode_chunk(ty, data))->Ok_0.0, decode_chunk(encode_chunk(ty, data))->Ok_0.1)
            == checksum_of(ty, data),
{
    let b = encode_chunk(ty, data);
    let n = data.len() as int;
    assert(b.subrange(0, 4) =~= be_bytes(data.len() as u32));
    lemma_be_value_at(b, 0, data.len() as u32);
    assert(b.subrange(4, 8) =~= ty);
    assert(b.subrange(8, 8 + n) =~= data);
    assert(b.subrange(8 + n, 12 + n) =~= be_bytes(checksum_of(ty, data)));
    lemma_be_value_at(b, 8 + n, checksum_of(ty, data));
}

/// Changing any one bit of the stored checksum of an encoded chunk makes decoding fail
/// with a checksum mismatch.
#[verifier::rlimit(50)]
pub proof fn lemma_checksum_bit_flip_detected(ty: Seq<u8>, data: Seq<u8>, p: int, bit: u8)
    requires
        ty.len() == 4,
        all_letters(ty),
        data.len() <= u32::MAX,
        data.len() + 8 <= p < data.len() + 12,
        bit < 8,
    ensures
        ({
            let b = encode_chunk(ty, data);
            let flipped = b.update(p, b[p] ^ (1u8 << bit));
            decode_chunk(flipped) is Err && decode_chunk(flipped)->Err_0 is CrcMismatch
        }),
{
    let b = encode_chunk(ty, data);
    let x = b[p];
    let flipped = b.update(p, x ^ (1u8 << bit));
    let n = data.len() as int;
    assert(x ^ (1u8 << bit) != x) by (bit_vector)
        requires
            bit < 8,
    ;
    assert(b.len() == n + 12);
    assert(flipped.len() == n + 12);
    assert(b.subrange(0, 4) =~= be_bytes(data.len() as u32));
    assert(flipped.subrange(0, 4) =~= be_bytes(data.len() as u32));
    lemma_be_value_at(flipped, 0, data.len() as u32);
    assert(chunk_end(flipped, 0) == n + 12);
    assert(flipped.subrange(4, 8) =~= ty);
    assert(flipped.subrange(8, 8 + n) =~= data);
    lemma_be_bytes_of_value(flipped, 8 + n);
    assert(b.subrange(8 + n, 12 + n) =~= be_bytes(checksum_of(ty, data)));
    assert(flipped.subrange(8 + n, 12 + n)[p - 8 - n] != b.subrange(8 + n, 12 + n)[p - 8 - n]);
    assert(be_value(flipped, 8 + n) != checksum_of(ty, data));
    assert(decode_chunk_at(flipped, 0) is Err);
}

/// A typed record of data; its checksum is always computed from type and data.
#[derive(Debug)]
pub struct Chunk {
    chunk_type: ChunkType,
    data: Vec<u8>,
}

impl View for Chunk {
    type V = ChunkModel;

    closed spec fn view(&self) -> ChunkModel {
        (self.chunk_type@, self.data@)
    }
}

/// Reads the big-endian number in the four bytes of `b` from index `i`.
fn read_be_u32(b: &[u8], i: usize) -> (r: u32)
    requires
        i + 4 <= b@.len(),
    ensures
        r == be_value(b@, i as int),
{
    ((b[i] as u32) << 24u32) | ((b[i + 1] as u32) << 16u32) | ((b[i + 2] as u32) << 8u32) | (b[i
        + 3] as u32)
}

/// Appends the four big-endian bytes of `v` to `out`.
fn push_be_u32(out: &mut Vec<u8>, v: u32)
    ensures
        final(out)@ == old(out)@ + be_bytes(v),
{
    out.push((v >> 24u32) as u8);
    out.push((v >> 16u32) as u8);
    out.push((v >> 8u32) as u8);
    out.push(v as u8);
    assert(final(out)@ =~= old(out)@ + be_bytes(v));
}

impl Chunk {
    #[verifier::type_invariant]
    spec fn length_fits(self) -> bool {
        self.data@.len() <= u32::MAX
    }

    /// A chunk of the given type and data.
    pub fn new(chunk_type: ChunkType, data: Vec<u8>) -> (r: Chunk)
        requires
            data@.len() <= u32::MAX,
        ensures
            r@ == (chunk_type@, data@),
    {
        Chunk { chunk_type, data }
    }

    /// The number of data bytes.
    pub fn length(&self) -> (r: u32)
        ensures
            r == self@.1.len(),
    {
        proof {
            use_type_invariant(self);
        }
        self.data.len() as u32
    }

    /// The chunk's type.
    pub fn chunk_type(&self) -> (r: &ChunkType)
        ensures
            r@ == self@.0,
    {
        &self.chunk_type
    }

    /// The chunk's data.
    pub fn data(&self) -> (r: &[u8])
        ensures
            r@ == self@.1,
    {
        self.data.as_slice()
    }

    /// The checksum over the type bytes followed by the data, computed anew on each call.
    pub fn crc(&self) -> (r: u32)
        ensures
            r == checksum_of(self@.0, self@.1),
    {
        let code = self.chunk_type.bytes();
        let mut covered: Vec<u8> = Vec::new();
        covered.push(code[0]);
        covered.push(code[1]);
        covered.push(code[2]);
        covered.push(code[3]);
        let mut i: usize = 0;
        while i < self.data.len()
            invariant
                i <= self.data@.len(),
                covered@ == code@ + self.data@.subrange(0, i as int),
            decreases self.data@.len() - i,
        {
            covered.push(self.data[i]);
            assert(covered@ =~= code@ + self.data@.subrange(0, i + 1));
            i = i + 1;
        }
        assert(covered@ =~= self@.0 + self@.1);
        crc32(covered.as_slice())
    }

    /// The data read as UTF-8 text; fails unless it is valid UTF-8.
    pub fn data_as_string(&self) -> (r: Result<String, TextDecodeError>)
        ensures
            r is Ok <==> valid_utf8(self@.1),
            r is Ok ==> r->Ok_0@ == decode_utf8(self@.1),
    {
        match utf8_to_string(self.data.clone()) {
            Some(s) => Ok(s),
            None => Err(TextDecodeError),
        }
    }

    /// The chunk's encoding: length, type, data and checksum, numbers big-endian.
    pub fn as_bytes(&self) -> (r: Vec<u8>)
        ensures
            r@ == encode_chunk(self@.0, self@.1),
            well_formed(self@),
    {
        let mut out: Vec<u8> = Vec::new();
        self.write_to(&mut out);
        assert(out@ =~= encode_chunk(self@.0, self@.1));
        out
    }

    /// Appends the chunk's encoding to `out`.
    pub fn write_to(&self, out: &mut Vec<u8>)
        ensures
            final(out)@ == old(out)@ + encode_chunk(self@.0, self@.1),
            well_formed(self@),
    {
        proof {
            use_type_invariant(self);
        }
        push_be_u32(out, self.data.len() as u32);
        let code = self.chunk_type.bytes();
        out.push(code[0]);
        out.push(code[1]);
        out.push(code[2]);
        out.push(code[3]);
        let ghost before = out@;
        let mut i: usize = 0;
        while i < self.data.len()
            invariant
                i <= self.data@.len(),
                out@ == before + self.data@.subrange(0, i as int),
            decreases self.data@.len() - i,
        {
            out.push(self.data[i]);
            assert(out@ =~= before + self.data@.subrange(0, i + 1));
            i = i + 1;
        }
        let crc = self.crc();
        push_be_u32(out, crc);
        assert(code@ =~= seq![code@[0], code@[1], code@[2], code@[3]]);
        assert(final(out)@ =~= old(out)@ + encode_chunk(self@.0, self@.1));
    }

    /// Decodes the chunk that starts at index `start` of `bytes`, and says where it ends.
    pub fn decode_at(bytes: &[u8], start: usize) -> (r: Result<(Chunk, usize), ChunkDecodingError>)
        requires
            start <= bytes@.len(),
        ensures
            r is Ok <==> decode_chunk_at(bytes@, start as int) is Ok,
            r is Ok ==> Ok::<ChunkModel, DecodingReason>(r->Ok_0.0@) == decode_chunk_at(
                bytes@,
                start as int,
            ) && r->Ok_0.1 == chunk_end(bytes@, start as int) && r->Ok_0.1 <= bytes@.len(),
            r is Err ==> Err::<ChunkModel, DecodingReason>(r->Err_0.reason) == decode_chunk_at(
                bytes@,
                start as int,
            ),
    {
        let remaining = bytes.len() - start;
        if remaining < 8 {
            return Err(ChunkDecodingError { reason: DecodingReason::Truncated });
        }
        let length = read_be_u32(bytes, start);
        let code: [u8; 4] = [bytes[start + 4], bytes[start + 5], bytes[start + 6], bytes[start + 7]];
        assert(code@ =~= bytes@.subrange(start + 4, start + 8));
        let chunk_type = match ChunkType::from_bytes(code) {
            Ok(t) => t,
            Err(_) => return Err(ChunkDecodingError { reason: DecodingReason::InvalidType }),
        };
        if remaining < 12 || remaining - 12 < length as usize {
            return Err(ChunkDecodingError { reason: DecodingReason::Truncated });
        }
        let data_end = start + 8 + length as usize;
        let mut data: Vec<u8> = Vec::new();
        let mut i: usize = start + 8;
        while i < data_end
            invariant
                start + 8 <= i <= data_end,
                data_end + 4 <= bytes@.len(),
                data@ == bytes@.subrange(start + 8, i as int),
            decreases data_end - i,
        {
            data.push(bytes[i]);
            assert(data@ =~= bytes@.subrange(start + 8, i + 1));
            i = i + 1;
        }
        let stored = read_be_u32(bytes, data_end);
        let chunk = Chunk::new(chunk_type, data);
        let computed = chunk.crc();
        if stored != computed {
            return Err(
                ChunkDecodingError {
                    reason: DecodingReason::CrcMismatch { received: stored, computed },
                },
            );
        }
        Ok((chunk, data_end + 4))
    }

    /// Decodes `bytes` as exactly one chunk: length, type, data and checksum, nothing after.
    pub fn from_bytes(bytes: &[u8]) -> (r: Result<Chunk, ChunkDecodingError>)
        ensures
            r is Ok <==> decode_chunk(bytes@) is Ok,
            r is Ok ==> Ok::<ChunkModel, DecodingReason>(r->Ok_0@) == decode_chunk(bytes@),
            r is Err ==> Err::<ChunkModel, DecodingReason>(r->Err_0.reason) == decode_chunk(
                bytes@,
            ),
    {
        match Chunk::decode_at(bytes, 0) {
            Ok((chunk, end)) => if end == bytes.len() {
                Ok(chunk)
            } else {
                Err(ChunkDecodingError { reason: DecodingReason::TrailingBytes })
            },
            Err(e) => Err(e),
        }
    }
}

/// The trait's own result function is left unused: `try_from` below states its result, as `Chunk::from_bytes` does.
impl<'a> vstd::std_specs::convert::TryFromSpecImpl<&'a [u8]> for Chunk {
    open spec fn obeys_try_from_spec() -> bool {
        false
    }

    closed spec fn try_from_spec(bytes: &'a [u8]) -> Result<Chunk, ChunkDecodingError> {
        arbitrary()
    }
}

impl<'a> core::convert::TryFrom<&'a [u8]> for Chunk {
    type Error = ChunkDecodingError;

    fn try_from(bytes: &'a [u8]) -> (r: Result<Chunk, ChunkDecodingError>)
        ensures
            r is Ok <==> decode_chunk(bytes@) is Ok,
            r is Ok ==> Ok::<ChunkModel, DecodingReason>(r->Ok_0@) == decode_chunk(bytes@),
            r is Err ==> Err::<ChunkModel, DecodingReason>(r->Err_0.reason) == decode_chunk(
                bytes@,
            ),
    {
        Chunk::from_bytes(bytes)
    }
}

} // verus!
