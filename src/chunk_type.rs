use vstd::prelude::*;
use vstd::string::*;
use vstd::utf8::encode_utf8;

use crate::text::{lemma_ascii_bytes_decode, utf8_to_string};

verus! {

/// `b` is one of the ASCII capitals `A`..=`Z`.
pub open spec fn is_ascii_upper(b: u8) -> bool {
    65 <= b <= 90
}

/// `b` is one of the ASCII small letters `a`..=`z`.
pub open spec fn is_ascii_lower(b: u8) -> bool {
    97 <= b <= 122
}

pub open spec fn is_ascii_letter(b: u8) -> bool {
    is_ascii_upper(b) || is_ascii_lower(b)
}

/// Every byte of `s` is an ASCII letter.
pub open spec fn all_letters(s: Seq<u8>) -> bool {
    forall|i: int| 0 <= i < s.len() ==> is_ascii_letter(#[trigger] s[i])
}

/// Bit 5 of an ASCII letter tells its case: clear for a capital, set for a small letter.
pub proof fn lemma_case_bit(b: u8)
    requires
        is_ascii_letter(b),
    ensures
        is_ascii_upper(b) <==> (b & 0x20u8 == 0),
        is_ascii_lower(b) <==> (b & 0x20u8 != 0),
{
    assert((65u8 <= b && b <= 90u8) || (97u8 <= b && b <= 122u8) ==> ((65u8 <= b && b <= 90u8)
        <==> (b & 0x20u8 == 0))) by (bit_vector);
}

/// Why a four-byte chunk type code could not be built.
#[derive(PartialEq, Eq, Structural, Debug, Clone, Copy)]
pub enum ChunkTypeError {
    /// The text did not encode to exactly four bytes; holds the length it had.
    WrongLength(usize),
    /// A byte is not an ASCII letter.
    NotAlphabetic,
}

/// A chunk type code: four ASCII letters whose cases carry the type's properties.
#[derive(Debug, Clone, Copy)]
pub struct ChunkType {
    code: [u8; 4],
}

impl View for ChunkType {
    type V = Seq<u8>;

    closed spec fn view(&self) -> Seq<u8> {
        self.code@
    }
}

/// The four characters that the bytes of a code stand for.
pub open spec fn code_chars(code: Seq<u8>) -> Seq<char> {
    Seq::new(code.len(), |i: int| code[i] as char)
}

/// What building a code from four bytes gives.
pub open spec fn chunk_type_of(bytes: Seq<u8>) -> Result<Seq<u8>, ChunkTypeError> {
    if all_letters(bytes) {
        Ok(bytes)
    } else {
        Err(ChunkTypeError::NotAlphabetic)
    }
}

/// What building a code from the UTF-8 bytes of a text gives.
pub open spec fn chunk_type_of_text(bytes: Seq<u8>) -> Result<Seq<u8>, ChunkTypeError> {
    if bytes.len() != 4 {
        Err(ChunkTypeError::WrongLength(bytes.len() as usize))
    } else {
        chunk_type_of(bytes)
    }
}

impl ChunkType {
    #[verifier::type_invariant]
    spec fn letters_only(self) -> bool {
        all_letters(self.code@)
    }

    /// Builds a code from four bytes; fails unless every byte is an ASCII letter.
    pub fn from_bytes(bytes: [u8; 4]) -> (r: Result<ChunkType, ChunkTypeError>)
        ensures
            r is Ok <==> chunk_type_of(bytes@) is Ok,
            r is Ok ==> Ok::<Seq<u8>, ChunkTypeError>(r->Ok_0@) == chunk_type_of(bytes@),
            r is Err ==> Err::<Seq<u8>, ChunkTypeError>(r->Err_0) == chunk_type_of(bytes@),
    {
        let mut i: usize = 0;
        while i < 4
            invariant
                0 <= i <= 4,
                forall|j: int| 0 <= j < i ==> is_ascii_letter(#[trigger] bytes@[j]),
            decreases 4 - i,
        {
            let b = bytes[i];
            if !((65 <= b && b <= 90) || (97 <= b && b <= 122)) {
                return Err(ChunkTypeError::NotAlphabetic);
            }
            i = i + 1;
        }
        Ok(ChunkType { code: bytes })
    }

    /// Builds a code from a text of exactly four bytes, all ASCII letters.
    pub fn from_string(s: &str) -> (r: Result<ChunkType, ChunkTypeError>)
        ensures
            r is Ok <==> chunk_type_of_text(s.spec_bytes()) is Ok,
            r is Ok ==> Ok::<Seq<u8>, ChunkTypeError>(r->Ok_0@) == chunk_type_of_text(
                s.spec_bytes(),
            ),
            r is Err ==> Err::<Seq<u8>, ChunkTypeError>(r->Err_0) == chunk_type_of_text(
                s.spec_bytes(),
            ),
    {
        let bytes = s.as_bytes();
        if bytes.len() != 4 {
            return Err(ChunkTypeError::WrongLength(bytes.len()));
        }
        let code: [u8; 4] = [bytes[0], bytes[1], bytes[2], bytes[3]];
        assert(code@ =~= bytes@);
        ChunkType::from_bytes(code)
    }

    /// The four bytes of the code.
    pub fn bytes(&self) -> (r: [u8; 4])
        ensures
            r@ == self@,
            self@.len() == 4,
            all_letters(self@),
    {
        proof {
            use_type_invariant(self);
        }
        self.code
    }

    /// The code conforms to the current format revision; the same as the reserved bit.
    pub fn is_valid(&self) -> (r: bool)
        ensures
            r == is_ascii_upper(self@[2]),
            r == (self@[2] & 0x20u8 == 0),
    {
        self.is_reserved_bit_valid()
    }

    /// The first byte is a capital.
    pub fn is_critical(&self) -> (r: bool)
        ensures
            r == is_ascii_upper(self@[0]),
            r == (self@[0] & 0x20u8 == 0),
    {
        proof {
            use_type_invariant(self);
            lemma_case_bit(self.code@[0]);
        }
        let b = self.code[0];
        65 <= b && b <= 90
    }

    /// The second byte is a capital.
    pub fn is_public(&self) -> (r: bool)
        ensures
            r == is_ascii_upper(self@[1]),
            r == (self@[1] & 0x20u8 == 0),
    {
        proof {
            use_type_invariant(self);
            lemma_case_bit(self.code@[1]);
        }
        let b = self.code[1];
        65 <= b && b <= 90
    }

    /// The third byte is a capital.
    pub fn is_reserved_bit_valid(&self) -> (r: bool)
        ensures
            r == is_ascii_upper(self@[2]),
            r == (self@[2] & 0x20u8 == 0),
    {
        proof {
            use_type_invariant(self);
            lemma_case_bit(self.code@[2]);
        }
        let b = self.code[2];
        65 <= b && b <= 90
    }

    /// The fourth byte is a small letter.
    pub fn is_safe_to_copy(&self) -> (r: bool)
        ensures
            r == is_ascii_lower(self@[3]),
            r == (self@[3] & 0x20u8 != 0),
    {
        proof {
            use_type_invariant(self);
            lemma_case_bit(self.code@[3]);
        }
        let b = self.code[3];
        97 <= b && b <= 122
    }

    /// The four letters as text.
    pub fn to_string(&self) -> (r: String)
        ensures
            r@ == code_chars(self@),
            encode_utf8(r@) == self@,
            all_letters(self@),
    {
        proof {
            use_type_invariant(self);
        }
        let bytes: Vec<u8> = vec![self.code[0], self.code[1], self.code[2], self.code[3]];
        proof {
            assert(bytes@ =~= self@);
            lemma_ascii_bytes_decode(bytes@);
        }
        match utf8_to_string(bytes) {
            Some(s) => s,
            None => String::new(),
        }
    }

    /// Two codes are equal when their four bytes are.
    pub fn same_code(&self, other: &ChunkType) -> (r: bool)
        ensures
            r == (self@ == other@),
    {
        let r = self.code[0] == other.code[0] && self.code[1] == other.code[1] && self.code[2]
            == other.code[2] && self.code[3] == other.code[3];
        proof {
            if r {
                assert(self@ =~= other@);
            }
        }
        r
    }
}

impl PartialEq for ChunkType {
    fn eq(&self, other: &ChunkType) -> (r: bool) {
        self.same_code(other)
    }
}

impl vstd::std_specs::cmp::PartialEqSpecImpl for ChunkType {
    open spec fn obeys_eq_spec() -> bool {
        true
    }

    open spec fn eq_spec(&self, other: &ChunkType) -> bool {
        self@ == other@
    }
}

impl Eq for ChunkType {

}

impl core::convert::TryFrom<[u8; 4]> for ChunkType {
    type Error = ChunkTypeError;

    fn try_from(bytes: [u8; 4]) -> (r: Result<ChunkType, ChunkTypeError>)
        ensures
            r is Ok <==> chunk_type_of(bytes@) is Ok,
            r is Ok ==> Ok::<Seq<u8>, ChunkTypeError>(r->Ok_0@) == chunk_type_of(bytes@),
            r is Err ==> Err::<Seq<u8>, ChunkTypeError>(r->Err_0) == chunk_type_of(bytes@),
    {
        let r = ChunkType::from_bytes(bytes);
        proof {
            if r is Ok {
                assert(r->Ok_0.code@ =~= bytes@);
                assert(r->Ok_0.code =~= bytes);
            }
        }
        r
    }
}

impl vstd::std_specs::convert::TryFromSpecImpl<[u8; 4]> for ChunkType {
    open spec fn obeys_try_from_spec() -> bool {
        true
    }

    closed spec fn try_from_spec(bytes: [u8; 4]) -> Result<ChunkType, ChunkTypeError> {
        if all_letters(bytes@) {
            Ok(ChunkType { code: bytes })
        } else {
            Err(ChunkTypeError::NotAlphabetic)
        }
    }
}

impl core::str::FromStr for ChunkType {
    type Err = ChunkTypeError;

    fn from_str(s: &str) -> (r: Result<ChunkType, ChunkTypeError>)
        ensures
            r is Ok <==> chunk_type_of_text(s.spec_bytes()) is Ok,
            r is Ok ==> Ok::<Seq<u8>, ChunkTypeError>(r->Ok_0@) == chunk_type_of_text(
                s.spec_bytes(),
            ),
            r is Err ==> Err::<Seq<u8>, ChunkTypeError>(r->Err_0) == chunk_type_of_text(
                s.spec_bytes(),
            ),
    {
        ChunkType::from_string(s)
    }
}

} // verus!
