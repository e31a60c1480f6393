//! The four-byte type code of a chunk and the flags its bits carry.

use vstd::prelude::*;
use vstd::string::StringSliceAdditionalSpecFns;
use vstd::utf8::{decode_utf8, valid_utf8};
use crate::be::{be_bytes, be_word, lemma_be_bytes_injective, lemma_word_of_bytes, lemma_bytes_of_word};
use crate::error::PngError;

verus! {

/// `b` is an ASCII letter, `A`-`Z` or `a`-`z`.
pub open spec fn is_ascii_letter(b: u8) -> bool {
    (65 <= b && b <= 90) || (97 <= b && b <= 122)
}

/// Every byte of `t` is an ASCII letter.
pub open spec fn all_letters(t: Seq<u8>) -> bool {
    forall|i: int| 0 <= i < t.len() ==> is_ascii_letter(#[trigger] t[i])
}

/// Bit `k` of the big-endian word of the type bytes `t` is clear.
pub open spec fn bit_clear(t: Seq<u8>, k: u32) -> bool {
    (be_word(t) >> k) & 1u32 == 0
}

/// A code is valid when its bytes are letters and its reserved bit is clear.
pub open spec fn valid_code(t: Seq<u8>) -> bool {
    all_letters(t) && bit_clear(t, 13)
}

/// Among codes made of four ASCII letters, a code is valid exactly when its reserved
/// bit is clear.
pub proof fn lemma_letter_code_validity(t: Seq<u8>)
    requires
        t.len() == 4,
        all_letters(t),
    ensures
        valid_code(t) <==> bit_clear(t, 13),
{
}

/// Relies on `String::from_utf8`: it succeeds exactly on valid UTF-8, with the text the bytes encode.
#[verifier::external_body]
pub(crate) fn utf8_string(v: Vec<u8>) -> (r: Option<String>)
    ensures
        r is Some <==> valid_utf8(v@),
        r matches Some(s) ==> s@ == decode_utf8(v@),
{
    String::from_utf8(v).ok()
}

/// A chunk type: four bytes, kept as their big-endian word.
#[derive(PartialEq, Eq, Debug, Clone, Copy, Structural)]
pub struct ChunkType {
    data: u32,
}

impl View for ChunkType {
    type V = Seq<u8>;

    /// The four bytes of the code.
    closed spec fn view(&self) -> Seq<u8> {
        be_bytes(self.data)
    }
}

impl ChunkType {
    /// A code has exactly four bytes, and codes with the same bytes are equal.
    pub proof fn lemma_view(a: ChunkType, b: ChunkType)
        ensures
            a@.len() == 4,
            a@ == b@ ==> a == b,
    {
        lemma_word_of_bytes(a.data);
        lemma_be_bytes_injective(a.data, b.data);
    }

    /// The code with these bytes, letters or not.
    pub fn from_bytes(bytes: [u8; 4]) -> (r: ChunkType)
        ensures
            r@ == bytes@,
    {
        let data = crate::be::read_be_word(bytes.as_slice(), 0);
        proof {
            assert(bytes@.subrange(0, 4) =~= bytes@);
            lemma_bytes_of_word(bytes@);
        }
        ChunkType { data }
    }

    /// The code spelled by `s`, which must be exactly four ASCII letters.
    pub fn from_string(s: &str) -> (r: Result<ChunkType, PngError>)
        ensures
            r is Ok <==> s.spec_bytes().len() == 4 && all_letters(s.spec_bytes()),
            r matches Ok(t) ==> t@ == s.spec_bytes(),
            r matches Err(e) ==> e is InvalidChunkType,
            r matches Err(PngError::InvalidChunkType { given }) ==> given@ == s@,
    {
        let b = s.as_bytes();
        if b.len() != 4 {
            return Err(PngError::InvalidChunkType { given: s.to_owned() });
        }
        let mut i: usize = 0;
        while i < 4
            invariant
                b@ == s.spec_bytes(),
                b@.len() == 4,
                0 <= i <= 4,
                forall|j: int| 0 <= j < i ==> is_ascii_letter(#[trigger] b@[j]),
            decreases 4 - i,
        {
            let c = b[i];
            if !((65 <= c && c <= 90) || (97 <= c && c <= 122)) {
                assert(!is_ascii_letter(b@[i as int]));
                return Err(PngError::InvalidChunkType { given: s.to_owned() });
            }
            i = i + 1;
        }
        let t = ChunkType::from_bytes([b[0], b[1], b[2], b[3]]);
        assert(t@ =~= b@);
        Ok(t)
    }

    /// The four bytes of the code.
    pub fn bytes(&self) -> (r: [u8; 4])
        ensures
            r@ == self@,
    {
        proof { reveal(be_bytes); }
        let r = [(self.data >> 24u32) as u8, (self.data >> 16u32) as u8, (self.data >> 8u32) as u8, self.data as u8];
        assert(r@ =~= self@);
        r
    }

    /// True when every byte is an ASCII letter and the reserved bit is clear.
    pub fn is_valid(&self) -> (r: bool)
        ensures
            r == valid_code(self@),
    {
        let b = self.bytes();
        let mut i: usize = 0;
        while i < 4
            invariant
                b@ == self@,
                b@.len() == 4,
                0 <= i <= 4,
                forall|j: int| 0 <= j < i ==> is_ascii_letter(#[trigger] b@[j]),
            decreases 4 - i,
        {
            let c = b[i];
            if !((65 <= c && c <= 90) || (97 <= c && c <= 122)) {
                assert(!is_ascii_letter(b@[i as int]));
                return false;
            }
            i = i + 1;
        }
        self.is_reserved_bit_valid()
    }

    /// Critical: bit 29 of the word is clear (the first byte is upper case).
    pub fn is_critical(&self) -> (r: bool)
        ensures
            r == bit_clear(self@, 29),
    {
        proof { lemma_word_of_bytes(self.data); }
        (self.data >> 29u32) & 1 == 0
    }

    /// Public: bit 21 of the word is clear (the second byte is upper case).
    pub fn is_public(&self) -> (r: bool)
        ensures
            r == bit_clear(self@, 21),
    {
        proof { lemma_word_of_bytes(self.data); }
        (self.data >> 21u32) & 1 == 0
    }

    /// Reserved bit valid: bit 13 of the word is clear (the third byte is upper case).
    pub fn is_reserved_bit_valid(&self) -> (r: bool)
        ensures
            r == bit_clear(self@, 13),
    {
        proof { lemma_word_of_bytes(self.data); }
        (self.data >> 13u32) & 1 == 0
    }

    /// Safe to copy: bit 5 of the word is set (the fourth byte is lower case).
    pub fn is_safe_to_copy(&self) -> (r: bool)
        ensures
            r == !bit_clear(self@, 5),
    {
        proof { lemma_word_of_bytes(self.data); }
        (self.data >> 5u32) & 1 != 0
    }

    /// The code as text, or `NotUtf8` where its bytes are not UTF-8.
    pub fn to_display_string(&self) -> (r: Result<String, PngError>)
        ensures
            r is Ok <==> valid_utf8(self@),
            r matches Ok(s) ==> s@ == decode_utf8(self@),
            r matches Err(e) ==> e is NotUtf8,
    {
        let b = self.bytes();
        let v = vstd::slice::slice_to_vec(b.as_slice());
        match utf8_string(v) {
            Some(s) => Ok(s),
            None => Err(PngError::NotUtf8),
        }
    }

    /// The code as text; its bytes must be UTF-8, as those of every code read from a string are.
    pub fn to_string(&self) -> (r: String)
        requires
            valid_utf8(self@),
        ensures
            r@ == decode_utf8(self@),
    {
        match self.to_display_string() {
            Ok(s) => s,
            Err(_) => String::new(),
        }
    }
}

impl TryFrom<[u8; 4]> for ChunkType {
    type Error = PngError;

    fn try_from(value: [u8; 4]) -> (r: Result<ChunkType, PngError>)
        ensures
            r matches Ok(t) && t@ == value@,
    {
        let t = ChunkType::from_bytes(value);
        proof {
            lemma_bytes_of_word(value@);
            lemma_be_bytes_injective(t.data, be_word(value@));
        }
        Ok(t)
    }
}

impl vstd::std_specs::convert::TryFromSpecImpl<[u8; 4]> for ChunkType {
    open spec fn obeys_try_from_spec() -> bool {
        true
    }

    /// Every four bytes make a code.
    closed spec fn try_from_spec(v: [u8; 4]) -> Result<ChunkType, PngError> {
        Ok(ChunkType { data: be_word(v@) })
    }
}

impl std::str::FromStr for ChunkType {
    type Err = PngError;

    fn from_str(s: &str) -> (r: Result<ChunkType, PngError>)
        ensures
            r is Ok <==> s.spec_bytes().len() == 4 && all_letters(s.spec_bytes()),
            r matches Ok(t) ==> t@ == s.spec_bytes(),
            r matches Err(e) ==> e is InvalidChunkType,
            r matches Err(PngError::InvalidChunkType { given }) ==> given@ == s@,
    {
        ChunkType::from_string(s)
    }
}

} // verus!
