//! Big-endian encoding of 32-bit words.

use vstd::prelude::*;

verus! {

/// The four big-endian bytes of `w`.
#[verifier::opaque]
pub open spec fn be_bytes(w: u32) -> Seq<u8> {
    seq![(w >> 24u32) as u8, (w >> 16u32) as u8, (w >> 8u32) as u8, w as u8]
}

/// The word whose big-endian bytes are `b[0..4]`.
#[verifier::opaque]
pub open spec fn be_word(b: Seq<u8>) -> u32 {
    word_of(b[0], b[1], b[2], b[3])
}

pub open spec fn word_of(b0: u8, b1: u8, b2: u8, b3: u8) -> u32 {
    ((b0 as u32) << 24u32) | ((b1 as u32) << 16u32) | ((b2 as u32) << 8u32) | (b3 as u32)
}

proof fn lemma_word_of_parts(w: u32)
    by (bit_vector)
    ensures
        w == ((((w >> 24u32) as u8) as u32) << 24u32) | ((((w >> 16u32) as u8) as u32) << 16u32)
            | ((((w >> 8u32) as u8) as u32) << 8u32) | ((w as u8) as u32),
{
}

proof fn lemma_parts_of_word(b0: u8, b1: u8, b2: u8, b3: u8)
    by (bit_vector)
    ensures
        ((((b0 as u32) << 24u32) | ((b1 as u32) << 16u32) | ((b2 as u32) << 8u32) | (b3 as u32))
            >> 24u32) as u8 == b0,
        ((((b0 as u32) << 24u32) | ((b1 as u32) << 16u32) | ((b2 as u32) << 8u32) | (b3 as u32))
            >> 16u32) as u8 == b1,
        ((((b0 as u32) << 24u32) | ((b1 as u32) << 16u32) | ((b2 as u32) << 8u32) | (b3 as u32))
            >> 8u32) as u8 == b2,
        (((b0 as u32) << 24u32) | ((b1 as u32) << 16u32) | ((b2 as u32) << 8u32) | (b3 as u32)) as u8
            == b3,
{
}

/// Reading back the bytes of a word gives the word.
pub proof fn lemma_word_of_bytes(w: u32)
    ensures
        be_word(be_bytes(w)) == w,
        be_bytes(w).len() == 4,
{
    reveal(be_bytes);
    reveal(be_word);
    lemma_word_of_parts(w);
}

/// Writing out a word read from four bytes gives those bytes.
pub proof fn lemma_bytes_of_word(b: Seq<u8>)
    requires
        b.len() == 4,
    ensures
        be_bytes(be_word(b)) == b,
{
    reveal(be_bytes);
    reveal(be_word);
    lemma_parts_of_word(b[0], b[1], b[2], b[3]);
    assert(be_bytes(be_word(b)) =~= b);
}

/// Two words with the same bytes are equal.
pub proof fn lemma_be_bytes_injective(v: u32, w: u32)
    ensures
        be_bytes(v) == be_bytes(w) ==> v == w,
{
    lemma_word_of_bytes(v);
    lemma_word_of_bytes(w);
}

/// The word held by `b[at..at + 4]`, big-endian.
pub fn read_be_word(b: &[u8], at: usize) -> (r: u32)
    requires
        at + 4 <= b@.len(),
    ensures
        r == be_word(b@.subrange(at as int, at + 4)),
{
    reveal(be_word);
    ((b[at] as u32) << 24u32) | ((b[at + 1] as u32) << 16u32) | ((b[at + 2] as u32) << 8u32) | (
    b[at + 3] as u32)
}

/// Appends the four big-endian bytes of `w` to `out`.
pub fn push_be_word(out: &mut Vec<u8>, w: u32)
    ensures
        final(out)@ == old(out)@ + be_bytes(w),
{
    reveal(be_bytes);
    out.push((w >> 24u32) as u8);
    out.push((w >> 16u32) as u8);
    out.push((w >> 8u32) as u8);
    out.push(w as u8);
    assert(final(out)@ =~= old(out)@ + be_bytes(w));
}

} // verus!
