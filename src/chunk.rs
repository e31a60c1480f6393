//! One chunk: a length, a type code, a payload and a checksum over type and payload.

use vstd::prelude::*;
use vstd::string::StringExecFns;
use vstd::slice::{slice_subrange, slice_to_vec};
use vstd::utf8::{decode_utf8, valid_utf8};
use crate::be::{be_bytes, be_word, lemma_word_of_bytes, push_be_word, read_be_word};
use crate::chunk_type::{utf8_string, ChunkType};
use crate::error::PngError;

verus! {

/// The CRC-32/ISO-HDLC checksum of `bytes`.
pub uninterp spec fn crc32_iso_hdlc(bytes: Seq<u8>) -> u32;

/// Relies on crc's `Crc::<u32>::checksum` under the `CRC_32_ISO_HDLC` algorithm:
/// the checksum is a function of the bytes alone.
#[verifier::external_body]
fn checksum(bytes: &[u8]) -> (r: u32)
    ensures
        r == crc32_iso_hdlc(bytes@),
{
    crc::Crc::<u32>::new(&crc::CRC_32_ISO_HDLC).checksum(bytes)
}

/// The wire form of a chunk with type bytes `t` and payload `d`: length, type,
/// payload and checksum, the two words big-endian.
pub open spec fn chunk_wire(t: Seq<u8>, d: Seq<u8>) -> Seq<u8> {
    be_bytes(d.len() as u32) + t + d + be_bytes(crc32_iso_hdlc(t + d))
}

/// A chunk model that can be written: four type bytes and a payload whose
/// length fits in the 32-bit length field.
pub open spec fn chunk_model_ok(m: (Seq<u8>, Seq<u8>)) -> bool {
    m.0.len() == 4 && m.1.len() <= u32::MAX
}

/// The payload length that the first four bytes of `b` declare.
pub open spec fn declared_len(b: Seq<u8>) -> int {
    be_word(b.subrange(0, 4)) as int
}

/// The number of bytes the chunk at the start of `b` spans.
pub open spec fn frame_len(b: Seq<u8>) -> int {
    12 + declared_len(b)
}

/// `b` holds every byte that the chunk at its start declares.
pub open spec fn frame_complete(b: Seq<u8>) -> bool {
    b.len() >= 12 && b.len() >= frame_len(b)
}

/// The type bytes of the chunk at the start of `b`.
pub open spec fn frame_type(b: Seq<u8>) -> Seq<u8> {
    b.subrange(4, 8)
}

/// The payload of the chunk at the start of `b`.
pub open spec fn frame_payload(b: Seq<u8>) -> Seq<u8> {
    b.subrange(8, 8 + declared_len(b))
}

/// The checksum stored after the payload of the chunk at the start of `b`.
pub open spec fn frame_stored_crc(b: Seq<u8>) -> u32 {
    be_word(b.subrange(8 + declared_len(b), 12 + declared_len(b)))
}

/// The stored checksum of the chunk at the start of `b` matches its type and payload.
pub open spec fn frame_crc_ok(b: Seq<u8>) -> bool {
    frame_stored_crc(b) == crc32_iso_hdlc(frame_type(b) + frame_payload(b))
}

/// The byte count a truncation error reports as needed for `b`.
pub open spec fn needed_for(b: Seq<u8>) -> int {
    if b.len() >= 4 { frame_len(b) } else { 12 }
}

/// A written chunk, followed by any bytes, reads back as that chunk and ends where
/// its wire form ends.
pub proof fn lemma_frame_of_wire(t: Seq<u8>, d: Seq<u8>, rest: Seq<u8>)
    requires
        chunk_model_ok((t, d)),
    ensures
        ({
            let b = chunk_wire(t, d) + rest;
            &&& frame_complete(b)
            &&& frame_crc_ok(b)
            &&& frame_type(b) == t
            &&& frame_payload(b) == d
            &&& frame_len(b) == chunk_wire(t, d).len()
            &&& b.subrange(frame_len(b), b.len() as int) == rest
        }),
{
    let w = chunk_wire(t, d);
    let b = w + rest;
    let c = crc32_iso_hdlc(t + d);
    lemma_word_of_bytes(d.len() as u32);
    lemma_word_of_bytes(c);
    assert(b.subrange(0, 4) =~= be_bytes(d.len() as u32));
    assert(declared_len(b) == d.len());
    assert(frame_type(b) =~= t);
    assert(frame_payload(b) =~= d);
    assert(b.subrange(8 + d.len() as int, 12 + d.len() as int) =~= be_bytes(c));
    assert(b.subrange(frame_len(b), b.len() as int) =~= rest);
}

/// A chunk that reads correctly from the start of `b` was written as `b`'s first
/// `frame_len(b)` bytes.
pub proof fn lemma_wire_of_frame(b: Seq<u8>)
    requires
        frame_complete(b),
        frame_crc_ok(b),
    ensures
        chunk_wire(frame_type(b), frame_payload(b)) == b.subrange(0, frame_len(b)),
        chunk_model_ok((frame_type(b), frame_payload(b))),
{
    let l = declared_len(b);
    crate::be::lemma_bytes_of_word(b.subrange(0, 4));
    crate::be::lemma_bytes_of_word(b.subrange(8 + l, 12 + l));
    assert(frame_payload(b).len() == l);
    assert((l as u32) as int == l);
    assert(chunk_wire(frame_type(b), frame_payload(b)) =~= b.subrange(0, frame_len(b)));
}

/// Every strict prefix of a written chunk is refused as cut short.
pub proof fn lemma_prefix_truncated(t: Seq<u8>, d: Seq<u8>, k: int)
    requires
        chunk_model_ok((t, d)),
        0 <= k < chunk_wire(t, d).len(),
    ensures
        !frame_complete(chunk_wire(t, d).subrange(0, k)),
{
    let w = chunk_wire(t, d);
    let p = w.subrange(0, k);
    lemma_frame_of_wire(t, d, Seq::empty());
    assert(w + Seq::<u8>::empty() =~= w);
    if k >= 12 {
        assert(p.subrange(0, 4) =~= w.subrange(0, 4));
    }
}

/// A written chunk whose type or payload bytes were then changed, leaving the length,
/// is refused with a checksum mismatch whenever the changed bytes have another
/// checksum than the original ones.
pub proof fn lemma_changed_content_detected(t: Seq<u8>, d: Seq<u8>, t2: Seq<u8>, d2: Seq<u8>)
    requires
        chunk_model_ok((t, d)),
        t2.len() == 4,
        d2.len() == d.len(),
        crc32_iso_hdlc(t2 + d2) != crc32_iso_hdlc(t + d),
    ensures
        ({
            let b = be_bytes(d.len() as u32) + t2 + d2 + be_bytes(crc32_iso_hdlc(t + d));
            frame_complete(b) && !frame_crc_ok(b)
        }),
{
    let b = be_bytes(d.len() as u32) + t2 + d2 + be_bytes(crc32_iso_hdlc(t + d));
    lemma_frame_of_wire(t2, d2, Seq::empty());
    lemma_word_of_bytes(crc32_iso_hdlc(t + d));
    lemma_word_of_bytes(d.len() as u32);
    assert(b.subrange(0, 4) =~= be_bytes(d.len() as u32));
    assert(frame_type(b) =~= t2);
    assert(frame_payload(b) =~= d2);
    assert(b.subrange(8 + d.len() as int, 12 + d.len() as int) =~= be_bytes(crc32_iso_hdlc(t + d)));
}

/// The decimal digits of `n`, most significant first.
pub open spec fn decimal(n: nat) -> Seq<char>
    decreases n,
{
    if n < 10 {
        seq![(48 + n) as char]
    } else {
        decimal(n / 10) + seq![(48 + n % 10) as char]
    }
}

/// The one-character text of the digit `d`.
fn digit_text(d: u32) -> (r: &'static str)
    requires
        d < 10,
    ensures
        r@ == seq![(48 + d) as char],
{
    proof {
        reveal_strlit("0");
        reveal_strlit("1");
        reveal_strlit("2");
        reveal_strlit("3");
        reveal_strlit("4");
        reveal_strlit("5");
        reveal_strlit("6");
        reveal_strlit("7");
        reveal_strlit("8");
        reveal_strlit("9");
    }
    let r = if d == 0 {
        "0"
    } else if d == 1 {
        "1"
    } else if d == 2 {
        "2"
    } else if d == 3 {
        "3"
    } else if d == 4 {
        "4"
    } else if d == 5 {
        "5"
    } else if d == 6 {
        "6"
    } else if d == 7 {
        "7"
    } else if d == 8 {
        "8"
    } else {
        "9"
    };
    assert(r@ =~= seq![(48 + d) as char]);
    r
}

/// Appends the decimal digits of `n` to `out`.
fn push_decimal(out: &mut String, n: u32)
    ensures
        final(out)@ == old(out)@ + decimal(n as nat),
    decreases n,
{
    if n >= 10 {
        push_decimal(out, n / 10);
    }
    out.append(digit_text(n % 10));
    assert(final(out)@ =~= old(out)@ + decimal(n as nat));
}

/// A type code and the payload it labels.
#[derive(Debug)]
pub struct Chunk {
    chunk_type: ChunkType,
    chunk_data: Vec<u8>,
}

impl View for Chunk {
    type V = (Seq<u8>, Seq<u8>);

    /// The type bytes and the payload.
    closed spec fn view(&self) -> (Seq<u8>, Seq<u8>) {
        (self.chunk_type@, self.chunk_data@)
    }
}

impl Chunk {
    #[verifier::type_invariant]
    spec fn payload_fits(&self) -> bool {
        self.chunk_data@.len() <= u32::MAX
    }

    /// The chunk with this type and payload; the payload length must fit in 32 bits.
    pub fn new(chunk_type: ChunkType, data: Vec<u8>) -> (r: Chunk)
        requires
            data@.len() <= u32::MAX,
        ensures
            r@ == (chunk_type@, data@),
    {
        Chunk { chunk_type, chunk_data: data }
    }

    /// The payload length.
    pub fn length(&self) -> (r: u32)
        ensures
            r == self@.1.len(),
    {
        proof { use_type_invariant(self); }
        self.chunk_data.len() as u32
    }

    /// The type code.
    pub fn chunk_type(&self) -> (r: &ChunkType)
        ensures
            r@ == self@.0,
            r@.len() == 4,
    {
        proof { ChunkType::lemma_view(self.chunk_type, self.chunk_type); }
        &self.chunk_type
    }

    /// The payload bytes.
    pub fn data(&self) -> (r: &[u8])
        ensures
            r@ == self@.1,
    {
        self.chunk_data.as_slice()
    }

    /// The checksum over the type bytes followed by the payload.
    pub fn crc(&self) -> (r: u32)
        ensures
            r == crc32_iso_hdlc(self@.0 + self@.1),
    {
        let t = self.chunk_type.bytes();
        let mut all: Vec<u8> = slice_to_vec(t.as_slice());
        let mut i: usize = 0;
        while i < self.chunk_data.len()
            invariant
                0 <= i <= self.chunk_data@.len(),
                all@ == self.chunk_type@ + self.chunk_data@.subrange(0, i as int),
            decreases self.chunk_data@.len() - i,
        {
            all.push(self.chunk_data[i]);
            i = i + 1;
            assert(all@ =~= self.chunk_type@ + self.chunk_data@.subrange(0, i as int));
        }
        assert(self.chunk_data@.subrange(0, i as int) =~= self.chunk_data@);
        checksum(all.as_slice())
    }

    /// The payload as text, or `NotUtf8` where it is not UTF-8.
    pub fn data_as_string(&self) -> (r: Result<String, PngError>)
        ensures
            r is Ok <==> valid_utf8(self@.1),
            r matches Ok(s) ==> s@ == decode_utf8(self@.1),
            r matches Err(e) ==> e is NotUtf8,
    {
        match utf8_string(self.chunk_data.clone()) {
            Some(s) => Ok(s),
            None => Err(PngError::NotUtf8),
        }
    }

    /// The one-line description "Chunk Type: <type>, Chunk length: <length>", or
    /// `NotUtf8` where the type bytes are not text.
    pub fn summary(&self) -> (r: Result<String, PngError>)
        ensures
            r is Ok <==> valid_utf8(self@.0),
            r matches Ok(s) ==> s@ == "Chunk Type: "@ + decode_utf8(self@.0) + ", Chunk length: "@
                + decimal(self@.1.len()),
            r matches Err(e) ==> e is NotUtf8,
    {
        proof {
            reveal_strlit("Chunk Type: ");
            reveal_strlit(", Chunk length: ");
        }
        match self.chunk_type.to_display_string() {
            Ok(t) => {
                let mut out = String::from_str("Chunk Type: ");
                out.append(t.as_str());
                out.append(", Chunk length: ");
                push_decimal(&mut out, self.length());
                Ok(out)
            },
            Err(e) => Err(e),
        }
    }

    /// The wire form: length, type, payload, checksum.
    pub fn as_bytes(&self) -> (r: Vec<u8>)
        ensures
            r@ == chunk_wire(self@.0, self@.1),
            r@.len() == 12 + self@.1.len(),
            chunk_model_ok(self@),
    {
        proof {
            use_type_invariant(self);
            ChunkType::lemma_view(self.chunk_type, self.chunk_type);
        }
        let mut out: Vec<u8> = Vec::new();
        push_be_word(&mut out, self.length());
        let t = self.chunk_type.bytes();
        let mut i: usize = 0;
        while i < 4
            invariant
                t@ == self.chunk_type@,
                t@.len() == 4,
                0 <= i <= 4,
                out@ == be_bytes(self.chunk_data@.len() as u32) + t@.subrange(0, i as int),
            decreases 4 - i,
        {
            out.push(t[i]);
            i = i + 1;
            assert(out@ =~= be_bytes(self.chunk_data@.len() as u32) + t@.subrange(0, i as int));
        }
        assert(t@.subrange(0, 4) =~= t@);
        let mut j: usize = 0;
        while j < self.chunk_data.len()
            invariant
                0 <= j <= self.chunk_data@.len(),
                out@ == be_bytes(self.chunk_data@.len() as u32) + self.chunk_type@
                    + self.chunk_data@.subrange(0, j as int),
            decreases self.chunk_data@.len() - j,
        {
            out.push(self.chunk_data[j]);
            j = j + 1;
            assert(out@ =~= be_bytes(self.chunk_data@.len() as u32) + self.chunk_type@
                + self.chunk_data@.subrange(0, j as int));
        }
        assert(self.chunk_data@.subrange(0, j as int) =~= self.chunk_data@);
        let c = self.crc();
        push_be_word(&mut out, c);
        proof {
            lemma_word_of_bytes(self.chunk_data@.len() as u32);
            lemma_word_of_bytes(c);
        }
        out
    }

    /// Reads the chunk at the start of `bytes`; bytes past its end are left alone.
    pub fn parse(bytes: &[u8]) -> (r: Result<Chunk, PngError>)
        ensures
            r is Ok <==> frame_complete(bytes@) && frame_crc_ok(bytes@),
            r matches Ok(c) ==> c@ == (frame_type(bytes@), frame_payload(bytes@)),
            r matches Ok(c) ==> chunk_model_ok(c@) && frame_len(bytes@) == 12 + c@.1.len(),
            r matches Err(e) ==> (!frame_complete(bytes@) <==> e is TruncatedInput),
            r matches Err(e) ==> (frame_complete(bytes@) <==> e is ChecksumMismatch),
            r matches Err(PngError::TruncatedInput { needed, available }) ==> needed
                == needed_for(bytes@) && available == bytes@.len(),
            r matches Err(PngError::ChecksumMismatch { stored, computed }) ==> stored
                == frame_stored_crc(bytes@) && computed == crc32_iso_hdlc(
                frame_type(bytes@) + frame_payload(bytes@),
            ),
    {
        let n = bytes.len();
        if n < 4 {
            return Err(PngError::TruncatedInput { needed: 12, available: n as u64 });
        }
        let len = read_be_word(bytes, 0);
        if n < 12 || n - 12 < len as usize {
            return Err(PngError::TruncatedInput { needed: 12 + len as u64, available: n as u64 });
        }
        let end = 8 + len as usize;
        let t = ChunkType::from_bytes([bytes[4], bytes[5], bytes[6], bytes[7]]);
        assert(t@ =~= frame_type(bytes@));
        proof { ChunkType::lemma_view(t, t); }
        let data = slice_to_vec(slice_subrange(bytes, 8, end));
        let chunk = Chunk::new(t, data);
        let stored = read_be_word(bytes, end);
        let computed = chunk.crc();
        if stored != computed {
            return Err(PngError::ChecksumMismatch { stored, computed });
        }
        Ok(chunk)
    }
}

impl<'a> TryFrom<&'a [u8]> for Chunk {
    type Error = PngError;

    fn try_from(value: &'a [u8]) -> (r: Result<Chunk, PngError>)
        ensures
            r is Ok <==> frame_complete(value@) && frame_crc_ok(value@),
            r matches Ok(c) ==> c@ == (frame_type(value@), frame_payload(value@)),
            r matches Ok(c) ==> chunk_model_ok(c@) && frame_len(value@) == 12 + c@.1.len(),
            r matches Err(e) ==> (!frame_complete(value@) <==> e is TruncatedInput),
            r matches Err(e) ==> (frame_complete(value@) <==> e is ChecksumMismatch),
            r matches Err(PngError::TruncatedInput { needed, available }) ==> needed
                == needed_for(value@) && available == value@.len(),
            r matches Err(PngError::ChecksumMismatch { stored, computed }) ==> stored
                == frame_stored_crc(value@) && computed == crc32_iso_hdlc(
                frame_type(value@) + frame_payload(value@),
            ),
    {
        Chunk::parse(value)
    }
}

impl<'a> vstd::std_specs::convert::TryFromSpecImpl<&'a [u8]> for Chunk {
    open spec fn obeys_try_from_spec() -> bool {
        false
    }

    open spec fn try_from_spec(v: &'a [u8]) -> Result<Chunk, PngError> {
        arbitrary()
    }
}

} // verus!
