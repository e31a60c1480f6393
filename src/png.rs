//! The container: the PNG signature followed by a sequence of chunks.

use vstd::prelude::*;
use vstd::slice::slice_subrange;
use vstd::utf8::{decode_utf8, valid_utf8};
use crate::chunk::{
    chunk_model_ok, chunk_wire, frame_complete, frame_crc_ok, frame_len, frame_payload,
    frame_type, lemma_frame_of_wire, lemma_wire_of_frame, Chunk,
};
use crate::error::PngError;

verus! {

/// The eight bytes every container starts with.
pub open spec fn signature() -> Seq<u8> {
    seq![137u8, 80u8, 78u8, 71u8, 13u8, 10u8, 26u8, 10u8]
}

/// `b` starts with the signature.
pub open spec fn has_signature(b: Seq<u8>) -> bool {
    b.len() >= 8 && b.subrange(0, 8) == signature()
}

/// Type bytes `t` are text that reads exactly `s`.
pub open spec fn renders_as(t: Seq<u8>, s: Seq<char>) -> bool {
    valid_utf8(t) && decode_utf8(t) == s
}

/// `i` is the position of the first chunk in `cs` whose type reads `s`.
pub open spec fn first_match(cs: Seq<(Seq<u8>, Seq<u8>)>, s: Seq<char>, i: int) -> bool {
    &&& 0 <= i < cs.len()
    &&& renders_as(cs[i].0, s)
    &&& forall|j: int| 0 <= j < i ==> !renders_as(#[trigger] cs[j].0, s)
}

/// No chunk in `cs` has a type that reads `s`.
pub open spec fn no_match(cs: Seq<(Seq<u8>, Seq<u8>)>, s: Seq<char>) -> bool {
    forall|j: int| 0 <= j < cs.len() ==> !renders_as(#[trigger] cs[j].0, s)
}

/// Every chunk model in `cs` can be written.
pub open spec fn all_models_ok(cs: Seq<(Seq<u8>, Seq<u8>)>) -> bool {
    forall|j: int| 0 <= j < cs.len() ==> chunk_model_ok(#[trigger] cs[j])
}

/// The chunks written one after another, first to last.
pub open spec fn wire_all(cs: Seq<(Seq<u8>, Seq<u8>)>) -> Seq<u8>
    decreases cs.len(),
{
    if cs.len() == 0 {
        Seq::empty()
    } else {
        chunk_wire(cs[0].0, cs[0].1) + wire_all(cs.subrange(1, cs.len() as int))
    }
}

/// The chunks read from `b` one after another until it is used up, or `None`
/// where one of them is cut short or fails its checksum.
pub open spec fn chunks_from(b: Seq<u8>) -> Option<Seq<(Seq<u8>, Seq<u8>)>>
    decreases b.len(),
{
    if b.len() == 0 {
        Some(Seq::empty())
    } else if !(frame_complete(b) && frame_crc_ok(b)) {
        None
    } else {
        match chunks_from(b.subrange(frame_len(b), b.len() as int)) {
            Some(rest) => Some(seq![(frame_type(b), frame_payload(b))] + rest),
            None => None,
        }
    }
}

/// Where reading the chunks of `b` fails, whether the first chunk that fails is cut short
/// (rather than failing its checksum).
pub open spec fn first_failure_truncated(b: Seq<u8>) -> bool
    decreases b.len(),
{
    if b.len() == 0 {
        false
    } else if !frame_complete(b) {
        true
    } else if !frame_crc_ok(b) {
        false
    } else {
        first_failure_truncated(b.subrange(frame_len(b), b.len() as int))
    }
}

/// `o`'s chunks with `m` in front of them, or `None` where `o` is.
pub open spec fn after(m: Seq<(Seq<u8>, Seq<u8>)>, o: Option<Seq<(Seq<u8>, Seq<u8>)>>) -> Option<
    Seq<(Seq<u8>, Seq<u8>)>,
> {
    match o {
        Some(rest) => Some(m + rest),
        None => None,
    }
}

/// Writing one more chunk adds its wire form at the end.
proof fn lemma_wire_all_push(cs: Seq<(Seq<u8>, Seq<u8>)>, m: (Seq<u8>, Seq<u8>))
    ensures
        wire_all(cs.push(m)) == wire_all(cs) + chunk_wire(m.0, m.1),
    decreases cs.len(),
{
    if cs.len() == 0 {
        assert(cs.push(m).subrange(1, 1) =~= Seq::<(Seq<u8>, Seq<u8>)>::empty());
        assert(cs.push(m)[0] == m);
        assert(wire_all(cs.push(m).subrange(1, 1)) == Seq::<u8>::empty());
        assert(wire_all(cs) == Seq::<u8>::empty());
        assert(wire_all(cs.push(m)) =~= wire_all(cs) + chunk_wire(m.0, m.1));
    } else {
        let tail = cs.subrange(1, cs.len() as int);
        lemma_wire_all_push(tail, m);
        assert(cs.push(m).subrange(1, cs.push(m).len() as int) =~= tail.push(m));
        assert(cs.push(m)[0] == cs[0]);
        let w0 = chunk_wire(cs[0].0, cs[0].1);
        assert(wire_all(cs.push(m)) == w0 + wire_all(tail.push(m)));
        assert(wire_all(cs) == w0 + wire_all(tail));
        assert(wire_all(cs.push(m)) =~= wire_all(cs) + chunk_wire(m.0, m.1));
    }
}

/// Chunks written one after another read back as the same chunks.
proof fn lemma_chunks_from_wire_all(cs: Seq<(Seq<u8>, Seq<u8>)>)
    requires
        all_models_ok(cs),
    ensures
        chunks_from(wire_all(cs)) == Some(cs),
    decreases cs.len(),
{
    if cs.len() == 0 {
        assert(cs =~= Seq::<(Seq<u8>, Seq<u8>)>::empty());
    } else {
        let tail = cs.subrange(1, cs.len() as int);
        assert(all_models_ok(tail)) by {
            assert forall|j: int| 0 <= j < tail.len() implies chunk_model_ok(#[trigger] tail[j]) by {
                assert(tail[j] == cs[j + 1]);
            }
        }
        lemma_chunks_from_wire_all(tail);
        assert(chunk_model_ok(cs[0]));
        lemma_frame_of_wire(cs[0].0, cs[0].1, wire_all(tail));
        assert(seq![(cs[0].0, cs[0].1)] + tail =~= cs);
    }
}

/// Bytes whose chunks all read correctly are those chunks written one after another.
proof fn lemma_wire_all_chunks_from(b: Seq<u8>)
    requires
        chunks_from(b) is Some,
    ensures
        wire_all(chunks_from(b)->Some_0) == b,
        all_models_ok(chunks_from(b)->Some_0),
    decreases b.len(),
{
    if b.len() > 0 {
        let rest = b.subrange(frame_len(b), b.len() as int);
        lemma_wire_all_chunks_from(rest);
        lemma_wire_of_frame(b);
        let cs = chunks_from(b)->Some_0;
        let m = (frame_type(b), frame_payload(b));
        assert(cs == seq![m] + chunks_from(rest)->Some_0);
        assert(cs[0] == m);
        assert(cs.subrange(1, cs.len() as int) =~= chunks_from(rest)->Some_0);
        assert(wire_all(cs) =~= b);
        assert forall|j: int| 0 <= j < cs.len() implies chunk_model_ok(#[trigger] cs[j]) by {
            if j > 0 {
                assert(cs[j] == chunks_from(rest)->Some_0[j - 1]);
            }
        }
    }
}

/// Writing a container and reading the bytes back gives the same chunks, in order.
pub proof fn lemma_round_trip(cs: Seq<(Seq<u8>, Seq<u8>)>)
    requires
        all_models_ok(cs),
    ensures
        ({
            let b = signature() + wire_all(cs);
            has_signature(b) && chunks_from(b.subrange(8, b.len() as int)) == Some(cs)
        }),
{
    let b = signature() + wire_all(cs);
    assert(b.subrange(0, 8) =~= signature());
    assert(b.subrange(8, b.len() as int) =~= wire_all(cs));
    lemma_chunks_from_wire_all(cs);
}

/// Reading a container and writing it again gives back exactly the bytes read.
pub proof fn lemma_bytes_round_trip(b: Seq<u8>)
    requires
        has_signature(b),
        chunks_from(b.subrange(8, b.len() as int)) is Some,
    ensures
        signature() + wire_all(chunks_from(b.subrange(8, b.len() as int))->Some_0) == b,
{
    lemma_wire_all_chunks_from(b.subrange(8, b.len() as int));
    assert(b.subrange(0, 8) + b.subrange(8, b.len() as int) =~= b);
}

/// Appending a chunk whose type reads `s` to chunks none of which reads `s`, then
/// removing by `s`, takes out exactly that chunk from the end and leaves the old chunks.
pub proof fn lemma_append_then_remove(
    cs: Seq<(Seq<u8>, Seq<u8>)>,
    m: (Seq<u8>, Seq<u8>),
    s: Seq<char>,
)
    requires
        renders_as(m.0, s),
        no_match(cs, s),
    ensures
        first_match(cs.push(m), s, cs.len() as int),
        forall|i: int| first_match(cs.push(m), s, i) ==> i == cs.len(),
        cs.push(m)[cs.len() as int] == m,
        cs.push(m).remove(cs.len() as int) == cs,
{
    let c2 = cs.push(m);
    assert forall|j: int| 0 <= j < cs.len() implies !renders_as(#[trigger] c2[j].0, s) by {
        assert(c2[j] == cs[j]);
    }
    assert(c2.remove(cs.len() as int) =~= cs);
}

/// A PNG container: its chunks in order.
pub struct Png {
    chunks: Vec<Chunk>,
}

impl View for Png {
    type V = Seq<(Seq<u8>, Seq<u8>)>;

    /// Each chunk's type bytes and payload, in order.
    closed spec fn view(&self) -> Seq<(Seq<u8>, Seq<u8>)> {
        self.chunks@.map_values(|c: Chunk| c@)
    }
}

/// `b` starts with the signature.
fn starts_with_signature(b: &[u8]) -> (r: bool)
    ensures
        r == has_signature(b@),
{
    if b.len() < 8 {
        return false;
    }
    let r = b[0] == 137 && b[1] == 80 && b[2] == 78 && b[3] == 71 && b[4] == 13 && b[5] == 10
        && b[6] == 26 && b[7] == 10;
    assert(r ==> b@.subrange(0, 8) =~= signature());
    assert(b@.subrange(0, 8) == signature() ==> b@.subrange(0, 8)[7] == 10u8);
    r
}

/// The type bytes `t` read exactly the text `s`.
fn type_reads(t: [u8; 4], s: &str) -> (r: bool)
    ensures
        r == renders_as(t@, s@),
{
    let k = s.as_bytes();
    proof {
        vstd::utf8::encode_utf8_valid_utf8(s@);
        vstd::utf8::encode_utf8_decode_utf8(s@);
        if valid_utf8(t@) {
            vstd::utf8::decode_utf8_encode_utf8(t@);
        }
    }
    if k.len() != 4 {
        assert(t@.len() == 4);
        return false;
    }
    let r = t[0] == k[0] && t[1] == k[1] && t[2] == k[2] && t[3] == k[3];
    assert(r ==> t@ =~= k@);
    assert(t@ == k@ ==> t@[3] == k@[3]);
    r
}

impl Png {
    /// A container holding these chunks, in this order.
    pub fn from_chunks(chunks: Vec<Chunk>) -> (r: Png)
        ensures
            r@ == chunks@.map_values(|c: Chunk| c@),
    {
        Png { chunks }
    }

    /// The chunks, in order.
    pub fn chunks(&self) -> (r: &[Chunk])
        ensures
            r@.map_values(|c: Chunk| c@) == self@,
    {
        self.chunks.as_slice()
    }

    /// Adds `chunk` after the last chunk; nothing about it is checked.
    pub fn append_chunk(&mut self, chunk: Chunk)
        ensures
            final(self)@ == old(self)@.push(chunk@),
    {
        self.chunks.push(chunk);
        assert(self.chunks@.map_values(|c: Chunk| c@) =~= old(self)@.push(chunk@));
    }
    /// The first chunk whose type reads `chunk_type`, if any.
    pub fn chunk_by_type(&self, chunk_type: &str) -> (r: Option<&Chunk>)
        ensures
            r is None <==> no_match(self@, chunk_type@),
            r matches Some(c) ==> exists|i: int| first_match(self@, chunk_type@, i) && c@ == self@[i],
    {
        let mut i: usize = 0;
        while i < self.chunks.len()
            invariant
                0 <= i <= self.chunks@.len(),
                self@ == self.chunks@.map_values(|c: Chunk| c@),
                forall|j: int| 0 <= j < i ==> !renders_as(#[trigger] self@[j].0, chunk_type@),
            decreases self.chunks@.len() - i,
        {
            let c = &self.chunks[i];
            if type_reads(c.chunk_type().bytes(), chunk_type) {
                assert(first_match(self@, chunk_type@, i as int));
                return Some(c);
            }
            i = i + 1;
        }
        None
    }

    /// Removes and returns the first chunk whose type reads `chunk_type`, keeping the
    /// others in order; `ChunkNotFound` where there is none.
    pub fn remove_chunk(&mut self, chunk_type: &str) -> (r: Result<Chunk, PngError>)
        ensures
            r is Err <==> no_match(old(self)@, chunk_type@),
            r matches Err(e) ==> e is ChunkNotFound && final(self)@ == old(self)@,
            r matches Ok(c) ==> exists|i: int|
                first_match(old(self)@, chunk_type@, i) && c@ == old(self)@[i] && final(self)@
                    == old(self)@.remove(i),
    {
        let mut i: usize = 0;
        while i < self.chunks.len()
            invariant
                0 <= i <= self.chunks@.len(),
                self@ == old(self)@,
                self@ == self.chunks@.map_values(|c: Chunk| c@),
                forall|j: int| 0 <= j < i ==> !renders_as(#[trigger] self@[j].0, chunk_type@),
            decreases self.chunks@.len() - i,
        {
            if type_reads(self.chunks[i].chunk_type().bytes(), chunk_type) {
                assert(first_match(self@, chunk_type@, i as int));
                let c = self.chunks.remove(i);
                assert(self.chunks@.map_values(|c: Chunk| c@) =~= old(self)@.remove(i as int));
                return Ok(c);
            }
            i = i + 1;
        }
        Err(PngError::ChunkNotFound { chunk_type: chunk_type.to_owned() })
    }
    /// The wire form: the signature, then each chunk's wire form in order.
    pub fn as_bytes(&self) -> (r: Vec<u8>)
        ensures
            r@ == signature() + wire_all(self@),
            all_models_ok(self@),
    {
        let mut out: Vec<u8> = Vec::new();
        out.push(137u8);
        out.push(80u8);
        out.push(78u8);
        out.push(71u8);
        out.push(13u8);
        out.push(10u8);
        out.push(26u8);
        out.push(10u8);
        assert(out@ =~= signature());
        let mut i: usize = 0;
        while i < self.chunks.len()
            invariant
                0 <= i <= self.chunks@.len(),
                self@ == self.chunks@.map_values(|c: Chunk| c@),
                out@ == signature() + wire_all(self@.subrange(0, i as int)),
                all_models_ok(self@.subrange(0, i as int)),
            decreases self.chunks@.len() - i,
        {
            let mut w = self.chunks[i].as_bytes();
            proof {
                lemma_wire_all_push(self@.subrange(0, i as int), self@[i as int]);
                assert(self@.subrange(0, i as int).push(self@[i as int]) =~= self@.subrange(
                    0,
                    i + 1,
                ));
            }
            out.append(&mut w);
            i = i + 1;
            assert(out@ =~= signature() + wire_all(self@.subrange(0, i as int)));
        }
        assert(self@.subrange(0, i as int) =~= self@);
        out
    }

    /// Reads a whole container: the signature, then chunks until the bytes are used up.
    pub fn from_bytes(bytes: &[u8]) -> (r: Result<Png, PngError>)
        ensures
            !has_signature(bytes@) ==> r matches Err(PngError::BadSignature),
            has_signature(bytes@) ==> (r is Ok <==> chunks_from(bytes@.subrange(8, bytes@.len() as int)) is Some),
            r matches Ok(p) ==> has_signature(bytes@) && chunks_from(bytes@.subrange(8, bytes@.len() as int)) == Some(p@),
            has_signature(bytes@) && r is Err ==> (r->Err_0 is TruncatedInput <==> first_failure_truncated(bytes@.subrange(8, bytes@.len() as int))),
            has_signature(bytes@) && r is Err ==> (r->Err_0 is ChecksumMismatch <==> !first_failure_truncated(bytes@.subrange(8, bytes@.len() as int))),
    {
        if !starts_with_signature(bytes) {
            return Err(PngError::BadSignature);
        }
        let n = bytes.len();
        let ghost whole = bytes@.subrange(8, n as int);
        let mut chunks: Vec<Chunk> = Vec::new();
        let mut pos: usize = 8;
        while pos < n
            invariant
                8 <= pos <= n,
                n == bytes@.len(),
                has_signature(bytes@),
                whole == bytes@.subrange(8, n as int),
                chunks_from(whole) == after(
                    chunks@.map_values(|c: Chunk| c@),
                    chunks_from(bytes@.subrange(pos as int, n as int)),
                ),
                first_failure_truncated(whole) == first_failure_truncated(
                    bytes@.subrange(pos as int, n as int),
                ),
            decreases n - pos,
        {
            let rest = slice_subrange(bytes, pos, n);
            match Chunk::parse(rest) {
                Ok(c) => {
                    let l = c.length();
                    let ghost next = pos + 12 + l;
                    proof {
                        assert(rest@.subrange(frame_len(rest@), rest@.len() as int) =~= bytes@.subrange(next, n as int));
                    }
                    let ghost m = c@;
                    let ghost before = chunks@.map_values(|c: Chunk| c@);
                    let ghost tail = chunks_from(bytes@.subrange(next, n as int));
                    assert(chunks_from(rest@) == after(seq![m], tail));
                    chunks.push(c);
                    pos = pos + 12 + l as usize;
                    proof {
                        assert(chunks@.map_values(|c: Chunk| c@) =~= before.push(m));
                        if tail is Some {
                            assert(before + (seq![m] + tail->Some_0) =~= before.push(m) + tail->Some_0);
                        }
                    }
                },
                Err(e) => {
                    return Err(e);
                },
            }
        }
        assert(bytes@.subrange(pos as int, n as int) =~= Seq::<u8>::empty());
        assert(chunks@.map_values(|c: Chunk| c@) + Seq::empty() =~= chunks@.map_values(|c: Chunk| c@));
        Ok(Png { chunks })
    }
}

} // verus!
