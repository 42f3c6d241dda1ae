//! The container: the fixed 8-byte signature followed by an ordered list of
//! chunks. Parsing validates the signature and consumes records one after the
//! other until the buffer is exhausted; serialization is its exact inverse.

use vstd::prelude::*;

verus! {

use crate::chunk::spec_chunk_bytes;
use crate::chunk::spec_parse_record;
use crate::chunk::spec_record_framed;
use crate::chunk::spec_record_len;
use crate::chunk::lemma_chunk_model_valid;
use crate::chunk::lemma_chunk_round_trip;
use crate::chunk::lemma_record_prefix_extends;
use crate::chunk::valid_chunk_model;
use crate::chunk::Chunk;
use crate::chunk::ChunkError;
use vstd::slice::slice_subrange;

/// Why a byte buffer was rejected as a container, or a lookup failed.
#[derive(Debug, Clone, Copy, PartialEq, Eq, Structural)]
pub enum PngError {
    /// The buffer does not begin with the 8-byte signature.
    InvalidSignature,
    /// Some record failed to parse; carries the record's error.
    InvalidChunk(ChunkError),
    /// No chunk of the requested type is present.
    ChunkNotFound,
}

/// The fixed 8-byte signature that every serialized container begins with.
pub open spec fn spec_signature() -> Seq<u8> {
    seq![0x89u8, 0x50u8, 0x4eu8, 0x47u8, 0x0du8, 0x0au8, 0x1au8, 0x0au8]
}

/// What parsing a byte sequence as a record list yields: the (type, data)
/// pairs of each record in order, or the error of the first record that
/// fails. An empty sequence parses as the empty list.
pub open spec fn spec_parse_chunks(b: Seq<u8>) -> Result<Seq<(Seq<u8>, Seq<u8>)>, ChunkError>
    decreases b.len(),
{
    if b.len() == 0 {
        Ok(Seq::<(Seq<u8>, Seq<u8>)>::empty())
    } else if !spec_record_framed(b) {
        Err(ChunkError::InvalidLength)
    } else {
        match spec_parse_record(b) {
            Err(e) => Err(e),
            Ok(m) => match spec_parse_chunks(b.skip(12 + spec_record_len(b))) {
                Ok(rest) => Ok(seq![m] + rest),
                Err(e) => Err(e),
            },
        }
    }
}

/// What parsing a byte sequence as a whole container yields: the signature
/// is checked first, before any record is looked at.
pub open spec fn spec_parse_png(b: Seq<u8>) -> Result<Seq<(Seq<u8>, Seq<u8>)>, PngError> {
    if b.len() < 8 || b.take(8) != spec_signature() {
        Err(PngError::InvalidSignature)
    } else {
        match spec_parse_chunks(b.skip(8)) {
            Ok(cs) => Ok(cs),
            Err(e) => Err(PngError::InvalidChunk(e)),
        }
    }
}

/// The concatenated wire encodings of a list of records.
pub open spec fn spec_chunks_bytes(cs: Seq<(Seq<u8>, Seq<u8>)>) -> Seq<u8>
    decreases cs.len(),
{
    if cs.len() == 0 {
        Seq::<u8>::empty()
    } else {
        spec_chunk_bytes(cs[0].0, cs[0].1) + spec_chunks_bytes(cs.drop_first())
    }
}

/// The wire encoding of a whole container.
pub open spec fn spec_png_bytes(cs: Seq<(Seq<u8>, Seq<u8>)>) -> Seq<u8> {
    spec_signature() + spec_chunks_bytes(cs)
}

proof fn lemma_chunks_bytes_push(cs: Seq<(Seq<u8>, Seq<u8>)>, m: (Seq<u8>, Seq<u8>))
    ensures
        spec_chunks_bytes(cs.push(m)) == spec_chunks_bytes(cs) + spec_chunk_bytes(m.0, m.1),
    decreases cs.len(),
{
    reveal_with_fuel(spec_chunks_bytes, 2);
    if cs.len() == 0 {
        assert(cs.push(m)[0] == m);
        assert(cs.push(m).drop_first() =~= Seq::<(Seq<u8>, Seq<u8>)>::empty());
        assert(spec_chunks_bytes(cs.push(m)) =~= spec_chunk_bytes(m.0, m.1));
        assert(spec_chunks_bytes(cs) + spec_chunk_bytes(m.0, m.1) =~= spec_chunk_bytes(m.0, m.1));
    } else {
        assert(cs.push(m)[0] == cs[0]);
        assert(cs.push(m).drop_first() =~= cs.drop_first().push(m));
        lemma_chunks_bytes_push(cs.drop_first(), m);
        assert(spec_chunk_bytes(cs[0].0, cs[0].1) + (spec_chunks_bytes(cs.drop_first())
            + spec_chunk_bytes(m.0, m.1)) =~= (spec_chunk_bytes(cs[0].0, cs[0].1)
            + spec_chunks_bytes(cs.drop_first())) + spec_chunk_bytes(m.0, m.1));
    }
}

/// True when some record in `cs` has the type bytes `q`.
pub open spec fn spec_has_type(cs: Seq<(Seq<u8>, Seq<u8>)>, q: Seq<u8>) -> bool {
    exists|i: int| 0 <= i < cs.len() && (#[trigger] cs[i]).0 == q
}

/// True when `i` is the position of the first record in `cs` whose type
/// bytes are `q`.
pub open spec fn spec_first_match(cs: Seq<(Seq<u8>, Seq<u8>)>, q: Seq<u8>, i: int) -> bool {
    0 <= i < cs.len() && cs[i].0 == q && forall|k: int| 0 <= k < i ==> (#[trigger] cs[k]).0 != q
}

/// True when the chunk's type bytes are exactly `q`.
fn type_code_matches(c: &Chunk, q: &[u8]) -> (r: bool)
    ensures
        r == (c@.0 == q@),
{
    let tb = c.chunk_type().bytes();
    if q.len() != 4 {
        return false;
    }
    let r = q[0] == tb[0] && q[1] == tb[1] && q[2] == tb[2] && q[3] == tb[3];
    proof {
        if r {
            assert(q@ =~= tb@);
        } else {
            if q@ == tb@ {
                assert(q@[0] == tb@[0] && q@[1] == tb@[1] && q@[2] == tb@[2] && q@[3] == tb@[3]);
            }
        }
    }
    r
}

/// An ordered chunk container. Its mathematical value is the sequence of
/// (type bytes, data) pairs of its chunks, in on-disk order.
#[derive(Debug)]
pub struct Png {
    chunks: Vec<Chunk>,
}

impl View for Png {
    type V = Seq<(Seq<u8>, Seq<u8>)>;

    closed spec fn view(&self) -> Seq<(Seq<u8>, Seq<u8>)> {
        self.chunks@.map(|i: int, c: Chunk| c@)
    }
}

impl Png {
    /// An empty container: just the signature, no chunks.
    pub fn new() -> (r: Png)
        ensures
            r@ == Seq::<(Seq<u8>, Seq<u8>)>::empty(),
    {
        let r = Png { chunks: Vec::new() };
        proof {
            assert(r@ =~= Seq::<(Seq<u8>, Seq<u8>)>::empty());
        }
        r
    }

    /// A container holding the given chunks in order.
    pub fn from_chunks(chunks: Vec<Chunk>) -> (r: Png)
        ensures
            r@ == chunks@.map(|i: int, c: Chunk| c@),
    {
        Png { chunks }
    }

    /// The signature every serialized container begins with.
    pub fn signature() -> (r: [u8; 8])
        ensures
            r@ == spec_signature(),
    {
        let r: [u8; 8] = [0x89, 0x50, 0x4e, 0x47, 0x0d, 0x0a, 0x1a, 0x0a];
        proof {
            assert(r@ =~= spec_signature());
        }
        r
    }

    /// Parses a whole buffer: the signature first, then one record after the
    /// other until the buffer is exhausted. The parse is atomic: the first
    /// failing record fails the whole parse.
    pub fn parse(bytes: &[u8]) -> (r: Result<Png, PngError>)
        ensures
            match r {
                Ok(p) => spec_parse_png(bytes@) == Ok::<Seq<(Seq<u8>, Seq<u8>)>, PngError>(p@),
                Err(e) => spec_parse_png(bytes@) == Err::<Seq<(Seq<u8>, Seq<u8>)>, PngError>(e),
            },
    {
        if bytes.len() < 8 {
            return Err(PngError::InvalidSignature);
        }
        let sig_ok = bytes[0] == 0x89 && bytes[1] == 0x50 && bytes[2] == 0x4e && bytes[3] == 0x47
            && bytes[4] == 0x0d && bytes[5] == 0x0a && bytes[6] == 0x1a && bytes[7] == 0x0a;
        proof {
            let t = bytes@.take(8);
            assert(t[0] == bytes@[0] && t[1] == bytes@[1] && t[2] == bytes@[2] && t[3] == bytes@[3]
                && t[4] == bytes@[4] && t[5] == bytes@[5] && t[6] == bytes@[6] && t[7]
                == bytes@[7]);
            if sig_ok {
                assert(t =~= spec_signature());
            }
        }
        if !sig_ok {
            return Err(PngError::InvalidSignature);
        }
        let mut chunks: Vec<Chunk> = Vec::new();
        let mut pos: usize = 8;
        proof {
            assert(chunks@.map(|i: int, c: Chunk| c@) =~= Seq::<(Seq<u8>, Seq<u8>)>::empty());
        }
        while pos < bytes.len()
            invariant
                8 <= pos <= bytes@.len(),
                bytes@.take(8) == spec_signature(),
                spec_parse_chunks(bytes@.skip(8)) == (match spec_parse_chunks(
                    bytes@.skip(pos as int),
                ) {
                    Ok(rest) => Ok::<Seq<(Seq<u8>, Seq<u8>)>, ChunkError>(
                        chunks@.map(|i: int, c: Chunk| c@) + rest,
                    ),
                    Err(e) => Err::<Seq<(Seq<u8>, Seq<u8>)>, ChunkError>(e),
                }),
            decreases bytes@.len() - pos,
        {
            let tail = slice_subrange(bytes, pos, bytes.len());
            match Chunk::parse(tail) {
                Err(e) => {
                    proof {
                        let rb = bytes@.skip(pos as int);
                        assert(rb.len() > 0);
                        if !spec_record_framed(rb) {
                            assert(e == ChunkError::InvalidLength);
                        }
                        assert(spec_parse_chunks(rb) == Err::<
                            Seq<(Seq<u8>, Seq<u8>)>,
                            ChunkError,
                        >(e));
                    }
                    return Err(PngError::InvalidChunk(e));
                },
                Ok(c) => {
                    let l = c.length() as usize;
                    proof {
                        assert(spec_record_framed(tail@));
                        assert(l as int == spec_record_len(tail@));
                        assert(bytes@.skip(pos as int).skip(12 + l as int) =~= bytes@.skip(
                            pos as int + 12 + l as int,
                        ));
                    }
                    let ghost old_models = chunks@.map(|i: int, c0: Chunk| c0@);
                    chunks.push(c);
                    pos = pos + 12 + l;
                    proof {
                        assert(chunks@.map(|i: int, c0: Chunk| c0@) =~= old_models.push(c@));
                        if spec_parse_chunks(bytes@.skip(pos as int)) is Ok {
                            let rest = spec_parse_chunks(bytes@.skip(pos as int))->Ok_0;
                            assert(old_models + (seq![c@] + rest) =~= old_models.push(c@) + rest);
                        }
                    }
                },
            }
        }
        proof {
            assert(bytes@.skip(pos as int) =~= Seq::<u8>::empty());
            let models = chunks@.map(|i: int, c: Chunk| c@);
            assert(models + Seq::<(Seq<u8>, Seq<u8>)>::empty() =~= models);
        }
        Ok(Png { chunks })
    }

    /// The container's wire encoding: the signature followed by each chunk's
    /// encoding in list order. Exact inverse of `parse`: every chunk held
    /// here is a valid model, so `lemma_png_round_trip` applies to the
    /// result.
    pub fn as_bytes(&self) -> (r: Vec<u8>)
        ensures
            r@ == spec_png_bytes(self@),
            forall|i: int| 0 <= i < self@.len() ==> valid_chunk_model(#[trigger] self@[i]),
    {
        let mut out: Vec<u8> = Vec::new();
        out.push(0x89);
        out.push(0x50);
        out.push(0x4e);
        out.push(0x47);
        out.push(0x0d);
        out.push(0x0a);
        out.push(0x1a);
        out.push(0x0a);
        proof {
            assert(out@ =~= spec_signature());
            assert(self@.take(0) =~= Seq::<(Seq<u8>, Seq<u8>)>::empty());
        }
        let mut i: usize = 0;
        while i < self.chunks.len()
            invariant
                i <= self.chunks@.len(),
                self@.len() == self.chunks@.len(),
                out@ == spec_signature() + spec_chunks_bytes(self@.take(i as int)),
                forall|k: int| 0 <= k < i ==> valid_chunk_model(#[trigger] self@[k]),
            decreases self.chunks@.len() - i,
        {
            let c = &self.chunks[i];
            let cb = c.as_bytes();
            out.extend_from_slice(cb.as_slice());
            proof {
                use_type_invariant(c);
                lemma_chunk_model_valid(*c);
                lemma_chunks_bytes_push(self@.take(i as int), self@[i as int]);
                assert(self@.take(i + 1 as int) =~= self@.take(i as int).push(self@[i as int]));
                assert(spec_signature() + (spec_chunks_bytes(self@.take(i as int))
                    + spec_chunk_bytes(self@[i as int].0, self@[i as int].1)) =~= (spec_signature()
                    + spec_chunks_bytes(self@.take(i as int))) + spec_chunk_bytes(
                    self@[i as int].0,
                    self@[i as int].1,
                ));
            }
            i = i + 1;
        }
        proof {
            assert(self@.take(self@.len() as int) =~= self@);
        }
        out
    }

    /// Appends a chunk at the end of the list; duplicates are allowed.
    pub fn append_chunk(&mut self, chunk: Chunk)
        ensures
            final(self)@ == old(self)@.push(chunk@),
    {
        self.chunks.push(chunk);
        proof {
            assert(self@ =~= old(self)@.push(chunk@));
        }
    }

    /// The first chunk whose type code spells `type_str`, if any.
    pub fn chunk_by_type(&self, type_str: &str) -> (r: Option<&Chunk>)
        ensures
            match r {
                Some(c) => exists|i: int|
                    spec_first_match(self@, vstd::utf8::encode_utf8(type_str@), i) && c@
                        == #[trigger] self@[i],
                None => !spec_has_type(self@, vstd::utf8::encode_utf8(type_str@)),
            },
    {
        let q = type_str.as_bytes();
        let mut i: usize = 0;
        while i < self.chunks.len()
            invariant
                i <= self.chunks@.len(),
                self@.len() == self.chunks@.len(),
                q@ == vstd::utf8::encode_utf8(type_str@),
                forall|k: int| 0 <= k < i ==> (#[trigger] self@[k]).0 != q@,
            decreases self.chunks@.len() - i,
        {
            let c = &self.chunks[i];
            if type_code_matches(c, q) {
                proof {
                    assert(spec_first_match(self@, q@, i as int) && c@ == self@[i as int]);
                }
                return Some(c);
            }
            i = i + 1;
        }
        None
    }

    /// Removes and returns the first chunk whose type code spells
    /// `type_str`; fails, leaving the list unchanged, when none matches.
    pub fn remove_chunk(&mut self, type_str: &str) -> (r: Result<Chunk, PngError>)
        ensures
            (match r {
                Ok(c) => exists|i: int|
                    spec_first_match(old(self)@, vstd::utf8::encode_utf8(type_str@), i) && c@
                        == (#[trigger] old(self)@[i]) && final(self)@ == old(self)@.remove(i),
                Err(PngError::ChunkNotFound) => !spec_has_type(
                    old(self)@,
                    vstd::utf8::encode_utf8(type_str@),
                ) && final(self)@ == old(self)@,
                Err(_) => false,
            }),
    {
        let q = type_str.as_bytes();
        let mut i: usize = 0;
        while i < self.chunks.len()
            invariant
                i <= self.chunks@.len(),
                self@.len() == self.chunks@.len(),
                self.chunks@ == old(self).chunks@,
                q@ == vstd::utf8::encode_utf8(type_str@),
                forall|k: int| 0 <= k < i ==> (#[trigger] self@[k]).0 != q@,
            decreases self.chunks@.len() - i,
        {
            if type_code_matches(&self.chunks[i], q) {
                let ghost j = i as int;
                let c = self.chunks.remove(i);
                proof {
                    assert(self@ =~= old(self)@.remove(j));
                    assert(spec_first_match(old(self)@, q@, j));
                }
                return Ok(c);
            }
            i = i + 1;
        }
        Err(PngError::ChunkNotFound)
    }

    /// A read-only view of the chunk list, in on-disk order.
    pub fn chunks(&self) -> (r: &[Chunk])
        ensures
            r@.len() == self@.len(),
            forall|i: int| 0 <= i < r@.len() ==> (#[trigger] r@[i])@ == self@[i],
    {
        self.chunks.as_slice()
    }
}

proof fn lemma_parse_chunks_round_trip(cs: Seq<(Seq<u8>, Seq<u8>)>)
    requires
        forall|i: int| 0 <= i < cs.len() ==> valid_chunk_model(#[trigger] cs[i]),
    ensures
        spec_parse_chunks(spec_chunks_bytes(cs)) == Ok::<Seq<(Seq<u8>, Seq<u8>)>, ChunkError>(cs),
    decreases cs.len(),
{
    let b = spec_chunks_bytes(cs);
    if cs.len() == 0 {
        assert(b =~= Seq::<u8>::empty());
        assert(cs =~= Seq::<(Seq<u8>, Seq<u8>)>::empty());
    } else {
        let m = cs[0];
        let hb = spec_chunk_bytes(m.0, m.1);
        let rb = spec_chunks_bytes(cs.drop_first());
        lemma_chunk_round_trip(m.0, m.1);
        let l = m.1.len() as int;
        assert(spec_record_len(hb) == l);
        assert(b =~= hb + rb);
        lemma_record_prefix_extends(hb, rb);
        assert(spec_parse_record(b) == Ok::<(Seq<u8>, Seq<u8>), ChunkError>(m));
        assert(forall|i: int|
            0 <= i < cs.drop_first().len() ==> valid_chunk_model(#[trigger] cs.drop_first()[i]));
        lemma_parse_chunks_round_trip(cs.drop_first());
        assert(spec_parse_chunks(b.skip(12 + l)) == Ok::<Seq<(Seq<u8>, Seq<u8>)>, ChunkError>(
            cs.drop_first(),
        ));
        assert(spec_parse_chunks(b) == Ok::<Seq<(Seq<u8>, Seq<u8>)>, ChunkError>(
            seq![m] + cs.drop_first(),
        ));
        assert(seq![m] + cs.drop_first() =~= cs);
    }
}

/// Round trip: parsing a container's wire encoding yields the same chunk
/// list — same count, same types, same data, in the same order.
pub proof fn lemma_png_round_trip(cs: Seq<(Seq<u8>, Seq<u8>)>)
    requires
        forall|i: int| 0 <= i < cs.len() ==> valid_chunk_model(#[trigger] cs[i]),
    ensures
        spec_parse_png(spec_png_bytes(cs)) == Ok::<Seq<(Seq<u8>, Seq<u8>)>, PngError>(cs),
{
    let b = spec_png_bytes(cs);
    assert(b.take(8) =~= spec_signature());
    assert(b.skip(8) =~= spec_chunks_bytes(cs));
    lemma_parse_chunks_round_trip(cs);
}

} // verus!
