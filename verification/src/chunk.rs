//! One chunk record: a length-prefixed, CRC-checked pair of a 4-byte type
//! code and a data payload. The wire layout is
//! `length(4, big-endian) || type(4) || data(length) || crc(4, big-endian)`,
//! where the CRC-32 covers the type and data bytes.

use vstd::prelude::*;

verus! {

use crate::chunk_type::all_letters;
use crate::chunk_type::chars_of;
use crate::chunk_type::lemma_chunk_type_letters;
use crate::chunk_type::vec_into_string;
use crate::chunk_type::ChunkType;
use crate::chunk_type::ChunkTypeError;
use crate::crc::crc32;
use crate::crc::crc32_of_parts;
use crate::crc::lemma_crc32_one_byte_difference;
use crate::crc::spec_crc32;
use vstd::slice::slice_subrange;
use vstd::slice::slice_to_vec;
use vstd::utf8::decode_utf8;
use vstd::utf8::valid_utf8;

/// Why a byte buffer was rejected as a chunk record.
#[derive(Debug, Clone, Copy, PartialEq, Eq, Structural)]
pub enum ChunkError {
    /// Fewer than 12 bytes, or fewer data bytes than the length field claims.
    InvalidLength,
    /// The 4 type bytes are not ASCII letters.
    InvalidType(ChunkTypeError),
    /// The stored checksum does not match the one computed over type and
    /// data; carries the computed value, then the stored one.
    InvalidCrc(u32, u32),
    /// The payload is not valid UTF-8 text.
    InvalidUtf8,
}

/// The big-endian bytes of a 32-bit integer.
pub open spec fn spec_u32_to_be_bytes(x: u32) -> Seq<u8> {
    seq![
        ((x >> 24) & 0xff) as u8,
        ((x >> 16) & 0xff) as u8,
        ((x >> 8) & 0xff) as u8,
        (x & 0xff) as u8,
    ]
}

/// The 32-bit integer read from 4 big-endian bytes.
pub open spec fn spec_u32_from_be_bytes(s: Seq<u8>) -> u32
    recommends
        s.len() == 4,
{
    ((s[0] as u32) << 24) | ((s[1] as u32) << 16) | ((s[2] as u32) << 8) | (s[3] as u32)
}

pub proof fn lemma_u32_be_bytes_round_trip(x: u32)
    ensures
        spec_u32_to_be_bytes(x).len() == 4,
        spec_u32_from_be_bytes(spec_u32_to_be_bytes(x)) == x,
{
    assert((x >> 24) & 0xff < 256 && (x >> 16) & 0xff < 256 && (x >> 8) & 0xff < 256 && x & 0xff
        < 256) by (bit_vector);
    assert(x == (((x >> 24) & 0xff) << 24) | (((x >> 16) & 0xff) << 16) | (((x >> 8) & 0xff) << 8)
        | (x & 0xff)) by (bit_vector);
}

fn read_be32(s: &[u8], off: usize) -> (r: u32)
    requires
        off + 4 <= s@.len(),
    ensures
        r == spec_u32_from_be_bytes(s@.subrange(off as int, off as int + 4)),
{
    let r = ((s[off] as u32) << 24) | ((s[off + 1] as u32) << 16) | ((s[off + 2] as u32) << 8) | (
    s[off + 3] as u32);
    proof {
        let sub = s@.subrange(off as int, off as int + 4);
        assert(sub[0] == s@[off as int] && sub[1] == s@[off as int + 1] && sub[2] == s@[off as int
            + 2] && sub[3] == s@[off as int + 3]);
    }
    r
}

fn push_be32(v: &mut Vec<u8>, x: u32)
    ensures
        final(v)@ == old(v)@ + spec_u32_to_be_bytes(x),
{
    v.push(((x >> 24) & 0xff) as u8);
    v.push(((x >> 16) & 0xff) as u8);
    v.push(((x >> 8) & 0xff) as u8);
    v.push((x & 0xff) as u8);
    proof {
        assert(v@ =~= old(v)@ + spec_u32_to_be_bytes(x));
    }
}

/// The value of a record's length field.
pub open spec fn spec_record_len(b: Seq<u8>) -> int {
    spec_u32_from_be_bytes(b.subrange(0, 4)) as int
}

/// True when the buffer holds the 12 fixed bytes and as many data bytes as
/// the length field claims.
pub open spec fn spec_record_framed(b: Seq<u8>) -> bool {
    b.len() >= 12 && spec_record_len(b) + 12 <= b.len()
}

/// The record's 4 type bytes.
pub open spec fn spec_record_type(b: Seq<u8>) -> Seq<u8> {
    b.subrange(4, 8)
}

/// The record's data bytes.
pub open spec fn spec_record_data(b: Seq<u8>) -> Seq<u8> {
    b.subrange(8, 8 + spec_record_len(b))
}

/// The region the checksum covers: type bytes followed by data bytes.
pub open spec fn spec_record_body(b: Seq<u8>) -> Seq<u8> {
    b.subrange(4, 8 + spec_record_len(b))
}

/// The checksum stored in the record's trailing 4 bytes.
pub open spec fn spec_record_stored_crc(b: Seq<u8>) -> u32 {
    spec_u32_from_be_bytes(b.subrange(8 + spec_record_len(b), 12 + spec_record_len(b)))
}

/// What parsing the front of `b` as one record yields: the (type, data) pair,
/// or the first error among truncation, checksum mismatch and a malformed
/// type code. The checksum is checked before the type code, so any corruption
/// of the covered region surfaces as `InvalidCrc`.
pub open spec fn spec_parse_record(b: Seq<u8>) -> Result<(Seq<u8>, Seq<u8>), ChunkError> {
    if !spec_record_framed(b) {
        Err(ChunkError::InvalidLength)
    } else if spec_crc32(spec_record_body(b)) != spec_record_stored_crc(b) {
        Err(ChunkError::InvalidCrc(spec_crc32(spec_record_body(b)), spec_record_stored_crc(b)))
    } else if !all_letters(spec_record_type(b)) {
        Err(ChunkError::InvalidType(ChunkTypeError::InvalidCharacter))
    } else {
        Ok((spec_record_type(b), spec_record_data(b)))
    }
}

/// The wire encoding of a record with type bytes `t` and data `d`.
pub open spec fn spec_chunk_bytes(t: Seq<u8>, d: Seq<u8>) -> Seq<u8> {
    spec_u32_to_be_bytes(d.len() as u32) + t + d + spec_u32_to_be_bytes(spec_crc32(t + d))
}

/// A (type bytes, data) pair that a chunk can hold: a 4-letter type code and
/// a payload whose length fits the 32-bit length field.
pub open spec fn valid_chunk_model(m: (Seq<u8>, Seq<u8>)) -> bool {
    m.0.len() == 4 && all_letters(m.0) && m.1.len() <= 0xFFFF_FFFF
}

/// One chunk: a type code and its data payload, with the checksum over both
/// kept alongside. Its mathematical value is the pair (type bytes, data).
#[derive(Debug)]
pub struct Chunk {
    chunk_type: ChunkType,
    data: Vec<u8>,
    crc: u32,
}

impl View for Chunk {
    type V = (Seq<u8>, Seq<u8>);

    closed spec fn view(&self) -> (Seq<u8>, Seq<u8>) {
        (self.chunk_type@, self.data@)
    }
}

impl Chunk {
    /// Holds of every value of the type: the payload length fits the length
    /// field and the stored checksum is the one computed from the current
    /// type and data; it is never stale.
    #[verifier::type_invariant]
    pub closed spec fn well_formed(self) -> bool {
        self.chunk_type.well_formed() && self.data@.len() <= 0xFFFF_FFFF && self.crc == spec_crc32(
            self.chunk_type@ + self.data@,
        )
    }

    /// Builds a chunk from a type code and a payload, computing the checksum.
    pub fn new(chunk_type: ChunkType, data: Vec<u8>) -> (r: Chunk)
        requires
            data@.len() <= 0xFFFF_FFFF,
        ensures
            r@ == (chunk_type@, data@),
    {
        let type_bytes = chunk_type.bytes();
        let crc = crc32_of_parts(type_bytes.as_slice(), data.as_slice());
        proof {
            use_type_invariant(&chunk_type);
        }
        Chunk { chunk_type, data, crc }
    }

    /// Parses one record from the front of `bytes`; bytes past the record are
    /// ignored. Truncation, a checksum mismatch and a malformed type code are
    /// each reported as the error `spec_parse_record` assigns them.
    pub fn parse(bytes: &[u8]) -> (r: Result<Chunk, ChunkError>)
        ensures
            match r {
                Ok(c) => spec_parse_record(bytes@) == Ok::<(Seq<u8>, Seq<u8>), ChunkError>(c@),
                Err(e) => spec_parse_record(bytes@) == Err::<(Seq<u8>, Seq<u8>), ChunkError>(e),
            },
    {
        if bytes.len() < 12 {
            return Err(ChunkError::InvalidLength);
        }
        let len_field = read_be32(bytes, 0);
        if len_field as usize > bytes.len() - 12 {
            return Err(ChunkError::InvalidLength);
        }
        let l = len_field as usize;
        proof {
            assert(spec_record_len(bytes@) == l as int);
            assert(spec_record_framed(bytes@));
        }
        let body = slice_subrange(bytes, 4, 8 + l);
        let computed = crc32(body);
        let stored = read_be32(bytes, 8 + l);
        if computed != stored {
            return Err(ChunkError::InvalidCrc(computed, stored));
        }
        let chunk_type = match ChunkType::try_from([bytes[4], bytes[5], bytes[6], bytes[7]]) {
            Ok(t) => t,
            Err(_) => {
                proof {
                    assert(seq![bytes@[4], bytes@[5], bytes@[6], bytes@[7]] =~= spec_record_type(
                        bytes@,
                    ));
                }
                return Err(ChunkError::InvalidType(ChunkTypeError::InvalidCharacter));
            },
        };
        let data = slice_to_vec(slice_subrange(bytes, 8, 8 + l));
        proof {
            use_type_invariant(&chunk_type);
            assert(seq![bytes@[4], bytes@[5], bytes@[6], bytes@[7]] =~= spec_record_type(bytes@));
            assert(spec_record_body(bytes@) =~= spec_record_type(bytes@) + spec_record_data(
                bytes@,
            ));
        }
        Ok(Chunk { chunk_type, data, crc: computed })
    }

    /// The payload length, as stored in the record's 32-bit length field.
    pub fn length(&self) -> (r: u32)
        ensures
            r == self@.1.len(),
    {
        proof {
            use_type_invariant(&*self);
        }
        self.data.len() as u32
    }

    /// The chunk's type code.
    pub fn chunk_type(&self) -> (r: &ChunkType)
        ensures
            r@ == self@.0,
    {
        &self.chunk_type
    }

    /// A borrowed view of the payload.
    pub fn data(&self) -> (r: &[u8])
        ensures
            r@ == self@.1,
    {
        self.data.as_slice()
    }

    /// The CRC-32 checksum over the type bytes followed by the data bytes.
    pub fn crc(&self) -> (r: u32)
        ensures
            r == spec_crc32(self@.0 + self@.1),
    {
        proof {
            use_type_invariant(&*self);
        }
        self.crc
    }

    /// The payload decoded as UTF-8 text; fails on payloads that are not
    /// valid UTF-8.
    pub fn data_as_string(&self) -> (r: Result<String, ChunkError>)
        ensures
            match r {
                Ok(s) => valid_utf8(self@.1) && s@ == decode_utf8(self@.1),
                Err(ChunkError::InvalidUtf8) => !valid_utf8(self@.1),
                Err(_) => false,
            },
    {
        match vec_into_string(slice_to_vec(self.data.as_slice())) {
            Some(s) => Ok(s),
            None => Err(ChunkError::InvalidUtf8),
        }
    }

    /// The record's wire encoding; exact inverse of `parse`.
    pub fn as_bytes(&self) -> (r: Vec<u8>)
        ensures
            r@ == spec_chunk_bytes(self@.0, self@.1),
    {
        proof {
            use_type_invariant(&*self);
            use_type_invariant(&self.chunk_type);
            lemma_chunk_type_letters(self.chunk_type);
        }
        let mut out: Vec<u8> = Vec::new();
        let len = self.data.len() as u32;
        push_be32(&mut out, len);
        let type_bytes = self.chunk_type.bytes();
        out.push(type_bytes[0]);
        out.push(type_bytes[1]);
        out.push(type_bytes[2]);
        out.push(type_bytes[3]);
        proof {
            assert(out@ =~= spec_u32_to_be_bytes(len) + self@.0);
        }
        let ghost prefix = out@;
        let mut i: usize = 0;
        while i < self.data.len()
            invariant
                i <= self.data@.len(),
                out@ == prefix + self.data@.take(i as int),
            decreases self.data@.len() - i,
        {
            out.push(self.data[i]);
            proof {
                assert(out@ =~= prefix + self.data@.take(i + 1 as int));
            }
            i = i + 1;
        }
        push_be32(&mut out, self.crc);
        proof {
            assert(self.data@.take(self.data@.len() as int) =~= self.data@);
            assert(out@ =~= spec_chunk_bytes(self@.0, self@.1));
        }
        out
    }
}

/// Every chunk value holds a valid (type bytes, data) pair.
pub proof fn lemma_chunk_model_valid(c: Chunk)
    requires
        c.well_formed(),
    ensures
        valid_chunk_model(c@),
{
    lemma_chunk_type_letters(c.chunk_type);
}

/// A record is read entirely from the buffer's first `12 + length` bytes:
/// bytes appended after a complete record change nothing about how it
/// parses, and what follows the record is exactly the appended bytes.
pub proof fn lemma_record_prefix_extends(hb: Seq<u8>, rb: Seq<u8>)
    requires
        spec_record_framed(hb),
        hb.len() == 12 + spec_record_len(hb),
    ensures
        spec_record_framed(hb + rb),
        spec_record_len(hb + rb) == spec_record_len(hb),
        spec_record_type(hb + rb) == spec_record_type(hb),
        spec_record_data(hb + rb) == spec_record_data(hb),
        spec_record_body(hb + rb) == spec_record_body(hb),
        spec_record_stored_crc(hb + rb) == spec_record_stored_crc(hb),
        spec_parse_record(hb + rb) == spec_parse_record(hb),
        (hb + rb).skip(12 + spec_record_len(hb)) == rb,
{
    let b = hb + rb;
    assert(b.subrange(0, 4) =~= hb.subrange(0, 4));
    assert(spec_record_len(b) == spec_record_len(hb));
    let l = spec_record_len(hb);
    assert(spec_record_type(b) =~= spec_record_type(hb));
    assert(spec_record_data(b) =~= spec_record_data(hb));
    assert(spec_record_body(b) =~= spec_record_body(hb));
    assert(b.subrange(8 + l, 12 + l) =~= hb.subrange(8 + l, 12 + l));
    assert(b.skip(12 + l) =~= rb);
}

/// Round trip: parsing a chunk's wire encoding yields the chunk back.
pub proof fn lemma_chunk_round_trip(t: Seq<u8>, d: Seq<u8>)
    requires
        t.len() == 4,
        all_letters(t),
        d.len() <= 0xFFFF_FFFF,
    ensures
        spec_chunk_bytes(t, d).len() == 12 + d.len(),
        spec_record_framed(spec_chunk_bytes(t, d)),
        spec_record_len(spec_chunk_bytes(t, d)) == d.len(),
        spec_parse_record(spec_chunk_bytes(t, d)) == Ok::<(Seq<u8>, Seq<u8>), ChunkError>((t, d)),
{
    let b = spec_chunk_bytes(t, d);
    lemma_u32_be_bytes_round_trip(d.len() as u32);
    lemma_u32_be_bytes_round_trip(spec_crc32(t + d));
    assert(b.subrange(0, 4) =~= spec_u32_to_be_bytes(d.len() as u32));
    assert(spec_record_len(b) == d.len() as int);
    assert(spec_record_framed(b));
    assert(spec_record_type(b) =~= t);
    assert(spec_record_data(b) =~= d);
    assert(spec_record_body(b) =~= t + d);
    assert(b.subrange(8 + d.len() as int, 12 + d.len() as int) =~= spec_u32_to_be_bytes(
        spec_crc32(t + d),
    ));
}

/// CRC sensitivity: take a buffer whose front parses as a record, and a copy
/// of it with a single byte of the type or data region changed. Parsing the
/// copy fails with `InvalidCrc`. A single flipped bit changes exactly one
/// byte, so every single-bit corruption of that region is caught.
pub proof fn lemma_corruption_detected(b1: Seq<u8>, b2: Seq<u8>, j: int)
    requires
        spec_parse_record(b1) is Ok,
        b2.len() == b1.len(),
        4 <= j < 8 + spec_record_len(b1),
        b2[j] != b1[j],
        forall|i: int| 0 <= i < b1.len() && i != j ==> b2[i] == b1[i],
    ensures
        spec_record_stored_crc(b2) == spec_record_stored_crc(b1),
        spec_parse_record(b2) == Err::<(Seq<u8>, Seq<u8>), ChunkError>(
            ChunkError::InvalidCrc(spec_crc32(spec_record_body(b2)), spec_record_stored_crc(b1)),
        ),
{
    assert(b2.subrange(0, 4) =~= b1.subrange(0, 4));
    assert(spec_record_len(b2) == spec_record_len(b1));
    assert(spec_record_framed(b2));
    let l = spec_record_len(b1);
    assert(b2.subrange(8 + l, 12 + l) =~= b1.subrange(8 + l, 12 + l));
    let body1 = spec_record_body(b1);
    let body2 = spec_record_body(b2);
    assert(body1.len() == body2.len() && body2[j - 4] != body1[j - 4] && forall|i: int|
        0 <= i < body1.len() && i != j - 4 ==> body2[i] == body1[i]);
    lemma_crc32_one_byte_difference(body1, body2, j - 4);
}

/// The bit-level form of `lemma_corruption_detected`: flipping bit `k` of
/// byte `j` in the type or data region makes parsing fail with `InvalidCrc`.
pub proof fn lemma_bit_flip_detected(b1: Seq<u8>, b2: Seq<u8>, j: int, k: u8)
    requires
        spec_parse_record(b1) is Ok,
        b2.len() == b1.len(),
        4 <= j < 8 + spec_record_len(b1),
        k < 8,
        b2[j] == b1[j] ^ (1u8 << k),
        forall|i: int| 0 <= i < b1.len() && i != j ==> b2[i] == b1[i],
    ensures
        spec_parse_record(b2) == Err::<(Seq<u8>, Seq<u8>), ChunkError>(
            ChunkError::InvalidCrc(spec_crc32(spec_record_body(b2)), spec_record_stored_crc(b1)),
        ),
{
    let x = b1[j];
    assert(x ^ (1u8 << k) != x) by (bit_vector)
        requires
            k < 8,
    ;
    lemma_corruption_detected(b1, b2, j);
}

} // verus!
