//! The 4-byte chunk type code: four ASCII letters whose case bits encode the
//! chunk's semantic flags (criticality, ownership, reserved, copy-safety).

use vstd::prelude::*;

verus! {

use vstd::utf8::decode_utf8;
use vstd::utf8::encode_utf8;
use vstd::utf8::is_ascii_chars;
use vstd::utf8::valid_utf8;

/// True for the byte values of ASCII letters, upper or lower case.
pub open spec fn is_letter(b: u8) -> bool {
    (0x41 <= b && b <= 0x5a) || (0x61 <= b && b <= 0x7a)
}

/// True when every byte of `s` is an ASCII letter.
pub open spec fn all_letters(s: Seq<u8>) -> bool {
    forall|i: int| 0 <= i < s.len() ==> is_letter(#[trigger] s[i])
}

/// The characters spelled by a sequence of ASCII bytes.
pub open spec fn chars_of(bytes: Seq<u8>) -> Seq<char> {
    bytes.map(|i: int, b: u8| b as char)
}

/// Why a byte array or string was rejected as a chunk type code.
#[derive(Debug, Clone, Copy, PartialEq, Eq, Structural)]
pub enum ChunkTypeError {
    /// Some byte is not an ASCII letter.
    InvalidCharacter,
    /// The string is not exactly 4 bytes long; carries the length found.
    InvalidLength(usize),
}

/// A validated 4-byte chunk type code. Every byte is an ASCII letter;
/// bit 5 of each byte carries one semantic flag.
#[derive(Debug, Clone, Copy)]
pub struct ChunkType {
    code: [u8; 4],
}

impl View for ChunkType {
    type V = Seq<u8>;

    closed spec fn view(&self) -> Seq<u8> {
        self.code@
    }
}

fn is_letter_byte(b: u8) -> (r: bool)
    ensures
        r == is_letter(b),
{
    (0x41 <= b && b <= 0x5a) || (0x61 <= b && b <= 0x7a)
}

impl ChunkType {
    /// Holds of every value of the type: the 4 bytes are ASCII letters.
    #[verifier::type_invariant]
    pub closed spec fn well_formed(self) -> bool {
        all_letters(self.code@)
    }

    /// Builds a type code from 4 raw bytes; succeeds exactly when every byte
    /// is an ASCII letter. The reserved bit is not checked here.
    pub fn try_from(value: [u8; 4]) -> (r: Result<ChunkType, ChunkTypeError>)
        ensures
            match r {
                Ok(t) => all_letters(value@) && t@ == value@,
                Err(ChunkTypeError::InvalidCharacter) => !all_letters(value@),
                Err(_) => false,
            },
    {
        if is_letter_byte(value[0]) && is_letter_byte(value[1]) && is_letter_byte(value[2])
            && is_letter_byte(value[3]) {
            assert(all_letters(value@)) by {
                assert(forall|i: int| 0 <= i < 4 ==> is_letter(#[trigger] value@[i]));
            }
            Ok(ChunkType { code: value })
        } else {
            Err(ChunkTypeError::InvalidCharacter)
        }
    }

    /// Builds a type code from a string: rejects a string that is not exactly
    /// 4 bytes long before looking at the characters, then applies the same
    /// letter check as `try_from`.
    pub fn from_str(s: &str) -> (r: Result<ChunkType, ChunkTypeError>)
        ensures
            match r {
                Ok(t) => s@.len() == 4 && all_letters(encode_utf8(s@)) && t@ == encode_utf8(s@),
                Err(ChunkTypeError::InvalidLength(n)) => n == encode_utf8(s@).len() && n != 4,
                Err(ChunkTypeError::InvalidCharacter) => encode_utf8(s@).len() == 4
                    && !all_letters(encode_utf8(s@)),
            },
    {
        let bytes = s.as_bytes();
        if bytes.len() != 4 {
            return Err(ChunkTypeError::InvalidLength(bytes.len()));
        }
        let r = Self::try_from([bytes[0], bytes[1], bytes[2], bytes[3]]);
        proof {
            assert(seq![bytes@[0], bytes@[1], bytes@[2], bytes@[3]] =~= bytes@);
            if r is Ok {
                lemma_ascii_letter_bytes_decode(s@);
            }
        }
        r
    }

    /// The raw 4 bytes of the code.
    pub fn bytes(&self) -> (r: [u8; 4])
        ensures
            r@ == self@,
    {
        self.code
    }

    /// The code as a 4-character string; exact inverse of `from_str` for
    /// accepted inputs.
    pub fn to_string(&self) -> (r: String)
        ensures
            r@ == chars_of(self@),
    {
        proof {
            use_type_invariant(&*self);
        }
        let mut v: Vec<u8> = Vec::new();
        v.push(self.code[0]);
        v.push(self.code[1]);
        v.push(self.code[2]);
        v.push(self.code[3]);
        proof {
            assert(v@ =~= self.code@);
            lemma_ascii_bytes_decode(self.code@);
        }
        match vec_into_string(v) {
            Some(s) => s,
            None => vstd::pervasive::unreached(),
        }
    }

    /// True when all 4 bytes are ASCII letters and the reserved bit is clear.
    pub fn is_valid(&self) -> (r: bool)
        ensures
            r == (all_letters(self@) && self@[2] & 0x20 != 0x20),
    {
        let letters = is_letter_byte(self.code[0]) && is_letter_byte(self.code[1])
            && is_letter_byte(self.code[2]) && is_letter_byte(self.code[3]);
        proof {
            if letters {
                assert(forall|i: int| 0 <= i < 4 ==> is_letter(#[trigger] self.code@[i]));
            }
        }
        letters && self.is_reserved_bit_valid()
    }

    /// Criticality flag: bit 5 of the first byte is clear for a critical chunk.
    pub fn is_critical(&self) -> (r: bool)
        ensures
            r == (self@[0] & 0x20 != 0x20),
    {
        self.code[0] & 0x20 != 0x20
    }

    /// Ownership flag: bit 5 of the second byte is clear for a public chunk.
    pub fn is_public(&self) -> (r: bool)
        ensures
            r == (self@[1] & 0x20 != 0x20),
    {
        self.code[1] & 0x20 != 0x20
    }

    /// Reserved flag: bit 5 of the third byte must be clear under the current
    /// format version.
    pub fn is_reserved_bit_valid(&self) -> (r: bool)
        ensures
            r == (self@[2] & 0x20 != 0x20),
    {
        self.code[2] & 0x20 != 0x20
    }

    /// Copy-safety flag: bit 5 of the fourth byte is set when editors that do
    /// not understand the chunk may copy it.
    pub fn is_safe_to_copy(&self) -> (r: bool)
        ensures
            r == (self@[3] & 0x20 == 0x20),
    {
        self.code[3] & 0x20 == 0x20
    }
}

/// A well-formed type code spells 4 ASCII letters. Exec code obtains
/// `well_formed` for any `ChunkType` value from `use_type_invariant`.
pub proof fn lemma_chunk_type_letters(t: ChunkType)
    requires
        t.well_formed(),
    ensures
        t@.len() == 4,
        all_letters(t@),
{
}

impl PartialEq for ChunkType {
    /// Equality is exact byte match.
    fn eq(&self, other: &ChunkType) -> (r: bool) {
        let r = self.code[0] == other.code[0] && self.code[1] == other.code[1] && self.code[2]
            == other.code[2] && self.code[3] == other.code[3];
        proof {
            if r {
                assert(self.code@ =~= other.code@);
            } else {
                if self.code@ == other.code@ {
                    assert(self.code@[0] == other.code@[0]);
                    assert(self.code@[1] == other.code@[1]);
                    assert(self.code@[2] == other.code@[2]);
                    assert(self.code@[3] == other.code@[3]);
                }
            }
        }
        r
    }
}

impl Eq for ChunkType {

}

impl vstd::std_specs::cmp::PartialEqSpecImpl for ChunkType {
    open spec fn obeys_eq_spec() -> bool {
        true
    }

    open spec fn eq_spec(&self, other: &ChunkType) -> bool {
        self@ == other@
    }
}

/// Relies on String::from_utf8: it succeeds exactly on valid UTF-8 input and
/// returns the string those bytes spell.
#[verifier::external_body]
pub(crate) fn vec_into_string(v: Vec<u8>) -> (r: Option<String>)
    ensures
        match r {
            Some(s) => valid_utf8(v@) && s@ == decode_utf8(v@),
            None => !valid_utf8(v@),
        },
{
    String::from_utf8(v).ok()
}

/// A sequence of ASCII bytes is valid UTF-8 and decodes to those bytes read
/// as characters.
pub proof fn lemma_ascii_bytes_decode(bytes: Seq<u8>)
    requires
        forall|i: int| 0 <= i < bytes.len() ==> #[trigger] bytes[i] < 0x80,
    ensures
        valid_utf8(bytes),
        decode_utf8(bytes) == chars_of(bytes),
        encode_utf8(chars_of(bytes)) == bytes,
{
    let chars = chars_of(bytes);
    assert(is_ascii_chars(chars)) by {
        assert(forall|i: int|
            0 <= i < chars.len() ==> '\0' <= #[trigger] chars[i] <= '\u{7f}');
    }
    vstd::utf8::is_ascii_chars_encode_utf8(chars);
    assert(encode_utf8(chars) =~= bytes);
    vstd::utf8::encode_utf8_valid_utf8(chars);
    vstd::utf8::encode_utf8_decode_utf8(chars);
}

/// A string whose UTF-8 bytes are all ASCII letters spells exactly those
/// bytes as characters.
pub proof fn lemma_ascii_letter_bytes_decode(s: Seq<char>)
    requires
        all_letters(encode_utf8(s)),
    ensures
        s == chars_of(encode_utf8(s)),
{
    vstd::utf8::encode_utf8_valid_utf8(s);
    vstd::utf8::encode_utf8_decode_utf8(s);
    lemma_ascii_bytes_decode(encode_utf8(s));
}

/// Round trip: on a 4-letter string, `from_str` succeeds with the string's
/// bytes as the code — and `to_string` of that code spells the original
/// string back, character for character.
pub proof fn lemma_type_string_round_trip(s: Seq<char>)
    requires
        encode_utf8(s).len() == 4,
        all_letters(encode_utf8(s)),
    ensures
        chars_of(encode_utf8(s)) == s,
{
    lemma_ascii_letter_bytes_decode(s);
}

} // verus!
