//! CRC-32 as used by the PNG chunk format: the ISO-3309 / ITU-T polynomial in
//! reflected form (0xEDB88320), initial value all-ones, output complemented.
//! The checksum is defined bit by bit in specification functions and the
//! executable computation is proved against that definition; the lemmas at the
//! end show that any corruption of a single byte changes the checksum.

use vstd::prelude::*;

verus! {

/// One step of the reflected CRC-32 division: shift right, folding the
/// polynomial in when the low bit is set.
pub open spec fn crc_step(c: u32) -> u32 {
    if c & 1 == 1 {
        (c >> 1) ^ 0xEDB8_8320u32
    } else {
        c >> 1
    }
}

/// `n` division steps applied to `c`.
pub open spec fn crc_steps(c: u32, n: nat) -> u32
    decreases n,
{
    if n == 0 {
        c
    } else {
        crc_steps(crc_step(c), (n - 1) as nat)
    }
}

/// Feeding one byte into the running remainder: xor it in, then divide its
/// 8 bits out.
pub open spec fn crc_push(c: u32, b: u8) -> u32 {
    crc_steps(c ^ (b as u32), 8)
}

/// Feeding a whole byte sequence into the running remainder.
pub open spec fn crc_fold(c: u32, s: Seq<u8>) -> u32
    decreases s.len(),
{
    if s.len() == 0 {
        c
    } else {
        crc_fold(crc_push(c, s[0]), s.drop_first())
    }
}

/// The CRC-32 checksum of a byte sequence.
pub open spec fn spec_crc32(s: Seq<u8>) -> u32 {
    !crc_fold(0xFFFF_FFFFu32, s)
}

/// Folding one more byte at the end continues from the fold of the prefix.
pub proof fn lemma_crc_fold_push(c: u32, s: Seq<u8>, b: u8)
    ensures
        crc_fold(c, s.push(b)) == crc_push(crc_fold(c, s), b),
    decreases s.len(),
{
    reveal_with_fuel(crc_fold, 2);
    if s.len() == 0 {
        assert(s.push(b)[0] == b);
        assert(s.push(b).drop_first() =~= Seq::<u8>::empty());
    } else {
        assert(s.push(b)[0] == s[0]);
        assert(s.push(b).drop_first() =~= s.drop_first().push(b));
        lemma_crc_fold_push(crc_push(c, s[0]), s.drop_first(), b);
    }
}

/// Folding a concatenation folds the two parts in turn.
pub proof fn lemma_crc_fold_concat(c: u32, a: Seq<u8>, b: Seq<u8>)
    ensures
        crc_fold(c, a + b) == crc_fold(crc_fold(c, a), b),
    decreases a.len(),
{
    if a.len() == 0 {
        assert(a + b =~= b);
    } else {
        assert((a + b)[0] == a[0]);
        assert((a + b).drop_first() =~= a.drop_first() + b);
        lemma_crc_fold_concat(crc_push(c, a[0]), a.drop_first(), b);
    }
}

/// One more division step at the end commutes with the steps before it.
proof fn lemma_crc_steps_snoc(c: u32, n: nat)
    ensures
        crc_steps(c, n + 1) == crc_step(crc_steps(c, n)),
    decreases n,
{
    reveal_with_fuel(crc_steps, 2);
    if n > 0 {
        lemma_crc_steps_snoc(crc_step(c), (n - 1) as nat);
    }
}

/// The remainder after `start`, with the 8 bits of one byte divided out.
fn crc_push_exec(start: u32, b: u8) -> (r: u32)
    ensures
        r == crc_push(start, b),
{
    let mut acc: u32 = start ^ (b as u32);
    let mut k: usize = 0;
    while k < 8
        invariant
            k <= 8,
            acc == crc_steps(start ^ (b as u32), k as nat),
        decreases 8 - k,
    {
        proof {
            lemma_crc_steps_snoc(start ^ (b as u32), k as nat);
        }
        acc = if acc & 1 == 1 {
            (acc >> 1) ^ 0xEDB8_8320u32
        } else {
            acc >> 1
        };
        k = k + 1;
    }
    acc
}

/// The running remainder continued over a whole slice.
fn crc_fold_exec(start: u32, s: &[u8]) -> (r: u32)
    ensures
        r == crc_fold(start, s@),
{
    let mut acc: u32 = start;
    let mut i: usize = 0;
    while i < s.len()
        invariant
            i <= s@.len(),
            acc == crc_fold(start, s@.take(i as int)),
        decreases s@.len() - i,
    {
        proof {
            assert(s@.take(i + 1 as int) =~= s@.take(i as int).push(s@[i as int]));
            lemma_crc_fold_push(start, s@.take(i as int), s@[i as int]);
        }
        acc = crc_push_exec(acc, s[i]);
        i = i + 1;
    }
    proof {
        assert(s@.take(s@.len() as int) =~= s@);
    }
    acc
}

/// The CRC-32 checksum of one slice.
pub fn crc32(s: &[u8]) -> (r: u32)
    ensures
        r == spec_crc32(s@),
{
    !crc_fold_exec(0xFFFF_FFFFu32, s)
}

/// The CRC-32 checksum of the concatenation of two slices.
pub fn crc32_of_parts(a: &[u8], b: &[u8]) -> (r: u32)
    ensures
        r == spec_crc32(a@ + b@),
{
    proof {
        lemma_crc_fold_concat(0xFFFF_FFFFu32, a@, b@);
    }
    !crc_fold_exec(crc_fold_exec(0xFFFF_FFFFu32, a), b)
}

/// One division step never maps two remainders to the same value.
proof fn lemma_crc_step_injective(c1: u32, c2: u32)
    requires
        crc_step(c1) == crc_step(c2),
    ensures
        c1 == c2,
{
    if c1 & 1 == 1 && c2 & 1 == 1 {
        assert((c1 >> 1) ^ 0xEDB8_8320u32 == (c2 >> 1) ^ 0xEDB8_8320u32 && c1 & 1 == 1 && c2 & 1
            == 1 ==> c1 == c2) by (bit_vector);
    } else if c1 & 1 != 1 && c2 & 1 != 1 {
        assert(c1 >> 1 == c2 >> 1 && c1 & 1 != 1 && c2 & 1 != 1 ==> c1 == c2) by (bit_vector);
    } else if c1 & 1 == 1 {
        assert((c1 >> 1) ^ 0xEDB8_8320u32 != c2 >> 1) by (bit_vector);
    } else {
        assert(c1 >> 1 != (c2 >> 1) ^ 0xEDB8_8320u32) by (bit_vector);
    }
}

/// Any number of division steps never maps two remainders to the same value.
proof fn lemma_crc_steps_injective(c1: u32, c2: u32, n: nat)
    requires
        crc_steps(c1, n) == crc_steps(c2, n),
    ensures
        c1 == c2,
    decreases n,
{
    if n > 0 {
        lemma_crc_steps_injective(crc_step(c1), crc_step(c2), (n - 1) as nat);
        lemma_crc_step_injective(c1, c2);
    }
}

/// Feeding the same byte from different remainders keeps them different.
proof fn lemma_crc_push_state_injective(c1: u32, c2: u32, b: u8)
    requires
        crc_push(c1, b) == crc_push(c2, b),
    ensures
        c1 == c2,
{
    lemma_crc_steps_injective(c1 ^ (b as u32), c2 ^ (b as u32), 8);
    assert(c1 ^ (b as u32) == c2 ^ (b as u32) ==> c1 == c2) by (bit_vector);
}

/// Feeding different bytes from the same remainder leaves different remainders.
proof fn lemma_crc_push_byte_injective(c: u32, b1: u8, b2: u8)
    requires
        crc_push(c, b1) == crc_push(c, b2),
    ensures
        b1 == b2,
{
    lemma_crc_steps_injective(c ^ (b1 as u32), c ^ (b2 as u32), 8);
    assert(c ^ (b1 as u32) == c ^ (b2 as u32) ==> (b1 as u32) == (b2 as u32)) by (bit_vector);
}

/// Folding the same bytes from different remainders keeps them different.
proof fn lemma_crc_fold_state_injective(c1: u32, c2: u32, s: Seq<u8>)
    requires
        c1 != c2,
    ensures
        crc_fold(c1, s) != crc_fold(c2, s),
    decreases s.len(),
{
    if s.len() > 0 {
        if crc_push(c1, s[0]) == crc_push(c2, s[0]) {
            lemma_crc_push_state_injective(c1, c2, s[0]);
        }
        lemma_crc_fold_state_injective(crc_push(c1, s[0]), crc_push(c2, s[0]), s.drop_first());
    }
}

proof fn lemma_crc_fold_one_byte_difference(c: u32, s1: Seq<u8>, s2: Seq<u8>, j: int)
    requires
        s1.len() == s2.len(),
        0 <= j < s1.len(),
        s1[j] != s2[j],
        forall|i: int| 0 <= i < s1.len() && i != j ==> s1[i] == s2[i],
    ensures
        crc_fold(c, s1) != crc_fold(c, s2),
    decreases s1.len(),
{
    if j == 0 {
        if crc_push(c, s1[0]) == crc_push(c, s2[0]) {
            lemma_crc_push_byte_injective(c, s1[0], s2[0]);
        }
        assert(s1.drop_first() =~= s2.drop_first());
        lemma_crc_fold_state_injective(crc_push(c, s1[0]), crc_push(c, s2[0]), s1.drop_first());
    } else {
        assert(s1[0] == s2[0]);
        lemma_crc_fold_one_byte_difference(crc_push(c, s1[0]), s1.drop_first(), s2.drop_first(), j
            - 1);
    }
}

/// Two byte sequences of the same length that differ in exactly one byte
/// never share a CRC-32 checksum. A flipped bit changes exactly one byte, so
/// the checksum catches every single-bit corruption.
pub proof fn lemma_crc32_one_byte_difference(s1: Seq<u8>, s2: Seq<u8>, j: int)
    requires
        s1.len() == s2.len(),
        0 <= j < s1.len(),
        s1[j] != s2[j],
        forall|i: int| 0 <= i < s1.len() && i != j ==> s1[i] == s2[i],
    ensures
        spec_crc32(s1) != spec_crc32(s2),
{
    lemma_crc_fold_one_byte_difference(0xFFFF_FFFFu32, s1, s2, j);
    let a = crc_fold(0xFFFF_FFFFu32, s1);
    let b = crc_fold(0xFFFF_FFFFu32, s2);
    assert(a != b ==> !a != !b) by (bit_vector);
}

} // verus!
