//! CRC-32 as used by PNG (reflected, polynomial 0x04C11DB7, initial value and
//! final xor all ones), one bit at a time.
use vstd::prelude::*;

verus! {

/// The reflected CRC-32 polynomial.
pub const CRC32_POLY: u32 = 0xEDB8_8320;

/// One shift of the CRC register.
pub open spec fn crc_bit_step(c: u32) -> u32 {
    if c & 1u32 == 1u32 {
        (c >> 1u32) ^ CRC32_POLY
    } else {
        c >> 1u32
    }
}

/// `n` shifts of the CRC register.
pub open spec fn crc_bits(c: u32, n: nat) -> u32
    decreases n,
{
    if n == 0 {
        c
    } else {
        crc_bit_step(crc_bits(c, (n - 1) as nat))
    }
}

/// The register after feeding one byte.
pub open spec fn crc_byte(c: u32, b: u8) -> u32 {
    crc_bits(c ^ (b as u32), 8)
}

/// The register after feeding a sequence of bytes, starting from `c`.
pub open spec fn crc_fold(c: u32, s: Seq<u8>) -> u32
    decreases s.len(),
{
    if s.len() == 0 {
        c
    } else {
        crc_byte(crc_fold(c, s.drop_last()), s.last())
    }
}

/// The CRC-32 of a byte sequence.
#[verifier::opaque]
pub open spec fn crc32(s: Seq<u8>) -> u32 {
    crc_fold(0xFFFF_FFFFu32, s) ^ 0xFFFF_FFFFu32
}

/// Feeding a concatenation is feeding its parts in turn.
pub proof fn lemma_crc_fold_concat(c: u32, a: Seq<u8>, b: Seq<u8>)
    ensures
        crc_fold(c, a + b) == crc_fold(crc_fold(c, a), b),
    decreases b.len(),
{
    if b.len() == 0 {
        assert(a + b =~= a);
    } else {
        lemma_crc_fold_concat(c, a, b.drop_last());
        assert((a + b).drop_last() =~= a + b.drop_last());
        assert((a + b).last() == b.last());
    }
}

/// Distinct registers stay distinct after one shift.
pub proof fn lemma_bit_step_injective(a: u32, b: u32)
    requires
        a != b,
    ensures
        crc_bit_step(a) != crc_bit_step(b),
{
    if a & 1u32 == 1u32 {
        if b & 1u32 == 1u32 {
            assert((a >> 1u32) ^ CRC32_POLY != (b >> 1u32) ^ CRC32_POLY) by (bit_vector)
                requires
                    a != b,
                    a & 1u32 == 1u32,
                    b & 1u32 == 1u32,
            ;
        } else {
            assert((a >> 1u32) ^ CRC32_POLY != (b >> 1u32)) by (bit_vector);
        }
    } else {
        if b & 1u32 == 1u32 {
            assert((a >> 1u32) != (b >> 1u32) ^ CRC32_POLY) by (bit_vector);
        } else {
            assert(a & 1u32 == 0u32 && b & 1u32 == 0u32) by (bit_vector)
                requires
                    a & 1u32 != 1u32,
                    b & 1u32 != 1u32,
            ;
            assert((a >> 1u32) != (b >> 1u32)) by (bit_vector)
                requires
                    a != b,
                    a & 1u32 == 0u32,
                    b & 1u32 == 0u32,
            ;
        }
    }
}

/// Distinct registers stay distinct after any number of shifts.
pub proof fn lemma_bits_injective(a: u32, b: u32, n: nat)
    requires
        a != b,
    ensures
        crc_bits(a, n) != crc_bits(b, n),
    decreases n,
{
    if n > 0 {
        lemma_bits_injective(a, b, (n - 1) as nat);
        lemma_bit_step_injective(crc_bits(a, (n - 1) as nat), crc_bits(b, (n - 1) as nat));
    }
}

/// Distinct registers stay distinct after feeding the same bytes.
pub proof fn lemma_fold_injective(a: u32, b: u32, s: Seq<u8>)
    requires
        a != b,
    ensures
        crc_fold(a, s) != crc_fold(b, s),
    decreases s.len(),
{
    if s.len() > 0 {
        lemma_fold_injective(a, b, s.drop_last());
        let (fa, fb, x) = (crc_fold(a, s.drop_last()), crc_fold(b, s.drop_last()), s.last());
        assert(fa ^ (x as u32) != fb ^ (x as u32)) by (bit_vector)
            requires
                fa != fb,
        ;
        lemma_bits_injective(fa ^ (x as u32), fb ^ (x as u32), 8);
    }
}

/// Changing one byte of a sequence changes its CRC-32.
pub proof fn lemma_crc32_detects_byte_change(s: Seq<u8>, j: int, x: u8)
    requires
        0 <= j < s.len(),
        s[j] != x,
    ensures
        crc32(s.update(j, x)) != crc32(s),
{
    reveal(crc32);
    let t = s.update(j, x);
    let p = s.subrange(0, j);
    let q = s.subrange(j + 1, s.len() as int);
    let y = s[j];
    assert(s =~= p + seq![y] + q);
    assert(t =~= p + seq![x] + q);
    let init = 0xFFFF_FFFFu32;
    lemma_crc_fold_concat(init, p + seq![y], q);
    lemma_crc_fold_concat(init, p + seq![x], q);
    lemma_crc_fold_concat(init, p, seq![y]);
    lemma_crc_fold_concat(init, p, seq![x]);
    let c = crc_fold(init, p);
    assert(seq![y].drop_last() =~= Seq::<u8>::empty());
    assert(seq![x].drop_last() =~= Seq::<u8>::empty());
    assert(crc_fold(c, Seq::<u8>::empty()) == c);
    assert(seq![y].last() == y && seq![x].last() == x);
    assert(crc_fold(c, seq![y]) == crc_byte(c, y));
    assert(crc_fold(c, seq![x]) == crc_byte(c, x));
    assert(c ^ (x as u32) != c ^ (y as u32)) by (bit_vector)
        requires
            x != y,
    ;
    lemma_bits_injective(c ^ (x as u32), c ^ (y as u32), 8);
    lemma_fold_injective(crc_byte(c, x), crc_byte(c, y), q);
    let (fx, fy) = (crc_fold(init, t), crc_fold(init, s));
    assert(fx ^ 0xFFFF_FFFFu32 != fy ^ 0xFFFF_FFFFu32) by (bit_vector)
        requires
            fx != fy,
    ;
}

/// Feeds `bytes[from..to]` into the register `state`.
pub fn crc_feed(state: u32, bytes: &[u8], from: usize, to: usize) -> (r: u32)
    requires
        from <= to <= bytes@.len(),
    ensures
        r == crc_fold(state, bytes@.subrange(from as int, to as int)),
{
    let mut c: u32 = state;
    let mut i: usize = from;
    assert(bytes@.subrange(from as int, from as int) =~= Seq::<u8>::empty());
    while i < to
        invariant
            from <= i <= to <= bytes@.len(),
            c == crc_fold(state, bytes@.subrange(from as int, i as int)),
        decreases to - i,
    {
        c = c ^ (bytes[i] as u32);
        let mut k: u32 = 0;
        let ghost c0 = c;
        while k < 8
            invariant
                k <= 8,
                c == crc_bits(c0, k as nat),
            decreases 8 - k,
        {
            if c & 1u32 == 1u32 {
                c = (c >> 1u32) ^ CRC32_POLY;
            } else {
                c = c >> 1u32;
            }
            k = k + 1;
        }
        proof {
            let s = bytes@.subrange(from as int, i + 1);
            assert(s.drop_last() =~= bytes@.subrange(from as int, i as int));
            assert(s.last() == bytes@[i as int]);
        }
        i = i + 1;
    }
    c
}

/// The CRC-32 of `bytes`.
pub fn checksum(bytes: &[u8]) -> (r: u32)
    ensures
        r == crc32(bytes@),
{
    let c = crc_feed(0xFFFF_FFFFu32, bytes, 0, bytes.len());
    assert(bytes@.subrange(0, bytes@.len() as int) =~= bytes@);
    proof {
        reveal(crc32);
    }
    c ^ 0xFFFF_FFFFu32
}

} // verus!
