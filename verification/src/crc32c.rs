//! The CRC-32C checksum (Castagnoli), bit-reflected.

use vstd::prelude::*;

verus! {

/// The generator polynomial, bit-reflected.
pub const POLYNOMIAL: u32 = 0x82F6_3B78;

/// Divides one more bit into the remainder.
pub open spec fn step_bit(c: u32) -> u32 {
    if c & 1 == 1 {
        (c >> 1u32) ^ POLYNOMIAL
    } else {
        c >> 1u32
    }
}

/// Divides one more byte into the remainder.
pub open spec fn step_byte(c: u32, b: u8) -> u32 {
    step_bit(
        step_bit(step_bit(step_bit(step_bit(step_bit(step_bit(step_bit(c ^ (b as u32)))))))),
    )
}

/// Divides a byte string into the remainder.
pub open spec fn remainder(c: u32, data: Seq<u8>) -> u32
    decreases data.len(),
{
    if data.len() == 0 {
        c
    } else {
        step_byte(remainder(c, data.drop_last()), data.last())
    }
}

/// The checksum of `data`, continuing from the checksum `seed` of what came
/// before it.
pub open spec fn crc32c_of(seed: u32, data: Seq<u8>) -> u32 {
    !remainder(!seed, data)
}

proof fn lemma_step_bit_injective(x: u32, y: u32)
    requires
        step_bit(x) == step_bit(y),
    ensures
        x == y,
{
    assert(x == y) by (bit_vector)
        requires
            (if x & 1 == 1 {
                (x >> 1u32) ^ 0x82F6_3B78u32
            } else {
                x >> 1u32
            }) == (if y & 1 == 1 {
                (y >> 1u32) ^ 0x82F6_3B78u32
            } else {
                y >> 1u32
            }),
    ;
}

proof fn lemma_step_byte_injective(x: u32, a: u8, y: u32, b: u8)
    requires
        step_byte(x, a) == step_byte(y, b),
    ensures
        x ^ (a as u32) == y ^ (b as u32),
{
    let x0 = x ^ (a as u32);
    let y0 = y ^ (b as u32);
    let x1 = step_bit(x0);
    let y1 = step_bit(y0);
    let x2 = step_bit(x1);
    let y2 = step_bit(y1);
    let x3 = step_bit(x2);
    let y3 = step_bit(y2);
    let x4 = step_bit(x3);
    let y4 = step_bit(y3);
    let x5 = step_bit(x4);
    let y5 = step_bit(y4);
    let x6 = step_bit(x5);
    let y6 = step_bit(y5);
    let x7 = step_bit(x6);
    let y7 = step_bit(y6);
    lemma_step_bit_injective(x7, y7);
    lemma_step_bit_injective(x6, y6);
    lemma_step_bit_injective(x5, y5);
    lemma_step_bit_injective(x4, y4);
    lemma_step_bit_injective(x3, y3);
    lemma_step_bit_injective(x2, y2);
    lemma_step_bit_injective(x1, y1);
    lemma_step_bit_injective(x0, y0);
}

proof fn lemma_remainder_concat(c: u32, a: Seq<u8>, b: Seq<u8>)
    ensures
        remainder(c, a + b) == remainder(remainder(c, a), b),
    decreases b.len(),
{
    if b.len() == 0 {
        assert(a + b =~= a);
    } else {
        assert((a + b).drop_last() =~= a + b.drop_last());
        lemma_remainder_concat(c, a, b.drop_last());
    }
}

proof fn lemma_remainder_injective(c: u32, d: u32, s: Seq<u8>)
    requires
        remainder(c, s) == remainder(d, s),
    ensures
        c == d,
    decreases s.len(),
{
    if s.len() > 0 {
        let x = remainder(c, s.drop_last());
        let y = remainder(d, s.drop_last());
        let b = s.last();
        lemma_step_byte_injective(x, b, y, b);
        assert(x == y) by (bit_vector)
            requires
                x ^ (b as u32) == y ^ (b as u32),
        ;
        lemma_remainder_injective(c, d, s.drop_last());
    }
}

/// Checksumming one part and continuing from the result with the next gives
/// the checksum of both.
pub proof fn crc32c_continues(seed: u32, a: Seq<u8>, b: Seq<u8>)
    ensures
        crc32c_of(crc32c_of(seed, a), b) == crc32c_of(seed, a + b),
{
    let r = remainder(!seed, a);
    assert(!(!r) == r) by (bit_vector);
    lemma_remainder_concat(!seed, a, b);
}

/// The checksum of nothing is what was continued from.
pub proof fn crc32c_of_nothing(seed: u32)
    ensures
        crc32c_of(seed, Seq::<u8>::empty()) == seed,
{
    assert(!(!seed) == seed) by (bit_vector);
}

/// Changing any one byte changes the checksum.
pub proof fn crc32c_detects_one_byte(seed: u32, data: Seq<u8>, i: int, b: u8)
    requires
        0 <= i < data.len(),
        data[i] != b,
    ensures
        crc32c_of(seed, data) != crc32c_of(seed, data.update(i, b)),
{
    let other = data.update(i, b);
    let c = !seed;
    let head = data.take(i);
    let tail = data.skip(i + 1);
    assert(data =~= head.push(data[i]) + tail);
    assert(other =~= head.push(b) + tail);
    lemma_remainder_concat(c, head.push(data[i]), tail);
    lemma_remainder_concat(c, head.push(b), tail);
    assert(head.push(data[i]).drop_last() =~= head);
    assert(head.push(b).drop_last() =~= head);
    let r = remainder(c, data);
    let s = remainder(c, other);
    if !r == !s {
        assert(r == s) by (bit_vector)
            requires
                !r == !s,
        ;
        let p = remainder(c, head.push(data[i]));
        let q = remainder(c, head.push(b));
        lemma_remainder_injective(p, q, tail);
        let x = remainder(c, head);
        let a = data[i];
        lemma_step_byte_injective(x, a, x, b);
        assert(a == b) by (bit_vector)
            requires
                x ^ (a as u32) == x ^ (b as u32),
        ;
    }
}

fn advance_bit(c: u32) -> (r: u32)
    ensures
        r == step_bit(c),
{
    if c & 1 == 1 {
        (c >> 1u32) ^ POLYNOMIAL
    } else {
        c >> 1u32
    }
}

/// The checksum of `data`. Pass 0 to start one, or the checksum of what came
/// before to continue it.
pub fn crc32c(seed: u32, data: &[u8]) -> (crc: u32)
    ensures
        crc == crc32c_of(seed, data@),
{
    let mut c: u32 = !seed;
    let mut i: usize = 0;
    assert(data@.take(0) =~= Seq::<u8>::empty());
    while i < data.len()
        invariant
            i <= data@.len(),
            c == remainder(!seed, data@.take(i as int)),
        decreases data@.len() - i,
    {
        proof {
            assert(data@.take(i + 1).drop_last() =~= data@.take(i as int));
        }
        let x0: u32 = c ^ (data[i] as u32);
        let x1: u32 = advance_bit(x0);
        let x2: u32 = advance_bit(x1);
        let x3: u32 = advance_bit(x2);
        let x4: u32 = advance_bit(x3);
        let x5: u32 = advance_bit(x4);
        let x6: u32 = advance_bit(x5);
        let x7: u32 = advance_bit(x6);
        c = advance_bit(x7);
        i = i + 1;
    }
    assert(data@.take(data@.len() as int) =~= data@);
    !c
}

} // verus!
