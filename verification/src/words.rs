//! Fixed-width little-endian words.

use vstd::prelude::*;
use crate::uintn;

verus! {

/// The eight-byte word at `at`.
pub open spec fn word64(data: Seq<u8>, at: int) -> u64 {
    uintn::le_value(data.subrange(at, at + 8)) as u64
}

/// The eight bytes of `v`.
pub open spec fn bytes64(v: u64) -> Seq<u8> {
    uintn::le_bytes(v as nat, 8)
}

/// The four-byte word at `at`.
pub open spec fn word32(data: Seq<u8>, at: int) -> u32 {
    uintn::le_value(data.subrange(at, at + 4)) as u32
}

/// The four bytes of `v`.
pub open spec fn bytes32(v: u32) -> Seq<u8> {
    uintn::le_bytes(v as nat, 4)
}

pub proof fn lemma_bytes64_len(v: u64)
    ensures
        bytes64(v).len() == 8,
{
    uintn::lemma_le_bytes_len(v as nat, 8);
}

pub proof fn lemma_bytes32_len(v: u32)
    ensures
        bytes32(v).len() == 4,
{
    uintn::lemma_le_bytes_len(v as nat, 4);
}

/// Reading a word back where it was written gives the word.
pub proof fn lemma_word64_of_bytes64(v: u64, data: Seq<u8>, at: int)
    requires
        0 <= at,
        at + 8 <= data.len(),
        data.subrange(at, at + 8) == bytes64(v),
    ensures
        word64(data, at) == v,
{
    uintn::lemma_radix_values();
    uintn::lemma_le_bytes_value(v as nat, 8);
}

/// Reading a word back where it was written gives the word.
pub proof fn lemma_word32_of_bytes32(v: u32, data: Seq<u8>, at: int)
    requires
        0 <= at,
        at + 4 <= data.len(),
        data.subrange(at, at + 4) == bytes32(v),
    ensures
        word32(data, at) == v,
{
    uintn::lemma_radix_values();
    uintn::lemma_le_bytes_value(v as nat, 4);
}

/// Four bytes are the encoding of the word they hold.
pub proof fn lemma_bytes32_of_word32(data: Seq<u8>, at: int)
    requires
        0 <= at,
        at + 4 <= data.len(),
    ensures
        data.subrange(at, at + 4) == bytes32(word32(data, at)),
{
    let s = data.subrange(at, at + 4);
    uintn::lemma_radix_values();
    uintn::lemma_le_value_bound(s);
    uintn::lemma_le_value_bytes(s);
}

/// Eight bytes are the encoding of the word they hold.
pub proof fn lemma_bytes64_of_word64(data: Seq<u8>, at: int)
    requires
        0 <= at,
        at + 8 <= data.len(),
    ensures
        data.subrange(at, at + 8) == bytes64(word64(data, at)),
{
    let s = data.subrange(at, at + 8);
    uintn::lemma_radix_values();
    uintn::lemma_le_value_bound(s);
    uintn::lemma_le_value_bytes(s);
}

fn read_le(data: &[u8], at: usize, width: usize) -> (v: u64)
    requires
        at + width <= data@.len(),
        width <= 8,
    ensures
        v == uintn::le_value(data@.subrange(at as int, at + width)),
        v < uintn::radix(width as nat),
{
    let ghost s = data@.subrange(at as int, at + width);
    let len: usize = data.len();
    let mut acc: u64 = 0;
    let mut i: usize = width;
    while i > 0
        invariant
            i <= width,
            width <= 8,
            at + width <= len,
            len == data@.len(),
            s == data@.subrange(at as int, at + width),
            acc == uintn::le_value(s.skip(i as int)),
        decreases i,
    {
        i = i - 1;
        proof {
            assert(s.skip(i as int).drop_first() =~= s.skip(i + 1));
            uintn::lemma_le_value_bound(s.skip(i as int));
            uintn::lemma_radix_monotone((width - i) as nat, 8);
            uintn::lemma_radix_values();
        }
        acc = acc * 256 + data[at + i] as u64;
    }
    proof {
        assert(s.skip(0) =~= s);
        uintn::lemma_le_value_bound(s);
    }
    acc
}

/// Reads the eight-byte word at `at`.
pub fn read_u64(data: &[u8], at: usize) -> (v: u64)
    requires
        at + 8 <= data@.len(),
    ensures
        v == word64(data@, at as int),
{
    read_le(data, at, 8)
}

/// Reads the four-byte word at `at`.
pub fn read_u32(data: &[u8], at: usize) -> (v: u32)
    requires
        at + 4 <= data@.len(),
    ensures
        v == word32(data@, at as int),
{
    let v: u64 = read_le(data, at, 4);
    proof {
        uintn::lemma_radix_values();
    }
    v as u32
}

fn push_le(out: &mut Vec<u8>, v: u64, width: usize)
    requires
        width <= 8,
    ensures
        final(out)@ == old(out)@ + uintn::le_bytes(v as nat, width as nat),
{
    let mut rest: u64 = v;
    let mut i: usize = 0;
    let ghost start = out@;
    while i < width
        invariant
            i <= width,
            out@ + uintn::le_bytes(rest as nat, (width - i) as nat) == start + uintn::le_bytes(
                v as nat,
                width as nat,
            ),
        decreases width - i,
    {
        let b: u8 = (rest % 256) as u8;
        let ghost before = out@;
        out.push(b);
        proof {
            let tail = uintn::le_bytes((rest / 256) as nat, (width - i - 1) as nat);
            assert(before + uintn::le_bytes(rest as nat, (width - i) as nat) =~= out@ + tail);
        }
        rest = rest / 256;
        i = i + 1;
    }
    assert(out@ + uintn::le_bytes(rest as nat, 0) =~= out@);
}

/// Appends the eight bytes of `v`.
pub fn push_u64(out: &mut Vec<u8>, v: u64)
    ensures
        final(out)@ == old(out)@ + bytes64(v),
{
    push_le(out, v, 8)
}

/// Appends the four bytes of `v`.
pub fn push_u32(out: &mut Vec<u8>, v: u32)
    ensures
        final(out)@ == old(out)@ + bytes32(v),
{
    push_le(out, v as u64, 4)
}

/// Appends a slice.
pub fn push_slice(out: &mut Vec<u8>, s: &[u8])
    ensures
        final(out)@ == old(out)@ + s@,
{
    let ghost start = out@;
    out.extend_from_slice(s);
    assert(out@ =~= start + s@);
}

} // verus!
