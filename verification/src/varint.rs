//! Canonical base-128 integers.
//!
//! Seven bits a byte, least significant first; the top bit says that another
//! byte follows. Only the shortest encoding of a value is accepted, so every
//! value has exactly one.

use vstd::prelude::*;

verus! {

/// The most bytes a 64-bit value takes.
pub const MAX_VARINT64_LEN: usize = 10;

/// The most bytes a 32-bit value takes.
pub const MAX_VARINT32_LEN: usize = 5;

#[derive(Debug, Clone, Copy, PartialEq, Eq, Structural)]
pub enum VarintError {
    /// The input ends before the last byte of the value.
    Truncated,
    /// The value does not fit the integer it is read into.
    Overflow,
    /// A shorter encoding of the same value exists.
    NonCanonical,
}

/// The one encoding of `v`.
pub open spec fn varint(v: nat) -> Seq<u8>
    decreases v,
{
    if v < 128 {
        seq![v as u8]
    } else {
        seq![(v % 128 + 128) as u8] + varint(v / 128)
    }
}

/// 128 to the power `n`.
pub open spec fn base128(n: nat) -> nat
    decreases n,
{
    if n == 0 {
        1
    } else {
        128 * base128((n - 1) as nat)
    }
}

/// The value that the low seven bits of each byte spell.
pub open spec fn payload(s: Seq<u8>) -> nat
    decreases s.len(),
{
    if s.len() == 0 {
        0
    } else {
        (s[0] % 128) as nat + 128 * payload(s.drop_first())
    }
}

/// How many bytes at the front announce a further one.
pub open spec fn continued(s: Seq<u8>) -> nat
    decreases s.len(),
{
    if s.len() == 0 || s[0] < 128 {
        0
    } else {
        1 + continued(s.drop_first())
    }
}

/// What reading an integer of at most `width` bytes, the last of them at most
/// `top`, makes of `data`: its value and how many bytes it took.
pub open spec fn outcome(data: Seq<u8>, width: nat, top: u8) -> Result<(nat, nat), VarintError> {
    let n = continued(data);
    if n + 1 >= width && data.len() >= width && data[width - 1] > top {
        Err(VarintError::Overflow)
    } else if n == data.len() {
        Err(VarintError::Truncated)
    } else if n > 0 && data[n as int] == 0 {
        Err(VarintError::NonCanonical)
    } else {
        Ok((payload(data.take((n + 1) as int)), n + 1))
    }
}

/// [`outcome`] for 64-bit values.
pub open spec fn outcome64(data: Seq<u8>) -> Result<(nat, nat), VarintError> {
    outcome(data, 10, 1)
}

/// [`outcome`] for 32-bit values.
pub open spec fn outcome32(data: Seq<u8>) -> Result<(nat, nat), VarintError> {
    outcome(data, 5, 15)
}

pub proof fn lemma_base128_values()
    ensures
        base128(4) == 0x1000_0000,
        base128(5) == 0x8_0000_0000,
        base128(9) == 0x8000_0000_0000_0000,
        base128(10) == 0x40_0000_0000_0000_0000,
{
    reveal_with_fuel(base128, 11);
}

proof fn lemma_base128_positive(n: nat)
    ensures
        base128(n) > 0,
    decreases n,
{
    if n > 0 {
        lemma_base128_positive((n - 1) as nat);
    }
}

proof fn lemma_base128_monotone(a: nat, b: nat)
    requires
        a <= b,
    ensures
        base128(a) <= base128(b),
    decreases b - a,
{
    lemma_base128_positive(a);
    if a < b {
        lemma_base128_monotone(a, (b - 1) as nat);
    }
}

/// The announcing bytes at the front of a byte string.
pub proof fn lemma_continued(s: Seq<u8>)
    ensures
        continued(s) <= s.len(),
        forall|i: int| 0 <= i < continued(s) ==> s[i] >= 128,
        continued(s) < s.len() ==> s[continued(s) as int] < 128,
    decreases s.len(),
{
    if s.len() > 0 && s[0] >= 128 {
        let rest = s.drop_first();
        lemma_continued(rest);
        assert forall|i: int| 0 <= i < continued(s) implies s[i] >= 128 by {
            if i > 0 {
                assert(s[i] == rest[i - 1]);
            }
        }
        if continued(s) < s.len() {
            assert(s[continued(s) as int] == rest[continued(rest) as int]);
        }
    }
}

/// The number of announcing bytes is where the first other byte stands.
pub proof fn lemma_continued_is(s: Seq<u8>, n: nat)
    requires
        n <= s.len(),
        forall|i: int| 0 <= i < n ==> s[i] >= 128,
        n < s.len() ==> s[n as int] < 128,
    ensures
        continued(s) == n,
{
    lemma_continued(s);
    let m = continued(s);
    if m < n {
        assert(s[m as int] >= 128);
    } else if n < m {
        assert(s[n as int] >= 128);
    }
}

proof fn lemma_payload_push(s: Seq<u8>, b: u8)
    ensures
        payload(s.push(b)) == payload(s) + base128(s.len()) * (b % 128),
    decreases s.len(),
{
    if s.len() == 0 {
        assert(s.push(b).drop_first() =~= Seq::<u8>::empty());
        assert(payload(Seq::<u8>::empty()) == 0);
        let m = b % 128;
        assert(base128(0) * m == m) by (nonlinear_arith)
            requires
                base128(0) == 1,
        ;
    } else {
        let rest = s.drop_first();
        assert(s.push(b).drop_first() =~= rest.push(b));
        lemma_payload_push(rest, b);
        let r = base128(rest.len());
        let m = b % 128;
        assert(128 * (r * m) == (128 * r) * m) by (nonlinear_arith);
    }
}

proof fn lemma_payload_bound(s: Seq<u8>)
    ensures
        payload(s) < base128(s.len()),
    decreases s.len(),
{
    if s.len() > 0 {
        lemma_payload_bound(s.drop_first());
    }
}

/// The shape of an encoding: announcing bytes, then one last byte that is not
/// zero unless it stands alone.
pub proof fn lemma_varint_shape(v: nat)
    ensures
        varint(v).len() >= 1,
        forall|i: int| 0 <= i < varint(v).len() - 1 ==> varint(v)[i] >= 128,
        varint(v).last() < 128,
        varint(v).len() > 1 ==> varint(v).last() != 0,
        payload(varint(v)) == v,
    decreases v,
{
    let s = varint(v);
    if v < 128 {
        assert(s.drop_first() =~= Seq::<u8>::empty());
        assert(payload(s.drop_first()) == 0);
    } else {
        let rest = varint(v / 128);
        lemma_varint_shape(v / 128);
        assert(s.drop_first() =~= rest);
        assert forall|i: int| 0 <= i < s.len() - 1 implies s[i] >= 128 by {
            if i > 0 {
                assert(s[i] == rest[i - 1]);
            }
        }
        assert(s.last() == rest.last());
        assert(s[0] % 128 == (v % 128) as u8);
    }
}

/// A value below `128^n` takes at most `n` bytes.
pub proof fn lemma_varint_len(v: nat, n: nat)
    requires
        v < base128(n),
        n >= 1,
    ensures
        1 <= varint(v).len() <= n,
    decreases n,
{
    if v >= 128 {
        assert(n >= 2) by {
            if n == 1 {
                assert(base128(1) == 128) by {
                    reveal_with_fuel(base128, 2);
                }
            }
        }
        lemma_varint_len(v / 128, (n - 1) as nat);
    }
}

pub open spec fn readable(v: nat, width: nat, top: u8) -> bool {
    ||| width == 10 && top == 1 && v <= u64::MAX
    ||| width == 5 && top == 15 && v <= u32::MAX
}

proof fn lemma_last_byte(v: nat, width: nat, top: u8)
    requires
        readable(v, width, top),
    ensures
        varint(v).len() <= width,
        varint(v).len() == width ==> varint(v).last() <= top,
{
    lemma_base128_values();
    lemma_varint_len(v, width);
    lemma_varint_shape(v);
    let s = varint(v);
    if s.len() == width {
        assert(s =~= s.drop_last().push(s.last()));
        lemma_payload_push(s.drop_last(), s.last());
        let r = base128((width - 1) as nat);
        let m = s.last();
        assert(r * (m % 128) <= v);
        assert(m % 128 == m);
        if m > top {
            if width == 10 {
                assert(r * m >= r * 2) by (nonlinear_arith)
                    requires
                        m >= 2,
                        r >= 0,
                ;
            } else {
                assert(r * m >= r * 16) by (nonlinear_arith)
                    requires
                        m >= 16,
                        r >= 0,
                ;
            }
        }
    }
}

/// Writing a value and reading it back, with anything behind it, gives the
/// value and takes exactly its bytes.
pub proof fn varint_roundtrip(v: nat, rest: Seq<u8>, width: nat, top: u8)
    requires
        readable(v, width, top),
    ensures
        outcome(varint(v) + rest, width, top) == Ok::<(nat, nat), VarintError>(
            (v, varint(v).len()),
        ),
{
    let s = varint(v);
    let data = s + rest;
    lemma_varint_shape(v);
    lemma_last_byte(v, width, top);
    let n = (s.len() - 1) as nat;
    assert(forall|i: int| 0 <= i < s.len() ==> data[i] == s[i]);
    lemma_continued_is(data, n);
    assert(data.take((n + 1) as int) =~= s);
}

/// An accepted input is the one encoding of the value it yields.
pub proof fn varint_is_canonical(data: Seq<u8>, width: nat, top: u8)
    requires
        outcome(data, width, top) is Ok,
    ensures
        ({
            let (v, n) = outcome(data, width, top)->Ok_0;
            &&& n <= data.len()
            &&& data.take(n as int) == varint(v)
        }),
{
    let n = continued(data);
    lemma_continued(data);
    let s = data.take((n + 1) as int);
    assert forall|i: int| 0 <= i < n implies s[i] >= 128 by {
        assert(s[i] == data[i]);
    }
    lemma_payload_varint(s);
}

proof fn lemma_payload_varint(s: Seq<u8>)
    requires
        s.len() >= 1,
        forall|i: int| 0 <= i < s.len() - 1 ==> s[i] >= 128,
        s.last() < 128,
        s.len() > 1 ==> s.last() != 0,
    ensures
        varint(payload(s)) == s,
        s.len() > 1 ==> payload(s) >= 128,
        s.last() != 0 ==> payload(s) > 0,
    decreases s.len(),
{
    let rest = s.drop_first();
    if s.len() == 1 {
        assert(rest =~= Seq::<u8>::empty());
        assert(payload(rest) == 0);
        assert(s[0] % 128 == s[0]);
        assert(s =~= seq![s[0]]);
    } else {
        assert forall|i: int| 0 <= i < rest.len() - 1 implies rest[i] >= 128 by {
            assert(rest[i] == s[i + 1]);
        }
        assert(rest.last() == s.last());
        lemma_payload_varint(rest);
        let v = payload(s);
        assert(v >= 128);
        assert(v / 128 == payload(rest) && v % 128 == s[0] % 128);
        assert((v % 128 + 128) as u8 == s[0]);
        assert(s =~= seq![s[0]] + rest);
    }
}

/// Every proper prefix of an encoding is cut short, not misread.
pub proof fn varint_prefix_is_truncated(v: nat, k: int, width: nat, top: u8)
    requires
        readable(v, width, top),
        0 <= k < varint(v).len(),
    ensures
        outcome(varint(v).take(k), width, top) == Err::<(nat, nat), VarintError>(
            VarintError::Truncated,
        ),
{
    let s = varint(v).take(k);
    lemma_varint_shape(v);
    lemma_last_byte(v, width, top);
    assert forall|i: int| 0 <= i < k implies s[i] >= 128 by {
        assert(s[i] == varint(v)[i]);
    }
    lemma_continued_is(s, k as nat);
}

/// An accepted value fits the integer it is read into.
pub proof fn lemma_outcome_bounds(data: Seq<u8>, width: nat, top: u8)
    requires
        width == 10 && top == 1 || width == 5 && top == 15,
        outcome(data, width, top) is Ok,
    ensures
        readable(outcome(data, width, top)->Ok_0.0, width, top),
        1 <= outcome(data, width, top)->Ok_0.1 <= width,
        outcome(data, width, top)->Ok_0.1 <= data.len(),
{
    let n = continued(data);
    lemma_continued(data);
    lemma_base128_values();
    let s = data.take((n + 1) as int);
    if n + 1 > width {
        assert(data[width - 1] >= 128);
    } else if n + 1 == width {
        assert(s =~= s.drop_last().push(s.last()));
        lemma_payload_push(s.drop_last(), s.last());
        lemma_payload_bound(s.drop_last());
        let r = base128(n);
        let m = s.last();
        assert(m % 128 == m);
        assert(r * m <= r * top) by (nonlinear_arith)
            requires
                m <= top,
                r >= 0,
        ;
    } else {
        lemma_payload_bound(s);
        lemma_base128_monotone(n + 1, (width - 1) as nat);
    }
}

/// The 64-bit value at `at` and where it ends.
pub open spec fn field(data: Seq<u8>, at: nat) -> Result<(u64, nat), VarintError> {
    match outcome64(data.skip(at as int)) {
        Ok((v, n)) => Ok((v as u64, at + n)),
        Err(e) => Err(e),
    }
}

/// A value written at `at` is read there.
pub proof fn lemma_field_written(data: Seq<u8>, at: nat, v: u64)
    requires
        at + varint(v as nat).len() <= data.len(),
        data.subrange(at as int, (at + varint(v as nat).len()) as int) == varint(v as nat),
    ensures
        field(data, at) == Ok::<(u64, nat), VarintError>((v, at + varint(v as nat).len())),
{
    let s = varint(v as nat);
    let rest = data.skip((at + s.len()) as int);
    assert(data.skip(at as int) =~= s + rest);
    varint_roundtrip(v as nat, rest, 10, 1);
}

/// A value whose bytes are cut off is reported as cut short.
pub proof fn lemma_field_cut(data: Seq<u8>, at: nat, v: u64)
    requires
        at <= data.len() < at + varint(v as nat).len(),
        data.skip(at as int) == varint(v as nat).take(data.len() - at),
    ensures
        field(data, at) == Err::<(u64, nat), VarintError>(VarintError::Truncated),
{
    varint_prefix_is_truncated(v as nat, data.len() - at, 10, 1);
}

/// A value that was read stands there in its one encoding.
pub proof fn lemma_field_read(data: Seq<u8>, at: nat)
    requires
        at <= data.len(),
        field(data, at) is Ok,
    ensures
        ({
            let (v, end) = field(data, at)->Ok_0;
            &&& at < end <= data.len()
            &&& end <= at + 10
            &&& data.subrange(at as int, end as int) == varint(v as nat)
        }),
{
    let s = data.skip(at as int);
    let (v, n) = outcome64(s)->Ok_0;
    varint_is_canonical(s, 10, 1);
    lemma_outcome_bounds(s, 10, 1);
    assert(data.subrange(at as int, (at + n) as int) =~= s.take(n as int));
}

proof fn lemma_continued_extended(s: Seq<u8>, more: Seq<u8>)
    requires
        continued(s) < s.len(),
    ensures
        continued(s + more) == continued(s),
{
    lemma_continued(s);
    let n = continued(s);
    assert(forall|i: int| 0 <= i < s.len() ==> (s + more)[i] == s[i]);
    lemma_continued_is(s + more, n);
}

/// Once enough bytes are there to decide on a value, more change nothing.
pub proof fn lemma_field_stable(data: Seq<u8>, more: Seq<u8>, at: nat)
    requires
        at <= data.len(),
        field(data, at) != Err::<(u64, nat), VarintError>(VarintError::Truncated),
    ensures
        field(data + more, at) == field(data, at),
{
    let s = data.skip(at as int);
    assert((data + more).skip(at as int) =~= s + more);
    lemma_continued(s);
    lemma_continued(s + more);
    let n = continued(s);
    assert(forall|i: int| 0 <= i < s.len() ==> (s + more)[i] == s[i]);
    if n < s.len() {
        lemma_continued_extended(s, more);
        assert((s + more).take((n + 1) as int) =~= s.take((n + 1) as int));
    } else {
        // Overflow: the tenth byte is there and decides.
        let m = continued(s + more);
        if m < n {
            assert((s + more)[m as int] == s[m as int]);
        }
    }
}

fn decode(data: &[u8], width: usize, top: u8) -> (res: Result<(u64, usize), VarintError>)
    requires
        width == 10 && top == 1 || width == 5 && top == 15,
    ensures
        match (res, outcome(data@, width as nat, top)) {
            (Ok((v, n)), Ok((w, m))) => v == w && n == m && n <= data@.len() && n <= width
                && readable(w, width as nat, top),
            (Err(e), Err(f)) => e == f,
            _ => false,
        },
{
    let mut acc: u64 = 0;
    let mut scale: u64 = 1;
    let mut i: usize = 0;
    assert(data@.take(0) =~= Seq::<u8>::empty());
    while i < width
        invariant
            width == 10 && top == 1 || width == 5 && top == 15,
            i <= width,
            i <= data@.len(),
            i < width ==> scale == base128(i as nat),
            acc == payload(data@.take(i as int)),
            acc < base128(i as nat),
            forall|j: int| 0 <= j < i ==> data@[j] >= 128,
            i == width ==> data@[width - 1] <= top,
        decreases width - i,
    {
        proof {
            lemma_base128_values();
            lemma_base128_monotone(i as nat, (width - 1) as nat);
        }
        if i == data.len() {
            proof {
                lemma_continued_is(data@, i as nat);
            }
            return Err(VarintError::Truncated);
        }
        let b: u8 = data[i];
        if i == width - 1 && b > top {
            proof {
                lemma_continued(data@);
                let n = continued(data@);
                if n < i {
                    assert(data@[n as int] >= 128);
                }
            }
            return Err(VarintError::Overflow);
        }
        if b < 128 {
            proof {
                lemma_continued_is(data@, i as nat);
                let s = data@.take(i as int);
                assert(data@.take(i + 1) =~= s.push(b));
                lemma_payload_push(s, b);
                assert(b % 128 == b);
            }
            if b == 0 && i > 0 {
                return Err(VarintError::NonCanonical);
            }
            proof {
                lemma_outcome_bounds(data@, width as nat, top);
                assert(scale * b <= u64::MAX) by (nonlinear_arith)
                    requires
                        scale * b + acc <= u64::MAX,
                        acc >= 0,
                ;
            }
            return Ok((acc + scale * (b as u64), i + 1));
        }
        proof {
            let s = data@.take(i as int);
            assert(data@.take(i + 1) =~= s.push(b));
            lemma_payload_push(s, b);
            lemma_payload_bound(s.push(b));
            assert(i + 1 < width);
            lemma_base128_monotone((i + 1) as nat, (width - 1) as nat);
        }
        acc = acc + scale * ((b % 128) as u64);
        scale = scale * 128;
        i = i + 1;
    }
    proof {
        assert(data@[width - 1] >= 128);
    }
    Err(VarintError::Overflow)
}

/// Reads a 64-bit value off the front of `data`.
pub fn decode_u64(data: &[u8]) -> (res: Result<(u64, usize), VarintError>)
    ensures
        match (res, outcome64(data@)) {
            (Ok((v, n)), Ok((w, m))) => v == w && n == m && n <= data@.len() && n <= 10,
            (Err(e), Err(f)) => e == f,
            _ => false,
        },
{
    decode(data, 10, 1)
}

/// Reads the 64-bit value at `at` and says where it ends.
pub fn decode_field(data: &[u8], at: usize) -> (res: Result<(u64, usize), VarintError>)
    requires
        at <= data@.len(),
    ensures
        match (res, field(data@, at as nat)) {
            (Ok((v, n)), Ok((w, m))) => v == w && n == m && at < n <= data@.len(),
            (Err(e), Err(f)) => e == f,
            _ => false,
        },
{
    let len: usize = data.len();
    let rest = vstd::slice::slice_subrange(data, at, len);
    assert(rest@ =~= data@.skip(at as int));
    match decode_u64(rest) {
        Ok((v, n)) => {
            proof {
                lemma_outcome_bounds(rest@, 10, 1);
            }
            Ok((v, at + n))
        },
        Err(e) => Err(e),
    }
}

/// Reads a 32-bit value off the front of `data`.
pub fn decode_u32(data: &[u8]) -> (res: Result<(u32, usize), VarintError>)
    ensures
        match (res, outcome32(data@)) {
            (Ok((v, n)), Ok((w, m))) => v == w && n == m && n <= data@.len() && n <= 5,
            (Err(e), Err(f)) => e == f,
            _ => false,
        },
{
    match decode(data, 5, 15) {
        Ok((v, n)) => Ok((v as u32, n)),
        Err(e) => Err(e),
    }
}

/// How many bytes `v` takes.
pub fn encoded_len_u64(v: u64) -> (n: usize)
    ensures
        n == varint(v as nat).len(),
        1 <= n <= 10,
{
    let mut rest: u64 = v;
    let mut n: usize = 1;
    proof {
        lemma_base128_values();
        lemma_varint_len(v as nat, 10);
    }
    while rest >= 128
        invariant
            n >= 1,
            varint(v as nat).len() <= 10,
            n - 1 + varint(rest as nat).len() == varint(v as nat).len(),
        decreases rest,
    {
        proof {
            lemma_varint_shape((rest / 128) as nat);
        }
        rest = rest / 128;
        n = n + 1;
    }
    n
}

/// Appends the encoding of `v`.
pub fn push_u64(out: &mut Vec<u8>, v: u64)
    ensures
        final(out)@ == old(out)@ + varint(v as nat),
{
    let mut rest: u64 = v;
    let ghost start = out@;
    while rest >= 128
        invariant
            out@ + varint(rest as nat) == start + varint(v as nat),
        decreases rest,
    {
        let ghost before = out@;
        let b: u8 = (rest % 128 + 128) as u8;
        out.push(b);
        assert(before + varint(rest as nat) =~= out@ + varint((rest / 128) as nat));
        rest = rest / 128;
    }
    let ghost before = out@;
    out.push(rest as u8);
    assert(out@ =~= before + varint(rest as nat));
}

} // verus!
