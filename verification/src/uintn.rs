//! Unsigned integers of any width.
//!
//! Entry ids, file ids and entry counts have no fixed width: an on-disk file
//! states how many bytes each of them takes. A [`UintN`] holds its value as
//! little-endian bytes without leading zeros, so two of them are equal exactly
//! when their bytes are.

use vstd::prelude::*;

verus! {

/// The value of a little-endian byte string.
pub open spec fn le_value(s: Seq<u8>) -> nat
    decreases s.len(),
{
    if s.len() == 0 {
        0
    } else {
        (s[0] as nat) + 256 * le_value(s.drop_first())
    }
}

/// 256 to the power `n`: the first value that `n` bytes cannot hold.
pub open spec fn radix(n: nat) -> nat
    decreases n,
{
    if n == 0 {
        1
    } else {
        256 * radix((n - 1) as nat)
    }
}

/// The little-endian bytes of `v`, `width` of them.
pub open spec fn le_bytes(v: nat, width: nat) -> Seq<u8>
    decreases width,
{
    if width == 0 {
        Seq::empty()
    } else {
        seq![(v % 256) as u8] + le_bytes(v / 256, (width - 1) as nat)
    }
}

pub proof fn lemma_radix_positive(n: nat)
    ensures
        radix(n) > 0,
    decreases n,
{
    if n > 0 {
        lemma_radix_positive((n - 1) as nat);
    }
}

pub proof fn lemma_radix_values()
    ensures
        radix(1) == 0x100,
        radix(2) == 0x1_0000,
        radix(4) == 0x1_0000_0000,
        radix(8) == 0x1_0000_0000_0000_0000,
        radix(16) == 0x1_0000_0000_0000_0000_0000_0000_0000_0000,
{
    reveal_with_fuel(radix, 17);
}

pub proof fn lemma_radix_monotone(a: nat, b: nat)
    requires
        a <= b,
    ensures
        radix(a) <= radix(b),
    decreases b - a,
{
    lemma_radix_positive(a);
    if a < b {
        lemma_radix_monotone(a, (b - 1) as nat);
    }
}

pub proof fn lemma_le_value_bound(s: Seq<u8>)
    ensures
        le_value(s) < radix(s.len()),
    decreases s.len(),
{
    if s.len() > 0 {
        lemma_le_value_bound(s.drop_first());
    }
}

pub proof fn lemma_le_value_push(s: Seq<u8>, b: u8)
    ensures
        le_value(s.push(b)) == le_value(s) + radix(s.len()) * b,
    decreases s.len(),
{
    if s.len() == 0 {
        assert(s.push(b).drop_first() =~= Seq::<u8>::empty());
        assert(le_value(Seq::<u8>::empty()) == 0);
        assert(radix(0) * b == b) by (nonlinear_arith)
            requires
                radix(0) == 1,
        ;
    } else {
        let rest = s.drop_first();
        assert(s.push(b).drop_first() =~= rest.push(b));
        lemma_le_value_push(rest, b);
        let r = radix(rest.len());
        assert(256 * (r * b) == (256 * r) * b) by (nonlinear_arith);
    }
}

pub proof fn lemma_le_value_split(s: Seq<u8>, k: int)
    requires
        0 <= k <= s.len(),
    ensures
        le_value(s) == le_value(s.take(k)) + radix(k as nat) * le_value(s.skip(k)),
    decreases k,
{
    if k == 0 {
        assert(s.take(0) =~= Seq::<u8>::empty());
        assert(s.skip(0) =~= s);
        assert(radix(0) * le_value(s) == le_value(s)) by (nonlinear_arith)
            requires
                radix(0) == 1,
        ;
    } else {
        let rest = s.drop_first();
        lemma_le_value_split(rest, k - 1);
        assert(s.take(k).drop_first() =~= rest.take(k - 1));
        assert(s.skip(k) =~= rest.skip(k - 1));
        let r = radix((k - 1) as nat);
        let v = le_value(s.skip(k));
        assert(256 * (r * v) == (256 * r) * v) by (nonlinear_arith);
    }
}

/// Leading zeros do not change a value.
pub proof fn lemma_le_value_zeros(s: Seq<u8>, n: nat)
    ensures
        le_value(s + Seq::new(n, |i: int| 0u8)) == le_value(s),
    decreases n,
{
    let zeros = Seq::new(n, |i: int| 0u8);
    if n == 0 {
        assert(s + zeros =~= s);
    } else {
        let fewer = Seq::new((n - 1) as nat, |i: int| 0u8);
        assert(s + zeros =~= (s + fewer).push(0u8));
        lemma_le_value_push(s + fewer, 0u8);
        lemma_le_value_zeros(s, (n - 1) as nat);
        let r = radix((s + fewer).len());
        assert(r * 0u8 == 0) by (nonlinear_arith);
    }
}

pub proof fn lemma_le_bytes_len(v: nat, width: nat)
    ensures
        le_bytes(v, width).len() == width,
    decreases width,
{
    if width > 0 {
        lemma_le_bytes_len(v / 256, (width - 1) as nat);
    }
}

/// Reading back the bytes of a value gives the value, when the width holds it.
pub proof fn lemma_le_bytes_value(v: nat, width: nat)
    requires
        v < radix(width),
    ensures
        le_bytes(v, width).len() == width,
        le_value(le_bytes(v, width)) == v,
    decreases width,
{
    if width > 0 {
        assert(v / 256 < radix((width - 1) as nat));
        lemma_le_bytes_value(v / 256, (width - 1) as nat);
        assert(le_bytes(v, width).drop_first() =~= le_bytes(v / 256, (width - 1) as nat));
    }
}

/// Every byte string is the encoding of its own value.
pub proof fn lemma_le_value_bytes(s: Seq<u8>)
    ensures
        le_bytes(le_value(s), s.len()) == s,
    decreases s.len(),
{
    if s.len() > 0 {
        let rest = s.drop_first();
        lemma_le_value_bytes(rest);
        let v = le_value(s);
        assert(v % 256 == s[0] as nat && v / 256 == le_value(rest));
        assert(s =~= seq![s[0]] + rest);
    } else {
        assert(s =~= Seq::<u8>::empty());
    }
}

/// The first differing byte from the top decides which value is smaller.
proof fn lemma_le_value_less(a: Seq<u8>, b: Seq<u8>, i: int)
    requires
        a.len() == b.len(),
        0 <= i < a.len(),
        a.skip(i + 1) == b.skip(i + 1),
        a[i] < b[i],
    ensures
        le_value(a) < le_value(b),
{
    lemma_le_value_split(a, i);
    lemma_le_value_split(b, i);
    lemma_le_value_bound(a.take(i));
    assert(a.skip(i).drop_first() =~= a.skip(i + 1));
    assert(b.skip(i).drop_first() =~= b.skip(i + 1));
    let r = radix(i as nat);
    let x = le_value(a.skip(i));
    let y = le_value(b.skip(i));
    assert(x + 1 <= y);
    assert(r * x + r <= r * y) by (nonlinear_arith)
        requires
            x + 1 <= y,
            r >= 0,
    ;
}

/// A value without leading zeros is at least the smallest of its length.
proof fn lemma_le_value_lower(s: Seq<u8>)
    requires
        s.len() > 0,
        s.last() != 0,
    ensures
        le_value(s) >= radix((s.len() - 1) as nat),
{
    assert(s =~= s.drop_last().push(s.last()));
    lemma_le_value_push(s.drop_last(), s.last());
    let r = radix((s.len() - 1) as nat);
    let t = s.last();
    assert(r * t >= r) by (nonlinear_arith)
        requires
            t >= 1,
            r >= 0,
    ;
}

/// Why an operation on a [`UintN`] has no result.
#[derive(Debug, Clone, Copy, PartialEq, Eq, Structural)]
pub enum UintNError {
    /// A subtraction would go below zero.
    Underflow,
    /// The value does not fit in the requested width.
    TooLarge,
    /// No number is stored in this many bytes.
    InvalidSize(u64),
}

/// An unsigned integer of any width.
#[derive(Debug, PartialEq, Eq, Hash)]
pub struct UintN {
    bytes: Vec<u8>,
}

impl View for UintN {
    type V = nat;

    closed spec fn view(&self) -> nat {
        le_value(self.bytes@)
    }
}

impl Clone for UintN {
    fn clone(&self) -> (res: Self)
        ensures
            res@ == self@,
    {
        proof {
            use_type_invariant(self);
        }
        let bytes = self.bytes.clone();
        assert(bytes@ =~= self.bytes@);
        UintN { bytes }
    }
}

impl UintN {
    #[verifier::type_invariant]
    spec fn normalised(self) -> bool {
        self.bytes@.len() > 0 ==> self.bytes@.last() != 0
    }

    /// The value of `bytes`, least significant first.
    pub fn from_le_bytes(bytes: &[u8]) -> (res: UintN)
        ensures
            res@ == le_value(bytes@),
    {
        UintN::trimmed(vstd::slice::slice_to_vec(bytes))
    }

    fn trimmed(bytes: Vec<u8>) -> (res: UintN)
        ensures
            res@ == le_value(bytes@),
    {
        let mut bytes = bytes;
        let ghost all = bytes@;
        while bytes.len() > 0 && bytes[bytes.len() - 1] == 0
            invariant
                le_value(bytes@) == le_value(all),
            decreases bytes.len(),
        {
            proof {
                let kept = bytes@.drop_last();
                assert(bytes@ =~= kept.push(0u8));
                lemma_le_value_push(kept, 0u8);
                let r = radix(kept.len());
                assert(r * 0u8 == 0) by (nonlinear_arith);
            }
            bytes.pop();
        }
        UintN { bytes }
    }

    pub fn zero() -> (res: UintN)
        ensures
            res@ == 0,
    {
        UintN { bytes: Vec::new() }
    }

    pub fn one() -> (res: UintN)
        ensures
            res@ == 1,
    {
        UintN::from_u64(1)
    }

    pub fn from_u128(v: u128) -> (res: UintN)
        ensures
            res@ == v,
    {
        let mut bytes: Vec<u8> = Vec::new();
        let mut rest: u128 = v;
        proof {
            let r = radix(0);
            assert(r * v == v) by (nonlinear_arith)
                requires
                    r == 1,
            ;
        }
        while rest > 0
            invariant
                v == le_value(bytes@) + radix(bytes@.len()) * rest,
                bytes@.len() > 0 && rest == 0 ==> bytes@.last() != 0,
            decreases rest,
        {
            let b: u8 = (rest % 256) as u8;
            let next: u128 = rest / 256;
            proof {
                lemma_le_value_push(bytes@, b);
                let r = radix(bytes@.len());
                assert(r * rest == r * b + (256 * r) * next) by (nonlinear_arith)
                    requires
                        rest == b + 256 * next,
                ;
            }
            bytes.push(b);
            rest = next;
        }
        proof {
            let r = radix(bytes@.len());
            assert(r * 0u128 == 0) by (nonlinear_arith);
        }
        UintN { bytes }
    }

    pub fn from_u64(v: u64) -> (res: UintN)
        ensures
            res@ == v,
    {
        UintN::from_u128(v as u128)
    }

    pub fn is_zero(&self) -> (res: bool)
        ensures
            res == (self@ == 0),
    {
        proof {
            use_type_invariant(self);
            if self.bytes@.len() > 0 {
                lemma_le_value_lower(self.bytes@);
                lemma_radix_positive((self.bytes@.len() - 1) as nat);
            }
        }
        self.bytes.len() == 0
    }

    /// How many bytes the value needs.
    pub fn byte_len(&self) -> (res: usize)
        ensures
            self@ < radix(res as nat),
            res > 0 ==> self@ >= radix((res - 1) as nat),
    {
        proof {
            use_type_invariant(self);
            lemma_le_value_bound(self.bytes@);
            if self.bytes@.len() > 0 {
                lemma_le_value_lower(self.bytes@);
            }
        }
        self.bytes.len()
    }

    fn byte_at(&self, i: usize) -> (res: u8)
        ensures
            res == (if i < self.bytes@.len() { self.bytes@[i as int] } else { 0u8 }),
    {
        if i < self.bytes.len() {
            self.bytes[i]
        } else {
            0
        }
    }

    /// The value as a `u64`, where it fits in one.
    pub fn to_u64(&self) -> (res: Result<u64, UintNError>)
        ensures
            match res {
                Ok(v) => v == self@,
                Err(e) => self@ > u64::MAX && e == UintNError::TooLarge,
            },
    {
        proof {
            use_type_invariant(self);
            lemma_radix_values();
        }
        let len: usize = self.bytes.len();
        if len > 8 {
            proof {
                lemma_le_value_lower(self.bytes@);
                lemma_radix_monotone(8, (len - 1) as nat);
            }
            return Err(UintNError::TooLarge);
        }
        let mut acc: u64 = 0;
        let mut i: usize = len;
        while i > 0
            invariant
                i <= len,
                len <= 8,
                len == self.bytes@.len(),
                acc == le_value(self.bytes@.skip(i as int)),
            decreases i,
        {
            i = i - 1;
            proof {
                let s = self.bytes@;
                assert(s.skip(i as int).drop_first() =~= s.skip(i + 1));
                lemma_le_value_bound(s.skip(i as int));
                lemma_radix_monotone((len - i) as nat, 8);
                lemma_radix_values();
            }
            acc = acc * 256 + self.bytes[i] as u64;
        }
        assert(self.bytes@.skip(0) =~= self.bytes@);
        Ok(acc)
    }

    /// The value as exactly `width` little-endian bytes, where it fits.
    pub fn to_le_bytes(&self, width: usize) -> (res: Result<Vec<u8>, UintNError>)
        ensures
            match res {
                Ok(b) => self@ < radix(width as nat) && b@ == le_bytes(self@, width as nat),
                Err(e) => self@ >= radix(width as nat) && e == UintNError::TooLarge,
            },
    {
        proof {
            use_type_invariant(self);
        }
        if self.bytes.len() > width {
            proof {
                lemma_le_value_lower(self.bytes@);
                lemma_radix_monotone(width as nat, (self.bytes@.len() - 1) as nat);
            }
            return Err(UintNError::TooLarge);
        }
        let mut out = self.bytes.clone();
        assert(out@ =~= self.bytes@);
        let ghost n = self.bytes@.len();
        while out.len() < width
            invariant
                n <= out@.len() <= width,
                out@ == self.bytes@ + Seq::new((out@.len() - n) as nat, |i: int| 0u8),
                n == self.bytes@.len(),
            decreases width - out.len(),
        {
            out.push(0);
            assert(out@ =~= self.bytes@ + Seq::new((out@.len() - n) as nat, |i: int| 0u8));
        }
        proof {
            lemma_le_value_zeros(self.bytes@, (width - n) as nat);
            lemma_le_value_bytes(out@);
            lemma_le_value_bound(out@);
        }
        Ok(out)
    }

    pub fn is_less(&self, other: &UintN) -> (res: bool)
        ensures
            res == (self@ < other@),
    {
        proof {
            use_type_invariant(self);
            use_type_invariant(other);
            lemma_le_value_bound(self.bytes@);
            lemma_le_value_bound(other.bytes@);
        }
        let n: usize = self.bytes.len();
        let m: usize = other.bytes.len();
        if n < m {
            proof {
                lemma_le_value_lower(other.bytes@);
                lemma_radix_monotone(n as nat, (m - 1) as nat);
            }
            return true;
        }
        if m < n {
            proof {
                lemma_le_value_lower(self.bytes@);
                lemma_radix_monotone(m as nat, (n - 1) as nat);
            }
            return false;
        }
        let mut i: usize = n;
        while i > 0
            invariant
                i <= n,
                n == self.bytes@.len(),
                n == other.bytes@.len(),
                self.bytes@.skip(i as int) == other.bytes@.skip(i as int),
            decreases i,
        {
            i = i - 1;
            if self.bytes[i] < other.bytes[i] {
                proof {
                    lemma_le_value_less(self.bytes@, other.bytes@, i as int);
                }
                return true;
            }
            if self.bytes[i] > other.bytes[i] {
                proof {
                    lemma_le_value_less(other.bytes@, self.bytes@, i as int);
                }
                return false;
            }
            proof {
                let a = self.bytes@;
                let b = other.bytes@;
                assert(a.skip(i as int) =~= seq![a[i as int]] + a.skip(i + 1));
                assert(b.skip(i as int) =~= seq![b[i as int]] + b.skip(i + 1));
            }
        }
        assert(self.bytes@.skip(0) =~= self.bytes@);
        assert(other.bytes@.skip(0) =~= other.bytes@);
        false
    }

    pub fn is_at_most(&self, other: &UintN) -> (res: bool)
        ensures
            res == (self@ <= other@),
    {
        !other.is_less(self)
    }

    pub fn equals(&self, other: &UintN) -> (res: bool)
        ensures
            res == (self@ == other@),
    {
        self.is_at_most(other) && other.is_at_most(self)
    }

    /// The sum. It never overflows: the result is as wide as it has to be.
    pub fn add(&self, other: &UintN) -> (res: UintN)
        ensures
            res@ == self@ + other@,
    {
        let n: usize = self.bytes.len();
        let m: usize = other.bytes.len();
        let len: usize = if n < m {
            m
        } else {
            n
        };
        let ghost a = self.bytes@ + Seq::new((len - n) as nat, |i: int| 0u8);
        let ghost b = other.bytes@ + Seq::new((len - m) as nat, |i: int| 0u8);
        let mut out: Vec<u8> = Vec::new();
        let mut carry: u16 = 0;
        let mut i: usize = 0;
        proof {
            assert(a.take(0) =~= Seq::<u8>::empty());
            assert(b.take(0) =~= Seq::<u8>::empty());
            let r = radix(0);
            assert(r * 0u16 == 0) by (nonlinear_arith);
        }
        while i < len
            invariant
                i <= len,
                i == out@.len(),
                carry <= 1,
                a == self.bytes@ + Seq::new((len - n) as nat, |i: int| 0u8),
                b == other.bytes@ + Seq::new((len - m) as nat, |i: int| 0u8),
                n == self.bytes@.len(),
                m == other.bytes@.len(),
                n <= len,
                m <= len,
                le_value(out@) + radix(i as nat) * carry == le_value(a.take(i as int)) + le_value(
                    b.take(i as int),
                ),
            decreases len - i,
        {
            let x: u16 = self.byte_at(i) as u16;
            let y: u16 = other.byte_at(i) as u16;
            let sum: u16 = x + y + carry;
            let low: u8 = (sum % 256) as u8;
            let next: u16 = sum / 256;
            proof {
                assert(a.take(i + 1) =~= a.take(i as int).push(x as u8));
                assert(b.take(i + 1) =~= b.take(i as int).push(y as u8));
                lemma_le_value_push(a.take(i as int), x as u8);
                lemma_le_value_push(b.take(i as int), y as u8);
                lemma_le_value_push(out@, low);
                let r = radix(i as nat);
                assert(r * low + (256 * r) * next == r * carry + r * (x as u8) + r * (y as u8))
                    by (nonlinear_arith)
                    requires
                        low + 256 * next == carry + (x as u8) + (y as u8),
                ;
            }
            out.push(low);
            carry = next;
            i = i + 1;
        }
        proof {
            lemma_le_value_zeros(self.bytes@, (len - n) as nat);
            lemma_le_value_zeros(other.bytes@, (len - m) as nat);
            assert(a.take(len as int) =~= a);
            assert(b.take(len as int) =~= b);
            lemma_le_value_push(out@, carry as u8);
        }
        out.push(carry as u8);
        UintN::trimmed(out)
    }

    /// The next value.
    pub fn increment(&self) -> (res: UintN)
        ensures
            res@ == self@ + 1,
    {
        self.add(&UintN::one())
    }

    /// The difference, unless it would go below zero.
    pub fn sub(&self, other: &UintN) -> (res: Result<UintN, UintNError>)
        ensures
            match res {
                Ok(d) => other@ <= self@ && d@ == self@ - other@,
                Err(e) => self@ < other@ && e == UintNError::Underflow,
            },
    {
        if self.is_less(other) {
            return Err(UintNError::Underflow);
        }
        let n: usize = self.bytes.len();
        let m: usize = other.bytes.len();
        proof {
            use_type_invariant(self);
            use_type_invariant(other);
            if n < m {
                lemma_le_value_lower(other.bytes@);
                lemma_le_value_bound(self.bytes@);
                lemma_radix_monotone(n as nat, (m - 1) as nat);
            }
        }
        let ghost a = self.bytes@;
        let ghost b = other.bytes@ + Seq::new((n - m) as nat, |i: int| 0u8);
        let mut out: Vec<u8> = Vec::new();
        let mut borrow: u16 = 0;
        let mut i: usize = 0;
        proof {
            assert(a.take(0) =~= Seq::<u8>::empty());
            assert(b.take(0) =~= Seq::<u8>::empty());
            let r = radix(0);
            assert(r * 0u16 == 0) by (nonlinear_arith);
        }
        while i < n
            invariant
                i <= n,
                i == out@.len(),
                borrow <= 1,
                m <= n,
                a == self.bytes@,
                b == other.bytes@ + Seq::new((n - m) as nat, |i: int| 0u8),
                n == self.bytes@.len(),
                m == other.bytes@.len(),
                le_value(a.take(i as int)) + radix(i as nat) * borrow == le_value(
                    b.take(i as int),
                ) + le_value(out@),
            decreases n - i,
        {
            let x: u16 = self.bytes[i] as u16;
            let y: u16 = other.byte_at(i) as u16;
            let d: u16 = x + 256 - y - borrow;
            let low: u8 = (d % 256) as u8;
            let next: u16 = 1 - d / 256;
            proof {
                assert(a.take(i + 1) =~= a.take(i as int).push(x as u8));
                assert(b.take(i + 1) =~= b.take(i as int).push(y as u8));
                lemma_le_value_push(a.take(i as int), x as u8);
                lemma_le_value_push(b.take(i as int), y as u8);
                lemma_le_value_push(out@, low);
                let r = radix(i as nat);
                assert(r * (x as u8) + (256 * r) * next == r * borrow + r * (y as u8) + r * low)
                    by (nonlinear_arith)
                    requires
                        (x as u8) + 256 * next == borrow + (y as u8) + low,
                ;
            }
            out.push(low);
            borrow = next;
            i = i + 1;
        }
        proof {
            lemma_le_value_zeros(other.bytes@, (n - m) as nat);
            assert(a.take(n as int) =~= a);
            assert(b.take(n as int) =~= b);
            lemma_le_value_bound(out@);
            let r = radix(n as nat);
            assert(borrow == 0) by {
                if borrow == 1 {
                    assert(r * borrow == r) by (nonlinear_arith)
                        requires
                            borrow == 1,
                    ;
                }
            }
            assert(r * borrow == 0) by (nonlinear_arith)
                requires
                    borrow == 0,
            ;
        }
        Ok(UintN::trimmed(out))
    }

    fn rem_small(&self, m: u64) -> (res: u64)
        requires
            m > 0,
        ensures
            res == self@ % (m as nat),
    {
        let mut acc: u128 = 0;
        let mut i: usize = self.bytes.len();
        proof {
            assert(self.bytes@.skip(i as int) =~= Seq::<u8>::empty());
            vstd::arithmetic::div_mod::lemma_small_mod(0, m as nat);
        }
        while i > 0
            invariant
                m > 0,
                i <= self.bytes@.len(),
                acc == le_value(self.bytes@.skip(i as int)) % (m as nat),
                acc < m,
            decreases i,
        {
            i = i - 1;
            let b: u128 = self.bytes[i] as u128;
            proof {
                let s = self.bytes@;
                assert(s.skip(i as int).drop_first() =~= s.skip(i + 1));
                let q = le_value(s.skip(i + 1)) as int;
                let mm = m as int;
                vstd::arithmetic::div_mod::lemma_mul_mod_noop_right(256, q, mm);
                vstd::arithmetic::div_mod::lemma_add_mod_noop(256 * q, b as int, mm);
                vstd::arithmetic::div_mod::lemma_add_mod_noop(256 * (q % mm), b as int, mm);
            }
            acc = (acc * 256 + b) % (m as u128);
        }
        assert(self.bytes@.skip(0) =~= self.bytes@);
        acc as u64
    }

    /// Whether the value is a whole number of `step`s past `from`.
    pub fn in_step(&self, from: &UintN, step: u64) -> (res: bool)
        requires
            from@ <= self@,
            step > 0,
        ensures
            res == ((self@ - from@) as nat % (step as nat) == 0),
    {
        match self.sub(from) {
            Ok(d) => d.rem_small(step) == 0,
            Err(_) => false,
        }
    }

    /// The narrowest field that holds the value, or the widest one if none
    /// does.
    pub fn field_width(&self) -> (res: u64)
        ensures
            res == field_width(self@),
            valid_data_size(res),
    {
        let n: usize = self.byte_len();
        proof {
            lemma_radix_values();
            if n <= 1 {
                lemma_radix_monotone(n as nat, 1);
            } else if n <= 2 {
                lemma_radix_monotone(n as nat, 2);
                lemma_radix_monotone(1, (n - 1) as nat);
            } else if n <= 4 {
                lemma_radix_monotone(n as nat, 4);
                lemma_radix_monotone(2, (n - 1) as nat);
            } else if n <= 8 {
                lemma_radix_monotone(n as nat, 8);
                lemma_radix_monotone(4, (n - 1) as nat);
            } else {
                lemma_radix_monotone(8, (n - 1) as nat);
            }
        }
        if n <= 1 {
            1
        } else if n <= 2 {
            2
        } else if n <= 4 {
            4
        } else if n <= 8 {
            8
        } else {
            16
        }
    }

    /// Whether a field of an on-disk header may be `size` bytes wide.
    pub fn is_valid_data_size(size: u64) -> (res: bool)
        ensures
            res == valid_data_size(size),
    {
        size == 1 || size == 2 || size == 4 || size == 8 || size == 16
    }
}

/// The narrowest field that holds `v`, or the widest one if none does.
pub open spec fn field_width(v: nat) -> u64 {
    if v < radix(1) {
        1
    } else if v < radix(2) {
        2
    } else if v < radix(4) {
        4
    } else if v < radix(8) {
        8
    } else {
        16
    }
}

/// The widths that an on-disk header may state for a field.
pub open spec fn valid_data_size(size: u64) -> bool {
    size == 1 || size == 2 || size == 4 || size == 8 || size == 16
}

impl From<u8> for UintN {
    fn from(v: u8) -> (res: UintN)
        ensures
            res@ == v,
    {
        UintN::from_u128(v as u128)
    }
}

impl vstd::std_specs::convert::FromSpecImpl<u8> for UintN {
    open spec fn obeys_from_spec() -> bool {
        false
    }

    open spec fn from_spec(v: u8) -> UintN {
        arbitrary()
    }
}

impl From<u16> for UintN {
    fn from(v: u16) -> (res: UintN)
        ensures
            res@ == v,
    {
        UintN::from_u128(v as u128)
    }
}

impl vstd::std_specs::convert::FromSpecImpl<u16> for UintN {
    open spec fn obeys_from_spec() -> bool {
        false
    }

    open spec fn from_spec(v: u16) -> UintN {
        arbitrary()
    }
}

impl From<u64> for UintN {
    fn from(v: u64) -> (res: UintN)
        ensures
            res@ == v,
    {
        UintN::from_u128(v as u128)
    }
}

impl vstd::std_specs::convert::FromSpecImpl<u64> for UintN {
    open spec fn obeys_from_spec() -> bool {
        false
    }

    open spec fn from_spec(v: u64) -> UintN {
        arbitrary()
    }
}

impl From<u128> for UintN {
    fn from(v: u128) -> (res: UintN)
        ensures
            res@ == v,
    {
        UintN::from_u128(v)
    }
}

impl vstd::std_specs::convert::FromSpecImpl<u128> for UintN {
    open spec fn obeys_from_spec() -> bool {
        false
    }

    open spec fn from_spec(v: u128) -> UintN {
        arbitrary()
    }
}

/// The value of an optional number, for contracts.
pub open spec fn opt_value(o: Option<UintN>) -> Option<nat> {
    match o {
        Some(v) => Some(v@),
        None => None,
    }
}

/// A copy of an optional number.
pub fn clone_opt(o: &Option<UintN>) -> (res: Option<UintN>)
    ensures
        opt_value(res) == opt_value(*o),
{
    match o {
        Some(v) => Some(v.clone()),
        None => None,
    }
}

} // verus!
