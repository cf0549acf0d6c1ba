//! How numbers, headers and entries are laid out in bytes.

use vstd::prelude::*;
use vstd::arithmetic::div_mod::lemma_div_denominator;
use vstd::arithmetic::power::{lemma_pow_positive, pow};
use crate::crc32c;
use crate::store_header;
use crate::store_header::StoreView;
use crate::store_header_v1;
use crate::store_header_v1::StoreHeaderV1;
use crate::types;
use crate::types::{CompressionType, EncryptionType};
use crate::uintn;
use crate::varint;
use crate::wal_entry;
use crate::wal_entry_v1;
use crate::wal_header;
use crate::wal_header::HeaderView;
use crate::wal_header_v1;
use crate::wal_header_v1::WalHeaderV1;
use crate::words;

verus! {

// ---------------------------------------------------------------------------
// Numbers.

/// Byte `i` of a number is its digit number `i` to the base 256, counted from
/// the lowest.
pub proof fn bytes_are_digits(v: nat, width: nat, i: int)
    requires
        0 <= i < width,
    ensures
        uintn::le_bytes(v, width).len() == width,
        uintn::le_bytes(v, width)[i] == (v as int / pow(256, i as nat)) % 256,
    decreases i,
{
    uintn::lemma_le_bytes_len(v, width);
    let rest = uintn::le_bytes(v / 256, (width - 1) as nat);
    uintn::lemma_le_bytes_len(v / 256, (width - 1) as nat);
    reveal(pow);
    if i == 0 {
        assert(pow(256, 0) == 1);
        assert(v as int / 1 == v);
    } else {
        bytes_are_digits(v / 256, (width - 1) as nat, i - 1);
        assert(uintn::le_bytes(v, width)[i] == rest[i - 1]);
        lemma_pow_positive(256, (i - 1) as nat);
        lemma_div_denominator(v as int, 256, pow(256, (i - 1) as nat));
        assert(pow(256, i as nat) == 256 * pow(256, (i - 1) as nat));
    }
}

/// Words are eight and four bytes, lowest first.
pub proof fn words_are_little_endian(v: u64, w: u32, i: int)
    ensures
        words::bytes64(v).len() == 8,
        words::bytes32(w).len() == 4,
        0 <= i < 8 ==> words::bytes64(v)[i] == (v as int / pow(256, i as nat)) % 256,
        0 <= i < 4 ==> words::bytes32(w)[i] == (w as int / pow(256, i as nat)) % 256,
{
    words::lemma_bytes64_len(v);
    words::lemma_bytes32_len(w);
    if 0 <= i < 8 {
        bytes_are_digits(v as nat, 8, i);
    }
    if 0 <= i < 4 {
        bytes_are_digits(w as nat, 4, i);
    }
}

/// The low seven bits of byte `i` of an encoded number are its digit number `i`
/// to the base 128, and its high bit says that another byte follows. No shorter
/// encoding has all digits.
pub proof fn varint_holds_digits(v: nat, i: int)
    requires
        0 <= i < varint::varint(v).len(),
    ensures
        ({
            let s = varint::varint(v);
            &&& s[i] % 128 == (v as int / pow(128, i as nat)) % 128
            &&& s[i] >= 128 <==> i + 1 < s.len()
            &&& (v as int) < pow(128, s.len())
            &&& s.len() > 1 ==> v as int >= pow(128, (s.len() - 1) as nat)
        }),
    decreases v,
{
    reveal(pow);
    let s = varint::varint(v);
    assert(pow(128, 0) == 1);
    assert(v as int / 1 == v);
    if v < 128 {
        assert(pow(128, 1) == 128 * pow(128, 0));
    } else {
        let rest = varint::varint(v / 128);
        varint::lemma_varint_shape(v / 128);
        assert(rest.len() >= 1);
        let j = if i == 0 {
            0
        } else {
            i - 1
        };
        varint_holds_digits(v / 128, j);
        assert(pow(128, s.len()) == 128 * pow(128, rest.len()));
        assert(pow(128, rest.len()) == 128 * pow(128, (rest.len() - 1) as nat));
        assert(i > 0 ==> s[i] == rest[i - 1]);
        if i > 0 {
            lemma_pow_positive(128, (i - 1) as nat);
            lemma_div_denominator(v as int, 128, pow(128, (i - 1) as nat));
            assert(pow(128, i as nat) == 128 * pow(128, (i - 1) as nat));
        }
        if rest.len() == 1 {
            assert(pow(128, 1) == 128 * pow(128, 0));
        }
    }
}

// ---------------------------------------------------------------------------
// Entries.

/// An entry is the length of its record, the record as it is, and the checksum
/// of both.
pub proof fn entry_is_length_record_checksum(record: Seq<u8>)
    requires
        record.len() <= u32::MAX,
    ensures
        ({
            let e = wal_entry_v1::entry(record);
            let a = varint::varint(record.len()).len();
            let b = a + record.len();
            &&& e.len() == b + 4
            &&& e.take(a as int) == varint::varint(record.len())
            &&& e.subrange(a as int, b as int) == record
            &&& e.skip(b as int) == words::bytes32(crc32c::crc32c_of(0, e.take(b as int)))
        }),
{
    let e = wal_entry_v1::entry(record);
    let a = varint::varint(record.len()).len();
    let b = a + record.len();
    wal_entry_v1::lemma_entry_len(record);
    assert(e.take(a as int) =~= varint::varint(record.len()));
    assert(e.subrange(a as int, b as int) =~= record);
    assert(e.take(b as int) =~= varint::varint(record.len()) + record);
    assert(e.skip(b as int) =~= words::bytes32(
        crc32c::crc32c_of(0, varint::varint(record.len()) + record),
    ));
}

/// The id of an entry is that of the file's first entry, counted on by its
/// position; there is none where that does not fit.
pub proof fn entry_id_is_its_position(record: Seq<u8>, rest: Seq<u8>, base: u64, index: u64)
    requires
        record.len() <= u32::MAX,
    ensures
        match wal_entry_v1::parse_at(wal_entry_v1::entry(record) + rest, base, index) {
            Ok((r, id, n)) => {
                &&& r == record
                &&& id == base + index
                &&& n == wal_entry_v1::entry(record).len()
            },
            Err(e) => base + index > u64::MAX && e == wal_entry_v1::WalEntryV1Error::IdOverflow,
        },
{
    wal_entry_v1::entry_roundtrip(record, rest);
}

/// The header of an entry of the first format is a zero word, the id and the
/// record's size in the file's widths, and the record's hash.
pub proof fn old_entry_header_is_laid_out(id: nat, record: Seq<u8>, h: HeaderView)
    ensures
        ({
            let e = wal_entry::header_of(id, record);
            let s = wal_entry::header_bytes(e, h);
            let a = 8 + h.id_size_bytes as int;
            let b = a + h.data_size_bytes as int;
            &&& s.len() == b + 8
            &&& s.take(8) == words::bytes64(0)
            &&& s.subrange(8, a) == uintn::le_bytes(id, h.id_size_bytes as nat)
            &&& s.subrange(a, b) == uintn::le_bytes(record.len(), h.data_size_bytes as nat)
            &&& s.skip(b) == words::bytes64(crate::hash::xxh64_of(record, 0))
        }),
{
    let e = wal_entry::header_of(id, record);
    let s = wal_entry::header_bytes(e, h);
    let a = 8 + h.id_size_bytes as int;
    let b = a + h.data_size_bytes as int;
    words::lemma_bytes64_len(0);
    words::lemma_bytes64_len(e.xxhash);
    uintn::lemma_le_bytes_len(id, h.id_size_bytes as nat);
    uintn::lemma_le_bytes_len(record.len(), h.data_size_bytes as nat);
    assert(s.take(8) =~= words::bytes64(0));
    assert(s.subrange(8, a) =~= uintn::le_bytes(id, h.id_size_bytes as nat));
    assert(s.subrange(a, b) =~= uintn::le_bytes(record.len(), h.data_size_bytes as nat));
    assert(s.skip(b) =~= words::bytes64(crate::hash::xxh64_of(record, 0)));
}

/// An entry of the first format can be written if and only if its id and its
/// record's size fit the file's widths.
pub proof fn old_entry_fits_its_widths(id: nat, record: Seq<u8>, h: HeaderView)
    ensures
        wal_entry::fits(wal_entry::header_of(id, record), h) <==> {
            &&& (id as int) < pow(256, h.id_size_bytes as nat)
            &&& (record.len() as int) < pow(256, h.data_size_bytes as nat)
        },
{
    lemma_radix_is_power(h.id_size_bytes as nat);
    lemma_radix_is_power(h.data_size_bytes as nat);
}

proof fn lemma_radix_is_power(n: nat)
    ensures
        uintn::radix(n) == pow(256, n),
    decreases n,
{
    reveal(pow);
    if n > 0 {
        lemma_radix_is_power((n - 1) as nat);
    }
}

/// The width of a field is the narrowest of 1, 2, 4, 8 and 16 bytes that holds
/// the value, or 16 if none does.
pub proof fn field_is_as_narrow_as_it_can_be(v: nat, w: u64)
    requires
        w == 1 || w == 2 || w == 4 || w == 8 || w == 16,
    ensures
        (v as int) < pow(256, w as nat) ==> uintn::field_width(v) <= w,
        (v as int) < pow(256, 16) ==> (v as int) < pow(256, uintn::field_width(v) as nat),
        v as int >= pow(256, 16) ==> uintn::field_width(v) == 16,
        uintn::valid_data_size(w),
{
    lemma_radix_is_power(w as nat);
    lemma_radix_is_power(16);
    lemma_radix_is_power(uintn::field_width(v) as nat);
    uintn::lemma_radix_monotone(1, 2);
    uintn::lemma_radix_monotone(2, 4);
    uintn::lemma_radix_monotone(4, 8);
    uintn::lemma_radix_monotone(8, 16);
}

// ---------------------------------------------------------------------------
// Headers.

/// A log header is the version and three numbers.
pub proof fn log_header_is_laid_out(h: WalHeaderV1)
    ensures
        ({
            let s = wal_header_v1::header_bytes(h);
            let p = varint::varint(h.data_size_bytes as nat);
            let q = varint::varint(h.id_size_bytes as nat);
            let r = varint::varint(h.num_entries_before as nat);
            let a = 8 + p.len() as int;
            let b = a + q.len() as int;
            &&& s.take(8) == seq![1u8, 0, 0, 0, 0, 0, 0, 0]
            &&& s.subrange(8, a) == p
            &&& s.subrange(a, b) == q
            &&& s.skip(b) == r
        }),
{
    let s = wal_header_v1::header_bytes(h);
    let p = varint::varint(h.data_size_bytes as nat);
    let q = varint::varint(h.id_size_bytes as nat);
    let a = 8 + p.len() as int;
    let b = a + q.len() as int;
    lemma_small_word(1);
    assert(s.take(8) =~= words::bytes64(1));
    assert(s.subrange(8, a) =~= p);
    assert(s.subrange(a, b) =~= q);
    assert(s.skip(b) =~= varint::varint(h.num_entries_before as nat));
}

/// A word below 256 is that byte and seven zeros.
proof fn lemma_small_word(v: u64)
    requires
        v < 256,
    ensures
        words::bytes64(v) == seq![v as u8, 0, 0, 0, 0, 0, 0, 0],
{
    words::lemma_bytes64_len(v);
    reveal_with_fuel(uintn::le_bytes, 9);
    assert(words::bytes64(v) =~= seq![v as u8, 0, 0, 0, 0, 0, 0, 0]);
}

/// The header of an archived file is the version, the codes of its compression
/// and its encryption, and two counters.
pub proof fn archive_header_is_laid_out(h: StoreHeaderV1)
    ensures
        ({
            let s = store_header_v1::header_bytes(h);
            let r = varint::varint(h.num_entries_before as nat);
            &&& s.take(8) == seq![1u8, 0, 0, 0, 0, 0, 0, 0]
            &&& s[8] == types::compression_code(h.compression)
            &&& s[9] == types::encryption_code(h.encryption)
            &&& s.subrange(10, 10 + r.len() as int) == r
            &&& s.skip(10 + r.len() as int) == varint::varint(h.num_entries as nat)
        }),
{
    let s = store_header_v1::header_bytes(h);
    let r = varint::varint(h.num_entries_before as nat);
    lemma_small_word(1);
    assert(s.take(8) =~= words::bytes64(1));
    assert(s.subrange(10, 10 + r.len() as int) =~= r);
    assert(s.skip(10 + r.len() as int) =~= varint::varint(h.num_entries as nat));
}

/// The codes of the compressions and encryptions: each has its own, and no
/// other number is one.
pub proof fn codes_are_these(c: CompressionType, e: EncryptionType, code: u64)
    ensures
        types::compression_code(c) == 0 <==> c is NoCompression,
        types::compression_code(c) == 1 <==> c is Gzip,
        types::compression_code(c) == 2 <==> c is Xz,
        types::compression_code(c) == 3 <==> c is Zstd,
        types::encryption_code(e) == 0 <==> e is NoEncryption,
        types::encryption_code(e) == 1 <==> e is Aes,
        types::compression_of(code) is Some <==> code < 4,
        types::encryption_of(code) is Some <==> code < 2,
{
}

/// A log header of the first format is four words, the version, the two widths
/// and the width of the counter, and the counter.
pub proof fn old_log_header_is_laid_out(h: HeaderView)
    ensures
        ({
            let s = wal_header::header_bytes(h);
            let w = if (h.num_entries_before as int) < pow(256, 8) {
                8nat
            } else {
                16
            };
            &&& s.take(8) == words::bytes64(0)
            &&& s.subrange(8, 16) == words::bytes64(h.data_size_bytes)
            &&& s.subrange(16, 24) == words::bytes64(h.id_size_bytes)
            &&& s.subrange(24, 32) == words::bytes64(w as u64)
            &&& s.skip(32) == uintn::le_bytes(h.num_entries_before, w)
        }),
{
    let s = wal_header::header_bytes(h);
    lemma_radix_is_power(8);
    let w = wal_header::counter_width(h.num_entries_before);
    words::lemma_bytes64_len(0);
    words::lemma_bytes64_len(h.data_size_bytes);
    words::lemma_bytes64_len(h.id_size_bytes);
    words::lemma_bytes64_len(w as u64);
    assert(s.take(8) =~= words::bytes64(0));
    assert(s.subrange(8, 16) =~= words::bytes64(h.data_size_bytes));
    assert(s.subrange(16, 24) =~= words::bytes64(h.id_size_bytes));
    assert(s.subrange(24, 32) =~= words::bytes64(w as u64));
    assert(s.skip(32) =~= uintn::le_bytes(h.num_entries_before, w));
}

/// The header of an archived file of the first format is three words, the
/// version and the two codes, and the counters, each behind its width.
pub proof fn old_archive_header_is_laid_out(h: StoreView)
    ensures
        ({
            let s = store_header::header_bytes(h);
            let w = if (h.num_entries_before as int) < pow(256, 8) {
                8nat
            } else {
                16
            };
            let x = if (h.num_entries as int) < pow(256, 8) {
                8nat
            } else {
                16
            };
            &&& s.take(8) == words::bytes64(0)
            &&& s.subrange(8, 16) == words::bytes64(types::compression_code(h.compression))
            &&& s.subrange(16, 24) == words::bytes64(types::encryption_code(h.encryption))
            &&& s.subrange(24, 32) == words::bytes64(w as u64)
            &&& s.subrange(32, 32 + w as int) == uintn::le_bytes(h.num_entries_before, w)
            &&& s.subrange(32 + w as int, 40 + w as int) == words::bytes64(x as u64)
            &&& s.skip(40 + w as int) == uintn::le_bytes(h.num_entries, x)
        }),
{
    let s = store_header::header_bytes(h);
    lemma_radix_is_power(8);
    let w = wal_header::counter_width(h.num_entries_before);
    let x = wal_header::counter_width(h.num_entries);
    words::lemma_bytes64_len(0);
    words::lemma_bytes64_len(types::compression_code(h.compression));
    words::lemma_bytes64_len(types::encryption_code(h.encryption));
    words::lemma_bytes64_len(w as u64);
    words::lemma_bytes64_len(x as u64);
    uintn::lemma_le_bytes_len(h.num_entries_before, w);
    uintn::lemma_le_bytes_len(h.num_entries, x);
    assert(s.take(8) =~= words::bytes64(0));
    assert(s.subrange(8, 16) =~= words::bytes64(types::compression_code(h.compression)));
    assert(s.subrange(16, 24) =~= words::bytes64(types::encryption_code(h.encryption)));
    assert(s.subrange(24, 32) =~= words::bytes64(w as u64));
    assert(s.subrange(32, 32 + w as int) =~= uintn::le_bytes(h.num_entries_before, w));
    assert(s.subrange(32 + w as int, 40 + w as int) =~= words::bytes64(x as u64));
    assert(s.skip(40 + w as int) =~= uintn::le_bytes(h.num_entries, x));
}

/// The signature block of an archived file holds both signatures as they are,
/// each behind its size.
pub proof fn signatures_are_laid_out(header: Seq<u8>, content: Seq<u8>)
    requires
        header.len() == 64,
        content.len() == 64,
    ensures
        ({
            let s = store_header::authentication_bytes(header, content);
            &&& s.len() == 152
            &&& s.take(8) == words::bytes64(0)
            &&& s.subrange(8, 16) == words::bytes64(64)
            &&& s.subrange(16, 80) == header
            &&& s.subrange(80, 88) == words::bytes64(64)
            &&& s.skip(88) == content
        }),
{
    let s = store_header::authentication_bytes(header, content);
    words::lemma_bytes64_len(0);
    words::lemma_bytes64_len(64);
    assert(s.take(8) =~= words::bytes64(0));
    assert(s.subrange(8, 16) =~= words::bytes64(64));
    assert(s.subrange(16, 80) =~= header);
    assert(s.subrange(80, 88) =~= words::bytes64(64));
    assert(s.skip(88) =~= content);
}

// ---------------------------------------------------------------------------
// Checksums.

/// One term of a product of polynomials over two elements: the generator,
/// bit-reflected and with its highest term, times the term number `k` of `q`.
pub open spec fn term(q: u64, k: u64) -> u64 {
    if (q >> k) & 1 == 1 {
        0x1_05EC_76F1u64 << k
    } else {
        0
    }
}

/// The generator times a polynomial of eight terms.
pub open spec fn multiple(q: u64) -> u64 {
    term(q, 0) ^ term(q, 1) ^ term(q, 2) ^ term(q, 3) ^ term(q, 4) ^ term(q, 5) ^ term(q, 6)
        ^ term(q, 7)
}

proof fn lemma_step_divides(x: u32)
    ensures
        (crc32c::step_bit(x) as u64) << 1u64 == (x as u64) ^ (if x & 1 == 1 {
            0x1_05EC_76F1u64
        } else {
            0
        }),
        (x as u64) & 1 == 1 <==> x & 1 == 1,
{
    let y = crc32c::step_bit(x);
    let g = crc32c::POLYNOMIAL;
    assert((y as u64) << 1u64 == (x as u64) ^ (if x & 1 == 1 {
        0x1_05EC_76F1u64
    } else {
        0
    })) by (bit_vector)
        requires
            g == 0x82F6_3B78u32,
            y == (if x & 1 == 1 {
                (x >> 1u32) ^ g
            } else {
                x >> 1u32
            }),
    ;
    assert((x as u64) & 1 == 1 <==> x & 1 == 1) by (bit_vector);
}

/// The checksum of a byte is a remainder of division by the generator: with the
/// byte put into the register, a multiple of the generator takes off its low
/// eight bits, and the others are the register from then on. Checksums of more
/// bytes continue from one byte to the next.
pub proof fn checksum_is_a_remainder(seed: u32, b: u8)
    ensures
        exists|q: u64|
            q < 256 && ((!seed ^ (b as u32)) as u64) ^ #[trigger] multiple(q) == ((
            !crc32c::crc32c_of(seed, seq![b])) as u64) << 8u64,
{
    let c = !seed;
    let x0 = c ^ (b as u32);
    let x1 = crc32c::step_bit(x0);
    let x2 = crc32c::step_bit(x1);
    let x3 = crc32c::step_bit(x2);
    let x4 = crc32c::step_bit(x3);
    let x5 = crc32c::step_bit(x4);
    let x6 = crc32c::step_bit(x5);
    let x7 = crc32c::step_bit(x6);
    let x8 = crc32c::step_bit(x7);
    lemma_step_divides(x0);
    lemma_step_divides(x1);
    lemma_step_divides(x2);
    lemma_step_divides(x3);
    lemma_step_divides(x4);
    lemma_step_divides(x5);
    lemma_step_divides(x6);
    lemma_step_divides(x7);
    let (y0, y1, y2, y3, y4) = (x0 as u64, x1 as u64, x2 as u64, x3 as u64, x4 as u64);
    let (y5, y6, y7, y8) = (x5 as u64, x6 as u64, x7 as u64, x8 as u64);
    let q = (y0 & 1) | ((y1 & 1) << 1u64) | ((y2 & 1) << 2u64) | ((y3 & 1) << 3u64) | ((y4 & 1)
        << 4u64) | ((y5 & 1) << 5u64) | ((y6 & 1) << 6u64) | ((y7 & 1) << 7u64);
    lemma_divided(y0, y1, y2, y3, y4, y5, y6, y7, y8, q);
    assert(seq![b].drop_last() =~= Seq::<u8>::empty());
    assert(crc32c::remainder(c, Seq::<u8>::empty()) == c);
    assert(crc32c::remainder(c, seq![b]) == x8);
    assert(!(!x8) == x8) by (bit_vector);
    assert(y0 ^ multiple(q) == y8 << 8u64);
}

proof fn lemma_divided(
    y0: u64,
    y1: u64,
    y2: u64,
    y3: u64,
    y4: u64,
    y5: u64,
    y6: u64,
    y7: u64,
    y8: u64,
    q: u64,
)
    requires
        y1 << 1u64 == y0 ^ (if y0 & 1 == 1 { 0x1_05EC_76F1u64 } else { 0 }),
        y2 << 1u64 == y1 ^ (if y1 & 1 == 1 { 0x1_05EC_76F1u64 } else { 0 }),
        y3 << 1u64 == y2 ^ (if y2 & 1 == 1 { 0x1_05EC_76F1u64 } else { 0 }),
        y4 << 1u64 == y3 ^ (if y3 & 1 == 1 { 0x1_05EC_76F1u64 } else { 0 }),
        y5 << 1u64 == y4 ^ (if y4 & 1 == 1 { 0x1_05EC_76F1u64 } else { 0 }),
        y6 << 1u64 == y5 ^ (if y5 & 1 == 1 { 0x1_05EC_76F1u64 } else { 0 }),
        y7 << 1u64 == y6 ^ (if y6 & 1 == 1 { 0x1_05EC_76F1u64 } else { 0 }),
        y8 << 1u64 == y7 ^ (if y7 & 1 == 1 { 0x1_05EC_76F1u64 } else { 0 }),
        q == (y0 & 1) | ((y1 & 1) << 1u64) | ((y2 & 1) << 2u64) | ((y3 & 1) << 3u64) | ((y4 & 1)
            << 4u64) | ((y5 & 1) << 5u64) | ((y6 & 1) << 6u64) | ((y7 & 1) << 7u64),
    ensures
        q < 256,
        y0 ^ multiple(q) == y8 << 8u64,
{
    assert(q < 256 && y0 ^ (
        (if (q >> 0u64) & 1 == 1 { 0x1_05EC_76F1u64 << 0u64 } else { 0 })
        ^ (if (q >> 1u64) & 1 == 1 { 0x1_05EC_76F1u64 << 1u64 } else { 0 })
        ^ (if (q >> 2u64) & 1 == 1 { 0x1_05EC_76F1u64 << 2u64 } else { 0 })
        ^ (if (q >> 3u64) & 1 == 1 { 0x1_05EC_76F1u64 << 3u64 } else { 0 })
        ^ (if (q >> 4u64) & 1 == 1 { 0x1_05EC_76F1u64 << 4u64 } else { 0 })
        ^ (if (q >> 5u64) & 1 == 1 { 0x1_05EC_76F1u64 << 5u64 } else { 0 })
        ^ (if (q >> 6u64) & 1 == 1 { 0x1_05EC_76F1u64 << 6u64 } else { 0 })
        ^ (if (q >> 7u64) & 1 == 1 { 0x1_05EC_76F1u64 << 7u64 } else { 0 })
    ) == y8 << 8u64) by (bit_vector)
        requires
            y1 << 1u64 == y0 ^ (if y0 & 1 == 1 { 0x1_05EC_76F1u64 } else { 0 }),
            y2 << 1u64 == y1 ^ (if y1 & 1 == 1 { 0x1_05EC_76F1u64 } else { 0 }),
            y3 << 1u64 == y2 ^ (if y2 & 1 == 1 { 0x1_05EC_76F1u64 } else { 0 }),
            y4 << 1u64 == y3 ^ (if y3 & 1 == 1 { 0x1_05EC_76F1u64 } else { 0 }),
            y5 << 1u64 == y4 ^ (if y4 & 1 == 1 { 0x1_05EC_76F1u64 } else { 0 }),
            y6 << 1u64 == y5 ^ (if y5 & 1 == 1 { 0x1_05EC_76F1u64 } else { 0 }),
            y7 << 1u64 == y6 ^ (if y6 & 1 == 1 { 0x1_05EC_76F1u64 } else { 0 }),
            y8 << 1u64 == y7 ^ (if y7 & 1 == 1 { 0x1_05EC_76F1u64 } else { 0 }),
            q == (y0 & 1) | ((y1 & 1) << 1u64) | ((y2 & 1) << 2u64) | ((y3 & 1) << 3u64) | ((y4
                & 1) << 4u64) | ((y5 & 1) << 5u64) | ((y6 & 1) << 6u64) | ((y7 & 1) << 7u64),
    ;
}

// ---------------------------------------------------------------------------
// Sizes.

/// No log header is longer than twenty bytes, and one with sixteen byte wide
/// fields and the highest counter is that long.
pub proof fn longest_log_header(h: WalHeaderV1)
    requires
        wal_header_v1::width_error(h) is None,
    ensures
        wal_header_v1::header_bytes(h).len() <= 20,
        h.num_entries_before == u64::MAX ==> wal_header_v1::header_bytes(h).len() == 20,
        h.num_entries_before < 128 ==> wal_header_v1::header_bytes(h).len() == 11,
        wal_header_v1::WAL_HEADER_V1_MAX_SIZE == 20,
{
    words::lemma_bytes64_len(1);
    let s = varint::varint(h.num_entries_before as nat);
    varint::lemma_base128_values();
    varint::lemma_varint_len(h.num_entries_before as nat, 10);
    if h.num_entries_before == u64::MAX {
        if s.len() < 10 {
            varint::lemma_varint_shape(u64::MAX as nat);
            varint_holds_digits(u64::MAX as nat, 0);
            vstd::arithmetic::power::lemma_pow_increases(128, s.len(), 9);
            assert(pow(128, 9) == 0x8000_0000_0000_0000) by {
                reveal_with_fuel(pow, 10);
            }
        }
    }
}

} // verus!
