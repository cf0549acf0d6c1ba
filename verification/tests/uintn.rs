//! Numbers of any size, varints and checksums.

use normfs::crc32c::crc32c;
use normfs::uintn::{UintN, UintNError};
use normfs::varint::{decode_u32, decode_u64, encoded_len_u64, push_u64, VarintError};

#[test]
fn sums_carry_and_differences_borrow() {
    let max = UintN::from(u64::MAX);
    let next = max.increment();
    assert_eq!(next, UintN::from(1u128 << 64));
    assert_eq!(next.to_u64(), Err(UintNError::TooLarge));
    assert_eq!(next.sub(&UintN::one()), Ok(max.clone()));
    assert_eq!(UintN::zero().sub(&UintN::one()), Err(UintNError::Underflow));
    assert_eq!(max.add(&max), UintN::from(2 * (u64::MAX as u128)));
    assert!(max.is_less(&next) && !next.is_less(&max));
    assert!(UintN::zero().is_zero() && !next.is_zero());
}

#[test]
fn numbers_have_one_form() {
    assert_eq!(UintN::from(5u8), UintN::from(5u64));
    assert_eq!(UintN::from_le_bytes(&[5, 0, 0, 0]), UintN::from(5u16));
    assert_eq!(UintN::from_le_bytes(&[0xC8, 1]), UintN::from(456u64));
    assert_eq!(
        UintN::from(456u64).to_le_bytes(4),
        Ok(vec![0xC8, 1, 0, 0])
    );
    assert!(UintN::from(456u64).to_le_bytes(1).is_err());
}

#[test]
fn widths_are_powers_of_two_up_to_sixteen() {
    assert_eq!(UintN::from(0u64).field_width(), 1);
    assert_eq!(UintN::from(255u64).field_width(), 1);
    assert_eq!(UintN::from(256u64).field_width(), 2);
    assert_eq!(UintN::from(65_536u64).field_width(), 4);
    assert_eq!(UintN::from(u64::MAX).field_width(), 8);
    assert_eq!(UintN::from(u128::MAX).field_width(), 16);
    for size in 0..20u64 {
        assert_eq!(
            UintN::is_valid_data_size(size),
            [1, 2, 4, 8, 16].contains(&size)
        );
    }
}

#[test]
fn steps_count_from_the_start() {
    let from = UintN::from(10u64);
    assert!(UintN::from(10u64).in_step(&from, 3));
    assert!(!UintN::from(11u64).in_step(&from, 3));
    assert!(UintN::from(13u64).in_step(&from, 3));
}

#[test]
fn varints_roundtrip_and_have_one_form() {
    for (value, len) in [(0u64, 1usize), (127, 1), (128, 2), (300, 2), (u64::MAX, 10)] {
        let mut out = Vec::new();
        push_u64(&mut out, value);
        assert_eq!(out.len(), len);
        assert_eq!(encoded_len_u64(value), len);
        assert_eq!(decode_u64(&out), Ok((value, len)));
        for cut in 0..len {
            assert!(matches!(
                decode_u64(&out[..cut]),
                Err(VarintError::Truncated)
            ));
        }
    }
    assert!(matches!(
        decode_u64(&[0x83, 0x00]),
        Err(VarintError::NonCanonical)
    ));
    assert!(matches!(
        decode_u32(&[0xff, 0xff, 0xff, 0xff, 0x10]),
        Err(VarintError::Overflow)
    ));
}

#[test]
fn one_changed_byte_changes_the_checksum() {
    let data: Vec<u8> = (0..50u8).collect();
    let sum = crc32c(0, &data);
    for i in 0..data.len() {
        let mut other = data.clone();
        other[i] ^= 0x40;
        assert_ne!(crc32c(0, &other), sum);
    }
}
