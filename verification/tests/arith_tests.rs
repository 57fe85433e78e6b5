//! Tests for the 256-bit arithmetic against reference values.
use evm_dispatch::arith::{u32_to_256, mul_256, shr_256};

fn word_from_u32(x: u32) -> Vec<u8> {
    u32_to_256(x)
}

fn all_ff() -> Vec<u8> {
    vec![0xffu8; 32]
}

fn to_u128_low(w: &Vec<u8>) -> u128 {
    let mut v: u128 = 0;
    for i in (0..16).rev() {
        v = (v << 8) | w[i] as u128;
    }
    v
}

#[test]
fn u32_conversion_is_little_endian_zero_extended() {
    let w = u32_to_256(0x12345678);
    assert_eq!(w.len(), 32);
    assert_eq!(&w[0..4], &[0x78, 0x56, 0x34, 0x12]);
    assert!(w[4..].iter().all(|&b| b == 0));
}

#[test]
fn mul_by_zero_is_zero() {
    let a = word_from_u32(0);
    let b = all_ff();
    let c = mul_256(&a, &b);
    assert!(c.iter().all(|&b| b == 0));
}

#[test]
fn mul_by_one_is_identity() {
    let a = word_from_u32(1);
    let b = word_from_u32(0xdeadbeef);
    let c = mul_256(&a, &b);
    assert_eq!(c, b);
}

#[test]
fn mul_small_values() {
    let a = word_from_u32(2);
    let b = word_from_u32(3);
    let c = mul_256(&a, &b);
    assert_eq!(to_u128_low(&c), 6);
    assert!(c[16..].iter().all(|&b| b == 0));
}

#[test]
fn mul_wraps_modulo_2_pow_256() {
    // (2^256 - 1) * (2^256 - 1) == 1 (mod 2^256)
    let a = all_ff();
    let c = mul_256(&a, &a);
    assert_eq!(c[0], 1);
    assert!(c[1..].iter().all(|&b| b == 0));

    // (2^256 - 1) * 2 == 2^256 - 2 (mod 2^256)
    let two = word_from_u32(2);
    let d = mul_256(&a, &two);
    assert_eq!(d[0], 0xfe);
    assert!(d[1..].iter().all(|&b| b == 0xff));
}

#[test]
fn mul_cross_byte_carry() {
    // 0xff00 * 0x101 = 0xffff00
    let a = word_from_u32(0xff00);
    let b = word_from_u32(0x101);
    let c = mul_256(&a, &b);
    assert_eq!(to_u128_low(&c), 0xffff00);
}

#[test]
fn shr_by_zero_is_identity() {
    let a = word_from_u32(0xabcdef01);
    let c = shr_256(&a, 0);
    assert_eq!(c, a);
}

#[test]
fn shr_by_byte_multiples() {
    let a = word_from_u32(0x12345678);
    let c = shr_256(&a, 8);
    assert_eq!(to_u128_low(&c), 0x123456);
    let d = shr_256(&a, 16);
    assert_eq!(to_u128_low(&d), 0x1234);
    let e = shr_256(&a, 24);
    assert_eq!(to_u128_low(&e), 0x12);
    let f = shr_256(&a, 32);
    assert!(f.iter().all(|&b| b == 0));
}

#[test]
fn shr_by_non_multiple_of_eight() {
    let a = word_from_u32(0x12345678);
    let c = shr_256(&a, 4);
    assert_eq!(to_u128_low(&c), 0x1234567);
    let d = shr_256(&a, 13);
    assert_eq!(to_u128_low(&d), 0x12345678u128 >> 13);
}

#[test]
fn shr_top_bits_come_down() {
    // 2^256 - 1 shifted right by 248 leaves the top byte.
    let a = all_ff();
    let c = shr_256(&a, 248);
    assert_eq!(c[0], 0xff);
    assert!(c[1..].iter().all(|&b| b == 0));
    let d = shr_256(&a, 255);
    assert_eq!(d[0], 1);
    assert!(d[1..].iter().all(|&b| b == 0));
}
