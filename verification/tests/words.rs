use evm_core::primitive_types::{Error, U256, U512};
use evm_core::arithmetic::{addmod, div, exp, mulmod, rem, sdiv, signextend, srem};
use evm_core::bitwise::{byte, iszero, sar, shl, shr, sgt, slt};

fn w(v: u64) -> U256 {
    U256::from_u64(v)
}

fn max_word() -> U256 {
    U256::zero().not()
}

fn min_signed() -> U256 {
    U256 { w0: 0, w1: 0, w2: 0, w3: 0x8000_0000_0000_0000 }
}

#[test]
fn add_wraps_around() {
    let (s, carry) = max_word().overflowing_add(w(1));
    assert_eq!(s, U256::zero());
    assert!(carry);
    let (s2, c2) = w(2).overflowing_add(w(3));
    assert_eq!(s2, w(5));
    assert!(!c2);
}

#[test]
fn sub_wraps_around() {
    let (d, borrow) = U256::zero().overflowing_sub(w(1));
    assert_eq!(d, max_word());
    assert!(borrow);
    let (d2, b2) = w(7).overflowing_sub(w(5));
    assert_eq!(d2, w(2));
    assert!(!b2);
}

#[test]
fn mul_wraps_around() {
    let two_128 = U256 { w0: 0, w1: 0, w2: 1, w3: 0 };
    let (p, overflow) = two_128.overflowing_mul(two_128);
    assert_eq!(p, U256::zero());
    assert!(overflow);
    let (p2, o2) = w(3).overflowing_mul(w(4));
    assert_eq!(p2, w(12));
    assert!(!o2);
}

#[test]
fn division_by_zero_is_zero() {
    assert_eq!(div(w(10), U256::zero()), U256::zero());
    assert_eq!(rem(w(10), U256::zero()), U256::zero());
    assert_eq!(sdiv(w(10), U256::zero()), U256::zero());
    assert_eq!(srem(w(10), U256::zero()), U256::zero());
    assert_eq!(addmod(w(3), w(4), U256::zero()), U256::zero());
    assert_eq!(mulmod(w(3), w(4), U256::zero()), U256::zero());
}

#[test]
fn unsigned_division() {
    assert_eq!(div(w(10), w(3)), w(3));
    assert_eq!(rem(w(10), w(3)), w(1));
    let (q, r) = max_word().div_rem(&w(5));
    let (back, _) = q.overflowing_mul(w(5));
    let (back, _) = back.overflowing_add(r);
    assert_eq!(back, max_word());
}

#[test]
fn sdiv_min_by_minus_one_wraps() {
    assert_eq!(sdiv(min_signed(), max_word()), min_signed());
}

#[test]
fn signed_division_and_remainder() {
    let minus_five = U256::zero().overflowing_sub(w(5)).0;
    let minus_two = U256::zero().overflowing_sub(w(2)).0;
    let minus_one = U256::zero().overflowing_sub(w(1)).0;
    assert_eq!(sdiv(minus_five, w(2)), minus_two);
    assert_eq!(srem(minus_five, w(3)), minus_two);
    assert_eq!(srem(w(5), minus_three()), w(2));
    assert_eq!(sdiv(w(5), minus_five), minus_one);
}

fn minus_three() -> U256 {
    U256::zero().overflowing_sub(U256::from_u64(3)).0
}

#[test]
fn wide_modular_arithmetic() {
    assert_eq!(addmod(max_word(), w(2), w(7)), w(3));
    assert_eq!(mulmod(max_word(), max_word(), w(12)), w(9));
    assert_eq!(addmod(w(10), w(10), w(8)), w(4));
}

#[test]
fn exponentiation() {
    assert_eq!(exp(w(2), w(10)), w(1024));
    assert_eq!(exp(U256::zero(), U256::zero()), w(1));
    assert_eq!(exp(w(3), w(5)), w(243));
    assert_eq!(exp(w(2), w(256)), U256::zero());
}

#[test]
fn sign_extension() {
    assert_eq!(signextend(U256::zero(), w(0xFF)), max_word());
    assert_eq!(signextend(U256::zero(), w(0x7F)), w(0x7F));
    assert_eq!(signextend(w(31), max_word()), max_word());
    assert_eq!(signextend(w(40), w(0x1234)), w(0x1234));
    assert_eq!(signextend(w(1), w(0x80FF)), {
        let mut x = max_word();
        x.w0 = 0xFFFF_FFFF_FFFF_80FF;
        x
    });
}

#[test]
fn byte_extraction() {
    let x = U256 { w0: 0x1122, w1: 0, w2: 0, w3: 0xAA00_0000_0000_0000 };
    assert_eq!(byte(w(0), x), w(0xAA));
    assert_eq!(byte(w(31), x), w(0x22));
    assert_eq!(byte(w(30), x), w(0x11));
    assert_eq!(byte(w(32), x), U256::zero());
    assert_eq!(byte(w(100), x), U256::zero());
}

#[test]
fn logical_shifts() {
    assert_eq!(shl(w(4), w(1)), w(16));
    assert_eq!(shr(w(4), w(256)), w(16));
    assert_eq!(shl(w(256), w(1)), U256::zero());
    assert_eq!(shr(w(256), max_word()), U256::zero());
    assert_eq!(shl(w(255), w(3)), min_signed());
}

#[test]
fn arithmetic_shift() {
    let r = sar(w(1), min_signed());
    let expected = U256 { w0: 0, w1: 0, w2: 0, w3: 0xC000_0000_0000_0000 };
    assert_eq!(r, expected);
    assert_eq!(sar(w(256), min_signed()), max_word());
    assert_eq!(sar(w(256), w(5)), U256::zero());
    assert_eq!(sar(w(2), w(20)), w(5));
    // rounds toward minus infinity: -5 >> 1 == -3
    let minus_five = U256::zero().overflowing_sub(w(5)).0;
    let minus_three = U256::zero().overflowing_sub(w(3)).0;
    assert_eq!(sar(w(1), minus_five), minus_three);
}

#[test]
fn comparisons() {
    assert_eq!(slt(max_word(), w(0)), U256::from_u64(1));
    assert_eq!(sgt(w(0), max_word()), U256::from_u64(1));
    assert_eq!(slt(w(3), w(4)), U256::from_u64(1));
    assert_eq!(iszero(U256::zero()), U256::from_u64(1));
    assert_eq!(iszero(w(3)), U256::zero());
    assert!(w(3).lt(&w(4)));
    assert!(w(4).gt(&w(3)));
}

#[test]
fn big_endian_round_trip() {
    let x = U256 { w0: 0x1122_3344_5566_7788, w1: 0x99AA, w2: 0xBBCC, w3: 0xDD00_0000_0000_0001 };
    let bytes = x.to_big_endian();
    assert_eq!(bytes.len(), 32);
    assert_eq!(bytes[0], 0xDD);
    assert_eq!(bytes[31], 0x88);
    let back = U256::from_big_endian_fast(bytes.as_slice());
    assert_eq!(back, x);
}

#[test]
fn big_endian_into_buffer() {
    let x = w(0x0102);
    let mut buf = vec![0xEEu8; 40];
    x.into_big_endian_fast(&mut buf);
    assert_eq!(buf[30], 0x01);
    assert_eq!(buf[31], 0x02);
    assert_eq!(buf[0], 0x00);
    assert_eq!(buf[32], 0xEE);
    let short = U256::from_big_endian_fast(&buf[30..32]);
    assert_eq!(short, x);
}

#[test]
fn widening_and_narrowing() {
    let x = w(77);
    let wide = U512::from(x);
    assert_eq!(U256::try_from(wide), Ok(x));
    let too_big = U512 { v0: 0, v1: 0, v2: 0, v3: 0, v4: 1, v5: 0, v6: 0, v7: 0 };
    assert_eq!(U256::try_from(too_big), Err(Error::Overflow));
}

#[test]
fn full_product() {
    let p = evm_core::primitive_types::mul_full(&max_word(), &max_word());
    // (2^256 - 1)^2 = 2^512 - 2^257 + 1
    assert_eq!(p.v0, 1);
    assert_eq!(p.v1, 0);
    assert_eq!(p.v2, 0);
    assert_eq!(p.v3, 0);
    assert_eq!(p.v4, 0xFFFF_FFFF_FFFF_FFFE);
    assert_eq!(p.v5, 0xFFFF_FFFF_FFFF_FFFF);
    assert_eq!(p.v6, 0xFFFF_FFFF_FFFF_FFFF);
    assert_eq!(p.v7, 0xFFFF_FFFF_FFFF_FFFF);
}
