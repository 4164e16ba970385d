use lib::bigint::u1024;
use lib::signed::i1024;
use lib::gcd::{gcd, unsigned_abs};
use lib::fraction::fraction;

fn big(limbs: &[(usize, u64)]) -> u1024 {
    let mut d = [0u64; 16];
    for &(i, v) in limbs {
        d[i] = v;
    }
    u1024(d)
}

fn small(v: u64) -> u1024 {
    u1024::from_u64(v)
}

fn signed(v: i64) -> i1024 {
    let m = i1024(small(v.unsigned_abs()));
    if v < 0 { m.neg() } else { m }
}

#[test]
fn constants_and_zero_test() {
    assert!(u1024::zero().is_zero());
    assert!(!u1024::one().is_zero());
    assert_eq!(u1024::one(), small(1));
    assert!(!big(&[(15, 1)]).is_zero());
}

#[test]
fn carrying_add_small_and_overflowing() {
    assert_eq!(small(5).carrying_add(small(7)), (small(12), false));
    let max = u1024([u64::MAX; 16]);
    assert_eq!(max.carrying_add(small(1)), (u1024::zero(), true));
    assert_eq!(big(&[(0, u64::MAX)]).carrying_add(small(1)), (big(&[(1, 1)]), false));
}

#[test]
fn borrowing_sub_small_and_underflowing() {
    assert_eq!(small(7).borrowing_sub(small(5)), (small(2), false));
    let mut expected = [u64::MAX; 16];
    expected[0] = u64::MAX - 1;
    assert_eq!(small(3).borrowing_sub(small(5)), (u1024(expected), true));
    assert_eq!(big(&[(1, 1)]).borrowing_sub(small(1)), (big(&[(0, u64::MAX)]), false));
}

#[test]
fn sub_undoes_add_on_values() {
    let a = big(&[(0, 123), (7, 99), (15, u64::MAX)]);
    let b = big(&[(3, 5), (15, 2)]);
    let (s, _) = a.carrying_add(b);
    assert_eq!(s.borrowing_sub(b).0, a);
}

#[test]
fn full_mul_exact_values() {
    assert_eq!(small(6).full_mul(small(7)), small(42));
    assert_eq!(
        small(u64::MAX).full_mul(small(u64::MAX)),
        big(&[(0, 1), (1, u64::MAX - 1)])
    );
    assert_eq!(big(&[(15, 2)]).full_mul(big(&[(1, 1u64 << 63)])), u1024::zero());
    assert_eq!(big(&[(8, 3)]).full_mul(big(&[(7, 5)])), big(&[(15, 15)]));
}

#[test]
fn div_rem_exact_values() {
    assert_eq!(small(100).div_rem(small(7)), (small(14), small(2)));
    assert_eq!(
        big(&[(2, 1)]).div_rem(small(3)),
        (big(&[(0, 0x5555_5555_5555_5555), (1, 0x5555_5555_5555_5555)]), small(1))
    );
    let max = u1024([u64::MAX; 16]);
    assert_eq!(max.div_rem(max), (small(1), u1024::zero()));
    assert_eq!(small(5).div_rem(max), (u1024::zero(), small(5)));
    let top = big(&[(15, 1u64 << 63)]);
    assert_eq!(max.div_rem(top), (small(1), top.borrowing_sub(small(1)).0));
}

#[test]
fn trailing_zeros_counts() {
    assert_eq!(u1024::zero().trailing_zeros(), 1024);
    assert_eq!(small(8).trailing_zeros(), 3);
    assert_eq!(small(1).trailing_zeros(), 0);
    assert_eq!(big(&[(1, 1)]).trailing_zeros(), 64);
    assert_eq!(big(&[(15, 1u64 << 63)]).trailing_zeros(), 1023);
}

#[test]
fn shifts_move_bits() {
    assert_eq!(small(1).shl(100), big(&[(1, 1u64 << 36)]));
    assert_eq!(big(&[(1, 1u64 << 36)]).shr(100), small(1));
    assert_eq!(small(3).shl(1023), big(&[(15, 1u64 << 63)]));
    assert_eq!(small(1).shl(1024), u1024::zero());
    assert_eq!(small(1).shl(u32::MAX), u1024::zero());
    assert_eq!(u1024([u64::MAX; 16]).shr(1087), u1024::zero());
    assert_eq!(u1024([u64::MAX; 16]).shr(1023), small(1));
    assert_eq!(big(&[(0, 0xF0), (1, 0xF)]).shr(4), big(&[(0, 0xF000_0000_0000_000F)]));
    assert_eq!(big(&[(0, 0xF000_0000_0000_000F)]).shl(4), big(&[(0, 0xF0), (1, 0xF)]));
}

#[test]
fn bitor_is_limbwise() {
    assert_eq!(big(&[(0, 0b1010), (3, 1)]).bitor(big(&[(0, 0b0101), (4, 2)])), big(&[(0, 0b1111), (3, 1), (4, 2)]));
}

#[test]
fn decimal_text_of_u1024() {
    assert_eq!(u1024::zero().to_string(), "0");
    assert_eq!(small(12345).to_string(), "12345");
    assert_eq!(big(&[(1, 1)]).to_string(), "18446744073709551616");
    assert_eq!(
        big(&[(2, 1)]).to_string(),
        "340282366920938463463374607431768211456"
    );
}

#[test]
fn signed_negation_and_sign() {
    let m5 = signed(-5);
    assert!(m5.is_negative());
    assert!(!signed(5).is_negative());
    assert_eq!(m5.abs(), (small(5), true));
    assert_eq!(signed(5).abs(), (small(5), false));
    assert_eq!(m5.neg(), signed(5));
    assert_eq!(i1024(u1024::zero()).neg(), i1024(u1024::zero()));
    let min = i1024(big(&[(15, 1u64 << 63)]));
    assert!(min.is_negative());
    assert_eq!(min.neg(), min);
    assert_eq!(min.abs(), (big(&[(15, 1u64 << 63)]), true));
}

#[test]
fn signed_arithmetic() {
    assert_eq!(signed(-3).wrapping_add(signed(10)), signed(7));
    assert_eq!(signed(3).wrapping_sub(signed(10)), signed(-7));
    assert_eq!(signed(-3).wrapping_mul(signed(4)), signed(-12));
    assert_eq!(signed(-3).wrapping_mul(signed(-4)), signed(12));
    assert_eq!(signed(-7).div(signed(2)), signed(-3));
    assert_eq!(signed(7).div(signed(-2)), signed(-3));
    assert_eq!(signed(-7).div(signed(-2)), signed(3));
    assert_eq!(signed(-7).rem(signed(2)), signed(-1));
    assert_eq!(signed(7).rem(signed(-2)), signed(1));
}

#[test]
fn signed_decimal_text() {
    assert_eq!(signed(-42).to_string(), "-42");
    assert_eq!(signed(42).to_string(), "42");
    assert_eq!(signed(0).to_string(), "0");
}

#[test]
fn gcd_values() {
    assert_eq!(gcd(12, 18), 6);
    assert_eq!(gcd(-4, 6), 2);
    assert_eq!(gcd(17, 5), 1);
    assert_eq!(gcd(0, 5), 5);
    assert_eq!(gcd(5, 0), 5);
    assert_eq!(gcd(0, 0), 0);
    assert_eq!(gcd(i64::MIN, 0), 1u64 << 63);
    assert_eq!(gcd(i64::MIN, i64::MIN), 1u64 << 63);
    assert_eq!(gcd(i64::MIN, 6), 2);
    assert_eq!(gcd(48, 180), 12);
}

#[test]
fn gcd_is_symmetric_on_values() {
    for &(a, b) in &[(12i64, 18i64), (-35, 14), (0, 9), (1 << 40, 3 << 20)] {
        assert_eq!(gcd(a, b), gcd(b, a));
    }
}

#[test]
fn unsigned_abs_values() {
    assert_eq!(unsigned_abs(-5), 5);
    assert_eq!(unsigned_abs(7), 7);
    assert_eq!(unsigned_abs(i64::MIN), 1u64 << 63);
}

#[test]
fn fraction_new_reduces() {
    let f = fraction::new(signed(5), small(10));
    assert_eq!(f.num, signed(1));
    assert_eq!(f.den, small(2));
    assert_eq!(f.to_string(), "1/2");
}

#[test]
fn fraction_zero_numerator() {
    let f = fraction::new(signed(0), small(5));
    assert_eq!(f.den, small(1));
    assert_eq!(f.to_string(), "0");
}

#[test]
fn fraction_reduce_keeps_the_sign() {
    let f = fraction::new(signed(-6), small(4));
    assert_eq!(f.num, signed(-3));
    assert_eq!(f.den, small(2));
    assert_eq!(f.to_string(), "-1(1/2)");
    let mut g = fraction { num: signed(-2), den: small(4) };
    g.reduce();
    assert_eq!((g.num, g.den), (signed(-1), small(2)));
    assert_eq!(g.to_string(), "-1/2");
    let d = fraction::new(signed(1), small(3)).minus(fraction::new(signed(1), small(2)));
    assert_eq!((d.num, d.den), (signed(-1), small(6)));
}

#[test]
fn fraction_reduce_is_idempotent_on_values() {
    let mut f = fraction { num: signed(84), den: small(36) };
    f.reduce();
    let once = f;
    f.reduce();
    assert_eq!(f, once);
    assert_eq!(once.num, signed(7));
    assert_eq!(once.den, small(3));
}

#[test]
fn fraction_arithmetic() {
    let half = fraction::new(signed(1), small(2));
    let third = fraction::new(signed(1), small(3));
    let sum = half.plus(third);
    assert_eq!((sum.num, sum.den), (signed(5), small(6)));
    let diff = half.minus(third);
    assert_eq!((diff.num, diff.den), (signed(1), small(6)));
    let prod = fraction::new(signed(2), small(3)).times(fraction::new(signed(3), small(4)));
    assert_eq!((prod.num, prod.den), (signed(1), small(2)));
    let quot = half.div(fraction::new(signed(1), small(4)));
    assert_eq!((quot.num, quot.den), (signed(2), small(1)));
    assert_eq!(quot.to_string(), "2");
}

#[test]
fn fraction_mixed_number_text() {
    assert_eq!(fraction::new(signed(7), small(2)).to_string(), "3(1/2)");
    assert_eq!(fraction::new(signed(9), small(3)).to_string(), "3");
}

#[test]
fn fraction_with_zero_denominator_reduces_to_one_over_zero() {
    let mut f = fraction { num: signed(6), den: u1024::zero() };
    f.reduce();
    assert_eq!((f.num, f.den), (signed(1), u1024::zero()));
}

#[test]
fn double_negation_gives_the_bits_back() {
    for v in [0i64, 1, -1, 42, -42, i64::MIN, i64::MAX] {
        assert_eq!(signed(v).neg().neg(), signed(v));
    }
    let min = i1024(big(&[(15, 1u64 << 63)]));
    assert_eq!(min.neg().neg(), min);
}

#[test]
fn div_rem_reconstructs_the_dividend() {
    let n = big(&[(0, 0x1234_5678), (5, 77), (12, 3)]);
    let d = big(&[(0, 999), (4, 1)]);
    let (q, r) = n.div_rem(d);
    assert!(r.less_than(d));
    assert_eq!(q.full_mul(d).carrying_add(r), (n, false));
}

#[test]
fn add_undoes_sub_on_values() {
    let a = small(3);
    let b = big(&[(9, 1)]);
    let (d, borrow) = a.borrowing_sub(b);
    assert!(borrow);
    assert_eq!(d.carrying_add(b).0, a);
}
