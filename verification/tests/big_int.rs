use mathlib::big_int::u1024::U1024;

#[test]
fn test_gmp_add() {
    let a = U1024::from_u64(100);
    let b = U1024::from_u64(50);
    let c = a + b;
    assert_eq!(c, U1024::from_u64(150));
}

#[test]
fn test_gmp_overflow() {
    // Overflow of the lowest limb carries into the next one.
    let mut a = U1024::zero();
    a.0[0] = u64::MAX;

    let b = U1024::from_u64(1);
    let (c, carry) = a.carrying_add(&b);

    assert_eq!(c.0[0], 0);
    assert_eq!(c.0[1], 1);
    assert_eq!(carry, false);
}

fn max() -> U1024 {
    U1024([u64::MAX; 16])
}

#[test]
fn carrying_add_overflows_at_the_top() {
    let (sum, carry) = max().carrying_add(&U1024::one());
    assert_eq!(sum, U1024::zero());
    assert!(carry);
    let (sum, carry) = max().carrying_add(&max());
    assert!(carry);
    assert_eq!(sum.0[0], u64::MAX - 1);
    assert_eq!(sum.0[15], u64::MAX);
}

#[test]
fn borrowing_sub_borrows_iff_smaller() {
    let (diff, borrow) = U1024::zero().borrowing_sub(&U1024::one());
    assert!(borrow);
    assert_eq!(diff, max());
    let (diff, borrow) = U1024::from_u64(7).borrowing_sub(&U1024::from_u64(5));
    assert!(!borrow);
    assert_eq!(diff, U1024::from_u64(2));
    let mut a = U1024::zero();
    a.0[1] = 1;
    let (diff, borrow) = a.borrowing_sub(&U1024::one());
    assert!(!borrow);
    assert_eq!(diff.0[0], u64::MAX);
    assert_eq!(diff.0[1], 0);
    let (_, borrow) = a.borrowing_sub(&a);
    assert!(!borrow);
}

#[test]
fn operators_wrap() {
    assert_eq!(max() + U1024::one(), U1024::zero());
    assert_eq!(U1024::zero() - U1024::one(), max());
    assert_eq!(U1024::default(), U1024::zero());
}

#[test]
fn conditional_select_picks_by_choice() {
    let a = U1024::from_u64(1);
    let b = max();
    assert_eq!(U1024::conditional_select(&a, &b, true), a);
    assert_eq!(U1024::conditional_select(&a, &b, false), b);
}

#[test]
fn comparison_and_zero_test() {
    assert!(U1024::from_u64(3).lt(&U1024::from_u64(4)));
    assert!(!U1024::from_u64(4).lt(&U1024::from_u64(4)));
    let mut high = U1024::zero();
    high.0[15] = 1;
    assert!(max().lt(&max()) == false);
    assert!(U1024::from_u64(u64::MAX).lt(&high));
    assert!(U1024::zero().is_zero());
    assert!(!high.is_zero());
    assert!(high != U1024::zero());
}

#[test]
fn widening_mul_gives_both_halves() {
    let (lo, hi) = max().widening_mul(&max());
    // (2^1024 - 1)^2 = 2^2048 - 2^1025 + 1
    assert_eq!(lo, U1024::one());
    let mut expected_hi = max();
    expected_hi.0[0] = u64::MAX - 1;
    assert_eq!(hi, expected_hi);
    let (lo, hi) = U1024::from_u64(u64::MAX).widening_mul(&U1024::from_u64(u64::MAX));
    assert_eq!(lo.0[0], 1);
    assert_eq!(lo.0[1], u64::MAX - 1);
    assert_eq!(lo.0[2], 0);
    assert!(hi.is_zero());
}

#[test]
fn shift_right_crosses_limbs() {
    let mut a = U1024::zero();
    a.0[1] = 1;
    a.0[0] = 3;
    let h = a.shr1();
    assert_eq!(h.0[0], 0x8000_0000_0000_0001);
    assert_eq!(h.0[1], 0);
    assert_eq!(max().shr1().0[15], u64::MAX >> 1);
}

#[test]
fn hexadecimal_text() {
    let text = U1024::from_u64(0xabc).to_hex();
    assert_eq!(text.len(), 258);
    assert!(text.starts_with("0x0000"));
    assert!(text.ends_with("0000000000000abc"));
    let mut a = U1024::zero();
    a.0[15] = 0xf000_0000_0000_0000;
    assert!(a.to_hex().starts_with("0xf000"));
}
