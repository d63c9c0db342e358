use mathlib::error::MathError;
use mathlib::protocol::crt::{chinese_remainder, chinese_remainder_solver, CrtError};
use mathlib::protocol::gcd::{extended_gcd, mod_inverse, ExtendedGcdResult};

#[test]
fn extended_gcd_gives_bezout_coefficients() {
    assert_eq!(extended_gcd(240, 46), ExtendedGcdResult { gcd: 2, x: -9, y: 47 });
    assert_eq!(extended_gcd(17, 0), ExtendedGcdResult { gcd: 17, x: 1, y: 0 });
    assert_eq!(extended_gcd(0, 0), ExtendedGcdResult { gcd: 0, x: 1, y: 0 });
    let r = extended_gcd(0, 9);
    assert_eq!(r.gcd, 9);
    assert_eq!(0 * r.x + 9 * r.y, 9);
    for (a, b) in [(1u64, 1u64), (12, 18), (35, 64), (u64::MAX, u64::MAX - 1), (u64::MAX, 2)] {
        let r = extended_gcd(a, b);
        assert_eq!(a as i128 * r.x + b as i128 * r.y, r.gcd as i128);
        assert_eq!(a % r.gcd, 0);
        assert_eq!(b % r.gcd, 0);
    }
    assert_eq!(extended_gcd(u64::MAX, u64::MAX - 1).gcd, 1);
    assert_eq!(extended_gcd(12, 18).gcd, 6);
}

#[test]
fn inverses_exist_for_coprime_values_only() {
    assert_eq!(mod_inverse(3, 11), Ok(4));
    assert_eq!(mod_inverse(10, 7), Ok(5));
    assert_eq!(mod_inverse(1, 2), Ok(1));
    assert_eq!(mod_inverse(5, 1), Ok(0));
    assert_eq!(mod_inverse(6, 9), Err(MathError::NoInverseExists));
    assert_eq!(mod_inverse(0, 5), Err(MathError::NoInverseExists));
    assert_eq!(mod_inverse(4, 0), Err(MathError::NoInverseExists));
    let p: u64 = 0xffff_ffff_0000_0001;
    let inv = mod_inverse(12345, p).unwrap();
    assert_eq!((12345u128 * inv as u128) % p as u128, 1);
}

#[test]
fn remainders_are_reconstructed() {
    assert_eq!(chinese_remainder(&[2, 3, 2], &[3, 5, 7]), Ok(23));
    assert_eq!(chinese_remainder(&[], &[]), Ok(0));
    assert_eq!(chinese_remainder(&[12], &[5]), Ok(2));
    assert_eq!(chinese_remainder_solver(1, 4, 2, 9), Ok(29));
    let moduli = [4294967291u64, 4294967279];
    let x = chinese_remainder(&[17, 1000000], &moduli).unwrap();
    assert_eq!(x % moduli[0], 17);
    assert_eq!(x % moduli[1], 1000000);
}

#[test]
fn unsolvable_systems_are_refused() {
    assert_eq!(chinese_remainder(&[1, 2], &[3]), Err(CrtError::LengthMismatch));
    assert_eq!(chinese_remainder(&[1, 2], &[3, 0]), Err(CrtError::ZeroModulus));
    assert_eq!(chinese_remainder(&[1, 2], &[4, 6]), Err(CrtError::NotCoprime));
    assert_eq!(chinese_remainder_solver(1, 6, 1, 9), Err(CrtError::NotCoprime));
    assert_eq!(chinese_remainder(&[1, 2], &[1u64 << 63, 3]), Err(CrtError::Overflow));
    // The first modulus that cannot be taken in decides.
    assert_eq!(chinese_remainder(&[1, 2, 3], &[1u64 << 63, 3, 0]), Err(CrtError::Overflow));
    assert_eq!(chinese_remainder(&[1, 2, 3], &[4, 0, 6]), Err(CrtError::ZeroModulus));
}
