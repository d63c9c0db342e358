//! The Chinese remainder theorem: the number below the product of
//! coprime moduli that leaves given remainders.

use vstd::prelude::*;
use vstd::arithmetic::div_mod::{
    lemma_add_mod_noop, lemma_mod_bound, lemma_mul_mod_noop_left, lemma_mul_mod_noop_right,
    lemma_small_mod, lemma_sub_mod_noop,
};
use crate::field::modular::{lemma_add_congruent, lemma_mul_congruent, lemma_shift_congruent};
use crate::protocol::gcd::{coprime, divides, mod_inverse};

verus! {

/// Why a system of congruences was refused.
#[derive(Clone, Copy, Debug, PartialEq, Eq, Structural)]
pub enum CrtError {
    /// There is not one modulus per remainder.
    LengthMismatch,
    /// A modulus is 0.
    ZeroModulus,
    /// A modulus shares a factor with the product of those before it.
    NotCoprime,
    /// The product of the moduli does not fit in 64 bits.
    Overflow,
}

/// The product of the moduli.
pub open spec fn product(s: Seq<u64>) -> nat
    decreases s.len(),
{
    if s.len() == 0 {
        1
    } else {
        product(s.drop_last()) * s.last() as nat
    }
}

/// Whether modulus `i` can be taken in after those before it: it is not
/// 0, shares no factor with their product, and the product with it fits
/// in 64 bits.
pub open spec fn admissible(moduli: Seq<u64>, i: int) -> bool {
    &&& moduli[i] > 0
    &&& coprime(product(moduli.take(i)), moduli[i] as nat)
    &&& product(moduli.take(i + 1)) <= u64::MAX
}

/// Whether every modulus can be taken in.
pub open spec fn solvable(moduli: Seq<u64>) -> bool {
    forall|i: int| 0 <= i < moduli.len() ==> admissible(moduli, i)
}

/// Whether `i` is the first modulus that cannot be taken in.
pub open spec fn first_failure(moduli: Seq<u64>, i: int) -> bool {
    &&& 0 <= i < moduli.len()
    &&& forall|j: int| 0 <= j < i ==> admissible(moduli, j)
    &&& !admissible(moduli, i)
}

/// Whether `x` leaves remainder `residues[i]` modulo `moduli[i]`, for
/// every `i`.
pub open spec fn solves(x: nat, residues: Seq<u64>, moduli: Seq<u64>) -> bool {
    forall|i: int|
        0 <= i < moduli.len() ==> x % (moduli[i] as nat) == residues[i] as nat % (
        moduli[i] as nat)
}

/// What a refusal says of the system.
pub open spec fn explains(e: CrtError, residues: Seq<u64>, moduli: Seq<u64>) -> bool {
    match e {
        CrtError::LengthMismatch => residues.len() != moduli.len(),
        CrtError::ZeroModulus => residues.len() == moduli.len() && exists|i: int|
            first_failure(moduli, i) && moduli[i] == 0,
        CrtError::NotCoprime => residues.len() == moduli.len() && exists|i: int|
            first_failure(moduli, i) && moduli[i] > 0 && !coprime(
                product(moduli.take(i)),
                moduli[i] as nat,
            ),
        CrtError::Overflow => residues.len() == moduli.len() && exists|i: int|
            first_failure(moduli, i) && moduli[i] > 0 && coprime(
                product(moduli.take(i)),
                moduli[i] as nat,
            ) && product(moduli.take(i + 1)) > u64::MAX,
    }
}

/// The product through modulus `i` is the product before it times it.
pub proof fn lemma_product_step(moduli: Seq<u64>, i: int)
    requires
        0 <= i < moduli.len(),
    ensures
        product(moduli.take(i + 1)) == product(moduli.take(i)) * moduli[i] as nat,
{
    assert(moduli.take(i + 1).drop_last() =~= moduli.take(i));
}

/// Every modulus divides the product of the moduli up to it.
pub proof fn lemma_product_divisible(moduli: Seq<u64>, i: int, j: int)
    requires
        0 <= j < i <= moduli.len(),
        moduli[j] > 0,
    ensures
        product(moduli.take(i)) % (moduli[j] as nat) == 0,
    decreases i,
{
    let d = moduli[j] as int;
    lemma_product_step(moduli, i - 1);
    let before = product(moduli.take(i - 1)) as int;
    let last = moduli[i - 1] as int;
    if j == i - 1 {
        vstd::arithmetic::div_mod::lemma_mod_multiples_basic(before, d);
    } else {
        lemma_product_divisible(moduli, i - 1, j);
        lemma_keeps_remainder(0, before, last, d);
    }
}

/// In a solvable system no two moduli share a factor.
pub proof fn lemma_pairwise_coprime(moduli: Seq<u64>, i: int, j: int)
    requires
        solvable(moduli),
        0 <= j < i < moduli.len(),
    ensures
        coprime(moduli[j] as nat, moduli[i] as nat),
{
    let p = product(moduli.take(i));
    let a = moduli[j] as nat;
    let b = moduli[i] as nat;
    assert(admissible(moduli, i));
    assert(admissible(moduli, j));
    lemma_product_divisible(moduli, i, j);
    lemma_small_mod(0, 1);
    assert(divides(1, a)) by {
        vstd::arithmetic::div_mod::lemma_mod_multiples_basic(a as int, 1);
    }
    assert forall|d: nat| #[trigger] divides(d, a) && divides(d, b) implies divides(d, 1) by {
        // d divides a, and a divides the product before b
        let k = p / a;
        vstd::arithmetic::div_mod::lemma_fundamental_div_mod(p as int, a as int);
        assert(p == a * k);
        crate::protocol::gcd::lemma_divides_combination(d, 0, a as int, k as int);
        assert(0 + k * a == p) by (nonlinear_arith)
            requires
                p == a * k,
        ;
        assert(divides(d, p));
    }
}

/// Taking in one congruence: `x + M t` leaves `r` modulo `m` and what
/// `x` leaves modulo every divisor of `M`.
proof fn lemma_combine(x: int, big_m: int, r: int, m: int, inv: int, diff: int, t: int)
    requires
        m > 0,
        (big_m * inv) % m == 1int % m,
        diff == (r % m + m - x % m) % m,
        t == (diff * inv) % m,
    ensures
        (x + big_m * t) % m == r % m,
{
    // diff is congruent to r - x
    lemma_sub_mod_noop(r, x, m);
    lemma_shift_congruent(r % m - x % m, 1, m);
    assert(r % m - x % m + 1 * m == r % m + m - x % m);
    lemma_mod_bound(r - x, m);
    assert(diff == (r - x) % m);
    vstd::arithmetic::div_mod::lemma_mod_twice(r - x, m);
    // M t is congruent to M inv diff, that is to diff
    lemma_mul_mod_noop_right(big_m, diff * inv, m);
    assert(big_m * (diff * inv) == (big_m * inv) * diff) by (nonlinear_arith);
    lemma_mul_congruent(big_m * inv, 1, diff, r - x, m);
    assert(1 * (r - x) == r - x);
    lemma_add_congruent(x, x, big_m * t, r - x, m);
}

/// A multiple of `M` changes no remainder modulo a divisor of `M`.
proof fn lemma_keeps_remainder(x: int, big_m: int, t: int, d: int)
    requires
        d > 0,
        big_m % d == 0,
    ensures
        (x + big_m * t) % d == x % d,
        (big_m * t) % d == 0,
{
    lemma_mul_mod_noop_left(big_m, t, d);
    assert(0 * t == 0);
    lemma_small_mod(0, d as nat);
    lemma_add_mod_noop(x, big_m * t, d);
    vstd::arithmetic::div_mod::lemma_mod_twice(x, d);
}

/// The number below the product of the moduli that leaves the given
/// remainders, if every modulus is positive and shares no factor with
/// another and their product fits in 64 bits; else what stands in the way
/// at the first modulus that cannot be taken in.
pub fn chinese_remainder(residues: &[u64], moduli: &[u64]) -> (r: Result<u64, CrtError>)
    ensures
        match r {
            Ok(x) => residues@.len() == moduli@.len() && solvable(moduli@) && x < product(
                moduli@,
            ) && solves(x as nat, residues@, moduli@),
            Err(e) => explains(e, residues@, moduli@),
        },
{
    if residues.len() != moduli.len() {
        return Err(CrtError::LengthMismatch);
    }
    let mut x: u64 = 0;
    let mut big_m: u64 = 1;
    let mut i: usize = 0;
    proof {
        assert(moduli@.take(0) =~= Seq::<u64>::empty());
    }
    while i < moduli.len()
        invariant
            i <= moduli@.len(),
            residues@.len() == moduli@.len(),
            big_m as nat == product(moduli@.take(i as int)),
            big_m >= 1,
            x < big_m,
            forall|j: int| 0 <= j < i ==> admissible(moduli@, j),
            forall|j: int|
                0 <= j < i ==> moduli@[j] > 0 && big_m as nat % (#[trigger] moduli@[j] as nat) == 0
                    && x as nat % (moduli@[j] as nat) == residues@[j] as nat % (moduli@[j] as nat),
        decreases moduli@.len() - i,
    {
        let m: u64 = moduli[i];
        proof {
            lemma_product_step(moduli@, i as int);
        }
        if m == 0 {
            assert(first_failure(moduli@, i as int));
            return Err(CrtError::ZeroModulus);
        }
        let inv: u64 = match mod_inverse(big_m, m) {
            Ok(inv) => inv,
            Err(_) => {
                assert(first_failure(moduli@, i as int));
                return Err(CrtError::NotCoprime);
            },
        };
        assert(big_m * m <= 0xFFFF_FFFF_FFFF_FFFF * 0xFFFF_FFFF_FFFF_FFFF) by (nonlinear_arith)
            requires
                big_m <= 0xFFFF_FFFF_FFFF_FFFF,
                m <= 0xFFFF_FFFF_FFFF_FFFF,
        ;
        let wide: u128 = (big_m as u128) * (m as u128);
        if wide > u64::MAX as u128 {
            assert(first_failure(moduli@, i as int));
            return Err(CrtError::Overflow);
        }
        let diff: u128 = ((residues[i] % m) as u128 + m as u128 - (x % m) as u128) % (m as u128);
        assert(diff * inv <= 0xFFFF_FFFF_FFFF_FFFF * 0xFFFF_FFFF_FFFF_FFFF) by (nonlinear_arith)
            requires
                diff <= 0xFFFF_FFFF_FFFF_FFFF,
                inv <= 0xFFFF_FFFF_FFFF_FFFF,
        ;
        let t: u128 = (diff * (inv as u128)) % (m as u128);
        assert(big_m * t <= big_m * (m - 1)) by (nonlinear_arith)
            requires
                t <= m - 1,
                big_m >= 1,
        ;
        assert(big_m * (m - 1) == big_m * m - big_m) by (nonlinear_arith);
        let next: u128 = x as u128 + (big_m as u128) * t;
        proof {
            lemma_combine(
                x as int,
                big_m as int,
                residues@[i as int] as int,
                m as int,
                inv as int,
                diff as int,
                t as int,
            );
            assert forall|j: int| 0 <= j < i implies wide as nat % (#[trigger] moduli@[j] as nat)
                == 0 && next as nat % (moduli@[j] as nat) == residues@[j] as nat % (
            moduli@[j] as nat) by {
                lemma_keeps_remainder(x as int, big_m as int, t as int, moduli@[j] as int);
                lemma_keeps_remainder(0, big_m as int, m as int, moduli@[j] as int);
            }
            vstd::arithmetic::div_mod::lemma_mod_multiples_basic(big_m as int, m as int);
            assert(big_m * m == m * big_m) by (nonlinear_arith);
            assert(admissible(moduli@, i as int));
        }
        x = next as u64;
        big_m = wide as u64;
        i += 1;
    }
    proof {
        assert(moduli@.take(moduli@.len() as int) =~= moduli@);
    }
    Ok(x)
}

/// The number below `m1 m2` that leaves `r1` modulo `m1` and `r2` modulo
/// `m2`: [`chinese_remainder`] for two congruences.
pub fn chinese_remainder_solver(r1: u64, m1: u64, r2: u64, m2: u64) -> (r: Result<u64, CrtError>)
    ensures
        match r {
            Ok(x) => solvable(seq![m1, m2]) && x < product(seq![m1, m2]) && solves(
                x as nat,
                seq![r1, r2],
                seq![m1, m2],
            ),
            Err(e) => explains(e, seq![r1, r2], seq![m1, m2]),
        },
{
    let residues: [u64; 2] = [r1, r2];
    let moduli: [u64; 2] = [m1, m2];
    assert(residues@ =~= seq![r1, r2]);
    assert(moduli@ =~= seq![m1, m2]);
    chinese_remainder(residues.as_slice(), moduli.as_slice())
}

} // verus!
