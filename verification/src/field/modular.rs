//! Congruences modulo a positive integer.

use vstd::prelude::*;
use vstd::arithmetic::power::{lemma1_pow, lemma_pow_distributes, lemma_pow_mod_noop, pow};
use vstd::arithmetic::power2::{lemma_pow2, pow2};
use vstd::arithmetic::div_mod::{
    lemma_add_mod_noop, lemma_mod_multiples_vanish, lemma_mul_mod_noop, lemma_mul_mod_noop_right,
    lemma_small_mod,
};

verus! {

/// `(a + b) mod q`.
pub open spec fn add_mod(a: nat, b: nat, q: nat) -> nat {
    (a + b) % q
}

/// `(a - b) mod q`, in `[0, q)`.
pub open spec fn sub_mod(a: nat, b: nat, q: nat) -> nat {
    ((a - b) % (q as int)) as nat
}

/// `(a * b) mod q`.
pub open spec fn mul_mod(a: nat, b: nat, q: nat) -> nat {
    (a * b) % q
}

/// `-a mod q`, in `[0, q)`.
pub open spec fn neg_mod(a: nat, q: nat) -> nat {
    ((0 - a) % (q as int)) as nat
}

/// Congruent factors give congruent products.
pub proof fn lemma_mul_congruent(a: int, b: int, c: int, d: int, m: int)
    requires
        m > 0,
        a % m == b % m,
        c % m == d % m,
    ensures
        (a * c) % m == (b * d) % m,
{
    lemma_mul_mod_noop(a, c, m);
    lemma_mul_mod_noop(b, d, m);
}

/// Congruent terms give congruent sums.
pub proof fn lemma_add_congruent(a: int, b: int, c: int, d: int, m: int)
    requires
        m > 0,
        a % m == b % m,
        c % m == d % m,
    ensures
        (a + c) % m == (b + d) % m,
{
    lemma_add_mod_noop(a, c, m);
    lemma_add_mod_noop(b, d, m);
}

/// Adding a multiple of the modulus changes nothing.
pub proof fn lemma_shift_congruent(a: int, k: int, m: int)
    requires
        m > 0,
    ensures
        (a + k * m) % m == a % m,
{
    lemma_mod_multiples_vanish(k, a, m);
    assert(m * k + a == a + k * m) by (nonlinear_arith);
}

/// A factor congruent to 1 can be dropped.
pub proof fn lemma_unit_factor(a: int, u: int, m: int)
    requires
        m > 0,
        u % m == 1int % m,
    ensures
        (a * u) % m == a % m,
{
    lemma_mul_mod_noop_right(a, u, m);
    lemma_mul_mod_noop_right(a, 1, m);
    assert(a * 1 == a);
}

/// `(q + 1) / 2` inverts 2, so its `l`-th power inverts `2^l`.
pub proof fn lemma_half_power(q: nat, l: nat, inv: nat)
    requires
        q > 1,
        q % 2 == 1,
        inv == pow(((q + 1) / 2) as int, l) % (q as int),
    ensures
        (pow2(l) * inv) % q == 1,
{
    let h = ((q + 1) / 2) as int;
    let m = q as int;
    lemma_pow2(l);
    lemma_pow_distributes(2, h, l);
    assert(2 * h == q + 1);
    lemma_pow_mod_noop(m + 1, l, m);
    lemma_shift_congruent(1, 1, m);
    assert(1 * m == m);
    lemma_small_mod(1, q);
    lemma1_pow(l);
    lemma_mul_mod_noop_right(pow(2, l), pow(h, l), m);
}

} // verus!
