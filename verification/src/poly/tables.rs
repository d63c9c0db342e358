//! Construction of twiddle tables from a root of unity.

use vstd::prelude::*;
use vstd::arithmetic::div_mod::{
    lemma_fundamental_div_mod, lemma_fundamental_div_mod_converse, lemma_mod_bound,
    lemma_mul_mod_noop, lemma_mul_mod_noop_left, lemma_small_mod,
};
use vstd::arithmetic::power::{lemma_pow0, lemma_pow1, lemma_pow_adds, pow};
use vstd::arithmetic::power2::{
    lemma_pow2_pos, lemma_pow2_strictly_increases, lemma_pow2_unfold, pow2,
};
use crate::field::config::FieldConfig;
use crate::field::element::FieldElement;
use crate::field::modular::{mul_mod, neg_mod};

verus! {

/// The exponent `l` with `n == 2^l`, if there is one.
pub fn exact_log2(n: usize) -> (r: Option<u32>)
    ensures
        match r {
            Some(l) => n as nat == pow2(l as nat),
            None => forall|l: nat| n as nat != pow2(l),
        },
{
    let mut m: usize = 1;
    let mut l: u32 = 0;
    proof {
        vstd::arithmetic::power2::lemma2_to64();
    }
    while m < n && m <= usize::MAX / 2
        invariant
            m >= 1,
            m as nat == pow2(l as nat),
            l < 64,
            l > 0 ==> pow2((l - 1) as nat) < n,
        decreases 64 - l,
    {
        proof {
            lemma_pow2_unfold((l + 1) as nat);
            vstd::arithmetic::power2::lemma2_to64();
            if l + 1 > 64 {
                lemma_pow2_strictly_increases(64, (l + 1) as nat);
            }
        }
        m = m * 2;
        l = l + 1;
    }
    if m == n {
        Some(l)
    } else {
        proof {
            assert forall|j: nat| n as nat != pow2(j) by {
                lemma_pow2_pos(j);
                if j < l {
                    if j < l - 1 {
                        lemma_pow2_strictly_increases(j, (l - 1) as nat);
                    }
                } else if j > l {
                    lemma_pow2_strictly_increases((l + 1) as nat, j + 1);
                    lemma_pow2_unfold((l + 1) as nat);
                    if j > l + 1 {
                        lemma_pow2_strictly_increases((l + 1) as nat, j);
                    }
                }
            }
        }
        None
    }
}

/// `base^(2^k) mod q`, by `k` squarings.
pub fn repeated_square<C: FieldConfig>(base: FieldElement<C>, k: u32) -> (r: FieldElement<C>)
    ensures
        r@ == pow(base@ as int, pow2(k as nat)) % (C::modulus_spec() as int),
{
    let mut acc = base;
    let mut i: u32 = 0;
    proof {
        C::lemma_modulus();
        base.lemma_view_bound();
        vstd::arithmetic::power2::lemma2_to64();
        lemma_pow1(base@ as int);
        lemma_small_mod(base@, C::modulus_spec());
    }
    while i < k
        invariant
            i <= k,
            C::modulus_spec() > 1,
            acc@ == pow(base@ as int, pow2(i as nat)) % (C::modulus_spec() as int),
        decreases k - i,
    {
        let next = acc.mul(acc);
        proof {
            let q = C::modulus_spec() as int;
            let p = pow(base@ as int, pow2(i as nat));
            lemma_mul_mod_noop(p, p, q);
            lemma_pow_adds(base@ as int, pow2(i as nat), pow2(i as nat));
            lemma_pow2_unfold((i + 1) as nat);
        }
        acc = next;
        i += 1;
    }
    acc
}

/// `base^k mod q`, by `k` multiplications.
pub fn small_power<C: FieldConfig>(base: FieldElement<C>, k: u32) -> (r: FieldElement<C>)
    ensures
        r@ == pow(base@ as int, k as nat) % (C::modulus_spec() as int),
{
    let mut acc = FieldElement::<C>::one();
    let mut i: u32 = 0;
    proof {
        C::lemma_modulus();
        lemma_pow0(base@ as int);
        lemma_small_mod(1, C::modulus_spec());
    }
    while i < k
        invariant
            i <= k,
            C::modulus_spec() > 1,
            acc@ == pow(base@ as int, i as nat) % (C::modulus_spec() as int),
        decreases k - i,
    {
        let next = acc.mul(base);
        proof {
            let q = C::modulus_spec() as int;
            let p = pow(base@ as int, i as nat);
            lemma_mul_mod_noop_left(p, base@ as int, q);
            lemma_pow_adds(base@ as int, i as nat, 1);
            lemma_pow1(base@ as int);
        }
        acc = next;
        i += 1;
    }
    acc
}

/// The powers `psi^0, ..., psi^(n-1)`.
pub fn power_table<C: FieldConfig>(psi: FieldElement<C>, n: usize) -> (r: Vec<FieldElement<C>>)
    requires
        n >= 1,
    ensures
        r@.len() == n,
        forall|i: int|
            0 <= i < n ==> (#[trigger] r@[i])@ == pow(psi@ as int, i as nat) % (
            C::modulus_spec() as int),
{
    let mut table: Vec<FieldElement<C>> = Vec::new();
    let mut acc = FieldElement::<C>::one();
    proof {
        C::lemma_modulus();
        lemma_pow0(psi@ as int);
        lemma_small_mod(1, C::modulus_spec());
    }
    let mut i: usize = 0;
    while i < n
        invariant
            i <= n,
            C::modulus_spec() > 1,
            table@.len() == i,
            acc@ == pow(psi@ as int, i as nat) % (C::modulus_spec() as int),
            forall|j: int|
                0 <= j < i ==> (#[trigger] table@[j])@ == pow(psi@ as int, j as nat) % (
                C::modulus_spec() as int),
        decreases n - i,
    {
        table.push(acc);
        let next = acc.mul(psi);
        proof {
            let q = C::modulus_spec() as int;
            let p = pow(psi@ as int, i as nat);
            lemma_mul_mod_noop_left(p, psi@ as int, q);
            lemma_pow_adds(psi@ as int, i as nat, 1);
            lemma_pow1(psi@ as int);
        }
        acc = next;
        i += 1;
    }
    table
}

/// The constant `r` of the factor `X^len - r` that tree node `k` stands
/// for: `-1` at the top, the parent's twiddle at an even node, its negation
/// at an odd one.
pub open spec fn node_root(z: Seq<nat>, q: nat, k: int) -> nat {
    if k <= 1 {
        (q - 1) as nat
    } else if k % 2 == 0 {
        z[k / 2]
    } else {
        neg_mod(z[k / 2], q)
    }
}

/// Twiddle `k` squares to the constant of node `k`, and the inverse table
/// inverts it, for every node `k` in `[1, n)`.
pub open spec fn twiddles_linked(z: Seq<nat>, zi: Seq<nat>, q: nat, n: nat) -> bool {
    &&& z.len() == n
    &&& zi.len() == n
    &&& forall|k: int| 1 <= k < n ==> #[trigger] z[k] < q && zi[k] < q
    &&& forall|k: int| 1 <= k < n ==> mul_mod(#[trigger] z[k], z[k], q) == node_root(z, q, k)
    &&& forall|k: int| 1 <= k < n ==> mul_mod(#[trigger] z[k], zi[k], q) == 1
}

/// Multiplying by `q - 1` negates.
pub proof fn lemma_times_minus_one(a: int, q: int)
    requires
        q > 1,
    ensures
        (a * (q - 1)) % q == (0 - a) % q,
{
    assert(a * (q - 1) == (0 - a) + a * q) by (nonlinear_arith);
    crate::field::modular::lemma_shift_congruent(0 - a, a, q);
}

/// Powers of a root `psi` with `psi^n = -1`, read at linked exponents,
/// form linked twiddles.
pub proof fn lemma_twiddles_from_powers(
    z: Seq<nat>,
    zi: Seq<nat>,
    e: Seq<usize>,
    psi: nat,
    q: nat,
    n: nat,
)
    requires
        q > 1,
        exponents_linked(e, n),
        z.len() == n,
        zi.len() == n,
        pow(psi as int, n) % (q as int) == q - 1,
        forall|k: int| 1 <= k < n ==> #[trigger] z[k] == pow(psi as int, e[k] as nat) % (q as int),
        forall|k: int|
            1 <= k < n ==> #[trigger] zi[k] == neg_mod(
                (pow(psi as int, (n - e[k]) as nat) % (q as int)) as nat,
                q,
            ),
    ensures
        twiddles_linked(z, zi, q, n),
{
    let m = q as int;
    let b = psi as int;
    assert forall|k: int| 1 <= k < n implies #[trigger] z[k] < q && zi[k] < q by {
        lemma_mod_bound(pow(b, e[k] as nat), m);
        lemma_mod_bound(0 - (pow(b, (n - e[k]) as nat) % m), m);
    }
    assert forall|k: int| 1 <= k < n implies mul_mod(#[trigger] z[k], z[k], q) == node_root(
        z,
        q,
        k,
    ) by {
        let p = pow(b, e[k] as nat);
        lemma_mul_mod_noop(p, p, m);
        lemma_pow_adds(b, e[k] as nat, e[k] as nat);
        if k == 1 {
        } else {
            let parent = pow(b, e[k / 2] as nat);
            assert((k % 2) * n == if k % 2 == 1 { n as int } else { 0 }) by (nonlinear_arith)
                requires
                    k % 2 == 0 || k % 2 == 1,
            ;
            if k % 2 == 0 {
                assert(2 * e[k] == e[k / 2]);
            } else {
                assert(2 * e[k] == e[k / 2] + n);
                lemma_pow_adds(b, e[k / 2] as nat, n);
                lemma_mul_mod_noop(parent, pow(b, n), m);
                lemma_times_minus_one(z[k / 2] as int, m);
            }
        }
    }
    assert forall|k: int| 1 <= k < n implies mul_mod(#[trigger] z[k], zi[k], q) == 1 by {
        let p = pow(b, e[k] as nat);
        let r = pow(b, (n - e[k]) as nat);
        let rm = r % m;
        lemma_mod_bound(r, m);
        // zi[k] is congruent to -r
        vstd::arithmetic::div_mod::lemma_sub_mod_noop(0, r, m);
        assert(zi[k] as int == (0 - r) % m);
        vstd::arithmetic::div_mod::lemma_mul_mod_noop(p, 0 - r, m);
        assert(p * (0 - r) == 0 - p * r) by (nonlinear_arith);
        lemma_pow_adds(b, e[k] as nat, (n - e[k]) as nat);
        vstd::arithmetic::div_mod::lemma_sub_mod_noop(0, pow(b, n), m);
        lemma_small_mod(1, q);
        crate::field::modular::lemma_shift_congruent(1, -1, m);
    }
}

/// How the exponent of a tree node follows from its parent's: halved, and
/// for an odd node moved up by `n / 2`.
pub open spec fn exponents_linked(e: Seq<usize>, n: nat) -> bool {
    &&& e.len() == n
    &&& n >= 2 ==> 2 * e[1] == n
    &&& forall|k: int| 1 <= k < n ==> 1 <= #[trigger] e[k] < n
    &&& forall|k: int| 2 <= k < n ==> 2 * #[trigger] e[k] == e[k / 2] + (k % 2) * n
}

/// Arithmetic of one child exponent.
proof fn lemma_child_exponent(e: int, u: int, n: int, blocks: int)
    requires
        u >= 2,
        u % 2 == 0,
        blocks >= 2,
        blocks % 2 == 0,
        n == u * blocks,
        0 <= e < n,
        e % (2 * u) == u,
    ensures
        2 * (e / 2) == e,
        2 * (n / 2) == n,
        (e / 2) % u == u / 2,
        (e / 2 + n / 2) % u == u / 2,
        1 <= e / 2,
        e / 2 + n / 2 < n,
{
    let a = e / (2 * u);
    let h = u / 2;
    let c = blocks / 2;
    lemma_fundamental_div_mod(e, 2 * u);
    assert(e == 2 * (a * u + h)) by (nonlinear_arith)
        requires
            e == (2 * u) * a + u,
            u == 2 * h,
    ;
    assert(n == 2 * (u * c)) by (nonlinear_arith)
        requires
            n == u * blocks,
            blocks == 2 * c,
    ;
    assert(e / 2 == a * u + h);
    assert(n / 2 == u * c);
    assert(a >= 0) by (nonlinear_arith)
        requires
            e == (2 * u) * a + u,
            e >= 0,
            u >= 2,
            a == e / (2 * u),
    ;
    lemma_fundamental_div_mod_converse(a * u + h, u, a, h);
    assert(a * u + h + u * c == (a + c) * u + h) by (nonlinear_arith);
    lemma_fundamental_div_mod_converse(a * u + h + u * c, u, a + c, h);
    assert(a * u >= 0) by (nonlinear_arith)
        requires
            a >= 0,
            u >= 2,
    ;
}

/// The exponent of every tree node: the bit reversal of its index.
pub fn exponent_table(n: usize, log_n: u32) -> (r: Vec<usize>)
    requires
        n as nat == pow2(log_n as nat),
    ensures
        exponents_linked(r@, n as nat),
{
    let mut exps: Vec<usize> = Vec::new();
    exps.push(0);
    if n < 2 {
        proof {
            lemma_pow2_pos(log_n as nat);
        }
        return exps;
    }
    exps.push(n / 2);
    let mut blocks: usize = 2;
    let mut unit: usize = n;
    let ghost mut s: nat = 1;
    proof {
        vstd::arithmetic::power2::lemma2_to64();
        if log_n == 0 {
        } else {
            lemma_pow2_unfold(log_n as nat);
        }
        lemma_small_mod((n / 2) as nat, n as nat);
        assert(2 * (n / 2) == n);
        assert(n * 1 == n);
    }
    while blocks < n
        invariant
            2 <= blocks <= n,
            n as nat == pow2(log_n as nat),
            blocks as nat == pow2(s),
            1 <= s <= log_n,
            unit as nat == pow2((log_n - s + 1) as nat),
            unit * (blocks / 2) == n,
            blocks % 2 == 0,
            exps@.len() == blocks,
            2 * exps@[1] == n,
            forall|k: int| 1 <= k < blocks ==> 1 <= #[trigger] exps@[k] < n,
            forall|k: int| 2 <= k < blocks ==> 2 * #[trigger] exps@[k] == exps@[k / 2] + (k % 2) * n,
            forall|p: int| blocks / 2 <= p < blocks ==> (#[trigger] exps@[p]) % unit == unit / 2,
        decreases n - blocks,
    {
        proof {
            if s >= log_n {
                assert(false);
            }
            lemma_pow2_unfold((log_n - s + 1) as nat);
            lemma_pow2_unfold((log_n - s) as nat);
            lemma_pow2_unfold(s + 1);
            lemma_pow2_pos((log_n - s - 1) as nat);
        }
        let child_unit: usize = unit / 2;
        let start: usize = blocks;
        let mut k: usize = start;
        assert(2 * start <= n) by (nonlinear_arith)
            requires
                unit * (start / 2) == n,
                unit >= 4,
                start % 2 == 0,
        ;
        while k < 2 * start
            invariant
                start <= k <= 2 * start,
                2 <= start,
                2 * start <= n,
                start % 2 == 0,
                unit >= 4,
                unit % 4 == 0,
                child_unit == unit / 2,
                unit * (start / 2) == n,
                exps@.len() == k,
                2 * exps@[1] == n,
                forall|i: int| 1 <= i < k ==> 1 <= #[trigger] exps@[i] < n,
                forall|i: int| 2 <= i < k ==> 2 * #[trigger] exps@[i] == exps@[i / 2] + (i % 2) * n,
                forall|p: int| start / 2 <= p < start ==> (#[trigger] exps@[p]) % unit == unit / 2,
                forall|p: int| start <= p < k ==> (#[trigger] exps@[p]) % child_unit == child_unit / 2,
            decreases 2 * start - k,
        {
            let parent: usize = exps[k / 2];
            proof {
                assert(exps@[(k / 2) as int] % unit == unit / 2);
                assert(child_unit * start == n) by (nonlinear_arith)
                    requires
                        unit * (start / 2) == n,
                        child_unit == unit / 2,
                        unit % 4 == 0,
                        start % 2 == 0,
                ;
                lemma_child_exponent(parent as int, child_unit as int, n as int, start as int);
            }
            let child: usize = if k % 2 == 1 {
                parent / 2 + n / 2
            } else {
                parent / 2
            };
            let ghost before = exps@;
            exps.push(child);
            proof {
                assert((k % 2) * n == if k % 2 == 1 { n as int } else { 0 }) by (nonlinear_arith)
                    requires
                        k % 2 == 0 || k % 2 == 1,
                ;
                assert(exps@[k as int] == child);
                assert(exps@[(k / 2) as int] == parent);
                assert forall|i: int| 2 <= i < k + 1 implies 2 * #[trigger] exps@[i] == exps@[i
                    / 2] + (i % 2) * n by {
                    if i < k {
                        assert(exps@[i] == before[i]);
                        assert(exps@[i / 2] == before[i / 2]);
                    }
                }
            }
            k += 1;
        }
        assert(child_unit * start == n) by (nonlinear_arith)
            requires
                unit * (start / 2) == n,
                child_unit == unit / 2,
                unit % 4 == 0,
                start % 2 == 0,
        ;
        blocks = 2 * start;
        unit = child_unit;
        proof {
            s = s + 1;
        }
    }
    exps
}

} // verus!
