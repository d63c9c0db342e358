//! Little-endian sequences of 64-bit limbs: their value as a natural number,
//! and the single-limb primitives every multi-limb routine is built from.

use vstd::prelude::*;
use vstd::arithmetic::div_mod::lemma_fundamental_div_mod_converse;

verus! {

/// The limb radix, `2^64`.
pub open spec fn limb_radix() -> nat {
    0x1_0000_0000_0000_0000
}

/// `2^(64 k)`: the weight of limb `k`.
pub open spec fn limb_weight(k: nat) -> nat
    decreases k,
{
    if k == 0 {
        1
    } else {
        0x1_0000_0000_0000_0000 * limb_weight((k - 1) as nat)
    }
}

/// Value of the first `k` limbs of `s`.
pub open spec fn prefix_value(s: Seq<u64>, k: nat) -> nat
    decreases k,
{
    if k == 0 {
        0
    } else {
        prefix_value(s, (k - 1) as nat) + (s[k - 1] as nat) * limb_weight((k - 1) as nat)
    }
}

/// Value of a whole limb sequence.
pub open spec fn limbs_value(s: Seq<u64>) -> nat {
    prefix_value(s, s.len())
}

/// Limb weights are positive.
pub proof fn lemma_weight_pos(k: nat)
    ensures
        limb_weight(k) > 0,
    decreases k,
{
    if k > 0 {
        lemma_weight_pos((k - 1) as nat);
    }
}

/// Limb weights multiply: `2^(64 (a + b)) = 2^(64 a) 2^(64 b)`.
pub proof fn lemma_weight_add(a: nat, b: nat)
    ensures
        limb_weight(a + b) == limb_weight(a) * limb_weight(b),
    decreases b,
{
    if b == 0 {
        assert(limb_weight(a) * 1 == limb_weight(a));
    } else {
        lemma_weight_add(a, (b - 1) as nat);
        let w = limb_weight((a + b - 1) as nat);
        let wa = limb_weight(a);
        let wb = limb_weight((b - 1) as nat);
        assert(limb_weight(a + b) == 0x1_0000_0000_0000_0000 * w);
        assert(0x1_0000_0000_0000_0000 * (wa * wb) == wa * (0x1_0000_0000_0000_0000 * wb))
            by (nonlinear_arith);
    }
}

/// `k` limbs denote a value below `2^(64 k)`.
pub proof fn lemma_prefix_bound(s: Seq<u64>, k: nat)
    ensures
        prefix_value(s, k) < limb_weight(k),
    decreases k,
{
    if k > 0 {
        lemma_prefix_bound(s, (k - 1) as nat);
        let w = limb_weight((k - 1) as nat);
        let d = s[k - 1] as nat;
        assert(d * w <= 0xFFFF_FFFF_FFFF_FFFF * w) by (nonlinear_arith)
            requires
                d <= 0xFFFF_FFFF_FFFF_FFFF,
        ;
    }
}

/// The value of a prefix depends on that prefix alone.
pub proof fn lemma_prefix_agree(s1: Seq<u64>, s2: Seq<u64>, k: nat)
    requires
        forall|i: int| 0 <= i < k ==> s1[i] == s2[i],
    ensures
        prefix_value(s1, k) == prefix_value(s2, k),
    decreases k,
{
    if k > 0 {
        lemma_prefix_agree(s1, s2, (k - 1) as nat);
    }
}

/// Overwriting limb `i` moves the value by the change of that limb times its weight.
pub proof fn lemma_prefix_update(s: Seq<u64>, i: int, v: u64, k: nat)
    requires
        0 <= i < s.len(),
        k <= s.len(),
    ensures
        i < k ==> prefix_value(s.update(i, v), k) + (s[i] as nat) * limb_weight(i as nat)
            == prefix_value(s, k) + (v as nat) * limb_weight(i as nat),
        i >= k ==> prefix_value(s.update(i, v), k) == prefix_value(s, k),
    decreases k,
{
    if k > 0 {
        lemma_prefix_update(s, i, v, (k - 1) as nat);
    }
}

/// Two limb sequences with the same value have the same limbs.
pub proof fn lemma_prefix_injective(s1: Seq<u64>, s2: Seq<u64>, k: nat)
    requires
        prefix_value(s1, k) == prefix_value(s2, k),
    ensures
        forall|i: int| 0 <= i < k ==> s1[i] == s2[i],
    decreases k,
{
    if k > 0 {
        let j = (k - 1) as nat;
        let w = limb_weight(j) as int;
        lemma_weight_pos(j);
        lemma_prefix_bound(s1, j);
        lemma_prefix_bound(s2, j);
        let v = prefix_value(s1, k) as int;
        assert(v == (s1[k - 1] as int) * w + prefix_value(s1, j)) by (nonlinear_arith)
            requires
                v == prefix_value(s1, j) + (s1[k - 1] as nat) * (w as nat),
                w > 0,
        ;
        assert(v == (s2[k - 1] as int) * w + prefix_value(s2, j)) by (nonlinear_arith)
            requires
                v == prefix_value(s2, j) + (s2[k - 1] as nat) * (w as nat),
                w > 0,
        ;
        lemma_fundamental_div_mod_converse(v, w, s1[k - 1] as int, prefix_value(s1, j) as int);
        lemma_fundamental_div_mod_converse(v, w, s2[k - 1] as int, prefix_value(s2, j) as int);
        lemma_prefix_injective(s1, s2, j);
    }
}

/// Limb `i` of the little-endian base-`2^64` expansion of `v`.
pub open spec fn limb_of(v: nat, i: nat) -> u64 {
    ((v / limb_weight(i)) % limb_radix()) as u64
}

/// The limbs of a sequence are the digits of its value.
pub proof fn lemma_limb_of_prefix(s: Seq<u64>, k: nat, i: nat)
    requires
        i < k,
    ensures
        limb_of(prefix_value(s, k), i) == s[i as int],
    decreases k,
{
    let j = (k - 1) as nat;
    let w = limb_weight(i) as int;
    let v = prefix_value(s, k) as int;
    let d = s[j as int] as int;
    lemma_weight_pos(i);
    if j == i {
        lemma_prefix_bound(s, i);
        assert(v == d * w + prefix_value(s, i)) by (nonlinear_arith)
            requires
                v == prefix_value(s, i) + (d as nat) * (w as nat),
                d >= 0,
                w > 0,
        ;
        lemma_fundamental_div_mod_converse(v, w, d, prefix_value(s, i) as int);
        vstd::arithmetic::div_mod::lemma_small_mod(d as nat, limb_radix());
    } else {
        lemma_limb_of_prefix(s, j, i);
        let x = prefix_value(s, j) as int;
        let gap = (j - i - 1) as nat;
        lemma_weight_add(i, (j - i) as nat);
        let wg = limb_weight(gap) as int;
        let up = d * wg;
        vstd::arithmetic::div_mod::lemma_fundamental_div_mod(x, w);
        vstd::arithmetic::div_mod::lemma_mod_bound(x, w);
        assert(v == (x / w + 0x1_0000_0000_0000_0000 * up) * w + x % w) by (nonlinear_arith)
            requires
                v == x + d * (w * (0x1_0000_0000_0000_0000 * wg)),
                x == w * (x / w) + x % w,
                up == d * wg,
        ;
        lemma_fundamental_div_mod_converse(v, w, x / w + 0x1_0000_0000_0000_0000 * up, x % w);
        vstd::arithmetic::div_mod::lemma_mod_multiples_vanish(up, x / w, limb_radix() as int);
    }
}

/// Value of limbs `from..to` by Horner's rule: `s[from] + 2^64 * (s[from + 1] + ...)`.
pub open spec fn horner_value(s: Seq<u64>, from: nat, to: nat) -> nat
    decreases to - from,
{
    if from >= to {
        0
    } else {
        s[from as int] as nat + 0x1_0000_0000_0000_0000 * horner_value(s, from + 1, to)
    }
}

/// Horner's rule computes the value of a prefix.
pub proof fn lemma_prefix_is_horner(s: Seq<u64>, k: nat)
    ensures
        prefix_value(s, k) == horner_value(s, 0, k),
{
    lemma_horner_tail(s, 0, k);
    assert(limb_weight(0) == 1);
    assert(1 * horner_value(s, 0, k) == horner_value(s, 0, k));
}

/// A prefix is its first `from` limbs plus the rest by Horner's rule,
/// shifted up.
proof fn lemma_horner_tail(s: Seq<u64>, from: nat, to: nat)
    requires
        from <= to,
    ensures
        prefix_value(s, to) == prefix_value(s, from) + limb_weight(from) * horner_value(
            s,
            from,
            to,
        ),
    decreases to - from,
{
    if from == to {
        assert(limb_weight(from) * 0 == 0);
    } else {
        lemma_horner_tail(s, from + 1, to);
        let w = limb_weight(from);
        let d = s[from as int] as nat;
        let h = horner_value(s, from + 1, to);
        assert((0x1_0000_0000_0000_0000 * w) * h + d * w == w * (d + 0x1_0000_0000_0000_0000 * h))
            by (nonlinear_arith);
    }
}

/// Limbwise form of zero.
pub proof fn lemma_prefix_zero(s: Seq<u64>, k: nat)
    requires
        forall|i: int| 0 <= i < k ==> s[i] == 0,
    ensures
        prefix_value(s, k) == 0,
    decreases k,
{
    if k > 0 {
        lemma_prefix_zero(s, (k - 1) as nat);
        assert(0 * limb_weight((k - 1) as nat) == 0);
    }
}

/// Splits a 128-bit word into its low and high limb.
pub fn split_wide(x: u128) -> (r: (u64, u64))
    ensures
        r.0 as nat + r.1 as nat * limb_radix() == x,
{
    let lo: u64 = (x & 0xFFFF_FFFF_FFFF_FFFF) as u64;
    let hi: u64 = (x >> 64) as u64;
    assert((x & 0xFFFF_FFFF_FFFF_FFFF) + (x >> 64) * 0x1_0000_0000_0000_0000 == x
        && (x & 0xFFFF_FFFF_FFFF_FFFF) < 0x1_0000_0000_0000_0000
        && (x >> 64) < 0x1_0000_0000_0000_0000) by (bit_vector);
    (lo, hi)
}

/// One limb of addition: `x + y + carry_in`, as a limb and the carry out.
pub fn add_with_carry(x: u64, y: u64, carry_in: u64) -> (r: (u64, u64))
    requires
        carry_in <= 1,
    ensures
        r.0 as nat + r.1 as nat * limb_radix() == x as nat + y as nat + carry_in as nat,
        r.1 <= 1,
{
    let wide: u128 = x as u128 + y as u128 + carry_in as u128;
    split_wide(wide)
}

/// One limb of subtraction: `x - y - borrow_in` modulo `2^64`, and the borrow out.
pub fn sub_with_borrow(x: u64, y: u64, borrow_in: u64) -> (r: (u64, u64))
    requires
        borrow_in <= 1,
    ensures
        r.0 as int - r.1 as int * limb_radix() == x as int - y as int - borrow_in as int,
        r.1 <= 1,
{
    let wide: u128 = 0x1_0000_0000_0000_0000u128 + x as u128 - y as u128 - borrow_in as u128;
    let (lo, hi) = split_wide(wide);
    (lo, 1 - hi)
}

/// One limb of multiply-accumulate: `x * y + acc + carry_in` as a low and a high limb.
pub fn mul_add_carry(x: u64, y: u64, acc: u64, carry_in: u64) -> (r: (u64, u64))
    ensures
        r.0 as nat + r.1 as nat * limb_radix() == x as nat * y as nat + acc as nat
            + carry_in as nat,
{
    assert(x as nat * y as nat <= 0xFFFF_FFFF_FFFF_FFFF * 0xFFFF_FFFF_FFFF_FFFF)
        by (nonlinear_arith)
        requires
            x <= 0xFFFF_FFFF_FFFF_FFFF,
            y <= 0xFFFF_FFFF_FFFF_FFFF,
    ;
    let wide: u128 = (x as u128) * (y as u128) + acc as u128 + carry_in as u128;
    split_wide(wide)
}

} // verus!
