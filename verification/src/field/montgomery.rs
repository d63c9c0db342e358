//! Montgomery reduction with radix `R = 2^1024`.

use vstd::prelude::*;
use vstd::arithmetic::div_mod::{
    lemma_add_mod_noop, lemma_fundamental_div_mod_converse, lemma_mul_mod_noop_left,
    lemma_mul_mod_noop_right,
};
use crate::big_int::limbs::{
    lemma_prefix_zero, lemma_weight_add, lemma_weight_pos, limb_radix, limb_weight, limbs_value,
    mul_add_carry,
};
use crate::big_int::u1024::{U1024, u1024_range};
use crate::big_int::wide::{mul_add_row, split_halves};
use crate::field::config::is_neg_inverse;
use crate::field::modular::lemma_shift_congruent;

verus! {

/// The multiplier `m = a * n0 mod 2^64` clears the limb `a`: `m * q0 + a` is
/// a multiple of `2^64`.
proof fn lemma_limb_cancels(a: u64, n0: u64, q0: u64, m: u64)
    requires
        is_neg_inverse(q0, n0),
        m as nat == (a as nat * n0 as nat) % limb_radix(),
    ensures
        (m as nat * q0 as nat + a as nat) % limb_radix() == 0,
{
    let b = limb_radix() as int;
    let (a, n0, q0, m) = (a as int, n0 as int, q0 as int, m as int);
    lemma_mul_mod_noop_left(a * n0, q0, b);
    assert((m * q0) % b == ((a * n0) * q0) % b);
    lemma_add_mod_noop(m * q0, a, b);
    lemma_add_mod_noop((a * n0) * q0, a, b);
    assert((m * q0 + a) % b == ((a * n0) * q0 + a) % b);
    assert((a * n0) * q0 + a == a * (q0 * n0 + 1)) by (nonlinear_arith);
    lemma_mul_mod_noop_right(a, q0 * n0 + 1, b);
    assert(a * 0 == 0);
}

/// One Montgomery reduction: for `t < q * R` the result is the integer below
/// `q` that is congruent to `t * R^(-1)` modulo `q`.
pub fn montgomery_reduce(t: [u64; 32], q: &U1024, n0: u64) -> (r: U1024)
    requires
        is_neg_inverse(q.0[0], n0),
        limbs_value(t@) < q@ * u1024_range(),
    ensures
        r@ < q@,
        (r@ * u1024_range()) % q@ == limbs_value(t@) % q@,
{
    let mut acc = t;
    let mut top: u64 = 0;
    let ghost start = limbs_value(t@);
    let ghost mut mult: nat = 0;
    let mut i: usize = 0;
    proof {
        assert(0 * limb_weight(32) == 0);
        assert(0 * q@ == 0);
        lemma_weight_pos(0);
    }
    while i < 16
        invariant
            i <= 16,
            top <= i,
            is_neg_inverse(q.0[0], n0),
            mult < limb_weight(i as nat),
            limbs_value(acc@) + top as nat * limb_weight(32) == start + mult * q@,
            forall|k: int| 0 <= k < i ==> acc@[k] == 0,
        decreases 16 - i,
    {
        let limb: u64 = acc[i];
        let (m, m_hi) = mul_add_carry(limb, n0, 0, 0);
        let ghost before = acc@;
        let carry = mul_add_row(&mut acc, i, m, q);
        proof {
            assert(limb as nat * n0 as nat == m as nat + m_hi as nat * limb_radix());
            lemma_fundamental_div_mod_converse(
                (limb as nat * n0 as nat) as int,
                limb_radix() as int,
                m_hi as int,
                m as int,
            );
            lemma_limb_cancels(limb, n0, q.0[0], m);
            let w = limb_weight(i as nat);
            let next = mult + m as nat * w;
            assert(next < limb_weight((i + 1) as nat)) by (nonlinear_arith)
                requires
                    next == mult + m as nat * w,
                    mult < w,
                    m <= 0xFFFF_FFFF_FFFF_FFFF,
                    limb_weight((i + 1) as nat) == 0x1_0000_0000_0000_0000 * w,
            ;
            assert(next * q@ == mult * q@ + m as nat * q@ * w) by (nonlinear_arith)
                requires
                    next == mult + m as nat * w,
            ;
            assert((top + carry) as nat * limb_weight(32) == top as nat * limb_weight(32)
                + carry as nat * limb_weight(32)) by (nonlinear_arith);
            mult = next;
        }
        top = top + carry;
        i += 1;
    }
    let (low, high) = split_halves(&acc);
    let (diff, borrow) = high.borrowing_sub(q);
    // The result is `diff` if the accumulator overflowed or the
    // subtraction did not borrow: two selections, no branch.
    let overflowed = U1024::conditional_select(&diff, &high, top == 1);
    let r = U1024::conditional_select(&overflowed, &diff, borrow);
    let ghost take = top == 1 || !borrow;
    proof {
        let range = u1024_range();
        lemma_prefix_zero(low.0@, 16);
        lemma_weight_add(16, 16);
        q.lemma_in_range();
        high.lemma_in_range();
        let total = high@ + top as nat * range;
        assert(total * range == start + mult * q@) by (nonlinear_arith)
            requires
                high@ * range + top as nat * (range * range) == start + mult * q@,
                total == high@ + top as nat * range,
        ;
        assert(total < 2 * q@) by (nonlinear_arith)
            requires
                total * range == start + mult * q@,
                start < q@ * range,
                mult < range,
        ;
        assert(top <= 1) by (nonlinear_arith)
            requires
                total == high@ + top as nat * range,
                total < 2 * q@,
                q@ < range,
        ;
        assert(top as nat * range == if top == 1 { range } else { 0 }) by (nonlinear_arith)
            requires
                top <= 1,
        ;
        let sub: int = if take { 1 } else { 0 };
        assert(r@ == total - sub * q@);
        assert(r@ * range == start + (mult - sub * range) * q@) by (nonlinear_arith)
            requires
                r@ == total - sub * q@,
                total * range == start + mult * q@,
        ;
        lemma_shift_congruent(start as int, mult - sub * range, q@ as int);
    }
    r
}

} // verus!
