//! Double-width accumulators: the 2048-bit products that Montgomery
//! reduction consumes.

use vstd::prelude::*;
use crate::big_int::limbs::{
    lemma_prefix_bound, lemma_prefix_update, lemma_prefix_zero, lemma_weight_add, lemma_weight_pos,
    limb_radix, limb_weight, limbs_value, mul_add_carry, prefix_value,
};
use crate::big_int::u1024::{U1024, u1024_range};

verus! {

/// One step of a multiply-accumulate row, as an identity on integers.
proof fn lemma_row_step(
    acc: int,
    acc_next: int,
    limb_old: int,
    lo: int,
    hi: int,
    m: int,
    bj: int,
    c: int,
    w_at: int,
    w_off: int,
    w_j: int,
    pb: int,
    start: int,
)
    requires
        lo + hi * 0x1_0000_0000_0000_0000 == m * bj + limb_old + c,
        acc_next + limb_old * w_at == acc + lo * w_at,
        w_at == w_off * w_j,
        acc + c * w_at == start + m * pb * w_off,
    ensures
        acc_next + hi * (0x1_0000_0000_0000_0000 * w_at) == start + m * (pb + bj * w_j) * w_off,
{
    assert((lo + hi * 0x1_0000_0000_0000_0000) * w_at == (m * bj + limb_old + c) * w_at);
    assert((lo + hi * 0x1_0000_0000_0000_0000) * w_at == lo * w_at + hi * (
    0x1_0000_0000_0000_0000 * w_at)) by (nonlinear_arith);
    assert((m * bj + limb_old + c) * w_at == m * bj * w_at + limb_old * w_at + c * w_at)
        by (nonlinear_arith);
    assert(m * bj * w_at == m * (bj * w_j) * w_off) by (nonlinear_arith)
        requires
            w_at == w_off * w_j,
    ;
    assert(m * (pb + bj * w_j) * w_off == m * pb * w_off + m * (bj * w_j) * w_off)
        by (nonlinear_arith);
}

/// Adds `m * b * 2^(64 * offset)` into a 32-limb accumulator and returns the
/// carry out of its top limb. Limbs below `offset` are left alone.
pub fn mul_add_row(acc: &mut [u64; 32], offset: usize, m: u64, b: &U1024) -> (carry: u64)
    requires
        offset <= 16,
    ensures
        limbs_value(final(acc)@) + carry as nat * limb_weight(32) == limbs_value(old(acc)@) + m
            as nat * b@ * limb_weight(offset as nat),
        forall|k: int| 0 <= k < offset ==> final(acc)@[k] == old(acc)@[k],
        final(acc)@[offset as int] as nat == (m as nat * b.0[0] as nat + old(acc)@[offset as int]
            as nat) % limb_radix(),
        offset < 16 ==> carry <= 1,
{
    let ghost start = limbs_value(acc@);
    let ghost start_seq = acc@;
    let mut c: u64 = 0;
    let mut j: usize = 0;
    proof {
        assert(0 * limb_weight(offset as nat) == 0);
        assert(m as nat * 0 * limb_weight(offset as nat) == 0) by (nonlinear_arith);
    }
    while j < 16
        invariant
            j <= 16,
            offset <= 16,
            start_seq.len() == 32,
            j == 0 ==> c == 0,
            prefix_value(acc@, 32) + c as nat * limb_weight((offset + j) as nat) == start + m
                as nat * prefix_value(b.0@, j as nat) * limb_weight(offset as nat),
            forall|k: int| 0 <= k < offset ==> acc@[k] == start_seq[k],
            forall|k: int| offset + j <= k < 32 ==> acc@[k] == start_seq[k],
            j > 0 ==> acc@[offset as int] as nat == (m as nat * b.0[0] as nat
                + start_seq[offset as int] as nat) % limb_radix(),
        decreases 16 - j,
    {
        let at: usize = offset + j;
        let limb_old: u64 = acc[at];
        let (lo, hi) = mul_add_carry(m, b.0[j], limb_old, c);
        let ghost before = acc@;
        acc[at] = lo;
        proof {
            assert(acc@ =~= before.update(at as int, lo));
            lemma_prefix_update(before, at as int, lo, 32);
            lemma_weight_add(offset as nat, j as nat);
            lemma_row_step(
                prefix_value(before, 32) as int,
                prefix_value(acc@, 32) as int,
                limb_old as int,
                lo as int,
                hi as int,
                m as int,
                b.0[j as int] as int,
                c as int,
                limb_weight(at as nat) as int,
                limb_weight(offset as nat) as int,
                limb_weight(j as nat) as int,
                prefix_value(b.0@, j as nat) as int,
                start as int,
            );
            if j == 0 {
                vstd::arithmetic::div_mod::lemma_fundamental_div_mod_converse(
                    (m as nat * b.0[0] as nat + start_seq[offset as int] as nat) as int,
                    limb_radix() as int,
                    hi as int,
                    lo as int,
                );
            }
        }
        c = hi;
        j += 1;
    }
    let mut k: usize = offset + 16;
    let ghost mut small: bool = false;
    while k < 32
        invariant
            offset + 16 <= k <= 32,
            offset <= 16,
            start_seq.len() == 32,
            prefix_value(acc@, 32) + c as nat * limb_weight(k as nat) == start + m as nat
                * b@ * limb_weight(offset as nat),
            forall|i: int| 0 <= i < offset ==> acc@[i] == start_seq[i],
            acc@[offset as int] as nat == (m as nat * b.0[0] as nat + start_seq[offset as int]
                as nat) % limb_radix(),
            small == (k > offset + 16),
            small ==> c <= 1,
        decreases 32 - k,
    {
        let limb_old: u64 = acc[k];
        let (lo, hi) = mul_add_carry(0, 0, limb_old, c);
        let ghost before = acc@;
        acc[k] = lo;
        proof {
            assert(acc@ =~= before.update(k as int, lo));
            lemma_prefix_update(before, k as int, lo, 32);
            let w = limb_weight(k as nat) as int;
            assert((lo as int + hi as int * 0x1_0000_0000_0000_0000) * w == (limb_old as int
                + c as int) * w);
            assert((lo as int + hi as int * 0x1_0000_0000_0000_0000) * w == lo as int * w
                + hi as int * (0x1_0000_0000_0000_0000 * w)) by (nonlinear_arith);
            assert((limb_old as int + c as int) * w == limb_old as int * w + c as int * w)
                by (nonlinear_arith);
            assert(hi <= 1) by (nonlinear_arith)
                requires
                    lo as int + hi as int * 0x1_0000_0000_0000_0000 == limb_old as int + c as int,
                    limb_old <= 0xFFFF_FFFF_FFFF_FFFF,
                    c <= 0xFFFF_FFFF_FFFF_FFFF,
                    lo >= 0,
            ;
            small = true;
        }
        c = hi;
        k += 1;
    }
    c
}

/// A limb sequence is worth its low part plus its high part shifted up.
pub proof fn lemma_prefix_split(s: Seq<u64>, high: Seq<u64>, at: nat, k: nat)
    requires
        forall|i: int| 0 <= i < k ==> high[i] == s[at + i],
    ensures
        prefix_value(s, at + k) == prefix_value(s, at) + prefix_value(high, k) * limb_weight(at),
    decreases k,
{
    if k == 0 {
        assert(0 * limb_weight(at) == 0);
    } else {
        let j = (k - 1) as nat;
        lemma_prefix_split(s, high, at, j);
        lemma_weight_add(at, j);
        let d = high[k - 1] as nat;
        let wj = limb_weight(j);
        let wa = limb_weight(at);
        let ph = prefix_value(high, j);
        assert((ph + d * wj) * wa == ph * wa + d * (wa * wj)) by (nonlinear_arith);
    }
}

/// The full 2048-bit product of two 1024-bit integers, as 32 limbs.
pub fn mul_wide(a: &U1024, b: &U1024) -> (r: [u64; 32])
    ensures
        limbs_value(r@) == a@ * b@,
{
    let mut acc = [0u64; 32];
    let mut i: usize = 0;
    proof {
        lemma_prefix_zero(acc@, 32);
        assert(0 * b@ == 0);
    }
    while i < 16
        invariant
            i <= 16,
            limbs_value(acc@) == prefix_value(a.0@, i as nat) * b@,
        decreases 16 - i,
    {
        let ghost before = limbs_value(acc@);
        let carry = mul_add_row(&mut acc, i, a.0[i], b);
        proof {
            let pa = prefix_value(a.0@, i as nat);
            let d = a.0[i as int] as nat;
            let w = limb_weight(i as nat);
            let next = prefix_value(a.0@, (i + 1) as nat);
            assert(next * b@ == pa * b@ + d * b@ * w) by (nonlinear_arith)
                requires
                    next == pa + d * w,
            ;
            lemma_prefix_bound(a.0@, (i + 1) as nat);
            lemma_prefix_bound(b.0@, 16);
            lemma_prefix_bound(acc@, 32);
            lemma_weight_add((i + 1) as nat, 16);
            lemma_weight_add((i + 17) as nat, (15 - i) as nat);
            lemma_weight_pos((15 - i) as nat);
            let wi = limb_weight((i + 1) as nat);
            let w16 = limb_weight(16);
            let rest = limb_weight((15 - i) as nat);
            assert(next * b@ < wi * w16) by (nonlinear_arith)
                requires
                    next < wi,
                    b@ < w16,
            ;
            assert(wi * w16 <= (wi * w16) * rest) by (nonlinear_arith)
                requires
                    rest >= 1,
            ;
            assert(carry == 0) by (nonlinear_arith)
                requires
                    limbs_value(acc@) + carry as nat * limb_weight(32) < limb_weight(32),
            ;
            assert(0 * limb_weight(32) == 0);
        }
        i += 1;
    }
    acc
}

/// A 1024-bit integer as a 32-limb accumulator with an empty high half.
pub fn widen(x: &U1024) -> (r: [u64; 32])
    ensures
        limbs_value(r@) == x@,
{
    let mut out = [0u64; 32];
    let mut i: usize = 0;
    while i < 16
        invariant
            i <= 16,
            forall|j: int| 0 <= j < i ==> out@[j] == x.0@[j],
            forall|j: int| i <= j < 32 ==> out@[j] == 0,
        decreases 16 - i,
    {
        out[i] = x.0[i];
        i += 1;
    }
    proof {
        let zeros = Seq::new(16, |j: int| 0u64);
        lemma_prefix_split(out@, zeros, 16, 16);
        lemma_prefix_zero(zeros, 16);
        crate::big_int::limbs::lemma_prefix_agree(out@, x.0@, 16);
        assert(0 * limb_weight(16) == 0);
    }
    out
}

/// Low and high half of a 32-limb accumulator.
pub fn split_halves(t: &[u64; 32]) -> (r: (U1024, U1024))
    ensures
        r.0@ + r.1@ * u1024_range() == limbs_value(t@),
        forall|i: int| 0 <= i < 16 ==> r.0.0@[i] == t@[i] && r.1.0@[i] == t@[16 + i],
{
    let mut lo = [0u64; 16];
    let mut hi = [0u64; 16];
    let mut i: usize = 0;
    while i < 16
        invariant
            i <= 16,
            forall|j: int| 0 <= j < i ==> lo@[j] == t@[j] && hi@[j] == t@[16 + j],
        decreases 16 - i,
    {
        lo[i] = t[i];
        hi[i] = t[i + 16];
        i += 1;
    }
    proof {
        lemma_prefix_split(t@, hi@, 16, 16);
        crate::big_int::limbs::lemma_prefix_agree(t@, lo@, 16);
    }
    (U1024(lo), U1024(hi))
}

} // verus!
