//! Unsigned 1024-bit integers.

use vstd::prelude::*;
use vstd::std_specs::cmp::PartialEqSpecImpl;
use vstd::std_specs::ops::{AddSpecImpl, SubSpecImpl};
use crate::big_int::limbs::{
    add_with_carry, lemma_limb_of_prefix, lemma_prefix_bound, lemma_prefix_injective,
    lemma_prefix_update, lemma_prefix_zero, limb_of, limb_radix, limb_weight, limbs_value,
    prefix_value, sub_with_borrow,
};

verus! {

/// Number of 64-bit limbs in a [`U1024`].
pub const LIMBS: usize = 16;

/// Unsigned 1024-bit integer: sixteen 64-bit limbs, least significant first.
#[derive(Clone, Copy, Debug)]
pub struct U1024(pub [u64; 16]);

/// `2^1024`, one more than the largest [`U1024`].
pub open spec fn u1024_range() -> nat {
    limb_weight(16)
}

impl View for U1024 {
    type V = nat;

    /// The integer that the limbs denote.
    open spec fn view(&self) -> nat {
        limbs_value(self.0@)
    }
}

impl U1024 {
    /// The 1024-bit integer congruent to `v` modulo `2^1024`.
    pub open spec fn from_nat(v: nat) -> U1024 {
        U1024(
            [
                limb_of(v, 0),
                limb_of(v, 1),
                limb_of(v, 2),
                limb_of(v, 3),
                limb_of(v, 4),
                limb_of(v, 5),
                limb_of(v, 6),
                limb_of(v, 7),
                limb_of(v, 8),
                limb_of(v, 9),
                limb_of(v, 10),
                limb_of(v, 11),
                limb_of(v, 12),
                limb_of(v, 13),
                limb_of(v, 14),
                limb_of(v, 15),
            ],
        )
    }

    /// A value is rebuilt from the digits of its integer.
    pub proof fn lemma_from_nat_view(self)
        ensures
            Self::from_nat(self@) == self,
    {
        let r = Self::from_nat(self@);
        Self::lemma_from_nat_limbs(self@);
        assert forall|i: int| 0 <= i < 16 implies r.0@[i] == self.0@[i] by {
            lemma_limb_of_prefix(self.0@, 16, i as nat);
        }
        assert(r.0 =~= self.0);
    }

    /// Limb `i` of `from_nat(v)` is digit `i` of `v`.
    pub proof fn lemma_from_nat_limbs(v: nat)
        ensures
            forall|i: int| 0 <= i < 16 ==> Self::from_nat(v).0@[i] == limb_of(v, i as nat),
    {
        let r = Self::from_nat(v).0;
        assert(r[0] == limb_of(v, 0));
        assert(r[1] == limb_of(v, 1));
        assert(r[2] == limb_of(v, 2));
        assert(r[3] == limb_of(v, 3));
        assert(r[4] == limb_of(v, 4));
        assert(r[5] == limb_of(v, 5));
        assert(r[6] == limb_of(v, 6));
        assert(r[7] == limb_of(v, 7));
        assert(r[8] == limb_of(v, 8));
        assert(r[9] == limb_of(v, 9));
        assert(r[10] == limb_of(v, 10));
        assert(r[11] == limb_of(v, 11));
        assert(r[12] == limb_of(v, 12));
        assert(r[13] == limb_of(v, 13));
        assert(r[14] == limb_of(v, 14));
        assert(r[15] == limb_of(v, 15));
    }

    /// Every value lies below `2^1024`.
    pub proof fn lemma_in_range(self)
        ensures
            self@ < u1024_range(),
    {
        lemma_prefix_bound(self.0@, 16);
    }

    /// Equal values have equal limbs.
    pub proof fn lemma_value_injective(self, other: Self)
        requires
            self@ == other@,
        ensures
            self == other,
    {
        lemma_prefix_injective(self.0@, other.0@, 16);
        assert(self.0 =~= other.0);
    }

    /// Whether `self < rhs` as unsigned integers.
    pub fn lt(&self, rhs: &Self) -> (r: bool)
        ensures
            r == (self@ < rhs@),
    {
        let (_, borrow) = self.borrowing_sub(rhs);
        borrow
    }

    /// Whether the value is 0.
    pub fn is_zero(&self) -> (r: bool)
        ensures
            r == (self@ == 0),
    {
        let zero = Self::zero();
        proof {
            if self@ == 0 {
                self.lemma_value_injective(zero);
            }
        }
        *self == zero
    }

    /// The integer 0.
    pub fn zero() -> (r: Self)
        ensures
            r@ == 0,
    {
        let r = U1024([0; 16]);
        proof {
            lemma_prefix_zero(r.0@, 16);
        }
        r
    }

    /// The integer `v`, in the lowest limb.
    pub fn from_u64(v: u64) -> (r: Self)
        ensures
            r@ == v,
            r.0[0] == v,
    {
        let mut arr = [0u64; 16];
        proof {
            lemma_prefix_zero(arr@, 16);
        }
        let ghost before = arr@;
        arr[0] = v;
        proof {
            lemma_prefix_update(before, 0, v, 16);
            assert(arr@ =~= before.update(0, v));
            let w = limb_weight(0);
            assert(w == 1);
            assert(before[0] as nat * w == 0 && v as nat * w == v) by (nonlinear_arith)
                requires
                    w == 1,
                    before[0] == 0,
            ;
        }
        U1024(arr)
    }

    /// The integer 1.
    pub fn one() -> (r: Self)
        ensures
            r@ == 1,
    {
        Self::from_u64(1)
    }

    /// `self + rhs` modulo `2^1024`, and whether the sum overflowed 1024 bits.
    pub fn carrying_add(&self, rhs: &Self) -> (r: (Self, bool))
        ensures
            r.0@ == (self@ + rhs@) % u1024_range(),
            r.1 == (self@ + rhs@ >= u1024_range()),
            r.0@ + (if r.1 { u1024_range() } else { 0 }) == self@ + rhs@,
    {
        let mut out = [0u64; 16];
        let mut carry: u64 = 0;
        let mut i: usize = 0;
        while i < 16
            invariant
                i <= 16,
                carry <= 1,
                prefix_value(out@, i as nat) + carry as nat * limb_weight(i as nat)
                    == prefix_value(self.0@, i as nat) + prefix_value(rhs.0@, i as nat),
            decreases 16 - i,
        {
            let (limb, c) = add_with_carry(self.0[i], rhs.0[i], carry);
            let ghost before = out@;
            out[i] = limb;
            proof {
                let w = limb_weight(i as nat);
                assert(out@ =~= before.update(i as int, limb));
                lemma_prefix_update(before, i as int, limb, i as nat);
                assert((limb as nat + c as nat * limb_radix()) * w == (self.0[i as int] as nat
                    + rhs.0[i as int] as nat + carry as nat) * w);
                assert((limb as nat + c as nat * limb_radix()) * w == limb as nat * w + c as nat
                    * (0x1_0000_0000_0000_0000 * w)) by (nonlinear_arith);
                assert((self.0[i as int] as nat + rhs.0[i as int] as nat + carry as nat) * w
                    == self.0[i as int] as nat * w + rhs.0[i as int] as nat * w + carry as nat
                    * w) by (nonlinear_arith);
            }
            carry = c;
            i += 1;
        }
        let r = U1024(out);
        proof {
            r.lemma_in_range();
            let range = u1024_range() as int;
            let total = (self@ + rhs@) as int;
            assert(carry as nat * limb_weight(16) == if carry == 1 { limb_weight(16) } else { 0 })
                by (nonlinear_arith)
                requires
                    carry <= 1,
            ;
            if carry == 1 {
                vstd::arithmetic::div_mod::lemma_fundamental_div_mod_converse(
                    total,
                    range,
                    1,
                    r@ as int,
                );
            } else {
                vstd::arithmetic::div_mod::lemma_small_mod(r@, u1024_range());
            }
        }
        (r, carry == 1)
    }

    /// `self - rhs` modulo `2^1024`, and whether `self < rhs`.
    pub fn borrowing_sub(&self, rhs: &Self) -> (r: (Self, bool))
        ensures
            r.0@ == (self@ - rhs@) % (u1024_range() as int),
            r.1 == (self@ < rhs@),
            r.0@ - (if r.1 { u1024_range() as int } else { 0 }) == self@ - rhs@,
    {
        let mut out = [0u64; 16];
        let mut borrow: u64 = 0;
        let mut i: usize = 0;
        while i < 16
            invariant
                i <= 16,
                borrow <= 1,
                prefix_value(out@, i as nat) - borrow as int * limb_weight(i as nat)
                    == prefix_value(self.0@, i as nat) - prefix_value(rhs.0@, i as nat),
            decreases 16 - i,
        {
            let (limb, b) = sub_with_borrow(self.0[i], rhs.0[i], borrow);
            let ghost before = out@;
            out[i] = limb;
            proof {
                let w = limb_weight(i as nat) as int;
                assert(out@ =~= before.update(i as int, limb));
                lemma_prefix_update(before, i as int, limb, i as nat);
                assert((limb as int - b as int * limb_radix()) * w == (self.0[i as int] as int
                    - rhs.0[i as int] as int - borrow as int) * w);
                assert((limb as int - b as int * limb_radix()) * w == limb as int * w - b as int
                    * (0x1_0000_0000_0000_0000 * w)) by (nonlinear_arith);
                assert((self.0[i as int] as int - rhs.0[i as int] as int - borrow as int) * w
                    == self.0[i as int] as int * w - rhs.0[i as int] as int * w - borrow as int
                    * w) by (nonlinear_arith);
            }
            borrow = b;
            i += 1;
        }
        let r = U1024(out);
        proof {
            r.lemma_in_range();
            self.lemma_in_range();
            rhs.lemma_in_range();
            let range = u1024_range() as int;
            let total = self@ - rhs@;
            assert(borrow as int * limb_weight(16) == if borrow == 1 { limb_weight(16) } else { 0 })
                by (nonlinear_arith)
                requires
                    borrow <= 1,
            ;
            if borrow == 1 {
                vstd::arithmetic::div_mod::lemma_fundamental_div_mod_converse(
                    total,
                    range,
                    -1,
                    r@ as int,
                );
            } else {
                vstd::arithmetic::div_mod::lemma_small_mod(r@, u1024_range());
            }
        }
        (r, borrow == 1)
    }

    /// `self / 2`: a shift right by one bit.
    pub fn shr1(&self) -> (r: Self)
        ensures
            r@ == self@ / 2,
    {
        let mut out = [0u64; 16];
        let mut i: usize = 0;
        let ghost low: nat = (self.0[0] & 1) as nat;
        let ghost mut falling: nat = low;
        proof {
            assert(limb_weight(0) == 1);
            assert(low * 1 == low);
        }
        while i < 16
            invariant
                i <= 16,
                low == (self.0[0] & 1) as nat,
                i < 16 ==> falling == (self.0[i as int] & 1) as nat,
                i == 16 ==> falling == 0,
                2 * prefix_value(out@, i as nat) + low == prefix_value(self.0@, i as nat)
                    + falling * limb_weight(i as nat),
            decreases 16 - i,
        {
            let x: u64 = self.0[i];
            let y: u64 = if i + 1 < 16 { self.0[i + 1] } else { 0 };
            let limb: u64 = (x >> 1) | (y << 63);
            assert(limb == (x >> 1) + (y & 1) * 0x8000_0000_0000_0000 && x == 2 * (x >> 1) + (x
                & 1) && (y & 1) <= 1 && (x >> 1) < 0x8000_0000_0000_0000) by (bit_vector)
                requires
                    limb == (x >> 1) | (y << 63),
            ;
            assert(0u64 & 1 == 0) by (bit_vector);
            let ghost before = out@;
            out[i] = limb;
            proof {
                let w = limb_weight(i as nat) as int;
                let next = (y & 1) as int;
                let half = (x >> 1) as int;
                assert(out@ =~= before.update(i as int, limb));
                lemma_prefix_update(before, i as int, limb, i as nat);
                assert(2 * (limb as int * w) + falling * w == x as int * w + next * (
                0x1_0000_0000_0000_0000 * w)) by (nonlinear_arith)
                    requires
                        limb as int == half + next * 0x8000_0000_0000_0000,
                        x as int == 2 * half + falling,
                ;
                falling = next as nat;
            }
            i += 1;
        }
        let r = U1024(out);
        proof {
            assert(0 * limb_weight(16) == 0);
            let x0: u64 = self.0[0];
            assert(x0 & 1 <= 1) by (bit_vector);
            vstd::arithmetic::div_mod::lemma_fundamental_div_mod_converse(
                self@ as int,
                2,
                r@ as int,
                low as int,
            );
        }
        r
    }

    /// The 2048-bit product `self * rhs`, as its low and high 1024 bits.
    pub fn widening_mul(&self, rhs: &Self) -> (r: (Self, Self))
        ensures
            r.0@ + r.1@ * u1024_range() == self@ * rhs@,
    {
        let wide = crate::big_int::wide::mul_wide(self, rhs);
        crate::big_int::wide::split_halves(&wide)
    }

    /// `a` if `choice`, else `b`, computed through a full-width mask without
    /// branching on `choice`.
    pub fn conditional_select(a: &Self, b: &Self, choice: bool) -> (r: Self)
        ensures
            r == if choice { *a } else { *b },
    {
        let mut res = [0u64; 16];
        let mask: u64 = if choice { u64::MAX } else { 0 };
        let mut i: usize = 0;
        while i < 16
            invariant
                i <= 16,
                mask == if choice { u64::MAX } else { 0u64 },
                forall|j: int| 0 <= j < i ==> res[j] == if choice { a.0[j] } else { b.0[j] },
            decreases 16 - i,
        {
            let x: u64 = a.0[i];
            let y: u64 = b.0[i];
            assert(((x & mask) | (y & !mask)) == if mask == u64::MAX { x } else { y })
                by (bit_vector)
                requires
                    mask == u64::MAX || mask == 0u64,
            ;
            res[i] = (x & mask) | (y & !mask);
            i += 1;
        }
        assert(res =~= if choice { a.0 } else { b.0 });
        U1024(res)
    }
}

impl PartialEq for U1024 {
    /// Limbwise equality, without an early exit.
    fn eq(&self, other: &Self) -> (r: bool) {
        let mut diff: u64 = 0;
        let mut i: usize = 0;
        while i < 16
            invariant
                i <= 16,
                (diff == 0) == (forall|j: int| 0 <= j < i ==> self.0[j] == other.0[j]),
            decreases 16 - i,
        {
            let x: u64 = self.0[i];
            let y: u64 = other.0[i];
            assert(((diff | (x ^ y)) == 0) == (diff == 0 && x == y)) by (bit_vector);
            diff = diff | (x ^ y);
            i += 1;
        }
        proof {
            if diff == 0 {
                assert(self.0 =~= other.0);
            }
        }
        diff == 0
    }
}

impl Eq for U1024 {

}

impl PartialEqSpecImpl for U1024 {
    open spec fn obeys_eq_spec() -> bool {
        true
    }

    /// `==` holds of equal limbs, that is of equal values.
    open spec fn eq_spec(&self, other: &U1024) -> bool {
        *self == *other
    }
}

impl Default for U1024 {
    /// The integer 0.
    fn default() -> (r: U1024)
        ensures
            r@ == 0,
    {
        U1024::zero()
    }
}

impl core::ops::Add for U1024 {
    type Output = U1024;

    /// Addition modulo `2^1024`.
    fn add(self, rhs: U1024) -> (r: U1024)
        ensures
            r@ == (self@ + rhs@) % u1024_range(),
    {
        let (sum, _) = self.carrying_add(&rhs);
        proof {
            sum.lemma_from_nat_view();
        }
        sum
    }
}

impl AddSpecImpl for U1024 {
    open spec fn obeys_add_spec() -> bool {
        true
    }

    open spec fn add_req(self, rhs: U1024) -> bool {
        true
    }

    /// `+` wraps modulo `2^1024`.
    open spec fn add_spec(self, rhs: U1024) -> U1024 {
        U1024::from_nat((self@ + rhs@) % u1024_range())
    }
}

impl core::ops::Sub for U1024 {
    type Output = U1024;

    /// Subtraction modulo `2^1024`.
    fn sub(self, rhs: U1024) -> (r: U1024)
        ensures
            r@ == (self@ - rhs@) % (u1024_range() as int),
    {
        let (diff, _) = self.borrowing_sub(&rhs);
        proof {
            diff.lemma_from_nat_view();
        }
        diff
    }
}

impl SubSpecImpl for U1024 {
    open spec fn obeys_sub_spec() -> bool {
        true
    }

    open spec fn sub_req(self, rhs: U1024) -> bool {
        true
    }

    /// `-` wraps modulo `2^1024`.
    open spec fn sub_spec(self, rhs: U1024) -> U1024 {
        U1024::from_nat(((self@ - rhs@) % (u1024_range() as int)) as nat)
    }
}

} // verus!
