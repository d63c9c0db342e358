//! Field elements in Montgomery form.

use core::marker::PhantomData;
use vstd::prelude::*;
use vstd::std_specs::cmp::PartialEqSpecImpl;
use vstd::std_specs::ops::{AddSpecImpl, MulSpecImpl, NegSpecImpl, SubSpecImpl};
use vstd::arithmetic::div_mod::{lemma_mod_bound, lemma_mul_mod_noop_left, lemma_small_mod};
use vstd::arithmetic::power::{lemma_pow_adds, pow};
use vstd::arithmetic::power2::{lemma2_to64, lemma_pow2};
use crate::big_int::digest::{default_domain, expand_message_spec, limbs_of_bytes};
use crate::big_int::limbs::{lemma_limb_of_prefix, limb_of, limb_radix, limb_weight, limbs_value};
use crate::big_int::u1024::{U1024, u1024_range};
use crate::big_int::wide::{mul_wide, widen};
use crate::field::config::{FieldConfig, is_neg_inverse};
use crate::field::montgomery::montgomery_reduce;
use crate::field::modular::{
    add_mod, lemma_mul_congruent, lemma_shift_congruent, lemma_unit_factor, mul_mod, neg_mod,
    sub_mod,
};

verus! {

/// The inverse of the Montgomery radix `R = 2^1024` modulo an odd `q`.
pub open spec fn radix_inverse(q: nat) -> nat {
    (pow(((q + 1) / 2) as int, 1024) % (q as int)) as nat
}

/// The integer that the Montgomery representative `m` stands for: `m * R^(-1) mod q`.
pub open spec fn mont_value(m: nat, q: nat) -> nat {
    (m * radix_inverse(q)) % q
}

/// The weight of limb `k` is `2^(64 k)`.
pub proof fn lemma_weight_is_pow2(k: nat)
    ensures
        limb_weight(k) == pow(2, 64 * k),
    decreases k,
{
    if k == 0 {
        vstd::arithmetic::power::lemma_pow0(2);
    } else {
        lemma_weight_is_pow2((k - 1) as nat);
        lemma_pow_adds(2, 64, (64 * (k - 1)) as nat);
        lemma2_to64();
        lemma_pow2(64);
    }
}

/// `radix_inverse(q)` inverts `R` modulo an odd `q > 1`.
pub proof fn lemma_radix_inverse(q: nat)
    requires
        q > 1,
        q % 2 == 1,
    ensures
        (u1024_range() * radix_inverse(q)) % q == 1,
        radix_inverse(q) < q,
{
    lemma_weight_is_pow2(16);
    lemma_pow2(1024);
    crate::field::modular::lemma_half_power(q, 1024, radix_inverse(q));
    lemma_mod_bound(pow(((q + 1) / 2) as int, 1024), q as int);
}

/// What a Montgomery reduction returns, as a value: if `r < q` and
/// `r * R` is congruent to `t`, then `r` is `t * R^(-1) mod q`.
pub proof fn lemma_reduced_value(r: nat, t: nat, q: nat)
    requires
        q > 1,
        q % 2 == 1,
        r < q,
        (r * u1024_range()) % q == t % q,
    ensures
        r == mont_value(t, q),
{
    let m = q as int;
    let range = u1024_range() as int;
    let inv = radix_inverse(q) as int;
    lemma_radix_inverse(q);
    lemma_mul_congruent(r * range, t as int, inv, inv, m);
    assert((r * range) * inv == r * (range * inv)) by (nonlinear_arith);
    lemma_small_mod(1, q);
    lemma_unit_factor(r as int, range * inv, m);
    lemma_small_mod(r, q);
}

/// Multiplying a value by `R` gives back its representative.
pub proof fn lemma_value_times_radix(mont: nat, q: nat)
    requires
        q > 1,
        q % 2 == 1,
        mont < q,
    ensures
        (mont_value(mont, q) * u1024_range()) % q == mont,
{
    lemma_small_mod(mont, q);
    let m = q as int;
    let range = u1024_range() as int;
    let inv = radix_inverse(q) as int;
    lemma_radix_inverse(q);
    lemma_mul_mod_noop_left(mont * inv, range, m);
    assert((mont * inv) * range == mont * (range * inv)) by (nonlinear_arith);
    lemma_small_mod(1, q);
    lemma_unit_factor(mont as int, range * inv, m);
}

/// Values add as representatives do.
pub proof fn lemma_value_add(a: nat, b: nat, r: nat, k: int, q: nat)
    requires
        q > 1,
        r == a + b - k * q,
    ensures
        mont_value(r, q) == (mont_value(a, q) + mont_value(b, q)) % q,
{
    let m = q as int;
    let inv = radix_inverse(q) as int;
    assert(r * inv == a * inv + b * inv + (-k * inv) * m) by (nonlinear_arith)
        requires
            r == a + b - k * m,
    ;
    lemma_shift_congruent(a * inv + b * inv, -k * inv, m);
    vstd::arithmetic::div_mod::lemma_add_mod_noop(a * inv, b * inv, m);
}

/// Values subtract as representatives do.
pub proof fn lemma_value_sub(a: nat, b: nat, r: nat, k: int, q: nat)
    requires
        q > 1,
        r == a - b + k * q,
    ensures
        mont_value(r, q) == (mont_value(a, q) - mont_value(b, q)) % (q as int),
{
    let m = q as int;
    let inv = radix_inverse(q) as int;
    assert(r * inv == a * inv - b * inv + (k * inv) * m) by (nonlinear_arith)
        requires
            r == a - b + k * m,
    ;
    lemma_shift_congruent(a * inv - b * inv, k * inv, m);
    vstd::arithmetic::div_mod::lemma_sub_mod_noop(a * inv, b * inv, m);
}

/// The reduced product of two representatives stands for the product of their values.
pub proof fn lemma_value_mul(a: nat, b: nat, r: nat, q: nat)
    requires
        q > 1,
        q % 2 == 1,
        r == mont_value(a * b, q),
    ensures
        mont_value(r, q) == (mont_value(a, q) * mont_value(b, q)) % q,
{
    let m = q as int;
    let inv = radix_inverse(q) as int;
    lemma_mul_mod_noop_left((a * b) * inv, inv, m);
    assert(((a * b) * inv) * inv == (a * inv) * (b * inv)) by (nonlinear_arith);
    vstd::arithmetic::div_mod::lemma_mul_mod_noop(a * inv, b * inv, m);
}

/// Encoding: the reduced product of `raw` and `R^2 mod q` stands for `raw mod q`.
pub proof fn lemma_value_encode(raw: nat, r2: nat, r: nat, q: nat)
    requires
        q > 1,
        q % 2 == 1,
        r2 == (u1024_range() * u1024_range()) % q,
        r == mont_value(raw * r2, q),
    ensures
        mont_value(r, q) == raw % q,
{
    let m = q as int;
    let range = u1024_range() as int;
    let inv = radix_inverse(q) as int;
    lemma_radix_inverse(q);
    lemma_small_mod(1, q);
    // r2 * inv * inv is congruent to 1
    lemma_mul_mod_noop_left(range * range, inv * inv, m);
    assert((range * range) * (inv * inv) == (range * inv) * (range * inv)) by (nonlinear_arith);
    lemma_mul_congruent(range * inv, 1, range * inv, 1, m);
    assert((r2 * (inv * inv)) % m == 1);
    lemma_mul_mod_noop_left((raw * r2) * inv, inv, m);
    assert(((raw * r2) * inv) * inv == raw * (r2 * (inv * inv))) by (nonlinear_arith);
    lemma_unit_factor(raw as int, r2 * (inv * inv), m);
}

/// An element of `Z_q`, stored as its Montgomery representative
/// `value * R mod q`, always below `q`.
#[derive(Debug)]
pub struct FieldElement<C: FieldConfig> {
    mont: U1024,
    config: PhantomData<C>,
}

impl<C: FieldConfig> View for FieldElement<C> {
    type V = nat;

    /// The canonical value in `[0, q)`.
    closed spec fn view(&self) -> nat {
        mont_value(self.mont@, C::modulus_spec())
    }
}

impl<C: FieldConfig> FieldElement<C> {
    #[verifier::type_invariant]
    /// The representative is reduced.
    spec fn canonical(self) -> bool {
        self.mont@ < C::modulus_spec()
    }

    /// The stored Montgomery representative.
    pub closed spec fn representative(&self) -> nat {
        self.mont@
    }

    /// Whether the stored representative is the Montgomery encoding
    /// `value * R mod q` of the value.
    pub open spec fn is_encoded(&self) -> bool {
        self.representative() == (self@ * u1024_range()) % C::modulus_spec()
    }

    /// The element with canonical value `v mod q`.
    pub closed spec fn from_value(v: nat) -> Self {
        FieldElement {
            mont: U1024::from_nat((v * u1024_range()) % C::modulus_spec()),
            config: PhantomData,
        }
    }

    /// An element in Montgomery encoding is the element of its value.
    pub proof fn lemma_from_value(self)
        requires
            self.is_encoded(),
        ensures
            self == Self::from_value(self@),
    {
        self.mont.lemma_from_nat_view();
    }

    /// Every value lies in `[0, q)`.
    pub proof fn lemma_view_bound(self)
        ensures
            self@ < C::modulus_spec(),
    {
        C::lemma_modulus();
        lemma_mod_bound((self.mont@ * radix_inverse(C::modulus_spec())) as int, C::modulus_spec() as int);
    }

    /// The modulus with its negated inverse, ready for a reduction.
    fn reduction_constants() -> (r: (U1024, u64))
        ensures
            r.0@ == C::modulus_spec(),
            is_neg_inverse(r.0.0[0], r.1),
    {
        let q = C::modulus();
        let n0 = C::neg_inverse();
        proof {
            lemma_limb_of_prefix(q.0@, 16, 0);
            assert(limb_weight(0) == 1);
            assert(q@ / 1 == q@);
            assert(q.0@[0] == q.0[0]);
            assert(limb_of(q@, 0) == ((q@ / 1) % limb_radix()) as u64);
        }
        (q, n0)
    }

    /// The element with canonical value `raw mod q`.
    pub fn new(raw: U1024) -> (r: Self)
        ensures
            r@ == raw@ % C::modulus_spec(),
            r.is_encoded(),
    {
        let (q, n0) = Self::reduction_constants();
        let r2 = C::radix_squared();
        let wide = mul_wide(&raw, &r2);
        proof {
            C::lemma_modulus();
            raw.lemma_in_range();
            lemma_mod_bound((u1024_range() * u1024_range()) as int, q@ as int);
            assert(raw@ * r2@ < q@ * u1024_range()) by (nonlinear_arith)
                requires
                    raw@ < u1024_range(),
                    r2@ < q@,
            ;
        }
        let mont = montgomery_reduce(wide, &q, n0);
        proof {
            lemma_reduced_value(mont@, raw@ * r2@, q@);
            lemma_value_encode(raw@, r2@, mont@, q@);
            lemma_value_times_radix(mont@, q@);
        }
        FieldElement { mont, config: PhantomData }
    }

    /// The element with canonical value `v mod q`.
    pub fn from_u64(v: u64) -> (r: Self)
        ensures
            r@ == v as nat % C::modulus_spec(),
            r.is_encoded(),
    {
        Self::new(U1024::from_u64(v))
    }

    /// The element that `input` hashes to: the integer that it hashes to,
    /// reduced modulo `q`.
    pub fn from_hash(input: &[u8]) -> (r: Self)
        ensures
            r@ == limbs_value(
                limbs_of_bytes(expand_message_spec(default_domain(), input@)),
            ) % C::modulus_spec(),
            r.is_encoded(),
    {
        Self::new(U1024::from_hash(input))
    }

    /// The stored Montgomery representative, as an integer in `[0, q)`.
    pub fn montgomery_repr(&self) -> (r: U1024)
        ensures
            r@ == self.representative(),
            r@ < C::modulus_spec(),
    {
        proof {
            use_type_invariant(self);
        }
        self.mont
    }

    /// The canonical value, as an integer in `[0, q)`.
    pub fn to_u1024(&self) -> (r: U1024)
        ensures
            r@ == self@,
    {
        let (q, n0) = Self::reduction_constants();
        let wide = widen(&self.mont);
        proof {
            use_type_invariant(self);
            C::lemma_modulus();
            crate::big_int::limbs::lemma_weight_pos(16);
            assert(self.mont@ < q@ * u1024_range()) by (nonlinear_arith)
                requires
                    self.mont@ < q@,
                    u1024_range() >= 1,
            ;
        }
        let r = montgomery_reduce(wide, &q, n0);
        proof {
            lemma_reduced_value(r@, self.mont@, q@);
        }
        r
    }

    /// The additive identity, stored as 0.
    pub fn zero() -> (r: Self)
        ensures
            r@ == 0,
            r.representative() == 0,
            r.is_encoded(),
    {
        proof {
            C::lemma_modulus();
            assert(0 * radix_inverse(C::modulus_spec()) == 0);
            assert(0 * u1024_range() == 0);
            lemma_small_mod(0, C::modulus_spec());
        }
        FieldElement { mont: U1024::zero(), config: PhantomData }
    }

    /// The multiplicative identity: the element whose value is 1, stored as
    /// `R mod q`, which is not the integer 1.
    pub fn one() -> (r: Self)
        ensures
            r@ == 1,
            r.representative() == u1024_range() % C::modulus_spec(),
            r.is_encoded(),
    {
        proof {
            C::lemma_modulus();
            lemma_small_mod(1, C::modulus_spec());
            assert(1 * u1024_range() == u1024_range());
        }
        Self::new(U1024::one())
    }

    /// Whether the value is 0.
    pub fn is_zero(&self) -> (r: bool)
        ensures
            r == (self@ == 0),
    {
        self.to_u1024().is_zero()
    }

    /// `self + rhs` in the field: a limb addition and one conditional
    /// subtraction of the modulus.
    pub fn add(self, rhs: Self) -> (r: Self)
        ensures
            r@ == add_mod(self@, rhs@, C::modulus_spec()),
            r.is_encoded(),
    {
        let q = C::modulus();
        let (sum, carry) = self.mont.carrying_add(&rhs.mont);
        let (diff, borrow) = sum.borrowing_sub(&q);
        // The reduced sum is `diff` if the addition carried or the
        // subtraction did not borrow: two selections, no branch.
        let carried = U1024::conditional_select(&diff, &sum, carry);
        let mont = U1024::conditional_select(&carried, &diff, borrow);
        proof {
            use_type_invariant(&self);
            use_type_invariant(&rhs);
            C::lemma_modulus();
            let k: int = if carry || !borrow { 1 } else { 0 };
            lemma_value_add(self.mont@, rhs.mont@, mont@, k, q@);
            lemma_value_times_radix(mont@, q@);
        }
        FieldElement { mont, config: PhantomData }
    }

    /// `self - rhs` in the field: a limb subtraction and one conditional
    /// addition of the modulus.
    pub fn sub(self, rhs: Self) -> (r: Self)
        ensures
            r@ == sub_mod(self@, rhs@, C::modulus_spec()),
            r.is_encoded(),
    {
        let q = C::modulus();
        let (diff, borrow) = self.mont.borrowing_sub(&rhs.mont);
        let (fixed, _) = diff.carrying_add(&q);
        let mont = U1024::conditional_select(&fixed, &diff, borrow);
        proof {
            use_type_invariant(&self);
            use_type_invariant(&rhs);
            C::lemma_modulus();
            let k: int = if borrow { 1 } else { 0 };
            if borrow {
                lemma_small_mod(
                    (self.mont@ - rhs.mont@ + q@) as nat,
                    u1024_range(),
                );
                lemma_shift_congruent(
                    self.mont@ - rhs.mont@ + q@,
                    1,
                    u1024_range() as int,
                );
            }
            lemma_value_sub(self.mont@, rhs.mont@, mont@, k, q@);
            lemma_value_times_radix(mont@, q@);
        }
        FieldElement { mont, config: PhantomData }
    }

    /// `-self` in the field.
    pub fn neg(self) -> (r: Self)
        ensures
            r@ == neg_mod(self@, C::modulus_spec()),
            r.is_encoded(),
    {
        Self::zero().sub(self)
    }

    /// `self * rhs` in the field: a widening multiplication and one
    /// Montgomery reduction.
    pub fn mul(self, rhs: Self) -> (r: Self)
        ensures
            r@ == mul_mod(self@, rhs@, C::modulus_spec()),
            r.is_encoded(),
    {
        let (q, n0) = Self::reduction_constants();
        let wide = mul_wide(&self.mont, &rhs.mont);
        proof {
            use_type_invariant(&self);
            use_type_invariant(&rhs);
            C::lemma_modulus();
            assert(self.mont@ * rhs.mont@ < q@ * u1024_range()) by (nonlinear_arith)
                requires
                    self.mont@ < q@,
                    rhs.mont@ < q@,
                    q@ < u1024_range(),
            ;
        }
        let mont = montgomery_reduce(wide, &q, n0);
        proof {
            lemma_reduced_value(mont@, self.mont@ * rhs.mont@, q@);
            lemma_value_mul(self.mont@, rhs.mont@, mont@, q@);
            lemma_value_times_radix(mont@, q@);
        }
        FieldElement { mont, config: PhantomData }
    }
}

impl<C: FieldConfig> Clone for FieldElement<C> {
    /// A copy.
    fn clone(&self) -> (r: Self)
        ensures
            r == *self,
    {
        *self
    }
}

impl<C: FieldConfig> Copy for FieldElement<C> {

}

impl<C: FieldConfig> core::ops::Add for FieldElement<C> {
    type Output = FieldElement<C>;

    /// `a + b` in the field.
    fn add(self, rhs: FieldElement<C>) -> (r: FieldElement<C>)
        ensures
            r@ == add_mod(self@, rhs@, C::modulus_spec()),
    {
        let r = FieldElement::add(self, rhs);
        proof {
            r.lemma_from_value();
        }
        r
    }
}

impl<C: FieldConfig> AddSpecImpl for FieldElement<C> {
    open spec fn obeys_add_spec() -> bool {
        true
    }

    open spec fn add_req(self, rhs: FieldElement<C>) -> bool {
        true
    }

    /// `+` adds the values modulo `q`.
    open spec fn add_spec(self, rhs: FieldElement<C>) -> FieldElement<C> {
        FieldElement::from_value(add_mod(self@, rhs@, C::modulus_spec()))
    }
}

impl<C: FieldConfig> core::ops::Sub for FieldElement<C> {
    type Output = FieldElement<C>;

    /// `a - b` in the field.
    fn sub(self, rhs: FieldElement<C>) -> (r: FieldElement<C>)
        ensures
            r@ == sub_mod(self@, rhs@, C::modulus_spec()),
    {
        let r = FieldElement::sub(self, rhs);
        proof {
            r.lemma_from_value();
        }
        r
    }
}

impl<C: FieldConfig> SubSpecImpl for FieldElement<C> {
    open spec fn obeys_sub_spec() -> bool {
        true
    }

    open spec fn sub_req(self, rhs: FieldElement<C>) -> bool {
        true
    }

    /// `-` subtracts the values modulo `q`.
    open spec fn sub_spec(self, rhs: FieldElement<C>) -> FieldElement<C> {
        FieldElement::from_value(sub_mod(self@, rhs@, C::modulus_spec()))
    }
}

impl<C: FieldConfig> core::ops::Mul for FieldElement<C> {
    type Output = FieldElement<C>;

    /// `a * b` in the field.
    fn mul(self, rhs: FieldElement<C>) -> (r: FieldElement<C>)
        ensures
            r@ == mul_mod(self@, rhs@, C::modulus_spec()),
    {
        let r = FieldElement::mul(self, rhs);
        proof {
            r.lemma_from_value();
        }
        r
    }
}

impl<C: FieldConfig> MulSpecImpl for FieldElement<C> {
    open spec fn obeys_mul_spec() -> bool {
        true
    }

    open spec fn mul_req(self, rhs: FieldElement<C>) -> bool {
        true
    }

    /// `*` multiplies the values modulo `q`.
    open spec fn mul_spec(self, rhs: FieldElement<C>) -> FieldElement<C> {
        FieldElement::from_value(mul_mod(self@, rhs@, C::modulus_spec()))
    }
}

impl<C: FieldConfig> core::ops::Neg for FieldElement<C> {
    type Output = FieldElement<C>;

    /// `-a` in the field.
    fn neg(self) -> (r: FieldElement<C>)
        ensures
            r@ == neg_mod(self@, C::modulus_spec()),
    {
        let r = FieldElement::neg(self);
        proof {
            r.lemma_from_value();
        }
        r
    }
}

impl<C: FieldConfig> NegSpecImpl for FieldElement<C> {
    open spec fn obeys_neg_spec() -> bool {
        true
    }

    open spec fn neg_req(self) -> bool {
        true
    }

    /// `-` negates the value modulo `q`.
    open spec fn neg_spec(self) -> FieldElement<C> {
        FieldElement::from_value(neg_mod(self@, C::modulus_spec()))
    }
}

impl<C: FieldConfig> PartialEq for FieldElement<C> {
    /// Equality of the canonical values: both sides are decoded first.
    fn eq(&self, other: &Self) -> (r: bool) {
        let a = self.to_u1024();
        let b = other.to_u1024();
        proof {
            if a@ == b@ {
                a.lemma_value_injective(b);
            }
        }
        a == b
    }
}

impl<C: FieldConfig> Eq for FieldElement<C> {

}

impl<C: FieldConfig> PartialEqSpecImpl for FieldElement<C> {
    open spec fn obeys_eq_spec() -> bool {
        true
    }

    /// `==` holds of equal canonical values.
    open spec fn eq_spec(&self, other: &FieldElement<C>) -> bool {
        self@ == other@
    }
}

} // verus!
