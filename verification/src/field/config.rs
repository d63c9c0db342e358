//! Field configurations: a modulus with its Montgomery constants and
//! root-of-unity data.

use vstd::prelude::*;
use crate::big_int::limbs::{horner_value, limb_radix, limb_weight};
use crate::big_int::u1024::{U1024, u1024_range};

verus! {

/// Whether `n0` is the negated inverse of the odd limb `q0` modulo `2^64`.
pub open spec fn is_neg_inverse(q0: u64, n0: u64) -> bool {
    (q0 as nat * n0 as nat + 1) % limb_radix() == 0
}

/// A deployment's field: the modulus `q`, the constants that Montgomery
/// arithmetic with radix `R = 2^1024` needs, and a root of unity of
/// two-power order from which transform tables are derived.
///
/// Nothing is promised here of the root: a transform context checks what it
/// needs of it when it is built.
pub trait FieldConfig: Sized {
    /// The modulus `q`.
    spec fn modulus_spec() -> nat;

    /// The modulus is odd, greater than 1 and below `2^1024`.
    proof fn lemma_modulus()
        ensures
            Self::modulus_spec() > 1,
            Self::modulus_spec() % 2 == 1,
            Self::modulus_spec() < u1024_range(),
    ;

    /// The modulus `q`.
    fn modulus() -> (q: U1024)
        ensures
            q@ == Self::modulus_spec(),
    ;

    /// `-q^(-1) mod 2^64`.
    fn neg_inverse() -> (n0: u64)
        ensures
            is_neg_inverse((Self::modulus_spec() % limb_radix()) as u64, n0),
    ;

    /// `R^2 mod q`.
    fn radix_squared() -> (r2: U1024)
        ensures
            r2@ == (u1024_range() * u1024_range()) % Self::modulus_spec(),
    ;

    /// `k` such that [`Self::root_of_unity`] is offered as a root of order `2^k`.
    fn two_adicity() -> (k: u32)
        ensures
            k == Self::two_adicity_spec(),
    ;

    /// The value that [`Self::two_adicity`] returns.
    spec fn two_adicity_spec() -> u32;

    /// A field element offered as a primitive root of unity of order
    /// `2^two_adicity`, as a canonical integer below `q`.
    fn root_of_unity() -> (g: U1024)
        ensures
            g@ == Self::root_of_unity_spec(),
            g@ < Self::modulus_spec(),
    ;

    /// The value that [`Self::root_of_unity`] returns.
    spec fn root_of_unity_spec() -> nat;
}

/// The default field: `q = 2^1024 - 1951 * 2^32 + 1`, a prime with
/// `q - 1` divisible by `2^32`.
#[derive(Clone, Copy, Debug)]
pub struct DefaultFieldConfig;

/// The limbs of the default modulus.
pub open spec fn default_modulus() -> U1024 {
    U1024(
        [
            0xfffff86100000001,
            0xffffffffffffffff,
            0xffffffffffffffff,
            0xffffffffffffffff,
            0xffffffffffffffff,
            0xffffffffffffffff,
            0xffffffffffffffff,
            0xffffffffffffffff,
            0xffffffffffffffff,
            0xffffffffffffffff,
            0xffffffffffffffff,
            0xffffffffffffffff,
            0xffffffffffffffff,
            0xffffffffffffffff,
            0xffffffffffffffff,
            0xffffffffffffffff,
        ],
    )
}

/// The limbs of the default root of unity, of order `2^32`.
pub open spec fn default_root() -> U1024 {
    U1024(
        [
            0x7ca68b70358edcfa,
            0x43c16fc278b0489e,
            0x6081e1c9c4ee2855,
            0x14f20abac767a3f6,
            0x3889e27ef231781c,
            0x8379c67d3baac0a3,
            0xf4e076dec10ca1d2,
            0x87936c4d6a6334a6,
            0xb61f5ff656889008,
            0xa6eb729b0e282de7,
            0xec4b41e49d058d26,
            0xd6820f8cffd278b0,
            0xa7ffc8f53de2517a,
            0xf19c0571b4390474,
            0x37468be8b5a29040,
            0x2083bab26f880ede,
        ],
    )
}

/// `2^1024`, written out.
pub open spec fn range_literal() -> nat {
    0x1_0000000000000000_0000000000000000_0000000000000000_0000000000000000_0000000000000000_0000000000000000_0000000000000000_0000000000000000_0000000000000000_0000000000000000_0000000000000000_0000000000000000_0000000000000000_0000000000000000_0000000000000000_0000000000000000nat
}

/// The default modulus, written out.
pub open spec fn default_modulus_literal() -> nat {
    0xffffffffffffffff_ffffffffffffffff_ffffffffffffffff_ffffffffffffffff_ffffffffffffffff_ffffffffffffffff_ffffffffffffffff_ffffffffffffffff_ffffffffffffffff_ffffffffffffffff_ffffffffffffffff_ffffffffffffffff_ffffffffffffffff_ffffffffffffffff_ffffffffffffffff_fffff86100000001nat
}

/// `2^1024` has the value written out above.
pub proof fn lemma_range_literal()
    ensures
        u1024_range() == range_literal(),
{
    reveal_with_fuel(limb_weight, 17);
}

/// The limbs of the default modulus denote the value written out above.
pub proof fn lemma_default_modulus_literal()
    ensures
        default_modulus()@ == default_modulus_literal(),
{
    let s = default_modulus().0@;
    assert(s[0] == 0xfffff86100000001);
    assert(s[1] == 0xffffffffffffffff);
    assert(s[2] == 0xffffffffffffffff);
    assert(s[3] == 0xffffffffffffffff);
    assert(s[4] == 0xffffffffffffffff);
    assert(s[5] == 0xffffffffffffffff);
    assert(s[6] == 0xffffffffffffffff);
    assert(s[7] == 0xffffffffffffffff);
    assert(s[8] == 0xffffffffffffffff);
    assert(s[9] == 0xffffffffffffffff);
    assert(s[10] == 0xffffffffffffffff);
    assert(s[11] == 0xffffffffffffffff);
    assert(s[12] == 0xffffffffffffffff);
    assert(s[13] == 0xffffffffffffffff);
    assert(s[14] == 0xffffffffffffffff);
    assert(s[15] == 0xffffffffffffffff);
    crate::big_int::limbs::lemma_prefix_is_horner(s, 16);
    reveal_with_fuel(horner_value, 17);
}

/// The default modulus sits `1951 * 2^32 - 1` below `2^1024` and is odd.
pub proof fn lemma_default_modulus()
    ensures
        default_modulus()@ + 0x79f_0000_0000 - 1 == u1024_range(),
        default_modulus()@ % limb_radix() == 0xfffff86100000001,
{
    lemma_range_literal();
    lemma_default_modulus_literal();
}

/// The default root of unity is a canonical integer below the modulus.
pub proof fn lemma_default_root()
    ensures
        default_root()@ < default_modulus()@,
{
    lemma_default_modulus_literal();
    let s = default_root().0@;
    assert(s[0] == 0x7ca68b70358edcfa);
    assert(s[1] == 0x43c16fc278b0489e);
    assert(s[2] == 0x6081e1c9c4ee2855);
    assert(s[3] == 0x14f20abac767a3f6);
    assert(s[4] == 0x3889e27ef231781c);
    assert(s[5] == 0x8379c67d3baac0a3);
    assert(s[6] == 0xf4e076dec10ca1d2);
    assert(s[7] == 0x87936c4d6a6334a6);
    assert(s[8] == 0xb61f5ff656889008);
    assert(s[9] == 0xa6eb729b0e282de7);
    assert(s[10] == 0xec4b41e49d058d26);
    assert(s[11] == 0xd6820f8cffd278b0);
    assert(s[12] == 0xa7ffc8f53de2517a);
    assert(s[13] == 0xf19c0571b4390474);
    assert(s[14] == 0x37468be8b5a29040);
    assert(s[15] == 0x2083bab26f880ede);
    crate::big_int::limbs::lemma_prefix_is_horner(s, 16);
    reveal_with_fuel(horner_value, 17);
}

impl FieldConfig for DefaultFieldConfig {
    open spec fn modulus_spec() -> nat {
        default_modulus()@
    }

    proof fn lemma_modulus() {
        lemma_default_modulus();
        lemma_default_modulus_literal();
        lemma_range_literal();
    }

    fn modulus() -> (q: U1024) {
        U1024(
            [
                0xfffff86100000001,
                0xffffffffffffffff,
                0xffffffffffffffff,
                0xffffffffffffffff,
                0xffffffffffffffff,
                0xffffffffffffffff,
                0xffffffffffffffff,
                0xffffffffffffffff,
                0xffffffffffffffff,
                0xffffffffffffffff,
                0xffffffffffffffff,
                0xffffffffffffffff,
                0xffffffffffffffff,
                0xffffffffffffffff,
                0xffffffffffffffff,
                0xffffffffffffffff,
            ],
        )
    }

    fn neg_inverse() -> (n0: u64) {
        proof {
            lemma_default_modulus();
        }
        0xfffff860ffffffff
    }

    fn radix_squared() -> (r2: U1024) {
        let mut limbs = [0u64; 16];
        limbs[0] = 0xfffff0c200000001;
        limbs[1] = 0x3a14c0;
        let r2 = U1024(limbs);
        proof {
            lemma_default_modulus();
            let q = default_modulus()@ as int;
            let c: int = 0x79f_0000_0000 - 1;
            let range = u1024_range() as int;
            vstd::arithmetic::div_mod::lemma_fundamental_div_mod_converse(range, q, 1, c);
            vstd::arithmetic::div_mod::lemma_mul_mod_noop(range, range, q);
            assert(c * c == 0x3a14c0_fffff0c200000001) by (nonlinear_arith)
                requires
                    c == 0x79f_0000_0000 - 1,
            ;
            vstd::arithmetic::div_mod::lemma_small_mod((c * c) as nat, q as nat);
            crate::big_int::limbs::lemma_prefix_is_horner(limbs@, 16);
            reveal_with_fuel(horner_value, 17);
        }
        r2
    }

    open spec fn two_adicity_spec() -> u32 {
        32
    }

    fn two_adicity() -> (k: u32) {
        32
    }

    open spec fn root_of_unity_spec() -> nat {
        default_root()@
    }

    fn root_of_unity() -> (g: U1024) {
        proof {
            lemma_default_root();
        }
        U1024(
            [
                0x7ca68b70358edcfa,
                0x43c16fc278b0489e,
                0x6081e1c9c4ee2855,
                0x14f20abac767a3f6,
                0x3889e27ef231781c,
                0x8379c67d3baac0a3,
                0xf4e076dec10ca1d2,
                0x87936c4d6a6334a6,
                0xb61f5ff656889008,
                0xa6eb729b0e282de7,
                0xec4b41e49d058d26,
                0xd6820f8cffd278b0,
                0xa7ffc8f53de2517a,
                0xf19c0571b4390474,
                0x37468be8b5a29040,
                0x2083bab26f880ede,
            ],
        )
    }
}

} // verus!
