//! Transform contexts: the twiddle tables for one ring degree, and the
//! in-place forward and inverse transforms.

use std::sync::Arc;
use vstd::prelude::*;
use vstd::arithmetic::power::pow;
use vstd::arithmetic::power2::{lemma_pow2_pos, lemma_pow2_unfold, pow2};
use crate::big_int::u1024::U1024;
use crate::error::MathError;
use crate::field::config::FieldConfig;
use crate::field::element::FieldElement;
use crate::field::modular::{mul_mod, neg_mod};
use crate::poly::tables::{
    exact_log2, exponent_table, exponents_linked, lemma_twiddles_from_powers, node_root,
    power_table, repeated_square, small_power, twiddles_linked,
};
use crate::poly::evaluation::{lemma_network_evaluates, lemma_node_root_power, poly_eval};
use crate::poly::inverse::{
    all_below, lemma_forward_layers_linear, lemma_forward_undoes_layers,
    lemma_inverse_layers_shape, lemma_inverse_undoes_layers, lemma_scale_by_unit,
    lemma_scale_twice,
};
use crate::poly::stages::{
    forward_at, forward_layers, forward_stage, inverse_at, inverse_layers, inverse_stage,
    lemma_block_position, scale_values,
};

verus! {

/// The canonical values of a sequence of field elements.
pub open spec fn values<C: FieldConfig>(v: Seq<FieldElement<C>>) -> Seq<nat> {
    Seq::new(v.len(), |i: int| v[i]@)
}

/// The root of unity of order `2^(log_n + 1)` that the configured root
/// yields: `g^(2^(k - 1 - log_n)) mod q`, with `k` the configured two-adicity.
pub open spec fn primitive_root<C: FieldConfig>(log_n: nat) -> nat {
    (pow(
        C::root_of_unity_spec() as int,
        pow2((C::two_adicity_spec() - 1 - log_n) as nat),
    ) % (C::modulus_spec() as int)) as nat
}

/// Whether the configuration offers a primitive `2n`-th root of unity for
/// `n = 2^log_n`: one whose `n`-th power is `-1`.
pub open spec fn supports_log_degree<C: FieldConfig>(log_n: nat) -> bool {
    &&& log_n < C::two_adicity_spec()
    &&& pow(primitive_root::<C>(log_n) as int, pow2(log_n)) % (C::modulus_spec() as int)
        == C::modulus_spec() - 1
}

/// Whether a transform of ring degree `n` exists under the configuration:
/// `n` is a power of two with a primitive `2n`-th root of unity.
pub open spec fn supports_degree<C: FieldConfig>(n: nat) -> bool {
    exists|l: nat| n == pow2(l) && supports_log_degree::<C>(l)
}

/// A power of two has one exponent.
pub proof fn lemma_pow2_injective(a: nat, b: nat)
    requires
        pow2(a) == pow2(b),
    ensures
        a == b,
{
    if a < b {
        vstd::arithmetic::power2::lemma_pow2_strictly_increases(a, b);
    } else if b < a {
        vstd::arithmetic::power2::lemma_pow2_strictly_increases(b, a);
    }
}

/// The values of field elements are canonical.
pub proof fn lemma_values_canonical<C: FieldConfig>(v: Seq<FieldElement<C>>)
    ensures
        values(v).len() == v.len(),
        all_below(values(v), C::modulus_spec()),
{
    assert forall|i: int| 0 <= i < v.len() implies values(v)[i] < C::modulus_spec() by {
        v[i].lemma_view_bound();
    }
}

/// Precomputed tables for transforms of one ring degree `n = 2^log_n`.
#[derive(Debug)]
pub struct NttContext<C: FieldConfig> {
    n: usize,
    log_n: u32,
    zetas: Vec<FieldElement<C>>,
    zetas_inv: Vec<FieldElement<C>>,
    n_inv: FieldElement<C>,
    identity: usize,
    anchor: Arc<u8>,
}

/// The address of an anchor's allocation: a number that no other live
/// anchor has.
///
/// Wraps `Arc::as_ptr`. Nothing is claimed of the number.
#[verifier::external_body]
fn anchor_address(anchor: &Arc<u8>) -> (r: usize) {
    Arc::as_ptr(anchor) as usize
}

impl<C: FieldConfig> NttContext<C> {
    /// The ring degree `n`.
    pub closed spec fn degree_spec(&self) -> nat {
        self.n as nat
    }

    /// `log2(n)`.
    pub closed spec fn log_degree(&self) -> nat {
        self.log_n as nat
    }

    /// The forward twiddles, by tree index; entry 0 is unused.
    pub closed spec fn twiddles(&self) -> Seq<nat> {
        values(self.zetas@)
    }

    /// The inverses of the forward twiddles.
    pub closed spec fn inverse_twiddles(&self) -> Seq<nat> {
        values(self.zetas_inv@)
    }

    /// The identity of this context: what tells it from every other
    /// context, also from one built with the same parameters.
    pub closed spec fn identity_spec(&self) -> usize {
        self.identity
    }

    /// Whether `other` is this very context.
    pub open spec fn is_same(&self, other: &Self) -> bool {
        &&& self.identity_spec() == other.identity_spec()
        &&& self.degree_spec() == other.degree_spec()
    }

    /// Whether `other` is this very context.
    pub fn same_context(&self, other: &Self) -> (r: bool)
        ensures
            r == self.is_same(other),
    {
        self.identity == other.identity && self.n == other.n
    }

    /// The inverse of `n` in the field.
    pub closed spec fn degree_inverse(&self) -> nat {
        self.n_inv@
    }

    /// Well-formedness of the tables.
    #[verifier::type_invariant]
    pub closed spec fn wf(&self) -> bool {
        &&& self.n as nat == pow2(self.log_n as nat)
        &&& self.zetas@.len() == self.n
        &&& self.zetas_inv@.len() == self.n
        &&& twiddles_linked(
            values(self.zetas@),
            values(self.zetas_inv@),
            C::modulus_spec(),
            self.n as nat,
        )
        &&& mul_mod(self.n as nat, self.n_inv@, C::modulus_spec()) == 1
    }

    /// The tables for ring degree `n`, if `n` is a power of two for which
    /// the configuration has a primitive `2n`-th root of unity.
    pub fn new(n: usize) -> (r: Result<Self, MathError>)
        ensures
            match r {
                Ok(ctx) => ctx.wf() && ctx.degree_spec() == n && supports_degree::<C>(n as nat),
                Err(e) => e == MathError::ConstructionError && !supports_degree::<C>(n as nat),
            },
    {
        let log_n = match exact_log2(n) {
            Some(l) => l,
            None => {
                return Err(MathError::ConstructionError);
            },
        };
        proof {
            assert forall|l: nat| n as nat == pow2(l) implies l == log_n as nat by {
                lemma_pow2_injective(l, log_n as nat);
            }
            C::lemma_modulus();
            lemma_pow2_pos(log_n as nat);
        }
        let adicity = C::two_adicity();
        if log_n >= adicity {
            return Err(MathError::ConstructionError);
        }
        let root = C::root_of_unity();
        let g = FieldElement::<C>::new(root);
        proof {
            vstd::arithmetic::div_mod::lemma_small_mod(root@, C::modulus_spec());
        }
        let psi = repeated_square(g, adicity - 1 - log_n);
        let powers = power_table(psi, n);
        let top = powers[n - 1].mul(psi);
        let one = FieldElement::<C>::one();
        proof {
            let q = C::modulus_spec() as int;
            let b = psi@ as int;
            vstd::arithmetic::div_mod::lemma_mul_mod_noop_left(pow(b, (n - 1) as nat), b, q);
            vstd::arithmetic::power::lemma_pow_adds(b, (n - 1) as nat, 1);
            vstd::arithmetic::power::lemma_pow1(b);
            assert(top@ == pow(b, n as nat) % q);
            top.lemma_view_bound();
            if top@ + 1 < q {
                vstd::arithmetic::div_mod::lemma_small_mod(top@ + 1, C::modulus_spec());
            } else {
                vstd::arithmetic::div_mod::lemma_mod_self_0(q);
            }
        }
        if !top.add(one).is_zero() {
            return Err(MathError::ConstructionError);
        }
        let exps = exponent_table(n, log_n);
        let mut zetas: Vec<FieldElement<C>> = Vec::new();
        let mut zetas_inv: Vec<FieldElement<C>> = Vec::new();
        zetas.push(one);
        zetas_inv.push(one);
        let mut k: usize = 1;
        while k < n
            invariant
                1 <= k <= n,
                exponents_linked(exps@, n as nat),
                powers@.len() == n,
                zetas@.len() == k,
                zetas_inv@.len() == k,
                forall|i: int|
                    0 <= i < n ==> (#[trigger] powers@[i])@ == pow(psi@ as int, i as nat) % (
                    C::modulus_spec() as int),
                forall|i: int|
                    1 <= i < k ==> (#[trigger] zetas@[i])@ == pow(
                        psi@ as int,
                        exps@[i] as nat,
                    ) % (C::modulus_spec() as int),
                forall|i: int|
                    1 <= i < k ==> (#[trigger] zetas_inv@[i])@ == neg_mod(
                        (pow(psi@ as int, (n - exps@[i]) as nat) % (C::modulus_spec() as int)) as nat,
                        C::modulus_spec(),
                    ),
            decreases n - k,
        {
            let e: usize = exps[k];
            let z = powers[e];
            let zi = powers[n - e].neg();
            zetas.push(z);
            zetas_inv.push(zi);
            k += 1;
        }
        let q = C::modulus();
        let (half_q, _) = q.shr1().carrying_add(&U1024::one());
        let half = FieldElement::<C>::new(half_q);
        let n_inv = small_power(half, log_n);
        proof {
            let m = C::modulus_spec();
            crate::big_int::limbs::lemma_weight_pos(16);
            q.lemma_in_range();
            vstd::arithmetic::div_mod::lemma_small_mod(m / 2 + 1, crate::big_int::u1024::u1024_range());
            vstd::arithmetic::div_mod::lemma_small_mod(m / 2 + 1, m);
            assert(half@ == (m + 1) / 2);
            crate::field::modular::lemma_half_power(m, log_n as nat, n_inv@);
            lemma_twiddles_from_powers(
                values(zetas@),
                values(zetas_inv@),
                exps@,
                psi@,
                m,
                n as nat,
            );
        }
        let anchor = Arc::new(0u8);
        let identity = anchor_address(&anchor);
        Ok(NttContext { n, log_n, zetas, zetas_inv, n_inv, identity, anchor })
    }

    /// A ring degree is at least 1.
    pub proof fn lemma_degree_positive(&self)
        requires
            self.wf(),
        ensures
            self.degree_spec() >= 1,
    {
        lemma_pow2_pos(self.log_n as nat);
    }

    /// The `i`-th of the `n` roots of `X^n + 1` at which the transform
    /// evaluates, in the order of its output.
    pub closed spec fn root(&self, i: int) -> nat {
        node_root(values(self.zetas@), C::modulus_spec(), self.n + i)
    }

    /// The forward transform of the coefficients `x`: the values of the
    /// polynomial `x[0] + x[1] X + ...` at the `n` roots of `X^n + 1`.
    pub open spec fn ntt_spec(&self, x: Seq<nat>) -> Seq<nat> {
        Seq::new(
            x.len(),
            |i: int| (poly_eval(x, self.root(i) as int) % (C::modulus_spec() as int)) as nat,
        )
    }

    /// The inverse transform of the values `y`: by
    /// [`Self::lemma_ntt_of_intt`] and [`Self::lemma_intt_of_ntt`], the
    /// one coefficient sequence whose forward transform is `y`.
    pub closed spec fn intt_spec(&self, y: Seq<nat>) -> Seq<nat> {
        self.inverse_network(y)
    }

    /// Every point at which the transform evaluates is a root of
    /// `X^n + 1`: its `n`-th power is `-1`.
    pub proof fn lemma_root_power(&self, i: int)
        requires
            self.wf(),
            0 <= i < self.degree_spec(),
        ensures
            pow(self.root(i) as int, self.degree_spec()) % (C::modulus_spec() as int)
                == C::modulus_spec() - 1,
    {
        C::lemma_modulus();
        lemma_pow2_unfold((self.log_n + 1) as nat);
        lemma_node_root_power(
            self.twiddles(),
            self.inverse_twiddles(),
            C::modulus_spec(),
            self.n as nat,
            self.n + i,
            self.log_n as nat,
        );
    }

    /// The `n` points at which the transform evaluates are distinct.
    pub proof fn lemma_roots_distinct(&self, i: int, j: int)
        requires
            self.wf(),
            0 <= i < self.degree_spec(),
            0 <= j < self.degree_spec(),
            self.root(i) == self.root(j),
        ensures
            i == j,
    {
        // The coefficients whose transform is 1 at `i` and 0 elsewhere
        // have one value at equal points.
        C::lemma_modulus();
        let unit = Seq::new(self.degree_spec(), |k: int| if k == i { 1nat } else { 0nat });
        let x = self.intt_spec(unit);
        self.lemma_ntt_of_intt(unit);
        self.lemma_transform_shape(unit);
        let q = C::modulus_spec() as int;
        assert(self.ntt_spec(x)[i] == (poly_eval(x, self.root(i) as int) % q) as nat);
        assert(self.ntt_spec(x)[j] == (poly_eval(x, self.root(j) as int) % q) as nat);
        assert(unit[i] == 1);
        if i != j {
            assert(unit[j] == 0);
        }
    }

    /// The butterfly network computes the forward transform.
    pub proof fn lemma_network_is_transform(&self, x: Seq<nat>)
        requires
            self.wf(),
            x.len() == self.degree_spec(),
            all_below(x, C::modulus_spec()),
        ensures
            self.forward_network(x) == self.ntt_spec(x),
    {
        C::lemma_modulus();
        lemma_network_evaluates(
            self.twiddles(),
            self.inverse_twiddles(),
            C::modulus_spec(),
            x,
            self.log_n as nat,
        );
        assert(self.forward_network(x) =~= self.ntt_spec(x));
    }

    /// Transforms have the length of their input, and canonical values.
    pub proof fn lemma_transform_shape(&self, x: Seq<nat>)
        requires
            self.wf(),
            x.len() == self.degree_spec(),
        ensures
            self.ntt_spec(x).len() == x.len(),
            self.intt_spec(x).len() == x.len(),
            all_below(self.ntt_spec(x), C::modulus_spec()),
            all_below(self.intt_spec(x), C::modulus_spec()),
    {
        let q = C::modulus_spec();
        C::lemma_modulus();
        lemma_inverse_layers_shape(
            self.inverse_twiddles(),
            q,
            x,
            self.log_n as nat,
            self.log_n as nat,
        );
        assert forall|i: int| 0 <= i < x.len() implies self.ntt_spec(x)[i] < q by {
            vstd::arithmetic::div_mod::lemma_mod_bound(
                poly_eval(x, self.root(i) as int),
                q as int,
            );
        }
        assert forall|i: int| 0 <= i < x.len() implies self.intt_spec(x)[i] < q by {
            let w = inverse_layers(
                self.inverse_twiddles(),
                q,
                x,
                self.log_n as nat,
                self.log_n as nat,
            );
            vstd::arithmetic::div_mod::lemma_mod_bound((w[i] * self.n_inv@) as int, q as int);
        }
    }

    /// The inverse transform undoes the forward transform: for every
    /// sequence `x` of `n` canonical values, `intt(ntt(x)) == x`.
    pub proof fn lemma_intt_of_ntt(&self, x: Seq<nat>)
        requires
            self.wf(),
            x.len() == self.degree_spec(),
            all_below(x, C::modulus_spec()),
        ensures
            self.intt_spec(self.ntt_spec(x)) == x,
    {
        self.lemma_network_is_transform(x);
        self.lemma_inverse_of_forward(x);
    }

    /// The forward transform undoes the inverse transform: for every
    /// sequence `y` of `n` canonical values, `ntt(intt(y)) == y`.
    pub proof fn lemma_ntt_of_intt(&self, y: Seq<nat>)
        requires
            self.wf(),
            y.len() == self.degree_spec(),
            all_below(y, C::modulus_spec()),
        ensures
            self.ntt_spec(self.intt_spec(y)) == y,
    {
        self.lemma_transform_shape(y);
        self.lemma_network_is_transform(self.intt_spec(y));
        self.lemma_forward_of_inverse(y);
    }

    /// What the butterfly network computes from `x`.
    pub open spec fn forward_network(&self, x: Seq<nat>) -> Seq<nat> {
        forward_layers(self.twiddles(), C::modulus_spec(), x, self.log_degree(), self.log_degree())
    }

    /// What the inverse network with its final scaling computes from `y`.
    pub open spec fn inverse_network(&self, y: Seq<nat>) -> Seq<nat> {
        scale_values(
            inverse_layers(
                self.inverse_twiddles(),
                C::modulus_spec(),
                y,
                self.log_degree(),
                self.log_degree(),
            ),
            self.degree_inverse(),
            C::modulus_spec(),
        )
    }

    /// The inverse network undoes the forward network.
    pub proof fn lemma_inverse_of_forward(&self, x: Seq<nat>)
        requires
            self.wf(),
            x.len() == self.degree_spec(),
            all_below(x, C::modulus_spec()),
        ensures
            self.inverse_network(self.forward_network(x)) == x,
    {
        let q = C::modulus_spec();
        let l = self.log_n as nat;
        let z = self.twiddles();
        let zi = self.inverse_twiddles();
        C::lemma_modulus();
        lemma_inverse_undoes_layers(z, zi, q, x, l, l);
        lemma_scale_twice(x, pow2(l), self.n_inv@, q);
        lemma_scale_by_unit(x, pow2(l) * self.n_inv@, q);
    }

    /// The forward network undoes the inverse network.
    pub proof fn lemma_forward_of_inverse(&self, y: Seq<nat>)
        requires
            self.wf(),
            y.len() == self.degree_spec(),
            all_below(y, C::modulus_spec()),
        ensures
            self.forward_network(self.inverse_network(y)) == y,
    {
        let q = C::modulus_spec();
        let l = self.log_n as nat;
        let z = self.twiddles();
        let zi = self.inverse_twiddles();
        C::lemma_modulus();
        let unscaled = inverse_layers(zi, q, y, l, l);
        lemma_inverse_layers_shape(zi, q, y, l, l);
        lemma_forward_layers_linear(z, q, unscaled, self.n_inv@, l, l);
        lemma_forward_undoes_layers(z, zi, q, y, l, l);
        lemma_scale_twice(y, pow2(l), self.n_inv@, q);
        lemma_scale_by_unit(y, pow2(l) * self.n_inv@, q);
    }

    /// The ring degree `n`.
    pub fn degree(&self) -> (n: usize)
        ensures
            n == self.degree_spec(),
    {
        self.n
    }

    /// One forward stage, in place.
    fn forward_pass(&self, data: &mut Vec<FieldElement<C>>, blocks: usize, half: usize)
        requires
            2 * half * blocks == self.n,
            old(data)@.len() == self.n,
            half >= 1,
        ensures
            final(data)@.len() == self.n,
            values(final(data)@) == forward_stage(
                self.twiddles(),
                C::modulus_spec(),
                values(old(data)@),
                blocks as int,
                half as int,
            ),
    {
        proof {
            use_type_invariant(self);
        }
        let ghost z = self.twiddles();
        let ghost q = C::modulus_spec();
        let ghost prev = values(data@);
        let mut b: usize = 0;
        while b < blocks
            invariant
                b <= blocks,
                half >= 1,
                2 * half * blocks == self.n,
                data@.len() == self.n,
                self.zetas@.len() == self.n,
                prev.len() == self.n,
                z == self.twiddles(),
                z.len() == self.n,
                q == C::modulus_spec(),
                forall|i: int|
                    0 <= i < 2 * half * b ==> (#[trigger] data@[i])@ == forward_at(
                        z,
                        q,
                        prev,
                        blocks as int,
                        half as int,
                        i,
                    ),
                forall|i: int| 2 * half * b <= i < self.n ==> (#[trigger] data@[i])@ == prev[i],
            decreases blocks - b,
        {
            assert(2 * half * b + 2 * half <= 2 * half * blocks) by (nonlinear_arith)
                requires
                    b < blocks,
                    half >= 1,
            ;
            assert(blocks + b < self.n) by (nonlinear_arith)
                requires
                    b < blocks,
                    half >= 1,
                    2 * half * blocks == self.n,
            ;
            let start: usize = 2 * half * b;
            let zeta = self.zetas[blocks + b];
            let mut j: usize = start;
            while j < start + half
                invariant
                    start <= j <= start + half,
                    start == 2 * half * b,
                    start + 2 * half <= self.n,
                    half >= 1,
                    b < blocks,
                    2 * half * blocks == self.n,
                    data@.len() == self.n,
                    prev.len() == self.n,
                    z.len() == self.n,
                    blocks + b < self.n,
                    q == C::modulus_spec(),
                    zeta@ == z[blocks + b],
                    forall|i: int|
                        0 <= i < start ==> (#[trigger] data@[i])@ == forward_at(
                            z,
                            q,
                            prev,
                            blocks as int,
                            half as int,
                            i,
                        ),
                    forall|i: int|
                        start <= i < j ==> (#[trigger] data@[i])@ == forward_at(
                            z,
                            q,
                            prev,
                            blocks as int,
                            half as int,
                            i,
                        ),
                    forall|i: int|
                        start + half <= i < j + half ==> (#[trigger] data@[i])@ == forward_at(
                            z,
                            q,
                            prev,
                            blocks as int,
                            half as int,
                            i,
                        ),
                    forall|i: int| j <= i < start + half ==> (#[trigger] data@[i])@ == prev[i],
                    forall|i: int| j + half <= i < self.n ==> (#[trigger] data@[i])@ == prev[i],
                decreases start + half - j,
            {
                let u = data[j];
                let v = data[j + half];
                let t = zeta.mul(v);
                let lo = u.add(t);
                let hi = u.sub(t);
                data[j] = lo;
                data[j + half] = hi;
                proof {
                    lemma_block_position(b as int, half as int, j - start);
                    lemma_block_position(b as int, half as int, j - start + half);
                }
                j += 1;
            }
            assert(2 * half * (b + 1) == start + 2 * half) by (nonlinear_arith)
                requires
                    start == 2 * half * b,
            ;
            b += 1;
        }
        assert(values(data@) =~= forward_stage(z, q, prev, blocks as int, half as int));
    }

    /// One inverse stage, in place.
    fn inverse_pass(&self, data: &mut Vec<FieldElement<C>>, blocks: usize, half: usize)
        requires
            2 * half * blocks == self.n,
            old(data)@.len() == self.n,
            half >= 1,
        ensures
            final(data)@.len() == self.n,
            values(final(data)@) == inverse_stage(
                self.inverse_twiddles(),
                C::modulus_spec(),
                values(old(data)@),
                blocks as int,
                half as int,
            ),
    {
        proof {
            use_type_invariant(self);
        }
        let ghost z = self.inverse_twiddles();
        let ghost q = C::modulus_spec();
        let ghost prev = values(data@);
        let mut b: usize = 0;
        while b < blocks
            invariant
                b <= blocks,
                half >= 1,
                2 * half * blocks == self.n,
                data@.len() == self.n,
                self.zetas_inv@.len() == self.n,
                prev.len() == self.n,
                z == self.inverse_twiddles(),
                z.len() == self.n,
                q == C::modulus_spec(),
                forall|i: int|
                    0 <= i < 2 * half * b ==> (#[trigger] data@[i])@ == inverse_at(
                        z,
                        q,
                        prev,
                        blocks as int,
                        half as int,
                        i,
                    ),
                forall|i: int| 2 * half * b <= i < self.n ==> (#[trigger] data@[i])@ == prev[i],
            decreases blocks - b,
        {
            assert(2 * half * b + 2 * half <= 2 * half * blocks) by (nonlinear_arith)
                requires
                    b < blocks,
                    half >= 1,
            ;
            assert(blocks + b < self.n) by (nonlinear_arith)
                requires
                    b < blocks,
                    half >= 1,
                    2 * half * blocks == self.n,
            ;
            let start: usize = 2 * half * b;
            let zeta = self.zetas_inv[blocks + b];
            let mut j: usize = start;
            while j < start + half
                invariant
                    start <= j <= start + half,
                    start == 2 * half * b,
                    start + 2 * half <= self.n,
                    half >= 1,
                    b < blocks,
                    2 * half * blocks == self.n,
                    data@.len() == self.n,
                    prev.len() == self.n,
                    z.len() == self.n,
                    blocks + b < self.n,
                    q == C::modulus_spec(),
                    zeta@ == z[blocks + b],
                    forall|i: int|
                        0 <= i < start ==> (#[trigger] data@[i])@ == inverse_at(
                            z,
                            q,
                            prev,
                            blocks as int,
                            half as int,
                            i,
                        ),
                    forall|i: int|
                        start <= i < j ==> (#[trigger] data@[i])@ == inverse_at(
                            z,
                            q,
                            prev,
                            blocks as int,
                            half as int,
                            i,
                        ),
                    forall|i: int|
                        start + half <= i < j + half ==> (#[trigger] data@[i])@ == inverse_at(
                            z,
                            q,
                            prev,
                            blocks as int,
                            half as int,
                            i,
                        ),
                    forall|i: int| j <= i < start + half ==> (#[trigger] data@[i])@ == prev[i],
                    forall|i: int| j + half <= i < self.n ==> (#[trigger] data@[i])@ == prev[i],
                decreases start + half - j,
            {
                let u = data[j];
                let v = data[j + half];
                let lo = u.add(v);
                let hi = u.sub(v).mul(zeta);
                data[j] = lo;
                data[j + half] = hi;
                proof {
                    lemma_block_position(b as int, half as int, j - start);
                    lemma_block_position(b as int, half as int, j - start + half);
                }
                j += 1;
            }
            assert(2 * half * (b + 1) == start + 2 * half) by (nonlinear_arith)
                requires
                    start == 2 * half * b,
            ;
            b += 1;
        }
        assert(values(data@) =~= inverse_stage(z, q, prev, blocks as int, half as int));
    }

    /// The forward transform, in place: `log2(n)` butterfly stages over
    /// the precomputed twiddles leave the values of the polynomial at the
    /// `n` roots of `X^n + 1`.
    pub fn ntt(&self, data: &mut Vec<FieldElement<C>>)
        requires
            old(data)@.len() == self.degree_spec(),
        ensures
            final(data)@.len() == old(data)@.len(),
            values(final(data)@) == self.ntt_spec(values(old(data)@)),
    {
        proof {
            use_type_invariant(self);
            lemma_values_canonical(data@);
            self.lemma_network_is_transform(values(data@));
        }
        self.forward_passes(data);
    }

    /// The butterfly network, stage by stage.
    fn forward_passes(&self, data: &mut Vec<FieldElement<C>>)
        requires
            old(data)@.len() == self.degree_spec(),
        ensures
            final(data)@.len() == old(data)@.len(),
            values(final(data)@) == self.forward_network(values(old(data)@)),
    {
        proof {
            use_type_invariant(self);
        }
        let ghost z = self.twiddles();
        let ghost q = C::modulus_spec();
        let ghost x = values(data@);
        let ghost log = self.log_n as nat;
        let mut s: u32 = 0;
        let mut blocks: usize = 1;
        let mut half: usize = self.n / 2;
        proof {
            vstd::arithmetic::power2::lemma2_to64();
            if log > 0 {
                lemma_pow2_unfold(log);
            }
        }
        while s < self.log_n
            invariant
                s <= self.log_n,
                log == self.log_n,
                self.n as nat == pow2(log),
                blocks as nat == pow2(s as nat),
                s < self.log_n ==> half as nat == pow2((log - 1 - s) as nat),
                data@.len() == self.n,
                z == self.twiddles(),
                q == C::modulus_spec(),
                values(data@) == forward_layers(z, q, x, log, s as nat),
            decreases self.log_n - s,
        {
            proof {
                lemma_pow2_pos((log - 1 - s) as nat);
                vstd::arithmetic::power2::lemma_pow2_adds(s as nat, (log - 1 - s) as nat);
                lemma_pow2_unfold(log);
                lemma_pow2_unfold((s + 1) as nat);
                assert(2 * half * blocks == self.n) by (nonlinear_arith)
                    requires
                        blocks as nat * half as nat == pow2((log - 1) as nat),
                        self.n as nat == 2 * pow2((log - 1) as nat),
                ;
                if s + 1 < self.log_n {
                    lemma_pow2_unfold((log - 1 - s) as nat);
                }
            }
            self.forward_pass(data, blocks, half);
            assert(2 * blocks <= self.n) by (nonlinear_arith)
                requires
                    2 * half * blocks == self.n,
                    half >= 1,
            ;
            blocks = blocks * 2;
            half = half / 2;
            s += 1;
        }
    }

    /// The inverse transform, in place: the stages undone last to first
    /// with the inverse twiddles, then every value scaled by `n^(-1)`.
    /// The result is the coefficient sequence whose forward transform is
    /// the input.
    pub fn intt(&self, data: &mut Vec<FieldElement<C>>)
        requires
            old(data)@.len() == self.degree_spec(),
        ensures
            final(data)@.len() == old(data)@.len(),
            values(final(data)@) == self.intt_spec(values(old(data)@)),
            self.ntt_spec(values(final(data)@)) == values(old(data)@),
    {
        proof {
            use_type_invariant(self);
            lemma_values_canonical(data@);
            self.lemma_ntt_of_intt(values(data@));
        }
        self.inverse_passes(data);
    }

    /// The inverse network, stage by stage, and the final scaling.
    fn inverse_passes(&self, data: &mut Vec<FieldElement<C>>)
        requires
            old(data)@.len() == self.degree_spec(),
        ensures
            final(data)@.len() == old(data)@.len(),
            values(final(data)@) == self.inverse_network(values(old(data)@)),
    {
        proof {
            use_type_invariant(self);
        }
        let ghost zi = self.inverse_twiddles();
        let ghost q = C::modulus_spec();
        let ghost y = values(data@);
        let ghost log = self.log_n as nat;
        let mut t: u32 = 0;
        let mut blocks: usize = self.n / 2;
        let mut half: usize = 1;
        proof {
            vstd::arithmetic::power2::lemma2_to64();
            if log > 0 {
                lemma_pow2_unfold(log);
            }
        }
        while t < self.log_n
            invariant
                t <= self.log_n,
                log == self.log_n,
                self.n as nat == pow2(log),
                half as nat == pow2(t as nat),
                t < self.log_n ==> blocks as nat == pow2((log - 1 - t) as nat),
                data@.len() == self.n,
                zi == self.inverse_twiddles(),
                q == C::modulus_spec(),
                values(data@) == inverse_layers(zi, q, y, log, t as nat),
            decreases self.log_n - t,
        {
            proof {
                lemma_pow2_pos(t as nat);
                lemma_pow2_pos((log - 1 - t) as nat);
                vstd::arithmetic::power2::lemma_pow2_adds(t as nat, (log - 1 - t) as nat);
                lemma_pow2_unfold(log);
                lemma_pow2_unfold((t + 1) as nat);
                assert(2 * half * blocks == self.n) by (nonlinear_arith)
                    requires
                        half as nat * blocks as nat == pow2((log - 1) as nat),
                        self.n as nat == 2 * pow2((log - 1) as nat),
                ;
                if t + 1 < self.log_n {
                    lemma_pow2_unfold((log - 1 - t) as nat);
                }
            }
            self.inverse_pass(data, blocks, half);
            assert(2 * half <= self.n) by (nonlinear_arith)
                requires
                    2 * half * blocks == self.n,
                    blocks >= 1,
            ;
            half = half * 2;
            blocks = blocks / 2;
            t += 1;
        }
        let ghost unscaled = values(data@);
        let mut i: usize = 0;
        while i < self.n
            invariant
                i <= self.n,
                data@.len() == self.n,
                unscaled.len() == self.n,
                q == C::modulus_spec(),
                forall|j: int|
                    0 <= j < i ==> (#[trigger] data@[j])@ == crate::field::modular::mul_mod(
                        unscaled[j],
                        self.n_inv@,
                        q,
                    ),
                forall|j: int| i <= j < self.n ==> (#[trigger] data@[j])@ == unscaled[j],
            decreases self.n - i,
        {
            let scaled = data[i].mul(self.n_inv);
            data[i] = scaled;
            i += 1;
        }
        assert(values(data@) =~= scale_values(unscaled, self.n_inv@, q));
    }
}

} // verus!
