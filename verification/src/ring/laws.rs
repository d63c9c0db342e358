//! Laws of ring-element arithmetic.

use vstd::prelude::*;
use vstd::std_specs::cmp::PartialEqSpec;
use vstd::arithmetic::div_mod::{lemma_mod_self_0, lemma_small_mod};
use crate::field::config::FieldConfig;
use crate::field::modular::{add_mod, neg_mod};
use crate::poly::convolution::{convolution_sum, lemma_product_eval, negacyclic_product};
use crate::poly::evaluation::poly_eval;
use crate::poly::ntt::NttContext;
use crate::ring::element::{RingElement, RingElementState};
use crate::ring::pointwise::{pointwise_add, pointwise_mul, pointwise_neg, zeros};

verus! {

/// Adding 0 changes no canonical value.
pub proof fn lemma_add_zeros(x: Seq<nat>, q: nat)
    requires
        q > 0,
        forall|i: int| 0 <= i < x.len() ==> x[i] < q,
    ensures
        pointwise_add(x, zeros(x.len()), q) == x,
{
    assert forall|i: int| 0 <= i < x.len() implies add_mod(x[i], 0, q) == x[i] by {
        lemma_small_mod(x[i], q);
    }
    assert(pointwise_add(x, zeros(x.len()), q) =~= x);
}

/// A canonical value and its negation add up to 0.
pub proof fn lemma_add_negated(x: Seq<nat>, q: nat)
    requires
        q > 0,
        forall|i: int| 0 <= i < x.len() ==> x[i] < q,
    ensures
        pointwise_add(x, pointwise_neg(x, q), q) == zeros(x.len()),
{
    assert forall|i: int| 0 <= i < x.len() implies add_mod(x[i], neg_mod(x[i], q), q) == 0 by {
        if x[i] == 0 {
            lemma_small_mod(0, q);
        } else {
            lemma_small_mod((q - x[i]) as nat, q);
            crate::field::modular::lemma_shift_congruent(0 - x[i], 1, q as int);
            lemma_mod_self_0(q as int);
        }
    }
    assert(pointwise_add(x, pointwise_neg(x, q), q) =~= zeros(x.len()));
}

/// `a + 0 == a`: the sum of an element and the zero polynomial of its
/// context equals the element, whatever representation the element is in.
pub proof fn lemma_zero_is_neutral<C: FieldConfig>(
    a: RingElement<C>,
    zero: RingElement<C>,
    sum: RingElement<C>,
)
    requires
        a.wf(),
        zero.wf(),
        zero.context_spec() == a.context_spec(),
        zero.state_spec() == RingElementState::Coefficient,
        zero.values() == zeros(a.context_spec().degree_spec()),
        sum.is_sum_of(&a, &zero),
    ensures
        sum.eq_spec(&a),
{
    C::lemma_modulus();
    a.lemma_values();
    if a.state_spec() == RingElementState::Coefficient {
        lemma_add_zeros(a.values(), C::modulus_spec());
    } else {
        a.context_spec().lemma_transform_shape(a.values());
        lemma_add_zeros(a.coefficient_values(), C::modulus_spec());
    }
}

/// `a + (-a) == 0`: the sum of an element and its negation has all
/// values zero, whatever representation the element is in.
pub proof fn lemma_negation_cancels<C: FieldConfig>(
    a: RingElement<C>,
    negated: RingElement<C>,
    sum: RingElement<C>,
)
    requires
        a.wf(),
        negated.is_negation_of(&a),
        sum.is_sum_of(&a, &negated),
    ensures
        sum.values() == zeros(a.context_spec().degree_spec()),
        sum.state_spec() == a.state_spec(),
{
    C::lemma_modulus();
    a.lemma_values();
    lemma_add_negated(a.values(), C::modulus_spec());
}

/// Equality does not depend on the representation: an element equals what
/// it becomes in transform representation.
pub proof fn lemma_equal_across_states<C: FieldConfig>(a: RingElement<C>, b: RingElement<C>)
    requires
        a.wf(),
        b.is_ntt_form_of(&a),
    ensures
        a.eq_spec(&b),
        b.eq_spec(&a),
{
    a.lemma_values();
    if a.state_spec() == RingElementState::Coefficient {
        a.context_spec().lemma_intt_of_ntt(a.values());
    }
}

/// Equality does not depend on the representation: an element equals what
/// it becomes in coefficient representation.
pub proof fn lemma_equal_to_coefficient_form<C: FieldConfig>(a: RingElement<C>, b: RingElement<C>)
    requires
        a.wf(),
        b.is_coefficient_form_of(&a),
    ensures
        a.eq_spec(&b),
        b.eq_spec(&a),
{
}

/// Converting to transform representation and back gives the values one
/// started from.
pub proof fn lemma_roundtrip<C: FieldConfig>(
    a: RingElement<C>,
    b: RingElement<C>,
    c: RingElement<C>,
)
    requires
        a.wf(),
        a.state_spec() == RingElementState::Coefficient,
        b.is_ntt_form_of(&a),
        c.is_coefficient_form_of(&b),
    ensures
        c.values() == a.values(),
{
    a.lemma_values();
    a.context_spec().lemma_intt_of_ntt(a.values());
}

/// The convolution theorem: the transform of a negacyclic product is the
/// product, value by value, of the transforms.
pub proof fn lemma_transform_of_product<C: FieldConfig>(
    ctx: NttContext<C>,
    a: Seq<nat>,
    b: Seq<nat>,
)
    requires
        ctx.wf(),
        a.len() == ctx.degree_spec(),
        b.len() == ctx.degree_spec(),
    ensures
        ctx.ntt_spec(negacyclic_product(a, b, C::modulus_spec())) == pointwise_mul(
            ctx.ntt_spec(a),
            ctx.ntt_spec(b),
            C::modulus_spec(),
        ),
{
    let q = C::modulus_spec();
    C::lemma_modulus();
    ctx.lemma_degree_positive();
    let c = negacyclic_product(a, b, q);
    let left = ctx.ntt_spec(c);
    let right = pointwise_mul(ctx.ntt_spec(a), ctx.ntt_spec(b), q);
    assert forall|i: int| 0 <= i < a.len() implies left[i] == right[i] by {
        let r = ctx.root(i) as int;
        ctx.lemma_root_power(i);
        lemma_product_eval(a, b, r, q);
        vstd::arithmetic::div_mod::lemma_mul_mod_noop(poly_eval(a, r), poly_eval(b, r), q as int);
        vstd::arithmetic::div_mod::lemma_mod_bound(poly_eval(a, r), q as int);
        vstd::arithmetic::div_mod::lemma_mod_bound(poly_eval(b, r), q as int);
        vstd::arithmetic::div_mod::lemma_mod_bound(poly_eval(c, r), q as int);
    }
    assert(left =~= right);
}

/// The transform of the polynomial that an element denotes is what the
/// element holds in transform representation.
pub proof fn lemma_transform_of_coefficients<C: FieldConfig>(a: RingElement<C>)
    requires
        a.wf(),
    ensures
        a.context_spec().ntt_spec(a.coefficient_values()) == a.transform_values(),
        a.coefficient_values().len() == a.context_spec().degree_spec(),
{
    a.lemma_values();
    a.context_spec().lemma_transform_shape(a.values());
    if a.state_spec() == RingElementState::Ntt {
        a.context_spec().lemma_ntt_of_intt(a.values());
    }
}

/// A product, taken to coefficient representation, is the negacyclic
/// convolution of the operands' coefficients.
pub proof fn lemma_product_is_convolution<C: FieldConfig>(
    a: RingElement<C>,
    b: RingElement<C>,
    product: RingElement<C>,
)
    requires
        a.wf(),
        b.wf(),
        a.context_spec() == b.context_spec(),
        product.is_product_of(&a, &b),
    ensures
        product.state_spec() == RingElementState::Ntt,
        product.coefficient_values() == negacyclic_product(
            a.coefficient_values(),
            b.coefficient_values(),
            C::modulus_spec(),
        ),
{
    let ctx = a.context_spec();
    let q = C::modulus_spec();
    C::lemma_modulus();
    a.lemma_values();
    lemma_transform_of_coefficients(a);
    lemma_transform_of_coefficients(b);
    let c = negacyclic_product(a.coefficient_values(), b.coefficient_values(), q);
    lemma_transform_of_product(ctx, a.coefficient_values(), b.coefficient_values());
    assert forall|k: int| 0 <= k < c.len() implies c[k] < q by {
        vstd::arithmetic::div_mod::lemma_mod_bound(
            convolution_sum(
                a.coefficient_values(),
                b.coefficient_values(),
                k,
                a.coefficient_values().len(),
            ),
            q as int,
        );
    }
    ctx.lemma_intt_of_ntt(c);
}

} // verus!
