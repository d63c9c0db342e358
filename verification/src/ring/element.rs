//! Ring elements with lazy conversion between coefficient and transform
//! representation.

use std::sync::Arc;
use vstd::prelude::*;
use vstd::std_specs::cmp::PartialEqSpecImpl;
use vstd::std_specs::ops::{AddSpecImpl, MulSpecImpl, NegSpecImpl, SubSpecImpl};
use crate::error::MathError;
use crate::field::config::FieldConfig;
use crate::field::element::FieldElement;
use crate::poly::ntt::{NttContext, values};
use crate::poly::stages::scale_values;
use crate::ring::pointwise::{
    add_vectors, all_zero, copy_of, filled, mul_vectors, neg_vector, pointwise_add, pointwise_mul,
    pointwise_neg, pointwise_sub, same_values, scale_vector, sub_vectors, unit_coefficients, zeros,
};

verus! {

/// The representation that a ring element's data is in.
#[derive(Clone, Copy, Debug, PartialEq, Eq, Structural)]
pub enum RingElementState {
    /// The data are the polynomial's coefficients, lowest degree first.
    Coefficient,
    /// The data are the polynomial's values at the roots of `X^n + 1`.
    Ntt,
}

/// A polynomial in `R_q`, with the context whose tables convert it.
#[derive(Debug)]
pub struct RingElement<C: FieldConfig> {
    data: Vec<FieldElement<C>>,
    state: RingElementState,
    ntt_ctx: Arc<NttContext<C>>,
}

impl<C: FieldConfig> RingElement<C> {
    /// The data has one value per coefficient of the ring degree, and the
    /// context's tables are well formed.
    pub closed spec fn wf(&self) -> bool {
        &&& self.data@.len() == self.ntt_ctx.degree_spec()
        &&& self.ntt_ctx.wf()
    }

    /// The canonical values of the data, whatever they represent.
    pub closed spec fn values(&self) -> Seq<nat> {
        values(self.data@)
    }

    /// The representation the data is in.
    pub closed spec fn state_spec(&self) -> RingElementState {
        self.state
    }

    /// The context.
    pub closed spec fn context_spec(&self) -> NttContext<C> {
        *self.ntt_ctx
    }

    /// The coefficients of the polynomial that the element denotes.
    pub open spec fn coefficient_values(&self) -> Seq<nat> {
        if self.state_spec() == RingElementState::Coefficient {
            self.values()
        } else {
            self.context_spec().intt_spec(self.values())
        }
    }

    /// The transform of the polynomial that the element denotes.
    pub open spec fn transform_values(&self) -> Seq<nat> {
        if self.state_spec() == RingElementState::Ntt {
            self.values()
        } else {
            self.context_spec().ntt_spec(self.values())
        }
    }

    /// The values that an additive operation reads from this operand when
    /// the other operand is in state `other`: as they are where the states
    /// agree, in coefficient form where they do not.
    pub open spec fn aligned_values(&self, other: RingElementState) -> Seq<nat> {
        if self.state_spec() == other {
            self.values()
        } else {
            self.coefficient_values()
        }
    }

    /// The state of an additive result: the operands' state where they
    /// agree, coefficient form where they do not.
    pub open spec fn common_state(&self, other: RingElementState) -> RingElementState {
        if self.state_spec() == other {
            other
        } else {
            RingElementState::Coefficient
        }
    }

    /// Whether two elements may be combined: both are well formed and are
    /// built against the very same context.
    pub open spec fn compatible(&self, other: &Self) -> bool {
        &&& self.wf()
        &&& other.wf()
        &&& self.context_spec().is_same(&other.context_spec())
    }

    /// Whether `self` is what [`Self::add`] makes of `a` and `b`.
    pub open spec fn is_sum_of(&self, a: &Self, b: &Self) -> bool {
        &&& self.wf()
        &&& self.context_spec() == a.context_spec()
        &&& self.state_spec() == a.common_state(b.state_spec())
        &&& self.values() == pointwise_add(
            a.aligned_values(b.state_spec()),
            b.aligned_values(a.state_spec()),
            C::modulus_spec(),
        )
    }

    /// Whether `self` is what [`Self::sub`] makes of `a` and `b`.
    pub open spec fn is_difference_of(&self, a: &Self, b: &Self) -> bool {
        &&& self.wf()
        &&& self.context_spec() == a.context_spec()
        &&& self.state_spec() == a.common_state(b.state_spec())
        &&& self.values() == pointwise_sub(
            a.aligned_values(b.state_spec()),
            b.aligned_values(a.state_spec()),
            C::modulus_spec(),
        )
    }

    /// Whether `self` is what [`Self::mul`] makes of `a` and `b`.
    pub open spec fn is_product_of(&self, a: &Self, b: &Self) -> bool {
        &&& self.wf()
        &&& self.context_spec() == a.context_spec()
        &&& self.state_spec() == RingElementState::Ntt
        &&& self.values() == pointwise_mul(
            a.transform_values(),
            b.transform_values(),
            C::modulus_spec(),
        )
    }

    /// Whether `self` is what [`Self::neg`] makes of `a`.
    pub open spec fn is_negation_of(&self, a: &Self) -> bool {
        &&& self.wf()
        &&& self.context_spec() == a.context_spec()
        &&& self.state_spec() == a.state_spec()
        &&& self.values() == pointwise_neg(a.values(), C::modulus_spec())
    }

    /// Whether `self` is `a` taken to transform representation.
    pub open spec fn is_ntt_form_of(&self, a: &Self) -> bool {
        &&& self.wf()
        &&& self.context_spec() == a.context_spec()
        &&& self.state_spec() == RingElementState::Ntt
        &&& self.values() == a.transform_values()
    }

    /// Whether `self` is `a` taken to coefficient representation.
    pub open spec fn is_coefficient_form_of(&self, a: &Self) -> bool {
        &&& self.wf()
        &&& self.context_spec() == a.context_spec()
        &&& self.state_spec() == RingElementState::Coefficient
        &&& self.values() == a.coefficient_values()
    }

    /// Every value lies in `[0, q)`, and there is one per coefficient.
    pub proof fn lemma_values(self)
        requires
            self.wf(),
        ensures
            self.context_spec().wf(),
            self.values().len() == self.context_spec().degree_spec(),
            forall|i: int| 0 <= i < self.values().len() ==> self.values()[i] < C::modulus_spec(),
    {
        assert forall|i: int| 0 <= i < self.values().len() implies self.values()[i]
            < C::modulus_spec() by {
            self.data@[i].lemma_view_bound();
        }
    }

    /// The polynomial with the given coefficients.
    pub fn new(coeffs: Vec<FieldElement<C>>, ctx: Arc<NttContext<C>>) -> (r: Self)
        requires
            coeffs@.len() == ctx.degree_spec(),
        ensures
            r.wf(),
            r.values() == values(coeffs@),
            r.state_spec() == RingElementState::Coefficient,
            r.context_spec() == *ctx,
    {
        proof {
            use_type_invariant(&*ctx);
        }
        RingElement { data: coeffs, state: RingElementState::Coefficient, ntt_ctx: ctx }
    }

    /// The polynomial with the given values in transform representation.
    pub fn from_ntt(ntt_values: Vec<FieldElement<C>>, ctx: Arc<NttContext<C>>) -> (r: Self)
        requires
            ntt_values@.len() == ctx.degree_spec(),
        ensures
            r.wf(),
            r.values() == values(ntt_values@),
            r.state_spec() == RingElementState::Ntt,
            r.context_spec() == *ctx,
    {
        proof {
            use_type_invariant(&*ctx);
        }
        RingElement { data: ntt_values, state: RingElementState::Ntt, ntt_ctx: ctx }
    }

    /// The polynomial with the given coefficients, or
    /// [`MathError::ConstructionError`] if there is not one coefficient
    /// per degree below `n`.
    pub fn try_new(coeffs: Vec<FieldElement<C>>, ctx: Arc<NttContext<C>>) -> (r: Result<
        Self,
        MathError,
    >)
        ensures
            match r {
                Ok(e) => coeffs@.len() == ctx.degree_spec() && e.wf() && e.values() == values(
                    coeffs@,
                ) && e.state_spec() == RingElementState::Coefficient && e.context_spec() == *ctx,
                Err(e) => coeffs@.len() != ctx.degree_spec() && e == MathError::ConstructionError,
            },
    {
        if coeffs.len() != ctx.degree() {
            Err(MathError::ConstructionError)
        } else {
            Ok(Self::new(coeffs, ctx))
        }
    }

    /// The polynomial with the given transform values, or
    /// [`MathError::ConstructionError`] if there are not `n` of them.
    pub fn try_from_ntt(ntt_values: Vec<FieldElement<C>>, ctx: Arc<NttContext<C>>) -> (r: Result<
        Self,
        MathError,
    >)
        ensures
            match r {
                Ok(e) => ntt_values@.len() == ctx.degree_spec() && e.wf() && e.values() == values(
                    ntt_values@,
                ) && e.state_spec() == RingElementState::Ntt && e.context_spec() == *ctx,
                Err(e) => ntt_values@.len() != ctx.degree_spec() && e
                    == MathError::ConstructionError,
            },
    {
        if ntt_values.len() != ctx.degree() {
            Err(MathError::ConstructionError)
        } else {
            Ok(Self::from_ntt(ntt_values, ctx))
        }
    }

    /// The zero polynomial.
    pub fn zero(ctx: Arc<NttContext<C>>) -> (r: Self)
        ensures
            r.wf(),
            r.values() == zeros(ctx.degree_spec()),
            r.state_spec() == RingElementState::Coefficient,
            r.context_spec() == *ctx,
    {
        let data = filled(FieldElement::<C>::zero(), ctx.degree());
        proof {
            use_type_invariant(&*ctx);
            assert(values(data@) =~= zeros(ctx.degree_spec()));
        }
        RingElement { data, state: RingElementState::Coefficient, ntt_ctx: ctx }
    }

    /// The constant polynomial 1.
    pub fn one(ctx: Arc<NttContext<C>>) -> (r: Self)
        ensures
            r.wf(),
            r.values() == unit_coefficients(ctx.degree_spec()),
            r.state_spec() == RingElementState::Coefficient,
            r.context_spec() == *ctx,
    {
        let n = ctx.degree();
        let mut data = filled(FieldElement::<C>::zero(), n);
        proof {
            use_type_invariant(&*ctx);
            ctx.lemma_degree_positive();
        }
        data[0] = FieldElement::<C>::one();
        assert(values(data@) =~= unit_coefficients(ctx.degree_spec()));
        RingElement { data, state: RingElementState::Coefficient, ntt_ctx: ctx }
    }

    /// The representation the data is in.
    pub fn state(&self) -> (s: RingElementState)
        ensures
            s == self.state_spec(),
    {
        self.state
    }

    /// The ring degree `n`.
    pub fn degree(&self) -> (n: usize)
        ensures
            n == self.context_spec().degree_spec(),
    {
        self.ntt_ctx.degree()
    }

    /// The shared context.
    pub fn context(&self) -> (ctx: &Arc<NttContext<C>>)
        ensures
            **ctx == self.context_spec(),
    {
        &self.ntt_ctx
    }

    /// Converts to transform representation in place; does nothing if
    /// already there.
    pub fn to_ntt(&mut self)
        requires
            old(self).wf(),
        ensures
            final(self).is_ntt_form_of(old(self)),
    {
        if self.state == RingElementState::Coefficient {
            self.ntt_ctx.ntt(&mut self.data);
            self.state = RingElementState::Ntt;
        }
    }

    /// Converts to coefficient representation in place; does nothing if
    /// already there.
    pub fn to_coefficient(&mut self)
        requires
            old(self).wf(),
        ensures
            final(self).is_coefficient_form_of(old(self)),
    {
        if self.state == RingElementState::Ntt {
            self.ntt_ctx.intt(&mut self.data);
            self.state = RingElementState::Coefficient;
        }
    }

    /// The element in transform representation.
    pub fn into_ntt(self) -> (r: Self)
        requires
            self.wf(),
        ensures
            r.is_ntt_form_of(&self),
    {
        let mut out = self;
        out.to_ntt();
        out
    }

    /// The element in coefficient representation.
    pub fn into_coefficient(self) -> (r: Self)
        requires
            self.wf(),
        ensures
            r.is_coefficient_form_of(&self),
    {
        let mut out = self;
        out.to_coefficient();
        out
    }

    /// A copy in coefficient representation.
    pub fn clone_to_coefficient(&self) -> (r: Self)
        requires
            self.wf(),
        ensures
            r.is_coefficient_form_of(&self),
    {
        let mut out = self.clone();
        out.to_coefficient();
        out
    }

    /// A copy in transform representation.
    pub fn clone_to_ntt(&self) -> (r: Self)
        requires
            self.wf(),
        ensures
            r.is_ntt_form_of(&self),
    {
        let mut out = self.clone();
        out.to_ntt();
        out
    }

    /// The coefficients, of an element in coefficient representation.
    pub fn coefficients(&self) -> (d: &[FieldElement<C>])
        requires
            self.state_spec() == RingElementState::Coefficient,
        ensures
            values(d@) == self.values(),
    {
        self.data.as_slice()
    }

    /// The transform values, of an element in transform representation.
    pub fn ntt_values(&self) -> (d: &[FieldElement<C>])
        requires
            self.state_spec() == RingElementState::Ntt,
        ensures
            values(d@) == self.values(),
    {
        self.data.as_slice()
    }

    /// The coefficients, or [`MathError::InvalidState`] if the element is
    /// in transform representation.
    pub fn try_coefficients(&self) -> (r: Result<&[FieldElement<C>], MathError>)
        ensures
            match r {
                Ok(d) => self.state_spec() == RingElementState::Coefficient && values(d@)
                    == self.values(),
                Err(e) => self.state_spec() != RingElementState::Coefficient && e
                    == MathError::InvalidState,
            },
    {
        if self.state == RingElementState::Coefficient {
            Ok(self.coefficients())
        } else {
            Err(MathError::InvalidState)
        }
    }

    /// The transform values, or [`MathError::InvalidState`] if the
    /// element is in coefficient representation.
    pub fn try_ntt_values(&self) -> (r: Result<&[FieldElement<C>], MathError>)
        ensures
            match r {
                Ok(d) => self.state_spec() == RingElementState::Ntt && values(d@) == self.values(),
                Err(e) => self.state_spec() != RingElementState::Ntt && e
                    == MathError::InvalidState,
            },
    {
        if self.state == RingElementState::Ntt {
            Ok(self.ntt_values())
        } else {
            Err(MathError::InvalidState)
        }
    }

    /// The raw data, whatever it represents.
    pub fn data(&self) -> (d: &[FieldElement<C>])
        ensures
            values(d@) == self.values(),
    {
        self.data.as_slice()
    }

    /// Mutable access to the raw data. The representation tag is not
    /// touched: the caller answers for what the new values mean.
    pub fn data_mut(&mut self) -> (d: &mut [FieldElement<C>])
        requires
            old(self).wf(),
        ensures
            values(d@) == old(self).values(),
            final(self).values() == values(final(d)@),
            final(self).state_spec() == old(self).state_spec(),
            final(self).context_spec() == old(self).context_spec(),
            final(d)@.len() == d@.len() ==> final(self).wf(),
    {
        self.data.as_mut_slice()
    }

    /// Whether every value of the data is zero.
    pub fn is_zero(&self) -> (r: bool)
        ensures
            r == (self.values() == zeros(self.values().len())),
    {
        all_zero(&self.data)
    }

    /// Every value times `scalar`, in the same representation.
    pub fn scale(&self, scalar: &FieldElement<C>) -> (r: Self)
        requires
            self.wf(),
        ensures
            r.wf(),
            r.state_spec() == self.state_spec(),
            r.context_spec() == self.context_spec(),
            r.values() == scale_values(self.values(), scalar@, C::modulus_spec()),
    {
        let data = scale_vector(&self.data, scalar);
        RingElement { data, state: self.state, ntt_ctx: self.ntt_ctx.clone() }
    }

    /// The data as an additive operation with an operand in state `other`
    /// reads it.
    fn aligned_data(&self, other: RingElementState) -> (r: Vec<FieldElement<C>>)
        requires
            self.wf(),
        ensures
            r@.len() == self.context_spec().degree_spec(),
            values(r@) == self.aligned_values(other),
    {
        if self.state == other {
            copy_of(&self.data)
        } else {
            let converted = self.clone_to_coefficient();
            converted.data
        }
    }

    /// The sum. Operands in one representation are added as they are; if
    /// the representations differ, the one in transform representation is
    /// converted to coefficients first.
    pub fn add(&self, rhs: &Self) -> (r: Self)
        requires
            self.compatible(rhs),
        ensures
            r.is_sum_of(self, rhs),
    {
        let left = self.aligned_data(rhs.state);
        let right = rhs.aligned_data(self.state);
        let data = add_vectors(&left, &right);
        let state = if self.state == rhs.state {
            self.state
        } else {
            RingElementState::Coefficient
        };
        RingElement { data, state, ntt_ctx: self.ntt_ctx.clone() }
    }

    /// The difference, with the representations aligned as for a sum.
    pub fn sub(&self, rhs: &Self) -> (r: Self)
        requires
            self.compatible(rhs),
        ensures
            r.is_difference_of(self, rhs),
    {
        let left = self.aligned_data(rhs.state);
        let right = rhs.aligned_data(self.state);
        let data = sub_vectors(&left, &right);
        let state = if self.state == rhs.state {
            self.state
        } else {
            RingElementState::Coefficient
        };
        RingElement { data, state, ntt_ctx: self.ntt_ctx.clone() }
    }

    /// The product, in transform representation: both operands are taken
    /// to transform representation and multiplied value by value.
    pub fn mul(&self, rhs: &Self) -> (r: Self)
        requires
            self.compatible(rhs),
        ensures
            r.is_product_of(self, rhs),
    {
        let left = self.clone_to_ntt();
        let right = rhs.clone_to_ntt();
        let data = mul_vectors(&left.data, &right.data);
        RingElement { data, state: RingElementState::Ntt, ntt_ctx: self.ntt_ctx.clone() }
    }

    /// Whether `other` is built against the very same context.
    pub fn shares_context(&self, other: &Self) -> (r: bool)
        ensures
            r == self.context_spec().is_same(&other.context_spec()),
    {
        self.ntt_ctx.same_context(&other.ntt_ctx)
    }

    /// The sum, or [`MathError::ConfigurationMismatch`] if the operands
    /// are built against different contexts.
    pub fn checked_add(&self, rhs: &Self) -> (r: Result<Self, MathError>)
        requires
            self.wf(),
            rhs.wf(),
        ensures
            match r {
                Ok(e) => self.compatible(rhs) && e.is_sum_of(self, rhs),
                Err(e) => !self.compatible(rhs) && e == MathError::ConfigurationMismatch,
            },
    {
        if self.shares_context(rhs) {
            Ok(self.add(rhs))
        } else {
            Err(MathError::ConfigurationMismatch)
        }
    }

    /// The difference, or [`MathError::ConfigurationMismatch`] if the
    /// operands are built against different contexts.
    pub fn checked_sub(&self, rhs: &Self) -> (r: Result<Self, MathError>)
        requires
            self.wf(),
            rhs.wf(),
        ensures
            match r {
                Ok(e) => self.compatible(rhs) && e.is_difference_of(self, rhs),
                Err(e) => !self.compatible(rhs) && e == MathError::ConfigurationMismatch,
            },
    {
        if self.shares_context(rhs) {
            Ok(self.sub(rhs))
        } else {
            Err(MathError::ConfigurationMismatch)
        }
    }

    /// The product, or [`MathError::ConfigurationMismatch`] if the
    /// operands are built against different contexts.
    pub fn checked_mul(&self, rhs: &Self) -> (r: Result<Self, MathError>)
        requires
            self.wf(),
            rhs.wf(),
        ensures
            match r {
                Ok(e) => self.compatible(rhs) && e.is_product_of(self, rhs),
                Err(e) => !self.compatible(rhs) && e == MathError::ConfigurationMismatch,
            },
    {
        if self.shares_context(rhs) {
            Ok(self.mul(rhs))
        } else {
            Err(MathError::ConfigurationMismatch)
        }
    }

    /// The negation, in the same representation.
    pub fn neg(&self) -> (r: Self)
        requires
            self.wf(),
        ensures
            r.is_negation_of(self),
    {
        let data = neg_vector(&self.data);
        RingElement { data, state: self.state, ntt_ctx: self.ntt_ctx.clone() }
    }
}

impl<'a, C: FieldConfig> core::ops::Add<&'a RingElement<C>> for &'a RingElement<C> {
    type Output = RingElement<C>;

    /// `&a + &b`: see [`RingElement::add`].
    fn add(self, rhs: &'a RingElement<C>) -> (r: RingElement<C>)
        ensures
            r.is_sum_of(self, rhs),
    {
        RingElement::add(self, rhs)
    }
}

impl<'a, C: FieldConfig> AddSpecImpl<&'a RingElement<C>> for &'a RingElement<C> {
    /// The sum is told by what it holds, not by one value: two results
    /// may differ in what the logic cannot see.
    open spec fn obeys_add_spec() -> bool {
        false
    }

    /// `+` asks for operands of the very same context.
    open spec fn add_req(self, rhs: &'a RingElement<C>) -> bool {
        self.compatible(rhs)
    }

    /// Some element that is the sum.
    open spec fn add_spec(self, rhs: &'a RingElement<C>) -> RingElement<C> {
        choose|r: RingElement<C>| r.is_sum_of(self, rhs)
    }
}

impl<'a, C: FieldConfig> core::ops::Sub<&'a RingElement<C>> for &'a RingElement<C> {
    type Output = RingElement<C>;

    /// `&a - &b`: see [`RingElement::sub`].
    fn sub(self, rhs: &'a RingElement<C>) -> (r: RingElement<C>)
        ensures
            r.is_difference_of(self, rhs),
    {
        RingElement::sub(self, rhs)
    }
}

impl<'a, C: FieldConfig> SubSpecImpl<&'a RingElement<C>> for &'a RingElement<C> {
    /// The difference is told by what it holds, not by one value.
    open spec fn obeys_sub_spec() -> bool {
        false
    }

    /// `-` asks for operands of the very same context.
    open spec fn sub_req(self, rhs: &'a RingElement<C>) -> bool {
        self.compatible(rhs)
    }

    /// Some element that is the difference.
    open spec fn sub_spec(self, rhs: &'a RingElement<C>) -> RingElement<C> {
        choose|r: RingElement<C>| r.is_difference_of(self, rhs)
    }
}

impl<'a, C: FieldConfig> core::ops::Mul<&'a RingElement<C>> for &'a RingElement<C> {
    type Output = RingElement<C>;

    /// `&a * &b`: see [`RingElement::mul`].
    fn mul(self, rhs: &'a RingElement<C>) -> (r: RingElement<C>)
        ensures
            r.is_product_of(self, rhs),
    {
        RingElement::mul(self, rhs)
    }
}

impl<'a, C: FieldConfig> MulSpecImpl<&'a RingElement<C>> for &'a RingElement<C> {
    /// The product is told by what it holds, not by one value.
    open spec fn obeys_mul_spec() -> bool {
        false
    }

    /// `*` asks for operands of the very same context.
    open spec fn mul_req(self, rhs: &'a RingElement<C>) -> bool {
        self.compatible(rhs)
    }

    /// Some element that is the product.
    open spec fn mul_spec(self, rhs: &'a RingElement<C>) -> RingElement<C> {
        choose|r: RingElement<C>| r.is_product_of(self, rhs)
    }
}

impl<'a, C: FieldConfig> core::ops::Neg for &'a RingElement<C> {
    type Output = RingElement<C>;

    /// `-&a`: see [`RingElement::neg`].
    fn neg(self) -> (r: RingElement<C>)
        ensures
            r.is_negation_of(self),
    {
        RingElement::neg(self)
    }
}

impl<'a, C: FieldConfig> NegSpecImpl for &'a RingElement<C> {
    /// The negation is told by what it holds, not by one value.
    open spec fn obeys_neg_spec() -> bool {
        false
    }

    /// `-` asks for a well-formed operand.
    open spec fn neg_req(self) -> bool {
        self.wf()
    }

    /// Some element that is the negation.
    open spec fn neg_spec(self) -> RingElement<C> {
        choose|r: RingElement<C>| r.is_negation_of(self)
    }
}

impl<C: FieldConfig> Clone for RingElement<C> {
    /// A copy with its own data, sharing the context.
    fn clone(&self) -> (r: Self)
        ensures
            r.wf() == self.wf(),
            r.values() == self.values(),
            r.state_spec() == self.state_spec(),
            r.context_spec() == self.context_spec(),
    {
        RingElement { data: copy_of(&self.data), state: self.state, ntt_ctx: self.ntt_ctx.clone() }
    }
}

impl<C: FieldConfig> PartialEq for RingElement<C> {
    /// Whether both elements are built against the very same context and
    /// denote the same polynomial, whatever representation each is in.
    fn eq(&self, other: &Self) -> (r: bool) {
        let n = self.ntt_ctx.degree();
        if !self.ntt_ctx.same_context(&other.ntt_ctx) || self.data.len() != n || other.data.len()
            != n {
            return false;
        }
        proof {
            use_type_invariant(&*self.ntt_ctx);
            use_type_invariant(&*other.ntt_ctx);
        }
        let left = self.clone_to_coefficient();
        let right = other.clone_to_coefficient();
        same_values(&left.data, &right.data)
    }
}

impl<C: FieldConfig> Eq for RingElement<C> {

}

impl<C: FieldConfig> PartialEqSpecImpl for RingElement<C> {
    open spec fn obeys_eq_spec() -> bool {
        true
    }

    /// `==` holds of two well-formed elements that are built against the
    /// very same context and denote the same polynomial.
    open spec fn eq_spec(&self, other: &RingElement<C>) -> bool {
        &&& self.compatible(other)
        &&& self.coefficient_values() == other.coefficient_values()
    }
}

} // verus!
