//! Elementwise operations on vectors of field elements.

use vstd::prelude::*;
use crate::field::config::FieldConfig;
use crate::field::element::FieldElement;
use crate::field::modular::{add_mod, mul_mod, neg_mod, sub_mod};
use crate::poly::ntt::values;

verus! {

/// `a[i] + b[i]` at every position.
pub open spec fn pointwise_add(a: Seq<nat>, b: Seq<nat>, q: nat) -> Seq<nat> {
    Seq::new(a.len(), |i: int| add_mod(a[i], b[i], q))
}

/// `a[i] - b[i]` at every position.
pub open spec fn pointwise_sub(a: Seq<nat>, b: Seq<nat>, q: nat) -> Seq<nat> {
    Seq::new(a.len(), |i: int| sub_mod(a[i], b[i], q))
}

/// `a[i] * b[i]` at every position.
pub open spec fn pointwise_mul(a: Seq<nat>, b: Seq<nat>, q: nat) -> Seq<nat> {
    Seq::new(a.len(), |i: int| mul_mod(a[i], b[i], q))
}

/// `-a[i]` at every position.
pub open spec fn pointwise_neg(a: Seq<nat>, q: nat) -> Seq<nat> {
    Seq::new(a.len(), |i: int| neg_mod(a[i], q))
}

/// `n` zeros.
pub open spec fn zeros(n: nat) -> Seq<nat> {
    Seq::new(n, |i: int| 0nat)
}

/// 1 followed by `n - 1` zeros: the coefficients of the constant polynomial 1.
pub open spec fn unit_coefficients(n: nat) -> Seq<nat> {
    Seq::new(n, |i: int| if i == 0 { 1nat } else { 0nat })
}

/// A copy of a vector.
pub fn copy_of<C: FieldConfig>(v: &Vec<FieldElement<C>>) -> (r: Vec<FieldElement<C>>)
    ensures
        r@ == v@,
{
    let mut out: Vec<FieldElement<C>> = Vec::new();
    let mut i: usize = 0;
    while i < v.len()
        invariant
            i <= v@.len(),
            out@.len() == i,
            forall|j: int| 0 <= j < i ==> out@[j] == v@[j],
        decreases v@.len() - i,
    {
        out.push(v[i]);
        i += 1;
    }
    assert(out@ =~= v@);
    out
}

/// `n` copies of one element.
pub fn filled<C: FieldConfig>(e: FieldElement<C>, n: usize) -> (r: Vec<FieldElement<C>>)
    ensures
        r@.len() == n,
        forall|i: int| 0 <= i < n ==> r@[i] == e,
{
    let mut out: Vec<FieldElement<C>> = Vec::new();
    let mut i: usize = 0;
    while i < n
        invariant
            i <= n,
            out@.len() == i,
            forall|j: int| 0 <= j < i ==> out@[j] == e,
        decreases n - i,
    {
        out.push(e);
        i += 1;
    }
    out
}

/// The elementwise sum of two vectors of one length.
pub fn add_vectors<C: FieldConfig>(a: &Vec<FieldElement<C>>, b: &Vec<FieldElement<C>>) -> (r: Vec<
    FieldElement<C>,
>)
    requires
        a@.len() == b@.len(),
    ensures
        r@.len() == a@.len(),
        values(r@) == pointwise_add(values(a@), values(b@), C::modulus_spec()),
{
    let mut out: Vec<FieldElement<C>> = Vec::new();
    let mut i: usize = 0;
    while i < a.len()
        invariant
            i <= a@.len(),
            a@.len() == b@.len(),
            out@.len() == i,
            forall|j: int|
                0 <= j < i ==> (#[trigger] out@[j])@ == add_mod(a@[j]@, b@[j]@, C::modulus_spec()),
        decreases a@.len() - i,
    {
        out.push(a[i].add(b[i]));
        i += 1;
    }
    assert(values(out@) =~= pointwise_add(values(a@), values(b@), C::modulus_spec()));
    out
}

/// The elementwise difference of two vectors of one length.
pub fn sub_vectors<C: FieldConfig>(a: &Vec<FieldElement<C>>, b: &Vec<FieldElement<C>>) -> (r: Vec<
    FieldElement<C>,
>)
    requires
        a@.len() == b@.len(),
    ensures
        r@.len() == a@.len(),
        values(r@) == pointwise_sub(values(a@), values(b@), C::modulus_spec()),
{
    let mut out: Vec<FieldElement<C>> = Vec::new();
    let mut i: usize = 0;
    while i < a.len()
        invariant
            i <= a@.len(),
            a@.len() == b@.len(),
            out@.len() == i,
            forall|j: int|
                0 <= j < i ==> (#[trigger] out@[j])@ == sub_mod(a@[j]@, b@[j]@, C::modulus_spec()),
        decreases a@.len() - i,
    {
        out.push(a[i].sub(b[i]));
        i += 1;
    }
    assert(values(out@) =~= pointwise_sub(values(a@), values(b@), C::modulus_spec()));
    out
}

/// The elementwise product of two vectors of one length.
pub fn mul_vectors<C: FieldConfig>(a: &Vec<FieldElement<C>>, b: &Vec<FieldElement<C>>) -> (r: Vec<
    FieldElement<C>,
>)
    requires
        a@.len() == b@.len(),
    ensures
        r@.len() == a@.len(),
        values(r@) == pointwise_mul(values(a@), values(b@), C::modulus_spec()),
{
    let mut out: Vec<FieldElement<C>> = Vec::new();
    let mut i: usize = 0;
    while i < a.len()
        invariant
            i <= a@.len(),
            a@.len() == b@.len(),
            out@.len() == i,
            forall|j: int|
                0 <= j < i ==> (#[trigger] out@[j])@ == mul_mod(a@[j]@, b@[j]@, C::modulus_spec()),
        decreases a@.len() - i,
    {
        out.push(a[i].mul(b[i]));
        i += 1;
    }
    assert(values(out@) =~= pointwise_mul(values(a@), values(b@), C::modulus_spec()));
    out
}

/// The elementwise negation of a vector.
pub fn neg_vector<C: FieldConfig>(a: &Vec<FieldElement<C>>) -> (r: Vec<FieldElement<C>>)
    ensures
        r@.len() == a@.len(),
        values(r@) == pointwise_neg(values(a@), C::modulus_spec()),
{
    let mut out: Vec<FieldElement<C>> = Vec::new();
    let mut i: usize = 0;
    while i < a.len()
        invariant
            i <= a@.len(),
            out@.len() == i,
            forall|j: int| 0 <= j < i ==> (#[trigger] out@[j])@ == neg_mod(a@[j]@, C::modulus_spec()),
        decreases a@.len() - i,
    {
        out.push(a[i].neg());
        i += 1;
    }
    assert(values(out@) =~= pointwise_neg(values(a@), C::modulus_spec()));
    out
}

/// Every element of a vector times one scalar.
pub fn scale_vector<C: FieldConfig>(a: &Vec<FieldElement<C>>, scalar: &FieldElement<C>) -> (r: Vec<
    FieldElement<C>,
>)
    ensures
        r@.len() == a@.len(),
        values(r@) == crate::poly::stages::scale_values(values(a@), scalar@, C::modulus_spec()),
{
    let mut out: Vec<FieldElement<C>> = Vec::new();
    let mut i: usize = 0;
    while i < a.len()
        invariant
            i <= a@.len(),
            out@.len() == i,
            forall|j: int|
                0 <= j < i ==> (#[trigger] out@[j])@ == mul_mod(a@[j]@, scalar@, C::modulus_spec()),
        decreases a@.len() - i,
    {
        out.push(a[i].mul(*scalar));
        i += 1;
    }
    assert(values(out@) =~= crate::poly::stages::scale_values(
        values(a@),
        scalar@,
        C::modulus_spec(),
    ));
    out
}

/// Whether every element of a vector is zero.
pub fn all_zero<C: FieldConfig>(a: &Vec<FieldElement<C>>) -> (r: bool)
    ensures
        r == (values(a@) == zeros(a@.len())),
{
    let mut i: usize = 0;
    while i < a.len()
        invariant
            i <= a@.len(),
            forall|j: int| 0 <= j < i ==> (#[trigger] a@[j])@ == 0,
        decreases a@.len() - i,
    {
        if !a[i].is_zero() {
            assert(values(a@)[i as int] != zeros(a@.len())[i as int]);
            return false;
        }
        i += 1;
    }
    assert(values(a@) =~= zeros(a@.len()));
    true
}

/// Whether two vectors of one length hold the same canonical values.
pub fn same_values<C: FieldConfig>(a: &Vec<FieldElement<C>>, b: &Vec<FieldElement<C>>) -> (r: bool)
    requires
        a@.len() == b@.len(),
    ensures
        r == (values(a@) == values(b@)),
{
    let mut i: usize = 0;
    while i < a.len()
        invariant
            i <= a@.len(),
            a@.len() == b@.len(),
            forall|j: int| 0 <= j < i ==> (#[trigger] a@[j])@ == b@[j]@,
        decreases a@.len() - i,
    {
        let x = a[i].to_u1024();
        let y = b[i].to_u1024();
        proof {
            if x@ == y@ {
                x.lemma_value_injective(y);
            }
        }
        if !(x == y) {
            assert(values(a@)[i as int] != values(b@)[i as int]);
            return false;
        }
        i += 1;
    }
    assert(values(a@) =~= values(b@));
    true
}

} // verus!
