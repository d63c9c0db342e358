use std::sync::Arc;

use mathlib::field::config::DefaultFieldConfig;
use mathlib::field::element::FieldElement;
use mathlib::poly::ntt::NttContext;
use mathlib::ring::element::{RingElement, RingElementState};

type Fe = FieldElement<DefaultFieldConfig>;

fn make_ctx() -> Arc<NttContext<DefaultFieldConfig>> {
    Arc::new(NttContext::new(8).unwrap())
}

fn fp(v: u64) -> Fe {
    Fe::from_u64(v)
}

#[test]
fn test_ring_element_zero() {
    let ctx = make_ctx();
    let zero = RingElement::<DefaultFieldConfig>::zero(ctx);
    assert!(zero.is_zero());
    assert_eq!(zero.state(), RingElementState::Coefficient);
}

#[test]
fn test_ring_element_one() {
    let ctx = make_ctx();
    let one = RingElement::<DefaultFieldConfig>::one(ctx);
    assert!(!one.is_zero());
    assert_eq!(one.coefficients()[0].to_u1024().0[0], 1);
}

#[test]
fn test_ntt_roundtrip() {
    let ctx = make_ctx();
    let coeffs: Vec<_> = (0..8).map(|i| fp(i as u64)).collect();
    let original_vals: Vec<_> = coeffs.iter().map(|c| c.to_u1024()).collect();

    let mut elem = RingElement::new(coeffs, ctx);
    elem.to_ntt();
    assert_eq!(elem.state(), RingElementState::Ntt);

    elem.to_coefficient();
    assert_eq!(elem.state(), RingElementState::Coefficient);

    for (a, b) in original_vals.iter().zip(elem.coefficients().iter()) {
        assert_eq!(*a, b.to_u1024());
    }
}

#[test]
fn test_addition() {
    let ctx = make_ctx();
    let a = RingElement::new((0..8).map(|i| fp(i as u64)).collect(), ctx.clone());
    let b = RingElement::new((0..8).map(|i| fp((i + 1) as u64)).collect(), ctx);

    let sum = &a + &b;
    let coeffs = sum.clone_to_coefficient();

    for (i, c) in coeffs.coefficients().iter().enumerate() {
        let expected = (i + (i + 1)) as u64;
        assert_eq!(c.to_u1024().0[0], expected);
    }
}

#[test]
fn test_subtraction() {
    let ctx = make_ctx();
    let a = RingElement::new((0..8).map(|i| fp((i * 2) as u64)).collect(), ctx.clone());
    let b = RingElement::new((0..8).map(|i| fp(i as u64)).collect(), ctx);

    let diff = &a - &b;
    let coeffs = diff.clone_to_coefficient();

    for (i, c) in coeffs.coefficients().iter().enumerate() {
        assert_eq!(c.to_u1024().0[0], i as u64);
    }
}

#[test]
fn test_negation() {
    let ctx = make_ctx();
    let a = RingElement::new(vec![fp(1u64); 8], ctx.clone());
    let neg_a = -&a;
    let sum = &a + &neg_a;

    assert!(sum.is_zero());
}

#[test]
fn test_multiplication_returns_ntt_form() {
    let ctx = make_ctx();
    let a = RingElement::new(vec![fp(1u64); 8], ctx.clone());
    let b = RingElement::new(vec![fp(1u64); 8], ctx);

    let product = &a * &b;
    assert_eq!(product.state(), RingElementState::Ntt);
}

#[test]
fn test_scale() {
    let ctx = make_ctx();
    let a = RingElement::new((0..8).map(|i| fp(i as u64)).collect(), ctx);
    let scalar = fp(2u64);

    let scaled = a.scale(&scalar);
    let coeffs = scaled.clone_to_coefficient();

    for (i, c) in coeffs.coefficients().iter().enumerate() {
        assert_eq!(c.to_u1024().0[0], (i * 2) as u64);
    }
}

#[test]
fn test_equality() {
    let ctx = make_ctx();
    let a = RingElement::new((0..8).map(|i| fp(i as u64)).collect(), ctx.clone());
    let b = RingElement::new((0..8).map(|i| fp(i as u64)).collect(), ctx);

    assert_eq!(a, b);
}

#[test]
fn test_equality_across_states() {
    let ctx = make_ctx();
    let a = RingElement::new((0..8).map(|i| fp(i as u64)).collect(), ctx.clone());
    let b = a.clone_to_ntt();

    // Equal although the two are in different representations.
    assert_eq!(a, b);
}

#[test]
fn product_is_negacyclic_convolution() {
    let ctx = make_ctx();
    let av: Vec<u64> = vec![3, 1, 4, 1, 5, 9, 2, 6];
    let bv: Vec<u64> = vec![2, 7, 1, 8, 2, 8, 1, 8];
    let a = RingElement::new(av.iter().map(|v| fp(*v)).collect(), ctx.clone());
    let b = RingElement::new(bv.iter().map(|v| fp(*v)).collect(), ctx.clone());
    let product = (&a * &b).into_coefficient();
    // Brute force in Z_q[X]/(X^8 + 1): X^8 = -1.
    for k in 0..8usize {
        let mut acc = Fe::zero();
        for i in 0..8usize {
            for j in 0..8usize {
                let term = fp(av[i]) * fp(bv[j]);
                if i + j == k {
                    acc = acc + term;
                } else if i + j == k + 8 {
                    acc = acc - term;
                }
            }
        }
        assert_eq!(product.coefficients()[k].to_u1024(), acc.to_u1024());
    }
}

#[test]
fn contexts_built_apart_do_not_mix() {
    let first = make_ctx();
    let second = make_ctx();
    assert_eq!(first.degree(), second.degree());
    assert!(first.same_context(&first));
    assert!(!first.same_context(&second));
    let a = RingElement::new((0..8).map(|i| fp(i as u64)).collect(), first);
    let b = RingElement::new((0..8).map(|i| fp(i as u64)).collect(), second);
    assert!(a != b);
}

use mathlib::big_int::u1024::U1024;
use mathlib::error::MathError;

fn element(values: &[u64], ctx: &Arc<NttContext<DefaultFieldConfig>>) -> RingElement<DefaultFieldConfig> {
    RingElement::new(values.iter().map(|v| fp(*v)).collect(), ctx.clone())
}

fn low_limbs(e: &RingElement<DefaultFieldConfig>) -> Vec<u64> {
    e.clone_to_coefficient().coefficients().iter().map(|c| c.to_u1024().0[0]).collect()
}

#[test]
fn adding_zero_changes_nothing() {
    let ctx = make_ctx();
    let a = element(&[5, 0, 7, 1, 0, 0, 2, 9], &ctx);
    let zero = RingElement::zero(ctx.clone());
    assert!(a.add(&zero) == a);
    let b = a.clone_to_ntt();
    let sum = b.add(&zero);
    assert_eq!(sum.state(), RingElementState::Coefficient);
    assert!(sum == a);
    assert!(zero.add(&b) == a);
}

#[test]
fn negation_cancels_in_both_states() {
    let ctx = make_ctx();
    let a = element(&[5, 0, 7, 1, 0, 0, 2, 9], &ctx);
    assert!(a.add(&a.neg()).is_zero());
    let b = a.clone_to_ntt();
    let sum = b.add(&b.neg());
    assert_eq!(sum.state(), RingElementState::Ntt);
    assert!(sum.is_zero());
    assert!(a.sub(&a).is_zero());
}

#[test]
fn mixed_states_are_combined_as_coefficients() {
    let ctx = make_ctx();
    let a = element(&[1, 2, 3, 4, 5, 6, 7, 8], &ctx);
    let b = element(&[8, 7, 6, 5, 4, 3, 2, 1], &ctx).into_ntt();
    let sum = a.add(&b);
    assert_eq!(sum.state(), RingElementState::Coefficient);
    assert_eq!(low_limbs(&sum), vec![9; 8]);
    let diff = b.sub(&a);
    assert_eq!(diff.state(), RingElementState::Coefficient);
    assert_eq!(low_limbs(&diff)[..4], [7, 5, 3, 1]);
    let both = a.clone_to_ntt().add(&b);
    assert_eq!(both.state(), RingElementState::Ntt);
    assert_eq!(low_limbs(&both), vec![9; 8]);
}

#[test]
fn transform_of_one_and_of_x() {
    let ctx = make_ctx();
    // The constant 1 has the value 1 at every root.
    let one = RingElement::one(ctx.clone()).into_ntt();
    for v in one.ntt_values() {
        assert_eq!(v.to_u1024(), U1024::one());
    }
    // The values of X are the roots: each has its 8th power equal to -1.
    let x = element(&[0, 1, 0, 0, 0, 0, 0, 0], &ctx).into_ntt();
    let minus_one = Fe::one().neg().to_u1024();
    let mut seen: Vec<U1024> = Vec::new();
    for r in x.ntt_values() {
        let mut p = *r;
        for _ in 0..3 {
            p = p * p;
        }
        assert_eq!(p.to_u1024(), minus_one);
        assert!(!seen.contains(&r.to_u1024()));
        seen.push(r.to_u1024());
    }
    // X * X^7 = X^8 = -1
    let x7 = element(&[0, 0, 0, 0, 0, 0, 0, 1], &ctx);
    let product = x.mul(&x7).into_coefficient();
    assert_eq!(product.coefficients()[0].to_u1024(), minus_one);
    for c in &product.coefficients()[1..] {
        assert!(c.is_zero());
    }
}

#[test]
fn forward_undoes_inverse() {
    let ctx = make_ctx();
    let values: Vec<Fe> = (0..8).map(|i| fp(3 * i + 1)).collect();
    let e = RingElement::from_ntt(values.clone(), ctx);
    assert_eq!(e.state(), RingElementState::Ntt);
    let back = e.clone_to_coefficient().into_ntt();
    for (a, b) in values.iter().zip(back.ntt_values()) {
        assert_eq!(a.to_u1024(), b.to_u1024());
    }
    assert!(e == back);
}

#[test]
fn accessors_follow_the_state() {
    let ctx = make_ctx();
    let mut a = element(&[1, 2, 3, 4, 5, 6, 7, 8], &ctx);
    assert_eq!(a.degree(), 8);
    assert!(a.context().same_context(&ctx));
    assert!(a.try_coefficients().is_ok());
    assert_eq!(a.try_ntt_values().err(), Some(MathError::InvalidState));
    assert_eq!(a.data().len(), 8);
    a.to_ntt();
    assert!(a.try_ntt_values().is_ok());
    assert_eq!(a.try_coefficients().err(), Some(MathError::InvalidState));
    a.to_ntt();
    assert_eq!(a.state(), RingElementState::Ntt);
    let c = a.into_coefficient();
    assert_eq!(low_limbs(&c), vec![1, 2, 3, 4, 5, 6, 7, 8]);
    let c2 = c.clone().into_coefficient();
    assert!(c2 == c);
}

#[test]
fn data_mut_writes_through() {
    let ctx = make_ctx();
    let mut a = RingElement::zero(ctx);
    a.data_mut()[3] = fp(42);
    assert!(!a.is_zero());
    assert_eq!(low_limbs(&a), vec![0, 0, 0, 42, 0, 0, 0, 0]);
}

#[test]
fn wrong_lengths_are_refused() {
    let ctx = make_ctx();
    let short: Vec<Fe> = (0..7).map(fp).collect();
    assert_eq!(RingElement::try_new(short.clone(), ctx.clone()).err(), Some(MathError::ConstructionError));
    assert_eq!(RingElement::try_from_ntt(short, ctx.clone()).err(), Some(MathError::ConstructionError));
    let right: Vec<Fe> = (0..8).map(fp).collect();
    assert!(RingElement::try_new(right.clone(), ctx.clone()).is_ok());
    assert_eq!(RingElement::try_from_ntt(right, ctx).unwrap().state(), RingElementState::Ntt);
}

#[test]
fn unsupported_degrees_are_refused() {
    for n in [0usize, 3, 6, 12, 1000] {
        assert_eq!(
            NttContext::<DefaultFieldConfig>::new(n).err(),
            Some(MathError::ConstructionError)
        );
    }
    // 2^32 is a power of two, but a transform of that degree needs a root of order 2^33.
    assert_eq!(
        NttContext::<DefaultFieldConfig>::new(1usize << 32).err(),
        Some(MathError::ConstructionError)
    );
    for n in [1usize, 2, 4, 16, 64] {
        let ctx = Arc::new(NttContext::<DefaultFieldConfig>::new(n).unwrap());
        assert_eq!(ctx.degree(), n);
        let a = RingElement::new((0..n).map(|i| fp(i as u64 + 1)).collect(), ctx);
        let back = a.clone_to_ntt().into_coefficient();
        assert!(a == back);
        assert_eq!(low_limbs(&back), (0..n).map(|i| i as u64 + 1).collect::<Vec<_>>());
    }
}

#[test]
fn mismatched_contexts_are_refused() {
    let first = make_ctx();
    let second = make_ctx();
    let a = element(&[1, 2, 3, 4, 5, 6, 7, 8], &first);
    let b = element(&[1, 2, 3, 4, 5, 6, 7, 8], &second);
    assert!(!a.shares_context(&b));
    assert_eq!(a.checked_add(&b).err(), Some(MathError::ConfigurationMismatch));
    assert_eq!(a.checked_sub(&b).err(), Some(MathError::ConfigurationMismatch));
    assert_eq!(a.checked_mul(&b).err(), Some(MathError::ConfigurationMismatch));
    let c = element(&[1, 1, 1, 1, 1, 1, 1, 1], &first);
    assert!(a.shares_context(&c));
    assert_eq!(low_limbs(&a.checked_add(&c).unwrap()), vec![2, 3, 4, 5, 6, 7, 8, 9]);
    assert_eq!(low_limbs(&a.checked_sub(&c).unwrap()), vec![0, 1, 2, 3, 4, 5, 6, 7]);
    assert_eq!(a.checked_mul(&c).unwrap().state(), RingElementState::Ntt);
    // A clone shares the context of the element it was made from.
    assert!(a.clone().shares_context(&a));
}

#[test]
fn scaling_keeps_the_state() {
    let ctx = make_ctx();
    let a = element(&[1, 2, 3, 4, 5, 6, 7, 8], &ctx).into_ntt();
    let scaled = a.scale(&fp(3));
    assert_eq!(scaled.state(), RingElementState::Ntt);
    assert_eq!(low_limbs(&scaled), vec![3, 6, 9, 12, 15, 18, 21, 24]);
}

#[test]
fn polynomial_text() {
    let ctx = make_ctx();
    assert_eq!(RingElement::zero(ctx.clone()).to_text(), "0");
    let one = U1024::one().to_hex();
    assert_eq!(RingElement::one(ctx.clone()).to_text(), one);
    let a = element(&[1, 2, 0, 0, 0, 0, 0, 3], &ctx);
    let expected = format!(
        "{}x^7 + {}x + {}",
        U1024::from_u64(3).to_hex(),
        U1024::from_u64(2).to_hex(),
        U1024::from_u64(1).to_hex()
    );
    assert_eq!(a.to_text(), expected);
    assert_eq!(a.clone_to_ntt().to_text(), expected);
    let big = Arc::new(NttContext::<DefaultFieldConfig>::new(16).unwrap());
    let mut coeffs = vec![Fe::zero(); 16];
    coeffs[12] = fp(1);
    let b = RingElement::new(coeffs, big);
    assert_eq!(b.to_text(), format!("{}x^12", one));
}

fn brute_force_product(a: &[Fe], b: &[Fe]) -> Vec<Fe> {
    let n = a.len();
    let mut out = vec![Fe::zero(); n];
    for i in 0..n {
        for j in 0..n {
            let term = a[i] * b[j];
            if i + j < n {
                out[i + j] = out[i + j] + term;
            } else {
                out[i + j - n] = out[i + j - n] - term;
            }
        }
    }
    out
}

fn scrambled(seed: u64, n: usize) -> Vec<Fe> {
    // A fixed sequence of full-width field elements.
    let mut state = seed;
    let mut out = Vec::new();
    for _ in 0..n {
        let mut limbs = [0u64; 16];
        for limb in limbs.iter_mut() {
            state = state.wrapping_mul(6364136223846793005).wrapping_add(1442695040888963407);
            *limb = state;
        }
        out.push(Fe::new(U1024(limbs)));
    }
    out
}

#[test]
fn products_agree_with_brute_force_for_several_degrees() {
    for n in [1usize, 2, 4, 8, 32] {
        let ctx = Arc::new(NttContext::<DefaultFieldConfig>::new(n).unwrap());
        let av = scrambled(n as u64 + 1, n);
        let bv = scrambled(1000 + n as u64, n);
        let a = RingElement::new(av.clone(), ctx.clone());
        let b = RingElement::new(bv.clone(), ctx.clone()).into_ntt();
        let product = (&a * &b).into_coefficient();
        let expected = brute_force_product(&av, &bv);
        for (got, want) in product.coefficients().iter().zip(expected.iter()) {
            assert_eq!(got, want);
        }
        // A round trip through the transform changes nothing.
        let back = a.clone_to_ntt().into_coefficient();
        for (got, want) in back.coefficients().iter().zip(av.iter()) {
            assert_eq!(got, want);
        }
    }
}
