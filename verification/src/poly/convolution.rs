//! Multiplication in `Z_q[X]/(X^n + 1)`, and why it turns into a product
//! of values at every root of `X^n + 1`.

use vstd::prelude::*;
use vstd::arithmetic::power::pow;
use crate::field::modular::{lemma_add_congruent, lemma_mul_congruent, lemma_shift_congruent};
use crate::poly::evaluation::{poly_eval, strided_eval};

verus! {

/// Coefficient `k` of `X^m b` in `Z[X]/(X^n + 1)`: a coefficient of `b`,
/// negated where the shift wrapped around.
pub open spec fn shifted_coefficient(b: Seq<nat>, m: int, k: int) -> int {
    if m <= k {
        b[k - m] as int
    } else {
        -(b[b.len() + k - m] as int)
    }
}

/// Coefficient `k` of the product of `b` with the first `m` terms of `a`.
pub open spec fn convolution_sum(a: Seq<nat>, b: Seq<nat>, k: int, m: nat) -> int
    decreases m,
{
    if m == 0 {
        0
    } else {
        convolution_sum(a, b, k, (m - 1) as nat) + a[m - 1] * shifted_coefficient(b, m - 1, k)
    }
}

/// The negacyclic convolution of `a` and `b`: the coefficients of their
/// product in `Z_q[X]/(X^n + 1)`, where `X^n = -1`.
pub open spec fn negacyclic_product(a: Seq<nat>, b: Seq<nat>, q: nat) -> Seq<nat> {
    Seq::new(a.len(), |k: int| (convolution_sum(a, b, k, a.len()) % (q as int)) as nat)
}

/// The sequence as integers.
pub open spec fn as_ints(x: Seq<nat>) -> Seq<int> {
    Seq::new(x.len(), |k: int| x[k] as int)
}

/// `s[0] + s[1] r + s[2] r^2 + ...`.
pub open spec fn eval_ints(s: Seq<int>, r: int) -> int
    decreases s.len(),
{
    if s.len() == 0 {
        0
    } else {
        eval_ints(s.drop_last(), r) + s.last() * pow(r, (s.len() - 1) as nat)
    }
}

/// `X b` in `Z[X]/(X^n + 1)`: the coefficients move up by one, and the
/// highest comes back at the bottom, negated.
pub open spec fn negacyclic_shift(b: Seq<int>) -> Seq<int> {
    seq![-b.last()] + b.drop_last()
}

/// `X^m b` in `Z[X]/(X^n + 1)`.
pub open spec fn shifted(b: Seq<int>, m: nat) -> Seq<int>
    decreases m,
{
    if m == 0 {
        b
    } else {
        negacyclic_shift(shifted(b, (m - 1) as nat))
    }
}

/// The product of `b` with the first `m` terms of `a`.
pub open spec fn partial_product(a: Seq<int>, b: Seq<int>, m: nat) -> Seq<int>
    decreases m,
{
    if m == 0 {
        Seq::new(b.len(), |k: int| 0int)
    } else {
        let before = partial_product(a, b, (m - 1) as nat);
        let term = shifted(b, (m - 1) as nat);
        Seq::new(b.len(), |k: int| before[k] + a[m - 1] * term[k])
    }
}

/// `r^(e + 1) = r r^e`, and `r^0 = 1`.
pub proof fn lemma_pow_step(r: int, e: nat)
    ensures
        pow(r, e + 1) == r * pow(r, e),
        pow(r, 0) == 1,
{
    vstd::arithmetic::power::lemma_pow_adds(r, 1, e);
    vstd::arithmetic::power::lemma_pow1(r);
    vstd::arithmetic::power::lemma_pow0(r);
}

/// A leading coefficient comes out in front.
pub proof fn lemma_eval_front(c: int, t: Seq<int>, r: int)
    ensures
        eval_ints(seq![c] + t, r) == c + r * eval_ints(t, r),
    decreases t.len(),
{
    let s = seq![c] + t;
    if t.len() == 0 {
        assert(s.drop_last() =~= Seq::<int>::empty());
        assert(eval_ints(s.drop_last(), r) == 0);
        lemma_pow_step(r, 0);
        assert(c * 1 == c);
        assert(r * 0 == 0);
    } else {
        lemma_eval_front(c, t.drop_last(), r);
        assert(s.drop_last() =~= seq![c] + t.drop_last());
        assert(s.last() == t.last());
        let e = eval_ints(t.drop_last(), r);
        let l = t.last();
        let p = pow(r, (t.len() - 1) as nat);
        lemma_pow_step(r, (t.len() - 1) as nat);
        assert(pow(r, t.len()) == r * p);
        assert(c + r * e + l * (r * p) == c + r * (e + l * p)) by (nonlinear_arith);
    }
}

/// Shifts keep the length.
pub proof fn lemma_shifted_len(b: Seq<int>, m: nat)
    requires
        b.len() >= 1,
    ensures
        shifted(b, m).len() == b.len(),
    decreases m,
{
    if m > 0 {
        lemma_shifted_len(b, (m - 1) as nat);
    }
}

/// At a root of `X^n + 1`, multiplying by `X` multiplies the value by the
/// root.
pub proof fn lemma_shift_eval(b: Seq<int>, r: int, q: int)
    requires
        q > 1,
        b.len() >= 1,
        pow(r, b.len()) % q == q - 1,
    ensures
        eval_ints(negacyclic_shift(b), r) % q == (r * eval_ints(b, r)) % q,
{
    let n = b.len();
    let l = b.last();
    let e = eval_ints(b.drop_last(), r);
    let p = pow(r, (n - 1) as nat);
    lemma_eval_front(-l, b.drop_last(), r);
    lemma_pow_step(r, (n - 1) as nat);
    assert(pow(r, n) == r * p);
    vstd::arithmetic::div_mod::lemma_small_mod((q - 1) as nat, q as nat);
    // r * eval(b) = r e + l r^n, and r^n is congruent to -1
    assert(r * (e + l * p) == r * e + l * (r * p)) by (nonlinear_arith);
    lemma_shift_congruent(-1, 1, q);
    lemma_mul_congruent(l, l, pow(r, n), -1, q);
    lemma_add_congruent(r * e, r * e, l * pow(r, n), l * (-1), q);
    assert(l * (-1) == -l);
}

/// At a root of `X^n + 1`, multiplying by `X^m` multiplies the value by
/// the `m`-th power of the root.
pub proof fn lemma_shifted_eval(b: Seq<int>, m: nat, r: int, q: int)
    requires
        q > 1,
        b.len() >= 1,
        pow(r, b.len()) % q == q - 1,
    ensures
        eval_ints(shifted(b, m), r) % q == (pow(r, m) * eval_ints(b, r)) % q,
    decreases m,
{
    if m == 0 {
        lemma_pow_step(r, 0);
        assert(1 * eval_ints(b, r) == eval_ints(b, r));
    } else {
        let u = (m - 1) as nat;
        lemma_shifted_eval(b, u, r, q);
        lemma_shifted_len(b, u);
        let s = shifted(b, u);
        lemma_shift_eval(s, r, q);
        lemma_mul_congruent(r, r, eval_ints(s, r), pow(r, u) * eval_ints(b, r), q);
        assert(r * (pow(r, u) * eval_ints(b, r)) == (r * pow(r, u)) * eval_ints(b, r))
            by (nonlinear_arith);
        lemma_pow_step(r, u);
        assert(pow(r, m) == r * pow(r, u));
    }
}

/// The value of a sum of a sequence and a multiple of another.
pub proof fn lemma_eval_combination(u: Seq<int>, v: Seq<int>, c: int, r: int)
    requires
        u.len() == v.len(),
    ensures
        eval_ints(Seq::new(u.len(), |k: int| u[k] + c * v[k]), r) == eval_ints(u, r) + c
            * eval_ints(v, r),
    decreases u.len(),
{
    let w = Seq::new(u.len(), |k: int| u[k] + c * v[k]);
    if u.len() == 0 {
        assert(c * 0 == 0);
    } else {
        lemma_eval_combination(u.drop_last(), v.drop_last(), c, r);
        let wd = Seq::new(u.drop_last().len(), |k: int| u.drop_last()[k] + c * v.drop_last()[k]);
        assert(w.drop_last() =~= wd);
        let p = pow(r, (u.len() - 1) as nat);
        let eu = eval_ints(u.drop_last(), r);
        let ev = eval_ints(v.drop_last(), r);
        assert(w.last() == u.last() + c * v.last());
        assert((eu + c * ev) + (u.last() + c * v.last()) * p == (eu + u.last() * p) + c * (ev
            + v.last() * p)) by (nonlinear_arith);
    }
}

/// Sequences with congruent terms have congruent values.
pub proof fn lemma_eval_congruent_terms(u: Seq<int>, v: Seq<int>, r: int, q: int)
    requires
        q > 0,
        u.len() == v.len(),
        forall|k: int| 0 <= k < u.len() ==> u[k] % q == v[k] % q,
    ensures
        eval_ints(u, r) % q == eval_ints(v, r) % q,
    decreases u.len(),
{
    if u.len() > 0 {
        lemma_eval_congruent_terms(u.drop_last(), v.drop_last(), r, q);
        let p = pow(r, (u.len() - 1) as nat);
        lemma_mul_congruent(u.last(), v.last(), p, p, q);
        lemma_add_congruent(
            eval_ints(u.drop_last(), r),
            eval_ints(v.drop_last(), r),
            u.last() * p,
            v.last() * p,
            q,
        );
    }
}

/// The value of the all-zero sequence is 0.
pub proof fn lemma_eval_zeros(n: nat, r: int)
    ensures
        eval_ints(Seq::new(n, |k: int| 0int), r) == 0,
    decreases n,
{
    let z = Seq::new(n, |k: int| 0int);
    if n > 0 {
        lemma_eval_zeros((n - 1) as nat, r);
        assert(z.drop_last() =~= Seq::new((n - 1) as nat, |k: int| 0int));
        assert(0 * pow(r, (n - 1) as nat) == 0);
    }
}

/// Partial products have the length of `b`.
pub proof fn lemma_partial_product_len(a: Seq<int>, b: Seq<int>, m: nat)
    ensures
        partial_product(a, b, m).len() == b.len(),
    decreases m,
{
    if m > 0 {
        lemma_partial_product_len(a, b, (m - 1) as nat);
    }
}

/// At a root of `X^n + 1`, the value of a partial product is the product
/// of the values.
pub proof fn lemma_partial_product_eval(a: Seq<int>, b: Seq<int>, m: nat, r: int, q: int)
    requires
        q > 1,
        b.len() >= 1,
        m <= a.len(),
        pow(r, b.len()) % q == q - 1,
    ensures
        eval_ints(partial_product(a, b, m), r) % q == (eval_ints(a.take(m as int), r) * eval_ints(
            b,
            r,
        )) % q,
    decreases m,
{
    if m == 0 {
        lemma_eval_zeros(b.len(), r);
        assert(a.take(0) =~= Seq::<int>::empty());
        assert(0 * eval_ints(b, r) == 0);
    } else {
        let u = (m - 1) as nat;
        lemma_partial_product_eval(a, b, u, r, q);
        lemma_partial_product_len(a, b, u);
        lemma_shifted_len(b, u);
        let before = partial_product(a, b, u);
        let term = shifted(b, u);
        let c = a[m - 1];
        lemma_eval_combination(before, term, c, r);
        lemma_shifted_eval(b, u, r, q);
        let eb = eval_ints(b, r);
        let ea = eval_ints(a.take(u as int), r);
        lemma_mul_congruent(c, c, eval_ints(term, r), pow(r, u) * eb, q);
        lemma_add_congruent(eval_ints(before, r), ea * eb, c * eval_ints(term, r), c * (pow(r, u)
            * eb), q);
        assert(a.take(m as int).drop_last() =~= a.take(u as int));
        assert(a.take(m as int).last() == c);
        assert(ea * eb + c * (pow(r, u) * eb) == (ea + c * pow(r, u)) * eb) by (nonlinear_arith);
    }
}

/// The coefficients of `X^m b`, written out.
pub proof fn lemma_shifted_coefficients(b: Seq<nat>, m: nat, k: int)
    requires
        b.len() >= 1,
        m <= b.len(),
        0 <= k < b.len(),
    ensures
        shifted(as_ints(b), m)[k] == shifted_coefficient(b, m as int, k),
    decreases m,
{
    if m > 0 {
        let u = (m - 1) as nat;
        let s = shifted(as_ints(b), u);
        lemma_shifted_len(as_ints(b), u);
        if k == 0 {
            lemma_shifted_coefficients(b, u, b.len() - 1);
        } else {
            lemma_shifted_coefficients(b, u, k - 1);
            assert(negacyclic_shift(s)[k] == s.drop_last()[k - 1]);
        }
    }
}

/// The coefficients of a partial product, written out.
pub proof fn lemma_partial_product_coefficients(a: Seq<nat>, b: Seq<nat>, m: nat, k: int)
    requires
        b.len() >= 1,
        a.len() == b.len(),
        m <= b.len(),
        0 <= k < b.len(),
    ensures
        partial_product(as_ints(a), as_ints(b), m)[k] == convolution_sum(a, b, k, m),
    decreases m,
{
    if m > 0 {
        let u = (m - 1) as nat;
        lemma_partial_product_coefficients(a, b, u, k);
        lemma_shifted_coefficients(b, u, k);
        lemma_partial_product_len(as_ints(a), as_ints(b), u);
    }
}

/// Horner's rule over the last `c` terms computes the value of those
/// terms.
pub proof fn lemma_horner_is_eval(x: Seq<nat>, from: int, c: nat, r: int)
    requires
        0 <= from,
        from + c <= x.len(),
    ensures
        strided_eval(x, from, 1, c, r) == eval_ints(as_ints(x).subrange(from, from + c), r),
    decreases c,
{
    let s = as_ints(x).subrange(from, from + c);
    if c == 0 {
    } else {
        lemma_horner_is_eval(x, from + 1, (c - 1) as nat, r);
        let t = as_ints(x).subrange(from + 1, from + c);
        assert(s =~= seq![x[from] as int] + t);
        lemma_eval_front(x[from] as int, t, r);
    }
}

/// The convolution theorem at one point: at a root of `X^n + 1`, the
/// value of the negacyclic product is the product of the values.
pub proof fn lemma_product_eval(a: Seq<nat>, b: Seq<nat>, r: int, q: nat)
    requires
        q > 1,
        a.len() == b.len(),
        b.len() >= 1,
        pow(r, b.len()) % (q as int) == q - 1,
    ensures
        poly_eval(negacyclic_product(a, b, q), r) % (q as int) == (poly_eval(a, r) * poly_eval(
            b,
            r,
        )) % (q as int),
{
    let m = q as int;
    let n = b.len();
    let c = negacyclic_product(a, b, q);
    let full = partial_product(as_ints(a), as_ints(b), n);
    lemma_partial_product_len(as_ints(a), as_ints(b), n);
    assert forall|k: int| 0 <= k < n implies as_ints(c)[k] % m == full[k] % m by {
        lemma_partial_product_coefficients(a, b, n, k);
        vstd::arithmetic::div_mod::lemma_mod_bound(convolution_sum(a, b, k, n), m);
        vstd::arithmetic::div_mod::lemma_mod_twice(convolution_sum(a, b, k, n), m);
    }
    lemma_eval_congruent_terms(as_ints(c), full, r, m);
    lemma_partial_product_eval(as_ints(a), as_ints(b), n, r, m);
    assert(as_ints(a).take(n as int) =~= as_ints(a));
    lemma_horner_is_eval(a, 0, n, r);
    lemma_horner_is_eval(b, 0, n, r);
    lemma_horner_is_eval(c, 0, n, r);
    assert(as_ints(a).subrange(0, n as int) =~= as_ints(a));
    assert(as_ints(b).subrange(0, n as int) =~= as_ints(b));
    assert(as_ints(c).subrange(0, n as int) =~= as_ints(c));
}

} // verus!
