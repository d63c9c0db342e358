//! The extended Euclidean algorithm and modular inverses.

use vstd::prelude::*;
use vstd::arithmetic::div_mod::{
    lemma_add_mod_noop, lemma_fundamental_div_mod, lemma_mod_multiples_vanish,
    lemma_mul_mod_noop_right, lemma_small_mod,
};
use crate::error::MathError;

verus! {

/// Whether `d` is a positive divisor of `a`.
pub open spec fn divides(d: nat, a: nat) -> bool {
    d > 0 && a % d == 0
}

/// Whether `g` is the greatest common divisor of `a` and `b`: a common
/// divisor that every common divisor divides; 0 for `a = b = 0`.
pub open spec fn is_gcd(g: nat, a: nat, b: nat) -> bool {
    if a == 0 && b == 0 {
        g == 0
    } else {
        &&& divides(g, a)
        &&& divides(g, b)
        &&& forall|d: nat| #[trigger] divides(d, a) && divides(d, b) ==> divides(d, g)
    }
}

/// Whether `a` and `b` have no common divisor but 1.
pub open spec fn coprime(a: nat, b: nat) -> bool {
    is_gcd(1, a, b)
}

/// `max(1, v)`.
pub open spec fn at_least_one(v: int) -> int {
    if v < 1 {
        1
    } else {
        v
    }
}

/// The greatest common divisor of `a` and `b` with coefficients `x`, `y`
/// such that `a x + b y = gcd`.
#[derive(Clone, Copy, Debug, PartialEq, Eq, Structural)]
pub struct ExtendedGcdResult {
    /// The greatest common divisor.
    pub gcd: u64,
    /// The coefficient of the first argument.
    pub x: i128,
    /// The coefficient of the second argument.
    pub y: i128,
}

/// A divisor of two numbers divides every combination `u + k v` of them.
pub proof fn lemma_divides_combination(d: nat, u: int, v: int, k: int)
    requires
        d > 0,
        u % (d as int) == 0,
        v % (d as int) == 0,
    ensures
        (u + k * v) % (d as int) == 0,
{
    let m = d as int;
    lemma_mul_mod_noop_right(k, v, m);
    assert(k * 0 == 0);
    lemma_add_mod_noop(u, k * v, m);
    lemma_small_mod(0, d);
}

/// The greatest common divisor is unique.
pub proof fn lemma_gcd_unique(g: nat, h: nat, a: nat, b: nat)
    requires
        is_gcd(g, a, b),
        is_gcd(h, a, b),
    ensures
        g == h,
{
    if !(a == 0 && b == 0) {
        // Each divides the other.
        assert(divides(g, h));
        assert(divides(h, g));
        lemma_mutual_divisors(g, h);
    }
}

/// Two positive numbers that divide each other are equal.
pub proof fn lemma_mutual_divisors(g: nat, h: nat)
    requires
        g > 0,
        h > 0,
        h % g == 0,
        g % h == 0,
    ensures
        g == h,
{
    if g < h {
        lemma_small_mod(g, h);
    } else if h < g {
        lemma_small_mod(h, g);
    }
}

/// The extended Euclidean algorithm: the greatest common divisor of `a`
/// and `b`, and coefficients with `a x + b y = gcd`.
pub fn extended_gcd(a: u64, b: u64) -> (r: ExtendedGcdResult)
    ensures
        is_gcd(r.gcd as nat, a as nat, b as nat),
        a * r.x + b * r.y == r.gcd,
        -at_least_one(b as int) <= r.x <= at_least_one(b as int),
        -at_least_one(a as int) <= r.y <= at_least_one(a as int),
        b == 0 ==> r.gcd == a && r.x == 1 && r.y == 0,
    decreases b,
{
    if b == 0 {
        proof {
            if a > 0 {
                vstd::arithmetic::div_mod::lemma_mod_self_0(a as int);
                lemma_small_mod(0, a as nat);
            }
            assert(a * 1 + 0 * 0 == a);
        }
        ExtendedGcdResult { gcd: a, x: 1, y: 0 }
    } else {
        let q: u64 = a / b;
        let rem: u64 = a % b;
        let inner = extended_gcd(b, rem);
        let g = inner.gcd;
        proof {
            lemma_fundamental_div_mod(a as int, b as int);
            assert(a == b * q + rem);
            lemma_step_bounds(a as int, b as int, q as int, rem as int, inner.x as int, inner.y as int);
            lemma_step_gcd(g as nat, a as nat, b as nat, q as nat, rem as nat);
        }
        let x: i128 = inner.y;
        let y: i128 = inner.x - (q as i128) * inner.y;
        proof {
            assert(a * x + b * y == g) by (nonlinear_arith)
                requires
                    a == b * q + rem,
                    b * inner.x + rem * inner.y == g,
                    x == inner.y,
                    y == inner.x - q * inner.y,
            ;
        }
        ExtendedGcdResult { gcd: g, x, y }
    }
}

/// The coefficients of one step stay within `max(1, b)` and `max(1, a)`.
proof fn lemma_step_bounds(a: int, b: int, q: int, rem: int, x1: int, y1: int)
    requires
        b > 0,
        q >= 0,
        0 <= rem < b,
        a == b * q + rem,
        -at_least_one(rem) <= x1 <= at_least_one(rem),
        -at_least_one(b) <= y1 <= at_least_one(b),
        rem == 0 ==> x1 == 1 && y1 == 0,
    ensures
        -a <= q * y1 <= a,
        -at_least_one(a) <= x1 - q * y1 <= at_least_one(a),
        -at_least_one(b) <= y1 <= at_least_one(b),
{
    if rem == 0 {
        assert(q * 0 == 0);
    } else {
        assert(-(q * b) <= q * y1 <= q * b) by (nonlinear_arith)
            requires
                q >= 0,
                -b <= y1 <= b,
        ;
        assert(q * b == b * q) by (nonlinear_arith);
    }
}

/// The greatest common divisor of `(b, a mod b)` is that of `(a, b)`.
proof fn lemma_step_gcd(g: nat, a: nat, b: nat, q: nat, rem: nat)
    requires
        b > 0,
        a == b * q + rem,
        is_gcd(g, b, rem),
    ensures
        is_gcd(g, a, b),
{
    assert(divides(g, b));
    assert(divides(g, rem));
    lemma_divides_combination(g, rem as int, b as int, q as int);
    assert(rem + q * b == a) by (nonlinear_arith)
        requires
            a == b * q + rem,
    ;
    assert forall|d: nat| #[trigger] divides(d, a) && divides(d, b) implies divides(d, g) by {
        lemma_divides_combination(d, a as int, b as int, -(q as int));
        assert(a + (-(q as int)) * b == rem) by (nonlinear_arith)
            requires
                a == b * q + rem,
        ;
        assert(divides(d, rem));
    }
}

/// A greatest common divisor of 1 is what `coprime` asks for.
pub proof fn lemma_coprime_iff_gcd_one(g: nat, a: nat, b: nat)
    requires
        is_gcd(g, a, b),
    ensures
        coprime(a, b) <==> g == 1,
{
    if coprime(a, b) {
        lemma_gcd_unique(g, 1, a, b);
    }
}

/// The inverse of `a` modulo `n`: the `inv < n` with `a inv = 1 (mod n)`,
/// if `a` and `n > 0` are coprime; else
/// [`MathError::NoInverseExists`].
pub fn mod_inverse(a: u64, n: u64) -> (r: Result<u64, MathError>)
    ensures
        match r {
            Ok(inv) => n > 0 && coprime(a as nat, n as nat) && inv < n && (a * inv) % (n as int)
                == 1int % (n as int),
            Err(e) => e == MathError::NoInverseExists && !(n > 0 && coprime(a as nat, n as nat)),
        },
{
    if n == 0 {
        return Err(MathError::NoInverseExists);
    }
    let res = extended_gcd(a, n);
    proof {
        lemma_coprime_iff_gcd_one(res.gcd as nat, a as nat, n as nat);
    }
    if res.gcd != 1 {
        return Err(MathError::NoInverseExists);
    }
    if n == 1 {
        proof {
            assert(a * 0 == 0);
        }
        return Ok(0);
    }
    let x: i128 = res.x;
    proof {
        // x is no multiple of n: else n would divide 1.
        if x == n || x == -(n as int) {
            let k: int = if x == n { a + res.y } else { res.y - a };
            assert(n * k == 1) by (nonlinear_arith)
                requires
                    a * x + n * res.y == 1,
                    (x == n && k == a + res.y) || (x == -(n as int) && k == res.y - a),
            ;
            assert(false) by (nonlinear_arith)
                requires
                    n >= 2,
                    n * k == 1,
            ;
        }
    }
    let inv: i128 = if x < 0 {
        x + (n as i128)
    } else {
        x
    };
    proof {
        let shift: int = if x < 0 { a as int } else { 0 };
        assert(a * inv == 1 + (shift - res.y) * n) by (nonlinear_arith)
            requires
                a * x + n * res.y == 1,
                (x < 0 && inv == x + n && shift == a) || (x >= 0 && inv == x && shift == 0),
        ;
        lemma_mod_multiples_vanish(shift - res.y, 1, n as int);
        assert(n * (shift - res.y) + 1 == 1 + (shift - res.y) * n) by (nonlinear_arith);
    }
    Ok(inv as u64)
}

} // verus!
