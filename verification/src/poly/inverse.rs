//! Why the inverse network undoes the forward network: every inverse
//! stage undoes its forward stage up to a factor 2, and the final scaling
//! by `n^(-1)` removes the `log2(n)` factors.

use vstd::prelude::*;
use vstd::arithmetic::div_mod::{
    lemma_add_mod_noop, lemma_fundamental_div_mod, lemma_mod_bound, lemma_mul_mod_noop_left,
    lemma_mul_mod_noop_right, lemma_small_mod, lemma_sub_mod_noop,
};
use vstd::arithmetic::power2::{lemma_pow2_adds, lemma_pow2_pos, lemma_pow2_unfold, pow2};
use crate::field::modular::{add_mod, mul_mod, sub_mod};
use crate::poly::stages::{
    forward_layers, forward_stage, in_lower_half, inverse_layers, inverse_stage,
    lemma_block_position, scale_values, twiddle_index,
};
use crate::poly::tables::twiddles_linked;

verus! {

/// `(u + t) + (u - t) = 2 u`.
pub proof fn lemma_sum_of_pair(u: nat, t: nat, q: nat)
    requires
        q > 0,
    ensures
        add_mod(add_mod(u, t, q), sub_mod(u, t, q), q) == mul_mod(u, 2, q),
{
    let (u, t) = (u as int, t as int);
    lemma_add_mod_noop(u + t, u - t, q as int);
    lemma_mod_bound(u - t, q as int);
}

/// `((u + z v) - (u - z v)) z' = 2 v` where `z z' = 1`.
pub proof fn lemma_difference_of_pair(u: nat, v: nat, z: nat, zi: nat, q: nat)
    requires
        q > 1,
        mul_mod(z, zi, q) == 1,
    ensures
        ({
            let t = mul_mod(z, v, q);
            mul_mod(sub_mod(add_mod(u, t, q), sub_mod(u, t, q), q), zi, q) == mul_mod(v, 2, q)
        }),
{
    let m = q as int;
    let t = mul_mod(z, v, q) as int;
    let (u, v, z, zi) = (u as int, v as int, z as int, zi as int);
    lemma_mod_bound(u - t, m);
    lemma_sub_mod_noop(u + t, u - t, m);
    assert((u + t) - (u - t) == 2 * t);
    lemma_mul_mod_noop_left(2 * t, zi, m);
    assert((2 * t) * zi == (2 * zi) * t) by (nonlinear_arith);
    lemma_mul_mod_noop_right(2 * zi, z * v, m);
    assert((2 * zi) * (z * v) == (2 * v) * (z * zi)) by (nonlinear_arith);
    lemma_mul_mod_noop_right(2 * v, z * zi, m);
    assert((2 * v) * 1 == v * 2);
}

/// `(u + v) + z ((u - v) z') = 2 u` where `z z' = 1`.
pub proof fn lemma_rebuilt_sum(u: nat, v: nat, z: nat, zi: nat, q: nat)
    requires
        q > 1,
        mul_mod(z, zi, q) == 1,
    ensures
        add_mod(add_mod(u, v, q), mul_mod(z, mul_mod(sub_mod(u, v, q), zi, q), q), q) == mul_mod(
            u,
            2,
            q,
        ),
{
    let m = q as int;
    let d = sub_mod(u, v, q) as int;
    lemma_mod_bound(u - v, m);
    lemma_unscale(d as nat, z, zi, q);
    lemma_small_mod(d as nat, q);
    lemma_add_mod_noop((u + v) as int, u - v, m);
}

/// `(u + v) - z ((u - v) z') = 2 v` where `z z' = 1`.
pub proof fn lemma_rebuilt_difference(u: nat, v: nat, z: nat, zi: nat, q: nat)
    requires
        q > 1,
        mul_mod(z, zi, q) == 1,
    ensures
        sub_mod(add_mod(u, v, q), mul_mod(z, mul_mod(sub_mod(u, v, q), zi, q), q), q) == mul_mod(
            v,
            2,
            q,
        ),
{
    let m = q as int;
    let d = sub_mod(u, v, q) as int;
    lemma_mod_bound(u - v, m);
    lemma_unscale(d as nat, z, zi, q);
    lemma_small_mod(d as nat, q);
    lemma_sub_mod_noop((u + v) as int, u - v, m);
    assert((u + v) - (u - v) == v * 2);
}

/// `z (d z') = d` where `z z' = 1`.
pub proof fn lemma_unscale(d: nat, z: nat, zi: nat, q: nat)
    requires
        q > 1,
        mul_mod(z, zi, q) == 1,
    ensures
        mul_mod(z, mul_mod(d, zi, q), q) == d % q,
{
    let m = q as int;
    let (d, z, zi) = (d as int, z as int, zi as int);
    lemma_mul_mod_noop_right(z, d * zi, m);
    assert(z * (d * zi) == d * (z * zi)) by (nonlinear_arith);
    lemma_mul_mod_noop_right(d, z * zi, m);
    assert(d * 1 == d);
}

/// Scaling commutes with addition.
pub proof fn lemma_scaled_sum(a: nat, b: nat, c: nat, q: nat)
    requires
        q > 0,
    ensures
        add_mod(mul_mod(a, c, q), mul_mod(b, c, q), q) == mul_mod(add_mod(a, b, q), c, q),
{
    let m = q as int;
    let (a, b, c) = (a as int, b as int, c as int);
    lemma_add_mod_noop(a * c, b * c, m);
    assert(a * c + b * c == (a + b) * c) by (nonlinear_arith);
    lemma_mul_mod_noop_left(a + b, c, m);
}

/// Scaling commutes with subtraction.
pub proof fn lemma_scaled_difference(a: nat, b: nat, c: nat, q: nat)
    requires
        q > 0,
    ensures
        sub_mod(mul_mod(a, c, q), mul_mod(b, c, q), q) == mul_mod(sub_mod(a, b, q), c, q),
{
    let m = q as int;
    let (a, b, c) = (a as int, b as int, c as int);
    lemma_sub_mod_noop(a * c, b * c, m);
    assert(a * c - b * c == (a - b) * c) by (nonlinear_arith);
    lemma_mul_mod_noop_left(a - b, c, m);
    lemma_mod_bound(a - b, m);
    lemma_mod_bound(a * c - b * c, m);
    lemma_mod_bound((a * c) % m - (b * c) % m, m);
}

/// Scaling commutes with multiplication by a twiddle.
pub proof fn lemma_scaled_product(a: nat, c: nat, z: nat, q: nat)
    requires
        q > 0,
    ensures
        mul_mod(mul_mod(a, c, q), z, q) == mul_mod(mul_mod(a, z, q), c, q),
        mul_mod(z, mul_mod(a, c, q), q) == mul_mod(mul_mod(z, a, q), c, q),
{
    let m = q as int;
    let (a, c, z) = (a as int, c as int, z as int);
    lemma_mul_mod_noop_left(a * c, z, m);
    lemma_mul_mod_noop_left(a * z, c, m);
    assert((a * c) * z == (a * z) * c) by (nonlinear_arith);
    lemma_mul_mod_noop_right(z, a * c, m);
    lemma_mul_mod_noop_left(z * a, c, m);
    assert(z * (a * c) == (z * a) * c) by (nonlinear_arith);
}

/// Scaling twice is scaling by the product.
pub proof fn lemma_scaled_twice(a: nat, c: nat, d: nat, q: nat)
    requires
        q > 0,
    ensures
        mul_mod(mul_mod(a, c, q), d, q) == mul_mod(a, c * d, q),
{
    let (a, c, d) = (a as int, c as int, d as int);
    lemma_mul_mod_noop_left(a * c, d, q as int);
    assert((a * c) * d == a * (c * d)) by (nonlinear_arith);
}

/// Where position `i` and its partner sit in a stage.
pub proof fn lemma_partner(blocks: int, half: int, i: int)
    requires
        half >= 1,
        blocks >= 1,
        0 <= i < 2 * half * blocks,
    ensures
        blocks <= twiddle_index(blocks, half, i) < 2 * blocks,
        2 * blocks <= 2 * half * blocks,
        in_lower_half(half, i) ==> 0 <= i + half < 2 * half * blocks && twiddle_index(
            blocks,
            half,
            i + half,
        ) == twiddle_index(blocks, half, i) && !in_lower_half(half, i + half),
        !in_lower_half(half, i) ==> 0 <= i - half < 2 * half * blocks && twiddle_index(
            blocks,
            half,
            i - half,
        ) == twiddle_index(blocks, half, i) && in_lower_half(half, i - half),
{
    let d = 2 * half;
    let b = i / d;
    let r = i % d;
    lemma_fundamental_div_mod(i, d);
    lemma_mod_bound(i, d);
    assert(0 <= b < blocks) by (nonlinear_arith)
        requires
            i == d * b + r,
            0 <= r < d,
            0 <= i < d * blocks,
            d >= 2,
    ;
    assert(2 * blocks <= 2 * half * blocks) by (nonlinear_arith)
        requires
            half >= 1,
            blocks >= 1,
    ;
    assert(d * b + d <= d * blocks) by (nonlinear_arith)
        requires
            b < blocks,
            d >= 2,
    ;
    assert(i == 2 * half * b + r) by (nonlinear_arith)
        requires
            i == d * b + r,
            d == 2 * half,
    ;
    if r < half {
        lemma_block_position(b, half, r + half);
    } else {
        lemma_block_position(b, half, r - half);
    }
}

/// An inverse stage undoes its forward stage, up to a factor 2.
pub proof fn lemma_inverse_of_forward_stage(
    z: Seq<nat>,
    zi: Seq<nat>,
    q: nat,
    x: Seq<nat>,
    blocks: int,
    half: int,
)
    requires
        q > 1,
        half >= 1,
        blocks >= 1,
        x.len() == 2 * half * blocks,
        twiddles_linked(z, zi, q, x.len()),
    ensures
        inverse_stage(zi, q, forward_stage(z, q, x, blocks, half), blocks, half) == scale_values(
            x,
            2,
            q,
        ),
{
    let y = forward_stage(z, q, x, blocks, half);
    let w = inverse_stage(zi, q, y, blocks, half);
    assert forall|i: int| 0 <= i < x.len() implies w[i] == mul_mod(x[i], 2, q) by {
        lemma_partner(blocks, half, i);
        let k = twiddle_index(blocks, half, i);
        if in_lower_half(half, i) {
            let t = mul_mod(z[k], x[i + half], q);
            assert(y[i] == add_mod(x[i], t, q));
            assert(y[i + half] == sub_mod(x[i], t, q));
            lemma_sum_of_pair(x[i], t, q);
        } else {
            let t = mul_mod(z[k], x[i], q);
            assert(y[i - half] == add_mod(x[i - half], t, q));
            assert(y[i] == sub_mod(x[i - half], t, q));
            lemma_difference_of_pair(x[i - half], x[i], z[k], zi[k], q);
        }
    }
    assert(w =~= scale_values(x, 2, q));
}

/// A forward stage undoes its inverse stage, up to a factor 2.
pub proof fn lemma_forward_of_inverse_stage(
    z: Seq<nat>,
    zi: Seq<nat>,
    q: nat,
    y: Seq<nat>,
    blocks: int,
    half: int,
)
    requires
        q > 1,
        half >= 1,
        blocks >= 1,
        y.len() == 2 * half * blocks,
        twiddles_linked(z, zi, q, y.len()),
    ensures
        forward_stage(z, q, inverse_stage(zi, q, y, blocks, half), blocks, half) == scale_values(
            y,
            2,
            q,
        ),
{
    let w = inverse_stage(zi, q, y, blocks, half);
    let x = forward_stage(z, q, w, blocks, half);
    assert forall|i: int| 0 <= i < y.len() implies x[i] == mul_mod(y[i], 2, q) by {
        lemma_partner(blocks, half, i);
        let k = twiddle_index(blocks, half, i);
        if in_lower_half(half, i) {
            assert(w[i] == add_mod(y[i], y[i + half], q));
            assert(w[i + half] == mul_mod(sub_mod(y[i], y[i + half], q), zi[k], q));
            lemma_rebuilt_sum(y[i], y[i + half], z[k], zi[k], q);
        } else {
            assert(w[i - half] == add_mod(y[i - half], y[i], q));
            assert(w[i] == mul_mod(sub_mod(y[i - half], y[i], q), zi[k], q));
            lemma_rebuilt_difference(y[i - half], y[i], z[k], zi[k], q);
        }
    }
    assert(x =~= scale_values(y, 2, q));
}

/// A forward stage commutes with scaling.
pub proof fn lemma_forward_stage_linear(
    z: Seq<nat>,
    q: nat,
    x: Seq<nat>,
    c: nat,
    blocks: int,
    half: int,
)
    requires
        q > 1,
        half >= 1,
        blocks >= 1,
        x.len() == 2 * half * blocks,
    ensures
        forward_stage(z, q, scale_values(x, c, q), blocks, half) == scale_values(
            forward_stage(z, q, x, blocks, half),
            c,
            q,
        ),
{
    let sx = scale_values(x, c, q);
    let left = forward_stage(z, q, sx, blocks, half);
    let right = scale_values(forward_stage(z, q, x, blocks, half), c, q);
    assert forall|i: int| 0 <= i < x.len() implies left[i] == right[i] by {
        lemma_partner(blocks, half, i);
        let k = twiddle_index(blocks, half, i);
        if in_lower_half(half, i) {
            lemma_scaled_product(x[i + half], c, z[k], q);
            lemma_scaled_sum(x[i], mul_mod(z[k], x[i + half], q), c, q);
        } else {
            lemma_scaled_product(x[i], c, z[k], q);
            lemma_scaled_difference(x[i - half], mul_mod(z[k], x[i], q), c, q);
        }
    }
    assert(left =~= right);
}

/// An inverse stage commutes with scaling.
pub proof fn lemma_inverse_stage_linear(
    zi: Seq<nat>,
    q: nat,
    y: Seq<nat>,
    c: nat,
    blocks: int,
    half: int,
)
    requires
        q > 1,
        half >= 1,
        blocks >= 1,
        y.len() == 2 * half * blocks,
    ensures
        inverse_stage(zi, q, scale_values(y, c, q), blocks, half) == scale_values(
            inverse_stage(zi, q, y, blocks, half),
            c,
            q,
        ),
{
    let sy = scale_values(y, c, q);
    let left = inverse_stage(zi, q, sy, blocks, half);
    let right = scale_values(inverse_stage(zi, q, y, blocks, half), c, q);
    assert forall|i: int| 0 <= i < y.len() implies left[i] == right[i] by {
        lemma_partner(blocks, half, i);
        let k = twiddle_index(blocks, half, i);
        if in_lower_half(half, i) {
            lemma_scaled_sum(y[i], y[i + half], c, q);
        } else {
            lemma_scaled_difference(y[i - half], y[i], c, q);
            lemma_scaled_product(sub_mod(y[i - half], y[i], q), c, zi[k], q);
        }
    }
    assert(left =~= right);
}

/// Every value lies below `q`.
pub open spec fn all_below(x: Seq<nat>, q: nat) -> bool {
    forall|i: int| 0 <= i < x.len() ==> x[i] < q
}

/// Stage sizes: `2 * 2^t * 2^(l - 1 - t) == 2^l`.
pub proof fn lemma_stage_size(l: nat, t: nat)
    requires
        t < l,
    ensures
        2 * (pow2(t) as int) * (pow2((l - 1 - t) as nat) as int) == pow2(l),
        pow2(t) >= 1,
        pow2((l - 1 - t) as nat) >= 1,
{
    lemma_pow2_adds(t, (l - 1 - t) as nat);
    lemma_pow2_unfold(l);
    lemma_pow2_pos(t);
    lemma_pow2_pos((l - 1 - t) as nat);
    let a = pow2(t) as int;
    let b = pow2((l - 1 - t) as nat) as int;
    assert(2 * a * b == 2 * (a * b)) by (nonlinear_arith);
}

/// Forward layers keep the length, and their values are canonical.
pub proof fn lemma_forward_layers_shape(z: Seq<nat>, q: nat, x: Seq<nat>, l: nat, s: nat)
    requires
        q > 0,
        all_below(x, q),
        s <= l,
    ensures
        forward_layers(z, q, x, l, s).len() == x.len(),
        all_below(forward_layers(z, q, x, l, s), q),
    decreases s,
{
    if s > 0 {
        lemma_forward_layers_shape(z, q, x, l, (s - 1) as nat);
        let prev = forward_layers(z, q, x, l, (s - 1) as nat);
        let blocks = pow2((s - 1) as nat) as int;
        let half = pow2((l - s) as nat) as int;
        let y = forward_stage(z, q, prev, blocks, half);
        assert forall|i: int| 0 <= i < y.len() implies y[i] < q by {
            let k = twiddle_index(blocks, half, i);
            if in_lower_half(half, i) {
                lemma_mod_bound((prev[i] + mul_mod(z[k], prev[i + half], q)) as int, q as int);
            } else {
                lemma_mod_bound(prev[i - half] - mul_mod(z[k], prev[i], q), q as int);
            }
        }
    }
}

/// Inverse layers keep the length.
pub proof fn lemma_inverse_layers_shape(zi: Seq<nat>, q: nat, y: Seq<nat>, l: nat, t: nat)
    requires
        t <= l,
    ensures
        inverse_layers(zi, q, y, l, t).len() == y.len(),
    decreases t,
{
    if t > 0 {
        lemma_inverse_layers_shape(zi, q, y, l, (t - 1) as nat);
    }
}

/// Scaling by 1 changes no canonical value.
pub proof fn lemma_scale_by_one(x: Seq<nat>, q: nat)
    requires
        q > 0,
        all_below(x, q),
    ensures
        scale_values(x, 1, q) == x,
{
    assert forall|i: int| 0 <= i < x.len() implies mul_mod(x[i], 1, q) == x[i] by {
        lemma_small_mod(x[i], q);
    }
    assert(scale_values(x, 1, q) =~= x);
}

/// Scaling by `c` and then by `d` is scaling by `c d`.
pub proof fn lemma_scale_twice(x: Seq<nat>, c: nat, d: nat, q: nat)
    requires
        q > 0,
    ensures
        scale_values(scale_values(x, c, q), d, q) == scale_values(x, c * d, q),
{
    assert forall|i: int| 0 <= i < x.len() implies mul_mod(mul_mod(x[i], c, q), d, q) == mul_mod(
        x[i],
        c * d,
        q,
    ) by {
        lemma_scaled_twice(x[i], c, d, q);
    }
    assert(scale_values(scale_values(x, c, q), d, q) =~= scale_values(x, c * d, q));
}

/// Scaling by a factor congruent to 1 changes no canonical value.
pub proof fn lemma_scale_by_unit(x: Seq<nat>, c: nat, q: nat)
    requires
        q > 1,
        all_below(x, q),
        c % q == 1,
    ensures
        scale_values(x, c, q) == x,
{
    assert forall|i: int| 0 <= i < x.len() implies mul_mod(x[i], c, q) == x[i] by {
        lemma_mul_mod_noop_right(x[i] as int, c as int, q as int);
        assert(x[i] * 1 == x[i]);
        lemma_small_mod(x[i], q);
    }
    assert(scale_values(x, c, q) =~= x);
}

/// The last `t` inverse layers undo the last `t` forward layers, up to a
/// factor `2^t`.
pub proof fn lemma_inverse_undoes_layers(
    z: Seq<nat>,
    zi: Seq<nat>,
    q: nat,
    x: Seq<nat>,
    l: nat,
    t: nat,
)
    requires
        q > 1,
        x.len() == pow2(l),
        all_below(x, q),
        twiddles_linked(z, zi, q, x.len()),
        t <= l,
    ensures
        inverse_layers(zi, q, forward_layers(z, q, x, l, l), l, t) == scale_values(
            forward_layers(z, q, x, l, (l - t) as nat),
            pow2(t),
            q,
        ),
    decreases t,
{
    let top = forward_layers(z, q, x, l, l);
    if t == 0 {
        lemma_forward_layers_shape(z, q, x, l, l);
        vstd::arithmetic::power2::lemma2_to64();
        lemma_scale_by_one(top, q);
    } else {
        let u = (t - 1) as nat;
        lemma_inverse_undoes_layers(z, zi, q, x, l, u);
        lemma_stage_size(l, u);
        let blocks = pow2((l - t) as nat) as int;
        let half = pow2(u) as int;
        let below = forward_layers(z, q, x, l, (l - t) as nat);
        let here = forward_layers(z, q, x, l, (l - u) as nat);
        lemma_forward_layers_shape(z, q, x, l, (l - t) as nat);
        assert(here == forward_stage(z, q, below, blocks, half));
        lemma_inverse_stage_linear(zi, q, here, pow2(u), blocks, half);
        lemma_inverse_of_forward_stage(z, zi, q, below, blocks, half);
        lemma_scale_twice(below, 2, pow2(u), q);
        lemma_pow2_unfold(t);
    }
}

/// The first `s` forward layers undo the first `s` inverse layers, up to a
/// factor `2^s`.
pub proof fn lemma_forward_undoes_layers(
    z: Seq<nat>,
    zi: Seq<nat>,
    q: nat,
    y: Seq<nat>,
    l: nat,
    s: nat,
)
    requires
        q > 1,
        y.len() == pow2(l),
        all_below(y, q),
        twiddles_linked(z, zi, q, y.len()),
        s <= l,
    ensures
        forward_layers(z, q, inverse_layers(zi, q, y, l, l), l, s) == scale_values(
            inverse_layers(zi, q, y, l, (l - s) as nat),
            pow2(s),
            q,
        ),
    decreases s,
{
    let top = inverse_layers(zi, q, y, l, l);
    if s == 0 {
        vstd::arithmetic::power2::lemma2_to64();
        lemma_inverse_layers_canonical(zi, q, y, l, l);
        lemma_scale_by_one(top, q);
    } else {
        let u = (s - 1) as nat;
        lemma_forward_undoes_layers(z, zi, q, y, l, u);
        lemma_stage_size(l, u);
        let blocks = pow2(u) as int;
        let half = pow2((l - s) as nat) as int;
        let below = inverse_layers(zi, q, y, l, (l - s) as nat);
        let here = inverse_layers(zi, q, y, l, (l - u) as nat);
        lemma_inverse_layers_shape(zi, q, y, l, (l - s) as nat);
        assert(here == inverse_stage(zi, q, below, blocks, half));
        assert(2 * half * blocks == 2 * blocks * half) by (nonlinear_arith);
        lemma_forward_stage_linear(z, q, here, pow2(u), blocks, half);
        lemma_forward_of_inverse_stage(z, zi, q, below, blocks, half);
        lemma_scale_twice(below, 2, pow2(u), q);
        lemma_pow2_unfold(s);
    }
}

/// Inverse layers of canonical values are canonical.
pub proof fn lemma_inverse_layers_canonical(zi: Seq<nat>, q: nat, y: Seq<nat>, l: nat, t: nat)
    requires
        q > 0,
        all_below(y, q),
        t <= l,
    ensures
        all_below(inverse_layers(zi, q, y, l, t), q),
    decreases t,
{
    if t > 0 {
        lemma_inverse_layers_canonical(zi, q, y, l, (t - 1) as nat);
        let prev = inverse_layers(zi, q, y, l, (t - 1) as nat);
        let blocks = pow2((l - t) as nat) as int;
        let half = pow2((t - 1) as nat) as int;
        let w = inverse_stage(zi, q, prev, blocks, half);
        assert forall|i: int| 0 <= i < w.len() implies w[i] < q by {
            let k = twiddle_index(blocks, half, i);
            if in_lower_half(half, i) {
                lemma_mod_bound((prev[i] + prev[i + half]) as int, q as int);
            } else {
                lemma_mod_bound((sub_mod(prev[i - half], prev[i], q) * zi[k]) as int, q as int);
            }
        }
    }
}

/// Forward layers commute with scaling.
pub proof fn lemma_forward_layers_linear(z: Seq<nat>, q: nat, x: Seq<nat>, c: nat, l: nat, s: nat)
    requires
        q > 1,
        x.len() == pow2(l),
        s <= l,
    ensures
        forward_layers(z, q, scale_values(x, c, q), l, s) == scale_values(
            forward_layers(z, q, x, l, s),
            c,
            q,
        ),
    decreases s,
{
    if s > 0 {
        let u = (s - 1) as nat;
        lemma_forward_layers_linear(z, q, x, c, l, u);
        lemma_stage_size(l, (l - s) as nat);
        let blocks = pow2(u) as int;
        let half = pow2((l - s) as nat) as int;
        let prev = forward_layers(z, q, x, l, u);
        lemma_forward_layers_length(z, q, x, l, u);
        assert(2 * half * blocks == 2 * blocks * half) by (nonlinear_arith);
        lemma_forward_stage_linear(z, q, prev, c, blocks, half);
    }
}

/// Forward layers keep the length.
pub proof fn lemma_forward_layers_length(z: Seq<nat>, q: nat, x: Seq<nat>, l: nat, s: nat)
    ensures
        forward_layers(z, q, x, l, s).len() == x.len(),
    decreases s,
{
    if s > 0 && s <= l {
        lemma_forward_layers_length(z, q, x, l, (s - 1) as nat);
    }
}

} // verus!
