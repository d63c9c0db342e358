//! What the forward network computes: the values of the polynomial at the
//! roots of `X^n + 1`.
//!
//! After `s` stages the data is cut into `2^s` blocks. Block `b` belongs to
//! tree node `k = 2^s + b` and holds the remainder of the polynomial modulo
//! `X^size - r_k`, where `size = n / 2^s` and `r_k` is the node's constant.
//! A butterfly stage splits `X^size - r_k` into `X^(size/2) - z_k` and
//! `X^(size/2) + z_k`, with `z_k^2 = r_k`.

use vstd::prelude::*;
use vstd::arithmetic::div_mod::{
    lemma_add_mod_noop, lemma_fundamental_div_mod, lemma_fundamental_div_mod_converse,
    lemma_mod_bound, lemma_mul_mod_noop, lemma_mul_mod_noop_right, lemma_small_mod,
    lemma_sub_mod_noop,
};
use vstd::arithmetic::power2::{lemma_pow2_pos, lemma_pow2_unfold, pow2};
use crate::field::modular::{
    add_mod, lemma_add_congruent, lemma_mul_congruent, mul_mod, neg_mod, sub_mod,
};
use crate::poly::inverse::{all_below, lemma_stage_size};
use crate::poly::stages::{forward_layers, forward_stage, in_lower_half, twiddle_index};
use crate::poly::tables::{node_root, twiddles_linked};

verus! {

/// `x[start] + r x[start + stride] + r^2 x[start + 2 stride] + ...`,
/// `count` terms, as an integer.
pub open spec fn strided_eval(x: Seq<nat>, start: int, stride: int, count: nat, r: int) -> int
    decreases count,
{
    if count == 0 {
        0
    } else {
        x[start] + r * strided_eval(x, start + stride, stride, (count - 1) as nat, r)
    }
}

/// The value at `r` of the polynomial with coefficients `x`, as an integer.
pub open spec fn poly_eval(x: Seq<nat>, r: int) -> int {
    strided_eval(x, 0, 1, x.len(), r)
}

/// A strided sum splits into its even and its odd terms.
pub proof fn lemma_eval_split(x: Seq<nat>, start: int, stride: int, count: nat, r: int)
    ensures
        strided_eval(x, start, stride, 2 * count, r) == strided_eval(
            x,
            start,
            2 * stride,
            count,
            r * r,
        ) + r * strided_eval(x, start + stride, 2 * stride, count, r * r),
    decreases count,
{
    if count == 0 {
        assert(r * 0 == 0);
    } else {
        let c = (count - 1) as nat;
        lemma_eval_split(x, start + 2 * stride, stride, c, r);
        let a0 = x[start] as int;
        let a1 = x[start + stride] as int;
        let rest = strided_eval(x, start + 2 * stride, stride, 2 * c, r);
        let even = strided_eval(x, start + 2 * stride, 2 * stride, c, r * r);
        let odd = strided_eval(x, start + 3 * stride, 2 * stride, c, r * r);
        assert(strided_eval(x, start + stride, stride, (2 * count - 1) as nat, r) == a1 + r
            * rest);
        assert(strided_eval(x, start, stride, 2 * count, r) == a0 + r * (a1 + r * rest));
        assert(start + stride + 2 * stride == start + 3 * stride);
        assert(a0 + r * (a1 + r * (even + r * odd)) == (a0 + (r * r) * even) + r * (a1 + (r
            * r) * odd)) by (nonlinear_arith);
    }
}

/// Congruent points give congruent sums.
pub proof fn lemma_eval_congruent(
    x: Seq<nat>,
    start: int,
    stride: int,
    count: nat,
    r1: int,
    r2: int,
    q: int,
)
    requires
        q > 0,
        r1 % q == r2 % q,
    ensures
        strided_eval(x, start, stride, count, r1) % q == strided_eval(
            x,
            start,
            stride,
            count,
            r2,
        ) % q,
    decreases count,
{
    if count > 0 {
        let c = (count - 1) as nat;
        lemma_eval_congruent(x, start + stride, stride, c, r1, r2, q);
        let s1 = strided_eval(x, start + stride, stride, c, r1);
        let s2 = strided_eval(x, start + stride, stride, c, r2);
        lemma_mul_congruent(r1, r2, s1, s2, q);
        lemma_add_congruent(x[start] as int, x[start] as int, r1 * s1, r2 * s2, q);
    }
}

/// What position `i` holds when the data is cut into `blocks` blocks of
/// `size` values: the strided sum of its residue class, at the constant of
/// its block's node.
pub open spec fn block_value(z: Seq<nat>, q: nat, x: Seq<nat>, blocks: int, size: int, i: int) -> nat {
    (strided_eval(x, i % size, size, blocks as nat, node_root(z, q, blocks + i / size) as int) % (
    q as int)) as nat
}

/// The data after the stages that cut it into `blocks` blocks of `size`.
pub open spec fn block_values(z: Seq<nat>, q: nat, x: Seq<nat>, blocks: int, size: int) -> Seq<nat> {
    Seq::new(x.len(), |i: int| block_value(z, q, x, blocks, size, i))
}

/// The lower output of a butterfly, as a congruence.
proof fn lemma_butterfly_low(y0: nat, y1: nat, s0: int, s1: int, e0: int, e1: int, z: nat, q: nat)
    requires
        q > 0,
        y0 == s0 % (q as int),
        y1 == s1 % (q as int),
        e0 % (q as int) == s0 % (q as int),
        e1 % (q as int) == s1 % (q as int),
    ensures
        add_mod(y0, mul_mod(z, y1, q), q) == (e0 + z * e1) % (q as int),
{
    let m = q as int;
    let zz = z as int;
    lemma_mul_mod_noop_right(zz, s1, m);
    lemma_add_mod_noop(s0, zz * s1, m);
    lemma_mul_congruent(zz, zz, e1, s1, m);
    lemma_add_congruent(e0, s0, zz * e1, zz * s1, m);
}

/// The upper output of a butterfly, as a congruence.
proof fn lemma_butterfly_high(
    y0: nat,
    y1: nat,
    s0: int,
    s1: int,
    e0: int,
    e1: int,
    z: nat,
    w: nat,
    q: nat,
)
    requires
        q > 0,
        w == neg_mod(z, q),
        y0 == s0 % (q as int),
        y1 == s1 % (q as int),
        e0 % (q as int) == s0 % (q as int),
        e1 % (q as int) == s1 % (q as int),
    ensures
        sub_mod(y0, mul_mod(z, y1, q), q) == (e0 + w * e1) % (q as int),
{
    let m = q as int;
    let zz = z as int;
    let ww = w as int;
    lemma_mul_mod_noop_right(zz, s1, m);
    lemma_sub_mod_noop(s0, zz * s1, m);
    lemma_mod_bound(0 - zz, m);
    lemma_small_mod(w, q);
    lemma_mul_congruent(ww, 0 - zz, e1, s1, m);
    lemma_add_congruent(e0, s0, ww * e1, (0 - zz) * s1, m);
    assert(s0 + (0 - zz) * s1 == s0 - zz * s1) by (nonlinear_arith);
    lemma_mod_bound(s0 - zz * s1, m);
    lemma_mod_bound(s0 % m - (zz * s1) % m, m);
    lemma_mod_bound(zz * (s1 % m), m);
}

/// The square of a negated twiddle is the square of the twiddle.
pub proof fn lemma_negated_square(z: nat, q: nat)
    requires
        q > 0,
    ensures
        mul_mod(neg_mod(z, q), neg_mod(z, q), q) == mul_mod(z, z, q),
{
    let m = q as int;
    let zz = z as int;
    lemma_mod_bound(0 - zz, m);
    lemma_mul_mod_noop(0 - zz, 0 - zz, m);
    assert((0 - zz) * (0 - zz) == zz * zz) by (nonlinear_arith);
}

/// The lower output of the butterfly at residue `r` of block `b`.
proof fn lemma_refine_low(
    z: Seq<nat>,
    zi: Seq<nat>,
    q: nat,
    x: Seq<nat>,
    blocks: int,
    half: int,
    b: int,
    r: int,
)
    requires
        q > 1,
        half >= 1,
        0 <= b < blocks,
        0 <= r < half,
        twiddles_linked(z, zi, q, x.len()),
        blocks + b < x.len(),
    ensures
        ({
            let k = blocks + b;
            let rho = node_root(z, q, k) as int;
            let y0 = (strided_eval(x, r, 2 * half, blocks as nat, rho) % (q as int)) as nat;
            let y1 = (strided_eval(x, r + half, 2 * half, blocks as nat, rho) % (q as int)) as nat;
            add_mod(y0, mul_mod(z[k], y1, q), q) == strided_eval(
                x,
                r,
                half,
                (2 * blocks) as nat,
                z[k] as int,
            ) % (q as int)
        }),
{
    let m = q as int;
    let size = 2 * half;
    let k = blocks + b;
    let zk = z[k];
    let rho = node_root(z, q, k) as int;
    assert(mul_mod(zk, zk, q) == node_root(z, q, k));
    lemma_small_mod(node_root(z, q, k), q);
    let s0 = strided_eval(x, r, size, blocks as nat, rho);
    let s1 = strided_eval(x, r + half, size, blocks as nat, rho);
    let sq = (zk * zk) as int;
    let e0 = strided_eval(x, r, size, blocks as nat, sq);
    let e1 = strided_eval(x, r + half, size, blocks as nat, sq);
    lemma_eval_congruent(x, r, size, blocks as nat, sq, rho, m);
    lemma_eval_congruent(x, r + half, size, blocks as nat, sq, rho, m);
    lemma_eval_split(x, r, half, blocks as nat, zk as int);
    lemma_mod_bound(s0, m);
    lemma_mod_bound(s1, m);
    lemma_butterfly_low((s0 % m) as nat, (s1 % m) as nat, s0, s1, e0, e1, zk, q);
}

/// The upper output of the butterfly at residue `r` of block `b`.
proof fn lemma_refine_high(
    z: Seq<nat>,
    zi: Seq<nat>,
    q: nat,
    x: Seq<nat>,
    blocks: int,
    half: int,
    b: int,
    r: int,
)
    requires
        q > 1,
        half >= 1,
        0 <= b < blocks,
        0 <= r < half,
        twiddles_linked(z, zi, q, x.len()),
        blocks + b < x.len(),
    ensures
        ({
            let k = blocks + b;
            let rho = node_root(z, q, k) as int;
            let y0 = (strided_eval(x, r, 2 * half, blocks as nat, rho) % (q as int)) as nat;
            let y1 = (strided_eval(x, r + half, 2 * half, blocks as nat, rho) % (q as int)) as nat;
            sub_mod(y0, mul_mod(z[k], y1, q), q) == strided_eval(
                x,
                r,
                half,
                (2 * blocks) as nat,
                neg_mod(z[k], q) as int,
            ) % (q as int)
        }),
{
    let m = q as int;
    let size = 2 * half;
    let k = blocks + b;
    let zk = z[k];
    let w = neg_mod(zk, q);
    let rho = node_root(z, q, k) as int;
    assert(mul_mod(zk, zk, q) == node_root(z, q, k));
    lemma_small_mod(node_root(z, q, k), q);
    let s0 = strided_eval(x, r, size, blocks as nat, rho);
    let s1 = strided_eval(x, r + half, size, blocks as nat, rho);
    let sq = (w * w) as int;
    let e0 = strided_eval(x, r, size, blocks as nat, sq);
    let e1 = strided_eval(x, r + half, size, blocks as nat, sq);
    lemma_negated_square(zk, q);
    lemma_eval_congruent(x, r, size, blocks as nat, sq, rho, m);
    lemma_eval_congruent(x, r + half, size, blocks as nat, sq, rho, m);
    lemma_eval_split(x, r, half, blocks as nat, w as int);
    lemma_mod_bound(s0, m);
    lemma_mod_bound(s1, m);
    lemma_butterfly_high((s0 % m) as nat, (s1 % m) as nat, s0, s1, e0, e1, zk, w, q);
}

/// The index facts of a butterfly whose lower position is residue `r` of
/// block `b`.
proof fn lemma_butterfly_positions(blocks: int, half: int, b: int, r: int)
    requires
        half >= 1,
        0 <= b < blocks,
        0 <= r < half,
    ensures
        ({
            let size = 2 * half;
            let lo = size * b + r;
            let hi = lo + half;
            &&& 0 <= lo < hi < size * blocks
            &&& lo / size == b && lo % size == r
            &&& hi / size == b && hi % size == r + half
            &&& lo / half == 2 * b && lo % half == r
            &&& hi / half == 2 * b + 1 && hi % half == r
            &&& (2 * blocks + 2 * b) / 2 == blocks + b
            &&& (2 * blocks + 2 * b + 1) / 2 == blocks + b
        }),
{
    let size = 2 * half;
    let lo = size * b + r;
    let hi = lo + half;
    assert(size * b + size <= size * blocks) by (nonlinear_arith)
        requires
            b < blocks,
            size >= 2,
    ;
    assert(size * b >= 0) by (nonlinear_arith)
        requires
            b >= 0,
            size >= 2,
    ;
    assert(lo == b * size + r) by (nonlinear_arith)
        requires
            lo == size * b + r,
    ;
    assert(hi == b * size + (r + half)) by (nonlinear_arith)
        requires
            hi == size * b + r + half,
    ;
    lemma_fundamental_div_mod_converse(lo, size, b, r);
    lemma_fundamental_div_mod_converse(hi, size, b, r + half);
    assert(lo == (2 * b) * half + r) by (nonlinear_arith)
        requires
            lo == size * b + r,
            size == 2 * half,
    ;
    assert(hi == (2 * b + 1) * half + r) by (nonlinear_arith)
        requires
            hi == size * b + r + half,
            size == 2 * half,
    ;
    lemma_fundamental_div_mod_converse(lo, half, 2 * b, r);
    lemma_fundamental_div_mod_converse(hi, half, 2 * b + 1, r);
}

/// What a forward stage makes of the two positions of one butterfly
/// are their block values in the finer cut.
proof fn lemma_refine_pair(
    z: Seq<nat>,
    zi: Seq<nat>,
    q: nat,
    x: Seq<nat>,
    blocks: int,
    half: int,
    b: int,
    r: int,
)
    requires
        q > 1,
        half >= 1,
        blocks >= 1,
        x.len() == 2 * half * blocks,
        twiddles_linked(z, zi, q, x.len()),
        0 <= b < blocks,
        0 <= r < half,
    ensures
        ({
            let y = block_values(z, q, x, blocks, 2 * half);
            let lo = 2 * half * b + r;
            &&& crate::poly::stages::forward_at(z, q, y, blocks, half, lo) == block_value(
                z,
                q,
                x,
                2 * blocks,
                half,
                lo,
            )
            &&& crate::poly::stages::forward_at(z, q, y, blocks, half, lo + half) == block_value(
                z,
                q,
                x,
                2 * blocks,
                half,
                lo + half,
            )
        }),
{
    let size = 2 * half;
    let y = block_values(z, q, x, blocks, size);
    let lo = size * b + r;
    let hi = lo + half;
    let k = blocks + b;
    lemma_butterfly_positions(blocks, half, b, r);
    assert(2 * blocks <= 2 * half * blocks) by (nonlinear_arith)
        requires
            half >= 1,
            blocks >= 1,
    ;
    assert(y[lo] == block_value(z, q, x, blocks, size, lo));
    assert(y[hi] == block_value(z, q, x, blocks, size, hi));
    lemma_refine_low(z, zi, q, x, blocks, half, b, r);
    lemma_refine_high(z, zi, q, x, blocks, half, b, r);
    assert(twiddle_index(blocks, half, lo) == k);
    assert(twiddle_index(blocks, half, hi) == k);
    assert(in_lower_half(half, lo));
    assert(!in_lower_half(half, hi));
    assert(node_root(z, q, 2 * blocks + 2 * b) == z[k]);
    assert(node_root(z, q, 2 * blocks + 2 * b + 1) == neg_mod(z[k], q));
}

/// What a forward stage makes of position `i` of a cut into blocks of
/// `2 half` is the block value of `i` in the cut into blocks of `half`.
proof fn lemma_refine_at(
    z: Seq<nat>,
    zi: Seq<nat>,
    q: nat,
    x: Seq<nat>,
    blocks: int,
    half: int,
    i: int,
)
    requires
        q > 1,
        half >= 1,
        blocks >= 1,
        x.len() == 2 * half * blocks,
        twiddles_linked(z, zi, q, x.len()),
        0 <= i < x.len(),
    ensures
        crate::poly::stages::forward_at(
            z,
            q,
            block_values(z, q, x, blocks, 2 * half),
            blocks,
            half,
            i,
        ) == block_value(z, q, x, 2 * blocks, half, i),
{
    let size = 2 * half;
    let b = i / size;
    let r = i % size;
    lemma_fundamental_div_mod(i, size);
    lemma_mod_bound(i, size);
    assert(0 <= b < blocks) by (nonlinear_arith)
        requires
            i == size * b + r,
            0 <= r < size,
            0 <= i < size * blocks,
            size >= 2,
    ;
    if r < half {
        lemma_refine_pair(z, zi, q, x, blocks, half, b, r);
    } else {
        lemma_refine_pair(z, zi, q, x, blocks, half, b, r - half);
    }
}

/// One forward stage takes the block values of one cut to those of the
/// next finer cut.
pub proof fn lemma_stage_refines(
    z: Seq<nat>,
    zi: Seq<nat>,
    q: nat,
    x: Seq<nat>,
    blocks: int,
    half: int,
)
    requires
        q > 1,
        half >= 1,
        blocks >= 1,
        x.len() == 2 * half * blocks,
        twiddles_linked(z, zi, q, x.len()),
    ensures
        forward_stage(z, q, block_values(z, q, x, blocks, 2 * half), blocks, half) == block_values(
            z,
            q,
            x,
            2 * blocks,
            half,
        ),
{
    let y = block_values(z, q, x, blocks, 2 * half);
    let next = forward_stage(z, q, y, blocks, half);
    let want = block_values(z, q, x, 2 * blocks, half);
    assert forall|i: int| 0 <= i < x.len() implies next[i] == want[i] by {
        lemma_refine_at(z, zi, q, x, blocks, half, i);
    }
    assert(next =~= want);
}

/// The first `s` forward layers cut the data into `2^s` blocks of block
/// values.
pub proof fn lemma_layers_are_block_values(
    z: Seq<nat>,
    zi: Seq<nat>,
    q: nat,
    x: Seq<nat>,
    l: nat,
    s: nat,
)
    requires
        q > 1,
        x.len() == pow2(l),
        all_below(x, q),
        twiddles_linked(z, zi, q, x.len()),
        s <= l,
    ensures
        forward_layers(z, q, x, l, s) == block_values(
            z,
            q,
            x,
            pow2(s) as int,
            pow2((l - s) as nat) as int,
        ),
    decreases s,
{
    if s == 0 {
        vstd::arithmetic::power2::lemma2_to64();
        lemma_pow2_pos(l);
        let n = x.len() as int;
        let want = block_values(z, q, x, 1, n);
        assert forall|i: int| 0 <= i < n implies want[i] == x[i] by {
            lemma_fundamental_div_mod_converse(i, n, 0, i);
            let rho = node_root(z, q, 1) as int;
            assert(strided_eval(x, i + n, n, 0, rho) == 0);
            assert(strided_eval(x, i, n, 1, rho) == x[i] + rho * 0);
            lemma_small_mod(x[i], q);
        }
        assert(want =~= x);
    } else {
        let u = (s - 1) as nat;
        lemma_layers_are_block_values(z, zi, q, x, l, u);
        lemma_stage_size(l, (l - s) as nat);
        lemma_pow2_unfold(s);
        lemma_pow2_unfold((l - u) as nat);
        let blocks = pow2(u) as int;
        let half = pow2((l - s) as nat) as int;
        assert(2 * half * blocks == 2 * blocks * half) by (nonlinear_arith);
        lemma_stage_refines(z, zi, q, x, blocks, half);
    }
}

/// The whole network leaves at position `i` the value of the polynomial
/// at the constant of leaf `n + i`.
pub proof fn lemma_network_evaluates(z: Seq<nat>, zi: Seq<nat>, q: nat, x: Seq<nat>, l: nat)
    requires
        q > 1,
        x.len() == pow2(l),
        all_below(x, q),
        twiddles_linked(z, zi, q, x.len()),
    ensures
        forward_layers(z, q, x, l, l) == Seq::new(
            x.len(),
            |i: int| (poly_eval(x, node_root(z, q, x.len() + i) as int) % (q as int)) as nat,
        ),
{
    lemma_layers_are_block_values(z, zi, q, x, l, l);
    vstd::arithmetic::power2::lemma2_to64();
    let n = x.len() as int;
    let got = block_values(z, q, x, n, 1);
    let want = Seq::new(
        x.len(),
        |i: int| (poly_eval(x, node_root(z, q, x.len() + i) as int) % (q as int)) as nat,
    );
    assert forall|i: int| 0 <= i < n implies got[i] == want[i] by {
        lemma_fundamental_div_mod_converse(i, 1, i, 0);
    }
    assert(got =~= want);
}

/// The constant of a node on level `s` of the tree is a root of
/// `X^(2^s) + 1`.
pub proof fn lemma_node_root_power(z: Seq<nat>, zi: Seq<nat>, q: nat, n: nat, k: int, s: nat)
    requires
        q > 1,
        twiddles_linked(z, zi, q, n),
        pow2(s) <= k < pow2(s + 1),
        k < 2 * n,
    ensures
        vstd::arithmetic::power::pow(node_root(z, q, k) as int, pow2(s)) % (q as int) == q - 1,
    decreases s,
{
    let m = q as int;
    let rho = node_root(z, q, k) as int;
    vstd::arithmetic::power2::lemma2_to64();
    if s == 0 {
        vstd::arithmetic::power::lemma_pow1(rho);
        lemma_small_mod((q - 1) as nat, q);
    } else {
        let u = (s - 1) as nat;
        let p = k / 2;
        lemma_pow2_unfold(s);
        lemma_pow2_unfold(s + 1);
        lemma_node_root_power(z, zi, q, n, p, u);
        let parent = node_root(z, q, p) as int;
        assert(mul_mod(z[p], z[p], q) == node_root(z, q, p));
        if k % 2 != 0 {
            lemma_negated_square(z[p], q);
        }
        assert((rho * rho) % m == parent);
        vstd::arithmetic::power::lemma_square_is_pow2(rho);
        vstd::arithmetic::power::lemma_pow_multiplies(rho, 2, pow2(u));
        vstd::arithmetic::power::lemma_pow_mod_noop(rho * rho, pow2(u), m);
    }
}

} // verus!
