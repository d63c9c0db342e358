//! The butterfly network, stage by stage, as functions on sequences of
//! field values.
//!
//! A transform of size `n = 2^L` has `L` stages. Stage `s` works on
//! `2^s` blocks of `2 * half` values each, `half = 2^(L - 1 - s)`, and
//! block `b` uses the twiddle at index `2^s + b`.

use vstd::prelude::*;
use vstd::arithmetic::div_mod::lemma_fundamental_div_mod_converse;
use vstd::arithmetic::power2::pow2;
use crate::field::modular::{add_mod, mul_mod, sub_mod};

verus! {

/// Index of the twiddle that position `i` uses in a stage of `blocks` blocks.
pub open spec fn twiddle_index(blocks: int, half: int, i: int) -> int {
    blocks + i / (2 * half)
}

/// Whether position `i` is in the lower half of its block.
pub open spec fn in_lower_half(half: int, i: int) -> bool {
    i % (2 * half) < half
}

/// One output of a forward stage: the pair `(u, v)` at distance `half`
/// becomes `(u + z v, u - z v)`.
pub open spec fn forward_at(z: Seq<nat>, q: nat, x: Seq<nat>, blocks: int, half: int, i: int) -> nat {
    let k = twiddle_index(blocks, half, i);
    if in_lower_half(half, i) {
        add_mod(x[i], mul_mod(z[k], x[i + half], q), q)
    } else {
        sub_mod(x[i - half], mul_mod(z[k], x[i], q), q)
    }
}

/// One forward stage.
pub open spec fn forward_stage(z: Seq<nat>, q: nat, x: Seq<nat>, blocks: int, half: int) -> Seq<nat> {
    Seq::new(x.len(), |i: int| forward_at(z, q, x, blocks, half, i))
}

/// One output of an inverse stage: the pair `(u, v)` at distance `half`
/// becomes `(u + v, (u - v) z')`, with `z'` the inverse twiddle.
pub open spec fn inverse_at(zi: Seq<nat>, q: nat, y: Seq<nat>, blocks: int, half: int, i: int) -> nat {
    let k = twiddle_index(blocks, half, i);
    if in_lower_half(half, i) {
        add_mod(y[i], y[i + half], q)
    } else {
        mul_mod(sub_mod(y[i - half], y[i], q), zi[k], q)
    }
}

/// One inverse stage, without the halving that would undo a forward stage
/// exactly.
pub open spec fn inverse_stage(zi: Seq<nat>, q: nat, y: Seq<nat>, blocks: int, half: int) -> Seq<nat> {
    Seq::new(y.len(), |i: int| inverse_at(zi, q, y, blocks, half, i))
}

/// The first `s` forward stages of a transform of size `2^log_n`.
pub open spec fn forward_layers(z: Seq<nat>, q: nat, x: Seq<nat>, log_n: nat, s: nat) -> Seq<nat>
    decreases s,
{
    if s == 0 || s > log_n {
        x
    } else {
        forward_stage(
            z,
            q,
            forward_layers(z, q, x, log_n, (s - 1) as nat),
            pow2((s - 1) as nat) as int,
            pow2((log_n - s) as nat) as int,
        )
    }
}

/// The last `t` stages of a transform of size `2^log_n`, inverted in
/// reverse order.
pub open spec fn inverse_layers(zi: Seq<nat>, q: nat, y: Seq<nat>, log_n: nat, t: nat) -> Seq<nat>
    decreases t,
{
    if t == 0 || t > log_n {
        y
    } else {
        inverse_stage(
            zi,
            q,
            inverse_layers(zi, q, y, log_n, (t - 1) as nat),
            pow2((log_n - t) as nat) as int,
            pow2((t - 1) as nat) as int,
        )
    }
}

/// Every value multiplied by `c`.
pub open spec fn scale_values(x: Seq<nat>, c: nat, q: nat) -> Seq<nat> {
    Seq::new(x.len(), |i: int| mul_mod(x[i], c, q))
}

/// Position `r` of block `b` lies in block `b`.
pub proof fn lemma_block_position(b: int, half: int, r: int)
    requires
        0 <= r < 2 * half,
    ensures
        (2 * half * b + r) / (2 * half) == b,
        (2 * half * b + r) % (2 * half) == r,
{
    let d = 2 * half;
    assert(2 * half * b + r == b * d + r) by (nonlinear_arith)
        requires
            d == 2 * half,
    ;
    lemma_fundamental_div_mod_converse(2 * half * b + r, d, b, r);
}

} // verus!
