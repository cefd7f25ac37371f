//! The burnout decay chain: `k` successive fixed-point multiplications by
//! exp(-1/100), the integer stand-in for exp(-k/100).

use vstd::arithmetic::div_mod::lemma_div_is_ordered;
use vstd::arithmetic::div_mod::lemma_div_multiples_vanish;
use vstd::arithmetic::div_mod::lemma_div_multiples_vanish_fancy;
use vstd::arithmetic::div_mod::lemma_div_pos_is_pos;
use vstd::arithmetic::mul::lemma_mul_inequality;
use vstd::prelude::*;

verus! {

/// Scale of the burnout factor: parts per 10^12.
pub const B_SCALE: u64 = 1_000_000_000_000;

/// exp(-1/100) at `B_SCALE` precision, rounded down.
pub const DECAY_STEP: u64 = 990_049_833_749;

/// The decay chain: start at `B_SCALE` (one) and multiply by
/// `DECAY_STEP / B_SCALE` a total of `k` times, rounding down each time.
pub open spec fn spec_exp_decay(k: nat) -> int
    decreases k,
{
    if k == 0 {
        B_SCALE as int
    } else {
        spec_exp_decay((k - 1) as nat) * DECAY_STEP / (B_SCALE as int)
    }
}

/// The chain stays within [0, B_SCALE].
pub proof fn lemma_exp_decay_bounds(k: nat)
    ensures
        0 <= spec_exp_decay(k) <= B_SCALE,
    decreases k,
{
    if k > 0 {
        lemma_exp_decay_bounds((k - 1) as nat);
        let y = spec_exp_decay((k - 1) as nat);
        lemma_div_pos_is_pos(y * DECAY_STEP, B_SCALE as int);
        lemma_mul_inequality(y, B_SCALE as int, DECAY_STEP as int);
        lemma_div_is_ordered(y * DECAY_STEP, (B_SCALE as int) * DECAY_STEP, B_SCALE as int);
        lemma_div_multiples_vanish(DECAY_STEP as int, B_SCALE as int);
        assert((B_SCALE as int) * DECAY_STEP == (B_SCALE as int) * (DECAY_STEP as int));
    }
}

/// One step of the chain strictly shrinks any positive value.
pub proof fn lemma_exp_decay_step_strict(k: nat)
    requires
        spec_exp_decay(k) >= 1,
    ensures
        spec_exp_decay(k + 1) < spec_exp_decay(k),
{
    lemma_exp_decay_bounds(k);
    let y = spec_exp_decay(k);
    let s = B_SCALE as int;
    lemma_mul_inequality(DECAY_STEP as int, s - 1, y);
    assert(y * DECAY_STEP == (DECAY_STEP as int) * y && y * (s - 1) == (s - 1) * y)
        by (nonlinear_arith);
    assert(y * (s - 1) == s * (y - 1) + (s - y)) by (nonlinear_arith);
    lemma_div_multiples_vanish_fancy(y - 1, s - y, s);
    lemma_div_is_ordered(y * DECAY_STEP, y * (s - 1), s);
    assert((k + 1) as nat != 0 && ((k + 1) as nat - 1) as nat == k);
}

/// The chain never grows along its index.
pub proof fn lemma_exp_decay_monotone(i: nat, j: nat)
    requires
        i <= j,
    ensures
        spec_exp_decay(j) <= spec_exp_decay(i),
    decreases j - i,
{
    if i < j {
        lemma_exp_decay_monotone(i, (j - 1) as nat);
        let y = spec_exp_decay((j - 1) as nat);
        lemma_exp_decay_bounds((j - 1) as nat);
        lemma_mul_inequality(DECAY_STEP as int, B_SCALE as int, y);
        assert(y * DECAY_STEP == (DECAY_STEP as int) * y && y * (B_SCALE as int) == (
        B_SCALE as int) * y) by (nonlinear_arith);
        lemma_div_is_ordered(y * DECAY_STEP, y * (B_SCALE as int), B_SCALE as int);
        assert(y * (B_SCALE as int) == (B_SCALE as int) * y);
        lemma_div_multiples_vanish(y, B_SCALE as int);
    }
}

/// The chain strictly falls along its index until it reaches zero.
pub proof fn lemma_exp_decay_strictly_falls(i: nat, j: nat)
    requires
        i < j,
        spec_exp_decay(i) >= 1,
    ensures
        spec_exp_decay(j) < spec_exp_decay(i),
{
    lemma_exp_decay_step_strict(i);
    lemma_exp_decay_monotone(i + 1, j);
}

/// Evaluate the decay chain.
pub fn exp_decay(k: u64) -> (r: u64)
    ensures
        r == spec_exp_decay(k as nat),
        r <= B_SCALE,
{
    let mut y: u64 = B_SCALE;
    let mut i: u64 = 0;
    while i < k
        invariant
            i <= k,
            y == spec_exp_decay(i as nat),
            y <= B_SCALE,
        decreases k - i,
    {
        proof {
            lemma_exp_decay_bounds((i + 1) as nat);
            assert(((i + 1) as nat - 1) as nat == i as nat);
        }
        y = ((y as u128) * (DECAY_STEP as u128) / (B_SCALE as u128)) as u64;
        i = i + 1;
    }
    y
}

} // verus!
