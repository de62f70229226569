//! The online learner: the policy-selection probability and its
//! multiplicative-weights update.
//!
//! Probabilities are fixed-point numbers over the denominator [`PROB_SCALE`]:
//! a stored `p` stands for the probability `p / PROB_SCALE` of drawing LFU,
//! and `PROB_SCALE - p` stands for the probability of drawing LRU, so the two
//! always sum to one exactly. A ghost hit in one policy's history rewards the
//! other policy: its weight is boosted by an exponential factor of a reward
//! that decays with the dwell time, the weights are renormalized, and the
//! result is clamped away from the endpoints so that neither probability
//! ever reaches zero.

use vstd::prelude::*;
use vstd::arithmetic::div_mod::{
    lemma_div_is_ordered, lemma_div_multiples_vanish, lemma_div_pos_is_pos,
};
use crate::enums::Policy;

verus! {

/// Denominator of the stored policy-selection probability.
pub const PROB_SCALE: u64 = 1_000_000;

/// The minority probability never drops below this numerator.
pub const PROB_FLOOR: u64 = 1;

/// Denominator of the reward and boost fixed-point values.
pub const FIX_SCALE: u64 = 1_000_000;

/// The learning rate, about 0.45, over `FIX_SCALE`.
pub const LEARNING_RATE_FIX: u64 = 450_000;

/// The per-tick decay base of the reward, 0.9 over `FIX_SCALE`.
pub const DISCOUNT_RATE_FIX: u64 = 900_000;

/// The time-decayed reward of a ghost hit after a dwell of `dt` clock
/// ticks: the discount base raised to `dt`, in fixed point.
pub open spec fn spec_reward(dt: nat) -> int
    decreases dt,
{
    if dt == 0 {
        FIX_SCALE as int
    } else {
        spec_reward((dt - 1) as nat) * DISCOUNT_RATE_FIX / (FIX_SCALE as int)
    }
}

/// The reward stays within `[0, FIX_SCALE]`.
pub proof fn lemma_reward_bounds(dt: nat)
    ensures
        0 <= spec_reward(dt) <= FIX_SCALE,
    decreases dt,
{
    if dt > 0 {
        lemma_reward_bounds((dt - 1) as nat);
        let r = spec_reward((dt - 1) as nat);
        assert(r * DISCOUNT_RATE_FIX >= 0) by (nonlinear_arith)
            requires
                r >= 0,
        ;
        assert(r * DISCOUNT_RATE_FIX <= r * FIX_SCALE) by (nonlinear_arith)
            requires
                r >= 0,
        ;
        lemma_div_pos_is_pos(r * DISCOUNT_RATE_FIX, FIX_SCALE as int);
        lemma_div_is_ordered(r * DISCOUNT_RATE_FIX, r * FIX_SCALE, FIX_SCALE as int);
        lemma_div_multiples_vanish(r, FIX_SCALE as int);
        assert(r * FIX_SCALE == (FIX_SCALE as int) * r) by (nonlinear_arith);
    }
}

/// A reward that has decayed to zero stays zero.
proof fn lemma_reward_zero(k: nat, d: nat)
    requires
        k <= d,
        spec_reward(k) == 0,
    ensures
        spec_reward(d) == 0,
    decreases d,
{
    if d > k {
        lemma_reward_zero(k, (d - 1) as nat);
    }
}

/// The boost applied to the rewarded policy's weight: the exponential of
/// the learning rate times the reward, in fixed point, by its cubic Taylor
/// approximation.
pub open spec fn spec_boost(rw: int) -> int {
    let x = LEARNING_RATE_FIX * rw / (FIX_SCALE as int);
    FIX_SCALE + x + x * x / (2 * FIX_SCALE as int) + x * x * x / (6 * (FIX_SCALE as int) * (
    FIX_SCALE as int))
}

/// For rewards in `[0, FIX_SCALE]`, the boost lies in
/// `[FIX_SCALE, 2 * FIX_SCALE]`: the factor is at least one, and bounded.
pub proof fn lemma_boost_bounds(rw: int)
    requires
        0 <= rw <= FIX_SCALE,
    ensures
        FIX_SCALE <= spec_boost(rw) <= 2 * FIX_SCALE,
{
    let x = LEARNING_RATE_FIX * rw / (FIX_SCALE as int);
    assert(6 * (FIX_SCALE as int) * (FIX_SCALE as int) == 6_000_000_000_000) by (nonlinear_arith)
        requires
            FIX_SCALE == 1_000_000,
    ;
    assert(LEARNING_RATE_FIX * rw >= 0) by (nonlinear_arith)
        requires
            rw >= 0,
    ;
    assert(LEARNING_RATE_FIX * rw <= 450_000 * 1_000_000) by (nonlinear_arith)
        requires
            0 <= rw <= 1_000_000,
    ;
    lemma_div_pos_is_pos(LEARNING_RATE_FIX * rw, FIX_SCALE as int);
    lemma_div_is_ordered(LEARNING_RATE_FIX * rw, (450_000 * 1_000_000) as int, FIX_SCALE as int);
    assert(x <= 450_000);
    assert(x * x >= 0 && x * x <= 450_000 * 450_000) by (nonlinear_arith)
        requires
            0 <= x <= 450_000,
    ;
    assert(x * x * x >= 0 && x * x * x <= 450_000 * 450_000 * 450_000) by (nonlinear_arith)
        requires
            0 <= x <= 450_000,
    ;
    lemma_div_pos_is_pos(x * x, 2 * FIX_SCALE as int);
    lemma_div_is_ordered(x * x, (450_000 * 450_000) as int, 2 * FIX_SCALE as int);
    lemma_div_pos_is_pos(x * x * x, 6 * (FIX_SCALE as int) * (FIX_SCALE as int));
    lemma_div_is_ordered(
        x * x * x,
        (450_000 * 450_000 * 450_000) as int,
        6 * (FIX_SCALE as int) * (FIX_SCALE as int),
    );
    assert(x * x / (2 * FIX_SCALE as int) <= 101_250);
    assert(x * x * x / (6 * (FIX_SCALE as int) * (FIX_SCALE as int)) <= 15_187);
}

/// A probability numerator clamped to `[PROB_FLOOR, PROB_SCALE - PROB_FLOOR]`.
pub open spec fn spec_clamp(p: int) -> int {
    if p < PROB_FLOOR {
        PROB_FLOOR as int
    } else if p > PROB_SCALE - PROB_FLOOR {
        PROB_SCALE - PROB_FLOOR
    } else {
        p
    }
}

/// The learner's update: the policy that missed sees its rival's weight
/// boosted, and the LFU probability is renormalized from the weights and
/// clamped away from 0 and 1.
pub open spec fn spec_learner_update(p: int, dt: nat, miss_from: Policy) -> int {
    let b = spec_boost(spec_reward(dt));
    let w_lfu = p;
    let w_lru = PROB_SCALE - p;
    match miss_from {
        Policy::LFU => {
            let boosted = w_lru * b / (FIX_SCALE as int);
            spec_clamp(w_lfu * PROB_SCALE / (w_lfu + boosted))
        },
        Policy::LRU => {
            let boosted = w_lfu * b / (FIX_SCALE as int);
            spec_clamp(boosted * PROB_SCALE / (boosted + w_lru))
        },
    }
}

/// A boosted weight is at least the original weight.
proof fn lemma_boosted_at_least(w: int, b: int)
    requires
        w >= 0,
        b >= FIX_SCALE,
    ensures
        w * b / (FIX_SCALE as int) >= w,
{
    assert(w * FIX_SCALE <= w * b) by (nonlinear_arith)
        requires
            w >= 0,
            FIX_SCALE <= b,
    ;
    lemma_div_is_ordered(w * FIX_SCALE, w * b, FIX_SCALE as int);
    lemma_div_multiples_vanish(w, FIX_SCALE as int);
    assert(w * FIX_SCALE == (FIX_SCALE as int) * w) by (nonlinear_arith);
}

/// The update keeps the probability within its floor and moves it against
/// the policy that missed: a miss recorded by LFU's history lowers the LFU
/// probability, one recorded by LRU's history raises it, and neither end
/// is ever reached.
pub proof fn lemma_learner_update_direction(p: int, dt: nat, miss_from: Policy)
    requires
        PROB_FLOOR <= p <= PROB_SCALE - PROB_FLOOR,
    ensures
        PROB_FLOOR <= spec_learner_update(p, dt, miss_from) <= PROB_SCALE - PROB_FLOOR,
        miss_from is LFU ==> spec_learner_update(p, dt, miss_from) <= p,
        miss_from is LRU ==> spec_learner_update(p, dt, miss_from) >= p,
{
    lemma_reward_bounds(dt);
    let rw = spec_reward(dt);
    lemma_boost_bounds(rw);
    let b = spec_boost(rw);
    let w_lfu = p;
    let w_lru = PROB_SCALE - p;
    match miss_from {
        Policy::LFU => {
            let boosted = w_lru * b / (FIX_SCALE as int);
            lemma_boosted_at_least(w_lru, b);
            let denom = w_lfu + boosted;
            assert(denom >= PROB_SCALE);
            let pre = w_lfu * PROB_SCALE / denom;
            assert(w_lfu * PROB_SCALE <= w_lfu * denom) by (nonlinear_arith)
                requires
                    w_lfu >= 0,
                    PROB_SCALE <= denom,
            ;
            lemma_div_is_ordered(w_lfu * PROB_SCALE, w_lfu * denom, denom);
            lemma_div_multiples_vanish(w_lfu, denom);
            assert(w_lfu * denom == denom * w_lfu) by (nonlinear_arith);
            assert(pre <= p);
            assert(w_lfu * PROB_SCALE >= 0) by (nonlinear_arith)
                requires
                    w_lfu >= 0,
            ;
            lemma_div_pos_is_pos(w_lfu * PROB_SCALE, denom);
        },
        Policy::LRU => {
            let boosted = w_lfu * b / (FIX_SCALE as int);
            lemma_boosted_at_least(w_lfu, b);
            let denom = boosted + w_lru;
            assert(denom >= PROB_SCALE);
            let pre = boosted * PROB_SCALE / denom;
            assert(boosted * PROB_SCALE >= p * denom) by (nonlinear_arith)
                requires
                    boosted >= p,
                    p >= 0,
                    w_lru >= 0,
                    denom == boosted + w_lru,
                    PROB_SCALE == p + w_lru,
            ;
            lemma_div_is_ordered(p * denom, boosted * PROB_SCALE, denom);
            lemma_div_multiples_vanish(p, denom);
            assert(p * denom == denom * p) by (nonlinear_arith);
            assert(pre >= p);
            assert(boosted * PROB_SCALE <= denom * PROB_SCALE) by (nonlinear_arith)
                requires
                    boosted <= denom,
                    PROB_SCALE >= 0,
            ;
            lemma_div_is_ordered(boosted * PROB_SCALE, denom * PROB_SCALE, denom);
            lemma_div_multiples_vanish(PROB_SCALE as int, denom);
            assert(denom * PROB_SCALE == denom * (PROB_SCALE as int)) by (nonlinear_arith);
            assert(pre <= PROB_SCALE);
        },
    }
}

/// Computes the time-decayed reward of a ghost hit after `dt` clock ticks.
fn compute_reward(dt: u64) -> (r: u64)
    ensures
        r as int == spec_reward(dt as nat),
        r <= FIX_SCALE,
{
    let mut r: u64 = FIX_SCALE;
    let mut i: u64 = 0;
    while i < dt && r > 0
        invariant
            0 <= i <= dt,
            r as int == spec_reward(i as nat),
            r <= FIX_SCALE,
        decreases dt - i,
    {
        proof {
            assert(r * DISCOUNT_RATE_FIX <= 1_000_000 * 900_000) by (nonlinear_arith)
                requires
                    0 <= r <= 1_000_000,
            ;
            lemma_reward_bounds((i + 1) as nat);
        }
        r = r * DISCOUNT_RATE_FIX / FIX_SCALE;
        i = i + 1;
    }
    proof {
        if r == 0 {
            lemma_reward_zero(i as nat, dt as nat);
        }
    }
    r
}

/// Computes the boost factor for a given reward.
fn compute_boost(rw: u64) -> (b: u64)
    requires
        rw <= FIX_SCALE,
    ensures
        b as int == spec_boost(rw as int),
        FIX_SCALE <= b <= 2 * FIX_SCALE,
{
    proof {
        lemma_boost_bounds(rw as int);
        assert(LEARNING_RATE_FIX * rw <= 450_000 * 1_000_000) by (nonlinear_arith)
            requires
                0 <= rw <= 1_000_000,
        ;
        lemma_div_pos_is_pos(LEARNING_RATE_FIX * rw as int, FIX_SCALE as int);
        lemma_div_is_ordered(LEARNING_RATE_FIX * rw as int, (450_000 * 1_000_000) as int, FIX_SCALE as int);
    }
    let x = LEARNING_RATE_FIX * rw / FIX_SCALE;
    proof {
        assert(x * x <= 450_000 * 450_000) by (nonlinear_arith)
            requires
                0 <= x <= 450_000,
        ;
        assert(x * x * x <= 450_000 * 450_000 * 450_000) by (nonlinear_arith)
            requires
                0 <= x <= 450_000,
        ;
        lemma_div_pos_is_pos(x * x * x as int, 6 * (FIX_SCALE as int) * (FIX_SCALE as int));
        lemma_div_is_ordered(
            (x * x) as int,
            (450_000 * 450_000) as int,
            2 * FIX_SCALE as int,
        );
        lemma_div_is_ordered(
            (x * x * x) as int,
            (450_000 * 450_000 * 450_000) as int,
            6 * (FIX_SCALE as int) * (FIX_SCALE as int),
        );
    }
    let t2 = x * x / (2 * FIX_SCALE);
    let t3 = x * x * x / (6 * FIX_SCALE * FIX_SCALE);
    FIX_SCALE + x + t2 + t3
}

/// Applies the learner's update to the stored LFU probability after a ghost
/// hit with dwell `dt` in the history of `miss_from`. The result moves
/// against the policy that missed and stays strictly inside `(0, 1)`.
pub fn updated_probability(p: u64, dt: u64, miss_from: Policy) -> (r: u64)
    requires
        PROB_FLOOR <= p <= PROB_SCALE - PROB_FLOOR,
    ensures
        r as int == spec_learner_update(p as int, dt as nat, miss_from),
        PROB_FLOOR <= r <= PROB_SCALE - PROB_FLOOR,
        miss_from is LFU ==> r <= p,
        miss_from is LRU ==> r >= p,
{
    let rw = compute_reward(dt);
    let b = compute_boost(rw);
    proof {
        lemma_learner_update_direction(p as int, dt as nat, miss_from);
    }
    match miss_from {
        Policy::LFU => {
            let w_lru = PROB_SCALE - p;
            proof {
                assert(w_lru * b <= 1_000_000 * 2_000_000) by (nonlinear_arith)
                    requires
                        0 <= w_lru <= 1_000_000,
                        0 <= b <= 2_000_000,
                ;
                lemma_div_pos_is_pos((w_lru * b) as int, FIX_SCALE as int);
                lemma_div_is_ordered((w_lru * b) as int, (1_000_000 * 2_000_000) as int, FIX_SCALE as int);
            }
            let boosted = w_lru * b / FIX_SCALE;
            let denom = p + boosted;
            proof {
                assert(p * PROB_SCALE <= 1_000_000 * 1_000_000) by (nonlinear_arith)
                    requires
                        0 <= p <= 1_000_000,
                ;
            }
            let pre = p * PROB_SCALE / denom;
            if pre < PROB_FLOOR {
                PROB_FLOOR
            } else if pre > PROB_SCALE - PROB_FLOOR {
                PROB_SCALE - PROB_FLOOR
            } else {
                pre
            }
        },
        Policy::LRU => {
            let w_lru = PROB_SCALE - p;
            proof {
                assert(p * b <= 1_000_000 * 2_000_000) by (nonlinear_arith)
                    requires
                        0 <= p <= 1_000_000,
                        0 <= b <= 2_000_000,
                ;
                lemma_div_pos_is_pos((p * b) as int, FIX_SCALE as int);
                lemma_div_is_ordered((p * b) as int, (1_000_000 * 2_000_000) as int, FIX_SCALE as int);
            }
            let boosted = p * b / FIX_SCALE;
            let denom = boosted + w_lru;
            proof {
                assert(boosted * PROB_SCALE <= 2_000_000 * 1_000_000) by (nonlinear_arith)
                    requires
                        0 <= boosted <= 2_000_000,
                ;
            }
            let pre = boosted * PROB_SCALE / denom;
            if pre < PROB_FLOOR {
                PROB_FLOOR
            } else if pre > PROB_SCALE - PROB_FLOOR {
                PROB_SCALE - PROB_FLOOR
            } else {
                pre
            }
        },
    }
}

} // verus!
