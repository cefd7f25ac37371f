//! One week of observations and the velocity formula over it.
//!
//! Every factor is a pure function of the record, held as an integer at
//! `SCALE` precision (parts per million), except the burnout factor, which
//! keeps the finer `B_SCALE` precision of the decay chain.

use crate::decay::exp_decay;
use crate::decay::lemma_exp_decay_monotone;
use crate::decay::lemma_exp_decay_strictly_falls;
use crate::decay::spec_exp_decay;
use crate::decay::B_SCALE;
use crate::roots::froot5;
use crate::roots::isqrt;
use crate::roots::lemma_isqrt_is_root;
use crate::roots::lemma_isqrt_monotone;
use crate::roots::lemma_root5_monotone;
use crate::roots::spec_isqrt;
use crate::roots::spec_root5;
use vstd::arithmetic::div_mod::lemma_div_is_ordered;
use vstd::arithmetic::div_mod::lemma_div_multiples_vanish;
use vstd::arithmetic::div_mod::lemma_div_pos_is_pos;
use vstd::arithmetic::div_mod::lemma_fundamental_div_mod;
use vstd::arithmetic::div_mod::lemma_mod_bound;
use vstd::arithmetic::mul::lemma_mul_inequality;
use vstd::arithmetic::mul::lemma_mul_is_distributive_add;
use vstd::prelude::*;

verus! {

/// Parts-per-million scale shared by the factors and the final velocity.
pub const SCALE: u64 = 1_000_000;

/// Total hyperfocus hours at or above this cap saturate utilization.
pub const HOURS_CAP: u64 = 20;

/// Weekday quality weight at `SCALE` precision (0.55).
pub const WEEKDAY_QUALITY: u64 = 550_000;

/// Weekend quality weight at `SCALE` precision (0.675).
pub const WEEKEND_QUALITY: u64 = 675_000;

/// Page count at which the reading ratio reaches one half.
pub const OPTIMAL_PAGES: u8 = 125;

/// One week of observations. The five counts are taken as entered; the load
/// fraction is held at `SCALE` precision and is not clamped at construction
/// (the convexity factor clamps it when it is read).
pub struct WeekRecord {
    pub hyperfocus_hours_wd: u8,
    pub hyperfocus_hours_we: u8,
    pub book_pages: u8,
    pub side_skills_days: u8,
    pub constraints_days: u8,
    pub load_micro: i64,
}

/// Hyperfocus utilization at `SCALE`: the square root of total hours capped
/// at `HOURS_CAP` and normalized, sqrt(min(h, 20) / 20).
pub open spec fn spec_u_hf(h: int) -> int {
    let capped = if h > 20 {
        20int
    } else {
        h
    };
    spec_isqrt((capped * 50_000_000_000) as nat) as int
}

/// Quality blend: the hour-weighted average of the two quality weights, or
/// their unweighted midpoint when there are no hours at all.
pub open spec fn spec_q(wd: int, we: int, weekday_q: int, weekend_q: int) -> int {
    if wd + we == 0 {
        (weekday_q + weekend_q) / 2
    } else {
        (weekday_q * wd + weekend_q * we) / (wd + we)
    }
}

/// Reading ratio at `SCALE`: the saturating map x/(1+x) of x = pages/optimal,
/// which reduces to pages/(pages + optimal).
pub open spec fn spec_r(pages: int, optimal: int) -> int {
    pages * (SCALE as int) / (pages + optimal)
}

/// Burnout factor at `B_SCALE`: one at or under the hour cap, and the decay
/// chain at index (h - 20)^2 above it, standing for exp(-4*(h/20 - 1)^2).
pub open spec fn spec_b(h: int) -> int {
    if h <= 20 {
        B_SCALE as int
    } else {
        spec_exp_decay(((h - 20) * (h - 20)) as nat)
    }
}

/// Momentum multiplier at `SCALE`: (1 + 0.06*side/7) * (1 + 0.05*cons/7).
pub open spec fn spec_m(side: int, cons: int) -> int {
    (700 + 6 * side) * (700 + 5 * cons) * (SCALE as int) / 490_000
}

/// The exponent 12/5 at `SCALE`: x^2 times the fifth root of x^2, scales
/// arranged so that the result is (x / SCALE)^(12/5) at `SCALE` precision.
pub open spec fn spec_pow24(x: int) -> int {
    x * x * (spec_root5((x * x * 1_000_000_000_000_000_000) as nat) as int) / 1_000_000_000_000
}

/// The load fraction clamped to [0, SCALE].
pub open spec fn spec_clamp_load(load: int) -> int {
    if load < 0 {
        0int
    } else if load > SCALE {
        SCALE as int
    } else {
        load
    }
}

/// Load convexity at `SCALE`: a mild linear discount at or below half load,
/// 1 + 16*(l - 1/2)^(12/5) above it.
pub open spec fn spec_c(load: int) -> int {
    let l = spec_clamp_load(load);
    if l > 500_000 {
        SCALE + 16 * spec_pow24(l - 500_000)
    } else {
        SCALE - (500_000 - l) / 10
    }
}

/// Weekly velocity at `SCALE`: clamp(2 * q * u_hf * r * b * m * c, 0, 1),
/// evaluated in two stages of fixed-point division.
pub open spec fn spec_velocity(
    wd: int,
    we: int,
    pages: int,
    side: int,
    cons: int,
    load: int,
) -> int {
    let q = spec_q(wd, we, WEEKDAY_QUALITY as int, WEEKEND_QUALITY as int);
    let u = spec_u_hf(wd + we);
    let r = spec_r(pages, OPTIMAL_PAGES as int);
    let b = spec_b(wd + we);
    let m = spec_m(side, cons);
    let c = spec_c(load);
    let base = 2 * q * u * r / ((SCALE as int) * (SCALE as int));
    let v = base * b * m * c / ((B_SCALE as int) * (SCALE as int) * (SCALE as int));
    if v > SCALE {
        SCALE as int
    } else if v < 0 {
        0int
    } else {
        v
    }
}

impl WeekRecord {
    /// Total hyperfocus hours, weekday plus weekend.
    pub fn total_hours(&self) -> (h: u64)
        ensures
            h == self.hyperfocus_hours_wd + self.hyperfocus_hours_we,
            h <= 510,
    {
        self.hyperfocus_hours_wd as u64 + self.hyperfocus_hours_we as u64
    }

    /// Hyperfocus utilization factor.
    pub fn u_hf(&self) -> (ret: u64)
        ensures
            ret == spec_u_hf(self.hyperfocus_hours_wd + self.hyperfocus_hours_we),
            ret <= SCALE,
    {
        let total: u64 = self.total_hours();
        let capped: u64 = if total > HOURS_CAP {
            HOURS_CAP
        } else {
            total
        };
        let ret = isqrt(capped * 50_000_000_000);
        proof {
            assert(ret <= 1_000_000) by (nonlinear_arith)
                requires
                    (ret as int) * (ret as int) <= 1_000_000_000_000int,
            ;
        }
        ret
    }

    /// Quality blend of the two given weights.
    pub fn q(&self, weekday_q: u64, weekend_q: u64) -> (ret: u64)
        ensures
            ret == spec_q(
                self.hyperfocus_hours_wd as int,
                self.hyperfocus_hours_we as int,
                weekday_q as int,
                weekend_q as int,
            ),
            ret <= weekday_q || ret <= weekend_q,
    {
        let wd: u64 = self.hyperfocus_hours_wd as u64;
        let we: u64 = self.hyperfocus_hours_we as u64;
        let total: u64 = wd + we;
        if total == 0 {
            let mid: u128 = ((weekday_q as u128) + (weekend_q as u128)) / 2;
            proof {
                let mx = if weekday_q >= weekend_q {
                    weekday_q as int
                } else {
                    weekend_q as int
                };
                lemma_div_is_ordered(weekday_q + weekend_q, 2 * mx, 2);
                lemma_div_multiples_vanish(mx, 2);
            }
            mid as u64
        } else {
            proof {
                assert((weekday_q as int) * (wd as int) <= 0xffffffffffffffffint * 255)
                    by (nonlinear_arith)
                    requires
                        0 <= weekday_q <= 0xffffffffffffffffint,
                        0 <= wd <= 255,
                ;
                assert((weekend_q as int) * (we as int) <= 0xffffffffffffffffint * 255)
                    by (nonlinear_arith)
                    requires
                        0 <= weekend_q <= 0xffffffffffffffffint,
                        0 <= we <= 255,
                ;
            }
            let num: u128 = (weekday_q as u128) * (wd as u128) + (weekend_q as u128) * (
            we as u128);
            let val: u128 = num / (total as u128);
            proof {
                let mx = if weekday_q >= weekend_q {
                    weekday_q as int
                } else {
                    weekend_q as int
                };
                lemma_mul_inequality(weekday_q as int, mx, wd as int);
                lemma_mul_inequality(weekend_q as int, mx, we as int);
                lemma_mul_is_distributive_add(mx, wd as int, we as int);
                lemma_div_is_ordered(num as int, mx * (total as int), total as int);
                lemma_div_multiples_vanish(mx, total as int);
                assert(mx * (total as int) == (total as int) * mx);
            }
            val as u64
        }
    }

    /// Reading ratio against the given optimal page count.
    pub fn r(&self, optimal_pages: u8) -> (ret: u64)
        requires
            optimal_pages > 0,
        ensures
            ret == spec_r(self.book_pages as int, optimal_pages as int),
            ret <= SCALE,
    {
        let pages: u64 = self.book_pages as u64;
        let denom: u64 = pages + optimal_pages as u64;
        let ret: u64 = pages * SCALE / denom;
        proof {
            lemma_div_is_ordered(pages * (SCALE as int), (denom as int) * (SCALE as int), denom as int);
            lemma_div_multiples_vanish(SCALE as int, denom as int);
        }
        ret
    }

    /// Burnout factor, at `B_SCALE` precision.
    pub fn b(&self) -> (ret: u64)
        ensures
            ret == spec_b(self.hyperfocus_hours_wd + self.hyperfocus_hours_we),
            ret <= B_SCALE,
    {
        let total: u64 = self.total_hours();
        if total <= HOURS_CAP {
            B_SCALE
        } else {
            let over: u64 = total - HOURS_CAP;
            proof {
                assert(over * over <= 240_100) by (nonlinear_arith)
                    requires
                        0 <= over <= 490,
                ;
            }
            exp_decay(over * over)
        }
    }

    /// Momentum multiplier.
    pub fn m(&self) -> (ret: u64)
        ensures
            ret == spec_m(self.side_skills_days as int, self.constraints_days as int),
    {
        let side: u64 = 700 + 6 * (self.side_skills_days as u64);
        let cons: u64 = 700 + 5 * (self.constraints_days as u64);
        proof {
            assert(side * cons <= 4_404_250) by (nonlinear_arith)
                requires
                    0 <= side <= 2230,
                    0 <= cons <= 1975,
            ;
        }
        side * cons * SCALE / 490_000
    }

    /// Load convexity factor.
    pub fn c(&self) -> (ret: u64)
        ensures
            ret == spec_c(self.load_micro as int),
            950_000 <= ret <= 5_000_000,
    {
        let l: u64 = if self.load_micro < 0 {
            0
        } else if self.load_micro > 1_000_000 {
            1_000_000
        } else {
            self.load_micro as u64
        };
        if l > 500_000 {
            let x: u64 = l - 500_000;
            proof {
                assert(x * x <= 250_000_000_000int) by (nonlinear_arith)
                    requires
                        0 <= x <= 500_000,
                ;
            }
            let x2: u64 = x * x;
            let f: u64 = froot5((x2 as u128) * 1_000_000_000_000_000_000);
            proof {
                assert((x2 as int) * (f as int) <= 250_000_000_000_000_000int) by (nonlinear_arith)
                    requires
                        0 <= x2 <= 250_000_000_000int,
                        0 <= f <= 1_000_000,
                ;
            }
            let scaled: u128 = (x2 as u128) * (f as u128);
            let p: u64 = (scaled / 1_000_000_000_000) as u64;
            proof {
                lemma_div_is_ordered(
                    scaled as int,
                    1_000_000_000_000int * 250_000,
                    1_000_000_000_000int,
                );
                lemma_div_multiples_vanish(250_000, 1_000_000_000_000int);
                lemma_div_pos_is_pos(scaled as int, 1_000_000_000_000int);
            }
            1_000_000 + 16 * p
        } else {
            1_000_000 - (500_000 - l) / 10
        }
    }

    /// Weekly velocity: the clamped product of the six factors.
    pub fn calculate_velocity(&self) -> (v: u64)
        ensures
            v == spec_velocity(
                self.hyperfocus_hours_wd as int,
                self.hyperfocus_hours_we as int,
                self.book_pages as int,
                self.side_skills_days as int,
                self.constraints_days as int,
                self.load_micro as int,
            ),
            v <= SCALE,
    {
        let qv: u64 = self.q(WEEKDAY_QUALITY, WEEKEND_QUALITY);
        let uv: u64 = self.u_hf();
        let rv: u64 = self.r(OPTIMAL_PAGES);
        let bv: u64 = self.b();
        let mv: u64 = self.m();
        let cv: u64 = self.c();
        proof {
            lemma_m_bounds(self.side_skills_days as int, self.constraints_days as int);
        }
        proof {
            assert((2 * (qv as int)) * (uv as int) <= 1_350_000_000_000int) by (nonlinear_arith)
                requires
                    0 <= qv <= 675_000,
                    0 <= uv <= 1_000_000,
            ;
        }
        let base_num: u128 = 2 * (qv as u128) * (uv as u128);
        proof {
            assert((base_num as int) * (rv as int) <= 1_350_000_000_000_000_000int)
                by (nonlinear_arith)
                requires
                    0 <= base_num <= 1_350_000_000_000int,
                    0 <= rv <= 1_000_000,
            ;
        }
        let base_full: u128 = base_num * (rv as u128);
        let base: u128 = base_full / 1_000_000_000_000;
        proof {
            lemma_div_is_ordered(
                base_full as int,
                1_000_000_000_000int * 1_350_000,
                1_000_000_000_000int,
            );
            lemma_div_multiples_vanish(1_350_000, 1_000_000_000_000int);
            assert((base as int) * (bv as int) <= 1_350_000_000_000_000_000int) by (nonlinear_arith)
                requires
                    0 <= base <= 1_350_000,
                    0 <= bv <= 1_000_000_000_000int,
            ;
        }
        let t1: u128 = base * (bv as u128);
        proof {
            assert((t1 as int) * (mv as int) <= 12_150_000_000_000_000_000_000_000int)
                by (nonlinear_arith)
                requires
                    0 <= t1 <= 1_350_000_000_000_000_000int,
                    0 <= mv <= 9_000_000,
            ;
        }
        let t2: u128 = t1 * (mv as u128);
        proof {
            assert((t2 as int) * (cv as int) <= 60_750_000_000_000_000_000_000_000_000_000int)
                by (nonlinear_arith)
                requires
                    0 <= t2 <= 12_150_000_000_000_000_000_000_000int,
                    0 <= cv <= 5_000_000,
            ;
        }
        let t3: u128 = t2 * (cv as u128);
        let vraw: u128 = t3 / 1_000_000_000_000_000_000_000_000;
        if vraw > 1_000_000 {
            1_000_000
        } else {
            vraw as u64
        }
    }
}

/// The momentum multiplier is at least one and under nine, for day counts a
/// byte can hold.
pub proof fn lemma_m_bounds(side: int, cons: int)
    requires
        0 <= side <= 255,
        0 <= cons <= 255,
    ensures
        SCALE <= spec_m(side, cons) <= 9_000_000,
{
    let prod = (700 + 6 * side) * (700 + 5 * cons);
    assert(490_000 <= prod <= 4_404_250) by (nonlinear_arith)
        requires
            0 <= side <= 255,
            0 <= cons <= 255,
            prod == (700 + 6 * side) * (700 + 5 * cons),
    ;
    lemma_div_is_ordered(490_000int * 1_000_000, prod * 1_000_000, 490_000int);
    lemma_div_is_ordered(prod * 1_000_000, 490_000int * 9_000_000, 490_000int);
    lemma_div_multiples_vanish(1_000_000, 490_000int);
    lemma_div_multiples_vanish(9_000_000, 490_000int);
}

/// The velocity lies in [0, SCALE] for every record, whatever the fields
/// hold: the final clamp guarantees it.
pub proof fn lemma_velocity_within_unit(
    wd: int,
    we: int,
    pages: int,
    side: int,
    cons: int,
    load: int,
)
    ensures
        0 <= spec_velocity(wd, we, pages, side, cons, load) <= SCALE,
{
}

/// Utilization never falls as total hyperfocus hours grow.
pub proof fn lemma_u_hf_monotone(h1: int, h2: int)
    requires
        0 <= h1 <= h2,
    ensures
        spec_u_hf(h1) <= spec_u_hf(h2),
{
    let c1 = if h1 > 20 { 20int } else { h1 };
    let c2 = if h2 > 20 { 20int } else { h2 };
    lemma_isqrt_monotone((c1 * 50_000_000_000) as nat, (c2 * 50_000_000_000) as nat);
}

/// At or past the 20-hour cap, utilization is pinned at one.
pub proof fn lemma_u_hf_saturates(h: int)
    requires
        h >= 20,
    ensures
        spec_u_hf(h) == SCALE,
{
    assert(1_000_000int * 1_000_000 <= 1_000_000_000_000) by (nonlinear_arith);
    assert(1_000_000_000_000int < (1_000_000int + 1) * (1_000_000int + 1)) by (nonlinear_arith);
    lemma_isqrt_is_root(1_000_000_000_000nat, 1_000_000nat);
}

/// With no hyperfocus hours at all, the blend is the plain midpoint of the
/// two weights, whatever weights are passed.
pub proof fn lemma_q_fallback_is_midpoint(weekday_q: int, weekend_q: int)
    ensures
        spec_q(0, 0, weekday_q, weekend_q) == (weekday_q + weekend_q) / 2,
{
}

/// Reading exactly the optimal number of pages scores exactly half of SCALE.
pub proof fn lemma_r_at_optimal(optimal: int)
    requires
        optimal >= 1,
    ensures
        spec_r(optimal, optimal) == 500_000,
{
    assert(optimal * (SCALE as int) == (optimal + optimal) * 500_000) by (nonlinear_arith);
    lemma_div_multiples_vanish(500_000, optimal + optimal);
    assert((optimal + optimal) * 500_000 == ((optimal + optimal) as int) * 500_000);
}

/// Strictly more pages strictly raise the reading ratio, for page counts a
/// byte can hold and a positive optimum.
pub proof fn lemma_r_strictly_monotone(p1: int, p2: int, optimal: int)
    requires
        0 <= p1 < p2 <= 255,
        1 <= optimal <= 255,
    ensures
        spec_r(p1, optimal) < spec_r(p2, optimal),
{
    let n1 = p1 * (SCALE as int);
    let n2 = p2 * (SCALE as int);
    let d1 = p1 + optimal;
    let d2 = p2 + optimal;
    let q1 = n1 / d1;
    lemma_fundamental_div_mod(n1, d1);
    lemma_mod_bound(n1, d1);
    lemma_div_pos_is_pos(n1, d1);
    assert(n1 >= d1 * q1);
    assert(n2 * d1 >= n1 * d2 + d1 * d2) by (nonlinear_arith)
        requires
            n1 == p1 * 1_000_000int,
            n2 == p2 * 1_000_000int,
            d1 == p1 + optimal,
            d2 == p2 + optimal,
            0 <= p1 < p2 <= 255,
            1 <= optimal <= 255,
    ;
    assert(n2 * d1 >= d1 * (d2 * (q1 + 1))) by (nonlinear_arith)
        requires
            n2 * d1 >= n1 * d2 + d1 * d2,
            n1 >= d1 * q1,
            d1 >= 1,
            d2 >= 1,
            q1 >= 0,
    ;
    assert(n2 >= d2 * (q1 + 1)) by (nonlinear_arith)
        requires
            n2 * d1 >= d1 * (d2 * (q1 + 1)),
            d1 >= 1,
    ;
    lemma_div_is_ordered(d2 * (q1 + 1), n2, d2);
    lemma_div_multiples_vanish(q1 + 1, d2);
}

/// The burnout factor is whole exactly when total hours are at or under the
/// cap.
pub proof fn lemma_b_full_iff_at_most_cap(h: int)
    requires
        0 <= h <= 510,
    ensures
        spec_b(h) == B_SCALE <==> h <= 20,
{
    if h > 20 {
        let k = ((h - 20) * (h - 20)) as nat;
        assert(1 <= k <= 240_100) by (nonlinear_arith)
            requires
                k == ((h - 20) * (h - 20)) as nat,
                20 < h <= 510,
        ;
        lemma_exp_decay_strictly_falls(0, k);
    }
}

/// Past the cap the burnout factor strictly falls with each extra hour,
/// until it has decayed all the way to zero (where it stays).
pub proof fn lemma_b_strictly_falls_past_cap(h1: int, h2: int)
    requires
        20 <= h1 < h2 <= 510,
        spec_b(h1) > 0,
    ensures
        spec_b(h2) < spec_b(h1),
{
    let k2 = ((h2 - 20) * (h2 - 20)) as nat;
    if h1 == 20 {
        assert(1 <= k2) by (nonlinear_arith)
            requires
                k2 == ((h2 - 20) * (h2 - 20)) as nat,
                20 < h2,
        ;
        lemma_exp_decay_strictly_falls(0, k2);
    } else {
        let k1 = ((h1 - 20) * (h1 - 20)) as nat;
        assert(1 <= k1 < k2) by (nonlinear_arith)
            requires
                k1 == ((h1 - 20) * (h1 - 20)) as nat,
                k2 == ((h2 - 20) * (h2 - 20)) as nat,
                20 < h1 < h2,
        ;
        lemma_exp_decay_strictly_falls(k1, k2);
    }
}

/// The burnout factor never grows with the hours.
pub proof fn lemma_b_nonincreasing(h1: int, h2: int)
    requires
        0 <= h1 <= h2 <= 510,
    ensures
        spec_b(h2) <= spec_b(h1),
{
    if h1 > 20 {
        let k1 = ((h1 - 20) * (h1 - 20)) as nat;
        let k2 = ((h2 - 20) * (h2 - 20)) as nat;
        assert(k1 <= k2) by (nonlinear_arith)
            requires
                k1 == ((h1 - 20) * (h1 - 20)) as nat,
                k2 == ((h2 - 20) * (h2 - 20)) as nat,
                20 < h1 <= h2,
        ;
        lemma_exp_decay_monotone(k1, k2);
    } else if h2 > 20 {
        let k2 = ((h2 - 20) * (h2 - 20)) as nat;
        lemma_exp_decay_monotone(0, k2);
    }
}

/// The momentum multiplier is exactly neutral with no qualifying days, and
/// exactly 1.113 (at SCALE) with a full seven of each.
pub proof fn lemma_m_at_extremes()
    ensures
        spec_m(0, 0) == SCALE,
        spec_m(7, 7) == 1_113_000,
{
    assert((700 + 6 * 0int) * (700 + 5 * 0int) * 1_000_000 == 490_000int * 1_000_000)
        by (nonlinear_arith);
    lemma_div_multiples_vanish(1_000_000, 490_000int);
    assert((700 + 6 * 7int) * (700 + 5 * 7int) * 1_000_000 == 490_000int * 1_113_000)
        by (nonlinear_arith);
    lemma_div_multiples_vanish(1_113_000, 490_000int);
}

/// The convexity exponent term is never negative.
pub proof fn lemma_pow24_nonneg(x: int)
    requires
        0 <= x,
    ensures
        0 <= spec_pow24(x),
{
    let sq = x * x;
    assert(0 <= sq) by (nonlinear_arith)
        requires
            sq == x * x,
    ;
    let f = spec_root5((sq * 1_000_000_000_000_000_000) as nat) as int;
    assert(0 <= sq * f) by (nonlinear_arith)
        requires
            0 <= sq,
            0 <= f,
    ;
    lemma_div_pos_is_pos(sq * f, 1_000_000_000_000int);
    assert(x * x * f == sq * f);
}

/// The convexity exponent term never falls as its argument grows.
pub proof fn lemma_pow24_monotone(x1: int, x2: int)
    requires
        0 <= x1 <= x2,
    ensures
        spec_pow24(x1) <= spec_pow24(x2),
{
    let s1 = x1 * x1;
    let s2 = x2 * x2;
    assert(0 <= s1 <= s2) by (nonlinear_arith)
        requires
            0 <= x1 <= x2,
            s1 == x1 * x1,
            s2 == x2 * x2,
    ;
    lemma_root5_monotone(
        (s1 * 1_000_000_000_000_000_000) as nat,
        (s2 * 1_000_000_000_000_000_000) as nat,
    );
    let f1 = spec_root5((s1 * 1_000_000_000_000_000_000) as nat) as int;
    let f2 = spec_root5((s2 * 1_000_000_000_000_000_000) as nat) as int;
    assert(s1 * f1 <= s2 * f2) by (nonlinear_arith)
        requires
            0 <= s1 <= s2,
            0 <= f1 <= f2,
    ;
    lemma_div_is_ordered(s1 * f1, s2 * f2, 1_000_000_000_000int);
    assert(x1 * x1 * f1 == s1 * f1);
    assert(x2 * x2 * f2 == s2 * f2);
}

/// Both load branches meet at one half: the linear branch reaches SCALE
/// there, and the convex branch evaluates to SCALE there too.
pub proof fn lemma_c_branches_meet_at_half()
    ensures
        spec_c(500_000) == SCALE,
        SCALE + 16 * spec_pow24(0) == SCALE,
{
    lemma_div_of0_local();
}

/// Heavier load never lowers the convexity factor.
pub proof fn lemma_c_monotone(l1: int, l2: int)
    requires
        l1 <= l2,
    ensures
        spec_c(l1) <= spec_c(l2),
{
    let m1 = spec_clamp_load(l1);
    let m2 = spec_clamp_load(l2);
    if m2 <= 500_000 {
        lemma_div_is_ordered(500_000 - m2, 500_000 - m1, 10);
    } else if m1 > 500_000 {
        lemma_pow24_monotone(m1 - 500_000, m2 - 500_000);
    } else {
        lemma_div_pos_is_pos(500_000 - m1, 10);
        lemma_pow24_nonneg(m2 - 500_000);
    }
}

/// Zero divided by the fixed-point scale is zero.
proof fn lemma_div_of0_local()
    ensures
        0int / 1_000_000_000_000int == 0,
        spec_pow24(0) == 0,
{
    vstd::arithmetic::div_mod::lemma_div_of0(1_000_000_000_000int);
}

} // verus!
