//! Mapping from I–D exceedance to a dimensionless trigger factor in `[0, 1]`.
//!
//! A hard threshold is brittle: it throws away how far past the curve the forcing
//! reached and produces all-or-nothing maps. Instead the exceedance ratio `E` is
//! mapped through a logistic so that the hazard ramps smoothly across the
//! threshold:
//!
//! ```text
//! T(E) = 1 / (1 + exp(-k · (E - 1)))
//! ```
//!
//! `T(1) = 0.5` (on the curve), `T → 0` well below and `T → 1` well above. `k`
//! controls how sharp the transition is.

use vstd::arithmetic::power2::{lemma2_to64, lemma2_to64_rest, lemma_pow2_adds, lemma_pow2_pos, pow2};
use vstd::prelude::*;

use crate::accuracy::{
    exponential_is_accurate, grain, hair, huge, lemma_scales, logarithm_is_accurate, natural_logarithm, rounds_closely,
    rounds_to, speck, tiny, turns_products_to_sums, ulp,
};
use crate::arithmetic::{
    deterministic, differs, divides, exponentiates, keeps_order, keeps_sides, logs, multiplies, rounds_aside,
    rounds_properly, sums, Arithmetic,
};
use crate::binary64::{
    absolute, four, half, lemma_below_one, lemma_opposite_number, lemma_rank_orders_numbers, lemma_small_numbers,
    lemma_unit_number, one, zero, Binary64,
};
use crate::error::{Error, Reason};
use crate::logistic::{
    lemma_argument_near, lemma_exceedance_near, lemma_factor_near, lemma_growth_near, lemma_logarithm_bounds,
    lemma_logarithm_near, lemma_logarithm_of_odds, lemma_odds_near, lemma_quotient_of_product_near, lemma_scaled,
    lemma_steepness_divides,
};
use crate::series::lemma_quotient_of;

verus! {

/// Logistic exceedance → trigger-factor model.
#[derive(Debug, Clone, Copy, PartialEq, Eq, Structural)]
pub struct TriggerModel {
    /// Steepness of the logistic transition. Larger `k` ≈ harder threshold.
    pub k: Binary64,
}

impl TriggerModel {
    /// `r` is the trigger factor of an exceedance.
    pub open spec fn maps<A: Arithmetic>(self, exceedance: Binary64, r: Binary64) -> bool {
        exists|past: Binary64, scaled: Binary64, growth: Binary64, denominator: Binary64|
            {
                &&& #[trigger] differs::<A>(exceedance, one(), past)
                &&& #[trigger] multiplies::<A>(self.k.opposite(), past, scaled)
                &&& #[trigger] exponentiates::<A>(scaled, growth)
                &&& #[trigger] sums::<A>(one(), growth, denominator)
                &&& divides::<A>(one(), denominator, r)
            }
    }

    /// `r` is the exceedance of a trigger factor, `1 + ln(f / (1 − f)) / k`.
    pub open spec fn inverts<A: Arithmetic>(self, factor: Binary64, r: Binary64) -> bool {
        exists|rest: Binary64, odds: Binary64, log: Binary64, scaled: Binary64|
            {
                &&& #[trigger] differs::<A>(one(), factor, rest)
                &&& #[trigger] divides::<A>(factor, rest, odds)
                &&& #[trigger] logs::<A>(odds, log)
                &&& #[trigger] divides::<A>(log, self.k, scaled)
                &&& sums::<A>(one(), scaled, r)
            }
    }

    /// Builds a model; the steepness must be above zero.
    pub fn new(k: Binary64) -> (r: Result<TriggerModel, Error>)
        ensures
            match r {
                Ok(t) => k.positive_finite() && t == (TriggerModel { k }),
                Err(e) => !k.positive_finite() && e == (Error::InvalidParameter {
                    name: "k",
                    reason: Reason::Value { before: "logistic steepness must be > 0, got ", value: k, after: "" },
                }),
            },
    {
        if !k.is_positive_finite() {
            return Err(
                Error::InvalidParameter {
                    name: "k",
                    reason: Reason::Value { before: "logistic steepness must be > 0, got ", value: k, after: "" },
                },
            );
        }
        Ok(TriggerModel { k })
    }

    /// Trigger factor in `[0, 1]` for an exceedance ratio `E`.
    pub fn factor<A: Arithmetic>(&self, exceedance: Binary64) -> (r: Binary64)
        ensures
            self.maps::<A>(exceedance, r),
    {
        let past: Binary64 = A::minus(exceedance, one());
        let scaled: Binary64 = A::times(self.k.negate(), past);
        let growth: Binary64 = A::exponential(scaled);
        let denominator: Binary64 = A::plus(one(), growth);
        assert(differs::<A>(exceedance, one(), past));
        assert(multiplies::<A>(self.k.opposite(), past, scaled));
        assert(exponentiates::<A>(scaled, growth));
        assert(sums::<A>(one(), growth, denominator));
        A::over(one(), denominator)
    }

    /// Exceedance ratio that a trigger factor in `(0, 1)` belongs to: the inverse
    /// of [`factor`](TriggerModel::factor).
    pub fn exceedance_for_factor<A: Arithmetic>(&self, factor: Binary64) -> (r: Binary64)
        ensures
            self.inverts::<A>(factor, r),
    {
        let rest: Binary64 = A::minus(one(), factor);
        let odds: Binary64 = A::over(factor, rest);
        let log: Binary64 = A::logarithm(odds);
        let scaled: Binary64 = A::over(log, self.k);
        assert(differs::<A>(one(), factor, rest));
        assert(divides::<A>(factor, rest, odds));
        assert(logs::<A>(odds, log));
        assert(divides::<A>(log, self.k, scaled));
        A::plus(one(), scaled)
    }
}

impl Default for TriggerModel {
    /// `k = 4`: a moderately soft threshold.
    fn default() -> (r: TriggerModel)
        ensures
            r == (TriggerModel { k: four() }),
    {
        TriggerModel { k: four() }
    }
}

/// The trigger factor is determined by the model and the exceedance.
pub proof fn lemma_factor_unique<A: Arithmetic>(model: TriggerModel, exceedance: Binary64, r: Binary64, s: Binary64)
    requires
        deterministic::<A>(),
        model.maps::<A>(exceedance, r),
        model.maps::<A>(exceedance, s),
    ensures
        r == s,
{
    let (p1, s1, g1, d1) = choose|p: Binary64, t: Binary64, g: Binary64, d: Binary64|
        {
            &&& #[trigger] differs::<A>(exceedance, one(), p)
            &&& #[trigger] multiplies::<A>(model.k.opposite(), p, t)
            &&& #[trigger] exponentiates::<A>(t, g)
            &&& #[trigger] sums::<A>(one(), g, d)
            &&& divides::<A>(one(), d, r)
        };
    let (p2, s2, g2, d2) = choose|p: Binary64, t: Binary64, g: Binary64, d: Binary64|
        {
            &&& #[trigger] differs::<A>(exceedance, one(), p)
            &&& #[trigger] multiplies::<A>(model.k.opposite(), p, t)
            &&& #[trigger] exponentiates::<A>(t, g)
            &&& #[trigger] sums::<A>(one(), g, d)
            &&& divides::<A>(one(), d, s)
        };
    assert(p1 == p2);
    assert(s1 == s2);
    assert(g1 == g2);
    assert(d1 == d2);
}

/// A trigger factor lies within `[0, 1]`, for every exceedance that is a number.
pub proof fn lemma_factor_within_unit<A: Arithmetic>(model: TriggerModel, exceedance: Binary64, r: Binary64)
    requires
        rounds_properly::<A>(),
        model.k.positive_finite(),
        !exceedance.nan(),
        model.maps::<A>(exceedance, r),
    ensures
        r.unit(),
{
    let (past, scaled, growth, denominator) = choose|p: Binary64, t: Binary64, g: Binary64, d: Binary64|
        {
            &&& #[trigger] differs::<A>(exceedance, one(), p)
            &&& #[trigger] multiplies::<A>(model.k.opposite(), p, t)
            &&& #[trigger] exponentiates::<A>(t, g)
            &&& #[trigger] sums::<A>(one(), g, d)
            &&& divides::<A>(one(), d, r)
        };
    assert(!past.nan());
    assert(model.k.opposite().finite() && model.k.opposite().rank() != 0);
    assert(!scaled.nan());
    assert(one().at_most(denominator));
}

/// The curve is where the factor is one half, whatever the steepness: on the
/// curve it is one half exactly, above the curve no less and below it no more.
pub proof fn lemma_half_on_the_curve<A: Arithmetic>(model: TriggerModel, exceedance: Binary64, r: Binary64)
    requires
        rounds_aside::<A>(),
        model.k.positive_finite(),
        model.maps::<A>(exceedance, r),
    ensures
        one().at_most(exceedance) ==> half().at_most(r),
        exceedance.at_most(one()) ==> r.at_most(half()),
        exceedance.same_number(one()) ==> r == half(),
{
    let (past, scaled, growth, denominator) = choose|p: Binary64, t: Binary64, g: Binary64, d: Binary64|
        {
            &&& #[trigger] differs::<A>(exceedance, one(), p)
            &&& #[trigger] multiplies::<A>(model.k.opposite(), p, t)
            &&& #[trigger] exponentiates::<A>(t, g)
            &&& #[trigger] sums::<A>(one(), g, d)
            &&& divides::<A>(one(), d, r)
        };
    assert(model.k.opposite().finite() && model.k.opposite().less(zero()));
}

/// The further past the curve, the larger the factor: a larger exceedance never
/// has a smaller factor.
pub proof fn lemma_factor_grows_with_exceedance<A: Arithmetic>(
    model: TriggerModel,
    low: Binary64,
    high: Binary64,
    r: Binary64,
    s: Binary64,
)
    requires
        rounds_properly::<A>(),
        keeps_order::<A>(),
        model.k.positive_finite(),
        low.at_most(high),
        model.maps::<A>(low, r),
        model.maps::<A>(high, s),
    ensures
        r.at_most(s),
{
    let (p1, t1, g1, d1) = choose|p: Binary64, t: Binary64, g: Binary64, d: Binary64|
        {
            &&& #[trigger] differs::<A>(low, one(), p)
            &&& #[trigger] multiplies::<A>(model.k.opposite(), p, t)
            &&& #[trigger] exponentiates::<A>(t, g)
            &&& #[trigger] sums::<A>(one(), g, d)
            &&& divides::<A>(one(), d, r)
        };
    let (p2, t2, g2, d2) = choose|p: Binary64, t: Binary64, g: Binary64, d: Binary64|
        {
            &&& #[trigger] differs::<A>(high, one(), p)
            &&& #[trigger] multiplies::<A>(model.k.opposite(), p, t)
            &&& #[trigger] exponentiates::<A>(t, g)
            &&& #[trigger] sums::<A>(one(), g, d)
            &&& divides::<A>(one(), d, s)
        };
    let steepness = model.k.opposite();
    assert(steepness.finite() && steepness.less(zero()));
    assert(p1.at_most(p2));
    assert(t2.at_most(t1));
    assert(zero().at_most(g2) && g2.at_most(g1));
    assert(one().at_most(d2) && d2.at_most(d1));
}

/// A factor of one half or more belongs to an exceedance on or above the curve.
pub proof fn lemma_inverse_past_the_curve<A: Arithmetic>(model: TriggerModel, factor: Binary64, e: Binary64)
    requires
        rounds_properly::<A>(),
        keeps_sides::<A>(),
        model.k.positive_finite(),
        half().at_most(factor),
        factor.less(one()),
        model.inverts::<A>(factor, e),
    ensures
        one().at_most(e),
{
    let (rest, odds, log, scaled) = choose|rest: Binary64, odds: Binary64, log: Binary64, scaled: Binary64|
        {
            &&& #[trigger] differs::<A>(one(), factor, rest)
            &&& #[trigger] divides::<A>(factor, rest, odds)
            &&& #[trigger] logs::<A>(odds, log)
            &&& #[trigger] divides::<A>(log, model.k, scaled)
            &&& sums::<A>(one(), scaled, e)
        };
    assert(rest.positive_finite() && rest.at_most(factor));
    assert(one().at_most(odds));
    assert(zero().at_most(log));
    assert(zero().at_most(scaled));
}

/// Whether a critical value is neither below `2^-500` nor above `2^500`.
pub open spec fn regular(critical: Binary64) -> bool {
    critical.finite() && grain() <= critical.number() <= pow2(500) as real
}

impl TriggerModel {
    /// Whether the steepness is neither below `2^-500` nor above `2^10`.
    pub open spec fn regular(self) -> bool {
        self.k.finite() && grain() <= self.k.number() <= 1024real
    }
}

/// The inverse of a factor, step by step: the odds, their logarithm and the
/// quotient with the steepness are close to the exact ones.
proof fn lemma_inverse_near<A: Arithmetic>(
    model: TriggerModel,
    ln: spec_fn(real) -> real,
    factor: Binary64,
    e: Binary64,
) -> (r: (real, real, real))
    requires
        rounds_closely::<A>(),
        natural_logarithm(ln),
        logarithm_is_accurate::<A>(ln),
        model.regular(),
        factor.finite(),
        grain() <= factor.number(),
        factor.less(one()),
        model.inverts::<A>(factor, e),
    ensures
        absolute(r.0 * (1real - factor.number()) - factor.number()) <= ulp(4real * factor.number()),
        factor.number() / 2real <= r.0,
        absolute(r.1 - ln(r.0)) <= 1real / 0x100_0000_0000real,
        absolute(r.1) <= 503real,
        absolute(model.k.number() * r.2 - r.1) <= ulp(absolute(r.1)) + 1real / 0x1000_0000_0000_0000real,
        absolute(model.k.number() * e.number() - (model.k.number() + model.k.number() * r.2)) <= ulp(
            absolute(model.k.number() + model.k.number() * r.2),
        ) + 1real / 0x1000_0000_0000_0000real,
        e.finite(),
        absolute(e.number()) <= 506real * (pow2(500) as real),
{
    let (rest, odds, log, scaled) = choose|rest: Binary64, odds: Binary64, log: Binary64, scaled: Binary64|
        {
            &&& #[trigger] differs::<A>(one(), factor, rest)
            &&& #[trigger] divides::<A>(factor, rest, odds)
            &&& #[trigger] logs::<A>(odds, log)
            &&& #[trigger] divides::<A>(log, model.k, scaled)
            &&& sums::<A>(one(), scaled, e)
        };
    lemma_scales();
    lemma_small_numbers();
    lemma_below_one(factor);
    let (f, d, k) = (factor.number(), rest.number(), model.k.number());
    assert(rounds_to(1real - f, rest));
    assert(d >= 1real / 0x40_0000_0000_0000real);
    let w = f / d;
    assert(w * d == f && 0real <= w && w <= 0x40_0000_0000_0000real) by (nonlinear_arith)
        requires
            w == f / d,
            d >= 1real / 0x40_0000_0000_0000real,
            0real <= f <= 1real,
    ;
    assert(rounds_to(w, odds));
    let o = odds.number();
    lemma_odds_near(f, d, w, o);
    lemma_logarithm_of_odds(ln, o);
    let l = log.number();
    assert(absolute(l - ln(o)) <= 1real / 0x100_0000_0000real);
    let v = l / k;
    assert(v * k == l) by (nonlinear_arith)
        requires
            v == l / k,
            k > 0real,
    ;
    lemma_steepness_divides(k, l, v);
    assert(rounds_to(v, scaled));
    let q = scaled.number();
    assert(rounds_to(1real + q, e));
    lemma_exceedance_near(k, l, v, q, e.number());
    (o, l, q)
}

/// The factor of an exceedance leads back to the factor that the exceedance
/// belongs to, within `2^-33`, after the exceedance was multiplied by a critical
/// value and divided by it again.
pub proof fn lemma_factor_returns<A: Arithmetic>(
    model: TriggerModel,
    ln: spec_fn(real) -> real,
    needed: Binary64,
    e: Binary64,
    critical: Binary64,
    signal: Binary64,
    exceedance: Binary64,
    factor: Binary64,
)
    requires
        rounds_closely::<A>(),
        natural_logarithm(ln),
        logarithm_is_accurate::<A>(ln),
        exponential_is_accurate::<A>(ln),
        model.regular(),
        regular(critical),
        needed.finite(),
        grain() <= needed.number(),
        needed.less(one()),
        model.inverts::<A>(needed, e),
        multiplies::<A>(e, critical, signal),
        divides::<A>(signal, critical, exceedance),
        model.maps::<A>(exceedance, factor),
    ensures
        e.finite(),
        signal.finite(),
        exceedance.finite(),
        factor.finite(),
        absolute(factor.number() - needed.number()) <= speck() / 2real,
{
    let (o, l, q) = lemma_inverse_near::<A>(model, ln, needed, e);
    lemma_scales();
    lemma_small_numbers();
    lemma_below_one(needed);
    lemma_opposite_number(model.k);
    let (k, c, m, p) = (model.k.number(), critical.number(), e.number(), pow2(500) as real);
    let mc = m * c;
    assert(absolute(mc) <= 506real * (p * p)) by (nonlinear_arith)
        requires
            mc == m * c,
            absolute(m) <= 506real * p,
            0real < c <= p,
    ;
    assert(rounds_to(mc, signal));
    let w = signal.number() / c;
    assert(w * c == signal.number()) by (nonlinear_arith)
        requires
            w == signal.number() / c,
            c > 0real,
    ;
    lemma_quotient_of_product_near(m, c, signal.number(), w);
    assert(rounds_to(w, exceedance));
    let x = exceedance.number();
    assert(absolute(x - m) <= ulp(4real * absolute(m) + 2real * speck()));
    let (past, scaled, growth, denominator) = choose|p: Binary64, t: Binary64, g: Binary64, d: Binary64|
        {
            &&& #[trigger] differs::<A>(exceedance, one(), p)
            &&& #[trigger] multiplies::<A>(model.k.opposite(), p, t)
            &&& #[trigger] exponentiates::<A>(t, g)
            &&& #[trigger] sums::<A>(one(), g, d)
            &&& divides::<A>(one(), d, factor)
        };
    assert(rounds_to(x - 1real, past));
    let b = past.number();
    let kb = (-k) * b;
    assert(absolute(kb) <= 1024real * absolute(b)) by (nonlinear_arith)
        requires
            kb == (-k) * b,
            0real < k <= 1024real,
    ;
    assert(rounds_to(kb, scaled));
    lemma_argument_near(k, l, q, m, x, b, scaled.number());
    assert(absolute(scaled.number()) <= 512real);
    let g = growth.number();
    lemma_growth_near(ln, o, l, scaled.number(), g);
    assert(g <= 4real * p) by (nonlinear_arith)
        requires
            g * o <= 2real,
            o >= grain() / 2real,
            grain() * p == 1real,
            p >= 1real,
            g > 0real,
    ;
    assert(rounds_to(1real + g, denominator));
    let d = denominator.number();
    assert(d >= 1real / 2real);
    let i = 1real / d;
    assert(i * d == 1real && 0real < i <= 2real) by (nonlinear_arith)
        requires
            i == 1real / d,
            d >= 1real / 2real,
    ;
    assert(rounds_to(i, factor));
    lemma_factor_near(needed.number(), o, g, d, i, factor.number());
}

/// A counterfactual leads back: where a signal is the exceedance of the needed
/// factor times a critical value, the hazard of that signal is the level within
/// `2^-32`. From half of the susceptibility on, the signal lies above zero.
pub proof fn lemma_signal_returns_to_level<A: Arithmetic>(
    model: TriggerModel,
    ln: spec_fn(real) -> real,
    susceptibility: Binary64,
    level: Binary64,
    needed: Binary64,
    e: Binary64,
    critical: Binary64,
    signal: Binary64,
    exceedance: Binary64,
    factor: Binary64,
    hazard: Binary64,
)
    requires
        rounds_properly::<A>(),
        keeps_sides::<A>(),
        rounds_closely::<A>(),
        natural_logarithm(ln),
        logarithm_is_accurate::<A>(ln),
        exponential_is_accurate::<A>(ln),
        model.regular(),
        regular(critical),
        susceptibility.unit(),
        level.unit(),
        level.less(susceptibility),
        level.number() >= 2real * grain(),
        divides::<A>(level, susceptibility, needed),
        model.inverts::<A>(needed, e),
        multiplies::<A>(e, critical, signal),
        divides::<A>(signal, critical, exceedance),
        model.maps::<A>(exceedance, factor),
        multiplies::<A>(susceptibility, factor, hazard),
    ensures
        signal.finite(),
        hazard.finite(),
        absolute(hazard.number() - level.number()) <= speck(),
        susceptibility.number() <= 2real * level.number() ==> zero().less(signal),
{
    lemma_scales();
    lemma_small_numbers();
    lemma_unit_number(susceptibility);
    lemma_unit_number(level);
    lemma_rank_orders_numbers(level, susceptibility);
    lemma_rank_orders_numbers(zero(), model.k);
    lemma_rank_orders_numbers(zero(), critical);
    assert(susceptibility.positive_finite());
    let (s, m) = (susceptibility.number(), level.number());
    let w = m / s;
    assert(w * s == m && m <= w && w <= 1real) by (nonlinear_arith)
        requires
            w == m / s,
            0real <= m < s,
            s <= 1real,
    ;
    assert(rounds_to(w, needed));
    lemma_factor_returns::<A>(model, ln, needed, e, critical, signal, exceedance, factor);
    let (f, r) = (needed.number(), factor.number());
    let sr = s * r;
    assert(absolute(sr - m) <= absolute(r - w)) by (nonlinear_arith)
        requires
            sr == s * r,
            w * s == m,
            0real < s <= 1real,
    ;
    assert(rounds_to(sr, hazard));
    if s <= 2real * m {
        lemma_inverse_past_the_curve::<A>(model, needed, e);
        assert(critical.at_most(signal));
    }
}

/// The factor is the logistic of the steepness times the distance from the curve:
/// `r (1 + g)` is one within `2^-48`, where the logarithm of `g` is
/// `-k (E - 1)` within `2^-38`.
pub proof fn lemma_factor_is_logistic<A: Arithmetic>(
    model: TriggerModel,
    ln: spec_fn(real) -> real,
    exceedance: Binary64,
    r: Binary64,
) -> (g: real)
    requires
        rounds_closely::<A>(),
        natural_logarithm(ln),
        exponential_is_accurate::<A>(ln),
        model.regular(),
        exceedance.finite(),
        absolute(model.k.number() * (exceedance.number() - 1real)) <= 500real,
        call_ensures(TriggerModel::factor::<A>, (&model, exceedance), r),
    ensures
        r.finite(),
        g > 0real,
        absolute(ln(g) + model.k.number() * (exceedance.number() - 1real)) <= 1real / 0x40_0000_0000real,
        absolute(r.number() * (1real + g) - 1real) <= hair(),
{
    lemma_maps_logistic::<A>(model, ln, exceedance, r)
}

/// What the factor of an exceedance is, see [`lemma_factor_is_logistic`].
pub proof fn lemma_maps_logistic<A: Arithmetic>(
    model: TriggerModel,
    ln: spec_fn(real) -> real,
    exceedance: Binary64,
    r: Binary64,
) -> (g: real)
    requires
        rounds_closely::<A>(),
        natural_logarithm(ln),
        exponential_is_accurate::<A>(ln),
        model.regular(),
        exceedance.finite(),
        absolute(model.k.number() * (exceedance.number() - 1real)) <= 500real,
        model.maps::<A>(exceedance, r),
    ensures
        r.finite(),
        g > 0real,
        absolute(ln(g) + model.k.number() * (exceedance.number() - 1real)) <= 1real / 0x40_0000_0000real,
        absolute(r.number() * (1real + g) - 1real) <= hair(),
{
    let (past, scaled, growth, denominator) = choose|p: Binary64, t: Binary64, g: Binary64, d: Binary64|
        {
            &&& #[trigger] differs::<A>(exceedance, one(), p)
            &&& #[trigger] multiplies::<A>(model.k.opposite(), p, t)
            &&& #[trigger] exponentiates::<A>(t, g)
            &&& #[trigger] sums::<A>(one(), g, d)
            &&& divides::<A>(one(), d, r)
        };
    lemma_scales();
    lemma_small_numbers();
    lemma_opposite_number(model.k);
    let (k, x) = (model.k.number(), exceedance.number());
    let away = x - 1real;
    let ka = k * away;
    lemma_far_from_curve(k, away);
    assert(rounds_to(away, past));
    let b = past.number();
    lemma_scaled(k, b, away, tiny());
    let kb = k * b;
    assert((-k) * b == -kb) by (nonlinear_arith)
        requires
            kb == k * b,
    ;
    assert(rounds_to(-kb, scaled));
    assert(absolute(scaled.number() + ka) <= 1real / 0x80_0000_0000real);
    let g = growth.number();
    assert(absolute(ln(g) + ka) <= 1real / 0x40_0000_0000real);
    lemma_logarithm_bounds(ln, g, 1003);
    lemma_growth_rounds(g);
    assert(rounds_to(1real + g, denominator));
    let d = denominator.number();
    let i = 1real / d;
    assert(d >= (1real + g) / 2real);
    lemma_quotient_of(1real, d);
    assert(0real < i && i <= 2real) by (nonlinear_arith)
        requires
            i * d == 1real,
            d >= 1real / 2real,
    ;
    assert(rounds_to(i, r));
    lemma_share_near(g, d, i, r.number());
    g
}

/// A steepness times a distance that is not large keeps the distance in bounds.
proof fn lemma_far_from_curve(k: real, away: real)
    requires
        grain() <= k,
        absolute(k * away) <= 500real,
    ensures
        absolute(away) <= 500real * (pow2(500) as real),
{
    lemma_scales();
    let (g, p, a) = (grain(), pow2(500) as real, absolute(away));
    assert(g * a <= 500real) by {
        let ka = k * away;
        assert(k * a <= 500real) by (nonlinear_arith)
            requires
                ka == k * away,
                absolute(ka) <= 500real,
                a == absolute(away),
        ;
        assert(g * a <= k * a) by (nonlinear_arith)
            requires
                g <= k,
                a >= 0real,
        ;
    }
    assert(a == (g * a) * p) by (nonlinear_arith)
        requires
            g * p == 1real,
    ;
    let ga = g * a;
    assert(ga * p <= 500real * p) by (nonlinear_arith)
        requires
            ga <= 500real,
            p >= 1real,
    ;
}

/// A growth up to `2^1003` does not overflow, and leaves its reciprocal its
/// digits.
proof fn lemma_growth_rounds(g: real)
    requires
        0real < g <= pow2(1003) as real,
    ensures
        1real + g <= huge(),
        tiny() * (1real + g) <= ulp(1real),
{
    lemma_scales();
    lemma_pow2_pos(1003);
    lemma_pow2_pos(1074);
    lemma_pow2_adds(1003, 7);
    lemma_pow2_adds(1004, 70);
    lemma_pow2_adds(1003, 1);
    lemma2_to64();
    lemma2_to64_rest();
    lemma_pow2_adds(60, 10);
    let (a, b) = (pow2(1004) as real, pow2(70) as real);
    assert(pow2(1074) == pow2(1004) * pow2(70));
    assert(pow2(1074) as real == a * b) by {
        let (m, n) = (pow2(1004) as int, pow2(70) as int);
        assert((m * n) as real == (m as real) * (n as real)) by (nonlinear_arith);
    }
    let (t, w) = (tiny(), pow2(1074) as real);
    assert(t * w == 1real) by (nonlinear_arith)
        requires
            t == 1real / w,
            w > 0real,
    ;
    let h = 1real + g;
    assert(h <= a);
    assert(t * h <= t * a) by (nonlinear_arith)
        requires
            h <= a,
            t > 0real,
    ;
    let ta = t * a;
    assert(ta * b == 1real) by (nonlinear_arith)
        requires
            ta == t * a,
            t * w == 1real,
            w == a * b,
    ;
    assert(b >= 0x10_0000_0000_0000real);
    assert(ta <= 1real / 0x10_0000_0000_0000real) by (nonlinear_arith)
        requires
            ta * b == 1real,
            b >= 0x10_0000_0000_0000real,
    ;
}

/// The reciprocal of a rounded sum is close to the exact one, in parts of it.
proof fn lemma_share_near(g: real, d: real, i: real, r: real)
    requires
        g > 0real,
        absolute(d - (1real + g)) <= ulp(absolute(1real + g)) + tiny(),
        i * d == 1real,
        0real < i,
        d >= (1real + g) / 2real,
        absolute(r - i) <= ulp(absolute(i)) + tiny(),
        tiny() * (1real + g) <= ulp(1real),
    ensures
        absolute(r * (1real + g) - 1real) <= hair(),
{
    lemma_scales();
    let (h, t) = (1real + g, tiny());
    let (ih, rh, th) = (i * h, r * h, t * h);
    let x = h - d;
    let ix = i * x;
    assert(ih == 1real + ix) by (nonlinear_arith)
        requires
            ih == i * h,
            ix == i * x,
            x == h - d,
            i * d == 1real,
    ;
    assert(ih <= 2real) by (nonlinear_arith)
        requires
            ih == i * h,
            i * d == 1real,
            d >= h / 2real,
            i > 0real,
    ;
    let c = 2real / 0x10_0000_0000_0000real;
    assert(absolute(x) <= c * h);
    assert(absolute(ix) <= c * ih) by (nonlinear_arith)
        requires
            ix == i * x,
            ih == i * h,
            absolute(x) <= c * h,
            i > 0real,
    ;
    let y = r - i;
    let yh = y * h;
    assert(rh == ih + yh) by (nonlinear_arith)
        requires
            rh == r * h,
            ih == i * h,
            yh == y * h,
            y == r - i,
    ;
    assert(absolute(yh) <= ih / 0x10_0000_0000_0000real + th) by (nonlinear_arith)
        requires
            yh == y * h,
            ih == i * h,
            th == t * h,
            h > 0real,
            absolute(y) <= i / 0x10_0000_0000_0000real + t,
    ;
}

/// The inverse is the logit: the steepness times the distance of the exceedance
/// from the curve is the logarithm of the odds of the factor, within `2^-30`.
pub proof fn lemma_inverse_is_logit<A: Arithmetic>(
    model: TriggerModel,
    ln: spec_fn(real) -> real,
    factor: Binary64,
    e: Binary64,
)
    requires
        rounds_closely::<A>(),
        natural_logarithm(ln),
        logarithm_is_accurate::<A>(ln),
        model.regular(),
        factor.finite(),
        grain() <= factor.number(),
        factor.less(one()),
        call_ensures(TriggerModel::exceedance_for_factor::<A>, (&model, factor), e),
    ensures
        e.finite(),
        absolute(model.k.number() * (e.number() - 1real) - (ln(factor.number()) - ln(1real - factor.number()))) <= speck(),
{
    let (o, l, q) = lemma_inverse_near::<A>(model, ln, factor, e);
    lemma_scales();
    lemma_below_one(factor);
    let (k, f, x) = (model.k.number(), factor.number(), e.number());
    let (kx, kq) = (k * x, k * q);
    assert(k * (x - 1real) == kx - k) by (nonlinear_arith)
        requires
            kx == k * x,
    ;
    let rest = 1real - f;
    let od = o * rest;
    let part = 4real / 0x10_0000_0000_0000real;
    assert(absolute(od - f) <= part * f);
    lemma_logarithm_near(ln, f, od, part);
    assert(turns_products_to_sums(ln, o, rest));
}

} // verus!
