//! Empirical rainfall intensity–duration (I–D) thresholds.
//!
//! The classic power-law threshold (Caine, 1980 and many regional successors)
//! states that landslides become likely when the mean rainfall intensity `I`
//! over a duration `D` exceeds a critical curve:
//!
//! ```text
//! I_crit(D) = a · D^(-b)
//! ```
//!
//! with `I` in mm/h and `D` in hours. `a` sets the overall level and `b` the
//! decay with duration. The *exceedance ratio* `E = I_obs / I_crit(D)` is the
//! dimensionless distance to the curve: `E < 1` below threshold, `E = 1` on it,
//! `E > 1` above.

use vstd::arithmetic::power2::{lemma_pow2_adds, lemma_pow2_pos, lemma_pow2_strictly_increases, pow2};
use vstd::prelude::*;

use crate::accuracy::{
    grain, lemma_scales, natural_logarithm, orders_powers, orders_products, power_is_accurate, rounds_closely, rounds_to,
    tiny, turns_products_to_sums, ulp,
};
use crate::arithmetic::{counts, deterministic, differs, divides, multiplies, raises, Arithmetic};
use crate::binary64::{absolute, lemma_opposite_number, lemma_rank_orders_numbers, lemma_small_numbers, one, zero, Binary64};
use crate::error::{Error, Reason};
use crate::logistic::{lemma_logarithm_bounds, lemma_logarithm_near};

verus! {

/// A power-law intensity–duration threshold `I_crit(D) = a · D^(-b)`.
#[derive(Debug, Clone, Copy, PartialEq, Eq, Structural)]
pub struct IdThreshold {
    /// Intercept `a` (mm/h at D = 1 h). Must be > 0.
    pub a: Binary64,
    /// Decay exponent `b` (dimensionless). Must be >= 0.
    pub b: Binary64,
}

impl IdThreshold {
    /// `r` is the critical mean intensity at a duration.
    pub open spec fn critical<A: Arithmetic>(self, duration_h: Binary64, r: Binary64) -> bool {
        exists|p: Binary64| #[trigger]
            raises::<A>(duration_h, self.b.opposite(), p) && multiplies::<A>(self.a, p, r)
    }

    /// `r` is the exceedance ratio of a mean intensity sustained over a duration;
    /// zero where the curve does not lie above zero.
    pub open spec fn exceeds<A: Arithmetic>(self, intensity: Binary64, duration_h: Binary64, r: Binary64) -> bool {
        exists|crit: Binary64| #[trigger]
            self.critical::<A>(duration_h, crit) && if crit.at_most(zero()) {
                r == zero()
            } else {
                divides::<A>(intensity, crit, r)
            }
    }

    /// Builds a threshold; the intercept must be above zero, the exponent not
    /// below.
    pub fn new(a: Binary64, b: Binary64) -> (r: Result<IdThreshold, Error>)
        ensures
            match r {
                Ok(t) => a.positive_finite() && b.nonnegative_finite() && t == (IdThreshold { a, b }),
                Err(e) => if !a.positive_finite() {
                    e == (Error::InvalidParameter {
                        name: "a",
                        reason: Reason::Value {
                            before: "I-D intercept must be finite and > 0, got ",
                            value: a,
                            after: "",
                        },
                    })
                } else {
                    !b.nonnegative_finite() && e == (Error::InvalidParameter {
                        name: "b",
                        reason: Reason::Value {
                            before: "I-D exponent must be finite and >= 0, got ",
                            value: b,
                            after: "",
                        },
                    })
                },
            },
    {
        if !a.is_positive_finite() {
            return Err(
                Error::InvalidParameter {
                    name: "a",
                    reason: Reason::Value {
                        before: "I-D intercept must be finite and > 0, got ",
                        value: a,
                        after: "",
                    },
                },
            );
        }
        if !b.is_nonnegative_finite() {
            return Err(
                Error::InvalidParameter {
                    name: "b",
                    reason: Reason::Value {
                        before: "I-D exponent must be finite and >= 0, got ",
                        value: b,
                        after: "",
                    },
                },
            );
        }
        Ok(IdThreshold { a, b })
    }

    /// Caine (1980) global threshold: `I = 14.82 · D^(-0.39)` (mm/h, D in hours).
    ///
    /// A well-known default to validate the susceptibility × trigger logic before
    /// a region-specific curve is calibrated.
    pub fn caine() -> (r: IdThreshold)
        ensures
            r.a == (Binary64 { bits: 0x402D_A3D7_0A3D_70A4 }),
            r.b == (Binary64 { bits: 0x3FD8_F5C2_8F5C_28F6 }),
    {
        IdThreshold {
            a: Binary64 { bits: 0x402D_A3D7_0A3D_70A4 },
            b: Binary64 { bits: 0x3FD8_F5C2_8F5C_28F6 },
        }
    }

    /// Critical mean intensity (mm/h) for a given duration (hours).
    pub fn critical_intensity<A: Arithmetic>(&self, duration_h: Binary64) -> (r: Binary64)
        ensures
            self.critical::<A>(duration_h, r),
    {
        let p: Binary64 = A::power(duration_h, self.b.negate());
        assert(raises::<A>(duration_h, self.b.opposite(), p));
        A::times(self.a, p)
    }

    /// Mean intensity (mm/h) that yields exceedance `e` at duration `duration_h`,
    /// that is `e · I_crit(D)`. Used for counterfactual explanations.
    pub fn intensity_for_exceedance<A: Arithmetic>(&self, e: Binary64, duration_h: Binary64) -> (r: Binary64)
        ensures
            exists|crit: Binary64| #[trigger] self.critical::<A>(duration_h, crit) && multiplies::<A>(e, crit, r),
    {
        let crit: Binary64 = self.critical_intensity::<A>(duration_h);
        A::times(e, crit)
    }

    /// Exceedance ratio `E = I_obs / I_crit(D)` for an observed mean intensity
    /// (mm/h) sustained over `duration_h` hours. From one on, the threshold is
    /// met or exceeded.
    pub fn exceedance<A: Arithmetic>(&self, mean_intensity_mm_h: Binary64, duration_h: Binary64) -> (r: Binary64)
        ensures
            self.exceeds::<A>(mean_intensity_mm_h, duration_h, r),
    {
        let crit: Binary64 = self.critical_intensity::<A>(duration_h);
        if crit.not_above(zero()) {
            return zero();
        }
        A::over(mean_intensity_mm_h, crit)
    }
}

/// `r` is the duration of a window of `m` steps.
pub open spec fn duration_of<A: Arithmetic>(m: int, dt: Binary64, r: Binary64) -> bool {
    exists|count: Binary64| #[trigger] counts::<A>(m, count) && multiplies::<A>(count, dt, r)
}

/// `r` is the mean intensity of a window with given sums at its start and end.
pub open spec fn intensity_of<A: Arithmetic>(
    start: Binary64,
    end: Binary64,
    duration_h: Binary64,
    r: Binary64,
) -> bool {
    exists|depth: Binary64| #[trigger] differs::<A>(end, start, depth) && divides::<A>(depth, duration_h, r)
}

/// `e` is the exceedance of the window over the last `m` steps of a list of
/// running sums.
pub open spec fn window_exceedance<A: Arithmetic>(
    threshold: IdThreshold,
    dt: Binary64,
    sums: Seq<Binary64>,
    m: int,
    e: Binary64,
) -> bool {
    exists|duration: Binary64, intensity: Binary64| #[trigger]
        duration_of::<A>(m, dt, duration) && #[trigger] intensity_of::<A>(
            sums[sums.len() - 1 - m],
            sums.last(),
            duration,
            intensity,
        ) && threshold.exceeds::<A>(intensity, duration, e)
}

/// `es` holds the exceedances of the windows over the last 1, 2, … steps.
pub open spec fn window_exceedances<A: Arithmetic>(
    threshold: IdThreshold,
    dt: Binary64,
    sums: Seq<Binary64>,
    es: Seq<Binary64>,
) -> bool {
    &&& es.len() == sums.len() - 1
    &&& forall|k: int| 0 <= k < es.len() ==> window_exceedance::<A>(threshold, dt, sums, k + 1, #[trigger] es[k])
}

/// `e` is the largest of some exceedances and `m` the first window that has it;
/// where none is above zero, zero and the shortest window.
pub open spec fn worst(es: Seq<Binary64>, e: Binary64, m: int) -> bool {
    if forall|k: int| 0 <= k < es.len() ==> !zero().less(#[trigger] es[k]) {
        e == zero() && m == 1
    } else {
        &&& 1 <= m <= es.len()
        &&& e == es[m - 1]
        &&& zero().less(e)
        &&& forall|k: int| 0 <= k < es.len() ==> !e.less(#[trigger] es[k])
        &&& forall|k: int| 0 <= k < m - 1 ==> !e.at_most(#[trigger] es[k])
    }
}

/// `(e, m)` is the worst exceedance over all windows that end at the last of a
/// list of running sums, and the length of the window that produced it.
pub open spec fn worst_window_of<A: Arithmetic>(
    threshold: IdThreshold,
    dt: Binary64,
    sums: Seq<Binary64>,
    e: Binary64,
    m: int,
) -> bool {
    exists|es: Seq<Binary64>| #[trigger] window_exceedances::<A>(threshold, dt, sums, es) && worst(es, e, m)
}

/// The duration of a window of `m` steps.
pub fn duration<A: Arithmetic>(m: usize, dt: Binary64) -> (r: Binary64)
    ensures
        duration_of::<A>(m as int, dt, r),
{
    let count: Binary64 = A::of_count(m as u64);
    assert(counts::<A>(m as int, count));
    A::times(count, dt)
}

/// The mean intensity of a window with given sums at its start and end.
pub fn intensity<A: Arithmetic>(start: Binary64, end: Binary64, duration_h: Binary64) -> (r: Binary64)
    ensures
        intensity_of::<A>(start, end, duration_h, r),
{
    let depth: Binary64 = A::minus(end, start);
    assert(differs::<A>(end, start, depth));
    A::over(depth, duration_h)
}

impl IdThreshold {
    /// The worst exceedance over all windows that end at the last of a list of
    /// running sums, and the length (in steps) of the window that produced it.
    pub fn worst_window<A: Arithmetic>(&self, dt: Binary64, sums: &[Binary64]) -> (r: (Binary64, usize))
        requires
            sums@.len() > 0,
        ensures
            worst_window_of::<A>(*self, dt, sums@, r.0, r.1 as int),
            r.1 >= 1,
            sums@.len() > 1 ==> r.1 < sums@.len(),
    {
        let n: usize = sums.len() - 1;
        let end: Binary64 = sums[n];
        let ghost mut es: Seq<Binary64> = Seq::empty();
        let mut best: Binary64 = zero();
        let mut best_m: usize = 1;
        let mut m: usize = 1;
        while m <= n
            invariant
                1 <= m <= n + 1,
                n == sums@.len() - 1,
                end == sums@.last(),
                es.len() == m - 1,
                forall|k: int| 0 <= k < es.len() ==> window_exceedance::<A>(*self, dt, sums@, k + 1, #[trigger] es[k]),
                worst(es, best, best_m as int),
                best_m <= m,
                m > 1 ==> best_m < m,
            decreases n + 1 - m,
        {
            let duration_h: Binary64 = duration::<A>(m, dt);
            let i: Binary64 = intensity::<A>(sums[n - m], end, duration_h);
            let e: Binary64 = self.exceedance::<A>(i, duration_h);
            proof {
                assert(intensity_of::<A>(sums@[sums@.len() - 1 - m], sums@.last(), duration_h, i));
                assert(window_exceedance::<A>(*self, dt, sums@, m as int, e));
            }
            let ghost before = es;
            let ghost (old_best, old_m) = (best, best_m);
            if best.below(e) {
                best = e;
                best_m = m;
            }
            proof {
                es = es.push(e);
                lemma_worst_next(before, old_best, old_m as int, e);
            }
            m = m + 1;
        }
        assert(window_exceedances::<A>(*self, dt, sums@, es));
        (best, best_m)
    }
}

/// One more exceedance replaces the worst one where it is above it.
proof fn lemma_worst_next(es: Seq<Binary64>, best: Binary64, m: int, e: Binary64)
    requires
        worst(es, best, m),
    ensures
        if best.less(e) {
            worst(es.push(e), e, es.len() as int + 1)
        } else {
            worst(es.push(e), best, m)
        },
{
    let next = es.push(e);
    if best.less(e) {
        assert(next[es.len() as int] == e);
        assert forall|k: int| 0 <= k < next.len() implies !e.less(#[trigger] next[k]) by {
            if k < es.len() {
                assert(next[k] == es[k]);
            }
        }
        assert forall|k: int| 0 <= k < es.len() implies !e.at_most(#[trigger] next[k]) by {
            assert(next[k] == es[k]);
        }
    } else if forall|k: int| 0 <= k < es.len() ==> !zero().less(#[trigger] es[k]) {
        assert forall|k: int| 0 <= k < next.len() implies !zero().less(#[trigger] next[k]) by {
            if k < es.len() {
                assert(next[k] == es[k]);
            }
        }
    } else {
        assert(next[m - 1] == es[m - 1]);
        assert forall|k: int| 0 <= k < next.len() implies !best.less(#[trigger] next[k]) by {
            if k < es.len() {
                assert(next[k] == es[k]);
            }
        }
        assert forall|k: int| 0 <= k < m - 1 implies !best.at_most(#[trigger] next[k]) by {
            assert(next[k] == es[k]);
        }
    }
}

/// The worst window is determined by the exceedances.
proof fn lemma_worst_unique(es: Seq<Binary64>, e: Binary64, m: int, f: Binary64, n: int)
    requires
        worst(es, e, m),
        worst(es, f, n),
    ensures
        e == f,
        m == n,
{
    if !(forall|k: int| 0 <= k < es.len() ==> !zero().less(#[trigger] es[k])) {
        if m < n {
            assert(!f.at_most(es[m - 1]));
            assert(!e.less(es[n - 1]));
        }
        if n < m {
            assert(!e.at_most(es[n - 1]));
            assert(!f.less(es[m - 1]));
        }
    }
}

/// The worst window is determined by the threshold, the step length and the sums.
pub proof fn lemma_worst_window_unique<A: Arithmetic>(
    threshold: IdThreshold,
    dt: Binary64,
    sums: Seq<Binary64>,
    e: Binary64,
    m: int,
    f: Binary64,
    n: int,
)
    requires
        deterministic::<A>(),
        worst_window_of::<A>(threshold, dt, sums, e, m),
        worst_window_of::<A>(threshold, dt, sums, f, n),
    ensures
        e == f,
        m == n,
{
    let es = choose|es: Seq<Binary64>| #[trigger] window_exceedances::<A>(threshold, dt, sums, es) && worst(es, e, m);
    let fs = choose|fs: Seq<Binary64>| #[trigger] window_exceedances::<A>(threshold, dt, sums, fs) && worst(fs, f, n);
    assert forall|k: int| 0 <= k < es.len() implies es[k] == fs[k] by {
        assert(window_exceedance::<A>(threshold, dt, sums, k + 1, es[k]));
        assert(window_exceedance::<A>(threshold, dt, sums, k + 1, fs[k]));
        lemma_window_exceedance_unique::<A>(threshold, dt, sums, k + 1, es[k], fs[k]);
    }
    assert(es == fs);
    lemma_worst_unique(es, e, m, f, n);
}

proof fn lemma_window_exceedance_unique<A: Arithmetic>(
    threshold: IdThreshold,
    dt: Binary64,
    sums: Seq<Binary64>,
    m: int,
    e: Binary64,
    f: Binary64,
)
    requires
        deterministic::<A>(),
        window_exceedance::<A>(threshold, dt, sums, m, e),
        window_exceedance::<A>(threshold, dt, sums, m, f),
    ensures
        e == f,
{
    let (start, end) = (sums[sums.len() - 1 - m], sums.last());
    let (d1, i1) = choose|duration: Binary64, intensity: Binary64| #[trigger]
        duration_of::<A>(m, dt, duration) && #[trigger] intensity_of::<A>(start, end, duration, intensity)
            && threshold.exceeds::<A>(intensity, duration, e);
    let (d2, i2) = choose|duration: Binary64, intensity: Binary64| #[trigger]
        duration_of::<A>(m, dt, duration) && #[trigger] intensity_of::<A>(start, end, duration, intensity)
            && threshold.exceeds::<A>(intensity, duration, f);
    let c1 = choose|c: Binary64| #[trigger] counts::<A>(m, c) && multiplies::<A>(c, dt, d1);
    let c2 = choose|c: Binary64| #[trigger] counts::<A>(m, c) && multiplies::<A>(c, dt, d2);
    assert(c1 == c2);
    assert(d1 == d2);
    let x1 = choose|x: Binary64| #[trigger] differs::<A>(end, start, x) && divides::<A>(x, d1, i1);
    let x2 = choose|x: Binary64| #[trigger] differs::<A>(end, start, x) && divides::<A>(x, d2, i2);
    assert(x1 == x2);
    assert(i1 == i2);
    lemma_exceeds_unique::<A>(threshold, i1, d1, e, f);
}

/// The exceedance is determined by the threshold, the intensity and the duration.
pub proof fn lemma_exceeds_unique<A: Arithmetic>(
    threshold: IdThreshold,
    intensity: Binary64,
    duration_h: Binary64,
    e: Binary64,
    f: Binary64,
)
    requires
        deterministic::<A>(),
        threshold.exceeds::<A>(intensity, duration_h, e),
        threshold.exceeds::<A>(intensity, duration_h, f),
    ensures
        e == f,
{
    let c = choose|c: Binary64| #[trigger]
        threshold.critical::<A>(duration_h, c) && if c.at_most(zero()) {
            e == zero()
        } else {
            divides::<A>(intensity, c, e)
        };
    let d = choose|d: Binary64| #[trigger]
        threshold.critical::<A>(duration_h, d) && if d.at_most(zero()) {
            f == zero()
        } else {
            divides::<A>(intensity, d, f)
        };
    let p = choose|p: Binary64| #[trigger]
        raises::<A>(duration_h, threshold.b.opposite(), p) && multiplies::<A>(threshold.a, p, c);
    let q = choose|q: Binary64| #[trigger]
        raises::<A>(duration_h, threshold.b.opposite(), q) && multiplies::<A>(threshold.a, q, d);
    assert(p == q);
    assert(c == d);
}

/// The critical intensity is determined by the threshold and the duration.
pub proof fn lemma_critical_unique<A: Arithmetic>(threshold: IdThreshold, duration_h: Binary64, a: Binary64, b: Binary64)
    requires
        deterministic::<A>(),
        threshold.critical::<A>(duration_h, a),
        threshold.critical::<A>(duration_h, b),
    ensures
        a == b,
{
    let p = choose|p: Binary64| #[trigger]
        raises::<A>(duration_h, threshold.b.opposite(), p) && multiplies::<A>(threshold.a, p, a);
    let q = choose|q: Binary64| #[trigger]
        raises::<A>(duration_h, threshold.b.opposite(), q) && multiplies::<A>(threshold.a, q, b);
    assert(p == q);
}

/// A worst exceedance is never a NaN nor below zero.
pub proof fn lemma_worst_window_nonnegative<A: Arithmetic>(
    threshold: IdThreshold,
    dt: Binary64,
    sums: Seq<Binary64>,
    e: Binary64,
    m: int,
)
    requires
        worst_window_of::<A>(threshold, dt, sums, e, m),
    ensures
        zero().at_most(e),
{
}

/// The curve falls with the duration: of two durations the longer one never has
/// the higher critical intensity, whichever side of one hour they lie on. Up to
/// one hour the critical intensity is at least the intercept, from one hour on at
/// most the intercept.
pub proof fn lemma_critical_falls_with_duration<A: Arithmetic>(
    threshold: IdThreshold,
    short: Binary64,
    long: Binary64,
    high: Binary64,
    low: Binary64,
)
    requires
        orders_powers::<A>(),
        orders_products::<A>(),
        threshold.a.positive_finite(),
        threshold.b.nonnegative_finite(),
        short.positive_finite(),
        long.finite(),
        short.at_most(long),
        call_ensures(IdThreshold::critical_intensity::<A>, (&threshold, short), high),
        call_ensures(IdThreshold::critical_intensity::<A>, (&threshold, long), low),
    ensures
        low.at_most(high),
        short.at_most(one()) ==> threshold.a.at_most(high),
        one().at_most(long) ==> low.at_most(threshold.a),
        one().at_most(short) ==> high.at_most(threshold.a),
        long.at_most(one()) ==> threshold.a.at_most(low),
{
    let e = threshold.b.opposite();
    assert(e.finite() && e.at_most(zero()));
    let p = choose|p: Binary64| #[trigger] raises::<A>(short, e, p) && multiplies::<A>(threshold.a, p, high);
    let q = choose|q: Binary64| #[trigger] raises::<A>(long, e, q) && multiplies::<A>(threshold.a, q, low);
    assert(q.at_most(p));
}

/// The curve is the power law: the logarithm of the critical intensity is that of
/// the intercept less the exponent times that of the duration, within `2^-40`.
pub proof fn lemma_critical_is_power_law<A: Arithmetic>(
    ln: spec_fn(real) -> real,
    threshold: IdThreshold,
    duration_h: Binary64,
    c: Binary64,
)
    requires
        rounds_closely::<A>(),
        natural_logarithm(ln),
        power_is_accurate::<A>(ln),
        threshold.a.finite(),
        grain() <= threshold.a.number() <= pow2(500) as real,
        threshold.b.finite(),
        duration_h.positive_finite(),
        absolute(threshold.b.number() * ln(duration_h.number())) <= 200real,
        call_ensures(IdThreshold::critical_intensity::<A>, (&threshold, duration_h), c),
    ensures
        c.finite(),
        c.number() > 0real,
        absolute(ln(c.number()) - (ln(threshold.a.number()) - threshold.b.number() * ln(duration_h.number()))) <= 1real
            / 0x100_0000_0000real,
{
    let e = threshold.b.opposite();
    lemma_opposite_number(threshold.b);
    let p = choose|p: Binary64| #[trigger] raises::<A>(duration_h, e, p) && multiplies::<A>(threshold.a, p, c);
    let (b, l) = (threshold.b.number(), ln(duration_h.number()));
    assert((-b) * l == -(b * l)) by (nonlinear_arith);
    let (a, m) = (threshold.a.number(), p.number());
    assert(absolute(ln(m) + b * l) <= 1real / 0x1000_0000_0000real);
    lemma_logarithm_bounds(ln, m, 402);
    lemma_scales();
    lemma_pow2_pos(402);
    lemma_pow2_pos(98);
    lemma_pow2_adds(402, 98);
    lemma_pow2_adds(500, 402);
    lemma_pow2_strictly_increases(902, 1010);
    lemma_pow2_strictly_increases(402, 500);
    let (u, v) = (pow2(402) as real, pow2(500) as real);
    let am = a * m;
    assert((pow2(500) * pow2(402)) as real == v * u) by {
        let (x, y) = (pow2(500) as int, pow2(402) as int);
        assert((x * y) as real == (x as real) * (y as real)) by (nonlinear_arith);
    }
    assert(0real < am && am <= v * u) by (nonlinear_arith)
        requires
            am == a * m,
            0real < a <= v,
            0real < m <= u,
    ;
    assert(am * v >= grain()) by (nonlinear_arith)
        requires
            am == a * m,
            grain() <= a,
            0real < grain(),
            m * u >= 1real,
            0real < u <= v,
            m > 0real,
    ;
    assert(am >= grain() * grain()) by (nonlinear_arith)
        requires
            am * v >= grain(),
            grain() * v == 1real,
            grain() > 0real,
            am > 0real,
    ;
    assert(rounds_to(am, c));
    lemma_product_rounds_relatively(am);
    let part = 2real / 0x10_0000_0000_0000real;
    assert(absolute(c.number() - am) <= part * am) by (nonlinear_arith)
        requires
            absolute(c.number() - am) <= am / 0x10_0000_0000_0000real + tiny(),
            tiny() <= am / 0x10_0000_0000_0000real,
            part == 2real / 0x10_0000_0000_0000real,
    ;
    lemma_logarithm_near(ln, am, c.number(), part);
    assert(turns_products_to_sums(ln, a, m));
}

/// No number from `2^-1000` on is so small that it loses digits.
proof fn lemma_product_rounds_relatively(x: real)
    requires
        x >= grain() * grain(),
    ensures
        tiny() <= ulp(x),
{
    lemma_scales();
    let (g, p) = (grain(), pow2(500) as real);
    lemma_pow2_adds(500, 500);
    lemma_pow2_pos(1000);
    let q = pow2(1000) as real;
    assert(q == p * p) by {
        let m = pow2(500) as int;
        assert((m * m) as real == (m as real) * (m as real)) by (nonlinear_arith);
    }
    let d = 1real / q;
    assert(d == g * g) by (nonlinear_arith)
        requires
            d == 1real / q,
            q == p * p,
            g * p == 1real,
            p > 0real,
    ;
}

/// The exceedance is the intensity in multiples of the critical intensity: their
/// quotient, within a neighbouring value. On the curve it is one, within as much.
pub proof fn lemma_exceedance_is_multiple_of_critical<A: Arithmetic>(
    threshold: IdThreshold,
    intensity: Binary64,
    duration_h: Binary64,
    critical: Binary64,
    e: Binary64,
)
    requires
        deterministic::<A>(),
        rounds_closely::<A>(),
        intensity.finite(),
        critical.positive_finite(),
        absolute(intensity.number()) <= pow2(500) as real * critical.number(),
        call_ensures(IdThreshold::critical_intensity::<A>, (&threshold, duration_h), critical),
        call_ensures(IdThreshold::exceedance::<A>, (&threshold, intensity, duration_h), e),
    ensures
        e.finite(),
        rounds_to(intensity.number() / critical.number(), e),
{
    let crit = choose|crit: Binary64| #[trigger]
        threshold.critical::<A>(duration_h, crit) && if crit.at_most(zero()) {
            e == zero()
        } else {
            divides::<A>(intensity, crit, e)
        };
    lemma_critical_unique::<A>(threshold, duration_h, crit, critical);
    lemma_small_numbers();
    lemma_scales();
    lemma_rank_orders_numbers(zero(), critical);
    let (i, c, p) = (intensity.number(), critical.number(), pow2(500) as real);
    let w = i / c;
    assert(absolute(w) <= p) by (nonlinear_arith)
        requires
            w == i / c,
            c > 0real,
            absolute(i) <= p * c,
    ;
}

/// A mean intensity that is asked for an exceedance has that exceedance: it is
/// the exceedance times the critical intensity, within a neighbouring value.
pub proof fn lemma_intensity_has_exceedance<A: Arithmetic>(
    threshold: IdThreshold,
    e: Binary64,
    duration_h: Binary64,
    critical: Binary64,
    intensity: Binary64,
)
    requires
        deterministic::<A>(),
        rounds_closely::<A>(),
        e.finite(),
        critical.finite(),
        absolute(e.number()) <= pow2(500) as real,
        absolute(critical.number()) <= pow2(500) as real,
        call_ensures(IdThreshold::critical_intensity::<A>, (&threshold, duration_h), critical),
        call_ensures(IdThreshold::intensity_for_exceedance::<A>, (&threshold, e, duration_h), intensity),
    ensures
        rounds_to(e.number() * critical.number(), intensity),
{
    let crit = choose|crit: Binary64| #[trigger]
        threshold.critical::<A>(duration_h, crit) && multiplies::<A>(e, crit, intensity);
    lemma_critical_unique::<A>(threshold, duration_h, crit, critical);
    lemma_scales();
    let (x, y, p) = (e.number(), critical.number(), pow2(500) as real);
    let xy = x * y;
    assert(absolute(xy) <= p * p) by (nonlinear_arith)
        requires
            xy == x * y,
            absolute(x) <= p,
            absolute(y) <= p,
    ;
}

/// A window of `m` steps lasts `m` times as long as a step, and the depth that
/// fell in it is its mean intensity times its duration: what the running sum grew
/// by from its start to its end.
pub proof fn lemma_window_keeps_its_depth<A: Arithmetic>(
    m: usize,
    dt: Binary64,
    start: Binary64,
    end: Binary64,
    duration_h: Binary64,
    i: Binary64,
)
    requires
        rounds_closely::<A>(),
        0 < m <= 0x100_0000_0000,
        dt.finite(),
        grain() <= dt.number() <= 0x1_0000_0000real,
        start.finite(),
        end.finite(),
        absolute(start.number()) <= pow2(400) as real,
        absolute(end.number()) <= pow2(400) as real,
        call_ensures(duration::<A>, (m, dt), duration_h),
        call_ensures(intensity::<A>, (start, end, duration_h), i),
    ensures
        rounds_to((m as real) * dt.number(), duration_h),
        i.finite(),
        absolute(i.number() * duration_h.number() - (end.number() - start.number())) <= ulp(
            4real * absolute(end.number() - start.number()),
        ) + tiny() * 0x1_0000_0000_0000_0000_0000real,
{
    let count = choose|count: Binary64| #[trigger] counts::<A>(m as int, count) && multiplies::<A>(count, dt, duration_h);
    let depth = choose|depth: Binary64| #[trigger] differs::<A>(end, start, depth) && divides::<A>(depth, duration_h, i);
    lemma_scales();
    let (n, t) = (m as real, dt.number());
    assert(count.number() == n);
    let nt = n * t;
    assert(grain() <= nt && nt <= 0x100_0000_0000real * 0x1_0000_0000real) by (nonlinear_arith)
        requires
            nt == n * t,
            1real <= n <= 0x100_0000_0000real,
            0real < grain(),
            grain() <= t <= 0x1_0000_0000real,
    ;
    assert(rounds_to(nt, duration_h));
    let d = duration_h.number();
    assert(grain() / 2real <= d && d <= 0x1_0000_0000_0000_0000_0000real / 4real);
    lemma_pow2_strictly_increases(400, 500);
    let x = end.number() - start.number();
    assert(rounds_to(x, depth));
    let y = depth.number();
    let (p, g) = (pow2(500) as real, grain());
    let w = y / d;
    assert(w * d == y && absolute(w) <= 8real * (p * p)) by (nonlinear_arith)
        requires
            w == y / d,
            g / 2real <= d,
            g * p == 1real,
            p >= 1real,
            absolute(y) <= 4real * p,
    ;
    assert(rounds_to(w, i));
    let v = i.number();
    let (vd, s) = (v * d, tiny());
    assert(absolute(vd - y) <= absolute(y) / 0x10_0000_0000_0000real + s * d) by (nonlinear_arith)
        requires
            vd == v * d,
            w * d == y,
            d > 0real,
            absolute(v - w) <= absolute(w) / 0x10_0000_0000_0000real + s,
    ;
    assert(s * d <= s * (0x1_0000_0000_0000_0000_0000real / 4real)) by (nonlinear_arith)
        requires
            0real < s,
            d <= 0x1_0000_0000_0000_0000_0000real / 4real,
    ;
}

/// The worst window is the worst: no window that ends at the last running sum has
/// a higher exceedance; one of them has it, the shortest of those that do, or no
/// window lies above zero.
pub proof fn lemma_worst_window_is_worst<A: Arithmetic>(
    threshold: IdThreshold,
    dt: Binary64,
    sums: &[Binary64],
    worst: (Binary64, usize),
    m: usize,
    duration_h: Binary64,
    i: Binary64,
    e: Binary64,
)
    requires
        deterministic::<A>(),
        1 <= m < sums@.len(),
        call_ensures(IdThreshold::worst_window::<A>, (&threshold, dt, sums), worst),
        call_ensures(duration::<A>, (m, dt), duration_h),
        call_ensures(intensity::<A>, (sums@[sums@.len() - 1 - m], sums@.last(), duration_h), i),
        call_ensures(IdThreshold::exceedance::<A>, (&threshold, i, duration_h), e),
    ensures
        !worst.0.less(e),
        zero().at_most(worst.0),
        zero().less(worst.0) && worst.1 == m ==> worst.0 == e,
        zero().less(worst.0) && m < worst.1 ==> !worst.0.at_most(e),
        1 <= worst.1 < sums@.len(),
{
    lemma_worst_of_windows::<A>(threshold, dt, sums@, worst.0, worst.1 as int, m as int, duration_h, i, e);
}

/// The worst of windows, see [`lemma_worst_window_is_worst`].
pub proof fn lemma_worst_of_windows<A: Arithmetic>(
    threshold: IdThreshold,
    dt: Binary64,
    sums: Seq<Binary64>,
    worst_e: Binary64,
    worst_m: int,
    m: int,
    duration_h: Binary64,
    i: Binary64,
    e: Binary64,
)
    requires
        deterministic::<A>(),
        1 <= m < sums.len(),
        worst_window_of::<A>(threshold, dt, sums, worst_e, worst_m),
        duration_of::<A>(m, dt, duration_h),
        intensity_of::<A>(sums[sums.len() - 1 - m], sums.last(), duration_h, i),
        threshold.exceeds::<A>(i, duration_h, e),
    ensures
        !worst_e.less(e),
        zero().at_most(worst_e),
        zero().less(worst_e) && worst_m == m ==> worst_e == e,
        zero().less(worst_e) && m < worst_m ==> !worst_e.at_most(e),
        1 <= worst_m < sums.len(),
{
    let es = choose|es: Seq<Binary64>| #[trigger]
        window_exceedances::<A>(threshold, dt, sums, es) && worst(es, worst_e, worst_m);
    assert(window_exceedance::<A>(threshold, dt, sums, m - 1 + 1, es[m - 1]));
    assert(window_exceedance::<A>(threshold, dt, sums, m, e));
    lemma_window_exceedance_unique::<A>(threshold, dt, sums, m, es[m - 1], e);
}

} // verus!
