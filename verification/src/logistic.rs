//! How closely a logistic undoes its inverse.
//!
//! From a factor `f` the inverse computes the odds `o = f / (1 - f)`, their
//! logarithm and an exceedance; the logistic computes `1 / (1 + g)` back from the
//! exceedance, with a growth `g` that is about `1 / o`. Here the errors of the
//! single operations on that way are added up.

use vstd::arithmetic::power2::{lemma2_to64, lemma_pow2_adds, lemma_pow2_pos, lemma_pow2_unfold, pow2};
use vstd::prelude::*;

use crate::accuracy::{
    grain, lemma_scales, lies_below_tangent, natural_logarithm, speck, tiny, turns_products_to_sums, ulp,
};
use crate::binary64::absolute;

verus! {

/// The logarithm of one is zero, and logarithms are ordered like what they are
/// taken of.
pub proof fn lemma_logarithm_ascends(ln: spec_fn(real) -> real, x: real, y: real)
    requires
        natural_logarithm(ln),
        0real < x <= y,
    ensures
        ln(1real) == 0real,
        ln(x) <= ln(y),
{
    assert(turns_products_to_sums(ln, 1real, 1real));
    assert(1real * 1real == 1real) by (nonlinear_arith);
    let q = x / y;
    assert(0real < q <= 1real && q * y == x) by (nonlinear_arith)
        requires
            q == x / y,
            0real < x <= y,
    ;
    assert(turns_products_to_sums(ln, q, y));
    assert(lies_below_tangent(ln, q));
}

/// The logarithm of a power of two is at most its exponent.
proof fn lemma_logarithm_of_power(ln: spec_fn(real) -> real, n: nat)
    requires
        natural_logarithm(ln),
    ensures
        ln(pow2(n) as real) <= n as real,
    decreases n,
{
    lemma_pow2_pos(n);
    if n == 0 {
        lemma2_to64();
        lemma_logarithm_ascends(ln, 1real, 1real);
    } else {
        let m = (n - 1) as nat;
        lemma_logarithm_of_power(ln, m);
        lemma_pow2_pos(m);
        lemma_pow2_unfold(n);
        let half = pow2(m) as real;
        assert(pow2(n) as real == 2real * half);
        assert(turns_products_to_sums(ln, 2real, half));
        assert(lies_below_tangent(ln, 2real));
    }
}

/// The logarithm of a power of two is at least half of its exponent.
proof fn lemma_logarithm_of_power_grows(ln: spec_fn(real) -> real, n: nat)
    requires
        natural_logarithm(ln),
    ensures
        ln(pow2(n) as real) >= (n as real) / 2real,
    decreases n,
{
    lemma_pow2_pos(n);
    if n == 0 {
        lemma2_to64();
        lemma_logarithm_ascends(ln, 1real, 1real);
    } else {
        let m = (n - 1) as nat;
        lemma_logarithm_of_power_grows(ln, m);
        lemma_pow2_pos(m);
        lemma_pow2_unfold(n);
        let half = pow2(m) as real;
        assert(pow2(n) as real == 2real * half);
        assert(turns_products_to_sums(ln, 2real, half));
        assert(turns_products_to_sums(ln, 2real, 1real / 2real));
        assert(lies_below_tangent(ln, 1real / 2real));
        lemma_logarithm_ascends(ln, 1real, 1real);
    }
}

/// What a logarithm up to half of `n` is the logarithm of lies between `2^-n` and
/// `2^n`.
pub proof fn lemma_logarithm_bounds(ln: spec_fn(real) -> real, x: real, n: nat)
    requires
        natural_logarithm(ln),
        x > 0real,
        absolute(ln(x)) < (n as real) / 2real,
    ensures
        1real <= x * (pow2(n) as real),
        x <= pow2(n) as real,
{
    lemma_pow2_pos(n);
    lemma_logarithm_of_power_grows(ln, n);
    let p = pow2(n) as real;
    if x > p {
        lemma_logarithm_ascends(ln, p, x);
    }
    let xp = x * p;
    assert(xp > 0real) by (nonlinear_arith)
        requires
            xp == x * p,
            x > 0real,
            p > 0real,
    ;
    assert(turns_products_to_sums(ln, x, p));
    if xp < 1real {
        lemma_logarithm_ascends(ln, xp, 1real);
    }
}

/// Close numbers have close logarithms.
pub proof fn lemma_logarithm_near(ln: spec_fn(real) -> real, x: real, r: real, part: real)
    requires
        natural_logarithm(ln),
        x > 0real,
        0real <= part <= 1real / 2real,
        absolute(r - x) <= part * x,
    ensures
        r > 0real,
        absolute(ln(r) - ln(x)) <= 2real * part,
{
    let (q, i) = (r / x, x / r);
    assert(r > 0real) by (nonlinear_arith)
        requires
            x > 0real,
            part <= 1real / 2real,
            absolute(r - x) <= part * x,
    ;
    assert(q > 0real && q * x == r && q - 1real <= part) by (nonlinear_arith)
        requires
            q == r / x,
            r > 0real,
            x > 0real,
            absolute(r - x) <= part * x,
    ;
    assert(i > 0real && i * r == x && i - 1real <= 2real * part) by (nonlinear_arith)
        requires
            i == x / r,
            r > 0real,
            x > 0real,
            0real <= part <= 1real / 2real,
            absolute(r - x) <= part * x,
    ;
    assert(turns_products_to_sums(ln, q, x) && turns_products_to_sums(ln, i, r));
    assert(lies_below_tangent(ln, q) && lies_below_tangent(ln, i));
}

/// The logarithms of odds lie between `-502` and `64`.
pub proof fn lemma_logarithm_of_odds(ln: spec_fn(real) -> real, o: real)
    requires
        natural_logarithm(ln),
        grain() / 4real <= o <= 0x1_0000_0000_0000_0000real,
    ensures
        -502real <= ln(o) <= 64real,
{
    lemma_scales();
    lemma2_to64();
    vstd::arithmetic::power2::lemma2_to64_rest();
    lemma_logarithm_of_power(ln, 64);
    lemma_logarithm_ascends(ln, o, pow2(64) as real);
    lemma_pow2_adds(2, 500);
    lemma_logarithm_of_power(ln, 502);
    let p = pow2(500) as real;
    let low = grain() / 4real;
    assert(pow2(502) as real == 4real * p);
    let high = 4real * p;
    assert(low * high == 1real) by (nonlinear_arith)
        requires
            low == grain() / 4real,
            high == 4real * p,
            grain() * p == 1real,
    ;
    assert(turns_products_to_sums(ln, low, high));
    lemma_logarithm_ascends(ln, low, o);
}

/// Odds are off by no more than a few neighbouring values.
pub proof fn lemma_odds_near(f: real, rest: real, w: real, o: real)
    requires
        grain() <= f <= 1real - 1real / 0x20_0000_0000_0000real,
        absolute(rest - (1real - f)) <= ulp(absolute(1real - f)) + tiny(),
        w * rest == f,
        absolute(o - w) <= ulp(absolute(w)) + tiny(),
    ensures
        absolute(o * (1real - f) - f) <= ulp(4real * f),
        f / 2real <= o <= 0x1_0000_0000_0000_0000real,
{
    lemma_scales();
    let t = tiny();
    let d = 1real - f;
    let (u, v) = (o - w, d - rest);
    assert(rest > 0real && rest >= d - d / 0x8_0000_0000_0000real);
    assert(w > 0real) by (nonlinear_arith)
        requires
            w * rest == f,
            f > 0real,
            rest > 0real,
    ;
    let wd = w * d;
    assert(wd <= 2real * f && wd - wd / 0x8_0000_0000_0000real <= f) by (nonlinear_arith)
        requires
            wd == w * d,
            w * rest == f,
            rest >= d - d / 0x8_0000_0000_0000real,
            d > 0real,
            w > 0real,
    ;
    let wt = w * t;
    assert(wt <= f / 0x1000_0000_0000_0000real) by (nonlinear_arith)
        requires
            wt == w * t,
            w * rest == f,
            w > 0real,
            t <= rest / 0x1000_0000_0000_0000real,
    ;
    assert(o * d - f == u * d + w * v) by (nonlinear_arith)
        requires
            u == o - w,
            v == d - rest,
            w * rest == f,
    ;
    let (ud, wv) = (u * d, w * v);
    assert(absolute(ud) <= wd / 0x10_0000_0000_0000real + t) by (nonlinear_arith)
        requires
            ud == u * d,
            wd == w * d,
            absolute(u) <= w / 0x10_0000_0000_0000real + t,
            0real < d <= 1real,
            t >= 0real,
    ;
    assert(absolute(wv) <= wd / 0x10_0000_0000_0000real + wt) by (nonlinear_arith)
        requires
            wv == w * v,
            wd == w * d,
            wt == w * t,
            absolute(v) <= d / 0x10_0000_0000_0000real + t,
            w > 0real,
    ;
    let od = o * d;
    assert(f / 2real <= o && o <= 0x1_0000_0000_0000_0000real) by (nonlinear_arith)
        requires
            od == o * d,
            od >= f / 2real,
            od <= 2real * f,
            f > 0real,
            f <= 1real,
            1real / 0x20_0000_0000_0000real <= d <= 1real,
    ;
}

/// A product that is divided again by its second factor is close to its first
/// factor, even before the quotient is rounded.
pub proof fn lemma_quotient_of_product_near(e: real, c: real, signal: real, w: real)
    requires
        grain() <= c,
        absolute(signal - e * c) <= ulp(absolute(e * c)) + tiny(),
        w * c == signal,
    ensures
        absolute(w - e) <= ulp(absolute(e) + speck()),
{
    lemma_scales();
    let t = tiny();
    let ec = e * c;
    assert(absolute(ec) == absolute(e) * c) by (nonlinear_arith)
        requires
            ec == e * c,
            c > 0real,
    ;
    let b = absolute(e) / 0x10_0000_0000_0000real + 1real / 0x1_0000_0000real / 0x10_0000_0000_0000real;
    assert(absolute(w - e) <= b) by (nonlinear_arith)
        requires
            w * c == signal,
            ec == e * c,
            absolute(signal - ec) <= absolute(e) * c / 0x10_0000_0000_0000real + t,
            t <= c / 0x1_0000_0000real / 0x10_0000_0000_0000real,
            c > 0real,
            b == absolute(e) / 0x10_0000_0000_0000real + 1real / 0x1_0000_0000real / 0x10_0000_0000_0000real,
    ;
}

/// The argument of the exponential is close to the logarithm of the odds, with the
/// other sign. All sizes are multiplied by the steepness `k`.
proof fn lemma_way_back(k: real, l: real, u: real, v: real, y: real, w: real, s: real)
    requires
        0real < k <= 1024real,
        absolute(l) <= 503real,
        absolute(u - l) <= ulp(absolute(l)) + 1real / 0x1000_0000_0000_0000real,
        absolute(v - (k + u)) <= ulp(absolute(k + u)) + 1real / 0x1000_0000_0000_0000real,
        absolute(y - v) <= ulp(4real * absolute(v)) + 1real / 0x1000_0000_0000_0000real,
        absolute(w - (y - k)) <= ulp(absolute(y - k)) + 1real / 0x1000_0000_0000_0000real,
        absolute(s + w) <= ulp(absolute(w)) + 1real / 0x1000_0000_0000_0000real,
    ensures
        absolute(s + l) <= 1real / 0x40_0000_0000real,
{
}

/// What a small logarithm is the logarithm of is about one.
proof fn lemma_small_logarithm(ln: spec_fn(real) -> real, z: real)
    requires
        natural_logarithm(ln),
        z > 0real,
        absolute(ln(z)) <= 1real / 0x20_0000_0000real,
    ensures
        absolute(z - 1real) <= 2real / 0x20_0000_0000real,
{
    lemma_logarithm_ascends(ln, z, z);
    assert(lies_below_tangent(ln, z));
    let i = 1real / z;
    assert(i > 0real && z * i == 1real) by (nonlinear_arith)
        requires
            i == 1real / z,
            z > 0real,
    ;
    assert(turns_products_to_sums(ln, z, i));
    assert(lies_below_tangent(ln, i));
    let d = 1real / 0x20_0000_0000real;
    assert(i >= 1real - d);
    assert(z <= 1real + 2real * d) by (nonlinear_arith)
        requires
            z * i == 1real,
            z > 0real,
            i >= 1real - d,
            d == 1real / 0x20_0000_0000real,
    ;
}

/// What rounding a number multiplied by a steepness comes to.
pub proof fn lemma_scaled(k: real, a: real, b: real, slack: real)
    requires
        0real < k <= 1024real,
        0real <= slack <= 1real / 0x1000_0000_0000_0000_0000real,
        absolute(a - b) <= ulp(absolute(b)) + slack,
    ensures
        absolute(k * a - k * b) <= ulp(absolute(k * b)) + 1real / 0x1000_0000_0000_0000real,
{
    let (ka, kb, kd, ks) = (k * a, k * b, k * absolute(b), k * slack);
    assert(absolute(kb) == kd && ks <= 1024real * slack && absolute(ka - kb) <= kd / 0x10_0000_0000_0000real + ks)
        by (nonlinear_arith)
        requires
            ka == k * a,
            kb == k * b,
            kd == k * absolute(b),
            ks == k * slack,
            0real < k <= 1024real,
            slack >= 0real,
            absolute(a - b) <= absolute(b) / 0x10_0000_0000_0000real + slack,
    ;
}

/// A logarithm over a steepness does not overflow.
pub proof fn lemma_steepness_divides(k: real, l: real, w: real)
    requires
        grain() <= k,
        absolute(l) <= 503real,
        w * k == l,
    ensures
        absolute(w) <= 503real * (pow2(500) as real),
{
    lemma_scales();
    let p = pow2(500) as real;
    let g = grain();
    let b = absolute(w);
    assert(b * g <= 503real) by (nonlinear_arith)
        requires
            b == absolute(w),
            w * k == l,
            absolute(l) <= 503real,
            0real < g <= k,
    ;
    assert(b <= 503real * p) by (nonlinear_arith)
        requires
            b * g <= 503real,
            g * p == 1real,
            p >= 1real,
            b >= 0real,
    ;
}

/// The exceedance of odds, and what the logarithm and the quotient on the way are.
pub proof fn lemma_exceedance_near(k: real, l: real, w: real, q: real, e: real)
    requires
        grain() <= k <= 1024real,
        absolute(l) <= 503real,
        w * k == l,
        absolute(q - w) <= ulp(absolute(w)) + tiny(),
        absolute(e - (1real + q)) <= ulp(absolute(1real + q)) + tiny(),
    ensures
        absolute(k * q - l) <= ulp(absolute(l)) + 1real / 0x1000_0000_0000_0000real,
        absolute(k * e - (k + k * q)) <= ulp(absolute(k + k * q)) + 1real / 0x1000_0000_0000_0000real,
        absolute(q) <= 504real * (pow2(500) as real),
        absolute(e) <= 506real * (pow2(500) as real),
{
    lemma_scales();
    lemma_steepness_divides(k, l, w);
    lemma_scaled(k, q, w, tiny());
    assert(k * w == l) by (nonlinear_arith)
        requires
            w * k == l,
    ;
    lemma_scaled(k, e, 1real + q, tiny());
    assert(k * (1real + q) == k + k * q) by (nonlinear_arith);
}

/// The argument of the exponential is close to the logarithm of the odds, with the
/// other sign.
pub proof fn lemma_argument_near(k: real, l: real, q: real, e: real, x: real, past: real, s: real)
    requires
        grain() <= k <= 1024real,
        absolute(l) <= 503real,
        absolute(k * q - l) <= ulp(absolute(l)) + 1real / 0x1000_0000_0000_0000real,
        absolute(k * e - (k + k * q)) <= ulp(absolute(k + k * q)) + 1real / 0x1000_0000_0000_0000real,
        absolute(x - e) <= ulp(4real * absolute(e) + 2real * speck()),
        absolute(past - (x - 1real)) <= ulp(absolute(x - 1real)) + tiny(),
        absolute(s - (-k) * past) <= ulp(absolute((-k) * past)) + tiny(),
    ensures
        absolute(s + l) <= 1real / 0x40_0000_0000real,
{
    lemma_scales();
    let (u, v, y, w) = (k * q, k * e, k * x, k * past);
    assert(absolute(y - v) <= 4real * absolute(v) / 0x10_0000_0000_0000real + 1024real * (2real / 0x1_0000_0000real
        / 0x10_0000_0000_0000real)) by (nonlinear_arith)
        requires
            y == k * x,
            v == k * e,
            0real < k <= 1024real,
            absolute(x - e) <= (4real * absolute(e) + 2real / 0x1_0000_0000real) / 0x10_0000_0000_0000real,
    ;
    lemma_scaled(k, past, x - 1real, tiny());
    assert(k * (x - 1real) == y - k) by (nonlinear_arith)
        requires
            y == k * x,
    ;
    assert((-k) * past == -w) by (nonlinear_arith)
        requires
            w == k * past,
    ;
    lemma_way_back(k, l, u, v, y, w, s);
}

/// The odds times the growth are about one.
pub proof fn lemma_growth_near(ln: spec_fn(real) -> real, o: real, l: real, s: real, g: real)
    requires
        natural_logarithm(ln),
        o > 0real,
        g > 0real,
        absolute(l - ln(o)) <= 1real / 0x100_0000_0000real,
        absolute(s + l) <= 1real / 0x40_0000_0000real,
        absolute(ln(g) - s) <= 1real / 0x1000_0000_0000real,
    ensures
        absolute(g * o - 1real) <= 2real / 0x20_0000_0000real,
{
    assert(turns_products_to_sums(ln, g, o));
    let z = g * o;
    assert(z > 0real) by (nonlinear_arith)
        requires
            z == g * o,
            g > 0real,
            o > 0real,
    ;
    lemma_small_logarithm(ln, z);
}

/// The factor that a growth leads to is the one that its odds came from.
pub proof fn lemma_factor_near(f: real, o: real, g: real, d: real, i: real, r: real)
    requires
        grain() <= f <= 1real,
        absolute(o * (1real - f) - f) <= ulp(4real * f),
        f / 2real <= o,
        g > 0real,
        absolute(g * o - 1real) <= 2real / 0x20_0000_0000real,
        absolute(d - (1real + g)) <= ulp(absolute(1real + g)) + tiny(),
        i * d == 1real,
        absolute(r - i) <= ulp(absolute(i)) + tiny(),
    ensures
        absolute(r - f) <= speck() / 2real,
{
    lemma_scales();
    let h = 1real + g;
    let (z, m, n) = (g * o, o * (1real - f), f * h - 1real);
    let (fz, no) = (f * z, n * o);
    assert(no == fz - m) by (nonlinear_arith)
        requires
            no == n * o,
            fz == f * z,
            z == g * o,
            m == o * (1real - f),
            n == f * h - 1real,
            h == 1real + g,
    ;
    assert(absolute(fz - f) <= f * (2real / 0x20_0000_0000real)) by (nonlinear_arith)
        requires
            fz == f * z,
            absolute(z - 1real) <= 2real / 0x20_0000_0000real,
            f > 0real,
    ;
    assert(absolute(no) <= f * (3real / 0x20_0000_0000real));
    let c = 6real / 0x20_0000_0000real;
    assert(absolute(n) <= c) by (nonlinear_arith)
        requires
            no == n * o,
            absolute(no) <= f * (3real / 0x20_0000_0000real),
            o >= f / 2real,
            f > 0real,
            c == 6real / 0x20_0000_0000real,
    ;
    let j = 1real / h;
    assert(j * h == 1real) by (nonlinear_arith)
        requires
            j == 1real / h,
            h >= 1real,
    ;
    assert(absolute(f - j) <= c) by (nonlinear_arith)
        requires
            j * h == 1real,
            n == f * h - 1real,
            absolute(n) <= c,
            h >= 1real,
    ;
    assert(d >= h / 2real);
    assert(0real < i <= 2real && i * h <= 2real) by (nonlinear_arith)
        requires
            i * d == 1real,
            d >= h / 2real,
            h >= 1real,
    ;
    let k = 4real / 0x10_0000_0000_0000real;
    assert(absolute(i - j) <= k) by (nonlinear_arith)
        requires
            i * d == 1real,
            j * h == 1real,
            0real < i,
            i * h <= 2real,
            h >= 1real,
            absolute(h - d) <= 2real * h / 0x10_0000_0000_0000real,
            k == 4real / 0x10_0000_0000_0000real,
    ;
}

} // verus!
