//! How close an arithmetic comes to exact results.
//!
//! The conditions here speak of single operations: a result lies within a
//! neighbouring value of the format from the exact one. What chains of operations
//! make of that is derived.

use vstd::arithmetic::power2::{lemma2_to64, lemma2_to64_rest, lemma_pow2_adds, lemma_pow2_pos, lemma_pow2_strictly_increases, pow2};
use vstd::prelude::*;

use crate::arithmetic::{counts, differs, divides, exponentiates, logs, multiplies, raises, roots, rounds, rounds_up, sums, Arithmetic};
use crate::binary64::{absolute, one, zero, Binary64};

verus! {

/// The `2^-52`th part of a number: no two neighbouring values of the format around
/// it lie further apart, as long as it has all its digits.
pub open spec fn ulp(x: real) -> real {
    x / 0x10_0000_0000_0000real
}

/// The smallest number above zero, `2^-1074`.
pub open spec fn tiny() -> real {
    1real / (pow2(1074) as real)
}

/// A number that is far from overflowing, `2^1010`.
pub open spec fn huge() -> real {
    pow2(1010) as real
}

/// The number `2^-500`.
pub open spec fn grain() -> real {
    1real / (pow2(500) as real)
}

/// The number `2^-1000`.
pub open spec fn dust() -> real {
    1real / (pow2(1000) as real)
}

/// The number `2^-32`.
pub open spec fn speck() -> real {
    1real / 0x1_0000_0000real
}

/// The number `2^-48`, sixteen neighbouring values at one.
pub open spec fn hair() -> real {
    1real / 0x1_0000_0000_0000real
}

/// `r` is within a neighbouring value of `x`.
pub open spec fn rounds_to(x: real, r: Binary64) -> bool {
    r.finite() && absolute(r.number() - x) <= ulp(absolute(x)) + tiny()
}

/// Sums, differences, products and quotients of finite values are within a
/// neighbouring value of the exact ones, as long as these are not huge, and counts
/// up to `2^53` are exact.
pub open spec fn rounds_closely<A: Arithmetic>() -> bool {
    &&& forall|a: Binary64, b: Binary64, r: Binary64| #[trigger]
        sums::<A>(a, b, r) && a.finite() && b.finite() && absolute(a.number() + b.number()) <= huge() ==> rounds_to(
            a.number() + b.number(),
            r,
        )
    &&& forall|a: Binary64, b: Binary64, r: Binary64| #[trigger]
        differs::<A>(a, b, r) && a.finite() && b.finite() && absolute(a.number() - b.number()) <= huge() ==> rounds_to(
            a.number() - b.number(),
            r,
        )
    &&& forall|a: Binary64, b: Binary64, r: Binary64| #[trigger]
        multiplies::<A>(a, b, r) && a.finite() && b.finite() && absolute(a.number() * b.number()) <= huge() ==> rounds_to(
            a.number() * b.number(),
            r,
        )
    &&& forall|a: Binary64, b: Binary64, r: Binary64| #[trigger]
        divides::<A>(a, b, r) && a.finite() && b.finite() && b.number() != 0real && absolute(a.number() / b.number())
            <= huge() ==> rounds_to(a.number() / b.number(), r)
    &&& forall|n: int, r: Binary64| #[trigger]
        counts::<A>(n, r) && n <= 0x20_0000_0000_0000 ==> r.finite() && r.number() == n as real
}

/// Quotients of values not below zero by values above zero are ordered like the
/// exact ones.
pub open spec fn orders_quotients<A: Arithmetic>() -> bool {
    forall|a: Binary64, b: Binary64, c: Binary64, d: Binary64, r: Binary64, s: Binary64|
        #[trigger] divides::<A>(a, b, r) && #[trigger] divides::<A>(c, d, s) && a.finite() && b.finite() && c.finite()
            && d.finite() && a.number() >= 0real && b.number() > 0real && c.number() >= 0real && d.number() > 0real
            && a.number() * d.number() <= c.number() * b.number() ==> r.at_most(s)
}

/// Products of finite factors above zero with values not below zero are ordered
/// like the exact ones, and like the factor where the other operand is one.
pub open spec fn orders_products<A: Arithmetic>() -> bool {
    &&& forall|a: Binary64, b: Binary64, c: Binary64, d: Binary64, r: Binary64, s: Binary64| #[trigger]
        multiplies::<A>(a, b, r) && #[trigger] multiplies::<A>(c, d, s) && a.positive_finite() && c.positive_finite()
            && a.at_most(c) && zero().at_most(b) && b.at_most(d) ==> zero().at_most(r) && r.at_most(s)
    &&& forall|a: Binary64, c: Binary64, r: Binary64| #[trigger]
        multiplies::<A>(c, a, r) && c.positive_finite() && zero().at_most(a) ==> {
            &&& one().at_most(a) ==> c.at_most(r)
            &&& a.at_most(one()) ==> r.at_most(c)
        }
}

/// Sums of values not below zero are ordered like the exact ones.
pub open spec fn orders_sums<A: Arithmetic>() -> bool {
    forall|a: Binary64, b: Binary64, c: Binary64, d: Binary64, r: Binary64, s: Binary64| #[trigger]
        sums::<A>(a, b, r) && #[trigger] sums::<A>(c, d, s) && zero().at_most(a) && a.at_most(c) && zero().at_most(b)
            && b.at_most(d) ==> zero().at_most(r) && r.at_most(s)
}

/// What is neutral changes nothing: adding or taking away zero, and multiplying
/// by one. A finite value above zero goes into itself once.
pub open spec fn leaves_neutral<A: Arithmetic>() -> bool {
    &&& forall|a: Binary64, b: Binary64, r: Binary64| #[trigger]
        sums::<A>(a, b, r) && !a.nan() && b.same_number(zero()) ==> r.same_number(a)
    &&& forall|a: Binary64, b: Binary64, r: Binary64| #[trigger]
        differs::<A>(a, b, r) && !a.nan() && b.same_number(zero()) ==> r.same_number(a)
    &&& forall|a: Binary64, r: Binary64| #[trigger] multiplies::<A>(a, one(), r) && !a.nan() ==> r == a
    &&& forall|a: Binary64, r: Binary64| #[trigger] divides::<A>(a, a, r) && a.positive_finite() ==> r == one()
}

/// Whether a number is the whole number `k`.
pub open spec fn is_whole(x: real, k: int) -> bool {
    x == k as real
}

/// Rounding a finite value up gives the least whole number that is not below it.
pub open spec fn rounds_up_exactly<A: Arithmetic>() -> bool {
    forall|a: Binary64, r: Binary64| #[trigger]
        rounds_up::<A>(a, r) && a.finite() ==> r.finite() && a.number() <= r.number() < a.number() + 1real && exists|k: int|
            #[trigger] is_whole(r.number(), k)
}

/// Rounding a finite value gives a whole number at most a half away.
pub open spec fn rounds_to_whole<A: Arithmetic>() -> bool {
    forall|a: Binary64, r: Binary64| #[trigger]
        rounds::<A>(a, r) && a.finite() ==> r.finite() && absolute(r.number() - a.number()) <= 1real / 2real && exists|k: int|
            #[trigger] is_whole(r.number(), k)
}

/// Roots of finite values not below zero are not below zero, and their squares are
/// within two neighbouring values of the values.
pub open spec fn root_is_accurate<A: Arithmetic>() -> bool {
    forall|a: Binary64, r: Binary64| #[trigger]
        roots::<A>(a, r) && a.finite() && a.number() >= 0real ==> r.finite() && r.number() >= 0real && absolute(
            r.number() * r.number() - a.number(),
        ) <= ulp(2real * a.number())
}

/// Powers of values above zero are ordered like the exact ones: with an exponent
/// that is not above zero they fall with the base, from above one to below one.
pub open spec fn orders_powers<A: Arithmetic>() -> bool {
    &&& forall|a: Binary64, b: Binary64, e: Binary64, r: Binary64, s: Binary64| #[trigger]
        raises::<A>(a, e, r) && #[trigger] raises::<A>(b, e, s) && a.positive_finite() && b.finite() && a.at_most(b)
            && e.finite() && e.at_most(zero()) ==> zero().at_most(s) && s.at_most(r)
    &&& forall|a: Binary64, e: Binary64, r: Binary64| #[trigger]
        raises::<A>(a, e, r) && a.positive_finite() && e.finite() && e.at_most(zero()) ==> {
            &&& zero().at_most(r)
            &&& a.at_most(one()) ==> one().at_most(r)
            &&& one().at_most(a) ==> r.at_most(one())
        }
}

/// Powers of finite values above zero lie above zero, and their logarithms are
/// within `2^-44` of the exponents times the logarithms of the bases, where these
/// products lie between `-512` and `512`.
pub open spec fn power_is_accurate<A: Arithmetic>(ln: spec_fn(real) -> real) -> bool {
    forall|a: Binary64, e: Binary64, r: Binary64| #[trigger]
        raises::<A>(a, e, r) && a.positive_finite() && e.finite() && absolute(e.number() * ln(a.number())) <= 512real
            ==> r.finite() && r.number() > 0real && absolute(ln(r.number()) - e.number() * ln(a.number())) <= 1real
            / 0x1000_0000_0000real
}

/// The logarithm of a product is the sum of the logarithms.
pub open spec fn turns_products_to_sums(ln: spec_fn(real) -> real, x: real, y: real) -> bool {
    x > 0real && y > 0real ==> ln(x * y) == ln(x) + ln(y)
}

/// The logarithm lies below its tangent at one.
pub open spec fn lies_below_tangent(ln: spec_fn(real) -> real, x: real) -> bool {
    x > 0real ==> ln(x) <= x - 1real
}

/// Whether a function is the natural logarithm: no other one has these two
/// properties.
pub open spec fn natural_logarithm(ln: spec_fn(real) -> real) -> bool {
    &&& forall|x: real, y: real| #[trigger] turns_products_to_sums(ln, x, y)
    &&& forall|x: real| #[trigger] lies_below_tangent(ln, x)
}

/// Logarithms of values from `2^-502` to `2^64` are within `2^-40` of the exact
/// ones.
pub open spec fn logarithm_is_accurate<A: Arithmetic>(ln: spec_fn(real) -> real) -> bool {
    forall|a: Binary64, r: Binary64| #[trigger]
        logs::<A>(a, r) && a.finite() && grain() / 4real <= a.number() <= 0x1_0000_0000_0000_0000real ==> r.finite()
            && absolute(r.number() - ln(a.number())) <= 1real / 0x100_0000_0000real
}

/// Exponentials of values from `-512` to `512` lie above zero, and their
/// logarithms are within `2^-44` of the values.
pub open spec fn exponential_is_accurate<A: Arithmetic>(ln: spec_fn(real) -> real) -> bool {
    forall|a: Binary64, r: Binary64| #[trigger]
        exponentiates::<A>(a, r) && a.finite() && absolute(a.number()) <= 512real ==> r.finite() && r.number() > 0real
            && absolute(ln(r.number()) - a.number()) <= 1real / 0x1000_0000_0000real
}

/// How the constants compare.
pub proof fn lemma_scales()
    ensures
        0real < tiny() <= ulp(grain()) / 0x1_0000_0000real,
        0real < grain() <= speck(),
        0real < dust(),
        tiny() <= ulp(dust()) / 0x40_0000real,
        grain() * (pow2(500) as real) == 1real,
        pow2(500) as real >= 0x1_0000_0000_0000_0000_0000_0000real,
        huge() >= 1024real * ((pow2(500) as real) * (pow2(500) as real)),
        huge() >= 1024real * (pow2(1000) as real),
        huge() >= 0x1_0000_0000real * (pow2(500) as real),
        tiny() <= ulp(speck()),
        pow2(1000) as real >= 4096real,
{
    lemma2_to64();
    lemma2_to64_rest();
    lemma_pow2_pos(1074);
    lemma_pow2_pos(500);
    lemma_pow2_pos(1000);
    lemma_pow2_adds(500, 500);
    lemma_pow2_adds(10, 1000);
    lemma_pow2_adds(500, 574);
    lemma_pow2_adds(52, 32);
    lemma_pow2_strictly_increases(84, 574);
    lemma_pow2_strictly_increases(32, 500);
    let (p, q) = (pow2(500) as real, pow2(574) as real);
    lemma_pow2_adds(64, 32);
    lemma_pow2_strictly_increases(96, 500);
    assert(pow2(96) == 0x1_0000_0000_0000_0000 * 0x1_0000_0000);
    assert(p >= 0x1_0000_0000_0000_0000_0000_0000real);
    assert(pow2(84) == 0x10_0000_0000_0000 * 0x1_0000_0000);
    assert(q >= 0x10_0000_0000_0000real * 0x1_0000_0000real);
    assert(pow2(1074) == pow2(500) * pow2(574));
    assert(pow2(1074) as real == p * q) by {
        let (m, n) = (pow2(500) as int, pow2(574) as int);
        assert((m * n) as real == (m as real) * (n as real)) by (nonlinear_arith);
    }
    let whole = pow2(1074) as real;
    let g = 1real / p;
    assert(1real / whole <= g / 0x10_0000_0000_0000real / 0x1_0000_0000real) by (nonlinear_arith)
        requires
            g == 1real / p,
            whole == p * q,
            p >= 0x1_0000_0000real,
            q >= 0x10_0000_0000_0000real * 0x1_0000_0000real,
    ;
    assert(0real < 1real / whole) by (nonlinear_arith)
        requires
            whole == p * q,
            p >= 0x1_0000_0000real,
            q >= 1real,
    ;
    assert(0real < 1real / p && 1real / p <= 1real / 0x1_0000_0000real && (1real / p) * p == 1real) by (nonlinear_arith)
        requires
            p >= 0x1_0000_0000real,
    ;
    assert(pow2(1000) as real == p * p) by {
        let m = pow2(500) as int;
        assert((m * m) as real == (m as real) * (m as real)) by (nonlinear_arith);
    }
    lemma_pow2_adds(1000, 74);
    lemma_pow2_adds(52, 22);
    let (u, v) = (pow2(1000) as real, pow2(74) as real);
    assert(v == 0x10_0000_0000_0000real * 0x40_0000real);
    assert(whole == u * v) by {
        let (m, n) = (pow2(1000) as int, pow2(74) as int);
        assert((m * n) as real == (m as real) * (n as real)) by (nonlinear_arith);
    }
    assert(0real < 1real / u && 1real / whole == 1real / u / 0x10_0000_0000_0000real / 0x40_0000real) by (nonlinear_arith)
        requires
            whole == u * v,
            v == 0x10_0000_0000_0000real * 0x40_0000real,
            u >= 1real,
    ;
    assert(p * p >= 4096real && p * p >= 0x1_0000_0000real * p) by (nonlinear_arith)
        requires
            p >= 0x1_0000_0000real,
    ;
    assert(pow2(1010) == 1024 * pow2(1000));
    assert(huge() == 1024real * (p * p));
}

} // verus!
