//! Double-precision values as bit patterns.
//!
//! The library never computes with floating-point numbers itself: it carries
//! them as [`Binary64`], the 64-bit interchange format of IEEE 754, and decides
//! everything that is a matter of *order* (is it finite, is it within `[0, 1]`,
//! which one is larger) on the pattern alone. What is a matter of *arithmetic*
//! is left to an [`Arithmetic`](crate::arithmetic::Arithmetic).
//!
//! Two models of a pattern are used. [`Binary64::value`] is the number that it
//! denotes, in units of the smallest positive number of the format.
//! [`Binary64::rank`] is its position among all numbers of the format, counted
//! from zero. They order the numbers alike
//! ([`lemma_rank_orders_values`](crate::binary64::lemma_rank_orders_values)).

use vstd::arithmetic::div_mod::*;
use vstd::arithmetic::power2::*;
use vstd::bits::*;
use vstd::prelude::*;

verus! {

/// Weight of the sign bit.
pub const SIGN: u64 = 0x8000_0000_0000_0000;

/// Pattern of positive infinity: the first one that is not finite.
pub const INFINITE: u64 = 0x7FF0_0000_0000_0000;

/// Number of patterns that share one exponent.
pub const FRACTIONS: u64 = 0x0010_0000_0000_0000;

/// A double-precision value, held by its bit pattern.
///
/// `==` on this type compares patterns: it tells `0` from `-0`, and finds a NaN
/// equal to itself. [`Binary64::same`] compares numbers.
#[derive(Debug, Clone, Copy, PartialEq, Eq, Structural)]
pub struct Binary64 {
    pub bits: u64,
}

/// The number `0`.
#[verifier::allow_in_spec]
pub fn zero() -> Binary64
    returns
        (Binary64 { bits: 0 }),
{
    Binary64 { bits: 0 }
}

/// The number `1`.
#[verifier::allow_in_spec]
pub fn one() -> Binary64
    returns
        (Binary64 { bits: 0x3FF0_0000_0000_0000 }),
{
    Binary64 { bits: 0x3FF0_0000_0000_0000 }
}

/// The number `2`.
#[verifier::allow_in_spec]
pub fn two() -> Binary64
    returns
        (Binary64 { bits: 0x4000_0000_0000_0000 }),
{
    Binary64 { bits: 0x4000_0000_0000_0000 }
}

/// The number `4`.
#[verifier::allow_in_spec]
pub fn four() -> Binary64
    returns
        (Binary64 { bits: 0x4010_0000_0000_0000 }),
{
    Binary64 { bits: 0x4010_0000_0000_0000 }
}

/// The number `1/2`.
pub open spec fn half() -> Binary64 {
    Binary64 { bits: 0x3FE0_0000_0000_0000 }
}

/// The number, in units of the smallest positive one, of a pattern without its sign.
pub open spec fn magnitude_value(magnitude: nat) -> nat {
    let exponent = magnitude / (FRACTIONS as nat);
    let fraction = magnitude % (FRACTIONS as nat);
    if exponent == 0 {
        fraction
    } else {
        (fraction + FRACTIONS as nat) * pow2((exponent - 1) as nat)
    }
}

/// The absolute value of a number.
pub open spec fn absolute(x: real) -> real {
    if x < 0real {
        -x
    } else {
        x
    }
}

impl Binary64 {
    /// The pattern without its sign bit.
    pub open spec fn magnitude(self) -> nat {
        if self.bits >= SIGN {
            (self.bits - SIGN) as nat
        } else {
            self.bits as nat
        }
    }

    /// Whether the sign bit is set.
    pub open spec fn negative(self) -> bool {
        self.bits >= SIGN
    }

    /// Whether the pattern is not a number.
    pub open spec fn nan(self) -> bool {
        self.magnitude() > INFINITE
    }

    /// Whether the pattern is a number other than the infinities.
    pub open spec fn finite(self) -> bool {
        self.magnitude() < INFINITE
    }

    /// Position among the numbers of the format, counted from zero; `-0` and `0`
    /// share it.
    pub open spec fn rank(self) -> int {
        if self.negative() {
            -self.magnitude()
        } else {
            self.magnitude() as int
        }
    }

    /// Position in the total order of all patterns, in which `-0` precedes `0`
    /// and the NaNs lie at both ends.
    pub open spec fn total_rank(self) -> int {
        if self.negative() {
            -self.magnitude() - 1
        } else {
            self.magnitude() as int
        }
    }

    /// The number denoted, in units of the smallest positive number of the format.
    pub open spec fn value(self) -> int {
        if self.negative() {
            -magnitude_value(self.magnitude())
        } else {
            magnitude_value(self.magnitude()) as int
        }
    }

    /// The number denoted.
    pub open spec fn number(self) -> real {
        self.value() as real / (pow2(1074) as real)
    }

    /// `self < other`, as numbers.
    pub open spec fn less(self, other: Binary64) -> bool {
        !self.nan() && !other.nan() && self.rank() < other.rank()
    }

    /// `self <= other`, as numbers.
    pub open spec fn at_most(self, other: Binary64) -> bool {
        !self.nan() && !other.nan() && self.rank() <= other.rank()
    }

    /// `self == other`, as numbers.
    pub open spec fn same_number(self, other: Binary64) -> bool {
        !self.nan() && !other.nan() && self.rank() == other.rank()
    }

    /// Whether the value lies within `[0, 1]`.
    pub open spec fn unit(self) -> bool {
        zero().at_most(self) && self.at_most(one())
    }

    /// Whether the value is finite and above zero.
    pub open spec fn positive_finite(self) -> bool {
        self.finite() && zero().less(self)
    }

    /// Whether the value is finite and not below zero.
    pub open spec fn nonnegative_finite(self) -> bool {
        self.finite() && !self.less(zero())
    }

    /// The larger of two values; a NaN gives way to the other one.
    pub open spec fn larger(self, other: Binary64) -> Binary64 {
        if self.nan() {
            other
        } else if self.less(other) {
            other
        } else {
            self
        }
    }

    /// The smaller of two values; a NaN gives way to the other one.
    pub open spec fn smaller(self, other: Binary64) -> Binary64 {
        if self.nan() {
            other
        } else if other.less(self) {
            other
        } else {
            self
        }
    }

    /// The value moved into `[low, high]`; a NaN stays.
    pub open spec fn clamped(self, low: Binary64, high: Binary64) -> Binary64 {
        if self.less(low) {
            low
        } else if high.less(self) {
            high
        } else {
            self
        }
    }

    /// The value with the opposite sign.
    pub open spec fn opposite(self) -> Binary64 {
        if self.negative() {
            Binary64 { bits: (self.bits - SIGN) as u64 }
        } else {
            Binary64 { bits: (self.bits + SIGN) as u64 }
        }
    }

    /// The value without its sign.
    pub open spec fn unsigned(self) -> Binary64 {
        Binary64 { bits: self.magnitude() as u64 }
    }

    /// The integer part of the value, held within the range of `u64`: zero for a
    /// NaN or a negative value, the largest count where the value exceeds it.
    pub open spec fn integer_part(self) -> nat {
        if self.nan() || self.negative() {
            0
        } else if self.value() / pow2(1074) as int > u64::MAX {
            u64::MAX as nat
        } else {
            (self.value() / pow2(1074) as int) as nat
        }
    }

    /// Takes a bit pattern as a value.
    pub fn from_bits(bits: u64) -> (r: Binary64)
        ensures
            r == (Binary64 { bits }),
    {
        Binary64 { bits }
    }

    /// The bit pattern.
    pub fn to_bits(self) -> (r: u64)
        ensures
            r == self.bits,
    {
        self.bits
    }

    fn unsigned_bits(self) -> (r: u64)
        ensures
            r == self.magnitude(),
    {
        if self.bits >= SIGN {
            self.bits - SIGN
        } else {
            self.bits
        }
    }

    /// Whether the value is not a number.
    pub fn is_nan(self) -> (r: bool)
        ensures
            r == self.nan(),
    {
        self.unsigned_bits() > INFINITE
    }

    /// Whether the value is neither infinite nor NaN.
    pub fn is_finite(self) -> (r: bool)
        ensures
            r == self.finite(),
    {
        self.unsigned_bits() < INFINITE
    }

    /// The position of a number among the numbers of the format.
    pub fn position(self) -> (r: i64)
        ensures
            r == self.rank(),
    {
        let m: u64 = self.unsigned_bits();
        if self.bits >= SIGN {
            -(m as i64)
        } else {
            m as i64
        }
    }

    /// The position of a pattern in the total order of all patterns.
    pub fn total_position(self) -> (r: i64)
        ensures
            r == self.total_rank(),
    {
        let m: u64 = self.unsigned_bits();
        if self.bits >= SIGN {
            -(m as i64) - 1
        } else {
            m as i64
        }
    }

    /// Whether `self` is below `other`; false where either is a NaN.
    pub fn below(self, other: Binary64) -> (r: bool)
        ensures
            r == self.less(other),
    {
        !self.is_nan() && !other.is_nan() && self.position() < other.position()
    }

    /// Whether `self` is not above `other`; false where either is a NaN.
    pub fn not_above(self, other: Binary64) -> (r: bool)
        ensures
            r == self.at_most(other),
    {
        !self.is_nan() && !other.is_nan() && self.position() <= other.position()
    }

    /// Whether both denote one number; false where either is a NaN.
    pub fn same(self, other: Binary64) -> (r: bool)
        ensures
            r == self.same_number(other),
    {
        !self.is_nan() && !other.is_nan() && self.position() == other.position()
    }

    /// Whether the value lies within `[0, 1]`.
    pub fn in_unit_interval(self) -> (r: bool)
        ensures
            r == self.unit(),
    {
        zero().not_above(self) && self.not_above(one())
    }

    /// Whether the value is finite and above zero.
    pub fn is_positive_finite(self) -> (r: bool)
        ensures
            r == self.positive_finite(),
    {
        self.is_finite() && zero().below(self)
    }

    /// Whether the value is finite and not below zero.
    pub fn is_nonnegative_finite(self) -> (r: bool)
        ensures
            r == self.nonnegative_finite(),
    {
        self.is_finite() && !self.below(zero())
    }

    /// The larger of two values; a NaN gives way to the other one.
    pub fn max(self, other: Binary64) -> (r: Binary64)
        ensures
            r == self.larger(other),
    {
        if self.is_nan() || self.below(other) {
            other
        } else {
            self
        }
    }

    /// The smaller of two values; a NaN gives way to the other one.
    pub fn min(self, other: Binary64) -> (r: Binary64)
        ensures
            r == self.smaller(other),
    {
        if self.is_nan() || other.below(self) {
            other
        } else {
            self
        }
    }

    /// The value moved into `[low, high]`; a NaN stays.
    pub fn clamp(self, low: Binary64, high: Binary64) -> (r: Binary64)
        ensures
            r == self.clamped(low, high),
    {
        if self.below(low) {
            low
        } else if high.below(self) {
            high
        } else {
            self
        }
    }

    /// The value with the opposite sign.
    pub fn negate(self) -> (r: Binary64)
        ensures
            r == self.opposite(),
    {
        if self.bits >= SIGN {
            Binary64 { bits: self.bits - SIGN }
        } else {
            Binary64 { bits: self.bits + SIGN }
        }
    }

    /// The value without its sign.
    pub fn abs(self) -> (r: Binary64)
        ensures
            r == self.unsigned(),
    {
        Binary64 { bits: self.unsigned_bits() }
    }
}

impl Binary64 {
    /// The integer part of the value, held within the range of `u64`: zero for a
    /// NaN or a negative value, the largest count where the value exceeds it.
    pub fn to_count(self) -> (r: u64)
        ensures
            r == self.integer_part(),
    {
        if self.bits >= SIGN || self.bits > INFINITE {
            return 0;
        }
        let exponent: u64 = self.bits / FRACTIONS;
        let significand: u64 = self.bits % FRACTIONS + FRACTIONS;
        proof {
            lemma_integer_part(self.bits as nat);
        }
        if exponent < 1023 {
            0
        } else if exponent <= 1075 {
            let shift: u64 = 1075 - exponent;
            proof {
                lemma_u64_shr_is_div(significand, shift);
            }
            significand >> shift
        } else if exponent <= 1086 {
            let shift: u64 = exponent - 1075;
            proof {
                lemma2_to64();
                lemma_pow2_pos(shift as nat);
                if shift < 11 {
                    lemma_pow2_strictly_increases(shift as nat, 11);
                }
                assert(significand * pow2(shift as nat) <= u64::MAX) by (nonlinear_arith)
                    requires
                        significand < 0x0020_0000_0000_0000,
                        pow2(shift as nat) <= 2048,
                ;
                lemma_u64_shl_is_mul(significand, shift);
            }
            significand << shift
        } else {
            u64::MAX
        }
    }
}

/// The integer part of the number of an unsigned pattern, by its exponent.
proof fn lemma_integer_part(magnitude: nat)
    ensures
        ({
            let exponent = magnitude / (FRACTIONS as nat);
            let significand = (magnitude % (FRACTIONS as nat) + FRACTIONS as nat) as nat;
            let whole = magnitude_value(magnitude) as int / pow2(1074) as int;
            &&& significand < 0x0020_0000_0000_0000
            &&& exponent < 1023 ==> whole == 0
            &&& 1023 <= exponent <= 1075 ==> whole == significand as int / pow2((1075 - exponent) as nat) as int
            &&& 1075 <= exponent ==> whole == significand * pow2((exponent - 1075) as nat)
            &&& exponent > 1086 ==> whole > u64::MAX
        }),
{
    let exponent = magnitude / (FRACTIONS as nat);
    let m = (magnitude % (FRACTIONS as nat) + FRACTIONS as nat) as nat;
    let one = pow2(1074);
    lemma2_to64();
    lemma2_to64_rest();
    lemma_pow2_pos(1074);
    if exponent == 0 {
        lemma_pow2_strictly_increases(52, 1074);
        assert(0 <= magnitude_value(magnitude) < one);
        lemma_basic_div(magnitude_value(magnitude) as int, one as int);
    } else if exponent <= 1075 {
        let k = (1075 - exponent) as nat;
        let low = pow2((exponent - 1) as nat);
        lemma_pow2_adds((exponent - 1) as nat, k);
        lemma_pow2_pos((exponent - 1) as nat);
        lemma_pow2_pos(k);
        assert((m * low) as int / (low * pow2(k)) as int == m as int / pow2(k) as int) by {
            lemma_div_denominator((m * low) as int, low as int, pow2(k) as int);
            lemma_div_multiples_vanish(m as int, low as int);
            assert(m * low == low * m) by (nonlinear_arith);
        }
        if exponent < 1023 {
            if k > 53 {
                lemma_pow2_strictly_increases(53, k);
            }
            lemma_basic_div(m as int, pow2(k) as int);
        }
        if exponent == 1075 {
            assert(m as int / 1 == m as int);
            assert(m * pow2(0) == m) by (nonlinear_arith)
                requires
                    pow2(0) == 1,
            ;
        }
    } else {
        let k = (exponent - 1075) as nat;
        lemma_pow2_adds(1074, k);
        lemma_pow2_pos(k);
        assert(m * pow2((exponent - 1) as nat) == one * (m * pow2(k))) by (nonlinear_arith)
            requires
                pow2((exponent - 1) as nat) == one * pow2(k),
        ;
        lemma_div_multiples_vanish((m * pow2(k)) as int, one as int);
        if exponent > 1086 {
            if k > 12 {
                lemma_pow2_strictly_increases(12, k);
            }
            assert(m * pow2(k) > u64::MAX) by (nonlinear_arith)
                requires
                    m >= 0x0010_0000_0000_0000,
                    pow2(k) >= 4096,
            ;
        }
    }
}

/// Of two unsigned patterns the larger one denotes the larger number.
proof fn lemma_magnitude_value_increases(a: nat, b: nat)
    requires
        a < b,
    ensures
        magnitude_value(a) < magnitude_value(b),
{
    let f = FRACTIONS as nat;
    let (ea, eb) = (a / f, b / f);
    let (fa, fb) = (a % f, b % f);
    assert(ea <= eb && (ea == eb ==> fa < fb)) by (nonlinear_arith)
        requires
            a < b,
            f == 0x0010_0000_0000_0000,
            ea == a / f,
            eb == b / f,
            fa == a % f,
            fb == b % f,
    ;
    if eb == 0 {
    } else if ea == 0 {
        lemma_pow2_pos((eb - 1) as nat);
        assert((fb + f) * pow2((eb - 1) as nat) >= fb + f) by (nonlinear_arith)
            requires
                pow2((eb - 1) as nat) >= 1,
        ;
    } else if ea == eb {
        lemma_pow2_pos((eb - 1) as nat);
        assert((fa + f) * pow2((eb - 1) as nat) < (fb + f) * pow2((eb - 1) as nat)) by (nonlinear_arith)
            requires
                pow2((eb - 1) as nat) >= 1,
                fa < fb,
        ;
    } else {
        let (pa, pb) = (pow2((ea - 1) as nat), pow2((eb - 1) as nat));
        lemma_pow2_unfold(ea);
        if ea < eb - 1 {
            lemma_pow2_strictly_increases(ea, (eb - 1) as nat);
        }
        lemma_pow2_pos((ea - 1) as nat);
        assert((fa + f) * pa < (fb + f) * pb) by (nonlinear_arith)
            requires
                pb >= 2 * pa,
                pa >= 1,
                fa < f,
        ;
    }
}

/// The rank and the value of a pattern order all numbers alike: comparing two
/// values by rank compares the numbers that they denote.
pub proof fn lemma_rank_orders_values(a: Binary64, b: Binary64)
    ensures
        a.rank() < b.rank() <==> a.value() < b.value(),
        a.rank() == b.rank() <==> a.value() == b.value(),
{
    let (ma, mb) = (a.magnitude(), b.magnitude());
    if ma < mb {
        lemma_magnitude_value_increases(ma, mb);
    }
    if mb < ma {
        lemma_magnitude_value_increases(mb, ma);
    }
    if ma > 0 {
        lemma_magnitude_value_increases(0, ma);
    }
    if mb > 0 {
        lemma_magnitude_value_increases(0, mb);
    }
    assert(magnitude_value(0) == 0);
}

/// The unit interval of ranks is the unit interval of values: a value is within
/// `[0, 1]` exactly when the number that it denotes lies between zero and the
/// number of smallest units in one.
pub proof fn lemma_unit_by_value(a: Binary64)
    requires
        !a.nan(),
    ensures
        a.unit() <==> 0 <= a.value() <= one().value(),
        one().value() == pow2(1074),
{
    lemma_rank_orders_values(zero(), a);
    lemma_rank_orders_values(a, one());
    assert(magnitude_value(0) == 0);
    assert(one().value() == pow2(1074)) by {
        assert(0x3FF0_0000_0000_0000nat / 0x0010_0000_0000_0000nat == 1023);
        assert(0x3FF0_0000_0000_0000nat % 0x0010_0000_0000_0000nat == 0);
        assert(pow2(52) == 0x0010_0000_0000_0000nat) by {
            lemma2_to64_rest();
        }
        lemma_pow2_adds(52, 1022);
    }
}

/// The rank of a pattern orders the numbers that the patterns denote.
pub proof fn lemma_rank_orders_numbers(a: Binary64, b: Binary64)
    ensures
        a.rank() < b.rank() <==> a.number() < b.number(),
        a.rank() == b.rank() <==> a.number() == b.number(),
{
    lemma_rank_orders_values(a, b);
    lemma_pow2_pos(1074);
    let unit = pow2(1074) as real;
    let (x, y) = (a.value() as real, b.value() as real);
    assert(x < y ==> x / unit < y / unit) by (nonlinear_arith)
        requires
            unit > 0real,
    ;
    assert(x > y ==> x / unit > y / unit) by (nonlinear_arith)
        requires
            unit > 0real,
    ;
}

/// The numbers of zero, one half and one.
pub proof fn lemma_small_numbers()
    ensures
        zero().number() == 0real,
        half().number() == 1real / 2real,
        one().number() == 1real,
{
    lemma_unit_by_value(one());
    lemma_pow2_pos(1074);
    lemma_pow2_unfold(1074);
    lemma_pow2_unfold(1073);
    let unit = pow2(1074) as real;
    assert(magnitude_value(0) == 0) by {
        assert(0nat / (FRACTIONS as nat) == 0 && 0nat % (FRACTIONS as nat) == 0);
    }
    assert(0real / unit == 0real) by (nonlinear_arith)
        requires
            unit > 0real,
    ;
    assert(unit / unit == 1real) by (nonlinear_arith)
        requires
            unit > 0real,
    ;
    let h = half().value();
    assert(half().magnitude() == 0x3FE0_0000_0000_0000);
    assert(0x3FE0_0000_0000_0000nat / (FRACTIONS as nat) == 1022);
    assert(0x3FE0_0000_0000_0000nat % (FRACTIONS as nat) == 0);
    assert(h == 0x0010_0000_0000_0000 * pow2(1021));
    lemma2_to64();
    lemma2_to64_rest();
    lemma_pow2_adds(52, 1021);
    assert(h == pow2(1073));
    assert(2 * h == pow2(1074));
    let x = h as real;
    assert(unit == 2real * x);
    assert(x / unit == 1real / 2real) by (nonlinear_arith)
        requires
            unit > 0real,
            unit == 2real * x,
    ;
}

/// The number of a pattern with a given exponent and significand.
pub proof fn lemma_number_of_pattern(a: Binary64, exponent: nat, significand: nat)
    requires
        1 <= exponent <= 1075,
        0x0010_0000_0000_0000 <= significand < 0x0020_0000_0000_0000,
        a.bits == exponent * 0x0010_0000_0000_0000 + (significand - 0x0010_0000_0000_0000),
    ensures
        a.finite(),
        a.number() * (pow2((1075 - exponent) as nat) as real) == significand as real,
{
    let k = (1075 - exponent) as nat;
    let e = (exponent - 1) as nat;
    lemma_pow2_pos(1074);
    lemma_pow2_pos(k);
    lemma_pow2_pos(e);
    lemma_pow2_adds(e, k);
    assert(a.magnitude() == a.bits);
    lemma_fundamental_div_mod_converse(
        a.bits as int,
        0x0010_0000_0000_0000,
        exponent as int,
        significand - 0x0010_0000_0000_0000,
    );
    assert(a.value() == significand * pow2(e));
    let (x, p, q, w) = (significand as real, pow2(e) as real, pow2(k) as real, pow2(1074) as real);
    let v = a.value() as real;
    assert(v == x * p) by {
        let (m, n) = (significand as int, pow2(e) as int);
        assert((m * n) as real == (m as real) * (n as real)) by (nonlinear_arith);
    }
    assert(w == p * q) by {
        let (m, n) = (pow2(e) as int, pow2(k) as int);
        assert((m * n) as real == (m as real) * (n as real)) by (nonlinear_arith);
    }
    let n = a.number();
    assert(n * w == v) by (nonlinear_arith)
        requires
            n == v / w,
            w > 0real,
    ;
    let nq = n * q;
    assert(nq * p == x * p) by (nonlinear_arith)
        requires
            nq == n * q,
            n * w == v,
            w == p * q,
            v == x * p,
    ;
    let z = nq - x;
    assert(z * p == nq * p - x * p) by (nonlinear_arith)
        requires
            z == nq - x,
    ;
    assert(z == 0real) by (nonlinear_arith)
        requires
            z * p == 0real,
            p > 0real,
    ;
}

/// Probabilities are numbers from zero to one.
pub proof fn lemma_unit_number(a: Binary64)
    requires
        a.unit(),
    ensures
        a.finite(),
        0real <= a.number() <= 1real,
{
    lemma_small_numbers();
    lemma_rank_orders_numbers(a, zero());
    lemma_rank_orders_numbers(a, one());
}

/// The integer part of a number that is not below zero is the largest count that
/// is not above it.
pub proof fn lemma_whole_part(a: Binary64)
    requires
        a.finite(),
        0real <= a.number() <= 0x1000_0000_0000_0000real,
    ensures
        a.integer_part() as real <= a.number(),
        a.number() < a.integer_part() as real + 1real,
{
    lemma_pow2_pos(1074);
    lemma_small_numbers();
    lemma_rank_orders_numbers(zero(), a);
    let (p, v) = (pow2(1074) as int, a.value());
    let (u, x) = (p as real, v as real);
    let n = a.number();
    assert(n * u == x) by (nonlinear_arith)
        requires
            n == x / u,
            u > 0real,
    ;
    if a.negative() {
        assert(a.magnitude() == 0);
    } else {
        assert(x <= 0x1000_0000_0000_0000real * u) by (nonlinear_arith)
            requires
                n * u == x,
                n <= 0x1000_0000_0000_0000real,
                u > 0real,
        ;
        assert(v <= 0x1000_0000_0000_0000 * p);
        let q = v / p;
        lemma_fundamental_div_mod(v, p);
        lemma_mod_bound(v, p);
        assert(q <= 0x1000_0000_0000_0000) by (nonlinear_arith)
            requires
                v == p * q + v % p,
                0 <= v % p,
                v <= 0x1000_0000_0000_0000 * p,
                p > 0,
        ;
        assert(0 <= q) by (nonlinear_arith)
            requires
                v == p * q + v % p,
                v % p < p,
                v >= 0,
                p > 0,
        ;
        let w = q as real;
        let pq = p * q;
        assert(pq as real == u * w) by (nonlinear_arith)
            requires
                pq == p * q,
                u == p as real,
                w == q as real,
        ;
        assert(u * w <= x < u * w + u);
        assert(w <= n) by (nonlinear_arith)
            requires
                u * w <= x,
                n * u == x,
                u > 0real,
        ;
        assert(n < w + 1real) by (nonlinear_arith)
            requires
                x < u * w + u,
                n * u == x,
                u > 0real,
        ;
    }
}

/// A value without its sign denotes the size of the number.
pub proof fn lemma_unsigned_number(a: Binary64)
    ensures
        a.unsigned().number() == absolute(a.number()),
        a.finite() ==> a.unsigned().finite(),
        a.nan() == a.unsigned().nan(),
{
    assert(a.unsigned().magnitude() == a.magnitude());
    lemma_pow2_pos(1074);
    let unit = pow2(1074) as real;
    let m = magnitude_value(a.magnitude()) as real;
    assert(0real <= m / unit && (-m) / unit == -(m / unit)) by (nonlinear_arith)
        requires
            unit > 0real,
            m >= 0real,
    ;
}

/// The opposite value denotes the opposite number.
pub proof fn lemma_opposite_number(a: Binary64)
    ensures
        a.opposite().number() == -a.number(),
        a.finite() ==> a.opposite().finite(),
{
    assert(a.opposite().magnitude() == a.magnitude());
    lemma_pow2_pos(1074);
    let unit = pow2(1074) as real;
    let x = a.value() as real;
    assert(a.opposite().value() == -a.value());
    assert((-x) / unit == -(x / unit)) by (nonlinear_arith)
        requires
            unit > 0real,
    ;
}

/// No value lies between one and its `2^-53`th part below it.
pub proof fn lemma_below_one(a: Binary64)
    requires
        a.rank() < one().rank(),
    ensures
        a.number() <= 1real - 1real / 0x20_0000_0000_0000real,
{
    let last = Binary64 { bits: 0x3FEF_FFFF_FFFF_FFFF };
    lemma_rank_orders_numbers(last, a);
    lemma_unit_by_value(one());
    lemma_pow2_pos(1074);
    lemma_pow2_pos(1021);
    assert(last.magnitude() == 0x3FEF_FFFF_FFFF_FFFF);
    assert(0x3FEF_FFFF_FFFF_FFFFnat / (FRACTIONS as nat) == 1022);
    assert(0x3FEF_FFFF_FFFF_FFFFnat % (FRACTIONS as nat) == 0x000F_FFFF_FFFF_FFFF);
    assert(last.value() == 0x001F_FFFF_FFFF_FFFF * pow2(1021));
    lemma2_to64();
    lemma2_to64_rest();
    lemma_pow2_adds(53, 1021);
    let (part, unit) = (pow2(1021) as real, pow2(1074) as real);
    assert(pow2(1074) == 0x0020_0000_0000_0000 * pow2(1021));
    assert(unit == 0x0020_0000_0000_0000real * part);
    let x = last.value() as real;
    assert(x == unit - part);
    assert(x / unit == 1real - 1real / 0x20_0000_0000_0000real) by (nonlinear_arith)
        requires
            part > 0real,
            unit == 0x0020_0000_0000_0000real * part,
            x == unit - part,
    ;
}

} // verus!
