//! Arithmetic on [`Binary64`] values, as a parameter of the library.
//!
//! Rounding, powers and exponentials are not computed here. Whatever needs them
//! takes an [`Arithmetic`] and states its result through the relations below:
//! each of them holds of the results that the operation may give. Nothing is
//! supposed of an operation, not even that it gives one result for one input;
//! where that matters, [`deterministic`] says so.

use vstd::arithmetic::power2::pow2;
use vstd::prelude::*;

use crate::binary64::{absolute, half, one, two, zero, Binary64};

verus! {

/// The operations on double-precision values that the library makes use of.
pub trait Arithmetic: Sized {
    /// `a + b`.
    fn plus(a: Binary64, b: Binary64) -> Binary64;

    /// `a - b`.
    fn minus(a: Binary64, b: Binary64) -> Binary64;

    /// `a * b`.
    fn times(a: Binary64, b: Binary64) -> Binary64;

    /// `a / b`.
    fn over(a: Binary64, b: Binary64) -> Binary64;

    /// `a` to the power of `b`.
    fn power(a: Binary64, b: Binary64) -> Binary64;

    /// The exponential of `a`.
    fn exponential(a: Binary64) -> Binary64;

    /// The natural logarithm of `a`.
    fn logarithm(a: Binary64) -> Binary64;

    /// The square root of `a`.
    fn root(a: Binary64) -> Binary64;

    /// The value nearest to a count.
    fn of_count(n: u64) -> Binary64;

    /// The least integer that is not below a value.
    fn ceiling(a: Binary64) -> Binary64;

    /// The integer nearest to a value, halves away from zero.
    fn nearest(a: Binary64) -> Binary64;

    /// The value of a decimal numeral, where `text` is one.
    fn parse(text: &[char]) -> Option<Binary64>;

    /// The shortest numeral of a value.
    fn show(a: Binary64) -> String;

    /// The numeral of a value with a given number of decimals.
    fn show_rounded(a: Binary64, decimals: usize) -> String;
}

/// `r` is a result of `a + b`.
pub open spec fn sums<A: Arithmetic>(a: Binary64, b: Binary64, r: Binary64) -> bool {
    call_ensures(A::plus, (a, b), r)
}

/// `r` is a result of `a - b`.
pub open spec fn differs<A: Arithmetic>(a: Binary64, b: Binary64, r: Binary64) -> bool {
    call_ensures(A::minus, (a, b), r)
}

/// `r` is a result of `a * b`.
pub open spec fn multiplies<A: Arithmetic>(a: Binary64, b: Binary64, r: Binary64) -> bool {
    call_ensures(A::times, (a, b), r)
}

/// `r` is a result of `a / b`.
pub open spec fn divides<A: Arithmetic>(a: Binary64, b: Binary64, r: Binary64) -> bool {
    call_ensures(A::over, (a, b), r)
}

/// `r` is a result of raising `a` to the power of `b`.
pub open spec fn raises<A: Arithmetic>(a: Binary64, b: Binary64, r: Binary64) -> bool {
    call_ensures(A::power, (a, b), r)
}

/// `r` is a result of the exponential of `a`.
pub open spec fn exponentiates<A: Arithmetic>(a: Binary64, r: Binary64) -> bool {
    call_ensures(A::exponential, (a,), r)
}

/// `r` is a result of the natural logarithm of `a`.
pub open spec fn logs<A: Arithmetic>(a: Binary64, r: Binary64) -> bool {
    call_ensures(A::logarithm, (a,), r)
}

/// `r` is a result of the square root of `a`.
pub open spec fn roots<A: Arithmetic>(a: Binary64, r: Binary64) -> bool {
    call_ensures(A::root, (a,), r)
}

/// `r` is a value of the count `n`.
pub open spec fn counts<A: Arithmetic>(n: int, r: Binary64) -> bool {
    0 <= n <= u64::MAX && call_ensures(A::of_count, (n as u64,), r)
}

/// `r` is a result of rounding `a` up.
pub open spec fn rounds_up<A: Arithmetic>(a: Binary64, r: Binary64) -> bool {
    call_ensures(A::ceiling, (a,), r)
}

/// `r` is a result of rounding `a` to the nearest integer.
pub open spec fn rounds<A: Arithmetic>(a: Binary64, r: Binary64) -> bool {
    call_ensures(A::nearest, (a,), r)
}

/// `r` is a result of reading `text` as a numeral.
pub open spec fn reads<A: Arithmetic>(text: Seq<char>, r: Option<Binary64>) -> bool {
    exists|s: &[char]| s@ == text && #[trigger] call_ensures(A::parse, (s,), r)
}

/// `text` is a numeral of `a`.
pub open spec fn shows<A: Arithmetic>(a: Binary64, text: Seq<char>) -> bool {
    exists|s: String| s@ == text && #[trigger] call_ensures(A::show, (a,), s)
}

/// `text` is a numeral of `a` with `decimals` decimals.
pub open spec fn shows_rounded<A: Arithmetic>(a: Binary64, decimals: usize, text: Seq<char>) -> bool {
    exists|s: String| s@ == text && #[trigger] call_ensures(A::show_rounded, (a, decimals), s)
}

/// `r` is a result of dividing the counts `n` and `d`.
pub open spec fn ratio_of<A: Arithmetic>(n: int, d: int, r: Binary64) -> bool {
    exists|x: Binary64, y: Binary64| #[trigger]
        counts::<A>(n, x) && #[trigger] counts::<A>(d, y) && divides::<A>(x, y, r)
}

/// The quotient of two counts.
pub fn ratio<A: Arithmetic>(n: u64, d: u64) -> (r: Binary64)
    ensures
        ratio_of::<A>(n as int, d as int, r),
{
    let x = A::of_count(n);
    let y = A::of_count(d);
    assert(counts::<A>(n as int, x));
    assert(counts::<A>(d as int, y));
    A::over(x, y)
}

/// Every operation on values gives one result for one input.
pub open spec fn deterministic<A: Arithmetic>() -> bool {
    &&& forall|a: Binary64, b: Binary64, r: Binary64, s: Binary64|
        #[trigger] sums::<A>(a, b, r) && #[trigger] sums::<A>(a, b, s) ==> r == s
    &&& forall|a: Binary64, b: Binary64, r: Binary64, s: Binary64|
        #[trigger] differs::<A>(a, b, r) && #[trigger] differs::<A>(a, b, s) ==> r == s
    &&& forall|a: Binary64, b: Binary64, r: Binary64, s: Binary64|
        #[trigger] multiplies::<A>(a, b, r) && #[trigger] multiplies::<A>(a, b, s) ==> r == s
    &&& forall|a: Binary64, b: Binary64, r: Binary64, s: Binary64|
        #[trigger] divides::<A>(a, b, r) && #[trigger] divides::<A>(a, b, s) ==> r == s
    &&& forall|a: Binary64, b: Binary64, r: Binary64, s: Binary64|
        #[trigger] raises::<A>(a, b, r) && #[trigger] raises::<A>(a, b, s) ==> r == s
    &&& forall|a: Binary64, r: Binary64, s: Binary64|
        #[trigger] exponentiates::<A>(a, r) && #[trigger] exponentiates::<A>(a, s) ==> r == s
    &&& forall|a: Binary64, r: Binary64, s: Binary64|
        #[trigger] logs::<A>(a, r) && #[trigger] logs::<A>(a, s) ==> r == s
    &&& forall|a: Binary64, r: Binary64, s: Binary64|
        #[trigger] roots::<A>(a, r) && #[trigger] roots::<A>(a, s) ==> r == s
    &&& forall|n: int, r: Binary64, s: Binary64|
        #[trigger] counts::<A>(n, r) && #[trigger] counts::<A>(n, s) ==> r == s
    &&& forall|a: Binary64, r: Binary64, s: Binary64|
        #[trigger] rounds_up::<A>(a, r) && #[trigger] rounds_up::<A>(a, s) ==> r == s
    &&& forall|a: Binary64, r: Binary64, s: Binary64|
        #[trigger] rounds::<A>(a, r) && #[trigger] rounds::<A>(a, s) ==> r == s
}

/// `r` is a result of adding terms to a start, one after the other.
pub open spec fn adds_up<A: Arithmetic>(start: Binary64, terms: Seq<Binary64>, r: Binary64) -> bool
    decreases terms.len(),
{
    if terms.len() == 0 {
        r == start
    } else {
        exists|before: Binary64| #[trigger]
            sums::<A>(before, terms.last(), r) && adds_up::<A>(start, terms.drop_last(), before)
    }
}

/// One more term adds itself to the sum.
pub proof fn lemma_adds_up_push<A: Arithmetic>(
    start: Binary64,
    terms: Seq<Binary64>,
    before: Binary64,
    term: Binary64,
    r: Binary64,
)
    requires
        adds_up::<A>(start, terms, before),
        sums::<A>(before, term, r),
    ensures
        adds_up::<A>(start, terms.push(term), r),
{
    assert(terms.push(term).drop_last() == terms);
    assert(terms.push(term).last() == term);
}

/// A sum is determined by its start and its terms.
pub proof fn lemma_adds_up_unique<A: Arithmetic>(start: Binary64, terms: Seq<Binary64>, r: Binary64, s: Binary64)
    requires
        deterministic::<A>(),
        adds_up::<A>(start, terms, r),
        adds_up::<A>(start, terms, s),
    ensures
        r == s,
    decreases terms.len(),
{
    if terms.len() > 0 {
        let a = choose|a: Binary64| #[trigger]
            sums::<A>(a, terms.last(), r) && adds_up::<A>(start, terms.drop_last(), a);
        let b = choose|b: Binary64| #[trigger]
            sums::<A>(b, terms.last(), s) && adds_up::<A>(start, terms.drop_last(), b);
        lemma_adds_up_unique::<A>(start, terms.drop_last(), a, b);
    }
}

/// `r` is a result of multiplying a start by factors, one after the other.
pub open spec fn multiplies_up<A: Arithmetic>(start: Binary64, factors: Seq<Binary64>, r: Binary64) -> bool
    decreases factors.len(),
{
    if factors.len() == 0 {
        r == start
    } else {
        exists|before: Binary64| #[trigger]
            multiplies::<A>(before, factors.last(), r) && multiplies_up::<A>(start, factors.drop_last(), before)
    }
}

/// The product of a list of values, from one.
pub fn product<A: Arithmetic>(factors: &[Binary64]) -> (r: Binary64)
    ensures
        multiplies_up::<A>(one(), factors@, r),
{
    let mut r: Binary64 = one();
    let mut i: usize = 0;
    assert(factors@.take(0) == Seq::<Binary64>::empty());
    while i < factors.len()
        invariant
            i <= factors@.len(),
            multiplies_up::<A>(one(), factors@.take(i as int), r),
        decreases factors@.len() - i,
    {
        let next: Binary64 = A::times(r, factors[i]);
        proof {
            assert(multiplies::<A>(r, factors@[i as int], next));
            assert(factors@.take(i + 1).drop_last() == factors@.take(i as int));
            assert(factors@.take(i + 1).last() == factors@[i as int]);
        }
        r = next;
        i = i + 1;
    }
    assert(factors@.take(factors@.len() as int) == factors@);
    r
}

/// Rounding keeps what the exact operations satisfy, as far as a hazard rests on
/// it: no operation on numbers that has an exact result gives a NaN, and products
/// and quotients of probabilities stay within their bounds. Arithmetic that rounds
/// every exact result to a neighbouring value of the format is of this kind.
pub open spec fn rounds_properly<A: Arithmetic>() -> bool {
    &&& forall|a: Binary64, r: Binary64| #[trigger] differs::<A>(a, one(), r) && !a.nan() ==> !r.nan()
    &&& forall|a: Binary64, b: Binary64, r: Binary64| #[trigger]
        multiplies::<A>(a, b, r) && a.finite() && a.rank() != 0 && !b.nan() ==> !r.nan()
    &&& forall|a: Binary64, b: Binary64, r: Binary64| #[trigger]
        multiplies::<A>(a, b, r) && a.finite() && b.finite() ==> !r.nan()
    &&& forall|a: Binary64, r: Binary64| #[trigger] exponentiates::<A>(a, r) && !a.nan() ==> zero().at_most(r)
    &&& forall|g: Binary64, r: Binary64| #[trigger] sums::<A>(one(), g, r) && zero().at_most(g) ==> one().at_most(r)
    &&& forall|a: Binary64, b: Binary64, r: Binary64| #[trigger]
        divides::<A>(a, b, r) && a.finite() && b.positive_finite() ==> !r.nan()
    &&& forall|d: Binary64, r: Binary64| #[trigger] divides::<A>(one(), d, r) && one().at_most(d) ==> r.unit()
    &&& forall|a: Binary64, b: Binary64, r: Binary64| #[trigger]
        multiplies::<A>(a, b, r) && a.unit() && b.unit() ==> r.unit() && r.at_most(a) && r.at_most(b)
    &&& forall|a: Binary64, b: Binary64, c: Binary64, r: Binary64, s: Binary64|
        #[trigger] multiplies::<A>(a, c, r) && #[trigger] multiplies::<A>(b, c, s) && a.unit() && b.unit() && c.unit()
            && a.at_most(b) ==> r.at_most(s)
    &&& forall|a: Binary64, r: Binary64| #[trigger] multiplies::<A>(one(), a, r) && !a.nan() ==> r == a
    &&& forall|a: Binary64, b: Binary64, r: Binary64| #[trigger]
        multiplies::<A>(a, b, r) && a.unit() && b.finite() && one().at_most(b) ==> a.at_most(r)
    &&& forall|a: Binary64, r: Binary64| #[trigger] differs::<A>(one(), a, r) && a.unit() ==> r.unit()
}

/// Rounding never carries a result across the exact one of a neighbouring case:
/// what lies on one side of `1 - 1`, `a · 0`, `exp 0`, `1 + 1` and `1 / 2` stays on
/// that side.
pub open spec fn rounds_aside<A: Arithmetic>() -> bool {
    &&& forall|a: Binary64, r: Binary64| #[trigger] differs::<A>(a, one(), r) ==> {
        &&& one().at_most(a) ==> zero().at_most(r)
        &&& a.at_most(one()) ==> r.at_most(zero())
    }
    &&& forall|a: Binary64, b: Binary64, r: Binary64| #[trigger]
        multiplies::<A>(a, b, r) && a.finite() && a.less(zero()) ==> {
            &&& zero().at_most(b) ==> r.at_most(zero())
            &&& b.at_most(zero()) ==> zero().at_most(r)
        }
    &&& forall|a: Binary64, r: Binary64| #[trigger] exponentiates::<A>(a, r) ==> {
        &&& a.at_most(zero()) ==> zero().at_most(r) && r.at_most(one())
        &&& zero().at_most(a) ==> one().at_most(r)
    }
    &&& forall|a: Binary64, r: Binary64| #[trigger] sums::<A>(one(), a, r) ==> {
        &&& zero().at_most(a) && a.at_most(one()) ==> one().at_most(r) && r.at_most(two())
        &&& one().at_most(a) ==> two().at_most(r)
    }
    &&& forall|a: Binary64, r: Binary64| #[trigger] divides::<A>(one(), a, r) ==> {
        &&& one().at_most(a) && a.at_most(two()) ==> half().at_most(r)
        &&& two().at_most(a) ==> r.at_most(half())
    }
}

/// Rounding keeps the order of results: of two operands the larger one never
/// leads to the smaller sum, difference, product or exponential.
pub open spec fn keeps_order<A: Arithmetic>() -> bool {
    &&& forall|a: Binary64, b: Binary64, r: Binary64, s: Binary64| #[trigger]
        differs::<A>(a, one(), r) && #[trigger] differs::<A>(b, one(), s) && a.at_most(b) ==> r.at_most(s)
    &&& forall|a: Binary64, b: Binary64, c: Binary64, r: Binary64, s: Binary64| #[trigger]
        multiplies::<A>(c, a, r) && #[trigger] multiplies::<A>(c, b, s) && c.finite() && c.less(zero()) && a.at_most(b)
            ==> s.at_most(r)
    &&& forall|a: Binary64, b: Binary64, r: Binary64, s: Binary64| #[trigger]
        exponentiates::<A>(a, r) && #[trigger] exponentiates::<A>(b, s) && a.at_most(b) ==> r.at_most(s)
    &&& forall|a: Binary64, b: Binary64, r: Binary64, s: Binary64| #[trigger]
        sums::<A>(one(), a, r) && #[trigger] sums::<A>(one(), b, s) && zero().at_most(a) && a.at_most(b) ==> r.at_most(s)
    &&& forall|a: Binary64, b: Binary64, r: Binary64, s: Binary64| #[trigger]
        divides::<A>(one(), a, r) && #[trigger] divides::<A>(one(), b, s) && one().at_most(a) && a.at_most(b)
            ==> s.at_most(r)
}

/// Whether a value is finite and at most `2^1000` in size, so that sums and
/// differences of such values stay finite.
pub open spec fn moderate(a: Binary64) -> bool {
    a.finite() && absolute(a.number()) <= pow2(1000) as real
}

/// Rounding keeps the order that a line rests on: differences grow with what is
/// diminished, and products, quotients and sums of values not below zero with
/// their first changing operand. A difference of different values is not zero.
pub open spec fn orders_lines<A: Arithmetic>() -> bool {
    &&& forall|a: Binary64, b: Binary64, c: Binary64, r: Binary64, s: Binary64| #[trigger]
        differs::<A>(a, c, r) && #[trigger] differs::<A>(b, c, s) && moderate(a) && moderate(b) && moderate(c)
            && a.at_most(b) ==> r.at_most(s)
    &&& forall|a: Binary64, b: Binary64, r: Binary64| #[trigger]
        differs::<A>(a, b, r) && moderate(a) && moderate(b) ==> {
            &&& r.finite()
            &&& b.at_most(a) ==> zero().at_most(r)
            &&& b.less(a) ==> zero().less(r)
        }
    &&& forall|a: Binary64, b: Binary64, c: Binary64, r: Binary64, s: Binary64| #[trigger]
        multiplies::<A>(c, a, r) && #[trigger] multiplies::<A>(c, b, s) && c.finite() && zero().at_most(c) && b.finite()
            && zero().at_most(a) && a.at_most(b) ==> zero().at_most(r) && r.at_most(s)
    &&& forall|a: Binary64, b: Binary64, c: Binary64, r: Binary64, s: Binary64| #[trigger]
        divides::<A>(a, c, r) && #[trigger] divides::<A>(b, c, s) && c.positive_finite() && zero().at_most(a)
            && a.at_most(b) ==> zero().at_most(r) && r.at_most(s)
    &&& forall|a: Binary64, b: Binary64, c: Binary64, r: Binary64, s: Binary64| #[trigger]
        sums::<A>(c, a, r) && #[trigger] sums::<A>(c, b, s) && c.finite() && zero().at_most(a) && a.at_most(b)
            ==> c.at_most(r) && r.at_most(s)
}

/// What is trivial is exact: the values of no and of one, dividing by one, adding
/// to zero, taking a number from itself, a multiple of zero and the root of zero.
pub open spec fn exact_where_trivial<A: Arithmetic>() -> bool {
    &&& forall|r: Binary64| #[trigger] counts::<A>(0, r) ==> r == zero()
    &&& forall|r: Binary64| #[trigger] counts::<A>(1, r) ==> r == one()
    &&& forall|a: Binary64, r: Binary64| #[trigger] divides::<A>(a, one(), r) && !a.nan() ==> r == a
    &&& forall|a: Binary64, r: Binary64| #[trigger] sums::<A>(zero(), a, r) && !a.nan() ==> r.same_number(a)
    &&& forall|a: Binary64, b: Binary64, r: Binary64| #[trigger]
        differs::<A>(a, b, r) && a.finite() && a.same_number(b) ==> r.same_number(zero())
    &&& forall|a: Binary64, b: Binary64, r: Binary64| #[trigger]
        multiplies::<A>(a, b, r) && a.same_number(zero()) && b.finite() ==> r.same_number(zero())
    &&& forall|a: Binary64, r: Binary64| #[trigger] roots::<A>(a, r) && a.same_number(zero()) ==> r.same_number(zero())
}

/// Results keep to the side of one, one half or zero on which the exact ones lie:
/// quotients of values above zero, what a probability leaves to one, logarithms,
/// and products with a factor from one on.
pub open spec fn keeps_sides<A: Arithmetic>() -> bool {
    &&& forall|a: Binary64, b: Binary64, r: Binary64| #[trigger]
        divides::<A>(a, b, r) && zero().at_most(a) && b.positive_finite() ==> {
            &&& zero().at_most(r)
            &&& b.at_most(a) ==> one().at_most(r)
            &&& a.less(b) ==> r.less(one())
            &&& b.number() <= 2real * a.number() ==> half().at_most(r)
        }
    &&& forall|a: Binary64, b: Binary64, r: Binary64| #[trigger]
        divides::<A>(a, b, r) && a.positive_finite() && b.same_number(zero()) ==> !r.finite()
    &&& forall|a: Binary64, r: Binary64| #[trigger] differs::<A>(one(), a, r) && half().at_most(a) && a.less(one()) ==> {
        &&& zero().less(r)
        &&& r.at_most(half())
    }
    &&& forall|a: Binary64, r: Binary64| #[trigger] logs::<A>(a, r) && one().at_most(a) ==> zero().at_most(r)
    &&& forall|a: Binary64, b: Binary64, r: Binary64| #[trigger]
        multiplies::<A>(a, b, r) && one().at_most(a) && b.positive_finite() ==> b.at_most(r) && (r.finite() ==> a.finite())
}

} // verus!
