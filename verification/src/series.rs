//! How far rounded sums and products of lists lie from the exact ones.
//!
//! A list of values is added up or multiplied one after the other, and every step
//! rounds. Here the errors of the steps are added up.

use vstd::arithmetic::power2::pow2;
use vstd::prelude::*;

use crate::accuracy::{grain, huge, lemma_scales, rounds_closely, rounds_to, tiny, ulp};
use crate::arithmetic::{adds_up, counts, divides, multiplies, multiplies_up, rounds_properly, sums, Arithmetic};
use crate::binary64::{absolute, lemma_rank_orders_numbers, lemma_small_numbers, lemma_unit_number, one, zero, Binary64};

verus! {

/// Whether all values are finite.
pub open spec fn all_numbers(terms: Seq<Binary64>) -> bool {
    forall|i: int| 0 <= i < terms.len() ==> (#[trigger] terms[i]).finite()
}

/// The exact sum of values.
pub open spec fn total(terms: Seq<Binary64>) -> real
    decreases terms.len(),
{
    if terms.len() == 0 {
        0real
    } else {
        total(terms.drop_last()) + terms.last().number()
    }
}

/// The exact sum of the sizes of values.
pub open spec fn bulk(terms: Seq<Binary64>) -> real
    decreases terms.len(),
{
    if terms.len() == 0 {
        0real
    } else {
        bulk(terms.drop_last()) + absolute(terms.last().number())
    }
}

/// The exact product of numbers.
pub open spec fn product(numbers: Seq<real>) -> real
    decreases numbers.len(),
{
    if numbers.len() == 0 {
        1real
    } else {
        product(numbers.drop_last()) * numbers.last()
    }
}

/// The exact sum of numbers.
pub open spec fn sum(numbers: Seq<real>) -> real
    decreases numbers.len(),
{
    if numbers.len() == 0 {
        0real
    } else {
        sum(numbers.drop_last()) + numbers.last()
    }
}

/// By how much a sum of `n` values of a bulk may be off.
pub open spec fn drift(n: real, bulk: real) -> real {
    n * (ulp(2real * bulk) + 2real * tiny())
}

/// The size of a sum is at most the sum of the sizes.
pub proof fn lemma_total_within_bulk(terms: Seq<Binary64>)
    ensures
        absolute(total(terms)) <= bulk(terms),
        0real <= bulk(terms),
    decreases terms.len(),
{
    if terms.len() > 0 {
        lemma_total_within_bulk(terms.drop_last());
    }
}

/// One more term adds itself.
pub proof fn lemma_total_push(terms: Seq<Binary64>, term: Binary64)
    ensures
        total(terms.push(term)) == total(terms) + term.number(),
        bulk(terms.push(term)) == bulk(terms) + absolute(term.number()),
{
    assert(terms.push(term).drop_last() == terms);
}

/// One step of a drift.
pub proof fn lemma_drift_step(n: real, more: real, old: real, term: real, before: real, r: real, exact: real)
    requires
        0real <= n <= 0x100_0000_0000real,
        more == n + 1real,
        0real <= old,
        absolute(exact) + absolute(term) <= old,
        absolute(before - exact) <= drift(n, old),
    ensures
        absolute(before + term) <= 2real * old + 1real,
        absolute(r - (before + term)) <= ulp(absolute(before + term)) + tiny() ==> absolute(r - (exact + term)) <= drift(
            more,
            old,
        ),
{
    lemma_scales();
    let t = tiny();
    let u = ulp(2real * old);
    let w = u + 2real * t;
    let (nt, nu) = (n * t, n * u);
    assert(n * w == nu + 2real * nt) by (nonlinear_arith)
        requires
            w == u + 2real * t,
            nt == n * t,
            nu == n * u,
    ;
    assert(more * w == n * w + w) by (nonlinear_arith)
        requires
            more == n + 1real,
    ;
    lemma_small_part(n, u);
    lemma_small_part(n, t);
}

/// A drift is a small part of what drifts.
pub proof fn lemma_drift_is_small(n: real, size: real)
    requires
        0real <= n <= 0x100_0000_0000real,
        0real <= size,
    ensures
        0real <= drift(n, size) <= size / 0x400real + 0x200_0000_0000real * tiny(),
{
    lemma_scales();
    let (u, t) = (ulp(2real * size), tiny());
    lemma_small_part(n, u + 2real * t);
}

/// A longer sum drifts further, by one part.
pub proof fn lemma_drift_grows(n: real, size: real)
    ensures
        drift(n + 1real, size) == drift(n, size) + ulp(2real * size) + 2real * tiny(),
{
    let w = ulp(2real * size) + 2real * tiny();
    assert((n + 1real) * w == n * w + w) by (nonlinear_arith);
}

/// Few parts are not much larger than one of them.
proof fn lemma_small_part(n: real, u: real)
    requires
        0real <= n <= 0x100_0000_0000real,
        0real <= u,
    ensures
        0real <= n * u <= 0x100_0000_0000real * u,
{
    assert(0real <= n * u && n * u <= 0x100_0000_0000real * u) by (nonlinear_arith)
        requires
            0real <= n <= 0x100_0000_0000real,
            0real <= u,
    ;
}

/// A sum of a list drifts no further than it may.
pub proof fn lemma_sum_near<A: Arithmetic>(start: Binary64, terms: Seq<Binary64>, r: Binary64, size: real)
    requires
        rounds_closely::<A>(),
        adds_up::<A>(start, terms, r),
        start.finite(),
        all_numbers(terms),
        terms.len() <= 0x100_0000_0000,
        absolute(start.number()) + bulk(terms) <= size,
        2real * size + 1real <= huge(),
    ensures
        r.finite(),
        absolute(r.number() - (start.number() + total(terms))) <= drift(terms.len() as real, size),
    decreases terms.len(),
{
    lemma_scales();
    if terms.len() == 0 {
        let u = ulp(2real * size) + 2real * tiny();
        assert(0real * u == 0real) by (nonlinear_arith);
    } else {
        let before = choose|before: Binary64| #[trigger]
            sums::<A>(before, terms.last(), r) && adds_up::<A>(start, terms.drop_last(), before);
        assert forall|i: int| 0 <= i < terms.drop_last().len() implies (#[trigger] terms.drop_last()[i]).finite() by {
            assert(terms[i].finite());
        }
        assert(terms[terms.len() - 1].finite());
        lemma_total_within_bulk(terms.drop_last());
        lemma_sum_near::<A>(start, terms.drop_last(), before, size);
        let n = (terms.len() - 1) as real;
        let exact = start.number() + total(terms.drop_last());
        let (b, x) = (before.number(), terms.last().number());
        lemma_drift_step(n, n + 1real, size, x, b, r.number(), exact);
        assert(rounds_to(b + x, r));
        assert(terms.len() as real == n + 1real);
    }
}

/// A list of values from zero to one has a bulk that is its sum, and at most as
/// large as the list is long.
pub proof fn lemma_unit_terms(terms: Seq<Binary64>)
    requires
        forall|i: int| 0 <= i < terms.len() ==> (#[trigger] terms[i]).unit(),
    ensures
        all_numbers(terms),
        bulk(terms) == total(terms),
        0real <= total(terms) <= terms.len() as real,
    decreases terms.len(),
{
    assert forall|i: int| 0 <= i < terms.len() implies (#[trigger] terms[i]).finite() by {
        lemma_unit_number(terms[i]);
    }
    if terms.len() > 0 {
        let rest = terms.drop_last();
        assert forall|i: int| 0 <= i < rest.len() implies (#[trigger] rest[i]).unit() by {
            assert(terms[i].unit());
        }
        lemma_unit_terms(rest);
        assert(terms[terms.len() - 1].unit());
        lemma_unit_number(terms.last());
    }
}

/// Products of close probabilities are close.
pub proof fn lemma_products_near(b: real, x: real, p: real, y: real)
    requires
        0real <= b <= 1real,
        0real <= x <= 1real,
        0real <= p <= 1real,
        0real <= y <= 1real,
    ensures
        0real <= b * x <= 1real,
        0real <= p * y <= 1real,
        absolute(b * x - p * y) <= absolute(b - p) + absolute(x - y),
{
    let (w, z) = (b - p, x - y);
    let (u, v) = (w * x, p * z);
    assert(b * x - p * y == u + v) by (nonlinear_arith)
        requires
            u == w * x,
            v == p * z,
            w == b - p,
            z == x - y,
    ;
    lemma_part_of(w, x);
    assert(p * z == z * p) by (nonlinear_arith);
    lemma_part_of(z, p);
    lemma_part_of(b, x);
    lemma_part_of(p, y);
}

/// A part of a number is no larger than it, and has its sign.
pub proof fn lemma_part_of(w: real, x: real)
    requires
        0real <= x <= 1real,
    ensures
        absolute(w * x) <= absolute(w),
        0real <= w ==> 0real <= w * x,
{
    let u = w * x;
    assert(0real <= w ==> 0real <= u && u <= w) by (nonlinear_arith)
        requires
            u == w * x,
            0real <= x <= 1real,
    ;
    assert(w <= 0real ==> w <= u && u <= 0real) by (nonlinear_arith)
        requires
            u == w * x,
            0real <= x <= 1real,
    ;
}

/// A product of a list of probabilities is close to the product of the numbers
/// that they stand for.
pub proof fn lemma_product_near<A: Arithmetic>(factors: Seq<Binary64>, numbers: Seq<real>, slack: real, r: Binary64)
    requires
        rounds_closely::<A>(),
        rounds_properly::<A>(),
        multiplies_up::<A>(one(), factors, r),
        factors.len() == numbers.len(),
        0real <= slack,
        forall|i: int| 0 <= i < factors.len() ==> (#[trigger] factors[i]).unit(),
        forall|i: int| 0 <= i < numbers.len() ==> 0real <= #[trigger] numbers[i] <= 1real,
        forall|i: int| 0 <= i < numbers.len() ==> absolute(factors[i].number() - #[trigger] numbers[i]) <= slack,
    ensures
        r.unit(),
        0real <= product(numbers) <= 1real,
        absolute(r.number() - product(numbers)) <= (factors.len() as real) * (slack + ulp(2real)),
    decreases factors.len(),
{
    lemma_scales();
    lemma_small_numbers();
    let n = factors.len();
    let c = slack + ulp(2real);
    if n == 0 {
        assert((n as real) * c == 0real) by (nonlinear_arith)
            requires
                n as real == 0real,
        ;
    } else {
        let (fs, ys) = (factors.drop_last(), numbers.drop_last());
        let before = choose|before: Binary64| #[trigger]
            multiplies::<A>(before, factors.last(), r) && multiplies_up::<A>(one(), fs, before);
        assert forall|i: int| 0 <= i < fs.len() implies (#[trigger] fs[i]).unit() by {
            assert(factors[i].unit());
        }
        assert forall|i: int| 0 <= i < ys.len() implies 0real <= #[trigger] ys[i] <= 1real && absolute(
            fs[i].number() - ys[i],
        ) <= slack by {
            assert(0real <= numbers[i] <= 1real);
        }
        lemma_product_near::<A>(fs, ys, slack, before);
        assert(factors[n - 1].unit() && 0real <= numbers[n - 1] <= 1real);
        lemma_unit_number(before);
        lemma_unit_number(factors.last());
        let (b, x, p, y) = (before.number(), factors.last().number(), product(ys), numbers.last());
        let m = (n - 1) as real;
        let (bx, py) = (b * x, p * y);
        lemma_products_near(b, x, p, y);
        assert(rounds_to(bx, r));
        assert((n as real) * c == m * c + c) by (nonlinear_arith)
            requires
                n as real == m + 1real,
        ;
    }
}

/// A quotient times its divisor is the dividend.
pub proof fn lemma_quotient_of(s: real, n: real)
    requires
        n > 0real,
    ensures
        (s / n) * n == s,
{
    assert((s / n) * n == s) by (nonlinear_arith)
        requires
            n > 0real,
    ;
}

/// What a multiple of a number is bounded by bounds the number.
pub proof fn lemma_quotient_bound(x: real, n: real, e: real, size: real)
    requires
        n > 0real,
        e * n == x,
        absolute(x) <= n * size,
    ensures
        absolute(e) <= size,
{
    assert(e <= size) by (nonlinear_arith)
        requires
            n > 0real,
            e * n == x,
            x <= n * size,
    ;
    assert(-size <= e) by (nonlinear_arith)
        requires
            n > 0real,
            e * n == x,
            -x <= n * size,
    ;
}

/// The mean of a list is close to the exact mean: what the sum is off by, and one
/// more neighbouring value.
pub proof fn lemma_mean_near<A: Arithmetic>(terms: Seq<Binary64>, sum: Binary64, count: Binary64, mean: Binary64, size: real)
    requires
        rounds_closely::<A>(),
        0 < terms.len() <= 0x100_0000_0000,
        all_numbers(terms),
        sum.finite(),
        bulk(terms) <= (terms.len() as real) * size,
        absolute(sum.number() - total(terms)) <= drift(terms.len() as real, (terms.len() as real) * size),
        0real <= size <= pow2(900) as real,
        counts::<A>(terms.len() as int, count),
        divides::<A>(sum, count, mean),
    ensures
        mean.finite(),
        absolute(mean.number() - total(terms) / (terms.len() as real)) <= ulp((2real * (terms.len() as real) + 2real) * size)
            + 4real * tiny(),
{
    lemma_scales();
    lemma_total_within_bulk(terms);
    vstd::arithmetic::power2::lemma_pow2_strictly_increases(900, 1000);
    let n = terms.len() as real;
    let (x, s, t) = (total(terms), sum.number(), tiny());
    let all = n * size;
    let q = s / n;
    let e = x / n;
    let d = ulp(2real * all) + 2real * t;
    assert(count.number() == n);
    assert(drift(n, all) == n * d);
    lemma_quotient_of(s, n);
    lemma_quotient_of(x, n);
    lemma_quotient_bound(x, n, e, size);
    let (y, z) = (s - x, q - e);
    assert(z * n == y) by (nonlinear_arith)
        requires
            z == q - e,
            y == s - x,
            q * n == s,
            e * n == x,
    ;
    lemma_quotient_bound(y, n, z, d);
    lemma_small_part(n, size);
    lemma_small_part(1real, size);
    assert(all >= size) by (nonlinear_arith)
        requires
            all == n * size,
            1real <= n,
            size >= 0real,
    ;
    assert((2real * n + 2real) * size == 2real * all + 2real * size) by (nonlinear_arith)
        requires
            all == n * size,
    ;
    assert(rounds_to(q, mean));
}

/// Terms that are close to numbers have a sum that is close to theirs.
pub proof fn lemma_terms_near(terms: Seq<Binary64>, numbers: Seq<real>, size: real, slack: real)
    requires
        terms.len() == numbers.len(),
        0real <= slack <= size,
        forall|i: int| 0 <= i < terms.len() ==> absolute((#[trigger] terms[i]).number() - numbers[i]) <= slack,
        forall|i: int| 0 <= i < numbers.len() ==> absolute(#[trigger] numbers[i]) <= size,
    ensures
        absolute(total(terms) - sum(numbers)) <= (terms.len() as real) * slack,
        absolute(sum(numbers)) <= (terms.len() as real) * size,
        bulk(terms) <= (terms.len() as real) * (2real * size),
    decreases terms.len(),
{
    let n = terms.len() as real;
    if terms.len() == 0 {
        assert(n * slack == 0real && n * size == 0real && n * (2real * size) == 0real) by (nonlinear_arith)
            requires
                n == 0real,
        ;
    } else {
        let (ts, xs) = (terms.drop_last(), numbers.drop_last());
        assert forall|i: int| 0 <= i < ts.len() implies absolute((#[trigger] ts[i]).number() - xs[i]) <= slack by {
            assert(absolute(terms[i].number() - numbers[i]) <= slack);
        }
        assert forall|i: int| 0 <= i < xs.len() implies absolute(#[trigger] xs[i]) <= size by {
            assert(absolute(numbers[i]) <= size);
        }
        lemma_terms_near(ts, xs, size, slack);
        let last = terms.len() - 1;
        assert(absolute(terms[last].number() - numbers[last]) <= slack && absolute(numbers[last]) <= size);
        let m = ts.len() as real;
        let two = 2real * size;
        assert(n * slack == m * slack + slack && n * size == m * size + size && n * two == m * two + two)
            by (nonlinear_arith)
            requires
                n == m + 1real,
        ;
    }
}

/// The mean of terms that are close to numbers is close to the mean of the
/// numbers.
pub proof fn lemma_mean_of_terms<A: Arithmetic>(
    terms: Seq<Binary64>,
    numbers: Seq<real>,
    size: real,
    slack: real,
    zero: Binary64,
    sum_of: Binary64,
    count: Binary64,
    mean: Binary64,
)
    requires
        rounds_closely::<A>(),
        0 < terms.len() <= 0x100_0000_0000,
        terms.len() == numbers.len(),
        all_numbers(terms),
        0real <= slack <= size,
        size <= pow2(800) as real,
        forall|i: int| 0 <= i < terms.len() ==> absolute((#[trigger] terms[i]).number() - numbers[i]) <= slack,
        forall|i: int| 0 <= i < numbers.len() ==> absolute(#[trigger] numbers[i]) <= size,
        zero.finite(),
        zero.number() == 0real,
        adds_up::<A>(zero, terms, sum_of),
        counts::<A>(terms.len() as int, count),
        divides::<A>(sum_of, count, mean),
    ensures
        mean.finite(),
        absolute(mean.number() - sum(numbers) / (terms.len() as real)) <= slack + ulp(
            (4real * (terms.len() as real) + 4real) * size,
        ) + 4real * tiny(),
        absolute(sum(numbers) / (terms.len() as real)) <= size,
{
    lemma_scales();
    vstd::arithmetic::power2::lemma_pow2_strictly_increases(800, 900);
    vstd::arithmetic::power2::lemma_pow2_adds(800, 1);
    vstd::arithmetic::power2::lemma_pow2_adds(800, 42);
    vstd::arithmetic::power2::lemma_pow2_strictly_increases(801, 900);
    vstd::arithmetic::power2::lemma_pow2_strictly_increases(842, 1000);
    vstd::arithmetic::power2::lemma2_to64();
    vstd::arithmetic::power2::lemma2_to64_rest();
    let n = terms.len() as real;
    lemma_terms_near(terms, numbers, size, slack);
    let two = 2real * size;
    lemma_small_part(n, two);
    lemma_sum_near::<A>(zero, terms, sum_of, n * two);
    lemma_mean_near::<A>(terms, sum_of, count, mean, two);
    assert((2real * n + 2real) * two == (4real * n + 4real) * size) by (nonlinear_arith)
        requires
            two == 2real * size,
    ;
    let (x, y) = (total(terms), sum(numbers));
    lemma_quotient_of(x, n);
    lemma_quotient_of(y, n);
    let (p, q) = (x / n, y / n);
    let (d, z) = (x - y, p - q);
    assert(z * n == d) by (nonlinear_arith)
        requires
            z == p - q,
            d == x - y,
            p * n == x,
            q * n == y,
    ;
    lemma_quotient_bound(d, n, z, slack);
    lemma_quotient_bound(y, n, q, size);
}

/// Products of numbers that are off by parts are off by parts.
pub proof fn lemma_parts_of_product(a: real, x: real, c: real, b: real, y: real, d: real)
    requires
        0real <= a,
        0real <= b,
        0real <= c,
        0real <= d <= 1real,
        absolute(x - a) <= c * a,
        absolute(y - b) <= d * b,
    ensures
        absolute(x * y - a * b) <= (2real * c + d) * (a * b),
{
    let (w, z) = (x - a, y - b);
    let (wy, az) = (w * y, a * z);
    let ab = a * b;
    assert(x * y - ab == wy + az) by (nonlinear_arith)
        requires
            wy == w * y,
            az == a * z,
            w == x - a,
            z == y - b,
            ab == a * b,
    ;
    let (ca, db) = (c * a, d * b);
    assert(db <= b) by (nonlinear_arith)
        requires
            db == d * b,
            0real <= d <= 1real,
            0real <= b,
    ;
    assert(absolute(y) <= 2real * b);
    let two = 2real * b;
    assert(absolute(wy) <= ca * two) by (nonlinear_arith)
        requires
            wy == w * y,
            absolute(w) <= ca,
            absolute(y) <= two,
    ;
    assert(absolute(az) <= a * db) by (nonlinear_arith)
        requires
            az == a * z,
            0real <= a,
            absolute(z) <= db,
    ;
    assert(ca * two == 2real * c * ab) by (nonlinear_arith)
        requires
            ca == c * a,
            two == 2real * b,
            ab == a * b,
    ;
    assert(a * db == d * ab) by (nonlinear_arith)
        requires
            db == d * b,
            ab == a * b,
    ;
    assert((2real * c + d) * ab == 2real * c * ab + d * ab) by (nonlinear_arith);
}

/// Products of numbers that are not below zero are not below zero, and above zero
/// where the numbers are.
pub proof fn lemma_sign_of_product(a: real, b: real)
    ensures
        0real <= a && 0real <= b ==> 0real <= a * b,
        0real < a && 0real < b ==> 0real < a * b,
{
    assert(0real <= a && 0real <= b ==> 0real <= a * b) by (nonlinear_arith);
    assert(0real < a && 0real < b ==> 0real < a * b) by (nonlinear_arith);
}

/// The size of a product with a number that is not below zero.
pub proof fn lemma_size_of_product(t: real, v: real)
    requires
        0real <= v,
    ensures
        absolute(t) * v == absolute(t * v),
{
    assert((-t) * v == -(t * v)) by (nonlinear_arith);
    lemma_sign_of_product(t, v);
    lemma_sign_of_product(-t, v);
}

/// A product with a number of a bounded size.
pub proof fn lemma_bound_of_product(u: real, v: real, c: real)
    requires
        absolute(v) <= c,
    ensures
        absolute(u * v) <= c * absolute(u),
{
    assert((-u) * v == -(u * v)) by (nonlinear_arith);
    let a = absolute(u);
    assert(a * v <= c * a) by (nonlinear_arith)
        requires
            v <= c,
            a >= 0real,
    ;
    assert(-(c * a) <= a * v) by (nonlinear_arith)
        requires
            -c <= v,
            a >= 0real,
    ;
}

/// Equal multiples are multiples of equal numbers.
pub proof fn lemma_cancel(a: real, b: real, n: real)
    requires
        n > 0real,
        a * n == b * n,
    ensures
        a == b,
{
    assert((a - b) * n == a * n - b * n) by (nonlinear_arith);
    assert(n * 0real == 0real) by (nonlinear_arith);
    lemma_quotient_bound(0real, n, a - b, 0real);
}

/// A number held within `[0, 1]`.
pub open spec fn held(x: real) -> real {
    if x < 0real {
        0real
    } else if x > 1real {
        1real
    } else {
        x
    }
}

/// What rounds to a number and is held within `[0, 1]` is close to the number held
/// there.
pub proof fn lemma_held_near(x: real, r: Binary64)
    requires
        rounds_to(x, r),
    ensures
        r.clamped(zero(), one()).unit(),
        absolute(r.clamped(zero(), one()).number() - held(x)) <= ulp(3real),
{
    lemma_scales();
    lemma_small_numbers();
    lemma_rank_orders_numbers(r, zero());
    lemma_rank_orders_numbers(one(), r);
    lemma_rank_orders_numbers(zero(), r);
    lemma_rank_orders_numbers(r, one());
}

/// A rounded product of numbers that are relatively close to others is relatively
/// close to their product.
pub proof fn lemma_close_product(a: real, x: real, c: real, b: real, y: real, d: real, r: Binary64)
    requires
        0real <= a,
        0real <= b,
        0real <= c <= 1real / 64real,
        0real <= d <= 1real / 64real,
        absolute(x - a) <= c * a,
        absolute(y - b) <= d * b,
        grain() <= a * b,
        rounds_to(x * y, r),
    ensures
        absolute(r.number() - a * b) <= (2real * c + d + 2real / 0x10_0000_0000_0000real) * (a * b),
{
    lemma_scales();
    lemma_parts_of_product(a, x, c, b, y, d);
    let e = a * b;
    let p = 2real * c + d;
    assert(p * e <= e / 16real) by (nonlinear_arith)
        requires
            p <= 1real / 16real,
            0real <= e,
    ;
    let w = 2real / 0x10_0000_0000_0000real;
    assert((p + w) * e == p * e + w * e) by (nonlinear_arith);
    assert(w * e == ulp(2real * e)) by (nonlinear_arith)
        requires
            w == 2real / 0x10_0000_0000_0000real,
    ;
}

} // verus!
