//! How far a rounded mean of groups lies from the exact one.
//!
//! The sum of a block is built from products and sums that each round, in the
//! order in which blocks were merged. Here their errors are added up: a block of
//! `l` groups has a mean that is off by no more than [`margin`], which grows with
//! `l` and with the largest score of the block.

use vstd::arithmetic::power2::pow2;
use vstd::prelude::*;

use crate::accuracy::{huge, lemma_scales, rounds_closely, rounds_to, tiny, ulp};
use crate::arithmetic::{adds_up, counts, divides, multiplies, sums, Arithmetic};
use crate::binary64::{absolute, Binary64};
use crate::isotonic::{
    inhabited, isotonic, lemma_cuts_ascend, lemma_size_at_least, lemma_weighted_sum_parts, size, weight,
    weighted_sum, Group,
};

verus! {

/// The exact sum of the scores in the groups `a..b`.
pub open spec fn total(groups: Seq<Group>, a: int, b: int) -> real
    decreases b - a,
{
    if a >= b {
        0real
    } else {
        total(groups, a, b - 1) + (groups[b - 1].n as real) * groups[b - 1].x.number()
    }
}

/// The exact sum of the sizes of the scores in the groups `a..b`.
pub open spec fn bulk(groups: Seq<Group>, a: int, b: int) -> real
    decreases b - a,
{
    if a >= b {
        0real
    } else {
        bulk(groups, a, b - 1) + (groups[b - 1].n as real) * absolute(groups[b - 1].x.number())
    }
}

/// By how much a sum over `l` groups may be off.
pub open spec fn drift(l: real, bulk: real) -> real {
    ulp(2real * (l * bulk)) + (3real * l - 2real) * tiny()
}

/// Sums over neighbouring ranges add up.
proof fn lemma_total_splits(groups: Seq<Group>, a: int, m: int, b: int)
    requires
        a <= m <= b,
    ensures
        total(groups, a, b) == total(groups, a, m) + total(groups, m, b),
        bulk(groups, a, b) == bulk(groups, a, m) + bulk(groups, m, b),
    decreases b - m,
{
    if m < b {
        lemma_total_splits(groups, a, m, b - 1);
    }
}

/// A sum is at most its bulk in size.
proof fn lemma_total_within_bulk(groups: Seq<Group>, a: int, b: int)
    requires
        0 <= a <= b <= groups.len(),
    ensures
        absolute(total(groups, a, b)) <= bulk(groups, a, b),
        0real <= bulk(groups, a, b),
    decreases b - a,
{
    if a < b {
        lemma_total_within_bulk(groups, a, b - 1);
        let (n, x) = (groups[b - 1].n as real, groups[b - 1].x.number());
        assert(absolute(n * x) <= n * absolute(x) && 0real <= n * absolute(x)) by (nonlinear_arith)
            requires
                n >= 0real,
        ;
    }
}

/// The errors of two sums and of adding them stay within the drift of their sum.
proof fn lemma_drift_adds(
    l1: real,
    a1: real,
    x1: real,
    s1: real,
    l2: real,
    a2: real,
    x2: real,
    s2: real,
    r: real,
)
    requires
        1real <= l1 <= 0x100_0000_0000real,
        1real <= l2 <= 0x100_0000_0000real,
        absolute(x1) <= a1,
        absolute(x2) <= a2,
        absolute(s1 - x1) <= drift(l1, a1),
        absolute(s2 - x2) <= drift(l2, a2),
        absolute(r - (s1 + s2)) <= ulp(absolute(s1 + s2)) + tiny(),
    ensures
        absolute(r - (x1 + x2)) <= drift(l1 + l2, a1 + a2),
{
    lemma_scales();
    let t = tiny();
    let (la1, la2, lt1, lt2) = (l1 * a1, l2 * a2, l1 * t, l2 * t);
    assert((l1 + l2) * (a1 + a2) >= la1 + la2 + a1 + a2) by (nonlinear_arith)
        requires
            la1 == l1 * a1,
            la2 == l2 * a2,
            l1 >= 1real,
            l2 >= 1real,
            a1 >= 0real,
            a2 >= 0real,
    ;
    assert(la1 <= 0x100_0000_0000real * a1 && la2 <= 0x100_0000_0000real * a2 && lt1 <= 0x100_0000_0000real * t && lt2
        <= 0x100_0000_0000real * t) by (nonlinear_arith)
        requires
            la1 == l1 * a1,
            la2 == l2 * a2,
            lt1 == l1 * t,
            lt2 == l2 * t,
            l1 <= 0x100_0000_0000real,
            l2 <= 0x100_0000_0000real,
            a1 >= 0real,
            a2 >= 0real,
            t >= 0real,
    ;
    assert((3real * l1 - 2real) * t == 3real * lt1 - 2real * t && (3real * l2 - 2real) * t == 3real * lt2 - 2real * t && (3real
        * (l1 + l2) - 2real) * t == 3real * lt1 + 3real * lt2 - 2real * t) by (nonlinear_arith)
        requires
            lt1 == l1 * t,
            lt2 == l2 * t,
    ;
}

/// Up to here a sum of scores rounds no more often than its margin allows for,
/// `2^40`.
pub open spec fn countable() -> int {
    0x100_0000_0000
}

/// Whether the groups `a..b` can be summed: they are there, their scores are
/// finite, and neither their number nor their bulk is too large.
pub open spec fn bounded(groups: Seq<Group>, a: int, b: int) -> bool {
    &&& 0 <= a < b <= groups.len()
    &&& inhabited(groups)
    &&& forall|g: int| 0 <= g < groups.len() ==> (#[trigger] groups[g]).x.finite()
    &&& size(groups, b) - size(groups, a) <= countable()
    &&& 2real * bulk(groups, a, b) + 2real <= huge()
}

/// Part of what can be summed can be summed.
proof fn lemma_part_is_bounded(groups: Seq<Group>, a: int, b: int, c: int, d: int)
    requires
        bounded(groups, a, b),
        a <= c < d <= b,
    ensures
        bounded(groups, c, d),
        d - c <= countable(),
        bulk(groups, c, d) <= bulk(groups, a, b),
{
    lemma_size_at_least(groups, a, c);
    lemma_size_at_least(groups, c, d);
    lemma_size_at_least(groups, d, b);
    lemma_total_splits(groups, a, c, b);
    lemma_total_splits(groups, c, d, b);
    lemma_total_within_bulk(groups, a, c);
    lemma_total_within_bulk(groups, d, b);
}

/// A sum that drifted no further than it may is not much larger than its bulk.
proof fn lemma_drift_is_small(l: real, a: real, x: real, s: real)
    requires
        1real <= l <= 0x100_0000_0000real,
        absolute(x) <= a,
        absolute(s - x) <= drift(l, a),
    ensures
        absolute(s) <= a + a / 2real + 1real,
{
    lemma_scales();
    let t = tiny();
    let (la, lt) = (l * a, l * t);
    assert(la <= 0x100_0000_0000real * a && lt <= 0x100_0000_0000real * t && (3real * l - 2real) * t == 3real * lt - 2real
        * t) by (nonlinear_arith)
        requires
            la == l * a,
            lt == l * t,
            l <= 0x100_0000_0000real,
            a >= 0real,
            t >= 0real,
    ;
}

/// Whether a sum over the groups `a..b` drifted no further than it may.
pub open spec fn near(groups: Seq<Group>, a: int, b: int, sum: Binary64) -> bool {
    sum.finite() && absolute(sum.number() - total(groups, a, b)) <= drift((b - a) as real, bulk(groups, a, b))
}

/// The sum of a range of groups drifts no further than it may.
pub proof fn lemma_sum_near<A: Arithmetic>(groups: Seq<Group>, a: int, b: int, r: Binary64)
    requires
        rounds_closely::<A>(),
        bounded(groups, a, b),
        weighted_sum::<A>(groups, a, b, r),
    ensures
        near(groups, a, b, r),
    decreases b - a, 1int, 0int,
{
    let (c, p, x) = lemma_weighted_sum_parts::<A>(groups, a, b, r);
    assert(p.take(p.len() as int) == p);
    lemma_parts_near::<A>(groups, a, b, c, p, x, p.len() as int, r);
}

/// The weight of one group is within a neighbouring value of the exact one.
proof fn lemma_weight_near<A: Arithmetic>(groups: Seq<Group>, b: int, r: Binary64)
    requires
        rounds_closely::<A>(),
        bounded(groups, b - 1, b),
        weight::<A>(groups[b - 1], r),
    ensures
        near(groups, b - 1, b, r),
{
    let group = groups[b - 1];
    let count = choose|n: Binary64| #[trigger] counts::<A>(group.n as int, n) && multiplies::<A>(group.x, n, r);
    assert(total(groups, b - 1, b - 1) == 0real && bulk(groups, b - 1, b - 1) == 0real);
    lemma_total_within_bulk(groups, b - 1, b);
    let (n, x) = (group.n as real, group.x.number());
    assert(count.number() == n);
    assert(x * n == n * x && absolute(n * x) <= n * absolute(x)) by (nonlinear_arith)
        requires
            n >= 0real,
    ;
    assert(rounds_to(x * n, r));
    lemma_scales();
    let (k, u) = (bulk(groups, b - 1, b), tiny());
    assert(1real * k == k && (3real * 1real - 2real) * u == u) by (nonlinear_arith);
}

/// Of the sums of blocks that are added to the last weight, the first `i` leave
/// the sum within its drift.
proof fn lemma_parts_near<A: Arithmetic>(
    groups: Seq<Group>,
    a: int,
    b: int,
    cuts: Seq<int>,
    parts: Seq<Binary64>,
    start: Binary64,
    i: int,
    s: Binary64,
)
    requires
        rounds_closely::<A>(),
        bounded(groups, a, b),
        isotonic(groups, a, b - 1, cuts),
        parts.len() == cuts.len() - 1,
        weight::<A>(groups[b - 1], start),
        forall|j: int|
            0 <= j < parts.len() ==> a <= #[trigger] cuts[j] && cuts[j + 1] < b && weighted_sum::<A>(
                groups,
                cuts[j],
                cuts[j + 1],
                parts[parts.len() - 1 - j],
            ),
        0 <= i <= parts.len(),
        adds_up::<A>(start, parts.take(i), s),
    ensures
        near(groups, cuts[parts.len() - i], b, s),
    decreases b - a, 0int, i,
{
    let m = parts.len() as int;
    lemma_cuts_ascend(groups, a, b - 1, cuts, m - i, m);
    if i == 0 {
        lemma_part_is_bounded(groups, a, b, b - 1, b);
        lemma_weight_near::<A>(groups, b, start);
    } else {
        let (c, d) = (cuts[m - i], cuts[m - i + 1]);
        assert(a <= c < d < b) by {
            lemma_cuts_ascend(groups, a, b - 1, cuts, m - i, m - i + 1);
            lemma_cuts_ascend(groups, a, b - 1, cuts, m - i + 1, m);
        }
        let before = choose|before: Binary64| #[trigger]
            sums::<A>(before, parts.take(i).last(), s) && adds_up::<A>(start, parts.take(i).drop_last(), before);
        assert(parts.take(i).drop_last() == parts.take(i - 1));
        assert(parts.take(i).last() == parts[i - 1]);
        lemma_parts_near::<A>(groups, a, b, cuts, parts, start, i - 1, before);
        assert(weighted_sum::<A>(groups, c, d, parts[i - 1])) by {
            assert(a <= cuts[m - i]);
            assert(parts.len() - 1 - (m - i) == i - 1);
        }
        lemma_part_is_bounded(groups, a, b, c, d);
        lemma_part_is_bounded(groups, a, b, c, b);
        lemma_sum_near::<A>(groups, c, d, parts[i - 1]);
        lemma_part_added::<A>(groups, c, d, b, before, parts[i - 1], s);
    }
}

/// Two sums over neighbouring ranges add up to one over both.
proof fn lemma_part_added<A: Arithmetic>(
    groups: Seq<Group>,
    c: int,
    d: int,
    b: int,
    before: Binary64,
    part: Binary64,
    s: Binary64,
)
    requires
        rounds_closely::<A>(),
        bounded(groups, c, b),
        c < d < b,
        near(groups, d, b, before),
        near(groups, c, d, part),
        sums::<A>(before, part, s),
    ensures
        near(groups, c, b, s),
{
    lemma_part_is_bounded(groups, c, b, c, d);
    lemma_part_is_bounded(groups, c, b, d, b);
    lemma_total_splits(groups, c, d, b);
    lemma_total_within_bulk(groups, c, d);
    lemma_total_within_bulk(groups, d, b);
    let (l1, a1, x1, s1) = ((b - d) as real, bulk(groups, d, b), total(groups, d, b), before.number());
    let (l2, a2, x2, s2) = ((d - c) as real, bulk(groups, c, d), total(groups, c, d), part.number());
    lemma_drift_is_small(l1, a1, x1, s1);
    lemma_drift_is_small(l2, a2, x2, s2);
    assert(rounds_to(s1 + s2, s));
    lemma_drift_adds(l1, a1, x1, s1, l2, a2, x2, s2, s.number());
    assert(l1 + l2 == (b - c) as real);
}

/// By how much the mean of `l` groups with scores up to a size may be off.
pub open spec fn margin(l: real, largest: real) -> real {
    ulp((2real * l + 2real) * largest) + 3real * l * tiny()
}

/// The size of the largest score in the groups `a..b`, which stands at one end
/// where the scores ascend.
pub open spec fn largest(groups: Seq<Group>, a: int, b: int) -> real {
    let (x, y) = (absolute(groups[a].x.number()), absolute(groups[b - 1].x.number()));
    if x <= y {
        y
    } else {
        x
    }
}

/// By how much the mean of the groups `a..b` may be off.
pub open spec fn margin_of(groups: Seq<Group>, a: int, b: int) -> real {
    margin((b - a) as real, largest(groups, a, b))
}

/// Sums lie between multiples of the extreme scores.
proof fn lemma_total_between(groups: Seq<Group>, a: int, b: int, low: real, high: real, top: real)
    requires
        0 <= a <= b <= groups.len(),
        forall|g: int| a <= g < b ==> low <= (#[trigger] groups[g]).x.number() <= high,
        forall|g: int| a <= g < b ==> absolute((#[trigger] groups[g]).x.number()) <= top,
    ensures
        ((size(groups, b) - size(groups, a)) as real) * low <= total(groups, a, b),
        total(groups, a, b) <= ((size(groups, b) - size(groups, a)) as real) * high,
        bulk(groups, a, b) <= ((size(groups, b) - size(groups, a)) as real) * top,
    decreases b - a,
{
    if a == b {
        let z = (size(groups, b) - size(groups, a)) as real;
        assert(z == 0real);
        assert(z * low == 0real && z * high == 0real && z * top == 0real) by (nonlinear_arith)
            requires
                z == 0real,
        ;
    } else {
        lemma_total_between(groups, a, b - 1, low, high, top);
        let m = (size(groups, b - 1) - size(groups, a)) as real;
        let n = groups[b - 1].n as real;
        let x = groups[b - 1].x.number();
        assert((size(groups, b) - size(groups, a)) as real == m + n);
        assert(low <= x <= high && absolute(x) <= top);
        let u = absolute(x);
        assert((m + n) * low <= m * low + n * x && m * high + n * x <= (m + n) * high && m * top + n * u <= (m + n) * top)
            by (nonlinear_arith)
            requires
                n >= 0real,
                low <= x <= high,
                u <= top,
        ;
    }
}

/// Samples of scores up to a size have a bulk that can be summed, where no more
/// than `2^999` come of them, and so has the margin of their mean.
pub proof fn lemma_bulk_bounded(groups: Seq<Group>, a: int, b: int, top: real, samples: real)
    requires
        0 <= a < b <= groups.len(),
        inhabited(groups),
        size(groups, b) - size(groups, a) <= countable(),
        (size(groups, b) - size(groups, a)) as real <= samples,
        forall|g: int| a <= g < b ==> absolute((#[trigger] groups[g]).x.number()) <= top,
        2real * (top * samples) <= pow2(1000) as real,
    ensures
        2real * bulk(groups, a, b) + 2real <= huge(),
        top + margin((b - a) as real, top) <= pow2(1000) as real,
{
    lemma_scales();
    lemma_size_at_least(groups, a, b);
    assert forall|g: int| a <= g < b implies -top <= (#[trigger] groups[g]).x.number() <= top by {
        assert(absolute(groups[g].x.number()) <= top);
    }
    assert(absolute(groups[a].x.number()) <= top);
    lemma_total_between(groups, a, b, -top, top, top);
    let n = (size(groups, b) - size(groups, a)) as real;
    let all = top * samples;
    assert(n * top <= all && top <= all) by (nonlinear_arith)
        requires
            all == top * samples,
            1real <= n <= samples,
            top >= 0real,
    ;
    let (l, t) = ((b - a) as real, tiny());
    assert((2real * l + 2real) * top <= 0x400_0000_0000real * top && 3real * l * t <= 0x300_0000_0000real * t)
        by (nonlinear_arith)
        requires
            1real <= l <= 0x100_0000_0000real,
            top >= 0real,
            t >= 0real,
    ;
}

/// What a sum that is off by its drift, divided by the number of samples, can be.
proof fn lemma_quotient_near(n: real, l: real, low: real, high: real, top: real, bulk: real, total: real, sum: real, q: real)
    requires
        1real <= l <= 0x100_0000_0000real,
        n >= 1real,
        -top <= low <= high <= top,
        n * low <= total <= n * high,
        bulk <= n * top,
        0real <= bulk,
        absolute(sum - total) <= drift(l, bulk),
        q * n == sum,
    ensures
        low - ulp(2real * (l * top)) - (3real * l - 2real) * tiny() <= q,
        q <= high + ulp(2real * (l * top)) + (3real * l - 2real) * tiny(),
{
    lemma_scales();
    let t = tiny();
    let (lt, ltop, lbulk) = ((3real * l - 2real) * t, l * top, l * bulk);
    assert(lbulk <= n * ltop) by (nonlinear_arith)
        requires
            lbulk == l * bulk,
            ltop == l * top,
            bulk <= n * top,
            l >= 1real,
    ;
    assert(lt >= 0real) by (nonlinear_arith)
        requires
            lt == (3real * l - 2real) * t,
            l >= 1real,
            t >= 0real,
    ;
    let d = ulp(2real * ltop) + lt;
    assert(drift(l, bulk) <= n * d) by {
        assert(2real * lbulk / 0x10_0000_0000_0000real + lt <= n * d) by (nonlinear_arith)
            requires
                d == 2real * ltop / 0x10_0000_0000_0000real + lt,
                lbulk <= n * ltop,
                n >= 1real,
                lt >= 0real,
        ;
    }
    assert(low - d <= q && q <= high + d) by (nonlinear_arith)
        requires
            q * n == sum,
            n >= 1real,
            n * low - n * d <= sum,
            sum <= n * high + n * d,
    ;
}

/// The last rounding stays within the margin.
proof fn lemma_margin_holds(l: real, low: real, high: real, top: real, q: real, mean: real)
    requires
        1real <= l <= 0x100_0000_0000real,
        -top <= low <= high <= top,
        low - ulp(2real * (l * top)) - (3real * l - 2real) * tiny() <= q,
        q <= high + ulp(2real * (l * top)) + (3real * l - 2real) * tiny(),
        absolute(mean - q) <= ulp(absolute(q)) + tiny(),
    ensures
        low - margin(l, top) <= mean <= high + margin(l, top),
{
    lemma_scales();
    let t = tiny();
    let (lt, ltop) = (l * t, l * top);
    assert(ltop <= 0x100_0000_0000real * top && lt <= 0x100_0000_0000real * t && lt >= t && (3real * l - 2real) * t == 3real
        * lt - 2real * t && 3real * l * t == 3real * lt && (2real * l + 2real) * top == 2real * ltop + 2real * top)
        by (nonlinear_arith)
        requires
            lt == l * t,
            ltop == l * top,
            1real <= l <= 0x100_0000_0000real,
            top >= 0real,
            t >= 0real,
    ;
}

/// The mean score of neighbouring groups lies between their first and their last
/// score, up to the margin.
pub proof fn lemma_mean_near<A: Arithmetic>(
    groups: Seq<Group>,
    a: int,
    b: int,
    sum: Binary64,
    count: Binary64,
    mean: Binary64,
)
    requires
        rounds_closely::<A>(),
        bounded(groups, a, b),
        forall|i: int, j: int|
            0 <= i <= j < groups.len() ==> (#[trigger] groups[i]).x.number() <= (#[trigger] groups[j]).x.number(),
        weighted_sum::<A>(groups, a, b, sum),
        counts::<A>(size(groups, b) - size(groups, a), count),
        divides::<A>(sum, count, mean),
    ensures
        mean.finite(),
        groups[a].x.number() - margin_of(groups, a, b) <= mean.number(),
        mean.number() <= groups[b - 1].x.number() + margin_of(groups, a, b),
{
    lemma_sum_near::<A>(groups, a, b, sum);
    lemma_part_is_bounded(groups, a, b, a, b);
    lemma_size_at_least(groups, a, b);
    let (low, high, top) = (groups[a].x.number(), groups[b - 1].x.number(), largest(groups, a, b));
    lemma_total_between(groups, a, b, low, high, top);
    lemma_total_within_bulk(groups, a, b);
    let n = (size(groups, b) - size(groups, a)) as real;
    let l = (b - a) as real;
    let (x, k, s) = (total(groups, a, b), bulk(groups, a, b), sum.number());
    lemma_drift_is_small(l, k, x, s);
    assert(count.number() == n);
    let q = s / n;
    assert(q * n == s && absolute(q) <= absolute(s)) by (nonlinear_arith)
        requires
            q == s / n,
            n >= 1real,
    ;
    assert(rounds_to(q, mean));
    lemma_quotient_near(n, l, low, high, top, k, x, s, q);
    lemma_margin_holds(l, low, high, top, q, mean.number());
}

} // verus!
