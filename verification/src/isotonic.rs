//! Isotonic regression of binary outcomes on scores.
//!
//! Outcomes with the same score form a group. The fit divides the groups, in
//! ascending order of their scores, into blocks of neighbours, such that the
//! share of positive outcomes does not decrease from block to block, and that no
//! block can be cut into a first part and a rest whose shares would not decrease.
//! There is exactly one such division
//! ([`lemma_blocks_are_unique`](crate::isotonic::lemma_blocks_are_unique)), and
//! pooling adjacent violators finds it.

use vstd::prelude::*;
use vstd::set_lib::set_int_range;

use crate::arithmetic::{adds_up, counts, deterministic, lemma_adds_up_push, lemma_adds_up_unique, multiplies, sums, Arithmetic};
use crate::binary64::Binary64;
use crate::matching::lemma_count_next;
use crate::ranking::{as_numbers, comes_before, lemma_ranks, order_by, ranks};

verus! {

/// Outcomes that share one score: how many there are, and how many are positive.
#[derive(Debug, Clone, Copy)]
pub struct Group {
    pub x: Binary64,
    pub hits: usize,
    pub n: usize,
}

/// The samples at a score.
pub open spec fn samples_at(scores: Seq<Binary64>, rank: int) -> Set<int> {
    set_int_range(0, scores.len() as int).filter(|i: int| scores[i].rank() == rank)
}

/// The samples at a score with a positive outcome.
pub open spec fn hits_at(scores: Seq<Binary64>, outcomes: Seq<bool>, rank: int) -> Set<int> {
    set_int_range(0, scores.len() as int).filter(|i: int| scores[i].rank() == rank && outcomes[i])
}

/// A group counts the samples at its score. Of several patterns of one number it
/// carries the first in the total order.
pub open spec fn counts_samples(scores: Seq<Binary64>, outcomes: Seq<bool>, group: Group) -> bool {
    &&& group.n == samples_at(scores, group.x.rank()).len()
    &&& group.hits == hits_at(scores, outcomes, group.x.rank()).len()
    &&& scores.contains(group.x)
    &&& forall|i: int|
        0 <= i < scores.len() && (#[trigger] scores[i]).rank() == group.x.rank() ==> group.x.total_rank()
            <= scores[i].total_rank()
}

/// A list holds one group for every score that occurs, in ascending order.
pub open spec fn grouped(scores: Seq<Binary64>, outcomes: Seq<bool>, groups: Seq<Group>) -> bool {
    &&& forall|a: int, b: int|
        0 <= a < b < groups.len() ==> (#[trigger] groups[a]).x.rank() < (#[trigger] groups[b]).x.rank()
    &&& forall|g: int| 0 <= g < groups.len() ==> counts_samples(scores, outcomes, #[trigger] groups[g])
    &&& forall|i: int| 0 <= i < scores.len() ==> #[trigger] ranks_of(groups).contains(scores[i].rank())
}

/// The scores of groups, by rank.
pub open spec fn ranks_of(groups: Seq<Group>) -> Seq<int> {
    groups.map_values(|g: Group| g.x.rank())
}

/// The number of samples in the first `k` groups.
pub open spec fn size(groups: Seq<Group>, k: int) -> int
    decreases k,
{
    if k <= 0 {
        0
    } else {
        size(groups, k - 1) + groups[k - 1].n
    }
}

/// The number of positive outcomes in the first `k` groups.
pub open spec fn positives(groups: Seq<Group>, k: int) -> int
    decreases k,
{
    if k <= 0 {
        0
    } else {
        positives(groups, k - 1) + groups[k - 1].hits
    }
}

/// Whether the share of positive outcomes in the groups `a..b` is below the share
/// in the groups `c..d`.
pub open spec fn lower_share(groups: Seq<Group>, a: int, b: int, c: int, d: int) -> bool {
    (positives(groups, b) - positives(groups, a)) * (size(groups, d) - size(groups, c)) < (positives(groups, d)
        - positives(groups, c)) * (size(groups, b) - size(groups, a))
}

/// Whether no first part of the groups `a..b` has a share that is not above the
/// share of all of them.
pub open spec fn indivisible(groups: Seq<Group>, a: int, b: int) -> bool {
    a < b && forall|m: int| a < m < b ==> #[trigger] lower_share(groups, a, b, a, m)
}

/// `cuts` divides the groups `a..b` into indivisible blocks whose shares do not
/// decrease.
pub open spec fn isotonic(groups: Seq<Group>, a: int, b: int, cuts: Seq<int>) -> bool {
    &&& cuts.len() > 0
    &&& cuts[0] == a
    &&& cuts.last() == b
    &&& forall|j: int| 0 <= j < cuts.len() - 1 ==> indivisible(groups, #[trigger] cuts[j], cuts[j + 1])
    &&& forall|j: int|
        0 < j < cuts.len() - 1 ==> !lower_share(groups, #[trigger] cuts[j], cuts[j + 1], cuts[j - 1], cuts[j])
}

/// Every group holds a sample.
pub open spec fn inhabited(groups: Seq<Group>) -> bool {
    forall|g: int| 0 <= g < groups.len() ==> (#[trigger] groups[g]).n > 0
}

/// The cuts of a division ascend.
pub proof fn lemma_cuts_ascend(groups: Seq<Group>, a: int, b: int, cuts: Seq<int>, i: int, j: int)
    requires
        isotonic(groups, a, b, cuts),
        0 <= i <= j < cuts.len(),
    ensures
        cuts[i] <= cuts[j],
        i < j ==> cuts[i] < cuts[j],
        a <= cuts[i] <= b,
        a <= cuts[j] <= b,
    decreases cuts.len() - i + j,
{
    lemma_cuts_between(groups, a, b, cuts, i, j);
    lemma_cuts_between(groups, a, b, cuts, 0, i);
    lemma_cuts_between(groups, a, b, cuts, j, cuts.len() - 1);
}

proof fn lemma_cuts_between(groups: Seq<Group>, a: int, b: int, cuts: Seq<int>, i: int, j: int)
    requires
        isotonic(groups, a, b, cuts),
        0 <= i <= j < cuts.len(),
    ensures
        cuts[i] <= cuts[j],
        i < j ==> cuts[i] < cuts[j],
    decreases j - i,
{
    if i < j {
        lemma_cuts_between(groups, a, b, cuts, i, j - 1);
        assert(indivisible(groups, cuts[j - 1], cuts[j - 1 + 1]));
    }
}

/// More groups hold more samples.
pub proof fn lemma_size_increases(groups: Seq<Group>, a: int, b: int)
    requires
        inhabited(groups),
        0 <= a <= b <= groups.len(),
    ensures
        size(groups, a) <= size(groups, b),
        a < b ==> size(groups, a) < size(groups, b),
        positives(groups, a) <= positives(groups, b),
    decreases b - a,
{
    if a < b {
        lemma_size_increases(groups, a, b - 1);
        assert(groups[b - 1].n > 0);
    }
}

/// Adding a part with a higher share raises the share, adding one with a lower
/// share lowers it.
proof fn lemma_mediant(h: int, n: int, k: int, m: int)
    requires
        n > 0,
        m > 0,
    ensures
        h * m < k * n ==> h * (n + m) < (h + k) * n && (h + k) * m < k * (n + m),
        h * m <= k * n ==> h * (n + m) <= (h + k) * n && (h + k) * m <= k * (n + m),
        h * m > k * n ==> h * (n + m) > (h + k) * n && (h + k) * m > k * (n + m),
        h * m >= k * n ==> h * (n + m) >= (h + k) * n && (h + k) * m >= k * (n + m),
{
    assert(h * (n + m) == h * n + h * m) by (nonlinear_arith);
    assert((h + k) * n == h * n + k * n) by (nonlinear_arith);
    assert((h + k) * m == h * m + k * m) by (nonlinear_arith);
    assert(k * (n + m) == k * n + k * m) by (nonlinear_arith);
}

/// Shares are ordered transitively.
proof fn lemma_share_transitive(h: int, n: int, k: int, m: int, l: int, p: int)
    requires
        n > 0,
        m > 0,
        p > 0,
    ensures
        h * m <= k * n && k * p <= l * m ==> h * p <= l * n,
        h * m < k * n && k * p <= l * m ==> h * p < l * n,
        h * m <= k * n && k * p < l * m ==> h * p < l * n,
{
    if h * m <= k * n && k * p <= l * m {
        assert(h * p <= l * n) by (nonlinear_arith)
            requires
                h * m <= k * n,
                k * p <= l * m,
                n > 0,
                m > 0,
                p > 0,
        ;
    }
    if h * m < k * n && k * p <= l * m {
        assert(h * p < l * n) by (nonlinear_arith)
            requires
                h * m < k * n,
                k * p <= l * m,
                n > 0,
                m > 0,
                p > 0,
        ;
    }
    if h * m <= k * n && k * p < l * m {
        assert(h * p < l * n) by (nonlinear_arith)
            requires
                h * m <= k * n,
                k * p < l * m,
                n > 0,
                m > 0,
                p > 0,
        ;
    }
}

/// Merging two indivisible neighbours, of which the first has the higher share,
/// gives an indivisible block.
proof fn lemma_merge(groups: Seq<Group>, a: int, m: int, b: int)
    requires
        inhabited(groups),
        0 <= a,
        b <= groups.len(),
        indivisible(groups, a, m),
        indivisible(groups, m, b),
        lower_share(groups, m, b, a, m),
    ensures
        indivisible(groups, a, b),
{
    let (ha, hm, hb) = (positives(groups, a), positives(groups, m), positives(groups, b));
    let (na, nm, nb) = (size(groups, a), size(groups, m), size(groups, b));
    lemma_size_increases(groups, a, m);
    lemma_size_increases(groups, m, b);
    lemma_mediant(hm - ha, nm - na, hb - hm, nb - nm);
    assert forall|k: int| a < k < b implies #[trigger] lower_share(groups, a, b, a, k) by {
        let (hk, nk) = (positives(groups, k), size(groups, k));
        if k < m {
            lemma_size_increases(groups, a, k);
            assert(lower_share(groups, a, m, a, k));
            lemma_share_transitive(hb - ha, nb - na, hm - ha, nm - na, hk - ha, nk - na);
        } else if k > m {
            lemma_size_increases(groups, m, k);
            lemma_size_increases(groups, k, b);
            assert(lower_share(groups, m, b, m, k));
            // The rest behind `k` has a lower share than the block it ends.
            lemma_mediant(hk - hm, nk - nm, hb - hk, nb - nk);
            lemma_split(hk - hm, nk - nm, hb - hk, nb - nk);
            lemma_share_transitive(hb - hk, nb - nk, hb - hm, nb - nm, hb - ha, nb - na);
            lemma_split(hk - ha, nk - na, hb - hk, nb - nk);
        }
    }
}

/// Of a whole and its two parts, the whole lies between the parts.
proof fn lemma_split(h: int, n: int, k: int, m: int)
    requires
        n > 0,
        m > 0,
    ensures
        (h + k) * n < h * (n + m) <==> k * (n + m) < (h + k) * m,
{
    assert(h * (n + m) == h * n + h * m) by (nonlinear_arith);
    assert((h + k) * n == h * n + k * n) by (nonlinear_arith);
    assert((h + k) * m == h * m + k * m) by (nonlinear_arith);
    assert(k * (n + m) == k * n + k * m) by (nonlinear_arith);
}

/// From the start of a block on, no share is below that of the block.
proof fn lemma_share_from_block(groups: Seq<Group>, a: int, b: int, cuts: Seq<int>, j: int, e: int)
    requires
        inhabited(groups),
        0 <= a,
        b <= groups.len(),
        isotonic(groups, a, b, cuts),
        0 <= j < cuts.len() - 1,
        cuts[j] < e <= b,
    ensures
        !lower_share(groups, cuts[j], e, cuts[j], cuts[j + 1]),
    decreases cuts.len() - j,
{
    lemma_cuts_ascend(groups, a, b, cuts, j, j + 1);
    let (f, t) = (cuts[j], cuts[j + 1]);
    assert(indivisible(groups, cuts[j], cuts[j + 1]));
    lemma_size_increases(groups, f, t);
    lemma_size_increases(groups, f, e);
    let (hf, ht, he) = (positives(groups, f), positives(groups, t), positives(groups, e));
    let (nf, nt, ne) = (size(groups, f), size(groups, t), size(groups, e));
    if e < t {
        assert(lower_share(groups, f, t, f, e));
    } else if e > t {
        assert(j + 1 < cuts.len() - 1) by {
            if j + 1 == cuts.len() - 1 {
                assert(cuts.last() == t);
            }
        }
        lemma_share_from_block(groups, a, b, cuts, j + 1, e);
        lemma_cuts_ascend(groups, a, b, cuts, j + 1, j + 2);
        let u = cuts[j + 2];
        assert(!lower_share(groups, cuts[j + 1], cuts[j + 1 + 1], cuts[j + 1 - 1], cuts[j + 1]));
        lemma_size_increases(groups, t, u);
        lemma_size_increases(groups, t, e);
        let (hu, nu) = (positives(groups, u), size(groups, u));
        lemma_share_transitive(ht - hf, nt - nf, hu - ht, nu - nt, he - ht, ne - nt);
        lemma_mediant(ht - hf, nt - nf, he - ht, ne - nt);
    }
}

/// The first cut of a division is determined.
proof fn lemma_first_cut(groups: Seq<Group>, a: int, b: int, c: Seq<int>, d: Seq<int>)
    requires
        inhabited(groups),
        0 <= a < b,
        b <= groups.len(),
        isotonic(groups, a, b, c),
        isotonic(groups, a, b, d),
        c.len() >= 2,
        d.len() >= 2,
    ensures
        c[1] >= d[1],
{
    let (p, q) = (c[1], d[1]);
    lemma_cuts_ascend(groups, a, b, c, 0, 1);
    lemma_cuts_ascend(groups, a, b, d, 0, 1);
    if p < q {
        assert(c.len() >= 3) by {
            if c.len() == 2 {
                assert(c.last() == p);
            }
        }
        lemma_cuts_ascend(groups, a, b, c, 1, 2);
        lemma_share_from_block(groups, a, b, c, 1, q);
        assert(!lower_share(groups, c[1], c[2], c[0], c[1]));
        assert(indivisible(groups, d[0], d[1]));
        assert(lower_share(groups, a, q, a, p));
        let u = c[2];
        lemma_size_increases(groups, a, p);
        lemma_size_increases(groups, p, q);
        lemma_size_increases(groups, p, u);
        let (ha, hp, hq, hu) = (positives(groups, a), positives(groups, p), positives(groups, q), positives(groups, u));
        let (na, np, nq, nu) = (size(groups, a), size(groups, p), size(groups, q), size(groups, u));
        lemma_share_transitive(hp - ha, np - na, hu - hp, nu - np, hq - hp, nq - np);
        lemma_mediant(hp - ha, np - na, hq - hp, nq - np);
    }
}

/// There is only one division of groups into indivisible blocks whose shares do
/// not decrease.
pub proof fn lemma_blocks_are_unique(groups: Seq<Group>, a: int, b: int, c: Seq<int>, d: Seq<int>)
    requires
        inhabited(groups),
        0 <= a,
        b <= groups.len(),
        isotonic(groups, a, b, c),
        isotonic(groups, a, b, d),
    ensures
        c == d,
    decreases b - a,
{
    lemma_cuts_ascend(groups, a, b, c, 0, c.len() - 1);
    lemma_cuts_ascend(groups, a, b, d, 0, d.len() - 1);
    if a < b {
        lemma_first_cut(groups, a, b, c, d);
        lemma_first_cut(groups, a, b, d, c);
        lemma_rest_is_isotonic(groups, a, b, c, 1);
        lemma_rest_is_isotonic(groups, a, b, d, 1);
        lemma_cuts_ascend(groups, a, b, c, 0, 1);
        lemma_blocks_are_unique(groups, c[1], b, c.skip(1), d.skip(1));
        assert(c == seq![c[0]] + c.skip(1));
        assert(d == seq![d[0]] + d.skip(1));
    } else {
        assert(c == seq![a]);
        assert(d == seq![a]);
    }
}

/// The blocks from some block on are a division of the groups from there on.
proof fn lemma_rest_is_isotonic(groups: Seq<Group>, a: int, b: int, cuts: Seq<int>, m: int)
    requires
        isotonic(groups, a, b, cuts),
        0 <= m < cuts.len(),
    ensures
        isotonic(groups, cuts[m], b, cuts.skip(m)),
{
    let rest = cuts.skip(m);
    assert forall|j: int| 0 <= j < rest.len() - 1 implies indivisible(groups, #[trigger] rest[j], rest[j + 1]) by {
        assert(indivisible(groups, cuts[m + j], cuts[m + j + 1]));
    }
    assert forall|j: int| 0 < j < rest.len() - 1 implies !lower_share(
        groups,
        #[trigger] rest[j],
        rest[j + 1],
        rest[j - 1],
        rest[j],
    ) by {
        assert(!lower_share(groups, cuts[m + j], cuts[m + j + 1], cuts[m + j - 1], cuts[m + j]));
    }
}

/// `r` is the score of a group times the number of its samples.
pub open spec fn weight<A: Arithmetic>(group: Group, r: Binary64) -> bool {
    exists|n: Binary64| #[trigger] counts::<A>(group.n as int, n) && multiplies::<A>(group.x, n, r)
}

/// `r` is the sum of the weights of the groups `a..b`: to the weight of the last
/// group are added the sums of the blocks that divide the others, from the last
/// one to the first.
#[verifier::opaque]
pub open spec fn weighted_sum<A: Arithmetic>(groups: Seq<Group>, a: int, b: int, r: Binary64) -> bool
    decreases b - a,
{
    a < b && exists|cuts: Seq<int>, parts: Seq<Binary64>, start: Binary64|
        {
            &&& #[trigger] isotonic(groups, a, b - 1, cuts)
            &&& parts.len() == cuts.len() - 1
            &&& weight::<A>(groups[b - 1], start)
            &&& #[trigger] adds_up::<A>(start, parts, r)
            &&& forall|j: int|
                0 <= j < parts.len() ==> a <= #[trigger] cuts[j] && cuts[j + 1] < b && weighted_sum::<A>(
                    groups,
                    cuts[j],
                    cuts[j + 1],
                    parts[parts.len() - 1 - j],
                )
        }
}

/// What a weighted sum is made of: the cuts between the blocks before the last
/// group, the sums of these blocks from the last one to the first, and the weight
/// of the last group.
pub proof fn lemma_weighted_sum_parts<A: Arithmetic>(groups: Seq<Group>, a: int, b: int, r: Binary64) -> (x: (
    Seq<int>,
    Seq<Binary64>,
    Binary64,
))
    requires
        weighted_sum::<A>(groups, a, b, r),
    ensures
        a < b,
        isotonic(groups, a, b - 1, x.0),
        x.1.len() == x.0.len() - 1,
        weight::<A>(groups[b - 1], x.2),
        adds_up::<A>(x.2, x.1, r),
        forall|j: int|
            0 <= j < x.1.len() ==> a <= #[trigger] x.0[j] && x.0[j + 1] < b && weighted_sum::<A>(
                groups,
                x.0[j],
                x.0[j + 1],
                x.1[x.1.len() - 1 - j],
            ),
{
    reveal_with_fuel(weighted_sum, 1);
    choose|cuts: Seq<int>, parts: Seq<Binary64>, start: Binary64|
        {
            &&& #[trigger] isotonic(groups, a, b - 1, cuts)
            &&& parts.len() == cuts.len() - 1
            &&& weight::<A>(groups[b - 1], start)
            &&& #[trigger] adds_up::<A>(start, parts, r)
            &&& forall|j: int|
                0 <= j < parts.len() ==> a <= #[trigger] cuts[j] && cuts[j + 1] < b && weighted_sum::<A>(
                    groups,
                    cuts[j],
                    cuts[j + 1],
                    parts[parts.len() - 1 - j],
                )
        }
}

/// A weighted sum is determined by the groups.
pub proof fn lemma_weighted_sum_unique<A: Arithmetic>(groups: Seq<Group>, a: int, b: int, r: Binary64, s: Binary64)
    requires
        deterministic::<A>(),
        inhabited(groups),
        0 <= a,
        b <= groups.len(),
        weighted_sum::<A>(groups, a, b, r),
        weighted_sum::<A>(groups, a, b, s),
    ensures
        r == s,
    decreases b - a,
{
    let (c, p, x) = lemma_weighted_sum_parts::<A>(groups, a, b, r);
    let (d, q, y) = lemma_weighted_sum_parts::<A>(groups, a, b, s);
    lemma_blocks_are_unique(groups, a, b - 1, c, d);
    assert forall|k: int| 0 <= k < p.len() implies p[k] == q[k] by {
        let j = p.len() - 1 - k;
        assert(a <= c[j] && c[j + 1] < b);
        assert(a <= d[j] && d[j + 1] < b);
        lemma_cuts_ascend(groups, a, b - 1, c, j, j + 1);
        lemma_weighted_sum_unique::<A>(groups, c[j], c[j + 1], p[k], q[k]);
    }
    assert(p == q);
    assert(x == y) by {
        let n = choose|n: Binary64| #[trigger]
            counts::<A>(groups[b - 1].n as int, n) && multiplies::<A>(groups[b - 1].x, n, x);
        let m = choose|m: Binary64| #[trigger]
            counts::<A>(groups[b - 1].n as int, m) && multiplies::<A>(groups[b - 1].x, m, y);
        assert(n == m);
    }
    lemma_adds_up_unique::<A>(x, p, r, s);
}

/// Strictly ascending numbers.
spec fn ascends(s: Seq<int>) -> bool {
    forall|a: int, b: int| 0 <= a < b < s.len() ==> #[trigger] s[a] < #[trigger] s[b]
}

/// Of two ascending lists with the same numbers, each starts like the other.
proof fn lemma_ascending_prefix(s: Seq<int>, t: Seq<int>, k: int)
    requires
        ascends(s),
        ascends(t),
        s.to_set() == t.to_set(),
        0 <= k <= s.len(),
    ensures
        k <= t.len(),
        s.take(k) == t.take(k),
    decreases k,
{
    if k > 0 {
        lemma_ascending_prefix(s, t, k - 1);
        assert(t.to_set().contains(s[k - 1]));
        let l = choose|l: int| 0 <= l < t.len() && t[l] == s[k - 1];
        if l < k - 1 {
            assert(s.take(k - 1)[l] == t.take(k - 1)[l]);
        }
        assert(s.to_set().contains(t[k - 1]));
        let m = choose|m: int| 0 <= m < s.len() && s[m] == t[k - 1];
        if m < k - 1 {
            assert(s.take(k - 1)[m] == t.take(k - 1)[m]);
        }
        assert(s[k - 1] == t[k - 1]);
        assert(s.take(k) == s.take(k - 1).push(s[k - 1]));
        assert(t.take(k) == t.take(k - 1).push(t[k - 1]));
    }
}

/// The scores of the groups are the scores that occur.
proof fn lemma_ranks_of(scores: Seq<Binary64>, outcomes: Seq<bool>, groups: Seq<Group>)
    requires
        grouped(scores, outcomes, groups),
    ensures
        ascends(ranks_of(groups)),
        ranks_of(groups).to_set() == scores.map_values(|x: Binary64| x.rank()).to_set(),
{
    let (r, all) = (ranks_of(groups), scores.map_values(|x: Binary64| x.rank()));
    assert forall|v: int| r.to_set().contains(v) <==> all.to_set().contains(v) by {
        if r.contains(v) {
            let k = choose|k: int| 0 <= k < r.len() && r[k] == v;
            assert(counts_samples(scores, outcomes, groups[k]));
            let i = choose|i: int| 0 <= i < scores.len() && scores[i] == groups[k].x;
            assert(all[i] == v);
        }
        if all.contains(v) {
            let i = choose|i: int| 0 <= i < all.len() && all[i] == v;
            assert(r.contains(scores[i].rank()));
        }
    }
    assert forall|a: int, b: int| 0 <= a < b < r.len() implies #[trigger] r[a] < #[trigger] r[b] by {
        assert(groups[a].x.rank() < groups[b].x.rank());
    }
    assert(r.to_set() == all.to_set());
}

/// Two groups that count the samples at one score are equal.
proof fn lemma_group_is_unique(scores: Seq<Binary64>, outcomes: Seq<bool>, g: Group, h: Group)
    requires
        counts_samples(scores, outcomes, g),
        counts_samples(scores, outcomes, h),
        g.x.rank() == h.x.rank(),
    ensures
        g == h,
{
    let i = choose|i: int| 0 <= i < scores.len() && scores[i] == g.x;
    let j = choose|j: int| 0 <= j < scores.len() && scores[j] == h.x;
    assert(g.x.total_rank() <= scores[j].total_rank());
    assert(h.x.total_rank() <= scores[i].total_rank());
    assert(g.x.bits == h.x.bits);
}

/// There is only one list of groups.
pub proof fn lemma_groups_are_unique(scores: Seq<Binary64>, outcomes: Seq<bool>, g: Seq<Group>, h: Seq<Group>)
    requires
        grouped(scores, outcomes, g),
        grouped(scores, outcomes, h),
    ensures
        g == h,
{
    lemma_ranks_of(scores, outcomes, g);
    lemma_ranks_of(scores, outcomes, h);
    let (r, s) = (ranks_of(g), ranks_of(h));
    lemma_ascending_prefix(r, s, r.len() as int);
    lemma_ascending_prefix(s, r, s.len() as int);
    assert forall|k: int| 0 <= k < g.len() implies g[k] == h[k] by {
        assert(r.take(r.len() as int)[k] == s.take(r.len() as int)[k]);
        lemma_group_is_unique(scores, outcomes, g[k], h[k]);
    }
}

/// The samples in the first `k` groups.
spec fn samples_below(scores: Seq<Binary64>, groups: Seq<Group>, k: int) -> Set<int> {
    set_int_range(0, scores.len() as int).filter(
        |i: int| exists|g: int| 0 <= g < k && (#[trigger] groups[g]).x.rank() == scores[i].rank(),
    )
}

proof fn lemma_samples_below(scores: Seq<Binary64>, outcomes: Seq<bool>, groups: Seq<Group>, k: int)
    requires
        grouped(scores, outcomes, groups),
        0 <= k <= groups.len(),
    ensures
        samples_below(scores, groups, k).finite(),
        samples_below(scores, groups, k).len() == size(groups, k),
        0 <= positives(groups, k) <= size(groups, k),
    decreases k,
{
    let range = set_int_range(0, scores.len() as int);
    vstd::set_lib::lemma_int_range(0, scores.len() as int);
    if k == 0 {
        assert(samples_below(scores, groups, 0) == Set::<int>::empty());
    } else {
        let before = samples_below(scores, groups, k - 1);
        let rank = groups[k - 1].x.rank();
        let here = samples_at(scores, rank);
        let hits = hits_at(scores, outcomes, rank);
        lemma_samples_below(scores, outcomes, groups, k - 1);
        assert(counts_samples(scores, outcomes, groups[k - 1]));
        range.lemma_len_filter(|i: int| scores[i].rank() == rank);
        range.lemma_len_filter(|i: int| scores[i].rank() == rank && outcomes[i]);
        assert(hits.subset_of(here));
        vstd::set_lib::lemma_len_subset(hits, here);
        assert(samples_below(scores, groups, k) == before + here) by {
            assert forall|i: int| samples_below(scores, groups, k).contains(i) <==> (before + here).contains(i) by {
                if here.contains(i) {
                    assert(groups[k - 1].x.rank() == scores[i].rank());
                }
                if before.contains(i) {
                    let g = choose|g: int| 0 <= g < k - 1 && (#[trigger] groups[g]).x.rank() == scores[i].rank();
                    assert(groups[g].x.rank() == scores[i].rank());
                }
            }
        }
        assert forall|i: int| !(before.contains(i) && here.contains(i)) by {
            if before.contains(i) && here.contains(i) {
                let g = choose|g: int| 0 <= g < k - 1 && (#[trigger] groups[g]).x.rank() == scores[i].rank();
                assert(groups[g].x.rank() < groups[k - 1].x.rank());
            }
        }
        assert(before.disjoint(here));
        vstd::set_lib::lemma_set_disjoint_lens(before, here);
    }
}

/// Groups count no more samples than there are, and no more positive outcomes
/// than samples.
pub proof fn lemma_group_totals(scores: Seq<Binary64>, outcomes: Seq<bool>, groups: Seq<Group>, k: int)
    requires
        grouped(scores, outcomes, groups),
        0 <= k <= groups.len(),
    ensures
        0 <= positives(groups, k) <= size(groups, k) <= scores.len(),
{
    lemma_samples_below(scores, outcomes, groups, k);
    let range = set_int_range(0, scores.len() as int);
    vstd::set_lib::lemma_int_range(0, scores.len() as int);
    assert(samples_below(scores, groups, k).subset_of(range));
    vstd::set_lib::lemma_len_subset(samples_below(scores, groups, k), range);
}

/// Groups hold at least one sample each.
pub proof fn lemma_size_at_least(groups: Seq<Group>, a: int, b: int)
    requires
        inhabited(groups),
        0 <= a <= b <= groups.len(),
    ensures
        b - a <= size(groups, b) - size(groups, a),
    decreases b - a,
{
    if a < b {
        lemma_size_at_least(groups, a, b - 1);
        assert(groups[b - 1].n > 0);
    }
}

/// Groups the samples by score.
pub fn group_samples(scores: &[Binary64], outcomes: &[bool]) -> (r: Vec<Group>)
    requires
        scores@.len() == outcomes@.len(),
    ensures
        grouped(scores@, outcomes@, r@),
        inhabited(r@),
        size(r@, r@.len() as int) == scores@.len(),
        positives(r@, r@.len() as int) <= scores@.len(),
        scores@.len() > 0 ==> r@.len() > 0,
{
    let mut keys: Vec<i64> = Vec::new();
    let mut i: usize = 0;
    while i < scores.len()
        invariant
            i <= scores@.len(),
            keys@.len() == i,
            forall|k: int| 0 <= k < i ==> #[trigger] keys@[k] == scores@[k].total_rank(),
        decreases scores@.len() - i,
    {
        keys.push(scores[i].total_position());
        i = i + 1;
    }
    let order: Vec<usize> = order_by(keys.as_slice());
    let n: usize = order.len();
    let ghost s = as_numbers(order@);
    let mut r: Vec<Group> = Vec::new();
    proof {
        lemma_ranks(keys@, order@);
    }
    i = 0;
    while i < n
        invariant
            i <= n,
            n == order@.len(),
            n == scores@.len(),
            scores@.len() == outcomes@.len(),
            keys@.len() == n,
            ranks(keys@, order@),
            forall|k: int| 0 <= k < n ==> #[trigger] keys@[k] == scores@[k].total_rank(),
            s == as_numbers(order@),
            s.len() == n,
            s.no_duplicates(),
            forall|a: int, b: int| 0 <= a < b < r@.len() ==> (#[trigger] r@[a]).x.rank() < (#[trigger] r@[b]).x.rank(),
            forall|g: int| 0 <= g < r@.len() ==> counts_part(scores@, outcomes@, s, i as int, #[trigger] r@[g]),
            forall|a: int| 0 <= a < i ==> #[trigger] ranks_of(r@).contains(scores@[s[a]].rank()),
            size(r@, r@.len() as int) == i,
            0 <= positives(r@, r@.len() as int) <= i,
            i > 0 ==> r@.len() > 0 && r@[r@.len() - 1].x.rank() == scores@[s[i - 1]].rank(),
        decreases n - i,
    {
        let at: usize = order[i];
        let ghost before = r@;
        let hit: usize = if outcomes[at] {
            1
        } else {
            0
        };
        let last: usize = r.len();
        proof {
            assert(s[i as int] == at);
            assert forall|a: int| 0 <= a < i implies scores@[#[trigger] s[a]].total_rank() <= scores@[at as int].total_rank()
                && scores@[s[a]].rank() <= scores@[at as int].rank() by {
                assert(s[a] == order@[a]);
                assert(comes_before(keys@, order@[a] as int, order@[i as int] as int));
            }
            if i > 0 {
                assert(s[i - 1] == order@[i - 1]);
            }
        }
        if last > 0 && r[last - 1].x.position() == scores[at].position() {
            let group: Group = r[last - 1];
            proof {
                lemma_part_bounds(scores@, outcomes@, s, i as int, group);
            }
            r.set(last - 1, Group { x: group.x, hits: group.hits + hit, n: group.n + 1 });
            proof {
                lemma_sums_of_last(before, r@[last - 1]);
                assert(r@ == before.drop_last().push(r@[last - 1]));
                assert(ranks_of(r@) == ranks_of(before));
            }
        } else {
            r.push(Group { x: scores[at], hits: hit, n: 1 });
            proof {
                lemma_sums_of_push(before, r@[last as int]);
                assert(r@ == before.push(r@[last as int]));
                assert forall|g: int| 0 <= g < before.len() implies (#[trigger] before[g]).x.rank() < scores@[at as int].rank() by {
                    if g < before.len() - 1 {
                        assert(before[g].x.rank() < before[before.len() - 1].x.rank());
                    }
                }
                assert(ranks_of(r@) == ranks_of(before).push(scores@[at as int].rank()));
            }
        }
        proof {
            assert forall|g: int| 0 <= g < r@.len() implies counts_part(
                scores@,
                outcomes@,
                s,
                i + 1,
                #[trigger] r@[g],
            ) by {
                if g < last {
                    assert(counts_part(scores@, outcomes@, s, i as int, before[g]));
                    lemma_part_grows(scores@, outcomes@, s, i as int, before[g], r@[g]);
                } else {
                    lemma_part_starts(scores@, outcomes@, s, i as int, r@[g]);
                }
            }
            assert forall|a: int| 0 <= a < i + 1 implies #[trigger] ranks_of(r@).contains(scores@[s[a]].rank()) by {
                let v = scores@[s[a]].rank();
                if a < i {
                    assert(ranks_of(before).contains(v));
                    let k = choose|k: int| 0 <= k < before.len() && ranks_of(before)[k] == v;
                    assert(ranks_of(r@)[k] == v);
                } else {
                    assert(ranks_of(r@)[r@.len() - 1] == v);
                }
            }
        }
        i = i + 1;
    }
    proof {
        assert(s.take(n as int) == s);
        assert forall|g: int| 0 <= g < r@.len() implies counts_samples(scores@, outcomes@, #[trigger] r@[g]) && r@[g].n
            > 0 by {
            assert(counts_part(scores@, outcomes@, s, n as int, r@[g]));
            lemma_part_is_all(scores@, outcomes@, s, r@[g]);
        }
        assert forall|k: int| 0 <= k < scores@.len() implies #[trigger] ranks_of(r@).contains(scores@[k].rank()) by {
            assert(s.to_set().contains(k));
            let a = choose|a: int| 0 <= a < s.len() && s[a] == k;
            assert(ranks_of(r@).contains(scores@[s[a]].rank()));
        }
    }
    r
}

/// A group counts the samples at its score among the first ones of a list, and
/// carries the first of them in the total order.
spec fn counts_part(scores: Seq<Binary64>, outcomes: Seq<bool>, s: Seq<int>, i: int, group: Group) -> bool {
    let rank = group.x.rank();
    &&& group.n == s.take(i).to_set().filter(|k: int| scores[k].rank() == rank).len()
    &&& group.hits == s.take(i).to_set().filter(|k: int| scores[k].rank() == rank && outcomes[k]).len()
    &&& group.hits <= group.n
    &&& group.n > 0
    &&& exists|a: int| 0 <= a < i && scores[#[trigger] s[a]] == group.x
    &&& forall|a: int|
        0 <= a < i && scores[#[trigger] s[a]].rank() == rank ==> group.x.total_rank() <= scores[s[a]].total_rank()
}

/// A group cannot count more samples than there are.
proof fn lemma_part_bounds(scores: Seq<Binary64>, outcomes: Seq<bool>, s: Seq<int>, i: int, group: Group)
    requires
        counts_part(scores, outcomes, s, i, group),
        s.no_duplicates(),
        0 <= i < s.len(),
    ensures
        group.n <= i,
        group.hits <= i,
{
    let rank = group.x.rank();
    lemma_count_next(s, i, |k: int| scores[k].rank() == rank);
}

/// One more sample raises the counts of the group at its score.
proof fn lemma_part_grows(scores: Seq<Binary64>, outcomes: Seq<bool>, s: Seq<int>, i: int, group: Group, next: Group)
    requires
        counts_part(scores, outcomes, s, i, group),
        s.no_duplicates(),
        0 <= i < s.len(),
        next.x == group.x,
        next.n == group.n + if scores[s[i]].rank() == group.x.rank() { 1int } else { 0int },
        next.hits == group.hits + if scores[s[i]].rank() == group.x.rank() && outcomes[s[i]] { 1int } else { 0int },
        scores[s[i]].rank() == group.x.rank() ==> forall|a: int|
            0 <= a < i ==> scores[#[trigger] s[a]].total_rank() <= scores[s[i]].total_rank(),
    ensures
        counts_part(scores, outcomes, s, i + 1, next),
{
    let rank = group.x.rank();
    lemma_count_next(s, i, |k: int| scores[k].rank() == rank);
    lemma_count_next(s, i, |k: int| scores[k].rank() == rank && outcomes[k]);
    let a = choose|a: int| 0 <= a < i && scores[#[trigger] s[a]] == group.x;
    assert(scores[s[a]] == next.x);
}

/// The first sample at a score starts a group.
proof fn lemma_part_starts(scores: Seq<Binary64>, outcomes: Seq<bool>, s: Seq<int>, i: int, group: Group)
    requires
        s.no_duplicates(),
        0 <= i < s.len(),
        group.x == scores[s[i]],
        group.n == 1,
        group.hits == if outcomes[s[i]] { 1int } else { 0int },
        forall|a: int| 0 <= a < i ==> scores[#[trigger] s[a]].rank() != group.x.rank(),
    ensures
        counts_part(scores, outcomes, s, i + 1, group),
{
    let rank = group.x.rank();
    let (p, q) = (|k: int| scores[k].rank() == rank, |k: int| scores[k].rank() == rank && outcomes[k]);
    lemma_count_next(s, i, p);
    lemma_count_next(s, i, q);
    assert forall|k: int| !s.take(i).to_set().filter(p).contains(k) by {
        if s.take(i).to_set().contains(k) {
            let a = choose|a: int| 0 <= a < i && s.take(i)[a] == k;
            assert(s[a] == k);
        }
    }
    assert(s.take(i).to_set().filter(p) == Set::<int>::empty());
    assert(s.take(i).to_set().filter(q) == Set::<int>::empty());
}

/// With all samples seen, a group counts all samples at its score.
proof fn lemma_part_is_all(scores: Seq<Binary64>, outcomes: Seq<bool>, s: Seq<int>, group: Group)
    requires
        counts_part(scores, outcomes, s, s.len() as int, group),
        s.to_set() == set_int_range(0, scores.len() as int),
    ensures
        counts_samples(scores, outcomes, group),
{
    let rank = group.x.rank();
    assert(s.take(s.len() as int) == s);
    assert(samples_at(scores, rank) == s.to_set().filter(|k: int| scores[k].rank() == rank));
    assert(hits_at(scores, outcomes, rank) == s.to_set().filter(|k: int| scores[k].rank() == rank && outcomes[k]));
    let a = choose|a: int| 0 <= a < s.len() && scores[#[trigger] s[a]] == group.x;
    assert(s.to_set().contains(s[a]));
    assert forall|i: int| 0 <= i < scores.len() && (#[trigger] scores[i]).rank() == rank implies group.x.total_rank()
        <= scores[i].total_rank() by {
        assert(s.to_set().contains(i));
        let b = choose|b: int| 0 <= b < s.len() && s[b] == i;
        assert(scores[s[b]].rank() == rank);
    }
}

/// One more group adds its counts to the sums.
proof fn lemma_sums_of_push(groups: Seq<Group>, group: Group)
    ensures
        size(groups.push(group), groups.len() as int + 1) == size(groups, groups.len() as int) + group.n,
        positives(groups.push(group), groups.len() as int + 1) == positives(groups, groups.len() as int) + group.hits,
{
    lemma_sums_of_prefix(groups, groups.push(group), groups.len() as int);
}

/// A changed last group changes the sums by the change of its counts.
proof fn lemma_sums_of_last(groups: Seq<Group>, group: Group)
    requires
        groups.len() > 0,
    ensures
        size(groups.drop_last().push(group), groups.len() as int) == size(groups, groups.len() as int) - groups.last().n
            + group.n,
        positives(groups.drop_last().push(group), groups.len() as int) == positives(groups, groups.len() as int)
            - groups.last().hits + group.hits,
{
    lemma_sums_of_prefix(groups, groups.drop_last().push(group), groups.len() - 1);
}

/// Lists that start alike have the same sums over that start.
proof fn lemma_sums_of_prefix(g: Seq<Group>, h: Seq<Group>, k: int)
    requires
        k <= g.len(),
        k <= h.len(),
        forall|i: int| 0 <= i < k ==> g[i] == h[i],
    ensures
        size(g, k) == size(h, k),
        positives(g, k) == positives(h, k),
    decreases k,
{
    if k > 0 {
        lemma_sums_of_prefix(g, h, k - 1);
    }
}

/// A block of neighbouring groups: the sum of their weights and their counts.
#[derive(Debug, Clone, Copy)]
pub struct Block {
    pub sum_x: Binary64,
    pub hits: usize,
    pub n: usize,
}

/// A block sums up the groups `a..b`.
pub open spec fn sums_up<A: Arithmetic>(groups: Seq<Group>, a: int, b: int, block: Block) -> bool {
    &&& block.n == size(groups, b) - size(groups, a)
    &&& block.hits == positives(groups, b) - positives(groups, a)
    &&& weighted_sum::<A>(groups, a, b, block.sum_x)
}

/// `blocks` sums up the blocks that `cuts` divides the groups `0..b` into.
pub open spec fn pooled<A: Arithmetic>(groups: Seq<Group>, b: int, cuts: Seq<int>, blocks: Seq<Block>) -> bool {
    &&& isotonic(groups, 0, b, cuts)
    &&& cuts.len() == blocks.len() + 1
    &&& forall|j: int|
        0 <= j < blocks.len() ==> sums_up::<A>(groups, #[trigger] cuts[j], cuts[j + 1], blocks[j])
}

/// Whether one share is above another one.
fn higher_share(a: &Block, b: &Block) -> (r: bool)
    ensures
        r == (a.hits * b.n > b.hits * a.n),
{
    proof {
        assert(a.hits * b.n <= usize::MAX * usize::MAX) by (nonlinear_arith)
            requires
                0 <= a.hits <= usize::MAX,
                0 <= b.n <= usize::MAX,
        ;
        assert(b.hits * a.n <= usize::MAX * usize::MAX) by (nonlinear_arith)
            requires
                0 <= b.hits <= usize::MAX,
                0 <= a.n <= usize::MAX,
        ;
        assert(usize::MAX * usize::MAX <= u128::MAX) by (nonlinear_arith)
            requires
                usize::MAX <= 0xFFFF_FFFF_FFFF_FFFF,
        ;
        assert(0 <= a.hits * b.n && 0 <= b.hits * a.n) by (nonlinear_arith);
    }
    a.hits as u128 * b.n as u128 > b.hits as u128 * a.n as u128
}

/// The current block, which has absorbed the blocks behind the `m` first ones.
spec fn absorbed<A: Arithmetic>(
    groups: Seq<Group>,
    g: int,
    cuts: Seq<int>,
    full: Seq<Block>,
    m: int,
    start: Binary64,
    parts: Seq<Binary64>,
    block: Block,
) -> bool {
    &&& 0 <= m <= full.len()
    &&& block.n == size(groups, g + 1) - size(groups, cuts[m])
    &&& block.hits == positives(groups, g + 1) - positives(groups, cuts[m])
    &&& indivisible(groups, cuts[m], g + 1)
    &&& weight::<A>(groups[g], start)
    &&& parts.len() == full.len() - m
    &&& forall|k: int| 0 <= k < parts.len() ==> #[trigger] parts[k] == full[full.len() - 1 - k].sum_x
    &&& adds_up::<A>(start, parts, block.sum_x)
}

/// Absorbing one more block keeps the current block indivisible and summed up.
proof fn lemma_absorb<A: Arithmetic>(
    groups: Seq<Group>,
    g: int,
    cuts: Seq<int>,
    full: Seq<Block>,
    m: int,
    start: Binary64,
    parts: Seq<Binary64>,
    block: Block,
    sum: Binary64,
)
    requires
        inhabited(groups),
        0 <= g < groups.len(),
        pooled::<A>(groups, g, cuts, full),
        0 < m,
        absorbed::<A>(groups, g, cuts, full, m, start, parts, block),
        full[m - 1].hits * block.n > block.hits * full[m - 1].n,
        size(groups, groups.len() as int) <= usize::MAX,
        positives(groups, groups.len() as int) <= usize::MAX,
        sums::<A>(block.sum_x, full[m - 1].sum_x, sum),
    ensures
        block.hits + full[m - 1].hits <= usize::MAX,
        block.n + full[m - 1].n <= usize::MAX,
        absorbed::<A>(
            groups,
            g,
            cuts,
            full,
            m - 1,
            start,
            parts.push(full[m - 1].sum_x),
            (Block { sum_x: sum, hits: (block.hits + full[m - 1].hits) as usize, n: (block.n + full[m - 1].n) as usize }),
        ),
{
    let (a, b) = (cuts[m - 1], cuts[m]);
    assert(sums_up::<A>(groups, cuts[m - 1], cuts[m - 1 + 1], full[m - 1]));
    lemma_cuts_ascend(groups, 0, g, cuts, m - 1, m);
    lemma_size_increases(groups, 0, a);
    lemma_size_increases(groups, a, b);
    lemma_size_increases(groups, b, g + 1);
    lemma_size_increases(groups, g + 1, groups.len() as int);
    assert(lower_share(groups, b, g + 1, a, b));
    assert(indivisible(groups, cuts[m - 1], cuts[m - 1 + 1]));
    lemma_merge(groups, a, b, g + 1);
    lemma_adds_up_push::<A>(start, parts, block.sum_x, full[m - 1].sum_x, sum);
}

/// The kept blocks and the current one divide the groups up to the current one.
proof fn lemma_push_block<A: Arithmetic>(
    groups: Seq<Group>,
    g: int,
    cuts: Seq<int>,
    full: Seq<Block>,
    m: int,
    start: Binary64,
    parts: Seq<Binary64>,
    block: Block,
)
    requires
        inhabited(groups),
        0 <= g < groups.len(),
        pooled::<A>(groups, g, cuts, full),
        absorbed::<A>(groups, g, cuts, full, m, start, parts, block),
        m > 0 ==> full[m - 1].hits * block.n <= block.hits * full[m - 1].n,
    ensures
        pooled::<A>(groups, g + 1, cuts.take(m + 1).push(g + 1), full.take(m).push(block)),
{
    let from = cuts[m];
    let rest = cuts.skip(m);
    lemma_rest_is_isotonic(groups, 0, g, cuts, m);
    assert forall|j: int| 0 <= j < parts.len() implies from <= #[trigger] rest[j] && rest[j + 1] < g + 1
        && weighted_sum::<A>(groups, rest[j], rest[j + 1], parts[parts.len() - 1 - j]) by {
        assert(sums_up::<A>(groups, cuts[m + j], cuts[m + j + 1], full[m + j]));
        lemma_cuts_ascend(groups, 0, g, cuts, m, m + j);
        lemma_cuts_ascend(groups, 0, g, cuts, m + j, m + j + 1);
        assert(parts[parts.len() - 1 - j] == full[m + j].sum_x);
    }
    assert(isotonic(groups, from, g + 1 - 1, rest));
    assert(weighted_sum::<A>(groups, from, g + 1, block.sum_x)) by {
        reveal_with_fuel(weighted_sum, 1);
    }
    let next = cuts.take(m + 1).push(g + 1);
    let blocks = full.take(m).push(block);
    assert forall|j: int| 0 <= j < next.len() - 1 implies indivisible(groups, #[trigger] next[j], next[j + 1]) by {
        if j < m {
            assert(indivisible(groups, cuts[j], cuts[j + 1]));
        }
    }
    assert forall|j: int| 0 < j < next.len() - 1 implies !lower_share(
        groups,
        #[trigger] next[j],
        next[j + 1],
        next[j - 1],
        next[j],
    ) by {
        if j < m {
            assert(!lower_share(groups, cuts[j], cuts[j + 1], cuts[j - 1], cuts[j]));
        } else {
            assert(sums_up::<A>(groups, cuts[m - 1], cuts[m - 1 + 1], full[m - 1]));
        }
    }
    assert forall|j: int| 0 <= j < blocks.len() implies sums_up::<A>(
        groups,
        #[trigger] next[j],
        next[j + 1],
        blocks[j],
    ) by {
        if j < m {
            assert(sums_up::<A>(groups, cuts[j], cuts[j + 1], full[j]));
        }
    }
}

/// Pools adjacent violators: merges the current block with the previous one while
/// the share of the previous one is higher.
pub fn pool<A: Arithmetic>(groups: &Vec<Group>) -> (r: Vec<Block>)
    requires
        inhabited(groups@),
        size(groups@, groups@.len() as int) <= usize::MAX,
        positives(groups@, groups@.len() as int) <= usize::MAX,
    ensures
        exists|cuts: Seq<int>| pooled::<A>(groups@, groups@.len() as int, cuts, r@),
        groups@.len() > 0 ==> r@.len() > 0,
{
    let mut blocks: Vec<Block> = Vec::new();
    let ghost mut cuts: Seq<int> = seq![0];
    let mut g: usize = 0;
    while g < groups.len()
        invariant
            g <= groups@.len(),
            inhabited(groups@),
            size(groups@, groups@.len() as int) <= usize::MAX,
            positives(groups@, groups@.len() as int) <= usize::MAX,
            pooled::<A>(groups@, g as int, cuts, blocks@),
            g > 0 ==> blocks@.len() > 0,
        decreases groups@.len() - g,
    {
        let group: Group = groups[g];
        let ghost full = blocks@;
        let count: Binary64 = A::of_count(group.n as u64);
        let start: Binary64 = A::times(group.x, count);
        let mut block = Block { sum_x: start, hits: group.hits, n: group.n };
        let ghost mut parts: Seq<Binary64> = Seq::empty();
        proof {
            assert(counts::<A>(group.n as int, count));
            assert(multiplies::<A>(group.x, count, start));
            assert(cuts.last() == g);
            assert(blocks@ == full.take(full.len() as int));
        }
        while blocks.len() > 0 && higher_share(&blocks[blocks.len() - 1], &block)
            invariant
                g < groups@.len(),
                inhabited(groups@),
                size(groups@, groups@.len() as int) <= usize::MAX,
                positives(groups@, groups@.len() as int) <= usize::MAX,
                pooled::<A>(groups@, g as int, cuts, full),
                blocks@ == full.take(blocks@.len() as int),
                absorbed::<A>(groups@, g as int, cuts, full, blocks@.len() as int, start, parts, block),
            decreases blocks@.len(),
        {
            let m: usize = blocks.len() - 1;
            let last: Block = blocks[m];
            blocks.truncate(m);
            let sum: Binary64 = A::plus(block.sum_x, last.sum_x);
            proof {
                assert(sums::<A>(block.sum_x, last.sum_x, sum));
                assert(last == full[m as int]);
                lemma_absorb::<A>(groups@, g as int, cuts, full, m + 1, start, parts, block, sum);
                parts = parts.push(last.sum_x);
            }
            block = Block { sum_x: sum, hits: block.hits + last.hits, n: block.n + last.n };
            assert(blocks@ == full.take(m as int));
        }
        let ghost m = blocks@.len() as int;
        proof {
            assert(m > 0 ==> blocks@[m - 1] == full[m - 1]);
            lemma_push_block::<A>(groups@, g as int, cuts, full, m, start, parts, block);
            cuts = cuts.take(m + 1).push(g + 1);
        }
        blocks.push(block);
        g = g + 1;
    }
    assert(pooled::<A>(groups@, groups@.len() as int, cuts, blocks@));
    blocks
}

} // verus!
