//! Probability calibration.
//!
//! The engine's hazard is a bounded index, not a calibrated probability of an
//! event. A [`Calibrator`] is a monotone map from the raw index to a calibrated
//! probability, fitted by isotonic regression on held-out pairs of an index and
//! whether the event occurred. Isotonic regression only assumes that a higher
//! index means a higher or equal event probability.

use vstd::arithmetic::power2::pow2;
use vstd::prelude::*;
use vstd::set_lib::set_int_range;

use crate::accuracy::{dust, hair, lemma_scales, orders_quotients, rounds_closely, rounds_to, ulp};
use crate::arithmetic::{
    counts, deterministic, differs, divides, moderate, multiplies, orders_lines, ratio, ratio_of, sums, Arithmetic,
};
use crate::averages::{countable, largest, lemma_bulk_bounded, lemma_mean_near, margin_of};
use crate::binary64::{absolute, lemma_rank_orders_numbers, lemma_small_numbers, lemma_unit_number, one, zero, Binary64};
use crate::error::{Error, Reason};
use crate::grid::{copy_values, find_outside_unit};
use crate::isotonic::{
    counts_samples, group_samples, grouped, hits_at, inhabited, isotonic, lemma_blocks_are_unique, lemma_cuts_ascend,
    lemma_group_totals, lemma_groups_are_unique, lemma_size_at_least, lemma_size_increases, lemma_weighted_sum_unique, lower_share, pool, pooled, positives,
    ranks_of, samples_at, size, sums_up, Block, Group,
};

verus! {

/// A monotone calibration map fitted by isotonic regression.
///
/// A map that comes from elsewhere than a fit is not trusted: call
/// [`validate`](Calibrator::validate) before using it.
#[derive(Debug)]
pub struct Calibrator {
    /// Block mean scores (ascending).
    pub xs: Vec<Binary64>,
    /// Calibrated probabilities per block (non-decreasing), in `[0, 1]`.
    pub ys: Vec<Binary64>,
}

impl Clone for Calibrator {
    fn clone(&self) -> (r: Calibrator)
        ensures
            r.xs@ == self.xs@,
            r.ys@ == self.ys@,
    {
        Calibrator { xs: copy_values(self.xs.as_slice()), ys: copy_values(self.ys.as_slice()) }
    }
}

/// Whether all values are finite.
pub open spec fn all_finite(values: Seq<Binary64>) -> bool {
    forall|i: int| 0 <= i < values.len() ==> (#[trigger] values[i]).finite()
}

/// The first value that is not finite.
pub open spec fn first_infinite(values: Seq<Binary64>, i: int) -> bool {
    &&& 0 <= i < values.len()
    &&& !values[i].finite()
    &&& forall|j: int| 0 <= j < i ==> (#[trigger] values[j]).finite()
}

/// Finds the first value that is not finite.
pub fn find_infinite(values: &[Binary64]) -> (r: Option<usize>)
    ensures
        match r {
            Some(i) => first_infinite(values@, i as int),
            None => all_finite(values@),
        },
{
    let mut i: usize = 0;
    while i < values.len()
        invariant
            i <= values@.len(),
            forall|j: int| 0 <= j < i ==> (#[trigger] values@[j]).finite(),
        decreases values@.len() - i,
    {
        if !values[i].is_finite() {
            return Some(i);
        }
        i = i + 1;
    }
    None
}

/// `r` is a sum divided by a count.
pub open spec fn mean_of<A: Arithmetic>(sum: Binary64, n: int, r: Binary64) -> bool {
    exists|count: Binary64| #[trigger] counts::<A>(n, count) && divides::<A>(sum, count, r)
}

/// `r` is the share of hits, held within `[0, 1]`.
pub open spec fn share_of<A: Arithmetic>(hits: int, n: int, r: Binary64) -> bool {
    exists|share: Binary64| #[trigger] ratio_of::<A>(hits, n, share) && r == share.clamped(zero(), one())
}

/// What is wrong with samples to fit.
pub open spec fn unfit(scores: Seq<Binary64>, outcomes: Seq<bool>) -> Option<Error> {
    if scores.len() != outcomes.len() {
        Some(
            Error::InvalidParameter {
                name: "outcomes",
                reason: Reason::Counts {
                    before: "",
                    first: scores.len() as usize,
                    between: " scores but ",
                    second: outcomes.len() as usize,
                    after: " outcomes",
                },
            },
        )
    } else if scores.len() == 0 {
        Some(
            Error::InvalidParameter { name: "scores", reason: Reason::Text("need at least one (score, outcome) pair") },
        )
    } else if !all_finite(scores) {
        Some(Error::InvalidParameter { name: "scores", reason: Reason::Text("must all be finite") })
    } else {
        None
    }
}

/// A map has one point per block: the mean score and the share of hits.
pub open spec fn maps_blocks<A: Arithmetic>(blocks: Seq<Block>, xs: Seq<Binary64>, ys: Seq<Binary64>) -> bool {
    &&& xs.len() == blocks.len()
    &&& ys.len() == blocks.len()
    &&& forall|j: int| 0 <= j < blocks.len() ==> mean_of::<A>((#[trigger] blocks[j]).sum_x, blocks[j].n as int, xs[j])
    &&& forall|j: int| 0 <= j < blocks.len() ==> share_of::<A>((#[trigger] blocks[j]).hits as int, blocks[j].n as int, ys[j])
}

/// A map is the isotonic regression of outcomes on scores.
pub open spec fn fits<A: Arithmetic>(
    scores: Seq<Binary64>,
    outcomes: Seq<bool>,
    xs: Seq<Binary64>,
    ys: Seq<Binary64>,
) -> bool {
    exists|groups: Seq<Group>, cuts: Seq<int>, blocks: Seq<Block>|
        grouped(scores, outcomes, groups) && inhabited(groups) && #[trigger] pooled::<A>(
            groups,
            groups.len() as int,
            cuts,
            blocks,
        ) && maps_blocks::<A>(blocks, xs, ys)
}

/// `r` is the value at `score` on the line through two points.
pub open spec fn interpolates<A: Arithmetic>(
    x0: Binary64,
    x1: Binary64,
    y0: Binary64,
    y1: Binary64,
    score: Binary64,
    r: Binary64,
) -> bool {
    exists|rise: Binary64, along: Binary64, product: Binary64, run: Binary64, step: Binary64|
        {
            &&& #[trigger] differs::<A>(y1, y0, rise)
            &&& #[trigger] differs::<A>(score, x0, along)
            &&& #[trigger] multiplies::<A>(rise, along, product)
            &&& #[trigger] differs::<A>(x1, x0, run)
            &&& #[trigger] divides::<A>(product, run, step)
            &&& sums::<A>(y0, step, r)
        }
}

impl Calibrator {
    /// Whether the map has points, and its ends are numbers.
    pub open spec fn usable(&self) -> bool {
        &&& self.xs@.len() > 0
        &&& self.ys@.len() >= self.xs@.len()
        &&& !self.xs@[0].nan()
        &&& !self.xs@.last().nan()
    }

    /// `r` is the probability that the map gives a score: that of the first or
    /// last point outside the fitted range; inside it that of a point at the
    /// score, or the value on the line between the neighbouring points.
    pub open spec fn gives<A: Arithmetic>(&self, score: Binary64, r: Binary64) -> bool {
        let (xs, ys) = (self.xs@, self.ys@);
        if score.at_most(xs[0]) {
            r == ys[0]
        } else if xs.last().at_most(score) {
            r == ys[xs.len() - 1]
        } else {
            exists|k: int|
                1 <= k < xs.len() && xs[k - 1].total_rank() < score.total_rank() <= (#[trigger] xs[k]).total_rank() && if xs[k]
                    == score {
                    r == ys[k]
                } else {
                    interpolates::<A>(xs[k - 1], xs[k], ys[k - 1], ys[k], score, r)
                }
        }
    }

    /// Fits *score → probability* by isotonic regression (pool adjacent
    /// violators) on paired raw `scores` and binary `outcomes`.
    pub fn fit_isotonic<A: Arithmetic>(scores: &[Binary64], outcomes: &[bool]) -> (r: Result<Calibrator, Error>)
        ensures
            match r {
                Ok(c) => unfit(scores@, outcomes@) is None && fits::<A>(scores@, outcomes@, c.xs@, c.ys@) && c.xs@.len()
                    > 0 && c.ys@.len() == c.xs@.len(),
                Err(e) => unfit(scores@, outcomes@) == Some(e),
            },
    {
        if scores.len() != outcomes.len() {
            return Err(
                Error::InvalidParameter {
                    name: "outcomes",
                    reason: Reason::Counts {
                        before: "",
                        first: scores.len(),
                        between: " scores but ",
                        second: outcomes.len(),
                        after: " outcomes",
                    },
                },
            );
        }
        if scores.len() == 0 {
            return Err(
                Error::InvalidParameter {
                    name: "scores",
                    reason: Reason::Text("need at least one (score, outcome) pair"),
                },
            );
        }
        if find_infinite(scores).is_some() {
            return Err(Error::InvalidParameter { name: "scores", reason: Reason::Text("must all be finite") });
        }
        let groups: Vec<Group> = group_samples(scores, outcomes);
        let blocks: Vec<Block> = pool::<A>(&groups);
        let mut xs: Vec<Binary64> = Vec::new();
        let mut ys: Vec<Binary64> = Vec::new();
        let mut j: usize = 0;
        while j < blocks.len()
            invariant
                j <= blocks@.len(),
                xs@.len() == j,
                ys@.len() == j,
                forall|k: int| 0 <= k < j ==> mean_of::<A>((#[trigger] blocks@[k]).sum_x, blocks@[k].n as int, xs@[k]),
                forall|k: int| 0 <= k < j ==> share_of::<A>((#[trigger] blocks@[k]).hits as int, blocks@[k].n as int, ys@[k]),
            decreases blocks@.len() - j,
        {
            let block: Block = blocks[j];
            let count: Binary64 = A::of_count(block.n as u64);
            let x: Binary64 = A::over(block.sum_x, count);
            let share: Binary64 = ratio::<A>(block.hits as u64, block.n as u64);
            assert(counts::<A>(block.n as int, count));
            assert(divides::<A>(block.sum_x, count, x));
            assert(ratio_of::<A>(block.hits as int, block.n as int, share));
            xs.push(x);
            ys.push(share.clamp(zero(), one()));
            j = j + 1;
        }
        proof {
            let cuts = choose|cuts: Seq<int>| pooled::<A>(groups@, groups@.len() as int, cuts, blocks@);
            assert(pooled::<A>(groups@, groups@.len() as int, cuts, blocks@));
            assert(maps_blocks::<A>(blocks@, xs@, ys@));
        }
        Ok(Calibrator { xs, ys })
    }

    /// Calibrated probability for a raw `score`: linear interpolation between
    /// block means, held at the fitted range outside it.
    pub fn probability<A: Arithmetic>(&self, score: Binary64) -> (r: Result<Binary64, Error>)
        requires
            score.finite() ==> self.usable(),
        ensures
            match r {
                Ok(p) => score.finite() && self.gives::<A>(score, p),
                Err(e) => !score.finite() && e == (Error::InvalidParameter {
                    name: "score",
                    reason: Reason::Value { before: "must be finite, got ", value: score, after: "" },
                }),
            },
    {
        if !score.is_finite() {
            return Err(
                Error::InvalidParameter {
                    name: "score",
                    reason: Reason::Value { before: "must be finite, got ", value: score, after: "" },
                },
            );
        }
        Ok(self.probability_finite::<A>(score))
    }

    /// Interpolation core.
    fn probability_finite<A: Arithmetic>(&self, score: Binary64) -> (r: Binary64)
        requires
            self.usable(),
            score.finite(),
        ensures
            self.gives::<A>(score, r),
    {
        let last: usize = self.xs.len() - 1;
        if score.not_above(self.xs[0]) {
            return self.ys[0];
        }
        if self.xs[last].not_above(score) {
            return self.ys[last];
        }
        let position: i64 = score.total_position();
        let mut low: usize = 0;
        let mut high: usize = last;
        while low + 1 < high
            invariant
                low < high <= last,
                last == self.xs@.len() - 1,
                position == score.total_rank(),
                self.xs@[low as int].total_rank() < position <= self.xs@[high as int].total_rank(),
            decreases high - low,
        {
            let mid: usize = low + (high - low) / 2;
            if self.xs[mid].total_position() < position {
                low = mid;
            } else {
                high = mid;
            }
        }
        let (x0, x1, y0, y1) = (self.xs[high - 1], self.xs[high], self.ys[high - 1], self.ys[high]);
        if x1 == score {
            assert(self.xs@[high as int] == score);
            return y1;
        }
        let rise: Binary64 = A::minus(y1, y0);
        let along: Binary64 = A::minus(score, x0);
        let product: Binary64 = A::times(rise, along);
        let run: Binary64 = A::minus(x1, x0);
        let step: Binary64 = A::over(product, run);
        let r: Binary64 = A::plus(y0, step);
        proof {
            assert(differs::<A>(y1, y0, rise));
            assert(differs::<A>(score, x0, along));
            assert(multiplies::<A>(rise, along, product));
            assert(differs::<A>(x1, x0, run));
            assert(divides::<A>(product, run, step));
            assert(sums::<A>(y0, step, r));
            assert(interpolates::<A>(x0, x1, y0, y1, score, r));
            assert(self.xs@[high as int] == x1);
        }
        r
    }

    /// Calibrates a list of raw scores into probabilities.
    pub fn calibrate<A: Arithmetic>(&self, scores: &[Binary64]) -> (r: Result<Vec<Binary64>, Error>)
        requires
            all_finite(scores@) && scores@.len() > 0 ==> self.usable(),
        ensures
            match r {
                Ok(ps) => all_finite(scores@) && ps@.len() == scores@.len() && forall|i: int|
                    0 <= i < ps@.len() ==> self.gives::<A>(scores@[i], #[trigger] ps@[i]),
                Err(e) => exists|i: int| #[trigger]
                    first_infinite(scores@, i) && e == (Error::InvalidParameter {
                        name: "scores",
                        reason: Reason::Value { before: "must all be finite, got ", value: scores@[i], after: "" },
                    }),
            },
    {
        match find_infinite(scores) {
            Some(i) => {
                assert(first_infinite(scores@, i as int));
                Err(
                    Error::InvalidParameter {
                        name: "scores",
                        reason: Reason::Value { before: "must all be finite, got ", value: scores[i], after: "" },
                    },
                )
            },
            None => {
                let mut ps: Vec<Binary64> = Vec::new();
                let mut i: usize = 0;
                while i < scores.len()
                    invariant
                        i <= scores@.len(),
                        scores@.len() > 0 ==> self.usable(),
                        all_finite(scores@),
                        ps@.len() == i,
                        forall|k: int| 0 <= k < i ==> self.gives::<A>(scores@[k], #[trigger] ps@[k]),
                    decreases scores@.len() - i,
                {
                    ps.push(self.probability_finite::<A>(scores[i]));
                    i = i + 1;
                }
                Ok(ps)
            },
        }
    }
}

/// Whether no value is above its successor.
pub open spec fn non_decreasing(values: Seq<Binary64>) -> bool {
    forall|i: int| 0 <= i < values.len() - 1 ==> !(#[trigger] values[i + 1]).less(values[i])
}

/// Whether all values lie within `[0, 1]`.
pub open spec fn all_unit(values: Seq<Binary64>) -> bool {
    forall|i: int| 0 <= i < values.len() ==> (#[trigger] values[i]).unit()
}

/// What is wrong with the points of a map.
pub open spec fn invalid_map(xs: Seq<Binary64>, ys: Seq<Binary64>) -> Option<Error> {
    if xs.len() != ys.len() {
        Some(
            Error::InvalidParameter {
                name: "calibrator",
                reason: Reason::Counts {
                    before: "",
                    first: xs.len() as usize,
                    between: " score blocks but ",
                    second: ys.len() as usize,
                    after: " probability blocks",
                },
            },
        )
    } else if xs.len() == 0 {
        Some(
            Error::InvalidParameter {
                name: "calibrator",
                reason: Reason::Text("must have at least one calibration block"),
            },
        )
    } else if !all_finite(xs) || !all_finite(ys) {
        Some(
            Error::InvalidParameter {
                name: "calibrator",
                reason: Reason::Text("scores and probabilities must be finite"),
            },
        )
    } else if !all_unit(ys) {
        Some(
            Error::InvalidParameter { name: "calibrator", reason: Reason::Text("probabilities must be within [0, 1]") },
        )
    } else if !non_decreasing(xs) {
        Some(Error::InvalidParameter { name: "calibrator", reason: Reason::Text("scores must be non-decreasing") })
    } else if !non_decreasing(ys) {
        Some(
            Error::InvalidParameter {
                name: "calibrator",
                reason: Reason::Text("probabilities must be non-decreasing (isotonic)"),
            },
        )
    } else {
        None
    }
}

fn is_non_decreasing(values: &[Binary64]) -> (r: bool)
    ensures
        r == non_decreasing(values@),
{
    let mut i: usize = 1;
    while i < values.len()
        invariant
            1 <= i,
            values@.len() > 0 ==> i <= values@.len(),
            forall|j: int| 0 <= j < i - 1 ==> !(#[trigger] values@[j + 1]).less(values@[j]),
        decreases values@.len() - i,
    {
        if values[i].below(values[i - 1]) {
            assert(values@[i - 1 + 1].less(values@[i - 1]));
            return false;
        }
        i = i + 1;
    }
    true
}

fn calibrator_error(text: &'static str) -> (r: Error)
    ensures
        r == (Error::InvalidParameter { name: "calibrator", reason: Reason::Text(text) }),
{
    Error::InvalidParameter { name: "calibrator", reason: Reason::Text(text) }
}

impl Calibrator {
    /// Checks what a fitted map satisfies and an untrusted one may not: points at
    /// all, as many probabilities as scores, all finite, probabilities within
    /// `[0, 1]`, and both non-decreasing.
    pub fn validate(&self) -> (r: Result<(), Error>)
        ensures
            match r {
                Ok(_) => invalid_map(self.xs@, self.ys@) is None && self.usable(),
                Err(e) => invalid_map(self.xs@, self.ys@) == Some(e),
            },
    {
        if self.xs.len() != self.ys.len() {
            return Err(
                Error::InvalidParameter {
                    name: "calibrator",
                    reason: Reason::Counts {
                        before: "",
                        first: self.xs.len(),
                        between: " score blocks but ",
                        second: self.ys.len(),
                        after: " probability blocks",
                    },
                },
            );
        }
        if self.xs.len() == 0 {
            return Err(calibrator_error("must have at least one calibration block"));
        }
        if find_infinite(self.xs.as_slice()).is_some() || find_infinite(self.ys.as_slice()).is_some() {
            return Err(calibrator_error("scores and probabilities must be finite"));
        }
        if find_outside_unit(self.ys.as_slice()).is_some() {
            return Err(calibrator_error("probabilities must be within [0, 1]"));
        }
        if !is_non_decreasing(self.xs.as_slice()) {
            return Err(calibrator_error("scores must be non-decreasing"));
        }
        if !is_non_decreasing(self.ys.as_slice()) {
            return Err(calibrator_error("probabilities must be non-decreasing (isotonic)"));
        }
        Ok(())
    }
}

/// A list of indices is a rearrangement of all of them.
pub open spec fn rearranges(order: Seq<int>, n: nat) -> bool {
    &&& order.len() == n
    &&& order.no_duplicates()
    &&& order.to_set() == set_int_range(0, n as int)
}

/// A rearrangement of the samples has as many of each kind.
proof fn lemma_rearranged_count(order: Seq<int>, n: nat, p: spec_fn(int) -> bool)
    requires
        rearranges(order, n),
    ensures
        set_int_range(0, n as int).filter(|i: int| p(order[i])).len() == set_int_range(0, n as int).filter(p).len(),
{
    let all = set_int_range(0, n as int);
    let part = all.filter(|i: int| p(order[i]));
    let f = |i: int| order[i];
    vstd::set_lib::lemma_int_range(0, n as int);
    all.lemma_len_filter(|i: int| p(order[i]));
    assert forall|j: int| all.filter(p).contains(j) <==> part.map(f).contains(j) by {
        if all.filter(p).contains(j) {
            assert(order.to_set().contains(j));
            let i = choose|i: int| 0 <= i < n && order[i] == j;
            assert(part.contains(i) && f(i) == j);
        }
        if part.map(f).contains(j) {
            let i = choose|i: int| part.contains(i) && f(i) == j;
            assert(order.to_set().contains(order[i]));
        }
    }
    assert(all.filter(p) == part.map(f));
    assert forall|i: int, j: int| part.contains(i) && part.contains(j) && #[trigger] f(i) == #[trigger] f(j) implies i
        == j by {
        assert(order[i] == order[j]);
    }
    vstd::set_lib::lemma_map_size(part, part.map(f), f);
}

/// Groups of samples are groups of the rearranged samples.
proof fn lemma_groups_rearranged(
    scores: Seq<Binary64>,
    outcomes: Seq<bool>,
    order: Seq<int>,
    groups: Seq<Group>,
)
    requires
        scores.len() == outcomes.len(),
        rearranges(order, scores.len()),
        grouped(scores, outcomes, groups),
    ensures
        grouped(
            Seq::new(scores.len(), |i: int| scores[order[i]]),
            Seq::new(scores.len(), |i: int| outcomes[order[i]]),
            groups,
        ),
{
    let n = scores.len();
    let t = Seq::new(n, |i: int| scores[order[i]]);
    let o = Seq::new(n, |i: int| outcomes[order[i]]);
    let all = set_int_range(0, n as int);
    assert forall|i: int| 0 <= i < n implies 0 <= #[trigger] order[i] < n by {
        assert(order.to_set().contains(order[i]));
    }
    assert forall|g: int| 0 <= g < groups.len() implies counts_samples(t, o, #[trigger] groups[g]) by {
        let group = groups[g];
        let rank = group.x.rank();
        assert(counts_samples(scores, outcomes, group));
        let p = |i: int| scores[i].rank() == rank;
        let q = |i: int| scores[i].rank() == rank && outcomes[i];
        lemma_rearranged_count(order, n, p);
        lemma_rearranged_count(order, n, q);
        assert(samples_at(t, rank) == all.filter(|i: int| p(order[i])));
        assert(hits_at(t, o, rank) == all.filter(|i: int| q(order[i])));
        assert(samples_at(scores, rank) == all.filter(p));
        assert(hits_at(scores, outcomes, rank) == all.filter(q));
        let j = choose|j: int| 0 <= j < n && scores[j] == group.x;
        assert(order.to_set().contains(j));
        let i = choose|i: int| 0 <= i < n && order[i] == j;
        assert(t[i] == group.x);
    }
    assert forall|i: int| 0 <= i < n implies #[trigger] ranks_of(groups).contains(t[i].rank()) by {
        assert(ranks_of(groups).contains(scores[order[i]].rank()));
    }
}

/// A fit does not depend on the order in which the samples arrive: fitting
/// rearranged samples gives the same map.
pub proof fn lemma_fit_ignores_order<A: Arithmetic>(
    scores: Seq<Binary64>,
    outcomes: Seq<bool>,
    order: Seq<int>,
    xs: Seq<Binary64>,
    ys: Seq<Binary64>,
    us: Seq<Binary64>,
    vs: Seq<Binary64>,
)
    requires
        deterministic::<A>(),
        scores.len() == outcomes.len(),
        rearranges(order, scores.len()),
        fits::<A>(scores, outcomes, xs, ys),
        fits::<A>(
            Seq::new(scores.len(), |i: int| scores[order[i]]),
            Seq::new(scores.len(), |i: int| outcomes[order[i]]),
            us,
            vs,
        ),
    ensures
        xs == us,
        ys == vs,
{
    let t = Seq::new(scores.len(), |i: int| scores[order[i]]);
    let o = Seq::new(scores.len(), |i: int| outcomes[order[i]]);
    let (g, c, b) = choose|groups: Seq<Group>, cuts: Seq<int>, blocks: Seq<Block>|
        grouped(scores, outcomes, groups) && inhabited(groups) && #[trigger] pooled::<A>(
            groups,
            groups.len() as int,
            cuts,
            blocks,
        ) && maps_blocks::<A>(blocks, xs, ys);
    let (h, d, e) = choose|groups: Seq<Group>, cuts: Seq<int>, blocks: Seq<Block>|
        grouped(t, o, groups) && inhabited(groups) && #[trigger] pooled::<A>(
            groups,
            groups.len() as int,
            cuts,
            blocks,
        ) && maps_blocks::<A>(blocks, us, vs);
    lemma_groups_rearranged(scores, outcomes, order, g);
    lemma_groups_are_unique(t, o, g, h);
    let n = g.len() as int;
    lemma_blocks_are_unique(g, 0, n, c, d);
    assert forall|j: int| 0 <= j < b.len() implies b[j] == e[j] by {
        assert(sums_up::<A>(g, c[j], c[j + 1], b[j]));
        assert(sums_up::<A>(g, d[j], d[j + 1], e[j]));
        lemma_cuts_ascend(g, 0, n, c, j, j + 1);
        lemma_weighted_sum_unique::<A>(g, c[j], c[j + 1], b[j].sum_x, e[j].sum_x);
    }
    assert(b == e);
    assert forall|j: int| 0 <= j < b.len() implies xs[j] == us[j] && ys[j] == vs[j] by {
        let (sum, hits, size) = (b[j].sum_x, b[j].hits as int, b[j].n as int);
        assert(mean_of::<A>(b[j].sum_x, b[j].n as int, xs[j]));
        assert(mean_of::<A>(e[j].sum_x, e[j].n as int, us[j]));
        let x = choose|x: Binary64| #[trigger] counts::<A>(size, x) && divides::<A>(sum, x, xs[j]);
        let y = choose|y: Binary64| #[trigger] counts::<A>(size, y) && divides::<A>(sum, y, us[j]);
        assert(share_of::<A>(b[j].hits as int, b[j].n as int, ys[j]));
        assert(share_of::<A>(e[j].hits as int, e[j].n as int, vs[j]));
        let p = choose|p: Binary64| #[trigger] ratio_of::<A>(hits, size, p) && ys[j] == p.clamped(zero(), one());
        let q = choose|q: Binary64| #[trigger] ratio_of::<A>(hits, size, q) && vs[j] == q.clamped(zero(), one());
        let (p1, p2) = choose|a: Binary64, b: Binary64| #[trigger]
            counts::<A>(hits, a) && #[trigger] counts::<A>(size, b) && divides::<A>(a, b, p);
        let (q1, q2) = choose|a: Binary64, b: Binary64| #[trigger]
            counts::<A>(hits, a) && #[trigger] counts::<A>(size, b) && divides::<A>(a, b, q);
        assert(p1 == q1 && p2 == q2);
    }
}

/// Up to here every count is a value of the format, `2^53`.
pub open spec fn exact_counts() -> int {
    0x20_0000_0000_0000
}

/// Quotients of exact counts are ordered like the shares that they stand for.
proof fn lemma_shares_in_order<A: Arithmetic>(h: int, n: int, k: int, m: int, p: Binary64, q: Binary64)
    requires
        rounds_closely::<A>(),
        orders_quotients::<A>(),
        ratio_of::<A>(h, n, p),
        ratio_of::<A>(k, m, q),
        0 <= h <= exact_counts(),
        0 < n <= exact_counts(),
        0 <= k <= exact_counts(),
        0 < m <= exact_counts(),
        h * m <= k * n,
    ensures
        p.at_most(q),
{
    let (a, b) = choose|x: Binary64, y: Binary64| #[trigger]
        counts::<A>(h, x) && #[trigger] counts::<A>(n, y) && divides::<A>(x, y, p);
    let (c, d) = choose|x: Binary64, y: Binary64| #[trigger]
        counts::<A>(k, x) && #[trigger] counts::<A>(m, y) && divides::<A>(x, y, q);
    assert((h as real) * (m as real) == (h * m) as real && (k as real) * (n as real) == (k * n) as real)
        by (nonlinear_arith);
}

/// A fitted map is isotonic: it has points, as many probabilities as scores, and
/// its probabilities lie within `[0, 1]` and do not decrease from point to point.
pub proof fn lemma_fit_is_isotonic<A: Arithmetic>(
    scores: Seq<Binary64>,
    outcomes: Seq<bool>,
    xs: Seq<Binary64>,
    ys: Seq<Binary64>,
)
    requires
        orders_quotients::<A>(),
        rounds_closely::<A>(),
        unfit(scores, outcomes) is None,
        scores.len() <= exact_counts(),
        fits::<A>(scores, outcomes, xs, ys),
    ensures
        xs.len() == ys.len(),
        xs.len() > 0,
        all_finite(ys),
        all_unit(ys),
        non_decreasing(ys),
{
    let (g, c, b) = choose|groups: Seq<Group>, cuts: Seq<int>, blocks: Seq<Block>|
        grouped(scores, outcomes, groups) && inhabited(groups) && #[trigger] pooled::<A>(
            groups,
            groups.len() as int,
            cuts,
            blocks,
        ) && maps_blocks::<A>(blocks, xs, ys);
    let n = g.len() as int;
    assert(ranks_of(g).contains(scores[0].rank()));
    assert forall|j: int| 0 <= j < b.len() implies 0 < b[j].n <= exact_counts() && 0 <= b[j].hits <= exact_counts()
        && b[j].n == size(g, c[j + 1]) - size(g, c[j]) && b[j].hits == positives(g, c[j + 1]) - positives(
        g,
        #[trigger] c[j],
    ) by {
        assert(sums_up::<A>(g, c[j], c[j + 1], b[j]));
        lemma_cuts_ascend(g, 0, n, c, j, j + 1);
        lemma_size_increases(g, c[j], c[j + 1]);
        lemma_group_totals(scores, outcomes, g, c[j]);
        lemma_group_totals(scores, outcomes, g, c[j + 1]);
    }
    assert forall|j: int| 0 <= j < ys.len() implies (#[trigger] ys[j]).unit() by {
        let (hits, all) = (b[j].hits as int, b[j].n as int);
        assert(b[j].n == size(g, c[j + 1]) - size(g, c[j]));
        assert(share_of::<A>(b[j].hits as int, b[j].n as int, ys[j]));
        let p = choose|p: Binary64| #[trigger] ratio_of::<A>(hits, all, p) && ys[j] == p.clamped(zero(), one());
        lemma_shares_in_order::<A>(hits, all, hits, all, p, p);
    }
    assert forall|j: int| 0 <= j < ys.len() implies (#[trigger] ys[j]).finite() by {
        assert(ys[j].unit());
    }
    assert forall|j: int| 0 <= j < ys.len() - 1 implies !(#[trigger] ys[j + 1]).less(ys[j]) by {
        let (h, s) = (b[j].hits as int, b[j].n as int);
        let (k, t) = (b[j + 1].hits as int, b[j + 1].n as int);
        assert(b[j].n == size(g, c[j + 1]) - size(g, c[j]));
        assert(b[j + 1].n == size(g, c[j + 1 + 1]) - size(g, c[j + 1]));
        assert(!lower_share(g, c[j + 1], c[j + 1 + 1], c[j + 1 - 1], c[j + 1]));
        assert(share_of::<A>(b[j].hits as int, b[j].n as int, ys[j]));
        assert(share_of::<A>(b[j + 1].hits as int, b[j + 1].n as int, ys[j + 1]));
        let p = choose|p: Binary64| #[trigger] ratio_of::<A>(h, s, p) && ys[j] == p.clamped(zero(), one());
        let q = choose|q: Binary64| #[trigger] ratio_of::<A>(k, t, q) && ys[j + 1] == q.clamped(zero(), one());
        assert(h * t <= k * s);
        lemma_shares_in_order::<A>(h, s, k, t, p, q);
    }
}

/// A score has one probability: on points in ascending total order, equal scores
/// are given equal probabilities.
pub proof fn lemma_probability_is_determined<A: Arithmetic>(
    calibrator: Calibrator,
    score: Binary64,
    p: Binary64,
    q: Binary64,
)
    requires
        deterministic::<A>(),
        forall|i: int, j: int|
            0 <= i <= j < calibrator.xs@.len() ==> (#[trigger] calibrator.xs@[i]).total_rank() <= (#[trigger]
            calibrator.xs@[j]).total_rank(),
        calibrator.gives::<A>(score, p),
        calibrator.gives::<A>(score, q),
    ensures
        p == q,
{
    let (xs, ys) = (calibrator.xs@, calibrator.ys@);
    if !score.at_most(xs[0]) && !xs.last().at_most(score) {
        let k = choose|k: int|
            1 <= k < xs.len() && xs[k - 1].total_rank() < score.total_rank() <= (#[trigger] xs[k]).total_rank() && if xs[k]
                == score {
                p == ys[k]
            } else {
                interpolates::<A>(xs[k - 1], xs[k], ys[k - 1], ys[k], score, p)
            };
        let l = choose|l: int|
            1 <= l < xs.len() && xs[l - 1].total_rank() < score.total_rank() <= (#[trigger] xs[l]).total_rank() && if xs[l]
                == score {
                q == ys[l]
            } else {
                interpolates::<A>(xs[l - 1], xs[l], ys[l - 1], ys[l], score, q)
            };
        if k < l {
            assert(xs[k].total_rank() <= xs[l - 1].total_rank());
        }
        if l < k {
            assert(xs[l].total_rank() <= xs[k - 1].total_rank());
        }
    }
}

/// Whether a score is so small that as many such scores as there are samples add
/// up to no more than `2^999` in size.
pub open spec fn summable(x: Binary64, samples: nat) -> bool {
    x.finite() && 2real * (absolute(x.number()) * (samples as real)) <= pow2(1000) as real
}

/// Whether all scores can be summed.
pub open spec fn all_summable(scores: Seq<Binary64>) -> bool {
    forall|i: int| 0 <= i < scores.len() ==> summable(#[trigger] scores[i], scores.len())
}

/// Whether the scores where neighbouring blocks meet lie further apart than the
/// means of the two blocks can move.
pub open spec fn blocks_apart(groups: Seq<Group>, cuts: Seq<int>) -> bool {
    forall|j: int|
        0 < j < cuts.len() - 1 ==> groups[#[trigger] cuts[j]].x.number() - groups[cuts[j] - 1].x.number() > margin_of(
            groups,
            cuts[j - 1],
            cuts[j],
        ) + margin_of(groups, cuts[j], cuts[j + 1])
}

/// Whether the blocks of an isotonic regression lie further apart than rounding
/// can move their means. Samples have one grouping and one division into blocks.
pub open spec fn spread_out(scores: Seq<Binary64>, outcomes: Seq<bool>) -> bool {
    forall|groups: Seq<Group>, cuts: Seq<int>|
        grouped(scores, outcomes, groups) && inhabited(groups) && #[trigger] isotonic(
            groups,
            0,
            groups.len() as int,
            cuts,
        ) ==> blocks_apart(groups, cuts)
}

/// Whether all values are of moderate size.
pub open spec fn all_moderate(values: Seq<Binary64>) -> bool {
    forall|i: int| 0 <= i < values.len() ==> moderate(#[trigger] values[i])
}

/// Whether the scores of points ascend.
pub open spec fn ascending_points(xs: Seq<Binary64>) -> bool {
    forall|i: int, j: int| 0 <= i < j < xs.len() ==> (#[trigger] xs[i]).rank() < (#[trigger] xs[j]).rank()
}

/// Groups of scores that can be summed ascend, and can be summed themselves.
proof fn lemma_groups_summable(scores: Seq<Binary64>, outcomes: Seq<bool>, groups: Seq<Group>)
    requires
        all_summable(scores),
        grouped(scores, outcomes, groups),
    ensures
        forall|k: int| 0 <= k < groups.len() ==> summable((#[trigger] groups[k]).x, scores.len()),
        forall|i: int, j: int|
            0 <= i <= j < groups.len() ==> (#[trigger] groups[i]).x.number() <= (#[trigger] groups[j]).x.number(),
{
    assert forall|k: int| 0 <= k < groups.len() implies summable((#[trigger] groups[k]).x, scores.len()) by {
        assert(counts_samples(scores, outcomes, groups[k]));
        let i = choose|i: int| 0 <= i < scores.len() && scores[i] == groups[k].x;
        assert(summable(scores[i], scores.len()));
    }
    assert forall|i: int, j: int| 0 <= i <= j < groups.len() implies (#[trigger] groups[i]).x.number() <= (#[trigger]
    groups[j]).x.number() by {
        lemma_rank_orders_numbers(groups[j].x, groups[i].x);
        if i < j {
            assert(groups[i].x.rank() < groups[j].x.rank());
        }
    }
}

/// The score of a point lies near the scores of its block.
proof fn lemma_point_near<A: Arithmetic>(
    scores: Seq<Binary64>,
    outcomes: Seq<bool>,
    groups: Seq<Group>,
    cuts: Seq<int>,
    blocks: Seq<Block>,
    xs: Seq<Binary64>,
    ys: Seq<Binary64>,
    j: int,
)
    requires
        rounds_closely::<A>(),
        scores.len() <= countable(),
        all_summable(scores),
        grouped(scores, outcomes, groups),
        inhabited(groups),
        pooled::<A>(groups, groups.len() as int, cuts, blocks),
        maps_blocks::<A>(blocks, xs, ys),
        0 <= j < xs.len(),
    ensures
        0 <= cuts[j] < cuts[j + 1] <= groups.len(),
        moderate(xs[j]),
        groups[cuts[j]].x.number() - margin_of(groups, cuts[j], cuts[j + 1]) <= xs[j].number(),
        xs[j].number() <= groups[cuts[j + 1] - 1].x.number() + margin_of(groups, cuts[j], cuts[j + 1]),
{
    let n = groups.len() as int;
    let (a, b) = (cuts[j], cuts[j + 1]);
    assert(sums_up::<A>(groups, a, b, blocks[j]));
    lemma_cuts_ascend(groups, 0, n, cuts, j, j + 1);
    lemma_size_at_least(groups, 0, a);
    lemma_group_totals(scores, outcomes, groups, a);
    lemma_group_totals(scores, outcomes, groups, b);
    lemma_groups_summable(scores, outcomes, groups);
    assert(mean_of::<A>(blocks[j].sum_x, blocks[j].n as int, xs[j]));
    let count = choose|c: Binary64| #[trigger]
        counts::<A>(blocks[j].n as int, c) && divides::<A>(blocks[j].sum_x, c, xs[j]);
    assert(summable(groups[a].x, scores.len()) && summable(groups[b - 1].x, scores.len()));
    let top = largest(groups, a, b);
    assert forall|g: int| a <= g < b implies absolute((#[trigger] groups[g]).x.number()) <= top by {
        assert(groups[a].x.number() <= groups[g].x.number() <= groups[b - 1].x.number());
    }
    lemma_bulk_bounded(groups, a, b, top, scores.len() as real);
    lemma_mean_near::<A>(groups, a, b, blocks[j].sum_x, count, xs[j]);
}

/// The points of a fit ascend.
proof fn lemma_points_ascend<A: Arithmetic>(
    scores: Seq<Binary64>,
    outcomes: Seq<bool>,
    groups: Seq<Group>,
    cuts: Seq<int>,
    blocks: Seq<Block>,
    xs: Seq<Binary64>,
    ys: Seq<Binary64>,
    i: int,
    j: int,
)
    requires
        rounds_closely::<A>(),
        scores.len() <= countable(),
        all_summable(scores),
        blocks_apart(groups, cuts),
        grouped(scores, outcomes, groups),
        inhabited(groups),
        pooled::<A>(groups, groups.len() as int, cuts, blocks),
        maps_blocks::<A>(blocks, xs, ys),
        0 <= i < j < xs.len(),
    ensures
        xs[i].rank() < xs[j].rank(),
    decreases j - i,
{
    let (low, high) = (margin_of(groups, cuts[j - 1], cuts[j]), margin_of(groups, cuts[j], cuts[j + 1]));
    assert(xs[j - 1].number() <= groups[cuts[j] - 1].x.number() + low) by {
        lemma_point_near::<A>(scores, outcomes, groups, cuts, blocks, xs, ys, j - 1);
    }
    assert(groups[cuts[j]].x.number() - high <= xs[j].number()) by {
        lemma_point_near::<A>(scores, outcomes, groups, cuts, blocks, xs, ys, j);
    }
    assert(groups[cuts[j]].x.number() - groups[cuts[j] - 1].x.number() > low + high);
    assert(xs[j - 1].number() < xs[j].number());
    lemma_rank_orders_numbers(xs[j - 1], xs[j]);
    if i < j - 1 {
        lemma_points_ascend::<A>(scores, outcomes, groups, cuts, blocks, xs, ys, i, j - 1);
    }
}

/// A fitted map is valid, and its points ascend: what a fit gives passes
/// [`validate`](Calibrator::validate), wherever no two blocks are so close that
/// rounding can swap their means.
pub proof fn lemma_fit_is_valid<A: Arithmetic>(
    scores: Seq<Binary64>,
    outcomes: Seq<bool>,
    xs: Seq<Binary64>,
    ys: Seq<Binary64>,
)
    requires
        orders_quotients::<A>(),
        rounds_closely::<A>(),
        unfit(scores, outcomes) is None,
        scores.len() <= countable(),
        all_summable(scores),
        spread_out(scores, outcomes),
        fits::<A>(scores, outcomes, xs, ys),
    ensures
        invalid_map(xs, ys) is None,
        all_moderate(xs),
        ascending_points(xs),
{
    lemma_fit_is_isotonic::<A>(scores, outcomes, xs, ys);
    let (g, c, b) = choose|groups: Seq<Group>, cuts: Seq<int>, blocks: Seq<Block>|
        grouped(scores, outcomes, groups) && inhabited(groups) && #[trigger] pooled::<A>(
            groups,
            groups.len() as int,
            cuts,
            blocks,
        ) && maps_blocks::<A>(blocks, xs, ys);
    assert(isotonic(g, 0, g.len() as int, c));
    assert forall|j: int| 0 <= j < xs.len() implies moderate(#[trigger] xs[j]) by {
        lemma_point_near::<A>(scores, outcomes, g, c, b, xs, ys, j);
    }
    assert forall|j: int| 0 <= j < xs.len() implies (#[trigger] xs[j]).finite() by {
        assert(moderate(xs[j]));
    }
    assert forall|i: int, j: int| 0 <= i < j < xs.len() implies (#[trigger] xs[i]).rank() < (#[trigger] xs[j]).rank() by {
        lemma_points_ascend::<A>(scores, outcomes, g, c, b, xs, ys, i, j);
    }
    assert forall|j: int| 0 <= j < xs.len() - 1 implies !(#[trigger] xs[j + 1]).less(xs[j]) by {
        assert(xs[j].rank() < xs[j + 1].rank());
    }
}

/// A line between two points of a map that goes up or stays level.
pub open spec fn rises(x0: Binary64, x1: Binary64, y0: Binary64, y1: Binary64) -> bool {
    moderate(x0) && moderate(x1) && x0.less(x1) && y0.unit() && y1.unit() && y0.at_most(y1)
}

/// The value on a line is not below the left end, and not above the right end but
/// for a hair.
proof fn lemma_line_between_ends<A: Arithmetic>(
    x0: Binary64,
    x1: Binary64,
    y0: Binary64,
    y1: Binary64,
    score: Binary64,
    r: Binary64,
)
    requires
        orders_lines::<A>(),
        rises(x0, x1, y0, y1),
        x0.at_most(score),
        score.at_most(x1),
        interpolates::<A>(x0, x1, y0, y1, score, r),
    ensures
        y0.at_most(r),
        rounds_closely::<A>() && x1.number() - x0.number() >= 2real * dust() ==> r.finite() && r.number() <= y1.number()
            + hair(),
{
    let (rise, along, product, run, step) = choose|
        rise: Binary64,
        along: Binary64,
        product: Binary64,
        run: Binary64,
        step: Binary64,
    |
        {
            &&& #[trigger] differs::<A>(y1, y0, rise)
            &&& #[trigger] differs::<A>(score, x0, along)
            &&& #[trigger] multiplies::<A>(rise, along, product)
            &&& #[trigger] differs::<A>(x1, x0, run)
            &&& #[trigger] divides::<A>(product, run, step)
            &&& sums::<A>(y0, step, r)
        };
    lemma_line_is_moderate(x0, x1, y0, y1, score);
    assert(zero().at_most(rise) && rise.finite());
    assert(zero().at_most(along) && along.finite());
    assert(run.positive_finite());
    assert(along.at_most(along) && product.at_most(product) && step.at_most(step)) by {
        assert(multiplies::<A>(rise, along, product) && multiplies::<A>(rise, along, product));
        assert(zero().at_most(product));
        assert(divides::<A>(product, run, step) && divides::<A>(product, run, step));
    }
    assert(zero().at_most(step));
    assert(sums::<A>(y0, step, r) && sums::<A>(y0, step, r));
    if rounds_closely::<A>() && x1.number() - x0.number() >= 2real * dust() {
        assert(along.at_most(run)) by {
            assert(differs::<A>(score, x0, along) && differs::<A>(x1, x0, run));
        }
        lemma_line_errs_little::<A>(x0, x1, y0, y1, rise, along, product, run, step, r);
    }
}

/// The errors of the operations on a line add up to less than a hair.
proof fn lemma_line_errs_little<A: Arithmetic>(
    x0: Binary64,
    x1: Binary64,
    y0: Binary64,
    y1: Binary64,
    rise: Binary64,
    along: Binary64,
    product: Binary64,
    run: Binary64,
    step: Binary64,
    r: Binary64,
)
    requires
        rounds_closely::<A>(),
        rises(x0, x1, y0, y1),
        x1.number() - x0.number() >= 2real * dust(),
        differs::<A>(y1, y0, rise),
        multiplies::<A>(rise, along, product),
        differs::<A>(x1, x0, run),
        divides::<A>(product, run, step),
        sums::<A>(y0, step, r),
        zero().at_most(rise),
        zero().at_most(along),
        along.finite(),
        along.at_most(run),
        zero().at_most(product),
    ensures
        r.finite(),
        r.number() <= y1.number() + hair(),
{
    lemma_scales();
    lemma_small_numbers();
    lemma_unit_number(y0);
    lemma_unit_number(y1);
    lemma_rank_orders_numbers(y0, y1);
    lemma_rank_orders_numbers(zero(), rise);
    lemma_rank_orders_numbers(zero(), along);
    lemma_rank_orders_numbers(zero(), product);
    lemma_rank_orders_numbers(along, run);
    let (a, m, n, p) = (rise.number(), along.number(), run.number(), product.number());
    assert(rounds_to(y1.number() - y0.number(), rise));
    assert(rounds_to(x1.number() - x0.number(), run));
    let am = a * m;
    let an = a * n;
    assert(0real <= am <= an && an <= 2real * n) by (nonlinear_arith)
        requires
            am == a * m,
            an == a * n,
            0real <= a <= 2real,
            0real <= m <= n,
    ;
    assert(rounds_to(am, product));
    let w = p / n;
    let most = a + ulp(a) + ulp(1real) / 0x40_0000real;
    assert(0real <= w && w <= most) by (nonlinear_arith)
        requires
            w == p / n,
            n > 0real,
            0real <= p,
            p <= an + an / 0x10_0000_0000_0000real + n / 0x10_0000_0000_0000real / 0x40_0000real,
            an == a * n,
            most == a + a / 0x10_0000_0000_0000real + 1real / 0x10_0000_0000_0000real / 0x40_0000real,
    ;
    assert(rounds_to(w, step));
    assert(rounds_to(y0.number() + step.number(), r));
}

/// All values that a line is made of are moderate.
proof fn lemma_line_is_moderate(x0: Binary64, x1: Binary64, y0: Binary64, y1: Binary64, score: Binary64)
    requires
        rises(x0, x1, y0, y1),
        x0.at_most(score),
        score.at_most(x1),
    ensures
        moderate(score),
        moderate(y0),
        moderate(y1),
{
    lemma_scales();
    lemma_rank_orders_numbers(score, x0);
    lemma_rank_orders_numbers(score, x1);
    lemma_unit_number(y0);
    lemma_unit_number(y1);
}

/// Further along a line the value is not lower.
proof fn lemma_line_in_order<A: Arithmetic>(
    x0: Binary64,
    x1: Binary64,
    y0: Binary64,
    y1: Binary64,
    s: Binary64,
    t: Binary64,
    r: Binary64,
    q: Binary64,
)
    requires
        deterministic::<A>(),
        orders_lines::<A>(),
        rises(x0, x1, y0, y1),
        x0.at_most(s),
        s.at_most(t),
        t.at_most(x1),
        interpolates::<A>(x0, x1, y0, y1, s, r),
        interpolates::<A>(x0, x1, y0, y1, t, q),
    ensures
        r.at_most(q),
{
    let (u1, a1, p1, n1, s1) = choose|
        rise: Binary64,
        along: Binary64,
        product: Binary64,
        run: Binary64,
        step: Binary64,
    |
        {
            &&& #[trigger] differs::<A>(y1, y0, rise)
            &&& #[trigger] differs::<A>(s, x0, along)
            &&& #[trigger] multiplies::<A>(rise, along, product)
            &&& #[trigger] differs::<A>(x1, x0, run)
            &&& #[trigger] divides::<A>(product, run, step)
            &&& sums::<A>(y0, step, r)
        };
    let (u2, a2, p2, n2, s2) = choose|
        rise: Binary64,
        along: Binary64,
        product: Binary64,
        run: Binary64,
        step: Binary64,
    |
        {
            &&& #[trigger] differs::<A>(y1, y0, rise)
            &&& #[trigger] differs::<A>(t, x0, along)
            &&& #[trigger] multiplies::<A>(rise, along, product)
            &&& #[trigger] differs::<A>(x1, x0, run)
            &&& #[trigger] divides::<A>(product, run, step)
            &&& sums::<A>(y0, step, q)
        };
    lemma_line_is_moderate(x0, x1, y0, y1, s);
    lemma_line_is_moderate(x0, x1, y0, y1, t);
    assert(u1 == u2 && n1 == n2);
    assert(zero().at_most(u1) && u1.finite() && n1.positive_finite());
    assert(zero().at_most(a1) && a1.at_most(a2) && a2.finite());
    assert(zero().at_most(p1) && p1.at_most(p2));
    assert(zero().at_most(s1) && s1.at_most(s2));
}

/// Whether neighbouring points have the same score, or scores further apart than
/// `2^-999`.
pub open spec fn points_apart(xs: Seq<Binary64>) -> bool {
    forall|i: int|
        0 <= i < xs.len() - 1 ==> (#[trigger] xs[i + 1]).rank() == xs[i].rank() || xs[i + 1].number() - xs[i].number()
            >= 2real * dust()
}

/// Values of which none is above its successor are ordered throughout.
proof fn lemma_non_decreasing(values: Seq<Binary64>, i: int, j: int)
    requires
        all_finite(values),
        non_decreasing(values),
        0 <= i <= j < values.len(),
    ensures
        values[i].at_most(values[j]),
    decreases j - i,
{
    assert(values[i].finite() && values[j].finite());
    if i < j {
        lemma_non_decreasing(values, i, j - 1);
        assert(values[j - 1].finite());
        assert(!values[j - 1 + 1].less(values[j - 1]));
    }
}

impl Calibrator {
    /// `r` is the probability of a score between two neighbouring points, or at
    /// the second one.
    spec fn gives_at<A: Arithmetic>(&self, k: int, score: Binary64, r: Binary64) -> bool {
        let (xs, ys) = (self.xs@, self.ys@);
        1 <= k < xs.len() && xs[k - 1].total_rank() < score.total_rank() <= xs[k].total_rank() && if xs[k] == score {
            r == ys[k]
        } else {
            interpolates::<A>(xs[k - 1], xs[k], ys[k - 1], ys[k], score, r)
        }
    }

    /// Whether a score lies inside the fitted range.
    spec fn inside(&self, score: Binary64) -> bool {
        !score.at_most(self.xs@[0]) && !self.xs@.last().at_most(score)
    }

    /// The points around a score inside the fitted range.
    proof fn lemma_gives_at<A: Arithmetic>(&self, score: Binary64, r: Binary64) -> (k: int)
        requires
            self.gives::<A>(score, r),
            self.inside(score),
        ensures
            self.gives_at::<A>(k, score, r),
    {
        let (xs, ys) = (self.xs@, self.ys@);
        choose|k: int|
            1 <= k < xs.len() && xs[k - 1].total_rank() < score.total_rank() <= (#[trigger] xs[k]).total_rank() && if xs[k]
                == score {
                r == ys[k]
            } else {
                interpolates::<A>(xs[k - 1], xs[k], ys[k - 1], ys[k], score, r)
            }
    }

    /// What a valid map gives a score between two of its points is not below the
    /// probability of the first, and not above that of the second but for a hair.
    proof fn lemma_between_points<A: Arithmetic>(&self, k: int, score: Binary64, p: Binary64)
        requires
            orders_lines::<A>(),
            invalid_map(self.xs@, self.ys@) is None,
            all_moderate(self.xs@),
            score.finite(),
            self.gives_at::<A>(k, score, p),
        ensures
            self.ys@[k - 1].at_most(p),
            self.xs@[k] != score ==> rises(self.xs@[k - 1], self.xs@[k], self.ys@[k - 1], self.ys@[k])
                && self.xs@[k - 1].at_most(score) && score.at_most(self.xs@[k]),
            self.xs@[k] == score ==> p == self.ys@[k],
            rounds_closely::<A>() && points_apart(self.xs@) ==> p.finite() && p.number() <= self.ys@[k].number() + hair(),
    {
        let (xs, ys) = (self.xs@, self.ys@);
        lemma_non_decreasing(ys, k - 1, k);
        assert(xs[k - 1].finite() && xs[k].finite());
        assert(moderate(xs[k - 1]) && moderate(xs[k]));
        assert(ys[k - 1].unit() && ys[k].unit());
        if xs[k] != score {
            assert(score.total_rank() != xs[k].total_rank());
            assert(xs[k - 1].rank() < xs[k].rank());
            lemma_line_between_ends::<A>(xs[k - 1], xs[k], ys[k - 1], ys[k], score, p);
            if points_apart(xs) {
                assert(xs[k - 1 + 1].number() - xs[k - 1].number() >= 2real * dust());
            }
        }
    }
}

/// A calibration keeps the order between two of its points: of two scores there
/// the higher one is not given the lower probability, and neither is given less
/// than the first point has.
pub proof fn lemma_order_between_points<A: Arithmetic>(
    calibrator: Calibrator,
    k: int,
    low: Binary64,
    high: Binary64,
    p: Binary64,
    q: Binary64,
)
    requires
        deterministic::<A>(),
        orders_lines::<A>(),
        invalid_map(calibrator.xs@, calibrator.ys@) is None,
        all_moderate(calibrator.xs@),
        1 <= k < calibrator.xs@.len(),
        calibrator.xs@[k - 1].less(low),
        low.less(high),
        high.less(calibrator.xs@[k]),
        calibrator.gives::<A>(low, p),
        calibrator.gives::<A>(high, q),
    ensures
        calibrator.ys@[k - 1].at_most(p),
        p.at_most(q),
{
    let xs = calibrator.xs@;
    assert(xs[k - 1].finite() && xs[k].finite());
    lemma_non_decreasing(xs, 0, k - 1);
    lemma_non_decreasing(xs, k, xs.len() - 1);
    let i = calibrator.lemma_gives_at::<A>(low, p);
    let j = calibrator.lemma_gives_at::<A>(high, q);
    assert(xs[i - 1].finite() && xs[i].finite() && xs[j - 1].finite() && xs[j].finite());
    assert(i == k) by {
        if i < k {
            lemma_non_decreasing(xs, i, k - 1);
        }
        if i > k {
            lemma_non_decreasing(xs, k, i - 1);
        }
    }
    assert(j == k) by {
        if j < k {
            lemma_non_decreasing(xs, j, k - 1);
        }
        if j > k {
            lemma_non_decreasing(xs, k, j - 1);
        }
    }
    calibrator.lemma_between_points::<A>(k, low, p);
    calibrator.lemma_between_points::<A>(k, high, q);
    lemma_line_in_order::<A>(xs[k - 1], xs[k], calibrator.ys@[k - 1], calibrator.ys@[k], low, high, p, q);
}

/// A calibration passes through its points, and their probabilities are ordered
/// like their scores.
pub proof fn lemma_points_are_met<A: Arithmetic>(calibrator: Calibrator, i: int, j: int, p: Binary64, q: Binary64)
    requires
        invalid_map(calibrator.xs@, calibrator.ys@) is None,
        ascending_points(calibrator.xs@),
        0 <= i <= j < calibrator.xs@.len(),
        calibrator.gives::<A>(calibrator.xs@[i], p),
        calibrator.gives::<A>(calibrator.xs@[j], q),
    ensures
        p == calibrator.ys@[i],
        q == calibrator.ys@[j],
        p.at_most(q),
{
    lemma_point_is_met::<A>(calibrator, i, p);
    lemma_point_is_met::<A>(calibrator, j, q);
    lemma_non_decreasing(calibrator.ys@, i, j);
}

proof fn lemma_point_is_met<A: Arithmetic>(calibrator: Calibrator, i: int, p: Binary64)
    requires
        invalid_map(calibrator.xs@, calibrator.ys@) is None,
        ascending_points(calibrator.xs@),
        0 <= i < calibrator.xs@.len(),
        calibrator.gives::<A>(calibrator.xs@[i], p),
    ensures
        p == calibrator.ys@[i],
{
    let xs = calibrator.xs@;
    let last = xs.len() - 1;
    assert(xs[0].finite() && xs[i].finite() && xs[last].finite());
    if i > 0 {
        assert(xs[0].rank() < xs[i].rank());
    }
    if i < last {
        assert(xs[i].rank() < xs[last].rank());
    }
    if calibrator.inside(xs[i]) {
        let k = calibrator.lemma_gives_at::<A>(xs[i], p);
        if k < i {
            assert(xs[k].rank() < xs[i].rank());
        }
        if k > i && k - 1 > i {
            assert(xs[i].rank() < xs[k - 1].rank());
        }
    }
}

/// A calibration is monotone but for a hair: a valid map gives no higher score a
/// probability that is lower by more than `2^-48`, and none outside `[0, 1]` by
/// more. Outside the fitted range it gives the probabilities of its ends.
pub proof fn lemma_probability_is_monotone<A: Arithmetic>(
    calibrator: Calibrator,
    low: Binary64,
    high: Binary64,
    p: Binary64,
    q: Binary64,
)
    requires
        deterministic::<A>(),
        orders_lines::<A>(),
        rounds_closely::<A>(),
        invalid_map(calibrator.xs@, calibrator.ys@) is None,
        all_moderate(calibrator.xs@),
        points_apart(calibrator.xs@),
        low.finite(),
        high.finite(),
        low.less(high),
        calibrator.gives::<A>(low, p),
        calibrator.gives::<A>(high, q),
    ensures
        zero().at_most(p) && p.finite() && p.number() <= one().number() + hair(),
        zero().at_most(q) && q.finite() && q.number() <= one().number() + hair(),
        p.number() <= q.number() + hair(),
        high.at_most(calibrator.xs@[0]) ==> p == q && p == calibrator.ys@[0],
        calibrator.xs@.last().less(low) ==> p == q && p == calibrator.ys@.last(),
{
    let (xs, ys) = (calibrator.xs@, calibrator.ys@);
    let last = xs.len() - 1;
    assert(xs[0].finite() && xs[last].finite());
    assert(ys[0].unit() && ys[last].unit());
    lemma_non_decreasing(ys, 0, last);
    lemma_non_decreasing(xs, 0, last);
    lemma_small_numbers();
    lemma_rank_orders_numbers(ys[0], ys[last]);
    lemma_rank_orders_numbers(ys[0], one());
    lemma_rank_orders_numbers(ys[last], one());
    lemma_rank_orders_numbers(ys[0], p);
    lemma_rank_orders_numbers(ys[0], q);
    if calibrator.inside(low) {
        let k = calibrator.lemma_gives_at::<A>(low, p);
        lemma_inside::<A>(calibrator, k, low, p);
        if calibrator.inside(high) {
            let l = calibrator.lemma_gives_at::<A>(high, q);
            lemma_inside::<A>(calibrator, l, high, q);
            assert(xs[k - 1].finite() && xs[k].finite() && xs[l - 1].finite() && xs[l].finite());
            lemma_rank_orders_numbers(ys[k], q);
            lemma_rank_orders_numbers(p, q);
            if k < l {
                lemma_non_decreasing(ys, k, l - 1);
                calibrator.lemma_between_points::<A>(l, high, q);
            } else if k > l {
                lemma_non_decreasing(xs, l, k - 1);
            } else {
                calibrator.lemma_between_points::<A>(k, low, p);
                calibrator.lemma_between_points::<A>(k, high, q);
                assert(xs[k] != low);
                if xs[k] != high {
                    lemma_line_in_order::<A>(xs[k - 1], xs[k], ys[k - 1], ys[k], low, high, p, q);
                }
            }
        }
    } else if calibrator.inside(high) {
        let l = calibrator.lemma_gives_at::<A>(high, q);
        lemma_inside::<A>(calibrator, l, high, q);
    }
}

/// What a valid map gives inside its range is not below the probability of its
/// first point, and not above that of the next point or of its last one but for a
/// hair.
proof fn lemma_inside<A: Arithmetic>(calibrator: Calibrator, k: int, score: Binary64, p: Binary64)
    requires
        orders_lines::<A>(),
        rounds_closely::<A>(),
        invalid_map(calibrator.xs@, calibrator.ys@) is None,
        all_moderate(calibrator.xs@),
        points_apart(calibrator.xs@),
        score.finite(),
        calibrator.gives_at::<A>(k, score, p),
    ensures
        zero().at_most(p),
        p.finite(),
        calibrator.ys@[0].at_most(p),
        p.number() <= calibrator.ys@[k].number() + hair(),
        p.number() <= calibrator.ys@.last().number() + hair(),
        calibrator.ys@[k].at_most(calibrator.ys@.last()),
{
    let ys = calibrator.ys@;
    let last = ys.len() - 1;
    calibrator.lemma_between_points::<A>(k, score, p);
    lemma_non_decreasing(ys, 0, k - 1);
    lemma_non_decreasing(ys, k, last);
    assert(ys[0].unit());
    lemma_rank_orders_numbers(ys[k], ys[last]);
}

/// The calibration law: a fitted map gives a score one probability, whatever the order in which the samples came; the probability
/// lies within `[0, 1]` and does not fall with the score, but for a hair.
pub proof fn lemma_fit_calibrates<A: Arithmetic>(
    scores: Seq<Binary64>,
    outcomes: Seq<bool>,
    order: Seq<int>,
    fitted: Calibrator,
    refitted: Calibrator,
    low: Binary64,
    high: Binary64,
    p: Binary64,
    again: Binary64,
    q: Binary64,
)
    requires
        deterministic::<A>(),
        orders_quotients::<A>(),
        orders_lines::<A>(),
        rounds_closely::<A>(),
        unfit(scores, outcomes) is None,
        scores.len() <= countable(),
        all_summable(scores),
        spread_out(scores, outcomes),
        rearranges(order, scores.len()),
        fits::<A>(scores, outcomes, fitted.xs@, fitted.ys@),
        fits::<A>(
            Seq::new(scores.len(), |i: int| scores[order[i]]),
            Seq::new(scores.len(), |i: int| outcomes[order[i]]),
            refitted.xs@,
            refitted.ys@,
        ),
        points_apart(fitted.xs@),
        low.finite(),
        high.finite(),
        low.less(high),
        fitted.gives::<A>(low, p),
        refitted.gives::<A>(low, again),
        fitted.gives::<A>(high, q),
    ensures
        p == again,
        zero().at_most(p) && p.finite() && p.number() <= one().number() + hair(),
        p.number() <= q.number() + hair(),
{
    lemma_fit_is_valid::<A>(scores, outcomes, fitted.xs@, fitted.ys@);
    lemma_fit_ignores_order::<A>(scores, outcomes, order, fitted.xs@, fitted.ys@, refitted.xs@, refitted.ys@);
    lemma_probability_is_monotone::<A>(fitted, low, high, p, q);
    assert(fitted.gives::<A>(low, again));
    let xs = fitted.xs@;
    assert forall|i: int, j: int| 0 <= i <= j < xs.len() implies (#[trigger] xs[i]).total_rank() <= (#[trigger]
    xs[j]).total_rank() by {
        if i < j {
            assert(xs[i].rank() < xs[j].rank());
        }
    }
    lemma_probability_is_determined::<A>(fitted, low, p, again);
}

} // verus!
