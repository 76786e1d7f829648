//! Reliability of probabilistic predictions against binary outcomes.
//!
//! [`reliability`] builds a reliability diagram: per-bin predicted and observed
//! frequency, each with a Wilson 95 % interval, the uncertainty that comes from
//! finite sample counts. It also reports the Brier score, its skill against
//! climatology, and the expected calibration error.

use vstd::arithmetic::power2::{lemma_pow2_pos, pow2};
use vstd::prelude::*;
use vstd::set_lib::set_int_range;

use crate::accuracy::{lemma_scales, rounds_closely, rounds_to, tiny, ulp};
use crate::arithmetic::{
    adds_up, counts, differs, divides, lemma_adds_up_push, multiplies, ratio, ratio_of, roots, sums, Arithmetic,
};
use crate::binary64::{
    absolute, four, lemma_rank_orders_numbers, lemma_small_numbers, lemma_unit_number, lemma_unsigned_number,
    lemma_whole_part, one, two, zero, Binary64,
};
use crate::calibrate::{all_unit, mean_of};
use crate::error::{Error, Reason};
use crate::grid::{find_outside_unit, first_outside_unit};
use crate::ranking::{count_labelled, labelled, lemma_ratio_value};
use crate::series::{
    drift, lemma_bound_of_product, lemma_cancel, lemma_mean_of_terms, lemma_part_of, lemma_parts_of_product,
    lemma_quotient_bound, lemma_quotient_of, lemma_sign_of_product, lemma_size_of_product, lemma_sum_near,
    lemma_terms_near, lemma_total_within_bulk, sum,
};

verus! {

/// The 97.5th percentile of the standard normal distribution.
#[verifier::allow_in_spec]
pub fn z95() -> Binary64
    returns
        (Binary64 { bits: 0x3FFF_5C03_31EE_FF84 }),
{
    Binary64 { bits: 0x3FFF_5C03_31EE_FF84 }
}

/// The value that stands for an undefined score.
#[verifier::allow_in_spec]
pub fn not_a_number() -> Binary64
    returns
        (Binary64 { bits: 0x7FF8_0000_0000_0000 }),
{
    Binary64 { bits: 0x7FF8_0000_0000_0000 }
}

/// One bin of a reliability diagram.
#[derive(Debug, Clone, Copy)]
pub struct ReliabilityBin {
    /// Mean predicted probability of the bin's members.
    pub p_pred_mean: Binary64,
    /// Observed event frequency in the bin.
    pub p_obs: Binary64,
    /// Number of predictions in the bin.
    pub n: usize,
    /// Wilson 95 % lower bound on the observed frequency.
    pub ci_low: Binary64,
    /// Wilson 95 % upper bound on the observed frequency.
    pub ci_high: Binary64,
}

/// Reliability of probabilistic predictions against binary outcomes.
#[derive(Debug)]
pub struct Reliability {
    /// Brier score (mean squared error of the probabilities); lower is better.
    pub brier: Binary64,
    /// Brier skill score against the base-rate climatology; above zero beats it.
    pub brier_skill: Binary64,
    /// Expected calibration error: sample-weighted mean `|p_obs − p_pred|`.
    pub ece: Binary64,
    /// Event base rate (climatology).
    pub base_rate: Binary64,
    /// Non-empty reliability bins, ascending in predicted probability.
    pub bins: Vec<ReliabilityBin>,
}

impl Clone for Reliability {
    fn clone(&self) -> (r: Reliability)
        ensures
            r.brier == self.brier,
            r.brier_skill == self.brier_skill,
            r.ece == self.ece,
            r.base_rate == self.base_rate,
            r.bins@ == self.bins@,
    {
        let mut bins: Vec<ReliabilityBin> = Vec::new();
        let mut i: usize = 0;
        while i < self.bins.len()
            invariant
                i <= self.bins@.len(),
                bins@ == self.bins@.take(i as int),
            decreases self.bins@.len() - i,
        {
            bins.push(self.bins[i]);
            i = i + 1;
            assert(self.bins@.take(i as int) == self.bins@.take(i - 1).push(self.bins@[i - 1]));
        }
        assert(self.bins@.take(self.bins@.len() as int) == self.bins@);
        Reliability {
            brier: self.brier,
            brier_skill: self.brier_skill,
            ece: self.ece,
            base_rate: self.base_rate,
            bins,
        }
    }
}

/// Predictions that can be scored: one per outcome, at least one, all within
/// `[0, 1]`.
pub open spec fn scorable(preds: Seq<Binary64>, outcomes: Seq<bool>) -> bool {
    preds.len() == outcomes.len() && preds.len() > 0 && all_unit(preds)
}

/// The error for predictions and outcomes that are not aligned.
pub open spec fn unaligned_predictions(preds: Seq<Binary64>, outcomes: Seq<bool>, e: Error) -> bool {
    preds.len() != outcomes.len() && e == (Error::InvalidParameter {
        name: "outcomes",
        reason: Reason::Counts {
            before: "",
            first: preds.len() as usize,
            between: " preds but ",
            second: outcomes.len() as usize,
            after: " outcomes",
        },
    })
}

/// The error for no prediction at all.
pub open spec fn no_predictions(preds: Seq<Binary64>, outcomes: Seq<bool>, e: Error) -> bool {
    preds.len() == outcomes.len() && preds.len() == 0 && e == (Error::InvalidParameter {
        name: "preds",
        reason: Reason::Text("need at least one (prediction, outcome) pair"),
    })
}

/// The error for a prediction that is no probability.
pub open spec fn improbable_prediction(preds: Seq<Binary64>, outcomes: Seq<bool>, e: Error) -> bool {
    preds.len() == outcomes.len() && exists|i: int| #[trigger]
        first_outside_unit(preds, i) && e == (Error::InvalidParameter {
            name: "preds",
            reason: Reason::Value {
                before: "must all be probabilities in [0, 1], got ",
                value: preds[i],
                after: "",
            },
        })
}

/// The outcome as a number.
pub open spec fn outcome_value(outcome: bool) -> Binary64 {
    if outcome {
        one()
    } else {
        zero()
    }
}

/// `r` is the squared difference of a prediction and an outcome.
pub open spec fn squared_error<A: Arithmetic>(pred: Binary64, outcome: bool, r: Binary64) -> bool {
    exists|d: Binary64| #[trigger] differs::<A>(pred, outcome_value(outcome), d) && multiplies::<A>(d, d, r)
}

/// `terms` are the squared errors of the predictions, in order.
pub open spec fn squared_errors<A: Arithmetic>(
    preds: Seq<Binary64>,
    outcomes: Seq<bool>,
    terms: Seq<Binary64>,
) -> bool {
    &&& terms.len() == preds.len()
    &&& forall|i: int| 0 <= i < terms.len() ==> squared_error::<A>(preds[i], outcomes[i], #[trigger] terms[i])
}

/// `r` is the mean squared error of the predictions.
pub open spec fn brier_of<A: Arithmetic>(preds: Seq<Binary64>, outcomes: Seq<bool>, r: Binary64) -> bool {
    exists|terms: Seq<Binary64>, total: Binary64|
        {
            &&& #[trigger] squared_errors::<A>(preds, outcomes, terms)
            &&& #[trigger] adds_up::<A>(zero(), terms, total)
            &&& mean_of::<A>(total, preds.len() as int, r)
        }
}

fn mean<A: Arithmetic>(sum: Binary64, n: usize) -> (r: Binary64)
    ensures
        mean_of::<A>(sum, n as int, r),
{
    let count: Binary64 = A::of_count(n as u64);
    assert(counts::<A>(n as int, count));
    A::over(sum, count)
}

/// Checks that predictions and outcomes can be scored, but for the range of the
/// predictions.
fn check_pairs(preds: &[Binary64], outcomes: &[bool]) -> (r: Result<(), Error>)
    ensures
        match r {
            Ok(_) => preds@.len() == outcomes@.len() && preds@.len() > 0,
            Err(e) => unaligned_predictions(preds@, outcomes@, e) || no_predictions(preds@, outcomes@, e),
        },
{
    if preds.len() != outcomes.len() {
        return Err(
            Error::InvalidParameter {
                name: "outcomes",
                reason: Reason::Counts {
                    before: "",
                    first: preds.len(),
                    between: " preds but ",
                    second: outcomes.len(),
                    after: " outcomes",
                },
            },
        );
    }
    if preds.len() == 0 {
        return Err(
            Error::InvalidParameter {
                name: "preds",
                reason: Reason::Text("need at least one (prediction, outcome) pair"),
            },
        );
    }
    Ok(())
}

/// Checks that all predictions are probabilities.
fn check_probabilities(preds: &[Binary64], outcomes: &[bool]) -> (r: Result<(), Error>)
    requires
        preds@.len() == outcomes@.len(),
    ensures
        match r {
            Ok(_) => all_unit(preds@),
            Err(e) => improbable_prediction(preds@, outcomes@, e),
        },
{
    match find_outside_unit(preds) {
        Some(i) => {
            assert(first_outside_unit(preds@, i as int));
            Err(
                Error::InvalidParameter {
                    name: "preds",
                    reason: Reason::Value {
                        before: "must all be probabilities in [0, 1], got ",
                        value: preds[i],
                        after: "",
                    },
                },
            )
        },
        None => Ok(()),
    }
}

/// Brier score: mean squared error between probabilities and `{0, 1}` outcomes.
pub fn brier_score<A: Arithmetic>(preds: &[Binary64], outcomes: &[bool]) -> (r: Result<Binary64, Error>)
    ensures
        match r {
            Ok(v) => scorable(preds@, outcomes@) && brier_of::<A>(preds@, outcomes@, v),
            Err(e) => unaligned_predictions(preds@, outcomes@, e) || no_predictions(preds@, outcomes@, e)
                || improbable_prediction(preds@, outcomes@, e),
        },
{
    match check_pairs(preds, outcomes) {
        Ok(_) => {},
        Err(e) => {
            return Err(e);
        },
    }
    match check_probabilities(preds, outcomes) {
        Ok(_) => {},
        Err(e) => {
            return Err(e);
        },
    }
    let ghost mut terms: Seq<Binary64> = Seq::empty();
    let mut total: Binary64 = zero();
    let mut i: usize = 0;
    while i < preds.len()
        invariant
            i <= preds@.len(),
            preds@.len() == outcomes@.len(),
            terms.len() == i,
            forall|k: int| 0 <= k < i ==> squared_error::<A>(preds@[k], outcomes@[k], #[trigger] terms[k]),
            adds_up::<A>(zero(), terms, total),
        decreases preds@.len() - i,
    {
        let y: Binary64 = if outcomes[i] {
            one()
        } else {
            zero()
        };
        let d: Binary64 = A::minus(preds[i], y);
        let term: Binary64 = A::times(d, d);
        let next: Binary64 = A::plus(total, term);
        proof {
            assert(differs::<A>(preds@[i as int], outcome_value(outcomes@[i as int]), d));
            assert(multiplies::<A>(d, d, term));
            assert(sums::<A>(total, term, next));
            lemma_adds_up_push::<A>(zero(), terms, total, term, next);
            terms = terms.push(term);
        }
        total = next;
        i = i + 1;
    }
    assert(squared_errors::<A>(preds@, outcomes@, terms));
    Ok(mean::<A>(total, preds.len()))
}

/// `q` is `z²` over a divisor.
pub open spec fn square_over<A: Arithmetic>(z: Binary64, divisor: Binary64, q: Binary64) -> bool {
    exists|square: Binary64| #[trigger] multiplies::<A>(z, z, square) && divides::<A>(square, divisor, q)
}

fn compute_square_over<A: Arithmetic>(z: Binary64, divisor: Binary64) -> (q: Binary64)
    ensures
        square_over::<A>(z, divisor, q),
{
    let square: Binary64 = A::times(z, z);
    assert(multiplies::<A>(z, z, square));
    A::over(square, divisor)
}

/// `r` is the centre of the Wilson interval, `(p + z²/2n) / denom`.
pub open spec fn wilson_center<A: Arithmetic>(
    p: Binary64,
    n: Binary64,
    z: Binary64,
    denom: Binary64,
    r: Binary64,
) -> bool {
    exists|twice: Binary64, shift: Binary64, top: Binary64|
        {
            &&& #[trigger] multiplies::<A>(two(), n, twice)
            &&& #[trigger] square_over::<A>(z, twice, shift)
            &&& #[trigger] sums::<A>(p, shift, top)
            &&& divides::<A>(top, denom, r)
        }
}

/// `r` is the half-width of the Wilson interval,
/// `z · sqrt(p(1 − p)/n + z²/4n²) / denom`.
pub open spec fn wilson_half<A: Arithmetic>(
    p: Binary64,
    n: Binary64,
    z: Binary64,
    denom: Binary64,
    r: Binary64,
) -> bool {
    exists|
        rest: Binary64,
        spread: Binary64,
        variance: Binary64,
        quad: Binary64,
        square: Binary64,
        extra: Binary64,
        inner: Binary64,
        root: Binary64,
        top: Binary64,
    |
        {
            &&& #[trigger] differs::<A>(one(), p, rest)
            &&& #[trigger] multiplies::<A>(p, rest, spread)
            &&& #[trigger] divides::<A>(spread, n, variance)
            &&& #[trigger] multiplies::<A>(four(), n, quad)
            &&& #[trigger] multiplies::<A>(quad, n, square)
            &&& #[trigger] square_over::<A>(z, square, extra)
            &&& #[trigger] sums::<A>(variance, extra, inner)
            &&& #[trigger] roots::<A>(inner, root)
            &&& #[trigger] multiplies::<A>(z, root, top)
            &&& divides::<A>(top, denom, r)
        }
}

/// `(low, high)` is the Wilson score interval for `k` successes in `n` trials at
/// `z` standard normals; without a trial it is the unit interval.
pub open spec fn wilson_of<A: Arithmetic>(k: int, n: int, z: Binary64, low: Binary64, high: Binary64) -> bool {
    if n == 0 {
        low == zero() && high == one()
    } else {
        exists|
            count: Binary64,
            p: Binary64,
            ratio: Binary64,
            denom: Binary64,
            center: Binary64,
            half: Binary64,
            below: Binary64,
            above: Binary64,
        |
            {
                &&& #[trigger] counts::<A>(n, count)
                &&& #[trigger] ratio_of::<A>(k, n, p)
                &&& #[trigger] square_over::<A>(z, count, ratio)
                &&& #[trigger] sums::<A>(one(), ratio, denom)
                &&& #[trigger] wilson_center::<A>(p, count, z, denom, center)
                &&& #[trigger] wilson_half::<A>(p, count, z, denom, half)
                &&& #[trigger] differs::<A>(center, half, below)
                &&& #[trigger] sums::<A>(center, half, above)
                &&& low == below.larger(zero())
                &&& high == above.smaller(one())
            }
    }
}

fn compute_wilson_center<A: Arithmetic>(p: Binary64, n: Binary64, z: Binary64, denom: Binary64) -> (r: Binary64)
    ensures
        wilson_center::<A>(p, n, z, denom, r),
{
    let twice: Binary64 = A::times(two(), n);
    let shift: Binary64 = compute_square_over::<A>(z, twice);
    let top: Binary64 = A::plus(p, shift);
    assert(multiplies::<A>(two(), n, twice));
    assert(square_over::<A>(z, twice, shift));
    assert(sums::<A>(p, shift, top));
    A::over(top, denom)
}

fn compute_wilson_half<A: Arithmetic>(p: Binary64, n: Binary64, z: Binary64, denom: Binary64) -> (r: Binary64)
    ensures
        wilson_half::<A>(p, n, z, denom, r),
{
    let rest: Binary64 = A::minus(one(), p);
    let spread: Binary64 = A::times(p, rest);
    let variance: Binary64 = A::over(spread, n);
    let quad: Binary64 = A::times(four(), n);
    let square: Binary64 = A::times(quad, n);
    let extra: Binary64 = compute_square_over::<A>(z, square);
    let inner: Binary64 = A::plus(variance, extra);
    let root: Binary64 = A::root(inner);
    let top: Binary64 = A::times(z, root);
    let r: Binary64 = A::over(top, denom);
    proof {
        assert(differs::<A>(one(), p, rest));
        assert(multiplies::<A>(p, rest, spread));
        assert(divides::<A>(spread, n, variance));
        assert(multiplies::<A>(four(), n, quad));
        assert(multiplies::<A>(quad, n, square));
        assert(square_over::<A>(z, square, extra));
        assert(sums::<A>(variance, extra, inner));
        assert(roots::<A>(inner, root));
        assert(multiplies::<A>(z, root, top));
        assert(divides::<A>(top, denom, r));
    }
    r
}

/// Wilson score interval for `k` successes in `n` trials at `z` standard normals.
pub fn wilson<A: Arithmetic>(k: usize, n: usize, z: Binary64) -> (r: (Binary64, Binary64))
    ensures
        wilson_of::<A>(k as int, n as int, z, r.0, r.1),
{
    if n == 0 {
        return (zero(), one());
    }
    let count: Binary64 = A::of_count(n as u64);
    let p: Binary64 = ratio::<A>(k as u64, n as u64);
    let ratio: Binary64 = compute_square_over::<A>(z, count);
    let denom: Binary64 = A::plus(one(), ratio);
    let center: Binary64 = compute_wilson_center::<A>(p, count, z, denom);
    let half: Binary64 = compute_wilson_half::<A>(p, count, z, denom);
    let below: Binary64 = A::minus(center, half);
    let above: Binary64 = A::plus(center, half);
    proof {
        assert(counts::<A>(n as int, count));
        assert(ratio_of::<A>(k as int, n as int, p));
        assert(square_over::<A>(z, count, ratio));
        assert(sums::<A>(one(), ratio, denom));
        assert(wilson_center::<A>(p, count, z, denom, center));
        assert(wilson_half::<A>(p, count, z, denom, half));
        assert(differs::<A>(center, half, below));
        assert(sums::<A>(center, half, above));
    }
    (below.max(zero()), above.min(one()))
}

/// The bounds of a Wilson interval never leave `[0, 1]` on their own side: the
/// lower one is not below zero, the upper one not above one.
pub proof fn lemma_wilson_within_unit<A: Arithmetic>(k: int, n: int, z: Binary64, low: Binary64, high: Binary64)
    requires
        wilson_of::<A>(k, n, z, low, high),
    ensures
        zero().at_most(low),
        high.at_most(one()),
{
}

/// `bin` is the bin of a probability: the integer part of its product with the
/// number of bins, where one falls into the last bin.
pub open spec fn bin_of<A: Arithmetic>(p: Binary64, n_bins: int, bin: int) -> bool {
    exists|count: Binary64, product: Binary64| #[trigger]
        counts::<A>(n_bins, count) && #[trigger] multiplies::<A>(p, count, product) && bin == if product.integer_part()
            >= n_bins {
            n_bins - 1
        } else {
            product.integer_part() as int
        }
}

/// `bins` holds the bin of each prediction.
pub open spec fn binned<A: Arithmetic>(preds: Seq<Binary64>, n_bins: int, bins: Seq<int>) -> bool {
    &&& bins.len() == preds.len()
    &&& forall|i: int| 0 <= i < preds.len() ==> bin_of::<A>(preds[i], n_bins, #[trigger] bins[i])
}

/// The predictions of a bin among the first `k` ones, in order.
pub open spec fn members(preds: Seq<Binary64>, bins: Seq<int>, bin: int, k: nat) -> Seq<Binary64>
    decreases k,
{
    if k == 0 {
        Seq::empty()
    } else {
        let before = members(preds, bins, bin, (k - 1) as nat);
        if bins[k - 1] == bin {
            before.push(preds[k - 1])
        } else {
            before
        }
    }
}

/// The number of events in a bin among the first `k` predictions.
pub open spec fn events_in(outcomes: Seq<bool>, bins: Seq<int>, bin: int, k: nat) -> nat
    decreases k,
{
    if k == 0 {
        0
    } else {
        events_in(outcomes, bins, bin, (k - 1) as nat) + if bins[k - 1] == bin && outcomes[k - 1] {
            1nat
        } else {
            0nat
        }
    }
}

/// A bin of the diagram summarises its members and the events among them.
pub open spec fn summarises<A: Arithmetic>(inside: Seq<Binary64>, events: nat, bin: ReliabilityBin) -> bool {
    &&& bin.n == inside.len()
    &&& exists|total: Binary64| #[trigger]
        adds_up::<A>(zero(), inside, total) && mean_of::<A>(total, inside.len() as int, bin.p_pred_mean)
    &&& ratio_of::<A>(events as int, inside.len() as int, bin.p_obs)
    &&& wilson_of::<A>(events as int, inside.len() as int, z95(), bin.ci_low, bin.ci_high)
}

/// The diagram holds the bins that have members, in ascending order; `which`
/// numbers them.
pub open spec fn diagram<A: Arithmetic>(
    preds: Seq<Binary64>,
    outcomes: Seq<bool>,
    bins: Seq<int>,
    n_bins: int,
    which: Seq<int>,
    shown: Seq<ReliabilityBin>,
) -> bool {
    &&& which.len() == shown.len()
    &&& forall|a: int, b: int| 0 <= a < b < which.len() ==> #[trigger] which[a] < #[trigger] which[b]
    &&& forall|b: int| #[trigger]
        which.contains(b) <==> 0 <= b < n_bins && members(preds, bins, b, preds.len()).len() > 0
    &&& forall|k: int|
        0 <= k < shown.len() ==> summarises::<A>(
            members(preds, bins, which[k], preds.len()),
            events_in(outcomes, bins, which[k], preds.len()),
            #[trigger] shown[k],
        )
}

/// `r` is the share of a bin times the distance of the predicted from the
/// observed frequency.
pub open spec fn calibration_term<A: Arithmetic>(bin: ReliabilityBin, n: int, r: Binary64) -> bool {
    exists|share: Binary64, gap: Binary64| #[trigger]
        ratio_of::<A>(bin.n as int, n, share) && #[trigger] differs::<A>(bin.p_obs, bin.p_pred_mean, gap) && multiplies::<
            A,
        >(share, gap.unsigned(), r)
}

/// `r` is the expected calibration error of a diagram of `n` predictions.
pub open spec fn calibration_error<A: Arithmetic>(shown: Seq<ReliabilityBin>, n: int, r: Binary64) -> bool {
    exists|terms: Seq<Binary64>|
        {
            &&& #[trigger] adds_up::<A>(zero(), terms, r)
            &&& terms.len() == shown.len()
            &&& forall|k: int| 0 <= k < terms.len() ==> calibration_term::<A>(shown[k], n, #[trigger] terms[k])
        }
}

/// `skill` is the Brier skill against climatology; undefined where the
/// climatology makes no error.
pub open spec fn skill_of<A: Arithmetic>(brier: Binary64, base_rate: Binary64, skill: Binary64) -> bool {
    exists|rest: Binary64, reference: Binary64| #[trigger]
        differs::<A>(one(), base_rate, rest) && #[trigger] multiplies::<A>(base_rate, rest, reference) && if zero().less(
            reference,
        ) {
            exists|q: Binary64| #[trigger] divides::<A>(brier, reference, q) && differs::<A>(one(), q, skill)
        } else {
            skill == not_a_number()
        }
}

/// `r` is the reliability of predictions.
pub open spec fn reliability_of<A: Arithmetic>(
    preds: Seq<Binary64>,
    outcomes: Seq<bool>,
    n_bins: int,
    r: Reliability,
) -> bool {
    &&& brier_of::<A>(preds, outcomes, r.brier)
    &&& ratio_of::<A>(labelled(outcomes, true).len() as int, preds.len() as int, r.base_rate)
    &&& skill_of::<A>(r.brier, r.base_rate, r.brier_skill)
    &&& calibration_error::<A>(r.bins@, preds.len() as int, r.ece)
    &&& exists|bins: Seq<int>, which: Seq<int>| #[trigger]
        binned::<A>(preds, n_bins, bins) && #[trigger] diagram::<A>(preds, outcomes, bins, n_bins, which, r.bins@)
}

/// A bin takes every prediction of its own and no other.
proof fn lemma_members_bounded(preds: Seq<Binary64>, outcomes: Seq<bool>, bins: Seq<int>, bin: int, k: nat)
    ensures
        members(preds, bins, bin, k).len() <= k,
        events_in(outcomes, bins, bin, k) <= members(preds, bins, bin, k).len(),
    decreases k,
{
    if k > 0 {
        lemma_members_bounded(preds, outcomes, bins, bin, (k - 1) as nat);
    }
}

/// What lies behind a prefix does not change its members.
proof fn lemma_members_of_prefix(
    preds: Seq<Binary64>,
    outcomes: Seq<bool>,
    bins: Seq<int>,
    more: Seq<int>,
    bin: int,
    k: nat,
)
    requires
        k <= bins.len(),
        k <= more.len(),
        forall|i: int| 0 <= i < k ==> bins[i] == more[i],
    ensures
        members(preds, bins, bin, k) == members(preds, more, bin, k),
        events_in(outcomes, bins, bin, k) == events_in(outcomes, more, bin, k),
    decreases k,
{
    if k > 0 {
        lemma_members_of_prefix(preds, outcomes, bins, more, bin, (k - 1) as nat);
    }
}

fn choose_bin<A: Arithmetic>(p: Binary64, n_bins: usize) -> (r: usize)
    requires
        n_bins > 0,
    ensures
        bin_of::<A>(p, n_bins as int, r as int),
        r < n_bins,
{
    let count: Binary64 = A::of_count(n_bins as u64);
    let product: Binary64 = A::times(p, count);
    assert(counts::<A>(n_bins as int, count));
    assert(multiplies::<A>(p, count, product));
    let whole: u64 = product.to_count();
    if whole >= n_bins as u64 {
        n_bins - 1
    } else {
        whole as usize
    }
}

/// The sums and counts of the bins.
struct Tally {
    sum_pred: Vec<Binary64>,
    hits: Vec<usize>,
    count: Vec<usize>,
}

impl Tally {
    spec fn holds<A: Arithmetic>(
        &self,
        preds: Seq<Binary64>,
        outcomes: Seq<bool>,
        bins: Seq<int>,
        n_bins: int,
        k: nat,
    ) -> bool {
        &&& self.sum_pred@.len() == n_bins
        &&& self.hits@.len() == n_bins
        &&& self.count@.len() == n_bins
        &&& forall|b: int|
            0 <= b < n_bins ==> adds_up::<A>(zero(), members(preds, bins, b, k), #[trigger] self.sum_pred@[b])
        &&& forall|b: int| 0 <= b < n_bins ==> #[trigger] self.hits@[b] == events_in(outcomes, bins, b, k)
        &&& forall|b: int| 0 <= b < n_bins ==> #[trigger] self.count@[b] == members(preds, bins, b, k).len()
    }
}

fn tally<A: Arithmetic>(preds: &[Binary64], outcomes: &[bool], n_bins: usize) -> (r: Tally)
    requires
        n_bins > 0,
        preds@.len() == outcomes@.len(),
    ensures
        exists|bins: Seq<int>| #[trigger]
            binned::<A>(preds@, n_bins as int, bins) && r.holds::<A>(
                preds@,
                outcomes@,
                bins,
                n_bins as int,
                preds@.len(),
            ),
{
    let mut t = Tally { sum_pred: Vec::new(), hits: Vec::new(), count: Vec::new() };
    let ghost mut bins: Seq<int> = Seq::empty();
    let mut b: usize = 0;
    while b < n_bins
        invariant
            b <= n_bins,
            t.holds::<A>(preds@, outcomes@, bins, b as int, 0),
        decreases n_bins - b,
    {
        t.sum_pred.push(zero());
        t.hits.push(0);
        t.count.push(0);
        b = b + 1;
    }
    let mut i: usize = 0;
    while i < preds.len()
        invariant
            i <= preds@.len(),
            n_bins > 0,
            preds@.len() == outcomes@.len(),
            bins.len() == i,
            forall|k: int| 0 <= k < i ==> bin_of::<A>(preds@[k], n_bins as int, #[trigger] bins[k]),
            t.holds::<A>(preds@, outcomes@, bins, n_bins as int, i as nat),
        decreases preds@.len() - i,
    {
        let at: usize = choose_bin::<A>(preds[i], n_bins);
        let ghost was = t;
        let ghost old_bins = bins;
        let sum: Binary64 = A::plus(t.sum_pred[at], preds[i]);
        proof {
            assert(sums::<A>(t.sum_pred@[at as int], preds@[i as int], sum));
            bins = bins.push(at as int);
            lemma_members_bounded(preds@, outcomes@, old_bins, at as int, i as nat);
        }
        t.sum_pred.set(at, sum);
        assert(t.count@[at as int] == members(preds@, old_bins, at as int, i as nat).len());
        let count: usize = t.count[at] + 1;
        t.count.set(at, count);
        if outcomes[i] {
            assert(t.hits@[at as int] == events_in(outcomes@, old_bins, at as int, i as nat));
            let hits: usize = t.hits[at] + 1;
            t.hits.set(at, hits);
        }
        proof {
            assert forall|c: int| 0 <= c < n_bins implies adds_up::<A>(
                zero(),
                members(preds@, bins, c, (i + 1) as nat),
                #[trigger] t.sum_pred@[c],
            ) && t.hits@[c] == events_in(outcomes@, bins, c, (i + 1) as nat) && t.count@[c] == members(
                preds@,
                bins,
                c,
                (i + 1) as nat,
            ).len() by {
                lemma_members_of_prefix(preds@, outcomes@, old_bins, bins, c, i as nat);
                assert(adds_up::<A>(zero(), members(preds@, old_bins, c, i as nat), was.sum_pred@[c]));
                assert(was.hits@[c] == events_in(outcomes@, old_bins, c, i as nat));
                assert(was.count@[c] == members(preds@, old_bins, c, i as nat).len());
                if c == at {
                    lemma_adds_up_push::<A>(
                        zero(),
                        members(preds@, old_bins, c, i as nat),
                        was.sum_pred@[c],
                        preds@[i as int],
                        sum,
                    );
                }
            }
            assert forall|c: int| 0 <= c < n_bins implies #[trigger] t.hits@[c] == events_in(
                outcomes@,
                bins,
                c,
                (i + 1) as nat,
            ) by {
                assert(adds_up::<A>(zero(), members(preds@, bins, c, (i + 1) as nat), t.sum_pred@[c]));
            }
            assert forall|c: int| 0 <= c < n_bins implies #[trigger] t.count@[c] == members(
                preds@,
                bins,
                c,
                (i + 1) as nat,
            ).len() by {
                assert(adds_up::<A>(zero(), members(preds@, bins, c, (i + 1) as nat), t.sum_pred@[c]));
            }
        }
        i = i + 1;
    }
    assert(binned::<A>(preds@, n_bins as int, bins));
    t
}

fn show_bin<A: Arithmetic>(t: &Tally, b: usize, Ghost(inside): Ghost<Seq<Binary64>>, Ghost(events): Ghost<nat>) -> (r:
    ReliabilityBin)
    requires
        b < t.sum_pred@.len(),
        b < t.hits@.len(),
        b < t.count@.len(),
        adds_up::<A>(zero(), inside, t.sum_pred@[b as int]),
        t.hits@[b as int] == events,
        t.count@[b as int] == inside.len(),
    ensures
        summarises::<A>(inside, events, r),
{
    let n: usize = t.count[b];
    let p_pred_mean: Binary64 = mean::<A>(t.sum_pred[b], n);
    let p_obs: Binary64 = ratio::<A>(t.hits[b] as u64, n as u64);
    let (ci_low, ci_high): (Binary64, Binary64) = wilson::<A>(t.hits[b], n, z95());
    ReliabilityBin { p_pred_mean, p_obs, n, ci_low, ci_high }
}

fn compute_calibration_term<A: Arithmetic>(bin: &ReliabilityBin, n: usize) -> (r: Binary64)
    ensures
        calibration_term::<A>(*bin, n as int, r),
{
    let share: Binary64 = ratio::<A>(bin.n as u64, n as u64);
    let gap: Binary64 = A::minus(bin.p_obs, bin.p_pred_mean);
    let r: Binary64 = A::times(share, gap.abs());
    assert(ratio_of::<A>(bin.n as int, n as int, share));
    assert(differs::<A>(bin.p_obs, bin.p_pred_mean, gap));
    assert(multiplies::<A>(share, gap.unsigned(), r));
    r
}

fn compute_skill<A: Arithmetic>(brier: Binary64, base_rate: Binary64) -> (skill: Binary64)
    ensures
        skill_of::<A>(brier, base_rate, skill),
{
    let rest: Binary64 = A::minus(one(), base_rate);
    let reference: Binary64 = A::times(base_rate, rest);
    assert(differs::<A>(one(), base_rate, rest));
    assert(multiplies::<A>(base_rate, rest, reference));
    if zero().below(reference) {
        let q: Binary64 = A::over(brier, reference);
        assert(divides::<A>(brier, reference, q));
        A::minus(one(), q)
    } else {
        not_a_number()
    }
}

/// Builds a reliability diagram with `n_bins` equal-width bins over `[0, 1]`,
/// plus Brier score, Brier skill score and expected calibration error.
pub fn reliability<A: Arithmetic>(preds: &[Binary64], outcomes: &[bool], n_bins: usize) -> (r: Result<
    Reliability,
    Error,
>)
    ensures
        match r {
            Ok(v) => scorable(preds@, outcomes@) && n_bins > 0 && reliability_of::<A>(
                preds@,
                outcomes@,
                n_bins as int,
                v,
            ),
            Err(e) => unaligned_predictions(preds@, outcomes@, e) || no_predictions(preds@, outcomes@, e) || (
            preds@.len() == outcomes@.len() && preds@.len() > 0 && n_bins == 0 && e == (Error::InvalidParameter {
                name: "n_bins",
                reason: Reason::Text("must be >= 1"),
            })) || (n_bins > 0 && improbable_prediction(preds@, outcomes@, e)),
        },
{
    match check_pairs(preds, outcomes) {
        Ok(_) => {},
        Err(e) => {
            return Err(e);
        },
    }
    if n_bins == 0 {
        return Err(Error::InvalidParameter { name: "n_bins", reason: Reason::Text("must be >= 1") });
    }
    match check_probabilities(preds, outcomes) {
        Ok(_) => {},
        Err(e) => {
            return Err(e);
        },
    }
    let n: usize = preds.len();
    let base_rate: Binary64 = ratio::<A>(count_labelled(outcomes, true) as u64, n as u64);
    let t: Tally = tally::<A>(preds, outcomes, n_bins);
    let ghost bins = choose|bins: Seq<int>| #[trigger]
        binned::<A>(preds@, n_bins as int, bins) && t.holds::<A>(preds@, outcomes@, bins, n_bins as int, preds@.len());
    let mut shown: Vec<ReliabilityBin> = Vec::new();
    let mut ece: Binary64 = zero();
    let ghost mut which: Seq<int> = Seq::empty();
    let ghost mut terms: Seq<Binary64> = Seq::empty();
    let mut b: usize = 0;
    while b < n_bins
        invariant
            b <= n_bins,
            n == preds@.len(),
            t.holds::<A>(preds@, outcomes@, bins, n_bins as int, preds@.len()),
            which.len() == shown@.len(),
            terms.len() == shown@.len(),
            forall|x: int, y: int| 0 <= x < y < which.len() ==> #[trigger] which[x] < #[trigger] which[y],
            forall|c: int| #[trigger]
                which.contains(c) <==> 0 <= c < b && members(preds@, bins, c, preds@.len()).len() > 0,
            forall|k: int|
                0 <= k < shown@.len() ==> summarises::<A>(
                    members(preds@, bins, which[k], preds@.len()),
                    events_in(outcomes@, bins, which[k], preds@.len()),
                    #[trigger] shown@[k],
                ),
            adds_up::<A>(zero(), terms, ece),
            forall|k: int| 0 <= k < terms.len() ==> calibration_term::<A>(shown@[k], n as int, #[trigger] terms[k]),
        decreases n_bins - b,
    {
        let ghost inside = members(preds@, bins, b as int, preds@.len());
        proof {
            assert(t.count@[b as int] == inside.len());
            assert(t.hits@[b as int] == events_in(outcomes@, bins, b as int, preds@.len()));
            assert(adds_up::<A>(zero(), inside, t.sum_pred@[b as int]));
        }
        if t.count[b] != 0 {
            let bin: ReliabilityBin = show_bin::<A>(
                &t,
                b,
                Ghost(inside),
                Ghost(events_in(outcomes@, bins, b as int, preds@.len())),
            );
            let term: Binary64 = compute_calibration_term::<A>(&bin, n);
            let next: Binary64 = A::plus(ece, term);
            proof {
                assert(sums::<A>(ece, term, next));
                lemma_adds_up_push::<A>(zero(), terms, ece, term, next);
                let old_which = which;
                which = which.push(b as int);
                terms = terms.push(term);
                assert forall|c: int| #[trigger] which.contains(c) <==> 0 <= c < b + 1 && members(
                    preds@,
                    bins,
                    c,
                    preds@.len(),
                ).len() > 0 by {
                    vstd::seq_lib::lemma_seq_contains_after_push(old_which, b as int, c);
                }
                assert forall|x: int, y: int| 0 <= x < y < which.len() implies #[trigger] which[x] < #[trigger] which[y] by {
                    if y == old_which.len() {
                        assert(old_which.contains(old_which[x]));
                    }
                }
            }
            ece = next;
            shown.push(bin);
        }
        b = b + 1;
    }
    let brier: Binary64 = match brier_score::<A>(preds, outcomes) {
        Ok(v) => v,
        Err(e) => {
            return Err(e);
        },
    };
    let brier_skill: Binary64 = compute_skill::<A>(brier, base_rate);
    let r = Reliability { brier, brier_skill, ece, base_rate, bins: shown };
    proof {
        assert(calibration_error::<A>(r.bins@, preds@.len() as int, r.ece));
        assert(binned::<A>(preds@, n_bins as int, bins));
        assert(diagram::<A>(preds@, outcomes@, bins, n_bins as int, which, r.bins@));
        assert(brier_of::<A>(preds@, outcomes@, r.brier));
        assert(skill_of::<A>(r.brier, r.base_rate, r.brier_skill));
        assert(ratio_of::<A>(labelled(outcomes@, true).len() as int, preds@.len() as int, base_rate));
        assert(reliability_of::<A>(preds@, outcomes@, n_bins as int, r));
    }
    Ok(r)
}

/// Every prediction falls into exactly one of the bins: the bins together hold as
/// many members as there are predictions.
pub proof fn lemma_bins_share_predictions<A: Arithmetic>(preds: Seq<Binary64>, n_bins: int, bins: Seq<int>)
    requires
        n_bins > 0,
        binned::<A>(preds, n_bins, bins),
    ensures
        members_below(preds, bins, n_bins, preds.len()) == preds.len(),
{
    assert forall|i: int| 0 <= i < preds.len() implies 0 <= #[trigger] bins[i] < n_bins by {
        assert(bin_of::<A>(preds[i], n_bins, bins[i]));
    }
    lemma_members_below(preds, bins, n_bins, preds.len());
}

proof fn lemma_members_below(preds: Seq<Binary64>, bins: Seq<int>, n_bins: int, k: nat)
    requires
        k <= bins.len(),
        forall|i: int| 0 <= i < k ==> 0 <= #[trigger] bins[i] < n_bins,
    ensures
        members_below(preds, bins, n_bins, k) == k,
    decreases k,
{
    if k == 0 {
        lemma_members_below_start(preds, bins, n_bins);
    } else {
        lemma_members_below(preds, bins, n_bins, (k - 1) as nat);
        lemma_members_below_step(preds, bins, n_bins, k);
    }
}

/// How many of the first `k` predictions the bins before `bin` hold.
pub open spec fn members_below(preds: Seq<Binary64>, bins: Seq<int>, bin: int, k: nat) -> nat
    decreases bin,
{
    if bin <= 0 {
        0
    } else {
        members_below(preds, bins, bin - 1, k) + members(preds, bins, bin - 1, k).len()
    }
}

proof fn lemma_members_below_start(preds: Seq<Binary64>, bins: Seq<int>, bin: int)
    ensures
        members_below(preds, bins, bin, 0) == 0,
    decreases bin,
{
    if bin > 0 {
        lemma_members_below_start(preds, bins, bin - 1);
    }
}

proof fn lemma_members_below_step(preds: Seq<Binary64>, bins: Seq<int>, bin: int, k: nat)
    requires
        0 < k <= bins.len(),
        0 <= bins[k - 1],
    ensures
        members_below(preds, bins, bin, k) == members_below(preds, bins, bin, (k - 1) as nat) + if bins[k - 1] < bin {
            1nat
        } else {
            0nat
        },
    decreases bin,
{
    if bin > 0 {
        lemma_members_below_step(preds, bins, bin - 1, k);
    }
}

/// The outcome as a real number.
pub open spec fn outcome_number(outcome: bool) -> real {
    if outcome {
        1real
    } else {
        0real
    }
}

/// The squares of the distances between predictions and outcomes.
pub open spec fn squares(preds: Seq<Binary64>, outcomes: Seq<bool>) -> Seq<real> {
    Seq::new(
        preds.len(),
        |i: int|
            (preds[i].number() - outcome_number(outcomes[i])) * (preds[i].number() - outcome_number(outcomes[i])),
    )
}

/// A squared error is close to the square of the distance.
proof fn lemma_square_near<A: Arithmetic>(pred: Binary64, outcome: bool, r: Binary64)
    requires
        rounds_closely::<A>(),
        pred.unit(),
        squared_error::<A>(pred, outcome, r),
    ensures
        r.finite(),
        ({
            let d = pred.number() - outcome_number(outcome);
            0real <= d * d <= 1real && absolute(r.number() - d * d) <= ulp(8real)
        }),
{
    let e = choose|d: Binary64| #[trigger] differs::<A>(pred, outcome_value(outcome), d) && multiplies::<A>(d, d, r);
    lemma_scales();
    lemma_small_numbers();
    lemma_unit_number(pred);
    let x = pred.number() - outcome_number(outcome);
    assert(rounds_to(x, e));
    let y = e.number();
    let (xx, yy) = (x * x, y * y);
    let (u, v) = (y - x, y + x);
    assert(yy - xx == u * v) by (nonlinear_arith)
        requires
            xx == x * x,
            yy == y * y,
            u == y - x,
            v == y + x,
    ;
    let uv = u * v;
    assert(absolute(uv) <= 3real * absolute(u)) by (nonlinear_arith)
        requires
            uv == u * v,
            absolute(v) <= 3real,
    ;
    assert(0real <= xx && xx <= 1real) by (nonlinear_arith)
        requires
            xx == x * x,
            -1real <= x <= 1real,
    ;
    assert(rounds_to(yy, r));
}

/// The Brier score is the mean of the squared distances between predictions and
/// outcomes, within rounding.
pub proof fn lemma_brier_is_mean_square<A: Arithmetic>(preds: &[Binary64], outcomes: &[bool], v: Binary64)
    requires
        rounds_closely::<A>(),
        preds@.len() <= 0x100_0000_0000,
        call_ensures(brier_score::<A>, (preds, outcomes), Ok::<Binary64, Error>(v)),
    ensures
        v.finite(),
        0real <= sum(squares(preds@, outcomes@)) / (preds@.len() as real) <= 1real,
        absolute(v.number() - sum(squares(preds@, outcomes@)) / (preds@.len() as real)) <= ulp(
            4real * (preds@.len() as real) + 13real,
        ),
{
    lemma_brier_value::<A>(preds@, outcomes@, v);
}

proof fn lemma_brier_value<A: Arithmetic>(preds: Seq<Binary64>, outcomes: Seq<bool>, v: Binary64)
    requires
        rounds_closely::<A>(),
        scorable(preds, outcomes),
        preds.len() <= 0x100_0000_0000,
        brier_of::<A>(preds, outcomes, v),
    ensures
        v.finite(),
        0real <= sum(squares(preds, outcomes)) / (preds.len() as real) <= 1real,
        absolute(v.number() - sum(squares(preds, outcomes)) / (preds.len() as real)) <= ulp(
            4real * (preds.len() as real) + 13real,
        ),
{
    let (terms, total) = choose|terms: Seq<Binary64>, total: Binary64|
        {
            &&& #[trigger] squared_errors::<A>(preds, outcomes, terms)
            &&& #[trigger] adds_up::<A>(zero(), terms, total)
            &&& mean_of::<A>(total, preds.len() as int, v)
        };
    let count = choose|c: Binary64| #[trigger] counts::<A>(preds.len() as int, c) && divides::<A>(total, c, v);
    lemma_scales();
    lemma_small_numbers();
    lemma_pow2_pos(800);
    let exact = squares(preds, outcomes);
    assert forall|i: int| 0 <= i < terms.len() implies (#[trigger] terms[i]).finite() && absolute(
        terms[i].number() - exact[i],
    ) <= ulp(8real) && 0real <= exact[i] <= 1real by {
        assert(preds[i].unit());
        assert(squared_error::<A>(preds[i], outcomes[i], terms[i]));
        lemma_square_near::<A>(preds[i], outcomes[i], terms[i]);
    }
    assert forall|i: int| 0 <= i < exact.len() implies 0real <= #[trigger] exact[i] <= 1real by {
        assert(terms[i].finite());
    }
    lemma_mean_of_terms::<A>(terms, exact, 1real, ulp(8real), zero(), total, count, v);
    lemma_sum_of_parts(exact);
    let (n, x) = (preds.len() as real, sum(exact));
    lemma_quotient_of(x, n);
    let q = x / n;
    assert(0real <= q) by (nonlinear_arith)
        requires
            q * n == x,
            n >= 1real,
            x >= 0real,
    ;
}

/// A sum of numbers that are not below zero is not below zero.
proof fn lemma_sum_of_parts(numbers: Seq<real>)
    requires
        forall|i: int| 0 <= i < numbers.len() ==> 0real <= #[trigger] numbers[i] <= 1real,
    ensures
        0real <= sum(numbers),
    decreases numbers.len(),
{
    if numbers.len() > 0 {
        let rest = numbers.drop_last();
        assert forall|i: int| 0 <= i < rest.len() implies 0real <= #[trigger] rest[i] <= 1real by {
            assert(0real <= numbers[i] <= 1real);
        }
        lemma_sum_of_parts(rest);
        assert(0real <= numbers[numbers.len() - 1] <= 1real);
    }
}

/// The share of events among outcomes.
pub open spec fn event_share(outcomes: Seq<bool>) -> real {
    (labelled(outcomes, true).len() as real) / (outcomes.len() as real)
}

/// The reference of a skill is the variance of the outcomes, in parts of it.
proof fn lemma_reference_near(n: real, o: real, b: real, rest: real, reference: real)
    requires
        2real <= n <= 0x100_0000_0000real,
        1real <= n * o,
        1real <= n * (1real - o),
        absolute(b - o) <= ulp(absolute(o)) + tiny(),
        absolute(rest - (1real - b)) <= ulp(absolute(1real - b)) + tiny(),
        absolute(reference - b * rest) <= ulp(absolute(b * rest)) + tiny(),
    ensures
        0real < o < 1real,
        0real < o * (1real - o) <= 1real,
        absolute(reference - o * (1real - o)) <= ulp(8real * n + 32real) * (o * (1real - o)),
{
    lemma_scales();
    lemma_grain_is_small();
    let l = 1real - o;
    lemma_share_is_not_small(n, o);
    lemma_share_is_not_small(n, l);
    let c = ulp(2real);
    assert(absolute(b - o) <= c * o);
    let d = ulp(2real * n + 4real);
    let nl = n * l;
    assert(d * l == (2real * nl + 4real * l) / 0x10_0000_0000_0000real) by (nonlinear_arith)
        requires
            nl == n * l,
            d == (2real * n + 4real) / 0x10_0000_0000_0000real,
    ;
    assert(absolute(rest - l) <= d * l);
    lemma_parts_of_product(o, b, c, l, rest, d);
    let (v, w) = (o * l, b * rest);
    let part = 2real * c + d;
    assert(0real < v && v <= 1real) by (nonlinear_arith)
        requires
            v == o * l,
            0real < o <= 1real,
            0real < l <= 1real,
    ;
    assert(v * 0x1_0000_0000_0000_0000_0000_0000real >= 1real) by (nonlinear_arith)
        requires
            v == o * l,
            o * 0x100_0000_0000real >= 1real,
            l * 0x100_0000_0000real >= 1real,
    ;
    let pv = part * v;
    assert(pv <= v) by (nonlinear_arith)
        requires
            pv == part * v,
            part <= 1real,
            v > 0real,
    ;
    let e = ulp(8real * n + 32real);
    assert(e * v == (8real * n + 32real) * v / 0x10_0000_0000_0000real && pv == (4real + 2real * n + 4real) * v
        / 0x10_0000_0000_0000real) by (nonlinear_arith)
        requires
            e == (8real * n + 32real) / 0x10_0000_0000_0000real,
            pv == part * v,
            part == 2real * c + d,
            c == 2real / 0x10_0000_0000_0000real,
            d == (2real * n + 4real) / 0x10_0000_0000_0000real,
    ;
    let nv = n * v;
    assert((8real * n + 32real) * v == 8real * nv + 32real * v && (4real + 2real * n + 4real) * v == 2real * nv + 8real * v)
        by (nonlinear_arith)
        requires
            nv == n * v,
    ;
    assert(nv > 0real) by (nonlinear_arith)
        requires
            nv == n * v,
            n > 0real,
            v > 0real,
    ;
}

/// A share of samples is at least that of one sample, which is not small.
proof fn lemma_share_is_not_small(n: real, o: real)
    requires
        2real <= n <= 0x100_0000_0000real,
        1real <= n * o,
    ensures
        o > 0real,
        o * 0x100_0000_0000real >= 1real,
        tiny() <= ulp(o) / 0x1_0000_0000real,
{
    lemma_scales();
    assert(o > 0real) by (nonlinear_arith)
        requires
            2real <= n,
            1real <= n * o,
    ;
    assert(o * 0x100_0000_0000real >= 1real) by (nonlinear_arith)
        requires
            0real < n <= 0x100_0000_0000real,
            1real <= n * o,
            o > 0real,
    ;
    lemma_grain_is_small();
}

/// A billionth of a billionth is larger than a grain.
proof fn lemma_grain_is_small()
    ensures
        crate::accuracy::grain() <= 1real / 0x1_0000_0000_0000_0000_0000_0000real,
{
    lemma_scales();
    let (g, p) = (crate::accuracy::grain(), pow2(500) as real);
    assert(g <= 1real / 0x1_0000_0000_0000_0000_0000_0000real) by (nonlinear_arith)
        requires
            g * p == 1real,
            p >= 0x1_0000_0000_0000_0000_0000_0000real,
    ;
}

/// What is left of one by a skill, times the variance of the outcomes, is the
/// Brier score.
proof fn lemma_skill_near(e: real, v: real, reference: real, brier: real, w: real, q: real, s: real)
    requires
        0real < v <= 1real,
        0real <= e <= 1real / 4real,
        absolute(reference - v) <= e * v,
        absolute(brier) <= 2real,
        w * reference == brier,
        absolute(q - w) <= ulp(absolute(w)) + tiny(),
        absolute(s - (1real - q)) <= ulp(absolute(1real - q)) + tiny(),
    ensures
        absolute((1real - s) * v - brier) <= 4real * e + ulp(16real),
{
    lemma_scales();
    let (m, z) = (1real - s, reference - v);
    let ev = e * v;
    assert(ev <= v / 4real) by (nonlinear_arith)
        requires
            ev == e * v,
            e <= 1real / 4real,
            v > 0real,
    ;
    let wv = w * v;
    let a = absolute(w);
    let av = a * v;
    assert(av <= 2real * absolute(brier)) by (nonlinear_arith)
        requires
            av == a * v,
            a == absolute(w),
            w * reference == brier,
            reference >= v / 2real,
            v > 0real,
    ;
    let wz = w * z;
    assert(wv == brier - wz) by (nonlinear_arith)
        requires
            wv == w * v,
            wz == w * z,
            z == reference - v,
            w * reference == brier,
    ;
    assert(absolute(wz) <= e * av) by (nonlinear_arith)
        requires
            wz == w * z,
            a == absolute(w),
            av == a * v,
            absolute(z) <= e * v,
            e >= 0real,
    ;
    assert(e * av <= 4real * e) by (nonlinear_arith)
        requires
            av <= 4real,
            e >= 0real,
    ;
    let y = m - w;
    let yv = y * v;
    assert(m * v == wv + yv) by (nonlinear_arith)
        requires
            wv == w * v,
            yv == y * v,
            y == m - w,
    ;
    let bound = (1real + 3real * a) / 0x10_0000_0000_0000real + 3real * tiny();
    assert(absolute(y) <= bound);
    assert(absolute(yv) <= (v + 3real * av) / 0x10_0000_0000_0000real + 3real * tiny() * v) by (nonlinear_arith)
        requires
            yv == y * v,
            av == a * v,
            absolute(y) <= (1real + 3real * a) / 0x10_0000_0000_0000real + 3real * tiny(),
            v > 0real,
    ;
    lemma_part_of(3real * tiny(), v);
}

/// The skill of predictions: what it leaves of one, times the variance of the
/// outcomes, is their mean squared distance from the outcomes, within rounding.
/// The variance is the share of events times the share of non-events.
pub proof fn lemma_skill_is_against_variance<A: Arithmetic>(
    preds: &[Binary64],
    outcomes: &[bool],
    n_bins: usize,
    r: Reliability,
)
    requires
        rounds_closely::<A>(),
        preds@.len() <= 0x10_0000_0000,
        0 < labelled(outcomes@, true).len() < outcomes@.len(),
        call_ensures(reliability::<A>, (preds, outcomes, n_bins), Ok::<Reliability, Error>(r)),
    ensures
        r.brier_skill.finite(),
        0real < event_share(outcomes@) < 1real,
        ({
            let (n, o) = (preds@.len() as real, event_share(outcomes@));
            let mean = sum(squares(preds@, outcomes@)) / n;
            absolute((1real - r.brier_skill.number()) * (o * (1real - o)) - mean) <= ulp(36real * n + 160real)
        }),
{
    let (rest, reference) = choose|rest: Binary64, reference: Binary64| #[trigger]
        differs::<A>(one(), r.base_rate, rest) && #[trigger] multiplies::<A>(r.base_rate, rest, reference) && if zero().less(
            reference,
        ) {
            exists|q: Binary64| #[trigger] divides::<A>(r.brier, reference, q) && differs::<A>(one(), q, r.brier_skill)
        } else {
            r.brier_skill == not_a_number()
        };
    lemma_scales();
    lemma_small_numbers();
    lemma_brier_value::<A>(preds@, outcomes@, r.brier);
    let (k, count) = (labelled(outcomes@, true).len() as int, preds@.len() as int);
    lemma_ratio_value::<A>(k, count, r.base_rate);
    let (n, x) = (count as real, k as real);
    let o = x / n;
    lemma_quotient_of(x, n);
    let (b, d, v) = (r.base_rate.number(), rest.number(), o * (1real - o));
    assert(n * o == x && n * (1real - o) == n - x) by (nonlinear_arith)
        requires
            o * n == x,
    ;
    lemma_share_is_not_small(n, o);
    assert(o < 1real) by (nonlinear_arith)
        requires
            o * n == x,
            x < n,
            n > 0real,
    ;
    assert(rounds_to(1real - b, rest));
    assert(absolute(b) <= 2real && absolute(d) <= 2real);
    assert(absolute(b * d) <= 4real) by (nonlinear_arith)
        requires
            absolute(b) <= 2real,
            absolute(d) <= 2real,
    ;
    assert(rounds_to(b * d, reference));
    lemma_reference_near(n, o, b, d, reference.number());
    let (e, m) = (ulp(8real * n + 32real), reference.number());
    let ev = e * v;
    assert(ev <= v / 4real) by (nonlinear_arith)
        requires
            ev == e * v,
            e <= 1real / 4real,
            v > 0real,
    ;
    lemma_rank_orders_numbers(zero(), reference);
    let q = choose|q: Binary64| #[trigger] divides::<A>(r.brier, reference, q) && differs::<A>(one(), q, r.brier_skill);
    let w = r.brier.number() / m;
    lemma_quotient_of(r.brier.number(), m);
    lemma_share_is_not_small(n, 1real - o);
    lemma_quotient_fits(o, 1real - o, v, m, r.brier.number(), w);
    assert(rounds_to(w, q));
    assert(rounds_to(1real - q.number(), r.brier_skill));
    lemma_skill_near(e, v, m, r.brier.number(), w, q.number(), r.brier_skill.number());
}

/// A score over a variance does not overflow.
proof fn lemma_quotient_fits(o: real, l: real, v: real, m: real, brier: real, w: real)
    requires
        v == o * l,
        o * 0x100_0000_0000real >= 1real,
        l * 0x100_0000_0000real >= 1real,
        m >= v / 2real,
        absolute(brier) <= 2real,
        w * m == brier,
    ensures
        absolute(w) <= 0x1_0000_0000_0000_0000_0000_0000real,
{
    let big = 0x1_0000_0000_0000_0000_0000real;
    assert(v * big >= 1real) by (nonlinear_arith)
        requires
            v == o * l,
            o * 0x100_0000_0000real >= 1real,
            l * 0x100_0000_0000real >= 1real,
            big == 0x1_0000_0000_0000_0000_0000real,
    ;
    let a = absolute(w);
    assert(a * m <= 2real) by (nonlinear_arith)
        requires
            a == absolute(w),
            w * m == brier,
            absolute(brier) <= 2real,
            m > 0real,
    ;
    assert(a <= 4real * big) by (nonlinear_arith)
        requires
            a * m <= 2real,
            m * big >= 1real / 2real,
            a >= 0real,
            big > 0real,
    ;
}

/// One more outcome is one more event where it is one.
proof fn lemma_events_of_prefix(outcomes: Seq<bool>)
    requires
        outcomes.len() > 0,
    ensures
        labelled(outcomes, true).finite(),
        labelled(outcomes, true).len() == labelled(outcomes.drop_last(), true).len() + if outcomes.last() {
            1int
        } else {
            0int
        },
{
    let rest = outcomes.drop_last();
    let n = outcomes.len() as int;
    vstd::set_lib::lemma_int_range(0, n);
    vstd::set_lib::lemma_int_range(0, n - 1);
    set_int_range(0, n).lemma_len_filter(|i: int| outcomes[i] == true);
    set_int_range(0, n - 1).lemma_len_filter(|i: int| rest[i] == true);
    if outcomes.last() {
        assert(labelled(outcomes, true) == labelled(rest, true).insert(n - 1));
    } else {
        assert(labelled(outcomes, true) == labelled(rest, true));
    }
}

/// The squared distances of a constant prediction.
proof fn lemma_squares_of_constant(preds: Seq<Binary64>, outcomes: Seq<bool>, b: real)
    requires
        preds.len() == outcomes.len(),
        forall|i: int| 0 <= i < preds.len() ==> (#[trigger] preds[i]).number() == b,
    ensures
        ({
            let (k, n) = (labelled(outcomes, true).len() as real, outcomes.len() as real);
            sum(squares(preds, outcomes)) == k * ((1real - b) * (1real - b)) + (n - k) * (b * b)
        }),
    decreases preds.len(),
{
    let (k, n) = (labelled(outcomes, true).len() as real, outcomes.len() as real);
    let (x, y) = ((1real - b) * (1real - b), b * b);
    if preds.len() == 0 {
        assert(labelled(outcomes, true) == Set::<int>::empty());
        assert(k * x == 0real && (n - k) * y == 0real) by (nonlinear_arith)
            requires
                k == 0real,
                n == 0real,
        ;
    } else {
        let (ps, os) = (preds.drop_last(), outcomes.drop_last());
        assert forall|i: int| 0 <= i < ps.len() implies (#[trigger] ps[i]).number() == b by {
            assert(preds[i].number() == b);
        }
        lemma_squares_of_constant(ps, os, b);
        lemma_events_of_prefix(outcomes);
        assert(squares(preds, outcomes).drop_last() == squares(ps, os));
        assert(preds[preds.len() - 1].number() == b);
        let j = labelled(os, true).len() as real;
        let m = os.len() as real;
        assert((b - 1real) * (b - 1real) == (1real - b) * (1real - b)) by (nonlinear_arith);
        assert((b - 0real) * (b - 0real) == b * b) by (nonlinear_arith);
        assert((j + 1real) * x == j * x + x) by (nonlinear_arith);
        assert((m - j + 1real) * y == (m - j) * y + y) by (nonlinear_arith);
        assert((m + 1real - j) == m - j + 1real && m + 1real - (j + 1real) == m - j);
    }
}

/// A forecast of the base rate for every sample has no skill: its skill is zero
/// within rounding, and its Brier score is the variance of the outcomes, the
/// reference of the skill.
pub proof fn lemma_base_rate_has_no_skill<A: Arithmetic>(
    preds: &[Binary64],
    outcomes: &[bool],
    n_bins: usize,
    r: Reliability,
)
    requires
        rounds_closely::<A>(),
        preds@.len() <= 0x10_0000_0000,
        0 < labelled(outcomes@, true).len() < outcomes@.len(),
        forall|i: int| 0 <= i < preds@.len() ==> (#[trigger] preds@[i]).number() == r.base_rate.number(),
        call_ensures(reliability::<A>, (preds, outcomes, n_bins), Ok::<Reliability, Error>(r)),
    ensures
        0real < event_share(outcomes@) < 1real,
        ({
            let (n, o) = (preds@.len() as real, event_share(outcomes@));
            &&& absolute(r.brier_skill.number()) * (o * (1real - o)) <= ulp(36real * n + 161real)
            &&& absolute(r.brier.number() - o * (1real - o)) <= ulp(4real * n + 14real)
        }),
{
    lemma_skill_is_against_variance::<A>(preds, outcomes, n_bins, r);
    lemma_brier_value::<A>(preds@, outcomes@, r.brier);
    let (k, count) = (labelled(outcomes@, true).len() as int, preds@.len() as int);
    lemma_ratio_value::<A>(k, count, r.base_rate);
    let (n, x, b) = (count as real, k as real, r.base_rate.number());
    let o = event_share(outcomes@);
    lemma_quotient_of(x, n);
    lemma_squares_of_constant(preds@, outcomes@, b);
    let (p, q) = ((1real - b) * (1real - b), b * b);
    let s = sum(squares(preds@, outcomes@));
    let mean = s / n;
    lemma_quotient_of(s, n);
    let w = o * p + (1real - o) * q;
    assert((o * p + (1real - o) * q) * n == (o * n) * p + (n - o * n) * q) by (nonlinear_arith);
    lemma_cancel(mean, w, n);
    let z = b - o;
    assert(o * ((1real - b) * (1real - b)) + (1real - o) * (b * b) == o * (1real - o) + (b - o) * (b - o))
        by (nonlinear_arith);
    lemma_scales();
    lemma_bound_of_product(z, z, 1real / 2real);
    assert(0real <= z * z) by (nonlinear_arith);
    let (v, t) = (o * (1real - o), r.brier_skill.number());
    assert((1real - t) * v == v - t * v) by (nonlinear_arith);
    lemma_sign_of_product(o, 1real - o);
    lemma_size_of_product(t, v);
}

/// Turned predictions of turned outcomes have the same squared distances.
proof fn lemma_squares_turn(preds: Seq<Binary64>, turned: Seq<Binary64>, outcomes: Seq<bool>, swapped: Seq<bool>)
    requires
        preds.len() == outcomes.len(),
        turned.len() == preds.len(),
        swapped.len() == preds.len(),
        all_unit(preds),
        all_unit(turned),
        forall|i: int| 0 <= i < preds.len() ==> #[trigger] swapped[i] == !outcomes[i],
        forall|i: int|
            0 <= i < preds.len() ==> absolute((#[trigger] turned[i]).number() + preds[i].number() - 1real) <= ulp(1real),
    ensures
        absolute(sum(squares(preds, outcomes)) - sum(squares(turned, swapped))) <= ulp(2real * (preds.len() as real)),
    decreases preds.len(),
{
    if preds.len() > 0 {
        let (ps, ts, os, ws) = (preds.drop_last(), turned.drop_last(), outcomes.drop_last(), swapped.drop_last());
        assert forall|i: int| 0 <= i < ps.len() implies (#[trigger] ps[i]).unit() by {
            assert(preds[i].unit());
        }
        assert forall|i: int| 0 <= i < ts.len() implies (#[trigger] ts[i]).unit() by {
            assert(turned[i].unit());
        }
        assert forall|i: int| 0 <= i < ps.len() implies #[trigger] ws[i] == !os[i] by {
            assert(swapped[i] == !outcomes[i]);
        }
        assert forall|i: int| 0 <= i < ps.len() implies absolute((#[trigger] ts[i]).number() + ps[i].number() - 1real)
            <= ulp(1real) by {
            assert(absolute(turned[i].number() + preds[i].number() - 1real) <= ulp(1real));
        }
        lemma_squares_turn(ps, ts, os, ws);
        assert(squares(preds, outcomes).drop_last() == squares(ps, os));
        assert(squares(turned, swapped).drop_last() == squares(ts, ws));
        let last = preds.len() - 1;
        assert(swapped[last] == !outcomes[last] && preds[last].unit() && turned[last].unit());
        assert(absolute(turned[last].number() + preds[last].number() - 1real) <= ulp(1real));
        lemma_unit_number(preds[last]);
        lemma_unit_number(turned[last]);
        let x = preds[last].number() - outcome_number(outcomes[last]);
        let y = turned[last].number() - outcome_number(swapped[last]);
        assert(x * x - y * y == (x + y) * (x - y)) by (nonlinear_arith);
        lemma_bound_of_product(x + y, x - y, 2real);
    }
}

/// Swapping events and non-events changes nothing: predictions of the opposite, of
/// the opposite outcomes, have the same skill, within rounding.
pub proof fn lemma_skill_ignores_what_is_an_event<A: Arithmetic>(
    preds: &[Binary64],
    turned: &[Binary64],
    outcomes: &[bool],
    swapped: &[bool],
    n_bins: usize,
    r: Reliability,
    s: Reliability,
)
    requires
        rounds_closely::<A>(),
        preds@.len() <= 0x10_0000_0000,
        0 < labelled(outcomes@, true).len() < outcomes@.len(),
        turned@.len() == preds@.len(),
        swapped@.len() == outcomes@.len(),
        forall|i: int| 0 <= i < outcomes@.len() ==> #[trigger] swapped@[i] == !outcomes@[i],
        forall|i: int|
            0 <= i < preds@.len() ==> absolute((#[trigger] turned@[i]).number() + preds@[i].number() - 1real) <= ulp(1real),
        call_ensures(reliability::<A>, (preds, outcomes, n_bins), Ok::<Reliability, Error>(r)),
        call_ensures(reliability::<A>, (turned, swapped, n_bins), Ok::<Reliability, Error>(s)),
    ensures
        0real < event_share(outcomes@) < 1real,
        ({
            let (n, o) = (preds@.len() as real, event_share(outcomes@));
            absolute(r.brier_skill.number() - s.brier_skill.number()) * (o * (1real - o)) <= ulp(72real * n + 322real)
        }),
{
    lemma_skill_is_against_variance::<A>(preds, outcomes, n_bins, r);
    let count = outcomes@.len() as int;
    let all = set_int_range(0, count);
    vstd::set_lib::lemma_int_range(0, count);
    let (events, others) = (labelled(outcomes@, true), labelled(swapped@, true));
    all.lemma_len_filter(|i: int| outcomes@[i] == true);
    all.lemma_len_filter(|i: int| swapped@[i] == true);
    assert(all == events + others);
    vstd::set_lib::lemma_set_disjoint_lens(events, others);
    lemma_skill_is_against_variance::<A>(turned, swapped, n_bins, s);
    let (n, x) = (count as real, events.len() as real);
    let (o, l) = (event_share(outcomes@), event_share(swapped@));
    lemma_quotient_of(x, n);
    lemma_quotient_of(n - x, n);
    assert(others.len() as real == n - x);
    assert((1real - o) * n == n - o * n) by (nonlinear_arith);
    lemma_cancel(l, 1real - o, n);
    assert((1real - o) * (1real - (1real - o)) == o * (1real - o)) by (nonlinear_arith);
    lemma_squares_turn(preds@, turned@, outcomes@, swapped@);
    let (a, b) = (sum(squares(preds@, outcomes@)), sum(squares(turned@, swapped@)));
    lemma_quotient_of(a, n);
    lemma_quotient_of(b, n);
    let (p, q) = (a / n, b / n);
    assert((p - q) * n == p * n - q * n) by (nonlinear_arith);
    assert(n * (2real / 0x10_0000_0000_0000real) == (2real * n) / 0x10_0000_0000_0000real) by (nonlinear_arith);
    lemma_quotient_bound(a - b, n, p - q, ulp(2real));
    let (v, t, u) = (o * (1real - o), r.brier_skill.number(), s.brier_skill.number());
    assert((1real - u) * v - (1real - t) * v == (t - u) * v) by (nonlinear_arith);
    lemma_sign_of_product(o, 1real - o);
    lemma_size_of_product(t - u, v);
}

/// Whether a prediction lies in a bin of `n_bins` equal ones over `[0, 1]`, within
/// a neighbouring value; one lies in the last.
pub open spec fn lies_in_bin(p: Binary64, n_bins: int, bin: int) -> bool {
    let scaled = p.number() * (n_bins as real);
    let slack = ulp(n_bins as real) + tiny();
    &&& 0 <= bin < n_bins
    &&& bin as real <= scaled + slack
    &&& scaled < bin as real + 1real + slack
}

/// The predictions of a bin.
pub open spec fn bin_members(bins: Seq<int>, bin: int, k: nat) -> Set<int> {
    set_int_range(0, k as int).filter(|i: int| bins[i] == bin)
}

/// The predictions of a bin whose event came.
pub open spec fn bin_events(outcomes: Seq<bool>, bins: Seq<int>, bin: int, k: nat) -> Set<int> {
    set_int_range(0, k as int).filter(|i: int| bins[i] == bin && outcomes[i])
}

/// The predictions of a bin as numbers, with zero in the place of all others.
pub open spec fn bin_numbers(preds: Seq<Binary64>, bins: Seq<int>, bin: int, k: nat) -> Seq<real> {
    Seq::new(
        k,
        |i: int|
            if bins[i] == bin {
                preds[i].number()
            } else {
                0real
            },
    )
}

proof fn lemma_bin_of_prediction<A: Arithmetic>(p: Binary64, n_bins: int, bin: int)
    requires
        rounds_closely::<A>(),
        p.unit(),
        0 < n_bins <= 0x100_0000_0000,
        bin_of::<A>(p, n_bins, bin),
    ensures
        lies_in_bin(p, n_bins, bin),
{
    let (count, product) = choose|count: Binary64, product: Binary64| #[trigger]
        counts::<A>(n_bins, count) && #[trigger] multiplies::<A>(p, count, product) && bin == if product.integer_part()
            >= n_bins {
            n_bins - 1
        } else {
            product.integer_part() as int
        };
    lemma_scales();
    lemma_small_numbers();
    lemma_unit_number(p);
    let (x, n) = (p.number(), n_bins as real);
    assert(x * n == n * x) by (nonlinear_arith);
    lemma_part_of(n, x);
    assert(rounds_to(x * n, product));
    if product.number() < 0real {
        lemma_rank_orders_numbers(product, zero());
        assert(product.integer_part() == 0);
    } else {
        lemma_whole_part(product);
    }
}

/// What the members of a bin come to, by sets and sums of all predictions.
proof fn lemma_bin_contents(preds: Seq<Binary64>, outcomes: Seq<bool>, bins: Seq<int>, bin: int, k: nat)
    requires
        k <= preds.len(),
        k <= outcomes.len(),
        k <= bins.len(),
    ensures
        bin_members(bins, bin, k).finite(),
        bin_members(bins, bin, k).len() == members(preds, bins, bin, k).len(),
        bin_events(outcomes, bins, bin, k).finite(),
        bin_events(outcomes, bins, bin, k).len() == events_in(outcomes, bins, bin, k),
        sum(members(preds, bins, bin, k).map_values(|p: Binary64| p.number())) == sum(bin_numbers(preds, bins, bin, k)),
        all_unit(preds) ==> all_unit(members(preds, bins, bin, k)),
    decreases k,
{
    let number = |p: Binary64| p.number();
    if k == 0 {
        assert(bin_members(bins, bin, k) == Set::<int>::empty());
        assert(bin_events(outcomes, bins, bin, k) == Set::<int>::empty());
        assert(members(preds, bins, bin, k).map_values(number) == bin_numbers(preds, bins, bin, k));
    } else {
        let j = (k - 1) as nat;
        lemma_bin_contents(preds, outcomes, bins, bin, j);
        assert(bin_numbers(preds, bins, bin, k).drop_last() == bin_numbers(preds, bins, bin, j));
        let before = members(preds, bins, bin, j);
        if bins[k - 1] == bin {
            assert(bin_members(bins, bin, k) == bin_members(bins, bin, j).insert(k - 1));
            let more = before.push(preds[k - 1]);
            assert(more.map_values(number).drop_last() == before.map_values(number));
            assert(more.map_values(number).last() == preds[k - 1].number());
        } else {
            assert(bin_members(bins, bin, k) == bin_members(bins, bin, j));
        }
        if bins[k - 1] == bin && outcomes[k - 1] {
            assert(bin_events(outcomes, bins, bin, k) == bin_events(outcomes, bins, bin, j).insert(k - 1));
        } else {
            assert(bin_events(outcomes, bins, bin, k) == bin_events(outcomes, bins, bin, j));
        }
    }
}

/// Whether a bin of a diagram holds the number of its predictions, the share of
/// events among them, and their mean, within rounding.
pub open spec fn tells_of_bin(preds: Seq<Binary64>, outcomes: Seq<bool>, bins: Seq<int>, bin: int, shown: ReliabilityBin) -> bool {
    let n = bin_members(bins, bin, preds.len()).len();
    &&& shown.n == n
    &&& 0 < n <= preds.len()
    &&& rounds_to((bin_events(outcomes, bins, bin, preds.len()).len() as real) / (n as real), shown.p_obs)
    &&& shown.p_pred_mean.finite()
    &&& absolute(shown.p_pred_mean.number() - sum(bin_numbers(preds, bins, bin, preds.len())) / (n as real)) <= ulp(
        4real * (n as real) + 5real,
    )
    &&& absolute(shown.p_obs.number()) <= 2real
    &&& absolute(shown.p_pred_mean.number()) <= 2real
}

proof fn lemma_bin_tells<A: Arithmetic>(
    preds: Seq<Binary64>,
    outcomes: Seq<bool>,
    bins: Seq<int>,
    bin: int,
    shown: ReliabilityBin,
)
    requires
        rounds_closely::<A>(),
        all_unit(preds),
        preds.len() <= 0x100_0000_0000,
        preds.len() == outcomes.len(),
        preds.len() == bins.len(),
        members(preds, bins, bin, preds.len()).len() > 0,
        summarises::<A>(
            members(preds, bins, bin, preds.len()),
            events_in(outcomes, bins, bin, preds.len()),
            shown,
        ),
    ensures
        tells_of_bin(preds, outcomes, bins, bin, shown),
{
    let inside = members(preds, bins, bin, preds.len());
    let events = events_in(outcomes, bins, bin, preds.len());
    lemma_scales();
    lemma_small_numbers();
    lemma_bin_contents(preds, outcomes, bins, bin, preds.len());
    lemma_members_bounded(preds, outcomes, bins, bin, preds.len());
    lemma_ratio_value::<A>(events as int, inside.len() as int, shown.p_obs);
    let (e, n) = (events as real, inside.len() as real);
    lemma_quotient_of(e, n);
    assert(n * 1real == n);
    lemma_quotient_bound(e, n, e / n, 1real);
    let total = choose|total: Binary64| #[trigger]
        adds_up::<A>(zero(), inside, total) && mean_of::<A>(total, inside.len() as int, shown.p_pred_mean);
    let count = choose|count: Binary64| #[trigger]
        counts::<A>(inside.len() as int, count) && divides::<A>(total, count, shown.p_pred_mean);
    let numbers = inside.map_values(|p: Binary64| p.number());
    assert forall|i: int| 0 <= i < inside.len() implies (#[trigger] inside[i]).finite() && absolute(
        inside[i].number() - numbers[i],
    ) <= 0real by {
        lemma_unit_number(inside[i]);
    }
    assert forall|i: int| 0 <= i < numbers.len() implies absolute(#[trigger] numbers[i]) <= 1real by {
        lemma_unit_number(inside[i]);
    }
    vstd::arithmetic::power2::lemma2_to64();
    vstd::arithmetic::power2::lemma_pow2_strictly_increases(1, 800);
    lemma_mean_of_terms::<A>(inside, numbers, 1real, 0real, zero(), total, count, shown.p_pred_mean);
}

/// A diagram in numbers. Of what is returned, the first holds the bin of each
/// prediction, the one in which it lies; the second numbers the bins of the
/// diagram, which are those with predictions, in ascending order. Each tells of
/// its predictions.
pub proof fn lemma_diagram_in_numbers<A: Arithmetic>(
    preds: &[Binary64],
    outcomes: &[bool],
    n_bins: usize,
    v: Reliability,
) -> (r: (Seq<int>, Seq<int>))
    requires
        rounds_closely::<A>(),
        preds@.len() <= 0x100_0000_0000,
        n_bins <= 0x100_0000_0000,
        call_ensures(reliability::<A>, (preds, outcomes, n_bins), Ok::<Reliability, Error>(v)),
    ensures
        r.0.len() == preds@.len(),
        forall|i: int| 0 <= i < preds@.len() ==> lies_in_bin(preds@[i], n_bins as int, #[trigger] r.0[i]),
        r.1.len() == v.bins@.len(),
        forall|a: int, b: int| 0 <= a < b < r.1.len() ==> #[trigger] r.1[a] < #[trigger] r.1[b],
        forall|b: int| #[trigger]
            r.1.contains(b) <==> 0 <= b < n_bins && bin_members(r.0, b, preds@.len()).len() > 0,
        forall|k: int|
            0 <= k < v.bins@.len() ==> tells_of_bin(preds@, outcomes@, r.0, r.1[k], #[trigger] v.bins@[k]),
{
    let (bins, which) = choose|bins: Seq<int>, which: Seq<int>| #[trigger]
        binned::<A>(preds@, n_bins as int, bins) && #[trigger] diagram::<A>(
            preds@,
            outcomes@,
            bins,
            n_bins as int,
            which,
            v.bins@,
        );
    assert forall|i: int| 0 <= i < preds@.len() implies lies_in_bin(preds@[i], n_bins as int, #[trigger] bins[i]) by {
        assert(bin_of::<A>(preds@[i], n_bins as int, bins[i]));
        assert(preds@[i].unit());
        lemma_bin_of_prediction::<A>(preds@[i], n_bins as int, bins[i]);
    }
    assert forall|b: int| #[trigger]
        which.contains(b) <==> 0 <= b < n_bins && bin_members(bins, b, preds@.len()).len() > 0 by {
        lemma_bin_contents(preds@, outcomes@, bins, b, preds@.len());
    }
    assert forall|k: int| 0 <= k < v.bins@.len() implies tells_of_bin(
        preds@,
        outcomes@,
        bins,
        which[k],
        #[trigger] v.bins@[k],
    ) by {
        assert(which.contains(which[k]));
        lemma_bin_tells::<A>(preds@, outcomes@, bins, which[k], v.bins@[k]);
    }
    (bins, which)
}

/// The distances of the predicted from the observed frequencies of the bins, each
/// times the share of predictions in its bin.
pub open spec fn weighted_gaps(shown: Seq<ReliabilityBin>, n: nat) -> Seq<real> {
    Seq::new(
        shown.len(),
        |k: int|
            ((shown[k].n as real) / (n as real)) * absolute(shown[k].p_obs.number() - shown[k].p_pred_mean.number()),
    )
}

proof fn lemma_gap_product(s: real, x: real, g: real, y: real)
    requires
        0real <= s <= 1real,
        0real <= g <= 4real,
        absolute(x - s) <= ulp(2real),
        absolute(y - g) <= ulp(5real),
    ensures
        0real <= s * g <= 4real,
        absolute(x * y - s * g) <= ulp(15real),
{
    assert(x * y - s * g == (x - s) * y + (y - g) * s) by (nonlinear_arith);
    lemma_bound_of_product(x - s, y, 5real);
    lemma_bound_of_product(y - g, s, 1real);
    assert(s * g == g * s) by (nonlinear_arith);
    lemma_part_of(g, s);
}

proof fn lemma_gap_near<A: Arithmetic>(bin: ReliabilityBin, n: int, r: Binary64)
    requires
        rounds_closely::<A>(),
        0 < n <= 0x100_0000_0000,
        bin.n <= n,
        bin.p_obs.finite(),
        bin.p_pred_mean.finite(),
        absolute(bin.p_obs.number()) <= 2real,
        absolute(bin.p_pred_mean.number()) <= 2real,
        calibration_term::<A>(bin, n, r),
    ensures
        r.finite(),
        ({
            let exact = ((bin.n as real) / (n as real)) * absolute(bin.p_obs.number() - bin.p_pred_mean.number());
            0real <= exact <= 4real && absolute(r.number() - exact) <= ulp(24real)
        }),
{
    let (share, gap) = choose|share: Binary64, gap: Binary64| #[trigger]
        ratio_of::<A>(bin.n as int, n, share) && #[trigger] differs::<A>(bin.p_obs, bin.p_pred_mean, gap) && multiplies::<
            A,
        >(share, gap.unsigned(), r);
    lemma_scales();
    lemma_ratio_value::<A>(bin.n as int, n, share);
    let (m, w) = (bin.n as real, n as real);
    let s = m / w;
    lemma_quotient_of(m, w);
    assert(w * 1real == w);
    lemma_quotient_bound(m, w, s, 1real);
    assert(s >= 0real) by (nonlinear_arith)
        requires
            s * w == m,
            m >= 0real,
            w > 0real,
    ;
    let d = bin.p_obs.number() - bin.p_pred_mean.number();
    assert(rounds_to(d, gap));
    lemma_unsigned_number(gap);
    let (x, y, g) = (share.number(), gap.unsigned().number(), absolute(d));
    assert(absolute(y - g) <= ulp(5real));
    assert(absolute(x - s) <= ulp(2real));
    lemma_gap_product(s, x, g, y);
    assert(multiplies::<A>(share, gap.unsigned(), r));
    assert(absolute(x * y) <= 5real);
    assert(rounds_to(x * y, r));
}

/// The expected calibration error is the sum of the distances of the predicted
/// from the observed frequencies of the bins, each times the share of predictions
/// in its bin, within rounding.
pub proof fn lemma_calibration_error_in_numbers<A: Arithmetic>(
    preds: &[Binary64],
    outcomes: &[bool],
    n_bins: usize,
    v: Reliability,
)
    requires
        rounds_closely::<A>(),
        preds@.len() <= 0x100_0000_0000,
        n_bins <= 0x100_0000_0000,
        v.bins@.len() <= 0x100_0000_0000,
        call_ensures(reliability::<A>, (preds, outcomes, n_bins), Ok::<Reliability, Error>(v)),
    ensures
        v.ece.finite(),
        absolute(v.ece.number() - sum(weighted_gaps(v.bins@, preds@.len()))) <= (v.bins@.len() as real) * ulp(
            16real * (v.bins@.len() as real) + 26real,
        ),
{
    let (bins, which) = lemma_diagram_in_numbers::<A>(preds, outcomes, n_bins, v);
    let n = preds@.len() as int;
    let terms = choose|terms: Seq<Binary64>|
        {
            &&& #[trigger] adds_up::<A>(zero(), terms, v.ece)
            &&& terms.len() == v.bins@.len()
            &&& forall|k: int| 0 <= k < terms.len() ==> calibration_term::<A>(v.bins@[k], n, #[trigger] terms[k])
        };
    lemma_scales();
    lemma_small_numbers();
    let numbers = weighted_gaps(v.bins@, preds@.len());
    assert forall|k: int| 0 <= k < terms.len() implies (#[trigger] terms[k]).finite() && absolute(
        terms[k].number() - numbers[k],
    ) <= ulp(24real) by {
        assert(calibration_term::<A>(v.bins@[k], n, terms[k]));
        assert(tells_of_bin(preds@, outcomes@, bins, which[k], v.bins@[k]));
        lemma_gap_near::<A>(v.bins@[k], n, terms[k]);
    }
    assert forall|k: int| 0 <= k < numbers.len() implies absolute(#[trigger] numbers[k]) <= 4real by {
        assert(calibration_term::<A>(v.bins@[k], n, terms[k]));
        assert(tells_of_bin(preds@, outcomes@, bins, which[k], v.bins@[k]));
        lemma_gap_near::<A>(v.bins@[k], n, terms[k]);
    }
    lemma_terms_near(terms, numbers, 4real, ulp(24real));
    let m = terms.len() as real;
    let size = m * (2real * 4real);
    assert(size == 8real * m);
    lemma_sum_near::<A>(zero(), terms, v.ece, size);
    let (a, b) = (ulp(24real), ulp(2real * size) + 2real * tiny());
    assert(m * a + m * b == m * (a + b)) by (nonlinear_arith);
    let bound = ulp(16real * m + 26real);
    assert(a + b <= bound);
    assert(m * (a + b) <= m * bound) by (nonlinear_arith)
        requires
            a + b <= bound,
            m >= 0real,
    ;
}

} // verus!
