//! Contingency tables and their categorical skill scores.

use vstd::prelude::*;

use crate::accuracy::{leaves_neutral, rounds_closely, rounds_to};
use crate::arithmetic::{counts, deterministic, divides, ratio, ratio_of, Arithmetic};
use crate::binary64::{lemma_rank_orders_numbers, lemma_small_numbers, one, zero, Binary64};
use crate::ranking::lemma_ratio_value;

verus! {

/// A 2×2 contingency table for binary event forecasting.
///
/// ```text
///                     event observed
///                      yes        no
///   alert  yes   |   hits   | false_alarms |
///          no    |  misses  | corr_neg     |
/// ```
#[derive(Debug, Clone, Copy, PartialEq, Eq, Structural)]
pub struct Contingency {
    pub hits: u64,
    pub misses: u64,
    pub false_alarms: u64,
    pub correct_negatives: u64,
}

impl Default for Contingency {
    fn default() -> (r: Contingency)
        ensures
            r == (Contingency { hits: 0, misses: 0, false_alarms: 0, correct_negatives: 0 }),
    {
        Contingency { hits: 0, misses: 0, false_alarms: 0, correct_negatives: 0 }
    }
}

/// `r` is the quotient of two counts, present exactly where the divisor is not zero.
pub open spec fn score<A: Arithmetic>(n: int, d: int, r: Option<Binary64>) -> bool {
    match r {
        Some(v) => d > 0 && ratio_of::<A>(n, d, v),
        None => d == 0,
    }
}

fn score_of<A: Arithmetic>(n: u64, d: u64) -> (r: Option<Binary64>)
    ensures
        score::<A>(n as int, d as int, r),
{
    if d > 0 {
        Some(ratio::<A>(n, d))
    } else {
        None
    }
}

impl Contingency {
    /// The number of units scored.
    pub open spec fn total(self) -> nat {
        self.hits as nat + self.misses as nat + self.false_alarms as nat + self.correct_negatives as nat
    }

    /// Total number of units (months, or cells and days) scored.
    pub fn n(&self) -> (r: u64)
        requires
            self.total() <= u64::MAX,
        ensures
            r == self.total(),
    {
        self.hits + self.misses + self.false_alarms + self.correct_negatives
    }

    /// Probability of detection (hit rate): `hits / (hits + misses)`.
    /// Fraction of observed events that were alerted. `None` if no events.
    pub fn pod<A: Arithmetic>(&self) -> (r: Option<Binary64>)
        requires
            self.hits + self.misses <= u64::MAX,
        ensures
            score::<A>(self.hits as int, self.hits + self.misses, r),
    {
        score_of::<A>(self.hits, self.hits + self.misses)
    }

    /// False alarm ratio: `false_alarms / (hits + false_alarms)`.
    /// Fraction of alerts that were wrong. `None` if no alerts.
    pub fn far<A: Arithmetic>(&self) -> (r: Option<Binary64>)
        requires
            self.hits + self.false_alarms <= u64::MAX,
        ensures
            score::<A>(self.false_alarms as int, self.hits + self.false_alarms, r),
    {
        score_of::<A>(self.false_alarms, self.hits + self.false_alarms)
    }

    /// Critical success index (threat score):
    /// `hits / (hits + misses + false_alarms)`. `None` if all three are zero.
    pub fn csi<A: Arithmetic>(&self) -> (r: Option<Binary64>)
        requires
            self.hits + self.misses + self.false_alarms <= u64::MAX,
        ensures
            score::<A>(self.hits as int, self.hits + self.misses + self.false_alarms, r),
    {
        score_of::<A>(self.hits, self.hits + self.misses + self.false_alarms)
    }

    /// Frequency bias: `(hits + false_alarms) / (hits + misses)`. Above one
    /// over-forecasts, below one under-forecasts. `None` if no events.
    pub fn frequency_bias<A: Arithmetic>(&self) -> (r: Option<Binary64>)
        requires
            self.hits + self.misses <= u64::MAX,
            self.hits + self.misses > 0 ==> self.hits + self.false_alarms <= u64::MAX,
        ensures
            score::<A>(self.hits + self.false_alarms, self.hits + self.misses, r),
    {
        if self.hits + self.misses > 0 {
            Some(ratio::<A>(self.hits + self.false_alarms, self.hits + self.misses))
        } else {
            None
        }
    }
}

/// Whether a table is so small that its counts are exact.
pub open spec fn exactly_counted(table: Contingency) -> bool {
    table.total() <= 0x20_0000_0000_0000
}

/// The scores of a table in numbers, each within a neighbouring value: of the
/// events, the share that was alerted; of the alerts, the share that was wrong; of
/// what was either, the share that was both; and how many alerts there were for an
/// event.
pub proof fn lemma_scores_in_numbers<A: Arithmetic>(
    table: Contingency,
    pod: Option<Binary64>,
    far: Option<Binary64>,
    csi: Option<Binary64>,
    bias: Option<Binary64>,
)
    requires
        rounds_closely::<A>(),
        exactly_counted(table),
        call_ensures(Contingency::pod::<A>, (&table,), pod),
        call_ensures(Contingency::far::<A>, (&table,), far),
        call_ensures(Contingency::csi::<A>, (&table,), csi),
        call_ensures(Contingency::frequency_bias::<A>, (&table,), bias),
    ensures
        ({
            let events = table.hits + table.misses;
            let alerts = table.hits + table.false_alarms;
            let either = table.hits + table.misses + table.false_alarms;
            &&& pod is Some <==> events > 0
            &&& far is Some <==> alerts > 0
            &&& csi is Some <==> either > 0
            &&& bias is Some <==> events > 0
            &&& events > 0 ==> rounds_to((table.hits as real) / (events as real), pod->0)
            &&& alerts > 0 ==> rounds_to((table.false_alarms as real) / (alerts as real), far->0)
            &&& either > 0 ==> rounds_to((table.hits as real) / (either as real), csi->0)
            &&& events > 0 ==> rounds_to((alerts as real) / (events as real), bias->0)
        }),
{
    let (h, m, f) = (table.hits as int, table.misses as int, table.false_alarms as int);
    if h + m > 0 {
        lemma_ratio_value::<A>(h, h + m, pod->0);
        lemma_ratio_value::<A>(h + f, h + m, bias->0);
    }
    if h + f > 0 {
        lemma_ratio_value::<A>(f, h + f, far->0);
    }
    if h + m + f > 0 {
        lemma_ratio_value::<A>(h, h + m + f, csi->0);
    }
}

/// A perfect forecast has the best scores: without a miss every event was alerted,
/// without a false alarm no alert was wrong, and without either all three of the
/// other scores are one.
pub proof fn lemma_perfect_scores<A: Arithmetic>(
    table: Contingency,
    pod: Option<Binary64>,
    csi: Option<Binary64>,
    bias: Option<Binary64>,
)
    requires
        deterministic::<A>(),
        rounds_closely::<A>(),
        leaves_neutral::<A>(),
        exactly_counted(table),
        table.hits > 0,
        table.misses == 0,
        call_ensures(Contingency::pod::<A>, (&table,), pod),
        call_ensures(Contingency::csi::<A>, (&table,), csi),
        call_ensures(Contingency::frequency_bias::<A>, (&table,), bias),
    ensures
        pod == Some(one()),
        table.false_alarms == 0 ==> csi == Some(one()) && bias == Some(one()),
{
    lemma_whole_ratio::<A>(table.hits as int, pod->0);
    if table.false_alarms == 0 {
        lemma_whole_ratio::<A>(table.hits as int, csi->0);
        lemma_whole_ratio::<A>(table.hits as int, bias->0);
    }
}

proof fn lemma_whole_ratio<A: Arithmetic>(n: int, r: Binary64)
    requires
        deterministic::<A>(),
        rounds_closely::<A>(),
        leaves_neutral::<A>(),
        0 < n <= 0x20_0000_0000_0000,
        ratio_of::<A>(n, n, r),
    ensures
        r == one(),
{
    let (x, y) = choose|x: Binary64, y: Binary64| #[trigger]
        counts::<A>(n, x) && #[trigger] counts::<A>(n, y) && divides::<A>(x, y, r);
    assert(x == y);
    lemma_small_numbers();
    lemma_rank_orders_numbers(zero(), x);
}

} // verus!
