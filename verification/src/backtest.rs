//! Backtesting against a dated event inventory.
//!
//! Validation of a nowcast is a binary forecast-verification problem: on each
//! time unit the model either raises an alert or not, and an event either
//! occurred or not. That gives a 2×2 [`Contingency`] table and the standard
//! categorical skill scores.
//!
//! Matching is event-centric. Units differ by category, as is conventional for
//! the verification of early-warning systems: hits and misses count events,
//! false alarms and correct negatives count units without one.

use vstd::prelude::*;

use crate::calendar::{calendar_month, MonthKey};
use crate::contingency::Contingency;
use crate::error::{Error, Reason};
use crate::grid::GridDims;
use crate::keyset::{ascending, month_number, Key, KeySet, Period};
use crate::matching::{
    chebyshev_window, lemma_count_ends, lemma_count_next, lemma_units_len, lemma_units_partition, near_cells, reaches, Reach,
};

verus! {

/// A monotone integer time index: a day number, or a sub-daily step index.
///
/// Unlike a [`MonthKey`], matching is linear: there is no calendar rollover, so
/// the tolerance window is simply `key ± tol`.
pub type DayKey = i64;

/// The months of the days on which there was an alert.
pub open spec fn alerted_months(day_month: Seq<MonthKey>, alert_days: Seq<bool>) -> Set<MonthKey> {
    Set::new(|m: MonthKey| exists|i: int| 0 <= i < day_month.len() && alert_days[i] && #[trigger] day_month[i] == m)
}

/// Whether a set holds a period within the tolerance of a period.
pub open spec fn has_near<T: Period>(period: T, set: Set<T>, tolerance: nat) -> bool {
    exists|other: T| #[trigger] set.contains(other) && reaches(period, other, tolerance)
}

/// A contingency table counts months: observed event-months with and without an
/// alert month within the tolerance, and months of the record without an event
/// within the tolerance, with and without an alert.
pub open spec fn scores_months(
    present: Set<MonthKey>,
    alerted: Set<MonthKey>,
    events: Set<MonthKey>,
    tolerance: nat,
    table: Contingency,
) -> bool {
    let observed = events.filter(|m: MonthKey| present.contains(m));
    &&& table.hits == observed.filter(|m: MonthKey| has_near(m, alerted, tolerance)).len()
    &&& table.misses == observed.filter(|m: MonthKey| !has_near(m, alerted, tolerance)).len()
    &&& table.false_alarms == present.filter(
        |m: MonthKey| alerted.contains(m) && !has_near(m, observed, tolerance),
    ).len()
    &&& table.correct_negatives == present.filter(
        |m: MonthKey| !alerted.contains(m) && !has_near(m, observed, tolerance),
    ).len()
}

/// Whether a set holds a period within the tolerance of a period.
fn probe_near<T: Period + Copy>(period: T, set: &KeySet<T>, tolerance: u32) -> (r: bool)
    requires
        set.wf(),
    ensures
        r == has_near(period, set@, tolerance as nat),
{
    let mut d: i64 = -(tolerance as i64);
    while d <= tolerance as i64
        invariant
            set.wf(),
            -tolerance <= d <= tolerance + 1,
            forall|e: int, other: T|
                -tolerance <= e < d && #[trigger] period.moved(e) == Some(other) ==> !#[trigger] set@.contains(other),
        decreases tolerance + 1 - d,
    {
        if let Some(other) = period.shifted(d) {
            if set.contains(other) {
                assert(period.moved(d as int) == Some(other));
                return true;
            }
        }
        d = d + 1;
    }
    false
}

/// The members of a list that belong to a set.
fn select_members<T: Key + Copy>(list: &[T], set: &KeySet<T>) -> (r: KeySet<T>)
    requires
        set.wf(),
    ensures
        r.wf(),
        r@ == list@.to_set().filter(|k: T| set@.contains(k)),
{
    let mut kept: Vec<T> = Vec::new();
    let mut i: usize = 0;
    while i < list.len()
        invariant
            i <= list@.len(),
            set.wf(),
            forall|k: T| #[trigger] kept@.contains(k) <==> list@.take(i as int).contains(k) && set@.contains(k),
        decreases list@.len() - i,
    {
        let ghost before = kept@;
        let key: T = list[i];
        if set.contains(key) {
            kept.push(key);
        }
        proof {
            assert(list@.take(i + 1) == list@.take(i as int).push(key));
            assert forall|k: T| #[trigger] kept@.contains(k) <==> list@.take(i + 1).contains(k) && set@.contains(k) by {
                vstd::seq_lib::lemma_seq_contains_after_push(list@.take(i as int), key, k);
                vstd::seq_lib::lemma_seq_contains_after_push(before, key, k);
            }
        }
        i = i + 1;
    }
    let r: KeySet<T> = KeySet::from_keys(kept.as_slice());
    assert(list@.take(list@.len() as int) == list@);
    assert(r@ == list@.to_set().filter(|k: T| set@.contains(k)));
    r
}

/// Builds a contingency table by event-centric matching with a ±`tol_months`
/// window.
///
/// - `day_month` is the `(year, month)` key for each day, aligned 1:1 with
///   `alert_days` (the per-day alert flags from the nowcast).
/// - `event_months` are the months in which an event was observed; several
///   events in one month collapse to that month, and months outside the record
///   are not scored.
/// - `tol_months` is the matching half-window, absorbing the month-level date
///   uncertainty of an inventory.
///
/// A hit is an observed event-month with an alert month within the window, a
/// miss one without; a false alarm is an alert month with no event within the
/// window, a correct negative a month without an alert and without an event
/// within the window.
pub fn monthly_contingency(
    day_month: &[MonthKey],
    alert_days: &[bool],
    event_months: &[MonthKey],
    tol_months: u32,
) -> (r: Result<Contingency, Error>)
    ensures
        match r {
            Ok(table) => day_month@.len() == alert_days@.len() && scores_months(
                day_month@.to_set(),
                alerted_months(day_month@, alert_days@),
                event_months@.to_set(),
                tol_months as nat,
                table,
            ),
            Err(e) => day_month@.len() != alert_days@.len() && e == (Error::InvalidParameter {
                name: "alert_days",
                reason: Reason::Counts {
                    before: "",
                    first: day_month@.len() as usize,
                    between: " day_month entries but ",
                    second: alert_days@.len() as usize,
                    after: " alert_days",
                },
            }),
        },
{
    if day_month.len() != alert_days.len() {
        return Err(
            Error::InvalidParameter {
                name: "alert_days",
                reason: Reason::Counts {
                    before: "",
                    first: day_month.len(),
                    between: " day_month entries but ",
                    second: alert_days.len(),
                    after: " alert_days",
                },
            },
        );
    }
    let present: KeySet<MonthKey> = KeySet::from_keys(day_month);
    let mut flagged: Vec<MonthKey> = Vec::new();
    let mut i: usize = 0;
    while i < day_month.len()
        invariant
            i <= day_month@.len(),
            day_month@.len() == alert_days@.len(),
            forall|m: MonthKey| #[trigger]
                flagged@.contains(m) <==> exists|k: int| 0 <= k < i && alert_days@[k] && #[trigger] day_month@[k] == m,
        decreases day_month@.len() - i,
    {
        let ghost before = flagged@;
        let key: MonthKey = day_month[i];
        if alert_days[i] {
            flagged.push(key);
        }
        proof {
            assert forall|m: MonthKey| #[trigger]
                flagged@.contains(m) <==> exists|k: int|
                    0 <= k < i + 1 && alert_days@[k] && #[trigger] day_month@[k] == m by {
                vstd::seq_lib::lemma_seq_contains_after_push(before, key, m);
                if before.contains(m) {
                    let k = choose|k: int| 0 <= k < i && alert_days@[k] && #[trigger] day_month@[k] == m;
                    assert(day_month@[k] == m);
                }
                if alert_days@[i as int] && m == key {
                    assert(day_month@[i as int] == m);
                }
            }
        }
        i = i + 1;
    }
    let alerted: KeySet<MonthKey> = KeySet::from_keys(flagged.as_slice());
    let ghost present_set = day_month@.to_set();
    let ghost alerted_set = alerted_months(day_month@, alert_days@);
    assert(alerted@ == alerted_set);
    let observed: KeySet<MonthKey> = select_members(event_months, &present);
    let ghost observed_set = event_months@.to_set().filter(|m: MonthKey| present_set.contains(m));
    assert(observed@ == observed_set);
    let ghost tolerance = tol_months as nat;
    let ghost hit = |m: MonthKey| has_near(m, alerted_set, tolerance);
    let ghost miss = |m: MonthKey| !has_near(m, alerted_set, tolerance);
    let ghost alarm = |m: MonthKey| alerted_set.contains(m) && !has_near(m, observed_set, tolerance);
    let ghost quiet = |m: MonthKey| !alerted_set.contains(m) && !has_near(m, observed_set, tolerance);
    let mut c: Contingency = Contingency::default();
    let listed: &[MonthKey] = observed.as_slice();
    proof {
        lemma_count_ends(observed, hit);
        lemma_count_ends(observed, miss);
    }
    i = 0;
    while i < listed.len()
        invariant
            i <= listed@.len(),
            listed@.no_duplicates(),
            alerted.wf(),
            alerted@ == alerted_set,
            tolerance == tol_months,
            hit == (|m: MonthKey| has_near(m, alerted_set, tolerance)),
            miss == (|m: MonthKey| !has_near(m, alerted_set, tolerance)),
            c.hits == listed@.take(i as int).to_set().filter(hit).len(),
            c.misses == listed@.take(i as int).to_set().filter(miss).len(),
            c.hits <= i,
            c.misses <= i,
            c.false_alarms == 0,
            c.correct_negatives == 0,
        decreases listed@.len() - i,
    {
        proof {
            lemma_count_next(listed@, i as int, hit);
            lemma_count_next(listed@, i as int, miss);
        }
        if probe_near(listed[i], &alerted, tol_months) {
            c.hits = c.hits + 1;
        } else {
            c.misses = c.misses + 1;
        }
        i = i + 1;
    }
    let months: &[MonthKey] = present.as_slice();
    proof {
        lemma_count_ends(present, alarm);
        lemma_count_ends(present, quiet);
    }
    let ghost (hits, misses) = (c.hits, c.misses);
    i = 0;
    while i < months.len()
        invariant
            i <= months@.len(),
            months@.no_duplicates(),
            alerted.wf(),
            alerted@ == alerted_set,
            observed.wf(),
            observed@ == observed_set,
            tolerance == tol_months,
            alarm == (|m: MonthKey| alerted_set.contains(m) && !has_near(m, observed_set, tolerance)),
            quiet == (|m: MonthKey| !alerted_set.contains(m) && !has_near(m, observed_set, tolerance)),
            c.false_alarms == months@.take(i as int).to_set().filter(alarm).len(),
            c.correct_negatives == months@.take(i as int).to_set().filter(quiet).len(),
            c.false_alarms <= i,
            c.correct_negatives <= i,
            c.hits == hits,
            c.misses == misses,
        decreases months@.len() - i,
    {
        proof {
            lemma_count_next(months@, i as int, alarm);
            lemma_count_next(months@, i as int, quiet);
        }
        if !probe_near(months[i], &observed, tol_months) {
            if alerted.contains(months[i]) {
                c.false_alarms = c.false_alarms + 1;
            } else {
                c.correct_negatives = c.correct_negatives + 1;
            }
        }
        i = i + 1;
    }
    Ok(c)
}

/// **Spatial** event-centric contingency over a grid of per-cell monthly alerts.
///
/// An event is matched only if a nearby cell alerted, so a wet month that
/// triggers far from the slide does not count as a hit.
///
/// - `dims` is the grid the cells index into (row-major).
/// - `months` are the calendar months in the analysed period.
/// - `alerted` are the `(cell, month)` pairs that raised an alert.
/// - `events` are the observed `(cell, month)` events, deduplicated internally.
/// - `cell_radius` is the neighbourhood half-width (Chebyshev) of a match.
/// - `tol_months` is the month-matching half-window.
pub fn spatial_monthly_contingency(
    dims: GridDims,
    months: &[MonthKey],
    alerted: &KeySet<(usize, MonthKey)>,
    events: &[(usize, MonthKey)],
    cell_radius: usize,
    tol_months: u32,
) -> (r: Contingency)
    requires
        dims.fits(),
        alerted.wf(),
        months@.to_set().len() * dims.cells() <= u64::MAX,
    ensures
        (Reach { dims, radius: cell_radius, tolerance: tol_months }).scores(
            months@.to_set(),
            alerted@,
            events@.to_set(),
            r,
        ),
{
    let reach = Reach { dims, radius: cell_radius, tolerance: tol_months };
    reach.contingency(months, alerted, events)
}

/// **Day-resolution** spatial, event-centric contingency.
///
/// The day-resolution analogue of [`spatial_monthly_contingency`], for
/// inventories dated to the day or finer: the temporal key is a linear integer
/// index, so the tolerance window is `day ± tol_days` with no calendar
/// arithmetic.
pub fn spatial_daily_contingency(
    dims: GridDims,
    days: &[DayKey],
    alerted: &KeySet<(usize, DayKey)>,
    events: &[(usize, DayKey)],
    cell_radius: usize,
    tol_days: u32,
) -> (r: Contingency)
    requires
        dims.fits(),
        alerted.wf(),
        days@.to_set().len() * dims.cells() <= u64::MAX,
    ensures
        (Reach { dims, radius: cell_radius, tolerance: tol_days }).scores(
            days@.to_set(),
            alerted@,
            events@.to_set(),
            r,
        ),
{
    let reach = Reach { dims, radius: cell_radius, tolerance: tol_days };
    reach.contingency(days, alerted, events)
}

/// The best lead time of an event: how long before it the earliest alert that it
/// covers came; none where it covers no alert.
pub open spec fn lead_of(
    reach: Reach,
    alerted: Set<(usize, DayKey)>,
    event: (usize, DayKey),
    lead: Option<i64>,
) -> bool {
    match lead {
        Some(l) => {
            &&& exists|unit: (usize, DayKey)| #[trigger]
                alerted.contains(unit) && reach.covers(event, unit) && unit.1 == event.1 - l
            &&& forall|unit: (usize, DayKey)| #[trigger]
                alerted.contains(unit) && reach.covers(event, unit) ==> event.1 - l <= unit.1
        },
        None => !reach.warned(event, alerted),
    }
}

/// A list holds the observed events in ascending order, each with its best lead time.
pub open spec fn leads_of(
    reach: Reach,
    days: Set<DayKey>,
    alerted: Set<(usize, DayKey)>,
    events: Set<(usize, DayKey)>,
    leads: Seq<((usize, DayKey), Option<i64>)>,
) -> bool {
    let listed = leads.map_values(|l: ((usize, DayKey), Option<i64>)| l.0);
    &&& ascending(listed)
    &&& listed.to_set() == reach.observed(days, events)
    &&& forall|i: int| 0 <= i < leads.len() ==> lead_of(reach, alerted, (#[trigger] leads[i]).0, leads[i].1)
}

/// The best lead time of an event.
fn lead_time(reach: &Reach, event: (usize, DayKey), alerted: &KeySet<(usize, DayKey)>) -> (r: Option<i64>)
    requires
        reach.dims.fits(),
        event.0 < reach.dims.cells(),
        alerted.wf(),
    ensures
        lead_of(*reach, alerted@, event, r),
{
    let cells: Vec<usize> = chebyshev_window(reach.dims, event.0, reach.radius);
    let tolerance: i64 = reach.tolerance as i64;
    let mut d: i64 = -tolerance;
    while d <= tolerance
        invariant
            tolerance == reach.tolerance,
            -tolerance <= d <= tolerance + 1,
            alerted.wf(),
            forall|cell: usize|
                cells@.contains(cell) <==> near_cells(reach.dims, event.0 as int, cell as int, reach.radius as nat),
            forall|unit: (usize, DayKey)| #[trigger]
                alerted@.contains(unit) && reach.covers(event, unit) ==> event.1 + d <= unit.1,
        decreases tolerance + 1 - d,
    {
        if let Some(day) = event.1.shifted(d) {
            let mut i: usize = 0;
            while i < cells.len()
                invariant
                    i <= cells@.len(),
                    alerted.wf(),
                    day == event.1 + d,
                    tolerance == reach.tolerance,
                    -tolerance <= d <= tolerance,
                    forall|cell: usize|
                        cells@.contains(cell) <==> near_cells(
                            reach.dims,
                            event.0 as int,
                            cell as int,
                            reach.radius as nat,
                        ),
                    forall|unit: (usize, DayKey)| #[trigger]
                        alerted@.contains(unit) && reach.covers(event, unit) ==> event.1 + d <= unit.1,
                    forall|k: int| 0 <= k < i ==> !alerted@.contains((#[trigger] cells@[k], day)),
                decreases cells@.len() - i,
            {
                if alerted.contains((cells[i], day)) {
                    proof {
                        assert(event.1.moved(d as int) == Some(day));
                        assert(cells@.contains(cells@[i as int]));
                        assert(reach.covers(event, (cells@[i as int], day)));
                    }
                    return Some(-d);
                }
                i = i + 1;
            }
            proof {
                assert forall|unit: (usize, DayKey)| #[trigger] alerted@.contains(unit) && reach.covers(event, unit)
                    implies event.1 + d + 1 <= unit.1 by {
                    if unit.1 == day {
                        assert(cells@.contains(unit.0));
                        let k = choose|k: int| 0 <= k < cells@.len() && cells@[k] == unit.0;
                        assert((cells@[k], day) == unit);
                    }
                }
            }
        }
        d = d + 1;
    }
    proof {
        if reach.warned(event, alerted@) {
            let unit = choose|unit: (usize, DayKey)| #[trigger] alerted@.contains(unit) && reach.covers(event, unit);
            assert(event.1 + d <= unit.1);
        }
    }
    None
}

/// Per-event best lead times for a day-resolution spatial nowcast.
///
/// Each observed event, deduplicated and in ascending order, comes with the lead
/// of the earliest alert that it covers: positive where the alert led the event,
/// zero on the day, negative where it lagged within the tolerance. An event
/// without such an alert is a miss. The events with a lead are exactly the hits
/// of [`spatial_daily_contingency`] for the same inputs.
pub fn lead_times(
    dims: GridDims,
    days: &[DayKey],
    alerted: &KeySet<(usize, DayKey)>,
    events: &[(usize, DayKey)],
    cell_radius: usize,
    tol_days: u32,
) -> (r: Vec<((usize, DayKey), Option<i64>)>)
    requires
        dims.fits(),
        alerted.wf(),
    ensures
        leads_of(
            (Reach { dims, radius: cell_radius, tolerance: tol_days }),
            days@.to_set(),
            alerted@,
            events@.to_set(),
            r@,
        ),
{
    let reach = Reach { dims, radius: cell_radius, tolerance: tol_days };
    let set: KeySet<DayKey> = KeySet::from_keys(days);
    let observed: KeySet<(usize, DayKey)> = reach.select_observed(&set, events);
    let listed: &[(usize, DayKey)] = observed.as_slice();
    let ghost event_of = |l: ((usize, DayKey), Option<i64>)| l.0;
    let mut r: Vec<((usize, DayKey), Option<i64>)> = Vec::new();
    proof {
        observed.lemma_listed();
        assert forall|k: int| 0 <= k < listed@.len() implies (#[trigger] listed@[k]).0 < dims.cells() by {
            assert(observed@.contains(listed@[k]));
        }
    }
    let mut i: usize = 0;
    while i < listed.len()
        invariant
            i <= listed@.len(),
            reach == (Reach { dims, radius: cell_radius, tolerance: tol_days }),
            dims.fits(),
            alerted.wf(),
            forall|k: int| 0 <= k < listed@.len() ==> (#[trigger] listed@[k]).0 < dims.cells(),
            r@.len() == i,
            forall|k: int| 0 <= k < i ==> (#[trigger] r@[k]).0 == listed@[k] && lead_of(reach, alerted@, r@[k].0, r@[k].1),
        decreases listed@.len() - i,
    {
        let lead: Option<i64> = lead_time(&reach, listed[i], alerted);
        r.push((listed[i], lead));
        i = i + 1;
    }
    assert(r@.map_values(event_of) == listed@);
    r
}

/// Every observed event is either hit or missed, never both: the two counts add
/// up to the number of observed events.
pub proof fn lemma_events_are_hit_or_missed<T: Period>(
    reach: Reach,
    periods: Set<T>,
    alerted: Set<(usize, T)>,
    events: Set<(usize, T)>,
)
    requires
        events.finite(),
    ensures
        reach.hits(periods, alerted, events).len() + reach.misses(periods, alerted, events).len() == reach.observed(
            periods,
            events,
        ).len(),
{
    let observed = reach.observed(periods, events);
    events.lemma_len_filter(|e: (usize, T)| e.0 < reach.dims.cells() && periods.contains(e.1));
    let (hits, misses) = (reach.hits(periods, alerted, events), reach.misses(periods, alerted, events));
    observed.lemma_len_filter(|e: (usize, T)| reach.warned(e, alerted));
    observed.lemma_len_filter(|e: (usize, T)| !reach.warned(e, alerted));
    assert(observed == hits + misses);
    vstd::set_lib::lemma_set_disjoint_lens(hits, misses);
}

/// A contingency table depends on nothing but the sets of analysed periods, of
/// alerts and of events: neither their order nor repetitions in a list matter.
pub proof fn lemma_table_is_unique<T: Period>(
    reach: Reach,
    periods: Set<T>,
    alerted: Set<(usize, T)>,
    events: Set<(usize, T)>,
    a: Contingency,
    b: Contingency,
)
    requires
        reach.scores(periods, alerted, events, a),
        reach.scores(periods, alerted, events, b),
    ensures
        a == b,
{
}

/// A wider reach is never stricter: with a larger radius and a larger tolerance
/// every hit stays a hit, no alert becomes a false alarm, and no unit becomes a
/// correct negative.
pub proof fn lemma_wider_reach<T: Period>(
    narrow: Reach,
    wide: Reach,
    periods: Set<T>,
    alerted: Set<(usize, T)>,
    events: Set<(usize, T)>,
)
    requires
        narrow.dims == wide.dims,
        narrow.radius <= wide.radius,
        narrow.tolerance <= wide.tolerance,
    ensures
        narrow.hits(periods, alerted, events).subset_of(wide.hits(periods, alerted, events)),
        wide.false_alarms(periods, alerted, events).subset_of(narrow.false_alarms(periods, alerted, events)),
        wide.correct_negatives(periods, alerted, events).subset_of(narrow.correct_negatives(periods, alerted, events)),
{
    assert forall|event: (usize, T), unit: (usize, T)| narrow.covers(event, unit) implies #[trigger] wide.covers(
        event,
        unit,
    ) by {
        let d = choose|d: int|
            -narrow.tolerance <= d <= narrow.tolerance && #[trigger] event.1.moved(d) == Some(unit.1);
        assert(event.1.moved(d) == Some(unit.1));
    }
    assert forall|e: (usize, T)| narrow.warned(e, alerted) implies wide.warned(e, alerted) by {
        let unit = choose|unit: (usize, T)| #[trigger] alerted.contains(unit) && narrow.covers(e, unit);
        assert(wide.covers(e, unit));
    }
    let observed = narrow.observed(periods, events);
    assert(observed == wide.observed(periods, events));
    assert forall|u: (usize, T)| narrow.covered(u, observed) implies wide.covered(u, observed) by {
        let e = choose|e: (usize, T)| #[trigger] observed.contains(e) && narrow.covers(e, u);
        assert(wide.covers(e, u));
    }
}

/// What an alert set can change: whichever units of the grid in the analysed
/// periods are alerted, hits and misses add up to the same number, and so do false
/// alarms and correct negatives.
pub proof fn lemma_alerts_keep_totals<T: Period>(
    reach: Reach,
    periods: Set<T>,
    alerted: Set<(usize, T)>,
    others: Set<(usize, T)>,
    events: Set<(usize, T)>,
    a: Contingency,
    b: Contingency,
)
    requires
        periods.finite(),
        events.finite(),
        reach.dims.fits(),
        alerted.subset_of(reach.units(periods)),
        others.subset_of(reach.units(periods)),
        reach.scores(periods, alerted, events, a),
        reach.scores(periods, others, events, b),
    ensures
        a.hits + a.misses == b.hits + b.misses,
        a.false_alarms + a.correct_negatives == b.false_alarms + b.correct_negatives,
{
    lemma_events_are_hit_or_missed(reach, periods, alerted, events);
    lemma_events_are_hit_or_missed(reach, periods, others, events);
    lemma_units_partition(reach, periods, alerted, events);
    lemma_units_partition(reach, periods, others, events);
    let observed = reach.observed(periods, events);
    let units = reach.units(periods);
    assert(reach.false_alarms(periods, alerted, events) == units.filter(
        |u: (usize, T)| alerted.contains(u) && !reach.covered(u, observed),
    ));
    assert(reach.false_alarms(periods, others, events) == units.filter(
        |u: (usize, T)| others.contains(u) && !reach.covered(u, observed),
    ));
}

/// More alerts never lose a hit nor take back a false alarm.
pub proof fn lemma_more_alerts<T: Period>(
    reach: Reach,
    periods: Set<T>,
    alerted: Set<(usize, T)>,
    more: Set<(usize, T)>,
    events: Set<(usize, T)>,
    a: Contingency,
    b: Contingency,
)
    requires
        events.finite(),
        more.finite(),
        alerted.subset_of(more),
        reach.scores(periods, alerted, events, a),
        reach.scores(periods, more, events, b),
    ensures
        a.hits <= b.hits,
        a.misses >= b.misses,
        a.false_alarms <= b.false_alarms,
{
    let observed = reach.observed(periods, events);
    assert(observed.subset_of(events));
    vstd::set_lib::lemma_len_subset(observed, events);
    assert forall|e: (usize, T)| reach.warned(e, alerted) implies reach.warned(e, more) by {
        let unit = choose|unit: (usize, T)| #[trigger] alerted.contains(unit) && reach.covers(e, unit);
        assert(more.contains(unit));
    }
    lemma_fewer(reach.hits(periods, alerted, events), reach.hits(periods, more, events), observed);
    lemma_fewer(reach.misses(periods, more, events), reach.misses(periods, alerted, events), observed);
    lemma_fewer(reach.false_alarms(periods, alerted, events), reach.false_alarms(periods, more, events), more);
}

/// A part of a part of a finite set is no larger.
proof fn lemma_fewer<X>(part: Set<X>, whole: Set<X>, all: Set<X>)
    requires
        part.subset_of(whole),
        whole.subset_of(all),
        all.finite(),
    ensures
        part.len() <= whole.len(),
{
    vstd::set_lib::lemma_len_subset(whole, all);
    vstd::set_lib::lemma_len_subset(part, whole);
}

/// The months that a monthly table counts lie in finite sets.
proof fn lemma_month_sets(present: Set<MonthKey>, events: Set<MonthKey>, p: spec_fn(MonthKey) -> bool)
    requires
        present.finite(),
        events.finite(),
    ensures
        events.filter(|m: MonthKey| present.contains(m)).finite(),
        events.filter(|m: MonthKey| present.contains(m)).filter(p).finite(),
        present.filter(p).finite(),
{
    let observed = events.filter(|m: MonthKey| present.contains(m));
    vstd::set_lib::lemma_len_subset(observed, events);
    vstd::set_lib::lemma_len_subset(observed.filter(p), observed);
    vstd::set_lib::lemma_len_subset(present.filter(p), present);
}

/// What monthly alerts can change: whichever months are alerted, hits and misses
/// add up to the same number, and so do false alarms and correct negatives.
pub proof fn lemma_monthly_alerts_keep_totals(
    present: Set<MonthKey>,
    alerted: Set<MonthKey>,
    others: Set<MonthKey>,
    events: Set<MonthKey>,
    tolerance: nat,
    a: Contingency,
    b: Contingency,
)
    requires
        present.finite(),
        events.finite(),
        scores_months(present, alerted, events, tolerance, a),
        scores_months(present, others, events, tolerance, b),
    ensures
        a.hits + a.misses == b.hits + b.misses,
        a.false_alarms + a.correct_negatives == b.false_alarms + b.correct_negatives,
{
    lemma_monthly_totals(present, alerted, events, tolerance, a);
    lemma_monthly_totals(present, others, events, tolerance, b);
}

/// A monthly table counts every observed event month once, and every month
/// without an event nearby once.
pub proof fn lemma_monthly_totals(
    present: Set<MonthKey>,
    alerted: Set<MonthKey>,
    events: Set<MonthKey>,
    tolerance: nat,
    table: Contingency,
)
    requires
        present.finite(),
        events.finite(),
        scores_months(present, alerted, events, tolerance, table),
    ensures
        ({
            let observed = events.filter(|m: MonthKey| present.contains(m));
            &&& table.hits + table.misses == observed.len()
            &&& table.false_alarms + table.correct_negatives == present.filter(
                |m: MonthKey| !has_near(m, observed, tolerance),
            ).len()
            &&& observed.len() <= present.len()
            &&& table.false_alarms + table.correct_negatives <= present.len()
        }),
{
    let observed = events.filter(|m: MonthKey| present.contains(m));
    let hit = |m: MonthKey| has_near(m, alerted, tolerance);
    let miss = |m: MonthKey| !has_near(m, alerted, tolerance);
    let quiet = |m: MonthKey| !has_near(m, observed, tolerance);
    let alarm = |m: MonthKey| alerted.contains(m) && !has_near(m, observed, tolerance);
    let silent = |m: MonthKey| !alerted.contains(m) && !has_near(m, observed, tolerance);
    lemma_month_sets(present, events, hit);
    lemma_month_sets(present, events, miss);
    lemma_month_sets(present, events, quiet);
    lemma_month_sets(present, events, alarm);
    lemma_month_sets(present, events, silent);
    assert(observed == observed.filter(hit) + observed.filter(miss));
    vstd::set_lib::lemma_set_disjoint_lens(observed.filter(hit), observed.filter(miss));
    assert(present.filter(quiet) == present.filter(alarm) + present.filter(silent));
    vstd::set_lib::lemma_set_disjoint_lens(present.filter(alarm), present.filter(silent));
    lemma_fewer(observed, present, present);
    lemma_fewer(present.filter(quiet), present, present);
}

/// More alerted months never lose a hit nor take back a false alarm.
pub proof fn lemma_more_alerted_months(
    present: Set<MonthKey>,
    alerted: Set<MonthKey>,
    more: Set<MonthKey>,
    events: Set<MonthKey>,
    tolerance: nat,
    a: Contingency,
    b: Contingency,
)
    requires
        present.finite(),
        events.finite(),
        alerted.subset_of(more),
        scores_months(present, alerted, events, tolerance, a),
        scores_months(present, more, events, tolerance, b),
    ensures
        a.hits <= b.hits,
        a.misses >= b.misses,
        a.false_alarms <= b.false_alarms,
        a.correct_negatives >= b.correct_negatives,
{
    let observed = events.filter(|m: MonthKey| present.contains(m));
    lemma_month_sets(present, events, |m: MonthKey| true);
    assert forall|m: MonthKey| has_near(m, alerted, tolerance) implies has_near(m, more, tolerance) by {
        let other = choose|other: MonthKey| #[trigger] alerted.contains(other) && reaches(m, other, tolerance);
        assert(more.contains(other));
    }
    lemma_fewer(
        observed.filter(|m: MonthKey| has_near(m, alerted, tolerance)),
        observed.filter(|m: MonthKey| has_near(m, more, tolerance)),
        observed,
    );
    lemma_fewer(
        observed.filter(|m: MonthKey| !has_near(m, more, tolerance)),
        observed.filter(|m: MonthKey| !has_near(m, alerted, tolerance)),
        observed,
    );
    lemma_fewer(
        present.filter(|m: MonthKey| alerted.contains(m) && !has_near(m, observed, tolerance)),
        present.filter(|m: MonthKey| more.contains(m) && !has_near(m, observed, tolerance)),
        present,
    );
    lemma_fewer(
        present.filter(|m: MonthKey| !more.contains(m) && !has_near(m, observed, tolerance)),
        present.filter(|m: MonthKey| !alerted.contains(m) && !has_near(m, observed, tolerance)),
        present,
    );
}

/// A larger tolerance is never stricter on months: no fewer hits, and no more
/// misses, false alarms and correct negatives.
pub proof fn lemma_wider_monthly_tolerance(
    present: Set<MonthKey>,
    alerted: Set<MonthKey>,
    events: Set<MonthKey>,
    narrow: nat,
    wide: nat,
    a: Contingency,
    b: Contingency,
)
    requires
        present.finite(),
        events.finite(),
        narrow <= wide,
        scores_months(present, alerted, events, narrow, a),
        scores_months(present, alerted, events, wide, b),
    ensures
        a.hits <= b.hits,
        a.misses >= b.misses,
        a.false_alarms >= b.false_alarms,
        a.correct_negatives >= b.correct_negatives,
{
    let observed = events.filter(|m: MonthKey| present.contains(m));
    lemma_month_sets(present, events, |m: MonthKey| true);
    assert forall|m: MonthKey, set: Set<MonthKey>| has_near(m, set, narrow) implies has_near(m, set, wide) by {
        let other = choose|other: MonthKey| #[trigger] set.contains(other) && reaches(m, other, narrow);
        let d = choose|d: int| -narrow <= d <= narrow && #[trigger] m.moved(d) == Some(other);
        assert(m.moved(d) == Some(other));
        assert(reaches(m, other, wide));
    }
    lemma_fewer(
        observed.filter(|m: MonthKey| has_near(m, alerted, narrow)),
        observed.filter(|m: MonthKey| has_near(m, alerted, wide)),
        observed,
    );
    lemma_fewer(
        observed.filter(|m: MonthKey| !has_near(m, alerted, wide)),
        observed.filter(|m: MonthKey| !has_near(m, alerted, narrow)),
        observed,
    );
    lemma_fewer(
        present.filter(|m: MonthKey| alerted.contains(m) && !has_near(m, observed, wide)),
        present.filter(|m: MonthKey| alerted.contains(m) && !has_near(m, observed, narrow)),
        present,
    );
    lemma_fewer(
        present.filter(|m: MonthKey| !alerted.contains(m) && !has_near(m, observed, wide)),
        present.filter(|m: MonthKey| !alerted.contains(m) && !has_near(m, observed, narrow)),
        present,
    );
}

/// Lead times and the contingency table of the same inputs agree: the events
/// with a lead are as many as the hits, those without as many as the misses.
pub proof fn lemma_leads_agree_with_table(
    reach: Reach,
    days: Set<DayKey>,
    alerted: Set<(usize, DayKey)>,
    events: Set<(usize, DayKey)>,
    leads: Seq<((usize, DayKey), Option<i64>)>,
    table: Contingency,
)
    requires
        leads_of(reach, days, alerted, events, leads),
        reach.scores(days, alerted, events, table),
    ensures
        leads.filter(|l: ((usize, DayKey), Option<i64>)| l.1 is Some).len() == table.hits,
        leads.filter(|l: ((usize, DayKey), Option<i64>)| l.1 is None).len() == table.misses,
{
    let listed = leads.map_values(|l: ((usize, DayKey), Option<i64>)| l.0);
    let hit = |e: (usize, DayKey)| reach.warned(e, alerted);
    let miss = |e: (usize, DayKey)| !reach.warned(e, alerted);
    let led = |l: ((usize, DayKey), Option<i64>)| l.1 is Some;
    let unled = |l: ((usize, DayKey), Option<i64>)| l.1 is None;
    assert forall|i: int, j: int| 0 <= i < listed.len() && 0 <= j < listed.len() && i != j implies listed[i]
        != listed[j] by {
        if i < j {
            assert(listed[i].code() < listed[j].code());
        } else {
            assert(listed[j].code() < listed[i].code());
        }
    }
    assert forall|i: int| 0 <= i < leads.len() implies led(#[trigger] leads[i]) == hit(listed[i]) && unled(leads[i])
        == miss(listed[i]) by {
        assert(lead_of(reach, alerted, leads[i].0, leads[i].1));
    }
    lemma_counts_of_pairs(leads, listed, led, hit, leads.len() as int);
    lemma_counts_of_pairs(leads, listed, unled, miss, leads.len() as int);
    assert(leads.take(leads.len() as int) == leads);
    assert(listed.take(leads.len() as int) == listed);
}

/// Two aligned lists, the second without repetitions, hold as many items with
/// two predicates that agree item by item.
proof fn lemma_counts_of_pairs<X, Y>(xs: Seq<X>, ys: Seq<Y>, p: spec_fn(X) -> bool, q: spec_fn(Y) -> bool, n: int)
    requires
        xs.len() == ys.len(),
        ys.no_duplicates(),
        forall|i: int| 0 <= i < xs.len() ==> p(#[trigger] xs[i]) == q(ys[i]),
        0 <= n <= xs.len(),
    ensures
        xs.take(n).filter(p).len() == ys.take(n).to_set().filter(q).len(),
    decreases n,
{
    reveal(Seq::filter);
    if n == 0 {
        assert(ys.take(0).to_set().filter(q) == Set::<Y>::empty());
    } else {
        lemma_counts_of_pairs(xs, ys, p, q, n - 1);
        lemma_count_next(ys, n - 1, q);
        assert(xs.take(n).drop_last() == xs.take(n - 1));
        assert(p(xs[n - 1]) == q(ys[n - 1]));
    }
}

/// The running number of a month, as a day number.
pub open spec fn day_of_month(month: MonthKey) -> DayKey {
    month_number(month) as i64
}

/// A unit with its month taken as a day.
pub open spec fn day_unit(unit: (usize, MonthKey)) -> (usize, DayKey) {
    (unit.0, day_of_month(unit.1))
}

/// Units with their months taken as days.
pub open spec fn day_units(units: Set<(usize, MonthKey)>) -> Set<(usize, DayKey)> {
    units.map(|u: (usize, MonthKey)| day_unit(u))
}

/// Months taken as days.
pub open spec fn days_of_months(months: Set<MonthKey>) -> Set<DayKey> {
    months.map(|m: MonthKey| day_of_month(m))
}

/// Whether all months of the units are among the twelve.
pub open spec fn calendar_units(units: Set<(usize, MonthKey)>) -> bool {
    forall|u: (usize, MonthKey)| #[trigger] units.contains(u) ==> calendar_month(u.1)
}

/// Two calendar months are as far apart as their running numbers.
proof fn lemma_months_reach_like_days(a: MonthKey, b: MonthKey, tolerance: nat)
    requires
        calendar_month(a),
        calendar_month(b),
    ensures
        reaches(a, b, tolerance) <==> reaches(day_of_month(a), day_of_month(b), tolerance),
        day_of_month(a) == day_of_month(b) <==> a == b,
        reaches(a, b, tolerance) <==> reaches(b, a, tolerance),
{
    let (x, y) = (day_of_month(a), day_of_month(b));
    assert forall|d: int| #[trigger] a.moved(d) == Some(b) <==> x.moved(d) == Some(y) by {}
    assert forall|d: int| #[trigger] b.moved(d) == Some(a) <==> a.moved(-d) == Some(b) by {}
    if reaches(a, b, tolerance) {
        let d = choose|d: int| -tolerance <= d <= tolerance && #[trigger] a.moved(d) == Some(b);
        assert(x.moved(d) == Some(y));
        assert(b.moved(-d) == Some(a));
    }
    if reaches(x, y, tolerance) {
        let d = choose|d: int| -tolerance <= d <= tolerance && #[trigger] x.moved(d) == Some(y);
        assert(a.moved(d) == Some(b));
    }
    if reaches(b, a, tolerance) {
        let d = choose|d: int| -tolerance <= d <= tolerance && #[trigger] b.moved(d) == Some(a);
        assert(a.moved(-d) == Some(b));
    }
}

/// A calendar unit belongs to a set of calendar units exactly where its day unit
/// belongs to the set of day units.
proof fn lemma_day_units_contain(units: Set<(usize, MonthKey)>, u: (usize, MonthKey))
    requires
        calendar_units(units),
        calendar_month(u.1),
    ensures
        day_units(units).contains(day_unit(u)) <==> units.contains(u),
{
    let f = |u: (usize, MonthKey)| day_unit(u);
    if units.contains(u) {
        assert(day_unit(u) == f(u));
    }
    if day_units(units).contains(day_unit(u)) {
        let v = choose|v: (usize, MonthKey)| units.contains(v) && f(v) == day_unit(u);
        lemma_months_reach_like_days(u.1, v.1, 0);
        assert(u == v);
    }
}

/// Taking months as days keeps the number of units.
proof fn lemma_day_units_len(units: Set<(usize, MonthKey)>)
    requires
        units.finite(),
        calendar_units(units),
    ensures
        day_units(units).len() == units.len(),
{
    let f = |u: (usize, MonthKey)| day_unit(u);
    assert forall|a: (usize, MonthKey), b: (usize, MonthKey)|
        units.contains(a) && units.contains(b) && #[trigger] f(a) == #[trigger] f(b) implies a == b by {
        lemma_months_reach_like_days(a.1, b.1, 0);
        assert(day_unit(a) == day_unit(b));
    }
    vstd::set_lib::lemma_map_size(units, units.map(f), f);
}

/// A month matcher is a day matcher on the running numbers of the months: the
/// table of calendar months is the table of these numbers taken as days.
pub proof fn lemma_months_score_like_days(
    reach: Reach,
    months: Set<MonthKey>,
    alerted: Set<(usize, MonthKey)>,
    events: Set<(usize, MonthKey)>,
    table: Contingency,
)
    requires
        months.finite(),
        alerted.finite(),
        events.finite(),
        reach.dims.fits(),
        forall|m: MonthKey| #[trigger] months.contains(m) ==> calendar_month(m),
        calendar_units(alerted),
        calendar_units(events),
    ensures
        reach.scores(months, alerted, events, table) <==> reach.scores(
            days_of_months(months),
            day_units(alerted),
            day_units(events),
            table,
        ),
{
    let (days, marked, dated) = (days_of_months(months), day_units(alerted), day_units(events));
    let f = |u: (usize, MonthKey)| day_unit(u);
    let g = |m: MonthKey| day_of_month(m);
    let (seen, seen_days) = (reach.observed(months, events), reach.observed(days, dated));
    assert forall|m: MonthKey| calendar_month(m) implies (days.contains(#[trigger] day_of_month(m)) <==> months.contains(
        m,
    )) by {
        if months.contains(m) {
            assert(g(m) == day_of_month(m));
        }
        if days.contains(day_of_month(m)) {
            let n = choose|n: MonthKey| months.contains(n) && g(n) == day_of_month(m);
            lemma_months_reach_like_days(m, n, 0);
        }
    }
    assert forall|d: DayKey| days.contains(d) implies exists|m: MonthKey| #[trigger] months.contains(m) && d == day_of_month(m) by {
        let n = choose|n: MonthKey| months.contains(n) && g(n) == d;
        assert(months.contains(n) && d == day_of_month(n));
    }
    assert forall|a: (usize, MonthKey), b: (usize, MonthKey)|
        calendar_month(a.1) && calendar_month(b.1) implies #[trigger] reach.covers(a, b) == reach.covers(
        day_unit(a),
        day_unit(b),
    ) by {
        lemma_months_reach_like_days(a.1, b.1, reach.tolerance as nat);
    }
    assert(seen_days == seen.map(f)) by {
        assert forall|e: (usize, DayKey)| seen_days.contains(e) <==> seen.map(f).contains(e) by {
            if seen_days.contains(e) {
                let v = choose|v: (usize, MonthKey)| events.contains(v) && f(v) == e;
                assert(seen.contains(v));
            }
            if seen.map(f).contains(e) {
                let v = choose|v: (usize, MonthKey)| seen.contains(v) && f(v) == e;
                assert(dated.contains(f(v)));
            }
        }
    }
    assert(calendar_units(seen));
    assert forall|e: (usize, MonthKey)| calendar_month(e.1) implies #[trigger] reach.warned(e, alerted) == reach.warned(
        day_unit(e),
        marked,
    ) by {
        if reach.warned(e, alerted) {
            let u = choose|u: (usize, MonthKey)| #[trigger] alerted.contains(u) && reach.covers(e, u);
            lemma_day_units_contain(alerted, u);
            assert(marked.contains(day_unit(u)) && reach.covers(day_unit(e), day_unit(u)));
        }
        if reach.warned(day_unit(e), marked) {
            let w = choose|w: (usize, DayKey)| #[trigger] marked.contains(w) && reach.covers(day_unit(e), w);
            let u = choose|u: (usize, MonthKey)| alerted.contains(u) && f(u) == w;
            assert(alerted.contains(u) && reach.covers(e, u));
        }
    }
    assert forall|u: (usize, MonthKey)| calendar_month(u.1) implies #[trigger] reach.covered(u, seen) == reach.covered(
        day_unit(u),
        seen_days,
    ) by {
        if reach.covered(u, seen) {
            let e = choose|e: (usize, MonthKey)| #[trigger] seen.contains(e) && reach.covers(e, u);
            assert(seen.map(f).contains(f(e)));
            assert(seen_days.contains(day_unit(e)) && reach.covers(day_unit(e), day_unit(u)));
        }
        if reach.covered(day_unit(u), seen_days) {
            let w = choose|w: (usize, DayKey)| #[trigger] seen_days.contains(w) && reach.covers(w, day_unit(u));
            let e = choose|e: (usize, MonthKey)| seen.contains(e) && f(e) == w;
            assert(seen.contains(e) && reach.covers(e, u));
        }
    }
    let (h, hd) = (reach.hits(months, alerted, events), reach.hits(days, marked, dated));
    assert(hd == day_units(h)) by {
        assert forall|e: (usize, DayKey)| hd.contains(e) <==> h.map(f).contains(e) by {
            if hd.contains(e) {
                let v = choose|v: (usize, MonthKey)| seen.contains(v) && f(v) == e;
                assert(h.contains(v));
            }
            if h.map(f).contains(e) {
                let v = choose|v: (usize, MonthKey)| h.contains(v) && f(v) == e;
                assert(seen_days.contains(f(v)));
            }
        }
    }
    let (m, md) = (reach.misses(months, alerted, events), reach.misses(days, marked, dated));
    assert(md == day_units(m)) by {
        assert forall|e: (usize, DayKey)| md.contains(e) <==> m.map(f).contains(e) by {
            if md.contains(e) {
                let v = choose|v: (usize, MonthKey)| seen.contains(v) && f(v) == e;
                assert(m.contains(v));
            }
            if m.map(f).contains(e) {
                let v = choose|v: (usize, MonthKey)| m.contains(v) && f(v) == e;
                assert(seen_days.contains(f(v)));
            }
        }
    }
    let (a, ad) = (reach.false_alarms(months, alerted, events), reach.false_alarms(days, marked, dated));
    assert(ad == day_units(a)) by {
        assert forall|e: (usize, DayKey)| ad.contains(e) <==> a.map(f).contains(e) by {
            if ad.contains(e) {
                let v = choose|v: (usize, MonthKey)| alerted.contains(v) && f(v) == e;
                assert(a.contains(v));
            }
            if a.map(f).contains(e) {
                let v = choose|v: (usize, MonthKey)| a.contains(v) && f(v) == e;
                assert(marked.contains(f(v)));
            }
        }
    }
    let (q, qd) = (reach.correct_negatives(months, alerted, events), reach.correct_negatives(days, marked, dated));
    assert(qd == day_units(q)) by {
        assert forall|e: (usize, DayKey)| qd.contains(e) <==> q.map(f).contains(e) by {
            if qd.contains(e) {
                let n = choose|n: MonthKey| #[trigger] months.contains(n) && e.1 == day_of_month(n);
                let v = (e.0, n);
                lemma_day_units_contain(alerted, v);
                assert(f(v) == e);
                assert(q.contains(v));
            }
            if q.map(f).contains(e) {
                let v = choose|v: (usize, MonthKey)| q.contains(v) && f(v) == e;
                lemma_day_units_contain(alerted, v);
                assert(days.contains(day_of_month(v.1)));
            }
        }
    }
    events.lemma_len_filter(|e: (usize, MonthKey)| e.0 < reach.dims.cells() && months.contains(e.1));
    seen.lemma_len_filter(|e: (usize, MonthKey)| reach.warned(e, alerted));
    seen.lemma_len_filter(|e: (usize, MonthKey)| !reach.warned(e, alerted));
    alerted.lemma_len_filter(|u: (usize, MonthKey)| months.contains(u.1) && !reach.covered(u, seen));
    lemma_units_len(reach, months);
    reach.units(months).lemma_len_filter(|u: (usize, MonthKey)| !alerted.contains(u) && !reach.covered(u, seen));
    lemma_day_units_len(h);
    lemma_day_units_len(m);
    lemma_day_units_len(a);
    lemma_day_units_len(q);
}

/// Months as units of the only cell of a grid.
pub open spec fn single_cell(months: Set<MonthKey>) -> Set<(usize, MonthKey)> {
    months.map(|m: MonthKey| (0usize, m))
}

/// Months as units of a single cell are as many as the months, and belong to the
/// set of units as the months belong to theirs.
proof fn lemma_single_cell(months: Set<MonthKey>)
    requires
        months.finite(),
    ensures
        single_cell(months).len() == months.len(),
        forall|m: MonthKey| #[trigger] single_cell(months).contains((0usize, m)) <==> months.contains(m),
        forall|u: (usize, MonthKey)| #[trigger] single_cell(months).contains(u) ==> u.0 == 0 && months.contains(u.1),
{
    let f = |m: MonthKey| (0usize, m);
    assert forall|m: MonthKey| months.contains(m) implies #[trigger] single_cell(months).contains((0usize, m)) by {
        assert(f(m) == (0usize, m));
    }
    assert forall|a: MonthKey, b: MonthKey| #[trigger] f(a) == #[trigger] f(b) implies a == b by {
        assert(f(a).1 == f(b).1);
    }
    vstd::set_lib::lemma_map_size(months, months.map(f), f);
}

/// Spatial scoring generalises monthly scoring: on a grid of one cell the
/// spatial table of calendar months is the monthly table.
pub proof fn lemma_one_cell_scores_like_months(
    radius: usize,
    tolerance: u32,
    present: Set<MonthKey>,
    alerted: Set<MonthKey>,
    events: Set<MonthKey>,
    table: Contingency,
)
    requires
        present.finite(),
        events.finite(),
        alerted.subset_of(present),
        forall|m: MonthKey| #[trigger] present.contains(m) ==> calendar_month(m),
    ensures
        scores_months(present, alerted, events, tolerance as nat, table) <==> (Reach {
            dims: GridDims { ncols: 1, nrows: 1 },
            radius,
            tolerance,
        }).scores(present, single_cell(alerted), single_cell(events), table),
{
    let reach = Reach { dims: GridDims { ncols: 1, nrows: 1 }, radius, tolerance };
    let tol = tolerance as nat;
    let (marked, dated) = (single_cell(alerted), single_cell(events));
    let observed = events.filter(|m: MonthKey| present.contains(m));
    let seen = reach.observed(present, dated);
    vstd::set_lib::lemma_len_subset(alerted, present);
    lemma_single_cell(alerted);
    lemma_single_cell(events);
    events.lemma_len_filter(|m: MonthKey| present.contains(m));
    lemma_single_cell(observed);
    assert(reach.dims.cells() == 1);
    assert(seen == single_cell(observed));
    assert(near_cells(reach.dims, 0, 0, radius as nat));
    assert forall|m: MonthKey| calendar_month(m) implies #[trigger] reach.warned((0usize, m), marked) == has_near(
        m,
        alerted,
        tol,
    ) by {
        if reach.warned((0usize, m), marked) {
            let u = choose|u: (usize, MonthKey)| #[trigger] marked.contains(u) && reach.covers((0usize, m), u);
            assert(alerted.contains(u.1) && reaches(m, u.1, tol));
        }
        if has_near(m, alerted, tol) {
            let n = choose|n: MonthKey| #[trigger] alerted.contains(n) && reaches(m, n, tol);
            assert(marked.contains((0usize, n)) && reach.covers((0usize, m), (0usize, n)));
        }
    }
    assert forall|m: MonthKey| calendar_month(m) implies #[trigger] reach.covered((0usize, m), seen) == has_near(
        m,
        observed,
        tol,
    ) by {
        if reach.covered((0usize, m), seen) {
            let e = choose|e: (usize, MonthKey)| #[trigger] seen.contains(e) && reach.covers(e, (0usize, m));
            lemma_months_reach_like_days(e.1, m, tol);
            assert(observed.contains(e.1) && reaches(m, e.1, tol));
        }
        if has_near(m, observed, tol) {
            let n = choose|n: MonthKey| #[trigger] observed.contains(n) && reaches(m, n, tol);
            lemma_months_reach_like_days(n, m, tol);
            assert(seen.contains((0usize, n)) && reach.covers((0usize, n), (0usize, m)));
        }
    }
    let hit = observed.filter(|m: MonthKey| has_near(m, alerted, tol));
    let miss = observed.filter(|m: MonthKey| !has_near(m, alerted, tol));
    let alarm = present.filter(|m: MonthKey| alerted.contains(m) && !has_near(m, observed, tol));
    let quiet = present.filter(|m: MonthKey| !alerted.contains(m) && !has_near(m, observed, tol));
    observed.lemma_len_filter(|m: MonthKey| has_near(m, alerted, tol));
    observed.lemma_len_filter(|m: MonthKey| !has_near(m, alerted, tol));
    present.lemma_len_filter(|m: MonthKey| alerted.contains(m) && !has_near(m, observed, tol));
    present.lemma_len_filter(|m: MonthKey| !alerted.contains(m) && !has_near(m, observed, tol));
    lemma_single_cell(hit);
    lemma_single_cell(miss);
    lemma_single_cell(alarm);
    lemma_single_cell(quiet);
    assert forall|u: (usize, MonthKey)| u.0 == 0 implies u == (0usize, #[trigger] u.1) by {}
    assert(reach.hits(present, marked, dated) == single_cell(hit));
    assert(reach.misses(present, marked, dated) == single_cell(miss));
    assert(reach.false_alarms(present, marked, dated) == single_cell(alarm));
    assert(reach.correct_negatives(present, marked, dated) == single_cell(quiet));
}

} // verus!
