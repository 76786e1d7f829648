use std::collections::BTreeSet;

use nowcast::arithmetic::Arithmetic;
use nowcast::backtest::{
    lead_times, monthly_contingency, spatial_daily_contingency, spatial_monthly_contingency, DayKey,
};
use nowcast::binary64::Binary64;
use nowcast::calendar::{csv_events, csv_month_keys, shift_month, MonthKey};
use nowcast::columns::csv_column;
use nowcast::contingency::Contingency;
use nowcast::error::Error;
use nowcast::grid::GridDims;
use nowcast::keyset::KeySet;
use nowcast::matching::chebyshev_window;

struct Ieee;

fn f(v: Binary64) -> f64 {
    f64::from_bits(v.to_bits())
}

fn b(v: f64) -> Binary64 {
    Binary64::from_bits(v.to_bits())
}

impl Arithmetic for Ieee {
    fn plus(x: Binary64, y: Binary64) -> Binary64 {
        b(f(x) + f(y))
    }
    fn minus(x: Binary64, y: Binary64) -> Binary64 {
        b(f(x) - f(y))
    }
    fn times(x: Binary64, y: Binary64) -> Binary64 {
        b(f(x) * f(y))
    }
    fn over(x: Binary64, y: Binary64) -> Binary64 {
        b(f(x) / f(y))
    }
    fn power(x: Binary64, y: Binary64) -> Binary64 {
        b(f(x).powf(f(y)))
    }
    fn exponential(x: Binary64) -> Binary64 {
        b(f(x).exp())
    }
    fn logarithm(x: Binary64) -> Binary64 {
        b(f(x).ln())
    }
    fn root(x: Binary64) -> Binary64 {
        b(f(x).sqrt())
    }
    fn of_count(n: u64) -> Binary64 {
        b(n as f64)
    }
    fn ceiling(x: Binary64) -> Binary64 {
        b(f(x).ceil())
    }
    fn nearest(x: Binary64) -> Binary64 {
        b(f(x).round())
    }
    fn parse(text: &[char]) -> Option<Binary64> {
        text.iter().collect::<String>().parse::<f64>().ok().map(b)
    }
    fn show(x: Binary64) -> String {
        format!("{}", f(x))
    }
    fn show_rounded(x: Binary64, decimals: usize) -> String {
        format!("{:.*}", decimals, f(x))
    }
}

#[test]
fn skill_scores() {
    let c = Contingency { hits: 8, misses: 2, false_alarms: 4, correct_negatives: 86 };
    assert_eq!(c.n(), 100);
    assert!((f(c.pod::<Ieee>().unwrap()) - 0.8).abs() < 1e-9);
    assert!((f(c.far::<Ieee>().unwrap()) - 4.0 / 12.0).abs() < 1e-9);
    assert!((f(c.csi::<Ieee>().unwrap()) - 8.0 / 14.0).abs() < 1e-9);
    assert!((f(c.frequency_bias::<Ieee>().unwrap()) - 12.0 / 10.0).abs() < 1e-9);
}

#[test]
fn empty_categories_are_none() {
    let c = Contingency::default();
    assert!(c.pod::<Ieee>().is_none());
    assert!(c.far::<Ieee>().is_none());
    assert!(c.csi::<Ieee>().is_none());
    assert!(c.frequency_bias::<Ieee>().is_none());
}

#[test]
fn csv_parsers_share_the_row_semantics() {
    let text = "date,mm\n2000-01-05,1.5\n2000-02-07,NaN\n2000-03-09,2.5\n";
    assert_eq!(csv_column::<Ieee>(text, 1), vec![b(1.5), b(2.5)]);
    assert_eq!(csv_month_keys(text), vec![(2000, 1), (2000, 2), (2000, 3)]);
    assert!(csv_month_keys("2000-13-01,1.0\n").is_empty());
}

#[test]
fn csv_events_parses_the_inventory_layout() {
    let text = "id,year,month\n42,1993,5\nbad,row\n43,2015,3\n44,2015,0\n";
    assert_eq!(csv_events(text), vec![(1993, 5), (2015, 3)]);
}

#[test]
fn month_shift_rolls_over() {
    assert_eq!(shift_month((2000, 1), -1), (1999, 12));
    assert_eq!(shift_month((2000, 12), 1), (2001, 1));
    assert_eq!(shift_month((2000, 6), 0), (2000, 6));
    assert_eq!(shift_month((2000, 1), -13), (1998, 12));
}

#[test]
fn perfect_forecast() {
    let days = vec![(2000, 1), (2000, 1), (2000, 2), (2000, 3)];
    let alerts = vec![false, false, true, false];
    let events = vec![(2000, 2)];
    let c = monthly_contingency(&days, &alerts, &events, 0).unwrap();
    assert_eq!(c, Contingency { hits: 1, misses: 0, false_alarms: 0, correct_negatives: 2 });
    assert_eq!(c.pod::<Ieee>().map(f), Some(1.0));
    assert_eq!(c.far::<Ieee>().map(f), Some(0.0));
}

#[test]
fn spatial_match_needs_a_nearby_alert() {
    let dims = GridDims::new(5, 5);
    let months = vec![(2000, 1), (2000, 2), (2000, 3)];
    let events = vec![(12usize, (2000, 2))];

    let near: KeySet<(usize, MonthKey)> = KeySet::from_keys(&[(11usize, (2000, 2))]);
    let c = spatial_monthly_contingency(dims, &months, &near, &events, 1, 0);
    assert_eq!(c.hits, 1);
    assert_eq!(c.misses, 0);
    assert_eq!(c.false_alarms, 0);

    let far: KeySet<(usize, MonthKey)> = KeySet::from_keys(&[(0usize, (2000, 2))]);
    let c = spatial_monthly_contingency(dims, &months, &far, &events, 1, 0);
    assert_eq!(c.hits, 0);
    assert_eq!(c.misses, 1);
    assert_eq!(c.false_alarms, 1);
}

#[test]
fn tolerance_absorbs_a_one_month_offset() {
    let days = vec![(2000, 1), (2000, 2), (2000, 3), (2000, 4)];
    let alerts = vec![false, false, true, false];
    let events = vec![(2000, 2)];

    let strict = monthly_contingency(&days, &alerts, &events, 0).unwrap();
    assert_eq!(strict.hits, 0);
    assert_eq!(strict.misses, 1);
    assert_eq!(strict.false_alarms, 1);

    let tol = monthly_contingency(&days, &alerts, &events, 1).unwrap();
    assert_eq!(tol.hits, 1);
    assert_eq!(tol.misses, 0);
    assert_eq!(tol.false_alarms, 0);
}

#[test]
fn daily_spatial_match_needs_a_nearby_alert() {
    let dims = GridDims::new(5, 5);
    let days = vec![0i64, 1, 2];
    let events = vec![(12usize, 1i64)];

    let near: KeySet<(usize, DayKey)> = KeySet::from_keys(&[(11usize, 1i64)]);
    let c = spatial_daily_contingency(dims, &days, &near, &events, 1, 0);
    assert_eq!(c.hits, 1);
    assert_eq!(c.misses, 0);
    assert_eq!(c.false_alarms, 0);

    let far: KeySet<(usize, DayKey)> = KeySet::from_keys(&[(0usize, 1i64)]);
    let c = spatial_daily_contingency(dims, &days, &far, &events, 1, 0);
    assert_eq!(c.hits, 0);
    assert_eq!(c.misses, 1);
    assert_eq!(c.false_alarms, 1);
}

#[test]
fn daily_tolerance_absorbs_a_one_day_offset() {
    let dims = GridDims::new(3, 3);
    let days = vec![0i64, 1, 2, 3];
    let events = vec![(4usize, 1i64)];
    let alerted: KeySet<(usize, DayKey)> = KeySet::from_keys(&[(4usize, 2i64)]);

    let strict = spatial_daily_contingency(dims, &days, &alerted, &events, 0, 0);
    assert_eq!(strict.hits, 0);
    assert_eq!(strict.misses, 1);
    assert_eq!(strict.false_alarms, 1);

    let tol = spatial_daily_contingency(dims, &days, &alerted, &events, 0, 1);
    assert_eq!(tol.hits, 1);
    assert_eq!(tol.misses, 0);
    assert_eq!(tol.false_alarms, 0);
}

fn chebyshev(dims: GridDims, x: usize, y: usize) -> usize {
    let (rx, cx) = (x / dims.ncols, x % dims.ncols);
    let (ry, cy) = (y / dims.ncols, y % dims.ncols);
    rx.abs_diff(ry).max(cx.abs_diff(cy))
}

fn naive_daily(
    dims: GridDims,
    days: &[DayKey],
    alerted: &BTreeSet<(usize, DayKey)>,
    events: &[(usize, DayKey)],
    cell_radius: usize,
    tol_days: u32,
) -> Contingency {
    let day_set: BTreeSet<DayKey> = days.iter().copied().collect();
    let tol = tol_days as i64;
    let n_cells = dims.len();
    let observed: BTreeSet<(usize, DayKey)> = events
        .iter()
        .copied()
        .filter(|(c, d)| *c < n_cells && day_set.contains(d))
        .collect();
    let mut footprint: BTreeSet<(usize, DayKey)> = BTreeSet::new();
    for &(ec, ed) in &observed {
        for cell in 0..n_cells {
            if chebyshev(dims, ec, cell) <= cell_radius {
                for d in -tol..=tol {
                    footprint.insert((cell, ed + d));
                }
            }
        }
    }
    let mut c = Contingency::default();
    for &(ec, ed) in &observed {
        let hit = alerted
            .iter()
            .any(|&(ac, ad)| chebyshev(dims, ec, ac) <= cell_radius && (ad - ed).abs() <= tol);
        if hit {
            c.hits += 1
        } else {
            c.misses += 1
        }
    }
    for &(ac, ad) in alerted {
        if day_set.contains(&ad) && !footprint.contains(&(ac, ad)) {
            c.false_alarms += 1;
        }
    }
    for &d in &day_set {
        for cell in 0..n_cells {
            if !alerted.contains(&(cell, d)) && !footprint.contains(&(cell, d)) {
                c.correct_negatives += 1;
            }
        }
    }
    c
}

#[test]
fn daily_contingency_matches_naive_reference_on_random_data() {
    let dims = GridDims::new(12, 9);
    let n_cells = dims.len();
    let days: Vec<DayKey> = (0..60).collect();
    let mut x = 3u64;
    let mut next = |m: u64| {
        x = x.wrapping_mul(6364136223846793005).wrapping_add(1);
        ((x >> 33) % m) as usize
    };
    let mut alerted: BTreeSet<(usize, DayKey)> = BTreeSet::new();
    for _ in 0..300 {
        alerted.insert((next(n_cells as u64), next(60) as DayKey));
    }
    alerted.insert((n_cells + 5, 10));
    let mut events: Vec<(usize, DayKey)> =
        (0..15).map(|_| (next(n_cells as u64), next(60) as DayKey)).collect();
    events.push((3, 999));
    events.push((n_cells + 1, 5));

    let listed: Vec<(usize, DayKey)> = alerted.iter().rev().copied().collect();
    let keys: KeySet<(usize, DayKey)> = KeySet::from_keys(&listed);
    for (radius, tol) in [(0usize, 0u32), (1, 1), (2, 3), (4, 0)] {
        let fast = spatial_daily_contingency(dims, &days, &keys, &events, radius, tol);
        let slow = naive_daily(dims, &days, &alerted, &events, radius, tol);
        assert_eq!(fast, slow, "diverged at radius {radius}, tol {tol}");
    }
}

#[test]
fn monthly_contingency_matches_daily_shape_on_shared_data() {
    let dims = GridDims::new(6, 6);
    let months: Vec<MonthKey> = (1..=12).map(|m| (2000, m)).collect();
    let days: Vec<DayKey> = (1..=12).collect();
    let mut x = 11u64;
    let mut next = |m: u64| {
        x = x.wrapping_mul(6364136223846793005).wrapping_add(1);
        ((x >> 33) % m) as usize
    };
    let mut am: Vec<(usize, MonthKey)> = Vec::new();
    let mut ad: Vec<(usize, DayKey)> = Vec::new();
    for _ in 0..80 {
        let (c, m) = (next(36), next(12) as u32 + 1);
        am.push((c, (2000, m)));
        ad.push((c, m as DayKey));
    }
    let am: KeySet<(usize, MonthKey)> = KeySet::from_keys(&am);
    let ad: KeySet<(usize, DayKey)> = KeySet::from_keys(&ad);
    let mut em: Vec<(usize, MonthKey)> = Vec::new();
    let mut ed: Vec<(usize, DayKey)> = Vec::new();
    for _ in 0..8 {
        let (c, m) = (next(36), next(12) as u32 + 1);
        em.push((c, (2000, m)));
        ed.push((c, m as DayKey));
    }
    for (radius, tol) in [(0usize, 0u32), (1, 1), (2, 2)] {
        let monthly = spatial_monthly_contingency(dims, &months, &am, &em, radius, tol);
        let daily = spatial_daily_contingency(dims, &days, &ad, &ed, radius, tol);
        assert_eq!(monthly, daily, "diverged at radius {radius}, tol {tol}");
    }
}

#[test]
fn lead_times_report_the_earliest_alert_in_window() {
    let dims = GridDims::new(5, 5);
    let days: Vec<DayKey> = (0..10).collect();
    let events = vec![(12usize, 6i64)];
    let alerted: KeySet<(usize, DayKey)> = KeySet::from_keys(&[(12usize, 4i64), (11usize, 3i64)]);

    let lt = lead_times(dims, &days, &alerted, &events, 1, 3);
    assert_eq!(lt, vec![((12, 6), Some(3))]);
    let lt = lead_times(dims, &days, &alerted, &events, 0, 3);
    assert_eq!(lt, vec![((12, 6), Some(2))]);
    let lt = lead_times(dims, &days, &alerted, &events, 0, 1);
    assert_eq!(lt, vec![((12, 6), None)]);
    let late: KeySet<(usize, DayKey)> = KeySet::from_keys(&[(12usize, 7i64)]);
    let lt = lead_times(dims, &days, &late, &events, 0, 2);
    assert_eq!(lt, vec![((12, 6), Some(-1))]);
}

#[test]
fn lead_times_agree_with_the_table() {
    let dims = GridDims::new(4, 3);
    let days: Vec<DayKey> = (0..20).collect();
    let alerted: KeySet<(usize, DayKey)> = KeySet::from_keys(&[(0, 3), (5, 9), (11, 15), (11, 16)]);
    let events = vec![(7, 16), (0, 4), (0, 4), (6, 1), (40, 2), (1, 99)];
    for (radius, tol) in [(0usize, 0u32), (0, 2), (1, 1), (3, 20)] {
        let table = spatial_daily_contingency(dims, &days, &alerted, &events, radius, tol);
        let leads = lead_times(dims, &days, &alerted, &events, radius, tol);
        assert_eq!(leads.iter().filter(|l| l.1.is_some()).count() as u64, table.hits);
        assert_eq!(leads.iter().filter(|l| l.1.is_none()).count() as u64, table.misses);
        assert_eq!(table.hits + table.misses, 3);
        assert_eq!(leads.iter().map(|l| l.0).collect::<Vec<_>>(), vec![(0, 4), (6, 1), (7, 16)]);
    }
}

#[test]
fn a_wider_reach_never_loses_a_hit() {
    let dims = GridDims::new(6, 5);
    let days: Vec<DayKey> = (0..12).collect();
    let alerted: KeySet<(usize, DayKey)> = KeySet::from_keys(&[(0, 0), (13, 4), (29, 11), (8, 7)]);
    let events = vec![(7, 1), (20, 5), (28, 9), (14, 4)];
    let mut last = spatial_daily_contingency(dims, &days, &alerted, &events, 0, 0);
    assert_eq!(last, Contingency { hits: 0, misses: 4, false_alarms: 4, correct_negatives: 352 });
    for step in 1..5u32 {
        let next = spatial_daily_contingency(dims, &days, &alerted, &events, step as usize, step);
        assert!(next.hits >= last.hits && next.false_alarms <= last.false_alarms);
        last = next;
    }
    assert_eq!(last.hits, 4);
    assert_eq!(last.false_alarms, 0);
}

#[test]
fn one_cell_scores_like_months() {
    let months: Vec<MonthKey> = (1..=12).map(|m| (1999, m)).chain((1..=6).map(|m| (2000, m))).collect();
    let alerts: Vec<bool> = (0..18).map(|i| i % 5 == 0).collect();
    let events = vec![(1999, 3), (2000, 1), (2000, 1), (1980, 1)];
    let units: Vec<(usize, MonthKey)> =
        months.iter().zip(&alerts).filter(|(_, a)| **a).map(|(m, _)| (0, *m)).collect();
    let marked: KeySet<(usize, MonthKey)> = KeySet::from_keys(&units);
    let dated: Vec<(usize, MonthKey)> = events.iter().map(|e| (0, *e)).collect();
    for tol in 0..4 {
        let monthly = monthly_contingency(&months, &alerts, &events, tol).unwrap();
        let spatial =
            spatial_monthly_contingency(GridDims::new(1, 1), &months, &marked, &dated, 2, tol);
        assert_eq!(monthly, spatial);
    }
}

#[test]
fn monthly_contingency_rejects_unaligned_input() {
    match monthly_contingency(&[(2000, 1), (2000, 2)], &[true], &[], 0) {
        Err(e @ Error::InvalidParameter { .. }) => assert_eq!(
            e.message::<Ieee>(),
            "invalid parameter `alert_days`: 2 day_month entries but 1 alert_days"
        ),
        _ => panic!("unaligned input must be refused"),
    }
}

#[test]
fn tolerance_crosses_the_year() {
    let months = vec![(1999, 12), (2000, 1)];
    let c = monthly_contingency(&months, &[true, false], &[(2000, 1)], 1).unwrap();
    assert_eq!(c, Contingency { hits: 1, misses: 0, false_alarms: 0, correct_negatives: 0 });
}

#[test]
fn window_is_clipped_to_the_grid() {
    let dims = GridDims::new(4, 3);
    assert_eq!(chebyshev_window(dims, 0, 1), vec![0, 1, 4, 5]);
    assert_eq!(chebyshev_window(dims, 6, 0), vec![6]);
    assert_eq!(chebyshev_window(dims, 11, usize::MAX), (0..12).collect::<Vec<usize>>());
}

#[test]
fn month_keys_need_a_calendar_month() {
    assert_eq!(csv_month_keys("x\n-5-01\n 2001-02-03 ,1\r\n2001-+3\n2001-00-1\n"), vec![(2001, 2), (2001, 3)]);
    assert!(csv_month_keys("").is_empty());
    assert!(csv_events("1,2000,5").is_empty());
}

#[test]
fn more_alerts_never_lose_a_hit() {
    let months: Vec<MonthKey> = (1..=12).map(|m| (2000, m)).collect();
    let events = vec![(2000, 3), (2000, 9)];
    let score = |alerted: &[usize], tol: u32| {
        let days: Vec<bool> = (0..12).map(|i| alerted.contains(&i)).collect();
        monthly_contingency(&months, &days, &events, tol).unwrap()
    };
    assert_eq!(score(&[1], 0), Contingency { hits: 0, misses: 2, false_alarms: 1, correct_negatives: 9 });
    let mut last = score(&[1], 0);
    for alerted in [&[1, 2][..], &[1, 2, 5], &[1, 2, 5, 8]] {
        let next = score(alerted, 0);
        // The events and the other months are what they were, however many alerts there are.
        assert_eq!(next.hits + next.misses, last.hits + last.misses);
        assert_eq!(next.false_alarms + next.correct_negatives, last.false_alarms + last.correct_negatives);
        assert!(next.hits >= last.hits && next.false_alarms >= last.false_alarms);
        last = next;
    }
    assert_eq!(last, Contingency { hits: 2, misses: 0, false_alarms: 2, correct_negatives: 8 });
    // A wider tolerance turns misses into hits, and false alarms into none.
    for tol in 0..4 {
        let (near, far) = (score(&[1, 5], tol), score(&[1, 5], tol + 1));
        assert!(far.hits >= near.hits && far.false_alarms <= near.false_alarms);
        assert!(far.correct_negatives <= near.correct_negatives);
    }
}

#[test]
fn units_are_shared_out_whatever_is_alerted() {
    let dims = GridDims::new(4, 3);
    let days: Vec<DayKey> = (0..6).collect();
    let events = vec![(0, 1), (5, 3), (11, 5)];
    let mut keys: Vec<(usize, DayKey)> = Vec::new();
    let mut last =
        spatial_daily_contingency(dims, &days, &KeySet::from_keys(&keys), &events, 1, 1);
    assert_eq!((last.hits, last.misses, last.false_alarms), (0, 3, 0));
    for key in [(1, 1), (7, 0), (6, 4), (10, 5)] {
        keys.push(key);
        let next = spatial_daily_contingency(dims, &days, &KeySet::from_keys(&keys), &events, 1, 1);
        assert_eq!(next.hits + next.misses, last.hits + last.misses);
        assert_eq!(next.false_alarms + next.correct_negatives, last.false_alarms + last.correct_negatives);
        assert!(next.hits >= last.hits && next.false_alarms >= last.false_alarms);
        last = next;
    }
    assert_eq!(last.hits, 3);
}
