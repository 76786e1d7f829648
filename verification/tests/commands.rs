use nowcast::arithmetic::Arithmetic;
use nowcast::binary64::Binary64;
use nowcast::calibrate::Calibrator;
use nowcast::commands::{Sweep, Watch, alert_days, backtest, calibrate_field, calibrate_pairs, calibration, exit_code, fmt, gauge_series, parse_sweep, report_run, sweep};
use nowcast::contingency::Contingency;
use nowcast::error::Reason;
use nowcast::forcing::{Forcing, UniformRain};
use nowcast::grid::{GridDims, SusceptibilityMap};
use nowcast::hazard::HazardField;
use nowcast::inputs::{EngineArgs, RainSource, SusceptibilitySource, gauge_depths, gauge_grid, make_nowcast, rain_source, raster_fixes_grid, resolve_gauge, resolve_rasters, stacked_rain, susceptibility_source};
use nowcast::raster::{Error as RasterError, Raster};
use nowcast::usage::Usage;

struct Ieee;

fn f(v: Binary64) -> f64 {
    f64::from_bits(v.to_bits())
}

fn b(v: f64) -> Binary64 {
    Binary64::from_bits(v.to_bits())
}

impl Arithmetic for Ieee {
    fn plus(x: Binary64, y: Binary64) -> Binary64 {
        b(f(x) + f(y))
    }
    fn minus(x: Binary64, y: Binary64) -> Binary64 {
        b(f(x) - f(y))
    }
    fn times(x: Binary64, y: Binary64) -> Binary64 {
        b(f(x) * f(y))
    }
    fn over(x: Binary64, y: Binary64) -> Binary64 {
        b(f(x) / f(y))
    }
    fn power(x: Binary64, y: Binary64) -> Binary64 {
        b(f(x).powf(f(y)))
    }
    fn exponential(x: Binary64) -> Binary64 {
        b(f(x).exp())
    }
    fn logarithm(x: Binary64) -> Binary64 {
        b(f(x).ln())
    }
    fn root(x: Binary64) -> Binary64 {
        b(f(x).sqrt())
    }
    fn of_count(n: u64) -> Binary64 {
        b(n as f64)
    }
    fn ceiling(x: Binary64) -> Binary64 {
        b(f(x).ceil())
    }
    fn nearest(x: Binary64) -> Binary64 {
        b(f(x).round())
    }
    fn parse(text: &[char]) -> Option<Binary64> {
        text.iter().collect::<String>().parse::<f64>().ok().map(b)
    }
    fn show(x: Binary64) -> String {
        format!("{}", f(x))
    }
    fn show_rounded(x: Binary64, decimals: usize) -> String {
        format!("{:.*}", decimals, f(x))
    }
}

fn bs(v: &[f64]) -> Vec<Binary64> {
    v.iter().map(|x| b(*x)).collect()
}

fn fs(v: &[Binary64]) -> Vec<f64> {
    v.iter().map(|x| f(*x)).collect()
}

const GAUGE: &str = "date,mm\n2000-01-05,0\n2000-02-07,50\n2000-03-09,2.5\n";

fn args(id_a: f64) -> EngineArgs {
    EngineArgs { id_a: b(id_a), id_b: b(0.39), k: b(4.0), max_window: 7 }
}

fn uniform(dims: GridDims, value: f64) -> SusceptibilityMap {
    SusceptibilityMap::uniform(dims, b(value)).unwrap()
}

fn says(u: Usage) -> String {
    u.message::<Ieee>()
}

#[test]
fn exit_codes_tell_alerts_from_errors() {
    assert_eq!(exit_code(Some(true)), 2);
    assert_eq!(exit_code(Some(false)), 0);
    assert_eq!(exit_code(None), 1);
}

#[test]
fn scores_are_shown_with_two_decimals() {
    assert_eq!(fmt::<Ieee>(Some(b(0.666))), "0.67");
    assert_eq!(fmt::<Ieee>(None), " -  ");
}

#[test]
fn exactly_one_source_of_each_kind_is_taken() {
    assert_eq!(rain_source(true, false).unwrap(), RainSource::Gauge);
    assert_eq!(rain_source(false, true).unwrap(), RainSource::Rasters);
    assert_eq!(says(rain_source(true, true).unwrap_err()), "use either --rain-csv or --rain-rasters, not both");
    assert_eq!(says(rain_source(false, false).unwrap_err()), "provide rainfall with --rain-csv or --rain-rasters");
    let value = Some(b(0.5));
    assert_eq!(susceptibility_source(true, None).unwrap(), SusceptibilitySource::Raster);
    assert_eq!(susceptibility_source(false, value).unwrap(), SusceptibilitySource::Uniform(b(0.5)));
    assert_eq!(
        says(susceptibility_source(true, value).unwrap_err()),
        "use either --susc or --uniform-susc, not both"
    );
    assert_eq!(
        says(susceptibility_source(false, None).unwrap_err()),
        "provide susceptibility with --susc or --uniform-susc"
    );
    assert!(raster_fixes_grid(true, None).unwrap());
    assert!(!raster_fixes_grid(false, None).unwrap());
    assert!(raster_fixes_grid(true, value).is_err());
}

#[test]
fn a_raster_fixes_the_grid_of_a_gauge() {
    let raster = Some(GridDims::new(4, 3));
    assert_eq!(gauge_grid(raster, None, None).unwrap(), GridDims::new(4, 3));
    assert_eq!(gauge_grid(raster, Some(4), Some(3)).unwrap(), GridDims::new(4, 3));
    assert_eq!(
        says(gauge_grid(raster, Some(5), None).unwrap_err()),
        "--ncols 5 disagrees with the susceptibility raster (4 cols)"
    );
    assert_eq!(
        says(gauge_grid(raster, None, Some(5)).unwrap_err()),
        "--nrows 5 disagrees with the susceptibility raster (3 rows)"
    );
    assert_eq!(gauge_grid(None, None, None).unwrap(), GridDims::new(1, 1));
    assert_eq!(gauge_grid(None, Some(3), None).unwrap(), GridDims::new(3, 3));
    assert_eq!(gauge_grid(None, Some(3), Some(2)).unwrap(), GridDims::new(3, 2));
    assert_eq!(gauge_grid(None, None, Some(2)).unwrap(), GridDims::new(1, 2));
}

#[test]
fn gauge_requests_are_resolved() {
    let resolve = |raster: Option<SusceptibilityMap>, value: Option<f64>, ncols: Option<usize>, text: &str| {
        resolve_gauge::<Ieee>(raster, value.map(b), ncols, None, text, 1, b(24.0))
    };
    let (map, rain) = resolve(None, Some(0.8), Some(3), GAUGE).unwrap();
    assert_eq!((map.dims(), rain.dims()), (GridDims::new(3, 3), GridDims::new(3, 3)));
    assert_eq!((f(map.get(8)), rain.n_steps(), f(rain.depth_mm(0, 1))), (0.8, 3, 50.0));

    let raster = || Some(uniform(GridDims::new(2, 1), 0.4));
    let (map, rain) = resolve(raster(), None, None, GAUGE).unwrap();
    assert_eq!((f(map.get(1)), rain.dims()), (0.4, GridDims::new(2, 1)));

    assert!(matches!(resolve(raster(), Some(0.8), None, GAUGE), Err(Usage::BothSusceptibilities)));
    assert!(matches!(resolve(raster(), None, Some(9), GAUGE), Err(Usage::Columns { given: 9, raster: 2 })));
    assert!(matches!(resolve(None, None, None, GAUGE), Err(Usage::NoSusceptibility)));
    assert_eq!(
        says(resolve(None, Some(0.8), None, "date,mm\n").err().unwrap()),
        "failed to parse forcing series: no numeric values found in column 1"
    );
    assert_eq!(
        says(resolve(None, Some(1.8), None, GAUGE).err().unwrap()),
        "susceptibility value at cell 0 is 1.8, expected within [0, 1]"
    );
}

#[test]
fn raster_requests_are_resolved() {
    let dims = GridDims::new(2, 1);
    let map = resolve_rasters(dims, Some(uniform(dims, 0.4)), None).unwrap();
    assert_eq!(f(map.get(0)), 0.4);
    let map = resolve_rasters(dims, None, Some(b(0.6))).unwrap();
    assert_eq!((map.dims(), f(map.get(1))), (dims, 0.6));
    assert_eq!(
        says(resolve_rasters(GridDims::new(3, 1), Some(uniform(dims, 0.4)), None).unwrap_err()),
        "susceptibility grid GridDims { ncols: 2, nrows: 1 } does not match forcing grid GridDims { ncols: 3, nrows: 1 }"
    );
    assert!(matches!(resolve_rasters(dims, None, None), Err(Usage::NoSusceptibility)));
    assert!(matches!(
        resolve_rasters(dims, Some(uniform(dims, 0.4)), Some(b(0.5))),
        Err(Usage::BothSusceptibilities)
    ));
    let stacked = RasterError::Shape(Reason::Text("no rasters provided"));
    assert_eq!(says(Usage::Raster(stacked)), "grid shape mismatch: no rasters provided");
}

#[test]
fn stacked_rain_needs_the_cells_of_the_grid() {
    let dims = GridDims::new(2, 1);
    let rain = stacked_rain(dims, 2, b(6.0), bs(&[1.0, 2.0, 3.0, 4.0])).unwrap();
    assert_eq!((rain.n_steps(), f(rain.depth_mm(1, 1))), (2, 4.0));
    assert_eq!(
        says(stacked_rain(dims, 3, b(6.0), bs(&[1.0, 2.0, 3.0])).unwrap_err()),
        "rain has 3 cells per step, grid has 2"
    );
    assert!(matches!(stacked_rain(dims, 2, b(0.0), bs(&[1.0, 2.0])), Err(Usage::Core(_))));
}

#[test]
fn engines_are_built_from_their_parameters() {
    let dims = GridDims::new(1, 1);
    let make = |e: EngineArgs| {
        let rain = UniformRain::new(dims, b(24.0), bs(&[5.0, 80.0])).unwrap();
        make_nowcast::<UniformRain, Ieee>(uniform(dims, 0.9), rain, &e)
    };
    assert_eq!(make(args(6.0)).ok().unwrap().run().len(), 2);
    let message = |e: EngineArgs| make(e).err().unwrap().message::<Ieee>();
    assert!(message(args(0.0)).starts_with("invalid parameter `a`"));
    assert!(message(EngineArgs { id_b: b(-1.0), ..args(6.0) }).starts_with("invalid parameter `b`"));
    assert!(message(EngineArgs { k: b(0.0), ..args(6.0) }).starts_with("invalid parameter `k`"));
    assert!(message(EngineArgs { max_window: 0, ..args(6.0) }).starts_with("invalid parameter `max_window_steps`"));
}

#[test]
fn a_run_reports_its_alerts() {
    let dims = GridDims::new(2, 1);
    let field = |step: usize, values: &[f64]| HazardField::new(step, dims, bs(values)).unwrap();
    let fields = [field(0, &[0.1, 0.2]), field(1, &[0.7, 0.2]), field(2, &[0.9, 0.6])];
    let report = report_run::<Ieee>(&fields, b(0.5), false, false).unwrap();
    assert_eq!(report.n_alerts, 2);
    assert_eq!(report.steps.iter().map(|s| s.step).collect::<Vec<_>>(), vec![0, 1, 2]);
    assert_eq!(report.steps.iter().map(|s| f(s.max_probability)).collect::<Vec<_>>(), vec![0.2, 0.7, 0.9]);
    let cells: Vec<Option<usize>> = report.steps.iter().map(|s| s.alert.map(|a| a.n_cells)).collect();
    assert_eq!(cells, vec![None, Some(1), Some(2)]);
    assert!(report_run::<Ieee>(&fields, b(0.5), true, true).is_ok());
    assert_eq!(
        says(report_run::<Ieee>(&fields, b(0.5), true, false).err().unwrap()),
        "--out-dir needs a georeferenced --susc to write GeoTIFFs"
    );
    assert_eq!(
        says(report_run::<Ieee>(&fields, b(1.5), false, false).err().unwrap()),
        "invalid parameter `alert_level`: must be a probability in [0, 1], got 1.5"
    );
    assert_eq!(report_run::<Ieee>(&[], b(1.5), false, false).unwrap().n_alerts, 0);
}

#[test]
fn fields_are_mapped_through_a_calibrator() {
    let dims = GridDims::new(2, 1);
    let cal = Calibrator { xs: bs(&[0.0, 1.0]), ys: bs(&[0.0, 0.5]) };
    let field = HazardField::new(3, dims, bs(&[0.2, 1.0])).unwrap();
    let mapped = calibrate_field::<Ieee>(&field, &cal).unwrap();
    assert_eq!(mapped.step, 3);
    assert_eq!(fs(mapped.probability()), vec![0.1, 0.5]);
    let wild = Calibrator { xs: bs(&[0.0, 1.0]), ys: bs(&[0.0, 5.0]) };
    assert!(calibrate_field::<Ieee>(&field, &wild).is_err());
}

#[test]
fn a_watch_streams_row_by_row() {
    let dims = GridDims::new(2, 2);
    let depths = [0.0, 50.0, 2.5];
    let mut watch =
        Watch::<Ieee>::new(uniform(dims, 0.7), bs(&depths), &args(1.0), b(24.0), b(0.5), None).ok().unwrap();
    let rain = UniformRain::new(dims, b(24.0), bs(&depths)).unwrap();
    let batch = make_nowcast::<UniformRain, Ieee>(uniform(dims, 0.7), rain, &args(1.0)).ok().unwrap().run();
    let mut alerts = 0;
    for (t, field) in batch.iter().enumerate() {
        let step = watch.next().unwrap().unwrap();
        assert_eq!((step.step, f(step.rain_mm)), (t, depths[t]));
        assert_eq!(step.max_probability, field.max_probability());
        assert_eq!(step.alert, field.alert::<Ieee>(b(0.5)).unwrap());
        if step.alert.is_some() {
            alerts += 1;
        }
    }
    assert!(watch.next().unwrap().is_none());
    assert_eq!(watch.n_alerts(), alerts);
    assert!(alerts > 0);
}

#[test]
fn a_watch_can_show_calibrated_hazards() {
    let dims = GridDims::new(1, 1);
    let cal = Calibrator { xs: bs(&[0.0, 1.0]), ys: bs(&[0.25, 0.25]) };
    let mut watch =
        Watch::<Ieee>::new(uniform(dims, 0.7), bs(&[50.0]), &args(1.0), b(24.0), b(0.5), Some(cal)).ok().unwrap();
    let step = watch.next().unwrap().unwrap();
    assert_eq!(f(step.max_probability), 0.25);
    assert!(step.alert.is_none());
}

#[test]
fn a_watch_stops_at_what_it_cannot_take() {
    let dims = GridDims::new(1, 1);
    let watch = |depths: &[f64], level: f64, dt: f64| {
        Watch::<Ieee>::new(uniform(dims, 0.7), bs(depths), &args(6.0), b(dt), b(level), None)
    };
    assert!(watch(&[-1.0], 0.5, 24.0).ok().unwrap().next().is_err());
    assert!(watch(&[1.0], 1.5, 24.0).ok().unwrap().next().is_err());
    assert!(watch(&[1.0], 0.5, 0.0).is_err());
    assert!(Watch::<Ieee>::new(uniform(dims, 0.7), vec![], &args(0.0), b(24.0), b(0.5), None).is_err());
}

#[test]
fn a_dated_gauge_needs_as_many_dates_as_depths() {
    let (depths, months) = gauge_series::<Ieee>("gauge.csv", GAUGE, 1).unwrap();
    assert_eq!((fs(&depths), months), (vec![0.0, 50.0, 2.5], vec![(2000, 1), (2000, 2), (2000, 3)]));
    assert_eq!(
        says(gauge_series::<Ieee>("gauge.csv", "date,mm\n2000-01-05,1.5\n2000-02-07,NaN\n", 1).err().unwrap()),
        "rain CSV has 2 dated rows but 1 numeric depths; need a date column 0 (YYYY-MM-...) and depth column 1"
    );
    assert_eq!(
        says(gauge_series::<Ieee>("gauge.csv", GAUGE, 4).err().unwrap()),
        "no numeric values in column 4 of gauge.csv"
    );
    assert_eq!(gauge_depths::<Ieee>("g", GAUGE, 1).unwrap().len(), 3);
}

#[test]
fn backtests_score_the_trigger_alone() {
    let depths = bs(&[0.0, 50.0, 2.5]);
    let months = [(2000, 1), (2000, 2), (2000, 3)];
    let days = alert_days::<Ieee>(&depths, b(24.0), &args(5.0), b(0.5)).unwrap();
    let rain = UniformRain::new(GridDims::new(1, 1), b(24.0), depths.clone()).unwrap();
    let nc = make_nowcast::<UniformRain, Ieee>(uniform(GridDims::new(1, 1), 1.0), rain, &args(5.0)).ok().unwrap();
    let direct: Vec<bool> = nc.run().iter().map(|x| f(x.max_probability()) >= 0.5).collect();
    assert_eq!(days, direct);
    let score = |id_a: f64| {
        backtest::<Ieee>(&depths, &months, &[(2000, 2)], b(24.0), &args(id_a), b(0.5), 0).unwrap()
    };
    // A low curve alerts in February and, through its windows, in March.
    assert_eq!((score(1.0).hits, score(1.0).misses), (1, 0));
    // A high curve stays quiet and misses the event.
    assert_eq!(score(100.0), Contingency { hits: 0, misses: 1, false_alarms: 0, correct_negatives: 2 });
    assert!(backtest::<Ieee>(&depths, &months[..2], &[], b(24.0), &args(1.0), b(0.5), 0).is_err());
    assert!(backtest::<Ieee>(&depths, &months, &[], b(0.0), &args(1.0), b(0.5), 0).is_err());
}

#[test]
fn sweeps_are_read_and_checked() {
    let (lo, hi, step) = parse_sweep::<Ieee>("2:16:0.5").unwrap();
    assert_eq!((f(lo), f(hi), f(step)), (2.0, 16.0, 0.5));
    let message = |text: &str| says(parse_sweep::<Ieee>(text).unwrap_err());
    assert_eq!(message("2:16"), "--sweep must be MIN:MAX:STEP (e.g. 2:16:0.5)");
    assert_eq!(message("a:16:1"), "sweep MIN");
    assert_eq!(message("2: 16:1"), "sweep MAX");
    assert_eq!(message("2:16:"), "sweep STEP");
    assert_eq!(message("2:16:0"), "--sweep needs STEP > 0 and MAX ≥ MIN");
    assert_eq!(message("16:2:1"), "--sweep needs STEP > 0 and MAX ≥ MIN");
}

#[test]
fn a_sweep_keeps_the_first_best_intercept() {
    let mut sweep = Sweep::new(b(1.0), b(3.0), b(0.5));
    let scores = [Some(0.2), Some(0.6), None, Some(0.6), Some(0.1)];
    let mut seen = Vec::new();
    while let Some(a) = sweep.pending::<Ieee>() {
        sweep.record::<Ieee>(scores[seen.len()].map(b));
        seen.push(f(a));
    }
    assert_eq!(seen, vec![1.0, 1.5, 2.0, 2.5, 3.0]);
    let (a, csi) = sweep.best();
    assert_eq!((f(a), f(csi)), (1.5, 0.6));
    let (a, csi) = Sweep::new(b(1.0), b(3.0), b(0.5)).best();
    assert!(f(a).is_nan());
    assert_eq!(f(csi), -1.0);
}

#[test]
fn calibrations_pair_rows() {
    let text = "score,outcome\n0.1,0\n0.2,1\n0.4,0\n0.8,1\n";
    let c = calibration::<Ieee>("pairs.csv", text, 0, 1, 5).unwrap();
    assert_eq!(c.n_pairs, 4);
    assert_eq!(fs(&c.calibrator.ys), vec![0.0, 0.5, 1.0]);
    assert_eq!(f(c.before.base_rate), 0.5);
    assert!((f(c.before.brier) - 0.85 / 4.0).abs() < 1e-12);
    // The line between the blocks gives 0.25 at 0.2 and 0.6 at 0.4.
    assert!((f(c.after.brier) - (0.5625 + 0.36) / 4.0).abs() < 1e-12);
    let message = |text: &str, bins: usize| says(calibration::<Ieee>("pairs.csv", text, 0, 1, bins).err().unwrap());
    assert_eq!(message("score,outcome\n", 5), "no numeric values in column 0 of pairs.csv");
    assert_eq!(
        message("0.9,abc\nxyz,1\n", 5),
        "invalid parameter `pairs`: line 1: column 0 parses but column 1 does not — refusing to pair values across \
         rows (fix or drop the line)"
    );
    assert_eq!(message("0.5,1\n", 0), "invalid parameter `n_bins`: must be >= 1");
    assert_eq!(
        message("1.5,1\n", 5),
        "invalid parameter `preds`: must all be probabilities in [0, 1], got 1.5"
    );
    assert_eq!(calibrate_pairs::<Ieee>(&[(b(0.3), b(2.0))], 5).unwrap().n_pairs, 1);
}

#[test]
fn half_is_the_level_of_the_curve() {
    // A single step of 24 hours: the curve lies at a · 24^(-b) · 24 millimetres.
    let curve = 5.0 * 24.0f64.powf(-0.39) * 24.0;
    let day = |depth: f64| alert_days::<Ieee>(&bs(&[depth]), b(24.0), &args(5.0), b(0.5)).unwrap()[0];
    assert!(day(curve * 1.001));
    assert!(!day(curve * 0.999));
}

#[test]
fn a_sweep_backtests_every_intercept() {
    let depths = bs(&[0.0, 50.0, 2.5, 30.0, 1.0]);
    let months = [(2000, 1), (2000, 2), (2000, 3), (2000, 4), (2000, 5)];
    let events = [(2000, 2)];
    let swept = sweep::<Ieee>(
        &depths, &months, &events, b(24.0), &args(9.0), b(0.5), 0, b(0.5), b(2.5), b(0.5),
    )
    .unwrap()
    .unwrap();
    let intercepts: Vec<f64> = swept.rows.iter().map(|r| f(r.intercept)).collect();
    assert_eq!(intercepts, vec![0.5, 1.0, 1.5, 2.0, 2.5]);
    let mut best = (f64::NAN, -1.0);
    for row in &swept.rows {
        let alone =
            backtest::<Ieee>(&depths, &months, &events, b(24.0), &args(f(row.intercept)), b(0.5), 0).unwrap();
        assert_eq!(row.table, alone);
        assert_eq!(row.csi, alone.csi::<Ieee>());
        let csi = row.csi.map(f).unwrap_or(0.0);
        if csi > best.1 {
            best = (f(row.intercept), csi);
        }
    }
    assert_eq!((f(swept.best.0), f(swept.best.1)), best);
    assert!(best.1 > 0.0);
}

#[test]
fn a_sweep_goes_on_row_by_row() {
    let depths = bs(&[0.0, 50.0, 2.5]);
    let months = [(2000, 1), (2000, 2), (2000, 3)];
    let mut state = Sweep::new(b(1.0), b(101.0), b(100.0));
    let mut tables = Vec::new();
    while let Some(row) =
        state.advance::<Ieee>(&depths, &months, &[(2000, 2)], b(24.0), &args(9.0), b(0.5), 0).unwrap()
    {
        tables.push((f(row.intercept), row.table.hits));
    }
    assert_eq!(tables, vec![(1.0, 1), (101.0, 0)]);
    assert_eq!(f(state.best().0), 1.0);
    // A refused intercept leaves the sweep where it was.
    let mut refused = Sweep::new(b(-1.0), b(1.0), b(1.0));
    let step = |s: &mut Sweep| s.advance::<Ieee>(&depths, &months, &[], b(24.0), &args(9.0), b(0.5), 0);
    assert!(step(&mut refused).is_err());
    assert!(step(&mut refused).is_err());
    assert_eq!(refused.pending::<Ieee>().map(f), Some(-1.0));
}

#[test]
fn a_sweep_ends_where_it_cannot_move_on() {
    let depths = bs(&[0.0, 50.0, 2.5]);
    let months = [(2000, 1), (2000, 2), (2000, 3)];
    let over = |lo: f64, hi: f64, stride: f64| {
        sweep::<Ieee>(&depths, &months, &[], b(24.0), &args(9.0), b(0.5), 0, b(lo), b(hi), b(stride))
    };
    assert!(over(1e20, 1e21, 1.0).unwrap().is_none());
    assert!(over(1.0, 2.0, f64::NAN).unwrap().is_none());
    assert!(over(-1.0, 2.0, 1.0).is_err());
    let none = over(3.0, 2.0, 1.0).unwrap().unwrap();
    assert!(none.rows.is_empty());
    assert!(f(none.best.0).is_nan());
    assert_eq!(f(none.best.1), -1.0);
}

#[test]
fn a_watch_stays_at_a_row_that_the_engine_refuses() {
    let dims = GridDims::new(1, 1);
    let watch = |depths: &[f64], level: f64| {
        Watch::<Ieee>::new(uniform(dims, 0.7), bs(depths), &args(6.0), b(24.0), b(level), None).ok().unwrap()
    };
    let mut refused = watch(&[1.0, -1.0], 0.5);
    assert!(refused.next().unwrap().is_some());
    assert!(refused.next().is_err());
    assert!(refused.next().is_err());
    // A level that is no probability is only found out behind the row.
    let mut late = watch(&[1.0], 1.5);
    assert!(late.next().is_err());
    assert!(late.next().unwrap().is_none());
}
