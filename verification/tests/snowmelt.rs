use nowcast::arithmetic::Arithmetic;
use nowcast::binary64::Binary64;
use nowcast::forcing::Forcing;
use nowcast::grid::{GridDims, SusceptibilityMap};
use nowcast::nowcast::Nowcast;
use nowcast::snowmelt::SnowmeltForcing;
use nowcast::threshold::IdThreshold;
use nowcast::trigger::TriggerModel;

struct Ieee;

fn f(v: Binary64) -> f64 {
    f64::from_bits(v.to_bits())
}

fn b(v: f64) -> Binary64 {
    Binary64::from_bits(v.to_bits())
}

impl Arithmetic for Ieee {
    fn plus(x: Binary64, y: Binary64) -> Binary64 {
        b(f(x) + f(y))
    }
    fn minus(x: Binary64, y: Binary64) -> Binary64 {
        b(f(x) - f(y))
    }
    fn times(x: Binary64, y: Binary64) -> Binary64 {
        b(f(x) * f(y))
    }
    fn over(x: Binary64, y: Binary64) -> Binary64 {
        b(f(x) / f(y))
    }
    fn power(x: Binary64, y: Binary64) -> Binary64 {
        b(f(x).powf(f(y)))
    }
    fn exponential(x: Binary64) -> Binary64 {
        b(f(x).exp())
    }
    fn logarithm(x: Binary64) -> Binary64 {
        b(f(x).ln())
    }
    fn root(x: Binary64) -> Binary64 {
        b(f(x).sqrt())
    }
    fn of_count(n: u64) -> Binary64 {
        b(n as f64)
    }
    fn ceiling(x: Binary64) -> Binary64 {
        b(f(x).ceil())
    }
    fn nearest(x: Binary64) -> Binary64 {
        b(f(x).round())
    }
    fn parse(text: &[char]) -> Option<Binary64> {
        text.iter().collect::<String>().parse::<f64>().ok().map(b)
    }
    fn show(x: Binary64) -> String {
        format!("{}", f(x))
    }
    fn show_rounded(x: Binary64, decimals: usize) -> String {
        format!("{:.*}", decimals, f(x))
    }
}

fn bs(v: &[f64]) -> Vec<Binary64> {
    v.iter().map(|x| b(*x)).collect()
}

fn fs(v: &[Binary64]) -> Vec<f64> {
    v.iter().map(|x| f(*x)).collect()
}

#[test]
fn warm_rain_runoff_matches_precip() {
    let dims = GridDims::new(3, 2);
    let forcing = SnowmeltForcing::run::<Ieee>(dims, &[bs(&[20.0; 6])], b(1.0));
    assert_eq!(forcing.dims(), GridDims::new(3, 2));
    assert_eq!(forcing.n_steps(), 1);
    assert_eq!(f(forcing.dt_hours()), 24.0);
    for cell in 0..forcing.dims().len() {
        assert!((f(forcing.depth_mm(cell, 0)) - 20.0).abs() < 1e-6);
    }
}

#[test]
fn melt_is_spatially_distributed() {
    let dims = GridDims::new(3, 2);
    let melt = [9.0, 8.0, 7.0, 8.0, 7.0, 6.0];
    let forcing = SnowmeltForcing::run::<Ieee>(dims, &[bs(&[0.0; 6]), bs(&melt)], b(1.0));
    for cell in 0..forcing.dims().len() {
        assert!(f(forcing.depth_mm(cell, 0)) < 1.0, "snowy day produced runoff");
    }
    let low = f(forcing.depth_mm(0, 1));
    let high = f(forcing.depth_mm(5, 1));
    assert!(low > 0.0, "no melt on warm day");
    assert!(low >= high, "warmer cell should melt at least as much: low={low} high={high}");
    assert_eq!(fs(forcing.runoff_at(1)), melt);
    assert_eq!(fs(forcing.clone().runoff_at(0)), [0.0; 6]);
}

#[test]
fn drives_a_nowcast_end_to_end() {
    let dims = GridDims::new(3, 2);
    let forcing = SnowmeltForcing::run::<Ieee>(dims, &[bs(&[0.0; 6]), bs(&[30.0; 6])], b(1.0));
    let susc = SusceptibilityMap::uniform(dims, b(0.8)).unwrap();
    let nowcast = Nowcast::<SnowmeltForcing, Ieee>::new(
        susc,
        forcing,
        IdThreshold::new(b(3.0), b(0.39)).unwrap(),
        TriggerModel::default(),
        7,
    )
    .ok()
    .unwrap();
    let fields = nowcast.run();
    assert!(f(fields[0].max_probability()) < 0.2, "snowy day should be quiet");
    assert!(
        f(fields[1].max_probability()) > 0.4,
        "melt pulse should raise hazard, got {}",
        f(fields[1].max_probability())
    );
}

#[test]
fn cells_without_elevation_get_no_water() {
    let dims = GridDims::new(3, 1);
    let forcing = SnowmeltForcing::run::<Ieee>(dims, &[bs(&[f64::NAN, -2.0, f64::INFINITY])], b(0.25));
    assert_eq!(fs(forcing.runoff_at(0)), [0.0, 0.0, 0.0]);
    assert_eq!(f(forcing.dt_hours()), 6.0);
}
