use nowcast::arithmetic::Arithmetic;
use nowcast::binary64::Binary64;
use nowcast::ensemble::{EnsembleField, ensemble_hazard};
use nowcast::error::Error;
use nowcast::forcing::UniformRain;
use nowcast::grid::{GridDims, SusceptibilityMap};
use nowcast::nowcast::Nowcast;
use nowcast::threshold::IdThreshold;
use nowcast::trigger::TriggerModel;

struct Ieee;

fn f(v: Binary64) -> f64 {
    f64::from_bits(v.to_bits())
}

fn b(v: f64) -> Binary64 {
    Binary64::from_bits(v.to_bits())
}

impl Arithmetic for Ieee {
    fn plus(x: Binary64, y: Binary64) -> Binary64 {
        b(f(x) + f(y))
    }
    fn minus(x: Binary64, y: Binary64) -> Binary64 {
        b(f(x) - f(y))
    }
    fn times(x: Binary64, y: Binary64) -> Binary64 {
        b(f(x) * f(y))
    }
    fn over(x: Binary64, y: Binary64) -> Binary64 {
        b(f(x) / f(y))
    }
    fn power(x: Binary64, y: Binary64) -> Binary64 {
        b(f(x).powf(f(y)))
    }
    fn exponential(x: Binary64) -> Binary64 {
        b(f(x).exp())
    }
    fn logarithm(x: Binary64) -> Binary64 {
        b(f(x).ln())
    }
    fn root(x: Binary64) -> Binary64 {
        b(f(x).sqrt())
    }
    fn of_count(n: u64) -> Binary64 {
        b(n as f64)
    }
    fn ceiling(x: Binary64) -> Binary64 {
        b(f(x).ceil())
    }
    fn nearest(x: Binary64) -> Binary64 {
        b(f(x).round())
    }
    fn parse(text: &[char]) -> Option<Binary64> {
        text.iter().collect::<String>().parse::<f64>().ok().map(b)
    }
    fn show(x: Binary64) -> String {
        format!("{}", f(x))
    }
    fn show_rounded(x: Binary64, decimals: usize) -> String {
        format!("{:.*}", decimals, f(x))
    }
}

fn bs(v: &[f64]) -> Vec<Binary64> {
    v.iter().map(|x| b(*x)).collect()
}

fn susc(dims: GridDims) -> SusceptibilityMap {
    SusceptibilityMap::uniform(dims, b(0.9)).unwrap()
}

fn rain(dims: GridDims, depths: &[f64]) -> UniformRain {
    UniformRain::new(dims, b(24.0), bs(depths)).unwrap()
}

fn run(members: Vec<UniformRain>, window: usize, level: f64) -> Result<Vec<EnsembleField>, Error> {
    ensemble_hazard::<UniformRain, Ieee>(
        &susc(GridDims::new(1, 1)),
        members,
        IdThreshold::new(b(6.0), b(0.39)).unwrap(),
        TriggerModel::default(),
        window,
        b(level),
    )
}

#[test]
fn single_member_is_deterministic() {
    let dims = GridDims::new(1, 1);
    let m = rain(dims, &[5.0, 80.0, 2.0]);
    let fields = run(vec![m], 7, 0.5).unwrap();
    assert_eq!(fields.len(), 3);
    for field in &fields {
        assert_eq!(f(field.spread()[0]), 0.0);
        let p = f(field.probability_of_exceedance()[0]);
        assert!(p == 0.0 || p == 1.0);
    }
}

#[test]
fn exceedance_is_member_fraction() {
    let dims = GridDims::new(1, 1);
    let dry = rain(dims, &[1.0]);
    let wet = rain(dims, &[90.0]);
    let wetter = rain(dims, &[120.0]);
    let fields = run(vec![dry, wet, wetter], 7, 0.5).unwrap();
    let p = f(fields[0].probability_of_exceedance()[0]);
    assert!((p - 2.0 / 3.0).abs() < 1e-9, "two of three members cross, got {p}");
    assert!(f(fields[0].spread()[0]) > 0.0, "mixed members have spread");
    assert_eq!(f(fields[0].max_probability_of_exceedance()), p);
}

#[test]
fn rejects_empty_and_mismatched() {
    let dims = GridDims::new(1, 1);
    let caine = |members: Vec<UniformRain>| {
        ensemble_hazard::<UniformRain, Ieee>(
            &susc(dims),
            members,
            IdThreshold::caine(),
            TriggerModel::default(),
            7,
            b(0.5),
        )
    };
    assert!(caine(vec![]).is_err());
    let a = rain(dims, &[1.0, 2.0]);
    let c = rain(dims, &[1.0]);
    assert!(caine(vec![a, c]).is_err());
}

#[test]
fn mean_and_spread_are_those_of_the_members() {
    let dims = GridDims::new(1, 1);
    let hazard = |depth: f64| {
        let engine = Nowcast::<UniformRain, Ieee>::new(
            susc(dims),
            rain(dims, &[depth]),
            IdThreshold::new(b(6.0), b(0.39)).unwrap(),
            TriggerModel::default(),
            7,
        )
        .unwrap();
        f(engine.hazard_at(0).unwrap().probability()[0])
    };
    let (x, y) = (hazard(20.0), hazard(60.0));
    let fields = run(vec![rain(dims, &[20.0]), rain(dims, &[60.0])], 7, 0.5).unwrap();
    let mean = (x + y) / 2.0;
    assert_eq!(f(fields[0].mean()[0]), mean);
    assert_eq!(f(fields[0].spread()[0]), ((x * x + y * y) / 2.0 - mean * mean).max(0.0).sqrt());
    assert_eq!(fields[0].dims(), dims);
}

#[test]
fn exceedance_does_not_depend_on_the_order_of_members() {
    let dims = GridDims::new(1, 1);
    let depths = [1.0, 90.0, 120.0, 40.0];
    let forward: Vec<UniformRain> = depths.iter().map(|d| rain(dims, &[*d])).collect();
    let backward: Vec<UniformRain> = depths.iter().rev().map(|d| rain(dims, &[*d])).collect();
    let p = run(forward, 7, 0.5).unwrap();
    let q = run(backward, 7, 0.5).unwrap();
    assert_eq!(p[0].probability_of_exceedance(), q[0].probability_of_exceedance());
}

#[test]
fn ensemble_errors_name_their_cause() {
    let dims = GridDims::new(1, 1);
    let message = |r: Result<Vec<EnsembleField>, Error>| r.err().unwrap().message::<Ieee>();
    assert_eq!(
        message(run(vec![], 7, 1.5)),
        "invalid parameter `alert_level`: must be a probability in [0, 1], got 1.5"
    );
    assert_eq!(
        message(run(vec![], 7, 0.5)),
        "invalid parameter `members`: ensemble needs at least one member"
    );
    assert_eq!(
        message(run(vec![rain(dims, &[1.0, 2.0]), rain(dims, &[1.0])], 7, 0.5)),
        "invalid parameter `members`: member has 1 steps, expected 2"
    );
    assert_eq!(
        message(run(vec![rain(GridDims::new(2, 1), &[1.0])], 7, 0.5)),
        "grid mismatch: susceptibility is 1x1 but forcing is 2x1"
    );
    assert_eq!(
        message(run(vec![rain(dims, &[1.0])], 0, 0.5)),
        "invalid parameter `max_window_steps`: must be >= 1"
    );
}

#[test]
fn one_member_has_no_spread() {
    let fields = run(vec![rain(GridDims::new(1, 1), &[3.0, 40.0, 7.0])], 3, 0.5).unwrap();
    assert_eq!(fields.len(), 3);
    for field in &fields {
        assert!(field.spread().iter().all(|s| f(*s) == 0.0));
        assert!(field.probability_of_exceedance().iter().all(|p| f(*p) == 0.0 || f(*p) == 1.0));
        let copy = field.clone();
        assert_eq!(copy.step, field.step);
        assert_eq!(copy.dims(), field.dims());
        assert_eq!(copy.mean(), field.mean());
        assert_eq!(copy.spread(), field.spread());
        assert_eq!(copy.probability_of_exceedance(), field.probability_of_exceedance());
    }
}
