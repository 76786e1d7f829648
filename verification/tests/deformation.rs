use nowcast::arithmetic::Arithmetic;
use nowcast::binary64::Binary64;
use nowcast::deformation::{DeformationForcing, deformation_trigger_from_velocity};
use nowcast::forcing::{Forcing, UniformRain};
use nowcast::grid::{GridDims, SusceptibilityMap};
use nowcast::multi::{Combine, IdTrigger, MultiNowcast};
use nowcast::threshold::IdThreshold;
use nowcast::trigger::TriggerModel;

struct Ieee;

fn f(v: Binary64) -> f64 {
    f64::from_bits(v.to_bits())
}

fn b(v: f64) -> Binary64 {
    Binary64::from_bits(v.to_bits())
}

impl Arithmetic for Ieee {
    fn plus(x: Binary64, y: Binary64) -> Binary64 {
        b(f(x) + f(y))
    }
    fn minus(x: Binary64, y: Binary64) -> Binary64 {
        b(f(x) - f(y))
    }
    fn times(x: Binary64, y: Binary64) -> Binary64 {
        b(f(x) * f(y))
    }
    fn over(x: Binary64, y: Binary64) -> Binary64 {
        b(f(x) / f(y))
    }
    fn power(x: Binary64, y: Binary64) -> Binary64 {
        b(f(x).powf(f(y)))
    }
    fn exponential(x: Binary64) -> Binary64 {
        b(f(x).exp())
    }
    fn logarithm(x: Binary64) -> Binary64 {
        b(f(x).ln())
    }
    fn root(x: Binary64) -> Binary64 {
        b(f(x).sqrt())
    }
    fn of_count(n: u64) -> Binary64 {
        b(n as f64)
    }
    fn ceiling(x: Binary64) -> Binary64 {
        b(f(x).ceil())
    }
    fn nearest(x: Binary64) -> Binary64 {
        b(f(x).round())
    }
    fn parse(text: &[char]) -> Option<Binary64> {
        text.iter().collect::<String>().parse::<f64>().ok().map(b)
    }
    fn show(x: Binary64) -> String {
        format!("{}", f(x))
    }
    fn show_rounded(x: Binary64, decimals: usize) -> String {
        format!("{:.*}", decimals, f(x))
    }
}

fn bs(v: &[f64]) -> Vec<Binary64> {
    v.iter().map(|x| b(*x)).collect()
}

fn widened(v: &[f32]) -> Vec<Binary64> {
    v.iter().map(|x| b(*x as f64)).collect()
}

#[test]
fn velocity_becomes_rate_mm_yr() {
    let v = widened(&[0.005_f32, -0.012, f32::NAN, 0.0]);
    let dims = GridDims::new(2, 2);
    let forcing = DeformationForcing::from_velocity_m_per_yr::<Ieee>(dims, &v, 4, b(24.0));
    assert_eq!(forcing.dims(), GridDims::new(2, 2));
    assert_eq!(forcing.n_steps(), 4);
    assert!((f(forcing.depth_mm(0, 0)) - 5.0).abs() < 1e-6);
    assert!((f(forcing.depth_mm(1, 0)) - 12.0).abs() < 1e-6);
    assert_eq!(f(forcing.depth_mm(2, 2)), 0.0);
    assert_eq!(forcing.depth_mm(0, 0), forcing.depth_mm(0, 3));
    assert_eq!(f(forcing.dt_hours()), 24.0);
}

#[test]
fn deformation_lets_a_creeping_cell_alert_without_rain() {
    let dims = GridDims::new(2, 1);
    let vel = widened(&[0.001_f32, 0.040]);
    let deform =
        deformation_trigger_from_velocity::<Ieee>(dims, &vel, 3, b(24.0), b(20.0), TriggerModel::default())
            .ok()
            .unwrap();
    let rain = IdTrigger::<UniformRain, Ieee>::new(
        UniformRain::new(dims, b(24.0), bs(&[0.0, 0.0, 0.0])).unwrap(),
        IdThreshold::caine(),
        TriggerModel::default(),
        3,
    )
    .ok()
    .unwrap();
    let susc = SusceptibilityMap::uniform(dims, b(0.85)).unwrap();
    let nc = MultiNowcast::<Ieee>::new(susc, vec![Box::new(rain), Box::new(deform)], Combine::NoisyOr)
        .ok()
        .unwrap();
    let p = nc.hazard_at(0);
    assert!(f(p.probability()[0]) < 0.1, "stable cell stays quiet");
    assert!(f(p.probability()[1]) > 0.7, "creeping cell alerts on deformation alone");
}

#[test]
fn subsidence_and_uplift_count_alike() {
    let dims = GridDims::new(2, 1);
    let forcing =
        DeformationForcing::from_velocity_m_per_yr::<Ieee>(dims, &bs(&[0.007, -0.007]), 1, b(24.0));
    assert_eq!(forcing.depth_mm(0, 0), forcing.depth_mm(1, 0));
    assert_eq!(f(forcing.clone().depth_mm(0, 0)), 0.007 * 1000.0);
}

#[test]
fn a_critical_velocity_must_be_above_zero() {
    let dims = GridDims::new(1, 1);
    let e = deformation_trigger_from_velocity::<Ieee>(
        dims,
        &bs(&[0.01]),
        1,
        b(24.0),
        b(0.0),
        TriggerModel::default(),
    );
    assert_eq!(
        e.err().unwrap().message::<Ieee>(),
        "invalid parameter `crit`: threshold must be finite and > 0, got 0"
    );
}
