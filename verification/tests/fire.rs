use nowcast::arithmetic::Arithmetic;
use nowcast::binary64::Binary64;
use nowcast::fire::{FireField, post_fire_susceptibility, validate_horizon};
use nowcast::forcing::UniformRain;
use nowcast::grid::{GridDims, SusceptibilityMap};
use nowcast::nowcast::Nowcast;
use nowcast::threshold::IdThreshold;
use nowcast::trigger::TriggerModel;

struct Ieee;

fn f(v: Binary64) -> f64 {
    f64::from_bits(v.to_bits())
}

fn b(v: f64) -> Binary64 {
    Binary64::from_bits(v.to_bits())
}

impl Arithmetic for Ieee {
    fn plus(x: Binary64, y: Binary64) -> Binary64 {
        b(f(x) + f(y))
    }
    fn minus(x: Binary64, y: Binary64) -> Binary64 {
        b(f(x) - f(y))
    }
    fn times(x: Binary64, y: Binary64) -> Binary64 {
        b(f(x) * f(y))
    }
    fn over(x: Binary64, y: Binary64) -> Binary64 {
        b(f(x) / f(y))
    }
    fn power(x: Binary64, y: Binary64) -> Binary64 {
        b(f(x).powf(f(y)))
    }
    fn exponential(x: Binary64) -> Binary64 {
        b(f(x).exp())
    }
    fn logarithm(x: Binary64) -> Binary64 {
        b(f(x).ln())
    }
    fn root(x: Binary64) -> Binary64 {
        b(f(x).sqrt())
    }
    fn of_count(n: u64) -> Binary64 {
        b(n as f64)
    }
    fn ceiling(x: Binary64) -> Binary64 {
        b(f(x).ceil())
    }
    fn nearest(x: Binary64) -> Binary64 {
        b(f(x).round())
    }
    fn parse(text: &[char]) -> Option<Binary64> {
        text.iter().collect::<String>().parse::<f64>().ok().map(b)
    }
    fn show(x: Binary64) -> String {
        format!("{}", f(x))
    }
    fn show_rounded(x: Binary64, decimals: usize) -> String {
        format!("{:.*}", decimals, f(x))
    }
}

fn bs(v: &[f64]) -> Vec<Binary64> {
    v.iter().map(|x| b(*x)).collect()
}

fn fs(v: &[Binary64]) -> Vec<f64> {
    v.iter().map(|x| f(*x)).collect()
}

/// A fire that reaches the cells of a 16 × 16 grid at the pace of ten minutes per
/// cell, and never the last row.
fn burning_field() -> FireField {
    let dims = GridDims::new(16, 16);
    let mut arrival = Vec::new();
    let mut intensity = Vec::new();
    for row in 0..16i32 {
        for col in 0..16i32 {
            let reach = (row - 8).abs().max((col - 8).abs()) as f64;
            arrival.push(b(if row == 15 { f64::INFINITY } else { 10.0 * reach }));
            intensity.push(b(4000.0 - 500.0 * reach));
        }
    }
    FireField::new(dims, arrival, intensity, b(60.0)).unwrap()
}

#[test]
fn fire_burns_and_mask_matches_grid() {
    let fire = burning_field();
    let mask = fire.burned_mask();
    assert_eq!(mask.len(), fire.dims().len());
    assert!(fire.burned_cells() > 0, "the field should burn");
    assert_eq!(mask.iter().filter(|&&m| m).count(), fire.burned_cells());
    // Six cells to either side of the ignition, all within the grid.
    assert_eq!(fire.burned_cells(), 13 * 13);
    assert_eq!(f(fire.horizon_min()), 60.0);
}

#[test]
fn fire_hazard_is_in_unit_interval_and_zero_off_scar() {
    let fire = burning_field();
    let hz = fire.fire_hazard::<Ieee>(b(1730.0)).unwrap();
    let burned = fire.burned_mask();
    for (p, m) in fs(hz.probability()).iter().zip(&burned) {
        assert!((0.0..=1.0).contains(p));
        if !m {
            assert_eq!(*p, 0.0, "unburned cells carry no fire hazard");
        }
    }
    assert!(fire.fire_hazard::<Ieee>(b(0.0)).is_err());
    let edge = fs(hz.probability())[8 * 16 + 14];
    assert_eq!(edge, 1000.0 / 1730.0);
}

#[test]
fn cascade_raises_burned_cells_only() {
    let fire = burning_field();
    let base = SusceptibilityMap::uniform(fire.dims(), b(0.4)).unwrap();
    let after = post_fire_susceptibility::<Ieee>(&base, &fire, b(2.0)).unwrap();
    let burned = fire.burned_mask();
    for (cell, &m) in burned.iter().enumerate() {
        if m {
            assert!(f(after.get(cell)) > f(base.get(cell)), "burned cell susceptibility must rise");
            assert!(f(after.get(cell)) <= 1.0, "clamped to [0,1]");
        } else {
            assert_eq!(after.get(cell), base.get(cell), "unburned cell unchanged");
        }
    }
    let capped = post_fire_susceptibility::<Ieee>(&base, &fire, b(9.0)).unwrap();
    assert_eq!(f(capped.get(8 * 16 + 8)), 1.0);
}

#[test]
fn cascade_rejects_grid_mismatch() {
    let fire = burning_field();
    let wrong = SusceptibilityMap::uniform(GridDims::new(4, 4), b(0.5)).unwrap();
    let e = post_fire_susceptibility::<Ieee>(&wrong, &fire, b(1.5)).unwrap_err();
    assert_eq!(e.message::<Ieee>(), "grid mismatch: susceptibility is 4x4 but forcing is 16x16");
}

#[test]
fn run_fire_rejects_a_degenerate_horizon() {
    let run = |horizon: f64| {
        validate_horizon(b(horizon))?;
        FireField::new(GridDims::new(1, 1), bs(&[0.0]), bs(&[1.0]), b(horizon))
    };
    assert!(run(f64::NAN).is_err());
    assert!(run(0.0).is_err());
    assert!(run(-60.0).is_err());
    assert!(run(60.0).is_ok());
    assert_eq!(
        run(-60.0).unwrap_err().message::<Ieee>(),
        "invalid parameter `horizon_min`: must be finite and > 0 minutes, got -60"
    );
    assert!(FireField::new(GridDims::new(1, 1), bs(&[0.0]), bs(&[1.0]), b(0.0)).is_err());
}

#[test]
fn fire_errors_name_their_cause() {
    let fire = burning_field();
    let base = SusceptibilityMap::uniform(fire.dims(), b(0.4)).unwrap();
    assert_eq!(
        fire.fire_hazard::<Ieee>(b(f64::NAN)).unwrap_err().message::<Ieee>(),
        "invalid parameter `intensity_ref_kw_m`: must be a positive, finite reference intensity"
    );
    assert_eq!(
        post_fire_susceptibility::<Ieee>(&base, &fire, b(-1.0)).unwrap_err().message::<Ieee>(),
        "invalid parameter `factor`: must be a non-negative, finite amplification"
    );
    // An intensity that is no number has no share in the reference.
    let odd = FireField::new(GridDims::new(1, 1), bs(&[0.0]), bs(&[f64::NAN]), b(60.0)).unwrap();
    assert!(odd.fire_hazard::<Ieee>(b(1730.0)).is_err());
}

#[test]
fn behind_a_fire_the_same_rain_finds_no_lower_hazard() {
    let fire = burning_field();
    let base = SusceptibilityMap::uniform(fire.dims(), b(0.4)).unwrap();
    let after = post_fire_susceptibility::<Ieee>(&base, &fire, b(2.0)).unwrap();
    let engine = |map: SusceptibilityMap| {
        let rain = UniformRain::new(fire.dims(), b(1.0), bs(&[2.0, 18.0, 5.0])).unwrap();
        Nowcast::<UniformRain, Ieee>::new(map, rain, IdThreshold::caine(), TriggerModel::default(), 3).ok().unwrap()
    };
    let (before, behind) = (engine(base).run(), engine(after).run());
    let burned = fire.burned_mask();
    for (x, y) in before.iter().zip(&behind) {
        for (cell, (p, q)) in fs(x.probability()).iter().zip(fs(y.probability())).enumerate() {
            assert!(*p <= q);
            assert_eq!(*p < q, burned[cell]);
        }
    }
}

#[test]
fn a_fire_can_be_copied() {
    let fire = burning_field();
    let copy = fire.clone();
    assert_eq!(copy.dims(), fire.dims());
    assert_eq!(copy.burned_mask(), fire.burned_mask());
    assert_eq!(copy.horizon_min(), fire.horizon_min());
}

#[test]
fn every_finite_factor_is_admissible() {
    let fire = burning_field();
    let base = SusceptibilityMap::uniform(fire.dims(), b(0.4)).unwrap();
    for factor in [0.0, -0.0, 1e-320, 0.5, 1.0, 1e300, f64::MAX] {
        let after = post_fire_susceptibility::<Ieee>(&base, &fire, b(factor)).unwrap();
        for (cell, m) in fire.burned_mask().iter().enumerate() {
            let expected = if *m { (0.4 * factor).clamp(0.0, 1.0) } else { 0.4 };
            assert_eq!(f(after.get(cell)), expected);
        }
    }
    for reference in [1e-320, 1.0, f64::MAX] {
        let hazard = fire.fire_hazard::<Ieee>(b(reference)).unwrap();
        assert!(fs(hazard.probability()).iter().all(|p| (0.0..=1.0).contains(p)));
    }
}
