use nowcast::arithmetic::Arithmetic;
use nowcast::binary64::Binary64;
use nowcast::grid::GridDims;
use nowcast::runout::{Runout, validate_pixel_size};
use swarm_abm::prelude::{Grid2D, Pos};

struct Ieee;

fn f(v: Binary64) -> f64 {
    f64::from_bits(v.to_bits())
}

fn b(v: f64) -> Binary64 {
    Binary64::from_bits(v.to_bits())
}

impl Arithmetic for Ieee {
    fn plus(x: Binary64, y: Binary64) -> Binary64 {
        b(f(x) + f(y))
    }
    fn minus(x: Binary64, y: Binary64) -> Binary64 {
        b(f(x) - f(y))
    }
    fn times(x: Binary64, y: Binary64) -> Binary64 {
        b(f(x) * f(y))
    }
    fn over(x: Binary64, y: Binary64) -> Binary64 {
        b(f(x) / f(y))
    }
    fn power(x: Binary64, y: Binary64) -> Binary64 {
        b(f(x).powf(f(y)))
    }
    fn exponential(x: Binary64) -> Binary64 {
        b(f(x).exp())
    }
    fn logarithm(x: Binary64) -> Binary64 {
        b(f(x).ln())
    }
    fn root(x: Binary64) -> Binary64 {
        b(f(x).sqrt())
    }
    fn of_count(n: u64) -> Binary64 {
        b(n as f64)
    }
    fn ceiling(x: Binary64) -> Binary64 {
        b(f(x).ceil())
    }
    fn nearest(x: Binary64) -> Binary64 {
        b(f(x).round())
    }
    fn parse(text: &[char]) -> Option<Binary64> {
        text.iter().collect::<String>().parse::<f64>().ok().map(b)
    }
    fn show(x: Binary64) -> String {
        format!("{}", f(x))
    }
    fn show_rounded(x: Binary64, decimals: usize) -> String {
        format!("{:.*}", decimals, f(x))
    }
}

fn fs(v: &[Binary64]) -> Vec<f64> {
    v.iter().map(|x| f(*x)).collect()
}

fn footprint() -> Grid2D<bool> {
    let mut fp = Grid2D::from_fn(2, 2, |_p: Pos| false);
    fp[Pos { x: 0, y: 0 }] = true;
    fp[Pos { x: 1, y: 1 }] = true;
    fp
}

#[test]
fn footprint_refines_to_hazard() {
    let fp = footprint();
    let runout = Runout::from_footprint(&fp, b(30.0)).unwrap();
    assert!(Runout::from_footprint(&fp, b(f64::NAN)).is_err());
    assert!(Runout::from_footprint(&fp, b(-30.0)).is_err());
    assert!(Runout::from_footprint(&fp, b(0.0)).is_err());

    assert_eq!(runout.affected_cells(), 2);
    assert!((f(runout.affected_km2::<Ieee>()) - 2.0 * 900.0 / 1.0e6).abs() < 1e-12);

    let hz = runout.refined_hazard(0, b(0.8)).unwrap();
    assert_eq!(fs(hz.probability()), &[0.8, 0.0, 0.0, 0.8]);
    assert!(runout.refined_hazard(0, b(1.0001)).is_err());
}

#[test]
fn rows_and_columns_line_up() {
    // Three columns and two rows, with one mark in the second row.
    let mut fp = Grid2D::from_fn(3, 2, |_p: Pos| false);
    fp[Pos { x: 2, y: 1 }] = true;
    let runout = Runout::from_footprint(&fp, b(10.0)).unwrap();
    assert_eq!(runout.dims(), GridDims::new(3, 2));
    assert_eq!(runout.footprint(), &[false, false, false, false, false, true]);
    assert_eq!(runout.clone().footprint(), runout.footprint());
    assert_eq!(runout.dims().index(2, 1), 5);
}

#[test]
fn runout_errors_name_their_cause() {
    assert_eq!(
        validate_pixel_size(b(0.0)).unwrap_err().message::<Ieee>(),
        "invalid parameter `pixel_size`: must be finite and > 0 metres, got 0"
    );
    let runout = Runout::from_footprint(&footprint(), b(30.0)).unwrap();
    assert_eq!(
        runout.refined_hazard(0, b(2.0)).unwrap_err().message::<Ieee>(),
        "invalid parameter `probability`: mask probability is 2, expected within [0, 1]"
    );
}
