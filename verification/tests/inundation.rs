use nowcast::arithmetic::Arithmetic;
use nowcast::binary64::Binary64;
use nowcast::grid::GridDims;
use nowcast::inundation::{DepthField, Inundation, Mesh, PointSource, discharge_to_inflow_m3s};

struct Ieee;

fn f(v: Binary64) -> f64 {
    f64::from_bits(v.to_bits())
}

fn b(v: f64) -> Binary64 {
    Binary64::from_bits(v.to_bits())
}

impl Arithmetic for Ieee {
    fn plus(x: Binary64, y: Binary64) -> Binary64 {
        b(f(x) + f(y))
    }
    fn minus(x: Binary64, y: Binary64) -> Binary64 {
        b(f(x) - f(y))
    }
    fn times(x: Binary64, y: Binary64) -> Binary64 {
        b(f(x) * f(y))
    }
    fn over(x: Binary64, y: Binary64) -> Binary64 {
        b(f(x) / f(y))
    }
    fn power(x: Binary64, y: Binary64) -> Binary64 {
        b(f(x).powf(f(y)))
    }
    fn exponential(x: Binary64) -> Binary64 {
        b(f(x).exp())
    }
    fn logarithm(x: Binary64) -> Binary64 {
        b(f(x).ln())
    }
    fn root(x: Binary64) -> Binary64 {
        b(f(x).sqrt())
    }
    fn of_count(n: u64) -> Binary64 {
        b(n as f64)
    }
    fn ceiling(x: Binary64) -> Binary64 {
        b(f(x).ceil())
    }
    fn nearest(x: Binary64) -> Binary64 {
        b(f(x).round())
    }
    fn parse(text: &[char]) -> Option<Binary64> {
        text.iter().collect::<String>().parse::<f64>().ok().map(b)
    }
    fn show(x: Binary64) -> String {
        format!("{}", f(x))
    }
    fn show_rounded(x: Binary64, decimals: usize) -> String {
        format!("{:.*}", decimals, f(x))
    }
}

fn bs(v: &[f64]) -> Vec<Binary64> {
    v.iter().map(|x| b(*x)).collect()
}

fn fs(v: &[Binary64]) -> Vec<f64> {
    v.iter().map(|x| f(*x)).collect()
}

fn mesh(rows: usize, cols: usize) -> Mesh {
    Mesh { rows, cols, dx: b(10.0), dy: b(20.0), h_dry: b(1e-3), gravity: b(9.81) }
}

fn inundation(rows: usize, cols: usize, duration: f64) -> Inundation {
    Inundation::new(mesh(rows, cols), b(duration)).unwrap()
}

fn source(row: usize, col: usize, q_mass: f64) -> PointSource {
    PointSource { row, col, q_mass: b(q_mass) }
}

#[test]
fn point_sources_outside_the_mesh_or_non_finite_are_rejected() {
    let inund = inundation(4, 4, 10.0);
    assert!(inund.check_sources(&[source(99, 0, 1.0)]).is_err());
    assert!(inund.check_sources(&[source(0, 4, 1.0)]).is_err());
    assert!(inund.check_sources(&[source(1, 1, f64::NAN)]).is_err());
    assert!(inund.check_sources(&[source(1, 1, 1.0)]).is_ok());
    assert_eq!(
        inund.check_sources(&[source(1, 1, 1.0), source(99, 0, 1.0)]).unwrap_err().message::<Ieee>(),
        "invalid parameter `sources`: source 1 at (row 99, col 0) lies outside the 4x4 mesh"
    );
    assert_eq!(
        inund.check_sources(&[source(1, 1, f64::NAN)]).unwrap_err().message::<Ieee>(),
        "invalid parameter `sources`: source 0 has a non-finite inflow q_mass = NaN"
    );
}

#[test]
fn refined_hazard_gates_by_physical_inundation() {
    let dims = GridDims::new(4, 4);
    let (field, _) = DepthField::from_depths(dims, &bs(&[0.1; 16]));
    let refined = field.refined_hazard(0, b(0.8), b(0.01)).unwrap();
    assert!(fs(refined.probability()).iter().all(|&p| (p - 0.8).abs() < 1e-9));
    assert!(field.refined_hazard(0, b(1.5), b(0.01)).is_err());
    let dry = field.refined_hazard(0, b(0.8), b(0.2)).unwrap();
    assert!(fs(dry.probability()).iter().all(|&p| p == 0.0));
}

#[test]
fn a_capped_run_reports_truncation_instead_of_lying() {
    let inund = inundation(6, 6, 300.0).with_max_steps(1).unwrap();
    let mut run = inund.start::<Ieee>();
    while run.goes_on() {
        run.next::<Ieee>(b(2.0));
    }
    let stats = run.stats(false);
    assert!(stats.truncated, "1-step cap cannot reach 300 s");
    assert_eq!(stats.steps, 1);
    assert!(f(stats.t_reached_s) < 300.0);
}

#[test]
fn builders_reject_bad_parameters() {
    let mk = || inundation(3, 3, 10.0);
    assert!(Inundation::new(mesh(3, 3), b(0.0)).is_err());
    assert!(Inundation::new(mesh(3, 3), b(f64::NAN)).is_err());
    assert!(mk().with_cfl(b(0.0)).is_err());
    assert!(mk().with_cfl(b(1.5)).is_err());
    assert!(mk().with_max_steps(0).is_err());
    assert!(mk().with_dry_tol(b(-1.0)).is_err());
    assert!(mk().with_cfl(b(0.9)).and_then(|i| i.with_max_steps(10)).is_ok());
    let all = mk().with_cfl(b(0.9)).unwrap().with_dry_tol(b(0.0)).unwrap();
    assert_eq!((f(all.cfl()), f(all.dry_tol())), (0.9, 0.0));
    assert_eq!((f(mk().cfl()), f(mk().dry_tol()), mk().mesh()), (0.4, 1e-3, mesh(3, 3)));
    assert_eq!(
        mk().with_cfl(b(1.5)).unwrap_err().message::<Ieee>(),
        "invalid parameter `cfl`: must be within (0, 1], got 1.5"
    );
    assert_eq!(
        mk().with_dry_tol(b(-1.0)).unwrap_err().message::<Ieee>(),
        "invalid parameter `dry_tol`: must be finite and >= 0, got -1"
    );
    assert_eq!(
        mk().with_max_steps(0).unwrap_err().message::<Ieee>(),
        "invalid parameter `max_steps`: must be >= 1"
    );
    assert_eq!(
        Inundation::new(mesh(3, 3), b(0.0)).unwrap_err().message::<Ieee>(),
        "invalid parameter `duration_s`: must be finite and > 0, got 0"
    );
}

#[test]
fn nan_depth_is_reported_unstable_not_silently_dry() {
    let heights = bs(&[f64::NAN, 0.5, 0.0, -1e-12]);
    let (field, unstable) = DepthField::from_depths(GridDims::new(2, 2), &heights);
    assert!(unstable, "a NaN cell must flip the unstable flag");
    assert_eq!(f(field.depth()[0]), 0.0, "NaN is reported as 0.0, not left as NaN");
    assert_eq!(f(field.depth()[1]), 0.5, "a healthy cell is unaffected");
    assert_eq!(f(field.depth()[3]), 0.0);
    assert!(!DepthField::from_depths(GridDims::new(1, 1), &bs(&[0.5])).1);
}

#[test]
fn discharge_conversion() {
    let q = f(discharge_to_inflow_m3s::<Ieee>(b(86.4), b(1.0)));
    assert!((q - 1.0).abs() < 1e-9);
}

#[test]
fn steps_follow_the_solver_and_end_at_the_duration() {
    let inund = inundation(6, 6, 5.0);
    let fallback = 0.4 * 10.0 / (9.81f64 * 0.1).sqrt();
    let mut run = inund.start::<Ieee>();
    // A dry start has no stable step of its own.
    assert_eq!(run.next::<Ieee>(b(f64::INFINITY)).map(f), Some(fallback));
    assert_eq!(run.next::<Ieee>(b(0.25)).map(f), Some(0.25));
    let left = 5.0 - (fallback + 0.25);
    assert_eq!(run.next::<Ieee>(b(60.0)).map(f), Some(left));
    assert!(!run.goes_on());
    assert_eq!(run.next::<Ieee>(b(1.0)), None);
    let stats = run.stats(true);
    assert_eq!((f(stats.t_reached_s), stats.steps), (5.0, 3));
    assert!(!stats.truncated && stats.unstable);
}

#[test]
fn depth_statistics_have_exact_values() {
    let dims = GridDims::new(2, 2);
    let (field, _) = DepthField::from_depths(dims, &bs(&[0.0, 0.5, 1.5, 2.0]));
    assert_eq!(f(field.max_depth()), 2.0);
    assert_eq!(f(field.mean_depth::<Ieee>()), 1.0);
    assert_eq!(f(field.inundated_fraction::<Ieee>(b(0.5))), 0.75);
    assert_eq!(field.clone().dims(), dims);
}
