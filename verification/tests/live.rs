use nowcast::arithmetic::Arithmetic;
use nowcast::binary64::Binary64;
use nowcast::forcing::{GriddedRain, UniformRain};
use nowcast::grid::{GridDims, SusceptibilityMap};
use nowcast::hazard::HazardField;
use nowcast::live::{FieldSink, LiveNowcast, ReplaySource, run_live, run_live_with};
use nowcast::nowcast::Nowcast;
use nowcast::threshold::IdThreshold;
use nowcast::trigger::TriggerModel;

struct Ieee;

fn f(v: Binary64) -> f64 {
    f64::from_bits(v.to_bits())
}

fn b(v: f64) -> Binary64 {
    Binary64::from_bits(v.to_bits())
}

impl Arithmetic for Ieee {
    fn plus(x: Binary64, y: Binary64) -> Binary64 {
        b(f(x) + f(y))
    }
    fn minus(x: Binary64, y: Binary64) -> Binary64 {
        b(f(x) - f(y))
    }
    fn times(x: Binary64, y: Binary64) -> Binary64 {
        b(f(x) * f(y))
    }
    fn over(x: Binary64, y: Binary64) -> Binary64 {
        b(f(x) / f(y))
    }
    fn power(x: Binary64, y: Binary64) -> Binary64 {
        b(f(x).powf(f(y)))
    }
    fn exponential(x: Binary64) -> Binary64 {
        b(f(x).exp())
    }
    fn logarithm(x: Binary64) -> Binary64 {
        b(f(x).ln())
    }
    fn root(x: Binary64) -> Binary64 {
        b(f(x).sqrt())
    }
    fn of_count(n: u64) -> Binary64 {
        b(n as f64)
    }
    fn ceiling(x: Binary64) -> Binary64 {
        b(f(x).ceil())
    }
    fn nearest(x: Binary64) -> Binary64 {
        b(f(x).round())
    }
    fn parse(text: &[char]) -> Option<Binary64> {
        text.iter().collect::<String>().parse::<f64>().ok().map(b)
    }
    fn show(x: Binary64) -> String {
        format!("{}", f(x))
    }
    fn show_rounded(x: Binary64, decimals: usize) -> String {
        format!("{:.*}", decimals, f(x))
    }
}

fn bs(v: &[f64]) -> Vec<Binary64> {
    v.iter().map(|x| b(*x)).collect()
}

fn series(n: usize, seed: u64, modulus: u64) -> Vec<Binary64> {
    let mut x = seed;
    let mut depths = Vec::with_capacity(n);
    for _ in 0..n {
        x = x.wrapping_mul(6364136223846793005).wrapping_add(1);
        depths.push(b(((x >> 33) % modulus) as f64));
    }
    depths
}

fn ramp(dims: GridDims) -> SusceptibilityMap {
    let n = dims.len();
    SusceptibilityMap::new(dims, (0..n).map(|c| b(0.1 + 0.8 * (c as f64 / n as f64))).collect()).unwrap()
}

#[test]
fn streaming_matches_batch_bit_for_bit() {
    let dims = GridDims::new(3, 2);
    let n_steps = 40;
    let forcing = GriddedRain::new(dims, b(6.0), series(n_steps * dims.len(), 0, 60)).unwrap();
    let susc = ramp(dims);
    let threshold = IdThreshold::new(b(5.5), b(0.39)).unwrap();
    let trigger = TriggerModel::new(b(4.0)).unwrap();
    let max_window = 7;

    let batch = Nowcast::<GriddedRain, Ieee>::new(susc.clone(), forcing.clone(), threshold, trigger, max_window)
        .unwrap()
        .run();

    let mut live = LiveNowcast::<Ieee>::new(susc, threshold, trigger, max_window, b(6.0)).unwrap();
    let mut source = ReplaySource::new(forcing);
    let mut streamed = Vec::new();
    run_live(&mut live, &mut source, &mut streamed).unwrap();

    assert_eq!(batch.len(), streamed.len());
    for (p, s) in batch.iter().zip(&streamed) {
        assert_eq!(p.step, s.step);
        for (pb, ps) in p.probability().iter().zip(s.probability()) {
            assert_eq!(pb.to_bits(), ps.to_bits(), "step {} diverged", p.step);
        }
    }
}

#[test]
fn push_rejects_wrong_length() {
    let dims = GridDims::new(2, 2);
    let susc = SusceptibilityMap::uniform(dims, b(0.5)).unwrap();
    let mut live =
        LiveNowcast::<Ieee>::new(susc, IdThreshold::caine(), TriggerModel::default(), 4, b(1.0)).unwrap();
    assert!(live.push(&bs(&[1.0, 2.0])).is_err());
    assert!(live.push(&bs(&[1.0, 2.0, 3.0, 4.0])).is_ok());
    assert_eq!(live.step_index(), 1);
}

#[test]
fn push_rejects_non_finite_and_negative_depths() {
    let dims = GridDims::new(2, 1);
    let susc = SusceptibilityMap::uniform(dims, b(0.5)).unwrap();
    let mut live =
        LiveNowcast::<Ieee>::new(susc, IdThreshold::caine(), TriggerModel::default(), 4, b(1.0)).unwrap();
    assert!(live.push(&bs(&[1.0, f64::NAN])).is_err());
    assert!(live.push(&bs(&[f64::INFINITY, 1.0])).is_err());
    assert!(live.push(&bs(&[-0.5, 1.0])).is_err());
    assert_eq!(live.step_index(), 0);
    let field = live.push(&bs(&[10.0, 10.0])).unwrap();
    assert_eq!(field.step, 0);
}

#[test]
fn rejects_bad_parameters() {
    let dims = GridDims::new(1, 1);
    let susc = SusceptibilityMap::uniform(dims, b(0.5)).unwrap();
    let make = |window: usize, dt: f64| {
        LiveNowcast::<Ieee>::new(susc.clone(), IdThreshold::caine(), TriggerModel::default(), window, b(dt))
    };
    assert!(make(0, 1.0).is_err());
    assert!(make(4, 0.0).is_err());
}

#[test]
fn run_live_detects_dt_mismatch() {
    let dims = GridDims::new(1, 1);
    let susc = SusceptibilityMap::uniform(dims, b(0.5)).unwrap();
    let mut live =
        LiveNowcast::<Ieee>::new(susc, IdThreshold::caine(), TriggerModel::default(), 4, b(24.0)).unwrap();
    let forcing = UniformRain::new(dims, b(1.0), bs(&[5.0, 5.0])).unwrap();
    let mut source = ReplaySource::new(forcing);
    let mut fields = Vec::new();
    let e = run_live(&mut live, &mut source, &mut fields).unwrap_err();
    assert_eq!(
        e.message::<Ieee>(),
        "invalid parameter `dt_hours`: source step 1 h differs from engine step 24 h"
    );
    assert!(fields.is_empty());
}

#[test]
fn run_live_detects_a_grid_mismatch() {
    let susc = SusceptibilityMap::uniform(GridDims::new(1, 1), b(0.5)).unwrap();
    let mut live =
        LiveNowcast::<Ieee>::new(susc, IdThreshold::caine(), TriggerModel::default(), 4, b(1.0)).unwrap();
    let forcing = UniformRain::new(GridDims::new(2, 1), b(1.0), bs(&[5.0])).unwrap();
    let e = run_live(&mut live, &mut ReplaySource::new(forcing), &mut Vec::new()).unwrap_err();
    assert_eq!(e.message::<Ieee>(), "grid mismatch: susceptibility is 1x1 but forcing is 2x1");
}

#[test]
fn run_live_keeps_the_fields_before_a_refused_step() {
    let dims = GridDims::new(1, 1);
    let susc = SusceptibilityMap::uniform(dims, b(0.5)).unwrap();
    let mut live =
        LiveNowcast::<Ieee>::new(susc, IdThreshold::caine(), TriggerModel::default(), 4, b(1.0)).unwrap();
    let forcing = UniformRain::new(dims, b(1.0), bs(&[5.0, f64::INFINITY, 5.0])).unwrap();
    let mut fields = Vec::new();
    let e = run_live(&mut live, &mut ReplaySource::new(forcing), &mut fields).unwrap_err();
    assert_eq!(
        e.message::<Ieee>(),
        "invalid parameter `depths`: depth at cell 0 is inf at step 1; must be finite and non-negative"
    );
    assert_eq!(fields.len(), 1);
    assert_eq!(live.step_index(), 1);
}

#[test]
fn a_stream_can_be_continued_by_hand() {
    let dims = GridDims::new(1, 1);
    let make = || {
        let susc = SusceptibilityMap::uniform(dims, b(0.7)).unwrap();
        LiveNowcast::<Ieee>::new(susc, IdThreshold::caine(), TriggerModel::default(), 3, b(1.0)).unwrap()
    };
    let depths = [3.0, 12.0, 40.0, 0.0, 7.0];
    let mut whole = Vec::new();
    let rain = UniformRain::new(dims, b(1.0), bs(&depths)).unwrap();
    run_live(&mut make(), &mut ReplaySource::new(rain), &mut whole).unwrap();
    let mut live = make();
    for (t, d) in depths.iter().enumerate() {
        let field = live.push(&[b(*d)]).unwrap();
        assert_eq!(field.probability(), whole[t].probability());
    }
    assert_eq!(live.step_index(), 5);
    assert_eq!(live.dims(), dims);
    assert_eq!(f(live.dt_hours()), 1.0);
}

#[test]
fn a_refused_step_leaves_no_trace() {
    let dims = GridDims::new(2, 1);
    let make = || {
        let susc = SusceptibilityMap::uniform(dims, b(0.5)).unwrap();
        LiveNowcast::<Ieee>::new(susc, IdThreshold::caine(), TriggerModel::default(), 4, b(1.0)).unwrap()
    };
    let (mut clean, mut tried) = (make(), make());
    for t in 0..8 {
        let depths = bs(&[t as f64, 20.0 - t as f64]);
        assert!(tried.push(&bs(&[1.0, f64::NAN])).is_err());
        assert!(tried.push(&bs(&[f64::INFINITY, 1.0])).is_err());
        assert!(tried.push(&bs(&[1.0])).is_err());
        assert!(tried.push(&bs(&[3.0, -0.5])).is_err());
        assert_eq!(tried.step_index(), t);
        let (p, q) = (clean.push(&depths).unwrap(), tried.push(&depths).unwrap());
        assert_eq!(p.probability(), q.probability());
    }
}

/// Keeps the highest hazard of every step.
struct Peaks(Vec<f64>);

impl FieldSink for Peaks {
    fn on_step(&mut self, field: HazardField) {
        self.0.push(f(field.max_probability()));
    }
}

#[test]
fn a_sink_takes_every_field_as_it_comes() {
    let dims = GridDims::new(2, 1);
    let make = || {
        let susc = SusceptibilityMap::uniform(dims, b(0.7)).unwrap();
        LiveNowcast::<Ieee>::new(susc, IdThreshold::caine(), TriggerModel::default(), 3, b(1.0)).unwrap()
    };
    let rain = || UniformRain::new(dims, b(1.0), bs(&[3.0, 12.0, 40.0, 0.0])).unwrap();
    let mut fields = Vec::new();
    run_live(&mut make(), &mut ReplaySource::new(rain()), &mut fields).unwrap();
    let mut peaks = Peaks(vec![9.0]);
    run_live_with(&mut make(), &mut ReplaySource::new(rain()), &mut peaks).unwrap();
    let expected: Vec<f64> =
        std::iter::once(9.0).chain(fields.iter().map(|x| f(x.max_probability()))).collect();
    assert_eq!(peaks.0, expected);
    assert_eq!(peaks.0.len(), 5);
    // A refused step ends the stream behind the fields before it.
    let bad = UniformRain::new(dims, b(1.0), bs(&[3.0, f64::INFINITY])).unwrap();
    let mut few = Peaks(Vec::new());
    assert!(run_live_with(&mut make(), &mut ReplaySource::new(bad), &mut few).is_err());
    assert_eq!(few.0, expected[1..2]);
}
