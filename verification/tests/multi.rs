use nowcast::arithmetic::Arithmetic;
use nowcast::binary64::Binary64;
use nowcast::forcing::{GriddedRain, UniformRain};
use nowcast::grid::{GridDims, SusceptibilityMap};
use nowcast::multi::{AntecedentTrigger, Combine, IdMapTrigger, IdTrigger, MultiNowcast, ThresholdTrigger, Trigger};
use nowcast::nowcast::Nowcast;
use nowcast::threshold::IdThreshold;
use nowcast::trigger::TriggerModel;

struct Ieee;

fn f(v: Binary64) -> f64 {
    f64::from_bits(v.to_bits())
}

fn b(v: f64) -> Binary64 {
    Binary64::from_bits(v.to_bits())
}

impl Arithmetic for Ieee {
    fn plus(x: Binary64, y: Binary64) -> Binary64 {
        b(f(x) + f(y))
    }
    fn minus(x: Binary64, y: Binary64) -> Binary64 {
        b(f(x) - f(y))
    }
    fn times(x: Binary64, y: Binary64) -> Binary64 {
        b(f(x) * f(y))
    }
    fn over(x: Binary64, y: Binary64) -> Binary64 {
        b(f(x) / f(y))
    }
    fn power(x: Binary64, y: Binary64) -> Binary64 {
        b(f(x).powf(f(y)))
    }
    fn exponential(x: Binary64) -> Binary64 {
        b(f(x).exp())
    }
    fn logarithm(x: Binary64) -> Binary64 {
        b(f(x).ln())
    }
    fn root(x: Binary64) -> Binary64 {
        b(f(x).sqrt())
    }
    fn of_count(n: u64) -> Binary64 {
        b(n as f64)
    }
    fn ceiling(x: Binary64) -> Binary64 {
        b(f(x).ceil())
    }
    fn nearest(x: Binary64) -> Binary64 {
        b(f(x).round())
    }
    fn parse(text: &[char]) -> Option<Binary64> {
        text.iter().collect::<String>().parse::<f64>().ok().map(b)
    }
    fn show(x: Binary64) -> String {
        format!("{}", f(x))
    }
    fn show_rounded(x: Binary64, decimals: usize) -> String {
        format!("{:.*}", decimals, f(x))
    }
}

fn bs(v: &[f64]) -> Vec<Binary64> {
    v.iter().map(|x| b(*x)).collect()
}

fn fs(v: &[Binary64]) -> Vec<f64> {
    v.iter().map(|x| f(*x)).collect()
}

fn series(n: usize, seed: u64, modulus: u64) -> Vec<Binary64> {
    let mut x = seed;
    let mut depths = Vec::with_capacity(n);
    for _ in 0..n {
        x = x.wrapping_mul(6364136223846793005).wrapping_add(1);
        depths.push(b(((x >> 33) % modulus) as f64));
    }
    depths
}

fn uniform(dims: GridDims, dt: f64, depths: &[f64]) -> UniformRain {
    UniformRain::new(dims, b(dt), bs(depths)).unwrap()
}

#[test]
fn combine_math() {
    let apply = |c: Combine, factors: &[f64]| f(c.apply::<Ieee>(&bs(factors)));
    assert!((apply(Combine::Max, &[0.2, 0.7, 0.5]) - 0.7).abs() < 1e-12);
    assert!((apply(Combine::Product, &[0.5, 0.5]) - 0.25).abs() < 1e-12);
    assert!((apply(Combine::NoisyOr, &[0.5, 0.5]) - 0.75).abs() < 1e-12);
}

#[test]
fn threshold_trigger_exceedance() {
    let dims = GridDims::new(1, 1);
    let t = ThresholdTrigger::<UniformRain, Ieee>::new(uniform(dims, 24.0, &[20.0]), b(10.0), TriggerModel::default())
        .ok()
        .unwrap();
    assert!(f(t.factor(0, 0)) > 0.9);
}

#[test]
fn noisy_or_fires_if_either_trigger_fires() {
    let dims = GridDims::new(1, 1);
    let rain = IdTrigger::<UniformRain, Ieee>::new(
        uniform(dims, 1.0, &[0.0]),
        IdThreshold::caine(),
        TriggerModel::default(),
        6,
    )
    .ok()
    .unwrap();
    let deform =
        ThresholdTrigger::<UniformRain, Ieee>::new(uniform(dims, 1.0, &[30.0]), b(10.0), TriggerModel::default())
            .ok()
            .unwrap();
    let susc = SusceptibilityMap::uniform(dims, b(0.9)).unwrap();
    let nc = MultiNowcast::<Ieee>::new(susc, vec![Box::new(rain), Box::new(deform)], Combine::NoisyOr)
        .ok()
        .unwrap();
    let field = nc.hazard_at(0);
    assert!(f(field.max_probability()) > 0.8, "deformation alone should fire");
    let factors = fs(&nc.trigger_factors(0, 0));
    assert!(factors[0] < 0.1, "rain trigger quiet");
    assert!(factors[1] > 0.9, "deformation trigger hot");
}

#[test]
fn id_trigger_matches_nowcast_bit_for_bit() {
    let dims = GridDims::new(3, 2);
    let n = dims.len();
    let forcing = GriddedRain::new(dims, b(6.0), series(40 * n, 7, 60)).unwrap();
    let susc =
        SusceptibilityMap::new(dims, (0..n).map(|c| b(0.1 + 0.8 * (c as f64 / n as f64))).collect()).unwrap();
    let threshold = IdThreshold::new(b(5.5), b(0.39)).unwrap();
    let model = TriggerModel::new(b(4.0)).unwrap();
    let max_window = 7;

    let batch = Nowcast::<GriddedRain, Ieee>::new(susc.clone(), forcing.clone(), threshold, model, max_window)
        .ok()
        .unwrap()
        .run();
    let trigger = IdTrigger::<GriddedRain, Ieee>::new(forcing, threshold, model, max_window).ok().unwrap();
    let multi = MultiNowcast::<Ieee>::new(susc, vec![Box::new(trigger)], Combine::Max).ok().unwrap();
    let composed = multi.run();

    assert_eq!(batch.len(), composed.len());
    for (p, m) in batch.iter().zip(&composed) {
        assert_eq!(p.step, m.step);
        for (pb, pm) in p.probability().iter().zip(m.probability()) {
            assert_eq!(pb.to_bits(), pm.to_bits(), "step {} diverged", p.step);
        }
    }
}

/// A trigger that does not keep its factors within `[0, 1]`.
struct Rogue;

impl Trigger for Rogue {
    fn dims(&self) -> GridDims {
        GridDims::new(1, 3)
    }
    fn n_steps(&self) -> usize {
        3
    }
    fn factor(&self, cell: usize, _step: usize) -> Binary64 {
        b([1.5, -0.2, f64::NAN][cell])
    }
}

#[test]
fn misbehaving_trigger_is_clamped_not_panicking() {
    let susc = SusceptibilityMap::uniform(GridDims::new(1, 3), b(1.0)).unwrap();
    let nc = MultiNowcast::<Ieee>::new(susc, vec![Box::new(Rogue)], Combine::Max).ok().unwrap();
    let field = nc.hazard_at(0);
    assert_eq!(fs(field.probability()), &[1.0, 0.0, 0.0]);
}

#[test]
fn id_map_trigger_varies_thresholds_by_cell() {
    let dims = GridDims::new(2, 1);
    let rain = GriddedRain::new(dims, b(1.0), bs(&[20.0, 20.0])).unwrap();
    let thresholds =
        vec![IdThreshold::new(b(5.0), b(0.39)).unwrap(), IdThreshold::new(b(50.0), b(0.39)).unwrap()];
    let t = IdMapTrigger::<GriddedRain, Ieee>::new(rain, thresholds, TriggerModel::default(), 6).ok().unwrap();
    assert!(f(t.factor(0, 0)) > 0.9, "20 mm/h is far above a=5");
    assert!(f(t.factor(1, 0)) < 0.1, "20 mm/h is far below a=50");
    let rain2 = GriddedRain::new(dims, b(1.0), bs(&[1.0, 1.0])).unwrap();
    assert!(IdMapTrigger::<GriddedRain, Ieee>::new(rain2, vec![IdThreshold::caine()], TriggerModel::default(), 6)
        .is_err());
}

#[test]
fn id_map_trigger_with_uniform_map_matches_id_trigger_bit_for_bit() {
    let dims = GridDims::new(3, 2);
    let n = dims.len();
    let n_steps = 30;
    let rain = GriddedRain::new(dims, b(6.0), series(n_steps * n, 13, 40)).unwrap();
    let th = IdThreshold::new(b(5.5), b(0.39)).unwrap();
    let model = TriggerModel::default();
    let single = IdTrigger::<GriddedRain, Ieee>::new(rain.clone(), th, model, 7).ok().unwrap();
    let mapped = IdMapTrigger::<GriddedRain, Ieee>::new(rain, vec![th; n], model, 7).ok().unwrap();
    for cell in 0..n {
        for step in 0..n_steps {
            assert_eq!(
                single.factor(cell, step).to_bits(),
                mapped.factor(cell, step).to_bits(),
                "cell {cell} step {step} diverged"
            );
        }
    }
}

#[test]
fn antecedent_trigger_tracks_prior_wetness_only() {
    let dims = GridDims::new(1, 1);
    let rain = uniform(dims, 24.0, &[10.0, 10.0, 10.0, 0.0, 0.0]);
    let make = |rain: UniformRain, decay: f64, crit: f64| {
        AntecedentTrigger::<UniformRain, Ieee>::new(rain, b(decay), b(crit), TriggerModel::default())
    };
    let t = make(rain, 0.5, 10.0).ok().unwrap();
    assert_eq!(f(t.api(0, 0)), 0.0);
    assert!((f(t.api(0, 1)) - 10.0).abs() < 1e-12);
    assert!((f(t.api(0, 2)) - 15.0).abs() < 1e-12);
    assert!((f(t.api(0, 3)) - 17.5).abs() < 1e-12);
    assert!((f(t.api(0, 4)) - 8.75).abs() < 1e-12);
    assert!(f(t.factor(0, 0)) < 0.05);
    assert!((f(t.factor(0, 1)) - 0.5).abs() < 1e-12);
    assert!(f(t.factor(0, 3)) > 0.5);
    let rain2 = uniform(dims, 24.0, &[1.0]);
    assert!(make(rain2.clone(), 1.0, 10.0).is_err());
    assert!(make(rain2, 0.5, 0.0).is_err());
}

#[test]
fn dual_threshold_product_suppresses_dry_antecedent_bursts() {
    let dims = GridDims::new(1, 1);
    let mk = || uniform(dims, 24.0, &[0.0, 0.0, 25.0, 0.0, 30.0, 30.0, 30.0, 25.0]);
    let id = IdTrigger::<UniformRain, Ieee>::new(
        mk(),
        IdThreshold::new(b(0.3), b(0.39)).unwrap(),
        TriggerModel::default(),
        1,
    )
    .ok()
    .unwrap();
    let wet = AntecedentTrigger::<UniformRain, Ieee>::new(mk(), b(0.8), b(40.0), TriggerModel::default())
        .ok()
        .unwrap();
    let susc = SusceptibilityMap::uniform(dims, b(1.0)).unwrap();
    let nc =
        MultiNowcast::<Ieee>::new(susc, vec![Box::new(id), Box::new(wet)], Combine::Product).ok().unwrap();

    let dry_burst = f(nc.hazard_at(2).max_probability());
    let wet_burst = f(nc.hazard_at(7).max_probability());
    assert!(dry_burst < 0.15, "dry-antecedent burst must be suppressed, got {dry_burst}");
    assert!(wet_burst > 0.5, "wet-antecedent burst must fire, got {wet_burst}");
}

#[test]
fn dims_mismatch_is_rejected() {
    let rain = ThresholdTrigger::<UniformRain, Ieee>::new(
        uniform(GridDims::new(2, 2), 1.0, &[1.0; 4]),
        b(1.0),
        TriggerModel::default(),
    )
    .ok()
    .unwrap();
    let susc = SusceptibilityMap::uniform(GridDims::new(3, 3), b(0.5)).unwrap();
    assert!(MultiNowcast::<Ieee>::new(susc, vec![Box::new(rain)], Combine::Max).is_err());
}

#[test]
fn multi_errors_name_their_cause() {
    let dims = GridDims::new(1, 1);
    let susc = || SusceptibilityMap::uniform(dims, b(0.5)).unwrap();
    let level = |depths: &[f64]| -> Box<dyn Trigger> {
        Box::new(
            ThresholdTrigger::<UniformRain, Ieee>::new(uniform(dims, 1.0, depths), b(1.0), TriggerModel::default())
                .ok()
                .unwrap(),
        )
    };
    let message = |triggers: Vec<Box<dyn Trigger>>| {
        MultiNowcast::<Ieee>::new(susc(), triggers, Combine::Max).err().unwrap().message::<Ieee>()
    };
    assert!(message(vec![]).starts_with("invalid parameter `triggers`"));
    assert_eq!(
        message(vec![level(&[1.0, 2.0]), level(&[1.0])]),
        "invalid parameter `n_steps`: triggers disagree: 1 vs 2"
    );
    let crit = ThresholdTrigger::<UniformRain, Ieee>::new(
        uniform(dims, 1.0, &[1.0]),
        b(0.0),
        TriggerModel::default(),
    );
    assert_eq!(
        crit.err().unwrap().message::<Ieee>(),
        "invalid parameter `crit`: threshold must be finite and > 0, got 0"
    );
    let id = IdTrigger::<UniformRain, Ieee>::new(
        uniform(dims, 1.0, &[1.0]),
        IdThreshold::caine(),
        TriggerModel::default(),
        0,
    );
    assert_eq!(id.err().unwrap().message::<Ieee>(), "invalid parameter `max_window_steps`: must be >= 1");
}

#[test]
fn multi_alerts_check_their_level() {
    let dims = GridDims::new(1, 1);
    let susc = SusceptibilityMap::uniform(dims, b(0.9)).unwrap();
    let level =
        ThresholdTrigger::<UniformRain, Ieee>::new(uniform(dims, 1.0, &[0.0, 5.0]), b(1.0), TriggerModel::default())
            .ok()
            .unwrap();
    let nc = MultiNowcast::<Ieee>::new(susc, vec![Box::new(level)], Combine::Max).ok().unwrap();
    assert_eq!(nc.n_steps(), 2);
    let alerts = nc.alerts(b(0.5)).unwrap();
    assert_eq!(alerts.iter().map(|a| a.step).collect::<Vec<_>>(), vec![1]);
    assert!(nc.alerts(b(f64::NAN)).is_err());
}

#[test]
fn fusions_keep_between_their_factors() {
    let factors = bs(&[0.2, 0.7, 0.0, 1.0, 0.5]);
    for n in 1..=factors.len() {
        let part = &factors[..n];
        let strongest = f(Combine::Max.apply::<Ieee>(part));
        let joint = f(Combine::Product.apply::<Ieee>(part));
        let any = f(Combine::NoisyOr.apply::<Ieee>(part));
        assert!(fs(part).iter().all(|x| *x <= strongest && joint <= *x));
        assert!(fs(part).contains(&strongest));
        assert!((0.0..=1.0).contains(&joint) && (0.0..=1.0).contains(&any));
    }
    assert_eq!(f(Combine::Max.apply::<Ieee>(&[])), 0.0);
    assert_eq!(f(Combine::Product.apply::<Ieee>(&[])), 1.0);
    assert_eq!(f(Combine::NoisyOr.apply::<Ieee>(&[])), 0.0);
}
