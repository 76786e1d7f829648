use nowcast::arithmetic::Arithmetic;
use nowcast::binary64::Binary64;
use nowcast::explain::Driver;
use nowcast::flood::{Error as FloodError, FloodNowcast, FloodThreshold, RainflowForcing};
use nowcast::forcing::Forcing;
use nowcast::grid::{GridDims, SusceptibilityMap};
use nowcast::trigger::TriggerModel;

struct Ieee;

fn f(v: Binary64) -> f64 {
    f64::from_bits(v.to_bits())
}

fn b(v: f64) -> Binary64 {
    Binary64::from_bits(v.to_bits())
}

impl Arithmetic for Ieee {
    fn plus(x: Binary64, y: Binary64) -> Binary64 {
        b(f(x) + f(y))
    }
    fn minus(x: Binary64, y: Binary64) -> Binary64 {
        b(f(x) - f(y))
    }
    fn times(x: Binary64, y: Binary64) -> Binary64 {
        b(f(x) * f(y))
    }
    fn over(x: Binary64, y: Binary64) -> Binary64 {
        b(f(x) / f(y))
    }
    fn power(x: Binary64, y: Binary64) -> Binary64 {
        b(f(x).powf(f(y)))
    }
    fn exponential(x: Binary64) -> Binary64 {
        b(f(x).exp())
    }
    fn logarithm(x: Binary64) -> Binary64 {
        b(f(x).ln())
    }
    fn root(x: Binary64) -> Binary64 {
        b(f(x).sqrt())
    }
    fn of_count(n: u64) -> Binary64 {
        b(n as f64)
    }
    fn ceiling(x: Binary64) -> Binary64 {
        b(f(x).ceil())
    }
    fn nearest(x: Binary64) -> Binary64 {
        b(f(x).round())
    }
    fn parse(text: &[char]) -> Option<Binary64> {
        text.iter().collect::<String>().parse::<f64>().ok().map(b)
    }
    fn show(x: Binary64) -> String {
        format!("{}", f(x))
    }
    fn show_rounded(x: Binary64, decimals: usize) -> String {
        format!("{:.*}", decimals, f(x))
    }
}

fn bs(v: &[f64]) -> Vec<Binary64> {
    v.iter().map(|x| b(*x)).collect()
}

fn fs(v: &[Binary64]) -> Vec<f64> {
    v.iter().map(|x| f(*x)).collect()
}

fn susc_2cell(x: f64, y: f64) -> SusceptibilityMap {
    SusceptibilityMap::new(GridDims::new(2, 1), bs(&[x, y])).unwrap()
}

fn flood(susc: SusceptibilityMap, discharge: &[f64]) -> FloodNowcast<Ieee> {
    let threshold = FloodThreshold::new(b(20.0)).unwrap();
    FloodNowcast::new(susc, bs(discharge), threshold, TriggerModel::default()).ok().unwrap()
}

#[test]
fn quantile_threshold() {
    let series: Vec<Binary64> = (0..=100).map(|i| b(i as f64)).collect();
    let t = FloodThreshold::quantile::<Ieee>(&series, b(0.95)).unwrap();
    assert!((f(t.q_crit) - 95.0).abs() < 1e-9);
    assert!((f(t.exceedance::<Ieee>(b(190.0))) - 2.0).abs() < 1e-9);
}

#[test]
fn flood_day_alerts_low_day_quiet() {
    let nc = flood(susc_2cell(0.3, 0.9), &[1.0, 2.0, 50.0, 3.0]);

    assert!(f(nc.hazard_at(0).unwrap().max_probability()) < 0.1, "base flow is quiet");
    let peak = nc.hazard_at(2).unwrap();
    assert!(
        f(peak.max_probability()) > 0.8,
        "flood spike should approach susceptibility, got {}",
        f(peak.max_probability())
    );

    let alerts = nc.alerts(b(0.5));
    assert_eq!(alerts.len(), 1);
    assert_eq!(alerts[0].step, 2);

    assert!(nc.hazard_at(4).is_err());
}

#[test]
fn explain_decomposes_a_flood_step() {
    let nc = flood(susc_2cell(0.3, 0.9), &[10.0, 60.0]);
    let ex = nc.explain(1, 1).unwrap();
    assert!((f(ex.exceedance) - 3.0).abs() < 1e-9);
    assert!(f(ex.trigger_factor) > 0.9);
    assert!((f(ex.hazard) - f(ex.susceptibility) * f(ex.trigger_factor)).abs() < 1e-12);
    assert_eq!(ex.driver, Driver::Balanced);
    assert_eq!(nc.explain(0, 1).unwrap().driver, Driver::TerrainLimited);
    assert_eq!(nc.explain(1, 0).unwrap().driver, Driver::TriggerLimited);
    assert!(nc.explain(2, 0).is_err());
    assert!(nc.explain(0, 2).is_err());
}

#[test]
fn discharge_to_alert_counterfactual() {
    let nc = flood(susc_2cell(0.3, 0.9), &[5.0]);
    assert!(f(nc.discharge_to_alert(1, b(0.5)).unwrap().unwrap()) > 0.0);
    assert!(nc.discharge_to_alert(0, b(0.5)).unwrap().is_none());
    assert!(nc.discharge_to_alert(2, b(0.5)).is_err());
}

#[test]
fn hazard_scales_with_susceptibility() {
    let nc = flood(susc_2cell(0.2, 0.8), &[100.0]);
    let p = nc.hazard_at(0).unwrap();
    let v = fs(p.probability());
    assert!((v[1] / v[0] - 0.8 / 0.2).abs() < 1e-9);
}

#[test]
fn quantile_ignores_gaps_and_sorts() {
    let series = bs(&[9.0, f64::NAN, 1.0, f64::INFINITY, 5.0]);
    assert_eq!(f(FloodThreshold::quantile::<Ieee>(&series, b(0.5)).unwrap().q_crit), 5.0);
    assert_eq!(f(FloodThreshold::quantile::<Ieee>(&series, b(0.9)).unwrap().q_crit), 9.0);
    assert_eq!(f(FloodThreshold::quantile::<Ieee>(&series, b(0.2)).unwrap().q_crit), 1.0);
}

#[test]
fn flood_errors_name_their_cause() {
    let quantile = |series: &[f64], p: f64| {
        FloodThreshold::quantile::<Ieee>(&bs(series), b(p)).unwrap_err().message::<Ieee>()
    };
    assert_eq!(quantile(&[1.0], 1.0), "invalid value for `p`: quantile must be in (0, 1), got 1");
    assert_eq!(quantile(&[1.0], 0.0), "invalid value for `p`: quantile must be in (0, 1), got 0");
    assert_eq!(quantile(&[f64::NAN], 0.5), "invalid value for `series`: no finite discharge values");
    assert_eq!(quantile(&[0.0, 0.0], 0.5), "invalid value for `q_crit`: must be finite and > 0, got 0");
    let dims = GridDims::new(2, 1);
    assert_eq!(
        RainflowForcing::new::<Ieee>(dims, b(0.0), bs(&[1.0])).unwrap_err().message::<Ieee>(),
        "invalid value for `dt_days`: must be finite and > 0, got 0"
    );
    assert_eq!(
        RainflowForcing::new::<Ieee>(dims, b(1.0), bs(&[-1.0])).unwrap_err().message::<Ieee>(),
        "invalid value for `discharge`: values must be finite and non-negative"
    );
    assert_eq!(
        flood(susc_2cell(0.3, 0.9), &[1.0]).hazard_at(1).unwrap_err().message::<Ieee>(),
        "step index 1 is out of range (1 steps available)"
    );
    assert_eq!(FloodError::Rainflow("bad x1".to_string()).message::<Ieee>(), "rainflow engine: bad x1");
}

#[test]
fn a_hydrograph_is_a_forcing() {
    let dims = GridDims::new(2, 1);
    let forcing = RainflowForcing::new::<Ieee>(dims, b(0.5), bs(&[4.0, 8.0])).unwrap();
    assert_eq!(forcing.dims(), dims);
    assert_eq!(forcing.n_steps(), 2);
    assert_eq!(f(forcing.dt_hours()), 12.0);
    assert_eq!(f(forcing.depth_mm(1, 1)), 4.0);
    assert_eq!(fs(forcing.discharge()), vec![4.0, 8.0]);
    let nc = FloodNowcast::<Ieee>::from_rainflow(
        susc_2cell(0.3, 0.9),
        &forcing,
        FloodThreshold::new(b(8.0)).unwrap(),
        TriggerModel::default(),
    )
    .ok()
    .unwrap();
    assert_eq!(nc.n_steps(), 2);
    assert_eq!(fs(nc.hazard_at(1).unwrap().probability()), vec![0.3 * 0.5, 0.9 * 0.5]);
}

#[test]
fn flood_explanation_agrees_with_the_field() {
    let nc = flood(susc_2cell(0.3, 0.9), &[10.0, 60.0, 25.0]);
    for (t, field) in nc.run().iter().enumerate() {
        for cell in 0..2 {
            assert_eq!(nc.explain(cell, t).unwrap().hazard, field.probability()[cell]);
        }
    }
}

#[test]
fn flood_steps_do_not_influence_each_other() {
    let a = flood(susc_2cell(0.3, 0.9), &[90.0, 25.0]);
    let c = flood(susc_2cell(0.3, 0.9), &[25.0]);
    assert_eq!(a.hazard_at(1).unwrap().probability(), c.hazard_at(0).unwrap().probability());
}

#[test]
fn flood_summary_tells_the_factors() {
    let nc = flood(susc_2cell(0.3, 0.9), &[10.0, 60.0]);
    assert_eq!(
        nc.explain(0, 1).unwrap().summary::<Ieee>(),
        "celda 0 paso 1: peligro 0.30 = exposición 0.30 × caudal 1.00; Q=60.0 mm/día vs Q_c=20.0 (E=3.00); \
         limitado por la exposición (zona poco inundable)"
    );
    assert!(nc.explain(1, 0).unwrap().summary::<Ieee>().ends_with("limitado por el caudal (crecida insuficiente)"));
    assert!(nc.explain(1, 1).unwrap().summary::<Ieee>().ends_with("exposición y caudal comparables"));
}

#[test]
fn flood_alerts_check_their_level() {
    let nc = flood(susc_2cell(0.3, 0.9), &[1.0, 50.0]);
    let plain = nc.alerts(b(0.5));
    assert_eq!(nc.checked_alerts(b(0.5)).unwrap(), plain);
    assert_eq!((plain.len(), plain[0].step), (1, 1));
    for level in [f64::NAN, f64::INFINITY, -0.1, 1.5] {
        assert!(nc.checked_alerts(b(level)).is_err());
    }
    assert_eq!(
        nc.checked_alerts(b(1.5)).unwrap_err().message::<Ieee>(),
        "invalid parameter `alert_level`: must be a probability in [0, 1], got 1.5"
    );
}

#[test]
fn a_flood_level_at_the_exposure_is_out_of_reach() {
    let nc = flood(susc_2cell(0.3, 0.9), &[1.0]);
    for level in [0.3, 0.31, 1.0] {
        assert!(nc.discharge_to_alert(0, b(level)).unwrap().is_none());
    }
    for level in [0.15, 0.2, 0.29] {
        let q = nc.discharge_to_alert(0, b(level)).unwrap().unwrap();
        assert!(f(q) > 0.0);
        let back = flood(susc_2cell(0.3, 0.9), &[f(q)]);
        let p = f(back.hazard_at(0).unwrap().probability()[0]);
        assert!((p - level).abs() <= 2f64.powi(-30));
    }
}

#[test]
fn a_flood_engine_can_be_copied() {
    let nc = flood(susc_2cell(0.3, 0.9), &[1.0, 50.0]);
    let copy = nc.clone();
    assert_eq!(copy.n_steps(), 2);
    assert_eq!(copy.hazard_at(1).unwrap().probability(), nc.hazard_at(1).unwrap().probability());
}
