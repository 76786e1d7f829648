use nowcast::arithmetic::Arithmetic;
use nowcast::binary64::Binary64;
use nowcast::error::Error;
use nowcast::explain::Driver;
use nowcast::forcing::{Forcing, GriddedRain, UniformRain};
use nowcast::grid::{GridDims, SusceptibilityMap};
use nowcast::hazard::HazardField;
use nowcast::nowcast::Nowcast;
use nowcast::threshold::IdThreshold;
use nowcast::trigger::TriggerModel;

struct Ieee;

fn f(v: Binary64) -> f64 {
    f64::from_bits(v.to_bits())
}

fn b(v: f64) -> Binary64 {
    Binary64::from_bits(v.to_bits())
}

impl Arithmetic for Ieee {
    fn plus(x: Binary64, y: Binary64) -> Binary64 {
        b(f(x) + f(y))
    }
    fn minus(x: Binary64, y: Binary64) -> Binary64 {
        b(f(x) - f(y))
    }
    fn times(x: Binary64, y: Binary64) -> Binary64 {
        b(f(x) * f(y))
    }
    fn over(x: Binary64, y: Binary64) -> Binary64 {
        b(f(x) / f(y))
    }
    fn power(x: Binary64, y: Binary64) -> Binary64 {
        b(f(x).powf(f(y)))
    }
    fn exponential(x: Binary64) -> Binary64 {
        b(f(x).exp())
    }
    fn logarithm(x: Binary64) -> Binary64 {
        b(f(x).ln())
    }
    fn root(x: Binary64) -> Binary64 {
        b(f(x).sqrt())
    }
    fn of_count(n: u64) -> Binary64 {
        b(n as f64)
    }
    fn ceiling(x: Binary64) -> Binary64 {
        b(f(x).ceil())
    }
    fn nearest(x: Binary64) -> Binary64 {
        b(f(x).round())
    }
    fn parse(text: &[char]) -> Option<Binary64> {
        text.iter().collect::<String>().parse::<f64>().ok().map(b)
    }
    fn show(x: Binary64) -> String {
        format!("{}", f(x))
    }
    fn show_rounded(x: Binary64, decimals: usize) -> String {
        format!("{:.*}", decimals, f(x))
    }
}

fn bs(v: &[f64]) -> Vec<Binary64> {
    v.iter().map(|x| b(*x)).collect()
}

fn fs(v: &[Binary64]) -> Vec<f64> {
    v.iter().map(|x| f(*x)).collect()
}

fn single_cell(depths: &[f64], susc: f64) -> Nowcast<UniformRain, Ieee> {
    let dims = GridDims::new(1, 1);
    let forcing = UniformRain::new(dims, b(1.0), bs(depths)).unwrap();
    let susceptibility = SusceptibilityMap::uniform(dims, b(susc)).unwrap();
    Nowcast::new(susceptibility, forcing, IdThreshold::caine(), TriggerModel::default(), 24).ok().unwrap()
}

fn top(field: &HazardField) -> f64 {
    f(field.max_probability())
}

#[test]
fn dry_series_gives_near_zero_hazard() {
    let nc = single_cell(&[0.0; 10], 0.9);
    let fields = nc.run();
    for field in &fields {
        assert!(top(field) < 0.05, "dry step too hot: {field:?}");
    }
}

#[test]
fn heavy_burst_exceeds_threshold() {
    let nc = single_cell(&[0.0, 0.0, 40.0, 0.0], 0.8);
    let fields = nc.run();
    let peak = &fields[2];
    assert!(top(peak) > 0.7, "expected hazard near susceptibility, got {}", top(peak));
    assert!(top(&fields[3]) < top(peak));
}

#[test]
fn on_threshold_gives_half_susceptibility() {
    let crit_1h = f(IdThreshold::caine().critical_intensity::<Ieee>(b(1.0)));
    let nc = single_cell(&[crit_1h], 0.6);
    let p = top(&nc.hazard_at(0).unwrap());
    assert!((p - 0.3).abs() < 1e-6, "expected 0.5 * 0.6 = 0.3, got {p}");
}

#[test]
fn zero_susceptibility_never_alerts() {
    let nc = single_cell(&[100.0, 100.0], 0.0);
    assert!(nc.alerts(b(0.1)).unwrap().is_empty());
    assert!(nc.alerts(b(f64::NAN)).is_err());
    assert!(nc.alerts(b(1.5)).is_err());
    assert!(nc.alerts(b(-0.1)).is_err());
}

#[test]
fn alerts_start_at_burst_and_persist_via_antecedent_rain() {
    let nc = single_cell(&[0.0, 50.0, 0.0, 0.0], 0.9);
    let alerts = nc.alerts(b(0.5)).unwrap();
    let steps: Vec<usize> = alerts.iter().map(|a| a.step).collect();

    assert!(!steps.contains(&0), "no rain has fallen yet at step 0");
    assert!(steps.contains(&1), "the 50 mm burst must alert");
    assert_eq!(*steps.first().unwrap(), 1, "first alert is the burst step");
    assert!(f(alerts[0].max_probability) >= f(alerts.last().unwrap().max_probability));
    assert_eq!(alerts[0].n_cells, 1);
    assert!((f(alerts[0].fraction) - 1.0).abs() < 1e-9);
}

#[test]
fn explain_attributes_a_heavy_burst_to_terrain_cap() {
    let nc = single_cell(&[0.0, 0.0, 40.0, 0.0], 0.8);
    let ex = nc.explain(0, 2).unwrap();
    assert!(f(ex.exceedance) > 1.0, "burst should exceed the curve");
    assert!(f(ex.trigger_factor) > 0.9);
    assert!((f(ex.mean_intensity_mm_h) - 40.0).abs() < 1.0);
    assert_eq!(ex.driver, Driver::TerrainLimited);
    assert!((f(ex.hazard) - f(ex.susceptibility) * f(ex.trigger_factor)).abs() < 1e-12);
}

#[test]
fn explain_attributes_a_dry_step_to_the_trigger() {
    let nc = single_cell(&[0.0, 0.0, 0.0], 0.9);
    let ex = nc.explain(0, 1).unwrap();
    assert!(f(ex.trigger_factor) < 0.1, "no rain → weak trigger");
    assert_eq!(ex.driver, Driver::TriggerLimited);
}

#[test]
fn counterfactual_intensity_to_alert() {
    let nc = single_cell(&[0.0], 0.8);
    let i = f(nc.intensity_to_alert(0, b(0.5), b(1.0)).unwrap().unwrap());
    assert!(i > 0.0 && i.is_finite());
    let low = single_cell(&[0.0], 0.3);
    assert!(low.intensity_to_alert(0, b(0.5), b(1.0)).unwrap().is_none());
    assert!(nc.intensity_to_alert(999, b(0.5), b(1.0)).is_err());
    assert!(nc.intensity_to_alert(0, b(0.5), b(0.0)).is_err());
    assert!(nc.intensity_to_alert(0, b(0.5), b(f64::NAN)).is_err());
}

#[test]
fn explain_is_identical_cold_and_warm() {
    let mk = || single_cell(&[3.0, 12.0, 40.0, 0.0, 7.0], 0.7);
    let cold = mk();
    let cold_ex = cold.explain(0, 3).unwrap();
    let warm = mk();
    let _ = warm.run();
    let warm_ex = warm.explain(0, 3).unwrap();
    assert_eq!(cold_ex.hazard.to_bits(), warm_ex.hazard.to_bits());
    assert_eq!(cold_ex.exceedance.to_bits(), warm_ex.exceedance.to_bits());
    assert_eq!(f(cold_ex.critical_duration_h), f(warm_ex.critical_duration_h));
    assert_eq!(cold_ex.mean_intensity_mm_h.to_bits(), warm_ex.mean_intensity_mm_h.to_bits());
}

#[test]
fn explain_rejects_out_of_range_indices() {
    let nc = single_cell(&[10.0, 20.0], 0.5);
    assert!(nc.explain(0, 1).is_ok());
    assert!(nc.explain(1, 0).is_err(), "cell 1 does not exist");
    assert!(nc.explain(0, 2).is_err(), "step 2 does not exist");
}

#[test]
fn hazard_at_rejects_out_of_range_step() {
    let nc = single_cell(&[10.0, 20.0], 0.5);
    assert!(nc.hazard_at(1).is_ok());
    assert!(nc.hazard_at(2).is_err(), "step 2 does not exist");
}

#[test]
fn masked_field_carries_probability_on_the_footprint() {
    let dims = GridDims::new(2, 2);
    let field = HazardField::masked(3, dims, &[true, false, false, true], b(0.8)).unwrap();
    assert_eq!(fs(field.probability()), &[0.8, 0.0, 0.0, 0.8]);
    assert_eq!(field.step, 3);
    assert!(HazardField::masked(0, dims, &[true; 3], b(0.8)).is_err());
    assert!(HazardField::masked(0, dims, &[true; 4], b(1.2)).is_err());
    assert!(HazardField::masked(0, dims, &[true; 4], b(f64::NAN)).is_err());
}

#[test]
fn grid_mismatch_is_rejected() {
    let forcing = UniformRain::new(GridDims::new(2, 2), b(1.0), bs(&[1.0])).unwrap();
    let susc = SusceptibilityMap::uniform(GridDims::new(3, 3), b(0.5)).unwrap();
    let err = Nowcast::<UniformRain, Ieee>::new(susc, forcing, IdThreshold::caine(), TriggerModel::default(), 6);
    assert!(err.is_err());
    assert_eq!(
        err.err().unwrap().message::<Ieee>(),
        "grid mismatch: susceptibility is 3x3 but forcing is 2x2"
    );
}

#[test]
fn spatial_field_modulates_by_susceptibility() {
    let dims = GridDims::new(2, 1);
    let forcing = UniformRain::new(dims, b(1.0), bs(&[50.0])).unwrap();
    let susc = SusceptibilityMap::new(dims, bs(&[0.2, 0.9])).unwrap();
    let nc = Nowcast::<UniformRain, Ieee>::new(susc, forcing, IdThreshold::caine(), TriggerModel::default(), 6)
        .ok()
        .unwrap();
    let field = nc.hazard_at(0).unwrap();
    let p = fs(field.probability());
    assert!(p[1] > p[0], "higher susceptibility must yield higher hazard");
    assert!((p[1] / p[0] - 0.9 / 0.2).abs() < 1e-9);
}

#[test]
fn explanation_agrees_with_the_field() {
    let nc = single_cell(&[3.0, 12.0, 40.0, 0.0, 7.0], 0.7);
    let fields = nc.run();
    for (t, field) in fields.iter().enumerate() {
        let x = nc.explain(0, t).unwrap();
        assert_eq!(x.hazard, field.probability()[0]);
        assert_eq!(field.probability(), nc.hazard_at(t).unwrap().probability());
    }
}

#[test]
fn the_counterfactual_reaches_the_level() {
    let nc = single_cell(&[0.0], 0.8);
    let i = f(nc.intensity_to_alert(0, b(0.5), b(1.0)).unwrap().unwrap());
    let p = top(&single_cell(&[i], 0.8).hazard_at(0).unwrap());
    assert!((p - 0.5).abs() < 1e-9, "got {p}");
}

#[test]
fn longer_windows_dilute_a_burst() {
    // 30 mm in the first hour, then dry: at the third hour the best window has
    // 30 mm over three hours.
    let nc = single_cell(&[30.0, 0.0, 0.0], 1.0);
    let x = nc.explain(0, 2).unwrap();
    assert_eq!(f(x.critical_duration_h), 3.0);
    assert_eq!(f(x.mean_intensity_mm_h), 10.0);
    assert_eq!(f(x.critical_intensity_mm_h), 14.82 * 3.0f64.powf(-0.39));
    assert_eq!(f(x.exceedance), 10.0 / (14.82 * 3.0f64.powf(-0.39)));
}

#[test]
fn summary_tells_the_factors() {
    let nc = single_cell(&[0.0, 0.0, 40.0, 0.0], 0.8);
    assert_eq!(
        nc.explain(0, 2).unwrap().summary::<Ieee>(),
        "celda 0 paso 2: peligro 0.80 = susceptibilidad 0.80 × gatillo 1.00; ventana I–D dominante 1 h con \
         40.0 mm/h (crítica 14.8 mm/h, E=2.70); limitado por el terreno (poco susceptible)"
    );
    assert!(nc.explain(0, 0).unwrap().summary::<Ieee>().ends_with("limitado por el gatillo (lluvia insuficiente)"));
}

#[test]
fn drivers_compare_up_to_a_tolerance() {
    let driver = |s: f64, t: f64| Driver::classify::<Ieee>(b(s), b(t), b(0.15));
    assert_eq!(driver(0.5, 0.6), Driver::Balanced);
    assert_eq!(driver(0.9, 0.6), Driver::TriggerLimited);
    assert_eq!(driver(0.3, 0.6), Driver::TerrainLimited);
}

#[test]
fn curve_and_logistic_have_exact_values() {
    let curve = IdThreshold::new(b(10.0), b(0.5)).unwrap();
    assert_eq!(f(curve.critical_intensity::<Ieee>(b(4.0))), 10.0 * 4.0f64.powf(-0.5));
    assert_eq!(f(curve.exceedance::<Ieee>(b(10.0), b(4.0))), 10.0 / (10.0 * 4.0f64.powf(-0.5)));
    let model = TriggerModel::new(b(4.0)).unwrap();
    assert_eq!(f(model.factor::<Ieee>(b(1.0))), 0.5);
    assert_eq!(f(model.factor::<Ieee>(b(2.0))), 1.0 / (1.0 + (-4.0f64 * (2.0 - 1.0)).exp()));
    let e = f(model.exceedance_for_factor::<Ieee>(b(0.8)));
    assert!((f(model.factor::<Ieee>(b(e))) - 0.8).abs() < 1e-12);
    assert_eq!(TriggerModel::default().k, b(4.0));
    assert_eq!((IdThreshold::caine().a, IdThreshold::caine().b), (b(14.82), b(0.39)));
}

#[test]
fn parameter_errors_name_their_cause() {
    assert_eq!(
        IdThreshold::new(b(0.0), b(0.39)).unwrap_err().message::<Ieee>(),
        "invalid parameter `a`: I-D intercept must be finite and > 0, got 0"
    );
    assert_eq!(
        IdThreshold::new(b(1.0), b(-0.5)).unwrap_err().message::<Ieee>(),
        "invalid parameter `b`: I-D exponent must be finite and >= 0, got -0.5"
    );
    assert_eq!(
        TriggerModel::new(b(f64::NAN)).unwrap_err().message::<Ieee>(),
        "invalid parameter `k`: logistic steepness must be > 0, got NaN"
    );
    let nc = single_cell(&[1.0], 0.5);
    assert_eq!(
        nc.hazard_at(7).unwrap_err().message::<Ieee>(),
        "step index 7 is out of range (1 steps available)"
    );
    assert_eq!(
        nc.explain(3, 0).unwrap_err().message::<Ieee>(),
        "cell index 3 is out of range (1 cells available)"
    );
    assert_eq!(
        nc.alerts(b(2.0)).unwrap_err().message::<Ieee>(),
        "invalid parameter `alert_level`: must be a probability in [0, 1], got 2"
    );
    assert_eq!(
        nc.intensity_to_alert(0, b(0.5), b(-1.0)).unwrap_err().message::<Ieee>(),
        "invalid parameter `duration_h`: must be finite and > 0, got -1"
    );
    let engine = Error::Engine { engine: "firespread", reason: "no fuel".to_string() };
    assert_eq!(engine.message::<Ieee>(), "firespread engine error: no fuel");
}

#[test]
fn maps_and_fields_check_their_values() {
    let dims = GridDims::new(2, 1);
    assert_eq!(
        SusceptibilityMap::new(dims, bs(&[0.5])).unwrap_err().message::<Ieee>(),
        "grid size mismatch: expected 2 values for 2x1 grid, got 1"
    );
    assert_eq!(
        SusceptibilityMap::new(dims, bs(&[0.5, 1.5])).unwrap_err().message::<Ieee>(),
        "susceptibility value at cell 1 is 1.5, expected within [0, 1]"
    );
    assert_eq!(
        HazardField::new(0, dims, bs(&[0.5, -0.5])).unwrap_err().message::<Ieee>(),
        "invalid parameter `probability`: hazard at cell 1 is -0.5, expected within [0, 1]"
    );
    let field = HazardField::new(4, dims, bs(&[0.5, 0.25])).unwrap();
    assert_eq!((field.step_index(), field.dims()), (4, dims));
    let alert = field.alert::<Ieee>(b(0.5)).unwrap().unwrap();
    assert_eq!((alert.step, alert.n_cells, f(alert.fraction), f(alert.max_probability)), (4, 1, 0.5, 0.5));
    assert!(field.alert::<Ieee>(b(0.75)).unwrap().is_none());
    assert!(field.alert::<Ieee>(b(f64::NAN)).is_err());
    assert!(field.raised::<Ieee>(b(f64::NAN)).is_none());
    assert_eq!(field.raised::<Ieee>(b(-1.0)).unwrap().n_cells, 2);
}

#[test]
fn gauge_columns_are_read_and_checked() {
    let dims = GridDims::new(2, 2);
    let read = |text: &str| UniformRain::from_csv::<Ieee>(text, 1, dims, b(24.0));
    let rain = read("date,mm\n2000-01-01, 1.5 \n2000-01-02,\n2000-01-03,inf\n2000-01-04,2\n").unwrap();
    assert_eq!(rain.n_steps(), 2);
    assert_eq!((f(rain.depth_mm(3, 0)), f(rain.depth_mm(0, 1))), (1.5, 2.0));
    assert_eq!((rain.dims(), f(rain.dt_hours())), (dims, 24.0));
    assert_eq!(
        read("date,mm\n").unwrap_err().message::<Ieee>(),
        "failed to parse forcing series: no numeric values found in column 1"
    );
    assert_eq!(
        read("a,-1\n").unwrap_err().message::<Ieee>(),
        "invalid parameter `depths_mm`: rainfall depths must be finite and non-negative"
    );
    assert_eq!(
        UniformRain::new(dims, b(0.0), bs(&[1.0])).unwrap_err().message::<Ieee>(),
        "invalid parameter `dt_hours`: must be > 0, got 0"
    );
    assert!(UniformRain::new(dims, b(1.0), bs(&[f64::NAN])).is_err());
}

#[test]
fn gridded_rain_is_step_major() {
    let dims = GridDims::new(2, 1);
    let rain = GriddedRain::new(dims, b(6.0), bs(&[1.0, 2.0, 3.0, 4.0])).unwrap();
    assert_eq!(rain.n_steps(), 2);
    assert_eq!(f(rain.depth_mm(1, 0)), 2.0);
    assert_eq!(f(rain.depth_mm(0, 1)), 3.0);
    assert_eq!(
        GriddedRain::new(dims, b(6.0), bs(&[1.0, 2.0, 3.0])).unwrap_err().message::<Ieee>(),
        "invalid parameter `depths_mm`: 3 depths do not fill steps of 2 cells"
    );
    assert!(GriddedRain::new(GridDims::new(0, 3), b(6.0), vec![]).is_err());
}

#[test]
fn the_factor_is_one_half_on_the_curve_for_every_steepness() {
    for k in [1e-9, 0.25, 1.0, 4.0, 33.0, 1e9] {
        let model = TriggerModel::new(b(k)).unwrap();
        assert_eq!(f(model.factor::<Ieee>(b(1.0))), 0.5);
        assert!(f(model.factor::<Ieee>(b(1.5))) >= 0.5);
        assert!(f(model.factor::<Ieee>(b(0.5))) <= 0.5);
    }
}

#[test]
fn a_larger_exceedance_never_has_a_smaller_factor() {
    let model = TriggerModel::default();
    let mut last = 0.0;
    for i in 0..200 {
        let factor = f(model.factor::<Ieee>(b(i as f64 * 0.05)));
        assert!(factor >= last && factor <= 1.0);
        last = factor;
    }
}

#[test]
fn a_level_at_the_susceptibility_is_out_of_reach() {
    let nc = single_cell(&[0.0], 0.8);
    for level in [0.8, 0.81, 1.0] {
        assert!(nc.intensity_to_alert(0, b(level), b(1.0)).unwrap().is_none());
    }
    for level in [0.4, 0.5, 0.6, 0.79] {
        let i = f(nc.intensity_to_alert(0, b(level), b(1.0)).unwrap().unwrap());
        assert!(i > 0.0);
        let p = top(&single_cell(&[i], 0.8).hazard_at(0).unwrap());
        assert!((p - level).abs() <= 2f64.powi(-30));
    }
    assert!(single_cell(&[0.0], 0.0).intensity_to_alert(0, b(0.5), b(1.0)).unwrap().is_none());
}

#[test]
fn asking_again_gives_the_same_explanation() {
    let nc = single_cell(&[3.0, 25.0, 1.0], 0.7);
    let cold = nc.explain(0, 2).unwrap();
    nc.run();
    assert_eq!(cold, nc.explain(0, 2).unwrap());
}

#[test]
fn factors_lead_back_through_their_exceedances() {
    for k in [0.25, 4.0, 100.0, 1024.0] {
        let model = TriggerModel::new(b(k)).unwrap();
        for factor in [1e-150, 1e-9, 0.01, 0.3, 0.5, 0.75, 0.999, 1.0 - f64::EPSILON / 2.0] {
            let e = model.exceedance_for_factor::<Ieee>(b(factor));
            for critical in [1e-140, 0.3, 14.82, 1e140] {
                let x = b(f(e) * critical / critical);
                let back = f(model.factor::<Ieee>(x));
                assert!((back - factor).abs() <= 2f64.powi(-33), "{k} {factor} {critical}: {back}");
            }
        }
    }
}

#[test]
fn low_levels_are_reached_too() {
    let nc = single_cell(&[0.0], 0.8);
    for level in [0.05, 0.1, 0.2, 0.39, 0.7, 0.79] {
        let i = f(nc.intensity_to_alert(0, b(level), b(1.0)).unwrap().unwrap());
        let p = top(&single_cell(&[i], 0.8).hazard_at(0).unwrap());
        assert!((p - level).abs() <= 2f64.powi(-32), "{level}: {p}");
    }
}
