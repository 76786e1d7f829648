use nowcast::arithmetic::Arithmetic;
use nowcast::binary64::Binary64;
use nowcast::calibrate::Calibrator;
use nowcast::columns::csv_pairs;
use nowcast::error::Error;
use nowcast::reliability::{brier_score, reliability};

struct Ieee;

fn f(v: Binary64) -> f64 {
    f64::from_bits(v.to_bits())
}

fn b(v: f64) -> Binary64 {
    Binary64::from_bits(v.to_bits())
}

impl Arithmetic for Ieee {
    fn plus(x: Binary64, y: Binary64) -> Binary64 {
        b(f(x) + f(y))
    }
    fn minus(x: Binary64, y: Binary64) -> Binary64 {
        b(f(x) - f(y))
    }
    fn times(x: Binary64, y: Binary64) -> Binary64 {
        b(f(x) * f(y))
    }
    fn over(x: Binary64, y: Binary64) -> Binary64 {
        b(f(x) / f(y))
    }
    fn power(x: Binary64, y: Binary64) -> Binary64 {
        b(f(x).powf(f(y)))
    }
    fn exponential(x: Binary64) -> Binary64 {
        b(f(x).exp())
    }
    fn logarithm(x: Binary64) -> Binary64 {
        b(f(x).ln())
    }
    fn root(x: Binary64) -> Binary64 {
        b(f(x).sqrt())
    }
    fn of_count(n: u64) -> Binary64 {
        b(n as f64)
    }
    fn ceiling(x: Binary64) -> Binary64 {
        b(f(x).ceil())
    }
    fn nearest(x: Binary64) -> Binary64 {
        b(f(x).round())
    }
    fn parse(text: &[char]) -> Option<Binary64> {
        text.iter().collect::<String>().parse::<f64>().ok().map(b)
    }
    fn show(x: Binary64) -> String {
        format!("{}", f(x))
    }
    fn show_rounded(x: Binary64, decimals: usize) -> String {
        format!("{:.*}", decimals, f(x))
    }
}

fn bs(v: &[f64]) -> Vec<Binary64> {
    v.iter().map(|x| b(*x)).collect()
}

fn fs(v: &[Binary64]) -> Vec<f64> {
    v.iter().map(|x| f(*x)).collect()
}

/// Deterministic generator, uniform in `[0, 1)`.
struct Lcg(u64);

impl Lcg {
    fn unit(&mut self) -> f64 {
        self.0 = self.0.wrapping_mul(6364136223846793005).wrapping_add(1442695040888963407);
        (self.0 >> 11) as f64 / (1u64 << 53) as f64
    }
}

fn fit(scores: &[f64], outcomes: &[bool]) -> Result<Calibrator, Error> {
    Calibrator::fit_isotonic::<Ieee>(&bs(scores), outcomes)
}

fn prob(cal: &Calibrator, score: f64) -> f64 {
    f(cal.probability::<Ieee>(b(score)).unwrap())
}

fn brier(preds: &[f64], outcomes: &[bool]) -> Result<f64, Error> {
    brier_score::<Ieee>(&bs(preds), outcomes).map(f)
}

#[test]
fn isotonic_is_monotone_and_recovers_a_step() {
    let mut rng = Lcg(1);
    let (mut scores, mut outcomes) = (Vec::new(), Vec::new());
    for _ in 0..4000 {
        let s = rng.unit();
        scores.push(s);
        outcomes.push(s > 0.5);
    }
    let cal = fit(&scores, &outcomes).unwrap();
    let grid: Vec<f64> = (0..=20).map(|i| i as f64 / 20.0).collect();
    let probs = fs(&cal.calibrate::<Ieee>(&bs(&grid)).unwrap());
    for w in probs.windows(2) {
        assert!(w[1] >= w[0] - 1e-9, "calibrator must be monotone");
    }
    assert!(prob(&cal, 0.2) < 0.1, "low scores → low prob");
    assert!(prob(&cal, 0.8) > 0.9, "high scores → high prob");
}

#[test]
fn calibration_improves_brier_on_miscalibrated_scores() {
    let mut rng = Lcg(7);
    let (mut raw, mut outcomes) = (Vec::new(), Vec::new());
    for _ in 0..8000 {
        let s = rng.unit();
        raw.push(s * s);
        outcomes.push(rng.unit() < s);
    }
    let before = brier(&raw, &outcomes).unwrap();
    let cal = fit(&raw, &outcomes).unwrap();
    let mapped = fs(&cal.calibrate::<Ieee>(&bs(&raw)).unwrap());
    let after = brier(&mapped, &outcomes).unwrap();
    assert!(after <= before + 1e-12, "calibration should not worsen Brier");
    assert!(after < before, "calibration should improve a miscalibrated model");
}

#[test]
fn reliability_wilson_and_ece_are_sane() {
    let mut rng = Lcg(3);
    let (mut preds, mut outcomes) = (Vec::new(), Vec::new());
    for _ in 0..20000 {
        let p = rng.unit();
        preds.push(p);
        outcomes.push(rng.unit() < p);
    }
    let r = reliability::<Ieee>(&bs(&preds), &outcomes, 10).unwrap();
    assert!(f(r.ece) < 0.05, "well-calibrated predictions have small ECE, got {}", f(r.ece));
    for bin in &r.bins {
        assert!(f(bin.ci_low) <= f(bin.p_obs) && f(bin.p_obs) <= f(bin.ci_high));
        assert!(f(bin.ci_low) >= 0.0 && f(bin.ci_high) <= 1.0);
    }
    assert!(f(r.brier_skill) > 0.0, "skill {} should beat climatology", f(r.brier_skill));
}

#[test]
fn rejects_bad_input() {
    assert!(fit(&[0.1], &[true, false]).is_err());
    assert!(fit(&[], &[]).is_err());
    assert!(reliability::<Ieee>(&bs(&[0.5]), &[true], 0).is_err());
    assert!(brier(&[0.5, 0.5], &[true]).is_err());
    assert!(brier(&[], &[]).is_err());
    assert!((brier(&[1.0], &[true]).unwrap()).abs() < 1e-12);
}

#[test]
fn rejects_non_finite_input() {
    assert!(fit(&[0.1, f64::NAN], &[true, false]).is_err());
    assert!(fit(&[0.1, f64::INFINITY], &[true, false]).is_err());
    assert!(brier(&[0.5, f64::NAN], &[true, false]).is_err());
    assert!(reliability::<Ieee>(&bs(&[0.5, f64::NAN]), &[true, false], 5).is_err());
}

#[test]
fn probability_metrics_reject_out_of_range_predictions() {
    assert!(brier(&[0.5, 1.5], &[true, false]).is_err());
    assert!(brier(&[-0.1], &[true]).is_err());
    assert!(reliability::<Ieee>(&bs(&[0.5, 1.5]), &[true, false], 5).is_err());
    assert!(brier(&[0.0, 1.0], &[false, true]).is_ok());
    assert!(reliability::<Ieee>(&bs(&[0.0, 1.0]), &[false, true], 5).is_ok());
}

#[test]
fn tied_scores_get_one_pooled_value_invariant_to_input_order() {
    let a = fit(&[0.5, 0.5], &[false, true]).unwrap();
    let c = fit(&[0.5, 0.5], &[true, false]).unwrap();
    assert_eq!(prob(&a, 0.5), 0.5);
    assert_eq!(prob(&c, 0.5), 0.5);

    let scores = [0.1, 0.5, 0.5, 0.5, 0.5, 0.9];
    let outcomes = [false, false, false, true, true, true];
    let cal = fit(&scores, &outcomes).unwrap();
    assert_eq!(prob(&cal, 0.5), 0.5);
    let scores_sh = [0.5, 0.9, 0.5, 0.1, 0.5, 0.5];
    let outcomes_sh = [true, true, false, false, true, false];
    let cal_sh = fit(&scores_sh, &outcomes_sh).unwrap();
    for s in [0.0, 0.1, 0.3, 0.5, 0.7, 0.9, 1.0] {
        assert_eq!(prob(&cal, s), prob(&cal_sh, s));
    }
}

#[test]
fn probability_rejects_non_finite_scores_instead_of_panicking() {
    let cal = fit(&[0.1, 0.5, 0.9], &[false, true, true]).unwrap();
    assert!(cal.probability::<Ieee>(b(f64::NAN)).is_err());
    assert!(cal.probability::<Ieee>(b(f64::INFINITY)).is_err());
    assert!(cal.calibrate::<Ieee>(&bs(&[0.5, f64::NAN])).is_err());
    assert!(cal.probability::<Ieee>(b(0.5)).is_ok());
    assert_eq!(prob(&cal, -10.0), prob(&cal, 0.0));
}

#[test]
fn csv_pairs_refuses_crossed_parse_failures() {
    let clean = "score,outcome\n0.9,1\n0.1,0\n";
    assert_eq!(csv_pairs::<Ieee>(clean, 0, 1).unwrap(), vec![(b(0.9), b(1.0)), (b(0.1), b(0.0))]);
    let crossed = "score,outcome\n0.90,abc\nxyz,1\n0.10,0\n";
    let e = csv_pairs::<Ieee>(crossed, 0, 1).unwrap_err().message::<Ieee>();
    assert!(e.contains("line 2"), "should point at the first bad line: {e}");
    assert!(csv_pairs::<Ieee>("NaN,1\n", 0, 1).is_err());
    assert!(csv_pairs::<Ieee>("0.5\n", 0, 1).is_err());
}

#[test]
fn validate_catches_a_corrupted_or_hand_edited_calibrator() {
    let good = Calibrator { xs: bs(&[0.1, 0.5, 0.9]), ys: bs(&[0.0, 0.5, 1.0]) };
    assert!(good.validate().is_ok());
    assert!(Calibrator { xs: vec![], ys: vec![] }.validate().is_err());
    assert!(Calibrator { xs: bs(&[0.1, 0.5]), ys: bs(&[0.0]) }.validate().is_err());
    assert!(Calibrator { xs: bs(&[0.1, 0.9]), ys: bs(&[1.5, 2.0]) }.validate().is_err());
    assert!(Calibrator { xs: bs(&[0.1, f64::NAN]), ys: bs(&[0.0, 1.0]) }.validate().is_err());
    assert!(Calibrator { xs: bs(&[0.1, 0.9]), ys: bs(&[0.8, 0.2]) }.validate().is_err());
    assert!(Calibrator { xs: bs(&[0.9, 0.1]), ys: bs(&[0.2, 0.8]) }.validate().is_err());
}

#[test]
fn violators_are_pooled_into_one_block() {
    // 0.2 → 1 and 0.4 → 0 violate the order and share the mean of both.
    let cal = fit(&[0.1, 0.2, 0.4, 0.8], &[false, true, false, true]).unwrap();
    assert_eq!(fs(&cal.ys), vec![0.0, 0.5, 1.0]);
    assert_eq!(fs(&cal.xs), vec![0.1, (0.2 + 0.4) / 2.0, 0.8]);
}

#[test]
fn probability_interpolates_between_blocks() {
    let cal = Calibrator { xs: bs(&[0.0, 1.0]), ys: bs(&[0.2, 0.6]) };
    assert_eq!(prob(&cal, 0.25), 0.2 + (0.6 - 0.2) * 0.25 / 1.0);
    assert_eq!(prob(&cal, 1.0), 0.6);
    assert_eq!(prob(&cal, 7.0), 0.6);
    assert_eq!(prob(&cal, -7.0), 0.2);
}

#[test]
fn brier_and_skill_have_exact_values() {
    let (preds, outcomes) = ([0.5, 0.25], [true, false]);
    assert_eq!(brier(&preds, &outcomes).unwrap(), (0.25 + 0.0625) / 2.0);
    let r = reliability::<Ieee>(&bs(&preds), &outcomes, 2).unwrap();
    assert_eq!(f(r.base_rate), 0.5);
    assert_eq!(f(r.brier_skill), 1.0 - (0.3125 / 2.0) / 0.25);
    // 0.25 lies in the lower bin, 0.5 in the upper one.
    assert_eq!(r.bins.len(), 2);
    assert_eq!((f(r.bins[0].p_pred_mean), f(r.bins[0].p_obs), r.bins[0].n), (0.25, 0.0, 1));
    assert_eq!((f(r.bins[1].p_pred_mean), f(r.bins[1].p_obs), r.bins[1].n), (0.5, 1.0, 1));
    assert_eq!(f(r.ece), 0.5 * 0.25 + 0.5 * 0.5);
}

#[test]
fn skill_of_a_single_class_is_not_a_number() {
    let r = reliability::<Ieee>(&bs(&[0.5, 0.7]), &[true, true], 4).unwrap();
    assert!(f(r.brier_skill).is_nan());
}

#[test]
fn calibrator_errors_name_their_cause() {
    let message = |r: Result<Calibrator, Error>| r.unwrap_err().message::<Ieee>();
    assert_eq!(
        message(fit(&[0.1], &[true, false])),
        "invalid parameter `outcomes`: 1 scores but 2 outcomes"
    );
    assert_eq!(
        message(fit(&[], &[])),
        "invalid parameter `scores`: need at least one (score, outcome) pair"
    );
    assert_eq!(
        message(fit(&[f64::NAN], &[true])),
        "invalid parameter `scores`: must all be finite"
    );
    assert_eq!(
        brier_score::<Ieee>(&bs(&[1.5]), &[true]).unwrap_err().message::<Ieee>(),
        "invalid parameter `preds`: must all be probabilities in [0, 1], got 1.5"
    );
}

#[test]
fn fitted_maps_are_valid_and_monotone() {
    let scores: Vec<f64> = (0..60).map(|i| ((i * 37) % 60) as f64 / 60.0).collect();
    let outcomes: Vec<bool> = (0..60).map(|i| (i * i) % 7 < 1 + ((i * 37) % 60) / 12).collect();
    let cal = fit(&scores, &outcomes).unwrap();
    assert!(cal.validate().is_ok());
    let mut last = 0.0;
    for i in 0..=120 {
        let p = prob(&cal, i as f64 / 100.0 - 0.1);
        assert!((last..=1.0).contains(&p));
        last = p;
    }
}

#[test]
fn close_scores_can_swap_their_means() {
    // Rounding moves the mean of nine samples up, that of seventeen at the next
    // value down.
    let (x, y) = (0.49543508709194095, 0.495435087091941);
    let mut scores = vec![x; 9];
    scores.extend([y; 17]);
    let outcomes: Vec<bool> = (0..26).map(|i| i >= 9).collect();
    let cal = fit(&scores, &outcomes).unwrap();
    assert_eq!(fs(&cal.xs), [y, x]);
    assert_eq!(fs(&cal.ys), [0.0, 1.0]);
    assert!(cal.validate().is_err());
    // Means of large scores overflow.
    let huge = fit(&[1e308, 1e308], &[true, false]).unwrap();
    assert_eq!(fs(&huge.ys), [0.5]);
    assert!(huge.validate().is_err());
    // Scores that are spread out give a valid map.
    assert!(fit(&[0.1, 0.1, 0.1, 0.2], &[false, true, false, true]).unwrap().validate().is_ok());
}

#[test]
fn maps_pass_through_their_points() {
    let cal = fit(&[0.1, 0.2, 0.4, 0.8], &[false, true, false, true]).unwrap();
    for (x, y) in fs(&cal.xs).iter().zip(fs(&cal.ys)) {
        assert_eq!(prob(&cal, *x), y);
    }
    let reordered = fit(&[0.8, 0.2, 0.1, 0.4], &[true, true, false, false]).unwrap();
    for i in 0..100 {
        let s = i as f64 / 100.0;
        assert_eq!(prob(&cal, s), prob(&reordered, s));
        assert!(prob(&cal, s) <= prob(&cal, s + 0.01) + 2f64.powi(-48));
    }
}

#[test]
fn scores_of_either_sign_give_a_valid_map() {
    let scores: Vec<f64> = (0..40).map(|i| ((i * 23) % 40) as f64 - 25.0).collect();
    let outcomes: Vec<bool> = (0..40).map(|i| (i * i) % 5 < 1 + ((i * 23) % 40) / 9).collect();
    let cal = fit(&scores, &outcomes).unwrap();
    assert!(cal.validate().is_ok());
    assert!(fs(&cal.xs).windows(2).all(|w| w[0] < w[1]));
    assert!(f(cal.xs[0]) < 0.0 && f(cal.xs[cal.xs.len() - 1]) > 0.0);
    let mut last = 0.0;
    for i in -30..20 {
        let p = prob(&cal, i as f64);
        assert!((last..=1.0).contains(&p));
        last = p;
    }
    // Two blocks on either side of zero: the means of -3, -1 and of 2, 4, 6.
    let cal = fit(&[-3.0, -1.0, 2.0, 4.0, 6.0], &[true, false, true, true, false]).unwrap();
    assert_eq!(fs(&cal.xs), [-2.0, 4.0]);
    assert_eq!(fs(&cal.ys), [0.5, 2.0 / 3.0]);
    assert!(cal.validate().is_ok());
    assert!(fit(&[-1e280, 1e280], &[false, true]).unwrap().validate().is_ok());
}
