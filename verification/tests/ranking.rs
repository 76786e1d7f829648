use nowcast::arithmetic::Arithmetic;
use nowcast::binary64::Binary64;
use nowcast::error::Error;
use nowcast::ranking::{pod_at_area, pr_auc, roc_auc};

struct Ieee;

fn f(v: Binary64) -> f64 {
    f64::from_bits(v.to_bits())
}

fn b(v: f64) -> Binary64 {
    Binary64::from_bits(v.to_bits())
}

impl Arithmetic for Ieee {
    fn plus(x: Binary64, y: Binary64) -> Binary64 {
        b(f(x) + f(y))
    }
    fn minus(x: Binary64, y: Binary64) -> Binary64 {
        b(f(x) - f(y))
    }
    fn times(x: Binary64, y: Binary64) -> Binary64 {
        b(f(x) * f(y))
    }
    fn over(x: Binary64, y: Binary64) -> Binary64 {
        b(f(x) / f(y))
    }
    fn power(x: Binary64, y: Binary64) -> Binary64 {
        b(f(x).powf(f(y)))
    }
    fn exponential(x: Binary64) -> Binary64 {
        b(f(x).exp())
    }
    fn logarithm(x: Binary64) -> Binary64 {
        b(f(x).ln())
    }
    fn root(x: Binary64) -> Binary64 {
        b(f(x).sqrt())
    }
    fn of_count(n: u64) -> Binary64 {
        b(n as f64)
    }
    fn ceiling(x: Binary64) -> Binary64 {
        b(f(x).ceil())
    }
    fn nearest(x: Binary64) -> Binary64 {
        b(f(x).round())
    }
    fn parse(text: &[char]) -> Option<Binary64> {
        text.iter().collect::<String>().parse::<f64>().ok().map(b)
    }
    fn show(x: Binary64) -> String {
        format!("{}", f(x))
    }
    fn show_rounded(x: Binary64, decimals: usize) -> String {
        format!("{:.*}", decimals, f(x))
    }
}

fn bs(v: &[f64]) -> Vec<Binary64> {
    v.iter().map(|x| b(*x)).collect()
}

#[test]
fn roc_auc_ranks_positives_above_negatives() {
    let scores = bs(&[0.1, 0.2, 0.8, 0.9]);
    let labels = vec![false, false, true, true];
    assert_eq!(roc_auc::<Ieee>(&scores, &labels).unwrap().map(f), Some(1.0));
    let labels_rev = vec![true, true, false, false];
    assert_eq!(roc_auc::<Ieee>(&scores, &labels_rev).unwrap().map(f), Some(0.0));
    assert!(roc_auc::<Ieee>(&scores, &[true, true, true, true]).unwrap().is_none());
    let flat = bs(&[0.5, 0.5, 0.5, 0.5]);
    assert_eq!(roc_auc::<Ieee>(&flat, &labels).unwrap().map(f), Some(0.5));
    assert!(roc_auc::<Ieee>(&scores, &[true, false]).is_err());
}

#[test]
fn pr_auc_behaves_at_the_extremes() {
    let scores = bs(&[0.1, 0.2, 0.8, 0.9]);
    assert_eq!(pr_auc::<Ieee>(&scores, &[false, false, true, true]).unwrap().map(f), Some(1.0));
    assert!(pr_auc::<Ieee>(&scores, &[false; 4]).unwrap().is_none());
    let flat = bs(&[0.5; 4]);
    let ap = f(pr_auc::<Ieee>(&flat, &[true, false, false, false]).unwrap().unwrap());
    assert!((ap - 0.25).abs() < 1e-12, "tied scores → base rate, got {ap}");
    let ap_rev = f(pr_auc::<Ieee>(&scores, &[true, true, false, false]).unwrap().unwrap());
    assert!(ap_rev < 0.6, "reversed ranking should score poorly, got {ap_rev}");
    let many_neg: Vec<Binary64> = (0..100).map(|i| b(i as f64)).collect();
    let mut labels = vec![false; 100];
    labels[98] = true;
    let ap_rare = f(pr_auc::<Ieee>(&many_neg, &labels).unwrap().unwrap());
    assert!((ap_rare - 0.5).abs() < 1e-12);
    assert!(f(roc_auc::<Ieee>(&many_neg, &labels).unwrap().unwrap()) > 0.98, "ROC barely notices");
    assert!(pr_auc::<Ieee>(&scores, &[true, false]).is_err());
}

#[test]
fn pod_at_area_catches_top_ranked_events() {
    let scores = bs(&[0.9, 0.1, 0.2, 0.8, 0.3, 0.4, 0.5, 0.6, 0.7, 0.05]);
    let mut labels = vec![false; 10];
    labels[0] = true;
    labels[3] = true;
    let pod = |area: f64, labels: &[bool]| pod_at_area::<Ieee>(&scores, labels, b(area));
    assert_eq!(pod(0.2, &labels).unwrap().map(f), Some(1.0));
    assert_eq!(pod(0.1, &labels).unwrap().map(f), Some(0.5));
    assert!(pod(0.0, &labels).unwrap().is_none());
    assert!(pod(0.5, &[false; 10]).unwrap().is_none());
    assert!(pod(0.5, &[true, false]).is_err());
}

#[test]
fn area_counts_pairs() {
    // Positives 0.4 and 0.8 against negatives 0.2, 0.4 and 0.6: four pairs won,
    // one tied, of six.
    let scores = bs(&[0.4, 0.8, 0.2, 0.4, 0.6]);
    let labels = [true, true, false, false, false];
    assert_eq!(roc_auc::<Ieee>(&scores, &labels).unwrap().map(f), Some(4.5 / 6.0));
}

#[test]
fn a_larger_area_catches_no_less() {
    let scores = bs(&[0.3, 0.9, 0.1, 0.7, 0.5]);
    let labels = [true, false, true, true, false];
    let mut last = 0.0;
    for tenth in 1..=10 {
        let pod = f(pod_at_area::<Ieee>(&scores, &labels, b(tenth as f64 / 10.0)).unwrap().unwrap());
        assert!(pod >= last);
        last = pod;
    }
    assert_eq!(last, 1.0);
}

#[test]
fn unaligned_scores_are_named() {
    let e: Error = roc_auc::<Ieee>(&bs(&[0.5]), &[true, false]).unwrap_err();
    assert_eq!(e.message::<Ieee>(), "invalid parameter `labels`: 1 scores but 2 labels");
}
