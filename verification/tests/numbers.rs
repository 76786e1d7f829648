use nowcast::arithmetic::Arithmetic;
use nowcast::binary64::Binary64;
use nowcast::columns::csv_column;
use nowcast::grid::GridDims;

struct Ieee;

fn f(v: Binary64) -> f64 {
    f64::from_bits(v.to_bits())
}

fn b(v: f64) -> Binary64 {
    Binary64::from_bits(v.to_bits())
}

impl Arithmetic for Ieee {
    fn plus(x: Binary64, y: Binary64) -> Binary64 {
        b(f(x) + f(y))
    }
    fn minus(x: Binary64, y: Binary64) -> Binary64 {
        b(f(x) - f(y))
    }
    fn times(x: Binary64, y: Binary64) -> Binary64 {
        b(f(x) * f(y))
    }
    fn over(x: Binary64, y: Binary64) -> Binary64 {
        b(f(x) / f(y))
    }
    fn power(x: Binary64, y: Binary64) -> Binary64 {
        b(f(x).powf(f(y)))
    }
    fn exponential(x: Binary64) -> Binary64 {
        b(f(x).exp())
    }
    fn logarithm(x: Binary64) -> Binary64 {
        b(f(x).ln())
    }
    fn root(x: Binary64) -> Binary64 {
        b(f(x).sqrt())
    }
    fn of_count(n: u64) -> Binary64 {
        b(n as f64)
    }
    fn ceiling(x: Binary64) -> Binary64 {
        b(f(x).ceil())
    }
    fn nearest(x: Binary64) -> Binary64 {
        b(f(x).round())
    }
    fn parse(text: &[char]) -> Option<Binary64> {
        text.iter().collect::<String>().parse::<f64>().ok().map(b)
    }
    fn show(x: Binary64) -> String {
        format!("{}", f(x))
    }
    fn show_rounded(x: Binary64, decimals: usize) -> String {
        format!("{:.*}", decimals, f(x))
    }
}

fn fs(v: &[Binary64]) -> Vec<f64> {
    v.iter().map(|x| f(*x)).collect()
}

#[test]
fn patterns_are_ordered_like_their_numbers() {
    let samples = [
        f64::NEG_INFINITY, -1e300, -2.5, -1.0, -1e-310, -0.0, 0.0, 5e-324, 1e-310, 0.1, 0.5, 1.0, 1.5, 2.5, 1e300,
        f64::INFINITY, f64::NAN,
    ];
    for x in samples {
        for y in samples {
            assert_eq!(b(x).below(b(y)), x < y, "{x} < {y}");
            assert_eq!(b(x).not_above(b(y)), x <= y, "{x} <= {y}");
            assert_eq!(b(x).same(b(y)), x == y, "{x} == {y}");
            let (m, n) = (f(b(x).max(b(y))), f(b(x).min(b(y))));
            assert!(m == x.max(y) || (m.is_nan() && x.max(y).is_nan()), "max of {x} and {y}");
            assert!(n == x.min(y) || (n.is_nan() && x.min(y).is_nan()), "min of {x} and {y}");
        }
        assert_eq!(b(x).is_nan(), x.is_nan());
        assert_eq!(b(x).is_finite(), x.is_finite());
        assert_eq!(b(x).in_unit_interval(), (0.0..=1.0).contains(&x));
        assert_eq!(b(x).is_positive_finite(), x.is_finite() && x > 0.0);
        assert_eq!(b(x).is_nonnegative_finite(), x.is_finite() && x >= 0.0);
        assert_eq!(b(x).abs().to_bits(), x.abs().to_bits());
        assert_eq!(b(x).negate().to_bits(), (-x).to_bits());
        let c = f(b(x).clamp(b(0.0), b(1.0)));
        assert!(c == x.clamp(0.0, 1.0) || x.is_nan() && c.is_nan(), "clamp of {x}");
    }
}

#[test]
fn counts_are_the_integer_parts() {
    for x in [0.0, 0.5, 0.999, 1.0, 1.5, 2.0, 3.99, 1e6 + 0.5, 4503599627370496.0, 9007199254740993.0, 1e18, 1e19] {
        assert_eq!(b(x).to_count(), x as u64, "{x}");
    }
    for x in [-0.5, -3.0, f64::NAN, f64::INFINITY, f64::NEG_INFINITY, 1e300] {
        assert_eq!(b(x).to_count(), x as u64, "{x}");
    }
}

#[test]
fn total_order_tells_zeros_apart() {
    assert!(b(-0.0).total_position() < b(0.0).total_position());
    assert_eq!(b(-0.0).position(), b(0.0).position());
    for (x, y) in [(-1.0, -0.5), (-5e-324, -0.0), (0.0, 5e-324), (1.0, 1.5)] {
        assert!(b(x).total_position() < b(y).total_position());
    }
}

#[test]
fn grids_are_row_major() {
    let dims = GridDims::new(3, 2);
    assert_eq!((dims.len(), dims.is_empty()), (6, false));
    assert_eq!(dims.index(2, 1), 5);
    assert_eq!(dims.index(0, 1), 3);
    assert!(GridDims::new(0, 7).is_empty());
}

#[test]
fn columns_skip_what_is_no_finite_number() {
    let text = "a,b\r\n1,2\r\n,3\n4\nNaN,5\n 6 , 7 \n";
    assert_eq!(fs(&csv_column::<Ieee>(text, 0)), vec![1.0, 4.0, 6.0]);
    assert_eq!(fs(&csv_column::<Ieee>(text, 1)), vec![2.0, 3.0, 5.0, 7.0]);
    assert!(csv_column::<Ieee>(text, 2).is_empty());
    assert!(csv_column::<Ieee>("", 0).is_empty());
}
