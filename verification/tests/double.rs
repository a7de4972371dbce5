//! Measured values against the numbers that they stand for.

use etherwhere::double::Double;
use etherwhere::ranking::rank;

fn double(value: f64) -> Double {
    Double { bits: value.to_bits() }
}

fn values() -> Vec<f64> {
    vec![
        0.0,
        -0.0,
        1.0,
        -1.0,
        1.5,
        0.05,
        -0.05,
        1e300,
        -1e300,
        f64::MIN_POSITIVE,
        f64::from_bits(1),
        -f64::from_bits(1),
        f64::EPSILON,
        f64::INFINITY,
        f64::NEG_INFINITY,
        f64::NAN,
        -f64::NAN,
    ]
}

#[test]
fn orders_as_the_numbers_do() {
    for a in values() {
        assert_eq!(double(a).is_nan(), a.is_nan());
        assert_eq!(double(a).is_finite(), a.is_finite());
        assert_eq!(double(a).abs().bits, a.abs().to_bits());
        assert_eq!(double(a).neg().bits, (-a).to_bits());
        for b in values() {
            assert_eq!(double(a).is_below(&double(b)), a < b, "{} {}", a, b);
            assert_eq!(double(a).is_at_most(&double(b)), a <= b, "{} {}", a, b);
            assert_eq!(double(a).is_equal(&double(b)), a == b, "{} {}", a, b);
            assert_eq!(
                double(a).is_after(&double(b)),
                a.total_cmp(&b).is_gt(),
                "{} {}",
                a,
                b
            );
        }
    }
}

#[test]
fn chooses_as_the_numbers_do() {
    for a in values() {
        for b in values() {
            let least = f64::from_bits(double(a).min(double(b)).bits);
            let most = f64::from_bits(double(a).max(double(b)).bits);
            if a.is_nan() && b.is_nan() {
                assert!(least.is_nan() && most.is_nan());
            } else {
                assert_eq!(least, a.min(b), "{} {}", a, b);
                assert_eq!(most, a.max(b), "{} {}", a, b);
            }
        }
        let clamped = f64::from_bits(double(a).clamp(double(-1.0), double(1.5)).bits);
        if a.is_nan() {
            assert!(clamped.is_nan());
        } else {
            assert_eq!(clamped, a.clamp(-1.0, 1.5));
        }
    }
}

#[test]
fn ranking_is_stable() {
    let items: Vec<(usize, Double)> = [3.0, 1.0, 2.0, 1.0, -0.0, 0.0, 3.0]
        .iter()
        .enumerate()
        .map(|(index, value)| (index, double(*value)))
        .collect();
    let order: Vec<usize> = rank(&items).iter().map(|item| item.0).collect();
    assert_eq!(order, vec![4, 5, 1, 3, 2, 0, 6]);
    assert!(rank(&vec![]).is_empty());
}
