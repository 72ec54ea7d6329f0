use std::cmp::Ordering;

use decision_tree_builder::{DecisionEval, GainRatio};

fn eval(gain_ratio: f64, max_branch_width: usize) -> DecisionEval {
    DecisionEval { gain_ratio: GainRatio::from_bits(gain_ratio.to_bits()), max_branch_width }
}

#[test]
fn decision_eval_test_enum() {
    let a = eval(3.0, 1);
    let b = eval(2.0, 1);
    let c = eval(2.0, 2);
    let d = eval(3.0, 2);
    let e = eval(f64::NAN, 1);
    let f = eval(f64::NAN, 2);

    assert_eq!(a.compare(&a), Ordering::Equal);
    assert_eq!(a.compare(&b), Ordering::Greater);
    assert_eq!(a.compare(&c), Ordering::Greater);
    assert_eq!(a.compare(&d), Ordering::Greater);
    assert_eq!(a.compare(&e), Ordering::Greater);
    assert_eq!(a.compare(&f), Ordering::Greater);

    assert_eq!(b.compare(&a), Ordering::Less);
    assert_eq!(b.compare(&b), Ordering::Equal);
    assert_eq!(b.compare(&c), Ordering::Greater);
    assert_eq!(b.compare(&d), Ordering::Less);
    assert_eq!(b.compare(&e), Ordering::Greater);
    assert_eq!(b.compare(&f), Ordering::Greater);

    assert_eq!(c.compare(&a), Ordering::Less);
    assert_eq!(c.compare(&b), Ordering::Less);
    assert_eq!(c.compare(&c), Ordering::Equal);
    assert_eq!(c.compare(&d), Ordering::Less);
    assert_eq!(c.compare(&e), Ordering::Greater);
    assert_eq!(c.compare(&f), Ordering::Greater);

    assert_eq!(d.compare(&a), Ordering::Less);
    assert_eq!(d.compare(&b), Ordering::Greater);
    assert_eq!(d.compare(&c), Ordering::Greater);
    assert_eq!(d.compare(&d), Ordering::Equal);
    assert_eq!(d.compare(&e), Ordering::Greater);
    assert_eq!(d.compare(&f), Ordering::Greater);

    assert_eq!(e.compare(&a), Ordering::Less);
    assert_eq!(e.compare(&b), Ordering::Less);
    assert_eq!(e.compare(&c), Ordering::Less);
    assert_eq!(e.compare(&d), Ordering::Less);
    assert_eq!(e.compare(&e), Ordering::Equal);
    assert_eq!(e.compare(&f), Ordering::Greater);

    assert_eq!(f.compare(&a), Ordering::Less);
    assert_eq!(f.compare(&b), Ordering::Less);
    assert_eq!(f.compare(&c), Ordering::Less);
    assert_eq!(f.compare(&d), Ordering::Less);
    assert_eq!(f.compare(&e), Ordering::Less);
    assert_eq!(f.compare(&f), Ordering::Equal);
}

#[test]
fn nan_is_detected_from_bits() {
    assert!(GainRatio::from_bits(f64::NAN.to_bits()).is_nan());
    assert!(GainRatio::from_bits((-f64::NAN).to_bits()).is_nan());
    assert!(!GainRatio::from_bits(f64::INFINITY.to_bits()).is_nan());
    assert!(!GainRatio::from_bits(f64::NEG_INFINITY.to_bits()).is_nan());
    assert!(!GainRatio::from_bits(0.5f64.to_bits()).is_nan());
    assert!(!GainRatio::zero().is_nan());
    assert_eq!(GainRatio::zero().bits, 0.0f64.to_bits());
}

#[test]
fn negative_and_zero_gain_ratios_rank_by_value() {
    assert_eq!(eval(-1.0, 1).compare(&eval(0.0, 1)), Ordering::Less);
    assert_eq!(eval(-2.0, 1).compare(&eval(-1.0, 1)), Ordering::Less);
    assert_eq!(eval(-0.0, 3).compare(&eval(0.0, 3)), Ordering::Equal);
    assert_eq!(eval(f64::INFINITY, 9).compare(&eval(1e300, 1)), Ordering::Greater);
    // a NaN ranks below every number, negative ones included
    assert_eq!(eval(f64::NAN, 0).compare(&eval(-5.0, 100)), Ordering::Less);
}

#[test]
fn equal_gain_ratio_prefers_narrower_branch() {
    assert!(eval(0.5, 2).is_better_than(&eval(0.5, 3)));
    assert!(!eval(0.5, 3).is_better_than(&eval(0.5, 2)));
    assert!(!eval(0.5, 3).is_better_than(&eval(0.5, 3)));
}

#[test]
fn ranking_is_transitive_on_samples() {
    let samples = [
        eval(f64::NAN, 0),
        eval(f64::NAN, 4),
        eval(-1.0, 2),
        eval(0.0, 1),
        eval(0.0, 5),
        eval(0.25, 3),
        eval(1.0, 1),
        eval(f64::INFINITY, 2),
    ];
    for x in &samples {
        for y in &samples {
            assert_eq!(x.compare(y), y.compare(x).reverse());
            for z in &samples {
                if x.compare(y) == Ordering::Greater && y.compare(z) == Ordering::Greater {
                    assert_eq!(x.compare(z), Ordering::Greater);
                }
            }
        }
    }
}


#[test]
fn equality_agrees_with_ranking() {
    // +0.0 and -0.0 rank level, and so are equal
    assert!(eval(0.0, 3) == eval(-0.0, 3));
    assert_eq!(eval(0.0, 3).compare(&eval(-0.0, 3)), Ordering::Equal);
    // two NaNs with different bit patterns rank level
    let quiet = GainRatio::from_bits(f64::NAN.to_bits());
    let other = GainRatio::from_bits(0x7ff0_0000_0000_0001);
    assert!(other.is_nan());
    assert!(quiet == other);
    let a = DecisionEval { gain_ratio: quiet, max_branch_width: 2 };
    let b = DecisionEval { gain_ratio: other, max_branch_width: 2 };
    assert!(a == b);
    assert_eq!(a.compare(&b), Ordering::Equal);
    // the width takes part in equality
    assert!(eval(2.0, 1) != eval(2.0, 2));
    assert!(eval(f64::NAN, 1) != eval(1.0, 1));
    assert!(GainRatio::from_bits(1.0f64.to_bits()) != GainRatio::from_bits(2.0f64.to_bits()));
    let samples = [eval(f64::NAN, 0), eval(-0.0, 1), eval(0.0, 1), eval(0.5, 1), eval(0.5, 2)];
    for x in &samples {
        for y in &samples {
            assert_eq!(x == y, x.compare(y) == Ordering::Equal);
        }
    }
}
