//! Statistics engine and exact-rational tests.

use dspa::ratio::{Ratio, RAT_BOUND};
use dspa::statistics::{AnomalyCheck, OnlineStatistic, RollingStatistic};

fn rat(num: i64, den: i64) -> Ratio {
    Ratio::new(num, den).unwrap()
}

#[test]
fn ratio_reduces_on_construction() {
    let r = rat(2, 4);
    assert_eq!(r, rat(1, 2));
    assert_eq!(r.num, 1);
    assert_eq!(r.den, 2);
    let neg = rat(3, -6);
    assert_eq!(neg, rat(-1, 2));
    assert!(Ratio::new(1, 0).is_none());
    assert!(Ratio::new(RAT_BOUND + 1, 1).is_none());
}

#[test]
fn ratio_arithmetic_is_exact() {
    let a = rat(1, 2);
    let b = rat(1, 3);
    assert_eq!(a.try_add(&b).unwrap(), rat(5, 6));
    assert_eq!(a.try_sub(&b).unwrap(), rat(1, 6));
    assert_eq!(a.try_mul(&b).unwrap(), rat(1, 6));
    assert_eq!(a.try_div_count(2).unwrap(), rat(1, 4));
    assert!(a.is_lt(&rat(2, 3)));
    assert!(!a.is_lt(&rat(1, 2)));
    assert!(a.is_le(&rat(1, 2)));
    assert!(rat(2, 4).same_value(&rat(1, 2)));
    assert!(rat(-1, 2).is_negative());
}

#[test]
fn deviation_comparison_squares_exactly() {
    // |value - mean| = 3/4, threshold 1, variance 1/4: 9/16 > 1/4
    assert!(Ratio::deviation_exceeds(
        &rat(1, 4),
        &rat(1, 1),
        &rat(1, 1),
        &rat(1, 4)
    ));
    // threshold 3: 9/16 > 9/4 is false
    assert!(!Ratio::deviation_exceeds(
        &rat(1, 4),
        &rat(1, 1),
        &rat(3, 1),
        &rat(1, 4)
    ));
}

#[test]
fn online_statistic_mean_and_variance() {
    let mut stat = OnlineStatistic::new(3);
    for v in 1..=5i64 {
        assert!(stat.update(Ratio::from_int(v).unwrap()));
    }
    assert_eq!(stat.mean().unwrap(), rat(3, 1));
    assert_eq!(stat.variance().unwrap(), rat(2, 1));
}

#[test]
fn online_statistic_empty_reports_zero() {
    let stat = OnlineStatistic::new(3);
    assert_eq!(stat.mean().unwrap(), rat(0, 1));
    assert_eq!(stat.variance().unwrap(), rat(0, 1));
    assert!(!stat.saturated());
}

#[test]
fn is_anomaly_silent_below_min_count() {
    let mut stat = OnlineStatistic::new(10);
    for v in 1..=5i64 {
        assert!(stat.update(Ratio::from_int(v).unwrap()));
    }
    assert!(!stat.saturated());
    // far outside any band, yet silent: too few samples
    let verdict = stat.is_anomaly(&rat(1, 1), &Ratio::from_int(1000).unwrap());
    assert_eq!(verdict, AnomalyCheck::Normal);
}

#[test]
fn is_anomaly_signals_when_saturated() {
    let mut stat = OnlineStatistic::new(2);
    assert!(stat.update(rat(1, 1)));
    assert!(stat.update(rat(1, 1)));
    assert!(stat.saturated());
    // mean 1, variance 0: any deviation beyond 0 signals
    match stat.is_anomaly(&rat(3, 1), &rat(2, 1)) {
        AnomalyCheck::Anomalous(d) => {
            assert_eq!(d.deviation, rat(1, 1));
            assert_eq!(d.variance, rat(0, 1));
        }
        other => panic!("expected an anomaly, got {:?}", other),
    }
    // the sample equal to the mean does not signal
    assert_eq!(stat.is_anomaly(&rat(3, 1), &rat(1, 1)), AnomalyCheck::Normal);
}

#[test]
fn rolling_statistic_evicts_oldest() {
    let mut stat = RollingStatistic::new(2);
    assert!(stat.update(Ratio::from_int(1).unwrap()));
    assert!(!stat.saturated());
    assert!(stat.update(Ratio::from_int(2).unwrap()));
    assert!(stat.saturated());
    assert!(stat.update(Ratio::from_int(3).unwrap()));
    // the window now holds [2, 3]
    assert_eq!(stat.mean().unwrap(), rat(5, 2));
    assert_eq!(stat.variance().unwrap(), rat(1, 4));
}

#[test]
fn rolling_statistic_signals_like_online() {
    let mut stat = RollingStatistic::new(2);
    assert!(stat.update(rat(1, 1)));
    assert!(stat.update(rat(1, 1)));
    match stat.is_anomaly(&rat(1, 1), &rat(3, 1)) {
        AnomalyCheck::Anomalous(d) => {
            assert_eq!(d.deviation, rat(2, 1));
            assert_eq!(d.variance, rat(0, 1));
        }
        other => panic!("expected an anomaly, got {:?}", other),
    }
}

#[test]
fn anomaly_carries_deviation_and_variance() {
    let mut stat = OnlineStatistic::new(2);
    // samples 1 and 3: mean 2, population variance 1
    assert!(stat.update(rat(1, 1)));
    assert!(stat.update(rat(3, 1)));
    match stat.is_anomaly(&rat(1, 1), &rat(5, 1)) {
        AnomalyCheck::Anomalous(d) => {
            // (5 - 2)^2 = 9 exceeds 1^2 * 1; stddev count is 3 = dev / sqrt(var)
            assert_eq!(d.deviation, rat(3, 1));
            assert_eq!(d.variance, rat(1, 1));
        }
        other => panic!("expected an anomaly, got {:?}", other),
    }
}

#[test]
fn refused_samples_are_counted() {
    let mut stat = OnlineStatistic::new(2);
    assert_eq!(stat.refused, 0);
    // 361 and 360 are coprime: the sum of the squares cannot stay inside
    // the magnitude bound
    assert!(stat.update(rat(1, 361)));
    assert!(!stat.update(rat(1, 360)));
    assert_eq!(stat.refused, 1);
    // the refusal left the incorporated samples unchanged
    assert_eq!(stat.count, 1);
    let mut rolling = RollingStatistic::new(4);
    assert_eq!(rolling.refused, 0);
    assert!(rolling.update(rat(1, 361)));
    assert!(!rolling.update(rat(1, 360)));
    assert_eq!(rolling.refused, 1);
}
