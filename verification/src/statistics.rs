//! Online statistics engine.
//!
//! Incremental per-metric mean/variance estimators over exact rationals.
//! [`OnlineStatistic`] accumulates every sample ever seen; the bounded
//! variant [`RollingStatistic`] keeps only the most recent samples in a
//! fixed-capacity window, so that long-run drift cannot mask recent
//! anomalies.  Anomaly signaling compares the squared deviation of a sample
//! against the squared threshold times the variance, which decides
//! `|deviations| > threshold` exactly without taking a square root, and is
//! disabled until a minimum number of samples has been observed.  A sample
//! the exact arithmetic cannot incorporate is refused and counted, so an
//! estimator that can no longer grow is observable rather than silent.

use vstd::prelude::*;

use crate::ratio::{
    lemma_rat_add_assoc, lemma_rat_add_congr, lemma_rat_add_sub_cancel, lemma_rat_div_int_congr,
    lemma_rat_eq_trans, lemma_rat_lt_congr, lemma_rat_ops_wf, norm_parts, rat_add, rat_div_int,
    rat_eq, rat_fits, rat_lt, rat_mul, rat_norm, rat_of_int, rat_sub, rat_wf, Rat, Ratio,
};

verus! {

/// Cap on the number of samples an estimator incorporates; a later update is
/// refused rather than risking an inexact result.
pub const SAMPLE_LIMIT: u64 = 131072;

/// Sum of a sequence of sample models.
pub open spec fn rat_sum(s: Seq<Rat>) -> Rat
    decreases s.len(),
{
    if s.len() == 0 {
        rat_of_int(0)
    } else {
        rat_add(rat_sum(s.drop_last()), s.last())
    }
}

/// Sum of the squares of a sequence of sample models.
pub open spec fn rat_sum_sq(s: Seq<Rat>) -> Rat
    decreases s.len(),
{
    if s.len() == 0 {
        rat_of_int(0)
    } else {
        rat_add(rat_sum_sq(s.drop_last()), rat_mul(s.last(), s.last()))
    }
}

pub open spec fn all_wf(s: Seq<Rat>) -> bool {
    forall|i: int| 0 <= i < s.len() ==> rat_wf(#[trigger] s[i])
}

pub proof fn lemma_sums_wf(s: Seq<Rat>)
    requires
        all_wf(s),
    ensures
        rat_wf(rat_sum(s)),
        rat_wf(rat_sum_sq(s)),
    decreases s.len(),
{
    if s.len() > 0 {
        assert(all_wf(s.drop_last()));
        lemma_sums_wf(s.drop_last());
        lemma_rat_ops_wf(rat_sum(s.drop_last()), s.last(), 1);
        lemma_rat_ops_wf(s.last(), s.last(), 1);
        lemma_rat_ops_wf(rat_sum_sq(s.drop_last()), rat_mul(s.last(), s.last()), 1);
    }
}

/// Mean of a sequence of samples; zero for the empty sequence.
pub open spec fn rat_mean(s: Seq<Rat>) -> Rat {
    if s.len() == 0 {
        rat_of_int(0)
    } else {
        rat_div_int(rat_sum(s), s.len() as int)
    }
}

/// The population variance written over the moment sums:
/// `(sum_sq - sum^2 / n) / n`.
pub open spec fn variance_formula(s1: Rat, s2: Rat, n: int) -> Rat {
    rat_div_int(rat_sub(s2, rat_div_int(rat_mul(s1, s1), n)), n)
}

/// Population variance of a sequence of samples; zero for the empty
/// sequence.
pub open spec fn rat_variance(s: Seq<Rat>) -> Rat {
    if s.len() == 0 {
        rat_of_int(0)
    } else {
        variance_formula(rat_sum(s), rat_sum_sq(s), s.len() as int)
    }
}

/// The squared-deviation anomaly test over models:
/// `(value - mean)^2 > threshold^2 * variance`.
pub open spec fn anomaly_spec(samples: Seq<Rat>, threshold: Rat, value: Rat) -> bool {
    rat_lt(
        rat_mul(rat_mul(threshold, threshold), rat_variance(samples)),
        rat_mul(rat_sub(value, rat_mean(samples)), rat_sub(value, rat_mean(samples))),
    )
}

/// How far an anomalous sample lies from the estimator: the signed
/// deviation `value - mean` together with the population variance.  The
/// signed number of standard deviations the sample is off by is then
/// `deviation / sqrt(variance)`; its sign is the deviation's, and its
/// square is the exact rational `deviation^2 / variance`.
#[derive(Clone, Copy, Debug, PartialEq, Eq, Structural)]
pub struct Deviation {
    pub deviation: Ratio,
    pub variance: Ratio,
}

/// Result of an anomaly check.
#[derive(Clone, Copy, Debug, PartialEq, Eq, Structural)]
pub enum AnomalyCheck {
    /// No anomaly: the estimator is not saturated yet, or the sample is
    /// within the threshold.
    Normal,
    /// The sample deviates beyond the threshold.
    Anomalous(Deviation),
    /// The exact arithmetic left the magnitude bound; no verdict.
    Unknown,
}

/// Incremental mean/variance estimator over every sample it has seen.
pub struct OnlineStatistic {
    /// Number of samples before anomaly signaling is enabled.
    pub min_count: u64,
    /// Number of samples incorporated.
    pub count: u64,
    /// Running sum of the samples.
    pub sum: Ratio,
    /// Running sum of the squares of the samples.
    pub sum_sq: Ratio,
    /// Count of samples refused because the exact arithmetic left the
    /// magnitude bound, for observability.
    pub refused: u64,
    /// The samples incorporated so far, for specification only.
    pub samples: Ghost<Seq<Rat>>,
}

impl OnlineStatistic {
    pub open spec fn inv(self) -> bool {
        &&& self.sum.wf()
        &&& self.sum_sq.wf()
        &&& self.count as int == self.samples@.len()
        &&& self.count <= SAMPLE_LIMIT
        &&& all_wf(self.samples@)
        &&& rat_eq(self.sum@, rat_sum(self.samples@))
        &&& rat_eq(self.sum_sq@, rat_sum_sq(self.samples@))
    }

    pub fn new(min_count: u64) -> (s: OnlineStatistic)
        ensures
            s.inv(),
            s.min_count == min_count,
            s.count == 0,
            s.refused == 0,
            s.samples@ == Seq::<Rat>::empty(),
    {
        OnlineStatistic {
            min_count,
            count: 0,
            sum: Ratio::zero(),
            sum_sq: Ratio::zero(),
            refused: 0,
            samples: Ghost(Seq::empty()),
        }
    }

    /// Whether one more sample with model `v` can be incorporated exactly.
    pub open spec fn update_ok(self, v: Rat) -> bool {
        &&& self.count < SAMPLE_LIMIT
        &&& rat_fits(rat_norm(rat_add(self.sum@, v)))
        &&& rat_fits(rat_norm(rat_mul(v, v)))
        &&& rat_fits(rat_norm(rat_add(self.sum_sq@, rat_norm(rat_mul(v, v)))))
    }

    /// Incorporates a new sample.  Returns `false`, leaving the samples
    /// unchanged and counting the refusal, exactly when the sample limit is
    /// reached or a running sum would leave the magnitude bound.
    pub fn update(&mut self, value: Ratio) -> (ok: bool)
        requires
            old(self).inv(),
            value.wf(),
        ensures
            final(self).inv(),
            ok == old(self).update_ok(value@),
            ok ==> final(self).samples@ == old(self).samples@.push(value@),
            ok ==> final(self).count == old(self).count + 1,
            ok ==> final(self).refused == old(self).refused,
            !ok ==> final(self).samples@ == old(self).samples@ && final(self).count == old(
                self,
            ).count && final(self).sum == old(self).sum && final(self).sum_sq == old(self).sum_sq,
            !ok ==> final(self).refused == if old(self).refused == u64::MAX {
                old(self).refused
            } else {
                (old(self).refused + 1) as u64
            },
            final(self).min_count == old(self).min_count,
    {
        if self.count >= SAMPLE_LIMIT {
            if self.refused < u64::MAX {
                self.refused = self.refused + 1;
            }
            return false;
        }
        let new_sum = match self.sum.try_add(&value) {
            Some(s) => s,
            None => {
                if self.refused < u64::MAX {
                    self.refused = self.refused + 1;
                }
                return false;
            },
        };
        let sq = match value.try_mul(&value) {
            Some(s) => s,
            None => {
                if self.refused < u64::MAX {
                    self.refused = self.refused + 1;
                }
                return false;
            },
        };
        let new_ssq = match self.sum_sq.try_add(&sq) {
            Some(s) => s,
            None => {
                if self.refused < u64::MAX {
                    self.refused = self.refused + 1;
                }
                return false;
            },
        };
        proof {
            let s = self.samples@;
            let v = value@;
            let pushed = s.push(v);
            assert(pushed.drop_last() =~= s);
            lemma_sums_wf(s);
            lemma_rat_ops_wf(rat_sum(s), v, 1);
            lemma_rat_ops_wf(v, v, 1);
            lemma_rat_ops_wf(rat_sum_sq(s), rat_mul(v, v), 1);
            lemma_rat_ops_wf(self.sum@, v, 1);
            // new sum ~ sum of pushed samples
            lemma_rat_add_congr(self.sum@, rat_sum(s), v, v);
            lemma_rat_eq_trans(new_sum@, rat_add(self.sum@, v), rat_add(rat_sum(s), v));
            // new sum of squares ~ square sum of pushed samples
            lemma_rat_ops_wf(self.sum_sq@, sq@, 1);
            lemma_rat_add_congr(self.sum_sq@, rat_sum_sq(s), sq@, rat_mul(v, v));
            lemma_rat_eq_trans(
                new_ssq@,
                rat_add(self.sum_sq@, sq@),
                rat_add(rat_sum_sq(s), rat_mul(v, v)),
            );
            assert(all_wf(pushed));
        }
        self.count = self.count + 1;
        self.sum = new_sum;
        self.sum_sq = new_ssq;
        proof {
            self.samples@ = self.samples@.push(value@);
        }
        true
    }

    /// Whether the exact mean can be represented within the magnitude bound.
    pub open spec fn mean_ok(self) -> bool {
        self.count == 0 || rat_fits(rat_norm(rat_div_int(self.sum@, self.count as int)))
    }

    /// The mean of the samples seen so far; zero before the first sample.
    pub fn mean(&self) -> (r: Option<Ratio>)
        requires
            self.inv(),
        ensures
            r is Some <==> self.mean_ok(),
            match r {
                Some(m) => m.wf() && m@ == self.mean_rep() && rat_eq(m@, rat_mean(self.samples@)),
                None => true,
            },
    {
        if self.count == 0 {
            return Some(Ratio::zero());
        }
        match self.sum.try_div_count(self.count) {
            Some(m) => {
                proof {
                    let s = self.samples@;
                    lemma_sums_wf(s);
                    lemma_rat_ops_wf(self.sum@, self.sum@, self.count as int);
                    lemma_rat_ops_wf(rat_sum(s), rat_sum(s), self.count as int);
                    lemma_rat_div_int_congr(self.sum@, rat_sum(s), self.count as int);
                    lemma_rat_eq_trans(
                        m@,
                        rat_div_int(self.sum@, self.count as int),
                        rat_div_int(rat_sum(s), self.count as int),
                    );
                }
                Some(m)
            },
            None => None,
        }
    }

    /// Whether the exact variance can be represented within the magnitude
    /// bound.
    pub open spec fn variance_ok(self) -> bool {
        self.count == 0 || rat_fits(
            rat_norm(variance_formula(self.sum@, self.sum_sq@, self.count as int)),
        )
    }

    /// The population variance of the samples seen so far; zero before the
    /// first sample.
    pub fn variance(&self) -> (r: Option<Ratio>)
        requires
            self.inv(),
        ensures
            r is Some <==> self.variance_ok(),
            match r {
                Some(v) => v.wf() && rat_eq(v@, rat_variance(self.samples@)),
                None => true,
            },
    {
        if self.count == 0 {
            return Some(Ratio::zero());
        }
        variance_from_moments(&self.sum, &self.sum_sq, self.count, Ghost(self.samples@))
    }

    pub open spec fn saturated_spec(self) -> bool {
        self.count >= self.min_count
    }

    /// Whether enough samples have been seen to enable anomaly signaling.
    pub fn saturated(&self) -> (r: bool)
        ensures
            r == self.saturated_spec(),
    {
        self.count >= self.min_count
    }

    /// The representation of the mean this estimator reports.
    pub open spec fn mean_rep(self) -> Rat {
        if self.count == 0 {
            rat_of_int(0)
        } else {
            rat_norm(rat_div_int(self.sum@, self.count as int))
        }
    }

    /// The conditions under which an anomaly check has a verdict.
    pub open spec fn anomaly_check_ok(self, value: Rat) -> bool {
        &&& self.mean_ok()
        &&& self.variance_ok()
        &&& rat_fits(rat_norm(rat_sub(value, self.mean_rep())))
    }

    /// Checks one sample against the estimator without incorporating it:
    /// anomalous exactly when the estimator is saturated and the sample
    /// deviates from the mean by more than `threshold` standard deviations.
    /// Reports `Unknown`, never a wrong verdict, when the exact arithmetic
    /// leaves the magnitude bound.
    pub fn is_anomaly(&self, threshold: &Ratio, value: &Ratio) -> (r: AnomalyCheck)
        requires
            self.inv(),
            threshold.wf(),
            value.wf(),
        ensures
            !self.saturated_spec() ==> r == AnomalyCheck::Normal,
            r == AnomalyCheck::Unknown <==> self.saturated_spec() && !self.anomaly_check_ok(
                value@,
            ),
            match r {
                AnomalyCheck::Normal => !self.saturated_spec() || !self.anomaly_check_ok(value@)
                    || !anomaly_spec(self.samples@, threshold@, value@),
                AnomalyCheck::Anomalous(d) => {
                    &&& self.saturated_spec()
                    &&& anomaly_spec(self.samples@, threshold@, value@)
                    &&& d.deviation.wf()
                    &&& rat_eq(d.deviation@, rat_sub(value@, rat_mean(self.samples@)))
                    &&& d.variance.wf()
                    &&& rat_eq(d.variance@, rat_variance(self.samples@))
                },
                AnomalyCheck::Unknown => true,
            },
            r == AnomalyCheck::Normal && self.saturated_spec() && self.anomaly_check_ok(value@)
                ==> !anomaly_spec(self.samples@, threshold@, value@),
    {
        if !self.saturated() {
            return AnomalyCheck::Normal;
        }
        let m = match self.mean() {
            Some(m) => m,
            None => {
                return AnomalyCheck::Unknown;
            },
        };
        let var = match self.variance() {
            Some(v) => v,
            None => {
                return AnomalyCheck::Unknown;
            },
        };
        let dev = match value.try_sub(&m) {
            Some(d) => d,
            None => {
                return AnomalyCheck::Unknown;
            },
        };
        let exceeds = Ratio::deviation_exceeds(value, &m, threshold, &var);
        proof {
            let s = self.samples@;
            lemma_sums_wf(s);
            lemma_anomaly_congr(s, threshold@, value@, m@, var@);
            if s.len() > 0 {
                lemma_rat_ops_wf(rat_sum(s), rat_sum(s), s.len() as int);
            }
            lemma_rat_ops_wf(value@, m@, 1);
            lemma_rat_ops_wf(value@, rat_mean(s), 1);
            lemma_rat_add_congr(value@, value@, m@, rat_mean(s));
            lemma_rat_eq_trans(dev@, rat_sub(value@, m@), rat_sub(value@, rat_mean(s)));
        }
        if exceeds {
            AnomalyCheck::Anomalous(Deviation { deviation: dev, variance: var })
        } else {
            AnomalyCheck::Normal
        }
    }
}

/// The exact test over the reported mean and variance agrees with the test
/// over the sample models.
proof fn lemma_anomaly_congr(s: Seq<Rat>, t: Rat, v: Rat, m: Rat, var: Rat)
    requires
        all_wf(s),
        rat_wf(t),
        rat_wf(v),
        rat_wf(m),
        rat_wf(var),
        rat_eq(m, rat_mean(s)),
        rat_eq(var, rat_variance(s)),
    ensures
        rat_lt(rat_mul(rat_mul(t, t), var), rat_mul(rat_sub(v, m), rat_sub(v, m)))
            == anomaly_spec(s, t, v),
{
    lemma_sums_wf(s);
    let mm = rat_mean(s);
    let vv = rat_variance(s);
    if s.len() == 0 {
    } else {
        lemma_rat_ops_wf(rat_sum(s), rat_sum(s), s.len() as int);
        lemma_rat_ops_wf(rat_mul(rat_sum(s), rat_sum(s)), rat_sum(s), s.len() as int);
        lemma_rat_ops_wf(
            rat_sum_sq(s),
            rat_div_int(rat_mul(rat_sum(s), rat_sum(s)), s.len() as int),
            s.len() as int,
        );
        lemma_rat_ops_wf(
            rat_sub(rat_sum_sq(s), rat_div_int(rat_mul(rat_sum(s), rat_sum(s)), s.len() as int)),
            rat_sum(s),
            s.len() as int,
        );
    }
    assert(rat_wf(mm));
    assert(rat_wf(vv));
    lemma_rat_ops_wf(t, t, 1);
    lemma_rat_ops_wf(v, m, 1);
    lemma_rat_ops_wf(v, mm, 1);
    lemma_rat_add_congr(t, t, var, vv);
    lemma_rat_ops_wf(rat_mul(t, t), var, 1);
    lemma_rat_ops_wf(rat_mul(t, t), vv, 1);
    lemma_rat_add_congr(rat_mul(t, t), rat_mul(t, t), var, vv);
    lemma_rat_add_congr(v, v, m, mm);
    lemma_rat_add_congr(rat_sub(v, m), rat_sub(v, mm), rat_sub(v, m), rat_sub(v, mm));
    lemma_rat_ops_wf(rat_sub(v, m), rat_sub(v, m), 1);
    lemma_rat_ops_wf(rat_sub(v, mm), rat_sub(v, mm), 1);
    lemma_rat_lt_congr(
        rat_mul(rat_mul(t, t), var),
        rat_mul(rat_mul(t, t), vv),
        rat_mul(rat_sub(v, m), rat_sub(v, m)),
        rat_mul(rat_sub(v, mm), rat_sub(v, mm)),
    );
}

/// Computes `(sum_sq - sum^2 / n) / n` exactly and reduces it.
fn variance_from_moments(sum: &Ratio, sum_sq: &Ratio, count: u64, samples: Ghost<Seq<Rat>>) -> (r:
    Option<Ratio>)
    requires
        sum.wf(),
        sum_sq.wf(),
        1 <= count <= SAMPLE_LIMIT,
        count as int == samples@.len(),
        all_wf(samples@),
        rat_eq(sum@, rat_sum(samples@)),
        rat_eq(sum_sq@, rat_sum_sq(samples@)),
    ensures
        r is Some <==> rat_fits(rat_norm(variance_formula(sum@, sum_sq@, count as int))),
        match r {
            Some(v) => v.wf() && v@ == rat_norm(variance_formula(sum@, sum_sq@, count as int))
                && rat_eq(v@, rat_variance(samples@)),
            None => true,
        },
{
    let n = count as i128;
    let sn = sum.num as i128;
    let sd = sum.den as i128;
    let qn = sum_sq.num as i128;
    let qd = sum_sq.den as i128;
    proof {
        crate::ratio::lemma_mul_bound(sd as int, sd as int, 131072, 131072);
        crate::ratio::lemma_mul_bound(sd as int * sd as int, n as int, 17179869184, 131072);
        crate::ratio::lemma_mul_bound(
            qn as int,
            sd as int * sd as int * n as int,
            131072,
            2251799813685248,
        );
        crate::ratio::lemma_mul_bound(sn as int, sn as int, 131072, 131072);
        crate::ratio::lemma_mul_bound(sn as int * sn as int, qd as int, 17179869184, 131072);
        crate::ratio::lemma_mul_bound(
            qd as int,
            sd as int * sd as int * n as int,
            131072,
            2251799813685248,
        );
        crate::ratio::lemma_mul_bound(
            qd as int * (sd as int * sd as int * n as int),
            n as int,
            295147905179352825856,
            131072,
        );
    }
    let m2 = sd * sd * n;
    let num = qn * m2 - sn * sn * qd;
    let den = qd * m2 * n;
    proof {
        let e = variance_formula(sum@, sum_sq@, count as int);
        assert(den > 0) by (nonlinear_arith)
            requires
                qd >= 1,
                sd >= 1,
                n >= 1,
                den == qd * (sd * sd * n) * n,
        ;
        assert(e.num == num as int && e.den == den as int) by (nonlinear_arith)
            requires
                num == qn * (sd * sd * n) - sn * sn * qd,
                den == qd * (sd * sd * n) * n,
                e == variance_formula(
                    Rat { num: sn as int, den: sd as int },
                    Rat { num: qn as int, den: qd as int },
                    n as int,
                ),
        ;
    }
    let r = norm_parts(num, den);
    proof {
        let e = variance_formula(sum@, sum_sq@, count as int);
        let s = samples@;
        let nn = s.len() as int;
        if r is Some {
            let v = r->0;
            lemma_sums_wf(s);
            // the formula over the stored moments equals, as a rational, the
            // formula over the true sums
            lemma_rat_ops_wf(sum@, sum@, nn);
            lemma_rat_ops_wf(rat_sum(s), rat_sum(s), nn);
            lemma_rat_add_congr(sum@, rat_sum(s), sum@, rat_sum(s));
            lemma_rat_ops_wf(rat_mul(sum@, sum@), sum@, nn);
            lemma_rat_ops_wf(rat_mul(rat_sum(s), rat_sum(s)), rat_sum(s), nn);
            lemma_rat_div_int_congr(rat_mul(sum@, sum@), rat_mul(rat_sum(s), rat_sum(s)), nn);
            lemma_rat_ops_wf(sum_sq@, rat_div_int(rat_mul(sum@, sum@), nn), nn);
            lemma_rat_ops_wf(rat_sum_sq(s), rat_div_int(rat_mul(rat_sum(s), rat_sum(s)), nn), nn);
            lemma_rat_add_congr(
                sum_sq@,
                rat_sum_sq(s),
                rat_div_int(rat_mul(sum@, sum@), nn),
                rat_div_int(rat_mul(rat_sum(s), rat_sum(s)), nn),
            );
            lemma_rat_ops_wf(
                rat_sub(sum_sq@, rat_div_int(rat_mul(sum@, sum@), nn)),
                sum@,
                nn,
            );
            lemma_rat_ops_wf(
                rat_sub(rat_sum_sq(s), rat_div_int(rat_mul(rat_sum(s), rat_sum(s)), nn)),
                rat_sum(s),
                nn,
            );
            lemma_rat_div_int_congr(
                rat_sub(sum_sq@, rat_div_int(rat_mul(sum@, sum@), nn)),
                rat_sub(rat_sum_sq(s), rat_div_int(rat_mul(rat_sum(s), rat_sum(s)), nn)),
                nn,
            );
            lemma_rat_eq_trans(v@, e, rat_variance(s));
        }
    }
    r
}

/// A sum over samples can also be peeled off at the front.
pub proof fn lemma_rat_sum_front(s: Seq<Rat>)
    requires
        all_wf(s),
        s.len() >= 1,
    ensures
        rat_eq(rat_sum(s), rat_add(s[0], rat_sum(s.drop_first()))),
        rat_eq(rat_sum_sq(s), rat_add(rat_mul(s[0], s[0]), rat_sum_sq(s.drop_first()))),
    decreases s.len(),
{
    lemma_sums_wf(s);
    let dl = s.drop_last();
    let df = s.drop_first();
    assert(all_wf(dl));
    assert(all_wf(df));
    lemma_sums_wf(dl);
    lemma_sums_wf(df);
    if s.len() == 1 {
        assert(df =~= Seq::<Rat>::empty());
        assert(dl =~= Seq::<Rat>::empty());
        assert(rat_eq(rat_sum(s), rat_add(s[0], rat_sum(df)))) by (nonlinear_arith)
            requires
                rat_sum(s) == rat_add(rat_of_int(0), s[0]),
                rat_sum(df) == rat_of_int(0),
                rat_wf(s[0]),
        ;
        assert(rat_eq(rat_sum_sq(s), rat_add(rat_mul(s[0], s[0]), rat_sum_sq(df))))
            by (nonlinear_arith)
            requires
                rat_sum_sq(s) == rat_add(rat_of_int(0), rat_mul(s[0], s[0])),
                rat_sum_sq(df) == rat_of_int(0),
                rat_wf(s[0]),
        ;
    } else {
        lemma_rat_sum_front(dl);
        assert(df.drop_last() =~= dl.drop_first());
        assert(df.last() == s.last());
        assert(dl[0] == s[0]);
        let r = rat_sum(dl.drop_first());
        let q = rat_sum_sq(dl.drop_first());
        assert(all_wf(dl.drop_first()));
        lemma_sums_wf(dl.drop_first());
        // the plain sum
        lemma_rat_ops_wf(s[0], r, 1);
        lemma_rat_ops_wf(rat_add(s[0], r), s.last(), 1);
        lemma_rat_ops_wf(rat_sum(dl), s.last(), 1);
        lemma_rat_add_congr(rat_sum(dl), rat_add(s[0], r), s.last(), s.last());
        lemma_rat_add_assoc(s[0], r, s.last());
        lemma_rat_ops_wf(r, s.last(), 1);
        lemma_rat_ops_wf(s[0], rat_add(r, s.last()), 1);
        lemma_rat_eq_trans(
            rat_sum(s),
            rat_add(rat_add(s[0], r), s.last()),
            rat_add(s[0], rat_add(r, s.last())),
        );
        assert(rat_sum(df) == rat_add(r, s.last()));
        // the sum of squares
        let s0sq = rat_mul(s[0], s[0]);
        let lastsq = rat_mul(s.last(), s.last());
        lemma_rat_ops_wf(s[0], s[0], 1);
        lemma_rat_ops_wf(s.last(), s.last(), 1);
        lemma_rat_ops_wf(s0sq, q, 1);
        lemma_rat_ops_wf(rat_add(s0sq, q), lastsq, 1);
        lemma_rat_ops_wf(rat_sum_sq(dl), lastsq, 1);
        lemma_rat_add_congr(rat_sum_sq(dl), rat_add(s0sq, q), lastsq, lastsq);
        lemma_rat_add_assoc(s0sq, q, lastsq);
        lemma_rat_ops_wf(q, lastsq, 1);
        lemma_rat_ops_wf(s0sq, rat_add(q, lastsq), 1);
        lemma_rat_eq_trans(
            rat_sum_sq(s),
            rat_add(rat_add(s0sq, q), lastsq),
            rat_add(s0sq, rat_add(q, lastsq)),
        );
        assert(rat_sum_sq(df) == rat_add(q, lastsq));
    }
}

/// Bounded-window mean/variance estimator: statistics reflect only the most
/// recent `size` samples.
pub struct RollingStatistic {
    /// Capacity of the ring of retained samples.
    pub size: usize,
    /// The retained samples, oldest first.
    pub window: Vec<Ratio>,
    /// Running sum of the retained samples.
    pub sum: Ratio,
    /// Running sum of the squares of the retained samples.
    pub sum_sq: Ratio,
    /// Count of samples refused because the exact arithmetic left the
    /// magnitude bound, for observability.
    pub refused: u64,
}

impl RollingStatistic {
    /// The models of the retained samples.
    pub open spec fn model(self) -> Seq<Rat> {
        self.window@.map_values(|r: Ratio| r@)
    }

    pub open spec fn inv(self) -> bool {
        &&& 1 <= self.size <= SAMPLE_LIMIT
        &&& self.window@.len() <= self.size
        &&& forall|i: int|
            0 <= i < self.window@.len() ==> (#[trigger] self.window@[i]).wf()
        &&& self.sum.wf()
        &&& self.sum_sq.wf()
        &&& rat_eq(self.sum@, rat_sum(self.model()))
        &&& rat_eq(self.sum_sq@, rat_sum_sq(self.model()))
    }

    pub fn new(size: usize) -> (s: RollingStatistic)
        requires
            1 <= size <= SAMPLE_LIMIT,
        ensures
            s.inv(),
            s.size == size,
            s.refused == 0,
            s.model() == Seq::<Rat>::empty(),
    {
        let s = RollingStatistic {
            size,
            window: Vec::new(),
            sum: Ratio::zero(),
            sum_sq: Ratio::zero(),
            refused: 0,
        };
        proof {
            assert(s.model() =~= Seq::<Rat>::empty());
        }
        s
    }

    /// The window after incorporating one more sample: appended while the
    /// ring is filling, otherwise the oldest sample leaves.
    pub open spec fn next_model(self, v: Rat) -> Seq<Rat> {
        if self.window@.len() < self.size {
            self.model().push(v)
        } else {
            self.model().drop_first().push(v)
        }
    }

    /// Whether one more sample with model `v` can be incorporated exactly.
    pub open spec fn update_ok(self, v: Rat) -> bool {
        if self.window@.len() < self.size {
            &&& rat_fits(rat_norm(rat_add(self.sum@, v)))
            &&& rat_fits(rat_norm(rat_mul(v, v)))
            &&& rat_fits(rat_norm(rat_add(self.sum_sq@, rat_norm(rat_mul(v, v)))))
        } else {
            let w0 = self.window@[0]@;
            let s1 = rat_norm(rat_sub(self.sum@, w0));
            let osq = rat_norm(rat_mul(w0, w0));
            let q1 = rat_norm(rat_sub(self.sum_sq@, osq));
            let sq = rat_norm(rat_mul(v, v));
            &&& rat_fits(rat_norm(rat_sub(self.sum@, w0)))
            &&& rat_fits(rat_norm(rat_add(s1, v)))
            &&& rat_fits(rat_norm(rat_mul(w0, w0)))
            &&& rat_fits(rat_norm(rat_sub(self.sum_sq@, osq)))
            &&& rat_fits(rat_norm(rat_mul(v, v)))
            &&& rat_fits(rat_norm(rat_add(q1, sq)))
        }
    }

    /// Incorporates a new sample, evicting the oldest one once the ring is
    /// full.  Returns `false`, leaving the estimator unchanged, exactly when
    /// a running sum would leave the magnitude bound.
    pub fn update(&mut self, value: Ratio) -> (ok: bool)
        requires
            old(self).inv(),
            value.wf(),
        ensures
            final(self).inv(),
            ok == old(self).update_ok(value@),
            ok ==> final(self).model() == old(self).next_model(value@),
            ok ==> final(self).refused == old(self).refused,
            !ok ==> final(self).window == old(self).window && final(self).sum == old(self).sum
                && final(self).sum_sq == old(self).sum_sq,
            !ok ==> final(self).refused == if old(self).refused == u64::MAX {
                old(self).refused
            } else {
                (old(self).refused + 1) as u64
            },
            final(self).size == old(self).size,
    {
        if self.window.len() < self.size {
            let new_sum = match self.sum.try_add(&value) {
                Some(s) => s,
                None => {
                    if self.refused < u64::MAX {
                        self.refused = self.refused + 1;
                    }
                    return false;
                },
            };
            let sq = match value.try_mul(&value) {
                Some(s) => s,
                None => {
                    if self.refused < u64::MAX {
                        self.refused = self.refused + 1;
                    }
                    return false;
                },
            };
            let new_ssq = match self.sum_sq.try_add(&sq) {
                Some(s) => s,
                None => {
                    if self.refused < u64::MAX {
                        self.refused = self.refused + 1;
                    }
                    return false;
                },
            };
            proof {
                let s = self.model();
                let v = value@;
                let pushed = s.push(v);
                assert(pushed.drop_last() =~= s);
                assert(all_wf(s));
                lemma_sums_wf(s);
                lemma_rat_ops_wf(rat_sum(s), v, 1);
                lemma_rat_ops_wf(v, v, 1);
                lemma_rat_ops_wf(rat_sum_sq(s), rat_mul(v, v), 1);
                lemma_rat_ops_wf(self.sum@, v, 1);
                lemma_rat_add_congr(self.sum@, rat_sum(s), v, v);
                lemma_rat_eq_trans(new_sum@, rat_add(self.sum@, v), rat_add(rat_sum(s), v));
                lemma_rat_ops_wf(self.sum_sq@, sq@, 1);
                lemma_rat_add_congr(self.sum_sq@, rat_sum_sq(s), sq@, rat_mul(v, v));
                lemma_rat_eq_trans(
                    new_ssq@,
                    rat_add(self.sum_sq@, sq@),
                    rat_add(rat_sum_sq(s), rat_mul(v, v)),
                );
            }
            let ghost before = self.model();
            self.window.push(value);
            self.sum = new_sum;
            self.sum_sq = new_ssq;
            proof {
                assert(self.model() =~= before.push(value@));
            }
            true
        } else {
            let w0 = self.window[0];
            let s1 = match self.sum.try_sub(&w0) {
                Some(s) => s,
                None => {
                    if self.refused < u64::MAX {
                        self.refused = self.refused + 1;
                    }
                    return false;
                },
            };
            let new_sum = match s1.try_add(&value) {
                Some(s) => s,
                None => {
                    if self.refused < u64::MAX {
                        self.refused = self.refused + 1;
                    }
                    return false;
                },
            };
            let osq = match w0.try_mul(&w0) {
                Some(s) => s,
                None => {
                    if self.refused < u64::MAX {
                        self.refused = self.refused + 1;
                    }
                    return false;
                },
            };
            let q1 = match self.sum_sq.try_sub(&osq) {
                Some(s) => s,
                None => {
                    if self.refused < u64::MAX {
                        self.refused = self.refused + 1;
                    }
                    return false;
                },
            };
            let sq = match value.try_mul(&value) {
                Some(s) => s,
                None => {
                    if self.refused < u64::MAX {
                        self.refused = self.refused + 1;
                    }
                    return false;
                },
            };
            let new_ssq = match q1.try_add(&sq) {
                Some(s) => s,
                None => {
                    if self.refused < u64::MAX {
                        self.refused = self.refused + 1;
                    }
                    return false;
                },
            };
            proof {
                let s = self.model();
                let v = value@;
                let rest = s.drop_first();
                let pushed = rest.push(v);
                assert(all_wf(s));
                assert(all_wf(rest));
                lemma_sums_wf(s);
                lemma_sums_wf(rest);
                lemma_rat_sum_front(s);
                let r = rat_sum(rest);
                let q = rat_sum_sq(rest);
                assert(s[0] == w0@);
                // running sum minus the evicted sample is the sum of the rest
                lemma_rat_ops_wf(w0@, r, 1);
                lemma_rat_ops_wf(self.sum@, w0@, 1);
                lemma_rat_ops_wf(rat_add(w0@, r), w0@, 1);
                lemma_rat_eq_trans(self.sum@, rat_sum(s), rat_add(w0@, r));
                lemma_rat_add_congr(self.sum@, rat_add(w0@, r), w0@, w0@);
                lemma_rat_add_sub_cancel(w0@, r);
                lemma_rat_eq_trans(
                    s1@,
                    rat_sub(self.sum@, w0@),
                    rat_sub(rat_add(w0@, r), w0@),
                );
                lemma_rat_eq_trans(s1@, rat_sub(rat_add(w0@, r), w0@), r);
                // and adding the new sample gives the sum of the new window
                assert(pushed.drop_last() =~= rest);
                lemma_rat_ops_wf(r, v, 1);
                lemma_rat_ops_wf(s1@, v, 1);
                lemma_rat_add_congr(s1@, r, v, v);
                lemma_rat_eq_trans(new_sum@, rat_add(s1@, v), rat_add(r, v));
                // the same for the sums of squares
                let w0sq = rat_mul(w0@, w0@);
                lemma_rat_ops_wf(w0@, w0@, 1);
                lemma_rat_ops_wf(w0sq, q, 1);
                lemma_rat_ops_wf(self.sum_sq@, osq@, 1);
                lemma_rat_ops_wf(rat_add(w0sq, q), w0sq, 1);
                lemma_rat_ops_wf(rat_add(w0sq, q), osq@, 1);
                lemma_rat_eq_trans(self.sum_sq@, rat_sum_sq(s), rat_add(w0sq, q));
                lemma_rat_add_congr(self.sum_sq@, rat_add(w0sq, q), osq@, w0sq);
                lemma_rat_add_sub_cancel(w0sq, q);
                lemma_rat_eq_trans(
                    q1@,
                    rat_sub(self.sum_sq@, osq@),
                    rat_sub(rat_add(w0sq, q), w0sq),
                );
                lemma_rat_eq_trans(q1@, rat_sub(rat_add(w0sq, q), w0sq), q);
                lemma_rat_ops_wf(v, v, 1);
                lemma_rat_ops_wf(q, rat_mul(v, v), 1);
                lemma_rat_ops_wf(q1@, sq@, 1);
                lemma_rat_add_congr(q1@, q, sq@, rat_mul(v, v));
                lemma_rat_eq_trans(new_ssq@, rat_add(q1@, sq@), rat_add(q, rat_mul(v, v)));
            }
            let ghost before = self.model();
            self.window.remove(0);
            self.window.push(value);
            self.sum = new_sum;
            self.sum_sq = new_ssq;
            proof {
                assert(self.model() =~= before.drop_first().push(value@));
            }
            true
        }
    }

    /// Whether the ring is full, which enables anomaly signaling.
    pub open spec fn saturated_spec(self) -> bool {
        self.window@.len() == self.size
    }

    pub fn saturated(&self) -> (r: bool)
        ensures
            r == self.saturated_spec(),
    {
        self.window.len() == self.size
    }

    /// Whether the exact mean can be represented within the magnitude bound.
    pub open spec fn mean_ok(self) -> bool {
        self.window@.len() == 0 || rat_fits(
            rat_norm(rat_div_int(self.sum@, self.window@.len() as int)),
        )
    }

    /// The representation of the mean this estimator reports.
    pub open spec fn mean_rep(self) -> Rat {
        if self.window@.len() == 0 {
            rat_of_int(0)
        } else {
            rat_norm(rat_div_int(self.sum@, self.window@.len() as int))
        }
    }

    /// The mean of the retained samples; zero while the window is empty.
    pub fn mean(&self) -> (r: Option<Ratio>)
        requires
            self.inv(),
        ensures
            r is Some <==> self.mean_ok(),
            match r {
                Some(m) => m.wf() && m@ == self.mean_rep() && rat_eq(m@, rat_mean(self.model())),
                None => true,
            },
    {
        let n = self.window.len();
        if n == 0 {
            return Some(Ratio::zero());
        }
        match self.sum.try_div_count(n as u64) {
            Some(m) => {
                proof {
                    let s = self.model();
                    assert(all_wf(s));
                    lemma_sums_wf(s);
                    lemma_rat_ops_wf(self.sum@, self.sum@, n as int);
                    lemma_rat_ops_wf(rat_sum(s), rat_sum(s), n as int);
                    lemma_rat_div_int_congr(self.sum@, rat_sum(s), n as int);
                    lemma_rat_eq_trans(
                        m@,
                        rat_div_int(self.sum@, n as int),
                        rat_div_int(rat_sum(s), n as int),
                    );
                }
                Some(m)
            },
            None => None,
        }
    }

    /// Whether the exact variance can be represented within the magnitude
    /// bound.
    pub open spec fn variance_ok(self) -> bool {
        self.window@.len() == 0 || rat_fits(
            rat_norm(variance_formula(self.sum@, self.sum_sq@, self.window@.len() as int)),
        )
    }

    /// The population variance of the retained samples; zero while the
    /// window is empty.
    pub fn variance(&self) -> (r: Option<Ratio>)
        requires
            self.inv(),
        ensures
            r is Some <==> self.variance_ok(),
            match r {
                Some(v) => v.wf() && rat_eq(v@, rat_variance(self.model())),
                None => true,
            },
    {
        let n = self.window.len();
        if n == 0 {
            return Some(Ratio::zero());
        }
        proof {
            assert(all_wf(self.model()));
        }
        variance_from_moments(&self.sum, &self.sum_sq, n as u64, Ghost(self.model()))
    }

    /// The conditions under which an anomaly check has a verdict.
    pub open spec fn anomaly_check_ok(self, value: Rat) -> bool {
        &&& self.mean_ok()
        &&& self.variance_ok()
        &&& rat_fits(rat_norm(rat_sub(value, self.mean_rep())))
    }

    /// Checks one sample against the retained window without incorporating
    /// it; see [`OnlineStatistic::is_anomaly`].
    pub fn is_anomaly(&self, threshold: &Ratio, value: &Ratio) -> (r: AnomalyCheck)
        requires
            self.inv(),
            threshold.wf(),
            value.wf(),
        ensures
            !self.saturated_spec() ==> r == AnomalyCheck::Normal,
            r == AnomalyCheck::Unknown <==> self.saturated_spec() && !self.anomaly_check_ok(
                value@,
            ),
            match r {
                AnomalyCheck::Normal => !self.saturated_spec() || !self.anomaly_check_ok(value@)
                    || !anomaly_spec(self.model(), threshold@, value@),
                AnomalyCheck::Anomalous(d) => {
                    &&& self.saturated_spec()
                    &&& anomaly_spec(self.model(), threshold@, value@)
                    &&& d.deviation.wf()
                    &&& rat_eq(d.deviation@, rat_sub(value@, rat_mean(self.model())))
                    &&& d.variance.wf()
                    &&& rat_eq(d.variance@, rat_variance(self.model()))
                },
                AnomalyCheck::Unknown => true,
            },
            r == AnomalyCheck::Normal && self.saturated_spec() && self.anomaly_check_ok(value@)
                ==> !anomaly_spec(self.model(), threshold@, value@),
    {
        if !self.saturated() {
            return AnomalyCheck::Normal;
        }
        let m = match self.mean() {
            Some(m) => m,
            None => {
                return AnomalyCheck::Unknown;
            },
        };
        let var = match self.variance() {
            Some(v) => v,
            None => {
                return AnomalyCheck::Unknown;
            },
        };
        let dev = match value.try_sub(&m) {
            Some(d) => d,
            None => {
                return AnomalyCheck::Unknown;
            },
        };
        let exceeds = Ratio::deviation_exceeds(value, &m, threshold, &var);
        proof {
            let s = self.model();
            assert(all_wf(s));
            lemma_sums_wf(s);
            lemma_anomaly_congr(s, threshold@, value@, m@, var@);
            if s.len() > 0 {
                lemma_rat_ops_wf(rat_sum(s), rat_sum(s), s.len() as int);
            }
            lemma_rat_ops_wf(value@, m@, 1);
            lemma_rat_ops_wf(value@, rat_mean(s), 1);
            lemma_rat_add_congr(value@, value@, m@, rat_mean(s));
            lemma_rat_eq_trans(dev@, rat_sub(value@, m@), rat_sub(value@, rat_mean(s)));
        }
        if exceeds {
            AnomalyCheck::Anomalous(Deviation { deviation: dev, variance: var })
        } else {
            AnomalyCheck::Normal
        }
    }
}

} // verus!
