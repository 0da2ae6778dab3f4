//! Anomaly detection over content statistics.
//!
//! The engine tracks one estimator per metric — the unique-word ratio of
//! posts, the tag count of posts, and the unique-word ratio of comments —
//! and signals when a new sample deviates from its metric's mean by more
//! than the configured number of standard deviations, once that estimator
//! has seen its minimum number of samples.  Each sample is incorporated
//! after it is checked.  A sample that cannot be represented or incorporated
//! within the exact-arithmetic bounds is counted, never silently lost.

use vstd::prelude::*;

use crate::metrics::{ratio_spec, unique_words_per_word};
use crate::ratio::{rat_fits, rat_norm, rat_of_int, Rat, Ratio};
use crate::records::{CommentRecord, LikeRecord, PostRecord};
use crate::statistics::{anomaly_spec, AnomalyCheck, OnlineStatistic};

verus! {

/// An event examined for anomalies.
#[derive(Clone, Debug)]
pub enum AnomalyEvent {
    Post(PostRecord),
    Comment(CommentRecord),
    Like(LikeRecord),
}

/// The tracked metrics.
#[derive(Clone, Copy, Debug, PartialEq, Eq, Structural)]
pub enum Metric {
    PostUniqueWords,
    PostTagCount,
    CommentUniqueWords,
}

impl Metric {
    /// The metric's display name.
    pub fn name(&self) -> (r: &'static str)
        ensures
            r@ == match *self {
                Metric::PostUniqueWords => "Post - Unique Words"@,
                Metric::PostTagCount => "Post - Number of Tags"@,
                Metric::CommentUniqueWords => "Comment - Unique Words"@,
            },
    {
        match self {
            Metric::PostUniqueWords => "Post - Unique Words",
            Metric::PostTagCount => "Post - Number of Tags",
            Metric::CommentUniqueWords => "Comment - Unique Words",
        }
    }
}

/// One anomaly signal: who wrote the anomalous record, on which metric, the
/// signed deviation of the sample from the metric's mean, and the metric's
/// variance.  The signed number of standard deviations is
/// `deviation / sqrt(variance)`: its sign is the deviation's and its square
/// is the exact rational `deviation^2 / variance`.
#[derive(Clone, Copy, Debug, PartialEq, Eq, Structural)]
pub struct AnomalySignal {
    pub person_id: i32,
    pub metric: Metric,
    pub deviation: Ratio,
    pub variance: Ratio,
}

/// Per-worker anomaly engine: one independent estimator per metric.
pub struct AnomalyDetector {
    /// Standard-deviation multiplier above which a sample signals.
    pub threshold: Ratio,
    /// Smoothing constant of the unique-word ratio.
    pub alpha: Ratio,
    /// Count of samples whose metric value left the magnitude bound and was
    /// never handed to an estimator, for observability.
    pub skipped: u64,
    pub post_word_unique_stats: OnlineStatistic,
    pub num_tags_stats: OnlineStatistic,
    pub comment_word_unique_stats: OnlineStatistic,
}

/// The sample a statistic would take next, when it is representable.
pub open spec fn word_sample(text: Seq<char>, alpha: Rat) -> Rat {
    rat_norm(ratio_spec(text, alpha))
}

/// `a + 1`, stopping at the integer limit.
pub open spec fn sat_inc(a: u64) -> u64 {
    if a == u64::MAX {
        a
    } else {
        (a + 1) as u64
    }
}

impl AnomalyDetector {
    pub open spec fn inv(self) -> bool {
        &&& self.threshold.wf()
        &&& self.alpha.wf()
        &&& self.alpha@.num >= 0
        &&& self.post_word_unique_stats.inv()
        &&& self.num_tags_stats.inv()
        &&& self.comment_word_unique_stats.inv()
    }

    pub fn new(threshold: Ratio, alpha: Ratio, samples: u64) -> (d: AnomalyDetector)
        requires
            threshold.wf(),
            alpha.wf(),
            alpha@.num >= 0,
        ensures
            d.inv(),
            d.threshold == threshold,
            d.alpha == alpha,
            d.skipped == 0,
            d.post_word_unique_stats.samples@ == Seq::<Rat>::empty(),
            d.num_tags_stats.samples@ == Seq::<Rat>::empty(),
            d.comment_word_unique_stats.samples@ == Seq::<Rat>::empty(),
            d.post_word_unique_stats.min_count == samples,
            d.num_tags_stats.min_count == samples,
            d.comment_word_unique_stats.min_count == samples,
            d.post_word_unique_stats.refused == 0,
            d.num_tags_stats.refused == 0,
            d.comment_word_unique_stats.refused == 0,
    {
        AnomalyDetector {
            threshold,
            alpha,
            skipped: 0,
            post_word_unique_stats: OnlineStatistic::new(samples),
            num_tags_stats: OnlineStatistic::new(samples),
            comment_word_unique_stats: OnlineStatistic::new(samples),
        }
    }

    /// Checks one sample against one estimator and then incorporates it.
    /// A signal comes back exactly when the estimator was saturated, the
    /// exact arithmetic stayed in range, and the sample deviates beyond the
    /// threshold.
    fn track(
        stat: &mut OnlineStatistic,
        threshold: &Ratio,
        value: Ratio,
        person_id: i32,
        metric: Metric,
    ) -> (signal: Option<AnomalySignal>)
        requires
            old(stat).inv(),
            threshold.wf(),
            value.wf(),
        ensures
            final(stat).inv(),
            final(stat).min_count == old(stat).min_count,
            final(stat).samples@ == if old(stat).update_ok(value@) {
                old(stat).samples@.push(value@)
            } else {
                old(stat).samples@
            },
            final(stat).refused == if old(stat).update_ok(value@) {
                old(stat).refused
            } else {
                sat_inc(old(stat).refused)
            },
            match signal {
                Some(s) => {
                    &&& s.person_id == person_id
                    &&& s.metric == metric
                    &&& old(stat).saturated_spec()
                    &&& anomaly_spec(old(stat).samples@, threshold@, value@)
                },
                None => !old(stat).saturated_spec() || !old(stat).anomaly_check_ok(value@)
                    || !anomaly_spec(old(stat).samples@, threshold@, value@),
            },
            old(stat).saturated_spec() && old(stat).anomaly_check_ok(value@) && anomaly_spec(
                old(stat).samples@,
                threshold@,
                value@,
            ) ==> signal is Some,
            !old(stat).saturated_spec() ==> signal is None,
    {
        let verdict = stat.is_anomaly(threshold, &value);
        stat.update(value);
        match verdict {
            AnomalyCheck::Anomalous(d) => Some(
                AnomalySignal {
                    person_id,
                    metric,
                    deviation: d.deviation,
                    variance: d.variance,
                },
            ),
            _ => None,
        }
    }

    /// Examines one event: checks and incorporates the samples it carries
    /// and returns the signals raised.  A post contributes its unique-word
    /// ratio (when it has content) and its tag count; a comment its
    /// unique-word ratio; a like nothing.  A signal is raised if and only if
    /// a sample's estimator was saturated, the exact arithmetic stayed in
    /// range, and the sample deviates beyond the threshold; a sample the
    /// arithmetic cannot represent is counted in `skipped`.
    pub fn observe(&mut self, event: &AnomalyEvent) -> (signals: Vec<AnomalySignal>)
        requires
            old(self).inv(),
        ensures
            final(self).inv(),
            final(self).threshold == old(self).threshold,
            final(self).alpha == old(self).alpha,
            match *event {
                AnomalyEvent::Like(_) => *final(self) == *old(self) && signals@.len() == 0,
                AnomalyEvent::Comment(c) => {
                    let v = word_sample(c.content@, old(self).alpha@);
                    let stat = old(self).comment_word_unique_stats;
                    &&& final(self).post_word_unique_stats == old(self).post_word_unique_stats
                    &&& final(self).num_tags_stats == old(self).num_tags_stats
                    &&& signals@.len() <= 1
                    &&& (signals@.len() == 1 ==> {
                        &&& signals@[0].person_id == c.person_id
                        &&& signals@[0].metric == Metric::CommentUniqueWords
                        &&& rat_fits(v)
                        &&& stat.saturated_spec()
                        &&& anomaly_spec(stat.samples@, old(self).threshold@, v)
                    })
                    &&& (rat_fits(v) && stat.saturated_spec() && stat.anomaly_check_ok(v)
                        && anomaly_spec(stat.samples@, old(self).threshold@, v) ==> signals@.len()
                        == 1)
                    &&& (!rat_fits(v) ==> final(self).comment_word_unique_stats == stat
                        && signals@.len() == 0)
                    &&& (rat_fits(v) ==> final(self).comment_word_unique_stats.samples@ == if
                        stat.update_ok(v) {
                        stat.samples@.push(v)
                    } else {
                        stat.samples@
                    })
                    &&& (rat_fits(v) ==> final(self).comment_word_unique_stats.refused == if
                        stat.update_ok(v) {
                        stat.refused
                    } else {
                        sat_inc(stat.refused)
                    })
                    &&& final(self).skipped == if rat_fits(v) {
                        old(self).skipped
                    } else {
                        sat_inc(old(self).skipped)
                    }
                    &&& (!stat.saturated_spec() ==> signals@.len() == 0)
                },
                AnomalyEvent::Post(p) => {
                    let wv = word_sample(p.content->0@, old(self).alpha@);
                    let words_fit = p.content is Some && rat_fits(wv);
                    let wstat = old(self).post_word_unique_stats;
                    let tags_fit = p.tags@.len() <= 131072;
                    let tv = rat_of_int(p.tags@.len() as int);
                    let tstat = old(self).num_tags_stats;
                    &&& final(self).comment_word_unique_stats == old(
                        self,
                    ).comment_word_unique_stats
                    &&& signals@.len() <= 2
                    &&& (!words_fit ==> final(self).post_word_unique_stats == wstat)
                    &&& (words_fit ==> final(self).post_word_unique_stats.samples@ == if
                        wstat.update_ok(wv) {
                        wstat.samples@.push(wv)
                    } else {
                        wstat.samples@
                    })
                    &&& (!tags_fit ==> final(self).num_tags_stats == tstat)
                    &&& (tags_fit ==> final(self).num_tags_stats.samples@ == if tstat.update_ok(
                        tv,
                    ) {
                        tstat.samples@.push(tv)
                    } else {
                        tstat.samples@
                    })
                    &&& final(self).skipped == {
                        let after_words = if p.content is Some && !rat_fits(wv) {
                            sat_inc(old(self).skipped)
                        } else {
                            old(self).skipped
                        };
                        if !tags_fit {
                            sat_inc(after_words)
                        } else {
                            after_words
                        }
                    }
                    &&& (words_fit && wstat.saturated_spec() && wstat.anomaly_check_ok(wv)
                        && anomaly_spec(wstat.samples@, old(self).threshold@, wv) ==> exists|
                        i: int,
                    |
                        0 <= i < signals@.len() && (#[trigger] signals@[i]).metric
                            == Metric::PostUniqueWords)
                    &&& (tags_fit && tstat.saturated_spec() && tstat.anomaly_check_ok(tv)
                        && anomaly_spec(tstat.samples@, old(self).threshold@, tv) ==> exists|
                        i: int,
                    |
                        0 <= i < signals@.len() && (#[trigger] signals@[i]).metric
                            == Metric::PostTagCount)
                    &&& forall|i: int|
                        0 <= i < signals@.len() ==> {
                            let sig = #[trigger] signals@[i];
                            &&& sig.person_id == p.person_id
                            &&& sig.metric != Metric::CommentUniqueWords
                            &&& (sig.metric == Metric::PostUniqueWords ==> words_fit
                                && wstat.saturated_spec() && anomaly_spec(
                                wstat.samples@,
                                old(self).threshold@,
                                wv,
                            ))
                            &&& (sig.metric == Metric::PostTagCount ==> tags_fit
                                && tstat.saturated_spec() && anomaly_spec(
                                tstat.samples@,
                                old(self).threshold@,
                                tv,
                            ))
                        }
                },
            },
    {
        let mut signals: Vec<AnomalySignal> = Vec::new();
        match event {
            AnomalyEvent::Post(record) => {
                match &record.content {
                    Some(content) => {
                        match unique_words_per_word(content.as_str(), &self.alpha) {
                            Some(value) => {
                                let s = Self::track(
                                    &mut self.post_word_unique_stats,
                                    &self.threshold,
                                    value,
                                    record.person_id,
                                    Metric::PostUniqueWords,
                                );
                                match s {
                                    Some(sig) => {
                                        signals.push(sig);
                                        proof {
                                            assert(signals@[0].metric
                                                == Metric::PostUniqueWords);
                                        }
                                    },
                                    None => {},
                                }
                            },
                            None => {
                                if self.skipped < u64::MAX {
                                    self.skipped = self.skipped + 1;
                                }
                            },
                        }
                    },
                    None => {},
                }
                let ghost after_words = signals@;
                let n_tags = record.tags.len();
                let tag_value = if n_tags <= 131072 {
                    Ratio::from_int(n_tags as i64)
                } else {
                    None
                };
                match tag_value {
                    Some(value) => {
                        let s = Self::track(
                            &mut self.num_tags_stats,
                            &self.threshold,
                            value,
                            record.person_id,
                            Metric::PostTagCount,
                        );
                        match s {
                            Some(sig) => {
                                signals.push(sig);
                                proof {
                                    assert(signals@[signals@.len() - 1].metric
                                        == Metric::PostTagCount);
                                    assert(forall|i: int|
                                        0 <= i < after_words.len() ==> #[trigger] signals@[i]
                                            == after_words[i]);
                                }
                            },
                            None => {},
                        }
                    },
                    None => {
                        if self.skipped < u64::MAX {
                            self.skipped = self.skipped + 1;
                        }
                    },
                }
            },
            AnomalyEvent::Comment(record) => {
                match unique_words_per_word(record.content.as_str(), &self.alpha) {
                    Some(value) => {
                        let s = Self::track(
                            &mut self.comment_word_unique_stats,
                            &self.threshold,
                            value,
                            record.person_id,
                            Metric::CommentUniqueWords,
                        );
                        match s {
                            Some(sig) => {
                                signals.push(sig);
                            },
                            None => {},
                        }
                    },
                    None => {
                        if self.skipped < u64::MAX {
                            self.skipped = self.skipped + 1;
                        }
                    },
                }
            },
            AnomalyEvent::Like(_) => {},
        }
        signals
    }
}

} // verus!
