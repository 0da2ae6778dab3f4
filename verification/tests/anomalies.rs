//! Anomaly detector tests.

use dspa::anomalies::{AnomalyDetector, AnomalyEvent, Metric};
use dspa::ratio::Ratio;
use dspa::records::{CommentRecord, LikeRecord, PostRecord};

fn comment_with(content: &str) -> CommentRecord {
    CommentRecord {
        id: 1,
        person_id: 42,
        creation_date: 0,
        location_ip: String::new(),
        browser_used: String::new(),
        content: content.to_string(),
        reply_to_post_id: Some(1),
        reply_to_comment_id: None,
        place_id: 0,
    }
}

fn post_with_tags(tags: Vec<i32>) -> PostRecord {
    PostRecord {
        id: 1,
        person_id: 42,
        creation_date: 0,
        image_file: None,
        location_ip: String::new(),
        browser_used: String::new(),
        language: None,
        content: None,
        tags,
        forum_id: 0,
        place_id: 0,
    }
}

fn detector(min_count: u64) -> AnomalyDetector {
    AnomalyDetector::new(
        Ratio::from_int(3).unwrap(),
        Ratio::from_int(0).unwrap(),
        min_count,
    )
}

#[test]
fn comment_metric_signals_after_saturation() {
    let mut d = detector(2);
    // two ordinary comments saturate the estimator at ratio 1
    assert!(d.observe(&AnomalyEvent::Comment(comment_with("a b"))).is_empty());
    assert!(d.observe(&AnomalyEvent::Comment(comment_with("c d"))).is_empty());
    // a repetitive comment is far off the mean
    let signals = d.observe(&AnomalyEvent::Comment(comment_with("a a a a")));
    assert_eq!(signals.len(), 1);
    assert_eq!(signals[0].person_id, 42);
    assert_eq!(signals[0].metric, Metric::CommentUniqueWords);
    // ratio 1/4 against mean 1: the signed deviation is -3/4
    assert_eq!(signals[0].deviation, Ratio::new(-3, 4).unwrap());
    assert_eq!(signals[0].variance, Ratio::new(0, 1).unwrap());
}

#[test]
fn no_signal_below_min_count() {
    let mut d = detector(100);
    for _ in 0..5 {
        let signals = d.observe(&AnomalyEvent::Comment(comment_with("a a a a a a")));
        assert!(signals.is_empty());
    }
}

#[test]
fn tag_count_metric_tracks_posts() {
    let mut d = detector(2);
    assert!(d.observe(&AnomalyEvent::Post(post_with_tags(vec![1]))).is_empty());
    assert!(d.observe(&AnomalyEvent::Post(post_with_tags(vec![2]))).is_empty());
    let signals = d.observe(&AnomalyEvent::Post(post_with_tags(vec![1, 2, 3, 4, 5, 6])));
    assert_eq!(signals.len(), 1);
    assert_eq!(signals[0].metric, Metric::PostTagCount);
    assert_eq!(signals[0].deviation, Ratio::new(5, 1).unwrap());
    assert_eq!(signals[0].variance, Ratio::new(0, 1).unwrap());
}

#[test]
fn likes_carry_no_metric() {
    let mut d = detector(0);
    let signals = d.observe(&AnomalyEvent::Like(LikeRecord {
        person_id: 1,
        post_id: 1,
        creation_date: 0,
    }));
    assert!(signals.is_empty());
}

#[test]
fn metric_names() {
    assert_eq!(Metric::PostUniqueWords.name(), "Post - Unique Words");
    assert_eq!(Metric::PostTagCount.name(), "Post - Number of Tags");
    assert_eq!(Metric::CommentUniqueWords.name(), "Comment - Unique Words");
}

#[test]
fn unrepresentable_samples_are_counted() {
    let mut d = detector(1000);
    assert_eq!(d.skipped, 0);
    // many tokens, but the ratio reduces and is representable
    let mut text = String::new();
    for i in 0..400u32 {
        text.push_str(&format!("w{} ", i));
    }
    d.observe(&AnomalyEvent::Comment(comment_with(&text)));
    assert_eq!(d.skipped, 0);
    // a reduced denominator beyond the magnitude bound: counted, not lost
    let big = "a ".repeat(200000);
    d.observe(&AnomalyEvent::Comment(comment_with(&big)));
    assert_eq!(d.skipped, 1);
    assert_eq!(d.comment_word_unique_stats.count, 1);
}
