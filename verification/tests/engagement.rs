//! Engagement aggregator, watermark, and end-to-end pipeline tests.

use dspa::order::{CommentResolver, LikeResolver, MemoryStore};
use dspa::post_stats::{round_to_next, ActivePost, ActivePostEvent, PostStats, HR_12};
use dspa::records::{CommentRecord, LikeRecord, PostRecord, StreamEvent, Topic};
use dspa::watermark::WatermarkSource;

fn post(id: i32, person_id: i32, t: i64) -> PostRecord {
    PostRecord {
        id,
        person_id,
        creation_date: t,
        image_file: None,
        location_ip: String::new(),
        browser_used: String::new(),
        language: None,
        content: None,
        tags: Vec::new(),
        forum_id: 0,
        place_id: 0,
    }
}

fn comment(id: i32, person_id: i32, reply_to_post: Option<i32>, t: i64) -> CommentRecord {
    CommentRecord {
        id,
        person_id,
        creation_date: t,
        location_ip: String::new(),
        browser_used: String::new(),
        content: String::new(),
        reply_to_post_id: reply_to_post,
        reply_to_comment_id: None,
        place_id: 0,
    }
}

#[test]
fn watermark_advances_and_drops() {
    let mut wm = WatermarkSource::new(10);
    assert!(wm.observe(100));
    assert_eq!(wm.current_watermark(), 90);
    // too late: below the watermark
    assert!(!wm.observe(85));
    assert_eq!(wm.dropped(), 1);
    // on time, but does not advance the watermark
    assert!(wm.observe(95));
    assert_eq!(wm.current_watermark(), 90);
    assert!(wm.observe(200));
    assert_eq!(wm.current_watermark(), 190);
    wm.close();
    assert!(wm.is_closed());
    assert!(!wm.observe(500));
}

#[test]
fn watermark_never_decreases() {
    let times = [50u64, 10, 3000, 5, 2999, 100000, 7];
    let mut wm = WatermarkSource::new(100);
    let mut last = 0u64;
    for t in times.iter() {
        wm.observe(*t);
        assert!(wm.current_watermark() >= last);
        last = wm.current_watermark();
    }
}

#[test]
fn round_to_next_aligns_to_cadence() {
    assert_eq!(round_to_next(1800), 1800);
    assert_eq!(round_to_next(1801), 3600);
    assert_eq!(round_to_next(0), 0);
    assert_eq!(round_to_next(1), 1800);
    assert_eq!(dspa::recommendations::round_to_next(5, 10), 10);
    assert_eq!(dspa::recommendations::round_to_next(20, 10), 20);
}

#[test]
fn active_post_counts_distinct_users() {
    let mut p = ActivePost::new(1);
    p.update(ActivePostEvent::Comment { post_id: 1, person_id: 7 });
    p.update(ActivePostEvent::Like { post_id: 1, person_id: 7 });
    p.update(ActivePostEvent::Like { post_id: 1, person_id: 8 });
    assert_eq!(p.users.len(), 2);
    assert_eq!(p.comments, 1);
    assert_eq!(p.likes, 2);
}

#[test]
fn window_eviction_boundary() {
    let t0 = 100000u64;
    let mut stats = PostStats::new();
    // the aggregate's expiry lands exactly on t0
    stats.observe(
        ActivePostEvent::Like { post_id: 1, person_id: 5 },
        t0 - HR_12,
    );
    let snap = stats.sweep(t0 - 1);
    assert_eq!(snap.len(), 1);
    assert_eq!(snap[0].id, 1);
    let snap = stats.sweep(t0 + 1);
    assert!(snap.is_empty());
    // the id was seen and has expired: a stray event does not resurrect it
    stats.observe(
        ActivePostEvent::Like { post_id: 1, person_id: 6 },
        t0 + 2,
    );
    let snap = stats.sweep(t0 + 2);
    assert!(snap.is_empty());
}

#[test]
fn sweep_reschedules_only_while_active() {
    let mut stats = PostStats::new();
    assert_eq!(stats.next_sweep(100), None);
    stats.observe(ActivePostEvent::Like { post_id: 1, person_id: 5 }, 100);
    // the next cadence boundary strictly after 100
    assert_eq!(stats.next_sweep(100), Some(1800));
    assert_eq!(stats.next_sweep(1800), Some(3600));
    // once everything expired, no further sweep is scheduled
    stats.sweep(u64::MAX / 2);
    assert_eq!(stats.next_sweep(u64::MAX / 2), None);
}

#[test]
fn topic_names() {
    assert_eq!(Topic::Post.name(), "post");
    assert_eq!(Topic::Comment.name(), "comment");
    assert_eq!(Topic::Like.name(), "like");
    assert_eq!(Topic::EOS.name(), "eos");
}

#[test]
fn stream_event_projection() {
    let e = StreamEvent::from(post(1, 10, 42));
    assert_eq!(e.id(), Some(1));
    assert_eq!(e.timestamp(), 42);
    let e = StreamEvent::from(LikeRecord { person_id: 3, post_id: 1, creation_date: 7 });
    assert_eq!(e.id(), None);
    assert_eq!(e.timestamp(), 7);
}

/// End-to-end: a post, a comment on it and a like of it delivered in
/// reverse order come out only once the post has arrived, and the
/// engagement snapshot reports both engaging users.
#[test]
fn end_to_end_reverse_delivery() {
    let p = post(1, 10, 1000);
    let c = comment(2, 11, Some(1), 2000);
    let l = LikeRecord { person_id: 12, post_id: 1, creation_date: 3000 };

    let mut wm = WatermarkSource::new(86400);
    let mut store = MemoryStore::new();
    let mut comments = CommentResolver::new(0, 1);
    let mut likes = LikeResolver::new();
    let mut stats = PostStats::new();
    let mut engagement: Vec<ActivePostEvent> = Vec::new();

    // the like arrives first: admitted by the watermark, buffered unresolved
    assert!(wm.observe(l.creation_date as u64));
    assert!(likes.on_like(l, store.like_resolvable(&LikeRecord {
        person_id: 12,
        post_id: 1,
        creation_date: 3000,
    })).is_none());

    // the comment arrives second: buffered unresolved
    assert!(wm.observe(c.creation_date as u64));
    store.insert_comment(c.clone());
    let outcome = store.available_parent(&c);
    assert!(comments.on_comment(c, outcome).is_empty());
    assert!(engagement.is_empty());

    // the post arrives last and both children are released
    assert!(wm.observe(p.creation_date as u64));
    store.insert_post(p.id);
    let freed_comments = comments.on_post(p.id);
    let freed_likes = likes.on_post(p.id);
    assert_eq!(freed_comments.len(), 1);
    assert_eq!(freed_comments[0].id, 2);
    assert_eq!(freed_likes.len(), 1);
    assert_eq!(freed_likes[0].person_id, 12);

    for fc in freed_comments.iter() {
        let root = store.root(fc).unwrap();
        engagement.push(ActivePostEvent::Comment { post_id: root, person_id: fc.person_id });
    }
    for fl in freed_likes.iter() {
        engagement.push(ActivePostEvent::Like { post_id: fl.post_id, person_id: fl.person_id });
    }
    let now = wm.current_watermark();
    for e in engagement.iter() {
        stats.observe(*e, now);
    }
    let snap = stats.sweep(now);
    assert_eq!(snap.len(), 1);
    assert_eq!(snap[0].id, 1);
    assert_eq!(snap[0].distinct_users, 2);
    assert_eq!(snap[0].comments, 1);
    assert_eq!(snap[0].likes, 1);
}
