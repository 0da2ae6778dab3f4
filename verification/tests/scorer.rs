//! Co-occurrence scorer, sliding window, metrics and map tests.

use dspa::idmap::IdMap;
use dspa::metrics::unique_words_per_word;
use dspa::ratio::Ratio;
use dspa::recommendations::{
    recommendations, recommendations_for, score_between, Projection, RecommendationEvent, Window,
};
use dspa::records::LikeRecord;

fn touch(person_id: i32, post_id: i32) -> Projection {
    Projection {
        person_id,
        post_id: Some(post_id),
        forum_id: None,
        place_id: None,
    }
}

#[test]
fn scores_count_shared_item_pairs() {
    let events = vec![touch(100, 5), touch(200, 5), touch(200, 5), touch(300, 6)];
    // one event by 100 and two by 200 on post 5: two co-occurring pairs
    assert_eq!(score_between(&events, 100, 200), 2);
    assert_eq!(score_between(&events, 100, 300), 0);
}

#[test]
fn scores_accumulate_across_dimensions() {
    let a = Projection {
        person_id: 1,
        post_id: Some(5),
        forum_id: Some(7),
        place_id: Some(9),
    };
    let b = Projection {
        person_id: 2,
        post_id: Some(5),
        forum_id: Some(7),
        place_id: Some(8),
    };
    let events = vec![a, b];
    assert_eq!(score_between(&events, 1, 2), 2);
}

#[test]
fn connected_user_never_recommended() {
    // candidate 200 has by far the highest overlap but is already connected
    let events = vec![
        touch(100, 5),
        touch(200, 5),
        touch(200, 5),
        touch(200, 5),
        touch(300, 5),
    ];
    let friends = vec![200];
    let out = recommendations_for(&events, 100, &friends);
    assert_eq!(out, vec![300]);
}

#[test]
fn ranking_orders_by_score_then_id() {
    let events = vec![
        touch(100, 5),
        touch(9, 5),
        touch(7, 5),
        touch(4, 5),
        touch(4, 5),
    ];
    let out = recommendations_for(&events, 100, &Vec::new());
    // 4 scores twice, 7 and 9 tie and order by ascending id
    assert_eq!(out, vec![4, 7, 9]);
}

#[test]
fn top_five_keeps_only_five() {
    let mut events = vec![touch(100, 5)];
    for v in 1..=8 {
        events.push(touch(v, 5));
    }
    let out = recommendations_for(&events, 100, &Vec::new());
    assert_eq!(out, vec![1, 2, 3, 4, 5]);
}

#[test]
fn target_itself_is_never_listed() {
    let events = vec![touch(100, 5), touch(100, 5), touch(300, 5)];
    let out = recommendations_for(&events, 100, &Vec::new());
    assert_eq!(out, vec![300]);
}

#[test]
fn batch_covers_every_target() {
    let events = vec![touch(100, 5), touch(200, 5), touch(300, 5)];
    let targets = vec![100, 200];
    let mut friends: IdMap<Vec<i32>> = IdMap::new();
    friends.insert(200, vec![300]);
    let out = recommendations(&events, &targets, &friends);
    assert_eq!(out.len(), 2);
    assert_eq!(out[0].0, 100);
    assert_eq!(out[0].1, vec![200, 300]);
    assert_eq!(out[1].0, 200);
    assert_eq!(out[1].1, vec![100]);
}

#[test]
fn window_drops_old_buckets() {
    let mut w = Window::new();
    let like = |p: i32| {
        RecommendationEvent::Like(LikeRecord {
            person_id: 1,
            post_id: p,
            creation_date: 0,
        })
    };
    w.insert(10, like(1));
    w.insert(49, like(2));
    w.insert(50, like(3));
    w.insert(100, like(4));
    // cutoff is watermark - size = 50: bucket 49 is dropped, 50 survives
    let remaining = w.tick(100, 50);
    assert!(remaining);
    assert_eq!(w.events.len(), 2);
    assert_eq!(w.events[0].0, 50);
    assert_eq!(w.events[1].0, 100);
    let remaining = w.tick(100000, 50);
    assert!(!remaining);
    assert!(w.events.is_empty());
}

#[test]
fn unique_word_ratio_smoothing() {
    let alpha3 = Ratio::from_int(3).unwrap();
    let alpha0 = Ratio::from_int(0).unwrap();
    // empty text: ratio 1 under smoothing
    let r = unique_words_per_word("", &alpha3).unwrap();
    assert_eq!(r, Ratio::new(1, 1).unwrap());
    // "a a a": one distinct token of three
    let r = unique_words_per_word("a a a", &alpha0).unwrap();
    assert_eq!(r, Ratio::new(1, 3).unwrap());
}

#[test]
fn unique_word_ratio_strips_punctuation() {
    let alpha0 = Ratio::from_int(0).unwrap();
    // "a, a! b" strips to "a a b": three tokens, two distinct
    let r = unique_words_per_word("a, a! b", &alpha0).unwrap();
    assert_eq!(r, Ratio::new(2, 3).unwrap());
    let r = unique_words_per_word("one two two", &Ratio::from_int(1).unwrap()).unwrap();
    assert_eq!(r, Ratio::new(3, 4).unwrap());
}

#[test]
fn idmap_insert_get_remove() {
    let mut m: IdMap<u64> = IdMap::new();
    assert!(m.is_empty());
    m.insert(3, 30);
    m.insert(5, 50);
    assert_eq!(m.len(), 2);
    assert_eq!(m.get(3), Some(&30));
    assert_eq!(m.get(4), None);
    assert_eq!(m.remove(3), Some(30));
    assert_eq!(m.get(3), None);
    assert_eq!(m.remove(3), None);
    assert_eq!(m.get(5), Some(&50));
}
