//! Dependency resolver tests: ordering of comment chains and likes.

use dspa::order::{AncestorOutcome, CommentResolver, LikeResolver, MemoryStore};
use dspa::records::{CommentRecord, LikeRecord, ParentId};

fn comment(id: i32, person_id: i32, reply_to_post: Option<i32>, reply_to_comment: Option<i32>) -> CommentRecord {
    CommentRecord {
        id,
        person_id,
        creation_date: 0,
        location_ip: String::new(),
        browser_used: String::new(),
        content: String::new(),
        reply_to_post_id: reply_to_post,
        reply_to_comment_id: reply_to_comment,
        place_id: 0,
    }
}

fn like(person_id: i32, post_id: i32) -> LikeRecord {
    LikeRecord {
        person_id,
        post_id,
        creation_date: 0,
    }
}

/// Delivers the three-comment chain `post -> c1 -> c2 -> c3` with the post
/// last, in the given child order, and checks that nothing is emitted before
/// the post and that the flush emits parents before children.
fn run_chain_permutation(order: [i32; 3]) {
    let mut store = MemoryStore::new();
    let mut resolver = CommentResolver::new(0, 1);
    let c1 = comment(10, 1, Some(1), None);
    let c2 = comment(20, 2, None, Some(10));
    let c3 = comment(30, 3, None, Some(20));
    for id in order.iter() {
        let c = match id {
            10 => c1.clone(),
            20 => c2.clone(),
            _ => c3.clone(),
        };
        store.insert_comment(c.clone());
        let outcome = store.available_parent(&c);
        let emitted = resolver.on_comment(c, outcome);
        assert!(emitted.is_empty(), "no comment may be emitted before its post");
    }
    store.insert_post(1);
    let emitted = resolver.on_post(1);
    let ids: Vec<i32> = emitted.iter().map(|c| c.id).collect();
    assert_eq!(ids, vec![10, 20, 30]);
}

#[test]
fn chain_all_permutations() {
    run_chain_permutation([10, 20, 30]);
    run_chain_permutation([10, 30, 20]);
    run_chain_permutation([20, 10, 30]);
    run_chain_permutation([20, 30, 10]);
    run_chain_permutation([30, 10, 20]);
    run_chain_permutation([30, 20, 10]);
}

#[test]
fn post_first_children_emit_on_arrival() {
    let mut store = MemoryStore::new();
    let mut resolver = CommentResolver::new(0, 1);
    store.insert_post(1);
    resolver.on_post(1);
    // c2 arrives before its parent comment c1: buffered
    let c2 = comment(20, 2, None, Some(10));
    store.insert_comment(c2.clone());
    let outcome = store.available_parent(&c2);
    assert_eq!(outcome, AncestorOutcome::Unresolved);
    assert!(resolver.on_comment(c2, outcome).is_empty());
    // c1 arrives, chain resolves, and c2 follows it out
    let c1 = comment(10, 1, Some(1), None);
    store.insert_comment(c1.clone());
    let outcome = store.available_parent(&c1);
    assert_eq!(outcome, AncestorOutcome::RootPost(1));
    let emitted = resolver.on_comment(c1, outcome);
    let ids: Vec<i32> = emitted.iter().map(|c| c.id).collect();
    assert_eq!(ids, vec![10, 20]);
}

#[test]
fn ownership_filters_comments() {
    // two workers: comment 11 belongs to worker 1, not worker 0
    let mut store = MemoryStore::new();
    let mut resolver = CommentResolver::new(0, 2);
    store.insert_post(1);
    let c = comment(11, 5, Some(1), None);
    store.insert_comment(c.clone());
    let outcome = store.available_parent(&c);
    assert_eq!(outcome, AncestorOutcome::RootPost(1));
    let emitted = resolver.on_comment(c, outcome);
    assert!(emitted.is_empty());
    // the even comment is owned by worker 0
    let c = comment(12, 5, Some(1), None);
    store.insert_comment(c.clone());
    let outcome = store.available_parent(&c);
    let emitted = resolver.on_comment(c, outcome);
    assert_eq!(emitted.len(), 1);
    assert_eq!(emitted[0].id, 12);
}

#[test]
fn malformed_comment_is_counted_and_skipped() {
    let store = MemoryStore::new();
    let mut resolver = CommentResolver::new(0, 1);
    let c = comment(10, 1, None, None);
    assert_eq!(c.parent_id(), None);
    let outcome = store.available_parent(&c);
    let emitted = resolver.on_comment(c, outcome);
    assert!(emitted.is_empty());
    assert_eq!(resolver.malformed, 1);
}

#[test]
fn parent_id_prefers_post_reference() {
    let c = comment(10, 1, Some(7), Some(8));
    assert_eq!(c.parent_id(), Some(ParentId::Post(7)));
    let c = comment(10, 1, None, Some(8));
    assert_eq!(c.parent_id(), Some(ParentId::Comment(8)));
}

#[test]
fn likes_buffer_until_post() {
    let mut store = MemoryStore::new();
    let mut resolver = LikeResolver::new();
    let l1 = like(5, 1);
    let resolvable = store.like_resolvable(&l1);
    assert!(!resolvable);
    assert!(resolver.on_like(l1, resolvable).is_none());
    let l2 = like(6, 1);
    let resolvable = store.like_resolvable(&l2);
    assert!(resolver.on_like(l2, resolvable).is_none());
    store.insert_post(1);
    let flushed = resolver.on_post(1);
    let people: Vec<i32> = flushed.iter().map(|l| l.person_id).collect();
    assert_eq!(people, vec![5, 6]);
    // a like arriving after its post passes straight through
    let l3 = like(7, 1);
    let out = resolver.on_like(l3, store.like_resolvable(&like(7, 1)));
    assert_eq!(out.unwrap().person_id, 7);
}

#[test]
fn root_walks_the_whole_chain() {
    let mut store = MemoryStore::new();
    store.insert_post(1);
    let c1 = comment(10, 1, Some(1), None);
    store.insert_comment(c1.clone());
    let c2 = comment(20, 2, None, Some(10));
    store.insert_comment(c2.clone());
    assert_eq!(store.root(&c2), Some(1));
    let orphan = comment(30, 3, None, Some(99));
    assert_eq!(store.root(&orphan), None);
}
