//! Co-occurrence recommendation scorer and its sliding window.
//!
//! Over the events retained by the window, two users co-occur once for every
//! pair of their events that touches the same post, the same forum, or the
//! same place.  For each target user the candidates are ranked by descending
//! co-occurrence score, ties broken by ascending id, users already connected
//! to the target are excluded, and the five best are reported.

use vstd::prelude::*;
use vstd::seq_lib::group_to_multiset_ensures;

use crate::idmap::IdMap;
use crate::records::{CommentRecord, LikeRecord, PostRecord};

verus! {

/// The number of similar users reported per target.
pub const TOP_N: usize = 5;

/// Cap on the number of window events scored in one batch.
pub const EVENT_LIMIT: usize = 0x100000;

/// An event retained for recommendation scoring.
#[derive(Clone, Debug)]
pub enum RecommendationEvent {
    Post(PostRecord),
    Comment(CommentRecord),
    Like(LikeRecord),
}

impl RecommendationEvent {
    pub open spec fn user_spec(self) -> i32 {
        match self {
            RecommendationEvent::Post(record) => record.person_id,
            RecommendationEvent::Comment(record) => record.person_id,
            RecommendationEvent::Like(record) => record.person_id,
        }
    }

    /// The acting user of the event.
    pub fn user(&self) -> (r: i32)
        ensures
            r == self.user_spec(),
    {
        match self {
            RecommendationEvent::Post(record) => record.person_id,
            RecommendationEvent::Comment(record) => record.person_id,
            RecommendationEvent::Like(record) => record.person_id,
        }
    }
}

/// The item coordinates of one event: which post, forum and place it
/// touches, and by whom.
#[derive(Clone, Copy, Debug, PartialEq, Eq, Structural)]
pub struct Projection {
    pub person_id: i32,
    pub post_id: Option<i32>,
    pub forum_id: Option<i32>,
    pub place_id: Option<i32>,
}

impl Projection {
    /// The projection of a post: its own id, forum and place.
    pub fn of_post(p: &PostRecord) -> (r: Projection)
        ensures
            r == (Projection {
                person_id: p.person_id,
                post_id: Some(p.id),
                forum_id: Some(p.forum_id),
                place_id: Some(p.place_id),
            }),
    {
        Projection {
            person_id: p.person_id,
            post_id: Some(p.id),
            forum_id: Some(p.forum_id),
            place_id: Some(p.place_id),
        }
    }

    /// The projection of a comment: its resolved root post and its own
    /// place; the forum is unknown.
    pub fn of_comment(c: &CommentRecord, root_post: Option<i32>) -> (r: Projection)
        ensures
            r == (Projection {
                person_id: c.person_id,
                post_id: root_post,
                forum_id: None::<i32>,
                place_id: Some(c.place_id),
            }),
    {
        Projection {
            person_id: c.person_id,
            post_id: root_post,
            forum_id: None,
            place_id: Some(c.place_id),
        }
    }

    /// The projection of a like: only the liked post.
    pub fn of_like(l: &LikeRecord) -> (r: Projection)
        ensures
            r == (Projection {
                person_id: l.person_id,
                post_id: Some(l.post_id),
                forum_id: None::<i32>,
                place_id: None::<i32>,
            }),
    {
        Projection { person_id: l.person_id, post_id: Some(l.post_id), forum_id: None, place_id: None }
    }
}

/// The next tick instant at or after `current` on a cadence of `multiple`.
pub fn round_to_next(current: u64, multiple: u64) -> (r: u64)
    requires
        1 <= multiple,
        current <= u64::MAX - multiple,
    ensures
        r == if current % multiple == 0 {
            current
        } else {
            (current + multiple - current % multiple) as u64
        },
        r % multiple == 0,
        current <= r < current + multiple,
{
    let rem = current % multiple;
    proof {
        vstd::arithmetic::div_mod::lemma_fundamental_div_mod(current as int, multiple as int);
        if rem != 0 {
            let q = current as int / multiple as int;
            assert(current + multiple - rem == (q + 1) * multiple) by (nonlinear_arith)
                requires
                    current as int == multiple as int * q + rem,
            ;
            vstd::arithmetic::div_mod::lemma_fundamental_div_mod_converse(
                current as int + multiple - rem,
                multiple as int,
                q + 1,
                0,
            );
        }
    }
    if rem == 0 {
        current
    } else {
        current + (multiple - rem)
    }
}

/// Both events name this dimension and name the same item.
pub open spec fn opt_match(a: Option<i32>, b: Option<i32>) -> bool {
    a is Some && b is Some && a->0 == b->0
}

/// How many of the three item dimensions two events share.
pub open spec fn pair_score(a: Projection, b: Projection) -> int {
    (if opt_match(a.post_id, b.post_id) {
        1int
    } else {
        0int
    }) + (if opt_match(a.forum_id, b.forum_id) {
        1int
    } else {
        0int
    }) + (if opt_match(a.place_id, b.place_id) {
        1int
    } else {
        0int
    })
}

/// Shared dimensions of `e` against every event of `v` in `all`.
pub open spec fn row_score(all: Seq<Projection>, e: Projection, v: i32) -> int
    decreases all.len(),
{
    if all.len() == 0 {
        0
    } else {
        row_score(all.drop_last(), e, v) + if all.last().person_id == v {
            pair_score(e, all.last())
        } else {
            0
        }
    }
}

pub open spec fn score_prefix(all: Seq<Projection>, pref: Seq<Projection>, u: i32, v: i32) -> int
    decreases pref.len(),
{
    if pref.len() == 0 {
        0
    } else {
        score_prefix(all, pref.drop_last(), u, v) + if pref.last().person_id == u {
            row_score(all, pref.last(), v)
        } else {
            0
        }
    }
}

/// Co-occurrence score of users `u` and `v`: the number of pairs of one
/// event by `u` and one event by `v` that share an item, counted once per
/// shared dimension.
pub open spec fn score(all: Seq<Projection>, u: i32, v: i32) -> int {
    score_prefix(all, all, u, v)
}

proof fn lemma_row_bounds(all: Seq<Projection>, e: Projection, v: i32)
    ensures
        0 <= row_score(all, e, v) <= 3 * all.len(),
    decreases all.len(),
{
    if all.len() > 0 {
        lemma_row_bounds(all.drop_last(), e, v);
    }
}

proof fn lemma_score_bounds(all: Seq<Projection>, pref: Seq<Projection>, u: i32, v: i32)
    ensures
        0 <= score_prefix(all, pref, u, v) <= 3 * all.len() * pref.len(),
    decreases pref.len(),
{
    if pref.len() > 0 {
        lemma_score_bounds(all, pref.drop_last(), u, v);
        lemma_row_bounds(all, pref.last(), v);
        assert(3 * all.len() * (pref.len() - 1) + 3 * all.len() == 3 * all.len() * pref.len())
            by (nonlinear_arith);
    }
}

/// A positive score names an actual author: some event of `all` is by `v`.
proof fn lemma_row_author(all: Seq<Projection>, e: Projection, v: i32)
    requires
        row_score(all, e, v) > 0,
    ensures
        exists|k: int| 0 <= k < all.len() && all[k].person_id == v,
    decreases all.len(),
{
    if all.len() > 0 {
        if all.last().person_id == v {
            assert(all[all.len() - 1].person_id == v);
        } else {
            lemma_row_author(all.drop_last(), e, v);
            let k = choose|k: int|
                0 <= k < all.drop_last().len() && all.drop_last()[k].person_id == v;
            assert(all[k].person_id == v);
        }
    }
}

proof fn lemma_score_author(all: Seq<Projection>, pref: Seq<Projection>, u: i32, v: i32)
    requires
        score_prefix(all, pref, u, v) > 0,
    ensures
        exists|k: int| 0 <= k < all.len() && all[k].person_id == v,
    decreases pref.len(),
{
    if pref.len() > 0 {
        lemma_score_bounds(all, pref.drop_last(), u, v);
        lemma_row_bounds(all, pref.last(), v);
        if pref.last().person_id == u && row_score(all, pref.last(), v) > 0 {
            lemma_row_author(all, pref.last(), v);
        } else {
            lemma_score_author(all, pref.drop_last(), u, v);
        }
    }
}

fn pair_score_exec(a: &Projection, b: &Projection) -> (r: u64)
    ensures
        r == pair_score(*a, *b),
        r <= 3,
{
    let mut r: u64 = 0;
    match (a.post_id, b.post_id) {
        (Some(x), Some(y)) => {
            if x == y {
                r = r + 1;
            }
        },
        _ => {},
    }
    match (a.forum_id, b.forum_id) {
        (Some(x), Some(y)) => {
            if x == y {
                r = r + 1;
            }
        },
        _ => {},
    }
    match (a.place_id, b.place_id) {
        (Some(x), Some(y)) => {
            if x == y {
                r = r + 1;
            }
        },
        _ => {},
    }
    r
}

fn row_score_exec(events: &Vec<Projection>, e: &Projection, v: i32) -> (r: u64)
    requires
        events@.len() <= EVENT_LIMIT,
    ensures
        r == row_score(events@, *e, v),
{
    let n = events.len();
    let mut acc: u64 = 0;
    let mut k: usize = 0;
    proof {
        assert(events@.take(0) =~= Seq::<Projection>::empty());
    }
    while k < n
        invariant
            n == events@.len(),
            n <= EVENT_LIMIT,
            0 <= k <= n,
            acc == row_score(events@.take(k as int), *e, v),
        decreases n - k,
    {
        proof {
            lemma_row_bounds(events@.take(k as int), *e, v);
            assert(events@.take(k as int + 1).drop_last() =~= events@.take(k as int));
            assert(events@.take(k as int + 1).last() == events@[k as int]);
        }
        if events[k].person_id == v {
            acc = acc + pair_score_exec(e, &events[k]);
        }
        k = k + 1;
    }
    proof {
        assert(events@.take(n as int) =~= events@);
    }
    acc
}

/// The exact co-occurrence score of `target` and `candidate` over the
/// events of one batch.
pub fn score_between(events: &Vec<Projection>, target: i32, candidate: i32) -> (r: u64)
    requires
        events@.len() <= EVENT_LIMIT,
    ensures
        r == score(events@, target, candidate),
{
    let n = events.len();
    let mut acc: u64 = 0;
    let mut j: usize = 0;
    proof {
        assert(events@.take(0) =~= Seq::<Projection>::empty());
    }
    while j < n
        invariant
            n == events@.len(),
            n <= EVENT_LIMIT,
            0 <= j <= n,
            acc == score_prefix(events@, events@.take(j as int), target, candidate),
        decreases n - j,
    {
        proof {
            lemma_score_bounds(events@, events@.take(j as int), target, candidate);
            lemma_row_bounds(events@, events@[j as int], candidate);
            assert(3 * events@.len() * events@.take(j as int).len() <= 0x300000000000)
                by (nonlinear_arith)
                requires
                    events@.len() <= 0x100000,
                    events@.take(j as int).len() <= events@.len(),
            ;
            assert(events@.take(j as int + 1).drop_last() =~= events@.take(j as int));
            assert(events@.take(j as int + 1).last() == events@[j as int]);
        }
        if events[j].person_id == target {
            let row = row_score_exec(events, &events[j], candidate);
            acc = acc + row;
        }
        j = j + 1;
    }
    proof {
        assert(events@.take(n as int) =~= events@);
    }
    acc
}

/// A user the scorer may recommend to `target`: someone else, not already
/// connected, with at least one co-occurrence.
pub open spec fn eligible(all: Seq<Projection>, friends: Seq<i32>, target: i32, v: i32) -> bool {
    &&& v != target
    &&& !friends.contains(v)
    &&& score(all, target, v) >= 1
}

/// Candidate `a` outranks candidate `b` for `target`: higher score, or the
/// same score and the smaller id.
pub open spec fn outranks(all: Seq<Projection>, target: i32, a: i32, b: i32) -> bool {
    ||| score(all, target, a) > score(all, target, b)
    ||| (score(all, target, a) == score(all, target, b) && a < b)
}

/// `out` is the ranked top-five list for `target`: at most five eligible
/// users in strictly descending rank, every eligible user left out is
/// outranked by every listed one, and fewer than five are listed only when
/// no other user is eligible.
pub open spec fn is_top_five(
    all: Seq<Projection>,
    friends: Seq<i32>,
    target: i32,
    out: Seq<i32>,
) -> bool {
    &&& out.len() <= TOP_N
    &&& forall|i: int| 0 <= i < out.len() ==> eligible(all, friends, target, #[trigger] out[i])
    &&& forall|i: int, j: int|
        0 <= i < j < out.len() ==> outranks(all, target, out[i], out[j])
    &&& forall|v: i32|
        eligible(all, friends, target, v) && !out.contains(v) ==> forall|i: int|
            0 <= i < out.len() ==> outranks(all, target, #[trigger] out[i], v)
    &&& (out.len() < TOP_N ==> forall|v: i32|
        eligible(all, friends, target, v) ==> out.contains(v))
}

fn contains_i32(s: &Vec<i32>, x: i32) -> (r: bool)
    ensures
        r == s@.contains(x),
{
    let n = s.len();
    let mut i: usize = 0;
    while i < n
        invariant
            n == s@.len(),
            0 <= i <= n,
            forall|j: int| 0 <= j < i ==> s@[j] != x,
        decreases n - i,
    {
        if s[i] == x {
            return true;
        }
        i = i + 1;
    }
    false
}

/// The distinct authors of the events, in first-appearance order.
fn authors_of(events: &Vec<Projection>) -> (authors: Vec<i32>)
    ensures
        forall|i: int, j: int| 0 <= i < j < authors@.len() ==> authors@[i] != authors@[j],
        forall|k: int|
            0 <= k < events@.len() ==> authors@.contains(#[trigger] events@[k].person_id),
    {
    let n = events.len();
    let mut authors: Vec<i32> = Vec::new();
    let mut k: usize = 0;
    while k < n
        invariant
            n == events@.len(),
            0 <= k <= n,
            forall|i: int, j: int| 0 <= i < j < authors@.len() ==> authors@[i] != authors@[j],
            forall|t: int|
                0 <= t < k ==> authors@.contains(#[trigger] events@[t].person_id),
        decreases n - k,
    {
        let a = events[k].person_id;
        if !contains_i32(&authors, a) {
            let ghost before = authors@;
            authors.push(a);
            proof {
                assert(authors@.last() == a);
                assert(events@[k as int].person_id == a);
                assert forall|t: int| 0 <= t < k + 1 implies authors@.contains(
                    #[trigger] events@[t].person_id,
                ) by {
                    if t < k {
                        let w = choose|w: int|
                            0 <= w < before.len() && before[w] == events@[t].person_id;
                        assert(authors@[w] == events@[t].person_id);
                    } else {
                        assert(authors@[authors@.len() - 1] == events@[t].person_id);
                    }
                }
            }
        }
        k = k + 1;
    }
    authors
}

/// The ranked recommendation list for one target user.  Excludes the target
/// itself and every user already connected to it, ranks the rest by exact
/// co-occurrence score with ascending-id tie-break, and keeps the top five.
#[verifier::rlimit(60)]
pub fn recommendations_for(events: &Vec<Projection>, target: i32, friends: &Vec<i32>) -> (out: Vec<
    i32,
>)
    requires
        events@.len() <= EVENT_LIMIT,
    ensures
        is_top_five(events@, friends@, target, out@),
{
    broadcast use group_to_multiset_ensures;

    let authors = authors_of(events);
    let na = authors.len();
    // score every eligible candidate
    let mut pairs: Vec<(i32, u64)> = Vec::new();
    let mut i: usize = 0;
    while i < na
        invariant
            na == authors@.len(),
            0 <= i <= na,
            events@.len() <= EVENT_LIMIT,
            forall|a: int, b: int| 0 <= a < b < authors@.len() ==> authors@[a] != authors@[b],
            forall|a: int, b: int|
                0 <= a < b < pairs@.len() ==> (#[trigger] pairs@[a]).0 != (#[trigger] pairs@[b]).0,
            forall|a: int|
                0 <= a < pairs@.len() ==> {
                    let p = #[trigger] pairs@[a];
                    &&& p.1 == score(events@, target, p.0)
                    &&& eligible(events@, friends@, target, p.0)
                },
            forall|a: int|
                0 <= a < pairs@.len() ==> exists|t: int|
                    0 <= t < i && authors@[t] == (#[trigger] pairs@[a]).0,
            forall|t: int|
                0 <= t < i && eligible(events@, friends@, target, #[trigger] authors@[t])
                    ==> exists|b: int| 0 <= b < pairs@.len() && (#[trigger] pairs@[b]).0
                    == authors@[t],
        decreases na - i,
    {
        let v = authors[i];
        let ghost pairs_at_entry = pairs@;
        let mut added = false;
        if v != target && !contains_i32(friends, v) {
            let s = score_between(events, target, v);
            if s >= 1 {
                let ghost before = pairs@;
                pairs.push((v, s));
                added = true;
                proof {
                    assert(pairs@.last() == (v, s));
                    assert(authors@[i as int] == v);
                    assert forall|a: int, b: int| 0 <= a < b < pairs@.len() implies (
                    #[trigger] pairs@[a]).0 != (#[trigger] pairs@[b]).0 by {
                        if b == pairs@.len() - 1 {
                            assert(pairs@[a] == before[a]);
                            let w = choose|w: int|
                                0 <= w < i && authors@[w] == (#[trigger] before[a]).0;
                            assert(authors@[w] != authors@[i as int]);
                        }
                    }
                    assert forall|a: int| 0 <= a < pairs@.len() implies {
                        let p = #[trigger] pairs@[a];
                        &&& p.1 == score(events@, target, p.0)
                        &&& eligible(events@, friends@, target, p.0)
                    } by {
                        if a < pairs@.len() - 1 {
                            assert(pairs@[a] == before[a]);
                        } else {
                            assert(pairs@[a] == (v, s));
                        }
                    }
                    assert forall|a: int| 0 <= a < pairs@.len() implies exists|t: int|
                        0 <= t < i + 1 && authors@[t] == (#[trigger] pairs@[a]).0 by {
                        if a < pairs@.len() - 1 {
                            assert(pairs@[a] == before[a]);
                            let w = choose|w: int|
                                0 <= w < i && authors@[w] == (#[trigger] before[a]).0;
                            assert(authors@[w] == pairs@[a].0);
                        } else {
                            assert(authors@[i as int] == pairs@[a].0);
                        }
                    }
                }
            }
        }
        proof {
            assert(added == eligible(events@, friends@, target, v));
            assert forall|t: int|
                0 <= t < i + 1 && eligible(events@, friends@, target, #[trigger] authors@[t])
                implies exists|b: int| 0 <= b < pairs@.len() && (#[trigger] pairs@[b]).0
                == authors@[t] by {
                if t < i {
                    let b = choose|b: int|
                        0 <= b < pairs_at_entry.len() && (#[trigger] pairs_at_entry[b]).0
                            == authors@[t];
                    assert(pairs@[b] == pairs_at_entry[b]);
                } else {
                    assert(authors@[t] == v);
                    assert(added);
                    assert(pairs@[pairs@.len() - 1].0 == v);
                }
            }
        }
        i = i + 1;
    }
    // every eligible user is a scored pair
    proof {
        assert forall|v: i32| eligible(events@, friends@, target, v) implies exists|b: int|
            0 <= b < pairs@.len() && (#[trigger] pairs@[b]).0 == v by {
            lemma_score_author(events@, events@, target, v);
            let k = choose|k: int| 0 <= k < events@.len() && events@[k].person_id == v;
            assert(authors@.contains(v));
            let t = choose|t: int| 0 <= t < authors@.len() && authors@[t] == v;
        }
    }
    let ghost pairs0 = pairs@;
    // pick the five best, highest rank first
    let mut working = pairs;
    let mut chosen: Vec<(i32, u64)> = Vec::new();
    proof {
        assert(chosen@.len() == 0);
        assert(chosen@.to_multiset().len() == 0);
        assert forall|x: (i32, u64)|
            chosen@.to_multiset().add(working@.to_multiset()).count(x) == pairs0.to_multiset().count(
            x,
        ) by {
            assert(chosen@.to_multiset().count(x) == 0) by {
                if chosen@.to_multiset().count(x) > 0 {
                    assert(chosen@.contains(x));
                }
            }
        }
        assert(chosen@.to_multiset().add(working@.to_multiset()) =~= pairs0.to_multiset());
    }
    while chosen.len() < TOP_N && working.len() > 0
        invariant
            chosen@.to_multiset().add(working@.to_multiset()) =~= pairs0.to_multiset(),
            chosen@.len() <= TOP_N,
            forall|a: int, b: int|
                0 <= a < b < pairs0.len() ==> (#[trigger] pairs0[a]).0 != (#[trigger] pairs0[b]).0,
            forall|a: int|
                0 <= a < pairs0.len() ==> {
                    let p = #[trigger] pairs0[a];
                    &&& p.1 == score(events@, target, p.0)
                    &&& eligible(events@, friends@, target, p.0)
                },
            forall|c: int| 0 <= c < chosen@.len() ==> pairs0.contains(#[trigger] chosen@[c]),
            forall|w: int| 0 <= w < working@.len() ==> pairs0.contains(#[trigger] working@[w]),
            forall|c: int, w: int|
                0 <= c < chosen@.len() && 0 <= w < working@.len() ==> rank_ge(
                    #[trigger] chosen@[c],
                    #[trigger] working@[w],
                ),
            forall|a: int, b: int|
                0 <= a < b < chosen@.len() ==> rank_ge(#[trigger] chosen@[a], #[trigger] chosen@[b]),
            forall|v: i32|
                eligible(events@, friends@, target, v) ==> exists|b: int|
                    0 <= b < pairs0.len() && (#[trigger] pairs0[b]).0 == v,
        decreases working@.len(),
    {
        let wn = working.len();
        let mut best: usize = 0;
        let mut t: usize = 1;
        while t < wn
            invariant
                wn == working@.len(),
                0 < wn,
                0 <= best < wn,
                1 <= t <= wn,
                forall|x: int| 0 <= x < t ==> rank_ge(working@[best as int], #[trigger] working@[x]),
            decreases wn - t,
        {
            if rank_gt_exec(&working[t], &working[best]) {
                best = t;
            }
            t = t + 1;
        }
        let ghost w_before = working@;
        let ghost c_before = chosen@;
        let picked = working.remove(best);
        chosen.push(picked);
        proof {
            broadcast use group_to_multiset_ensures;

            let w_after = working@;
            let c_after = chosen@;
            assert(w_before[best as int] == picked);
            assert(w_before.contains(picked));
            // the two sides still hold the same scored pairs
            assert(w_after == w_before.remove(best as int));
            assert(w_before.remove(best as int).to_multiset() =~= w_before.to_multiset().remove(
                w_before[best as int],
            ));
            assert(w_after.to_multiset() =~= w_before.to_multiset().remove(picked));
            assert(c_after == c_before.push(picked));
            assert(c_before.push(picked).to_multiset() =~= c_before.to_multiset().insert(picked));
            assert(c_after.to_multiset() =~= c_before.to_multiset().insert(picked));
            assert(w_before.to_multiset().count(picked) > 0);
            assert forall|x: (i32, u64)|
                c_after.to_multiset().add(w_after.to_multiset()).count(x) == pairs0.to_multiset().count(
                x,
            ) by {
                assert(c_before.to_multiset().add(w_before.to_multiset()).count(x)
                    == pairs0.to_multiset().count(x));
            }
            assert(c_after.to_multiset().add(w_after.to_multiset()) =~= pairs0.to_multiset());
            // every remaining entry is one of the previous ones
            assert forall|w: int| 0 <= w < w_after.len() implies w_before.contains(
                #[trigger] w_after[w],
            ) by {
                let w2 = if w < best as int {
                    w
                } else {
                    w + 1
                };
                assert(w_after[w] == w_before[w2]);
            }
            // the pick outranks everything left, and so do the earlier picks
            assert forall|c: int, w: int|
                0 <= c < c_after.len() && 0 <= w < w_after.len() implies rank_ge(
                #[trigger] c_after[c],
                #[trigger] w_after[w],
            ) by {
                let w2 = if w < best as int {
                    w
                } else {
                    w + 1
                };
                assert(w_after[w] == w_before[w2]);
                if c < c_before.len() {
                    assert(c_after[c] == c_before[c]);
                    assert(rank_ge(c_before[c], w_before[w2]));
                } else {
                    assert(c_after[c] == picked);
                    assert(rank_ge(w_before[best as int], w_before[w2]));
                }
            }
            // the chosen list stays ordered
            assert forall|a: int, b: int| 0 <= a < b < c_after.len() implies rank_ge(
                #[trigger] c_after[a],
                #[trigger] c_after[b],
            ) by {
                if b < c_before.len() {
                    assert(c_after[a] == c_before[a]);
                    assert(c_after[b] == c_before[b]);
                } else {
                    assert(c_after[b] == picked);
                    assert(c_after[a] == c_before[a]);
                    assert(rank_ge(c_before[a], w_before[best as int]));
                }
            }
            // membership of the chosen in the scored pairs
            assert forall|c: int| 0 <= c < c_after.len() implies pairs0.contains(
                #[trigger] c_after[c],
            ) by {
                if c < c_before.len() {
                    assert(c_after[c] == c_before[c]);
                } else {
                    assert(c_after[c] == picked);
                }
            }
        }
    }
    // project to the ids
    let mut out: Vec<i32> = Vec::new();
    let cn = chosen.len();
    let mut c: usize = 0;
    while c < cn
        invariant
            cn == chosen@.len(),
            0 <= c <= cn,
            out@ =~= chosen@.subrange(0, c as int).map_values(|p: (i32, u64)| p.0),
        decreases cn - c,
    {
        out.push(chosen[c].0);
        proof {
            assert(chosen@.subrange(0, c as int + 1).drop_last() =~= chosen@.subrange(
                0,
                c as int,
            ));
            assert(out@ =~= chosen@.subrange(0, c as int + 1).map_values(|p: (i32, u64)| p.0));
        }
        c = c + 1;
    }
    proof {
        assert(chosen@.subrange(0, cn as int) =~= chosen@);
        lemma_top_five(events@, friends@, target, pairs0, chosen@, working@, out@);
    }
    out
}

/// Rank order on scored candidates: higher score first, smaller id on ties.
pub open spec fn rank_ge(a: (i32, u64), b: (i32, u64)) -> bool {
    ||| a.1 > b.1
    ||| (a.1 == b.1 && a.0 <= b.0)
}

fn rank_gt_exec(a: &(i32, u64), b: &(i32, u64)) -> (r: bool)
    ensures
        r == (a.1 > b.1 || (a.1 == b.1 && a.0 < b.0)),
{
    a.1 > b.1 || (a.1 == b.1 && a.0 < b.0)
}

/// From the selection invariants, the projected id list is the top five.
proof fn lemma_top_five(
    all: Seq<Projection>,
    friends: Seq<i32>,
    target: i32,
    pairs0: Seq<(i32, u64)>,
    chosen: Seq<(i32, u64)>,
    working: Seq<(i32, u64)>,
    out: Seq<i32>,
)
    requires
        chosen.to_multiset().add(working.to_multiset()) =~= pairs0.to_multiset(),
        chosen.len() <= TOP_N,
        chosen.len() < TOP_N ==> working.len() == 0,
        forall|a: int, b: int|
            0 <= a < b < pairs0.len() ==> (#[trigger] pairs0[a]).0 != (#[trigger] pairs0[b]).0,
        forall|a: int|
            0 <= a < pairs0.len() ==> {
                let p = #[trigger] pairs0[a];
                &&& p.1 == score(all, target, p.0)
                &&& eligible(all, friends, target, p.0)
            },
        forall|c: int| 0 <= c < chosen.len() ==> pairs0.contains(#[trigger] chosen[c]),
        forall|w: int| 0 <= w < working.len() ==> pairs0.contains(#[trigger] working[w]),
        forall|c: int, w: int|
            0 <= c < chosen.len() && 0 <= w < working.len() ==> rank_ge(
                #[trigger] chosen[c],
                #[trigger] working[w],
            ),
        forall|a: int, b: int|
            0 <= a < b < chosen.len() ==> rank_ge(#[trigger] chosen[a], #[trigger] chosen[b]),
        forall|v: i32|
            eligible(all, friends, target, v) ==> exists|b: int|
                0 <= b < pairs0.len() && (#[trigger] pairs0[b]).0 == v,
        out == chosen.map_values(|p: (i32, u64)| p.0),
    ensures
        is_top_five(all, friends, target, out),
{
    broadcast use group_to_multiset_ensures;

    assert(out.len() == chosen.len());
    // the listed candidates are eligible with their exact scores
    assert forall|i: int| 0 <= i < out.len() implies eligible(
        all,
        friends,
        target,
        #[trigger] out[i],
    ) by {
        assert(out[i] == chosen[i].0);
        let a = choose|a: int| 0 <= a < pairs0.len() && pairs0[a] == chosen[i];
    }
    assert forall|i: int| 0 <= i < chosen.len() implies (#[trigger] chosen[i]).1 == score(
        all,
        target,
        chosen[i].0,
    ) by {
        let a = choose|a: int| 0 <= a < pairs0.len() && pairs0[a] == chosen[i];
    }
    // distinct entries: two chosen entries with equal pairs would double the
    // multiset count of a pair that occurs once
    assert forall|i: int, j: int| 0 <= i < j < chosen.len() implies chosen[i] != chosen[j] by {
        if chosen[i] == chosen[j] {
            lemma_dup_count(chosen, i, j);
            assert(chosen.to_multiset().count(chosen[i]) >= 2);
            assert(pairs0.to_multiset().count(chosen[i]) >= 2);
            lemma_distinct_pairs_count(pairs0, chosen[i]);
        }
    }
    assert forall|i: int, j: int| 0 <= i < j < chosen.len() implies chosen[i].0 != chosen[j].0 by {
        if chosen[i].0 == chosen[j].0 {
            let a = choose|a: int| 0 <= a < pairs0.len() && pairs0[a] == chosen[i];
            let b = choose|b: int| 0 <= b < pairs0.len() && pairs0[b] == chosen[j];
            assert(pairs0[a].0 == pairs0[b].0);
            assert(a == b);
        }
    }
    // strict ordering
    assert forall|i: int, j: int| 0 <= i < j < out.len() implies outranks(
        all,
        target,
        out[i],
        out[j],
    ) by {
        assert(rank_ge(chosen[i], chosen[j]));
        assert(chosen[i].0 != chosen[j].0);
        assert(chosen[i].1 == score(all, target, chosen[i].0));
        assert(chosen[j].1 == score(all, target, chosen[j].0));
    }
    // an eligible user not listed is outranked by every listed one
    assert forall|v: i32|
        eligible(all, friends, target, v) && !out.contains(v) implies forall|i: int|
        0 <= i < out.len() ==> outranks(all, target, #[trigger] out[i], v) by {
        let b = choose|b: int| 0 <= b < pairs0.len() && (#[trigger] pairs0[b]).0 == v;
        let p = pairs0[b];
        assert(pairs0.to_multiset().count(p) > 0);
        // p is not among the chosen pairs, else v would be listed
        assert(!chosen.contains(p)) by {
            if chosen.contains(p) {
                let c = choose|c: int| 0 <= c < chosen.len() && chosen[c] == p;
                assert(out[c] == v);
                assert(out.contains(v));
            }
        }
        assert(chosen.to_multiset().count(p) == 0);
        assert(working.to_multiset().count(p) > 0);
        assert(working.contains(p));
        let w = choose|w: int| 0 <= w < working.len() && working[w] == p;
        assert forall|i: int| 0 <= i < out.len() implies outranks(all, target, #[trigger] out[i], v)
            by {
            assert(rank_ge(chosen[i], p));
            assert(chosen[i].0 != v);
            assert(p.1 == score(all, target, v));
        }
    }
    // fewer than five only when nothing else is eligible
    if out.len() < TOP_N {
        assert forall|v: i32| eligible(all, friends, target, v) implies out.contains(v) by {
            let b = choose|b: int| 0 <= b < pairs0.len() && (#[trigger] pairs0[b]).0 == v;
            let p = pairs0[b];
            assert(pairs0.to_multiset().count(p) > 0);
            assert(working.to_multiset().count(p) == 0);
            assert(chosen.to_multiset().count(p) > 0);
            assert(chosen.contains(p));
            let c = choose|c: int| 0 <= c < chosen.len() && chosen[c] == p;
            assert(out[c] == v);
        }
    }
}

proof fn lemma_dup_count<A>(s: Seq<A>, i: int, j: int)
    requires
        0 <= i < j < s.len(),
        s[i] == s[j],
    ensures
        s.to_multiset().count(s[i]) >= 2,
{
    broadcast use group_to_multiset_ensures;

    let r = s.remove(j);
    assert(r.to_multiset() =~= s.to_multiset().remove(s[j]));
    assert(r[i] == s[i]);
    assert(r.contains(s[i]));
    assert(r.to_multiset().count(s[i]) > 0);
    assert(s.to_multiset().count(s[i]) == r.to_multiset().count(s[i]) + 1);
}

/// In an id-distinct pair sequence no pair occurs twice.
proof fn lemma_distinct_pairs_count(s: Seq<(i32, u64)>, p: (i32, u64))
    requires
        forall|a: int, b: int| 0 <= a < b < s.len() ==> (#[trigger] s[a]).0 != (#[trigger] s[b]).0,
    ensures
        s.to_multiset().count(p) <= 1,
    decreases s.len(),
{
    broadcast use group_to_multiset_ensures;

    if s.len() > 0 {
        let d = s.drop_last();
        assert(forall|a: int, b: int|
            0 <= a < b < d.len() ==> (#[trigger] d[a]).0 != (#[trigger] d[b]).0);
        lemma_distinct_pairs_count(d, p);
        assert(s =~= d.push(s.last()));
        assert(s.to_multiset() =~= d.to_multiset().insert(s.last()));
        if p == s.last() {
            if d.to_multiset().count(p) > 0 {
                assert(d.contains(p));
                let w = choose|w: int| 0 <= w < d.len() && d[w] == p;
                assert(s[w].0 == s[s.len() - 1].0);
            }
        }
    }
}

/// The batch evaluation: the ranked top-five list of every target user.
pub fn recommendations(
    events: &Vec<Projection>,
    targets: &Vec<i32>,
    friends: &IdMap<Vec<i32>>,
) -> (out: Vec<(i32, Vec<i32>)>)
    requires
        events@.len() <= EVENT_LIMIT,
        friends.inv(),
    ensures
        out@.len() == targets@.len(),
        forall|t: int|
            0 <= t < out@.len() ==> (#[trigger] out@[t]).0 == targets@[t] && is_top_five(
                events@,
                match friends.get_spec(targets@[t]) {
                    Some(f) => f@,
                    None => Seq::<i32>::empty(),
                },
                targets@[t],
                out@[t].1@,
            ),
{
    let nt = targets.len();
    let mut out: Vec<(i32, Vec<i32>)> = Vec::new();
    let mut t: usize = 0;
    let empty_friends: Vec<i32> = Vec::new();
    while t < nt
        invariant
            nt == targets@.len(),
            0 <= t <= nt,
            events@.len() <= EVENT_LIMIT,
            friends.inv(),
            empty_friends@ == Seq::<i32>::empty(),
            out@.len() == t,
            forall|x: int|
                0 <= x < t ==> (#[trigger] out@[x]).0 == targets@[x] && is_top_five(
                    events@,
                    match friends.get_spec(targets@[x]) {
                        Some(f) => f@,
                        None => Seq::<i32>::empty(),
                    },
                    targets@[x],
                    out@[x].1@,
                ),
        decreases nt - t,
    {
        let target = targets[t];
        let ranked = match friends.get(target) {
            Some(f) => recommendations_for(events, target, f),
            None => recommendations_for(events, target, &empty_friends),
        };
        out.push((target, ranked));
        t = t + 1;
    }
    out
}

/// The sliding window of events retained for the scorer: each event with
/// the watermark under which it arrived.
pub struct Window {
    pub events: Vec<(u64, RecommendationEvent)>,
}

impl Window {
    pub fn new() -> (w: Window)
        ensures
            w.events@.len() == 0,
    {
        Window { events: Vec::new() }
    }

    /// Retains one arriving event under watermark `time`.
    pub fn insert(&mut self, time: u64, event: RecommendationEvent)
        ensures
            final(self).events@ == old(self).events@.push((time, event)),
    {
        self.events.push((time, event));
    }

    /// A tick at `watermark` with window size `size`: drops every event
    /// retained under a watermark older than `watermark - size` and reports
    /// whether any event remains.
    pub fn tick(&mut self, watermark: u64, size: u64) -> (remaining: bool)
        ensures
            final(self).events@ == old(self).events@.filter(
                |e: (u64, RecommendationEvent)| e.0 >= crate::watermark::sat_sub_spec(
                    watermark,
                    size,
                ),
            ),
            remaining == (final(self).events@.len() > 0),
    {
        let cutoff: u64 = if watermark >= size {
            watermark - size
        } else {
            0
        };
        let ghost p = |e: (u64, RecommendationEvent)|
            e.0 >= crate::watermark::sat_sub_spec(watermark, size);
        let mut rest: Vec<(u64, RecommendationEvent)> = Vec::new();
        core::mem::swap(&mut self.events, &mut rest);
        let total = rest.len();
        let ghost orig = rest@;
        let ghost n = orig.len();
        proof {
            assert(n == total);
            reveal_with_fuel(Seq::filter, 3);
            assert(orig.take(0) =~= Seq::<(u64, RecommendationEvent)>::empty());
            assert(orig.take(0).filter(p) =~= Seq::<(u64, RecommendationEvent)>::empty());
        }
        let mut i: usize = 0;
        while rest.len() > 0
            invariant
                p == (|e: (u64, RecommendationEvent)|
                    e.0 >= crate::watermark::sat_sub_spec(watermark, size)),
                cutoff == crate::watermark::sat_sub_spec(watermark, size),
                i as int + rest@.len() == n,
                0 <= i as int <= n,
                n <= usize::MAX,
                n == orig.len(),
                rest@ =~= orig.skip(i as int),
                self.events@ == orig.take(i as int).filter(p),
            decreases rest@.len(),
        {
            let (time, event) = rest.remove(0);
            let ghost ev0 = (time, event);
            proof {
                reveal_with_fuel(Seq::filter, 3);
                assert(orig.skip(i as int)[0] == orig[i as int]);
                assert(ev0 == orig[i as int]);
                assert(orig.skip(i as int).drop_first() =~= orig.skip(i as int + 1));
                assert(orig.take(i as int + 1).drop_last() =~= orig.take(i as int));
                assert(orig.take(i as int + 1).last() == orig[i as int]);
            }
            if time >= cutoff {
                self.events.push((time, event));
            }
            proof {
                reveal_with_fuel(Seq::filter, 3);
                assert(p(ev0) == (ev0.0 >= cutoff));
                assert(self.events@ == orig.take(i as int + 1).filter(p));
            }
            i = i + 1;
        }
        proof {
            assert(orig.take(n as int) =~= orig);
        }
        self.events.len() > 0
    }
}

} // verus!
