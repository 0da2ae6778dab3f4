//! Engagement aggregates per post.
//!
//! Every comment or like on a post updates that post's aggregate (distinct
//! engaging users, comment and like counts) and pushes its expiry one
//! time-to-live past the current watermark.  A periodic sweep removes the
//! aggregates whose expiry has passed and reports a snapshot of the ones
//! still active.  An id that was seen before and has expired is never
//! resurrected by a stray old event.

use vstd::prelude::*;

use crate::idmap::{lemma_filter_distinct, lemma_filter_elem, lemma_seq_remove_elem, IdMap};

verus! {

/// Cadence of the periodic sweep, seconds of logical time.
pub const MIN_30: u64 = 1800;

/// Time-to-live of an engagement aggregate, seconds.
pub const HR_12: u64 = 43200;

/// The next sweep instant at or after `current`: `current` rounded up to a
/// multiple of the cadence.
pub fn round_to_next(current: u64) -> (r: u64)
    requires
        current <= u64::MAX - MIN_30,
    ensures
        r == if current % MIN_30 == 0 {
            current
        } else {
            (current + MIN_30 - current % MIN_30) as u64
        },
        r % MIN_30 == 0,
        current <= r < current + MIN_30,
{
    let rem = current % MIN_30;
    proof {
        vstd::arithmetic::div_mod::lemma_fundamental_div_mod(current as int, MIN_30 as int);
        if rem != 0 {
            let q = current as int / MIN_30 as int;
            assert(current + MIN_30 - rem == (q + 1) * MIN_30) by (nonlinear_arith)
                requires
                    current as int == q * MIN_30 + rem,
            ;
            vstd::arithmetic::div_mod::lemma_fundamental_div_mod_converse(
                current as int + MIN_30 - rem,
                MIN_30 as int,
                q + 1,
                0,
            );
        }
    }
    if rem == 0 {
        current
    } else {
        current + (MIN_30 - rem)
    }
}

/// An engagement event: a comment on or a like of a post.
#[derive(Clone, Copy, Debug, PartialEq, Eq, Structural)]
pub enum ActivePostEvent {
    Comment { post_id: i32, person_id: i32 },
    Like { post_id: i32, person_id: i32 },
}

impl ActivePostEvent {
    pub open spec fn id_spec(self) -> i32 {
        match self {
            ActivePostEvent::Comment { post_id, .. } => post_id,
            ActivePostEvent::Like { post_id, .. } => post_id,
        }
    }

    pub open spec fn person_spec(self) -> i32 {
        match self {
            ActivePostEvent::Comment { person_id, .. } => person_id,
            ActivePostEvent::Like { person_id, .. } => person_id,
        }
    }

    /// The id of the post the event engages with.
    pub fn id(&self) -> (r: i32)
        ensures
            r == self.id_spec(),
    {
        match self {
            ActivePostEvent::Comment { post_id, .. } => *post_id,
            ActivePostEvent::Like { post_id, .. } => *post_id,
        }
    }
}

/// The rolling engagement aggregate of one post.
#[derive(Clone, Debug)]
pub struct ActivePost {
    pub id: i32,
    /// The distinct users that commented on or liked the post.
    pub users: Vec<i32>,
    /// Number of comments, stopping at the integer limit.
    pub comments: u64,
    /// Number of likes, stopping at the integer limit.
    pub likes: u64,
}

impl ActivePost {
    /// The engaging users are recorded once each.
    pub open spec fn inv(self) -> bool {
        forall|i: int, j: int|
            0 <= i < j < self.users@.len() ==> self.users@[i] != self.users@[j]
    }

    pub fn new(id: i32) -> (p: ActivePost)
        ensures
            p.inv(),
            p.id == id,
            p.users@ == Seq::<i32>::empty(),
            p.comments == 0,
            p.likes == 0,
    {
        ActivePost { id, users: Vec::new(), comments: 0, likes: 0 }
    }

    fn has_user(&self, user: i32) -> (r: bool)
        ensures
            r == self.users@.contains(user),
    {
        let n = self.users.len();
        let mut i: usize = 0;
        while i < n
            invariant
                n == self.users@.len(),
                0 <= i <= n,
                forall|j: int| 0 <= j < i ==> self.users@[j] != user,
            decreases n - i,
        {
            if self.users[i] == user {
                return true;
            }
            i = i + 1;
        }
        false
    }

    /// Records one engagement event: the acting user joins the distinct-user
    /// set and the matching counter advances.
    pub fn update(&mut self, event: ActivePostEvent)
        requires
            old(self).inv(),
        ensures
            final(self).inv(),
            final(self).id == old(self).id,
            final(self).users@ == if old(self).users@.contains(event.person_spec()) {
                old(self).users@
            } else {
                old(self).users@.push(event.person_spec())
            },
            final(self).comments == if event is Comment && old(self).comments < u64::MAX {
                (old(self).comments + 1) as u64
            } else {
                old(self).comments
            },
            final(self).likes == if event is Like && old(self).likes < u64::MAX {
                (old(self).likes + 1) as u64
            } else {
                old(self).likes
            },
    {
        let person = match &event {
            ActivePostEvent::Comment { person_id, .. } => *person_id,
            ActivePostEvent::Like { person_id, .. } => *person_id,
        };
        match &event {
            ActivePostEvent::Comment { .. } => {
                if self.comments < u64::MAX {
                    self.comments = self.comments + 1;
                }
            },
            ActivePostEvent::Like { .. } => {
                if self.likes < u64::MAX {
                    self.likes = self.likes + 1;
                }
            },
        }
        if !self.has_user(person) {
            self.users.push(person);
        }
    }
}

/// A live aggregate together with the instant it expires.
#[derive(Clone, Debug)]
pub struct ActiveEntry {
    pub post: ActivePost,
    /// The aggregate is swept once the watermark passes this instant.
    pub expiry: u64,
}

/// The engagement figures reported for one still-active post.
#[derive(Clone, Copy, Debug, PartialEq, Eq, Structural)]
pub struct PostStatsSnapshot {
    pub id: i32,
    pub distinct_users: usize,
    pub comments: u64,
    pub likes: u64,
}

/// The snapshot line of one aggregate.
pub open spec fn snap_of(p: ActivePost) -> PostStatsSnapshot {
    PostStatsSnapshot {
        id: p.id,
        distinct_users: p.users@.len() as usize,
        comments: p.comments,
        likes: p.likes,
    }
}

/// Per-worker state of the engagement aggregator.
pub struct PostStats {
    /// Ids that have ever had an aggregate; an expired id is not recreated.
    pub seen: Vec<i32>,
    /// The live aggregates with their expiry, by post id.
    pub active: IdMap<ActiveEntry>,
}

impl PostStats {
    pub open spec fn inv(self) -> bool {
        &&& self.active.inv()
        &&& forall|i: int|
            0 <= i < self.active.entries@.len() ==> (#[trigger] self.active.entries@[i]).1.post.inv()
    }

    pub fn new() -> (s: PostStats)
        ensures
            s.inv(),
            s.seen@ == Seq::<i32>::empty(),
            s.active.entries@ == Seq::<(i32, ActiveEntry)>::empty(),
    {
        PostStats { seen: Vec::new(), active: IdMap::new() }
    }

    fn has_seen(&self, id: i32) -> (r: bool)
        ensures
            r == self.seen@.contains(id),
    {
        let n = self.seen.len();
        let mut i: usize = 0;
        while i < n
            invariant
                n == self.seen@.len(),
                0 <= i <= n,
                forall|j: int| 0 <= j < i ==> self.seen@[j] != id,
            decreases n - i,
        {
            if self.seen[i] == id {
                return true;
            }
            i = i + 1;
        }
        false
    }

    /// Whether an event for `id` is evaluated: the id is new, or its
    /// aggregate is currently active.  A seen id whose aggregate expired is
    /// ignored.
    pub open spec fn admits(self, id: i32) -> bool {
        !self.seen@.contains(id) || self.active.contains_spec(id)
    }

    /// Observes one engagement event at watermark `now`: the aggregate is
    /// created or updated and its expiry reset to `now` plus the
    /// time-to-live; an event for an expired id changes nothing.
    pub fn observe(&mut self, event: ActivePostEvent, now: u64)
        requires
            old(self).inv(),
            now <= u64::MAX - HR_12,
        ensures
            final(self).inv(),
            !old(self).admits(event.id_spec()) ==> *final(self) == *old(self),
            old(self).admits(event.id_spec()) ==> {
                let id = event.id_spec();
                let entry = final(self).active.get_spec(id);
                &&& final(self).seen@ == if old(self).seen@.contains(id) {
                    old(self).seen@
                } else {
                    old(self).seen@.push(id)
                }
                &&& entry is Some
                &&& entry->0.expiry == now + HR_12
                &&& ({
                    let upd = entry->0.post;
                    match old(self).active.get_spec(id) {
                        Some(prev) => {
                            &&& upd.id == prev.post.id
                            &&& upd.users@ == if prev.post.users@.contains(event.person_spec()) {
                                prev.post.users@
                            } else {
                                prev.post.users@.push(event.person_spec())
                            }
                            &&& upd.comments == if event is Comment && prev.post.comments
                                < u64::MAX {
                                (prev.post.comments + 1) as u64
                            } else {
                                prev.post.comments
                            }
                            &&& upd.likes == if event is Like && prev.post.likes < u64::MAX {
                                (prev.post.likes + 1) as u64
                            } else {
                                prev.post.likes
                            }
                        },
                        None => {
                            &&& upd.id == id
                            &&& upd.users@ == seq![event.person_spec()]
                            &&& upd.comments == if event is Comment {
                                1u64
                            } else {
                                0u64
                            }
                            &&& upd.likes == if event is Like {
                                1u64
                            } else {
                                0u64
                            }
                        },
                    }
                })
                &&& forall|k: i32|
                    k != id ==> final(self).active.get_spec(k) == old(self).active.get_spec(k)
            },
    {
        let id = event.id();
        let in_active = match self.active.get(id) {
            Some(_) => true,
            None => false,
        };
        let in_seen = self.has_seen(id);
        if !in_seen || in_active {
            let ghost entries0 = self.active.entries@;
            let mut post = match self.active.remove(id) {
                Some(e) => e.post,
                None => ActivePost::new(id),
            };
            proof {
                if old(self).active.get_spec(id) is Some {
                    crate::idmap::lemma_seq_get_elem(entries0, id);
                }
            }
            post.update(event);
            self.active.insert(id, ActiveEntry { post, expiry: now + HR_12 });
            if !in_seen {
                self.seen.push(id);
            }
            proof {
                let after = self.active.entries@;
                assert forall|i: int| 0 <= i < after.len() implies (#[trigger] after[i]).1.post.inv()
                    by {
                    if i < after.len() - 1 {
                        lemma_seq_remove_elem(entries0, id, i);
                    }
                }
            }
        }
    }

    /// Sweeps at watermark `now`: every aggregate whose expiry has passed is
    /// removed, and the snapshot reports every aggregate still active, in
    /// insertion order.  An aggregate expiring exactly at `now` survives.
    pub fn sweep(&mut self, now: u64) -> (snapshot: Vec<PostStatsSnapshot>)
        requires
            old(self).inv(),
        ensures
            final(self).inv(),
            final(self).seen == old(self).seen,
            final(self).active.entries@ == old(self).active.entries@.filter(
                |e: (i32, ActiveEntry)| e.1.expiry >= now,
            ),
            snapshot@ == final(self).active.entries@.map_values(
                |e: (i32, ActiveEntry)| snap_of(e.1.post),
            ),
    {
        let ghost p = |e: (i32, ActiveEntry)| e.1.expiry >= now;
        let mut snapshot: Vec<PostStatsSnapshot> = Vec::new();
        let mut rest: Vec<(i32, ActiveEntry)> = Vec::new();
        core::mem::swap(&mut self.active.entries, &mut rest);
        let total = rest.len();
        let ghost orig = rest@;
        let ghost n = orig.len();
        proof {
            assert(n == total);
        }
        proof {
            reveal_with_fuel(Seq::filter, 3);
            assert(orig.take(0) =~= Seq::<(i32, ActiveEntry)>::empty());
            assert(orig.take(0).filter(p) =~= Seq::<(i32, ActiveEntry)>::empty());
            assert(self.active.entries@.map_values(|e: (i32, ActiveEntry)| snap_of(e.1.post))
                =~= Seq::<PostStatsSnapshot>::empty());
        }
        let mut i: usize = 0;
        while rest.len() > 0
            invariant
                self.seen == old(self).seen,
                p == (|e: (i32, ActiveEntry)| e.1.expiry >= now),
                i as int + rest@.len() == n,
                0 <= i as int <= n,
                n <= usize::MAX,
                n == orig.len(),
                rest@ =~= orig.skip(i as int),
                self.active.entries@ == orig.take(i as int).filter(p),
                snapshot@ == self.active.entries@.map_values(
                    |e: (i32, ActiveEntry)| snap_of(e.1.post),
                ),
            decreases rest@.len(),
        {
            let ghost before = self.active.entries@;
            let (id, entry) = rest.remove(0);
            let ghost entry0 = entry;
            proof {
                reveal_with_fuel(Seq::filter, 3);
                assert(orig.skip(i as int)[0] == orig[i as int]);
                assert((id, entry) == orig[i as int]);
                assert(orig.skip(i as int).drop_first() =~= orig.skip(i as int + 1));
                assert(orig.take(i as int + 1).drop_last() =~= orig.take(i as int));
                assert(orig.take(i as int + 1).last() == orig[i as int]);
            }
            if entry.expiry >= now {
                snapshot.push(PostStatsSnapshot {
                    id: entry.post.id,
                    distinct_users: entry.post.users.len(),
                    comments: entry.post.comments,
                    likes: entry.post.likes,
                });
                self.active.entries.push((id, entry));
                proof {
                    assert(snapshot@ =~= self.active.entries@.map_values(
                        |e: (i32, ActiveEntry)| snap_of(e.1.post),
                    ));
                }
            }
            proof {
                reveal_with_fuel(Seq::filter, 3);
                let t1 = orig.take(i as int + 1);
                assert(t1.len() == i as int + 1);
                assert(t1.last() == orig[i as int]);
                let sub = orig.take(i as int).filter(p);
                assert(t1.drop_last().filter(p) == sub);
                assert(t1.filter(p) == if p(t1.last()) {
                    sub.push(t1.last())
                } else {
                    sub
                });
                assert(t1.last() == (id, entry0));
                assert(p((id, entry0)) == (entry0.expiry >= now));
                assert(self.active.entries@ == orig.take(i as int + 1).filter(p));
            }
            i = i + 1;
        }
        proof {
            assert(orig.take(n as int) =~= orig);
            lemma_filter_distinct(orig, p);
            assert forall|j: int| 0 <= j < self.active.entries@.len() implies (
            #[trigger] self.active.entries@[j]).1.post.inv() by {
                lemma_filter_elem(orig, p, j);
            }
        }
        snapshot
    }

    /// Whether and for when the next sweep is to be scheduled: the next
    /// cadence boundary strictly after `now`, and only while at least one
    /// aggregate is still active — an idle aggregator stops ticking.
    pub fn next_sweep(&self, now: u64) -> (r: Option<u64>)
        requires
            now < u64::MAX - MIN_30,
        ensures
            r is Some <==> self.active.entries@.len() > 0,
            match r {
                Some(t) => {
                    let c = (now + 1) as u64;
                    &&& t == if c % MIN_30 == 0 {
                        c
                    } else {
                        (c + MIN_30 - c % MIN_30) as u64
                    }
                    &&& t % MIN_30 == 0
                    &&& now < t <= now + MIN_30
                },
                None => true,
            },
    {
        if self.active.len() > 0 {
            Some(round_to_next(now + 1))
        } else {
            None
        }
    }
}

} // verus!
