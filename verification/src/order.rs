//! Dependency resolver.
//!
//! Child events (comments, likes) may arrive before the post or ancestor
//! comment they reply to.  The resolver buffers such children and emits them
//! only once their transitive root post is resolvable, attributing ownership
//! of each comment to exactly one parallel worker by `id mod peers`.
//! Resolvability is decided against a lookup store of the records that have
//! arrived so far; [`MemoryStore`] is that store, and stands in for an
//! external backend in tests and single-process runs.

use vstd::prelude::*;

use crate::idmap::{lemma_seq_remove_other_key, seq_get, seq_remove, IdMap};
use crate::records::{CommentRecord, LikeRecord, ParentId};

verus! {

/// Outcome of walking a comment's ancestor chain through the lookup store.
#[derive(Clone, Copy, Debug, PartialEq, Eq, Structural)]
pub enum AncestorOutcome {
    /// The chain reaches a known post: the comment is resolvable.
    RootPost(i32),
    /// The nearest available ancestor is a known comment whose own chain is
    /// not resolvable yet.
    PendingComment(i32),
    /// No parent information is available at all.
    Unresolved,
}

/// In-memory lookup store of the posts and comments seen so far.
pub struct MemoryStore {
    /// Ids of the posts that have arrived.
    pub post_ids: Vec<i32>,
    /// The comments that have arrived, by id.
    pub comments: IdMap<CommentRecord>,
}

impl MemoryStore {
    pub open spec fn inv(self) -> bool {
        self.comments.inv()
    }

    pub open spec fn has_post_spec(self, id: i32) -> bool {
        self.post_ids@.contains(id)
    }

    pub fn new() -> (s: MemoryStore)
        ensures
            s.inv(),
            s.post_ids@ == Seq::<i32>::empty(),
            s.comments.entries@ == Seq::<(i32, CommentRecord)>::empty(),
    {
        MemoryStore { post_ids: Vec::new(), comments: IdMap::new() }
    }

    pub fn has_post(&self, id: i32) -> (r: bool)
        ensures
            r == self.has_post_spec(id),
    {
        let n = self.post_ids.len();
        let mut i: usize = 0;
        while i < n
            invariant
                n == self.post_ids@.len(),
                0 <= i <= n,
                forall|j: int| 0 <= j < i ==> self.post_ids@[j] != id,
            decreases n - i,
        {
            if self.post_ids[i] == id {
                return true;
            }
            i = i + 1;
        }
        false
    }

    /// Records an arrived post; a second arrival of the same id changes
    /// nothing.
    pub fn insert_post(&mut self, id: i32)
        requires
            old(self).inv(),
        ensures
            final(self).inv(),
            final(self).post_ids@ == if old(self).has_post_spec(id) {
                old(self).post_ids@
            } else {
                old(self).post_ids@.push(id)
            },
            final(self).comments == old(self).comments,
            final(self).has_post_spec(id),
    {
        if !self.has_post(id) {
            self.post_ids.push(id);
            proof {
                assert(self.post_ids@.last() == id);
            }
        }
    }

    /// Records an arrived comment; a second arrival of the same id changes
    /// nothing.
    pub fn insert_comment(&mut self, c: CommentRecord)
        requires
            old(self).inv(),
        ensures
            final(self).inv(),
            final(self).post_ids@ == old(self).post_ids@,
            final(self).comments.entries@ == if old(self).comments.get_spec(c.id) is Some {
                old(self).comments.entries@
            } else {
                old(self).comments.entries@.push((c.id, c))
            },
    {
        let present = match self.comments.get(c.id) {
            Some(_) => true,
            None => false,
        };
        if !present {
            self.comments.insert(c.id, c);
        }
    }

    /// The outcome of walking up the parent chain from `c` for at most
    /// `fuel` steps: the nearest known post, else the topmost known comment,
    /// else nothing.
    pub open spec fn walk_spec(self, c: CommentRecord, fuel: nat) -> AncestorOutcome
        decreases fuel,
    {
        if fuel == 0 {
            AncestorOutcome::Unresolved
        } else {
            match c.parent_id_spec() {
                None => AncestorOutcome::Unresolved,
                Some(ParentId::Post(pid)) => if self.has_post_spec(pid) {
                    AncestorOutcome::RootPost(pid)
                } else {
                    AncestorOutcome::Unresolved
                },
                Some(ParentId::Comment(cid)) => match self.comments.get_spec(cid) {
                    None => AncestorOutcome::Unresolved,
                    Some(parent) => match self.walk_spec(parent, (fuel - 1) as nat) {
                        AncestorOutcome::Unresolved => AncestorOutcome::PendingComment(cid),
                        o => o,
                    },
                },
            }
        }
    }

    fn walk(&self, c: &CommentRecord, fuel: usize) -> (r: AncestorOutcome)
        requires
            self.inv(),
        ensures
            r == self.walk_spec(*c, fuel as nat),
        decreases fuel,
    {
        if fuel == 0 {
            return AncestorOutcome::Unresolved;
        }
        match c.parent_id() {
            None => AncestorOutcome::Unresolved,
            Some(ParentId::Post(pid)) => {
                if self.has_post(pid) {
                    AncestorOutcome::RootPost(pid)
                } else {
                    AncestorOutcome::Unresolved
                }
            },
            Some(ParentId::Comment(cid)) => {
                match self.comments.get(cid) {
                    None => AncestorOutcome::Unresolved,
                    Some(parent) => {
                        match self.walk(parent, fuel - 1) {
                            AncestorOutcome::Unresolved => AncestorOutcome::PendingComment(cid),
                            o => o,
                        }
                    },
                }
            },
        }
    }

    /// The nearest available ancestor of `c`: a known root post, a known but
    /// still pending ancestor comment, or nothing.  The walk is bounded by
    /// the number of stored comments, which covers every acyclic chain.
    pub fn available_parent(&self, c: &CommentRecord) -> (r: AncestorOutcome)
        requires
            self.inv(),
            self.comments.entries@.len() < usize::MAX,
        ensures
            r == self.walk_spec(*c, (self.comments.entries@.len() + 1) as nat),
    {
        let fuel = self.comments.len();
        self.walk(c, fuel + 1)
    }

    /// The id of the transitive root post of `c`, when the whole chain is
    /// known.
    pub fn root(&self, c: &CommentRecord) -> (r: Option<i32>)
        requires
            self.inv(),
            self.comments.entries@.len() < usize::MAX,
        ensures
            r == match self.walk_spec(*c, (self.comments.entries@.len() + 1) as nat) {
                AncestorOutcome::RootPost(pid) => Some(pid),
                _ => None::<i32>,
            },
    {
        match self.available_parent(c) {
            AncestorOutcome::RootPost(pid) => Some(pid),
            _ => None,
        }
    }

    /// Whether a like's post is known, which makes the like resolvable.
    pub fn like_resolvable(&self, like: &LikeRecord) -> (r: bool)
        ensures
            r == self.has_post_spec(like.post_id),
    {
        self.has_post(like.post_id)
    }
}

/// Number of comments buffered over all the entries of a pending map.
pub open spec fn count_entries(s: Seq<(i32, Vec<CommentRecord>)>) -> nat
    decreases s.len(),
{
    if s.len() == 0 {
        0
    } else {
        s[0].1@.len() + count_entries(s.drop_first())
    }
}

/// Removing an absent key leaves the entries unchanged.
proof fn lemma_seq_remove_same(s: Seq<(i32, Vec<CommentRecord>)>, k: i32)
    requires
        seq_get(s, k) is None,
    ensures
        seq_remove(s, k) =~= s,
    decreases s.len(),
{
    if s.len() > 0 {
        if s[0].0 == k {
        } else {
            lemma_seq_remove_same(s.drop_first(), k);
            assert((seq![s[0]] + s.drop_first()) =~= s);
        }
    }
}

proof fn lemma_count_remove(s: Seq<(i32, Vec<CommentRecord>)>, k: i32)
    ensures
        count_entries(seq_remove(s, k)) + match seq_get(s, k) {
            Some(v) => v@.len(),
            None => 0,
        } == count_entries(s),
    decreases s.len(),
{
    if s.len() > 0 {
        if s[0].0 == k {
        } else {
            lemma_count_remove(s.drop_first(), k);
            let r = seq![s[0]] + seq_remove(s.drop_first(), k);
            assert(r.drop_first() =~= seq_remove(s.drop_first(), k));
            assert(r[0] == s[0]);
        }
    }
}

/// Result of draining the pending-on-comment buffers breadth-first from an
/// initial queue of comments: the comments emitted in order, and the buffers
/// that remain.  `fuel` only serves termination; it is kept equal to the
/// number of comments still queued or buffered.
pub open spec fn flush_spec(
    entries: Seq<(i32, Vec<CommentRecord>)>,
    queue: Seq<CommentRecord>,
    fuel: nat,
) -> (Seq<CommentRecord>, Seq<(i32, Vec<CommentRecord>)>)
    decreases fuel,
{
    if queue.len() == 0 || fuel == 0 {
        (Seq::empty(), entries)
    } else {
        let c = queue[0];
        let rest = queue.drop_first();
        match seq_get(entries, c.id) {
            Some(kids) => {
                let sub = flush_spec(seq_remove(entries, c.id), rest + kids@, (fuel - 1) as nat);
                (seq![c] + sub.0, sub.1)
            },
            None => {
                let sub = flush_spec(entries, rest, (fuel - 1) as nat);
                (seq![c] + sub.0, sub.1)
            },
        }
    }
}

/// Dependency ordering, the completeness half: a flush emits every comment
/// that was queued for the arriving post, and every comment buffered as a
/// descendant of an emitted comment — so, applied transitively, a whole
/// buffered reply chain leaves once its root post arrives.
pub proof fn lemma_flush_complete(
    entries: Seq<(i32, Vec<CommentRecord>)>,
    queue: Seq<CommentRecord>,
    fuel: nat,
)
    requires
        fuel == count_entries(entries) + queue.len(),
    ensures
        forall|i: int|
            0 <= i < queue.len() ==> flush_spec(entries, queue, fuel).0.contains(
                #[trigger] queue[i],
            ),
        forall|c: CommentRecord, j: int|
            flush_spec(entries, queue, fuel).0.contains(c) && seq_get(entries, c.id) is Some && 0
                <= j < seq_get(entries, c.id)->0@.len() ==> flush_spec(
                entries,
                queue,
                fuel,
            ).0.contains(seq_get(entries, c.id)->0@[j]),
    decreases fuel,
{
    if queue.len() == 0 {
    } else {
        let c0 = queue[0];
        let rest = queue.drop_first();
        let out = flush_spec(entries, queue, fuel).0;
        match seq_get(entries, c0.id) {
            Some(kids) => {
                let entries2 = seq_remove(entries, c0.id);
                let queue2 = rest + kids@;
                lemma_count_remove(entries, c0.id);
                let fuel2 = (fuel - 1) as nat;
                assert(fuel2 == count_entries(entries2) + queue2.len());
                lemma_flush_complete(entries2, queue2, fuel2);
                let sub = flush_spec(entries2, queue2, fuel2).0;
                assert(out == seq![c0] + sub);
                assert(out[0] == c0);
                assert forall|x: CommentRecord| sub.contains(x) implies out.contains(x) by {
                    let w = choose|w: int| 0 <= w < sub.len() && sub[w] == x;
                    assert(out[w + 1] == x);
                }
                assert forall|i: int| 0 <= i < queue.len() implies out.contains(
                    #[trigger] queue[i],
                ) by {
                    if i > 0 {
                        assert(queue2[i - 1] == queue[i]);
                        assert(sub.contains(queue[i]));
                    }
                }
                assert forall|c: CommentRecord, j: int|
                    out.contains(c) && seq_get(entries, c.id) is Some && 0 <= j < seq_get(
                        entries,
                        c.id,
                    )->0@.len() implies out.contains(seq_get(entries, c.id)->0@[j]) by {
                    if c.id == c0.id {
                        // the bucket of this id went onto the queue right here
                        assert(queue2[rest.len() + j] == kids@[j]);
                        assert(sub.contains(kids@[j]));
                    } else {
                        let w = choose|w: int| 0 <= w < out.len() && out[w] == c;
                        if w == 0 {
                            assert(c == c0);
                        } else {
                            assert(sub.contains(c));
                            lemma_seq_remove_other_key(entries, c0.id, c.id);
                            assert(seq_get(entries2, c.id) == seq_get(entries, c.id));
                            assert(sub.contains(seq_get(entries2, c.id)->0@[j]));
                        }
                    }
                }
            },
            None => {
                lemma_seq_remove_same(entries, c0.id);
                lemma_count_remove(entries, c0.id);
                let fuel2 = (fuel - 1) as nat;
                assert(fuel2 == count_entries(entries) + rest.len());
                lemma_flush_complete(entries, rest, fuel2);
                let sub = flush_spec(entries, rest, fuel2).0;
                assert(out == seq![c0] + sub);
                assert(out[0] == c0);
                assert forall|x: CommentRecord| sub.contains(x) implies out.contains(x) by {
                    let w = choose|w: int| 0 <= w < sub.len() && sub[w] == x;
                    assert(out[w + 1] == x);
                }
                assert forall|i: int| 0 <= i < queue.len() implies out.contains(
                    #[trigger] queue[i],
                ) by {
                    if i > 0 {
                        assert(rest[i - 1] == queue[i]);
                    }
                }
                assert forall|c: CommentRecord, j: int|
                    out.contains(c) && seq_get(entries, c.id) is Some && 0 <= j < seq_get(
                        entries,
                        c.id,
                    )->0@.len() implies out.contains(seq_get(entries, c.id)->0@[j]) by {
                    let w = choose|w: int| 0 <= w < out.len() && out[w] == c;
                    if w == 0 {
                        assert(c == c0);
                        assert(seq_get(entries, c.id) is None);
                    } else {
                        assert(sub.contains(c));
                        assert(sub.contains(seq_get(entries, c.id)->0@[j]));
                    }
                }
            },
        }
    }
}

/// Per-worker state machine that reorders comments behind their causal
/// parents.
pub struct CommentResolver {
    /// This worker's index under the ownership key.
    pub idx: usize,
    /// Number of parallel workers.
    pub peers: usize,
    /// Comments waiting for a post, by post id, in arrival order.
    pub pending_on_post: IdMap<Vec<CommentRecord>>,
    /// Comments waiting for an ancestor comment, by ancestor id, in arrival
    /// order.
    pub pending_on_comment: IdMap<Vec<CommentRecord>>,
    /// Count of malformed comments skipped (no parent reference at all).
    pub malformed: u64,
}

impl CommentResolver {
    pub open spec fn inv(self) -> bool {
        &&& 1 <= self.peers
        &&& self.idx < self.peers
        &&& self.peers <= 0x7fffffff
        &&& self.pending_on_post.inv()
        &&& self.pending_on_comment.inv()
    }

    /// Whether this worker owns the comment with id `id`.
    pub open spec fn owned_spec(self, id: i32) -> bool {
        id as int % self.peers as int == self.idx as int
    }

    pub fn new(idx: usize, peers: usize) -> (s: CommentResolver)
        requires
            1 <= peers <= 0x7fffffff,
            idx < peers,
        ensures
            s.inv(),
            s.idx == idx,
            s.peers == peers,
            s.pending_on_post.entries@ == Seq::<(i32, Vec<CommentRecord>)>::empty(),
            s.pending_on_comment.entries@ == Seq::<(i32, Vec<CommentRecord>)>::empty(),
            s.malformed == 0,
    {
        CommentResolver {
            idx,
            peers,
            pending_on_post: IdMap::new(),
            pending_on_comment: IdMap::new(),
            malformed: 0,
        }
    }

    fn owned(&self, id: i32) -> (r: bool)
        requires
            self.inv(),
        ensures
            r == self.owned_spec(id),
    {
        let p = self.peers as u64;
        let m: u64 = if id >= 0 {
            (id as u64) % p
        } else {
            let a = ((-(id as i64)) as u64) % p;
            if a == 0 {
                0
            } else {
                p - a
            }
        };
        proof {
            if id < 0 {
                let a0 = -(id as int);
                let pi = p as int;
                vstd::arithmetic::div_mod::lemma_fundamental_div_mod(a0, pi);
                let q = a0 / pi;
                let a = a0 % pi;
                if a == 0 {
                    assert(id as int == (-q) * pi + 0) by (nonlinear_arith)
                        requires
                            a0 == q * pi + a,
                            a == 0,
                            id as int == -a0,
                    ;
                    vstd::arithmetic::div_mod::lemma_fundamental_div_mod_converse(
                        id as int,
                        pi,
                        -q,
                        0,
                    );
                } else {
                    assert(id as int == (-q - 1) * pi + (pi - a)) by (nonlinear_arith)
                        requires
                            a0 == q * pi + a,
                            id as int == -a0,
                    ;
                    vstd::arithmetic::div_mod::lemma_fundamental_div_mod_converse(
                        id as int,
                        pi,
                        -q - 1,
                        pi - a,
                    );
                }
            }
        }
        m == self.idx as u64
    }

    /// A post has arrived: emit every comment buffered for it, and
    /// recursively every buffered descendant of an emitted comment.  The
    /// returned comments preserve arrival order within each buffer.
    pub fn on_post(&mut self, post_id: i32) -> (out: Vec<CommentRecord>)
        requires
            old(self).inv(),
        ensures
            final(self).inv(),
            final(self).idx == old(self).idx && final(self).peers == old(self).peers,
            final(self).malformed == old(self).malformed,
            final(self).pending_on_post.entries@ == seq_remove(
                old(self).pending_on_post.entries@,
                post_id,
            ),
            ({
                let bucket = match old(self).pending_on_post.get_spec(post_id) {
                    Some(v) => v@,
                    None => Seq::<CommentRecord>::empty(),
                };
                let entries = old(self).pending_on_comment.entries@;
                let fl = flush_spec(entries, bucket, (count_entries(entries) + bucket.len()) as nat);
                out@ == fl.0 && final(self).pending_on_comment.entries@ == fl.1
            }),
    {
        let mut out: Vec<CommentRecord> = Vec::new();
        let mut queue: Vec<CommentRecord> = match self.pending_on_post.remove(post_id) {
            Some(v) => v,
            None => Vec::new(),
        };
        let ghost p_after = self.pending_on_post;
        let ghost e0 = self.pending_on_comment.entries@;
        let ghost q0 = queue@;
        let ghost fuel0 = (count_entries(e0) + q0.len()) as nat;
        let ghost target = flush_spec(e0, q0, fuel0);
        proof {
            assert(Seq::<CommentRecord>::empty() + target.0 =~= target.0);
        }
        while queue.len() > 0
            invariant
                self.inv(),
                self.idx == old(self).idx && self.peers == old(self).peers,
                self.malformed == old(self).malformed,
                self.pending_on_post == p_after,
                target.1 == flush_spec(
                    self.pending_on_comment.entries@,
                    queue@,
                    (count_entries(self.pending_on_comment.entries@) + queue@.len()) as nat,
                ).1,
                target.0 == out@ + flush_spec(
                    self.pending_on_comment.entries@,
                    queue@,
                    (count_entries(self.pending_on_comment.entries@) + queue@.len()) as nat,
                ).0,
            decreases count_entries(self.pending_on_comment.entries@) + queue@.len(),
        {
            let ghost e_before = self.pending_on_comment.entries@;
            let ghost q_before = queue@;
            let ghost m_before = (count_entries(e_before) + q_before.len()) as nat;
            let ghost out_before = out@;
            let c = queue.remove(0);
            proof {
                assert(queue@ =~= q_before.drop_first());
            }
            match self.pending_on_comment.remove(c.id) {
                Some(mut kids) => {
                    proof {
                        lemma_count_remove(e_before, c.id);
                    }
                    queue.append(&mut kids);
                    proof {
                        assert(queue@ =~= q_before.drop_first() + match seq_get(
                            e_before,
                            c.id,
                        ) {
                            Some(v) => v@,
                            None => Seq::<CommentRecord>::empty(),
                        });
                    }
                },
                None => {
                    proof {
                        lemma_count_remove(e_before, c.id);
                    }
                },
            }
            out.push(c);
            proof {
                let e_now = self.pending_on_comment.entries@;
                let q_now = queue@;
                let m_now = (count_entries(e_now) + q_now.len()) as nat;
                assert(m_before == m_now + 1);
                assert(m_before >= 1);
                let sub = flush_spec(e_now, q_now, m_now);
                assert(c == q_before[0]);
                match seq_get(e_before, c.id) {
                    Some(kids) => {
                        assert(e_now == seq_remove(e_before, c.id));
                        assert(q_now == q_before.drop_first() + kids@);
                        assert(flush_spec(e_before, q_before, m_before).0 == seq![c] + sub.0);
                        assert(flush_spec(e_before, q_before, m_before).1 == sub.1);
                    },
                    None => {
                        assert(e_now == seq_remove(e_before, c.id));
                        lemma_seq_remove_same(e_before, c.id);
                        assert(e_now == e_before);
                        assert(q_now == q_before.drop_first());
                        assert(flush_spec(e_before, q_before, m_before).0 == seq![c] + sub.0);
                        assert(flush_spec(e_before, q_before, m_before).1 == sub.1);
                    },
                }
                assert(out@ =~= out_before.push(c));
                assert(out_before + (seq![c] + sub.0) =~= out@ + sub.0);
            }
        }
        proof {
            let e_now = self.pending_on_comment.entries@;
            assert(flush_spec(e_now, queue@, (count_entries(e_now) + queue@.len()) as nat).0
                =~= Seq::<CommentRecord>::empty());
            assert(out@ + Seq::<CommentRecord>::empty() =~= out@);
        }
        out
    }

    /// A comment has arrived, with the outcome of its ancestor walk.
    /// A resolvable comment is emitted (when owned) together with its
    /// buffered descendants; one with a pending ancestor is merged, with its
    /// descendants, into that ancestor's buffer; one with no available
    /// parent is buffered under its direct parent.  A malformed comment is
    /// counted and skipped.
    pub fn on_comment(&mut self, comment: CommentRecord, outcome: AncestorOutcome) -> (out: Vec<
        CommentRecord,
    >)
        requires
            old(self).inv(),
        ensures
            final(self).inv(),
            final(self).idx == old(self).idx && final(self).peers == old(self).peers,
            ({
                let own = old(self).owned_spec(comment.id);
                let kids = match old(self).pending_on_comment.get_spec(comment.id) {
                    Some(v) => v@,
                    None => Seq::<CommentRecord>::empty(),
                };
                match comment.parent_id_spec() {
                    None => {
                        // malformed: counted, nothing else changes
                        &&& out@ == Seq::<CommentRecord>::empty()
                        &&& final(self).malformed == if old(self).malformed == u64::MAX {
                            old(self).malformed
                        } else {
                            (old(self).malformed + 1) as u64
                        }
                        &&& final(self).pending_on_post == old(self).pending_on_post
                        &&& final(self).pending_on_comment == old(self).pending_on_comment
                    },
                    Some(direct) => {
                        &&& final(self).malformed == old(self).malformed
                        &&& match outcome {
                            AncestorOutcome::RootPost(_) => {
                                // emitted, with its buffered descendants
                                &&& out@ == if own {
                                    seq![comment] + kids
                                } else {
                                    kids
                                }
                                &&& final(self).pending_on_post == old(self).pending_on_post
                                &&& final(self).pending_on_comment.entries@ == seq_remove(
                                    old(self).pending_on_comment.entries@,
                                    comment.id,
                                )
                            },
                            AncestorOutcome::PendingComment(aid) => {
                                // merged into the pending ancestor's buffer
                                let base = match seq_get(
                                    seq_remove(old(self).pending_on_comment.entries@, comment.id),
                                    aid,
                                ) {
                                    Some(v) => v@,
                                    None => Seq::<CommentRecord>::empty(),
                                };
                                let merged = if own {
                                    base + seq![comment] + kids
                                } else {
                                    base + kids
                                };
                                let after = final(self).pending_on_comment.entries@;
                                &&& out@ == Seq::<CommentRecord>::empty()
                                &&& final(self).pending_on_post == old(self).pending_on_post
                                &&& after.len() >= 1
                                &&& after.drop_last() == seq_remove(
                                    seq_remove(old(self).pending_on_comment.entries@, comment.id),
                                    aid,
                                )
                                &&& after.last().0 == aid
                                &&& after.last().1@ == merged
                            },
                            AncestorOutcome::Unresolved => {
                                // buffered under the direct parent, when owned
                                &&& out@ == Seq::<CommentRecord>::empty()
                                &&& if !own {
                                    &&& final(self).pending_on_post == old(self).pending_on_post
                                    &&& final(self).pending_on_comment == old(
                                        self,
                                    ).pending_on_comment
                                } else {
                                    match direct {
                                        ParentId::Post(pid) => {
                                            let base = match old(self).pending_on_post.get_spec(
                                                pid,
                                            ) {
                                                Some(v) => v@,
                                                None => Seq::<CommentRecord>::empty(),
                                            };
                                            let after = final(self).pending_on_post.entries@;
                                            &&& final(self).pending_on_comment == old(
                                                self,
                                            ).pending_on_comment
                                            &&& after.len() >= 1
                                            &&& after.drop_last() == seq_remove(
                                                old(self).pending_on_post.entries@,
                                                pid,
                                            )
                                            &&& after.last().0 == pid
                                            &&& after.last().1@ == base + seq![comment]
                                        },
                                        ParentId::Comment(cid) => {
                                            let base = match old(
                                                self,
                                            ).pending_on_comment.get_spec(cid) {
                                                Some(v) => v@,
                                                None => Seq::<CommentRecord>::empty(),
                                            };
                                            let after = final(self).pending_on_comment.entries@;
                                            &&& final(self).pending_on_post == old(
                                                self,
                                            ).pending_on_post
                                            &&& after.len() >= 1
                                            &&& after.drop_last() == seq_remove(
                                                old(self).pending_on_comment.entries@,
                                                cid,
                                            )
                                            &&& after.last().0 == cid
                                            &&& after.last().1@ == base + seq![comment]
                                        },
                                    }
                                }
                            },
                        }
                    },
                }
            }),
    {
        let mut out: Vec<CommentRecord> = Vec::new();
        let cid = comment.id;
        let direct = match comment.parent_id() {
            None => {
                if self.malformed < u64::MAX {
                    self.malformed = self.malformed + 1;
                }
                return out;
            },
            Some(d) => d,
        };
        let own = self.owned(cid);
        match outcome {
            AncestorOutcome::RootPost(_) => {
                if own {
                    out.push(comment);
                }
                let ghost out_mid = out@;
                match self.pending_on_comment.remove(cid) {
                    Some(mut kids) => {
                        let ghost kids0 = kids@;
                        out.append(&mut kids);
                        proof {
                            assert(out@ =~= out_mid + kids0);
                        }
                    },
                    None => {},
                }
            },
            AncestorOutcome::PendingComment(aid) => {
                let kids = self.pending_on_comment.remove(cid);
                let mut merged = match self.pending_on_comment.remove(aid) {
                    Some(v) => v,
                    None => Vec::new(),
                };
                let ghost base0 = merged@;
                if own {
                    merged.push(comment);
                }
                let ghost mid = merged@;
                match kids {
                    Some(mut k) => {
                        let ghost k0 = k@;
                        merged.append(&mut k);
                        proof {
                            assert(merged@ =~= mid + k0);
                        }
                    },
                    None => {},
                }
                self.pending_on_comment.insert(aid, merged);
            },
            AncestorOutcome::Unresolved => {
                if own {
                    match direct {
                        ParentId::Post(pid) => {
                            let mut bucket = match self.pending_on_post.remove(pid) {
                                Some(v) => v,
                                None => Vec::new(),
                            };
                            bucket.push(comment);
                            self.pending_on_post.insert(pid, bucket);
                        },
                        ParentId::Comment(par) => {
                            let mut bucket = match self.pending_on_comment.remove(par) {
                                Some(v) => v,
                                None => Vec::new(),
                            };
                            bucket.push(comment);
                            self.pending_on_comment.insert(par, bucket);
                        },
                    }
                }
            },
        }
        out
    }
}

/// Per-worker state machine that reorders likes behind their posts.
pub struct LikeResolver {
    /// Likes waiting for their post, by post id, in arrival order.
    pub pending: IdMap<Vec<LikeRecord>>,
}

impl LikeResolver {
    pub open spec fn inv(self) -> bool {
        self.pending.inv()
    }

    pub fn new() -> (s: LikeResolver)
        ensures
            s.inv(),
            s.pending.entries@ == Seq::<(i32, Vec<LikeRecord>)>::empty(),
    {
        LikeResolver { pending: IdMap::new() }
    }

    /// A post has arrived: emit every like buffered for it, in arrival
    /// order.
    pub fn on_post(&mut self, post_id: i32) -> (out: Vec<LikeRecord>)
        requires
            old(self).inv(),
        ensures
            final(self).inv(),
            out@ == match old(self).pending.get_spec(post_id) {
                Some(v) => v@,
                None => Seq::<LikeRecord>::empty(),
            },
            final(self).pending.entries@ == seq_remove(old(self).pending.entries@, post_id),
    {
        match self.pending.remove(post_id) {
            Some(v) => v,
            None => Vec::new(),
        }
    }

    /// A like has arrived; `resolvable` reports whether its post is known.
    /// A resolvable like is emitted at once, any other buffered under its
    /// post id.  Likes are not re-partitioned by ownership.
    pub fn on_like(&mut self, like: LikeRecord, resolvable: bool) -> (out: Option<LikeRecord>)
        requires
            old(self).inv(),
        ensures
            final(self).inv(),
            resolvable ==> out == Some(like) && final(self).pending == old(self).pending,
            !resolvable ==> out is None && ({
                let base = match old(self).pending.get_spec(like.post_id) {
                    Some(v) => v@,
                    None => Seq::<LikeRecord>::empty(),
                };
                let after = final(self).pending.entries@;
                &&& after.len() >= 1
                &&& after.drop_last() == seq_remove(old(self).pending.entries@, like.post_id)
                &&& after.last().0 == like.post_id
                &&& after.last().1@ == base + seq![like]
            }),
    {
        if resolvable {
            Some(like)
        } else {
            let pid = like.post_id;
            let mut bucket = match self.pending.remove(pid) {
                Some(v) => v,
                None => Vec::new(),
            };
            bucket.push(like);
            self.pending.insert(pid, bucket);
            None
        }
    }
}

} // verus!
