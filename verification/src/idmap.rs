//! A small association map with `i32` keys.
//!
//! Entries are kept in insertion order in a vector with pairwise-distinct
//! keys, so lookups are unambiguous and iteration over the entries is
//! deterministic.  Every stateful operator keys its per-entity state with
//! such a map.

use vstd::prelude::*;

verus! {

/// The first value stored under key `k`, walking the entries front to back.
pub open spec fn seq_get<V>(s: Seq<(i32, V)>, k: i32) -> Option<V>
    decreases s.len(),
{
    if s.len() == 0 {
        None
    } else if s[0].0 == k {
        Some(s[0].1)
    } else {
        seq_get(s.drop_first(), k)
    }
}

/// The entries with the first entry under key `k` removed.
pub open spec fn seq_remove<V>(s: Seq<(i32, V)>, k: i32) -> Seq<(i32, V)>
    decreases s.len(),
{
    if s.len() == 0 {
        s
    } else if s[0].0 == k {
        s.drop_first()
    } else {
        seq![s[0]] + seq_remove(s.drop_first(), k)
    }
}

/// An insertion-ordered map from `i32` keys to values.
pub struct IdMap<V> {
    pub entries: Vec<(i32, V)>,
}

impl<V> IdMap<V> {
    /// Keys are pairwise distinct.
    pub open spec fn inv(self) -> bool {
        forall|i: int, j: int|
            0 <= i < j < self.entries@.len() ==> (#[trigger] self.entries@[i]).0 != (
            #[trigger] self.entries@[j]).0
    }

    pub open spec fn get_spec(self, k: i32) -> Option<V> {
        seq_get(self.entries@, k)
    }

    pub open spec fn contains_spec(self, k: i32) -> bool {
        self.get_spec(k) is Some
    }

    pub fn new() -> (m: IdMap<V>)
        ensures
            m.inv(),
            m.entries@ == Seq::<(i32, V)>::empty(),
    {
        IdMap { entries: Vec::new() }
    }

    pub fn len(&self) -> (n: usize)
        ensures
            n == self.entries@.len(),
    {
        self.entries.len()
    }

    pub fn is_empty(&self) -> (r: bool)
        ensures
            r == (self.entries@.len() == 0),
    {
        self.entries.len() == 0
    }

    pub fn get(&self, k: i32) -> (r: Option<&V>)
        requires
            self.inv(),
        ensures
            match r {
                Some(v) => self.get_spec(k) == Some(*v),
                None => self.get_spec(k) is None,
            },
    {
        let n = self.entries.len();
        proof {
            assert(self.entries@.skip(0) =~= self.entries@);
        }
        let mut i: usize = 0;
        while i < n
            invariant
                n == self.entries@.len(),
                0 <= i <= n,
                forall|j: int| 0 <= j < i ==> (#[trigger] self.entries@[j]).0 != k,
                seq_get(self.entries@.skip(i as int), k) == seq_get(self.entries@, k),
            decreases n - i,
        {
            proof {
                assert(self.entries@.skip(i as int)[0] == self.entries@[i as int]);
                assert(self.entries@.skip(i as int).drop_first() =~= self.entries@.skip(
                    i as int + 1,
                ));
            }
            if self.entries[i].0 == k {
                return Some(&self.entries[i].1);
            }
            i = i + 1;
        }
        proof {
            assert(self.entries@.skip(n as int) =~= Seq::<(i32, V)>::empty());
        }
        None
    }

    /// Removes and returns the entry under `k`, when there is one.
    pub fn remove(&mut self, k: i32) -> (r: Option<V>)
        requires
            old(self).inv(),
        ensures
            final(self).inv(),
            r == old(self).get_spec(k),
            final(self).entries@ == seq_remove(old(self).entries@, k),
            final(self).get_spec(k) is None,
            forall|k2: i32| k2 != k ==> final(self).get_spec(k2) == old(self).get_spec(k2),
    {
        let ghost s0 = self.entries@;
        let n = self.entries.len();
        let mut i: usize = 0;
        while i < n
            invariant
                n == self.entries@.len(),
                self.entries@ == s0,
                old(self).entries@ == s0,
                0 <= i <= n,
                forall|a: int, b: int|
                    0 <= a < b < s0.len() ==> (#[trigger] s0[a]).0 != (#[trigger] s0[b]).0,
                forall|j: int| 0 <= j < i ==> (#[trigger] self.entries@[j]).0 != k,
            decreases n - i,
        {
            if self.entries[i].0 == k {
                let (_, v) = self.entries.remove(i);
                proof {
                    lemma_seq_remove_at(s0, k, i as int);
                    lemma_seq_get_at(s0, k, i as int);
                    assert(self.entries@ =~= s0.remove(i as int));
                    lemma_remove_keeps_distinct(s0, i as int);
                    lemma_removed_key_gone(s0, k, i as int);
                    lemma_other_keys_stay(s0, k, i as int);
                }
                return Some(v);
            }
            i = i + 1;
        }
        proof {
            lemma_seq_get_absent(s0, k);
            lemma_seq_remove_absent(s0, k);
        }
        None
    }

    /// Adds an entry under a key not yet present.
    pub fn insert(&mut self, k: i32, v: V)
        requires
            old(self).inv(),
            old(self).get_spec(k) is None,
        ensures
            final(self).inv(),
            final(self).entries@ == old(self).entries@.push((k, v)),
            final(self).get_spec(k) == Some(v),
            forall|k2: i32| k2 != k ==> final(self).get_spec(k2) == old(self).get_spec(k2),
    {
        proof {
            lemma_seq_get_absent_all(self.entries@, k);
        }
        let ghost s0 = self.entries@;
        self.entries.push((k, v));
        proof {
            lemma_push_get(s0, k, v);
            assert forall|k2: i32| k2 != k implies seq_get(s0.push((k, v)), k2) == seq_get(
                s0,
                k2,
            ) by {
                lemma_push_get_other(s0, k, v, k2);
            }
        }
    }
}

/// Every entry left by a removal was an entry before it.
pub proof fn lemma_seq_remove_elem<V>(s: Seq<(i32, V)>, k: i32, i: int)
    requires
        0 <= i < seq_remove(s, k).len(),
    ensures
        exists|j: int| 0 <= j < s.len() && s[j] == #[trigger] seq_remove(s, k)[i],
    decreases s.len(),
{
    if s.len() == 0 {
    } else if s[0].0 == k {
        assert(seq_remove(s, k)[i] == s[i + 1]);
    } else {
        let r = seq![s[0]] + seq_remove(s.drop_first(), k);
        if i == 0 {
            assert(r[0] == s[0]);
        } else {
            assert(r[i] == seq_remove(s.drop_first(), k)[i - 1]);
            lemma_seq_remove_elem(s.drop_first(), k, i - 1);
            let j = choose|j: int|
                0 <= j < s.drop_first().len() && s.drop_first()[j] == seq_remove(
                    s.drop_first(),
                    k,
                )[i - 1];
            assert(s[j + 1] == seq_remove(s, k)[i]);
        }
    }
}

/// Removing one key leaves every other key's entry as it was.
pub proof fn lemma_seq_remove_other_key<V>(s: Seq<(i32, V)>, k: i32, k2: i32)
    requires
        k2 != k,
    ensures
        seq_get(seq_remove(s, k), k2) == seq_get(s, k2),
    decreases s.len(),
{
    if s.len() > 0 {
        if s[0].0 == k {
        } else {
            let r = seq![s[0]] + seq_remove(s.drop_first(), k);
            assert(r[0] == s[0]);
            assert(r.drop_first() =~= seq_remove(s.drop_first(), k));
            lemma_seq_remove_other_key(s.drop_first(), k, k2);
        }
    }
}

/// A found value is stored in some entry.
pub proof fn lemma_seq_get_elem<V>(s: Seq<(i32, V)>, k: i32)
    requires
        seq_get(s, k) is Some,
    ensures
        exists|j: int| 0 <= j < s.len() && #[trigger] s[j] == (k, seq_get(s, k)->0),
    decreases s.len(),
{
    if s.len() > 0 {
        if s[0].0 == k {
            assert(s[0] == (k, seq_get(s, k)->0));
        } else {
            lemma_seq_get_elem(s.drop_first(), k);
            let j = choose|j: int|
                0 <= j < s.drop_first().len() && #[trigger] s.drop_first()[j] == (
                    k,
                    seq_get(s.drop_first(), k)->0,
                );
            assert(s[j + 1] == (k, seq_get(s, k)->0));
        }
    }
}

/// Every element of a filtered sequence is an element of the one filtered.
pub proof fn lemma_filter_elem<A>(s: Seq<A>, p: spec_fn(A) -> bool, i: int)
    requires
        0 <= i < s.filter(p).len(),
    ensures
        exists|j: int| 0 <= j < s.len() && s[j] == #[trigger] s.filter(p)[i],
    decreases s.len(),
{
    reveal(Seq::filter);
    if s.len() == 0 {
    } else {
        let f = s.filter(p);
        let fd = s.drop_last().filter(p);
        if p(s.last()) && i == f.len() - 1 {
            assert(s[s.len() - 1] == f[i]);
        } else {
            assert(f[i] == fd[i]);
            lemma_filter_elem(s.drop_last(), p, i);
            let j = choose|j: int| 0 <= j < s.drop_last().len() && s.drop_last()[j] == fd[i];
            assert(s[j] == f[i]);
        }
    }
}

/// Filtering entries keeps their keys pairwise distinct.
pub proof fn lemma_filter_distinct<V>(s: Seq<(i32, V)>, p: spec_fn((i32, V)) -> bool)
    requires
        forall|i: int, j: int| 0 <= i < j < s.len() ==> (#[trigger] s[i]).0 != (#[trigger] s[j]).0,
    ensures
        forall|i: int, j: int|
            0 <= i < j < s.filter(p).len() ==> (#[trigger] s.filter(p)[i]).0 != (#[trigger] s.filter(
                p,
            )[j]).0,
    decreases s.len(),
{
    reveal(Seq::filter);
    if s.len() == 0 {
    } else {
        let f = s.filter(p);
        let d = s.drop_last();
        let fd = d.filter(p);
        assert(forall|i: int, j: int|
            0 <= i < j < d.len() ==> (#[trigger] d[i]).0 != (#[trigger] d[j]).0);
        lemma_filter_distinct(d, p);
        assert forall|i: int, j: int| 0 <= i < j < f.len() implies (#[trigger] f[i]).0 != (
        #[trigger] f[j]).0 by {
            if p(s.last()) && j == f.len() - 1 && f.len() == fd.len() + 1 {
                assert(f[j] == s.last());
                assert(f[i] == fd[i]);
                lemma_filter_elem(d, p, i);
                let w = choose|w: int| 0 <= w < d.len() && d[w] == fd[i];
                assert(s[w] == f[i]);
                assert(s[w].0 != s[s.len() - 1].0);
            } else {
                assert(f[i] == fd[i]);
                assert(f[j] == fd[j]);
            }
        }
    }
}

proof fn lemma_seq_get_at<V>(s: Seq<(i32, V)>, k: i32, i: int)
    requires
        0 <= i < s.len(),
        s[i].0 == k,
        forall|j: int| 0 <= j < i ==> (#[trigger] s[j]).0 != k,
    ensures
        seq_get(s, k) == Some(s[i].1),
    decreases i,
{
    if i == 0 {
    } else {
        assert(s.drop_first()[i - 1] == s[i]);
        assert(forall|j: int|
            0 <= j < i - 1 ==> (#[trigger] s.drop_first()[j]).0 == s[j + 1].0);
        lemma_seq_get_at(s.drop_first(), k, i - 1);
    }
}

proof fn lemma_seq_remove_at<V>(s: Seq<(i32, V)>, k: i32, i: int)
    requires
        0 <= i < s.len(),
        s[i].0 == k,
        forall|j: int| 0 <= j < i ==> (#[trigger] s[j]).0 != k,
    ensures
        seq_remove(s, k) =~= s.remove(i),
    decreases i,
{
    if i == 0 {
        assert(s.remove(0) =~= s.drop_first());
    } else {
        assert(s.drop_first()[i - 1] == s[i]);
        assert(forall|j: int|
            0 <= j < i - 1 ==> (#[trigger] s.drop_first()[j]).0 == s[j + 1].0);
        lemma_seq_remove_at(s.drop_first(), k, i - 1);
        assert((seq![s[0]] + s.drop_first().remove(i - 1)) =~= s.remove(i));
    }
}

proof fn lemma_seq_get_absent<V>(s: Seq<(i32, V)>, k: i32)
    requires
        forall|j: int| 0 <= j < s.len() ==> (#[trigger] s[j]).0 != k,
    ensures
        seq_get(s, k) is None,
    decreases s.len(),
{
    if s.len() > 0 {
        assert(forall|j: int|
            0 <= j < s.drop_first().len() ==> (#[trigger] s.drop_first()[j]).0 == s[j + 1].0);
        lemma_seq_get_absent(s.drop_first(), k);
    }
}

proof fn lemma_seq_remove_absent<V>(s: Seq<(i32, V)>, k: i32)
    requires
        forall|j: int| 0 <= j < s.len() ==> (#[trigger] s[j]).0 != k,
    ensures
        seq_remove(s, k) =~= s,
    decreases s.len(),
{
    if s.len() > 0 {
        assert(forall|j: int|
            0 <= j < s.drop_first().len() ==> (#[trigger] s.drop_first()[j]).0 == s[j + 1].0);
        lemma_seq_remove_absent(s.drop_first(), k);
        assert((seq![s[0]] + s.drop_first()) =~= s);
    }
}

/// A key that is absent under `seq_get` occurs in no entry.
proof fn lemma_seq_get_absent_all<V>(s: Seq<(i32, V)>, k: i32)
    requires
        seq_get(s, k) is None,
    ensures
        forall|j: int| 0 <= j < s.len() ==> (#[trigger] s[j]).0 != k,
    decreases s.len(),
{
    if s.len() > 0 {
        lemma_seq_get_absent_all(s.drop_first(), k);
        assert(forall|j: int|
            1 <= j < s.len() ==> (#[trigger] s[j]).0 == s.drop_first()[j - 1].0);
    }
}

proof fn lemma_remove_keeps_distinct<V>(s: Seq<(i32, V)>, i: int)
    requires
        0 <= i < s.len(),
        forall|a: int, b: int|
            0 <= a < b < s.len() ==> (#[trigger] s[a]).0 != (#[trigger] s[b]).0,
    ensures
        forall|a: int, b: int|
            0 <= a < b < s.remove(i).len() ==> (#[trigger] s.remove(i)[a]).0 != (
            #[trigger] s.remove(i)[b]).0,
{
    let r = s.remove(i);
    assert forall|a: int, b: int| 0 <= a < b < r.len() implies (#[trigger] r[a]).0 != (
    #[trigger] r[b]).0 by {
        let a2 = if a < i {
            a
        } else {
            a + 1
        };
        let b2 = if b < i {
            b
        } else {
            b + 1
        };
        assert(r[a] == s[a2]);
        assert(r[b] == s[b2]);
    }
}

proof fn lemma_removed_key_gone<V>(s: Seq<(i32, V)>, k: i32, i: int)
    requires
        0 <= i < s.len(),
        s[i].0 == k,
        forall|a: int, b: int|
            0 <= a < b < s.len() ==> (#[trigger] s[a]).0 != (#[trigger] s[b]).0,
    ensures
        seq_get(s.remove(i), k) is None,
{
    let r = s.remove(i);
    assert forall|j: int| 0 <= j < r.len() implies (#[trigger] r[j]).0 != k by {
        let j2 = if j < i {
            j
        } else {
            j + 1
        };
        assert(r[j] == s[j2]);
    }
    lemma_seq_get_absent(r, k);
}

proof fn lemma_other_keys_stay<V>(s: Seq<(i32, V)>, k: i32, i: int)
    requires
        0 <= i < s.len(),
        s[i].0 == k,
        forall|j: int| 0 <= j < i ==> (#[trigger] s[j]).0 != k,
    ensures
        forall|k2: i32| k2 != k ==> seq_get(s.remove(i), k2) == seq_get(s, k2),
    decreases i,
{
    assert forall|k2: i32| k2 != k implies seq_get(s.remove(i), k2) == seq_get(s, k2) by {
        lemma_other_key_one(s, k, i, k2);
    }
}

proof fn lemma_other_key_one<V>(s: Seq<(i32, V)>, k: i32, i: int, k2: i32)
    requires
        0 <= i < s.len(),
        s[i].0 == k,
        k2 != k,
    ensures
        seq_get(s.remove(i), k2) == seq_get(s, k2),
    decreases i,
{
    if i == 0 {
        assert(s.remove(0) =~= s.drop_first());
    } else {
        assert(s.remove(i).drop_first() =~= s.drop_first().remove(i - 1));
        assert(s.drop_first()[i - 1] == s[i]);
        lemma_other_key_one(s.drop_first(), k, i - 1, k2);
        assert(s.remove(i)[0] == s[0]);
    }
}

proof fn lemma_push_get<V>(s: Seq<(i32, V)>, k: i32, v: V)
    requires
        forall|j: int| 0 <= j < s.len() ==> (#[trigger] s[j]).0 != k,
    ensures
        seq_get(s.push((k, v)), k) == Some(v),
    decreases s.len(),
{
    let p = s.push((k, v));
    if s.len() == 0 {
        assert(p[0] == (k, v));
    } else {
        assert(p[0] == s[0]);
        assert(p.drop_first() =~= s.drop_first().push((k, v)));
        assert(forall|j: int|
            0 <= j < s.drop_first().len() ==> (#[trigger] s.drop_first()[j]).0 == s[j + 1].0);
        lemma_push_get(s.drop_first(), k, v);
    }
}

proof fn lemma_push_get_other<V>(s: Seq<(i32, V)>, k: i32, v: V, k2: i32)
    requires
        k2 != k,
    ensures
        seq_get(s.push((k, v)), k2) == seq_get(s, k2),
    decreases s.len(),
{
    let p = s.push((k, v));
    if s.len() == 0 {
        assert(p[0] == (k, v));
        assert(p.drop_first() =~= Seq::<(i32, V)>::empty());
    } else {
        assert(p[0] == s[0]);
        assert(p.drop_first() =~= s.drop_first().push((k, v)));
        lemma_push_get_other(s.drop_first(), k, v, k2);
    }
}

} // verus!
