//! An id-keyed map with deterministic iteration order.
//!
//! Entries are kept in insertion order in a vector, with pairwise-distinct
//! keys. Broadcast order therefore never depends on a hasher, which keeps
//! every simulation step a pure function of the state and its inputs.

use vstd::prelude::*;

verus! {

/// First-match lookup in a sequence of key–value pairs.
pub open spec fn lookup<V>(s: Seq<(u64, V)>, k: u64) -> Option<V>
    decreases s.len(),
{
    if s.len() == 0 {
        None
    } else if s[0].0 == k {
        Some(s[0].1)
    } else {
        lookup(s.drop_first(), k)
    }
}

/// Whether a key occurs in a sequence of key–value pairs.
pub open spec fn has_key<V>(s: Seq<(u64, V)>, k: u64) -> bool {
    lookup(s, k) is Some
}

/// Pairwise-distinct keys.
pub open spec fn unique_keys<V>(s: Seq<(u64, V)>) -> bool {
    forall|i: int, j: int| 0 <= i < j < s.len() ==> (#[trigger] s[i]).0 != (#[trigger] s[j]).0
}

/// A key occurs exactly when some entry carries it.
pub proof fn lemma_has_key<V>(s: Seq<(u64, V)>, k: u64)
    ensures
        has_key(s, k) <==> exists|i: int| 0 <= i < s.len() && (#[trigger] s[i]).0 == k,
    decreases s.len(),
{
    if s.len() > 0 {
        lemma_has_key(s.drop_first(), k);
        if s[0].0 != k {
            if has_key(s, k) {
                let i = choose|i: int|
                    0 <= i < s.drop_first().len() && (#[trigger] s.drop_first()[i]).0 == k;
                assert(s[i + 1].0 == k);
            }
            if exists|i: int| 0 <= i < s.len() && (#[trigger] s[i]).0 == k {
                let i = choose|i: int| 0 <= i < s.len() && (#[trigger] s[i]).0 == k;
                assert(s.drop_first()[i - 1].0 == k);
            }
        }
    }
}

/// What lookup returns when entry `i` holds the first occurrence of `k`.
pub proof fn lemma_lookup_at<V>(s: Seq<(u64, V)>, k: u64, i: int)
    requires
        0 <= i < s.len(),
        s[i].0 == k,
        forall|j: int| 0 <= j < i ==> (#[trigger] s[j]).0 != k,
    ensures
        lookup(s, k) == Some(s[i].1),
    decreases s.len(),
{
    if i > 0 {
        assert(s[0].0 != k);
        lemma_lookup_at(s.drop_first(), k, i - 1);
    }
}

/// What lookup returns when no entry holds `k`.
pub proof fn lemma_lookup_none<V>(s: Seq<(u64, V)>, k: u64)
    requires
        forall|j: int| 0 <= j < s.len() ==> (#[trigger] s[j]).0 != k,
    ensures
        lookup(s, k) is None,
{
    lemma_has_key(s, k);
}

/// Appending a fresh key extends the lookup function pointwise.
pub proof fn lemma_lookup_push<V>(s: Seq<(u64, V)>, k: u64, v: V, q: u64)
    requires
        !has_key(s, k),
    ensures
        lookup(s.push((k, v)), q) == if q == k {
            Some(v)
        } else {
            lookup(s, q)
        },
    decreases s.len(),
{
    lemma_has_key(s, k);
    lemma_has_key(s.push((k, v)), q);
    lemma_has_key(s, q);
    if q == k {
        lemma_lookup_at(s.push((k, v)), q, s.len() as int);
    } else {
        if has_key(s, q) {
            let i = choose|i: int| 0 <= i < s.len() && (#[trigger] s[i]).0 == q && forall|j: int|
                0 <= j < i ==> (#[trigger] s[j]).0 != q;
            assert(exists|i: int|
                0 <= i < s.len() && (#[trigger] s[i]).0 == q && forall|j: int|
                    0 <= j < i ==> (#[trigger] s[j]).0 != q) by {
                lemma_first_occurrence(s, q);
            }
            let i2 = choose|i: int|
                0 <= i < s.len() && (#[trigger] s[i]).0 == q && forall|j: int|
                    0 <= j < i ==> (#[trigger] s[j]).0 != q;
            lemma_lookup_at(s, q, i2);
            lemma_lookup_at(s.push((k, v)), q, i2);
        } else {
            lemma_lookup_none(s.push((k, v)), q);
        }
    }
}

/// A key that occurs has a first occurrence.
pub proof fn lemma_first_occurrence<V>(s: Seq<(u64, V)>, q: u64)
    requires
        has_key(s, q),
    ensures
        exists|i: int|
            0 <= i < s.len() && (#[trigger] s[i]).0 == q && forall|j: int|
                0 <= j < i ==> (#[trigger] s[j]).0 != q,
    decreases s.len(),
{
    if s[0].0 == q {
        assert(0 <= 0 < s.len() && s[0].0 == q && forall|j: int| 0 <= j < 0 ==> s[j].0 != q);
    } else {
        lemma_first_occurrence(s.drop_first(), q);
        let i = choose|i: int|
            0 <= i < s.drop_first().len() && (#[trigger] s.drop_first()[i]).0 == q && forall|
                j: int,
            | 0 <= j < i ==> (#[trigger] s.drop_first()[j]).0 != q;
        assert(s[i + 1].0 == q);
        assert(forall|j: int| 1 <= j < i + 1 ==> (#[trigger] s[j]).0 != q) by {
            assert(forall|j: int|
                0 <= j < i ==> (#[trigger] s.drop_first()[j]).0 != q);
            assert(forall|j: int| 1 <= j < i + 1 ==> s[j] == s.drop_first()[j - 1]);
        }
    }
}

/// With distinct keys, the entry at a key's index is its lookup result.
pub proof fn lemma_lookup_unique_at<V>(s: Seq<(u64, V)>, i: int)
    requires
        unique_keys(s),
        0 <= i < s.len(),
    ensures
        lookup(s, s[i].0) == Some(s[i].1),
{
    lemma_lookup_at(s, s[i].0, i);
}

/// Replacing the value under a key changes only that key's lookup.
pub proof fn lemma_lookup_update<V>(s: Seq<(u64, V)>, i: int, k: u64, v: V, q: u64)
    requires
        unique_keys(s),
        0 <= i < s.len(),
        s[i].0 == k,
    ensures
        lookup(s.update(i, (k, v)), q) == if q == k {
            Some(v)
        } else {
            lookup(s, q)
        },
    decreases s.len(),
{
    let s1 = s.update(i, (k, v));
    if i == 0 {
        assert(s1.drop_first() =~= s.drop_first());
        if q == k {
        } else {
            assert(s1[0].0 == k);
        }
    } else {
        assert(s1.drop_first() =~= s.drop_first().update(i - 1, (k, v)));
        assert(unique_keys(s.drop_first())) by {
            assert(forall|a: int|
                0 <= a < s.drop_first().len() ==> #[trigger] s.drop_first()[a] == s[a + 1]);
        }
        lemma_lookup_update(s.drop_first(), i - 1, k, v, q);
        assert(s1[0] == s[0]);
        assert(s[0].0 != k);
    }
}

/// Removing a key's entry drops only that key's lookup.
pub proof fn lemma_lookup_remove<V>(s: Seq<(u64, V)>, i: int, q: u64)
    requires
        unique_keys(s),
        0 <= i < s.len(),
    ensures
        lookup(s.remove(i), q) == if q == s[i].0 {
            None::<V>
        } else {
            lookup(s, q)
        },
    decreases s.len(),
{
    let s1 = s.remove(i);
    if i == 0 {
        assert(s1 =~= s.drop_first());
        if q == s[0].0 {
            lemma_has_key(s.drop_first(), q);
            if has_key(s.drop_first(), q) {
                let j = choose|j: int|
                    0 <= j < s.drop_first().len() && (#[trigger] s.drop_first()[j]).0 == q;
                assert(s[j + 1].0 == q);
                assert(s[0].0 != s[j + 1].0);
            }
        }
    } else {
        assert(s1.drop_first() =~= s.drop_first().remove(i - 1));
        assert(unique_keys(s.drop_first())) by {
            assert(forall|a: int|
                0 <= a < s.drop_first().len() ==> #[trigger] s.drop_first()[a] == s[a + 1]);
        }
        lemma_lookup_remove(s.drop_first(), i - 1, q);
        assert(s1[0] == s[0]);
    }
}

/// Distinct keys survive replacing a value in place.
pub proof fn lemma_unique_update<V>(s: Seq<(u64, V)>, i: int, k: u64, v: V)
    requires
        unique_keys(s),
        0 <= i < s.len(),
        s[i].0 == k,
    ensures
        unique_keys(s.update(i, (k, v))),
{
    let s1 = s.update(i, (k, v));
    assert(forall|j: int| 0 <= j < s1.len() ==> (#[trigger] s1[j]).0 == s[j].0);
}

/// Distinct keys survive removing an entry.
pub proof fn lemma_unique_remove<V>(s: Seq<(u64, V)>, i: int)
    requires
        unique_keys(s),
        0 <= i < s.len(),
    ensures
        unique_keys(s.remove(i)),
{
    let s1 = s.remove(i);
    assert forall|a: int, b: int|
        0 <= a < b < s1.len() implies (#[trigger] s1[a]).0 != (#[trigger] s1[b]).0 by {
        let a0 = if a < i {
            a
        } else {
            a + 1
        };
        let b0 = if b < i {
            b
        } else {
            b + 1
        };
        assert(s1[a] == s[a0] && s1[b] == s[b0]);
    }
}

/// Distinct keys survive appending a fresh key.
pub proof fn lemma_unique_push<V>(s: Seq<(u64, V)>, k: u64, v: V)
    requires
        unique_keys(s),
        !has_key(s, k),
    ensures
        unique_keys(s.push((k, v))),
{
    lemma_has_key(s, k);
    let s1 = s.push((k, v));
    assert(forall|j: int| 0 <= j < s.len() ==> #[trigger] s1[j] == s[j]);
}

/// An id-keyed map with deterministic (insertion) iteration order and
/// pairwise-distinct keys.
pub struct IdMap<V> {
    pub entries: Vec<(u64, V)>,
}

impl<V> IdMap<V> {
    /// The ordered entries.
    pub open spec fn view(&self) -> Seq<(u64, V)> {
        self.entries@
    }

    /// Distinct keys.
    pub open spec fn wf(&self) -> bool {
        unique_keys(self.entries@)
    }

    /// The empty map.
    pub fn new() -> (r: IdMap<V>)
        ensures
            r@ == Seq::<(u64, V)>::empty(),
            r.wf(),
    {
        IdMap { entries: Vec::new() }
    }

    pub fn len(&self) -> (r: usize)
        ensures
            r == self@.len(),
    {
        self.entries.len()
    }

    pub fn is_empty(&self) -> (r: bool)
        ensures
            r == (self@.len() == 0),
    {
        self.entries.len() == 0
    }

    /// The position of `k`'s entry, if the key is present.
    pub fn index_of(&self, k: u64) -> (r: Option<usize>)
        ensures
            r matches Some(i) ==> i < self@.len() && self@[i as int].0 == k && lookup(self@, k)
                == Some(self@[i as int].1),
            r is None ==> !has_key(self@, k),
    {
        let mut i: usize = 0;
        while i < self.entries.len()
            invariant
                i <= self@.len(),
                forall|j: int| 0 <= j < i ==> (#[trigger] self@[j]).0 != k,
            decreases self@.len() - i,
        {
            if self.entries[i].0 == k {
                proof {
                    lemma_lookup_at(self@, k, i as int);
                }
                return Some(i);
            }
            i = i + 1;
        }
        proof {
            lemma_lookup_none(self@, k);
        }
        None
    }

    pub fn contains_key(&self, k: u64) -> (r: bool)
        ensures
            r == has_key(self@, k),
    {
        self.index_of(k).is_some()
    }

    /// Borrow the value under `k`.
    pub fn get(&self, k: u64) -> (r: Option<&V>)
        ensures
            r matches Some(v) ==> lookup(self@, k) == Some(*v),
            r is None ==> !has_key(self@, k),
    {
        match self.index_of(k) {
            Some(i) => Some(&self.entries[i].1),
            None => None,
        }
    }

    /// Insert or replace: a present key keeps its position with the new
    /// value; a fresh key is appended.
    pub fn insert(&mut self, k: u64, v: V)
        requires
            old(self).wf(),
        ensures
            final(self).wf(),
            lookup(final(self)@, k) == Some(v),
            forall|q: u64| q != k ==> #[trigger] lookup(final(self)@, q) == lookup(old(self)@, q),
            if has_key(old(self)@, k) {
                exists|i: int|
                    0 <= i < old(self)@.len() && old(self)@[i].0 == k && final(self)@ == old(
                        self,
                    )@.update(i, (k, v))
            } else {
                final(self)@ == old(self)@.push((k, v))
            },
    {
        let ghost s0 = self@;
        match self.index_of(k) {
            Some(i) => {
                let mr = vstd::std_specs::vec::vec_index_mut(&mut self.entries, i);
                *mr = (k, v);
                proof {
                    assert(self@ =~= s0.update(i as int, (k, v)));
                    lemma_unique_update(s0, i as int, k, v);
                    lemma_lookup_update(s0, i as int, k, v, k);
                    assert forall|q: u64| q != k implies #[trigger] lookup(self@, q) == lookup(
                        s0,
                        q,
                    ) by {
                        lemma_lookup_update(s0, i as int, k, v, q);
                    }
                }
            },
            None => {
                self.entries.push((k, v));
                proof {
                    lemma_unique_push(s0, k, v);
                    lemma_lookup_push(s0, k, v, k);
                    assert forall|q: u64| q != k implies #[trigger] lookup(self@, q) == lookup(
                        s0,
                        q,
                    ) by {
                        lemma_lookup_push(s0, k, v, q);
                    }
                }
            },
        }
    }

    /// Remove `k`'s entry, keeping the order of the rest; a missing key
    /// changes nothing.
    pub fn remove(&mut self, k: u64)
        requires
            old(self).wf(),
        ensures
            final(self).wf(),
            !has_key(final(self)@, k),
            forall|q: u64| q != k ==> #[trigger] lookup(final(self)@, q) == lookup(old(self)@, q),
            if has_key(old(self)@, k) {
                exists|i: int|
                    0 <= i < old(self)@.len() && old(self)@[i].0 == k && final(self)@ == old(
                        self,
                    )@.remove(i)
            } else {
                final(self)@ == old(self)@
            },
    {
        let ghost s0 = self@;
        match self.index_of(k) {
            Some(i) => {
                self.entries.remove(i);
                proof {
                    assert(self@ == s0.remove(i as int));
                    lemma_unique_remove(s0, i as int);
                    lemma_lookup_remove(s0, i as int, k);
                    assert forall|q: u64| q != k implies #[trigger] lookup(self@, q) == lookup(
                        s0,
                        q,
                    ) by {
                        lemma_lookup_remove(s0, i as int, q);
                    }
                }
            },
            None => {},
        }
    }

    /// The key of the entry at position `i`.
    pub fn key_at(&self, i: usize) -> (r: u64)
        requires
            i < self@.len(),
        ensures
            r == self@[i as int].0,
    {
        self.entries[i].0
    }

    /// Borrow the value of the entry at position `i`.
    pub fn value_at(&self, i: usize) -> (r: &V)
        requires
            i < self@.len(),
        ensures
            *r == self@[i as int].1,
    {
        &self.entries[i].1
    }
}

} // verus!
