//! A set of ids with deterministic (insertion) iteration order.

use vstd::prelude::*;

verus! {

/// Pairwise-distinct elements.
pub open spec fn unique_ids(s: Seq<u64>) -> bool {
    forall|i: int, j: int| 0 <= i < j < s.len() ==> (#[trigger] s[i]) != (#[trigger] s[j])
}

/// A set of ids, kept in insertion order without duplicates.
pub struct IdSet {
    pub ids: Vec<u64>,
}

impl IdSet {
    /// The elements in order.
    pub open spec fn view(&self) -> Seq<u64> {
        self.ids@
    }

    pub open spec fn wf(&self) -> bool {
        unique_ids(self.ids@)
    }

    /// The empty set.
    pub fn new() -> (r: IdSet)
        ensures
            r@ == Seq::<u64>::empty(),
            r.wf(),
    {
        IdSet { ids: Vec::new() }
    }

    pub fn len(&self) -> (r: usize)
        ensures
            r == self@.len(),
    {
        self.ids.len()
    }

    pub fn contains(&self, k: u64) -> (r: bool)
        ensures
            r == self@.contains(k),
    {
        let mut i: usize = 0;
        while i < self.ids.len()
            invariant
                i <= self@.len(),
                forall|j: int| 0 <= j < i ==> self@[j] != k,
            decreases self@.len() - i,
        {
            if self.ids[i] == k {
                return true;
            }
            i = i + 1;
        }
        false
    }

    /// The element at position `i`.
    pub fn at(&self, i: usize) -> (r: u64)
        requires
            i < self@.len(),
        ensures
            r == self@[i as int],
    {
        self.ids[i]
    }

    /// Add `k`; a present element leaves the set unchanged.
    pub fn insert(&mut self, k: u64)
        requires
            old(self).wf(),
        ensures
            final(self).wf(),
            final(self)@ == if old(self)@.contains(k) {
                old(self)@
            } else {
                old(self)@.push(k)
            },
            final(self)@.contains(k),
            forall|q: u64| q != k ==> final(self)@.contains(q) == old(self)@.contains(q),
    {
        let ghost s0 = self@;
        if !self.contains(k) {
            self.ids.push(k);
            proof {
                assert(forall|j: int| 0 <= j < s0.len() ==> self@[j] == s0[j]);
                assert(self@[s0.len() as int] == k);
                assert forall|q: u64| q != k implies self@.contains(q) == s0.contains(q) by {
                    if self@.contains(q) {
                        let i = choose|i: int| 0 <= i < self@.len() && self@[i] == q;
                        assert(s0[i] == q);
                    }
                    if s0.contains(q) {
                        let i = choose|i: int| 0 <= i < s0.len() && s0[i] == q;
                        assert(self@[i] == q);
                    }
                }
            }
        }
    }

    /// Take `k` out, keeping the order of the rest; a missing element
    /// changes nothing.
    pub fn remove(&mut self, k: u64)
        requires
            old(self).wf(),
        ensures
            final(self).wf(),
            !final(self)@.contains(k),
            forall|q: u64| q != k ==> final(self)@.contains(q) == old(self)@.contains(q),
            if old(self)@.contains(k) {
                exists|i: int|
                    0 <= i < old(self)@.len() && old(self)@[i] == k && final(self)@ == old(
                        self,
                    )@.remove(i)
            } else {
                final(self)@ == old(self)@
            },
    {
        let ghost s0 = self@;
        let mut i: usize = 0;
        while i < self.ids.len()
            invariant
                self@ == s0,
                s0 == old(self)@,
                unique_ids(s0),
                i <= s0.len(),
                forall|j: int| 0 <= j < i ==> s0[j] != k,
            decreases s0.len() - i,
        {
            if self.ids[i] == k {
                self.ids.remove(i);
                proof {
                    let s1 = s0.remove(i as int);
                    s0.remove_ensures(i as int);
                    assert(self@ == s1);
                    assert(s1.len() == s0.len() - 1);
                    assert(unique_ids(s1)) by {
                        assert forall|a: int, b: int| 0 <= a < b < s1.len() implies s1[a]
                            != s1[b] by {
                            let a0 = if a < i {
                                a
                            } else {
                                a + 1
                            };
                            let b0 = if b < i {
                                b
                            } else {
                                b + 1
                            };
                            assert(a0 < b0 < s0.len());
                            assert(s1[a] == s0[a0]);
                            assert(s1[b] == s0[b0]);
                            assert(s0[a0] != s0[b0]);
                        }
                    }
                    assert(!s1.contains(k)) by {
                        if s1.contains(k) {
                            let j = choose|j: int| 0 <= j < s1.len() && s1[j] == k;
                            let j0 = if j < i {
                                j
                            } else {
                                j + 1
                            };
                            assert(s0[j0] == k);
                            assert(s0[i as int] == k);
                        }
                    }
                    assert forall|q: u64| q != k implies s1.contains(q) == s0.contains(q) by {
                        if s1.contains(q) {
                            let j = choose|j: int| 0 <= j < s1.len() && s1[j] == q;
                            let j0 = if j < i {
                                j
                            } else {
                                j + 1
                            };
                            assert(s0[j0] == q);
                        }
                        if s0.contains(q) {
                            let j0 = choose|j0: int| 0 <= j0 < s0.len() && s0[j0] == q;
                            if j0 < i {
                                assert(s1[j0] == q);
                            } else {
                                assert(j0 != i);
                                assert(s1[j0 - 1] == q);
                            }
                        }
                    }
                }
                return ;
            }
            i = i + 1;
        }
        proof {
            assert(!s0.contains(k)) by {
                if s0.contains(k) {
                    let j = choose|j: int| 0 <= j < s0.len() && s0[j] == k;
                }
            }
        }
    }
}

} // verus!
