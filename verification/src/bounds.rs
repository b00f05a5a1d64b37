//! Facts about the nearest breakpoints of a step function: each of them is
//! unique, and among finitely many breakpoints it exists whenever any
//! breakpoint qualifies.
use crate::order::key_le;
use crate::order::key_lt;
use crate::order::lawful_key;
use crate::order::lemma_key_order;
use crate::steps::Steps;
use vstd::prelude::*;

verus! {

/// `m` is in `s`, and no key of `s` comes after it.
pub open spec fn is_greatest<K: Ord>(s: Set<K>, m: K) -> bool {
    &&& s.contains(m)
    &&& forall|i: K| #[trigger] s.contains(i) ==> key_le(i, m)
}

/// `m` is in `s`, and no key of `s` comes before it.
pub open spec fn is_smallest<K: Ord>(s: Set<K>, m: K) -> bool {
    &&& s.contains(m)
    &&& forall|i: K| #[trigger] s.contains(i) ==> key_le(m, i)
}

/// A finite, non-empty set of keys has a greatest element.
pub proof fn lemma_greatest_exists<K: Ord + Clone>(s: Set<K>)
    requires
        lawful_key::<K>(),
        s.finite(),
        !s.is_empty(),
    ensures
        exists|m: K| is_greatest(s, m),
    decreases s.len(),
{
    lemma_key_order::<K>();
    let a = s.choose();
    let rest = s.remove(a);
    if rest.is_empty() {
        assert forall|i: K| #[trigger] s.contains(i) implies key_le(i, a) by {
            if i != a {
                assert(rest.contains(i));
            }
        }
        assert(is_greatest(s, a));
    } else {
        lemma_greatest_exists(rest);
        let m = choose|m: K| is_greatest(rest, m);
        let top = if key_lt(m, a) {
            a
        } else {
            m
        };
        assert forall|i: K| #[trigger] s.contains(i) implies key_le(i, top) by {
            if i != a {
                assert(rest.contains(i));
                assert(key_le(i, m));
            }
        }
        assert(is_greatest(s, top));
    }
}

/// A finite, non-empty set of keys has a smallest element.
pub proof fn lemma_smallest_exists<K: Ord + Clone>(s: Set<K>)
    requires
        lawful_key::<K>(),
        s.finite(),
        !s.is_empty(),
    ensures
        exists|m: K| is_smallest(s, m),
    decreases s.len(),
{
    lemma_key_order::<K>();
    let a = s.choose();
    let rest = s.remove(a);
    if rest.is_empty() {
        assert forall|i: K| #[trigger] s.contains(i) implies key_le(a, i) by {
            if i != a {
                assert(rest.contains(i));
            }
        }
        assert(is_smallest(s, a));
    } else {
        lemma_smallest_exists(rest);
        let m = choose|m: K| is_smallest(rest, m);
        let bottom = if key_lt(a, m) {
            a
        } else {
            m
        };
        assert forall|i: K| #[trigger] s.contains(i) implies key_le(bottom, i) by {
            if i != a {
                assert(rest.contains(i));
                assert(key_le(m, i));
            }
        }
        assert(is_smallest(s, bottom));
    }
}

impl<K: Ord + Clone, V> Steps<K, V> {
    /// A key that is the smallest breakpoint is what `min_key` gives.
    pub proof fn lemma_min_unique(self, j: K)
        requires
            lawful_key::<K>(),
            self.is_min(j),
        ensures
            self.min_key() == Some(j),
    {
        lemma_key_order::<K>();
        let c = choose|c: K| self.is_min(c);
        assert(key_le(c, j) && key_le(j, c));
    }

    /// A key that is the greatest breakpoint is what `max_key` gives.
    pub proof fn lemma_max_unique(self, j: K)
        requires
            lawful_key::<K>(),
            self.is_max(j),
        ensures
            self.max_key() == Some(j),
    {
        lemma_key_order::<K>();
        let c = choose|c: K| self.is_max(c);
        assert(key_le(c, j) && key_le(j, c));
    }

    /// A key that is the greatest breakpoint at or before `k` is what
    /// `floor_key` gives, and its value is in effect at `k`.
    pub proof fn lemma_floor_unique(self, k: K, j: K)
        requires
            lawful_key::<K>(),
            self.is_floor(k, j),
        ensures
            self.floor_key(k) == Some(j),
            self.value_at(k) == self.breakpoints[j],
    {
        lemma_key_order::<K>();
        let c = choose|c: K| self.is_floor(k, c);
        assert(key_le(c, j) && key_le(j, c));
    }

    /// A key that is the greatest breakpoint strictly before `k` is what
    /// `previous_key` gives.
    pub proof fn lemma_previous_unique(self, k: K, j: K)
        requires
            lawful_key::<K>(),
            self.is_previous(k, j),
        ensures
            self.previous_key(k) == Some(j),
            self.previous_value(k) == self.breakpoints[j],
    {
        lemma_key_order::<K>();
        let c = choose|c: K| self.is_previous(k, c);
        assert(key_le(c, j) && key_le(j, c));
    }

    /// A key that is the smallest breakpoint strictly after `k` is what
    /// `next_key` gives.
    pub proof fn lemma_next_unique(self, k: K, j: K)
        requires
            lawful_key::<K>(),
            self.is_next(k, j),
        ensures
            self.next_key(k) == Some(j),
            self.next_value(k) == self.breakpoints[j],
    {
        lemma_key_order::<K>();
        let c = choose|c: K| self.is_next(k, c);
        assert(key_le(c, j) && key_le(j, c));
    }

    /// `min_key` is the smallest breakpoint, and is absent only when there is
    /// no breakpoint.
    pub proof fn lemma_min_key(self)
        requires
            lawful_key::<K>(),
            self.breakpoints.dom().finite(),
        ensures
            match self.min_key() {
                Some(j) => self.is_min(j),
                None => self.breakpoints.dom().is_empty(),
            },
    {
        let s = self.breakpoints.dom();
        if !s.is_empty() {
            lemma_smallest_exists(s);
            let m = choose|m: K| is_smallest(s, m);
            assert(self.is_min(m));
        }
    }

    /// `max_key` is the greatest breakpoint, and is absent only when there is
    /// no breakpoint.
    pub proof fn lemma_max_key(self)
        requires
            lawful_key::<K>(),
            self.breakpoints.dom().finite(),
        ensures
            match self.max_key() {
                Some(j) => self.is_max(j),
                None => self.breakpoints.dom().is_empty(),
            },
    {
        let s = self.breakpoints.dom();
        if !s.is_empty() {
            lemma_greatest_exists(s);
            let m = choose|m: K| is_greatest(s, m);
            assert(self.is_max(m));
        }
    }

    /// `floor_key(k)` is the greatest breakpoint at or before `k`, and is
    /// absent only when every breakpoint lies after `k`.
    pub proof fn lemma_floor_key(self, k: K)
        requires
            lawful_key::<K>(),
            self.breakpoints.dom().finite(),
        ensures
            match self.floor_key(k) {
                Some(j) => self.is_floor(k, j),
                None => forall|i: K| #[trigger] self.breakpoints.contains_key(i) ==> key_lt(k, i),
            },
    {
        lemma_key_order::<K>();
        let s = self.breakpoints.dom().filter(|i: K| key_le(i, k));
        if !s.is_empty() {
            lemma_greatest_exists(s);
            let m = choose|m: K| is_greatest(s, m);
            assert forall|i: K| #[trigger] self.breakpoints.contains_key(i) && key_le(i, k) implies key_le(
                i,
                m,
            ) by {
                assert(s.contains(i));
            }
            assert(self.is_floor(k, m));
        } else {
            assert forall|i: K| #[trigger] self.breakpoints.contains_key(i) implies key_lt(k, i) by {
                assert(!s.contains(i));
            }
        }
    }

    /// `previous_key(k)` is the greatest breakpoint strictly before `k`, and
    /// is absent only when no breakpoint lies before `k`.
    pub proof fn lemma_previous_key(self, k: K)
        requires
            lawful_key::<K>(),
            self.breakpoints.dom().finite(),
        ensures
            match self.previous_key(k) {
                Some(j) => self.is_previous(k, j),
                None => forall|i: K| #[trigger] self.breakpoints.contains_key(i) ==> key_le(k, i),
            },
    {
        lemma_key_order::<K>();
        let s = self.breakpoints.dom().filter(|i: K| key_lt(i, k));
        if !s.is_empty() {
            lemma_greatest_exists(s);
            let m = choose|m: K| is_greatest(s, m);
            assert forall|i: K| #[trigger] self.breakpoints.contains_key(i) && key_lt(i, k) implies key_le(
                i,
                m,
            ) by {
                assert(s.contains(i));
            }
            assert(self.is_previous(k, m));
        } else {
            assert forall|i: K| #[trigger] self.breakpoints.contains_key(i) implies key_le(k, i) by {
                assert(!s.contains(i));
            }
        }
    }

    /// `next_key(k)` is the smallest breakpoint strictly after `k`, and is
    /// absent only when no breakpoint lies after `k`.
    pub proof fn lemma_next_key(self, k: K)
        requires
            lawful_key::<K>(),
            self.breakpoints.dom().finite(),
        ensures
            match self.next_key(k) {
                Some(j) => self.is_next(k, j),
                None => forall|i: K| #[trigger] self.breakpoints.contains_key(i) ==> key_le(i, k),
            },
    {
        lemma_key_order::<K>();
        let s = self.breakpoints.dom().filter(|i: K| key_lt(k, i));
        if !s.is_empty() {
            lemma_smallest_exists(s);
            let m = choose|m: K| is_smallest(s, m);
            assert forall|i: K| #[trigger] self.breakpoints.contains_key(i) && key_lt(k, i) implies key_le(
                m,
                i,
            ) by {
                assert(s.contains(i));
            }
            assert(self.is_next(k, m));
        } else {
            assert forall|i: K| #[trigger] self.breakpoints.contains_key(i) implies key_le(i, k) by {
                assert(!s.contains(i));
            }
        }
    }

    /// At a breakpoint its own value is in effect; elsewhere the value in
    /// effect is the one just before.
    pub proof fn lemma_value_at(self, k: K)
        requires
            lawful_key::<K>(),
            self.breakpoints.dom().finite(),
        ensures
            self.breakpoints.contains_key(k) ==> self.floor_key(k) == Some(k) && self.value_at(k)
                == self.breakpoints[k],
            !self.breakpoints.contains_key(k) ==> self.floor_key(k) == self.previous_key(k)
                && self.value_at(k) == self.previous_value(k),
    {
        lemma_key_order::<K>();
        if self.breakpoints.contains_key(k) {
            assert(self.is_floor(k, k));
            self.lemma_floor_unique(k, k);
        } else {
            self.lemma_previous_key(k);
            match self.previous_key(k) {
                Some(j) => {
                    assert(self.is_floor(k, j));
                    self.lemma_floor_unique(k, j);
                },
                None => {
                    assert forall|j: K| !self.is_floor(k, j) by {
                        if self.breakpoints.contains_key(j) {
                            assert(key_le(k, j));
                        }
                    }
                },
            }
        }
    }
}

} // verus!
