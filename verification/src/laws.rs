//! What holds of assignment and lookup on every step function.
use crate::order::key_le;
use crate::order::key_lt;
use crate::order::lawful_key;
use crate::order::lemma_key_order;
use crate::steps::Steps;
use vstd::prelude::*;

verus! {

impl<K: Ord + Clone, V> Steps<K, V> {
    /// On the constant step function every key has the default value.
    pub proof fn law_constant_lookup(default_value: V, k: K)
        ensures
            Self::constant(default_value).wf(),
            Self::constant(default_value).canonical(),
            Self::constant(default_value).value_at(k) == default_value,
            Self::constant(default_value).previous_value(k) == default_value,
    {
        let c = Self::constant(default_value);
        assert forall|j: K| !c.is_floor(k, j) by {}
        assert forall|j: K| !c.is_previous(k, j) by {}
    }

    /// Before the first breakpoint and from the last breakpoint on, the
    /// default value is in effect.
    pub proof fn law_default_outside(self, k: K)
        requires
            lawful_key::<K>(),
            self.wf(),
            (forall|i: K| #[trigger] self.breakpoints.contains_key(i) ==> key_lt(k, i)) || (forall|
                i: K,
            | #[trigger] self.breakpoints.contains_key(i) ==> key_le(i, k)),
        ensures
            self.value_at(k) == self.default_value,
    {
        lemma_key_order::<K>();
        self.lemma_floor_key(k);
        match self.floor_key(k) {
            Some(f) => {
                assert(self.is_max(f));
            },
            None => {},
        }
    }

    /// The last breakpoint of a well-formed step function carries the
    /// default value.
    pub proof fn law_last_breakpoint_default(self)
        requires
            lawful_key::<K>(),
            self.wf(),
        ensures
            match self.max_key() {
                Some(j) => self.breakpoints[j] == self.default_value,
                None => self.breakpoints.dom().is_empty(),
            },
    {
        self.lemma_max_key();
    }

    /// An assignment to an empty or inverted range changes nothing.
    pub proof fn law_empty_range_refused(self, begin: K, end: K, value: V)
        requires
            !key_lt(begin, end),
        ensures
            !self.accepts(begin, end, value),
            self.assign(begin, end, value) == self,
    {
    }

    /// Assigning a value that is already in effect on the whole range and at
    /// its end changes nothing.
    pub proof fn law_redundant_assign_refused(self, begin: K, end: K, value: V)
        requires
            lawful_key::<K>(),
            forall|k: K| key_le(begin, k) && key_le(k, end) ==> #[trigger] self.value_at(k) == value,
        ensures
            !self.accepts(begin, end, value),
            self.assign(begin, end, value) == self,
            self.assign(begin, end, value).breakpoints.len() == self.breakpoints.len(),
    {
        lemma_key_order::<K>();
        if key_lt(begin, end) {
            assert(self.value_at(end) == value);
        }
    }

    /// The breakpoints of an accepted assignment: those outside the range,
    /// and the two ends of the range.
    pub proof fn lemma_assign_keys(self, begin: K, end: K, value: V)
        requires
            lawful_key::<K>(),
            self.accepts(begin, end, value),
        ensures
            forall|j: K| #[trigger]
                self.assign(begin, end, value).breakpoints.contains_key(j) <==> j == begin || j
                    == end || (self.breakpoints.contains_key(j) && (key_lt(j, begin) || key_lt(
                    end,
                    j,
                ))),
            self.assign(begin, end, value).breakpoints[begin] == value,
            self.assign(begin, end, value).breakpoints[end] == self.end_value(begin, end),
            forall|j: K| #[trigger]
                self.breakpoints.contains_key(j) && (key_lt(j, begin) || key_lt(end, j))
                    ==> self.assign(begin, end, value).breakpoints[j] == self.breakpoints[j],
            self.assign(begin, end, value).default_value == self.default_value,
    {
        lemma_key_order::<K>();
        let post = self.assign(begin, end, value);
        assert forall|j: K| #[trigger]
            post.breakpoints.contains_key(j) <==> j == begin || j == end || (
            self.breakpoints.contains_key(j) && (key_lt(j, begin) || key_lt(end, j))) by {
            if self.breakpoints.contains_key(j) && j != begin && j != end {
                assert(self.keys_in_range(begin, end).contains(j) <==> key_le(begin, j) && key_lt(
                    j,
                    end,
                ));
            }
        }
    }

    /// Assignment keeps a step function well formed.
    pub proof fn law_assign_wf(self, begin: K, end: K, value: V)
        requires
            lawful_key::<K>(),
            self.wf(),
        ensures
            self.assign(begin, end, value).wf(),
    {
        lemma_key_order::<K>();
        let post = self.assign(begin, end, value);
        if self.accepts(begin, end, value) {
            self.lemma_assign_keys(begin, end, value);
            assert(post.breakpoints.dom().finite()) by {
                let kept = self.breakpoints.remove_keys(self.keys_in_range(begin, end));
                assert(kept.dom() =~= self.breakpoints.dom().difference(
                    self.keys_in_range(begin, end),
                ));
            }
            assert forall|j: K| #[trigger] post.is_max(j) implies post.breakpoints[j]
                == post.default_value by {
                assert(post.breakpoints.contains_key(end));
                assert(key_le(end, j));
                if j == end {
                    if self.touches(begin, end) {
                        let w = choose|w: K| self.is_within(begin, end, w);
                        self.lemma_floor_key(end);
                        let f = self.floor_key(end)->0;
                        assert(self.is_floor(end, f));
                        assert(self.is_max(f)) by {
                            assert forall|i: K| #[trigger]
                                self.breakpoints.contains_key(i) implies key_le(i, f) by {
                                if key_lt(end, i) {
                                    assert(post.breakpoints.contains_key(i));
                                }
                            }
                        }
                    }
                } else {
                    assert(self.is_max(j)) by {
                        assert forall|i: K| #[trigger]
                            self.breakpoints.contains_key(i) implies key_le(i, j) by {
                            if key_lt(end, i) {
                                assert(post.breakpoints.contains_key(i));
                            }
                        }
                    }
                }
            }
        }
    }

    /// What an accepted assignment does to every lookup. Inside the range
    /// the new value is in effect. Before the range nothing changes. From the
    /// end of the range on nothing changes either, except that where no
    /// breakpoint lay between `begin` and the key looked up, the default
    /// value is now in effect.
    pub proof fn law_assign_lookup(self, begin: K, end: K, value: V, k: K)
        requires
            lawful_key::<K>(),
            self.wf(),
            self.accepts(begin, end, value),
        ensures
            self.assign(begin, end, value).value_at(k) == (if key_le(begin, k) && key_lt(k, end) {
                value
            } else if key_lt(k, begin) || self.touches(begin, k) {
                self.value_at(k)
            } else {
                self.default_value
            }),
    {
        lemma_key_order::<K>();
        let post = self.assign(begin, end, value);
        self.lemma_assign_keys(begin, end, value);
        self.lemma_floor_key(k);
        if key_le(begin, k) && key_lt(k, end) {
            assert(post.is_floor(k, begin));
            post.lemma_floor_unique(k, begin);
        } else if key_lt(k, begin) {
            match self.floor_key(k) {
                Some(f) => {
                    assert(post.is_floor(k, f));
                    post.lemma_floor_unique(k, f);
                },
                None => {
                    assert forall|j: K| !post.is_floor(k, j) by {
                        if post.breakpoints.contains_key(j) && key_le(j, k) {
                            assert(self.breakpoints.contains_key(j));
                        }
                    }
                },
            }
        } else {
            assert(key_le(end, k));
            if self.floor_key(k) is Some && key_lt(end, self.floor_key(k)->0) {
                let f = self.floor_key(k)->0;
                assert(post.is_floor(k, f));
                post.lemma_floor_unique(k, f);
                assert(self.is_within(begin, k, f));
            } else {
                assert(post.is_floor(k, end)) by {
                    assert forall|i: K| #[trigger]
                        post.breakpoints.contains_key(i) && key_le(i, k) implies key_le(i, end) by {
                        if key_lt(end, i) {
                            assert(self.breakpoints.contains_key(i));
                        }
                    }
                }
                post.lemma_floor_unique(k, end);
                if self.touches(begin, end) {
                    let w = choose|w: K| self.is_within(begin, end, w);
                    assert(self.is_within(begin, k, w));
                    let f = self.floor_key(k)->0;
                    assert(self.is_floor(end, f));
                    self.lemma_floor_unique(end, f);
                } else {
                    assert forall|w: K| !self.is_within(begin, k, w) by {
                        if self.is_within(begin, k, w) {
                            if key_le(w, end) {
                                assert(self.is_within(begin, end, w));
                            }
                        }
                    }
                }
            }
        }
    }

    /// What an accepted assignment does to the value in effect just before
    /// a key. Up to `begin` nothing changes. Just before a key after `begin`
    /// and up to `end`, the new value is in effect. Further on nothing
    /// changes either, except that where no breakpoint lay from `begin` up
    /// to the key, the default value is now in effect.
    pub proof fn law_assign_previous(self, begin: K, end: K, value: V, k: K)
        requires
            lawful_key::<K>(),
            self.wf(),
            self.accepts(begin, end, value),
        ensures
            self.assign(begin, end, value).previous_value(k) == (if key_lt(begin, k) && key_le(
                k,
                end,
            ) {
                value
            } else if key_le(k, begin) || !self.keys_in_range(begin, k).is_empty() {
                self.previous_value(k)
            } else {
                self.default_value
            }),
    {
        lemma_key_order::<K>();
        let post = self.assign(begin, end, value);
        self.lemma_assign_keys(begin, end, value);
        self.lemma_previous_key(k);
        if key_lt(begin, k) && key_le(k, end) {
            assert(post.is_previous(k, begin));
            post.lemma_previous_unique(k, begin);
        } else if key_le(k, begin) {
            match self.previous_key(k) {
                Some(p) => {
                    assert(post.is_previous(k, p));
                    post.lemma_previous_unique(k, p);
                },
                None => {
                    assert forall|i: K| !post.is_previous(k, i) by {
                        if post.breakpoints.contains_key(i) && key_lt(i, k) {
                            assert(self.breakpoints.contains_key(i));
                        }
                    }
                },
            }
        } else {
            assert(key_lt(end, k));
            if self.previous_key(k) is Some && key_lt(end, self.previous_key(k)->0) {
                let p = self.previous_key(k)->0;
                assert(post.is_previous(k, p));
                post.lemma_previous_unique(k, p);
                assert(self.keys_in_range(begin, k).contains(p));
            } else {
                assert(post.is_previous(k, end)) by {
                    assert forall|i: K| #[trigger]
                        post.breakpoints.contains_key(i) && key_lt(i, k) implies key_le(i, end) by {
                        if key_lt(end, i) {
                            assert(self.breakpoints.contains_key(i));
                        }
                    }
                }
                post.lemma_previous_unique(k, end);
                if self.touches(begin, end) {
                    let w = choose|w: K| self.is_within(begin, end, w);
                    assert(self.keys_in_range(begin, k).contains(w));
                    let p = self.previous_key(k)->0;
                    assert(self.is_floor(end, p));
                    self.lemma_floor_unique(end, p);
                } else {
                    assert forall|w: K| !self.keys_in_range(begin, k).contains(w) by {
                        if self.keys_in_range(begin, k).contains(w) {
                            if key_le(w, end) {
                                assert(self.is_within(begin, end, w));
                            }
                        }
                    }
                    assert(self.keys_in_range(begin, k) =~= Set::empty());
                }
            }
        }
    }

    /// Assignment keeps a step function canonical, except where it splits a
    /// run: a canonical step function stays canonical exactly under the
    /// assignments that do not.
    pub proof fn law_assign_canonical(self, begin: K, end: K, value: V)
        requires
            lawful_key::<K>(),
            self.wf(),
            self.canonical(),
        ensures
            self.assign(begin, end, value).canonical() <==> !self.splits_run(begin, end, value),
    {
        lemma_key_order::<K>();
        let post = self.assign(begin, end, value);
        if self.accepts(begin, end, value) {
            self.lemma_assign_keys(begin, end, value);
            self.lemma_next_key(end);
            if self.splits_run(begin, end, value) {
                if value == self.default_value {
                    self.law_assign_previous(begin, end, value, end);
                    assert(post.breakpoints.contains_key(end));
                    assert(post.breakpoints[end] == post.previous_value(end));
                } else {
                    let n = self.next_key(end)->0;
                    assert(self.is_next(end, n));
                    self.law_assign_previous(begin, end, value, n);
                    assert forall|w: K| !self.keys_in_range(begin, n).contains(w) by {
                        if self.keys_in_range(begin, n).contains(w) {
                            if key_le(w, end) {
                                assert(self.is_within(begin, end, w));
                            }
                        }
                    }
                    assert(post.breakpoints.contains_key(n));
                    assert(post.breakpoints[n] == post.previous_value(n));
                }
            } else {
                assert forall|j: K| #[trigger] post.breakpoints.contains_key(j) implies post.breakpoints[j]
                    != post.previous_value(j) by {
                    self.law_assign_previous(begin, end, value, j);
                    if j != begin && j != end && key_lt(end, j) && self.keys_in_range(
                        begin,
                        j,
                    ).is_empty() {
                        assert(self.is_next(end, j)) by {
                            assert forall|i: K| #[trigger]
                                self.breakpoints.contains_key(i) && key_lt(end, i) implies key_le(
                                j,
                                i,
                            ) by {
                                if key_lt(i, j) {
                                    assert(self.keys_in_range(begin, j).contains(i));
                                }
                            }
                        }
                        self.lemma_next_unique(end, j);
                        assert(!self.touches(begin, end)) by {
                            if self.touches(begin, end) {
                                let w = choose|w: K| self.is_within(begin, end, w);
                                assert(self.keys_in_range(begin, j).contains(w));
                            }
                        }
                    }
                }
            }
        }
    }

    /// Any sequence of assignments keeps a step function well formed, and
    /// keeps a canonical one canonical as long as none of them splits a run.
    pub proof fn law_assign_all(self, ops: Seq<(K, K, V)>)
        requires
            lawful_key::<K>(),
            self.wf(),
        ensures
            self.assign_all(ops).wf(),
            self.canonical() && self.never_splits(ops) ==> self.assign_all(ops).canonical(),
        decreases ops.len(),
    {
        if ops.len() > 0 {
            let earlier = ops.drop_last();
            let before = self.assign_all(earlier);
            self.law_assign_all(earlier);
            before.law_assign_wf(ops.last().0, ops.last().1, ops.last().2);
            if self.canonical() && self.never_splits(ops) {
                assert(self.never_splits(earlier)) by {
                    assert forall|n: int| 0 <= n < earlier.len() implies !(#[trigger] self.assign_all(
                        earlier.take(n),
                    )).splits_run(earlier[n].0, earlier[n].1, earlier[n].2) by {
                        assert(earlier.take(n) =~= ops.take(n));
                    }
                }
                assert(ops.take(ops.len() - 1) =~= earlier);
                before.law_assign_canonical(ops.last().0, ops.last().1, ops.last().2);
            }
        }
    }

    /// In a canonical step function no breakpoint can be spared: without it,
    /// the lookup at its key gives another value.
    pub proof fn law_canonical_is_minimal(self, j: K)
        requires
            lawful_key::<K>(),
            self.wf(),
            self.canonical(),
            self.breakpoints.contains_key(j),
        ensures
            (Steps { default_value: self.default_value, breakpoints: self.breakpoints.remove(j) }).value_at(
                j,
            ) != self.value_at(j),
    {
        lemma_key_order::<K>();
        let without = Steps { default_value: self.default_value, breakpoints: self.breakpoints.remove(j) };
        self.lemma_value_at(j);
        self.lemma_previous_key(j);
        without.lemma_value_at(j);
        match self.previous_key(j) {
            Some(p) => {
                assert(without.is_previous(j, p));
                without.lemma_previous_unique(j, p);
            },
            None => {
                assert forall|i: K| !without.is_previous(j, i) by {
                    if without.breakpoints.contains_key(i) {
                        assert(self.breakpoints.contains_key(i));
                    }
                }
            },
        }
    }
}

} // verus!
