//! The mathematical model of the container: a step function over the keys.
//!
//! A step function is a default value together with finitely many
//! breakpoints. A breakpoint `(k, v)` says that the value becomes `v` at key
//! `k`; it stays `v` up to the next breakpoint. Before the first breakpoint
//! the default value is in effect.
//!
//! Everything the executable container promises is stated over this model.
use crate::order::key_le;
use crate::order::key_lt;
use vstd::prelude::*;

verus! {

/// A default value and the breakpoints at which the value changes.
#[verifier::reject_recursive_types(K)]
pub struct Steps<K, V> {
    pub default_value: V,
    pub breakpoints: Map<K, V>,
}

impl<K: Ord + Clone, V> Steps<K, V> {
    /// The step function that is `default_value` everywhere.
    pub open spec fn constant(default_value: V) -> Self {
        Steps { default_value, breakpoints: Map::empty() }
    }

    /// `j` is the smallest breakpoint.
    pub open spec fn is_min(self, j: K) -> bool {
        &&& self.breakpoints.contains_key(j)
        &&& forall|i: K| #[trigger] self.breakpoints.contains_key(i) ==> key_le(j, i)
    }

    /// `j` is the greatest breakpoint.
    pub open spec fn is_max(self, j: K) -> bool {
        &&& self.breakpoints.contains_key(j)
        &&& forall|i: K| #[trigger] self.breakpoints.contains_key(i) ==> key_le(i, j)
    }

    /// `j` is the greatest breakpoint at or before `k`.
    pub open spec fn is_floor(self, k: K, j: K) -> bool {
        &&& self.breakpoints.contains_key(j)
        &&& key_le(j, k)
        &&& forall|i: K| #[trigger] self.breakpoints.contains_key(i) && key_le(i, k) ==> key_le(i, j)
    }

    /// `j` is the greatest breakpoint strictly before `k`.
    pub open spec fn is_previous(self, k: K, j: K) -> bool {
        &&& self.breakpoints.contains_key(j)
        &&& key_lt(j, k)
        &&& forall|i: K| #[trigger] self.breakpoints.contains_key(i) && key_lt(i, k) ==> key_le(i, j)
    }

    /// `j` is the smallest breakpoint strictly after `k`.
    pub open spec fn is_next(self, k: K, j: K) -> bool {
        &&& self.breakpoints.contains_key(j)
        &&& key_lt(k, j)
        &&& forall|i: K| #[trigger] self.breakpoints.contains_key(i) && key_lt(k, i) ==> key_le(j, i)
    }

    /// The smallest breakpoint, if there is any breakpoint.
    pub open spec fn min_key(self) -> Option<K> {
        if exists|j: K| self.is_min(j) {
            Some(choose|j: K| self.is_min(j))
        } else {
            None
        }
    }

    /// The greatest breakpoint, if there is any breakpoint.
    pub open spec fn max_key(self) -> Option<K> {
        if exists|j: K| self.is_max(j) {
            Some(choose|j: K| self.is_max(j))
        } else {
            None
        }
    }

    /// The greatest breakpoint at or before `k`, if there is one.
    pub open spec fn floor_key(self, k: K) -> Option<K> {
        if exists|j: K| self.is_floor(k, j) {
            Some(choose|j: K| self.is_floor(k, j))
        } else {
            None
        }
    }

    /// The greatest breakpoint strictly before `k`, if there is one.
    pub open spec fn previous_key(self, k: K) -> Option<K> {
        if exists|j: K| self.is_previous(k, j) {
            Some(choose|j: K| self.is_previous(k, j))
        } else {
            None
        }
    }

    /// The smallest breakpoint strictly after `k`, if there is one.
    pub open spec fn next_key(self, k: K) -> Option<K> {
        if exists|j: K| self.is_next(k, j) {
            Some(choose|j: K| self.is_next(k, j))
        } else {
            None
        }
    }

    /// The value in effect at `k`: that of the greatest breakpoint at or
    /// before `k`, the default value if there is none.
    pub open spec fn value_at(self, k: K) -> V {
        match self.floor_key(k) {
            Some(j) => self.breakpoints[j],
            None => self.default_value,
        }
    }

    /// The value in effect just before `k`: that of the greatest breakpoint
    /// strictly before `k`, the default value if there is none.
    pub open spec fn previous_value(self, k: K) -> V {
        match self.previous_key(k) {
            Some(j) => self.breakpoints[j],
            None => self.default_value,
        }
    }

    /// The value of the smallest breakpoint strictly after `k`, the default
    /// value if there is none.
    pub open spec fn next_value(self, k: K) -> V {
        match self.next_key(k) {
            Some(j) => self.breakpoints[j],
            None => self.default_value,
        }
    }

    /// The breakpoints in the half-open range from `begin` to `end`.
    pub open spec fn keys_in_range(self, begin: K, end: K) -> Set<K> {
        Set::new(|j: K| self.breakpoints.contains_key(j) && key_le(begin, j) && key_lt(j, end))
    }

    /// The run that starts at breakpoint `k` reaches past `threshold`: the
    /// next breakpoint lies strictly after it, or there is none.
    pub open spec fn key_exceeds(self, k: K, threshold: K) -> bool {
        match self.next_key(k) {
            Some(j) => key_lt(threshold, j),
            None => true,
        }
    }

    /// `j` is a breakpoint in the closed range from `begin` to `end`.
    pub open spec fn is_within(self, begin: K, end: K, j: K) -> bool {
        &&& self.breakpoints.contains_key(j)
        &&& key_le(begin, j)
        &&& key_le(j, end)
    }

    /// Some breakpoint lies in the closed range from `begin` to `end`.
    pub open spec fn touches(self, begin: K, end: K) -> bool {
        exists|j: K| self.is_within(begin, end, j)
    }

    /// Whether assigning `value` to the range from `begin` to `end` is
    /// carried out: the range is not empty, and `value` differs both from
    /// the value in effect just before `begin` and from the value in effect
    /// at `end`. Only those two values are looked at: an assignment that
    /// would change lookups inside the range is refused all the same when
    /// one of them is `value`.
    pub open spec fn accepts(self, begin: K, end: K, value: V) -> bool {
        &&& key_lt(begin, end)
        &&& value != self.previous_value(begin)
        &&& value != self.value_at(end)
    }

    /// The value that an accepted assignment to the range from `begin` to
    /// `end` leaves in effect at `end`: the one that was in effect there,
    /// unless no breakpoint lay in the closed range, in which case the
    /// default value takes over.
    pub open spec fn end_value(self, begin: K, end: K) -> V {
        if self.touches(begin, end) {
            self.value_at(end)
        } else {
            self.default_value
        }
    }

    /// The step function after assigning `value` to the range from `begin`
    /// to `end`. A refused assignment changes nothing. An accepted one drops
    /// the breakpoints inside the range, sets a breakpoint with `value` at
    /// `begin`, and one with `end_value` at `end`.
    pub open spec fn assign(self, begin: K, end: K, value: V) -> Self {
        if self.accepts(begin, end, value) {
            Steps {
                default_value: self.default_value,
                breakpoints: self.breakpoints.remove_keys(self.keys_in_range(begin, end)).insert(
                    begin,
                    value,
                ).insert(end, self.end_value(begin, end)),
            }
        } else {
            self
        }
    }

    /// An accepted assignment that lands strictly inside one run, with no
    /// breakpoint in the range or at its end, and that leaves two
    /// neighbouring runs with one value: the default value takes over at
    /// `end`, and either `value` is the default value, or the run after
    /// `end` already had it.
    pub open spec fn splits_run(self, begin: K, end: K, value: V) -> bool {
        &&& self.accepts(begin, end, value)
        &&& !self.touches(begin, end)
        &&& (value == self.default_value || (self.next_key(end) is Some && self.next_value(end)
            == self.default_value))
    }

    /// The step function after the assignments of `ops`, each a range's
    /// begin, its end and a value, carried out in turn.
    pub open spec fn assign_all(self, ops: Seq<(K, K, V)>) -> Self
        decreases ops.len(),
    {
        if ops.len() == 0 {
            self
        } else {
            self.assign_all(ops.drop_last()).assign(ops.last().0, ops.last().1, ops.last().2)
        }
    }

    /// None of the assignments of `ops`, carried out in turn, splits a run
    /// of the step function that it meets.
    pub open spec fn never_splits(self, ops: Seq<(K, K, V)>) -> bool {
        forall|n: int|
            0 <= n < ops.len() ==> !(#[trigger] self.assign_all(ops.take(n))).splits_run(
                ops[n].0,
                ops[n].1,
                ops[n].2,
            )
    }

    /// The breakpoints are finitely many, and from the greatest of them on
    /// the default value is in effect.
    pub open spec fn wf(self) -> bool {
        &&& self.breakpoints.dom().finite()
        &&& forall|j: K| #[trigger] self.is_max(j) ==> self.breakpoints[j] == self.default_value
    }

    /// No breakpoint repeats the value that is in effect just before it.
    pub open spec fn canonical(self) -> bool {
        forall|j: K| #[trigger]
            self.breakpoints.contains_key(j) ==> self.breakpoints[j] != self.previous_value(j)
    }
}

} // verus!
