//! The container: a step function over the keys, kept as an ordered map of
//! breakpoints and a default value.
use crate::order::key_le;
use crate::order::key_lt;
use crate::order::lawful_key;
use crate::order::lawful_value;
use crate::order::lemma_increasing;
use crate::order::lemma_key_order;
use crate::order::lemma_value_equality;
use crate::steps::Steps;
use std::collections::BTreeMap;
use std::hash::Hash;
use std::ops::Index;
use vstd::prelude::*;
use vstd::std_specs::btree::increasing_seq;
use vstd::std_specs::btree::spec_keys_iter;
use vstd::std_specs::iter::IteratorSpec;

verus! {

/// A map from every key to a value, stored as the keys at which the value
/// changes. It starts out with one value for all keys; `assign` then sets a
/// half-open range of keys to a value.
#[derive(Debug)]
pub struct IntervalMap<K, V> where K: Ord + Eq + Hash + Clone, V: Eq + Clone {
    default_value: V,
    value_map: BTreeMap<K, V>,
}

impl<K, V> View for IntervalMap<K, V> where K: Ord + Eq + Hash + Clone, V: Eq + Clone {
    type V = Steps<K, V>;

    closed spec fn view(&self) -> Steps<K, V> {
        Steps { default_value: self.default_value, breakpoints: self.value_map@ }
    }
}

impl<K, V> IntervalMap<K, V> where K: Ord + Eq + Hash + Clone, V: Eq + Clone {
    /// The key and value types behave as the container assumes, and the step
    /// function it holds is well formed.
    pub open spec fn wf(&self) -> bool {
        &&& lawful_key::<K>()
        &&& lawful_value::<V>()
        &&& self@.wf()
    }

    /// A sequence that holds each breakpoint once, in ascending order: what
    /// the store hands out when its keys are walked.
    closed spec fn lists(&self, s: Seq<&K>) -> bool {
        &&& s.len() == self.value_map@.dom().len()
        &&& forall|i: int|
            0 <= i < s.len() ==> self.value_map@.contains_key(*#[trigger] s[i])
        &&& forall|j: K| #[trigger]
            self.value_map@.contains_key(j) ==> exists|i: int|
                0 <= i < s.len() && *#[trigger] s[i] == j
        &&& forall|i: int, j: int|
            0 <= i < j < s.len() ==> key_lt(*#[trigger] s[i], *#[trigger] s[j])
    }

    /// What the standard library promises of a walk over the keys amounts to
    /// `lists`.
    proof fn lemma_lists(&self, s: Seq<&K>)
        requires
            lawful_key::<K>(),
            s.unref().to_set() == self.value_map@.dom(),
            s.len() == self.value_map@.dom().len(),
            increasing_seq(s),
        ensures
            self.lists(s),
    {
        assert forall|i: int| 0 <= i < s.len() implies self.value_map@.contains_key(
            *#[trigger] s[i],
        ) by {
            assert(s.unref()[i] == *s[i]);
            assert(s.unref().to_set().contains(s.unref()[i]));
        }
        assert forall|j: K| #[trigger] self.value_map@.contains_key(j) implies exists|i: int|
            0 <= i < s.len() && *#[trigger] s[i] == j by {
            assert(s.unref().to_set().contains(j));
            let i = choose|i: int| 0 <= i < s.unref().len() && s.unref()[i] == j;
            assert(*s[i] == j);
        }
        lemma_increasing(s);
    }

    /// A container in which `default` is in effect at every key.
    pub fn new(default: V) -> (map: Self)
        requires
            lawful_key::<K>(),
            lawful_value::<V>(),
        ensures
            map.wf(),
            map@ == Steps::<K, V>::constant(default),
            map@.canonical(),
            forall|k: K| #[trigger] map@.value_at(k) == default,
    {
        proof {
            assert forall|k: K| #[trigger] Steps::<K, V>::constant(default).value_at(k)
                == default by {
                Steps::<K, V>::law_constant_lookup(default, k);
            }
        }
        Self { default_value: default, value_map: BTreeMap::new() }
    }

    /// Sets the value on the half-open range from `key_begin` to `key_end`
    /// to `value`, and says whether it did.
    ///
    /// Nothing is done, and `false` is returned, when the range is empty or
    /// when `value` is already in effect just before `key_begin` or at
    /// `key_end`. Otherwise the breakpoints inside the range give way to one
    /// at `key_begin`; a run that reached past `key_end` goes on from
    /// `key_end`, and where no breakpoint lay in the range or at its end the
    /// default value takes over at `key_end`.
    pub fn assign(&mut self, key_begin: &K, key_end: &K, value: &V) -> (changed: bool)
        requires
            old(self).wf(),
        ensures
            final(self).wf(),
            changed == old(self)@.accepts(*key_begin, *key_end, *value),
            final(self)@ == old(self)@.assign(*key_begin, *key_end, *value),
            !changed ==> final(self)@ == old(self)@,
            old(self)@.canonical() ==> (final(self)@.canonical() <==> !old(self)@.splits_run(
                *key_begin,
                *key_end,
                *value,
            )),
    {
        let ghost pre = self@;
        proof {
            pre.law_assign_wf(*key_begin, *key_end, *value);
            if pre.canonical() {
                pre.law_assign_canonical(*key_begin, *key_end, *value);
            }
            lemma_key_order::<K>();
            lemma_value_equality::<V>();
            pre.lemma_previous_key(*key_begin);
            pre.lemma_floor_key(*key_end);
            pre.lemma_value_at(*key_end);
        }
        if *key_begin >= *key_end {
            return false;
        }
        if self.value_map.is_empty() && *value != self.default_value {
            let first = key_begin.clone();
            let first_value = value.clone();
            let last = key_end.clone();
            let last_value = self.default_value.clone();
            assert(cloned::<K>(*key_begin, first) && cloned::<K>(*key_end, last));
            assert(cloned::<V>(*value, first_value) && cloned::<V>(self.default_value, last_value));
            self.value_map.insert(first, first_value);
            self.value_map.insert(last, last_value);
            proof {
                assert(pre.keys_in_range(*key_begin, *key_end) =~= Set::empty());
                assert(!pre.touches(*key_begin, *key_end));
                assert(self@.breakpoints =~= pre.assign(*key_begin, *key_end, *value).breakpoints);
            }
            return true;
        }
        if *value == *self.previous_value(key_begin) || *value == *self.index(key_end) {
            return false;
        }
        let overlapped = self.keys_in_range(key_begin, key_end);
        let mut end_set = false;
        if !overlapped.is_empty() {
            if !self.value_map.contains_key(key_end) {
                let last_overlap = overlapped.last().unwrap();
                proof {
                    pre.lemma_next_key(*last_overlap);
                    assert(overlapped@.contains(*last_overlap));
                    assert(pre.is_within(*key_begin, *key_end, *last_overlap));
                    assert(pre.is_floor(*key_end, *last_overlap)) by {
                        assert forall|i: K| #[trigger]
                            pre.breakpoints.contains_key(i) && key_le(i, *key_end) implies key_le(
                            i,
                            *last_overlap,
                        ) by {
                            if key_le(*key_begin, i) {
                                assert(pre.keys_in_range(*key_begin, *key_end).contains(i));
                                assert(overlapped@.contains(i));
                            }
                        }
                    }
                    pre.lemma_floor_unique(*key_end, *last_overlap);
                    pre.lemma_value_at(*last_overlap);
                    // No breakpoint lies between the last one of the range
                    // and `key_end`, so its run always reaches past.
                    assert(pre.key_exceeds(*last_overlap, *key_end)) by {
                        if pre.next_key(*last_overlap) is Some {
                            let j = pre.next_key(*last_overlap)->0;
                            assert(pre.is_next(*last_overlap, j));
                            if key_lt(j, *key_end) {
                                assert(pre.keys_in_range(*key_begin, *key_end).contains(j));
                                assert(overlapped@.contains(j));
                            }
                        }
                    }
                }
                if self.key_exceeds(last_overlap, key_end) {
                    let held = self.index(last_overlap);
                    let kept = held.clone();
                    let end = key_end.clone();
                    assert(cloned::<K>(*key_end, end) && cloned::<V>(*held, kept));
                    self.value_map.insert(end, kept);
                    end_set = true;
                    assert(self.value_map@[*key_end] == pre.value_at(*key_end));
                }
            }
            let ghost base = self.value_map@;
            let ghost mut done: Seq<K> = Seq::empty();
            for elem in it: overlapped.iter()
                invariant
                    lawful_key::<K>(),
                    it.seq() == overlapped@.map_values(|k: K| &k),
                    self.default_value == pre.default_value,
                    done.len() == it.index(),
                    forall|n: int| 0 <= n < done.len() ==> #[trigger] done[n] == overlapped@[n],
                    forall|j: K| #[trigger]
                        self.value_map@.contains_key(j) <==> base.contains_key(j) && !done.contains(
                            j,
                        ),
                    forall|j: K| #[trigger]
                        self.value_map@.contains_key(j) ==> self.value_map@[j] == base[j],
            {
                proof {
                    let next = done.push(*elem);
                    assert(next.last() == *elem);
                    assert forall|j: K| #[trigger] next.contains(j) <==> done.contains(j) || j
                        == *elem by {
                        if next.contains(j) && j != *elem {
                            let n = choose|n: int| 0 <= n < next.len() && next[n] == j;
                            assert(done[n] == j);
                        }
                        if done.contains(j) {
                            let n = choose|n: int| 0 <= n < done.len() && done[n] == j;
                            assert(next[n] == j);
                        }
                    }
                    done = next;
                }
                self.value_map.remove(elem);
            }
            assert(done =~= overlapped@);
            assert(end_set ==> base[*key_end] == pre.value_at(*key_end));
            assert(end_set ==> !overlapped@.contains(*key_end) && self.value_map@.contains_key(
                *key_end,
            ));
        }
        proof {
            let in_range = pre.keys_in_range(*key_begin, *key_end);
            assert(end_set <==> overlapped.len() > 0 && !pre.breakpoints.contains_key(*key_end));
            assert forall|j: K| #[trigger]
                self.value_map@.contains_key(j) <==> (pre.breakpoints.contains_key(j)
                    && !in_range.contains(j)) || (end_set && j == *key_end) by {
                assert(overlapped@.contains(j) <==> in_range.contains(j));
            }
            assert(forall|j: K| #[trigger]
                self.value_map@.contains_key(j) && !(end_set && j == *key_end)
                    ==> self.value_map@[j] == pre.breakpoints[j]);
            assert(end_set ==> self.value_map@[*key_end] == pre.value_at(*key_end));
            if overlapped.len() > 0 {
                assert(overlapped@.contains(overlapped@[0]));
                assert(pre.is_within(*key_begin, *key_end, overlapped@[0]));
            } else if pre.breakpoints.contains_key(*key_end) {
                assert(pre.is_within(*key_begin, *key_end, *key_end));
            } else {
                assert forall|j: K| !pre.is_within(*key_begin, *key_end, j) by {
                    if pre.is_within(*key_begin, *key_end, j) {
                        assert(in_range.contains(j));
                        assert(overlapped@.contains(j));
                    }
                }
            }
            assert(pre.touches(*key_begin, *key_end) <==> overlapped.len() > 0
                || pre.breakpoints.contains_key(*key_end));
        }
        let first = key_begin.clone();
        let first_value = value.clone();
        assert(cloned::<K>(*key_begin, first) && cloned::<V>(*value, first_value));
        self.value_map.insert(first, first_value);
        if !end_set && !self.value_map.contains_key(key_end) {
            let last = key_end.clone();
            let last_value = self.default_value.clone();
            assert(cloned::<K>(*key_end, last) && cloned::<V>(self.default_value, last_value));
            self.value_map.insert(last, last_value);
        }
        proof {
            assert(pre.accepts(*key_begin, *key_end, *value));
            assert(self@.breakpoints =~= pre.assign(*key_begin, *key_end, *value).breakpoints);
        }
        true
    }

    /// The smallest breakpoint; `None` if there is no breakpoint.
    pub fn min_key(&self) -> (r: Option<&K>)
        requires
            self.wf(),
        ensures
            match r {
                Some(k) => self@.min_key() == Some(*k),
                None => self@.min_key() is None,
            },
            r is None <==> self@.breakpoints.dom().is_empty(),
    {
        let mut best: Option<&K> = None;
        proof {
            lemma_key_order::<K>();
            self.lemma_lists(spec_keys_iter(&self.value_map).remaining());
        }
        for k in it: self.value_map.keys()
            invariant
                self.wf(),
                self.lists(it.seq()),
                match best {
                    Some(b) => self.value_map@.contains_key(*b) && forall|i: int|
                        0 <= i < it.index() ==> key_le(*b, *#[trigger] it.seq()[i]),
                    None => it.index() == 0,
                },
        {
            proof {
                lemma_key_order::<K>();
            }
            let smaller = match best {
                Some(b) => *k < *b,
                None => true,
            };
            if smaller {
                best = Some(k);
            }
        }
        proof {
            match best {
                Some(b) => {
                    assert(self@.is_min(*b));
                    self@.lemma_min_unique(*b);
                },
                None => {
                    assert(self@.breakpoints.dom() =~= Set::empty());
                },
            }
        }
        best
    }

    /// The greatest breakpoint; `None` if there is no breakpoint.
    pub fn max_key(&self) -> (r: Option<&K>)
        requires
            self.wf(),
        ensures
            match r {
                Some(k) => self@.max_key() == Some(*k),
                None => self@.max_key() is None,
            },
            r is None <==> self@.breakpoints.dom().is_empty(),
    {
        let mut best: Option<&K> = None;
        proof {
            lemma_key_order::<K>();
            self.lemma_lists(spec_keys_iter(&self.value_map).remaining());
        }
        for k in it: self.value_map.keys()
            invariant
                self.wf(),
                self.lists(it.seq()),
                match best {
                    Some(b) => self.value_map@.contains_key(*b) && forall|i: int|
                        0 <= i < it.index() ==> key_le(*#[trigger] it.seq()[i], *b),
                    None => it.index() == 0,
                },
        {
            proof {
                lemma_key_order::<K>();
            }
            let greater = match best {
                Some(b) => *k > *b,
                None => true,
            };
            if greater {
                best = Some(k);
            }
        }
        proof {
            match best {
                Some(b) => {
                    assert(self@.is_max(*b));
                    self@.lemma_max_unique(*b);
                },
                None => {
                    assert(self@.breakpoints.dom() =~= Set::empty());
                },
            }
        }
        best
    }

    /// The smallest breakpoint strictly after `key`; `None` if there is none.
    pub fn next_key(&self, key: &K) -> (r: Option<&K>)
        requires
            self.wf(),
        ensures
            match r {
                Some(k) => self@.next_key(*key) == Some(*k),
                None => self@.next_key(*key) is None,
            },
    {
        let mut best: Option<&K> = None;
        proof {
            lemma_key_order::<K>();
            self.lemma_lists(spec_keys_iter(&self.value_map).remaining());
        }
        for k in it: self.value_map.keys()
            invariant
                self.wf(),
                self.lists(it.seq()),
                match best {
                    Some(b) => self.value_map@.contains_key(*b) && key_lt(*key, *b) && forall|
                        i: int,
                    |
                        0 <= i < it.index() && key_lt(*key, *#[trigger] it.seq()[i]) ==> key_le(
                            *b,
                            *it.seq()[i],
                        ),
                    None => forall|i: int|
                        0 <= i < it.index() ==> !key_lt(*key, *#[trigger] it.seq()[i]),
                },
        {
            proof {
                lemma_key_order::<K>();
            }
            if *k > *key {
                let smaller = match best {
                    Some(b) => *k < *b,
                    None => true,
                };
                if smaller {
                    best = Some(k);
                }
            }
        }
        proof {
            match best {
                Some(b) => {
                    assert(self@.is_next(*key, *b));
                    self@.lemma_next_unique(*key, *b);
                },
                None => {
                    assert forall|j: K| !self@.is_next(*key, j) by {
                        if self.value_map@.contains_key(j) {
                            assert(!key_lt(*key, j));
                        }
                    }
                },
            }
        }
        best
    }

    /// The greatest breakpoint strictly before `key`; `None` if there is
    /// none.
    pub fn previous_key(&self, key: &K) -> (r: Option<&K>)
        requires
            self.wf(),
        ensures
            match r {
                Some(k) => self@.previous_key(*key) == Some(*k),
                None => self@.previous_key(*key) is None,
            },
    {
        let mut best: Option<&K> = None;
        proof {
            lemma_key_order::<K>();
            self.lemma_lists(spec_keys_iter(&self.value_map).remaining());
        }
        for k in it: self.value_map.keys()
            invariant
                self.wf(),
                self.lists(it.seq()),
                match best {
                    Some(b) => self.value_map@.contains_key(*b) && key_lt(*b, *key) && forall|
                        i: int,
                    |
                        0 <= i < it.index() && key_lt(*#[trigger] it.seq()[i], *key) ==> key_le(
                            *it.seq()[i],
                            *b,
                        ),
                    None => forall|i: int|
                        0 <= i < it.index() ==> !key_lt(*#[trigger] it.seq()[i], *key),
                },
        {
            proof {
                lemma_key_order::<K>();
            }
            if *k < *key {
                let greater = match best {
                    Some(b) => *k > *b,
                    None => true,
                };
                if greater {
                    best = Some(k);
                }
            }
        }
        proof {
            match best {
                Some(b) => {
                    assert(self@.is_previous(*key, *b));
                    self@.lemma_previous_unique(*key, *b);
                },
                None => {
                    assert forall|j: K| !self@.is_previous(*key, j) by {
                        if self.value_map@.contains_key(j) {
                            assert(!key_lt(j, *key));
                        }
                    }
                },
            }
        }
        best
    }

    /// The value of the smallest breakpoint strictly after `key`; the default
    /// value if there is none.
    pub fn next_value(&self, key: &K) -> (r: &V)
        requires
            self.wf(),
        ensures
            *r == self@.next_value(*key),
    {
        proof {
            self@.lemma_next_key(*key);
        }
        match self.next_key(key) {
            Some(k) => self.value_map.get(k).unwrap(),
            None => &self.default_value,
        }
    }

    /// The value in effect just before `key`: that of the greatest
    /// breakpoint strictly before it, the default value if there is none.
    pub fn previous_value(&self, key: &K) -> (r: &V)
        requires
            self.wf(),
        ensures
            *r == self@.previous_value(*key),
    {
        proof {
            self@.lemma_previous_key(*key);
        }
        match self.previous_key(key) {
            Some(k) => self.value_map.get(k).unwrap(),
            None => &self.default_value,
        }
    }

    /// Whether the run that starts at `key` reaches past `threshold`: the
    /// next breakpoint after `key` lies strictly after `threshold`, or there
    /// is no next breakpoint.
    pub fn key_exceeds(&self, key: &K, threshold: &K) -> (r: bool)
        requires
            self.wf(),
        ensures
            r == self@.key_exceeds(*key, *threshold),
    {
        proof {
            lemma_key_order::<K>();
        }
        match self.next_key(key) {
            Some(k) => *k > *threshold,
            None => true,
        }
    }

    /// The breakpoints from `start` up to, but not including, `end`, in
    /// ascending order.
    pub fn keys_in_range(&self, start: &K, end: &K) -> (r: Vec<K>)
        requires
            self.wf(),
        ensures
            forall|i: int, j: int| 0 <= i < j < r.len() ==> key_lt(#[trigger] r[i], #[trigger] r[j]),
            forall|j: K| #[trigger] r@.contains(j) <==> self@.keys_in_range(*start, *end).contains(j),
    {
        let mut found: Vec<K> = Vec::new();
        proof {
            lemma_key_order::<K>();
            self.lemma_lists(spec_keys_iter(&self.value_map).remaining());
        }
        for k in it: self.value_map.keys()
            invariant
                self.wf(),
                self.lists(it.seq()),
                forall|n: int, m: int|
                    0 <= n < m < found.len() ==> key_lt(#[trigger] found[n], #[trigger] found[m]),
                forall|n: int, i: int|
                    0 <= n < found.len() && it.index() <= i < it.seq().len() ==> key_lt(
                        #[trigger] found[n],
                        *#[trigger] it.seq()[i],
                    ),
                forall|n: int|
                    0 <= n < found.len() ==> self@.keys_in_range(*start, *end).contains(
                        #[trigger] found[n],
                    ),
                forall|i: int|
                    0 <= i < it.index() && self@.keys_in_range(*start, *end).contains(
                        *#[trigger] it.seq()[i],
                    ) ==> found@.contains(*it.seq()[i]),
        {
            proof {
                lemma_key_order::<K>();
            }
            if *k >= *start && *k < *end {
                let key = k.clone();
                assert(cloned::<K>(*k, key));
                let ghost before = found@;
                found.push(key);
                assert(found@.last() == key);
                assert forall|i: int|
                    0 <= i < it.index() + 1 && self@.keys_in_range(*start, *end).contains(
                        *#[trigger] it.seq()[i],
                    ) implies found@.contains(*it.seq()[i]) by {
                    if i < it.index() {
                        let n = choose|n: int| 0 <= n < before.len() && before[n] == *it.seq()[i];
                        assert(found@[n] == *it.seq()[i]);
                    }
                }
            }
        }
        found
    }

    /// The breakpoints with their values, in ascending order of the keys.
    pub fn entries(&self) -> (r: Vec<(K, V)>)
        requires
            self.wf(),
        ensures
            r.len() == self@.breakpoints.len(),
            forall|i: int, j: int|
                0 <= i < j < r.len() ==> key_lt(#[trigger] r[i].0, #[trigger] r[j].0),
            forall|i: int|
                0 <= i < r.len() ==> self@.breakpoints.contains_key(#[trigger] r[i].0)
                    && self@.breakpoints[r[i].0] == r[i].1,
            forall|j: K| #[trigger]
                self@.breakpoints.contains_key(j) ==> exists|i: int|
                    0 <= i < r.len() && #[trigger] r[i].0 == j,
    {
        let mut pairs: Vec<(K, V)> = Vec::new();
        let ghost listed = spec_keys_iter(&self.value_map).remaining();
        proof {
            lemma_key_order::<K>();
            self.lemma_lists(listed);
        }
        for k in it: self.value_map.keys()
            invariant
                self.wf(),
                self.lists(listed),
                it.seq() == listed,
                pairs.len() == it.index(),
                forall|i: int|
                    0 <= i < pairs.len() ==> (#[trigger] pairs[i]).0 == *it.seq()[i]
                        && pairs[i].1 == self.value_map@[pairs[i].0],
        {
            let held = self.value_map.get(k).unwrap();
            let key = k.clone();
            let value = held.clone();
            assert(cloned::<K>(*k, key) && cloned::<V>(*held, value));
            pairs.push((key, value));
        }
        proof {
            assert forall|j: K| #[trigger] self@.breakpoints.contains_key(j) implies exists|i: int|
                0 <= i < pairs.len() && #[trigger] pairs[i].0 == j by {
                let i = choose|i: int| 0 <= i < listed.len() && *#[trigger] listed[i] == j;
                assert(pairs[i].0 == j);
            }
        }
        pairs
    }
}

impl<K, V> vstd::std_specs::core::IndexSpecImpl<&K> for IntervalMap<K, V> where K: Ord + Eq + Hash + Clone, V: Eq + Clone {
    /// A lookup asks only that the container is well formed: every key has a
    /// value.
    open spec fn index_req(&self, index: &&K) -> bool {
        self.wf()
    }
}

impl<K, V> Index<&K> for IntervalMap<K, V> where K: Ord + Eq + Hash + Clone, V: Eq + Clone {
    type Output = V;

    /// The value in effect at `key`. Every key has one: the lookup cannot
    /// fail. Verified code writes the call as `map.index(&key)`.
    fn index(&self, key: &K) -> (r: &V)
        ensures
            *r == self@.value_at(*key),
    {
        proof {
            lemma_key_order::<K>();
            self@.lemma_min_key();
            self@.lemma_floor_key(*key);
            self@.lemma_value_at(*key);
        }
        match self.min_key() {
            None => {
                return &self.default_value;
            },
            Some(first) => {
                if *key < *first {
                    return &self.default_value;
                }
            },
        }
        match self.value_map.get(key) {
            Some(val) => val,
            None => self.previous_value(key),
        }
    }
}

} // verus!
