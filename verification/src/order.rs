//! The order on keys and the assumptions made of the key and value types.
//!
//! The container is generic: it never looks inside a key or a value, it only
//! compares keys, tests values for equality and duplicates both. What it
//! proves therefore rests on those three operations behaving as one expects.
//! The predicates of this module state those expectations, and its lemma
//! unfolds them into the facts about `key_lt` that the proofs use.
use std::cmp::Ordering;
use vstd::laws_cmp::obeys_cmp;
use vstd::laws_eq::obeys_concrete_eq;
use vstd::prelude::*;
use vstd::std_specs::btree::increasing_seq;
use vstd::std_specs::cmp::OrdSpec;
use vstd::std_specs::cmp::PartialEqSpec;
use vstd::std_specs::cmp::PartialOrdSpec;

verus! {

/// `a` comes strictly before `b` in the order of the key type.
pub open spec fn key_lt<K: Ord>(a: K, b: K) -> bool {
    a.cmp_spec(&b) == Ordering::Less
}

/// `a` comes before `b` or is `b`.
pub open spec fn key_le<K: Ord>(a: K, b: K) -> bool {
    key_lt(a, b) || a == b
}

/// Duplicating a value of `T` yields that value.
pub open spec fn clone_is_exact<T: Clone>() -> bool {
    forall|a: T, b: T| #[trigger] cloned::<T>(a, b) ==> a == b
}

/// The key type has a total order whose notion of equality is plain equality,
/// and duplicates exactly.
pub open spec fn lawful_key<K: Ord + Clone>() -> bool {
    &&& obeys_cmp::<K>()
    &&& obeys_concrete_eq::<K>()
    &&& clone_is_exact::<K>()
}

/// The value type's `==` is plain equality, and it duplicates exactly.
pub open spec fn lawful_value<V: PartialEq + Clone>() -> bool {
    &&& obeys_concrete_eq::<V>()
    &&& clone_is_exact::<V>()
}

/// `key_lt` is a strict total order, and the comparison operators of the key
/// type compute it.
pub proof fn lemma_key_order<K: Ord + Clone>()
    requires
        lawful_key::<K>(),
    ensures
        K::obeys_eq_spec(),
        K::obeys_partial_cmp_spec(),
        K::obeys_cmp_spec(),
        forall|a: K, b: K| #[trigger] a.partial_cmp_spec(&b) == Some(a.cmp_spec(&b)),
        forall|a: K, b: K| #[trigger] a.eq_spec(&b) <==> a == b,
        forall|a: K, b: K| #[trigger] a.cmp_spec(&b) == Ordering::Equal <==> a == b,
        forall|a: K, b: K| #[trigger] a.cmp_spec(&b) == Ordering::Greater <==> key_lt(b, a),
        forall|a: K, b: K| #[trigger] key_lt(a, b) ==> !key_lt(b, a) && a != b,
        forall|a: K, b: K| a != b ==> #[trigger] key_lt(a, b) || key_lt(b, a),
        forall|a: K, b: K, c: K| #[trigger] key_lt(a, b) && #[trigger] key_lt(b, c) ==> key_lt(a, c),
{
    reveal(vstd::laws_cmp::obeys_cmp_partial_ord);
    reveal(vstd::laws_cmp::obeys_cmp_ord);
    reveal(vstd::laws_cmp::obeys_partial_cmp_spec_properties);
    reveal(vstd::laws_eq::obeys_concrete_eq);
    assert forall|a: K, b: K, c: K| #[trigger] key_lt(a, b) && #[trigger] key_lt(b, c) implies key_lt(
        a,
        c,
    ) by {
        assert(a.partial_cmp_spec(&b) == Some(Ordering::Less));
        assert(b.partial_cmp_spec(&c) == Some(Ordering::Less));
        assert(a.partial_cmp_spec(&c) == Some(Ordering::Less));
    }
    assert forall|a: K, b: K| #[trigger] a.cmp_spec(&b) == Ordering::Greater <==> key_lt(b, a) by {
        assert(a.partial_cmp_spec(&b) == Some(a.cmp_spec(&b)));
        assert(b.partial_cmp_spec(&a) == Some(b.cmp_spec(&a)));
    }
    assert forall|a: K, b: K| #[trigger] key_lt(a, b) implies !key_lt(b, a) && a != b by {
        assert(a.partial_cmp_spec(&b) == Some(a.cmp_spec(&b)));
        assert(b.partial_cmp_spec(&a) == Some(b.cmp_spec(&a)));
        assert(a.eq_spec(&b) <==> a == b);
    }
    assert forall|a: K, b: K| a != b implies #[trigger] key_lt(a, b) || key_lt(b, a) by {
        assert(a.partial_cmp_spec(&b) == Some(a.cmp_spec(&b)));
        assert(b.partial_cmp_spec(&a) == Some(b.cmp_spec(&a)));
        assert(a.eq_spec(&b) <==> a == b);
    }
}

/// A sequence of keys that the standard library calls increasing ascends
/// strictly by `key_lt`.
pub proof fn lemma_increasing<K: Ord + Clone>(s: Seq<&K>)
    requires
        lawful_key::<K>(),
        increasing_seq(s),
    ensures
        forall|i: int, j: int|
            0 <= i < j < s.len() ==> key_lt(*#[trigger] s[i], *#[trigger] s[j]),
{
    assert(obeys_cmp::<&K>());
    vstd::std_specs::btree::axiom_increasing_seq_meaning::<&K>(s);
    assert forall|i: int, j: int| 0 <= i < j < s.len() implies key_lt(
        *#[trigger] s[i],
        *#[trigger] s[j],
    ) by {
        assert(OrdSpec::cmp_spec(&s[i], &s[j]) is Less);
    }
}

/// The `==` of the value type computes plain equality.
pub proof fn lemma_value_equality<V: PartialEq + Clone>()
    requires
        lawful_value::<V>(),
    ensures
        V::obeys_eq_spec(),
        forall|a: V, b: V| #[trigger] a.eq_spec(&b) <==> a == b,
{
    reveal(vstd::laws_eq::obeys_concrete_eq);
}

} // verus!
