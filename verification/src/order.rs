use vstd::prelude::*;
use vstd::std_specs::cmp::{OrdSpec, PartialOrdSpec};

verus! {

/// The key type is totally ordered by its `Ord` implementation, and its
/// `==` is equality of values.
pub open spec fn key_order<T: Ord>() -> bool {
    &&& vstd::laws_cmp::obeys_cmp::<T>()
    &&& vstd::laws_eq::obeys_concrete_eq::<T>()
}

/// `a` comes before `b` in the order of the key type.
pub open spec fn lt<T: Ord>(a: T, b: T) -> bool {
    a.cmp_spec(&b) == core::cmp::Ordering::Less
}

/// The order of a key type is a strict total order.
pub proof fn lemma_key_order<T: Ord>()
    requires
        key_order::<T>(),
    ensures
        forall|a: T, b: T| #[trigger] lt(a, b) ==> !lt(b, a) && a != b,
        forall|a: T, b: T| a != b ==> #[trigger] lt(a, b) || lt(b, a),
        forall|a: T, b: T, c: T| #[trigger] lt(a, b) && #[trigger] lt(b, c) ==> lt(a, c),
{
    reveal(vstd::laws_cmp::obeys_partial_cmp_spec_properties);
    reveal(vstd::laws_cmp::obeys_cmp_partial_ord);
    reveal(vstd::laws_cmp::obeys_cmp_ord);
    reveal(vstd::laws_eq::obeys_concrete_eq);
    reveal(vstd::laws_eq::obeys_eq_spec_properties);
    assert forall|a: T, b: T| #[trigger] lt(a, b) implies !lt(b, a) && a != b by {
        assert(a.partial_cmp_spec(&b) == Some(a.cmp_spec(&b)));
        assert(b.partial_cmp_spec(&a) == Some(b.cmp_spec(&a)));
    }
    assert forall|a: T, b: T| a != b implies #[trigger] lt(a, b) || lt(b, a) by {
        assert(a.partial_cmp_spec(&b) == Some(a.cmp_spec(&b)));
        assert(b.partial_cmp_spec(&a) == Some(b.cmp_spec(&a)));
    }
    assert forall|a: T, b: T, c: T| #[trigger] lt(a, b) && #[trigger] lt(b, c) implies lt(a, c) by {
        assert(a.partial_cmp_spec(&b) == Some(a.cmp_spec(&b)));
        assert(b.partial_cmp_spec(&c) == Some(b.cmp_spec(&c)));
        assert(a.partial_cmp_spec(&c) == Some(a.cmp_spec(&c)));
    }
}

/// The machine integer types are key types.
pub proof fn lemma_integer_keys()
    ensures
        key_order::<i32>(),
        key_order::<i64>(),
        key_order::<u32>(),
        key_order::<u64>(),
        key_order::<usize>(),
{
    broadcast use vstd::laws_cmp::group_laws_cmp;
    broadcast use vstd::laws_eq::group_laws_eq;

}

/// Whether `a` comes before `b`.
pub fn less<T: Ord>(a: &T, b: &T) -> (r: bool)
    requires
        key_order::<T>(),
    ensures
        r == lt(*a, *b),
{
    proof {
        reveal(vstd::laws_cmp::obeys_cmp_ord);
        reveal(vstd::laws_cmp::obeys_cmp_partial_ord);
    }
    assert(a.partial_cmp_spec(b) == Some(a.cmp_spec(b)));
    *a < *b
}

/// Whether `a` and `b` are the same value.
pub fn same<T: Ord>(a: &T, b: &T) -> (r: bool)
    requires
        key_order::<T>(),
    ensures
        r == (*a == *b),
{
    proof {
        reveal(vstd::laws_eq::obeys_concrete_eq);
    }
    *a == *b
}

} // verus!
