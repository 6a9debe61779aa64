use vstd::laws_cmp::*;
use vstd::laws_eq::*;
use vstd::prelude::*;
use vstd::std_specs::cmp::{OrdSpec, PartialEqSpec, PartialOrdSpec};
use core::cmp::Ordering;

verus! {

/// `a` sorts strictly before `b` under the key type's total order.
pub open spec fn key_lt<K: Ord>(a: K, b: K) -> bool {
    a.cmp_spec(&b) == Ordering::Less
}

/// `a` and `b` are the same key under the key type's total order.
pub open spec fn key_eq<K: Ord>(a: K, b: K) -> bool {
    a.cmp_spec(&b) == Ordering::Equal
}

/// The laws of a total order, as the key type's `cmp` obeys them.
pub proof fn lemma_key_order<K: Ord>()
    requires
        obeys_cmp::<K>(),
    ensures
        forall|x: K, y: K| #[trigger] key_lt(x, y) <==> y.cmp_spec(&x) == Ordering::Greater,
        forall|x: K, y: K| #[trigger] key_eq(x, y) ==> key_eq(y, x),
        forall|x: K, y: K, z: K| #[trigger] key_lt(x, y) && #[trigger] key_lt(y, z) ==> key_lt(x, z),
        forall|x: K, y: K, z: K| #[trigger] key_eq(x, y) && #[trigger] key_lt(y, z) ==> key_lt(x, z),
        forall|x: K, y: K, z: K| #[trigger] key_lt(x, y) && #[trigger] key_eq(y, z) ==> key_lt(x, z),
{
    reveal(obeys_eq_spec_properties);
    reveal(obeys_partial_cmp_spec_properties);
    reveal(obeys_cmp_partial_ord);
    reveal(obeys_cmp_ord);
    assert forall|x: K, y: K| #[trigger] key_lt(x, y) <==> y.cmp_spec(&x) == Ordering::Greater by {
        assert(x.partial_cmp_spec(&y) == Some(x.cmp_spec(&y)));
        assert(y.partial_cmp_spec(&x) == Some(y.cmp_spec(&x)));
    }
    assert forall|x: K, y: K| #[trigger] key_eq(x, y) implies key_eq(y, x) by {
        assert(x.partial_cmp_spec(&y) == Some(x.cmp_spec(&y)));
        assert(y.partial_cmp_spec(&x) == Some(y.cmp_spec(&x)));
    }
    assert forall|x: K, y: K, z: K| #[trigger] key_lt(x, y) && #[trigger] key_lt(y, z) implies key_lt(x, z) by {
        assert(x.partial_cmp_spec(&y) == Some(x.cmp_spec(&y)));
        assert(y.partial_cmp_spec(&z) == Some(y.cmp_spec(&z)));
        assert(x.partial_cmp_spec(&z) == Some(x.cmp_spec(&z)));
    }
    assert forall|x: K, y: K, z: K| #[trigger] key_eq(x, y) && #[trigger] key_lt(y, z) implies key_lt(x, z) by {
        assert(x.partial_cmp_spec(&y) == Some(x.cmp_spec(&y)));
        assert(y.partial_cmp_spec(&x) == Some(y.cmp_spec(&x)));
        assert(y.partial_cmp_spec(&z) == Some(y.cmp_spec(&z)));
        assert(z.partial_cmp_spec(&y) == Some(z.cmp_spec(&y)));
        assert(x.partial_cmp_spec(&z) == Some(x.cmp_spec(&z)));
        assert(z.partial_cmp_spec(&x) == Some(z.cmp_spec(&x)));
    }
    assert forall|x: K, y: K, z: K| #[trigger] key_lt(x, y) && #[trigger] key_eq(y, z) implies key_lt(x, z) by {
        assert(x.partial_cmp_spec(&y) == Some(x.cmp_spec(&y)));
        assert(y.partial_cmp_spec(&x) == Some(y.cmp_spec(&x)));
        assert(y.partial_cmp_spec(&z) == Some(y.cmp_spec(&z)));
        assert(z.partial_cmp_spec(&y) == Some(z.cmp_spec(&y)));
        assert(x.partial_cmp_spec(&z) == Some(x.cmp_spec(&z)));
        assert(z.partial_cmp_spec(&x) == Some(z.cmp_spec(&x)));
    }
}

/// Every key equals itself under the key type's total order.
pub proof fn lemma_key_refl<K: Ord>(k: K)
    requires
        obeys_cmp::<K>(),
    ensures
        key_eq(k, k),
{
    reveal(obeys_partial_cmp_spec_properties);
    reveal(obeys_cmp_ord);
    assert(k.partial_cmp_spec(&k) == Some(k.cmp_spec(&k)));
}

/// Compares two keys through the key type's `cmp`.
pub fn compare<K: Ord>(a: &K, b: &K) -> (r: Ordering)
    requires
        obeys_cmp::<K>(),
    ensures
        r == a.cmp_spec(b),
{
    proof {
        reveal(obeys_cmp_ord);
    }
    a.cmp(b)
}

} // verus!
