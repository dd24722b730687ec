//! Consequences of a lawful `Ord` implementation, derived once from
//! `vstd::laws_cmp::obeys_cmp` and shared by the containers that compare
//! elements: the heap's sift operations and the list's merge sort.

use vstd::prelude::*;

use core::cmp::Ordering;
use vstd::laws_cmp::obeys_cmp;
use vstd::laws_cmp::obeys_cmp_ord;
use vstd::laws_cmp::obeys_cmp_partial_ord;
use vstd::laws_cmp::obeys_partial_cmp_spec_properties;
use vstd::laws_eq::obeys_eq_spec_properties;
use vstd::std_specs::cmp::OrdSpec;
use vstd::std_specs::cmp::PartialEqSpec;
use vstd::std_specs::cmp::PartialOrdSpec;

verus! {

/// `a` is less than or equal to `b` under the element order.
pub open spec fn le<T: Ord>(a: T, b: T) -> bool {
    a.cmp_spec(&b) != Ordering::Greater
}

/// `a` is greater than or equal to `b` under the element order.
pub open spec fn ge<T: Ord>(a: T, b: T) -> bool {
    a.cmp_spec(&b) != Ordering::Less
}

/// The facts about `cmp_spec` that the container proofs lean on, all of them
/// consequences of `obeys_cmp::<T>()`.
pub proof fn lemma_cmp_facts<T: Ord>()
    requires
        obeys_cmp::<T>(),
    ensures
        T::obeys_cmp_spec(),
        T::obeys_partial_cmp_spec(),
        T::obeys_eq_spec(),
        forall|x: T, y: T| #[trigger] x.partial_cmp_spec(&y) == Some(x.cmp_spec(&y)),
        forall|x: T, y: T|
            #[trigger] x.cmp_spec(&y) == Ordering::Less <==> y.cmp_spec(&x) == Ordering::Greater,
        forall|x: T, y: T|
            #[trigger] x.cmp_spec(&y) == Ordering::Equal <==> y.cmp_spec(&x) == Ordering::Equal,
        forall|x: T, y: T, z: T|
            #![trigger x.cmp_spec(&y), y.cmp_spec(&z)]
            x.cmp_spec(&y) == Ordering::Equal && y.cmp_spec(&z) == Ordering::Equal ==> x.cmp_spec(
                &z,
            ) == Ordering::Equal,
        forall|x: T, y: T, z: T|
            le(x, y) && #[trigger] le(y, z) ==> #[trigger] le(x, z),
        forall|x: T, y: T, z: T|
            ge(x, y) && #[trigger] ge(y, z) ==> #[trigger] ge(x, z),
        forall|x: T, y: T| #[trigger] le(x, y) || #[trigger] le(y, x),
        forall|x: T, y: T| #[trigger] ge(x, y) <==> le(y, x),
{
    reveal(obeys_cmp_ord);
    reveal(obeys_cmp_partial_ord);
    reveal(obeys_partial_cmp_spec_properties);
    reveal(obeys_eq_spec_properties);

    assert forall|x: T, y: T| #[trigger] x.partial_cmp_spec(&y) == Some(x.cmp_spec(&y)) by {}

    assert forall|x: T, y: T|
        #[trigger] x.cmp_spec(&y) == Ordering::Less <==> y.cmp_spec(&x) == Ordering::Greater by {
        assert(x.partial_cmp_spec(&y) == Some(x.cmp_spec(&y)));
        assert(y.partial_cmp_spec(&x) == Some(y.cmp_spec(&x)));
    }

    assert forall|x: T, y: T|
        #[trigger] x.cmp_spec(&y) == Ordering::Equal <==> y.cmp_spec(&x) == Ordering::Equal by {
        assert(x.partial_cmp_spec(&y) == Some(x.cmp_spec(&y)));
        assert(y.partial_cmp_spec(&x) == Some(y.cmp_spec(&x)));
        assert(x.eq_spec(&y) <==> y.eq_spec(&x));
    }

    assert forall|x: T, y: T, z: T|
        x.cmp_spec(&y) == Ordering::Equal && y.cmp_spec(&z) == Ordering::Equal implies x.cmp_spec(
        &z,
    ) == Ordering::Equal by {
        assert(x.partial_cmp_spec(&y) == Some(x.cmp_spec(&y)));
        assert(y.partial_cmp_spec(&z) == Some(y.cmp_spec(&z)));
        assert(x.partial_cmp_spec(&z) == Some(x.cmp_spec(&z)));
        assert(x.eq_spec(&y) && y.eq_spec(&z));
        assert(x.eq_spec(&z));
    }

    assert forall|x: T, y: T, z: T| le(x, y) && #[trigger] le(y, z) implies #[trigger] le(
        x,
        z,
    ) by {
        lemma_le_trans_once::<T>(x, y, z);
    }

    assert forall|x: T, y: T, z: T| ge(x, y) && #[trigger] ge(y, z) implies #[trigger] ge(
        x,
        z,
    ) by {
        lemma_ge_trans_once::<T>(x, y, z);
    }

    assert forall|x: T, y: T| #[trigger] ge(x, y) <==> le(y, x) by {
        assert(x.partial_cmp_spec(&y) == Some(x.cmp_spec(&y)));
        assert(y.partial_cmp_spec(&x) == Some(y.cmp_spec(&x)));
    }
}

proof fn lemma_le_trans_once<T: Ord>(x: T, y: T, z: T)
    requires
        obeys_cmp::<T>(),
        le(x, y),
        le(y, z),
    ensures
        le(x, z),
{
    reveal(obeys_cmp_ord);
    reveal(obeys_cmp_partial_ord);
    reveal(obeys_partial_cmp_spec_properties);
    reveal(obeys_eq_spec_properties);
    assert(x.partial_cmp_spec(&y) == Some(x.cmp_spec(&y)));
    assert(y.partial_cmp_spec(&z) == Some(y.cmp_spec(&z)));
    assert(x.partial_cmp_spec(&z) == Some(x.cmp_spec(&z)));
    assert(y.partial_cmp_spec(&x) == Some(y.cmp_spec(&x)));
    assert(z.partial_cmp_spec(&y) == Some(z.cmp_spec(&y)));
    assert(z.partial_cmp_spec(&x) == Some(z.cmp_spec(&x)));
    if x.cmp_spec(&z) == Ordering::Greater {
        // x > z; combine with x <= y and y <= z to reach a contradiction.
        assert(z.partial_cmp_spec(&x) == Some(Ordering::Less));
        if x.cmp_spec(&y) == Ordering::Equal {
            if y.cmp_spec(&z) == Ordering::Equal {
                assert(x.eq_spec(&y) && y.eq_spec(&z));
                assert(x.eq_spec(&z));
                assert(false);
            } else {
                // z > x, x == y gives z > y, contradicting y <= z.
                assert(y.cmp_spec(&x) == Ordering::Equal);
                assert(y.eq_spec(&x));
                if z.cmp_spec(&y) == Ordering::Less {
                    // z < y and z > x... derive y < ?: use x == y.
                    assert(y.cmp_spec(&z) == Ordering::Greater);
                    assert(false);
                } else if z.cmp_spec(&y) == Ordering::Equal {
                    assert(z.eq_spec(&y));
                    assert(z.eq_spec(&x) ==> z.cmp_spec(&x) == Ordering::Equal);
                    assert(z.eq_spec(&x));
                    assert(false);
                } else {
                    // z > y contradicts y <= z.
                    assert(y.cmp_spec(&z) == Ordering::Greater);
                    assert(false);
                }
            }
        } else {
            // x < y.
            assert(x.cmp_spec(&y) == Ordering::Less);
            if y.cmp_spec(&z) == Ordering::Equal {
                assert(y.eq_spec(&z));
                // z < x < y and y == z: show z < y for contradiction.
                assert(z.cmp_spec(&x) == Ordering::Less);
                assert(z.cmp_spec(&x) == Ordering::Less && x.cmp_spec(&y) == Ordering::Less
                    ==> z.cmp_spec(&y) == Ordering::Less);
                assert(z.cmp_spec(&y) == Ordering::Less);
                assert(y.cmp_spec(&z) == Ordering::Greater);
                assert(false);
            } else {
                assert(y.cmp_spec(&z) == Ordering::Less);
                assert(x.cmp_spec(&z) == Ordering::Less);
                assert(false);
            }
        }
    }
}

proof fn lemma_ge_trans_once<T: Ord>(x: T, y: T, z: T)
    requires
        obeys_cmp::<T>(),
        ge(x, y),
        ge(y, z),
    ensures
        ge(x, z),
{
    reveal(obeys_cmp_ord);
    reveal(obeys_cmp_partial_ord);
    reveal(obeys_partial_cmp_spec_properties);
    reveal(obeys_eq_spec_properties);
    assert(y.partial_cmp_spec(&x) == Some(y.cmp_spec(&x)));
    assert(z.partial_cmp_spec(&y) == Some(z.cmp_spec(&y)));
    assert(x.partial_cmp_spec(&y) == Some(x.cmp_spec(&y)));
    assert(y.partial_cmp_spec(&z) == Some(y.cmp_spec(&z)));
    // x >= y is y <= x and y >= z is z <= y, so z <= x by le-transitivity.
    assert(y.cmp_spec(&x) != Ordering::Greater);
    assert(z.cmp_spec(&y) != Ordering::Greater);
    lemma_le_trans_once::<T>(z, y, x);
    assert(z.cmp_spec(&x) != Ordering::Greater);
    assert(x.partial_cmp_spec(&z) == Some(x.cmp_spec(&z)));
    assert(z.partial_cmp_spec(&x) == Some(z.cmp_spec(&x)));
}

} // verus!
