//! The total order on keys, stated over `Ord::cmp_spec`, and sorted sequences.

use vstd::laws_cmp::obeys_cmp;
use vstd::laws_eq::obeys_concrete_eq;
use vstd::prelude::*;
use vstd::std_specs::cmp::{OrdSpec, PartialEqSpec, PartialOrdSpec};
use core::cmp::Ordering;

verus! {

/// The key type's `cmp` is a total order whose `Equal` is equality.
pub open spec fn total_order<T: Ord>() -> bool {
    obeys_cmp::<T>() && obeys_concrete_eq::<T>()
}

/// `a` comes strictly before `b`.
pub open spec fn lt<T: Ord>(a: T, b: T) -> bool {
    a.cmp_spec(&b) == Ordering::Less
}

/// `a` comes before `b` or equals it.
pub open spec fn le<T: Ord>(a: T, b: T) -> bool {
    !lt(b, a)
}

/// Non-decreasing from front to back.
pub open spec fn sorted<T: Ord>(s: Seq<T>) -> bool {
    forall|i: int, j: int| 0 <= i < j < s.len() ==> le(#[trigger] s[i], #[trigger] s[j])
}

/// The laws of a total order, for a key type that has one.
pub proof fn lemma_order<T: Ord>()
    requires
        total_order::<T>(),
    ensures
        T::obeys_cmp_spec(),
        T::obeys_eq_spec(),
        forall|a: T, b: T| #[trigger] a.eq_spec(&b) <==> a == b,
        forall|a: T, b: T| #[trigger] a.cmp_spec(&b) == Ordering::Equal <==> a == b,
        forall|a: T, b: T| #[trigger] a.cmp_spec(&b) == Ordering::Greater <==> lt(b, a),
        forall|a: T| !lt(a, a),
        forall|a: T, b: T, c: T| #[trigger] lt(a, b) && #[trigger] lt(b, c) ==> lt(a, c),
        forall|a: T, b: T| lt(a, b) || a == b || #[trigger] lt(b, a),
{
    reveal(vstd::laws_eq::obeys_eq_spec_properties);
    reveal(vstd::laws_cmp::obeys_partial_cmp_spec_properties);
    reveal(vstd::laws_cmp::obeys_cmp_partial_ord);
    reveal(vstd::laws_cmp::obeys_cmp_ord);
    reveal(obeys_concrete_eq);
    assert forall|a: T, b: T| #[trigger] a.cmp_spec(&b) == Ordering::Greater <==> lt(b, a) by {
        assert(a.partial_cmp_spec(&b) == Some(a.cmp_spec(&b)));
        assert(b.partial_cmp_spec(&a) == Some(b.cmp_spec(&a)));
    }
    assert forall|a: T, b: T, c: T| #[trigger] lt(a, b) && #[trigger] lt(b, c) implies lt(a, c) by {
        assert(a.partial_cmp_spec(&b) == Some(a.cmp_spec(&b)));
        assert(b.partial_cmp_spec(&c) == Some(b.cmp_spec(&c)));
        assert(a.partial_cmp_spec(&c) == Some(a.cmp_spec(&c)));
    }
    assert forall|a: T, b: T| lt(a, b) || a == b || #[trigger] lt(b, a) by {
        assert(a.partial_cmp_spec(&b) == Some(a.cmp_spec(&b)));
        assert(b.partial_cmp_spec(&a) == Some(b.cmp_spec(&a)));
    }
    assert forall|a: T| !lt(a, a) by {
        assert(a.partial_cmp_spec(&a) == Some(a.cmp_spec(&a)));
    }
}

/// Strictly increasing from front to back.
pub open spec fn strictly_sorted<T: Ord>(s: Seq<T>) -> bool {
    forall|i: int, j: int| 0 <= i < j < s.len() ==> lt(#[trigger] s[i], #[trigger] s[j])
}

/// The number of leading elements of ascending `v` that are below `x`, found
/// by halving.
pub fn lower_bound<T: Ord + Copy>(v: &Vec<T>, x: &T) -> (r: usize)
    requires
        total_order::<T>(),
        sorted(v@),
    ensures
        r <= v@.len(),
        forall|i: int| 0 <= i < r ==> lt(#[trigger] v@[i], *x),
        forall|i: int| r <= i < v@.len() ==> !lt(#[trigger] v@[i], *x),
{
    proof {
        lemma_order::<T>();
    }
    let mut lo: usize = 0;
    let mut hi: usize = v.len();
    while lo < hi
        invariant
            total_order::<T>(),
            sorted(v@),
            0 <= lo <= hi <= v@.len(),
            forall|i: int| 0 <= i < lo ==> lt(#[trigger] v@[i], *x),
            forall|i: int| hi <= i < v@.len() ==> !lt(#[trigger] v@[i], *x),
        decreases hi - lo,
    {
        proof {
            lemma_order::<T>();
        }
        let mid = lo + (hi - lo) / 2;
        match v[mid].cmp(x) {
            Ordering::Less => {
                assert forall|i: int| 0 <= i <= mid implies lt(#[trigger] v@[i], *x) by {
                    if i < mid {
                        assert(le(v@[i], v@[mid as int]));
                    }
                }
                lo = mid + 1;
            },
            _ => {
                assert forall|i: int| mid <= i < v@.len() implies !lt(#[trigger] v@[i], *x) by {
                    if i > mid {
                        assert(le(v@[mid as int], v@[i]));
                    }
                }
                hi = mid;
            },
        }
    }
    lo
}

/// Whether ascending `v` holds `x`, found by halving.
pub fn sorted_contains<T: Ord + Copy>(v: &Vec<T>, x: &T) -> (r: bool)
    requires
        total_order::<T>(),
        sorted(v@),
    ensures
        r == v@.contains(*x),
{
    proof {
        lemma_order::<T>();
    }
    let p = lower_bound(v, x);
    if p < v.len() {
        match v[p].cmp(x) {
            Ordering::Equal => true,
            _ => {
                proof {
                    if v@.contains(*x) {
                        let j = choose|j: int| 0 <= j < v@.len() && v@[j] == *x;
                        assert(le(v@[p as int], v@[j]));
                    }
                }
                false
            },
        }
    } else {
        proof {
            if v@.contains(*x) {
                let j = choose|j: int| 0 <= j < v@.len() && v@[j] == *x;
                assert(lt(v@[j], *x));
            }
        }
        false
    }
}

} // verus!
