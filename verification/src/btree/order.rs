use core::cmp::Ordering;
use vstd::prelude::*;
use vstd::std_specs::cmp::{PartialEqSpec, PartialOrdSpec};

verus! {

/// `a` is ordered strictly before `b` by the key type's comparison.
pub open spec fn key_lt<K: PartialOrd>(a: K, b: K) -> bool {
    a.partial_cmp_spec(&b) == Some(Ordering::Less)
}

/// The operators `==` and `<` of `K` compute what their specifications say,
/// `==` is the equality of values, and `<` is a strict total order.
#[verifier::opaque]
pub open spec fn total_order<K: PartialOrd>() -> bool {
    &&& K::obeys_eq_spec()
    &&& K::obeys_partial_cmp_spec()
    &&& forall|a: K, b: K| #[trigger] a.eq_spec(&b) <==> a == b
    &&& forall|a: K, b: K| #[trigger] key_lt(a, b) ==> !key_lt(b, a) && a != b
    &&& forall|a: K, b: K| #![trigger key_lt(a, b)] a != b ==> key_lt(a, b) || key_lt(b, a)
    &&& forall|a: K, b: K, c: K| #[trigger] key_lt(a, b) && #[trigger] key_lt(b, c) ==> key_lt(a, c)
}

/// Each item of `s` is ordered strictly before every later item.
pub open spec fn strictly_sorted<K: PartialOrd>(s: Seq<K>) -> bool {
    forall|i: int, j: int| 0 <= i < j < s.len() ==> key_lt(#[trigger] s[i], #[trigger] s[j])
}

/// Unsigned 64-bit integers are totally ordered by `<`.
pub proof fn lemma_u64_total_order()
    ensures
        total_order::<u64>(),
        forall|a: u64, b: u64| #[trigger] key_lt(a, b) <==> a < b,
{
    reveal(total_order);
}

} // verus!
