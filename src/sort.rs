use std::cmp::Ordering;
use vstd::prelude::*;

verus! {

/// `compare` may answer something other than `Greater` on `a, b`.
pub open spec fn answers_not_greater<T, F: Fn(&T, &T) -> Ordering>(compare: F, a: T, b: T) -> bool {
    exists|o: Ordering| #[trigger] compare.ensures((&a, &b), o) && o != Ordering::Greater
}

/// On the elements of `s`, the answers of `compare` form a total preorder:
/// its answers on `a, b` and on `b, a` mirror each other, and "not
/// `Greater`" is transitive.
pub open spec fn total_preorder_on<T, F: Fn(&T, &T) -> Ordering>(compare: F, s: Seq<T>) -> bool {
    &&& forall|i: int, j: int, o1: Ordering, o2: Ordering|
        0 <= i < s.len() && 0 <= j < s.len() && #[trigger] compare.ensures((&s[i], &s[j]), o1)
            && #[trigger] compare.ensures((&s[j], &s[i]), o2) ==> (o1 == Ordering::Less <==> o2
            == Ordering::Greater) && (o1 == Ordering::Equal <==> o2 == Ordering::Equal)
    &&& forall|i: int, j: int, k: int, o1: Ordering, o2: Ordering, o3: Ordering|
        0 <= i < s.len() && 0 <= j < s.len() && 0 <= k < s.len() && #[trigger] compare.ensures(
            (&s[i], &s[j]),
            o1,
        ) && #[trigger] compare.ensures((&s[j], &s[k]), o2) && #[trigger] compare.ensures(
            (&s[i], &s[k]),
            o3,
        ) && o1 != Ordering::Greater && o2 != Ordering::Greater ==> o3 != Ordering::Greater
}

/// Relies on `slice::sort_unstable_by`: for a comparator that is a total
/// order on the elements, std sorts without panicking, keeps the same
/// elements, each as often as before, and leaves no element that `compare`
/// puts after a later one.
#[verifier::external_body]
pub(crate) fn sort_unstable_by<T, F: Fn(&T, &T) -> Ordering>(v: &mut Vec<T>, compare: F)
    requires
        forall|a: &T, b: &T| #[trigger] compare.requires((a, b)),
        total_preorder_on(compare, old(v)@),
    ensures
        final(v)@.to_multiset() == old(v)@.to_multiset(),
        final(v)@.len() == old(v)@.len(),
        forall|i: int, j: int|
            0 <= i < j < final(v)@.len() ==> #[trigger] answers_not_greater(
                compare,
                final(v)@[i],
                final(v)@[j],
            ),
{
    v.sort_unstable_by(compare)
}

} // verus!
