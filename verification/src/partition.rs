//! The disjoint-set structure that tracks which cells are already connected.

use disjoint::DisjointSet;
use vstd::prelude::*;

verus! {

/// `disjoint::DisjointSet`, seen only through `joined`.
#[verifier::external_type_specification]
#[verifier::external_body]
pub struct ExDisjointSet(DisjointSet);

/// The pairs of elements that `sets` holds together in one set. An element
/// is paired with itself, so `(a, a)` is present exactly for the elements
/// `0 <= a < len` that the structure tracks.
pub uninterp spec fn joined(sets: DisjointSet) -> Set<(int, int)>;

/// `len` elements, each alone in its set.
pub open spec fn singletons(len: int) -> Set<(int, int)> {
    Set::new(|p: (int, int)| 0 <= p.0 < len && p.0 == p.1)
}

/// The relation `rel` after the sets of `a` and `b` have become one.
pub open spec fn merged(rel: Set<(int, int)>, a: int, b: int) -> Set<(int, int)> {
    Set::new(
        |p: (int, int)|
            rel.contains(p) || (rel.contains((p.0, a)) && rel.contains((b, p.1))) || (rel.contains(
                (p.0, b),
            ) && rel.contains((a, p.1))),
    )
}

/// `disjoint::DisjointSet::with_len`: a structure over the elements
/// `0..len`, none joined to another. The two vectors it allocates hold one
/// word and one byte per element, which bounds `len`.
pub assume_specification[ DisjointSet::with_len ](len: usize) -> (sets: DisjointSet)
    requires
        len * 8 <= isize::MAX,
    ensures
        joined(sets) == singletons(len as int),
;

/// `disjoint::DisjointSet::join`: unites the sets of two tracked elements
/// and tells whether they were different sets before; if they were not,
/// nothing changes. It panics on an element that is not tracked.
pub assume_specification[ DisjointSet::join ](
    sets: &mut DisjointSet,
    first_element: usize,
    second_element: usize,
) -> (were_distinct: bool)
    requires
        joined(*old(sets)).contains((first_element as int, first_element as int)),
        joined(*old(sets)).contains((second_element as int, second_element as int)),
    ensures
        were_distinct == !joined(*old(sets)).contains(
            (first_element as int, second_element as int),
        ),
        were_distinct ==> joined(*final(sets)) == merged(
            joined(*old(sets)),
            first_element as int,
            second_element as int,
        ),
        !were_distinct ==> joined(*final(sets)) == joined(*old(sets)),
;

} // verus!
