//! Capability traits for interval index types: discrete successor and
//! predecessor arithmetic ([`Step`]) and explicit least and greatest values
//! ([`Bounded`]).

use vstd::prelude::*;

verus! {

/// Types that have successor and predecessor operations.
///
/// Each value of the type sits at a position `idx()` in the type's total
/// order; positions are consecutive integers, so the successor of a value is
/// the value whose position is one greater.  `forward_checked` and
/// `backward_checked` move one position and report the absence of a
/// neighbour, while `forward` and `backward` require one to exist.
pub trait Step: Sized + Copy {
    /// The position of this value in the type's total order.
    spec fn idx(self) -> int;

    /// Whether a value one position further exists in the type.
    spec fn has_next(self) -> bool;

    /// Whether a value one position back exists in the type.
    spec fn has_prev(self) -> bool;

    /// Distinct values occupy distinct positions.
    proof fn lemma_idx_injective(a: Self, b: Self)
        requires
            a.idx() == b.idx(),
        ensures
            a == b,
    ;

    /// A value without a successor is the greatest value of the type.
    proof fn lemma_no_next_is_greatest(a: Self, b: Self)
        requires
            !a.has_next(),
        ensures
            b.idx() <= a.idx(),
    ;

    /// A value without a predecessor is the least value of the type.
    proof fn lemma_no_prev_is_least(a: Self, b: Self)
        requires
            !a.has_prev(),
        ensures
            b.idx() >= a.idx(),
    ;

    /// Compares two values by their position in the order.
    fn leq(a: &Self, b: &Self) -> (r: bool)
        ensures
            r <==> a.idx() <= b.idx(),
    ;

    /// Returns the number of successor steps required to get from `start` to
    /// `end`.
    ///
    /// The first element of the result is a lower bound, the second is the
    /// exact count and is not always available:
    /// - `(0, None)` if `end` is before `start`;
    /// - `(usize::MAX, None)` if the exact count would overflow `usize`;
    /// - `(n, Some(n))` otherwise, including `(0, Some(0))` when the values
    ///   are equal.
    fn steps_between(start: &Self, end: &Self) -> (r: (usize, Option<usize>))
        ensures
            end.idx() < start.idx() ==> r.0 == 0 && r.1 is None,
            start.idx() <= end.idx() && end.idx() - start.idx() <= usize::MAX as int ==> r.0
                == end.idx() - start.idx() && r.1 == Some(r.0),
            start.idx() <= end.idx() && end.idx() - start.idx() > usize::MAX as int ==> r.0
                == usize::MAX && r.1 is None,
    ;

    /// Returns the successor of `start`, or `None` if `start` is the greatest
    /// value of the type.
    fn forward_checked(start: &Self) -> (r: Option<Self>)
        ensures
            start.has_next() ==> r is Some && r->0.idx() == start.idx() + 1,
            !start.has_next() ==> r is None,
    ;

    /// Returns the predecessor of `start`, or `None` if `start` is the least
    /// value of the type.
    fn backward_checked(start: &Self) -> (r: Option<Self>)
        ensures
            start.has_prev() ==> r is Some && r->0.idx() == start.idx() - 1,
            !start.has_prev() ==> r is None,
    ;

    /// Returns the successor of `start`, which must exist.
    fn forward(start: &Self) -> (r: Self)
        requires
            start.has_next(),
        ensures
            r.idx() == start.idx() + 1,
    {
        Self::forward_checked(start).unwrap()
    }

    /// Returns the predecessor of `start`, which must exist.
    fn backward(start: &Self) -> (r: Self)
        requires
            start.has_prev(),
        ensures
            r.idx() == start.idx() - 1,
    {
        Self::backward_checked(start).unwrap()
    }
}

/// Types that are bounded: every value lies between a least and a greatest
/// value, both of which are representable.
pub trait Bounded: Step {
    /// The position of the least value of the type.
    spec fn min_idx() -> int;

    /// The position of the greatest value of the type.
    spec fn max_idx() -> int;

    /// Every value lies between the least and the greatest value.
    proof fn lemma_in_bounds(a: Self)
        ensures
            Self::min_idx() <= a.idx() <= Self::max_idx(),
    ;

    /// The least value of the type.
    fn min_value() -> (r: Self)
        ensures
            r.idx() == Self::min_idx(),
    ;

    /// The greatest value of the type.
    fn max_value() -> (r: Self)
        ensures
            r.idx() == Self::max_idx(),
    ;
}

} // verus!
