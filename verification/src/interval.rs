//! A single closed interval over a discrete ordered type.

use vstd::prelude::*;

use crate::traits::Bounded;
use crate::traits::Step;

verus! {

/// A closed interval `[lo, hi]` over the type `Idx`.
///
/// The interval is never empty: the lower bound is at most the upper bound,
/// and a single value is the interval with `lo == hi`.  All transformations
/// produce new intervals; a constructed interval never changes.
#[derive(Clone, Copy)]
pub struct Interval<Idx: Step> {
    lo: Idx,
    hi: Idx,
}

impl<Idx: Step> Interval<Idx> {
    /// The lower bound of the interval, as a value.
    pub closed spec fn lo_val(self) -> Idx {
        self.lo
    }

    /// The upper bound of the interval, as a value.
    pub closed spec fn hi_val(self) -> Idx {
        self.hi
    }

    /// The position of the lower bound in the order of `Idx`.
    pub open spec fn lo_idx(self) -> int {
        self.lo_val().idx()
    }

    /// The position of the upper bound in the order of `Idx`.
    pub open spec fn hi_idx(self) -> int {
        self.hi_val().idx()
    }

    /// A valid interval: the lower bound is at most the upper bound.
    pub open spec fn wf(self) -> bool {
        self.lo_idx() <= self.hi_idx()
    }

    /// Whether the position `x` lies inside the interval.
    pub open spec fn has(self, x: int) -> bool {
        self.lo_idx() <= x <= self.hi_idx()
    }

    /// Creates a new interval `[lo, hi]`.
    ///
    /// The lower bound must be less or equal than the upper bound.
    pub fn new(lo: Idx, hi: Idx) -> (r: Self)
        requires
            lo.idx() <= hi.idx(),
        ensures
            r.wf(),
            r.lo_val() == lo,
            r.hi_val() == hi,
    {
        Interval { lo, hi }
    }

    /// The interval containing a single value.
    pub fn point(value: Idx) -> (r: Self)
        ensures
            r.wf(),
            r.lo_val() == value,
            r.hi_val() == value,
    {
        Interval { lo: value, hi: value }
    }

    /// The interval given by the half-open range `start..end`: it contains
    /// `start` and ends just before `end`, which must lie further on.
    pub fn from_range(start: Idx, end: Idx) -> (r: Self)
        requires
            start.idx() < end.idx(),
        ensures
            r.wf(),
            r.lo_val() == start,
            r.hi_idx() == end.idx() - 1,
    {
        proof {
            if !end.has_prev() {
                Idx::lemma_no_prev_is_least(end, start);
            }
        }
        let hi = Idx::backward(&end);
        Interval { lo: start, hi }
    }

    /// Two intervals with the same bounds are the same interval.
    pub proof fn lemma_bounds_determine(self, other: Self)
        requires
            self.lo_val() == other.lo_val(),
            self.hi_val() == other.hi_val(),
        ensures
            self == other,
    {
    }

    /// Gets the lower bound of the interval.
    pub fn lo(&self) -> (r: &Idx)
        ensures
            *r == self.lo_val(),
    {
        &self.lo
    }

    /// Gets the upper bound of the interval.
    pub fn hi(&self) -> (r: &Idx)
        ensures
            *r == self.hi_val(),
    {
        &self.hi
    }

    /// Returns a lower bound for the number of elements in the interval.
    ///
    /// The returned value equals the number of elements whenever that number
    /// fits in `usize`; a larger interval reports `usize::MAX`.
    pub fn size(&self) -> (r: usize)
        requires
            self.wf(),
        ensures
            self.hi_idx() - self.lo_idx() + 1 <= usize::MAX as int ==> r == self.hi_idx()
                - self.lo_idx() + 1,
            self.hi_idx() - self.lo_idx() + 1 > usize::MAX as int ==> r == usize::MAX,
    {
        let steps = Idx::steps_between(&self.lo, &self.hi).0;
        if steps < usize::MAX {
            steps + 1
        } else {
            usize::MAX
        }
    }

    /// Returns the number of elements in the interval, or `None` when that
    /// number does not fit in `usize`.
    pub fn size_exact(&self) -> (r: Option<usize>)
        requires
            self.wf(),
        ensures
            self.hi_idx() - self.lo_idx() + 1 <= usize::MAX as int ==> r == Some(
                (self.hi_idx() - self.lo_idx() + 1) as usize,
            ),
            self.hi_idx() - self.lo_idx() + 1 > usize::MAX as int ==> r is None,
    {
        match Idx::steps_between(&self.lo, &self.hi).1 {
            Some(steps) => {
                if steps < usize::MAX {
                    Some(steps + 1)
                } else {
                    None
                }
            },
            None => None,
        }
    }

    /// Computes the hull of the intervals: the smallest interval that
    /// contains both.
    pub fn hull(&self, other: &Self) -> (r: Self)
        requires
            self.wf(),
            other.wf(),
        ensures
            r.wf(),
            r.lo_idx() == if self.lo_idx() <= other.lo_idx() {
                self.lo_idx()
            } else {
                other.lo_idx()
            },
            r.hi_idx() == if self.hi_idx() >= other.hi_idx() {
                self.hi_idx()
            } else {
                other.hi_idx()
            },
    {
        let lo = if Idx::leq(&self.lo, &other.lo) {
            self.lo
        } else {
            other.lo
        };
        let hi = if Idx::leq(&self.hi, &other.hi) {
            other.hi
        } else {
            self.hi
        };
        Interval { lo, hi }
    }

    /// Computes the intersection of the intervals: the interval contained in
    /// both, or `None` when the intervals do not overlap.
    pub fn intersection(&self, other: &Self) -> (r: Option<Self>)
        requires
            self.wf(),
            other.wf(),
        ensures
            r is Some <==> (self.lo_idx() <= other.hi_idx() && other.lo_idx() <= self.hi_idx()),
            r is Some ==> r->0.wf() && r->0.lo_idx() == (if self.lo_idx() >= other.lo_idx() {
                self.lo_idx()
            } else {
                other.lo_idx()
            }) && r->0.hi_idx() == (if self.hi_idx() <= other.hi_idx() {
                self.hi_idx()
            } else {
                other.hi_idx()
            }),
            forall|x: int| #![auto] self.has(x) && other.has(x) <==> r is Some && r->0.has(x),
    {
        let lo = if Idx::leq(&self.lo, &other.lo) {
            other.lo
        } else {
            self.lo
        };
        let hi = if Idx::leq(&self.hi, &other.hi) {
            self.hi
        } else {
            other.hi
        };
        if Idx::leq(&lo, &hi) {
            Some(Interval { lo, hi })
        } else {
            None
        }
    }

    /// Computes the difference of the intervals.
    ///
    /// The result holds the part of `self` strictly below `other` and the
    /// part of `self` strictly above `other`; either part is `None` when it
    /// would be empty.
    pub fn difference(&self, other: &Self) -> (r: (Option<Self>, Option<Self>))
        requires
            self.wf(),
            other.wf(),
        ensures
            r.0 is Some <==> self.lo_idx() < other.lo_idx(),
            r.0 is Some ==> r.0->0.wf() && r.0->0.lo_idx() == self.lo_idx() && r.0->0.hi_idx() == (
            if self.hi_idx() <= other.lo_idx() - 1 {
                self.hi_idx()
            } else {
                other.lo_idx() - 1
            }),
            r.1 is Some <==> self.hi_idx() > other.hi_idx(),
            r.1 is Some ==> r.1->0.wf() && r.1->0.hi_idx() == self.hi_idx() && r.1->0.lo_idx() == (
            if self.lo_idx() >= other.hi_idx() + 1 {
                self.lo_idx()
            } else {
                other.hi_idx() + 1
            }),
    {
        let left = if !Idx::leq(&other.lo, &self.lo) {
            proof {
                if !other.lo_val().has_prev() {
                    Idx::lemma_no_prev_is_least(other.lo_val(), self.lo_val());
                }
            }
            let p = Idx::backward(&other.lo);
            let hi = if Idx::leq(&self.hi, &p) {
                self.hi
            } else {
                p
            };
            Some(Interval { lo: self.lo, hi })
        } else {
            None
        };
        let right = if !Idx::leq(&self.hi, &other.hi) {
            proof {
                if !other.hi_val().has_next() {
                    Idx::lemma_no_next_is_greatest(other.hi_val(), self.hi_val());
                }
            }
            let s = Idx::forward(&other.hi);
            let lo = if Idx::leq(&s, &self.lo) {
                self.lo
            } else {
                s
            };
            Some(Interval { lo, hi: self.hi })
        } else {
            None
        };
        (left, right)
    }

    /// Checks whether the interval overlaps another interval, including
    /// touching at a shared value.
    pub fn overlaps(&self, other: &Self) -> (r: bool)
        requires
            self.wf(),
            other.wf(),
        ensures
            r <==> (self.hi_idx() >= other.lo_idx() && other.hi_idx() >= self.lo_idx()),
    {
        Idx::leq(&other.lo, &self.hi) && Idx::leq(&self.lo, &other.hi)
    }
}

impl<Idx: Bounded> Interval<Idx> {
    /// The interval that spans all values of the type.
    pub fn full() -> (r: Self)
        ensures
            r.wf(),
            r.lo_idx() == Idx::min_idx(),
            r.hi_idx() == Idx::max_idx(),
    {
        let lo = Idx::min_value();
        let hi = Idx::max_value();
        proof {
            Idx::lemma_in_bounds(lo);
        }
        Interval { lo, hi }
    }

    /// The interval given by the range `..end`: it begins at the least value
    /// of the type and ends just before `end`.
    pub fn from_range_to(end: Idx) -> (r: Self)
        requires
            Idx::min_idx() < end.idx(),
        ensures
            r.wf(),
            r.lo_idx() == Idx::min_idx(),
            r.hi_idx() == end.idx() - 1,
    {
        let lo = Idx::min_value();
        proof {
            if !end.has_prev() {
                Idx::lemma_no_prev_is_least(end, lo);
            }
        }
        let hi = Idx::backward(&end);
        Interval { lo, hi }
    }

    /// The interval given by the range `..=end`: it begins at the least
    /// value of the type and ends at `end`.
    pub fn from_range_to_inclusive(end: Idx) -> (r: Self)
        ensures
            r.wf(),
            r.lo_idx() == Idx::min_idx(),
            r.hi_val() == end,
    {
        let lo = Idx::min_value();
        proof {
            Idx::lemma_in_bounds(end);
        }
        Interval { lo, hi: end }
    }

    /// The interval given by the range `start..` without an upper bound: it
    /// begins at `start` and ends at the greatest value of the type.
    pub fn from_range_from(start: Idx) -> (r: Self)
        ensures
            r.wf(),
            r.lo_val() == start,
            r.hi_idx() == Idx::max_idx(),
    {
        let hi = Idx::max_value();
        proof {
            Idx::lemma_in_bounds(start);
        }
        Interval { lo: start, hi }
    }

    /// Every position inside the interval lies between the positions of the
    /// least and the greatest value of the type.
    pub proof fn lemma_in_domain(self)
        ensures
            Idx::min_idx() <= self.lo_idx(),
            self.hi_idx() <= Idx::max_idx(),
    {
        Idx::lemma_in_bounds(self.lo_val());
        Idx::lemma_in_bounds(self.hi_val());
    }
}

} // verus!
