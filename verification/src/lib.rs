//! Sets of discrete values, stored as minimal collections of closed intervals.
//!
//! An [`Interval`] is a non-empty closed range `[lo, hi]` over any discrete
//! ordered type, and an [`IntervalSet`] keeps a subset of such a type as its
//! canonical decomposition: intervals sorted by lower bound, pairwise
//! non-overlapping and non-adjacent.  Set algebra (union, intersection,
//! difference, complement) is implemented by linear merges of the sorted
//! interval lists and always re-establishes the canonical form.
//!
//! Index types supply successor and predecessor arithmetic through the
//! [`Step`] trait, and a least and greatest value through [`Bounded`].
//! Implementations are provided for the fixed-width integers, for `char`
//! (skipping the surrogate gap), and for 32-bit and 128-bit address values.

mod traits;

mod unsigned;

mod signed;

mod chars;

mod addrs;

mod interval;

mod set;

mod laws;

pub use traits::Step;
pub use traits::Bounded;
pub use interval::Interval;
pub use set::IntervalSet;
pub use set::seq_wf;
pub use set::seq_has;
pub use set::seq_size;
pub use set::lemma_seq_wf_ordered;
pub use addrs::Ipv4;
pub use addrs::Ipv6;
pub use laws::lemma_forward_then_backward;
pub use laws::lemma_backward_then_forward;
pub use laws::lemma_canonical_unique;
pub use laws::lemma_union_commutes;
pub use laws::lemma_union_idempotent;
pub use laws::lemma_intersection_union_difference;
pub use laws::lemma_complement_involution;
pub use laws::lemma_difference_via_complement;
