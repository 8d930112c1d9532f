//! Address index types: 32-bit and 128-bit addresses, ordered by their
//! numeric value.
//!
//! The types hold the address as its raw bits, so interval arithmetic over
//! address ranges works exactly as over the unsigned integers of the same
//! width.  Conversion to and from richer address representations is left to
//! the caller.

use vstd::prelude::*;

use crate::traits::Bounded;
use crate::traits::Step;

verus! {

/// A 32-bit address, stored as its numeric value.
#[derive(Clone, Copy, PartialEq, Eq, Structural, Debug)]
pub struct Ipv4 {
    /// The numeric value of the address.
    pub bits: u32,
}

impl Ipv4 {
    /// Builds an address from its numeric value.
    pub fn from_bits(bits: u32) -> (r: Self)
        ensures
            r.bits == bits,
    {
        Ipv4 { bits }
    }

    /// The numeric value of the address.
    pub fn to_bits(self) -> (r: u32)
        ensures
            r == self.bits,
    {
        self.bits
    }
}

impl Step for Ipv4 {
    open spec fn idx(self) -> int {
        self.bits as int
    }

    open spec fn has_next(self) -> bool {
        self.bits < u32::MAX
    }

    open spec fn has_prev(self) -> bool {
        self.bits > 0
    }

    proof fn lemma_idx_injective(a: Self, b: Self) {
    }

    proof fn lemma_no_next_is_greatest(a: Self, b: Self) {
    }

    proof fn lemma_no_prev_is_least(a: Self, b: Self) {
    }

    fn leq(a: &Self, b: &Self) -> bool {
        a.bits <= b.bits
    }

    fn steps_between(start: &Self, end: &Self) -> (usize, Option<usize>) {
        u32::steps_between(&start.bits, &end.bits)
    }

    fn forward_checked(start: &Self) -> Option<Self> {
        match u32::forward_checked(&start.bits) {
            Some(bits) => Some(Ipv4 { bits }),
            None => None,
        }
    }

    fn backward_checked(start: &Self) -> Option<Self> {
        match u32::backward_checked(&start.bits) {
            Some(bits) => Some(Ipv4 { bits }),
            None => None,
        }
    }
}

impl Bounded for Ipv4 {
    open spec fn min_idx() -> int {
        0
    }

    open spec fn max_idx() -> int {
        u32::MAX as int
    }

    proof fn lemma_in_bounds(a: Self) {
    }

    fn min_value() -> Self {
        Ipv4 { bits: 0 }
    }

    fn max_value() -> Self {
        Ipv4 { bits: u32::MAX }
    }
}

/// A 128-bit address, stored as its numeric value.
#[derive(Clone, Copy, PartialEq, Eq, Structural, Debug)]
pub struct Ipv6 {
    /// The numeric value of the address.
    pub bits: u128,
}

impl Ipv6 {
    /// Builds an address from its numeric value.
    pub fn from_bits(bits: u128) -> (r: Self)
        ensures
            r.bits == bits,
    {
        Ipv6 { bits }
    }

    /// The numeric value of the address.
    pub fn to_bits(self) -> (r: u128)
        ensures
            r == self.bits,
    {
        self.bits
    }
}

impl Step for Ipv6 {
    open spec fn idx(self) -> int {
        self.bits as int
    }

    open spec fn has_next(self) -> bool {
        self.bits < u128::MAX
    }

    open spec fn has_prev(self) -> bool {
        self.bits > 0
    }

    proof fn lemma_idx_injective(a: Self, b: Self) {
    }

    proof fn lemma_no_next_is_greatest(a: Self, b: Self) {
    }

    proof fn lemma_no_prev_is_least(a: Self, b: Self) {
    }

    fn leq(a: &Self, b: &Self) -> bool {
        a.bits <= b.bits
    }

    fn steps_between(start: &Self, end: &Self) -> (usize, Option<usize>) {
        u128::steps_between(&start.bits, &end.bits)
    }

    fn forward_checked(start: &Self) -> Option<Self> {
        match u128::forward_checked(&start.bits) {
            Some(bits) => Some(Ipv6 { bits }),
            None => None,
        }
    }

    fn backward_checked(start: &Self) -> Option<Self> {
        match u128::backward_checked(&start.bits) {
            Some(bits) => Some(Ipv6 { bits }),
            None => None,
        }
    }
}

impl Bounded for Ipv6 {
    open spec fn min_idx() -> int {
        0
    }

    open spec fn max_idx() -> int {
        u128::MAX as int
    }

    proof fn lemma_in_bounds(a: Self) {
    }

    fn min_value() -> Self {
        Ipv6 { bits: 0 }
    }

    fn max_value() -> Self {
        Ipv6 { bits: u128::MAX }
    }
}

} // verus!
