//! [`Step`] and [`Bounded`] implementations for the unsigned fixed-width
//! integer types.  The position of a value is the value itself.

use vstd::prelude::*;

use crate::traits::Bounded;
use crate::traits::Step;

verus! {

impl Step for u8 {
    open spec fn idx(self) -> int {
        self as int
    }

    open spec fn has_next(self) -> bool {
        self < u8::MAX
    }

    open spec fn has_prev(self) -> bool {
        self > 0
    }

    proof fn lemma_idx_injective(a: Self, b: Self) {
    }

    proof fn lemma_no_next_is_greatest(a: Self, b: Self) {
    }

    proof fn lemma_no_prev_is_least(a: Self, b: Self) {
    }

    fn leq(a: &Self, b: &Self) -> bool {
        *a <= *b
    }

    fn steps_between(start: &Self, end: &Self) -> (usize, Option<usize>) {
        if *start <= *end {
            let d: u128 = (*end - *start) as u128;
            if d <= usize::MAX as u128 {
                let steps: usize = d as usize;
                (steps, Some(steps))
            } else {
                (usize::MAX, None)
            }
        } else {
            (0, None)
        }
    }

    fn forward_checked(start: &Self) -> Option<Self> {
        if *start < u8::MAX {
            Some(*start + 1)
        } else {
            None
        }
    }

    fn backward_checked(start: &Self) -> Option<Self> {
        if *start > 0 {
            Some(*start - 1)
        } else {
            None
        }
    }
}

impl Bounded for u8 {
    open spec fn min_idx() -> int {
        0
    }

    open spec fn max_idx() -> int {
        u8::MAX as int
    }

    proof fn lemma_in_bounds(a: Self) {
    }

    fn min_value() -> Self {
        0
    }

    fn max_value() -> Self {
        u8::MAX
    }
}

impl Step for u16 {
    open spec fn idx(self) -> int {
        self as int
    }

    open spec fn has_next(self) -> bool {
        self < u16::MAX
    }

    open spec fn has_prev(self) -> bool {
        self > 0
    }

    proof fn lemma_idx_injective(a: Self, b: Self) {
    }

    proof fn lemma_no_next_is_greatest(a: Self, b: Self) {
    }

    proof fn lemma_no_prev_is_least(a: Self, b: Self) {
    }

    fn leq(a: &Self, b: &Self) -> bool {
        *a <= *b
    }

    fn steps_between(start: &Self, end: &Self) -> (usize, Option<usize>) {
        if *start <= *end {
            let d: u128 = (*end - *start) as u128;
            if d <= usize::MAX as u128 {
                let steps: usize = d as usize;
                (steps, Some(steps))
            } else {
                (usize::MAX, None)
            }
        } else {
            (0, None)
        }
    }

    fn forward_checked(start: &Self) -> Option<Self> {
        if *start < u16::MAX {
            Some(*start + 1)
        } else {
            None
        }
    }

    fn backward_checked(start: &Self) -> Option<Self> {
        if *start > 0 {
            Some(*start - 1)
        } else {
            None
        }
    }
}

impl Bounded for u16 {
    open spec fn min_idx() -> int {
        0
    }

    open spec fn max_idx() -> int {
        u16::MAX as int
    }

    proof fn lemma_in_bounds(a: Self) {
    }

    fn min_value() -> Self {
        0
    }

    fn max_value() -> Self {
        u16::MAX
    }
}

impl Step for u32 {
    open spec fn idx(self) -> int {
        self as int
    }

    open spec fn has_next(self) -> bool {
        self < u32::MAX
    }

    open spec fn has_prev(self) -> bool {
        self > 0
    }

    proof fn lemma_idx_injective(a: Self, b: Self) {
    }

    proof fn lemma_no_next_is_greatest(a: Self, b: Self) {
    }

    proof fn lemma_no_prev_is_least(a: Self, b: Self) {
    }

    fn leq(a: &Self, b: &Self) -> bool {
        *a <= *b
    }

    fn steps_between(start: &Self, end: &Self) -> (usize, Option<usize>) {
        if *start <= *end {
            let d: u128 = (*end - *start) as u128;
            if d <= usize::MAX as u128 {
                let steps: usize = d as usize;
                (steps, Some(steps))
            } else {
                (usize::MAX, None)
            }
        } else {
            (0, None)
        }
    }

    fn forward_checked(start: &Self) -> Option<Self> {
        if *start < u32::MAX {
            Some(*start + 1)
        } else {
            None
        }
    }

    fn backward_checked(start: &Self) -> Option<Self> {
        if *start > 0 {
            Some(*start - 1)
        } else {
            None
        }
    }
}

impl Bounded for u32 {
    open spec fn min_idx() -> int {
        0
    }

    open spec fn max_idx() -> int {
        u32::MAX as int
    }

    proof fn lemma_in_bounds(a: Self) {
    }

    fn min_value() -> Self {
        0
    }

    fn max_value() -> Self {
        u32::MAX
    }
}

impl Step for u64 {
    open spec fn idx(self) -> int {
        self as int
    }

    open spec fn has_next(self) -> bool {
        self < u64::MAX
    }

    open spec fn has_prev(self) -> bool {
        self > 0
    }

    proof fn lemma_idx_injective(a: Self, b: Self) {
    }

    proof fn lemma_no_next_is_greatest(a: Self, b: Self) {
    }

    proof fn lemma_no_prev_is_least(a: Self, b: Self) {
    }

    fn leq(a: &Self, b: &Self) -> bool {
        *a <= *b
    }

    fn steps_between(start: &Self, end: &Self) -> (usize, Option<usize>) {
        if *start <= *end {
            let d: u128 = (*end - *start) as u128;
            if d <= usize::MAX as u128 {
                let steps: usize = d as usize;
                (steps, Some(steps))
            } else {
                (usize::MAX, None)
            }
        } else {
            (0, None)
        }
    }

    fn forward_checked(start: &Self) -> Option<Self> {
        if *start < u64::MAX {
            Some(*start + 1)
        } else {
            None
        }
    }

    fn backward_checked(start: &Self) -> Option<Self> {
        if *start > 0 {
            Some(*start - 1)
        } else {
            None
        }
    }
}

impl Bounded for u64 {
    open spec fn min_idx() -> int {
        0
    }

    open spec fn max_idx() -> int {
        u64::MAX as int
    }

    proof fn lemma_in_bounds(a: Self) {
    }

    fn min_value() -> Self {
        0
    }

    fn max_value() -> Self {
        u64::MAX
    }
}

impl Step for u128 {
    open spec fn idx(self) -> int {
        self as int
    }

    open spec fn has_next(self) -> bool {
        self < u128::MAX
    }

    open spec fn has_prev(self) -> bool {
        self > 0
    }

    proof fn lemma_idx_injective(a: Self, b: Self) {
    }

    proof fn lemma_no_next_is_greatest(a: Self, b: Self) {
    }

    proof fn lemma_no_prev_is_least(a: Self, b: Self) {
    }

    fn leq(a: &Self, b: &Self) -> bool {
        *a <= *b
    }

    fn steps_between(start: &Self, end: &Self) -> (usize, Option<usize>) {
        if *start <= *end {
            let d: u128 = *end - *start;
            if d <= usize::MAX as u128 {
                let steps: usize = d as usize;
                (steps, Some(steps))
            } else {
                (usize::MAX, None)
            }
        } else {
            (0, None)
        }
    }

    fn forward_checked(start: &Self) -> Option<Self> {
        if *start < u128::MAX {
            Some(*start + 1)
        } else {
            None
        }
    }

    fn backward_checked(start: &Self) -> Option<Self> {
        if *start > 0 {
            Some(*start - 1)
        } else {
            None
        }
    }
}

impl Bounded for u128 {
    open spec fn min_idx() -> int {
        0
    }

    open spec fn max_idx() -> int {
        u128::MAX as int
    }

    proof fn lemma_in_bounds(a: Self) {
    }

    fn min_value() -> Self {
        0
    }

    fn max_value() -> Self {
        u128::MAX
    }
}

impl Step for usize {
    open spec fn idx(self) -> int {
        self as int
    }

    open spec fn has_next(self) -> bool {
        self < usize::MAX
    }

    open spec fn has_prev(self) -> bool {
        self > 0
    }

    proof fn lemma_idx_injective(a: Self, b: Self) {
    }

    proof fn lemma_no_next_is_greatest(a: Self, b: Self) {
    }

    proof fn lemma_no_prev_is_least(a: Self, b: Self) {
    }

    fn leq(a: &Self, b: &Self) -> bool {
        *a <= *b
    }

    fn steps_between(start: &Self, end: &Self) -> (usize, Option<usize>) {
        if *start <= *end {
            let steps: usize = *end - *start;
            (steps, Some(steps))
        } else {
            (0, None)
        }
    }

    fn forward_checked(start: &Self) -> Option<Self> {
        if *start < usize::MAX {
            Some(*start + 1)
        } else {
            None
        }
    }

    fn backward_checked(start: &Self) -> Option<Self> {
        if *start > 0 {
            Some(*start - 1)
        } else {
            None
        }
    }
}

impl Bounded for usize {
    open spec fn min_idx() -> int {
        0
    }

    open spec fn max_idx() -> int {
        usize::MAX as int
    }

    proof fn lemma_in_bounds(a: Self) {
    }

    fn min_value() -> Self {
        0
    }

    fn max_value() -> Self {
        usize::MAX
    }
}

} // verus!
