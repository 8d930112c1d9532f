//! [`Step`] and [`Bounded`] implementations for the signed fixed-width
//! integer types.  The position of a value is the value itself.

use vstd::prelude::*;

use crate::traits::Bounded;
use crate::traits::Step;

verus! {

impl Step for i8 {
    open spec fn idx(self) -> int {
        self as int
    }

    open spec fn has_next(self) -> bool {
        self < i8::MAX
    }

    open spec fn has_prev(self) -> bool {
        self > i8::MIN
    }

    proof fn lemma_idx_injective(a: Self, b: Self) {
    }

    proof fn lemma_no_next_is_greatest(a: Self, b: Self) {
    }

    proof fn lemma_no_prev_is_least(a: Self, b: Self) {
    }

    fn leq(a: &Self, b: &Self) -> bool {
        *a <= *b
    }

    fn steps_between(start: &Self, end: &Self) -> (usize, Option<usize>) {
        if *start <= *end {
            let d: u128 = ((*end as i128) - (*start as i128)) as u128;
            if d <= usize::MAX as u128 {
                let steps: usize = d as usize;
                (steps, Some(steps))
            } else {
                (usize::MAX, None)
            }
        } else {
            (0, None)
        }
    }

    fn forward_checked(start: &Self) -> Option<Self> {
        if *start < i8::MAX {
            Some(*start + 1)
        } else {
            None
        }
    }

    fn backward_checked(start: &Self) -> Option<Self> {
        if *start > i8::MIN {
            Some(*start - 1)
        } else {
            None
        }
    }
}

impl Bounded for i8 {
    open spec fn min_idx() -> int {
        i8::MIN as int
    }

    open spec fn max_idx() -> int {
        i8::MAX as int
    }

    proof fn lemma_in_bounds(a: Self) {
    }

    fn min_value() -> Self {
        i8::MIN
    }

    fn max_value() -> Self {
        i8::MAX
    }
}

impl Step for i16 {
    open spec fn idx(self) -> int {
        self as int
    }

    open spec fn has_next(self) -> bool {
        self < i16::MAX
    }

    open spec fn has_prev(self) -> bool {
        self > i16::MIN
    }

    proof fn lemma_idx_injective(a: Self, b: Self) {
    }

    proof fn lemma_no_next_is_greatest(a: Self, b: Self) {
    }

    proof fn lemma_no_prev_is_least(a: Self, b: Self) {
    }

    fn leq(a: &Self, b: &Self) -> bool {
        *a <= *b
    }

    fn steps_between(start: &Self, end: &Self) -> (usize, Option<usize>) {
        if *start <= *end {
            let d: u128 = ((*end as i128) - (*start as i128)) as u128;
            if d <= usize::MAX as u128 {
                let steps: usize = d as usize;
                (steps, Some(steps))
            } else {
                (usize::MAX, None)
            }
        } else {
            (0, None)
        }
    }

    fn forward_checked(start: &Self) -> Option<Self> {
        if *start < i16::MAX {
            Some(*start + 1)
        } else {
            None
        }
    }

    fn backward_checked(start: &Self) -> Option<Self> {
        if *start > i16::MIN {
            Some(*start - 1)
        } else {
            None
        }
    }
}

impl Bounded for i16 {
    open spec fn min_idx() -> int {
        i16::MIN as int
    }

    open spec fn max_idx() -> int {
        i16::MAX as int
    }

    proof fn lemma_in_bounds(a: Self) {
    }

    fn min_value() -> Self {
        i16::MIN
    }

    fn max_value() -> Self {
        i16::MAX
    }
}

impl Step for i32 {
    open spec fn idx(self) -> int {
        self as int
    }

    open spec fn has_next(self) -> bool {
        self < i32::MAX
    }

    open spec fn has_prev(self) -> bool {
        self > i32::MIN
    }

    proof fn lemma_idx_injective(a: Self, b: Self) {
    }

    proof fn lemma_no_next_is_greatest(a: Self, b: Self) {
    }

    proof fn lemma_no_prev_is_least(a: Self, b: Self) {
    }

    fn leq(a: &Self, b: &Self) -> bool {
        *a <= *b
    }

    fn steps_between(start: &Self, end: &Self) -> (usize, Option<usize>) {
        if *start <= *end {
            let d: u128 = ((*end as i128) - (*start as i128)) as u128;
            if d <= usize::MAX as u128 {
                let steps: usize = d as usize;
                (steps, Some(steps))
            } else {
                (usize::MAX, None)
            }
        } else {
            (0, None)
        }
    }

    fn forward_checked(start: &Self) -> Option<Self> {
        if *start < i32::MAX {
            Some(*start + 1)
        } else {
            None
        }
    }

    fn backward_checked(start: &Self) -> Option<Self> {
        if *start > i32::MIN {
            Some(*start - 1)
        } else {
            None
        }
    }
}

impl Bounded for i32 {
    open spec fn min_idx() -> int {
        i32::MIN as int
    }

    open spec fn max_idx() -> int {
        i32::MAX as int
    }

    proof fn lemma_in_bounds(a: Self) {
    }

    fn min_value() -> Self {
        i32::MIN
    }

    fn max_value() -> Self {
        i32::MAX
    }
}

impl Step for i64 {
    open spec fn idx(self) -> int {
        self as int
    }

    open spec fn has_next(self) -> bool {
        self < i64::MAX
    }

    open spec fn has_prev(self) -> bool {
        self > i64::MIN
    }

    proof fn lemma_idx_injective(a: Self, b: Self) {
    }

    proof fn lemma_no_next_is_greatest(a: Self, b: Self) {
    }

    proof fn lemma_no_prev_is_least(a: Self, b: Self) {
    }

    fn leq(a: &Self, b: &Self) -> bool {
        *a <= *b
    }

    fn steps_between(start: &Self, end: &Self) -> (usize, Option<usize>) {
        if *start <= *end {
            let d: u128 = ((*end as i128) - (*start as i128)) as u128;
            if d <= usize::MAX as u128 {
                let steps: usize = d as usize;
                (steps, Some(steps))
            } else {
                (usize::MAX, None)
            }
        } else {
            (0, None)
        }
    }

    fn forward_checked(start: &Self) -> Option<Self> {
        if *start < i64::MAX {
            Some(*start + 1)
        } else {
            None
        }
    }

    fn backward_checked(start: &Self) -> Option<Self> {
        if *start > i64::MIN {
            Some(*start - 1)
        } else {
            None
        }
    }
}

impl Bounded for i64 {
    open spec fn min_idx() -> int {
        i64::MIN as int
    }

    open spec fn max_idx() -> int {
        i64::MAX as int
    }

    proof fn lemma_in_bounds(a: Self) {
    }

    fn min_value() -> Self {
        i64::MIN
    }

    fn max_value() -> Self {
        i64::MAX
    }
}

impl Step for isize {
    open spec fn idx(self) -> int {
        self as int
    }

    open spec fn has_next(self) -> bool {
        self < isize::MAX
    }

    open spec fn has_prev(self) -> bool {
        self > isize::MIN
    }

    proof fn lemma_idx_injective(a: Self, b: Self) {
    }

    proof fn lemma_no_next_is_greatest(a: Self, b: Self) {
    }

    proof fn lemma_no_prev_is_least(a: Self, b: Self) {
    }

    fn leq(a: &Self, b: &Self) -> bool {
        *a <= *b
    }

    fn steps_between(start: &Self, end: &Self) -> (usize, Option<usize>) {
        if *start <= *end {
            let d: u128 = ((*end as i128) - (*start as i128)) as u128;
            if d <= usize::MAX as u128 {
                let steps: usize = d as usize;
                (steps, Some(steps))
            } else {
                (usize::MAX, None)
            }
        } else {
            (0, None)
        }
    }

    fn forward_checked(start: &Self) -> Option<Self> {
        if *start < isize::MAX {
            Some(*start + 1)
        } else {
            None
        }
    }

    fn backward_checked(start: &Self) -> Option<Self> {
        if *start > isize::MIN {
            Some(*start - 1)
        } else {
            None
        }
    }
}

impl Bounded for isize {
    open spec fn min_idx() -> int {
        isize::MIN as int
    }

    open spec fn max_idx() -> int {
        isize::MAX as int
    }

    proof fn lemma_in_bounds(a: Self) {
    }

    fn min_value() -> Self {
        isize::MIN
    }

    fn max_value() -> Self {
        isize::MAX
    }
}

impl Step for i128 {
    open spec fn idx(self) -> int {
        self as int
    }

    open spec fn has_next(self) -> bool {
        self < i128::MAX
    }

    open spec fn has_prev(self) -> bool {
        self > i128::MIN
    }

    proof fn lemma_idx_injective(a: Self, b: Self) {
    }

    proof fn lemma_no_next_is_greatest(a: Self, b: Self) {
    }

    proof fn lemma_no_prev_is_least(a: Self, b: Self) {
    }

    fn leq(a: &Self, b: &Self) -> bool {
        *a <= *b
    }

    fn steps_between(start: &Self, end: &Self) -> (usize, Option<usize>) {
        if *start <= *end {
            let s = *start;
            let e = *end;
            let d: u128 = if s >= 0 {
                (e - s) as u128
            } else if e < 0 {
                (e - s) as u128
            } else {
                (e as u128) + (((-(s + 1)) as u128) + 1)
            };
            if d <= usize::MAX as u128 {
                let steps: usize = d as usize;
                (steps, Some(steps))
            } else {
                (usize::MAX, None)
            }
        } else {
            (0, None)
        }
    }

    fn forward_checked(start: &Self) -> Option<Self> {
        if *start < i128::MAX {
            Some(*start + 1)
        } else {
            None
        }
    }

    fn backward_checked(start: &Self) -> Option<Self> {
        if *start > i128::MIN {
            Some(*start - 1)
        } else {
            None
        }
    }
}

impl Bounded for i128 {
    open spec fn min_idx() -> int {
        i128::MIN as int
    }

    open spec fn max_idx() -> int {
        i128::MAX as int
    }

    proof fn lemma_in_bounds(a: Self) {
    }

    fn min_value() -> Self {
        i128::MIN
    }

    fn max_value() -> Self {
        i128::MAX
    }
}

} // verus!
