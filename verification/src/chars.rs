//! [`Step`] and [`Bounded`] implementations for `char`.
//!
//! The domain of `char` is the Unicode scalar values: the code points
//! `0..=0x10FFFF` without the surrogate range `0xD800..0xE000`.  The position
//! of a scalar value is its code point, shifted down by the width of the
//! surrogate gap (`0x800`) for values above it, so that positions are
//! consecutive: the successor of `'\u{D7FF}'` is `'\u{E000}'`.

use vstd::prelude::*;
use vstd::utf8::char_is_scalar;
use vstd::utf8::char_u32_cast;

use crate::traits::Bounded;
use crate::traits::Step;

verus! {

/// Relies on char::from_u32 of std: it returns the scalar value with the
/// given code point, and `None` exactly on surrogate code points and code
/// points above the maximum.
pub assume_specification[ char::from_u32 ](i: u32) -> (r: Option<char>)
    ensures
        r is Some <==> (i < 0xD800 || (0xE000 <= i && i <= 0x10FFFF)),
        r is Some ==> (r->0 as u32) == i,
;

impl Step for char {
    open spec fn idx(self) -> int {
        if (self as u32) < 0xD800 {
            (self as u32) as int
        } else {
            (self as u32) as int - 0x800
        }
    }

    open spec fn has_next(self) -> bool {
        (self as u32) < 0x10FFFF
    }

    open spec fn has_prev(self) -> bool {
        (self as u32) > 0
    }

    proof fn lemma_idx_injective(a: Self, b: Self) {
        char_is_scalar(a);
        char_is_scalar(b);
        char_u32_cast(a, a as u32);
        char_u32_cast(b, b as u32);
    }

    proof fn lemma_no_next_is_greatest(a: Self, b: Self) {
        char_is_scalar(a);
        char_is_scalar(b);
    }

    proof fn lemma_no_prev_is_least(a: Self, b: Self) {
        char_is_scalar(a);
        char_is_scalar(b);
    }

    fn leq(a: &Self, b: &Self) -> bool {
        proof {
            char_is_scalar(*a);
            char_is_scalar(*b);
        }
        (*a as u32) <= (*b as u32)
    }

    fn steps_between(start: &Self, end: &Self) -> (usize, Option<usize>) {
        proof {
            char_is_scalar(*start);
            char_is_scalar(*end);
        }
        let s = *start as u32;
        let e = *end as u32;
        if s <= e {
            let gap: u32 = if s < 0xD800 && 0xE000 <= e {
                0x800
            } else {
                0
            };
            let steps: usize = (e - s - gap) as usize;
            (steps, Some(steps))
        } else {
            (0, None)
        }
    }

    fn forward_checked(start: &Self) -> Option<Self> {
        proof {
            char_is_scalar(*start);
        }
        let u = *start as u32;
        if u == 0xD7FF {
            char::from_u32(0xE000)
        } else if u == 0x10FFFF {
            None
        } else {
            char::from_u32(u + 1)
        }
    }

    fn backward_checked(start: &Self) -> Option<Self> {
        proof {
            char_is_scalar(*start);
        }
        let u = *start as u32;
        if u == 0xE000 {
            char::from_u32(0xD7FF)
        } else if u == 0 {
            None
        } else {
            char::from_u32(u - 1)
        }
    }
}

impl Bounded for char {
    open spec fn min_idx() -> int {
        0
    }

    open spec fn max_idx() -> int {
        0x10FFFF - 0x800
    }

    proof fn lemma_in_bounds(a: Self) {
        char_is_scalar(a);
    }

    fn min_value() -> Self {
        '\u{0}'
    }

    fn max_value() -> Self {
        '\u{10FFFF}'
    }
}

} // verus!
