//! The boundary resolver.
//!
//! A raw substring match only counts as an occurrence of an entity when it
//! stands alone as a token.  A match at character range `[start, end)` of a
//! text is accepted exactly when both hold:
//!
//! * left boundary: the match starts at the beginning of the text, or the
//!   character immediately before it is whitespace or ASCII punctuation;
//! * right boundary: the match ends at the end of the text, or the
//!   character at `end` is whitespace, or it is ASCII punctuation other
//!   than `.` while the character immediately before the match is not `.`.
//!
//! The `.` exclusion keeps abbreviation and decimal periods from being
//! taken for token terminators, so that text such as "U.S." is not split
//! incorrectly.  A match failing either side is discarded, not trimmed.

use vstd::prelude::*;
use crate::text::{is_space_char, is_ascii_punct_char, is_space, is_ascii_punct};

verus! {

/// The left-boundary rule at character offset `start` of `t`.
pub open spec fn left_boundary_ok(t: Seq<char>, start: int) -> bool {
    ||| start == 0
    ||| is_space_char(t[start - 1])
    ||| is_ascii_punct_char(t[start - 1])
}

/// The right-boundary rule for a match `[start, end)` of `t`.
pub open spec fn right_boundary_ok(t: Seq<char>, start: int, end: int) -> bool {
    ||| end == t.len()
    ||| is_space_char(t[end])
    ||| (is_ascii_punct_char(t[end]) && t[end] != '.' && !(start > 0 && t[start - 1] == '.'))
}

/// A match is accepted when both boundary rules hold.
pub open spec fn boundary_ok(t: Seq<char>, start: int, end: int) -> bool {
    left_boundary_ok(t, start) && right_boundary_ok(t, start, end)
}

/// Decides [`boundary_ok`] on the characters of a text.
pub fn check_boundary(tc: &Vec<char>, start: usize, end: usize) -> (r: bool)
    requires
        start <= end,
        end <= tc@.len(),
    ensures
        r == boundary_ok(tc@, start as int, end as int),
{
    let left = if start == 0 {
        true
    } else {
        let p = tc[start - 1];
        is_space(p) || is_ascii_punct(p)
    };
    if !left {
        return false;
    }
    if end == tc.len() {
        return true;
    }
    let c = tc[end];
    if is_space(c) {
        return true;
    }
    if is_ascii_punct(c) && c != '.' {
        if start > 0 && tc[start - 1] == '.' {
            return false;
        }
        return true;
    }
    false
}

} // verus!

