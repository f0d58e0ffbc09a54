//! Longest balanced bracket substring of a cyclically repeated string.
//!
//! The input string is read as if its characters repeated forever; the
//! library finds the longest contiguous run, in that cyclic reading, whose
//! bracket characters `()[]{}` are balanced and properly nested, with every
//! other character treated as filler. When the repetition lets a valid run
//! grow without bound, the distinguished text `"Infinite"` is returned
//! instead of a substring.

pub mod laws;
pub mod model;
pub mod scan;

pub use scan::Error;
pub use scan::create_longest_substring;

use vstd::prelude::*;

verus! {

/// A character is representable in one byte exactly when its code point
/// stays below 128: anything higher needs more than one UTF-8 byte.
pub open spec fn spec_is_single_byte(c: char) -> bool {
    (c as u32) < 128
}

/// Every character of the sequence is representable in one byte.
pub open spec fn all_single_byte(s: Seq<char>) -> bool {
    forall|j: int| 0 <= j < s.len() ==> spec_is_single_byte(s[j])
}

fn is_single_byte(c: char) -> (r: bool)
    ensures
        r == spec_is_single_byte(c),
{
    (c as u32) < 128
}

} // verus!
