//! Mathematical model of the cyclic bracket scan.
//!
//! The scanner walks the input's characters in order, wrapping around at the
//! end, for at most two full laps. `scan_from` plays that walk out over a
//! `Seq<char>` and says, for every input, whether the valid region grows
//! without bound (`Infinite`) or which finite window is the best one found
//! (`Finite`, as a length and an exclusive end position in unwrapped,
//! past-the-length index space). The executable scanner is proved to return
//! exactly what this model says.

use vstd::prelude::*;

verus! {

/// The six recognised bracket characters.
pub open spec fn spec_is_bracket(c: char) -> bool {
    c == '{' || c == '[' || c == '(' || c == ')' || c == ']' || c == '}'
}

/// The closing partner of an opening bracket; `None` on anything else,
/// closing brackets included.
pub open spec fn spec_closer_of(c: char) -> Option<char> {
    if c == '{' {
        Some('}')
    } else if c == '[' {
        Some(']')
    } else if c == '(' {
        Some(')')
    } else {
        None
    }
}

/// One bracket opened but not yet closed: the closing character it expects
/// and the unwrapped index where it was opened.
pub struct PendingOpen {
    pub closer: char,
    pub origin: int,
}

/// The scanner's whole working state between two characters.
pub struct ScanState {
    /// Pending opens, most recently opened last.
    pub stack: Seq<PendingOpen>,
    /// Length of the best finite valid window found so far.
    pub max_len: int,
    /// One past the last character of that window, in unwrapped index space.
    pub max_end: int,
    /// Length of the fully balanced run immediately before the current
    /// position, meaningful while the stack is empty.
    pub prev_valid_len: int,
}

pub open spec fn init_state() -> ScanState {
    ScanState { stack: Seq::empty(), max_len: 0, max_end: 0, prev_valid_len: 0 }
}

/// What the scan reports once it stops.
pub enum ScanResult {
    /// The cyclic repetition sustains validity without limit.
    Infinite,
    /// The best finite window: its length and its exclusive unwrapped end.
    Finite { max_len: int, max_end: int },
}

/// What one character does to the scan: either the walk stops with a
/// result, or it goes on in a new state.
pub enum StepVerdict {
    Report(ScanResult),
    Advance(ScanState),
}

/// Folds a freshly computed candidate window length into the state: a
/// candidate at least as long as the whole input proves the valid region
/// unbounded; a better finite one becomes the new best; and while the stack
/// is empty the candidate is remembered as the trailing balanced run.
pub open spec fn note_candidate(s: Seq<char>, i: int, st: ScanState, cand: int) -> StepVerdict {
    if cand > st.max_len && cand >= s.len() {
        StepVerdict::Report(ScanResult::Infinite)
    } else {
        let recorded = if cand > st.max_len {
            ScanState {
                stack: st.stack,
                max_len: cand,
                max_end: i + 1,
                prev_valid_len: st.prev_valid_len,
            }
        } else {
            st
        };
        let settled = if recorded.stack.len() == 0 {
            ScanState {
                stack: recorded.stack,
                max_len: recorded.max_len,
                max_end: recorded.max_end,
                prev_valid_len: cand,
            }
        } else {
            recorded
        };
        StepVerdict::Advance(settled)
    }
}

/// One step of the scan, looking at the character at unwrapped index `i`
/// (that is, at `s[i mod |s|]`).
///
/// - An opening bracket is pushed, unless the scan has wrapped back onto the
///   first pending open's position or as many opens are pending as the input
///   has characters; then no finite improvement is possible and the walk
///   stops with the best window so far.
/// - A closing bracket pops the most recent open. A match yields a candidate
///   window: back to the enclosing open if one remains, otherwise the whole
///   closed span plus the balanced run before it. A mismatch, or a close with
///   nothing open, abandons every pending open; past the first lap the walk
///   then stops.
/// - Filler extends the enclosing open's window, or the trailing balanced
///   run if nothing is open.
pub open spec fn scan_step(s: Seq<char>, i: int, st: ScanState) -> StepVerdict {
    let n = s.len() as int;
    let c = s[i % n];
    match spec_closer_of(c) {
        Some(closer) => {
            if (i >= n && st.stack.len() > 0 && st.stack[0].origin == i - n) || st.stack.len() + 1
                == n {
                StepVerdict::Report(ScanResult::Finite { max_len: st.max_len, max_end: st.max_end })
            } else {
                StepVerdict::Advance(
                    ScanState {
                        stack: st.stack.push(PendingOpen { closer, origin: i }),
                        max_len: st.max_len,
                        max_end: st.max_end,
                        prev_valid_len: st.prev_valid_len,
                    },
                )
            }
        },
        None => {
            if spec_is_bracket(c) {
                if st.stack.len() > 0 && st.stack.last().closer == c {
                    let opened = st.stack.last();
                    let rest = st.stack.drop_last();
                    let cand = if rest.len() > 0 {
                        i - rest.last().origin
                    } else {
                        1 + i - opened.origin + st.prev_valid_len
                    };
                    let popped = ScanState {
                        stack: rest,
                        max_len: st.max_len,
                        max_end: st.max_end,
                        prev_valid_len: st.prev_valid_len,
                    };
                    note_candidate(s, i, popped, cand)
                } else if i >= n {
                    StepVerdict::Report(
                        ScanResult::Finite { max_len: st.max_len, max_end: st.max_end },
                    )
                } else {
                    StepVerdict::Advance(
                        ScanState {
                            stack: Seq::empty(),
                            max_len: st.max_len,
                            max_end: st.max_end,
                            prev_valid_len: 0,
                        },
                    )
                }
            } else {
                let cand = if st.stack.len() > 0 {
                    i - st.stack.last().origin
                } else {
                    st.prev_valid_len + 1
                };
                note_candidate(s, i, st, cand)
            }
        },
    }
}

/// The scan played out from unwrapped index `i` in state `st`: one step per
/// character, for at most two laps over the input.
pub open spec fn scan_from(s: Seq<char>, i: int, st: ScanState) -> ScanResult
    decreases 2 * s.len() - i,
{
    if i >= 2 * s.len() {
        ScanResult::Finite { max_len: st.max_len, max_end: st.max_end }
    } else {
        match scan_step(s, i, st) {
            StepVerdict::Report(r) => r,
            StepVerdict::Advance(next) => scan_from(s, i + 1, next),
        }
    }
}

/// The whole scan of an input, from the start in the fresh state.
pub open spec fn scan_spec(s: Seq<char>) -> ScanResult {
    scan_from(s, 0, init_state())
}

/// One character's effect on the expected-closer stack of a plain, single
/// reading of a string: an opening bracket expects one more closer, a
/// closing bracket must match the most recently expected closer, filler
/// changes nothing. `None` marks a mismatch or a closer with nothing open.
pub open spec fn balance_step(stk: Seq<char>, c: char) -> Option<Seq<char>> {
    match spec_closer_of(c) {
        Some(closer) => Some(stk.push(closer)),
        None => {
            if spec_is_bracket(c) {
                if stk.len() > 0 && stk.last() == c {
                    Some(stk.drop_last())
                } else {
                    None
                }
            } else {
                Some(stk)
            }
        },
    }
}

/// The expected-closer stack after reading `s` from position `i` on,
/// starting from `stk`; `None` once any character mismatches.
pub open spec fn balance_from(s: Seq<char>, i: int, stk: Seq<char>) -> Option<Seq<char>>
    decreases s.len() - i,
{
    if i >= s.len() {
        Some(stk)
    } else {
        match balance_step(stk, s[i]) {
            Some(next) => balance_from(s, i + 1, next),
            None => None,
        }
    }
}

/// A string is fully balanced when reading it start to end closes every
/// bracket it opens, matches every closer against the most recently opened
/// bracket, and leaves nothing open.
pub open spec fn is_balanced(s: Seq<char>) -> bool {
    balance_from(s, 0, Seq::empty()) == Some(Seq::<char>::empty())
}

/// The character at unwrapped index `i` of the cyclic reading of `s`.
pub open spec fn cyclic_at(s: Seq<char>, i: int) -> char {
    s[i % s.len() as int]
}

/// The contiguous run of the cyclic reading of `s` from unwrapped index
/// `start` (inclusive) to `end` (exclusive).
pub open spec fn cyclic_slice(s: Seq<char>, start: int, end: int) -> Seq<char> {
    Seq::new((end - start) as nat, |k: int| cyclic_at(s, start + k))
}

/// The text the scanner answers with: the literal `"Infinite"` when the
/// valid region is unbounded, otherwise the best finite window read off the
/// cyclic input.
pub open spec fn scan_output(s: Seq<char>) -> Seq<char> {
    match scan_spec(s) {
        ScanResult::Infinite => "Infinite"@,
        ScanResult::Finite { max_len, max_end } => cyclic_slice(s, max_end - max_len, max_end),
    }
}

} // verus!
