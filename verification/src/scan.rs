//! The executable scanner.
//!
//! `create_longest_substring` walks the input as a cyclic character stream
//! and is proved to return exactly what the model in [`crate::model`] says:
//! the text `"Infinite"` when the valid region is unbounded, otherwise the
//! best finite window of the cyclic reading, and the one error when some
//! character needs more than one byte.

use vstd::prelude::*;

use crate::all_single_byte;
use crate::is_single_byte;
use crate::model::PendingOpen;
use crate::model::ScanResult;
use crate::model::ScanState;
use crate::model::StepVerdict;
use crate::model::cyclic_at;
use crate::model::cyclic_slice;
use crate::model::init_state;
use crate::model::scan_from;
use crate::model::scan_output;
use crate::model::scan_spec;
use crate::model::scan_step;
use crate::model::spec_closer_of;
use crate::model::spec_is_bracket;
use crate::spec_is_single_byte;

verus! {

/// The one failure the scanner can report.
#[derive(Debug, Clone, PartialEq, Eq)]
pub enum Error {
    /// Some character of the input needs more than one byte when encoded.
    NonByteChar,
}

/// Checks if provided char is a bracket.
fn is_bracket(val: char) -> (r: bool)
    ensures
        r == spec_is_bracket(val),
{
    match val {
        '{' | '[' | '(' | ')' | ']' | '}' => true,
        _ => false,
    }
}

/// Attempts to map given bracket to its closing pair. Returns `None` if
/// given char isn't an opening bracket.
fn opening_bracket_to_closing(val: char) -> (r: Option<char>)
    ensures
        r == spec_closer_of(val),
{
    match val {
        '{' => Some('}'),
        '[' => Some(']'),
        '(' => Some(')'),
        _ => None,
    }
}

/// A bracket opened but not yet closed, as the scanner's stack stores it:
/// the closing character it expects and the unwrapped index it was opened
/// at. Indices live in `u128` so that even the second lap over the longest
/// possible input stays comfortably inside the type.
struct CharPos {
    closer: char,
    origin: u128,
}

/// The scanner's stack, read as the model's sequence of pending opens.
spec fn abs_stack(stk: Seq<CharPos>) -> Seq<PendingOpen> {
    stk.map(|k: int, e: CharPos| PendingOpen { closer: e.closer, origin: e.origin as int })
}

/// The scanner's whole working state, read as the model's state.
spec fn abs_state(stk: Seq<CharPos>, max_len: u128, max_end: u128, prev: u128) -> ScanState {
    ScanState {
        stack: abs_stack(stk),
        max_len: max_len as int,
        max_end: max_end as int,
        prev_valid_len: prev as int,
    }
}

/// How a scan of the characters ended.
enum ScanFinish {
    /// A character needing more than one byte was hit.
    NonByte,
    /// The valid region is unbounded.
    Infinite,
    /// The best finite window: its length and its exclusive unwrapped end.
    Finite(u128, u128),
}

/// Collects the characters of a string, in order.
fn collect_chars(s: &str) -> (v: Vec<char>)
    ensures
        v@ == s@,
{
    let mut v: Vec<char> = Vec::new();
    for c in it: s.chars()
        invariant
            it.seq() == s@,
            v@ =~= it.seq().subrange(0, it.index() as int),
    {
        v.push(c);
    }
    proof {
        assert(v@ =~= s@);
    }
    v
}

/// The single forward pass of the scan, over at most two laps of the
/// characters, exactly as the model plays it out.
fn scan_chars(v: &Vec<char>) -> (r: ScanFinish)
    ensures
        match r {
            ScanFinish::NonByte => !all_single_byte(v@),
            ScanFinish::Infinite => all_single_byte(v@) && scan_spec(v@) == ScanResult::Infinite,
            ScanFinish::Finite(ml, me) => {
                &&& all_single_byte(v@)
                &&& scan_spec(v@) == (ScanResult::Finite {
                    max_len: ml as int,
                    max_end: me as int,
                })
                &&& ml <= me
                &&& me as int <= 2 * v@.len()
            },
        },
{
    let nn: u128 = v.len() as u128;
    let two_n: u128 = 2 * nn;
    let mut stack: Vec<CharPos> = Vec::new();
    let mut max_len: u128 = 0;
    let mut max_end: u128 = 0;
    let mut prev_valid_len: u128 = 0;
    let mut i: u128 = 0;

    proof {
        assert(abs_stack(stack@) =~= Seq::<PendingOpen>::empty());
        assert(abs_state(stack@, max_len, max_end, prev_valid_len) == init_state());
    }
    while i < two_n
        invariant
            nn as int == v@.len() as int,
            nn as int <= usize::MAX as int,
            two_n == 2 * nn,
            i <= two_n,
            max_len <= max_end,
            max_end <= i,
            prev_valid_len <= i,
            stack@.len() <= i as int,
            forall|k: int| 0 <= k < stack@.len() ==> #[trigger] stack@[k].origin < i,
            forall|k: int|
                0 <= k < stack@.len() - 1 ==> #[trigger] stack@[k].origin < stack@[k
                    + 1].origin,
            stack@.len() > 0 ==> prev_valid_len <= stack@[0].origin,
            forall|j: int|
                0 <= j < i as int && j < nn as int ==> spec_is_single_byte(#[trigger] v@[j]),
            scan_from(v@, i as int, abs_state(stack@, max_len, max_end, prev_valid_len))
                == scan_spec(v@),
        decreases two_n - i,
    {
        let idx = (i % nn) as usize;
        let c = v[idx];
        proof {
            assert(idx as int == (i as int) % (nn as int));
            assert(c == cyclic_at(v@, i as int));
            if i < nn {
                vstd::arithmetic::div_mod::lemma_small_mod(i as nat, nn as nat);
            }
            assert((i as int) < nn as int ==> idx as int == i as int);
        }
        if !is_single_byte(c) {
            proof {
                assert(!spec_is_single_byte(v@[idx as int]));
                assert(!all_single_byte(v@));
            }
            return ScanFinish::NonByte;
        }
        let ghost st0 = abs_state(stack@, max_len, max_end, prev_valid_len);
        proof {
            assert((i as int) < 2 * (v@.len() as int));
        }
        match opening_bracket_to_closing(c) {
            Some(closer) => {
                let wrap_stop = i >= nn && stack.len() > 0 && stack[0].origin == i - nn;
                let full_stop = stack.len() as u128 + 1 == nn;
                if wrap_stop || full_stop {
                    proof {
                        assert(scan_step(v@, i as int, st0) == StepVerdict::Report(
                            ScanResult::Finite { max_len: max_len as int, max_end: max_end as int },
                        ));
                        assert(i as int >= nn as int - 1);
                        assert forall|j: int| 0 <= j < v@.len() implies spec_is_single_byte(
                            #[trigger] v@[j],
                        ) by {
                            if j >= i as int {
                                assert(j == i as int);
                                assert(v@[j] == c);
                            }
                        }
                    }
                    return ScanFinish::Finite(max_len, max_end);
                } else {
                    let ghost pre_stack = stack@;
                    stack.push(CharPos { closer, origin: i });
                    proof {
                        assert(abs_stack(stack@) =~= abs_stack(pre_stack).push(
                            PendingOpen { closer, origin: i as int },
                        ));
                        assert(scan_step(v@, i as int, st0) == StepVerdict::Advance(
                            abs_state(stack@, max_len, max_end, prev_valid_len),
                        ));
                    }
                }
            },
            None => {
                if is_bracket(c) {
                    let top_matches = stack.len() > 0 && stack[stack.len() - 1].closer == c;
                    if top_matches {
                        let ghost pre_stack = stack@;
                        let opened = stack.pop().unwrap();
                        proof {
                            assert(abs_stack(stack@) =~= abs_stack(pre_stack).drop_last());
                            if stack@.len() > 0 {
                                assert(abs_stack(pre_stack).drop_last().last() == abs_stack(
                                    stack@,
                                )[stack@.len() - 1]);
                            }
                        }
                        let cand = if stack.len() > 0 {
                            i - stack[stack.len() - 1].origin
                        } else {
                            1 + i - opened.origin + prev_valid_len
                        };
                        let ghost popped = abs_state(stack@, max_len, max_end, prev_valid_len);
                        proof {
                            if pre_stack.len() == 1 {
                                assert(opened.origin == pre_stack[0].origin);
                            }
                            assert(cand as int <= i as int + 1);
                            assert(scan_step(v@, i as int, st0) == crate::model::note_candidate(
                                v@,
                                i as int,
                                popped,
                                cand as int,
                            ));
                        }
                        if cand > max_len {
                            if cand >= nn {
                                proof {
                                    assert(i as int >= nn as int - 1);
                                    assert forall|j: int|
                                        0 <= j < v@.len() implies spec_is_single_byte(
                                        #[trigger] v@[j],
                                    ) by {
                                        if j >= i as int {
                                            assert(j == i as int);
                                            assert(v@[j] == c);
                                        }
                                    }
                                }
                                return ScanFinish::Infinite;
                            }
                            max_len = cand;
                            max_end = i + 1;
                        }
                        if stack.len() == 0 {
                            prev_valid_len = cand;
                        }
                        proof {
                            assert(scan_step(v@, i as int, st0) == StepVerdict::Advance(
                                abs_state(stack@, max_len, max_end, prev_valid_len),
                            ));
                        }
                    } else {
                        prev_valid_len = 0;
                        stack.clear();
                        proof {
                            assert(abs_stack(stack@) =~= Seq::<PendingOpen>::empty());
                        }
                        if i >= nn {
                            proof {
                                assert(scan_step(v@, i as int, st0) == StepVerdict::Report(
                                    ScanResult::Finite {
                                        max_len: max_len as int,
                                        max_end: max_end as int,
                                    },
                                ));
                            }
                            return ScanFinish::Finite(max_len, max_end);
                        }
                        proof {
                            assert(scan_step(v@, i as int, st0) == StepVerdict::Advance(
                                abs_state(stack@, max_len, max_end, prev_valid_len),
                            ));
                        }
                    }
                } else {
                    let cand = if stack.len() > 0 {
                        i - stack[stack.len() - 1].origin
                    } else {
                        prev_valid_len + 1
                    };
                    proof {
                        assert(cand as int <= i as int + 1);
                        assert(scan_step(v@, i as int, st0) == crate::model::note_candidate(
                            v@,
                            i as int,
                            st0,
                            cand as int,
                        ));
                    }
                    if cand > max_len {
                        if cand >= nn {
                            proof {
                                assert(i as int >= nn as int - 1);
                                assert forall|j: int| 0 <= j < v@.len() implies spec_is_single_byte(
                                    #[trigger] v@[j],
                                ) by {
                                    if j >= i as int {
                                        assert(j == i as int);
                                        assert(v@[j] == c);
                                    }
                                }
                            }
                            return ScanFinish::Infinite;
                        }
                        max_len = cand;
                        max_end = i + 1;
                    }
                    if stack.len() == 0 {
                        prev_valid_len = cand;
                    }
                    proof {
                        assert(scan_step(v@, i as int, st0) == StepVerdict::Advance(
                            abs_state(stack@, max_len, max_end, prev_valid_len),
                        ));
                    }
                }
            },
        }
        i = i + 1;
    }
    ScanFinish::Finite(max_len, max_end)
}

/// Reads the best window back off the cyclic input: the characters at
/// unwrapped indices `max_end - max_len` up to `max_end`.
fn build_result(v: &Vec<char>, max_len: u128, max_end: u128) -> (out: Vec<char>)
    requires
        max_len <= max_end,
        max_end as int <= 2 * v@.len(),
    ensures
        out@ == cyclic_slice(v@, max_end as int - max_len as int, max_end as int),
{
    let mut out: Vec<char> = Vec::new();
    let start = max_end - max_len;
    let nn: u128 = v.len() as u128;
    let mut k: u128 = 0;
    while k < max_len
        invariant
            nn as int == v@.len() as int,
            nn as int <= usize::MAX as int,
            max_len <= max_end,
            max_end as int <= 2 * nn as int,
            start == max_end - max_len,
            k <= max_len,
            out@.len() == k as int,
            forall|t: int| 0 <= t < k as int ==> #[trigger] out@[t] == cyclic_at(v@, start as int + t),
        decreases max_len - k,
    {
        let idx = ((start + k) % nn) as usize;
        proof {
            assert(idx as int == ((start + k) as int) % (nn as int));
            assert(v@[idx as int] == cyclic_at(v@, start as int + k as int));
        }
        out.push(v[idx]);
        k = k + 1;
    }
    proof {
        assert(out@ =~= cyclic_slice(v@, max_end as int - max_len as int, max_end as int));
    }
    out
}

/// Relies on `String`'s `FromIterator<char>` implementation: collecting
/// characters yields the string of exactly those characters, in order.
#[verifier::external_body]
fn string_of_chars(v: Vec<char>) -> (s: String)
    ensures
        s@ == v@,
{
    v.into_iter().collect()
}

/// Produces the longest substring with valid brackets of the infinite
/// cyclic repetition of `val`, using its characters. If that substring is
/// unbounded, returns `"Infinite"`.
///
/// Returns `Err` when the string contains a char whose encoding takes more
/// than one byte.
pub fn create_longest_substring(val: &str) -> (r: Result<String, Error>)
    ensures
        match r {
            Ok(out) => all_single_byte(val@) && out@ == scan_output(val@),
            Err(e) => !all_single_byte(val@) && e == Error::NonByteChar,
        },
{
    let chars = collect_chars(val);
    match scan_chars(&chars) {
        ScanFinish::NonByte => Err(Error::NonByteChar),
        ScanFinish::Infinite => Ok("Infinite".to_owned()),
        ScanFinish::Finite(ml, me) => {
            let picked = build_result(&chars, ml, me);
            Ok(string_of_chars(picked))
        },
    }
}

} // verus!
