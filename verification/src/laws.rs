//! General properties of the scan, proved once and for all inputs.

use vstd::prelude::*;

use crate::model::PendingOpen;
use crate::model::ScanResult;
use crate::model::ScanState;
use crate::model::StepVerdict;
use crate::model::cyclic_slice;
use crate::model::init_state;
use crate::model::scan_from;
use crate::model::scan_output;
use crate::model::scan_spec;
use crate::model::scan_step;
use crate::model::spec_closer_of;
use crate::model::spec_is_bracket;
use crate::model::balance_from;
use crate::model::balance_step;
use crate::model::is_balanced;
use vstd::arithmetic::div_mod::lemma_mod_sub_multiples_vanish;
use vstd::arithmetic::div_mod::lemma_small_mod;

verus! {

/// The facts that hold of the scanner's state whenever the walk stands at
/// unwrapped index `i`: the recorded best window lies behind the walk, the
/// trailing balanced run is no longer than the ground covered, and every
/// pending open was opened behind the walk, the first no earlier than the
/// trailing run reaches back.
pub open spec fn scan_wf(s: Seq<char>, i: int, st: ScanState) -> bool {
    &&& 0 <= st.max_len <= st.max_end <= i <= 2 * s.len()
    &&& st.max_len <= s.len()
    &&& 0 <= st.prev_valid_len <= i
    &&& st.stack.len() <= i
    &&& forall|k: int| 0 <= k < st.stack.len() ==> 0 <= (#[trigger] st.stack[k]).origin < i
    &&& st.stack.len() > 0 ==> st.prev_valid_len <= st.stack[0].origin
}

/// Scanning on from any well-formed state keeps the recorded best window
/// well-formed: its length never passes its end, and its end never passes
/// the two full laps the walk is bounded by.
proof fn lemma_scan_from_wf(s: Seq<char>, i: int, st: ScanState)
    requires
        scan_wf(s, i, st),
    ensures
        scan_from(s, i, st) matches ScanResult::Finite { max_len, max_end } ==> 0 <= max_len
            <= max_end <= 2 * s.len() && max_len <= s.len(),
    decreases 2 * s.len() - i,
{
    let n = s.len() as int;
    if i >= 2 * n {
    } else {
        let c = s[i % n];
        match scan_step(s, i, st) {
            StepVerdict::Report(r) => {},
            StepVerdict::Advance(next) => {
                match spec_closer_of(c) {
                    Some(closer) => {
                        assert(next.stack == st.stack.push(PendingOpen { closer, origin: i }));
                        assert(scan_wf(s, i + 1, next));
                    },
                    None => {
                        if spec_is_bracket(c) {
                            if st.stack.len() > 0 && st.stack.last().closer == c {
                                let rest = st.stack.drop_last();
                                if rest.len() == 0 {
                                    assert(st.stack[0] == st.stack.last());
                                }
                                assert(scan_wf(s, i + 1, next));
                            } else {
                                assert(scan_wf(s, i + 1, next));
                            }
                        } else {
                            assert(scan_wf(s, i + 1, next));
                        }
                    },
                }
                lemma_scan_from_wf(s, i + 1, next);
            },
        }
    }
}

/// However long the input, the best finite span the scan can find is never
/// longer than two full laps over the input's characters; the span lies
/// behind its unwrapped end, and the answer text read off for it has
/// exactly the span's length.
pub proof fn lemma_finite_answer_bounded(s: Seq<char>)
    ensures
        scan_spec(s) matches ScanResult::Finite { max_len, max_end } ==> 0 <= max_len <= max_end
            <= 2 * s.len() && max_len <= s.len() && scan_output(s).len() == max_len,
{
    lemma_scan_from_wf(s, 0, init_state());
}

/// Reconstructing a span that straddles the wrap point from its two
/// unwrapped halves, the tail of the input followed by its head, gives
/// exactly the contiguous run of the cyclic reading between the same
/// unwrapped indices.
pub proof fn lemma_wrap_reconstruction(s: Seq<char>, start: int, end: int)
    requires
        s.len() > 0,
        0 <= start <= s.len(),
        s.len() <= end <= start + s.len(),
    ensures
        cyclic_slice(s, start, end) == s.subrange(start, s.len() as int) + s.subrange(
            0,
            end - s.len(),
        ),
{
    let n = s.len() as int;
    let tail_then_head = s.subrange(start, n) + s.subrange(0, end - n);
    assert forall|k: int| 0 <= k < end - start implies cyclic_slice(s, start, end)[k]
        == tail_then_head[k] by {
        if start + k < n {
            lemma_small_mod((start + k) as nat, n as nat);
            assert(cyclic_slice(s, start, end)[k] == s[start + k]);
            assert(tail_then_head[k] == s.subrange(start, n)[k]);
        } else {
            lemma_mod_sub_multiples_vanish(start + k, n);
            lemma_small_mod((start + k - n) as nat, n as nat);
            assert(cyclic_slice(s, start, end)[k] == s[start + k - n]);
            assert(tail_then_head[k] == s.subrange(0, end - n)[k - (n - start)]);
        }
    }
    assert(cyclic_slice(s, start, end) =~= tail_then_head);
}

/// For a finite answer whose span ends inside the first lap, the answer
/// text is exactly the plain, unwrapped slice of the input between the
/// span's bounds.
pub proof fn lemma_plain_answer_is_subrange(s: Seq<char>)
    requires
        scan_spec(s) is Finite,
        scan_spec(s) matches ScanResult::Finite { max_end, .. } ==> max_end <= s.len(),
    ensures
        scan_spec(s) matches ScanResult::Finite { max_len, max_end } ==> scan_output(s)
            == s.subrange(max_end - max_len, max_end),
{
    lemma_finite_answer_bounded(s);
    if let ScanResult::Finite { max_len, max_end } = scan_spec(s) {
        let start = max_end - max_len;
        assert forall|k: int| 0 <= k < max_len implies cyclic_slice(s, start, max_end)[k]
            == s.subrange(start, max_end)[k] by {
            lemma_small_mod((start + k) as nat, s.len());
        }
        assert(cyclic_slice(s, start, max_end) =~= s.subrange(start, max_end));
    }
}

/// For a straddling finite answer whose span begins inside the first lap,
/// the answer text is exactly the input's tail from the span's start,
/// followed by the input's head up to the span's unwrapped end.
pub proof fn lemma_straddling_answer_reconstructed(s: Seq<char>)
    requires
        scan_spec(s) is Finite,
        scan_spec(s) matches ScanResult::Finite { max_len, max_end } ==> s.len() < max_end
            && max_end - max_len <= s.len(),
    ensures
        scan_spec(s) matches ScanResult::Finite { max_len, max_end } ==> scan_output(s)
            == s.subrange(max_end - max_len, s.len() as int) + s.subrange(0, max_end - s.len()),
{
    lemma_finite_answer_bounded(s);
    if let ScanResult::Finite { max_len, max_end } = scan_spec(s) {
        lemma_wrap_reconstruction(s, max_end - max_len, max_end);
    }
}

/// One step after another of a bracket-free input: with the stack empty and
/// a trailing balanced run of length `i` behind it, the scan of such an
/// input from position `i` reports `Infinite` once the run covers the whole
/// input.
proof fn lemma_filler_scan_from(s: Seq<char>, i: int)
    requires
        0 <= i < s.len(),
        forall|j: int| 0 <= j < s.len() ==> !spec_is_bracket(#[trigger] s[j]),
    ensures
        scan_from(
            s,
            i,
            ScanState { stack: Seq::empty(), max_len: i, max_end: i, prev_valid_len: i },
        ) == ScanResult::Infinite,
    decreases s.len() - i,
{
    let n = s.len() as int;
    let st = ScanState { stack: Seq::empty(), max_len: i, max_end: i, prev_valid_len: i };
    lemma_small_mod(i as nat, n as nat);
    assert(s[i % n] == s[i]);
    assert(spec_closer_of(s[i]) is None);
    if i + 1 >= n {
        assert(scan_step(s, i, st) == StepVerdict::Report(ScanResult::Infinite));
    } else {
        let next = ScanState {
            stack: Seq::empty(),
            max_len: i + 1,
            max_end: i + 1,
            prev_valid_len: i + 1,
        };
        assert(scan_step(s, i, st) == StepVerdict::Advance(next));
        lemma_filler_scan_from(s, i + 1);
    }
}

/// A non-empty input made only of filler, characters that are not
/// brackets, always classifies as unboundedly valid: repeating it sustains
/// validity without limit.
pub proof fn lemma_filler_infinite(s: Seq<char>)
    requires
        s.len() > 0,
        forall|j: int| 0 <= j < s.len() ==> !spec_is_bracket(#[trigger] s[j]),
    ensures
        scan_spec(s) == ScanResult::Infinite,
{
    lemma_filler_scan_from(s, 0);
    assert(init_state() == ScanState {
        stack: Seq::<PendingOpen>::empty(),
        max_len: 0,
        max_end: 0,
        prev_valid_len: 0,
    });
}

/// A finite answer that holds no bracket characters, fed back in as the
/// whole input, classifies as an unboundedly valid span: rescanning such an
/// answer never shrinks it.
pub proof fn lemma_bracket_free_answer_rescans(s: Seq<char>)
    requires
        scan_spec(s) is Finite,
        scan_output(s).len() > 0,
        forall|j: int|
            0 <= j < scan_output(s).len() ==> !spec_is_bracket(#[trigger] scan_output(s)[j]),
    ensures
        scan_spec(scan_output(s)) == ScanResult::Infinite,
{
    lemma_filler_infinite(scan_output(s));
}

/// The expected closers of the pending opens, bottom to top.
spec fn stack_closers(stk: Seq<PendingOpen>) -> Seq<char> {
    stk.map(|k: int, e: PendingOpen| e.closer)
}

/// What holds of the scanner's state while it walks a balanced input it
/// has never stumbled on: the trailing balanced run reaches back to the
/// first pending open, or to the very start when nothing is open, and the
/// rest of the input closes exactly what is pending.
spec fn balanced_inv(s: Seq<char>, i: int, st: ScanState) -> bool {
    &&& 0 <= st.max_len < s.len()
    &&& st.stack.len() <= i
    &&& st.stack.len() == 0 ==> st.prev_valid_len == i
    &&& st.stack.len() > 0 ==> st.prev_valid_len == st.stack[0].origin
    &&& balance_from(s, i, stack_closers(st.stack)) == Some(Seq::<char>::empty())
}

/// Walking on from any state that the invariant above describes, the scan
/// of a balanced input always ends by reporting `Infinite`: at the last
/// character the whole input becomes one valid span.
proof fn lemma_balanced_scan_from(s: Seq<char>, i: int, st: ScanState)
    requires
        0 <= i < s.len(),
        balanced_inv(s, i, st),
    ensures
        scan_from(s, i, st) == ScanResult::Infinite,
    decreases s.len() - i,
{
    let n = s.len() as int;
    lemma_small_mod(i as nat, n as nat);
    let c = s[i];
    assert(s[i % n] == c);
    let cstk = stack_closers(st.stack);
    assert(cstk.len() == st.stack.len());
    match spec_closer_of(c) {
        Some(closer) => {
            assert(balance_step(cstk, c) == Some(cstk.push(closer)));
            assert(balance_from(s, i + 1, cstk.push(closer)) == Some(Seq::<char>::empty()));
            if i + 1 >= n {
                assert(balance_from(s, i + 1, cstk.push(closer)) == Some(cstk.push(closer)));
                assert(cstk.push(closer).len() > 0);
                assert(false);
            }
            let next = ScanState {
                stack: st.stack.push(PendingOpen { closer, origin: i }),
                max_len: st.max_len,
                max_end: st.max_end,
                prev_valid_len: st.prev_valid_len,
            };
            assert(st.stack.len() + 1 < n);
            assert(scan_step(s, i, st) == StepVerdict::Advance(next));
            assert(stack_closers(next.stack) =~= cstk.push(closer));
            assert(balanced_inv(s, i + 1, next));
            lemma_balanced_scan_from(s, i + 1, next);
        },
        None => {
            if spec_is_bracket(c) {
                if cstk.len() == 0 || cstk.last() != c {
                    assert(balance_step(cstk, c) is None);
                    assert(false);
                }
                assert(st.stack.last().closer == cstk[cstk.len() - 1]);
                assert(st.stack.len() > 0 && st.stack.last().closer == c);
                assert(balance_from(s, i + 1, cstk.drop_last()) == Some(Seq::<char>::empty()));
                let rest = st.stack.drop_last();
                assert(stack_closers(rest) =~= cstk.drop_last());
                let popped = ScanState {
                    stack: rest,
                    max_len: st.max_len,
                    max_end: st.max_end,
                    prev_valid_len: st.prev_valid_len,
                };
                if rest.len() > 0 {
                    let cand = i - rest.last().origin;
                    assert(scan_step(s, i, st) == crate::model::note_candidate(
                        s,
                        i,
                        popped,
                        cand,
                    ));
                    if i + 1 >= n {
                        assert(balance_from(s, i + 1, cstk.drop_last()) == Some(
                            cstk.drop_last(),
                        ));
                        assert(cstk.drop_last().len() > 0);
                        assert(false);
                    }
                    if cand > st.max_len && cand >= n {
                        assert(scan_from(s, i, st) == ScanResult::Infinite);
                    } else {
                        match scan_step(s, i, st) {
                            StepVerdict::Advance(next) => {
                                assert(next.stack == rest);
                                assert(rest[0] == st.stack[0]);
                                assert(balanced_inv(s, i + 1, next));
                                lemma_balanced_scan_from(s, i + 1, next);
                            },
                            StepVerdict::Report(r) => {
                                assert(false);
                            },
                        }
                    }
                } else {
                    assert(st.stack[0] == st.stack.last());
                    let cand = 1 + i - st.stack.last().origin + st.prev_valid_len;
                    assert(cand == i + 1);
                    assert(scan_step(s, i, st) == crate::model::note_candidate(
                        s,
                        i,
                        popped,
                        cand,
                    ));
                    if i + 1 >= n {
                        assert(cand >= n);
                        assert(cand > st.max_len);
                        assert(scan_from(s, i, st) == ScanResult::Infinite);
                    } else {
                        match scan_step(s, i, st) {
                            StepVerdict::Advance(next) => {
                                assert(next.stack =~= Seq::<PendingOpen>::empty());
                                assert(next.prev_valid_len == i + 1);
                                assert(balanced_inv(s, i + 1, next));
                                lemma_balanced_scan_from(s, i + 1, next);
                            },
                            StepVerdict::Report(r) => {
                                assert(false);
                            },
                        }
                    }
                }
            } else {
                assert(balance_step(cstk, c) == Some(cstk));
                assert(balance_from(s, i + 1, cstk) == Some(Seq::<char>::empty()));
                if st.stack.len() > 0 {
                    if i + 1 >= n {
                        assert(balance_from(s, i + 1, cstk) == Some(cstk));
                        assert(false);
                    }
                    let cand = i - st.stack.last().origin;
                    if cand > st.max_len && cand >= n {
                        assert(scan_from(s, i, st) == ScanResult::Infinite);
                    } else {
                        match scan_step(s, i, st) {
                            StepVerdict::Advance(next) => {
                                assert(balanced_inv(s, i + 1, next));
                                lemma_balanced_scan_from(s, i + 1, next);
                            },
                            StepVerdict::Report(r) => {
                                assert(false);
                            },
                        }
                    }
                } else {
                    let cand = st.prev_valid_len + 1;
                    assert(cand == i + 1);
                    if i + 1 >= n {
                        assert(cand > st.max_len && cand >= n);
                        assert(scan_from(s, i, st) == ScanResult::Infinite);
                    } else {
                        match scan_step(s, i, st) {
                            StepVerdict::Advance(next) => {
                                assert(balanced_inv(s, i + 1, next));
                                lemma_balanced_scan_from(s, i + 1, next);
                            },
                            StepVerdict::Report(r) => {
                                assert(false);
                            },
                        }
                    }
                }
            }
        },
    }
}

/// A non-empty, fully balanced input always classifies as unboundedly
/// valid: repeating it end to end sustains validity without limit.
pub proof fn lemma_balanced_infinite(s: Seq<char>)
    requires
        s.len() > 0,
        is_balanced(s),
    ensures
        scan_spec(s) == ScanResult::Infinite,
{
    assert(stack_closers(Seq::<PendingOpen>::empty()) =~= Seq::<char>::empty());
    assert(balanced_inv(s, 0, init_state()));
    lemma_balanced_scan_from(s, 0, init_state());
}

/// A finite answer that is itself fully balanced, fed back in as the whole
/// input, classifies as an unboundedly valid span: rescanning such an
/// answer never shrinks it.
pub proof fn lemma_balanced_answer_rescans(s: Seq<char>)
    requires
        scan_spec(s) is Finite,
        scan_output(s).len() > 0,
        is_balanced(scan_output(s)),
    ensures
        scan_spec(scan_output(s)) == ScanResult::Infinite,
{
    lemma_balanced_infinite(scan_output(s));
}

} // verus!
