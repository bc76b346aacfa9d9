//! Bytes that do nothing can be taken out of a program.
//!
//! A program with comment markers in it and the same program without
//! them do the same: they halt on the same states, put out the same
//! values and leave the same tape and pointer. The same holds of any
//! other byte that is not an instruction.

use crate::machine::{
    lemma_next_output_valid, lemma_resume_deterministic, lemma_resume_more_fuel,
    lemma_resume_valid, lemma_step_valid, Machine,
};
use crate::program::{
    accepts, depth, is_bracket, is_instruction, is_pair, lemma_pair_partners, partner,
    LOOP_CLOSE, LOOP_OPEN,
};
use vstd::prelude::*;

verus! {

/// The first `upto` bytes of `code` without those equal to `marker`.
pub open spec fn stripped_upto(code: Seq<u8>, marker: u8, upto: int) -> Seq<u8>
    decreases upto,
{
    if upto <= 0 {
        Seq::empty()
    } else if code[upto - 1] == marker {
        stripped_upto(code, marker, upto - 1)
    } else {
        stripped_upto(code, marker, upto - 1).push(code[upto - 1])
    }
}

/// `code` without the bytes equal to `marker`.
pub open spec fn stripped(code: Seq<u8>, marker: u8) -> Seq<u8> {
    stripped_upto(code, marker, code.len() as int)
}

/// Where position `at` of `code` lies once the bytes equal to `marker`
/// are gone: the number of other bytes in front of it.
pub open spec fn moved(code: Seq<u8>, marker: u8, at: int) -> int {
    stripped_upto(code, marker, at).len() as int
}

/// The state `m` with the bytes equal to `marker` taken out of its
/// program, at the same point of the program. Tape and pointer are
/// those of `m`.
pub open spec fn without(m: Machine, marker: u8) -> Machine {
    Machine { code: stripped(m.code, marker), ip: moved(m.code, marker, m.ip), ..m }
}

/// Positions keep their order.
pub proof fn lemma_moved_monotone(code: Seq<u8>, marker: u8, i: int, j: int)
    requires
        0 <= i <= j,
    ensures
        0 <= moved(code, marker, i) <= moved(code, marker, j),
    decreases j,
{
    if i < j {
        lemma_moved_monotone(code, marker, i, j - 1);
    }
}

/// A longer prefix, stripped, begins with the shorter one, stripped.
proof fn lemma_stripped_prefix(code: Seq<u8>, marker: u8, i: int, j: int, k: int)
    requires
        0 <= i <= j,
        0 <= k < moved(code, marker, i),
    ensures
        k < moved(code, marker, j),
        stripped_upto(code, marker, j)[k] == stripped_upto(code, marker, i)[k],
    decreases j,
{
    if i < j {
        lemma_stripped_prefix(code, marker, i, j - 1, k);
    }
}

/// A byte that stays is found at the place it has moved to.
pub proof fn lemma_stripped_at(code: Seq<u8>, marker: u8, at: int)
    requires
        0 <= at < code.len(),
        code[at] != marker,
    ensures
        0 <= moved(code, marker, at) < stripped(code, marker).len(),
        moved(code, marker, at + 1) == moved(code, marker, at) + 1,
        stripped(code, marker)[moved(code, marker, at)] == code[at],
{
    lemma_stripped_prefix(code, marker, at + 1, code.len() as int, moved(code, marker, at));
}

/// Every place in the stripped text is the place that some byte of
/// the text has moved to.
pub proof fn lemma_origin(code: Seq<u8>, marker: u8, upto: int, place: int) -> (at: int)
    requires
        0 <= upto <= code.len(),
        0 <= place < moved(code, marker, upto),
    ensures
        0 <= at < upto,
        code[at] != marker,
        moved(code, marker, at) == place,
    decreases upto,
{
    if place < moved(code, marker, upto - 1) {
        lemma_origin(code, marker, upto - 1, place)
    } else {
        upto - 1
    }
}

/// The depth in front of a position is the depth in front of the
/// place it has moved to.
pub proof fn lemma_depth_moved(code: Seq<u8>, marker: u8, at: int)
    requires
        !is_bracket(marker),
        0 <= at <= code.len(),
    ensures
        depth(stripped(code, marker), moved(code, marker, at)) == depth(code, at),
    decreases at,
{
    if at > 0 {
        lemma_depth_moved(code, marker, at - 1);
        if code[at - 1] != marker {
            lemma_stripped_at(code, marker, at - 1);
        }
    }
}

/// A text is accepted exactly when it is accepted without the marker.
pub proof fn lemma_accepts_stripped(code: Seq<u8>, marker: u8)
    requires
        !is_bracket(marker),
    ensures
        accepts(code) <==> accepts(stripped(code, marker)),
{
    let short = stripped(code, marker);
    if accepts(code) {
        assert forall|k: int| 0 <= k <= short.len() implies depth(short, k) >= 0 by {
            if k > 0 {
                let at = lemma_origin(code, marker, code.len() as int, k - 1);
                lemma_stripped_at(code, marker, at);
                lemma_depth_moved(code, marker, at + 1);
                assert(depth(code, at + 1) >= 0);
            }
        }
    }
    if accepts(short) {
        assert forall|i: int| 0 <= i <= code.len() implies depth(code, i) >= 0 by {
            lemma_depth_moved(code, marker, i);
            lemma_moved_monotone(code, marker, i, code.len() as int);
            assert(depth(short, moved(code, marker, i)) >= 0);
        }
    }
}

/// A pair stays a pair.
pub proof fn lemma_pair_moved(code: Seq<u8>, marker: u8, open: int, close: int)
    requires
        !is_bracket(marker),
        is_pair(code, open, close),
    ensures
        is_pair(stripped(code, marker), moved(code, marker, open), moved(code, marker, close)),
{
    let short = stripped(code, marker);
    let o = moved(code, marker, open);
    let c = moved(code, marker, close);
    lemma_stripped_at(code, marker, open);
    lemma_stripped_at(code, marker, close);
    lemma_moved_monotone(code, marker, open + 1, close);
    lemma_depth_moved(code, marker, open);
    lemma_depth_moved(code, marker, close + 1);
    assert forall|k: int| o < k <= c implies depth(short, k) > depth(short, o) by {
        let at = lemma_origin(code, marker, code.len() as int, k - 1);
        lemma_stripped_at(code, marker, at);
        if at < open {
            lemma_moved_monotone(code, marker, at + 1, open);
        }
        if at >= close {
            lemma_moved_monotone(code, marker, close, at);
        }
        lemma_depth_moved(code, marker, at + 1);
        assert(depth(code, at + 1) > depth(code, open));
    }
}

/// Two brackets that are a pair without the marker were one with it.
pub proof fn lemma_pair_origin(code: Seq<u8>, marker: u8, open: int, close: int)
    requires
        !is_bracket(marker),
        0 <= open < code.len(),
        0 <= close < code.len(),
        code[open] == LOOP_OPEN,
        code[close] == LOOP_CLOSE,
        is_pair(stripped(code, marker), moved(code, marker, open), moved(code, marker, close)),
    ensures
        is_pair(code, open, close),
{
    let short = stripped(code, marker);
    let o = moved(code, marker, open);
    lemma_stripped_at(code, marker, open);
    lemma_stripped_at(code, marker, close);
    if close <= open {
        lemma_moved_monotone(code, marker, close, open);
    }
    lemma_depth_moved(code, marker, open);
    lemma_depth_moved(code, marker, close + 1);
    assert forall|k: int| open < k <= close implies depth(code, k) > depth(code, open) by {
        lemma_depth_moved(code, marker, k);
        lemma_moved_monotone(code, marker, open + 1, k);
        lemma_moved_monotone(code, marker, k, close);
        assert(depth(short, moved(code, marker, k)) > depth(short, o));
    }
}

/// The partner of a bracket moves with it, and a bracket without a
/// partner stays without one.
pub proof fn lemma_partner_moved(code: Seq<u8>, marker: u8, at: int)
    requires
        !is_bracket(marker),
        0 <= at < code.len(),
        is_bracket(code[at]),
    ensures
        partner(stripped(code, marker), moved(code, marker, at)) == match partner(code, at) {
            Some(other) => Some(moved(code, marker, other)),
            None => None,
        },
{
    let short = stripped(code, marker);
    let here = moved(code, marker, at);
    lemma_stripped_at(code, marker, at);
    match partner(code, at) {
        Some(other) => {
            if code[at] == LOOP_OPEN {
                lemma_pair_moved(code, marker, at, other);
                lemma_pair_partners(short, here, moved(code, marker, other));
            } else {
                lemma_pair_moved(code, marker, other, at);
                lemma_pair_partners(short, moved(code, marker, other), here);
            }
        },
        None => {
            if partner(short, here) is Some {
                let there = partner(short, here).unwrap();
                let other = lemma_origin(code, marker, code.len() as int, there);
                lemma_stripped_at(code, marker, other);
                if code[at] == LOOP_OPEN {
                    lemma_pair_origin(code, marker, at, other);
                    lemma_pair_partners(code, at, other);
                } else {
                    lemma_pair_origin(code, marker, other, at);
                    lemma_pair_partners(code, other, at);
                }
            }
        },
    }
}

/// One instruction with the marker in the program, and the same
/// without it.
///
/// At a marker the state moves on and nothing else changes. At any
/// other byte both states are suspended or neither is; they run the
/// same instruction to the same state, or deliver the same value.
pub proof fn lemma_without_step(m: Machine, marker: u8)
    requires
        !is_instruction(marker),
        0 <= m.ip <= m.code.len(),
    ensures
        m.at_end() ==> without(m, marker).at_end(),
        !m.at_end() && m.code[m.ip] == marker ==> !m.suspended() && without(m.step(), marker)
            == without(m, marker),
        !m.at_end() && m.code[m.ip] != marker ==> {
            &&& m.suspended() == without(m, marker).suspended()
            &&& !m.suspended() ==> without(m.step(), marker) == without(m, marker).step()
        },
        m.suspended() ==> {
            &&& without(m, marker).suspended()
            &&& without(m.deliver().0, marker) == without(m, marker).deliver().0
            &&& m.deliver().1 == without(m, marker).deliver().1
        },
{
    if !m.at_end() {
        if m.code[m.ip] != marker {
            lemma_stripped_at(m.code, marker, m.ip);
            if is_bracket(m.code[m.ip]) {
                lemma_partner_moved(m.code, marker, m.ip);
                if partner(m.code, m.ip) is Some {
                    let other = partner(m.code, m.ip).unwrap();
                    lemma_stripped_at(m.code, marker, other);
                }
            }
        }
    }
}

/// A run with the marker in the program is a run without it: the
/// suspended state that is reached within `fuel` instructions is
/// reached without the marker too, within as many.
pub proof fn lemma_without_forward(m: Machine, marker: u8, fuel: nat)
    requires
        !is_instruction(marker),
        m.valid(),
        m.resume(fuel) is Some,
    ensures
        without(m, marker).resume(fuel) == Some(without(m.resume(fuel).unwrap(), marker)),
    decreases fuel,
{
    lemma_without_step(m, marker);
    if !m.suspended() {
        lemma_step_valid(m);
        let less = (fuel - 1) as nat;
        lemma_without_forward(m.step(), marker, less);
        if m.code[m.ip] == marker {
            lemma_resume_more_fuel(without(m, marker), less, fuel);
        }
    }
}

/// A run without the marker is a run with it: where the state
/// without the marker reaches a suspended state within `fuel`
/// instructions, the state with it reaches one too, within the number
/// that is returned.
pub proof fn lemma_without_backward(m: Machine, marker: u8, fuel: nat) -> (enough: nat)
    requires
        !is_instruction(marker),
        m.valid(),
        without(m, marker).resume(fuel) is Some,
    ensures
        m.resume(enough) is Some,
        without(m.resume(enough).unwrap(), marker) == without(m, marker).resume(fuel).unwrap(),
    decreases fuel, m.code.len() - m.ip,
{
    lemma_without_step(m, marker);
    if m.suspended() {
        0
    } else {
        lemma_step_valid(m);
        if m.code[m.ip] == marker {
            lemma_without_backward(m.step(), marker, fuel) + 1
        } else {
            lemma_without_backward(m.step(), marker, (fuel - 1) as nat) + 1
        }
    }
}

/// Taking the marker out of the program changes nothing that a caller
/// can see.
///
/// The state without the marker is valid; a call for the next output
/// returns from it exactly where it returns from the state with the
/// marker; both calls return the same value; and the state that the
/// one leaves is the state that the other leaves, without the marker:
/// with the same tape and the same pointer. So the same holds of the
/// call after that, and of every later one.
pub proof fn lemma_without_marker(m: Machine, marker: u8)
    requires
        !is_instruction(marker),
        m.valid(),
    ensures
        without(m, marker).valid(),
        m.halts() <==> without(m, marker).halts(),
        m.halts() ==> {
            &&& m.next_output().1 == without(m, marker).next_output().1
            &&& without(m.next_output().0, marker) == without(m, marker).next_output().0
            &&& m.next_output().0.tape == without(m, marker).next_output().0.tape
            &&& m.next_output().0.pointer == without(m, marker).next_output().0.pointer
        },
{
    let short = without(m, marker);
    lemma_accepts_stripped(m.code, marker);
    lemma_moved_monotone(m.code, marker, m.ip, m.code.len() as int);
    if m.halts() {
        let fuel = choose|fuel: nat| m.resume(fuel) is Some;
        lemma_without_forward(m, marker, fuel);
        lemma_resume_deterministic(m, fuel);
        lemma_resume_deterministic(short, fuel);
        let reached = m.resume(fuel).unwrap();
        lemma_resume_valid(m, fuel);
        lemma_without_step(reached, marker);
    }
    if short.halts() {
        let fuel = choose|fuel: nat| short.resume(fuel) is Some;
        lemma_without_backward(m, marker, fuel);
    }
}

/// Taking the marker out of the program changes nothing in any number
/// of calls: with and without it the next `calls` calls for the next
/// output all return or do not, they return the same values in the
/// same order, and they leave the same state but for the marker, with
/// the same tape and the same pointer.
pub proof fn lemma_without_marker_calls(m: Machine, marker: u8, calls: nat)
    requires
        !is_instruction(marker),
        m.valid(),
    ensures
        m.calls_return(calls) <==> without(m, marker).calls_return(calls),
        m.calls_return(calls) ==> {
            &&& m.outputs(calls) == without(m, marker).outputs(calls)
            &&& without(m.after_calls(calls), marker) == without(m, marker).after_calls(calls)
            &&& m.after_calls(calls).tape == without(m, marker).after_calls(calls).tape
            &&& m.after_calls(calls).pointer == without(m, marker).after_calls(calls).pointer
        },
    decreases calls,
{
    lemma_without_marker(m, marker);
    if calls > 0 && m.halts() {
        lemma_next_output_valid(m);
        lemma_without_marker_calls(m.next_output().0, marker, (calls - 1) as nat);
    }
}

/// Loading a text without the marker gives the state that loading the
/// text gives, without the marker.
pub proof fn lemma_without_loaded(text: Seq<u8>, marker: u8)
    ensures
        without(Machine::loaded(text), marker) == Machine::loaded(stripped(text, marker)),
{
}

} // verus!
