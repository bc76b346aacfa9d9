//! The engine as a mathematical object.
//!
//! A [`Machine`] is the state that a caller of the engine can tell
//! apart: the tape, the tape pointer, the program text and the
//! instruction pointer. Everything the engine does is stated here as a
//! function from machines to machines.

use crate::program::{
    accepts, close_of, lemma_accepts_closes_paired, lemma_accepts_concat, partner, DECREMENT,
    INCREMENT, LOOP_CLOSE, LOOP_OPEN, MOVE_LEFT, MOVE_RIGHT, OUTPUT,
};
use vstd::prelude::*;

verus! {

/// The number of cells on the tape.
pub const TAPE_LEN: usize = 200;

/// The state of an engine.
pub struct Machine {
    /// The cells of the tape.
    pub tape: Seq<u8>,
    /// The index of the current cell.
    pub pointer: int,
    /// The program text.
    pub code: Seq<u8>,
    /// The index of the next instruction.
    pub ip: int,
}

/// A tape of `TAPE_LEN` cells that all hold zero.
pub open spec fn blank_tape() -> Seq<u8> {
    Seq::new(TAPE_LEN as nat, |i: int| 0u8)
}

/// The cell value that follows `c`: one more, and zero after 255.
pub open spec fn successor(c: u8) -> u8 {
    if c == 255 {
        0
    } else {
        (c + 1) as u8
    }
}

/// The cell value in front of `c`: one less, and 255 in front of zero.
pub open spec fn predecessor(c: u8) -> u8 {
    if c == 0 {
        255
    } else {
        (c - 1) as u8
    }
}

impl Machine {
    /// The state of a newly made engine: a blank tape and no program.
    pub open spec fn fresh() -> Machine {
        Machine { tape: blank_tape(), pointer: 0, code: Seq::empty(), ip: 0 }
    }

    /// What holds of every state that an engine can be in.
    pub open spec fn valid(self) -> bool {
        &&& self.tape.len() == TAPE_LEN
        &&& 0 <= self.pointer < self.tape.len()
        &&& 0 <= self.ip <= self.code.len()
        &&& accepts(self.code)
    }

    /// The value of the current cell.
    pub open spec fn cell(self) -> u8 {
        self.tape[self.pointer]
    }

    /// Whether the instruction pointer has left the program.
    pub open spec fn at_end(self) -> bool {
        !(0 <= self.ip < self.code.len())
    }

    /// Whether the next instruction is a bracket that asks for a jump:
    /// a `[` on a zero cell, or a `]` on a cell that is not zero.
    pub open spec fn jump_due(self) -> bool {
        ||| self.code[self.ip] == LOOP_OPEN && self.cell() == 0
        ||| self.code[self.ip] == LOOP_CLOSE && self.cell() != 0
    }

    /// Whether a jump is due from a bracket that has no partner. That
    /// happens at a `[` whose loop the text has not closed yet: the
    /// engine waits there until more text is appended.
    pub open spec fn blocked(self) -> bool {
        !self.at_end() && self.jump_due() && partner(self.code, self.ip) is None
    }

    /// Whether a call for the next output returns from this state
    /// without running any further: at the end of the program, at an
    /// output instruction, or where the engine is blocked.
    pub open spec fn suspended(self) -> bool {
        self.at_end() || self.code[self.ip] == OUTPUT || self.blocked()
    }

    /// The pointer after a move to the right: back at zero behind the
    /// last cell.
    pub open spec fn right_of(self) -> int {
        if self.pointer + 1 >= self.tape.len() {
            0
        } else {
            self.pointer + 1
        }
    }

    /// The pointer after a move to the left: at the last cell in front
    /// of the first.
    pub open spec fn left_of(self) -> int {
        if self.pointer <= 0 {
            self.tape.len() - 1
        } else {
            self.pointer - 1
        }
    }

    /// The state after the next instruction, for a state that is not
    /// suspended.
    pub open spec fn step(self) -> Machine {
        let op = self.code[self.ip];
        if op == MOVE_RIGHT {
            Machine { pointer: self.right_of(), ip: self.ip + 1, ..self }
        } else if op == MOVE_LEFT {
            Machine { pointer: self.left_of(), ip: self.ip + 1, ..self }
        } else if op == INCREMENT {
            Machine {
                tape: self.tape.update(self.pointer, successor(self.cell())),
                ip: self.ip + 1,
                ..self
            }
        } else if op == DECREMENT {
            Machine {
                tape: self.tape.update(self.pointer, predecessor(self.cell())),
                ip: self.ip + 1,
                ..self
            }
        } else if self.jump_due() {
            Machine { ip: partner(self.code, self.ip).unwrap() + 1, ..self }
        } else {
            Machine { ip: self.ip + 1, ..self }
        }
    }

    /// What a call for the next output leaves and returns in a
    /// suspended state: at an output instruction the value of the
    /// current cell, with the instruction pointer moved past it;
    /// otherwise nothing, with the state as it is.
    pub open spec fn deliver(self) -> (Machine, Option<u8>) {
        if !self.at_end() && self.code[self.ip] == OUTPUT {
            (Machine { ip: self.ip + 1, ..self }, Some(self.cell()))
        } else {
            (self, None)
        }
    }

    /// The first suspended state that is reached from this one within
    /// `fuel` instructions, if there is one.
    pub open spec fn resume(self, fuel: nat) -> Option<Machine>
        decreases fuel,
    {
        if self.suspended() {
            Some(self)
        } else if fuel == 0 {
            None
        } else {
            self.step().resume((fuel - 1) as nat)
        }
    }

    /// Whether a suspended state is reached from this one at all. A
    /// program that loops for ever without an output does not halt.
    pub open spec fn halts(self) -> bool {
        exists|fuel: nat| self.resume(fuel) is Some
    }

    /// The state that a call for the next output leaves, and what it
    /// returns, for a state that halts.
    pub open spec fn next_output(self) -> (Machine, Option<u8>) {
        self.resume(choose|fuel: nat| self.resume(fuel) is Some).unwrap().deliver()
    }

    /// Whether each of the next `calls` calls for the next output
    /// returns.
    pub open spec fn calls_return(self, calls: nat) -> bool
        decreases calls,
    {
        calls == 0 || (self.halts() && self.next_output().0.calls_return((calls - 1) as nat))
    }

    /// The state after `calls` calls for the next output.
    pub open spec fn after_calls(self, calls: nat) -> Machine
        decreases calls,
    {
        if calls == 0 {
            self
        } else {
            self.next_output().0.after_calls((calls - 1) as nat)
        }
    }

    /// What the next `calls` calls for the next output return, in the
    /// order of the calls.
    pub open spec fn outputs(self, calls: nat) -> Seq<Option<u8>>
        decreases calls,
    {
        if calls == 0 {
            Seq::empty()
        } else {
            seq![self.next_output().1] + self.next_output().0.outputs((calls - 1) as nat)
        }
    }

    /// The state with tape and both pointers back at the start, and
    /// the program kept.
    pub open spec fn rewound(self) -> Machine {
        Machine { tape: blank_tape(), pointer: 0, ip: 0, ..self }
    }

    /// The state after loading `text` as the whole program. Nothing
    /// of the state before the load is left in it.
    pub open spec fn loaded(text: Seq<u8>) -> Machine {
        Machine { tape: blank_tape(), pointer: 0, code: text, ip: 0 }
    }

    /// The state after appending `text` to the program.
    pub open spec fn appended(self, text: Seq<u8>) -> Machine {
        Machine { code: self.code + text, ..self }
    }
}

/// Loading a text in two parts is loading it whole.
///
/// The whole text is accepted exactly when its first part is accepted
/// as a program and its second part is accepted behind the first. The
/// state after loading the first part and appending the second is then
/// the state after loading the whole: so every call that follows
/// returns the same from both.
pub proof fn lemma_append_is_load(first: Seq<u8>, second: Seq<u8>, calls: nat)
    ensures
        accepts(first + second) <==> accepts(first) && accepts(
            Machine::loaded(first).code + second,
        ),
        Machine::loaded(first).appended(second) == Machine::loaded(first + second),
        Machine::loaded(first).appended(second).calls_return(calls) == Machine::loaded(
            first + second,
        ).calls_return(calls),
        Machine::loaded(first).appended(second).outputs(calls) == Machine::loaded(
            first + second,
        ).outputs(calls),
{
    lemma_accepts_concat(first, second);
}

/// A valid state is blocked only at a `[` on a zero cell whose loop is
/// still open: every `]` of an accepted program has its `[`.
pub proof fn lemma_blocked_at_open(m: Machine)
    requires
        m.valid(),
        m.blocked(),
    ensures
        m.code[m.ip] == LOOP_OPEN,
        m.cell() == 0,
        close_of(m.code, m.ip) is None,
{
    lemma_accepts_closes_paired(m.code);
}

/// In a suspended state a call for the next output returns at once:
/// at the end of the program, and where the engine is blocked, every
/// call returns nothing and leaves the state as it is.
pub proof fn lemma_suspended_returns(m: Machine)
    requires
        m.suspended(),
    ensures
        m.halts(),
        m.next_output() == m.deliver(),
        m.at_end() || m.blocked() ==> m.next_output() == (m, None::<u8>),
{
    assert(m.resume(0) == Some(m));
    lemma_resume_deterministic(m, 0);
}

/// Running on takes a valid state to a valid state.
pub proof fn lemma_step_valid(m: Machine)
    requires
        m.valid(),
        !m.suspended(),
    ensures
        m.step().valid(),
{
}

/// Delivering takes a valid state to a valid state.
pub proof fn lemma_deliver_valid(m: Machine)
    requires
        m.valid(),
        m.suspended(),
    ensures
        m.deliver().0.valid(),
{
}

/// More fuel than needed changes nothing: the suspended state that is
/// reached within `fuel` instructions is also the one reached within
/// any larger number.
pub proof fn lemma_resume_more_fuel(m: Machine, fuel: nat, more: nat)
    requires
        m.resume(fuel) is Some,
        fuel <= more,
    ensures
        m.resume(more) == m.resume(fuel),
    decreases fuel,
{
    if !m.suspended() {
        lemma_resume_more_fuel(m.step(), (fuel - 1) as nat, (more - 1) as nat);
    }
}

/// A run is determined by the state it starts from: however much fuel
/// is granted, if it is enough, the same suspended state is reached,
/// the same state is left and the same value is returned.
pub proof fn lemma_resume_deterministic(m: Machine, fuel: nat)
    requires
        m.resume(fuel) is Some,
    ensures
        m.halts(),
        m.next_output() == m.resume(fuel).unwrap().deliver(),
{
    let chosen = choose|f: nat| m.resume(f) is Some;
    if chosen <= fuel {
        lemma_resume_more_fuel(m, chosen, fuel);
    } else {
        lemma_resume_more_fuel(m, fuel, chosen);
    }
}

/// Two runs from one state reach the same suspended state, whatever
/// fuel each of them is granted, if it is enough.
pub proof fn lemma_resume_unique(m: Machine, fuel: nat, other: nat)
    requires
        m.resume(fuel) is Some,
        m.resume(other) is Some,
    ensures
        m.resume(fuel) == m.resume(other),
{
    if fuel <= other {
        lemma_resume_more_fuel(m, fuel, other);
    } else {
        lemma_resume_more_fuel(m, other, fuel);
    }
}

/// A call for the next output that returns leaves a valid state.
pub proof fn lemma_next_output_valid(m: Machine)
    requires
        m.valid(),
        m.halts(),
    ensures
        m.next_output().0.valid(),
{
    let fuel = choose|fuel: nat| m.resume(fuel) is Some;
    lemma_resume_valid(m, fuel);
    lemma_deliver_valid(m.resume(fuel).unwrap());
}

/// The suspended state that a valid state reaches is valid.
pub proof fn lemma_resume_valid(m: Machine, fuel: nat)
    requires
        m.valid(),
        m.resume(fuel) is Some,
    ensures
        m.resume(fuel).unwrap().valid(),
        m.resume(fuel).unwrap().suspended(),
    decreases fuel,
{
    if !m.suspended() {
        lemma_step_valid(m);
        lemma_resume_valid(m.step(), (fuel - 1) as nat);
    }
}

} // verus!
