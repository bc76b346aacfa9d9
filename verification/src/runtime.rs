//! The engine.

use crate::fill::{vacant, zeroes};
use crate::machine::{blank_tape, lemma_resume_deterministic, Machine, TAPE_LEN};
use crate::program::{
    accepts, depth, is_bracket, is_pair, lemma_accepts_concat, lemma_depth_concat,
    lemma_depth_plain, lemma_depth_prefix, lemma_open_unique, lemma_pair_partners,
    lemma_pair_prefix, open_at, DECREMENT, INCREMENT, LOOP_CLOSE, LOOP_OPEN, MOVE_LEFT,
    MOVE_RIGHT, OUTPUT,
};
use vstd::prelude::*;
use vstd::string::StringSliceAdditionalSpecFns;
use vstd::utf8::encode_utf8;

verus! {

/// What one call of [`Runtime::step`] did.
#[derive(Clone, Copy, Debug, PartialEq, Eq, Structural)]
pub enum Progress {
    /// An instruction other than an output ran; the engine can go on.
    Running,
    /// An output instruction ran and gave this value.
    Output(u8),
    /// Nothing ran: the program is at its end, or at a `[` on a zero
    /// cell whose loop has not been closed yet.
    Halted,
}

/// An execution engine: a tape of [`TAPE_LEN`] byte cells, a program,
/// and a table that gives each bracket of the program its partner.
pub struct Runtime {
    /// The tape.
    cells: Vec<u8>,
    /// The index of the current cell.
    ptr: usize,
    /// The program text. Instructions are addressed by byte.
    code: String,
    /// The index of the next instruction.
    code_ptr: usize,
    /// For each bracket that has one, the position of its partner.
    /// The table may be shorter than the program, but it reaches
    /// behind the last bracket.
    jumps: Vec<Option<usize>>,
    /// The positions of the loops that the program leaves open, the
    /// outermost first.
    open_loops: Vec<usize>,
}

/// Whether `entry` is the right table entry for position `at`, as far
/// as the first `upto` bytes of `code` tell.
spec fn entry_fits(code: Seq<u8>, upto: int, at: int, entry: Option<usize>) -> bool {
    match entry {
        Some(other) => {
            &&& at < upto
            &&& other < upto
            &&& if code[at] == LOOP_OPEN {
                is_pair(code, at, other as int)
            } else {
                is_pair(code, other as int, at)
            }
        },
        None => at < upto ==> {
            &&& code[at] != LOOP_CLOSE
            &&& forall|other: int| other < upto ==> !is_pair(code, at, other)
        },
    }
}

/// Whether `table` gives each bracket among the first `upto` bytes of
/// `code` its partner among them, and no entry to any other position.
spec fn table_fits(code: Seq<u8>, upto: int, table: Seq<Option<usize>>) -> bool {
    &&& table.len() <= code.len()
    &&& forall|at: int| 0 <= at < upto && is_bracket(#[trigger] code[at]) ==> at < table.len()
    &&& forall|at: int| 0 <= at < table.len() ==> entry_fits(code, upto, at, #[trigger] table[at])
}

/// Whether `stack` holds the positions of the loops that the first
/// `upto` bytes of `code` leave open, the outermost first.
spec fn stack_fits(code: Seq<u8>, upto: int, stack: Seq<usize>) -> bool {
    &&& stack.len() == depth(code, upto)
    &&& forall|level: int|
        0 <= level < stack.len() ==> open_at(code, upto, #[trigger] stack[level] as int, level)
}

/// The UTF-8 bytes of two texts in a row are the bytes of the first
/// followed by the bytes of the second.
pub proof fn lemma_encode_concat(a: Seq<char>, b: Seq<char>)
    ensures
        encode_utf8(a + b) == encode_utf8(a) + encode_utf8(b),
    decreases a.len(),
{
    if a.len() == 0 {
        assert(a + b =~= b);
        assert(encode_utf8(a) + encode_utf8(b) =~= encode_utf8(b));
    } else {
        lemma_encode_concat(a.drop_first(), b);
        assert((a + b).drop_first() =~= a.drop_first() + b);
        assert(encode_utf8(a + b) =~= encode_utf8(a) + encode_utf8(b));
    }
}

/// Looks through a fragment that is to follow a program with `open`
/// loops still open, without changing anything.
///
/// Returns `None` where the fragment closes a loop that is not open.
/// Otherwise returns whether the fragment holds any bracket at all.
fn survey(text: &[u8], open: usize) -> (found: Option<bool>)
    ensures
        found is Some <==> forall|i: int|
            0 <= i <= text@.len() ==> open + #[trigger] depth(text@, i) >= 0,
        found matches Some(any) ==> (any <==> exists|i: int|
            0 <= i < text@.len() && is_bracket(#[trigger] text@[i])),
{
    let mut level: u128 = open as u128;
    let mut any = false;
    let mut index: usize = 0;
    while index < text.len()
        invariant
            index <= text@.len(),
            level == open + depth(text@, index as int),
            depth(text@, index as int) <= index,
            forall|i: int| 0 <= i <= index ==> open + #[trigger] depth(text@, i) >= 0,
            any <==> exists|i: int| 0 <= i < index && is_bracket(#[trigger] text@[i]),
        decreases text@.len() - index,
    {
        let op = text[index];
        if op == LOOP_OPEN {
            level += 1;
            any = true;
        } else if op == LOOP_CLOSE {
            if level == 0 {
                assert(open + depth(text@, index + 1) < 0);
                return None;
            }
            level -= 1;
            any = true;
        }
        index += 1;
    }
    Some(any)
}

impl View for Runtime {
    type V = Machine;

    closed spec fn view(&self) -> Machine {
        Machine {
            tape: self.cells@,
            pointer: self.ptr as int,
            code: encode_utf8(self.code@),
            ip: self.code_ptr as int,
        }
    }
}

impl Runtime {
    /// The invariant of the engine: its state is valid, the jump table
    /// gives each bracket of the program its partner, and the stack
    /// holds the loops that the program leaves open.
    pub closed spec fn wf(&self) -> bool {
        &&& self@.valid()
        &&& table_fits(self@.code, self@.code.len() as int, self.jumps@)
        &&& stack_fits(self@.code, self@.code.len() as int, self.open_loops@)
    }

    /// The program text as characters.
    pub closed spec fn text(&self) -> Seq<char> {
        self.code@
    }

    /// The state of a well-formed engine is valid, and its program is
    /// the text in UTF-8.
    pub proof fn lemma_wf(&self)
        requires
            self.wf(),
        ensures
            self@.valid(),
            self@.code == encode_utf8(self.text()),
    {
    }

    /// An engine with a blank tape and no program.
    pub fn new() -> (rt: Self)
        ensures
            rt.wf(),
            rt@ == Machine::fresh(),
            rt.text() == Seq::<char>::empty(),
    {
        let rt = Self {
            cells: zeroes(TAPE_LEN),
            ptr: 0,
            code: String::new(),
            jumps: Vec::new(),
            open_loops: Vec::new(),
            code_ptr: 0,
        };
        assert(rt@.code =~= Seq::<u8>::empty());
        rt
    }

    /// An engine with a blank tape and `code` as its program. Where
    /// `code` is not accepted as a program, the engine has none: see
    /// [`Runtime::set_code`].
    pub fn with_code(code: String) -> (rt: Self)
        ensures
            rt.wf(),
            rt@ == if accepts(encode_utf8(code@)) {
                Machine::loaded(encode_utf8(code@))
            } else {
                Machine::fresh()
            },
            rt.text() == if accepts(encode_utf8(code@)) {
                code@
            } else {
                Seq::<char>::empty()
            },
    {
        let accepted = survey(code.as_str().as_bytes(), 0).is_some();
        let mut rt = Self::new();
        if accepted {
            rt.code = code;
            rt.recalculate_jumps(0, true);
        }
        rt
    }

    /// The program text.
    pub fn code(&self) -> (text: &str)
        ensures
            text@ == self.text(),
            text.spec_bytes() == self@.code,
    {
        self.code.as_str()
    }

    /// Runs at most one instruction.
    ///
    /// In a suspended state nothing runs but an output instruction,
    /// which gives its value. In any other state the next instruction
    /// runs.
    pub fn step(&mut self) -> (done: Progress)
        requires
            old(self).wf(),
        ensures
            final(self).wf(),
            final(self).text() == old(self).text(),
            match done {
                Progress::Running => !old(self)@.suspended() && final(self)@ == old(self)@.step(),
                Progress::Output(value) => old(self)@.suspended() && old(self)@.deliver() == (
                    final(self)@,
                    Some(value),
                ),
                Progress::Halted => old(self)@.suspended() && old(self)@.deliver() == (
                    final(self)@,
                    None::<u8>,
                ),
            },
    {
        let bytes = self.code.as_str().as_bytes();
        if self.code_ptr >= bytes.len() {
            return Progress::Halted;
        }
        let op = bytes[self.code_ptr];
        let cell = self.cells[self.ptr];
        if op == OUTPUT {
            self.code_ptr += 1;
            return Progress::Output(cell);
        }
        if op == MOVE_RIGHT {
            self.ptr += 1;
            if self.ptr >= TAPE_LEN {
                self.ptr -= TAPE_LEN;
            }
        } else if op == MOVE_LEFT {
            if self.ptr == 0 {
                self.ptr = TAPE_LEN - 1;
            } else {
                self.ptr -= 1;
            }
        } else if op == INCREMENT {
            self.cells.set(self.ptr, if cell == 255 { 0 } else { cell + 1 });
        } else if op == DECREMENT {
            self.cells.set(self.ptr, if cell == 0 { 255 } else { cell - 1 });
        } else if (op == LOOP_OPEN && cell == 0) || (op == LOOP_CLOSE && cell != 0) {
            let entry = self.jumps[self.code_ptr];
            match entry {
                Some(other) => {
                    proof {
                        if op == LOOP_OPEN {
                            lemma_pair_partners(self@.code, self.code_ptr as int, other as int);
                        } else {
                            lemma_pair_partners(self@.code, other as int, self.code_ptr as int);
                        }
                    }
                    self.code_ptr = other;
                },
                None => {
                    return Progress::Halted;
                },
            }
        }
        self.code_ptr += 1;
        Progress::Running
    }

    /// Runs the program on from where it stands to the next output.
    ///
    /// Returns the value of the current cell at the first output
    /// instruction that is reached, and leaves the engine behind that
    /// instruction. Returns `None` where the program ends first, or
    /// where it comes to a `[` on a zero cell whose loop has not been
    /// closed yet.
    ///
    /// There is no limit on the number of instructions. The caller has
    /// to know that the program reaches one of these points; where it
    /// does not know, it can call [`Runtime::step`] as often as it
    /// chooses.
    pub fn next_output(&mut self) -> (out: Option<u8>)
        requires
            old(self).wf(),
            old(self)@.halts(),
        ensures
            final(self).wf(),
            final(self).text() == old(self).text(),
            (final(self)@, out) == old(self)@.next_output(),
    {
        let ghost mut fuel: nat = choose|f: nat| old(self)@.resume(f) is Some;
        let ghost goal = old(self)@.resume(fuel);
        proof {
            lemma_resume_deterministic(old(self)@, fuel);
        }
        loop
            invariant
                self.wf(),
                self.text() == old(self).text(),
                goal is Some,
                self@.resume(fuel) == goal,
                old(self)@.next_output() == goal.unwrap().deliver(),
            decreases fuel,
        {
            match self.step() {
                Progress::Output(value) => {
                    return Some(value);
                },
                Progress::Halted => {
                    return None;
                },
                Progress::Running => {
                    proof {
                        fuel = (fuel - 1) as nat;
                    }
                },
            }
        }
    }

    /// Loads `code` as the whole program, on a blank tape.
    ///
    /// The text is accepted unless its brackets do not balance: unless
    /// it holds a `]` with no open `[` in front of it. That is the one
    /// error there is. Loops may be left open: a later append can
    /// close them. Whatever the engine held before is gone either way:
    /// where the text is not accepted, the engine is left as a new
    /// one, with a blank tape and no program.
    pub fn set_code(&mut self, code: &str) -> (done: Result<(), ()>)
        requires
            old(self).wf(),
        ensures
            final(self).wf(),
            done is Ok <==> accepts(code.spec_bytes()),
            done is Ok ==> final(self)@ == Machine::loaded(code.spec_bytes()),
            done is Ok ==> final(self).text() == code@,
            done is Err ==> final(self)@ == Machine::fresh(),
            done is Err ==> final(self).text() == Seq::<char>::empty(),
    {
        let accepted = survey(code.as_bytes(), 0).is_some();
        self.reset_execution();
        self.code = if accepted {
            code.to_owned()
        } else {
            String::new()
        };
        assert(!accepted ==> self@.code =~= Seq::<u8>::empty());
        self.recalculate_jumps(0, true);
        if accepted {
            Ok(())
        } else {
            Err(())
        }
    }

    /// Appends `append` to the program, as [`Runtime::append_code`]
    /// does. The program only ever grows: `remove` is not used.
    pub fn remove_append_code(&mut self, remove: usize, append: &str) -> (done: Result<(), ()>)
        requires
            old(self).wf(),
        ensures
            final(self).wf(),
            done is Ok <==> accepts(old(self)@.code + append.spec_bytes()),
            done is Ok ==> final(self)@ == old(self)@.appended(append.spec_bytes()),
            done is Ok ==> final(self).text() == old(self).text() + append@,
            done is Err ==> final(self)@ == old(self)@ && final(self).text() == old(self).text(),
    {
        let _ = remove;
        self.append_code(append)
    }

    /// Appends `code` to the program. Tape and pointers stay as they
    /// are.
    ///
    /// The longer program is accepted unless its brackets do not
    /// balance: unless `code` holds a `]` with neither an open `[` in
    /// front of it in `code` nor a loop of the program so far left for
    /// it to close. Where it is not accepted, the engine stays as it
    /// was.
    ///
    /// Only `code` is looked through, and where it holds no bracket
    /// the jump table is not touched.
    pub fn append_code(&mut self, code: &str) -> (done: Result<(), ()>)
        requires
            old(self).wf(),
        ensures
            final(self).wf(),
            done is Ok <==> accepts(old(self)@.code + code.spec_bytes()),
            done is Ok ==> final(self)@ == old(self)@.appended(code.spec_bytes()),
            done is Ok ==> final(self).text() == old(self).text() + code@,
            done is Err ==> final(self)@ == old(self)@ && final(self).text() == old(self).text(),
    {
        let ghost before = self@.code;
        let ghost added = code.spec_bytes();
        proof {
            lemma_accepts_concat(before, added);
        }
        match survey(code.as_bytes(), self.open_loops.len()) {
            None => Err(()),
            Some(any) => {
                let prev = self.code.as_str().as_bytes().len();
                self.code.append(code);
                proof {
                    lemma_encode_concat(old(self).code@, code@);
                    self.lemma_grown(*old(self), added, any);
                }
                if any {
                    self.recalculate_jumps(prev, false);
                }
                Ok(())
            },
        }
    }

    /// What the table and the stack of an engine still say after
    /// `added` has been put behind its program and nothing else has
    /// changed: all that they said of the program before, and, where
    /// `added` holds no bracket, all there is to say.
    proof fn lemma_grown(&self, before: Self, added: Seq<u8>, any: bool)
        requires
            before.wf(),
            self@ == before@.appended(added),
            self.jumps == before.jumps,
            self.open_loops == before.open_loops,
            accepts(self@.code),
            any <==> exists|i: int| 0 <= i < added.len() && is_bracket(#[trigger] added[i]),
        ensures
            self@.valid(),
            table_fits(self@.code, before@.code.len() as int, self.jumps@),
            stack_fits(self@.code, before@.code.len() as int, self.open_loops@),
            !any ==> self.wf(),
    {
        let old_code = before@.code;
        let new_code = self@.code;
        let prev = old_code.len() as int;
        assert forall|k: int| 0 <= k <= prev implies #[trigger] depth(new_code, k) == depth(
            old_code,
            k,
        ) by {
            lemma_depth_prefix(new_code, old_code, k);
        }
        assert forall|a: int, b: int| b < prev implies #[trigger] is_pair(new_code, a, b)
            == is_pair(old_code, a, b) by {
            lemma_pair_prefix(old_code, new_code, a, b);
        }
        assert forall|at: int| 0 <= at < self.jumps@.len() implies entry_fits(
            new_code,
            prev,
            at,
            #[trigger] self.jumps@[at],
        ) by {
            assert(entry_fits(old_code, prev, at, self.jumps@[at]));
        }
        assert forall|level: int| 0 <= level < self.open_loops@.len() implies open_at(
            new_code,
            prev,
            #[trigger] self.open_loops@[level] as int,
            level,
        ) by {
            assert(open_at(old_code, prev, self.open_loops@[level] as int, level));
        }
        if !any {
            let len = new_code.len() as int;
            assert forall|k: int| prev <= k <= len implies #[trigger] depth(new_code, k) == depth(
                new_code,
                prev,
            ) by {
                lemma_depth_concat(old_code, added, k - prev);
                lemma_depth_plain(added, k - prev);
            }
            assert forall|at: int| 0 <= at < len && is_bracket(
                #[trigger] new_code[at],
            ) implies at < self.jumps@.len() by {
                if at >= prev {
                    assert(!is_bracket(added[at - prev]));
                }
            }
            assert forall|at: int| 0 <= at < self.jumps@.len() implies entry_fits(
                new_code,
                len,
                at,
                #[trigger] self.jumps@[at],
            ) by {
                assert(entry_fits(new_code, prev, at, self.jumps@[at]));
                if self.jumps@[at] is None {
                    assert forall|other: int| other < len implies !is_pair(new_code, at, other) by {
                        if prev <= other {
                            assert(!is_bracket(added[other - prev]));
                        }
                    }
                }
            }
            assert forall|level: int| 0 <= level < self.open_loops@.len() implies open_at(
                new_code,
                len,
                #[trigger] self.open_loops@[level] as int,
                level,
            ) by {
                assert(open_at(new_code, prev, self.open_loops@[level] as int, level));
            }
        }
    }

    /// Brings table and stack up to date with the program, whose
    /// bytes from `start` on they do not cover yet. With `remove_old`
    /// both are emptied first, and `start` is zero.
    fn recalculate_jumps(&mut self, start: usize, remove_old: bool)
        requires
            old(self)@.valid(),
            start <= old(self)@.code.len(),
            remove_old ==> start == 0,
            !remove_old ==> table_fits(old(self)@.code, start as int, old(self).jumps@),
            !remove_old ==> stack_fits(old(self)@.code, start as int, old(self).open_loops@),
        ensures
            final(self).wf(),
            final(self)@ == old(self)@,
            final(self).text() == old(self).text(),
    {
        if remove_old {
            self.jumps.clear();
            self.open_loops.clear();
        }
        let len = self.code.as_str().as_bytes().len();
        if len > self.jumps.len() {
            let mut more = vacant(len - self.jumps.len());
            self.jumps.append(&mut more);
        }
        let ghost code = self@.code;
        let mut index = start;
        while index < len
            invariant
                self.cells == old(self).cells,
                self.ptr == old(self).ptr,
                self.code == old(self).code,
                self.code_ptr == old(self).code_ptr,
                code == self@.code,
                accepts(code),
                len == code.len(),
                start <= index <= len,
                self.jumps@.len() == len,
                table_fits(code, index as int, self.jumps@),
                stack_fits(code, index as int, self.open_loops@),
            decreases len - index,
        {
            let op = self.code.as_str().as_bytes()[index];
            let ghost table = self.jumps@;
            let ghost stack = self.open_loops@;
            assert(depth(code, index + 1) >= 0);
            if op == LOOP_OPEN {
                self.open_loops.push(index);
            } else if op == LOOP_CLOSE {
                // The program is accepted, so a loop is open here.
                assert(stack.len() > 0);
                if let Some(other) = self.open_loops.pop() {
                    self.jumps.set(other, Some(index));
                    self.jumps.set(index, Some(other));
                    assert(open_at(code, index as int, other as int, stack.len() - 1));
                    assert(is_pair(code, other as int, index as int));
                }
            }
            proof {
                assert forall|at: int| 0 <= at < len implies entry_fits(
                    code,
                    index + 1,
                    at,
                    #[trigger] self.jumps@[at],
                ) by {
                    if op != LOOP_CLOSE || (at != index && at != stack.last()) {
                        assert(entry_fits(code, index as int, at, table[at]));
                        if is_pair(code, at, index as int) {
                            lemma_open_unique(code, at, stack.last() as int, index as int);
                        }
                    }
                }
                assert forall|level: int| 0 <= level < self.open_loops@.len() implies open_at(
                    code,
                    index + 1,
                    #[trigger] self.open_loops@[level] as int,
                    level,
                ) by {
                    if level < stack.len() {
                        assert(open_at(code, index as int, stack[level] as int, level));
                    }
                }
            }
            index += 1;
        }
    }

    /// Clears the tape and puts both pointers back at the start. The
    /// program stays.
    pub fn reset_execution(&mut self)
        requires
            old(self).wf(),
        ensures
            final(self).wf(),
            final(self).text() == old(self).text(),
            final(self)@ == old(self)@.rewound(),
    {
        let mut i: usize = 0;
        while i < TAPE_LEN
            invariant
                i <= TAPE_LEN,
                self.cells@.len() == TAPE_LEN,
                forall|k: int| 0 <= k < i ==> self.cells@[k] == 0u8,
                self.code == old(self).code,
                self.jumps == old(self).jumps,
                self.open_loops == old(self).open_loops,
            decreases TAPE_LEN - i,
        {
            self.cells.set(i, 0);
            i += 1;
        }
        self.ptr = 0;
        self.code_ptr = 0;
        assert(self.cells@ =~= blank_tape());
    }
}

} // verus!
