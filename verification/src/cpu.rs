//! A small machine with an accumulator and three kinds of instruction.

use vstd::prelude::*;
use crate::counting::{
    count_set, lemma_count_set_bound, lemma_count_set_grows, lemma_count_set_none,
};
use crate::text::{
    chars_of, find_char, first_match, parse_i32, same_text, signed_within, slice_of,
};

verus! {

/// What an instruction does.
#[derive(Copy, Clone, Debug, PartialEq, Eq, Structural)]
pub enum OpCode {
    Acc,
    Jmp,
    Nop,
}

/// The operation that the word `s` names.
pub open spec fn op_code_of(s: Seq<char>) -> Option<OpCode> {
    if s == seq!['a', 'c', 'c'] {
        Some(OpCode::Acc)
    } else if s == seq!['j', 'm', 'p'] {
        Some(OpCode::Jmp)
    } else if s == seq!['n', 'o', 'p'] {
        Some(OpCode::Nop)
    } else {
        None
    }
}

/// The operation that the characters name.
fn op_code_in(s: &Vec<char>) -> (r: Option<OpCode>)
    ensures
        r == op_code_of(s@),
{
    proof {
        reveal_strlit("acc");
        reveal_strlit("jmp");
        reveal_strlit("nop");
        assert("acc"@ =~= seq!['a', 'c', 'c']);
        assert("jmp"@ =~= seq!['j', 'm', 'p']);
        assert("nop"@ =~= seq!['n', 'o', 'p']);
    }
    if same_text(s, "acc") {
        Some(OpCode::Acc)
    } else if same_text(s, "jmp") {
        Some(OpCode::Jmp)
    } else if same_text(s, "nop") {
        Some(OpCode::Nop)
    } else {
        None
    }
}

impl OpCode {
    /// Reads the name of an operation: `acc`, `jmp` or `nop`.
    pub fn parse(s: &str) -> (r: Option<OpCode>)
        ensures
            r == op_code_of(s@),
    {
        let chars = chars_of(s);
        op_code_in(&chars)
    }
}

/// An operation with its operand.
#[derive(Copy, Clone, Debug, PartialEq, Eq, Structural)]
pub struct Instruction {
    pub op_code: OpCode,
    pub operand: i32,
}

/// The instruction that the line `s` denotes: the name of an operation, one
/// blank, and a signed number that fits in an `i32`.
pub open spec fn instruction_of(s: Seq<char>) -> Option<Instruction> {
    match first_match(s, seq![' ']) {
        Some(i) => match (
            op_code_of(s.take(i)),
            signed_within(s.skip(i + 1), i32::MIN as int, i32::MAX as int),
        ) {
            (Some(op_code), Some(n)) => Some(Instruction { op_code, operand: n as i32 }),
            _ => None,
        },
        None => None,
    }
}

impl Instruction {
    /// Reads one line of a program.
    pub fn parse(line: &str) -> (r: Option<Instruction>)
        ensures
            r == instruction_of(line@),
    {
        let chars = chars_of(line);
        let i = match find_char(&chars, ' ') {
            Some(i) => i,
            None => {
                return None;
            },
        };
        proof {
            crate::text::lemma_first_match(chars@, seq![' '], 0);
        }
        let head = slice_of(&chars, 0, i);
        let tail = slice_of(&chars, i + 1, chars.len());
        proof {
            assert(head@ =~= chars@.take(i as int));
            assert(tail@ =~= chars@.skip(i + 1));
        }
        let op_code = match op_code_in(&head) {
            Some(op_code) => op_code,
            None => {
                return None;
            },
        };
        match parse_i32(&tail) {
            Some(operand) => Some(Instruction { op_code, operand }),
            None => None,
        }
    }
}

/// The state of the machine as mathematical integers.
pub struct Machine {
    pub index: int,
    pub accumulator: int,
}

/// `index` is the place of an instruction of `program`.
pub open spec fn inside(program: Seq<Instruction>, index: int) -> bool {
    0 <= index < program.len()
}

/// The state after the instruction at the index of `m` has run. Outside the
/// program nothing runs.
pub open spec fn next(program: Seq<Instruction>, m: Machine) -> Machine {
    if !inside(program, m.index) {
        m
    } else {
        let i = program[m.index];
        match i.op_code {
            OpCode::Acc => Machine { index: m.index + 1, accumulator: m.accumulator + i.operand },
            OpCode::Jmp => Machine { index: m.index + i.operand, accumulator: m.accumulator },
            OpCode::Nop => Machine { index: m.index + 1, accumulator: m.accumulator },
        }
    }
}

/// The state after `k` steps from `m`.
pub open spec fn after(program: Seq<Instruction>, m: Machine, k: nat) -> Machine
    decreases k,
{
    if k == 0 {
        m
    } else {
        next(program, after(program, m, (k - 1) as nat))
    }
}

/// Both numbers of the state fit in an `i32`.
pub open spec fn fits(m: Machine) -> bool {
    &&& i32::MIN <= m.index <= i32::MAX
    &&& i32::MIN <= m.accumulator <= i32::MAX
}

/// One of the first `k` steps from `m` ran the instruction at `index`.
pub open spec fn visited_by(program: Seq<Instruction>, m: Machine, k: nat, index: int) -> bool {
    exists|j: nat| j < k && (#[trigger] after(program, m, j)).index == index
}

/// After `k` steps from `m` the run is over: the machine is outside the
/// program, or at an instruction that has run before.
pub open spec fn stops_at(program: Seq<Instruction>, m: Machine, k: nat) -> bool {
    !inside(program, after(program, m, k).index) || visited_by(
        program,
        m,
        k,
        after(program, m, k).index,
    )
}

/// The run from `m` is over after `k` steps and no earlier.
pub open spec fn run_length(program: Seq<Instruction>, m: Machine, k: nat) -> bool {
    stops_at(program, m, k) && forall|j: nat| j < k ==> !#[trigger] stops_at(program, m, j)
}

/// The run from `m` goes on for at least `k` steps.
pub open spec fn runs_for(program: Seq<Instruction>, m: Machine, k: nat) -> bool {
    forall|j: nat| j < k ==> !#[trigger] stops_at(program, m, j)
}

/// No step of the run from `m` leaves the range of `i32`.
pub open spec fn runs_safely(program: Seq<Instruction>, m: Machine) -> bool {
    forall|k: nat| #[trigger] runs_for(program, m, k) ==> fits(after(program, m, k))
}

/// The machine `m` is where the run from `start` stands after `k` steps,
/// all within the range of the machine's numbers: at its end if `done`, and
/// else before a step that would leave the range.
pub open spec fn ran(
    program: Seq<Instruction>,
    start: Machine,
    m: Machine,
    done: bool,
    k: nat,
) -> bool {
    &&& m == after(program, start, k)
    &&& runs_for(program, start, k)
    &&& forall|j: nat| j <= k ==> fits(#[trigger] after(program, start, j))
    &&& done ==> stops_at(program, start, k)
    &&& !done ==> !stops_at(program, start, k) && !fits(after(program, start, k + 1))
}

/// The index `i` as `usize`, the way a cast takes a negative number.
pub open spec fn wrapped(i: int) -> int {
    if i >= 0 {
        i
    } else {
        usize::MAX + 1 + i
    }
}

/// The machine: a program, the index of the next instruction, and the
/// accumulator.
pub struct Computer {
    instructions: Vec<Instruction>,
    instruction_index: i32,
    accumulator: i32,
}

/// The instructions that the lines `lines` denote, in order; lines that
/// denote none are passed over.
pub open spec fn program_of(lines: Seq<Seq<char>>) -> Seq<Instruction>
    decreases lines.len(),
{
    if lines.len() == 0 {
        Seq::empty()
    } else {
        match instruction_of(lines.last()) {
            Some(i) => program_of(lines.drop_last()).push(i),
            None => program_of(lines.drop_last()),
        }
    }
}

impl Computer {
    /// The program.
    pub closed spec fn program(&self) -> Seq<Instruction> {
        self.instructions@
    }

    /// The index of the next instruction and the accumulator.
    pub closed spec fn machine(&self) -> Machine {
        Machine { index: self.instruction_index as int, accumulator: self.accumulator as int }
    }

    /// The state of a machine fits in the range of its numbers, so outside
    /// the program a step can always be taken: it changes nothing.
    pub proof fn law_machine_fits(&self)
        ensures
            fits(self.machine()),
            !inside(self.program(), self.machine().index) ==> fits(
                next(self.program(), self.machine()),
            ),
    {
    }

    /// A machine at the start of the program that the lines denote.
    pub fn from_lines(lines: &Vec<String>) -> (c: Computer)
        ensures
            c.program() == program_of(crate::text::line_texts(lines@)),
            c.machine() == (Machine { index: 0, accumulator: 0 }),
    {
        let ghost all = crate::text::line_texts(lines@);
        let mut instructions: Vec<Instruction> = Vec::new();
        let mut i: usize = 0;
        proof {
            assert(all.take(0) =~= Seq::<Seq<char>>::empty());
        }
        while i < lines.len()
            invariant
                all == crate::text::line_texts(lines@),
                i <= lines@.len(),
                instructions@ == program_of(all.take(i as int)),
            decreases lines@.len() - i,
        {
            proof {
                assert(all.take(i + 1).drop_last() =~= all.take(i as int));
                assert(all.take(i + 1).last() == lines@[i as int]@);
            }
            if let Some(instruction) = Instruction::parse(lines[i].as_str()) {
                instructions.push(instruction);
            }
            i += 1;
        }
        proof {
            assert(all.take(lines@.len() as int) =~= all);
        }
        Computer { instructions, instruction_index: 0, accumulator: 0 }
    }

    /// A machine at the start of `program`.
    pub fn with_program(program: Vec<Instruction>) -> (c: Computer)
        ensures
            c.program() == program@,
            c.machine() == (Machine { index: 0, accumulator: 0 }),
    {
        Computer { instructions: program, instruction_index: 0, accumulator: 0 }
    }

    /// The number of instructions of the program.
    pub fn get_instruction_count(&self) -> (n: usize)
        ensures
            n == self.program().len(),
    {
        self.instructions.len()
    }

    /// The index of the next instruction. A negative index comes out as a
    /// cast to `usize` gives it: counted down from above `usize::MAX`.
    pub fn get_instruction_index(&self) -> (i: usize)
        ensures
            i == wrapped(self.machine().index),
    {
        let index = self.instruction_index;
        if index >= 0 {
            index as usize
        } else {
            usize::MAX - ((-(index as i64) - 1) as usize)
        }
    }

    /// What has been accumulated.
    pub fn get_accumulator(&self) -> (a: i32)
        ensures
            a == self.machine().accumulator,
    {
        self.accumulator
    }

    /// Whether the next instruction is one of the program.
    pub fn in_bounds(&self) -> (b: bool)
        ensures
            b == inside(self.program(), self.machine().index),
    {
        let index = self.instruction_index;
        index >= 0 && (index as usize) < self.instructions.len()
    }

    /// Whether the next step stays in the range of the machine's numbers.
    pub fn can_step(&self) -> (b: bool)
        ensures
            b == fits(next(self.program(), self.machine())),
    {
        if !self.in_bounds() {
            return true;
        }
        let index = self.instruction_index;
        let instruction = self.instructions[index as usize];
        match instruction.op_code {
            OpCode::Acc => {
                let sum = self.accumulator as i64 + instruction.operand as i64;
                index < i32::MAX && -0x8000_0000 <= sum && sum <= 0x7fff_ffff
            },
            OpCode::Jmp => {
                let to = index as i64 + instruction.operand as i64;
                -0x8000_0000 <= to && to <= 0x7fff_ffff
            },
            OpCode::Nop => index < i32::MAX,
        }
    }

    /// Runs the next instruction, if there is one.
    pub fn step(&mut self)
        requires
            fits(next(old(self).program(), old(self).machine())),
        ensures
            final(self).program() == old(self).program(),
            final(self).machine() == next(old(self).program(), old(self).machine()),
    {
        if self.in_bounds() {
            let index = self.instruction_index;
            let instruction = self.instructions[index as usize];
            match instruction.op_code {
                OpCode::Acc => {
                    self.accumulator = self.accumulator + instruction.operand;
                    self.instruction_index = index + 1;
                },
                OpCode::Jmp => {
                    self.instruction_index = index + instruction.operand;
                },
                OpCode::Nop => {
                    self.instruction_index = index + 1;
                },
            }
        }
    }

    /// Runs until the program is left or an instruction comes up for the
    /// second time, or until the next step would leave the range of the
    /// machine's numbers: then the result is `false`, and the machine stands
    /// before that step.
    pub fn try_run(&mut self) -> (done: bool)
        ensures
            final(self).program() == old(self).program(),
            exists|k: nat| #[trigger]
                ran(old(self).program(), old(self).machine(), final(self).machine(), done, k),
    {
        let ghost program = self.program();
        let ghost start = self.machine();
        let ghost mut k: nat = 0;
        let n = self.get_instruction_count();
        let mut visited: Vec<bool> = Vec::new();
        while visited.len() < n
            invariant
                visited@.len() <= n,
                forall|i: int| 0 <= i < visited@.len() ==> !(#[trigger] visited@[i]),
            decreases n - visited@.len(),
        {
            visited.push(false);
        }
        while self.in_bounds() && !visited[self.instruction_index as usize]
            invariant
                program == old(self).program(),
                start == old(self).machine(),
                self.program() == program,
                n == program.len(),
                visited@.len() == n,
                self.machine() == after(program, start, k),
                runs_for(program, start, k),
                forall|j: nat| j <= k ==> fits(#[trigger] after(program, start, j)),
                forall|i: int|
                    0 <= i < n ==> (#[trigger] visited@[i] <==> visited_by(program, start, k, i)),
            decreases n - count_set(visited@),
        {
            let ghost here = self.machine().index;
            proof {
                assert(!visited_by(program, start, k, here));
                assert(!stops_at(program, start, k));
            }
            if !self.can_step() {
                proof {
                    assert(after(program, start, k + 1) == next(program, after(program, start, k)));
                    assert(ran(program, start, self.machine(), false, k));
                }
                return false;
            }
            let ghost before = visited@;
            let index = self.instruction_index as usize;
            visited.set(index, true);
            self.step();
            proof {
                lemma_count_set_grows(before, here);
                lemma_count_set_bound(visited@);
                assert(after(program, start, k + 1) == next(program, after(program, start, k)));
                assert forall|j: nat| j < k + 1 implies !#[trigger] stops_at(program, start, j) by {
                    if j < k {
                        assert(runs_for(program, start, k));
                    }
                }
                assert forall|i: int| 0 <= i < n implies (#[trigger] visited@[i] <==> visited_by(
                    program,
                    start,
                    k + 1,
                    i,
                )) by {
                    if visited_by(program, start, k, i) {
                        let j = choose|j: nat|
                            j < k && (#[trigger] after(program, start, j)).index == i;
                        assert(j < k + 1);
                    }
                    if i == here {
                        assert(after(program, start, k).index == i);
                    }
                    if visited_by(program, start, k + 1, i) {
                        let j = choose|j: nat|
                            j < k + 1 && (#[trigger] after(program, start, j)).index == i;
                        if j < k {
                            assert(visited_by(program, start, k, i));
                        }
                    }
                }
                k = k + 1;
            }
        }
        proof {
            assert(stops_at(program, start, k));
            assert(ran(program, start, self.machine(), true, k));
        }
        true
    }

    /// Runs until the program is left or an instruction comes up for the
    /// second time.
    pub fn run(&mut self)
        requires
            runs_safely(old(self).program(), old(self).machine()),
        ensures
            final(self).program() == old(self).program(),
            exists|k: nat|
                final(self).machine() == #[trigger] after(
                    old(self).program(),
                    old(self).machine(),
                    k,
                ) && run_length(old(self).program(), old(self).machine(), k),
    {
        let ghost program = self.program();
        let ghost start = self.machine();
        let done = self.try_run();
        proof {
            let k = choose|k: nat| #[trigger] ran(program, start, self.machine(), done, k);
            if !done {
                assert forall|j: nat| j < k + 1 implies !#[trigger] stops_at(program, start, j) by {
                    if j < k {
                        assert(runs_for(program, start, k));
                    }
                }
                assert(runs_for(program, start, k + 1));
            }
            assert(run_length(program, start, k));
        }
    }

    /// The operation of the instruction at `index`.
    pub fn get_op_code(&self, index: usize) -> (op: OpCode)
        requires
            index < self.program().len(),
        ensures
            op == self.program()[index as int].op_code,
    {
        self.instructions[index].op_code
    }

    /// Changes the operation of the instruction at `index`.
    pub fn set_op_code(&mut self, index: usize, op_code: OpCode)
        requires
            index < old(self).program().len(),
        ensures
            final(self).machine() == old(self).machine(),
            final(self).program() == old(self).program().update(
                index as int,
                Instruction { op_code, operand: old(self).program()[index as int].operand },
            ),
    {
        let operand = self.instructions[index].operand;
        self.instructions.set(index, Instruction { op_code, operand });
    }

    /// Back to the start of the program, with nothing accumulated.
    pub fn reset(&mut self)
        ensures
            final(self).program() == old(self).program(),
            final(self).machine() == (Machine { index: 0, accumulator: 0 }),
    {
        self.instruction_index = 0;
        self.accumulator = 0;
    }
}

/// The machine at the start of a program.
pub open spec fn at_start() -> Machine {
    Machine { index: 0, accumulator: 0 }
}

/// The operation with jumping and doing nothing changed for each other.
pub open spec fn flipped_op(op: OpCode) -> OpCode {
    match op {
        OpCode::Acc => OpCode::Acc,
        OpCode::Jmp => OpCode::Nop,
        OpCode::Nop => OpCode::Jmp,
    }
}

/// The program with the operation of the instruction at `index` flipped.
pub open spec fn flipped_at(program: Seq<Instruction>, index: int) -> Seq<Instruction> {
    program.update(
        index,
        Instruction { op_code: flipped_op(program[index].op_code), operand: program[index].operand },
    )
}

/// The run of the program from its start is over after `k` steps and no
/// earlier, and it ends right behind the last instruction with `accumulator`
/// accumulated.
pub open spec fn ends_behind(program: Seq<Instruction>, k: nat, accumulator: i32) -> bool {
    &&& run_length(program, at_start(), k)
    &&& wrapped(after(program, at_start(), k).index) == program.len()
    &&& after(program, at_start(), k).accumulator == accumulator
}

/// Flipping the instruction at `index` mends the program: the instruction
/// jumps or does nothing, and the run of the flipped program ends right
/// behind the last instruction, with `accumulator` accumulated.
pub open spec fn mends(program: Seq<Instruction>, index: int, accumulator: i32) -> bool {
    &&& 0 <= index < program.len()
    &&& program[index].op_code != OpCode::Acc
    &&& exists|k: nat| #[trigger] ends_behind(flipped_at(program, index), k, accumulator)
}

/// The run of a program is over after one number of steps only.
pub proof fn lemma_run_length_unique(program: Seq<Instruction>, m: Machine, j: nat, k: nat)
    requires
        run_length(program, m, j),
        run_length(program, m, k),
    ensures
        j == k,
{
    if j < k {
        assert(!stops_at(program, m, j));
    }
    if k < j {
        assert(!stops_at(program, m, k));
    }
}

/// The mendings among the instructions before `upto`: each index at which
/// a flip mends the program, with what is accumulated then, in ascending
/// order.
pub open spec fn mendings(program: Seq<Instruction>, upto: int) -> Seq<(usize, i32)>
    decreases upto,
{
    if upto <= 0 {
        Seq::empty()
    } else {
        let index = upto - 1;
        if exists|accumulator: i32| mends(program, index, accumulator) {
            mendings(program, index).push(
                (index as usize, choose|accumulator: i32| mends(program, index, accumulator)),
            )
        } else {
            mendings(program, index)
        }
    }
}

/// No run of the program with one instruction before `upto` flipped leaves
/// the range of the machine's numbers.
pub open spec fn flips_run_safely(program: Seq<Instruction>, upto: int) -> bool {
    forall|index: int|
        0 <= index < upto && index < program.len() && program[index].op_code != OpCode::Acc
            ==> runs_safely(#[trigger] flipped_at(program, index), at_start())
}

impl Computer {
    /// Tries each instruction that jumps or does nothing with its operation
    /// flipped, and gives the indices at which the flip mends the program,
    /// with what is accumulated then; `None` if one of the runs would leave
    /// the range of the machine's numbers. The program is left as it was.
    pub fn find_repairs(&mut self) -> (r: Option<Vec<(usize, i32)>>)
        ensures
            final(self).program() == old(self).program(),
            match r {
                Some(found) => found@ == mendings(
                    old(self).program(),
                    old(self).program().len() as int,
                ) && flips_run_safely(old(self).program(), old(self).program().len() as int),
                None => !flips_run_safely(old(self).program(), old(self).program().len() as int),
            },
    {
        let ghost program = self.program();
        let mut found: Vec<(usize, i32)> = Vec::new();
        let count = self.get_instruction_count();
        let mut index: usize = 0;
        while index < count
            invariant
                program == old(self).program(),
                self.program() == program,
                count == program.len(),
                index <= count,
                found@ == mendings(program, index as int),
                flips_run_safely(program, index as int),
            decreases count - index,
        {
            let old_op = self.get_op_code(index);
            let new_op = match old_op {
                OpCode::Acc => OpCode::Acc,
                OpCode::Jmp => OpCode::Nop,
                OpCode::Nop => OpCode::Jmp,
            };
            if new_op != old_op {
                let ghost flipped = flipped_at(program, index as int);
                self.set_op_code(index, new_op);
                self.reset();
                let done = self.try_run();
                let ghost k = choose|k: nat| #[trigger]
                    ran(flipped, at_start(), self.machine(), done, k);
                if !done {
                    proof {
                        assert forall|j: nat| j < k + 1 implies !#[trigger] stops_at(
                            flipped,
                            at_start(),
                            j,
                        ) by {
                            if j < k {
                                assert(runs_for(flipped, at_start(), k));
                            }
                        }
                        assert(runs_for(flipped, at_start(), k + 1));
                        assert(!runs_safely(flipped, at_start()));
                    }
                    self.set_op_code(index, old_op);
                    proof {
                        assert(self.program() =~= program);
                        assert(!flips_run_safely(program, count as int));
                    }
                    return None;
                }
                proof {
                    assert(run_length(flipped, at_start(), k));
                    lemma_safe_run(flipped, k);
                }
                let at_end = self.get_instruction_index() == self.get_instruction_count();
                let accumulator = self.get_accumulator();
                proof {
                    if at_end {
                        assert(ends_behind(flipped, k, accumulator));
                        assert(mends(program, index as int, accumulator));
                        assert forall|other: i32| mends(program, index as int, other) implies other
                            == accumulator by {
                            let j = choose|j: nat| #[trigger] ends_behind(flipped, j, other);
                            lemma_run_length_unique(flipped, at_start(), j, k);
                        }
                    } else {
                        assert forall|other: i32| !mends(program, index as int, other) by {
                            if mends(program, index as int, other) {
                                let j = choose|j: nat| #[trigger] ends_behind(flipped, j, other);
                                lemma_run_length_unique(flipped, at_start(), j, k);
                            }
                        }
                    }
                }
                if at_end {
                    found.push((index, accumulator));
                }
                self.set_op_code(index, old_op);
                proof {
                    assert(self.program() =~= program);
                }
            } else {
                proof {
                    assert(forall|other: i32| !mends(program, index as int, other));
                }
            }
            index += 1;
        }
        Some(found)
    }
}

/// For each instruction, whether one of the first `k` steps from `m` ran it.
pub open spec fn marks(program: Seq<Instruction>, m: Machine, k: nat) -> Seq<bool> {
    Seq::new(program.len(), |i: int| visited_by(program, m, k, i))
}

/// A run that goes on for `k` steps has run `k` instructions, each once.
pub proof fn lemma_marks_count(program: Seq<Instruction>, m: Machine, k: nat)
    requires
        runs_for(program, m, k),
    ensures
        count_set(marks(program, m, k)) == k,
    decreases k,
{
    if k == 0 {
        lemma_count_set_none(marks(program, m, k));
    } else {
        let j = (k - 1) as nat;
        assert forall|i: nat| i < j implies !#[trigger] stops_at(program, m, i) by {}
        lemma_marks_count(program, m, j);
        assert(!stops_at(program, m, j));
        let here = after(program, m, j).index;
        let before = marks(program, m, j);
        assert forall|i: int| 0 <= i < program.len() implies #[trigger] marks(program, m, k)[i]
            == before.update(here, true)[i] by {
            if visited_by(program, m, j, i) {
                let s = choose|s: nat| s < j && (#[trigger] after(program, m, s)).index == i;
                assert(s < k);
            }
            if i == here {
                assert(after(program, m, j).index == i);
            }
            if visited_by(program, m, k, i) {
                let s = choose|s: nat| s < k && (#[trigger] after(program, m, s)).index == i;
                if s < j {
                    assert(visited_by(program, m, j, i));
                }
            }
        }
        assert(marks(program, m, k) =~= before.update(here, true));
        lemma_count_set_grows(before, here);
    }
}

/// Each step of a run takes an instruction that has not run before, so a
/// run is over after as many steps as the program has instructions, or
/// earlier.
pub proof fn law_run_within_program(program: Seq<Instruction>, m: Machine, k: nat)
    requires
        runs_for(program, m, k),
    ensures
        k <= program.len(),
{
    lemma_marks_count(program, m, k);
    lemma_count_set_bound(marks(program, m, k));
}

/// A run that stays in the range of the machine's numbers up to its end
/// is safe: after its end nothing is looked at.
pub proof fn lemma_safe_run(program: Seq<Instruction>, k: nat)
    requires
        run_length(program, at_start(), k),
        forall|j: nat| j <= k ==> fits(#[trigger] after(program, at_start(), j)),
    ensures
        runs_safely(program, at_start()),
{
    assert forall|j: nat| #[trigger] runs_for(program, at_start(), j) implies fits(
        after(program, at_start(), j),
    ) by {
        if j > k {
            assert(!stops_at(program, at_start(), k));
        }
    }
}

} // verus!
