use advent_puzzles::cpu::{Computer, Instruction, OpCode};

fn lines(text: &[&str]) -> Vec<String> {
    text.iter().map(|s| s.to_string()).collect()
}

fn sample() -> Computer {
    Computer::from_lines(&lines(&[
        "nop +0", "acc +1", "jmp +4", "acc +3", "jmp -3", "acc -99", "acc +1", "jmp -4", "acc +6",
    ]))
}

#[test]
fn parses_operations() {
    assert_eq!(OpCode::parse("acc"), Some(OpCode::Acc));
    assert_eq!(OpCode::parse("jmp"), Some(OpCode::Jmp));
    assert_eq!(OpCode::parse("nop"), Some(OpCode::Nop));
    assert_eq!(OpCode::parse("add"), None);
    assert_eq!(OpCode::parse(""), None);
}

#[test]
fn parses_instructions() {
    assert_eq!(
        Instruction::parse("acc +7"),
        Some(Instruction { op_code: OpCode::Acc, operand: 7 })
    );
    assert_eq!(
        Instruction::parse("jmp -12"),
        Some(Instruction { op_code: OpCode::Jmp, operand: -12 })
    );
    assert_eq!(
        Instruction::parse("nop 0"),
        Some(Instruction { op_code: OpCode::Nop, operand: 0 })
    );
    assert_eq!(
        Instruction::parse("jmp -2147483648"),
        Some(Instruction { op_code: OpCode::Jmp, operand: i32::MIN })
    );
    assert_eq!(Instruction::parse("jmp 2147483648"), None);
    assert_eq!(Instruction::parse("jmp"), None);
    assert_eq!(Instruction::parse("jmp  1"), None);
    assert_eq!(Instruction::parse("hop 1"), None);
    assert_eq!(Instruction::parse("acc +-1"), None);
}

#[test]
fn lines_that_are_no_instructions_are_passed_over() {
    let c = Computer::from_lines(&lines(&["nop +0", "", "what", "acc +1"]));
    assert_eq!(c.get_instruction_count(), 2);
    assert_eq!(c.get_op_code(1), OpCode::Acc);
}

#[test]
fn steps_through_the_program() {
    let mut c = sample();
    assert_eq!(c.get_instruction_count(), 9);
    assert!(c.in_bounds());
    assert!(c.can_step());
    c.step();
    assert_eq!(c.get_instruction_index(), 1);
    assert_eq!(c.get_accumulator(), 0);
    c.step();
    assert_eq!(c.get_instruction_index(), 2);
    assert_eq!(c.get_accumulator(), 1);
    c.step();
    assert_eq!(c.get_instruction_index(), 6);
    assert_eq!(c.get_accumulator(), 1);
}

#[test]
fn run_stops_before_an_instruction_runs_twice() {
    let mut c = sample();
    assert!(c.try_run());
    assert!(c.in_bounds());
    assert_eq!(c.get_instruction_index(), 1);
    assert_eq!(c.get_accumulator(), 5);
}

#[test]
fn run_stops_when_the_program_is_left() {
    let mut c = sample();
    assert_eq!(c.get_op_code(7), OpCode::Jmp);
    c.set_op_code(7, OpCode::Nop);
    assert_eq!(c.get_op_code(7), OpCode::Nop);
    c.reset();
    c.run();
    assert!(!c.in_bounds());
    assert_eq!(c.get_instruction_index(), c.get_instruction_count());
    assert_eq!(c.get_accumulator(), 8);
    c.reset();
    assert_eq!(c.get_instruction_index(), 0);
    assert_eq!(c.get_accumulator(), 0);
}

#[test]
fn a_jump_before_the_program_leaves_it() {
    let mut c = Computer::with_program(vec![Instruction { op_code: OpCode::Jmp, operand: -1 }]);
    c.run();
    assert!(!c.in_bounds());
    assert_eq!(c.get_instruction_index(), usize::MAX);
    // Outside the program a step does nothing.
    c.step();
    assert_eq!(c.get_instruction_index(), usize::MAX);
}

#[test]
fn a_step_out_of_range_is_not_taken() {
    let mut c = Computer::with_program(vec![
        Instruction { op_code: OpCode::Acc, operand: i32::MAX },
        Instruction { op_code: OpCode::Acc, operand: 1 },
    ]);
    assert!(!c.try_run());
    assert_eq!(c.get_instruction_index(), 1);
    assert_eq!(c.get_accumulator(), i32::MAX);
    assert!(!c.can_step());
}

#[test]
fn finds_the_instruction_to_change() {
    let mut c = sample();
    assert_eq!(c.find_repairs(), Some(vec![(7, 8)]));
    // The program is left as it was.
    assert_eq!(c.get_op_code(7), OpCode::Jmp);
    assert_eq!(c.get_op_code(0), OpCode::Nop);
    let mut none = Computer::with_program(vec![Instruction { op_code: OpCode::Jmp, operand: 0 }]);
    assert_eq!(none.find_repairs(), Some(vec![(0, 0)]));
    let mut two = Computer::with_program(vec![
        Instruction { op_code: OpCode::Nop, operand: 2 },
        Instruction { op_code: OpCode::Acc, operand: 5 },
        Instruction { op_code: OpCode::Jmp, operand: -2 },
    ]);
    assert_eq!(two.find_repairs(), Some(vec![(2, 5)]));
    let mut far = Computer::with_program(vec![
        Instruction { op_code: OpCode::Acc, operand: i32::MAX },
        Instruction { op_code: OpCode::Nop, operand: 1 },
        Instruction { op_code: OpCode::Acc, operand: 1 },
    ]);
    assert_eq!(far.find_repairs(), None);
    assert_eq!(far.get_op_code(1), OpCode::Nop);
}

#[test]
fn a_run_is_no_longer_than_the_program() {
    // Each step of a run takes an instruction that has not run before.
    for program in [
        vec!["nop +0", "acc +1", "jmp -2"],
        vec!["jmp +2", "jmp +2", "jmp -1", "acc +5"],
        vec!["jmp +0"],
        vec![],
    ] {
        let mut computer = Computer::from_lines(&lines(&program));
        let mut steps = 0;
        let mut seen = vec![false; program.len()];
        while computer.in_bounds() && !seen[computer.get_instruction_index()] {
            seen[computer.get_instruction_index()] = true;
            assert!(computer.can_step());
            computer.step();
            steps += 1;
        }
        assert!(steps <= program.len());
        let mut again = Computer::from_lines(&lines(&program));
        assert!(again.try_run());
        assert_eq!(again.get_instruction_index(), computer.get_instruction_index());
        assert_eq!(again.get_accumulator(), computer.get_accumulator());
    }
}
