use brainfuck_interpreter::BrainfuckInterpreter;
use brainfuck_interpreter::Instruction;
use brainfuck_interpreter::StructuralError;

#[test]
fn loads_each_command() {
    let v = BrainfuckInterpreter::parse_program("><+-.,").unwrap();
    assert_eq!(
        v,
        vec![
            Instruction::MoveRight,
            Instruction::MoveLeft,
            Instruction::Increment,
            Instruction::Decrement,
            Instruction::OutputByte,
            Instruction::InputByte,
        ]
    );
}

#[test]
fn resolves_loop_targets() {
    let v = BrainfuckInterpreter::parse_program("+[-]").unwrap();
    assert_eq!(
        v,
        vec![
            Instruction::Increment,
            Instruction::JumpIfZero(3),
            Instruction::Decrement,
            Instruction::JumpIfNonZero(1),
        ]
    );
}

#[test]
fn resolves_nested_loop_targets() {
    let v = BrainfuckInterpreter::parse_program("[[]]").unwrap();
    assert_eq!(
        v,
        vec![
            Instruction::JumpIfZero(3),
            Instruction::JumpIfZero(2),
            Instruction::JumpIfNonZero(1),
            Instruction::JumpIfNonZero(0),
        ]
    );
}

#[test]
fn targets_are_mutual_inverses() {
    let v = BrainfuckInterpreter::parse_program("+[>[-]<]").unwrap();
    for (i, inst) in v.iter().enumerate() {
        match *inst {
            Instruction::JumpIfZero(t) => assert_eq!(v[t], Instruction::JumpIfNonZero(i)),
            Instruction::JumpIfNonZero(t) => assert_eq!(v[t], Instruction::JumpIfZero(i)),
            _ => {}
        }
    }
}

#[test]
fn comment_only_source_loads_empty() {
    let v = BrainfuckInterpreter::parse_program("this is a comment with spaces and words").unwrap();
    assert_eq!(v, vec![]);
}

#[test]
fn comments_between_commands_are_skipped() {
    let v = BrainfuckInterpreter::parse_program("a + b").unwrap();
    assert_eq!(v, vec![Instruction::Increment]);
}

#[test]
fn comments_do_not_touch_bracket_matching() {
    let v = BrainfuckInterpreter::parse_program("x[y]z").unwrap();
    assert_eq!(
        v,
        vec![Instruction::JumpIfZero(1), Instruction::JumpIfNonZero(0)]
    );
}

#[test]
fn unmatched_opening_bracket_fails() {
    assert_eq!(
        BrainfuckInterpreter::parse_program("["),
        Err(StructuralError::UnmatchedOpeningBracket)
    );
    assert_eq!(
        BrainfuckInterpreter::parse_program("[[]"),
        Err(StructuralError::UnmatchedOpeningBracket)
    );
    assert_eq!(
        BrainfuckInterpreter::parse_program("+[->"),
        Err(StructuralError::UnmatchedOpeningBracket)
    );
}

#[test]
fn unmatched_closing_bracket_fails() {
    assert_eq!(
        BrainfuckInterpreter::parse_program("]"),
        Err(StructuralError::UnmatchedClosingBracket)
    );
    assert_eq!(
        BrainfuckInterpreter::parse_program("[]]"),
        Err(StructuralError::UnmatchedClosingBracket)
    );
    assert_eq!(
        BrainfuckInterpreter::parse_program("]["),
        Err(StructuralError::UnmatchedClosingBracket)
    );
}

#[test]
fn empty_source_loads_empty() {
    assert_eq!(BrainfuckInterpreter::parse_program(""), Ok(vec![]));
}
