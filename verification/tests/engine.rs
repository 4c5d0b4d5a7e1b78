use brainfuck_interpreter::BrainfuckInterpreter;
use brainfuck_interpreter::OutOfRangeError;
use brainfuck_interpreter::RunOutcome;
use brainfuck_interpreter::StepOutcome;
use brainfuck_interpreter::StructuralError;

fn run_program(program: &str, tape: usize, inputs: Vec<Option<u8>>, max_steps: u64) -> RunOutcome {
    let mut bfi = BrainfuckInterpreter::new(program, tape).unwrap();
    bfi.run(&inputs, max_steps)
}

#[test]
fn outputs_the_byte_three() {
    assert_eq!(
        run_program("+++.", 1, Vec::new(), 100),
        RunOutcome::Halted(vec![3])
    );
}

#[test]
fn decrement_wraps_zero_to_255() {
    assert_eq!(
        run_program("-.", 1, Vec::new(), 100),
        RunOutcome::Halted(vec![255])
    );
}

#[test]
fn increment_wraps_255_to_zero() {
    let mut program = "+".repeat(256);
    program.push('.');
    assert_eq!(
        run_program(&program, 1, Vec::new(), 1000),
        RunOutcome::Halted(vec![0])
    );
}

#[test]
fn loop_decrements_back_to_zero_and_halts() {
    assert_eq!(
        run_program("+[-]", 1, Vec::new(), 100),
        RunOutcome::Halted(vec![])
    );
}

#[test]
fn zero_cell_skips_loop_body() {
    // two steps suffice: the forward jump, then the halt check; the loop
    // body is never entered
    assert_eq!(
        run_program("[-]", 1, Vec::new(), 2),
        RunOutcome::Halted(vec![])
    );
}

#[test]
fn moving_left_of_the_tape_fails() {
    assert_eq!(
        run_program("<", 1, Vec::new(), 100),
        RunOutcome::Failed(OutOfRangeError)
    );
}

#[test]
fn moving_right_off_the_tape_fails() {
    assert_eq!(
        run_program(">", 1, Vec::new(), 100),
        RunOutcome::Failed(OutOfRangeError)
    );
}

#[test]
fn empty_tape_faults_on_first_cell_use() {
    assert_eq!(
        run_program("+", 0, Vec::new(), 100),
        RunOutcome::Failed(OutOfRangeError)
    );
}

#[test]
fn reads_one_input_byte() {
    assert_eq!(
        run_program(",.", 1, vec![Some(65)], 100),
        RunOutcome::Halted(vec![65])
    );
}

#[test]
fn missing_input_leaves_cell_unchanged() {
    assert_eq!(
        run_program("+,.", 1, vec![None], 100),
        RunOutcome::Halted(vec![1])
    );
}

#[test]
fn exhausted_input_leaves_cell_unchanged() {
    assert_eq!(
        run_program(",.", 1, Vec::new(), 100),
        RunOutcome::Halted(vec![0])
    );
}

#[test]
fn reads_inputs_in_order() {
    assert_eq!(
        run_program(",>,<.>.", 2, vec![Some(1), Some(2)], 100),
        RunOutcome::Halted(vec![1, 2])
    );
}

#[test]
fn step_budget_runs_out_on_an_endless_loop() {
    assert_eq!(run_program("+[]", 1, Vec::new(), 50), RunOutcome::Exhausted);
}

#[test]
fn comment_only_program_halts_at_once() {
    assert_eq!(
        run_program("just words", 1, Vec::new(), 10),
        RunOutcome::Halted(vec![])
    );
}

#[test]
fn new_rejects_malformed_programs() {
    assert!(matches!(
        BrainfuckInterpreter::new("[", 10),
        Err(StructuralError::UnmatchedOpeningBracket)
    ));
    assert!(matches!(
        BrainfuckInterpreter::new("]", 10),
        Err(StructuralError::UnmatchedClosingBracket)
    ));
}

#[test]
fn stepping_through_input_and_output() {
    let mut bfi = BrainfuckInterpreter::new(",.", 1).unwrap();
    assert!(bfi.awaiting_input());
    assert_eq!(bfi.step(Some(7)), StepOutcome::Ran);
    assert!(!bfi.awaiting_input());
    assert_eq!(bfi.step(None), StepOutcome::Output(7));
    assert_eq!(bfi.step(None), StepOutcome::Halted);
    assert_eq!(bfi.step(None), StepOutcome::Halted);
}

#[test]
fn hello_world_end_to_end() {
    let program = "++++++++[>++++[>++>+++>+++>+<<<<-]>+>+>->>+[<]<-]>>.>---.+++++++..+++.>>.<-.<.+++.------.--------.>>+.>++.";
    assert_eq!(
        run_program(program, 30_000, Vec::new(), 1_000_000),
        RunOutcome::Halted(b"Hello World!\n".to_vec())
    );
}
