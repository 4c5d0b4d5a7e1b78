//! The execution engine: a fixed-size tape of byte cells, a tape pointer
//! and an instruction pointer, driven over an immutable instruction
//! sequence.
//!
//! The mathematical model is the small-step function `spec_step` on a
//! `MachineState`, and its bounded iteration `spec_run`.  The executable
//! `step` and `run` are proved equal to them.

use vstd::prelude::*;

use crate::instructions::Instruction;
use crate::instructions::OutOfRangeError;
use crate::instructions::RunOutcome;
use crate::instructions::StepOutcome;
use crate::instructions::StructuralError;
use crate::loader::load_spec;
use crate::loader::targets_resolved;

verus! {

/// The engine's mutable state: the tape, the tape pointer and the
/// instruction pointer.
pub struct MachineState {
    pub cells: Seq<u8>,
    pub cell_ptr: int,
    pub ip: int,
}

/// A tape of `n` cells, all zero.
pub open spec fn zero_tape(n: nat) -> Seq<u8> {
    Seq::new(n, |i: int| 0u8)
}

/// Cell increment, wrapping as unsigned 8-bit overflow does: 255 becomes 0.
pub open spec fn wrap_inc(b: u8) -> u8 {
    if b == 255 {
        0
    } else {
        (b + 1) as u8
    }
}

/// Cell decrement, wrapping as unsigned 8-bit underflow does: 0 becomes 255.
pub open spec fn wrap_dec(b: u8) -> u8 {
    if b == 0 {
        255
    } else {
        (b - 1) as u8
    }
}

/// Every jump target is an in-range index of the instruction sequence.
pub open spec fn targets_in_range(insts: Seq<Instruction>) -> bool {
    forall|i: int|
        0 <= i < insts.len() ==> match #[trigger] insts[i] {
            Instruction::JumpIfZero(t) => t < insts.len(),
            Instruction::JumpIfNonZero(t) => t < insts.len(),
            _ => true,
        }
}

/// The next step reads one input unit: the machine is not halted and the
/// current instruction is `InputByte`.
pub open spec fn wants_input(insts: Seq<Instruction>, st: MachineState) -> bool {
    &&& 0 <= st.ip < insts.len()
    &&& insts[st.ip] is InputByte
}

/// What one step of the machine does.
pub enum SpecStep {
    /// The instruction pointer is past the last instruction.
    Halt,
    /// The step would need a cell outside `[0, tape_size)`.
    Fault,
    /// The machine moved to `next`; `emitted` is the byte an `OutputByte`
    /// wrote, and `consumed` says whether one input unit was read.
    Go { next: MachineState, emitted: Option<u8>, consumed: bool },
}

/// The small-step semantics.  `input` is the input unit offered to an
/// `InputByte` instruction: `None` means no byte was available, which
/// leaves the cell unchanged; every other instruction ignores it.
pub open spec fn spec_step(insts: Seq<Instruction>, st: MachineState, input: Option<u8>) -> SpecStep {
    if !(0 <= st.ip < insts.len()) {
        SpecStep::Halt
    } else {
        match insts[st.ip] {
            Instruction::MoveRight => if st.cell_ptr + 1 < st.cells.len() {
                SpecStep::Go {
                    next: MachineState { cell_ptr: st.cell_ptr + 1, ip: st.ip + 1, ..st },
                    emitted: None,
                    consumed: false,
                }
            } else {
                SpecStep::Fault
            },
            Instruction::MoveLeft => if st.cell_ptr >= 1 {
                SpecStep::Go {
                    next: MachineState { cell_ptr: st.cell_ptr - 1, ip: st.ip + 1, ..st },
                    emitted: None,
                    consumed: false,
                }
            } else {
                SpecStep::Fault
            },
            Instruction::Increment => if 0 <= st.cell_ptr < st.cells.len() {
                SpecStep::Go {
                    next: MachineState {
                        cells: st.cells.update(st.cell_ptr, wrap_inc(st.cells[st.cell_ptr])),
                        ip: st.ip + 1,
                        ..st
                    },
                    emitted: None,
                    consumed: false,
                }
            } else {
                SpecStep::Fault
            },
            Instruction::Decrement => if 0 <= st.cell_ptr < st.cells.len() {
                SpecStep::Go {
                    next: MachineState {
                        cells: st.cells.update(st.cell_ptr, wrap_dec(st.cells[st.cell_ptr])),
                        ip: st.ip + 1,
                        ..st
                    },
                    emitted: None,
                    consumed: false,
                }
            } else {
                SpecStep::Fault
            },
            Instruction::OutputByte => if 0 <= st.cell_ptr < st.cells.len() {
                SpecStep::Go {
                    next: MachineState { ip: st.ip + 1, ..st },
                    emitted: Some(st.cells[st.cell_ptr]),
                    consumed: false,
                }
            } else {
                SpecStep::Fault
            },
            Instruction::InputByte => if 0 <= st.cell_ptr < st.cells.len() {
                match input {
                    Some(b) => SpecStep::Go {
                        next: MachineState {
                            cells: st.cells.update(st.cell_ptr, b),
                            ip: st.ip + 1,
                            ..st
                        },
                        emitted: None,
                        consumed: true,
                    },
                    None => SpecStep::Go {
                        next: MachineState { ip: st.ip + 1, ..st },
                        emitted: None,
                        consumed: true,
                    },
                }
            } else {
                SpecStep::Fault
            },
            Instruction::JumpIfZero(t) => if 0 <= st.cell_ptr < st.cells.len() {
                SpecStep::Go {
                    next: MachineState {
                        ip: if st.cells[st.cell_ptr] == 0 {
                            t + 1
                        } else {
                            st.ip + 1
                        },
                        ..st
                    },
                    emitted: None,
                    consumed: false,
                }
            } else {
                SpecStep::Fault
            },
            Instruction::JumpIfNonZero(t) => if 0 <= st.cell_ptr < st.cells.len() {
                SpecStep::Go {
                    next: MachineState {
                        ip: if st.cells[st.cell_ptr] != 0 {
                            t + 1
                        } else {
                            st.ip + 1
                        },
                        ..st
                    },
                    emitted: None,
                    consumed: false,
                }
            } else {
                SpecStep::Fault
            },
        }
    }
}

/// How a bounded run of the model ends.
pub enum RunResult {
    /// The step budget ran out in this state.
    Pending(MachineState),
    /// The machine halted in this state after emitting these bytes.
    Halted(MachineState, Seq<u8>),
    /// The machine faulted in this state; the run stops at once.
    Fault(MachineState),
}

/// Prepend already-emitted output to the result of the rest of a run.
pub open spec fn prepend_output(prefix: Seq<u8>, r: RunResult) -> RunResult {
    match r {
        RunResult::Pending(st) => RunResult::Pending(st),
        RunResult::Halted(st, out) => RunResult::Halted(st, prefix + out),
        RunResult::Fault(st) => RunResult::Fault(st),
    }
}

/// Run the model for at most `fuel` steps.  `inputs` holds the outcome of
/// each successive input read, first read first; once it is exhausted,
/// further reads produce no byte.
pub open spec fn spec_run(
    insts: Seq<Instruction>,
    st: MachineState,
    inputs: Seq<Option<u8>>,
    fuel: nat,
) -> RunResult
    decreases fuel,
{
    if fuel == 0 {
        RunResult::Pending(st)
    } else {
        let input = if inputs.len() > 0 {
            inputs[0]
        } else {
            None
        };
        match spec_step(insts, st, input) {
            SpecStep::Halt => RunResult::Halted(st, Seq::empty()),
            SpecStep::Fault => RunResult::Fault(st),
            SpecStep::Go { next, emitted, consumed } => {
                let rest_inputs = if consumed && inputs.len() > 0 {
                    inputs.drop_first()
                } else {
                    inputs
                };
                let here = match emitted {
                    Some(b) => seq![b],
                    None => Seq::empty(),
                };
                prepend_output(here, spec_run(insts, next, rest_inputs, (fuel - 1) as nat))
            },
        }
    }
}

/// An interpreter run: the loaded program, the tape, and the two cursors.
///
/// ## Example
/// ```
/// use brainfuck_interpreter::{BrainfuckInterpreter, RunOutcome};
///
/// let program = "+++.";
/// let cell_array_size = 30_000;
/// let mut bfi = BrainfuckInterpreter::new(program, cell_array_size).unwrap();
/// assert_eq!(bfi.run(&Vec::new(), 100), RunOutcome::Halted(vec![3]));
/// ```
pub struct BrainfuckInterpreter {
    cells: Vec<u8>,
    instructions: Vec<Instruction>,
    cell_ptr: usize,
    instruction_ptr: usize,
}

/// Mutually inverse jump targets are in particular in range.
proof fn lemma_resolved_in_range(insts: Seq<Instruction>)
    requires
        targets_resolved(insts),
    ensures
        targets_in_range(insts),
{
    assert forall|i: int|
        0 <= i < insts.len() implies match #[trigger] insts[i] {
        Instruction::JumpIfZero(t) => t < insts.len(),
        Instruction::JumpIfNonZero(t) => t < insts.len(),
        _ => true,
    } by {
        match insts[i] {
            Instruction::JumpIfZero(_) => {
                assert(crate::loader::fwd_resolved(insts, i));
            },
            Instruction::JumpIfNonZero(_) => {
                assert(crate::loader::bwd_resolved(insts, i));
            },
            _ => {},
        }
    }
}

impl BrainfuckInterpreter {
    /// The loaded instruction sequence; fixed for the run's lifetime.
    pub closed spec fn insts(&self) -> Seq<Instruction> {
        self.instructions@
    }

    /// The machine state: tape and cursors.
    pub closed spec fn state(&self) -> MachineState {
        MachineState {
            cells: self.cells@,
            cell_ptr: self.cell_ptr as int,
            ip: self.instruction_ptr as int,
        }
    }

    /// Well-formedness: jump targets stay on the instruction sequence, and
    /// the tape pointer is on the tape (at 0 if the tape is empty).
    pub open spec fn wf(&self) -> bool {
        &&& targets_in_range(self.insts())
        &&& if self.state().cells.len() == 0 {
            self.state().cell_ptr == 0
        } else {
            0 <= self.state().cell_ptr < self.state().cells.len()
        }
    }

    /// Load `program` and set up a run over `cell_array_size` cells, all
    /// zero, with both cursors at 0.  Fails exactly when the program's
    /// brackets are unbalanced: a malformed program never starts.
    pub fn new(program: &str, cell_array_size: usize) -> (r: Result<Self, StructuralError>)
        ensures
            match r {
                Ok(b) => {
                    &&& b.wf()
                    &&& load_spec(program@) matches Ok(insts) && b.insts() == insts
                    &&& b.state() == (MachineState {
                        cells: zero_tape(cell_array_size as nat),
                        cell_ptr: 0,
                        ip: 0,
                    })
                },
                Err(e) => load_spec(program@) == Err::<Seq<Instruction>, StructuralError>(e),
            },
    {
        let instructions = match Self::parse_program(program) {
            Ok(v) => v,
            Err(e) => {
                return Err(e);
            },
        };
        proof {
            lemma_resolved_in_range(instructions@);
        }
        let mut cells: Vec<u8> = Vec::new();
        proof {
            assert(cells@ =~= zero_tape(0));
        }
        let mut j: usize = 0;
        while j < cell_array_size
            invariant
                j <= cell_array_size,
                cells@ == zero_tape(j as nat),
            decreases cell_array_size - j,
        {
            cells.push(0);
            j = j + 1;
            proof {
                assert(cells@ =~= zero_tape(j as nat));
            }
        }
        Ok(BrainfuckInterpreter { cells, instructions, cell_ptr: 0, instruction_ptr: 0 })
    }

    /// Does the next step read one input unit?
    pub fn awaiting_input(&self) -> (r: bool)
        ensures
            r == wants_input(self.insts(), self.state()),
    {
        if self.instruction_ptr < self.instructions.len() {
            match self.instructions[self.instruction_ptr] {
                Instruction::InputByte => true,
                _ => false,
            }
        } else {
            false
        }
    }

    /// Execute one instruction.  `input` is consulted only when the
    /// current instruction is `InputByte` (see [`Self::awaiting_input`]);
    /// `None` there leaves the cell unchanged.  The step is exactly one
    /// application of `spec_step`; a halted or faulting machine is left
    /// unchanged.
    pub fn step(&mut self, input: Option<u8>) -> (r: StepOutcome)
        requires
            old(self).wf(),
        ensures
            final(self).wf(),
            final(self).insts() == old(self).insts(),
            (match spec_step(old(self).insts(), old(self).state(), input) {
                SpecStep::Halt => r == StepOutcome::Halted && final(self).state() == old(
                    self,
                ).state(),
                SpecStep::Fault => r == StepOutcome::OutOfRange && final(self).state() == old(
                    self,
                ).state(),
                SpecStep::Go { next, emitted, consumed } => final(self).state() == next && r == (
                match emitted {
                    Some(b) => StepOutcome::Output(b),
                    None => StepOutcome::Ran,
                }),
            }),
    {
        if self.instruction_ptr >= self.instructions.len() {
            return StepOutcome::Halted;
        }
        let inst = self.instructions[self.instruction_ptr];
        let tape_len: usize = self.cells.len();
        match inst {
            Instruction::MoveRight => {
                if self.cell_ptr + 1 < tape_len {
                    self.cell_ptr = self.cell_ptr + 1;
                    self.instruction_ptr = self.instruction_ptr + 1;
                    StepOutcome::Ran
                } else {
                    StepOutcome::OutOfRange
                }
            },
            Instruction::MoveLeft => {
                if self.cell_ptr >= 1 {
                    self.cell_ptr = self.cell_ptr - 1;
                    self.instruction_ptr = self.instruction_ptr + 1;
                    StepOutcome::Ran
                } else {
                    StepOutcome::OutOfRange
                }
            },
            Instruction::Increment => {
                if self.cell_ptr < tape_len {
                    self.cells[self.cell_ptr] = self.cells[self.cell_ptr].wrapping_add(1);
                    self.instruction_ptr = self.instruction_ptr + 1;
                    StepOutcome::Ran
                } else {
                    StepOutcome::OutOfRange
                }
            },
            Instruction::Decrement => {
                if self.cell_ptr < tape_len {
                    self.cells[self.cell_ptr] = self.cells[self.cell_ptr].wrapping_sub(1);
                    self.instruction_ptr = self.instruction_ptr + 1;
                    StepOutcome::Ran
                } else {
                    StepOutcome::OutOfRange
                }
            },
            Instruction::OutputByte => {
                if self.cell_ptr < tape_len {
                    let b: u8 = self.cells[self.cell_ptr];
                    self.instruction_ptr = self.instruction_ptr + 1;
                    StepOutcome::Output(b)
                } else {
                    StepOutcome::OutOfRange
                }
            },
            Instruction::InputByte => {
                if self.cell_ptr < tape_len {
                    match input {
                        Some(b) => {
                            self.cells[self.cell_ptr] = b;
                        },
                        None => {},
                    }
                    self.instruction_ptr = self.instruction_ptr + 1;
                    StepOutcome::Ran
                } else {
                    StepOutcome::OutOfRange
                }
            },
            Instruction::JumpIfZero(t) => {
                if self.cell_ptr < tape_len {
                    if self.cells[self.cell_ptr] == 0 {
                        self.instruction_ptr = t + 1;
                    } else {
                        self.instruction_ptr = self.instruction_ptr + 1;
                    }
                    StepOutcome::Ran
                } else {
                    StepOutcome::OutOfRange
                }
            },
            Instruction::JumpIfNonZero(t) => {
                if self.cell_ptr < tape_len {
                    if self.cells[self.cell_ptr] != 0 {
                        self.instruction_ptr = t + 1;
                    } else {
                        self.instruction_ptr = self.instruction_ptr + 1;
                    }
                    StepOutcome::Ran
                } else {
                    StepOutcome::OutOfRange
                }
            },
        }
    }

    /// Run for at most `max_steps` instructions.  `inputs` holds one entry
    /// per input read, first read first (`None`: no byte was available);
    /// reads past its end produce no byte either.  The outcome, the final
    /// machine state and the collected output are exactly those of
    /// `spec_run` with `max_steps` of fuel.
    pub fn run(&mut self, inputs: &Vec<Option<u8>>, max_steps: u64) -> (r: RunOutcome)
        requires
            old(self).wf(),
        ensures
            final(self).wf(),
            final(self).insts() == old(self).insts(),
            (match r {
                RunOutcome::Halted(outs) => spec_run(
                    old(self).insts(),
                    old(self).state(),
                    inputs@,
                    max_steps as nat,
                ) == RunResult::Halted(final(self).state(), outs@),
                RunOutcome::Failed(_) => spec_run(
                    old(self).insts(),
                    old(self).state(),
                    inputs@,
                    max_steps as nat,
                ) == RunResult::Fault(final(self).state()),
                RunOutcome::Exhausted => spec_run(
                    old(self).insts(),
                    old(self).state(),
                    inputs@,
                    max_steps as nat,
                ) == RunResult::Pending(final(self).state()),
            }),
    {
        let ghost insts0 = self.insts();
        let ghost st0 = self.state();
        let ghost in0 = inputs@;
        let mut outs: Vec<u8> = Vec::new();
        let mut next_input: usize = 0;
        let mut fuel: u64 = max_steps;
        proof {
            lemma_prepend_empty(spec_run(insts0, st0, in0, max_steps as nat));
            assert(in0.skip(0) =~= in0);
        }
        while fuel > 0
            invariant
                self.wf(),
                insts0 == old(self).insts(),
                st0 == old(self).state(),
                self.insts() == insts0,
                next_input <= in0.len(),
                in0 == inputs@,
                fuel <= max_steps,
                spec_run(insts0, st0, in0, max_steps as nat) == prepend_output(
                    outs@,
                    spec_run(insts0, self.state(), in0.skip(next_input as int), fuel as nat),
                ),
            decreases fuel,
        {
            let input = if next_input < inputs.len() {
                inputs[next_input]
            } else {
                None
            };
            let reads = self.awaiting_input();
            let ghost pre = self.state();
            let ghost rem = in0.skip(next_input as int);
            let outcome = self.step(input);
            proof {
                assert(rem.len() > 0 ==> rem[0] == in0[next_input as int]);
            }
            match outcome {
                StepOutcome::Halted => {
                    proof {
                        assert(spec_run(insts0, pre, rem, fuel as nat) == RunResult::Halted(
                            pre,
                            Seq::<u8>::empty(),
                        ));
                        assert(outs@ + Seq::<u8>::empty() =~= outs@);
                    }
                    return RunOutcome::Halted(outs);
                },
                StepOutcome::OutOfRange => {
                    proof {
                        assert(spec_run(insts0, pre, rem, fuel as nat) == RunResult::Fault(pre));
                    }
                    return RunOutcome::Failed(OutOfRangeError);
                },
                StepOutcome::Ran => {
                    let ghost old_k: int = next_input as int;
                    if reads && next_input < inputs.len() {
                        next_input = next_input + 1;
                    }
                    proof {
                        if reads && old_k < in0.len() {
                            assert(rem.drop_first() =~= in0.skip(old_k + 1));
                        }
                        let tail = spec_run(
                            insts0,
                            self.state(),
                            in0.skip(next_input as int),
                            (fuel - 1) as nat,
                        );
                        lemma_prepend_prepend(outs@, Seq::<u8>::empty(), tail);
                        assert(outs@ + Seq::<u8>::empty() =~= outs@);
                    }
                },
                StepOutcome::Output(b) => {
                    let ghost outs_before = outs@;
                    outs.push(b);
                    proof {
                        let tail = spec_run(
                            insts0,
                            self.state(),
                            in0.skip(next_input as int),
                            (fuel - 1) as nat,
                        );
                        lemma_prepend_prepend(outs_before, seq![b], tail);
                        assert(outs_before + seq![b] =~= outs@);
                    }
                },
            }
            fuel = fuel - 1;
        }
        RunOutcome::Exhausted
    }
}

/// Prepending nothing changes no run result.
proof fn lemma_prepend_empty(r: RunResult)
    ensures
        prepend_output(Seq::<u8>::empty(), r) == r,
{
    match r {
        RunResult::Halted(st, out) => {
            assert(Seq::<u8>::empty() + out =~= out);
        },
        _ => {},
    }
}

/// Prepending twice is prepending the concatenation.
proof fn lemma_prepend_prepend(a: Seq<u8>, b: Seq<u8>, r: RunResult)
    ensures
        prepend_output(a, prepend_output(b, r)) == prepend_output(a + b, r),
{
    match r {
        RunResult::Halted(st, out) => {
            assert(a + (b + out) =~= (a + b) + out);
        },
        _ => {},
    }
}

} // verus!
