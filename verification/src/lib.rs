//! A verified interpreter for a minimal tape-based esoteric language.
//!
//! The loader turns a source string into an instruction sequence with
//! resolved jump targets, rejecting programs with unbalanced brackets.
//! The engine interprets that sequence against a fixed-size tape of
//! byte cells, one instruction per step.

pub mod engine;
pub mod instructions;
pub mod loader;

pub use engine::BrainfuckInterpreter;
pub use engine::MachineState;
pub use instructions::Instruction;
pub use instructions::OutOfRangeError;
pub use instructions::RunOutcome;
pub use instructions::StepOutcome;
pub use instructions::StructuralError;
