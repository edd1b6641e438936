//! A verified arithmetization of the eight-instruction Brainfuck dialect:
//! an execution-trace builder and the PLONK-style tables and polynomial
//! gates (Processor, Memory, Instruction, Range) whose joint satisfaction
//! characterizes a correct run, over the prime field of `P` elements.
use vstd::prelude::*;

pub mod code;
pub mod field;
pub mod instruction_table;
pub mod linkage;
pub mod main_config;
pub mod math;
pub mod memory_table;
pub mod processor_table;
pub mod range_table;
pub mod trace;
pub mod utils;

verus! {

/// The field modulus: a prime. Every table cell is a residue in `[0, P)`,
/// and every gate is a polynomial identity modulo `P`.
pub const P: u64 = 65521;

/// Compiled programs are capped at this many cells, so that every
/// instruction pointer value is a reduced field element.
pub const MAX_CODE: u64 = 32768;

/// Traces are capped at this many rows, so that every cycle counter and
/// memory pointer value is a reduced field element and the step gate for
/// the clock cannot wrap.
pub const MAX_TRACE: u64 = 65520;

/// Everything that can go wrong while compiling a program or building an
/// execution trace.
#[derive(Clone, Copy, Debug, PartialEq, Eq, Structural)]
pub enum Error {
    /// A `[` without a partner `]`, or a `]` without a partner `[`.
    UnmatchedBracket,
    /// The compiled program would exceed `MAX_CODE` cells.
    ProgramTooLong,
    /// The execution ran for more than `MAX_TRACE` cycles.
    TraceTooLong,
    /// Execution reached a cell that does not hold an instruction.
    BadInstruction,
    /// The memory pointer would move left of the first cell.
    PointerUnderflow,
    /// A read past the end of the input stream.
    EndOfInput,
}

} // verus!
