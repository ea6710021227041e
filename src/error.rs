use vstd::prelude::*;

use crate::binop::BinOp;

verus! {

/// Why running a program stopped before it fell off the end of its bytes.
#[derive(Debug, Clone, Copy, PartialEq, Eq, Structural)]
pub enum VmError {
    /// An opcode byte at or above `INSTRUCTION_COUNT`.
    InvalidOpcode(u8),
    /// An operator tag at or above `BINOP_COUNT`.
    InvalidOperator(u8),
    /// An operand runs past the end of the bytes, or a text literal has no terminator.
    Truncated,
    /// A text literal whose bytes are not UTF-8.
    InvalidUtf8,
    /// A constant index outside the constant table.
    BadConstant(u32),
    /// A jump target past the end of the bytes or inside an instruction.
    BadJumpTarget(u64),
    /// An instruction needed more values than the stack held.
    StackUnderflow,
    /// An operator that has no meaning here yet.
    UnsupportedOperator(BinOp),
    /// An operator applied to operands it does not combine.
    UnsupportedOperands(BinOp),
    /// Text repeated a negative number of times.
    NegativeRepeat(i64),
    /// The run took `u64::MAX` steps without ending.
    StepLimit,
}

} // verus!
