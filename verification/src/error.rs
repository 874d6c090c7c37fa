use vstd::prelude::*;

verus! {

/// Why an evaluator could not produce its output for a batch.
#[derive(Debug, Clone, Copy, PartialEq, Eq, Structural)]
pub enum EvalError {
    /// An entity index does not address an entry of the accumulator.
    EntityOutOfRange,
    /// An operand reference names no column of the batch.
    MissingOperand,
    /// An operand has another type than the evaluator works on.
    TypeMismatch,
    /// The number of arguments fits no shape of the instruction.
    WrongArity,
    /// Two operands of one instruction differ in length.
    LengthMismatch,
    /// The instruction does not support the argument it was given.
    UnsupportedArgument,
    /// A stored state does not decode to a token.
    CorruptSnapshot,
    /// A stored state was written for another kind of token.
    SnapshotKindMismatch,
    /// A stored state was written in another version of the layout.
    SnapshotVersionMismatch,
}

} // verus!
