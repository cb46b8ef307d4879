use vstd::prelude::*;

verus! {

/// Everything that can go wrong while decomposing, canonicalizing or running a
/// program, as a closed taxonomy.
#[derive(Clone, Copy, Debug, PartialEq, Eq, Structural)]
pub enum ErrorKind {
    /// An array of dimension numbers was not followed by a data array, or a
    /// dimension atom was not numeric.
    BadTableLiteral,
    /// A string literal was still open at the end of a physical line.
    UnclosedString,
    /// More brackets were opened than closed when the input ended, or a
    /// bracket was closed that was never opened.
    UnclosedBracket,
    /// A string literal carried an escape the escape decoder refuses.
    BadEscape,
    /// A lexing specification document did not have the required shape.
    BadSpecification,
    /// No registered lexing specification matched a line.
    LexicalNoMatch,
    /// A table cell was read before anything was written to it.
    UninitCell,
    /// A table access lay outside the table's extents.
    OutOfBounds,
    /// A slice offset reached at or beyond a table extent.
    SliceOutOfRange,
    /// A variable was read that no frame binds.
    Unbound,
    /// An operand or argument had the wrong kind for the operation.
    TypeMismatch,
    /// A command came with fewer arguments than it needs.
    WrongArity,
    /// An access supplied a different number of indices than the table has
    /// dimensions.
    DimensionMismatch,
    /// A division or remainder whose result a number cannot carry.
    DivisionByZero,
    /// A table was requested whose cell count no allocation can hold.
    TableTooLarge,
    /// A scripted evaluation ran out of supplied input lines.
    InputExhausted,
    /// A scripted evaluation ran out of its step budget.
    StepLimit,
    /// A `RETURN` was executed with only the root frame on the stack.
    RootReturn,
    /// A table value reached an output command.
    SayTable,
    /// An operator symbol outside the supported repertoire.
    UnsupportedOperator,
    /// A jump target that the label table does not hold.
    UnknownLabel,
    /// A table handle that the manager does not hold, or a line whose head is
    /// not a command.
    InternalInvariant,
}

/// An error together with the 1-based source line it arose on; line 0 means
/// that no source line applies.
#[derive(Clone, Copy, Debug, PartialEq, Eq, Structural)]
pub struct RunError {
    pub kind: ErrorKind,
    pub line: usize,
}

impl RunError {
    pub fn at(kind: ErrorKind, line: usize) -> (r: RunError)
        ensures
            r.kind == kind,
            r.line == line,
    {
        RunError { kind, line }
    }
}

} // verus!
