//! Error kinds produced by the compiler and the virtual machine.  Each
//! variant carries structured data rather than a rendered message; a host
//! front end turns them into text.

use vstd::prelude::*;

verus! {

/// A source construct the bytecode compiler deliberately rejects.
#[derive(Clone, Copy, PartialEq, Eq, Debug)]
pub enum UnsupportedConstruct {
    Import,
    Export,
    TryCatch,
    DefaultParameter,
    VariadicParameter,
}

/// The error taxonomy of the compilation and execution engine.  The first
/// error aborts the run and is surfaced to the caller.
#[derive(Clone, PartialEq, Eq, Debug)]
pub enum FlowError {
    /// An unimplemented or invalid construct reached the compiler.
    CompilationError { construct: UnsupportedConstruct },
    /// Operand types do not fit the operator or instruction.
    TypeError,
    /// An unresolved global name.
    UndefinedVariable { name: String },
    /// An unknown built-in function name.
    UnknownBuiltin { name: String },
    /// An instruction expected more operand-stack values than present.
    StackUnderflow,
    /// An array index, local slot or constant-pool index out of range.
    IndexOutOfBounds,
    /// Integer division or modulo by zero.
    DivisionByZero,
    /// Malformed binary or encoded input: a bad header, an
    /// unserializable value or instruction, an out-of-range operand, or a
    /// broken escape sequence.
    InvalidBytecode,
    /// A call supplied fewer arguments than the callee declares.
    MissingParameter,
    /// A return instruction executed with no active call frame.
    ReturnOutsideFunction,
    /// An instruction with no implemented behaviour was executed.
    Unimplemented,
}

} // verus!
