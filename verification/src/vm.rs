//! The stack-based virtual machine.
//!
//! The machine executes one chunk's instructions against a shared operand
//! stack, a global-name table and per-call local-slot frames.  Its exact
//! small-step semantics is written down as a specification over an
//! abstract machine state (`VmState`, `spec_step`); the executable `step`
//! is proved to follow it.
//!
//! Floating-point work is not performed by the machine itself: whenever an
//! instruction needs a float operation the machine suspends and hands the
//! host a [`FloatReq`]; the host computes the answer and resumes the run.
//! Every state change on resumption is again fully specified, whatever
//! answer the host returns.
//!
//! Composite values follow copy semantics: loading a value copies it, and
//! the index- and property-store instructions push a mutated copy back;
//! no two bindings ever alias the same array or object.

use crate::bigint::BigInt;
use crate::bigint::decimal_string_of;
use crate::bytecode::Chunk;
use crate::bytecode::Instruction;
use crate::error::FlowError;
use crate::value::FlowArray;
use crate::value::FlowObject;
use crate::value::Value;
use crate::value::ValueModel;
use crate::value::clone_value;
use crate::value::spec_truthy;
use crate::value::vabs;
use crate::value::vabs_props;
use crate::value::vabs_seq;
use crate::value::value_wf;
use crate::value::model_kind_name;
use vstd::prelude::*;

verus! {

use core::cmp::Ordering;

/// One of the four arithmetic operations delegated to the host.
#[derive(Clone, Copy, PartialEq, Eq, Debug)]
pub enum FloatBinOp {
    Add,
    Sub,
    Mul,
    Div,
}

/// One of the four ordering comparisons delegated to the host.
#[derive(Clone, Copy, PartialEq, Eq, Debug)]
pub enum FloatCmpOp {
    Less,
    LessEqual,
    Greater,
    GreaterEqual,
}

/// An operand of a delegated float operation: either raw IEEE-754 bits or
/// a machine integer still to be converted by the host.
#[derive(Clone, Copy, PartialEq, Eq, Debug)]
pub enum FloatOperand {
    Bits(u64),
    Int(i64),
}

/// A request the machine hands to its host when an instruction needs
/// floating-point work.
#[derive(Debug, PartialEq)]
pub enum FloatReq {
    /// Compute `a op b` and answer with the result bits.
    Arith { op: FloatBinOp, a: FloatOperand, b: FloatOperand },
    /// Compare `a op b` and answer with the boolean outcome.
    Compare { op: FloatCmpOp, a: FloatOperand, b: FloatOperand },
    /// Answer whether `a` and `b` are approximately equal (within the
    /// machine epsilon), as the equality instructions define it.
    ApproxEq { a: FloatOperand, b: FloatOperand },
    /// Render the value as text.
    FormatValue { value: Value },
    /// Truncate the float with these bits to a machine integer.
    ToInt { bits: u64 },
    /// Convert this machine integer to a float, answering with its bits.
    FromInt { value: i64 },
    /// Parse this text as a float, answering with its bits or nothing.
    ParseFloat { text: String },
}

/// The abstract form of a host request.
pub enum FloatReqModel {
    Arith { op: FloatBinOp, a: FloatOperand, b: FloatOperand },
    Compare { op: FloatCmpOp, a: FloatOperand, b: FloatOperand },
    ApproxEq { a: FloatOperand, b: FloatOperand },
    FormatValue { value: ValueModel },
    ToInt { bits: u64 },
    FromInt { value: i64 },
    ParseFloat { text: Seq<char> },
}

pub open spec fn freq_abs(r: FloatReq) -> FloatReqModel {
    match r {
        FloatReq::Arith { op, a, b } => FloatReqModel::Arith { op, a, b },
        FloatReq::Compare { op, a, b } => FloatReqModel::Compare { op, a, b },
        FloatReq::ApproxEq { a, b } => FloatReqModel::ApproxEq { a, b },
        FloatReq::FormatValue { value } => FloatReqModel::FormatValue { value: vabs(value) },
        FloatReq::ToInt { bits } => FloatReqModel::ToInt { bits },
        FloatReq::FromInt { value } => FloatReqModel::FromInt { value },
        FloatReq::ParseFloat { text } => FloatReqModel::ParseFloat { text: text@ },
    }
}

/// What the machine will do with the host's answer.
#[derive(Clone, Copy, PartialEq, Eq, Debug)]
pub enum PendingKind {
    /// Expect bits; push them as a float.
    PushFloatBits,
    /// Expect a boolean; push it.
    PushBool,
    /// Expect a boolean; push its negation.
    PushBoolNegated,
    /// Expect an integer; push it.
    PushInt,
    /// Expect text; push it as a string.
    PushText,
    /// Expect optional bits; push a float, or fail with a type error.
    PushFloatOrFail,
}

/// The host's answer to a request.
pub enum FloatAnswer {
    Bits(u64),
    Bool(bool),
    Int(i64),
    Text(String),
    MaybeBits(Option<u64>),
}

/// A per-call activation record.
pub struct Frame {
    pub locals: Vec<Value>,
    pub return_chunk: usize,
    pub return_ip: usize,
    pub stack_base: usize,
}

/// One value the program printed, and whether a newline follows it.
#[derive(Debug, PartialEq)]
pub struct OutputEntry {
    pub value: Value,
    pub newline: bool,
}

/// The abstract machine state.
#[verifier::ext_equal]
pub struct VmState {
    pub chunk: int,
    pub ip: int,
    pub stack: Seq<ValueModel>,
    pub frames: Seq<FrameModel>,
    pub globals: Seq<(Seq<char>, ValueModel)>,
    pub output: Seq<(ValueModel, bool)>,
}

#[verifier::ext_equal]
pub struct FrameModel {
    pub locals: Seq<ValueModel>,
    pub return_chunk: int,
    pub return_ip: int,
    pub stack_base: int,
}

/// The abstract form of one chunk as the machine reads it.
#[verifier::ext_equal]
pub struct ChunkModel {
    pub code: Seq<Instruction>,
    pub consts: Seq<ValueModel>,
}

/// The abstract form of an error: names are character sequences.
pub enum ErrorModel {
    CompilationError { construct: crate::error::UnsupportedConstruct },
    TypeError,
    UndefinedVariable { name: Seq<char> },
    UnknownBuiltin { name: Seq<char> },
    StackUnderflow,
    IndexOutOfBounds,
    DivisionByZero,
    InvalidBytecode,
    MissingParameter,
    ReturnOutsideFunction,
    Unimplemented,
}

pub open spec fn err_abs(e: FlowError) -> ErrorModel {
    match e {
        FlowError::CompilationError { construct } => ErrorModel::CompilationError { construct },
        FlowError::TypeError => ErrorModel::TypeError,
        FlowError::UndefinedVariable { name } => ErrorModel::UndefinedVariable { name: name@ },
        FlowError::UnknownBuiltin { name } => ErrorModel::UnknownBuiltin { name: name@ },
        FlowError::StackUnderflow => ErrorModel::StackUnderflow,
        FlowError::IndexOutOfBounds => ErrorModel::IndexOutOfBounds,
        FlowError::DivisionByZero => ErrorModel::DivisionByZero,
        FlowError::InvalidBytecode => ErrorModel::InvalidBytecode,
        FlowError::MissingParameter => ErrorModel::MissingParameter,
        FlowError::ReturnOutsideFunction => ErrorModel::ReturnOutsideFunction,
        FlowError::Unimplemented => ErrorModel::Unimplemented,
    }
}

/// The result of one abstract machine step.
pub enum StepResult {
    /// Execution continues in the new state.
    Next(VmState),
    /// The program is finished (halt, or code exhausted).
    Done(VmState),
    /// Execution aborts with this error.
    Fail(ErrorModel),
    /// The machine suspends in the new state, asking the host `req`; the
    /// answer will be used as `pending` says.
    Ask(VmState, FloatReqModel, PendingKind),
}

/// First-match lookup in an association list.
pub open spec fn assoc_get(s: Seq<(Seq<char>, ValueModel)>, key: Seq<char>) -> Option<
    ValueModel,
>
    decreases s.len(),
{
    if s.len() == 0 {
        None
    } else if s[0].0 == key {
        Some(s[0].1)
    } else {
        assoc_get(s.subrange(1, s.len() as int), key)
    }
}

/// Bind a key, replacing the first existing entry or appending.
pub open spec fn assoc_set(
    s: Seq<(Seq<char>, ValueModel)>,
    key: Seq<char>,
    v: ValueModel,
) -> Seq<(Seq<char>, ValueModel)>
    decreases s.len(),
{
    if s.len() == 0 {
        seq![(key, v)]
    } else if s[0].0 == key {
        seq![(key, v)] + s.subrange(1, s.len() as int)
    } else {
        seq![s[0]] + assoc_set(s.subrange(1, s.len() as int), key, v)
    }
}

/// Truthiness at the model level; mirrors `spec_truthy` on values.
pub open spec fn model_truthy(v: ValueModel) -> bool {
    match v {
        ValueModel::Bool(b) => b,
        ValueModel::Null => false,
        ValueModel::Int(i) => i != 0,
        ValueModel::Big(b) => b != 0,
        ValueModel::Float(bits) => bits != 0 && bits != 0x8000_0000_0000_0000,
        ValueModel::Str(s) => s.len() != 0,
        ValueModel::Arr(s) => s.len() != 0,
        ValueModel::Obj(s) => s.len() != 0,
        ValueModel::Func { .. } => true,
    }
}

/// Lexicographic order on character sequences.
pub open spec fn chars_cmp(a: Seq<char>, b: Seq<char>) -> Ordering
    decreases a.len(),
{
    if a.len() == 0 && b.len() == 0 {
        Ordering::Equal
    } else if a.len() == 0 {
        Ordering::Less
    } else if b.len() == 0 {
        Ordering::Greater
    } else if a[0] < b[0] {
        Ordering::Less
    } else if a[0] > b[0] {
        Ordering::Greater
    } else {
        chars_cmp(a.subrange(1, a.len() as int), b.subrange(1, b.len() as int))
    }
}

/// The outcome of a binary value operation at the model level.
pub enum OpSpec {
    Val(ValueModel),
    Ask(FloatReqModel, PendingKind),
    Bad(FlowError),
}

/// Whether a signed value fits in a 64-bit machine integer.
pub open spec fn fits_i64(v: int) -> bool {
    -0x8000_0000_0000_0000 <= v < 0x8000_0000_0000_0000
}

/// Whether a big integer fits the two-limb window that converts to a
/// float operand.
pub open spec fn big_to_operand(v: int) -> Option<FloatOperand> {
    if -1_000_000_000_000_000_000 < v < 1_000_000_000_000_000_000 {
        Some(FloatOperand::Int(v as i64))
    } else {
        None
    }
}

/// Addition semantics.  Two machine integers use checked addition and
/// promote to a big integer on overflow; big integers stay exact; floats
/// are delegated to the host; strings concatenate.  A big integer too
/// large for the two-limb conversion window cannot join a float
/// operation; the closed error taxonomy has no generic runtime kind, so
/// that failure is reported as the type-error kind.
pub open spec fn spec_add(a: ValueModel, b: ValueModel) -> OpSpec {
    match (a, b) {
        (ValueModel::Int(x), ValueModel::Int(y)) => {
            if fits_i64(x + y) {
                OpSpec::Val(ValueModel::Int(x + y))
            } else {
                OpSpec::Val(ValueModel::Big(x + y))
            }
        },
        (ValueModel::Big(x), ValueModel::Big(y)) => OpSpec::Val(ValueModel::Big(x + y)),
        (ValueModel::Int(x), ValueModel::Big(y)) => OpSpec::Val(ValueModel::Big(x + y)),
        (ValueModel::Big(x), ValueModel::Int(y)) => OpSpec::Val(ValueModel::Big(x + y)),
        (ValueModel::Float(x), ValueModel::Float(y)) => OpSpec::Ask(
            FloatReqModel::Arith {
                op: FloatBinOp::Add,
                a: FloatOperand::Bits(x),
                b: FloatOperand::Bits(y),
            },
            PendingKind::PushFloatBits,
        ),
        (ValueModel::Int(x), ValueModel::Float(y)) => OpSpec::Ask(
            FloatReqModel::Arith {
                op: FloatBinOp::Add,
                a: FloatOperand::Int(x as i64),
                b: FloatOperand::Bits(y),
            },
            PendingKind::PushFloatBits,
        ),
        (ValueModel::Float(x), ValueModel::Int(y)) => OpSpec::Ask(
            FloatReqModel::Arith {
                op: FloatBinOp::Add,
                a: FloatOperand::Bits(x),
                b: FloatOperand::Int(y as i64),
            },
            PendingKind::PushFloatBits,
        ),
        (ValueModel::Big(x), ValueModel::Float(y)) => {
            match big_to_operand(x) {
                Some(op_a) => OpSpec::Ask(
                    FloatReqModel::Arith {
                        op: FloatBinOp::Add,
                        a: op_a,
                        b: FloatOperand::Bits(y),
                    },
                    PendingKind::PushFloatBits,
                ),
                None => OpSpec::Bad(FlowError::TypeError),
            }
        },
        (ValueModel::Float(x), ValueModel::Big(y)) => {
            match big_to_operand(y) {
                Some(op_b) => OpSpec::Ask(
                    FloatReqModel::Arith {
                        op: FloatBinOp::Add,
                        a: FloatOperand::Bits(x),
                        b: op_b,
                    },
                    PendingKind::PushFloatBits,
                ),
                None => OpSpec::Bad(FlowError::TypeError),
            }
        },
        (ValueModel::Str(x), ValueModel::Str(y)) => OpSpec::Val(ValueModel::Str(x + y)),
        _ => OpSpec::Bad(FlowError::TypeError),
    }
}

/// Subtraction semantics: as addition, without strings.
pub open spec fn spec_sub(a: ValueModel, b: ValueModel) -> OpSpec {
    match (a, b) {
        (ValueModel::Int(x), ValueModel::Int(y)) => {
            if fits_i64(x - y) {
                OpSpec::Val(ValueModel::Int(x - y))
            } else {
                OpSpec::Val(ValueModel::Big(x - y))
            }
        },
        (ValueModel::Big(x), ValueModel::Big(y)) => OpSpec::Val(ValueModel::Big(x - y)),
        (ValueModel::Int(x), ValueModel::Big(y)) => OpSpec::Val(ValueModel::Big(x - y)),
        (ValueModel::Big(x), ValueModel::Int(y)) => OpSpec::Val(ValueModel::Big(x - y)),
        (ValueModel::Float(x), ValueModel::Float(y)) => OpSpec::Ask(
            FloatReqModel::Arith {
                op: FloatBinOp::Sub,
                a: FloatOperand::Bits(x),
                b: FloatOperand::Bits(y),
            },
            PendingKind::PushFloatBits,
        ),
        (ValueModel::Int(x), ValueModel::Float(y)) => OpSpec::Ask(
            FloatReqModel::Arith {
                op: FloatBinOp::Sub,
                a: FloatOperand::Int(x as i64),
                b: FloatOperand::Bits(y),
            },
            PendingKind::PushFloatBits,
        ),
        (ValueModel::Float(x), ValueModel::Int(y)) => OpSpec::Ask(
            FloatReqModel::Arith {
                op: FloatBinOp::Sub,
                a: FloatOperand::Bits(x),
                b: FloatOperand::Int(y as i64),
            },
            PendingKind::PushFloatBits,
        ),
        _ => OpSpec::Bad(FlowError::TypeError),
    }
}

/// Multiplication semantics: as addition, without strings.
pub open spec fn spec_mul(a: ValueModel, b: ValueModel) -> OpSpec {
    match (a, b) {
        (ValueModel::Int(x), ValueModel::Int(y)) => {
            if fits_i64(x * y) {
                OpSpec::Val(ValueModel::Int(x * y))
            } else {
                OpSpec::Val(ValueModel::Big(x * y))
            }
        },
        (ValueModel::Big(x), ValueModel::Big(y)) => OpSpec::Val(ValueModel::Big(x * y)),
        (ValueModel::Int(x), ValueModel::Big(y)) => OpSpec::Val(ValueModel::Big(x * y)),
        (ValueModel::Big(x), ValueModel::Int(y)) => OpSpec::Val(ValueModel::Big(x * y)),
        (ValueModel::Float(x), ValueModel::Float(y)) => OpSpec::Ask(
            FloatReqModel::Arith {
                op: FloatBinOp::Mul,
                a: FloatOperand::Bits(x),
                b: FloatOperand::Bits(y),
            },
            PendingKind::PushFloatBits,
        ),
        (ValueModel::Int(x), ValueModel::Float(y)) => OpSpec::Ask(
            FloatReqModel::Arith {
                op: FloatBinOp::Mul,
                a: FloatOperand::Int(x as i64),
                b: FloatOperand::Bits(y),
            },
            PendingKind::PushFloatBits,
        ),
        (ValueModel::Float(x), ValueModel::Int(y)) => OpSpec::Ask(
            FloatReqModel::Arith {
                op: FloatBinOp::Mul,
                a: FloatOperand::Bits(x),
                b: FloatOperand::Int(y as i64),
            },
            PendingKind::PushFloatBits,
        ),
        (ValueModel::Big(x), ValueModel::Float(y)) => {
            match big_to_operand(x) {
                Some(op_a) => OpSpec::Ask(
                    FloatReqModel::Arith {
                        op: FloatBinOp::Mul,
                        a: op_a,
                        b: FloatOperand::Bits(y),
                    },
                    PendingKind::PushFloatBits,
                ),
                None => OpSpec::Bad(FlowError::TypeError),
            }
        },
        (ValueModel::Float(x), ValueModel::Big(y)) => {
            match big_to_operand(y) {
                Some(op_b) => OpSpec::Ask(
                    FloatReqModel::Arith {
                        op: FloatBinOp::Mul,
                        a: FloatOperand::Bits(x),
                        b: op_b,
                    },
                    PendingKind::PushFloatBits,
                ),
                None => OpSpec::Bad(FlowError::TypeError),
            }
        },
        _ => OpSpec::Bad(FlowError::TypeError),
    }
}

/// Division semantics: integer by integer always yields a float computed
/// by the host, never a truncated integer; a divisor of exactly zero
/// (integer zero, or float bits of positive or negative zero) fails.
pub open spec fn spec_div(a: ValueModel, b: ValueModel) -> OpSpec {
    match (a, b) {
        (ValueModel::Int(x), ValueModel::Int(y)) => {
            if y == 0 {
                OpSpec::Bad(FlowError::DivisionByZero)
            } else {
                OpSpec::Ask(
                    FloatReqModel::Arith {
                        op: FloatBinOp::Div,
                        a: FloatOperand::Int(x as i64),
                        b: FloatOperand::Int(y as i64),
                    },
                    PendingKind::PushFloatBits,
                )
            }
        },
        (ValueModel::Float(x), ValueModel::Float(y)) => {
            if y == 0 || y == 0x8000_0000_0000_0000 {
                OpSpec::Bad(FlowError::DivisionByZero)
            } else {
                OpSpec::Ask(
                    FloatReqModel::Arith {
                        op: FloatBinOp::Div,
                        a: FloatOperand::Bits(x),
                        b: FloatOperand::Bits(y),
                    },
                    PendingKind::PushFloatBits,
                )
            }
        },
        (ValueModel::Int(x), ValueModel::Float(y)) => {
            if y == 0 || y == 0x8000_0000_0000_0000 {
                OpSpec::Bad(FlowError::DivisionByZero)
            } else {
                OpSpec::Ask(
                    FloatReqModel::Arith {
                        op: FloatBinOp::Div,
                        a: FloatOperand::Int(x as i64),
                        b: FloatOperand::Bits(y),
                    },
                    PendingKind::PushFloatBits,
                )
            }
        },
        (ValueModel::Float(x), ValueModel::Int(y)) => {
            if y == 0 {
                OpSpec::Bad(FlowError::DivisionByZero)
            } else {
                OpSpec::Ask(
                    FloatReqModel::Arith {
                        op: FloatBinOp::Div,
                        a: FloatOperand::Bits(x),
                        b: FloatOperand::Int(y as i64),
                    },
                    PendingKind::PushFloatBits,
                )
            }
        },
        _ => OpSpec::Bad(FlowError::TypeError),
    }
}

/// Modulo semantics: defined only between machine integers, failing on a
/// zero divisor.
pub open spec fn spec_mod(a: ValueModel, b: ValueModel) -> OpSpec {
    match (a, b) {
        (ValueModel::Int(x), ValueModel::Int(y)) => {
            if y == 0 {
                OpSpec::Bad(FlowError::DivisionByZero)
            } else {
                OpSpec::Val(ValueModel::Int(truncated_rem(x, y)))
            }
        },
        _ => OpSpec::Bad(FlowError::TypeError),
    }
}

/// The remainder with truncation toward zero, as the `%` operator of the
/// host language computes it.
pub open spec fn truncated_rem(x: int, y: int) -> int {
    if x >= 0 && y > 0 {
        x % y
    } else if x >= 0 {
        x % (-y)
    } else if y > 0 {
        -((-x) % y)
    } else {
        -((-x) % (-y))
    }
}

/// Equality semantics: integers, strings, booleans and null compare
/// structurally; any float pairing is delegated to the host's approximate
/// comparison; everything else is unequal.  In particular two big
/// integers, and an integer paired with a big integer, always compare
/// unequal: this is the behaviour of the equality instruction as shipped,
/// kept deliberately since the ordering comparisons likewise reject big
/// integers with a type error.
pub open spec fn spec_equal(a: ValueModel, b: ValueModel) -> OpSpec {
    match (a, b) {
        (ValueModel::Int(x), ValueModel::Int(y)) => OpSpec::Val(ValueModel::Bool(x == y)),
        (ValueModel::Float(x), ValueModel::Float(y)) => OpSpec::Ask(
            FloatReqModel::ApproxEq { a: FloatOperand::Bits(x), b: FloatOperand::Bits(y) },
            PendingKind::PushBool,
        ),
        (ValueModel::Int(x), ValueModel::Float(y)) => OpSpec::Ask(
            FloatReqModel::ApproxEq { a: FloatOperand::Int(x as i64), b: FloatOperand::Bits(y) },
            PendingKind::PushBool,
        ),
        (ValueModel::Float(x), ValueModel::Int(y)) => OpSpec::Ask(
            FloatReqModel::ApproxEq { a: FloatOperand::Bits(x), b: FloatOperand::Int(y as i64) },
            PendingKind::PushBool,
        ),
        (ValueModel::Str(x), ValueModel::Str(y)) => OpSpec::Val(ValueModel::Bool(x == y)),
        (ValueModel::Bool(x), ValueModel::Bool(y)) => OpSpec::Val(ValueModel::Bool(x == y)),
        (ValueModel::Null, ValueModel::Null) => OpSpec::Val(ValueModel::Bool(true)),
        _ => OpSpec::Val(ValueModel::Bool(false)),
    }
}

/// Ordering semantics: integer pairs compare exactly, string pairs
/// lexicographically, float pairings are delegated; anything else is a
/// type error.
pub open spec fn spec_compare(op: FloatCmpOp, a: ValueModel, b: ValueModel) -> OpSpec {
    match (a, b) {
        (ValueModel::Int(x), ValueModel::Int(y)) => OpSpec::Val(
            ValueModel::Bool(int_cmp_holds(op, x, y)),
        ),
        (ValueModel::Str(x), ValueModel::Str(y)) => OpSpec::Val(
            ValueModel::Bool(ord_holds(op, chars_cmp(x, y))),
        ),
        (ValueModel::Float(x), ValueModel::Float(y)) => OpSpec::Ask(
            FloatReqModel::Compare {
                op,
                a: FloatOperand::Bits(x),
                b: FloatOperand::Bits(y),
            },
            PendingKind::PushBool,
        ),
        (ValueModel::Int(x), ValueModel::Float(y)) => OpSpec::Ask(
            FloatReqModel::Compare {
                op,
                a: FloatOperand::Int(x as i64),
                b: FloatOperand::Bits(y),
            },
            PendingKind::PushBool,
        ),
        (ValueModel::Float(x), ValueModel::Int(y)) => OpSpec::Ask(
            FloatReqModel::Compare {
                op,
                a: FloatOperand::Bits(x),
                b: FloatOperand::Int(y as i64),
            },
            PendingKind::PushBool,
        ),
        _ => OpSpec::Bad(FlowError::TypeError),
    }
}

pub open spec fn int_cmp_holds(op: FloatCmpOp, x: int, y: int) -> bool {
    match op {
        FloatCmpOp::Less => x < y,
        FloatCmpOp::LessEqual => x <= y,
        FloatCmpOp::Greater => x > y,
        FloatCmpOp::GreaterEqual => x >= y,
    }
}

pub open spec fn ord_holds(op: FloatCmpOp, o: Ordering) -> bool {
    match op {
        FloatCmpOp::Less => o == Ordering::Less,
        FloatCmpOp::LessEqual => o != Ordering::Greater,
        FloatCmpOp::Greater => o == Ordering::Greater,
        FloatCmpOp::GreaterEqual => o != Ordering::Less,
    }
}

/// Negation semantics: integers negate exactly (the minimum machine
/// integer promotes to a big integer); a float's sign bit flips, which is
/// exactly IEEE-754 negation; everything else is a type error.
pub open spec fn spec_negate(a: ValueModel) -> OpSpec {
    match a {
        ValueModel::Int(x) => {
            if fits_i64(-x) {
                OpSpec::Val(ValueModel::Int(-x))
            } else {
                OpSpec::Val(ValueModel::Big(-x))
            }
        },
        ValueModel::Float(bits) => OpSpec::Val(
            ValueModel::Float((bits ^ 0x8000_0000_0000_0000) as u64),
        ),
        _ => OpSpec::Bad(FlowError::TypeError),
    }
}

/// Character-sequence constants used by the builtins.
pub open spec fn chars_true() -> Seq<char> {
    seq!['t', 'r', 'u', 'e']
}

pub open spec fn chars_false() -> Seq<char> {
    seq!['f', 'a', 'l', 's', 'e']
}

pub open spec fn chars_null() -> Seq<char> {
    seq!['n', 'u', 'l', 'l']
}

/// Semantics of one built-in call, after the argument-count integer and
/// the arguments themselves have been popped.  `s1` is the state with
/// everything popped and the instruction pointer advanced.
pub open spec fn spec_builtin(name: String, args: Seq<ValueModel>, s1: VmState) -> StepResult {
    if name@ == seq!['s', 'h', 'o', 'w'] {
        if args.len() == 1 {
            StepResult::Next(
                VmState {
                    stack: s1.stack.push(ValueModel::Null),
                    output: s1.output.push((args[0], true)),
                    ..s1
                },
            )
        } else {
            StepResult::Fail(ErrorModel::TypeError)
        }
    } else if name@ == seq!['p', 'r', 'i', 'n', 't'] {
        if args.len() == 1 {
            StepResult::Next(
                VmState {
                    stack: s1.stack.push(ValueModel::Null),
                    output: s1.output.push((args[0], false)),
                    ..s1
                },
            )
        } else {
            StepResult::Fail(ErrorModel::TypeError)
        }
    } else if name@ == seq!['l', 'e', 'n'] {
        if args.len() != 1 {
            StepResult::Fail(ErrorModel::TypeError)
        } else {
            match args[0] {
                ValueModel::Str(t) => {
                    let n = t.len();
                    if n <= 0x7FFF_FFFF_FFFF_FFFF {
                        StepResult::Next(
                            VmState {
                                stack: s1.stack.push(ValueModel::Int(n as int)),
                                ..s1
                            },
                        )
                    } else {
                        StepResult::Fail(ErrorModel::TypeError)
                    }
                },
                ValueModel::Arr(t) => {
                    if t.len() <= 0x7FFF_FFFF_FFFF_FFFF {
                        StepResult::Next(
                            VmState {
                                stack: s1.stack.push(ValueModel::Int(t.len() as int)),
                                ..s1
                            },
                        )
                    } else {
                        StepResult::Fail(ErrorModel::TypeError)
                    }
                },
                ValueModel::Obj(t) => {
                    if t.len() <= 0x7FFF_FFFF_FFFF_FFFF {
                        StepResult::Next(
                            VmState {
                                stack: s1.stack.push(ValueModel::Int(t.len() as int)),
                                ..s1
                            },
                        )
                    } else {
                        StepResult::Fail(ErrorModel::TypeError)
                    }
                },
                _ => StepResult::Fail(ErrorModel::TypeError),
            }
        }
    } else if name@ == seq!['t', 'y', 'p', 'e'] {
        if args.len() == 1 {
            StepResult::Next(
                VmState {
                    stack: s1.stack.push(ValueModel::Str(model_kind_name(args[0]))),
                    ..s1
                },
            )
        } else {
            StepResult::Fail(ErrorModel::TypeError)
        }
    } else if name@ == seq!['s', 't', 'r'] {
        if args.len() != 1 {
            StepResult::Fail(ErrorModel::TypeError)
        } else {
            match args[0] {
                ValueModel::Int(i) => StepResult::Next(
                    VmState {
                        stack: s1.stack.push(ValueModel::Str(decimal_string_of(i))),
                        ..s1
                    },
                ),
                ValueModel::Big(b) => StepResult::Next(
                    VmState {
                        stack: s1.stack.push(ValueModel::Str(decimal_string_of(b))),
                        ..s1
                    },
                ),
                ValueModel::Bool(b) => StepResult::Next(
                    VmState {
                        stack: s1.stack.push(
                            ValueModel::Str(
                                if b {
                                    chars_true()
                                } else {
                                    chars_false()
                                },
                            ),
                        ),
                        ..s1
                    },
                ),
                ValueModel::Null => StepResult::Next(
                    VmState { stack: s1.stack.push(ValueModel::Str(chars_null())), ..s1 },
                ),
                ValueModel::Str(t) => StepResult::Next(
                    VmState { stack: s1.stack.push(ValueModel::Str(t)), ..s1 },
                ),
                v => StepResult::Ask(
                    s1,
                    FloatReqModel::FormatValue { value: v },
                    PendingKind::PushText,
                ),
            }
        }
    } else if name@ == seq!['i', 'n', 't'] {
        if args.len() != 1 {
            StepResult::Fail(ErrorModel::TypeError)
        } else {
            match args[0] {
                ValueModel::Int(i) => StepResult::Next(
                    VmState { stack: s1.stack.push(ValueModel::Int(i)), ..s1 },
                ),
                ValueModel::Float(bits) => StepResult::Ask(
                    s1,
                    FloatReqModel::ToInt { bits },
                    PendingKind::PushInt,
                ),
                ValueModel::Bool(b) => StepResult::Next(
                    VmState {
                        stack: s1.stack.push(
                            ValueModel::Int(
                                if b {
                                    1
                                } else {
                                    0
                                },
                            ),
                        ),
                        ..s1
                    },
                ),
                ValueModel::Str(t) => {
                    if crate::bigint::valid_decimal(t) && fits_i64(
                        crate::bigint::decimal_value(t),
                    ) {
                        StepResult::Next(
                            VmState {
                                stack: s1.stack.push(
                                    ValueModel::Int(crate::bigint::decimal_value(t)),
                                ),
                                ..s1
                            },
                        )
                    } else {
                        StepResult::Fail(ErrorModel::TypeError)
                    }
                },
                _ => StepResult::Fail(ErrorModel::TypeError),
            }
        }
    } else if name@ == seq!['f', 'l', 'o', 'a', 't'] {
        if args.len() != 1 {
            StepResult::Fail(ErrorModel::TypeError)
        } else {
            match args[0] {
                ValueModel::Float(bits) => StepResult::Next(
                    VmState { stack: s1.stack.push(ValueModel::Float(bits)), ..s1 },
                ),
                ValueModel::Int(i) => StepResult::Ask(
                    s1,
                    FloatReqModel::FromInt { value: i as i64 },
                    PendingKind::PushFloatBits,
                ),
                ValueModel::Bool(b) => StepResult::Next(
                    VmState {
                        stack: s1.stack.push(
                            ValueModel::Float(
                                if b {
                                    0x3FF0_0000_0000_0000u64
                                } else {
                                    0u64
                                },
                            ),
                        ),
                        ..s1
                    },
                ),
                ValueModel::Str(t) => StepResult::Ask(
                    s1,
                    FloatReqModel::ParseFloat { text: t },
                    PendingKind::PushFloatOrFail,
                ),
                _ => StepResult::Fail(ErrorModel::TypeError),
            }
        }
    } else {
        StepResult::Fail(ErrorModel::UnknownBuiltin { name: name@ })
    }
}

/// One step of the abstract machine.  This is the machine's definitive
/// semantics: the executable `step` is proved to produce exactly this
/// result on the abstract view of its state.
pub open spec fn spec_step(prog: Seq<ChunkModel>, s: VmState) -> StepResult {
    if !(0 <= s.chunk < prog.len()) {
        StepResult::Fail(ErrorModel::IndexOutOfBounds)
    } else {
        let code = prog[s.chunk].code;
        let consts = prog[s.chunk].consts;
        if !(0 <= s.ip < code.len()) {
            StepResult::Done(s)
        } else {
            let instr = code[s.ip];
            let s1 = VmState { ip: s.ip + 1, ..s };
            match instr {
                Instruction::LoadConstant(k) => {
                    if k < consts.len() {
                        StepResult::Next(VmState { stack: s1.stack.push(consts[k as int]), ..s1 })
                    } else {
                        StepResult::Fail(ErrorModel::IndexOutOfBounds)
                    }
                },
                Instruction::LoadLocal(k) => {
                    if s.frames.len() == 0 {
                        StepResult::Fail(ErrorModel::StackUnderflow)
                    } else {
                        let f = s.frames.last();
                        if k < f.locals.len() {
                            StepResult::Next(
                                VmState { stack: s1.stack.push(f.locals[k as int]), ..s1 },
                            )
                        } else {
                            StepResult::Fail(ErrorModel::IndexOutOfBounds)
                        }
                    }
                },
                Instruction::StoreLocal(k) => {
                    if s.stack.len() == 0 {
                        StepResult::Fail(ErrorModel::StackUnderflow)
                    } else if s.frames.len() == 0 {
                        StepResult::Fail(ErrorModel::StackUnderflow)
                    } else {
                        let v = s.stack.last();
                        let f = s.frames.last();
                        if k < f.locals.len() {
                            let f2 = FrameModel { locals: f.locals.update(k as int, v), ..f };
                            StepResult::Next(
                                VmState {
                                    stack: s1.stack.drop_last(),
                                    frames: s1.frames.update(s1.frames.len() - 1, f2),
                                    ..s1
                                },
                            )
                        } else if k == f.locals.len() {
                            let f2 = FrameModel { locals: f.locals.push(v), ..f };
                            StepResult::Next(
                                VmState {
                                    stack: s1.stack.drop_last(),
                                    frames: s1.frames.update(s1.frames.len() - 1, f2),
                                    ..s1
                                },
                            )
                        } else {
                            StepResult::Fail(ErrorModel::IndexOutOfBounds)
                        }
                    }
                },
                Instruction::LoadGlobal(name) => {
                    match assoc_get(s.globals, name@) {
                        Some(v) => StepResult::Next(VmState { stack: s1.stack.push(v), ..s1 }),
                        None => StepResult::Fail(ErrorModel::UndefinedVariable { name: name@ }),
                    }
                },
                Instruction::StoreGlobal(name) => {
                    if s.stack.len() == 0 {
                        StepResult::Fail(ErrorModel::StackUnderflow)
                    } else {
                        StepResult::Next(
                            VmState {
                                stack: s1.stack.drop_last(),
                                globals: assoc_set(s1.globals, name@, s.stack.last()),
                                ..s1
                            },
                        )
                    }
                },
                Instruction::Duplicate => {
                    if s.stack.len() == 0 {
                        StepResult::Fail(ErrorModel::StackUnderflow)
                    } else {
                        StepResult::Next(
                            VmState { stack: s1.stack.push(s.stack.last()), ..s1 },
                        )
                    }
                },
                Instruction::Pop => {
                    if s.stack.len() == 0 {
                        StepResult::Fail(ErrorModel::StackUnderflow)
                    } else {
                        StepResult::Next(VmState { stack: s1.stack.drop_last(), ..s1 })
                    }
                },
                Instruction::Swap => {
                    if s.stack.len() < 2 {
                        StepResult::Fail(ErrorModel::StackUnderflow)
                    } else {
                        let n = s.stack.len() as int;
                        StepResult::Next(
                            VmState {
                                stack: s1.stack.update(n - 1, s.stack[n - 2]).update(
                                    n - 2,
                                    s.stack[n - 1],
                                ),
                                ..s1
                            },
                        )
                    }
                },
                Instruction::Add => spec_binary_arith(s, s1, spec_add(peek2(s).0, peek2(s).1)),
                Instruction::Subtract => spec_binary_arith(
                    s,
                    s1,
                    spec_sub(peek2(s).0, peek2(s).1),
                ),
                Instruction::Multiply => spec_binary_arith(
                    s,
                    s1,
                    spec_mul(peek2(s).0, peek2(s).1),
                ),
                Instruction::Divide => spec_binary_arith(
                    s,
                    s1,
                    spec_div(peek2(s).0, peek2(s).1),
                ),
                Instruction::Modulo => spec_binary_arith(
                    s,
                    s1,
                    spec_mod(peek2(s).0, peek2(s).1),
                ),
                Instruction::Equal => spec_binary_arith(
                    s,
                    s1,
                    spec_equal(peek2(s).0, peek2(s).1),
                ),
                Instruction::NotEqual => spec_binary_arith(
                    s,
                    s1,
                    negate_eq(spec_equal(peek2(s).0, peek2(s).1)),
                ),
                Instruction::Less => spec_binary_arith(
                    s,
                    s1,
                    spec_compare(FloatCmpOp::Less, peek2(s).0, peek2(s).1),
                ),
                Instruction::LessEqual => spec_binary_arith(
                    s,
                    s1,
                    spec_compare(FloatCmpOp::LessEqual, peek2(s).0, peek2(s).1),
                ),
                Instruction::Greater => spec_binary_arith(
                    s,
                    s1,
                    spec_compare(FloatCmpOp::Greater, peek2(s).0, peek2(s).1),
                ),
                Instruction::GreaterEqual => spec_binary_arith(
                    s,
                    s1,
                    spec_compare(FloatCmpOp::GreaterEqual, peek2(s).0, peek2(s).1),
                ),
                Instruction::Not => {
                    if s.stack.len() == 0 {
                        StepResult::Fail(ErrorModel::StackUnderflow)
                    } else {
                        StepResult::Next(
                            VmState {
                                stack: s1.stack.drop_last().push(
                                    ValueModel::Bool(!model_truthy(s.stack.last())),
                                ),
                                ..s1
                            },
                        )
                    }
                },
                Instruction::Negate => {
                    if s.stack.len() == 0 {
                        StepResult::Fail(ErrorModel::StackUnderflow)
                    } else {
                        match spec_negate(s.stack.last()) {
                            OpSpec::Val(v) => StepResult::Next(
                                VmState { stack: s1.stack.drop_last().push(v), ..s1 },
                            ),
                            OpSpec::Ask(req, p) => StepResult::Ask(
                                VmState { stack: s1.stack.drop_last(), ..s1 },
                                req,
                                p,
                            ),
                            OpSpec::Bad(e) => StepResult::Fail(err_abs(e)),
                        }
                    }
                },
                Instruction::Jump(t) => StepResult::Next(VmState { ip: t as int, ..s }),
                Instruction::JumpIfFalse(t) => {
                    if s.stack.len() == 0 {
                        StepResult::Fail(ErrorModel::StackUnderflow)
                    } else if !model_truthy(s.stack.last()) {
                        StepResult::Next(
                            VmState { ip: t as int, stack: s.stack.drop_last(), ..s },
                        )
                    } else {
                        StepResult::Next(VmState { stack: s1.stack.drop_last(), ..s1 })
                    }
                },
                Instruction::JumpIfTrue(t) => {
                    if s.stack.len() == 0 {
                        StepResult::Fail(ErrorModel::StackUnderflow)
                    } else if model_truthy(s.stack.last()) {
                        StepResult::Next(
                            VmState { ip: t as int, stack: s.stack.drop_last(), ..s },
                        )
                    } else {
                        StepResult::Next(VmState { stack: s1.stack.drop_last(), ..s1 })
                    }
                },
                Instruction::Call(argc) => {
                    if s.stack.len() < argc + 1 {
                        StepResult::Fail(ErrorModel::StackUnderflow)
                    } else {
                        match s.stack.last() {
                            ValueModel::Func { address, arity, locals_count: _ } => {
                                let base = s.stack.len() - 1 - argc;
                                let args = s.stack.subrange(base as int, s.stack.len() - 1);
                                if !(0 <= address < prog.len()) {
                                    StepResult::Fail(ErrorModel::IndexOutOfBounds)
                                } else if argc < arity {
                                    StepResult::Fail(ErrorModel::MissingParameter)
                                } else {
                                    let f = FrameModel {
                                        locals: args.take(arity as int),
                                        return_chunk: s.chunk,
                                        return_ip: s.ip + 1,
                                        stack_base: base as int,
                                    };
                                    StepResult::Next(
                                        VmState {
                                            chunk: address,
                                            ip: 0,
                                            stack: s.stack.take(base as int),
                                            frames: s.frames.push(f),
                                            ..s
                                        },
                                    )
                                }
                            },
                            _ => StepResult::Fail(ErrorModel::TypeError),
                        }
                    }
                },
                Instruction::Return => spec_return(s, ValueModel::Null, false),
                Instruction::ReturnValue => {
                    if s.stack.len() == 0 {
                        StepResult::Fail(ErrorModel::StackUnderflow)
                    } else {
                        spec_return(s, s.stack.last(), true)
                    }
                },
                Instruction::NewArray(n) => {
                    if s.stack.len() < n {
                        StepResult::Fail(ErrorModel::StackUnderflow)
                    } else {
                        let elems = s.stack.subrange(s.stack.len() - n, s.stack.len() as int);
                        StepResult::Next(
                            VmState {
                                stack: s1.stack.take(s.stack.len() - n).push(
                                    ValueModel::Arr(elems),
                                ),
                                ..s1
                            },
                        )
                    }
                },
                Instruction::NewObject => StepResult::Next(
                    VmState { stack: s1.stack.push(ValueModel::Obj(Seq::empty())), ..s1 },
                ),
                Instruction::GetIndex => {
                    if s.stack.len() < 2 {
                        StepResult::Fail(ErrorModel::StackUnderflow)
                    } else {
                        let idx = s.stack.last();
                        let target = s.stack[s.stack.len() - 2];
                        let popped = VmState {
                            stack: s1.stack.drop_last().drop_last(),
                            ..s1
                        };
                        match (target, idx) {
                            (ValueModel::Arr(elems), ValueModel::Int(i)) => {
                                if 0 <= i < elems.len() {
                                    StepResult::Next(
                                        VmState {
                                            stack: popped.stack.push(elems[i as int]),
                                            ..popped
                                        },
                                    )
                                } else {
                                    StepResult::Fail(ErrorModel::IndexOutOfBounds)
                                }
                            },
                            (ValueModel::Obj(props), ValueModel::Str(key)) => {
                                match assoc_get(props, key) {
                                    Some(v) => StepResult::Next(
                                        VmState { stack: popped.stack.push(v), ..popped },
                                    ),
                                    None => StepResult::Next(
                                        VmState {
                                            stack: popped.stack.push(ValueModel::Null),
                                            ..popped
                                        },
                                    ),
                                }
                            },
                            _ => StepResult::Fail(ErrorModel::TypeError),
                        }
                    }
                },
                Instruction::SetIndex => {
                    if s.stack.len() < 3 {
                        StepResult::Fail(ErrorModel::StackUnderflow)
                    } else {
                        let v = s.stack.last();
                        let idx = s.stack[s.stack.len() - 2];
                        let target = s.stack[s.stack.len() - 3];
                        let popped = VmState {
                            stack: s1.stack.drop_last().drop_last().drop_last(),
                            ..s1
                        };
                        match (target, idx) {
                            (ValueModel::Arr(elems), ValueModel::Int(i)) => {
                                if 0 <= i < elems.len() {
                                    StepResult::Next(
                                        VmState {
                                            stack: popped.stack.push(
                                                ValueModel::Arr(elems.update(i as int, v)),
                                            ),
                                            ..popped
                                        },
                                    )
                                } else {
                                    StepResult::Fail(ErrorModel::IndexOutOfBounds)
                                }
                            },
                            _ => StepResult::Fail(ErrorModel::TypeError),
                        }
                    }
                },
                Instruction::GetProperty(name) => {
                    if s.stack.len() == 0 {
                        StepResult::Fail(ErrorModel::StackUnderflow)
                    } else {
                        match s.stack.last() {
                            ValueModel::Obj(props) => {
                                let popped = VmState { stack: s1.stack.drop_last(), ..s1 };
                                match assoc_get(props, name@) {
                                    Some(v) => StepResult::Next(
                                        VmState { stack: popped.stack.push(v), ..popped },
                                    ),
                                    None => StepResult::Next(
                                        VmState {
                                            stack: popped.stack.push(ValueModel::Null),
                                            ..popped
                                        },
                                    ),
                                }
                            },
                            _ => StepResult::Fail(ErrorModel::TypeError),
                        }
                    }
                },
                Instruction::SetProperty(name) => {
                    if s.stack.len() < 2 {
                        StepResult::Fail(ErrorModel::StackUnderflow)
                    } else {
                        let v = s.stack.last();
                        let target = s.stack[s.stack.len() - 2];
                        match target {
                            ValueModel::Obj(props) => StepResult::Next(
                                VmState {
                                    stack: s1.stack.drop_last().drop_last().push(
                                        ValueModel::Obj(assoc_set(props, name@, v)),
                                    ),
                                    ..s1
                                },
                            ),
                            _ => StepResult::Fail(ErrorModel::TypeError),
                        }
                    }
                },
                Instruction::NewFunction(k) => spec_push_function(consts, k as int, s1),
                Instruction::NewClosure(k) => spec_push_function(consts, k as int, s1),
                Instruction::CallMethod(_) => StepResult::Fail(ErrorModel::Unimplemented),
                Instruction::And => StepResult::Fail(ErrorModel::Unimplemented),
                Instruction::Or => StepResult::Fail(ErrorModel::Unimplemented),
                Instruction::CallBuiltin(name) => {
                    if s.stack.len() == 0 {
                        StepResult::Fail(ErrorModel::StackUnderflow)
                    } else {
                        match s.stack.last() {
                            ValueModel::Int(c) => {
                                if !(0 <= c <= 0xFFFF) {
                                    StepResult::Fail(ErrorModel::TypeError)
                                } else if s.stack.len() - 1 < c {
                                    StepResult::Fail(ErrorModel::StackUnderflow)
                                } else {
                                    let rest = s.stack.len() - 1 - c;
                                    let args = s.stack.subrange(
                                        rest as int,
                                        s.stack.len() - 1,
                                    );
                                    spec_builtin(
                                        name,
                                        args,
                                        VmState {
                                            stack: s.stack.take(rest as int),
                                            ip: s.ip + 1,
                                            ..s
                                        },
                                    )
                                }
                            },
                            _ => StepResult::Fail(ErrorModel::TypeError),
                        }
                    }
                },
                Instruction::Print => {
                    if s.stack.len() == 0 {
                        StepResult::Fail(ErrorModel::StackUnderflow)
                    } else {
                        StepResult::Next(
                            VmState {
                                stack: s1.stack.drop_last(),
                                output: s1.output.push((s.stack.last(), true)),
                                ..s1
                            },
                        )
                    }
                },
                Instruction::Halt => StepResult::Done(s1),
            }
        }
    }
}

/// The two topmost stack values, in (second, top) order, when present.
pub open spec fn peek2(s: VmState) -> (ValueModel, ValueModel) {
    (s.stack[s.stack.len() - 2], s.stack.last())
}

/// Apply a binary operation outcome: both operands are consumed, then the
/// result is pushed, the host is asked, or the step fails.
pub open spec fn spec_binary_arith(s: VmState, s1: VmState, out: OpSpec) -> StepResult {
    if s.stack.len() < 2 {
        StepResult::Fail(ErrorModel::StackUnderflow)
    } else {
        let popped = VmState { stack: s1.stack.drop_last().drop_last(), ..s1 };
        match out {
            OpSpec::Val(v) => StepResult::Next(
                VmState { stack: popped.stack.push(v), ..popped },
            ),
            OpSpec::Ask(req, p) => StepResult::Ask(popped, req, p),
            OpSpec::Bad(e) => StepResult::Fail(err_abs(e)),
        }
    }
}

/// Boolean results of the equality test are negated for the inequality
/// instruction; a delegated comparison is negated on resumption.
pub open spec fn negate_eq(out: OpSpec) -> OpSpec {
    match out {
        OpSpec::Val(ValueModel::Bool(b)) => OpSpec::Val(ValueModel::Bool(!b)),
        OpSpec::Ask(req, PendingKind::PushBool) => OpSpec::Ask(
            req,
            PendingKind::PushBoolNegated,
        ),
        other => other,
    }
}

/// Return from the current frame with `value`: discard the frame's stack
/// segment, push the returned value, and resume the caller.  The bottom
/// frame belongs to the script and cannot be returned from.
pub open spec fn spec_return(s: VmState, value: ValueModel, pops_value: bool) -> StepResult {
    if s.frames.len() <= 1 {
        StepResult::Fail(ErrorModel::ReturnOutsideFunction)
    } else {
        let f = s.frames.last();
        let stack0 = if pops_value {
            s.stack.drop_last()
        } else {
            s.stack
        };
        if !(0 <= f.stack_base <= stack0.len()) {
            StepResult::Fail(ErrorModel::StackUnderflow)
        } else {
            StepResult::Next(
                VmState {
                    chunk: f.return_chunk,
                    ip: f.return_ip,
                    stack: stack0.take(f.stack_base).push(value),
                    frames: s.frames.drop_last(),
                    ..s
                },
            )
        }
    }
}

/// Push the function constant at `k`, as the function- and
/// closure-creation instructions do.
pub open spec fn spec_push_function(consts: Seq<ValueModel>, k: int, s1: VmState) -> StepResult {
    if !(0 <= k < consts.len()) {
        StepResult::Fail(ErrorModel::IndexOutOfBounds)
    } else if consts[k] is Func {
        StepResult::Next(VmState { stack: s1.stack.push(consts[k]), ..s1 })
    } else {
        StepResult::Fail(ErrorModel::TypeError)
    }
}

use crate::value::lemma_vabs_props_index;
use crate::value::lemma_vabs_props_push;
use crate::value::lemma_vabs_props_update;
use crate::value::lemma_vabs_seq_index;
use crate::value::lemma_vabs_seq_push;
use crate::value::lemma_vabs_seq_subrange;
use crate::value::lemma_vabs_seq_update;
use crate::value::lemma_props_value_wf_index;
use crate::value::props_value_wf;
use crate::value::unique_keys;

/// If the first `i` keys differ from `key`, the lookup is decided by the
/// remainder of the list.
proof fn lemma_assoc_get_skip(g: Seq<(Seq<char>, ValueModel)>, key: Seq<char>, i: int)
    requires
        0 <= i <= g.len(),
        forall|j: int| 0 <= j < i ==> (#[trigger] g[j]).0 != key,
    ensures
        assoc_get(g, key) == assoc_get(g.subrange(i, g.len() as int), key),
    decreases i,
{
    if i == 0 {
        assert(g.subrange(0, g.len() as int) =~= g);
    } else {
        let t = g.subrange(1, g.len() as int);
        assert(g[0].0 != key);
        assert(forall|j: int| 0 <= j < i - 1 ==> (#[trigger] t[j]).0 == g[j + 1].0);
        lemma_assoc_get_skip(t, key, i - 1);
        assert(t.subrange(i - 1, t.len() as int) =~= g.subrange(i, g.len() as int));
    }
}

proof fn lemma_assoc_get_at(g: Seq<(Seq<char>, ValueModel)>, key: Seq<char>, i: int)
    requires
        0 <= i < g.len(),
        g[i].0 == key,
        forall|j: int| 0 <= j < i ==> (#[trigger] g[j]).0 != key,
    ensures
        assoc_get(g, key) == Some(g[i].1),
{
    lemma_assoc_get_skip(g, key, i);
    let t = g.subrange(i, g.len() as int);
    assert(t[0] == g[i]);
}

proof fn lemma_assoc_get_missing(g: Seq<(Seq<char>, ValueModel)>, key: Seq<char>)
    requires
        forall|j: int| 0 <= j < g.len() ==> (#[trigger] g[j]).0 != key,
    ensures
        assoc_get(g, key) is None,
{
    lemma_assoc_get_skip(g, key, g.len() as int);
    assert(g.subrange(g.len() as int, g.len() as int).len() == 0);
}

proof fn lemma_assoc_set_at(g: Seq<(Seq<char>, ValueModel)>, key: Seq<char>, v: ValueModel, i: int)
    requires
        0 <= i < g.len(),
        g[i].0 == key,
        forall|j: int| 0 <= j < i ==> (#[trigger] g[j]).0 != key,
    ensures
        assoc_set(g, key, v) == g.update(i, (key, v)),
    decreases i,
{
    if i == 0 {
        assert(assoc_set(g, key, v) == seq![(key, v)] + g.subrange(1, g.len() as int));
        assert(seq![(key, v)] + g.subrange(1, g.len() as int) =~= g.update(0, (key, v)));
    } else {
        let t = g.subrange(1, g.len() as int);
        assert(forall|j: int| 0 <= j < i - 1 ==> (#[trigger] t[j]).0 == g[j + 1].0);
        assert(t[i - 1] == g[i]);
        lemma_assoc_set_at(t, key, v, i - 1);
        assert(g[0].0 != key);
        assert(assoc_set(g, key, v) == seq![g[0]] + t.update(i - 1, (key, v)));
        assert(seq![g[0]] + t.update(i - 1, (key, v)) =~= g.update(i, (key, v)));
    }
}

proof fn lemma_assoc_set_missing(g: Seq<(Seq<char>, ValueModel)>, key: Seq<char>, v: ValueModel)
    requires
        forall|j: int| 0 <= j < g.len() ==> (#[trigger] g[j]).0 != key,
    ensures
        assoc_set(g, key, v) == g.push((key, v)),
    decreases g.len(),
{
    if g.len() == 0 {
        assert(assoc_set(g, key, v) =~= g.push((key, v)));
    } else {
        let t = g.subrange(1, g.len() as int);
        assert(forall|j: int| 0 <= j < t.len() ==> (#[trigger] t[j]).0 == g[j + 1].0);
        lemma_assoc_set_missing(t, key, v);
        assert(g[0].0 != key);
        assert(seq![g[0]] + t.push((key, v)) =~= g.push((key, v)));
    }
}

/// Look a key up in an association vector, returning a copy of the bound
/// value, exactly as `assoc_get` on the abstract view answers.
fn assoc_lookup(entries: &Vec<(String, Value)>, name: &String) -> (r: Option<Value>)
    ensures
        match r {
            Some(v) => {
                &&& assoc_get(vabs_props(entries@), name@) == Some(vabs(v))
                &&& (props_value_wf(entries@) ==> value_wf(v))
            },
            None => assoc_get(vabs_props(entries@), name@) is None,
        },
{
    proof {
        lemma_vabs_props_index(entries@);
        lemma_props_value_wf_index(entries@);
    }
    let n = entries.len();
    let mut i: usize = 0;
    while i < n
        invariant
            i <= n,
            n == entries@.len(),
            forall|j: int| 0 <= j < i ==> (#[trigger] entries@[j]).0@ != name@,
            vabs_props(entries@).len() == n,
            forall|j: int|
                0 <= j < n ==> #[trigger] vabs_props(entries@)[j] == (
                    entries@[j].0@,
                    vabs(entries@[j].1),
                ),
            props_value_wf(entries@) ==> forall|j: int|
                0 <= j < n ==> value_wf((#[trigger] entries@[j]).1),
        decreases n - i,
    {
        if entries[i].0.eq(name) {
            let v = clone_value(&entries[i].1);
            proof {
                lemma_assoc_get_at(vabs_props(entries@), name@, i as int);
            }
            return Some(v);
        }
        i = i + 1;
    }
    proof {
        lemma_assoc_get_missing(vabs_props(entries@), name@);
    }
    None
}

/// Bind a key in an association vector, replacing the first existing
/// entry or appending a new one, exactly as `assoc_set` does on the
/// abstract view.  Key uniqueness and element well-formedness carry over.
pub(crate) fn assoc_store(entries: &mut Vec<(String, Value)>, name: String, value: Value)
    ensures
        vabs_props(final(entries)@) == assoc_set(vabs_props(old(entries)@), name@, vabs(value)),
        unique_keys(old(entries)@) ==> unique_keys(final(entries)@),
        (props_value_wf(old(entries)@) && value_wf(value)) ==> props_value_wf(
            final(entries)@,
        ),
{
    proof {
        lemma_vabs_props_index(old(entries)@);
        lemma_props_value_wf_index(old(entries)@);
    }
    let n = entries.len();
    let mut i: usize = 0;
    while i < n
        invariant
            i <= n,
            n == entries@.len(),
            entries@ == old(entries)@,
            forall|j: int| 0 <= j < i ==> (#[trigger] entries@[j]).0@ != name@,
            vabs_props(entries@).len() == n,
            forall|j: int|
                0 <= j < n ==> #[trigger] vabs_props(entries@)[j] == (
                    entries@[j].0@,
                    vabs(entries@[j].1),
                ),
            props_value_wf(entries@) ==> forall|j: int|
                0 <= j < n ==> value_wf((#[trigger] entries@[j]).1),
        decreases n - i,
    {
        if entries[i].0.eq(&name) {
            proof {
                lemma_assoc_set_at(vabs_props(entries@), name@, vabs(value), i as int);
                lemma_vabs_props_update(entries@, i as int, name, value);
            }
            entries.set(i, (name, value));
            proof {
                lemma_vabs_props_index(entries@);
                lemma_props_value_wf_index(entries@);
                lemma_props_value_wf_index(old(entries)@);
                assert(forall|j: int|
                    0 <= j < n && j != i ==> #[trigger] entries@[j] == old(entries)@[j]);
            }
            return ;
        }
        i = i + 1;
    }
    proof {
        lemma_assoc_set_missing(vabs_props(entries@), name@, vabs(value));
        lemma_vabs_props_push(entries@, name, value);
    }
    entries.push((name, value));
    proof {
        lemma_props_value_wf_index(entries@);
        lemma_props_value_wf_index(old(entries)@);
        assert(forall|j: int| 0 <= j < n ==> #[trigger] entries@[j] == old(entries)@[j]);
        if unique_keys(old(entries)@) {
            assert(forall|j: int| 0 <= j < n ==> (#[trigger] entries@[j]).0@ != name@);
            assert(unique_keys(entries@));
        }
    }
}

/// Compare two strings character by character.
fn compare_strings(a: &String, b: &String) -> (r: Ordering)
    ensures
        r == chars_cmp(a@, b@),
{
    let la = a.as_str().unicode_len();
    let lb = b.as_str().unicode_len();
    let mut i: usize = 0;
    while i < la && i < lb
        invariant
            la == a@.len(),
            lb == b@.len(),
            i <= la,
            i <= lb,
            forall|j: int| 0 <= j < i ==> a@[j] == b@[j],
        decreases la - i,
    {
        let ca = a.as_str().get_char(i);
        let cb = b.as_str().get_char(i);
        if ca < cb {
            proof {
                lemma_chars_cmp_skip(a@, b@, i as int);
            }
            return Ordering::Less;
        }
        if ca > cb {
            proof {
                lemma_chars_cmp_skip(a@, b@, i as int);
            }
            return Ordering::Greater;
        }
        i = i + 1;
    }
    proof {
        lemma_chars_cmp_skip(a@, b@, i as int);
    }
    if la == lb {
        Ordering::Equal
    } else if la < lb {
        Ordering::Less
    } else {
        Ordering::Greater
    }
}

/// With equal prefixes of length `i`, the comparison is decided by the
/// suffixes.
proof fn lemma_chars_cmp_skip(a: Seq<char>, b: Seq<char>, i: int)
    requires
        0 <= i <= a.len(),
        0 <= i <= b.len(),
        forall|j: int| 0 <= j < i ==> a[j] == b[j],
    ensures
        chars_cmp(a, b) == chars_cmp(
            a.subrange(i, a.len() as int),
            b.subrange(i, b.len() as int),
        ),
    decreases i,
{
    if i == 0 {
        assert(a.subrange(0, a.len() as int) =~= a);
        assert(b.subrange(0, b.len() as int) =~= b);
    } else {
        let ta = a.subrange(1, a.len() as int);
        let tb = b.subrange(1, b.len() as int);
        assert(a[0] == b[0]);
        assert(forall|j: int| 0 <= j < i - 1 ==> ta[j] == a[j + 1] && tb[j] == b[j + 1]);
        lemma_chars_cmp_skip(ta, tb, i - 1);
        assert(ta.subrange(i - 1, ta.len() as int) =~= a.subrange(i, a.len() as int));
        assert(tb.subrange(i - 1, tb.len() as int) =~= b.subrange(i, b.len() as int));
    }
}

use vstd::string::StringExecFns;
use vstd::string::StrSliceExecFns;

/// The outcome of one binary or unary value operation.
pub enum OpOutcome {
    /// The operation produced this value.
    Val(Value),
    /// The operation needs the host; the answer is used as the pending
    /// kind says.
    Ask(FloatReq, PendingKind),
    /// The operation failed.
    Bad(FlowError),
}

/// The abstract form of an operation outcome.
pub open spec fn op_abs(o: OpOutcome) -> OpSpec {
    match o {
        OpOutcome::Val(v) => OpSpec::Val(vabs(v)),
        OpOutcome::Ask(r, p) => OpSpec::Ask(freq_abs(r), p),
        OpOutcome::Bad(e) => OpSpec::Bad(e),
    }
}

/// Whether a produced value is well-formed.
pub open spec fn op_wf(o: OpOutcome) -> bool {
    match o {
        OpOutcome::Val(v) => value_wf(v),
        _ => true,
    }
}

/// Convert a big integer to a float operand for the host, failing when
/// it does not fit the two-limb window.
fn big_operand(b: &BigInt) -> (r: Option<FloatOperand>)
    requires
        b.wf(),
    ensures
        r == big_to_operand(b@),
{
    match b.to_i64() {
        Some(v) => Some(FloatOperand::Int(v)),
        None => None,
    }
}

/// Addition, with overflow promotion: `Integer + Integer` uses checked
/// 64-bit addition and retries at arbitrary precision on overflow.
pub fn add_values(a: &Value, b: &Value) -> (r: OpOutcome)
    requires
        value_wf(*a),
        value_wf(*b),
    ensures
        op_abs(r) == spec_add(vabs(*a), vabs(*b)),
        op_wf(r),
{
    match (a, b) {
        (Value::Integer(x), Value::Integer(y)) => {
            match x.checked_add(*y) {
                Some(sum) => OpOutcome::Val(Value::Integer(sum)),
                None => {
                    let big = BigInt::from_i64(*x).add(&BigInt::from_i64(*y));
                    OpOutcome::Val(Value::BigInteger(big))
                },
            }
        },
        (Value::BigInteger(x), Value::BigInteger(y)) => OpOutcome::Val(
            Value::BigInteger(x.add(y)),
        ),
        (Value::Integer(x), Value::BigInteger(y)) => OpOutcome::Val(
            Value::BigInteger(BigInt::from_i64(*x).add(y)),
        ),
        (Value::BigInteger(x), Value::Integer(y)) => OpOutcome::Val(
            Value::BigInteger(x.add(&BigInt::from_i64(*y))),
        ),
        (Value::Float(x), Value::Float(y)) => OpOutcome::Ask(
            FloatReq::Arith {
                op: FloatBinOp::Add,
                a: FloatOperand::Bits(*x),
                b: FloatOperand::Bits(*y),
            },
            PendingKind::PushFloatBits,
        ),
        (Value::Integer(x), Value::Float(y)) => OpOutcome::Ask(
            FloatReq::Arith {
                op: FloatBinOp::Add,
                a: FloatOperand::Int(*x),
                b: FloatOperand::Bits(*y),
            },
            PendingKind::PushFloatBits,
        ),
        (Value::Float(x), Value::Integer(y)) => OpOutcome::Ask(
            FloatReq::Arith {
                op: FloatBinOp::Add,
                a: FloatOperand::Bits(*x),
                b: FloatOperand::Int(*y),
            },
            PendingKind::PushFloatBits,
        ),
        (Value::BigInteger(x), Value::Float(y)) => {
            match big_operand(x) {
                Some(op_a) => OpOutcome::Ask(
                    FloatReq::Arith {
                        op: FloatBinOp::Add,
                        a: op_a,
                        b: FloatOperand::Bits(*y),
                    },
                    PendingKind::PushFloatBits,
                ),
                None => OpOutcome::Bad(FlowError::TypeError),
            }
        },
        (Value::Float(x), Value::BigInteger(y)) => {
            match big_operand(y) {
                Some(op_b) => OpOutcome::Ask(
                    FloatReq::Arith {
                        op: FloatBinOp::Add,
                        a: FloatOperand::Bits(*x),
                        b: op_b,
                    },
                    PendingKind::PushFloatBits,
                ),
                None => OpOutcome::Bad(FlowError::TypeError),
            }
        },
        (Value::String(x), Value::String(y)) => OpOutcome::Val(
            Value::String(x.clone().concat(y.as_str())),
        ),
        _ => OpOutcome::Bad(FlowError::TypeError),
    }
}

/// Subtraction, with the same overflow promotion as addition.
pub fn subtract_values(a: &Value, b: &Value) -> (r: OpOutcome)
    requires
        value_wf(*a),
        value_wf(*b),
    ensures
        op_abs(r) == spec_sub(vabs(*a), vabs(*b)),
        op_wf(r),
{
    match (a, b) {
        (Value::Integer(x), Value::Integer(y)) => {
            match x.checked_sub(*y) {
                Some(d) => OpOutcome::Val(Value::Integer(d)),
                None => {
                    let big = BigInt::from_i64(*x).sub(&BigInt::from_i64(*y));
                    OpOutcome::Val(Value::BigInteger(big))
                },
            }
        },
        (Value::BigInteger(x), Value::BigInteger(y)) => OpOutcome::Val(
            Value::BigInteger(x.sub(y)),
        ),
        (Value::Integer(x), Value::BigInteger(y)) => OpOutcome::Val(
            Value::BigInteger(BigInt::from_i64(*x).sub(y)),
        ),
        (Value::BigInteger(x), Value::Integer(y)) => OpOutcome::Val(
            Value::BigInteger(x.sub(&BigInt::from_i64(*y))),
        ),
        (Value::Float(x), Value::Float(y)) => OpOutcome::Ask(
            FloatReq::Arith {
                op: FloatBinOp::Sub,
                a: FloatOperand::Bits(*x),
                b: FloatOperand::Bits(*y),
            },
            PendingKind::PushFloatBits,
        ),
        (Value::Integer(x), Value::Float(y)) => OpOutcome::Ask(
            FloatReq::Arith {
                op: FloatBinOp::Sub,
                a: FloatOperand::Int(*x),
                b: FloatOperand::Bits(*y),
            },
            PendingKind::PushFloatBits,
        ),
        (Value::Float(x), Value::Integer(y)) => OpOutcome::Ask(
            FloatReq::Arith {
                op: FloatBinOp::Sub,
                a: FloatOperand::Bits(*x),
                b: FloatOperand::Int(*y),
            },
            PendingKind::PushFloatBits,
        ),
        _ => OpOutcome::Bad(FlowError::TypeError),
    }
}

/// Multiplication, with the same overflow promotion as addition.
pub fn multiply_values(a: &Value, b: &Value) -> (r: OpOutcome)
    requires
        value_wf(*a),
        value_wf(*b),
    ensures
        op_abs(r) == spec_mul(vabs(*a), vabs(*b)),
        op_wf(r),
{
    match (a, b) {
        (Value::Integer(x), Value::Integer(y)) => {
            match x.checked_mul(*y) {
                Some(p) => OpOutcome::Val(Value::Integer(p)),
                None => {
                    let big = BigInt::from_i64(*x).mul(&BigInt::from_i64(*y));
                    OpOutcome::Val(Value::BigInteger(big))
                },
            }
        },
        (Value::BigInteger(x), Value::BigInteger(y)) => OpOutcome::Val(
            Value::BigInteger(x.mul(y)),
        ),
        (Value::Integer(x), Value::BigInteger(y)) => OpOutcome::Val(
            Value::BigInteger(BigInt::from_i64(*x).mul(y)),
        ),
        (Value::BigInteger(x), Value::Integer(y)) => OpOutcome::Val(
            Value::BigInteger(x.mul(&BigInt::from_i64(*y))),
        ),
        (Value::Float(x), Value::Float(y)) => OpOutcome::Ask(
            FloatReq::Arith {
                op: FloatBinOp::Mul,
                a: FloatOperand::Bits(*x),
                b: FloatOperand::Bits(*y),
            },
            PendingKind::PushFloatBits,
        ),
        (Value::Integer(x), Value::Float(y)) => OpOutcome::Ask(
            FloatReq::Arith {
                op: FloatBinOp::Mul,
                a: FloatOperand::Int(*x),
                b: FloatOperand::Bits(*y),
            },
            PendingKind::PushFloatBits,
        ),
        (Value::Float(x), Value::Integer(y)) => OpOutcome::Ask(
            FloatReq::Arith {
                op: FloatBinOp::Mul,
                a: FloatOperand::Bits(*x),
                b: FloatOperand::Int(*y),
            },
            PendingKind::PushFloatBits,
        ),
        (Value::BigInteger(x), Value::Float(y)) => {
            match big_operand(x) {
                Some(op_a) => OpOutcome::Ask(
                    FloatReq::Arith {
                        op: FloatBinOp::Mul,
                        a: op_a,
                        b: FloatOperand::Bits(*y),
                    },
                    PendingKind::PushFloatBits,
                ),
                None => OpOutcome::Bad(FlowError::TypeError),
            }
        },
        (Value::Float(x), Value::BigInteger(y)) => {
            match big_operand(y) {
                Some(op_b) => OpOutcome::Ask(
                    FloatReq::Arith {
                        op: FloatBinOp::Mul,
                        a: FloatOperand::Bits(*x),
                        b: op_b,
                    },
                    PendingKind::PushFloatBits,
                ),
                None => OpOutcome::Bad(FlowError::TypeError),
            }
        },
        _ => OpOutcome::Bad(FlowError::TypeError),
    }
}

/// Division: integer over integer always becomes a float computed by the
/// host; a zero divisor fails first.
pub fn divide_values(a: &Value, b: &Value) -> (r: OpOutcome)
    requires
        value_wf(*a),
        value_wf(*b),
    ensures
        op_abs(r) == spec_div(vabs(*a), vabs(*b)),
        op_wf(r),
{
    match (a, b) {
        (Value::Integer(x), Value::Integer(y)) => {
            if *y == 0 {
                OpOutcome::Bad(FlowError::DivisionByZero)
            } else {
                OpOutcome::Ask(
                    FloatReq::Arith {
                        op: FloatBinOp::Div,
                        a: FloatOperand::Int(*x),
                        b: FloatOperand::Int(*y),
                    },
                    PendingKind::PushFloatBits,
                )
            }
        },
        (Value::Float(x), Value::Float(y)) => {
            if *y == 0 || *y == 0x8000_0000_0000_0000 {
                OpOutcome::Bad(FlowError::DivisionByZero)
            } else {
                OpOutcome::Ask(
                    FloatReq::Arith {
                        op: FloatBinOp::Div,
                        a: FloatOperand::Bits(*x),
                        b: FloatOperand::Bits(*y),
                    },
                    PendingKind::PushFloatBits,
                )
            }
        },
        (Value::Integer(x), Value::Float(y)) => {
            if *y == 0 || *y == 0x8000_0000_0000_0000 {
                OpOutcome::Bad(FlowError::DivisionByZero)
            } else {
                OpOutcome::Ask(
                    FloatReq::Arith {
                        op: FloatBinOp::Div,
                        a: FloatOperand::Int(*x),
                        b: FloatOperand::Bits(*y),
                    },
                    PendingKind::PushFloatBits,
                )
            }
        },
        (Value::Float(x), Value::Integer(y)) => {
            if *y == 0 {
                OpOutcome::Bad(FlowError::DivisionByZero)
            } else {
                OpOutcome::Ask(
                    FloatReq::Arith {
                        op: FloatBinOp::Div,
                        a: FloatOperand::Bits(*x),
                        b: FloatOperand::Int(*y),
                    },
                    PendingKind::PushFloatBits,
                )
            }
        },
        _ => OpOutcome::Bad(FlowError::TypeError),
    }
}

/// Modulo: machine integers only, truncating toward zero, failing on a
/// zero divisor.
pub fn modulo_values(a: &Value, b: &Value) -> (r: OpOutcome)
    requires
        value_wf(*a),
        value_wf(*b),
    ensures
        op_abs(r) == spec_mod(vabs(*a), vabs(*b)),
        op_wf(r),
{
    match (a, b) {
        (Value::Integer(x), Value::Integer(y)) => {
            if *y == 0 {
                OpOutcome::Bad(FlowError::DivisionByZero)
            } else {
                let mag_x: u64 = if *x == i64::MIN {
                    9223372036854775808u64
                } else if *x < 0 {
                    (-*x) as u64
                } else {
                    *x as u64
                };
                let mag_y: u64 = if *y == i64::MIN {
                    9223372036854775808u64
                } else if *y < 0 {
                    (-*y) as u64
                } else {
                    *y as u64
                };
                let m = mag_x % mag_y;
                let rem: i64 = if *x < 0 {
                    -(m as i64)
                } else {
                    m as i64
                };
                proof {
                    assert(m < mag_y || mag_y == 0);
                    assert(m <= 9223372036854775807u64 || mag_y == 9223372036854775808u64);
                    assert(rem as int == truncated_rem(*x as int, *y as int));
                }
                OpOutcome::Val(Value::Integer(rem))
            }
        },
        _ => OpOutcome::Bad(FlowError::TypeError),
    }
}

/// The equality test.
pub fn equal_values(a: &Value, b: &Value) -> (r: OpOutcome)
    requires
        value_wf(*a),
        value_wf(*b),
    ensures
        op_abs(r) == spec_equal(vabs(*a), vabs(*b)),
        op_wf(r),
{
    match (a, b) {
        (Value::Integer(x), Value::Integer(y)) => OpOutcome::Val(Value::Boolean(*x == *y)),
        (Value::Float(x), Value::Float(y)) => OpOutcome::Ask(
            FloatReq::ApproxEq { a: FloatOperand::Bits(*x), b: FloatOperand::Bits(*y) },
            PendingKind::PushBool,
        ),
        (Value::Integer(x), Value::Float(y)) => OpOutcome::Ask(
            FloatReq::ApproxEq { a: FloatOperand::Int(*x), b: FloatOperand::Bits(*y) },
            PendingKind::PushBool,
        ),
        (Value::Float(x), Value::Integer(y)) => OpOutcome::Ask(
            FloatReq::ApproxEq { a: FloatOperand::Bits(*x), b: FloatOperand::Int(*y) },
            PendingKind::PushBool,
        ),
        (Value::String(x), Value::String(y)) => OpOutcome::Val(Value::Boolean(x.eq(y))),
        (Value::Boolean(x), Value::Boolean(y)) => OpOutcome::Val(Value::Boolean(*x == *y)),
        (Value::Null, Value::Null) => OpOutcome::Val(Value::Boolean(true)),
        _ => OpOutcome::Val(Value::Boolean(false)),
    }
}

/// The four ordering comparisons.
pub fn compare_values(op: FloatCmpOp, a: &Value, b: &Value) -> (r: OpOutcome)
    requires
        value_wf(*a),
        value_wf(*b),
    ensures
        op_abs(r) == spec_compare(op, vabs(*a), vabs(*b)),
        op_wf(r),
{
    match (a, b) {
        (Value::Integer(x), Value::Integer(y)) => {
            let holds = match op {
                FloatCmpOp::Less => *x < *y,
                FloatCmpOp::LessEqual => *x <= *y,
                FloatCmpOp::Greater => *x > *y,
                FloatCmpOp::GreaterEqual => *x >= *y,
            };
            OpOutcome::Val(Value::Boolean(holds))
        },
        (Value::String(x), Value::String(y)) => {
            let o = compare_strings(x, y);
            let holds = match op {
                FloatCmpOp::Less => matches!(o, Ordering::Less),
                FloatCmpOp::LessEqual => !matches!(o, Ordering::Greater),
                FloatCmpOp::Greater => matches!(o, Ordering::Greater),
                FloatCmpOp::GreaterEqual => !matches!(o, Ordering::Less),
            };
            OpOutcome::Val(Value::Boolean(holds))
        },
        (Value::Float(x), Value::Float(y)) => OpOutcome::Ask(
            FloatReq::Compare { op, a: FloatOperand::Bits(*x), b: FloatOperand::Bits(*y) },
            PendingKind::PushBool,
        ),
        (Value::Integer(x), Value::Float(y)) => OpOutcome::Ask(
            FloatReq::Compare { op, a: FloatOperand::Int(*x), b: FloatOperand::Bits(*y) },
            PendingKind::PushBool,
        ),
        (Value::Float(x), Value::Integer(y)) => OpOutcome::Ask(
            FloatReq::Compare { op, a: FloatOperand::Bits(*x), b: FloatOperand::Int(*y) },
            PendingKind::PushBool,
        ),
        _ => OpOutcome::Bad(FlowError::TypeError),
    }
}

/// Unary negation: exact on integers, a sign-bit flip on floats.
pub fn negate_value(a: &Value) -> (r: OpOutcome)
    requires
        value_wf(*a),
    ensures
        op_abs(r) == spec_negate(vabs(*a)),
        op_wf(r),
{
    match a {
        Value::Integer(x) => {
            if *x == i64::MIN {
                let big = BigInt::new().sub(&BigInt::from_i64(*x));
                OpOutcome::Val(Value::BigInteger(big))
            } else {
                OpOutcome::Val(Value::Integer(-*x))
            }
        },
        Value::Float(bits) => OpOutcome::Val(Value::Float(*bits ^ 0x8000_0000_0000_0000)),
        _ => OpOutcome::Bad(FlowError::TypeError),
    }
}

/// Compare a string against a literal, character by character.
pub(crate) fn str_eq_lit(a: &str, b: &str) -> (r: bool)
    ensures
        r == (a@ == b@),
{
    let la = a.unicode_len();
    let lb = b.unicode_len();
    if la != lb {
        proof {
            assert(a@ != b@) by {
                assert(a@.len() != b@.len());
            }
        }
        return false;
    }
    let mut i: usize = 0;
    while i < la
        invariant
            la == a@.len(),
            la == b@.len(),
            i <= la,
            forall|j: int| 0 <= j < i ==> a@[j] == b@[j],
        decreases la - i,
    {
        if a.get_char(i) != b.get_char(i) {
            return false;
        }
        i = i + 1;
    }
    proof {
        assert(a@ =~= b@);
    }
    true
}

/// The result `run` hands back to its caller.
#[derive(Debug, PartialEq)]
pub enum RunSignal {
    /// The program halted or ran out of instructions.
    Done,
    /// The machine suspended; answer the request and run again.
    NeedHost(FloatReq),
    /// The step budget was exhausted; run again to continue.
    StillRunning,
}

/// What one call of `step` produced.
pub enum StepOutcome {
    Continue,
    Done,
    NeedHost(FloatReq),
}

/// The virtual machine.
pub struct VirtualMachine {
    pub stack: Vec<Value>,
    pub call_stack: Vec<Frame>,
    pub chunks: Vec<Chunk>,
    pub current_chunk: usize,
    pub instruction_pointer: usize,
    pub globals: Vec<(String, Value)>,
    pub output: Vec<OutputEntry>,
    pub pending: Option<PendingKind>,
}

pub open spec fn chunk_model(c: Chunk) -> ChunkModel {
    ChunkModel { code: c.instructions@, consts: vabs_seq(c.constants@) }
}

pub open spec fn prog_model(cs: Seq<Chunk>) -> Seq<ChunkModel> {
    Seq::new(cs.len(), |i: int| chunk_model(cs[i]))
}

pub open spec fn frame_model(f: Frame) -> FrameModel {
    FrameModel {
        locals: vabs_seq(f.locals@),
        return_chunk: f.return_chunk as int,
        return_ip: f.return_ip as int,
        stack_base: f.stack_base as int,
    }
}

pub open spec fn frames_model(fs: Seq<Frame>) -> Seq<FrameModel> {
    Seq::new(fs.len(), |i: int| frame_model(fs[i]))
}

pub open spec fn output_model(os: Seq<OutputEntry>) -> Seq<(ValueModel, bool)> {
    Seq::new(os.len(), |i: int| (vabs(os[i].value), os[i].newline))
}

/// The abstract state of the machine.
pub open spec fn vm_model(vm: VirtualMachine) -> VmState {
    VmState {
        chunk: vm.current_chunk as int,
        ip: vm.instruction_pointer as int,
        stack: vabs_seq(vm.stack@),
        frames: frames_model(vm.call_stack@),
        globals: vabs_props(vm.globals@),
        output: output_model(vm.output@),
    }
}

/// Every value the machine holds is well-formed.
pub open spec fn vm_wf(vm: VirtualMachine) -> bool {
    &&& forall|i: int| 0 <= i < vm.stack@.len() ==> value_wf(#[trigger] vm.stack@[i])
    &&& forall|i: int|
        0 <= i < vm.globals@.len() ==> value_wf((#[trigger] vm.globals@[i]).1)
    &&& forall|i: int, j: int|
        0 <= i < vm.call_stack@.len() && 0 <= j < vm.call_stack@[i].locals@.len()
            ==> value_wf(#[trigger] vm.call_stack@[i].locals@[j])
    &&& forall|i: int, j: int|
        0 <= i < vm.chunks@.len() && 0 <= j < vm.chunks@[i].constants@.len() ==> value_wf(
            #[trigger] vm.chunks@[i].constants@[j],
        )
}

/// After popping the count, truncating away the arguments and pushing
/// one result, the stack views to the suspended model stack plus the
/// result.
proof fn builtin_push_helper(olds: Seq<Value>, news: Seq<Value>, base: int, v: Value)
    requires
        olds.len() >= 1,
        0 <= base <= olds.len() - 1,
        news == olds.drop_last().subrange(0, base).push(v),
    ensures
        vabs_seq(news) == vabs_seq(olds).drop_last().subrange(0, base).push(vabs(v)),
{
    lemma_vabs_seq_index(olds);
    lemma_vabs_seq_index(news);
    assert forall|j: int| 0 <= j < news.len() implies vabs_seq(news)[j] == vabs_seq(
        olds,
    ).drop_last().subrange(0, base).push(vabs(v))[j] by {
        assert(vabs_seq(news)[j] == vabs(news[j]));
        if j < base {
            assert(news[j] == olds[j]);
            assert(vabs_seq(olds)[j] == vabs(olds[j]));
        } else {
            assert(news[j] == v);
        }
    }
    assert(vabs_seq(news) =~= vabs_seq(olds).drop_last().subrange(0, base).push(vabs(v)));
}

/// A value sequence views to exactly the model sequence that agrees with
/// it pointwise.
proof fn lemma_vabs_eq_pointwise(a: Seq<Value>, b: Seq<ValueModel>)
    requires
        b.len() == a.len(),
        forall|j: int| 0 <= j < a.len() ==> vabs(#[trigger] a[j]) == b[j],
    ensures
        vabs_seq(a) == b,
{
    lemma_vabs_seq_index(a);
    assert forall|j: int| 0 <= j < a.len() implies vabs_seq(a)[j] == b[j] by {
        assert(vabs_seq(a)[j] == vabs(a[j]));
    }
    assert(vabs_seq(a) =~= b);
}

/// Dropping the last element commutes with the element-wise view.
proof fn lemma_vabs_drop_last(s: Seq<Value>)
    requires
        s.len() >= 1,
    ensures
        vabs_seq(s.drop_last()) == vabs_seq(s).drop_last(),
{
    lemma_vabs_seq_subrange(s, 0, s.len() - 1);
    assert(s.drop_last() =~= s.subrange(0, s.len() - 1));
    lemma_vabs_seq_index(s);
    assert(vabs_seq(s).drop_last() =~= vabs_seq(s).subrange(0, s.len() - 1));
}

/// After truncating the stack to `base` and pushing one result, relate
/// the new stack view to the old one.
proof fn commit_stack_facts(olds: Seq<Value>, news: Seq<Value>, base: int, pushed: Value)
    requires
        0 <= base <= olds.len(),
        news == olds.subrange(0, base).push(pushed),
    ensures
        vabs_seq(news) == vabs_seq(olds).take(base).push(vabs(pushed)),
{
    lemma_vabs_seq_index(olds);
    lemma_vabs_seq_subrange(olds, 0, base);
    lemma_vabs_seq_push(olds.subrange(0, base), pushed);
    assert(vabs_seq(news) =~= vabs_seq(olds).take(base).push(vabs(pushed)));
}

/// After truncating the stack to `base`, relate the views.
proof fn commit_stack_only_facts(olds: Seq<Value>, news: Seq<Value>, base: int)
    requires
        0 <= base <= olds.len(),
        news == olds.subrange(0, base),
    ensures
        vabs_seq(news) == vabs_seq(olds).take(base),
{
    lemma_vabs_seq_index(olds);
    lemma_vabs_seq_subrange(olds, 0, base);
    assert(vabs_seq(news) =~= vabs_seq(olds).take(base));
}

/// After popping two operands (and possibly pushing a result), relate
/// the new stack view to the old one.
proof fn binary_stack_facts(olds: Seq<Value>, news: Seq<Value>, pushed: Option<Value>)
    requires
        olds.len() >= 2,
        match pushed {
            Some(v) => news == olds.drop_last().drop_last().push(v),
            None => news == olds.drop_last().drop_last(),
        },
    ensures
        match pushed {
            Some(v) => vabs_seq(news) == vabs_seq(olds).drop_last().drop_last().push(
                vabs(v),
            ),
            None => vabs_seq(news) == vabs_seq(olds).drop_last().drop_last(),
        },
{
    lemma_vabs_seq_index(olds);
    assert(olds.drop_last().drop_last() =~= olds.subrange(0, olds.len() - 2));
    lemma_vabs_seq_subrange(olds, 0, olds.len() - 2);
    assert(vabs_seq(olds).drop_last().drop_last() =~= vabs_seq(olds).subrange(
        0,
        olds.len() - 2,
    ));
    match pushed {
        Some(v) => {
            lemma_vabs_seq_push(olds.subrange(0, olds.len() - 2), v);
            assert(news =~= olds.subrange(0, olds.len() - 2).push(v));
            assert(vabs_seq(news) =~= vabs_seq(olds).drop_last().drop_last().push(
                vabs(v),
            ));
        },
        None => {
            assert(vabs_seq(news) =~= vabs_seq(olds).drop_last().drop_last());
        },
    }
}

impl VirtualMachine {
    /// Execute one instruction.  The result and the new state are exactly
    /// what `spec_step` yields on the abstract view of the old state.
    #[verifier::rlimit(100)]
    pub fn step(&mut self) -> (r: Result<StepOutcome, FlowError>)
        requires
            vm_wf(*old(self)),
            old(self).pending is None,
        ensures
            final(self).chunks@ == old(self).chunks@,
            match r {
                Ok(StepOutcome::Continue) => {
                    &&& spec_step(prog_model(old(self).chunks@), vm_model(*old(self)))
                        == StepResult::Next(vm_model(*final(self)))
                    &&& vm_wf(*final(self))
                    &&& final(self).pending is None
                },
                Ok(StepOutcome::Done) => {
                    &&& spec_step(prog_model(old(self).chunks@), vm_model(*old(self)))
                        == StepResult::Done(vm_model(*final(self)))
                    &&& vm_wf(*final(self))
                    &&& final(self).pending is None
                },
                Ok(StepOutcome::NeedHost(req)) => {
                    &&& match spec_step(
                        prog_model(old(self).chunks@),
                        vm_model(*old(self)),
                    ) {
                        StepResult::Ask(s2, rm, p) => vm_model(*final(self)) == s2
                            && freq_abs(req) == rm && final(self).pending == Some(p),
                        _ => false,
                    }
                    &&& vm_wf(*final(self))
                },
                Err(e) => {
                    &&& spec_step(prog_model(old(self).chunks@), vm_model(*old(self)))
                        == StepResult::Fail(err_abs(e))
                    &&& vm_model(*final(self)) == vm_model(*old(self))
                    &&& vm_wf(*final(self))
                    &&& final(self).pending is None
                },
            },
    {
        let ghost m0 = vm_model(*old(self));
        let ghost prog = prog_model(old(self).chunks@);
        let cc = self.current_chunk;
        if cc >= self.chunks.len() {
            return Err(FlowError::IndexOutOfBounds);
        }
        let ip = self.instruction_pointer;
        proof {
            assert(prog[cc as int] == chunk_model(old(self).chunks@[cc as int]));
            lemma_vabs_seq_index(old(self).chunks@[cc as int].constants@);
            lemma_vabs_seq_index(old(self).stack@);
        }
        if ip >= self.chunks[cc].instructions.len() {
            return Ok(StepOutcome::Done);
        }
        let n_stack = self.stack.len();
        match &self.chunks[cc].instructions[ip] {
            Instruction::LoadConstant(k) => {
                let k = *k;
                if k >= self.chunks[cc].constants.len() {
                    return Err(FlowError::IndexOutOfBounds);
                }
                let v = clone_value(&self.chunks[cc].constants[k]);
                self.stack.push(v);
                self.instruction_pointer = ip + 1;
                proof {
                    lemma_vabs_seq_push(old(self).stack@, v);
                    assert(vm_model(*self) =~~= VmState {
                        ip: ip + 1,
                        stack: m0.stack.push(prog[cc as int].consts[k as int]),
                        ..m0
                    });
                }
                Ok(StepOutcome::Continue)
            },
            Instruction::LoadLocal(k) => {
                let k = *k;
                if self.call_stack.len() == 0 {
                    return Err(FlowError::StackUnderflow);
                }
                let fi = self.call_stack.len() - 1;
                proof {
                    lemma_vabs_seq_index(self.call_stack@[fi as int].locals@);
                    assert(m0.frames.last() == frame_model(
                        old(self).call_stack@[fi as int],
                    ));
                }
                if k >= self.call_stack[fi].locals.len() {
                    return Err(FlowError::IndexOutOfBounds);
                }
                let v = clone_value(&self.call_stack[fi].locals[k]);
                self.stack.push(v);
                self.instruction_pointer = ip + 1;
                proof {
                    lemma_vabs_seq_push(old(self).stack@, v);
                    lemma_vabs_seq_index(old(self).call_stack@[fi as int].locals@);
                    assert(m0.frames.last() == frame_model(old(self).call_stack@[fi as int]));
                    assert(vm_model(*self) =~~= VmState {
                        ip: ip + 1,
                        stack: m0.stack.push(m0.frames.last().locals[k as int]),
                        ..m0
                    });
                }
                Ok(StepOutcome::Continue)
            },
            Instruction::StoreLocal(k) => {
                let k = *k;
                if self.stack.len() == 0 {
                    return Err(FlowError::StackUnderflow);
                }
                if self.call_stack.len() == 0 {
                    return Err(FlowError::StackUnderflow);
                }
                let fi = self.call_stack.len() - 1;
                proof {
                    assert(m0.frames.last() == frame_model(
                        old(self).call_stack@[fi as int],
                    ));
                    lemma_vabs_seq_index(old(self).call_stack@[fi as int].locals@);
                }
                if k > self.call_stack[fi].locals.len() {
                    return Err(FlowError::IndexOutOfBounds);
                }
                let v = self.stack.pop().unwrap();
                let mut f = self.call_stack.pop().unwrap();
                let ghost f0 = f;
                proof {
                    assert(m0.frames.last() == frame_model(f0));
                    lemma_vabs_seq_index(f0.locals@);
                    lemma_vabs_drop_last(old(self).stack@);
                }
                if k < f.locals.len() {
                    f.locals.set(k, v);
                    proof {
                        lemma_vabs_seq_update(f0.locals@, k as int, v);
                    }
                } else {
                    f.locals.push(v);
                    proof {
                        lemma_vabs_seq_push(f0.locals@, v);
                    }
                }
                self.call_stack.push(f);
                self.instruction_pointer = ip + 1;
                proof {
                    let fm2 = frame_model(f);
                    assert(self.stack@ =~= old(self).stack@.drop_last());
                    assert(vabs_seq(self.stack@) =~= m0.stack.drop_last());
                    assert(frames_model(self.call_stack@) =~~= m0.frames.update(
                        m0.frames.len() - 1,
                        fm2,
                    ));
                    assert(vm_model(*self) =~~= VmState {
                        ip: ip + 1,
                        stack: m0.stack.drop_last(),
                        frames: m0.frames.update(m0.frames.len() - 1, fm2),
                        ..m0
                    });
                }
                Ok(StepOutcome::Continue)
            },
            Instruction::LoadGlobal(name) => {
                proof {
                    crate::value::lemma_props_value_wf_index(self.globals@);
                }
                match assoc_lookup(&self.globals, name) {
                    Some(v) => {
                        self.stack.push(v);
                        self.instruction_pointer = ip + 1;
                        proof {
                            lemma_vabs_seq_push(old(self).stack@, v);
                            assert(vm_model(*self) =~~= VmState {
                                ip: ip + 1,
                                stack: m0.stack.push(vabs(v)),
                                ..m0
                            });
                        }
                        Ok(StepOutcome::Continue)
                    },
                    None => Err(FlowError::UndefinedVariable { name: name.clone() }),
                }
            },
            Instruction::StoreGlobal(name) => {
                if self.stack.len() == 0 {
                    return Err(FlowError::StackUnderflow);
                }
                let v = self.stack.pop().unwrap();
                let key = name.clone();
                assoc_store(&mut self.globals, key, v);
                self.instruction_pointer = ip + 1;
                proof {
                    crate::value::lemma_props_value_wf_index(old(self).globals@);
                    crate::value::lemma_props_value_wf_index(self.globals@);
                    lemma_vabs_drop_last(old(self).stack@);
                    assert(self.stack@ =~= old(self).stack@.drop_last());
                    assert(vabs_seq(self.stack@) =~= m0.stack.drop_last());
                    assert(vm_model(*self) =~~= VmState {
                        ip: ip + 1,
                        stack: m0.stack.drop_last(),
                        globals: assoc_set(m0.globals, key@, m0.stack.last()),
                        ..m0
                    });
                }
                Ok(StepOutcome::Continue)
            },
            Instruction::Duplicate => {
                if self.stack.len() == 0 {
                    return Err(FlowError::StackUnderflow);
                }
                let v = clone_value(&self.stack[n_stack - 1]);
                self.stack.push(v);
                self.instruction_pointer = ip + 1;
                proof {
                    lemma_vabs_seq_push(old(self).stack@, v);
                    assert(vm_model(*self) =~~= VmState {
                        ip: ip + 1,
                        stack: m0.stack.push(m0.stack.last()),
                        ..m0
                    });
                }
                Ok(StepOutcome::Continue)
            },
            Instruction::Pop => {
                if self.stack.len() == 0 {
                    return Err(FlowError::StackUnderflow);
                }
                self.stack.pop().unwrap();
                self.instruction_pointer = ip + 1;
                proof {
                    lemma_vabs_drop_last(old(self).stack@);
                    assert(self.stack@ =~= old(self).stack@.drop_last());
                    assert(vabs_seq(self.stack@) =~= m0.stack.drop_last());
                    assert(vm_model(*self) =~~= VmState {
                        ip: ip + 1,
                        stack: m0.stack.drop_last(),
                        ..m0
                    });
                }
                Ok(StepOutcome::Continue)
            },
            Instruction::Swap => {
                if self.stack.len() < 2 {
                    return Err(FlowError::StackUnderflow);
                }
                let b = self.stack.pop().unwrap();
                let a = self.stack.pop().unwrap();
                self.stack.push(b);
                self.stack.push(a);
                self.instruction_pointer = ip + 1;
                proof {
                    let n = m0.stack.len() as int;
                    lemma_vabs_seq_subrange(old(self).stack@, 0, n - 2);
                    lemma_vabs_seq_push(old(self).stack@.subrange(0, n - 2), b);
                    lemma_vabs_seq_push(old(self).stack@.subrange(0, n - 2).push(b), a);
                    assert(self.stack@ =~= old(self).stack@.subrange(0, n - 2).push(b).push(
                        a,
                    ));
                    assert(vabs_seq(self.stack@) =~= m0.stack.update(n - 1, m0.stack[n - 2])
                        .update(n - 2, m0.stack[n - 1]));
                    assert(vm_model(*self) =~~= VmState {
                        ip: ip + 1,
                        stack: m0.stack.update(n - 1, m0.stack[n - 2]).update(
                            n - 2,
                            m0.stack[n - 1],
                        ),
                        ..m0
                    });
                }
                Ok(StepOutcome::Continue)
            },
            Instruction::Add
            | Instruction::Subtract
            | Instruction::Multiply
            | Instruction::Divide
            | Instruction::Modulo
            | Instruction::Equal
            | Instruction::NotEqual
            | Instruction::Less
            | Instruction::LessEqual
            | Instruction::Greater
            | Instruction::GreaterEqual
            | Instruction::Not
            | Instruction::Negate => self.step_ops(Ghost(m0), Ghost(prog)),
            Instruction::Jump(t) => {
                self.instruction_pointer = *t;
                proof {
                    assert(vm_model(*self) =~~= VmState { ip: *t as int, ..m0 });
                }
                Ok(StepOutcome::Continue)
            },
            Instruction::JumpIfFalse(t) => {
                if self.stack.len() == 0 {
                    return Err(FlowError::StackUnderflow);
                }
                let v = self.stack.pop().unwrap();
                let truthy = v.is_truthy();
                if !truthy {
                    self.instruction_pointer = *t;
                } else {
                    self.instruction_pointer = ip + 1;
                }
                proof {
                    lemma_vabs_drop_last(old(self).stack@);
                    assert(self.stack@ =~= old(self).stack@.drop_last());
                    assert(vabs_seq(self.stack@) =~= m0.stack.drop_last());
                    if !truthy {
                        assert(vm_model(*self) =~~= VmState {
                            ip: *t as int,
                            stack: m0.stack.drop_last(),
                            ..m0
                        });
                    } else {
                        assert(vm_model(*self) =~~= VmState {
                            ip: ip + 1,
                            stack: m0.stack.drop_last(),
                            ..m0
                        });
                    }
                }
                Ok(StepOutcome::Continue)
            },
            Instruction::JumpIfTrue(t) => {
                if self.stack.len() == 0 {
                    return Err(FlowError::StackUnderflow);
                }
                let v = self.stack.pop().unwrap();
                let truthy = v.is_truthy();
                if truthy {
                    self.instruction_pointer = *t;
                } else {
                    self.instruction_pointer = ip + 1;
                }
                proof {
                    lemma_vabs_drop_last(old(self).stack@);
                    assert(self.stack@ =~= old(self).stack@.drop_last());
                    assert(vabs_seq(self.stack@) =~= m0.stack.drop_last());
                    if truthy {
                        assert(vm_model(*self) =~~= VmState {
                            ip: *t as int,
                            stack: m0.stack.drop_last(),
                            ..m0
                        });
                    } else {
                        assert(vm_model(*self) =~~= VmState {
                            ip: ip + 1,
                            stack: m0.stack.drop_last(),
                            ..m0
                        });
                    }
                }
                Ok(StepOutcome::Continue)
            },
            Instruction::Halt => {
                self.instruction_pointer = ip + 1;
                proof {
                    assert(vm_model(*self) =~~= VmState { ip: ip + 1, ..m0 });
                }
                Ok(StepOutcome::Done)
            },
            _ => {
                // Remaining instruction groups are handled out of line.
                self.step_rest(Ghost(m0), Ghost(prog))
            },
        }
    }
}

/// Negate a boolean outcome, as the inequality instruction requires.
fn negate_outcome(out: OpOutcome) -> (r: OpOutcome)
    requires
        op_wf(out),
    ensures
        op_abs(r) == negate_eq(op_abs(out)),
        op_wf(r),
{
    match out {
        OpOutcome::Val(Value::Boolean(b)) => OpOutcome::Val(Value::Boolean(!b)),
        OpOutcome::Ask(req, PendingKind::PushBool) => OpOutcome::Ask(
            req,
            PendingKind::PushBoolNegated,
        ),
        other => other,
    }
}

impl VirtualMachine {
    /// The call, return, composite-value, builtin and output instructions
    /// of `step`, handled out of line.
    #[verifier::rlimit(100)]
    fn step_rest(&mut self, Ghost(m0): Ghost<VmState>, Ghost(prog): Ghost<Seq<ChunkModel>>)
        -> (r: Result<StepOutcome, FlowError>)
        requires
            vm_wf(*old(self)),
            old(self).pending is None,
            m0 == vm_model(*old(self)),
            prog == prog_model(old(self).chunks@),
            0 <= m0.chunk < prog.len(),
            0 <= m0.ip < prog[m0.chunk].code.len(),
            match prog[m0.chunk].code[m0.ip] {
                Instruction::Call(_) => true,
                Instruction::Return => true,
                Instruction::ReturnValue => true,
                Instruction::NewArray(_) => true,
                Instruction::NewObject => true,
                Instruction::GetIndex => true,
                Instruction::SetIndex => true,
                Instruction::GetProperty(_) => true,
                Instruction::SetProperty(_) => true,
                Instruction::NewFunction(_) => true,
                Instruction::NewClosure(_) => true,
                Instruction::CallMethod(_) => true,
                Instruction::And => true,
                Instruction::Or => true,
                Instruction::CallBuiltin(_) => true,
                Instruction::Print => true,
                _ => false,
            },
        ensures
            final(self).chunks@ == old(self).chunks@,
            match r {
                Ok(StepOutcome::Continue) => {
                    &&& spec_step(prog, m0) == StepResult::Next(vm_model(*final(self)))
                    &&& vm_wf(*final(self))
                    &&& final(self).pending is None
                },
                Ok(StepOutcome::Done) => {
                    &&& spec_step(prog, m0) == StepResult::Done(vm_model(*final(self)))
                    &&& vm_wf(*final(self))
                    &&& final(self).pending is None
                },
                Ok(StepOutcome::NeedHost(req)) => {
                    &&& match spec_step(prog, m0) {
                        StepResult::Ask(s2, rm, p) => vm_model(*final(self)) == s2
                            && freq_abs(req) == rm && final(self).pending == Some(p),
                        _ => false,
                    }
                    &&& vm_wf(*final(self))
                },
                Err(e) => {
                    &&& spec_step(prog, m0) == StepResult::Fail(err_abs(e))
                    &&& vm_model(*final(self)) == vm_model(*old(self))
                    &&& vm_wf(*final(self))
                    &&& final(self).pending is None
                },
            },
    {
        let cc = self.current_chunk;
        let ip = self.instruction_pointer;
        let code_len = self.chunks[cc].instructions.len();
        proof {
            assert(prog[cc as int] == chunk_model(old(self).chunks@[cc as int]));
            lemma_vabs_seq_index(old(self).chunks@[cc as int].constants@);
            lemma_vabs_seq_index(old(self).stack@);
            assert(ip < code_len);
        }
        match &self.chunks[cc].instructions[ip] {
            Instruction::Call(argc) => {
                let argc = *argc;
                if self.stack.len() == 0 || self.stack.len() - 1 < argc {
                    return Err(FlowError::StackUnderflow);
                }
                let nlen = self.stack.len();
                let (address, arity) = match &self.stack[nlen - 1] {
                    Value::BytecodeFunction { address, arity, locals_count: _ } => (
                        *address,
                        *arity,
                    ),
                    _ => {
                        return Err(FlowError::TypeError);
                    },
                };
                if address >= self.chunks.len() {
                    return Err(FlowError::IndexOutOfBounds);
                }
                if argc < arity {
                    return Err(FlowError::MissingParameter);
                }
                self.stack.pop().unwrap();
                {
                    {
                        let base = self.stack.len() - argc;
                        let mut locals: Vec<Value> = Vec::new();
                        let mut i: usize = 0;
                        while i < arity
                            invariant
                                i <= arity,
                                arity <= argc,
                                base + argc == self.stack@.len(),
                                self.stack@.len() <= usize::MAX,
                                self.stack@ == old(self).stack@.drop_last(),
                                locals@.len() == i,
                                forall|j: int|
                                    0 <= j < i ==> vabs(#[trigger] locals@[j]) == vabs(
                                        self.stack@[base + j],
                                    ) && value_wf(locals@[j]),
                                forall|j: int|
                                    0 <= j < self.stack@.len() ==> value_wf(
                                        #[trigger] self.stack@[j],
                                    ),
                            decreases arity - i,
                        {
                            locals.push(clone_value(&self.stack[base + i]));
                            i = i + 1;
                        }
                        self.stack.truncate(base);
                        let f = Frame {
                            locals,
                            return_chunk: cc,
                            return_ip: ip + 1,
                            stack_base: base,
                        };
                        self.call_stack.push(f);
                        self.current_chunk = address;
                        self.instruction_pointer = 0;
                        proof {
                            let args = m0.stack.subrange(base as int, m0.stack.len() - 1);
                            assert forall|j: int| 0 <= j < arity implies vabs(
                                #[trigger] f.locals@[j],
                            ) == args.take(arity as int)[j] by {
                                assert(vabs(f.locals@[j]) == vabs(
                                    old(self).stack@.drop_last()[base + j],
                                ));
                                assert(old(self).stack@.drop_last()[base + j] == old(
                                    self,
                                ).stack@[base + j]);
                                assert(m0.stack[base + j] == vabs(
                                    old(self).stack@[base + j],
                                ));
                                assert(args.take(arity as int)[j] == m0.stack[base + j]);
                            }
                            lemma_vabs_eq_pointwise(f.locals@, args.take(arity as int));
                            let fm = FrameModel {
                                locals: args.take(arity as int),
                                return_chunk: m0.chunk,
                                return_ip: m0.ip + 1,
                                stack_base: base as int,
                            };
                            assert(frame_model(f) =~~= fm);
                            assert forall|j: int| 0 <= j < base implies vabs(
                                #[trigger] self.stack@[j],
                            ) == m0.stack.take(base as int)[j] by {
                                assert(self.stack@[j] == old(self).stack@[j]);
                                assert(m0.stack[j] == vabs(old(self).stack@[j]));
                            }
                            assert(self.stack@.len() == base);
                            lemma_vabs_eq_pointwise(self.stack@, m0.stack.take(base as int));
                            assert(frames_model(self.call_stack@) =~~= m0.frames.push(fm));
                            assert(vm_model(*self) =~~= VmState {
                                chunk: address as int,
                                ip: 0,
                                stack: m0.stack.take(base as int),
                                frames: m0.frames.push(fm),
                                ..m0
                            });
                        }
                        Ok(StepOutcome::Continue)
                    }
                }
            },
            Instruction::Return => {
                if self.call_stack.len() <= 1 {
                    return Err(FlowError::ReturnOutsideFunction);
                }
                let fi = self.call_stack.len() - 1;
                if self.call_stack[fi].stack_base > self.stack.len() {
                    proof {
                        assert(m0.frames.last() == frame_model(
                            old(self).call_stack@[fi as int],
                        ));
                    }
                    return Err(FlowError::StackUnderflow);
                }
                let f = self.call_stack.pop().unwrap();
                self.stack.truncate(f.stack_base);
                self.stack.push(Value::Null);
                self.current_chunk = f.return_chunk;
                self.instruction_pointer = f.return_ip;
                proof {
                    let fm = m0.frames.last();
                    assert(fm == frame_model(f));
                    assert(vabs_seq(self.stack@) =~= m0.stack.take(fm.stack_base).push(
                        ValueModel::Null,
                    )) by {
                        lemma_vabs_seq_subrange(old(self).stack@, 0, f.stack_base as int);
                        lemma_vabs_seq_push(
                            old(self).stack@.subrange(0, f.stack_base as int),
                            Value::Null,
                        );
                    }
                    assert(frames_model(self.call_stack@) =~~= m0.frames.drop_last());
                    assert(vm_model(*self) =~~= VmState {
                        chunk: fm.return_chunk,
                        ip: fm.return_ip,
                        stack: m0.stack.take(fm.stack_base).push(ValueModel::Null),
                        frames: m0.frames.drop_last(),
                        ..m0
                    });
                }
                Ok(StepOutcome::Continue)
            },
            Instruction::ReturnValue => {
                if self.stack.len() == 0 {
                    return Err(FlowError::StackUnderflow);
                }
                if self.call_stack.len() <= 1 {
                    return Err(FlowError::ReturnOutsideFunction);
                }
                let fi = self.call_stack.len() - 1;
                if self.call_stack[fi].stack_base > self.stack.len() - 1 {
                    proof {
                        assert(m0.frames.last() == frame_model(
                            old(self).call_stack@[fi as int],
                        ));
                    }
                    return Err(FlowError::StackUnderflow);
                }
                let rv = self.stack.pop().unwrap();
                let f = self.call_stack.pop().unwrap();
                self.stack.truncate(f.stack_base);
                self.stack.push(rv);
                self.current_chunk = f.return_chunk;
                self.instruction_pointer = f.return_ip;
                proof {
                    let fm = m0.frames.last();
                    assert(fm == frame_model(f));
                    let stack0 = m0.stack.drop_last();
                    assert(vabs_seq(self.stack@) =~= stack0.take(fm.stack_base).push(
                        vabs(rv),
                    )) by {
                        lemma_vabs_seq_subrange(
                            old(self).stack@.drop_last(),
                            0,
                            f.stack_base as int,
                        );
                        lemma_vabs_seq_subrange(
                            old(self).stack@,
                            0,
                            old(self).stack@.len() - 1,
                        );
                        assert(old(self).stack@.drop_last() =~= old(self).stack@.subrange(
                            0,
                            old(self).stack@.len() - 1,
                        ));
                        lemma_vabs_seq_push(
                            old(self).stack@.drop_last().subrange(0, f.stack_base as int),
                            rv,
                        );
                    }
                    assert(frames_model(self.call_stack@) =~~= m0.frames.drop_last());
                    assert(vm_model(*self) =~~= VmState {
                        chunk: fm.return_chunk,
                        ip: fm.return_ip,
                        stack: stack0.take(fm.stack_base).push(m0.stack.last()),
                        frames: m0.frames.drop_last(),
                        ..m0
                    });
                }
                Ok(StepOutcome::Continue)
            },
            Instruction::NewArray(n) => {
                let n = *n;
                if self.stack.len() < n {
                    return Err(FlowError::StackUnderflow);
                }
                let base = self.stack.len() - n;
                let mut elements: Vec<Value> = Vec::new();
                let mut i: usize = 0;
                while i < n
                    invariant
                        i <= n,
                        base + n == self.stack@.len(),
                        self.stack@.len() <= usize::MAX,
                        self.stack@ == old(self).stack@,
                        elements@.len() == i,
                        forall|j: int|
                            0 <= j < i ==> vabs(#[trigger] elements@[j]) == vabs(
                                self.stack@[base + j],
                            ) && value_wf(elements@[j]),
                        forall|j: int|
                            0 <= j < self.stack@.len() ==> value_wf(
                                #[trigger] self.stack@[j],
                            ),
                    decreases n - i,
                {
                    elements.push(clone_value(&self.stack[base + i]));
                    i = i + 1;
                }
                self.stack.truncate(base);
                let arr = Value::Array(FlowArray { elements });
                proof {
                    let elems = m0.stack.subrange(base as int, m0.stack.len() as int);
                    assert(vabs(arr) == ValueModel::Arr(elems)) by {
                        assert forall|j: int| 0 <= j < n implies vabs(
                            #[trigger] arr->Array_0.elements@[j],
                        ) == elems[j] by {
                            assert(vabs(arr->Array_0.elements@[j]) == vabs(
                                old(self).stack@[base + j],
                            ));
                            assert(m0.stack[base + j] == vabs(old(self).stack@[base + j]));
                        }
                        lemma_vabs_eq_pointwise(arr->Array_0.elements@, elems);
                    }
                    assert(value_wf(arr)) by {
                        crate::value::lemma_seq_value_wf_index(arr->Array_0.elements@);
                    }
                }
                self.stack.push(arr);
                self.instruction_pointer = ip + 1;
                proof {
                    let elems = m0.stack.subrange(base as int, m0.stack.len() as int);
                    assert(vabs_seq(self.stack@) =~= m0.stack.take(base as int).push(
                        ValueModel::Arr(elems),
                    )) by {
                        lemma_vabs_seq_subrange(old(self).stack@, 0, base as int);
                        lemma_vabs_seq_push(
                            old(self).stack@.subrange(0, base as int),
                            arr,
                        );
                    }
                    assert(vm_model(*self) =~~= VmState {
                        ip: ip + 1,
                        stack: m0.stack.take(base as int).push(ValueModel::Arr(elems)),
                        ..m0
                    });
                }
                Ok(StepOutcome::Continue)
            },
            Instruction::NewObject => {
                let obj = Value::Object(FlowObject { properties: Vec::new() });
                proof {
                    assert(vabs(obj) == ValueModel::Obj(Seq::empty())) by {
                        assert(vabs_props(obj->Object_0.properties@) =~= Seq::<(
                            Seq<char>,
                            ValueModel,
                        )>::empty());
                    }
                }
                self.stack.push(obj);
                self.instruction_pointer = ip + 1;
                proof {
                    lemma_vabs_seq_push(old(self).stack@, obj);
                    assert(vm_model(*self) =~~= VmState {
                        ip: ip + 1,
                        stack: m0.stack.push(ValueModel::Obj(Seq::empty())),
                        ..m0
                    });
                }
                Ok(StepOutcome::Continue)
            },
            Instruction::GetIndex => {
                if self.stack.len() < 2 {
                    return Err(FlowError::StackUnderflow);
                }
                let nlen = self.stack.len();
                let pushed: Value = match (&self.stack[nlen - 2], &self.stack[nlen - 1]) {
                    (Value::Array(arr), Value::Integer(i)) => {
                        proof {
                            lemma_vabs_seq_index(arr.elements@);
                            crate::value::lemma_seq_value_wf_index(arr.elements@);
                        }
                        if *i < 0 || *i as u64 >= arr.elements.len() as u64 {
                            return Err(FlowError::IndexOutOfBounds);
                        }
                        clone_value(&arr.elements[*i as usize])
                    },
                    (Value::Object(o), Value::String(k)) => {
                        proof {
                            crate::value::lemma_props_value_wf_index(o.properties@);
                        }
                        match assoc_lookup(&o.properties, k) {
                            Some(v) => v,
                            None => Value::Null,
                        }
                    },
                    _ => {
                        return Err(FlowError::TypeError);
                    },
                };
                self.stack.pop().unwrap();
                self.stack.pop().unwrap();
                self.stack.push(pushed);
                self.instruction_pointer = ip + 1;
                proof {
                    binary_stack_facts(old(self).stack@, self.stack@, Some(pushed));
                    assert(vm_model(*self) =~~= VmState {
                        ip: ip + 1,
                        stack: m0.stack.drop_last().drop_last().push(vabs(pushed)),
                        ..m0
                    });
                }
                Ok(StepOutcome::Continue)
            },
            Instruction::SetIndex => {
                if self.stack.len() < 3 {
                    return Err(FlowError::StackUnderflow);
                }
                let nlen = self.stack.len();
                let index: usize = match (&self.stack[nlen - 3], &self.stack[nlen - 2]) {
                    (Value::Array(arr), Value::Integer(i)) => {
                        proof {
                            lemma_vabs_seq_index(arr.elements@);
                        }
                        if *i < 0 || *i as u64 >= arr.elements.len() as u64 {
                            return Err(FlowError::IndexOutOfBounds);
                        }
                        *i as usize
                    },
                    _ => {
                        return Err(FlowError::TypeError);
                    },
                };
                let value = self.stack.pop().unwrap();
                self.stack.pop().unwrap();
                let target = self.stack.pop().unwrap();
                match target {
                    Value::Array(mut arr) => {
                        let ghost arr0 = arr;
                        arr.elements.set(index, value);
                        let na = Value::Array(arr);
                        proof {
                            lemma_vabs_seq_update(arr0.elements@, index as int, value);
                            crate::value::lemma_seq_value_wf_index(arr0.elements@);
                            crate::value::lemma_seq_value_wf_index(na->Array_0.elements@);
                            assert(forall|j: int|
                                0 <= j < arr0.elements@.len() && j != index
                                    ==> na->Array_0.elements@[j] == #[trigger] arr0.elements@[j]);
                        }
                        self.stack.push(na);
                        self.instruction_pointer = ip + 1;
                        proof {
                            let olds = old(self).stack@;
                            lemma_vabs_seq_index(olds);
                            assert(self.stack@ =~= olds.subrange(0, olds.len() - 3).push(
                                na,
                            ));
                            lemma_vabs_seq_subrange(olds, 0, olds.len() - 3);
                            lemma_vabs_seq_push(olds.subrange(0, olds.len() - 3), na);
                            assert(m0.stack.drop_last().drop_last().drop_last()
                                =~= m0.stack.subrange(0, m0.stack.len() - 3));
                            assert(vabs_seq(self.stack@) =~= m0.stack.drop_last()
                                .drop_last().drop_last().push(vabs(na)));
                            assert(vm_model(*self) =~~= VmState {
                                ip: ip + 1,
                                stack: m0.stack.drop_last().drop_last().drop_last().push(
                                    vabs(na),
                                ),
                                ..m0
                            });
                        }
                        Ok(StepOutcome::Continue)
                    },
                    _ => vstd::pervasive::unreached(),
                }
            },
            Instruction::GetProperty(name) => {
                if self.stack.len() == 0 {
                    return Err(FlowError::StackUnderflow);
                }
                let nlen = self.stack.len();
                let pushed: Value = match &self.stack[nlen - 1] {
                    Value::Object(o) => {
                        proof {
                            crate::value::lemma_props_value_wf_index(o.properties@);
                        }
                        match assoc_lookup(&o.properties, name) {
                            Some(v) => v,
                            None => Value::Null,
                        }
                    },
                    _ => {
                        return Err(FlowError::TypeError);
                    },
                };
                self.stack.pop().unwrap();
                self.stack.push(pushed);
                self.instruction_pointer = ip + 1;
                proof {
                    lemma_vabs_drop_last(old(self).stack@);
                    assert(self.stack@ =~= old(self).stack@.drop_last().push(pushed));
                    lemma_vabs_seq_push(old(self).stack@.drop_last(), pushed);
                    assert(vm_model(*self) =~~= VmState {
                        ip: ip + 1,
                        stack: m0.stack.drop_last().push(vabs(pushed)),
                        ..m0
                    });
                }
                Ok(StepOutcome::Continue)
            },
            Instruction::SetProperty(name) => {
                if self.stack.len() < 2 {
                    return Err(FlowError::StackUnderflow);
                }
                let nlen = self.stack.len();
                match &self.stack[nlen - 2] {
                    Value::Object(_) => {},
                    _ => {
                        return Err(FlowError::TypeError);
                    },
                }
                let value = self.stack.pop().unwrap();
                let target = self.stack.pop().unwrap();
                match target {
                    Value::Object(mut o) => {
                        let ghost o0 = o;
                        proof {
                            crate::value::lemma_props_value_wf_index(o0.properties@);
                        }
                        assoc_store(&mut o.properties, name.clone(), value);
                        let no = Value::Object(o);
                        proof {
                            crate::value::lemma_props_value_wf_index(
                                no->Object_0.properties@,
                            );
                            assert(value_wf(no));
                        }
                        self.stack.push(no);
                        self.instruction_pointer = ip + 1;
                        proof {
                            binary_stack_facts(old(self).stack@, self.stack@, Some(no));
                            assert(vm_model(*self) =~~= VmState {
                                ip: ip + 1,
                                stack: m0.stack.drop_last().drop_last().push(vabs(no)),
                                ..m0
                            });
                        }
                        Ok(StepOutcome::Continue)
                    },
                    _ => vstd::pervasive::unreached(),
                }
            },
            Instruction::NewFunction(k) => {
                let k = *k;
                if k >= self.chunks[cc].constants.len() {
                    return Err(FlowError::IndexOutOfBounds);
                }
                match &self.chunks[cc].constants[k] {
                    Value::BytecodeFunction { address, arity, locals_count } => {
                        let v = Value::BytecodeFunction {
                            address: *address,
                            arity: *arity,
                            locals_count: *locals_count,
                        };
                        self.stack.push(v);
                        self.instruction_pointer = ip + 1;
                        proof {
                            lemma_vabs_seq_push(old(self).stack@, v);
                            assert(vm_model(*self) =~~= VmState {
                                ip: ip + 1,
                                stack: m0.stack.push(prog[cc as int].consts[k as int]),
                                ..m0
                            });
                        }
                        Ok(StepOutcome::Continue)
                    },
                    _ => Err(FlowError::TypeError),
                }
            },
            Instruction::NewClosure(k) => {
                let k = *k;
                if k >= self.chunks[cc].constants.len() {
                    return Err(FlowError::IndexOutOfBounds);
                }
                match &self.chunks[cc].constants[k] {
                    Value::BytecodeFunction { address, arity, locals_count } => {
                        let v = Value::BytecodeFunction {
                            address: *address,
                            arity: *arity,
                            locals_count: *locals_count,
                        };
                        self.stack.push(v);
                        self.instruction_pointer = ip + 1;
                        proof {
                            lemma_vabs_seq_push(old(self).stack@, v);
                            assert(vm_model(*self) =~~= VmState {
                                ip: ip + 1,
                                stack: m0.stack.push(prog[cc as int].consts[k as int]),
                                ..m0
                            });
                        }
                        Ok(StepOutcome::Continue)
                    },
                    _ => Err(FlowError::TypeError),
                }
            },
            Instruction::CallMethod(_) => Err(FlowError::Unimplemented),
            Instruction::And => Err(FlowError::Unimplemented),
            Instruction::Or => Err(FlowError::Unimplemented),
            Instruction::Print => {
                if self.stack.len() == 0 {
                    return Err(FlowError::StackUnderflow);
                }
                let v = self.stack.pop().unwrap();
                self.output.push(OutputEntry { value: v, newline: true });
                self.instruction_pointer = ip + 1;
                proof {
                    lemma_vabs_drop_last(old(self).stack@);
                    assert(self.stack@ =~= old(self).stack@.drop_last());
                    assert(vabs_seq(self.stack@) =~= m0.stack.drop_last());
                    assert(output_model(self.output@) =~~= m0.output.push(
                        (m0.stack.last(), true),
                    ));
                    assert(vm_model(*self) =~~= VmState {
                        ip: ip + 1,
                        stack: m0.stack.drop_last(),
                        output: m0.output.push((m0.stack.last(), true)),
                        ..m0
                    });
                }
                Ok(StepOutcome::Continue)
            },
            Instruction::CallBuiltin(_) => self.step_builtin(Ghost(m0), Ghost(prog)),
            _ => {
                proof {
                    assert(false);
                }
                Err(FlowError::Unimplemented)
            },
        }
    }
}

impl VirtualMachine {
    /// The built-in call instruction: pop the argument count, pop that
    /// many arguments, and dispatch on the built-in's name.
    #[verifier::rlimit(100)]
    fn step_builtin(&mut self, Ghost(m0): Ghost<VmState>, Ghost(prog): Ghost<Seq<ChunkModel>>)
        -> (r: Result<StepOutcome, FlowError>)
        requires
            vm_wf(*old(self)),
            old(self).pending is None,
            m0 == vm_model(*old(self)),
            prog == prog_model(old(self).chunks@),
            0 <= m0.chunk < prog.len(),
            0 <= m0.ip < prog[m0.chunk].code.len(),
            prog[m0.chunk].code[m0.ip] is CallBuiltin,
        ensures
            final(self).chunks@ == old(self).chunks@,
            match r {
                Ok(StepOutcome::Continue) => {
                    &&& spec_step(prog, m0) == StepResult::Next(vm_model(*final(self)))
                    &&& vm_wf(*final(self))
                    &&& final(self).pending is None
                },
                Ok(StepOutcome::Done) => {
                    &&& spec_step(prog, m0) == StepResult::Done(vm_model(*final(self)))
                    &&& vm_wf(*final(self))
                    &&& final(self).pending is None
                },
                Ok(StepOutcome::NeedHost(req)) => {
                    &&& match spec_step(prog, m0) {
                        StepResult::Ask(s2, rm, p) => vm_model(*final(self)) == s2
                            && freq_abs(req) == rm && final(self).pending == Some(p),
                        _ => false,
                    }
                    &&& vm_wf(*final(self))
                },
                Err(e) => {
                    &&& spec_step(prog, m0) == StepResult::Fail(err_abs(e))
                    &&& vm_model(*final(self)) == vm_model(*old(self))
                    &&& vm_wf(*final(self))
                    &&& final(self).pending is None
                },
            },
    {
        let cc = self.current_chunk;
        let ip = self.instruction_pointer;
        let code_len = self.chunks[cc].instructions.len();
        proof {
            assert(prog[cc as int] == chunk_model(old(self).chunks@[cc as int]));
            lemma_vabs_seq_index(old(self).stack@);
            assert(ip < code_len);
        }
        if self.stack.len() == 0 {
            return Err(FlowError::StackUnderflow);
        }
        // Everything below validates by reference; the machine state is
        // only changed once the whole step is known to succeed.
        let is_show = str_eq_lit(self.chunks[cc].instructions[ip].builtin_name(), "show");
        let is_print = str_eq_lit(self.chunks[cc].instructions[ip].builtin_name(), "print");
        let is_len = str_eq_lit(self.chunks[cc].instructions[ip].builtin_name(), "len");
        let is_type = str_eq_lit(self.chunks[cc].instructions[ip].builtin_name(), "type");
        let is_str = str_eq_lit(self.chunks[cc].instructions[ip].builtin_name(), "str");
        let is_int = str_eq_lit(self.chunks[cc].instructions[ip].builtin_name(), "int");
        let is_float = str_eq_lit(self.chunks[cc].instructions[ip].builtin_name(), "float");
        proof {
            reveal_strlit("show");
            reveal_strlit("print");
            reveal_strlit("len");
            reveal_strlit("type");
            reveal_strlit("str");
            reveal_strlit("int");
            reveal_strlit("float");
            assert(("show")@ =~= seq!['s', 'h', 'o', 'w']);
            assert(("print")@ =~= seq!['p', 'r', 'i', 'n', 't']);
            assert(("len")@ =~= seq!['l', 'e', 'n']);
            assert(("type")@ =~= seq!['t', 'y', 'p', 'e']);
            assert(("str")@ =~= seq!['s', 't', 'r']);
            assert(("int")@ =~= seq!['i', 'n', 't']);
            assert(("float")@ =~= seq!['f', 'l', 'o', 'a', 't']);
        }
        let nlen0 = self.stack.len();
        let c: i64 = match &self.stack[nlen0 - 1] {
            Value::Integer(c) => *c,
            _ => {
                return Err(FlowError::TypeError);
            },
        };
        if c < 0 || c > 65535 {
            return Err(FlowError::TypeError);
        }
        let argc = c as usize;
        if nlen0 - 1 < argc {
            return Err(FlowError::StackUnderflow);
        }
        let base = nlen0 - 1 - argc;
        let ghost margs = m0.stack.subrange(base as int, m0.stack.len() - 1);
        let ghost s1 = VmState { stack: m0.stack.take(base as int), ip: m0.ip + 1, ..m0 };
        if !(is_show || is_print || is_len || is_type || is_str || is_int || is_float) {
            let name = match &self.chunks[cc].instructions[ip] {
                Instruction::CallBuiltin(name) => name.clone(),
                _ => vstd::pervasive::unreached(),
            };
            return Err(FlowError::UnknownBuiltin { name });
        }
        if argc != 1 {
            return Err(FlowError::TypeError);
        }
        proof {
            assert(margs.len() == 1);
            assert(margs[0] == m0.stack[base as int]);
            assert(m0.stack[base as int] == vabs(old(self).stack@[base as int]));
        }
        if is_show || is_print {
            let v = clone_value(&self.stack[base]);
            self.stack.truncate(base);
            self.instruction_pointer = ip + 1;
            self.output.push(OutputEntry { value: v, newline: is_show });
            self.stack.push(Value::Null);
            proof {
                commit_stack_facts(old(self).stack@, self.stack@, base as int, Value::Null);
                assert(output_model(self.output@) =~~= s1.output.push((margs[0], is_show)));
                assert(vm_model(*self) =~~= VmState {
                    stack: s1.stack.push(ValueModel::Null),
                    output: s1.output.push((margs[0], is_show)),
                    ..s1
                });
            }
            return Ok(StepOutcome::Continue);
        }
        if is_len {
            let n: usize = match &self.stack[base] {
                Value::String(st) => st.as_str().unicode_len(),
                Value::Array(a) => a.elements.len(),
                Value::Object(o) => o.properties.len(),
                _ => {
                    return Err(FlowError::TypeError);
                },
            };
            proof {
                match old(self).stack@[base as int] {
                    Value::Array(a) => {
                        lemma_vabs_seq_index(a.elements@);
                    },
                    Value::Object(o) => {
                        lemma_vabs_props_index(o.properties@);
                    },
                    _ => {},
                }
            }
            if n as u64 > 0x7FFF_FFFF_FFFF_FFFFu64 {
                return Err(FlowError::TypeError);
            }
            let v = Value::Integer(n as i64);
            self.stack.truncate(base);
            self.instruction_pointer = ip + 1;
            self.stack.push(v);
            proof {
                commit_stack_facts(old(self).stack@, self.stack@, base as int, v);
                assert(vm_model(*self) =~~= VmState {
                    stack: s1.stack.push(ValueModel::Int(n as int)),
                    ..s1
                });
            }
            return Ok(StepOutcome::Continue);
        }
        if is_type {
            let nm = self.stack[base].kind_name();
            let v = Value::String(nm.to_owned());
            self.stack.truncate(base);
            self.instruction_pointer = ip + 1;
            self.stack.push(v);
            proof {
                commit_stack_facts(old(self).stack@, self.stack@, base as int, v);
                assert(vm_model(*self) =~~= VmState {
                    stack: s1.stack.push(ValueModel::Str(model_kind_name(margs[0]))),
                    ..s1
                });
            }
            return Ok(StepOutcome::Continue);
        }
        if is_str {
            let pushed: Value = match &self.stack[base] {
                Value::Integer(iv) => Value::String(BigInt::from_i64(*iv).to_string()),
                Value::BigInteger(b) => Value::String(b.to_string()),
                Value::Boolean(bv) => {
                    proof {
                        reveal_strlit("true");
                        reveal_strlit("false");
                        assert(("true")@ =~= chars_true());
                        assert(("false")@ =~= chars_false());
                    }
                    if *bv {
                        Value::String("true".to_owned())
                    } else {
                        Value::String("false".to_owned())
                    }
                },
                Value::Null => {
                    proof {
                        reveal_strlit("null");
                        assert(("null")@ =~= chars_null());
                    }
                    Value::String("null".to_owned())
                },
                Value::String(st) => Value::String(st.clone()),
                _ => {
                    let other = clone_value(&self.stack[base]);
                    self.stack.truncate(base);
                    self.instruction_pointer = ip + 1;
                    self.pending = Some(PendingKind::PushText);
                    proof {
                        commit_stack_only_facts(old(self).stack@, self.stack@, base as int);
                        assert(vm_model(*self) =~~= s1);
                    }
                    return Ok(
                        StepOutcome::NeedHost(FloatReq::FormatValue { value: other }),
                    );
                },
            };
            self.stack.truncate(base);
            self.instruction_pointer = ip + 1;
            self.stack.push(pushed);
            proof {
                commit_stack_facts(old(self).stack@, self.stack@, base as int, pushed);
                assert(vm_model(*self) =~~= VmState {
                    stack: s1.stack.push(vabs(pushed)),
                    ..s1
                });
            }
            return Ok(StepOutcome::Continue);
        }
        if is_int {
            let pushed: Value = match &self.stack[base] {
                Value::Integer(iv) => Value::Integer(*iv),
                Value::Float(bits) => {
                    let bits = *bits;
                    self.stack.truncate(base);
                    self.instruction_pointer = ip + 1;
                    self.pending = Some(PendingKind::PushInt);
                    proof {
                        commit_stack_only_facts(old(self).stack@, self.stack@, base as int);
                        assert(vm_model(*self) =~~= s1);
                    }
                    return Ok(StepOutcome::NeedHost(FloatReq::ToInt { bits }));
                },
                Value::Boolean(bv) => Value::Integer(
                    if *bv {
                        1
                    } else {
                        0
                    },
                ),
                Value::String(st) => {
                    match BigInt::from_string(st.as_str()) {
                        Err(_) => {
                            return Err(FlowError::TypeError);
                        },
                        Ok(big) => {
                            match big.to_i64_exact() {
                                None => {
                                    return Err(FlowError::TypeError);
                                },
                                Some(iv) => Value::Integer(iv),
                            }
                        },
                    }
                },
                _ => {
                    return Err(FlowError::TypeError);
                },
            };
            self.stack.truncate(base);
            self.instruction_pointer = ip + 1;
            self.stack.push(pushed);
            proof {
                commit_stack_facts(old(self).stack@, self.stack@, base as int, pushed);
                assert(vm_model(*self) =~~= VmState {
                    stack: s1.stack.push(vabs(pushed)),
                    ..s1
                });
            }
            return Ok(StepOutcome::Continue);
        }
        // is_float
        let pushed: Value = match &self.stack[base] {
            Value::Float(bits) => Value::Float(*bits),
            Value::Integer(iv) => {
                let iv = *iv;
                self.stack.truncate(base);
                self.instruction_pointer = ip + 1;
                self.pending = Some(PendingKind::PushFloatBits);
                proof {
                    commit_stack_only_facts(old(self).stack@, self.stack@, base as int);
                    assert(vm_model(*self) =~~= s1);
                }
                return Ok(StepOutcome::NeedHost(FloatReq::FromInt { value: iv }));
            },
            Value::Boolean(bv) => Value::Float(
                if *bv {
                    0x3FF0_0000_0000_0000u64
                } else {
                    0u64
                },
            ),
            Value::String(st) => {
                let text = st.clone();
                self.stack.truncate(base);
                self.instruction_pointer = ip + 1;
                self.pending = Some(PendingKind::PushFloatOrFail);
                proof {
                    commit_stack_only_facts(old(self).stack@, self.stack@, base as int);
                    assert(vm_model(*self) =~~= s1);
                }
                return Ok(StepOutcome::NeedHost(FloatReq::ParseFloat { text }));
            },
            _ => {
                return Err(FlowError::TypeError);
            },
        };
        self.stack.truncate(base);
        self.instruction_pointer = ip + 1;
        self.stack.push(pushed);
        proof {
            commit_stack_facts(old(self).stack@, self.stack@, base as int, pushed);
            assert(vm_model(*self) =~~= VmState { stack: s1.stack.push(vabs(pushed)), ..s1 });
        }
        Ok(StepOutcome::Continue)
    }
}

/// The abstract form of a host answer.
pub enum AnswerModel {
    Bits(u64),
    Bool(bool),
    Int(i64),
    Text(Seq<char>),
    MaybeBits(Option<u64>),
}

pub open spec fn ans_abs(a: FloatAnswer) -> AnswerModel {
    match a {
        FloatAnswer::Bits(b) => AnswerModel::Bits(b),
        FloatAnswer::Bool(b) => AnswerModel::Bool(b),
        FloatAnswer::Int(i) => AnswerModel::Int(i),
        FloatAnswer::Text(t) => AnswerModel::Text(t@),
        FloatAnswer::MaybeBits(o) => AnswerModel::MaybeBits(o),
    }
}

/// The result of resuming a suspended machine with a host answer.
pub enum ResumeSpec {
    Go(VmState),
    Bad(ErrorModel),
}

/// How a host answer is folded back into the machine: the answered value
/// is pushed according to the pending kind; a mismatched answer kind, or
/// a failed float parse, is a type error.
pub open spec fn spec_resume(s: VmState, p: PendingKind, a: AnswerModel) -> ResumeSpec {
    match (p, a) {
        (PendingKind::PushFloatBits, AnswerModel::Bits(b)) => ResumeSpec::Go(
            VmState { stack: s.stack.push(ValueModel::Float(b)), ..s },
        ),
        (PendingKind::PushBool, AnswerModel::Bool(b)) => ResumeSpec::Go(
            VmState { stack: s.stack.push(ValueModel::Bool(b)), ..s },
        ),
        (PendingKind::PushBoolNegated, AnswerModel::Bool(b)) => ResumeSpec::Go(
            VmState { stack: s.stack.push(ValueModel::Bool(!b)), ..s },
        ),
        (PendingKind::PushInt, AnswerModel::Int(i)) => ResumeSpec::Go(
            VmState { stack: s.stack.push(ValueModel::Int(i as int)), ..s },
        ),
        (PendingKind::PushText, AnswerModel::Text(t)) => ResumeSpec::Go(
            VmState { stack: s.stack.push(ValueModel::Str(t)), ..s },
        ),
        (PendingKind::PushFloatOrFail, AnswerModel::MaybeBits(Some(b))) => ResumeSpec::Go(
            VmState { stack: s.stack.push(ValueModel::Float(b)), ..s },
        ),
        (PendingKind::PushFloatOrFail, AnswerModel::MaybeBits(None)) => ResumeSpec::Bad(
            ErrorModel::TypeError,
        ),
        _ => ResumeSpec::Bad(ErrorModel::TypeError),
    }
}

/// `b` is reached from `a` by exactly `n` ordinary steps.
pub open spec fn reaches(prog: Seq<ChunkModel>, a: VmState, b: VmState, n: nat) -> bool
    decreases n,
{
    if n == 0 {
        a == b
    } else {
        exists|m: VmState|
            spec_step(prog, a) == StepResult::Next(m) && reaches(
                prog,
                m,
                b,
                (n - 1) as nat,
            )
    }
}

/// A run from `a` finishes in state `b`: some number of ordinary steps
/// reaches a state whose next step is termination with state `b`.
pub open spec fn run_ends_done(prog: Seq<ChunkModel>, a: VmState, b: VmState) -> bool {
    exists|n: nat, m: VmState|
        reaches(prog, a, m, n) && spec_step(prog, m) == StepResult::Done(b)
}

/// A run from `a` suspends in state `b` asking `rm`.
pub open spec fn run_ends_ask(
    prog: Seq<ChunkModel>,
    a: VmState,
    b: VmState,
    rm: FloatReqModel,
    p: PendingKind,
) -> bool {
    exists|n: nat, m: VmState|
        reaches(prog, a, m, n) && spec_step(prog, m) == StepResult::Ask(b, rm, p)
}

/// A run from `a` aborts with error `e` in state `b`: the machine stops
/// exactly at the reached state whose next step fails, so the stack and
/// globals at the point of failure are preserved.
pub open spec fn run_ends_fail(
    prog: Seq<ChunkModel>,
    a: VmState,
    b: VmState,
    e: ErrorModel,
) -> bool {
    exists|n: nat| reaches(prog, a, b, n) && spec_step(prog, b) == StepResult::Fail(e)
}

/// Reachability extends by one step at the end.
pub proof fn lemma_reaches_snoc(
    prog: Seq<ChunkModel>,
    a: VmState,
    b: VmState,
    c: VmState,
    n: nat,
)
    requires
        reaches(prog, a, b, n),
        spec_step(prog, b) == StepResult::Next(c),
    ensures
        reaches(prog, a, c, n + 1),
    decreases n,
{
    if n == 0 {
        assert(reaches(prog, c, c, 0));
    } else {
        let m = choose|m: VmState|
            spec_step(prog, a) == StepResult::Next(m) && reaches(prog, m, b, (n - 1) as nat);
        lemma_reaches_snoc(prog, m, b, c, (n - 1) as nat);
    }
}

impl VirtualMachine {
    /// A fresh machine: no chunks, empty stack and globals, and a single
    /// base frame that owns the script's local slots.
    pub fn new() -> (r: VirtualMachine)
        ensures
            vm_wf(r),
            r.pending is None,
            r.chunks@.len() == 0,
            vm_model(r) == (VmState {
                chunk: 0,
                ip: 0,
                stack: Seq::empty(),
                frames: seq![
                    FrameModel {
                        locals: Seq::empty(),
                        return_chunk: 0,
                        return_ip: 0,
                        stack_base: 0,
                    },
                ],
                globals: Seq::empty(),
                output: Seq::empty(),
            }),
    {
        let mut call_stack: Vec<Frame> = Vec::new();
        call_stack.push(
            Frame { locals: Vec::new(), return_chunk: 0, return_ip: 0, stack_base: 0 },
        );
        let r = VirtualMachine {
            stack: Vec::new(),
            call_stack,
            chunks: Vec::new(),
            current_chunk: 0,
            instruction_pointer: 0,
            globals: Vec::new(),
            output: Vec::new(),
            pending: None,
        };
        proof {
            assert(vm_model(r) =~~= VmState {
                chunk: 0,
                ip: 0,
                stack: Seq::empty(),
                frames: seq![
                    FrameModel {
                        locals: Seq::empty(),
                        return_chunk: 0,
                        return_ip: 0,
                        stack_base: 0,
                    },
                ],
                globals: Seq::empty(),
                output: Seq::empty(),
            });
        }
        r
    }

    /// Load one more chunk of the program.  Loading the first chunk
    /// positions the machine at its start.
    pub fn load_chunk(&mut self, chunk: Chunk)
        requires
            vm_wf(*old(self)),
            forall|j: int|
                0 <= j < chunk.constants@.len() ==> value_wf(#[trigger] chunk.constants@[j]),
        ensures
            final(self).chunks@ == old(self).chunks@.push(chunk),
            vm_wf(*final(self)),
            final(self).stack@ == old(self).stack@,
            final(self).call_stack@ == old(self).call_stack@,
            final(self).globals@ == old(self).globals@,
            final(self).output@ == old(self).output@,
            final(self).pending == old(self).pending,
            old(self).chunks@.len() == 0 ==> final(self).current_chunk == 0
                && final(self).instruction_pointer == 0,
            old(self).chunks@.len() > 0 ==> final(self).current_chunk == old(self).current_chunk
                && final(self).instruction_pointer == old(self).instruction_pointer,
    {
        self.chunks.push(chunk);
        if self.chunks.len() == 1 {
            self.current_chunk = 0;
            self.instruction_pointer = 0;
        }
    }

    /// Drive the machine until it finishes, suspends for the host, fails,
    /// or exhausts the given step budget.  The outcome is exactly what
    /// iterating the specification step relation from the starting state
    /// yields.
    pub fn run(&mut self, max_steps: u64) -> (r: Result<RunSignal, FlowError>)
        requires
            vm_wf(*old(self)),
            old(self).pending is None,
        ensures
            final(self).chunks@ == old(self).chunks@,
            match r {
                Ok(RunSignal::Done) => {
                    &&& run_ends_done(
                        prog_model(old(self).chunks@),
                        vm_model(*old(self)),
                        vm_model(*final(self)),
                    )
                    &&& vm_wf(*final(self))
                    &&& final(self).pending is None
                },
                Ok(RunSignal::NeedHost(req)) => {
                    &&& final(self).pending is Some
                    &&& run_ends_ask(
                        prog_model(old(self).chunks@),
                        vm_model(*old(self)),
                        vm_model(*final(self)),
                        freq_abs(req),
                        final(self).pending->0,
                    )
                    &&& vm_wf(*final(self))
                },
                Ok(RunSignal::StillRunning) => {
                    &&& reaches(
                        prog_model(old(self).chunks@),
                        vm_model(*old(self)),
                        vm_model(*final(self)),
                        max_steps as nat,
                    )
                    &&& vm_wf(*final(self))
                    &&& final(self).pending is None
                },
                Err(e) => {
                    &&& run_ends_fail(
                        prog_model(old(self).chunks@),
                        vm_model(*old(self)),
                        vm_model(*final(self)),
                        err_abs(e),
                    )
                    &&& vm_wf(*final(self))
                    &&& final(self).pending is None
                },
            },
    {
        let ghost m0 = vm_model(*old(self));
        let ghost prog = prog_model(old(self).chunks@);
        let ghost mut n: nat = 0;
        let mut budget: u64 = max_steps;
        while budget > 0
            invariant
                vm_wf(*self),
                self.pending is None,
                self.chunks@ == old(self).chunks@,
                prog == prog_model(old(self).chunks@),
                m0 == vm_model(*old(self)),
                reaches(prog, m0, vm_model(*self), n),
                n + budget == max_steps,
            decreases budget,
        {
            budget = budget - 1;
            let ghost before = vm_model(*self);
            match self.step() {
                Ok(StepOutcome::Continue) => {
                    proof {
                        lemma_reaches_snoc(prog, m0, before, vm_model(*self), n);
                        n = n + 1;
                    }
                },
                Ok(StepOutcome::Done) => {
                    return Ok(RunSignal::Done);
                },
                Ok(StepOutcome::NeedHost(req)) => {
                    return Ok(RunSignal::NeedHost(req));
                },
                Err(e) => {
                    return Err(e);
                },
            }
        }
        Ok(RunSignal::StillRunning)
    }

    /// Resume after a suspension, folding the host's answer into the
    /// machine exactly as `spec_resume` says.
    pub fn provide_host_answer(&mut self, answer: FloatAnswer) -> (r: Result<(), FlowError>)
        requires
            vm_wf(*old(self)),
            old(self).pending is Some,
        ensures
            final(self).chunks@ == old(self).chunks@,
            match r {
                Ok(()) => {
                    &&& spec_resume(
                        vm_model(*old(self)),
                        old(self).pending->0,
                        ans_abs(answer),
                    ) == ResumeSpec::Go(vm_model(*final(self)))
                    &&& vm_wf(*final(self))
                    &&& final(self).pending is None
                },
                Err(e) => spec_resume(
                    vm_model(*old(self)),
                    old(self).pending->0,
                    ans_abs(answer),
                ) == ResumeSpec::Bad(err_abs(e)),
            },
    {
        let ghost m0 = vm_model(*old(self));
        let p = self.pending.unwrap();
        self.pending = None;
        let pushed: Value = match (p, answer) {
            (PendingKind::PushFloatBits, FloatAnswer::Bits(b)) => Value::Float(b),
            (PendingKind::PushBool, FloatAnswer::Bool(b)) => Value::Boolean(b),
            (PendingKind::PushBoolNegated, FloatAnswer::Bool(b)) => Value::Boolean(!b),
            (PendingKind::PushInt, FloatAnswer::Int(i)) => Value::Integer(i),
            (PendingKind::PushText, FloatAnswer::Text(t)) => Value::String(t),
            (PendingKind::PushFloatOrFail, FloatAnswer::MaybeBits(Some(b))) => Value::Float(
                b,
            ),
            _ => {
                return Err(FlowError::TypeError);
            },
        };
        self.stack.push(pushed);
        proof {
            lemma_vabs_seq_push(old(self).stack@, pushed);
            assert(vm_model(*self) =~~= VmState {
                stack: m0.stack.push(vabs(pushed)),
                ..m0
            });
            lemma_vabs_seq_index(old(self).stack@);
        }
        Ok(())
    }
}

impl VirtualMachine {
    /// The arithmetic, comparison and logic instructions of `step`,
    /// handled out of line.
    #[verifier::rlimit(100)]
    fn step_ops(&mut self, Ghost(m0): Ghost<VmState>, Ghost(prog): Ghost<Seq<ChunkModel>>)
        -> (r: Result<StepOutcome, FlowError>)
        requires
            vm_wf(*old(self)),
            old(self).pending is None,
            m0 == vm_model(*old(self)),
            prog == prog_model(old(self).chunks@),
            0 <= m0.chunk < prog.len(),
            0 <= m0.ip < prog[m0.chunk].code.len(),
            match prog[m0.chunk].code[m0.ip] {
                Instruction::Add => true,
                Instruction::Subtract => true,
                Instruction::Multiply => true,
                Instruction::Divide => true,
                Instruction::Modulo => true,
                Instruction::Equal => true,
                Instruction::NotEqual => true,
                Instruction::Less => true,
                Instruction::LessEqual => true,
                Instruction::Greater => true,
                Instruction::GreaterEqual => true,
                Instruction::Not => true,
                Instruction::Negate => true,
                _ => false,
            },
        ensures
            final(self).chunks@ == old(self).chunks@,
            match r {
                Ok(StepOutcome::Continue) => {
                    &&& spec_step(prog, m0) == StepResult::Next(vm_model(*final(self)))
                    &&& vm_wf(*final(self))
                    &&& final(self).pending is None
                },
                Ok(StepOutcome::Done) => {
                    &&& spec_step(prog, m0) == StepResult::Done(vm_model(*final(self)))
                    &&& vm_wf(*final(self))
                    &&& final(self).pending is None
                },
                Ok(StepOutcome::NeedHost(req)) => {
                    &&& match spec_step(prog, m0) {
                        StepResult::Ask(s2, rm, p) => vm_model(*final(self)) == s2
                            && freq_abs(req) == rm && final(self).pending == Some(p),
                        _ => false,
                    }
                    &&& vm_wf(*final(self))
                },
                Err(e) => {
                    &&& spec_step(prog, m0) == StepResult::Fail(err_abs(e))
                    &&& vm_model(*final(self)) == vm_model(*old(self))
                    &&& vm_wf(*final(self))
                    &&& final(self).pending is None
                },
            },
    {
        let cc = self.current_chunk;
        let ip = self.instruction_pointer;
        let code_len = self.chunks[cc].instructions.len();
        proof {
            assert(prog[cc as int] == chunk_model(old(self).chunks@[cc as int]));
            lemma_vabs_seq_index(old(self).stack@);
            assert(ip < code_len);
        }
        match &self.chunks[cc].instructions[ip] {
            Instruction::Add => {
                if self.stack.len() < 2 {
                    return Err(FlowError::StackUnderflow);
                }
                let nlen = self.stack.len();
                let out = add_values(&self.stack[nlen - 2], &self.stack[nlen - 1]);
                let ghost gout = out;
                match out {
                    OpOutcome::Bad(e) => Err(e),
                    OpOutcome::Val(v) => {
                        self.stack.pop().unwrap();
                        self.stack.pop().unwrap();
                        self.stack.push(v);
                        self.instruction_pointer = ip + 1;
                        proof {
                            binary_stack_facts(old(self).stack@, self.stack@, Some(v));
                            assert(vm_model(*self) =~~= VmState {
                                ip: ip + 1,
                                stack: m0.stack.drop_last().drop_last().push(vabs(v)),
                                ..m0
                            });
                        }
                        Ok(StepOutcome::Continue)
                    },
                    OpOutcome::Ask(rq, p) => {
                        self.stack.pop().unwrap();
                        self.stack.pop().unwrap();
                        self.instruction_pointer = ip + 1;
                        self.pending = Some(p);
                        proof {
                            binary_stack_facts(old(self).stack@, self.stack@, None);
                            assert(vm_model(*self) =~~= VmState {
                                ip: ip + 1,
                                stack: m0.stack.drop_last().drop_last(),
                                ..m0
                            });
                        }
                        Ok(StepOutcome::NeedHost(rq))
                    },
                }
            },
            Instruction::Subtract => {
                if self.stack.len() < 2 {
                    return Err(FlowError::StackUnderflow);
                }
                let nlen = self.stack.len();
                let out = subtract_values(&self.stack[nlen - 2], &self.stack[nlen - 1]);
                let ghost gout = out;
                match out {
                    OpOutcome::Bad(e) => Err(e),
                    OpOutcome::Val(v) => {
                        self.stack.pop().unwrap();
                        self.stack.pop().unwrap();
                        self.stack.push(v);
                        self.instruction_pointer = ip + 1;
                        proof {
                            binary_stack_facts(old(self).stack@, self.stack@, Some(v));
                            assert(vm_model(*self) =~~= VmState {
                                ip: ip + 1,
                                stack: m0.stack.drop_last().drop_last().push(vabs(v)),
                                ..m0
                            });
                        }
                        Ok(StepOutcome::Continue)
                    },
                    OpOutcome::Ask(rq, p) => {
                        self.stack.pop().unwrap();
                        self.stack.pop().unwrap();
                        self.instruction_pointer = ip + 1;
                        self.pending = Some(p);
                        proof {
                            binary_stack_facts(old(self).stack@, self.stack@, None);
                            assert(vm_model(*self) =~~= VmState {
                                ip: ip + 1,
                                stack: m0.stack.drop_last().drop_last(),
                                ..m0
                            });
                        }
                        Ok(StepOutcome::NeedHost(rq))
                    },
                }
            },
            Instruction::Multiply => {
                if self.stack.len() < 2 {
                    return Err(FlowError::StackUnderflow);
                }
                let nlen = self.stack.len();
                let out = multiply_values(&self.stack[nlen - 2], &self.stack[nlen - 1]);
                let ghost gout = out;
                match out {
                    OpOutcome::Bad(e) => Err(e),
                    OpOutcome::Val(v) => {
                        self.stack.pop().unwrap();
                        self.stack.pop().unwrap();
                        self.stack.push(v);
                        self.instruction_pointer = ip + 1;
                        proof {
                            binary_stack_facts(old(self).stack@, self.stack@, Some(v));
                            assert(vm_model(*self) =~~= VmState {
                                ip: ip + 1,
                                stack: m0.stack.drop_last().drop_last().push(vabs(v)),
                                ..m0
                            });
                        }
                        Ok(StepOutcome::Continue)
                    },
                    OpOutcome::Ask(rq, p) => {
                        self.stack.pop().unwrap();
                        self.stack.pop().unwrap();
                        self.instruction_pointer = ip + 1;
                        self.pending = Some(p);
                        proof {
                            binary_stack_facts(old(self).stack@, self.stack@, None);
                            assert(vm_model(*self) =~~= VmState {
                                ip: ip + 1,
                                stack: m0.stack.drop_last().drop_last(),
                                ..m0
                            });
                        }
                        Ok(StepOutcome::NeedHost(rq))
                    },
                }
            },
            Instruction::Divide => {
                if self.stack.len() < 2 {
                    return Err(FlowError::StackUnderflow);
                }
                let nlen = self.stack.len();
                let out = divide_values(&self.stack[nlen - 2], &self.stack[nlen - 1]);
                let ghost gout = out;
                match out {
                    OpOutcome::Bad(e) => Err(e),
                    OpOutcome::Val(v) => {
                        self.stack.pop().unwrap();
                        self.stack.pop().unwrap();
                        self.stack.push(v);
                        self.instruction_pointer = ip + 1;
                        proof {
                            binary_stack_facts(old(self).stack@, self.stack@, Some(v));
                            assert(vm_model(*self) =~~= VmState {
                                ip: ip + 1,
                                stack: m0.stack.drop_last().drop_last().push(vabs(v)),
                                ..m0
                            });
                        }
                        Ok(StepOutcome::Continue)
                    },
                    OpOutcome::Ask(rq, p) => {
                        self.stack.pop().unwrap();
                        self.stack.pop().unwrap();
                        self.instruction_pointer = ip + 1;
                        self.pending = Some(p);
                        proof {
                            binary_stack_facts(old(self).stack@, self.stack@, None);
                            assert(vm_model(*self) =~~= VmState {
                                ip: ip + 1,
                                stack: m0.stack.drop_last().drop_last(),
                                ..m0
                            });
                        }
                        Ok(StepOutcome::NeedHost(rq))
                    },
                }
            },
            Instruction::Modulo => {
                if self.stack.len() < 2 {
                    return Err(FlowError::StackUnderflow);
                }
                let nlen = self.stack.len();
                let out = modulo_values(&self.stack[nlen - 2], &self.stack[nlen - 1]);
                let ghost gout = out;
                match out {
                    OpOutcome::Bad(e) => Err(e),
                    OpOutcome::Val(v) => {
                        self.stack.pop().unwrap();
                        self.stack.pop().unwrap();
                        self.stack.push(v);
                        self.instruction_pointer = ip + 1;
                        proof {
                            binary_stack_facts(old(self).stack@, self.stack@, Some(v));
                            assert(vm_model(*self) =~~= VmState {
                                ip: ip + 1,
                                stack: m0.stack.drop_last().drop_last().push(vabs(v)),
                                ..m0
                            });
                        }
                        Ok(StepOutcome::Continue)
                    },
                    OpOutcome::Ask(rq, p) => {
                        self.stack.pop().unwrap();
                        self.stack.pop().unwrap();
                        self.instruction_pointer = ip + 1;
                        self.pending = Some(p);
                        proof {
                            binary_stack_facts(old(self).stack@, self.stack@, None);
                            assert(vm_model(*self) =~~= VmState {
                                ip: ip + 1,
                                stack: m0.stack.drop_last().drop_last(),
                                ..m0
                            });
                        }
                        Ok(StepOutcome::NeedHost(rq))
                    },
                }
            },
            Instruction::Equal => {
                if self.stack.len() < 2 {
                    return Err(FlowError::StackUnderflow);
                }
                let nlen = self.stack.len();
                let out = equal_values(&self.stack[nlen - 2], &self.stack[nlen - 1]);
                let ghost gout = out;
                match out {
                    OpOutcome::Bad(e) => Err(e),
                    OpOutcome::Val(v) => {
                        self.stack.pop().unwrap();
                        self.stack.pop().unwrap();
                        self.stack.push(v);
                        self.instruction_pointer = ip + 1;
                        proof {
                            binary_stack_facts(old(self).stack@, self.stack@, Some(v));
                            assert(vm_model(*self) =~~= VmState {
                                ip: ip + 1,
                                stack: m0.stack.drop_last().drop_last().push(vabs(v)),
                                ..m0
                            });
                        }
                        Ok(StepOutcome::Continue)
                    },
                    OpOutcome::Ask(rq, p) => {
                        self.stack.pop().unwrap();
                        self.stack.pop().unwrap();
                        self.instruction_pointer = ip + 1;
                        self.pending = Some(p);
                        proof {
                            binary_stack_facts(old(self).stack@, self.stack@, None);
                            assert(vm_model(*self) =~~= VmState {
                                ip: ip + 1,
                                stack: m0.stack.drop_last().drop_last(),
                                ..m0
                            });
                        }
                        Ok(StepOutcome::NeedHost(rq))
                    },
                }
            },
            Instruction::NotEqual => {
                if self.stack.len() < 2 {
                    return Err(FlowError::StackUnderflow);
                }
                let nlen = self.stack.len();
                let out0 = equal_values(&self.stack[nlen - 2], &self.stack[nlen - 1]);
                let out = negate_outcome(out0);
                let ghost gout = out;
                match out {
                    OpOutcome::Bad(e) => Err(e),
                    OpOutcome::Val(v) => {
                        self.stack.pop().unwrap();
                        self.stack.pop().unwrap();
                        self.stack.push(v);
                        self.instruction_pointer = ip + 1;
                        proof {
                            binary_stack_facts(old(self).stack@, self.stack@, Some(v));
                            assert(vm_model(*self) =~~= VmState {
                                ip: ip + 1,
                                stack: m0.stack.drop_last().drop_last().push(vabs(v)),
                                ..m0
                            });
                        }
                        Ok(StepOutcome::Continue)
                    },
                    OpOutcome::Ask(rq, p) => {
                        self.stack.pop().unwrap();
                        self.stack.pop().unwrap();
                        self.instruction_pointer = ip + 1;
                        self.pending = Some(p);
                        proof {
                            binary_stack_facts(old(self).stack@, self.stack@, None);
                            assert(vm_model(*self) =~~= VmState {
                                ip: ip + 1,
                                stack: m0.stack.drop_last().drop_last(),
                                ..m0
                            });
                        }
                        Ok(StepOutcome::NeedHost(rq))
                    },
                }
            },
            Instruction::Less => {
                if self.stack.len() < 2 {
                    return Err(FlowError::StackUnderflow);
                }
                let nlen = self.stack.len();
                let out = compare_values(FloatCmpOp::Less, &self.stack[nlen - 2], &self.stack[nlen - 1]);
                let ghost gout = out;
                match out {
                    OpOutcome::Bad(e) => Err(e),
                    OpOutcome::Val(v) => {
                        self.stack.pop().unwrap();
                        self.stack.pop().unwrap();
                        self.stack.push(v);
                        self.instruction_pointer = ip + 1;
                        proof {
                            binary_stack_facts(old(self).stack@, self.stack@, Some(v));
                            assert(vm_model(*self) =~~= VmState {
                                ip: ip + 1,
                                stack: m0.stack.drop_last().drop_last().push(vabs(v)),
                                ..m0
                            });
                        }
                        Ok(StepOutcome::Continue)
                    },
                    OpOutcome::Ask(rq, p) => {
                        self.stack.pop().unwrap();
                        self.stack.pop().unwrap();
                        self.instruction_pointer = ip + 1;
                        self.pending = Some(p);
                        proof {
                            binary_stack_facts(old(self).stack@, self.stack@, None);
                            assert(vm_model(*self) =~~= VmState {
                                ip: ip + 1,
                                stack: m0.stack.drop_last().drop_last(),
                                ..m0
                            });
                        }
                        Ok(StepOutcome::NeedHost(rq))
                    },
                }
            },
            Instruction::LessEqual => {
                if self.stack.len() < 2 {
                    return Err(FlowError::StackUnderflow);
                }
                let nlen = self.stack.len();
                let out = compare_values(FloatCmpOp::LessEqual, &self.stack[nlen - 2], &self.stack[nlen - 1]);
                let ghost gout = out;
                match out {
                    OpOutcome::Bad(e) => Err(e),
                    OpOutcome::Val(v) => {
                        self.stack.pop().unwrap();
                        self.stack.pop().unwrap();
                        self.stack.push(v);
                        self.instruction_pointer = ip + 1;
                        proof {
                            binary_stack_facts(old(self).stack@, self.stack@, Some(v));
                            assert(vm_model(*self) =~~= VmState {
                                ip: ip + 1,
                                stack: m0.stack.drop_last().drop_last().push(vabs(v)),
                                ..m0
                            });
                        }
                        Ok(StepOutcome::Continue)
                    },
                    OpOutcome::Ask(rq, p) => {
                        self.stack.pop().unwrap();
                        self.stack.pop().unwrap();
                        self.instruction_pointer = ip + 1;
                        self.pending = Some(p);
                        proof {
                            binary_stack_facts(old(self).stack@, self.stack@, None);
                            assert(vm_model(*self) =~~= VmState {
                                ip: ip + 1,
                                stack: m0.stack.drop_last().drop_last(),
                                ..m0
                            });
                        }
                        Ok(StepOutcome::NeedHost(rq))
                    },
                }
            },
            Instruction::Greater => {
                if self.stack.len() < 2 {
                    return Err(FlowError::StackUnderflow);
                }
                let nlen = self.stack.len();
                let out = compare_values(FloatCmpOp::Greater, &self.stack[nlen - 2], &self.stack[nlen - 1]);
                let ghost gout = out;
                match out {
                    OpOutcome::Bad(e) => Err(e),
                    OpOutcome::Val(v) => {
                        self.stack.pop().unwrap();
                        self.stack.pop().unwrap();
                        self.stack.push(v);
                        self.instruction_pointer = ip + 1;
                        proof {
                            binary_stack_facts(old(self).stack@, self.stack@, Some(v));
                            assert(vm_model(*self) =~~= VmState {
                                ip: ip + 1,
                                stack: m0.stack.drop_last().drop_last().push(vabs(v)),
                                ..m0
                            });
                        }
                        Ok(StepOutcome::Continue)
                    },
                    OpOutcome::Ask(rq, p) => {
                        self.stack.pop().unwrap();
                        self.stack.pop().unwrap();
                        self.instruction_pointer = ip + 1;
                        self.pending = Some(p);
                        proof {
                            binary_stack_facts(old(self).stack@, self.stack@, None);
                            assert(vm_model(*self) =~~= VmState {
                                ip: ip + 1,
                                stack: m0.stack.drop_last().drop_last(),
                                ..m0
                            });
                        }
                        Ok(StepOutcome::NeedHost(rq))
                    },
                }
            },
            Instruction::GreaterEqual => {
                if self.stack.len() < 2 {
                    return Err(FlowError::StackUnderflow);
                }
                let nlen = self.stack.len();
                let out = compare_values(FloatCmpOp::GreaterEqual, &self.stack[nlen - 2], &self.stack[nlen - 1]);
                let ghost gout = out;
                match out {
                    OpOutcome::Bad(e) => Err(e),
                    OpOutcome::Val(v) => {
                        self.stack.pop().unwrap();
                        self.stack.pop().unwrap();
                        self.stack.push(v);
                        self.instruction_pointer = ip + 1;
                        proof {
                            binary_stack_facts(old(self).stack@, self.stack@, Some(v));
                            assert(vm_model(*self) =~~= VmState {
                                ip: ip + 1,
                                stack: m0.stack.drop_last().drop_last().push(vabs(v)),
                                ..m0
                            });
                        }
                        Ok(StepOutcome::Continue)
                    },
                    OpOutcome::Ask(rq, p) => {
                        self.stack.pop().unwrap();
                        self.stack.pop().unwrap();
                        self.instruction_pointer = ip + 1;
                        self.pending = Some(p);
                        proof {
                            binary_stack_facts(old(self).stack@, self.stack@, None);
                            assert(vm_model(*self) =~~= VmState {
                                ip: ip + 1,
                                stack: m0.stack.drop_last().drop_last(),
                                ..m0
                            });
                        }
                        Ok(StepOutcome::NeedHost(rq))
                    },
                }
            },
            Instruction::Not => {
                if self.stack.len() == 0 {
                    return Err(FlowError::StackUnderflow);
                }
                let v = self.stack.pop().unwrap();
                let t = v.is_truthy();
                self.stack.push(Value::Boolean(!t));
                self.instruction_pointer = ip + 1;
                proof {
                    assert(vabs_seq(self.stack@) =~= m0.stack.drop_last().push(
                        ValueModel::Bool(!model_truthy(m0.stack.last())),
                    )) by {
                        lemma_vabs_seq_push(old(self).stack@.drop_last(), Value::Boolean(!t));
                        lemma_vabs_seq_subrange(
                            old(self).stack@,
                            0,
                            old(self).stack@.len() - 1,
                        );
                        assert(old(self).stack@.subrange(0, old(self).stack@.len() - 1)
                            =~= old(self).stack@.drop_last());
                        assert(self.stack@ =~= old(self).stack@.drop_last().push(
                            Value::Boolean(!t),
                        ));
                    }
                    assert(vm_model(*self) =~~= VmState {
                        ip: ip + 1,
                        stack: m0.stack.drop_last().push(
                            ValueModel::Bool(!model_truthy(m0.stack.last())),
                        ),
                        ..m0
                    });
                }
                Ok(StepOutcome::Continue)
            },
            Instruction::Negate => {
                if self.stack.len() == 0 {
                    return Err(FlowError::StackUnderflow);
                }
                let nlen = self.stack.len();
                let out = negate_value(&self.stack[nlen - 1]);
                match out {
                    OpOutcome::Bad(e) => Err(e),
                    OpOutcome::Val(v2) => {
                        self.stack.pop().unwrap();
                        self.stack.push(v2);
                        self.instruction_pointer = ip + 1;
                        proof {
                            lemma_vabs_drop_last(old(self).stack@);
                            assert(self.stack@ =~= old(self).stack@.drop_last().push(v2));
                            lemma_vabs_seq_push(old(self).stack@.drop_last(), v2);
                            assert(vm_model(*self) =~~= VmState {
                                ip: ip + 1,
                                stack: m0.stack.drop_last().push(vabs(v2)),
                                ..m0
                            });
                        }
                        Ok(StepOutcome::Continue)
                    },
                    OpOutcome::Ask(rq, p) => {
                        self.stack.pop().unwrap();
                        self.instruction_pointer = ip + 1;
                        self.pending = Some(p);
                        proof {
                            lemma_vabs_drop_last(old(self).stack@);
                            assert(self.stack@ =~= old(self).stack@.drop_last());
                            assert(vm_model(*self) =~~= VmState {
                                ip: ip + 1,
                                stack: m0.stack.drop_last(),
                                ..m0
                            });
                        }
                        Ok(StepOutcome::NeedHost(rq))
                    },
                }
            },
            _ => {
                proof {
                    assert(false);
                }
                Err(FlowError::Unimplemented)
            },
        }
    }
}

/// Overflow promotion law: adding, subtracting or multiplying two machine
/// integers yields the machine-integer result when it fits, and otherwise
/// promotes both operands and yields a big integer carrying the exact
/// mathematical result.
pub proof fn lemma_overflow_promotion(a: int, b: int)
    requires
        fits_i64(a),
        fits_i64(b),
    ensures
        spec_add(ValueModel::Int(a), ValueModel::Int(b)) == if fits_i64(a + b) {
            OpSpec::Val(ValueModel::Int(a + b))
        } else {
            OpSpec::Val(ValueModel::Big(a + b))
        },
        spec_sub(ValueModel::Int(a), ValueModel::Int(b)) == if fits_i64(a - b) {
            OpSpec::Val(ValueModel::Int(a - b))
        } else {
            OpSpec::Val(ValueModel::Big(a - b))
        },
        spec_mul(ValueModel::Int(a), ValueModel::Int(b)) == if fits_i64(a * b) {
            OpSpec::Val(ValueModel::Int(a * b))
        } else {
            OpSpec::Val(ValueModel::Big(a * b))
        },
{
}

/// Short-circuit law for `and` with a false left operand: the three
/// emitted instructions (load the constant, duplicate it, jump if false)
/// skip straight past the right operand.  The machine lands at the jump
/// target with the false value left on the stack and with its frames,
/// globals and output untouched: the right operand is never executed.
pub proof fn lemma_short_circuit_and(prog: Seq<ChunkModel>, s0: VmState, k: int, target: int)
    requires
        0 <= s0.chunk < prog.len(),
        0 <= s0.ip,
        s0.ip + 3 <= prog[s0.chunk].code.len(),
        prog[s0.chunk].code[s0.ip] == Instruction::LoadConstant(k as usize),
        prog[s0.chunk].code[s0.ip + 1] == Instruction::Duplicate,
        prog[s0.chunk].code[s0.ip + 2] == Instruction::JumpIfFalse(target as usize),
        0 <= k < prog[s0.chunk].consts.len(),
        prog[s0.chunk].consts[k] == ValueModel::Bool(false),
        k <= usize::MAX,
        0 <= target <= usize::MAX,
    ensures
        reaches(
            prog,
            s0,
            VmState { ip: target, stack: s0.stack.push(ValueModel::Bool(false)), ..s0 },
            3,
        ),
{
    let s1 = VmState {
        ip: s0.ip + 1,
        stack: s0.stack.push(ValueModel::Bool(false)),
        ..s0
    };
    let s2 = VmState {
        ip: s0.ip + 2,
        stack: s1.stack.push(ValueModel::Bool(false)),
        ..s1
    };
    let s3 = VmState { ip: target, stack: s2.stack.drop_last(), ..s2 };
    assert(spec_step(prog, s0) == StepResult::Next(s1));
    assert(spec_step(prog, s1) == StepResult::Next(s2)) by {
        assert(s2.stack =~= s1.stack.push(s1.stack.last()));
    }
    assert(spec_step(prog, s2) == StepResult::Next(s3)) by {
        assert(!model_truthy(s2.stack.last()));
    }
    let sf = VmState {
        ip: target,
        stack: s0.stack.push(ValueModel::Bool(false)),
        ..s0
    };
    assert(s3.stack =~= sf.stack);
    assert(s3 == sf);
    assert(reaches(prog, s3, sf, 0));
    assert(reaches(prog, s2, sf, 1));
    assert(reaches(prog, s1, sf, 2));
    assert(reaches(prog, s0, sf, 3));
}

/// Short-circuit law for `or` with a true left operand: the machine runs
/// the load, the duplicate, the conditional jump (not taken) and the
/// unconditional jump over the right operand, landing at the jump target
/// with the true value on the stack and everything else untouched.
pub proof fn lemma_short_circuit_or(prog: Seq<ChunkModel>, s0: VmState, k: int, target: int)
    requires
        0 <= s0.chunk < prog.len(),
        0 <= s0.ip,
        s0.ip + 4 <= prog[s0.chunk].code.len(),
        prog[s0.chunk].code[s0.ip] == Instruction::LoadConstant(k as usize),
        prog[s0.chunk].code[s0.ip + 1] == Instruction::Duplicate,
        prog[s0.chunk].code[s0.ip + 2] == Instruction::JumpIfFalse((s0.ip + 4) as usize),
        prog[s0.chunk].code[s0.ip + 3] == Instruction::Jump(target as usize),
        0 <= k < prog[s0.chunk].consts.len(),
        prog[s0.chunk].consts[k] == ValueModel::Bool(true),
        k <= usize::MAX,
        0 <= target <= usize::MAX,
        s0.ip + 4 <= usize::MAX,
    ensures
        reaches(
            prog,
            s0,
            VmState { ip: target, stack: s0.stack.push(ValueModel::Bool(true)), ..s0 },
            4,
        ),
{
    let s1 = VmState {
        ip: s0.ip + 1,
        stack: s0.stack.push(ValueModel::Bool(true)),
        ..s0
    };
    let s2 = VmState {
        ip: s0.ip + 2,
        stack: s1.stack.push(ValueModel::Bool(true)),
        ..s1
    };
    let s3 = VmState { ip: s0.ip + 3, stack: s2.stack.drop_last(), ..s2 };
    let s4 = VmState { ip: target, ..s3 };
    assert(spec_step(prog, s0) == StepResult::Next(s1));
    assert(spec_step(prog, s1) == StepResult::Next(s2)) by {
        assert(s2.stack =~= s1.stack.push(s1.stack.last()));
    }
    assert(spec_step(prog, s2) == StepResult::Next(s3)) by {
        assert(model_truthy(s2.stack.last()));
    }
    assert(spec_step(prog, s3) == StepResult::Next(s4));
    let sf = VmState {
        ip: target,
        stack: s0.stack.push(ValueModel::Bool(true)),
        ..s0
    };
    assert(s4.stack =~= sf.stack);
    assert(s4 == sf);
    assert(reaches(prog, s4, sf, 0));
    assert(reaches(prog, s3, sf, 1));
    assert(reaches(prog, s2, sf, 2));
    assert(reaches(prog, s1, sf, 3));
    assert(reaches(prog, s0, sf, 4));
}

/// Jump-patching law: an `if` whose condition is the false literal
/// compiles to a constant load and a conditional forward jump; executing
/// those two instructions lands exactly at the patched target, past the
/// whole branch body, with the machine state otherwise unchanged.  The
/// branch body, whatever it is, is never entered.
pub proof fn lemma_false_branch_skipped(
    prog: Seq<ChunkModel>,
    s0: VmState,
    k: int,
    target: int,
)
    requires
        0 <= s0.chunk < prog.len(),
        0 <= s0.ip,
        s0.ip + 2 <= prog[s0.chunk].code.len(),
        prog[s0.chunk].code[s0.ip] == Instruction::LoadConstant(k as usize),
        prog[s0.chunk].code[s0.ip + 1] == Instruction::JumpIfFalse(target as usize),
        0 <= k < prog[s0.chunk].consts.len(),
        prog[s0.chunk].consts[k] == ValueModel::Bool(false),
        k <= usize::MAX,
        0 <= target <= usize::MAX,
    ensures
        reaches(prog, s0, VmState { ip: target, ..s0 }, 2),
{
    let s1 = VmState {
        ip: s0.ip + 1,
        stack: s0.stack.push(ValueModel::Bool(false)),
        ..s0
    };
    let s2 = VmState { ip: target, stack: s1.stack.drop_last(), ..s1 };
    assert(spec_step(prog, s0) == StepResult::Next(s1));
    assert(spec_step(prog, s1) == StepResult::Next(s2)) by {
        assert(!model_truthy(s1.stack.last()));
    }
    let sf = VmState { ip: target, ..s0 };
    assert(s2.stack =~= sf.stack);
    assert(s2 == sf);
    assert(reaches(prog, s2, sf, 0));
    assert(reaches(prog, s1, sf, 1));
    assert(reaches(prog, s0, sf, 2));
}

} // verus!
