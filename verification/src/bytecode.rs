//! The bytecode instruction set, the chunk that carries compiled code, and
//! the little-endian binary chunk format.

use crate::error::FlowError;
use crate::value::Value;
use crate::value::value_wf;
use vstd::prelude::*;

verus! {

/// Magic signature at the start of every serialized chunk: "FLOW".
pub const MAGIC_NUMBER: u32 = 0x464C4F57;

pub const VERSION_MAJOR: u16 = 1;

pub const VERSION_MINOR: u16 = 0;

/// Constant pool entry types of the binary format.
#[derive(Clone, Copy, PartialEq, Eq, Debug)]
pub enum ConstantType {
    Integer,
    Float,
    String,
    Boolean,
    Null,
    Function,
}

impl ConstantType {
    /// The one-byte tag written to the constant pool.
    pub fn tag(&self) -> (r: u8)
        ensures
            r == match *self {
                ConstantType::Integer => 0x01u8,
                ConstantType::Float => 0x02u8,
                ConstantType::String => 0x03u8,
                ConstantType::Boolean => 0x04u8,
                ConstantType::Null => 0x05u8,
                ConstantType::Function => 0x06u8,
            },
    {
        match self {
            ConstantType::Integer => 0x01,
            ConstantType::Float => 0x02,
            ConstantType::String => 0x03,
            ConstantType::Boolean => 0x04,
            ConstantType::Null => 0x05,
            ConstantType::Function => 0x06,
        }
    }
}

/// Bytecode instructions.  Jump targets are absolute instruction indices
/// into the current chunk.
#[derive(Clone, PartialEq, Debug)]
pub enum Instruction {
    LoadConstant(usize),
    LoadLocal(usize),
    StoreLocal(usize),
    LoadGlobal(String),
    StoreGlobal(String),
    Duplicate,
    Pop,
    Swap,
    Add,
    Subtract,
    Multiply,
    Divide,
    Modulo,
    Negate,
    Equal,
    NotEqual,
    Less,
    LessEqual,
    Greater,
    GreaterEqual,
    And,
    Or,
    Not,
    Jump(usize),
    JumpIfFalse(usize),
    JumpIfTrue(usize),
    Call(usize),
    Return,
    ReturnValue,
    NewArray(usize),
    NewObject,
    GetIndex,
    SetIndex,
    GetProperty(String),
    SetProperty(String),
    NewFunction(usize),
    NewClosure(usize),
    CallMethod(String),
    CallBuiltin(String),
    Print,
    Halt,
}

impl Instruction {
    /// The name carried by a built-in call instruction.
    pub fn builtin_name(&self) -> (r: &String)
        requires
            *self is CallBuiltin,
        ensures
            *r == self->CallBuiltin_0,
    {
        match self {
            Instruction::CallBuiltin(name) => name,
            _ => vstd::pervasive::unreached(),
        }
    }
}

/// A named reference to a compiled function body.
pub struct FunctionRef {
    pub name: String,
    pub arity: usize,
    pub chunk_index: usize,
    pub locals_count: usize,
}

/// The fixed-size header of a serialized chunk.
#[derive(Clone, PartialEq, Eq, Debug)]
pub struct BytecodeHeader {
    pub magic_number: u32,
    pub version_major: u16,
    pub version_minor: u16,
    pub constant_pool_size: u32,
    pub code_size: u32,
    pub entry_point: u32,
}

/// Little-endian byte encodings used by the binary format.
pub open spec fn u16_le(x: u16) -> Seq<u8> {
    seq![(x % 256) as u8, (x / 256) as u8]
}

pub open spec fn u32_le(x: u32) -> Seq<u8> {
    seq![
        (x % 256) as u8,
        ((x / 256) % 256) as u8,
        ((x / 65536) % 256) as u8,
        ((x / 16777216) % 256) as u8,
    ]
}

pub open spec fn u64_le(x: u64) -> Seq<u8> {
    seq![
        (x % 256) as u8,
        ((x / 256) % 256) as u8,
        ((x / 65536) % 256) as u8,
        ((x / 16777216) % 256) as u8,
        ((x / 4294967296) % 256) as u8,
        ((x / 1099511627776) % 256) as u8,
        ((x / 281474976710656) % 256) as u8,
        ((x / 72057594037927936) % 256) as u8,
    ]
}

/// Little-endian decodings: the value denoted by 2 or 4 bytes.
pub open spec fn u16_from_le(b0: u8, b1: u8) -> int {
    b0 + 256 * b1
}

pub open spec fn u32_from_le(b0: u8, b1: u8, b2: u8, b3: u8) -> int {
    b0 + 256 * b1 + 65536 * b2 + 16777216 * b3
}

/// Decoding inverts encoding.
pub proof fn lemma_u16_le_roundtrip(x: u16)
    ensures
        u16_from_le(u16_le(x)[0], u16_le(x)[1]) == x,
{
}

pub proof fn lemma_u32_le_roundtrip(x: u32)
    ensures
        u32_from_le(u32_le(x)[0], u32_le(x)[1], u32_le(x)[2], u32_le(x)[3]) == x,
{
}

/// The 20 bytes of a serialized header.
pub open spec fn header_bytes(h: BytecodeHeader) -> Seq<u8> {
    u32_le(h.magic_number) + u16_le(h.version_major) + u16_le(h.version_minor) + u32_le(
        h.constant_pool_size,
    ) + u32_le(h.code_size) + u32_le(h.entry_point)
}

fn push_u16_le(out: &mut Vec<u8>, x: u16)
    ensures
        final(out)@ == old(out)@ + u16_le(x),
{
    out.push((x % 256) as u8);
    out.push((x / 256) as u8);
    proof {
        assert(final(out)@ =~= old(out)@ + u16_le(x));
    }
}

fn push_u32_le(out: &mut Vec<u8>, x: u32)
    ensures
        final(out)@ == old(out)@ + u32_le(x),
{
    out.push((x % 256) as u8);
    out.push(((x / 256) % 256) as u8);
    out.push(((x / 65536) % 256) as u8);
    out.push(((x / 16777216) % 256) as u8);
    proof {
        assert(final(out)@ =~= old(out)@ + u32_le(x));
    }
}

fn push_u64_le(out: &mut Vec<u8>, x: u64)
    ensures
        final(out)@ == old(out)@ + u64_le(x),
{
    out.push((x % 256) as u8);
    out.push(((x / 256) % 256) as u8);
    out.push(((x / 65536) % 256) as u8);
    out.push(((x / 16777216) % 256) as u8);
    out.push(((x / 4294967296) % 256) as u8);
    out.push(((x / 1099511627776) % 256) as u8);
    out.push(((x / 281474976710656) % 256) as u8);
    out.push(((x / 72057594037927936) % 256) as u8);
    proof {
        assert(final(out)@ =~= old(out)@ + u64_le(x));
    }
}

impl BytecodeHeader {
    /// A header for a chunk with the given pool size, code size and entry
    /// point, stamped with the fixed magic number and version.
    pub fn new(constant_pool_size: u32, code_size: u32, entry_point: u32) -> (r: Self)
        ensures
            r == (BytecodeHeader {
                magic_number: MAGIC_NUMBER,
                version_major: VERSION_MAJOR,
                version_minor: VERSION_MINOR,
                constant_pool_size,
                code_size,
                entry_point,
            }),
    {
        Self {
            magic_number: MAGIC_NUMBER,
            version_major: VERSION_MAJOR,
            version_minor: VERSION_MINOR,
            constant_pool_size,
            code_size,
            entry_point,
        }
    }

    /// Serialize this header: 20 bytes, all fields little-endian.
    pub fn write_to(&self, out: &mut Vec<u8>)
        ensures
            final(out)@ == old(out)@ + header_bytes(*self),
    {
        push_u32_le(out, self.magic_number);
        push_u16_le(out, self.version_major);
        push_u16_le(out, self.version_minor);
        push_u32_le(out, self.constant_pool_size);
        push_u32_le(out, self.code_size);
        push_u32_le(out, self.entry_point);
        proof {
            assert(final(out)@ =~= old(out)@ + header_bytes(*self));
        }
    }

    /// Parse a header from the start of `bytes`.  Fails when fewer than 20
    /// bytes are present or the magic number does not match; version
    /// fields are read but not enforced.
    pub fn read_from(bytes: &[u8]) -> (r: Result<BytecodeHeader, FlowError>)
        ensures
            match r {
                Ok(h) => {
                    &&& bytes@.len() >= 20
                    &&& h.magic_number == MAGIC_NUMBER
                    &&& u32_from_le(bytes@[0], bytes@[1], bytes@[2], bytes@[3])
                        == MAGIC_NUMBER
                    &&& h.version_major == u16_from_le(bytes@[4], bytes@[5])
                    &&& h.version_minor == u16_from_le(bytes@[6], bytes@[7])
                    &&& h.constant_pool_size == u32_from_le(
                        bytes@[8],
                        bytes@[9],
                        bytes@[10],
                        bytes@[11],
                    )
                    &&& h.code_size == u32_from_le(
                        bytes@[12],
                        bytes@[13],
                        bytes@[14],
                        bytes@[15],
                    )
                    &&& h.entry_point == u32_from_le(
                        bytes@[16],
                        bytes@[17],
                        bytes@[18],
                        bytes@[19],
                    )
                },
                Err(e) => {
                    &&& e == FlowError::InvalidBytecode
                    &&& (bytes@.len() < 20 || u32_from_le(
                        bytes@[0],
                        bytes@[1],
                        bytes@[2],
                        bytes@[3],
                    ) != MAGIC_NUMBER)
                },
            },
    {
        if bytes.len() < 20 {
            return Err(FlowError::InvalidBytecode);
        }
        let magic_number = read_u32_le(bytes, 0);
        if magic_number != MAGIC_NUMBER {
            return Err(FlowError::InvalidBytecode);
        }
        let version_major = read_u16_le(bytes, 4);
        let version_minor = read_u16_le(bytes, 6);
        let constant_pool_size = read_u32_le(bytes, 8);
        let code_size = read_u32_le(bytes, 12);
        let entry_point = read_u32_le(bytes, 16);
        Ok(
            BytecodeHeader {
                magic_number,
                version_major,
                version_minor,
                constant_pool_size,
                code_size,
                entry_point,
            },
        )
    }
}

fn read_u16_le(bytes: &[u8], at: usize) -> (r: u16)
    requires
        at + 2 <= bytes@.len(),
    ensures
        r == u16_from_le(bytes@[at as int], bytes@[at + 1]),
{
    let b0 = bytes[at] as u16;
    let b1 = bytes[at + 1] as u16;
    b0 + 256 * b1
}

fn read_u32_le(bytes: &[u8], at: usize) -> (r: u32)
    requires
        at + 4 <= bytes@.len(),
    ensures
        r == u32_from_le(bytes@[at as int], bytes@[at + 1], bytes@[at + 2], bytes@[at + 3]),
{
    let b0 = bytes[at] as u32;
    let b1 = bytes[at + 1] as u32;
    let b2 = bytes[at + 2] as u32;
    let b3 = bytes[at + 3] as u32;
    b0 + 256 * b1 + 65536 * b2 + 16777216 * b3
}

/// A header written with `write_to` is read back unchanged by
/// `read_from`, as long as the magic number is the fixed signature.
pub proof fn lemma_header_round_trip(h: BytecodeHeader, rest: Seq<u8>)
    requires
        h.magic_number == MAGIC_NUMBER,
    ensures
        ({
            let b = header_bytes(h) + rest;
            &&& b.len() >= 20
            &&& u32_from_le(b[0], b[1], b[2], b[3]) == h.magic_number
            &&& u16_from_le(b[4], b[5]) == h.version_major
            &&& u16_from_le(b[6], b[7]) == h.version_minor
            &&& u32_from_le(b[8], b[9], b[10], b[11]) == h.constant_pool_size
            &&& u32_from_le(b[12], b[13], b[14], b[15]) == h.code_size
            &&& u32_from_le(b[16], b[17], b[18], b[19]) == h.entry_point
        }),
{
    lemma_u32_le_roundtrip(h.magic_number);
    lemma_u16_le_roundtrip(h.version_major);
    lemma_u16_le_roundtrip(h.version_minor);
    lemma_u32_le_roundtrip(h.constant_pool_size);
    lemma_u32_le_roundtrip(h.code_size);
    lemma_u32_le_roundtrip(h.entry_point);
}

/// A unit of compiled bytecode: instructions, their constant pool, and one
/// source line number per instruction.
pub struct Chunk {
    pub instructions: Vec<Instruction>,
    pub constants: Vec<Value>,
    pub lines: Vec<usize>,
    pub header: Option<BytecodeHeader>,
}

/// Structural equality on scalar constants, used to deduplicate the
/// constant pool; composite and function values are never deduplicated.
pub open spec fn spec_const_eq(a: Value, b: Value) -> bool {
    match (a, b) {
        (Value::Integer(x), Value::Integer(y)) => x == y,
        (Value::Float(x), Value::Float(y)) => x == y,
        (Value::String(x), Value::String(y)) => x@ == y@,
        (Value::Boolean(x), Value::Boolean(y)) => x == y,
        (Value::Null, Value::Null) => true,
        _ => false,
    }
}

/// Every constant reference and jump target of the chunk is in range, the
/// line table parallels the instructions, and constants are well-formed.
pub open spec fn chunk_wf(c: Chunk) -> bool {
    &&& c.lines@.len() == c.instructions@.len()
    &&& forall|i: int|
        0 <= i < c.instructions@.len() ==> instruction_wf(
            #[trigger] c.instructions@[i],
            c.constants@.len() as int,
            c.instructions@.len() as int,
        )
    &&& forall|k: int| 0 <= k < c.constants@.len() ==> value_wf(#[trigger] c.constants@[k])
}

/// In-range obligations of one instruction given the pool and code sizes.
pub open spec fn instruction_wf(i: Instruction, n_consts: int, n_instrs: int) -> bool {
    match i {
        Instruction::LoadConstant(k) => k < n_consts,
        Instruction::Jump(t) => t <= n_instrs,
        Instruction::JumpIfFalse(t) => t <= n_instrs,
        Instruction::JumpIfTrue(t) => t <= n_instrs,
        _ => true,
    }
}

fn const_eq(a: &Value, b: &Value) -> (r: bool)
    ensures
        r == spec_const_eq(*a, *b),
{
    match (a, b) {
        (Value::Integer(x), Value::Integer(y)) => *x == *y,
        (Value::Float(x), Value::Float(y)) => *x == *y,
        (Value::String(x), Value::String(y)) => x.eq(y),
        (Value::Boolean(x), Value::Boolean(y)) => *x == *y,
        (Value::Null, Value::Null) => true,
        _ => false,
    }
}

impl Chunk {
    /// An empty chunk.
    pub fn new() -> (r: Chunk)
        ensures
            r.instructions@.len() == 0,
            r.constants@.len() == 0,
            r.lines@.len() == 0,
            r.header is None,
            chunk_wf(r),
    {
        Chunk { instructions: Vec::new(), constants: Vec::new(), lines: Vec::new(), header: None }
    }

    /// Append an instruction together with its source line.
    pub fn write_instruction(&mut self, instruction: Instruction, line: usize)
        ensures
            final(self).instructions@ == old(self).instructions@.push(instruction),
            final(self).lines@ == old(self).lines@.push(line),
            final(self).constants@ == old(self).constants@,
            final(self).header == old(self).header,
    {
        self.instructions.push(instruction);
        self.lines.push(line);
    }

    /// Intern a constant.  When some existing constant is scalar-equal to
    /// `value`, the first such index is returned and the pool is left
    /// unchanged; otherwise `value` is appended and its new index
    /// returned.
    pub fn add_constant(&mut self, value: Value) -> (r: usize)
        requires
            value_wf(value),
        ensures
            final(self).instructions@ == old(self).instructions@,
            final(self).lines@ == old(self).lines@,
            final(self).header == old(self).header,
            r < final(self).constants@.len(),
            (exists|j: int|
                0 <= j < old(self).constants@.len() && spec_const_eq(
                    #[trigger] old(self).constants@[j],
                    value,
                )) ==> {
                &&& final(self).constants@ == old(self).constants@
                &&& spec_const_eq(final(self).constants@[r as int], value)
                &&& forall|j: int|
                    0 <= j < r ==> !spec_const_eq(#[trigger] old(self).constants@[j], value)
            },
            (forall|j: int|
                0 <= j < old(self).constants@.len() ==> !spec_const_eq(
                    #[trigger] old(self).constants@[j],
                    value,
                )) ==> {
                &&& final(self).constants@ == old(self).constants@.push(value)
                &&& r == old(self).constants@.len()
            },
            old(self).constants@.len() <= final(self).constants@.len(),
            forall|k: int|
                0 <= k < old(self).constants@.len() ==> final(self).constants@[k] == old(self).constants@[k],
            final(self).constants@.len() <= old(self).constants@.len() + 1,
            final(self).constants@.len() == old(self).constants@.len() + 1 ==> final(self).constants@.last() == value,
            spec_const_eq(final(self).constants@[r as int], value) || final(self).constants@[r as int] == value,
            (forall|k: int|
                0 <= k < old(self).constants@.len() ==> value_wf(
                    #[trigger] old(self).constants@[k],
                )) ==> forall|k: int|
                0 <= k < final(self).constants@.len() ==> value_wf(
                    #[trigger] final(self).constants@[k],
                ),
    {
        let n = self.constants.len();
        let mut i: usize = 0;
        while i < n
            invariant
                i <= n,
                n == self.constants@.len(),
                forall|j: int|
                    0 <= j < i ==> !spec_const_eq(#[trigger] self.constants@[j], value),
            decreases n - i,
        {
            if const_eq(&self.constants[i], &value) {
                return i;
            }
            i = i + 1;
        }
        self.constants.push(value);
        n
    }

    /// Fix the header once compilation of this chunk is complete.
    pub fn finalize(&mut self)
        requires
            old(self).constants@.len() <= u32::MAX,
            old(self).instructions@.len() <= u32::MAX,
        ensures
            final(self).instructions@ == old(self).instructions@,
            final(self).constants@ == old(self).constants@,
            final(self).lines@ == old(self).lines@,
            final(self).header == Some(
                BytecodeHeader {
                    magic_number: MAGIC_NUMBER,
                    version_major: VERSION_MAJOR,
                    version_minor: VERSION_MINOR,
                    constant_pool_size: old(self).constants@.len() as u32,
                    code_size: old(self).instructions@.len() as u32,
                    entry_point: 0u32,
                },
            ),
    {
        let header = BytecodeHeader::new(
            self.constants.len() as u32,
            self.instructions.len() as u32,
            0,
        );
        self.header = Some(header);
    }
}

/// The serialized form of one constant-pool entry: a one-byte type tag
/// followed by a type-specific little-endian payload.  Big integers,
/// arrays, objects and functions are not serializable.
pub open spec fn constant_bytes(v: Value) -> Option<Seq<u8>> {
    match v {
        Value::Integer(i) => Some(seq![0x01u8] + u64_le(i as u64)),
        Value::Float(bits) => Some(seq![0x02u8] + u64_le(bits)),
        Value::String(s) => {
            let bytes = vstd::utf8::encode_utf8(s@);
            if bytes.len() <= 0xFFFF_FFFF {
                Some(seq![0x03u8] + u32_le(bytes.len() as u32) + bytes)
            } else {
                None
            }
        },
        Value::Boolean(b) => Some(
            seq![0x04u8, if b {
                1u8
            } else {
                0u8
            }],
        ),
        Value::Null => Some(seq![0x05u8]),
        _ => None,
    }
}

/// The serialized form of one instruction: a one-byte opcode and, for the
/// operand-carrying instructions, a two-byte little-endian operand.
/// Instructions with string operands have no binary encoding.
pub open spec fn instruction_bytes(i: Instruction) -> Option<Seq<u8>> {
    match i {
        Instruction::LoadConstant(k) => op_with_u16(0x01, k),
        Instruction::LoadLocal(k) => op_with_u16(0x02, k),
        Instruction::StoreLocal(k) => op_with_u16(0x03, k),
        Instruction::Add => Some(seq![0x10u8]),
        Instruction::Subtract => Some(seq![0x11u8]),
        Instruction::Multiply => Some(seq![0x12u8]),
        Instruction::Divide => Some(seq![0x13u8]),
        Instruction::Modulo => Some(seq![0x14u8]),
        Instruction::Negate => Some(seq![0x15u8]),
        Instruction::Equal => Some(seq![0x20u8]),
        Instruction::NotEqual => Some(seq![0x21u8]),
        Instruction::Less => Some(seq![0x22u8]),
        Instruction::LessEqual => Some(seq![0x23u8]),
        Instruction::Greater => Some(seq![0x24u8]),
        Instruction::GreaterEqual => Some(seq![0x25u8]),
        Instruction::And => Some(seq![0x30u8]),
        Instruction::Or => Some(seq![0x31u8]),
        Instruction::Not => Some(seq![0x32u8]),
        Instruction::Jump(t) => op_with_u16(0x40, t),
        Instruction::JumpIfFalse(t) => op_with_u16(0x41, t),
        Instruction::JumpIfTrue(t) => op_with_u16(0x42, t),
        Instruction::Call(argc) => op_with_u16(0x50, argc),
        Instruction::Return => Some(seq![0x51u8]),
        Instruction::ReturnValue => Some(seq![0x52u8]),
        Instruction::Pop => Some(seq![0x60u8]),
        Instruction::Duplicate => Some(seq![0x61u8]),
        Instruction::Swap => Some(seq![0x62u8]),
        Instruction::Print => Some(seq![0x70u8]),
        Instruction::Halt => Some(seq![0xFFu8]),
        _ => None,
    }
}

/// An opcode with a two-byte operand, defined only when the operand fits.
pub open spec fn op_with_u16(op: u8, operand: usize) -> Option<Seq<u8>> {
    if operand <= 0xFFFF {
        Some(seq![op] + u16_le(operand as u16))
    } else {
        None
    }
}

/// The concatenated serialization of a sequence of constants, defined
/// only when every entry is serializable.
pub open spec fn constants_bytes(s: Seq<Value>) -> Option<Seq<u8>>
    decreases s.len(),
{
    if s.len() == 0 {
        Some(Seq::empty())
    } else {
        match (constants_bytes(s.drop_last()), constant_bytes(s.last())) {
            (Some(pre), Some(b)) => Some(pre + b),
            _ => None,
        }
    }
}

/// The concatenated serialization of an instruction sequence.
pub open spec fn instructions_bytes(s: Seq<Instruction>) -> Option<Seq<u8>>
    decreases s.len(),
{
    if s.len() == 0 {
        Some(Seq::empty())
    } else {
        match (instructions_bytes(s.drop_last()), instruction_bytes(s.last())) {
            (Some(pre), Some(b)) => Some(pre + b),
            _ => None,
        }
    }
}

/// Serialize one constant-pool entry.  On failure nothing is written.
fn write_constant(out: &mut Vec<u8>, value: &Value) -> (r: Result<(), FlowError>)
    ensures
        match r {
            Ok(()) => constant_bytes(*value) is Some && final(out)@ == old(out)@
                + constant_bytes(*value)->0,
            Err(e) => e == FlowError::InvalidBytecode && constant_bytes(*value) is None
                && final(out)@ == old(out)@,
        },
{
    match value {
        Value::Integer(i) => {
            out.push(ConstantType::Integer.tag());
            push_u64_le(out, *i as u64);
            proof {
                assert(final(out)@ =~= old(out)@ + constant_bytes(*value)->0);
            }
            Ok(())
        },
        Value::Float(bits) => {
            out.push(ConstantType::Float.tag());
            push_u64_le(out, *bits);
            proof {
                assert(final(out)@ =~= old(out)@ + constant_bytes(*value)->0);
            }
            Ok(())
        },
        Value::String(st) => {
            let mut bytes = st.as_str().as_bytes_vec();
            if bytes.len() > 0xFFFF_FFFFusize {
                return Err(FlowError::InvalidBytecode);
            }
            out.push(ConstantType::String.tag());
            push_u32_le(out, bytes.len() as u32);
            out.append(&mut bytes);
            proof {
                assert(final(out)@ =~= old(out)@ + constant_bytes(*value)->0);
            }
            Ok(())
        },
        Value::Boolean(b) => {
            out.push(ConstantType::Boolean.tag());
            out.push(
                if *b {
                    1
                } else {
                    0
                },
            );
            proof {
                assert(final(out)@ =~= old(out)@ + constant_bytes(*value)->0);
            }
            Ok(())
        },
        Value::Null => {
            out.push(ConstantType::Null.tag());
            proof {
                assert(final(out)@ =~= old(out)@ + constant_bytes(*value)->0);
            }
            Ok(())
        },
        _ => Err(FlowError::InvalidBytecode),
    }
}

/// Serialize one instruction.  On failure nothing is written.
fn write_instruction_bytes(out: &mut Vec<u8>, instruction: &Instruction) -> (r: Result<
    (),
    FlowError,
>)
    ensures
        match r {
            Ok(()) => instruction_bytes(*instruction) is Some && final(out)@ == old(out)@
                + instruction_bytes(*instruction)->0,
            Err(e) => e == FlowError::InvalidBytecode && instruction_bytes(*instruction)
                is None && final(out)@ == old(out)@,
        },
{
    match instruction {
        Instruction::LoadConstant(k) => write_op_u16(out, 0x01, *k),
        Instruction::LoadLocal(k) => write_op_u16(out, 0x02, *k),
        Instruction::StoreLocal(k) => write_op_u16(out, 0x03, *k),
        Instruction::Add => {
            write_op(out, 0x10);
            Ok(())
        },
        Instruction::Subtract => {
            write_op(out, 0x11);
            Ok(())
        },
        Instruction::Multiply => {
            write_op(out, 0x12);
            Ok(())
        },
        Instruction::Divide => {
            write_op(out, 0x13);
            Ok(())
        },
        Instruction::Modulo => {
            write_op(out, 0x14);
            Ok(())
        },
        Instruction::Negate => {
            write_op(out, 0x15);
            Ok(())
        },
        Instruction::Equal => {
            write_op(out, 0x20);
            Ok(())
        },
        Instruction::NotEqual => {
            write_op(out, 0x21);
            Ok(())
        },
        Instruction::Less => {
            write_op(out, 0x22);
            Ok(())
        },
        Instruction::LessEqual => {
            write_op(out, 0x23);
            Ok(())
        },
        Instruction::Greater => {
            write_op(out, 0x24);
            Ok(())
        },
        Instruction::GreaterEqual => {
            write_op(out, 0x25);
            Ok(())
        },
        Instruction::And => {
            write_op(out, 0x30);
            Ok(())
        },
        Instruction::Or => {
            write_op(out, 0x31);
            Ok(())
        },
        Instruction::Not => {
            write_op(out, 0x32);
            Ok(())
        },
        Instruction::Jump(t) => write_op_u16(out, 0x40, *t),
        Instruction::JumpIfFalse(t) => write_op_u16(out, 0x41, *t),
        Instruction::JumpIfTrue(t) => write_op_u16(out, 0x42, *t),
        Instruction::Call(argc) => write_op_u16(out, 0x50, *argc),
        Instruction::Return => {
            write_op(out, 0x51);
            Ok(())
        },
        Instruction::ReturnValue => {
            write_op(out, 0x52);
            Ok(())
        },
        Instruction::Pop => {
            write_op(out, 0x60);
            Ok(())
        },
        Instruction::Duplicate => {
            write_op(out, 0x61);
            Ok(())
        },
        Instruction::Swap => {
            write_op(out, 0x62);
            Ok(())
        },
        Instruction::Print => {
            write_op(out, 0x70);
            Ok(())
        },
        Instruction::Halt => {
            write_op(out, 0xFF);
            Ok(())
        },
        _ => Err(FlowError::InvalidBytecode),
    }
}

fn write_op(out: &mut Vec<u8>, op: u8)
    ensures
        final(out)@ == old(out)@ + seq![op],
{
    out.push(op);
    proof {
        assert(final(out)@ =~= old(out)@ + seq![op]);
    }
}

fn write_op_u16(out: &mut Vec<u8>, op: u8, operand: usize) -> (r: Result<(), FlowError>)
    ensures
        match r {
            Ok(()) => op_with_u16(op, operand) is Some && final(out)@ == old(out)@
                + op_with_u16(op, operand)->0,
            Err(e) => e == FlowError::InvalidBytecode && op_with_u16(op, operand) is None
                && final(out)@ == old(out)@,
        },
{
    if operand > 0xFFFFusize {
        return Err(FlowError::InvalidBytecode);
    }
    out.push(op);
    push_u16_le(out, operand as u16);
    proof {
        assert(final(out)@ =~= old(out)@ + op_with_u16(op, operand)->0);
    }
    Ok(())
}

proof fn lemma_constants_bytes_step(s: Seq<Value>, i: int)
    requires
        0 <= i < s.len(),
    ensures
        constants_bytes(s.take(i + 1)) == match (
            constants_bytes(s.take(i)),
            constant_bytes(s[i]),
        ) {
            (Some(p), Some(b)) => Some(p + b),
            _ => None,
        },
{
    assert(s.take(i + 1).drop_last() =~= s.take(i));
    assert(s.take(i + 1).last() == s[i]);
}

proof fn lemma_constants_bytes_none(s: Seq<Value>, i: int)
    requires
        0 <= i <= s.len(),
        constants_bytes(s.take(i)) is None,
    ensures
        constants_bytes(s) is None,
    decreases s.len() - i,
{
    if i == s.len() {
        assert(s.take(i) =~= s);
    } else {
        lemma_constants_bytes_step(s, i);
        lemma_constants_bytes_none(s, i + 1);
    }
}

proof fn lemma_instructions_bytes_step(s: Seq<Instruction>, i: int)
    requires
        0 <= i < s.len(),
    ensures
        instructions_bytes(s.take(i + 1)) == match (
            instructions_bytes(s.take(i)),
            instruction_bytes(s[i]),
        ) {
            (Some(p), Some(b)) => Some(p + b),
            _ => None,
        },
{
    assert(s.take(i + 1).drop_last() =~= s.take(i));
    assert(s.take(i + 1).last() == s[i]);
}

proof fn lemma_instructions_bytes_none(s: Seq<Instruction>, i: int)
    requires
        0 <= i <= s.len(),
        instructions_bytes(s.take(i)) is None,
    ensures
        instructions_bytes(s) is None,
    decreases s.len() - i,
{
    if i == s.len() {
        assert(s.take(i) =~= s);
    } else {
        lemma_instructions_bytes_step(s, i);
        lemma_instructions_bytes_none(s, i + 1);
    }
}

impl Chunk {
    /// Serialize the whole chunk: the finalized header, then the constant
    /// pool, then the instruction stream.  Fails when the chunk was not
    /// finalized or holds an unserializable constant or instruction.
    pub fn write_to_file(&self) -> (r: Result<Vec<u8>, FlowError>)
        ensures
            match r {
                Ok(bytes) => {
                    &&& self.header is Some
                    &&& constants_bytes(self.constants@) is Some
                    &&& instructions_bytes(self.instructions@) is Some
                    &&& bytes@ == header_bytes(self.header->0) + constants_bytes(
                        self.constants@,
                    )->0 + instructions_bytes(self.instructions@)->0
                },
                Err(e) => {
                    &&& e == FlowError::InvalidBytecode
                    &&& (self.header is None || constants_bytes(self.constants@) is None
                        || instructions_bytes(self.instructions@) is None)
                },
            },
    {
        let mut out: Vec<u8> = Vec::new();
        match &self.header {
            None => {
                return Err(FlowError::InvalidBytecode);
            },
            Some(h) => {
                h.write_to(&mut out);
            },
        }
        let ghost after_header = out@;
        let n = self.constants.len();
        let mut i: usize = 0;
        proof {
            assert(constants_bytes(self.constants@.take(0)) == Some(Seq::<u8>::empty()));
            assert(after_header + Seq::<u8>::empty() =~= after_header);
        }
        while i < n
            invariant
                i <= n,
                n == self.constants@.len(),
                constants_bytes(self.constants@.take(i as int)) is Some,
                out@ == after_header + constants_bytes(self.constants@.take(i as int))->0,
            decreases n - i,
        {
            let res = write_constant(&mut out, &self.constants[i]);
            proof {
                lemma_constants_bytes_step(self.constants@, i as int);
            }
            match res {
                Ok(()) => {},
                Err(e) => {
                    proof {
                        lemma_constants_bytes_none(self.constants@, i + 1);
                    }
                    return Err(e);
                },
            }
            i = i + 1;
        }
        proof {
            assert(self.constants@.take(n as int) =~= self.constants@);
        }
        let ghost after_constants = out@;
        let m = self.instructions.len();
        let mut j: usize = 0;
        proof {
            assert(instructions_bytes(self.instructions@.take(0)) == Some(
                Seq::<u8>::empty(),
            ));
            assert(after_constants + Seq::<u8>::empty() =~= after_constants);
        }
        while j < m
            invariant
                j <= m,
                m == self.instructions@.len(),
                instructions_bytes(self.instructions@.take(j as int)) is Some,
                out@ == after_constants + instructions_bytes(
                    self.instructions@.take(j as int),
                )->0,
            decreases m - j,
        {
            let res = write_instruction_bytes(&mut out, &self.instructions[j]);
            proof {
                lemma_instructions_bytes_step(self.instructions@, j as int);
            }
            match res {
                Ok(()) => {},
                Err(e) => {
                    proof {
                        lemma_instructions_bytes_none(self.instructions@, j + 1);
                    }
                    return Err(e);
                },
            }
            j = j + 1;
        }
        proof {
            assert(self.instructions@.take(m as int) =~= self.instructions@);
            assert(out@ =~= header_bytes(self.header->0) + constants_bytes(self.constants@)->0
                + instructions_bytes(self.instructions@)->0);
        }
        Ok(out)
    }
}

} // verus!
