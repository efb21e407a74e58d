use flowlang::bytecode::BytecodeHeader;
use flowlang::bytecode::Chunk;
use flowlang::bytecode::Instruction;
use flowlang::bytecode::MAGIC_NUMBER;
use flowlang::error::FlowError;
use flowlang::value::Value;

#[test]
fn header_round_trip() {
    let h = BytecodeHeader::new(3, 17, 0);
    let mut bytes: Vec<u8> = Vec::new();
    h.write_to(&mut bytes);
    assert_eq!(bytes.len(), 20);
    let parsed = BytecodeHeader::read_from(&bytes).expect("header parses");
    assert_eq!(parsed, h);
    assert_eq!(parsed.magic_number, MAGIC_NUMBER);
    assert_eq!(parsed.version_major, 1);
    assert_eq!(parsed.version_minor, 0);
    assert_eq!(parsed.constant_pool_size, 3);
    assert_eq!(parsed.code_size, 17);
    assert_eq!(parsed.entry_point, 0);
}

#[test]
fn header_rejects_bad_magic() {
    let h = BytecodeHeader::new(1, 1, 0);
    let mut bytes: Vec<u8> = Vec::new();
    h.write_to(&mut bytes);
    bytes[0] = bytes[0].wrapping_add(1);
    assert_eq!(
        BytecodeHeader::read_from(&bytes),
        Err(FlowError::InvalidBytecode)
    );
    assert_eq!(
        BytecodeHeader::read_from(&bytes[..10]),
        Err(FlowError::InvalidBytecode)
    );
}

#[test]
fn constants_are_deduplicated() {
    let mut chunk = Chunk::new();
    let a = chunk.add_constant(Value::Integer(7));
    let b = chunk.add_constant(Value::Integer(7));
    let c = chunk.add_constant(Value::Integer(8));
    let d = chunk.add_constant(Value::Null);
    let e = chunk.add_constant(Value::Null);
    assert_eq!(a, b);
    assert_ne!(a, c);
    assert_eq!(d, e);
    assert_eq!(chunk.constants.len(), 3);
    // Function values are never deduplicated.
    let f1 = chunk.add_constant(Value::BytecodeFunction {
        address: 1,
        arity: 0,
        locals_count: 0,
    });
    let f2 = chunk.add_constant(Value::BytecodeFunction {
        address: 1,
        arity: 0,
        locals_count: 0,
    });
    assert_ne!(f1, f2);
}

#[test]
fn chunk_serialization_layout() {
    let mut chunk = Chunk::new();
    let k = chunk.add_constant(Value::Integer(5));
    chunk.write_instruction(Instruction::LoadConstant(k), 1);
    chunk.write_instruction(Instruction::Print, 1);
    chunk.write_instruction(Instruction::Halt, 1);
    chunk.finalize();
    let bytes = chunk.write_to_file().expect("serializable");
    // 20-byte header, then tag 0x01 + 8 little-endian bytes for the
    // integer constant, then the three instructions.
    assert_eq!(bytes.len(), 20 + 9 + 3 + 2);
    assert_eq!(bytes[20], 0x01);
    assert_eq!(bytes[21], 5);
    assert_eq!(&bytes[29..32], &[0x01, 0x00, 0x00]);
    assert_eq!(bytes[32], 0x70);
    assert_eq!(bytes[33], 0xFF);
}

#[test]
fn unserializable_chunk_fails() {
    let mut chunk = Chunk::new();
    let k = chunk.add_constant(Value::BytecodeFunction {
        address: 0,
        arity: 0,
        locals_count: 0,
    });
    chunk.write_instruction(Instruction::LoadConstant(k), 0);
    chunk.finalize();
    assert_eq!(chunk.write_to_file(), Err(FlowError::InvalidBytecode));

    let mut chunk2 = Chunk::new();
    chunk2.write_instruction(Instruction::LoadGlobal("x".to_string()), 0);
    chunk2.finalize();
    assert_eq!(chunk2.write_to_file(), Err(FlowError::InvalidBytecode));

    let mut chunk3 = Chunk::new();
    chunk3.write_instruction(Instruction::Halt, 0);
    // A chunk that was never finalized cannot be serialized.
    assert_eq!(chunk3.write_to_file(), Err(FlowError::InvalidBytecode));
}

#[test]
fn registry_knows_stdlib_functions() {
    let names = flowlang::stdlib_names::get_stdlib_functions();
    assert_eq!(names.len(), 41);
    assert!(names.iter().any(|n| n == "http_get"));
    assert!(flowlang::stdlib_names::is_stdlib_function("sha256_hash"));
    assert!(flowlang::stdlib_names::is_stdlib_function("url_decode"));
    assert!(!flowlang::stdlib_names::is_stdlib_function("sha256"));
    assert!(!flowlang::stdlib_names::is_stdlib_function(""));
}

#[test]
fn pool_reuses_released_objects() {
    let mut pool: flowlang::pool::MemoryPool<Vec<i32>> =
        flowlang::pool::MemoryPool::new(2, Vec::new());
    let a = pool.acquire();
    let b = pool.acquire();
    pool.release(a);
    pool.release(b);
    let c = pool.acquire();
    assert!(c.is_empty());
    let _d = pool.acquire();
    let _e = pool.acquire();
}
