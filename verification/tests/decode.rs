use lib::errors::{DecodeError, LamaError};
use lib::syntax::{Binop, Bytecode, Call, Code, Condition, Designation, Pattern};

/// Four-byte operands are written in the host's byte order.
fn w(n: u32) -> [u8; 4] {
    n.to_ne_bytes()
}

/// An opcode followed by its four-byte operands.
fn op(opcode: u8, operands: &[u32]) -> Vec<u8> {
    let mut v = vec![opcode];
    for n in operands {
        v.extend_from_slice(&w(*n));
    }
    v
}

fn decode_one(code: &[u8], strings: &[u8]) -> Result<Option<Bytecode>, LamaError> {
    let mut c = Code::new(code, strings);
    c.decode()
}

fn decode_error_at(r: Result<Option<Bytecode>, LamaError>) -> (DecodeError, usize) {
    match r {
        Err(LamaError::DecodeError { error, while_decoding_at }) => (error, while_decoding_at),
        other => panic!("expected a decode error, got {:?}", other),
    }
}

#[test]
fn int_const_is_host_order_and_signed() {
    assert_eq!(decode_one(&op(0x10, &[263]), &[]).unwrap(), Some(Bytecode::IntConst(263)));
    assert_eq!(decode_one(&op(0x10, &[u32::MAX]), &[]).unwrap(), Some(Bytecode::IntConst(-1)));
    assert_eq!(decode_one(&op(0x10, &[0x8000_0000]), &[]).unwrap(), Some(Bytecode::IntConst(i32::MIN)));
}

#[test]
fn every_binop_opcode() {
    let ops = [
        Binop::Add,
        Binop::Sub,
        Binop::Mul,
        Binop::Div,
        Binop::Mod,
        Binop::Lt,
        Binop::Lte,
        Binop::Gt,
        Binop::Gte,
        Binop::Eq,
        Binop::Neq,
        Binop::And,
        Binop::Or,
    ];
    let code: Vec<u8> = (1u8..=0x0D).collect();
    let mut c = Code::new(&code, &[]);
    for op in ops.iter() {
        assert_eq!(c.decode().unwrap(), Some(Bytecode::Binop(*op)));
    }
    assert_eq!(c.decode().unwrap(), None);
    assert_eq!(c.position(), 13);
}

#[test]
fn single_byte_instructions() {
    let code = [0x13, 0x14, 0x18, 0x19, 0x1A, 0x1B, 0x17, 0x16, 0x70, 0x71, 0x72, 0x73];
    let expected = vec![
        Bytecode::StoreReference,
        Bytecode::StoreComposite,
        Bytecode::Drop,
        Bytecode::Duplicate,
        Bytecode::SwapTop,
        Bytecode::GetElement,
        Bytecode::Return,
        Bytecode::End,
        Bytecode::CallFunc(Call::Read),
        Bytecode::CallFunc(Call::Write),
        Bytecode::CallFunc(Call::Length),
        Bytecode::CallFunc(Call::String),
    ];
    let mut c = Code::new(&code, &[]);
    for e in expected {
        assert_eq!(c.decode().unwrap(), Some(e));
    }
    assert_eq!(c.decode().unwrap(), None);
}

#[test]
fn pattern_opcodes() {
    let code = [0x60, 0x61, 0x62, 0x63, 0x64, 0x65, 0x66];
    let expected = [
        Pattern::TopStringsEqual,
        Pattern::IsString,
        Pattern::IsArray,
        Pattern::IsSExpression,
        Pattern::IsNotInt,
        Pattern::IsInt,
        Pattern::IsClosure,
    ];
    let mut c = Code::new(&code, &[]);
    for p in expected.iter() {
        assert_eq!(c.decode().unwrap(), Some(Bytecode::CheckPattern(*p)));
    }
}

#[test]
fn string_operands_come_from_the_pool() {
    let strings = b"hi\0yo\0";
    assert_eq!(decode_one(&op(0x11, &[3]), strings).unwrap(), Some(Bytecode::StringConst(b"yo".to_vec())));
    assert_eq!(
        decode_one(&op(0x12, &[0, 2]), strings).unwrap(),
        Some(Bytecode::SExpression(b"hi".to_vec(), 2))
    );
    assert_eq!(
        decode_one(&op(0x57, &[3, 5]), strings).unwrap(),
        Some(Bytecode::Tag(b"yo".to_vec(), 5))
    );
    assert_eq!(decode_one(&op(0x11, &[2]), strings).unwrap(), Some(Bytecode::StringConst(vec![])));
}

#[test]
fn string_without_terminator_is_an_error_after_the_offset() {
    let (e, at) = decode_error_at(decode_one(&op(0x11, &[0]), b"abc"));
    assert!(matches!(e, DecodeError::NoNullTerminator));
    assert_eq!(at, 5);
    let (e, at) = decode_error_at(decode_one(&op(0x11, &[9]), b"ab\0"));
    assert!(matches!(e, DecodeError::NoNullTerminator));
    assert_eq!(at, 5);
}

#[test]
fn designations_by_opcode() {
    assert_eq!(decode_one(&op(0x20, &[1]), &[]).unwrap(), Some(Bytecode::Load(Designation::Global(1))));
    assert_eq!(decode_one(&op(0x21, &[2]), &[]).unwrap(), Some(Bytecode::Load(Designation::Local(2))));
    assert_eq!(decode_one(&op(0x31, &[3]), &[]).unwrap(), Some(Bytecode::LoadAddr(Designation::Local(3))));
    assert_eq!(decode_one(&op(0x42, &[4]), &[]).unwrap(), Some(Bytecode::Store(Designation::Argument(4))));
    assert_eq!(decode_one(&op(0x23, &[5]), &[]).unwrap(), Some(Bytecode::Load(Designation::Access(5))));
}

#[test]
fn closure_reads_its_captured_designations() {
    let mut code = op(0x54, &[0x10, 2]);
    code.push(1);
    code.extend_from_slice(&w(3));
    code.push(3);
    code.extend_from_slice(&w(4));
    let mut c = Code::new(&code, &[]);
    assert_eq!(
        c.decode().unwrap(),
        Some(Bytecode::Closure { name: 16, designations: vec![Designation::Local(3), Designation::Access(4)] })
    );
    assert_eq!(c.position(), code.len());
}

#[test]
fn bad_designation_is_reported_after_its_kind_byte() {
    let mut code = op(0x54, &[0, 1]);
    code.extend_from_slice(&[7, 0, 0, 0, 0]);
    let (e, at) = decode_error_at(decode_one(&code, &[]));
    assert!(matches!(e, DecodeError::BadDesignation(7)));
    assert_eq!(at, 10);
}

#[test]
fn operand_instructions() {
    assert_eq!(decode_one(&op(0x15, &[0x1c]), &[]).unwrap(), Some(Bytecode::Jump(0x1c)));
    assert_eq!(
        decode_one(&op(0x50, &[6]), &[]).unwrap(),
        Some(Bytecode::CondJump(Condition::Zero, 6))
    );
    assert_eq!(
        decode_one(&op(0x51, &[6]), &[]).unwrap(),
        Some(Bytecode::CondJump(Condition::NonZero, 6))
    );
    assert_eq!(decode_one(&op(0x74, &[3]), &[]).unwrap(), Some(Bytecode::CallFunc(Call::MkArray(3))));
    assert_eq!(
        decode_one(&op(0x52, &[2, 3]), &[]).unwrap(),
        Some(Bytecode::Begin { arg_count: 2, local_count: 3, has_closure: false })
    );
    assert_eq!(
        decode_one(&op(0x53, &[2, 3]), &[]).unwrap(),
        Some(Bytecode::Begin { arg_count: 2, local_count: 3, has_closure: true })
    );
    assert_eq!(decode_one(&op(0x55, &[1]), &[]).unwrap(), Some(Bytecode::CallClosure(1)));
    assert_eq!(
        decode_one(&op(0x56, &[16, 2]), &[]).unwrap(),
        Some(Bytecode::CallFunc(Call::Function(16, 2)))
    );
    assert_eq!(decode_one(&op(0x58, &[4]), &[]).unwrap(), Some(Bytecode::Array(4)));
    assert_eq!(
        decode_one(&op(0x59, &[3, 7]), &[]).unwrap(),
        Some(Bytecode::MatchCaseFailure { line: 3, column: 7 })
    );
    assert_eq!(decode_one(&op(0x5A, &[256]), &[]).unwrap(), Some(Bytecode::Lineno(256)));
}

#[test]
fn short_operand_is_not_enough_bytes_at_the_operand() {
    let (e, at) = decode_error_at(decode_one(&[0x15, 1, 2], &[]));
    assert!(matches!(e, DecodeError::NotEnoughBytes(4)));
    assert_eq!(at, 1);
    let (e, at) = decode_error_at(decode_one(&[op(0x52, &[1]), vec![9]].concat(), &[]));
    assert!(matches!(e, DecodeError::NotEnoughBytes(4)));
    assert_eq!(at, 5);
}

#[test]
fn unknown_opcode_is_reported_after_it() {
    let (e, at) = decode_error_at(decode_one(&[0x99], &[]));
    assert!(matches!(e, DecodeError::UnknownBytecode(0x99)));
    assert_eq!(at, 1);
}

#[test]
fn end_of_code_and_end_marker() {
    let mut c = Code::new(&[], &[]);
    assert_eq!(c.decode().unwrap(), None);
    assert_eq!(c.position(), 0);
    let mut c = Code::new(&[0xff, 0x16], &[]);
    assert_eq!(c.decode().unwrap(), None);
    assert_eq!(c.position(), 1);
    assert_eq!(c.decode().unwrap(), Some(Bytecode::End));
}

#[test]
fn decode_at_keeps_the_cursor() {
    let code = [0x16, 0x17, 0x18];
    let mut c = Code::new(&code, &[]);
    assert_eq!(c.decode().unwrap(), Some(Bytecode::End));
    assert_eq!(c.decode_at(2).unwrap(), Bytecode::Drop);
    assert_eq!(c.position(), 1);
    assert_eq!(c.decode().unwrap(), Some(Bytecode::Return));
}

#[test]
fn decode_at_past_the_end_is_jump_eof() {
    let code = [0x16];
    let mut c = Code::new(&code, &[]);
    match c.decode_at(5) {
        Err(LamaError::DecodeError { error: DecodeError::JumpEOF, while_decoding_at: 5 }) => {},
        other => panic!("unexpected {:?}", other),
    }
    c.decode().unwrap();
    match c.decode_at(1) {
        Err(LamaError::DecodeError { error: DecodeError::JumpEOF, while_decoding_at: 1 }) => {},
        other => panic!("unexpected {:?}", other),
    }
    assert_eq!(c.position(), 1);
}

#[test]
fn restart_goes_back_to_the_start() {
    let code = [0x16, 0x17];
    let mut c = Code::new(&code, &[]);
    c.decode().unwrap();
    c.decode().unwrap();
    c.restart();
    assert_eq!(c.position(), 0);
    assert_eq!(c.decode().unwrap(), Some(Bytecode::End));
}

#[test]
fn readers_move_the_cursor() {
    let code = [vec![9], w(1).to_vec(), (-2i32).to_ne_bytes().to_vec(), vec![2], w(5).to_vec()].concat();
    let mut c = Code::new(&code, &[]);
    assert_eq!(c.get_byte().unwrap(), 9);
    assert_eq!(c.get_usize().unwrap(), 1);
    assert_eq!(c.get_i32().unwrap(), -2);
    assert_eq!(c.get_designation(None).unwrap(), Designation::Argument(5));
    assert_eq!(c.position(), 14);
    assert!(c.get_target().is_err());
    assert_eq!(c.advance(0).unwrap(), &[] as &[u8]);
}

#[test]
fn same_as_compares_operands() {
    let a = Bytecode::StringConst(b"x".to_vec());
    assert!(a.same_as(&Bytecode::StringConst(b"x".to_vec())));
    assert!(!a.same_as(&Bytecode::StringConst(b"y".to_vec())));
    assert!(!a.same_as(&Bytecode::Tag(b"x".to_vec(), 0)));
    assert!(Bytecode::Jump(3).same_as(&Bytecode::Jump(3)));
    let c = Bytecode::Closure { name: 1, designations: vec![Designation::Local(0)] };
    assert!(c.same_as(&c.clone()));
    assert!(!c.same_as(&Bytecode::Closure { name: 1, designations: vec![] }));
}

#[test]
fn operands_follow_the_host_byte_order() {
    let bytes = [0x01, 0x02, 0x03, 0x04];
    let mut code = vec![0x58];
    code.extend_from_slice(&bytes);
    assert_eq!(decode_one(&code, &[]).unwrap(), Some(Bytecode::Array(u32::from_ne_bytes(bytes) as usize)));
    code[0] = 0x10;
    assert_eq!(decode_one(&code, &[]).unwrap(), Some(Bytecode::IntConst(i32::from_ne_bytes(bytes))));
}

#[test]
fn unknown_opcodes_are_exactly_the_unhandled_bytes() {
    let known = |b: u8| {
        matches!(b, 0x01..=0x0D | 0x10..=0x1B | 0x20..=0x23 | 0x30..=0x33 | 0x40..=0x43 | 0x50..=0x5A | 0x60..=0x66 | 0x70..=0x74 | 0xff)
    };
    for b in 0..=255u8 {
        let mut code = vec![b];
        code.extend_from_slice(&[0u8; 16]);
        let r = decode_one(&code, b"\0");
        let unknown = matches!(r, Err(LamaError::DecodeError { error: DecodeError::UnknownBytecode(x), while_decoding_at: 1 }) if x == b);
        assert_eq!(unknown, !known(b), "opcode {:#x}", b);
    }
}
