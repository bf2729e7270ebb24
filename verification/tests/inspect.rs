use lib::errors::{DecodeError, DisassemblyErrorImpl, LamaError};
use lib::inspector::{inspect_bytecode, Transitions};
use lib::syntax::{Binop, Bytecode, Call, Condition};

/// An opcode followed by its four-byte operands, in the host's byte order.
fn op(opcode: u8, operands: &[u32]) -> Vec<u8> {
    let mut v = vec![opcode];
    for n in operands {
        v.extend_from_slice(&n.to_ne_bytes());
    }
    v
}

fn file_with_code(strings: &[u8], code: &[u8]) -> Vec<u8> {
    let mut v = Vec::new();
    v.extend_from_slice(&(strings.len() as u32).to_le_bytes());
    v.extend_from_slice(&0u32.to_le_bytes());
    v.extend_from_slice(&0u32.to_le_bytes());
    v.extend_from_slice(strings);
    v.extend_from_slice(code);
    v
}

fn counts(t: &Transitions) -> Vec<(Bytecode, Bytecode, u32)> {
    t.entries().iter().map(|(a, b, n)| (a.clone(), b.clone(), *n)).collect()
}

#[test]
fn straight_line_code_counts_each_neighbour_pair() {
    let code = [op(0x10, &[1]), op(0x10, &[2]), vec![0x01, 0x16]].concat();
    let t = inspect_bytecode(&file_with_code(&[], &code)).unwrap();
    assert_eq!(t.entries().len(), 3);
    assert_eq!(t.count(&Bytecode::IntConst(1), &Bytecode::IntConst(2)), 1);
    assert_eq!(t.count(&Bytecode::IntConst(2), &Bytecode::Binop(Binop::Add)), 1);
    assert_eq!(t.count(&Bytecode::Binop(Binop::Add), &Bytecode::End), 1);
    assert_eq!(t.count(&Bytecode::End, &Bytecode::IntConst(1)), 0);
}

#[test]
fn repeated_pairs_are_counted_again() {
    let t = inspect_bytecode(&file_with_code(&[], &[0x18, 0x18, 0x18])).unwrap();
    assert_eq!(counts(&t), vec![(Bytecode::Drop, Bytecode::Drop, 2)]);
}

#[test]
fn unconditional_jump_is_followed_only_by_its_target() {
    let t = inspect_bytecode(&file_with_code(&[], &[op(0x15, &[5]), vec![0x16]].concat())).unwrap();
    assert_eq!(counts(&t), vec![(Bytecode::Jump(5), Bytecode::End, 1)]);
}

#[test]
fn conditional_jump_is_followed_by_both() {
    let t = inspect_bytecode(&file_with_code(&[], &[op(0x50, &[6]), vec![0x16, 0x17]].concat())).unwrap();
    let cj = Bytecode::CondJump(Condition::Zero, 6);
    assert_eq!(t.entries().len(), 3);
    assert_eq!(t.count(&cj, &Bytecode::Return), 1);
    assert_eq!(t.count(&cj, &Bytecode::End), 1);
    assert_eq!(t.count(&Bytecode::End, &Bytecode::Return), 1);
}

#[test]
fn call_is_followed_by_callee_and_end_by_next() {
    let code = [
        op(0x56, &[10, 0]), // CALL 0x000a 0
        vec![0x17],         // RET
        op(0x52, &[0, 0]),  // BEGIN 0 0
        vec![0x16],         // END
    ]
    .concat();
    let t = inspect_bytecode(&file_with_code(&[], &code)).unwrap();
    let call = Bytecode::CallFunc(Call::Function(10, 0));
    let begin = Bytecode::Begin { arg_count: 0, local_count: 0, has_closure: false };
    assert_eq!(t.entries().len(), 4);
    assert_eq!(t.count(&call, &begin), 1);
    assert_eq!(t.count(&Bytecode::End, &Bytecode::Return), 1);
    assert_eq!(t.count(&Bytecode::Return, &begin), 1);
    assert_eq!(t.count(&begin, &Bytecode::End), 1);
    assert_eq!(t.count(&call, &Bytecode::Return), 0);
}

#[test]
fn end_marker_stops_the_walk() {
    let t = inspect_bytecode(&file_with_code(&[], &[0x18, 0x19, 0xff, 0x99])).unwrap();
    assert_eq!(counts(&t), vec![(Bytecode::Drop, Bytecode::Duplicate, 1)]);
}

#[test]
fn decode_failure_ends_the_walk_with_an_error() {
    match inspect_bytecode(&file_with_code(&[], &[0x18, 0x99])) {
        Err(LamaError::DecodeError { error: DecodeError::UnknownBytecode(0x99), while_decoding_at: 2 }) => {},
        Err(e) => panic!("unexpected error {:?}", e),
        Ok(_) => panic!("expected an error"),
    }
}

#[test]
fn jump_to_the_end_of_code_is_jump_eof_at_the_cursor() {
    match inspect_bytecode(&file_with_code(&[], &op(0x15, &[5]))) {
        Err(LamaError::DecodeError { error: DecodeError::JumpEOF, while_decoding_at: 5 }) => {},
        Err(e) => panic!("unexpected error {:?}", e),
        Ok(_) => panic!("expected an error"),
    }
}

#[test]
fn bad_file_is_a_disassembly_error() {
    match inspect_bytecode(&[1, 2, 3]) {
        Err(LamaError::DisassemblyError { error: DisassemblyErrorImpl::BadInitSection }) => {},
        Err(e) => panic!("unexpected error {:?}", e),
        Ok(_) => panic!("expected an error"),
    }
}

#[test]
fn strings_in_instructions_are_compared_by_content() {
    let code = [op(0x11, &[0]), op(0x11, &[3]), op(0x11, &[0])].concat();
    let t = inspect_bytecode(&file_with_code(b"ab\0ab\0", &code)).unwrap();
    let s = Bytecode::StringConst(b"ab".to_vec());
    assert_eq!(counts(&t), vec![(s.clone(), s, 2)]);
}

#[test]
fn add_counts_once_more() {
    let mut t = Transitions::new();
    t.add(Bytecode::End, Bytecode::Drop);
    t.add(Bytecode::End, Bytecode::Drop);
    t.add(Bytecode::Drop, Bytecode::End);
    assert_eq!(t.count(&Bytecode::End, &Bytecode::Drop), 2);
    assert_eq!(t.count(&Bytecode::Drop, &Bytecode::End), 1);
    assert_eq!(t.entries().len(), 2);
}
