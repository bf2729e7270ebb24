use lib::syntax::{Binop, Bytecode, Call, Condition, Designation, Pattern};

#[test]
fn mnemonics_and_operands() {
    assert_eq!(Bytecode::Binop(Binop::Or).text(), "BINOP   !!");
    assert_eq!(Bytecode::Binop(Binop::Lte).text(), "BINOP   <=");
    assert_eq!(Bytecode::IntConst(42).text(), "CONST   42");
    assert_eq!(Bytecode::IntConst(-42).text(), "CONST   -42");
    assert_eq!(Bytecode::IntConst(i32::MIN).text(), "CONST   -2147483648");
    assert_eq!(Bytecode::StringConst(b"hello".to_vec()).text(), "STRING  hello");
    assert_eq!(Bytecode::SExpression(b"cons".to_vec(), 2).text(), "SEXP    cons 2");
    assert_eq!(Bytecode::Load(Designation::Global(3)).text(), "LD      G(3)");
    assert_eq!(Bytecode::LoadAddr(Designation::Local(0)).text(), "LDA     L(0)");
    assert_eq!(Bytecode::Store(Designation::Argument(12)).text(), "ST      A(12)");
    assert_eq!(Bytecode::Load(Designation::Access(7)).text(), "LD      C(7)");
    assert_eq!(Bytecode::StoreReference.text(), "STI");
    assert_eq!(Bytecode::StoreComposite.text(), "STC");
    assert_eq!(Bytecode::GetElement.text(), "ELEM");
    assert_eq!(Bytecode::End.text(), "END");
    assert_eq!(Bytecode::Return.text(), "RET");
    assert_eq!(Bytecode::Drop.text(), "DROP");
    assert_eq!(Bytecode::Duplicate.text(), "DUP");
    assert_eq!(Bytecode::SwapTop.text(), "SWAP");
    assert_eq!(Bytecode::CallClosure(2).text(), "CALLC   2");
    assert_eq!(Bytecode::Tag(b"Nil".to_vec(), 0).text(), "TAG     Nil 0");
    assert_eq!(Bytecode::Array(3).text(), "ARRAY   3");
    assert_eq!(Bytecode::CheckPattern(Pattern::IsClosure).text(), "PATT    #closure");
    assert_eq!(Bytecode::MatchCaseFailure { line: 3, column: 7 }.text(), "FAIL    3 7");
    assert_eq!(Bytecode::Lineno(10).text(), "LINE    10");
}

#[test]
fn offsets_are_hex_padded_to_four_digits() {
    assert_eq!(Bytecode::Jump(0x1c).text(), "JMP     0x001c");
    assert_eq!(Bytecode::Jump(0).text(), "JMP     0x0000");
    assert_eq!(Bytecode::Jump(0xabc).text(), "JMP     0x0abc");
    assert_eq!(Bytecode::Jump(0x12345).text(), "JMP     0x12345");
    assert_eq!(Bytecode::CondJump(Condition::Zero, 5).text(), "CJMPz   0x0005");
    assert_eq!(Bytecode::CondJump(Condition::NonZero, 0xff).text(), "CJMPnz  0x00ff");
    assert_eq!(Bytecode::Closure { name: 16, designations: vec![Designation::Local(0)] }.text(), "CLOSURE 0x0010");
    assert_eq!(Bytecode::CallFunc(Call::Function(16, 2)).text(), "CALL    0x0010 2");
}

#[test]
fn begin_and_calls() {
    assert_eq!(Bytecode::Begin { arg_count: 2, local_count: 3, has_closure: false }.text(), "BEGIN   2 3");
    assert_eq!(Bytecode::Begin { arg_count: 2, local_count: 3, has_closure: true }.text(), "CBEGIN  2 3");
    assert_eq!(Bytecode::CallFunc(Call::Read).text(), "CALL    Lread");
    assert_eq!(Bytecode::CallFunc(Call::Write).text(), "CALL    Lwrite");
    assert_eq!(Bytecode::CallFunc(Call::Length).text(), "CALL    Llen");
    assert_eq!(Bytecode::CallFunc(Call::String).text(), "CALL    Lstr");
    assert_eq!(Bytecode::CallFunc(Call::MkArray(4)).text(), "CALL    Barray 4");
}

#[test]
fn invalid_utf8_strings_show_their_bytes() {
    assert_eq!(Bytecode::StringConst(vec![0xff, 0x41]).text(), "STRING  [ff, 41]");
    assert_eq!(Bytecode::StringConst(vec![0xc3]).text(), "STRING  [c3]");
    assert_eq!(Bytecode::StringConst("é".as_bytes().to_vec()).text(), "STRING  é");
    assert_eq!(Bytecode::StringConst(vec![]).text(), "STRING  ");
}

#[test]
fn small_parts_as_text() {
    assert_eq!(Designation::Global(0).text(), "G(0)");
    assert_eq!(Condition::Zero.text(), "z ");
    assert_eq!(Condition::NonZero.text(), "nz");
    assert_eq!(Call::MkArray(1).text(), "Barray 1");
    assert_eq!(Pattern::TopStringsEqual.text(), "%");
    assert_eq!(Pattern::IsInt.text(), "unboxed");
    assert_eq!(Pattern::IsNotInt.text(), "boxed");
    assert_eq!(Binop::Neq.text(), "!=");
}

#[test]
fn text_matches_std_formatting_of_numbers() {
    for n in [0usize, 9, 10, 99, 100, 65535, 65536, 1 << 31] {
        assert_eq!(Bytecode::Array(n).text(), format!("ARRAY   {}", n));
        assert_eq!(Bytecode::Jump(n).text(), format!("JMP     {:#06x}", n));
    }
    for n in [i32::MIN, -1, 0, 1, i32::MAX] {
        assert_eq!(Bytecode::IntConst(n).text(), format!("CONST   {}", n));
    }
    let bytes: Vec<u8> = vec![0x80, 0x00, 0x0a, 0xff];
    assert_eq!(Bytecode::StringConst(bytes.clone()).text(), format!("STRING  {:x?}", bytes));
}
