use lib::bytecode::Bytefile;
use lib::errors::DisassemblyErrorImpl;
use lib::syntax::Bytecode;

fn word(n: u32) -> [u8; 4] {
    n.to_le_bytes()
}

#[test]
fn short_header_is_bad_init_section() {
    for len in 0..12 {
        let v = vec![0u8; len];
        assert!(matches!(Bytefile::try_from(&v), Err(DisassemblyErrorImpl::BadInitSection)));
    }
}

#[test]
fn cut_symbol_table() {
    let mut v = Vec::new();
    v.extend_from_slice(&word(0));
    v.extend_from_slice(&word(0));
    v.extend_from_slice(&word(2));
    v.extend_from_slice(&[1, 0, 0, 0, 2, 0, 0, 0, 9, 9, 9]);
    match Bytefile::try_from(&v) {
        Err(DisassemblyErrorImpl::BadSymbolsSection { expected, obtained }) => {
            assert_eq!(expected, 2);
            assert_eq!(obtained, 1);
        },
        other => panic!("unexpected {:?}", other),
    }
}

#[test]
fn cut_string_pool() {
    let mut v = Vec::new();
    v.extend_from_slice(&word(10));
    v.extend_from_slice(&word(0));
    v.extend_from_slice(&word(0));
    v.extend_from_slice(b"abcd");
    match Bytefile::try_from(&v) {
        Err(DisassemblyErrorImpl::BadStringsSection { expected, obtained }) => {
            assert_eq!(expected, 10);
            assert_eq!(obtained, 4);
        },
        other => panic!("unexpected {:?}", other),
    }
}

#[test]
fn sections_of_a_whole_file() {
    let mut v = Vec::new();
    v.extend_from_slice(&word(5));
    v.extend_from_slice(&word(3));
    v.extend_from_slice(&word(1));
    v.extend_from_slice(&word(0));
    v.extend_from_slice(&word(4));
    v.extend_from_slice(b"main\0");
    v.extend_from_slice(&[0x11, 0, 0, 0, 0, 0x16, 0xff]);
    let mut f = Bytefile::try_from(&v).unwrap();
    assert_eq!(f.symbol_count(), 1);
    assert_eq!(f.symbol(0), (0, 4));
    assert_eq!(f.strings(), b"main\0");
    assert_eq!(f.globals_count(), 3);
    let code = f.bytecode();
    assert_eq!(code.decode().unwrap(), Some(Bytecode::StringConst(b"main".to_vec())));
    assert_eq!(code.decode().unwrap(), Some(Bytecode::End));
    assert_eq!(code.decode().unwrap(), None);
    assert_eq!(f.bytecode().position(), 7);
}

#[test]
fn empty_sections() {
    let v = vec![0u8; 12];
    let mut f = Bytefile::try_from(&v).unwrap();
    assert_eq!(f.symbol_count(), 0);
    assert_eq!(f.globals_count(), 0);
    assert!(f.strings().is_empty());
    assert_eq!(f.bytecode().decode().unwrap(), None);
}
