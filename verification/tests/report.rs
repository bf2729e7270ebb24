use lib::inspector::{inspect_bytecode, Transitions};
use lib::report::{ranked, report_lines, row_line};
use lib::syntax::{Bytecode, Designation};

#[test]
fn most_frequent_first_then_by_instruction_order() {
    let mut t = Transitions::new();
    t.add(Bytecode::Return, Bytecode::End);
    t.add(Bytecode::Drop, Bytecode::End);
    t.add(Bytecode::Drop, Bytecode::End);
    t.add(Bytecode::End, Bytecode::Drop);
    t.add(Bytecode::Drop, Bytecode::Drop);
    let rows = ranked(t);
    let keys: Vec<(Bytecode, Bytecode, u32)> = rows;
    assert_eq!(
        keys,
        vec![
            (Bytecode::Drop, Bytecode::End, 2),
            (Bytecode::End, Bytecode::Drop, 1),
            (Bytecode::Return, Bytecode::End, 1),
            (Bytecode::Drop, Bytecode::Drop, 1),
        ]
    );
}

#[test]
fn ranking_agrees_with_the_derived_order() {
    let items = vec![
        Bytecode::IntConst(-5),
        Bytecode::IntConst(3),
        Bytecode::StringConst(b"b".to_vec()),
        Bytecode::StringConst(b"ab".to_vec()),
        Bytecode::StringConst(b"a".to_vec()),
        Bytecode::Load(Designation::Local(1)),
        Bytecode::Load(Designation::Global(9)),
        Bytecode::Closure { name: 1, designations: vec![Designation::Local(2)] },
        Bytecode::Closure { name: 1, designations: vec![] },
        Bytecode::Closure { name: 1, designations: vec![Designation::Global(2), Designation::Local(0)] },
        Bytecode::Lineno(2),
        Bytecode::End,
    ];
    let mut t = Transitions::new();
    for b in &items {
        t.add(b.clone(), Bytecode::End);
    }
    let rows = ranked(t);
    let mut expected = items.clone();
    expected.sort();
    let got: Vec<Bytecode> = rows.into_iter().map(|r| r.0).collect();
    assert_eq!(got, expected);
}

#[test]
fn lines_are_padded_to_twenty() {
    let line = row_line(&(Bytecode::Load(Designation::Global(0)), Bytecode::End, 3));
    assert_eq!(line, "LD      G(0)         -> END                 : 3");
    assert_eq!(line, format!("{:<20} -> {:<20}: {}", "LD      G(0)", "END", 3));
    let long = Bytecode::Tag(b"averylongname".to_vec(), 0);
    assert_eq!(
        row_line(&(long.clone(), Bytecode::Drop, 12)),
        "TAG     averylongname 0 -> DROP                : 12"
    );
}

#[test]
fn report_of_a_program() {
    let mut v = Vec::new();
    v.extend_from_slice(&0u32.to_le_bytes());
    v.extend_from_slice(&0u32.to_le_bytes());
    v.extend_from_slice(&0u32.to_le_bytes());
    v.extend_from_slice(&[0x18, 0x18, 0x18, 0x16]);
    let rows = ranked(inspect_bytecode(&v).unwrap());
    let lines = report_lines(&rows);
    assert_eq!(
        lines,
        vec![
            "DROP                 -> DROP                : 2".to_string(),
            "DROP                 -> END                 : 1".to_string(),
        ]
    );
}
