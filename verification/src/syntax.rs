use vstd::prelude::*;

use crate::errors::{decode_failure, DecodeError, LamaError};
use crate::utils::{cstring_at, decode_cstring, host_u32};

verus! {

/// Where a variable lives: a global slot, a local slot, a function argument,
/// or a slot captured by a closure.
#[derive(Debug, Clone, Copy, PartialEq, Eq, Structural, Hash, PartialOrd, Ord)]
pub enum Designation {
    Global(usize),
    Local(usize),
    Argument(usize),
    Access(usize),
}

/// The condition of a conditional jump.
#[derive(Debug, Clone, Copy, PartialEq, Eq, Structural, Hash, PartialOrd, Ord)]
pub enum Condition {
    Zero,
    NonZero,
}

/// What a `CALL` instruction calls: a builtin, or a function at a code offset
/// with its argument count.
#[derive(Debug, Clone, Copy, PartialEq, Eq, Structural, Hash, PartialOrd, Ord)]
pub enum Call {
    Read,
    Write,
    Length,
    String,
    MkArray(usize),
    Function(usize, usize),
}

/// The test of a pattern-matching instruction.
#[derive(Debug, Clone, Copy, PartialEq, Eq, Structural, Hash, PartialOrd, Ord)]
pub enum Pattern {
    TopStringsEqual,
    IsArray,
    IsString,
    IsSExpression,
    IsInt,
    IsNotInt,
    IsClosure,
}

/// A binary operator.
#[derive(Debug, Clone, Copy, PartialEq, Eq, Structural, Hash, PartialOrd, Ord)]
pub enum Binop {
    Add,
    Sub,
    Mul,
    Div,
    Mod,
    Lt,
    Lte,
    Gt,
    Gte,
    Eq,
    Neq,
    And,
    Or,
}

/// One decoded instruction. Strings are held as their bytes, without the NUL
/// that ends them in the string pool; they never contain a NUL.
#[derive(Debug, PartialEq, Eq, Hash, PartialOrd, Ord)]
pub enum Bytecode {
    Binop(Binop),
    IntConst(i32),
    StringConst(Vec<u8>),
    SExpression(Vec<u8>, usize),
    Load(Designation),
    LoadAddr(Designation),
    Store(Designation),
    StoreReference,
    StoreComposite,
    GetElement,
    Jump(usize),
    CondJump(Condition, usize),
    /// Opcode 0x52 begins a function without closure, 0x53 one with a closure.
    Begin { arg_count: usize, local_count: usize, has_closure: bool },
    End,
    Closure { name: usize, designations: Vec<Designation> },
    CallClosure(usize),
    CallFunc(Call),
    Return,
    Drop,
    Duplicate,
    SwapTop,
    Tag(Vec<u8>, usize),
    Array(usize),
    CheckPattern(Pattern),
    MatchCaseFailure { line: usize, column: usize },
    Lineno(usize),
}

/// The mathematical value of an instruction: `Bytecode` with its vectors read as sequences.
pub enum Instr {
    Binop(Binop),
    IntConst(i32),
    StringConst(Seq<u8>),
    SExpression(Seq<u8>, usize),
    Load(Designation),
    LoadAddr(Designation),
    Store(Designation),
    StoreReference,
    StoreComposite,
    GetElement,
    Jump(usize),
    CondJump(Condition, usize),
    Begin { arg_count: usize, local_count: usize, has_closure: bool },
    End,
    Closure { name: usize, designations: Seq<Designation> },
    CallClosure(usize),
    CallFunc(Call),
    Return,
    Drop,
    Duplicate,
    SwapTop,
    Tag(Seq<u8>, usize),
    Array(usize),
    CheckPattern(Pattern),
    MatchCaseFailure { line: usize, column: usize },
    Lineno(usize),
}

impl View for Bytecode {
    type V = Instr;

    open spec fn view(&self) -> Instr {
        match self {
            Bytecode::Binop(b) => Instr::Binop(*b),
            Bytecode::IntConst(n) => Instr::IntConst(*n),
            Bytecode::StringConst(s) => Instr::StringConst(s@),
            Bytecode::SExpression(s, n) => Instr::SExpression(s@, *n),
            Bytecode::Load(d) => Instr::Load(*d),
            Bytecode::LoadAddr(d) => Instr::LoadAddr(*d),
            Bytecode::Store(d) => Instr::Store(*d),
            Bytecode::StoreReference => Instr::StoreReference,
            Bytecode::StoreComposite => Instr::StoreComposite,
            Bytecode::GetElement => Instr::GetElement,
            Bytecode::Jump(t) => Instr::Jump(*t),
            Bytecode::CondJump(c, t) => Instr::CondJump(*c, *t),
            Bytecode::Begin { arg_count, local_count, has_closure } => Instr::Begin {
                arg_count: *arg_count,
                local_count: *local_count,
                has_closure: *has_closure,
            },
            Bytecode::End => Instr::End,
            Bytecode::Closure { name, designations } => Instr::Closure {
                name: *name,
                designations: designations@,
            },
            Bytecode::CallClosure(n) => Instr::CallClosure(*n),
            Bytecode::CallFunc(c) => Instr::CallFunc(*c),
            Bytecode::Return => Instr::Return,
            Bytecode::Drop => Instr::Drop,
            Bytecode::Duplicate => Instr::Duplicate,
            Bytecode::SwapTop => Instr::SwapTop,
            Bytecode::Tag(s, n) => Instr::Tag(s@, *n),
            Bytecode::Array(n) => Instr::Array(*n),
            Bytecode::CheckPattern(p) => Instr::CheckPattern(*p),
            Bytecode::MatchCaseFailure { line, column } => Instr::MatchCaseFailure {
                line: *line,
                column: *column,
            },
            Bytecode::Lineno(n) => Instr::Lineno(*n),
        }
    }
}


/// Compares two byte strings.
fn same_bytes(a: &Vec<u8>, b: &Vec<u8>) -> (r: bool)
    ensures
        r == (a@ == b@),
{
    if a.len() != b.len() {
        return false;
    }
    let mut i: usize = 0;
    while i < a.len()
        invariant
            i <= a.len() == b.len(),
            forall|k: int| 0 <= k < i ==> a@[k] == b@[k],
        decreases a.len() - i,
    {
        if a[i] != b[i] {
            return false;
        }
        i += 1;
    }
    assert(a@ =~= b@);
    true
}

/// Compares two lists of designations.
fn same_designations(a: &Vec<Designation>, b: &Vec<Designation>) -> (r: bool)
    ensures
        r == (a@ == b@),
{
    if a.len() != b.len() {
        return false;
    }
    let mut i: usize = 0;
    while i < a.len()
        invariant
            i <= a.len() == b.len(),
            forall|k: int| 0 <= k < i ==> a@[k] == b@[k],
        decreases a.len() - i,
    {
        if a[i] != b[i] {
            return false;
        }
        i += 1;
    }
    assert(a@ =~= b@);
    true
}

impl Bytecode {
    /// Whether two instructions are the same, operands and strings included.
    pub fn same_as(&self, other: &Bytecode) -> (r: bool)
        ensures
            r == (self@ == other@),
    {
        match (self, other) {
            (Bytecode::Binop(a), Bytecode::Binop(b)) => *a == *b,
            (Bytecode::IntConst(a), Bytecode::IntConst(b)) => *a == *b,
            (Bytecode::StringConst(a), Bytecode::StringConst(b)) => same_bytes(a, b),
            (Bytecode::SExpression(a, n), Bytecode::SExpression(b, m)) => *n == *m && same_bytes(a, b),
            (Bytecode::Load(a), Bytecode::Load(b)) => *a == *b,
            (Bytecode::LoadAddr(a), Bytecode::LoadAddr(b)) => *a == *b,
            (Bytecode::Store(a), Bytecode::Store(b)) => *a == *b,
            (Bytecode::StoreReference, Bytecode::StoreReference) => true,
            (Bytecode::StoreComposite, Bytecode::StoreComposite) => true,
            (Bytecode::GetElement, Bytecode::GetElement) => true,
            (Bytecode::Jump(a), Bytecode::Jump(b)) => *a == *b,
            (Bytecode::CondJump(c, a), Bytecode::CondJump(d, b)) => *c == *d && *a == *b,
            (
                Bytecode::Begin { arg_count: a1, local_count: l1, has_closure: c1 },
                Bytecode::Begin { arg_count: a2, local_count: l2, has_closure: c2 },
            ) => *a1 == *a2 && *l1 == *l2 && *c1 == *c2,
            (Bytecode::End, Bytecode::End) => true,
            (
                Bytecode::Closure { name: n1, designations: d1 },
                Bytecode::Closure { name: n2, designations: d2 },
            ) => *n1 == *n2 && same_designations(d1, d2),
            (Bytecode::CallClosure(a), Bytecode::CallClosure(b)) => *a == *b,
            (Bytecode::CallFunc(a), Bytecode::CallFunc(b)) => *a == *b,
            (Bytecode::Return, Bytecode::Return) => true,
            (Bytecode::Drop, Bytecode::Drop) => true,
            (Bytecode::Duplicate, Bytecode::Duplicate) => true,
            (Bytecode::SwapTop, Bytecode::SwapTop) => true,
            (Bytecode::Tag(a, n), Bytecode::Tag(b, m)) => *n == *m && same_bytes(a, b),
            (Bytecode::Array(a), Bytecode::Array(b)) => *a == *b,
            (Bytecode::CheckPattern(a), Bytecode::CheckPattern(b)) => *a == *b,
            (
                Bytecode::MatchCaseFailure { line: l1, column: c1 },
                Bytecode::MatchCaseFailure { line: l2, column: c2 },
            ) => *l1 == *l2 && *c1 == *c2,
            (Bytecode::Lineno(a), Bytecode::Lineno(b)) => *a == *b,
            _ => false,
        }
    }
}

impl Clone for Bytecode {
    fn clone(&self) -> (r: Self)
        ensures
            r@ == self@,
    {
        match self {
            Bytecode::Binop(b) => Bytecode::Binop(*b),
            Bytecode::IntConst(n) => Bytecode::IntConst(*n),
            Bytecode::StringConst(s) => Bytecode::StringConst(vstd::slice::slice_to_vec(s.as_slice())),
            Bytecode::SExpression(s, n) => Bytecode::SExpression(vstd::slice::slice_to_vec(s.as_slice()), *n),
            Bytecode::Load(d) => Bytecode::Load(*d),
            Bytecode::LoadAddr(d) => Bytecode::LoadAddr(*d),
            Bytecode::Store(d) => Bytecode::Store(*d),
            Bytecode::StoreReference => Bytecode::StoreReference,
            Bytecode::StoreComposite => Bytecode::StoreComposite,
            Bytecode::GetElement => Bytecode::GetElement,
            Bytecode::Jump(t) => Bytecode::Jump(*t),
            Bytecode::CondJump(c, t) => Bytecode::CondJump(*c, *t),
            Bytecode::Begin { arg_count, local_count, has_closure } => Bytecode::Begin {
                arg_count: *arg_count,
                local_count: *local_count,
                has_closure: *has_closure,
            },
            Bytecode::End => Bytecode::End,
            Bytecode::Closure { name, designations } => Bytecode::Closure {
                name: *name,
                designations: vstd::slice::slice_to_vec(designations.as_slice()),
            },
            Bytecode::CallClosure(n) => Bytecode::CallClosure(*n),
            Bytecode::CallFunc(c) => Bytecode::CallFunc(*c),
            Bytecode::Return => Bytecode::Return,
            Bytecode::Drop => Bytecode::Drop,
            Bytecode::Duplicate => Bytecode::Duplicate,
            Bytecode::SwapTop => Bytecode::SwapTop,
            Bytecode::Tag(s, n) => Bytecode::Tag(vstd::slice::slice_to_vec(s.as_slice()), *n),
            Bytecode::Array(n) => Bytecode::Array(*n),
            Bytecode::CheckPattern(p) => Bytecode::CheckPattern(*p),
            Bytecode::MatchCaseFailure { line, column } => Bytecode::MatchCaseFailure {
                line: *line,
                column: *column,
            },
            Bytecode::Lineno(n) => Bytecode::Lineno(*n),
        }
    }
}

/// `u32::from_ne_bytes`: claimed to give the number that the four bytes encode in
/// the byte order of the machine that runs the code.
#[verifier::external_body]
fn u32_from_ne_bytes(bytes: [u8; 4]) -> (r: u32)
    ensures
        r == host_u32(bytes@, 0),
{
    u32::from_ne_bytes(bytes)
}

/// `i32::from_ne_bytes`: claimed to give the two's-complement number that the four
/// bytes encode in the byte order of the machine that runs the code.
#[verifier::external_body]
fn i32_from_ne_bytes(bytes: [u8; 4]) -> (r: i32)
    ensures
        r == host_u32(bytes@, 0) as i32,
{
    i32::from_ne_bytes(bytes)
}

/// A cursor over the code section of a bytecode file, with the string pool
/// that string operands point into.
#[derive(Debug, Clone)]
pub struct Code<'a> {
    slice: &'a [u8],
    pos: usize,
    strings: &'a [u8],
}

/// The mathematical value of a `Code`: the code bytes, the string pool and the cursor.
pub struct CodeView {
    pub code: Seq<u8>,
    pub strings: Seq<u8>,
    pub pos: usize,
}

impl<'a> View for Code<'a> {
    type V = CodeView;

    closed spec fn view(&self) -> CodeView {
        CodeView { code: self.slice@, strings: self.strings@, pos: self.pos }
    }
}

/// The outcome of reading a value at a cursor: the value and the cursor after it,
/// or the failure and the cursor at which it was detected.
pub type Read<T> = Result<(T, usize), (DecodeError, usize)>;

/// The outcome of an executable read, `r`, together with the cursor before and after it,
/// is the one that `expected` describes; the code and the pool are left alone.
pub open spec fn read_as<T>(before: CodeView, after: CodeView, r: Result<T, LamaError>, expected: Read<T>) -> bool {
    &&& after.code == before.code
    &&& after.strings == before.strings
    &&& match expected {
        Ok((v, p)) => r == Ok::<T, LamaError>(v) && after.pos == p,
        Err((e, p)) => r == Err::<T, LamaError>(decode_failure(e, p)) && after.pos == p,
    }
}

/// A result with its value taken by its view.
pub open spec fn viewed<T: View>(r: Result<T, LamaError>) -> Result<T::V, LamaError> {
    match r {
        Ok(v) => Ok(v@),
        Err(e) => Err(e),
    }
}

/// Takes `n` bytes at `pos`.
pub open spec fn read_bytes(code: Seq<u8>, pos: usize, n: usize) -> Read<Seq<u8>> {
    if pos + n <= code.len() {
        Ok((code.subrange(pos as int, pos + n), (pos + n) as usize))
    } else {
        Err((DecodeError::NotEnoughBytes(n), pos))
    }
}

/// Reads one byte at `pos`.
pub open spec fn read_byte(code: Seq<u8>, pos: usize) -> Read<u8> {
    if pos + 1 <= code.len() {
        Ok((code[pos as int], (pos + 1) as usize))
    } else {
        Err((DecodeError::NotEnoughBytes(1), pos))
    }
}

/// Reads a four-byte unsigned number at `pos`, in the byte order of the machine
/// that runs the code (as the Lama compiler writes it).
pub open spec fn read_u32(code: Seq<u8>, pos: usize) -> Read<u32> {
    if pos + 4 <= code.len() {
        Ok((host_u32(code, pos as int), (pos + 4) as usize))
    } else {
        Err((DecodeError::NotEnoughBytes(4), pos))
    }
}

/// Applies `f` to the value of a successful read.
pub open spec fn map_read<A, B>(r: Read<A>, f: spec_fn(A) -> B) -> Read<B> {
    match r {
        Ok((a, p)) => Ok((f(a), p)),
        Err(e) => Err(e),
    }
}

/// Reads a four-byte signed number at `pos`.
pub open spec fn read_i32(code: Seq<u8>, pos: usize) -> Read<i32> {
    map_read(read_u32(code, pos), |v: u32| v as i32)
}

/// Reads a four-byte count, offset or index at `pos`.
pub open spec fn read_usize(code: Seq<u8>, pos: usize) -> Read<usize> {
    map_read(read_u32(code, pos), |v: u32| v as usize)
}


/// The designation of kind `typ` (0 global, 1 local, 2 argument, 3 access) and index `n`.
pub open spec fn designation_of(typ: u8, n: usize) -> Designation {
    if typ == 0 {
        Designation::Global(n)
    } else if typ == 1 {
        Designation::Local(n)
    } else if typ == 2 {
        Designation::Argument(n)
    } else {
        Designation::Access(n)
    }
}

/// Reads the index of a designation whose kind `typ` is known, at `pos`.
pub open spec fn read_designation_index(code: Seq<u8>, typ: u8, pos: usize) -> Read<Designation> {
    if typ <= 3 {
        map_read(read_usize(code, pos), |n: usize| designation_of(typ, n))
    } else {
        Err((DecodeError::BadDesignation(typ), pos))
    }
}

/// Reads a designation at `pos`: where `kind` is `None` its kind comes first, as a byte.
pub open spec fn read_designation(code: Seq<u8>, pos: usize, kind: Option<u8>) -> Read<Designation> {
    match kind {
        Some(typ) => read_designation_index(code, typ, pos),
        None => match read_byte(code, pos) {
            Ok((typ, p)) => read_designation_index(code, typ, p),
            Err(e) => Err(e),
        },
    }
}

/// Reads `count` designations, each with its kind, at `pos`.
pub open spec fn read_designations(code: Seq<u8>, pos: usize, count: nat) -> Read<Seq<Designation>>
    decreases count,
{
    if count == 0 {
        Ok((Seq::empty(), pos))
    } else {
        match read_designations(code, pos, (count - 1) as nat) {
            Ok((ds, p)) => map_read(read_designation(code, p, None), |d: Designation| ds.push(d)),
            Err(e) => Err(e),
        }
    }
}

/// Reads a string operand at `pos`: an offset into the pool, and the string found there.
pub open spec fn read_string(code: Seq<u8>, strings: Seq<u8>, pos: usize) -> Read<Seq<u8>> {
    match read_usize(code, pos) {
        Ok((idx, p)) => match cstring_at(strings, idx as int) {
            Some(s) => Ok((s, p)),
            None => Err((DecodeError::NoNullTerminator, p)),
        },
        Err(e) => Err(e),
    }
}

/// Reads two four-byte numbers in a row at `pos`.
pub open spec fn read_two_usizes(code: Seq<u8>, pos: usize) -> Read<(usize, usize)> {
    match read_usize(code, pos) {
        Ok((a, p)) => map_read(read_usize(code, p), |b: usize| (a, b)),
        Err(e) => Err(e),
    }
}

/// Reads a string operand followed by a four-byte number at `pos`.
pub open spec fn read_string_usize(code: Seq<u8>, strings: Seq<u8>, pos: usize) -> Read<(Seq<u8>, usize)> {
    match read_string(code, strings, pos) {
        Ok((s, p)) => map_read(read_usize(code, p), |n: usize| (s, n)),
        Err(e) => Err(e),
    }
}

/// Reads the operands of a closure at `pos`: its code offset, the number of
/// captured designations, then the designations themselves.
pub open spec fn read_closure(code: Seq<u8>, pos: usize) -> Read<Instr> {
    match read_two_usizes(code, pos) {
        Ok(((name, count), p)) => map_read(
            read_designations(code, p, count as nat),
            |ds: Seq<Designation>| Instr::Closure { name, designations: ds },
        ),
        Err(e) => Err(e),
    }
}

/// The binary operator of an opcode in 0x01 ..= 0x0D.
pub open spec fn binop_of(x: u8) -> Binop {
    if x == 0x01 {
        Binop::Add
    } else if x == 0x02 {
        Binop::Sub
    } else if x == 0x03 {
        Binop::Mul
    } else if x == 0x04 {
        Binop::Div
    } else if x == 0x05 {
        Binop::Mod
    } else if x == 0x06 {
        Binop::Lt
    } else if x == 0x07 {
        Binop::Lte
    } else if x == 0x08 {
        Binop::Gt
    } else if x == 0x09 {
        Binop::Gte
    } else if x == 0x0A {
        Binop::Eq
    } else if x == 0x0B {
        Binop::Neq
    } else if x == 0x0C {
        Binop::And
    } else {
        Binop::Or
    }
}

/// The pattern test of an opcode in 0x60 ..= 0x66.
pub open spec fn pattern_of(x: u8) -> Pattern {
    if x == 0x60 {
        Pattern::TopStringsEqual
    } else if x == 0x61 {
        Pattern::IsString
    } else if x == 0x62 {
        Pattern::IsArray
    } else if x == 0x63 {
        Pattern::IsSExpression
    } else if x == 0x64 {
        Pattern::IsNotInt
    } else if x == 0x65 {
        Pattern::IsInt
    } else {
        Pattern::IsClosure
    }
}

/// The instructions that are a single opcode byte, with no operand.
pub open spec fn bare_instr(x: u8) -> Option<Instr> {
    if 0x01 <= x <= 0x0D {
        Some(Instr::Binop(binop_of(x)))
    } else if x == 0x13 {
        Some(Instr::StoreReference)
    } else if x == 0x14 {
        Some(Instr::StoreComposite)
    } else if x == 0x16 {
        Some(Instr::End)
    } else if x == 0x17 {
        Some(Instr::Return)
    } else if x == 0x18 {
        Some(Instr::Drop)
    } else if x == 0x19 {
        Some(Instr::Duplicate)
    } else if x == 0x1A {
        Some(Instr::SwapTop)
    } else if x == 0x1B {
        Some(Instr::GetElement)
    } else if x == 0x70 {
        Some(Instr::CallFunc(Call::Read))
    } else if x == 0x71 {
        Some(Instr::CallFunc(Call::Write))
    } else if x == 0x72 {
        Some(Instr::CallFunc(Call::Length))
    } else if x == 0x73 {
        Some(Instr::CallFunc(Call::String))
    } else if 0x60 <= x <= 0x66 {
        Some(Instr::CheckPattern(pattern_of(x)))
    } else {
        None
    }
}

/// The instruction of opcode `x`, whose operands start at `pos`.
/// `Ok((None, _))` is the end-of-code marker 0xff.
pub open spec fn decode_operands(code: Seq<u8>, strings: Seq<u8>, x: u8, pos: usize) -> Read<Option<Instr>> {
    if x == 0xff {
        Ok((None, pos))
    } else if bare_instr(x) is Some {
        Ok((bare_instr(x), pos))
    } else {
        map_read(decode_with_operands(code, strings, x, pos), |i: Instr| Some(i))
    }
}

/// The instruction of an opcode that takes operands, read at `pos`.
pub open spec fn decode_with_operands(code: Seq<u8>, strings: Seq<u8>, x: u8, pos: usize) -> Read<Instr> {
    if x == 0x10 {
        map_read(read_i32(code, pos), |n: i32| Instr::IntConst(n))
    } else if x == 0x11 {
        map_read(read_string(code, strings, pos), |s: Seq<u8>| Instr::StringConst(s))
    } else if x == 0x12 {
        map_read(read_string_usize(code, strings, pos), |sn: (Seq<u8>, usize)| Instr::SExpression(sn.0, sn.1))
    } else if 0x20 <= x <= 0x23 {
        map_read(read_designation(code, pos, Some((x - 0x20) as u8)), |d: Designation| Instr::Load(d))
    } else if 0x30 <= x <= 0x33 {
        map_read(read_designation(code, pos, Some((x - 0x30) as u8)), |d: Designation| Instr::LoadAddr(d))
    } else if 0x40 <= x <= 0x43 {
        map_read(read_designation(code, pos, Some((x - 0x40) as u8)), |d: Designation| Instr::Store(d))
    } else if x == 0x15 {
        map_read(read_usize(code, pos), |t: usize| Instr::Jump(t))
    } else if x == 0x50 {
        map_read(read_usize(code, pos), |t: usize| Instr::CondJump(Condition::Zero, t))
    } else if x == 0x51 {
        map_read(read_usize(code, pos), |t: usize| Instr::CondJump(Condition::NonZero, t))
    } else if x == 0x74 {
        map_read(read_usize(code, pos), |n: usize| Instr::CallFunc(Call::MkArray(n)))
    } else if x == 0x52 || x == 0x53 {
        map_read(
            read_two_usizes(code, pos),
            |ab: (usize, usize)| Instr::Begin { arg_count: ab.0, local_count: ab.1, has_closure: x == 0x53 },
        )
    } else if x == 0x54 {
        read_closure(code, pos)
    } else if x == 0x55 {
        map_read(read_usize(code, pos), |n: usize| Instr::CallClosure(n))
    } else if x == 0x56 {
        map_read(read_two_usizes(code, pos), |tn: (usize, usize)| Instr::CallFunc(Call::Function(tn.0, tn.1)))
    } else if x == 0x57 {
        map_read(read_string_usize(code, strings, pos), |sn: (Seq<u8>, usize)| Instr::Tag(sn.0, sn.1))
    } else if x == 0x58 {
        map_read(read_usize(code, pos), |n: usize| Instr::Array(n))
    } else if x == 0x59 {
        map_read(read_two_usizes(code, pos), |lc: (usize, usize)| Instr::MatchCaseFailure { line: lc.0, column: lc.1 })
    } else if x == 0x5A {
        map_read(read_usize(code, pos), |n: usize| Instr::Lineno(n))
    } else {
        Err((DecodeError::UnknownBytecode(x), pos))
    }
}

/// Decodes the instruction at `pos`. `Ok((None, _))` means the code has ended:
/// the cursor is at its end, or at the end-of-code marker 0xff.
pub open spec fn decode_at_pos(code: Seq<u8>, strings: Seq<u8>, pos: usize) -> Read<Option<Instr>> {
    if pos == code.len() {
        Ok((None, pos))
    } else if code.len() < pos {
        Err((DecodeError::JumpEOF, pos))
    } else {
        decode_operands(code, strings, code[pos as int], (pos + 1) as usize)
    }
}

/// The instruction at `target`, decoded with the cursor at `cursor` and put back there after.
pub open spec fn decode_target(code: Seq<u8>, strings: Seq<u8>, cursor: usize, target: usize) -> Result<Instr, LamaError> {
    match decode_at_pos(code, strings, target) {
        Ok((Some(i), _)) => Ok(i),
        Ok((None, _)) => Err(decode_failure(DecodeError::JumpEOF, cursor)),
        Err((e, p)) => Err(decode_failure(e, p)),
    }
}

/// An optional instruction read as its value.
pub open spec fn instr_of(o: Option<Bytecode>) -> Option<Instr> {
    match o {
        Some(b) => Some(b@),
        None => None,
    }
}

/// The result of a decoding step with its instruction taken by its value.
pub open spec fn decoded(r: Result<Option<Bytecode>, LamaError>) -> Result<Option<Instr>, LamaError> {
    match r {
        Ok(o) => Ok(instr_of(o)),
        Err(e) => Err(e),
    }
}

/// Once reading a run of designations fails, reading a longer run fails the same way.
pub proof fn lemma_designations_failure_persists(code: Seq<u8>, pos: usize, k: nat, n: nat)
    requires
        k <= n,
        read_designations(code, pos, k) is Err,
    ensures
        read_designations(code, pos, n) == read_designations(code, pos, k),
    decreases n - k,
{
    if k < n {
        lemma_designations_failure_persists(code, pos, k, (n - 1) as nat);
    }
}

/// Reading designations never moves the cursor back nor past the end of the code.
proof fn lemma_designations_within(code: Seq<u8>, pos: usize, n: nat)
    requires
        pos <= code.len() <= usize::MAX,
    ensures
        read_designations(code, pos, n) matches Ok((_, p)) ==> pos <= p <= code.len(),
        read_designations(code, pos, n) matches Err((e, p)) ==> pos <= p && !(e is UnknownBytecode),
    decreases n,
{
    if n > 0 {
        lemma_designations_within(code, pos, (n - 1) as nat);
        match read_designations(code, pos, (n - 1) as nat) {
            Ok((_, p)) => {
                assert(read_designation(code, p, None) matches Ok((_, q)) ==> p < q <= code.len());
                assert(read_designation(code, p, None) matches Err((e, q)) ==> p <= q && !(e is UnknownBytecode));
            },
            Err(_) => {},
        }
    }
}

/// Decoding an instruction moves the cursor forward, past at least its opcode,
/// and not past the end of the code; reaching the end leaves the cursor there,
/// and the end-of-code marker is stepped over.
pub proof fn lemma_decode_advances(code: Seq<u8>, strings: Seq<u8>, pos: usize)
    requires
        code.len() <= usize::MAX,
    ensures
        decode_at_pos(code, strings, pos) matches Ok((Some(_), p)) ==> pos < p <= code.len(),
        decode_at_pos(code, strings, pos) matches Ok((None, p)) ==> (
            (pos == code.len() && p == pos) || (pos < code.len() && code[pos as int] == 0xff && p == pos + 1)),
        decode_at_pos(code, strings, pos) matches Err((_, p)) ==> pos <= p,
        decode_at_pos(code, strings, pos) matches Ok((Some(i), p)) ==> (
            i is Jump || i is CondJump || i matches Instr::CallFunc(Call::Function(_, _))) ==> pos + 5 <= p,
{
    if pos < code.len() {
        let x = code[pos as int];
        let q = (pos + 1) as usize;
        if 0x54 == x {
            match read_two_usizes(code, q) {
                Ok(((name, count), p)) => lemma_designations_within(code, p, count as nat),
                Err(_) => {},
            }
        }
    }
}

/// The opcodes of the instruction set, and the end-of-code marker 0xff.
pub open spec fn known_opcode(x: u8) -> bool {
    ||| 0x01 <= x <= 0x0D
    ||| 0x10 <= x <= 0x1B
    ||| 0x20 <= x <= 0x23
    ||| 0x30 <= x <= 0x33
    ||| 0x40 <= x <= 0x43
    ||| 0x50 <= x <= 0x5A
    ||| 0x60 <= x <= 0x66
    ||| 0x70 <= x <= 0x74
    ||| x == 0xff
}

/// A byte at the cursor is an unknown opcode exactly when it is none of the known
/// ones; decoding it then fails with that byte, reported just past it.
pub proof fn lemma_unknown_opcodes(code: Seq<u8>, strings: Seq<u8>, pos: usize)
    requires
        pos < code.len() <= usize::MAX,
    ensures
        (decode_at_pos(code, strings, pos) matches Err((DecodeError::UnknownBytecode(_), _)))
            <==> !known_opcode(code[pos as int]),
        !known_opcode(code[pos as int]) ==> decode_at_pos(code, strings, pos) == Err::<(Option<Instr>, usize), (DecodeError, usize)>(
            (DecodeError::UnknownBytecode(code[pos as int]), (pos + 1) as usize)),
{
    let x = code[pos as int];
    let q = (pos + 1) as usize;
    if 0x54 == x {
        match read_two_usizes(code, q) {
            Ok(((name, count), p)) => lemma_designations_within(code, p, count as nat),
            Err(_) => {},
        }
    }
}

/// The kind number of a designation: 0 global, 1 local, 2 argument, 3 access.
pub open spec fn designation_kind(d: Designation) -> int {
    match d {
        Designation::Global(_) => 0,
        Designation::Local(_) => 1,
        Designation::Argument(_) => 2,
        Designation::Access(_) => 3,
    }
}

/// The slot index of a designation.
pub open spec fn designation_index(d: Designation) -> usize {
    match d {
        Designation::Global(n) => n,
        Designation::Local(n) => n,
        Designation::Argument(n) => n,
        Designation::Access(n) => n,
    }
}

/// The opcode byte that encodes an instruction, as the Lama compiler writes it.
pub open spec fn opcode_of(i: Instr) -> int {
    match i {
        Instr::Binop(b) => match b {
            Binop::Add => 0x01,
            Binop::Sub => 0x02,
            Binop::Mul => 0x03,
            Binop::Div => 0x04,
            Binop::Mod => 0x05,
            Binop::Lt => 0x06,
            Binop::Lte => 0x07,
            Binop::Gt => 0x08,
            Binop::Gte => 0x09,
            Binop::Eq => 0x0A,
            Binop::Neq => 0x0B,
            Binop::And => 0x0C,
            Binop::Or => 0x0D,
        },
        Instr::IntConst(_) => 0x10,
        Instr::StringConst(_) => 0x11,
        Instr::SExpression(_, _) => 0x12,
        Instr::StoreReference => 0x13,
        Instr::StoreComposite => 0x14,
        Instr::Jump(_) => 0x15,
        Instr::End => 0x16,
        Instr::Return => 0x17,
        Instr::Drop => 0x18,
        Instr::Duplicate => 0x19,
        Instr::SwapTop => 0x1A,
        Instr::GetElement => 0x1B,
        Instr::Load(d) => 0x20 + designation_kind(d),
        Instr::LoadAddr(d) => 0x30 + designation_kind(d),
        Instr::Store(d) => 0x40 + designation_kind(d),
        Instr::CondJump(Condition::Zero, _) => 0x50,
        Instr::CondJump(Condition::NonZero, _) => 0x51,
        Instr::Begin { has_closure, .. } => if has_closure { 0x53 } else { 0x52 },
        Instr::Closure { .. } => 0x54,
        Instr::CallClosure(_) => 0x55,
        Instr::CallFunc(Call::Function(_, _)) => 0x56,
        Instr::Tag(_, _) => 0x57,
        Instr::Array(_) => 0x58,
        Instr::MatchCaseFailure { .. } => 0x59,
        Instr::Lineno(_) => 0x5A,
        Instr::CheckPattern(p) => match p {
            Pattern::TopStringsEqual => 0x60,
            Pattern::IsString => 0x61,
            Pattern::IsArray => 0x62,
            Pattern::IsSExpression => 0x63,
            Pattern::IsNotInt => 0x64,
            Pattern::IsInt => 0x65,
            Pattern::IsClosure => 0x66,
        },
        Instr::CallFunc(Call::Read) => 0x70,
        Instr::CallFunc(Call::Write) => 0x71,
        Instr::CallFunc(Call::Length) => 0x72,
        Instr::CallFunc(Call::String) => 0x73,
        Instr::CallFunc(Call::MkArray(_)) => 0x74,
    }
}

/// Every decoded instruction is the one that its opcode byte encodes.
pub proof fn lemma_decoded_opcode(code: Seq<u8>, strings: Seq<u8>, pos: usize)
    ensures
        decode_at_pos(code, strings, pos) matches Ok((Some(i), _)) ==> pos < code.len() && code[pos as int] == opcode_of(i),
{
}

/// Each designation of a run read with their kinds takes five bytes: its kind byte,
/// then its index.
proof fn lemma_designations_layout(code: Seq<u8>, pos: usize, n: nat)
    requires
        code.len() <= usize::MAX,
    ensures
        read_designations(code, pos, n) matches Ok((ds, p)) ==> {
            &&& ds.len() == n
            &&& p == pos + 5 * n
            &&& forall|j: int| 0 <= j < n ==> {
                &&& designation_kind(#[trigger] ds[j]) == code[pos + 5 * j]
                &&& designation_index(ds[j]) == host_u32(code, pos + 5 * j + 1) as usize
            }
        },
    decreases n,
{
    if n > 0 {
        lemma_designations_layout(code, pos, (n - 1) as nat);
        match read_designations(code, pos, (n - 1) as nat) {
            Ok((ds, p)) => {
                match read_designation(code, p, None) {
                    Ok((d, q)) => {
                        let all = ds.push(d);
                        assert forall|j: int| 0 <= j < n implies {
                            &&& designation_kind(#[trigger] all[j]) == code[pos + 5 * j]
                            &&& designation_index(all[j]) == host_u32(code, pos + 5 * j + 1) as usize
                        } by {
                            if j < n - 1 {
                                assert(all[j] == ds[j]);
                            } else {
                                assert(j == n - 1);
                                assert(p == pos + 5 * j);
                            }
                        }
                    },
                    Err(_) => {},
                }
            },
            Err(_) => {},
        }
    }
}

/// The operands of a decoded instruction are the four-byte words right after its
/// opcode, in the order in which the instruction lists them; the cursor ends just
/// past the last of them.
pub proof fn lemma_decoded_operands(code: Seq<u8>, strings: Seq<u8>, pos: usize)
    requires
        code.len() <= usize::MAX,
    ensures
        decode_at_pos(code, strings, pos) matches Ok((Some(i), p)) ==> {
            let w1 = host_u32(code, pos + 1) as usize;
            let w2 = host_u32(code, pos + 5) as usize;
            match i {
                Instr::IntConst(n) => n == host_u32(code, pos + 1) as i32 && p == pos + 5,
                Instr::StringConst(s) => cstring_at(strings, w1 as int) == Some(s) && p == pos + 5,
                Instr::SExpression(s, n) => cstring_at(strings, w1 as int) == Some(s) && n == w2 && p == pos + 9,
                Instr::Tag(s, n) => cstring_at(strings, w1 as int) == Some(s) && n == w2 && p == pos + 9,
                Instr::Load(d) => designation_index(d) == w1 && p == pos + 5,
                Instr::LoadAddr(d) => designation_index(d) == w1 && p == pos + 5,
                Instr::Store(d) => designation_index(d) == w1 && p == pos + 5,
                Instr::Jump(t) => t == w1 && p == pos + 5,
                Instr::CondJump(_, t) => t == w1 && p == pos + 5,
                Instr::CallClosure(n) => n == w1 && p == pos + 5,
                Instr::Array(n) => n == w1 && p == pos + 5,
                Instr::Lineno(n) => n == w1 && p == pos + 5,
                Instr::CallFunc(Call::MkArray(n)) => n == w1 && p == pos + 5,
                Instr::CallFunc(Call::Function(t, n)) => t == w1 && n == w2 && p == pos + 9,
                Instr::Begin { arg_count, local_count, .. } => arg_count == w1 && local_count == w2 && p == pos + 9,
                Instr::MatchCaseFailure { line, column } => line == w1 && column == w2 && p == pos + 9,
                Instr::Closure { name, designations } => {
                    &&& name == w1
                    &&& designations.len() == w2
                    &&& p == pos + 9 + 5 * designations.len()
                    &&& forall|j: int| 0 <= j < designations.len() ==> {
                        &&& designation_kind(#[trigger] designations[j]) == code[pos + 9 + 5 * j]
                        &&& designation_index(designations[j]) == host_u32(code, pos + 9 + 5 * j + 1) as usize
                    }
                },
                _ => p == pos + 1,
            }
        },
{
    if pos < code.len() && code[pos as int] == 0x54 {
        let q = (pos + 1) as usize;
        match read_two_usizes(code, q) {
            Ok(((name, count), p)) => lemma_designations_layout(code, p, count as nat),
            Err(_) => {},
        }
    }
}

/// The load, address and store opcodes carry the designation's kind in their low
/// two bits (0 global, 1 local, 2 argument, 3 access) and its index in the four
/// bytes that follow.
pub proof fn lemma_designation_opcodes(code: Seq<u8>, strings: Seq<u8>, pos: usize, k: u8)
    requires
        pos + 5 <= code.len() <= usize::MAX,
        k <= 3,
    ensures
        ({
            let n = host_u32(code, pos + 1) as usize;
            let d = if k == 0 {
                Designation::Global(n)
            } else if k == 1 {
                Designation::Local(n)
            } else if k == 2 {
                Designation::Argument(n)
            } else {
                Designation::Access(n)
            };
            let after = (pos + 5) as usize;
            &&& code[pos as int] == 0x20 + k ==> decode_at_pos(code, strings, pos) == Ok::<(Option<Instr>, usize), (DecodeError, usize)>((Some(Instr::Load(d)), after))
            &&& code[pos as int] == 0x30 + k ==> decode_at_pos(code, strings, pos) == Ok::<(Option<Instr>, usize), (DecodeError, usize)>((Some(Instr::LoadAddr(d)), after))
            &&& code[pos as int] == 0x40 + k ==> decode_at_pos(code, strings, pos) == Ok::<(Option<Instr>, usize), (DecodeError, usize)>((Some(Instr::Store(d)), after))
        }),
{
}

/// What a decoding failure at `pos`, reported at `p`, says of the code: an operand
/// of `n` bytes (four, or one for a captured designation's kind) runs past the end;
/// an opcode byte that no instruction has; a string operand whose offset leads to
/// no NUL in the pool; a captured designation's kind byte above 3; or a cursor
/// already past the end.
pub open spec fn failure_explained(code: Seq<u8>, strings: Seq<u8>, pos: usize, e: DecodeError, p: usize) -> bool {
    match e {
        DecodeError::NotEnoughBytes(n) => (n == 1 || n == 4) && pos < p <= code.len() < p + n,
        DecodeError::UnknownBytecode(x) => p == pos + 1 && p <= code.len() && x == code[pos as int] && !known_opcode(x),
        DecodeError::NoNullTerminator => pos + 5 <= p <= code.len() && cstring_at(strings, host_u32(code, p - 4) as int) is None,
        DecodeError::BadDesignation(b) => pos < p <= code.len() && b == code[p - 1] && b > 3,
        DecodeError::JumpEOF => code.len() < pos && p == pos,
    }
}

/// A failure to read designations is explained by the code.
proof fn lemma_designations_failure(code: Seq<u8>, pos: usize, n: nat, start: usize, strings: Seq<u8>)
    requires
        start < pos <= code.len() <= usize::MAX,
    ensures
        read_designations(code, pos, n) matches Err((e, p)) ==> failure_explained(code, strings, start, e, p),
        read_designations(code, pos, n) matches Ok((_, p)) ==> pos <= p <= code.len(),
    decreases n,
{
    if n > 0 {
        lemma_designations_failure(code, pos, (n - 1) as nat, start, strings);
    }
}

/// Every decoding failure is explained by the code, as `failure_explained` says.
pub proof fn lemma_decode_failures(code: Seq<u8>, strings: Seq<u8>, pos: usize)
    requires
        code.len() <= usize::MAX,
    ensures
        decode_at_pos(code, strings, pos) matches Err((e, p)) ==> failure_explained(code, strings, pos, e, p),
{
    if pos < code.len() && code[pos as int] == 0x54 {
        let q = (pos + 1) as usize;
        match read_two_usizes(code, q) {
            Ok(((name, count), p)) => lemma_designations_failure(code, p, count as nat, pos, strings),
            Err(_) => {},
        }
    }
}

impl<'a> Code<'a> {
    /// The code, as any slice, is no longer than `usize::MAX` bytes.
    pub proof fn lemma_code_fits(&self)
        ensures
            self@.code.len() <= usize::MAX,
    {
        broadcast use vstd::slice::axiom_spec_len;

        assert(vstd::slice::spec_slice_len(self.slice) == self.slice@.len());
    }

    /// A cursor at the start of `slice`, with string operands read from `strings`.
    pub fn new(slice: &'a [u8], strings: &'a [u8]) -> (r: Self)
        ensures
            r@ == (CodeView { code: slice@, strings: strings@, pos: 0 }),
    {
        Self { slice, pos: 0, strings }
    }

    /// Moves the cursor back to the start of the code.
    pub fn restart(&mut self)
        ensures
            final(self)@ == (CodeView { pos: 0, ..old(self)@ }),
    {
        self.pos = 0;
    }

    /// The cursor.
    pub fn position(&self) -> (r: usize)
        ensures
            r == self@.pos,
    {
        self.pos
    }

    fn err(&self, error: DecodeError) -> (r: LamaError)
        ensures
            r == decode_failure(error, self@.pos),
    {
        LamaError::DecodeError { error, while_decoding_at: self.pos }
    }

    /// Takes the next `n` bytes and moves the cursor past them.
    pub fn advance(&mut self, n: usize) -> (r: Result<&'a [u8], LamaError>)
        ensures
            read_as(old(self)@, final(self)@, viewed(r), read_bytes(old(self)@.code, old(self)@.pos, n)),
    {
        if self.slice.len() < self.pos || self.slice.len() - self.pos < n {
            return Err(self.err(DecodeError::NotEnoughBytes(n)));
        }
        let out = vstd::slice::slice_subrange(self.slice, self.pos, self.pos + n);
        self.pos = self.pos + n;
        Ok(out)
    }

    /// Reads one byte.
    pub fn get_byte(&mut self) -> (r: Result<u8, LamaError>)
        ensures
            read_as(old(self)@, final(self)@, r, read_byte(old(self)@.code, old(self)@.pos)),
    {
        let xs = self.advance(1)?;
        Ok(xs[0])
    }

    /// Reads a four-byte signed number, in the host's byte order.
    pub fn get_i32(&mut self) -> (r: Result<i32, LamaError>)
        ensures
            read_as(old(self)@, final(self)@, r, read_i32(old(self)@.code, old(self)@.pos)),
    {
        let xs = self.advance(4)?;
        let bytes: [u8; 4] = [xs[0], xs[1], xs[2], xs[3]];
        assert(bytes@ =~= xs@);
        Ok(i32_from_ne_bytes(bytes))
    }

    /// Reads a four-byte count, offset or index, in the host's byte order.
    pub fn get_usize(&mut self) -> (r: Result<usize, LamaError>)
        ensures
            read_as(old(self)@, final(self)@, r, read_usize(old(self)@.code, old(self)@.pos)),
    {
        let xs = self.advance(4)?;
        let bytes: [u8; 4] = [xs[0], xs[1], xs[2], xs[3]];
        assert(bytes@ =~= xs@);
        Ok(u32_from_ne_bytes(bytes) as usize)
    }

    /// Reads a jump target: a four-byte offset into the code.
    pub fn get_target(&mut self) -> (r: Result<usize, LamaError>)
        ensures
            read_as(old(self)@, final(self)@, r, read_usize(old(self)@.code, old(self)@.pos)),
    {
        self.get_usize()
    }

    /// Reads a designation. Where `m_typ` is `None` its kind is read first, as a
    /// byte (0 global, 1 local, 2 argument, 3 access); where it is `Some(x)` the
    /// kind `x` was already read.
    pub fn get_designation(&mut self, m_typ: Option<u8>) -> (r: Result<Designation, LamaError>)
        ensures
            read_as(old(self)@, final(self)@, r, read_designation(old(self)@.code, old(self)@.pos, m_typ)),
    {
        let typ = match m_typ {
            Some(x) => x,
            None => self.get_byte()?,
        };
        Ok(
            match typ {
                0 => Designation::Global(self.get_usize()?),
                1 => Designation::Local(self.get_usize()?),
                2 => Designation::Argument(self.get_usize()?),
                3 => Designation::Access(self.get_usize()?),
                x => return Err(self.err(DecodeError::BadDesignation(x))),
            },
        )
    }

    /// Reads a string operand: an offset into the string pool, and the string there.
    pub fn get_string(&mut self) -> (r: Result<Vec<u8>, LamaError>)
        ensures
            read_as(old(self)@, final(self)@, viewed(r), read_string(old(self)@.code, old(self)@.strings, old(self)@.pos)),
    {
        let idx = self.get_usize()?;
        match decode_cstring(self.strings, idx) {
            Some(s) => Ok(s),
            None => Err(self.err(DecodeError::NoNullTerminator)),
        }
    }

    fn get_closure(&mut self) -> (r: Result<Bytecode, LamaError>)
        ensures
            read_as(old(self)@, final(self)@, viewed(r), read_closure(old(self)@.code, old(self)@.pos)),
    {
        let target = self.get_target()?;
        let des_count = self.get_usize()?;
        let ghost start = self@.pos;
        let mut designs: Vec<Designation> = Vec::new();
        let mut k: usize = 0;
        while k < des_count
            invariant
                k <= des_count,
                self@.code == old(self)@.code,
                self@.strings == old(self)@.strings,
                read_two_usizes(old(self)@.code, old(self)@.pos) == Ok::<((usize, usize), usize), (DecodeError, usize)>(((target, des_count), start)),
                read_designations(self@.code, start, k as nat) == Ok::<(Seq<Designation>, usize), (DecodeError, usize)>((designs@, self@.pos)),
            decreases des_count - k,
        {
            let ghost before = self@.pos;
            let d = match self.get_designation(None) {
                Ok(d) => d,
                Err(e) => {
                    proof {
                        lemma_designations_failure_persists(self@.code, start, (k + 1) as nat, des_count as nat);
                    }
                    return Err(e);
                },
            };
            designs.push(d);
            k += 1;
        }
        Ok(Bytecode::Closure { name: target, designations: designs })
    }

    fn decode_opcode(&mut self, x: u8) -> (r: Result<Option<Bytecode>, LamaError>)
        ensures
            read_as(old(self)@, final(self)@, decoded(r), decode_operands(old(self)@.code, old(self)@.strings, x, old(self)@.pos)),
    {
        Ok(
            Some(
                match x {
                    0xff => return Ok(None),
                    0x01 => Bytecode::Binop(Binop::Add),
                    0x02 => Bytecode::Binop(Binop::Sub),
                    0x03 => Bytecode::Binop(Binop::Mul),
                    0x04 => Bytecode::Binop(Binop::Div),
                    0x05 => Bytecode::Binop(Binop::Mod),
                    0x06 => Bytecode::Binop(Binop::Lt),
                    0x07 => Bytecode::Binop(Binop::Lte),
                    0x08 => Bytecode::Binop(Binop::Gt),
                    0x09 => Bytecode::Binop(Binop::Gte),
                    0x0A => Bytecode::Binop(Binop::Eq),
                    0x0B => Bytecode::Binop(Binop::Neq),
                    0x0C => Bytecode::Binop(Binop::And),
                    0x0D => Bytecode::Binop(Binop::Or),
                    0x10 => Bytecode::IntConst(self.get_i32()?),
                    0x11 => Bytecode::StringConst(self.get_string()?),
                    0x12 => {
                        let s = self.get_string()?;
                        Bytecode::SExpression(s, self.get_usize()?)
                    },
                    0x13 => Bytecode::StoreReference,
                    0x14 => Bytecode::StoreComposite,
                    0x18 => Bytecode::Drop,
                    0x19 => Bytecode::Duplicate,
                    0x1A => Bytecode::SwapTop,
                    0x1B => Bytecode::GetElement,
                    0x20..=0x23 => Bytecode::Load(self.get_designation(Some(x - 0x20))?),
                    0x30..=0x33 => Bytecode::LoadAddr(self.get_designation(Some(x - 0x30))?),
                    0x40..=0x43 => Bytecode::Store(self.get_designation(Some(x - 0x40))?),
                    0x15 => Bytecode::Jump(self.get_target()?),
                    0x50 => Bytecode::CondJump(Condition::Zero, self.get_target()?),
                    0x51 => Bytecode::CondJump(Condition::NonZero, self.get_target()?),
                    0x17 => Bytecode::Return,
                    0x70 => Bytecode::CallFunc(Call::Read),
                    0x71 => Bytecode::CallFunc(Call::Write),
                    0x72 => Bytecode::CallFunc(Call::Length),
                    0x73 => Bytecode::CallFunc(Call::String),
                    0x74 => Bytecode::CallFunc(Call::MkArray(self.get_usize()?)),
                    0x16 => Bytecode::End,
                    0x52 => {
                        let arg_count = self.get_usize()?;
                        let local_count = self.get_usize()?;
                        Bytecode::Begin { arg_count, local_count, has_closure: false }
                    },
                    0x53 => {
                        let arg_count = self.get_usize()?;
                        let local_count = self.get_usize()?;
                        Bytecode::Begin { arg_count, local_count, has_closure: true }
                    },
                    0x54 => self.get_closure()?,
                    0x55 => Bytecode::CallClosure(self.get_usize()?),
                    0x56 => {
                        let target = self.get_target()?;
                        Bytecode::CallFunc(Call::Function(target, self.get_usize()?))
                    },
                    0x57 => {
                        let s = self.get_string()?;
                        Bytecode::Tag(s, self.get_usize()?)
                    },
                    0x58 => Bytecode::Array(self.get_usize()?),
                    0x59 => {
                        let line = self.get_usize()?;
                        let column = self.get_usize()?;
                        Bytecode::MatchCaseFailure { line, column }
                    },
                    0x5A => Bytecode::Lineno(self.get_usize()?),
                    0x60 => Bytecode::CheckPattern(Pattern::TopStringsEqual),
                    0x61 => Bytecode::CheckPattern(Pattern::IsString),
                    0x62 => Bytecode::CheckPattern(Pattern::IsArray),
                    0x63 => Bytecode::CheckPattern(Pattern::IsSExpression),
                    0x64 => Bytecode::CheckPattern(Pattern::IsNotInt),
                    0x65 => Bytecode::CheckPattern(Pattern::IsInt),
                    0x66 => Bytecode::CheckPattern(Pattern::IsClosure),
                    x => return Err(self.err(DecodeError::UnknownBytecode(x))),
                },
            ),
        )
    }

    /// Decodes the instruction at the cursor and moves the cursor past it.
    /// `Ok(None)` means the code has ended: the cursor was at its end, or at the
    /// end-of-code marker 0xff (which it then moves past).
    pub fn decode(&mut self) -> (r: Result<Option<Bytecode>, LamaError>)
        ensures
            read_as(old(self)@, final(self)@, decoded(r), decode_at_pos(old(self)@.code, old(self)@.strings, old(self)@.pos)),
            old(self)@.pos <= final(self)@.pos,
    {
        proof {
            self.lemma_code_fits();
            lemma_decode_advances(self@.code, self@.strings, self@.pos);
        }
        if self.slice.len() == self.pos {
            return Ok(None);
        } else if self.slice.len() < self.pos {
            return Err(self.err(DecodeError::JumpEOF));
        }
        let x = self.get_byte()?;
        self.decode_opcode(x)
    }

    /// Decodes the instruction at offset `pos` of the code, leaving the cursor where it was.
    /// Reaching the end of the code there is the error `JumpEOF`, reported at the cursor.
    pub fn decode_at(&mut self, pos: usize) -> (r: Result<Bytecode, LamaError>)
        ensures
            final(self)@ == old(self)@,
            viewed(r) == decode_target(old(self)@.code, old(self)@.strings, old(self)@.pos, pos),
    {
        let old_idx = self.pos;
        self.pos = pos;
        let out = self.decode();
        self.pos = old_idx;
        match out {
            Ok(Some(y)) => Ok(y),
            Ok(None) => Err(self.err(DecodeError::JumpEOF)),
            Err(e) => Err(e),
        }
    }
}

} // verus!
