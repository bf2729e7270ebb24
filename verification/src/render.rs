use vstd::prelude::*;
use vstd::utf8::{decode_utf8, valid_utf8};

use crate::syntax::{designation_index, designation_kind, Binop, Bytecode, Call, Condition, Designation, Instr, Pattern};

verus! {

/// The character of a digit below sixteen, lower case.
pub open spec fn digit_char(d: nat) -> char {
    if d < 10 {
        (('0' as int) + d) as char
    } else {
        (('a' as int) + d - 10) as char
    }
}

/// `n` in decimal.
pub open spec fn decimal(n: nat) -> Seq<char>
    decreases n,
{
    if n < 10 {
        seq![digit_char(n)]
    } else {
        decimal(n / 10) + seq![digit_char(n % 10)]
    }
}

/// `n` in lower-case hexadecimal, without prefix.
pub open spec fn hex(n: nat) -> Seq<char>
    decreases n,
{
    if n < 16 {
        seq![digit_char(n)]
    } else {
        hex(n / 16) + seq![digit_char(n % 16)]
    }
}

fn digit_str(d: u64) -> (r: &'static str)
    requires
        d < 16,
    ensures
        r@ == seq![digit_char(d as nat)],
{
    proof {
        reveal_strlit("0");
        reveal_strlit("1");
        reveal_strlit("2");
        reveal_strlit("3");
        reveal_strlit("4");
        reveal_strlit("5");
        reveal_strlit("6");
        reveal_strlit("7");
        reveal_strlit("8");
        reveal_strlit("9");
        reveal_strlit("a");
        reveal_strlit("b");
        reveal_strlit("c");
        reveal_strlit("d");
        reveal_strlit("e");
        reveal_strlit("f");
    }
    match d {
        0 => "0",
        1 => "1",
        2 => "2",
        3 => "3",
        4 => "4",
        5 => "5",
        6 => "6",
        7 => "7",
        8 => "8",
        9 => "9",
        10 => "a",
        11 => "b",
        12 => "c",
        13 => "d",
        14 => "e",
        _ => "f",
    }
}

/// Appends `n` in decimal.
pub fn push_decimal(out: &mut String, n: u64)
    ensures
        final(out)@ == old(out)@ + decimal(n as nat),
    decreases n,
{
    if n >= 10 {
        push_decimal(out, n / 10);
    }
    out.append(digit_str(n % 10));
}

/// Appends `n` in lower-case hexadecimal, without prefix.
pub fn push_hex(out: &mut String, n: u64)
    ensures
        final(out)@ == old(out)@ + hex(n as nat),
    decreases n,
{
    if n >= 16 {
        push_hex(out, n / 16);
    }
    out.append(digit_str(n % 16));
}


/// `n` in decimal, with a minus sign where it is negative.
pub open spec fn signed_decimal(n: int) -> Seq<char> {
    if n < 0 {
        seq!['-'] + decimal((-n) as nat)
    } else {
        decimal(n as nat)
    }
}

/// `n` as an offset: "0x", then its hexadecimal digits, padded with zeros to at least four.
pub open spec fn offset_text(n: nat) -> Seq<char> {
    let h = hex(n);
    seq!['0', 'x'] + if h.len() < 4 {
        Seq::new((4 - h.len()) as nat, |i: int| '0') + h
    } else {
        h
    }
}

/// The hexadecimal digits of each byte, separated by ", ".
pub open spec fn hex_items(bytes: Seq<u8>) -> Seq<char>
    decreases bytes.len(),
{
    if bytes.len() == 0 {
        Seq::empty()
    } else if bytes.len() == 1 {
        hex(bytes[0] as nat)
    } else {
        hex_items(bytes.drop_last()) + seq![',', ' '] + hex(bytes.last() as nat)
    }
}

/// A string of the pool as text: its characters where it is valid UTF-8, else its
/// bytes in hexadecimal between brackets.
pub open spec fn cstring_text(bytes: Seq<u8>) -> Seq<char> {
    if valid_utf8(bytes) {
        decode_utf8(bytes)
    } else {
        seq!['['] + hex_items(bytes) + seq![']']
    }
}

/// The number of hexadecimal digits of `n` below `0x1000`, and at least four above.
proof fn lemma_hex_len(n: nat)
    ensures
        n < 0x10 ==> hex(n).len() == 1,
        0x10 <= n < 0x100 ==> hex(n).len() == 2,
        0x100 <= n < 0x1000 ==> hex(n).len() == 3,
        0x1000 <= n ==> hex(n).len() >= 4,
    decreases n,
{
    if n >= 16 {
        lemma_hex_len(n / 16);
        assert(hex(n).len() == hex(n / 16).len() + 1);
    }
}

/// Appends `n` as an offset ("0x" and at least four hexadecimal digits).
pub fn push_offset(out: &mut String, n: u64)
    ensures
        final(out)@ == old(out)@ + offset_text(n as nat),
{
    proof {
        reveal_strlit("0x");
        reveal_strlit("000");
        reveal_strlit("00");
        reveal_strlit("0");
        lemma_hex_len(n as nat);
    }
    let ghost h = hex(n as nat);
    let ghost pad = Seq::new((4 - h.len()) as nat, |i: int| '0');
    let ghost start = out@;
    out.append("0x");
    if n < 0x10 {
        out.append("000");
        assert(pad =~= seq!['0', '0', '0']);
    } else if n < 0x100 {
        out.append("00");
        assert(pad =~= seq!['0', '0']);
    } else if n < 0x1000 {
        out.append("0");
        assert(pad =~= seq!['0']);
    }
    push_hex(out, n);
    if n < 0x1000 {
        assert(out@ =~= start + (seq!['0', 'x'] + (pad + h)));
    } else {
        assert(out@ =~= start + (seq!['0', 'x'] + h));
    }
}

/// Appends `n` in decimal, with a minus sign where it is negative.
pub fn push_signed(out: &mut String, n: i32)
    ensures
        final(out)@ == old(out)@ + signed_decimal(n as int),
{
    proof {
        reveal_strlit("-");
    }
    if n < 0 {
        out.append("-");
        push_decimal(out, (-(n as i64)) as u64);
    } else {
        push_decimal(out, n as u64);
    }
}

/// Decodes `bytes` as UTF-8 text (`std::str::from_utf8`); `None` where they are not valid UTF-8.
/// Claimed: the result is `Some` exactly when the bytes are valid UTF-8 as vstd defines it,
/// and then holds the characters that the bytes encode.
#[verifier::external_body]
fn utf8_text(bytes: &[u8]) -> (r: Option<&str>)
    ensures
        r is Some <==> valid_utf8(bytes@),
        r matches Some(s) ==> s@ == decode_utf8(bytes@),
{
    std::str::from_utf8(bytes).ok()
}

/// Appends a string of the pool as text: its characters where it is valid UTF-8,
/// else its bytes in hexadecimal between brackets.
pub fn push_cstring(out: &mut String, bytes: &[u8])
    ensures
        final(out)@ == old(out)@ + cstring_text(bytes@),
{
    match utf8_text(bytes) {
        Some(s) => out.append(s),
        None => {
            proof {
                reveal_strlit("[");
                reveal_strlit("]");
                reveal_strlit(", ");
            }
            let ghost start = out@;
            out.append("[");
            let mut i: usize = 0;
            while i < bytes.len()
                invariant
                    i <= bytes@.len(),
                    out@ == start + seq!['['] + hex_items(bytes@.subrange(0, i as int)),
                decreases bytes@.len() - i,
            {
                let ghost before = out@;
                let ghost pre = bytes@.subrange(0, i + 1);
                assert(pre.drop_last() =~= bytes@.subrange(0, i as int));
                assert(pre.last() == bytes@[i as int]);
                if i > 0 {
                    proof {
                        reveal_strlit(", ");
                    }
                    out.append(", ");
                    assert(out@ =~= before + seq![',', ' ']);
                    let ghost mid = out@;
                    push_hex(out, bytes[i] as u64);
                    assert(out@ == mid + hex(pre.last() as nat));
                    assert(hex_items(pre) == hex_items(pre.drop_last()) + seq![',', ' '] + hex(pre.last() as nat));
                    assert(out@ =~= start + seq!['['] + hex_items(pre));
                } else {
                    assert(bytes@.subrange(0, 0) =~= Seq::<u8>::empty());
                    assert(before =~= start + seq!['[']);
                    push_hex(out, bytes[i] as u64);
                    assert(pre.len() == 1);
                    assert(hex_items(pre) == hex(pre[0] as nat));
                    assert(out@ =~= start + seq!['['] + hex_items(pre));
                }
                i += 1;
            }
            out.append("]");
            assert(bytes@.subrange(0, bytes@.len() as int) =~= bytes@);
        },
    }
}

/// A designation as text: its kind letter (G, L, A, C) and its index in parentheses.
pub open spec fn designation_text(d: Designation) -> Seq<char> {
    let (sym, n) = match d {
        Designation::Global(n) => ('G', n),
        Designation::Local(n) => ('L', n),
        Designation::Argument(n) => ('A', n),
        Designation::Access(n) => ('C', n),
    };
    seq![sym, '('] + decimal(n as nat) + seq![')']
}

/// A jump condition as text, two characters wide.
pub open spec fn condition_text(c: Condition) -> Seq<char> {
    match c {
        Condition::Zero => seq!['z', ' '],
        Condition::NonZero => seq!['n', 'z'],
    }
}

/// What a call calls, as text.
pub open spec fn call_text(c: Call) -> Seq<char> {
    match c {
        Call::Read => "Lread"@,
        Call::Write => "Lwrite"@,
        Call::Length => "Llen"@,
        Call::String => "Lstr"@,
        Call::MkArray(n) => "Barray "@ + decimal(n as nat),
        Call::Function(t, n) => offset_text(t as nat) + seq![' '] + decimal(n as nat),
    }
}

/// A pattern test as text.
pub open spec fn pattern_text(p: Pattern) -> Seq<char> {
    match p {
        Pattern::TopStringsEqual => "%"@,
        Pattern::IsArray => "#array"@,
        Pattern::IsString => "#string"@,
        Pattern::IsSExpression => "#sexp"@,
        Pattern::IsInt => "unboxed"@,
        Pattern::IsNotInt => "boxed"@,
        Pattern::IsClosure => "#closure"@,
    }
}

/// A binary operator as text.
pub open spec fn binop_text(b: Binop) -> Seq<char> {
    match b {
        Binop::Add => "+"@,
        Binop::Sub => "-"@,
        Binop::Mul => "*"@,
        Binop::Div => "/"@,
        Binop::Mod => "%"@,
        Binop::Lt => "<"@,
        Binop::Lte => "<="@,
        Binop::Gt => ">"@,
        Binop::Gte => ">="@,
        Binop::Eq => "=="@,
        Binop::Neq => "!="@,
        Binop::And => "&&"@,
        Binop::Or => "!!"@,
    }
}

/// An instruction as text: its mnemonic, padded to eight characters, then its operands.
pub open spec fn instr_text(i: Instr) -> Seq<char> {
    match i {
        Instr::Binop(b) => "BINOP   "@ + binop_text(b),
        Instr::IntConst(n) => "CONST   "@ + signed_decimal(n as int),
        Instr::StringConst(s) => "STRING  "@ + cstring_text(s),
        Instr::SExpression(s, n) => "SEXP    "@ + cstring_text(s) + seq![' '] + decimal(n as nat),
        Instr::Load(d) => "LD      "@ + designation_text(d),
        Instr::LoadAddr(d) => "LDA     "@ + designation_text(d),
        Instr::Store(d) => "ST      "@ + designation_text(d),
        Instr::StoreReference => "STI"@,
        Instr::StoreComposite => "STC"@,
        Instr::GetElement => "ELEM"@,
        Instr::Jump(t) => "JMP     "@ + offset_text(t as nat),
        Instr::CondJump(c, t) => "CJMP"@ + condition_text(c) + "  "@ + offset_text(t as nat),
        Instr::Begin { arg_count, local_count, has_closure } => (if has_closure {
            "CBEGIN  "@
        } else {
            "BEGIN   "@
        }) + decimal(arg_count as nat) + seq![' '] + decimal(local_count as nat),
        Instr::End => "END"@,
        Instr::Closure { name, .. } => "CLOSURE "@ + offset_text(name as nat),
        Instr::CallClosure(n) => "CALLC   "@ + decimal(n as nat),
        Instr::CallFunc(c) => "CALL    "@ + call_text(c),
        Instr::Return => "RET"@,
        Instr::Drop => "DROP"@,
        Instr::Duplicate => "DUP"@,
        Instr::SwapTop => "SWAP"@,
        Instr::Tag(s, n) => "TAG     "@ + cstring_text(s) + seq![' '] + decimal(n as nat),
        Instr::Array(n) => "ARRAY   "@ + decimal(n as nat),
        Instr::CheckPattern(p) => "PATT    "@ + pattern_text(p),
        Instr::MatchCaseFailure { line, column } => "FAIL    "@ + decimal(line as nat) + seq![' '] + decimal(column as nat),
        Instr::Lineno(n) => "LINE    "@ + decimal(n as nat),
    }
}

/// Appends a space.
fn push_space(out: &mut String)
    ensures
        final(out)@ == old(out)@ + seq![' '],
{
    proof {
        reveal_strlit(" ");
    }
    out.append(" ");
}

impl Designation {
    /// Appends the designation as text.
    pub fn write_to(&self, out: &mut String)
        ensures
            final(out)@ == old(out)@ + designation_text(*self),
    {
        proof {
            reveal_strlit("G(");
            reveal_strlit("L(");
            reveal_strlit("A(");
            reveal_strlit("C(");
            reveal_strlit(")");
        }
        let n = match self {
            Designation::Global(n) => {
                out.append("G(");
                *n
            },
            Designation::Local(n) => {
                out.append("L(");
                *n
            },
            Designation::Argument(n) => {
                out.append("A(");
                *n
            },
            Designation::Access(n) => {
                out.append("C(");
                *n
            },
        };
        push_decimal(out, n as u64);
        out.append(")");
    }

    /// The designation as text, such as `G(3)`.
    pub fn text(&self) -> (r: String)
        ensures
            r@ == designation_text(*self),
    {
        let mut out = String::new();
        self.write_to(&mut out);
        out
    }
}

impl Condition {
    /// The condition as text: `z ` or `nz`.
    pub fn text(&self) -> (r: String)
        ensures
            r@ == condition_text(*self),
    {
        proof {
            reveal_strlit("z ");
            reveal_strlit("nz");
        }
        match self {
            Condition::Zero => String::from_str("z "),
            Condition::NonZero => String::from_str("nz"),
        }
    }
}

impl Call {
    /// Appends what the call calls, as text.
    pub fn write_to(&self, out: &mut String)
        ensures
            final(out)@ == old(out)@ + call_text(*self),
    {
        match self {
            Call::Read => out.append("Lread"),
            Call::Write => out.append("Lwrite"),
            Call::Length => out.append("Llen"),
            Call::String => out.append("Lstr"),
            Call::MkArray(n) => {
                out.append("Barray ");
                push_decimal(out, *n as u64);
            },
            Call::Function(t, n) => {
                push_offset(out, *t as u64);
                push_space(out);
                push_decimal(out, *n as u64);
            },
        }
    }

    /// What the call calls, as text, such as `Lread` or `0x0012 2`.
    pub fn text(&self) -> (r: String)
        ensures
            r@ == call_text(*self),
    {
        let mut out = String::new();
        self.write_to(&mut out);
        out
    }
}

impl Pattern {
    /// The pattern test as text, such as `#array`.
    pub fn text(&self) -> (r: &'static str)
        ensures
            r@ == pattern_text(*self),
    {
        match self {
            Pattern::TopStringsEqual => "%",
            Pattern::IsArray => "#array",
            Pattern::IsString => "#string",
            Pattern::IsSExpression => "#sexp",
            Pattern::IsInt => "unboxed",
            Pattern::IsNotInt => "boxed",
            Pattern::IsClosure => "#closure",
        }
    }
}

impl Binop {
    /// The operator as text, such as `<=`.
    pub fn text(&self) -> (r: &'static str)
        ensures
            r@ == binop_text(*self),
    {
        match self {
            Binop::Add => "+",
            Binop::Sub => "-",
            Binop::Mul => "*",
            Binop::Div => "/",
            Binop::Mod => "%",
            Binop::Lt => "<",
            Binop::Lte => "<=",
            Binop::Gt => ">",
            Binop::Gte => ">=",
            Binop::Eq => "==",
            Binop::Neq => "!=",
            Binop::And => "&&",
            Binop::Or => "!!",
        }
    }
}

impl Bytecode {
    /// Appends the instruction as text.
    pub fn write_to(&self, out: &mut String)
        ensures
            final(out)@ == old(out)@ + instr_text(self@),
    {
        let ghost start = out@;
        match self {
            Bytecode::Binop(b) => {
                out.append("BINOP   ");
                out.append(b.text());
            },
            Bytecode::IntConst(n) => {
                out.append("CONST   ");
                push_signed(out, *n);
            },
            Bytecode::StringConst(s) => {
                out.append("STRING  ");
                push_cstring(out, s.as_slice());
            },
            Bytecode::SExpression(s, n) => {
                out.append("SEXP    ");
                push_cstring(out, s.as_slice());
                push_space(out);
                push_decimal(out, *n as u64);
            },
            Bytecode::Load(d) => {
                out.append("LD      ");
                d.write_to(out);
            },
            Bytecode::LoadAddr(d) => {
                out.append("LDA     ");
                d.write_to(out);
            },
            Bytecode::Store(d) => {
                out.append("ST      ");
                d.write_to(out);
            },
            Bytecode::StoreReference => out.append("STI"),
            Bytecode::StoreComposite => out.append("STC"),
            Bytecode::GetElement => out.append("ELEM"),
            Bytecode::Jump(t) => {
                out.append("JMP     ");
                push_offset(out, *t as u64);
            },
            Bytecode::CondJump(c, t) => {
                out.append("CJMP");
                out.append(c.text().as_str());
                out.append("  ");
                push_offset(out, *t as u64);
            },
            Bytecode::Begin { arg_count, local_count, has_closure } => {
                if *has_closure {
                    out.append("CBEGIN  ");
                } else {
                    out.append("BEGIN   ");
                }
                push_decimal(out, *arg_count as u64);
                push_space(out);
                push_decimal(out, *local_count as u64);
            },
            Bytecode::End => out.append("END"),
            Bytecode::Closure { name, designations: _ } => {
                out.append("CLOSURE ");
                push_offset(out, *name as u64);
            },
            Bytecode::CallClosure(n) => {
                out.append("CALLC   ");
                push_decimal(out, *n as u64);
            },
            Bytecode::CallFunc(c) => {
                out.append("CALL    ");
                c.write_to(out);
            },
            Bytecode::Return => out.append("RET"),
            Bytecode::Drop => out.append("DROP"),
            Bytecode::Duplicate => out.append("DUP"),
            Bytecode::SwapTop => out.append("SWAP"),
            Bytecode::Tag(s, n) => {
                out.append("TAG     ");
                push_cstring(out, s.as_slice());
                push_space(out);
                push_decimal(out, *n as u64);
            },
            Bytecode::Array(n) => {
                out.append("ARRAY   ");
                push_decimal(out, *n as u64);
            },
            Bytecode::CheckPattern(p) => {
                out.append("PATT    ");
                out.append(p.text());
            },
            Bytecode::MatchCaseFailure { line, column } => {
                out.append("FAIL    ");
                push_decimal(out, *line as u64);
                push_space(out);
                push_decimal(out, *column as u64);
            },
            Bytecode::Lineno(n) => {
                out.append("LINE    ");
                push_decimal(out, *n as u64);
            },
        }
        assert(out@ =~= start + instr_text(self@));
    }

    /// The instruction as text, such as `LD      G(0)` or `JMP     0x001c`.
    pub fn text(&self) -> (r: String)
        ensures
            r@ == instr_text(self@),
    {
        let mut out = String::new();
        self.write_to(&mut out);
        out
    }
}

/// Each binary operator is written as its usual symbol, `||` being written `!!`.
pub proof fn lemma_binop_symbols()
    ensures
        binop_text(Binop::Add) == seq!['+'],
        binop_text(Binop::Sub) == seq!['-'],
        binop_text(Binop::Mul) == seq!['*'],
        binop_text(Binop::Div) == seq!['/'],
        binop_text(Binop::Mod) == seq!['%'],
        binop_text(Binop::Lt) == seq!['<'],
        binop_text(Binop::Lte) == seq!['<', '='],
        binop_text(Binop::Gt) == seq!['>'],
        binop_text(Binop::Gte) == seq!['>', '='],
        binop_text(Binop::Eq) == seq!['=', '='],
        binop_text(Binop::Neq) == seq!['!', '='],
        binop_text(Binop::And) == seq!['&', '&'],
        binop_text(Binop::Or) == seq!['!', '!'],
{
    reveal_strlit("+");
    reveal_strlit("-");
    reveal_strlit("*");
    reveal_strlit("/");
    reveal_strlit("%");
    reveal_strlit("<");
    reveal_strlit("<=");
    reveal_strlit(">");
    reveal_strlit(">=");
    reveal_strlit("==");
    reveal_strlit("!=");
    reveal_strlit("&&");
    reveal_strlit("!!");
}

/// Different binary operators are written differently.
pub proof fn lemma_binop_text_injective(a: Binop, b: Binop)
    requires
        binop_text(a) == binop_text(b),
    ensures
        a == b,
{
    lemma_binop_symbols();
    let t = binop_text(a);
    let u = binop_text(b);
    assert(t.len() == u.len());
    assert(t[0] == u[0]);
    if t.len() == 2 {
        assert(t[1] == u[1]);
    }
}


/// The pattern tests are written as Lama writes them: `%` for equal strings on top,
/// `unboxed` for an integer and `boxed` for anything else.
pub proof fn lemma_pattern_words()
    ensures
        pattern_text(Pattern::TopStringsEqual) == seq!['%'],
        pattern_text(Pattern::IsArray) == seq!['#', 'a', 'r', 'r', 'a', 'y'],
        pattern_text(Pattern::IsString) == seq!['#', 's', 't', 'r', 'i', 'n', 'g'],
        pattern_text(Pattern::IsSExpression) == seq!['#', 's', 'e', 'x', 'p'],
        pattern_text(Pattern::IsInt) == seq!['u', 'n', 'b', 'o', 'x', 'e', 'd'],
        pattern_text(Pattern::IsNotInt) == seq!['b', 'o', 'x', 'e', 'd'],
        pattern_text(Pattern::IsClosure) == seq!['#', 'c', 'l', 'o', 's', 'u', 'r', 'e'],
{
    reveal_strlit("%");
    reveal_strlit("#array");
    reveal_strlit("#string");
    reveal_strlit("#sexp");
    reveal_strlit("unboxed");
    reveal_strlit("boxed");
    reveal_strlit("#closure");
}

/// Different pattern tests are written differently.
pub proof fn lemma_pattern_text_injective(p: Pattern, q: Pattern)
    requires
        pattern_text(p) == pattern_text(q),
    ensures
        p == q,
{
    lemma_pattern_words();
    let t = pattern_text(p);
    let u = pattern_text(q);
    assert(t.len() == u.len());
    assert(t[0] == u[0]);
    if t.len() > 1 {
        assert(t[1] == u[1]);
    }
}

/// The builtins are written by their runtime names, and a condition by `z ` (jump
/// on zero) or `nz` (jump on non-zero).
pub proof fn lemma_builtin_and_condition_words()
    ensures
        call_text(Call::Read) == seq!['L', 'r', 'e', 'a', 'd'],
        call_text(Call::Write) == seq!['L', 'w', 'r', 'i', 't', 'e'],
        call_text(Call::Length) == seq!['L', 'l', 'e', 'n'],
        call_text(Call::String) == seq!['L', 's', 't', 'r'],
        forall|n: usize| #[trigger] call_text(Call::MkArray(n)) == seq!['B', 'a', 'r', 'r', 'a', 'y', ' '] + decimal(n as nat),
        condition_text(Condition::Zero) == seq!['z', ' '],
        condition_text(Condition::NonZero) == seq!['n', 'z'],
{
    reveal_strlit("Lread");
    reveal_strlit("Lwrite");
    reveal_strlit("Llen");
    reveal_strlit("Lstr");
    reveal_strlit("Barray ");
}

/// A designation is written with the letter of its kind: `G` global, `L` local,
/// `A` argument, `C` captured (access); then its index in parentheses.
pub proof fn lemma_designation_letters(d: Designation)
    ensures
        designation_text(d) == seq![
            if designation_kind(d) == 0 {
                'G'
            } else if designation_kind(d) == 1 {
                'L'
            } else if designation_kind(d) == 2 {
                'A'
            } else {
                'C'
            },
            '(',
        ] + decimal(designation_index(d) as nat) + seq![')'],
{
}


/// Each instruction is written as its mnemonic, padded to eight characters where
/// operands follow (a conditional jump's mnemonic ends in its condition), then its
/// operands.
pub proof fn lemma_mnemonics()
    ensures
        forall|b: Binop| #[trigger] instr_text(Instr::Binop(b)) == seq!['B', 'I', 'N', 'O', 'P', ' ', ' ', ' '] + binop_text(b),
        forall|n: i32| #[trigger] instr_text(Instr::IntConst(n)) == seq!['C', 'O', 'N', 'S', 'T', ' ', ' ', ' '] + signed_decimal(n as int),
        forall|s: Seq<u8>| #[trigger] instr_text(Instr::StringConst(s)) == seq!['S', 'T', 'R', 'I', 'N', 'G', ' ', ' '] + cstring_text(s),
        forall|s: Seq<u8>, n: usize| #[trigger] instr_text(Instr::SExpression(s, n)) == seq!['S', 'E', 'X', 'P', ' ', ' ', ' ', ' '] + cstring_text(s) + seq![' '] + decimal(n as nat),
        forall|d: Designation| #[trigger] instr_text(Instr::Load(d)) == seq!['L', 'D', ' ', ' ', ' ', ' ', ' ', ' '] + designation_text(d),
        forall|d: Designation| #[trigger] instr_text(Instr::LoadAddr(d)) == seq!['L', 'D', 'A', ' ', ' ', ' ', ' ', ' '] + designation_text(d),
        forall|d: Designation| #[trigger] instr_text(Instr::Store(d)) == seq!['S', 'T', ' ', ' ', ' ', ' ', ' ', ' '] + designation_text(d),
        instr_text(Instr::StoreReference) == seq!['S', 'T', 'I'],
        instr_text(Instr::StoreComposite) == seq!['S', 'T', 'C'],
        instr_text(Instr::GetElement) == seq!['E', 'L', 'E', 'M'],
        forall|t: usize| #[trigger] instr_text(Instr::Jump(t)) == seq!['J', 'M', 'P', ' ', ' ', ' ', ' ', ' '] + offset_text(t as nat),
        forall|t: usize| #[trigger] instr_text(Instr::CondJump(Condition::Zero, t)) == seq!['C', 'J', 'M', 'P', 'z', ' ', ' ', ' '] + offset_text(t as nat),
        forall|t: usize| #[trigger] instr_text(Instr::CondJump(Condition::NonZero, t)) == seq!['C', 'J', 'M', 'P', 'n', 'z', ' ', ' '] + offset_text(t as nat),
        forall|a: usize, l: usize| #[trigger] instr_text(Instr::Begin { arg_count: a, local_count: l, has_closure: false }) == seq!['B', 'E', 'G', 'I', 'N', ' ', ' ', ' '] + decimal(a as nat) + seq![' '] + decimal(l as nat),
        forall|a: usize, l: usize| #[trigger] instr_text(Instr::Begin { arg_count: a, local_count: l, has_closure: true }) == seq!['C', 'B', 'E', 'G', 'I', 'N', ' ', ' '] + decimal(a as nat) + seq![' '] + decimal(l as nat),
        instr_text(Instr::End) == seq!['E', 'N', 'D'],
        forall|t: usize, ds: Seq<Designation>| #[trigger] instr_text(Instr::Closure { name: t, designations: ds }) == seq!['C', 'L', 'O', 'S', 'U', 'R', 'E', ' '] + offset_text(t as nat),
        forall|n: usize| #[trigger] instr_text(Instr::CallClosure(n)) == seq!['C', 'A', 'L', 'L', 'C', ' ', ' ', ' '] + decimal(n as nat),
        forall|c: Call| #[trigger] instr_text(Instr::CallFunc(c)) == seq!['C', 'A', 'L', 'L', ' ', ' ', ' ', ' '] + call_text(c),
        instr_text(Instr::Return) == seq!['R', 'E', 'T'],
        instr_text(Instr::Drop) == seq!['D', 'R', 'O', 'P'],
        instr_text(Instr::Duplicate) == seq!['D', 'U', 'P'],
        instr_text(Instr::SwapTop) == seq!['S', 'W', 'A', 'P'],
        forall|s: Seq<u8>, n: usize| #[trigger] instr_text(Instr::Tag(s, n)) == seq!['T', 'A', 'G', ' ', ' ', ' ', ' ', ' '] + cstring_text(s) + seq![' '] + decimal(n as nat),
        forall|n: usize| #[trigger] instr_text(Instr::Array(n)) == seq!['A', 'R', 'R', 'A', 'Y', ' ', ' ', ' '] + decimal(n as nat),
        forall|p: Pattern| #[trigger] instr_text(Instr::CheckPattern(p)) == seq!['P', 'A', 'T', 'T', ' ', ' ', ' ', ' '] + pattern_text(p),
        forall|l: usize, c: usize| #[trigger] instr_text(Instr::MatchCaseFailure { line: l, column: c }) == seq!['F', 'A', 'I', 'L', ' ', ' ', ' ', ' '] + decimal(l as nat) + seq![' '] + decimal(c as nat),
        forall|n: usize| #[trigger] instr_text(Instr::Lineno(n)) == seq!['L', 'I', 'N', 'E', ' ', ' ', ' ', ' '] + decimal(n as nat),
{
    reveal_strlit("BINOP   ");
    reveal_strlit("CONST   ");
    reveal_strlit("STRING  ");
    reveal_strlit("SEXP    ");
    reveal_strlit("LD      ");
    reveal_strlit("LDA     ");
    reveal_strlit("ST      ");
    reveal_strlit("STI");
    reveal_strlit("STC");
    reveal_strlit("ELEM");
    reveal_strlit("JMP     ");
    reveal_strlit("CJMP");
    reveal_strlit("  ");
    reveal_strlit("CBEGIN  ");
    reveal_strlit("BEGIN   ");
    reveal_strlit("END");
    reveal_strlit("CLOSURE ");
    reveal_strlit("CALLC   ");
    reveal_strlit("CALL    ");
    reveal_strlit("RET");
    reveal_strlit("DROP");
    reveal_strlit("DUP");
    reveal_strlit("SWAP");
    reveal_strlit("TAG     ");
    reveal_strlit("ARRAY   ");
    reveal_strlit("PATT    ");
    reveal_strlit("FAIL    ");
    reveal_strlit("LINE    ");
    assert forall|t: usize| #[trigger] instr_text(Instr::CondJump(Condition::Zero, t)) == seq!['C', 'J', 'M', 'P', 'z', ' ', ' ', ' '] + offset_text(t as nat) by {
        assert(instr_text(Instr::CondJump(Condition::Zero, t)) =~= seq!['C', 'J', 'M', 'P', 'z', ' ', ' ', ' '] + offset_text(t as nat));
    }
    assert forall|t: usize| #[trigger] instr_text(Instr::CondJump(Condition::NonZero, t)) == seq!['C', 'J', 'M', 'P', 'n', 'z', ' ', ' '] + offset_text(t as nat) by {
        assert(instr_text(Instr::CondJump(Condition::NonZero, t)) =~= seq!['C', 'J', 'M', 'P', 'n', 'z', ' ', ' '] + offset_text(t as nat));
    }
}


/// The value of a digit character: `0`-`9`, then `a`-`f` for ten to fifteen.
pub open spec fn char_value(c: char) -> int {
    if '0' <= c && c <= '9' {
        c as int - '0' as int
    } else {
        c as int - 'a' as int + 10
    }
}

/// The number that digits in base `base` stand for, most significant first.
pub open spec fn digits_value(s: Seq<char>, base: int) -> int
    decreases s.len(),
{
    if s.len() == 0 {
        0
    } else {
        digits_value(s.drop_last(), base) * base + char_value(s.last())
    }
}

/// A digit's character has that digit's value, and lies in `0`-`9` or `a`-`f`.
proof fn lemma_digit_value(d: nat)
    requires
        d < 16,
    ensures
        char_value(digit_char(d)) == d,
        d < 10 ==> '0' <= digit_char(d) && digit_char(d) <= '9' && (digit_char(d) == '0' ==> d == 0),
        10 <= d ==> 'a' <= digit_char(d) && digit_char(d) <= 'f',
{
}

/// Decimal text reads back as the number: decimal digits only, no leading zero.
pub proof fn lemma_decimal_reads_back(n: nat)
    ensures
        digits_value(decimal(n), 10) == n,
        forall|i: int| 0 <= i < decimal(n).len() ==> '0' <= #[trigger] decimal(n)[i] && decimal(n)[i] <= '9',
        decimal(n).len() > 0,
        decimal(n)[0] == '0' ==> n == 0,
    decreases n,
{
    let s = decimal(n);
    lemma_digit_value(n % 10);
    assert(s.last() == digit_char(n % 10));
    assert(digits_value(s, 10) == digits_value(s.drop_last(), 10) * 10 + char_value(s.last()));
    if n >= 10 {
        lemma_decimal_reads_back(n / 10);
        assert(s.drop_last() =~= decimal(n / 10));
        assert(s[0] == decimal(n / 10)[0]);
        assert(n / 10 * 10 + n % 10 == n) by (nonlinear_arith);
    } else {
        assert(s.drop_last() =~= Seq::<char>::empty());
    }
}

/// Hexadecimal text reads back as the number: digits `0`-`9` and lower-case
/// `a`-`f` only, no leading zero.
pub proof fn lemma_hex_reads_back(n: nat)
    ensures
        digits_value(hex(n), 16) == n,
        forall|i: int| 0 <= i < hex(n).len() ==> ('0' <= #[trigger] hex(n)[i] && hex(n)[i] <= '9') || ('a' <= hex(n)[i]
            && hex(n)[i] <= 'f'),
        hex(n).len() > 0,
        hex(n)[0] == '0' ==> n == 0,
    decreases n,
{
    let s = hex(n);
    lemma_digit_value(n % 16);
    assert(s.last() == digit_char(n % 16));
    assert(digits_value(s, 16) == digits_value(s.drop_last(), 16) * 16 + char_value(s.last()));
    if n >= 16 {
        lemma_hex_reads_back(n / 16);
        assert(s.drop_last() =~= hex(n / 16));
        assert(s[0] == hex(n / 16)[0]);
        assert(n / 16 * 16 + n % 16 == n) by (nonlinear_arith);
    } else {
        assert(s.drop_last() =~= Seq::<char>::empty());
    }
}


/// Zeros in front do not change what digits stand for.
proof fn lemma_leading_zeros(z: nat, s: Seq<char>, base: int)
    ensures
        digits_value(Seq::new(z, |i: int| '0') + s, base) == digits_value(s, base),
    decreases s.len() + z,
{
    let t = Seq::new(z, |i: int| '0') + s;
    if s.len() > 0 {
        assert(t.drop_last() =~= Seq::new(z, |i: int| '0') + s.drop_last());
        lemma_leading_zeros(z, s.drop_last(), base);
    } else if z > 0 {
        assert(t.drop_last() =~= Seq::new((z - 1) as nat, |i: int| '0') + s);
        lemma_leading_zeros((z - 1) as nat, s, base);
    } else {
        assert(t =~= s);
    }
}

/// An offset is written `0x` and at least four hexadecimal digits (exactly four
/// below `0x10000`), which read back as the offset.
pub proof fn lemma_offset_reads_back(n: nat)
    ensures
        offset_text(n).len() >= 6,
        n < 0x10000 ==> offset_text(n).len() == 6,
        offset_text(n)[0] == '0' && offset_text(n)[1] == 'x',
        digits_value(offset_text(n).subrange(2, offset_text(n).len() as int), 16) == n,
{
    let h = hex(n);
    lemma_hex_reads_back(n);
    lemma_hex_len(n);
    if n >= 0x1000 && n < 0x10000 {
        lemma_hex_len(n / 16);
        lemma_hex_len(n / 256);
        assert(h.len() == hex(n / 16).len() + 1);
        assert(hex(n / 16).len() == hex(n / 256).len() + 1) by {
            assert(n / 16 / 16 == n / 256);
        }
        assert(hex(n / 256).len() == 2);
    }
    let rest = offset_text(n).subrange(2, offset_text(n).len() as int);
    if h.len() < 4 {
        assert(rest =~= Seq::new((4 - h.len()) as nat, |i: int| '0') + h);
        lemma_leading_zeros((4 - h.len()) as nat, h, 16);
    } else {
        assert(rest =~= h);
    }
}


/// A signed number's text is its magnitude in decimal, after a minus sign exactly
/// when it is negative.
pub proof fn lemma_signed_reads_back(n: int)
    ensures
        signed_decimal(n).len() > 0,
        (signed_decimal(n)[0] == '-') <==> n < 0,
        n < 0 ==> digits_value(signed_decimal(n).drop_first(), 10) == -n,
        n >= 0 ==> digits_value(signed_decimal(n), 10) == n,
{
    if n < 0 {
        lemma_decimal_reads_back((-n) as nat);
        assert(signed_decimal(n).drop_first() =~= decimal((-n) as nat));
    } else {
        lemma_decimal_reads_back(n as nat);
    }
}

} // verus!
