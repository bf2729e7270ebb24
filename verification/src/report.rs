use vstd::multiset::Multiset;
use vstd::prelude::*;

use crate::inspector::{key_of, lists, Counts, Transitions};
use crate::render::{decimal, digits_value, instr_text, lemma_decimal_reads_back, push_decimal};
use crate::syntax::{designation_index, designation_kind, opcode_of, Binop, Bytecode, Call, Condition, Designation, Instr, Pattern};

verus! {

/// The position of an operator in the declaration of `Binop`.
pub open spec fn binop_rank(b: Binop) -> int {
    match b {
        Binop::Add => 0,
        Binop::Sub => 1,
        Binop::Mul => 2,
        Binop::Div => 3,
        Binop::Mod => 4,
        Binop::Lt => 5,
        Binop::Lte => 6,
        Binop::Gt => 7,
        Binop::Gte => 8,
        Binop::Eq => 9,
        Binop::Neq => 10,
        Binop::And => 11,
        Binop::Or => 12,
    }
}

/// The position of a pattern test in the declaration of `Pattern`.
pub open spec fn pattern_rank(p: Pattern) -> int {
    match p {
        Pattern::TopStringsEqual => 0,
        Pattern::IsArray => 1,
        Pattern::IsString => 2,
        Pattern::IsSExpression => 3,
        Pattern::IsInt => 4,
        Pattern::IsNotInt => 5,
        Pattern::IsClosure => 6,
    }
}

/// A designation as its kind's position in the declaration, then its index.
pub open spec fn designation_key(d: Designation) -> Seq<int> {
    match d {
        Designation::Global(n) => seq![0, n as int],
        Designation::Local(n) => seq![1, n as int],
        Designation::Argument(n) => seq![2, n as int],
        Designation::Access(n) => seq![3, n as int],
    }
}

/// A byte string as a key: each byte one higher, then 0 to end it, so that a
/// string comes before every longer string that it begins.
pub open spec fn bytes_key(s: Seq<u8>) -> Seq<int> {
    s.map_values(|b: u8| b as int + 1) + seq![0]
}

/// The designations of a list, each as its kind's position one higher and its index.
pub open spec fn designation_items(ds: Seq<Designation>) -> Seq<int>
    decreases ds.len(),
{
    if ds.len() == 0 {
        Seq::empty()
    } else {
        designation_items(ds.drop_last()) + seq![designation_key(ds.last())[0] + 1, designation_key(ds.last())[1]]
    }
}

/// A list of designations as a key, ended by 0.
pub open spec fn designations_key(ds: Seq<Designation>) -> Seq<int> {
    designation_items(ds) + seq![0]
}

/// What a call calls, as a key.
pub open spec fn call_key(c: Call) -> Seq<int> {
    match c {
        Call::Read => seq![0],
        Call::Write => seq![1],
        Call::Length => seq![2],
        Call::String => seq![3],
        Call::MkArray(n) => seq![4, n as int],
        Call::Function(t, n) => seq![5, t as int, n as int],
    }
}

/// An instruction as a key: the position of its variant in the declaration of
/// `Bytecode`, then its operands in order. Keys compare as the derived order of
/// `Bytecode` compares instructions.
pub open spec fn instr_key(i: Instr) -> Seq<int> {
    match i {
        Instr::Binop(b) => seq![0, binop_rank(b)],
        Instr::IntConst(n) => seq![1, n as int],
        Instr::StringConst(s) => seq![2] + bytes_key(s),
        Instr::SExpression(s, n) => seq![3] + bytes_key(s) + seq![n as int],
        Instr::Load(d) => seq![4] + designation_key(d),
        Instr::LoadAddr(d) => seq![5] + designation_key(d),
        Instr::Store(d) => seq![6] + designation_key(d),
        Instr::StoreReference => seq![7],
        Instr::StoreComposite => seq![8],
        Instr::GetElement => seq![9],
        Instr::Jump(t) => seq![10, t as int],
        Instr::CondJump(c, t) => seq![11, if c == Condition::Zero { 0 } else { 1 }, t as int],
        Instr::Begin { arg_count, local_count, has_closure } => seq![
            12,
            arg_count as int,
            local_count as int,
            if has_closure { 1 } else { 0 },
        ],
        Instr::End => seq![13],
        Instr::Closure { name, designations } => seq![14, name as int] + designations_key(designations),
        Instr::CallClosure(n) => seq![15, n as int],
        Instr::CallFunc(c) => seq![16] + call_key(c),
        Instr::Return => seq![17],
        Instr::Drop => seq![18],
        Instr::Duplicate => seq![19],
        Instr::SwapTop => seq![20],
        Instr::Tag(s, n) => seq![21] + bytes_key(s) + seq![n as int],
        Instr::Array(n) => seq![22, n as int],
        Instr::CheckPattern(p) => seq![23, pattern_rank(p)],
        Instr::MatchCaseFailure { line, column } => seq![24, line as int, column as int],
        Instr::Lineno(n) => seq![25, n as int],
    }
}

/// `a` comes before `b` in lexicographic order.
pub open spec fn lex_less(a: Seq<int>, b: Seq<int>) -> bool
    decreases a.len(),
{
    if a.len() == 0 {
        b.len() > 0
    } else if b.len() == 0 {
        false
    } else if a[0] != b[0] {
        a[0] < b[0]
    } else {
        lex_less(a.drop_first(), b.drop_first())
    }
}

/// Lexicographic order is transitive.
pub proof fn lemma_lex_less_transitive(a: Seq<int>, b: Seq<int>, c: Seq<int>)
    requires
        lex_less(a, b),
        lex_less(b, c),
    ensures
        lex_less(a, c),
    decreases a.len(),
{
    if a.len() > 0 && a[0] == b[0] && b[0] == c[0] {
        lemma_lex_less_transitive(a.drop_first(), b.drop_first(), c.drop_first());
    }
}

/// Lexicographic order is strict: no sequence comes before one that comes before it.
pub proof fn lemma_lex_less_asymmetric(a: Seq<int>, b: Seq<int>)
    ensures
        !(lex_less(a, b) && lex_less(b, a)),
    decreases a.len(),
{
    if a.len() > 0 && b.len() > 0 && a[0] == b[0] {
        lemma_lex_less_asymmetric(a.drop_first(), b.drop_first());
    }
}


/// A byte string's key ends at its first 0, so what follows it can be told apart.
proof fn lemma_bytes_key_cancel(s: Seq<u8>, t: Seq<u8>, r1: Seq<int>, r2: Seq<int>)
    requires
        bytes_key(s) + r1 == bytes_key(t) + r2,
    ensures
        s == t,
        r1 == r2,
{
    let l = bytes_key(s) + r1;
    let m = bytes_key(t) + r2;
    if s.len() < t.len() {
        assert(l[s.len() as int] == 0);
        assert(m[s.len() as int] == t[s.len() as int] as int + 1);
    } else if t.len() < s.len() {
        assert(m[t.len() as int] == 0);
        assert(l[t.len() as int] == s[t.len() as int] as int + 1);
    } else {
        assert forall|i: int| 0 <= i < s.len() implies s[i] == t[i] by {
            assert(l[i] == s[i] as int + 1);
            assert(m[i] == t[i] as int + 1);
        }
        assert(s =~= t);
        assert(r1 =~= l.subrange(s.len() as int + 1, l.len() as int));
        assert(r2 =~= m.subrange(t.len() as int + 1, m.len() as int));
    }
}

/// The items of a list of designations: two per designation, kind one higher first.
proof fn lemma_designation_items(ds: Seq<Designation>)
    ensures
        designation_items(ds).len() == 2 * ds.len(),
        forall|i: int| 0 <= i < ds.len() ==> designation_items(ds)[2 * i] == designation_key(#[trigger] ds[i])[0] + 1
            && designation_items(ds)[2 * i + 1] == designation_key(ds[i])[1],
    decreases ds.len(),
{
    if ds.len() > 0 {
        lemma_designation_items(ds.drop_last());
        assert forall|i: int| 0 <= i < ds.len() implies designation_items(ds)[2 * i] == designation_key(#[trigger] ds[i])[0] + 1
            && designation_items(ds)[2 * i + 1] == designation_key(ds[i])[1] by {
            if i < ds.len() - 1 {
                assert(ds.drop_last()[i] == ds[i]);
            }
        }
    }
}

/// A designation is given by its key.
proof fn lemma_designation_key_injective(d: Designation, e: Designation)
    requires
        designation_key(d)[0] == designation_key(e)[0],
        designation_key(d)[1] == designation_key(e)[1],
    ensures
        d == e,
{
}

/// A list of designations is given by its key.
proof fn lemma_designations_key_injective(ds: Seq<Designation>, es: Seq<Designation>)
    requires
        designations_key(ds) == designations_key(es),
    ensures
        ds == es,
{
    lemma_designation_items(ds);
    lemma_designation_items(es);
    let k = designations_key(ds);
    assert(k.len() == 2 * ds.len() + 1);
    assert(k.len() == 2 * es.len() + 1);
    assert forall|i: int| 0 <= i < ds.len() implies ds[i] == es[i] by {
        assert(k[2 * i] == designation_items(ds)[2 * i]);
        assert(k[2 * i] == designation_items(es)[2 * i]);
        assert(k[2 * i + 1] == designation_items(ds)[2 * i + 1]);
        assert(k[2 * i + 1] == designation_items(es)[2 * i + 1]);
        lemma_designation_key_injective(ds[i], es[i]);
    }
    assert(ds =~= es);
}

/// Different instructions have different keys, so no two different instructions
/// tie in the order.
pub proof fn lemma_instr_key_injective(a: Instr, b: Instr)
    requires
        instr_key(a) == instr_key(b),
    ensures
        a == b,
{
    let ka = instr_key(a);
    let kb = instr_key(b);
    assert(ka[0] == kb[0]);
    match (a, b) {
        (Instr::StringConst(s), Instr::StringConst(t)) => {
            assert(ka.drop_first() =~= bytes_key(s) + Seq::<int>::empty());
            assert(kb.drop_first() =~= bytes_key(t) + Seq::<int>::empty());
            lemma_bytes_key_cancel(s, t, Seq::empty(), Seq::empty());
        },
        (Instr::SExpression(s, n), Instr::SExpression(t, m)) => {
            assert(ka.drop_first() =~= bytes_key(s) + seq![n as int]);
            assert(kb.drop_first() =~= bytes_key(t) + seq![m as int]);
            lemma_bytes_key_cancel(s, t, seq![n as int], seq![m as int]);
            assert(seq![n as int][0] == seq![m as int][0]);
        },
        (Instr::Tag(s, n), Instr::Tag(t, m)) => {
            assert(ka.drop_first() =~= bytes_key(s) + seq![n as int]);
            assert(kb.drop_first() =~= bytes_key(t) + seq![m as int]);
            lemma_bytes_key_cancel(s, t, seq![n as int], seq![m as int]);
            assert(seq![n as int][0] == seq![m as int][0]);
        },
        (Instr::Closure { name: n, designations: ds }, Instr::Closure { name: m, designations: es }) => {
            assert(ka[1] == kb[1]);
            assert(ka.subrange(2, ka.len() as int) =~= designations_key(ds));
            assert(kb.subrange(2, kb.len() as int) =~= designations_key(es));
            lemma_designations_key_injective(ds, es);
        },
        (Instr::Load(d), Instr::Load(e)) => {
            assert(ka[1] == kb[1] && ka[2] == kb[2]);
            lemma_designation_key_injective(d, e);
        },
        (Instr::LoadAddr(d), Instr::LoadAddr(e)) => {
            assert(ka[1] == kb[1] && ka[2] == kb[2]);
            lemma_designation_key_injective(d, e);
        },
        (Instr::Store(d), Instr::Store(e)) => {
            assert(ka[1] == kb[1] && ka[2] == kb[2]);
            lemma_designation_key_injective(d, e);
        },
        (Instr::CallFunc(c), Instr::CallFunc(d)) => {
            assert(ka[1] == kb[1]);
            assert(ka.len() == kb.len());
            if ka.len() > 2 {
                assert(ka[2] == kb[2]);
            }
            if ka.len() > 3 {
                assert(ka[3] == kb[3]);
            }
        },
        _ => {
            if ka.len() > 1 {
                assert(ka[1] == kb[1]);
            }
            if ka.len() > 2 {
                assert(ka[2] == kb[2]);
            }
            if ka.len() > 3 {
                assert(ka[3] == kb[3]);
            }
        },
    }
}

/// A sequence of `i128` read as integers.
pub open spec fn ints(v: Seq<i128>) -> Seq<int> {
    v.map_values(|x: i128| x as int)
}

/// Compares two keys in lexicographic order.
pub fn key_less(a: &Vec<i128>, b: &Vec<i128>) -> (r: bool)
    ensures
        r == lex_less(ints(a@), ints(b@)),
{
    let mut i: usize = 0;
    assert(ints(a@).skip(0) =~= ints(a@));
    assert(ints(b@).skip(0) =~= ints(b@));
    while i < a.len() && i < b.len() && a[i] == b[i]
        invariant
            i <= a.len(),
            i <= b.len(),
            lex_less(ints(a@), ints(b@)) == lex_less(ints(a@).skip(i as int), ints(b@).skip(i as int)),
        decreases a.len() - i,
    {
        assert(ints(a@).skip(i as int).drop_first() =~= ints(a@).skip(i + 1));
        assert(ints(b@).skip(i as int).drop_first() =~= ints(b@).skip(i + 1));
        i += 1;
    }
    if i < a.len() && i < b.len() {
        a[i] < b[i]
    } else {
        i == a.len() && i < b.len()
    }
}


/// Appends `x` to a key.
fn push_int(key: &mut Vec<i128>, x: i128)
    ensures
        ints(final(key)@) == ints(old(key)@).push(x as int),
{
    key.push(x);
    assert(ints(key@) =~= ints(old(key)@).push(x as int));
}

/// Appends the key of a byte string.
fn push_bytes_key(key: &mut Vec<i128>, s: &Vec<u8>)
    ensures
        ints(final(key)@) == ints(old(key)@) + bytes_key(s@),
{
    let ghost start = ints(key@);
    let mut i: usize = 0;
    while i < s.len()
        invariant
            i <= s@.len(),
            ints(key@) == start + s@.subrange(0, i as int).map_values(|b: u8| b as int + 1),
        decreases s@.len() - i,
    {
        push_int(key, s[i] as i128 + 1);
        assert(s@.subrange(0, i + 1).map_values(|b: u8| b as int + 1) =~= s@.subrange(0, i as int).map_values(
            |b: u8| b as int + 1,
        ).push(s@[i as int] as int + 1));
        i += 1;
    }
    assert(s@.subrange(0, s@.len() as int) =~= s@);
    push_int(key, 0);
    assert(ints(key@) =~= start + bytes_key(s@));
}

/// The kind of a designation and its index.
fn designation_parts(d: Designation) -> (r: (i128, i128))
    ensures
        r.0 as int == designation_key(d)[0],
        r.1 as int == designation_key(d)[1],
{
    match d {
        Designation::Global(n) => (0, n as i128),
        Designation::Local(n) => (1, n as i128),
        Designation::Argument(n) => (2, n as i128),
        Designation::Access(n) => (3, n as i128),
    }
}

/// Appends the key of a designation.
fn push_designation_key(key: &mut Vec<i128>, d: Designation)
    ensures
        ints(final(key)@) == ints(old(key)@) + designation_key(d),
{
    let (k, n) = designation_parts(d);
    push_int(key, k);
    push_int(key, n);
    assert(ints(key@) =~= ints(old(key)@) + designation_key(d));
}

/// Appends the key of a list of designations.
fn push_designations_key(key: &mut Vec<i128>, ds: &Vec<Designation>)
    ensures
        ints(final(key)@) == ints(old(key)@) + designations_key(ds@),
{
    let ghost start = ints(key@);
    let mut i: usize = 0;
    while i < ds.len()
        invariant
            i <= ds@.len(),
            ints(key@) == start + designation_items(ds@.subrange(0, i as int)),
        decreases ds@.len() - i,
    {
        let (k, n) = designation_parts(ds[i]);
        push_int(key, k + 1);
        push_int(key, n);
        let ghost pre = ds@.subrange(0, i + 1);
        assert(pre.drop_last() =~= ds@.subrange(0, i as int));
        assert(pre.last() == ds@[i as int]);
        assert(ints(key@) =~= start + designation_items(pre));
        i += 1;
    }
    assert(ds@.subrange(0, ds@.len() as int) =~= ds@);
    push_int(key, 0);
    assert(ints(key@) =~= start + designations_key(ds@));
}

/// The key of what a call calls.
fn call_key_of(c: Call) -> (r: Vec<i128>)
    ensures
        ints(r@) == call_key(c),
{
    let mut key: Vec<i128> = Vec::new();
    match c {
        Call::Read => push_int(&mut key, 0),
        Call::Write => push_int(&mut key, 1),
        Call::Length => push_int(&mut key, 2),
        Call::String => push_int(&mut key, 3),
        Call::MkArray(n) => {
            push_int(&mut key, 4);
            push_int(&mut key, n as i128);
        },
        Call::Function(t, n) => {
            push_int(&mut key, 5);
            push_int(&mut key, t as i128);
            push_int(&mut key, n as i128);
        },
    }
    assert(ints(key@) =~= call_key(c));
    key
}

fn binop_rank_of(b: Binop) -> (r: i128)
    ensures
        r as int == binop_rank(b),
{
    match b {
        Binop::Add => 0,
        Binop::Sub => 1,
        Binop::Mul => 2,
        Binop::Div => 3,
        Binop::Mod => 4,
        Binop::Lt => 5,
        Binop::Lte => 6,
        Binop::Gt => 7,
        Binop::Gte => 8,
        Binop::Eq => 9,
        Binop::Neq => 10,
        Binop::And => 11,
        Binop::Or => 12,
    }
}

fn pattern_rank_of(p: Pattern) -> (r: i128)
    ensures
        r as int == pattern_rank(p),
{
    match p {
        Pattern::TopStringsEqual => 0,
        Pattern::IsArray => 1,
        Pattern::IsString => 2,
        Pattern::IsSExpression => 3,
        Pattern::IsInt => 4,
        Pattern::IsNotInt => 5,
        Pattern::IsClosure => 6,
    }
}

impl Bytecode {
    /// The key by which instructions are ordered.
    pub fn key(&self) -> (r: Vec<i128>)
        ensures
            ints(r@) == instr_key(self@),
    {
        let mut key: Vec<i128> = Vec::new();
        match self {
            Bytecode::Binop(b) => {
                push_int(&mut key, 0);
                push_int(&mut key, binop_rank_of(*b));
            },
            Bytecode::IntConst(n) => {
                push_int(&mut key, 1);
                push_int(&mut key, *n as i128);
            },
            Bytecode::StringConst(s) => {
                push_int(&mut key, 2);
                push_bytes_key(&mut key, s);
            },
            Bytecode::SExpression(s, n) => {
                push_int(&mut key, 3);
                push_bytes_key(&mut key, s);
                push_int(&mut key, *n as i128);
            },
            Bytecode::Load(d) => {
                push_int(&mut key, 4);
                push_designation_key(&mut key, *d);
            },
            Bytecode::LoadAddr(d) => {
                push_int(&mut key, 5);
                push_designation_key(&mut key, *d);
            },
            Bytecode::Store(d) => {
                push_int(&mut key, 6);
                push_designation_key(&mut key, *d);
            },
            Bytecode::StoreReference => push_int(&mut key, 7),
            Bytecode::StoreComposite => push_int(&mut key, 8),
            Bytecode::GetElement => push_int(&mut key, 9),
            Bytecode::Jump(t) => {
                push_int(&mut key, 10);
                push_int(&mut key, *t as i128);
            },
            Bytecode::CondJump(c, t) => {
                push_int(&mut key, 11);
                push_int(&mut key, if *c == Condition::Zero { 0 } else { 1 });
                push_int(&mut key, *t as i128);
            },
            Bytecode::Begin { arg_count, local_count, has_closure } => {
                push_int(&mut key, 12);
                push_int(&mut key, *arg_count as i128);
                push_int(&mut key, *local_count as i128);
                push_int(&mut key, if *has_closure { 1 } else { 0 });
            },
            Bytecode::End => push_int(&mut key, 13),
            Bytecode::Closure { name, designations } => {
                push_int(&mut key, 14);
                push_int(&mut key, *name as i128);
                push_designations_key(&mut key, designations);
            },
            Bytecode::CallClosure(n) => {
                push_int(&mut key, 15);
                push_int(&mut key, *n as i128);
            },
            Bytecode::CallFunc(c) => {
                push_int(&mut key, 16);
                let tail = call_key_of(*c);
                let mut i: usize = 0;
                let ghost start = ints(key@);
                while i < tail.len()
                    invariant
                        i <= tail@.len(),
                        ints(key@) == start + ints(tail@).subrange(0, i as int),
                    decreases tail@.len() - i,
                {
                    push_int(&mut key, tail[i]);
                    assert(ints(tail@).subrange(0, i + 1) =~= ints(tail@).subrange(0, i as int).push(tail@[i as int] as int));
                    i += 1;
                }
                assert(ints(tail@).subrange(0, tail@.len() as int) =~= ints(tail@));
            },
            Bytecode::Return => push_int(&mut key, 17),
            Bytecode::Drop => push_int(&mut key, 18),
            Bytecode::Duplicate => push_int(&mut key, 19),
            Bytecode::SwapTop => push_int(&mut key, 20),
            Bytecode::Tag(s, n) => {
                push_int(&mut key, 21);
                push_bytes_key(&mut key, s);
                push_int(&mut key, *n as i128);
            },
            Bytecode::Array(n) => {
                push_int(&mut key, 22);
                push_int(&mut key, *n as i128);
            },
            Bytecode::CheckPattern(p) => {
                push_int(&mut key, 23);
                push_int(&mut key, pattern_rank_of(*p));
            },
            Bytecode::MatchCaseFailure { line, column } => {
                push_int(&mut key, 24);
                push_int(&mut key, *line as i128);
                push_int(&mut key, *column as i128);
            },
            Bytecode::Lineno(n) => {
                push_int(&mut key, 25);
                push_int(&mut key, *n as i128);
            },
        }
        assert(ints(key@) =~= instr_key(self@));
        key
    }
}

/// Lexicographic order is total: of two different sequences one comes first.
pub proof fn lemma_lex_less_total(a: Seq<int>, b: Seq<int>)
    requires
        a != b,
    ensures
        lex_less(a, b) || lex_less(b, a),
    decreases a.len(),
{
    if a.len() > 0 && b.len() > 0 && a[0] == b[0] {
        if a.drop_first() == b.drop_first() {
            assert(a =~= seq![a[0]] + a.drop_first());
            assert(b =~= seq![b[0]] + b.drop_first());
        }
        lemma_lex_less_total(a.drop_first(), b.drop_first());
    } else if a.len() == 0 && b.len() == 0 {
        assert(a =~= b);
    }
}

/// A counted pair as it is listed: the first instruction, the second, and the count.
pub type Row = (Bytecode, Bytecode, u32);

/// The number by which a count is ordered: the count taken as a signed 32-bit
/// number, negated. Counts below 2^31 thus come most frequent first; larger ones
/// read as negative numbers and come after them.
pub open spec fn count_rank(c: u32) -> int {
    -((c as i32) as int)
}

/// `a` is listed before `b`: by the rank of the count first (a higher count first,
/// below 2^31); for equal counts, by the order of the first instruction, then of
/// the second.
pub open spec fn row_before(a: Row, b: Row) -> bool {
    ||| count_rank(a.2) < count_rank(b.2)
    ||| a.2 == b.2 && lex_less(instr_key(a.0@), instr_key(b.0@))
    ||| a.2 == b.2 && instr_key(a.0@) == instr_key(b.0@) && lex_less(instr_key(a.1@), instr_key(b.1@))
}

/// Different counts have different ranks.
proof fn lemma_count_rank_injective(a: u32, b: u32)
    requires
        a != b,
    ensures
        count_rank(a) != count_rank(b),
{
    assert((a as i32) != (b as i32)) by (bit_vector)
        requires
            a != b,
    ;
}

/// The rank of a count, computed.
fn count_rank_of(c: u32) -> (r: i64)
    ensures
        r as int == count_rank(c),
{
    let v: i32 = c as i32;
    -(v as i64)
}

/// No row is listed before a row that comes earlier.
pub open spec fn ranked_rows(s: Seq<Row>) -> bool {
    forall|i: int, j: int| 0 <= i < j < s.len() ==> !row_before(#[trigger] s[j], #[trigger] s[i])
}

/// Listing order is transitive.
pub proof fn lemma_row_before_transitive(a: Row, b: Row, c: Row)
    requires
        row_before(a, b),
        row_before(b, c),
    ensures
        row_before(a, c),
{
    let (ka, kb, kc) = (instr_key(a.0@), instr_key(b.0@), instr_key(c.0@));
    let (la, lb, lc) = (instr_key(a.1@), instr_key(b.1@), instr_key(c.1@));
    if a.2 == c.2 {
        if lex_less(ka, kb) && lex_less(kb, kc) {
            lemma_lex_less_transitive(ka, kb, kc);
        }
        if lex_less(la, lb) && lex_less(lb, lc) {
            lemma_lex_less_transitive(la, lb, lc);
        }
        lemma_lex_less_asymmetric(ka, kb);
        lemma_lex_less_asymmetric(kb, kc);
    }
}

/// Listing order is strict.
pub proof fn lemma_row_before_asymmetric(a: Row, b: Row)
    ensures
        !(row_before(a, b) && row_before(b, a)),
{
    lemma_lex_less_asymmetric(instr_key(a.0@), instr_key(b.0@));
    lemma_lex_less_asymmetric(instr_key(a.1@), instr_key(b.1@));
}

/// Of two rows of different pairs, one is listed first.
pub proof fn lemma_row_before_total(a: Row, b: Row)
    requires
        key_of(a) != key_of(b),
    ensures
        row_before(a, b) || row_before(b, a),
{
    let (ka, kb) = (instr_key(a.0@), instr_key(b.0@));
    let (la, lb) = (instr_key(a.1@), instr_key(b.1@));
    if a.2 != b.2 {
        lemma_count_rank_injective(a.2, b.2);
    } else if ka != kb {
        lemma_lex_less_total(ka, kb);
    } else {
        lemma_instr_key_injective(a.0@, b.0@);
        if la == lb {
            lemma_instr_key_injective(a.1@, b.1@);
        } else {
            lemma_lex_less_total(la, lb);
        }
    }
}

/// Whether row `a` is listed before row `b`.
fn before(a: &Row, b: &Row) -> (r: bool)
    ensures
        r == row_before(*a, *b),
{
    if a.2 != b.2 {
        proof {
            lemma_count_rank_injective(a.2, b.2);
        }
        return count_rank_of(a.2) < count_rank_of(b.2);
    }
    let ka = a.0.key();
    let kb = b.0.key();
    if key_less(&ka, &kb) {
        return true;
    }
    if key_less(&kb, &ka) {
        proof {
            lemma_lex_less_asymmetric(ints(ka@), ints(kb@));
        }
        return false;
    }
    proof {
        if ints(ka@) != ints(kb@) {
            lemma_lex_less_total(ints(ka@), ints(kb@));
        }
    }
    key_less(&a.1.key(), &b.1.key())
}

/// Sorts rows into listing order, keeping each row.
fn sort_rows(v: Vec<Row>) -> (r: Vec<Row>)
    ensures
        r@.to_multiset() == v@.to_multiset(),
        ranked_rows(r@),
{
    broadcast use vstd::seq_lib::group_to_multiset_ensures;

    let ghost all = v@.to_multiset();
    let mut rest = v;
    let mut out: Vec<Row> = Vec::new();
    while rest.len() > 0
        invariant
            out@.to_multiset().add(rest@.to_multiset()) == all,
            ranked_rows(out@),
        decreases rest@.len(),
    {
        let ghost rest_before = rest@;
        let x = rest.pop().unwrap();
        assert(rest_before =~= rest@.push(x));
        let mut j: usize = 0;
        while j < out.len() && !before(&x, &out[j])
            invariant
                j <= out@.len(),
                forall|a: int| 0 <= a < j ==> !row_before(x, #[trigger] out@[a]),
            decreases out@.len() - j,
        {
            j += 1;
        }
        let ghost out_before = out@;
        out.insert(j, x);
        assert(out@ == out_before.insert(j as int, x));
        proof {
            broadcast use vstd::seq_lib::to_multiset_insert;
            broadcast use vstd::multiset::group_multiset_axioms;

            assert(out@.to_multiset() == out_before.to_multiset().insert(x));
            vstd::seq_lib::to_multiset_build(rest@, x);
            assert(rest_before.to_multiset() == rest@.to_multiset().insert(x));
            assert(out@.to_multiset().add(rest@.to_multiset()) =~= out_before.to_multiset().add(rest_before.to_multiset()));
        }
        assert forall|a: int, b: int| 0 <= a < b < out@.len() implies !row_before(#[trigger] out@[b], #[trigger] out@[a]) by {
            if b < j {
                assert(out@[a] == out_before[a] && out@[b] == out_before[b]);
            } else if b == j {
                assert(out@[a] == out_before[a]);
            } else if a == j {
                assert(out@[b] == out_before[b - 1]);
                if row_before(out_before[b - 1], x) {
                    if b - 1 == j {
                        lemma_row_before_asymmetric(out_before[b - 1], x);
                    } else {
                        lemma_row_before_transitive(out_before[b - 1], x, out_before[j as int]);
                    }
                }
            } else if a < j {
                assert(out@[a] == out_before[a] && out@[b] == out_before[b - 1]);
            } else {
                assert(out@[a] == out_before[a - 1] && out@[b] == out_before[b - 1]);
            }
        }
    }
    assert(rest@ =~= Seq::<Row>::empty());
    assert(rest@.to_multiset() =~= Multiset::empty());
    assert(out@.to_multiset().add(Multiset::empty()) =~= out@.to_multiset());
    out
}

/// A permutation of a list of counts lists the same counts.
proof fn lemma_permutation_lists(v: Seq<Row>, r: Seq<Row>, m: Counts)
    requires
        lists(v, m),
        r.to_multiset() == v.to_multiset(),
    ensures
        lists(r, m),
{
    broadcast use vstd::seq_lib::group_to_multiset_ensures;

    assert(v.no_duplicates()) by {
        assert forall|i: int, j: int| 0 <= i < v.len() && 0 <= j < v.len() && i != j implies v[i] != v[j] by {
            if i < j {
                assert(key_of(v[i]) != key_of(v[j]));
            } else {
                assert(key_of(v[j]) != key_of(v[i]));
            }
        }
    }
    v.lemma_multiset_has_no_duplicates();
    r.lemma_multiset_has_no_duplicates_conv();
    assert forall|a: int, b: int| 0 <= a < b < r.len() implies key_of(r[a]) != key_of(r[b]) by {
        assert(r.contains(r[a]));
        assert(r.to_multiset().count(r[a]) > 0);
        assert(v.contains(r[a]));
        assert(r.contains(r[b]));
        assert(r.to_multiset().count(r[b]) > 0);
        assert(v.contains(r[b]));
        let ia = choose|k: int| 0 <= k < v.len() && #[trigger] v[k] == r[a];
        let ib = choose|k: int| 0 <= k < v.len() && #[trigger] v[k] == r[b];
        if ia < ib {
            assert(key_of(v[ia]) != key_of(v[ib]));
        } else if ib < ia {
            assert(key_of(v[ib]) != key_of(v[ia]));
        }
    }
    assert forall|i: int| 0 <= i < r.len() implies #[trigger] m.contains_key(key_of(r[i])) && m[key_of(r[i])] == r[i].2 as nat by {
        assert(r.contains(r[i]));
        assert(r.to_multiset().count(r[i]) > 0);
        assert(v.contains(r[i]));
        let k = choose|k: int| 0 <= k < v.len() && #[trigger] v[k] == r[i];
        assert(m.contains_key(key_of(v[k])));
    }
    assert forall|kk: (Instr, Instr)| m.contains_key(kk) implies exists|i: int| 0 <= i < r.len() && key_of(r[i]) == kk by {
        let k = choose|k: int| 0 <= k < v.len() && key_of(v[k]) == kk;
        assert(v.contains(v[k]));
        assert(v.to_multiset().count(v[k]) > 0);
        assert(r.contains(v[k]));
    }
}

/// The counted pairs in listing order: by the rank of the count (the most frequent
/// first, below 2^31), ties broken by the order of the instructions. A count of
/// exactly 2^31 has no rank: negating it as a signed 32-bit number overflows.
pub fn ranked(t: Transitions) -> (r: Vec<Row>)
    requires
        t.wf(),
        forall|k: (Instr, Instr)| #[trigger] t@.contains_key(k) ==> t@[k] != 0x8000_0000,
    ensures
        lists(r@, t@),
        forall|i: int, j: int| 0 <= i < j < r@.len() ==> row_before(#[trigger] r@[i], #[trigger] r@[j]),
{
    let ghost m = t@;
    let entries = t.into_entries();
    let r = sort_rows(entries);
    proof {
        lemma_permutation_lists(entries@, r@, m);
        assert forall|i: int, j: int| 0 <= i < j < r@.len() implies row_before(#[trigger] r@[i], #[trigger] r@[j]) by {
            lemma_row_before_total(r@[i], r@[j]);
        }
    }
    r
}

/// `s` padded with spaces on the right to at least `width` characters.
pub open spec fn pad_right(s: Seq<char>, width: nat) -> Seq<char> {
    if s.len() < width {
        s + Seq::new((width - s.len()) as nat, |i: int| ' ')
    } else {
        s
    }
}

/// A row as a line of the report: both instructions, each padded to twenty
/// characters, joined by an arrow, then the count.
pub open spec fn row_text(r: Row) -> Seq<char> {
    pad_right(instr_text(r.0@), 20) + " -> "@ + pad_right(instr_text(r.1@), 20) + ": "@ + decimal(r.2 as nat)
}

/// Appends `s`, padded with spaces on the right to at least `width` characters.
fn push_padded(out: &mut String, s: &String, width: usize)
    ensures
        final(out)@ == old(out)@ + pad_right(s@, width as nat),
{
    proof {
        reveal_strlit(" ");
    }
    out.append(s.as_str());
    let len = s.as_str().unicode_len();
    let ghost start = out@;
    let mut k: usize = len;
    while k < width
        invariant
            len == s@.len(),
            len <= k <= width || (k == len && len >= width),
            out@ == start + Seq::new((k - len) as nat, |i: int| ' '),
        decreases width - k,
    {
        proof {
            reveal_strlit(" ");
        }
        out.append(" ");
        assert(Seq::new((k + 1 - len) as nat, |i: int| ' ') =~= Seq::new((k - len) as nat, |i: int| ' ').push(' '));
        k += 1;
    }
    if len < width {
        assert(out@ =~= old(out)@ + pad_right(s@, width as nat));
    } else {
        assert(out@ =~= old(out)@ + pad_right(s@, width as nat));
    }
}

/// A row as a line of the report, such as `LD      L(0)         -> CONST   1           : 3`.
pub fn row_line(r: &Row) -> (line: String)
    ensures
        line@ == row_text(*r),
{
    let mut out = String::new();
    push_padded(&mut out, &r.0.text(), 20);
    out.append(" -> ");
    push_padded(&mut out, &r.1.text(), 20);
    out.append(": ");
    push_decimal(&mut out, r.2 as u64);
    out
}

/// The report's lines, one for each row in turn.
pub fn report_lines(rows: &Vec<Row>) -> (lines: Vec<String>)
    ensures
        lines@.len() == rows@.len(),
        forall|i: int| 0 <= i < rows@.len() ==> #[trigger] lines@[i]@ == row_text(rows@[i]),
{
    let mut lines: Vec<String> = Vec::new();
    let mut i: usize = 0;
    while i < rows.len()
        invariant
            i <= rows@.len(),
            lines@.len() == i,
            forall|k: int| 0 <= k < i ==> #[trigger] lines@[k]@ == row_text(rows@[k]),
        decreases rows@.len() - i,
    {
        lines.push(row_line(&rows[i]));
        i += 1;
    }
    lines
}

/// The position of an instruction's variant in the declaration of `Bytecode`.
pub open spec fn variant_index(i: Instr) -> int {
    match i {
        Instr::Binop(_) => 0,
        Instr::IntConst(_) => 1,
        Instr::StringConst(_) => 2,
        Instr::SExpression(_, _) => 3,
        Instr::Load(_) => 4,
        Instr::LoadAddr(_) => 5,
        Instr::Store(_) => 6,
        Instr::StoreReference => 7,
        Instr::StoreComposite => 8,
        Instr::GetElement => 9,
        Instr::Jump(_) => 10,
        Instr::CondJump(_, _) => 11,
        Instr::Begin { .. } => 12,
        Instr::End => 13,
        Instr::Closure { .. } => 14,
        Instr::CallClosure(_) => 15,
        Instr::CallFunc(_) => 16,
        Instr::Return => 17,
        Instr::Drop => 18,
        Instr::Duplicate => 19,
        Instr::SwapTop => 20,
        Instr::Tag(_, _) => 21,
        Instr::Array(_) => 22,
        Instr::CheckPattern(_) => 23,
        Instr::MatchCaseFailure { .. } => 24,
        Instr::Lineno(_) => 25,
    }
}

/// The order of byte strings: the first differing byte decides, and a string
/// comes before every longer string that it begins.
pub open spec fn bytes_less(s: Seq<u8>, t: Seq<u8>) -> bool
    decreases s.len(),
{
    if s.len() == 0 {
        t.len() > 0
    } else if t.len() == 0 {
        false
    } else if s[0] != t[0] {
        s[0] < t[0]
    } else {
        bytes_less(s.drop_first(), t.drop_first())
    }
}

/// The order of designations: global before local before argument before access,
/// then by index.
pub open spec fn designation_less(d: Designation, e: Designation) -> bool {
    ||| designation_kind(d) < designation_kind(e)
    ||| designation_kind(d) == designation_kind(e) && designation_index(d) < designation_index(e)
}

/// The order of lists of designations: the first differing designation decides,
/// and a list comes before every longer list that it begins.
pub open spec fn designations_less(ds: Seq<Designation>, es: Seq<Designation>) -> bool
    decreases ds.len(),
{
    if ds.len() == 0 {
        es.len() > 0
    } else if es.len() == 0 {
        false
    } else if ds[0] != es[0] {
        designation_less(ds[0], es[0])
    } else {
        designations_less(ds.drop_first(), es.drop_first())
    }
}

/// The position of a call's variant in the declaration of `Call`.
pub open spec fn call_index(c: Call) -> int {
    match c {
        Call::Read => 0,
        Call::Write => 1,
        Call::Length => 2,
        Call::String => 3,
        Call::MkArray(_) => 4,
        Call::Function(_, _) => 5,
    }
}

/// The order of calls: by variant, then by operands in turn.
pub open spec fn call_less(c: Call, d: Call) -> bool {
    ||| call_index(c) < call_index(d)
    ||| match (c, d) {
        (Call::MkArray(n), Call::MkArray(m)) => n < m,
        (Call::Function(t, n), Call::Function(u, m)) => t < u || (t == u && n < m),
        _ => false,
    }
}

/// The order of instructions: by the variant's position in the declaration of
/// `Bytecode`, then by the operands in the order in which the variant lists them,
/// each in its own type's order (`Zero` before `NonZero`, `false` before `true`;
/// binary operators are declared in the order of their opcodes).
pub open spec fn instr_less(a: Instr, b: Instr) -> bool {
    ||| variant_index(a) < variant_index(b)
    ||| match (a, b) {
        (Instr::Binop(_), Instr::Binop(_)) => opcode_of(a) < opcode_of(b),
        (Instr::IntConst(n), Instr::IntConst(m)) => n < m,
        (Instr::StringConst(s), Instr::StringConst(t)) => bytes_less(s, t),
        (Instr::SExpression(s, n), Instr::SExpression(t, m)) => bytes_less(s, t) || (s == t && n < m),
        (Instr::Load(d), Instr::Load(e)) => designation_less(d, e),
        (Instr::LoadAddr(d), Instr::LoadAddr(e)) => designation_less(d, e),
        (Instr::Store(d), Instr::Store(e)) => designation_less(d, e),
        (Instr::Jump(t), Instr::Jump(u)) => t < u,
        (Instr::CondJump(c, t), Instr::CondJump(d, u)) => (c == Condition::Zero && d == Condition::NonZero) || (c == d
            && t < u),
        (
            Instr::Begin { arg_count: a1, local_count: l1, has_closure: h1 },
            Instr::Begin { arg_count: a2, local_count: l2, has_closure: h2 },
        ) => a1 < a2 || (a1 == a2 && (l1 < l2 || (l1 == l2 && !h1 && h2))),
        (Instr::Closure { name: n1, designations: ds1 }, Instr::Closure { name: n2, designations: ds2 }) => n1 < n2
            || (n1 == n2 && designations_less(ds1, ds2)),
        (Instr::CallClosure(n), Instr::CallClosure(m)) => n < m,
        (Instr::CallFunc(c), Instr::CallFunc(d)) => call_less(c, d),
        (Instr::Tag(s, n), Instr::Tag(t, m)) => bytes_less(s, t) || (s == t && n < m),
        (Instr::Array(n), Instr::Array(m)) => n < m,
        (Instr::CheckPattern(p), Instr::CheckPattern(q)) => pattern_rank(p) < pattern_rank(q),
        (
            Instr::MatchCaseFailure { line: l1, column: c1 },
            Instr::MatchCaseFailure { line: l2, column: c2 },
        ) => l1 < l2 || (l1 == l2 && c1 < c2),
        (Instr::Lineno(n), Instr::Lineno(m)) => n < m,
        _ => false,
    }
}

/// A common first item leaves the order to what follows.
proof fn lemma_lex_head(x: int, a: Seq<int>, y: int, b: Seq<int>)
    ensures
        lex_less(seq![x] + a, seq![y] + b) == (x < y || (x == y && lex_less(a, b))),
{
    assert((seq![x] + a).drop_first() =~= a);
    assert((seq![y] + b).drop_first() =~= b);
}

/// A common beginning leaves the order to what follows.
proof fn lemma_lex_prefix(p: Seq<int>, a: Seq<int>, b: Seq<int>)
    ensures
        lex_less(p + a, p + b) == lex_less(a, b),
    decreases p.len(),
{
    if p.len() > 0 {
        assert((p + a).drop_first() =~= p.drop_first() + a);
        assert((p + b).drop_first() =~= p.drop_first() + b);
        lemma_lex_prefix(p.drop_first(), a, b);
    } else {
        assert(p + a =~= a);
        assert(p + b =~= b);
    }
}

/// Byte-string keys, followed by anything, compare as the strings do, and equal
/// strings leave the order to what follows.
proof fn lemma_lex_bytes(s: Seq<u8>, t: Seq<u8>, r1: Seq<int>, r2: Seq<int>)
    ensures
        lex_less(bytes_key(s) + r1, bytes_key(t) + r2) == (bytes_less(s, t) || (s == t && lex_less(r1, r2))),
    decreases s.len(),
{
    let a = bytes_key(s) + r1;
    let b = bytes_key(t) + r2;
    if s.len() == 0 && t.len() == 0 {
        assert(a =~= seq![0int] + r1);
        assert(b =~= seq![0int] + r2);
        lemma_lex_head(0, r1, 0, r2);
        assert(s =~= t);
    } else if s.len() == 0 {
        assert(a[0] == 0);
        assert(b[0] == t[0] as int + 1);
    } else if t.len() == 0 {
        assert(a[0] == s[0] as int + 1);
        assert(b[0] == 0);
    } else {
        assert(a[0] == s[0] as int + 1);
        assert(b[0] == t[0] as int + 1);
        if s[0] == t[0] {
            assert(a.drop_first() =~= bytes_key(s.drop_first()) + r1);
            assert(b.drop_first() =~= bytes_key(t.drop_first()) + r2);
            lemma_lex_bytes(s.drop_first(), t.drop_first(), r1, r2);
            if s.drop_first() == t.drop_first() {
                assert(s =~= seq![s[0]] + s.drop_first());
                assert(t =~= seq![t[0]] + t.drop_first());
            }
        }
    }
}


/// The items of a non-empty list of designations: those of its first, then those of the rest.
proof fn lemma_designation_items_front(ds: Seq<Designation>)
    requires
        ds.len() > 0,
    ensures
        designation_items(ds) == seq![designation_key(ds[0])[0] + 1, designation_key(ds[0])[1]] + designation_items(
            ds.drop_first(),
        ),
    decreases ds.len(),
{
    if ds.len() == 1 {
        assert(ds.drop_last() =~= Seq::<Designation>::empty());
        assert(ds.drop_first() =~= Seq::<Designation>::empty());
        assert(designation_items(ds) =~= seq![designation_key(ds[0])[0] + 1, designation_key(ds[0])[1]] + designation_items(
            ds.drop_first(),
        ));
    } else {
        let front = ds.drop_last();
        lemma_designation_items_front(front);
        assert(front.drop_first() =~= ds.drop_first().drop_last());
        assert(front[0] == ds[0]);
        assert(ds.drop_first().last() == ds.last());
        assert(designation_items(ds) =~= seq![designation_key(ds[0])[0] + 1, designation_key(ds[0])[1]] + designation_items(
            ds.drop_first(),
        ));
    }
}

/// A designation's key is its kind, then its index.
proof fn lemma_designation_key_parts(d: Designation)
    ensures
        designation_key(d) == seq![designation_kind(d), designation_index(d) as int],
        forall|e: Designation| designation_kind(d) == designation_kind(e) && designation_index(d) == designation_index(e) ==> d == e,
{
    assert(designation_key(d) =~= seq![designation_kind(d), designation_index(d) as int]);
}

/// Keys of lists of designations compare as the lists do.
proof fn lemma_designations_order(ds: Seq<Designation>, es: Seq<Designation>)
    ensures
        lex_less(designations_key(ds), designations_key(es)) == designations_less(ds, es),
    decreases ds.len(),
{
    reveal_with_fuel(lex_less, 2);
    let a = designations_key(ds);
    let b = designations_key(es);
    if ds.len() == 0 && es.len() == 0 {
        assert(a =~= seq![0int]);
        assert(b =~= seq![0int]);
    } else if ds.len() == 0 {
        assert(a =~= seq![0int]);
        lemma_designation_items_front(es);
        lemma_designation_key_parts(es[0]);
        assert(b[0] == designation_kind(es[0]) + 1);
    } else if es.len() == 0 {
        assert(b =~= seq![0int]);
        lemma_designation_items_front(ds);
        lemma_designation_key_parts(ds[0]);
        assert(a[0] == designation_kind(ds[0]) + 1);
    } else {
        lemma_designation_items_front(ds);
        lemma_designation_items_front(es);
        lemma_designation_key_parts(ds[0]);
        lemma_designation_key_parts(es[0]);
        let (kd, id) = (designation_kind(ds[0]), designation_index(ds[0]) as int);
        let (ke, ie) = (designation_kind(es[0]), designation_index(es[0]) as int);
        let ra = designations_key(ds.drop_first());
        let rb = designations_key(es.drop_first());
        assert(a =~= seq![kd + 1] + (seq![id] + ra));
        assert(b =~= seq![ke + 1] + (seq![ie] + rb));
        lemma_lex_head(kd + 1, seq![id] + ra, ke + 1, seq![ie] + rb);
        lemma_lex_head(id, ra, ie, rb);
        lemma_designations_order(ds.drop_first(), es.drop_first());
    }
}

/// A binary operator's position in its declaration is one below its opcode.
proof fn lemma_binop_rank_opcode(x: Binop)
    ensures
        opcode_of(Instr::Binop(x)) == binop_rank(x) + 1,
{
}

/// Keys of calls compare as the calls do.
proof fn lemma_call_order(c: Call, d: Call)
    ensures
        lex_less(call_key(c), call_key(d)) == call_less(c, d),
{
    reveal_with_fuel(lex_less, 4);
}

/// Keys of instructions compare as the instructions do in the order of
/// `Bytecode`: by variant first, then by operands in turn.
pub proof fn lemma_instr_key_order(a: Instr, b: Instr)
    ensures
        lex_less(instr_key(a), instr_key(b)) == instr_less(a, b),
{
    reveal_with_fuel(lex_less, 5);
    let ka = instr_key(a);
    let kb = instr_key(b);
    assert(ka[0] == variant_index(a));
    assert(kb[0] == variant_index(b));
    if variant_index(a) == variant_index(b) {
        let h = seq![ka[0]];
        match (a, b) {
            (Instr::StringConst(s), Instr::StringConst(t)) => {
                assert(ka =~= h + (bytes_key(s) + Seq::<int>::empty()));
                assert(kb =~= h + (bytes_key(t) + Seq::<int>::empty()));
                lemma_lex_prefix(h, bytes_key(s) + Seq::<int>::empty(), bytes_key(t) + Seq::<int>::empty());
                lemma_lex_bytes(s, t, Seq::empty(), Seq::empty());
            },
            (Instr::SExpression(s, n), Instr::SExpression(t, m)) => {
                assert(ka =~= h + (bytes_key(s) + seq![n as int]));
                assert(kb =~= h + (bytes_key(t) + seq![m as int]));
                lemma_lex_prefix(h, bytes_key(s) + seq![n as int], bytes_key(t) + seq![m as int]);
                lemma_lex_bytes(s, t, seq![n as int], seq![m as int]);
            },
            (Instr::Tag(s, n), Instr::Tag(t, m)) => {
                assert(ka =~= h + (bytes_key(s) + seq![n as int]));
                assert(kb =~= h + (bytes_key(t) + seq![m as int]));
                lemma_lex_prefix(h, bytes_key(s) + seq![n as int], bytes_key(t) + seq![m as int]);
                lemma_lex_bytes(s, t, seq![n as int], seq![m as int]);
            },
            (Instr::Binop(x), Instr::Binop(y)) => {
                lemma_binop_rank_opcode(x);
                lemma_binop_rank_opcode(y);
            },
            (Instr::Load(d), Instr::Load(e)) => {
                lemma_designation_key_parts(d);
                lemma_designation_key_parts(e);
            },
            (Instr::LoadAddr(d), Instr::LoadAddr(e)) => {
                lemma_designation_key_parts(d);
                lemma_designation_key_parts(e);
            },
            (Instr::Store(d), Instr::Store(e)) => {
                lemma_designation_key_parts(d);
                lemma_designation_key_parts(e);
            },
            (Instr::Closure { name: n1, designations: ds1 }, Instr::Closure { name: n2, designations: ds2 }) => {
                assert(ka =~= h + (seq![n1 as int] + designations_key(ds1)));
                assert(kb =~= h + (seq![n2 as int] + designations_key(ds2)));
                lemma_lex_prefix(h, seq![n1 as int] + designations_key(ds1), seq![n2 as int] + designations_key(ds2));
                lemma_lex_head(n1 as int, designations_key(ds1), n2 as int, designations_key(ds2));
                lemma_designations_order(ds1, ds2);
            },
            (Instr::CallFunc(c), Instr::CallFunc(d)) => {
                assert(ka =~= h + call_key(c));
                assert(kb =~= h + call_key(d));
                lemma_lex_prefix(h, call_key(c), call_key(d));
                lemma_call_order(c, d);
            },
            _ => {},
        }
    }
}


/// Rows are listed as the report promises: a higher count first (for counts below
/// 2^31), and, for equal counts, in the order of `Bytecode` on the first
/// instruction, then on the second.
pub proof fn lemma_row_order(a: Row, b: Row)
    ensures
        a.2 == b.2 ==> (row_before(a, b) <==> (instr_less(a.0@, b.0@) || (a.0@ == b.0@ && instr_less(a.1@, b.1@)))),
        a.2 != b.2 && a.2 < 0x8000_0000 && b.2 < 0x8000_0000 ==> (row_before(a, b) <==> a.2 > b.2),
{
    lemma_instr_key_order(a.0@, b.0@);
    lemma_instr_key_order(a.1@, b.1@);
    if instr_key(a.0@) == instr_key(b.0@) {
        lemma_instr_key_injective(a.0@, b.0@);
    }
    if a.2 < 0x8000_0000 && b.2 < 0x8000_0000 {
        assert(count_rank(a.2) == -(a.2 as int));
        assert(count_rank(b.2) == -(b.2 as int));
    }
}


/// A report line reads back as its row: the first instruction's text, left-aligned
/// and padded with spaces to twenty characters, then ` -> `, the second text
/// aligned the same way, then `: ` and the count in decimal.
pub proof fn lemma_row_text_layout(r: Row)
    ensures
        ({
            let line = row_text(r);
            let a = instr_text(r.0@);
            let b = instr_text(r.1@);
            let wa = if a.len() < 20 { 20 } else { a.len() as int };
            let wb = if b.len() < 20 { 20 } else { b.len() as int };
            let c = wa + 4 + wb;
            &&& line.subrange(0, a.len() as int) == a
            &&& forall|i: int| a.len() <= i < wa ==> #[trigger] line[i] == ' '
            &&& line.subrange(wa, wa + 4) == seq![' ', '-', '>', ' ']
            &&& line.subrange(wa + 4, wa + 4 + b.len()) == b
            &&& forall|i: int| wa + 4 + b.len() <= i < c ==> #[trigger] line[i] == ' '
            &&& line.subrange(c, c + 2) == seq![':', ' ']
            &&& digits_value(line.subrange(c + 2, line.len() as int), 10) == r.2 as int
        }),
{
    reveal_strlit(" -> ");
    reveal_strlit(": ");
    let line = row_text(r);
    let a = instr_text(r.0@);
    let b = instr_text(r.1@);
    let pa = pad_right(a, 20);
    let pb = pad_right(b, 20);
    let d = decimal(r.2 as nat);
    assert(line =~= pa + (seq![' ', '-', '>', ' '] + (pb + (seq![':', ' '] + d))));
    let wa = pa.len() as int;
    let wb = pb.len() as int;
    let c = wa + 4 + wb;
    assert(line.subrange(0, a.len() as int) =~= a);
    assert(line.subrange(wa, wa + 4) =~= seq![' ', '-', '>', ' ']);
    assert(line.subrange(wa + 4, wa + 4 + b.len()) =~= b);
    assert(line.subrange(c, c + 2) =~= seq![':', ' ']);
    assert(line.subrange(c + 2, line.len() as int) =~= d);
    lemma_decimal_reads_back(r.2 as nat);
}

} // verus!
