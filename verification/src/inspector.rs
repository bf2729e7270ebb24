use vstd::prelude::*;

use crate::bytecode::{lemma_bytefile_split_is_lossless, parse_bytefile, Bytefile};
use crate::errors::{decode_failure, LamaError};
use crate::syntax::{decode_at_pos, decode_target, instr_of, lemma_decode_advances, Bytecode, Call, Instr};

verus! {

/// How often each pair (instruction, instruction that may run next) was seen.
pub type Counts = Map<(Instr, Instr), nat>;

/// `m` with the count of `k` one higher.
pub open spec fn bump(m: Counts, k: (Instr, Instr)) -> Counts {
    m.insert(k, if m.contains_key(k) { m[k] + 1 } else { 1 })
}

/// Where control may go from `i` besides the next instruction: the target of a
/// jump, of a conditional jump, or of a call of a function.
pub open spec fn jump_target(i: Instr) -> Option<usize> {
    match i {
        Instr::Jump(t) => Some(t),
        Instr::CondJump(_, t) => Some(t),
        Instr::CallFunc(Call::Function(t, _)) => Some(t),
        _ => None,
    }
}

/// What counts as the instruction before the next one in the code, once `i` has run:
/// nothing after an unconditional jump (control never falls through it), `END`
/// after a call of a function (every function ends in `END`), `i` itself otherwise.
pub open spec fn follower(i: Instr) -> Option<Instr> {
    match i {
        Instr::Jump(_) => None,
        Instr::CallFunc(Call::Function(_, _)) => Some(Instr::End),
        _ => Some(i),
    }
}

/// Counts the pair (`last`, `x`) where there is an instruction before `x`.
pub open spec fn count_fallthrough(last: Option<Instr>, x: Instr, acc: Counts) -> Counts {
    match last {
        Some(y) => bump(acc, (y, x)),
        None => acc,
    }
}

/// Counts the pair (`x`, instruction at its target) where `x` jumps or calls;
/// the target is decoded with the cursor at `cursor`.
pub open spec fn count_jump(code: Seq<u8>, strings: Seq<u8>, cursor: usize, x: Instr, acc: Counts) -> Result<Counts, LamaError> {
    match jump_target(x) {
        Some(t) => match decode_target(code, strings, cursor, t) {
            Ok(ins) => Ok(bump(acc, (x, ins))),
            Err(e) => Err(e),
        },
        None => Ok(acc),
    }
}

/// Walks the code from `pos` to its end, instruction by instruction, adding to
/// `acc` each pair of an instruction and one that may run right after it; `last`
/// is what counts as the instruction before the one at `pos`. The first failure
/// to decode ends the walk.
pub open spec fn inspect_from(code: Seq<u8>, strings: Seq<u8>, pos: usize, last: Option<Instr>, acc: Counts) -> Result<Counts, LamaError>
    decreases code.len() - pos,
{
    match decode_at_pos(code, strings, pos) {
        Err((e, p)) => Err(decode_failure(e, p)),
        Ok((None, _)) => Ok(acc),
        Ok((Some(x), p)) => if pos < p <= code.len() {
            match count_jump(code, strings, p, x, count_fallthrough(last, x, acc)) {
                Ok(acc2) => inspect_from(code, strings, p, follower(x), acc2),
                Err(e) => Err(e),
            }
        } else {
            Ok(acc)
        },
    }
}

/// The pair counts of a whole bytecode file, or why there are none.
pub open spec fn inspect_file(value: Seq<u8>) -> Result<Counts, LamaError> {
    match parse_bytefile(value) {
        Err(e) => Err(LamaError::DisassemblyError { error: e }),
        Ok(f) => inspect_from(f.code.code, f.code.strings, 0, None, Map::empty()),
    }
}

/// How often `m` counts `k` (0 where it does not count it).
pub open spec fn count_of(m: Counts, k: (Instr, Instr)) -> nat {
    if m.contains_key(k) {
        m[k]
    } else {
        0
    }
}

/// Every count of `m` fits in a `u32`.
pub open spec fn counts_fit(m: Counts) -> bool {
    forall|k: (Instr, Instr)| #[trigger] count_of(m, k) <= u32::MAX
}

/// The counts that the walk from `pos` reaches before it stops: at the end of
/// the code, or where an instruction or a jump target fails to decode (with the
/// pairs counted up to there). Counts only grow along the walk, so these are the
/// highest counts it holds.
pub open spec fn walk_peak(code: Seq<u8>, strings: Seq<u8>, pos: usize, last: Option<Instr>, acc: Counts) -> Counts
    decreases code.len() - pos,
{
    match decode_at_pos(code, strings, pos) {
        Err(_) => acc,
        Ok((None, _)) => acc,
        Ok((Some(x), p)) => if pos < p <= code.len() {
            let acc1 = count_fallthrough(last, x, acc);
            match count_jump(code, strings, p, x, acc1) {
                Ok(acc2) => walk_peak(code, strings, p, follower(x), acc2),
                Err(_) => acc1,
            }
        } else {
            acc
        },
    }
}

/// No pair count of the walk over the code of a file overflows a `u32`.
pub open spec fn inspect_fits(value: Seq<u8>) -> bool {
    match parse_bytefile(value) {
        Ok(f) => counts_fit(walk_peak(f.code.code, f.code.strings, 0, None, Map::empty())),
        Err(_) => true,
    }
}

/// Counting a pair raises its count by one and leaves the others.
pub proof fn lemma_bump(m: Counts, k: (Instr, Instr))
    ensures
        forall|j: (Instr, Instr)| #[trigger] count_of(bump(m, k), j) == count_of(m, j) + if j == k { 1nat } else { 0nat },
{
}

/// Counts only grow along the walk: the walk's peak counts each pair at least as
/// often as `acc` does.
pub proof fn lemma_peak_dominates(code: Seq<u8>, strings: Seq<u8>, pos: usize, last: Option<Instr>, acc: Counts)
    ensures
        forall|k: (Instr, Instr)| #[trigger] count_of(walk_peak(code, strings, pos, last, acc), k) >= count_of(acc, k),
    decreases code.len() - pos,
{
    let peak = walk_peak(code, strings, pos, last, acc);
    match decode_at_pos(code, strings, pos) {
        Ok((Some(x), p)) => if pos < p <= code.len() {
            let acc1 = count_fallthrough(last, x, acc);
            if let Some(y) = last {
                lemma_bump(acc, (y, x));
            }
            assert forall|k: (Instr, Instr)| #[trigger] count_of(acc1, k) >= count_of(acc, k) by {}
            match count_jump(code, strings, p, x, acc1) {
                Ok(acc2) => {
                    if let Some(t) = jump_target(x) {
                        if let Ok(ins) = decode_target(code, strings, p, t) {
                            lemma_bump(acc1, (x, ins));
                        }
                    }
                    assert forall|k: (Instr, Instr)| #[trigger] count_of(acc2, k) >= count_of(acc1, k) by {}
                    lemma_peak_dominates(code, strings, p, follower(x), acc2);
                    assert(peak == walk_peak(code, strings, p, follower(x), acc2));
                    assert forall|k: (Instr, Instr)| #[trigger] count_of(peak, k) >= count_of(acc, k) by {
                        assert(count_of(acc2, k) >= count_of(acc1, k));
                        assert(count_of(acc1, k) >= count_of(acc, k));
                    }
                },
                Err(_) => {
                    assert(peak == acc1);
                },
            }
        },
        _ => {},
    }
}

/// Where the walk ends without failing, its counts are its peak.
pub proof fn lemma_walk_ends_at_peak(code: Seq<u8>, strings: Seq<u8>, pos: usize, last: Option<Instr>, acc: Counts)
    ensures
        inspect_from(code, strings, pos, last, acc) matches Ok(m) ==> m == walk_peak(code, strings, pos, last, acc),
    decreases code.len() - pos,
{
    match decode_at_pos(code, strings, pos) {
        Ok((Some(x), p)) => if pos < p <= code.len() {
            match count_jump(code, strings, p, x, count_fallthrough(last, x, acc)) {
                Ok(acc2) => lemma_walk_ends_at_peak(code, strings, p, follower(x), acc2),
                Err(_) => {},
            }
        },
        _ => {},
    }
}

/// The walk from `pos` adds to no count more than the number of code bytes left:
/// a step counts one pair per byte it passes at most, two only for jumps and
/// calls, which take five bytes or more.
pub proof fn lemma_peak_growth(code: Seq<u8>, strings: Seq<u8>, pos: usize, last: Option<Instr>, acc: Counts)
    requires
        pos <= code.len() <= usize::MAX,
    ensures
        forall|k: (Instr, Instr)| #[trigger] count_of(walk_peak(code, strings, pos, last, acc), k) <= count_of(acc, k) + (code.len() - pos),
    decreases code.len() - pos,
{
    lemma_decode_advances(code, strings, pos);
    match decode_at_pos(code, strings, pos) {
        Ok((Some(x), p)) => if pos < p <= code.len() {
            let acc1 = count_fallthrough(last, x, acc);
            if let Some(y) = last {
                lemma_bump(acc, (y, x));
            }
            assert forall|k: (Instr, Instr)| #[trigger] count_of(acc1, k) <= count_of(acc, k) + 1 by {}
            match count_jump(code, strings, p, x, acc1) {
                Ok(acc2) => {
                    if let Some(t) = jump_target(x) {
                        if let Ok(ins) = decode_target(code, strings, p, t) {
                            lemma_bump(acc1, (x, ins));
                        }
                        assert(pos + 5 <= p);
                    }
                    assert forall|k: (Instr, Instr)| #[trigger] count_of(acc2, k) <= count_of(acc, k) + (p - pos) by {
                        assert(count_of(acc1, k) <= count_of(acc, k) + 1);
                    }
                    lemma_peak_growth(code, strings, p, follower(x), acc2);
                    assert(walk_peak(code, strings, pos, last, acc) == walk_peak(code, strings, p, follower(x), acc2));
                    assert forall|k: (Instr, Instr)| #[trigger] count_of(walk_peak(code, strings, pos, last, acc), k)
                        <= count_of(acc, k) + (code.len() - pos) by {
                        assert(count_of(acc2, k) <= count_of(acc, k) + (p - pos));
                        assert(count_of(walk_peak(code, strings, p, follower(x), acc2), k) <= count_of(acc2, k) + (code.len() - p));
                    }
                },
                Err(_) => {
                    assert(walk_peak(code, strings, pos, last, acc) == acc1);
                },
            }
        },
        _ => {},
    }
}

/// One step of the walk from `pos` stays within the walk's peak: the counts after
/// the pair with the instruction before, and after the pair with a jump's target,
/// are no higher than the peak's.
proof fn lemma_step_within_peak(code: Seq<u8>, strings: Seq<u8>, pos: usize, last: Option<Instr>, acc: Counts)
    requires
        decode_at_pos(code, strings, pos) matches Ok((Some(_), p)) && pos < p <= code.len(),
    ensures
        ({
            let (x, p) = (decode_at_pos(code, strings, pos)->Ok_0.0->Some_0, decode_at_pos(code, strings, pos)->Ok_0.1);
            let acc1 = count_fallthrough(last, x, acc);
            let peak = walk_peak(code, strings, pos, last, acc);
            &&& forall|k: (Instr, Instr)| #[trigger] count_of(acc1, k) <= count_of(peak, k)
            &&& (last matches Some(y) ==> count_of(acc, (y, x)) + 1 == count_of(acc1, (y, x)))
            &&& (jump_target(x) matches Some(t) ==> (decode_target(code, strings, p, t) matches Ok(ins) ==>
                count_of(acc1, (x, ins)) + 1 <= count_of(peak, (x, ins))))
            &&& (count_jump(code, strings, p, x, acc1) matches Ok(acc2) ==> peak == walk_peak(code, strings, p, follower(x), acc2))
        }),
{
    let (x, p) = (decode_at_pos(code, strings, pos)->Ok_0.0->Some_0, decode_at_pos(code, strings, pos)->Ok_0.1);
    let acc1 = count_fallthrough(last, x, acc);
    let peak = walk_peak(code, strings, pos, last, acc);
    if let Some(y) = last {
        lemma_bump(acc, (y, x));
    }
    match count_jump(code, strings, p, x, acc1) {
        Ok(acc2) => {
            assert(peak == walk_peak(code, strings, p, follower(x), acc2));
            lemma_peak_dominates(code, strings, p, follower(x), acc2);
            if let Some(t) = jump_target(x) {
                if let Ok(ins) = decode_target(code, strings, p, t) {
                    lemma_bump(acc1, (x, ins));
                    assert(count_of(acc2, (x, ins)) <= count_of(peak, (x, ins)));
                }
            }
            assert forall|k: (Instr, Instr)| #[trigger] count_of(acc1, k) <= count_of(peak, k) by {
                if let Some(t) = jump_target(x) {
                    if let Ok(ins) = decode_target(code, strings, p, t) {
                        lemma_bump(acc1, (x, ins));
                    }
                }
                assert(count_of(acc2, k) <= count_of(peak, k));
            }
        },
        Err(_) => {
            assert(peak == acc1);
        },
    }
}

/// A file of at most `u32::MAX` bytes is walked without any count overflowing.
pub proof fn lemma_short_file_fits(value: Seq<u8>)
    requires
        value.len() <= u32::MAX,
    ensures
        inspect_fits(value),
{
    if parse_bytefile(value) is Ok {
        let f = parse_bytefile(value)->Ok_0;
        lemma_bytefile_split_is_lossless(value);
        let e = Map::<(Instr, Instr), nat>::empty();
        lemma_peak_growth(f.code.code, f.code.strings, 0, None, e);
        assert forall|k: (Instr, Instr)| #[trigger] count_of(walk_peak(f.code.code, f.code.strings, 0, None, e), k) <= u32::MAX by {
            assert(count_of(e, k) == 0);
        }
    }
}

/// Counts reached later in a walk are at least those of any earlier step.
proof fn lemma_bump_grows(m: Counts, k: (Instr, Instr))
    ensures
        forall|j: (Instr, Instr)| #[trigger] count_of(bump(m, k), j) >= count_of(m, j),
        count_of(bump(m, k), k) == count_of(m, k) + 1,
{
    lemma_bump(m, k);
}

/// Where a walk that does not fail passes an instruction `x`, it counts what may run
/// right after `x`: the instruction after it in the code, unless `x` is an
/// unconditional jump or a call of a code function (after such a call, `END` of the
/// called function is what comes before the next instruction); and, for a jump, a
/// conditional jump or a call of a code function, the instruction at its target.
pub proof fn lemma_walk_counts_successors(code: Seq<u8>, strings: Seq<u8>, pos: usize, last: Option<Instr>, acc: Counts)
    requires
        code.len() <= usize::MAX,
        inspect_from(code, strings, pos, last, acc) is Ok,
        decode_at_pos(code, strings, pos) matches Ok((Some(_), _)),
    ensures
        ({
            let m = inspect_from(code, strings, pos, last, acc)->Ok_0;
            let x = decode_at_pos(code, strings, pos)->Ok_0.0->Some_0;
            let p = decode_at_pos(code, strings, pos)->Ok_0.1;
            &&& decode_at_pos(code, strings, p) matches Ok((Some(y), _)) ==> {
                &&& !(x is Jump) && !(x matches Instr::CallFunc(Call::Function(_, _)))
                    ==> count_of(m, (x, y)) >= count_of(acc, (x, y)) + 1
                &&& x matches Instr::CallFunc(Call::Function(_, _))
                    ==> count_of(m, (Instr::End, y)) >= count_of(acc, (Instr::End, y)) + 1
            }
            &&& x matches Instr::Jump(t) ==> (decode_at_pos(code, strings, t) matches Ok((Some(z), _))
                ==> count_of(m, (x, z)) >= count_of(acc, (x, z)) + 1)
            &&& x matches Instr::CondJump(_, t) ==> (decode_at_pos(code, strings, t) matches Ok((Some(z), _))
                ==> count_of(m, (x, z)) >= count_of(acc, (x, z)) + 1)
            &&& x matches Instr::CallFunc(Call::Function(t, _)) ==> (decode_at_pos(code, strings, t) matches Ok((Some(z), _))
                ==> count_of(m, (x, z)) >= count_of(acc, (x, z)) + 1)
        }),
{
    let m = inspect_from(code, strings, pos, last, acc)->Ok_0;
    let x = decode_at_pos(code, strings, pos)->Ok_0.0->Some_0;
    let p = decode_at_pos(code, strings, pos)->Ok_0.1;
    lemma_decode_advances(code, strings, pos);
    lemma_walk_ends_at_peak(code, strings, pos, last, acc);
    lemma_step_within_peak(code, strings, pos, last, acc);
    let acc1 = count_fallthrough(last, x, acc);
    if let Some(l) = last {
        lemma_bump_grows(acc, (l, x));
    }
    assert(forall|k: (Instr, Instr)| #[trigger] count_of(acc1, k) >= count_of(acc, k));
    let acc2 = count_jump(code, strings, p, x, acc1)->Ok_0;
    if let Some(t) = jump_target(x) {
        if let Ok(ins) = decode_target(code, strings, p, t) {
            lemma_bump_grows(acc1, (x, ins));
        }
    }
    assert(forall|k: (Instr, Instr)| #[trigger] count_of(acc2, k) >= count_of(acc1, k));
    assert(inspect_from(code, strings, pos, last, acc) == inspect_from(code, strings, p, follower(x), acc2));
    lemma_decode_advances(code, strings, p);
    if let Ok((Some(y), p2)) = decode_at_pos(code, strings, p) {
        lemma_walk_ends_at_peak(code, strings, p, follower(x), acc2);
        lemma_step_within_peak(code, strings, p, follower(x), acc2);
        if let Some(f) = follower(x) {
            assert(count_of(acc2, (f, y)) + 1 <= count_of(m, (f, y)));
        }
    }
}

/// The instruction that decodes at `at`, if one does.
pub open spec fn instr_at(code: Seq<u8>, strings: Seq<u8>, at: usize) -> Option<Instr> {
    match decode_at_pos(code, strings, at) {
        Ok((Some(i), _)) => Some(i),
        _ => None,
    }
}

/// The pair `k` may run in turn at `q`: the instruction at `q` and the one after it
/// in the code, unless the first is an unconditional jump or a call of a code
/// function; `END` and the instruction after such a call; or a jump, conditional
/// jump or call of a code function and the instruction at its target.
pub open spec fn may_follow(code: Seq<u8>, strings: Seq<u8>, q: usize, k: (Instr, Instr)) -> bool {
    match decode_at_pos(code, strings, q) {
        Ok((Some(x), p)) => {
            let calls_code = (x matches Instr::CallFunc(Call::Function(_, _)));
            ||| k.0 == x && !(x is Jump) && !calls_code && instr_at(code, strings, p) == Some(k.1)
            ||| calls_code && k.0 == Instr::End && instr_at(code, strings, p) == Some(k.1)
            ||| k.0 == x && match x {
                Instr::Jump(t) => instr_at(code, strings, t) == Some(k.1),
                Instr::CondJump(_, t) => instr_at(code, strings, t) == Some(k.1),
                Instr::CallFunc(Call::Function(t, _)) => instr_at(code, strings, t) == Some(k.1),
                _ => false,
            }
        },
        _ => false,
    }
}

/// A walk that does not fail counts nothing that cannot run in turn: each pair
/// whose count it raises is the instruction before the start and the first one,
/// or a pair that may run in turn at some position from the start on.
pub proof fn lemma_walk_counts_only_successors(code: Seq<u8>, strings: Seq<u8>, pos: usize, last: Option<Instr>, acc: Counts)
    requires
        code.len() <= usize::MAX,
    ensures
        inspect_from(code, strings, pos, last, acc) matches Ok(m) ==> forall|k: (Instr, Instr)|
            #[trigger] count_of(m, k) > count_of(acc, k) ==> (
                (last matches Some(l) && decode_at_pos(code, strings, pos) matches Ok((Some(x), _)) && k == (l, x))
                || exists|q: usize| pos <= q && #[trigger] may_follow(code, strings, q, k)),
    decreases code.len() - pos,
{
    lemma_decode_advances(code, strings, pos);
    match decode_at_pos(code, strings, pos) {
        Ok((Some(x), p)) => if pos < p <= code.len() {
            let acc1 = count_fallthrough(last, x, acc);
            if let Some(l) = last {
                lemma_bump_grows(acc, (l, x));
                lemma_bump(acc, (l, x));
            }
            match count_jump(code, strings, p, x, acc1) {
                Ok(acc2) => {
                    if let Some(t) = jump_target(x) {
                        if let Ok(ins) = decode_target(code, strings, p, t) {
                            lemma_bump(acc1, (x, ins));
                        }
                    }
                    lemma_walk_counts_only_successors(code, strings, p, follower(x), acc2);
                    if let Ok(m) = inspect_from(code, strings, pos, last, acc) {
                        assert(m == inspect_from(code, strings, p, follower(x), acc2)->Ok_0);
                        assert forall|k: (Instr, Instr)| #[trigger] count_of(m, k) > count_of(acc, k) implies (
                            (last matches Some(l) && k == (l, x))
                            || exists|q: usize| pos <= q && #[trigger] may_follow(code, strings, q, k)) by {
                            if count_of(m, k) > count_of(acc2, k) {
                                if follower(x) matches Some(f) && decode_at_pos(code, strings, p) matches Ok((Some(y), _)) && k == (f, y) {
                                    assert(may_follow(code, strings, pos, k));
                                } else {
                                    let q = choose|q: usize| p <= q && #[trigger] may_follow(code, strings, q, k);
                                    assert(pos <= q && may_follow(code, strings, q, k));
                                }
                            } else if count_of(acc1, k) > count_of(acc, k) {
                            } else {
                                assert(count_of(acc2, k) > count_of(acc1, k));
                                assert(may_follow(code, strings, pos, k));
                            }
                        }
                    }
                },
                Err(_) => {},
            }
        },
        _ => {},
    }
}

/// Every pair that the walk over a file counts may run in turn somewhere in its code.
pub proof fn lemma_file_counts_only_successors(value: Seq<u8>)
    requires
        value.len() <= usize::MAX,
        inspect_file(value) is Ok,
    ensures
        ({
            let f = parse_bytefile(value)->Ok_0;
            forall|k: (Instr, Instr)| #[trigger] count_of(inspect_file(value)->Ok_0, k) > 0 ==> exists|q: usize|
                #[trigger] may_follow(f.code.code, f.code.strings, q, k)
        }),
{
    let f = parse_bytefile(value)->Ok_0;
    lemma_bytefile_split_is_lossless(value);
    let e = Map::<(Instr, Instr), nat>::empty();
    lemma_walk_counts_only_successors(f.code.code, f.code.strings, 0, None, e);
    let m = inspect_file(value)->Ok_0;
    assert forall|k: (Instr, Instr)| #[trigger] count_of(m, k) > 0 implies exists|q: usize|
        #[trigger] may_follow(f.code.code, f.code.strings, q, k) by {
        assert(count_of(m, k) > count_of(e, k));
    }
}

/// The pair that an entry counts.
pub open spec fn key_of(e: (Bytecode, Bytecode, u32)) -> (Instr, Instr) {
    (e.0@, e.1@)
}

/// `entries` lists the counts `m`: each pair once, with its count.
pub open spec fn lists(entries: Seq<(Bytecode, Bytecode, u32)>, m: Counts) -> bool {
    &&& forall|i: int, j: int| 0 <= i < j < entries.len() ==> key_of(entries[i]) != key_of(entries[j])
    &&& forall|i: int| 0 <= i < entries.len() ==> #[trigger] m.contains_key(key_of(entries[i])) && m[key_of(entries[i])] == entries[i].2 as nat
    &&& forall|k: (Instr, Instr)| m.contains_key(k) ==> exists|i: int| 0 <= i < entries.len() && key_of(entries[i]) == k
}

/// Counts of pairs of instructions, each with how often it was seen.
pub struct Transitions {
    entries: Vec<(Bytecode, Bytecode, u32)>,
    counts: Ghost<Counts>,
}

impl View for Transitions {
    type V = Counts;

    closed spec fn view(&self) -> Counts {
        self.counts@
    }
}

impl Transitions {
    /// The entries list the counts.
    pub closed spec fn wf(&self) -> bool {
        lists(self.entries@, self.counts@)
    }

    /// No pair counted yet.
    pub fn new() -> (r: Self)
        ensures
            r.wf(),
            r@ == Map::<(Instr, Instr), nat>::empty(),
    {
        Transitions { entries: Vec::new(), counts: Ghost(Map::empty()) }
    }

    /// Each counted pair once, with its count.
    pub fn entries(&self) -> (r: &Vec<(Bytecode, Bytecode, u32)>)
        requires
            self.wf(),
        ensures
            lists(r@, self@),
    {
        &self.entries
    }

    /// Each counted pair once, with its count, taken out.
    pub fn into_entries(self) -> (r: Vec<(Bytecode, Bytecode, u32)>)
        requires
            self.wf(),
        ensures
            lists(r@, self@),
    {
        self.entries
    }

    fn find(&self, prev: &Bytecode, next: &Bytecode) -> (r: Option<usize>)
        requires
            self.wf(),
        ensures
            match r {
                Some(i) => i < self.entries@.len() && key_of(self.entries@[i as int]) == (prev@, next@),
                None => !self@.contains_key((prev@, next@)),
            },
    {
        let mut i: usize = 0;
        while i < self.entries.len()
            invariant
                self.wf(),
                i <= self.entries@.len(),
                forall|k: int| 0 <= k < i ==> key_of(self.entries@[k]) != (prev@, next@),
            decreases self.entries@.len() - i,
        {
            if self.entries[i].0.same_as(prev) && self.entries[i].1.same_as(next) {
                return Some(i);
            }
            i += 1;
        }
        None
    }

    /// How often the pair (`prev`, `next`) was counted.
    pub fn count(&self, prev: &Bytecode, next: &Bytecode) -> (r: u32)
        requires
            self.wf(),
        ensures
            r == (if self@.contains_key((prev@, next@)) { self@[(prev@, next@)] } else { 0 }),
    {
        match self.find(prev, next) {
            Some(i) => self.entries[i].2,
            None => 0,
        }
    }

    /// Counts the pair (`prev`, `next`) once more.
    pub fn add(&mut self, prev: Bytecode, next: Bytecode)
        requires
            old(self).wf(),
            old(self)@.contains_key((prev@, next@)) ==> old(self)@[(prev@, next@)] < u32::MAX,
        ensures
            final(self).wf(),
            final(self)@ == bump(old(self)@, (prev@, next@)),
    {
        let ghost k = (prev@, next@);
        let ghost m = bump(self.counts@, k);
        match self.find(&prev, &next) {
            Some(i) => {
                let c = self.entries[i].2;
                let ghost old_entries = self.entries@;
                assert(key_of(old_entries[i as int]) == k);
                assert(self.counts@[k] == c);
                self.entries.set(i, (prev, next, c + 1));
                self.counts = Ghost(m);
                assert forall|j: int| 0 <= j < self.entries@.len() implies #[trigger] m.contains_key(
                    key_of(self.entries@[j]),
                ) && m[key_of(self.entries@[j])] == self.entries@[j].2 as nat by {
                    if j != i {
                        assert(self.entries@[j] == old_entries[j]);
                        if j < i {
                            assert(key_of(old_entries[j]) != key_of(old_entries[i as int]));
                        } else {
                            assert(key_of(old_entries[i as int]) != key_of(old_entries[j]));
                        }
                    } else {
                        assert(self.entries@[j].2 == c + 1);
                    }
                }
                assert forall|kk: (Instr, Instr)| m.contains_key(kk) implies exists|j: int|
                    0 <= j < self.entries@.len() && key_of(self.entries@[j]) == kk by {
                    if kk != k {
                        let j = choose|j: int| 0 <= j < old_entries.len() && key_of(old_entries[j]) == kk;
                        assert(key_of(self.entries@[j]) == kk);
                    } else {
                        assert(key_of(self.entries@[i as int]) == kk);
                    }
                }
            },
            None => {
                let ghost old_entries = self.entries@;
                self.entries.push((prev, next, 1));
                self.counts = Ghost(m);
                let ghost n = old_entries.len() as int;
                assert forall|j: int| 0 <= j < self.entries@.len() implies #[trigger] m.contains_key(
                    key_of(self.entries@[j]),
                ) && m[key_of(self.entries@[j])] == self.entries@[j].2 as nat by {
                    if j < n {
                        assert(self.entries@[j] == old_entries[j]);
                    }
                }
                assert forall|kk: (Instr, Instr)| m.contains_key(kk) implies exists|j: int|
                    0 <= j < self.entries@.len() && key_of(self.entries@[j]) == kk by {
                    if kk != k {
                        let j = choose|j: int| 0 <= j < old_entries.len() && key_of(old_entries[j]) == kk;
                        assert(key_of(self.entries@[j]) == kk);
                    } else {
                        assert(key_of(self.entries@[n]) == kk);
                    }
                }
                assert forall|a: int, b: int| 0 <= a < b < self.entries@.len() implies key_of(self.entries@[a])
                    != key_of(self.entries@[b]) by {
                    if b == n {
                        assert(self.entries@[a] == old_entries[a]);
                    } else {
                        assert(self.entries@[a] == old_entries[a]);
                        assert(self.entries@[b] == old_entries[b]);
                    }
                }
            },
        }
    }
}


/// Walks the code of a bytecode file and counts, for each instruction, the
/// instructions that may run right after it.
struct Inspector<'a> {
    file: Bytefile<'a>,
    result: Transitions,
}

impl<'a> Inspector<'a> {
    /// The peak counts of the rest of the walk from the cursor, where `last` counts
    /// as the instruction before it.
    closed spec fn peak(&self, last: Option<Instr>) -> Counts {
        walk_peak(self.file@.code.code, self.file@.code.strings, self.file@.code.pos, last, self.result@)
    }

    fn new(file: Bytefile<'a>) -> (r: Self)
        ensures
            r.result.wf(),
            r.file@ == file@,
            r.result@ == Map::<(Instr, Instr), nat>::empty(),
    {
        Self { file, result: Transitions::new() }
    }

    fn add(&mut self, prev: Bytecode, next: Bytecode)
        requires
            old(self).result.wf(),
            count_of(old(self).result@, (prev@, next@)) < u32::MAX,
        ensures
            final(self).result.wf(),
            final(self).result@ == bump(old(self).result@, (prev@, next@)),
            final(self).file@ == old(self).file@,
    {
        self.result.add(prev, next);
    }

    fn handle_jump(&mut self, bytecode: &Bytecode, target: usize) -> (r: Result<(), LamaError>)
        requires
            old(self).result.wf(),
            decode_target(old(self).file@.code.code, old(self).file@.code.strings, old(self).file@.code.pos, target)
                matches Ok(ins) ==> count_of(old(self).result@, (bytecode@, ins)) < u32::MAX,
        ensures
            final(self).file@ == old(self).file@,
            final(self).result.wf(),
            match decode_target(old(self).file@.code.code, old(self).file@.code.strings, old(self).file@.code.pos, target) {
                Ok(ins) => r is Ok && final(self).result@ == bump(old(self).result@, (bytecode@, ins)),
                Err(e) => r == Err::<(), LamaError>(e) && final(self).result@ == old(self).result@,
            },
    {
        let instruction = self.file.bytecode().decode_at(target)?;
        self.add(bytecode.clone(), instruction);
        Ok(())
    }

    fn update_jumps(&mut self, last_bytecode: &mut Option<Bytecode>, next_bytecode: Bytecode) -> (r: Result<(), LamaError>)
        requires
            old(self).result.wf(),
            jump_target(next_bytecode@) matches Some(t) ==> (decode_target(
                old(self).file@.code.code,
                old(self).file@.code.strings,
                old(self).file@.code.pos,
                t,
            ) matches Ok(ins) ==> count_of(old(self).result@, (next_bytecode@, ins)) < u32::MAX),
        ensures
            final(self).file@ == old(self).file@,
            final(self).result.wf(),
            match count_jump(
                old(self).file@.code.code,
                old(self).file@.code.strings,
                old(self).file@.code.pos,
                next_bytecode@,
                old(self).result@,
            ) {
                Ok(m) => r is Ok && final(self).result@ == m && instr_of(*final(last_bytecode)) == follower(next_bytecode@),
                Err(e) => {
                    &&& r == Err::<(), LamaError>(e)
                    &&& final(self).result@ == old(self).result@
                    &&& *final(last_bytecode) == *old(last_bytecode)
                },
            },
    {
        match next_bytecode {
            Bytecode::Jump(tgt) => {
                // Control never falls through an unconditional jump; only its target follows it.
                self.handle_jump(&next_bytecode, tgt)?;
                *last_bytecode = None;
            },
            Bytecode::CondJump(_, tgt) => {
                // Either the next instruction or the target runs next.
                self.handle_jump(&next_bytecode, tgt)?;
                *last_bytecode = Some(next_bytecode);
            },
            Bytecode::CallFunc(Call::Function(tgt, _)) => {
                // The callee runs next; every function ends in END, after which the next instruction runs.
                self.handle_jump(&next_bytecode, tgt)?;
                *last_bytecode = Some(Bytecode::End);
            },
            _ => {
                *last_bytecode = Some(next_bytecode);
            },
        }
        Ok(())
    }

    /// Decodes the next instruction and counts the pairs it ends; `Ok(false)` where the code has ended.
    fn step(&mut self, last_bytecode: &mut Option<Bytecode>) -> (r: Result<bool, LamaError>)
        requires
            old(self).result.wf(),
            counts_fit(old(self).peak(instr_of(*old(last_bytecode)))),
        ensures
            final(self).file@.code.code == old(self).file@.code.code,
            final(self).file@.code.strings == old(self).file@.code.strings,
            ({
                let code = old(self).file@.code.code;
                let strings = old(self).file@.code.strings;
                let before = inspect_from(code, strings, old(self).file@.code.pos, instr_of(*old(last_bytecode)), old(self).result@);
                match r {
                    Ok(true) => {
                        &&& final(self).result.wf()
                        &&& old(self).file@.code.pos < final(self).file@.code.pos <= code.len()
                        &&& final(self).peak(instr_of(*final(last_bytecode))) == old(self).peak(instr_of(*old(last_bytecode)))
                        &&& inspect_from(code, strings, final(self).file@.code.pos, instr_of(*final(last_bytecode)), final(self).result@) == before
                    },
                    Ok(false) => final(self).result.wf() && before == Ok::<Counts, LamaError>(final(self).result@),
                    Err(e) => before == Err::<Counts, LamaError>(e),
                }
            }),
    {
        let ghost code = self.file@.code.code;
        let ghost strings = self.file@.code.strings;
        let ghost pos = self.file@.code.pos;
        let ghost acc = self.result@;
        let ghost last = instr_of(*last_bytecode);
        let ghost peak = self.peak(last);
        proof {
            self.file.lemma_code_fits();
            lemma_decode_advances(code, strings, pos);
        }
        let x = match self.file.bytecode().decode()? {
            Some(x) => x,
            None => return Ok(false),
        };
        let ghost p = self.file@.code.pos;
        let ghost acc1 = count_fallthrough(last, x@, acc);
        proof {
            lemma_step_within_peak(code, strings, pos, last, acc);
        }
        if let Some(ref y) = last_bytecode {
            assert(count_of(acc1, (y@, x@)) <= count_of(peak, (y@, x@)));
            self.add(y.clone(), x.clone());
        }
        assert(self.result@ == acc1);
        self.update_jumps(last_bytecode, x)?;
        Ok(true)
    }

    fn inspect(self) -> (r: Result<Transitions, LamaError>)
        requires
            self.result.wf(),
            counts_fit(self.peak(None)),
        ensures
            match inspect_from(self.file@.code.code, self.file@.code.strings, self.file@.code.pos, None, self.result@) {
                Ok(m) => r is Ok && r->Ok_0.wf() && r->Ok_0@ == m,
                Err(e) => r == Err::<Transitions, LamaError>(e),
            },
    {
        let mut this = self;
        let ghost code = this.file@.code.code;
        let ghost strings = this.file@.code.strings;
        let ghost total = inspect_from(code, strings, this.file@.code.pos, None, this.result@);
        let ghost peak = this.peak(None);
        let mut last_bytecode: Option<Bytecode> = None;
        loop
            invariant
                this.result.wf(),
                this.file@.code.code == code,
                this.file@.code.strings == strings,
                this.peak(instr_of(last_bytecode)) == peak,
                counts_fit(peak),
                inspect_from(code, strings, this.file@.code.pos, instr_of(last_bytecode), this.result@) == total,
                code == self.file@.code.code,
                total == inspect_from(self.file@.code.code, self.file@.code.strings, self.file@.code.pos, None, self.result@),
            decreases code.len() - this.file@.code.pos,
        {
            let more = this.step(&mut last_bytecode)?;
            if !more {
                return Ok(this.result);
            }
        }
    }
}

/// Counts, over the code of a bytecode file, each pair of an instruction and an
/// instruction that may run right after it: the next one in the code (unless the
/// first is an unconditional jump), the target of a jump or conditional jump, and
/// the callee of a call, after which `END` counts as the instruction before the
/// next one. The counts are 32-bit: the walk must not count any pair more than
/// `u32::MAX` times (`lemma_short_file_fits`: no file of at most `u32::MAX`
/// bytes does).
pub fn inspect_bytecode(value: &[u8]) -> (r: Result<Transitions, LamaError>)
    requires
        inspect_fits(value@),
    ensures
        match inspect_file(value@) {
            Ok(m) => r is Ok && r->Ok_0.wf() && r->Ok_0@ == m,
            Err(e) => r == Err::<Transitions, LamaError>(e),
        },
        r matches Ok(t) ==> forall|k: (Instr, Instr)| #[trigger] count_of(t@, k) <= value@.len(),
{
    let bytefile = match Bytefile::try_from(value) {
        Ok(b) => b,
        Err(k) => return Err(LamaError::DisassemblyError { error: k }),
    };
    proof {
        lemma_bytefile_split_is_lossless(value@);
        bytefile.lemma_code_fits();
        let f = bytefile@;
        let e = Map::<(Instr, Instr), nat>::empty();
        lemma_walk_ends_at_peak(f.code.code, f.code.strings, 0, None, e);
        lemma_peak_growth(f.code.code, f.code.strings, 0, None, e);
        assert forall|k: (Instr, Instr)| #[trigger] count_of(e, k) == 0 by {}
    }
    let inspector = Inspector::new(bytefile);
    inspector.inspect()
}

} // verus!
