use vstd::prelude::*;

use crate::errors::DisassemblyErrorImpl;
use crate::syntax::{Code, CodeView};
use crate::utils::{le_u32, u32_at};

verus! {

/// An entry of the public symbol table: where the symbol's name starts in the
/// string pool, and where its code starts in the code section.
#[derive(Debug, Clone, Copy)]
struct PubSymbol {
    name_offset: usize,
    bytecode_offset: usize,
}

/// A small integer of the Lama runtime, as a global slot holds it.
#[derive(Debug, Clone, Copy, PartialEq, Eq, Structural)]
pub struct Fixnum(pub i64);

/// A bytecode file split into its sections: the public symbol table, the string
/// pool, the code, and the global slots (all zero at first).
#[derive(Debug)]
pub struct Bytefile<'a> {
    pub_symbols: Vec<PubSymbol>,
    strings: &'a [u8],
    bytecode: Code<'a>,
    globals: Vec<Fixnum>,
}

/// The mathematical value of a `Bytefile`.
pub struct BytefileView {
    /// Each public symbol as (name offset, code offset).
    pub symbols: Seq<(usize, usize)>,
    pub strings: Seq<u8>,
    pub code: CodeView,
    pub globals: Seq<Fixnum>,
}

impl<'a> View for Bytefile<'a> {
    type V = BytefileView;

    closed spec fn view(&self) -> BytefileView {
        BytefileView {
            symbols: self.pub_symbols@.map_values(|s: PubSymbol| (s.name_offset, s.bytecode_offset)),
            strings: self.strings@,
            code: self.bytecode@,
            globals: self.globals@,
        }
    }
}

/// The size of the header: the sizes of the string pool, of the globals, and of the
/// symbol table, four bytes each.
pub open spec fn header_len() -> int {
    12
}

/// Where the string pool starts in a file whose symbol table holds `n` entries.
pub open spec fn strings_start(n: int) -> int {
    header_len() + 8 * n
}

/// The public symbol table of a file with `n` entries.
pub open spec fn symbols_of(value: Seq<u8>, n: int) -> Seq<(usize, usize)> {
    Seq::new(
        n as nat,
        |i: int| (le_u32(value, strings_start(i)) as usize, le_u32(value, strings_start(i) + 4) as usize),
    )
}

/// How a bytecode file splits into its sections, or why it does not.
/// The header holds, little-endian, the size of the string pool, the number of
/// globals and the number of public symbols; eight bytes per symbol follow, then
/// the string pool, then the code up to the end of the file.
pub open spec fn parse_bytefile(value: Seq<u8>) -> Result<BytefileView, DisassemblyErrorImpl> {
    if value.len() < header_len() {
        Err(DisassemblyErrorImpl::BadInitSection)
    } else {
        let pool_size = le_u32(value, 0) as int;
        let glob_size = le_u32(value, 4) as int;
        let n = le_u32(value, 8) as int;
        let start = strings_start(n);
        if start > value.len() {
            Err(
                DisassemblyErrorImpl::BadSymbolsSection {
                    expected: n as usize,
                    obtained: ((value.len() - header_len()) / 8) as usize,
                },
            )
        } else if start + pool_size > value.len() {
            Err(
                DisassemblyErrorImpl::BadStringsSection {
                    expected: pool_size as usize,
                    obtained: (value.len() - start) as usize,
                },
            )
        } else {
            let strings = value.subrange(start, start + pool_size);
            Ok(
                BytefileView {
                    symbols: symbols_of(value, n),
                    strings,
                    code: CodeView {
                        code: value.subrange(start + pool_size, value.len() as int),
                        strings,
                        pos: 0,
                    },
                    globals: Seq::new(glob_size as nat, |i: int| Fixnum(0)),
                },
            )
        }
    }
}


/// Splitting a file loses nothing and invents nothing: the header says how many
/// symbols, strings bytes and globals there are, and the header and symbol table,
/// the string pool and the code make up the file again, in that order.
pub proof fn lemma_bytefile_split_is_lossless(value: Seq<u8>)
    requires
        parse_bytefile(value) is Ok,
    ensures
        ({
            let f = parse_bytefile(value)->Ok_0;
            &&& f.symbols.len() == le_u32(value, 8)
            &&& f.strings.len() == le_u32(value, 0)
            &&& f.globals.len() == le_u32(value, 4)
            &&& f.code.strings == f.strings
            &&& f.code.pos == 0
            &&& value == value.subrange(0, strings_start(f.symbols.len() as int)) + f.strings + f.code.code
        }),
{
    let f = parse_bytefile(value)->Ok_0;
    let start = strings_start(le_u32(value, 8) as int);
    let end = start + le_u32(value, 0) as int;
    assert(value =~= value.subrange(0, start) + value.subrange(start, end) + value.subrange(end, value.len() as int));
}

/// The public symbols come in file order: the `i`-th is the pair of little-endian
/// words at bytes `12 + 8 * i` and `16 + 8 * i`, right after the header.
pub proof fn lemma_symbols_in_file_order(value: Seq<u8>)
    requires
        parse_bytefile(value) is Ok,
    ensures
        forall|i: int|
            0 <= i < parse_bytefile(value)->Ok_0.symbols.len() ==> #[trigger] parse_bytefile(value)->Ok_0.symbols[i] == (
                le_u32(value, 12 + 8 * i) as usize,
                le_u32(value, 16 + 8 * i) as usize,
            ),
{
}

impl<'a> Bytefile<'a> {
    /// Splits a bytecode file into its sections.
    pub fn try_from(value: &'a [u8]) -> (r: Result<Self, DisassemblyErrorImpl>)
        ensures
            match parse_bytefile(value@) {
                Ok(v) => r is Ok && r->Ok_0@ == v,
                Err(e) => r is Err && r->Err_0 == e,
            },
    {
        if value.len() < 12 {
            return Err(DisassemblyErrorImpl::BadInitSection);
        }
        let string_pool_size = u32_at(value, 0) as usize;
        let glob_size = u32_at(value, 4) as usize;
        let symbols_num = u32_at(value, 8) as usize;
        let mut pub_symbols: Vec<PubSymbol> = Vec::new();
        let mut i: usize = 0;
        let mut off: usize = 12;
        while i < symbols_num
            invariant
                i <= symbols_num,
                symbols_num == le_u32(value@, 8),
                off == strings_start(i as int),
                off <= value.len(),
                pub_symbols@.map_values(|s: PubSymbol| (s.name_offset, s.bytecode_offset))
                    == symbols_of(value@, i as int),
            decreases symbols_num - i,
        {
            if value.len() - off < 8 {
                assert((value.len() - 12) / 8 == i as int);
                return Err(DisassemblyErrorImpl::BadSymbolsSection { expected: symbols_num, obtained: i });
            }
            let ghost before = pub_symbols@;
            let name_offset = u32_at(value, off) as usize;
            let bytecode_offset = u32_at(value, off + 4) as usize;
            pub_symbols.push(PubSymbol { name_offset, bytecode_offset });
            proof {
                let now = pub_symbols@.map_values(|s: PubSymbol| (s.name_offset, s.bytecode_offset));
                let want = symbols_of(value@, i + 1);
                let had = before.map_values(|s: PubSymbol| (s.name_offset, s.bytecode_offset));
                assert(had == symbols_of(value@, i as int));
                assert(had.len() == i);
                assert(pub_symbols@ == before.push(PubSymbol { name_offset, bytecode_offset }));
                assert(now.len() == i + 1);
                assert(want.len() == i + 1);
                assert forall|k: int| 0 <= k < now.len() implies now[k] == want[k] by {
                    if k < i {
                        assert(now[k] == had[k]);
                        assert(had[k] == symbols_of(value@, i as int)[k]);
                    } else {
                        assert(k == i);
                        assert(now[k] == (name_offset, bytecode_offset));
                    }
                }
                assert(now =~= want);
            }
            i += 1;
            off += 8;
        }
        if value.len() - off < string_pool_size {
            return Err(
                DisassemblyErrorImpl::BadStringsSection { expected: string_pool_size, obtained: value.len() - off },
            );
        }
        let strings = vstd::slice::slice_subrange(value, off, off + string_pool_size);
        let code = vstd::slice::slice_subrange(value, off + string_pool_size, value.len());
        let mut globals: Vec<Fixnum> = Vec::new();
        let mut g: usize = 0;
        while g < glob_size
            invariant
                g <= glob_size,
                globals@ == Seq::new(g as nat, |i: int| Fixnum(0)),
            decreases glob_size - g,
        {
            globals.push(Fixnum(0));
            g += 1;
            assert(globals@ =~= Seq::new(g as nat, |i: int| Fixnum(0)));
        }
        let r = Self { pub_symbols, strings, bytecode: Code::new(code, strings), globals };
        assert(r@.symbols =~= symbols_of(value@, symbols_num as int));
        Ok(r)
    }

    /// The number of public symbols.
    pub fn symbol_count(&self) -> (r: usize)
        ensures
            r == self@.symbols.len(),
    {
        self.pub_symbols.len()
    }

    /// The `i`-th public symbol as (name offset, code offset).
    pub fn symbol(&self, i: usize) -> (r: (usize, usize))
        requires
            i < self@.symbols.len(),
        ensures
            r == self@.symbols[i as int],
    {
        let s = self.pub_symbols[i];
        (s.name_offset, s.bytecode_offset)
    }

    /// The string pool.
    pub fn strings(&self) -> (r: &'a [u8])
        ensures
            r@ == self@.strings,
    {
        self.strings
    }

    /// The number of global slots.
    pub fn globals_count(&self) -> (r: usize)
        ensures
            r == self@.globals.len(),
    {
        self.globals.len()
    }

    /// The code section, as any slice, is no longer than `usize::MAX` bytes.
    pub proof fn lemma_code_fits(&self)
        ensures
            self@.code.code.len() <= usize::MAX,
    {
        self.bytecode.lemma_code_fits();
    }

    /// The cursor over the code section, to decode with.
    pub fn bytecode(&mut self) -> (r: &mut Code<'a>)
        ensures
            r@ == old(self)@.code,
            final(self)@ == (BytefileView { code: final(r)@, ..old(self)@ }),
    {
        &mut self.bytecode
    }
}

} // verus!
