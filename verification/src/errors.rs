use vstd::prelude::*;

use crate::syntax::Bytecode;

verus! {

/// Why an instruction could not be decoded.
#[derive(Debug, Clone, Copy, PartialEq, Eq, Structural)]
pub enum DecodeError {
    /// The instruction needed this many more bytes than the code holds.
    NotEnoughBytes(usize),
    /// The opcode byte is not one of the known instructions.
    UnknownBytecode(u8),
    /// A string operand points at a place in the string pool with no NUL after it.
    NoNullTerminator,
    /// A variable designation byte is not one of global, local, argument or access.
    BadDesignation(u8),
    /// A jump target, or the cursor, lies at or past the end of the code.
    JumpEOF,
}

/// Errors about fixnum values of the Lama runtime.
#[derive(Debug, Clone, Copy, PartialEq, Eq, Structural)]
pub enum FixnumError {
    NotAFixnum(u64),
    NotAPositiveFixnum(u64),
    FixnumOverflow(i64),
}

/// Why the sections of a bytecode file could not be split.
#[derive(Debug, Clone, Copy, PartialEq, Eq, Structural)]
pub enum DisassemblyErrorImpl {
    /// The file is shorter than its twelve-byte header.
    BadInitSection,
    /// The public symbol table is cut short: `obtained` entries of `expected` are whole.
    BadSymbolsSection { expected: usize, obtained: usize },
    /// The string pool is cut short: `obtained` bytes of `expected` follow the symbol table.
    BadStringsSection { expected: usize, obtained: usize },
}

/// Errors of the Lama runtime.
#[derive(Debug)]
pub enum RuntimeError {
    BinopFailed(String),
    EmptyStack,
    FullStack,
    FixnumError(FixnumError),
    EmptyMultiStack { expected: usize, obtained: usize },
    LoadAddrBanned,
    StoreRefBanned,
}

/// Any error of this library.
#[derive(Debug)]
pub enum LamaError {
    /// An instruction could not be decoded; the cursor stood at `while_decoding_at`.
    DecodeError { error: DecodeError, while_decoding_at: usize },
    /// The file could not be split into its sections.
    DisassemblyError { error: DisassemblyErrorImpl },
    /// The runtime failed while running an instruction.
    RuntimeError { error: RuntimeError, while_running: Bytecode },
}

/// The error reported for a decoding failure `error` with the cursor at `at`.
pub open spec fn decode_failure(error: DecodeError, at: usize) -> LamaError {
    LamaError::DecodeError { error, while_decoding_at: at }
}

} // verus!
