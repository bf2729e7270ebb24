# Lama bytecode inspector

A verified library that reads Lama bytecode files and reports which
instructions follow which.

- `src/bytecode.rs` splits a file into its header, public symbol table, string
  pool and code (`Bytefile::try_from`).
- `src/syntax.rs` holds the instruction set and `Code`, a cursor that decodes one
  instruction at a time, or the one at a given offset.
- `src/utils.rs` reads NUL-terminated strings and little-endian words.
- `src/inspector.rs` walks the code and counts each pair of an instruction and an
  instruction that may run right after it (`inspect_bytecode`).
- `src/render.rs` writes instructions as text; `src/report.rs` orders the counted
  pairs (most frequent first) and writes the report's lines.
- `app/main.rs` reads the file named on the command line and prints the report.

Four-byte operands in the code are read in the byte order of the machine that
runs the library (`from_ne_bytes`), as the Lama compiler writes them; the file
header is little-endian.

Every function of `src/` carries a contract over mathematical models (`Seq`,
`Map`, spec functions) and is proved by Verus, except three trusted wrappers of
std: `u32::from_ne_bytes` and `i32::from_ne_bytes` (whose results are stated in
terms of vstd's `endianness()`) and `std::str::from_utf8`.
