//! Decoding and control-flow inspection of Lama bytecode files.

pub mod bytecode;
pub mod errors;
pub mod inspector;
pub mod render;
pub mod report;
pub mod syntax;
pub mod utils;
