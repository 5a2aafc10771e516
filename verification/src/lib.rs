//! An optimizing Brainfuck compiler core: parser, optimizers and the
//! low-level instruction list they produce.

pub mod codegen;
pub mod compiler;
pub mod dump;
pub mod elf;
pub mod isbfcir;
pub mod lir;
pub mod offset_map;
pub mod optimizer;
pub mod parser;
pub mod roundtrip;
pub mod semantics;
pub mod text;
pub mod wellformed;
