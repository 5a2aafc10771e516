//! The backends: each renders an instruction list as the text of a program.

pub mod c_codegen;
pub mod native;
