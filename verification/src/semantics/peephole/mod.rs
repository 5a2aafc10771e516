//! The peephole optimizer keeps the behaviour of a program.
//!
//! The token form of a program means what the baseline lowering does
//! (`tokens`, `tokenize`); the pass over the tokens keeps what they mean
//! (`pending`, `passes`, `loops`, `rewriting`) and keeps output written in
//! time (`closedness`); and the instruction list of a token sequence does
//! what the tokens mean (`lowering`).

pub mod closedness;
pub mod loops;
pub mod lowering;
pub mod passes;
pub mod pending;
pub mod rewriting;
pub mod tokenize;
pub mod tokens;
