//! The meaning of instruction lists, and what the optimizers keep of it.
//!
//! An instruction list runs on a machine (`machine`); a structured program
//! is an instruction list whose loops are known (`structured`,
//! `programs`). Each optimizer is held against the baseline lowering:
//! the gathering optimizer in `gathering`, the peephole optimizer in
//! `peephole`, the graph-based optimizer in `graph`. What is kept is
//! stated in `laws`.

pub mod gathering;
pub mod graph;
pub mod laws;
pub mod machine;
pub mod peephole;
pub mod programs;
pub mod structured;
