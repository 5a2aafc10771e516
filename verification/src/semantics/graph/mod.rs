//! The graph-based optimizer keeps the behaviour of a program in which no
//! flat loop sets a cell to a constant.
//!
//! A graph computes values over the state in which its block begins
//! (`graphs`); simplifying, moving and appending graphs keep what they
//! compute (`simplifying`, `extending`), and the graph of a flat loop
//! computes what the loop does (`flattening`). No committed graph copies a
//! cell (`safety`). The intermediate form means what the token form of the
//! program means (`steps`, `blocks`), and its instruction list does what
//! the steps mean (`registers`, `emitting`).

pub mod blocks;
pub mod emitting;
pub mod extending;
pub mod flattening;
pub mod graphs;
pub mod registers;
pub mod safety;
pub mod simplifying;
pub mod steps;
