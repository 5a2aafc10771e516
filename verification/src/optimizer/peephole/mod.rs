//! The token-based peephole optimizer.

use vstd::prelude::*;
use crate::lir::{SpecLIR, LIR};
use crate::optimizer::peephole::compile::compiled;
use crate::optimizer::peephole::measure::lemma_optimized;
use crate::optimizer::peephole::optimize::optimized;
use crate::optimizer::peephole::token::{
    ast_to_tokens, lemma_tokens_of_size, lemma_tokens_of_well_formed, tokens_of,
};
use crate::optimizer::simple::{lemma_count_loops_bounded, simple_lir};
use crate::parser::{ast_size, SpecAST, AST, MAX_AST_NODES};

pub mod compile;
pub mod measure;
pub mod optimize;
pub mod optimize_state;
pub mod token;

verus! {

/// The optimizer that rewrites the token form of a program.
pub struct OldOptimizer;

/// The instruction list that the peephole optimizer gives for a program: at
/// level 0 the baseline lowering, else the lowering of the optimized tokens.
pub open spec fn old_lir(ast: Seq<SpecAST>, level: u32) -> Seq<SpecLIR> {
    if level == 0 {
        simple_lir(ast)
    } else {
        compiled(optimized(tokens_of(ast)))
    }
}

impl OldOptimizer {
    /// Lowers a program, through the optimized token form unless the level
    /// is 0.
    pub fn optimize(&self, ast: &[AST], level: u32) -> (lir: Vec<LIR>)
        requires
            ast_size(ast.deep_view()) <= MAX_AST_NODES,
        ensures
            lir.deep_view() == old_lir(ast.deep_view(), level),
    {
        if level == 0 {
            proof {
                lemma_count_loops_bounded(ast.deep_view());
            }
            crate::optimizer::simple::optimize(ast)
        } else {
            proof {
                lemma_tokens_of_size(ast.deep_view());
                lemma_tokens_of_well_formed(ast.deep_view());
                lemma_optimized(tokens_of(ast.deep_view()));
            }
            let tokens = ast_to_tokens(ast);
            let tokens = optimize::optimize(tokens.as_slice());
            compile::compile(tokens.as_slice())
        }
    }
}

} // verus!
