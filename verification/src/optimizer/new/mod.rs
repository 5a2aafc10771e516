//! The optimizer that works on an expression graph per basic block.

use vstd::prelude::*;
use crate::lir::{SpecLIR, LIR};
use crate::optimizer::new::compile::lowered;
use crate::optimizer::new::optimize_expr::new_ir;
use crate::optimizer::simple::{lemma_count_loops_bounded, simple_lir};
use crate::parser::{ast_size, SpecAST, AST, MAX_AST_NODES};

pub mod compile;
pub mod dag;
pub mod ir;
pub mod optimize_expr;

verus! {

/// The optimizer that builds an expression graph for each basic block.
pub struct NewOptimizer;

/// The instruction list that the graph-based optimizer gives for a program:
/// at level 0 the baseline lowering, else the lowering of the intermediate
/// form.
pub open spec fn new_lir(ast: Seq<SpecAST>, level: u32) -> Seq<SpecLIR> {
    if level == 0 {
        simple_lir(ast)
    } else {
        lowered(new_ir(ast))
    }
}

impl NewOptimizer {
    /// Lowers a program, through the expression graphs of its blocks unless
    /// the level is 0.
    pub fn optimize(&self, ast: &[AST], level: u32) -> (lir: Vec<LIR>)
        requires
            ast_size(ast.deep_view()) <= MAX_AST_NODES,
        ensures
            lir.deep_view() == new_lir(ast.deep_view(), level),
    {
        if level == 0 {
            proof {
                lemma_count_loops_bounded(ast.deep_view());
            }
            crate::optimizer::simple::optimize(ast)
        } else {
            let ir = optimize_expr::optimize(ast);
            compile::ir_to_lir(ir.as_slice())
        }
    }
}

} // verus!
