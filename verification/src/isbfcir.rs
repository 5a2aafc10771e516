//! The token form of a program as a value of its own.

use vstd::prelude::*;
use crate::optimizer::peephole::measure::lemma_optimized;
use crate::optimizer::peephole::optimize::{optimize, optimized};
use crate::optimizer::peephole::token::{
    ast_to_tokens, token_count, tokens_of, well_formed, Token,
};
use crate::parser::AST;

verus! {

/// The token form of a program.
#[derive(Debug)]
pub struct IsbfcIR {
    /// The tokens, in the order of the program.
    pub tokens: Vec<Token>,
}

impl IsbfcIR {
    /// The token form of a parsed program.
    pub fn from_ast(ast: Vec<AST>) -> (ir: Self)
        ensures
            ir.tokens.deep_view() == tokens_of(ast.deep_view()),
    {
        let nodes = ast.as_slice();
        assert(nodes.deep_view() =~= ast.deep_view());
        IsbfcIR { tokens: ast_to_tokens(nodes) }
    }

    /// The optimized token form: the peephole pass is repeated until it
    /// changes nothing, with a bound on the number of passes.
    pub fn optimize(&self) -> (ir: IsbfcIR)
        requires
            well_formed(self.tokens.deep_view()),
            token_count(self.tokens.deep_view()) <= usize::MAX,
        ensures
            ir.tokens.deep_view() == optimized(self.tokens.deep_view()),
            well_formed(ir.tokens.deep_view()),
            token_count(ir.tokens.deep_view()) <= token_count(self.tokens.deep_view()),
    {
        proof {
            lemma_optimized(self.tokens.deep_view());
        }
        let tokens = self.tokens.as_slice();
        assert(tokens.deep_view() =~= self.tokens.deep_view());
        IsbfcIR { tokens: optimize(tokens) }
    }
}

} // verus!
