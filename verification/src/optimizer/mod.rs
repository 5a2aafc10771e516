//! The optimizers: each turns a parsed program into a low-level instruction
//! list. They are chosen by name; at level 0 each of them is the baseline
//! lowering.

use vstd::prelude::*;
use vstd::string::*;
use crate::lir::{SpecLIR, LIR};
use crate::optimizer::dumpir::{
    dump_ir, dump_lir, dump_steps, dump_tokens, gathered_dump, ir_dump, lir_dump, tokens_dump,
};
use crate::optimizer::laws::{
    lemma_new_well_formed, lemma_old_well_formed, lemma_simple_add_well_formed,
    lemma_simple_well_formed,
};
use crate::optimizer::new::optimize_expr::new_ir;
use crate::optimizer::new::{new_lir, NewOptimizer};
use crate::optimizer::peephole::optimize::optimized;
use crate::optimizer::peephole::token::{
    ast_to_tokens, lemma_tokens_of_size, lemma_tokens_of_well_formed, tokens_of,
};
use crate::optimizer::peephole::{old_lir, OldOptimizer};
use crate::optimizer::simple::{lemma_count_loops_bounded, simple_lir, SimpleOptimizer};
use crate::optimizer::simple_add::{gathered_ir, simple_add_lir, SimpleAddOptimizer};
use crate::parser::{ast_size, SpecAST, AST, MAX_AST_NODES};
use crate::wellformed::lir_well_formed;

pub mod dumpir;
pub mod laws;
pub mod new;
pub mod peephole;
pub mod simple;
pub mod simple_add;

verus! {

/// What every optimizer offers.
pub trait Optimizer {
    /// The instruction list that the optimizer gives for a program at a
    /// level.
    spec fn lir_of(&self, ast: Seq<SpecAST>, level: u32) -> Seq<SpecLIR>;

    /// Lowers a program. At level 0 the result is the baseline lowering,
    /// whatever the optimizer.
    fn optimize(&self, ast: &[AST], level: u32) -> (lir: Vec<LIR>)
        requires
            ast_size(ast.deep_view()) <= MAX_AST_NODES,
        ensures
            lir.deep_view() == self.lir_of(ast.deep_view(), level),
            level == 0 ==> lir.deep_view() == simple_lir(ast.deep_view()),
            lir_well_formed(lir.deep_view()),
    ;

    /// The dump of the form that the optimizer works on, for a program at a
    /// level.
    spec fn dump_of(&self, ast: Seq<SpecAST>, level: u32) -> Seq<char>;

    /// Dumps the form that the optimizer works on. At level 0 that is the
    /// instruction list of the baseline lowering, whatever the optimizer.
    fn dumpir(&self, ast: &[AST], level: u32) -> (text: String)
        requires
            ast_size(ast.deep_view()) <= MAX_AST_NODES,
        ensures
            text@ == self.dump_of(ast.deep_view(), level),
            level == 0 ==> text@ == lir_dump(simple_lir(ast.deep_view())),
    ;
}

/// The dump of an optimizer whose own form dumps as `own`: at level 0 the
/// dump of the baseline lowering.
pub open spec fn leveled_dump(ast: Seq<SpecAST>, level: u32, own: Seq<char>) -> Seq<char> {
    if level == 0 {
        lir_dump(simple_lir(ast))
    } else {
        own
    }
}

/// The dump of the baseline lowering of a program.
fn dump_simple(ast: &[AST]) -> (text: String)
    requires
        ast_size(ast.deep_view()) <= MAX_AST_NODES,
    ensures
        text@ == lir_dump(simple_lir(ast.deep_view())),
{
    proof {
        lemma_count_loops_bounded(ast.deep_view());
    }
    let lir = simple::optimize(ast);
    dump_lir(lir.as_slice())
}

/// The instruction list of the baseline and of the gathering optimizer: at
/// level 0 the baseline lowering.
pub open spec fn leveled(ast: Seq<SpecAST>, level: u32, lir: Seq<SpecLIR>) -> Seq<SpecLIR> {
    if level == 0 {
        simple_lir(ast)
    } else {
        lir
    }
}

impl Optimizer for SimpleOptimizer {
    open spec fn lir_of(&self, ast: Seq<SpecAST>, level: u32) -> Seq<SpecLIR> {
        simple_lir(ast)
    }

    fn optimize(&self, ast: &[AST], level: u32) -> (lir: Vec<LIR>) {
        proof {
            lemma_count_loops_bounded(ast.deep_view());
            lemma_simple_well_formed(ast.deep_view());
        }
        simple::optimize(ast)
    }

    open spec fn dump_of(&self, ast: Seq<SpecAST>, level: u32) -> Seq<char> {
        lir_dump(simple_lir(ast))
    }

    fn dumpir(&self, ast: &[AST], level: u32) -> (text: String) {
        dump_simple(ast)
    }
}

impl Optimizer for SimpleAddOptimizer {
    open spec fn lir_of(&self, ast: Seq<SpecAST>, level: u32) -> Seq<SpecLIR> {
        leveled(ast, level, simple_add_lir(ast))
    }

    fn optimize(&self, ast: &[AST], level: u32) -> (lir: Vec<LIR>) {
        proof {
            lemma_count_loops_bounded(ast.deep_view());
            lemma_simple_well_formed(ast.deep_view());
            lemma_simple_add_well_formed(ast.deep_view());
        }
        if level == 0 {
            simple::optimize(ast)
        } else {
            simple_add::optimize(ast)
        }
    }

    open spec fn dump_of(&self, ast: Seq<SpecAST>, level: u32) -> Seq<char> {
        leveled_dump(ast, level, gathered_dump(gathered_ir(ast)))
    }

    fn dumpir(&self, ast: &[AST], level: u32) -> (text: String) {
        if level == 0 {
            dump_simple(ast)
        } else {
            let ir = simple_add::ast_to_ir(ast);
            dump_steps(ir.as_slice())
        }
    }
}

impl Optimizer for OldOptimizer {
    open spec fn lir_of(&self, ast: Seq<SpecAST>, level: u32) -> Seq<SpecLIR> {
        old_lir(ast, level)
    }

    fn optimize(&self, ast: &[AST], level: u32) -> (lir: Vec<LIR>) {
        proof {
            lemma_old_well_formed(ast.deep_view(), level);
        }
        OldOptimizer::optimize(self, ast, level)
    }

    open spec fn dump_of(&self, ast: Seq<SpecAST>, level: u32) -> Seq<char> {
        leveled_dump(ast, level, tokens_dump(optimized(tokens_of(ast))))
    }

    fn dumpir(&self, ast: &[AST], level: u32) -> (text: String) {
        if level == 0 {
            dump_simple(ast)
        } else {
            proof {
                lemma_tokens_of_size(ast.deep_view());
                lemma_tokens_of_well_formed(ast.deep_view());
            }
            let tokens = ast_to_tokens(ast);
            let tokens = peephole::optimize::optimize(tokens.as_slice());
            dump_tokens(tokens.as_slice())
        }
    }
}

impl Optimizer for NewOptimizer {
    open spec fn lir_of(&self, ast: Seq<SpecAST>, level: u32) -> Seq<SpecLIR> {
        new_lir(ast, level)
    }

    fn optimize(&self, ast: &[AST], level: u32) -> (lir: Vec<LIR>) {
        proof {
            lemma_new_well_formed(ast.deep_view(), level);
        }
        NewOptimizer::optimize(self, ast, level)
    }

    open spec fn dump_of(&self, ast: Seq<SpecAST>, level: u32) -> Seq<char> {
        leveled_dump(ast, level, ir_dump(new_ir(ast)))
    }

    fn dumpir(&self, ast: &[AST], level: u32) -> (text: String) {
        if level == 0 {
            dump_simple(ast)
        } else {
            let ir = new::optimize_expr::optimize(ast);
            dump_ir(ir.as_slice())
        }
    }
}

/// The optimizers by kind.
#[derive(Clone, Copy, Debug, PartialEq, Eq, Structural)]
pub enum OptimizerKind {
    Simple,
    SimpleAdd,
    Old,
    New,
}

/// The name that an optimizer is chosen by.
pub open spec fn kind_name(kind: OptimizerKind) -> Seq<char> {
    match kind {
        OptimizerKind::Simple => "simple"@,
        OptimizerKind::SimpleAdd => "simple_add"@,
        OptimizerKind::Old => "old"@,
        OptimizerKind::New => "new"@,
    }
}

/// The optimizer of a name, if the name is one of the four.
pub open spec fn kind_of_name(name: Seq<char>) -> Option<OptimizerKind> {
    if name == "simple"@ {
        Some(OptimizerKind::Simple)
    } else if name == "simple_add"@ {
        Some(OptimizerKind::SimpleAdd)
    } else if name == "old"@ {
        Some(OptimizerKind::Old)
    } else if name == "new"@ {
        Some(OptimizerKind::New)
    } else {
        None
    }
}

/// The names of the optimizers, in the order in which they are listed.
pub fn optimizer_names() -> (names: Vec<&'static str>)
    ensures
        names@.len() == 4,
        names@[0]@ == kind_name(OptimizerKind::Simple),
        names@[1]@ == kind_name(OptimizerKind::SimpleAdd),
        names@[2]@ == kind_name(OptimizerKind::Old),
        names@[3]@ == kind_name(OptimizerKind::New),
{
    let mut names: Vec<&'static str> = Vec::new();
    names.push("simple");
    names.push("simple_add");
    names.push("old");
    names.push("new");
    names
}

impl OptimizerKind {
    /// The optimizer that is chosen by `name`.
    pub fn by_name(name: &str) -> (kind: Option<OptimizerKind>)
        ensures
            kind == kind_of_name(name@),
    {
        let name = String::from_str(name);
        if name == String::from_str("simple") {
            Some(OptimizerKind::Simple)
        } else if name == String::from_str("simple_add") {
            Some(OptimizerKind::SimpleAdd)
        } else if name == String::from_str("old") {
            Some(OptimizerKind::Old)
        } else if name == String::from_str("new") {
            Some(OptimizerKind::New)
        } else {
            None
        }
    }

    /// The name that the optimizer is chosen by.
    pub fn name(self) -> (name: &'static str)
        ensures
            name@ == kind_name(self),
    {
        match self {
            OptimizerKind::Simple => "simple",
            OptimizerKind::SimpleAdd => "simple_add",
            OptimizerKind::Old => "old",
            OptimizerKind::New => "new",
        }
    }
}

impl Optimizer for OptimizerKind {
    open spec fn lir_of(&self, ast: Seq<SpecAST>, level: u32) -> Seq<SpecLIR> {
        match *self {
            OptimizerKind::Simple => simple_lir(ast),
            OptimizerKind::SimpleAdd => leveled(ast, level, simple_add_lir(ast)),
            OptimizerKind::Old => old_lir(ast, level),
            OptimizerKind::New => new_lir(ast, level),
        }
    }

    fn optimize(&self, ast: &[AST], level: u32) -> (lir: Vec<LIR>) {
        proof {
            lemma_old_well_formed(ast.deep_view(), level);
            lemma_new_well_formed(ast.deep_view(), level);
        }
        match self {
            OptimizerKind::Simple => SimpleOptimizer.optimize(ast, level),
            OptimizerKind::SimpleAdd => SimpleAddOptimizer.optimize(ast, level),
            OptimizerKind::Old => OldOptimizer.optimize(ast, level),
            OptimizerKind::New => NewOptimizer.optimize(ast, level),
        }
    }

    open spec fn dump_of(&self, ast: Seq<SpecAST>, level: u32) -> Seq<char> {
        match *self {
            OptimizerKind::Simple => lir_dump(simple_lir(ast)),
            OptimizerKind::SimpleAdd => leveled_dump(ast, level, gathered_dump(gathered_ir(ast))),
            OptimizerKind::Old => leveled_dump(
                ast,
                level,
                tokens_dump(optimized(tokens_of(ast))),
            ),
            OptimizerKind::New => leveled_dump(ast, level, ir_dump(new_ir(ast))),
        }
    }

    fn dumpir(&self, ast: &[AST], level: u32) -> (text: String) {
        match self {
            OptimizerKind::Simple => SimpleOptimizer.dumpir(ast, level),
            OptimizerKind::SimpleAdd => SimpleAddOptimizer.dumpir(ast, level),
            OptimizerKind::Old => OldOptimizer.dumpir(ast, level),
            OptimizerKind::New => NewOptimizer.dumpir(ast, level),
        }
    }
}

} // verus!
