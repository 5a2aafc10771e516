//! What holds of every instruction list that an optimizer gives: every
//! label is defined once, every jump has its label, and every register is
//! defined once.

use vstd::prelude::*;
use crate::lir::{inputbuf, strbuf, SpecLIR, SpecRVal};
use crate::optimizer::new::compile::{
    count_regs, expr_lir, flush_lir, ir_pos, ir_regs, lemma_ir_counts_bounded, lower_block,
    lower_ir, lower_step, lowered, no_numbers, node_lir, nodes_lir, numbers_after, shift_lir,
    step_loops, step_regs, terminals_lir, SpecNumbers,
};
use crate::optimizer::new::dag::{SpecDAG, Value};
use crate::optimizer::new::ir::SpecIR;
use crate::optimizer::new::new_lir;
use crate::optimizer::new::optimize_expr::{lemma_block_result_weight, new_ir};
use crate::optimizer::peephole::compile::{
    compiled, counters_after, ifs_in, lemma_counts_bounded, loops_in, lower_token, lower_tokens,
    no_counters, out_pos, regs_in, regs_of, SpecCounters,
};
use crate::optimizer::peephole::measure::lemma_optimized;
use crate::optimizer::peephole::old_lir;
use crate::optimizer::peephole::optimize::optimized;
use crate::optimizer::peephole::token::{
    lemma_tokens_of_size, lemma_tokens_of_well_formed, tokens_of, SpecToken,
};
use crate::optimizer::simple::{
    count_loops, loop_head, loop_tail, simple_lir, simple_lower, simple_node,
};
use crate::optimizer::simple_add::{
    count_ir_loops, gathered_ir, lower_step as lower_gathered_step, lower_steps, simple_add_lir,
    SpecSimpleAddIR,
};
use crate::parser::{ast_size, SpecAST, MAX_AST_NODES};
use crate::wellformed::{
    closed, lemma_closed_concat, lemma_closed_def, lemma_closed_if, lemma_closed_loop,
    lemma_closed_plain, lir_well_formed, Ranges,
};

verus! {

/// The ranges that hold the loops `(lo, hi]` and nothing else.
pub open spec fn loops_only(lo: nat, hi: nat) -> Ranges {
    Ranges { lo, hi, ilo: 0, ihi: 0, rlo: 0, rhi: 0 }
}

/// The number of loops of one command, its body included.
pub open spec fn node_loops(node: SpecAST) -> nat {
    match node {
        SpecAST::Loop(body) => 1 + count_loops(body),
        _ => 0,
    }
}

/// The baseline instructions of a sequence of commands are closed within
/// the loop numbers that follow `n`.
pub proof fn lemma_simple_lower_closed(ast: Seq<SpecAST>, n: nat)
    ensures
        closed(simple_lower(ast, n), loops_only(n, n + count_loops(ast))),
    decreases ast, 1nat,
{
    if ast.len() == 0 {
        lemma_closed_plain(simple_lower(ast, n), loops_only(n, n));
    } else {
        let m = n + count_loops(ast.drop_last());
        lemma_simple_lower_closed(ast.drop_last(), n);
        lemma_simple_node_closed(ast.last(), m);
        lemma_closed_concat(
            simple_lower(ast.drop_last(), n),
            simple_node(ast.last(), m),
            loops_only(n, m),
            loops_only(m, m + node_loops(ast.last())),
        );
    }
}

/// The baseline instructions of one command are closed within the loop
/// numbers that follow `n`.
pub proof fn lemma_simple_node_closed(node: SpecAST, n: nat)
    ensures
        closed(simple_node(node, n), loops_only(n, n + node_loops(node))),
    decreases node, 0nat,
{
    match node {
        SpecAST::Loop(body) => {
            lemma_simple_lower_closed(body, n + 1);
            lemma_closed_loop(
                simple_lower(body, n + 1),
                n + 1,
                loops_only(n + 1, n + 1 + count_loops(body)),
            );
        },
        _ => {
            lemma_closed_plain(simple_node(node, n), loops_only(n, n));
        },
    }
}

/// The baseline lowering of any program is well formed.
pub proof fn lemma_simple_well_formed(ast: Seq<SpecAST>)
    ensures
        lir_well_formed(simple_lir(ast)),
{
    let head = seq![SpecLIR::DeclareBssBuf(strbuf(), 1)];
    lemma_closed_plain(head, loops_only(0, 0));
    lemma_simple_lower_closed(ast, 0);
    lemma_closed_concat(
        head,
        simple_lower(ast, 0),
        loops_only(0, 0),
        loops_only(0, count_loops(ast)),
    );
}

/// The number of loops of one gathered step, its body included.
pub open spec fn step_loops_gathered(step: SpecSimpleAddIR) -> nat {
    match step {
        SpecSimpleAddIR::Loop(body) => 1 + count_ir_loops(body),
        _ => 0,
    }
}

/// The instructions of a gathered form are closed within the loop numbers
/// that follow `n`.
pub proof fn lemma_lower_steps_closed(ir: Seq<SpecSimpleAddIR>, n: nat)
    ensures
        closed(lower_steps(ir, n), loops_only(n, n + count_ir_loops(ir))),
    decreases ir, 1nat,
{
    if ir.len() == 0 {
        lemma_closed_plain(lower_steps(ir, n), loops_only(n, n));
    } else {
        let m = n + count_ir_loops(ir.drop_last());
        lemma_lower_steps_closed(ir.drop_last(), n);
        lemma_lower_step_closed(ir.last(), m);
        lemma_closed_concat(
            lower_steps(ir.drop_last(), n),
            lower_gathered_step(ir.last(), m),
            loops_only(n, m),
            loops_only(m, m + step_loops_gathered(ir.last())),
        );
    }
}

/// The instructions of one gathered step are closed within the loop
/// numbers that follow `n`.
pub proof fn lemma_lower_step_closed(step: SpecSimpleAddIR, n: nat)
    ensures
        closed(lower_gathered_step(step, n), loops_only(n, n + step_loops_gathered(step))),
    decreases step, 0nat,
{
    match step {
        SpecSimpleAddIR::Loop(body) => {
            lemma_lower_steps_closed(body, n + 1);
            lemma_closed_loop(
                lower_steps(body, n + 1),
                n + 1,
                loops_only(n + 1, n + 1 + count_ir_loops(body)),
            );
        },
        _ => {
            lemma_closed_plain(lower_gathered_step(step, n), loops_only(n, n));
        },
    }
}

/// The instruction list of the gathering optimizer is well formed for any
/// program.
pub proof fn lemma_simple_add_well_formed(ast: Seq<SpecAST>)
    ensures
        lir_well_formed(simple_add_lir(ast)),
{
    let head = seq![SpecLIR::DeclareBssBuf(strbuf(), 1)];
    let ir = gathered_ir(ast);
    lemma_closed_plain(head, loops_only(0, 0));
    lemma_lower_steps_closed(ir, 0);
    lemma_closed_concat(
        head,
        lower_steps(ir, 0),
        loops_only(0, 0),
        loops_only(0, count_ir_loops(ir)),
    );
}

/// The ranges from the counters `a` to the counters `b`.
pub open spec fn span(a: SpecCounters, b: SpecCounters) -> Ranges {
    Ranges { lo: a.loops, hi: b.loops, ilo: a.ifs, ihi: b.ifs, rlo: a.regs, rhi: b.regs }
}

/// The counters after one token.
pub open spec fn after_token(c: SpecCounters, token: SpecToken) -> SpecCounters {
    SpecCounters {
        loops: c.loops + loops_in(token),
        ifs: c.ifs + ifs_in(token),
        regs: c.regs + regs_in(token),
    }
}

/// The instructions of a token sequence are closed within the numbers that
/// the sequence takes.
pub proof fn lemma_lower_tokens_closed(tokens: Seq<SpecToken>, c: SpecCounters)
    requires
        c.regs + regs_of(tokens) <= u32::MAX,
    ensures
        closed(lower_tokens(tokens, c), span(c, counters_after(c, tokens))),
    decreases tokens, 1nat,
{
    if tokens.len() == 0 {
        lemma_closed_plain(lower_tokens(tokens, c), span(c, c));
    } else {
        let m = counters_after(c, tokens.drop_last());
        lemma_lower_tokens_closed(tokens.drop_last(), c);
        lemma_lower_token_closed(tokens.last(), m, out_pos(tokens.drop_last()));
        lemma_closed_concat(
            lower_tokens(tokens.drop_last(), c),
            lower_token(tokens.last(), m, out_pos(tokens.drop_last())),
            span(c, m),
            span(m, after_token(m, tokens.last())),
        );
    }
}

/// The instructions of one token are closed within the numbers that the
/// token takes.
pub proof fn lemma_lower_token_closed(token: SpecToken, c: SpecCounters, pos: nat)
    requires
        c.regs + regs_in(token) <= u32::MAX,
    ensures
        closed(lower_token(token, c, pos), span(c, after_token(c, token))),
    decreases token, 0nat,
{
    let lir = lower_token(token, c, pos);
    match token {
        SpecToken::Loop(body) => {
            let inner = SpecCounters { loops: c.loops + 1, ..c };
            lemma_lower_tokens_closed(body, inner);
            lemma_closed_loop(
                lower_tokens(body, inner),
                c.loops + 1,
                span(inner, counters_after(inner, body)),
            );
        },
        SpecToken::If(o, body) => {
            let inner = SpecCounters { ifs: c.ifs + 1, ..c };
            lemma_lower_tokens_closed(body, inner);
            lemma_closed_if(
                lower_tokens(body, inner),
                SpecRVal::Tape(o),
                c.ifs + 1,
                span(inner, counters_after(inner, body)),
            );
        },
        SpecToken::Scan(k) => {
            let inner = SpecCounters { loops: c.loops + 1, ..c };
            lemma_closed_plain(seq![SpecLIR::Shift(k)], span(inner, inner));
            lemma_closed_loop(seq![SpecLIR::Shift(k)], c.loops + 1, span(inner, inner));
        },
        SpecToken::MulCopy(_, _, _) => {
            lemma_closed_def(lir, c.regs, span(c, after_token(c, token)));
        },
        SpecToken::LoadOut(_, _) => {
            lemma_closed_def(lir, c.regs, span(c, after_token(c, token)));
        },
        _ => {
            lemma_closed_plain(lir, span(c, c));
        },
    }
}

/// The instruction list of a token sequence is well formed, if the
/// registers that it takes can be numbered.
pub proof fn lemma_compiled_well_formed(tokens: Seq<SpecToken>)
    requires
        regs_of(tokens) <= u32::MAX,
    ensures
        lir_well_formed(compiled(tokens)),
{
    let c = no_counters();
    let end = counters_after(c, tokens);
    let tail = seq![
        SpecLIR::DeclareBssBuf(strbuf(), crate::optimizer::peephole::compile::out_size(tokens)
            as usize),
        SpecLIR::DeclareBssBuf(inputbuf(), 1),
    ];
    lemma_lower_tokens_closed(tokens, c);
    lemma_closed_plain(tail, span(end, end));
    lemma_closed_concat(lower_tokens(tokens, c), tail, span(c, end), span(end, end));
}

/// The ranges from the numbers `a` to the numbers `b`.
pub open spec fn reach(a: SpecNumbers, b: SpecNumbers) -> Ranges {
    Ranges { lo: a.loops, hi: b.loops, ilo: 0, ihi: 0, rlo: a.regs, rhi: b.regs }
}

/// The numbers after one step.
pub open spec fn after_step(c: SpecNumbers, step: SpecIR) -> SpecNumbers {
    SpecNumbers { loops: c.loops + step_loops(step), regs: c.regs + step_regs(step) }
}

/// The instructions that compute the first `n` nodes of a graph are closed
/// within the registers that those nodes take.
pub proof fn lemma_nodes_lir_closed(nodes: Seq<Value>, n: int, c: SpecNumbers)
    requires
        0 <= n,
        c.regs + count_regs(nodes, n) <= u32::MAX,
    ensures
        closed(
            nodes_lir(nodes, n, c.regs),
            reach(c, SpecNumbers { regs: c.regs + count_regs(nodes, n), ..c }),
        ),
    decreases n,
{
    if n == 0 {
        lemma_closed_plain(nodes_lir(nodes, n, c.regs), reach(c, c));
    } else {
        let m = SpecNumbers { regs: c.regs + count_regs(nodes, n - 1), ..c };
        let e = SpecNumbers { regs: c.regs + count_regs(nodes, n), ..c };
        lemma_nodes_lir_closed(nodes, n - 1, c);
        let one = node_lir(nodes, n - 1, c.regs);
        match nodes[n - 1] {
            Value::Multiply(_, _) => {
                lemma_closed_def(one, m.regs, reach(m, e));
            },
            Value::Add(_, _) => {
                lemma_closed_def(one, m.regs, reach(m, e));
            },
            _ => {
                lemma_closed_plain(one, reach(m, e));
            },
        }
        lemma_closed_concat(nodes_lir(nodes, n - 1, c.regs), one, reach(c, m), reach(m, e));
    }
}

/// The instructions of a graph are closed within the registers that the
/// graph takes.
pub proof fn lemma_expr_lir_closed(d: SpecDAG, c: SpecNumbers)
    requires
        c.regs + count_regs(d.nodes, d.nodes.len() as int) <= u32::MAX,
    ensures
        closed(expr_lir(d, c.regs), reach(c, after_step(c, SpecIR::Expr(d)))),
{
    let e = after_step(c, SpecIR::Expr(d));
    lemma_nodes_lir_closed(d.nodes, d.nodes.len() as int, c);
    lemma_closed_plain(terminals_lir(d, c.regs), reach(e, e));
    lemma_closed_concat(
        nodes_lir(d.nodes, d.nodes.len() as int, c.regs),
        terminals_lir(d, c.regs),
        reach(c, e),
        reach(e, e),
    );
}

/// The instructions of a sequence of steps are closed within the numbers
/// that the sequence takes.
pub proof fn lemma_lower_ir_closed(ir: Seq<SpecIR>, c: SpecNumbers)
    requires
        c.regs + ir_regs(ir) <= u32::MAX,
    ensures
        closed(lower_ir(ir, c), reach(c, numbers_after(c, ir))),
        closed(lower_block(ir, c), reach(c, numbers_after(c, ir))),
    decreases ir, 1nat,
{
    let e = numbers_after(c, ir);
    if ir.len() == 0 {
        lemma_closed_plain(lower_ir(ir, c), reach(c, c));
    } else {
        let m = numbers_after(c, ir.drop_last());
        lemma_lower_ir_closed(ir.drop_last(), c);
        lemma_lower_step_ir_closed(ir.last(), m, ir_pos(ir.drop_last()));
        lemma_closed_concat(
            lower_ir(ir.drop_last(), c),
            lower_step(ir.last(), m, ir_pos(ir.drop_last())),
            reach(c, m),
            reach(m, after_step(m, ir.last())),
        );
    }
    lemma_closed_plain(flush_lir(ir_pos(ir)), reach(e, e));
    lemma_closed_concat(lower_ir(ir, c), flush_lir(ir_pos(ir)), reach(c, e), reach(e, e));
}

/// The instructions of one step are closed within the numbers that the
/// step takes.
pub proof fn lemma_lower_step_ir_closed(step: SpecIR, c: SpecNumbers, pos: nat)
    requires
        c.regs + step_regs(step) <= u32::MAX,
    ensures
        closed(lower_step(step, c, pos), reach(c, after_step(c, step))),
    decreases step, 0nat,
{
    let lir = lower_step(step, c, pos);
    let e = after_step(c, step);
    match step {
        SpecIR::Loop(offset, body, end_shift) => {
            let inner = SpecNumbers { loops: c.loops + 1, ..c };
            lemma_lower_ir_closed(body, inner);
            let block = lower_block(body, inner);
            let back = shift_lir(end_shift);
            lemma_closed_plain(back, reach(e, e));
            lemma_closed_concat(block, back, reach(inner, e), reach(e, e));
            lemma_closed_loop(block + back, c.loops + 1, reach(inner, e));
            let before = flush_lir(pos) + shift_lir(offset);
            lemma_closed_plain(before, reach(c, c));
            let wrapped = loop_head(c.loops + 1) + (block + back) + loop_tail(c.loops + 1);
            lemma_closed_concat(before, wrapped, reach(c, c), reach(c, e));
            assert(lir =~= before + wrapped);
        },
        SpecIR::Expr(d) => {
            lemma_expr_lir_closed(d, c);
        },
        _ => {
            lemma_closed_plain(lir, reach(c, c));
        },
    }
}

/// The instruction list of an intermediate form is well formed, if the
/// registers that it takes can be numbered.
pub proof fn lemma_lowered_well_formed(ir: Seq<SpecIR>)
    requires
        ir_regs(ir) <= u32::MAX,
    ensures
        lir_well_formed(lowered(ir)),
{
    let c = no_numbers();
    let end = numbers_after(c, ir);
    let tail = seq![
        SpecLIR::DeclareBssBuf(strbuf(), crate::optimizer::new::compile::block_out_size(ir)
            as usize),
        SpecLIR::DeclareBssBuf(inputbuf(), 1),
    ];
    lemma_lower_ir_closed(ir, c);
    lemma_closed_plain(tail, reach(end, end));
    lemma_closed_concat(lower_block(ir, c), tail, reach(c, end), reach(end, end));
}

/// The instruction list that the peephole optimizer gives for a program of
/// at most `MAX_AST_NODES` nodes is well formed.
pub proof fn lemma_old_well_formed(ast: Seq<SpecAST>, level: u32)
    requires
        ast_size(ast) <= MAX_AST_NODES,
    ensures
        lir_well_formed(old_lir(ast, level)),
{
    if level == 0 {
        lemma_simple_well_formed(ast);
    } else {
        lemma_tokens_of_size(ast);
        lemma_tokens_of_well_formed(ast);
        lemma_optimized(tokens_of(ast));
        lemma_counts_bounded(optimized(tokens_of(ast)));
        lemma_compiled_well_formed(optimized(tokens_of(ast)));
    }
}

/// The instruction list that the graph-based optimizer gives for a program
/// of at most `MAX_AST_NODES` nodes is well formed.
pub proof fn lemma_new_well_formed(ast: Seq<SpecAST>, level: u32)
    requires
        ast_size(ast) <= MAX_AST_NODES,
    ensures
        lir_well_formed(new_lir(ast, level)),
{
    if level == 0 {
        lemma_simple_well_formed(ast);
    } else {
        lemma_block_result_weight(ast, true);
        lemma_ir_counts_bounded(new_ir(ast));
        lemma_lowered_well_formed(new_ir(ast));
    }
}

} // verus!
