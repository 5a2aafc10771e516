//! No graph that the graph-based optimizer commits copies a cell: a
//! terminal is never the tape at an offset that is not its own. So a
//! terminal can be written as soon as the nodes are computed, whatever
//! other terminals have been written before it.

use vstd::prelude::*;
use crate::offset_map::{lemma_lookup_with_entry, lemma_rank_from, lookup, rank};
use crate::optimizer::new::dag::{
    copies_cell, copies_within, dag_add, dag_add_node, dag_default_value, dag_extend,
    dag_get_node, dag_set, dag_shift, dag_simplify, dag_wf, empty_dag, extended_value,
    lemma_add_node, lemma_get_node, lemma_set, lemma_terminal_in_range, refers_below,
    simplify_terminals, Node, SpecDAG, Value,
};
use crate::optimizer::new::ir::SpecIR;
use crate::optimizer::new::optimize_expr::{
    block_fold, block_node, block_result, block_weighed, committed_ir, flat_body, flat_fold,
    lemma_block_fold_weight, lemma_flat_fold, node_size, SpecBlock,
};
use crate::parser::{ast_size, SpecAST, MAX_AST_NODES};
use crate::semantics::graph::extending::{lemma_extend_wf, lemma_shift_wf};
use crate::semantics::graph::flattening::lemma_lookup_entry;
use crate::semantics::peephole::pending::tcell_sound;
use crate::semantics::graph::simplifying::lemma_simplify_val;
use crate::semantics::peephole::tokens::start;

verus! {

/// Whether a value, as the terminal of `offset`, copies no other cell.
pub open spec fn own_value(value: Value, offset: i32) -> bool {
    match value {
        Value::Tape(from) => from == offset,
        _ => true,
    }
}

/// Whether a graph is well formed and no terminal of it copies another
/// cell.
pub open spec fn safe(d: SpecDAG) -> bool {
    dag_wf(d) && forall|k: i32| own_terminal(d, k)
}

/// Whether the terminal of `k`, if there is one, copies no other cell.
pub open spec fn own_terminal(d: SpecDAG, k: i32) -> bool {
    match lookup(d.terminals, k) {
        Some(n) => own_value(d.nodes[n.0 as int], k),
        None => true,
    }
}

/// Whether every step of a sequence, bodies included, is safe.
pub open spec fn ir_safe(ir: Seq<SpecIR>) -> bool
    decreases ir, 1nat,
{
    ir.len() == 0 || (ir_safe(ir.drop_last()) && step_safe(ir.last()))
}

/// Whether every graph of a step is safe, and what an output step loads is
/// a cell or a constant.
pub open spec fn step_safe(step: SpecIR) -> bool
    decreases step, 0nat,
{
    match step {
        SpecIR::Loop(_, body, _) => ir_safe(body),
        SpecIR::Expr(d) => safe(d),
        SpecIR::Output(v) => v is Tape || v is Immediate,
        SpecIR::Input(_) => true,
    }
}

/// One more safe step.
pub proof fn lemma_safe_push(ir: Seq<SpecIR>, step: SpecIR)
    requires
        ir_safe(ir),
        step_safe(step),
    ensures
        ir_safe(ir.push(step)),
{
    assert(ir.push(step).drop_last() =~= ir);
}

/// In a safe graph no terminal, taken by its index, copies another cell.
pub proof fn lemma_safe_index(d: SpecDAG, t: int)
    requires
        safe(d),
        0 <= t < d.terminals.len(),
    ensures
        !copies_cell(d, t),
{
    lemma_lookup_entry(d.terminals, t);
    assert(own_terminal(d, d.terminals[t].0));
}

/// A well-formed graph of which no terminal, taken by its index, copies
/// another cell is safe.
pub proof fn lemma_safe_by_index(d: SpecDAG)
    requires
        dag_wf(d),
        !copies_within(d, d.terminals.len() as int),
    ensures
        safe(d),
{
    assert forall|k: i32| own_terminal(d, k) by {
        lemma_rank_from(d.terminals, k, 0);
        let r = rank(d.terminals, k);
        if lookup(d.terminals, k) is Some {
            lemma_no_copy_at(d, d.terminals.len() as int, r);
        }
    }
}

proof fn lemma_no_copy_at(d: SpecDAG, n: int, t: int)
    requires
        !copies_within(d, n),
        0 <= t < n,
    ensures
        !copies_cell(d, t),
    decreases n,
{
    if t < n - 1 {
        lemma_no_copy_at(d, n - 1, t);
    }
}

/// A node more keeps a graph safe.
pub proof fn lemma_add_node_safe(d: SpecDAG, value: Value)
    requires
        safe(d),
        refers_below(value, d.nodes.len() as int),
        d.nodes.len() < usize::MAX,
    ensures
        safe(dag_add_node(d, value).0),
{
    lemma_add_node(d, value);
    let d1 = dag_add_node(d, value).0;
    assert forall|k: i32| own_terminal(d1, k) by {
        lemma_terminal_in_range(d, k);
        assert(own_terminal(d, k));
        if let Some(n) = lookup(d.terminals, k) {
            assert(d1.nodes.subrange(0, d.nodes.len() as int)[n.0 as int] == d1.nodes[n.0 as int]);
        }
    }
}

/// A terminal that copies no other cell keeps a graph safe.
pub proof fn lemma_set_safe(d: SpecDAG, offset: i32, value: Value)
    requires
        safe(d),
        refers_below(value, d.nodes.len() as int),
        d.nodes.len() < usize::MAX,
        own_value(value, offset),
    ensures
        safe(dag_set(d, offset, value)),
{
    lemma_add_node(d, value);
    lemma_add_node_safe(d, value);
    lemma_set(d, offset, value);
    let (d1, node) = dag_add_node(d, value);
    let d2 = dag_set(d, offset, value);
    assert forall|k: i32| own_terminal(d2, k) by {
        lemma_lookup_with_entry(d1.terminals, offset, node, k);
        assert(own_terminal(d1, k));
    }
}

/// Taking the node of an offset keeps a graph safe.
pub proof fn lemma_get_node_safe(d: SpecDAG, offset: i32)
    requires
        safe(d),
        d.nodes.len() < usize::MAX,
    ensures
        safe(dag_get_node(d, offset).0),
{
    if lookup(d.terminals, offset) is None {
        lemma_set_safe(d, offset, dag_default_value(d, offset));
    }
}

/// Adding a constant keeps a graph safe.
pub proof fn lemma_add_safe(d: SpecDAG, offset: i32, value: i32)
    requires
        safe(d),
        d.nodes.len() + 3 <= usize::MAX,
    ensures
        safe(dag_add(d, offset, value)),
{
    lemma_get_node(d, offset);
    lemma_get_node_safe(d, offset);
    let (d1, old_node) = dag_get_node(d, offset);
    assert(refers_below(d1.nodes[old_node.0 as int], old_node.0 as int));
    let folded = match d1.nodes[old_node.0 as int] {
        Value::Add(lhs, rhs) => d1.nodes[rhs.0 as int] is Const,
        Value::Const(_) => true,
        _ => false,
    };
    match d1.nodes[old_node.0 as int] {
        Value::Add(lhs, rhs) => {
            if let Value::Const(c) = d1.nodes[rhs.0 as int] {
                let sum = Value::Const(c.wrapping_add(value));
                lemma_add_node(d1, sum);
                lemma_add_node_safe(d1, sum);
                let (d2, new_node) = dag_add_node(d1, sum);
                lemma_set_safe(d2, offset, Value::Add(lhs, new_node));
            }
        },
        Value::Const(c) => {
            lemma_set_safe(d1, offset, Value::Const(c.wrapping_add(value)));
        },
        _ => {},
    }
    if !folded {
        lemma_add_node(d1, Value::Const(value));
        lemma_add_node_safe(d1, Value::Const(value));
        let (d2, new_node) = dag_add_node(d1, Value::Const(value));
        lemma_set_safe(d2, offset, Value::Add(old_node, new_node));
    }
}

/// A moved graph is safe.
pub proof fn lemma_shift_safe(d: SpecDAG, shift: i32)
    requires
        safe(d),
    ensures
        safe(dag_shift(d, shift)),
{
    lemma_shift_wf(d, shift);
    let moved = dag_shift(d, shift);
    assert forall|k: i32| own_terminal(moved, k) by {
        let from = k.wrapping_sub(shift);
        lemma_terminal_in_range(d, from);
        assert(lookup(moved.terminals, k) == lookup(d.terminals, from));
        assert(own_terminal(d, from));
    }
}

/// A safe graph with a safe graph appended is safe.
pub proof fn lemma_extend_safe(d: SpecDAG, e: SpecDAG)
    requires
        safe(d),
        safe(e),
        d.nodes.len() + e.nodes.len() <= usize::MAX,
    ensures
        safe(dag_extend(d, e)),
{
    lemma_extend_wf(d, e);
    let base = d.nodes.len() as int;
    let ext = dag_extend(d, e);
    assert forall|k: i32| own_terminal(ext, k) by {
        lemma_terminal_in_range(e, k);
        lemma_terminal_in_range(d, k);
        match lookup(e.terminals, k) {
            Some(n) => {
                let value = e.nodes[n.0 as int];
                assert(own_terminal(e, k));
                assert(ext.nodes[base + n.0] == extended_value(d, value, base));
                assert(own_terminal(d, k));
            },
            None => {
                assert(own_terminal(d, k));
                if let Some(node) = lookup(d.terminals, k) {
                    assert(ext.nodes[node.0 as int] == d.nodes[node.0 as int]);
                }
            },
        }
    }
}

/// A simplified graph is safe.
pub proof fn lemma_simplify_safe(d: SpecDAG)
    requires
        safe(d),
        d.nodes.len() + 2 <= usize::MAX,
    ensures
        safe(dag_simplify(d)),
{
    // That the simplified graph is well formed is a matter of its form:
    // any state and any cell type show it.
    let s = start(Seq::empty());
    assert forall|a: i32| tcell_sound(s, a, 256) by {}
    lemma_simplify_val(d, s, 256);
    let simple = simplify_terminals(empty_dag(d.zeroed), d.nodes, d.terminals);
    if simple.nodes.len() <= d.nodes.len() && !copies_within(simple, simple.terminals.len() as int) {
        lemma_safe_by_index(simple);
    }
}

/// The graph of a flat loop is safe.
pub proof fn lemma_flat_fold_safe(body: SpecDAG, terminals: Seq<(i32, Node)>)
    requires
        terminals.len() <= 0x1000_0000,
        flat_fold(body, terminals) is Some,
    ensures
        safe(flat_fold(body, terminals)->Some_0),
    decreases terminals.len(),
{
    lemma_flat_fold(body, terminals);
    if terminals.len() == 0 {
        let none = empty_dag(false);
        assert(safe(none));
        lemma_set_safe(none, 0, Value::Const(0));
    } else {
        let few = terminals.drop_last();
        let (offset, node) = terminals.last();
        lemma_flat_fold_safe(body, few);
        lemma_flat_fold(body, few);
        let expr = flat_fold(body, few)->Some_0;
        if offset != 0 && body.nodes[node.0 as int] != Value::Tape(offset) {
            match crate::optimizer::new::dag::dag_as_add_const(body, offset) {
                Some(a) => {
                    lemma_add_node(expr, Value::Tape(offset));
                    lemma_add_node_safe(expr, Value::Tape(offset));
                    let (e1, tapeval) = dag_add_node(expr, Value::Tape(offset));
                    lemma_add_node(e1, Value::Tape(0));
                    lemma_add_node_safe(e1, Value::Tape(0));
                    let (e2, lhs) = dag_add_node(e1, Value::Tape(0));
                    lemma_add_node(e2, Value::Const(a));
                    lemma_add_node_safe(e2, Value::Const(a));
                    let (e3, rhs) = dag_add_node(e2, Value::Const(a));
                    lemma_add_node(e3, Value::Multiply(lhs, rhs));
                    lemma_add_node_safe(e3, Value::Multiply(lhs, rhs));
                    let (e4, addend) = dag_add_node(e3, Value::Multiply(lhs, rhs));
                    lemma_set_safe(e4, offset, Value::Add(tapeval, addend));
                },
                None => {
                    if let Value::Const(a) = body.nodes[node.0 as int] {
                        lemma_set_safe(expr, offset, Value::Const(a));
                    }
                },
            }
        }
    }
}

/// The steps with a safe graph committed are safe.
pub proof fn lemma_committed_safe(ir: Seq<SpecIR>, d: SpecDAG)
    requires
        ir_safe(ir),
        safe(d),
    ensures
        ir_safe(committed_ir(ir, d)),
{
    lemma_safe_push(ir, SpecIR::Expr(d));
}

/// After one more command the graph of the block and every graph that is
/// committed are safe.
pub proof fn lemma_node_safe(b: SpecBlock, node: SpecAST, size: nat)
    requires
        safe(b.expr),
        ir_safe(b.ir),
        block_weighed(b, size),
        size + node_size(node) <= MAX_AST_NODES,
    ensures
        safe(block_node(b, node).expr),
        ir_safe(block_node(b, node).ir),
    decreases node, 0nat,
{
    let none = empty_dag(false);
    assert(safe(none));
    match node {
        SpecAST::Input => {
            lemma_committed_safe(b.ir, b.expr);
            lemma_safe_push(committed_ir(b.ir, b.expr), SpecIR::Input(b.shift));
            lemma_set_safe(none, b.shift, Value::Tape(b.shift));
        },
        SpecAST::Output => {
            match crate::optimizer::new::dag::dag_get(b.expr, b.shift) {
                Value::Const(v) => {
                    lemma_safe_push(
                        b.ir,
                        SpecIR::Output(crate::lir::SpecRVal::Immediate(v)),
                    );
                },
                _ => {
                    lemma_committed_safe(b.ir, b.expr);
                    lemma_safe_push(
                        committed_ir(b.ir, b.expr),
                        SpecIR::Output(crate::lir::SpecRVal::Tape(b.shift)),
                    );
                },
            }
        },
        SpecAST::Loop(body) => {
            let inner = block_result(body, false);
            lemma_result_safe(body, false);
            crate::optimizer::new::optimize_expr::lemma_block_result_weight(body, false);
            lemma_simplify_safe(b.expr);
            crate::optimizer::new::dag::lemma_simplify(b.expr);
            let e = dag_simplify(b.expr);
            match flat_body(inner.0, inner.1) {
                Some(flat) => {
                    let d = inner.0[0]->Expr_0;
                    lemma_flat_fold_safe(d, d.terminals);
                    lemma_flat_fold(d, d.terminals);
                    lemma_shift_safe(flat, b.shift);
                    lemma_extend_safe(e, dag_shift(flat, b.shift));
                },
                None => {
                    lemma_safe_push(b.ir, SpecIR::Expr(e));
                    lemma_safe_push(
                        b.ir.push(SpecIR::Expr(e)),
                        SpecIR::Loop(b.shift, inner.0, inner.1),
                    );
                },
            }
        },
        SpecAST::Shift(k) => {},
        SpecAST::Add(k) => {
            lemma_add_safe(b.expr, b.shift, k);
        },
    }
}

/// After a sequence of commands the graph of the block and every graph
/// that is committed are safe.
pub proof fn lemma_fold_safe(body: Seq<SpecAST>, zeroed: bool)
    requires
        ast_size(body) <= MAX_AST_NODES,
    ensures
        safe(block_fold(body, zeroed).expr),
        ir_safe(block_fold(body, zeroed).ir),
    decreases body, 1nat,
{
    if body.len() == 0 {
        assert(safe(empty_dag(zeroed)));
    } else {
        lemma_fold_safe(body.drop_last(), zeroed);
        lemma_block_fold_weight(body.drop_last(), zeroed);
        lemma_node_safe(
            block_fold(body.drop_last(), zeroed),
            body.last(),
            ast_size(body.drop_last()),
        );
    }
}

/// Every graph of the intermediate form of a sequence of commands is safe.
pub proof fn lemma_result_safe(body: Seq<SpecAST>, zeroed: bool)
    requires
        ast_size(body) <= MAX_AST_NODES,
    ensures
        ir_safe(block_result(body, zeroed).0),
    decreases body, 2nat,
{
    let b = block_fold(body, zeroed);
    lemma_fold_safe(body, zeroed);
    lemma_block_fold_weight(body, zeroed);
    lemma_simplify_safe(b.expr);
    lemma_committed_safe(b.ir, dag_simplify(b.expr));
}

} // verus!
