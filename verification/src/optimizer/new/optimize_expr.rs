//! From a program to the intermediate form of the graph-based optimizer.
//!
//! A basic block ends before an input, an output or a loop. Within a block
//! a shift only moves the offset that adds apply to, and an add changes the
//! terminal of that offset. An output writes a constant where the current
//! cell is known, and else commits the graph first; an input commits the
//! graph and makes the cell that is read a terminal of the new graph. A
//! loop whose body is one graph that takes one from the current cell and
//! ends where it began is not a loop at all: what it does to the other
//! cells is added to the graph of the enclosing block.

use vstd::prelude::*;
use crate::lir::{RVal, SpecRVal};
use crate::offset_map::lemma_with_entry_len;
use crate::optimizer::new::dag::{
    dag_add, dag_add_node, dag_as_add_const, dag_extend, dag_get, dag_set, dag_shift,
    dag_simplify, dag_wf, empty_dag, lemma_add, lemma_add_node, lemma_merged_terminals_len,
    lemma_set, lemma_shift_terminals_len, lemma_simplify, Node, SpecDAG, Value, DAG,
};
use crate::optimizer::new::ir::{
    ir_weight, ir_wf, lemma_ir_push, lemma_loop_ir_view, push_ir, step_wf, SpecIR, IR,
};
use crate::parser::{
    ast_size, lemma_ast_size_prefix, lemma_loop_view, SpecAST, AST, MAX_AST_NODES,
};

verus! {

/// The state within a block: the steps so far, the graph of the block, and
/// the offset of the current cell.
pub struct SpecBlock {
    pub ir: Seq<SpecIR>,
    pub expr: SpecDAG,
    pub shift: i32,
}

/// Whether a graph has neither nodes nor terminals.
pub open spec fn dag_is_empty(d: SpecDAG) -> bool {
    d.nodes.len() == 0 && d.terminals.len() == 0
}

/// The steps with the graph committed, unless the graph is empty.
pub open spec fn committed_ir(ir: Seq<SpecIR>, d: SpecDAG) -> Seq<SpecIR> {
    if dag_is_empty(d) {
        ir
    } else {
        ir.push(SpecIR::Expr(d))
    }
}

/// The graph that stands for one pass of a flat multiplier loop after one
/// more terminal `(offset, node)` of the body: the current cell and cells
/// that the body leaves alone add nothing; a cell that the body adds `a`
/// to gets `a` times the current cell added; a cell that the body sets to
/// a constant gets that constant; anything else is no flat loop.
pub open spec fn flat_terminal(body: SpecDAG, expr: SpecDAG, offset: i32, node: Node) -> Option<
    SpecDAG,
> {
    if offset == 0 {
        Some(expr)
    } else if body.nodes[node.0 as int] == Value::Tape(offset) {
        Some(expr)
    } else {
        match dag_as_add_const(body, offset) {
            Some(a) => {
                let (e1, tapeval) = dag_add_node(expr, Value::Tape(offset));
                let (e2, lhs) = dag_add_node(e1, Value::Tape(0));
                let (e3, rhs) = dag_add_node(e2, Value::Const(a));
                let (e4, addend) = dag_add_node(e3, Value::Multiply(lhs, rhs));
                Some(dag_set(e4, offset, Value::Add(tapeval, addend)))
            },
            None => match body.nodes[node.0 as int] {
                Value::Const(a) => Some(dag_set(expr, offset, Value::Const(a))),
                _ => None,
            },
        }
    }
}

/// The graph that stands for a flat multiplier loop after the terminals
/// `terminals` of its body: it begins with the current cell set to zero.
pub open spec fn flat_fold(body: SpecDAG, terminals: Seq<(i32, Node)>) -> Option<SpecDAG>
    decreases terminals.len(),
{
    if terminals.len() == 0 {
        Some(dag_set(empty_dag(false), 0, Value::Const(0)))
    } else {
        match flat_fold(body, terminals.drop_last()) {
            Some(expr) => flat_terminal(body, expr, terminals.last().0, terminals.last().1),
            None => None,
        }
    }
}

/// The graph that does what the whole loop with the body `body` does, if
/// the body takes exactly one from the current cell and the loop is flat.
pub open spec fn flat_loop(body: SpecDAG) -> Option<SpecDAG> {
    if dag_as_add_const(body, 0) == Some(-1i32) {
        flat_fold(body, body.terminals)
    } else {
        None
    }
}

/// The graph that does what a loop does whose body was optimized to `ir`
/// with the end shift `shift`, if there is one: the body is a single graph
/// without an end shift, and flat.
pub open spec fn flat_body(ir: Seq<SpecIR>, shift: i32) -> Option<SpecDAG> {
    if ir.len() == 1 && shift == 0 {
        match ir[0] {
            SpecIR::Expr(d) => flat_loop(d),
            _ => None,
        }
    } else {
        None
    }
}

/// The state after an input.
pub open spec fn after_input(b: SpecBlock) -> SpecBlock {
    SpecBlock {
        ir: committed_ir(b.ir, b.expr).push(SpecIR::Input(b.shift)),
        expr: dag_set(empty_dag(false), b.shift, Value::Tape(b.shift)),
        shift: b.shift,
    }
}

/// The state after an output.
pub open spec fn after_output(b: SpecBlock) -> SpecBlock {
    match dag_get(b.expr, b.shift) {
        Value::Const(v) => SpecBlock {
            ir: b.ir.push(SpecIR::Output(SpecRVal::Immediate(v))),
            ..b
        },
        _ => SpecBlock {
            ir: committed_ir(b.ir, b.expr).push(SpecIR::Output(SpecRVal::Tape(b.shift))),
            expr: empty_dag(false),
            shift: b.shift,
        },
    }
}

/// The state after a loop whose body was optimized to `inner` with the end
/// shift `inner_shift`.
pub open spec fn after_loop(b: SpecBlock, inner: Seq<SpecIR>, inner_shift: i32) -> SpecBlock {
    let e = dag_simplify(b.expr);
    match flat_body(inner, inner_shift) {
        Some(flat) => SpecBlock { expr: dag_extend(e, dag_shift(flat, b.shift)), ..b },
        None => SpecBlock {
            ir: b.ir.push(SpecIR::Expr(e)).push(SpecIR::Loop(b.shift, inner, inner_shift)),
            expr: empty_dag(false),
            shift: 0,
        },
    }
}

/// The state after one more command.
pub open spec fn block_node(b: SpecBlock, node: SpecAST) -> SpecBlock
    decreases node, 0nat,
{
    match node {
        SpecAST::Input => after_input(b),
        SpecAST::Output => after_output(b),
        SpecAST::Loop(body) => {
            let inner = block_result(body, false);
            after_loop(b, inner.0, inner.1)
        },
        SpecAST::Shift(k) => SpecBlock { shift: b.shift.wrapping_add(k), ..b },
        SpecAST::Add(k) => SpecBlock { expr: dag_add(b.expr, b.shift, k), ..b },
    }
}

/// The state after a sequence of commands, in a block that begins zeroed or
/// not.
pub open spec fn block_fold(body: Seq<SpecAST>, zeroed: bool) -> SpecBlock
    decreases body, 1nat,
{
    if body.len() == 0 {
        SpecBlock { ir: Seq::empty(), expr: empty_dag(zeroed), shift: 0 }
    } else {
        block_node(block_fold(body.drop_last(), zeroed), body.last())
    }
}

/// The intermediate form of a sequence of commands and the offset that it
/// ends at: the last graph is simplified and committed.
pub open spec fn block_result(body: Seq<SpecAST>, zeroed: bool) -> (Seq<SpecIR>, i32)
    decreases body, 2nat,
{
    let b = block_fold(body, zeroed);
    (committed_ir(b.ir, dag_simplify(b.expr)), b.shift)
}

/// The intermediate form of a program: its first block begins with every
/// cell zero.
pub open spec fn new_ir(ast: Seq<SpecAST>) -> Seq<SpecIR> {
    block_result(ast, true).0
}

/// Whether no graph among the steps has more than `size` terminals.
pub open spec fn exprs_within(ir: Seq<SpecIR>, size: nat) -> bool {
    forall|i: int|
        0 <= i < ir.len() ==> ((#[trigger] ir[i]) matches SpecIR::Expr(d) ==> d.terminals.len()
            <= size)
}

/// Whether a state is within the bounds that `size` commands allow: its
/// graphs are well formed, it weighs at most five for each command, and no
/// graph has more terminals than there are commands.
pub open spec fn block_bounded(b: SpecBlock, size: nat) -> bool {
    &&& ir_wf(b.ir)
    &&& dag_wf(b.expr)
    &&& ir_weight(b.ir) + b.expr.nodes.len() <= 5 * size
    &&& b.expr.terminals.len() <= size
    &&& exprs_within(b.ir, size)
}

/// The number of nodes of one command, its body included.
pub open spec fn node_size(node: SpecAST) -> nat {
    1 + match node {
        SpecAST::Loop(body) => ast_size(body),
        _ => 0,
    }
}

proof fn lemma_exprs_push(ir: Seq<SpecIR>, step: SpecIR, size: nat, more: nat)
    requires
        exprs_within(ir, size),
        size <= more,
        step matches SpecIR::Expr(d) ==> d.terminals.len() <= more,
    ensures
        exprs_within(ir.push(step), more),
{
    let pushed = ir.push(step);
    assert forall|i: int| 0 <= i < pushed.len() implies ((#[trigger] pushed[i]) matches SpecIR::Expr(
        d,
    ) ==> d.terminals.len() <= more) by {
        if i < ir.len() {
            assert(pushed[i] == ir[i]);
        }
    }
}

proof fn lemma_commit(ir: Seq<SpecIR>, d: SpecDAG, size: nat, more: nat)
    requires
        ir_wf(ir),
        dag_wf(d),
        exprs_within(ir, size),
        d.terminals.len() <= more,
        size <= more,
    ensures
        ir_wf(committed_ir(ir, d)),
        ir_weight(committed_ir(ir, d)) == ir_weight(ir) + d.nodes.len(),
        exprs_within(committed_ir(ir, d), more),
{
    lemma_ir_push(ir, SpecIR::Expr(d));
    lemma_exprs_push(ir, SpecIR::Expr(d), size, more);
    if dag_is_empty(d) {
        assert forall|i: int| 0 <= i < ir.len() implies ((#[trigger] ir[i]) matches SpecIR::Expr(
            e,
        ) ==> e.terminals.len() <= more) by {}
    }
}

/// The graph of a flat loop is well formed and has at most one node and
/// five for each terminal of the body, and at most one terminal more.
pub proof fn lemma_flat_fold(body: SpecDAG, terminals: Seq<(i32, Node)>)
    requires
        terminals.len() <= 0x1000_0000,
    ensures
        flat_fold(body, terminals) matches Some(d) ==> dag_wf(d) && d.nodes.len() <= 1 + 5
            * terminals.len() && d.terminals.len() <= 1 + terminals.len() && !d.zeroed,
    decreases terminals.len(),
{
    if terminals.len() == 0 {
        lemma_set(empty_dag(false), 0, Value::Const(0));
    } else {
        lemma_flat_fold(body, terminals.drop_last());
        if let Some(expr) = flat_fold(body, terminals.drop_last()) {
            let (offset, node) = terminals.last();
            if offset != 0 && body.nodes[node.0 as int] != Value::Tape(offset) {
                match dag_as_add_const(body, offset) {
                    Some(a) => {
                        lemma_add_node(expr, Value::Tape(offset));
                        let (e1, tapeval) = dag_add_node(expr, Value::Tape(offset));
                        lemma_add_node(e1, Value::Tape(0));
                        let (e2, lhs) = dag_add_node(e1, Value::Tape(0));
                        lemma_add_node(e2, Value::Const(a));
                        let (e3, rhs) = dag_add_node(e2, Value::Const(a));
                        lemma_add_node(e3, Value::Multiply(lhs, rhs));
                        let (e4, addend) = dag_add_node(e3, Value::Multiply(lhs, rhs));
                        lemma_set(e4, offset, Value::Add(tapeval, addend));
                    },
                    None => {
                        if let Value::Const(a) = body.nodes[node.0 as int] {
                            lemma_set(expr, offset, Value::Const(a));
                        }
                    },
                }
            }
        }
    }
}

/// Given a loop without an end shift whose body is a single graph, gives
/// the graph that does what the whole loop does, if the loop is flat.
fn optimize_expr_loop(body_expr: &DAG) -> (r: Option<DAG>)
    requires
        body_expr.wf(),
        body_expr@.terminals.len() <= 0x1000_0000,
    ensures
        match r {
            Some(d) => flat_loop(body_expr@) == Some(d@) && d.wf(),
            None => flat_loop(body_expr@) is None,
        },
{
    if !is_minus_one(body_expr.as_add_const(0)) {
        return None;
    }
    let mut expr = DAG::new(false);
    expr.set(0, Value::Const(0));
    let terminals = body_expr.terminals();
    let ghost all = body_expr@.terminals;
    let mut i: usize = 0;
    assert(all.subrange(0, 0) =~= Seq::<(i32, Node)>::empty());
    while i < terminals.len()
        invariant
            i <= terminals@.len(),
            terminals@ == all,
            all == body_expr@.terminals,
            body_expr.wf(),
            expr.wf(),
            flat_fold(body_expr@, all.subrange(0, i as int)) == Some(expr@),
        decreases terminals@.len() - i,
    {
        let (k, v) = terminals[i];
        let ghost next = all.subrange(0, i + 1);
        proof {
            assert(next.drop_last() =~= all.subrange(0, i as int));
            assert(next.last() == (k, v));
            assert(all[i as int].1.0 < body_expr@.nodes.len());
        }
        if k == 0 {
        } else if body_expr.value(v) == Value::Tape(k) {
        } else {
            match body_expr.as_add_const(k) {
                Some(a) => {
                    let tapeval = expr.add_node(Value::Tape(k));
                    let lhs = expr.add_node(Value::Tape(0));
                    let rhs = expr.add_node(Value::Const(a));
                    let addend = expr.add_node(Value::Multiply(lhs, rhs));
                    expr.set(k, Value::Add(tapeval, addend));
                },
                None => {
                    if let Value::Const(a) = body_expr.value(v) {
                        expr.set(k, Value::Const(a));
                    } else {
                        assert(flat_fold(body_expr@, next) is None);
                        proof {
                            lemma_flat_fold_none(body_expr@, all, i + 1);
                        }
                        return None;
                    }
                },
            }
        }
        i = i + 1;
    }
    assert(all.subrange(0, i as int) =~= all);
    Some(expr)
}

/// Once a prefix of the terminals shows that a loop is not flat, the whole
/// shows it.
proof fn lemma_flat_fold_none(body: SpecDAG, terminals: Seq<(i32, Node)>, i: int)
    requires
        0 <= i <= terminals.len(),
        flat_fold(body, terminals.subrange(0, i)) is None,
    ensures
        flat_fold(body, terminals) is None,
    decreases terminals.len() - i,
{
    if i == terminals.len() {
        assert(terminals.subrange(0, i) =~= terminals);
    } else {
        assert(terminals.subrange(0, i + 1).drop_last() =~= terminals.subrange(0, i));
        lemma_flat_fold_none(body, terminals, i + 1);
    }
}

fn is_minus_one(v: Option<i32>) -> (b: bool)
    ensures
        b == (v == Some(-1i32)),
{
    match v {
        Some(x) => x == -1,
        None => false,
    }
}

/// Commits the graph: appends it to the steps unless it is empty, and
/// leaves an empty graph that is not zeroed.
fn commit(ir: &mut Vec<IR>, expr: &mut DAG)
    ensures
        final(ir).deep_view() == committed_ir(old(ir).deep_view(), old(expr)@),
        final(expr)@ == empty_dag(false),
        final(expr).wf(),
{
    if !expr.is_empty() {
        let mut taken = DAG::new(false);
        core::mem::swap(expr, &mut taken);
        push_ir(ir, IR::Expr(taken));
    } else {
        expr.clear();
        expr.set_zeroed(false);
    }
}

/// The intermediate form of a sequence of commands and the offset that it
/// ends at. The first block begins zeroed if `outside_expr` is.
pub fn optimize_expr(body: &[AST], outside_expr: &DAG) -> (r: (Vec<IR>, i32))
    requires
        ast_size(body.deep_view()) <= MAX_AST_NODES,
    ensures
        (r.0.deep_view(), r.1) == block_result(body.deep_view(), outside_expr@.zeroed),
        ir_wf(r.0.deep_view()),
        ir_weight(r.0.deep_view()) <= 5 * ast_size(body.deep_view()),
        exprs_within(r.0.deep_view(), ast_size(body.deep_view())),
    decreases body@, 1nat,
{
    let ghost all = body.deep_view();
    let ghost zeroed = outside_expr@.zeroed;
    let mut ir: Vec<IR> = Vec::new();
    let mut expr = DAG::new(outside_expr.is_zeroed());
    let mut shift: i32 = 0;
    let mut i: usize = 0;
    assert(all.subrange(0, 0) =~= Seq::<SpecAST>::empty());
    assert(ir.deep_view() =~= Seq::<SpecIR>::empty());
    assert(ir_weight(Seq::<SpecIR>::empty()) == 0);
    while i < body.len()
        invariant
            i <= body.len(),
            all == body.deep_view(),
            ast_size(all) <= MAX_AST_NODES,
            block_fold(all.subrange(0, i as int), zeroed) == (SpecBlock {
                ir: ir.deep_view(),
                expr: expr@,
                shift,
            }),
            block_bounded(
                SpecBlock { ir: ir.deep_view(), expr: expr@, shift },
                ast_size(all.subrange(0, i as int)),
            ),
        decreases body.len() - i,
    {
        let ghost next = all.subrange(0, i + 1);
        proof {
            lemma_ast_size_prefix(all, i + 1);
            assert(next.drop_last() =~= all.subrange(0, i as int));
            assert(next.last() == body@[i as int].deep_view());
            assert(ast_size(next) == ast_size(all.subrange(0, i as int)) + node_size(
                next.last(),
            ));
        }
        step(&body[i], &mut ir, &mut expr, &mut shift, Ghost(ast_size(all.subrange(0, i as int))));
        i = i + 1;
    }
    assert(all.subrange(0, body.len() as int) =~= all);
    proof {
        lemma_simplify(expr@);
    }
    expr.simplify();
    proof {
        lemma_commit(ir.deep_view(), expr@, ast_size(all), ast_size(all));
    }
    commit(&mut ir, &mut expr);
    (ir, shift)
}

/// Takes one command into the state of the block.
fn step(node: &AST, ir: &mut Vec<IR>, expr: &mut DAG, shift: &mut i32, Ghost(size): Ghost<nat>)
    requires
        block_bounded(
            SpecBlock { ir: old(ir).deep_view(), expr: old(expr)@, shift: *old(shift) },
            size,
        ),
        size + node_size(node.deep_view()) <= MAX_AST_NODES,
    ensures
        (SpecBlock { ir: final(ir).deep_view(), expr: final(expr)@, shift: *final(shift) })
            == block_node(
            SpecBlock { ir: old(ir).deep_view(), expr: old(expr)@, shift: *old(shift) },
            node.deep_view(),
        ),
        block_bounded(
            SpecBlock { ir: final(ir).deep_view(), expr: final(expr)@, shift: *final(shift) },
            size + node_size(node.deep_view()),
        ),
    decreases node, 0nat,
{
    let ghost b = SpecBlock { ir: ir.deep_view(), expr: expr@, shift: *shift };
    let ghost more = size + node_size(node.deep_view());
    match node {
        AST::Input => {
            proof {
                lemma_commit(b.ir, b.expr, size, more);
                lemma_ir_push(committed_ir(b.ir, b.expr), SpecIR::Input(b.shift));
                lemma_exprs_push(committed_ir(b.ir, b.expr), SpecIR::Input(b.shift), more, more);
                lemma_set(empty_dag(false), b.shift, Value::Tape(b.shift));
            }
            commit(ir, expr);
            push_ir(ir, IR::Input(*shift));
            expr.set(*shift, Value::Tape(*shift));
        },
        AST::Output => {
            if let Value::Const(value) = expr.get(*shift) {
                proof {
                    lemma_ir_push(b.ir, SpecIR::Output(SpecRVal::Immediate(value)));
                    lemma_exprs_push(b.ir, SpecIR::Output(SpecRVal::Immediate(value)), size, more);
                }
                push_ir(ir, IR::Output(RVal::Immediate(value)));
            } else {
                proof {
                    lemma_commit(b.ir, b.expr, size, more);
                    lemma_ir_push(
                        committed_ir(b.ir, b.expr),
                        SpecIR::Output(SpecRVal::Tape(b.shift)),
                    );
                    lemma_exprs_push(
                        committed_ir(b.ir, b.expr),
                        SpecIR::Output(SpecRVal::Tape(b.shift)),
                        more,
                        more,
                    );
                }
                commit(ir, expr);
                push_ir(ir, IR::Output(RVal::Tape(*shift)));
            }
        },
        AST::Loop(body) => {
            proof {
                lemma_loop_view(*body);
                lemma_simplify(b.expr);
            }
            expr.simplify();
            let inner = optimize_expr(body.as_slice(), &DAG::new(false));
            let loop_body = inner.0;
            let loop_shift = inner.1;
            let ghost e = expr@;
            let ghost inner_ir = loop_body.deep_view();
            let flat = flat_of(&loop_body, loop_shift);
            match flat {
                Some(new_expr) => {
                    let mut new_expr = new_expr;
                    proof {
                        let d = inner_ir[0]->Expr_0;
                        lemma_flat_fold(d, d.terminals);
                        lemma_shift_terminals_len(new_expr@.terminals, b.shift);
                        lemma_merged_terminals_len(
                            e.terminals,
                            dag_shift(new_expr@, b.shift).terminals,
                            e.nodes.len() as int,
                        );
                    }
                    new_expr.shift(*shift);
                    expr.extend(new_expr);
                    assert forall|k: int| 0 <= k < b.ir.len() implies ((
                    #[trigger] b.ir[k]) matches SpecIR::Expr(d) ==> d.terminals.len() <= more) by {}
                },
                None => {
                    proof {
                        lemma_ir_push(b.ir, SpecIR::Expr(e));
                        lemma_exprs_push(b.ir, SpecIR::Expr(e), size, more);
                        let step = SpecIR::Loop(b.shift, inner_ir, loop_shift);
                        lemma_ir_push(b.ir.push(SpecIR::Expr(e)), step);
                        lemma_exprs_push(b.ir.push(SpecIR::Expr(e)), step, more, more);
                        lemma_loop_ir_view(b.shift, loop_body, loop_shift);
                    }
                    let mut taken = DAG::new(false);
                    core::mem::swap(expr, &mut taken);
                    push_ir(ir, IR::Expr(taken));
                    push_ir(ir, IR::Loop(*shift, loop_body, loop_shift));
                    *shift = 0;
                },
            }
        },
        AST::Shift(offset) => {
            *shift = shift.wrapping_add(*offset);
            assert forall|k: int| 0 <= k < b.ir.len() implies ((#[trigger] b.ir[k]) matches SpecIR::Expr(
                d,
            ) ==> d.terminals.len() <= more) by {}
        },
        AST::Add(add) => {
            proof {
                lemma_add(b.expr, b.shift, *add);
            }
            expr.add(*shift, *add);
            assert forall|k: int| 0 <= k < b.ir.len() implies ((#[trigger] b.ir[k]) matches SpecIR::Expr(
                d,
            ) ==> d.terminals.len() <= more) by {}
        },
    }
}

/// The graph that does what a loop does whose body was optimized to
/// `loop_body` with the end shift `loop_shift`, if the loop is flat.
fn flat_of(loop_body: &Vec<IR>, loop_shift: i32) -> (r: Option<DAG>)
    requires
        ir_wf(loop_body.deep_view()),
        exprs_within(loop_body.deep_view(), MAX_AST_NODES as nat),
    ensures
        match r {
            Some(d) => flat_body(loop_body.deep_view(), loop_shift) == Some(d@) && d.wf(),
            None => flat_body(loop_body.deep_view(), loop_shift) is None,
        },
{
    if loop_body.len() == 1 && loop_shift == 0 {
        let ghost ir = loop_body.deep_view();
        assert(ir[0] == loop_body@[0].deep_view());
        assert(ir.drop_last() =~= Seq::<SpecIR>::empty());
        assert(step_wf(ir.last()));
        match &loop_body[0] {
            IR::Expr(loop_expr) => optimize_expr_loop(loop_expr),
            _ => None,
        }
    } else {
        None
    }
}

/// The intermediate form of a program.
pub fn optimize(body: &[AST]) -> (ir: Vec<IR>)
    requires
        ast_size(body.deep_view()) <= MAX_AST_NODES,
    ensures
        ir.deep_view() == new_ir(body.deep_view()),
        ir_wf(ir.deep_view()),
        ir_weight(ir.deep_view()) <= 5 * ast_size(body.deep_view()),
{
    optimize_expr(body, &DAG::new(true)).0
}

/// Whether a state weighs no more than `size` commands allow: at most
/// five for each command, with no more terminals in any graph than there
/// are commands.
pub open spec fn block_weighed(b: SpecBlock, size: nat) -> bool {
    &&& ir_weight(b.ir) + b.expr.nodes.len() <= 5 * size
    &&& b.expr.terminals.len() <= size
    &&& exprs_within(b.ir, size)
}

proof fn lemma_exprs_wider(ir: Seq<SpecIR>, size: nat, more: nat)
    requires
        exprs_within(ir, size),
        size <= more,
    ensures
        exprs_within(ir, more),
{
    assert forall|i: int| 0 <= i < ir.len() implies ((#[trigger] ir[i]) matches SpecIR::Expr(d)
        ==> d.terminals.len() <= more) by {}
}

proof fn lemma_commit_weight(ir: Seq<SpecIR>, d: SpecDAG, size: nat, more: nat)
    requires
        exprs_within(ir, size),
        d.terminals.len() <= more,
        size <= more,
    ensures
        ir_weight(committed_ir(ir, d)) == ir_weight(ir) + d.nodes.len(),
        exprs_within(committed_ir(ir, d), more),
{
    lemma_ir_push(ir, SpecIR::Expr(d));
    lemma_exprs_push(ir, SpecIR::Expr(d), size, more);
    lemma_exprs_wider(ir, size, more);
}

/// Setting a terminal adds at most one node and one terminal.
proof fn lemma_set_counts(d: SpecDAG, offset: i32, value: Value)
    ensures
        dag_set(d, offset, value).nodes.len() <= d.nodes.len() + 1,
        dag_set(d, offset, value).terminals.len() <= d.terminals.len() + 1,
{
    let (d1, node) = dag_add_node(d, value);
    lemma_with_entry_len(d1.terminals, offset, node);
}

/// Adding a constant adds at most three nodes and one terminal.
proof fn lemma_add_counts(d: SpecDAG, offset: i32, value: i32)
    ensures
        dag_add(d, offset, value).nodes.len() <= d.nodes.len() + 3,
        dag_add(d, offset, value).terminals.len() <= d.terminals.len() + 1,
{
    let (d1, old_node) = crate::optimizer::new::dag::dag_get_node(d, offset);
    let default = crate::optimizer::new::dag::dag_default_value(d, offset);
    let (d0, made) = dag_add_node(d, default);
    lemma_with_entry_len(d0.terminals, offset, made);
    crate::offset_map::lemma_rank_from(d.terminals, offset, 0);
    assert(crate::offset_map::has_key(d1.terminals, offset)) by {
        if crate::offset_map::lookup(d.terminals, offset) is None {
            let t = crate::offset_map::with_entry(d0.terminals, offset, made);
            let r = crate::offset_map::rank(d0.terminals, offset);
            crate::offset_map::lemma_rank_from(t, offset, 0);
            let r2 = crate::offset_map::rank(t, offset);
            assert(t[r].0 == offset);
            if r2 < r {
                assert(t[r2] == d0.terminals[r2]);
            }
        }
    }
    assert(d1.nodes.len() <= d.nodes.len() + 1);
    assert(d1.terminals.len() <= d.terminals.len() + 1);
    let (d2, new_node) = dag_add_node(d1, Value::Const(value));
    lemma_with_entry_len(
        dag_add_node(d2, Value::Add(old_node, new_node)).0.terminals,
        offset,
        dag_add_node(d2, Value::Add(old_node, new_node)).1,
    );
    match d1.nodes[old_node.0 as int] {
        Value::Add(lhs, rhs) => match d1.nodes[rhs.0 as int] {
            Value::Const(old_value) => {
                let (d3, folded) = dag_add_node(d1, Value::Const(old_value.wrapping_add(value)));
                lemma_with_entry_len(
                    dag_add_node(d3, Value::Add(lhs, folded)).0.terminals,
                    offset,
                    dag_add_node(d3, Value::Add(lhs, folded)).1,
                );
            },
            _ => {},
        },
        Value::Const(old_value) => {
            lemma_with_entry_len(
                dag_add_node(d1, Value::Const(old_value.wrapping_add(value))).0.terminals,
                offset,
                dag_add_node(d1, Value::Const(old_value.wrapping_add(value))).1,
            );
        },
        _ => {},
    }
}

/// The state after a sequence of commands weighs no more than the commands
/// allow.
pub proof fn lemma_block_fold_weight(body: Seq<SpecAST>, zeroed: bool)
    requires
        ast_size(body) <= MAX_AST_NODES,
    ensures
        block_weighed(block_fold(body, zeroed), ast_size(body)),
    decreases body, 1nat,
{
    if body.len() == 0 {
        assert(ir_weight(Seq::<SpecIR>::empty()) == 0);
    } else {
        lemma_block_fold_weight(body.drop_last(), zeroed);
        lemma_block_node_weight(
            block_fold(body.drop_last(), zeroed),
            body.last(),
            ast_size(body.drop_last()),
        );
    }
}

/// One command adds to the weight of the state no more than it allows.
pub proof fn lemma_block_node_weight(b: SpecBlock, node: SpecAST, size: nat)
    requires
        block_weighed(b, size),
        size + node_size(node) <= MAX_AST_NODES,
    ensures
        block_weighed(block_node(b, node), size + node_size(node)),
    decreases node, 0nat,
{
    let more = size + node_size(node);
    match node {
        SpecAST::Input => {
            lemma_commit_weight(b.ir, b.expr, size, more);
            lemma_ir_push(committed_ir(b.ir, b.expr), SpecIR::Input(b.shift));
            lemma_exprs_push(committed_ir(b.ir, b.expr), SpecIR::Input(b.shift), more, more);
            lemma_set_counts(empty_dag(false), b.shift, Value::Tape(b.shift));
        },
        SpecAST::Output => {
            match dag_get(b.expr, b.shift) {
                Value::Const(v) => {
                    lemma_ir_push(b.ir, SpecIR::Output(SpecRVal::Immediate(v)));
                    lemma_exprs_push(b.ir, SpecIR::Output(SpecRVal::Immediate(v)), size, more);
                },
                _ => {
                    lemma_commit_weight(b.ir, b.expr, size, more);
                    lemma_ir_push(
                        committed_ir(b.ir, b.expr),
                        SpecIR::Output(SpecRVal::Tape(b.shift)),
                    );
                    lemma_exprs_push(
                        committed_ir(b.ir, b.expr),
                        SpecIR::Output(SpecRVal::Tape(b.shift)),
                        more,
                        more,
                    );
                },
            }
        },
        SpecAST::Loop(body) => {
            lemma_block_result_weight(body, false);
            lemma_simplify(b.expr);
            let e = dag_simplify(b.expr);
            let inner = block_result(body, false);
            match flat_body(inner.0, inner.1) {
                Some(flat) => {
                    let d = inner.0[0]->Expr_0;
                    lemma_flat_fold(d, d.terminals);
                    lemma_shift_terminals_len(flat.terminals, b.shift);
                    lemma_merged_terminals_len(
                        e.terminals,
                        dag_shift(flat, b.shift).terminals,
                        e.nodes.len() as int,
                    );
                    lemma_exprs_wider(b.ir, size, more);
                },
                None => {
                    lemma_ir_push(b.ir, SpecIR::Expr(e));
                    lemma_exprs_push(b.ir, SpecIR::Expr(e), size, more);
                    let step = SpecIR::Loop(b.shift, inner.0, inner.1);
                    lemma_ir_push(b.ir.push(SpecIR::Expr(e)), step);
                    lemma_exprs_push(b.ir.push(SpecIR::Expr(e)), step, more, more);
                },
            }
        },
        SpecAST::Shift(k) => {
            lemma_exprs_wider(b.ir, size, more);
        },
        SpecAST::Add(k) => {
            lemma_add_counts(b.expr, b.shift, k);
            lemma_exprs_wider(b.ir, size, more);
        },
    }
}

/// The intermediate form of a sequence of commands weighs at most five for
/// each command, and none of its graphs has more terminals than there are
/// commands.
pub proof fn lemma_block_result_weight(body: Seq<SpecAST>, zeroed: bool)
    requires
        ast_size(body) <= MAX_AST_NODES,
    ensures
        ir_weight(block_result(body, zeroed).0) <= 5 * ast_size(body),
        exprs_within(block_result(body, zeroed).0, ast_size(body)),
    decreases body, 2nat,
{
    lemma_block_fold_weight(body, zeroed);
    let b = block_fold(body, zeroed);
    lemma_simplify(b.expr);
    lemma_commit_weight(b.ir, dag_simplify(b.expr), ast_size(body), ast_size(body));
}

} // verus!
