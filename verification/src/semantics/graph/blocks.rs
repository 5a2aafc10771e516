//! The intermediate form of the graph-based optimizer means what the
//! token form of the program means, where no flat loop sets a cell to a
//! constant.
//!
//! While the optimizer walks a block, the steps that it has committed have
//! led to one state, and the commands that it has read have led to
//! another. The second is the first with the graph of the block committed,
//! the cursor moved by the offset of the block, and the output buffer
//! written.

use vstd::arithmetic::div_mod::lemma_small_mod;
use vstd::prelude::*;
use crate::lir::SpecRVal;
use crate::offset_map::lookup;
use crate::optimizer::new::dag::{
    dag_add, dag_get, dag_shift, dag_simplify, dag_wf, empty_dag, lemma_add, lemma_simplify,
    lemma_terminal_in_range, refers_below, SpecDAG, Value,
};
use crate::optimizer::new::ir::SpecIR;
use crate::optimizer::new::optimize_expr::{
    after_input, after_loop, after_output, block_fold, block_node, block_result, block_weighed,
    committed_ir, dag_is_empty, flat_body, lemma_block_fold_weight, lemma_block_result_weight,
    new_ir, node_size, SpecBlock,
};
use crate::optimizer::peephole::token::{tokens_of, tokens_of_node, SpecToken};
use crate::parser::{ast_size, SpecAST, MAX_AST_NODES};
use crate::semantics::graph::extending::{
    lemma_after_expr_sound, lemma_extend_val, lemma_extend_wf, lemma_shift_val, lemma_shift_wf,
    moved,
};
use crate::semantics::graph::flattening::{body_is, flat_pure, lemma_counted_loop};
use crate::semantics::graph::graphs::{
    after_expr, due_cell, flag_holds, lemma_add_val, lemma_set_val, lemma_val_node, val,
};
use crate::semantics::peephole::lowering::{lemma_tokens_of_closed, lemma_tsem_loop_buffer};
use crate::semantics::peephole::passes::{byte_modulus, lemma_byte_of};
use crate::semantics::peephole::pending::{
    lemma_apply_sound, lemma_tsem_loop_sound, lemma_tsem_sound, tcell_sound, tsound,
};
use crate::semantics::graph::safety::{
    ir_safe, lemma_fold_safe, lemma_result_safe, lemma_simplify_safe, safe, step_safe,
};
use crate::semantics::graph::simplifying::lemma_simplify_val;
use crate::semantics::graph::steps::{
    flushed, isem, isem_loop, lemma_isem_loop_more, lemma_isem_more, lemma_isem_push,
    lemma_read_sound, read_at,
};
use crate::semantics::peephole::tokens::{
    apply, byte, cell, cell_is_zero, lemma_tsem_concat, lemma_tsem_one, tsem, tsem_loop,
    tsem_token, TokenState,
};

verus! {

/// Whether no flat loop of a sequence of commands, at any depth, sets a
/// cell to a constant.
pub open spec fn loops_pure(ast: Seq<SpecAST>) -> bool
    decreases ast, 1nat,
{
    ast.len() == 0 || (loops_pure(ast.drop_last()) && node_pure(ast.last()))
}

/// Whether no flat loop of a command sets a cell to a constant.
pub open spec fn node_pure(node: SpecAST) -> bool
    decreases node, 0nat,
{
    match node {
        SpecAST::Loop(body) => loops_pure(body) && (flat_body(
            block_result(body, false).0,
            block_result(body, false).1,
        ) is Some ==> match block_result(body, false).0[0] {
            SpecIR::Expr(d) => flat_pure(d),
            _ => true,
        }),
        _ => true,
    }
}

/// Whether the cell at an address is in `o` what it is due in `x`.
pub open spec fn graph_cell(d: SpecDAG, x: TokenState, o: TokenState, a: i32, modulus: int) -> bool {
    o.tape[a] == due_cell(d, a.wrapping_sub(x.cursor), x, modulus)
}

/// Whether the state `x`, with the graph and the offset of the block,
/// stands for the state `o`.
pub open spec fn graph_stands(b: SpecBlock, x: TokenState, o: TokenState, modulus: int) -> bool {
    &&& o.cursor == x.cursor.wrapping_add(b.shift)
    &&& o.input == x.input
    &&& o.inbuf == x.inbuf
    &&& o.starved == x.starved
    &&& o.output == x.output + x.buffer
    &&& o.buffer.len() == 0
    &&& tsound(x, modulus)
    &&& tsound(o, modulus)
    &&& flag_holds(b.expr, x)
    &&& forall|a: i32| graph_cell(b.expr, x, o, a, modulus)
}

/// What a node computes depends on the tape and the cursor alone.
pub proof fn lemma_val_same(
    nodes: Seq<Value>,
    n: int,
    s: TokenState,
    t: TokenState,
    modulus: int,
)
    requires
        s.tape == t.tape,
        s.cursor == t.cursor,
    ensures
        val(nodes, n, s, modulus) == val(nodes, n, t, modulus),
    decreases n,
{
    if 0 <= n < nodes.len() {
        match nodes[n] {
            Value::Multiply(l, r) => {
                if l.0 < n && r.0 < n {
                    lemma_val_same(nodes, l.0 as int, s, t, modulus);
                    lemma_val_same(nodes, r.0 as int, s, t, modulus);
                }
            },
            Value::Add(l, r) => {
                if l.0 < n && r.0 < n {
                    lemma_val_same(nodes, l.0 as int, s, t, modulus);
                    lemma_val_same(nodes, r.0 as int, s, t, modulus);
                }
            },
            _ => {},
        }
    }
}

/// What a cell is due depends on the tape and the cursor alone.
pub proof fn lemma_due_same(d: SpecDAG, k: i32, s: TokenState, t: TokenState, modulus: int)
    requires
        s.tape == t.tape,
        s.cursor == t.cursor,
    ensures
        due_cell(d, k, s, modulus) == due_cell(d, k, t, modulus),
{
    if let Some(node) = lookup(d.terminals, k) {
        lemma_val_same(d.nodes, node.0 as int, s, t, modulus);
    }
}

/// The state after the graph `d`, which computes what the graph of the
/// block computes, is committed: its tape is the tape of the state that is
/// stood for.
pub proof fn lemma_commit_graph(
    b: SpecBlock,
    d: SpecDAG,
    s: TokenState,
    x: TokenState,
    o: TokenState,
    modulus: int,
    fuel: nat,
)
    requires
        modulus > 0,
        isem(b.ir, s, modulus, fuel) == Some(x),
        graph_stands(b, x, o, modulus),
        forall|k: i32| #[trigger] due_cell(d, k, x, modulus) == due_cell(b.expr, k, x, modulus),
    ensures
        isem(committed_ir(b.ir, d), s, modulus, fuel) is Some,
        graph_stands(
            SpecBlock { ir: committed_ir(b.ir, d), expr: empty_dag(false), shift: b.shift },
            isem(committed_ir(b.ir, d), s, modulus, fuel)->Some_0,
            o,
            modulus,
        ),
        isem(committed_ir(b.ir, d), s, modulus, fuel)->Some_0 == (TokenState {
            tape: o.tape,
            ..x
        }),
{
    let made = TokenState { tape: o.tape, ..x };
    let after = isem(committed_ir(b.ir, d), s, modulus, fuel)->Some_0;
    if dag_is_empty(d) {
        assert(after == x);
        assert(x.tape =~= o.tape) by {
            assert forall|a: i32| #[trigger]
                x.tape.dom().contains(a) && o.tape.dom().contains(a) by {
                assert(tcell_sound(x, a, modulus));
                assert(tcell_sound(o, a, modulus));
            }
            assert forall|a: i32| #[trigger] x.tape[a] == o.tape[a] by {
                let k = a.wrapping_sub(x.cursor);
                assert(a == x.cursor.wrapping_add(k));
                assert(graph_cell(b.expr, x, o, a, modulus));
                assert(due_cell(d, k, x, modulus) == due_cell(b.expr, k, x, modulus));
            }
        }
    } else {
        lemma_isem_push(b.ir, SpecIR::Expr(d), s, modulus, fuel);
        lemma_after_expr_sound(d, x, modulus);
        assert(after == after_expr(d, x, modulus));
        assert(after.tape =~= o.tape) by {
            assert forall|a: i32| #[trigger]
                after.tape.dom().contains(a) && o.tape.dom().contains(a) by {
                assert(tcell_sound(o, a, modulus));
            }
            assert forall|a: i32| #[trigger] after.tape[a] == o.tape[a] by {
                let k = a.wrapping_sub(x.cursor);
                assert(graph_cell(b.expr, x, o, a, modulus));
                assert(due_cell(d, k, x, modulus) == due_cell(b.expr, k, x, modulus));
            }
        }
    }
    assert(after == made);
    assert forall|a: i32| tcell_sound(made, a, modulus) by {
        assert(tcell_sound(o, a, modulus));
    }
    assert forall|a: i32| graph_cell(empty_dag(false), made, o, a, modulus) by {
        let k = a.wrapping_sub(x.cursor);
        assert(a == x.cursor.wrapping_add(k));
    }
}

/// The state after an add: the graph of the block has taken the add.
proof fn lemma_add_graph(
    b: SpecBlock,
    k: i32,
    x: TokenState,
    o: TokenState,
    modulus: int,
)
    requires
        byte_modulus(modulus),
        dag_wf(b.expr),
        b.expr.nodes.len() + 3 <= usize::MAX,
        graph_stands(b, x, o, modulus),
    ensures
        graph_stands(
            SpecBlock { expr: dag_add(b.expr, b.shift, k), ..b },
            x,
            apply(SpecToken::Add(0, k), o, modulus),
            modulus,
        ),
{
    let token = SpecToken::Add(0, k);
    let o1 = apply(token, o, modulus);
    let b1 = SpecBlock { expr: dag_add(b.expr, b.shift, k), ..b };
    lemma_apply_sound(token, o, modulus);
    lemma_add(b.expr, b.shift, k);
    lemma_add_val(b.expr, b.shift, k, x, modulus);
    let here = o.cursor.wrapping_add(0);
    assert(here == x.cursor.wrapping_add(b.shift));
    assert(here.wrapping_sub(x.cursor) == b.shift);
    assert(graph_cell(b.expr, x, o, here, modulus));
    assert forall|a: i32| graph_cell(b1.expr, x, o1, a, modulus) by {
        assert(graph_cell(b.expr, x, o, a, modulus));
        if a != here {
            assert(a.wrapping_sub(x.cursor) != b.shift);
        }
    }
}

/// The state after a move: the offset of the block has taken the move.
proof fn lemma_shift_graph(b: SpecBlock, k: i32, x: TokenState, o: TokenState, modulus: int)
    requires
        graph_stands(b, x, o, modulus),
    ensures
        graph_stands(
            SpecBlock { shift: b.shift.wrapping_add(k), ..b },
            x,
            apply(SpecToken::Move(k), o, modulus),
            modulus,
        ),
{
    let o1 = apply(SpecToken::Move(k), o, modulus);
    let b1 = SpecBlock { shift: b.shift.wrapping_add(k), ..b };
    assert forall|a: i32| tcell_sound(o1, a, modulus) by {
        assert(tcell_sound(o, a, modulus));
    }
    assert forall|a: i32| graph_cell(b1.expr, x, o1, a, modulus) by {
        assert(graph_cell(b.expr, x, o, a, modulus));
    }
}

/// The state after an output, as the tokens of an output give it.
pub open spec fn written(o: TokenState) -> TokenState {
    TokenState { output: o.output.push(byte(cell(o, 0))), ..o }
}

/// The tokens of an output load the current cell and write it.
proof fn lemma_output_tokens(o: TokenState, modulus: int, fuel: nat)
    requires
        modulus > 0,
        tsound(o, modulus),
        o.buffer.len() == 0,
    ensures
        tsem(tokens_of_node(SpecAST::Output), o, modulus, fuel) == Some(written(o)),
{
    let tokens = tokens_of_node(SpecAST::Output);
    let first = seq![SpecToken::LoadOut(0, 0)];
    let second = seq![SpecToken::Output];
    assert(tokens =~= first + second);
    let o1 = apply(SpecToken::LoadOut(0, 0), o, modulus);
    let o2 = apply(SpecToken::Output, o1, modulus);
    lemma_tsem_one(SpecToken::LoadOut(0, 0), o, modulus, fuel);
    assert(tsem_token(SpecToken::LoadOut(0, 0), o, modulus, fuel) == Some(o1));
    lemma_tsem_one(SpecToken::Output, o1, modulus, fuel);
    assert(tsem_token(SpecToken::Output, o1, modulus, fuel) == Some(o2));
    lemma_tsem_concat(first, second, o, modulus, fuel);
    let here = o.cursor.wrapping_add(0);
    assert(tcell_sound(o, here, modulus));
    lemma_small_mod(cell(o, 0) as nat, modulus as nat);
    assert(o2.output =~= written(o).output);
    assert(o2.buffer =~= written(o).buffer);
}

/// The state after an output.
proof fn lemma_output_graph(
    b: SpecBlock,
    s: TokenState,
    x: TokenState,
    o: TokenState,
    modulus: int,
    fuel: nat,
)
    requires
        byte_modulus(modulus),
        dag_wf(b.expr),
        isem(b.ir, s, modulus, fuel) == Some(x),
        graph_stands(b, x, o, modulus),
    ensures
        isem(after_output(b).ir, s, modulus, fuel) is Some,
        graph_stands(
            after_output(b),
            isem(after_output(b).ir, s, modulus, fuel)->Some_0,
            written(o),
            modulus,
        ),
{
    let o1 = written(o);
    let b1 = after_output(b);
    let here = o.cursor.wrapping_add(0);
    assert(here == x.cursor.wrapping_add(b.shift));
    assert(here.wrapping_sub(x.cursor) == b.shift);
    assert(graph_cell(b.expr, x, o, here, modulus));
    assert forall|a: i32| tcell_sound(o1, a, modulus) by {
        assert(tcell_sound(o, a, modulus));
    }
    match dag_get(b.expr, b.shift) {
        Value::Const(v) => {
            let step = SpecIR::Output(SpecRVal::Immediate(v));
            lemma_isem_push(b.ir, step, s, modulus, fuel);
            let x1 = isem(b1.ir, s, modulus, fuel)->Some_0;
            lemma_terminal_in_range(b.expr, b.shift);
            if let Some(n) = lookup(b.expr.terminals, b.shift) {
                assert(refers_below(b.expr.nodes[n.0 as int], n.0 as int));
                lemma_val_node(b.expr.nodes, n.0 as int, x, modulus);
            } else {
                assert(tcell_sound(x, here, modulus));
            }
            lemma_byte_of(v as int, modulus);
            lemma_small_mod(0, modulus as nat);
            assert(byte(cell(o, 0)) == byte(v as int));
            assert(o1.output =~= x1.output + x1.buffer);
            assert forall|a: i32| tcell_sound(x1, a, modulus) by {
                assert(tcell_sound(x, a, modulus));
            }
            assert forall|a: i32| graph_cell(b1.expr, x1, o1, a, modulus) by {
                assert(graph_cell(b.expr, x, o, a, modulus));
                lemma_due_same(b.expr, a.wrapping_sub(x.cursor), x, x1, modulus);
            }
        },
        _ => {
            lemma_commit_graph(b, b.expr, s, x, o, modulus, fuel);
            let ir1 = committed_ir(b.ir, b.expr);
            let x1 = isem(ir1, s, modulus, fuel)->Some_0;
            let step = SpecIR::Output(SpecRVal::Tape(b.shift));
            lemma_isem_push(ir1, step, s, modulus, fuel);
            let x2 = isem(b1.ir, s, modulus, fuel)->Some_0;
            assert(o1.output =~= x2.output + x2.buffer);
            assert forall|a: i32| tcell_sound(x2, a, modulus) by {
                assert(tcell_sound(x1, a, modulus));
            }
            assert forall|a: i32| graph_cell(b1.expr, x2, o1, a, modulus) by {
                let k = a.wrapping_sub(x.cursor);
                assert(a == x.cursor.wrapping_add(k));
            }
        },
    }
}

/// The state after an input.
proof fn lemma_input_graph(
    b: SpecBlock,
    s: TokenState,
    x: TokenState,
    o: TokenState,
    modulus: int,
    fuel: nat,
)
    requires
        byte_modulus(modulus),
        isem(b.ir, s, modulus, fuel) == Some(x),
        graph_stands(b, x, o, modulus),
    ensures
        isem(after_input(b).ir, s, modulus, fuel) is Some,
        graph_stands(
            after_input(b),
            isem(after_input(b).ir, s, modulus, fuel)->Some_0,
            apply(SpecToken::Input, o, modulus),
            modulus,
        ),
{
    let o1 = apply(SpecToken::Input, o, modulus);
    let b1 = after_input(b);
    lemma_apply_sound(SpecToken::Input, o, modulus);
    lemma_commit_graph(b, b.expr, s, x, o, modulus, fuel);
    let ir1 = committed_ir(b.ir, b.expr);
    let x1 = isem(ir1, s, modulus, fuel)->Some_0;
    lemma_isem_push(ir1, SpecIR::Input(b.shift), s, modulus, fuel);
    let x2 = isem(b1.ir, s, modulus, fuel)->Some_0;
    assert(x2 == read_at(x1, b.shift, modulus));
    lemma_read_sound(x1, b.shift, modulus);
    let none = empty_dag(false);
    lemma_set_val(none, b.shift, Value::Tape(b.shift), x2, modulus);
    assert(o.cursor.wrapping_add(0) == o.cursor);
    assert(o1.input =~= x2.input);
    assert forall|a: i32| graph_cell(b1.expr, x2, o1, a, modulus) by {
        let k = a.wrapping_sub(x.cursor);
        assert(a == x.cursor.wrapping_add(k));
    }
}

/// The intermediate form of a block means what the commands of the block
/// mean: where the tokens of the commands end, the steps that the
/// optimizer has committed end, within the fuel that the lemma gives, in a
/// state that stands for the state after the tokens.
pub proof fn lemma_fold_graph(
    ast: Seq<SpecAST>,
    zeroed: bool,
    s: TokenState,
    modulus: int,
    fuel: nat,
) -> (fx: nat)
    requires
        byte_modulus(modulus),
        ast_size(ast) <= MAX_AST_NODES,
        loops_pure(ast),
        tsound(s, modulus),
        s.buffer.len() == 0,
        zeroed ==> forall|a: i32| #[trigger] s.tape[a] == 0,
        tsem(tokens_of(ast), s, modulus, fuel) is Some,
    ensures
        isem(block_fold(ast, zeroed).ir, s, modulus, fx) is Some,
        graph_stands(
            block_fold(ast, zeroed),
            isem(block_fold(ast, zeroed).ir, s, modulus, fx)->Some_0,
            tsem(tokens_of(ast), s, modulus, fuel)->Some_0,
            modulus,
        ),
    decreases ast, 1nat, 0nat,
{
    if ast.len() == 0 {
        let b = block_fold(ast, zeroed);
        assert(s.output =~= s.output + s.buffer);
        assert forall|a: i32| graph_cell(b.expr, s, s, a, modulus) by {
            let k = a.wrapping_sub(s.cursor);
            assert(a == s.cursor.wrapping_add(k));
        }
        0
    } else {
        let before = ast.drop_last();
        let node = ast.last();
        let b = block_fold(before, zeroed);
        lemma_tsem_concat(tokens_of(before), tokens_of_node(node), s, modulus, fuel);
        let fb = lemma_fold_graph(before, zeroed, s, modulus, fuel);
        let x = isem(b.ir, s, modulus, fb)->Some_0;
        let o = tsem(tokens_of(before), s, modulus, fuel)->Some_0;
        lemma_fold_safe(before, zeroed);
        lemma_block_fold_weight(before, zeroed);
        lemma_node_graph(b, node, ast_size(before), s, x, o, modulus, fuel, fb)
    }
}

/// The optimizer after one more command: where the tokens of the command
/// end, the committed steps end in a state that stands for the state
/// after the tokens.
pub proof fn lemma_node_graph(
    b: SpecBlock,
    node: SpecAST,
    size: nat,
    s: TokenState,
    x: TokenState,
    o: TokenState,
    modulus: int,
    fuel: nat,
    fb: nat,
) -> (fx: nat)
    requires
        byte_modulus(modulus),
        safe(b.expr),
        block_weighed(b, size),
        size + node_size(node) <= MAX_AST_NODES,
        node_pure(node),
        isem(b.ir, s, modulus, fb) == Some(x),
        graph_stands(b, x, o, modulus),
        tsem(tokens_of_node(node), o, modulus, fuel) is Some,
    ensures
        isem(block_node(b, node).ir, s, modulus, fx) is Some,
        graph_stands(
            block_node(b, node),
            isem(block_node(b, node).ir, s, modulus, fx)->Some_0,
            tsem(tokens_of_node(node), o, modulus, fuel)->Some_0,
            modulus,
        ),
    decreases node, 0nat, 0nat,
{
    match node {
        SpecAST::Add(k) => {
            lemma_tsem_one(SpecToken::Add(0, k), o, modulus, fuel);
            assert(tsem_token(SpecToken::Add(0, k), o, modulus, fuel) == Some(
                apply(SpecToken::Add(0, k), o, modulus),
            ));
            lemma_add_graph(b, k, x, o, modulus);
            fb
        },
        SpecAST::Shift(k) => {
            lemma_tsem_one(SpecToken::Move(k), o, modulus, fuel);
            assert(tsem_token(SpecToken::Move(k), o, modulus, fuel) == Some(
                apply(SpecToken::Move(k), o, modulus),
            ));
            lemma_shift_graph(b, k, x, o, modulus);
            fb
        },
        SpecAST::Output => {
            lemma_output_tokens(o, modulus, fuel);
            lemma_output_graph(b, s, x, o, modulus, fb);
            fb
        },
        SpecAST::Input => {
            lemma_tsem_one(SpecToken::Input, o, modulus, fuel);
            assert(tsem_token(SpecToken::Input, o, modulus, fuel) == Some(
                apply(SpecToken::Input, o, modulus),
            ));
            lemma_input_graph(b, s, x, o, modulus, fb);
            fb
        },
        SpecAST::Loop(body) => {
            let token = SpecToken::Loop(tokens_of(body));
            lemma_tsem_one(token, o, modulus, fuel);
            assert(tsem_token(token, o, modulus, fuel) == tsem_loop(
                tokens_of(body),
                o,
                modulus,
                fuel,
            ));
            lemma_loop_node_graph(b, body, size, s, x, o, modulus, fuel, fb)
        },
    }
}

/// The optimizer after a loop.
pub proof fn lemma_loop_node_graph(
    b: SpecBlock,
    body: Seq<SpecAST>,
    size: nat,
    s: TokenState,
    x: TokenState,
    o: TokenState,
    modulus: int,
    fuel: nat,
    fb: nat,
) -> (fx: nat)
    requires
        byte_modulus(modulus),
        safe(b.expr),
        block_weighed(b, size),
        size + 1 + ast_size(body) <= MAX_AST_NODES,
        node_pure(SpecAST::Loop(body)),
        isem(b.ir, s, modulus, fb) == Some(x),
        graph_stands(b, x, o, modulus),
        tsem_loop(tokens_of(body), o, modulus, fuel) is Some,
    ensures
        isem(
            after_loop(b, block_result(body, false).0, block_result(body, false).1).ir,
            s,
            modulus,
            fx,
        ) is Some,
        graph_stands(
            after_loop(b, block_result(body, false).0, block_result(body, false).1),
            isem(
                after_loop(b, block_result(body, false).0, block_result(body, false).1).ir,
                s,
                modulus,
                fx,
            )->Some_0,
            tsem_loop(tokens_of(body), o, modulus, fuel)->Some_0,
            modulus,
        ),
    decreases body, 4nat, 0nat,
{
    let tokens = tokens_of(body);
    let inner = block_result(body, false);
    let b1 = after_loop(b, inner.0, inner.1);
    let after = tsem_loop(tokens, o, modulus, fuel)->Some_0;
    let e = dag_simplify(b.expr);
    lemma_simplify(b.expr);
    lemma_simplify_val(b.expr, x, modulus);
    lemma_simplify_safe(b.expr);
    lemma_tsem_loop_sound(tokens, o, modulus, fuel);
    lemma_tokens_of_closed(body);
    lemma_tsem_loop_buffer(tokens, o, modulus, fuel);
    match flat_body(inner.0, inner.1) {
        Some(flat) => {
            let d = inner.0[0]->Expr_0;
            lemma_result_safe(body, false);
            assert(ir_safe(inner.0));
            assert(inner.0.last() == inner.0[0]);
            assert(step_safe(inner.0[0]));
            assert(safe(d));
            lemma_block_result_weight(body, false);
            assert(d.terminals.len() <= ast_size(body));
            assert forall|s1: TokenState, f1: nat|
                tsound(s1, modulus) && s1.buffer.len() == 0 && (#[trigger] tsem(
                    tokens,
                    s1,
                    modulus,
                    f1,
                )) is Some implies tsem(tokens, s1, modulus, f1)->Some_0 == after_expr(
                d,
                s1,
                modulus,
            ) by {
                let f2 = lemma_block_graph(body, s1, modulus, f1);
                let made = after_expr(d, s1, modulus);
                lemma_isem_push(Seq::<SpecIR>::empty(), SpecIR::Expr(d), s1, modulus, f2);
                assert(inner.0 =~= Seq::<SpecIR>::empty().push(SpecIR::Expr(d)));
                assert(isem(inner.0, s1, modulus, f2) == Some(made));
                assert(made.cursor.wrapping_add(0) == made.cursor);
                assert(flushed(made).output =~= made.output);
                assert(flushed(made).buffer =~= made.buffer);
            }
            assert(body_is(tokens, d, modulus));
            lemma_counted_loop(tokens, d, o, modulus, fuel);
            let moved_flat = dag_shift(flat, b.shift);
            let y = after_expr(e, x, modulus);
            lemma_after_expr_sound(e, x, modulus);
            lemma_shift_wf(flat, b.shift);
            lemma_shift_val(flat, b.shift, y, modulus);
            lemma_extend_wf(e, moved_flat);
            lemma_extend_val(e, moved_flat, x, modulus);
            assert forall|a: i32| tcell_sound(after, a, modulus) by {}
            assert forall|a: i32| graph_cell(b1.expr, x, after, a, modulus) by {
                let k = a.wrapping_sub(x.cursor);
                let from = k.wrapping_sub(b.shift);
                assert(a.wrapping_sub(o.cursor) == from);
                // What the moved state holds is what the state before the
                // loop holds.
                let at = moved(y, b.shift);
                let like = TokenState { tape: at.tape, cursor: at.cursor, ..o };
                assert(at.tape =~= o.tape) by {
                    assert forall|c: i32| #[trigger]
                        at.tape.dom().contains(c) && o.tape.dom().contains(c) by {
                        assert(tcell_sound(o, c, modulus));
                    }
                    assert forall|c: i32| #[trigger] at.tape[c] == o.tape[c] by {
                        assert(graph_cell(b.expr, x, o, c, modulus));
                    }
                }
                assert(like == o);
                lemma_due_same(flat, from, at, o, modulus);
                assert(due_cell(b1.expr, k, x, modulus) == due_cell(moved_flat, k, y, modulus));
                assert(due_cell(moved_flat, k, y, modulus) == due_cell(flat, from, at, modulus));
            }
            fb
        },
        None => {
            lemma_commit_nonempty(b, e, s, x, o, modulus, fb);
            let ir1 = b.ir.push(SpecIR::Expr(e));
            let x1 = isem(ir1, s, modulus, fb)->Some_0;
            let z = moved(flushed(x1), b.shift);
            assert(z == o) by {
                assert(z.output =~= o.output);
                assert(z.buffer =~= o.buffer);
            }
            let fl = lemma_loop_graph(body, o, modulus, fuel);
            let step = SpecIR::Loop(b.shift, inner.0, inner.1);
            lemma_isem_more(ir1, s, modulus, fb, fl);
            lemma_isem_loop_more(inner.0, inner.1, o, modulus, fl, fb);
            assert(fl + fb == fb + fl);
            lemma_isem_push(ir1, step, s, modulus, fb + fl);
            assert(after.output =~= after.output + after.buffer);
            assert forall|a: i32| graph_cell(b1.expr, after, after, a, modulus) by {
                let k = a.wrapping_sub(after.cursor);
                assert(a == after.cursor.wrapping_add(k));
            }
            assert(after.cursor.wrapping_add(0) == after.cursor);
            fb + fl
        },
    }
}

/// The state after a graph that computes what the graph of the block
/// computes is committed, as a step of its own.
proof fn lemma_commit_nonempty(
    b: SpecBlock,
    d: SpecDAG,
    s: TokenState,
    x: TokenState,
    o: TokenState,
    modulus: int,
    fuel: nat,
)
    requires
        modulus > 0,
        isem(b.ir, s, modulus, fuel) == Some(x),
        graph_stands(b, x, o, modulus),
        forall|k: i32| #[trigger] due_cell(d, k, x, modulus) == due_cell(b.expr, k, x, modulus),
    ensures
        isem(b.ir.push(SpecIR::Expr(d)), s, modulus, fuel) == Some(
            TokenState { tape: o.tape, ..x },
        ),
{
    lemma_isem_push(b.ir, SpecIR::Expr(d), s, modulus, fuel);
    let after = after_expr(d, x, modulus);
    assert(after.tape =~= o.tape) by {
        assert forall|a: i32| #[trigger]
            after.tape.dom().contains(a) && o.tape.dom().contains(a) by {
            assert(tcell_sound(o, a, modulus));
        }
        assert forall|a: i32| #[trigger] after.tape[a] == o.tape[a] by {
            let k = a.wrapping_sub(x.cursor);
            assert(graph_cell(b.expr, x, o, a, modulus));
            assert(due_cell(d, k, x, modulus) == due_cell(b.expr, k, x, modulus));
        }
    }
}

/// A loop over the intermediate form of a body does what the loop over
/// the tokens of the body does.
pub proof fn lemma_loop_graph(
    body: Seq<SpecAST>,
    s: TokenState,
    modulus: int,
    fuel: nat,
) -> (fx: nat)
    requires
        byte_modulus(modulus),
        ast_size(body) <= MAX_AST_NODES,
        loops_pure(body),
        tsound(s, modulus),
        s.buffer.len() == 0,
        tsem_loop(tokens_of(body), s, modulus, fuel) is Some,
    ensures
        isem_loop(block_result(body, false).0, block_result(body, false).1, s, modulus, fx)
            == tsem_loop(tokens_of(body), s, modulus, fuel),
    decreases body, 3nat, fuel,
{
    if cell_is_zero(s, 0, modulus) {
        0
    } else {
        let rest = (fuel - 1) as nat;
        let inner = block_result(body, false);
        let f1 = lemma_block_graph(body, s, modulus, rest);
        let ob = tsem(tokens_of(body), s, modulus, rest)->Some_0;
        lemma_tsem_sound(tokens_of(body), s, modulus, rest);
        lemma_tokens_of_closed(body);
        crate::semantics::peephole::lowering::lemma_tsem_buffer(tokens_of(body), s, modulus, rest);
        let f2 = lemma_loop_graph(body, ob, modulus, rest);
        lemma_isem_more(inner.0, s, modulus, f1, f2);
        lemma_isem_loop_more(inner.0, inner.1, ob, modulus, f2, f1);
        assert(f2 + f1 == f1 + f2);
        assert((1 + f1 + f2 - 1) as nat == f1 + f2);
        1 + f1 + f2
    }
}

/// The intermediate form of a body does what the tokens of the body do:
/// where the tokens end, the steps end, within the fuel that the lemma
/// gives, and with the output buffer written and the cursor moved to
/// where the body ends, the state is the state after the tokens.
pub proof fn lemma_block_graph(
    body: Seq<SpecAST>,
    s: TokenState,
    modulus: int,
    fuel: nat,
) -> (fx: nat)
    requires
        byte_modulus(modulus),
        ast_size(body) <= MAX_AST_NODES,
        loops_pure(body),
        tsound(s, modulus),
        s.buffer.len() == 0,
        tsem(tokens_of(body), s, modulus, fuel) is Some,
    ensures
        isem(block_result(body, false).0, s, modulus, fx) is Some,
        tsem(tokens_of(body), s, modulus, fuel)->Some_0 == moved(
            flushed(isem(block_result(body, false).0, s, modulus, fx)->Some_0),
            block_result(body, false).1,
        ),
    decreases body, 2nat, 0nat,
{
    let b = block_fold(body, false);
    let fx = lemma_fold_graph(body, false, s, modulus, fuel);
    let x = isem(b.ir, s, modulus, fx)->Some_0;
    let o = tsem(tokens_of(body), s, modulus, fuel)->Some_0;
    lemma_fold_safe(body, false);
    lemma_block_fold_weight(body, false);
    lemma_simplify_val(b.expr, x, modulus);
    lemma_commit_graph(b, dag_simplify(b.expr), s, x, o, modulus, fx);
    let x1 = isem(block_result(body, false).0, s, modulus, fx)->Some_0;
    let z = moved(flushed(x1), b.shift);
    assert(z.output =~= o.output);
    assert(z.buffer =~= o.buffer);
    fx
}

/// The intermediate form of a program, in which no flat loop sets a cell to
/// a constant, writes what the tokens of the program write: where the
/// tokens end from a state with every cell zero, the steps end, within the
/// fuel that the lemma gives, and with the output buffer written they have
/// written the same output.
pub proof fn lemma_new_ir_keeps_output(
    ast: Seq<SpecAST>,
    s: TokenState,
    modulus: int,
    fuel: nat,
) -> (fx: nat)
    requires
        byte_modulus(modulus),
        ast_size(ast) <= MAX_AST_NODES,
        loops_pure(ast),
        tsound(s, modulus),
        s.buffer.len() == 0,
        forall|a: i32| #[trigger] s.tape[a] == 0,
        tsem(tokens_of(ast), s, modulus, fuel) is Some,
    ensures
        isem(new_ir(ast), s, modulus, fx) is Some,
        flushed(isem(new_ir(ast), s, modulus, fx)->Some_0).output == tsem(
            tokens_of(ast),
            s,
            modulus,
            fuel,
        )->Some_0.output,
{
    let b = block_fold(ast, true);
    let fx = lemma_fold_graph(ast, true, s, modulus, fuel);
    let x = isem(b.ir, s, modulus, fx)->Some_0;
    let o = tsem(tokens_of(ast), s, modulus, fuel)->Some_0;
    lemma_fold_safe(ast, true);
    lemma_block_fold_weight(ast, true);
    lemma_simplify_val(b.expr, x, modulus);
    lemma_commit_graph(b, dag_simplify(b.expr), s, x, o, modulus, fx);
    fx
}

} // verus!
