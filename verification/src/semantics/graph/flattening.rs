//! The graph that stands for a flat multiplier loop computes what the loop
//! does, where the body of the loop sets no cell to a constant.

use vstd::arithmetic::div_mod::{
    lemma_add_mod_noop_right, lemma_mul_mod_noop_right, lemma_small_mod,
};
use vstd::prelude::*;
use crate::offset_map::{
    ascending, lemma_lookup_with_entry, lemma_rank_from, lemma_with_entry_push, lookup, rank,
};
use crate::optimizer::new::dag::{
    dag_add_node, dag_as_add_const, dag_wf, empty_dag, lemma_add_node, lemma_terminal_in_range,
    refers_below, Node, SpecDAG, Value,
};
use crate::optimizer::new::optimize_expr::{flat_fold, flat_loop};
use crate::optimizer::peephole::token::SpecToken;
use crate::semantics::graph::graphs::{
    after_expr, due_cell, lemma_add_node_val, lemma_set_val, lemma_val_more, lemma_val_node,
    val_of,
};
use crate::semantics::graph::extending::lemma_after_expr_sound;
use crate::semantics::peephole::passes::lemma_mod_sum;
use crate::semantics::peephole::pending::{tcell_sound, tsound};
use crate::semantics::peephole::tokens::{cell, cell_is_zero, tsem, tsem_loop, TokenState};

verus! {

/// Whether a terminal of the body of a loop keeps its cell or adds a
/// constant to it; the terminal of the current cell always counts.
pub open spec fn adds_only(body: SpecDAG, terminal: (i32, Node)) -> bool {
    terminal.0 == 0 || body.nodes[terminal.1.0 as int] == Value::Tape(terminal.0)
        || dag_as_add_const(body, terminal.0) is Some
}

/// Whether the body of a loop sets no cell to a constant: every terminal
/// keeps its cell or adds a constant to it.
pub open spec fn flat_pure(body: SpecDAG) -> bool {
    forall|t: int| 0 <= t < body.terminals.len() ==> adds_only(body, #[trigger] body.terminals[t])
}

/// In an ascending sequence an entry is found at its key.
pub proof fn lemma_lookup_entry<V>(s: Seq<(i32, V)>, i: int)
    requires
        ascending(s),
        0 <= i < s.len(),
    ensures
        lookup(s, s[i].0) == Some(s[i].1),
{
    lemma_rank_from(s, s[i].0, 0);
    let r = rank(s, s[i].0);
    if r < i {
        assert(s[r].0 < s[i].0);
    } else if r > i {
        assert(s[i].0 < s[i].0);
    }
}

/// A cell that a graph adds a constant to is due what it holds and the
/// constant.
pub proof fn lemma_add_const_val(d: SpecDAG, offset: i32, s: TokenState, modulus: int)
    requires
        modulus > 0,
        dag_wf(d),
        dag_as_add_const(d, offset) is Some,
    ensures
        due_cell(d, offset, s, modulus) == (cell(s, offset) + dag_as_add_const(d, offset)->Some_0)
            % modulus,
{
    let a = dag_as_add_const(d, offset)->Some_0;
    lemma_terminal_in_range(d, offset);
    match lookup(d.terminals, offset) {
        Some(node) => {
            assert(refers_below(d.nodes[node.0 as int], node.0 as int));
            if let Value::Add(l, r) = d.nodes[node.0 as int] {
                lemma_val_node(d.nodes, node.0 as int, s, modulus);
                assert(refers_below(d.nodes[l.0 as int], l.0 as int));
                assert(refers_below(d.nodes[r.0 as int], r.0 as int));
                lemma_val_node(d.nodes, l.0 as int, s, modulus);
                lemma_val_node(d.nodes, r.0 as int, s, modulus);
                lemma_add_mod_noop_right(cell(s, offset), a as int, modulus);
            }
        },
        None => {},
    }
}

/// What a cell is due in the graph of a flat loop whose body has the
/// terminals `terminals`: zero in the current cell; in a cell that the
/// body adds a constant to, the constant times the current cell added; and
/// what it holds elsewhere.
pub open spec fn flat_due(
    body: SpecDAG,
    terminals: Seq<(i32, Node)>,
    k: i32,
    s: TokenState,
    modulus: int,
) -> int {
    if k == 0 {
        0
    } else {
        match lookup(terminals, k) {
            Some(node) => if body.nodes[node.0 as int] == Value::Tape(k) {
                cell(s, k)
            } else {
                match dag_as_add_const(body, k) {
                    Some(a) => (cell(s, k) + (cell(s, 0) * ((a as int) % modulus)) % modulus)
                        % modulus,
                    None => cell(s, k),
                }
            },
            None => cell(s, k),
        }
    }
}

/// The graph of a flat loop computes, for the terminals of the body that it
/// is made of, what the loop does.
pub proof fn lemma_flat_fold_val(
    body: SpecDAG,
    terminals: Seq<(i32, Node)>,
    s: TokenState,
    modulus: int,
)
    requires
        modulus > 0,
        tsound(s, modulus),
        ascending(terminals),
        terminals.len() <= 0x1000_0000,
        forall|t: int| 0 <= t < terminals.len() ==> adds_only(body, #[trigger] terminals[t]),
        flat_fold(body, terminals) is Some,
    ensures
        dag_wf(flat_fold(body, terminals)->Some_0),
        flat_fold(body, terminals)->Some_0.nodes.len() <= 1 + 5 * terminals.len(),
        !flat_fold(body, terminals)->Some_0.zeroed,
        forall|k: i32|
            #[trigger] due_cell(flat_fold(body, terminals)->Some_0, k, s, modulus) == flat_due(
                body,
                terminals,
                k,
                s,
                modulus,
            ),
    decreases terminals.len(),
{
    let flat = flat_fold(body, terminals)->Some_0;
    crate::optimizer::new::optimize_expr::lemma_flat_fold(body, terminals);
    if terminals.len() == 0 {
        let none = empty_dag(false);
        lemma_set_val(none, 0, Value::Const(0), s, modulus);
        lemma_small_mod(0, modulus as nat);
        assert forall|k: i32|
            #[trigger] due_cell(flat, k, s, modulus) == flat_due(
                body,
                terminals,
                k,
                s,
                modulus,
            ) by {}
    } else {
        let few = terminals.drop_last();
        let (offset, node) = terminals.last();
        assert(terminals =~= few.push((offset, node)));
        lemma_with_entry_push(few, offset, node);
        assert forall|t: int| 0 <= t < few.len() implies adds_only(body, #[trigger] few[t]) by {
            assert(few[t] == terminals[t]);
        }
        assert(adds_only(body, terminals[terminals.len() - 1]));
        lemma_flat_fold_val(body, few, s, modulus);
        crate::optimizer::new::optimize_expr::lemma_flat_fold(body, few);
        let expr = flat_fold(body, few)->Some_0;
        // No terminal before this one has its offset.
        assert(lookup(few, offset) is None) by {
            if lookup(few, offset) is Some {
                lemma_rank_from(few, offset, 0);
                let r = rank(few, offset);
                assert(terminals[r] == few[r]);
                assert(terminals[r].0 < terminals[terminals.len() - 1].0);
            }
        }
        if offset != 0 && body.nodes[node.0 as int] != Value::Tape(offset) {
            let a = dag_as_add_const(body, offset)->Some_0;
            lemma_add_node(expr, Value::Tape(offset));
            lemma_add_node_val(expr, Value::Tape(offset), s, modulus);
            let (e1, tapeval) = dag_add_node(expr, Value::Tape(offset));
            lemma_add_node(e1, Value::Tape(0));
            lemma_add_node_val(e1, Value::Tape(0), s, modulus);
            let (e2, lhs) = dag_add_node(e1, Value::Tape(0));
            lemma_add_node(e2, Value::Const(a));
            lemma_add_node_val(e2, Value::Const(a), s, modulus);
            let (e3, rhs) = dag_add_node(e2, Value::Const(a));
            lemma_val_more(e2.nodes, e3.nodes, lhs.0 as int, s, modulus);
            lemma_add_node(e3, Value::Multiply(lhs, rhs));
            lemma_add_node_val(e3, Value::Multiply(lhs, rhs), s, modulus);
            let (e4, addend) = dag_add_node(e3, Value::Multiply(lhs, rhs));
            lemma_val_more(e1.nodes, e2.nodes, tapeval.0 as int, s, modulus);
            lemma_val_more(e2.nodes, e3.nodes, tapeval.0 as int, s, modulus);
            lemma_val_more(e3.nodes, e4.nodes, tapeval.0 as int, s, modulus);
            let sum = Value::Add(tapeval, addend);
            lemma_set_val(e4, offset, sum, s, modulus);
            assert(val_of(e4.nodes, sum, s, modulus) == (cell(s, offset) + (cell(s, 0) * ((a
                as int) % modulus)) % modulus) % modulus);
            assert forall|k: i32|
                #[trigger] due_cell(flat, k, s, modulus) == flat_due(
                    body,
                    terminals,
                    k,
                    s,
                    modulus,
                ) by {
                lemma_lookup_with_entry(few, offset, node, k);
                assert(due_cell(expr, k, s, modulus) == flat_due(body, few, k, s, modulus));
                assert(due_cell(e1, k, s, modulus) == due_cell(expr, k, s, modulus));
                assert(due_cell(e2, k, s, modulus) == due_cell(e1, k, s, modulus));
                assert(due_cell(e3, k, s, modulus) == due_cell(e2, k, s, modulus));
                assert(due_cell(e4, k, s, modulus) == due_cell(e3, k, s, modulus));
            }
        } else {
            assert forall|k: i32|
                #[trigger] due_cell(flat, k, s, modulus) == flat_due(
                    body,
                    terminals,
                    k,
                    s,
                    modulus,
                ) by {
                lemma_lookup_with_entry(few, offset, node, k);
                assert(due_cell(expr, k, s, modulus) == flat_due(body, few, k, s, modulus));
            }
        }
    }
}

/// Whether a graph says what a token sequence does: each state in which
/// the sequence starts with nothing loaded is, when the sequence ends, the
/// state after the graph is committed.
pub open spec fn body_is(tokens: Seq<SpecToken>, body: SpecDAG, modulus: int) -> bool {
    forall|s: TokenState, fuel: nat|
        tsound(s, modulus) && s.buffer.len() == 0 && (#[trigger] tsem(tokens, s, modulus, fuel))
            is Some ==> tsem(tokens, s, modulus, fuel)->Some_0 == after_expr(body, s, modulus)
}

/// What a cell holds after a loop that counts the current cell down from
/// `c` has run: zero in the current cell; in a cell that the body adds a
/// constant to, `c` times the constant more; and what it held elsewhere.
pub open spec fn counted_due(body: SpecDAG, k: i32, under: int, c: int, modulus: int) -> int {
    if c == 0 {
        under
    } else if k == 0 {
        0
    } else {
        match lookup(body.terminals, k) {
            Some(node) => if body.nodes[node.0 as int] == Value::Tape(k) {
                under
            } else {
                match dag_as_add_const(body, k) {
                    Some(a) => (under + c * a) % modulus,
                    None => under,
                }
            },
            None => under,
        }
    }
}

/// What a cell is due after one pass of the body of a flat loop.
proof fn lemma_pass_due(body: SpecDAG, k: i32, s: TokenState, modulus: int)
    requires
        modulus > 0,
        tsound(s, modulus),
        dag_wf(body),
        flat_pure(body),
        dag_as_add_const(body, 0) == Some(-1i32),
    ensures
        due_cell(body, k, s, modulus) == match lookup(body.terminals, k) {
            Some(node) => if k != 0 && body.nodes[node.0 as int] == Value::Tape(k) {
                cell(s, k)
            } else {
                (cell(s, k) + dag_as_add_const(body, k)->Some_0) % modulus
            },
            None => cell(s, k),
        },
        lookup(body.terminals, k) matches Some(node) ==> (k == 0 || body.nodes[node.0 as int]
            == Value::Tape(k) || dag_as_add_const(body, k) is Some),
{
    lemma_terminal_in_range(body, k);
    if let Some(node) = lookup(body.terminals, k) {
        lemma_rank_from(body.terminals, k, 0);
        let r = rank(body.terminals, k);
        assert(adds_only(body, body.terminals[r]));
        if k != 0 && body.nodes[node.0 as int] == Value::Tape(k) {
            assert(refers_below(body.nodes[node.0 as int], node.0 as int));
        } else {
            lemma_add_const_val(body, k, s, modulus);
        }
    }
}

/// The cells after a flat loop that sets no cell to a constant.
proof fn lemma_counted_loop_tape(
    tokens: Seq<SpecToken>,
    body: SpecDAG,
    s: TokenState,
    modulus: int,
    fuel: nat,
)
    requires
        modulus > 0,
        body_is(tokens, body, modulus),
        dag_wf(body),
        flat_pure(body),
        dag_as_add_const(body, 0) == Some(-1i32),
        tsound(s, modulus),
        s.buffer.len() == 0,
        tsem_loop(tokens, s, modulus, fuel) is Some,
    ensures
        tsem_loop(tokens, s, modulus, fuel)->Some_0 == (TokenState {
            tape: tsem_loop(tokens, s, modulus, fuel)->Some_0.tape,
            ..s
        }),
        tsound(tsem_loop(tokens, s, modulus, fuel)->Some_0, modulus),
        forall|a: i32|
            #[trigger] tsem_loop(tokens, s, modulus, fuel)->Some_0.tape[a] == counted_due(
                body,
                a.wrapping_sub(s.cursor),
                s.tape[a],
                cell(s, 0),
                modulus,
            ),
    decreases fuel,
{
    let here = s.cursor.wrapping_add(0);
    assert(here.wrapping_sub(s.cursor) == 0);
    assert(tcell_sound(s, here, modulus));
    let c = cell(s, 0);
    lemma_small_mod(c as nat, modulus as nat);
    if !cell_is_zero(s, 0, modulus) {
        let ob = tsem(tokens, s, modulus, (fuel - 1) as nat)->Some_0;
        let after = tsem_loop(tokens, s, modulus, fuel)->Some_0;
        assert(ob == after_expr(body, s, modulus));
        lemma_after_expr_sound(body, s, modulus);
        lemma_counted_loop_tape(tokens, body, ob, modulus, (fuel - 1) as nat);
        let next = tsem_loop(tokens, ob, modulus, (fuel - 1) as nat)->Some_0;
        assert(after == next);
        lemma_pass_due(body, 0, s, modulus);
        lemma_small_mod((c - 1) as nat, modulus as nat);
        assert(cell(ob, 0) == due_cell(body, 0, s, modulus));
        assert(cell(ob, 0) == c - 1);
        assert forall|a: i32|
            #[trigger] after.tape[a] == counted_due(
                body,
                a.wrapping_sub(s.cursor),
                s.tape[a],
                c,
                modulus,
            ) by {
            let k = a.wrapping_sub(s.cursor);
            assert(a == s.cursor.wrapping_add(k));
            assert(tcell_sound(s, a, modulus));
            lemma_pass_due(body, k, s, modulus);
            assert(ob.tape[a] == due_cell(body, k, s, modulus));
            assert(next.tape[a] == counted_due(body, k, ob.tape[a], c - 1, modulus));
            if k != 0 {
                if let Some(node) = lookup(body.terminals, k) {
                    if body.nodes[node.0 as int] != Value::Tape(k) {
                        let v = dag_as_add_const(body, k)->Some_0;
                        if c - 1 != 0 {
                            lemma_mod_sum(s.tape[a], v as int, (c - 1) * v, modulus);
                            assert(v + (c - 1) * v == c * v) by (nonlinear_arith);
                        } else {
                            assert(c * v == v) by (nonlinear_arith)
                                requires
                                    c == 1,
                            ;
                        }
                    }
                }
            }
        }
    }
}

/// A flat loop that sets no cell to a constant does what its graph
/// computes.
pub proof fn lemma_counted_loop(
    tokens: Seq<SpecToken>,
    body: SpecDAG,
    s: TokenState,
    modulus: int,
    fuel: nat,
)
    requires
        modulus > 0,
        body_is(tokens, body, modulus),
        dag_wf(body),
        body.terminals.len() <= 0x1000_0000,
        flat_pure(body),
        flat_loop(body) is Some,
        tsound(s, modulus),
        s.buffer.len() == 0,
        tsem_loop(tokens, s, modulus, fuel) is Some,
    ensures
        tsem_loop(tokens, s, modulus, fuel)->Some_0 == after_expr(
            flat_loop(body)->Some_0,
            s,
            modulus,
        ),
        dag_wf(flat_loop(body)->Some_0),
        flat_loop(body)->Some_0.nodes.len() <= 1 + 5 * body.terminals.len(),
        !flat_loop(body)->Some_0.zeroed,
{
    let flat = flat_loop(body)->Some_0;
    let after = tsem_loop(tokens, s, modulus, fuel)->Some_0;
    let made = after_expr(flat, s, modulus);
    let here = s.cursor.wrapping_add(0);
    assert(tcell_sound(s, here, modulus));
    let c = cell(s, 0);
    lemma_counted_loop_tape(tokens, body, s, modulus, fuel);
    lemma_flat_fold_val(body, body.terminals, s, modulus);
    assert(after.tape =~= made.tape) by {
        assert forall|a: i32| #[trigger]
            after.tape.dom().contains(a) && made.tape.dom().contains(a) by {
            assert(tcell_sound(after, a, modulus));
        }
        assert forall|a: i32| #[trigger] after.tape[a] == made.tape[a] by {
            let k = a.wrapping_sub(s.cursor);
            assert(a == s.cursor.wrapping_add(k));
            assert(tcell_sound(s, a, modulus));
            assert(made.tape[a] == flat_due(body, body.terminals, k, s, modulus));
            lemma_small_mod(s.tape[a] as nat, modulus as nat);
            if k != 0 {
                if let Some(node) = lookup(body.terminals, k) {
                    if body.nodes[node.0 as int] != Value::Tape(k) {
                        if let Some(v) = dag_as_add_const(body, k) {
                            lemma_mul_mod_noop_right(c, v as int, modulus);
                            lemma_add_mod_noop_right(s.tape[a], c * v, modulus);
                            lemma_add_mod_noop_right(
                                s.tape[a],
                                c * ((v as int) % modulus),
                                modulus,
                            );
                            if c == 0 {
                                assert(c * v == 0) by (nonlinear_arith)
                                    requires
                                        c == 0,
                                ;
                            }
                        }
                    }
                }
            }
        }
    }
}

} // verus!
