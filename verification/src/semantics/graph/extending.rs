//! A graph that is moved, and a graph with another appended, compute what
//! the parts compute.

use vstd::prelude::*;
use crate::offset_map::{lemma_lookup_with_entry, lemma_with_entry_push, lookup, with_entry};
use crate::optimizer::new::dag::{
    dag_extend, dag_shift, dag_wf, extended_value, lemma_terminal_in_range, lemma_with_terminal,
    merged_terminals, moved_node, refers_below, shift_terminals, shift_value, Node, SpecDAG,
    Value,
};
use crate::semantics::graph::graphs::{
    after_expr, begins_with, due_cell, lemma_val_more, lemma_val_node, lemma_val_of_more,
    lemma_val_range, val,
};
use crate::semantics::peephole::pending::{tcell_sound, tsound};
use crate::semantics::peephole::tokens::{cell, TokenState};

verus! {

/// The state with the cursor moved.
pub open spec fn moved(s: TokenState, shift: i32) -> TokenState {
    TokenState { cursor: s.cursor.wrapping_add(shift), ..s }
}

/// The terminals of a graph without its last terminal are terminals of a
/// well-formed graph.
proof fn lemma_fewer_terminals(nodes: Seq<Value>, terminals: Seq<(i32, Node)>, zeroed: bool)
    requires
        dag_wf(SpecDAG { nodes, terminals, zeroed }),
        terminals.len() > 0,
    ensures
        dag_wf(SpecDAG { nodes, terminals: terminals.drop_last(), zeroed }),
        terminals.last().1.0 < nodes.len(),
        with_entry(terminals.drop_last(), terminals.last().0, terminals.last().1) == terminals,
{
    let few = terminals.drop_last();
    assert(terminals =~= few.push(terminals.last()));
    lemma_with_entry_push(few, terminals.last().0, terminals.last().1);
    assert forall|i: int| 0 <= i < few.len() implies (#[trigger] few[i]).1.0 < nodes.len() by {
        assert(few[i] == terminals[i]);
    }
    assert(terminals[terminals.len() - 1].1.0 < nodes.len());
}

/// The moved terminals hold at an offset what the terminals hold at the
/// offset before the move, and are terminals of the graph.
pub proof fn lemma_shift_terminals(
    nodes: Seq<Value>,
    terminals: Seq<(i32, Node)>,
    zeroed: bool,
    shift: i32,
)
    requires
        dag_wf(SpecDAG { nodes, terminals, zeroed }),
    ensures
        dag_wf(SpecDAG { nodes, terminals: shift_terminals(terminals, shift), zeroed }),
        forall|j: i32|
            #[trigger] lookup(shift_terminals(terminals, shift), j) == lookup(
                terminals,
                j.wrapping_sub(shift),
            ),
    decreases terminals.len(),
{
    if terminals.len() > 0 {
        let few = terminals.drop_last();
        let (offset, node) = terminals.last();
        lemma_fewer_terminals(nodes, terminals, zeroed);
        lemma_shift_terminals(nodes, few, zeroed, shift);
        let before = SpecDAG { nodes, terminals: shift_terminals(few, shift), zeroed };
        lemma_with_terminal(before, offset.wrapping_add(shift), node);
        assert forall|j: i32|
            #[trigger] lookup(shift_terminals(terminals, shift), j) == lookup(
                terminals,
                j.wrapping_sub(shift),
            ) by {
            lemma_lookup_with_entry(before.terminals, offset.wrapping_add(shift), node, j);
            lemma_lookup_with_entry(few, offset, node, j.wrapping_sub(shift));
        }
    }
}

/// A node of a moved graph computes over a state what the node computes
/// over the state with the cursor moved.
pub proof fn lemma_shift_node_val(
    nodes: Seq<Value>,
    shift: i32,
    n: int,
    s: TokenState,
    modulus: int,
)
    ensures
        val(Seq::new(nodes.len(), |i: int| shift_value(nodes[i], shift)), n, s, modulus) == val(
            nodes,
            n,
            moved(s, shift),
            modulus,
        ),
    decreases n,
{
    if 0 <= n < nodes.len() {
        match nodes[n] {
            Value::Multiply(l, r) => {
                if l.0 < n && r.0 < n {
                    lemma_shift_node_val(nodes, shift, l.0 as int, s, modulus);
                    lemma_shift_node_val(nodes, shift, r.0 as int, s, modulus);
                }
            },
            Value::Add(l, r) => {
                if l.0 < n && r.0 < n {
                    lemma_shift_node_val(nodes, shift, l.0 as int, s, modulus);
                    lemma_shift_node_val(nodes, shift, r.0 as int, s, modulus);
                }
            },
            _ => {},
        }
    }
}

/// A moved graph is well formed, and holds at an offset the terminal that
/// the graph holds at the offset before the move.
pub proof fn lemma_shift_wf(d: SpecDAG, shift: i32)
    requires
        dag_wf(d),
    ensures
        dag_wf(dag_shift(d, shift)),
        dag_shift(d, shift).nodes.len() == d.nodes.len(),
        forall|j: i32|
            #[trigger] lookup(dag_shift(d, shift).terminals, j) == lookup(
                d.terminals,
                j.wrapping_sub(shift),
            ),
{
    let nodes = Seq::new(d.nodes.len(), |i: int| shift_value(d.nodes[i], shift));
    assert forall|i: int| 0 <= i < nodes.len() implies refers_below(#[trigger] nodes[i], i) by {
        assert(refers_below(d.nodes[i], i));
    }
    lemma_shift_terminals(d.nodes, d.terminals, d.zeroed, shift);
    let moved_terminals = shift_terminals(d.terminals, shift);
    let tmp = SpecDAG { nodes: d.nodes, terminals: moved_terminals, zeroed: d.zeroed };
    assert(dag_wf(tmp));
    assert forall|i: int| 0 <= i < moved_terminals.len() implies (
    #[trigger] moved_terminals[i]).1.0 < nodes.len() by {
        assert(tmp.terminals[i].1.0 < tmp.nodes.len());
    }
}

/// A cell is due in a moved graph what the cell before the move is due in
/// the graph, over the state with the cursor moved.
pub proof fn lemma_shift_val(d: SpecDAG, shift: i32, s: TokenState, modulus: int)
    requires
        dag_wf(d),
    ensures
        forall|k: i32|
            #[trigger] due_cell(dag_shift(d, shift), k, s, modulus) == due_cell(
                d,
                k.wrapping_sub(shift),
                moved(s, shift),
                modulus,
            ),
{
    lemma_shift_wf(d, shift);
    assert forall|k: i32|
        #[trigger] due_cell(dag_shift(d, shift), k, s, modulus) == due_cell(
            d,
            k.wrapping_sub(shift),
            moved(s, shift),
            modulus,
        ) by {
        if let Some(node) = lookup(d.terminals, k.wrapping_sub(shift)) {
            lemma_shift_node_val(d.nodes, shift, node.0 as int, s, modulus);
        }
    }
}

/// The merged terminals hold at an offset the moved node of the appended
/// graph where that has one, else what the terminals hold.
pub proof fn lemma_merged_terminals(
    nodes: Seq<Value>,
    terminals: Seq<(i32, Node)>,
    zeroed: bool,
    extra: SpecDAG,
    base: int,
)
    requires
        dag_wf(SpecDAG { nodes, terminals, zeroed }),
        dag_wf(extra),
        base + extra.nodes.len() <= nodes.len() <= usize::MAX,
        0 <= base,
    ensures
        dag_wf(
            SpecDAG { nodes, terminals: merged_terminals(terminals, extra.terminals, base), zeroed },
        ),
        forall|j: i32|
            #[trigger] lookup(merged_terminals(terminals, extra.terminals, base), j) == (
            match lookup(extra.terminals, j) {
                Some(n) => Some(moved_node(n, base)),
                None => lookup(terminals, j),
            }),
    decreases extra.terminals.len(),
{
    if extra.terminals.len() > 0 {
        let few = extra.terminals.drop_last();
        let (offset, node) = extra.terminals.last();
        lemma_fewer_terminals(extra.nodes, extra.terminals, extra.zeroed);
        let part = SpecDAG { terminals: few, ..extra };
        lemma_merged_terminals(nodes, terminals, zeroed, part, base);
        let before = SpecDAG { nodes, terminals: merged_terminals(terminals, few, base), zeroed };
        lemma_with_terminal(before, offset, moved_node(node, base));
        assert forall|j: i32|
            #[trigger] lookup(merged_terminals(terminals, extra.terminals, base), j) == (
            match lookup(extra.terminals, j) {
                Some(n) => Some(moved_node(n, base)),
                None => lookup(terminals, j),
            }) by {
            lemma_lookup_with_entry(before.terminals, offset, moved_node(node, base), j);
            lemma_lookup_with_entry(few, offset, node, j);
        }
    }
}

/// A node of the appended graph computes, in the extended graph over a
/// state, what it computes over the state after the first graph.
pub proof fn lemma_extend_node_val(
    d: SpecDAG,
    e: SpecDAG,
    i: int,
    s: TokenState,
    modulus: int,
)
    requires
        dag_wf(d),
        dag_wf(e),
        d.nodes.len() + e.nodes.len() <= usize::MAX,
        0 <= i < e.nodes.len(),
    ensures
        val(dag_extend(d, e).nodes, d.nodes.len() + i, s, modulus) == val(
            e.nodes,
            i,
            after_expr(d, s, modulus),
            modulus,
        ),
    decreases i,
{
    let base = d.nodes.len() as int;
    let all = dag_extend(d, e).nodes;
    let y = after_expr(d, s, modulus);
    assert(begins_with(all, d.nodes));
    assert(all[base + i] == extended_value(d, e.nodes[i], base));
    assert(refers_below(e.nodes[i], i));
    match e.nodes[i] {
        Value::Tape(offset) => {
            let at = s.cursor.wrapping_add(offset);
            assert(at.wrapping_sub(s.cursor) == offset);
            assert(cell(y, offset) == due_cell(d, offset, s, modulus));
            lemma_terminal_in_range(d, offset);
            if let Some(node) = lookup(d.terminals, offset) {
                let value = d.nodes[node.0 as int];
                assert(refers_below(value, node.0 as int));
                lemma_val_node(d.nodes, node.0 as int, s, modulus);
                lemma_val_of_more(d.nodes, all, value, s, modulus);
                assert(refers_below(all[base + i], base + i));
                lemma_val_node(all, base + i, s, modulus);
            }
        },
        Value::Const(_) => {},
        Value::Multiply(l, r) => {
            lemma_extend_node_val(d, e, l.0 as int, s, modulus);
            lemma_extend_node_val(d, e, r.0 as int, s, modulus);
        },
        Value::Add(l, r) => {
            lemma_extend_node_val(d, e, l.0 as int, s, modulus);
            lemma_extend_node_val(d, e, r.0 as int, s, modulus);
        },
    }
}

/// The state after a graph is committed is sound.
pub proof fn lemma_after_expr_sound(d: SpecDAG, s: TokenState, modulus: int)
    requires
        modulus > 0,
        tsound(s, modulus),
    ensures
        tsound(after_expr(d, s, modulus), modulus),
        forall|k: i32| #[trigger] cell(after_expr(d, s, modulus), k) == due_cell(d, k, s, modulus),
{
    let y = after_expr(d, s, modulus);
    assert forall|a: i32| tcell_sound(y, a, modulus) by {
        let k = a.wrapping_sub(s.cursor);
        assert(tcell_sound(s, s.cursor.wrapping_add(k), modulus));
        if let Some(node) = lookup(d.terminals, k) {
            lemma_val_range(d.nodes, node.0 as int, s, modulus);
        }
    }
    assert forall|k: i32| #[trigger] cell(y, k) == due_cell(d, k, s, modulus) by {
        assert(s.cursor.wrapping_add(k).wrapping_sub(s.cursor) == k);
    }
}

/// A graph with another appended is well formed, and holds at an offset
/// the moved terminal of the appended graph where that has one, else its
/// own.
pub proof fn lemma_extend_wf(d: SpecDAG, e: SpecDAG)
    requires
        dag_wf(d),
        dag_wf(e),
        d.nodes.len() + e.nodes.len() <= usize::MAX,
    ensures
        dag_wf(dag_extend(d, e)),
        dag_extend(d, e).nodes.len() == d.nodes.len() + e.nodes.len(),
        dag_extend(d, e).zeroed == d.zeroed,
        begins_with(dag_extend(d, e).nodes, d.nodes),
        forall|j: i32|
            #[trigger] lookup(dag_extend(d, e).terminals, j) == (match lookup(e.terminals, j) {
                Some(n) => Some(moved_node(n, d.nodes.len() as int)),
                None => lookup(d.terminals, j),
            }),
{
    let base = d.nodes.len() as int;
    let ext = dag_extend(d, e);
    let all = ext.nodes;
    assert(begins_with(all, d.nodes));
    assert forall|i: int| 0 <= i < all.len() implies refers_below(#[trigger] all[i], i) by {
        if i < base {
            assert(refers_below(d.nodes[i], i));
        } else {
            let value = e.nodes[i - base];
            assert(all[i] == extended_value(d, value, base));
            assert(refers_below(value, i - base));
            if let Value::Tape(offset) = value {
                lemma_terminal_in_range(d, offset);
                if let Some(node) = lookup(d.terminals, offset) {
                    assert(refers_below(d.nodes[node.0 as int], node.0 as int));
                }
            }
        }
    }
    let wide = SpecDAG { nodes: all, terminals: d.terminals, zeroed: d.zeroed };
    assert(dag_wf(wide)) by {
        assert forall|i: int| 0 <= i < d.terminals.len() implies (#[trigger] wide.terminals[i]).1.0
            < all.len() by {
            assert(d.terminals[i].1.0 < d.nodes.len());
        }
    }
    lemma_merged_terminals(all, d.terminals, d.zeroed, e, base);
}

/// A cell is due in a graph with another appended what it is due in the
/// appended graph over the state after the first.
pub proof fn lemma_extend_val(d: SpecDAG, e: SpecDAG, s: TokenState, modulus: int)
    requires
        modulus > 0,
        tsound(s, modulus),
        dag_wf(d),
        dag_wf(e),
        d.nodes.len() + e.nodes.len() <= usize::MAX,
    ensures
        forall|k: i32|
            #[trigger] due_cell(dag_extend(d, e), k, s, modulus) == due_cell(
                e,
                k,
                after_expr(d, s, modulus),
                modulus,
            ),
{
    let ext = dag_extend(d, e);
    let all = ext.nodes;
    let y = after_expr(d, s, modulus);
    lemma_extend_wf(d, e);
    lemma_after_expr_sound(d, s, modulus);
    assert forall|k: i32|
        #[trigger] due_cell(ext, k, s, modulus) == due_cell(e, k, y, modulus) by {
        lemma_terminal_in_range(e, k);
        lemma_terminal_in_range(d, k);
        match lookup(e.terminals, k) {
            Some(n) => {
                lemma_extend_node_val(d, e, n.0 as int, s, modulus);
            },
            None => {
                assert(cell(y, k) == due_cell(d, k, s, modulus));
                if let Some(node) = lookup(d.terminals, k) {
                    lemma_val_more(d.nodes, all, node.0 as int, s, modulus);
                }
            },
        }
    }
}

} // verus!
