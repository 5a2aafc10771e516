//! A simplified graph computes what the graph computes.

use vstd::arithmetic::div_mod::{lemma_mul_mod_noop, lemma_small_mod};
use vstd::prelude::*;
use crate::offset_map::{lemma_lookup_with_entry, lemma_with_entry_push, lookup};
use crate::optimizer::new::dag::{
    combine_add, combine_mul, dag_add_node, dag_simplify, dag_wf, empty_dag, lemma_add_node,
    lemma_set, lemma_simplify_value_keeps, nodes_ordered, refers_below, simplify_terminals,
    simplify_value, Node, SpecDAG, Value,
};
use crate::semantics::gathering::lemma_wrapped_sum;
use crate::semantics::graph::graphs::{
    begins_with, due_cell, lemma_add_node_val, lemma_begins, lemma_set_val, lemma_val_more,
    lemma_val_of_more, lemma_val_of_range, val, val_of,
};
use crate::semantics::peephole::passes::{byte_modulus, lemma_wrapped_product};
use crate::semantics::peephole::pending::tsound;
use crate::semantics::peephole::tokens::TokenState;

verus! {

/// Combining two values only adds nodes at the end.
pub proof fn lemma_combine_begins(d: SpecDAG, lhs: Value, rhs: Value)
    ensures
        begins_with(combine_mul(d, lhs, rhs).0.nodes, d.nodes),
        begins_with(combine_add(d, lhs, rhs).0.nodes, d.nodes),
{
    let (d1, l) = dag_add_node(d, lhs);
    let (d2, r) = dag_add_node(d1, rhs);
    assert(begins_with(d1.nodes, d.nodes));
    assert(begins_with(d2.nodes, d1.nodes));
    assert(begins_with(d.nodes, d.nodes));
}

/// Simplifying a value only adds nodes at the end.
pub proof fn lemma_simplify_value_begins(d: SpecDAG, old: Seq<Value>, n: int)
    ensures
        begins_with(simplify_value(d, old, n).0.nodes, d.nodes),
    decreases n,
{
    assert(begins_with(d.nodes, d.nodes));
    if 0 <= n < old.len() {
        match old[n] {
            Value::Multiply(l, r) => {
                if l.0 < n && r.0 < n {
                    lemma_simplify_value_begins(d, old, l.0 as int);
                    let (d1, lhs) = simplify_value(d, old, l.0 as int);
                    lemma_simplify_value_begins(d1, old, r.0 as int);
                    let (d2, rhs) = simplify_value(d1, old, r.0 as int);
                    lemma_combine_begins(d2, lhs, rhs);
                    lemma_begins(d.nodes, d1.nodes, d2.nodes);
                    lemma_begins(d.nodes, d2.nodes, combine_mul(d2, lhs, rhs).0.nodes);
                }
            },
            Value::Add(l, r) => {
                if l.0 < n && r.0 < n {
                    lemma_simplify_value_begins(d, old, l.0 as int);
                    let (d1, lhs) = simplify_value(d, old, l.0 as int);
                    lemma_simplify_value_begins(d1, old, r.0 as int);
                    let (d2, rhs) = simplify_value(d1, old, r.0 as int);
                    lemma_combine_begins(d2, lhs, rhs);
                    lemma_begins(d.nodes, d1.nodes, d2.nodes);
                    lemma_begins(d.nodes, d2.nodes, combine_add(d2, lhs, rhs).0.nodes);
                }
            },
            _ => {},
        }
    }
}

/// What a graph keeps when nodes are added to it.
pub open spec fn grown(d: SpecDAG, more: SpecDAG) -> bool {
    &&& dag_wf(more)
    &&& begins_with(more.nodes, d.nodes)
    &&& more.terminals == d.terminals
    &&& more.zeroed == d.zeroed
}

/// The product of two values, combined, computes their product.
pub proof fn lemma_combine_mul_val(
    d: SpecDAG,
    lhs: Value,
    rhs: Value,
    s: TokenState,
    modulus: int,
)
    requires
        byte_modulus(modulus),
        tsound(s, modulus),
        dag_wf(d),
        refers_below(lhs, d.nodes.len() as int),
        refers_below(rhs, d.nodes.len() as int),
        d.nodes.len() + 2 <= usize::MAX,
    ensures
        grown(d, combine_mul(d, lhs, rhs).0),
        refers_below(combine_mul(d, lhs, rhs).1, combine_mul(d, lhs, rhs).0.nodes.len() as int),
        val_of(combine_mul(d, lhs, rhs).0.nodes, combine_mul(d, lhs, rhs).1, s, modulus) == (
        val_of(d.nodes, lhs, s, modulus) * val_of(d.nodes, rhs, s, modulus)) % modulus,
{
    let x = val_of(d.nodes, lhs, s, modulus);
    let y = val_of(d.nodes, rhs, s, modulus);
    lemma_val_of_range(d.nodes, lhs, s, modulus);
    lemma_val_of_range(d.nodes, rhs, s, modulus);
    lemma_small_mod(0, modulus as nat);
    lemma_small_mod(1, modulus as nat);
    lemma_small_mod(x as nat, modulus as nat);
    lemma_small_mod(y as nat, modulus as nat);
    assert(begins_with(d.nodes, d.nodes));
    match (lhs, rhs) {
        (Value::Const(a), Value::Const(b)) => {
            lemma_wrapped_product(0, a, b, modulus);
            lemma_mul_mod_noop(a as int, b as int, modulus);
        },
        _ => {
            if lhs == Value::Const(0) || rhs == Value::Const(0) {
                assert(x * y == 0) by (nonlinear_arith)
                    requires
                        x == 0 || y == 0,
                ;
            } else if lhs == Value::Const(1) {
                assert(x * y == y) by (nonlinear_arith)
                    requires
                        x == 1,
                ;
            } else if rhs == Value::Const(1) {
                assert(x * y == x) by (nonlinear_arith)
                    requires
                        y == 1,
                ;
            } else {
                lemma_add_node(d, lhs);
                lemma_add_node_val(d, lhs, s, modulus);
                let (d1, l) = dag_add_node(d, lhs);
                lemma_add_node(d1, rhs);
                lemma_add_node_val(d1, rhs, s, modulus);
                let (d2, r) = dag_add_node(d1, rhs);
                lemma_val_of_more(d.nodes, d1.nodes, rhs, s, modulus);
                lemma_val_more(d1.nodes, d2.nodes, l.0 as int, s, modulus);
                lemma_begins(d.nodes, d1.nodes, d2.nodes);
            }
        },
    }
}

/// The sum of two values, combined, computes their sum.
pub proof fn lemma_combine_add_val(
    d: SpecDAG,
    lhs: Value,
    rhs: Value,
    s: TokenState,
    modulus: int,
)
    requires
        byte_modulus(modulus),
        tsound(s, modulus),
        dag_wf(d),
        refers_below(lhs, d.nodes.len() as int),
        refers_below(rhs, d.nodes.len() as int),
        d.nodes.len() + 2 <= usize::MAX,
    ensures
        grown(d, combine_add(d, lhs, rhs).0),
        refers_below(combine_add(d, lhs, rhs).1, combine_add(d, lhs, rhs).0.nodes.len() as int),
        val_of(combine_add(d, lhs, rhs).0.nodes, combine_add(d, lhs, rhs).1, s, modulus) == (
        val_of(d.nodes, lhs, s, modulus) + val_of(d.nodes, rhs, s, modulus)) % modulus,
{
    let x = val_of(d.nodes, lhs, s, modulus);
    let y = val_of(d.nodes, rhs, s, modulus);
    lemma_val_of_range(d.nodes, lhs, s, modulus);
    lemma_val_of_range(d.nodes, rhs, s, modulus);
    lemma_small_mod(0, modulus as nat);
    lemma_small_mod(x as nat, modulus as nat);
    lemma_small_mod(y as nat, modulus as nat);
    assert(begins_with(d.nodes, d.nodes));
    match (lhs, rhs) {
        (Value::Const(a), Value::Const(b)) => {
            lemma_wrapped_sum(0, a, b, modulus);
            vstd::arithmetic::div_mod::lemma_add_mod_noop(a as int, b as int, modulus);
        },
        _ => {
            if lhs == Value::Const(0) {
            } else if rhs == Value::Const(0) {
            } else {
                lemma_add_node(d, lhs);
                lemma_add_node_val(d, lhs, s, modulus);
                let (d1, l) = dag_add_node(d, lhs);
                lemma_add_node(d1, rhs);
                lemma_add_node_val(d1, rhs, s, modulus);
                let (d2, r) = dag_add_node(d1, rhs);
                lemma_val_of_more(d.nodes, d1.nodes, rhs, s, modulus);
                lemma_val_more(d1.nodes, d2.nodes, l.0 as int, s, modulus);
                lemma_begins(d.nodes, d1.nodes, d2.nodes);
            }
        },
    }
}

/// The simplified value of a node computes what the node computes.
pub proof fn lemma_simplify_value_val(
    d: SpecDAG,
    old: Seq<Value>,
    n: int,
    s: TokenState,
    modulus: int,
    limit: int,
)
    requires
        byte_modulus(modulus),
        tsound(s, modulus),
        dag_wf(d),
        nodes_ordered(old),
        0 <= n < old.len(),
        simplify_value(d, old, n).0.nodes.len() <= limit,
        limit + 2 <= usize::MAX,
    ensures
        grown(d, simplify_value(d, old, n).0),
        refers_below(
            simplify_value(d, old, n).1,
            simplify_value(d, old, n).0.nodes.len() as int,
        ),
        val_of(simplify_value(d, old, n).0.nodes, simplify_value(d, old, n).1, s, modulus)
            == val(old, n, s, modulus),
    decreases n,
{
    assert(begins_with(d.nodes, d.nodes));
    assert(refers_below(old[n], n));
    match old[n] {
        Value::Multiply(l, r) => {
            let (d1, lhs) = simplify_value(d, old, l.0 as int);
            let (d2, rhs) = simplify_value(d1, old, r.0 as int);
            let (d3, v) = combine_mul(d2, lhs, rhs);
            lemma_simplify_value_begins(d1, old, r.0 as int);
            lemma_combine_begins(d2, lhs, rhs);
            lemma_simplify_value_val(d, old, l.0 as int, s, modulus, limit);
            lemma_simplify_value_val(d1, old, r.0 as int, s, modulus, limit);
            lemma_val_of_more(d1.nodes, d2.nodes, lhs, s, modulus);
            lemma_combine_mul_val(d2, lhs, rhs, s, modulus);
            lemma_begins(d.nodes, d1.nodes, d2.nodes);
            lemma_begins(d.nodes, d2.nodes, d3.nodes);
        },
        Value::Add(l, r) => {
            let (d1, lhs) = simplify_value(d, old, l.0 as int);
            let (d2, rhs) = simplify_value(d1, old, r.0 as int);
            let (d3, v) = combine_add(d2, lhs, rhs);
            lemma_simplify_value_begins(d1, old, r.0 as int);
            lemma_combine_begins(d2, lhs, rhs);
            lemma_simplify_value_val(d, old, l.0 as int, s, modulus, limit);
            lemma_simplify_value_val(d1, old, r.0 as int, s, modulus, limit);
            lemma_val_of_more(d1.nodes, d2.nodes, lhs, s, modulus);
            lemma_combine_add_val(d2, lhs, rhs, s, modulus);
            lemma_begins(d.nodes, d1.nodes, d2.nodes);
            lemma_begins(d.nodes, d2.nodes, d3.nodes);
        },
        _ => {},
    }
}

/// The graph of the simplified terminals computes what the terminals
/// compute over the nodes that they are taken from.
pub proof fn lemma_simplify_terminals_val(
    old: Seq<Value>,
    terminals: Seq<(i32, Node)>,
    zeroed: bool,
    s: TokenState,
    modulus: int,
    limit: int,
)
    requires
        byte_modulus(modulus),
        tsound(s, modulus),
        dag_wf(SpecDAG { nodes: old, terminals, zeroed }),
        simplify_terminals(empty_dag(zeroed), old, terminals).nodes.len() <= limit,
        limit + 2 <= usize::MAX,
    ensures
        dag_wf(simplify_terminals(empty_dag(zeroed), old, terminals)),
        forall|k: i32|
            #[trigger] due_cell(
                simplify_terminals(empty_dag(zeroed), old, terminals),
                k,
                s,
                modulus,
            ) == due_cell(SpecDAG { nodes: old, terminals, zeroed }, k, s, modulus),
    decreases terminals.len(),
{
    let d0 = empty_dag(zeroed);
    let whole = SpecDAG { nodes: old, terminals, zeroed };
    let after = simplify_terminals(d0, old, terminals);
    if terminals.len() > 0 {
        let few = terminals.drop_last();
        let part = SpecDAG { nodes: old, terminals: few, zeroed };
        let before = simplify_terminals(d0, old, few);
        let (offset, node) = terminals.last();
        let (d1, value) = simplify_value(before, old, node.0 as int);
        assert(terminals =~= few.push((offset, node)));
        lemma_with_entry_push(few, offset, node);
        assert(dag_wf(part)) by {
            assert forall|i: int| 0 <= i < few.len() implies (#[trigger] few[i]).1.0
                < old.len() by {
                assert(few[i] == terminals[i]);
            }
        }
        assert(terminals[terminals.len() - 1].1.0 < old.len());
        lemma_simplify_value_begins(before, old, node.0 as int);
        assert(begins_with(dag_add_node(d1, value).0.nodes, d1.nodes));
        lemma_simplify_terminals_val(old, few, zeroed, s, modulus, limit);
        lemma_simplify_value_val(before, old, node.0 as int, s, modulus, limit);
        lemma_simplify_value_keeps(before, old, node.0 as int);
        if value != Value::Tape(offset) {
            lemma_set(d1, offset, value);
            lemma_set_val(d1, offset, value, s, modulus);
        }
        assert forall|k: i32|
            #[trigger] due_cell(after, k, s, modulus) == due_cell(whole, k, s, modulus) by {
            lemma_lookup_with_entry(few, offset, node, k);
            assert(due_cell(before, k, s, modulus) == due_cell(part, k, s, modulus));
            // The nodes that are added change nothing that was due.
            crate::optimizer::new::dag::lemma_terminal_in_range(before, k);
            if let Some(t) = lookup(before.terminals, k) {
                lemma_val_more(before.nodes, d1.nodes, t.0 as int, s, modulus);
            }
            assert(due_cell(d1, k, s, modulus) == due_cell(before, k, s, modulus));
            if k == offset {
                // No terminal before this one has its offset.
                if lookup(few, offset) is Some {
                    crate::offset_map::lemma_rank_from(few, offset, 0);
                    let r = crate::offset_map::rank(few, offset);
                    assert(terminals[r] == few[r]);
                    assert(terminals[r].0 < terminals[terminals.len() - 1].0);
                }
            }
        }
    } else {
        assert forall|k: i32|
            #[trigger] due_cell(after, k, s, modulus) == due_cell(whole, k, s, modulus) by {}
    }
}

/// A simplified graph computes what the graph computes.
pub proof fn lemma_simplify_val(d: SpecDAG, s: TokenState, modulus: int)
    requires
        byte_modulus(modulus),
        tsound(s, modulus),
        dag_wf(d),
        d.nodes.len() + 2 <= usize::MAX,
    ensures
        dag_wf(dag_simplify(d)),
        dag_simplify(d).zeroed == d.zeroed,
        forall|k: i32|
            #[trigger] due_cell(dag_simplify(d), k, s, modulus) == due_cell(d, k, s, modulus),
{
    let simple = simplify_terminals(empty_dag(d.zeroed), d.nodes, d.terminals);
    crate::optimizer::new::dag::lemma_simplify(d);
    if simple.nodes.len() <= d.nodes.len() {
        lemma_simplify_terminals_val(
            d.nodes,
            d.terminals,
            d.zeroed,
            s,
            modulus,
            d.nodes.len() as int,
        );
    }
}

} // verus!
