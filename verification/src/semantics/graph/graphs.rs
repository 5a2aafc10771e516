//! What an expression graph computes: the value of each node over the
//! state in which the block begins, and the state after the terminals are
//! written.

use vstd::arithmetic::div_mod::{lemma_add_mod_noop_right, lemma_mod_bound, lemma_small_mod};
use vstd::prelude::*;
use crate::offset_map::{lemma_lookup_with_entry, lookup};
use crate::optimizer::new::dag::{
    dag_add, dag_add_node, dag_default_value, dag_get_node, dag_set, dag_wf, lemma_add_node,
    lemma_find_from, lemma_get_node, lemma_terminal_in_range, refers_below, SpecDAG, Value,
};
use crate::semantics::gathering::lemma_wrapped_sum;
use crate::semantics::machine::cell_modulus;
use crate::semantics::peephole::passes::lemma_mod_sum;
use crate::semantics::peephole::pending::{tcell_sound, tsound};
use crate::semantics::peephole::tokens::{cell, TokenState};

verus! {

/// The value of node `n` over the state `s`: a value of the cell type.
pub open spec fn val(nodes: Seq<Value>, n: int, s: TokenState, modulus: int) -> int
    decreases n,
{
    if n < 0 || n >= nodes.len() {
        0
    } else {
        match nodes[n] {
            Value::Tape(offset) => cell(s, offset),
            Value::Const(v) => (v as int) % modulus,
            Value::Multiply(l, r) => if l.0 < n && r.0 < n {
                (val(nodes, l.0 as int, s, modulus) * val(nodes, r.0 as int, s, modulus))
                    % modulus
            } else {
                0
            },
            Value::Add(l, r) => if l.0 < n && r.0 < n {
                (val(nodes, l.0 as int, s, modulus) + val(nodes, r.0 as int, s, modulus))
                    % modulus
            } else {
                0
            },
        }
    }
}

/// What a value over the nodes `nodes` computes.
pub open spec fn val_of(nodes: Seq<Value>, value: Value, s: TokenState, modulus: int) -> int {
    match value {
        Value::Tape(offset) => cell(s, offset),
        Value::Const(v) => (v as int) % modulus,
        Value::Multiply(l, r) => (val(nodes, l.0 as int, s, modulus) * val(
            nodes,
            r.0 as int,
            s,
            modulus,
        )) % modulus,
        Value::Add(l, r) => (val(nodes, l.0 as int, s, modulus) + val(
            nodes,
            r.0 as int,
            s,
            modulus,
        )) % modulus,
    }
}

/// What the cell at offset `k` holds when the graph is committed over the
/// state `s`: the value of its terminal, or what it holds in `s`.
pub open spec fn due_cell(d: SpecDAG, k: i32, s: TokenState, modulus: int) -> int {
    match lookup(d.terminals, k) {
        Some(node) => val(d.nodes, node.0 as int, s, modulus),
        None => cell(s, k),
    }
}

/// The state after a graph is committed: every terminal is written, each
/// computed over the state before.
pub open spec fn after_expr(d: SpecDAG, s: TokenState, modulus: int) -> TokenState {
    TokenState {
        tape: Map::new(
            |a: i32| true,
            |a: i32| due_cell(d, a.wrapping_sub(s.cursor), s, modulus),
        ),
        ..s
    }
}

/// Whether the flag of a graph is true of a state: where the graph is
/// marked as zeroed, every cell of the state is zero.
pub open spec fn flag_holds(d: SpecDAG, s: TokenState) -> bool {
    d.zeroed ==> forall|a: i32| #[trigger] s.tape[a] == 0
}

/// A node of a well-formed graph computes what its value says.
pub proof fn lemma_val_node(nodes: Seq<Value>, n: int, s: TokenState, modulus: int)
    requires
        0 <= n < nodes.len(),
        refers_below(nodes[n], n),
    ensures
        val(nodes, n, s, modulus) == val_of(nodes, nodes[n], s, modulus),
{
}

/// Every node computes a value of the cell type.
pub proof fn lemma_val_range(nodes: Seq<Value>, n: int, s: TokenState, modulus: int)
    requires
        modulus > 0,
        tsound(s, modulus),
    ensures
        0 <= val(nodes, n, s, modulus) < modulus,
    decreases n,
{
    if 0 <= n < nodes.len() {
        match nodes[n] {
            Value::Tape(offset) => {
                assert(tcell_sound(s, s.cursor.wrapping_add(offset), modulus));
            },
            Value::Const(v) => {
                lemma_mod_bound(v as int, modulus);
            },
            Value::Multiply(l, r) => {
                lemma_mod_bound(
                    val(nodes, l.0 as int, s, modulus) * val(nodes, r.0 as int, s, modulus),
                    modulus,
                );
            },
            Value::Add(l, r) => {
                lemma_mod_bound(
                    val(nodes, l.0 as int, s, modulus) + val(nodes, r.0 as int, s, modulus),
                    modulus,
                );
            },
        }
    }
}

/// Every value computes a value of the cell type.
pub proof fn lemma_val_of_range(nodes: Seq<Value>, value: Value, s: TokenState, modulus: int)
    requires
        modulus > 0,
        tsound(s, modulus),
    ensures
        0 <= val_of(nodes, value, s, modulus) < modulus,
{
    match value {
        Value::Tape(offset) => {
            assert(tcell_sound(s, s.cursor.wrapping_add(offset), modulus));
        },
        Value::Const(v) => {
            lemma_mod_bound(v as int, modulus);
        },
        Value::Multiply(l, r) => {
            lemma_mod_bound(
                val(nodes, l.0 as int, s, modulus) * val(nodes, r.0 as int, s, modulus),
                modulus,
            );
        },
        Value::Add(l, r) => {
            lemma_mod_bound(
                val(nodes, l.0 as int, s, modulus) + val(nodes, r.0 as int, s, modulus),
                modulus,
            );
        },
    }
}

/// Whether the nodes `more` begin with the nodes `nodes`.
pub open spec fn begins_with(more: Seq<Value>, nodes: Seq<Value>) -> bool {
    nodes.len() <= more.len() && forall|i: int| 0 <= i < nodes.len() ==> more[i] == nodes[i]
}

/// More nodes at the end change no value of the nodes before.
pub proof fn lemma_val_more(
    nodes: Seq<Value>,
    more: Seq<Value>,
    n: int,
    s: TokenState,
    modulus: int,
)
    requires
        begins_with(more, nodes),
        n < nodes.len(),
    ensures
        val(more, n, s, modulus) == val(nodes, n, s, modulus),
    decreases n,
{
    if 0 <= n {
        match nodes[n] {
            Value::Multiply(l, r) => {
                if l.0 < n && r.0 < n {
                    lemma_val_more(nodes, more, l.0 as int, s, modulus);
                    lemma_val_more(nodes, more, r.0 as int, s, modulus);
                }
            },
            Value::Add(l, r) => {
                if l.0 < n && r.0 < n {
                    lemma_val_more(nodes, more, l.0 as int, s, modulus);
                    lemma_val_more(nodes, more, r.0 as int, s, modulus);
                }
            },
            _ => {},
        }
    }
}

/// More nodes at the end change nothing that a value over the nodes before
/// computes.
pub proof fn lemma_val_of_more(
    nodes: Seq<Value>,
    more: Seq<Value>,
    value: Value,
    s: TokenState,
    modulus: int,
)
    requires
        begins_with(more, nodes),
        refers_below(value, nodes.len() as int),
    ensures
        val_of(more, value, s, modulus) == val_of(nodes, value, s, modulus),
{
    match value {
        Value::Multiply(l, r) => {
            lemma_val_more(nodes, more, l.0 as int, s, modulus);
            lemma_val_more(nodes, more, r.0 as int, s, modulus);
        },
        Value::Add(l, r) => {
            lemma_val_more(nodes, more, l.0 as int, s, modulus);
            lemma_val_more(nodes, more, r.0 as int, s, modulus);
        },
        _ => {},
    }
}

/// A node that is added computes what its value says, and the graph
/// computes what it did.
pub proof fn lemma_add_node_val(d: SpecDAG, value: Value, s: TokenState, modulus: int)
    requires
        dag_wf(d),
        refers_below(value, d.nodes.len() as int),
        d.nodes.len() < usize::MAX,
    ensures
        begins_with(dag_add_node(d, value).0.nodes, d.nodes),
        val(
            dag_add_node(d, value).0.nodes,
            dag_add_node(d, value).1.0 as int,
            s,
            modulus,
        ) == val_of(d.nodes, value, s, modulus),
        forall|k: i32|
            due_cell(dag_add_node(d, value).0, k, s, modulus) == #[trigger] due_cell(
                d,
                k,
                s,
                modulus,
            ),
{
    lemma_add_node(d, value);
    lemma_find_from(d.nodes, value, 0);
    let (d1, node) = dag_add_node(d, value);
    assert(begins_with(d1.nodes, d.nodes)) by {
        assert forall|i: int| 0 <= i < d.nodes.len() implies d1.nodes[i] == d.nodes[i] by {
            assert(d1.nodes.subrange(0, d.nodes.len() as int)[i] == d1.nodes[i]);
        }
    }
    assert(refers_below(d1.nodes[node.0 as int], node.0 as int));
    lemma_val_node(d1.nodes, node.0 as int, s, modulus);
    lemma_val_of_more(d.nodes, d1.nodes, value, s, modulus);
    assert forall|k: i32|
        due_cell(d1, k, s, modulus) == #[trigger] due_cell(d, k, s, modulus) by {
        lemma_terminal_in_range(d, k);
        if let Some(t) = lookup(d.terminals, k) {
            lemma_val_more(d.nodes, d1.nodes, t.0 as int, s, modulus);
        }
    }
}

/// After a terminal is set, its cell is due what the value computes, and
/// every other cell what it was due.
pub proof fn lemma_set_val(d: SpecDAG, offset: i32, value: Value, s: TokenState, modulus: int)
    requires
        dag_wf(d),
        refers_below(value, d.nodes.len() as int),
        d.nodes.len() < usize::MAX,
    ensures
        begins_with(dag_set(d, offset, value).nodes, d.nodes),
        forall|k: i32|
            #[trigger] due_cell(dag_set(d, offset, value), k, s, modulus) == if k == offset {
                val_of(d.nodes, value, s, modulus)
            } else {
                due_cell(d, k, s, modulus)
            },
{
    lemma_add_node(d, value);
    lemma_add_node_val(d, value, s, modulus);
    let (d1, node) = dag_add_node(d, value);
    let d2 = dag_set(d, offset, value);
    assert forall|k: i32|
        #[trigger] due_cell(d2, k, s, modulus) == if k == offset {
            val_of(d.nodes, value, s, modulus)
        } else {
            due_cell(d, k, s, modulus)
        } by {
        lemma_lookup_with_entry(d1.terminals, offset, node, k);
        assert(due_cell(d1, k, s, modulus) == due_cell(d, k, s, modulus));
    }
}

/// Taking the node of an offset changes nothing that is due, and the node
/// computes what the cell is due.
pub proof fn lemma_get_node_val(d: SpecDAG, offset: i32, s: TokenState, modulus: int)
    requires
        modulus > 0,
        dag_wf(d),
        d.nodes.len() < usize::MAX,
        flag_holds(d, s),
        tsound(s, modulus),
    ensures
        begins_with(dag_get_node(d, offset).0.nodes, d.nodes),
        val(
            dag_get_node(d, offset).0.nodes,
            dag_get_node(d, offset).1.0 as int,
            s,
            modulus,
        ) == due_cell(d, offset, s, modulus),
        lookup(dag_get_node(d, offset).0.terminals, offset) == Some(dag_get_node(d, offset).1),
        forall|k: i32|
            due_cell(dag_get_node(d, offset).0, k, s, modulus) == #[trigger] due_cell(
                d,
                k,
                s,
                modulus,
            ),
{
    lemma_get_node(d, offset);
    match lookup(d.terminals, offset) {
        Some(node) => {
            assert(begins_with(d.nodes, d.nodes));
        },
        None => {
            let value = dag_default_value(d, offset);
            lemma_add_node(d, value);
            lemma_add_node_val(d, value, s, modulus);
            let (d1, node) = dag_add_node(d, value);
            let d2 = dag_get_node(d, offset).0;
            lemma_small_mod(0, modulus as nat);
            assert(val_of(d.nodes, value, s, modulus) == cell(s, offset));
            lemma_lookup_with_entry(d1.terminals, offset, node, offset);
            assert forall|k: i32|
                due_cell(d2, k, s, modulus) == #[trigger] due_cell(d, k, s, modulus) by {
                lemma_lookup_with_entry(d1.terminals, offset, node, k);
                assert(due_cell(d1, k, s, modulus) == due_cell(d, k, s, modulus));
            }
        },
    }
}

/// After a constant is added to a cell, the cell is due what it was due
/// and the constant, and every other cell what it was due.
pub proof fn lemma_add_val(d: SpecDAG, offset: i32, value: i32, s: TokenState, modulus: int)
    requires
        cell_modulus(modulus),
        dag_wf(d),
        d.nodes.len() + 3 <= usize::MAX,
        flag_holds(d, s),
        tsound(s, modulus),
    ensures
        begins_with(dag_add(d, offset, value).nodes, d.nodes),
        forall|k: i32|
            #[trigger] due_cell(dag_add(d, offset, value), k, s, modulus) == if k == offset {
                (due_cell(d, offset, s, modulus) + value) % modulus
            } else {
                due_cell(d, k, s, modulus)
            },
{
    lemma_get_node(d, offset);
    lemma_get_node_val(d, offset, s, modulus);
    let (d1, old_node) = dag_get_node(d, offset);
    let was = due_cell(d, offset, s, modulus);
    let after = dag_add(d, offset, value);
    assert(refers_below(d1.nodes[old_node.0 as int], old_node.0 as int));
    lemma_val_node(d1.nodes, old_node.0 as int, s, modulus);
    let folded = match d1.nodes[old_node.0 as int] {
        Value::Add(lhs, rhs) => d1.nodes[rhs.0 as int] is Const,
        Value::Const(_) => true,
        _ => false,
    };
    // What the new terminal computes, over the nodes that it is set in.
    match d1.nodes[old_node.0 as int] {
        Value::Add(lhs, rhs) => {
            match d1.nodes[rhs.0 as int] {
                Value::Const(c) => {
                    let sum = Value::Const(c.wrapping_add(value));
                    lemma_add_node(d1, sum);
                    lemma_add_node_val(d1, sum, s, modulus);
                    let (d2, new_node) = dag_add_node(d1, sum);
                    let set = Value::Add(lhs, new_node);
                    lemma_set_val(d2, offset, set, s, modulus);
                    lemma_val_more(d1.nodes, d2.nodes, lhs.0 as int, s, modulus);
                    assert(refers_below(d1.nodes[rhs.0 as int], rhs.0 as int));
                    lemma_val_node(d1.nodes, rhs.0 as int, s, modulus);
                    let l = val(d1.nodes, lhs.0 as int, s, modulus);
                    lemma_wrapped_sum(l, c, value, modulus);
                    lemma_add_mod_noop_right(l, c.wrapping_add(value) as int, modulus);
                    lemma_add_mod_noop_right(l, c as int, modulus);
                    lemma_mod_sum(l, c as int, value as int, modulus);
                    assert(val_of(d2.nodes, set, s, modulus) == (was + value) % modulus);
                    assert forall|k: i32|
                        #[trigger] due_cell(after, k, s, modulus) == if k == offset {
                            (was + value) % modulus
                        } else {
                            due_cell(d, k, s, modulus)
                        } by {
                        assert(due_cell(d2, k, s, modulus) == due_cell(d1, k, s, modulus));
                        assert(due_cell(d1, k, s, modulus) == due_cell(d, k, s, modulus));
                    }
                    lemma_begins(d.nodes, d1.nodes, d2.nodes);
                    lemma_begins(d.nodes, d2.nodes, after.nodes);
                },
                _ => {},
            }
        },
        Value::Const(c) => {
            let set = Value::Const(c.wrapping_add(value));
            lemma_set_val(d1, offset, set, s, modulus);
            lemma_wrapped_sum(0, c, value, modulus);
            lemma_mod_sum(0, c as int, value as int, modulus);
            assert(val_of(d1.nodes, set, s, modulus) == (was + value) % modulus);
            assert forall|k: i32|
                #[trigger] due_cell(after, k, s, modulus) == if k == offset {
                    (was + value) % modulus
                } else {
                    due_cell(d, k, s, modulus)
                } by {
                assert(due_cell(d1, k, s, modulus) == due_cell(d, k, s, modulus));
            }
            lemma_begins(d.nodes, d1.nodes, after.nodes);
        },
        _ => {},
    }
    if !folded {
        let addend = Value::Const(value);
        lemma_add_node(d1, addend);
        lemma_add_node_val(d1, addend, s, modulus);
        let (d2, new_node) = dag_add_node(d1, addend);
        let set = Value::Add(old_node, new_node);
        lemma_set_val(d2, offset, set, s, modulus);
        lemma_val_more(d1.nodes, d2.nodes, old_node.0 as int, s, modulus);
        lemma_add_mod_noop_right(was, value as int, modulus);
        assert(val_of(d2.nodes, set, s, modulus) == (was + value) % modulus);
        assert forall|k: i32|
            #[trigger] due_cell(after, k, s, modulus) == if k == offset {
                (was + value) % modulus
            } else {
                due_cell(d, k, s, modulus)
            } by {
            assert(due_cell(d2, k, s, modulus) == due_cell(d1, k, s, modulus));
            assert(due_cell(d1, k, s, modulus) == due_cell(d, k, s, modulus));
        }
        lemma_begins(d.nodes, d1.nodes, d2.nodes);
        lemma_begins(d.nodes, d2.nodes, after.nodes);
    }
}

/// Nodes that begin with nodes that begin with others begin with those.
pub proof fn lemma_begins(a: Seq<Value>, b: Seq<Value>, c: Seq<Value>)
    requires
        begins_with(b, a),
        begins_with(c, b),
    ensures
        begins_with(c, a),
{
}

} // verus!
