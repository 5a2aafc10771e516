//! The expression graph of one basic block.
//!
//! Nodes are kept in the order in which they were made, and a node refers
//! only to nodes made before it, so that walking the nodes in order visits
//! every node after the nodes it is computed from. A value that is already
//! present is not added twice. The terminals say which node each tape
//! offset holds when the block commits; they are walked in ascending order
//! of offset.

use std::collections::HashSet;
use vstd::prelude::*;
use crate::offset_map::{ascending, has_key, lookup, with_entry, OffsetMap};

verus! {

/// The index of a node of a graph.
#[derive(Clone, Copy, Hash, Debug, PartialEq, Eq, Structural)]
pub struct Node(pub usize);

/// What a node computes.
#[derive(Clone, Copy, Hash, Debug, PartialEq, Eq, Structural)]
pub enum Value {
    /// The value of the tape at an offset from the cursor, as the block
    /// begins.
    Tape(i32),
    /// A constant.
    Const(i32),
    /// The product of two nodes.
    Multiply(Node, Node),
    /// The sum of two nodes.
    Add(Node, Node),
}

/// The mathematical value of a [`DAG`].
pub struct SpecDAG {
    /// The nodes, in the order in which they were made.
    pub nodes: Seq<Value>,
    /// The node of each written offset, in ascending order of offset.
    pub terminals: Seq<(i32, Node)>,
    /// Whether every cell is known to be zero as the block begins.
    pub zeroed: bool,
}

/// Whether the nodes that `value` refers to have indices below `limit`.
pub open spec fn refers_below(value: Value, limit: int) -> bool {
    match value {
        Value::Tape(_) => true,
        Value::Const(_) => true,
        Value::Multiply(l, r) => l.0 < limit && r.0 < limit,
        Value::Add(l, r) => l.0 < limit && r.0 < limit,
    }
}

/// Whether every node refers to earlier nodes only.
pub open spec fn nodes_ordered(nodes: Seq<Value>) -> bool {
    forall|i: int| 0 <= i < nodes.len() ==> refers_below(#[trigger] nodes[i], i)
}

/// Whether a graph is well formed: every node refers to earlier nodes only,
/// every terminal is a node of the graph, and the offsets of the terminals
/// ascend.
pub open spec fn dag_wf(d: SpecDAG) -> bool {
    &&& nodes_ordered(d.nodes)
    &&& forall|i: int| 0 <= i < d.terminals.len() ==> (#[trigger] d.terminals[i]).1.0 < d.nodes.len()
    &&& ascending(d.terminals)
}

/// The graph without nodes.
pub open spec fn empty_dag(zeroed: bool) -> SpecDAG {
    SpecDAG { nodes: Seq::empty(), terminals: Seq::empty(), zeroed }
}

/// The first index at or after `i` where `value` stands among `nodes`; the
/// number of nodes if it stands nowhere.
pub open spec fn find_from(nodes: Seq<Value>, value: Value, i: int) -> int
    decreases nodes.len() - i,
{
    if i < 0 || i >= nodes.len() || nodes[i] == value {
        i
    } else {
        find_from(nodes, value, i + 1)
    }
}

/// The graph with a node for `value`, and the index of that node: the first
/// node with this value if there is one, else a new node at the end.
pub open spec fn dag_add_node(d: SpecDAG, value: Value) -> (SpecDAG, Node) {
    let k = find_from(d.nodes, value, 0);
    if k < d.nodes.len() {
        (d, Node(k as usize))
    } else {
        (SpecDAG { nodes: d.nodes.push(value), ..d }, Node(d.nodes.len() as usize))
    }
}

/// What an offset that no terminal covers holds: zero in a zeroed graph,
/// else the tape as the block begins.
pub open spec fn dag_default_value(d: SpecDAG, offset: i32) -> Value {
    if d.zeroed {
        Value::Const(0)
    } else {
        Value::Tape(offset)
    }
}

/// The graph with `value` as the terminal of `offset`.
pub open spec fn dag_set(d: SpecDAG, offset: i32, value: Value) -> SpecDAG {
    let (d1, node) = dag_add_node(d, value);
    SpecDAG { terminals: with_entry(d1.terminals, offset, node), ..d1 }
}

/// What `offset` holds when the block commits.
pub open spec fn dag_get(d: SpecDAG, offset: i32) -> Value {
    match lookup(d.terminals, offset) {
        Some(node) => d.nodes[node.0 as int],
        None => dag_default_value(d, offset),
    }
}

/// The graph with a terminal for `offset`, and its node: the terminal that
/// is there, else a new one that holds the default value.
pub open spec fn dag_get_node(d: SpecDAG, offset: i32) -> (SpecDAG, Node) {
    match lookup(d.terminals, offset) {
        Some(node) => (d, node),
        None => {
            let (d1, node) = dag_add_node(d, dag_default_value(d, offset));
            (SpecDAG { terminals: with_entry(d1.terminals, offset, node), ..d1 }, node)
        },
    }
}

/// The graph with the constant `value` added to `offset`. The constant is
/// folded into a constant that is there: into a constant terminal, or into
/// the constant on the right of a sum.
pub open spec fn dag_add(d: SpecDAG, offset: i32, value: i32) -> SpecDAG {
    let (d1, old_node) = dag_get_node(d, offset);
    let plain = {
        let (d2, new_node) = dag_add_node(d1, Value::Const(value));
        dag_set(d2, offset, Value::Add(old_node, new_node))
    };
    match d1.nodes[old_node.0 as int] {
        Value::Add(lhs, rhs) => match d1.nodes[rhs.0 as int] {
            Value::Const(old_value) => {
                let (d2, new_node) = dag_add_node(d1, Value::Const(old_value.wrapping_add(value)));
                dag_set(d2, offset, Value::Add(lhs, new_node))
            },
            _ => plain,
        },
        Value::Const(old_value) => dag_set(d1, offset, Value::Const(old_value.wrapping_add(value))),
        _ => plain,
    }
}

/// The graph with `offset` multiplied by `value`.
pub open spec fn dag_mul(d: SpecDAG, offset: i32, value: Value) -> SpecDAG {
    let (d1, old_node) = dag_get_node(d, offset);
    let (d2, new_node) = dag_add_node(d1, value);
    dag_set(d2, offset, Value::Multiply(old_node, new_node))
}

/// The graph without nodes and terminals.
pub open spec fn dag_clear(d: SpecDAG) -> SpecDAG {
    SpecDAG { nodes: Seq::empty(), terminals: Seq::empty(), ..d }
}

/// A value with its tape offset, if it has one, moved by `shift`.
pub open spec fn shift_value(value: Value, shift: i32) -> Value {
    match value {
        Value::Tape(offset) => Value::Tape(offset.wrapping_add(shift)),
        _ => value,
    }
}

/// The terminals with their offsets moved by `shift`.
pub open spec fn shift_terminals(terminals: Seq<(i32, Node)>, shift: i32) -> Seq<(i32, Node)>
    decreases terminals.len(),
{
    if terminals.len() == 0 {
        Seq::empty()
    } else {
        with_entry(
            shift_terminals(terminals.drop_last(), shift),
            terminals.last().0.wrapping_add(shift),
            terminals.last().1,
        )
    }
}

/// The graph moved by `shift`: the offsets of the terminals and of the tape
/// nodes move, all other nodes stay.
pub open spec fn dag_shift(d: SpecDAG, shift: i32) -> SpecDAG {
    SpecDAG {
        nodes: Seq::new(d.nodes.len(), |i: int| shift_value(d.nodes[i], shift)),
        terminals: shift_terminals(d.terminals, shift),
        ..d
    }
}

/// The constant `a` if `offset` holds the tape at `offset` plus `a`.
pub open spec fn dag_as_add_const(d: SpecDAG, offset: i32) -> Option<i32> {
    match dag_get(d, offset) {
        Value::Add(lhs, rhs) => match (d.nodes[lhs.0 as int], d.nodes[rhs.0 as int]) {
            (Value::Tape(off), Value::Const(a)) => if off == offset {
                Some(a)
            } else {
                None
            },
            (Value::Const(a), Value::Tape(off)) => if off == offset {
                Some(a)
            } else {
                None
            },
            _ => None,
        },
        _ => None,
    }
}

/// The tape offsets that node `n` is computed from.
pub open spec fn deps_of(nodes: Seq<Value>, n: int) -> Set<i32>
    decreases n,
{
    if n < 0 || n >= nodes.len() {
        Set::empty()
    } else {
        match nodes[n] {
            Value::Tape(offset) => set![offset],
            Value::Const(_) => Set::empty(),
            Value::Multiply(l, r) => if l.0 < n && r.0 < n {
                deps_of(nodes, l.0 as int).union(deps_of(nodes, r.0 as int))
            } else {
                Set::empty()
            },
            Value::Add(l, r) => if l.0 < n && r.0 < n {
                deps_of(nodes, l.0 as int).union(deps_of(nodes, r.0 as int))
            } else {
                Set::empty()
            },
        }
    }
}

/// A node of a graph that is appended after `base` nodes.
pub open spec fn moved_node(node: Node, base: int) -> Node {
    Node((node.0 + base) as usize)
}

/// A value of a graph that is appended to `d` after `base` nodes: a tape
/// offset that `d` has a terminal for becomes the value of that terminal,
/// and references move by `base`.
pub open spec fn extended_value(d: SpecDAG, value: Value, base: int) -> Value {
    match value {
        Value::Tape(offset) => match lookup(d.terminals, offset) {
            Some(node) => d.nodes[node.0 as int],
            None => value,
        },
        Value::Const(_) => value,
        Value::Multiply(l, r) => Value::Multiply(moved_node(l, base), moved_node(r, base)),
        Value::Add(l, r) => Value::Add(moved_node(l, base), moved_node(r, base)),
    }
}

/// The terminals `terminals` with those of an appended graph, which win
/// where both have one.
pub open spec fn merged_terminals(
    terminals: Seq<(i32, Node)>,
    extra: Seq<(i32, Node)>,
    base: int,
) -> Seq<(i32, Node)>
    decreases extra.len(),
{
    if extra.len() == 0 {
        terminals
    } else {
        with_entry(
            merged_terminals(terminals, extra.drop_last(), base),
            extra.last().0,
            moved_node(extra.last().1, base),
        )
    }
}

/// The graph `d` with the graph `e` appended: `e` reads, where `d` has a
/// terminal, what `d` computes there.
pub open spec fn dag_extend(d: SpecDAG, e: SpecDAG) -> SpecDAG {
    let base = d.nodes.len() as int;
    SpecDAG {
        nodes: d.nodes + Seq::new(e.nodes.len(), |i: int| extended_value(d, e.nodes[i], base)),
        terminals: merged_terminals(d.terminals, e.terminals, base),
        zeroed: d.zeroed,
    }
}

/// The product of two simplified values, simplified: two constants are
/// multiplied, a zero factor gives zero, a factor of one gives the other
/// factor, and anything else a product of two nodes of the graph.
pub open spec fn combine_mul(d: SpecDAG, lhs: Value, rhs: Value) -> (SpecDAG, Value) {
    match (lhs, rhs) {
        (Value::Const(a), Value::Const(b)) => (d, Value::Const(a.wrapping_mul(b))),
        _ => if lhs == Value::Const(0) || rhs == Value::Const(0) {
            (d, Value::Const(0))
        } else if lhs == Value::Const(1) {
            (d, rhs)
        } else if rhs == Value::Const(1) {
            (d, lhs)
        } else {
            let (d1, l) = dag_add_node(d, lhs);
            let (d2, r) = dag_add_node(d1, rhs);
            (d2, Value::Multiply(l, r))
        },
    }
}

/// The sum of two simplified values, simplified: two constants are added, a
/// zero summand gives the other summand, and anything else a sum of two
/// nodes of the graph.
pub open spec fn combine_add(d: SpecDAG, lhs: Value, rhs: Value) -> (SpecDAG, Value) {
    match (lhs, rhs) {
        (Value::Const(a), Value::Const(b)) => (d, Value::Const(a.wrapping_add(b))),
        _ => if lhs == Value::Const(0) {
            (d, rhs)
        } else if rhs == Value::Const(0) {
            (d, lhs)
        } else {
            let (d1, l) = dag_add_node(d, lhs);
            let (d2, r) = dag_add_node(d1, rhs);
            (d2, Value::Add(l, r))
        },
    }
}

/// The simplified value of node `n` of the nodes `old`, over the graph `d`
/// that the simplified nodes are gathered in.
pub open spec fn simplify_value(d: SpecDAG, old: Seq<Value>, n: int) -> (SpecDAG, Value)
    decreases n,
{
    if n < 0 || n >= old.len() {
        (d, Value::Const(0))
    } else {
        match old[n] {
            Value::Multiply(l, r) => if l.0 < n && r.0 < n {
                let (d1, lhs) = simplify_value(d, old, l.0 as int);
                let (d2, rhs) = simplify_value(d1, old, r.0 as int);
                combine_mul(d2, lhs, rhs)
            } else {
                (d, old[n])
            },
            Value::Add(l, r) => if l.0 < n && r.0 < n {
                let (d1, lhs) = simplify_value(d, old, l.0 as int);
                let (d2, rhs) = simplify_value(d1, old, r.0 as int);
                combine_add(d2, lhs, rhs)
            } else {
                (d, old[n])
            },
            _ => (d, old[n]),
        }
    }
}

/// The graph `d` with the simplified terminals `terminals` of the nodes
/// `old`. A terminal that only keeps the tape as it is is left out.
pub open spec fn simplify_terminals(
    d: SpecDAG,
    old: Seq<Value>,
    terminals: Seq<(i32, Node)>,
) -> SpecDAG
    decreases terminals.len(),
{
    if terminals.len() == 0 {
        d
    } else {
        let before = simplify_terminals(d, old, terminals.drop_last());
        let (offset, node) = terminals.last();
        let (d1, value) = simplify_value(before, old, node.0 as int);
        if value != Value::Tape(offset) {
            dag_set(d1, offset, value)
        } else {
            d1
        }
    }
}

/// Whether terminal `t` only copies another cell: its node is the tape at
/// an offset that is not its own.
pub open spec fn copies_cell(d: SpecDAG, t: int) -> bool {
    match d.nodes[d.terminals[t].1.0 as int] {
        Value::Tape(offset) => offset != d.terminals[t].0,
        _ => false,
    }
}

/// Whether one of the first `n` terminals only copies another cell.
pub open spec fn copies_within(d: SpecDAG, n: int) -> bool
    decreases n,
{
    if n <= 0 {
        false
    } else {
        copies_within(d, n - 1) || copies_cell(d, n - 1)
    }
}

/// The graph simplified, where that does not take more nodes than the graph
/// has and makes no terminal a copy of another cell; else the graph as it
/// is. A copy would be read when the terminals are written, and by then
/// the cell that it reads may hold what another terminal has put there.
pub open spec fn dag_simplify(d: SpecDAG) -> SpecDAG {
    let s = simplify_terminals(empty_dag(d.zeroed), d.nodes, d.terminals);
    if s.nodes.len() <= d.nodes.len() && !copies_within(s, s.terminals.len() as int) {
        s
    } else {
        d
    }
}

pub proof fn lemma_find_from(nodes: Seq<Value>, value: Value, i: int)
    requires
        0 <= i <= nodes.len(),
    ensures
        i <= find_from(nodes, value, i) <= nodes.len(),
        find_from(nodes, value, i) < nodes.len() ==> nodes[find_from(nodes, value, i)] == value,
    decreases nodes.len() - i,
{
    if i < nodes.len() && nodes[i] != value {
        lemma_find_from(nodes, value, i + 1);
    }
}

/// Adding a node keeps a graph well formed, keeps the nodes that are
/// there, and gives a node of the graph.
pub proof fn lemma_add_node(d: SpecDAG, value: Value)
    requires
        dag_wf(d),
        refers_below(value, d.nodes.len() as int),
        d.nodes.len() < usize::MAX,
    ensures
        dag_wf(dag_add_node(d, value).0),
        dag_add_node(d, value).1.0 < dag_add_node(d, value).0.nodes.len(),
        dag_add_node(d, value).0.nodes[dag_add_node(d, value).1.0 as int] == value,
        d.nodes.len() <= dag_add_node(d, value).0.nodes.len() <= d.nodes.len() + 1,
        dag_add_node(d, value).0.nodes.subrange(0, d.nodes.len() as int) == d.nodes,
        dag_add_node(d, value).0.terminals == d.terminals,
        dag_add_node(d, value).0.zeroed == d.zeroed,
{
    lemma_find_from(d.nodes, value, 0);
    let (d1, node) = dag_add_node(d, value);
    assert(d1.nodes.subrange(0, d.nodes.len() as int) =~= d.nodes);
    assert forall|i: int| 0 <= i < d1.nodes.len() implies refers_below(
        #[trigger] d1.nodes[i],
        i,
    ) by {
        if i < d.nodes.len() {
            assert(d1.nodes[i] == d.nodes[i]);
        }
    }
}

/// Setting a terminal to a node of the graph keeps the graph well formed.
pub proof fn lemma_with_terminal(d: SpecDAG, offset: i32, node: Node)
    requires
        dag_wf(d),
        node.0 < d.nodes.len(),
    ensures
        dag_wf(SpecDAG { terminals: with_entry(d.terminals, offset, node), ..d }),
        with_entry(d.terminals, offset, node).len() <= d.terminals.len() + 1,
        lookup(with_entry(d.terminals, offset, node), offset) == Some(node),
{
    crate::offset_map::lemma_with_entry_ascending(d.terminals, offset, node);
    crate::offset_map::lemma_rank_from(d.terminals, offset, 0);
    let t = with_entry(d.terminals, offset, node);
    let r = crate::offset_map::rank(d.terminals, offset);
    assert forall|i: int| 0 <= i < t.len() implies (#[trigger] t[i]).1.0 < d.nodes.len() by {
        if has_key(d.terminals, offset) {
            if i != r {
                assert(t[i] == d.terminals[i]);
            }
        } else {
            if i < r {
                assert(t[i] == d.terminals[i]);
            } else if i > r {
                assert(t[i] == d.terminals[i - 1]);
            }
        }
    }
    crate::offset_map::lemma_rank_from(t, offset, 0);
    let r2 = crate::offset_map::rank(t, offset);
    assert(t[r].0 == offset);
    if r2 < r {
        assert(t[r2].0 >= offset);
        assert(t[r2].0 < t[r].0);
    } else if r2 > r {
        assert(t[r].0 < offset);
    }
}

/// A terminal of a well-formed graph is a node of the graph.
pub proof fn lemma_terminal_in_range(d: SpecDAG, offset: i32)
    requires
        dag_wf(d),
    ensures
        lookup(d.terminals, offset) matches Some(node) ==> node.0 < d.nodes.len(),
{
    crate::offset_map::lemma_rank_from(d.terminals, offset, 0);
    if has_key(d.terminals, offset) {
        let r = crate::offset_map::rank(d.terminals, offset);
        assert(d.terminals[r].1.0 < d.nodes.len());
    }
}

/// Setting a terminal keeps a graph well formed and adds at most one node
/// and one terminal.
pub proof fn lemma_set(d: SpecDAG, offset: i32, value: Value)
    requires
        dag_wf(d),
        refers_below(value, d.nodes.len() as int),
        d.nodes.len() < usize::MAX,
    ensures
        dag_wf(dag_set(d, offset, value)),
        d.nodes.len() <= dag_set(d, offset, value).nodes.len() <= d.nodes.len() + 1,
        dag_set(d, offset, value).terminals.len() <= d.terminals.len() + 1,
        dag_set(d, offset, value).zeroed == d.zeroed,
{
    lemma_add_node(d, value);
    let (d1, node) = dag_add_node(d, value);
    lemma_with_terminal(d1, offset, node);
}

/// Taking the node of an offset keeps a graph well formed and adds at most
/// one node and one terminal.
pub proof fn lemma_get_node(d: SpecDAG, offset: i32)
    requires
        dag_wf(d),
        d.nodes.len() < usize::MAX,
    ensures
        dag_wf(dag_get_node(d, offset).0),
        dag_get_node(d, offset).1.0 < dag_get_node(d, offset).0.nodes.len(),
        d.nodes.len() <= dag_get_node(d, offset).0.nodes.len() <= d.nodes.len() + 1,
        dag_get_node(d, offset).0.terminals.len() <= d.terminals.len() + 1,
        dag_get_node(d, offset).0.zeroed == d.zeroed,
{
    lemma_terminal_in_range(d, offset);
    if lookup(d.terminals, offset) is None {
        lemma_add_node(d, dag_default_value(d, offset));
        let (d1, node) = dag_add_node(d, dag_default_value(d, offset));
        lemma_with_terminal(d1, offset, node);
    }
}

/// Adding a constant keeps a graph well formed and adds at most three nodes
/// and one terminal.
pub proof fn lemma_add(d: SpecDAG, offset: i32, value: i32)
    requires
        dag_wf(d),
        d.nodes.len() + 3 <= usize::MAX,
    ensures
        dag_wf(dag_add(d, offset, value)),
        d.nodes.len() <= dag_add(d, offset, value).nodes.len() <= d.nodes.len() + 3,
        dag_add(d, offset, value).terminals.len() <= d.terminals.len() + 1,
        dag_add(d, offset, value).zeroed == d.zeroed,
{
    lemma_get_node(d, offset);
    let (d1, old_node) = dag_get_node(d, offset);
    crate::offset_map::lemma_with_entry_ascending(d.terminals, offset, old_node);
    assert(has_key(d1.terminals, offset)) by {
        if lookup(d.terminals, offset) is None {
            let (d0, node) = dag_add_node(d, dag_default_value(d, offset));
            lemma_add_node(d, dag_default_value(d, offset));
            lemma_with_terminal(d0, offset, node);
        }
    }
    lemma_add_node(d1, Value::Const(value));
    let (d2, new_node) = dag_add_node(d1, Value::Const(value));
    lemma_set(d2, offset, Value::Add(old_node, new_node));
    crate::offset_map::lemma_rank_from(d2.terminals, offset, 0);
    match d1.nodes[old_node.0 as int] {
        Value::Add(lhs, rhs) => {
            assert(refers_below(d1.nodes[old_node.0 as int], old_node.0 as int));
            match d1.nodes[rhs.0 as int] {
                Value::Const(old_value) => {
                    let folded = Value::Const(old_value.wrapping_add(value));
                    lemma_add_node(d1, folded);
                    let (d3, folded_node) = dag_add_node(d1, folded);
                    lemma_set(d3, offset, Value::Add(lhs, folded_node));
                    crate::offset_map::lemma_rank_from(d3.terminals, offset, 0);
                },
                _ => {},
            }
        },
        Value::Const(old_value) => {
            lemma_set(d1, offset, Value::Const(old_value.wrapping_add(value)));
            crate::offset_map::lemma_rank_from(d1.terminals, offset, 0);
        },
        _ => {},
    }
}

/// Moving the terminals adds none.
pub proof fn lemma_shift_terminals_len(terminals: Seq<(i32, Node)>, shift: i32)
    ensures
        shift_terminals(terminals, shift).len() <= terminals.len(),
    decreases terminals.len(),
{
    if terminals.len() > 0 {
        lemma_shift_terminals_len(terminals.drop_last(), shift);
        crate::offset_map::lemma_with_entry_len(
            shift_terminals(terminals.drop_last(), shift),
            terminals.last().0.wrapping_add(shift),
            terminals.last().1,
        );
    }
}

/// Merged terminals are no more than both together.
pub proof fn lemma_merged_terminals_len(
    terminals: Seq<(i32, Node)>,
    extra: Seq<(i32, Node)>,
    base: int,
)
    ensures
        merged_terminals(terminals, extra, base).len() <= terminals.len() + extra.len(),
    decreases extra.len(),
{
    if extra.len() > 0 {
        lemma_merged_terminals_len(terminals, extra.drop_last(), base);
        crate::offset_map::lemma_with_entry_len(
            merged_terminals(terminals, extra.drop_last(), base),
            extra.last().0,
            moved_node(extra.last().1, base),
        );
    }
}

/// Simplifying a value leaves the terminals and the flag of the graph that
/// gathers the nodes as they are.
pub proof fn lemma_simplify_value_keeps(d: SpecDAG, old: Seq<Value>, n: int)
    ensures
        simplify_value(d, old, n).0.terminals == d.terminals,
        simplify_value(d, old, n).0.zeroed == d.zeroed,
    decreases n,
{
    if 0 <= n < old.len() {
        match old[n] {
            Value::Multiply(l, r) => {
                if l.0 < n && r.0 < n {
                    lemma_simplify_value_keeps(d, old, l.0 as int);
                    let (d1, lhs) = simplify_value(d, old, l.0 as int);
                    lemma_simplify_value_keeps(d1, old, r.0 as int);
                }
            },
            Value::Add(l, r) => {
                if l.0 < n && r.0 < n {
                    lemma_simplify_value_keeps(d, old, l.0 as int);
                    let (d1, lhs) = simplify_value(d, old, l.0 as int);
                    lemma_simplify_value_keeps(d1, old, r.0 as int);
                }
            },
            _ => {},
        }
    }
}

/// Simplified terminals are no more than the terminals, and the flag stays.
pub proof fn lemma_simplify_terminals_len(
    d: SpecDAG,
    old: Seq<Value>,
    terminals: Seq<(i32, Node)>,
)
    ensures
        simplify_terminals(d, old, terminals).terminals.len() <= d.terminals.len()
            + terminals.len(),
        simplify_terminals(d, old, terminals).zeroed == d.zeroed,
    decreases terminals.len(),
{
    if terminals.len() > 0 {
        lemma_simplify_terminals_len(d, old, terminals.drop_last());
        let before = simplify_terminals(d, old, terminals.drop_last());
        let (offset, node) = terminals.last();
        lemma_simplify_value_keeps(before, old, node.0 as int);
        let (d1, value) = simplify_value(before, old, node.0 as int);
        let (d2, added) = dag_add_node(d1, value);
        crate::offset_map::lemma_with_entry_len(d2.terminals, offset, added);
    }
}

/// A copy among the first terminals is a copy among more of them.
pub proof fn lemma_copies_more(d: SpecDAG, n: int, m: int)
    requires
        copies_within(d, n),
        n <= m,
    ensures
        copies_within(d, m),
    decreases m - n,
{
    if n < m {
        lemma_copies_more(d, n, m - 1);
    }
}

/// A simplified graph has no more nodes and no more terminals than the
/// graph, and the same flag.
pub proof fn lemma_simplify(d: SpecDAG)
    ensures
        dag_simplify(d).nodes.len() <= d.nodes.len(),
        dag_simplify(d).terminals.len() <= d.terminals.len(),
        dag_simplify(d).zeroed == d.zeroed,
{
    lemma_simplify_terminals_len(empty_dag(d.zeroed), d.nodes, d.terminals);
}

/// A per-basic-block expression graph.
pub struct DAG {
    nodes: Vec<Value>,
    terminals: OffsetMap<Node>,
    /// Whether every cell is known to be zero as the block begins.
    pub zeroed: bool,
}

impl View for DAG {
    type V = SpecDAG;

    closed spec fn view(&self) -> SpecDAG {
        SpecDAG { nodes: self.nodes@, terminals: self.terminals@, zeroed: self.zeroed }
    }
}

impl DeepView for DAG {
    type V = SpecDAG;

    open spec fn deep_view(&self) -> SpecDAG {
        self@
    }
}

impl DAG {
    /// Whether the graph is well formed. Every graph that the functions of
    /// this type make is.
    pub open spec fn wf(&self) -> bool {
        dag_wf(self@)
    }

    /// The graph without nodes.
    pub fn new(zeroed: bool) -> (d: Self)
        ensures
            d@ == empty_dag(zeroed),
            d.wf(),
    {
        Self { nodes: Vec::new(), terminals: OffsetMap::new(), zeroed }
    }

    /// Whether every cell is known to be zero as the block begins.
    pub fn is_zeroed(&self) -> (b: bool)
        ensures
            b == self@.zeroed,
    {
        self.zeroed
    }

    /// Says whether every cell is known to be zero as the block begins.
    pub fn set_zeroed(&mut self, zeroed: bool)
        ensures
            final(self)@ == (SpecDAG { zeroed, ..old(self)@ }),
    {
        self.zeroed = zeroed;
    }

    /// The number of nodes.
    pub fn len(&self) -> (n: usize)
        ensures
            n == self@.nodes.len(),
    {
        self.nodes.len()
    }

    /// The number of terminals.
    pub fn terminal_count(&self) -> (n: usize)
        ensures
            n == self@.terminals.len(),
    {
        self.terminals.len()
    }

    /// Whether the graph has neither nodes nor terminals.
    pub fn is_empty(&self) -> (b: bool)
        ensures
            b == (self@.nodes.len() == 0 && self@.terminals.len() == 0),
    {
        self.nodes.len() == 0 && self.terminals.is_empty()
    }

    /// What node `node` computes.
    pub fn value(&self, node: Node) -> (v: Value)
        requires
            node.0 < self@.nodes.len(),
        ensures
            v == self@.nodes[node.0 as int],
    {
        self.nodes[node.0]
    }

    /// The node of `value`: the first node with this value, or a new one.
    pub fn add_node(&mut self, value: Value) -> (node: Node)
        requires
            old(self).wf(),
            refers_below(value, old(self)@.nodes.len() as int),
        ensures
            (final(self)@, node) == dag_add_node(old(self)@, value),
            final(self).wf(),
            node.0 < final(self)@.nodes.len(),
            old(self)@.nodes.len() <= final(self)@.nodes.len(),
    {
        let mut i: usize = 0;
        while i < self.nodes.len() && self.nodes[i] != value
            invariant
                i <= self.nodes@.len(),
                self.nodes@ == old(self).nodes@,
                self.terminals@ == old(self).terminals@,
                self.zeroed == old(self).zeroed,
                find_from(self.nodes@, value, 0) == find_from(self.nodes@, value, i as int),
            decreases self.nodes@.len() - i,
        {
            i = i + 1;
        }
        if i < self.nodes.len() {
            Node(i)
        } else {
            proof {
                let d = old(self)@;
                let d1 = SpecDAG { nodes: d.nodes.push(value), ..d };
                assert forall|k: int| 0 <= k < d1.nodes.len() implies refers_below(
                    #[trigger] d1.nodes[k],
                    k,
                ) by {
                    if k < d.nodes.len() {
                        assert(d1.nodes[k] == d.nodes[k]);
                    }
                }
                assert forall|k: int| 0 <= k < d1.terminals.len() implies (
                #[trigger] d1.terminals[k]).1.0 < d1.nodes.len() by {
                    assert(d.terminals[k].1.0 < d.nodes.len());
                }
            }
            self.nodes.push(value);
            Node(self.nodes.len() - 1)
        }
    }

    fn default_value(&self, offset: i32) -> (v: Value)
        ensures
            v == dag_default_value(self@, offset),
    {
        if self.zeroed {
            Value::Const(0)
        } else {
            Value::Tape(offset)
        }
    }

    fn set_terminal(&mut self, offset: i32, node: Node)
        requires
            old(self).wf(),
            node.0 < old(self)@.nodes.len(),
        ensures
            final(self)@ == (SpecDAG {
                terminals: with_entry(old(self)@.terminals, offset, node),
                ..old(self)@
            }),
            final(self).wf(),
    {
        proof {
            lemma_with_terminal(self@, offset, node);
        }
        self.terminals.insert(offset, node);
    }

    /// Makes `value` the terminal of `offset`.
    pub fn set(&mut self, offset: i32, value: Value)
        requires
            old(self).wf(),
            refers_below(value, old(self)@.nodes.len() as int),
        ensures
            final(self)@ == dag_set(old(self)@, offset, value),
            final(self).wf(),
    {
        let node = self.add_node(value);
        self.set_terminal(offset, node);
    }

    /// What `offset` holds when the block commits.
    pub fn get(&self, offset: i32) -> (v: Value)
        requires
            self.wf(),
        ensures
            v == dag_get(self@, offset),
    {
        proof {
            lemma_terminal_in_range(self@, offset);
        }
        match self.terminals.get(offset) {
            Some(node) => self.nodes[node.0],
            None => self.default_value(offset),
        }
    }

    fn get_node(&mut self, offset: i32) -> (node: Node)
        requires
            old(self).wf(),
        ensures
            (final(self)@, node) == dag_get_node(old(self)@, offset),
            final(self).wf(),
            node.0 < final(self)@.nodes.len(),
    {
        proof {
            lemma_terminal_in_range(self@, offset);
        }
        match self.terminals.get(offset) {
            Some(node) => node,
            None => {
                let value = self.default_value(offset);
                let node = self.add_node(value);
                self.set_terminal(offset, node);
                node
            },
        }
    }

    /// Adds the constant `value` to `offset`.
    pub fn add(&mut self, offset: i32, value: i32)
        requires
            old(self).wf(),
        ensures
            final(self)@ == dag_add(old(self)@, offset, value),
            final(self).wf(),
    {
        let old_node = self.get_node(offset);
        let ghost d1 = self@;
        assert(refers_below(d1.nodes[old_node.0 as int], old_node.0 as int));
        match self.nodes[old_node.0] {
            Value::Add(lhs, rhs) => {
                if let Value::Const(old_value) = self.nodes[rhs.0] {
                    let new_node = self.add_node(Value::Const(old_value.wrapping_add(value)));
                    self.set(offset, Value::Add(lhs, new_node));
                    return ;
                }
            },
            Value::Const(old_value) => {
                self.set(offset, Value::Const(old_value.wrapping_add(value)));
                return ;
            },
            _ => {},
        }
        let new_node = self.add_node(Value::Const(value));
        self.set(offset, Value::Add(old_node, new_node));
    }

    /// Multiplies `offset` by `value`.
    pub fn mul(&mut self, offset: i32, value: Value)
        requires
            old(self).wf(),
            refers_below(value, old(self)@.nodes.len() as int),
        ensures
            final(self)@ == dag_mul(old(self)@, offset, value),
            final(self).wf(),
    {
        let old_node = self.get_node(offset);
        let new_node = self.add_node(value);
        self.set(offset, Value::Multiply(old_node, new_node));
    }

    /// Removes every node and terminal.
    pub fn clear(&mut self)
        ensures
            final(self)@ == dag_clear(old(self)@),
            final(self).wf(),
    {
        self.nodes.clear();
        self.terminals.clear();
    }

    /// The nodes in an order in which every node comes after the nodes it
    /// refers to: the order in which they were made.
    pub fn topological_sort(&self) -> (order: Vec<Node>)
        ensures
            order@ == Seq::new(self@.nodes.len(), |i: int| Node(i as usize)),
    {
        let mut order: Vec<Node> = Vec::new();
        let mut i: usize = 0;
        while i < self.nodes.len()
            invariant
                i <= self.nodes@.len(),
                order@ == Seq::new(i as nat, |k: int| Node(k as usize)),
            decreases self.nodes@.len() - i,
        {
            order.push(Node(i));
            i = i + 1;
            assert(order@ =~= Seq::new(i as nat, |k: int| Node(k as usize)));
        }
        order
    }

    /// The terminals, in ascending order of offset.
    pub fn terminals(&self) -> (list: Vec<(i32, Node)>)
        ensures
            list@ == self@.terminals,
    {
        let mut list: Vec<(i32, Node)> = Vec::new();
        let mut i: usize = 0;
        while i < self.terminals.len()
            invariant
                i <= self.terminals@.len(),
                list@ == self.terminals@.subrange(0, i as int),
            decreases self.terminals@.len() - i,
        {
            list.push(self.terminals.entry(i));
            i = i + 1;
            assert(list@ =~= self.terminals@.subrange(0, i as int));
        }
        assert(self.terminals@.subrange(0, i as int) =~= self.terminals@);
        list
    }

    /// The constant `a` if `offset` holds the tape at `offset` plus `a`.
    pub fn as_add_const(&self, offset: i32) -> (a: Option<i32>)
        requires
            self.wf(),
        ensures
            a == dag_as_add_const(self@, offset),
    {
        proof {
            lemma_terminal_in_range(self@, offset);
        }
        match self.terminals.get(offset) {
            Some(node) => {
                assert(refers_below(self@.nodes[node.0 as int], node.0 as int));
                match self.nodes[node.0] {
                    Value::Add(lhs, rhs) => match (self.nodes[lhs.0], self.nodes[rhs.0]) {
                        (Value::Tape(off), Value::Const(a)) => if off == offset {
                            Some(a)
                        } else {
                            None
                        },
                        (Value::Const(a), Value::Tape(off)) => if off == offset {
                            Some(a)
                        } else {
                            None
                        },
                        _ => None,
                    },
                    _ => None,
                }
            },
            None => None,
        }
    }

    /// Moves the graph by `shift` cells: the offsets of the terminals and of
    /// the tape nodes move.
    pub fn shift(&mut self, shift: i32)
        requires
            old(self).wf(),
        ensures
            final(self)@ == dag_shift(old(self)@, shift),
            final(self).wf(),
    {
        let ghost d = self@;
        let mut moved: OffsetMap<Node> = OffsetMap::new();
        let mut i: usize = 0;
        assert(d.terminals.subrange(0, 0) =~= Seq::<(i32, Node)>::empty());
        while i < self.terminals.len()
            invariant
                i <= d.terminals.len(),
                self@ == d,
                dag_wf(d),
                moved@ == shift_terminals(d.terminals.subrange(0, i as int), shift),
                dag_wf(SpecDAG { terminals: moved@, ..d }),
            decreases d.terminals.len() - i,
        {
            let (offset, node) = self.terminals.entry(i);
            proof {
                let next = d.terminals.subrange(0, i + 1);
                assert(next.drop_last() =~= d.terminals.subrange(0, i as int));
                assert(next.last() == (offset, node));
                assert(d.terminals[i as int].1.0 < d.nodes.len());
                lemma_with_terminal(
                    SpecDAG { terminals: moved@, ..d },
                    offset.wrapping_add(shift),
                    node,
                );
            }
            moved.insert(offset.wrapping_add(shift), node);
            i = i + 1;
        }
        assert(d.terminals.subrange(0, i as int) =~= d.terminals);
        self.terminals = moved;
        let mut j: usize = 0;
        while j < self.nodes.len()
            invariant
                j <= self.nodes@.len(),
                self.nodes@.len() == d.nodes.len(),
                self.terminals@ == shift_terminals(d.terminals, shift),
                self.zeroed == d.zeroed,
                forall|k: int| 0 <= k < j ==> self.nodes@[k] == shift_value(d.nodes[k], shift),
                forall|k: int| j <= k < d.nodes.len() ==> self.nodes@[k] == d.nodes[k],
            decreases self.nodes@.len() - j,
        {
            if let Value::Tape(offset) = self.nodes[j] {
                self.nodes.set(j, Value::Tape(offset.wrapping_add(shift)));
            }
            j = j + 1;
        }
        proof {
            let r = dag_shift(d, shift);
            assert(self.nodes@ =~= r.nodes);
            assert forall|k: int| 0 <= k < r.nodes.len() implies refers_below(
                #[trigger] r.nodes[k],
                k,
            ) by {
                assert(refers_below(d.nodes[k], k));
            }
        }
    }

    /// Appends the graph `expr`. Where this graph has a terminal for an
    /// offset that `expr` reads, `expr` reads what that terminal computes;
    /// the terminals of `expr` replace those of this graph.
    pub fn extend(&mut self, expr: DAG)
        requires
            old(self).wf(),
            expr.wf(),
            old(self)@.nodes.len() + expr@.nodes.len() <= usize::MAX,
        ensures
            final(self)@ == dag_extend(old(self)@, expr@),
            final(self).wf(),
    {
        let ghost d = self@;
        let ghost e = expr@;
        let base = self.nodes.len();
        let ghost added = Seq::new(e.nodes.len(), |i: int| extended_value(d, e.nodes[i], base as int));
        let mut i: usize = 0;
        assert(self.nodes@ =~= d.nodes + added.subrange(0, 0));
        while i < expr.nodes.len()
            invariant
                i <= e.nodes.len(),
                expr@ == e,
                dag_wf(d),
                dag_wf(e),
                base == d.nodes.len(),
                base + e.nodes.len() <= usize::MAX,
                added == Seq::new(
                    e.nodes.len(),
                    |i: int| extended_value(d, e.nodes[i], base as int),
                ),
                self.nodes@ == d.nodes + added.subrange(0, i as int),
                self.terminals@ == d.terminals,
                self.zeroed == d.zeroed,
            decreases e.nodes.len() - i,
        {
            proof {
                assert(refers_below(e.nodes[i as int], i as int));
                lemma_terminal_in_range(d, e.nodes[i as int]->Tape_0);
            }
            let value = match expr.nodes[i] {
                Value::Tape(offset) => match self.terminals.get(offset) {
                    Some(node) => self.nodes[node.0],
                    None => Value::Tape(offset),
                },
                Value::Const(c) => Value::Const(c),
                Value::Multiply(l, r) => Value::Multiply(Node(l.0 + base), Node(r.0 + base)),
                Value::Add(l, r) => Value::Add(Node(l.0 + base), Node(r.0 + base)),
            };
            assert(value == added[i as int]);
            self.nodes.push(value);
            i = i + 1;
            assert(self.nodes@ =~= d.nodes + added.subrange(0, i as int));
        }
        assert(added.subrange(0, i as int) =~= added);
        proof {
            let all = d.nodes + added;
            assert forall|k: int| 0 <= k < all.len() implies refers_below(#[trigger] all[k], k) by {
                if k < base {
                    assert(refers_below(d.nodes[k], k));
                } else {
                    let v = e.nodes[k - base];
                    assert(refers_below(v, k - base));
                    assert(all[k] == extended_value(d, v, base as int));
                    if let Value::Tape(offset) = v {
                        lemma_terminal_in_range(d, offset);
                        if let Some(node) = lookup(d.terminals, offset) {
                            assert(refers_below(d.nodes[node.0 as int], node.0 as int));
                        }
                    }
                }
            }
            assert forall|k: int| 0 <= k < d.terminals.len() implies (
            #[trigger] d.terminals[k]).1.0 < all.len() by {}
            assert(dag_wf(SpecDAG { nodes: all, ..d }));
        }
        let mut j: usize = 0;
        assert(e.terminals.subrange(0, 0) =~= Seq::<(i32, Node)>::empty());
        while j < expr.terminals.len()
            invariant
                j <= e.terminals.len(),
                expr@ == e,
                dag_wf(e),
                base == d.nodes.len(),
                base + e.nodes.len() <= usize::MAX,
                self.nodes@ == d.nodes + added,
                added.len() == e.nodes.len(),
                self.zeroed == d.zeroed,
                self.terminals@ == merged_terminals(
                    d.terminals,
                    e.terminals.subrange(0, j as int),
                    base as int,
                ),
                self.wf(),
            decreases e.terminals.len() - j,
        {
            let (offset, node) = expr.terminals.entry(j);
            proof {
                let next = e.terminals.subrange(0, j + 1);
                assert(next.drop_last() =~= e.terminals.subrange(0, j as int));
                assert(next.last() == (offset, node));
                assert(e.terminals[j as int].1.0 < e.nodes.len());
            }
            self.set_terminal(offset, Node(node.0 + base));
            j = j + 1;
        }
        assert(e.terminals.subrange(0, j as int) =~= e.terminals);
    }

    /// Whether a terminal only copies another cell.
    fn copies_any(&self) -> (r: bool)
        requires
            self.wf(),
        ensures
            r == copies_within(self@, self@.terminals.len() as int),
    {
        let mut i: usize = 0;
        while i < self.terminals.len()
            invariant
                i <= self@.terminals.len(),
                self.wf(),
                !copies_within(self@, i as int),
            decreases self@.terminals.len() - i,
        {
            let (offset, node) = self.terminals.entry(i);
            assert(self@.terminals[i as int].1.0 < self@.nodes.len());
            match self.nodes[node.0] {
                Value::Tape(from) => {
                    if from != offset {
                        proof {
                            lemma_copies_more(self@, i as int + 1, self@.terminals.len() as int);
                        }
                        return true;
                    }
                },
                _ => {},
            }
            i = i + 1;
        }
        false
    }

    /// Simplifies the graph: constants are folded, and sums with zero and
    /// products with zero or one are replaced by what they amount to. The
    /// graph stays as it is where that would take more nodes, or would make
    /// a terminal a copy of another cell.
    pub fn simplify(&mut self)
        requires
            old(self).wf(),
        ensures
            final(self)@ == dag_simplify(old(self)@),
            final(self).wf(),
    {
        let ghost d = self@;
        let mut fresh = DAG::new(self.zeroed);
        let mut i: usize = 0;
        assert(d.terminals.subrange(0, 0) =~= Seq::<(i32, Node)>::empty());
        while i < self.terminals.len()
            invariant
                i <= d.terminals.len(),
                self@ == d,
                dag_wf(d),
                fresh.wf(),
                fresh@ == simplify_terminals(
                    empty_dag(d.zeroed),
                    d.nodes,
                    d.terminals.subrange(0, i as int),
                ),
            decreases d.terminals.len() - i,
        {
            let (offset, node) = self.terminals.entry(i);
            proof {
                let next = d.terminals.subrange(0, i + 1);
                assert(next.drop_last() =~= d.terminals.subrange(0, i as int));
                assert(next.last() == (offset, node));
                assert(d.terminals[i as int].1.0 < d.nodes.len());
            }
            let value = simplify_iter(&mut fresh, &self.nodes, node);
            if value != Value::Tape(offset) {
                fresh.set(offset, value);
            }
            i = i + 1;
        }
        assert(d.terminals.subrange(0, i as int) =~= d.terminals);
        if fresh.nodes.len() <= self.nodes.len() && !fresh.copies_any() {
            *self = fresh;
        }
    }

    /// The tape offsets that `node` is computed from.
    pub fn dependencies(&self, node: Node) -> (set: HashSet<i32>)
        requires
            self.wf(),
            node.0 < self@.nodes.len(),
        ensures
            set@ == deps_of(self@.nodes, node.0 as int),
    {
        let mut set: HashSet<i32> = HashSet::new();
        dependencies_iter(self, &mut set, node);
        assert(set@ =~= deps_of(self@.nodes, node.0 as int));
        set
    }
}

fn dependencies_iter(dag: &DAG, set: &mut HashSet<i32>, node: Node)
    requires
        dag.wf(),
        node.0 < dag@.nodes.len(),
    ensures
        final(set)@ == old(set)@.union(deps_of(dag@.nodes, node.0 as int)),
    decreases node.0,
{
    broadcast use vstd::std_specs::hash::group_hash_axioms;

    assert(refers_below(dag@.nodes[node.0 as int], node.0 as int));
    match dag.value(node) {
        Value::Tape(offset) => {
            set.insert(offset);
            assert(set@ =~= old(set)@.union(deps_of(dag@.nodes, node.0 as int)));
        },
        Value::Const(_) => {
            assert(set@ =~= old(set)@.union(deps_of(dag@.nodes, node.0 as int)));
        },
        Value::Multiply(l, r) => {
            dependencies_iter(dag, set, l);
            dependencies_iter(dag, set, r);
            assert(set@ =~= old(set)@.union(deps_of(dag@.nodes, node.0 as int)));
        },
        Value::Add(l, r) => {
            dependencies_iter(dag, set, l);
            dependencies_iter(dag, set, r);
            assert(set@ =~= old(set)@.union(deps_of(dag@.nodes, node.0 as int)));
        },
    }
}

fn combine(dag: &mut DAG, lhs: Value, rhs: Value, product: bool) -> (v: Value)
    requires
        old(dag).wf(),
        refers_below(lhs, old(dag)@.nodes.len() as int),
        refers_below(rhs, old(dag)@.nodes.len() as int),
    ensures
        (final(dag)@, v) == if product {
            combine_mul(old(dag)@, lhs, rhs)
        } else {
            combine_add(old(dag)@, lhs, rhs)
        },
        final(dag).wf(),
        refers_below(v, final(dag)@.nodes.len() as int),
        old(dag)@.nodes.len() <= final(dag)@.nodes.len(),
{
    proof {
        lemma_find_from(dag@.nodes, lhs, 0);
    }
    if let Value::Const(a) = lhs {
        if let Value::Const(b) = rhs {
            return if product {
                Value::Const(a.wrapping_mul(b))
            } else {
                Value::Const(a.wrapping_add(b))
            };
        }
    }
    if product {
        if lhs == Value::Const(0) || rhs == Value::Const(0) {
            return Value::Const(0);
        }
        if lhs == Value::Const(1) {
            return rhs;
        }
        if rhs == Value::Const(1) {
            return lhs;
        }
    } else {
        if lhs == Value::Const(0) {
            return rhs;
        }
        if rhs == Value::Const(0) {
            return lhs;
        }
    }
    let l = dag.add_node(lhs);
    proof {
        lemma_find_from(dag@.nodes, rhs, 0);
    }
    let r = dag.add_node(rhs);
    if product {
        Value::Multiply(l, r)
    } else {
        Value::Add(l, r)
    }
}

fn simplify_iter(dag: &mut DAG, old_nodes: &Vec<Value>, node: Node) -> (v: Value)
    requires
        old(dag).wf(),
        nodes_ordered(old_nodes@),
        node.0 < old_nodes@.len(),
    ensures
        (final(dag)@, v) == simplify_value(old(dag)@, old_nodes@, node.0 as int),
        final(dag).wf(),
        refers_below(v, final(dag)@.nodes.len() as int),
        old(dag)@.nodes.len() <= final(dag)@.nodes.len(),
    decreases node.0,
{
    let value = old_nodes[node.0];
    assert(refers_below(old_nodes@[node.0 as int], node.0 as int));
    match value {
        Value::Multiply(l, r) => {
            let lhs = simplify_iter(dag, old_nodes, l);
            let rhs = simplify_iter(dag, old_nodes, r);
            combine(dag, lhs, rhs, true)
        },
        Value::Add(l, r) => {
            let lhs = simplify_iter(dag, old_nodes, l);
            let rhs = simplify_iter(dag, old_nodes, r);
            combine(dag, lhs, rhs, false)
        },
        _ => value,
    }
}

} // verus!
