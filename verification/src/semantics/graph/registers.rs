//! The instructions of a graph do what the graph computes: each sum and
//! product is in its register when the terminals are written, and each
//! terminal is written with what its node computes over the state before.

use vstd::arithmetic::div_mod::{
    lemma_add_mod_noop, lemma_mod_twice, lemma_mul_mod_noop, lemma_small_mod,
};
use vstd::prelude::*;
use crate::lir::SpecLIR;
use crate::offset_map::{lemma_lookup_with_entry, lemma_rank_from, lemma_with_entry_push, lookup, rank};
use crate::optimizer::new::compile::{
    count_regs, expr_lir, node_lir, node_operand, nodes_lir, takes_reg, terminals_lir,
};
use crate::optimizer::new::dag::{nodes_ordered, refers_below, SpecDAG, Value};
use crate::semantics::graph::extending::lemma_after_expr_sound;
use crate::semantics::gathering::{cell_sound, lemma_exec_all_sound};
use crate::semantics::graph::graphs::{after_expr, due_cell, lemma_val_node, lemma_val_range, val};
use crate::semantics::peephole::lowering::{holds, loaded};
use crate::semantics::machine::{exec, read, Machine};
use crate::semantics::peephole::pending::{tcell_sound, tsound};
use crate::semantics::programs::{exec_all, lemma_exec_all_concat, lemma_exec_one};
use crate::semantics::graph::safety::{lemma_safe_index, safe};
use crate::semantics::peephole::tokens::{cell, TokenState};

verus! {

/// Whether what stands for node `i` holds, as a value of the cell type,
/// what the node computes.
pub open spec fn computed(
    nodes: Seq<Value>,
    i: int,
    regs: nat,
    m: Machine,
    x: TokenState,
    modulus: int,
) -> bool {
    read(m, node_operand(nodes, i, regs)) % modulus == val(nodes, i, x, modulus)
}

/// A node that takes a register takes one that no node before it takes.
pub proof fn lemma_count_regs_grows(nodes: Seq<Value>, i: int, j: int)
    requires
        0 <= i < j,
        takes_reg(nodes[i]),
    ensures
        count_regs(nodes, i) < count_regs(nodes, j),
    decreases j - i,
{
    if i + 1 < j {
        lemma_count_regs_grows(nodes, i, j - 1);
    }
}

/// The registers that are taken grow with the nodes.
pub proof fn lemma_count_regs_more(nodes: Seq<Value>, i: int, j: int)
    requires
        i <= j,
    ensures
        count_regs(nodes, i) <= count_regs(nodes, j),
    decreases j - i,
{
    if i < j {
        lemma_count_regs_more(nodes, i, j - 1);
    }
}

/// After the instructions of the first `n` nodes, what stands for each of
/// them holds what the node computes; the tape is as it was.
pub proof fn lemma_nodes_sim(
    nodes: Seq<Value>,
    n: int,
    regs: nat,
    m: Machine,
    x: TokenState,
    modulus: int,
)
    requires
        modulus > 0,
        nodes_ordered(nodes),
        0 <= n <= nodes.len(),
        regs + count_regs(nodes, n) <= u32::MAX,
        m.tape == x.tape,
        m.cursor == x.cursor,
        tsound(x, modulus),
    ensures
        exec_all(nodes_lir(nodes, n, regs), m, modulus) == (Machine {
            regs: exec_all(nodes_lir(nodes, n, regs), m, modulus).regs,
            ..m
        }),
        forall|i: int|
            0 <= i < n ==> computed(
                nodes,
                i,
                regs,
                exec_all(nodes_lir(nodes, n, regs), m, modulus),
                x,
                modulus,
            ),
    decreases n,
{
    if n > 0 {
        let last = n - 1;
        lemma_count_regs_more(nodes, last, n);
        lemma_nodes_sim(nodes, last, regs, m, x, modulus);
        let before = exec_all(nodes_lir(nodes, last, regs), m, modulus);
        let after = exec_all(nodes_lir(nodes, n, regs), m, modulus);
        lemma_exec_all_concat(nodes_lir(nodes, last, regs), node_lir(nodes, last, regs), m, modulus);
        assert(refers_below(nodes[last], last));
        lemma_val_node(nodes, last, x, modulus);
        lemma_val_range(nodes, last, x, modulus);
        let dest = (regs + count_regs(nodes, last)) as u32;
        match nodes[last] {
            Value::Multiply(a, b) => {
                let instr = node_lir(nodes, last, regs)[0];
                assert(node_lir(nodes, last, regs) =~= seq![instr]);
                lemma_exec_one(instr, before, modulus);
                let ra = read(before, node_operand(nodes, a.0 as int, regs));
                let rb = read(before, node_operand(nodes, b.0 as int, regs));
                assert(computed(nodes, a.0 as int, regs, before, x, modulus));
                assert(computed(nodes, b.0 as int, regs, before, x, modulus));
                lemma_mul_mod_noop(ra, rb, modulus);
                lemma_mod_twice(ra * rb, modulus);
            },
            Value::Add(a, b) => {
                let instr = node_lir(nodes, last, regs)[0];
                assert(node_lir(nodes, last, regs) =~= seq![instr]);
                lemma_exec_one(instr, before, modulus);
                let ra = read(before, node_operand(nodes, a.0 as int, regs));
                let rb = read(before, node_operand(nodes, b.0 as int, regs));
                assert(computed(nodes, a.0 as int, regs, before, x, modulus));
                assert(computed(nodes, b.0 as int, regs, before, x, modulus));
                lemma_add_mod_noop(ra, rb, modulus);
                lemma_mod_twice(ra + rb, modulus);
            },
            Value::Tape(offset) => {
                assert(node_lir(nodes, last, regs) =~= Seq::<SpecLIR>::empty());
                assert(tcell_sound(x, x.cursor.wrapping_add(offset), modulus));
                lemma_small_mod(cell(x, offset) as nat, modulus as nat);
            },
            Value::Const(v) => {
                assert(node_lir(nodes, last, regs) =~= Seq::<SpecLIR>::empty());
            },
        }
        assert forall|i: int| 0 <= i < n implies computed(nodes, i, regs, after, x, modulus) by {
            if i < last {
                assert(computed(nodes, i, regs, before, x, modulus));
                if takes_reg(nodes[i]) {
                    lemma_count_regs_grows(nodes, i, last);
                }
            }
        }
    } else {
        assert(nodes_lir(nodes, n, regs) =~= Seq::<SpecLIR>::empty());
    }
}

/// What a cell is due when only the first `j` terminals of a graph are
/// written.
pub open spec fn due_first(d: SpecDAG, j: int, k: i32, x: TokenState, modulus: int) -> int {
    due_cell(SpecDAG { terminals: d.terminals.subrange(0, j), ..d }, k, x, modulus)
}

/// Whether the cell at an address is there and holds what it is due when
/// the first `j` terminals are written.
pub open spec fn written_cell(
    tape: Map<i32, int>,
    d: SpecDAG,
    j: int,
    x: TokenState,
    a: i32,
    modulus: int,
) -> bool {
    tape.dom().contains(a) && tape[a] == due_first(d, j, a.wrapping_sub(x.cursor), x, modulus)
}

/// After the first `j` terminals are written, each of their cells holds
/// what its node computes over the state before, and every other cell what
/// it held.
pub proof fn lemma_terminals_sim(
    d: SpecDAG,
    regs: nat,
    j: int,
    m: Machine,
    x: TokenState,
    modulus: int,
)
    requires
        modulus > 0,
        safe(d),
        0 <= j <= d.terminals.len(),
        m.tape == x.tape,
        m.cursor == x.cursor,
        tsound(x, modulus),
        forall|i: int| 0 <= i < d.nodes.len() ==> computed(d.nodes, i, regs, m, x, modulus),
    ensures
        exec_all(terminals_lir(d, regs).subrange(0, j), m, modulus) == (Machine {
            tape: exec_all(terminals_lir(d, regs).subrange(0, j), m, modulus).tape,
            ..m
        }),
        forall|a: i32|
            written_cell(
                exec_all(terminals_lir(d, regs).subrange(0, j), m, modulus).tape,
                d,
                j,
                x,
                a,
                modulus,
            ),
    decreases j,
{
    let all = terminals_lir(d, regs);
    let part = all.subrange(0, j);
    let after = exec_all(part, m, modulus);
    if j == 0 {
        assert(part =~= Seq::<SpecLIR>::empty());
        assert forall|a: i32| written_cell(after.tape, d, j, x, a, modulus) by {
            let k = a.wrapping_sub(x.cursor);
            assert(a == x.cursor.wrapping_add(k));
            assert(tcell_sound(x, a, modulus));
        }
    } else {
        let last = j - 1;
        let (offset, node) = d.terminals[last];
        lemma_terminals_sim(d, regs, last, m, x, modulus);
        let before = exec_all(all.subrange(0, last), m, modulus);
        let instr = all[last];
        assert(part.drop_last() =~= all.subrange(0, last));
        assert(part.last() == instr);
        assert(after == exec(instr, before, modulus));
        let few = d.terminals.subrange(0, last);
        let now = d.terminals.subrange(0, j);
        assert(now =~= few.push((offset, node)));
        assert(crate::offset_map::ascending(now)) by {
            assert forall|p: int, q: int| 0 <= p < q < now.len() implies (#[trigger] now[p]).0 < (
            #[trigger] now[q]).0 by {
                assert(now[p] == d.terminals[p] && now[q] == d.terminals[q]);
            }
        }
        lemma_with_entry_push(few, offset, node);
        assert(d.terminals[last].1.0 < d.nodes.len());
        assert(computed(d.nodes, node.0 as int, regs, m, x, modulus));
        let at = x.cursor.wrapping_add(offset);
        assert(at.wrapping_sub(x.cursor) == offset);
        let operand = node_operand(d.nodes, node.0 as int, regs);
        // What is read for the terminal is what was read before any
        // terminal was written: a terminal that is a tape cell is its own
        // cell, which no terminal before it has written.
        assert(read(before, operand) == read(m, operand)) by {
            lemma_safe_index(d, last);
            if let Value::Tape(from) = d.nodes[node.0 as int] {
                assert(from == offset);
                assert(written_cell(before.tape, d, last, x, at, modulus));
                if lookup(few, offset) is Some {
                    lemma_rank_from(few, offset, 0);
                    let r = rank(few, offset);
                    assert(now[r] == few[r]);
                    assert(now[r].0 < now[last].0);
                }
            }
        }
        lemma_val_range(d.nodes, node.0 as int, x, modulus);
        assert forall|a: i32| written_cell(after.tape, d, j, x, a, modulus) by {
            let k = a.wrapping_sub(x.cursor);
            assert(a == x.cursor.wrapping_add(k));
            lemma_lookup_with_entry(few, offset, node, k);
            assert(written_cell(before.tape, d, last, x, a, modulus));
        }
    }
}

/// The instructions of a safe graph lead a machine that holds a state to
/// one that holds the state after the graph is committed.
pub proof fn lemma_expr_sim(d: SpecDAG, regs: nat, m: Machine, x: TokenState, modulus: int)
    requires
        modulus > 0,
        safe(d),
        regs + count_regs(d.nodes, d.nodes.len() as int) <= u32::MAX,
        holds(m, x, modulus),
    ensures
        holds(exec_all(expr_lir(d, regs), m, modulus), after_expr(d, x, modulus), modulus),
{
    let n = d.nodes.len() as int;
    let first = nodes_lir(d.nodes, n, regs);
    let second = terminals_lir(d, regs);
    let made = after_expr(d, x, modulus);
    assert forall|a: i32| tcell_sound(x, a, modulus) by {
        assert(cell_sound(m, a, modulus));
    }
    lemma_nodes_sim(d.nodes, n, regs, m, x, modulus);
    let m1 = exec_all(first, m, modulus);
    lemma_terminals_sim(d, regs, d.terminals.len() as int, m1, x, modulus);
    assert(second.subrange(0, d.terminals.len() as int) =~= second);
    assert(d.terminals.subrange(0, d.terminals.len() as int) =~= d.terminals);
    let m2 = exec_all(second, m1, modulus);
    lemma_exec_all_concat(first, second, m, modulus);
    lemma_exec_all_sound(expr_lir(d, regs), m, modulus);
    lemma_after_expr_sound(d, x, modulus);
    let whole = SpecDAG { terminals: d.terminals.subrange(0, d.terminals.len() as int), ..d };
    assert(whole == d);
    assert(m2.tape =~= made.tape) by {
        assert forall|a: i32| #[trigger]
            m2.tape.dom().contains(a) && made.tape.dom().contains(a) by {
            assert(written_cell(m2.tape, d, d.terminals.len() as int, x, a, modulus));
        }
        assert forall|a: i32| #[trigger] m2.tape[a] == made.tape[a] by {
            assert(written_cell(m2.tape, d, d.terminals.len() as int, x, a, modulus));
        }
    }
    assert forall|i: int| 0 <= i < made.buffer.len() implies loaded(m2, made, i) by {
        assert(loaded(m, x, i));
    }
}

} // verus!
