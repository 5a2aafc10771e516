//! The gathering optimizer keeps what a program does: where the baseline
//! lowering of a program ends, the lowering with gathered shifts and adds
//! ends too, in the same state.

use vstd::arithmetic::div_mod::{
    lemma_add_mod_noop, lemma_fundamental_div_mod, lemma_mod_bound, lemma_mod_multiples_vanish,
    lemma_mod_twice, lemma_small_mod,
};
use vstd::prelude::*;
use crate::lir::{SpecLIR, SpecLVal, SpecRVal};
use crate::offset_map::{
    ascending, lemma_lookup_with_entry, lemma_rank_from, lemma_with_entry_ascending,
    lemma_with_entry_push, lookup, rank, with_entry,
};
use crate::optimizer::simple::{count_loops, simple_input, simple_node, simple_output};
use crate::optimizer::simple_add::{
    adds_lir, adds_plus, committed, count_ir_loops, gather_node, gathered, gathered_ir,
    SpecGathered, SpecSimpleAddIR,
};
use crate::parser::SpecAST;
use crate::semantics::machine::{address, cell_modulus, exec, is_zero, read, Machine};
use crate::semantics::programs::{
    exec_all, lemma_sem_concat, lemma_sem_more, lemma_sem_plain, plain_items, simple_items,
    simple_node_items, step_items, steps_items,
};
use crate::semantics::structured::{sem, sem_item, sem_loop, Item};

verus! {

/// Whether every address has a cell, and every cell holds a value of the
/// cell type.
pub open spec fn sound(m: Machine, modulus: int) -> bool {
    forall|a: i32| cell_sound(m, a, modulus)
}

/// Whether the cell at an address is there and holds a value of the cell
/// type.
pub open spec fn cell_sound(m: Machine, a: i32, modulus: int) -> bool {
    m.tape.dom().contains(a) && 0 <= m.tape[a] < modulus
}

/// What is pending for the cell at an offset.
pub open spec fn pending(adds: Seq<(i32, i32)>, offset: i32) -> int {
    match lookup(adds, offset) {
        Some(v) => v as int,
        None => 0,
    }
}

/// Whether the machine `mx` with a pending shift and pending adds stands
/// for the machine `ms`: committing what is pending would give `ms`.
pub open spec fn stands_for(
    mx: Machine,
    shift: i32,
    adds: Seq<(i32, i32)>,
    ms: Machine,
    modulus: int,
) -> bool {
    &&& ms.input == mx.input
    &&& ms.output == mx.output
    &&& ms.starved == mx.starved
    &&& ms.regs == mx.regs
    &&& ms.bufs == mx.bufs
    &&& ms.cursor == mx.cursor.wrapping_add(shift)
    &&& forall|a: i32|
        #[trigger] ms.tape[a] == (mx.tape[a] + pending(adds, a.wrapping_sub(mx.cursor))) % modulus
    &&& sound(mx, modulus)
    &&& sound(ms, modulus)
    &&& ascending(adds)
}

/// Adding and then taking away the same offset gives the address back, and
/// two offsets give the same address only if they are the same.
pub proof fn lemma_wrapping(c: i32, s: i32, k: i32, a: i32)
    ensures
        c.wrapping_add(s).wrapping_add(k) == c.wrapping_add(s.wrapping_add(k)),
        (a.wrapping_sub(c) == s) == (a == c.wrapping_add(s)),
{
}

/// A sum that wrapped in 32 bits is, as a cell value, the sum.
pub proof fn lemma_wrapped_sum(x: int, v: i32, k: i32, modulus: int)
    requires
        cell_modulus(modulus),
    ensures
        (x + v.wrapping_add(k)) % modulus == (x + v + k) % modulus,
{
    let q = 0x1_0000_0000int / modulus;
    lemma_fundamental_div_mod(0x1_0000_0000int, modulus);
    assert(0x1_0000_0000int == modulus * q);
    let w = v.wrapping_add(k) as int;
    if w == v + k {
    } else if w == v + k - 0x1_0000_0000 {
        lemma_mod_multiples_vanish(-q, x + v + k, modulus);
        assert(modulus * (-q) + (x + v + k) == x + w) by (nonlinear_arith)
            requires
                0x1_0000_0000int == modulus * q,
                w == v + k - 0x1_0000_0000,
        ;
    } else {
        assert(w == v + k + 0x1_0000_0000);
        lemma_mod_multiples_vanish(q, x + v + k, modulus);
        assert(modulus * q + (x + v + k) == x + w) by (nonlinear_arith)
            requires
                0x1_0000_0000int == modulus * q,
                w == v + k + 0x1_0000_0000,
        ;
    }
}

/// An instruction keeps a machine sound.
pub proof fn lemma_exec_sound(instr: SpecLIR, m: Machine, modulus: int)
    requires
        modulus > 0,
        sound(m, modulus),
    ensures
        sound(exec(instr, m, modulus), modulus),
{
    let after = exec(instr, m, modulus);
    assert forall|a: i32| cell_sound(after, a, modulus) by {
        assert(cell_sound(m, a, modulus));
        match instr {
            SpecLIR::Mul(d, x, y) => {
                lemma_mod_bound(read(m, x) * read(m, y), modulus);
            },
            SpecLIR::Add(d, x, y) => {
                lemma_mod_bound(read(m, x) + read(m, y), modulus);
            },
            SpecLIR::Sub(d, x, y) => {
                lemma_mod_bound(read(m, x) - read(m, y), modulus);
            },
            SpecLIR::Mov(d, x) => {
                lemma_mod_bound(read(m, x), modulus);
            },
            _ => {},
        }
    }
    assert(sound(after, modulus));
}

/// Instructions keep a machine sound.
pub proof fn lemma_exec_all_sound(lir: Seq<SpecLIR>, m: Machine, modulus: int)
    requires
        modulus > 0,
        sound(m, modulus),
    ensures
        sound(exec_all(lir, m, modulus), modulus),
    decreases lir.len(),
{
    if lir.len() > 0 {
        lemma_exec_all_sound(lir.drop_last(), m, modulus);
        lemma_exec_sound(lir.last(), exec_all(lir.drop_last(), m, modulus), modulus);
    }
}

/// A program keeps a machine sound.
pub proof fn lemma_sem_sound(items: Seq<Item>, m: Machine, modulus: int, fuel: nat)
    requires
        modulus > 0,
        sound(m, modulus),
    ensures
        sem(items, m, modulus, fuel) matches Some((m1, rest)) ==> sound(m1, modulus),
    decreases fuel, items, 2nat,
{
    if items.len() > 0 {
        lemma_sem_sound(items.drop_last(), m, modulus, fuel);
        if let Some((m1, rest)) = sem(items.drop_last(), m, modulus, fuel) {
            if rest <= fuel {
                lemma_sem_item_sound(items.last(), m1, modulus, rest);
            }
        }
    }
}

pub proof fn lemma_sem_item_sound(item: Item, m: Machine, modulus: int, fuel: nat)
    requires
        modulus > 0,
        sound(m, modulus),
    ensures
        sem_item(item, m, modulus, fuel) matches Some((m1, rest)) ==> sound(m1, modulus),
    decreases fuel, item, 1nat,
{
    match item {
        Item::Plain(instr) => {
            lemma_exec_sound(instr, m, modulus);
        },
        Item::Loop(k, body) => {
            if fuel >= 1 {
                lemma_sem_loop_sound(body, m, modulus, (fuel - 1) as nat);
            }
        },
        Item::If(k, test, body) => {
            if fuel >= 2 {
                lemma_sem_sound(body, m, modulus, (fuel - 1) as nat);
            }
        },
    }
}

pub proof fn lemma_sem_loop_sound(body: Seq<Item>, m: Machine, modulus: int, fuel: nat)
    requires
        modulus > 0,
        sound(m, modulus),
    ensures
        sem_loop(body, m, modulus, fuel) matches Some((m1, rest)) ==> sound(m1, modulus),
    decreases fuel, body, 0nat,
{
    if fuel >= 3 {
        lemma_sem_sound(body, m, modulus, (fuel - 3) as nat);
        if let Some((m1, rest)) = sem(body, m, modulus, (fuel - 3) as nat) {
            if rest <= fuel - 3 {
                lemma_sem_loop_sound(body, m1, modulus, rest);
            }
        }
    }
}

/// A program of one part means the part.
pub proof fn lemma_sem_one(item: Item, m: Machine, modulus: int, fuel: nat)
    ensures
        sem(seq![item], m, modulus, fuel) == sem_item(item, m, modulus, fuel),
{
    assert(seq![item].drop_last() =~= Seq::<Item>::empty());
    assert(seq![item].last() == item);
    assert(sem(Seq::<Item>::empty(), m, modulus, fuel) == Some((m, fuel)));
}

/// The machine after the first `j` pending adds are committed: each cell
/// has taken what was pending for it among them.
proof fn lemma_adds_applied(mx: Machine, adds: Seq<(i32, i32)>, j: int, modulus: int)
    requires
        modulus > 0,
        sound(mx, modulus),
        ascending(adds),
        0 <= j <= adds.len(),
    ensures
        ({
            let mj = exec_all(adds_lir(adds.subrange(0, j)), mx, modulus);
            &&& mj.cursor == mx.cursor
            &&& mj.input == mx.input
            &&& mj.output == mx.output
            &&& mj.starved == mx.starved
            &&& mj.regs == mx.regs
            &&& mj.bufs == mx.bufs
            &&& sound(mj, modulus)
            &&& ascending(adds.subrange(0, j))
            &&& forall|a: i32|
                #[trigger] mj.tape[a] == (mx.tape[a] + pending(
                    adds.subrange(0, j),
                    a.wrapping_sub(mx.cursor),
                )) % modulus
        }),
    decreases j,
{
    let part = adds.subrange(0, j);
    assert forall|i: int, k: int| 0 <= i < k < part.len() implies (#[trigger] part[i]).0 < (
    #[trigger] part[k]).0 by {
        assert(part[i] == adds[i] && part[k] == adds[k]);
    }
    if j == 0 {
        assert(adds_lir(part) =~= Seq::<SpecLIR>::empty());
        assert forall|a: i32|
            #[trigger] mx.tape[a] == (mx.tape[a] + pending(part, a.wrapping_sub(mx.cursor)))
                % modulus by {
            assert(cell_sound(mx, a, modulus));
            lemma_small_mod(mx.tape[a] as nat, modulus as nat);
        }
    } else {
        let before = adds.subrange(0, j - 1);
        let (o, v) = adds[j - 1];
        lemma_adds_applied(mx, adds, j - 1, modulus);
        let m0 = exec_all(adds_lir(before), mx, modulus);
        assert(part =~= before.push((o, v)));
        lemma_with_entry_push(before, o, v);
        let instr = SpecLIR::Add(SpecLVal::Tape(o), SpecRVal::Tape(o), SpecRVal::Immediate(v));
        assert(adds_lir(part).drop_last() =~= adds_lir(before));
        assert(adds_lir(part).last() == instr);
        let mj = exec_all(adds_lir(part), mx, modulus);
        assert(mj == exec(instr, m0, modulus));
        lemma_exec_sound(instr, m0, modulus);
        let at = mx.cursor.wrapping_add(o);
        assert forall|a: i32|
            #[trigger] mj.tape[a] == (mx.tape[a] + pending(part, a.wrapping_sub(mx.cursor)))
                % modulus by {
            lemma_lookup_with_entry(before, o, v, a.wrapping_sub(mx.cursor));
            lemma_wrapping(mx.cursor, o, 0, a);
            assert(m0.tape[a] == (mx.tape[a] + pending(before, a.wrapping_sub(mx.cursor)))
                % modulus);
            if a == at {
                // Nothing was pending for this cell among the entries
                // before.
                lemma_lookup_with_entry(before, o, v, o);
                assert(lookup(before, o) is None) by {
                    lemma_rank_from(before, o, 0);
                    let r = rank(before, o);
                    if r < before.len() {
                        assert(part[r] == before[r]);
                        assert(part[r].0 < part[j - 1].0);
                    }
                }
                assert(cell_sound(mx, a, modulus));
                lemma_small_mod(mx.tape[a] as nat, modulus as nat);
            }
        }
    }
}

/// Committing what is pending gives the machine that the pending state
/// stands for.
proof fn lemma_commit(mx: Machine, shift: i32, adds: Seq<(i32, i32)>, ms: Machine, modulus: int)
    requires
        modulus > 0,
        stands_for(mx, shift, adds, ms, modulus),
    ensures
        exec(
            SpecLIR::Shift(shift),
            exec_all(adds_lir(adds), mx, modulus),
            modulus,
        ) == ms,
{
    lemma_adds_applied(mx, adds, adds.len() as int, modulus);
    assert(adds.subrange(0, adds.len() as int) =~= adds);
    let done = exec(SpecLIR::Shift(shift), exec_all(adds_lir(adds), mx, modulus), modulus);
    assert(done.tape =~= ms.tape) by {
        assert forall|a: i32| done.tape.dom().contains(a) == ms.tape.dom().contains(a) by {
            assert(cell_sound(ms, a, modulus));
            assert(cell_sound(exec_all(adds_lir(adds), mx, modulus), a, modulus));
        }
        assert forall|a: i32| #[trigger] done.tape[a] == ms.tape[a] by {}
    }
}

/// The steps that one command adds to the gathered form: none for a
/// shift or an add, and else what is pending and the command.
pub open spec fn steps_of(shift: i32, adds: Seq<(i32, i32)>, node: SpecAST) -> Seq<
    SpecSimpleAddIR,
> {
    let commit = seq![SpecSimpleAddIR::Adds(adds), SpecSimpleAddIR::Shift(shift)];
    match node {
        SpecAST::Output => commit.push(SpecSimpleAddIR::Output),
        SpecAST::Input => commit.push(SpecSimpleAddIR::Input),
        SpecAST::Loop(body) => commit.push(SpecSimpleAddIR::Loop(gathered_ir(body))),
        _ => Seq::empty(),
    }
}

/// What is pending, without the steps.
pub open spec fn only_pending(shift: i32, adds: Seq<(i32, i32)>) -> SpecGathered {
    SpecGathered { ir: Seq::empty(), shift, adds }
}

proof fn lemma_gather_node(g: SpecGathered, node: SpecAST)
    ensures
        gather_node(g, node).ir == g.ir + steps_of(g.shift, g.adds, node),
        gather_node(g, node).shift == gather_node(only_pending(g.shift, g.adds), node).shift,
        gather_node(g, node).adds == gather_node(only_pending(g.shift, g.adds), node).adds,
{
    assert(gather_node(g, node).ir =~= g.ir + steps_of(g.shift, g.adds, node));
}

proof fn lemma_count_steps_concat(a: Seq<SpecSimpleAddIR>, b: Seq<SpecSimpleAddIR>)
    ensures
        count_ir_loops(a + b) == count_ir_loops(a) + count_ir_loops(b),
    decreases b.len(),
{
    if b.len() == 0 {
        assert(a + b =~= a);
    } else {
        lemma_count_steps_concat(a, b.drop_last());
        assert((a + b).drop_last() =~= a + b.drop_last());
        assert((a + b).last() == b.last());
    }
}

/// The program of two gathered forms, one after the other, is the program
/// of the one and then that of the other.
proof fn lemma_steps_items_concat(a: Seq<SpecSimpleAddIR>, b: Seq<SpecSimpleAddIR>, n: nat)
    ensures
        steps_items(a + b, n) == steps_items(a, n) + steps_items(b, n + count_ir_loops(a)),
    decreases b.len(),
{
    if b.len() == 0 {
        assert(a + b =~= a);
        assert(steps_items(a, n) + steps_items(b, n + count_ir_loops(a)) =~= steps_items(a, n));
    } else {
        lemma_steps_items_concat(a, b.drop_last(), n);
        lemma_count_steps_concat(a, b.drop_last());
        assert((a + b).drop_last() =~= a + b.drop_last());
        assert((a + b).last() == b.last());
        assert(steps_items(a + b, n) =~= steps_items(a, n) + steps_items(
            b,
            n + count_ir_loops(a),
        ));
    }
}

/// The program of a commit: the pending adds and the pending shift.
pub open spec fn commit_items(shift: i32, adds: Seq<(i32, i32)>) -> Seq<Item> {
    plain_items(adds_lir(adds)) + plain_items(seq![SpecLIR::Shift(shift)])
}

/// The program of the steps of a commit and one more step is the program
/// of the commit and then that of the step.
proof fn lemma_commit_steps(shift: i32, adds: Seq<(i32, i32)>, last: SpecSimpleAddIR, n: nat)
    requires
        !(last is Loop),
    ensures
        steps_items(
            seq![SpecSimpleAddIR::Adds(adds), SpecSimpleAddIR::Shift(shift)].push(last),
            n,
        ) == commit_items(shift, adds) + step_items(last, n),
        steps_items(seq![SpecSimpleAddIR::Adds(adds), SpecSimpleAddIR::Shift(shift)], n)
            == commit_items(shift, adds),
        count_ir_loops(seq![SpecSimpleAddIR::Adds(adds), SpecSimpleAddIR::Shift(shift)]) == 0,
{
    lemma_commit_only(shift, adds, n);
    let two = seq![SpecSimpleAddIR::Adds(adds), SpecSimpleAddIR::Shift(shift)];
    let three = two.push(last);
    assert(three.drop_last() =~= two);
    assert(three.last() == last);
}

proof fn lemma_commit_only(shift: i32, adds: Seq<(i32, i32)>, n: nat)
    ensures
        steps_items(seq![SpecSimpleAddIR::Adds(adds), SpecSimpleAddIR::Shift(shift)], n)
            == commit_items(shift, adds),
        count_ir_loops(seq![SpecSimpleAddIR::Adds(adds), SpecSimpleAddIR::Shift(shift)]) == 0,
{
    let one = seq![SpecSimpleAddIR::Adds(adds)];
    let two = seq![SpecSimpleAddIR::Adds(adds), SpecSimpleAddIR::Shift(shift)];
    assert(one.drop_last() =~= Seq::<SpecSimpleAddIR>::empty());
    assert(one.last() == SpecSimpleAddIR::Adds(adds));
    assert(two.drop_last() =~= one);
    assert(two.last() == SpecSimpleAddIR::Shift(shift));
    assert(count_ir_loops(Seq::<SpecSimpleAddIR>::empty()) == 0);
    assert(count_ir_loops(one) == 0);
    assert(steps_items(Seq::<SpecSimpleAddIR>::empty(), n) =~= Seq::<Item>::empty());
    assert(crate::optimizer::simple_add::lower_step(SpecSimpleAddIR::Adds(adds), n) == adds_lir(
        adds,
    ));
    assert(step_items(SpecSimpleAddIR::Adds(adds), n) == plain_items(adds_lir(adds)));
    assert(steps_items(one, n) == steps_items(one.drop_last(), n) + step_items(
        one.last(),
        n + count_ir_loops(one.drop_last()),
    ));
    assert(steps_items(one, n) =~= plain_items(adds_lir(adds)));
    assert(crate::optimizer::simple_add::lower_step(SpecSimpleAddIR::Shift(shift), n) == seq![
        SpecLIR::Shift(shift),
    ]);
    assert(steps_items(two, n) == steps_items(two.drop_last(), n) + step_items(
        two.last(),
        n + count_ir_loops(two.drop_last()),
    ));
    assert(step_items(SpecSimpleAddIR::Shift(shift), n) == plain_items(
        seq![SpecLIR::Shift(shift)],
    ));
    assert(steps_items(two, n) =~= commit_items(shift, adds));
}

proof fn lemma_commit_loop_steps(shift: i32, adds: Seq<(i32, i32)>, body: Seq<SpecSimpleAddIR>, n: nat)
    ensures
        steps_items(
            seq![SpecSimpleAddIR::Adds(adds), SpecSimpleAddIR::Shift(shift)].push(
                SpecSimpleAddIR::Loop(body),
            ),
            n,
        ) == commit_items(shift, adds) + seq![Item::Loop(n + 1, steps_items(body, n + 1))],
{
    lemma_commit_only(shift, adds, n);
    let two = seq![SpecSimpleAddIR::Adds(adds), SpecSimpleAddIR::Shift(shift)];
    let three = two.push(SpecSimpleAddIR::Loop(body));
    assert(three.drop_last() =~= two);
    assert(three.last() == SpecSimpleAddIR::Loop(body));
    assert(step_items(SpecSimpleAddIR::Loop(body), n) == seq![
        Item::Loop(n + 1, steps_items(body, n + 1)),
    ]);
    assert(steps_items(three, n) == steps_items(three.drop_last(), n) + step_items(
        three.last(),
        n + count_ir_loops(three.drop_last()),
    ));
}

/// A commit takes a step for each pending add and one for the shift, and
/// gives the machine that the pending state stands for.
proof fn lemma_sem_commit(
    mx: Machine,
    shift: i32,
    adds: Seq<(i32, i32)>,
    ms: Machine,
    modulus: int,
    more: nat,
)
    requires
        modulus > 0,
        stands_for(mx, shift, adds, ms, modulus),
    ensures
        sem(commit_items(shift, adds), mx, modulus, adds.len() + 1 + more) == Some((ms, more)),
{
    let fuel = adds.len() + 1 + more;
    let first = plain_items(adds_lir(adds));
    let second = plain_items(seq![SpecLIR::Shift(shift)]);
    lemma_sem_concat(first, second, mx, modulus, fuel);
    lemma_sem_plain(adds_lir(adds), mx, modulus, fuel);
    let m1 = exec_all(adds_lir(adds), mx, modulus);
    lemma_sem_plain(seq![SpecLIR::Shift(shift)], m1, modulus, 1 + more);
    let one = seq![SpecLIR::Shift(shift)];
    assert(one.drop_last() =~= Seq::<SpecLIR>::empty());
    assert(exec_all(one.drop_last(), m1, modulus) == m1);
    assert(exec_all(one, m1, modulus) == exec(SpecLIR::Shift(shift), m1, modulus));
    lemma_commit(mx, shift, adds, ms, modulus);
    assert((fuel - adds.len()) as nat == 1 + more);
}

/// A sound machine with nothing pending stands for itself.
proof fn lemma_stands_for_itself(m: Machine, modulus: int)
    requires
        modulus > 0,
        sound(m, modulus),
    ensures
        stands_for(m, 0, Seq::empty(), m, modulus),
{
    assert forall|a: i32|
        #[trigger] m.tape[a] == (m.tape[a] + pending(
            Seq::<(i32, i32)>::empty(),
            a.wrapping_sub(m.cursor),
        )) % modulus by {
        assert(cell_sound(m, a, modulus));
        lemma_small_mod(m.tape[a] as nat, modulus as nat);
    }
}

/// The gathering optimizer keeps what a sequence of commands does: where
/// the baseline program of the sequence ends, the program of the gathered
/// form ends in the same machine, with no step left of the steps that the
/// lemma gives.
pub proof fn lemma_block_sim(
    ast: Seq<SpecAST>,
    n: nat,
    nx: nat,
    m: Machine,
    modulus: int,
    fuel: nat,
) -> (fx: nat)
    requires
        cell_modulus(modulus),
        sound(m, modulus),
        sem(simple_items(ast, n), m, modulus, fuel) is Some,
    ensures
        sem(steps_items(gathered_ir(ast), nx), m, modulus, fx) == Some(
            (sem(simple_items(ast, n), m, modulus, fuel)->Some_0.0, 0nat),
        ),
    decreases ast, 2nat, 0nat,
{
    let (fp, mx) = lemma_prefix_sim(ast, n, nx, m, modulus, fuel);
    let g = gathered(ast);
    let ms = sem(simple_items(ast, n), m, modulus, fuel)->Some_0.0;
    let commit = seq![SpecSimpleAddIR::Adds(g.adds), SpecSimpleAddIR::Shift(g.shift)];
    assert(gathered_ir(ast) =~= g.ir + commit);
    lemma_steps_items_concat(g.ir, commit, nx);
    lemma_commit_only(g.shift, g.adds, nx + count_ir_loops(g.ir));
    let first = steps_items(g.ir, nx);
    let second = commit_items(g.shift, g.adds);
    let more = g.adds.len() + 1;
    lemma_sem_more(first, m, modulus, fp, more);
    lemma_sem_concat(first, second, m, modulus, fp + more);
    lemma_sem_commit(mx, g.shift, g.adds, ms, modulus, 0);
    fp + more
}

/// Within a sequence of commands: where the baseline program of the
/// commands so far ends, the program of the steps so far ends in a machine
/// that, with what is pending, stands for the machine of the baseline.
pub proof fn lemma_prefix_sim(
    ast: Seq<SpecAST>,
    n: nat,
    nx: nat,
    m: Machine,
    modulus: int,
    fuel: nat,
) -> (r: (nat, Machine))
    requires
        cell_modulus(modulus),
        sound(m, modulus),
        sem(simple_items(ast, n), m, modulus, fuel) is Some,
    ensures
        sem(steps_items(gathered(ast).ir, nx), m, modulus, r.0) == Some((r.1, 0nat)),
        stands_for(
            r.1,
            gathered(ast).shift,
            gathered(ast).adds,
            sem(simple_items(ast, n), m, modulus, fuel)->Some_0.0,
            modulus,
        ),
    decreases ast, 1nat, 0nat,
{
    if ast.len() == 0 {
        lemma_stands_for_itself(m, modulus);
        assert(steps_items(gathered(ast).ir, nx) =~= Seq::<Item>::empty());
        (0, m)
    } else {
        let before = ast.drop_last();
        let node = ast.last();
        let head = simple_items(before, n);
        let tail = simple_node_items(node, n + count_loops(before));
        lemma_sem_concat(head, tail, m, modulus, fuel);
        let (ms1, r1) = sem(head, m, modulus, fuel)->Some_0;
        let (f1, mx1) = lemma_prefix_sim(before, n, nx, m, modulus, fuel);
        let g1 = gathered(before);
        let (f2, mx2) = lemma_node_sim(
            node,
            n + count_loops(before),
            nx + count_ir_loops(g1.ir),
            mx1,
            g1.shift,
            g1.adds,
            ms1,
            modulus,
            r1,
        );
        lemma_gather_node(g1, node);
        let steps = steps_of(g1.shift, g1.adds, node);
        lemma_steps_items_concat(g1.ir, steps, nx);
        let first = steps_items(g1.ir, nx);
        let second = steps_items(steps, nx + count_ir_loops(g1.ir));
        lemma_sem_more(first, m, modulus, f1, f2);
        lemma_sem_concat(first, second, m, modulus, f1 + f2);
        (f1 + f2, mx2)
    }
}

/// One command: where its baseline program ends, the program of the steps
/// that it adds ends in a machine that, with what is pending after the
/// command, stands for the machine of the baseline.
pub proof fn lemma_node_sim(
    node: SpecAST,
    n: nat,
    nx: nat,
    mx: Machine,
    shift: i32,
    adds: Seq<(i32, i32)>,
    ms: Machine,
    modulus: int,
    fuel: nat,
) -> (r: (nat, Machine))
    requires
        cell_modulus(modulus),
        stands_for(mx, shift, adds, ms, modulus),
        sem(simple_node_items(node, n), ms, modulus, fuel) is Some,
    ensures
        sem(steps_items(steps_of(shift, adds, node), nx), mx, modulus, r.0) == Some((r.1, 0nat)),
        stands_for(
            r.1,
            gather_node(only_pending(shift, adds), node).shift,
            gather_node(only_pending(shift, adds), node).adds,
            sem(simple_node_items(node, n), ms, modulus, fuel)->Some_0.0,
            modulus,
        ),
    decreases node, 0nat, 0nat,
{
    let after = sem(simple_node_items(node, n), ms, modulus, fuel)->Some_0.0;
    match node {
        SpecAST::Loop(body) => {
            let item = Item::Loop(n + 1, simple_items(body, n + 1));
            lemma_sem_one(item, ms, modulus, fuel);
            let fl = lemma_loop_sim(body, n + 1, nx + 1, ms, modulus, (fuel - 1) as nat);
            lemma_sem_loop_sound(simple_items(body, n + 1), ms, modulus, (fuel - 1) as nat);
            lemma_commit_loop_steps(shift, adds, gathered_ir(body), nx);
            let looped = Item::Loop(nx + 1, steps_items(gathered_ir(body), nx + 1));
            lemma_sem_one(looped, ms, modulus, 1 + fl);
            let more = 1 + fl;
            lemma_sem_commit(mx, shift, adds, ms, modulus, more);
            lemma_sem_concat(
                commit_items(shift, adds),
                seq![looped],
                mx,
                modulus,
                adds.len() + 1 + more,
            );
            lemma_stands_for_itself(after, modulus);
            (adds.len() + 1 + more, after)
        },
        SpecAST::Shift(k) => {
            lemma_sem_plain(simple_node(node, n), ms, modulus, fuel);
            lemma_shift_stands(mx, shift, adds, ms, modulus, k);
            assert(steps_items(steps_of(shift, adds, node), nx) =~= Seq::<Item>::empty());
            (0, mx)
        },
        SpecAST::Add(k) => {
            lemma_sem_plain(simple_node(node, n), ms, modulus, fuel);
            lemma_add_stands(mx, shift, adds, ms, modulus, k);
            assert(steps_items(steps_of(shift, adds, node), nx) =~= Seq::<Item>::empty());
            (0, mx)
        },
        SpecAST::Output => {
            let lir = simple_output();
            lemma_sem_plain(lir, ms, modulus, fuel);
            lemma_commit_steps(shift, adds, SpecSimpleAddIR::Output, nx);
            lemma_sem_commit(mx, shift, adds, ms, modulus, lir.len());
            lemma_sem_concat(
                commit_items(shift, adds),
                plain_items(lir),
                mx,
                modulus,
                adds.len() + 1 + lir.len(),
            );
            lemma_sem_plain(lir, ms, modulus, lir.len());
            lemma_exec_all_sound(lir, ms, modulus);
            lemma_stands_for_itself(after, modulus);
            (adds.len() + 1 + lir.len(), after)
        },
        SpecAST::Input => {
            let lir = simple_input();
            lemma_sem_plain(lir, ms, modulus, fuel);
            lemma_commit_steps(shift, adds, SpecSimpleAddIR::Input, nx);
            lemma_sem_commit(mx, shift, adds, ms, modulus, lir.len());
            lemma_sem_concat(
                commit_items(shift, adds),
                plain_items(lir),
                mx,
                modulus,
                adds.len() + 1 + lir.len(),
            );
            lemma_sem_plain(lir, ms, modulus, lir.len());
            lemma_exec_all_sound(lir, ms, modulus);
            lemma_stands_for_itself(after, modulus);
            (adds.len() + 1 + lir.len(), after)
        },
    }
}

/// A loop: where the baseline loop ends, the loop over the gathered body
/// ends in the same machine.
pub proof fn lemma_loop_sim(
    body: Seq<SpecAST>,
    n: nat,
    nx: nat,
    m: Machine,
    modulus: int,
    fuel: nat,
) -> (fx: nat)
    requires
        cell_modulus(modulus),
        sound(m, modulus),
        sem_loop(simple_items(body, n), m, modulus, fuel) is Some,
    ensures
        sem_loop(steps_items(gathered_ir(body), nx), m, modulus, fx) == Some(
            (sem_loop(simple_items(body, n), m, modulus, fuel)->Some_0.0, 0nat),
        ),
    decreases body, 3nat, fuel,
{
    let inner = simple_items(body, n);
    let outer = steps_items(gathered_ir(body), nx);
    if is_zero(read(m, SpecRVal::Tape(0)), modulus) {
        2
    } else {
        let (m1, r1) = sem(inner, m, modulus, (fuel - 3) as nat)->Some_0;
        let fb = lemma_block_sim(body, n, nx, m, modulus, (fuel - 3) as nat);
        lemma_sem_sound(inner, m, modulus, (fuel - 3) as nat);
        let fl = lemma_loop_sim(body, n, nx, m1, modulus, r1);
        lemma_sem_more(outer, m, modulus, fb, fl);
        assert((3 + fb + fl - 3) as nat == fb + fl);
        3 + fb + fl
    }
}

/// After a shift the machine with the shift pending stands for the machine
/// that has moved.
proof fn lemma_shift_stands(
    mx: Machine,
    shift: i32,
    adds: Seq<(i32, i32)>,
    ms: Machine,
    modulus: int,
    k: i32,
)
    requires
        cell_modulus(modulus),
        stands_for(mx, shift, adds, ms, modulus),
    ensures
        stands_for(
            mx,
            shift.wrapping_add(k),
            adds,
            exec_all(seq![SpecLIR::Shift(k)], ms, modulus),
            modulus,
        ),
{
    let one = seq![SpecLIR::Shift(k)];
    assert(one.drop_last() =~= Seq::<SpecLIR>::empty());
    assert(exec_all(one.drop_last(), ms, modulus) == ms);
    let after = exec_all(one, ms, modulus);
    assert(after == exec(SpecLIR::Shift(k), ms, modulus));
    lemma_wrapping(mx.cursor, shift, k, 0);
    lemma_exec_sound(SpecLIR::Shift(k), ms, modulus);
    assert forall|a: i32|
        #[trigger] after.tape[a] == (mx.tape[a] + pending(adds, a.wrapping_sub(mx.cursor)))
            % modulus by {
        assert(ms.tape[a] == (mx.tape[a] + pending(adds, a.wrapping_sub(mx.cursor))) % modulus);
    }
}

/// After an add the machine with the add pending stands for the machine
/// whose current cell has taken the add.
proof fn lemma_add_stands(
    mx: Machine,
    shift: i32,
    adds: Seq<(i32, i32)>,
    ms: Machine,
    modulus: int,
    k: i32,
)
    requires
        cell_modulus(modulus),
        stands_for(mx, shift, adds, ms, modulus),
    ensures
        stands_for(
            mx,
            shift,
            adds_plus(adds, shift, k),
            exec_all(
                seq![SpecLIR::Add(SpecLVal::Tape(0), SpecRVal::Tape(0), SpecRVal::Immediate(k))],
                ms,
                modulus,
            ),
            modulus,
        ),
{
    let instr = SpecLIR::Add(SpecLVal::Tape(0), SpecRVal::Tape(0), SpecRVal::Immediate(k));
    let one = seq![instr];
    assert(one.drop_last() =~= Seq::<SpecLIR>::empty());
    assert(exec_all(one.drop_last(), ms, modulus) == ms);
    let after = exec_all(one, ms, modulus);
    assert(after == exec(instr, ms, modulus));
    lemma_exec_sound(instr, ms, modulus);
    let at = ms.cursor;
    assert(address(ms, 0) == at);
    let old = pending(adds, shift);
    let sum = match lookup(adds, shift) {
        Some(v) => v.wrapping_add(k),
        None => k,
    };
    let next = adds_plus(adds, shift, k);
    assert(next == with_entry(adds, shift, sum));
    lemma_with_entry_ascending(adds, shift, sum);
    assert forall|a: i32|
        #[trigger] after.tape[a] == (mx.tape[a] + pending(next, a.wrapping_sub(mx.cursor)))
            % modulus by {
        let o = a.wrapping_sub(mx.cursor);
        lemma_lookup_with_entry(adds, shift, sum, o);
        lemma_wrapping(mx.cursor, shift, 0, a);
        assert(ms.tape[a] == (mx.tape[a] + pending(adds, o)) % modulus);
        if a == at {
            let x = mx.tape[a];
            assert(after.tape[a] == (ms.tape[a] + k) % modulus);
            lemma_add_mod_noop(x + old, k as int, modulus);
            lemma_mod_bound(x + old, modulus);
            lemma_small_mod(((x + old) % modulus) as nat, modulus as nat);
            assert((ms.tape[a] + k) % modulus == (x + old + k) % modulus) by {
                lemma_add_mod_noop(x + old, k as int, modulus);
                lemma_mod_twice(x + old, modulus);
                lemma_add_mod_noop((x + old) % modulus, k as int, modulus);
            }
            match lookup(adds, shift) {
                Some(v) => {
                    lemma_wrapped_sum(x, v, k, modulus);
                },
                None => {},
            }
        }
    }
}

} // verus!
