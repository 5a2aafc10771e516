//! The instruction list of an intermediate form does what the steps mean.

use vstd::arithmetic::div_mod::lemma_mod_twice;
use vstd::prelude::*;
use crate::lir::{inputbuf, strbuf, SpecLIR, SpecRVal};
use crate::optimizer::laws::lemma_lowered_well_formed;
use crate::optimizer::new::compile::{
    block_out_size, expr_lir, flush_lir, ir_pos, ir_pos_after, ir_regs, lemma_ir_counts_bounded,
    lower_block, lower_ir, lower_step, lowered, no_numbers, numbers_after, shift_lir, step_regs,
    SpecNumbers,
};
use crate::optimizer::new::ir::{ir_weight, step_weight, SpecIR};
use crate::semantics::graph::extending::moved;
use crate::semantics::gathering::{cell_sound, lemma_exec_all_sound, lemma_sem_one};
use crate::semantics::laws::lemma_program_ends;
use crate::semantics::peephole::lowering::{holds, lemma_buffer_names, loaded};
use crate::semantics::machine::{ends_within, exec, initial, output_after, read, Machine};
use crate::semantics::programs::{lemma_exec_all_concat, lemma_exec_one, 
    exec_all, lemma_flat_concat, lemma_flat_one, lemma_flat_plain, lemma_sem_concat,
    lemma_sem_more, lemma_sem_plain, plain_items,
};
use crate::semantics::graph::registers::lemma_expr_sim;
use crate::semantics::graph::safety::{ir_safe, step_safe};
use crate::semantics::graph::steps::{flushed, isem, isem_loop, isem_step, operand};
use crate::semantics::structured::{flat, items_ok, sem, sem_loop, Item};
use crate::semantics::peephole::tokens::{cell, cell_is_zero, start, TokenState};
use crate::wellformed::target_of;

verus! {

/// The structured program of a sequence of steps, with the numbers as they
/// stand before it.
pub open spec fn ir_items(ir: Seq<SpecIR>, c: SpecNumbers) -> Seq<Item>
    decreases ir, 1nat,
{
    if ir.len() == 0 {
        Seq::empty()
    } else {
        ir_items(ir.drop_last(), c) + step_items(
            ir.last(),
            numbers_after(c, ir.drop_last()),
            ir_pos(ir.drop_last()),
        )
    }
}

/// The structured program of one step.
pub open spec fn step_items(step: SpecIR, c: SpecNumbers, pos: nat) -> Seq<Item>
    decreases step, 0nat,
{
    match step {
        SpecIR::Loop(offset, body, end_shift) => plain_items(flush_lir(pos) + shift_lir(offset))
            + seq![
            Item::Loop(
                c.loops + 1,
                block_items(body, SpecNumbers { loops: c.loops + 1, ..c }) + plain_items(
                    shift_lir(end_shift),
                ),
            ),
        ],
        _ => plain_items(lower_step(step, c, pos)),
    }
}

/// The structured program of a block: its steps, and the writing of the
/// output that is gathered at its end.
pub open spec fn block_items(ir: Seq<SpecIR>, c: SpecNumbers) -> Seq<Item>
    decreases ir, 2nat,
{
    ir_items(ir, c) + plain_items(flush_lir(ir_pos(ir)))
}

/// No instruction of the instructions of a graph is a jump.
proof fn lemma_expr_plain(d: crate::optimizer::new::dag::SpecDAG, regs: nat)
    ensures
        forall|i: int|
            0 <= i < expr_lir(d, regs).len() ==> target_of(#[trigger] expr_lir(d, regs)[i])
                is None,
{
    lemma_nodes_plain(d.nodes, d.nodes.len() as int, regs);
}

proof fn lemma_nodes_plain(nodes: Seq<crate::optimizer::new::dag::Value>, n: int, regs: nat)
    ensures
        forall|i: int|
            0 <= i < crate::optimizer::new::compile::nodes_lir(nodes, n, regs).len() ==> target_of(
                #[trigger] crate::optimizer::new::compile::nodes_lir(nodes, n, regs)[i],
            ) is None,
    decreases n,
{
    if n > 0 {
        lemma_nodes_plain(nodes, n - 1, regs);
    }
}

/// The instruction list of a sequence of steps is the instruction list of
/// its structured program, in which no plain part is a jump.
pub proof fn lemma_ir_items(ir: Seq<SpecIR>, c: SpecNumbers)
    ensures
        flat(ir_items(ir, c)) == lower_ir(ir, c),
        items_ok(ir_items(ir, c)),
    decreases ir, 1nat,
{
    if ir.len() == 0 {
        assert(flat(ir_items(ir, c)) =~= lower_ir(ir, c));
    } else {
        let at = numbers_after(c, ir.drop_last());
        let pos = ir_pos(ir.drop_last());
        lemma_ir_items(ir.drop_last(), c);
        lemma_step_items(ir.last(), at, pos);
        lemma_flat_concat(ir_items(ir.drop_last(), c), step_items(ir.last(), at, pos));
    }
}

pub proof fn lemma_step_items(step: SpecIR, c: SpecNumbers, pos: nat)
    ensures
        flat(step_items(step, c, pos)) == lower_step(step, c, pos),
        items_ok(step_items(step, c, pos)),
    decreases step, 0nat,
{
    match step {
        SpecIR::Loop(offset, body, end_shift) => {
            let inner = SpecNumbers { loops: c.loops + 1, ..c };
            let head = flush_lir(pos) + shift_lir(offset);
            let tail = shift_lir(end_shift);
            let inside = block_items(body, inner) + plain_items(tail);
            let item = Item::Loop(c.loops + 1, inside);
            lemma_block_items(body, inner);
            lemma_flat_plain(head);
            lemma_flat_plain(tail);
            lemma_flat_concat(block_items(body, inner), plain_items(tail));
            lemma_flat_one(item);
            lemma_flat_concat(plain_items(head), seq![item]);
            assert(flat(step_items(step, c, pos)) =~= lower_step(step, c, pos));
        },
        SpecIR::Expr(d) => {
            lemma_expr_plain(d, c.regs);
            lemma_flat_plain(lower_step(step, c, pos));
        },
        _ => {
            lemma_flat_plain(lower_step(step, c, pos));
        },
    }
}

pub proof fn lemma_block_items(ir: Seq<SpecIR>, c: SpecNumbers)
    ensures
        flat(block_items(ir, c)) == lower_block(ir, c),
        items_ok(block_items(ir, c)),
    decreases ir, 2nat,
{
    lemma_ir_items(ir, c);
    lemma_flat_plain(flush_lir(ir_pos(ir)));
    lemma_flat_concat(ir_items(ir, c), plain_items(flush_lir(ir_pos(ir))));
}

/// The instruction that writes the output buffer leads a machine that
/// holds a state to one that holds the state with the buffer written.
pub proof fn lemma_flush_sim(m: Machine, x: TokenState, modulus: int)
    requires
        modulus > 0,
        holds(m, x, modulus),
    ensures
        holds(exec_all(flush_lir(x.buffer.len()), m, modulus), flushed(x), modulus),
{
    let pos = x.buffer.len();
    let lir = flush_lir(pos);
    let after = exec_all(lir, m, modulus);
    let made = flushed(x);
    lemma_exec_all_sound(lir, m, modulus);
    if pos != 0 {
        lemma_exec_one(lir[0], m, modulus);
        assert(lir =~= seq![lir[0]]);
        let written = Seq::new(pos, |j: int| (m.bufs[(strbuf(), 0 + j)] % 256) as u8);
        assert(written =~= x.buffer) by {
            assert forall|j: int| 0 <= j < pos implies written[j] == x.buffer[j] by {
                assert(loaded(m, x, j));
            }
        }
    } else {
        assert(lir =~= Seq::<SpecLIR>::empty());
        assert(made.output =~= x.output);
    }
}

/// The instruction that moves the cursor leads a machine that holds a
/// state to one that holds the state with the cursor moved.
pub proof fn lemma_shift_sim(m: Machine, x: TokenState, shift: i32, modulus: int)
    requires
        modulus > 0,
        holds(m, x, modulus),
    ensures
        holds(exec_all(shift_lir(shift), m, modulus), moved(x, shift), modulus),
{
    let lir = shift_lir(shift);
    let after = exec_all(lir, m, modulus);
    let made = moved(x, shift);
    if shift != 0 {
        lemma_exec_one(lir[0], m, modulus);
        assert(lir =~= seq![lir[0]]);
    } else {
        assert(lir =~= Seq::<SpecLIR>::empty());
        assert(x.cursor.wrapping_add(0) == x.cursor);
    }
    assert forall|a: i32| cell_sound(after, a, modulus) by {
        assert(cell_sound(m, a, modulus));
    }
    assert forall|i: int| 0 <= i < made.buffer.len() implies loaded(after, made, i) by {
        assert(loaded(m, x, i));
    }
}

/// One step that is no loop: its instructions lead a machine that holds a
/// state to one that holds the state after the step.
pub proof fn lemma_plain_step(
    step: SpecIR,
    c: SpecNumbers,
    m: Machine,
    x: TokenState,
    modulus: int,
    fuel: nat,
)
    requires
        modulus > 0,
        !(step is Loop),
        step_safe(step),
        c.regs + step_regs(step) <= u32::MAX,
        holds(m, x, modulus),
        x.buffer.len() + 1 <= usize::MAX,
    ensures
        isem_step(step, x, modulus, fuel) is Some,
        holds(
            exec_all(lower_step(step, c, x.buffer.len()), m, modulus),
            isem_step(step, x, modulus, fuel)->Some_0,
            modulus,
        ),
        isem_step(step, x, modulus, fuel)->Some_0.buffer.len() == ir_pos_after(
            x.buffer.len(),
            step,
        ),
{
    let pos = x.buffer.len();
    let lir = lower_step(step, c, pos);
    let after = exec_all(lir, m, modulus);
    let made = isem_step(step, x, modulus, fuel)->Some_0;
    lemma_exec_all_sound(lir, m, modulus);
    lemma_buffer_names();
    match step {
        SpecIR::Output(v) => {
            lemma_exec_one(lir[0], m, modulus);
            assert(lir =~= seq![lir[0]]);
            lemma_mod_twice(operand(v, x), 256);
            assert(read(m, v) == operand(v, x));
            assert forall|i: int| 0 <= i < made.buffer.len() implies loaded(after, made, i) by {
                if i < pos {
                    assert(loaded(m, x, i));
                }
            }
        },
        SpecIR::Input(offset) => {
            assert(lir =~= seq![lir[0], lir[1]]);
            lemma_exec_all_concat(seq![lir[0]], seq![lir[1]], m, modulus);
            assert(seq![lir[0]] + seq![lir[1]] =~= lir);
            lemma_exec_one(lir[0], m, modulus);
            let read_in = exec(lir[0], m, modulus);
            lemma_exec_one(lir[1], read_in, modulus);
            assert(read_in.input =~= made.input);
            assert(after.tape =~= made.tape);
            assert(after.bufs[(inputbuf(), 0int)] == made.inbuf);
            assert forall|i: int| 0 <= i < made.buffer.len() implies loaded(after, made, i) by {
                assert(loaded(m, x, i));
            }
        },
        SpecIR::Expr(d) => {
            lemma_expr_sim(d, c.regs, m, x, modulus);
        },
        _ => {},
    }
}

/// A program that ends with no step left, and then instructions that are
/// no jumps.
pub proof fn lemma_sem_then_plain(
    items: Seq<Item>,
    lir: Seq<SpecLIR>,
    m: Machine,
    modulus: int,
    fuel: nat,
)
    requires
        sem(items, m, modulus, fuel) is Some,
        sem(items, m, modulus, fuel)->Some_0.1 == 0,
    ensures
        sem(items + plain_items(lir), m, modulus, fuel + lir.len()) == Some(
            (exec_all(lir, sem(items, m, modulus, fuel)->Some_0.0, modulus), 0nat),
        ),
{
    let m1 = sem(items, m, modulus, fuel)->Some_0.0;
    lemma_sem_more(items, m, modulus, fuel, lir.len());
    lemma_sem_concat(items, plain_items(lir), m, modulus, fuel + lir.len());
    lemma_sem_plain(lir, m1, modulus, lir.len());
}

/// The structured program of a sequence of steps does what the steps
/// mean: where the steps end, the program ends, within the steps that the
/// lemma gives, in a machine that holds the state after the steps.
pub proof fn lemma_ir_sim(
    ir: Seq<SpecIR>,
    c: SpecNumbers,
    m: Machine,
    x: TokenState,
    modulus: int,
    fuel: nat,
) -> (fx: nat)
    requires
        modulus > 0,
        ir_safe(ir),
        ir_weight(ir) < u32::MAX,
        c.regs + ir_regs(ir) <= u32::MAX,
        holds(m, x, modulus),
        x.buffer.len() == 0,
        isem(ir, x, modulus, fuel) is Some,
    ensures
        sem(ir_items(ir, c), m, modulus, fx) is Some,
        sem(ir_items(ir, c), m, modulus, fx)->Some_0.1 == 0,
        holds(
            sem(ir_items(ir, c), m, modulus, fx)->Some_0.0,
            isem(ir, x, modulus, fuel)->Some_0,
            modulus,
        ),
        isem(ir, x, modulus, fuel)->Some_0.buffer.len() == ir_pos(ir),
    decreases ir, 1nat, 0nat,
{
    if ir.len() == 0 {
        0
    } else {
        let before = ir.drop_last();
        let step = ir.last();
        let at = numbers_after(c, before);
        let pos = ir_pos(before);
        lemma_ir_counts_bounded(before);
        let f1 = lemma_ir_sim(before, c, m, x, modulus, fuel);
        let x1 = isem(before, x, modulus, fuel)->Some_0;
        let m1 = sem(ir_items(before, c), m, modulus, f1)->Some_0.0;
        let f2 = lemma_step_sim(step, at, m1, x1, modulus, fuel);
        let first = ir_items(before, c);
        let second = step_items(step, at, pos);
        lemma_sem_more(first, m, modulus, f1, f2);
        lemma_sem_concat(first, second, m, modulus, f1 + f2);
        f1 + f2
    }
}

/// One step: its structured program does what the step means.
pub proof fn lemma_step_sim(
    step: SpecIR,
    c: SpecNumbers,
    m: Machine,
    x: TokenState,
    modulus: int,
    fuel: nat,
) -> (fx: nat)
    requires
        modulus > 0,
        step_safe(step),
        step_weight(step) < u32::MAX,
        c.regs + step_regs(step) <= u32::MAX,
        holds(m, x, modulus),
        x.buffer.len() + 1 <= usize::MAX,
        isem_step(step, x, modulus, fuel) is Some,
    ensures
        sem(step_items(step, c, x.buffer.len()), m, modulus, fx) is Some,
        sem(step_items(step, c, x.buffer.len()), m, modulus, fx)->Some_0.1 == 0,
        holds(
            sem(step_items(step, c, x.buffer.len()), m, modulus, fx)->Some_0.0,
            isem_step(step, x, modulus, fuel)->Some_0,
            modulus,
        ),
        isem_step(step, x, modulus, fuel)->Some_0.buffer.len() == ir_pos_after(
            x.buffer.len(),
            step,
        ),
    decreases step, 0nat, 0nat,
{
    let pos = x.buffer.len();
    match step {
        SpecIR::Loop(offset, body, end_shift) => {
            let inner = SpecNumbers { loops: c.loops + 1, ..c };
            let head = flush_lir(pos) + shift_lir(offset);
            let inside = block_items(body, inner) + plain_items(shift_lir(end_shift));
            let item = Item::Loop(c.loops + 1, inside);
            lemma_flush_sim(m, x, modulus);
            let m1 = exec_all(flush_lir(pos), m, modulus);
            lemma_shift_sim(m1, flushed(x), offset, modulus);
            let m2 = exec_all(shift_lir(offset), m1, modulus);
            lemma_exec_all_concat(flush_lir(pos), shift_lir(offset), m, modulus);
            let z = moved(flushed(x), offset);
            let fl = lemma_iloop_sim(body, end_shift, inner, m2, z, modulus, fuel);
            lemma_sem_plain(head, m, modulus, head.len() + 1 + fl);
            lemma_sem_one(item, m2, modulus, 1 + fl);
            lemma_sem_concat(plain_items(head), seq![item], m, modulus, head.len() + 1 + fl);
            assert((head.len() + 1 + fl - head.len()) as nat == 1 + fl);
            head.len() + 1 + fl
        },
        _ => {
            let lir = lower_step(step, c, pos);
            lemma_plain_step(step, c, m, x, modulus, fuel);
            lemma_sem_plain(lir, m, modulus, lir.len());
            lir.len()
        },
    }
}

/// A loop: the loop over the structured program of the body does what the
/// loop over the steps means.
pub proof fn lemma_iloop_sim(
    body: Seq<SpecIR>,
    end_shift: i32,
    c: SpecNumbers,
    m: Machine,
    x: TokenState,
    modulus: int,
    fuel: nat,
) -> (fx: nat)
    requires
        modulus > 0,
        ir_safe(body),
        ir_weight(body) < u32::MAX,
        c.regs + ir_regs(body) <= u32::MAX,
        holds(m, x, modulus),
        x.buffer.len() == 0,
        isem_loop(body, end_shift, x, modulus, fuel) is Some,
    ensures
        sem_loop(
            block_items(body, c) + plain_items(shift_lir(end_shift)),
            m,
            modulus,
            fx,
        ) is Some,
        sem_loop(
            block_items(body, c) + plain_items(shift_lir(end_shift)),
            m,
            modulus,
            fx,
        )->Some_0.1 == 0,
        holds(
            sem_loop(
                block_items(body, c) + plain_items(shift_lir(end_shift)),
                m,
                modulus,
                fx,
            )->Some_0.0,
            isem_loop(body, end_shift, x, modulus, fuel)->Some_0,
            modulus,
        ),
        isem_loop(body, end_shift, x, modulus, fuel)->Some_0.buffer.len() == 0,
    decreases body, 2nat, fuel,
{
    let inside = block_items(body, c) + plain_items(shift_lir(end_shift));
    assert(read(m, SpecRVal::Tape(0)) == cell(x, 0));
    if cell_is_zero(x, 0, modulus) {
        2
    } else {
        let rest = (fuel - 1) as nat;
        let x1 = isem(body, x, modulus, rest)->Some_0;
        let fb = lemma_ir_sim(body, c, m, x, modulus, rest);
        let m1 = sem(ir_items(body, c), m, modulus, fb)->Some_0.0;
        let flush = flush_lir(ir_pos(body));
        let shift = shift_lir(end_shift);
        lemma_flush_sim(m1, x1, modulus);
        let m2 = exec_all(flush, m1, modulus);
        lemma_sem_then_plain(ir_items(body, c), flush, m, modulus, fb);
        lemma_shift_sim(m2, flushed(x1), end_shift, modulus);
        let m3 = exec_all(shift, m2, modulus);
        lemma_sem_then_plain(block_items(body, c), shift, m, modulus, fb + flush.len());
        let f1 = fb + flush.len() + shift.len();
        let x3 = moved(flushed(x1), end_shift);
        let fl = lemma_iloop_sim(body, end_shift, c, m3, x3, modulus, rest);
        lemma_sem_more(inside, m, modulus, f1, fl);
        assert((3 + f1 + fl - 3) as nat == f1 + fl);
        3 + f1 + fl
    }
}

/// The instruction list of an intermediate form does what the steps mean:
/// where the steps end on an input, the instruction list ends within the
/// steps that the lemma gives, and has written what the steps have
/// written and loaded.
pub proof fn lemma_lowered_sim(
    ir: Seq<SpecIR>,
    input: Seq<u8>,
    modulus: int,
    fuel: nat,
) -> (steps: nat)
    requires
        modulus > 0,
        ir_safe(ir),
        ir_weight(ir) < u32::MAX,
        isem(ir, start(input), modulus, fuel) is Some,
    ensures
        ends_within(lowered(ir), input, modulus, steps),
        output_after(lowered(ir), input, modulus, steps) == flushed(
            isem(ir, start(input), modulus, fuel)->Some_0,
        ).output,
{
    let m0 = initial(input);
    let x0 = start(input);
    let c = no_numbers();
    let tail = seq![
        SpecLIR::DeclareBssBuf(strbuf(), block_out_size(ir) as usize),
        SpecLIR::DeclareBssBuf(inputbuf(), 1),
    ];
    assert(m0.tape =~= x0.tape);
    assert forall|a: i32| cell_sound(m0, a, modulus) by {}
    lemma_ir_counts_bounded(ir);
    let fx = lemma_ir_sim(ir, c, m0, x0, modulus, fuel);
    let x1 = isem(ir, x0, modulus, fuel)->Some_0;
    let m1 = sem(ir_items(ir, c), m0, modulus, fx)->Some_0.0;
    let flush = flush_lir(ir_pos(ir));
    lemma_flush_sim(m1, x1, modulus);
    let m2 = exec_all(flush, m1, modulus);
    lemma_sem_then_plain(ir_items(ir, c), flush, m0, modulus, fx);
    lemma_sem_then_plain(block_items(ir, c), tail, m0, modulus, fx + flush.len());
    assert(tail =~= seq![tail[0]] + seq![tail[1]]);
    lemma_exec_all_concat(seq![tail[0]], seq![tail[1]], m2, modulus);
    lemma_exec_one(tail[0], m2, modulus);
    lemma_exec_one(tail[1], m2, modulus);
    lemma_block_items(ir, c);
    lemma_flat_plain(tail);
    lemma_flat_concat(block_items(ir, c), plain_items(tail));
    lemma_lowered_well_formed(ir);
    let steps = fx + flush.len() + tail.len();
    lemma_program_ends(
        lowered(ir),
        block_items(ir, c) + plain_items(tail),
        input,
        modulus,
        steps,
    );
    steps
}

} // verus!
