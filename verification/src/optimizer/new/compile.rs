//! Lowering of the intermediate form of the graph-based optimizer.
//!
//! A graph is lowered node by node in the order of the nodes: a sum or a
//! product goes to a fresh register, and a tape cell or a constant is used
//! where it is needed, without a register. Then each terminal is written to
//! its cell, in ascending order of offset. Output is gathered in `strbuf`
//! and written before a loop and at the end of a block.

use vstd::prelude::*;
use crate::lir::{
    endloop_label_name, inputbuf, inputbuf_name, loop_label_name, strbuf, strbuf_name,
    LIRBuilder, LVal, RVal, SpecLIR, SpecLVal, SpecRVal, LIR,
};
use crate::optimizer::new::dag::{dag_wf, refers_below, Node, SpecDAG, Value, DAG};
use crate::optimizer::new::ir::{
    ir_weight, ir_wf, lemma_ir_weight_prefix, lemma_loop_ir_view, step_weight, step_wf, SpecIR,
    IR,
};
use crate::optimizer::peephole::compile::max_nat;
use crate::optimizer::simple::{loop_head, loop_tail};

verus! {

/// Whether a value takes a register: a sum or a product does.
pub open spec fn takes_reg(value: Value) -> bool {
    value is Add || value is Multiply
}

/// The number of the first `n` nodes that take a register.
pub open spec fn count_regs(nodes: Seq<Value>, n: int) -> nat
    decreases n,
{
    if n <= 0 {
        0
    } else {
        count_regs(nodes, n - 1) + if takes_reg(nodes[n - 1]) {
            1nat
        } else {
            0nat
        }
    }
}

/// What stands for node `i` where it is used, when `regs` registers are
/// taken before the graph.
pub open spec fn node_operand(nodes: Seq<Value>, i: int, regs: nat) -> SpecRVal {
    match nodes[i] {
        Value::Tape(offset) => SpecRVal::Tape(offset),
        Value::Const(v) => SpecRVal::Immediate(v),
        _ => SpecRVal::Reg((regs + count_regs(nodes, i)) as u32),
    }
}

/// The instruction that computes node `i`, if it takes one.
pub open spec fn node_lir(nodes: Seq<Value>, i: int, regs: nat) -> Seq<SpecLIR> {
    let dest = SpecLVal::Reg((regs + count_regs(nodes, i)) as u32);
    match nodes[i] {
        Value::Multiply(a, b) => seq![
            SpecLIR::Mul(
                dest,
                node_operand(nodes, a.0 as int, regs),
                node_operand(nodes, b.0 as int, regs),
            ),
        ],
        Value::Add(a, b) => seq![
            SpecLIR::Add(
                dest,
                node_operand(nodes, a.0 as int, regs),
                node_operand(nodes, b.0 as int, regs),
            ),
        ],
        _ => Seq::empty(),
    }
}

/// The instructions that compute the first `n` nodes.
pub open spec fn nodes_lir(nodes: Seq<Value>, n: int, regs: nat) -> Seq<SpecLIR>
    decreases n,
{
    if n <= 0 {
        Seq::empty()
    } else {
        nodes_lir(nodes, n - 1, regs) + node_lir(nodes, n - 1, regs)
    }
}

/// The instructions that write the terminals to the tape.
pub open spec fn terminals_lir(d: SpecDAG, regs: nat) -> Seq<SpecLIR> {
    Seq::new(
        d.terminals.len(),
        |t: int|
            SpecLIR::Mov(
                SpecLVal::Tape(d.terminals[t].0),
                node_operand(d.nodes, d.terminals[t].1.0 as int, regs),
            ),
    )
}

/// The instructions of a graph.
pub open spec fn expr_lir(d: SpecDAG, regs: nat) -> Seq<SpecLIR> {
    nodes_lir(d.nodes, d.nodes.len() as int, regs) + terminals_lir(d, regs)
}

/// The numbers given out so far: to loops and to registers.
pub struct SpecNumbers {
    pub loops: nat,
    pub regs: nat,
}

/// The number of loops of a sequence of steps, bodies included.
pub open spec fn ir_loops(ir: Seq<SpecIR>) -> nat
    decreases ir, 1nat,
{
    if ir.len() == 0 {
        0
    } else {
        ir_loops(ir.drop_last()) + step_loops(ir.last())
    }
}

/// The number of loops of one step.
pub open spec fn step_loops(step: SpecIR) -> nat
    decreases step, 0nat,
{
    match step {
        SpecIR::Loop(_, body, _) => 1 + ir_loops(body),
        _ => 0,
    }
}

/// The number of registers that a sequence of steps takes.
pub open spec fn ir_regs(ir: Seq<SpecIR>) -> nat
    decreases ir, 1nat,
{
    if ir.len() == 0 {
        0
    } else {
        ir_regs(ir.drop_last()) + step_regs(ir.last())
    }
}

/// The number of registers that one step takes.
pub open spec fn step_regs(step: SpecIR) -> nat
    decreases step, 0nat,
{
    match step {
        SpecIR::Loop(_, body, _) => ir_regs(body),
        SpecIR::Expr(d) => count_regs(d.nodes, d.nodes.len() as int),
        _ => 0,
    }
}

/// The numbers after a sequence of steps.
pub open spec fn numbers_after(c: SpecNumbers, ir: Seq<SpecIR>) -> SpecNumbers {
    SpecNumbers { loops: c.loops + ir_loops(ir), regs: c.regs + ir_regs(ir) }
}

/// The numbers after one step.
pub open spec fn numbers_after_step(c: SpecNumbers, step: SpecIR) -> SpecNumbers {
    SpecNumbers { loops: c.loops + step_loops(step), regs: c.regs + step_regs(step) }
}

/// The number of bytes in the output buffer after one more step: an output
/// adds one, a loop writes the buffer before it begins.
pub open spec fn ir_pos_after(pos: nat, step: SpecIR) -> nat {
    match step {
        SpecIR::Output(_) => pos + 1,
        SpecIR::Loop(_, _, _) => 0,
        _ => pos,
    }
}

/// The number of bytes in the output buffer after a sequence of steps.
pub open spec fn ir_pos(ir: Seq<SpecIR>) -> nat
    decreases ir.len(),
{
    if ir.len() == 0 {
        0
    } else {
        ir_pos_after(ir_pos(ir.drop_last()), ir.last())
    }
}

/// The instruction that writes the `pos` gathered bytes, if there are any.
pub open spec fn flush_lir(pos: nat) -> Seq<SpecLIR> {
    if pos != 0 {
        seq![SpecLIR::Output(strbuf(), 0, pos as usize)]
    } else {
        Seq::empty()
    }
}

/// The size that writing `pos` gathered bytes asks of the output buffer.
pub open spec fn flush_size(pos: nat) -> nat {
    if pos != 0 {
        pos + 1
    } else {
        0
    }
}

/// The instruction that moves the cursor, unless it stays.
pub open spec fn shift_lir(offset: i32) -> Seq<SpecLIR> {
    if offset != 0 {
        seq![SpecLIR::Shift(offset)]
    } else {
        Seq::empty()
    }
}

/// The instructions of a sequence of steps, with the numbers as they stand
/// before it.
pub open spec fn lower_ir(ir: Seq<SpecIR>, c: SpecNumbers) -> Seq<SpecLIR>
    decreases ir, 1nat,
{
    if ir.len() == 0 {
        Seq::empty()
    } else {
        lower_ir(ir.drop_last(), c) + lower_step(
            ir.last(),
            numbers_after(c, ir.drop_last()),
            ir_pos(ir.drop_last()),
        )
    }
}

/// The instructions of one step, with the numbers as they stand before it
/// and `pos` bytes in the output buffer.
pub open spec fn lower_step(step: SpecIR, c: SpecNumbers, pos: nat) -> Seq<SpecLIR>
    decreases step, 0nat,
{
    match step {
        SpecIR::Output(v) => seq![SpecLIR::Mov(SpecLVal::Buf(strbuf(), pos as usize), v)],
        SpecIR::Input(offset) => seq![
            SpecLIR::Input(inputbuf(), 0, 1),
            SpecLIR::Mov(SpecLVal::Tape(offset), SpecRVal::Buf(inputbuf(), 0)),
        ],
        SpecIR::Loop(offset, body, end_shift) => flush_lir(pos) + shift_lir(offset) + loop_head(
            c.loops + 1,
        ) + lower_block(body, SpecNumbers { loops: c.loops + 1, ..c }) + shift_lir(end_shift)
            + loop_tail(c.loops + 1),
        SpecIR::Expr(d) => expr_lir(d, c.regs),
    }
}

/// The instructions of a block: its steps, and the writing of the output
/// that is gathered at its end.
pub open spec fn lower_block(ir: Seq<SpecIR>, c: SpecNumbers) -> Seq<SpecLIR>
    decreases ir, 2nat,
{
    lower_ir(ir, c) + flush_lir(ir_pos(ir))
}

/// The size that the steps of a block ask of the output buffer.
pub open spec fn ir_out_size(ir: Seq<SpecIR>) -> nat
    decreases ir, 1nat,
{
    if ir.len() == 0 {
        0
    } else {
        max_nat(ir_out_size(ir.drop_last()), step_out_size(ir.last(), ir_pos(ir.drop_last())))
    }
}

/// The size that one step asks of the output buffer.
pub open spec fn step_out_size(step: SpecIR, pos: nat) -> nat
    decreases step, 0nat,
{
    match step {
        SpecIR::Loop(_, body, _) => max_nat(flush_size(pos), block_out_size(body)),
        _ => 0,
    }
}

/// The size that a block asks of the output buffer.
pub open spec fn block_out_size(ir: Seq<SpecIR>) -> nat
    decreases ir, 2nat,
{
    max_nat(ir_out_size(ir), flush_size(ir_pos(ir)))
}

/// The numbers before the first step.
pub open spec fn no_numbers() -> SpecNumbers {
    SpecNumbers { loops: 0, regs: 0 }
}

/// The instruction list of an intermediate form: its instructions, then the
/// declarations of the output buffer and of the input buffer.
pub open spec fn lowered(ir: Seq<SpecIR>) -> Seq<SpecLIR> {
    lower_block(ir, no_numbers()) + seq![
        SpecLIR::DeclareBssBuf(strbuf(), block_out_size(ir) as usize),
        SpecLIR::DeclareBssBuf(inputbuf(), 1),
    ]
}

proof fn lemma_count_regs_bounded(nodes: Seq<Value>, n: int)
    requires
        0 <= n,
    ensures
        count_regs(nodes, n) <= n,
    decreases n,
{
    if n > 0 {
        lemma_count_regs_bounded(nodes, n - 1);
    }
}

/// No count of a sequence of steps exceeds its weight.
pub proof fn lemma_ir_counts_bounded(ir: Seq<SpecIR>)
    ensures
        ir_loops(ir) <= ir_weight(ir),
        ir_regs(ir) <= ir_weight(ir),
        ir_pos(ir) <= ir_weight(ir),
        ir_out_size(ir) <= ir_weight(ir) + 1,
        block_out_size(ir) <= ir_weight(ir) + 1,
    decreases ir,
{
    if ir.len() > 0 {
        let last = ir.last();
        lemma_ir_counts_bounded(ir.drop_last());
        match last {
            SpecIR::Loop(_, body, _) => {
                lemma_ir_counts_bounded(body);
            },
            SpecIR::Expr(d) => {
                lemma_count_regs_bounded(d.nodes, d.nodes.len() as int);
            },
            _ => {},
        }
        assert(step_loops(last) <= step_weight(last));
        assert(step_regs(last) <= step_weight(last));
        assert(step_out_size(last, ir_pos(ir.drop_last())) <= ir_weight(ir) + 1);
    }
}

/// What stands for a node where it is used.
#[derive(Clone, Copy)]
enum Operand {
    Reg(u32),
    Tape(i32),
    Immediate(i32),
}

impl Operand {
    spec fn rval(self) -> SpecRVal {
        match self {
            Operand::Reg(n) => SpecRVal::Reg(n),
            Operand::Tape(o) => SpecRVal::Tape(o),
            Operand::Immediate(v) => SpecRVal::Immediate(v),
        }
    }

    fn to_rval(self) -> (r: RVal)
        ensures
            r@ == self.rval(),
    {
        match self {
            Operand::Reg(n) => RVal::Reg(n),
            Operand::Tape(o) => RVal::Tape(o),
            Operand::Immediate(v) => RVal::Immediate(v),
        }
    }
}

struct CompileState {
    lir: LIRBuilder,
    loopnum: u32,
    outbuffsize: usize,
    regnum: u32,
}

impl CompileState {
    spec fn numbers(&self) -> SpecNumbers {
        SpecNumbers { loops: self.loopnum as nat, regs: self.regnum as nat }
    }

    /// Whether every counter leaves room for `n` more numbers.
    spec fn has_room(&self, n: nat) -> bool {
        &&& self.loopnum + n <= u32::MAX
        &&& self.regnum + n <= u32::MAX
    }

    /// A register that no instruction has defined yet.
    fn reg(&mut self) -> (r: u32)
        requires
            old(self).regnum < u32::MAX,
        ensures
            r == old(self).regnum,
            final(self).regnum == old(self).regnum + 1,
            final(self).lir == old(self).lir,
            final(self).loopnum == old(self).loopnum,
            final(self).outbuffsize == old(self).outbuffsize,
    {
        let r = self.regnum;
        self.regnum = self.regnum + 1;
        r
    }

    /// Writes the gathered output, if there is any.
    fn flush(&mut self, outbuffpos: usize)
        requires
            outbuffpos < usize::MAX,
        ensures
            final(self).lir@ == old(self).lir@ + flush_lir(outbuffpos as nat),
            final(self).outbuffsize == max_nat(
                old(self).outbuffsize as nat,
                flush_size(outbuffpos as nat),
            ),
            final(self).numbers() == old(self).numbers(),
    {
        if outbuffpos != 0 {
            self.lir.output(strbuf_name(), 0, outbuffpos);
            if self.outbuffsize < outbuffpos + 1 {
                self.outbuffsize = outbuffpos + 1;
            }
            assert(self.lir@ =~= old(self).lir@ + flush_lir(outbuffpos as nat));
        } else {
            assert(self.lir@ =~= old(self).lir@ + flush_lir(outbuffpos as nat));
        }
    }

    /// Moves the cursor, unless it stays.
    fn shift(&mut self, offset: i32)
        ensures
            final(self).lir@ == old(self).lir@ + shift_lir(offset),
            final(self).outbuffsize == old(self).outbuffsize,
            final(self).numbers() == old(self).numbers(),
    {
        if offset != 0 {
            self.lir.shift(offset);
        }
        assert(self.lir@ =~= old(self).lir@ + shift_lir(offset));
    }
}

/// Lowers a graph.
fn compile_expr(state: &mut CompileState, expr: &DAG)
    requires
        expr.wf(),
        old(state).regnum + expr@.nodes.len() <= u32::MAX,
    ensures
        final(state).lir@ == old(state).lir@ + expr_lir(expr@, old(state).regnum as nat),
        final(state).regnum == old(state).regnum + count_regs(
            expr@.nodes,
            expr@.nodes.len() as int,
        ),
        final(state).loopnum == old(state).loopnum,
        final(state).outbuffsize == old(state).outbuffsize,
{
    let ghost d = expr@;
    let ghost regs = old(state).regnum as nat;
    let ghost lir0 = old(state).lir@;
    let n = expr.len();
    let mut map: Vec<Operand> = Vec::new();
    let mut i: usize = 0;
    assert(state.lir@ =~= lir0 + nodes_lir(d.nodes, 0, regs));
    while i < n
        invariant
            i <= n,
            n == d.nodes.len(),
            d == expr@,
            dag_wf(d),
            regs + d.nodes.len() <= u32::MAX,
            map@.len() == i,
            forall|k: int| 0 <= k < i ==> (#[trigger] map@[k]).rval() == node_operand(d.nodes, k, regs),
            state.lir@ == lir0 + nodes_lir(d.nodes, i as int, regs),
            state.regnum == regs + count_regs(d.nodes, i as int),
            state.loopnum == old(state).loopnum,
            state.outbuffsize == old(state).outbuffsize,
        decreases n - i,
    {
        proof {
            lemma_count_regs_bounded(d.nodes, i as int);
            assert(refers_below(d.nodes[i as int], i as int));
        }
        let ghost before = state.lir@;
        let operand = match expr.value(Node(i)) {
            Value::Tape(offset) => {
                assert(state.lir@ =~= before + node_lir(d.nodes, i as int, regs));
                Operand::Tape(offset)
            },
            Value::Const(value) => {
                assert(state.lir@ =~= before + node_lir(d.nodes, i as int, regs));
                Operand::Immediate(value)
            },
            Value::Multiply(a, b) => {
                let reg = state.reg();
                state.lir.mul(LVal::Reg(reg), map[a.0].to_rval(), map[b.0].to_rval());
                assert(state.lir@ =~= before + node_lir(d.nodes, i as int, regs));
                Operand::Reg(reg)
            },
            Value::Add(a, b) => {
                let reg = state.reg();
                state.lir.add(LVal::Reg(reg), map[a.0].to_rval(), map[b.0].to_rval());
                assert(state.lir@ =~= before + node_lir(d.nodes, i as int, regs));
                Operand::Reg(reg)
            },
        };
        map.push(operand);
        i = i + 1;
        assert(state.lir@ =~= lir0 + nodes_lir(d.nodes, i as int, regs));
    }
    let ghost middle = state.lir@;
    let terminals = expr.terminals();
    let mut t: usize = 0;
    assert(state.lir@ =~= middle + terminals_lir(d, regs).subrange(0, 0));
    while t < terminals.len()
        invariant
            t <= terminals@.len(),
            terminals@ == d.terminals,
            dag_wf(d),
            map@.len() == d.nodes.len(),
            forall|k: int|
                0 <= k < d.nodes.len() ==> (#[trigger] map@[k]).rval() == node_operand(
                    d.nodes,
                    k,
                    regs,
                ),
            state.lir@ == middle + terminals_lir(d, regs).subrange(0, t as int),
            state.regnum == regs + count_regs(d.nodes, d.nodes.len() as int),
            state.loopnum == old(state).loopnum,
            state.outbuffsize == old(state).outbuffsize,
        decreases terminals@.len() - t,
    {
        let (offset, node) = terminals[t];
        assert(d.terminals[t as int].1.0 < d.nodes.len());
        state.lir.mov(LVal::Tape(offset), map[node.0].to_rval());
        t = t + 1;
        assert(state.lir@ =~= middle + terminals_lir(d, regs).subrange(0, t as int));
    }
    assert(terminals_lir(d, regs).subrange(0, t as int) =~= terminals_lir(d, regs));
    assert(state.lir@ =~= lir0 + expr_lir(d, regs));
}

fn ir_to_lir_iter(state: &mut CompileState, ir: &[IR])
    requires
        ir_wf(ir.deep_view()),
        old(state).has_room(ir_weight(ir.deep_view())),
        ir_weight(ir.deep_view()) < u32::MAX,
    ensures
        final(state).lir@ == old(state).lir@ + lower_block(ir.deep_view(), old(state).numbers()),
        final(state).numbers() == numbers_after(old(state).numbers(), ir.deep_view()),
        final(state).outbuffsize == max_nat(
            old(state).outbuffsize as nat,
            block_out_size(ir.deep_view()),
        ),
    decreases ir@, 1nat,
{
    let ghost all = ir.deep_view();
    let ghost c0 = old(state).numbers();
    let ghost size0 = old(state).outbuffsize as nat;
    let ghost lir0 = old(state).lir@;
    let mut outbuffpos: usize = 0;
    let mut i: usize = 0;
    assert(all.subrange(0, 0) =~= Seq::<SpecIR>::empty());
    assert(state.lir@ =~= lir0 + lower_ir(all.subrange(0, 0), c0));
    while i < ir.len()
        invariant
            i <= ir.len(),
            all == ir.deep_view(),
            ir_wf(all),
            ir_weight(all) < u32::MAX,
            c0.loops + ir_weight(all) <= u32::MAX,
            c0.regs + ir_weight(all) <= u32::MAX,
            state.lir@ == lir0 + lower_ir(all.subrange(0, i as int), c0),
            state.numbers() == numbers_after(c0, all.subrange(0, i as int)),
            outbuffpos == ir_pos(all.subrange(0, i as int)),
            state.outbuffsize == max_nat(size0, ir_out_size(all.subrange(0, i as int))),
        decreases ir.len() - i,
    {
        let ghost prefix = all.subrange(0, i as int);
        let ghost next = all.subrange(0, i + 1);
        let ghost node = ir@[i as int].deep_view();
        let ghost c = state.numbers();
        let ghost pos = outbuffpos as nat;
        proof {
            lemma_ir_weight_prefix(all, i + 1);
            lemma_ir_counts_bounded(prefix);
            assert(next.drop_last() =~= prefix);
            assert(next.last() == node);
            assert(ir_weight(next) == ir_weight(prefix) + step_weight(node));
            assert(ir_wf(next));
        }
        compile_step(state, &ir[i], &mut outbuffpos);
        i = i + 1;
        assert(lower_ir(next, c0) == lower_ir(prefix, c0) + lower_step(node, c, pos));
        assert(state.lir@ =~= lir0 + lower_ir(next, c0));
    }
    assert(all.subrange(0, ir.len() as int) =~= all);
    proof {
        lemma_ir_counts_bounded(all);
    }
    let ghost before = state.lir@;
    state.flush(outbuffpos);
    assert(state.lir@ =~= lir0 + lower_block(all, c0));
}

fn compile_step(state: &mut CompileState, step: &IR, outbuffpos: &mut usize)
    requires
        step_wf(step.deep_view()),
        old(state).has_room(step_weight(step.deep_view())),
        *old(outbuffpos) < u32::MAX,
    ensures
        final(state).lir@ == old(state).lir@ + lower_step(
            step.deep_view(),
            old(state).numbers(),
            *old(outbuffpos) as nat,
        ),
        final(state).numbers() == numbers_after_step(old(state).numbers(), step.deep_view()),
        *final(outbuffpos) == ir_pos_after(*old(outbuffpos) as nat, step.deep_view()),
        final(state).outbuffsize == max_nat(
            old(state).outbuffsize as nat,
            step_out_size(step.deep_view(), *old(outbuffpos) as nat),
        ),
    decreases step, 0nat,
{
    let ghost before = state.lir@;
    let ghost node = step.deep_view();
    let ghost c = state.numbers();
    let ghost pos = *outbuffpos as nat;
    match step {
        IR::Output(value) => {
            let value = copy_rval(value);
            state.lir.mov(LVal::Buf(strbuf_name(), *outbuffpos), value);
            *outbuffpos = *outbuffpos + 1;
            assert(state.lir@ =~= before + lower_step(node, c, pos));
        },
        IR::Input(offset) => {
            state.lir.input(inputbuf_name(), 0, 1);
            state.lir.mov(LVal::Tape(*offset), RVal::Buf(inputbuf_name(), 0));
            assert(node == SpecIR::Input(*offset));
            assert(state.lir@ =~= before + lower_step(node, c, pos));
        },
        IR::Loop(offset, inner, end_shift) => {
            proof {
                lemma_loop_ir_view(*offset, *inner, *end_shift);
            }
            assert(node == SpecIR::Loop(*offset, inner.deep_view(), *end_shift));
            compile_loop(state, *offset, inner, *end_shift, *outbuffpos);
            *outbuffpos = 0;
        },
        IR::Expr(expr) => {
            assert(node == SpecIR::Expr(expr@));
            compile_expr(state, expr);
        },
    }
}

/// Lowers a loop: the gathered output is written, the cursor moves to the
/// cell that the loop tests, and the body stands between head and tail.
fn compile_loop(
    state: &mut CompileState,
    offset: i32,
    inner: &Vec<IR>,
    end_shift: i32,
    outbuffpos: usize,
)
    requires
        ir_wf(inner.deep_view()),
        old(state).has_room(1 + ir_weight(inner.deep_view())),
        outbuffpos < u32::MAX,
    ensures
        final(state).lir@ == old(state).lir@ + (flush_lir(outbuffpos as nat) + shift_lir(offset)
            + loop_head(old(state).loopnum as nat + 1) + lower_block(
            inner.deep_view(),
            SpecNumbers { loops: old(state).loopnum as nat + 1, ..old(state).numbers() },
        ) + shift_lir(end_shift) + loop_tail(old(state).loopnum as nat + 1)),
        final(state).numbers() == (SpecNumbers {
            loops: old(state).loopnum as nat + 1 + ir_loops(inner.deep_view()),
            regs: old(state).regnum as nat + ir_regs(inner.deep_view()),
        }),
        final(state).outbuffsize == max_nat(
            old(state).outbuffsize as nat,
            max_nat(flush_size(outbuffpos as nat), block_out_size(inner.deep_view())),
        ),
    decreases inner@, 2nat,
{
    let ghost before = state.lir@;
    let ghost c = state.numbers();
    state.flush(outbuffpos);
    state.shift(offset);
    state.loopnum = state.loopnum + 1;
    let number = state.loopnum;
    state.lir.jp(endloop_label_name(number));
    state.lir.label(loop_label_name(number));
    let ghost opened = state.lir@;
    assert(opened =~= before + flush_lir(outbuffpos as nat) + shift_lir(offset) + loop_head(
        c.loops + 1,
    ));
    ir_to_lir_iter(state, inner.as_slice());
    let ghost body = lower_block(inner.deep_view(), SpecNumbers { loops: c.loops + 1, ..c });
    assert(state.lir@ == opened + body);
    state.shift(end_shift);
    state.lir.label(endloop_label_name(number));
    state.lir.jnz(RVal::Tape(0), loop_label_name(number));
    assert(state.lir@ =~= opened + body + shift_lir(end_shift) + loop_tail(c.loops + 1));
    assert(state.lir@ =~= before + (flush_lir(outbuffpos as nat) + shift_lir(offset) + loop_head(
        c.loops + 1,
    ) + body + shift_lir(end_shift) + loop_tail(c.loops + 1)));
}

/// A copy of a readable location.
fn copy_rval(value: &RVal) -> (r: RVal)
    ensures
        r@ == value@,
{
    match value {
        RVal::Reg(n) => RVal::Reg(*n),
        RVal::Tape(o) => RVal::Tape(*o),
        RVal::Buf(name, i) => RVal::Buf(name.clone(), *i),
        RVal::Immediate(v) => RVal::Immediate(*v),
    }
}

/// The instruction list of an intermediate form.
pub fn ir_to_lir(ir: &[IR]) -> (lir: Vec<LIR>)
    requires
        ir_wf(ir.deep_view()),
        ir_weight(ir.deep_view()) < u32::MAX,
    ensures
        lir.deep_view() == lowered(ir.deep_view()),
{
    let mut state = CompileState { lir: LIRBuilder::new(), loopnum: 0, outbuffsize: 0, regnum: 0 };
    ir_to_lir_iter(&mut state, ir);
    let size = state.outbuffsize;
    state.lir.declare_bss_buf(strbuf_name(), size);
    state.lir.declare_bss_buf(inputbuf_name(), 1);
    assert(state.lir@ =~= lowered(ir.deep_view()));
    state.lir.build()
}

} // verus!
