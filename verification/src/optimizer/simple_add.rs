//! An optimizer that gathers shifts and adds: between two commands with a
//! side effect it keeps one pending shift and the pending adds by offset, and
//! commits them, adds first, before the next input, output or loop.

use vstd::prelude::*;
use crate::lir::{
    endloop_label_name, loop_label_name, strbuf, strbuf_name, LIRBuilder, LVal, RVal, SpecLIR,
    SpecLVal, SpecRVal, LIR,
};
use crate::offset_map::{lookup, with_entry, OffsetMap};
use crate::optimizer::simple::{count_loops, loop_head, loop_tail, simple_input, simple_output};
use crate::parser::{lemma_loop_view, SpecAST, AST};

verus! {

/// One step of the gathered form of a program.
pub enum SimpleAddIR {
    Output,
    Input,
    Loop(Vec<SimpleAddIR>),
    /// Adds to the cells at the given offsets, in ascending order of offset.
    Adds(OffsetMap<i32>),
    Shift(i32),
}

/// The mathematical value of a [`SimpleAddIR`] step.
pub enum SpecSimpleAddIR {
    Output,
    Input,
    Loop(Seq<SpecSimpleAddIR>),
    Adds(Seq<(i32, i32)>),
    Shift(i32),
}

/// The value of a step.
pub open spec fn step_view(step: SimpleAddIR) -> SpecSimpleAddIR
    decreases step,
{
    match step {
        SimpleAddIR::Output => SpecSimpleAddIR::Output,
        SimpleAddIR::Input => SpecSimpleAddIR::Input,
        SimpleAddIR::Loop(body) => SpecSimpleAddIR::Loop(
            Seq::new(
                body@.len(),
                |i: int|
                    if 0 <= i < body@.len() {
                        step_view(body@[i])
                    } else {
                        SpecSimpleAddIR::Output
                    },
            ),
        ),
        SimpleAddIR::Adds(adds) => SpecSimpleAddIR::Adds(adds@),
        SimpleAddIR::Shift(k) => SpecSimpleAddIR::Shift(k),
    }
}

impl DeepView for SimpleAddIR {
    type V = SpecSimpleAddIR;

    open spec fn deep_view(&self) -> SpecSimpleAddIR {
        step_view(*self)
    }
}

pub proof fn lemma_loop_step_view(body: Vec<SimpleAddIR>)
    ensures
        SimpleAddIR::Loop(body).deep_view() == SpecSimpleAddIR::Loop(body.deep_view()),
{
    let a = SimpleAddIR::Loop(body);
    assert(a.deep_view()->Loop_0 =~= body.deep_view());
}

/// What is pending after a sequence of commands: the steps committed so far,
/// the pending shift and the pending adds.
pub struct SpecGathered {
    pub ir: Seq<SpecSimpleAddIR>,
    pub shift: i32,
    pub adds: Seq<(i32, i32)>,
}

/// The committed steps with the pending adds and the pending shift committed
/// too, in that order.
pub open spec fn committed(g: SpecGathered) -> Seq<SpecSimpleAddIR> {
    g.ir.push(SpecSimpleAddIR::Adds(g.adds)).push(SpecSimpleAddIR::Shift(g.shift))
}

/// The pending adds with `k` added at `offset`.
pub open spec fn adds_plus(adds: Seq<(i32, i32)>, offset: i32, k: i32) -> Seq<(i32, i32)> {
    let sum = match lookup(adds, offset) {
        Some(v) => v.wrapping_add(k),
        None => k,
    };
    with_entry(adds, offset, sum)
}

/// What is pending after a sequence of commands.
pub open spec fn gathered(ast: Seq<SpecAST>) -> SpecGathered
    decreases ast, 1nat,
{
    if ast.len() == 0 {
        SpecGathered { ir: Seq::empty(), shift: 0, adds: Seq::empty() }
    } else {
        gather_node(gathered(ast.drop_last()), ast.last())
    }
}

/// What is pending after one more command: a shift or an add joins what is
/// pending; any other command commits it first.
pub open spec fn gather_node(g: SpecGathered, node: SpecAST) -> SpecGathered
    decreases node, 0nat,
{
    match node {
        SpecAST::Output => SpecGathered {
            ir: committed(g).push(SpecSimpleAddIR::Output),
            shift: 0,
            adds: Seq::empty(),
        },
        SpecAST::Input => SpecGathered {
            ir: committed(g).push(SpecSimpleAddIR::Input),
            shift: 0,
            adds: Seq::empty(),
        },
        SpecAST::Loop(body) => SpecGathered {
            ir: committed(g).push(SpecSimpleAddIR::Loop(gathered_ir(body))),
            shift: 0,
            adds: Seq::empty(),
        },
        SpecAST::Shift(k) => SpecGathered { shift: g.shift.wrapping_add(k), ..g },
        SpecAST::Add(k) => SpecGathered { adds: adds_plus(g.adds, g.shift, k), ..g },
    }
}

/// The gathered form of a sequence of commands: what is pending at its end
/// is committed.
pub open spec fn gathered_ir(ast: Seq<SpecAST>) -> Seq<SpecSimpleAddIR>
    decreases ast, 2nat,
{
    committed(gathered(ast))
}

/// The number of loops of a gathered form, nested ones included.
pub open spec fn count_ir_loops(ir: Seq<SpecSimpleAddIR>) -> nat
    decreases ir,
{
    if ir.len() == 0 {
        0
    } else {
        count_ir_loops(ir.drop_last()) + match ir.last() {
            SpecSimpleAddIR::Loop(body) => 1 + count_ir_loops(body),
            _ => 0,
        }
    }
}

/// One add instruction for each pending add, in the order of the entries.
pub open spec fn adds_lir(adds: Seq<(i32, i32)>) -> Seq<SpecLIR> {
    Seq::new(
        adds.len(),
        |i: int|
            SpecLIR::Add(
                SpecLVal::Tape(adds[i].0),
                SpecRVal::Tape(adds[i].0),
                SpecRVal::Immediate(adds[i].1),
            ),
    )
}

/// The instructions of a gathered form, when `n` loops have been numbered
/// before it.
pub open spec fn lower_steps(ir: Seq<SpecSimpleAddIR>, n: nat) -> Seq<SpecLIR>
    decreases ir, 1nat,
{
    if ir.len() == 0 {
        Seq::empty()
    } else {
        lower_steps(ir.drop_last(), n) + lower_step(ir.last(), n + count_ir_loops(ir.drop_last()))
    }
}

/// The instructions of one step, when `n` loops have been numbered before
/// it.
pub open spec fn lower_step(step: SpecSimpleAddIR, n: nat) -> Seq<SpecLIR>
    decreases step, 0nat,
{
    match step {
        SpecSimpleAddIR::Output => simple_output(),
        SpecSimpleAddIR::Input => simple_input(),
        SpecSimpleAddIR::Loop(body) => loop_head(n + 1) + lower_steps(body, n + 1) + loop_tail(
            n + 1,
        ),
        SpecSimpleAddIR::Adds(adds) => adds_lir(adds),
        SpecSimpleAddIR::Shift(k) => seq![SpecLIR::Shift(k)],
    }
}

/// The instruction list that the gathering optimizer gives for a program.
pub open spec fn simple_add_lir(ast: Seq<SpecAST>) -> Seq<SpecLIR> {
    seq![SpecLIR::DeclareBssBuf(strbuf(), 1)] + lower_steps(gathered_ir(ast), 0)
}

proof fn lemma_count_ir_loops_push(ir: Seq<SpecSimpleAddIR>, step: SpecSimpleAddIR)
    ensures
        count_ir_loops(ir.push(step)) == count_ir_loops(ir) + match step {
            SpecSimpleAddIR::Loop(body) => 1 + count_ir_loops(body),
            _ => 0,
        },
{
    assert(ir.push(step).drop_last() =~= ir);
}

proof fn lemma_count_ir_loops_prefix(ir: Seq<SpecSimpleAddIR>, i: int)
    requires
        0 <= i <= ir.len(),
    ensures
        count_ir_loops(ir.subrange(0, i)) <= count_ir_loops(ir),
    decreases ir.len() - i,
{
    if i == ir.len() {
        assert(ir.subrange(0, i) =~= ir);
    } else {
        lemma_count_ir_loops_prefix(ir, i + 1);
        assert(ir.subrange(0, i + 1).drop_last() =~= ir.subrange(0, i));
    }
}

/// Gathering keeps the loops: the gathered form has as many as the program.
pub proof fn lemma_gathered_loops(ast: Seq<SpecAST>)
    ensures
        count_ir_loops(gathered(ast).ir) == count_loops(ast),
        count_ir_loops(gathered_ir(ast)) == count_loops(ast),
    decreases ast,
{
    let g = gathered(ast);
    if ast.len() > 0 {
        let p = gathered(ast.drop_last());
        lemma_gathered_loops(ast.drop_last());
        assert(g == gather_node(p, ast.last()));
        lemma_count_ir_loops_push(p.ir, SpecSimpleAddIR::Adds(p.adds));
        lemma_count_ir_loops_push(
            p.ir.push(SpecSimpleAddIR::Adds(p.adds)),
            SpecSimpleAddIR::Shift(p.shift),
        );
        match ast.last() {
            SpecAST::Output => {
                lemma_count_ir_loops_push(committed(p), SpecSimpleAddIR::Output);
            },
            SpecAST::Input => {
                lemma_count_ir_loops_push(committed(p), SpecSimpleAddIR::Input);
            },
            SpecAST::Loop(body) => {
                lemma_gathered_loops(body);
                lemma_count_ir_loops_push(committed(p), SpecSimpleAddIR::Loop(gathered_ir(body)));
            },
            _ => {},
        }
    }
    lemma_count_ir_loops_push(g.ir, SpecSimpleAddIR::Adds(g.adds));
    lemma_count_ir_loops_push(
        g.ir.push(SpecSimpleAddIR::Adds(g.adds)),
        SpecSimpleAddIR::Shift(g.shift),
    );
}

/// The optimizer that gathers shifts and adds.
pub struct SimpleAddOptimizer;

/// The gathered form of a program.
pub fn ast_to_ir(ast: &[AST]) -> (ir: Vec<SimpleAddIR>)
    ensures
        ir.deep_view() == gathered_ir(ast.deep_view()),
    decreases ast@,
{
    let ghost all = ast.deep_view();
    let mut shift: i32 = 0;
    let mut ir: Vec<SimpleAddIR> = Vec::new();
    let mut adds: OffsetMap<i32> = OffsetMap::new();
    let mut i: usize = 0;
    assert(all.subrange(0, 0) =~= Seq::<SpecAST>::empty());
    assert(ir.deep_view() =~= Seq::<SpecSimpleAddIR>::empty());
    while i < ast.len()
        invariant
            i <= ast.len(),
            all == ast.deep_view(),
            gathered(all.subrange(0, i as int)) == (SpecGathered {
                ir: ir.deep_view(),
                shift,
                adds: adds@,
            }),
        decreases ast.len() - i,
    {
        let ghost g = gathered(all.subrange(0, i as int));
        let ghost next = all.subrange(0, i + 1);
        proof {
            assert(next.drop_last() =~= all.subrange(0, i as int));
            assert(next.last() == ast@[i as int].deep_view());
        }
        let ghost node = ast@[i as int].deep_view();
        match &ast[i] {
            AST::Output => {
                ir.push(SimpleAddIR::Adds(adds));
                ir.push(SimpleAddIR::Shift(shift));
                ir.push(SimpleAddIR::Output);
                adds = OffsetMap::new();
                shift = 0;
                assert(ir.deep_view() =~= committed(g).push(SpecSimpleAddIR::Output));
                assert(node == SpecAST::Output);
            },
            AST::Input => {
                ir.push(SimpleAddIR::Adds(adds));
                ir.push(SimpleAddIR::Shift(shift));
                ir.push(SimpleAddIR::Input);
                adds = OffsetMap::new();
                shift = 0;
                assert(ir.deep_view() =~= committed(g).push(SpecSimpleAddIR::Input));
                assert(node == SpecAST::Input);
            },
            AST::Loop(body) => {
                proof {
                    lemma_loop_view(*body);
                }
                ir.push(SimpleAddIR::Adds(adds));
                ir.push(SimpleAddIR::Shift(shift));
                let inner = ast_to_ir(body.as_slice());
                proof {
                    lemma_loop_step_view(inner);
                }
                ir.push(SimpleAddIR::Loop(inner));
                adds = OffsetMap::new();
                shift = 0;
                assert(ir.deep_view() =~= committed(g).push(
                    SpecSimpleAddIR::Loop(gathered_ir(body.deep_view())),
                ));
                assert(node == SpecAST::Loop(body.deep_view()));
            },
            AST::Shift(k) => {
                shift = shift.wrapping_add(*k);
                assert(node == SpecAST::Shift(*k));
            },
            AST::Add(k) => {
                let sum = match adds.get(shift) {
                    Some(v) => v.wrapping_add(*k),
                    None => *k,
                };
                adds.insert(shift, sum);
                assert(node == SpecAST::Add(*k));
            },
        }
        i = i + 1;
        assert(gathered(next) == gather_node(g, node));
        assert(gather_node(g, node) == (SpecGathered { ir: ir.deep_view(), shift, adds: adds@ }));
    }
    assert(all.subrange(0, ast.len() as int) =~= all);
    ir.push(SimpleAddIR::Adds(adds));
    ir.push(SimpleAddIR::Shift(shift));
    assert(ir.deep_view() =~= committed(gathered(all)));
    ir
}

fn lower(ir: &[SimpleAddIR], lir: &mut LIRBuilder, loopnum: &mut u32)
    requires
        *old(loopnum) + count_ir_loops(ir.deep_view()) <= u32::MAX,
    ensures
        final(lir)@ == old(lir)@ + lower_steps(ir.deep_view(), *old(loopnum) as nat),
        *final(loopnum) == *old(loopnum) + count_ir_loops(ir.deep_view()),
    decreases ir@,
{
    let ghost all = ir.deep_view();
    let ghost n0 = *old(loopnum) as nat;
    let mut i: usize = 0;
    assert(all.subrange(0, 0) =~= Seq::<SpecSimpleAddIR>::empty());
    assert(lir@ =~= old(lir)@ + lower_steps(all.subrange(0, 0), n0));
    while i < ir.len()
        invariant
            i <= ir.len(),
            all == ir.deep_view(),
            n0 + count_ir_loops(all) <= u32::MAX,
            lir@ == old(lir)@ + lower_steps(all.subrange(0, i as int), n0),
            *loopnum == n0 + count_ir_loops(all.subrange(0, i as int)),
        decreases ir.len() - i,
    {
        let ghost before = lir@;
        let ghost prefix = all.subrange(0, i as int);
        let ghost next = all.subrange(0, i + 1);
        proof {
            lemma_count_ir_loops_prefix(all, i + 1);
            assert(next.drop_last() =~= prefix);
            assert(next.last() == ir@[i as int].deep_view());
        }
        let ghost step = ir@[i as int].deep_view();
        let ghost nb = *loopnum as nat;
        match &ir[i] {
            SimpleAddIR::Output => {
                lir.mov(LVal::Buf(strbuf_name(), 0), RVal::Tape(0));
                lir.output(strbuf_name(), 0, 1);
                assert(lir@ =~= before + simple_output());
                assert(step == SpecSimpleAddIR::Output);
            },
            SimpleAddIR::Input => {
                lir.input(strbuf_name(), 0, 1);
                lir.mov(LVal::Tape(0), RVal::Buf(strbuf_name(), 0));
                assert(lir@ =~= before + simple_input());
                assert(step == SpecSimpleAddIR::Input);
            },
            SimpleAddIR::Loop(body) => {
                proof {
                    lemma_loop_step_view(*body);
                }
                *loopnum = *loopnum + 1;
                let ghost k = *loopnum as nat;
                lir.jp(endloop_label_name(*loopnum));
                lir.label(loop_label_name(*loopnum));
                let number = *loopnum;
                lower(body.as_slice(), lir, loopnum);
                lir.label(endloop_label_name(number));
                lir.jnz(RVal::Tape(0), loop_label_name(number));
                assert(lir@ =~= before + (loop_head(k) + lower_steps(body.deep_view(), k)
                    + loop_tail(k)));
                assert(step == SpecSimpleAddIR::Loop(body.deep_view()));
                assert(lir@ == before + lower_step(step, nb));
            },
            SimpleAddIR::Adds(adds) => {
                let mut j: usize = 0;
                assert(lir@ =~= before + adds_lir(adds@).subrange(0, 0));
                while j < adds.len()
                    invariant
                        j <= adds@.len(),
                        lir@ == before + adds_lir(adds@).subrange(0, j as int),
                    decreases adds@.len() - j,
                {
                    let (offset, value) = adds.entry(j);
                    lir.add(LVal::Tape(offset), RVal::Tape(offset), RVal::Immediate(value));
                    j = j + 1;
                    assert(lir@ =~= before + adds_lir(adds@).subrange(0, j as int));
                }
                assert(adds_lir(adds@).subrange(0, j as int) =~= adds_lir(adds@));
                assert(step == SpecSimpleAddIR::Adds(adds@));
            },
            SimpleAddIR::Shift(k) => {
                lir.shift(*k);
                assert(step == SpecSimpleAddIR::Shift(*k));
                assert(lir@ =~= before + lower_step(step, nb));
            },
        }
        i = i + 1;
        assert(lir@ == before + lower_step(step, nb));
        assert(lower_steps(next, n0) == lower_steps(prefix, n0) + lower_step(step, nb));
        assert(lir@ =~= old(lir)@ + lower_steps(next, n0));
    }
    assert(all.subrange(0, ir.len() as int) =~= all);
}

/// The instructions of a gathered form.
pub fn ir_to_lir(ir: &[SimpleAddIR]) -> (lir: Vec<LIR>)
    requires
        count_ir_loops(ir.deep_view()) <= u32::MAX,
    ensures
        lir.deep_view() == seq![SpecLIR::DeclareBssBuf(strbuf(), 1)] + lower_steps(
            ir.deep_view(),
            0,
        ),
{
    let mut builder = LIRBuilder::new();
    builder.declare_bss_buf(strbuf_name(), 1);
    let mut loopnum: u32 = 0;
    lower(ir, &mut builder, &mut loopnum);
    builder.build()
}

/// Lowers a program with its shifts and adds gathered.
pub fn optimize(ast: &[AST]) -> (lir: Vec<LIR>)
    requires
        count_loops(ast.deep_view()) <= u32::MAX,
    ensures
        lir.deep_view() == simple_add_lir(ast.deep_view()),
{
    proof {
        lemma_gathered_loops(ast.deep_view());
    }
    let ir = ast_to_ir(ast);
    ir_to_lir(ir.as_slice())
}

} // verus!
