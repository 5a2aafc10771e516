//! The intermediate form of the graph-based optimizer: what is left between
//! the basic blocks, and one expression graph for each block.

use vstd::prelude::*;
use crate::lir::{RVal, SpecRVal};
use crate::optimizer::new::dag::{dag_wf, SpecDAG, DAG};

verus! {

/// One step of the intermediate form.
pub enum IR {
    /// Appends a value to the output buffer.
    Output(RVal),
    /// Reads one byte into the cell at an offset.
    Input(i32),
    /// `Loop(shift, body, end_shift)`: moves the cursor by `shift`, then runs
    /// the body, followed by a move of the cursor by `end_shift`, while the
    /// current cell is not zero.
    Loop(i32, Vec<IR>, i32),
    /// Computes the nodes of a graph and writes its terminals to the tape.
    Expr(DAG),
}

/// The mathematical value of an [`IR`] step.
pub enum SpecIR {
    Output(SpecRVal),
    Input(i32),
    Loop(i32, Seq<SpecIR>, i32),
    Expr(SpecDAG),
}

/// The value of a step.
pub open spec fn ir_view(step: IR) -> SpecIR
    decreases step,
{
    match step {
        IR::Output(v) => SpecIR::Output(v@),
        IR::Input(offset) => SpecIR::Input(offset),
        IR::Loop(shift, body, end_shift) => SpecIR::Loop(
            shift,
            Seq::new(
                body@.len(),
                |i: int|
                    if 0 <= i < body@.len() {
                        ir_view(body@[i])
                    } else {
                        SpecIR::Input(0)
                    },
            ),
            end_shift,
        ),
        IR::Expr(dag) => SpecIR::Expr(dag@),
    }
}

impl DeepView for IR {
    type V = SpecIR;

    open spec fn deep_view(&self) -> SpecIR {
        ir_view(*self)
    }
}

pub proof fn lemma_loop_ir_view(shift: i32, body: Vec<IR>, end_shift: i32)
    ensures
        IR::Loop(shift, body, end_shift).deep_view() == SpecIR::Loop(
            shift,
            body.deep_view(),
            end_shift,
        ),
{
    let step = IR::Loop(shift, body, end_shift);
    assert(step.deep_view()->Loop_1 =~= body.deep_view());
}

/// Appends a step.
pub fn push_ir(ir: &mut Vec<IR>, step: IR)
    ensures
        final(ir).deep_view() == old(ir).deep_view().push(step.deep_view()),
{
    ir.push(step);
    assert(ir.deep_view() =~= old(ir).deep_view().push(step.deep_view()));
}

/// What a sequence of steps weighs: the nodes of its graphs, and one for
/// each other step, bodies included.
pub open spec fn ir_weight(ir: Seq<SpecIR>) -> nat
    decreases ir, 1nat,
{
    if ir.len() == 0 {
        0
    } else {
        ir_weight(ir.drop_last()) + step_weight(ir.last())
    }
}

/// What one step weighs.
pub open spec fn step_weight(step: SpecIR) -> nat
    decreases step, 0nat,
{
    match step {
        SpecIR::Output(_) => 1,
        SpecIR::Input(_) => 1,
        SpecIR::Loop(_, body, _) => 1 + ir_weight(body),
        SpecIR::Expr(dag) => dag.nodes.len(),
    }
}

/// Whether every graph of a sequence of steps, bodies included, is well
/// formed.
pub open spec fn ir_wf(ir: Seq<SpecIR>) -> bool
    decreases ir, 1nat,
{
    ir.len() == 0 || (ir_wf(ir.drop_last()) && step_wf(ir.last()))
}

/// Whether every graph of a step is well formed.
pub open spec fn step_wf(step: SpecIR) -> bool
    decreases step, 0nat,
{
    match step {
        SpecIR::Loop(_, body, _) => ir_wf(body),
        SpecIR::Expr(dag) => dag_wf(dag),
        _ => true,
    }
}

pub proof fn lemma_ir_push(ir: Seq<SpecIR>, step: SpecIR)
    ensures
        ir_weight(ir.push(step)) == ir_weight(ir) + step_weight(step),
        ir_wf(ir.push(step)) == (ir_wf(ir) && step_wf(step)),
{
    assert(ir.push(step).drop_last() =~= ir);
}

/// A prefix of a sequence of steps weighs no more than the sequence.
pub proof fn lemma_ir_weight_prefix(ir: Seq<SpecIR>, i: int)
    requires
        0 <= i <= ir.len(),
    ensures
        ir_weight(ir.subrange(0, i)) <= ir_weight(ir),
        ir_wf(ir) ==> ir_wf(ir.subrange(0, i)),
    decreases ir.len() - i,
{
    if i == ir.len() {
        assert(ir.subrange(0, i) =~= ir);
    } else {
        lemma_ir_weight_prefix(ir, i + 1);
        assert(ir.subrange(0, i + 1).drop_last() =~= ir.subrange(0, i));
    }
}

} // verus!
