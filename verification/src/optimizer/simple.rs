//! The baseline lowering: each command becomes its instructions, with no
//! transformation. The other optimizers are measured against it.

use vstd::prelude::*;
use crate::lir::{
    endloop_label, endloop_label_name, loop_label, loop_label_name, strbuf, strbuf_name,
    LIRBuilder, LVal, RVal, SpecLIR, SpecLVal, SpecRVal, LIR,
};
use crate::parser::{ast_size, SpecAST, AST};

verus! {

/// The number of loops of a program, nested ones included.
pub open spec fn count_loops(ast: Seq<SpecAST>) -> nat
    decreases ast,
{
    if ast.len() == 0 {
        0
    } else {
        count_loops(ast.drop_last()) + match ast.last() {
            SpecAST::Loop(body) => 1 + count_loops(body),
            _ => 0,
        }
    }
}

/// The instructions around the body of loop number `k`, before it: a jump to
/// the test at the bottom, and the label of the top.
pub open spec fn loop_head(k: nat) -> Seq<SpecLIR> {
    seq![SpecLIR::Jp(endloop_label(k)), SpecLIR::Label(loop_label(k))]
}

/// The instructions around the body of loop number `k`, after it: the label
/// of the bottom, and the jump back to the top while the current cell is not
/// zero.
pub open spec fn loop_tail(k: nat) -> Seq<SpecLIR> {
    seq![
        SpecLIR::Label(endloop_label(k)),
        SpecLIR::Jnz(SpecRVal::Tape(0), loop_label(k)),
    ]
}

/// Writes the current cell: the cell goes to the first byte of the output
/// buffer, and that byte is written.
pub open spec fn simple_output() -> Seq<SpecLIR> {
    seq![
        SpecLIR::Mov(SpecLVal::Buf(strbuf(), 0), SpecRVal::Tape(0)),
        SpecLIR::Output(strbuf(), 0, 1),
    ]
}

/// Reads into the current cell: one byte is read into the buffer, and goes
/// from there to the cell.
pub open spec fn simple_input() -> Seq<SpecLIR> {
    seq![
        SpecLIR::Input(strbuf(), 0, 1),
        SpecLIR::Mov(SpecLVal::Tape(0), SpecRVal::Buf(strbuf(), 0)),
    ]
}

/// The instructions of a sequence of commands, when `n` loops have been
/// numbered before it.
pub open spec fn simple_lower(ast: Seq<SpecAST>, n: nat) -> Seq<SpecLIR>
    decreases ast, 1nat,
{
    if ast.len() == 0 {
        Seq::empty()
    } else {
        simple_lower(ast.drop_last(), n) + simple_node(
            ast.last(),
            n + count_loops(ast.drop_last()),
        )
    }
}

/// The instructions of one command, when `n` loops have been numbered before
/// it. A loop takes the next number; its body follows between head and tail.
pub open spec fn simple_node(node: SpecAST, n: nat) -> Seq<SpecLIR>
    decreases node, 0nat,
{
    match node {
        SpecAST::Output => simple_output(),
        SpecAST::Input => simple_input(),
        SpecAST::Shift(k) => seq![SpecLIR::Shift(k)],
        SpecAST::Add(k) => seq![
            SpecLIR::Add(SpecLVal::Tape(0), SpecRVal::Tape(0), SpecRVal::Immediate(k)),
        ],
        SpecAST::Loop(body) => loop_head(n + 1) + simple_lower(body, n + 1) + loop_tail(n + 1),
    }
}

/// The instruction list of a whole program: the output buffer is declared,
/// then the commands follow.
pub open spec fn simple_lir(ast: Seq<SpecAST>) -> Seq<SpecLIR> {
    seq![SpecLIR::DeclareBssBuf(strbuf(), 1)] + simple_lower(ast, 0)
}

/// A prefix of a program has no more loops than the program.
pub proof fn lemma_count_loops_prefix(ast: Seq<SpecAST>, i: int)
    requires
        0 <= i <= ast.len(),
    ensures
        count_loops(ast.subrange(0, i)) <= count_loops(ast),
    decreases ast.len() - i,
{
    if i == ast.len() {
        assert(ast.subrange(0, i) =~= ast);
    } else {
        lemma_count_loops_prefix(ast, i + 1);
        assert(ast.subrange(0, i + 1).drop_last() =~= ast.subrange(0, i));
    }
}

/// A program has no more loops than nodes.
pub proof fn lemma_count_loops_bounded(ast: Seq<SpecAST>)
    ensures
        count_loops(ast) <= ast_size(ast),
    decreases ast,
{
    if ast.len() > 0 {
        lemma_count_loops_bounded(ast.drop_last());
        match ast.last() {
            SpecAST::Loop(body) => {
                lemma_count_loops_bounded(body);
            },
            _ => {},
        }
    }
}

/// The optimizer that transforms nothing.
pub struct SimpleOptimizer;

fn lower(ast: &[AST], lir: &mut LIRBuilder, loopnum: &mut u32)
    requires
        *old(loopnum) + count_loops(ast.deep_view()) <= u32::MAX,
    ensures
        final(lir)@ == old(lir)@ + simple_lower(ast.deep_view(), *old(loopnum) as nat),
        *final(loopnum) == *old(loopnum) + count_loops(ast.deep_view()),
    decreases ast@,
{
    let ghost all = ast.deep_view();
    let ghost n0 = *old(loopnum) as nat;
    let mut i: usize = 0;
    assert(all.subrange(0, 0) =~= Seq::<SpecAST>::empty());
    assert(lir@ =~= old(lir)@ + simple_lower(all.subrange(0, 0), n0));
    while i < ast.len()
        invariant
            i <= ast.len(),
            all == ast.deep_view(),
            n0 + count_loops(all) <= u32::MAX,
            lir@ == old(lir)@ + simple_lower(all.subrange(0, i as int), n0),
            *loopnum == n0 + count_loops(all.subrange(0, i as int)),
        decreases ast.len() - i,
    {
        let ghost before = lir@;
        let ghost prefix = all.subrange(0, i as int);
        let ghost next = all.subrange(0, i + 1);
        proof {
            lemma_count_loops_prefix(all, i + 1);
            assert(next.drop_last() =~= prefix);
            assert(next.last() == ast@[i as int].deep_view());
        }
        let ghost node = ast@[i as int].deep_view();
        let ghost nb = *loopnum as nat;
        match &ast[i] {
            AST::Output => {
                lir.mov(LVal::Buf(strbuf_name(), 0), RVal::Tape(0));
                lir.output(strbuf_name(), 0, 1);
                assert(lir@ =~= before + simple_output());
                assert(node == SpecAST::Output);
            },
            AST::Input => {
                lir.input(strbuf_name(), 0, 1);
                lir.mov(LVal::Tape(0), RVal::Buf(strbuf_name(), 0));
                assert(lir@ =~= before + simple_input());
                assert(node == SpecAST::Input);
            },
            AST::Loop(body) => {
                proof {
                    crate::parser::lemma_loop_view(*body);
                }
                *loopnum = *loopnum + 1;
                let ghost k = *loopnum as nat;
                lir.jp(endloop_label_name(*loopnum));
                lir.label(loop_label_name(*loopnum));
                let number = *loopnum;
                lower(body.as_slice(), lir, loopnum);
                lir.label(endloop_label_name(number));
                lir.jnz(RVal::Tape(0), loop_label_name(number));
                assert(lir@ =~= before + (loop_head(k) + simple_lower(body.deep_view(), k)
                    + loop_tail(k)));
                assert(node == SpecAST::Loop(body.deep_view()));
                assert(lir@ == before + simple_node(node, nb));
            },
            AST::Add(k) => {
                lir.add(LVal::Tape(0), RVal::Tape(0), RVal::Immediate(*k));
                assert(node == SpecAST::Add(*k));
                assert(lir@ =~= before + simple_node(node, nb));
            },
            AST::Shift(k) => {
                lir.shift(*k);
                assert(node == SpecAST::Shift(*k));
                assert(lir@ =~= before + simple_node(node, nb));
            },
        }
        i = i + 1;
        assert(lir@ == before + simple_node(node, nb));
        assert(simple_lower(next, n0) == simple_lower(prefix, n0) + simple_node(node, nb));
        assert(lir@ =~= old(lir)@ + simple_lower(next, n0));
    }
    assert(all.subrange(0, ast.len() as int) =~= all);
}

/// Lowers a program without transforming it.
pub fn optimize(ast: &[AST]) -> (lir: Vec<LIR>)
    requires
        count_loops(ast.deep_view()) <= u32::MAX,
    ensures
        lir.deep_view() == simple_lir(ast.deep_view()),
{
    let mut builder = LIRBuilder::new();
    builder.declare_bss_buf(strbuf_name(), 1);
    let mut loopnum: u32 = 0;
    lower(ast, &mut builder, &mut loopnum);
    builder.build()
}

} // verus!
