//! Lowering of the token form to low-level instructions.
//!
//! Every definition of a register takes a fresh register. Loops and scans
//! share one numbering, conditional blocks have their own. Output is
//! gathered in the buffer `strbuf`, which is declared at the end with the
//! size of the largest output, beside the one-byte buffer `inputbuf`.

use vstd::prelude::*;
use crate::lir::{
    endif_label, endif_label_name, endloop_label_name, inputbuf, inputbuf_name, loop_label_name,
    strbuf, strbuf_name, LIRBuilder, LVal, RVal, SpecLIR, SpecLVal, SpecRVal, LIR,
};
use crate::optimizer::peephole::token::{
    lemma_if_token_view, lemma_loop_token_view, token_count, SpecToken, Token,
};
use crate::optimizer::peephole::optimize::lemma_token_count_prefix;
use crate::optimizer::simple::{loop_head, loop_tail};

verus! {

/// The number of loops and scans of a token sequence, bodies included.
pub open spec fn loops_of(tokens: Seq<SpecToken>) -> nat
    decreases tokens, 1nat,
{
    if tokens.len() == 0 {
        0
    } else {
        loops_of(tokens.drop_last()) + loops_in(tokens.last())
    }
}

/// The number of loops and scans of one token.
pub open spec fn loops_in(token: SpecToken) -> nat
    decreases token, 0nat,
{
    match token {
        SpecToken::Loop(body) => 1 + loops_of(body),
        SpecToken::If(_, body) => loops_of(body),
        SpecToken::Scan(_) => 1,
        _ => 0,
    }
}

/// The number of conditional blocks of a token sequence, bodies included.
pub open spec fn ifs_of(tokens: Seq<SpecToken>) -> nat
    decreases tokens, 1nat,
{
    if tokens.len() == 0 {
        0
    } else {
        ifs_of(tokens.drop_last()) + ifs_in(tokens.last())
    }
}

/// The number of conditional blocks of one token.
pub open spec fn ifs_in(token: SpecToken) -> nat
    decreases token, 0nat,
{
    match token {
        SpecToken::Loop(body) => ifs_of(body),
        SpecToken::If(_, body) => 1 + ifs_of(body),
        _ => 0,
    }
}

/// The number of registers that a token sequence defines: one for each
/// multiply-copy and each load of a cell into the output buffer.
pub open spec fn regs_of(tokens: Seq<SpecToken>) -> nat
    decreases tokens, 1nat,
{
    if tokens.len() == 0 {
        0
    } else {
        regs_of(tokens.drop_last()) + regs_in(tokens.last())
    }
}

/// The number of registers that one token defines.
pub open spec fn regs_in(token: SpecToken) -> nat
    decreases token, 0nat,
{
    match token {
        SpecToken::Loop(body) => regs_of(body),
        SpecToken::If(_, body) => regs_of(body),
        SpecToken::MulCopy(_, _, _) => 1,
        SpecToken::LoadOut(_, _) => 1,
        _ => 0,
    }
}

/// The number of bytes in the output buffer after one more token: a load
/// adds a byte, an output empties the buffer.
pub open spec fn pos_after(pos: nat, token: SpecToken) -> nat {
    match token {
        SpecToken::LoadOut(_, _) => pos + 1,
        SpecToken::LoadOutSet(_) => pos + 1,
        SpecToken::Output => 0,
        _ => pos,
    }
}

/// The number of bytes in the output buffer after a token sequence: the
/// loads since the last output of its own level.
pub open spec fn out_pos(tokens: Seq<SpecToken>) -> nat
    decreases tokens.len(),
{
    if tokens.len() == 0 {
        0
    } else {
        pos_after(out_pos(tokens.drop_last()), tokens.last())
    }
}

pub open spec fn max_nat(a: nat, b: nat) -> nat {
    if a >= b {
        a
    } else {
        b
    }
}

/// The size that the output buffer needs for a token sequence: one more
/// than the largest number of bytes that any output writes; zero without an
/// output.
pub open spec fn out_size(tokens: Seq<SpecToken>) -> nat
    decreases tokens, 1nat,
{
    if tokens.len() == 0 {
        0
    } else {
        max_nat(
            out_size(tokens.drop_last()),
            out_size_in(tokens.last(), out_pos(tokens.drop_last())),
        )
    }
}

/// The size that the output buffer needs for one token, with `pos` bytes in
/// the buffer before it.
pub open spec fn out_size_in(token: SpecToken, pos: nat) -> nat
    decreases token, 0nat,
{
    match token {
        SpecToken::Loop(body) => out_size(body),
        SpecToken::If(_, body) => out_size(body),
        SpecToken::Output => pos + 1,
        _ => 0,
    }
}

/// The number of tokens of one token: itself and its body.
pub open spec fn token_size(token: SpecToken) -> nat {
    1 + match token {
        SpecToken::Loop(body) => token_count(body),
        SpecToken::If(_, body) => token_count(body),
        _ => 0,
    }
}

/// The numbers given out so far: to loops and scans, to conditional blocks,
/// and to registers.
pub struct SpecCounters {
    pub loops: nat,
    pub ifs: nat,
    pub regs: nat,
}

/// The counters after a token sequence.
pub open spec fn counters_after(c: SpecCounters, tokens: Seq<SpecToken>) -> SpecCounters {
    SpecCounters {
        loops: c.loops + loops_of(tokens),
        ifs: c.ifs + ifs_of(tokens),
        regs: c.regs + regs_of(tokens),
    }
}

/// The counters after one token.
pub open spec fn counters_after_token(c: SpecCounters, token: SpecToken) -> SpecCounters {
    SpecCounters {
        loops: c.loops + loops_in(token),
        ifs: c.ifs + ifs_in(token),
        regs: c.regs + regs_in(token),
    }
}

/// The instructions of a token sequence, with the counters as they stand
/// before it.
pub open spec fn lower_tokens(tokens: Seq<SpecToken>, c: SpecCounters) -> Seq<SpecLIR>
    decreases tokens, 1nat,
{
    if tokens.len() == 0 {
        Seq::empty()
    } else {
        lower_tokens(tokens.drop_last(), c) + lower_token(
            tokens.last(),
            counters_after(c, tokens.drop_last()),
            out_pos(tokens.drop_last()),
        )
    }
}

/// The instructions of one token, with the counters as they stand before
/// it and `pos` bytes in the output buffer.
pub open spec fn lower_token(token: SpecToken, c: SpecCounters, pos: nat) -> Seq<SpecLIR>
    decreases token, 0nat,
{
    match token {
        SpecToken::Add(o, v) => seq![
            SpecLIR::Add(SpecLVal::Tape(o), SpecRVal::Tape(o), SpecRVal::Immediate(v)),
        ],
        SpecToken::MulCopy(src, dest, mul) => seq![
            SpecLIR::Mul(
                SpecLVal::Reg(c.regs as u32),
                SpecRVal::Tape(src),
                SpecRVal::Immediate(mul),
            ),
            SpecLIR::Add(
                SpecLVal::Tape(dest),
                SpecRVal::Tape(dest),
                SpecRVal::Reg(c.regs as u32),
            ),
        ],
        SpecToken::Assign(o, v) => seq![SpecLIR::Mov(SpecLVal::Tape(o), SpecRVal::Immediate(v))],
        SpecToken::Move(k) => seq![SpecLIR::Shift(k)],
        SpecToken::Loop(body) => loop_head(c.loops + 1) + lower_tokens(
            body,
            SpecCounters { loops: c.loops + 1, ..c },
        ) + loop_tail(c.loops + 1),
        SpecToken::If(o, body) => seq![SpecLIR::Jz(SpecRVal::Tape(o), endif_label(c.ifs + 1))]
            + lower_tokens(body, SpecCounters { ifs: c.ifs + 1, ..c }) + seq![
            SpecLIR::Label(endif_label(c.ifs + 1)),
        ],
        SpecToken::Scan(k) => loop_head(c.loops + 1) + seq![SpecLIR::Shift(k)] + loop_tail(
            c.loops + 1,
        ),
        SpecToken::Input => seq![
            SpecLIR::Input(inputbuf(), 0, 1),
            SpecLIR::Mov(SpecLVal::Tape(0), SpecRVal::Buf(inputbuf(), 0)),
        ],
        SpecToken::LoadOut(o, a) => seq![
            SpecLIR::Add(
                SpecLVal::Reg(c.regs as u32),
                SpecRVal::Tape(o),
                SpecRVal::Immediate(a),
            ),
            SpecLIR::Mov(SpecLVal::Buf(strbuf(), pos as usize), SpecRVal::Reg(c.regs as u32)),
        ],
        SpecToken::LoadOutSet(v) => seq![
            SpecLIR::Mov(SpecLVal::Buf(strbuf(), pos as usize), SpecRVal::Immediate(v)),
        ],
        SpecToken::Output => seq![SpecLIR::Output(strbuf(), 0, pos as usize)],
    }
}

/// The counters before the first token.
pub open spec fn no_counters() -> SpecCounters {
    SpecCounters { loops: 0, ifs: 0, regs: 0 }
}

/// The instruction list of a token sequence: its instructions, then the
/// declarations of the output buffer and of the input buffer.
pub open spec fn compiled(tokens: Seq<SpecToken>) -> Seq<SpecLIR> {
    lower_tokens(tokens, no_counters()) + seq![
        SpecLIR::DeclareBssBuf(strbuf(), out_size(tokens) as usize),
        SpecLIR::DeclareBssBuf(inputbuf(), 1),
    ]
}

/// No count of a token sequence exceeds the number of its tokens.
pub proof fn lemma_counts_bounded(tokens: Seq<SpecToken>)
    ensures
        loops_of(tokens) <= token_count(tokens),
        ifs_of(tokens) <= token_count(tokens),
        regs_of(tokens) <= token_count(tokens),
        out_pos(tokens) <= token_count(tokens),
        out_size(tokens) <= token_count(tokens),
    decreases tokens,
{
    if tokens.len() > 0 {
        let last = tokens.last();
        lemma_counts_bounded(tokens.drop_last());
        match last {
            SpecToken::Loop(body) => {
                lemma_counts_bounded(body);
            },
            SpecToken::If(_, body) => {
                lemma_counts_bounded(body);
            },
            _ => {},
        }
        assert(loops_in(last) <= token_size(last));
        assert(ifs_in(last) <= token_size(last));
        assert(regs_in(last) <= token_size(last));
        assert(out_size_in(last, out_pos(tokens.drop_last())) <= token_count(tokens));
    }
}

struct CompileState {
    lir: LIRBuilder,
    loopnum: u32,
    ifnum: u32,
    outbuffsize: usize,
    regnum: u32,
}

impl CompileState {
    spec fn counters(&self) -> SpecCounters {
        SpecCounters {
            loops: self.loopnum as nat,
            ifs: self.ifnum as nat,
            regs: self.regnum as nat,
        }
    }

    /// Whether every counter leaves room for `n` more numbers.
    spec fn has_room(&self, n: nat) -> bool {
        &&& self.loopnum + n <= u32::MAX
        &&& self.ifnum + n <= u32::MAX
        &&& self.regnum + n <= u32::MAX
    }

    /// A register that no instruction has defined yet.
    fn reg(&mut self) -> (r: u32)
        requires
            old(self).regnum < u32::MAX,
        ensures
            r == old(self).regnum,
            final(self).regnum == old(self).regnum + 1,
            final(self).lir == old(self).lir,
            final(self).loopnum == old(self).loopnum,
            final(self).ifnum == old(self).ifnum,
            final(self).outbuffsize == old(self).outbuffsize,
    {
        let r = self.regnum;
        self.regnum = self.regnum + 1;
        r
    }
}

fn compile_iter(state: &mut CompileState, tokens: &[Token])
    requires
        old(state).has_room(token_count(tokens.deep_view())),
    ensures
        final(state).lir@ == old(state).lir@ + lower_tokens(
            tokens.deep_view(),
            old(state).counters(),
        ),
        final(state).counters() == counters_after(old(state).counters(), tokens.deep_view()),
        final(state).outbuffsize == max_nat(
            old(state).outbuffsize as nat,
            out_size(tokens.deep_view()),
        ),
    decreases tokens@, 1nat,
{
    let ghost all = tokens.deep_view();
    let ghost c0 = old(state).counters();
    let ghost size0 = old(state).outbuffsize as nat;
    let ghost lir0 = old(state).lir@;
    let mut outbuffpos: usize = 0;
    let mut i: usize = 0;
    assert(all.subrange(0, 0) =~= Seq::<SpecToken>::empty());
    assert(state.lir@ =~= lir0 + lower_tokens(all.subrange(0, 0), c0));
    while i < tokens.len()
        invariant
            i <= tokens.len(),
            all == tokens.deep_view(),
            c0.loops + token_count(all) <= u32::MAX,
            c0.ifs + token_count(all) <= u32::MAX,
            c0.regs + token_count(all) <= u32::MAX,
            state.lir@ == lir0 + lower_tokens(all.subrange(0, i as int), c0),
            state.counters() == counters_after(c0, all.subrange(0, i as int)),
            outbuffpos == out_pos(all.subrange(0, i as int)),
            state.outbuffsize == max_nat(size0, out_size(all.subrange(0, i as int))),
        decreases tokens.len() - i,
    {
        let ghost before = state.lir@;
        let ghost prefix = all.subrange(0, i as int);
        let ghost next = all.subrange(0, i + 1);
        let ghost node = tokens@[i as int].deep_view();
        let ghost c = state.counters();
        let ghost pos = outbuffpos as nat;
        proof {
            lemma_token_count_prefix(all, i + 1);
            lemma_counts_bounded(prefix);
            assert(next.drop_last() =~= prefix);
            assert(next.last() == node);
            assert(token_count(next) == token_count(prefix) + token_size(node));
        }
        compile_token(state, &tokens[i], &mut outbuffpos);
        i = i + 1;
        assert(lower_tokens(next, c0) == lower_tokens(prefix, c0) + lower_token(node, c, pos));
        assert(state.lir@ =~= lir0 + lower_tokens(next, c0));
    }
    assert(all.subrange(0, tokens.len() as int) =~= all);
}

fn compile_token(state: &mut CompileState, token: &Token, outbuffpos: &mut usize)
    requires
        old(state).has_room(token_size(token.deep_view())),
        *old(outbuffpos) < u32::MAX,
    ensures
        final(state).lir@ == old(state).lir@ + lower_token(
            token.deep_view(),
            old(state).counters(),
            *old(outbuffpos) as nat,
        ),
        final(state).counters() == counters_after_token(
            old(state).counters(),
            token.deep_view(),
        ),
        *final(outbuffpos) == pos_after(*old(outbuffpos) as nat, token.deep_view()),
        final(state).outbuffsize == max_nat(
            old(state).outbuffsize as nat,
            out_size_in(token.deep_view(), *old(outbuffpos) as nat),
        ),
    decreases token, 0nat,
{
    let ghost before = state.lir@;
    let ghost node = token.deep_view();
    let ghost c = state.counters();
    let ghost pos = *outbuffpos as nat;
    match token {
        Token::Add(offset, value) => {
            state.lir.add(LVal::Tape(*offset), RVal::Tape(*offset), RVal::Immediate(*value));
            assert(node == SpecToken::Add(*offset, *value));
            assert(state.lir@ =~= before + lower_token(node, c, pos));
        },
        Token::MulCopy(src, dest, mul) => {
            let reg = state.reg();
            state.lir.mul(LVal::Reg(reg), RVal::Tape(*src), RVal::Immediate(*mul));
            state.lir.add(LVal::Tape(*dest), RVal::Tape(*dest), RVal::Reg(reg));
            assert(node == SpecToken::MulCopy(*src, *dest, *mul));
            assert(state.lir@ =~= before + lower_token(node, c, pos));
        },
        Token::Assign(offset, value) => {
            state.lir.mov(LVal::Tape(*offset), RVal::Immediate(*value));
            assert(node == SpecToken::Assign(*offset, *value));
            assert(state.lir@ =~= before + lower_token(node, c, pos));
        },
        Token::Move(offset) => {
            state.lir.shift(*offset);
            assert(node == SpecToken::Move(*offset));
            assert(state.lir@ =~= before + lower_token(node, c, pos));
        },
        Token::Loop(content) => {
            proof {
                lemma_loop_token_view(*content);
            }
            assert(node == SpecToken::Loop(content.deep_view()));
            state.loopnum = state.loopnum + 1;
            let number = state.loopnum;
            state.lir.jp(endloop_label_name(number));
            state.lir.label(loop_label_name(number));
            compile_iter(state, content.as_slice());
            state.lir.label(endloop_label_name(number));
            state.lir.jnz(RVal::Tape(0), loop_label_name(number));
            assert(state.lir@ =~= before + (loop_head(c.loops + 1) + lower_tokens(
                content.deep_view(),
                SpecCounters { loops: c.loops + 1, ..c },
            ) + loop_tail(c.loops + 1)));
        },
        Token::If(offset, content) => {
            proof {
                lemma_if_token_view(*offset, *content);
            }
            assert(node == SpecToken::If(*offset, content.deep_view()));
            state.ifnum = state.ifnum + 1;
            let number = state.ifnum;
            state.lir.jz(RVal::Tape(*offset), endif_label_name(number));
            compile_iter(state, content.as_slice());
            state.lir.label(endif_label_name(number));
            assert(state.lir@ =~= before + (seq![
                SpecLIR::Jz(SpecRVal::Tape(*offset), endif_label(c.ifs + 1)),
            ] + lower_tokens(content.deep_view(), SpecCounters { ifs: c.ifs + 1, ..c }) + seq![
                SpecLIR::Label(endif_label(c.ifs + 1)),
            ]));
        },
        Token::Scan(offset) => {
            assert(node == SpecToken::Scan(*offset));
            state.loopnum = state.loopnum + 1;
            let number = state.loopnum;
            state.lir.jp(endloop_label_name(number));
            state.lir.label(loop_label_name(number));
            state.lir.shift(*offset);
            state.lir.label(endloop_label_name(number));
            state.lir.jnz(RVal::Tape(0), loop_label_name(number));
            assert(state.lir@ =~= before + lower_token(node, c, pos));
        },
        Token::Input => {
            state.lir.input(inputbuf_name(), 0, 1);
            state.lir.mov(LVal::Tape(0), RVal::Buf(inputbuf_name(), 0));
            assert(node == SpecToken::Input);
            assert(state.lir@ =~= before + lower_token(node, c, pos));
        },
        Token::LoadOut(offset, addend) => {
            let reg = state.reg();
            state.lir.add(LVal::Reg(reg), RVal::Tape(*offset), RVal::Immediate(*addend));
            state.lir.mov(LVal::Buf(strbuf_name(), *outbuffpos), RVal::Reg(reg));
            *outbuffpos = *outbuffpos + 1;
            assert(node == SpecToken::LoadOut(*offset, *addend));
            assert(state.lir@ =~= before + lower_token(node, c, pos));
        },
        Token::LoadOutSet(value) => {
            state.lir.mov(LVal::Buf(strbuf_name(), *outbuffpos), RVal::Immediate(*value));
            *outbuffpos = *outbuffpos + 1;
            assert(node == SpecToken::LoadOutSet(*value));
            assert(state.lir@ =~= before + lower_token(node, c, pos));
        },
        Token::Output => {
            state.lir.output(strbuf_name(), 0, *outbuffpos);
            if state.outbuffsize < *outbuffpos + 1 {
                state.outbuffsize = *outbuffpos + 1;
            }
            *outbuffpos = 0;
            assert(node == SpecToken::Output);
            assert(state.lir@ =~= before + lower_token(node, c, pos));
        },
    }
}

/// The instruction list of a token sequence.
pub fn compile(tokens: &[Token]) -> (lir: Vec<LIR>)
    requires
        token_count(tokens.deep_view()) <= u32::MAX,
    ensures
        lir.deep_view() == compiled(tokens.deep_view()),
{
    let mut state = CompileState {
        lir: LIRBuilder::new(),
        loopnum: 0,
        ifnum: 0,
        outbuffsize: 0,
        regnum: 0,
    };
    compile_iter(&mut state, tokens);
    let size = state.outbuffsize;
    state.lir.declare_bss_buf(strbuf_name(), size);
    state.lir.declare_bss_buf(inputbuf_name(), 1);
    assert(state.lir@ =~= compiled(tokens.deep_view()));
    state.lir.build()
}

} // verus!
