//! The native backend of the instruction list: symbolic x86_64 assembly.
//!
//! The backend renders the control flow of a program: labels, jumps, and
//! the buffers in `.bss`. An instruction that computes or transfers data
//! has no rendering yet and leaves no line.

use vstd::prelude::*;
use vstd::string::*;
use crate::codegen::c_codegen::{bufs_view, declare_buf, declared_bufs};
use crate::lir::{SpecLIR, LIR};
use crate::text::{append_decimal, decimal};

verus! {

/// A general register of the x86_64.
#[derive(Clone, Copy, Debug, PartialEq, Eq, Structural)]
pub enum Reg {
    RAX,
    RCX,
    RDX,
    RBX,
    RSP,
    RBP,
    RSI,
    RDI,
    R8,
    R9,
    R10,
    R11,
    R12,
    R13,
    R14,
    R15,
}

/// The name of a register in assembly.
pub open spec fn reg_text(reg: Reg) -> Seq<char> {
    match reg {
        Reg::RAX => "%rax"@,
        Reg::RCX => "%rcx"@,
        Reg::RDX => "%rdx"@,
        Reg::RBX => "%rbx"@,
        Reg::RSP => "%rsp"@,
        Reg::RBP => "%rbp"@,
        Reg::RSI => "%rsi"@,
        Reg::RDI => "%rdi"@,
        Reg::R8 => "%r8"@,
        Reg::R9 => "%r9"@,
        Reg::R10 => "%r10"@,
        Reg::R11 => "%r11"@,
        Reg::R12 => "%r12"@,
        Reg::R13 => "%r13"@,
        Reg::R14 => "%r14"@,
        Reg::R15 => "%r15"@,
    }
}

impl Reg {
    /// The name of the register in assembly.
    pub fn name(self) -> (text: &'static str)
        ensures
            text@ == reg_text(self),
    {
        match self {
            Reg::RAX => "%rax",
            Reg::RCX => "%rcx",
            Reg::RDX => "%rdx",
            Reg::RBX => "%rbx",
            Reg::RSP => "%rsp",
            Reg::RBP => "%rbp",
            Reg::RSI => "%rsi",
            Reg::RDI => "%rdi",
            Reg::R8 => "%r8",
            Reg::R9 => "%r9",
            Reg::R10 => "%r10",
            Reg::R11 => "%r11",
            Reg::R12 => "%r12",
            Reg::R13 => "%r13",
            Reg::R14 => "%r14",
            Reg::R15 => "%r15",
        }
    }
}

/// One assembly instruction, or a label.
#[derive(Debug, PartialEq, Eq)]
pub enum Instr {
    Movq,
    Xor,
    Int(usize),
    Syscall,
    Subb,
    Addb,
    Cmp,
    Jnz(String),
    Jz(String),
    Jmp(String),
    Test,
    Cmpq,
    Mulq,
    Dec,
    Inc,
    Label(String),
}

/// The mathematical value of an [`Instr`].
pub enum SpecInstr {
    Movq,
    Xor,
    Int(usize),
    Syscall,
    Subb,
    Addb,
    Cmp,
    Jnz(Seq<char>),
    Jz(Seq<char>),
    Jmp(Seq<char>),
    Test,
    Cmpq,
    Mulq,
    Dec,
    Inc,
    Label(Seq<char>),
}

impl View for Instr {
    type V = SpecInstr;

    open spec fn view(&self) -> SpecInstr {
        match *self {
            Instr::Movq => SpecInstr::Movq,
            Instr::Xor => SpecInstr::Xor,
            Instr::Int(n) => SpecInstr::Int(n),
            Instr::Syscall => SpecInstr::Syscall,
            Instr::Subb => SpecInstr::Subb,
            Instr::Addb => SpecInstr::Addb,
            Instr::Cmp => SpecInstr::Cmp,
            Instr::Jnz(l) => SpecInstr::Jnz(l@),
            Instr::Jz(l) => SpecInstr::Jz(l@),
            Instr::Jmp(l) => SpecInstr::Jmp(l@),
            Instr::Test => SpecInstr::Test,
            Instr::Cmpq => SpecInstr::Cmpq,
            Instr::Mulq => SpecInstr::Mulq,
            Instr::Dec => SpecInstr::Dec,
            Instr::Inc => SpecInstr::Inc,
            Instr::Label(l) => SpecInstr::Label(l@),
        }
    }
}

impl DeepView for Instr {
    type V = SpecInstr;

    open spec fn deep_view(&self) -> SpecInstr {
        self@
    }
}

/// The text of an instruction. An instruction whose operands are not
/// rendered yet has none.
pub open spec fn instr_text(instr: SpecInstr) -> Seq<char> {
    match instr {
        SpecInstr::Int(num) => "int $"@ + decimal(num as nat),
        SpecInstr::Syscall => "syscall"@,
        SpecInstr::Jnz(label) => "jnz "@ + label,
        SpecInstr::Jz(label) => "jz "@ + label,
        SpecInstr::Jmp(label) => "jmp "@ + label,
        SpecInstr::Label(label) => label + ":"@,
        _ => Seq::empty(),
    }
}

/// The assembly instructions of one instruction of the list.
pub open spec fn instrs_of(instr: SpecLIR) -> Seq<SpecInstr> {
    match instr {
        SpecLIR::Label(label) => seq![SpecInstr::Label(label)],
        SpecLIR::Jp(label) => seq![SpecInstr::Jmp(label)],
        SpecLIR::Jz(_, label) => seq![SpecInstr::Jz(label)],
        SpecLIR::Jnz(_, label) => seq![SpecInstr::Jnz(label)],
        _ => Seq::empty(),
    }
}

/// The assembly instructions of the first `n` instructions of the list.
pub open spec fn instrs_upto(lir: Seq<SpecLIR>, n: int) -> Seq<SpecInstr>
    decreases n,
{
    if n <= 0 {
        Seq::empty()
    } else {
        instrs_upto(lir, n - 1) + instrs_of(lir[n - 1])
    }
}

/// The lines of the first `n` assembly instructions.
pub open spec fn text_upto(instrs: Seq<SpecInstr>, n: int) -> Seq<char>
    decreases n,
{
    if n <= 0 {
        Seq::empty()
    } else {
        text_upto(instrs, n - 1) + instr_text(instrs[n - 1]) + "\n"@
    }
}

/// The lines that reserve the first `n` buffers.
pub open spec fn lcomm_upto(bufs: Seq<(Seq<char>, usize)>, n: int) -> Seq<char>
    decreases n,
{
    if n <= 0 {
        Seq::empty()
    } else {
        lcomm_upto(bufs, n - 1) + ".lcomm "@ + bufs[n - 1].0 + ", "@ + decimal(bufs[n - 1].1 as nat)
            + "\n"@
    }
}

/// The assembly text of an instruction list.
pub open spec fn native_program(lir: Seq<SpecLIR>) -> Seq<char> {
    let instrs = instrs_upto(lir, lir.len() as int);
    let bufs = declared_bufs(lir, lir.len() as int);
    ".section .text\n.global _start\n_start:\n"@ + text_upto(instrs, instrs.len() as int)
        + ".section .bss\n"@ + lcomm_upto(bufs, bufs.len() as int)
}

impl Instr {
    /// The text of the instruction.
    pub fn text(&self) -> (s: String)
        ensures
            s@ == instr_text(self@),
    {
        let mut s = String::new();
        match self {
            Instr::Int(num) => {
                s.append("int $");
                append_decimal(&mut s, *num as u64);
            },
            Instr::Syscall => {
                s.append("syscall");
            },
            Instr::Jnz(label) => {
                s.append("jnz ");
                s.append(label.as_str());
            },
            Instr::Jz(label) => {
                s.append("jz ");
                s.append(label.as_str());
            },
            Instr::Jmp(label) => {
                s.append("jmp ");
                s.append(label.as_str());
            },
            Instr::Label(label) => {
                s.append(label.as_str());
                s.append(":");
            },
            _ => {},
        }
        assert(s@ =~= instr_text(self@));
        s
    }
}

/// The assembly instructions of an instruction list; the buffers that the
/// list declares are taken into `bss_bufs`.
pub fn lir_to_instrs(lir: &[LIR], bss_bufs: &mut Vec<(String, usize)>) -> (instrs: Vec<Instr>)
    requires
        old(bss_bufs)@.len() == 0,
    ensures
        instrs.deep_view() == instrs_upto(lir.deep_view(), lir.len() as int),
        bufs_view(final(bss_bufs)@) == declared_bufs(lir.deep_view(), lir.len() as int),
{
    let ghost all = lir.deep_view();
    let mut instrs: Vec<Instr> = Vec::new();
    let mut i: usize = 0;
    assert(instrs.deep_view() =~= instrs_upto(all, 0));
    assert(bufs_view(bss_bufs@) =~= declared_bufs(all, 0));
    while i < lir.len()
        invariant
            i <= lir.len(),
            all == lir.deep_view(),
            instrs.deep_view() == instrs_upto(all, i as int),
            bufs_view(bss_bufs@) == declared_bufs(all, i as int),
        decreases lir.len() - i,
    {
        let ghost before = instrs.deep_view();
        assert(all[i as int] == lir@[i as int]@);
        match &lir[i] {
            LIR::Label(label) => {
                instrs.push(Instr::Label(label.clone()));
                assert(instrs.deep_view() =~= before + instrs_of(all[i as int]));
            },
            LIR::Jp(label) => {
                instrs.push(Instr::Jmp(label.clone()));
                assert(instrs.deep_view() =~= before + instrs_of(all[i as int]));
            },
            LIR::Jz(_, label) => {
                instrs.push(Instr::Jz(label.clone()));
                assert(instrs.deep_view() =~= before + instrs_of(all[i as int]));
            },
            LIR::Jnz(_, label) => {
                instrs.push(Instr::Jnz(label.clone()));
                assert(instrs.deep_view() =~= before + instrs_of(all[i as int]));
            },
            LIR::DeclareBssBuf(buffer, len) => {
                declare_buf(bss_bufs, buffer, *len);
                assert(instrs.deep_view() =~= before + instrs_of(all[i as int]));
            },
            _ => {
                assert(instrs.deep_view() =~= before + instrs_of(all[i as int]));
            },
        }
        i = i + 1;
    }
    instrs
}

/// The assembly text of an instruction list.
pub fn codegen(lir: &[LIR]) -> (output: String)
    ensures
        output@ == native_program(lir.deep_view()),
{
    let mut output = String::from_str(".section .text\n.global _start\n_start:\n");
    let mut bss_bufs: Vec<(String, usize)> = Vec::new();
    let instrs = lir_to_instrs(lir, &mut bss_bufs);
    let ghost head = output@;
    let ghost all = instrs.deep_view();
    let mut i: usize = 0;
    assert(output@ =~= head + text_upto(all, 0));
    while i < instrs.len()
        invariant
            i <= instrs.len(),
            all == instrs.deep_view(),
            output@ == head + text_upto(all, i as int),
        decreases instrs.len() - i,
    {
        assert(all[i as int] == instrs@[i as int]@);
        let text = instrs[i].text();
        output.append(text.as_str());
        output.append("\n");
        i = i + 1;
        assert(output@ =~= head + text_upto(all, i as int));
    }
    output.append(".section .bss\n");
    let ghost middle = output@;
    let ghost bufs = bufs_view(bss_bufs@);
    let mut j: usize = 0;
    assert(output@ =~= middle + lcomm_upto(bufs, 0));
    while j < bss_bufs.len()
        invariant
            j <= bss_bufs@.len(),
            bufs == bufs_view(bss_bufs@),
            output@ == middle + lcomm_upto(bufs, j as int),
        decreases bss_bufs@.len() - j,
    {
        assert(bufs[j as int] == (bss_bufs@[j as int].0@, bss_bufs@[j as int].1));
        output.append(".lcomm ");
        output.append(bss_bufs[j].0.as_str());
        output.append(", ");
        append_decimal(&mut output, bss_bufs[j].1 as u64);
        output.append("\n");
        j = j + 1;
        assert(output@ =~= middle + lcomm_upto(bufs, j as int));
    }
    assert(output@ =~= native_program(lir.deep_view()));
    output
}

} // verus!
