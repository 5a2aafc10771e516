//! The C backend: one or two statements for each instruction.
//!
//! The program declares the tape with the configured cell type, the cursor
//! in the middle of the tape, and one `char` array for each declared
//! buffer, in the order in which the buffers were first declared. A
//! register becomes a constant that is declared where it is defined, which
//! is sound because every register is defined once.

use vstd::prelude::*;
use vstd::string::*;
use crate::lir::{LVal, RVal, SpecLIR, SpecLVal, SpecRVal, LIR};
use crate::text::{append_decimal, append_signed_decimal, decimal, signed_decimal};

verus! {

/// The type of a tape cell.
#[derive(Clone, Copy, Debug, PartialEq, Eq, Structural)]
pub enum CellType {
    U8,
    U16,
    U32,
    U64,
}

/// The name of a cell type in C.
pub open spec fn c_name_text(cell: CellType) -> Seq<char> {
    match cell {
        CellType::U8 => "uint8_t"@,
        CellType::U16 => "uint16_t"@,
        CellType::U32 => "uint32_t"@,
        CellType::U64 => "uint64_t"@,
    }
}

impl CellType {
    /// The name of the type in C.
    pub fn c_name(self) -> (name: &'static str)
        ensures
            name@ == c_name_text(self),
    {
        match self {
            CellType::U8 => "uint8_t",
            CellType::U16 => "uint16_t",
            CellType::U32 => "uint32_t",
            CellType::U64 => "uint64_t",
        }
    }
}

/// The C text of a tape cell at an offset from the cursor.
pub open spec fn tape_c(offset: i32) -> Seq<char> {
    "tape[cursor + "@ + signed_decimal(offset as int) + "]"@
}

/// The C text of a byte of a buffer.
pub open spec fn buf_c(name: Seq<char>, index: usize) -> Seq<char> {
    name + "["@ + decimal(index as nat) + "]"@
}

/// The C text of a location that is written: a register is declared where
/// it is written.
pub open spec fn lval_c(val: SpecLVal, cell: CellType) -> Seq<char> {
    match val {
        SpecLVal::Reg(reg) => "const "@ + c_name_text(cell) + " r"@ + decimal(reg as nat),
        SpecLVal::Tape(offset) => tape_c(offset),
        SpecLVal::Buf(name, index) => buf_c(name, index),
    }
}

/// The C text of a value that is read.
pub open spec fn rval_c(val: SpecRVal) -> Seq<char> {
    match val {
        SpecRVal::Reg(reg) => "r"@ + decimal(reg as nat),
        SpecRVal::Tape(offset) => tape_c(offset),
        SpecRVal::Buf(name, index) => buf_c(name, index),
        SpecRVal::Immediate(value) => signed_decimal(value as int),
    }
}

/// The C text of an operation on two values.
pub open spec fn binary_c(dest: SpecLVal, a: SpecRVal, op: Seq<char>, b: SpecRVal, cell: CellType)
    -> Seq<char> {
    lval_c(dest, cell) + " = "@ + rval_c(a) + op + rval_c(b) + ";\n"@
}

/// The C text of a jump that is taken when `comparand` compares to zero as
/// `op` says.
pub open spec fn branch_c(comparand: SpecRVal, op: Seq<char>, label: Seq<char>) -> Seq<char> {
    "if ("@ + rval_c(comparand) + op + "0) { goto "@ + label + "; }\n"@
}

/// The C text of a read or a write of `len` bytes of a buffer.
pub open spec fn transfer_c(
    call: Seq<char>,
    name: Seq<char>,
    offset: usize,
    len: usize,
    stream: Seq<char>,
) -> Seq<char> {
    call + name + "+"@ + decimal(offset as nat) + ", 1, "@ + decimal(len as nat) + stream
}

/// The C statements of one instruction. The declaration of a buffer has
/// none: the buffers are declared before `main`.
pub open spec fn instr_c(instr: SpecLIR, cell: CellType) -> Seq<char> {
    match instr {
        SpecLIR::Shift(shift) => "cursor += "@ + signed_decimal(shift as int) + ";\n"@,
        SpecLIR::Mul(dest, a, b) => binary_c(dest, a, " * "@, b, cell),
        SpecLIR::Add(dest, a, b) => binary_c(dest, a, " + "@, b, cell),
        SpecLIR::Sub(dest, a, b) => binary_c(dest, a, " - "@, b, cell),
        SpecLIR::Mov(dest, src) => lval_c(dest, cell) + " = "@ + rval_c(src) + ";\n"@,
        SpecLIR::Label(label) => label + ": ;\n"@,
        SpecLIR::Jp(label) => "goto "@ + label + ";\n"@,
        SpecLIR::Jz(comparand, label) => branch_c(comparand, " == "@, label),
        SpecLIR::Jnz(comparand, label) => branch_c(comparand, " != "@, label),
        SpecLIR::DeclareBssBuf(_, _) => Seq::empty(),
        SpecLIR::Input(name, offset, len) => transfer_c(
            "fread("@,
            name,
            offset,
            len,
            ", stdin);\n"@,
        ),
        SpecLIR::Output(name, offset, len) => transfer_c(
            "fwrite("@,
            name,
            offset,
            len,
            ", stdout);\n"@,
        ),
    }
}

/// The C statements of the first `n` instructions.
pub open spec fn body_c(lir: Seq<SpecLIR>, n: int, cell: CellType) -> Seq<char>
    decreases n,
{
    if n <= 0 {
        Seq::empty()
    } else {
        body_c(lir, n - 1, cell) + instr_c(lir[n - 1], cell)
    }
}

/// The first index at or after `i` of a buffer named `name`; the number of
/// buffers if there is none.
pub open spec fn find_buf(bufs: Seq<(Seq<char>, usize)>, name: Seq<char>, i: int) -> int
    decreases bufs.len() - i,
{
    if i < 0 || i >= bufs.len() || bufs[i].0 == name {
        i
    } else {
        find_buf(bufs, name, i + 1)
    }
}

/// The buffers with one more declaration: a buffer that is declared again
/// keeps its place and takes the new size.
pub open spec fn with_buf(bufs: Seq<(Seq<char>, usize)>, name: Seq<char>, len: usize) -> Seq<
    (Seq<char>, usize),
> {
    let k = find_buf(bufs, name, 0);
    if k < bufs.len() {
        bufs.update(k, (name, len))
    } else {
        bufs.push((name, len))
    }
}

/// The buffers that the first `n` instructions declare, in the order of
/// their first declaration.
pub open spec fn declared_bufs(lir: Seq<SpecLIR>, n: int) -> Seq<(Seq<char>, usize)>
    decreases n,
{
    if n <= 0 {
        Seq::empty()
    } else {
        match lir[n - 1] {
            SpecLIR::DeclareBssBuf(name, len) => with_buf(declared_bufs(lir, n - 1), name, len),
            _ => declared_bufs(lir, n - 1),
        }
    }
}

/// The C declarations of the first `n` buffers.
pub open spec fn bss_c(bufs: Seq<(Seq<char>, usize)>, n: int) -> Seq<char>
    decreases n,
{
    if n <= 0 {
        Seq::empty()
    } else {
        bss_c(bufs, n - 1) + "char "@ + bufs[n - 1].0 + "["@ + decimal(bufs[n - 1].1 as nat)
            + "];\n"@
    }
}

/// Half of the tape size, rounded towards zero: where the cursor begins.
pub open spec fn half(tape_size: i32) -> int {
    if tape_size >= 0 {
        tape_size / 2
    } else {
        -((-tape_size) / 2)
    }
}

/// The C program of an instruction list.
pub open spec fn c_program(lir: Seq<SpecLIR>, cell: CellType, tape_size: i32) -> Seq<char> {
    "#include <stdint.h>\n#include <stdio.h>\n"@ + c_name_text(cell) + " tape["@ + signed_decimal(
        tape_size as int,
    ) + "];\nsize_t cursor = "@ + signed_decimal(half(tape_size)) + ";\n"@ + bss_c(
        declared_bufs(lir, lir.len() as int),
        declared_bufs(lir, lir.len() as int).len() as int,
    ) + "\nint main() {\n"@ + body_c(lir, lir.len() as int, cell) + "\n}\n"@
}

fn append_tape(s: &mut String, offset: i32)
    ensures
        final(s)@ == old(s)@ + tape_c(offset),
{
    s.append("tape[cursor + ");
    append_signed_decimal(s, offset as i64);
    s.append("]");
    assert(s@ =~= old(s)@ + tape_c(offset));
}

fn append_buf(s: &mut String, name: &String, index: usize)
    ensures
        final(s)@ == old(s)@ + buf_c(name@, index),
{
    s.append(name.as_str());
    s.append("[");
    append_decimal(s, index as u64);
    s.append("]");
    assert(s@ =~= old(s)@ + buf_c(name@, index));
}

fn lval_to_c(s: &mut String, val: &LVal, cell: CellType)
    ensures
        final(s)@ == old(s)@ + lval_c(val@, cell),
{
    match val {
        LVal::Reg(reg) => {
            s.append("const ");
            s.append(cell.c_name());
            s.append(" r");
            append_decimal(s, *reg as u64);
            assert(s@ =~= old(s)@ + lval_c(val@, cell));
        },
        LVal::Tape(offset) => {
            append_tape(s, *offset);
        },
        LVal::Buf(name, index) => {
            append_buf(s, name, *index);
        },
    }
}

fn rval_to_c(s: &mut String, val: &RVal)
    ensures
        final(s)@ == old(s)@ + rval_c(val@),
{
    match val {
        RVal::Reg(reg) => {
            s.append("r");
            append_decimal(s, *reg as u64);
            assert(s@ =~= old(s)@ + rval_c(val@));
        },
        RVal::Tape(offset) => {
            append_tape(s, *offset);
        },
        RVal::Buf(name, index) => {
            append_buf(s, name, *index);
        },
        RVal::Immediate(value) => {
            append_signed_decimal(s, *value as i64);
        },
    }
}

fn append_binary(s: &mut String, dest: &LVal, a: &RVal, op: &str, b: &RVal, cell: CellType)
    ensures
        final(s)@ == old(s)@ + binary_c(dest@, a@, op@, b@, cell),
{
    lval_to_c(s, dest, cell);
    s.append(" = ");
    rval_to_c(s, a);
    s.append(op);
    rval_to_c(s, b);
    s.append(";\n");
    assert(s@ =~= old(s)@ + binary_c(dest@, a@, op@, b@, cell));
}

fn append_branch(s: &mut String, comparand: &RVal, op: &str, label: &String)
    ensures
        final(s)@ == old(s)@ + branch_c(comparand@, op@, label@),
{
    s.append("if (");
    rval_to_c(s, comparand);
    s.append(op);
    s.append("0) { goto ");
    s.append(label.as_str());
    s.append("; }\n");
    assert(s@ =~= old(s)@ + branch_c(comparand@, op@, label@));
}

fn append_transfer(s: &mut String, call: &str, name: &String, offset: usize, len: usize, stream: &str)
    ensures
        final(s)@ == old(s)@ + transfer_c(call@, name@, offset, len, stream@),
{
    s.append(call);
    s.append(name.as_str());
    s.append("+");
    append_decimal(s, offset as u64);
    s.append(", 1, ");
    append_decimal(s, len as u64);
    s.append(stream);
    assert(s@ =~= old(s)@ + transfer_c(call@, name@, offset, len, stream@));
}

fn append_instr(s: &mut String, instr: &LIR, cell: CellType)
    ensures
        final(s)@ == old(s)@ + instr_c(instr@, cell),
{
    match instr {
        LIR::Shift(shift) => {
            s.append("cursor += ");
            append_signed_decimal(s, *shift as i64);
            s.append(";\n");
            assert(s@ =~= old(s)@ + instr_c(instr@, cell));
        },
        LIR::Mul(dest, a, b) => {
            append_binary(s, dest, a, " * ", b, cell);
        },
        LIR::Add(dest, a, b) => {
            append_binary(s, dest, a, " + ", b, cell);
        },
        LIR::Sub(dest, a, b) => {
            append_binary(s, dest, a, " - ", b, cell);
        },
        LIR::Mov(dest, src) => {
            lval_to_c(s, dest, cell);
            s.append(" = ");
            rval_to_c(s, src);
            s.append(";\n");
            assert(s@ =~= old(s)@ + instr_c(instr@, cell));
        },
        LIR::Label(label) => {
            s.append(label.as_str());
            s.append(": ;\n");
            assert(s@ =~= old(s)@ + instr_c(instr@, cell));
        },
        LIR::Jp(label) => {
            s.append("goto ");
            s.append(label.as_str());
            s.append(";\n");
            assert(s@ =~= old(s)@ + instr_c(instr@, cell));
        },
        LIR::Jz(comparand, label) => {
            append_branch(s, comparand, " == ", label);
        },
        LIR::Jnz(comparand, label) => {
            append_branch(s, comparand, " != ", label);
        },
        LIR::DeclareBssBuf(_, _) => {
            assert(s@ =~= old(s)@ + instr_c(instr@, cell));
        },
        LIR::Input(name, offset, len) => {
            append_transfer(s, "fread(", name, *offset, *len, ", stdin);\n");
        },
        LIR::Output(name, offset, len) => {
            append_transfer(s, "fwrite(", name, *offset, *len, ", stdout);\n");
        },
    }
}

/// The names and sizes of buffers, as values.
pub open spec fn bufs_view(bufs: Seq<(String, usize)>) -> Seq<(Seq<char>, usize)> {
    Seq::new(bufs.len(), |i: int| (bufs[i].0@, bufs[i].1))
}

/// Takes one more declaration into the list of buffers.
pub fn declare_buf(bufs: &mut Vec<(String, usize)>, name: &String, len: usize)
    ensures
        bufs_view(final(bufs)@) == with_buf(bufs_view(old(bufs)@), name@, len),
{
    let ghost before = bufs_view(bufs@);
    let mut i: usize = 0;
    while i < bufs.len()
        invariant
            i <= bufs@.len(),
            bufs@ == old(bufs)@,
            find_buf(before, name@, 0) == find_buf(before, name@, i as int),
            before == bufs_view(bufs@),
        decreases bufs@.len() - i,
    {
        assert(before[i as int].0 == bufs@[i as int].0@);
        if bufs[i].0 == *name {
            bufs.set(i, (name.clone(), len));
            assert(bufs_view(bufs@) =~= before.update(i as int, (name@, len)));
            return ;
        }
        i = i + 1;
    }
    bufs.push((name.clone(), len));
    assert(bufs_view(bufs@) =~= before.push((name@, len)));
}

/// The C program of an instruction list, for a tape of `tape_size` cells of
/// the type `cell`.
pub fn codegen(lir: &[LIR], cell: CellType, tape_size: i32) -> (program: String)
    ensures
        program@ == c_program(lir.deep_view(), cell, tape_size),
{
    let ghost all = lir.deep_view();
    let mut output = String::new();
    let mut bss_bufs: Vec<(String, usize)> = Vec::new();
    let mut i: usize = 0;
    assert(bufs_view(bss_bufs@) =~= declared_bufs(all, 0));
    while i < lir.len()
        invariant
            i <= lir.len(),
            all == lir.deep_view(),
            output@ == body_c(all, i as int, cell),
            bufs_view(bss_bufs@) == declared_bufs(all, i as int),
        decreases lir.len() - i,
    {
        assert(all[i as int] == lir@[i as int]@);
        append_instr(&mut output, &lir[i], cell);
        if let LIR::DeclareBssBuf(name, len) = &lir[i] {
            declare_buf(&mut bss_bufs, name, *len);
        }
        i = i + 1;
    }
    let ghost bufs = bufs_view(bss_bufs@);
    let mut bss = String::new();
    let mut j: usize = 0;
    while j < bss_bufs.len()
        invariant
            j <= bss_bufs@.len(),
            bufs == bufs_view(bss_bufs@),
            bss@ == bss_c(bufs, j as int),
        decreases bss_bufs@.len() - j,
    {
        let ghost before = bss@;
        assert(bufs[j as int] == (bss_bufs@[j as int].0@, bss_bufs@[j as int].1));
        bss.append("char ");
        bss.append(bss_bufs[j].0.as_str());
        bss.append("[");
        append_decimal(&mut bss, bss_bufs[j].1 as u64);
        bss.append("];\n");
        j = j + 1;
        assert(bss@ =~= bss_c(bufs, j as int));
    }
    let cursor: i32 = if tape_size >= 0 {
        tape_size / 2
    } else if tape_size == i32::MIN {
        -0x4000_0000
    } else {
        -((-tape_size) / 2)
    };
    let mut program = String::from_str("#include <stdint.h>\n#include <stdio.h>\n");
    program.append(cell.c_name());
    program.append(" tape[");
    append_signed_decimal(&mut program, tape_size as i64);
    program.append("];\nsize_t cursor = ");
    append_signed_decimal(&mut program, cursor as i64);
    program.append(";\n");
    program.append(bss.as_str());
    program.append("\nint main() {\n");
    program.append(output.as_str());
    program.append("\n}\n");
    assert(program@ =~= c_program(all, cell, tape_size));
    program
}

} // verus!
