//! The native backend of the token form: x86_64 assembly text for Linux or
//! Redox.
//!
//! The current cell is kept in `%r12` and the data pointer in `%rbx`; a cell
//! takes eight bytes. What differs between the two systems, the numbers of
//! the system calls and the registers of their arguments, stands in
//! [`Target`] and in the functions that render a read, a write and the
//! exit; nothing else knows of it.

use vstd::prelude::*;
use vstd::string::*;
use crate::isbfcir::IsbfcIR;
use crate::optimizer::peephole::compile::{
    counters_after, counters_after_token, lemma_counts_bounded, max_nat, no_counters, out_pos,
    pos_after, token_size, SpecCounters,
};
use crate::optimizer::peephole::optimize::lemma_token_count_prefix;
use crate::optimizer::peephole::token::{
    lemma_if_token_view, lemma_loop_token_view, token_count, SpecToken, Token,
};
use crate::text::{
    append_decimal, append_signed_decimal, append_spaces, decimal, signed_decimal, spaces,
};

verus! {

/// The system that the program is assembled for.
#[derive(Clone, Copy, Debug, PartialEq, Eq, Structural)]
pub enum System {
    /// System calls by `syscall`, arguments in `%rdi`, `%rsi`, `%rdx`.
    Linux,
    /// System calls by `int $0x80`, arguments in `%rbx`, `%rcx`, `%rdx`.
    Redox,
}

/// A system and the numbers of its system calls.
#[derive(Clone, Copy, Debug, PartialEq, Eq, Structural)]
pub struct Target {
    pub system: System,
    pub sys_read: u64,
    pub sys_write: u64,
    pub sys_exit: u64,
}

/// Linux on x86_64.
pub open spec fn linux_target() -> Target {
    Target { system: System::Linux, sys_read: 0, sys_write: 1, sys_exit: 60 }
}

impl Target {
    /// Linux on x86_64.
    pub fn linux() -> (t: Target)
        ensures
            t == linux_target(),
    {
        Target { system: System::Linux, sys_read: 0, sys_write: 1, sys_exit: 60 }
    }

    /// Redox, with the numbers of its system calls.
    pub fn redox(sys_read: u64, sys_write: u64, sys_exit: u64) -> (t: Target)
        ensures
            t == (Target { system: System::Redox, sys_read, sys_write, sys_exit }),
    {
        Target { system: System::Redox, sys_read, sys_write, sys_exit }
    }
}

/// One line of assembly at a nesting level: four spaces for each level, the
/// text, and a line feed.
pub open spec fn line(level: nat, text: Seq<char>) -> Seq<char> {
    spaces(4 * level) + text + "\n"@
}

/// The number of bytes that `cells` cells take.
pub open spec fn cell_bytes(cells: int) -> int {
    cells * 8
}

/// The operand of the cell at an offset: the register of the current cell,
/// or the memory at the offset from the data pointer.
pub open spec fn operand(offset: i32) -> Seq<char> {
    if offset == 0 {
        "%r12"@
    } else {
        signed_decimal(cell_bytes(offset as int)) + "(%rbx)"@
    }
}

/// The place of byte `pos` of the output buffer.
pub open spec fn out_addr(pos: nat) -> Seq<char> {
    "(strbuff+"@ + decimal(pos) + ")"@
}

pub open spec fn abs(x: int) -> int {
    if x < 0 {
        -x
    } else {
        x
    }
}

/// The lines of an add of `value` to the cell at `offset`.
pub open spec fn asm_add(offset: i32, value: i32, level: nat) -> Seq<char> {
    if value == 1 && offset == 0 {
        line(level, "inc %r12"@)
    } else if value >= 1 {
        line(level, "addq $"@ + signed_decimal(value as int) + ", "@ + operand(offset))
    } else if value == -1 && offset == 0 {
        line(level, "dec %r12"@)
    } else if value <= -1 {
        line(level, "subq $"@ + signed_decimal(-(value as int)) + ", "@ + operand(offset))
    } else {
        Seq::empty()
    }
}

/// Whether a multiply-copy multiplies by more than a sign.
pub open spec fn is_scaled(mul: i32) -> bool {
    mul != -1 && mul != 1
}

/// Whether a multiply-copy that only adds or subtracts goes from memory to
/// memory, which takes a register between.
pub open spec fn goes_through(src: i32, dest: i32, mul: i32) -> bool {
    !is_scaled(mul) && src != 0 && dest != 0
}

/// The lines that bring the source of a multiply-copy into `%rax`, where
/// it is multiplied or has to go through a register.
pub open spec fn asm_mul_copy_load(src: i32, dest: i32, mul: i32, level: nat) -> Seq<char> {
    if is_scaled(mul) {
        line(level, "movq "@ + operand(src) + ", %rax"@) + line(
            level,
            "movq $"@ + signed_decimal(abs(mul as int)) + ", %rdx"@,
        ) + line(level, "mulq %rdx"@)
    } else if goes_through(src, dest, mul) {
        line(level, "movq "@ + operand(src) + ", %rax"@)
    } else {
        Seq::empty()
    }
}

/// The line that adds the source of a multiply-copy to its destination, or
/// subtracts it.
pub open spec fn asm_mul_copy_apply(src: i32, dest: i32, mul: i32, level: nat) -> Seq<char> {
    let from = if is_scaled(mul) || goes_through(src, dest, mul) {
        "%rax"@
    } else {
        operand(src)
    };
    let op = if mul > 0 {
        "addq "@
    } else {
        "subq "@
    };
    line(level, op + from + ", "@ + operand(dest))
}

/// The lines of a multiply-copy.
pub open spec fn asm_mul_copy(src: i32, dest: i32, mul: i32, level: nat) -> Seq<char> {
    asm_mul_copy_load(src, dest, mul, level) + asm_mul_copy_apply(src, dest, mul, level)
}

/// The lines of a set of the cell at `offset`.
pub open spec fn asm_set(offset: i32, value: i32, level: nat) -> Seq<char> {
    if offset == 0 && value == 0 {
        line(level, "xor %r12, %r12"@)
    } else {
        line(level, "movq $"@ + signed_decimal(value as int) + ", "@ + operand(offset))
    }
}

/// The line that moves the data pointer by `offset` cells.
pub open spec fn asm_pointer(offset: i32, level: nat) -> Seq<char> {
    let op = if offset > 0 {
        "addq $"@
    } else {
        "subq $"@
    };
    line(level, op + signed_decimal(cell_bytes(abs(offset as int))) + ", %rbx"@)
}

/// The lines of a move of the data pointer: the current cell is stored,
/// the pointer moves, and the new current cell is loaded.
pub open spec fn asm_move(offset: i32, level: nat) -> Seq<char> {
    if offset != 0 {
        line(level, "movq %r12, (%rbx)"@) + asm_pointer(offset, level) + line(
            level,
            "movq (%rbx), %r12"@,
        )
    } else {
        Seq::empty()
    }
}

/// The lines before the body of loop `k`.
pub open spec fn asm_loop_head(k: nat, level: nat) -> Seq<char> {
    line(level, "jmp endloop"@ + decimal(k)) + line(level, "loop"@ + decimal(k) + ":"@)
}

/// The lines after the body of loop `k`.
pub open spec fn asm_loop_tail(k: nat, level: nat) -> Seq<char> {
    line(level, "endloop"@ + decimal(k) + ":"@) + line(level, "test %r12, %r12"@) + line(
        level,
        "jnz loop"@ + decimal(k),
    )
}

/// The lines before the body of conditional block `k` on the cell at
/// `offset`.
pub open spec fn asm_if_head(offset: i32, k: nat, level: nat) -> Seq<char> {
    let test = if offset == 0 {
        line(level, "test %r12, %r12"@)
    } else {
        line(level, "cmpq $0, "@ + signed_decimal(cell_bytes(offset as int)) + "(%rbx)"@)
    };
    test + line(level, "jz endif"@ + decimal(k))
}

/// The lines after the body of conditional block `k`.
pub open spec fn asm_if_tail(k: nat, level: nat) -> Seq<char> {
    line(level, "endif"@ + decimal(k) + ":\n"@)
}

/// The lines of scan `k` before the pointer moves.
pub open spec fn asm_scan_head(k: nat, level: nat) -> Seq<char> {
    line(level, "movq %r12, (%rbx)"@) + asm_loop_head(k, level)
}

/// The lines of scan `k` after the pointer moves.
pub open spec fn asm_scan_tail(k: nat, level: nat) -> Seq<char> {
    line(level, "endloop"@ + decimal(k) + ":"@) + line(level, "cmp $0, (%rbx)"@) + line(
        level,
        "jnz loop"@ + decimal(k),
    ) + line(level, "movq (%rbx), %r12"@)
}

/// The lines of scan `k` by `offset` cells.
pub open spec fn asm_scan(offset: i32, k: nat, level: nat) -> Seq<char> {
    asm_scan_head(k, level) + asm_pointer(offset, level) + asm_scan_tail(k, level)
}

/// The lines of the read of one byte into the current cell.
pub open spec fn asm_input(target: Target, level: nat) -> Seq<char> {
    let call = match target.system {
        System::Linux => line(level, "xor %rax, %rax"@) + line(level, "xor %rdi, %rdi"@) + line(
            level,
            "movq %rbx, %rsi"@,
        ) + line(level, "movq $1, %rdx"@) + line(level, "syscall"@),
        System::Redox => line(level, "movq $"@ + decimal(target.sys_read as nat) + ", %rax"@)
            + line(level, "movq %rbx, %rcx"@) + line(level, "xor %rbx, %rbx"@) + line(
            level,
            "movq $1, %rdx"@,
        ) + line(level, "int $0x80"@) + line(level, "movq %rcx, %rbx"@),
    };
    line(level, Seq::empty()) + call + line(level, "movq (%rbx), %r12\n"@)
}

/// The lines that load the cell at `offset` plus `add` into byte `pos` of
/// the output buffer.
pub open spec fn asm_load_out(offset: i32, add: i32, pos: nat, level: nat) -> Seq<char> {
    let load = if offset == 0 {
        line(level, "movq %r12, "@ + out_addr(pos))
    } else {
        line(level, "movq "@ + signed_decimal(cell_bytes(offset as int)) + "(%rbx), %rax"@)
            + line(level, "movq %rax, "@ + out_addr(pos))
    };
    let adjust = if add > 0 {
        line(level, "addb $"@ + signed_decimal(add as int) + ", "@ + out_addr(pos))
    } else if add < 0 {
        line(level, "subb $"@ + signed_decimal(-(add as int)) + ", "@ + out_addr(pos))
    } else {
        Seq::empty()
    };
    load + adjust
}

/// The line that loads a constant into byte `pos` of the output buffer.
pub open spec fn asm_load_out_set(value: i32, pos: nat, level: nat) -> Seq<char> {
    line(level, "movq $"@ + signed_decimal(value as int) + ", "@ + out_addr(pos))
}

/// The lines of the write of the `pos` bytes of the output buffer.
pub open spec fn asm_output(target: Target, pos: nat, level: nat) -> Seq<char> {
    match target.system {
        System::Linux => line(level, "movq $1, %rax"@) + line(level, "movq $1, %rdi"@) + line(
            level,
            "movq $strbuff, %rsi"@,
        ) + line(level, "movq $"@ + decimal(pos) + ", %rdx"@) + line(level, "syscall\n"@),
        System::Redox => line(level, "movq $"@ + decimal(target.sys_write as nat) + ", %rax"@)
            + line(level, "movq %rbx, %r11"@) + line(level, "movq $1, %rbx"@) + line(
            level,
            "movq $strbuff, %rcx"@,
        ) + line(level, "movq $"@ + decimal(pos) + ", %rdx"@) + line(level, "int $0x80"@) + line(
            level,
            "movq %r11, %rbx\n"@,
        ),
    }
}

/// The lines that end the program.
pub open spec fn asm_exit(target: Target) -> Seq<char> {
    match target.system {
        System::Linux => "    movq $60, %rax\n    movq $0, %rdi\n    syscall\n"@,
        System::Redox => "    movq $"@ + decimal(target.sys_exit as nat)
            + ", %rax\n    movq $0, %rdi\n    int $0x80\n"@,
    }
}

/// The lines of a token sequence at a nesting level, with the counters as
/// they stand before it.
pub open spec fn asm_tokens(tokens: Seq<SpecToken>, target: Target, c: SpecCounters, level: nat)
    -> Seq<char>
    decreases tokens, 1nat,
{
    if tokens.len() == 0 {
        Seq::empty()
    } else {
        asm_tokens(tokens.drop_last(), target, c, level) + asm_token(
            tokens.last(),
            target,
            counters_after(c, tokens.drop_last()),
            out_pos(tokens.drop_last()),
            level,
        )
    }
}

/// The lines of one token, with `pos` bytes in the output buffer.
pub open spec fn asm_token(token: SpecToken, target: Target, c: SpecCounters, pos: nat, level: nat)
    -> Seq<char>
    decreases token, 0nat,
{
    match token {
        SpecToken::Add(offset, value) => asm_add(offset, value, level),
        SpecToken::MulCopy(src, dest, mul) => asm_mul_copy(src, dest, mul, level),
        SpecToken::Assign(offset, value) => asm_set(offset, value, level),
        SpecToken::Move(offset) => asm_move(offset, level),
        SpecToken::Loop(body) => asm_loop_head(c.loops + 1, level) + asm_tokens(
            body,
            target,
            SpecCounters { loops: c.loops + 1, ..c },
            level + 1,
        ) + asm_loop_tail(c.loops + 1, level),
        SpecToken::If(offset, body) => asm_if_head(offset, c.ifs + 1, level) + asm_tokens(
            body,
            target,
            SpecCounters { ifs: c.ifs + 1, ..c },
            level + 1,
        ) + asm_if_tail(c.ifs + 1, level),
        SpecToken::Scan(offset) => asm_scan(offset, c.loops + 1, level),
        SpecToken::Input => asm_input(target, level),
        SpecToken::LoadOut(offset, add) => asm_load_out(offset, add, pos, level),
        SpecToken::LoadOutSet(value) => asm_load_out_set(value, pos, level),
        SpecToken::Output => asm_output(target, pos, level),
    }
}

/// The size that the output buffer needs: eight bytes more than the
/// largest number of bytes that any output writes; zero without an output.
pub open spec fn buffer_size(tokens: Seq<SpecToken>) -> nat
    decreases tokens, 1nat,
{
    if tokens.len() == 0 {
        0
    } else {
        max_nat(
            buffer_size(tokens.drop_last()),
            buffer_size_in(tokens.last(), out_pos(tokens.drop_last())),
        )
    }
}

/// The size that the output buffer needs for one token.
pub open spec fn buffer_size_in(token: SpecToken, pos: nat) -> nat
    decreases token, 0nat,
{
    match token {
        SpecToken::Loop(body) => buffer_size(body),
        SpecToken::If(_, body) => buffer_size(body),
        SpecToken::Output => pos + 8,
        _ => 0,
    }
}

/// Half of the tape size, rounded towards zero.
pub open spec fn half_cells(tape_size: i32) -> int {
    if tape_size >= 0 {
        tape_size / 2
    } else {
        -((-tape_size) / 2)
    }
}

/// The assembly program of a token sequence for a tape of `tape_size`
/// cells: the output buffer and the tape in `.bss`, the data pointer in the
/// middle of the tape, the lines of the tokens, and the exit.
pub open spec fn asm_program(tokens: Seq<SpecToken>, tape_size: i32, target: Target) -> Seq<char> {
    ".section .bss\n    .lcomm strbuff, "@ + decimal(buffer_size(tokens)) + "\n    .lcomm mem, "@
        + signed_decimal(cell_bytes(tape_size as int)) + "\n    .set startidx, mem + "@
        + signed_decimal(cell_bytes(half_cells(tape_size)))
        + "\n.section .text\n.global _start\n_start:\n    xor %r12, %r12\n    movq $startidx, %rbx\n\n"@
        + asm_tokens(tokens, target, no_counters(), 1) + "\n"@ + asm_exit(target) + "\n"@
}

struct CompileState {
    output: String,
    loopnum: u32,
    ifnum: u32,
    outbuffsize: usize,
    level: usize,
}

impl CompileState {
    spec fn counters(&self) -> SpecCounters {
        SpecCounters { loops: self.loopnum as nat, ifs: self.ifnum as nat, regs: 0 }
    }

    /// Whether the counters and the nesting level leave room for `n`.
    spec fn has_room(&self, n: nat) -> bool {
        &&& self.loopnum + n <= u32::MAX
        &&& self.ifnum + n <= u32::MAX
        &&& self.level + n <= 0x3fff_ffff
    }

    /// Whether `other` differs from this state in the output text alone.
    spec fn same_but_output(&self, other: &CompileState) -> bool {
        &&& self.loopnum == other.loopnum
        &&& self.ifnum == other.ifnum
        &&& self.outbuffsize == other.outbuffsize
        &&& self.level == other.level
    }

    /// Begins a line: the indentation of the level.
    fn begin(&mut self)
        requires
            old(self).level <= 0x3fff_ffff,
        ensures
            final(self).output@ == old(self).output@ + spaces(4 * old(self).level as nat),
            final(self).same_but_output(old(self)),
    {
        let n = self.level * 4;
        append_spaces(&mut self.output, n);
    }

    fn put(&mut self, text: &str)
        ensures
            final(self).output@ == old(self).output@ + text@,
            final(self).same_but_output(old(self)),
    {
        self.output.append(text);
    }

    fn put_signed(&mut self, n: i64)
        ensures
            final(self).output@ == old(self).output@ + signed_decimal(n as int),
            final(self).same_but_output(old(self)),
    {
        append_signed_decimal(&mut self.output, n);
    }

    fn put_unsigned(&mut self, n: u64)
        ensures
            final(self).output@ == old(self).output@ + decimal(n as nat),
            final(self).same_but_output(old(self)),
    {
        append_decimal(&mut self.output, n);
    }

    /// Ends a line.
    fn end(&mut self)
        ensures
            final(self).output@ == old(self).output@ + "\n"@,
            final(self).same_but_output(old(self)),
    {
        self.output.append("\n");
    }

    /// A whole line of fixed text.
    fn fixed(&mut self, text: &str)
        requires
            old(self).level <= 0x3fff_ffff,
        ensures
            final(self).output@ == old(self).output@ + line(old(self).level as nat, text@),
            final(self).same_but_output(old(self)),
    {
        self.begin();
        self.put(text);
        self.end();
        assert(self.output@ =~= old(self).output@ + line(old(self).level as nat, text@));
    }

    /// A line of a text, a number and a text.
    fn numbered(&mut self, before: &str, n: u64, after: &str)
        requires
            old(self).level <= 0x3fff_ffff,
        ensures
            final(self).output@ == old(self).output@ + line(
                old(self).level as nat,
                before@ + decimal(n as nat) + after@,
            ),
            final(self).same_but_output(old(self)),
    {
        self.begin();
        self.put(before);
        self.put_unsigned(n);
        self.put(after);
        self.end();
        assert(self.output@ =~= old(self).output@ + line(
            old(self).level as nat,
            before@ + decimal(n as nat) + after@,
        ));
    }

    fn put_operand(&mut self, offset: i32)
        ensures
            final(self).output@ == old(self).output@ + operand(offset),
            final(self).same_but_output(old(self)),
    {
        if offset == 0 {
            self.put("%r12");
        } else {
            self.put_signed(offset as i64 * 8);
            self.put("(%rbx)");
            assert(self.output@ =~= old(self).output@ + operand(offset));
        }
    }

    fn put_out_addr(&mut self, pos: usize)
        ensures
            final(self).output@ == old(self).output@ + out_addr(pos as nat),
            final(self).same_but_output(old(self)),
    {
        self.put("(strbuff+");
        self.put_unsigned(pos as u64);
        self.put(")");
        assert(self.output@ =~= old(self).output@ + out_addr(pos as nat));
    }

    /// A line of an operation with an immediate and the operand of a cell.
    fn immediate(&mut self, op: &str, value: i64, offset: i32)
        requires
            old(self).level <= 0x3fff_ffff,
        ensures
            final(self).output@ == old(self).output@ + line(
                old(self).level as nat,
                op@ + signed_decimal(value as int) + ", "@ + operand(offset),
            ),
            final(self).same_but_output(old(self)),
    {
        self.begin();
        self.put(op);
        self.put_signed(value);
        self.put(", ");
        self.put_operand(offset);
        self.end();
        assert(self.output@ =~= old(self).output@ + line(
            old(self).level as nat,
            op@ + signed_decimal(value as int) + ", "@ + operand(offset),
        ));
    }

    /// A line of an operation with an immediate and a byte of the output
    /// buffer.
    fn immediate_out(&mut self, op: &str, value: i64, pos: usize)
        requires
            old(self).level <= 0x3fff_ffff,
        ensures
            final(self).output@ == old(self).output@ + line(
                old(self).level as nat,
                op@ + signed_decimal(value as int) + ", "@ + out_addr(pos as nat),
            ),
            final(self).same_but_output(old(self)),
    {
        self.begin();
        self.put(op);
        self.put_signed(value);
        self.put(", ");
        self.put_out_addr(pos);
        self.end();
        assert(self.output@ =~= old(self).output@ + line(
            old(self).level as nat,
            op@ + signed_decimal(value as int) + ", "@ + out_addr(pos as nat),
        ));
    }

    fn add(&mut self, offset: i32, value: i32)
        requires
            old(self).level <= 0x3fff_ffff,
        ensures
            final(self).output@ == old(self).output@ + asm_add(
                offset,
                value,
                old(self).level as nat,
            ),
            final(self).same_but_output(old(self)),
    {
        if value == 1 && offset == 0 {
            self.fixed("inc %r12");
        } else if value >= 1 {
            self.immediate("addq $", value as i64, offset);
        } else if value == -1 && offset == 0 {
            self.fixed("dec %r12");
        } else if value <= -1 {
            self.immediate("subq $", -(value as i64), offset);
        } else {
            assert(self.output@ =~= old(self).output@ + asm_add(
                offset,
                value,
                old(self).level as nat,
            ));
        }
    }

    /// A line that loads the operand of a cell into `%rax`.
    fn load_rax(&mut self, offset: i32)
        requires
            old(self).level <= 0x3fff_ffff,
        ensures
            final(self).output@ == old(self).output@ + line(
                old(self).level as nat,
                "movq "@ + operand(offset) + ", %rax"@,
            ),
            final(self).same_but_output(old(self)),
    {
        self.begin();
        self.put("movq ");
        self.put_operand(offset);
        self.put(", %rax");
        self.end();
        assert(self.output@ =~= old(self).output@ + line(
            old(self).level as nat,
            "movq "@ + operand(offset) + ", %rax"@,
        ));
    }

    /// The lines that bring the source of a multiply-copy into `%rax`,
    /// where it has to go through a register.
    fn mul_copy_load(&mut self, src: i32, dest: i32, mul: i32)
        requires
            old(self).level <= 0x3fff_ffff,
        ensures
            final(self).output@ == old(self).output@ + asm_mul_copy_load(
                src,
                dest,
                mul,
                old(self).level as nat,
            ),
            final(self).same_but_output(old(self)),
    {
        let scaled = mul != -1 && mul != 1;
        let through = !scaled && src != 0 && dest != 0;
        if scaled {
            self.load_rax(src);
            let factor: i64 = if mul < 0 {
                -(mul as i64)
            } else {
                mul as i64
            };
            self.numbered_signed("movq $", factor, ", %rdx");
            self.fixed("mulq %rdx");
        } else if through {
            self.load_rax(src);
        }
        assert(self.output@ =~= old(self).output@ + asm_mul_copy_load(
            src,
            dest,
            mul,
            old(self).level as nat,
        ));
    }

    fn mul_copy(&mut self, src: i32, dest: i32, mul: i32)
        requires
            old(self).level <= 0x3fff_ffff,
        ensures
            final(self).output@ == old(self).output@ + asm_mul_copy(
                src,
                dest,
                mul,
                old(self).level as nat,
            ),
            final(self).same_but_output(old(self)),
    {
        let ghost level = self.level as nat;
        let scaled = mul != -1 && mul != 1;
        let through = !scaled && src != 0 && dest != 0;
        self.mul_copy_load(src, dest, mul);
        let ghost loaded = self.output@;
        self.begin();
        if mul > 0 {
            self.put("addq ");
        } else {
            self.put("subq ");
        }
        if scaled || through {
            self.put("%rax");
        } else {
            self.put_operand(src);
        }
        self.put(", ");
        self.put_operand(dest);
        self.end();
        assert(self.output@ =~= loaded + asm_mul_copy_apply(src, dest, mul, level));
        assert(self.output@ =~= old(self).output@ + asm_mul_copy(src, dest, mul, level));
    }

    /// A line of a text, a signed number and a text.
    fn numbered_signed(&mut self, before: &str, n: i64, after: &str)
        requires
            old(self).level <= 0x3fff_ffff,
        ensures
            final(self).output@ == old(self).output@ + line(
                old(self).level as nat,
                before@ + signed_decimal(n as int) + after@,
            ),
            final(self).same_but_output(old(self)),
    {
        self.begin();
        self.put(before);
        self.put_signed(n);
        self.put(after);
        self.end();
        assert(self.output@ =~= old(self).output@ + line(
            old(self).level as nat,
            before@ + signed_decimal(n as int) + after@,
        ));
    }

    fn set(&mut self, offset: i32, value: i32)
        requires
            old(self).level <= 0x3fff_ffff,
        ensures
            final(self).output@ == old(self).output@ + asm_set(
                offset,
                value,
                old(self).level as nat,
            ),
            final(self).same_but_output(old(self)),
    {
        if offset == 0 && value == 0 {
            self.fixed("xor %r12, %r12");
        } else {
            self.immediate("movq $", value as i64, offset);
        }
    }

    fn pointer(&mut self, offset: i32)
        requires
            old(self).level <= 0x3fff_ffff,
        ensures
            final(self).output@ == old(self).output@ + asm_pointer(offset, old(self).level as nat),
            final(self).same_but_output(old(self)),
    {
        let bytes: i64 = if offset < 0 {
            -(offset as i64) * 8
        } else {
            offset as i64 * 8
        };
        self.begin();
        if offset > 0 {
            self.put("addq $");
        } else {
            self.put("subq $");
        }
        self.put_signed(bytes);
        self.put(", %rbx");
        self.end();
        assert(self.output@ =~= old(self).output@ + asm_pointer(offset, old(self).level as nat));
    }

    fn move_by(&mut self, offset: i32)
        requires
            old(self).level <= 0x3fff_ffff,
        ensures
            final(self).output@ == old(self).output@ + asm_move(offset, old(self).level as nat),
            final(self).same_but_output(old(self)),
    {
        if offset != 0 {
            self.fixed("movq %r12, (%rbx)");
            self.pointer(offset);
            self.fixed("movq (%rbx), %r12");
        }
        assert(self.output@ =~= old(self).output@ + asm_move(offset, old(self).level as nat));
    }

    fn loop_head(&mut self, k: u32)
        requires
            old(self).level <= 0x3fff_ffff,
        ensures
            final(self).output@ == old(self).output@ + asm_loop_head(
                k as nat,
                old(self).level as nat,
            ),
            final(self).same_but_output(old(self)),
    {
        self.numbered("jmp endloop", k as u64, "");
        self.numbered("loop", k as u64, ":");
        proof {
            reveal_strlit("");
            assert("jmp endloop"@ + decimal(k as nat) + ""@ =~= "jmp endloop"@ + decimal(k as nat));
        }
        assert(self.output@ =~= old(self).output@ + asm_loop_head(
            k as nat,
            old(self).level as nat,
        ));
    }

    fn loop_tail(&mut self, k: u32)
        requires
            old(self).level <= 0x3fff_ffff,
        ensures
            final(self).output@ == old(self).output@ + asm_loop_tail(
                k as nat,
                old(self).level as nat,
            ),
            final(self).same_but_output(old(self)),
    {
        self.numbered("endloop", k as u64, ":");
        self.fixed("test %r12, %r12");
        self.numbered("jnz loop", k as u64, "");
        proof {
            reveal_strlit("");
            assert("jnz loop"@ + decimal(k as nat) + ""@ =~= "jnz loop"@ + decimal(k as nat));
        }
        assert(self.output@ =~= old(self).output@ + asm_loop_tail(
            k as nat,
            old(self).level as nat,
        ));
    }

    fn if_head(&mut self, offset: i32, k: u32)
        requires
            old(self).level <= 0x3fff_ffff,
        ensures
            final(self).output@ == old(self).output@ + asm_if_head(
                offset,
                k as nat,
                old(self).level as nat,
            ),
            final(self).same_but_output(old(self)),
    {
        if offset == 0 {
            self.fixed("test %r12, %r12");
        } else {
            self.begin();
            self.put("cmpq $0, ");
            self.put_signed(offset as i64 * 8);
            self.put("(%rbx)");
            self.end();
        }
        self.numbered("jz endif", k as u64, "");
        proof {
            reveal_strlit("");
            assert("jz endif"@ + decimal(k as nat) + ""@ =~= "jz endif"@ + decimal(k as nat));
        }
        assert(self.output@ =~= old(self).output@ + asm_if_head(
            offset,
            k as nat,
            old(self).level as nat,
        ));
    }

    fn scan_tail(&mut self, k: u32)
        requires
            old(self).level <= 0x3fff_ffff,
        ensures
            final(self).output@ == old(self).output@ + asm_scan_tail(
                k as nat,
                old(self).level as nat,
            ),
            final(self).same_but_output(old(self)),
    {
        self.numbered("endloop", k as u64, ":");
        self.fixed("cmp $0, (%rbx)");
        self.numbered("jnz loop", k as u64, "");
        self.fixed("movq (%rbx), %r12");
        proof {
            reveal_strlit("");
            assert("jnz loop"@ + decimal(k as nat) + ""@ =~= "jnz loop"@ + decimal(k as nat));
        }
        assert(self.output@ =~= old(self).output@ + asm_scan_tail(
            k as nat,
            old(self).level as nat,
        ));
    }

    fn scan(&mut self, offset: i32, k: u32)
        requires
            old(self).level <= 0x3fff_ffff,
        ensures
            final(self).output@ == old(self).output@ + asm_scan(
                offset,
                k as nat,
                old(self).level as nat,
            ),
            final(self).same_but_output(old(self)),
    {
        self.fixed("movq %r12, (%rbx)");
        self.loop_head(k);
        self.pointer(offset);
        self.scan_tail(k);
        assert(self.output@ =~= old(self).output@ + asm_scan(
            offset,
            k as nat,
            old(self).level as nat,
        ));
    }

    fn input(&mut self, target: &Target)
        requires
            old(self).level <= 0x3fff_ffff,
        ensures
            final(self).output@ == old(self).output@ + asm_input(*target, old(self).level as nat),
            final(self).same_but_output(old(self)),
    {
        self.fixed("");
        proof {
            reveal_strlit("");
            assert(""@ =~= Seq::<char>::empty());
        }
        match target.system {
            System::Linux => {
                self.fixed("xor %rax, %rax");
                self.fixed("xor %rdi, %rdi");
                self.fixed("movq %rbx, %rsi");
                self.fixed("movq $1, %rdx");
                self.fixed("syscall");
            },
            System::Redox => {
                self.numbered("movq $", target.sys_read, ", %rax");
                self.fixed("movq %rbx, %rcx");
                self.fixed("xor %rbx, %rbx");
                self.fixed("movq $1, %rdx");
                self.fixed("int $0x80");
                self.fixed("movq %rcx, %rbx");
            },
        }
        self.fixed("movq (%rbx), %r12\n");
        assert(self.output@ =~= old(self).output@ + asm_input(*target, old(self).level as nat));
    }

    fn load_out(&mut self, offset: i32, add: i32, pos: usize)
        requires
            old(self).level <= 0x3fff_ffff,
        ensures
            final(self).output@ == old(self).output@ + asm_load_out(
                offset,
                add,
                pos as nat,
                old(self).level as nat,
            ),
            final(self).same_but_output(old(self)),
    {
        if offset == 0 {
            self.begin();
            self.put("movq %r12, ");
            self.put_out_addr(pos);
            self.end();
        } else {
            self.begin();
            self.put("movq ");
            self.put_signed(offset as i64 * 8);
            self.put("(%rbx), %rax");
            self.end();
            self.begin();
            self.put("movq %rax, ");
            self.put_out_addr(pos);
            self.end();
        }
        if add > 0 {
            self.immediate_out("addb $", add as i64, pos);
        } else if add < 0 {
            self.immediate_out("subb $", -(add as i64), pos);
        }
        assert(self.output@ =~= old(self).output@ + asm_load_out(
            offset,
            add,
            pos as nat,
            old(self).level as nat,
        ));
    }

    fn output(&mut self, target: &Target, pos: usize)
        requires
            old(self).level <= 0x3fff_ffff,
        ensures
            final(self).output@ == old(self).output@ + asm_output(
                *target,
                pos as nat,
                old(self).level as nat,
            ),
            final(self).same_but_output(old(self)),
    {
        match target.system {
            System::Linux => {
                self.fixed("movq $1, %rax");
                self.fixed("movq $1, %rdi");
                self.fixed("movq $strbuff, %rsi");
                self.numbered("movq $", pos as u64, ", %rdx");
                self.fixed("syscall\n");
            },
            System::Redox => {
                self.numbered("movq $", target.sys_write, ", %rax");
                self.fixed("movq %rbx, %r11");
                self.fixed("movq $1, %rbx");
                self.fixed("movq $strbuff, %rcx");
                self.numbered("movq $", pos as u64, ", %rdx");
                self.fixed("int $0x80");
                self.fixed("movq %r11, %rbx\n");
            },
        }
        assert(self.output@ =~= old(self).output@ + asm_output(
            *target,
            pos as nat,
            old(self).level as nat,
        ));
    }
}

/// Takes a number from the register counter where a token would define a
/// register: this backend uses none.
pub open spec fn without_regs(c: SpecCounters) -> SpecCounters {
    SpecCounters { regs: 0, ..c }
}

fn compile_iter(state: &mut CompileState, tokens: &[Token], target: &Target)
    requires
        old(state).has_room(token_count(tokens.deep_view()) + 1),
        token_count(tokens.deep_view()) + 10 < 0x3fff_ffff,
        old(state).level >= 1,
    ensures
        final(state).output@ == old(state).output@ + asm_tokens(
            tokens.deep_view(),
            *target,
            old(state).counters(),
            old(state).level as nat,
        ),
        final(state).counters() == without_regs(
            counters_after(old(state).counters(), tokens.deep_view()),
        ),
        final(state).level == old(state).level,
        final(state).outbuffsize == max_nat(
            old(state).outbuffsize as nat,
            buffer_size(tokens.deep_view()),
        ),
    decreases tokens@, 1nat,
{
    let ghost all = tokens.deep_view();
    let ghost c0 = old(state).counters();
    let ghost size0 = old(state).outbuffsize as nat;
    let ghost out0 = old(state).output@;
    let ghost level = old(state).level as nat;
    let mut outbuffpos: usize = 0;
    let mut i: usize = 0;
    assert(all.subrange(0, 0) =~= Seq::<SpecToken>::empty());
    assert(state.output@ =~= out0 + asm_tokens(all.subrange(0, 0), *target, c0, level));
    while i < tokens.len()
        invariant
            i <= tokens.len(),
            all == tokens.deep_view(),
            c0.regs == 0,
            c0.loops + token_count(all) + 1 <= u32::MAX,
            c0.ifs + token_count(all) + 1 <= u32::MAX,
            level + token_count(all) + 1 <= 0x3fff_ffff,
            token_count(all) + 10 < 0x3fff_ffff,
            level >= 1,
            state.level == level,
            state.output@ == out0 + asm_tokens(all.subrange(0, i as int), *target, c0, level),
            state.counters() == without_regs(counters_after(c0, all.subrange(0, i as int))),
            outbuffpos == out_pos(all.subrange(0, i as int)),
            state.outbuffsize == max_nat(size0, buffer_size(all.subrange(0, i as int))),
        decreases tokens.len() - i,
    {
        let ghost prefix = all.subrange(0, i as int);
        let ghost next = all.subrange(0, i + 1);
        let ghost node = tokens@[i as int].deep_view();
        let ghost c = counters_after(c0, prefix);
        let ghost pos = outbuffpos as nat;
        proof {
            lemma_token_count_prefix(all, i + 1);
            lemma_counts_bounded(prefix);
            assert(next.drop_last() =~= prefix);
            assert(next.last() == node);
            assert(token_count(next) == token_count(prefix) + token_size(node));
            lemma_asm_ignores_regs(node, *target, c, pos, level);
        }
        compile_token(state, &tokens[i], target, &mut outbuffpos);
        i = i + 1;
        assert(asm_tokens(next, *target, c0, level) == asm_tokens(prefix, *target, c0, level)
            + asm_token(node, *target, c, pos, level));
        assert(state.output@ =~= out0 + asm_tokens(next, *target, c0, level));
    }
    assert(all.subrange(0, tokens.len() as int) =~= all);
}

/// The lines of a token sequence do not depend on the register counter.
proof fn lemma_asm_tokens_ignore_regs(
    tokens: Seq<SpecToken>,
    target: Target,
    c: SpecCounters,
    level: nat,
)
    ensures
        asm_tokens(tokens, target, c, level) == asm_tokens(
            tokens,
            target,
            without_regs(c),
            level,
        ),
    decreases tokens, 1nat,
{
    if tokens.len() > 0 {
        lemma_asm_tokens_ignore_regs(tokens.drop_last(), target, c, level);
        let at = counters_after(c, tokens.drop_last());
        let at0 = counters_after(without_regs(c), tokens.drop_last());
        lemma_asm_ignores_regs(tokens.last(), target, at, out_pos(tokens.drop_last()), level);
        lemma_asm_ignores_regs(tokens.last(), target, at0, out_pos(tokens.drop_last()), level);
        assert(without_regs(at) == without_regs(at0));
    }
}

/// The lines of a token do not depend on the register counter.
proof fn lemma_asm_ignores_regs(
    token: SpecToken,
    target: Target,
    c: SpecCounters,
    pos: nat,
    level: nat,
)
    ensures
        asm_token(token, target, c, pos, level) == asm_token(
            token,
            target,
            without_regs(c),
            pos,
            level,
        ),
    decreases token, 0nat,
{
    match token {
        SpecToken::Loop(body) => {
            lemma_asm_tokens_ignore_regs(
                body,
                target,
                SpecCounters { loops: c.loops + 1, ..c },
                level + 1,
            );
            assert(without_regs(SpecCounters { loops: c.loops + 1, ..c }) == (SpecCounters {
                loops: c.loops + 1,
                ..without_regs(c)
            }));
        },
        SpecToken::If(_, body) => {
            lemma_asm_tokens_ignore_regs(
                body,
                target,
                SpecCounters { ifs: c.ifs + 1, ..c },
                level + 1,
            );
            assert(without_regs(SpecCounters { ifs: c.ifs + 1, ..c }) == (SpecCounters {
                ifs: c.ifs + 1,
                ..without_regs(c)
            }));
        },
        _ => {},
    }
}

fn compile_token(
    state: &mut CompileState,
    token: &Token,
    target: &Target,
    outbuffpos: &mut usize,
)
    requires
        old(state).has_room(token_size(token.deep_view()) + 1),
        token_size(token.deep_view()) + 10 < 0x3fff_ffff,
        old(state).level >= 1,
        *old(outbuffpos) + 8 < u32::MAX,
    ensures
        final(state).output@ == old(state).output@ + asm_token(
            token.deep_view(),
            *target,
            old(state).counters(),
            *old(outbuffpos) as nat,
            old(state).level as nat,
        ),
        final(state).counters() == without_regs(
            counters_after_token(old(state).counters(), token.deep_view()),
        ),
        final(state).level == old(state).level,
        *final(outbuffpos) == pos_after(*old(outbuffpos) as nat, token.deep_view()),
        final(state).outbuffsize == max_nat(
            old(state).outbuffsize as nat,
            buffer_size_in(token.deep_view(), *old(outbuffpos) as nat),
        ),
    decreases token, 0nat,
{
    let ghost node = token.deep_view();
    let ghost c = state.counters();
    let ghost level = state.level as nat;
    match token {
        Token::Add(offset, value) => {
            state.add(*offset, *value);
            assert(node == SpecToken::Add(*offset, *value));
        },
        Token::MulCopy(src, dest, mul) => {
            state.mul_copy(*src, *dest, *mul);
            assert(node == SpecToken::MulCopy(*src, *dest, *mul));
        },
        Token::Assign(offset, value) => {
            state.set(*offset, *value);
            assert(node == SpecToken::Assign(*offset, *value));
        },
        Token::Move(offset) => {
            state.move_by(*offset);
            assert(node == SpecToken::Move(*offset));
        },
        Token::Loop(content) => {
            proof {
                lemma_loop_token_view(*content);
            }
            assert(node == SpecToken::Loop(content.deep_view()));
            compile_loop(state, content, target);
        },
        Token::If(offset, content) => {
            proof {
                lemma_if_token_view(*offset, *content);
            }
            assert(node == SpecToken::If(*offset, content.deep_view()));
            compile_if(state, *offset, content, target);
        },
        Token::Scan(offset) => {
            state.loopnum = state.loopnum + 1;
            let number = state.loopnum;
            state.scan(*offset, number);
            assert(node == SpecToken::Scan(*offset));
        },
        Token::Input => {
            state.input(target);
            assert(node == SpecToken::Input);
        },
        Token::LoadOut(offset, add) => {
            state.load_out(*offset, *add, *outbuffpos);
            *outbuffpos = *outbuffpos + 1;
            assert(node == SpecToken::LoadOut(*offset, *add));
        },
        Token::LoadOutSet(value) => {
            state.immediate_out("movq $", *value as i64, *outbuffpos);
            *outbuffpos = *outbuffpos + 1;
            assert(node == SpecToken::LoadOutSet(*value));
        },
        Token::Output => {
            state.output(target, *outbuffpos);
            if state.outbuffsize < *outbuffpos + 8 {
                state.outbuffsize = *outbuffpos + 8;
            }
            *outbuffpos = 0;
            assert(node == SpecToken::Output);
        },
    }
}

fn compile_loop(state: &mut CompileState, content: &Vec<Token>, target: &Target)
    requires
        old(state).has_room(token_count(content.deep_view()) + 2),
        token_count(content.deep_view()) + 11 < 0x3fff_ffff,
        old(state).level >= 1,
    ensures
        final(state).output@ == old(state).output@ + (asm_loop_head(
            old(state).loopnum as nat + 1,
            old(state).level as nat,
        ) + asm_tokens(
            content.deep_view(),
            *target,
            SpecCounters { loops: old(state).loopnum as nat + 1, ..old(state).counters() },
            old(state).level as nat + 1,
        ) + asm_loop_tail(old(state).loopnum as nat + 1, old(state).level as nat)),
        final(state).counters() == without_regs(
            counters_after(
                SpecCounters { loops: old(state).loopnum as nat + 1, ..old(state).counters() },
                content.deep_view(),
            ),
        ),
        final(state).level == old(state).level,
        final(state).outbuffsize == max_nat(
            old(state).outbuffsize as nat,
            buffer_size(content.deep_view()),
        ),
    decreases content@, 2nat,
{
    state.loopnum = state.loopnum + 1;
    let number = state.loopnum;
    state.loop_head(number);
    state.level = state.level + 1;
    let body = content.as_slice();
    assert(body.deep_view() =~= content.deep_view());
    compile_iter(state, body, target);
    state.level = state.level - 1;
    state.loop_tail(number);
    assert(state.output@ =~= old(state).output@ + (asm_loop_head(
        old(state).loopnum as nat + 1,
        old(state).level as nat,
    ) + asm_tokens(
        content.deep_view(),
        *target,
        SpecCounters { loops: old(state).loopnum as nat + 1, ..old(state).counters() },
        old(state).level as nat + 1,
    ) + asm_loop_tail(old(state).loopnum as nat + 1, old(state).level as nat)));
}

fn compile_if(state: &mut CompileState, offset: i32, content: &Vec<Token>, target: &Target)
    requires
        old(state).has_room(token_count(content.deep_view()) + 2),
        token_count(content.deep_view()) + 11 < 0x3fff_ffff,
        old(state).level >= 1,
    ensures
        final(state).output@ == old(state).output@ + (asm_if_head(
            offset,
            old(state).ifnum as nat + 1,
            old(state).level as nat,
        ) + asm_tokens(
            content.deep_view(),
            *target,
            SpecCounters { ifs: old(state).ifnum as nat + 1, ..old(state).counters() },
            old(state).level as nat + 1,
        ) + asm_if_tail(old(state).ifnum as nat + 1, old(state).level as nat)),
        final(state).counters() == without_regs(
            counters_after(
                SpecCounters { ifs: old(state).ifnum as nat + 1, ..old(state).counters() },
                content.deep_view(),
            ),
        ),
        final(state).level == old(state).level,
        final(state).outbuffsize == max_nat(
            old(state).outbuffsize as nat,
            buffer_size(content.deep_view()),
        ),
    decreases content@, 2nat,
{
    state.ifnum = state.ifnum + 1;
    let number = state.ifnum;
    state.if_head(offset, number);
    state.level = state.level + 1;
    let body = content.as_slice();
    assert(body.deep_view() =~= content.deep_view());
    compile_iter(state, body, target);
    state.level = state.level - 1;
    state.numbered("endif", number as u64, ":\n");
    assert(state.output@ =~= old(state).output@ + (asm_if_head(
        offset,
        old(state).ifnum as nat + 1,
        old(state).level as nat,
    ) + asm_tokens(
        content.deep_view(),
        *target,
        SpecCounters { ifs: old(state).ifnum as nat + 1, ..old(state).counters() },
        old(state).level as nat + 1,
    ) + asm_if_tail(old(state).ifnum as nat + 1, old(state).level as nat)));
}

impl IsbfcIR {
    /// The x86_64 assembly of the tokens for Linux, for a tape of
    /// `tape_size` cells.
    pub fn compile(&self, tape_size: i32) -> (text: String)
        requires
            token_count(self.tokens.deep_view()) + 10 < 0x3fff_ffff,
        ensures
            text@ == asm_program(self.tokens.deep_view(), tape_size, linux_target()),
    {
        self.compile_for(tape_size, &Target::linux())
    }

    /// The x86_64 assembly of the tokens for a target, for a tape of
    /// `tape_size` cells.
    pub fn compile_for(&self, tape_size: i32, target: &Target) -> (text: String)
        requires
            token_count(self.tokens.deep_view()) + 10 < 0x3fff_ffff,
        ensures
            text@ == asm_program(self.tokens.deep_view(), tape_size, *target),
    {
        let ghost all = self.tokens.deep_view();
        let mut state = CompileState {
            output: String::new(),
            loopnum: 0,
            ifnum: 0,
            outbuffsize: 0,
            level: 1,
        };
        let tokens = self.tokens.as_slice();
        assert(tokens.deep_view() =~= all);
        compile_iter(&mut state, tokens, target);
        assert(state.output@ =~= asm_tokens(all, *target, no_counters(), 1));
        let half: i32 = if tape_size >= 0 {
            tape_size / 2
        } else if tape_size == i32::MIN {
            -0x4000_0000
        } else {
            -((-tape_size) / 2)
        };
        let mut text = String::from_str(".section .bss\n    .lcomm strbuff, ");
        append_decimal(&mut text, state.outbuffsize as u64);
        text.append("\n    .lcomm mem, ");
        append_signed_decimal(&mut text, tape_size as i64 * 8);
        text.append("\n    .set startidx, mem + ");
        append_signed_decimal(&mut text, half as i64 * 8);
        text.append(
            "\n.section .text\n.global _start\n_start:\n    xor %r12, %r12\n    movq $startidx, %rbx\n\n",
        );
        text.append(state.output.as_str());
        text.append("\n");
        match target.system {
            System::Linux => {
                text.append("    movq $60, %rax\n    movq $0, %rdi\n    syscall\n");
            },
            System::Redox => {
                text.append("    movq $");
                append_decimal(&mut text, target.sys_exit);
                text.append(", %rax\n    movq $0, %rdi\n    int $0x80\n");
            },
        }
        text.append("\n");
        assert(text@ =~= asm_program(all, tape_size, *target));
        text
    }
}

} // verus!
