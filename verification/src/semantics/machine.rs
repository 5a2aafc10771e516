//! What an instruction list does when it runs: a machine with a tape of
//! cells, a cursor, registers, byte buffers, an input stream and an output
//! stream, and the step that each instruction takes on it.
//!
//! The cells hold numbers modulo the size of the cell type, the buffers hold
//! bytes, and the cursor is a 32-bit number that wraps. A read at the end
//! of the input leaves the buffer as it is.

use vstd::prelude::*;
use crate::lir::{SpecLIR, SpecLVal, SpecRVal};

verus! {

/// The state of a running program.
pub struct Machine {
    /// The cell at each address.
    pub tape: Map<i32, int>,
    /// The address of the current cell.
    pub cursor: i32,
    /// What each register holds.
    pub regs: Map<u32, int>,
    /// The byte at each index of each buffer.
    pub bufs: Map<(Seq<char>, int), int>,
    /// The input that is not read yet.
    pub input: Seq<u8>,
    /// The output so far.
    pub output: Seq<u8>,
    /// Whether a read has found less input than it asked for.
    pub starved: bool,
}

/// The state in which a program starts: every cell, register and buffer
/// byte is zero, and nothing is written.
pub open spec fn initial(input: Seq<u8>) -> Machine {
    Machine {
        tape: Map::total(|a: i32| 0int),
        cursor: 0,
        regs: Map::total(|r: u32| 0int),
        bufs: Map::total(|k: (Seq<char>, int)| 0int),
        input,
        output: Seq::empty(),
        starved: false,
    }
}

/// Whether `modulus` is the number of values of a cell type of at most 32
/// bits: it is positive and divides 2^32.
pub open spec fn cell_modulus(modulus: int) -> bool {
    modulus > 0 && 0x1_0000_0000int % modulus == 0
}

/// The address of the cell at an offset from the cursor.
pub open spec fn address(m: Machine, offset: i32) -> i32 {
    m.cursor.wrapping_add(offset)
}

/// The value that is read from a location.
pub open spec fn read(m: Machine, val: SpecRVal) -> int {
    match val {
        SpecRVal::Reg(n) => m.regs[n],
        SpecRVal::Tape(o) => m.tape[address(m, o)],
        SpecRVal::Buf(name, i) => m.bufs[(name, i as int)],
        SpecRVal::Immediate(v) => v as int,
    }
}

/// The machine after a value is written to a location: a cell or a
/// register takes the value modulo `modulus`, a buffer byte modulo 256.
pub open spec fn store(m: Machine, dest: SpecLVal, value: int, modulus: int) -> Machine {
    match dest {
        SpecLVal::Reg(n) => Machine { regs: m.regs.insert(n, value % modulus), ..m },
        SpecLVal::Tape(o) => Machine {
            tape: m.tape.insert(address(m, o), value % modulus),
            ..m
        },
        SpecLVal::Buf(name, i) => Machine {
            bufs: m.bufs.insert((name, i as int), value % 256),
            ..m
        },
    }
}

/// The number of bytes that a read of `len` bytes gets.
pub open spec fn available(m: Machine, len: usize) -> int {
    if len <= m.input.len() {
        len as int
    } else {
        m.input.len() as int
    }
}

/// The machine after a read of up to `len` bytes into a buffer.
pub open spec fn after_input(m: Machine, name: Seq<char>, offset: usize, len: usize) -> Machine {
    let n = available(m, len);
    Machine {
        bufs: Map::total(
            |k: (Seq<char>, int)|
                if k.0 == name && offset <= k.1 < offset + n {
                    m.input[k.1 - offset] as int
                } else {
                    m.bufs[k]
                },
        ),
        input: m.input.subrange(n, m.input.len() as int),
        starved: m.starved || n < len,
        ..m
    }
}

/// The machine after a write of `len` bytes of a buffer.
pub open spec fn after_output(m: Machine, name: Seq<char>, offset: usize, len: usize) -> Machine {
    Machine {
        output: m.output + Seq::new(len as nat, |j: int| (m.bufs[(name, offset + j)] % 256) as u8),
        ..m
    }
}

/// The machine after an instruction that is no jump.
pub open spec fn exec(instr: SpecLIR, m: Machine, modulus: int) -> Machine {
    match instr {
        SpecLIR::Shift(k) => Machine { cursor: m.cursor.wrapping_add(k), ..m },
        SpecLIR::Mul(d, a, b) => store(m, d, read(m, a) * read(m, b), modulus),
        SpecLIR::Add(d, a, b) => store(m, d, read(m, a) + read(m, b), modulus),
        SpecLIR::Sub(d, a, b) => store(m, d, read(m, a) - read(m, b), modulus),
        SpecLIR::Mov(d, s) => store(m, d, read(m, s), modulus),
        SpecLIR::Input(name, offset, len) => after_input(m, name, offset, len),
        SpecLIR::Output(name, offset, len) => after_output(m, name, offset, len),
        _ => m,
    }
}

/// The first index at or after `i` where the label `name` is defined; the
/// length of the program if it is defined nowhere.
pub open spec fn find_label(lir: Seq<SpecLIR>, name: Seq<char>, i: int) -> int
    decreases lir.len() - i,
{
    if i < 0 || i >= lir.len() || lir[i] == SpecLIR::Label(name) {
        i
    } else {
        find_label(lir, name, i + 1)
    }
}

/// Whether a value counts as zero in a test.
pub open spec fn is_zero(value: int, modulus: int) -> bool {
    value % modulus == 0
}

/// The position and the machine after the instruction at `pc`.
pub open spec fn step(lir: Seq<SpecLIR>, pc: int, m: Machine, modulus: int) -> (int, Machine) {
    match lir[pc] {
        SpecLIR::Jp(name) => (find_label(lir, name, 0), m),
        SpecLIR::Jz(c, name) => if is_zero(read(m, c), modulus) {
            (find_label(lir, name, 0), m)
        } else {
            (pc + 1, m)
        },
        SpecLIR::Jnz(c, name) => if !is_zero(read(m, c), modulus) {
            (find_label(lir, name, 0), m)
        } else {
            (pc + 1, m)
        },
        instr => (pc + 1, exec(instr, m, modulus)),
    }
}

/// Whether `pc` is a position of the program; the program has ended when it
/// is not.
pub open spec fn running(lir: Seq<SpecLIR>, pc: int) -> bool {
    0 <= pc < lir.len()
}

/// The position and the machine after `steps` steps from `pc`, or where the
/// program ended before.
pub open spec fn run(lir: Seq<SpecLIR>, pc: int, m: Machine, modulus: int, steps: nat) -> (
    int,
    Machine,
)
    decreases steps,
{
    if steps == 0 || !running(lir, pc) {
        (pc, m)
    } else {
        let (next, after) = step(lir, pc, m, modulus);
        run(lir, next, after, modulus, (steps - 1) as nat)
    }
}

/// Whether the program has ended after `steps` steps on `input`.
pub open spec fn ends_within(lir: Seq<SpecLIR>, input: Seq<u8>, modulus: int, steps: nat) -> bool {
    !running(lir, run(lir, 0, initial(input), modulus, steps).0)
}

/// Whether, in `steps` steps on `input`, every read of the program has
/// found the input that it asked for.
pub open spec fn fed_within(lir: Seq<SpecLIR>, input: Seq<u8>, modulus: int, steps: nat) -> bool {
    !run(lir, 0, initial(input), modulus, steps).1.starved
}

/// What the program has written after `steps` steps on `input`.
pub open spec fn output_after(lir: Seq<SpecLIR>, input: Seq<u8>, modulus: int, steps: nat) -> Seq<
    u8,
> {
    run(lir, 0, initial(input), modulus, steps).1.output
}

/// Running `a + b` steps is running `a` steps and then `b` steps.
pub proof fn lemma_run_split(lir: Seq<SpecLIR>, pc: int, m: Machine, modulus: int, a: nat, b: nat)
    ensures
        run(lir, pc, m, modulus, a + b) == run(
            lir,
            run(lir, pc, m, modulus, a).0,
            run(lir, pc, m, modulus, a).1,
            modulus,
            b,
        ),
    decreases a,
{
    if a == 0 {
    } else if !running(lir, pc) {
        assert(run(lir, pc, m, modulus, b) == (pc, m)) by {
            reveal_with_fuel(run, 1);
        }
    } else {
        let (next, after) = step(lir, pc, m, modulus);
        lemma_run_split(lir, next, after, modulus, (a - 1) as nat, b);
        assert((a + b - 1) as nat == (a - 1) as nat + b);
    }
}

/// A program that has ended stays where it is.
pub proof fn lemma_run_ended(lir: Seq<SpecLIR>, pc: int, m: Machine, modulus: int, steps: nat)
    requires
        !running(lir, pc),
    ensures
        run(lir, pc, m, modulus, steps) == (pc, m),
{
}

/// A program that has ended after some steps has ended after more, with
/// the same machine.
pub proof fn lemma_run_more(
    lir: Seq<SpecLIR>,
    pc: int,
    m: Machine,
    modulus: int,
    steps: nat,
    more: nat,
)
    requires
        !running(lir, run(lir, pc, m, modulus, steps).0),
        steps <= more,
    ensures
        run(lir, pc, m, modulus, more) == run(lir, pc, m, modulus, steps),
{
    lemma_run_split(lir, pc, m, modulus, steps, (more - steps) as nat);
    let (p, after) = run(lir, pc, m, modulus, steps);
    lemma_run_ended(lir, p, after, modulus, (more - steps) as nat);
}

/// In a program whose labels are defined once, a label is found where it
/// is defined.
pub proof fn lemma_find_label(lir: Seq<SpecLIR>, name: Seq<char>, at: int)
    requires
        crate::wellformed::labels_unique(lir),
        0 <= at < lir.len(),
        lir[at] == SpecLIR::Label(name),
    ensures
        find_label(lir, name, 0) == at,
{
    lemma_find_label_from(lir, name, at, 0);
}

proof fn lemma_find_label_from(lir: Seq<SpecLIR>, name: Seq<char>, at: int, i: int)
    requires
        crate::wellformed::labels_unique(lir),
        0 <= i <= at < lir.len(),
        lir[at] == SpecLIR::Label(name),
    ensures
        find_label(lir, name, i) == at,
    decreases at - i,
{
    if i < at {
        if lir[i] == SpecLIR::Label(name) {
            assert(crate::wellformed::label_of(lir[i]) == crate::wellformed::label_of(lir[at]));
        }
        lemma_find_label_from(lir, name, at, i + 1);
    }
}

} // verus!
