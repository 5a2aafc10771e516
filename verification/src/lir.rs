//! The low-level instruction list that every optimizer produces and every
//! backend consumes, and the builder that optimizers append to.

use vstd::prelude::*;
use vstd::std_specs::convert::FromSpecImpl;
use vstd::string::*;
use crate::text::{decimal, numbered};

verus! {

/// A writable location.
#[derive(Clone, Debug, PartialEq, Eq)]
pub enum LVal {
    /// A write-once virtual register.
    Reg(u32),
    /// The tape cell at an offset from the cursor.
    Tape(i32),
    /// A byte of a named buffer.
    Buf(String, usize),
}

/// A readable location, or an immediate value.
#[derive(Clone, Debug, PartialEq, Eq)]
pub enum RVal {
    Reg(u32),
    Tape(i32),
    Buf(String, usize),
    Immediate(i32),
}

/// One low-level instruction.
#[derive(Clone, Debug, PartialEq, Eq)]
pub enum LIR {
    /// Adds to the tape cursor.
    Shift(i32),
    Mul(LVal, RVal, RVal),
    Add(LVal, RVal, RVal),
    Sub(LVal, RVal, RVal),
    Mov(LVal, RVal),
    /// A branch target.
    Label(String),
    /// An unconditional jump.
    Jp(String),
    /// A jump taken when the operand is zero.
    Jz(RVal, String),
    /// A jump taken when the operand is not zero.
    Jnz(RVal, String),
    /// Reserves a zero-initialized byte buffer of the given size.
    DeclareBssBuf(String, usize),
    /// Reads bytes from standard input into a buffer: name, offset, length.
    Input(String, usize, usize),
    /// Writes bytes of a buffer to standard output: name, offset, length.
    Output(String, usize, usize),
}

/// The mathematical value of an [`LVal`]: names are character sequences.
pub enum SpecLVal {
    Reg(u32),
    Tape(i32),
    Buf(Seq<char>, usize),
}

/// The mathematical value of an [`RVal`].
pub enum SpecRVal {
    Reg(u32),
    Tape(i32),
    Buf(Seq<char>, usize),
    Immediate(i32),
}

/// The mathematical value of an [`LIR`] instruction.
pub enum SpecLIR {
    Shift(i32),
    Mul(SpecLVal, SpecRVal, SpecRVal),
    Add(SpecLVal, SpecRVal, SpecRVal),
    Sub(SpecLVal, SpecRVal, SpecRVal),
    Mov(SpecLVal, SpecRVal),
    Label(Seq<char>),
    Jp(Seq<char>),
    Jz(SpecRVal, Seq<char>),
    Jnz(SpecRVal, Seq<char>),
    DeclareBssBuf(Seq<char>, usize),
    Input(Seq<char>, usize, usize),
    Output(Seq<char>, usize, usize),
}

impl View for LVal {
    type V = SpecLVal;

    open spec fn view(&self) -> SpecLVal {
        match *self {
            LVal::Reg(n) => SpecLVal::Reg(n),
            LVal::Tape(o) => SpecLVal::Tape(o),
            LVal::Buf(name, i) => SpecLVal::Buf(name@, i),
        }
    }
}

impl View for RVal {
    type V = SpecRVal;

    open spec fn view(&self) -> SpecRVal {
        match *self {
            RVal::Reg(n) => SpecRVal::Reg(n),
            RVal::Tape(o) => SpecRVal::Tape(o),
            RVal::Buf(name, i) => SpecRVal::Buf(name@, i),
            RVal::Immediate(v) => SpecRVal::Immediate(v),
        }
    }
}

impl View for LIR {
    type V = SpecLIR;

    open spec fn view(&self) -> SpecLIR {
        match *self {
            LIR::Shift(k) => SpecLIR::Shift(k),
            LIR::Mul(d, a, b) => SpecLIR::Mul(d@, a@, b@),
            LIR::Add(d, a, b) => SpecLIR::Add(d@, a@, b@),
            LIR::Sub(d, a, b) => SpecLIR::Sub(d@, a@, b@),
            LIR::Mov(d, s) => SpecLIR::Mov(d@, s@),
            LIR::Label(name) => SpecLIR::Label(name@),
            LIR::Jp(name) => SpecLIR::Jp(name@),
            LIR::Jz(c, name) => SpecLIR::Jz(c@, name@),
            LIR::Jnz(c, name) => SpecLIR::Jnz(c@, name@),
            LIR::DeclareBssBuf(name, n) => SpecLIR::DeclareBssBuf(name@, n),
            LIR::Input(name, off, len) => SpecLIR::Input(name@, off, len),
            LIR::Output(name, off, len) => SpecLIR::Output(name@, off, len),
        }
    }
}

/// The readable location that names the same place as a writable one.
pub open spec fn lval_as_rval(l: SpecLVal) -> SpecRVal {
    match l {
        SpecLVal::Reg(n) => SpecRVal::Reg(n),
        SpecLVal::Tape(o) => SpecRVal::Tape(o),
        SpecLVal::Buf(name, i) => SpecRVal::Buf(name, i),
    }
}

impl From<LVal> for RVal {
    fn from(lval: LVal) -> (r: RVal)
        ensures
            r@ == lval_as_rval(lval@),
    {
        match lval {
            LVal::Reg(num) => RVal::Reg(num),
            LVal::Tape(offset) => RVal::Tape(offset),
            LVal::Buf(name, offset) => RVal::Buf(name, offset),
        }
    }
}

impl FromSpecImpl<LVal> for RVal {
    open spec fn obeys_from_spec() -> bool {
        true
    }

    open spec fn from_spec(lval: LVal) -> RVal {
        match lval {
            LVal::Reg(num) => RVal::Reg(num),
            LVal::Tape(offset) => RVal::Tape(offset),
            LVal::Buf(name, offset) => RVal::Buf(name, offset),
        }
    }
}

impl DeepView for LVal {
    type V = SpecLVal;

    open spec fn deep_view(&self) -> SpecLVal {
        self@
    }
}

impl DeepView for RVal {
    type V = SpecRVal;

    open spec fn deep_view(&self) -> SpecRVal {
        self@
    }
}

impl DeepView for LIR {
    type V = SpecLIR;

    open spec fn deep_view(&self) -> SpecLIR {
        self@
    }
}

/// The name of the label at the top of loop number `n`.
pub open spec fn loop_label(n: nat) -> Seq<char> {
    "loop"@ + decimal(n)
}

/// The name of the label at the bottom of loop number `n`.
pub open spec fn endloop_label(n: nat) -> Seq<char> {
    "endloop"@ + decimal(n)
}

/// The name of the label after conditional block number `n`.
pub open spec fn endif_label(n: nat) -> Seq<char> {
    "endif"@ + decimal(n)
}

/// The name of the buffer that output is gathered in.
pub open spec fn strbuf() -> Seq<char> {
    "strbuf"@
}

/// The name of the buffer that input is read into.
pub open spec fn inputbuf() -> Seq<char> {
    "inputbuf"@
}

pub fn loop_label_name(n: u32) -> (s: String)
    ensures
        s@ == loop_label(n as nat),
{
    numbered("loop", n as u64)
}

pub fn endloop_label_name(n: u32) -> (s: String)
    ensures
        s@ == endloop_label(n as nat),
{
    numbered("endloop", n as u64)
}

pub fn endif_label_name(n: u32) -> (s: String)
    ensures
        s@ == endif_label(n as nat),
{
    numbered("endif", n as u64)
}

pub fn strbuf_name() -> (s: String)
    ensures
        s@ == strbuf(),
{
    String::from_str("strbuf")
}

pub fn inputbuf_name() -> (s: String)
    ensures
        s@ == inputbuf(),
{
    String::from_str("inputbuf")
}

/// Accumulates instructions in the order in which they are appended.
pub struct LIRBuilder {
    lir: Vec<LIR>,
}

impl View for LIRBuilder {
    type V = Seq<SpecLIR>;

    closed spec fn view(&self) -> Seq<SpecLIR> {
        self.lir.deep_view()
    }
}

impl LIRBuilder {
    /// An empty builder.
    pub fn new() -> (b: Self)
        ensures
            b@ == Seq::<SpecLIR>::empty(),
    {
        let b = Self { lir: Vec::new() };
        assert(b@ =~= Seq::<SpecLIR>::empty());
        b
    }

    /// Appends one instruction.
    pub fn push(&mut self, instr: LIR)
        ensures
            final(self)@ == old(self)@.push(instr@),
    {
        self.lir.push(instr);
        assert(self@ =~= old(self)@.push(instr@));
    }

    pub fn shift(&mut self, offset: i32)
        ensures
            final(self)@ == old(self)@.push(SpecLIR::Shift(offset)),
    {
        self.push(LIR::Shift(offset));
    }

    pub fn label(&mut self, name: String)
        ensures
            final(self)@ == old(self)@.push(SpecLIR::Label(name@)),
    {
        self.push(LIR::Label(name));
    }

    pub fn declare_bss_buf(&mut self, name: String, size: usize)
        ensures
            final(self)@ == old(self)@.push(SpecLIR::DeclareBssBuf(name@, size)),
    {
        self.push(LIR::DeclareBssBuf(name, size));
    }

    pub fn input(&mut self, name: String, offset: usize, size: usize)
        ensures
            final(self)@ == old(self)@.push(SpecLIR::Input(name@, offset, size)),
    {
        self.push(LIR::Input(name, offset, size));
    }

    pub fn output(&mut self, name: String, offset: usize, size: usize)
        ensures
            final(self)@ == old(self)@.push(SpecLIR::Output(name@, offset, size)),
    {
        self.push(LIR::Output(name, offset, size));
    }

    pub fn mul(&mut self, dest: LVal, a: RVal, b: RVal)
        ensures
            final(self)@ == old(self)@.push(SpecLIR::Mul(dest@, a@, b@)),
    {
        self.push(LIR::Mul(dest, a, b));
    }

    pub fn add(&mut self, dest: LVal, a: RVal, b: RVal)
        ensures
            final(self)@ == old(self)@.push(SpecLIR::Add(dest@, a@, b@)),
    {
        self.push(LIR::Add(dest, a, b));
    }

    pub fn sub(&mut self, dest: LVal, a: RVal, b: RVal)
        ensures
            final(self)@ == old(self)@.push(SpecLIR::Sub(dest@, a@, b@)),
    {
        self.push(LIR::Sub(dest, a, b));
    }

    pub fn mov(&mut self, dest: LVal, src: RVal)
        ensures
            final(self)@ == old(self)@.push(SpecLIR::Mov(dest@, src@)),
    {
        self.push(LIR::Mov(dest, src));
    }

    pub fn jp(&mut self, name: String)
        ensures
            final(self)@ == old(self)@.push(SpecLIR::Jp(name@)),
    {
        self.push(LIR::Jp(name));
    }

    pub fn jz(&mut self, comparand: RVal, name: String)
        ensures
            final(self)@ == old(self)@.push(SpecLIR::Jz(comparand@, name@)),
    {
        self.push(LIR::Jz(comparand, name));
    }

    pub fn jnz(&mut self, comparand: RVal, name: String)
        ensures
            final(self)@ == old(self)@.push(SpecLIR::Jnz(comparand@, name@)),
    {
        self.push(LIR::Jnz(comparand, name));
    }

    /// The instructions appended so far, in order.
    pub fn build(self) -> (lir: Vec<LIR>)
        ensures
            lir.deep_view() == self@,
    {
        self.lir
    }
}

impl Default for LIRBuilder {
    fn default() -> (b: Self)
        ensures
            b@ == Seq::<SpecLIR>::empty(),
    {
        LIRBuilder::new()
    }
}

} // verus!
