//! What the intermediate form of the graph-based optimizer means.
//!
//! An output loads a byte into the output buffer; the buffer is written
//! before a loop begins and at the end of a block. A graph is committed as
//! a whole: every terminal is computed over the state before.

use vstd::arithmetic::div_mod::lemma_mod_bound;
use vstd::prelude::*;
use crate::lir::SpecRVal;
use crate::optimizer::new::ir::SpecIR;
use crate::semantics::graph::extending::{lemma_after_expr_sound, moved};
use crate::semantics::graph::graphs::after_expr;
use crate::semantics::peephole::pending::{tcell_sound, tsound};
use crate::semantics::peephole::tokens::{byte, cell, cell_is_zero, TokenState};

verus! {

/// What an output step loads: a cell or a constant.
pub open spec fn operand(v: SpecRVal, s: TokenState) -> int {
    match v {
        SpecRVal::Tape(offset) => cell(s, offset),
        SpecRVal::Immediate(c) => c as int,
        _ => 0,
    }
}

/// The state with the output buffer written.
pub open spec fn flushed(s: TokenState) -> TokenState {
    TokenState { output: s.output + s.buffer, buffer: Seq::empty(), ..s }
}

/// The state after a byte is read into the cell at an offset: at the end of
/// the input the cell takes the byte that was read last.
pub open spec fn read_at(s: TokenState, offset: i32, modulus: int) -> TokenState {
    if s.input.len() >= 1 {
        TokenState {
            tape: s.tape.insert(s.cursor.wrapping_add(offset), (s.input[0] as int) % modulus),
            input: s.input.subrange(1, s.input.len() as int),
            inbuf: s.input[0] as int,
            ..s
        }
    } else {
        TokenState {
            tape: s.tape.insert(s.cursor.wrapping_add(offset), s.inbuf % modulus),
            starved: true,
            ..s
        }
    }
}

/// The state after a sequence of steps; nothing if a loop takes more
/// passes than `fuel`.
pub open spec fn isem(ir: Seq<SpecIR>, s: TokenState, modulus: int, fuel: nat) -> Option<
    TokenState,
>
    decreases fuel, ir, 2nat,
{
    if ir.len() == 0 {
        Some(s)
    } else {
        match isem(ir.drop_last(), s, modulus, fuel) {
            None => None,
            Some(s1) => isem_step(ir.last(), s1, modulus, fuel),
        }
    }
}

/// The state after one step.
pub open spec fn isem_step(step: SpecIR, s: TokenState, modulus: int, fuel: nat) -> Option<
    TokenState,
>
    decreases fuel, step, 1nat,
{
    match step {
        SpecIR::Output(v) => Some(TokenState { buffer: s.buffer.push(byte(operand(v, s))), ..s }),
        SpecIR::Input(offset) => Some(read_at(s, offset, modulus)),
        SpecIR::Loop(shift, body, end_shift) => isem_loop(
            body,
            end_shift,
            moved(flushed(s), shift),
            modulus,
            fuel,
        ),
        SpecIR::Expr(d) => Some(after_expr(d, s, modulus)),
    }
}

/// The state after a loop: while the current cell is not zero, the body
/// runs, the output buffer is written and the cursor moves by `end_shift`;
/// each pass takes one of the fuel.
pub open spec fn isem_loop(
    body: Seq<SpecIR>,
    end_shift: i32,
    s: TokenState,
    modulus: int,
    fuel: nat,
) -> Option<TokenState>
    decreases fuel, body, 0nat,
{
    if cell_is_zero(s, 0, modulus) {
        Some(s)
    } else if fuel == 0 {
        None
    } else {
        match isem(body, s, modulus, (fuel - 1) as nat) {
            None => None,
            Some(s1) => isem_loop(
                body,
                end_shift,
                moved(flushed(s1), end_shift),
                modulus,
                (fuel - 1) as nat,
            ),
        }
    }
}

/// With more fuel a sequence of steps that ends still ends, in the same
/// state.
pub proof fn lemma_isem_more(ir: Seq<SpecIR>, s: TokenState, modulus: int, fuel: nat, more: nat)
    requires
        isem(ir, s, modulus, fuel) is Some,
    ensures
        isem(ir, s, modulus, fuel + more) == isem(ir, s, modulus, fuel),
    decreases fuel, ir, 2nat,
{
    if ir.len() > 0 {
        lemma_isem_more(ir.drop_last(), s, modulus, fuel, more);
        let s1 = isem(ir.drop_last(), s, modulus, fuel)->Some_0;
        lemma_isem_step_more(ir.last(), s1, modulus, fuel, more);
    }
}

pub proof fn lemma_isem_step_more(
    step: SpecIR,
    s: TokenState,
    modulus: int,
    fuel: nat,
    more: nat,
)
    requires
        isem_step(step, s, modulus, fuel) is Some,
    ensures
        isem_step(step, s, modulus, fuel + more) == isem_step(step, s, modulus, fuel),
    decreases fuel, step, 1nat,
{
    match step {
        SpecIR::Loop(shift, body, end_shift) => {
            lemma_isem_loop_more(body, end_shift, moved(flushed(s), shift), modulus, fuel, more);
        },
        _ => {},
    }
}

pub proof fn lemma_isem_loop_more(
    body: Seq<SpecIR>,
    end_shift: i32,
    s: TokenState,
    modulus: int,
    fuel: nat,
    more: nat,
)
    requires
        isem_loop(body, end_shift, s, modulus, fuel) is Some,
    ensures
        isem_loop(body, end_shift, s, modulus, fuel + more) == isem_loop(
            body,
            end_shift,
            s,
            modulus,
            fuel,
        ),
    decreases fuel, body, 0nat,
{
    if !cell_is_zero(s, 0, modulus) {
        lemma_isem_more(body, s, modulus, (fuel - 1) as nat, more);
        let s1 = isem(body, s, modulus, (fuel - 1) as nat)->Some_0;
        lemma_isem_loop_more(
            body,
            end_shift,
            moved(flushed(s1), end_shift),
            modulus,
            (fuel - 1) as nat,
            more,
        );
        assert((fuel + more - 1) as nat == (fuel - 1) as nat + more);
    }
}

/// One more step at the end of a sequence.
pub proof fn lemma_isem_push(ir: Seq<SpecIR>, step: SpecIR, s: TokenState, modulus: int, fuel: nat)
    ensures
        isem(ir.push(step), s, modulus, fuel) == match isem(ir, s, modulus, fuel) {
            None => None,
            Some(s1) => isem_step(step, s1, modulus, fuel),
        },
{
    assert(ir.push(step).drop_last() =~= ir);
    assert(ir.push(step).last() == step);
}

/// A flat step keeps a state sound.
pub proof fn lemma_isem_sound(ir: Seq<SpecIR>, s: TokenState, modulus: int, fuel: nat)
    requires
        modulus > 0,
        tsound(s, modulus),
        isem(ir, s, modulus, fuel) is Some,
    ensures
        tsound(isem(ir, s, modulus, fuel)->Some_0, modulus),
    decreases fuel, ir, 2nat,
{
    if ir.len() > 0 {
        lemma_isem_sound(ir.drop_last(), s, modulus, fuel);
        let s1 = isem(ir.drop_last(), s, modulus, fuel)->Some_0;
        lemma_isem_step_sound(ir.last(), s1, modulus, fuel);
    }
}

/// Writing the output buffer and moving the cursor keep a state sound.
pub proof fn lemma_moved_sound(s: TokenState, shift: i32, modulus: int)
    requires
        tsound(s, modulus),
    ensures
        tsound(moved(flushed(s), shift), modulus),
        tsound(moved(s, shift), modulus),
        tsound(flushed(s), modulus),
{
    assert forall|a: i32| tcell_sound(moved(flushed(s), shift), a, modulus) by {
        assert(tcell_sound(s, a, modulus));
    }
    assert forall|a: i32| tcell_sound(moved(s, shift), a, modulus) by {
        assert(tcell_sound(s, a, modulus));
    }
    assert forall|a: i32| tcell_sound(flushed(s), a, modulus) by {
        assert(tcell_sound(s, a, modulus));
    }
}

/// A read keeps a state sound.
pub proof fn lemma_read_sound(s: TokenState, offset: i32, modulus: int)
    requires
        modulus > 0,
        tsound(s, modulus),
    ensures
        tsound(read_at(s, offset, modulus), modulus),
{
    let after = read_at(s, offset, modulus);
    assert forall|a: i32| tcell_sound(after, a, modulus) by {
        assert(tcell_sound(s, a, modulus));
        if s.input.len() >= 1 {
            lemma_mod_bound(s.input[0] as int, modulus);
        } else {
            lemma_mod_bound(s.inbuf, modulus);
        }
    }
}

pub proof fn lemma_isem_step_sound(step: SpecIR, s: TokenState, modulus: int, fuel: nat)
    requires
        modulus > 0,
        tsound(s, modulus),
        isem_step(step, s, modulus, fuel) is Some,
    ensures
        tsound(isem_step(step, s, modulus, fuel)->Some_0, modulus),
    decreases fuel, step, 1nat,
{
    match step {
        SpecIR::Output(v) => {
            let after = isem_step(step, s, modulus, fuel)->Some_0;
            assert forall|a: i32| tcell_sound(after, a, modulus) by {
                assert(tcell_sound(s, a, modulus));
            }
        },
        SpecIR::Input(offset) => {
            lemma_read_sound(s, offset, modulus);
        },
        SpecIR::Loop(shift, body, end_shift) => {
            lemma_moved_sound(s, shift, modulus);
            lemma_isem_loop_sound(body, end_shift, moved(flushed(s), shift), modulus, fuel);
        },
        SpecIR::Expr(d) => {
            lemma_after_expr_sound(d, s, modulus);
        },
    }
}

pub proof fn lemma_isem_loop_sound(
    body: Seq<SpecIR>,
    end_shift: i32,
    s: TokenState,
    modulus: int,
    fuel: nat,
)
    requires
        modulus > 0,
        tsound(s, modulus),
        isem_loop(body, end_shift, s, modulus, fuel) is Some,
    ensures
        tsound(isem_loop(body, end_shift, s, modulus, fuel)->Some_0, modulus),
    decreases fuel, body, 0nat,
{
    if !cell_is_zero(s, 0, modulus) {
        lemma_isem_sound(body, s, modulus, (fuel - 1) as nat);
        let s1 = isem(body, s, modulus, (fuel - 1) as nat)->Some_0;
        lemma_moved_sound(s1, end_shift, modulus);
        lemma_isem_loop_sound(
            body,
            end_shift,
            moved(flushed(s1), end_shift),
            modulus,
            (fuel - 1) as nat,
        );
    }
}

} // verus!
