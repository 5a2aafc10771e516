//! The token form of a program means what the baseline lowering of the
//! program does, as long as no read finds the input at its end.

use vstd::arithmetic::div_mod::{lemma_mod_twice, lemma_small_mod};
use vstd::prelude::*;
use crate::lir::{SpecLIR, SpecRVal};
use crate::optimizer::peephole::token::{tokens_of, tokens_of_node, SpecToken};
use crate::optimizer::simple::{count_loops, simple_node};
use crate::parser::SpecAST;
use crate::semantics::gathering::{cell_sound, lemma_exec_all_sound, lemma_sem_one, sound};
use crate::semantics::machine::{exec, is_zero, read, Machine};
use crate::semantics::programs::{lemma_exec_one, lemma_exec_two, 
    exec_all, lemma_sem_concat, lemma_sem_plain, simple_items, simple_node_items,
};
use crate::semantics::structured::{sem, sem_item, sem_loop, Item};
use crate::semantics::peephole::tokens::{
    cell, lemma_tsem_concat, lemma_tsem_more, lemma_tsem_one, tsem, tsem_loop, tsem_token,
    TokenState,
};

verus! {

/// A program never takes back that a read was starved.
pub proof fn lemma_sem_starved(items: Seq<Item>, m: Machine, modulus: int, fuel: nat)
    ensures
        sem(items, m, modulus, fuel) matches Some((m1, rest)) ==> (m.starved ==> m1.starved),
    decreases fuel, items, 2nat,
{
    if items.len() > 0 {
        lemma_sem_starved(items.drop_last(), m, modulus, fuel);
        if let Some((m1, rest)) = sem(items.drop_last(), m, modulus, fuel) {
            if rest <= fuel {
                lemma_sem_item_starved(items.last(), m1, modulus, rest);
            }
        }
    }
}

pub proof fn lemma_sem_item_starved(item: Item, m: Machine, modulus: int, fuel: nat)
    ensures
        sem_item(item, m, modulus, fuel) matches Some((m1, rest)) ==> (m.starved ==> m1.starved),
    decreases fuel, item, 1nat,
{
    match item {
        Item::Plain(instr) => {},
        Item::Loop(k, body) => {
            if fuel >= 1 {
                lemma_sem_loop_starved(body, m, modulus, (fuel - 1) as nat);
            }
        },
        Item::If(k, test, body) => {
            if fuel >= 2 {
                lemma_sem_starved(body, m, modulus, (fuel - 1) as nat);
            }
        },
    }
}

pub proof fn lemma_sem_loop_starved(body: Seq<Item>, m: Machine, modulus: int, fuel: nat)
    ensures
        sem_loop(body, m, modulus, fuel) matches Some((m1, rest)) ==> (m.starved ==> m1.starved),
    decreases fuel, body, 0nat,
{
    if fuel >= 3 {
        lemma_sem_starved(body, m, modulus, (fuel - 3) as nat);
        if let Some((m1, rest)) = sem(body, m, modulus, (fuel - 3) as nat) {
            if rest <= fuel - 3 {
                lemma_sem_loop_starved(body, m1, modulus, rest);
            }
        }
    }
}

/// Whether a token state shows what a machine shows: the same tape, cursor,
/// input and output, with nothing loaded that is not written, and no read
/// starved.
pub open spec fn shows(ts: TokenState, m: Machine, modulus: int) -> bool {
    &&& ts.tape == m.tape
    &&& ts.cursor == m.cursor
    &&& ts.input == m.input
    &&& ts.output == m.output
    &&& ts.buffer.len() == 0
    &&& !ts.starved
    &&& !m.starved
    &&& sound(m, modulus)
}

proof fn lemma_tsem_two(a: SpecToken, b: SpecToken, s: TokenState, modulus: int, fuel: nat)
    ensures
        tsem(seq![a, b], s, modulus, fuel) == match tsem_token(a, s, modulus, fuel) {
            None => None,
            Some(s1) => tsem_token(b, s1, modulus, fuel),
        },
{
    lemma_tsem_one(a, s, modulus, fuel);
    assert(seq![a, b].drop_last() =~= seq![a]);
    assert(seq![a, b].last() == b);
}

/// One command that is no loop: the tokens of the command lead a token
/// state that shows the machine to one that shows the machine after the
/// baseline instructions of the command.
proof fn lemma_plain_node(node: SpecAST, n: nat, ms: Machine, ts: TokenState, modulus: int)
    requires
        modulus > 0,
        !(node is Loop),
        shows(ts, ms, modulus),
        !exec_all(simple_node(node, n), ms, modulus).starved,
    ensures
        tsem(tokens_of_node(node), ts, modulus, 0) is Some,
        shows(
            tsem(tokens_of_node(node), ts, modulus, 0)->Some_0,
            exec_all(simple_node(node, n), ms, modulus),
            modulus,
        ),
{
    let lir = simple_node(node, n);
    let after = exec_all(lir, ms, modulus);
    lemma_exec_all_sound(lir, ms, modulus);
    assert(cell_sound(ms, ms.cursor, modulus));
    match node {
        SpecAST::Output => {
            lemma_exec_two(lir[0], lir[1], ms, modulus);
            assert(lir =~= seq![lir[0], lir[1]]);
            lemma_tsem_two(SpecToken::LoadOut(0, 0), SpecToken::Output, ts, modulus, 0);
            let x = ms.tape[ms.cursor];
            lemma_small_mod(x as nat, modulus as nat);
            lemma_mod_twice(x, 256);
            let t2 = tsem(tokens_of_node(node), ts, modulus, 0)->Some_0;
            assert(t2.output =~= after.output);
        },
        SpecAST::Input => {
            lemma_exec_two(lir[0], lir[1], ms, modulus);
            assert(lir =~= seq![lir[0], lir[1]]);
            lemma_tsem_one(SpecToken::Input, ts, modulus, 0);
            let t2 = tsem(tokens_of_node(node), ts, modulus, 0)->Some_0;
            assert(t2.tape =~= after.tape);
        },
        SpecAST::Shift(k) => {
            lemma_exec_one(lir[0], ms, modulus);
            assert(lir =~= seq![lir[0]]);
            lemma_tsem_one(SpecToken::Move(k), ts, modulus, 0);
        },
        SpecAST::Add(k) => {
            lemma_exec_one(lir[0], ms, modulus);
            assert(lir =~= seq![lir[0]]);
            lemma_tsem_one(SpecToken::Add(0, k), ts, modulus, 0);
        },
        SpecAST::Loop(_) => {},
    }
}

/// The token form of a sequence of commands means what the baseline
/// program of the sequence does: where the program ends with no read
/// starved, the tokens end, within the fuel that the lemma gives, in a
/// state that shows the machine of the program.
pub proof fn lemma_tokens_sim(
    ast: Seq<SpecAST>,
    n: nat,
    ms: Machine,
    ts: TokenState,
    modulus: int,
    fuel: nat,
) -> (ft: nat)
    requires
        modulus > 0,
        shows(ts, ms, modulus),
        sem(simple_items(ast, n), ms, modulus, fuel) is Some,
        !sem(simple_items(ast, n), ms, modulus, fuel)->Some_0.0.starved,
    ensures
        tsem(tokens_of(ast), ts, modulus, ft) is Some,
        shows(
            tsem(tokens_of(ast), ts, modulus, ft)->Some_0,
            sem(simple_items(ast, n), ms, modulus, fuel)->Some_0.0,
            modulus,
        ),
    decreases ast, 1nat, 0nat,
{
    if ast.len() == 0 {
        0
    } else {
        let before = ast.drop_last();
        let node = ast.last();
        let head = simple_items(before, n);
        let k = n + count_loops(before);
        let tail = simple_node_items(node, k);
        lemma_sem_concat(head, tail, ms, modulus, fuel);
        let (ms1, r1) = sem(head, ms, modulus, fuel)->Some_0;
        lemma_sem_starved(tail, ms1, modulus, r1);
        let f1 = lemma_tokens_sim(before, n, ms, ts, modulus, fuel);
        let ts1 = tsem(tokens_of(before), ts, modulus, f1)->Some_0;
        let f2 = lemma_node_tokens(node, k, ms1, ts1, modulus, r1);
        lemma_tsem_more(tokens_of(before), ts, modulus, f1, f2);
        lemma_tsem_concat(tokens_of(before), tokens_of_node(node), ts, modulus, f1 + f2);
        lemma_tsem_more(tokens_of_node(node), ts1, modulus, f2, f1);
        assert(f2 + f1 == f1 + f2);
        f1 + f2
    }
}

/// One command: its tokens mean what its baseline program does.
pub proof fn lemma_node_tokens(
    node: SpecAST,
    n: nat,
    ms: Machine,
    ts: TokenState,
    modulus: int,
    fuel: nat,
) -> (ft: nat)
    requires
        modulus > 0,
        shows(ts, ms, modulus),
        sem(simple_node_items(node, n), ms, modulus, fuel) is Some,
        !sem(simple_node_items(node, n), ms, modulus, fuel)->Some_0.0.starved,
    ensures
        tsem(tokens_of_node(node), ts, modulus, ft) is Some,
        shows(
            tsem(tokens_of_node(node), ts, modulus, ft)->Some_0,
            sem(simple_node_items(node, n), ms, modulus, fuel)->Some_0.0,
            modulus,
        ),
    decreases node, 0nat, 0nat,
{
    match node {
        SpecAST::Loop(body) => {
            let item = Item::Loop(n + 1, simple_items(body, n + 1));
            lemma_sem_one(item, ms, modulus, fuel);
            let ft = lemma_loop_tokens(body, n + 1, ms, ts, modulus, (fuel - 1) as nat);
            lemma_tsem_one(SpecToken::Loop(tokens_of(body)), ts, modulus, ft);
            ft
        },
        _ => {
            lemma_sem_plain(simple_node(node, n), ms, modulus, fuel);
            lemma_plain_node(node, n, ms, ts, modulus);
            0
        },
    }
}

/// A loop: the loop over the tokens of the body means what the baseline
/// loop does.
pub proof fn lemma_loop_tokens(
    body: Seq<SpecAST>,
    n: nat,
    ms: Machine,
    ts: TokenState,
    modulus: int,
    fuel: nat,
) -> (ft: nat)
    requires
        modulus > 0,
        shows(ts, ms, modulus),
        sem_loop(simple_items(body, n), ms, modulus, fuel) is Some,
        !sem_loop(simple_items(body, n), ms, modulus, fuel)->Some_0.0.starved,
    ensures
        tsem_loop(tokens_of(body), ts, modulus, ft) is Some,
        shows(
            tsem_loop(tokens_of(body), ts, modulus, ft)->Some_0,
            sem_loop(simple_items(body, n), ms, modulus, fuel)->Some_0.0,
            modulus,
        ),
    decreases body, 2nat, fuel,
{
    let inner = simple_items(body, n);
    assert(read(ms, SpecRVal::Tape(0)) == cell(ts, 0));
    if is_zero(read(ms, SpecRVal::Tape(0)), modulus) {
        0
    } else {
        let (m1, r1) = sem(inner, ms, modulus, (fuel - 3) as nat)->Some_0;
        lemma_sem_loop_starved(inner, m1, modulus, r1);
        let fb = lemma_tokens_sim(body, n, ms, ts, modulus, (fuel - 3) as nat);
        let t1 = tsem(tokens_of(body), ts, modulus, fb)->Some_0;
        let fl = lemma_loop_tokens(body, n, m1, t1, modulus, r1);
        lemma_tsem_more(tokens_of(body), ts, modulus, fb, fl);
        crate::semantics::peephole::tokens::lemma_tsem_loop_more(tokens_of(body), t1, modulus, fl, fb);
        assert(fl + fb == fb + fl);
        assert((1 + fb + fl - 1) as nat == fb + fl);
        1 + fb + fl
    }
}

} // verus!
