//! The structured programs of the baseline lowering and of the gathering
//! optimizer, and what holds of structured programs put together.

use vstd::prelude::*;
use crate::lir::{strbuf, SpecLIR};
use crate::optimizer::simple::{count_loops, simple_lir, simple_lower, simple_node};
use crate::optimizer::simple_add::{
    count_ir_loops, gathered_ir, lower_step, lower_steps, simple_add_lir, SpecSimpleAddIR,
};
use crate::parser::SpecAST;
use crate::semantics::machine::{exec, Machine};
use crate::semantics::structured::{
    flat, flat_item, item_ok, items_ok, sem, sem_item, sem_loop, Item,
};
use crate::wellformed::target_of;

verus! {

/// The program of instructions that are no jumps.
pub open spec fn plain_items(lir: Seq<SpecLIR>) -> Seq<Item> {
    Seq::new(lir.len(), |i: int| Item::Plain(lir[i]))
}

/// The machine after instructions that are no jumps.
pub open spec fn exec_all(lir: Seq<SpecLIR>, m: Machine, modulus: int) -> Machine
    decreases lir.len(),
{
    if lir.len() == 0 {
        m
    } else {
        exec(lir.last(), exec_all(lir.drop_last(), m, modulus), modulus)
    }
}

/// One instruction that is no jump.
pub proof fn lemma_exec_one(instr: SpecLIR, m: Machine, modulus: int)
    ensures
        exec_all(seq![instr], m, modulus) == exec(instr, m, modulus),
{
    let one = seq![instr];
    assert(one.drop_last() =~= Seq::<SpecLIR>::empty());
    assert(exec_all(one.drop_last(), m, modulus) == m);
}

/// Two instructions that are no jumps.
pub proof fn lemma_exec_two(a: SpecLIR, b: SpecLIR, m: Machine, modulus: int)
    ensures
        exec_all(seq![a, b], m, modulus) == exec(b, exec(a, m, modulus), modulus),
{
    let two = seq![a, b];
    assert(two.drop_last() =~= seq![a]);
    lemma_exec_one(a, m, modulus);
}

/// Instructions that are no jumps, one list after another.
pub proof fn lemma_exec_all_concat(a: Seq<SpecLIR>, b: Seq<SpecLIR>, m: Machine, modulus: int)
    ensures
        exec_all(a + b, m, modulus) == exec_all(b, exec_all(a, m, modulus), modulus),
    decreases b.len(),
{
    if b.len() == 0 {
        assert(a + b =~= a);
    } else {
        lemma_exec_all_concat(a, b.drop_last(), m, modulus);
        assert((a + b).drop_last() =~= a + b.drop_last());
        assert((a + b).last() == b.last());
    }
}

/// The instruction list of two programs, one after the other, is the
/// instruction list of the one and then that of the other.
pub proof fn lemma_flat_concat(a: Seq<Item>, b: Seq<Item>)
    ensures
        flat(a + b) == flat(a) + flat(b),
        items_ok(a) && items_ok(b) ==> items_ok(a + b),
    decreases b.len(),
{
    if b.len() == 0 {
        assert(a + b =~= a);
        assert(flat(a) + flat(b) =~= flat(a));
    } else {
        lemma_flat_concat(a, b.drop_last());
        assert((a + b).drop_last() =~= a + b.drop_last());
        assert((a + b).last() == b.last());
        assert(flat(a + b) =~= flat(a) + flat(b));
    }
}

pub proof fn lemma_flat_one(item: Item)
    ensures
        flat(seq![item]) == flat_item(item),
        items_ok(seq![item]) == item_ok(item),
{
    assert(seq![item].drop_last() =~= Seq::<Item>::empty());
    assert(seq![item].last() == item);
    assert(flat(Seq::<Item>::empty()) =~= Seq::<SpecLIR>::empty());
    assert(flat(seq![item]) =~= flat_item(item));
    assert(items_ok(Seq::<Item>::empty()));
}

/// The instruction list of a program of plain instructions is the
/// instructions.
pub proof fn lemma_flat_plain(lir: Seq<SpecLIR>)
    ensures
        flat(plain_items(lir)) == lir,
        (forall|i: int| 0 <= i < lir.len() ==> target_of(#[trigger] lir[i]) is None) ==> items_ok(
            plain_items(lir),
        ),
    decreases lir.len(),
{
    if lir.len() == 0 {
        assert(flat(plain_items(lir)) =~= lir);
    } else {
        lemma_flat_plain(lir.drop_last());
        let items = plain_items(lir);
        assert(items.drop_last() =~= plain_items(lir.drop_last()));
        assert(items.last() == Item::Plain(lir.last()));
        assert(flat(items) == flat(items.drop_last()) + flat_item(items.last()));
        assert(flat_item(items.last()) == seq![lir.last()]);
        assert(lir.drop_last() + seq![lir.last()] =~= lir);
        if forall|i: int| 0 <= i < lir.len() ==> target_of(#[trigger] lir[i]) is None {
            assert forall|i: int| 0 <= i < lir.drop_last().len() implies target_of(
                #[trigger] lir.drop_last()[i],
            ) is None by {
                assert(lir.drop_last()[i] == lir[i]);
            }
            assert(target_of(lir[lir.len() - 1]) is None);
            assert(item_ok(items.last()));
            assert(items_ok(items) == (items_ok(items.drop_last()) && item_ok(items.last())));
        }
    }
}

/// Two programs, one after the other, mean the one and then the other.
pub proof fn lemma_sem_concat(a: Seq<Item>, b: Seq<Item>, m: Machine, modulus: int, fuel: nat)
    ensures
        sem(a + b, m, modulus, fuel) == match sem(a, m, modulus, fuel) {
            None => None,
            Some((m1, rest)) => if rest <= fuel {
                sem(b, m1, modulus, rest)
            } else {
                None
            },
        },
        sem(a, m, modulus, fuel) matches Some((m1, rest)) ==> rest <= fuel,
    decreases b.len(),
{
    lemma_sem_rest(a, m, modulus, fuel);
    if b.len() == 0 {
        assert(a + b =~= a);
    } else {
        lemma_sem_concat(a, b.drop_last(), m, modulus, fuel);
        assert((a + b).drop_last() =~= a + b.drop_last());
        assert((a + b).last() == b.last());
        if let Some((m1, rest)) = sem(a, m, modulus, fuel) {
            lemma_sem_rest(b.drop_last(), m1, modulus, rest);
        }
    }
}

/// A program leaves no more steps than it is given.
pub proof fn lemma_sem_rest(items: Seq<Item>, m: Machine, modulus: int, fuel: nat)
    ensures
        sem(items, m, modulus, fuel) matches Some((m1, rest)) ==> rest <= fuel,
    decreases fuel, items, 2nat,
{
    if items.len() > 0 {
        lemma_sem_rest(items.drop_last(), m, modulus, fuel);
        if let Some((m1, rest)) = sem(items.drop_last(), m, modulus, fuel) {
            lemma_sem_item_rest(items.last(), m1, modulus, rest);
        }
    }
}

pub proof fn lemma_sem_item_rest(item: Item, m: Machine, modulus: int, fuel: nat)
    ensures
        sem_item(item, m, modulus, fuel) matches Some((m1, rest)) ==> rest <= fuel,
    decreases fuel, item, 1nat,
{
    match item {
        Item::Loop(k, body) => {
            if fuel >= 1 {
                lemma_sem_loop_rest(body, m, modulus, (fuel - 1) as nat);
            }
        },
        _ => {},
    }
}

pub proof fn lemma_sem_loop_rest(body: Seq<Item>, m: Machine, modulus: int, fuel: nat)
    ensures
        sem_loop(body, m, modulus, fuel) matches Some((m1, rest)) ==> rest <= fuel,
    decreases fuel, body, 0nat,
{
    if fuel >= 3 {
        if let Some((m1, rest)) = sem(body, m, modulus, (fuel - 3) as nat) {
            if rest <= fuel - 3 {
                lemma_sem_loop_rest(body, m1, modulus, rest);
            }
        }
    }
}

/// With more steps a program that ends still ends, with the same machine,
/// and leaves as many steps more.
pub proof fn lemma_sem_more(items: Seq<Item>, m: Machine, modulus: int, fuel: nat, more: nat)
    requires
        sem(items, m, modulus, fuel) is Some,
    ensures
        sem(items, m, modulus, fuel + more) == Some(
            (sem(items, m, modulus, fuel)->Some_0.0, sem(items, m, modulus, fuel)->Some_0.1 + more),
        ),
    decreases fuel, items, 2nat,
{
    if items.len() > 0 {
        lemma_sem_more(items.drop_last(), m, modulus, fuel, more);
        lemma_sem_rest(items.drop_last(), m, modulus, fuel);
        let (m1, rest) = sem(items.drop_last(), m, modulus, fuel)->Some_0;
        lemma_sem_item_more(items.last(), m1, modulus, rest, more);
    }
}

pub proof fn lemma_sem_item_more(item: Item, m: Machine, modulus: int, fuel: nat, more: nat)
    requires
        sem_item(item, m, modulus, fuel) is Some,
    ensures
        sem_item(item, m, modulus, fuel + more) == Some(
            (
                sem_item(item, m, modulus, fuel)->Some_0.0,
                sem_item(item, m, modulus, fuel)->Some_0.1 + more,
            ),
        ),
    decreases fuel, item, 1nat,
{
    match item {
        Item::Plain(instr) => {},
        Item::Loop(k, body) => {
            lemma_sem_loop_more(body, m, modulus, (fuel - 1) as nat, more);
            assert((fuel + more - 1) as nat == (fuel - 1) as nat + more);
        },
        Item::If(k, test, body) => {
            if !crate::semantics::machine::is_zero(
                crate::semantics::machine::read(m, test),
                modulus,
            ) {
                lemma_sem_more(body, m, modulus, (fuel - 1) as nat, more);
                assert((fuel + more - 1) as nat == (fuel - 1) as nat + more);
            }
        },
    }
}

pub proof fn lemma_sem_loop_more(body: Seq<Item>, m: Machine, modulus: int, fuel: nat, more: nat)
    requires
        sem_loop(body, m, modulus, fuel) is Some,
    ensures
        sem_loop(body, m, modulus, fuel + more) == Some(
            (
                sem_loop(body, m, modulus, fuel)->Some_0.0,
                sem_loop(body, m, modulus, fuel)->Some_0.1 + more,
            ),
        ),
    decreases fuel, body, 0nat,
{
    if crate::semantics::machine::is_zero(
        crate::semantics::machine::read(m, crate::lir::SpecRVal::Tape(0)),
        modulus,
    ) {
    } else {
        lemma_sem_more(body, m, modulus, (fuel - 3) as nat, more);
        lemma_sem_rest(body, m, modulus, (fuel - 3) as nat);
        assert((fuel + more - 3) as nat == (fuel - 3) as nat + more);
        let (m1, rest) = sem(body, m, modulus, (fuel - 3) as nat)->Some_0;
        lemma_sem_loop_more(body, m1, modulus, rest, more);
    }
}

/// A program of plain instructions takes one step for each and does what
/// the instructions do.
pub proof fn lemma_sem_plain(lir: Seq<SpecLIR>, m: Machine, modulus: int, fuel: nat)
    ensures
        sem(plain_items(lir), m, modulus, fuel) == if fuel >= lir.len() {
            Some((exec_all(lir, m, modulus), (fuel - lir.len()) as nat))
        } else {
            None
        },
    decreases lir.len(),
{
    if lir.len() > 0 {
        lemma_sem_plain(lir.drop_last(), m, modulus, fuel);
        let items = plain_items(lir);
        assert(items.drop_last() =~= plain_items(lir.drop_last()));
        assert(items.last() == Item::Plain(lir.last()));
        match sem(items.drop_last(), m, modulus, fuel) {
            None => {
                assert(sem(items, m, modulus, fuel) is None);
            },
            Some((m1, rest)) => {
                assert(sem(items, m, modulus, fuel) == sem_item(items.last(), m1, modulus, rest));
                assert(sem_item(items.last(), m1, modulus, rest) == if rest >= 1 {
                    Some((exec(lir.last(), m1, modulus), (rest - 1) as nat))
                } else {
                    None
                });
            },
        }
    } else {
        assert(sem(plain_items(lir), m, modulus, fuel) == Some((m, fuel)));
    }
}

/// The structured program of the baseline lowering of a sequence of
/// commands, when `n` loops have been numbered before it.
pub open spec fn simple_items(ast: Seq<SpecAST>, n: nat) -> Seq<Item>
    decreases ast, 1nat,
{
    if ast.len() == 0 {
        Seq::empty()
    } else {
        simple_items(ast.drop_last(), n) + simple_node_items(
            ast.last(),
            n + count_loops(ast.drop_last()),
        )
    }
}

/// The structured program of the baseline lowering of one command.
pub open spec fn simple_node_items(node: SpecAST, n: nat) -> Seq<Item>
    decreases node, 0nat,
{
    match node {
        SpecAST::Loop(body) => seq![Item::Loop(n + 1, simple_items(body, n + 1))],
        _ => plain_items(simple_node(node, n)),
    }
}

/// The structured program of the baseline lowering of a program.
pub open spec fn simple_program(ast: Seq<SpecAST>) -> Seq<Item> {
    seq![Item::Plain(SpecLIR::DeclareBssBuf(strbuf(), 1))] + simple_items(ast, 0)
}

/// The baseline lowering is the instruction list of its structured
/// program, in which no plain part is a jump.
pub proof fn lemma_simple_items(ast: Seq<SpecAST>, n: nat)
    ensures
        flat(simple_items(ast, n)) == simple_lower(ast, n),
        items_ok(simple_items(ast, n)),
    decreases ast, 1nat,
{
    if ast.len() == 0 {
        assert(flat(simple_items(ast, n)) =~= simple_lower(ast, n));
    } else {
        let m = n + count_loops(ast.drop_last());
        lemma_simple_items(ast.drop_last(), n);
        lemma_simple_node_items(ast.last(), m);
        lemma_flat_concat(simple_items(ast.drop_last(), n), simple_node_items(ast.last(), m));
    }
}

pub proof fn lemma_simple_node_items(node: SpecAST, n: nat)
    ensures
        flat(simple_node_items(node, n)) == simple_node(node, n),
        items_ok(simple_node_items(node, n)),
    decreases node, 0nat,
{
    match node {
        SpecAST::Loop(body) => {
            lemma_simple_items(body, n + 1);
            lemma_flat_one(Item::Loop(n + 1, simple_items(body, n + 1)));
        },
        _ => {
            lemma_flat_plain(simple_node(node, n));
        },
    }
}

pub proof fn lemma_simple_program(ast: Seq<SpecAST>)
    ensures
        flat(simple_program(ast)) == simple_lir(ast),
        items_ok(simple_program(ast)),
{
    let head = Item::Plain(SpecLIR::DeclareBssBuf(strbuf(), 1));
    lemma_flat_one(head);
    lemma_simple_items(ast, 0);
    lemma_flat_concat(seq![head], simple_items(ast, 0));
}

/// The structured program of a gathered form, when `n` loops have been
/// numbered before it.
pub open spec fn steps_items(ir: Seq<SpecSimpleAddIR>, n: nat) -> Seq<Item>
    decreases ir, 1nat,
{
    if ir.len() == 0 {
        Seq::empty()
    } else {
        steps_items(ir.drop_last(), n) + step_items(ir.last(), n + count_ir_loops(ir.drop_last()))
    }
}

/// The structured program of one step of a gathered form.
pub open spec fn step_items(step: SpecSimpleAddIR, n: nat) -> Seq<Item>
    decreases step, 0nat,
{
    match step {
        SpecSimpleAddIR::Loop(body) => seq![Item::Loop(n + 1, steps_items(body, n + 1))],
        _ => plain_items(lower_step(step, n)),
    }
}

/// The structured program that the gathering optimizer gives for a
/// program.
pub open spec fn simple_add_program(ast: Seq<SpecAST>) -> Seq<Item> {
    seq![Item::Plain(SpecLIR::DeclareBssBuf(strbuf(), 1))] + steps_items(gathered_ir(ast), 0)
}

pub proof fn lemma_steps_items(ir: Seq<SpecSimpleAddIR>, n: nat)
    ensures
        flat(steps_items(ir, n)) == lower_steps(ir, n),
        items_ok(steps_items(ir, n)),
    decreases ir, 1nat,
{
    if ir.len() == 0 {
        assert(flat(steps_items(ir, n)) =~= lower_steps(ir, n));
    } else {
        let m = n + count_ir_loops(ir.drop_last());
        lemma_steps_items(ir.drop_last(), n);
        lemma_step_items(ir.last(), m);
        lemma_flat_concat(steps_items(ir.drop_last(), n), step_items(ir.last(), m));
    }
}

pub proof fn lemma_step_items(step: SpecSimpleAddIR, n: nat)
    ensures
        flat(step_items(step, n)) == lower_step(step, n),
        items_ok(step_items(step, n)),
    decreases step, 0nat,
{
    match step {
        SpecSimpleAddIR::Loop(body) => {
            lemma_steps_items(body, n + 1);
            lemma_flat_one(Item::Loop(n + 1, steps_items(body, n + 1)));
        },
        _ => {
            lemma_flat_plain(lower_step(step, n));
        },
    }
}

pub proof fn lemma_simple_add_program(ast: Seq<SpecAST>)
    ensures
        flat(simple_add_program(ast)) == simple_add_lir(ast),
        items_ok(simple_add_program(ast)),
{
    let head = Item::Plain(SpecLIR::DeclareBssBuf(strbuf(), 1));
    lemma_flat_one(head);
    lemma_steps_items(gathered_ir(ast), 0);
    lemma_flat_concat(seq![head], steps_items(gathered_ir(ast), 0));
}

} // verus!
