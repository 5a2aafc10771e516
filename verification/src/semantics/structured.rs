//! Programs with their loops and conditional blocks still in one piece, and
//! what they mean. The instruction list of such a program runs as the
//! program says, step for step.

use vstd::prelude::*;
use crate::lir::{endif_label, endloop_label, loop_label, SpecLIR, SpecRVal};
use crate::optimizer::simple::{loop_head, loop_tail};
use crate::semantics::machine::{
    exec, is_zero, lemma_find_label, lemma_run_split, read, run, running, step, Machine,
};
use crate::wellformed::{labels_unique, target_of};

verus! {

/// One part of a structured program.
pub enum Item {
    /// An instruction that is no jump.
    Plain(SpecLIR),
    /// Loop number `k`: the body runs while the current cell is not zero.
    Loop(nat, Seq<Item>),
    /// Conditional block number `k`: the body runs once if the value is not
    /// zero.
    If(nat, SpecRVal, Seq<Item>),
}

/// The instruction list of a structured program.
pub open spec fn flat(items: Seq<Item>) -> Seq<SpecLIR>
    decreases items, 1nat,
{
    if items.len() == 0 {
        Seq::empty()
    } else {
        flat(items.drop_last()) + flat_item(items.last())
    }
}

/// The instruction list of one part.
pub open spec fn flat_item(item: Item) -> Seq<SpecLIR>
    decreases item, 0nat,
{
    match item {
        Item::Plain(instr) => seq![instr],
        Item::Loop(k, body) => loop_head(k) + flat(body) + loop_tail(k),
        Item::If(k, test, body) => seq![SpecLIR::Jz(test, endif_label(k))] + flat(body) + seq![
            SpecLIR::Label(endif_label(k)),
        ],
    }
}

/// Whether no plain part of a program is a jump.
pub open spec fn items_ok(items: Seq<Item>) -> bool
    decreases items, 1nat,
{
    items.len() == 0 || (items_ok(items.drop_last()) && item_ok(items.last()))
}

/// Whether no plain part of a part is a jump.
pub open spec fn item_ok(item: Item) -> bool
    decreases item, 0nat,
{
    match item {
        Item::Plain(instr) => target_of(instr) is None,
        Item::Loop(_, body) => items_ok(body),
        Item::If(_, _, body) => items_ok(body),
    }
}

/// The machine after a program, and the steps that are left of `fuel`
/// steps; nothing if the steps do not suffice. Every instruction takes a
/// step, a label too.
pub open spec fn sem(items: Seq<Item>, m: Machine, modulus: int, fuel: nat) -> Option<
    (Machine, nat),
>
    decreases fuel, items, 2nat,
{
    if items.len() == 0 {
        Some((m, fuel))
    } else {
        match sem(items.drop_last(), m, modulus, fuel) {
            None => None,
            Some((m1, rest)) => if rest <= fuel {
                sem_item(items.last(), m1, modulus, rest)
            } else {
                None
            },
        }
    }
}

/// The machine after one part, and the steps that are left.
pub open spec fn sem_item(item: Item, m: Machine, modulus: int, fuel: nat) -> Option<
    (Machine, nat),
>
    decreases fuel, item, 1nat,
{
    match item {
        Item::Plain(instr) => if fuel >= 1 {
            Some((exec(instr, m, modulus), (fuel - 1) as nat))
        } else {
            None
        },
        Item::Loop(k, body) => if fuel >= 1 {
            sem_loop(body, m, modulus, (fuel - 1) as nat)
        } else {
            None
        },
        Item::If(k, test, body) => if fuel < 2 {
            None
        } else if is_zero(read(m, test), modulus) {
            Some((m, (fuel - 2) as nat))
        } else {
            match sem(body, m, modulus, (fuel - 1) as nat) {
                None => None,
                Some((m1, rest)) => if 1 <= rest <= fuel - 1 {
                    Some((m1, (rest - 1) as nat))
                } else {
                    None
                },
            }
        },
    }
}

/// The machine after a loop, from its test on: the test takes two steps,
/// and every pass through the body one more than the body.
pub open spec fn sem_loop(body: Seq<Item>, m: Machine, modulus: int, fuel: nat) -> Option<
    (Machine, nat),
>
    decreases fuel, body, 0nat,
{
    if fuel < 2 {
        None
    } else if is_zero(read(m, SpecRVal::Tape(0)), modulus) {
        Some((m, (fuel - 2) as nat))
    } else if fuel < 3 {
        None
    } else {
        match sem(body, m, modulus, (fuel - 3) as nat) {
            None => None,
            Some((m1, rest)) => if rest <= fuel - 3 {
                sem_loop(body, m1, modulus, rest)
            } else {
                None
            },
        }
    }
}

/// Whether the instructions `seg` stand in `lir` from position `base` on.
pub open spec fn embeds(lir: Seq<SpecLIR>, base: int, seg: Seq<SpecLIR>) -> bool {
    &&& 0 <= base
    &&& base + seg.len() <= lir.len()
    &&& forall|i: int| 0 <= i < seg.len() ==> lir[base + i] == #[trigger] seg[i]
}

/// Whether `pc` is a position of the `len` instructions from `base` on.
pub open spec fn within(pc: int, base: int, len: int) -> bool {
    base <= pc < base + len
}

/// What it means that a run of `fuel` steps from `from` does what `result`
/// says: it reaches `to` with the machine of the result and the steps of
/// the result left, or, without a result, it is still within the segment.
pub open spec fn agrees(
    lir: Seq<SpecLIR>,
    from: int,
    m: Machine,
    modulus: int,
    fuel: nat,
    result: Option<(Machine, nat)>,
    base: int,
    len: int,
) -> bool {
    match result {
        Some((m1, rest)) => rest <= fuel && run(lir, from, m, modulus, (fuel - rest) as nat) == (
            base + len,
            m1,
        ),
        None => within(run(lir, from, m, modulus, fuel).0, base, len),
    }
}

proof fn lemma_embeds_parts(lir: Seq<SpecLIR>, base: int, a: Seq<SpecLIR>, b: Seq<SpecLIR>)
    requires
        embeds(lir, base, a + b),
    ensures
        embeds(lir, base, a),
        embeds(lir, base + a.len(), b),
{
    assert forall|i: int| 0 <= i < a.len() implies lir[base + i] == #[trigger] a[i] by {
        assert((a + b)[i] == a[i]);
    }
    assert forall|i: int| 0 <= i < b.len() implies lir[base + a.len() + i] == #[trigger] b[i] by {
        assert((a + b)[a.len() + i] == b[i]);
    }
}

proof fn lemma_run_one(lir: Seq<SpecLIR>, pc: int, m: Machine, modulus: int)
    requires
        running(lir, pc),
    ensures
        run(lir, pc, m, modulus, 1) == step(lir, pc, m, modulus),
{
    reveal_with_fuel(run, 2);
}

/// A run that takes one step and then goes on as `result` says, goes on as
/// the result says with one step less left.
proof fn lemma_after_steps(
    lir: Seq<SpecLIR>,
    from: int,
    m: Machine,
    modulus: int,
    taken: nat,
    mid: int,
    m1: Machine,
    fuel: nat,
    result: Option<(Machine, nat)>,
    base: int,
    len: int,
)
    requires
        taken <= fuel,
        run(lir, from, m, modulus, taken) == (mid, m1),
        agrees(lir, mid, m1, modulus, (fuel - taken) as nat, result, base, len),
    ensures
        agrees(lir, from, m, modulus, fuel, result, base, len),
{
    match result {
        Some((m2, rest)) => {
            lemma_run_split(lir, from, m, modulus, taken, (fuel - taken - rest) as nat);
            assert(taken + (fuel - taken - rest) as nat == (fuel - rest) as nat);
        },
        None => {
            lemma_run_split(lir, from, m, modulus, taken, (fuel - taken) as nat);
            assert(taken + (fuel - taken) as nat == fuel);
        },
    }
}

/// The instruction list of a program runs as the program says: where the
/// program ends within the fuel, the run reaches the end of the list with
/// the same machine, after the steps that the program took; where it does
/// not, the run is still within the list.
pub proof fn lemma_sem_run(
    lir: Seq<SpecLIR>,
    base: int,
    items: Seq<Item>,
    m: Machine,
    modulus: int,
    fuel: nat,
)
    requires
        labels_unique(lir),
        embeds(lir, base, flat(items)),
        items_ok(items),
    ensures
        agrees(
            lir,
            base,
            m,
            modulus,
            fuel,
            sem(items, m, modulus, fuel),
            base,
            flat(items).len() as int,
        ),
        sem(items, m, modulus, fuel) is None ==> items.len() > 0,
    decreases fuel, items, 2nat,
{
    if items.len() == 0 {
    } else {
        let head = flat(items.drop_last());
        let tail = flat_item(items.last());
        lemma_embeds_parts(lir, base, head, tail);
        lemma_sem_run(lir, base, items.drop_last(), m, modulus, fuel);
        lemma_item_len(items.last());
        match sem(items.drop_last(), m, modulus, fuel) {
            None => {},
            Some((m1, rest)) => {
                let mid = base + head.len();
                lemma_item_run(lir, mid, items.last(), m1, modulus, rest);
                let result = sem_item(items.last(), m1, modulus, rest);
                lemma_after_steps(
                    lir,
                    base,
                    m,
                    modulus,
                    (fuel - rest) as nat,
                    mid,
                    m1,
                    fuel,
                    result,
                    mid,
                    tail.len() as int,
                );
            },
        }
    }
}

/// The instruction list of a part is not empty.
proof fn lemma_item_len(item: Item)
    ensures
        flat_item(item).len() >= 1,
{
}

/// The instruction list of one part runs as the part says.
pub proof fn lemma_item_run(
    lir: Seq<SpecLIR>,
    base: int,
    item: Item,
    m: Machine,
    modulus: int,
    fuel: nat,
)
    requires
        labels_unique(lir),
        embeds(lir, base, flat_item(item)),
        item_ok(item),
    ensures
        agrees(
            lir,
            base,
            m,
            modulus,
            fuel,
            sem_item(item, m, modulus, fuel),
            base,
            flat_item(item).len() as int,
        ),
    decreases fuel, item, 1nat,
{
    let seg = flat_item(item);
    let len = seg.len() as int;
    assert(lir[base + 0] == seg[0]);
    match item {
        Item::Plain(instr) => {
            if fuel >= 1 {
                lemma_run_one(lir, base, m, modulus);
            }
        },
        Item::Loop(k, body) => {
            let inner = flat(body);
            let n = inner.len() as int;
            let test = base + 2 + n;
            assert(seg[0] == SpecLIR::Jp(endloop_label(k)));
            assert(seg[2 + n] == SpecLIR::Label(endloop_label(k)));
            assert(lir[base + (2 + n)] == seg[2 + n]);
            if fuel >= 1 {
                lemma_find_label(lir, endloop_label(k), test);
                lemma_run_one(lir, base, m, modulus);
                lemma_loop_run(lir, base, k, body, m, modulus, (fuel - 1) as nat);
                lemma_after_steps(
                    lir,
                    base,
                    m,
                    modulus,
                    1,
                    test,
                    m,
                    fuel,
                    sem_loop(body, m, modulus, (fuel - 1) as nat),
                    base,
                    len,
                );
            }
        },
        Item::If(k, value, body) => {
            let inner = flat(body);
            let n = inner.len() as int;
            let end = base + 1 + n;
            assert(seg[0] == SpecLIR::Jz(value, endif_label(k)));
            assert(seg[1 + n] == SpecLIR::Label(endif_label(k)));
            assert(lir[base + (1 + n)] == seg[1 + n]);
            lemma_find_label(lir, endif_label(k), end);
            if fuel >= 1 {
                lemma_run_one(lir, base, m, modulus);
            }
            if is_zero(read(m, value), modulus) {
                if fuel >= 2 {
                    // The jump is taken, and the label takes the second step.
                    lemma_run_one(lir, end, m, modulus);
                    lemma_run_split(lir, base, m, modulus, 1, 1);
                } else if fuel == 1 {
                } else {
                }
            } else {
                if fuel >= 1 {
                    assert(seg =~= seq![SpecLIR::Jz(value, endif_label(k))] + (inner + seq![
                        SpecLIR::Label(endif_label(k)),
                    ]));
                    lemma_embeds_parts(
                        lir,
                        base,
                        seq![SpecLIR::Jz(value, endif_label(k))],
                        inner + seq![SpecLIR::Label(endif_label(k))],
                    );
                    lemma_embeds_parts(
                        lir,
                        base + 1,
                        inner,
                        seq![SpecLIR::Label(endif_label(k))],
                    );
                    lemma_sem_run(lir, base + 1, body, m, modulus, (fuel - 1) as nat);
                    let result = sem(body, m, modulus, (fuel - 1) as nat);
                    match result {
                        None => {
                            lemma_after_steps(
                                lir,
                                base,
                                m,
                                modulus,
                                1,
                                base + 1,
                                m,
                                fuel,
                                result,
                                base + 1,
                                inner.len() as int,
                            );
                        },
                        Some((m1, rest)) => {
                            let used = (fuel - 1 - rest) as nat;
                            lemma_run_split(lir, base, m, modulus, 1, used);
                            if rest >= 1 {
                                lemma_run_one(lir, end, m1, modulus);
                                lemma_run_split(lir, base, m, modulus, 1 + used, 1);
                                assert(1 + used + 1 == (fuel - (rest - 1)) as nat);
                            } else {
                                assert(1 + used == fuel);
                            }
                        },
                    }
                }
            }
        },
    }
}

/// The instruction list of a loop runs, from the test of the loop on, as
/// the loop says.
pub proof fn lemma_loop_run(
    lir: Seq<SpecLIR>,
    base: int,
    k: nat,
    body: Seq<Item>,
    m: Machine,
    modulus: int,
    fuel: nat,
)
    requires
        labels_unique(lir),
        embeds(lir, base, flat_item(Item::Loop(k, body))),
        items_ok(body),
    ensures
        agrees(
            lir,
            base + 2 + flat(body).len(),
            m,
            modulus,
            fuel,
            sem_loop(body, m, modulus, fuel),
            base,
            flat_item(Item::Loop(k, body)).len() as int,
        ),
    decreases fuel, body, 0nat,
{
    let seg = flat_item(Item::Loop(k, body));
    let inner = flat(body);
    let len = seg.len() as int;
    let n = inner.len() as int;
    let test = base + 2 + n;
    let top = base + 1;
    assert(seg[1] == SpecLIR::Label(loop_label(k)));
    assert(seg[2 + n] == SpecLIR::Label(endloop_label(k)));
    assert(seg[3 + n] == SpecLIR::Jnz(SpecRVal::Tape(0), loop_label(k)));
    assert(lir[base + 1] == seg[1]);
    assert(lir[base + (2 + n)] == seg[2 + n]);
    assert(lir[base + (3 + n)] == seg[3 + n]);
    lemma_find_label(lir, loop_label(k), top);
    if fuel >= 1 {
        lemma_run_one(lir, test, m, modulus);
    }
    if fuel >= 2 {
        lemma_run_one(lir, test + 1, m, modulus);
        lemma_run_split(lir, test, m, modulus, 1, 1);
    }
    if fuel < 2 {
    } else if is_zero(read(m, SpecRVal::Tape(0)), modulus) {
    } else if fuel < 3 {
    } else {
        // The jump back is taken, the label of the top takes the third
        // step, and the body follows.
        lemma_run_one(lir, top, m, modulus);
        lemma_run_split(lir, test, m, modulus, 2, 1);
        assert(seg =~= loop_head(k) + (inner + loop_tail(k)));
        lemma_embeds_parts(lir, base, loop_head(k), inner + loop_tail(k));
        lemma_embeds_parts(lir, base + 2, inner, loop_tail(k));
        lemma_sem_run(lir, base + 2, body, m, modulus, (fuel - 3) as nat);
        let result = sem(body, m, modulus, (fuel - 3) as nat);
        match result {
            None => {
                lemma_after_steps(
                    lir,
                    test,
                    m,
                    modulus,
                    3,
                    base + 2,
                    m,
                    fuel,
                    result,
                    base + 2,
                    inner.len() as int,
                );
            },
            Some((m1, rest)) => {
                let used = (fuel - 3 - rest) as nat;
                lemma_run_split(lir, test, m, modulus, 3, used);
                lemma_loop_run(lir, base, k, body, m1, modulus, rest);
                lemma_after_steps(
                    lir,
                    test,
                    m,
                    modulus,
                    3 + used,
                    test,
                    m1,
                    fuel,
                    sem_loop(body, m1, modulus, rest),
                    base,
                    len,
                );
            },
        }
    }
}

} // verus!
