//! The loops that the peephole pass replaces: a loop that only moves the
//! cursor, one that clears the current cell, and one that counts the
//! current cell down while it adds to others.

use vstd::arithmetic::div_mod::{lemma_add_mod_noop_right, lemma_small_mod};
use vstd::prelude::*;
use crate::offset_map::{
    ascending, lemma_lookup_with_entry, lemma_rank_from, lemma_with_entry_push, lookup, rank,
};
use crate::optimizer::peephole::optimize::{
    is_clear, is_mul_copy, is_scan, mul_copies, SpecPass,
};
use crate::optimizer::peephole::optimize_state::set_tokens;
use crate::optimizer::peephole::token::SpecToken;
use crate::semantics::gathering::lemma_wrapping;
use crate::semantics::peephole::passes::{apart, cell_stands, lemma_mod_sum, stands};
use crate::semantics::peephole::pending::{
    all_flat, apply_all, due, is_flat, lemma_apply_all_concat, lemma_apply_sound,
    lemma_sets_applied, same_but_tape, tcell_sound, tsound,
};
use crate::semantics::peephole::tokens::{
    apply, cell, cell_is_zero, tsem, tsem_loop, tsem_scan, with_cell, TokenState,
};

verus! {

/// Whether what the pass holds back after a body, of which it has committed
/// nothing, says what the body does: each state in which the body starts
/// stands for the state in which it ends.
pub open spec fn body_stands(body: Seq<SpecToken>, p: SpecPass, modulus: int) -> bool {
    forall|s: TokenState, fuel: nat|
        tsound(s, modulus) && s.buffer.len() == 0 && (#[trigger] tsem(body, s, modulus, fuel))
            is Some ==> {
            &&& stands(p, s, tsem(body, s, modulus, fuel)->Some_0, modulus)
            &&& tsem(body, s, modulus, fuel)->Some_0.buffer.len() == 0
        }
}

/// A state that is stood for with no output deferred and nothing loaded
/// differs from the state that stands in its tape and cursor alone.
proof fn lemma_same_output(p: SpecPass, s: TokenState, o: TokenState, modulus: int)
    requires
        stands(p, s, o, modulus),
        s.buffer.len() == 0,
        o.buffer.len() == 0,
    ensures
        o == (TokenState { tape: o.tape, cursor: o.cursor, ..s }),
{
    assert(o.buffer =~= s.buffer);
    assert(o.output =~= o.output + o.buffer);
    assert(s.output =~= s.output + s.buffer);
}

/// A loop whose body only moves the cursor is a scan.
pub proof fn lemma_scan_loop(
    body: Seq<SpecToken>,
    p: SpecPass,
    s: TokenState,
    modulus: int,
    fuel: nat,
)
    requires
        body_stands(body, p, modulus),
        is_scan(p.state),
        tsound(s, modulus),
        s.buffer.len() == 0,
        tsem_loop(body, s, modulus, fuel) is Some,
    ensures
        tsem_scan(p.state.shift, s, modulus, fuel) == tsem_loop(body, s, modulus, fuel),
    decreases fuel,
{
    if !cell_is_zero(s, 0, modulus) {
        let ob = tsem(body, s, modulus, (fuel - 1) as nat)->Some_0;
        assert(stands(p, s, ob, modulus));
        lemma_same_output(p, s, ob, modulus);
        assert(ob.tape =~= s.tape) by {
            assert forall|a: i32| #[trigger]
                ob.tape.dom().contains(a) && s.tape.dom().contains(a) by {
                assert(tcell_sound(ob, a, modulus));
                assert(tcell_sound(s, a, modulus));
            }
            assert forall|a: i32| #[trigger] ob.tape[a] == s.tape[a] by {
                assert(cell_stands(p.state, s, ob, a, modulus));
            }
        }
        assert(ob == TokenState { cursor: s.cursor.wrapping_add(p.state.shift), ..s });
        lemma_scan_loop(body, p, ob, modulus, (fuel - 1) as nat);
    }
}

/// What a cell holds after a loop that clears the current cell, has run:
/// zero in the current cell, the value of a set in a cell that the body
/// sets, and what it held elsewhere.
pub open spec fn cleared_cell(sets: Seq<(i32, i32)>, k: i32, under: int, modulus: int) -> int {
    if k == 0 {
        0
    } else {
        match lookup(sets, k) {
            Some(v) => (v as int) % modulus,
            None => under,
        }
    }
}

/// The state after a loop that clears the current cell: the state before
/// it if the cell is zero; else a state with the cells as after one pass
/// and zero in the current cell.
proof fn lemma_clear_loop_tape(
    body: Seq<SpecToken>,
    p: SpecPass,
    s: TokenState,
    modulus: int,
    fuel: nat,
)
    requires
        modulus > 0,
        body_stands(body, p, modulus),
        is_clear(p.state),
        tsound(s, modulus),
        s.buffer.len() == 0,
        tsem_loop(body, s, modulus, fuel) is Some,
    ensures
        same_but_tape(tsem_loop(body, s, modulus, fuel)->Some_0, s),
        tsound(tsem_loop(body, s, modulus, fuel)->Some_0, modulus),
        forall|a: i32|
            #[trigger] tsem_loop(body, s, modulus, fuel)->Some_0.tape[a] == if cell_is_zero(
                s,
                0,
                modulus,
            ) {
                s.tape[a]
            } else {
                cleared_cell(p.state.sets, a.wrapping_sub(s.cursor), s.tape[a], modulus)
            },
    decreases fuel,
{
    if !cell_is_zero(s, 0, modulus) {
        let ob = tsem(body, s, modulus, (fuel - 1) as nat)->Some_0;
        let after = tsem_loop(body, s, modulus, fuel)->Some_0;
        assert(stands(p, s, ob, modulus));
        lemma_same_output(p, s, ob, modulus);
        lemma_clear_loop_tape(body, p, ob, modulus, (fuel - 1) as nat);
        let next = tsem_loop(body, ob, modulus, (fuel - 1) as nat)->Some_0;
        assert(after == next);
        lemma_rank_from(p.state.adds, 0, 0);
        assert(apart(p.state, 0));
        assert(ob.cursor == s.cursor);
        assert forall|a: i32|
            #[trigger] after.tape[a] == cleared_cell(
                p.state.sets,
                a.wrapping_sub(s.cursor),
                s.tape[a],
                modulus,
            ) by {
            let k = a.wrapping_sub(s.cursor);
            assert(cell_stands(p.state, s, ob, a, modulus));
            assert(tcell_sound(ob, a, modulus));
            assert(apart(p.state, k));
            lemma_rank_from(p.state.adds, k, 0);
            lemma_small_mod(ob.tape[a] as nat, modulus as nat);
            assert(next.tape[a] == if cell_is_zero(ob, 0, modulus) {
                ob.tape[a]
            } else {
                cleared_cell(p.state.sets, k, ob.tape[a], modulus)
            });
            if k == 0 {
                assert(a == ob.cursor.wrapping_add(0));
            }
        }
    }
}

/// A loop that clears the current cell: if the cell is not zero, the
/// sets of the body and zero in the current cell.
pub proof fn lemma_clear_loop(
    body: Seq<SpecToken>,
    p: SpecPass,
    s: TokenState,
    modulus: int,
    fuel: nat,
)
    requires
        modulus > 0,
        body_stands(body, p, modulus),
        is_clear(p.state),
        ascending(p.state.sets),
        tsound(s, modulus),
        s.buffer.len() == 0,
        tsem_loop(body, s, modulus, fuel) is Some,
    ensures
        tsem_loop(body, s, modulus, fuel)->Some_0 == with_cell(
            if cell_is_zero(s, 0, modulus) {
                s
            } else {
                apply_all(set_tokens(p.state.sets), s, modulus)
            },
            0,
            0,
            modulus,
        ),
        all_flat(set_tokens(p.state.sets)),
{
    let sets = p.state.sets;
    let after = tsem_loop(body, s, modulus, fuel)->Some_0;
    let none = Seq::<(i32, i32)>::empty();
    lemma_clear_loop_tape(body, p, s, modulus, fuel);
    lemma_sets_applied(s, sets, sets.len() as int, modulus);
    assert(sets.subrange(0, sets.len() as int) =~= sets);
    let z = if cell_is_zero(s, 0, modulus) {
        s
    } else {
        apply_all(set_tokens(sets), s, modulus)
    };
    let cleared = with_cell(z, 0, 0, modulus);
    assert(after.tape =~= cleared.tape) by {
        assert forall|a: i32| #[trigger]
            after.tape.dom().contains(a) && cleared.tape.dom().contains(a) by {
            assert(tcell_sound(after, a, modulus));
            assert(tcell_sound(z, a, modulus));
        }
        assert forall|a: i32| #[trigger] after.tape[a] == cleared.tape[a] by {
            assert(tcell_sound(s, a, modulus));
            assert(tcell_sound(z, a, modulus));
            lemma_small_mod(s.tape[a] as nat, modulus as nat);
            assert(z.tape[a] == if cell_is_zero(s, 0, modulus) {
                s.tape[a]
            } else {
                due(sets, none, a.wrapping_sub(s.cursor), s.tape[a], modulus)
            });
            if a == s.cursor.wrapping_add(0) {
                assert(a.wrapping_sub(s.cursor) == 0);
            } else {
                assert(a.wrapping_sub(s.cursor) != 0);
            }
        }
    }
}

/// What a cell comes to by the multiply-copies of the pending adds: with
/// an add of `v` pending for its offset, which is not zero, the value
/// `under` that it has and `v` times the current cell `c`.
pub open spec fn copy_due(adds: Seq<(i32, i32)>, k: i32, under: int, c: int, modulus: int) -> int {
    match lookup(adds, k) {
        Some(v) => if k != 0 {
            (under + (c * v) % modulus) % modulus
        } else {
            under
        },
        None => under,
    }
}

/// The state after the multiply-copies of the first `j` pending adds.
pub proof fn lemma_copies_applied(z: TokenState, adds: Seq<(i32, i32)>, j: int, modulus: int)
    requires
        modulus > 0,
        tsound(z, modulus),
        ascending(adds),
        0 <= j <= adds.len(),
    ensures
        ({
            let part = adds.subrange(0, j);
            let yj = apply_all(mul_copies(part), z, modulus);
            &&& same_but_tape(yj, z)
            &&& tsound(yj, modulus)
            &&& ascending(part)
            &&& all_flat(mul_copies(part))
            &&& forall|a: i32|
                #[trigger] yj.tape[a] == copy_due(
                    part,
                    a.wrapping_sub(z.cursor),
                    z.tape[a],
                    cell(z, 0),
                    modulus,
                )
        }),
    decreases j,
{
    let part = adds.subrange(0, j);
    assert forall|i: int, k: int| 0 <= i < k < part.len() implies (#[trigger] part[i]).0 < (
    #[trigger] part[k]).0 by {
        assert(part[i] == adds[i] && part[k] == adds[k]);
    }
    if j == 0 {
        assert(mul_copies(part) =~= Seq::<SpecToken>::empty());
    } else {
        let before = adds.subrange(0, j - 1);
        let (o, v) = adds[j - 1];
        lemma_copies_applied(z, adds, j - 1, modulus);
        let y0 = apply_all(mul_copies(before), z, modulus);
        assert(part =~= before.push((o, v)));
        assert(part.drop_last() =~= before);
        lemma_with_entry_push(before, o, v);
        let here = z.cursor.wrapping_add(0);
        assert(here.wrapping_sub(z.cursor) == 0);
        assert(y0.tape[here] == z.tape[here]);
        let yj = apply_all(mul_copies(part), z, modulus);
        if o != 0 {
            let token = SpecToken::MulCopy(0, o, v);
            assert(mul_copies(part) == mul_copies(before).push(token));
            assert(mul_copies(part).drop_last() =~= mul_copies(before));
            assert(yj == apply(token, y0, modulus));
            lemma_apply_sound(token, y0, modulus);
            assert forall|i: int| 0 <= i < mul_copies(part).len() implies is_flat(
                #[trigger] mul_copies(part)[i],
            ) by {
                if i < mul_copies(before).len() {
                    assert(mul_copies(part)[i] == mul_copies(before)[i]);
                }
            }
        } else {
            assert(mul_copies(part) == mul_copies(before));
        }
        assert forall|a: i32|
            #[trigger] yj.tape[a] == copy_due(
                part,
                a.wrapping_sub(z.cursor),
                z.tape[a],
                cell(z, 0),
                modulus,
            ) by {
            let k = a.wrapping_sub(z.cursor);
            lemma_lookup_with_entry(before, o, v, k);
            lemma_wrapping(z.cursor, o, 0, a);
            assert(y0.tape[a] == copy_due(before, k, z.tape[a], cell(z, 0), modulus));
            if a == z.cursor.wrapping_add(o) {
                if lookup(before, o) is Some {
                    lemma_rank_from(before, o, 0);
                    let r = rank(before, o);
                    assert(part[r] == before[r]);
                    assert(part[r].0 < part[j - 1].0);
                }
            }
        }
    }
}

/// With zero in the current cell, the multiply-copies change nothing.
pub proof fn lemma_copies_zero(z: TokenState, adds: Seq<(i32, i32)>, modulus: int)
    requires
        modulus > 0,
        tsound(z, modulus),
        cell(z, 0) == 0,
    ensures
        apply_all(mul_copies(adds), z, modulus) == z,
        all_flat(mul_copies(adds)),
    decreases adds.len(),
{
    if adds.len() > 0 {
        lemma_copies_zero(z, adds.drop_last(), modulus);
        let (o, v) = adds.last();
        if o != 0 {
            let token = SpecToken::MulCopy(0, o, v);
            let before = mul_copies(adds.drop_last());
            assert(mul_copies(adds).drop_last() =~= before);
            let at = z.cursor.wrapping_add(o);
            assert(tcell_sound(z, at, modulus));
            let c = cell(z, 0);
            assert(c * v == 0) by (nonlinear_arith)
                requires
                    c == 0,
            ;
            lemma_small_mod(0, modulus as nat);
            lemma_small_mod(z.tape[at] as nat, modulus as nat);
            assert(apply(token, z, modulus).tape =~= z.tape);
            assert forall|i: int| 0 <= i < mul_copies(adds).len() implies is_flat(
                #[trigger] mul_copies(adds)[i],
            ) by {
                if i < before.len() {
                    assert(mul_copies(adds)[i] == before[i]);
                }
            }
        }
    }
}

/// What a cell holds after a loop that counts the current cell down from
/// `c`, has run: zero in the current cell, the value of a set in a cell
/// that the body sets, `c` times the add in a cell that it adds to, and
/// what it held elsewhere.
pub open spec fn counted_cell(
    sets: Seq<(i32, i32)>,
    adds: Seq<(i32, i32)>,
    k: i32,
    under: int,
    c: int,
    modulus: int,
) -> int {
    if c == 0 {
        under
    } else if k == 0 {
        0
    } else {
        match lookup(sets, k) {
            Some(v) => (v as int) % modulus,
            None => match lookup(adds, k) {
                Some(v) => (under + c * v) % modulus,
                None => under,
            },
        }
    }
}

/// The cells after a loop that counts the current cell down.
proof fn lemma_copy_loop_tape(
    body: Seq<SpecToken>,
    p: SpecPass,
    s: TokenState,
    modulus: int,
    fuel: nat,
)
    requires
        modulus > 0,
        body_stands(body, p, modulus),
        is_mul_copy(p.state),
        tsound(s, modulus),
        s.buffer.len() == 0,
        tsem_loop(body, s, modulus, fuel) is Some,
    ensures
        same_but_tape(tsem_loop(body, s, modulus, fuel)->Some_0, s),
        tsound(tsem_loop(body, s, modulus, fuel)->Some_0, modulus),
        forall|a: i32|
            #[trigger] tsem_loop(body, s, modulus, fuel)->Some_0.tape[a] == counted_cell(
                p.state.sets,
                p.state.adds,
                a.wrapping_sub(s.cursor),
                s.tape[a],
                cell(s, 0),
                modulus,
            ),
    decreases fuel,
{
    let here = s.cursor.wrapping_add(0);
    assert(tcell_sound(s, here, modulus));
    let c = cell(s, 0);
    lemma_small_mod(c as nat, modulus as nat);
    if !cell_is_zero(s, 0, modulus) {
        let ob = tsem(body, s, modulus, (fuel - 1) as nat)->Some_0;
        let after = tsem_loop(body, s, modulus, fuel)->Some_0;
        assert(stands(p, s, ob, modulus));
        lemma_same_output(p, s, ob, modulus);
        lemma_copy_loop_tape(body, p, ob, modulus, (fuel - 1) as nat);
        assert(apart(p.state, 0));
        assert(here.wrapping_sub(s.cursor) == 0);
        assert(cell_stands(p.state, s, ob, here, modulus));
        lemma_small_mod((c - 1) as nat, modulus as nat);
        assert(cell(ob, 0) == c - 1);
        assert forall|a: i32|
            #[trigger] after.tape[a] == counted_cell(
                p.state.sets,
                p.state.adds,
                a.wrapping_sub(s.cursor),
                s.tape[a],
                c,
                modulus,
            ) by {
            let k = a.wrapping_sub(s.cursor);
            assert(cell_stands(p.state, s, ob, a, modulus));
            assert(apart(p.state, k));
            if k != 0 && lookup(p.state.sets, k) is None {
                if let Some(v) = lookup(p.state.adds, k) {
                    if c - 1 != 0 {
                        lemma_mod_sum(s.tape[a], v as int, (c - 1) * v, modulus);
                        assert(v + (c - 1) * v == c * v) by (nonlinear_arith);
                    } else {
                        assert(c * v == v) by (nonlinear_arith)
                            requires
                                c == 1,
                        ;
                    }
                }
            }
        }
    }
}

/// A loop that counts the current cell down while it adds to others: if
/// the cell is not zero, the sets of the body and the multiply-copies of
/// its adds; then zero in the current cell.
pub proof fn lemma_copy_loop(
    body: Seq<SpecToken>,
    p: SpecPass,
    s: TokenState,
    modulus: int,
    fuel: nat,
)
    requires
        modulus > 0,
        body_stands(body, p, modulus),
        is_mul_copy(p.state),
        ascending(p.state.sets),
        ascending(p.state.adds),
        forall|k: i32| apart(p.state, k),
        tsound(s, modulus),
        s.buffer.len() == 0,
        tsem_loop(body, s, modulus, fuel) is Some,
    ensures
        tsem_loop(body, s, modulus, fuel)->Some_0 == with_cell(
            if cell_is_zero(s, 0, modulus) {
                s
            } else {
                apply_all(set_tokens(p.state.sets) + mul_copies(p.state.adds), s, modulus)
            },
            0,
            0,
            modulus,
        ),
        all_flat(set_tokens(p.state.sets) + mul_copies(p.state.adds)),
{
    let sets = p.state.sets;
    let adds = p.state.adds;
    let after = tsem_loop(body, s, modulus, fuel)->Some_0;
    let none = Seq::<(i32, i32)>::empty();
    let here = s.cursor.wrapping_add(0);
    assert(here.wrapping_sub(s.cursor) == 0);
    assert(tcell_sound(s, here, modulus));
    let c = cell(s, 0);
    lemma_small_mod(c as nat, modulus as nat);
    lemma_copy_loop_tape(body, p, s, modulus, fuel);
    lemma_sets_applied(s, sets, sets.len() as int, modulus);
    assert(sets.subrange(0, sets.len() as int) =~= sets);
    let z = apply_all(set_tokens(sets), s, modulus);
    lemma_copies_applied(z, adds, adds.len() as int, modulus);
    assert(adds.subrange(0, adds.len() as int) =~= adds);
    let y = apply_all(mul_copies(adds), z, modulus);
    lemma_apply_all_concat(set_tokens(sets), mul_copies(adds), s, modulus);
    assert(apart(p.state, 0));
    assert(z.tape[here] == due(sets, none, 0, s.tape[here], modulus));
    assert(cell(z, 0) == c);
    let w = if cell_is_zero(s, 0, modulus) {
        s
    } else {
        y
    };
    let cleared = with_cell(w, 0, 0, modulus);
    assert(after.tape =~= cleared.tape) by {
        assert forall|a: i32| #[trigger]
            after.tape.dom().contains(a) && cleared.tape.dom().contains(a) by {
            assert(tcell_sound(after, a, modulus));
            assert(tcell_sound(w, a, modulus));
        }
        assert forall|a: i32| #[trigger] after.tape[a] == cleared.tape[a] by {
            let k = a.wrapping_sub(s.cursor);
            assert(tcell_sound(s, a, modulus));
            assert(apart(p.state, k));
            assert(z.tape[a] == due(sets, none, k, s.tape[a], modulus));
            assert(y.tape[a] == copy_due(adds, k, z.tape[a], c, modulus));
            if a == here {
            } else {
                assert(k != 0);
                if let Some(v) = lookup(adds, k) {
                    lemma_add_mod_noop_right(s.tape[a], c * v, modulus);
                }
            }
        }
    }
    assert forall|i: int|
        0 <= i < (set_tokens(sets) + mul_copies(adds)).len() implies is_flat(
        #[trigger] (set_tokens(sets) + mul_copies(adds))[i],
    ) by {
        if i >= set_tokens(sets).len() {
            assert(is_flat(mul_copies(adds)[i - set_tokens(sets).len()]));
        }
    }
}

} // verus!
