//! What the peephole pass holds back, and the state that stands for it.
//!
//! While the pass walks a block, the tokens that it has committed have led
//! to one state, and the tokens that it has read have led to another. The
//! second is the first with the deferred shift, the pending sets and adds
//! and the deferred output committed.

use vstd::arithmetic::div_mod::{
    lemma_add_mod_noop, lemma_add_mod_noop_right, lemma_fundamental_div_mod, lemma_mod_mod,
    lemma_mod_multiples_vanish, lemma_mul_mod_noop_left, lemma_small_mod,
};
use vstd::prelude::*;
use crate::offset_map::{
    ascending, has_key, lemma_lookup_with_entry, lemma_lookup_without_key,
    lemma_with_entry_ascending, lemma_without_key_ascending, lookup,
};
use crate::optimizer::peephole::optimize::{
    is_plain, load_out_token, needs_pointer, output_flushed, pass_token, prepared, SpecPass,
};
use crate::optimizer::peephole::optimize_state::{
    add_tokens, adds_sets_applied, set_tokens, shift_applied, with_add, with_set, SpecState,
};
use crate::optimizer::peephole::token::SpecToken;
use crate::semantics::gathering::lemma_wrapped_sum;
use crate::semantics::machine::cell_modulus;
use crate::semantics::peephole::pending::{
    all_flat, apply_all, due, is_flat, lemma_adds_applied, lemma_apply_all_concat,
    lemma_apply_all_one, lemma_apply_sound, lemma_sets_applied, tcell_sound, tsound,
};
use crate::semantics::peephole::tokens::{apply, byte, cell, TokenState};

verus! {

/// Whether `modulus` is the number of values of a cell type of 8 to 32
/// bits: it divides 2^32 and is a multiple of 256.
pub open spec fn byte_modulus(modulus: int) -> bool {
    cell_modulus(modulus) && modulus % 256 == 0
}

/// Whether no set and add are pending for the same offset `k`.
pub open spec fn apart(s: SpecState, k: i32) -> bool {
    !(has_key(s.sets, k) && has_key(s.adds, k))
}

/// Whether the pending sets and adds are in order, and none of them are for
/// the same offset.
pub open spec fn entries_ok(s: SpecState) -> bool {
    ascending(s.sets) && ascending(s.adds) && forall|k: i32| apart(s, k)
}

/// Whether the cell at an address is in `o` what is due to it in `x`.
pub open spec fn cell_stands(s: SpecState, x: TokenState, o: TokenState, a: i32, modulus: int) -> bool {
    o.tape[a] == due(s.sets, s.adds, a.wrapping_sub(x.cursor), x.tape[a], modulus)
}

/// Whether the state `x`, with what the pass holds back, stands for the
/// state `o`: committing the deferred shift, the pending sets and adds and
/// the deferred output would give `o`.
pub open spec fn stands(p: SpecPass, x: TokenState, o: TokenState, modulus: int) -> bool {
    &&& o.cursor == x.cursor.wrapping_add(p.state.shift)
    &&& o.input == x.input
    &&& o.inbuf == x.inbuf
    &&& o.starved == x.starved
    &&& o.output + o.buffer == x.output + x.buffer
    &&& (!p.output_pending ==> o.buffer == x.buffer)
    &&& tsound(x, modulus)
    &&& tsound(o, modulus)
    &&& entries_ok(p.state)
    &&& forall|a: i32| cell_stands(p.state, x, o, a, modulus)
}

/// A sum with a value of the cell type is the sum, as a value of the cell
/// type.
pub proof fn lemma_mod_sum(x: int, v: int, w: int, modulus: int)
    requires
        modulus > 0,
    ensures
        ((x + v) % modulus + w) % modulus == (x + v + w) % modulus,
{
    lemma_add_mod_noop_right(w, x + v, modulus);
}

/// What is due after one more add at `k`: at `k` what was due with the add
/// added, elsewhere what was due.
pub proof fn lemma_due_with_add(
    s: SpecState,
    k: i32,
    v: i32,
    j: i32,
    under: int,
    modulus: int,
)
    requires
        cell_modulus(modulus),
        entries_ok(s),
        0 <= under < modulus,
    ensures
        due(with_add(s, k, v).sets, with_add(s, k, v).adds, j, under, modulus) == if j == k {
            (due(s.sets, s.adds, k, under, modulus) + v) % modulus
        } else {
            due(s.sets, s.adds, j, under, modulus)
        },
        apart(with_add(s, k, v), j),
{
    let t = with_add(s, k, v);
    assert(apart(s, j));
    assert(apart(s, k));
    match lookup(s.sets, k) {
        Some(set) => {
            lemma_lookup_with_entry(s.sets, k, set.wrapping_add(v), j);
            if j == k {
                lemma_wrapped_sum(0, set, v, modulus);
                lemma_mod_sum(0, set as int, v as int, modulus);
            }
        },
        None => {
            let sum = match lookup(s.adds, k) {
                Some(a) => a.wrapping_add(v),
                None => v,
            };
            if sum != 0 {
                lemma_lookup_with_entry(s.adds, k, sum, j);
            } else {
                lemma_lookup_without_key(s.adds, k, j);
            }
            if j == k {
                match lookup(s.adds, k) {
                    Some(a) => {
                        lemma_wrapped_sum(under, a, v, modulus);
                        lemma_mod_sum(under, a as int, v as int, modulus);
                    },
                    None => {},
                }
                if sum == 0 {
                    lemma_small_mod(under as nat, modulus as nat);
                }
            }
        },
    }
}

/// What is due after a set at `k`: at `k` the value, elsewhere what was
/// due.
pub proof fn lemma_due_with_set(
    s: SpecState,
    k: i32,
    v: i32,
    j: i32,
    under: int,
    modulus: int,
)
    requires
        entries_ok(s),
    ensures
        due(with_set(s, k, v).sets, with_set(s, k, v).adds, j, under, modulus) == if j == k {
            (v as int) % modulus
        } else {
            due(s.sets, s.adds, j, under, modulus)
        },
        apart(with_set(s, k, v), j),
{
    assert(apart(s, j));
    lemma_lookup_with_entry(s.sets, k, v, j);
    lemma_lookup_without_key(s.adds, k, j);
}

/// An add keeps the pending entries in order and apart.
pub proof fn lemma_with_add_ok(s: SpecState, k: i32, v: i32, modulus: int)
    requires
        cell_modulus(modulus),
        entries_ok(s),
    ensures
        entries_ok(with_add(s, k, v)),
{
    let t = with_add(s, k, v);
    match lookup(s.sets, k) {
        Some(set) => {
            lemma_with_entry_ascending(s.sets, k, set.wrapping_add(v));
        },
        None => {
            let sum = match lookup(s.adds, k) {
                Some(a) => a.wrapping_add(v),
                None => v,
            };
            lemma_with_entry_ascending(s.adds, k, sum);
            lemma_without_key_ascending(s.adds, k);
        },
    }
    assert forall|j: i32| apart(t, j) by {
        lemma_due_with_add(s, k, v, j, 0, modulus);
    }
}

/// A set keeps the pending entries in order and apart.
pub proof fn lemma_with_set_ok(s: SpecState, k: i32, v: i32)
    requires
        entries_ok(s),
    ensures
        entries_ok(with_set(s, k, v)),
{
    let t = with_set(s, k, v);
    lemma_with_entry_ascending(s.sets, k, v);
    lemma_without_key_ascending(s.adds, k);
    assert forall|j: i32| apart(t, j) by {
        lemma_due_with_set(s, k, v, j, 0, 1);
    }
}

/// Committing the pending sets and adds leads to a state with nothing
/// pending that stands for the same state.
pub proof fn lemma_committed(p: SpecPass, x: TokenState, o: TokenState, modulus: int) -> (extra:
    Seq<SpecToken>)
    requires
        modulus > 0,
        stands(p, x, o, modulus),
    ensures
        adds_sets_applied(p.state).tokens == p.state.tokens + extra,
        all_flat(extra),
        stands(
            SpecPass { state: adds_sets_applied(p.state), ..p },
            apply_all(extra, x, modulus),
            o,
            modulus,
        ),
        apply_all(extra, x, modulus).buffer == x.buffer,
        apply_all(extra, x, modulus).output == x.output,
{
    let s = p.state;
    let sets = set_tokens(s.sets);
    let adds = add_tokens(s.adds);
    let extra = sets + adds;
    let none = Seq::<(i32, i32)>::empty();
    assert(s.tokens + sets + adds =~= s.tokens + extra);
    lemma_sets_applied(x, s.sets, s.sets.len() as int, modulus);
    assert(s.sets.subrange(0, s.sets.len() as int) =~= s.sets);
    let x1 = apply_all(sets, x, modulus);
    lemma_adds_applied(x1, s.adds, s.adds.len() as int, modulus);
    assert(s.adds.subrange(0, s.adds.len() as int) =~= s.adds);
    let y = apply_all(adds, x1, modulus);
    lemma_apply_all_concat(sets, adds, x, modulus);
    let q = SpecPass { state: adds_sets_applied(s), ..p };
    assert forall|k: i32| apart(q.state, k) by {}
    assert forall|a: i32| cell_stands(q.state, y, o, a, modulus) by {
        let k = a.wrapping_sub(x.cursor);
        assert(cell_stands(s, x, o, a, modulus));
        assert(apart(s, k));
        assert(x1.tape[a] == due(s.sets, none, k, x.tape[a], modulus));
        assert(y.tape[a] == due(none, s.adds, k, x1.tape[a], modulus));
    }
    extra
}

/// Committing a deferred output, where the state that is stood for has
/// nothing loaded, leads to a state that stands for the same state.
pub proof fn lemma_flushed(p: SpecPass, x: TokenState, o: TokenState, modulus: int) -> (extra:
    Seq<SpecToken>)
    requires
        stands(p, x, o, modulus),
        o.buffer.len() == 0,
    ensures
        output_flushed(p).state.tokens == p.state.tokens + extra,
        all_flat(extra),
        stands(output_flushed(p), apply_all(extra, x, modulus), o, modulus),
        apply_all(extra, x, modulus).buffer.len() == 0,
{
    if p.output_pending {
        let extra = seq![SpecToken::Output];
        lemma_apply_all_one(SpecToken::Output, x, modulus);
        let y = apply(SpecToken::Output, x, modulus);
        assert(p.state.tokens.push(SpecToken::Output) =~= p.state.tokens + extra);
        assert(o.buffer =~= y.buffer);
        assert(o.output + o.buffer =~= y.output + y.buffer);
        let q = output_flushed(p);
        assert forall|a: i32| tcell_sound(y, a, modulus) by {
            assert(tcell_sound(x, a, modulus));
        }
        assert forall|k: i32| apart(q.state, k) by {
            assert(apart(p.state, k));
        }
        assert forall|a: i32| cell_stands(q.state, y, o, a, modulus) by {
            assert(cell_stands(p.state, x, o, a, modulus));
        }
        extra
    } else {
        let extra = Seq::<SpecToken>::empty();
        assert(p.state.tokens =~= p.state.tokens + extra);
        assert(o.buffer =~= x.buffer);
        extra
    }
}

/// Committing the deferred shift, with no set or add pending, leads to
/// the state that is stood for, but for its output.
pub proof fn lemma_shifted(p: SpecPass, x: TokenState, o: TokenState, modulus: int) -> (extra:
    Seq<SpecToken>)
    requires
        stands(p, x, o, modulus),
        p.state.sets.len() == 0,
        p.state.adds.len() == 0,
    ensures
        shift_applied(p.state).tokens == p.state.tokens + extra,
        all_flat(extra),
        stands(
            SpecPass { state: shift_applied(p.state), ..p },
            apply_all(extra, x, modulus),
            o,
            modulus,
        ),
        apply_all(extra, x, modulus).tape == o.tape,
        apply_all(extra, x, modulus).cursor == o.cursor,
        apply_all(extra, x, modulus).buffer == x.buffer,
        apply_all(extra, x, modulus).output == x.output,
{
    let s = p.state;
    assert(x.tape =~= o.tape) by {
        assert forall|a: i32| #[trigger] x.tape.dom().contains(a) && o.tape.dom().contains(a) by {
            assert(tcell_sound(x, a, modulus));
            assert(tcell_sound(o, a, modulus));
        }
        assert forall|a: i32| #[trigger] x.tape[a] == o.tape[a] by {
            assert(cell_stands(s, x, o, a, modulus));
        }
    }
    if s.shift != 0 {
        let token = SpecToken::Move(s.shift);
        let extra = seq![token];
        lemma_apply_all_one(token, x, modulus);
        let y = apply(token, x, modulus);
        assert(s.tokens.push(token) =~= s.tokens + extra);
        let q = SpecPass { state: shift_applied(s), ..p };
        assert forall|a: i32| tcell_sound(y, a, modulus) by {
            assert(tcell_sound(x, a, modulus));
        }
        assert forall|k: i32| apart(q.state, k) by {}
        assert forall|a: i32| cell_stands(q.state, y, o, a, modulus) by {
            assert(cell_stands(s, x, o, a, modulus));
        }
        extra
    } else {
        let extra = Seq::<SpecToken>::empty();
        assert(s.tokens =~= s.tokens + extra);
        extra
    }
}

/// Making the pass ready for a token leads to a state that stands for the
/// same state; before a token that needs the pointer in place it is that
/// state.
pub proof fn lemma_prepared(
    p: SpecPass,
    token: SpecToken,
    x: TokenState,
    o: TokenState,
    modulus: int,
) -> (extra: Seq<SpecToken>)
    requires
        modulus > 0,
        stands(p, x, o, modulus),
        !is_plain(token) ==> o.buffer.len() == 0,
    ensures
        prepared(p, token).state.tokens == p.state.tokens + extra,
        all_flat(extra),
        stands(prepared(p, token), apply_all(extra, x, modulus), o, modulus),
        !is_plain(token) ==> {
            &&& prepared(p, token).state.sets.len() == 0
            &&& prepared(p, token).state.adds.len() == 0
            &&& !prepared(p, token).output_pending
        },
        needs_pointer(token) ==> prepared(p, token).state.shift == 0 && apply_all(
            extra,
            x,
            modulus,
        ) == o,
{
    if is_plain(token) {
        let extra = Seq::<SpecToken>::empty();
        assert(p.state.tokens =~= p.state.tokens + extra);
        extra
    } else {
        let e1 = lemma_flushed(p, x, o, modulus);
        let p1 = output_flushed(p);
        let x1 = apply_all(e1, x, modulus);
        let e2 = lemma_committed(p1, x1, o, modulus);
        let p2 = SpecPass { state: adds_sets_applied(p1.state), output_pending: false };
        let x2 = apply_all(e2, x1, modulus);
        lemma_apply_all_concat(e1, e2, x, modulus);
        assert(p.state.tokens + e1 + e2 =~= p.state.tokens + (e1 + e2));
        if needs_pointer(token) {
            let e3 = lemma_shifted(p2, x2, o, modulus);
            let x3 = apply_all(e3, x2, modulus);
            lemma_apply_all_concat(e1 + e2, e3, x, modulus);
            assert(p.state.tokens + (e1 + e2) + e3 =~= p.state.tokens + (e1 + e2 + e3));
            assert(o.buffer =~= x3.buffer);
            assert(o.output =~= o.output + o.buffer);
            assert(x3.output =~= x3.output + x3.buffer);
            e1 + e2 + e3
        } else {
            e1 + e2
        }
    }
}

/// A product that wrapped in 32 bits is, as a cell value, the product.
pub proof fn lemma_wrapped_product(x: int, v: i32, k: i32, modulus: int)
    requires
        cell_modulus(modulus),
    ensures
        (x + v.wrapping_mul(k)) % modulus == (x + v * k) % modulus,
{
    let range = 0x1_0000_0000int;
    let q = range / modulus;
    lemma_fundamental_div_mod(range, modulus);
    assert(range == modulus * q);
    let product = v * k;
    let t = product / range;
    lemma_fundamental_div_mod(product, range);
    let w = v.wrapping_mul(k) as int;
    let u = if product % range > i32::MAX {
        t + 1
    } else {
        t
    };
    assert(w == product - range * u);
    lemma_mod_multiples_vanish(-(q * u), x + product, modulus);
    assert(modulus * (-(q * u)) + (x + product) == x + w) by (nonlinear_arith)
        requires
            range == modulus * q,
            w == product - range * u,
    ;
}

/// A value of the cell type is, as a byte, the value.
pub proof fn lemma_byte_of(y: int, modulus: int)
    requires
        byte_modulus(modulus),
    ensures
        byte(y % modulus) == byte(y),
{
    let q = modulus / 256;
    lemma_fundamental_div_mod(modulus, 256);
    assert(modulus == 256 * q);
    assert(q > 0);
    lemma_mod_mod(y, 256, q);
}

/// The state after an assignment is stood for with one more pending set.
proof fn lemma_pass_assign(p: SpecPass, off: i32, v: i32, x: TokenState, o: TokenState, modulus: int)
    requires
        modulus > 0,
        stands(p, x, o, modulus),
    ensures
        stands(
            pass_token(p, SpecToken::Assign(off, v)),
            x,
            apply(SpecToken::Assign(off, v), o, modulus),
            modulus,
        ),
        pass_token(p, SpecToken::Assign(off, v)).state.tokens == p.state.tokens,
{
    let token = SpecToken::Assign(off, v);
    let s = p.state;
    let k = off.wrapping_add(s.shift);
    let q = pass_token(p, token);
    let o1 = apply(token, o, modulus);
    lemma_apply_sound(token, o, modulus);
    lemma_with_set_ok(s, k, v);
    assert forall|a: i32| cell_stands(q.state, x, o1, a, modulus) by {
        assert(cell_stands(s, x, o, a, modulus));
        lemma_due_with_set(s, k, v, a.wrapping_sub(x.cursor), x.tape[a], modulus);
    }
}

/// The state after an add is stood for with the add pending.
proof fn lemma_pass_add(p: SpecPass, off: i32, v: i32, x: TokenState, o: TokenState, modulus: int)
    requires
        cell_modulus(modulus),
        stands(p, x, o, modulus),
    ensures
        stands(
            pass_token(p, SpecToken::Add(off, v)),
            x,
            apply(SpecToken::Add(off, v), o, modulus),
            modulus,
        ),
        pass_token(p, SpecToken::Add(off, v)).state.tokens == p.state.tokens,
{
    let token = SpecToken::Add(off, v);
    let s = p.state;
    let k = off.wrapping_add(s.shift);
    let q = pass_token(p, token);
    let o1 = apply(token, o, modulus);
    lemma_apply_sound(token, o, modulus);
    lemma_with_add_ok(s, k, v, modulus);
    assert forall|a: i32| cell_stands(q.state, x, o1, a, modulus) by {
        assert(cell_stands(s, x, o, a, modulus));
        assert(tcell_sound(x, a, modulus));
        lemma_due_with_add(s, k, v, a.wrapping_sub(x.cursor), x.tape[a], modulus);
    }
}

/// The state after a move is stood for with the move deferred.
proof fn lemma_pass_move(p: SpecPass, by: i32, x: TokenState, o: TokenState, modulus: int)
    requires
        stands(p, x, o, modulus),
    ensures
        stands(
            pass_token(p, SpecToken::Move(by)),
            x,
            apply(SpecToken::Move(by), o, modulus),
            modulus,
        ),
        pass_token(p, SpecToken::Move(by)).state.tokens == p.state.tokens,
{
    let token = SpecToken::Move(by);
    let q = pass_token(p, token);
    let o1 = apply(token, o, modulus);
    assert forall|a: i32| tcell_sound(o1, a, modulus) by {
        assert(tcell_sound(o, a, modulus));
    }
    assert forall|k: i32| apart(q.state, k) by {
        assert(apart(p.state, k));
    }
    assert forall|a: i32| cell_stands(q.state, x, o1, a, modulus) by {
        assert(cell_stands(p.state, x, o, a, modulus));
    }
}

/// The state after an output is stood for with the output deferred.
proof fn lemma_pass_output(p: SpecPass, x: TokenState, o: TokenState, modulus: int)
    requires
        stands(p, x, o, modulus),
    ensures
        stands(
            pass_token(p, SpecToken::Output),
            x,
            apply(SpecToken::Output, o, modulus),
            modulus,
        ),
        pass_token(p, SpecToken::Output).state.tokens == p.state.tokens,
{
    let token = SpecToken::Output;
    let q = pass_token(p, token);
    let o1 = apply(token, o, modulus);
    assert(o1.output + o1.buffer =~= o.output + o.buffer);
    assert forall|a: i32| tcell_sound(o1, a, modulus) by {
        assert(tcell_sound(o, a, modulus));
    }
    assert forall|k: i32| apart(q.state, k) by {
        assert(apart(p.state, k));
    }
    assert forall|a: i32| cell_stands(q.state, x, o1, a, modulus) by {
        assert(cell_stands(p.state, x, o, a, modulus));
    }
}

/// Two states that load the same byte stay in step.
proof fn lemma_loaded(
    p: SpecPass,
    q: SpecPass,
    x: TokenState,
    o: TokenState,
    b: u8,
    modulus: int,
)
    requires
        stands(p, x, o, modulus),
        q.state.sets == p.state.sets,
        q.state.adds == p.state.adds,
        q.state.shift == p.state.shift,
        q.output_pending == p.output_pending,
    ensures
        stands(
            q,
            TokenState { buffer: x.buffer.push(b), ..x },
            TokenState { buffer: o.buffer.push(b), ..o },
            modulus,
        ),
{
    let x1 = TokenState { buffer: x.buffer.push(b), ..x };
    let o1 = TokenState { buffer: o.buffer.push(b), ..o };
    assert(o1.output + o1.buffer =~= (o.output + o.buffer).push(b));
    assert(x1.output + x1.buffer =~= (x.output + x.buffer).push(b));
    assert forall|a: i32| tcell_sound(o1, a, modulus) by {
        assert(tcell_sound(o, a, modulus));
    }
    assert forall|a: i32| tcell_sound(x1, a, modulus) by {
        assert(tcell_sound(x, a, modulus));
    }
    assert forall|k: i32| apart(q.state, k) by {
        assert(apart(p.state, k));
    }
    assert forall|a: i32| cell_stands(q.state, x1, o1, a, modulus) by {
        assert(cell_stands(p.state, x, o, a, modulus));
    }
}

/// The state after a load of a constant.
proof fn lemma_pass_load_set(p: SpecPass, v: i32, x: TokenState, o: TokenState, modulus: int)
    requires
        stands(p, x, o, modulus),
    ensures
        stands(
            pass_token(p, SpecToken::LoadOutSet(v)),
            apply(SpecToken::LoadOutSet(v), x, modulus),
            apply(SpecToken::LoadOutSet(v), o, modulus),
            modulus,
        ),
        pass_token(p, SpecToken::LoadOutSet(v)).state.tokens == p.state.tokens.push(
            SpecToken::LoadOutSet(v),
        ),
{
    lemma_loaded(p, pass_token(p, SpecToken::LoadOutSet(v)), x, o, byte(v as int), modulus);
}

/// The state after a load of a cell: the pass loads the constant of a
/// pending set, or the cell with a pending add added.
proof fn lemma_pass_load(p: SpecPass, off: i32, add: i32, x: TokenState, o: TokenState, modulus: int)
    requires
        byte_modulus(modulus),
        stands(p, x, o, modulus),
    ensures
        stands(
            pass_token(p, SpecToken::LoadOut(off, add)),
            apply(
                load_out_token(p.state, off.wrapping_add(p.state.shift), add),
                x,
                modulus,
            ),
            apply(SpecToken::LoadOut(off, add), o, modulus),
            modulus,
        ),
        pass_token(p, SpecToken::LoadOut(off, add)).state.tokens == p.state.tokens.push(
            load_out_token(p.state, off.wrapping_add(p.state.shift), add),
        ),
        is_flat(load_out_token(p.state, off.wrapping_add(p.state.shift), add)),
{
    let token = SpecToken::LoadOut(off, add);
    let s = p.state;
    let k = off.wrapping_add(s.shift);
    let at = x.cursor.wrapping_add(k);
    assert(at == o.cursor.wrapping_add(off));
    assert(at.wrapping_sub(x.cursor) == k);
    assert(cell_stands(s, x, o, at, modulus));
    assert(tcell_sound(x, at, modulus));
    let loaded = byte((cell(o, off) + add) % modulus);
    lemma_byte_of(cell(o, off) + add, modulus);
    match lookup(s.sets, k) {
        Some(set) => {
            // byte(set % modulus + add) is byte(set + add).
            lemma_byte_of(set as int, modulus);
            lemma_add_mod_noop((set as int) % modulus, add as int, 256);
            lemma_add_mod_noop(set as int, add as int, 256);
            lemma_wrapped_sum(0, set, add, 256);
            assert(loaded == byte(set.wrapping_add(add) as int));
        },
        None => {
            match lookup(s.adds, k) {
                Some(v) => {
                    lemma_mod_sum(x.tape[at], v as int, add as int, modulus);
                    lemma_wrapped_sum(x.tape[at], v, add, modulus);
                },
                None => {},
            }
        },
    }
    lemma_loaded(p, pass_token(p, token), x, o, loaded, modulus);
}

/// A committed multiply-copy between cells for which nothing is pending
/// keeps the two states in step.
proof fn lemma_copy_pushed(
    p: SpecPass,
    q: SpecPass,
    src: i32,
    dest: i32,
    mul: i32,
    x: TokenState,
    o: TokenState,
    modulus: int,
)
    requires
        modulus > 0,
        stands(p, x, o, modulus),
        q.state.sets == p.state.sets,
        q.state.adds == p.state.adds,
        q.state.shift == p.state.shift,
        q.output_pending == p.output_pending,
        !has_key(p.state.sets, src.wrapping_add(p.state.shift)),
        !has_key(p.state.adds, src.wrapping_add(p.state.shift)),
        !has_key(p.state.sets, dest.wrapping_add(p.state.shift)),
        !has_key(p.state.adds, dest.wrapping_add(p.state.shift)),
    ensures
        stands(
            q,
            apply(
                SpecToken::MulCopy(
                    src.wrapping_add(p.state.shift),
                    dest.wrapping_add(p.state.shift),
                    mul,
                ),
                x,
                modulus,
            ),
            apply(SpecToken::MulCopy(src, dest, mul), o, modulus),
            modulus,
        ),
{
    let s = p.state;
    let ks = src.wrapping_add(s.shift);
    let kd = dest.wrapping_add(s.shift);
    let pushed = SpecToken::MulCopy(ks, kd, mul);
    let token = SpecToken::MulCopy(src, dest, mul);
    let x1 = apply(pushed, x, modulus);
    let o1 = apply(token, o, modulus);
    let from = x.cursor.wrapping_add(ks);
    let to = x.cursor.wrapping_add(kd);
    assert(from == o.cursor.wrapping_add(src));
    assert(to == o.cursor.wrapping_add(dest));
    assert(from.wrapping_sub(x.cursor) == ks);
    assert(to.wrapping_sub(x.cursor) == kd);
    assert(cell_stands(s, x, o, from, modulus));
    assert(cell_stands(s, x, o, to, modulus));
    lemma_apply_sound(pushed, x, modulus);
    lemma_apply_sound(token, o, modulus);
    assert forall|k: i32| apart(q.state, k) by {
        assert(apart(s, k));
    }
    assert forall|a: i32| cell_stands(q.state, x1, o1, a, modulus) by {
        assert(cell_stands(s, x, o, a, modulus));
        if a != to {
            assert(a.wrapping_sub(x.cursor) != kd);
        }
    }
}

/// The state after a multiply-copy: with a pending set of the source the
/// product is pending; else the token is committed, after the pending sets
/// and adds where they touch its cells.
proof fn lemma_pass_mul_copy(
    p: SpecPass,
    src: i32,
    dest: i32,
    mul: i32,
    x: TokenState,
    o: TokenState,
    modulus: int,
) -> (extra: Seq<SpecToken>)
    requires
        cell_modulus(modulus),
        stands(p, x, o, modulus),
    ensures
        pass_token(p, SpecToken::MulCopy(src, dest, mul)).state.tokens == p.state.tokens
            + extra,
        all_flat(extra),
        stands(
            pass_token(p, SpecToken::MulCopy(src, dest, mul)),
            apply_all(extra, x, modulus),
            apply(SpecToken::MulCopy(src, dest, mul), o, modulus),
            modulus,
        ),
{
    let token = SpecToken::MulCopy(src, dest, mul);
    let s = p.state;
    let ks = src.wrapping_add(s.shift);
    let kd = dest.wrapping_add(s.shift);
    let q = pass_token(p, token);
    let o1 = apply(token, o, modulus);
    let from = x.cursor.wrapping_add(ks);
    let to = x.cursor.wrapping_add(kd);
    assert(from == o.cursor.wrapping_add(src));
    assert(to == o.cursor.wrapping_add(dest));
    assert(from.wrapping_sub(x.cursor) == ks);
    assert(to.wrapping_sub(x.cursor) == kd);
    let pushed = SpecToken::MulCopy(ks, kd, mul);
    match lookup(s.sets, ks) {
        Some(value) => {
            let extra = Seq::<SpecToken>::empty();
            assert(s.tokens =~= s.tokens + extra);
            let product = value.wrapping_mul(mul);
            lemma_apply_sound(token, o, modulus);
            lemma_with_add_ok(s, kd, product, modulus);
            assert(cell_stands(s, x, o, from, modulus));
            assert(o.tape[from] == (value as int) % modulus);
            assert forall|a: i32| cell_stands(q.state, x, o1, a, modulus) by {
                assert(cell_stands(s, x, o, a, modulus));
                assert(tcell_sound(x, a, modulus));
                lemma_due_with_add(s, kd, product, a.wrapping_sub(x.cursor), x.tape[a], modulus);
                if a == to {
                    let d = o.tape[to];
                    lemma_wrapped_product(d, value, mul, modulus);
                    lemma_mul_mod_noop_left(value as int, mul as int, modulus);
                    lemma_add_mod_noop_right(d, ((value as int) % modulus) * mul, modulus);
                    lemma_add_mod_noop_right(d, value * mul, modulus);
                    lemma_add_mod_noop_right(d, (((value as int) % modulus) * mul) % modulus, modulus);
                }
            }
            extra
        },
        None => {
            if has_key(s.sets, kd) || has_key(s.adds, ks) || has_key(s.adds, kd) {
                let e1 = lemma_committed(p, x, o, modulus);
                let p1 = SpecPass { state: adds_sets_applied(s), ..p };
                let x1 = apply_all(e1, x, modulus);
                lemma_copy_pushed(p1, q, src, dest, mul, x1, o, modulus);
                let extra = e1.push(pushed);
                assert(extra.drop_last() =~= e1);
                assert(q.state.tokens =~= s.tokens + extra);
                extra
            } else {
                lemma_copy_pushed(p, q, src, dest, mul, x, o, modulus);
                let extra = seq![pushed];
                lemma_apply_all_one(pushed, x, modulus);
                assert(q.state.tokens =~= s.tokens + extra);
                extra
            }
        },
    }
}

/// The pass after a token that lets everything stay pending: what it
/// commits leads to a state that stands for the state after the token.
pub proof fn lemma_pass_plain(
    p: SpecPass,
    token: SpecToken,
    x: TokenState,
    o: TokenState,
    modulus: int,
) -> (extra: Seq<SpecToken>)
    requires
        byte_modulus(modulus),
        stands(p, x, o, modulus),
        is_plain(token),
    ensures
        pass_token(p, token).state.tokens == p.state.tokens + extra,
        all_flat(extra),
        stands(
            pass_token(p, token),
            apply_all(extra, x, modulus),
            apply(token, o, modulus),
            modulus,
        ),
{
    let none = Seq::<SpecToken>::empty();
    assert(p.state.tokens =~= p.state.tokens + none);
    match token {
        SpecToken::Assign(off, v) => {
            lemma_pass_assign(p, off, v, x, o, modulus);
            none
        },
        SpecToken::Add(off, v) => {
            lemma_pass_add(p, off, v, x, o, modulus);
            none
        },
        SpecToken::Move(by) => {
            lemma_pass_move(p, by, x, o, modulus);
            none
        },
        SpecToken::Output => {
            lemma_pass_output(p, x, o, modulus);
            none
        },
        SpecToken::LoadOutSet(v) => {
            lemma_pass_load_set(p, v, x, o, modulus);
            lemma_apply_all_one(token, x, modulus);
            assert(p.state.tokens.push(token) =~= p.state.tokens + seq![token]);
            seq![token]
        },
        SpecToken::LoadOut(off, add) => {
            lemma_pass_load(p, off, add, x, o, modulus);
            let pushed = load_out_token(p.state, off.wrapping_add(p.state.shift), add);
            lemma_apply_all_one(pushed, x, modulus);
            assert(p.state.tokens.push(pushed) =~= p.state.tokens + seq![pushed]);
            seq![pushed]
        },
        SpecToken::MulCopy(src, dest, mul) => lemma_pass_mul_copy(
            p,
            src,
            dest,
            mul,
            x,
            o,
            modulus,
        ),
        _ => none,
    }
}

} // verus!
