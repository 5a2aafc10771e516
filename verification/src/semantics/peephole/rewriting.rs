//! The peephole pass keeps what a token sequence means.

use vstd::arithmetic::div_mod::lemma_small_mod;
use vstd::prelude::*;
use crate::optimizer::peephole::optimize::{
    is_clear, is_mul_copy, is_plain, is_scan, mul_copies, output_flushed, pass_block, pass_fold,
    pass_token, pass_tokens, prepared, pushed, shifted_body, shifted_guarded, with_loop, SpecPass,
};
use crate::optimizer::peephole::optimize_state::{
    adds_sets_applied, set_tokens, shift_applied, SpecState,
};
use crate::semantics::peephole::loops::{
    body_stands, lemma_clear_loop, lemma_copies_zero, lemma_copy_loop, lemma_scan_loop,
};
use crate::optimizer::peephole::token::{is_guarded_token, well_formed, SpecToken};
use crate::semantics::peephole::lowering::{closed, inner_closed, lemma_tsem_buffer, token_closed};
use crate::semantics::peephole::passes::{
    apart, byte_modulus, cell_stands, lemma_committed, lemma_flushed, lemma_pass_plain,
    lemma_prepared, lemma_shifted, stands,
};
use crate::semantics::peephole::pending::{
    all_flat, apply_all, is_flat, lemma_apply_all_concat, lemma_apply_all_sound,
    lemma_apply_sound, lemma_tsem_flat, lemma_tsem_loop_sound, lemma_tsem_sound,
    lemma_tsem_token_sound, tcell_sound, tsound,
};
use crate::semantics::peephole::tokens::{
    apply, cell, cell_is_zero, lemma_tsem_concat, lemma_tsem_loop_more, lemma_tsem_more,
    lemma_tsem_one, tsem, tsem_loop, tsem_token, with_cell, TokenState,
};

verus! {

/// Whether the body of a token, if it has one, is well formed.
pub open spec fn token_well_formed(token: SpecToken) -> bool {
    match token {
        SpecToken::Loop(body) => well_formed(body),
        SpecToken::If(_, body) => forall|j: int|
            0 <= j < body.len() ==> is_guarded_token(#[trigger] body[j]),
        _ => true,
    }
}

/// A sound state stands for itself where nothing is held back.
pub proof fn lemma_stands_same(p: SpecPass, o: TokenState, modulus: int)
    requires
        tsound(o, modulus),
        p.state.sets.len() == 0,
        p.state.adds.len() == 0,
        p.state.shift == 0,
    ensures
        stands(p, o, o, modulus),
{
    assert forall|k: i32| apart(p.state, k) by {}
    assert forall|a: i32| cell_stands(p.state, o, o, a, modulus) by {}
}

/// A token of the body of an `If`, with its offsets moved by the deferred
/// shift, keeps two states in step for which no set or add is pending.
proof fn lemma_guarded_pushed(
    p: SpecPass,
    token: SpecToken,
    x: TokenState,
    o: TokenState,
    modulus: int,
)
    requires
        modulus > 0,
        stands(p, x, o, modulus),
        p.state.sets.len() == 0,
        p.state.adds.len() == 0,
        is_guarded_token(token),
    ensures
        stands(
            p,
            apply(shifted_guarded(token, p.state.shift), x, modulus),
            apply(token, o, modulus),
            modulus,
        ),
{
    let s = p.state;
    let moved = shifted_guarded(token, s.shift);
    let x1 = apply(moved, x, modulus);
    let o1 = apply(token, o, modulus);
    lemma_apply_sound(moved, x, modulus);
    lemma_apply_sound(token, o, modulus);
    match token {
        SpecToken::Assign(off, v) => {
            let at = x.cursor.wrapping_add(off.wrapping_add(s.shift));
            assert(at == o.cursor.wrapping_add(off));
            assert forall|a: i32| cell_stands(s, x1, o1, a, modulus) by {
                assert(cell_stands(s, x, o, a, modulus));
            }
        },
        SpecToken::MulCopy(src, dest, mul) => {
            let from = x.cursor.wrapping_add(src.wrapping_add(s.shift));
            let to = x.cursor.wrapping_add(dest.wrapping_add(s.shift));
            assert(from == o.cursor.wrapping_add(src));
            assert(to == o.cursor.wrapping_add(dest));
            assert(cell_stands(s, x, o, from, modulus));
            assert(cell_stands(s, x, o, to, modulus));
            assert forall|a: i32| cell_stands(s, x1, o1, a, modulus) by {
                assert(cell_stands(s, x, o, a, modulus));
            }
        },
        _ => {},
    }
}

/// The body of an `If`, with its offsets moved by the deferred shift, keeps
/// two states in step for which no set or add is pending.
proof fn lemma_body_pushed(
    p: SpecPass,
    body: Seq<SpecToken>,
    x: TokenState,
    o: TokenState,
    modulus: int,
)
    requires
        modulus > 0,
        stands(p, x, o, modulus),
        p.state.sets.len() == 0,
        p.state.adds.len() == 0,
        forall|j: int| 0 <= j < body.len() ==> is_guarded_token(#[trigger] body[j]),
    ensures
        stands(
            p,
            apply_all(shifted_body(body, p.state.shift), x, modulus),
            apply_all(body, o, modulus),
            modulus,
        ),
        all_flat(body),
        all_flat(shifted_body(body, p.state.shift)),
    decreases body.len(),
{
    let moved = shifted_body(body, p.state.shift);
    assert forall|i: int| 0 <= i < body.len() implies is_flat(#[trigger] body[i]) by {
        assert(is_guarded_token(body[i]));
    }
    assert forall|i: int| 0 <= i < moved.len() implies is_flat(#[trigger] moved[i]) by {
        assert(is_guarded_token(body[i]));
    }
    if body.len() > 0 {
        let before = body.drop_last();
        assert forall|j: int| 0 <= j < before.len() implies is_guarded_token(
            #[trigger] before[j],
        ) by {
            assert(is_guarded_token(body[j]));
        }
        lemma_body_pushed(p, before, x, o, modulus);
        assert(moved.drop_last() =~= shifted_body(before, p.state.shift));
        assert(is_guarded_token(body[body.len() - 1]));
        lemma_guarded_pushed(
            p,
            body.last(),
            apply_all(shifted_body(before, p.state.shift), x, modulus),
            apply_all(before, o, modulus),
            modulus,
        );
    }
}

/// A state stands for another under a pass exactly as under a pass that
/// holds back the same.
pub proof fn lemma_stands_pushed(p: SpecPass, q: SpecPass, x: TokenState, o: TokenState, modulus: int)
    requires
        stands(p, x, o, modulus),
        q.state.sets == p.state.sets,
        q.state.adds == p.state.adds,
        q.state.shift == p.state.shift,
        q.output_pending == p.output_pending,
    ensures
        stands(q, x, o, modulus),
{
    assert forall|k: i32| apart(q.state, k) by {
        assert(apart(p.state, k));
    }
    assert forall|a: i32| cell_stands(q.state, x, o, a, modulus) by {
        assert(cell_stands(p.state, x, o, a, modulus));
    }
}

/// The pass after an `If`: the token that it commits, with its offsets
/// moved by the deferred shift, does to the state that stands what the
/// `If` does to the state that is stood for.
proof fn lemma_pass_if(
    q: SpecPass,
    off: i32,
    body: Seq<SpecToken>,
    x: TokenState,
    o: TokenState,
    modulus: int,
    fuel: nat,
)
    requires
        modulus > 0,
        stands(q, x, o, modulus),
        q.state.sets.len() == 0,
        q.state.adds.len() == 0,
        forall|j: int| 0 <= j < body.len() ==> is_guarded_token(#[trigger] body[j]),
    ensures
        tsem_token(SpecToken::If(off, body), o, modulus, fuel) is Some,
        tsem_token(
            SpecToken::If(off.wrapping_add(q.state.shift), shifted_body(body, q.state.shift)),
            x,
            modulus,
            0,
        ) is Some,
        stands(
            SpecPass {
                state: pushed(
                    q.state,
                    SpecToken::If(
                        off.wrapping_add(q.state.shift),
                        shifted_body(body, q.state.shift),
                    ),
                ),
                ..q
            },
            tsem_token(
                SpecToken::If(off.wrapping_add(q.state.shift), shifted_body(body, q.state.shift)),
                x,
                modulus,
                0,
            )->Some_0,
            tsem_token(SpecToken::If(off, body), o, modulus, fuel)->Some_0,
            modulus,
        ),
{
    let s = q.state;
    let moved = shifted_body(body, s.shift);
    let token = SpecToken::If(off.wrapping_add(s.shift), moved);
    let q1 = SpecPass { state: pushed(s, token), ..q };
    let at = x.cursor.wrapping_add(off.wrapping_add(s.shift));
    assert(at == o.cursor.wrapping_add(off));
    assert(cell_stands(s, x, o, at, modulus));
    lemma_body_pushed(q, body, x, o, modulus);
    lemma_tsem_flat(body, o, modulus, fuel);
    lemma_tsem_flat(moved, x, modulus, 0);
    if cell_is_zero(o, off, modulus) {
        lemma_stands_pushed(q, q1, x, o, modulus);
    } else {
        lemma_stands_pushed(
            q,
            q1,
            apply_all(moved, x, modulus),
            apply_all(body, o, modulus),
            modulus,
        );
    }
}

/// The tokens that the pass makes of the body of a loop: what it has
/// committed, and then all that it holds back.
pub open spec fn committed_body(body: Seq<SpecToken>) -> Seq<SpecToken> {
    shift_applied(adds_sets_applied(pass_block(body))).tokens
}

/// The pass over a sequence keeps what the sequence means: where the
/// sequence ends, the tokens that the pass has committed end, within the
/// fuel that the lemma gives, in a state that stands for the state after
/// the sequence.
pub proof fn lemma_fold_pass(
    tokens: Seq<SpecToken>,
    s: TokenState,
    modulus: int,
    fuel: nat,
) -> (fx: nat)
    requires
        byte_modulus(modulus),
        inner_closed(tokens),
        well_formed(tokens),
        tsound(s, modulus),
        s.buffer.len() == 0,
        tsem(tokens, s, modulus, fuel) is Some,
    ensures
        tsem(pass_fold(tokens).state.tokens, s, modulus, fx) is Some,
        stands(
            pass_fold(tokens),
            tsem(pass_fold(tokens).state.tokens, s, modulus, fx)->Some_0,
            tsem(tokens, s, modulus, fuel)->Some_0,
            modulus,
        ),
    decreases tokens, 1nat, 0nat,
{
    if tokens.len() == 0 {
        lemma_stands_same(pass_fold(tokens), s, modulus);
        0
    } else {
        let before = tokens.drop_last();
        let token = tokens.last();
        let p1 = pass_fold(before);
        let f1 = lemma_fold_pass(before, s, modulus, fuel);
        let x1 = tsem(p1.state.tokens, s, modulus, f1)->Some_0;
        let o1 = tsem(before, s, modulus, fuel)->Some_0;
        lemma_tsem_buffer(before, s, modulus, fuel);
        let (extra, f2) = lemma_token_pass(p1, token, x1, o1, modulus, fuel);
        lemma_tsem_more(p1.state.tokens, s, modulus, f1, f2);
        lemma_tsem_more(extra, x1, modulus, f2, f1);
        lemma_tsem_concat(p1.state.tokens, extra, s, modulus, f1 + f2);
        assert(f2 + f1 == f1 + f2);
        f1 + f2
    }
}

/// The pass after one more token: where the token ends, the tokens that
/// the pass commits for it end in a state that stands for the state after
/// the token.
pub proof fn lemma_token_pass(
    p: SpecPass,
    token: SpecToken,
    x: TokenState,
    o: TokenState,
    modulus: int,
    fuel: nat,
) -> (r: (Seq<SpecToken>, nat))
    requires
        byte_modulus(modulus),
        stands(p, x, o, modulus),
        token_closed(token, o.buffer.len()),
        token_well_formed(token),
        tsem_token(token, o, modulus, fuel) is Some,
    ensures
        pass_token(p, token).state.tokens == p.state.tokens + r.0,
        tsem(r.0, x, modulus, r.1) is Some,
        stands(
            pass_token(p, token),
            tsem(r.0, x, modulus, r.1)->Some_0,
            tsem_token(token, o, modulus, fuel)->Some_0,
            modulus,
        ),
    decreases token, 0nat, 0nat,
{
    if is_plain(token) {
        let extra = lemma_pass_plain(p, token, x, o, modulus);
        lemma_tsem_flat(extra, x, modulus, 0);
        (extra, 0)
    } else {
        let e1 = lemma_prepared(p, token, x, o, modulus);
        let q = prepared(p, token);
        let x1 = apply_all(e1, x, modulus);
        let o1 = tsem_token(token, o, modulus, fuel)->Some_0;
        lemma_tsem_token_sound(token, o, modulus, fuel);
        let (e2, f2) = match token {
            SpecToken::If(off, body) => {
                lemma_pass_if(q, off, body, x1, o, modulus, fuel);
                let pushed = SpecToken::If(
                    off.wrapping_add(q.state.shift),
                    shifted_body(body, q.state.shift),
                );
                lemma_tsem_one(pushed, x1, modulus, 0);
                assert(q.state.tokens.push(pushed) =~= q.state.tokens + seq![pushed]);
                (seq![pushed], 0nat)
            },
            SpecToken::Loop(body) => lemma_pass_loop(q, body, o, modulus, fuel),
            SpecToken::Scan(k) => {
                assert(k.wrapping_add(0) == k);
                lemma_tsem_one(token, o, modulus, fuel);
                lemma_stands_same(pass_token(p, token), o1, modulus);
                assert(q.state.tokens.push(token) =~= q.state.tokens + seq![token]);
                (seq![token], fuel)
            },
            _ => {
                lemma_tsem_one(token, o, modulus, fuel);
                lemma_stands_same(pass_token(p, token), o1, modulus);
                assert(q.state.tokens.push(token) =~= q.state.tokens + seq![token]);
                (seq![token], fuel)
            },
        };
        lemma_tsem_flat(e1, x, modulus, f2);
        lemma_tsem_concat(e1, e2, x, modulus, f2);
        assert(p.state.tokens + e1 + e2 =~= p.state.tokens + (e1 + e2));
        (e1 + e2, f2)
    }
}

/// The pass after a loop: where the loop ends, what the pass commits for
/// it ends in a state that stands for the state after the loop.
pub proof fn lemma_pass_loop(
    q: SpecPass,
    body: Seq<SpecToken>,
    o: TokenState,
    modulus: int,
    fuel: nat,
) -> (r: (Seq<SpecToken>, nat))
    requires
        byte_modulus(modulus),
        q.state.sets.len() == 0,
        q.state.adds.len() == 0,
        q.state.shift == 0,
        tsound(o, modulus),
        o.buffer.len() == 0,
        closed(body),
        well_formed(body),
        tsem_loop(body, o, modulus, fuel) is Some,
    ensures
        with_loop(q.state, pass_block(body)).tokens == q.state.tokens + r.0,
        tsem(r.0, o, modulus, r.1) is Some,
        stands(
            SpecPass { state: with_loop(q.state, pass_block(body)), ..q },
            tsem(r.0, o, modulus, r.1)->Some_0,
            tsem_loop(body, o, modulus, fuel)->Some_0,
            modulus,
        ),
    decreases body, 4nat, 0nat,
{
    let inner = pass_block(body);
    let folded = pass_fold(body);
    let after = tsem_loop(body, o, modulus, fuel)->Some_0;
    let q1 = SpecPass { state: with_loop(q.state, inner), ..q };
    lemma_tsem_loop_sound(body, o, modulus, fuel);
    if inner.tokens.len() == 0 {
        assert(!folded.output_pending);
        assert(inner == folded.state);
        assert forall|s: TokenState, f: nat|
            tsound(s, modulus) && s.buffer.len() == 0 && (#[trigger] tsem(body, s, modulus, f))
                is Some implies stands(folded, s, tsem(body, s, modulus, f)->Some_0, modulus)
            && tsem(body, s, modulus, f)->Some_0.buffer.len() == 0 by {
            let fx = lemma_fold_pass(body, s, modulus, f);
            lemma_tsem_buffer(body, s, modulus, f);
            assert(tsem(folded.state.tokens, s, modulus, fx) == Some(s));
        }
        assert(body_stands(body, folded, modulus));
    }
    let here = o.cursor.wrapping_add(0);
    assert(tcell_sound(o, here, modulus));
    if is_scan(inner) {
        let token = SpecToken::Scan(inner.shift);
        lemma_scan_loop(body, folded, o, modulus, fuel);
        lemma_tsem_one(token, o, modulus, fuel);
        lemma_stands_same(q1, after, modulus);
        assert(q.state.tokens.push(token) =~= q.state.tokens + seq![token]);
        (seq![token], fuel)
    } else if is_clear(inner) || is_mul_copy(inner) {
        // The loop runs its body at least once or not at all; in a pass of
        // the body the pending entries are seen to be in order and apart.
        let sets = set_tokens(inner.sets);
        let flat = if is_clear(inner) {
            sets
        } else {
            sets + mul_copies(inner.adds)
        };
        if cell_is_zero(o, 0, modulus) {
            lemma_small_mod(o.tape[here] as nat, modulus as nat);
            lemma_small_mod(0, modulus as nat);
            assert(after == o);
            assert(with_cell(o, 0, 0, modulus).tape =~= o.tape);
        } else {
            let ob = tsem(body, o, modulus, (fuel - 1) as nat)->Some_0;
            assert(stands(folded, o, ob, modulus));
            if is_clear(inner) {
                lemma_clear_loop(body, folded, o, modulus, fuel);
            } else {
                lemma_copy_loop(body, folded, o, modulus, fuel);
            }
        }
        let w = if cell_is_zero(o, 0, modulus) {
            o
        } else {
            apply_all(flat, o, modulus)
        };
        assert(after == with_cell(w, 0, 0, modulus));
        if !cell_is_zero(o, 0, modulus) {
            lemma_apply_all_sound(flat, o, modulus);
        }
        let clear = SpecToken::Assign(0, 0);
        if inner.sets.len() != 0 {
            if is_clear(inner) {
                let guarded = sets.push(clear);
                let token = SpecToken::If(0, guarded);
                lemma_tsem_one(token, o, modulus, 0);
                assert(guarded.drop_last() =~= sets);
                assert forall|i: int| 0 <= i < guarded.len() implies is_flat(
                    #[trigger] guarded[i],
                ) by {}
                lemma_tsem_flat(guarded, o, modulus, 0);
                lemma_stands_same(q1, after, modulus);
                assert(q.state.tokens.push(token) =~= q.state.tokens + seq![token]);
                (seq![token], 0)
            } else {
                let token = SpecToken::If(0, flat);
                let q0 = SpecPass { state: pushed(q.state, token), ..q };
                lemma_tsem_one(token, o, modulus, 0);
                if !cell_is_zero(o, 0, modulus) {
                    lemma_tsem_flat(flat, o, modulus, 0);
                }
                lemma_stands_same(q0, w, modulus);
                let none = lemma_pass_plain(q0, clear, w, w, modulus);
                assert(none.len() == 0);
                assert(q.state.tokens.push(token) =~= q.state.tokens + seq![token]);
                (seq![token], 0)
            }
        } else {
            assert(sets =~= Seq::<SpecToken>::empty());
            if is_clear(inner) {
                let none = Seq::<SpecToken>::empty();
                assert(q.state.tokens =~= q.state.tokens + none);
                lemma_stands_same(q, o, modulus);
                let e = lemma_pass_plain(q, clear, o, o, modulus);
                assert(e.len() == 0);
                assert(w == o);
                (none, 0)
            } else {
                let copies = mul_copies(inner.adds);
                assert(flat =~= copies);
                let q0 = SpecPass {
                    state: SpecState { tokens: q.state.tokens + copies, ..q.state },
                    ..q
                };
                lemma_copies_zero_or_flat(o, inner.adds, modulus);
                lemma_tsem_flat(copies, o, modulus, 0);
                assert(apply_all(copies, o, modulus) == w);
                lemma_stands_same(q0, w, modulus);
                let none = lemma_pass_plain(q0, clear, w, w, modulus);
                assert(none.len() == 0);
                (copies, 0)
            }
        }
    } else {
        let token = SpecToken::Loop(committed_body(body));
        let fx = lemma_loop_pass(body, o, modulus, fuel);
        lemma_tsem_one(token, o, modulus, fx);
        lemma_stands_same(q1, after, modulus);
        assert(q.state.tokens.push(token) =~= q.state.tokens + seq![token]);
        (seq![token], fx)
    }
}

/// The multiply-copies of pending adds are flat tokens, and change nothing
/// where the current cell is zero.
proof fn lemma_copies_zero_or_flat(o: TokenState, adds: Seq<(i32, i32)>, modulus: int)
    requires
        modulus > 0,
        tsound(o, modulus),
    ensures
        all_flat(mul_copies(adds)),
        cell_is_zero(o, 0, modulus) ==> apply_all(mul_copies(adds), o, modulus) == o,
{
    let here = o.cursor.wrapping_add(0);
    assert(tcell_sound(o, here, modulus));
    lemma_small_mod(o.tape[here] as nat, modulus as nat);
    if cell_is_zero(o, 0, modulus) {
        lemma_copies_zero(o, adds, modulus);
    } else {
        lemma_copies_flat(adds);
    }
}

/// The multiply-copies of pending adds are flat tokens.
proof fn lemma_copies_flat(adds: Seq<(i32, i32)>)
    ensures
        all_flat(mul_copies(adds)),
    decreases adds.len(),
{
    if adds.len() > 0 {
        lemma_copies_flat(adds.drop_last());
        let before = mul_copies(adds.drop_last());
        assert forall|i: int| 0 <= i < mul_copies(adds).len() implies is_flat(
            #[trigger] mul_copies(adds)[i],
        ) by {
            if i < before.len() {
                assert(mul_copies(adds)[i] == before[i]);
            }
        }
    }
}

/// A loop over the tokens that the pass makes of a body does what the
/// loop over the body does.
pub proof fn lemma_loop_pass(
    body: Seq<SpecToken>,
    s: TokenState,
    modulus: int,
    fuel: nat,
) -> (fx: nat)
    requires
        byte_modulus(modulus),
        closed(body),
        well_formed(body),
        tsound(s, modulus),
        s.buffer.len() == 0,
        tsem_loop(body, s, modulus, fuel) is Some,
    ensures
        tsem_loop(committed_body(body), s, modulus, fx) == tsem_loop(body, s, modulus, fuel),
    decreases body, 3nat, fuel,
{
    if cell_is_zero(s, 0, modulus) {
        0
    } else {
        let rest = (fuel - 1) as nat;
        let made = committed_body(body);
        let f1 = lemma_block_pass(body, s, modulus, rest);
        let ob = tsem(body, s, modulus, rest)->Some_0;
        lemma_tsem_sound(body, s, modulus, rest);
        lemma_tsem_buffer(body, s, modulus, rest);
        let f2 = lemma_loop_pass(body, ob, modulus, rest);
        lemma_tsem_more(made, s, modulus, f1, f2);
        lemma_tsem_loop_more(made, ob, modulus, f2, f1);
        assert(f2 + f1 == f1 + f2);
        assert((1 + f1 + f2 - 1) as nat == f1 + f2);
        1 + f1 + f2
    }
}

/// The tokens that the pass makes of a closed body do what the body does.
pub proof fn lemma_block_pass(
    body: Seq<SpecToken>,
    s: TokenState,
    modulus: int,
    fuel: nat,
) -> (fx: nat)
    requires
        byte_modulus(modulus),
        closed(body),
        well_formed(body),
        tsound(s, modulus),
        s.buffer.len() == 0,
        tsem(body, s, modulus, fuel) is Some,
    ensures
        tsem(committed_body(body), s, modulus, fx) == tsem(body, s, modulus, fuel),
    decreases body, 2nat, 0nat,
{
    let p = pass_fold(body);
    let fx = lemma_fold_pass(body, s, modulus, fuel);
    let x = tsem(p.state.tokens, s, modulus, fx)->Some_0;
    let o = tsem(body, s, modulus, fuel)->Some_0;
    lemma_tsem_buffer(body, s, modulus, fuel);
    let e1 = lemma_flushed(p, x, o, modulus);
    let p1 = output_flushed(p);
    let x1 = apply_all(e1, x, modulus);
    let e2 = lemma_committed(p1, x1, o, modulus);
    let p2 = SpecPass { state: adds_sets_applied(p1.state), ..p1 };
    let x2 = apply_all(e2, x1, modulus);
    let e3 = lemma_shifted(p2, x2, o, modulus);
    let x3 = apply_all(e3, x2, modulus);
    lemma_apply_all_concat(e1, e2, x, modulus);
    lemma_apply_all_concat(e1 + e2, e3, x, modulus);
    let extra = e1 + e2 + e3;
    assert(committed_body(body) =~= p.state.tokens + extra);
    assert(o.buffer =~= x3.buffer);
    assert(o.output =~= o.output + o.buffer);
    assert(x3.output =~= x3.output + x3.buffer);
    assert(x3 == o);
    lemma_tsem_flat(extra, x, modulus, fx);
    lemma_tsem_concat(p.state.tokens, extra, s, modulus, fx);
    fx
}

/// One pass keeps what a closed token sequence writes: where the sequence
/// ends, the tokens that the pass makes of it end, within the fuel that
/// the lemma gives, and have written the same output.
pub proof fn lemma_pass_keeps_output(
    tokens: Seq<SpecToken>,
    s: TokenState,
    modulus: int,
    fuel: nat,
) -> (fx: nat)
    requires
        byte_modulus(modulus),
        closed(tokens),
        well_formed(tokens),
        tsound(s, modulus),
        s.buffer.len() == 0,
        tsem(tokens, s, modulus, fuel) is Some,
    ensures
        tsem(pass_tokens(tokens), s, modulus, fx) is Some,
        tsem(pass_tokens(tokens), s, modulus, fx)->Some_0.output == tsem(
            tokens,
            s,
            modulus,
            fuel,
        )->Some_0.output,
{
    let p = pass_fold(tokens);
    let fx = lemma_fold_pass(tokens, s, modulus, fuel);
    let x = tsem(p.state.tokens, s, modulus, fx)->Some_0;
    let o = tsem(tokens, s, modulus, fuel)->Some_0;
    lemma_tsem_buffer(tokens, s, modulus, fuel);
    let e1 = lemma_flushed(p, x, o, modulus);
    let x1 = apply_all(e1, x, modulus);
    assert(o.output =~= o.output + o.buffer);
    assert(x1.output =~= x1.output + x1.buffer);
    lemma_tsem_flat(e1, x, modulus, fx);
    lemma_tsem_concat(p.state.tokens, e1, s, modulus, fx);
    fx
}

} // verus!
