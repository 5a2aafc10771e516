//! What the peephole pass keeps: the well-formedness of the tokens, and a
//! bound on their number.

use vstd::prelude::*;
use crate::offset_map::{
    has_key, lemma_rank_from, lemma_with_entry_len, lemma_without_key_len, lookup, rank,
};
use crate::optimizer::peephole::optimize::{
    is_clear, is_mul_copy, is_plain, is_scan, lemma_well_formed_index, load_out_token, mul_copies,
    optimized, output_flushed, pass_block, pass_fold, pass_token, pass_tokens, prepared, pushed,
    settled, shifted_body, with_loop, with_mul_copy, SpecPass,
};
use crate::optimizer::peephole::optimize_state::{
    add_tokens, adds_sets_applied, set_tokens, shift_applied, with_add, with_set, SpecState,
};
use crate::optimizer::peephole::token::{
    is_guarded_token, lemma_token_count_concat, lemma_well_formed_concat, token_count,
    well_formed, SpecToken,
};

verus! {

/// Whether a token has no body.
pub open spec fn is_flat(token: SpecToken) -> bool {
    !(token is Loop) && !(token is If)
}

/// A sequence of tokens without bodies is well formed and counts as many
/// tokens as it is long.
pub proof fn lemma_flat(tokens: Seq<SpecToken>)
    requires
        forall|i: int| 0 <= i < tokens.len() ==> is_flat(#[trigger] tokens[i]),
    ensures
        well_formed(tokens),
        token_count(tokens) == tokens.len(),
    decreases tokens.len(),
{
    if tokens.len() > 0 {
        lemma_flat(tokens.drop_last());
        assert(is_flat(tokens[tokens.len() - 1]));
    }
}

pub proof fn lemma_token_count_push(a: Seq<SpecToken>, token: SpecToken)
    ensures
        token_count(a.push(token)) == token_count(a) + 1 + match token {
            SpecToken::Loop(body) => token_count(body),
            SpecToken::If(_, body) => token_count(body),
            _ => 0,
        },
{
    assert(a.push(token).drop_last() =~= a);
}

proof fn lemma_well_formed_push(a: Seq<SpecToken>, token: SpecToken)
    requires
        well_formed(a),
        match token {
            SpecToken::Loop(body) => well_formed(body),
            SpecToken::If(_, body) => forall|j: int|
                0 <= j < body.len() ==> is_guarded_token(#[trigger] body[j]),
            _ => true,
        },
    ensures
        well_formed(a.push(token)),
{
    assert(a.push(token).drop_last() =~= a);
}

/// The multiply-copies of the pending adds are as many as the adds of
/// other cells than the current one.
proof fn lemma_mul_copies(adds: Seq<(i32, i32)>)
    ensures
        mul_copies(adds).len() <= adds.len(),
        forall|i: int| 0 <= i < mul_copies(adds).len() ==> (#[trigger] mul_copies(adds)[i])
            is MulCopy,
        (exists|i: int| 0 <= i < adds.len() && (#[trigger] adds[i]).0 == 0) ==> mul_copies(
            adds,
        ).len() < adds.len(),
    decreases adds.len(),
{
    if adds.len() > 0 {
        lemma_mul_copies(adds.drop_last());
        if exists|i: int| 0 <= i < adds.len() && (#[trigger] adds[i]).0 == 0 {
            let i = choose|i: int| 0 <= i < adds.len() && (#[trigger] adds[i]).0 == 0;
            if i < adds.len() - 1 {
                assert(adds.drop_last()[i].0 == 0);
            }
        }
    }
}

/// What a state weighs: its committed tokens, its pending sets and adds,
/// and its deferred shift.
pub open spec fn state_weight(s: SpecState) -> nat {
    token_count(s.tokens) + s.sets.len() + s.adds.len() + if s.shift != 0 {
        1nat
    } else {
        0nat
    }
}

/// What a pass weighs: its state and its deferred output.
pub open spec fn pass_weight(p: SpecPass) -> nat {
    state_weight(p.state) + if p.output_pending {
        1nat
    } else {
        0nat
    }
}

proof fn lemma_adds_sets_applied(s: SpecState)
    ensures
        state_weight(adds_sets_applied(s)) == state_weight(s),
        well_formed(s.tokens) ==> well_formed(adds_sets_applied(s).tokens),
{
    lemma_flat(set_tokens(s.sets));
    lemma_flat(add_tokens(s.adds));
    lemma_token_count_concat(s.tokens, set_tokens(s.sets));
    lemma_token_count_concat(s.tokens + set_tokens(s.sets), add_tokens(s.adds));
    if well_formed(s.tokens) {
        lemma_well_formed_concat(s.tokens, set_tokens(s.sets));
        lemma_well_formed_concat(s.tokens + set_tokens(s.sets), add_tokens(s.adds));
    }
}

proof fn lemma_shift_applied(s: SpecState)
    ensures
        state_weight(shift_applied(s)) == state_weight(s),
        well_formed(s.tokens) ==> well_formed(shift_applied(s).tokens),
{
    if s.shift != 0 {
        lemma_token_count_push(s.tokens, SpecToken::Move(s.shift));
        if well_formed(s.tokens) {
            lemma_well_formed_push(s.tokens, SpecToken::Move(s.shift));
        }
    }
}

proof fn lemma_output_flushed(p: SpecPass)
    ensures
        pass_weight(output_flushed(p)) == pass_weight(p),
        !output_flushed(p).output_pending,
        well_formed(p.state.tokens) ==> well_formed(output_flushed(p).state.tokens),
{
    if p.output_pending {
        lemma_token_count_push(p.state.tokens, SpecToken::Output);
        if well_formed(p.state.tokens) {
            lemma_well_formed_push(p.state.tokens, SpecToken::Output);
        }
    }
}

proof fn lemma_prepared(p: SpecPass, token: SpecToken)
    ensures
        pass_weight(prepared(p, token)) == pass_weight(p),
        well_formed(p.state.tokens) ==> well_formed(prepared(p, token).state.tokens),
{
    lemma_output_flushed(p);
    lemma_adds_sets_applied(output_flushed(p).state);
    let p1 = if is_plain(token) {
        p
    } else {
        SpecPass { state: adds_sets_applied(output_flushed(p).state), output_pending: false }
    };
    lemma_shift_applied(p1.state);
}

proof fn lemma_with_add(s: SpecState, offset: i32, value: i32)
    ensures
        state_weight(with_add(s, offset, value)) <= state_weight(s) + 1,
        with_add(s, offset, value).tokens == s.tokens,
{
    match lookup(s.sets, offset) {
        Some(set) => {
            lemma_with_entry_len(s.sets, offset, set.wrapping_add(value));
        },
        None => {
            let sum = match lookup(s.adds, offset) {
                Some(v) => v.wrapping_add(value),
                None => value,
            };
            lemma_with_entry_len(s.adds, offset, sum);
            lemma_without_key_len(s.adds, offset);
        },
    }
}

proof fn lemma_with_set(s: SpecState, offset: i32, value: i32)
    ensures
        state_weight(with_set(s, offset, value)) <= state_weight(s) + 1,
        with_set(s, offset, value).tokens == s.tokens,
{
    lemma_with_entry_len(s.sets, offset, value);
    lemma_without_key_len(s.adds, offset);
}

proof fn lemma_pushed(s: SpecState, token: SpecToken)
    requires
        is_flat(token),
    ensures
        state_weight(pushed(s, token)) == state_weight(s) + 1,
        well_formed(s.tokens) ==> well_formed(pushed(s, token).tokens),
{
    lemma_token_count_push(s.tokens, token);
    if well_formed(s.tokens) {
        lemma_well_formed_push(s.tokens, token);
    }
}

proof fn lemma_with_mul_copy(s: SpecState, src: i32, dest: i32, mul: i32)
    ensures
        state_weight(with_mul_copy(s, src, dest, mul)) <= state_weight(s) + 1,
        well_formed(s.tokens) ==> well_formed(with_mul_copy(s, src, dest, mul).tokens),
{
    match lookup(s.sets, src) {
        Some(value) => {
            lemma_with_add(s, dest, value.wrapping_mul(mul));
        },
        None => {
            lemma_adds_sets_applied(s);
            let s1 = if has_key(s.sets, dest) || has_key(s.adds, src) || has_key(s.adds, dest) {
                adds_sets_applied(s)
            } else {
                s
            };
            lemma_pushed(s1, SpecToken::MulCopy(src, dest, mul));
        },
    }
}

proof fn lemma_shifted_body(body: Seq<SpecToken>, shift: i32)
    requires
        forall|j: int| 0 <= j < body.len() ==> is_guarded_token(#[trigger] body[j]),
    ensures
        forall|j: int|
            0 <= j < shifted_body(body, shift).len() ==> is_guarded_token(
                #[trigger] shifted_body(body, shift)[j],
            ),
        token_count(shifted_body(body, shift)) == token_count(body),
{
    let moved = shifted_body(body, shift);
    assert forall|j: int| 0 <= j < moved.len() implies is_guarded_token(#[trigger] moved[j]) by {
        assert(is_guarded_token(body[j]));
    }
    assert forall|j: int| 0 <= j < moved.len() implies is_flat(#[trigger] moved[j]) by {
        assert(is_guarded_token(moved[j]));
    }
    assert forall|j: int| 0 <= j < body.len() implies is_flat(#[trigger] body[j]) by {
        assert(is_guarded_token(body[j]));
    }
    lemma_flat(moved);
    lemma_flat(body);
}

/// A loop adds to the enclosing state no more than its body weighs after the
/// pass, and one.
proof fn lemma_with_loop(outer: SpecState, inner: SpecState)
    ensures
        state_weight(with_loop(outer, inner)) <= state_weight(outer) + state_weight(inner) + 1,
        well_formed(outer.tokens) && well_formed(inner.tokens) ==> well_formed(
            with_loop(outer, inner).tokens,
        ),
{
    let sets = set_tokens(inner.sets);
    lemma_flat(sets);
    if is_scan(inner) {
        lemma_pushed(outer, SpecToken::Scan(inner.shift));
    } else if is_clear(inner) {
        if inner.sets.len() != 0 {
            let body = sets.push(SpecToken::Assign(0, 0));
            let token = SpecToken::If(0, body);
            lemma_token_count_push(sets, SpecToken::Assign(0, 0));
            lemma_token_count_push(outer.tokens, token);
            if well_formed(outer.tokens) {
                lemma_well_formed_push(outer.tokens, token);
            }
        } else {
            lemma_with_set(outer, 0, 0);
        }
    } else if is_mul_copy(inner) {
        let copies = mul_copies(inner.adds);
        lemma_mul_copies(inner.adds);
        lemma_rank_from(inner.adds, 0, 0);
        assert(inner.adds[rank(inner.adds, 0)].0 == 0);
        assert forall|j: int| 0 <= j < copies.len() implies is_flat(#[trigger] copies[j]) by {
            assert(copies[j] is MulCopy);
        }
        lemma_flat(copies);
        let o1 = if inner.sets.len() != 0 {
            pushed(outer, SpecToken::If(0, sets + copies))
        } else {
            SpecState { tokens: outer.tokens + copies, ..outer }
        };
        if inner.sets.len() != 0 {
            let token = SpecToken::If(0, sets + copies);
            lemma_token_count_concat(sets, copies);
            lemma_token_count_push(outer.tokens, token);
            if well_formed(outer.tokens) {
                assert forall|j: int| 0 <= j < (sets + copies).len() implies is_guarded_token(
                    #[trigger] (sets + copies)[j],
                ) by {
                    if j >= sets.len() {
                        assert(copies[j - sets.len()] is MulCopy);
                    }
                }
                lemma_well_formed_push(outer.tokens, token);
            }
        } else {
            lemma_token_count_concat(outer.tokens, copies);
            if well_formed(outer.tokens) {
                lemma_well_formed_concat(outer.tokens, copies);
            }
        }
        lemma_with_set(o1, 0, 0);
    } else {
        lemma_adds_sets_applied(inner);
        lemma_shift_applied(adds_sets_applied(inner));
        let body = shift_applied(adds_sets_applied(inner)).tokens;
        lemma_token_count_push(outer.tokens, SpecToken::Loop(body));
        if well_formed(outer.tokens) && well_formed(inner.tokens) {
            lemma_well_formed_push(outer.tokens, SpecToken::Loop(body));
        }
    }
}

/// The pass over a well-formed sequence weighs no more than the sequence
/// has tokens, and what it has committed is well formed.
pub proof fn lemma_pass_fold(tokens: Seq<SpecToken>)
    requires
        well_formed(tokens),
    ensures
        pass_weight(pass_fold(tokens)) <= token_count(tokens),
        well_formed(pass_fold(tokens).state.tokens),
    decreases tokens, 1nat,
{
    if tokens.len() > 0 {
        lemma_pass_fold(tokens.drop_last());
        lemma_well_formed_index(tokens, tokens.len() - 1);
        lemma_pass_token(pass_fold(tokens.drop_last()), tokens.last());
    }
}

/// One token adds to the weight of the pass no more than it counts tokens.
pub proof fn lemma_pass_token(p: SpecPass, token: SpecToken)
    requires
        well_formed(p.state.tokens),
        match token {
            SpecToken::Loop(body) => well_formed(body),
            SpecToken::If(_, body) => forall|j: int|
                0 <= j < body.len() ==> is_guarded_token(#[trigger] body[j]),
            _ => true,
        },
    ensures
        pass_weight(pass_token(p, token)) <= pass_weight(p) + 1 + match token {
            SpecToken::Loop(body) => token_count(body),
            SpecToken::If(_, body) => token_count(body),
            _ => 0,
        },
        well_formed(pass_token(p, token).state.tokens),
    decreases token, 0nat,
{
    lemma_prepared(p, token);
    let q = prepared(p, token);
    let s = q.state;
    match token {
        SpecToken::Assign(o, v) => {
            lemma_with_set(s, o.wrapping_add(s.shift), v);
        },
        SpecToken::Add(o, v) => {
            lemma_with_add(s, o.wrapping_add(s.shift), v);
        },
        SpecToken::MulCopy(src, dest, mul) => {
            lemma_with_mul_copy(s, src.wrapping_add(s.shift), dest.wrapping_add(s.shift), mul);
        },
        SpecToken::If(o, body) => {
            lemma_shifted_body(body, s.shift);
            let moved = SpecToken::If(o.wrapping_add(s.shift), shifted_body(body, s.shift));
            lemma_token_count_push(s.tokens, moved);
            lemma_well_formed_push(s.tokens, moved);
        },
        SpecToken::Move(k) => {},
        SpecToken::Output => {},
        SpecToken::LoadOut(o, a) => {
            lemma_pushed(s, load_out_token(s, o.wrapping_add(s.shift), a));
        },
        SpecToken::Loop(body) => {
            lemma_pass_block(body);
            lemma_with_loop(s, pass_block(body));
        },
        SpecToken::LoadOutSet(v) => {
            lemma_pushed(s, SpecToken::LoadOutSet(v));
        },
        SpecToken::Input => {
            lemma_pushed(s, SpecToken::Input);
        },
        SpecToken::Scan(k) => {
            lemma_pushed(s, SpecToken::Scan(k.wrapping_add(s.shift)));
        },
    }
}

/// What the pass leaves of a well-formed block weighs no more than the
/// block has tokens, and is well formed.
pub proof fn lemma_pass_block(tokens: Seq<SpecToken>)
    requires
        well_formed(tokens),
    ensures
        state_weight(pass_block(tokens)) <= token_count(tokens),
        well_formed(pass_block(tokens).tokens),
    decreases tokens, 2nat,
{
    lemma_pass_fold(tokens);
    lemma_output_flushed(pass_fold(tokens));
}

/// One pass keeps the tokens well formed and does not add to their number.
pub proof fn lemma_pass_tokens(tokens: Seq<SpecToken>)
    requires
        well_formed(tokens),
    ensures
        well_formed(pass_tokens(tokens)),
        token_count(pass_tokens(tokens)) <= token_count(tokens),
{
    lemma_pass_block(tokens);
}

/// Repeated passes keep the tokens well formed and do not add to their
/// number.
pub proof fn lemma_settled(previous: Seq<SpecToken>, current: Seq<SpecToken>, rounds: nat)
    requires
        well_formed(current),
    ensures
        well_formed(settled(previous, current, rounds)),
        token_count(settled(previous, current, rounds)) <= token_count(current),
    decreases rounds,
{
    if rounds != 0 && current != previous {
        lemma_pass_tokens(current);
        lemma_settled(current, pass_tokens(current), (rounds - 1) as nat);
    }
}

/// The optimized form of a well-formed sequence is well formed and has no
/// more tokens than the sequence.
pub proof fn lemma_optimized(tokens: Seq<SpecToken>)
    requires
        well_formed(tokens),
    ensures
        well_formed(optimized(tokens)),
        token_count(optimized(tokens)) <= token_count(tokens),
{
    lemma_pass_tokens(tokens);
    lemma_pass_tokens(pass_tokens(tokens));
    lemma_settled(pass_tokens(tokens), pass_tokens(pass_tokens(tokens)), token_count(tokens));
}

/// The number of passes that the repetition makes: one for each round
/// before which the last pass has changed the tokens.
pub open spec fn passes_made(previous: Seq<SpecToken>, current: Seq<SpecToken>, rounds: nat) -> nat
    decreases rounds,
{
    if rounds == 0 || current == previous {
        0
    } else {
        1 + passes_made(current, pass_tokens(current), (rounds - 1) as nat)
    }
}

/// The repetition comes to an end: it makes no more passes than rounds are
/// allowed, and the optimizer allows as many rounds as the sequence has
/// tokens.
pub proof fn lemma_passes_bounded(
    previous: Seq<SpecToken>,
    current: Seq<SpecToken>,
    rounds: nat,
)
    ensures
        passes_made(previous, current, rounds) <= rounds,
    decreases rounds,
{
    if rounds != 0 && current != previous {
        lemma_passes_bounded(current, pass_tokens(current), (rounds - 1) as nat);
    }
}

} // verus!
