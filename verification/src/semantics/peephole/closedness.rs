//! The peephole pass keeps a token sequence closed: in what it makes,
//! output is written before every block and every read, and at the end.

use vstd::prelude::*;
use crate::optimizer::peephole::compile::{out_pos, pos_after};
use crate::optimizer::peephole::optimize::{
    is_clear, is_mul_copy, is_plain, is_scan, load_out_token, mul_copies, needs_pointer,
    output_flushed, pass_block, pass_fold, pass_token, pass_tokens, prepared, pushed,
    shifted_body, with_loop, SpecPass,
};
use crate::optimizer::peephole::optimize_state::{
    add_tokens, adds_sets_applied, set_tokens, shift_applied,
};
use crate::optimizer::peephole::token::{is_guarded_token, well_formed, SpecToken};
use crate::semantics::peephole::lowering::{closed, inner_closed, token_closed};
use crate::semantics::peephole::rewriting::{committed_body, token_well_formed};

verus! {

/// Whether a token neither loads nor writes output, reads no input and has
/// no body.
pub open spec fn is_quiet(token: SpecToken) -> bool {
    token is Assign || token is Add || token is Move || token is MulCopy
}

/// Whether every token of a sequence is quiet.
pub open spec fn all_quiet(tokens: Seq<SpecToken>) -> bool {
    forall|i: int| 0 <= i < tokens.len() ==> is_quiet(#[trigger] tokens[i])
}

/// One more token that may stand where it is put.
pub proof fn lemma_closed_push(tokens: Seq<SpecToken>, token: SpecToken)
    requires
        inner_closed(tokens),
        token_closed(token, out_pos(tokens)),
    ensures
        inner_closed(tokens.push(token)),
        out_pos(tokens.push(token)) == pos_after(out_pos(tokens), token),
{
    assert(tokens.push(token).drop_last() =~= tokens);
    assert(tokens.push(token).last() == token);
}

/// Quiet tokens may stand anywhere, and load nothing.
pub proof fn lemma_closed_quiet(tokens: Seq<SpecToken>, extra: Seq<SpecToken>)
    requires
        inner_closed(tokens),
        all_quiet(extra),
    ensures
        inner_closed(tokens + extra),
        out_pos(tokens + extra) == out_pos(tokens),
    decreases extra.len(),
{
    if extra.len() == 0 {
        assert(tokens + extra =~= tokens);
    } else {
        let before = extra.drop_last();
        assert forall|i: int| 0 <= i < before.len() implies is_quiet(#[trigger] before[i]) by {
            assert(is_quiet(extra[i]));
        }
        lemma_closed_quiet(tokens, before);
        assert(is_quiet(extra[extra.len() - 1]));
        lemma_closed_push(tokens + before, extra.last());
        assert((tokens + before).push(extra.last()) =~= tokens + extra);
    }
}

/// The multiply-copies of pending adds are quiet.
proof fn lemma_copies_quiet(adds: Seq<(i32, i32)>)
    ensures
        all_quiet(mul_copies(adds)),
    decreases adds.len(),
{
    if adds.len() > 0 {
        lemma_copies_quiet(adds.drop_last());
        let before = mul_copies(adds.drop_last());
        assert forall|i: int| 0 <= i < mul_copies(adds).len() implies is_quiet(
            #[trigger] mul_copies(adds)[i],
        ) by {
            if i < before.len() {
                assert(mul_copies(adds)[i] == before[i]);
            }
        }
    }
}

/// A sequence of quiet tokens is closed.
proof fn lemma_quiet_closed(body: Seq<SpecToken>)
    requires
        all_quiet(body),
    ensures
        closed(body),
{
    let none = Seq::<SpecToken>::empty();
    lemma_closed_quiet(none, body);
    assert(none + body =~= body);
}

/// Whether the pass has kept up with a sequence with `pos` bytes loaded at
/// its end: in what it has committed, output is written in time, and as
/// many bytes are loaded, unless an output is deferred.
pub open spec fn keeps_up(p: SpecPass, pos: nat) -> bool {
    inner_closed(p.state.tokens) && (p.output_pending || out_pos(p.state.tokens) == pos)
}

/// Committing the pending sets and adds keeps the pass up.
proof fn lemma_committed_keeps_up(p: SpecPass, pos: nat)
    requires
        keeps_up(p, pos),
    ensures
        keeps_up(SpecPass { state: adds_sets_applied(p.state), ..p }, pos),
{
    let s = p.state;
    let extra = set_tokens(s.sets) + add_tokens(s.adds);
    assert(s.tokens + set_tokens(s.sets) + add_tokens(s.adds) =~= s.tokens + extra);
    assert forall|i: int| 0 <= i < extra.len() implies is_quiet(#[trigger] extra[i]) by {
        if i < set_tokens(s.sets).len() {
            assert(extra[i] == set_tokens(s.sets)[i]);
        } else {
            assert(extra[i] == add_tokens(s.adds)[i - set_tokens(s.sets).len()]);
        }
    }
    lemma_closed_quiet(s.tokens, extra);
}

/// Committing the deferred shift keeps the pass up.
proof fn lemma_shifted_keeps_up(p: SpecPass, pos: nat)
    requires
        keeps_up(p, pos),
    ensures
        keeps_up(SpecPass { state: shift_applied(p.state), ..p }, pos),
{
    if p.state.shift != 0 {
        lemma_closed_push(p.state.tokens, SpecToken::Move(p.state.shift));
    }
}

/// With a deferred output committed, nothing is loaded.
proof fn lemma_flushed_keeps_up(p: SpecPass)
    requires
        keeps_up(p, 0),
    ensures
        keeps_up(output_flushed(p), 0),
        !output_flushed(p).output_pending,
{
    if p.output_pending {
        lemma_closed_push(p.state.tokens, SpecToken::Output);
    }
}

/// Made ready for a token that may stand where it is, the pass has kept
/// up; before a token that is not plain nothing is loaded.
proof fn lemma_prepared_keeps_up(p: SpecPass, token: SpecToken, pos: nat)
    requires
        keeps_up(p, pos),
        token_closed(token, pos),
    ensures
        keeps_up(prepared(p, token), pos),
        !is_plain(token) ==> !prepared(p, token).output_pending && pos == 0,
{
    if !is_plain(token) {
        lemma_flushed_keeps_up(p);
        let p1 = output_flushed(p);
        lemma_committed_keeps_up(p1, 0);
        let p2 = SpecPass { state: adds_sets_applied(p1.state), output_pending: false };
        if needs_pointer(token) {
            lemma_shifted_keeps_up(p2, 0);
        }
    }
}

/// After one more token the pass has kept up.
pub proof fn lemma_token_keeps_up(p: SpecPass, token: SpecToken, pos: nat)
    requires
        keeps_up(p, pos),
        token_closed(token, pos),
        token_well_formed(token),
    ensures
        keeps_up(pass_token(p, token), pos_after(pos, token)),
    decreases token, 0nat,
{
    lemma_prepared_keeps_up(p, token, pos);
    let q = prepared(p, token);
    let s = q.state;
    match token {
        SpecToken::MulCopy(src, dest, mul) => {
            let ks = src.wrapping_add(s.shift);
            let kd = dest.wrapping_add(s.shift);
            if crate::offset_map::lookup(s.sets, ks) is None {
                let pushed = SpecToken::MulCopy(ks, kd, mul);
                lemma_committed_keeps_up(q, pos);
                lemma_closed_push(s.tokens, pushed);
                lemma_closed_push(adds_sets_applied(s).tokens, pushed);
            }
        },
        SpecToken::If(off, body) => {
            let moved = shifted_body(body, s.shift);
            assert forall|i: int| 0 <= i < moved.len() implies is_quiet(#[trigger] moved[i]) by {
                assert(is_guarded_token(body[i]));
            }
            lemma_quiet_closed(moved);
            lemma_closed_push(s.tokens, SpecToken::If(off.wrapping_add(s.shift), moved));
        },
        SpecToken::LoadOut(off, add) => {
            lemma_closed_push(s.tokens, load_out_token(s, off.wrapping_add(s.shift), add));
        },
        SpecToken::Loop(body) => {
            lemma_loop_keeps_up(q, body);
        },
        SpecToken::LoadOutSet(v) => {
            lemma_closed_push(s.tokens, token);
        },
        SpecToken::Input => {
            lemma_closed_push(s.tokens, token);
        },
        SpecToken::Scan(k) => {
            lemma_closed_push(s.tokens, SpecToken::Scan(k.wrapping_add(s.shift)));
        },
        _ => {},
    }
}

/// After a loop the pass has kept up.
pub proof fn lemma_loop_keeps_up(q: SpecPass, body: Seq<SpecToken>)
    requires
        keeps_up(q, 0),
        !q.output_pending,
        closed(body),
        well_formed(body),
    ensures
        keeps_up(SpecPass { state: with_loop(q.state, pass_block(body)), ..q }, 0),
    decreases body, 3nat,
{
    let inner = pass_block(body);
    let s = q.state;
    let sets = set_tokens(inner.sets);
    assert forall|i: int| 0 <= i < sets.len() implies is_quiet(#[trigger] sets[i]) by {}
    if is_scan(inner) {
        lemma_closed_push(s.tokens, SpecToken::Scan(inner.shift));
    } else if is_clear(inner) {
        if inner.sets.len() != 0 {
            let guarded = sets.push(SpecToken::Assign(0, 0));
            assert forall|i: int| 0 <= i < guarded.len() implies is_quiet(
                #[trigger] guarded[i],
            ) by {
                if i < sets.len() {
                    assert(guarded[i] == sets[i]);
                }
            }
            lemma_quiet_closed(guarded);
            lemma_closed_push(s.tokens, SpecToken::If(0, guarded));
        }
    } else if is_mul_copy(inner) {
        let copies = mul_copies(inner.adds);
        lemma_copies_quiet(inner.adds);
        if inner.sets.len() != 0 {
            let guarded = sets + copies;
            assert forall|i: int| 0 <= i < guarded.len() implies is_quiet(
                #[trigger] guarded[i],
            ) by {
                if i < sets.len() {
                    assert(guarded[i] == sets[i]);
                } else {
                    assert(guarded[i] == copies[i - sets.len()]);
                }
            }
            lemma_quiet_closed(guarded);
            lemma_closed_push(s.tokens, SpecToken::If(0, guarded));
        } else {
            lemma_closed_quiet(s.tokens, copies);
        }
    } else {
        lemma_body_closed(body);
        lemma_closed_push(s.tokens, SpecToken::Loop(committed_body(body)));
    }
}

/// The tokens that the pass makes of a closed body are closed.
pub proof fn lemma_body_closed(body: Seq<SpecToken>)
    requires
        closed(body),
        well_formed(body),
    ensures
        closed(committed_body(body)),
    decreases body, 2nat,
{
    lemma_fold_keeps_up(body);
    let p = pass_fold(body);
    lemma_flushed_keeps_up(p);
    let p1 = output_flushed(p);
    lemma_committed_keeps_up(p1, 0);
    let p2 = SpecPass { state: adds_sets_applied(p1.state), ..p1 };
    lemma_shifted_keeps_up(p2, 0);
}

/// After a sequence in which output is written in time, the pass has kept
/// up.
pub proof fn lemma_fold_keeps_up(tokens: Seq<SpecToken>)
    requires
        inner_closed(tokens),
        well_formed(tokens),
    ensures
        keeps_up(pass_fold(tokens), out_pos(tokens)),
    decreases tokens, 1nat,
{
    if tokens.len() > 0 {
        lemma_fold_keeps_up(tokens.drop_last());
        lemma_token_keeps_up(
            pass_fold(tokens.drop_last()),
            tokens.last(),
            out_pos(tokens.drop_last()),
        );
    }
}

/// One pass keeps a token sequence closed.
pub proof fn lemma_pass_closed(tokens: Seq<SpecToken>)
    requires
        closed(tokens),
        well_formed(tokens),
    ensures
        closed(pass_tokens(tokens)),
{
    lemma_fold_keeps_up(tokens);
    lemma_flushed_keeps_up(pass_fold(tokens));
}

} // verus!
