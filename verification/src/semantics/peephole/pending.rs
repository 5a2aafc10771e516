//! Token sequences without blocks, and what pending sets and adds come to
//! when they are committed.

use vstd::arithmetic::div_mod::lemma_mod_bound;
use vstd::prelude::*;
use crate::offset_map::{
    ascending, lemma_lookup_with_entry, lemma_with_entry_push, lookup,
};
use crate::optimizer::peephole::optimize_state::{add_tokens, set_tokens};
use crate::optimizer::peephole::token::SpecToken;
use crate::semantics::gathering::lemma_wrapping;
use crate::semantics::peephole::tokens::{
    apply, cell_is_zero, tsem, tsem_loop, tsem_scan, tsem_token, TokenState,
};

verus! {

/// Whether the cell at an address is there and holds a value of the cell
/// type.
pub open spec fn tcell_sound(s: TokenState, a: i32, modulus: int) -> bool {
    s.tape.dom().contains(a) && 0 <= s.tape[a] < modulus
}

/// Whether every address has a cell, and every cell holds a value of the
/// cell type.
pub open spec fn tsound(s: TokenState, modulus: int) -> bool {
    forall|a: i32| tcell_sound(s, a, modulus)
}

/// Whether a token has no body and moves the cursor by no test.
pub open spec fn is_flat(token: SpecToken) -> bool {
    !(token is Loop) && !(token is If) && !(token is Scan)
}

/// Whether every token of a sequence is flat.
pub open spec fn all_flat(tokens: Seq<SpecToken>) -> bool {
    forall|i: int| 0 <= i < tokens.len() ==> is_flat(#[trigger] tokens[i])
}

/// The state after a sequence of flat tokens.
pub open spec fn apply_all(tokens: Seq<SpecToken>, s: TokenState, modulus: int) -> TokenState
    decreases tokens.len(),
{
    if tokens.len() == 0 {
        s
    } else {
        apply(tokens.last(), apply_all(tokens.drop_last(), s, modulus), modulus)
    }
}

/// A flat token keeps a state sound.
pub proof fn lemma_apply_sound(token: SpecToken, s: TokenState, modulus: int)
    requires
        modulus > 0,
        tsound(s, modulus),
    ensures
        tsound(apply(token, s, modulus), modulus),
{
    let after = apply(token, s, modulus);
    assert forall|a: i32| tcell_sound(after, a, modulus) by {
        assert(tcell_sound(s, a, modulus));
        match token {
            SpecToken::Add(o, v) => {
                lemma_mod_bound(s.tape[s.cursor.wrapping_add(o)] + v, modulus);
            },
            SpecToken::Assign(o, v) => {
                lemma_mod_bound(v as int, modulus);
            },
            SpecToken::MulCopy(src, dest, mul) => {
                lemma_mod_bound(
                    s.tape[s.cursor.wrapping_add(dest)] + (s.tape[s.cursor.wrapping_add(src)]
                        * mul) % modulus,
                    modulus,
                );
            },
            SpecToken::Input => {
                if s.input.len() >= 1 {
                    lemma_mod_bound(s.input[0] as int, modulus);
                } else {
                    lemma_mod_bound(s.inbuf, modulus);
                }
            },
            _ => {},
        }
    }
}

/// Flat tokens keep a state sound.
pub proof fn lemma_apply_all_sound(tokens: Seq<SpecToken>, s: TokenState, modulus: int)
    requires
        modulus > 0,
        tsound(s, modulus),
    ensures
        tsound(apply_all(tokens, s, modulus), modulus),
    decreases tokens.len(),
{
    if tokens.len() > 0 {
        lemma_apply_all_sound(tokens.drop_last(), s, modulus);
        lemma_apply_sound(tokens.last(), apply_all(tokens.drop_last(), s, modulus), modulus);
    }
}

/// A sequence of flat tokens ends with any fuel.
pub proof fn lemma_tsem_flat(tokens: Seq<SpecToken>, s: TokenState, modulus: int, fuel: nat)
    requires
        all_flat(tokens),
    ensures
        tsem(tokens, s, modulus, fuel) == Some(apply_all(tokens, s, modulus)),
    decreases tokens.len(),
{
    if tokens.len() > 0 {
        assert(is_flat(tokens[tokens.len() - 1]));
        assert forall|i: int| 0 <= i < tokens.drop_last().len() implies is_flat(
            #[trigger] tokens.drop_last()[i],
        ) by {
            assert(is_flat(tokens[i]));
        }
        lemma_tsem_flat(tokens.drop_last(), s, modulus, fuel);
        let s1 = apply_all(tokens.drop_last(), s, modulus);
        assert(tsem_token(tokens.last(), s1, modulus, fuel) == Some(
            apply(tokens.last(), s1, modulus),
        ));
    }
}

/// Two sequences of flat tokens, one after the other.
pub proof fn lemma_apply_all_concat(
    a: Seq<SpecToken>,
    b: Seq<SpecToken>,
    s: TokenState,
    modulus: int,
)
    ensures
        apply_all(a + b, s, modulus) == apply_all(b, apply_all(a, s, modulus), modulus),
    decreases b.len(),
{
    if b.len() == 0 {
        assert(a + b =~= a);
    } else {
        lemma_apply_all_concat(a, b.drop_last(), s, modulus);
        assert((a + b).drop_last() =~= a + b.drop_last());
        assert((a + b).last() == b.last());
    }
}

/// A sequence of one flat token.
pub proof fn lemma_apply_all_one(token: SpecToken, s: TokenState, modulus: int)
    ensures
        apply_all(seq![token], s, modulus) == apply(token, s, modulus),
{
    let one = seq![token];
    assert(one.drop_last() =~= Seq::<SpecToken>::empty());
    assert(apply_all(one.drop_last(), s, modulus) == s);
}

/// A token sequence that ends keeps a state sound.
pub proof fn lemma_tsem_sound(tokens: Seq<SpecToken>, s: TokenState, modulus: int, fuel: nat)
    requires
        modulus > 0,
        tsound(s, modulus),
        tsem(tokens, s, modulus, fuel) is Some,
    ensures
        tsound(tsem(tokens, s, modulus, fuel)->Some_0, modulus),
    decreases fuel, tokens, 2nat,
{
    if tokens.len() > 0 {
        lemma_tsem_sound(tokens.drop_last(), s, modulus, fuel);
        let s1 = tsem(tokens.drop_last(), s, modulus, fuel)->Some_0;
        lemma_tsem_token_sound(tokens.last(), s1, modulus, fuel);
    }
}

pub proof fn lemma_tsem_token_sound(token: SpecToken, s: TokenState, modulus: int, fuel: nat)
    requires
        modulus > 0,
        tsound(s, modulus),
        tsem_token(token, s, modulus, fuel) is Some,
    ensures
        tsound(tsem_token(token, s, modulus, fuel)->Some_0, modulus),
    decreases fuel, token, 1nat,
{
    match token {
        SpecToken::Loop(body) => {
            lemma_tsem_loop_sound(body, s, modulus, fuel);
        },
        SpecToken::Scan(k) => {
            lemma_tsem_scan_sound(k, s, modulus, fuel);
        },
        SpecToken::If(o, body) => {
            if !cell_is_zero(s, o, modulus) {
                lemma_tsem_sound(body, s, modulus, fuel);
            }
        },
        _ => {
            lemma_apply_sound(token, s, modulus);
        },
    }
}

pub proof fn lemma_tsem_scan_sound(k: i32, s: TokenState, modulus: int, fuel: nat)
    requires
        modulus > 0,
        tsound(s, modulus),
        tsem_scan(k, s, modulus, fuel) is Some,
    ensures
        tsound(tsem_scan(k, s, modulus, fuel)->Some_0, modulus),
    decreases fuel,
{
    if !cell_is_zero(s, 0, modulus) {
        let s1 = TokenState { cursor: s.cursor.wrapping_add(k), ..s };
        assert forall|a: i32| tcell_sound(s1, a, modulus) by {
            assert(tcell_sound(s, a, modulus));
        }
        lemma_tsem_scan_sound(k, s1, modulus, (fuel - 1) as nat);
    }
}

pub proof fn lemma_tsem_loop_sound(body: Seq<SpecToken>, s: TokenState, modulus: int, fuel: nat)
    requires
        modulus > 0,
        tsound(s, modulus),
        tsem_loop(body, s, modulus, fuel) is Some,
    ensures
        tsound(tsem_loop(body, s, modulus, fuel)->Some_0, modulus),
    decreases fuel, body, 0nat,
{
    if !cell_is_zero(s, 0, modulus) {
        lemma_tsem_sound(body, s, modulus, (fuel - 1) as nat);
        let s1 = tsem(body, s, modulus, (fuel - 1) as nat)->Some_0;
        lemma_tsem_loop_sound(body, s1, modulus, (fuel - 1) as nat);
    }
}

/// What a cell comes to when the pending sets and adds are committed: the
/// value of a pending set of its offset `k`; else the value `under` that
/// it has, with a pending add of its offset added.
pub open spec fn due(
    sets: Seq<(i32, i32)>,
    adds: Seq<(i32, i32)>,
    k: i32,
    under: int,
    modulus: int,
) -> int {
    match lookup(sets, k) {
        Some(v) => (v as int) % modulus,
        None => match lookup(adds, k) {
            Some(v) => (under + v) % modulus,
            None => under,
        },
    }
}

/// Whether a state differs from another in its tape alone.
pub open spec fn same_but_tape(a: TokenState, b: TokenState) -> bool {
    a == (TokenState { tape: a.tape, ..b })
}

/// The state after the first `j` of the pending sets are committed: each
/// cell that one of them sets has its value.
pub proof fn lemma_sets_applied(x: TokenState, sets: Seq<(i32, i32)>, j: int, modulus: int)
    requires
        modulus > 0,
        tsound(x, modulus),
        ascending(sets),
        0 <= j <= sets.len(),
    ensures
        ({
            let part = sets.subrange(0, j);
            let xj = apply_all(set_tokens(part), x, modulus);
            &&& same_but_tape(xj, x)
            &&& tsound(xj, modulus)
            &&& ascending(part)
            &&& forall|a: i32|
                #[trigger] xj.tape[a] == due(
                    part,
                    Seq::empty(),
                    a.wrapping_sub(x.cursor),
                    x.tape[a],
                    modulus,
                )
        }),
    decreases j,
{
    let part = sets.subrange(0, j);
    let none = Seq::<(i32, i32)>::empty();
    assert forall|i: int, k: int| 0 <= i < k < part.len() implies (#[trigger] part[i]).0 < (
    #[trigger] part[k]).0 by {
        assert(part[i] == sets[i] && part[k] == sets[k]);
    }
    if j == 0 {
        assert(set_tokens(part) =~= Seq::<SpecToken>::empty());
    } else {
        let before = sets.subrange(0, j - 1);
        let (o, v) = sets[j - 1];
        lemma_sets_applied(x, sets, j - 1, modulus);
        let x0 = apply_all(set_tokens(before), x, modulus);
        assert(part =~= before.push((o, v)));
        lemma_with_entry_push(before, o, v);
        let token = SpecToken::Assign(o, v);
        assert(set_tokens(part).drop_last() =~= set_tokens(before));
        assert(set_tokens(part).last() == token);
        let xj = apply_all(set_tokens(part), x, modulus);
        assert(xj == apply(token, x0, modulus));
        lemma_apply_sound(token, x0, modulus);
        assert forall|a: i32|
            #[trigger] xj.tape[a] == due(
                part,
                none,
                a.wrapping_sub(x.cursor),
                x.tape[a],
                modulus,
            ) by {
            lemma_lookup_with_entry(before, o, v, a.wrapping_sub(x.cursor));
            lemma_wrapping(x.cursor, o, 0, a);
            assert(x0.tape[a] == due(before, none, a.wrapping_sub(x.cursor), x.tape[a], modulus));
        }
    }
}

/// The state after the first `j` of the pending adds are committed: each
/// cell that one of them adds to has taken it.
pub proof fn lemma_adds_applied(x: TokenState, adds: Seq<(i32, i32)>, j: int, modulus: int)
    requires
        modulus > 0,
        tsound(x, modulus),
        ascending(adds),
        0 <= j <= adds.len(),
    ensures
        ({
            let part = adds.subrange(0, j);
            let xj = apply_all(add_tokens(part), x, modulus);
            &&& same_but_tape(xj, x)
            &&& tsound(xj, modulus)
            &&& ascending(part)
            &&& forall|a: i32|
                #[trigger] xj.tape[a] == due(
                    Seq::empty(),
                    part,
                    a.wrapping_sub(x.cursor),
                    x.tape[a],
                    modulus,
                )
        }),
    decreases j,
{
    let part = adds.subrange(0, j);
    let none = Seq::<(i32, i32)>::empty();
    assert forall|i: int, k: int| 0 <= i < k < part.len() implies (#[trigger] part[i]).0 < (
    #[trigger] part[k]).0 by {
        assert(part[i] == adds[i] && part[k] == adds[k]);
    }
    if j == 0 {
        assert(add_tokens(part) =~= Seq::<SpecToken>::empty());
    } else {
        let before = adds.subrange(0, j - 1);
        let (o, v) = adds[j - 1];
        lemma_adds_applied(x, adds, j - 1, modulus);
        let x0 = apply_all(add_tokens(before), x, modulus);
        assert(part =~= before.push((o, v)));
        lemma_with_entry_push(before, o, v);
        let token = SpecToken::Add(o, v);
        assert(add_tokens(part).drop_last() =~= add_tokens(before));
        assert(add_tokens(part).last() == token);
        let xj = apply_all(add_tokens(part), x, modulus);
        assert(xj == apply(token, x0, modulus));
        lemma_apply_sound(token, x0, modulus);
        assert forall|a: i32|
            #[trigger] xj.tape[a] == due(
                none,
                part,
                a.wrapping_sub(x.cursor),
                x.tape[a],
                modulus,
            ) by {
            lemma_lookup_with_entry(before, o, v, a.wrapping_sub(x.cursor));
            lemma_wrapping(x.cursor, o, 0, a);
            assert(x0.tape[a] == due(none, before, a.wrapping_sub(x.cursor), x.tape[a], modulus));
            if a == x.cursor.wrapping_add(o) {
                // Nothing was pending for this cell among the entries
                // before: their offsets are below.
                if lookup(before, o) is Some {
                    crate::offset_map::lemma_rank_from(before, o, 0);
                    let r = crate::offset_map::rank(before, o);
                    assert(part[r] == before[r]);
                    assert(part[r].0 < part[j - 1].0);
                }
            }
        }
    }
}

} // verus!
