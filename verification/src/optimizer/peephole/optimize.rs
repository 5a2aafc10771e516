//! The peephole pass over the token form, and its repetition until nothing
//! changes.
//!
//! The pass walks a block and holds back what it can: the movement of the
//! data pointer, sets and adds of cells, and the writing of the output
//! buffer. Before a loop, an input or a scan the deferred shift is
//! committed; before any token but an add, a set, a move, a multiply-copy
//! or an output token the deferred output and the pending sets and adds are
//! committed. A loop is passed over first and then, by what is left of its
//! body, replaced by a scan, a clearing of the cell, or multiply-copies.

use vstd::pervasive::unreached;
use vstd::prelude::*;
use crate::offset_map::{has_key, lookup};
use crate::optimizer::peephole::measure::lemma_pass_tokens;
use crate::optimizer::peephole::optimize_state::{
    adds_sets_applied, initial_state, set_tokens, shift_applied, with_add, with_set,
    OptimizeState, SpecState,
};
use crate::optimizer::peephole::token::{
    is_guarded_token, lemma_if_token_view, lemma_loop_token_view, push_token, token_count,
    well_formed, SpecToken, Token,
};

verus! {

/// The state of the pass within a block, and whether the writing of the
/// output buffer is deferred.
pub struct SpecPass {
    pub state: SpecState,
    pub output_pending: bool,
}

/// Whether a token lets the pending sets and adds and the deferred output
/// stay pending.
pub open spec fn is_plain(token: SpecToken) -> bool {
    token is Assign || token is Add || token is Move || token is LoadOut || token is LoadOutSet
        || token is Output || token is MulCopy
}

/// Whether a token needs the data pointer in place.
pub open spec fn needs_pointer(token: SpecToken) -> bool {
    token is Loop || token is Input || token is Scan
}

/// The pass with a deferred output committed.
pub open spec fn output_flushed(p: SpecPass) -> SpecPass {
    if p.output_pending {
        SpecPass {
            state: SpecState { tokens: p.state.tokens.push(SpecToken::Output), ..p.state },
            output_pending: false,
        }
    } else {
        p
    }
}

/// The pass made ready for a token: what the token does not let stay
/// pending is committed.
pub open spec fn prepared(p: SpecPass, token: SpecToken) -> SpecPass {
    let p1 = if is_plain(token) {
        p
    } else {
        SpecPass { state: adds_sets_applied(output_flushed(p).state), output_pending: false }
    };
    if needs_pointer(token) {
        SpecPass { state: shift_applied(p1.state), ..p1 }
    } else {
        p1
    }
}

/// The state with one more committed token.
pub open spec fn pushed(s: SpecState, token: SpecToken) -> SpecState {
    SpecState { tokens: s.tokens.push(token), ..s }
}

/// A token of the body of an `If`, with its offsets moved by `shift`.
pub open spec fn shifted_guarded(token: SpecToken, shift: i32) -> SpecToken {
    match token {
        SpecToken::Assign(o, v) => SpecToken::Assign(o.wrapping_add(shift), v),
        SpecToken::MulCopy(s, d, m) => SpecToken::MulCopy(
            s.wrapping_add(shift),
            d.wrapping_add(shift),
            m,
        ),
        _ => token,
    }
}

/// The body of an `If`, with its offsets moved by `shift`.
pub open spec fn shifted_body(body: Seq<SpecToken>, shift: i32) -> Seq<SpecToken> {
    Seq::new(body.len(), |j: int| shifted_guarded(body[j], shift))
}

/// The state after a multiply-copy from `src` to `dest`: with a pending set
/// of `src` the product is known and added; else the token is committed,
/// after the pending sets and adds if they touch `src` or `dest`.
pub open spec fn with_mul_copy(s: SpecState, src: i32, dest: i32, mul: i32) -> SpecState {
    match lookup(s.sets, src) {
        Some(value) => with_add(s, dest, value.wrapping_mul(mul)),
        None => {
            let s1 = if has_key(s.sets, dest) || has_key(s.adds, src) || has_key(s.adds, dest) {
                adds_sets_applied(s)
            } else {
                s
            };
            pushed(s1, SpecToken::MulCopy(src, dest, mul))
        },
    }
}

/// The token that loads the cell at `offset` plus `add` into the output
/// buffer: a constant where a set of the cell is pending, else the cell
/// with the pending add of it added.
pub open spec fn load_out_token(s: SpecState, offset: i32, add: i32) -> SpecToken {
    match lookup(s.sets, offset) {
        Some(set) => SpecToken::LoadOutSet(set.wrapping_add(add)),
        None => SpecToken::LoadOut(
            offset,
            match lookup(s.adds, offset) {
                Some(v) => v.wrapping_add(add),
                None => add,
            },
        ),
    }
}

/// One multiply-copy from the current cell for each pending add of another
/// cell, in the order of the entries.
pub open spec fn mul_copies(adds: Seq<(i32, i32)>) -> Seq<SpecToken>
    decreases adds.len(),
{
    if adds.len() == 0 {
        Seq::empty()
    } else if adds.last().0 != 0 {
        mul_copies(adds.drop_last()).push(SpecToken::MulCopy(0, adds.last().0, adds.last().1))
    } else {
        mul_copies(adds.drop_last())
    }
}

/// Whether the body of a loop only moves the data pointer.
pub open spec fn is_scan(inner: SpecState) -> bool {
    inner.shift != 0 && inner.sets.len() == 0 && inner.adds.len() == 0 && inner.tokens.len() == 0
}

/// Whether the body of a loop, besides sets, only adds to the current cell.
pub open spec fn is_clear(inner: SpecState) -> bool {
    inner.shift == 0 && inner.tokens.len() == 0 && has_key(inner.adds, 0) && inner.adds.len() == 1
}

/// Whether the body of a loop, besides sets, takes one from the current
/// cell and adds to others.
pub open spec fn is_mul_copy(inner: SpecState) -> bool {
    inner.shift == 0 && inner.tokens.len() == 0 && lookup(inner.adds, 0) == Some(-1i32)
}

/// The state of the enclosing block after a loop whose body was left as
/// `inner` by the pass.
pub open spec fn with_loop(outer: SpecState, inner: SpecState) -> SpecState {
    if is_scan(inner) {
        pushed(outer, SpecToken::Scan(inner.shift))
    } else if is_clear(inner) {
        if inner.sets.len() != 0 {
            pushed(
                outer,
                SpecToken::If(0, set_tokens(inner.sets).push(SpecToken::Assign(0, 0))),
            )
        } else {
            with_set(outer, 0, 0)
        }
    } else if is_mul_copy(inner) {
        let copies = mul_copies(inner.adds);
        let o1 = if inner.sets.len() != 0 {
            pushed(outer, SpecToken::If(0, set_tokens(inner.sets) + copies))
        } else {
            SpecState { tokens: outer.tokens + copies, ..outer }
        };
        with_set(o1, 0, 0)
    } else {
        pushed(outer, SpecToken::Loop(shift_applied(adds_sets_applied(inner)).tokens))
    }
}

/// The pass after one more token.
pub open spec fn pass_token(p: SpecPass, token: SpecToken) -> SpecPass
    decreases token, 0nat,
{
    let q = prepared(p, token);
    let s = q.state;
    match token {
        SpecToken::Assign(o, v) => SpecPass { state: with_set(s, o.wrapping_add(s.shift), v), ..q },
        SpecToken::Add(o, v) => SpecPass { state: with_add(s, o.wrapping_add(s.shift), v), ..q },
        SpecToken::MulCopy(src, dest, mul) => SpecPass {
            state: with_mul_copy(s, src.wrapping_add(s.shift), dest.wrapping_add(s.shift), mul),
            ..q
        },
        SpecToken::If(o, body) => SpecPass {
            state: pushed(s, SpecToken::If(o.wrapping_add(s.shift), shifted_body(body, s.shift))),
            ..q
        },
        SpecToken::Move(k) => SpecPass {
            state: SpecState { shift: s.shift.wrapping_add(k), ..s },
            ..q
        },
        SpecToken::Output => SpecPass { output_pending: true, ..q },
        SpecToken::LoadOut(o, a) => SpecPass {
            state: pushed(s, load_out_token(s, o.wrapping_add(s.shift), a)),
            ..q
        },
        SpecToken::Loop(body) => SpecPass { state: with_loop(s, pass_block(body)), ..q },
        SpecToken::LoadOutSet(v) => SpecPass { state: pushed(s, SpecToken::LoadOutSet(v)), ..q },
        SpecToken::Input => SpecPass { state: pushed(s, SpecToken::Input), ..q },
        SpecToken::Scan(k) => SpecPass {
            state: pushed(s, SpecToken::Scan(k.wrapping_add(s.shift))),
            ..q
        },
    }
}

/// The pass after a sequence of tokens.
pub open spec fn pass_fold(tokens: Seq<SpecToken>) -> SpecPass
    decreases tokens, 1nat,
{
    if tokens.len() == 0 {
        SpecPass { state: initial_state(), output_pending: false }
    } else {
        pass_token(pass_fold(tokens.drop_last()), tokens.last())
    }
}

/// What the pass leaves of a block: the committed tokens, with a deferred
/// output committed at the end, and what is still pending.
pub open spec fn pass_block(tokens: Seq<SpecToken>) -> SpecState
    decreases tokens, 2nat,
{
    output_flushed(pass_fold(tokens)).state
}

/// The tokens that one pass makes of a program. What is pending at the end of
/// the program has no effect and is dropped.
pub open spec fn pass_tokens(tokens: Seq<SpecToken>) -> Seq<SpecToken> {
    pass_block(tokens).tokens
}

/// The pass repeated while it changes the tokens, at most `rounds` times:
/// `previous` is the result before the last pass and `current` the result
/// of it.
pub open spec fn settled(previous: Seq<SpecToken>, current: Seq<SpecToken>, rounds: nat) -> Seq<
    SpecToken,
>
    decreases rounds,
{
    if rounds == 0 || current == previous {
        current
    } else {
        settled(current, pass_tokens(current), (rounds - 1) as nat)
    }
}

/// The optimized form of a token sequence: the result of two passes, and of
/// further passes while the last one changed something, as many at most as
/// the sequence has tokens.
pub open spec fn optimized(tokens: Seq<SpecToken>) -> Seq<SpecToken> {
    settled(pass_tokens(tokens), pass_tokens(pass_tokens(tokens)), token_count(tokens))
}

fn is_plain_token(token: &Token) -> (b: bool)
    ensures
        b == is_plain(token.deep_view()),
{
    match token {
        Token::Assign(_, _) => true,
        Token::Add(_, _) => true,
        Token::Move(_) => true,
        Token::LoadOut(_, _) => true,
        Token::LoadOutSet(_) => true,
        Token::Output => true,
        Token::MulCopy(_, _, _) => true,
        _ => false,
    }
}

fn needs_pointer_token(token: &Token) -> (b: bool)
    ensures
        b == needs_pointer(token.deep_view()),
{
    match token {
        Token::Loop(_) => true,
        Token::Input => true,
        Token::Scan(_) => true,
        _ => false,
    }
}

/// A token at any place of a well-formed sequence is well formed.
pub proof fn lemma_well_formed_index(tokens: Seq<SpecToken>, i: int)
    requires
        well_formed(tokens),
        0 <= i < tokens.len(),
    ensures
        match tokens[i] {
            SpecToken::Loop(body) => well_formed(body),
            SpecToken::If(_, body) => forall|j: int|
                0 <= j < body.len() ==> is_guarded_token(#[trigger] body[j]),
            _ => true,
        },
    decreases tokens.len(),
{
    if i < tokens.len() - 1 {
        lemma_well_formed_index(tokens.drop_last(), i);
    }
}

/// The body of an `If` with its offsets moved by `shift`.
fn shift_body(contents: &[Token], shift: i32) -> (body: Vec<Token>)
    requires
        forall|j: int|
            0 <= j < contents.deep_view().len() ==> is_guarded_token(
                #[trigger] contents.deep_view()[j],
            ),
    ensures
        body.deep_view() == shifted_body(contents.deep_view(), shift),
{
    let mut body: Vec<Token> = Vec::new();
    let mut j: usize = 0;
    assert(body.deep_view() =~= shifted_body(contents.deep_view(), shift).subrange(0, 0));
    while j < contents.len()
        invariant
            j <= contents.len(),
            forall|j: int|
                0 <= j < contents.deep_view().len() ==> is_guarded_token(
                    #[trigger] contents.deep_view()[j],
                ),
            body.deep_view() == shifted_body(contents.deep_view(), shift).subrange(0, j as int),
        decreases contents.len() - j,
    {
        assert(is_guarded_token(contents.deep_view()[j as int]));
        assert(contents.deep_view()[j as int] == contents@[j as int].deep_view());
        let token = match &contents[j] {
            Token::Assign(offset, value) => Token::Assign(offset.wrapping_add(shift), *value),
            Token::MulCopy(src, dest, mul) => Token::MulCopy(
                src.wrapping_add(shift),
                dest.wrapping_add(shift),
                *mul,
            ),
            _ => unreached(),
        };
        push_token(&mut body, token);
        j = j + 1;
        assert(body.deep_view() =~= shifted_body(contents.deep_view(), shift).subrange(
            0,
            j as int,
        ));
    }
    assert(shifted_body(contents.deep_view(), shift).subrange(0, j as int) =~= shifted_body(
        contents.deep_view(),
        shift,
    ));
    body
}

/// Appends one `Assign` token for each entry of `state.sets`.
fn push_sets(tokens: &mut Vec<Token>, state: &OptimizeState)
    ensures
        final(tokens).deep_view() == old(tokens).deep_view() + set_tokens(state@.sets),
{
    let ghost start = tokens.deep_view();
    let mut i: usize = 0;
    assert(tokens.deep_view() =~= start + set_tokens(state@.sets).subrange(0, 0));
    while i < state.sets.len()
        invariant
            i <= state@.sets.len(),
            tokens.deep_view() == start + set_tokens(state@.sets).subrange(0, i as int),
        decreases state@.sets.len() - i,
    {
        let (offset, value) = state.sets.entry(i);
        push_token(tokens, Token::Assign(offset, value));
        i = i + 1;
        assert(tokens.deep_view() =~= start + set_tokens(state@.sets).subrange(0, i as int));
    }
    assert(set_tokens(state@.sets).subrange(0, i as int) =~= set_tokens(state@.sets));
}

/// Appends one multiply-copy for each entry of `state.adds` but that of the
/// current cell.
fn push_mul_copies(tokens: &mut Vec<Token>, state: &OptimizeState)
    ensures
        final(tokens).deep_view() == old(tokens).deep_view() + mul_copies(state@.adds),
{
    let ghost start = tokens.deep_view();
    let ghost adds = state@.adds;
    let mut i: usize = 0;
    assert(adds.subrange(0, 0) =~= Seq::<(i32, i32)>::empty());
    assert(tokens.deep_view() =~= start + mul_copies(adds.subrange(0, 0)));
    while i < state.adds.len()
        invariant
            i <= adds.len(),
            adds == state@.adds,
            tokens.deep_view() == start + mul_copies(adds.subrange(0, i as int)),
        decreases adds.len() - i,
    {
        let (offset, value) = state.adds.entry(i);
        let ghost next = adds.subrange(0, i + 1);
        assert(next.drop_last() =~= adds.subrange(0, i as int));
        assert(next.last() == (offset, value));
        if offset != 0 {
            push_token(tokens, Token::MulCopy(0, offset, value));
        }
        i = i + 1;
        assert(tokens.deep_view() =~= start + mul_copies(next));
    }
    assert(adds.subrange(0, i as int) =~= adds);
}

fn _optimize(tokens: &[Token]) -> (state: OptimizeState)
    requires
        well_formed(tokens.deep_view()),
    ensures
        state@ == pass_block(tokens.deep_view()),
    decreases tokens@, 1nat,
{
    let ghost all = tokens.deep_view();
    let mut do_output = false;
    let mut state = OptimizeState::new();
    let mut i: usize = 0;
    assert(all.subrange(0, 0) =~= Seq::<SpecToken>::empty());
    while i < tokens.len()
        invariant
            i <= tokens.len(),
            all == tokens.deep_view(),
            well_formed(all),
            pass_fold(all.subrange(0, i as int)) == (SpecPass {
                state: state@,
                output_pending: do_output,
            }),
        decreases tokens.len() - i,
    {
        let token = &tokens[i];
        let ghost p = pass_fold(all.subrange(0, i as int));
        let ghost next = all.subrange(0, i + 1);
        let ghost node = token.deep_view();
        proof {
            assert(next.drop_last() =~= all.subrange(0, i as int));
            assert(next.last() == node);
            lemma_well_formed_index(all, i as int);
        }
        if !is_plain_token(token) {
            if do_output {
                push_token(&mut state.tokens, Token::Output);
                do_output = false;
            }
            state.apply_adds_sets();
        }
        if needs_pointer_token(token) {
            state.apply_shift();
        }
        assert(prepared(p, node) == (SpecPass { state: state@, output_pending: do_output }));
        let ghost q = prepared(p, node);
        match token {
            Token::Assign(offset, value) => {
                state.set(offset.wrapping_add(state.shift), *value);
                assert(node == SpecToken::Assign(*offset, *value));
            },
            Token::Add(offset, value) => {
                state.add(offset.wrapping_add(state.shift), *value);
                assert(node == SpecToken::Add(*offset, *value));
            },
            Token::MulCopy(src, dest, mul) => {
                let src = src.wrapping_add(state.shift);
                let dest = dest.wrapping_add(state.shift);
                match state.sets.get(src) {
                    Some(value) => {
                        state.add(dest, value.wrapping_mul(*mul));
                    },
                    None => {
                        if state.sets.contains_key(dest) || state.adds.contains_key(src)
                            || state.adds.contains_key(dest) {
                            state.apply_adds_sets();
                        }
                        push_token(&mut state.tokens, Token::MulCopy(src, dest, *mul));
                    },
                }
                assert(node is MulCopy);
            },
            Token::If(offset, contents) => {
                proof {
                    lemma_if_token_view(*offset, *contents);
                }
                assert(node == SpecToken::If(*offset, contents.deep_view()));
                assert(all[i as int] == node);
                let guarded = contents.as_slice();
                proof {
                    let inner = contents.deep_view();
                    assert(guarded.deep_view() =~= inner);
                    lemma_well_formed_index(all, i as int);
                    assert(all[i as int]->If_1 == inner);
                    assert forall|j: int| 0 <= j < inner.len() implies is_guarded_token(
                        #[trigger] inner[j],
                    ) by {
                        assert(is_guarded_token(all[i as int]->If_1[j]));
                    }
                }
                let body = shift_body(guarded, state.shift);
                proof {
                    lemma_if_token_view(offset.wrapping_add(state.shift), body);
                }
                push_token(&mut state.tokens, Token::If(offset.wrapping_add(state.shift), body));
                assert(node == SpecToken::If(*offset, contents.deep_view()));
            },
            Token::Move(offset) => {
                state.shift = state.shift.wrapping_add(*offset);
                assert(node == SpecToken::Move(*offset));
            },
            Token::Output => {
                do_output = true;
                assert(node == SpecToken::Output);
            },
            Token::LoadOut(offset, add) => {
                let offset = offset.wrapping_add(state.shift);
                let loaded = match state.sets.get(offset) {
                    Some(set) => Token::LoadOutSet(set.wrapping_add(*add)),
                    None => Token::LoadOut(
                        offset,
                        match state.adds.get(offset) {
                            Some(v) => v.wrapping_add(*add),
                            None => *add,
                        },
                    ),
                };
                push_token(&mut state.tokens, loaded);
                assert(node is LoadOut);
            },
            Token::Loop(contents) => {
                proof {
                    lemma_loop_token_view(*contents);
                }
                _optimize_loop(contents.as_slice(), &mut state);
                assert(node == SpecToken::Loop(contents.deep_view()));
            },
            Token::LoadOutSet(value) => {
                push_token(&mut state.tokens, Token::LoadOutSet(*value));
                assert(node == SpecToken::LoadOutSet(*value));
            },
            Token::Input => {
                push_token(&mut state.tokens, Token::Input);
                assert(node == SpecToken::Input);
            },
            Token::Scan(offset) => {
                push_token(&mut state.tokens, Token::Scan(offset.wrapping_add(state.shift)));
                assert(node == SpecToken::Scan(*offset));
            },
        }
        i = i + 1;
        assert(pass_fold(next) == pass_token(p, node));
        assert(pass_token(p, node) == (SpecPass { state: state@, output_pending: do_output }));
    }
    assert(all.subrange(0, tokens.len() as int) =~= all);
    if do_output {
        push_token(&mut state.tokens, Token::Output);
    }
    state
}

fn _optimize_loop(tokens: &[Token], outer: &mut OptimizeState)
    requires
        well_formed(tokens.deep_view()),
    ensures
        final(outer)@ == with_loop(old(outer)@, pass_block(tokens.deep_view())),
    decreases tokens@, 2nat,
{
    let mut inner = _optimize(tokens);
    let ghost body = inner@;
    if inner.shift != 0 && inner.sets.is_empty() && inner.adds.is_empty() && inner.tokens.len()
        == 0 {
        push_token(&mut outer.tokens, Token::Scan(inner.shift));
    } else if inner.shift == 0 && inner.tokens.len() == 0 && inner.adds.contains_key(0)
        && inner.adds.len() == 1 {
        if !inner.sets.is_empty() {
            let mut iftokens: Vec<Token> = Vec::new();
            assert(iftokens.deep_view() =~= Seq::<SpecToken>::empty());
            push_sets(&mut iftokens, &inner);
            push_token(&mut iftokens, Token::Assign(0, 0));
            assert(iftokens.deep_view() =~= set_tokens(body.sets).push(SpecToken::Assign(0, 0)));
            proof {
                lemma_if_token_view(0, iftokens);
            }
            push_token(&mut outer.tokens, Token::If(0, iftokens));
        } else {
            outer.set(0, 0);
        }
    } else if inner.shift == 0 && inner.tokens.len() == 0 && is_minus_one(inner.adds.get(0)) {
        if !inner.sets.is_empty() {
            let mut iftokens: Vec<Token> = Vec::new();
            assert(iftokens.deep_view() =~= Seq::<SpecToken>::empty());
            push_sets(&mut iftokens, &inner);
            push_mul_copies(&mut iftokens, &inner);
            assert(iftokens.deep_view() =~= set_tokens(body.sets) + mul_copies(body.adds));
            proof {
                lemma_if_token_view(0, iftokens);
            }
            push_token(&mut outer.tokens, Token::If(0, iftokens));
        } else {
            push_mul_copies(&mut outer.tokens, &inner);
        }
        outer.set(0, 0);
    } else {
        inner.apply_adds_sets();
        inner.apply_shift();
        let committed = inner.tokens;
        proof {
            lemma_loop_token_view(committed);
        }
        push_token(&mut outer.tokens, Token::Loop(committed));
    }
}

fn is_minus_one(v: Option<i32>) -> (b: bool)
    ensures
        b == (v == Some(-1i32)),
{
    match v {
        Some(x) => x == -1,
        None => false,
    }
}

/// Whether two token sequences are the same.
pub fn tokens_equal(a: &[Token], b: &[Token]) -> (r: bool)
    ensures
        r == (a.deep_view() == b.deep_view()),
    decreases a@,
{
    if a.len() != b.len() {
        assert(a.deep_view().len() != b.deep_view().len());
        return false;
    }
    let mut i: usize = 0;
    while i < a.len()
        invariant
            i <= a.len(),
            a.len() == b.len(),
            forall|k: int| 0 <= k < i ==> a.deep_view()[k] == b.deep_view()[k],
        decreases a.len() - i,
    {
        let ghost x = a@[i as int].deep_view();
        let ghost y = b@[i as int].deep_view();
        assert(a.deep_view()[i as int] == x);
        assert(b.deep_view()[i as int] == y);
        let same = match (&a[i], &b[i]) {
            (Token::Output, Token::Output) => true,
            (Token::Input, Token::Input) => true,
            (Token::Loop(p), Token::Loop(q)) => {
                proof {
                    lemma_loop_token_view(*p);
                    lemma_loop_token_view(*q);
                }
                tokens_equal(p.as_slice(), q.as_slice())
            },
            (Token::Move(p), Token::Move(q)) => *p == *q,
            (Token::Add(o, v), Token::Add(p, w)) => *o == *p && *v == *w,
            (Token::Assign(o, v), Token::Assign(p, w)) => *o == *p && *v == *w,
            (Token::MulCopy(s, d, m), Token::MulCopy(t, e, n)) => *s == *t && *d == *e && *m
                == *n,
            (Token::Scan(p), Token::Scan(q)) => *p == *q,
            (Token::LoadOut(o, v), Token::LoadOut(p, w)) => *o == *p && *v == *w,
            (Token::LoadOutSet(p), Token::LoadOutSet(q)) => *p == *q,
            (Token::If(o, p), Token::If(r, q)) => {
                proof {
                    lemma_if_token_view(*o, *p);
                    lemma_if_token_view(*r, *q);
                }
                *o == *r && tokens_equal(p.as_slice(), q.as_slice())
            },
            _ => false,
        };
        assert(same == (x == y));
        if !same {
            return false;
        }
        i = i + 1;
    }
    assert(a.deep_view() =~= b.deep_view());
    true
}

/// The number of tokens of a sequence, bodies included.
pub fn count_tokens(tokens: &[Token]) -> (n: usize)
    requires
        token_count(tokens.deep_view()) <= usize::MAX,
    ensures
        n == token_count(tokens.deep_view()),
    decreases tokens@,
{
    let ghost all = tokens.deep_view();
    let mut n: usize = 0;
    let mut i: usize = 0;
    assert(all.subrange(0, 0) =~= Seq::<SpecToken>::empty());
    while i < tokens.len()
        invariant
            i <= tokens.len(),
            all == tokens.deep_view(),
            token_count(all) <= usize::MAX,
            n == token_count(all.subrange(0, i as int)),
        decreases tokens.len() - i,
    {
        let ghost next = all.subrange(0, i + 1);
        proof {
            lemma_token_count_prefix(all, i + 1);
            assert(next.drop_last() =~= all.subrange(0, i as int));
            assert(next.last() == tokens@[i as int].deep_view());
        }
        let inner = match &tokens[i] {
            Token::Loop(body) => {
                proof {
                    lemma_loop_token_view(*body);
                }
                count_tokens(body.as_slice())
            },
            Token::If(offset, body) => {
                proof {
                    lemma_if_token_view(*offset, *body);
                }
                count_tokens(body.as_slice())
            },
            _ => 0,
        };
        n = n + 1 + inner;
        i = i + 1;
    }
    assert(all.subrange(0, tokens.len() as int) =~= all);
    n
}

/// A prefix of a token sequence has no more tokens than the sequence.
pub proof fn lemma_token_count_prefix(tokens: Seq<SpecToken>, i: int)
    requires
        0 <= i <= tokens.len(),
    ensures
        token_count(tokens.subrange(0, i)) <= token_count(tokens),
    decreases tokens.len() - i,
{
    if i == tokens.len() {
        assert(tokens.subrange(0, i) =~= tokens);
    } else {
        lemma_token_count_prefix(tokens, i + 1);
        assert(tokens.subrange(0, i + 1).drop_last() =~= tokens.subrange(0, i));
    }
}

/// Optimizes a token sequence: passes over it until a pass changes nothing,
/// with as many passes after the second, at most, as the sequence has
/// tokens.
pub fn optimize(tokens: &[Token]) -> (result: Vec<Token>)
    requires
        well_formed(tokens.deep_view()),
        token_count(tokens.deep_view()) <= usize::MAX,
    ensures
        result.deep_view() == optimized(tokens.deep_view()),
{
    let ghost all = tokens.deep_view();
    let limit = count_tokens(tokens);
    let mut previous = _optimize(tokens).tokens;
    proof {
        lemma_pass_tokens(all);
    }
    let mut current = _optimize(previous.as_slice()).tokens;
    proof {
        lemma_pass_tokens(previous.deep_view());
    }
    let mut rounds: usize = 0;
    while rounds < limit && !tokens_equal(current.as_slice(), previous.as_slice())
        invariant
            rounds <= limit,
            well_formed(current.deep_view()),
            settled(previous.deep_view(), current.deep_view(), (limit - rounds) as nat)
                == optimized(all),
        decreases limit - rounds,
    {
        proof {
            lemma_pass_tokens(current.deep_view());
        }
        let next = _optimize(current.as_slice()).tokens;
        previous = current;
        current = next;
        rounds = rounds + 1;
    }
    current
}

} // verus!
