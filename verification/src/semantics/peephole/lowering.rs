//! The instruction list of a token sequence does what the tokens mean.

use vstd::arithmetic::div_mod::lemma_mod_twice;
use vstd::prelude::*;
use crate::lir::{inputbuf, strbuf, SpecLIR, SpecRVal};
use crate::optimizer::laws::lemma_compiled_well_formed;
use crate::optimizer::peephole::compile::{
    compiled, counters_after, lemma_counts_bounded, lower_token, lower_tokens, no_counters,
    out_pos, out_size, pos_after, SpecCounters,
};
use crate::optimizer::peephole::token::{token_count, tokens_of, tokens_of_node, SpecToken};
use crate::parser::SpecAST;
use crate::semantics::laws::lemma_program_ends;
use crate::semantics::gathering::{
    cell_sound, lemma_exec_all_sound, lemma_exec_sound, lemma_sem_one, sound,
};
use crate::semantics::machine::{ends_within, exec, initial, output_after, read, Machine};
use crate::semantics::programs::{lemma_exec_one, lemma_exec_two, 
    exec_all, lemma_flat_concat, lemma_flat_one, lemma_flat_plain, lemma_sem_concat,
    lemma_sem_more, lemma_sem_plain, plain_items,
};
use crate::semantics::structured::{flat, flat_item, items_ok, sem, sem_loop, Item};
use crate::semantics::peephole::tokens::{
    apply, byte, cell, cell_is_zero, start, tsem, tsem_loop, tsem_scan, tsem_token, TokenState,
};

verus! {

/// Whether, in a token sequence, output is written before every block and
/// every read, and the body of every block has written its output at its
/// end.
pub open spec fn inner_closed(tokens: Seq<SpecToken>) -> bool
    decreases tokens, 1nat,
{
    tokens.len() == 0 || (inner_closed(tokens.drop_last()) && token_closed(
        tokens.last(),
        out_pos(tokens.drop_last()),
    ))
}

/// Whether a token may stand after `pos` loads that are not written, and
/// its body, if it has one, is closed.
pub open spec fn token_closed(token: SpecToken, pos: nat) -> bool
    decreases token, 0nat,
{
    match token {
        SpecToken::Loop(body) => pos == 0 && closed(body),
        SpecToken::If(_, body) => pos == 0 && closed(body),
        SpecToken::Scan(_) => pos == 0,
        SpecToken::Input => pos == 0,
        _ => true,
    }
}

/// Whether a token sequence is closed: output is written before every
/// block and every read, and at the end.
pub open spec fn closed(tokens: Seq<SpecToken>) -> bool
    decreases tokens, 2nat,
{
    inner_closed(tokens) && out_pos(tokens) == 0
}

/// The structured program of a token sequence, with the counters as they
/// stand before it.
pub open spec fn tokens_items(tokens: Seq<SpecToken>, c: SpecCounters) -> Seq<Item>
    decreases tokens, 1nat,
{
    if tokens.len() == 0 {
        Seq::empty()
    } else {
        tokens_items(tokens.drop_last(), c) + token_items(
            tokens.last(),
            counters_after(c, tokens.drop_last()),
            out_pos(tokens.drop_last()),
        )
    }
}

/// The structured program of one token.
pub open spec fn token_items(token: SpecToken, c: SpecCounters, pos: nat) -> Seq<Item>
    decreases token, 0nat,
{
    match token {
        SpecToken::Loop(body) => seq![
            Item::Loop(c.loops + 1, tokens_items(body, SpecCounters { loops: c.loops + 1, ..c })),
        ],
        SpecToken::If(o, body) => seq![
            Item::If(
                c.ifs + 1,
                SpecRVal::Tape(o),
                tokens_items(body, SpecCounters { ifs: c.ifs + 1, ..c }),
            ),
        ],
        SpecToken::Scan(k) => seq![Item::Loop(c.loops + 1, seq![Item::Plain(SpecLIR::Shift(k))])],
        _ => plain_items(lower_token(token, c, pos)),
    }
}

/// The instruction list of a token sequence is the instruction list of its
/// structured program, in which no plain part is a jump.
pub proof fn lemma_tokens_items(tokens: Seq<SpecToken>, c: SpecCounters)
    ensures
        flat(tokens_items(tokens, c)) == lower_tokens(tokens, c),
        items_ok(tokens_items(tokens, c)),
    decreases tokens, 1nat,
{
    if tokens.len() == 0 {
        assert(flat(tokens_items(tokens, c)) =~= lower_tokens(tokens, c));
    } else {
        let at = counters_after(c, tokens.drop_last());
        let pos = out_pos(tokens.drop_last());
        lemma_tokens_items(tokens.drop_last(), c);
        lemma_token_items(tokens.last(), at, pos);
        lemma_flat_concat(
            tokens_items(tokens.drop_last(), c),
            token_items(tokens.last(), at, pos),
        );
    }
}

pub proof fn lemma_token_items(token: SpecToken, c: SpecCounters, pos: nat)
    ensures
        flat(token_items(token, c, pos)) == lower_token(token, c, pos),
        items_ok(token_items(token, c, pos)),
    decreases token, 0nat,
{
    match token {
        SpecToken::Loop(body) => {
            let inner = SpecCounters { loops: c.loops + 1, ..c };
            lemma_tokens_items(body, inner);
            lemma_flat_one(Item::Loop(c.loops + 1, tokens_items(body, inner)));
        },
        SpecToken::If(o, body) => {
            let inner = SpecCounters { ifs: c.ifs + 1, ..c };
            lemma_tokens_items(body, inner);
            lemma_flat_one(Item::If(c.ifs + 1, SpecRVal::Tape(o), tokens_items(body, inner)));
        },
        SpecToken::Scan(k) => {
            let body = seq![Item::Plain(SpecLIR::Shift(k))];
            lemma_flat_one(Item::Plain(SpecLIR::Shift(k)));
            lemma_flat_one(Item::Loop(c.loops + 1, body));
            assert(flat(body) =~= seq![SpecLIR::Shift(k)]);
            assert(lower_token(token, c, pos) =~= flat_item(Item::Loop(c.loops + 1, body)));
        },
        _ => {
            lemma_flat_plain(lower_token(token, c, pos));
        },
    }
}

/// The names of the two buffers differ.
pub proof fn lemma_buffer_names()
    ensures
        strbuf() != inputbuf(),
{
    reveal_strlit("strbuf");
    reveal_strlit("inputbuf");
    assert(strbuf().len() == 6);
    assert(inputbuf().len() == 8);
}

/// Whether a machine holds what a token state says: the same tape, cursor,
/// input and output, the loaded bytes at the start of the output buffer,
/// and the byte that was read last in the input buffer.
pub open spec fn holds(m: Machine, ts: TokenState, modulus: int) -> bool {
    &&& m.tape == ts.tape
    &&& m.cursor == ts.cursor
    &&& m.input == ts.input
    &&& m.output == ts.output
    &&& m.starved == ts.starved
    &&& m.bufs[(inputbuf(), 0int)] == ts.inbuf
    &&& forall|i: int| 0 <= i < ts.buffer.len() ==> loaded(m, ts, i)
    &&& ts.buffer.len() <= usize::MAX
    &&& sound(m, modulus)
}

/// Whether byte `i` of the output buffer of the machine is the byte that
/// the token state has loaded there.
pub open spec fn loaded(m: Machine, ts: TokenState, i: int) -> bool {
    byte(m.bufs[(strbuf(), i)]) == ts.buffer[i]
}

/// One token without a body: its instructions lead a machine that holds a
/// token state to one that holds the state after the token.
proof fn lemma_plain_token(
    token: SpecToken,
    c: SpecCounters,
    m: Machine,
    ts: TokenState,
    modulus: int,
)
    requires
        modulus > 0,
        !(token is Loop) && !(token is If) && !(token is Scan),
        holds(m, ts, modulus),
        ts.buffer.len() + 1 <= usize::MAX,
    ensures
        holds(
            exec_all(lower_token(token, c, ts.buffer.len()), m, modulus),
            apply(token, ts, modulus),
            modulus,
        ),
        apply(token, ts, modulus).buffer.len() == pos_after(ts.buffer.len(), token),
{
    let pos = ts.buffer.len();
    let lir = lower_token(token, c, pos);
    let after = exec_all(lir, m, modulus);
    let ts2 = apply(token, ts, modulus);
    lemma_exec_all_sound(lir, m, modulus);
    lemma_buffer_names();
    match token {
        SpecToken::Add(o, v) => {
            lemma_exec_one(lir[0], m, modulus);
            assert(lir =~= seq![lir[0]]);
            assert forall|i: int| 0 <= i < ts2.buffer.len() implies loaded(after, ts2, i) by {
                assert(loaded(m, ts, i));
            }
        },
        SpecToken::Assign(o, v) => {
            lemma_exec_one(lir[0], m, modulus);
            assert(lir =~= seq![lir[0]]);
            assert forall|i: int| 0 <= i < ts2.buffer.len() implies loaded(after, ts2, i) by {
                assert(loaded(m, ts, i));
            }
        },
        SpecToken::Move(k) => {
            lemma_exec_one(lir[0], m, modulus);
            assert(lir =~= seq![lir[0]]);
            assert forall|i: int| 0 <= i < ts2.buffer.len() implies loaded(after, ts2, i) by {
                assert(loaded(m, ts, i));
            }
        },
        SpecToken::MulCopy(src, dest, mul) => {
            lemma_exec_two(lir[0], lir[1], m, modulus);
            assert(lir =~= seq![lir[0], lir[1]]);
            assert forall|i: int| 0 <= i < ts2.buffer.len() implies loaded(after, ts2, i) by {
                assert(loaded(m, ts, i));
            }
        },
        SpecToken::LoadOut(o, a) => {
            lemma_exec_two(lir[0], lir[1], m, modulus);
            assert(lir =~= seq![lir[0], lir[1]]);
            let x = (cell(ts, o) + a) % modulus;
            lemma_mod_twice(x, 256);
            assert forall|i: int| 0 <= i < ts2.buffer.len() implies loaded(after, ts2, i) by {
                if i < pos {
                    assert(loaded(m, ts, i));
                }
            }
        },
        SpecToken::LoadOutSet(v) => {
            lemma_exec_one(lir[0], m, modulus);
            assert(lir =~= seq![lir[0]]);
            lemma_mod_twice(v as int, 256);
            assert forall|i: int| 0 <= i < ts2.buffer.len() implies loaded(after, ts2, i) by {
                if i < pos {
                    assert(loaded(m, ts, i));
                }
            }
        },
        SpecToken::Output => {
            lemma_exec_one(lir[0], m, modulus);
            assert(lir =~= seq![lir[0]]);
            let written = Seq::new(pos, |j: int| (m.bufs[(strbuf(), 0 + j)] % 256) as u8);
            assert(written =~= ts.buffer) by {
                assert forall|j: int| 0 <= j < pos implies written[j] == ts.buffer[j] by {
                    assert(loaded(m, ts, j));
                }
            }
        },
        SpecToken::Input => {
            lemma_exec_two(lir[0], lir[1], m, modulus);
            assert(lir =~= seq![lir[0], lir[1]]);
            let read_in = exec(lir[0], m, modulus);
            assert(read_in.input =~= ts2.input);
            assert(m.cursor.wrapping_add(0) == m.cursor);
            assert(after.tape =~= ts2.tape);
            assert(after.bufs[(inputbuf(), 0int)] == ts2.inbuf);
            assert forall|i: int| 0 <= i < ts2.buffer.len() implies loaded(after, ts2, i) by {
                assert(loaded(m, ts, i));
            }
        },
        _ => {},
    }
}

/// The structured program of a token sequence does what the tokens mean:
/// where the tokens end, the program ends, within the steps that the lemma
/// gives, in a machine that holds the state of the tokens.
pub proof fn lemma_lower_sim(
    tokens: Seq<SpecToken>,
    c: SpecCounters,
    m: Machine,
    ts: TokenState,
    modulus: int,
    fuel: nat,
) -> (fx: nat)
    requires
        modulus > 0,
        inner_closed(tokens),
        holds(m, ts, modulus),
        ts.buffer.len() == 0,
        token_count(tokens) <= u32::MAX,
        tsem(tokens, ts, modulus, fuel) is Some,
    ensures
        sem(tokens_items(tokens, c), m, modulus, fx) is Some,
        sem(tokens_items(tokens, c), m, modulus, fx)->Some_0.1 == 0,
        holds(
            sem(tokens_items(tokens, c), m, modulus, fx)->Some_0.0,
            tsem(tokens, ts, modulus, fuel)->Some_0,
            modulus,
        ),
        tsem(tokens, ts, modulus, fuel)->Some_0.buffer.len() == out_pos(tokens),
    decreases tokens, 1nat, 0nat,
{
    if tokens.len() == 0 {
        0
    } else {
        let before = tokens.drop_last();
        let token = tokens.last();
        let at = counters_after(c, before);
        let pos = out_pos(before);
        lemma_counts_bounded(before);
        let f1 = lemma_lower_sim(before, c, m, ts, modulus, fuel);
        let ts1 = tsem(before, ts, modulus, fuel)->Some_0;
        let m1 = sem(tokens_items(before, c), m, modulus, f1)->Some_0.0;
        let f2 = lemma_token_sim(token, at, m1, ts1, modulus, fuel);
        let first = tokens_items(before, c);
        let second = token_items(token, at, pos);
        lemma_sem_more(first, m, modulus, f1, f2);
        lemma_sem_concat(first, second, m, modulus, f1 + f2);
        f1 + f2
    }
}

/// One token: its structured program does what the token means.
pub proof fn lemma_token_sim(
    token: SpecToken,
    c: SpecCounters,
    m: Machine,
    ts: TokenState,
    modulus: int,
    fuel: nat,
) -> (fx: nat)
    requires
        modulus > 0,
        token_closed(token, ts.buffer.len()),
        holds(m, ts, modulus),
        ts.buffer.len() + 1 <= usize::MAX,
        1 + match token {
            SpecToken::Loop(body) => token_count(body),
            SpecToken::If(_, body) => token_count(body),
            _ => 0,
        } <= u32::MAX,
        tsem_token(token, ts, modulus, fuel) is Some,
    ensures
        sem(token_items(token, c, ts.buffer.len()), m, modulus, fx) is Some,
        sem(token_items(token, c, ts.buffer.len()), m, modulus, fx)->Some_0.1 == 0,
        holds(
            sem(token_items(token, c, ts.buffer.len()), m, modulus, fx)->Some_0.0,
            tsem_token(token, ts, modulus, fuel)->Some_0,
            modulus,
        ),
        tsem_token(token, ts, modulus, fuel)->Some_0.buffer.len() == pos_after(
            ts.buffer.len(),
            token,
        ),
    decreases token, 0nat, 0nat,
{
    let pos = ts.buffer.len();
    match token {
        SpecToken::Loop(body) => {
            let inner = SpecCounters { loops: c.loops + 1, ..c };
            let fl = lemma_loop_lower(body, inner, m, ts, modulus, fuel);
            let item = Item::Loop(c.loops + 1, tokens_items(body, inner));
            lemma_sem_one(item, m, modulus, 1 + fl);
            1 + fl
        },
        SpecToken::Scan(k) => {
            let fl = lemma_scan_lower(k, m, ts, modulus, fuel);
            let item = Item::Loop(c.loops + 1, seq![Item::Plain(SpecLIR::Shift(k))]);
            lemma_sem_one(item, m, modulus, 1 + fl);
            1 + fl
        },
        SpecToken::If(o, body) => {
            let inner = SpecCounters { ifs: c.ifs + 1, ..c };
            let item = Item::If(c.ifs + 1, SpecRVal::Tape(o), tokens_items(body, inner));
            assert(read(m, SpecRVal::Tape(o)) == cell(ts, o));
            if cell_is_zero(ts, o, modulus) {
                lemma_sem_one(item, m, modulus, 2);
                2
            } else {
                let fb = lemma_lower_sim(body, inner, m, ts, modulus, fuel);
                lemma_sem_more(tokens_items(body, inner), m, modulus, fb, 1);
                lemma_sem_one(item, m, modulus, fb + 2);
                assert((fb + 2 - 1) as nat == fb + 1);
                fb + 2
            }
        },
        _ => {
            let lir = lower_token(token, c, pos);
            lemma_plain_token(token, c, m, ts, modulus);
            lemma_sem_plain(lir, m, modulus, lir.len());
            lir.len()
        },
    }
}

/// A loop: the loop over the structured program of the body does what the
/// loop over the tokens means.
pub proof fn lemma_loop_lower(
    body: Seq<SpecToken>,
    c: SpecCounters,
    m: Machine,
    ts: TokenState,
    modulus: int,
    fuel: nat,
) -> (fx: nat)
    requires
        modulus > 0,
        closed(body),
        holds(m, ts, modulus),
        ts.buffer.len() == 0,
        token_count(body) <= u32::MAX,
        tsem_loop(body, ts, modulus, fuel) is Some,
    ensures
        sem_loop(tokens_items(body, c), m, modulus, fx) is Some,
        sem_loop(tokens_items(body, c), m, modulus, fx)->Some_0.1 == 0,
        holds(
            sem_loop(tokens_items(body, c), m, modulus, fx)->Some_0.0,
            tsem_loop(body, ts, modulus, fuel)->Some_0,
            modulus,
        ),
        tsem_loop(body, ts, modulus, fuel)->Some_0.buffer.len() == 0,
    decreases body, 2nat, fuel,
{
    let items = tokens_items(body, c);
    assert(read(m, SpecRVal::Tape(0)) == cell(ts, 0));
    if cell_is_zero(ts, 0, modulus) {
        2
    } else {
        let ts1 = tsem(body, ts, modulus, (fuel - 1) as nat)->Some_0;
        let fb = lemma_lower_sim(body, c, m, ts, modulus, (fuel - 1) as nat);
        let m1 = sem(items, m, modulus, fb)->Some_0.0;
        let fl = lemma_loop_lower(body, c, m1, ts1, modulus, (fuel - 1) as nat);
        lemma_sem_more(items, m, modulus, fb, fl);
        assert((3 + fb + fl - 3) as nat == fb + fl);
        3 + fb + fl
    }
}

/// A scan: the loop that moves the cursor does what the scan means.
pub proof fn lemma_scan_lower(k: i32, m: Machine, ts: TokenState, modulus: int, fuel: nat) -> (fx:
    nat)
    requires
        modulus > 0,
        holds(m, ts, modulus),
        tsem_scan(k, ts, modulus, fuel) is Some,
    ensures
        sem_loop(seq![Item::Plain(SpecLIR::Shift(k))], m, modulus, fx) is Some,
        sem_loop(seq![Item::Plain(SpecLIR::Shift(k))], m, modulus, fx)->Some_0.1 == 0,
        holds(
            sem_loop(seq![Item::Plain(SpecLIR::Shift(k))], m, modulus, fx)->Some_0.0,
            tsem_scan(k, ts, modulus, fuel)->Some_0,
            modulus,
        ),
        tsem_scan(k, ts, modulus, fuel)->Some_0.buffer == ts.buffer,
    decreases fuel,
{
    let body = seq![Item::Plain(SpecLIR::Shift(k))];
    assert(read(m, SpecRVal::Tape(0)) == cell(ts, 0));
    if cell_is_zero(ts, 0, modulus) {
        2
    } else {
        let ts1 = TokenState { cursor: ts.cursor.wrapping_add(k), ..ts };
        let m1 = exec(SpecLIR::Shift(k), m, modulus);
        lemma_exec_sound(SpecLIR::Shift(k), m, modulus);
        assert forall|i: int| 0 <= i < ts1.buffer.len() implies loaded(m1, ts1, i) by {
            assert(loaded(m, ts, i));
        }
        let fl = lemma_scan_lower(k, m1, ts1, modulus, (fuel - 1) as nat);
        lemma_sem_one(body[0], m, modulus, 1 + fl);
        assert((3 + 1 + fl - 3) as nat == 1 + fl);
        3 + 1 + fl
    }
}

/// After a closed sequence, a sequence in which output is written in time
/// stands as it would alone.
pub proof fn lemma_closed_concat(a: Seq<SpecToken>, b: Seq<SpecToken>)
    requires
        closed(a),
        inner_closed(b),
    ensures
        inner_closed(a + b),
        out_pos(a + b) == out_pos(b),
    decreases b.len(),
{
    if b.len() == 0 {
        assert(a + b =~= a);
    } else {
        lemma_closed_concat(a, b.drop_last());
        assert((a + b).drop_last() =~= a + b.drop_last());
        assert((a + b).last() == b.last());
    }
}

/// A sequence of one token that may stand first, and after which nothing is
/// loaded, is closed.
pub proof fn lemma_closed_one(token: SpecToken)
    requires
        token_closed(token, 0),
        pos_after(0, token) == 0,
    ensures
        closed(seq![token]),
{
    let one = seq![token];
    assert(one.drop_last() =~= Seq::<SpecToken>::empty());
    assert(one.last() == token);
    assert(inner_closed(one.drop_last()));
    assert(out_pos(one.drop_last()) == 0);
}

/// The token form of a program is closed.
pub proof fn lemma_tokens_of_closed(ast: Seq<SpecAST>)
    ensures
        closed(tokens_of(ast)),
    decreases ast,
{
    if ast.len() > 0 {
        lemma_tokens_of_closed(ast.drop_last());
        let tokens = tokens_of_node(ast.last());
        match ast.last() {
            SpecAST::Output => {
                let first = seq![SpecToken::LoadOut(0, 0)];
                assert(tokens.drop_last() =~= first);
                assert(first.drop_last() =~= Seq::<SpecToken>::empty());
                assert(inner_closed(first.drop_last()));
                assert(out_pos(first.drop_last()) == 0);
                assert(token_closed(first.last(), 0));
                assert(inner_closed(first));
                assert(out_pos(first) == 1);
                assert(closed(tokens));
            },
            SpecAST::Loop(body) => {
                lemma_tokens_of_closed(body);
                lemma_closed_one(tokens[0]);
                assert(tokens =~= seq![tokens[0]]);
            },
            _ => {
                lemma_closed_one(tokens[0]);
                assert(tokens =~= seq![tokens[0]]);
            },
        }
        lemma_closed_concat(tokens_of(ast.drop_last()), tokens);
    }
}

/// The structured program of the instruction list of a token sequence.
pub open spec fn compiled_program(tokens: Seq<SpecToken>) -> Seq<Item> {
    tokens_items(tokens, no_counters()) + plain_items(
        seq![
            SpecLIR::DeclareBssBuf(strbuf(), out_size(tokens) as usize),
            SpecLIR::DeclareBssBuf(inputbuf(), 1),
        ],
    )
}

/// The instruction list of a closed token sequence does what the tokens
/// mean: where the tokens end on an input, the instruction list ends within
/// the steps that the lemma gives, and has written what the tokens have
/// written.
pub proof fn lemma_compiled_sim(
    tokens: Seq<SpecToken>,
    input: Seq<u8>,
    modulus: int,
    fuel: nat,
) -> (steps: nat)
    requires
        modulus > 0,
        closed(tokens),
        token_count(tokens) <= u32::MAX,
        tsem(tokens, start(input), modulus, fuel) is Some,
    ensures
        ends_within(compiled(tokens), input, modulus, steps),
        output_after(compiled(tokens), input, modulus, steps) == tsem(
            tokens,
            start(input),
            modulus,
            fuel,
        )->Some_0.output,
{
    let m0 = initial(input);
    let ts0 = start(input);
    let c = no_counters();
    let tail = seq![
        SpecLIR::DeclareBssBuf(strbuf(), out_size(tokens) as usize),
        SpecLIR::DeclareBssBuf(inputbuf(), 1),
    ];
    assert(m0.tape =~= ts0.tape);
    assert forall|a: i32| cell_sound(m0, a, modulus) by {}
    let fx = lemma_lower_sim(tokens, c, m0, ts0, modulus, fuel);
    let m1 = sem(tokens_items(tokens, c), m0, modulus, fx)->Some_0.0;
    lemma_sem_more(tokens_items(tokens, c), m0, modulus, fx, 2);
    lemma_sem_concat(tokens_items(tokens, c), plain_items(tail), m0, modulus, fx + 2);
    lemma_sem_plain(tail, m1, modulus, 2);
    lemma_exec_two(tail[0], tail[1], m1, modulus);
    assert(tail =~= seq![tail[0], tail[1]]);
    lemma_tokens_items(tokens, c);
    lemma_flat_plain(tail);
    lemma_flat_concat(tokens_items(tokens, c), plain_items(tail));
    lemma_counts_bounded(tokens);
    lemma_compiled_well_formed(tokens);
    lemma_program_ends(compiled(tokens), compiled_program(tokens), input, modulus, fx + 2);
    fx + 2
}

/// After a token sequence in which output is written in time, as many
/// bytes are loaded as the sequence says.
pub proof fn lemma_tsem_buffer(tokens: Seq<SpecToken>, s: TokenState, modulus: int, fuel: nat)
    requires
        inner_closed(tokens),
        s.buffer.len() == 0,
        tsem(tokens, s, modulus, fuel) is Some,
    ensures
        tsem(tokens, s, modulus, fuel)->Some_0.buffer.len() == out_pos(tokens),
    decreases fuel, tokens, 2nat,
{
    if tokens.len() > 0 {
        lemma_tsem_buffer(tokens.drop_last(), s, modulus, fuel);
        let s1 = tsem(tokens.drop_last(), s, modulus, fuel)->Some_0;
        lemma_tsem_token_buffer(tokens.last(), s1, modulus, fuel);
    }
}

pub proof fn lemma_tsem_token_buffer(token: SpecToken, s: TokenState, modulus: int, fuel: nat)
    requires
        token_closed(token, s.buffer.len()),
        tsem_token(token, s, modulus, fuel) is Some,
    ensures
        tsem_token(token, s, modulus, fuel)->Some_0.buffer.len() == pos_after(
            s.buffer.len(),
            token,
        ),
    decreases fuel, token, 1nat,
{
    match token {
        SpecToken::Loop(body) => {
            lemma_tsem_loop_buffer(body, s, modulus, fuel);
        },
        SpecToken::Scan(k) => {
            lemma_tsem_scan_buffer(k, s, modulus, fuel);
        },
        SpecToken::If(o, body) => {
            if !cell_is_zero(s, o, modulus) {
                lemma_tsem_buffer(body, s, modulus, fuel);
            }
        },
        _ => {},
    }
}

pub proof fn lemma_tsem_scan_buffer(k: i32, s: TokenState, modulus: int, fuel: nat)
    requires
        tsem_scan(k, s, modulus, fuel) is Some,
    ensures
        tsem_scan(k, s, modulus, fuel)->Some_0.buffer == s.buffer,
    decreases fuel,
{
    if !cell_is_zero(s, 0, modulus) {
        let s1 = TokenState { cursor: s.cursor.wrapping_add(k), ..s };
        lemma_tsem_scan_buffer(k, s1, modulus, (fuel - 1) as nat);
    }
}

pub proof fn lemma_tsem_loop_buffer(body: Seq<SpecToken>, s: TokenState, modulus: int, fuel: nat)
    requires
        closed(body),
        s.buffer.len() == 0,
        tsem_loop(body, s, modulus, fuel) is Some,
    ensures
        tsem_loop(body, s, modulus, fuel)->Some_0.buffer.len() == 0,
    decreases fuel, body, 0nat,
{
    if !cell_is_zero(s, 0, modulus) {
        lemma_tsem_buffer(body, s, modulus, (fuel - 1) as nat);
        let s1 = tsem(body, s, modulus, (fuel - 1) as nat)->Some_0;
        lemma_tsem_loop_buffer(body, s1, modulus, (fuel - 1) as nat);
    }
}

} // verus!
