//! Writing a tree of commands back as source text, and the law that parsing
//! loses nothing but what fusion removes.

use vstd::prelude::*;
use crate::parser::{
    flush_all, flush_before, is_add_byte, is_shift_byte, parse_block, parse_spec, SpecAST, CLOSE,
    COMMA, DOT, LEFT, MINUS, OPEN, PLUS, RIGHT,
};

verus! {

/// The text of a fused run: `n` times `up` for a positive `n`, `-n` times
/// `down` for a negative one.
pub open spec fn run_text(n: int, up: u8, down: u8) -> Seq<u8> {
    if n >= 0 {
        Seq::new(n as nat, |i: int| up)
    } else {
        Seq::new((-n) as nat, |i: int| down)
    }
}

/// The source text of a program: a run of `+` or `-` for an add, of `>` or
/// `<` for a shift, `,` and `.` for input and output, and the body of a loop
/// between brackets.
pub open spec fn unparse(ast: Seq<SpecAST>) -> Seq<u8>
    decreases ast,
{
    if ast.len() == 0 {
        Seq::empty()
    } else {
        unparse(ast.drop_last()) + unparse_node(ast.last())
    }
}

/// The source text of one node.
pub open spec fn unparse_node(node: SpecAST) -> Seq<u8>
    decreases node,
{
    match node {
        SpecAST::Output => seq![DOT],
        SpecAST::Input => seq![COMMA],
        SpecAST::Loop(body) => seq![OPEN] + unparse(body) + seq![CLOSE],
        SpecAST::Add(n) => run_text(n as int, PLUS, MINUS),
        SpecAST::Shift(n) => run_text(n as int, RIGHT, LEFT),
    }
}

/// Whether a byte is one of the eight commands.
pub open spec fn is_command(c: u8) -> bool {
    c == PLUS || c == MINUS || c == LEFT || c == RIGHT || c == OPEN || c == CLOSE || c == COMMA
        || c == DOT
}

/// Whether a text holds commands only.
pub open spec fn only_commands(code: Seq<u8>) -> bool {
    forall|i: int| 0 <= i < code.len() ==> is_command(#[trigger] code[i])
}

/// Whether the brackets of `code` from byte `i` on are balanced, with `depth`
/// loops open at `i`.
pub open spec fn balanced_from(code: Seq<u8>, i: int, depth: nat) -> bool
    decreases code.len() - i,
{
    if i < 0 || i >= code.len() {
        depth == 0
    } else if code[i] == OPEN {
        balanced_from(code, i + 1, depth + 1)
    } else if code[i] == CLOSE {
        depth > 0 && balanced_from(code, i + 1, (depth - 1) as nat)
    } else {
        balanced_from(code, i + 1, depth)
    }
}

/// Whether every `[` of a text has its `]` and every `]` its `[`.
pub open spec fn balanced(code: Seq<u8>) -> bool {
    balanced_from(code, 0, 0)
}

/// Whether byte `b` undoes byte `a`: `+` and `-` undo each other, and so do
/// `<` and `>`.
pub open spec fn undoes(a: u8, b: u8) -> bool {
    (a == PLUS && b == MINUS) || (a == MINUS && b == PLUS) || (a == LEFT && b == RIGHT) || (a
        == RIGHT && b == LEFT)
}

/// A reduced text followed by one more byte, reduced again: the byte removes
/// the last byte if it undoes it, and is appended otherwise.
pub open spec fn cancel_step(done: Seq<u8>, c: u8) -> Seq<u8> {
    if done.len() > 0 && undoes(done.last(), c) {
        done.drop_last()
    } else {
        done.push(c)
    }
}

/// The reduced text `done` followed by `text`, reduced from left to right.
pub open spec fn cancel_onto(done: Seq<u8>, text: Seq<u8>) -> Seq<u8>
    decreases text.len(),
{
    if text.len() == 0 {
        done
    } else {
        cancel_step(cancel_onto(done, text.drop_last()), text.last())
    }
}

/// What is left of a text when neighbouring commands that undo each other
/// have been removed until none are left.
pub open spec fn cancelled(text: Seq<u8>) -> Seq<u8> {
    cancel_onto(Seq::empty(), text)
}

/// Two texts are equivalent under fusion when they leave the same text once
/// the commands that undo each other are removed.
pub open spec fn fusion_equivalent(a: Seq<u8>, b: Seq<u8>) -> bool {
    cancelled(a) == cancelled(b)
}

/// No byte of a reduced text undoes the byte before it.
pub open spec fn reduced(text: Seq<u8>) -> bool {
    forall|i: int| 0 <= i < text.len() - 1 ==> !undoes(#[trigger] text[i], text[i + 1])
}

proof fn lemma_step_reduced(done: Seq<u8>, c: u8)
    requires
        reduced(done),
    ensures
        reduced(cancel_step(done, c)),
{
    let r = cancel_step(done, c);
    assert forall|i: int| 0 <= i < r.len() - 1 implies !undoes(#[trigger] r[i], r[i + 1]) by {
        if done.len() > 0 && undoes(done.last(), c) {
            assert(r[i] == done[i]);
            assert(r[i + 1] == done[i + 1]);
        } else {
            if i + 1 < done.len() {
                assert(r[i] == done[i]);
                assert(r[i + 1] == done[i + 1]);
            } else {
                assert(r[i] == done.last());
            }
        }
    }
}

proof fn lemma_cancel_reduced(done: Seq<u8>, text: Seq<u8>)
    requires
        reduced(done),
    ensures
        reduced(cancel_onto(done, text)),
    decreases text.len(),
{
    if text.len() > 0 {
        lemma_cancel_reduced(done, text.drop_last());
        lemma_step_reduced(cancel_onto(done, text.drop_last()), text.last());
    }
}

/// A byte and then the byte that undoes it leave a reduced text as it was.
proof fn lemma_step_undo(done: Seq<u8>, c: u8, d: u8)
    requires
        reduced(done),
        undoes(c, d),
    ensures
        cancel_step(cancel_step(done, c), d) == done,
{
    if done.len() > 0 && undoes(done.last(), c) {
        let rest = done.drop_last();
        if rest.len() > 0 {
            assert(rest.last() == done[done.len() - 2]);
            assert(!undoes(done[done.len() - 2], done[done.len() - 2 + 1]));
        }
        assert(done.last() == d);
        assert(rest.push(d) =~= done);
    } else {
        assert(done.push(c).drop_last() =~= done);
    }
}

proof fn lemma_cancel_concat(done: Seq<u8>, a: Seq<u8>, b: Seq<u8>)
    ensures
        cancel_onto(done, a + b) == cancel_onto(cancel_onto(done, a), b),
    decreases b.len(),
{
    if b.len() == 0 {
        assert(a + b =~= a);
    } else {
        lemma_cancel_concat(done, a, b.drop_last());
        assert((a + b).drop_last() =~= a + b.drop_last());
        assert((a + b).last() == b.last());
    }
}

proof fn lemma_cancel_one(done: Seq<u8>, c: u8)
    ensures
        cancel_onto(done, seq![c]) == cancel_step(done, c),
{
    assert(seq![c].drop_last() =~= Seq::<u8>::empty());
    assert(cancel_onto(done, seq![c].drop_last()) == done);
}

/// The direction of a byte within the run of `up` and `down`.
pub open spec fn direction(c: u8, up: u8) -> int {
    if c == up {
        1
    } else {
        -1
    }
}

/// A run followed by one more byte of its kind reduces as the run of the
/// new sum.
proof fn lemma_run_step(done: Seq<u8>, n: int, c: u8, up: u8, down: u8)
    requires
        reduced(done),
        undoes(up, down),
        c == up || c == down,
    ensures
        cancel_onto(done, run_text(n, up, down).push(c)) == cancel_onto(
            done,
            run_text(n + direction(c, up), up, down),
        ),
{
    let run = run_text(n, up, down);
    let next = run_text(n + direction(c, up), up, down);
    if (n >= 0 && c == up) || (n <= 0 && c == down) {
        assert(run.push(c) =~= next);
    } else {
        // The byte undoes the last byte of the run.
        assert(next.len() + 1 == run.len());
        let last = run.last();
        assert(next.push(last) =~= run);
        assert(undoes(last, c));
        let base = cancel_onto(done, next);
        lemma_cancel_reduced(done, next);
        assert(run.push(c).drop_last() =~= run);
        assert(run.drop_last() =~= next);
        assert(cancel_onto(done, run) == cancel_step(base, last));
        assert(cancel_onto(done, run.push(c)) == cancel_step(cancel_onto(done, run), c));
        lemma_step_undo(base, last, c);
    }
}

proof fn lemma_unparse_push(ast: Seq<SpecAST>, node: SpecAST)
    ensures
        unparse(ast.push(node)) == unparse(ast) + unparse_node(node),
{
    assert(ast.push(node).drop_last() =~= ast);
}

/// The text that the state of the parser stands for: the nodes read so far
/// and the pending run.
pub open spec fn state_text(shift: i32, add: i32, out: Seq<SpecAST>) -> Seq<u8> {
    unparse(out) + run_text(shift as int, RIGHT, LEFT) + run_text(add as int, PLUS, MINUS)
}

proof fn lemma_flush_all_text(shift: i32, add: i32, out: Seq<SpecAST>)
    requires
        shift == 0 || add == 0,
    ensures
        unparse(flush_all(shift, add, out)) =~= state_text(shift, add, out),
{
    if shift != 0 {
        lemma_unparse_push(out, SpecAST::Shift(shift));
    } else if add != 0 {
        lemma_unparse_push(out, SpecAST::Add(add));
    }
}

proof fn lemma_flush_before_text(c: u8, shift: i32, add: i32, out: Seq<SpecAST>)
    requires
        shift == 0 || add == 0,
    ensures
        ({
            let (s, a, o) = flush_before(c, shift, add, out);
            &&& state_text(s, a, o) =~= state_text(shift, add, out)
            &&& (s == 0 || a == 0)
            &&& (s == shift || s == 0)
            &&& (a == add || a == 0)
            &&& (!is_shift_byte(c) ==> s == 0)
            &&& (!is_add_byte(c) ==> a == 0)
        }),
{
    if shift != 0 && !is_shift_byte(c) {
        lemma_unparse_push(out, SpecAST::Shift(shift));
    } else if add != 0 && !is_add_byte(c) {
        lemma_unparse_push(out, SpecAST::Add(add));
    }
}

/// The state of the parser after one byte that is no bracket.
pub open spec fn advance(c: u8, shift: i32, add: i32, out: Seq<SpecAST>) -> (
    i32,
    i32,
    Seq<SpecAST>,
) {
    if c == PLUS {
        (shift, add.wrapping_add(1), out)
    } else if c == MINUS {
        (shift, add.wrapping_sub(1), out)
    } else if c == RIGHT {
        (shift.wrapping_add(1), add, out)
    } else if c == LEFT {
        (shift.wrapping_sub(1), add, out)
    } else if c == COMMA {
        (shift, add, out.push(SpecAST::Input))
    } else if c == DOT {
        (shift, add, out.push(SpecAST::Output))
    } else {
        (shift, add, out)
    }
}

/// After a byte that is no bracket, the state stands for a text that reduces
/// as the text of the state before, followed by the byte.
proof fn lemma_advance_text(done: Seq<u8>, c: u8, shift: i32, add: i32, out: Seq<SpecAST>)
    requires
        reduced(done),
        is_command(c),
        c != OPEN,
        c != CLOSE,
        shift == 0 || add == 0,
        !is_shift_byte(c) ==> shift == 0,
        !is_add_byte(c) ==> add == 0,
        i32::MIN < shift < i32::MAX,
        i32::MIN < add < i32::MAX,
    ensures
        ({
            let (s2, a2, o2) = advance(c, shift, add, out);
            cancel_onto(done, state_text(s2, a2, o2)) == cancel_step(
                cancel_onto(done, state_text(shift, add, out)),
                c,
            )
        }),
{
    let (s2, a2, o2) = advance(c, shift, add, out);
    let before = cancel_onto(done, unparse(out));
    let text = state_text(shift, add, out);
    lemma_cancel_reduced(done, unparse(out));
    assert(run_text(0, RIGHT, LEFT) =~= Seq::<u8>::empty());
    assert(run_text(0, PLUS, MINUS) =~= Seq::<u8>::empty());
    if c == PLUS || c == MINUS {
        let run = run_text(add as int, PLUS, MINUS);
        let run2 = run_text(a2 as int, PLUS, MINUS);
        assert(a2 == add + direction(c, PLUS));
        lemma_run_step(before, add as int, c, PLUS, MINUS);
        assert(text =~= unparse(out) + run);
        assert(state_text(s2, a2, o2) =~= unparse(out) + run2);
        lemma_cancel_concat(done, unparse(out), run2);
        lemma_cancel_concat(done, unparse(out), run.push(c));
        assert(unparse(out) + run.push(c) =~= text.push(c));
    } else if c == RIGHT || c == LEFT {
        let run = run_text(shift as int, RIGHT, LEFT);
        let run2 = run_text(s2 as int, RIGHT, LEFT);
        assert(s2 == shift + direction(c, RIGHT));
        lemma_run_step(before, shift as int, c, RIGHT, LEFT);
        assert(text =~= unparse(out) + run);
        assert(state_text(s2, a2, o2) =~= unparse(out) + run2);
        lemma_cancel_concat(done, unparse(out), run2);
        lemma_cancel_concat(done, unparse(out), run.push(c));
        assert(unparse(out) + run.push(c) =~= text.push(c));
    } else {
        if c == COMMA {
            lemma_unparse_push(out, SpecAST::Input);
        } else {
            lemma_unparse_push(out, SpecAST::Output);
        }
        assert(state_text(s2, a2, o2) =~= text.push(c));
    }
    assert(cancel_onto(done, state_text(s2, a2, o2)) == cancel_onto(done, text.push(c)));
    assert(text.push(c).drop_last() =~= text);
}

/// Two loops whose bodies reduce alike reduce alike.
proof fn lemma_loop_text(base: Seq<u8>, body: Seq<u8>, inner: Seq<u8>)
    requires
        cancel_onto(cancel_step(base, OPEN), body) == cancel_onto(cancel_step(base, OPEN), inner),
    ensures
        cancel_onto(base, seq![OPEN] + body + seq![CLOSE]) == cancel_onto(
            base,
            seq![OPEN] + inner + seq![CLOSE],
        ),
{
    let opened = cancel_step(base, OPEN);
    lemma_cancel_one(base, OPEN);
    lemma_cancel_concat(base, seq![OPEN] + body, seq![CLOSE]);
    lemma_cancel_concat(base, seq![OPEN], body);
    lemma_cancel_concat(base, seq![OPEN] + inner, seq![CLOSE]);
    lemma_cancel_concat(base, seq![OPEN], inner);
}

/// Where the content of a block ends: before its closing bracket, or at the
/// end of the text for the outermost block.
pub open spec fn content_end(level: nat, after: int) -> int {
    if level > 0 {
        after - 1
    } else {
        after
    }
}

/// With balanced brackets the block parses, and what it yields reduces as
/// the text that it was read from.
#[verifier::rlimit(40)]
proof fn lemma_block_roundtrip(
    code: Seq<u8>,
    i: int,
    start: int,
    level: nat,
    shift: i32,
    add: i32,
    out: Seq<SpecAST>,
    done: Seq<u8>,
)
    requires
        only_commands(code),
        code.len() <= i32::MAX,
        0 <= i <= code.len(),
        balanced_from(code, i, level),
        shift == 0 || add == 0,
        -i <= shift <= i,
        -i <= add <= i,
        reduced(done),
    ensures
        ({
            let (r, after) = parse_block(code, i, start, level, shift, add, out);
            &&& r is Ok
            &&& i <= content_end(level, after) <= after <= code.len()
            &&& level == 0 ==> after == code.len()
            &&& level > 0 ==> code[after - 1] == CLOSE && balanced_from(
                code,
                after,
                (level - 1) as nat,
            )
            &&& cancel_onto(done, unparse(r->Ok_0)) == cancel_onto(
                cancel_onto(done, state_text(shift, add, out)),
                code.subrange(i, content_end(level, after)),
            )
        }),
    decreases code.len() - i,
{
    let (r, after) = parse_block(code, i, start, level, shift, add, out);
    let base = cancel_onto(done, state_text(shift, add, out));
    if i >= code.len() {
        lemma_flush_all_text(shift, add, out);
        assert(code.subrange(i, after) =~= Seq::<u8>::empty());
    } else {
        let c = code[i];
        assert(is_command(c));
        lemma_flush_before_text(c, shift, add, out);
        let (s1, a1, o1) = flush_before(c, shift, add, out);
        lemma_cancel_reduced(done, state_text(shift, add, out));
        if c == CLOSE {
            lemma_flush_all_text(s1, a1, o1);
            assert(code.subrange(i, i) =~= Seq::<u8>::empty());
        } else if c == OPEN {
            let (body, j) = parse_block(code, i + 1, i, level + 1, 0, 0, Seq::empty());
            let opened = cancel_step(base, OPEN);
            lemma_step_reduced(base, OPEN);
            lemma_block_roundtrip(code, i + 1, i, level + 1, 0, 0, Seq::empty(), opened);
            let b = body->Ok_0;
            let o2 = o1.push(SpecAST::Loop(b));
            lemma_block_roundtrip(code, j, start, level, s1, a1, o2, done);
            let end = content_end(level, after);
            let inner_text = code.subrange(i + 1, j - 1);
            let seg = code.subrange(i, j);
            assert(state_text(0, 0, Seq::empty()) =~= Seq::<u8>::empty());
            assert(cancel_onto(opened, Seq::<u8>::empty()) == opened);
            lemma_loop_text(base, unparse(b), inner_text);
            // The text of the new state is the old text and the loop.
            lemma_unparse_push(o1, SpecAST::Loop(b));
            assert(state_text(s1, a1, o2) =~= state_text(shift, add, out) + (seq![OPEN] + unparse(
                b,
            ) + seq![CLOSE]));
            lemma_cancel_concat(
                done,
                state_text(shift, add, out),
                seq![OPEN] + unparse(b) + seq![CLOSE],
            );
            assert(seg =~= seq![OPEN] + inner_text + seq![CLOSE]);
            assert(cancel_onto(done, state_text(s1, a1, o2)) == cancel_onto(base, seg));
            assert(code.subrange(i, end) =~= seg + code.subrange(j, end));
            lemma_cancel_concat(base, seg, code.subrange(j, end));
        } else {
            let (s2, a2, o2) = advance(c, s1, a1, o1);
            assert(parse_block(code, i, start, level, shift, add, out) == parse_block(
                code,
                i + 1,
                start,
                level,
                s2,
                a2,
                o2,
            ));
            lemma_block_roundtrip(code, i + 1, start, level, s2, a2, o2, done);
            lemma_advance_text(done, c, s1, a1, o1);
            let end = content_end(level, after);
            assert(code.subrange(i, end) =~= seq![c] + code.subrange(i + 1, end));
            lemma_cancel_concat(base, seq![c], code.subrange(i + 1, end));
            lemma_cancel_one(base, c);
        }
    }
}

/// A text of commands with balanced brackets parses, and the tree written
/// back as text is equivalent to it under fusion. The text is shorter than
/// 2^31 bytes, so that no run wraps.
pub proof fn lemma_parse_unparse(code: Seq<u8>)
    requires
        only_commands(code),
        balanced(code),
        code.len() <= i32::MAX,
    ensures
        parse_spec(code) is Ok,
        fusion_equivalent(unparse(parse_spec(code)->Ok_0), code),
{
    lemma_block_roundtrip(code, 0, 0, 0, 0, 0, Seq::empty(), Seq::empty());
    assert(state_text(0, 0, Seq::empty()) =~= Seq::<u8>::empty());
    assert(cancel_onto(Seq::empty(), Seq::<u8>::empty()) == Seq::<u8>::empty());
    assert(code.subrange(0, code.len() as int) =~= code);
}

} // verus!
