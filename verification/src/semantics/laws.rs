//! What the optimizers keep of the behaviour of a program.

use vstd::prelude::*;
use crate::lir::{strbuf, SpecLIR};
use crate::optimizer::laws::{lemma_simple_add_well_formed, lemma_simple_well_formed};
use crate::optimizer::new::new_lir;
use crate::optimizer::new::optimize_expr::{lemma_block_result_weight, new_ir};
use crate::optimizer::peephole::measure::{lemma_optimized, lemma_pass_tokens};
use crate::optimizer::peephole::old_lir;
use crate::optimizer::peephole::optimize::{optimized, pass_tokens, settled};
use crate::optimizer::peephole::token::{
    lemma_tokens_of_size, lemma_tokens_of_well_formed, token_count, tokens_of, well_formed,
    SpecToken,
};
use crate::optimizer::simple::simple_lir;
use crate::optimizer::{Optimizer, OptimizerKind};
use crate::optimizer::simple_add::{gathered_ir, simple_add_lir};
use crate::parser::{ast_size, SpecAST, MAX_AST_NODES};
use crate::semantics::gathering::{cell_sound, lemma_block_sim, lemma_sem_one};
use crate::semantics::graph::blocks::{lemma_new_ir_keeps_output, loops_pure};
use crate::semantics::peephole::closedness::lemma_pass_closed;
use crate::semantics::graph::emitting::lemma_lowered_sim;
use crate::semantics::peephole::lowering::{closed, lemma_compiled_sim, lemma_tokens_of_closed};
use crate::semantics::peephole::passes::byte_modulus;
use crate::semantics::peephole::pending::{tcell_sound, tsound};
use crate::semantics::peephole::rewriting::lemma_pass_keeps_output;
use crate::semantics::graph::safety::lemma_result_safe;
use crate::semantics::machine::{
    cell_modulus, ends_within, fed_within, initial, lemma_run_more, output_after, run,
};
use crate::semantics::programs::{
    lemma_sem_concat, lemma_simple_add_program, lemma_simple_program, simple_add_program,
    simple_items, simple_program, steps_items,
};
use crate::semantics::structured::{embeds, flat, items_ok, lemma_sem_run, sem, Item};
use crate::semantics::peephole::tokenize::lemma_tokens_sim;
use crate::semantics::peephole::tokens::{start, tsem, TokenState};
use crate::wellformed::labels_unique;

verus! {

/// An instruction list that has ended has done what its structured program
/// says.
pub proof fn lemma_ended_program(
    lir: Seq<SpecLIR>,
    items: Seq<Item>,
    input: Seq<u8>,
    modulus: int,
    steps: nat,
)
    requires
        flat(items) == lir,
        items_ok(items),
        labels_unique(lir),
        ends_within(lir, input, modulus, steps),
    ensures
        sem(items, initial(input), modulus, steps) is Some,
        sem(items, initial(input), modulus, steps)->Some_0.0 == run(
            lir,
            0,
            initial(input),
            modulus,
            steps,
        ).1,
{
    let m0 = initial(input);
    assert(embeds(lir, 0, lir));
    lemma_sem_run(lir, 0, items, m0, modulus, steps);
    let (m1, rest) = sem(items, m0, modulus, steps)->Some_0;
    lemma_run_more(lir, 0, m0, modulus, (steps - rest) as nat, steps);
}

/// An instruction list whose structured program ends within some steps
/// ends within those steps, and has done what the program says.
pub proof fn lemma_program_ends(
    lir: Seq<SpecLIR>,
    items: Seq<Item>,
    input: Seq<u8>,
    modulus: int,
    steps: nat,
)
    requires
        flat(items) == lir,
        items_ok(items),
        labels_unique(lir),
        sem(items, initial(input), modulus, steps) is Some,
    ensures
        ends_within(lir, input, modulus, steps),
        output_after(lir, input, modulus, steps) == sem(
            items,
            initial(input),
            modulus,
            steps,
        )->Some_0.0.output,
{
    let m0 = initial(input);
    assert(embeds(lir, 0, lir));
    lemma_sem_run(lir, 0, items, m0, modulus, steps);
    let (m1, rest) = sem(items, m0, modulus, steps)->Some_0;
    lemma_run_more(lir, 0, m0, modulus, (steps - rest) as nat, steps);
}

/// Once an instruction list has ended, what it has written does not change.
pub proof fn lemma_output_settled(
    lir: Seq<SpecLIR>,
    input: Seq<u8>,
    modulus: int,
    a: nat,
    b: nat,
)
    requires
        ends_within(lir, input, modulus, a),
        ends_within(lir, input, modulus, b),
    ensures
        output_after(lir, input, modulus, a) == output_after(lir, input, modulus, b),
{
    if a <= b {
        lemma_run_more(lir, 0, initial(input), modulus, a, b);
    } else {
        lemma_run_more(lir, 0, initial(input), modulus, b, a);
    }
}

/// The gathering optimizer ends where the baseline ends, with the same
/// output: on a machine with cells of at most 32 bits, where the baseline
/// lowering of a program ends on an input, the lowering of the gathering
/// optimizer ends within the steps that the lemma gives, and has written
/// the same output.
pub proof fn lemma_simple_add_ends(
    ast: Seq<SpecAST>,
    input: Seq<u8>,
    modulus: int,
    steps_simple: nat,
) -> (steps: nat)
    requires
        cell_modulus(modulus),
        ends_within(simple_lir(ast), input, modulus, steps_simple),
    ensures
        ends_within(simple_add_lir(ast), input, modulus, steps),
        output_after(simple_add_lir(ast), input, modulus, steps) == output_after(
            simple_lir(ast),
            input,
            modulus,
            steps_simple,
        ),
{
    let m0 = initial(input);
    let head = seq![Item::Plain(SpecLIR::DeclareBssBuf(strbuf(), 1))];
    lemma_simple_program(ast);
    lemma_simple_well_formed(ast);
    lemma_ended_program(simple_lir(ast), simple_program(ast), input, modulus, steps_simple);
    // The baseline program: the declaration, then the commands.
    lemma_sem_concat(head, simple_items(ast, 0), m0, modulus, steps_simple);
    lemma_sem_one(head[0], m0, modulus, steps_simple);
    assert forall|a: i32| cell_sound(m0, a, modulus) by {}
    let fuel = (steps_simple - 1) as nat;
    let fx = lemma_block_sim(ast, 0, 0, m0, modulus, fuel);
    // The gathered program: the declaration, then the gathered commands.
    lemma_sem_concat(head, steps_items(gathered_ir(ast), 0), m0, modulus, 1 + fx);
    lemma_sem_one(head[0], m0, modulus, 1 + fx);
    lemma_simple_add_program(ast);
    lemma_simple_add_well_formed(ast);
    lemma_program_ends(simple_add_lir(ast), simple_add_program(ast), input, modulus, 1 + fx);
    1 + fx
}

/// The gathering optimizer keeps the behaviour of a program: on a machine
/// with cells of at most 32 bits, where the baseline lowering of a program
/// and the lowering of the gathering optimizer both end on an input, they
/// have written the same output.
pub proof fn lemma_simple_add_keeps_behaviour(
    ast: Seq<SpecAST>,
    input: Seq<u8>,
    modulus: int,
    steps_simple: nat,
    steps_add: nat,
)
    requires
        cell_modulus(modulus),
        ends_within(simple_lir(ast), input, modulus, steps_simple),
        ends_within(simple_add_lir(ast), input, modulus, steps_add),
    ensures
        output_after(simple_add_lir(ast), input, modulus, steps_add) == output_after(
            simple_lir(ast),
            input,
            modulus,
            steps_simple,
        ),
{
    let steps = lemma_simple_add_ends(ast, input, modulus, steps_simple);
    lemma_output_settled(simple_add_lir(ast), input, modulus, steps_add, steps);
}

/// The token form of a program means what the baseline lowering does:
/// where that lowering ends on an input with no read starved, the tokens
/// end, within the fuel that the lemma gives, and have written the same
/// output.
pub proof fn lemma_tokens_end(
    ast: Seq<SpecAST>,
    input: Seq<u8>,
    modulus: int,
    steps: nat,
) -> (fuel: nat)
    requires
        modulus > 0,
        ends_within(simple_lir(ast), input, modulus, steps),
        fed_within(simple_lir(ast), input, modulus, steps),
    ensures
        tsem(tokens_of(ast), start(input), modulus, fuel) is Some,
        tsem(tokens_of(ast), start(input), modulus, fuel)->Some_0.output == output_after(
            simple_lir(ast),
            input,
            modulus,
            steps,
        ),
{
    let m0 = initial(input);
    let ts0 = start(input);
    let head = seq![Item::Plain(SpecLIR::DeclareBssBuf(strbuf(), 1))];
    lemma_simple_program(ast);
    lemma_simple_well_formed(ast);
    lemma_ended_program(simple_lir(ast), simple_program(ast), input, modulus, steps);
    lemma_sem_concat(head, simple_items(ast, 0), m0, modulus, steps);
    lemma_sem_one(head[0], m0, modulus, steps);
    assert forall|a: i32| cell_sound(m0, a, modulus) by {}
    assert(ts0.tape =~= m0.tape);
    lemma_tokens_sim(ast, 0, m0, ts0, modulus, (steps - 1) as nat)
}

/// Repeated passes keep what a closed token sequence writes, and keep it
/// closed.
pub proof fn lemma_settled_keeps_output(
    previous: Seq<SpecToken>,
    current: Seq<SpecToken>,
    rounds: nat,
    s: TokenState,
    modulus: int,
    fuel: nat,
) -> (fx: nat)
    requires
        byte_modulus(modulus),
        closed(current),
        well_formed(current),
        tsound(s, modulus),
        s.buffer.len() == 0,
        tsem(current, s, modulus, fuel) is Some,
    ensures
        closed(settled(previous, current, rounds)),
        tsem(settled(previous, current, rounds), s, modulus, fx) is Some,
        tsem(settled(previous, current, rounds), s, modulus, fx)->Some_0.output == tsem(
            current,
            s,
            modulus,
            fuel,
        )->Some_0.output,
    decreases rounds,
{
    if rounds == 0 || current == previous {
        fuel
    } else {
        let next = pass_tokens(current);
        let f1 = lemma_pass_keeps_output(current, s, modulus, fuel);
        lemma_pass_closed(current);
        lemma_pass_tokens(current);
        lemma_settled_keeps_output(current, next, (rounds - 1) as nat, s, modulus, f1)
    }
}

/// The optimized form of a closed token sequence writes what the sequence
/// writes, and is closed.
pub proof fn lemma_optimized_keeps_output(
    tokens: Seq<SpecToken>,
    s: TokenState,
    modulus: int,
    fuel: nat,
) -> (fx: nat)
    requires
        byte_modulus(modulus),
        closed(tokens),
        well_formed(tokens),
        tsound(s, modulus),
        s.buffer.len() == 0,
        tsem(tokens, s, modulus, fuel) is Some,
    ensures
        closed(optimized(tokens)),
        tsem(optimized(tokens), s, modulus, fx) is Some,
        tsem(optimized(tokens), s, modulus, fx)->Some_0.output == tsem(
            tokens,
            s,
            modulus,
            fuel,
        )->Some_0.output,
{
    let once = pass_tokens(tokens);
    let twice = pass_tokens(once);
    let f1 = lemma_pass_keeps_output(tokens, s, modulus, fuel);
    lemma_pass_closed(tokens);
    lemma_pass_tokens(tokens);
    let f2 = lemma_pass_keeps_output(once, s, modulus, f1);
    lemma_pass_closed(once);
    lemma_pass_tokens(once);
    lemma_settled_keeps_output(once, twice, token_count(tokens), s, modulus, f2)
}

/// The peephole optimizer ends where the baseline ends, with the same
/// output: on a machine with cells of 8 to 32 bits, where the baseline
/// lowering of a program of at most `MAX_AST_NODES` nodes ends on an input
/// with no read starved, the lowering of the peephole optimizer ends
/// within the steps that the lemma gives, and has written the same output.
pub proof fn lemma_old_ends(
    ast: Seq<SpecAST>,
    level: u32,
    input: Seq<u8>,
    modulus: int,
    steps_simple: nat,
) -> (steps: nat)
    requires
        byte_modulus(modulus),
        ast_size(ast) <= MAX_AST_NODES,
        ends_within(simple_lir(ast), input, modulus, steps_simple),
        fed_within(simple_lir(ast), input, modulus, steps_simple),
    ensures
        ends_within(old_lir(ast, level), input, modulus, steps),
        output_after(old_lir(ast, level), input, modulus, steps) == output_after(
            simple_lir(ast),
            input,
            modulus,
            steps_simple,
        ),
{
    if level == 0 {
        steps_simple
    } else {
        let tokens = tokens_of(ast);
        let s = start(input);
        let fuel = lemma_tokens_end(ast, input, modulus, steps_simple);
        lemma_tokens_of_closed(ast);
        lemma_tokens_of_size(ast);
        lemma_tokens_of_well_formed(ast);
        assert forall|a: i32| tcell_sound(s, a, modulus) by {}
        let fx = lemma_optimized_keeps_output(tokens, s, modulus, fuel);
        lemma_optimized(tokens);
        lemma_compiled_sim(optimized(tokens), input, modulus, fx)
    }
}

/// The peephole optimizer keeps the behaviour of a program: on a machine
/// with cells of 8 to 32 bits, where the baseline lowering of a
/// program of at most `MAX_AST_NODES` nodes ends on an input with no read
/// starved, and the lowering of the peephole optimizer ends, they have
/// written the same output.
pub proof fn lemma_old_keeps_behaviour(
    ast: Seq<SpecAST>,
    level: u32,
    input: Seq<u8>,
    modulus: int,
    steps_simple: nat,
    steps_old: nat,
)
    requires
        byte_modulus(modulus),
        ast_size(ast) <= MAX_AST_NODES,
        ends_within(simple_lir(ast), input, modulus, steps_simple),
        fed_within(simple_lir(ast), input, modulus, steps_simple),
        ends_within(old_lir(ast, level), input, modulus, steps_old),
    ensures
        output_after(old_lir(ast, level), input, modulus, steps_old) == output_after(
            simple_lir(ast),
            input,
            modulus,
            steps_simple,
        ),
{
    let steps = lemma_old_ends(ast, level, input, modulus, steps_simple);
    lemma_output_settled(old_lir(ast, level), input, modulus, steps_old, steps);
}

/// The graph-based optimizer ends where the baseline ends, with the same
/// output, on a program in which no flat loop sets a cell to a constant:
/// on a machine with cells of 8 to 32 bits, where the baseline lowering of
/// such a program of at most `MAX_AST_NODES` nodes ends on an input with no
/// read starved, the lowering of the graph-based optimizer ends within the
/// steps that the lemma gives, and has written the same output.
pub proof fn lemma_new_ends(
    ast: Seq<SpecAST>,
    level: u32,
    input: Seq<u8>,
    modulus: int,
    steps_simple: nat,
) -> (steps: nat)
    requires
        byte_modulus(modulus),
        ast_size(ast) <= MAX_AST_NODES,
        loops_pure(ast),
        ends_within(simple_lir(ast), input, modulus, steps_simple),
        fed_within(simple_lir(ast), input, modulus, steps_simple),
    ensures
        ends_within(new_lir(ast, level), input, modulus, steps),
        output_after(new_lir(ast, level), input, modulus, steps) == output_after(
            simple_lir(ast),
            input,
            modulus,
            steps_simple,
        ),
{
    if level == 0 {
        steps_simple
    } else {
        let s = start(input);
        let fuel = lemma_tokens_end(ast, input, modulus, steps_simple);
        assert forall|a: i32| tcell_sound(s, a, modulus) by {}
        let fx = lemma_new_ir_keeps_output(ast, s, modulus, fuel);
        lemma_result_safe(ast, true);
        lemma_block_result_weight(ast, true);
        lemma_lowered_sim(new_ir(ast), input, modulus, fx)
    }
}

/// The graph-based optimizer keeps the behaviour of a program in which no
/// flat loop sets a cell to a constant: on a machine with cells of 8 to 32
/// bits, where the baseline lowering of such a program of at most
/// `MAX_AST_NODES` nodes ends on an input with no read starved, and the
/// lowering of the graph-based optimizer ends, they have written the same
/// output.
pub proof fn lemma_new_keeps_behaviour(
    ast: Seq<SpecAST>,
    level: u32,
    input: Seq<u8>,
    modulus: int,
    steps_simple: nat,
    steps_new: nat,
)
    requires
        byte_modulus(modulus),
        ast_size(ast) <= MAX_AST_NODES,
        loops_pure(ast),
        ends_within(simple_lir(ast), input, modulus, steps_simple),
        fed_within(simple_lir(ast), input, modulus, steps_simple),
        ends_within(new_lir(ast, level), input, modulus, steps_new),
    ensures
        output_after(new_lir(ast, level), input, modulus, steps_new) == output_after(
            simple_lir(ast),
            input,
            modulus,
            steps_simple,
        ),
{
    let steps = lemma_new_ends(ast, level, input, modulus, steps_simple);
    lemma_output_settled(new_lir(ast, level), input, modulus, steps_new, steps);
}

/// No optimizer makes a program run on: on a machine with cells of 8 to
/// 32 bits, where the baseline lowering of a program of at most
/// `MAX_AST_NODES` nodes ends on an input with no read starved, the
/// lowering of an optimizer at any level ends within the steps that the
/// lemma gives, and has written the same output. For the graph-based
/// optimizer this is stated of programs in which no flat loop sets a cell
/// to a constant.
pub proof fn lemma_optimizer_ends(
    kind: OptimizerKind,
    ast: Seq<SpecAST>,
    level: u32,
    input: Seq<u8>,
    modulus: int,
    steps_simple: nat,
) -> (steps: nat)
    requires
        byte_modulus(modulus),
        ast_size(ast) <= MAX_AST_NODES,
        kind is New ==> loops_pure(ast),
        ends_within(simple_lir(ast), input, modulus, steps_simple),
        fed_within(simple_lir(ast), input, modulus, steps_simple),
    ensures
        ends_within(kind.lir_of(ast, level), input, modulus, steps),
        output_after(kind.lir_of(ast, level), input, modulus, steps) == output_after(
            simple_lir(ast),
            input,
            modulus,
            steps_simple,
        ),
{
    match kind {
        OptimizerKind::Simple => steps_simple,
        OptimizerKind::SimpleAdd => if level == 0 {
            steps_simple
        } else {
            lemma_simple_add_ends(ast, input, modulus, steps_simple)
        },
        OptimizerKind::Old => lemma_old_ends(ast, level, input, modulus, steps_simple),
        OptimizerKind::New => lemma_new_ends(ast, level, input, modulus, steps_simple),
    }
}

/// Every optimizer keeps the behaviour of a program: on a machine with
/// cells of 8 to 32 bits, where the baseline lowering of a program of
/// at most `MAX_AST_NODES` nodes ends on an input with no read starved,
/// and the lowering of an optimizer at any level ends, they have written
/// the same output. For the graph-based optimizer this is stated of
/// programs in which no flat loop sets a cell to a constant.
pub proof fn lemma_optimizer_keeps_behaviour(
    kind: OptimizerKind,
    ast: Seq<SpecAST>,
    level: u32,
    input: Seq<u8>,
    modulus: int,
    steps_simple: nat,
    steps_optimized: nat,
)
    requires
        byte_modulus(modulus),
        ast_size(ast) <= MAX_AST_NODES,
        kind is New ==> loops_pure(ast),
        ends_within(simple_lir(ast), input, modulus, steps_simple),
        fed_within(simple_lir(ast), input, modulus, steps_simple),
        ends_within(kind.lir_of(ast, level), input, modulus, steps_optimized),
    ensures
        output_after(kind.lir_of(ast, level), input, modulus, steps_optimized) == output_after(
            simple_lir(ast),
            input,
            modulus,
            steps_simple,
        ),
{
    let steps = lemma_optimizer_ends(kind, ast, level, input, modulus, steps_simple);
    lemma_output_settled(kind.lir_of(ast, level), input, modulus, steps_optimized, steps);
}

} // verus!
