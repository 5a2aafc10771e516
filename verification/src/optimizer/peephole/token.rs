//! The token form that the peephole optimizer rewrites.

use vstd::prelude::*;
use crate::parser::{ast_size, lemma_loop_view, SpecAST, AST};

verus! {

/// One step of the token form. Offsets are relative to the data pointer at
/// the token's position.
#[derive(Debug, PartialEq, Eq)]
pub enum Token {
    /// Writes the output buffer to standard output and empties it.
    Output,
    /// Reads one byte from standard input to the current cell.
    Input,
    /// Runs the body while the current cell is not zero.
    Loop(Vec<Token>),
    /// Moves the data pointer by a number of cells.
    Move(i32),
    /// `Add(offset, value)` adds `value` to the cell at `offset`.
    Add(i32, i32),
    /// `Assign(offset, value)` sets the cell at `offset` to `value`.
    Assign(i32, i32),
    /// `MulCopy(src, dest, mul)` adds `mul` times the cell at `src` to the
    /// cell at `dest`.
    MulCopy(i32, i32, i32),
    /// `Scan(step)` moves the data pointer by `step` while the current cell
    /// is not zero.
    Scan(i32),
    /// `LoadOut(offset, add)` appends the cell at `offset` plus `add` to the
    /// output buffer.
    LoadOut(i32, i32),
    /// `LoadOutSet(value)` appends a constant to the output buffer.
    LoadOutSet(i32),
    /// `If(offset, body)` runs the body once if the cell at `offset` is not
    /// zero. The body holds `Assign` and `MulCopy` tokens only.
    If(i32, Vec<Token>),
}

/// The mathematical value of a [`Token`]: a body is a sequence.
pub enum SpecToken {
    Output,
    Input,
    Loop(Seq<SpecToken>),
    Move(i32),
    Add(i32, i32),
    Assign(i32, i32),
    MulCopy(i32, i32, i32),
    Scan(i32),
    LoadOut(i32, i32),
    LoadOutSet(i32),
    If(i32, Seq<SpecToken>),
}

/// The value of a token.
pub open spec fn token_view(token: Token) -> SpecToken
    decreases token,
{
    match token {
        Token::Output => SpecToken::Output,
        Token::Input => SpecToken::Input,
        Token::Loop(body) => SpecToken::Loop(
            Seq::new(
                body@.len(),
                |i: int|
                    if 0 <= i < body@.len() {
                        token_view(body@[i])
                    } else {
                        SpecToken::Output
                    },
            ),
        ),
        Token::Move(k) => SpecToken::Move(k),
        Token::Add(o, v) => SpecToken::Add(o, v),
        Token::Assign(o, v) => SpecToken::Assign(o, v),
        Token::MulCopy(s, d, m) => SpecToken::MulCopy(s, d, m),
        Token::Scan(k) => SpecToken::Scan(k),
        Token::LoadOut(o, a) => SpecToken::LoadOut(o, a),
        Token::LoadOutSet(v) => SpecToken::LoadOutSet(v),
        Token::If(o, body) => SpecToken::If(
            o,
            Seq::new(
                body@.len(),
                |i: int|
                    if 0 <= i < body@.len() {
                        token_view(body@[i])
                    } else {
                        SpecToken::Output
                    },
            ),
        ),
    }
}

impl DeepView for Token {
    type V = SpecToken;

    open spec fn deep_view(&self) -> SpecToken {
        token_view(*self)
    }
}

pub proof fn lemma_loop_token_view(body: Vec<Token>)
    ensures
        Token::Loop(body).deep_view() == SpecToken::Loop(body.deep_view()),
{
    let t = Token::Loop(body);
    assert(t.deep_view()->Loop_0 =~= body.deep_view());
}

pub proof fn lemma_if_token_view(offset: i32, body: Vec<Token>)
    ensures
        Token::If(offset, body).deep_view() == SpecToken::If(offset, body.deep_view()),
{
    let t = Token::If(offset, body);
    assert(t.deep_view()->If_1 =~= body.deep_view());
}

/// Appends a token.
pub fn push_token(tokens: &mut Vec<Token>, token: Token)
    ensures
        final(tokens).deep_view() == old(tokens).deep_view().push(token.deep_view()),
{
    tokens.push(token);
    assert(tokens.deep_view() =~= old(tokens).deep_view().push(token.deep_view()));
}

/// The number of tokens of a sequence, bodies included.
pub open spec fn token_count(tokens: Seq<SpecToken>) -> nat
    decreases tokens,
{
    if tokens.len() == 0 {
        0
    } else {
        token_count(tokens.drop_last()) + 1 + match tokens.last() {
            SpecToken::Loop(body) => token_count(body),
            SpecToken::If(_, body) => token_count(body),
            _ => 0,
        }
    }
}

/// Whether a token may stand in the body of an `If`.
pub open spec fn is_guarded_token(token: SpecToken) -> bool {
    token is Assign || token is MulCopy
}

/// Whether every `If` of a sequence, at any depth, holds `Assign` and `MulCopy`
/// tokens only.
pub open spec fn well_formed(tokens: Seq<SpecToken>) -> bool
    decreases tokens,
{
    tokens.len() == 0 || (well_formed(tokens.drop_last()) && match tokens.last() {
        SpecToken::Loop(body) => well_formed(body),
        SpecToken::If(_, body) => forall|j: int|
            0 <= j < body.len() ==> is_guarded_token(#[trigger] body[j]),
        _ => true,
    })
}

/// The tokens of a sequence of commands.
pub open spec fn tokens_of(ast: Seq<SpecAST>) -> Seq<SpecToken>
    decreases ast, 1nat,
{
    if ast.len() == 0 {
        Seq::empty()
    } else {
        tokens_of(ast.drop_last()) + tokens_of_node(ast.last())
    }
}

/// The tokens of one command: an output loads the current cell into the
/// output buffer and writes the buffer; every other command is one token.
pub open spec fn tokens_of_node(node: SpecAST) -> Seq<SpecToken>
    decreases node, 0nat,
{
    match node {
        SpecAST::Output => seq![SpecToken::LoadOut(0, 0), SpecToken::Output],
        SpecAST::Input => seq![SpecToken::Input],
        SpecAST::Loop(body) => seq![SpecToken::Loop(tokens_of(body))],
        SpecAST::Shift(k) => seq![SpecToken::Move(k)],
        SpecAST::Add(k) => seq![SpecToken::Add(0, k)],
    }
}

pub proof fn lemma_well_formed_one(token: SpecToken)
    requires
        match token {
            SpecToken::Loop(body) => well_formed(body),
            SpecToken::If(_, body) => forall|j: int|
                0 <= j < body.len() ==> is_guarded_token(#[trigger] body[j]),
            _ => true,
        },
    ensures
        well_formed(seq![token]),
{
    assert(seq![token].drop_last() =~= Seq::<SpecToken>::empty());
    assert(seq![token].last() == token);
    assert(well_formed(Seq::<SpecToken>::empty()));
}

pub proof fn lemma_well_formed_concat(a: Seq<SpecToken>, b: Seq<SpecToken>)
    requires
        well_formed(a),
        well_formed(b),
    ensures
        well_formed(a + b),
    decreases b.len(),
{
    if b.len() == 0 {
        assert(a + b =~= a);
    } else {
        lemma_well_formed_concat(a, b.drop_last());
        assert((a + b).drop_last() =~= a + b.drop_last());
        assert((a + b).last() == b.last());
    }
}

/// The tokens of a program hold no `If`, so they are well formed.
pub proof fn lemma_tokens_of_well_formed(ast: Seq<SpecAST>)
    ensures
        well_formed(tokens_of(ast)),
    decreases ast,
{
    if ast.len() > 0 {
        lemma_tokens_of_well_formed(ast.drop_last());
        let node = tokens_of_node(ast.last());
        match ast.last() {
            SpecAST::Output => {
                lemma_well_formed_one(SpecToken::LoadOut(0, 0));
                lemma_well_formed_one(SpecToken::Output);
                lemma_well_formed_concat(seq![SpecToken::LoadOut(0, 0)], seq![SpecToken::Output]);
                assert(node =~= seq![SpecToken::LoadOut(0, 0)] + seq![SpecToken::Output]);
            },
            SpecAST::Loop(body) => {
                lemma_tokens_of_well_formed(body);
                lemma_well_formed_one(SpecToken::Loop(tokens_of(body)));
            },
            SpecAST::Input => {
                lemma_well_formed_one(SpecToken::Input);
            },
            SpecAST::Shift(k) => {
                lemma_well_formed_one(SpecToken::Move(k));
            },
            SpecAST::Add(k) => {
                lemma_well_formed_one(SpecToken::Add(0, k));
            },
        }
        lemma_well_formed_concat(tokens_of(ast.drop_last()), node);
    }
}

/// The token form of a program has at most two tokens for each command.
pub proof fn lemma_tokens_of_size(ast: Seq<SpecAST>)
    ensures
        token_count(tokens_of(ast)) <= 2 * ast_size(ast),
    decreases ast,
{
    if ast.len() > 0 {
        lemma_tokens_of_size(ast.drop_last());
        let head = tokens_of(ast.drop_last());
        let node = tokens_of_node(ast.last());
        lemma_token_count_concat(head, node);
        match ast.last() {
            SpecAST::Output => {
                lemma_token_count_one(SpecToken::LoadOut(0, 0));
                lemma_token_count_one(SpecToken::Output);
                lemma_token_count_concat(seq![SpecToken::LoadOut(0, 0)], seq![SpecToken::Output]);
                assert(node =~= seq![SpecToken::LoadOut(0, 0)] + seq![SpecToken::Output]);
            },
            SpecAST::Loop(body) => {
                lemma_tokens_of_size(body);
                lemma_token_count_one(SpecToken::Loop(tokens_of(body)));
            },
            SpecAST::Input => {
                lemma_token_count_one(SpecToken::Input);
            },
            SpecAST::Shift(k) => {
                lemma_token_count_one(SpecToken::Move(k));
            },
            SpecAST::Add(k) => {
                lemma_token_count_one(SpecToken::Add(0, k));
            },
        }
    }
}

/// One token counts itself and the tokens of its body.
pub proof fn lemma_token_count_one(token: SpecToken)
    ensures
        token_count(seq![token]) == 1 + match token {
            SpecToken::Loop(body) => token_count(body),
            SpecToken::If(_, body) => token_count(body),
            _ => 0,
        },
{
    assert(seq![token].drop_last() =~= Seq::<SpecToken>::empty());
    assert(seq![token].last() == token);
    assert(token_count(Seq::<SpecToken>::empty()) == 0);
}

/// The tokens of two sequences together are the tokens of each.
pub proof fn lemma_token_count_concat(a: Seq<SpecToken>, b: Seq<SpecToken>)
    ensures
        token_count(a + b) == token_count(a) + token_count(b),
    decreases b.len(),
{
    if b.len() == 0 {
        assert(a + b =~= a);
    } else {
        lemma_token_count_concat(a, b.drop_last());
        assert((a + b).drop_last() =~= a + b.drop_last());
        assert((a + b).last() == b.last());
    }
}

/// The token form of a program.
pub fn ast_to_tokens(ast: &[AST]) -> (tokens: Vec<Token>)
    ensures
        tokens.deep_view() == tokens_of(ast.deep_view()),
    decreases ast@,
{
    let ghost all = ast.deep_view();
    let mut tokens: Vec<Token> = Vec::new();
    let mut i: usize = 0;
    assert(all.subrange(0, 0) =~= Seq::<SpecAST>::empty());
    assert(tokens.deep_view() =~= Seq::<SpecToken>::empty());
    while i < ast.len()
        invariant
            i <= ast.len(),
            all == ast.deep_view(),
            tokens.deep_view() == tokens_of(all.subrange(0, i as int)),
        decreases ast.len() - i,
    {
        let ghost before = tokens.deep_view();
        let ghost next = all.subrange(0, i + 1);
        let ghost node = ast@[i as int].deep_view();
        proof {
            assert(next.drop_last() =~= all.subrange(0, i as int));
            assert(next.last() == node);
        }
        match &ast[i] {
            AST::Output => {
                tokens.push(Token::LoadOut(0, 0));
                tokens.push(Token::Output);
                assert(node == SpecAST::Output);
                assert(tokens.deep_view() =~= before + tokens_of_node(node));
            },
            AST::Input => {
                tokens.push(Token::Input);
                assert(node == SpecAST::Input);
                assert(tokens.deep_view() =~= before + tokens_of_node(node));
            },
            AST::Loop(inner) => {
                let body = ast_to_tokens(inner.as_slice());
                proof {
                    lemma_loop_view(*inner);
                    lemma_loop_token_view(body);
                }
                tokens.push(Token::Loop(body));
                assert(node == SpecAST::Loop(inner.deep_view()));
                assert(tokens.deep_view() =~= before + tokens_of_node(node));
            },
            AST::Shift(k) => {
                tokens.push(Token::Move(*k));
                assert(node == SpecAST::Shift(*k));
                assert(tokens.deep_view() =~= before + tokens_of_node(node));
            },
            AST::Add(k) => {
                tokens.push(Token::Add(0, *k));
                assert(node == SpecAST::Add(*k));
                assert(tokens.deep_view() =~= before + tokens_of_node(node));
            },
        }
        i = i + 1;
    }
    assert(all.subrange(0, ast.len() as int) =~= all);
    tokens
}

} // verus!
