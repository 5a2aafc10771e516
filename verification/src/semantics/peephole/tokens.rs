//! What a token sequence means: the state that it works on, and the state
//! after it.
//!
//! The loads of output gather in a buffer that an output token writes and
//! empties. A read at the end of the input gives the byte that was read
//! last.

use vstd::prelude::*;
use crate::optimizer::peephole::token::SpecToken;

verus! {

/// The state that tokens work on.
pub struct TokenState {
    /// The cell at each address.
    pub tape: Map<i32, int>,
    /// The address of the current cell.
    pub cursor: i32,
    /// The input that is not read yet.
    pub input: Seq<u8>,
    /// The output so far.
    pub output: Seq<u8>,
    /// The bytes that are loaded and not written yet.
    pub buffer: Seq<u8>,
    /// The byte that was read last.
    pub inbuf: int,
    /// Whether a read has found no input.
    pub starved: bool,
}

/// The state in which a token sequence starts: every cell is zero, and
/// nothing is loaded, read or written.
pub open spec fn start(input: Seq<u8>) -> TokenState {
    TokenState {
        tape: Map::total(|a: i32| 0int),
        cursor: 0,
        input,
        output: Seq::empty(),
        buffer: Seq::empty(),
        inbuf: 0,
        starved: false,
    }
}

/// The cell at an offset from the cursor.
pub open spec fn cell(s: TokenState, offset: i32) -> int {
    s.tape[s.cursor.wrapping_add(offset)]
}

/// The state with a value, taken modulo `modulus`, in the cell at an
/// offset.
pub open spec fn with_cell(s: TokenState, offset: i32, value: int, modulus: int) -> TokenState {
    TokenState { tape: s.tape.insert(s.cursor.wrapping_add(offset), value % modulus), ..s }
}

/// A value as a byte.
pub open spec fn byte(value: int) -> u8 {
    (value % 256) as u8
}

/// The state after a token without a body.
pub open spec fn apply(token: SpecToken, s: TokenState, modulus: int) -> TokenState {
    match token {
        SpecToken::Add(o, v) => with_cell(s, o, cell(s, o) + v, modulus),
        SpecToken::Assign(o, v) => with_cell(s, o, v as int, modulus),
        SpecToken::Move(k) => TokenState { cursor: s.cursor.wrapping_add(k), ..s },
        SpecToken::MulCopy(src, dest, mul) => with_cell(
            s,
            dest,
            cell(s, dest) + (cell(s, src) * mul) % modulus,
            modulus,
        ),
        SpecToken::LoadOut(o, a) => TokenState {
            buffer: s.buffer.push(byte((cell(s, o) + a) % modulus)),
            ..s
        },
        SpecToken::LoadOutSet(v) => TokenState { buffer: s.buffer.push(byte(v as int)), ..s },
        SpecToken::Output => TokenState {
            output: s.output + s.buffer,
            buffer: Seq::empty(),
            ..s
        },
        SpecToken::Input => if s.input.len() >= 1 {
            TokenState {
                tape: s.tape.insert(s.cursor, (s.input[0] as int) % modulus),
                input: s.input.subrange(1, s.input.len() as int),
                inbuf: s.input[0] as int,
                ..s
            }
        } else {
            TokenState {
                tape: s.tape.insert(s.cursor, s.inbuf % modulus),
                starved: true,
                ..s
            }
        },
        _ => s,
    }
}

/// Whether the cell at an offset counts as zero.
pub open spec fn cell_is_zero(s: TokenState, offset: i32, modulus: int) -> bool {
    cell(s, offset) % modulus == 0
}

/// The state after a scan: the cursor moves by `k` while the current cell
/// is not zero, and each move takes one of the fuel.
pub open spec fn tsem_scan(k: i32, s: TokenState, modulus: int, fuel: nat) -> Option<TokenState>
    decreases fuel,
{
    if cell_is_zero(s, 0, modulus) {
        Some(s)
    } else if fuel == 0 {
        None
    } else {
        tsem_scan(
            k,
            TokenState { cursor: s.cursor.wrapping_add(k), ..s },
            modulus,
            (fuel - 1) as nat,
        )
    }
}

/// The state after a token sequence; nothing if a loop takes more passes
/// than `fuel`.
pub open spec fn tsem(tokens: Seq<SpecToken>, s: TokenState, modulus: int, fuel: nat) -> Option<
    TokenState,
>
    decreases fuel, tokens, 2nat,
{
    if tokens.len() == 0 {
        Some(s)
    } else {
        match tsem(tokens.drop_last(), s, modulus, fuel) {
            None => None,
            Some(s1) => tsem_token(tokens.last(), s1, modulus, fuel),
        }
    }
}

/// The state after one token.
pub open spec fn tsem_token(token: SpecToken, s: TokenState, modulus: int, fuel: nat) -> Option<
    TokenState,
>
    decreases fuel, token, 1nat,
{
    match token {
        SpecToken::Loop(body) => tsem_loop(body, s, modulus, fuel),
        SpecToken::Scan(k) => tsem_scan(k, s, modulus, fuel),
        SpecToken::If(o, body) => if cell_is_zero(s, o, modulus) {
            Some(s)
        } else {
            tsem(body, s, modulus, fuel)
        },
        _ => Some(apply(token, s, modulus)),
    }
}

/// The state after a loop: the body runs while the current cell is not
/// zero, and each pass takes one of the fuel.
pub open spec fn tsem_loop(body: Seq<SpecToken>, s: TokenState, modulus: int, fuel: nat) -> Option<
    TokenState,
>
    decreases fuel, body, 0nat,
{
    if cell_is_zero(s, 0, modulus) {
        Some(s)
    } else if fuel == 0 {
        None
    } else {
        match tsem(body, s, modulus, (fuel - 1) as nat) {
            None => None,
            Some(s1) => tsem_loop(body, s1, modulus, (fuel - 1) as nat),
        }
    }
}

/// With more fuel a token sequence that ends still ends, in the same
/// state.
pub proof fn lemma_tsem_more(
    tokens: Seq<SpecToken>,
    s: TokenState,
    modulus: int,
    fuel: nat,
    more: nat,
)
    requires
        tsem(tokens, s, modulus, fuel) is Some,
    ensures
        tsem(tokens, s, modulus, fuel + more) == tsem(tokens, s, modulus, fuel),
    decreases fuel, tokens, 2nat,
{
    if tokens.len() > 0 {
        lemma_tsem_more(tokens.drop_last(), s, modulus, fuel, more);
        let s1 = tsem(tokens.drop_last(), s, modulus, fuel)->Some_0;
        lemma_tsem_token_more(tokens.last(), s1, modulus, fuel, more);
    }
}

pub proof fn lemma_tsem_token_more(
    token: SpecToken,
    s: TokenState,
    modulus: int,
    fuel: nat,
    more: nat,
)
    requires
        tsem_token(token, s, modulus, fuel) is Some,
    ensures
        tsem_token(token, s, modulus, fuel + more) == tsem_token(token, s, modulus, fuel),
    decreases fuel, token, 1nat,
{
    match token {
        SpecToken::Loop(body) => {
            lemma_tsem_loop_more(body, s, modulus, fuel, more);
        },
        SpecToken::Scan(k) => {
            lemma_tsem_scan_more(k, s, modulus, fuel, more);
        },
        SpecToken::If(o, body) => {
            if !cell_is_zero(s, o, modulus) {
                lemma_tsem_more(body, s, modulus, fuel, more);
            }
        },
        _ => {},
    }
}

pub proof fn lemma_tsem_scan_more(k: i32, s: TokenState, modulus: int, fuel: nat, more: nat)
    requires
        tsem_scan(k, s, modulus, fuel) is Some,
    ensures
        tsem_scan(k, s, modulus, fuel + more) == tsem_scan(k, s, modulus, fuel),
    decreases fuel,
{
    if !cell_is_zero(s, 0, modulus) {
        lemma_tsem_scan_more(
            k,
            TokenState { cursor: s.cursor.wrapping_add(k), ..s },
            modulus,
            (fuel - 1) as nat,
            more,
        );
        assert((fuel + more - 1) as nat == (fuel - 1) as nat + more);
    }
}

pub proof fn lemma_tsem_loop_more(
    body: Seq<SpecToken>,
    s: TokenState,
    modulus: int,
    fuel: nat,
    more: nat,
)
    requires
        tsem_loop(body, s, modulus, fuel) is Some,
    ensures
        tsem_loop(body, s, modulus, fuel + more) == tsem_loop(body, s, modulus, fuel),
    decreases fuel, body, 0nat,
{
    if !cell_is_zero(s, 0, modulus) {
        lemma_tsem_more(body, s, modulus, (fuel - 1) as nat, more);
        let s1 = tsem(body, s, modulus, (fuel - 1) as nat)->Some_0;
        lemma_tsem_loop_more(body, s1, modulus, (fuel - 1) as nat, more);
        assert((fuel + more - 1) as nat == (fuel - 1) as nat + more);
    }
}

/// Two token sequences, one after the other, mean the one and then the
/// other.
pub proof fn lemma_tsem_concat(
    a: Seq<SpecToken>,
    b: Seq<SpecToken>,
    s: TokenState,
    modulus: int,
    fuel: nat,
)
    ensures
        tsem(a + b, s, modulus, fuel) == match tsem(a, s, modulus, fuel) {
            None => None,
            Some(s1) => tsem(b, s1, modulus, fuel),
        },
    decreases b.len(),
{
    if b.len() == 0 {
        assert(a + b =~= a);
    } else {
        lemma_tsem_concat(a, b.drop_last(), s, modulus, fuel);
        assert((a + b).drop_last() =~= a + b.drop_last());
        assert((a + b).last() == b.last());
    }
}

/// A token sequence of one token means the token.
pub proof fn lemma_tsem_one(token: SpecToken, s: TokenState, modulus: int, fuel: nat)
    ensures
        tsem(seq![token], s, modulus, fuel) == tsem_token(token, s, modulus, fuel),
{
    assert(seq![token].drop_last() =~= Seq::<SpecToken>::empty());
    assert(seq![token].last() == token);
    assert(tsem(Seq::<SpecToken>::empty(), s, modulus, fuel) == Some(s));
}

} // verus!
