//! What the peephole pass holds back while it walks a block: a deferred
//! shift and the pending sets and adds by offset.

use vstd::prelude::*;
use crate::offset_map::{lookup, with_entry, without_key, OffsetMap};
use crate::optimizer::peephole::token::{push_token, SpecToken, Token};

verus! {

/// The state of the pass over one block.
pub struct OptimizeState {
    /// The tokens committed so far.
    pub tokens: Vec<Token>,
    /// The pending adds by offset. An ordered map: the order in which they
    /// are committed must not vary.
    pub adds: OffsetMap<i32>,
    /// The pending sets by offset.
    pub sets: OffsetMap<i32>,
    /// The deferred movement of the data pointer.
    pub shift: i32,
}

/// The mathematical value of an [`OptimizeState`].
pub struct SpecState {
    pub tokens: Seq<SpecToken>,
    pub adds: Seq<(i32, i32)>,
    pub sets: Seq<(i32, i32)>,
    pub shift: i32,
}

impl View for OptimizeState {
    type V = SpecState;

    open spec fn view(&self) -> SpecState {
        SpecState {
            tokens: self.tokens.deep_view(),
            adds: self.adds@,
            sets: self.sets@,
            shift: self.shift,
        }
    }
}

/// The state of a block before its first token.
pub open spec fn initial_state() -> SpecState {
    SpecState { tokens: Seq::empty(), adds: Seq::empty(), sets: Seq::empty(), shift: 0 }
}

/// One `Assign` token for each entry, in the order of the entries.
pub open spec fn set_tokens(sets: Seq<(i32, i32)>) -> Seq<SpecToken> {
    Seq::new(sets.len(), |i: int| SpecToken::Assign(sets[i].0, sets[i].1))
}

/// One `Add` token for each entry, in the order of the entries.
pub open spec fn add_tokens(adds: Seq<(i32, i32)>) -> Seq<SpecToken> {
    Seq::new(adds.len(), |i: int| SpecToken::Add(adds[i].0, adds[i].1))
}

/// The state with the deferred shift committed: a `Move` token, unless the
/// shift is zero.
pub open spec fn shift_applied(s: SpecState) -> SpecState {
    if s.shift != 0 {
        SpecState { tokens: s.tokens.push(SpecToken::Move(s.shift)), shift: 0, ..s }
    } else {
        s
    }
}

/// The state with the pending sets and adds committed: first every set in
/// ascending order of offset, then every add in ascending order of offset.
pub open spec fn adds_sets_applied(s: SpecState) -> SpecState {
    SpecState {
        tokens: s.tokens + set_tokens(s.sets) + add_tokens(s.adds),
        adds: Seq::empty(),
        sets: Seq::empty(),
        ..s
    }
}

/// The state after an add of `value` at `offset`: folded into a pending set
/// of that offset if there is one; else summed with the pending add, which
/// is dropped when the sum is zero.
pub open spec fn with_add(s: SpecState, offset: i32, value: i32) -> SpecState {
    match lookup(s.sets, offset) {
        Some(set) => SpecState { sets: with_entry(s.sets, offset, set.wrapping_add(value)), ..s },
        None => {
            let sum = match lookup(s.adds, offset) {
                Some(v) => v.wrapping_add(value),
                None => value,
            };
            if sum != 0 {
                SpecState { adds: with_entry(s.adds, offset, sum), ..s }
            } else {
                SpecState { adds: without_key(s.adds, offset), ..s }
            }
        },
    }
}

/// The state after a set of `value` at `offset`: a pending add of that
/// offset is dropped, and the set is pending.
pub open spec fn with_set(s: SpecState, offset: i32, value: i32) -> SpecState {
    SpecState {
        adds: without_key(s.adds, offset),
        sets: with_entry(s.sets, offset, value),
        ..s
    }
}

impl OptimizeState {
    /// The state of a block before its first token.
    pub fn new() -> (s: Self)
        ensures
            s@ == initial_state(),
    {
        let s = OptimizeState {
            tokens: Vec::new(),
            adds: OffsetMap::new(),
            sets: OffsetMap::new(),
            shift: 0,
        };
        assert(s.tokens.deep_view() =~= Seq::<SpecToken>::empty());
        s
    }

    /// Commits the deferred shift.
    pub fn apply_shift(&mut self)
        ensures
            final(self)@ == shift_applied(old(self)@),
    {
        if self.shift != 0 {
            push_token(&mut self.tokens, Token::Move(self.shift));
            self.shift = 0;
        }
    }

    /// Commits the pending sets, then the pending adds.
    pub fn apply_adds_sets(&mut self)
        ensures
            final(self)@ == adds_sets_applied(old(self)@),
    {
        let ghost start = self.tokens.deep_view();
        let mut i: usize = 0;
        assert(self.tokens.deep_view() =~= start + set_tokens(self.sets@).subrange(0, 0));
        while i < self.sets.len()
            invariant
                i <= self.sets@.len(),
                self.sets@ == old(self).sets@,
                self.adds@ == old(self).adds@,
                self.shift == old(self).shift,
                self.tokens.deep_view() == start + set_tokens(self.sets@).subrange(0, i as int),
            decreases self.sets@.len() - i,
        {
            let (offset, value) = self.sets.entry(i);
            push_token(&mut self.tokens, Token::Assign(offset, value));
            i = i + 1;
            assert(self.tokens.deep_view() =~= start + set_tokens(self.sets@).subrange(
                0,
                i as int,
            ));
        }
        assert(set_tokens(self.sets@).subrange(0, i as int) =~= set_tokens(self.sets@));
        let ghost middle = self.tokens.deep_view();
        let mut j: usize = 0;
        assert(self.tokens.deep_view() =~= middle + add_tokens(self.adds@).subrange(0, 0));
        while j < self.adds.len()
            invariant
                j <= self.adds@.len(),
                self.sets@ == old(self).sets@,
                self.adds@ == old(self).adds@,
                self.shift == old(self).shift,
                self.tokens.deep_view() == middle + add_tokens(self.adds@).subrange(0, j as int),
            decreases self.adds@.len() - j,
        {
            let (offset, value) = self.adds.entry(j);
            push_token(&mut self.tokens, Token::Add(offset, value));
            j = j + 1;
            assert(self.tokens.deep_view() =~= middle + add_tokens(self.adds@).subrange(
                0,
                j as int,
            ));
        }
        assert(add_tokens(self.adds@).subrange(0, j as int) =~= add_tokens(self.adds@));
        self.sets.clear();
        self.adds.clear();
    }

    /// Adds `value` to the cell at `offset`.
    pub fn add(&mut self, offset: i32, value: i32)
        ensures
            final(self)@ == with_add(old(self)@, offset, value),
    {
        match self.sets.get(offset) {
            Some(set) => {
                self.sets.insert(offset, set.wrapping_add(value));
            },
            None => {
                let sum = match self.adds.get(offset) {
                    Some(v) => v.wrapping_add(value),
                    None => value,
                };
                if sum != 0 {
                    self.adds.insert(offset, sum);
                } else {
                    self.adds.remove(offset);
                }
            },
        }
    }

    /// Sets the cell at `offset` to `value`.
    pub fn set(&mut self, offset: i32, value: i32)
        ensures
            final(self)@ == with_set(old(self)@, offset, value),
    {
        self.adds.remove(offset);
        self.sets.insert(offset, value);
    }
}

impl Default for OptimizeState {
    fn default() -> (s: Self)
        ensures
            s@ == initial_state(),
    {
        OptimizeState::new()
    }
}

} // verus!
