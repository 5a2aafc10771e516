//! A map from tape offsets to values that keeps its entries in ascending
//! order of offset, so that walking it always gives the same sequence.

use vstd::prelude::*;

verus! {

/// Whether the keys of `s` strictly ascend.
pub open spec fn ascending<V>(s: Seq<(i32, V)>) -> bool {
    forall|i: int, j: int| 0 <= i < j < s.len() ==> (#[trigger] s[i]).0 < (#[trigger] s[j]).0
}

/// The first index at or after `i` whose key is not below `k`; the length of
/// `s` if there is none.
pub open spec fn rank_from<V>(s: Seq<(i32, V)>, k: i32, i: int) -> int
    decreases s.len() - i,
{
    if i < 0 || i >= s.len() || s[i].0 >= k {
        i
    } else {
        rank_from(s, k, i + 1)
    }
}

/// The index where key `k` stands, or would stand, in `s`.
pub open spec fn rank<V>(s: Seq<(i32, V)>, k: i32) -> int {
    rank_from(s, k, 0)
}

/// Whether `s` has an entry for key `k`.
pub open spec fn has_key<V>(s: Seq<(i32, V)>, k: i32) -> bool {
    rank(s, k) < s.len() && s[rank(s, k)].0 == k
}

/// The value that `s` holds for key `k`, if any.
pub open spec fn lookup<V>(s: Seq<(i32, V)>, k: i32) -> Option<V> {
    if has_key(s, k) {
        Some(s[rank(s, k)].1)
    } else {
        None
    }
}

/// `s` with the value for key `k` set to `v`.
pub open spec fn with_entry<V>(s: Seq<(i32, V)>, k: i32, v: V) -> Seq<(i32, V)> {
    if has_key(s, k) {
        s.update(rank(s, k), (k, v))
    } else {
        s.insert(rank(s, k), (k, v))
    }
}

/// `s` without the entry for key `k`.
pub open spec fn without_key<V>(s: Seq<(i32, V)>, k: i32) -> Seq<(i32, V)> {
    if has_key(s, k) {
        s.remove(rank(s, k))
    } else {
        s
    }
}

/// The rank is an index of `s` or its length; the keys before it are below
/// `k`, and the key at it is not.
pub proof fn lemma_rank_from<V>(s: Seq<(i32, V)>, k: i32, i: int)
    requires
        0 <= i <= s.len(),
    ensures
        i <= rank_from(s, k, i) <= s.len(),
        forall|j: int| i <= j < rank_from(s, k, i) ==> (#[trigger] s[j]).0 < k,
        rank_from(s, k, i) < s.len() ==> s[rank_from(s, k, i)].0 >= k,
    decreases s.len() - i,
{
    if i < s.len() && s[i].0 < k {
        lemma_rank_from(s, k, i + 1);
    }
}

/// Setting an entry keeps the keys ascending.
pub proof fn lemma_with_entry_ascending<V>(s: Seq<(i32, V)>, k: i32, v: V)
    requires
        ascending(s),
    ensures
        ascending(with_entry(s, k, v)),
{
    lemma_rank_from(s, k, 0);
    let r = rank(s, k);
    let t = with_entry(s, k, v);
    if has_key(s, k) {
        assert forall|i: int, j: int| 0 <= i < j < t.len() implies (#[trigger] t[i]).0 < (
        #[trigger] t[j]).0 by {
            assert(s[i].0 < s[j].0);
        }
    } else {
        assert forall|i: int, j: int| 0 <= i < j < t.len() implies (#[trigger] t[i]).0 < (
        #[trigger] t[j]).0 by {
            let si = if i < r {
                i
            } else {
                i - 1
            };
            let sj = if j < r {
                j
            } else {
                j - 1
            };
            if i != r && j != r {
                assert(t[i] == s[si]);
                assert(t[j] == s[sj]);
                assert(s[si].0 < s[sj].0);
            } else if i == r {
                assert(t[j] == s[sj]);
                if sj > r {
                    assert(s[r].0 < s[sj].0);
                }
            } else {
                assert(t[i] == s[si]);
                assert(s[si].0 < k);
            }
        }
    }
}

/// Removing an entry keeps the keys ascending.
pub proof fn lemma_without_key_ascending<V>(s: Seq<(i32, V)>, k: i32)
    requires
        ascending(s),
    ensures
        ascending(without_key(s, k)),
{
    lemma_rank_from(s, k, 0);
    let r = rank(s, k);
    let t = without_key(s, k);
    if has_key(s, k) {
        assert forall|i: int, j: int| 0 <= i < j < t.len() implies (#[trigger] t[i]).0 < (
        #[trigger] t[j]).0 by {
            let si = if i < r {
                i
            } else {
                i + 1
            };
            let sj = if j < r {
                j
            } else {
                j + 1
            };
            assert(t[i] == s[si]);
            assert(t[j] == s[sj]);
            assert(s[si].0 < s[sj].0);
        }
    }
}

/// Setting an entry adds at most one entry, and none where the key has one.
pub proof fn lemma_with_entry_len<V>(s: Seq<(i32, V)>, k: i32, v: V)
    ensures
        with_entry(s, k, v).len() <= s.len() + 1,
        has_key(s, k) ==> with_entry(s, k, v).len() == s.len(),
{
    lemma_rank_from(s, k, 0);
}

/// Removing an entry adds none.
pub proof fn lemma_without_key_len<V>(s: Seq<(i32, V)>, k: i32)
    ensures
        without_key(s, k).len() <= s.len(),
{
    lemma_rank_from(s, k, 0);
}

/// In an ascending sequence the entry of a key is found at the key, and a
/// new entry changes what is found for its key alone.
pub proof fn lemma_lookup_with_entry<V>(s: Seq<(i32, V)>, k: i32, v: V, j: i32)
    requires
        ascending(s),
    ensures
        lookup(with_entry(s, k, v), j) == if j == k {
            Some(v)
        } else {
            lookup(s, j)
        },
{
    let t = with_entry(s, k, v);
    lemma_with_entry_ascending(s, k, v);
    lemma_rank_from(s, k, 0);
    lemma_rank_from(s, j, 0);
    lemma_rank_from(t, j, 0);
    let r = rank(s, k);
    let rs = rank(s, j);
    let rt = rank(t, j);
    assert(t[r] == (k, v));
    if j == k {
        if rt < r {
            assert(t[rt].0 < t[r].0);
        } else if rt > r {
            assert(t[r].0 < j);
        }
    } else if has_key(s, k) {
        // The entry of `k` is replaced: the keys stay where they are.
        assert(t.len() == s.len());
        assert forall|i: int| 0 <= i < s.len() implies (#[trigger] t[i]).0 == s[i].0 by {}
        if rt < rs {
            assert(t[rt].0 >= j);
            assert(s[rt].0 < j);
        } else if rt > rs {
            assert(t[rs].0 < j);
            assert(s[rs].0 >= j);
        }
        if rs < s.len() && rs != r {
            assert(t[rs] == s[rs]);
        }
    } else {
        // The entry of `k` is put in at `r`: what stood from `r` on moves
        // by one.
        assert(t.len() == s.len() + 1);
        assert forall|i: int| 0 <= i < r implies #[trigger] t[i] == s[i] by {}
        assert forall|i: int| r < i < t.len() implies #[trigger] t[i] == s[i - 1] by {}
        if j < k {
            // What is found for `j` stands before `r`, or nothing is.
            assert(rs <= r) by {
                if rs > r {
                    assert(s[r].0 < j);
                    assert(s[r].0 >= k);
                }
            }
            if rt < rs {
                assert(t[rt] == s[rt]);
                assert(s[rt].0 < j);
            } else if rt > rs {
                if rs < r {
                    assert(t[rs] == s[rs]);
                    assert(t[rs].0 < j);
                } else {
                    assert(t[r].0 < j);
                }
            }
            if rs < r {
                assert(t[rs] == s[rs]);
            } else {
                assert(rt == r);
                if rs < s.len() {
                    assert(s[rs].0 >= k);
                    if s[rs].0 == j {
                    }
                }
            }
        } else {
            // What is found for `j` stands after `r`, moved by one.
            assert(rs >= r) by {
                if rs < r {
                    assert(s[rs].0 >= j);
                    assert(s[rs].0 < k);
                }
            }
            if rt < rs + 1 {
                if rt < r {
                    assert(t[rt] == s[rt]);
                    assert(s[rt].0 < k);
                } else if rt == r {
                } else {
                    assert(t[rt] == s[rt - 1]);
                    assert(s[rt - 1].0 < j);
                }
            } else if rt > rs + 1 {
                assert(t[rs + 1] == s[rs]);
                assert(t[rs + 1].0 < j);
            }
            if rs < s.len() {
                assert(t[rs + 1] == s[rs]);
            }
        }
    }
}

/// In an ascending sequence, removing the entry of a key changes what is
/// found for that key alone.
pub proof fn lemma_lookup_without_key<V>(s: Seq<(i32, V)>, k: i32, j: i32)
    requires
        ascending(s),
    ensures
        lookup(without_key(s, k), j) == if j == k {
            None
        } else {
            lookup(s, j)
        },
{
    let t = without_key(s, k);
    lemma_without_key_ascending(s, k);
    lemma_rank_from(s, k, 0);
    lemma_rank_from(s, j, 0);
    lemma_rank_from(t, j, 0);
    let r = rank(s, k);
    let rs = rank(s, j);
    let rt = rank(t, j);
    if has_key(s, k) {
        assert forall|i: int| 0 <= i < r implies #[trigger] t[i] == s[i] by {}
        assert forall|i: int| r <= i < t.len() implies #[trigger] t[i] == s[i + 1] by {}
        if j == k {
            if rt < t.len() && t[rt].0 == k {
                if rt < r {
                    assert(s[rt].0 < s[r].0);
                } else {
                    assert(s[r].0 < s[rt + 1].0);
                }
            }
        } else if j < k {
            assert(rs <= r) by {
                if rs > r {
                    assert(s[r].0 < j);
                }
            }
            if rt < rs {
                assert(t[rt] == s[rt]);
                assert(s[rt].0 < j);
            } else if rt > rs {
                if rs < r {
                    assert(t[rs] == s[rs]);
                } else {
                    assert(rs == r);
                    if r < t.len() {
                        assert(t[r] == s[r + 1]);
                        assert(s[r].0 < s[r + 1].0);
                        assert(t[r].0 < j);
                    }
                }
            }
            if rs < r {
                assert(t[rs] == s[rs]);
            } else {
                assert(rs == r);
                assert(rt == r);
                if r < t.len() {
                    assert(t[r] == s[r + 1]);
                    assert(s[r].0 < s[r + 1].0);
                }
            }
        } else {
            assert(rs > r) by {
                if rs <= r {
                    if rs < s.len() {
                        assert(s[rs].0 >= j);
                        if rs < r {
                            assert(s[rs].0 < s[r].0);
                        }
                    }
                }
            }
            if rt < rs - 1 {
                if rt < r {
                    assert(t[rt] == s[rt]);
                    assert(s[rt].0 < s[r].0);
                } else {
                    assert(t[rt] == s[rt + 1]);
                    assert(s[rt + 1].0 < j);
                }
            } else if rt > rs - 1 {
                assert(r <= rs - 1);
                assert(t[rs - 1] == s[rs]);
                assert(t[rs - 1].0 < j);
            }
            if rs < s.len() {
                assert(t[rs - 1] == s[rs]);
            }
        }
    }
}

/// An entry with a key above all keys stands at the end.
pub proof fn lemma_with_entry_push<V>(s: Seq<(i32, V)>, k: i32, v: V)
    requires
        ascending(s.push((k, v))),
    ensures
        with_entry(s, k, v) == s.push((k, v)),
        ascending(s),
{
    let t = s.push((k, v));
    assert forall|i: int, j: int| 0 <= i < j < s.len() implies (#[trigger] s[i]).0 < (
    #[trigger] s[j]).0 by {
        assert(t[i] == s[i] && t[j] == s[j]);
    }
    lemma_rank_from(s, k, 0);
    let r = rank(s, k);
    if r < s.len() {
        assert(t[r] == s[r]);
        assert(t[r].0 < t[s.len() as int].0);
    }
    assert(s.insert(s.len() as int, (k, v)) =~= t);
}

/// A map keyed by tape offset, walked in ascending order of offset.
pub struct OffsetMap<V> {
    entries: Vec<(i32, V)>,
}

impl<V> View for OffsetMap<V> {
    type V = Seq<(i32, V)>;

    closed spec fn view(&self) -> Seq<(i32, V)> {
        self.entries@
    }
}

impl<V> OffsetMap<V> {
    #[verifier::type_invariant]
    spec fn well_formed(self) -> bool {
        ascending(self.entries@)
    }
}

impl<V: Copy> OffsetMap<V> {
    /// A map without entries.
    pub fn new() -> (m: Self)
        ensures
            m@ == Seq::<(i32, V)>::empty(),
    {
        Self { entries: Vec::new() }
    }

    /// The number of entries.
    pub fn len(&self) -> (n: usize)
        ensures
            n == self@.len(),
    {
        self.entries.len()
    }

    pub fn is_empty(&self) -> (b: bool)
        ensures
            b == (self@.len() == 0),
    {
        self.entries.len() == 0
    }

    /// The entry at position `i` of the ascending order.
    pub fn entry(&self, i: usize) -> (e: (i32, V))
        requires
            i < self@.len(),
        ensures
            e == self@[i as int],
    {
        self.entries[i]
    }

    fn position(&self, k: i32) -> (r: usize)
        ensures
            r == rank(self@, k),
            r <= self@.len(),
    {
        let mut i: usize = 0;
        while i < self.entries.len() && self.entries[i].0 < k
            invariant
                i <= self.entries@.len(),
                rank_from(self.entries@, k, 0) == rank_from(self.entries@, k, i as int),
            decreases self.entries@.len() - i,
        {
            i = i + 1;
        }
        i
    }

    /// The value for key `k`, if there is one.
    pub fn get(&self, k: i32) -> (v: Option<V>)
        ensures
            v == lookup(self@, k),
    {
        let r = self.position(k);
        if r < self.entries.len() && self.entries[r].0 == k {
            Some(self.entries[r].1)
        } else {
            None
        }
    }

    pub fn contains_key(&self, k: i32) -> (b: bool)
        ensures
            b == has_key(self@, k),
    {
        let r = self.position(k);
        r < self.entries.len() && self.entries[r].0 == k
    }

    /// The entries `from..to` of the map, in order.
    fn copy_range(&self, fresh: &mut Vec<(i32, V)>, from: usize, to: usize)
        requires
            from <= to <= self@.len(),
        ensures
            final(fresh)@ == old(fresh)@ + self@.subrange(from as int, to as int),
    {
        let mut i: usize = from;
        assert(self@.subrange(from as int, from as int) =~= Seq::<(i32, V)>::empty());
        while i < to
            invariant
                from <= i <= to <= self.entries@.len(),
                fresh@ == old(fresh)@ + self.entries@.subrange(from as int, i as int),
            decreases to - i,
        {
            fresh.push(self.entries[i]);
            i = i + 1;
            assert(fresh@ =~= old(fresh)@ + self.entries@.subrange(from as int, i as int));
        }
    }

    /// Sets the value for key `k`.
    pub fn insert(&mut self, k: i32, v: V)
        ensures
            final(self)@ == with_entry(old(self)@, k, v),
    {
        proof {
            use_type_invariant(&*self);
            lemma_with_entry_ascending(self@, k, v);
        }
        let r = self.position(k);
        let n = self.entries.len();
        let present = r < n && self.entries[r].0 == k;
        let mut fresh: Vec<(i32, V)> = Vec::new();
        self.copy_range(&mut fresh, 0, r);
        fresh.push((k, v));
        if present {
            self.copy_range(&mut fresh, r + 1, n);
            assert(fresh@ =~= self@.update(r as int, (k, v)));
        } else {
            self.copy_range(&mut fresh, r, n);
            assert(fresh@ =~= self@.insert(r as int, (k, v)));
        }
        *self = OffsetMap { entries: fresh };
    }

    /// Removes the entry for key `k`, if there is one.
    pub fn remove(&mut self, k: i32)
        ensures
            final(self)@ == without_key(old(self)@, k),
    {
        proof {
            use_type_invariant(&*self);
            lemma_without_key_ascending(self@, k);
        }
        let r = self.position(k);
        let n = self.entries.len();
        if r < n && self.entries[r].0 == k {
            let mut fresh: Vec<(i32, V)> = Vec::new();
            self.copy_range(&mut fresh, 0, r);
            self.copy_range(&mut fresh, r + 1, n);
            assert(fresh@ =~= self@.remove(r as int));
            *self = OffsetMap { entries: fresh };
        }
    }

    /// Removes every entry.
    pub fn clear(&mut self)
        ensures
            final(self)@ == Seq::<(i32, V)>::empty(),
    {
        *self = OffsetMap { entries: Vec::new() };
    }
}

} // verus!
