//! What makes an instruction list well formed: every label is defined once,
//! every jump has its label, and every register is defined once. And the
//! means to prove it of a list that is put together from segments whose
//! labels and registers are numbered from disjoint ranges.

use vstd::prelude::*;
use crate::lir::{endif_label, endloop_label, loop_label, SpecLIR, SpecLVal, SpecRVal};
use crate::optimizer::simple::{loop_head, loop_tail};
use crate::text::{decimal, lemma_decimal_injective};

verus! {

/// The label that an instruction defines.
pub open spec fn label_of(instr: SpecLIR) -> Option<Seq<char>> {
    match instr {
        SpecLIR::Label(name) => Some(name),
        _ => None,
    }
}

/// The label that an instruction jumps to.
pub open spec fn target_of(instr: SpecLIR) -> Option<Seq<char>> {
    match instr {
        SpecLIR::Jp(name) => Some(name),
        SpecLIR::Jz(_, name) => Some(name),
        SpecLIR::Jnz(_, name) => Some(name),
        _ => None,
    }
}

/// The register that an instruction defines.
pub open spec fn reg_of(instr: SpecLIR) -> Option<u32> {
    match instr {
        SpecLIR::Mul(SpecLVal::Reg(n), _, _) => Some(n),
        SpecLIR::Add(SpecLVal::Reg(n), _, _) => Some(n),
        SpecLIR::Sub(SpecLVal::Reg(n), _, _) => Some(n),
        SpecLIR::Mov(SpecLVal::Reg(n), _) => Some(n),
        _ => None,
    }
}

/// No label is defined twice.
pub open spec fn labels_unique(lir: Seq<SpecLIR>) -> bool {
    forall|i: int, j: int|
        0 <= i < j < lir.len() && label_of(#[trigger] lir[i]) is Some ==> label_of(lir[i])
            != label_of(#[trigger] lir[j])
}

/// Whether the label `name` is defined in `lir`.
pub open spec fn defines(lir: Seq<SpecLIR>, name: Seq<char>) -> bool {
    exists|j: int| 0 <= j < lir.len() && #[trigger] lir[j] == SpecLIR::Label(name)
}

/// Every jump goes to a label that is defined.
pub open spec fn targets_defined(lir: Seq<SpecLIR>) -> bool {
    forall|i: int|
        0 <= i < lir.len() ==> (target_of(#[trigger] lir[i]) matches Some(name) ==> defines(
            lir,
            name,
        ))
}

/// No register is defined twice.
pub open spec fn single_assignment(lir: Seq<SpecLIR>) -> bool {
    forall|i: int, j: int|
        0 <= i < j < lir.len() && reg_of(#[trigger] lir[i]) is Some ==> reg_of(lir[i]) != reg_of(
            #[trigger] lir[j],
        )
}

/// Every label is defined exactly once and every jump has its label.
pub open spec fn well_labelled(lir: Seq<SpecLIR>) -> bool {
    labels_unique(lir) && targets_defined(lir)
}

/// An instruction list is well formed: well labelled, and every register
/// is defined at most once.
pub open spec fn lir_well_formed(lir: Seq<SpecLIR>) -> bool {
    well_labelled(lir) && single_assignment(lir)
}

/// The numbers that a segment may use: loops in `(lo, hi]`, conditional
/// blocks in `(ilo, ihi]`, registers in `[rlo, rhi)`.
pub struct Ranges {
    pub lo: nat,
    pub hi: nat,
    pub ilo: nat,
    pub ihi: nat,
    pub rlo: nat,
    pub rhi: nat,
}

/// Whether `name` is a label of loop number `k`.
pub open spec fn is_loop_name(name: Seq<char>, k: nat) -> bool {
    name == loop_label(k) || name == endloop_label(k)
}

/// Whether `name` is the label of conditional block number `k`.
pub open spec fn is_if_name(name: Seq<char>, k: nat) -> bool {
    name == endif_label(k)
}

/// Whether `name` is a label of a loop or a conditional block whose number
/// is in the ranges.
pub open spec fn named_within(name: Seq<char>, r: Ranges) -> bool {
    (exists|k: nat| r.lo < k <= r.hi && #[trigger] is_loop_name(name, k)) || (exists|k: nat|
        r.ilo < k <= r.ihi && #[trigger] is_if_name(name, k))
}

/// Every label of the segment is numbered within the ranges.
pub open spec fn labels_within(lir: Seq<SpecLIR>, r: Ranges) -> bool {
    forall|i: int|
        0 <= i < lir.len() ==> (label_of(#[trigger] lir[i]) matches Some(name) ==> named_within(
            name,
            r,
        ))
}

/// Every register that the segment defines is within the ranges.
pub open spec fn regs_within(lir: Seq<SpecLIR>, r: Ranges) -> bool {
    forall|i: int|
        0 <= i < lir.len() ==> (reg_of(#[trigger] lir[i]) matches Some(n) ==> r.rlo <= n < r.rhi)
}

/// A segment is closed within its ranges: it is well formed by itself and
/// uses no number outside the ranges.
pub open spec fn closed(lir: Seq<SpecLIR>, r: Ranges) -> bool {
    &&& r.lo <= r.hi
    &&& r.ilo <= r.ihi
    &&& r.rlo <= r.rhi
    &&& lir_well_formed(lir)
    &&& labels_within(lir, r)
    &&& regs_within(lir, r)
}

/// The ranges of two segments that follow each other.
pub open spec fn joined(a: Ranges, b: Ranges) -> Ranges {
    Ranges { lo: a.lo, hi: b.hi, ilo: a.ilo, ihi: b.ihi, rlo: a.rlo, rhi: b.rhi }
}

/// Whether the ranges `b` begin where the ranges `a` end.
pub open spec fn follows(a: Ranges, b: Ranges) -> bool {
    a.hi == b.lo && a.ihi == b.ilo && a.rhi == b.rlo
}

proof fn lemma_same_prefix(p: Seq<char>, a: Seq<char>, b: Seq<char>)
    requires
        p + a == p + b,
    ensures
        a == b,
{
    assert((p + a).len() == p.len() + a.len());
    assert((p + b).len() == p.len() + b.len());
    assert forall|i: int| 0 <= i < a.len() implies a[i] == b[i] by {
        assert((p + a)[p.len() + i] == a[i]);
        assert((p + b)[p.len() + i] == b[i]);
    }
    assert(a =~= b);
}

/// The names of labels tell the kinds and the numbers apart.
pub proof fn lemma_label_names(j: nat, k: nat)
    ensures
        loop_label(j) == loop_label(k) ==> j == k,
        endloop_label(j) == endloop_label(k) ==> j == k,
        endif_label(j) == endif_label(k) ==> j == k,
        loop_label(j) != endloop_label(k),
        loop_label(j) != endif_label(k),
        endloop_label(j) != endif_label(k),
{
    reveal_strlit("loop");
    reveal_strlit("endloop");
    reveal_strlit("endif");
    if loop_label(j) == loop_label(k) {
        lemma_same_prefix("loop"@, decimal(j), decimal(k));
        lemma_decimal_injective(j, k);
    }
    if endloop_label(j) == endloop_label(k) {
        lemma_same_prefix("endloop"@, decimal(j), decimal(k));
        lemma_decimal_injective(j, k);
    }
    if endif_label(j) == endif_label(k) {
        lemma_same_prefix("endif"@, decimal(j), decimal(k));
        lemma_decimal_injective(j, k);
    }
    assert(loop_label(j)[0] == 'l');
    assert(endloop_label(k)[0] == 'e');
    assert(endif_label(k)[0] == 'e');
    assert(endloop_label(j)[3] == 'l');
    assert(endif_label(k)[3] == 'i');
}

/// No name is numbered within two ranges that follow each other.
pub proof fn lemma_named_apart(name: Seq<char>, a: Ranges, b: Ranges)
    requires
        follows(a, b),
        a.lo <= a.hi,
        a.ilo <= a.ihi,
        named_within(name, a),
    ensures
        !named_within(name, b),
{
    if !named_within(name, b) {
    } else if exists|k: nat| a.lo < k <= a.hi && #[trigger] is_loop_name(name, k) {
        let j = choose|k: nat| a.lo < k <= a.hi && #[trigger] is_loop_name(name, k);
        if exists|k: nat| b.lo < k <= b.hi && #[trigger] is_loop_name(name, k) {
            let k = choose|k: nat| b.lo < k <= b.hi && #[trigger] is_loop_name(name, k);
            lemma_label_names(j, k);
            lemma_label_names(k, j);
        } else {
            let k = choose|k: nat| b.ilo < k <= b.ihi && #[trigger] is_if_name(name, k);
            lemma_label_names(j, k);
        }
    } else {
        let j = choose|k: nat| a.ilo < k <= a.ihi && #[trigger] is_if_name(name, k);
        if exists|k: nat| b.lo < k <= b.hi && #[trigger] is_loop_name(name, k) {
            let k = choose|k: nat| b.lo < k <= b.hi && #[trigger] is_loop_name(name, k);
            lemma_label_names(k, j);
        } else {
            let k = choose|k: nat| b.ilo < k <= b.ihi && #[trigger] is_if_name(name, k);
            lemma_label_names(j, k);
        }
    }
}

/// A name that is numbered within ranges is numbered within wider ranges.
pub proof fn lemma_named_wider(name: Seq<char>, a: Ranges, b: Ranges)
    requires
        named_within(name, a),
        b.lo <= a.lo,
        a.hi <= b.hi,
        b.ilo <= a.ilo,
        a.ihi <= b.ihi,
    ensures
        named_within(name, b),
{
    if exists|k: nat| a.lo < k <= a.hi && #[trigger] is_loop_name(name, k) {
        let k = choose|k: nat| a.lo < k <= a.hi && #[trigger] is_loop_name(name, k);
        assert(b.lo < k <= b.hi && is_loop_name(name, k));
    } else {
        let k = choose|k: nat| a.ilo < k <= a.ihi && #[trigger] is_if_name(name, k);
        assert(b.ilo < k <= b.ihi && is_if_name(name, k));
    }
}

/// A segment without labels, jumps and register definitions is closed
/// within any ranges.
pub proof fn lemma_closed_plain(lir: Seq<SpecLIR>, r: Ranges)
    requires
        r.lo <= r.hi,
        r.ilo <= r.ihi,
        r.rlo <= r.rhi,
        forall|i: int|
            0 <= i < lir.len() ==> label_of(#[trigger] lir[i]) is None && target_of(lir[i])
                is None && reg_of(lir[i]) is None,
    ensures
        closed(lir, r),
{
}

/// Two closed segments whose ranges follow each other make a closed
/// segment.
pub proof fn lemma_closed_concat(x: Seq<SpecLIR>, y: Seq<SpecLIR>, a: Ranges, b: Ranges)
    requires
        closed(x, a),
        closed(y, b),
        follows(a, b),
    ensures
        closed(x + y, joined(a, b)),
{
    let z = x + y;
    let r = joined(a, b);
    assert forall|i: int| 0 <= i < z.len() implies (label_of(#[trigger] z[i]) matches Some(
        name,
    ) ==> named_within(name, r)) by {
        if let Some(name) = label_of(z[i]) {
            if i < x.len() {
                assert(z[i] == x[i]);
                lemma_named_wider(name, a, r);
            } else {
                assert(z[i] == y[i - x.len()]);
                lemma_named_wider(name, b, r);
            }
        }
    }
    assert forall|i: int| 0 <= i < z.len() implies (reg_of(#[trigger] z[i]) matches Some(n)
        ==> r.rlo <= n < r.rhi) by {
        if i < x.len() {
            assert(z[i] == x[i]);
        } else {
            assert(z[i] == y[i - x.len()]);
        }
    }
    assert forall|i: int, j: int|
        0 <= i < j < z.len() && label_of(#[trigger] z[i]) is Some implies label_of(z[i])
        != label_of(#[trigger] z[j]) by {
        if j < x.len() {
            assert(z[i] == x[i] && z[j] == x[j]);
        } else if i >= x.len() {
            assert(z[i] == y[i - x.len()] && z[j] == y[j - x.len()]);
        } else {
            assert(z[i] == x[i] && z[j] == y[j - x.len()]);
            if label_of(z[i]) == label_of(z[j]) {
                lemma_named_apart(label_of(z[i])->Some_0, a, b);
            }
        }
    }
    assert forall|i: int, j: int|
        0 <= i < j < z.len() && reg_of(#[trigger] z[i]) is Some implies reg_of(z[i]) != reg_of(
        #[trigger] z[j],
    ) by {
        if j < x.len() {
            assert(z[i] == x[i] && z[j] == x[j]);
        } else if i >= x.len() {
            assert(z[i] == y[i - x.len()] && z[j] == y[j - x.len()]);
        } else {
            assert(z[i] == x[i] && z[j] == y[j - x.len()]);
        }
    }
    assert forall|i: int| 0 <= i < z.len() implies (target_of(#[trigger] z[i]) matches Some(
        name,
    ) ==> defines(z, name)) by {
        if let Some(name) = target_of(z[i]) {
            if i < x.len() {
                assert(z[i] == x[i]);
                let j = choose|j: int| 0 <= j < x.len() && #[trigger] x[j] == SpecLIR::Label(name);
                assert(z[j] == SpecLIR::Label(name));
            } else {
                assert(z[i] == y[i - x.len()]);
                let j = choose|j: int| 0 <= j < y.len() && #[trigger] y[j] == SpecLIR::Label(name);
                assert(z[j + x.len()] == SpecLIR::Label(name));
            }
        }
    }
}

/// The head of loop `k`, a body that is closed within ranges that begin
/// after `k`, and the tail of the loop make a segment that is closed within
/// the ranges with `k` taken in.
pub proof fn lemma_closed_loop(body: Seq<SpecLIR>, k: nat, r: Ranges)
    requires
        closed(body, r),
        r.lo == k,
        k >= 1,
    ensures
        closed(loop_head(k) + body + loop_tail(k), Ranges { lo: (k - 1) as nat, ..r }),
{
    let z = loop_head(k) + body + loop_tail(k);
    let w = Ranges { lo: (k - 1) as nat, ..r };
    let n = body.len() as int;
    assert(z.len() == n + 4);
    assert(z[0] == SpecLIR::Jp(endloop_label(k)));
    assert(z[1] == SpecLIR::Label(loop_label(k)));
    assert(z[n + 2] == SpecLIR::Label(endloop_label(k)));
    assert(z[n + 3] == SpecLIR::Jnz(SpecRVal::Tape(0), loop_label(k)));
    assert forall|i: int| 2 <= i < n + 2 implies #[trigger] z[i] == body[i - 2] by {}
    let own = Ranges { lo: (k - 1) as nat, hi: k, ilo: r.ilo, ihi: r.ilo, rlo: r.rlo, rhi: r.rlo };
    assert(is_loop_name(loop_label(k), k));
    assert(is_loop_name(endloop_label(k), k));
    assert(named_within(loop_label(k), own));
    assert(named_within(endloop_label(k), own));
    lemma_named_wider(loop_label(k), own, w);
    lemma_named_wider(endloop_label(k), own, w);
    lemma_label_names(k, k);
    assert forall|i: int| 0 <= i < z.len() implies (label_of(#[trigger] z[i]) matches Some(
        name,
    ) ==> named_within(name, w)) by {
        if 2 <= i < n + 2 {
            assert(z[i] == body[i - 2]);
            if let Some(name) = label_of(z[i]) {
                lemma_named_wider(name, r, w);
            }
        }
    }
    assert forall|i: int| 0 <= i < z.len() implies (reg_of(#[trigger] z[i]) matches Some(m)
        ==> w.rlo <= m < w.rhi) by {
        if 2 <= i < n + 2 {
            assert(z[i] == body[i - 2]);
        }
    }
    assert forall|i: int, j: int|
        0 <= i < j < z.len() && label_of(#[trigger] z[i]) is Some implies label_of(z[i])
        != label_of(#[trigger] z[j]) by {
        let follow = Ranges { lo: k, hi: r.hi, ilo: r.ilo, ihi: r.ihi, rlo: r.rlo, rhi: r.rhi };
        if 2 <= i < n + 2 && 2 <= j < n + 2 {
            assert(z[i] == body[i - 2] && z[j] == body[j - 2]);
        } else if label_of(z[i]) == label_of(z[j]) {
            if 2 <= i < n + 2 {
                assert(z[i] == body[i - 2]);
                lemma_named_apart(label_of(z[i])->Some_0, own, follow);
            } else if 2 <= j < n + 2 {
                assert(z[j] == body[j - 2]);
                lemma_named_apart(label_of(z[j])->Some_0, own, follow);
            }
        }
    }
    assert forall|i: int, j: int|
        0 <= i < j < z.len() && reg_of(#[trigger] z[i]) is Some implies reg_of(z[i]) != reg_of(
        #[trigger] z[j],
    ) by {
        if 2 <= i < n + 2 && 2 <= j < n + 2 {
            assert(z[i] == body[i - 2] && z[j] == body[j - 2]);
        }
    }
    assert forall|i: int| 0 <= i < z.len() implies (target_of(#[trigger] z[i]) matches Some(
        name,
    ) ==> defines(z, name)) by {
        if let Some(name) = target_of(z[i]) {
            if 2 <= i < n + 2 {
                assert(z[i] == body[i - 2]);
                let j = choose|j: int|
                    0 <= j < body.len() && #[trigger] body[j] == SpecLIR::Label(name);
                assert(z[j + 2] == SpecLIR::Label(name));
            } else if i == 0 {
                assert(z[n + 2] == SpecLIR::Label(name));
            } else {
                assert(z[1] == SpecLIR::Label(name));
            }
        }
    }
}

/// The jump over conditional block `k`, a body that is closed within
/// ranges that begin after `k`, and the label of the block make a segment
/// that is closed within the ranges with `k` taken in.
pub proof fn lemma_closed_if(body: Seq<SpecLIR>, test: SpecRVal, k: nat, r: Ranges)
    requires
        closed(body, r),
        r.ilo == k,
        k >= 1,
    ensures
        closed(
            seq![SpecLIR::Jz(test, endif_label(k))] + body + seq![SpecLIR::Label(endif_label(k))],
            Ranges { ilo: (k - 1) as nat, ..r },
        ),
{
    let z = seq![SpecLIR::Jz(test, endif_label(k))] + body + seq![SpecLIR::Label(endif_label(k))];
    let w = Ranges { ilo: (k - 1) as nat, ..r };
    let n = body.len() as int;
    assert(z.len() == n + 2);
    assert(z[0] == SpecLIR::Jz(test, endif_label(k)));
    assert(z[n + 1] == SpecLIR::Label(endif_label(k)));
    assert forall|i: int| 1 <= i < n + 1 implies #[trigger] z[i] == body[i - 1] by {}
    let own = Ranges { lo: r.lo, hi: r.lo, ilo: (k - 1) as nat, ihi: k, rlo: r.rlo, rhi: r.rlo };
    assert(is_if_name(endif_label(k), k));
    assert(named_within(endif_label(k), own));
    lemma_named_wider(endif_label(k), own, w);
    assert forall|i: int| 0 <= i < z.len() implies (label_of(#[trigger] z[i]) matches Some(
        name,
    ) ==> named_within(name, w)) by {
        if 1 <= i < n + 1 {
            assert(z[i] == body[i - 1]);
            if let Some(name) = label_of(z[i]) {
                lemma_named_wider(name, r, w);
            }
        }
    }
    assert forall|i: int| 0 <= i < z.len() implies (reg_of(#[trigger] z[i]) matches Some(m)
        ==> w.rlo <= m < w.rhi) by {
        if 1 <= i < n + 1 {
            assert(z[i] == body[i - 1]);
        }
    }
    assert forall|i: int, j: int|
        0 <= i < j < z.len() && label_of(#[trigger] z[i]) is Some implies label_of(z[i])
        != label_of(#[trigger] z[j]) by {
        if 1 <= i < n + 1 && 1 <= j < n + 1 {
            assert(z[i] == body[i - 1] && z[j] == body[j - 1]);
        } else if label_of(z[i]) == label_of(z[j]) {
            assert(z[i] == body[i - 1]);
            lemma_named_apart(label_of(z[i])->Some_0, own, r);
        }
    }
    assert forall|i: int, j: int|
        0 <= i < j < z.len() && reg_of(#[trigger] z[i]) is Some implies reg_of(z[i]) != reg_of(
        #[trigger] z[j],
    ) by {
        if 1 <= i < n + 1 && 1 <= j < n + 1 {
            assert(z[i] == body[i - 1] && z[j] == body[j - 1]);
        }
    }
    assert forall|i: int| 0 <= i < z.len() implies (target_of(#[trigger] z[i]) matches Some(
        name,
    ) ==> defines(z, name)) by {
        if let Some(name) = target_of(z[i]) {
            if 1 <= i < n + 1 {
                assert(z[i] == body[i - 1]);
                let j = choose|j: int|
                    0 <= j < body.len() && #[trigger] body[j] == SpecLIR::Label(name);
                assert(z[j + 1] == SpecLIR::Label(name));
            } else {
                assert(z[n + 1] == SpecLIR::Label(name));
            }
        }
    }
}

/// One or two instructions of which the first defines register `n` and
/// nothing else defines, labels or jumps, are closed within ranges that
/// hold that register alone.
pub proof fn lemma_closed_def(lir: Seq<SpecLIR>, n: nat, r: Ranges)
    requires
        r.lo == r.hi,
        r.ilo == r.ihi,
        r.rlo == n,
        r.rhi == n + 1,
        n <= u32::MAX,
        1 <= lir.len(),
        reg_of(lir[0]) == Some(n as u32),
        forall|i: int| 1 <= i < lir.len() ==> reg_of(#[trigger] lir[i]) is None,
        forall|i: int|
            0 <= i < lir.len() ==> label_of(#[trigger] lir[i]) is None && target_of(lir[i])
                is None,
    ensures
        closed(lir, r),
{
}

} // verus!
